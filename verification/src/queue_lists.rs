//! How the list of local transactions comes out of each operation of the queue.
//!
//! What moves to `current` is marked by rising nonce, so the list that comes of it is given exactly. What
//! leaves `current`, or becomes local, is marked in whatever order a sender's transactions are walked:
//! there the marked ones follow the others, and the order among them is left open.
use crate::local_transactions::{marked, remarked, HashWords, LocalTransactionStatus};
use crate::order::TransactionOrder;
use crate::queue_marks::{localized_marks, retreated_marks};
use crate::queue_model::{
    added_internal, aged, filled, future_limited, held, marked_local, next_nonce, order_in, outdated,
    place, places_of, presentable, promoted, promoted_upto, resists, retreated, revalidated, run_end,
    settled, struck, without_old_of, QueueView,
};
use crate::transaction::{
    AccountDetails, Error, SignedTransaction, TransactionImportResult, TransactionOrigin,
    VerifiedTransaction,
};
use crate::transaction_set::slot_of;
use crate::uint::{Address, H256, U256};
use crate::vec_map::Slot;
use vstd::prelude::*;

verus! {

/// The entries of a list, oldest first.
pub type Entries = Seq<(HashWords, LocalTransactionStatus)>;

/// The list once `hash` was marked.
pub open spec fn noted(list: Entries, hash: H256, status: LocalTransactionStatus) -> Entries {
    marked(list, (hash.hi, hash.lo), status)
}

/// The list once `tx` was replaced by a transaction of the given price and hash.
pub open spec fn replaced_list(
    list: Entries,
    tx: VerifiedTransaction,
    gas_price: U256,
    hash: H256,
) -> Entries {
    if tx.origin == TransactionOrigin::Local {
        noted(
            list,
            tx.transaction.hash,
            LocalTransactionStatus::Replaced(tx.transaction, gas_price, hash),
        )
    } else {
        list
    }
}

/// The list once `order` was put at `slot`.
pub open spec fn taken_list(
    list: Entries,
    by_hash: Map<H256, VerifiedTransaction>,
    orders: Map<Slot, TransactionOrder>,
    slot: Slot,
    order: TransactionOrder,
    outbid: bool,
) -> Entries {
    if resists(orders, slot, order, outbid) {
        replaced_list(list, by_hash[order.hash], orders[slot].gas_price, orders[slot].hash)
    } else if orders.contains_key(slot) {
        replaced_list(list, by_hash[orders[slot].hash], order.gas_price, order.hash)
    } else {
        list
    }
}

/// The list once an order that goes to `current` was marked, if it is local.
pub open spec fn pending_list(list: Entries, order: TransactionOrder) -> Entries {
    if order.origin == TransactionOrigin::Local {
        noted(list, order.hash, LocalTransactionStatus::Pending)
    } else {
        list
    }
}

/// The list after [`promoted_upto`]: one transaction after the other, by rising nonce.
pub open spec fn promoted_upto_list(
    list: Entries,
    v: QueueView,
    sender: Address,
    from: nat,
    base: U256,
    end: nat,
) -> Entries
    decreases end,
{
    if end <= from {
        list
    } else {
        let last = (end - 1) as nat;
        let slot = place(sender, last);
        let before = promoted_upto(v, sender, from, base, last);
        let order = v.future.orders[slot].with_height((last - base@) as nat);
        taken_list(
            pending_list(promoted_upto_list(list, v, sender, from, base, last), order),
            before.by_hash,
            before.current.orders,
            slot,
            order,
            false,
        )
    }
}

/// The list after [`promoted`].
pub open spec fn promoted_list(
    list: Entries,
    v: QueueView,
    sender: Address,
    from: nat,
    base: U256,
) -> Entries {
    promoted_upto_list(list, v, sender, from, base, run_end(v.future.orders, sender, from))
}

/// The list after [`filled`].
pub open spec fn filled_list(
    list: Entries,
    v: QueueView,
    sender: Address,
    nonce: U256,
    base: U256,
) -> Entries {
    promoted_list(
        promoted_list(list, v, sender, nonce@, base),
        promoted(v, sender, nonce@, base),
        sender,
        nonce@ + 1,
        base,
    )
}

/// The list once `tx` was put into a set with the given orders.
pub open spec fn entered_list(
    list: Entries,
    v: QueueView,
    orders: Map<Slot, TransactionOrder>,
    tx: VerifiedTransaction,
    base: U256,
) -> Entries {
    taken_list(
        list,
        v.by_hash.insert(tx.transaction.hash, tx),
        orders,
        slot_of(tx),
        order_in(v, tx, base),
        true,
    )
}

/// The list after [`crate::queue_model::import_to_current`].
pub open spec fn import_to_current_list(
    list: Entries,
    v: QueueView,
    tx: VerifiedTransaction,
    state_nonce: U256,
) -> Entries {
    let Slot { sender, nonce } = slot_of(tx);
    let full = filled(v, sender, nonce, state_nonce);
    entered_list(
        filled_list(list, v, sender, nonce, state_nonce),
        full,
        full.current.orders,
        tx,
        state_nonce,
    )
}

/// Whether `after` is the list where a sender left `current` and, in the state `moved`, the run from the
/// state nonce came back.
pub open spec fn comes_back(
    v: QueueView,
    moved: QueueView,
    sender: Address,
    state_nonce: U256,
    before: Entries,
    after: Entries,
) -> bool {
    exists|left: Entries| #[trigger]
        remarked(
            before,
            left,
            retreated_marks(v, places_of(v.current.orders, sender), state_nonce),
        ) && after == promoted_list(left, moved, sender, state_nonce@, state_nonce)
}

/// Whether `after` is the list after [`revalidated`].
pub open spec fn revalidated_lists(
    v: QueueView,
    sender: Address,
    state_nonce: U256,
    before: Entries,
    after: Entries,
) -> bool {
    let young = aged(v, sender, state_nonce);
    if settled(young, sender, state_nonce) {
        after == before
    } else {
        comes_back(
            young,
            retreated(young, places_of(young.current.orders, sender), state_nonce),
            sender,
            state_nonce,
            before,
            after,
        )
    }
}

/// Whether `after` is the list after [`marked_local`]: first what is in `current` is marked, then what is
/// in `future`.
pub open spec fn marked_local_lists(
    v: QueueView,
    sender: Address,
    before: Entries,
    after: Entries,
) -> bool {
    exists|between: Entries| #[trigger]
        remarked(
            before,
            between,
            localized_marks(v.by_hash, v.current.orders, places_of(v.current.orders, sender)),
        ) && remarked(
            between,
            after,
            localized_marks(v.by_hash, v.future.orders, places_of(v.future.orders, sender)),
        )
}

/// Whether `after` is the list once a sender's transactions were made local, if `tx` is.
pub open spec fn adopted_lists(
    v: QueueView,
    tx: VerifiedTransaction,
    before: Entries,
    after: Entries,
) -> bool {
    if tx.origin == TransactionOrigin::Local {
        marked_local_lists(v, slot_of(tx).sender, before, after)
    } else {
        after == before
    }
}

/// Whether `after` is the list after [`crate::queue_model::import`].
#[verifier::opaque]
pub open spec fn import_lists(
    v: QueueView,
    tx: VerifiedTransaction,
    state_nonce: U256,
    before: Entries,
    after: Entries,
) -> bool {
    let Slot { sender, nonce } = slot_of(tx);
    let ready = revalidated(v, sender, state_nonce);
    let own = if tx.origin == TransactionOrigin::Local {
        marked_local(ready, sender)
    } else {
        ready
    };
    if v.by_hash.contains_key(tx.transaction.hash) || nonce@ < state_nonce@ {
        after == before
    } else {
        exists|valid: Entries, adopted: Entries| #[trigger]
            revalidated_lists(v, sender, state_nonce, before, valid) && #[trigger] adopted_lists(
                ready,
                tx,
                valid,
                adopted,
            ) && after == if nonce@ > next_nonce(ready, sender, state_nonce) {
                entered_list(adopted, own, own.future.orders, tx, state_nonce)
            } else {
                import_to_current_list(adopted, own, tx, state_nonce)
            }
    }
}

/// Whether `after` is the list after [`added_internal`].
pub open spec fn added_internal_lists(
    v: QueueView,
    tx: SignedTransaction,
    origin: TransactionOrigin,
    minimal_gas: U256,
    account: AccountDetails,
    before: Entries,
    after: Entries,
) -> bool {
    if presentable(v, tx, origin, minimal_gas) && account.balance@ >= tx.cost() {
        import_lists(
            v,
            VerifiedTransaction { transaction: tx, origin },
            account.nonce,
            before,
            after,
        )
    } else {
        after == before
    }
}

/// The list once a local transaction was added with the given result: its entry is the last one, unless
/// it was refused and had one already.
pub open spec fn with_added_list(
    list: Entries,
    known: bool,
    tx: SignedTransaction,
    r: Result<TransactionImportResult, Error>,
) -> Entries {
    match r {
        Ok(TransactionImportResult::Current) => noted(
            list,
            tx.hash,
            LocalTransactionStatus::Pending,
        ),
        Ok(TransactionImportResult::Future) => noted(list, tx.hash, LocalTransactionStatus::Future),
        Err(Error::Transaction(e)) => if known {
            list
        } else {
            noted(list, tx.hash, LocalTransactionStatus::Rejected(tx, e))
        },
        Err(_) => noted(list, tx.hash, LocalTransactionStatus::Invalid(tx)),
    }
}

/// Whether `after` is the list after [`crate::queue_model::added`].
pub open spec fn added_lists(
    v: QueueView,
    tx: SignedTransaction,
    origin: TransactionOrigin,
    minimal_gas: U256,
    account: AccountDetails,
    before: Entries,
    after: Entries,
) -> bool {
    let (w, r) = added_internal(v, tx, origin, minimal_gas, account);
    exists|imported: Entries| #[trigger]
        added_internal_lists(v, tx, origin, minimal_gas, account, before, imported) && after
            == if origin == TransactionOrigin::Local {
            with_added_list(imported, w.local.contains_key(tx.hash), tx, r)
        } else {
            imported
        }
}

/// Whether `after` is the list after [`crate::queue_model::resorted`].
pub open spec fn resorted_lists(
    v: QueueView,
    sender: Address,
    client_nonce: U256,
    before: Entries,
    after: Entries,
) -> bool {
    let young = aged(v, sender, client_nonce);
    comes_back(
        young,
        future_limited(
            retreated(young, places_of(young.current.orders, sender), client_nonce),
        ),
        sender,
        client_nonce,
        before,
        after,
    )
}

/// Whether `after` is the list after [`crate::queue_model::without_old`].
pub open spec fn without_old_lists(
    v: QueueView,
    sender: Address,
    client_nonce: U256,
    before: Entries,
    after: Entries,
) -> bool {
    if outdated(v, sender, client_nonce) {
        resorted_lists(v, sender, client_nonce, before, after)
    } else {
        after == before
    }
}

/// Whether `after` is the list after [`without_old_of`].
pub open spec fn without_old_of_lists(
    v: QueueView,
    senders: Seq<Address>,
    nonces: Seq<U256>,
    before: Entries,
    after: Entries,
) -> bool
    decreases senders.len(),
{
    if senders.len() == 0 {
        after == before
    } else {
        exists|between: Entries|
            without_old_of_lists(
                v,
                senders.drop_last(),
                nonces.drop_last(),
                before,
                between,
            ) && #[trigger] without_old_lists(
                without_old_of(v, senders.drop_last(), nonces.drop_last()),
                senders.last(),
                nonces.last(),
                between,
                after,
            )
    }
}

/// Whether `after` is the list after [`crate::queue_model::without_invalid`]: the transaction is marked
/// before those that move.
pub open spec fn without_invalid_lists(
    v: QueueView,
    hash: H256,
    nonce: U256,
    before: Entries,
    after: Entries,
) -> bool {
    let sender = slot_of(v.by_hash[hash]).sender;
    let rest = struck(v, hash);
    let list = if v.local.contains_key(hash) {
        noted(before, hash, LocalTransactionStatus::Invalid(v.by_hash[hash].transaction))
    } else {
        before
    };
    if !v.by_hash.contains_key(hash) {
        after == before
    } else if held(v.by_hash, v.future.orders, hash) {
        after == promoted_list(list, aged(rest, sender, nonce), sender, nonce@, nonce)
    } else {
        resorted_lists(rest, sender, nonce, list, after)
    }
}

} // verus!
