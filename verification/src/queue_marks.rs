//! Which local transactions the operations of the queue mark.
use crate::order::TransactionOrder;
use crate::queue_model::{
    added_internal, aged, becomes_local, below_base, filled, from_base, future_limited, held, lifted,
    loses, marked_local, moves_as_local, next_nonce, order_in, outdated, places_of, presentable,
    promoted, resists, retreated, revalidated, run_end, settled, span, struck, without_old_of,
    QueueView,
};
use crate::transaction::{
    AccountDetails, Error, SignedTransaction, TransactionOrigin, VerifiedTransaction,
};
use crate::transaction_set::{dropped_marks, forget, slot_of};
use crate::uint::{Address, H256, U256};
use crate::vec_map::Slot;
use vstd::prelude::*;

verus! {

/// The hash of a transaction, if it is local.
pub open spec fn own_mark(tx: VerifiedTransaction) -> Set<H256> {
    if tx.origin == TransactionOrigin::Local {
        Set::empty().insert(tx.transaction.hash)
    } else {
        Set::empty()
    }
}

/// The hash of an order, if it is local.
pub open spec fn order_mark(order: TransactionOrder) -> Set<H256> {
    if order.origin == TransactionOrigin::Local {
        Set::empty().insert(order.hash)
    } else {
        Set::empty()
    }
}

/// What is marked where `order` is put at `slot`: the transaction that loses the place, if it is local.
pub open spec fn taken_marks(
    by_hash: Map<H256, VerifiedTransaction>,
    orders: Map<Slot, TransactionOrder>,
    slot: Slot,
    order: TransactionOrder,
    outbid: bool,
) -> Set<H256> {
    if resists(orders, slot, order, outbid) {
        own_mark(by_hash[order.hash])
    } else if orders.contains_key(slot) {
        own_mark(by_hash[orders[slot].hash])
    } else {
        Set::empty()
    }
}

/// What is marked where the orders of `moved` come into `target`: local transactions that move or lose
/// their places.
pub open spec fn moved_marks(
    by_hash: Map<H256, VerifiedTransaction>,
    target: Map<Slot, TransactionOrder>,
    moved: Map<Slot, TransactionOrder>,
) -> Set<H256> {
    Set::new(
        |h: H256|
            (loses(by_hash, target, moved, h) && by_hash[h].origin == TransactionOrigin::Local)
                || moves_as_local(by_hash, moved, h),
    )
}

/// What [`retreated`] marks.
pub open spec fn retreated_marks(v: QueueView, places: Set<Slot>, base: U256) -> Set<H256> {
    let mined = below_base(v.current.orders, places, base);
    let moved = from_base(v.current.orders, places, base);
    let known = forget(v.by_hash, v.current.orders, mined);
    dropped_marks(v.by_hash, v.current.orders, mined).union(
        moved_marks(known, v.future.orders, moved),
    )
}

/// What [`crate::queue_model::promoted_upto`] marks.
pub open spec fn promoted_upto_marks(
    v: QueueView,
    sender: Address,
    from: nat,
    base: U256,
    end: nat,
) -> Set<H256> {
    moved_marks(
        v.by_hash,
        v.current.orders,
        lifted(v.future.orders, span(sender, from, end), base),
    )
}

/// What [`promoted`] marks.
pub open spec fn promoted_marks(v: QueueView, sender: Address, from: nat, base: U256) -> Set<H256> {
    promoted_upto_marks(v, sender, from, base, run_end(v.future.orders, sender, from))
}

/// What is marked where the transactions at the given places become local.
pub open spec fn localized_marks(
    by_hash: Map<H256, VerifiedTransaction>,
    orders: Map<Slot, TransactionOrder>,
    places: Set<Slot>,
) -> Set<H256> {
    Set::new(|h: H256| becomes_local(by_hash, orders, places, h))
}

/// What [`marked_local`] marks.
pub open spec fn marked_local_marks(v: QueueView, sender: Address) -> Set<H256> {
    localized_marks(v.by_hash, v.current.orders, places_of(v.current.orders, sender)).union(
        localized_marks(v.by_hash, v.future.orders, places_of(v.future.orders, sender)),
    )
}

/// What [`crate::queue_model::caught_up`] marks.
pub open spec fn caught_up_marks(v: QueueView, sender: Address, state_nonce: U256) -> Set<H256> {
    promoted_marks(aged(v, sender, state_nonce), sender, state_nonce@, state_nonce)
}

/// What [`revalidated`] marks.
pub open spec fn revalidated_marks(v: QueueView, sender: Address, state_nonce: U256) -> Set<H256> {
    let young = aged(v, sender, state_nonce);
    let here = places_of(young.current.orders, sender);
    if settled(young, sender, state_nonce) {
        Set::empty()
    } else {
        retreated_marks(young, here, state_nonce).union(
            promoted_marks(
                retreated(young, here, state_nonce),
                sender,
                state_nonce@,
                state_nonce,
            ),
        )
    }
}

/// What is marked where a transaction is put into a set with the given orders.
pub open spec fn entered_marks(
    v: QueueView,
    orders: Map<Slot, TransactionOrder>,
    tx: VerifiedTransaction,
    base: U256,
) -> Set<H256> {
    taken_marks(
        v.by_hash.insert(tx.transaction.hash, tx),
        orders,
        slot_of(tx),
        order_in(v, tx, base),
        true,
    )
}

/// What [`filled`] marks.
pub open spec fn filled_marks(v: QueueView, sender: Address, nonce: U256, base: U256) -> Set<H256> {
    promoted_marks(v, sender, nonce@, base).union(
        promoted_marks(promoted(v, sender, nonce@, base), sender, nonce@ + 1, base),
    )
}

/// What [`crate::queue_model::import_to_current`] marks.
pub open spec fn import_to_current_marks(
    v: QueueView,
    tx: VerifiedTransaction,
    state_nonce: U256,
) -> Set<H256> {
    let Slot { sender, nonce } = slot_of(tx);
    let full = filled(v, sender, nonce, state_nonce);
    filled_marks(v, sender, nonce, state_nonce).union(
        entered_marks(full, full.current.orders, tx, state_nonce),
    )
}

/// What [`crate::queue_model::import`] marks.
#[verifier::opaque]
pub open spec fn import_marks(v: QueueView, tx: VerifiedTransaction, state_nonce: U256) -> Set<H256> {
    let Slot { sender, nonce } = slot_of(tx);
    let ready = revalidated(v, sender, state_nonce);
    let local = tx.origin == TransactionOrigin::Local;
    let marked = if local {
        marked_local(ready, sender)
    } else {
        ready
    };
    let marks = revalidated_marks(v, sender, state_nonce).union(
        if local {
            marked_local_marks(ready, sender)
        } else {
            Set::empty()
        },
    );
    if v.by_hash.contains_key(tx.transaction.hash) || nonce@ < state_nonce@ {
        Set::empty()
    } else if nonce@ > next_nonce(ready, sender, state_nonce) {
        marks.union(entered_marks(marked, marked.future.orders, tx, state_nonce))
    } else {
        marks.union(import_to_current_marks(marked, tx, state_nonce))
    }
}

/// What [`added_internal`] marks.
pub open spec fn added_internal_marks(
    v: QueueView,
    tx: SignedTransaction,
    origin: TransactionOrigin,
    minimal_gas: U256,
    account: AccountDetails,
) -> Set<H256> {
    if presentable(v, tx, origin, minimal_gas) && account.balance@ >= tx.cost() {
        import_marks(v, VerifiedTransaction { transaction: tx, origin }, account.nonce)
    } else {
        Set::empty()
    }
}

/// What [`crate::queue_model::added`] marks: a local transaction gets its status last of all, unless it is
/// refused and has one already.
pub open spec fn added_marks(
    v: QueueView,
    tx: SignedTransaction,
    origin: TransactionOrigin,
    minimal_gas: U256,
    account: AccountDetails,
) -> Set<H256> {
    let (after, r) = added_internal(v, tx, origin, minimal_gas, account);
    let marks = added_internal_marks(v, tx, origin, minimal_gas, account);
    let again = r matches Err(Error::Transaction(_)) && after.local.contains_key(
        tx.hash,
    );
    if origin == TransactionOrigin::Local && !again {
        marks.insert(tx.hash)
    } else {
        marks
    }
}

/// What [`crate::queue_model::resorted`] marks.
pub open spec fn resorted_marks(v: QueueView, sender: Address, client_nonce: U256) -> Set<H256> {
    let aged = aged(v, sender, client_nonce);
    let here = places_of(aged.current.orders, sender);
    retreated_marks(aged, here, client_nonce).union(
        promoted_marks(
            future_limited(retreated(aged, here, client_nonce)),
            sender,
            client_nonce@,
            client_nonce,
        ),
    )
}

/// What [`crate::queue_model::without_old`] marks.
pub open spec fn without_old_marks(v: QueueView, sender: Address, client_nonce: U256) -> Set<H256> {
    if outdated(v, sender, client_nonce) {
        resorted_marks(v, sender, client_nonce)
    } else {
        Set::empty()
    }
}

/// What [`without_old_of`] marks.
pub open spec fn without_old_of_marks(
    v: QueueView,
    senders: Seq<Address>,
    nonces: Seq<U256>,
) -> Set<H256>
    decreases senders.len(),
{
    if senders.len() == 0 {
        Set::empty()
    } else {
        without_old_of_marks(v, senders.drop_last(), nonces.drop_last()).union(
            without_old_marks(
                without_old_of(v, senders.drop_last(), nonces.drop_last()),
                senders.last(),
                nonces.last(),
            ),
        )
    }
}

/// What [`crate::queue_model::without_invalid`] marks.
pub open spec fn without_invalid_marks(v: QueueView, hash: H256, nonce: U256) -> Set<H256> {
    let sender = slot_of(v.by_hash[hash]).sender;
    let invalid = if v.local.contains_key(hash) {
        Set::empty().insert(hash)
    } else {
        Set::empty()
    };
    if !v.by_hash.contains_key(hash) {
        Set::empty()
    } else if held(v.by_hash, v.future.orders, hash) {
        invalid.union(caught_up_marks(struck(v, hash), sender, nonce))
    } else {
        invalid.union(resorted_marks(struck(v, hash), sender, nonce))
    }
}

} // verus!
