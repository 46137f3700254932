//! What the transaction queue does, as functions on its abstract state.
use crate::local_transactions::LocalTransactionStatus;
use crate::order::{gas_factor, order_of, PrioritizationStrategy, TransactionOrder};
use crate::transaction::{
    AccountDetails, Error, SignedTransaction, TransactionError, TransactionImportResult, TransactionOrigin,
    VerifiedTransaction,
};
use crate::transaction_set::{
    at, entry_limit, excess, forget, highest, is_highest, labelled, lowest, ranking, slot_of,
    with_dropped, SetView,
};
use crate::uint::{range, u256, Address, H256, U256};
use crate::vec_map::Slot;
use vstd::prelude::*;

verus! {

/// The state of a transaction queue.
#[verifier::ext_equal]
pub struct QueueView {
    /// Prioritization strategy for the queue
    pub strategy: PrioritizationStrategy,
    /// Gas Price threshold for transactions that can be imported
    pub minimal_gas_price: U256,
    /// The maximum amount of gas any individual transaction may use.
    pub tx_gas_limit: U256,
    /// Current gas limit (block gas limit * factor).
    pub gas_limit: U256,
    /// Transactions that can go to block
    pub current: SetView,
    /// Transactions that are not yet valid to go to block
    pub future: SetView,
    /// All transactions, by hash
    pub by_hash: Map<H256, VerifiedTransaction>,
    /// Highest nonce of each sender that has a transaction in `current`
    pub last_nonces: Map<Address, U256>,
    /// What became of local transactions
    pub local: Map<H256, LocalTransactionStatus>,
}

// ---------------------------------------------------------------------------------------------
// The invariant
// ---------------------------------------------------------------------------------------------

/// Whether `order` is an order that the queue may have for `tx`. A transaction that was not local may
/// have become so.
pub open spec fn fits(
    order: TransactionOrder,
    tx: VerifiedTransaction,
    strategy: PrioritizationStrategy,
) -> bool {
    &&& order.gas_price == tx.transaction.gas_price
    &&& order.gas == tx.transaction.gas
    &&& order.strategy == strategy
    &&& order.origin == tx.origin || order.origin == TransactionOrigin::Local
}

/// Whether each order belongs to a known transaction, and is an order for it.
pub open spec fn indexed(
    orders: Map<Slot, TransactionOrder>,
    by_hash: Map<H256, VerifiedTransaction>,
    strategy: PrioritizationStrategy,
) -> bool {
    &&& labelled(orders, by_hash)
    &&& forall|k: Slot| #[trigger]
        orders.contains_key(k) ==> fits(orders[k], by_hash[orders[k].hash], strategy)
}

/// Whether the known transaction `hash` has its order in `orders`.
pub open spec fn held(
    by_hash: Map<H256, VerifiedTransaction>,
    orders: Map<Slot, TransactionOrder>,
    hash: H256,
) -> bool {
    orders.contains_key(slot_of(by_hash[hash])) && orders[slot_of(by_hash[hash])].hash == hash
}

/// Whether each known transaction has its order in exactly one of the two sets, each order belongs to a
/// known transaction, and the highest nonces in `current` are noted.
pub open spec fn consistent(v: QueueView) -> bool {
    &&& indexed(v.current.orders, v.by_hash, v.strategy)
    &&& indexed(v.future.orders, v.by_hash, v.strategy)
    &&& forall|h: H256| #[trigger]
        v.by_hash.contains_key(h) ==> {
            &&& v.by_hash[h].transaction.hash == h
            &&& v.by_hash[h].transaction.signer is Some
            &&& held(v.by_hash, v.current.orders, h) || held(v.by_hash, v.future.orders, h)
        }
    &&& forall|k: Slot| #[trigger]
        v.current.orders.contains_key(k) && #[trigger] v.future.orders.contains_key(k)
            ==> v.current.orders[k].hash != v.future.orders[k].hash
    &&& is_highest(v.current.orders.dom(), v.last_nonces)
}

// ---------------------------------------------------------------------------------------------
// Steps
// ---------------------------------------------------------------------------------------------

/// The places of a sender.
pub open spec fn places_of(orders: Map<Slot, TransactionOrder>, sender: Address) -> Set<Slot> {
    Set::new(|k: Slot| orders.contains_key(k) && k.sender == sender)
}

/// The places of a sender below a nonce.
pub open spec fn stale(orders: Map<Slot, TransactionOrder>, sender: Address, base: U256) -> Set<
    Slot,
> {
    Set::new(|k: Slot| orders.contains_key(k) && k.sender == sender && k.nonce@ < base@)
}

/// The orders without a sender's stale ones, and with the heights of the sender's other ones counted
/// from `base`.
pub open spec fn reheighted(
    orders: Map<Slot, TransactionOrder>,
    sender: Address,
    base: U256,
) -> Map<Slot, TransactionOrder> {
    Map::new(
        |k: Slot| orders.contains_key(k) && !(k.sender == sender && k.nonce@ < base@),
        |k: Slot|
            if k.sender == sender {
                orders[k].with_height((k.nonce@ - base@) as nat)
            } else {
                orders[k]
            },
    )
}

/// A sender's transactions in `future` are brought up to the state nonce: those below it are forgotten,
/// the heights of the others are counted from it.
pub open spec fn aged(v: QueueView, sender: Address, base: U256) -> QueueView {
    QueueView {
        future: SetView { orders: reheighted(v.future.orders, sender, base), ..v.future },
        by_hash: forget(v.by_hash, v.future.orders, stale(v.future.orders, sender, base)),
        ..v
    }
}

/// Whether the order that `target` has at a place stays there against the one that moves in: it does
/// where its gas price is higher.
pub open spec fn stays(
    target: Map<Slot, TransactionOrder>,
    moved: Map<Slot, TransactionOrder>,
    k: Slot,
) -> bool {
    target.contains_key(k) && moved.contains_key(k) && target[k].gas_price@ > moved[k].gas_price@
}

/// `target` once the orders of `moved` came in.
pub open spec fn merged(
    target: Map<Slot, TransactionOrder>,
    moved: Map<Slot, TransactionOrder>,
) -> Map<Slot, TransactionOrder> {
    Map::new(
        |k: Slot| target.contains_key(k) || moved.contains_key(k),
        |k: Slot|
            if moved.contains_key(k) && !stays(target, moved, k) {
                moved[k]
            } else {
                target[k]
            },
    )
}

/// Whether the transaction `hash` loses its place where the orders of `moved` come into `target`.
pub open spec fn loses(
    by_hash: Map<H256, VerifiedTransaction>,
    target: Map<Slot, TransactionOrder>,
    moved: Map<Slot, TransactionOrder>,
    hash: H256,
) -> bool {
    let k = slot_of(by_hash[hash]);
    &&& by_hash.contains_key(hash)
    &&& target.contains_key(k)
    &&& moved.contains_key(k)
    &&& hash == if stays(target, moved, k) {
        moved[k].hash
    } else {
        target[k].hash
    }
}

/// The known transactions once those that lost their place are forgotten.
pub open spec fn winners(
    by_hash: Map<H256, VerifiedTransaction>,
    target: Map<Slot, TransactionOrder>,
    moved: Map<Slot, TransactionOrder>,
) -> Map<H256, VerifiedTransaction> {
    Map::new(
        |h: H256| by_hash.contains_key(h) && !loses(by_hash, target, moved, h),
        |h: H256| by_hash[h],
    )
}

/// Whether `hash` is one of the transactions that move, and its order is local.
pub open spec fn moves_as_local(
    by_hash: Map<H256, VerifiedTransaction>,
    moved: Map<Slot, TransactionOrder>,
    hash: H256,
) -> bool {
    let k = slot_of(by_hash[hash]);
    &&& by_hash.contains_key(hash)
    &&& moved.contains_key(k)
    &&& moved[k].hash == hash
    &&& moved[k].origin == TransactionOrigin::Local
}

/// The statuses once the orders of `moved` came into `target`: the local ones among them get `status`,
/// and a local transaction that lost its place was replaced by the one that has it.
pub open spec fn with_moved(
    local: Map<H256, LocalTransactionStatus>,
    by_hash: Map<H256, VerifiedTransaction>,
    target: Map<Slot, TransactionOrder>,
    moved: Map<Slot, TransactionOrder>,
    status: LocalTransactionStatus,
) -> Map<H256, LocalTransactionStatus> {
    let replaced = |h: H256|
        loses(by_hash, target, moved, h) && by_hash[h].origin == TransactionOrigin::Local;
    Map::new(
        |h: H256| local.contains_key(h) || replaced(h) || moves_as_local(by_hash, moved, h),
        |h: H256|
            if replaced(h) {
                let winner = merged(target, moved)[slot_of(by_hash[h])];
                LocalTransactionStatus::Replaced(
                    by_hash[h].transaction,
                    winner.gas_price,
                    winner.hash,
                )
            } else if moves_as_local(by_hash, moved, h) {
                status
            } else {
                local[h]
            },
    )
}

/// The statuses once the local transactions at the given places were mined.
pub open spec fn with_mined(
    local: Map<H256, LocalTransactionStatus>,
    by_hash: Map<H256, VerifiedTransaction>,
    orders: Map<Slot, TransactionOrder>,
    places: Set<Slot>,
) -> Map<H256, LocalTransactionStatus> {
    let mined = |h: H256|
        at(by_hash, orders, places, h) && by_hash[h].origin == TransactionOrigin::Local;
    Map::new(
        |h: H256| local.contains_key(h) || mined(h),
        |h: H256|
            if mined(h) {
                LocalTransactionStatus::Mined(by_hash[h].transaction)
            } else {
                local[h]
            },
    )
}

/// The orders at the given places from `base` on, with heights counted from it.
pub open spec fn from_base(
    orders: Map<Slot, TransactionOrder>,
    places: Set<Slot>,
    base: U256,
) -> Map<Slot, TransactionOrder> {
    Map::new(
        |k: Slot| orders.contains_key(k) && places.contains(k) && base@ <= k.nonce@,
        |k: Slot| orders[k].with_height((k.nonce@ - base@) as nat),
    )
}

/// Those of the places that have an order below `base`.
pub open spec fn below_base(
    orders: Map<Slot, TransactionOrder>,
    places: Set<Slot>,
    base: U256,
) -> Set<Slot> {
    Set::new(|k: Slot| orders.contains_key(k) && places.contains(k) && k.nonce@ < base@)
}

/// The transactions of `current` at the given places leave it: those below the state nonce were mined,
/// the others go to `future`.
pub open spec fn retreated(v: QueueView, places: Set<Slot>, base: U256) -> QueueView {
    let mined = below_base(v.current.orders, places, base);
    let moved = from_base(v.current.orders, places, base);
    let known = forget(v.by_hash, v.current.orders, mined);
    let stay = v.current.orders.remove_keys(places);
    QueueView {
        current: SetView { orders: stay, ..v.current },
        future: SetView { orders: merged(v.future.orders, moved), ..v.future },
        by_hash: winners(known, v.future.orders, moved),
        local: with_moved(
            with_mined(v.local, v.by_hash, v.current.orders, mined),
            known,
            v.future.orders,
            moved,
            LocalTransactionStatus::Future,
        ),
        last_nonces: highest(stay.dom()),
        ..v
    }
}

/// Drops what is above the limits of `current`.
pub open spec fn current_limited(v: QueueView) -> QueueView {
    let stay = v.current.orders.remove_keys(excess(v.current));
    QueueView {
        current: SetView { orders: stay, ..v.current },
        by_hash: forget(v.by_hash, v.current.orders, excess(v.current)),
        local: with_dropped(v.local, v.by_hash, v.current.orders, excess(v.current)),
        last_nonces: highest(stay.dom()),
        ..v
    }
}

/// Drops what is above the limits of `future`.
pub open spec fn future_limited(v: QueueView) -> QueueView {
    QueueView {
        future: SetView { orders: v.future.orders.remove_keys(excess(v.future)), ..v.future },
        by_hash: forget(v.by_hash, v.future.orders, excess(v.future)),
        local: with_dropped(v.local, v.by_hash, v.future.orders, excess(v.future)),
        ..v
    }
}

/// The place of `sender` at nonce `n`.
pub open spec fn place(sender: Address, n: nat) -> Slot {
    Slot { sender, nonce: u256(n) }
}

/// The first nonce from `n` up at which `sender` has no order.
pub open spec fn run_end(orders: Map<Slot, TransactionOrder>, sender: Address, n: nat) -> nat
    decreases range() - n,
{
    if n < range() && orders.contains_key(place(sender, n)) {
        run_end(orders, sender, n + 1)
    } else {
        n
    }
}

/// The places of `sender` from nonce `from` up to `end`.
pub open spec fn span(sender: Address, from: nat, end: nat) -> Set<Slot> {
    Set::new(|k: Slot| k.sender == sender && from <= k.nonce@ < end)
}

/// The orders at the given places, with heights counted from `base`.
pub open spec fn lifted(
    orders: Map<Slot, TransactionOrder>,
    places: Set<Slot>,
    base: U256,
) -> Map<Slot, TransactionOrder> {
    Map::new(
        |k: Slot| orders.contains_key(k) && places.contains(k),
        |k: Slot| orders[k].with_height((k.nonce@ - base@) as nat),
    )
}

/// The transactions of `sender` in `future`, from nonce `from` up to `end`, go to `current`.
pub open spec fn promoted_upto(
    v: QueueView,
    sender: Address,
    from: nat,
    base: U256,
    end: nat,
) -> QueueView {
    let moved = lifted(v.future.orders, span(sender, from, end), base);
    QueueView {
        current: SetView { orders: merged(v.current.orders, moved), ..v.current },
        future: SetView {
            orders: v.future.orders.remove_keys(span(sender, from, end)),
            ..v.future
        },
        by_hash: winners(v.by_hash, v.current.orders, moved),
        local: with_moved(
            v.local,
            v.by_hash,
            v.current.orders,
            moved,
            LocalTransactionStatus::Pending,
        ),
        last_nonces: highest(merged(v.current.orders, moved).dom()),
        ..v
    }
}

/// The unbroken run of transactions that `sender` has in `future` from nonce `from` up goes to
/// `current`.
pub open spec fn promoted(v: QueueView, sender: Address, from: nat, base: U256) -> QueueView {
    promoted_upto(v, sender, from, base, run_end(v.future.orders, sender, from))
}

/// A sender's orders, made local.
pub open spec fn localized(orders: Map<Slot, TransactionOrder>, places: Set<Slot>) -> Map<
    Slot,
    TransactionOrder,
> {
    Map::new(
        |k: Slot| orders.contains_key(k),
        |k: Slot|
            if places.contains(k) {
                TransactionOrder { origin: TransactionOrigin::Local, ..orders[k] }
            } else {
                orders[k]
            },
    )
}

/// Whether the order of the transaction `hash` is at one of the places, and is not local.
pub open spec fn becomes_local(
    by_hash: Map<H256, VerifiedTransaction>,
    orders: Map<Slot, TransactionOrder>,
    places: Set<Slot>,
    hash: H256,
) -> bool {
    at(by_hash, orders, places, hash) && orders[slot_of(by_hash[hash])].origin
        != TransactionOrigin::Local
}

/// The statuses once the transactions at the given places became local.
pub open spec fn with_localized(
    local: Map<H256, LocalTransactionStatus>,
    by_hash: Map<H256, VerifiedTransaction>,
    orders: Map<Slot, TransactionOrder>,
    places: Set<Slot>,
    status: LocalTransactionStatus,
) -> Map<H256, LocalTransactionStatus> {
    Map::new(
        |h: H256| local.contains_key(h) || becomes_local(by_hash, orders, places, h),
        |h: H256|
            if becomes_local(by_hash, orders, places, h) {
                status
            } else {
                local[h]
            },
    )
}

/// All transactions of `sender` become local.
pub open spec fn marked_local(v: QueueView, sender: Address) -> QueueView {
    let here = places_of(v.current.orders, sender);
    let there = places_of(v.future.orders, sender);
    QueueView {
        current: SetView { orders: localized(v.current.orders, here), ..v.current },
        future: SetView { orders: localized(v.future.orders, there), ..v.future },
        local: with_localized(
            with_localized(
                v.local,
                v.by_hash,
                v.current.orders,
                here,
                LocalTransactionStatus::Pending,
            ),
            v.by_hash,
            v.future.orders,
            there,
            LocalTransactionStatus::Future,
        ),
        ..v
    }
}

/// The orders, with one penalty more at the given places.
pub open spec fn penalized(orders: Map<Slot, TransactionOrder>, places: Set<Slot>) -> Map<
    Slot,
    TransactionOrder,
> {
    Map::new(
        |k: Slot| orders.contains_key(k),
        |k: Slot|
            if places.contains(k) {
                orders[k].penalized()
            } else {
                orders[k]
            },
    )
}

// ---------------------------------------------------------------------------------------------
// A transaction takes a place
// ---------------------------------------------------------------------------------------------

/// Whether an order stays at `slot` against `order`: it does where its gas price is higher, or where it
/// is the same and `order` has to outbid it.
pub open spec fn resists(
    orders: Map<Slot, TransactionOrder>,
    slot: Slot,
    order: TransactionOrder,
    outbid: bool,
) -> bool {
    &&& orders.contains_key(slot)
    &&& orders[slot].gas_price@ > order.gas_price@ || (outbid && orders[slot].gas_price@
        == order.gas_price@)
}

/// The orders once `order` was put at `slot`.
pub open spec fn taken(
    orders: Map<Slot, TransactionOrder>,
    slot: Slot,
    order: TransactionOrder,
    outbid: bool,
) -> Map<Slot, TransactionOrder> {
    if resists(orders, slot, order, outbid) {
        orders
    } else {
        orders.insert(slot, order)
    }
}

/// The known transactions once `order` was put at `slot`: the one that has no place is forgotten.
pub open spec fn taken_known(
    by_hash: Map<H256, VerifiedTransaction>,
    orders: Map<Slot, TransactionOrder>,
    slot: Slot,
    order: TransactionOrder,
    outbid: bool,
) -> Map<H256, VerifiedTransaction> {
    if resists(orders, slot, order, outbid) {
        by_hash.remove(order.hash)
    } else if orders.contains_key(slot) {
        by_hash.remove(orders[slot].hash)
    } else {
        by_hash
    }
}

/// The statuses once `tx` was replaced by a transaction of the given price and hash.
pub open spec fn with_replaced(
    local: Map<H256, LocalTransactionStatus>,
    tx: VerifiedTransaction,
    gas_price: U256,
    hash: H256,
) -> Map<H256, LocalTransactionStatus> {
    if tx.origin == TransactionOrigin::Local {
        local.insert(
            tx.transaction.hash,
            LocalTransactionStatus::Replaced(tx.transaction, gas_price, hash),
        )
    } else {
        local
    }
}

/// The statuses once `order` was put at `slot`.
pub open spec fn taken_local(
    local: Map<H256, LocalTransactionStatus>,
    by_hash: Map<H256, VerifiedTransaction>,
    orders: Map<Slot, TransactionOrder>,
    slot: Slot,
    order: TransactionOrder,
    outbid: bool,
) -> Map<H256, LocalTransactionStatus> {
    if resists(orders, slot, order, outbid) {
        with_replaced(local, by_hash[order.hash], orders[slot].gas_price, orders[slot].hash)
    } else if orders.contains_key(slot) {
        with_replaced(local, by_hash[orders[slot].hash], order.gas_price, order.hash)
    } else {
        local
    }
}

/// The order that the queue gives to `tx`.
pub open spec fn order_in(v: QueueView, tx: VerifiedTransaction, base: U256) -> TransactionOrder {
    order_of(tx, base, v.minimal_gas_price, v.strategy)
}

/// `tx` is put into `current`.
pub open spec fn entered_current(v: QueueView, tx: VerifiedTransaction, base: U256) -> QueueView {
    let order = order_in(v, tx, base);
    let known = v.by_hash.insert(tx.transaction.hash, tx);
    let orders = taken(v.current.orders, slot_of(tx), order, true);
    QueueView {
        current: SetView { orders, ..v.current },
        by_hash: taken_known(known, v.current.orders, slot_of(tx), order, true),
        local: taken_local(v.local, known, v.current.orders, slot_of(tx), order, true),
        last_nonces: highest(orders.dom()),
        ..v
    }
}

/// `tx` is put into `future`.
pub open spec fn entered_future(v: QueueView, tx: VerifiedTransaction, base: U256) -> QueueView {
    let order = order_in(v, tx, base);
    let known = v.by_hash.insert(tx.transaction.hash, tx);
    QueueView {
        future: SetView { orders: taken(v.future.orders, slot_of(tx), order, true), ..v.future },
        by_hash: taken_known(known, v.future.orders, slot_of(tx), order, true),
        local: taken_local(v.local, known, v.future.orders, slot_of(tx), order, true),
        ..v
    }
}

/// Whether a nonce of `sender` that is dropped is at most `nonce`.
pub open spec fn cut_off(dropped: Map<Address, U256>, sender: Address, nonce: U256) -> bool {
    dropped.contains_key(sender) && dropped[sender]@ <= nonce@
}

// ---------------------------------------------------------------------------------------------
// Operations
// ---------------------------------------------------------------------------------------------

/// A sender's transactions in `future` are brought up to the state nonce, and the run that starts there
/// goes to `current`.
pub open spec fn caught_up(v: QueueView, sender: Address, state_nonce: U256) -> QueueView {
    promoted(aged(v, sender, state_nonce), sender, state_nonce@, state_nonce)
}

/// Whether what a sender has in the queue is settled as of a state nonce: what is in `current` is an
/// unbroken run from the state nonce on, with heights counted from it, and what is in `future` neither
/// belongs to that run nor follows on it.
pub open spec fn settled(v: QueueView, sender: Address, state_nonce: U256) -> bool {
    let end = run_end(v.current.orders, sender, state_nonce@);
    &&& forall|k: Slot| #[trigger]
        v.current.orders.contains_key(k) && k.sender == sender ==> state_nonce@ <= k.nonce@ < end
            && v.current.orders[k].nonce_height@ == k.nonce@ - state_nonce@
    &&& forall|k: Slot| #[trigger]
        v.future.orders.contains_key(k) && k.sender == sender ==> k.nonce@ > end
}

/// A sender's transactions are revalidated as of a state nonce: those in `future` are brought up to it,
/// and unless all is settled then, those in `current` move to `future` and back again.
pub open spec fn revalidated(v: QueueView, sender: Address, state_nonce: U256) -> QueueView {
    let young = aged(v, sender, state_nonce);
    if settled(young, sender, state_nonce) {
        young
    } else {
        promoted(
            retreated(young, places_of(young.current.orders, sender), state_nonce),
            sender,
            state_nonce@,
            state_nonce,
        )
    }
}

/// The nonce that is next for `sender` in `current`.
pub open spec fn next_nonce(v: QueueView, sender: Address, state_nonce: U256) -> nat {
    if v.last_nonces.contains_key(sender) {
        v.last_nonces[sender]@ + 1
    } else {
        state_nonce@
    }
}

/// A transaction goes to `future`, because there is a gap before it.
pub open spec fn import_to_future(
    v: QueueView,
    tx: VerifiedTransaction,
    state_nonce: U256,
) -> (QueueView, Result<TransactionImportResult, TransactionError>) {
    let order = order_in(v, tx, state_nonce);
    let entered = entered_future(v, tx, state_nonce);
    if resists(v.future.orders, slot_of(tx), order, true) {
        (entered, Err(TransactionError::TooCheapToReplace))
    } else if cut_off(
        lowest(excess(entered.future)),
        slot_of(tx).sender,
        slot_of(tx).nonce,
    ) {
        (future_limited(entered), Err(TransactionError::LimitReached))
    } else {
        (future_limited(entered), Ok(TransactionImportResult::Future))
    }
}

/// The runs of transactions in `future` that start at a nonce and after it go to `current`.
pub open spec fn filled(v: QueueView, sender: Address, nonce: U256, base: U256) -> QueueView {
    promoted(promoted(v, sender, nonce@, base), sender, nonce@ + 1, base)
}

/// A transaction goes to `current`, once the runs that start at it and after it went there.
pub open spec fn import_to_current(
    v: QueueView,
    tx: VerifiedTransaction,
    state_nonce: U256,
) -> (QueueView, Result<TransactionImportResult, TransactionError>) {
    let Slot { sender, nonce } = slot_of(tx);
    let order = order_in(v, tx, state_nonce);
    let filled = filled(v, sender, nonce, state_nonce);
    let entered = entered_current(filled, tx, state_nonce);
    if resists(filled.current.orders, slot_of(tx), order, true) {
        (entered, Err(TransactionError::TooCheapToReplace))
    } else {
        let dropped = lowest(excess(entered.current));
        if cut_off(dropped, sender, nonce) {
            (current_limited(entered), Err(TransactionError::LimitReached))
        } else {
            (current_limited(entered), Ok(TransactionImportResult::Current))
        }
    }
}

/// A verified transaction is imported, or refused. What else its sender has is revalidated.
#[verifier::opaque]
pub open spec fn import(v: QueueView, tx: VerifiedTransaction, state_nonce: U256) -> (
    QueueView,
    Result<TransactionImportResult, TransactionError>,
) {
    let Slot { sender, nonce } = slot_of(tx);
    let ready = revalidated(v, sender, state_nonce);
    let marked = if tx.origin == TransactionOrigin::Local {
        marked_local(ready, sender)
    } else {
        ready
    };
    if v.by_hash.contains_key(tx.transaction.hash) {
        (v, Err(TransactionError::AlreadyImported))
    } else if nonce@ < state_nonce@ {
        (v, Err(TransactionError::Old))
    } else if nonce@ > next_nonce(ready, sender, state_nonce) {
        import_to_future(marked, tx, state_nonce)
    } else {
        import_to_current(marked, tx, state_nonce)
    }
}

/// Whether the order of `tx` can be calculated, if [`import`] comes to it.
pub open spec fn importable(v: QueueView, tx: VerifiedTransaction, state_nonce: U256) -> bool {
    ||| v.by_hash.contains_key(tx.transaction.hash)
    ||| tx.transaction.nonce@ < state_nonce@
    ||| gas_factor(tx.transaction.gas, v.minimal_gas_price) < range()
}

/// Whether the gas price of `tx` is below the threshold of the queue.
pub open spec fn too_cheap(v: QueueView, tx: SignedTransaction, origin: TransactionOrigin) -> bool {
    tx.gas_price@ < v.minimal_gas_price@ && origin != TransactionOrigin::Local
}

/// Why `tx` is refused for its gas price or its gas, whoever sent it.
pub open spec fn screened(
    v: QueueView,
    tx: SignedTransaction,
    origin: TransactionOrigin,
) -> Option<TransactionError> {
    if too_cheap(v, tx, origin) {
        Some(
            TransactionError::InsufficientGasPrice {
                minimal: v.minimal_gas_price,
                got: tx.gas_price,
            },
        )
    } else if tx.gas_price@ < entry_limit(v.current) && origin != TransactionOrigin::Local {
        Some(
            TransactionError::InsufficientGasPrice {
                minimal: u256(entry_limit(v.current)),
                got: tx.gas_price,
            },
        )
    } else if tx.gas@ > v.gas_limit@ || tx.gas@ > v.tx_gas_limit@ {
        Some(TransactionError::GasLimitExceeded { limit: v.gas_limit, got: tx.gas })
    } else {
        None
    }
}

/// Whether `tx` gets as far as its sender's account: neither its price nor its gas nor its signature is
/// refused.
pub open spec fn presentable(
    v: QueueView,
    tx: SignedTransaction,
    origin: TransactionOrigin,
    minimal_gas: U256,
) -> bool {
    &&& screened(v, tx, origin) is None
    &&& tx.gas@ >= minimal_gas@
    &&& tx.low_s
    &&& tx.signer is Some
}

/// Whether the numbers that [`added_internal`] comes to stay in range: the price above the lowest one of
/// a full queue, the cost of the transaction, and its order.
pub open spec fn computable(
    v: QueueView,
    tx: SignedTransaction,
    origin: TransactionOrigin,
    minimal_gas: U256,
    account: AccountDetails,
) -> bool {
    &&& too_cheap(v, tx, origin) || entry_limit(v.current) < range()
    &&& presentable(v, tx, origin, minimal_gas) ==> {
        &&& tx.cost() < range()
        &&& account.balance@ < tx.cost() || importable(
            v,
            VerifiedTransaction { transaction: tx, origin },
            account.nonce,
        )
    }
}

/// A transaction is checked and imported, or refused.
pub open spec fn added_internal(
    v: QueueView,
    tx: SignedTransaction,
    origin: TransactionOrigin,
    minimal_gas: U256,
    account: AccountDetails,
) -> (QueueView, Result<TransactionImportResult, Error>) {
    if let Some(e) = screened(v, tx, origin) {
        (v, Err(Error::Transaction(e)))
    } else if tx.gas@ < minimal_gas@ {
        (
            v,
            Err(
                Error::Transaction(
                    TransactionError::InsufficientGas { minimal: minimal_gas, got: tx.gas },
                ),
            ),
        )
    } else if !tx.low_s {
        (v, Err(Error::HighSignature))
    } else if tx.signer is None {
        (v, Err(Error::NoSender))
    } else if account.balance@ < tx.cost() {
        (
            v,
            Err(
                Error::Transaction(
                    TransactionError::InsufficientBalance {
                        cost: u256(tx.cost()),
                        balance: account.balance,
                    },
                ),
            ),
        )
    } else {
        let (after, r) = import(v, VerifiedTransaction { transaction: tx, origin }, account.nonce);
        (
            after,
            match r {
                Ok(imported) => Ok(imported),
                Err(e) => Err(Error::Transaction(e)),
            },
        )
    }
}

/// The statuses once a local transaction was added with the given result.
pub open spec fn with_added(
    local: Map<H256, LocalTransactionStatus>,
    tx: SignedTransaction,
    r: Result<TransactionImportResult, Error>,
) -> Map<H256, LocalTransactionStatus> {
    match r {
        Ok(TransactionImportResult::Current) => local.insert(
            tx.hash,
            LocalTransactionStatus::Pending,
        ),
        Ok(TransactionImportResult::Future) => local.insert(
            tx.hash,
            LocalTransactionStatus::Future,
        ),
        Err(Error::Transaction(e)) => if local.contains_key(tx.hash) {
            local
        } else {
            local.insert(tx.hash, LocalTransactionStatus::Rejected(tx, e))
        },
        Err(_) => local.insert(tx.hash, LocalTransactionStatus::Invalid(tx)),
    }
}

/// A transaction is added, or refused.
pub open spec fn added(
    v: QueueView,
    tx: SignedTransaction,
    origin: TransactionOrigin,
    minimal_gas: U256,
    account: AccountDetails,
) -> (QueueView, Result<TransactionImportResult, Error>) {
    let (after, r) = added_internal(v, tx, origin, minimal_gas, account);
    if origin == TransactionOrigin::Local {
        (QueueView { local: with_added(after.local, tx, r), ..after }, r)
    } else {
        (after, r)
    }
}

/// A sender's transactions are sorted anew into `current` and `future`, as of the given state nonce.
pub open spec fn resorted(v: QueueView, sender: Address, client_nonce: U256) -> QueueView {
    let aged = aged(v, sender, client_nonce);
    let moved = retreated(aged, places_of(aged.current.orders, sender), client_nonce);
    promoted(future_limited(moved), sender, client_nonce@, client_nonce)
}

/// Whether the state nonce calls for [`resorted`]: a transaction in `current` is below it, or one in
/// `future` is at or below it.
pub open spec fn outdated(v: QueueView, sender: Address, client_nonce: U256) -> bool {
    ||| exists|k: Slot| #[trigger]
        v.current.orders.contains_key(k) && k.sender == sender && k.nonce@ < client_nonce@
    ||| exists|k: Slot| #[trigger]
        v.future.orders.contains_key(k) && k.sender == sender && k.nonce@ <= client_nonce@
}

/// The queue learns the state nonce of a sender.
pub open spec fn without_old(v: QueueView, sender: Address, client_nonce: U256) -> QueueView {
    if outdated(v, sender, client_nonce) {
        resorted(v, sender, client_nonce)
    } else {
        v
    }
}

/// Whether `sender` has an order.
pub open spec fn sends(orders: Map<Slot, TransactionOrder>, sender: Address) -> bool {
    exists|k: Slot| #[trigger] orders.contains_key(k) && k.sender == sender
}

/// Whether `sender` has a transaction in the queue.
pub open spec fn has_sender(v: QueueView, sender: Address) -> bool {
    sends(v.current.orders, sender) || sends(v.future.orders, sender)
}

/// The queue learns the state nonces of some senders, one after the other.
pub open spec fn without_old_of(
    v: QueueView,
    senders: Seq<Address>,
    nonces: Seq<U256>,
) -> QueueView
    decreases senders.len(),
{
    if senders.len() == 0 {
        v
    } else {
        without_old(
            without_old_of(v, senders.drop_last(), nonces.drop_last()),
            senders.last(),
            nonces.last(),
        )
    }
}

/// The order of the known transaction `hash`.
pub open spec fn order_for(v: QueueView, hash: H256) -> TransactionOrder {
    let k = slot_of(v.by_hash[hash]);
    if held(v.by_hash, v.current.orders, hash) {
        v.current.orders[k]
    } else {
        v.future.orders[k]
    }
}

/// The sender of a transaction that neither is local nor has become so gets one more penalty on each of
/// its transactions.
pub open spec fn penalized_for(v: QueueView, hash: H256) -> QueueView {
    if v.by_hash.contains_key(hash) && order_for(v, hash).origin != TransactionOrigin::Local {
        let sender = slot_of(v.by_hash[hash]).sender;
        QueueView {
            current: SetView {
                orders: penalized(v.current.orders, places_of(v.current.orders, sender)),
                ..v.current
            },
            future: SetView {
                orders: penalized(v.future.orders, places_of(v.future.orders, sender)),
                ..v.future
            },
            ..v
        }
    } else {
        v
    }
}

/// The queue without the known transaction `hash`, which was found invalid.
pub open spec fn struck(v: QueueView, hash: H256) -> QueueView {
    let k = slot_of(v.by_hash[hash]);
    let in_future = held(v.by_hash, v.future.orders, hash);
    let current = if in_future {
        v.current
    } else {
        SetView { orders: v.current.orders.remove(k), ..v.current }
    };
    QueueView {
        current,
        future: if in_future {
            SetView { orders: v.future.orders.remove(k), ..v.future }
        } else {
            v.future
        },
        by_hash: v.by_hash.remove(hash),
        local: if v.local.contains_key(hash) {
            v.local.insert(
                hash,
                LocalTransactionStatus::Invalid(v.by_hash[hash].transaction),
            )
        } else {
            v.local
        },
        last_nonces: highest(current.orders.dom()),
        ..v
    }
}

/// A transaction is found invalid, while the state nonce of its sender is `nonce`. It leaves the queue.
/// What its sender has in the queue is brought up to the state nonce, and sorted anew if the transaction
/// was in `current`.
pub open spec fn without_invalid(v: QueueView, hash: H256, nonce: U256) -> QueueView {
    let sender = slot_of(v.by_hash[hash]).sender;
    if !v.by_hash.contains_key(hash) {
        v
    } else if held(v.by_hash, v.future.orders, hash) {
        caught_up(struck(v, hash), sender, nonce)
    } else {
        resorted(struck(v, hash), sender, nonce)
    }
}

/// A queue without transactions.
pub open spec fn fresh(
    strategy: PrioritizationStrategy,
    limit: usize,
    gas_limit: U256,
    tx_gas_limit: U256,
) -> QueueView {
    QueueView {
        strategy,
        minimal_gas_price: u256(0),
        tx_gas_limit,
        gas_limit: u256((range() - 1) as nat),
        current: SetView { orders: Map::empty(), limit, gas_limit },
        future: SetView { orders: Map::empty(), limit, gas_limit },
        by_hash: Map::empty(),
        last_nonces: Map::empty(),
        local: Map::empty(),
    }
}

/// The gas that a transaction may have where `gas_limit` is set: a tenth more, as far as the range goes.
pub open spec fn with_hysteresis(gas_limit: nat) -> nat {
    if gas_limit + gas_limit / 10 < range() {
        gas_limit + gas_limit / 10
    } else {
        (range() - 1) as nat
    }
}

/// The transactions that have the given orders, by falling priority.
pub open spec fn listing(
    orders: Map<Slot, TransactionOrder>,
    by_hash: Map<H256, VerifiedTransaction>,
) -> Seq<SignedTransaction> {
    ranking(orders).map_values(|order: TransactionOrder| by_hash[order.hash].transaction)
}

/// The hashes of the transactions in `current`, by falling priority.
pub open spec fn pending(v: QueueView) -> Seq<H256> {
    ranking(v.current.orders).map_values(|order: TransactionOrder| order.hash)
}

/// The known transaction `hash`, if there is one.
pub open spec fn found(v: QueueView, hash: H256) -> Option<SignedTransaction> {
    if v.by_hash.contains_key(hash) {
        Some(v.by_hash[hash].transaction)
    } else {
        None
    }
}

/// Both sets get a new limit on the number of transactions, and are held to it.
pub open spec fn with_limit(v: QueueView, limit: usize) -> QueueView {
    future_limited(
        current_limited(
            QueueView {
                current: SetView { limit, ..v.current },
                future: SetView { limit, ..v.future },
                ..v
            },
        ),
    )
}

/// Both sets get a new limit on the total gas, and `future` is held to it.
pub open spec fn with_total_gas_limit(v: QueueView, gas_limit: U256) -> QueueView {
    future_limited(
        QueueView {
            current: SetView { gas_limit, ..v.current },
            future: SetView { gas_limit, ..v.future },
            ..v
        },
    )
}

} // verus!
