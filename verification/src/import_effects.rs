//! What the import of a transaction does to the queue, told by the places that senders have in it.
use crate::order::TransactionOrder;
use crate::order_laws::{lemma_order_of_transaction, same_but_height};
use crate::queue_effects::same_settings;
use crate::queue_laws::{
    lemma_filled, lemma_nothing_to_promote, lemma_prepared, lemma_prepared_settled,
    lemma_import_sorts_out, lemma_replaces_iff_price_is_higher, lemma_run_end, lemma_settled_run, occupied,
    prepared, sorted_out,
};
use crate::queue_lemmas::{lemma_entered_current, lemma_entered_future};
use crate::queue_model::{
    aged, consistent, current_limited, entered_current, entered_future, filled, future_limited,
    import, next_nonce, order_in, place, places_of, promoted, retreated, revalidated, run_end, span,
    QueueView,
};
use crate::set_laws::{
    has_room, keeps_to_limits, lemma_keeps_to_limits, lemma_ranked, lemma_room_drops_nothing,
};
use crate::transaction::{
    TransactionError, TransactionImportResult, TransactionOrigin, VerifiedTransaction,
};
use crate::transaction_set::{excess, lemma_lowest_exists, slot_of};
use crate::uint::{lemma_u256, range, Address, H256, U256};
use crate::vec_map::Slot;
use vstd::prelude::*;
use vstd::set_lib::lemma_len_subset;

verus! {

/// Whether a sender has a transaction at every nonce from one up to another.
pub open spec fn unbroken(v: QueueView, sender: Address, from: nat, to: nat) -> bool {
    forall|k: Slot|
        k.sender == sender && from <= k.nonce@ < to ==> #[trigger] occupied(v, k)
}

/// Whether a transaction at the place, in either set, offers at least the given price.
pub open spec fn price_is_met(v: QueueView, k: Slot, price: nat) -> bool {
    ||| v.current.orders.contains_key(k) && v.current.orders[k].gas_price@ >= price
    ||| v.future.orders.contains_key(k) && v.future.orders[k].gas_price@ >= price
}

/// Whether a place of the sender of `slot`, from a nonce on and not after `slot`, had a transaction or was
/// to get one, and has none.
pub open spec fn place_lost(before: QueueView, after: QueueView, slot: Slot, from: U256) -> bool {
    exists|k: Slot|
        k.sender == slot.sender && from@ <= k.nonce@ <= slot.nonce@ && (occupied(before, k) || k
            == slot) && !#[trigger] occupied(after, k)
}

/// Whether `b` is what `a` has become on the way: its height aside it is the same, unless it was adopted.
/// Then it is local.
pub open spec fn kin(a: TransactionOrder, b: TransactionOrder, adopted: bool) -> bool {
    if adopted {
        same_but_height(TransactionOrder { origin: TransactionOrigin::Local, ..a }, b)
    } else {
        same_but_height(a, b)
    }
}

/// Whether an order is at the same place in `v`, in either set, but for its height and its adoption.
pub open spec fn was_there(v: QueueView, k: Slot, order: TransactionOrder, adopted: bool) -> bool {
    ||| v.current.orders.contains_key(k) && kin(v.current.orders[k], order, adopted)
    ||| v.future.orders.contains_key(k) && kin(v.future.orders[k], order, adopted)
}

/// Whether `order` is the one for `tx` as of a state nonce.
pub open spec fn is_order_of(
    v: QueueView,
    tx: VerifiedTransaction,
    state_nonce: U256,
    order: TransactionOrder,
) -> bool {
    &&& order.nonce_height@ == tx.transaction.nonce@ - state_nonce@
    &&& order.gas_factor@ == (tx.transaction.gas@ / 32768) * v.minimal_gas_price@
    &&& order.gas_price == tx.transaction.gas_price
    &&& order.gas == tx.transaction.gas
    &&& order.hash == tx.transaction.hash
    &&& order.origin == tx.origin
    &&& order.strategy == v.strategy
    &&& order.penalties == 0
}

/// What has happened before a transaction is put in its place: the sender's places from the state nonce
/// on have transactions as before, and the orders are the same but for heights and adoption. Other
/// senders are left alone.
pub proof fn lemma_ready(v: QueueView, tx: VerifiedTransaction, state_nonce: U256)
    requires
        consistent(v),
    ensures
        ({
            let ready = prepared(v, tx, state_nonce);
            let sender = slot_of(tx).sender;
            let local = tx.origin == TransactionOrigin::Local;
            &&& forall|k: Slot|
                k.sender == sender && k.nonce@ >= state_nonce@ ==> #[trigger] occupied(ready, k)
                    == occupied(v, k)
            &&& forall|k: Slot| #[trigger]
                ready.current.orders.contains_key(k) && k.sender == sender ==> was_there(
                    v,
                    k,
                    ready.current.orders[k],
                    local,
                )
            &&& forall|k: Slot| #[trigger]
                ready.future.orders.contains_key(k) && k.sender == sender ==> was_there(
                    v,
                    k,
                    ready.future.orders[k],
                    local,
                )
            &&& forall|k: Slot|
                k.sender != sender ==> {
                    &&& #[trigger] ready.current.orders.contains_key(k) == v.current.orders.contains_key(
                        k,
                    )
                    &&& ready.current.orders.contains_key(k) ==> ready.current.orders[k]
                        == v.current.orders[k]
                }
            &&& forall|k: Slot|
                k.sender != sender ==> {
                    &&& #[trigger] ready.future.orders.contains_key(k) == v.future.orders.contains_key(k)
                    &&& ready.future.orders.contains_key(k) ==> ready.future.orders[k]
                        == v.future.orders[k]
                }
            &&& same_settings(v, ready)
        }),
{
    let sender = slot_of(tx).sender;
    let young = aged(v, sender, state_nonce);
    let moved = retreated(young, places_of(young.current.orders, sender), state_nonce);
    let end = run_end(moved.future.orders, sender, state_nonce@);
    let plain = revalidated(v, sender, state_nonce);
    lemma_run_end(moved.future.orders, sender, state_nonce@);
    assert forall|k: Slot| k.sender == sender && k.nonce@ >= state_nonce@ implies #[trigger] occupied(
        plain,
        k,
    ) == occupied(v, k) by {
        assert(occupied(young, k) == occupied(v, k));
        assert(occupied(moved, k) == occupied(young, k));
        if span(sender, state_nonce@, end).contains(k) {
            assert(moved.future.orders.contains_key(k));
        }
    }
    assert forall|k: Slot|
        k.sender == sender && k.nonce@ >= state_nonce@ implies #[trigger] occupied(
        prepared(v, tx, state_nonce),
        k,
    ) == occupied(v, k) by {
        assert(occupied(prepared(v, tx, state_nonce), k) == occupied(plain, k));
    }
    assert forall|k: Slot| #[trigger] plain.current.orders.contains_key(k) && k.sender
        == sender implies was_there(v, k, plain.current.orders[k], false) by {
        assert(young.future.orders.contains_key(k) ==> v.future.orders.contains_key(k));
        assert(moved.future.orders.contains_key(k) ==> young.future.orders.contains_key(k)
            || young.current.orders.contains_key(k));
    }
    assert forall|k: Slot| #[trigger] plain.future.orders.contains_key(k) && k.sender
        == sender implies was_there(v, k, plain.future.orders[k], false) by {
        assert(young.future.orders.contains_key(k) ==> v.future.orders.contains_key(k));
        assert(moved.future.orders.contains_key(k) ==> young.future.orders.contains_key(k)
            || young.current.orders.contains_key(k));
    }
    let ready = prepared(v, tx, state_nonce);
    assert forall|k: Slot| #[trigger] ready.current.orders.contains_key(k) && k.sender
        == sender implies was_there(
        v,
        k,
        ready.current.orders[k],
        tx.origin == TransactionOrigin::Local,
    ) by {
        assert(plain.current.orders.contains_key(k));
    }
    assert forall|k: Slot| #[trigger] ready.future.orders.contains_key(k) && k.sender
        == sender implies was_there(
        v,
        k,
        ready.future.orders[k],
        tx.origin == TransactionOrigin::Local,
    ) by {
        assert(plain.future.orders.contains_key(k));
    }
}

/// There is a gap before a transaction where its nonce is above the next one, and only there.
pub proof fn lemma_gap(v: QueueView, tx: VerifiedTransaction, state_nonce: U256)
    requires
        consistent(v),
        tx.transaction.nonce@ >= state_nonce@,
    ensures
        ({
            let sender = slot_of(tx).sender;
            let next = next_nonce(revalidated(v, sender, state_nonce), sender, state_nonce);
            tx.transaction.nonce@ <= next <==> unbroken(
                v,
                sender,
                state_nonce@,
                tx.transaction.nonce@,
            )
        }),
{
    let sender = slot_of(tx).sender;
    let nonce = tx.transaction.nonce@;
    let ready = prepared(v, tx, state_nonce);
    let end = run_end(ready.current.orders, sender, state_nonce@);
    lemma_ready(v, tx, state_nonce);
    lemma_prepared_settled(v, tx, state_nonce);
    lemma_settled_run(ready, sender, state_nonce);
    if nonce <= end {
        assert forall|k: Slot|
            k.sender == sender && state_nonce@ <= k.nonce@ < nonce implies #[trigger] occupied(v, k) by {
            assert(span(sender, state_nonce@, end).contains(k));
            assert(ready.current.orders.contains_key(k));
            assert(occupied(ready, k));
        }
    } else {
        let k = place(sender, end);
        lemma_u256(end);
        assert(!span(sender, state_nonce@, end).contains(k));
        assert(!occupied(ready, k)) by {
            assert(!ready.current.orders.contains_key(k));
            if ready.future.orders.contains_key(k) {
                assert(k.sender == sender);
            }
        }
        assert(!occupied(v, k));
    }
}

/// A transaction is imported, or refused, as follows. One that is known is refused as such. One below
/// the state nonce is old. One that finds at its place a transaction with a gas price that is as high is
/// too cheap. Any other comes in, unless a limit keeps out the transaction or one of its sender before
/// it. What comes in is pending where the sender has a transaction at every nonce from the state nonce up
/// to it, and waits otherwise.
pub proof fn lemma_import_answer(v: QueueView, tx: VerifiedTransaction, state_nonce: U256)
    requires
        consistent(v),
        tx.transaction.signer is Some,
    ensures
        ({
            let (w, r) = import(v, tx, state_nonce);
            let slot = Slot { sender: tx.transaction.signer->0, nonce: tx.transaction.nonce };
            let known = v.by_hash.contains_key(tx.transaction.hash);
            let fresh = !known && tx.transaction.nonce@ >= state_nonce@;
            let better = fresh && !price_is_met(v, slot, tx.transaction.gas_price@);
            let next = unbroken(v, slot.sender, state_nonce@, slot.nonce@);
            &&& r == Err::<TransactionImportResult, TransactionError>(TransactionError::AlreadyImported)
                <==> known
            &&& r == Err::<TransactionImportResult, TransactionError>(TransactionError::Old) <==> !known
                && !fresh
            &&& r == Err::<TransactionImportResult, TransactionError>(
                TransactionError::TooCheapToReplace,
            ) <==> fresh && !better
            &&& r == Err::<TransactionImportResult, TransactionError>(TransactionError::LimitReached)
                <==> better && place_lost(v, w, slot, state_nonce)
            &&& r == Ok::<TransactionImportResult, TransactionError>(TransactionImportResult::Current)
                <==> better && next && !place_lost(v, w, slot, state_nonce)
            &&& r == Ok::<TransactionImportResult, TransactionError>(TransactionImportResult::Future)
                <==> better && !next && !place_lost(v, w, slot, state_nonce)
            &&& !fresh ==> w == v
            &&& same_settings(v, w)
        }),
{
    reveal(import);
    let (w, r) = import(v, tx, state_nonce);
    let slot = slot_of(tx);
    let Slot { sender, nonce } = slot;
    if !v.by_hash.contains_key(tx.transaction.hash) && nonce@ >= state_nonce@ {
        lemma_replaces_iff_price_is_higher(v, tx, state_nonce);
        lemma_gap(v, tx, state_nonce);
        lemma_ready(v, tx, state_nonce);
        if !price_is_met(v, slot, tx.transaction.gas_price@) {
            lemma_limit_answer(v, tx, state_nonce);
        }
    }
}

/// Where neither its hash nor its nonce nor its price is in the way, a transaction is refused iff a place
/// is lost.
proof fn lemma_limit_answer(v: QueueView, tx: VerifiedTransaction, state_nonce: U256)
    requires
        consistent(v),
        tx.transaction.signer is Some,
        !v.by_hash.contains_key(tx.transaction.hash),
        tx.transaction.nonce@ >= state_nonce@,
        import(v, tx, state_nonce).1 != Err::<TransactionImportResult, TransactionError>(
            TransactionError::TooCheapToReplace,
        ),
    ensures
        import(v, tx, state_nonce).1 == Err::<TransactionImportResult, TransactionError>(
            TransactionError::LimitReached,
        ) <==> place_lost(v, import(v, tx, state_nonce).0, slot_of(tx), state_nonce),
{
    reveal(import);
    let (w, r) = import(v, tx, state_nonce);
    let slot = slot_of(tx);
    let Slot { sender, nonce } = slot;
    let ready = prepared(v, tx, state_nonce);
    let end = run_end(ready.current.orders, sender, state_nonce@);
    lemma_ready(v, tx, state_nonce);
    lemma_prepared(v, tx, state_nonce);
    lemma_prepared_settled(v, tx, state_nonce);
    lemma_settled_run(ready, sender, state_nonce);
    if nonce@ > end {
        let entered = entered_future(ready, tx, state_nonce);
        let dropped = excess(entered.future);
        lemma_lowest_exists(dropped);
        assert(w == future_limited(entered));
        assert forall|k: Slot|
            k.sender == sender && state_nonce@ <= k.nonce@ implies #[trigger] occupied(w, k) == ((
        occupied(v, k) || k == slot) && !dropped.contains(k)) by {
            assert(occupied(ready, k) == occupied(v, k));
            if dropped.contains(k) {
                assert(entered.future.orders.contains_key(k));
                assert(!ready.current.orders.contains_key(k));
            }
        }
        assert forall|k: Slot| #[trigger] dropped.contains(k) && k.sender == sender implies k.nonce@
            >= state_nonce@ && (occupied(v, k) || k == slot) by {
            assert(entered.future.orders.contains_key(k));
            assert(k != slot ==> ready.future.orders.contains_key(k));
            assert(k != slot ==> occupied(ready, k));
        }
        lemma_cut(v, w, slot, state_nonce, dropped);
    } else {
        let full = filled(ready, sender, nonce, state_nonce);
        let entered = entered_current(full, tx, state_nonce);
        let dropped = excess(entered.current);
        lemma_lowest_exists(dropped);
        lemma_nothing_to_promote(ready, sender, nonce@, state_nonce);
        lemma_run_end(ready.future.orders, sender, nonce@ + 1);
        assert(full == promoted(ready, sender, nonce@ + 1, state_nonce));
        assert(w == current_limited(entered));
        let far = run_end(ready.future.orders, sender, nonce@ + 1);
        assert forall|k: Slot|
            k.sender == sender && state_nonce@ <= k.nonce@ implies #[trigger] occupied(w, k) == ((
        occupied(v, k) || k == slot) && !dropped.contains(k)) by {
            assert(occupied(ready, k) == occupied(v, k));
            if span(sender, nonce@ + 1, far).contains(k) {
                assert(ready.future.orders.contains_key(k));
            }
            if dropped.contains(k) {
                assert(entered.current.orders.contains_key(k));
                if full.future.orders.contains_key(k) {
                    assert(ready.future.orders.contains_key(k));
                    assert(!ready.current.orders.contains_key(k)) by {
                        if ready.current.orders.contains_key(k) {
                            assert(span(sender, state_nonce@, end).contains(k));
                        }
                    }
                    assert(k != slot);
                }
            }
        }
        assert forall|k: Slot| #[trigger] dropped.contains(k) && k.sender == sender implies k.nonce@
            >= state_nonce@ && (occupied(v, k) || k == slot) by {
            assert(entered.current.orders.contains_key(k));
            if k != slot {
                assert(full.current.orders.contains_key(k));
                assert(ready.current.orders.contains_key(k) || ready.future.orders.contains_key(k));
                if ready.current.orders.contains_key(k) {
                    assert(span(sender, state_nonce@, end).contains(k));
                }
                assert(occupied(ready, k));
            }
        }
        lemma_cut(v, w, slot, state_nonce, dropped);
    }
}

/// A place that is lost is one that was dropped.
proof fn lemma_cut(before: QueueView, after: QueueView, slot: Slot, from: U256, dropped: Set<Slot>)
    requires
        crate::transaction_set::is_lowest(dropped, crate::transaction_set::lowest(dropped)),
        forall|k: Slot|
            k.sender == slot.sender && from@ <= k.nonce@ ==> #[trigger] occupied(after, k) == ((occupied(
                before,
                k,
            ) || k == slot) && !dropped.contains(k)),
        forall|k: Slot| #[trigger]
            dropped.contains(k) && k.sender == slot.sender ==> k.nonce@ >= from@ && (occupied(before, k)
                || k == slot),
    ensures
        crate::queue_model::cut_off(
            crate::transaction_set::lowest(dropped),
            slot.sender,
            slot.nonce,
        ) <==> place_lost(before, after, slot, from),
{
    let m = crate::transaction_set::lowest(dropped);
    if crate::queue_model::cut_off(m, slot.sender, slot.nonce) {
        let k = Slot { sender: slot.sender, nonce: m[slot.sender] };
        assert(dropped.contains(k));
        assert(!occupied(after, k));
    }
    if place_lost(before, after, slot, from) {
        let k = choose|k: Slot|
            k.sender == slot.sender && from@ <= k.nonce@ <= slot.nonce@ && (occupied(before, k) || k
                == slot) && !#[trigger] occupied(after, k);
        assert(dropped.contains(k));
    }
}

/// Every order in the queue after an import was there before, but for its height, or is the order of the
/// transaction itself, without penalties. Where the transaction is local, what else its sender has is
/// local too.
pub proof fn lemma_import_keeps_orders(
    v: QueueView,
    tx: VerifiedTransaction,
    state_nonce: U256,
    k: Slot,
)
    requires
        consistent(v),
        tx.transaction.signer is Some,
        !v.by_hash.contains_key(tx.transaction.hash),
        tx.transaction.nonce@ >= state_nonce@,
        (tx.transaction.gas@ / 32768) * v.minimal_gas_price@ < range(),
        k.sender == tx.transaction.signer->0,
    ensures
        ({
            let w = import(v, tx, state_nonce).0;
            let local = tx.origin == TransactionOrigin::Local;
            let own = |order: TransactionOrder|
                k.nonce == tx.transaction.nonce && is_order_of(v, tx, state_nonce, order);
            &&& w.current.orders.contains_key(k) ==> own(w.current.orders[k]) || was_there(
                v,
                k,
                w.current.orders[k],
                local,
            )
            &&& w.future.orders.contains_key(k) ==> own(w.future.orders[k]) || was_there(
                v,
                k,
                w.future.orders[k],
                local,
            )
        }),
{
    reveal(import);
    let slot = slot_of(tx);
    let Slot { sender, nonce } = slot;
    let ready = prepared(v, tx, state_nonce);
    lemma_ready(v, tx, state_nonce);
    lemma_order_of_transaction(tx, state_nonce, v.minimal_gas_price, v.strategy);
    assert(is_order_of(v, tx, state_nonce, order_in(v, tx, state_nonce)));
    let full = filled(ready, sender, nonce, state_nonce);
    let first = promoted(ready, sender, nonce@, state_nonce);
    assert(first.future.orders.contains_key(k) ==> ready.future.orders.contains_key(k));
    assert(full.future.orders.contains_key(k) ==> first.future.orders.contains_key(k));
    assert(first.current.orders.contains_key(k) ==> ready.future.orders.contains_key(k)
        || ready.current.orders.contains_key(k));
    assert(full.current.orders.contains_key(k) ==> first.future.orders.contains_key(k)
        || first.current.orders.contains_key(k));
}

/// An import leaves what other senders have as it is, but for external transactions that limits drop.
pub proof fn lemma_import_leaves_others(
    v: QueueView,
    tx: VerifiedTransaction,
    state_nonce: U256,
    k: Slot,
)
    requires
        consistent(v),
        tx.transaction.signer is Some,
        k.sender != tx.transaction.signer->0,
    ensures
        ({
            let w = import(v, tx, state_nonce).0;
            &&& w.current.orders.contains_key(k) ==> v.current.orders.contains_key(k)
                && w.current.orders[k] == v.current.orders[k]
            &&& w.future.orders.contains_key(k) ==> v.future.orders.contains_key(k) && w.future.orders[k]
                == v.future.orders[k]
            &&& v.current.orders.contains_key(k) && v.current.orders[k].origin
                != TransactionOrigin::External ==> w.current.orders.contains_key(k)
            &&& v.future.orders.contains_key(k) && v.future.orders[k].origin
                != TransactionOrigin::External ==> w.future.orders.contains_key(k)
        }),
{
    reveal(import);
    let slot = slot_of(tx);
    let Slot { sender, nonce } = slot;
    let ready = prepared(v, tx, state_nonce);
    lemma_ready(v, tx, state_nonce);
    let full = filled(ready, sender, nonce, state_nonce);
    let first = promoted(ready, sender, nonce@, state_nonce);
    assert(first.future.orders.contains_key(k) == ready.future.orders.contains_key(k));
    assert(first.current.orders.contains_key(k) == ready.current.orders.contains_key(k));
    assert(full.future.orders.contains_key(k) == ready.future.orders.contains_key(k));
    assert(full.current.orders.contains_key(k) == ready.current.orders.contains_key(k));
}

/// Whether both sets have room for all known transactions and one more, of at most `most` gas each.
pub open spec fn has_room_for_one_more(v: QueueView, most: nat) -> bool {
    let n = v.by_hash.dom().len() + 1;
    &&& v.by_hash.dom().finite()
    &&& has_room(v.current, n, most)
    &&& has_room(v.future, n, most)
    &&& forall|h: H256| #[trigger]
        v.by_hash.contains_key(h) ==> v.by_hash[h].transaction.gas@ <= most
}

/// The state in which limits are enforced: the transaction is in its place.
proof fn lemma_entered(v: QueueView, tx: VerifiedTransaction, state_nonce: U256)
    requires
        consistent(v),
        tx.transaction.signer is Some,
        !v.by_hash.contains_key(tx.transaction.hash),
        tx.transaction.nonce@ >= state_nonce@,
    ensures
        ({
            let slot = slot_of(tx);
            let ready = prepared(v, tx, state_nonce);
            let full = filled(ready, slot.sender, slot.nonce, state_nonce);
            let here = entered_current(full, tx, state_nonce);
            let there = entered_future(ready, tx, state_nonce);
            &&& consistent(here)
            &&& consistent(there)
            &&& here.by_hash.dom().subset_of(v.by_hash.dom().insert(tx.transaction.hash))
            &&& there.by_hash.dom().subset_of(v.by_hash.dom().insert(tx.transaction.hash))
            &&& forall|h: H256| #[trigger]
                here.by_hash.contains_key(h) ==> here.by_hash[h] == if h == tx.transaction.hash {
                    tx
                } else {
                    v.by_hash[h]
                }
            &&& forall|h: H256| #[trigger]
                there.by_hash.contains_key(h) ==> there.by_hash[h] == if h == tx.transaction.hash {
                    tx
                } else {
                    v.by_hash[h]
                }
            &&& same_settings(v, here)
            &&& same_settings(v, there)
        }),
{
    let slot = slot_of(tx);
    let ready = prepared(v, tx, state_nonce);
    let full = filled(ready, slot.sender, slot.nonce, state_nonce);
    lemma_ready(v, tx, state_nonce);
    lemma_prepared(v, tx, state_nonce);
    lemma_prepared_settled(v, tx, state_nonce);
    lemma_filled(ready, slot.sender, slot.nonce, state_nonce);
    lemma_entered_current(full, tx, state_nonce);
    lemma_entered_future(ready, tx, state_nonce);
    let first = promoted(ready, slot.sender, slot.nonce@, state_nonce);
    let here = entered_current(full, tx, state_nonce);
    let there = entered_future(ready, tx, state_nonce);
    assert forall|h: H256| #[trigger] full.by_hash.contains_key(h) implies v.by_hash.contains_key(h)
        && full.by_hash[h] == v.by_hash[h] by {
        assert(first.by_hash.contains_key(h));
        assert(ready.by_hash.contains_key(h));
    }
    assert forall|h: H256| #[trigger] here.by_hash.contains_key(h) implies here.by_hash[h] == if h
        == tx.transaction.hash {
        tx
    } else {
        v.by_hash[h]
    } by {
        assert(h != tx.transaction.hash ==> full.by_hash.contains_key(h));
    }
    assert forall|h: H256| #[trigger] there.by_hash.contains_key(h) implies there.by_hash[h] == if h
        == tx.transaction.hash {
        tx
    } else {
        v.by_hash[h]
    } by {
        assert(h != tx.transaction.hash ==> ready.by_hash.contains_key(h));
    }
}

/// After an import that was not refused for anything else, the set that the transaction was for keeps to
/// its limits: among the pending transactions, or those that wait, the gas up to and with each external
/// one is at most the total gas limit, and its rank is below the limit on their number.
pub proof fn lemma_import_keeps_to_limits(v: QueueView, tx: VerifiedTransaction, state_nonce: U256)
    requires
        consistent(v),
        v.by_hash.dom().finite(),
        tx.transaction.signer is Some,
    ensures
        ({
            let (w, r) = import(v, tx, state_nonce);
            let next = unbroken(
                v,
                tx.transaction.signer->0,
                state_nonce@,
                tx.transaction.nonce@,
            );
            let limited = r is Ok || r == Err::<TransactionImportResult, TransactionError>(
                TransactionError::LimitReached,
            );
            &&& limited && next ==> keeps_to_limits(w.current)
            &&& limited && !next ==> keeps_to_limits(w.future)
            &&& r == Ok::<TransactionImportResult, TransactionError>(TransactionImportResult::Current)
                ==> keeps_to_limits(w.current)
            &&& r == Ok::<TransactionImportResult, TransactionError>(TransactionImportResult::Future)
                ==> keeps_to_limits(w.future)
        }),
{
    lemma_import_answer(v, tx, state_nonce);
    if !v.by_hash.contains_key(tx.transaction.hash) && tx.transaction.nonce@ >= state_nonce@ {
        reveal(import);
        let slot = slot_of(tx);
        let ready = prepared(v, tx, state_nonce);
        let full = filled(ready, slot.sender, slot.nonce, state_nonce);
        let here = entered_current(full, tx, state_nonce);
        let there = entered_future(ready, tx, state_nonce);
        lemma_gap(v, tx, state_nonce);
        lemma_entered(v, tx, state_nonce);
        let most = v.by_hash.dom().insert(tx.transaction.hash);
        vstd::set_lib::lemma_set_subset_finite(most, here.by_hash.dom());
        vstd::set_lib::lemma_set_subset_finite(most, there.by_hash.dom());
        lemma_ranked(here.current.orders, here.by_hash, here.strategy);
        lemma_ranked(there.future.orders, there.by_hash, there.strategy);
        lemma_keeps_to_limits(here.current);
        lemma_keeps_to_limits(there.future);
    }
}

/// Where both sets have room, an import loses nothing: the transaction comes in unless it is refused for
/// something else, and every place keeps a transaction, but for those of its sender below the state nonce.
pub proof fn lemma_import_with_room(
    v: QueueView,
    tx: VerifiedTransaction,
    state_nonce: U256,
    most: nat,
    k: Slot,
)
    requires
        consistent(v),
        tx.transaction.signer is Some,
        has_room_for_one_more(v, most),
        tx.transaction.gas@ <= most,
    ensures
        ({
            let (w, r) = import(v, tx, state_nonce);
            let slot = Slot { sender: tx.transaction.signer->0, nonce: tx.transaction.nonce };
            &&& r != Err::<TransactionImportResult, TransactionError>(TransactionError::LimitReached)
            &&& r is Ok ==> occupied(w, slot)
            &&& occupied(v, k) && (k.sender != slot.sender || k.nonce@ >= state_nonce@) ==> occupied(
                w,
                k,
            )
            &&& k.sender != slot.sender ==> {
                &&& w.current.orders.contains_key(k) == v.current.orders.contains_key(k)
                &&& w.future.orders.contains_key(k) == v.future.orders.contains_key(k)
            }
        }),
{
    reveal(import);
    let slot = slot_of(tx);
    let Slot { sender, nonce } = slot;
    if !v.by_hash.contains_key(tx.transaction.hash) && nonce@ >= state_nonce@ {
        let ready = prepared(v, tx, state_nonce);
        let first = promoted(ready, sender, nonce@, state_nonce);
        let full = filled(ready, sender, nonce, state_nonce);
        let here = entered_current(full, tx, state_nonce);
        let there = entered_future(ready, tx, state_nonce);
        lemma_ready(v, tx, state_nonce);
        lemma_entered(v, tx, state_nonce);
        let all = v.by_hash.dom().insert(tx.transaction.hash);
        vstd::set_lib::lemma_set_subset_finite(all, here.by_hash.dom());
        vstd::set_lib::lemma_set_subset_finite(all, there.by_hash.dom());
        lemma_len_subset(here.by_hash.dom(), all);
        lemma_len_subset(there.by_hash.dom(), all);
        lemma_ranked(here.current.orders, here.by_hash, here.strategy);
        lemma_ranked(there.future.orders, there.by_hash, there.strategy);
        let n = v.by_hash.dom().len() + 1;
        assert forall|j: Slot| #[trigger] here.current.orders.contains_key(j) implies
            here.current.orders[j].gas@ <= most by {
            assert(here.by_hash.contains_key(here.current.orders[j].hash));
        }
        assert forall|j: Slot| #[trigger] there.future.orders.contains_key(j) implies
            there.future.orders[j].gas@ <= most by {
            assert(there.by_hash.contains_key(there.future.orders[j].hash));
        }
        lemma_room_drops_nothing(here.current, n, most);
        lemma_room_drops_nothing(there.future, n, most);
        lemma_lowest_exists(excess(here.current));
        lemma_lowest_exists(excess(there.future));
        lemma_run_end(ready.future.orders, sender, nonce@);
        lemma_run_end(first.future.orders, sender, nonce@ + 1);
        assert(occupied(first, k) == occupied(ready, k));
        assert(occupied(full, k) == occupied(first, k));
        if k.sender != sender {
            assert(occupied(ready, k) == occupied(v, k));
        }
    }
}

/// Whether a sender lacks a transaction at some nonce from one up to another.
pub open spec fn has_gap(v: QueueView, sender: Address, from: nat, to: nat) -> bool {
    exists|j: Slot| j.sender == sender && from <= j.nonce@ < to && !#[trigger] occupied(v, j)
}

/// Whether what a sender has is in sequence from a nonce on: what is pending goes up from it without a
/// gap, what waits has a gap before it, and every height is how far a nonce is above it.
pub open spec fn in_sequence(v: QueueView, sender: Address, from: U256) -> bool {
    &&& forall|k: Slot| #[trigger]
        v.current.orders.contains_key(k) && k.sender == sender ==> k.nonce@ >= from@
            && v.current.orders[k].nonce_height@ == k.nonce@ - from@
    &&& forall|j: Slot, k: Slot| #[trigger]
        v.current.orders.contains_key(k) && k.sender == sender && j.sender == sender && from@ <= j.nonce@
            <= k.nonce@ ==> #[trigger] v.current.orders.contains_key(j)
    &&& forall|k: Slot| #[trigger]
        v.future.orders.contains_key(k) && k.sender == sender ==> k.nonce@ >= from@
            && v.future.orders[k].nonce_height@ == k.nonce@ - from@ && has_gap(
            v,
            sender,
            from@,
            k.nonce@,
        )
}

/// What is sorted out is in sequence.
pub proof fn lemma_in_sequence(v: QueueView, sender: Address, state_nonce: U256)
    requires
        sorted_out(v, sender, state_nonce),
    ensures
        in_sequence(v, sender, state_nonce),
{
    let end = run_end(v.current.orders, sender, state_nonce@);
    lemma_settled_run(v, sender, state_nonce);
    assert forall|j: Slot, k: Slot| #[trigger]
        v.current.orders.contains_key(k) && k.sender == sender && j.sender == sender && state_nonce@
            <= j.nonce@ <= k.nonce@ implies #[trigger] v.current.orders.contains_key(j) by {
        assert(span(sender, state_nonce@, end).contains(k));
        assert(span(sender, state_nonce@, end).contains(j));
    }
    assert forall|k: Slot| #[trigger] v.future.orders.contains_key(k) && k.sender == sender implies has_gap(
        v,
        sender,
        state_nonce@,
        k.nonce@,
    ) by {
        let j = place(sender, end);
        lemma_u256(end);
        assert(!span(sender, state_nonce@, end).contains(j));
        assert(!v.current.orders.contains_key(j));
        assert(!v.future.orders.contains_key(j));
        assert(!occupied(v, j));
    }
}

/// After the import of a transaction that is neither known nor old, what its sender has is in sequence
/// from the state nonce on, where both sets have room.
pub proof fn lemma_import_in_sequence(
    v: QueueView,
    tx: VerifiedTransaction,
    state_nonce: U256,
    most: nat,
)
    requires
        consistent(v),
        tx.transaction.signer is Some,
        !v.by_hash.contains_key(tx.transaction.hash),
        tx.transaction.nonce@ >= state_nonce@,
        has_room_for_one_more(v, most),
        tx.transaction.gas@ <= most,
    ensures
        in_sequence(import(v, tx, state_nonce).0, tx.transaction.signer->0, state_nonce),
{
    let (w, r) = import(v, tx, state_nonce);
    let slot = slot_of(tx);
    assert forall|k: Slot| #[trigger]
        occupied(v, k) && k.sender == slot.sender && k.nonce@ >= state_nonce@ implies occupied(w, k) by {
        lemma_import_with_room(v, tx, state_nonce, most, k);
    }
    lemma_import_with_room(v, tx, state_nonce, most, slot);
    lemma_import_answer(v, tx, state_nonce);
    if r !is Ok {
        assert(occupied(v, slot));
    }
    lemma_import_sorts_out(v, tx, state_nonce);
    lemma_in_sequence(w, slot.sender, state_nonce);
}

/// What is known after an import was known before and is the same, or is the transaction itself, which is
/// known as it was given.
pub proof fn lemma_known_after_import(
    v: QueueView,
    tx: VerifiedTransaction,
    state_nonce: U256,
    h: H256,
)
    requires
        consistent(v),
        tx.transaction.signer is Some,
    ensures
        ({
            let (w, r) = import(v, tx, state_nonce);
            &&& w.by_hash.contains_key(h) && (h != tx.transaction.hash || v.by_hash.contains_key(h))
                ==> v.by_hash.contains_key(h) && w.by_hash[h] == v.by_hash[h]
            &&& w.by_hash.contains_key(h) && h == tx.transaction.hash && !v.by_hash.contains_key(h)
                ==> w.by_hash[h] == tx
            &&& r is Ok ==> w.by_hash.contains_key(tx.transaction.hash)
        }),
{
    crate::queue_laws::lemma_imported_is_known(v, tx, state_nonce);
    reveal(import);
    if !v.by_hash.contains_key(tx.transaction.hash) && tx.transaction.nonce@ >= state_nonce@ {
        lemma_entered(v, tx, state_nonce);
        let slot = slot_of(tx);
        let ready = prepared(v, tx, state_nonce);
        let full = filled(ready, slot.sender, slot.nonce, state_nonce);
        let here = entered_current(full, tx, state_nonce);
        let there = entered_future(ready, tx, state_nonce);
        assert(here.by_hash.contains_key(h) ==> here.by_hash.dom().contains(h));
        assert(there.by_hash.contains_key(h) ==> there.by_hash.dom().contains(h));
    }
}

} // verus!
