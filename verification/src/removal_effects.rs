//! What the removal of transactions does to the queue, told by the places that senders have in it.
use crate::local_transactions::LocalTransactionStatus;
use crate::import_effects::{in_sequence, lemma_in_sequence, price_is_met, was_there};
use crate::order_laws::same_but_height;
use crate::queue_effects::same_settings;
use crate::queue_laws::{lemma_resorted, lemma_run_end, occupied};
use crate::queue_lemmas::{
    lemma_aged, lemma_future_limited, lemma_home, lemma_promoted_upto, lemma_retreated, lemma_without,
};
use crate::queue_model::{
    aged, consistent, future_limited, held, outdated, place, places_of, resorted, retreated,
    run_end, span, struck, without_invalid, without_old, without_old_of, QueueView,
};
use crate::set_laws::{
    has_room, keeps_to_limits, lemma_fewer_keep_to_limits, lemma_keeps_to_limits, lemma_ranked,
    lemma_room_drops_nothing,
};
use crate::transaction::TransactionOrigin;
use crate::transaction_set::slot_of;
use crate::uint::{lemma_u256, Address, H256, U256};
use crate::vec_map::Slot;
use vstd::prelude::*;
use vstd::set_lib::lemma_len_subset;

verus! {

/// Whether `future` has room for all known transactions, of at most `most` gas each.
pub open spec fn future_has_room(v: QueueView, most: nat) -> bool {
    &&& v.by_hash.dom().finite()
    &&& has_room(v.future, v.by_hash.dom().len(), most)
    &&& forall|h: H256| #[trigger]
        v.by_hash.contains_key(h) ==> v.by_hash[h].transaction.gas@ <= most
}

/// Whether what other senders have is left alone, but for external transactions that wait.
pub open spec fn others_are_left(v: QueueView, w: QueueView, sender: Address) -> bool {
    &&& forall|k: Slot|
        k.sender != sender ==> {
            &&& #[trigger] w.current.orders.contains_key(k) == v.current.orders.contains_key(k)
            &&& v.current.orders.contains_key(k) ==> w.current.orders[k] == v.current.orders[k]
        }
    &&& forall|k: Slot| #[trigger]
        w.future.orders.contains_key(k) && k.sender != sender ==> v.future.orders.contains_key(k)
            && w.future.orders[k] == v.future.orders[k]
    &&& forall|k: Slot| #[trigger]
        v.future.orders.contains_key(k) && k.sender != sender && v.future.orders[k].origin
            != TransactionOrigin::External ==> w.future.orders.contains_key(k)
}

/// Whether each order that a sender has was there before, but for its height.
pub open spec fn all_were_there(v: QueueView, w: QueueView, sender: Address) -> bool {
    &&& forall|k: Slot| #[trigger]
        w.current.orders.contains_key(k) && k.sender == sender ==> was_there(
            v,
            k,
            w.current.orders[k],
            false,
        )
    &&& forall|k: Slot| #[trigger]
        w.future.orders.contains_key(k) && k.sender == sender ==> was_there(
            v,
            k,
            w.future.orders[k],
            false,
        )
}

/// The steps of sorting anew.
proof fn lemma_resorted_steps(v: QueueView, sender: Address, state_nonce: U256)
    requires
        consistent(v),
    ensures
        ({
            let young = aged(v, sender, state_nonce);
            let moved = retreated(young, places_of(young.current.orders, sender), state_nonce);
            let limited = future_limited(moved);
            let w = resorted(v, sender, state_nonce);
            &&& consistent(moved)
            &&& moved.by_hash.dom().subset_of(v.by_hash.dom())
            &&& forall|h: H256| #[trigger]
                moved.by_hash.contains_key(h) ==> moved.by_hash[h] == v.by_hash[h]
            &&& same_settings(v, moved)
            &&& same_settings(v, w)
            &&& forall|k: Slot| k.sender == sender ==> !#[trigger] moved.current.orders.contains_key(k)
            &&& forall|k: Slot|
                k.sender == sender && k.nonce@ >= state_nonce@ ==> #[trigger] occupied(moved, k)
                    == occupied(v, k)
            &&& forall|k: Slot| k.sender != sender ==> #[trigger] occupied(moved, k) == occupied(v, k)
            &&& forall|k: Slot| #[trigger] occupied(w, k) == occupied(limited, k)
            &&& others_are_left(v, moved, sender)
            &&& all_were_there(v, moved, sender)
            &&& others_are_left(v, w, sender)
            &&& all_were_there(v, w, sender)
        }),
{
    let young = aged(v, sender, state_nonce);
    let here = places_of(young.current.orders, sender);
    let moved = retreated(young, here, state_nonce);
    let limited = future_limited(moved);
    let w = resorted(v, sender, state_nonce);
    lemma_aged(v, sender, state_nonce);
    lemma_retreated(young, here, state_nonce);
    lemma_run_end(limited.future.orders, sender, state_nonce@);
    let end = run_end(limited.future.orders, sender, state_nonce@);
    assert forall|k: Slot| k.sender == sender && k.nonce@ >= state_nonce@ implies #[trigger] occupied(
        moved,
        k,
    ) == occupied(v, k) by {
        assert(occupied(young, k) == occupied(v, k));
    }
    assert forall|k: Slot| k.sender != sender implies #[trigger] occupied(moved, k) == occupied(v, k) by {
        assert(occupied(young, k) == occupied(v, k));
    }
    assert forall|k: Slot| #[trigger] occupied(w, k) == occupied(limited, k) by {
        if span(sender, state_nonce@, end).contains(k) {
            assert(limited.future.orders.contains_key(k));
        }
    }
    assert forall|k: Slot| #[trigger] moved.future.orders.contains_key(k) && k.sender
        == sender implies was_there(v, k, moved.future.orders[k], false) by {
        assert(young.future.orders.contains_key(k) ==> v.future.orders.contains_key(k));
        assert(young.future.orders.contains_key(k) || young.current.orders.contains_key(k));
    }
    assert forall|k: Slot| #[trigger] w.future.orders.contains_key(k) && k.sender == sender implies was_there(
        v,
        k,
        w.future.orders[k],
        false,
    ) by {
        assert(moved.future.orders.contains_key(k));
    }
    assert forall|k: Slot| #[trigger] w.current.orders.contains_key(k) && k.sender == sender implies was_there(
        v,
        k,
        w.current.orders[k],
        false,
    ) by {
        assert(!moved.current.orders.contains_key(k));
        assert(limited.future.orders.contains_key(k));
        assert(moved.future.orders.contains_key(k));
    }
}

/// Whether, of two transactions at a place, the one that is pending is left unless the other offers more.
pub open spec fn better_is_left(v: QueueView, w: QueueView, k: Slot) -> bool {
    v.current.orders.contains_key(k) && v.future.orders.contains_key(k) ==> {
        let best = if v.future.orders[k].gas_price@ > v.current.orders[k].gas_price@ {
            v.future.orders[k]
        } else {
            v.current.orders[k]
        };
        ||| w.current.orders.contains_key(k) && !w.future.orders.contains_key(k) && same_but_height(
            best,
            w.current.orders[k],
        )
        ||| w.future.orders.contains_key(k) && !w.current.orders.contains_key(k) && same_but_height(
            best,
            w.future.orders[k],
        )
    }
}

/// With room for all that is known, sorting anew loses nothing from the state nonce on, and the better of
/// two transactions stays.
proof fn lemma_resorted_with_room(
    v: QueueView,
    sender: Address,
    state_nonce: U256,
    most: nat,
    k: Slot,
)
    requires
        consistent(v),
        future_has_room(v, most),
    ensures
        ({
            let w = resorted(v, sender, state_nonce);
            &&& k.sender != sender || k.nonce@ >= state_nonce@ ==> occupied(w, k) == occupied(v, k)
            &&& k.sender != sender ==> w.future.orders.contains_key(k) == v.future.orders.contains_key(k)
            &&& k.sender == sender && k.nonce@ >= state_nonce@ ==> forall|p: nat| #[trigger]
                price_is_met(w, k, p) == price_is_met(v, k, p)
            &&& k.sender == sender && k.nonce@ >= state_nonce@ ==> better_is_left(v, w, k)
        }),
{
    let young = aged(v, sender, state_nonce);
    let moved = retreated(young, places_of(young.current.orders, sender), state_nonce);
    let limited = future_limited(moved);
    let w = resorted(v, sender, state_nonce);
    lemma_resorted_steps(v, sender, state_nonce);
    vstd::set_lib::lemma_set_subset_finite(v.by_hash.dom(), moved.by_hash.dom());
    lemma_len_subset(moved.by_hash.dom(), v.by_hash.dom());
    lemma_ranked(moved.future.orders, moved.by_hash, moved.strategy);
    assert forall|j: Slot| #[trigger] moved.future.orders.contains_key(j) implies
        moved.future.orders[j].gas@ <= most by {
        assert(moved.by_hash.contains_key(moved.future.orders[j].hash));
    }
    lemma_room_drops_nothing(moved.future, v.by_hash.dom().len(), most);
    assert(limited.future.orders =~= moved.future.orders);
    assert(occupied(w, k) == occupied(limited, k));
    assert(occupied(moved, k) == occupied(limited, k));
    lemma_run_end(limited.future.orders, sender, state_nonce@);
    if k.sender == sender && k.nonce@ >= state_nonce@ {
        let end = run_end(limited.future.orders, sender, state_nonce@);
        assert(young.future.orders.contains_key(k) == v.future.orders.contains_key(k));
        assert forall|p: nat| #[trigger] price_is_met(w, k, p) == price_is_met(v, k, p) by {
            assert(price_is_met(moved, k, p) == price_is_met(v, k, p));
            if span(sender, state_nonce@, end).contains(k) {
                assert(limited.future.orders.contains_key(k));
                assert(w.current.orders.contains_key(k));
                assert(!w.future.orders.contains_key(k));
            } else {
                assert(!w.current.orders.contains_key(k));
            }
        }
    }
}

/// After sorting anew, what waits keeps to its limits.
proof fn lemma_resorted_keeps_to_limits(v: QueueView, sender: Address, state_nonce: U256)
    requires
        consistent(v),
        v.by_hash.dom().finite(),
    ensures
        keeps_to_limits(resorted(v, sender, state_nonce).future),
{
    let young = aged(v, sender, state_nonce);
    let moved = retreated(young, places_of(young.current.orders, sender), state_nonce);
    let limited = future_limited(moved);
    lemma_resorted_steps(v, sender, state_nonce);
    vstd::set_lib::lemma_set_subset_finite(v.by_hash.dom(), moved.by_hash.dom());
    lemma_ranked(moved.future.orders, moved.by_hash, moved.strategy);
    lemma_keeps_to_limits(moved.future);
    lemma_future_limited(moved);
    assert(limited.by_hash.dom().subset_of(moved.by_hash.dom()));
    vstd::set_lib::lemma_set_subset_finite(moved.by_hash.dom(), limited.by_hash.dom());
    lemma_ranked(limited.future.orders, limited.by_hash, limited.strategy);
    lemma_fewer_keep_to_limits(
        limited.future,
        span(sender, state_nonce@, run_end(limited.future.orders, sender, state_nonce@)),
    );
}

/// Whether what a sender has calls for sorting as of a state nonce: something pending is below it, or
/// something that waits is not above it.
pub open spec fn behind(v: QueueView, sender: Address, state_nonce: U256) -> bool {
    ||| exists|k: Slot| #[trigger]
        v.current.orders.contains_key(k) && k.sender == sender && k.nonce@ < state_nonce@
    ||| exists|k: Slot| #[trigger]
        v.future.orders.contains_key(k) && k.sender == sender && k.nonce@ <= state_nonce@
}

/// Telling the queue the state nonce of a sender changes nothing where nothing pending is below it, and
/// nothing that waits is at it or below. Else all that the sender has is brought in sequence from the
/// state nonce on, with nothing left below it, and what waits is cut to its limits. No order changes but
/// for its height. What others have is left alone, but for external transactions that wait.
pub proof fn lemma_remove_all(v: QueueView, sender: Address, state_nonce: U256)
    requires
        consistent(v),
        v.by_hash.dom().finite(),
    ensures
        ({
            let w = without_old(v, sender, state_nonce);
            &&& !behind(v, sender, state_nonce) ==> w == v
            &&& behind(v, sender, state_nonce) ==> in_sequence(w, sender, state_nonce)
                && keeps_to_limits(w.future)
            &&& forall|k: Slot|
                k.sender == sender && k.nonce@ < state_nonce@ ==> !#[trigger] occupied(w, k)
            &&& forall|k: Slot| #[trigger] occupied(w, k) ==> occupied(v, k)
            &&& all_were_there(v, w, sender)
            &&& others_are_left(v, w, sender)
            &&& same_settings(v, w)
        }),
{
    if outdated(v, sender, state_nonce) {
        lemma_resorted(v, sender, state_nonce);
        lemma_in_sequence(resorted(v, sender, state_nonce), sender, state_nonce);
        lemma_resorted_steps(v, sender, state_nonce);
        lemma_resorted_keeps_to_limits(v, sender, state_nonce);
    } else {
        let w = without_old(v, sender, state_nonce);
        assert forall|k: Slot| k.sender == sender && k.nonce@ < state_nonce@ implies !#[trigger] occupied(
            w,
            k,
        ) by {
            assert(!v.current.orders.contains_key(k));
            assert(!v.future.orders.contains_key(k));
        }
    }
}

/// Where there is room for what waits, telling the queue the state nonce of a sender removes nothing but
/// what that sender has below it. Of two transactions at one place, where the queue is behind, the pending
/// one is left unless the other offers more.
pub proof fn lemma_remove_all_with_room(
    v: QueueView,
    sender: Address,
    state_nonce: U256,
    most: nat,
    k: Slot,
)
    requires
        consistent(v),
        future_has_room(v, most),
    ensures
        ({
            let w = without_old(v, sender, state_nonce);
            &&& occupied(w, k) <==> occupied(v, k) && (k.sender != sender || k.nonce@ >= state_nonce@)
            &&& k.sender != sender ==> w.future.orders.contains_key(k) == v.future.orders.contains_key(k)
            &&& k.sender == sender && k.nonce@ >= state_nonce@ ==> forall|p: nat| #[trigger]
                price_is_met(w, k, p) == price_is_met(v, k, p)
            &&& behind(v, sender, state_nonce) && k.sender == sender && k.nonce@ >= state_nonce@
                ==> better_is_left(v, w, k)
        }),
{
    lemma_remove_all(v, sender, state_nonce);
    lemma_resorted_with_room(v, sender, state_nonce, most, k);
}

/// Where there is room for what waits, telling the queue the state nonces of senders removes what each of
/// them has below its state nonce, and nothing else.
pub proof fn lemma_remove_old_with_room(
    v: QueueView,
    senders: Seq<Address>,
    nonces: Seq<U256>,
    most: nat,
    k: Slot,
)
    requires
        consistent(v),
        future_has_room(v, most),
        senders.len() == nonces.len(),
    ensures
        ({
            let w = without_old_of(v, senders, nonces);
            &&& consistent(w)
            &&& future_has_room(w, most)
            &&& occupied(w, k) <==> occupied(v, k) && forall|i: int|
                0 <= i < senders.len() && #[trigger] senders[i] == k.sender ==> k.nonce@ >= nonces[i]@
        }),
    decreases senders.len(),
{
    if senders.len() > 0 {
        let before = without_old_of(v, senders.drop_last(), nonces.drop_last());
        let (sender, nonce) = (senders.last(), nonces.last());
        lemma_remove_old_with_room(v, senders.drop_last(), nonces.drop_last(), most, k);
        lemma_remove_all_with_room(before, sender, nonce, most, k);
        lemma_still_room(before, sender, nonce, most);
        let w = without_old_of(v, senders, nonces);
        if occupied(w, k) {
            assert forall|i: int| 0 <= i < senders.len() && #[trigger] senders[i] == k.sender implies k.nonce@
                >= nonces[i]@ by {
                if i < senders.len() - 1 {
                    assert(senders.drop_last()[i] == senders[i]);
                }
            }
        } else if occupied(v, k) && forall|i: int|
            0 <= i < senders.len() && #[trigger] senders[i] == k.sender ==> k.nonce@ >= nonces[i]@ {
            assert(senders[senders.len() - 1] == sender);
            assert forall|i: int|
                0 <= i < senders.drop_last().len() && #[trigger] senders.drop_last()[i]
                    == k.sender implies k.nonce@ >= nonces.drop_last()[i]@ by {
                assert(senders[i] == k.sender);
            }
        }
    }
}

/// Telling the queue a state nonce leaves it consistent, and leaves room.
proof fn lemma_still_room(v: QueueView, sender: Address, state_nonce: U256, most: nat)
    requires
        consistent(v),
        future_has_room(v, most),
    ensures
        consistent(without_old(v, sender, state_nonce)),
        future_has_room(without_old(v, sender, state_nonce), most),
{
    let young = aged(v, sender, state_nonce);
    let moved = retreated(young, places_of(young.current.orders, sender), state_nonce);
    let limited = future_limited(moved);
    let w = resorted(v, sender, state_nonce);
    lemma_resorted_steps(v, sender, state_nonce);
    lemma_future_limited(moved);
    lemma_promoted_upto(
        limited,
        sender,
        state_nonce@,
        state_nonce,
        run_end(limited.future.orders, sender, state_nonce@),
    );
    assert forall|h: H256| #[trigger] w.by_hash.contains_key(h) implies v.by_hash.contains_key(h)
        && w.by_hash[h] == v.by_hash[h] by {
        assert(limited.by_hash.contains_key(h));
        assert(moved.by_hash.contains_key(h));
    }
    assert(w.by_hash.dom().subset_of(v.by_hash.dom()));
    vstd::set_lib::lemma_set_subset_finite(v.by_hash.dom(), w.by_hash.dom());
    lemma_len_subset(w.by_hash.dom(), v.by_hash.dom());
    assert(w.by_hash.dom().len() * most <= v.by_hash.dom().len() * most) by (nonlinear_arith)
        requires
            w.by_hash.dom().len() <= v.by_hash.dom().len(),
    ;
}

/// A transaction that is found invalid leaves the queue, and is noted as invalid if anything was noted of
/// it. One that is not known changes nothing.
pub proof fn lemma_remove_invalid(v: QueueView, hash: H256, state_nonce: U256)
    requires
        consistent(v),
    ensures
        ({
            let w = without_invalid(v, hash, state_nonce);
            &&& !v.by_hash.contains_key(hash) ==> w == v
            &&& !w.by_hash.contains_key(hash)
            &&& w.local.contains_key(hash) == v.local.contains_key(hash)
            &&& v.by_hash.contains_key(hash) && v.local.contains_key(hash) ==> w.local[hash]
                == LocalTransactionStatus::Invalid(v.by_hash[hash].transaction)
            &&& same_settings(v, w)
        }),
{
    if v.by_hash.contains_key(hash) {
        lemma_home(v, hash);
    }
}

/// Where the transaction that is found invalid was pending, what is left of its sender's is brought in
/// sequence from the state nonce on: where it leaves a gap, those after it wait. No order changes but for
/// its height, what waits is cut to its limits, and others are left alone but for external transactions
/// that wait.
pub proof fn lemma_remove_invalid_pending(v: QueueView, hash: H256, state_nonce: U256)
    requires
        consistent(v),
        v.by_hash.dom().finite(),
        v.by_hash.contains_key(hash),
        held(v.by_hash, v.current.orders, hash),
    ensures
        ({
            let w = without_invalid(v, hash, state_nonce);
            let sender = v.by_hash[hash].transaction.signer->0;
            &&& in_sequence(w, sender, state_nonce)
            &&& keeps_to_limits(w.future)
            &&& all_were_there(v, w, sender)
            &&& others_are_left(v, w, sender)
        }),
{
    let sender = slot_of(v.by_hash[hash]).sender;
    let rest = struck(v, hash);
    let w = without_invalid(v, hash, state_nonce);
    lemma_home(v, hash);
    lemma_without(v, hash);
    lemma_resorted(rest, sender, state_nonce);
    lemma_in_sequence(w, sender, state_nonce);
    lemma_resorted_steps(rest, sender, state_nonce);
    assert(rest.by_hash.dom().subset_of(v.by_hash.dom()));
    vstd::set_lib::lemma_set_subset_finite(v.by_hash.dom(), rest.by_hash.dom());
    lemma_resorted_keeps_to_limits(rest, sender, state_nonce);
    assert forall|k: Slot| #[trigger] w.current.orders.contains_key(k) && k.sender == sender implies was_there(
        v,
        k,
        w.current.orders[k],
        false,
    ) by {
        assert(was_there(rest, k, w.current.orders[k], false));
    }
    assert forall|k: Slot| #[trigger] w.future.orders.contains_key(k) && k.sender == sender implies was_there(
        v,
        k,
        w.future.orders[k],
        false,
    ) by {
        assert(was_there(rest, k, w.future.orders[k], false));
    }
    assert forall|k: Slot|
        k.sender != sender implies {
        &&& #[trigger] w.current.orders.contains_key(k) == v.current.orders.contains_key(k)
        &&& v.current.orders.contains_key(k) ==> w.current.orders[k] == v.current.orders[k]
    } by {
        assert(rest.current.orders.contains_key(k) == v.current.orders.contains_key(k));
    }
}

/// Where there is room for what waits, and the transaction that is found invalid was pending, every place
/// keeps a transaction, but for its own, unless another waits there, and those of its sender below the
/// state nonce.
pub proof fn lemma_remove_invalid_with_room(
    v: QueueView,
    hash: H256,
    state_nonce: U256,
    most: nat,
    k: Slot,
)
    requires
        consistent(v),
        future_has_room(v, most),
        v.by_hash.contains_key(hash),
        held(v.by_hash, v.current.orders, hash),
    ensures
        ({
            let w = without_invalid(v, hash, state_nonce);
            let tx = v.by_hash[hash].transaction;
            let own = k.sender == tx.signer->0 && k.nonce == tx.nonce;
            &&& occupied(w, k) <==> (v.future.orders.contains_key(k) || (v.current.orders.contains_key(k)
                && !own)) && (k.sender != tx.signer->0 || k.nonce@ >= state_nonce@)
            &&& k.sender != tx.signer->0 ==> w.future.orders.contains_key(k)
                == v.future.orders.contains_key(k)
        }),
{
    let sender = slot_of(v.by_hash[hash]).sender;
    let rest = struck(v, hash);
    let w = without_invalid(v, hash, state_nonce);
    lemma_home(v, hash);
    lemma_without(v, hash);
    assert(rest.by_hash.dom().subset_of(v.by_hash.dom()));
    vstd::set_lib::lemma_set_subset_finite(v.by_hash.dom(), rest.by_hash.dom());
    lemma_len_subset(rest.by_hash.dom(), v.by_hash.dom());
    assert(rest.by_hash.dom().len() * most <= v.by_hash.dom().len() * most) by (nonlinear_arith)
        requires
            rest.by_hash.dom().len() <= v.by_hash.dom().len(),
    ;
    lemma_resorted_with_room(rest, sender, state_nonce, most, k);
    lemma_remove_invalid_pending(v, hash, state_nonce);
    if k.sender == sender && k.nonce@ < state_nonce@ {
        assert(!w.current.orders.contains_key(k));
        assert(!w.future.orders.contains_key(k));
    }
}

/// Whether the places of a sender from a nonce up to that of `k`, which is not below it, all wait, and
/// none of them is `gap`.
pub open spec fn waits_from(v: QueueView, k: Slot, from: U256, gap: Slot) -> bool {
    k.nonce@ >= from@ && forall|j: Slot|
        j.sender == k.sender && from@ <= j.nonce@ <= k.nonce@ ==> #[trigger] v.future.orders.contains_key(
            j,
        ) && j != gap
}

/// Where the transaction that is found invalid waited, what is pending stays. Of what else its sender has
/// waiting, what is below the state nonce goes. What goes up from the state nonce without a gap becomes
/// pending, the rest waits on. Heights are counted from the state nonce. What others have is left alone.
pub proof fn lemma_remove_invalid_waiting(v: QueueView, hash: H256, state_nonce: U256, k: Slot)
    requires
        consistent(v),
        v.by_hash.contains_key(hash),
        held(v.by_hash, v.future.orders, hash),
    ensures
        ({
            let w = without_invalid(v, hash, state_nonce);
            let tx = v.by_hash[hash].transaction;
            let own = Slot { sender: tx.signer->0, nonce: tx.nonce };
            let moves = k.sender == own.sender && waits_from(v, k, state_nonce, own);
            let goes = k == own || (k.sender == own.sender && k.nonce@ < state_nonce@);
            &&& w.current.orders.contains_key(k) <==> v.current.orders.contains_key(k) || moves
            &&& w.future.orders.contains_key(k) <==> v.future.orders.contains_key(k) && !moves && !goes
            &&& w.current.orders.contains_key(k) && !moves ==> w.current.orders[k] == v.current.orders[k]
            &&& w.current.orders.contains_key(k) ==> was_there(v, k, w.current.orders[k], false)
            &&& w.future.orders.contains_key(k) ==> was_there(v, k, w.future.orders[k], false)
            &&& w.future.orders.contains_key(k) && k.sender == own.sender
                ==> w.future.orders[k].nonce_height@ == k.nonce@ - state_nonce@
            &&& moves && !v.current.orders.contains_key(k) ==> w.current.orders[k].nonce_height@
                == k.nonce@ - state_nonce@
            &&& k.sender != own.sender && v.future.orders.contains_key(k) ==> w.future.orders[k]
                == v.future.orders[k]
        }),
{
    let own = slot_of(v.by_hash[hash]);
    let sender = own.sender;
    let rest = struck(v, hash);
    let young = aged(rest, sender, state_nonce);
    let w = without_invalid(v, hash, state_nonce);
    let end = run_end(young.future.orders, sender, state_nonce@);
    lemma_home(v, hash);
    lemma_run_end(young.future.orders, sender, state_nonce@);
    if k.nonce@ >= state_nonce@ {
        lemma_u256((k.nonce@ - state_nonce@) as nat);
    }
    assert(k.sender == sender && waits_from(v, k, state_nonce, own) <==> span(
        sender,
        state_nonce@,
        end,
    ).contains(k)) by {
        if span(sender, state_nonce@, end).contains(k) {
            assert forall|j: Slot|
                j.sender == k.sender && state_nonce@ <= j.nonce@
                    <= k.nonce@ implies #[trigger] v.future.orders.contains_key(j) && j != own by {
                assert(span(sender, state_nonce@, end).contains(j));
                assert(young.future.orders.contains_key(j));
            }
        }
        if k.sender == sender && waits_from(v, k, state_nonce, own) && k.nonce@ >= end {
            let j = place(sender, end);
            lemma_u256(end);
            assert(v.future.orders.contains_key(j) && j != own);
            assert(young.future.orders.contains_key(j));
        }
    }
    if span(sender, state_nonce@, end).contains(k) {
        assert(young.future.orders.contains_key(k));
    }
}

} // verus!
