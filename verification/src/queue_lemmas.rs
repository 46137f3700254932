//! Every step of the queue keeps its invariant.
use crate::local_transactions::LocalTransactionStatus;
use crate::order::{lemma_ties_share_hash, TransactionOrder};
use crate::queue_model::{
    aged, below_base, consistent, current_limited, entered_current, entered_future, fits, from_base,
    future_limited, held, lifted, marked_local, merged, penalized_for, place, promoted_upto, retreated, span, struck,
    taken, taken_known, taken_local, winners, with_mined, with_moved, QueueView,
};
use crate::queue_marks::{
    moved_marks, order_mark, own_mark, promoted_upto_marks, retreated_marks, taken_marks,
};
use crate::transaction::{TransactionOrigin, VerifiedTransaction};
use crate::transaction_set::{
    accepts, dropped_marks, excess, forget, labelled, lemma_highest, lemma_highest_exists, one_strategy,
    separate, slot_of, tied,
};
use crate::uint::{lemma_u256, lemma_u256_injective, range, Address, H256, U256};
use crate::vec_map::Slot;
use vstd::prelude::*;

verus! {

/// A known transaction has its order in one of the two sets.
pub proof fn lemma_home(v: QueueView, h: H256)
    requires
        consistent(v),
        v.by_hash.contains_key(h),
    ensures
        held(v.by_hash, v.current.orders, h) != held(v.by_hash, v.future.orders, h),
{
    let k = slot_of(v.by_hash[h]);
    assert(v.current.orders.contains_key(k) && v.future.orders.contains_key(k)
        ==> v.current.orders[k].hash != v.future.orders[k].hash);
}

pub proof fn lemma_aged(v: QueueView, sender: Address, base: U256)
    requires
        consistent(v),
    ensures
        consistent(aged(v, sender, base)),
{
    let w = aged(v, sender, base);
    assert forall|k: Slot| #[trigger] w.future.orders.contains_key(k) implies {
        &&& w.by_hash.contains_key(w.future.orders[k].hash)
        &&& w.by_hash[w.future.orders[k].hash] == v.by_hash[v.future.orders[k].hash]
        &&& v.future.orders.contains_key(k)
    } by {
        assert(v.future.orders.contains_key(k));
    }
    assert forall|k: Slot| #[trigger] w.current.orders.contains_key(k) implies w.by_hash.contains_key(
        w.current.orders[k].hash,
    ) by {
        assert(v.current.orders.contains_key(k));
        lemma_home(v, v.current.orders[k].hash);
    }
    assert forall|h: H256| #[trigger] w.by_hash.contains_key(h) implies held(
        w.by_hash,
        w.current.orders,
        h,
    ) || held(w.by_hash, w.future.orders, h) by {
        assert(v.by_hash.contains_key(h));
    }
}

pub proof fn lemma_retreated(v: QueueView, places: Set<Slot>, base: U256)
    requires
        consistent(v),
    ensures
        consistent(retreated(v, places, base)),
{
    let w = retreated(v, places, base);
    lemma_highest_exists(w.current.orders.dom());
    let mined = below_base(v.current.orders, places, base);
    let moved = from_base(v.current.orders, places, base);
    let known = forget(v.by_hash, v.current.orders, mined);
    assert forall|k: Slot| #[trigger] w.future.orders.contains_key(k) implies {
        let h = w.future.orders[k].hash;
        &&& w.by_hash.contains_key(h)
        &&& w.by_hash[h] == v.by_hash[h]
        &&& fits(w.future.orders[k], v.by_hash[h], v.strategy)
        &&& slot_of(v.by_hash[h]) == k
        &&& v.by_hash.contains_key(h)
    } by {
        if v.future.orders.contains_key(k) {
            lemma_home(v, v.future.orders[k].hash);
        }
        if v.current.orders.contains_key(k) {
            lemma_home(v, v.current.orders[k].hash);
        }
    }
    assert forall|k: Slot| #[trigger] w.current.orders.contains_key(k) implies {
        let h = w.current.orders[k].hash;
        &&& v.current.orders.contains_key(k)
        &&& w.by_hash.contains_key(h)
        &&& w.by_hash[h] == v.by_hash[h]
    } by {
        assert(v.current.orders.contains_key(k));
        lemma_home(v, v.current.orders[k].hash);
    }
    assert forall|h: H256| #[trigger] w.by_hash.contains_key(h) implies {
        &&& v.by_hash.contains_key(h)
        &&& held(w.by_hash, w.current.orders, h) || held(w.by_hash, w.future.orders, h)
    } by {
        assert(v.by_hash.contains_key(h));
        lemma_home(v, h);
    }
    assert forall|k: Slot| #[trigger]
        w.current.orders.contains_key(k) && #[trigger] w.future.orders.contains_key(
            k,
        ) implies w.current.orders[k].hash != w.future.orders[k].hash by {
        assert(v.current.orders.contains_key(k));
        assert(!moved.contains_key(k));
        assert(v.future.orders.contains_key(k));
    }
}

pub proof fn lemma_promoted_upto(
    v: QueueView,
    sender: Address,
    from: nat,
    base: U256,
    end: nat,
)
    requires
        consistent(v),
    ensures
        consistent(promoted_upto(v, sender, from, base, end)),
{
    let w = promoted_upto(v, sender, from, base, end);
    lemma_highest_exists(w.current.orders.dom());
    let moved = lifted(v.future.orders, span(sender, from, end), base);
    assert forall|k: Slot| #[trigger] w.current.orders.contains_key(k) implies {
        let h = w.current.orders[k].hash;
        &&& w.by_hash.contains_key(h)
        &&& w.by_hash[h] == v.by_hash[h]
        &&& fits(w.current.orders[k], v.by_hash[h], v.strategy)
        &&& slot_of(v.by_hash[h]) == k
        &&& v.by_hash.contains_key(h)
    } by {
        if v.future.orders.contains_key(k) {
            lemma_home(v, v.future.orders[k].hash);
        }
        if v.current.orders.contains_key(k) {
            lemma_home(v, v.current.orders[k].hash);
        }
    }
    assert forall|k: Slot| #[trigger] w.future.orders.contains_key(k) implies {
        let h = w.future.orders[k].hash;
        &&& v.future.orders.contains_key(k)
        &&& w.by_hash.contains_key(h)
        &&& w.by_hash[h] == v.by_hash[h]
    } by {
        assert(v.future.orders.contains_key(k));
        lemma_home(v, v.future.orders[k].hash);
    }
    assert forall|h: H256| #[trigger] w.by_hash.contains_key(h) implies {
        &&& v.by_hash.contains_key(h)
        &&& held(w.by_hash, w.current.orders, h) || held(w.by_hash, w.future.orders, h)
    } by {
        assert(v.by_hash.contains_key(h));
        lemma_home(v, h);
    }
    assert forall|k: Slot| #[trigger]
        w.current.orders.contains_key(k) && #[trigger] w.future.orders.contains_key(
            k,
        ) implies w.current.orders[k].hash != w.future.orders[k].hash by {
        assert(v.future.orders.contains_key(k));
        assert(!moved.contains_key(k));
        assert(v.current.orders.contains_key(k));
    }
}

pub proof fn lemma_current_limited(v: QueueView)
    requires
        consistent(v),
    ensures
        consistent(current_limited(v)),
{
    let w = current_limited(v);
    lemma_highest_exists(w.current.orders.dom());
    assert forall|k: Slot| #[trigger] w.current.orders.contains_key(k) implies {
        &&& v.current.orders.contains_key(k)
        &&& w.by_hash.contains_key(w.current.orders[k].hash)
    } by {
        assert(v.current.orders.contains_key(k));
    }
    assert forall|k: Slot| #[trigger] w.future.orders.contains_key(k) implies w.by_hash.contains_key(
        w.future.orders[k].hash,
    ) by {
        assert(v.future.orders.contains_key(k));
        lemma_home(v, v.future.orders[k].hash);
    }
    assert forall|h: H256| #[trigger] w.by_hash.contains_key(h) implies held(
        w.by_hash,
        w.current.orders,
        h,
    ) || held(w.by_hash, w.future.orders, h) by {
        assert(v.by_hash.contains_key(h));
    }
}

pub proof fn lemma_future_limited(v: QueueView)
    requires
        consistent(v),
    ensures
        consistent(future_limited(v)),
{
    let w = future_limited(v);
    assert forall|k: Slot| #[trigger] w.future.orders.contains_key(k) implies {
        &&& v.future.orders.contains_key(k)
        &&& w.by_hash.contains_key(w.future.orders[k].hash)
    } by {
        assert(v.future.orders.contains_key(k));
    }
    assert forall|k: Slot| #[trigger] w.current.orders.contains_key(k) implies w.by_hash.contains_key(
        w.current.orders[k].hash,
    ) by {
        assert(v.current.orders.contains_key(k));
        lemma_home(v, v.current.orders[k].hash);
    }
    assert forall|h: H256| #[trigger] w.by_hash.contains_key(h) implies held(
        w.by_hash,
        w.current.orders,
        h,
    ) || held(w.by_hash, w.future.orders, h) by {
        assert(v.by_hash.contains_key(h));
    }
}

/// Replacing orders by others with the same hash, gas and price, and a suitable origin, keeps the
/// invariant.
pub proof fn lemma_repriced(
    v: QueueView,
    w: QueueView,
)
    requires
        consistent(v),
        w.by_hash == v.by_hash,
        w.strategy == v.strategy,
        w.last_nonces == v.last_nonces,
        w.current.orders.dom() == v.current.orders.dom(),
        w.future.orders.dom() == v.future.orders.dom(),
        forall|k: Slot| #[trigger]
            w.current.orders.contains_key(k) ==> w.current.orders[k].hash == v.current.orders[k].hash
                && fits(
                w.current.orders[k],
                v.by_hash[w.current.orders[k].hash],
                v.strategy,
            ),
        forall|k: Slot| #[trigger]
            w.future.orders.contains_key(k) ==> w.future.orders[k].hash == v.future.orders[k].hash
                && fits(w.future.orders[k], v.by_hash[w.future.orders[k].hash], v.strategy),
    ensures
        consistent(w),
{
    assert forall|k: Slot|
        w.current.orders.contains_key(k) == v.current.orders.contains_key(k) by {}
    assert forall|k: Slot|
        w.future.orders.contains_key(k) == v.future.orders.contains_key(k) by {}
    assert forall|h: H256| #[trigger] w.by_hash.contains_key(h) implies held(
        w.by_hash,
        w.current.orders,
        h,
    ) || held(w.by_hash, w.future.orders, h) by {
        lemma_home(v, h);
    }
}

pub proof fn lemma_marked_local(v: QueueView, sender: Address)
    requires
        consistent(v),
    ensures
        consistent(marked_local(v, sender)),
{
    let w = marked_local(v, sender);
    assert(w.current.orders.dom() =~= v.current.orders.dom());
    assert(w.future.orders.dom() =~= v.future.orders.dom());
    lemma_repriced(v, w);
}

pub proof fn lemma_penalized_for(v: QueueView, hash: H256)
    requires
        consistent(v),
    ensures
        consistent(penalized_for(v, hash)),
{
    let w = penalized_for(v, hash);
    assert(w.current.orders.dom() =~= v.current.orders.dom());
    assert(w.future.orders.dom() =~= v.future.orders.dom());
    lemma_repriced(v, w);
}

pub proof fn lemma_entered_current(v: QueueView, tx: VerifiedTransaction, base: U256)
    requires
        consistent(v),
        tx.transaction.signer is Some,
        !v.by_hash.contains_key(tx.transaction.hash),
    ensures
        consistent(entered_current(v, tx, base)),
{
    let w = entered_current(v, tx, base);
    lemma_highest_exists(w.current.orders.dom());
    let slot = slot_of(tx);
    if v.current.orders.contains_key(slot) {
        lemma_home(v, v.current.orders[slot].hash);
    }
    assert forall|k: Slot| #[trigger] w.current.orders.contains_key(k) implies w.by_hash.contains_key(
        w.current.orders[k].hash,
    ) by {
        if k != slot {
            assert(v.current.orders.contains_key(k));
        }
    }
    assert forall|k: Slot| #[trigger] w.future.orders.contains_key(k) implies w.by_hash.contains_key(
        w.future.orders[k].hash,
    ) by {
        assert(v.future.orders.contains_key(k));
    }
    assert forall|h: H256| #[trigger] w.by_hash.contains_key(h) implies {
        &&& held(w.by_hash, w.current.orders, h) || held(w.by_hash, w.future.orders, h)
        &&& w.by_hash[h].transaction.hash == h
    } by {
        if h != tx.transaction.hash {
            assert(v.by_hash.contains_key(h));
        }
    }
}

pub proof fn lemma_entered_future(v: QueueView, tx: VerifiedTransaction, base: U256)
    requires
        consistent(v),
        tx.transaction.signer is Some,
        !v.by_hash.contains_key(tx.transaction.hash),
    ensures
        consistent(entered_future(v, tx, base)),
{
    let w = entered_future(v, tx, base);
    let slot = slot_of(tx);
    if v.future.orders.contains_key(slot) {
        lemma_home(v, v.future.orders[slot].hash);
    }
    assert forall|k: Slot| #[trigger] w.future.orders.contains_key(k) implies w.by_hash.contains_key(
        w.future.orders[k].hash,
    ) by {
        if k != slot {
            assert(v.future.orders.contains_key(k));
        }
    }
    assert forall|k: Slot| #[trigger] w.current.orders.contains_key(k) implies w.by_hash.contains_key(
        w.current.orders[k].hash,
    ) by {
        assert(v.current.orders.contains_key(k));
    }
    assert forall|h: H256| #[trigger] w.by_hash.contains_key(h) implies {
        &&& held(w.by_hash, w.current.orders, h) || held(w.by_hash, w.future.orders, h)
        &&& w.by_hash[h].transaction.hash == h
    } by {
        if h != tx.transaction.hash {
            assert(v.by_hash.contains_key(h));
        }
    }
}

/// An order can be put at its place, and ties with none, where no order with its hash is there.
pub proof fn lemma_accepted(
    orders: Map<Slot, TransactionOrder>,
    known: Map<H256, VerifiedTransaction>,
    slot: Slot,
    order: TransactionOrder,
)
    requires
        labelled(orders, known),
        forall|k: Slot| #[trigger] orders.contains_key(k) ==> orders[k].strategy == order.strategy,
        slot_of(known[order.hash]) == slot,
        orders.contains_key(slot) ==> orders[slot].hash != order.hash,
    ensures
        accepts(orders, slot, order),
        !tied(orders, order),
{
    assert forall|k: Slot| #[trigger] orders.contains_key(k) implies orders[k].hash != order.hash by {
        assert(slot_of(known[orders[k].hash]) == k);
    }
    if tied(orders, order) {
        let k = choose|k: Slot| #[trigger] orders.contains_key(k) && order.ties(orders[k]);
        lemma_ties_share_hash(order, orders[k]);
    }
}

/// What one more order that moves in changes.
pub proof fn lemma_move_one(
    local: Map<H256, LocalTransactionStatus>,
    known: Map<H256, VerifiedTransaction>,
    target: Map<Slot, TransactionOrder>,
    moved: Map<Slot, TransactionOrder>,
    status: LocalTransactionStatus,
    slot: Slot,
    order: TransactionOrder,
)
    requires
        labelled(target, known),
        labelled(moved, known),
        !moved.contains_key(slot),
        known.contains_key(order.hash),
        known[order.hash].transaction.hash == order.hash,
        slot_of(known[order.hash]) == slot,
        target.contains_key(slot) ==> target[slot].hash != order.hash,
    ensures
        ({
            let all = moved.insert(slot, order);
            let orders = merged(target, moved);
            let rest = winners(known, target, moved);
            let before = with_moved(local, known, target, moved, status);
            let marked = if order.origin == TransactionOrigin::Local {
                before.insert(order.hash, status)
            } else {
                before
            };
            &&& merged(target, all) == taken(orders, slot, order, false)
            &&& winners(known, target, all) == taken_known(rest, orders, slot, order, false)
            &&& with_moved(local, known, target, all, status) == taken_local(
                marked,
                rest,
                orders,
                slot,
                order,
                false,
            )
            &&& moved_marks(known, target, all) == moved_marks(known, target, moved).union(
                order_mark(order),
            ).union(taken_marks(rest, orders, slot, order, false))
            &&& rest.contains_key(order.hash)
            &&& rest[order.hash] == known[order.hash]
            &&& orders.contains_key(slot) == target.contains_key(slot)
            &&& orders.contains_key(slot) ==> orders[slot] == target[slot]
        }),
{
    let all = moved.insert(slot, order);
    let orders = merged(target, moved);
    let rest = winners(known, target, moved);
    let before = with_moved(local, known, target, moved, status);
    let marked = if order.origin == TransactionOrigin::Local {
        before.insert(order.hash, status)
    } else {
        before
    };
    assert(merged(target, all) =~= taken(orders, slot, order, false));
    assert(winners(known, target, all) =~= taken_known(rest, orders, slot, order, false));
    assert(with_moved(local, known, target, all, status) =~= taken_local(
        marked,
        rest,
        orders,
        slot,
        order,
        false,
    ));
    assert(moved_marks(known, target, all) =~= moved_marks(known, target, moved).union(
        order_mark(order),
    ).union(taken_marks(rest, orders, slot, order, false)));
}

/// Where nothing leaves `current`, nothing changes.
pub proof fn lemma_none_retreated(v: QueueView, places: Set<Slot>, base: U256)
    requires
        consistent(v),
        places =~= Set::empty(),
    ensures
        retreated(v, places, base) == v,
        retreated_marks(v, places, base) == Set::<H256>::empty(),
{
    let w = retreated(v, places, base);
    assert(retreated_marks(v, places, base) =~= Set::<H256>::empty());
    lemma_highest(v.current.orders.dom(), v.last_nonces);
    assert(w.current.orders =~= v.current.orders);
    assert(w.future.orders =~= v.future.orders);
    assert(w.by_hash =~= v.by_hash);
    assert(w.local =~= v.local);
}

/// One more transaction goes from `current` to `future`.
pub proof fn lemma_retreat_one(v: QueueView, places: Set<Slot>, slot: Slot, base: U256)
    requires
        consistent(v),
        v.current.orders.contains_key(slot),
        !places.contains(slot),
        base@ <= slot.nonce@,
    ensures
        ({
            let before = retreated(v, places, base);
            let after = retreated(v, places.insert(slot), base);
            let order = v.current.orders[slot].with_height((slot.nonce@ - base@) as nat);
            let marked = if order.origin == TransactionOrigin::Local {
                before.local.insert(order.hash, LocalTransactionStatus::Future)
            } else {
                before.local
            };
            &&& after.future.orders == taken(before.future.orders, slot, order, false)
            &&& after.by_hash == taken_known(before.by_hash, before.future.orders, slot, order, false)
            &&& after.local == taken_local(
                marked,
                before.by_hash,
                before.future.orders,
                slot,
                order,
                false,
            )
            &&& retreated_marks(v, places.insert(slot), base) == retreated_marks(v, places, base).union(
                order_mark(order),
            ).union(taken_marks(before.by_hash, before.future.orders, slot, order, false))
            &&& before.by_hash.contains_key(order.hash)
            &&& before.by_hash[order.hash] == v.by_hash[order.hash]
            &&& before.future.orders.contains_key(slot) ==> before.future.orders[slot].hash
                != order.hash
        }),
{
    let order = v.current.orders[slot].with_height((slot.nonce@ - base@) as nat);
    let mined = below_base(v.current.orders, places, base);
    let moved = from_base(v.current.orders, places, base);
    let known = forget(v.by_hash, v.current.orders, mined);
    assert(below_base(v.current.orders, places.insert(slot), base) =~= mined);
    assert(from_base(v.current.orders, places.insert(slot), base) =~= moved.insert(slot, order));
    assert(labelled(v.future.orders, known)) by {
        assert forall|k: Slot| #[trigger] v.future.orders.contains_key(k) implies known.contains_key(
            v.future.orders[k].hash,
        ) by {
            lemma_home(v, v.future.orders[k].hash);
        }
    }
    assert(labelled(moved, known)) by {
        assert forall|k: Slot| #[trigger] moved.contains_key(k) implies known.contains_key(
            moved[k].hash,
        ) && slot_of(known[moved[k].hash]) == k by {
            assert(v.current.orders.contains_key(k));
        }
    }
    lemma_move_one(
        with_mined(v.local, v.by_hash, v.current.orders, mined),
        known,
        v.future.orders,
        moved,
        LocalTransactionStatus::Future,
        slot,
        order,
    );
    let before = retreated(v, places, base);
    assert(retreated_marks(v, places.insert(slot), base) =~= retreated_marks(v, places, base).union(
        order_mark(order),
    ).union(taken_marks(before.by_hash, before.future.orders, slot, order, false)));
}

/// One more transaction of `current` was mined.
pub proof fn lemma_mine_one(v: QueueView, places: Set<Slot>, slot: Slot, base: U256)
    requires
        consistent(v),
        v.current.orders.contains_key(slot),
        !places.contains(slot),
        slot.nonce@ < base@,
    ensures
        ({
            let before = retreated(v, places, base);
            let after = retreated(v, places.insert(slot), base);
            let order = v.current.orders[slot];
            let tx = v.by_hash[order.hash];
            &&& after.future.orders == before.future.orders
            &&& after.by_hash == before.by_hash.remove(order.hash)
            &&& after.local == if tx.origin == TransactionOrigin::Local {
                before.local.insert(
                    tx.transaction.hash,
                    LocalTransactionStatus::Mined(tx.transaction),
                )
            } else {
                before.local
            }
            &&& retreated_marks(v, places.insert(slot), base) == retreated_marks(v, places, base).union(
                own_mark(tx),
            )
            &&& before.by_hash.contains_key(order.hash)
            &&& before.by_hash[order.hash] == tx
        }),
{
    let before = retreated(v, places, base);
    let after = retreated(v, places.insert(slot), base);
    let order = v.current.orders[slot];
    let tx = v.by_hash[order.hash];
    let moved = from_base(v.current.orders, places, base);
    assert(from_base(v.current.orders, places.insert(slot), base) =~= moved);
    assert(below_base(v.current.orders, places.insert(slot), base) =~= below_base(
        v.current.orders,
        places,
        base,
    ).insert(slot));
    assert(after.by_hash =~= before.by_hash.remove(order.hash));
    assert(after.local =~= if tx.origin == TransactionOrigin::Local {
        before.local.insert(tx.transaction.hash, LocalTransactionStatus::Mined(tx.transaction))
    } else {
        before.local
    });
    let mined = below_base(v.current.orders, places, base);
    let known = forget(v.by_hash, v.current.orders, mined);
    assert forall|h: H256| moved_marks(known, v.future.orders, moved).contains(h) implies h
        != order.hash by {
        assert(v.current.orders.contains_key(slot));
    }
    assert(retreated_marks(v, places.insert(slot), base) =~= retreated_marks(v, places, base).union(
        own_mark(tx),
    ));
}

/// Where nothing goes to `current`, nothing changes.
pub proof fn lemma_none_promoted(v: QueueView, sender: Address, from: nat, base: U256)
    requires
        consistent(v),
    ensures
        promoted_upto(v, sender, from, base, from) == v,
        promoted_upto_marks(v, sender, from, base, from) == Set::<H256>::empty(),
{
    assert(promoted_upto_marks(v, sender, from, base, from) =~= Set::<H256>::empty());
    let w = promoted_upto(v, sender, from, base, from);
    lemma_highest(v.current.orders.dom(), v.last_nonces);
    assert(w.current.orders =~= v.current.orders);
    assert(w.future.orders =~= v.future.orders);
    assert(w.by_hash =~= v.by_hash);
    assert(w.local =~= v.local);
}

/// One more transaction goes from `future` to `current`.
pub proof fn lemma_promote_one(v: QueueView, sender: Address, from: nat, base: U256, end: nat)
    requires
        consistent(v),
        base@ <= from <= end < range(),
        v.future.orders.contains_key(place(sender, end)),
    ensures
        ({
            let slot = place(sender, end);
            let before = promoted_upto(v, sender, from, base, end);
            let after = promoted_upto(v, sender, from, base, end + 1);
            let order = v.future.orders[slot].with_height((end - base@) as nat);
            let marked = if order.origin == TransactionOrigin::Local {
                before.local.insert(order.hash, LocalTransactionStatus::Pending)
            } else {
                before.local
            };
            &&& after.future.orders == before.future.orders.remove(slot)
            &&& after.current.orders == taken(before.current.orders, slot, order, false)
            &&& after.by_hash == taken_known(before.by_hash, before.current.orders, slot, order, false)
            &&& after.local == taken_local(
                marked,
                before.by_hash,
                before.current.orders,
                slot,
                order,
                false,
            )
            &&& promoted_upto_marks(v, sender, from, base, end + 1) == promoted_upto_marks(
                v,
                sender,
                from,
                base,
                end,
            ).union(order_mark(order)).union(
                taken_marks(before.by_hash, before.current.orders, slot, order, false),
            )
            &&& before.by_hash.contains_key(order.hash)
            &&& before.by_hash[order.hash] == v.by_hash[order.hash]
            &&& before.current.orders.contains_key(slot) ==> before.current.orders[slot].hash
                != order.hash
        }),
{
    let slot = place(sender, end);
    lemma_u256(end);
    let before = promoted_upto(v, sender, from, base, end);
    let after = promoted_upto(v, sender, from, base, end + 1);
    let order = v.future.orders[slot].with_height((end - base@) as nat);
    let moved = lifted(v.future.orders, span(sender, from, end), base);
    assert forall|k: Slot| #[trigger]
        span(sender, from, end + 1).contains(k) <==> span(sender, from, end).contains(k) || k == slot by {
        if k.sender == sender && k.nonce@ == end {
            lemma_u256_injective(k.nonce, slot.nonce);
        }
    }
    assert(lifted(v.future.orders, span(sender, from, end + 1), base) =~= moved.insert(slot, order));
    assert(after.future.orders =~= before.future.orders.remove(slot));
    lemma_move_one(
        v.local,
        v.by_hash,
        v.current.orders,
        moved,
        LocalTransactionStatus::Pending,
        slot,
        order,
    );
}

/// An order that was taken out can be put back with another origin, height or number of penalties.
pub proof fn lemma_readmitted(
    orders: Map<Slot, TransactionOrder>,
    slot: Slot,
    order: TransactionOrder,
)
    requires
        separate(orders),
        one_strategy(orders),
        orders.contains_key(slot),
        order.strategy == orders[slot].strategy,
        order.gas_price == orders[slot].gas_price,
        order.hash == orders[slot].hash,
    ensures
        accepts(orders.remove(slot), slot, order),
        !tied(orders.remove(slot), order),
{
    let rest = orders.remove(slot);
    assert forall|k: Slot| #[trigger] rest.contains_key(k) implies orders.contains_key(k) by {}
    if tied(rest, order) {
        let k = choose|k: Slot| #[trigger] rest.contains_key(k) && order.ties(rest[k]);
        lemma_ties_share_hash(order, rest[k]);
        assert(orders.contains_key(k));
    }
}

pub proof fn lemma_without(v: QueueView, hash: H256)
    requires
        consistent(v),
        v.by_hash.contains_key(hash),
    ensures
        consistent(struck(v, hash)),
{
    let w = struck(v, hash);
    lemma_highest_exists(w.current.orders.dom());
    lemma_home(v, hash);
    assert forall|k: Slot| #[trigger] w.current.orders.contains_key(k) implies {
        &&& v.current.orders.contains_key(k)
        &&& w.by_hash.contains_key(w.current.orders[k].hash)
    } by {
        assert(v.current.orders.contains_key(k));
    }
    assert forall|k: Slot| #[trigger] w.future.orders.contains_key(k) implies {
        &&& v.future.orders.contains_key(k)
        &&& w.by_hash.contains_key(w.future.orders[k].hash)
    } by {
        assert(v.future.orders.contains_key(k));
    }
    assert forall|h: H256| #[trigger] w.by_hash.contains_key(h) implies held(
        w.by_hash,
        w.current.orders,
        h,
    ) || held(w.by_hash, w.future.orders, h) by {
        assert(v.by_hash.contains_key(h));
    }
}

/// Limits drop external transactions only, so nothing is marked where they are enforced.
pub proof fn lemma_limits_mark_nothing(v: QueueView)
    requires
        consistent(v),
    ensures
        dropped_marks(v.by_hash, v.current.orders, excess(v.current)) == Set::<H256>::empty(),
        dropped_marks(v.by_hash, v.future.orders, excess(v.future)) == Set::<H256>::empty(),
{
    assert forall|h: H256|
        !#[trigger] dropped_marks(v.by_hash, v.current.orders, excess(v.current)).contains(h) by {
        let k = slot_of(v.by_hash[h]);
        assert(v.current.orders.contains_key(k) ==> fits(
            v.current.orders[k],
            v.by_hash[v.current.orders[k].hash],
            v.strategy,
        ));
    }
    assert forall|h: H256|
        !#[trigger] dropped_marks(v.by_hash, v.future.orders, excess(v.future)).contains(h) by {
        let k = slot_of(v.by_hash[h]);
        assert(v.future.orders.contains_key(k) ==> fits(
            v.future.orders[k],
            v.by_hash[v.future.orders[k].hash],
            v.strategy,
        ));
    }
    assert(dropped_marks(v.by_hash, v.current.orders, excess(v.current)) =~= Set::empty());
    assert(dropped_marks(v.by_hash, v.future.orders, excess(v.future)) =~= Set::empty());
}

} // verus!
