//! What holds of the transaction queue as a whole.
use crate::order::{
    lemma_low_nonce_height_first, lemma_penalties, PrioritizationStrategy, TransactionOrder,
};
use crate::order_set::sorted;
use crate::queue_lemmas::{
    lemma_aged, lemma_current_limited, lemma_entered_current, lemma_entered_future, lemma_future_limited, lemma_home, lemma_marked_local,
    lemma_none_promoted, lemma_promoted_upto, lemma_retreated,
};
use crate::queue_marks::without_old_marks;
use crate::queue_model::{
    added, aged, caught_up, consistent, current_limited, entered_current, entered_future, filled,
    found, fresh, future_limited, held, import, import_to_current, listing, marked_local, next_nonce,
    order_in, outdated, pending, penalized_for, place, places_of, promoted, resists, resorted, retreated,
    revalidated, run_end, settled, span, struck, without_invalid, without_old, without_old_of, QueueView,
};
use crate::transaction::{
    AccountDetails, Error, SignedTransaction, TransactionError, TransactionImportResult,
    TransactionOrigin, VerifiedTransaction,
};
use crate::transaction_queue::TransactionQueue;
use crate::transaction_set::{
    dropped_marks, entry_limit, exceeds, exceeds_upto, excess, forget, gas_upto, is_highest_of, is_ranking, labelled,
    lemma_lowest, lemma_lowest_exists, lemma_ranking, lemma_ranking_len, lists, lowest, one_strategy,
    ranking, slot_of, SetView, TransactionSet,
};
use crate::uint::{lemma_u256, lemma_u256_injective, range, u256, Address, H256, U256};
use crate::vec_map::Slot;
use vstd::prelude::*;
use vstd::relations::injective_on;
use vstd::set_lib::{
    lemma_int_range, lemma_len_subset, lemma_map_size, lemma_set_disjoint_lens, set_int_range,
};

verus! {

// ---------------------------------------------------------------------------------------------
// The two sets and the index
// ---------------------------------------------------------------------------------------------

/// The known transactions that have their order in `orders`.
pub open spec fn residents(
    by_hash: Map<H256, VerifiedTransaction>,
    orders: Map<Slot, TransactionOrder>,
) -> Set<H256> {
    Set::new(|h: H256| by_hash.contains_key(h) && held(by_hash, orders, h))
}

proof fn lemma_residents(
    by_hash: Map<H256, VerifiedTransaction>,
    orders: Map<Slot, TransactionOrder>,
)
    requires
        labelled(orders, by_hash),
        orders.dom().finite(),
    ensures
        residents(by_hash, orders).finite(),
        residents(by_hash, orders).len() == orders.dom().len(),
{
    let hash_at = |k: Slot| orders[k].hash;
    assert(injective_on(hash_at, orders.dom())) by {
        assert forall|j: Slot, k: Slot|
            orders.dom().contains(j) && orders.dom().contains(k) && #[trigger] hash_at(j)
                == #[trigger] hash_at(k) implies j == k by {
            assert(orders.contains_key(j) && orders.contains_key(k));
        }
    }
    assert(orders.dom().map(hash_at) =~= residents(by_hash, orders)) by {
        assert forall|h: H256| residents(by_hash, orders).contains(h) implies orders.dom().map(
            hash_at,
        ).contains(h) by {
            assert(orders.dom().contains(slot_of(by_hash[h])) && hash_at(slot_of(by_hash[h])) == h);
        }
        assert forall|h: H256| orders.dom().map(hash_at).contains(h) implies residents(
            by_hash,
            orders,
        ).contains(h) by {
            let k = choose|k: Slot| orders.dom().contains(k) && hash_at(k) == h;
            assert(orders.contains_key(k));
        }
    }
    lemma_map_size(orders.dom(), residents(by_hash, orders), hash_at);
}

/// Every known transaction is pending or waits, and none does both: the numbers add up.
pub proof fn lemma_counts(q: TransactionQueue)
    requires
        q.wf(),
    ensures
        q@.current.orders.dom().len() + q@.future.orders.dom().len() == q@.by_hash.dom().len(),
{
    let v = q@;
    q.current.by_address.lemma_finite();
    q.future.by_address.lemma_finite();
    let here = residents(v.by_hash, v.current.orders);
    let there = residents(v.by_hash, v.future.orders);
    lemma_residents(v.by_hash, v.current.orders);
    lemma_residents(v.by_hash, v.future.orders);
    assert(here.disjoint(there)) by {
        assert forall|h: H256| here.contains(h) implies !there.contains(h) by {
            lemma_home(v, h);
        }
    }
    lemma_set_disjoint_lens(here, there);
    assert(here + there =~= v.by_hash.dom()) by {
        assert forall|h: H256| v.by_hash.dom().contains(h) implies (here + there).contains(h) by {
            lemma_home(v, h);
        }
    }
}

// ---------------------------------------------------------------------------------------------
// Limits
// ---------------------------------------------------------------------------------------------

/// Own and retracted transactions go above all limits: enforcing them keeps every such transaction, in
/// both sets.
pub proof fn lemma_limits_spare_own(v: QueueView, k: Slot)
    ensures
        v.current.orders.contains_key(k) && v.current.orders[k].origin != TransactionOrigin::External
            ==> current_limited(v).current.orders.contains_key(k),
        v.future.orders.contains_key(k) && v.future.orders[k].origin != TransactionOrigin::External
            ==> future_limited(v).future.orders.contains_key(k),
{
}

/// The gas of the first orders does not fall as more are counted.
proof fn lemma_gas_upto(s: Seq<TransactionOrder>, m: nat, n: nat)
    requires
        m <= n <= s.len(),
    ensures
        gas_upto(s, m) <= gas_upto(s, n),
    decreases n,
{
    if m < n {
        lemma_gas_upto(s, m, (n - 1) as nat);
    }
}

/// The lowest priority is dropped: with an external transaction goes every external one that is ranked
/// after it.
pub proof fn lemma_lowest_priority_dropped(set: SetView, i: int, j: int)
    requires
        0 <= i <= j < ranking(set.orders).len(),
        ranking(set.orders)[j].origin == TransactionOrigin::External,
        exceeds(ranking(set.orders), i, set.limit, set.gas_limit),
    ensures
        exceeds(ranking(set.orders), j, set.limit, set.gas_limit),
{
    let s = ranking(set.orders);
    lemma_gas_upto(s, (i + 1) as nat, (j + 1) as nat);
}

/// What stays of external transactions is within both limits: each has a rank below the limit on their
/// number, and the gas up to it is not above the limit on gas.
pub proof fn lemma_within_limits(set: TransactionSet, k: Slot)
    requires
        set.wf(),
        set@.orders.contains_key(k),
        set@.orders[k].origin == TransactionOrigin::External,
        !excess(set@).contains(k),
    ensures
        ranking(set@.orders).index_of(set@.orders[k]) < set.limit,
        gas_upto(
            ranking(set@.orders),
            (ranking(set@.orders).index_of(set@.orders[k]) + 1) as nat,
        ) <= set.gas_limit@,
{
    let s = ranking(set@.orders);
    lemma_ranking(set.by_priority@, set@.orders);
    let i = s.index_of(set@.orders[k]);
    assert(s.contains(set@.orders[k]));
    assert(s[i] == set@.orders[k]);
    assert(!exceeds(s, i, set.limit, set.gas_limit));
}

/// The number of entries is kept at the limit: once it is enforced on a set of external transactions, no
/// more of them are left than the limit says.
pub proof fn lemma_limit_holds(set: TransactionSet)
    requires
        set.wf(),
        forall|k: Slot| #[trigger]
            set@.orders.contains_key(k) ==> set@.orders[k].origin == TransactionOrigin::External,
    ensures
        set@.orders.remove_keys(excess(set@)).dom().len() <= set.limit,
{
    let orders = set@.orders;
    let s = ranking(orders);
    lemma_ranking(set.by_priority@, orders);
    set.by_address.lemma_finite();
    let left = orders.remove_keys(excess(set@)).dom();
    let rank = |k: Slot| s.index_of(orders[k]);
    assert(left.subset_of(orders.dom()));
    lemma_len_subset(left, orders.dom());
    assert forall|k: Slot| left.contains(k) implies 0 <= #[trigger] rank(k) < set.limit && s[rank(k)]
        == orders[k] by {
        assert(orders.contains_key(k));
        lemma_within_limits(set, k);
        assert(s.contains(orders[k]));
    }
    assert(injective_on(rank, left)) by {
        assert forall|j: Slot, k: Slot|
            left.contains(j) && left.contains(k) && #[trigger] rank(j) == #[trigger] rank(k) implies j
            == k by {
            assert(orders.contains_key(j) && orders.contains_key(k));
        }
    }
    let ranks = left.map(rank);
    lemma_map_size(left, ranks, rank);
    lemma_int_range(0, set.limit as int);
    let below = set_int_range(0, set.limit as int);
    assert(ranks.subset_of(below)) by {
        assert forall|i: int| ranks.contains(i) implies below.contains(i) by {
            let k = choose|k: Slot| left.contains(k) && rank(k) == i;
            assert(0 <= rank(k) < set.limit);
        }
    }
    lemma_len_subset(ranks, below);
}

/// Whether an order stays where the limits of a set are enforced.
spec fn stays_within(set: SetView) -> spec_fn(TransactionOrder) -> bool {
    |order: TransactionOrder|
        !exceeds_upto(
            ranking(set.orders),
            ranking(set.orders).len() as int,
            order,
            set.limit,
            set.gas_limit,
        )
}

/// What a filter leaves of a sequence has come forward, with no more gas before it, and in the same
/// order.
pub proof fn lemma_comes_forward(
    s: Seq<TransactionOrder>,
    pred: spec_fn(TransactionOrder) -> bool,
    n: nat,
)
    requires
        n <= s.len(),
        sorted(s),
    ensures
        ({
            let t = s.take(n as int).filter(pred);
            &&& t.len() <= n
            &&& gas_upto(t, t.len()) <= gas_upto(s, n)
            &&& sorted(t)
            &&& forall|j: int|
                0 <= j < t.len() ==> exists|i: int|
                    j <= i < n && #[trigger] t[j] == #[trigger] s[i] && gas_upto(t, (j + 1) as nat)
                        <= gas_upto(s, (i + 1) as nat)
        }),
    decreases n,
{
    reveal(Seq::filter);
    let t = s.take(n as int).filter(pred);
    if n > 0 {
        let m = (n - 1) as nat;
        lemma_comes_forward(s, pred, m);
        assert(s.take(n as int).drop_last() =~= s.take(m as int));
        let u = s.take(m as int).filter(pred);
        if pred(s[m as int]) {
            assert(t == u.push(s[m as int]));
            assert forall|j: nat| j <= u.len() implies #[trigger] gas_upto(t, j) == gas_upto(u, j) by {
                lemma_gas_of_prefix(u, t, j);
            }
            assert forall|j: int| 0 <= j < t.len() implies exists|i: int|
                j <= i < n && #[trigger] t[j] == #[trigger] s[i] && gas_upto(t, (j + 1) as nat)
                    <= gas_upto(s, (i + 1) as nat) by {
                if j < u.len() {
                    assert(u[j] == t[j]);
                    let i = choose|i: int|
                        j <= i < m && #[trigger] u[j] == #[trigger] s[i] && gas_upto(u, (j + 1) as nat)
                            <= gas_upto(s, (i + 1) as nat);
                    assert(t[j] == s[i]);
                    assert(gas_upto(t, (j + 1) as nat) == gas_upto(u, (j + 1) as nat));
                } else {
                    assert(t[j] == s[m as int]);
                    assert(gas_upto(t, j as nat) == gas_upto(u, u.len()));
                    assert(gas_upto(t, (j + 1) as nat) == gas_upto(t, j as nat) + t[j].gas@);
                    assert(gas_upto(s, (m + 1) as nat) == gas_upto(s, m) + s[m as int].gas@);
                }
            }
            assert forall|i: int, j: int| 0 <= i < j < t.len() implies (#[trigger] t[i]).precedes(
                #[trigger] t[j],
            ) by {
                assert(u[i] == t[i]);
                if j < u.len() {
                    assert(u[j] == t[j]);
                } else {
                    let l = choose|l: int|
                        i <= l < m && #[trigger] u[i] == #[trigger] s[l] && gas_upto(u, (i + 1) as nat)
                            <= gas_upto(s, (l + 1) as nat);
                    assert(s[l].precedes(s[m as int]));
                }
            }
        } else {
            assert(t == u);
            assert forall|j: int| 0 <= j < t.len() implies exists|i: int|
                j <= i < n && #[trigger] t[j] == #[trigger] s[i] && gas_upto(t, (j + 1) as nat)
                    <= gas_upto(s, (i + 1) as nat) by {
                let i = choose|i: int|
                    j <= i < m && #[trigger] u[j] == #[trigger] s[i] && gas_upto(u, (j + 1) as nat)
                        <= gas_upto(s, (i + 1) as nat);
                assert(t[j] == s[i]);
            }
        }
    } else {
        assert(s.take(0) =~= Seq::empty());
    }
}

pub proof fn lemma_gas_of_prefix(s: Seq<TransactionOrder>, t: Seq<TransactionOrder>, n: nat)
    requires
        n <= s.len() <= t.len(),
        forall|i: int| 0 <= i < s.len() ==> #[trigger] t[i] == s[i],
    ensures
        gas_upto(t, n) == gas_upto(s, n),
    decreases n,
{
    if n > 0 {
        lemma_gas_of_prefix(s, t, (n - 1) as nat);
        assert(t[n - 1] == s[n - 1]);
    }
}

/// Once the limits of a set are enforced, nothing in it is above them.
pub proof fn lemma_nothing_left_above(set: SetView)
    requires
        is_ranking(ranking(set.orders), set.orders),
        one_strategy(set.orders),
    ensures
        ({
            let once = SetView { orders: set.orders.remove_keys(excess(set)), ..set };
            &&& is_ranking(ranking(once.orders), once.orders)
            &&& excess(once) == Set::<Slot>::empty()
        }),
{
    broadcast use {Seq::lemma_filter_contains, Seq::lemma_filter_contains_rev, Seq::lemma_filter_pred};

    let orders = set.orders;
    let rest = orders.remove_keys(excess(set));
    let once = SetView { orders: rest, ..set };
    let s = ranking(orders);
    let pred = stays_within(set);
    let t = s.filter(pred);
    lemma_comes_forward(s, pred, s.len());
    assert(s.take(s.len() as int) =~= s);
    assert(lists(t, rest)) by {
        assert forall|i: int| 0 <= i < t.len() implies rest.contains_value(#[trigger] t[i]) by {
            assert(t.contains(t[i]));
            assert(s.contains(t[i]));
            let l = s.index_of(t[i]);
            assert(orders.contains_value(s[l]));
            let k = choose|k: Slot| #[trigger] orders.contains_key(k) && orders[k] == t[i];
            assert(pred(t[i]));
            assert(rest.contains_key(k) && rest[k] == t[i]);
        }
        assert forall|k: Slot| #[trigger] rest.contains_key(k) implies t.contains(rest[k]) by {
            assert(orders.contains_key(k));
            assert(s.contains(orders[k]));
            let i = s.index_of(orders[k]);
            assert(pred(s[i]));
            assert(t.contains(s[i]));
        }
    }
    assert(one_strategy(rest)) by {
        assert forall|j: Slot, k: Slot| #[trigger]
            rest.contains_key(j) && #[trigger] rest.contains_key(k) implies rest[j].strategy
            == rest[k].strategy by {
            assert(orders.contains_key(j) && orders.contains_key(k));
        }
    }
    lemma_ranking(t, rest);
    assert forall|k: Slot| !#[trigger] excess(once).contains(k) by {
        if excess(once).contains(k) {
            let j = choose|j: int|
                0 <= j < t.len() && #[trigger] t[j] == rest[k] && exceeds(
                    t,
                    j,
                    set.limit,
                    set.gas_limit,
                );
            let i = choose|i: int|
                j <= i < s.len() && #[trigger] t[j] == #[trigger] s[i] && gas_upto(t, (j + 1) as nat)
                    <= gas_upto(s, (i + 1) as nat);
            assert(pred(t[j]));
            assert(s[i] == t[j]);
            assert(!exceeds(s, i, set.limit, set.gas_limit));
        }
    }
    assert(excess(once) =~= Set::empty());
}

/// Enforcing limits a second time drops nothing, forgets nothing, marks nothing and reports nothing.
pub proof fn lemma_limits_again(set: TransactionSet, by_hash: Map<H256, VerifiedTransaction>)
    requires
        set.wf(),
    ensures
        ({
            let once = SetView { orders: set@.orders.remove_keys(excess(set@)), ..set@ };
            &&& excess(once) == Set::<Slot>::empty()
            &&& once.orders.remove_keys(excess(once)) == once.orders
            &&& forget(by_hash, once.orders, excess(once)) == by_hash
            &&& dropped_marks(by_hash, once.orders, excess(once)) == Set::<H256>::empty()
            &&& lowest(excess(once)) == Map::<Address, U256>::empty()
        }),
{
    let rest = set@.orders.remove_keys(excess(set@));
    let once = SetView { orders: rest, ..set@ };
    lemma_ranking(set.by_priority@, set@.orders);
    lemma_nothing_left_above(set@);
    assert(rest.remove_keys(excess(once)) =~= rest);
    assert(forget(by_hash, rest, excess(once)) =~= by_hash);
    assert(dropped_marks(by_hash, rest, excess(once)) =~= Set::empty());
    lemma_lowest(excess(once), Map::empty());
}

// ---------------------------------------------------------------------------------------------
// Imports
// ---------------------------------------------------------------------------------------------

/// What an import that does not refuse the transaction at once has done before it is put in its place.
pub open spec fn prepared(v: QueueView, tx: VerifiedTransaction, state_nonce: U256) -> QueueView {
    let sender = slot_of(tx).sender;
    let ready = revalidated(v, sender, state_nonce);
    if tx.origin == TransactionOrigin::Local {
        marked_local(ready, sender)
    } else {
        ready
    }
}

pub proof fn lemma_revalidated(v: QueueView, sender: Address, state_nonce: U256)
    requires
        consistent(v),
    ensures
        consistent(revalidated(v, sender, state_nonce)),
        forall|h: H256| #[trigger]
            revalidated(v, sender, state_nonce).by_hash.contains_key(h) ==> v.by_hash.contains_key(h),
{
    let young = aged(v, sender, state_nonce);
    lemma_aged(v, sender, state_nonce);
    let moved = retreated(young, places_of(young.current.orders, sender), state_nonce);
    lemma_retreated(young, places_of(young.current.orders, sender), state_nonce);
    lemma_promoted_upto(
        moved,
        sender,
        state_nonce@,
        state_nonce,
        run_end(moved.future.orders, sender, state_nonce@),
    );
}

pub proof fn lemma_prepared(v: QueueView, tx: VerifiedTransaction, state_nonce: U256)
    requires
        consistent(v),
    ensures
        consistent(prepared(v, tx, state_nonce)),
        forall|h: H256| #[trigger]
            prepared(v, tx, state_nonce).by_hash.contains_key(h) ==> v.by_hash.contains_key(h),
{
    let sender = slot_of(tx).sender;
    lemma_revalidated(v, sender, state_nonce);
    lemma_marked_local(revalidated(v, sender, state_nonce), sender);
}

pub proof fn lemma_filled(v: QueueView, sender: Address, nonce: U256, base: U256)
    requires
        consistent(v),
    ensures
        consistent(filled(v, sender, nonce, base)),
        forall|h: H256| #[trigger]
            filled(v, sender, nonce, base).by_hash.contains_key(h) ==> v.by_hash.contains_key(h),
{
    let first = promoted(v, sender, nonce@, base);
    lemma_promoted_upto(v, sender, nonce@, base, run_end(v.future.orders, sender, nonce@));
    lemma_promoted_upto(
        first,
        sender,
        nonce@ + 1,
        base,
        run_end(first.future.orders, sender, nonce@ + 1),
    );
}

/// Whether the state of the queue agrees with the result of an import: a transaction that was imported is
/// known, pending or waiting as the result says, and one that is too old or too cheap to replace the one
/// at its place is not known.
pub open spec fn lands(
    after: QueueView,
    tx: VerifiedTransaction,
    r: Result<TransactionImportResult, TransactionError>,
) -> bool {
    let hash = tx.transaction.hash;
    match r {
        Ok(imported) => {
            &&& after.by_hash.contains_key(hash)
            &&& after.by_hash[hash] == tx
            &&& held(after.by_hash, after.current.orders, hash) == (imported
                == TransactionImportResult::Current)
            &&& held(after.by_hash, after.future.orders, hash) == (imported
                == TransactionImportResult::Future)
        },
        Err(TransactionError::Old) => !after.by_hash.contains_key(hash),
        Err(TransactionError::TooCheapToReplace) => !after.by_hash.contains_key(hash),
        Err(TransactionError::AlreadyImported) => after.by_hash.contains_key(hash),
        Err(_) => true,
    }
}

/// What an import says of a transaction holds of the queue that it leaves.
pub proof fn lemma_imported_is_known(v: QueueView, tx: VerifiedTransaction, state_nonce: U256)
    requires
        consistent(v),
        tx.transaction.signer is Some,
    ensures
        lands(import(v, tx, state_nonce).0, tx, import(v, tx, state_nonce).1),
{
    reveal(import);
    let Slot { sender, nonce } = slot_of(tx);
    if v.by_hash.contains_key(tx.transaction.hash) {
        return;
    }
    if nonce@ < state_nonce@ {
        return;
    }
    let ready = prepared(v, tx, state_nonce);
    lemma_prepared(v, tx, state_nonce);
    if nonce@ > next_nonce(revalidated(v, sender, state_nonce), sender, state_nonce) {
        let entered = entered_future(ready, tx, state_nonce);
        lemma_entered_future(ready, tx, state_nonce);
        lemma_future_limited(entered);
        lemma_lowest_exists(excess(entered.future));
        if import(v, tx, state_nonce).1 is Ok {
            lemma_home(future_limited(entered), tx.transaction.hash);
        }
        if ready.future.orders.contains_key(slot_of(tx)) {
            assert(ready.by_hash.contains_key(ready.future.orders[slot_of(tx)].hash));
        }
    } else {
        let filled = filled(ready, sender, nonce, state_nonce);
        lemma_filled(ready, sender, nonce, state_nonce);
        let entered = entered_current(filled, tx, state_nonce);
        lemma_lowest_exists(excess(entered.current));
        lemma_entered_current(filled, tx, state_nonce);
        lemma_current_limited(entered);
        if import(v, tx, state_nonce).1 is Ok {
            lemma_home(current_limited(entered), tx.transaction.hash);
        }
        if filled.current.orders.contains_key(slot_of(tx)) {
            assert(filled.by_hash.contains_key(filled.current.orders[slot_of(tx)].hash));
        }
    }
}

/// Whether a transaction was refused before it came to its place.
pub open spec fn refused_outright(r: Result<TransactionImportResult, Error>) -> bool {
    match r {
        Ok(_) => false,
        Err(Error::Transaction(TransactionError::TooCheapToReplace)) => false,
        Err(Error::Transaction(TransactionError::LimitReached)) => false,
        Err(_) => true,
    }
}

/// A transaction that is refused leaves the queue as it was, but for what is noted of local
/// transactions. The exceptions are one that is too cheap to replace the one at its place, and one that
/// limits drop.
pub proof fn lemma_refused_changes_nothing(
    v: QueueView,
    tx: SignedTransaction,
    origin: TransactionOrigin,
    minimal_gas: U256,
    account: AccountDetails,
)
    ensures
        ({
            let (after, r) = added(v, tx, origin, minimal_gas, account);
            refused_outright(r) ==> {
                &&& after == (QueueView { local: after.local, ..v })
                &&& origin != TransactionOrigin::Local ==> after == v
            }
        }),
{
    reveal(import);
}

/// A transaction that is already known is ignored.
pub proof fn lemma_known_is_ignored(v: QueueView, tx: VerifiedTransaction, state_nonce: U256)
    requires
        v.by_hash.contains_key(tx.transaction.hash),
    ensures
        import(v, tx, state_nonce) == (
            v,
            Err::<TransactionImportResult, TransactionError>(TransactionError::AlreadyImported),
        ),
{
    reveal(import);
}

/// While the queue is full, nothing that offers no more than its lowest price comes in from outside.
pub proof fn lemma_full_queue_refuses_cheap(
    v: QueueView,
    tx: SignedTransaction,
    origin: TransactionOrigin,
    minimal_gas: U256,
    account: AccountDetails,
)
    requires
        tx.gas_price@ < entry_limit(v.current),
        origin != TransactionOrigin::Local,
    ensures
        added(v, tx, origin, minimal_gas, account).0 == v,
        added(v, tx, origin, minimal_gas, account).1 matches Err(
            Error::Transaction(TransactionError::InsufficientGasPrice { got, .. }),
        ) && got == tx.gas_price,
{
}

/// A local transaction that was offered has a status ever after, whether it was imported or not.
pub proof fn lemma_local_has_status(
    v: QueueView,
    tx: SignedTransaction,
    minimal_gas: U256,
    account: AccountDetails,
)
    ensures
        added(v, tx, TransactionOrigin::Local, minimal_gas, account).0.local.contains_key(tx.hash),
{
}

/// What is noted of local transactions may change, but no note is lost.
pub proof fn lemma_statuses_are_kept(
    v: QueueView,
    tx: SignedTransaction,
    origin: TransactionOrigin,
    minimal_gas: U256,
    account: AccountDetails,
    hash: H256,
)
    requires
        v.local.contains_key(hash),
    ensures
        added(v, tx, origin, minimal_gas, account).0.local.contains_key(hash),
{
    reveal(import);
}

/// Removals lose no note of a local transaction either.
pub proof fn lemma_removals_keep_statuses(
    v: QueueView,
    sender: Address,
    invalid: H256,
    state_nonce: U256,
    hash: H256,
)
    requires
        v.local.contains_key(hash),
    ensures
        without_old(v, sender, state_nonce).local.contains_key(hash),
        without_invalid(v, invalid, state_nonce).local.contains_key(hash),
{
}

/// A run ends where a place is missing, and nowhere before.
pub proof fn lemma_run_end(orders: Map<Slot, TransactionOrder>, sender: Address, n: nat)
    requires
        n <= range(),
    ensures
        n <= run_end(orders, sender, n) <= range(),
        forall|k: Slot| #[trigger]
            span(sender, n, run_end(orders, sender, n)).contains(k) ==> orders.contains_key(k),
        forall|k: Slot| #[trigger]
            orders.contains_key(k) ==> !(k.sender == sender && k.nonce@ == run_end(orders, sender, n)),
    decreases range() - n,
{
    let end = run_end(orders, sender, n);
    if n < range() && orders.contains_key(place(sender, n)) {
        lemma_run_end(orders, sender, n + 1);
        lemma_u256(n);
        assert forall|k: Slot| #[trigger] span(sender, n, end).contains(k) implies orders.contains_key(
            k,
        ) by {
            if k.nonce@ == n {
                lemma_u256_injective(k.nonce, u256(n));
                assert(k == place(sender, n));
            } else {
                assert(span(sender, n + 1, end).contains(k));
            }
        }
    } else {
        assert forall|k: Slot| #[trigger] orders.contains_key(k) implies !(k.sender == sender
            && k.nonce@ == end) by {
            if k.sender == sender && k.nonce@ == n {
                lemma_u256(n);
                lemma_u256_injective(k.nonce, u256(n));
                assert(k == place(sender, n));
            }
        }
    }
}

/// A transaction that comes into `current` takes along what waited for it: neither its place nor the
/// next one is left in `future`.
pub proof fn lemma_import_fills_gap(
    v: QueueView,
    tx: VerifiedTransaction,
    state_nonce: U256,
    k: Slot,
)
    requires
        import(v, tx, state_nonce).1 == Ok::<TransactionImportResult, TransactionError>(
            TransactionImportResult::Current,
        ),
        k.sender == slot_of(tx).sender,
        k.nonce@ == tx.transaction.nonce@ || k.nonce@ == tx.transaction.nonce@ + 1,
    ensures
        !import(v, tx, state_nonce).0.future.orders.contains_key(k),
{
    reveal(import);
    let Slot { sender, nonce } = slot_of(tx);
    let ready = prepared(v, tx, state_nonce);
    let first = promoted(ready, sender, nonce@, state_nonce);
    let second = promoted(first, sender, nonce@ + 1, state_nonce);
    lemma_run_end(ready.future.orders, sender, nonce@);
    lemma_run_end(first.future.orders, sender, nonce@ + 1);
    assert(second.future.orders.contains_key(k) ==> first.future.orders.contains_key(k));
    assert(first.future.orders.contains_key(k) ==> ready.future.orders.contains_key(k));
}

/// Whether all that a sender has in `orders` is local.
pub open spec fn all_local(orders: Map<Slot, TransactionOrder>, sender: Address) -> bool {
    forall|k: Slot| #[trigger]
        orders.contains_key(k) && k.sender == sender ==> orders[k].origin == TransactionOrigin::Local
}

/// Where a sender has a local transaction imported, all that the sender has in the queue becomes local.
/// So none of it is dropped for limits, and neither is the transaction.
pub proof fn lemma_import_makes_local(v: QueueView, tx: VerifiedTransaction, state_nonce: U256)
    requires
        tx.origin == TransactionOrigin::Local,
        !v.by_hash.contains_key(tx.transaction.hash),
        tx.transaction.nonce@ >= state_nonce@,
    ensures
        all_local(import(v, tx, state_nonce).0.current.orders, slot_of(tx).sender),
        all_local(import(v, tx, state_nonce).0.future.orders, slot_of(tx).sender),
        import(v, tx, state_nonce).1 != Err::<TransactionImportResult, TransactionError>(
            TransactionError::LimitReached,
        ),
{
    reveal(import);
    let Slot { sender, nonce } = slot_of(tx);
    let ready = prepared(v, tx, state_nonce);
    assert(all_local(ready.current.orders, sender));
    assert(all_local(ready.future.orders, sender));
    if nonce@ > next_nonce(revalidated(v, sender, state_nonce), sender, state_nonce) {
        let entered = entered_future(ready, tx, state_nonce);
        assert(all_local(entered.future.orders, sender));
        lemma_lowest_exists(excess(entered.future));
        lemma_local_not_in_excess(entered.future, sender);
    } else {
        let first = promoted(ready, sender, nonce@, state_nonce);
        assert(all_local(first.current.orders, sender));
        assert(all_local(first.future.orders, sender));
        let second = promoted(first, sender, nonce@ + 1, state_nonce);
        assert(all_local(second.current.orders, sender));
        assert(all_local(second.future.orders, sender));
        let entered = entered_current(second, tx, state_nonce);
        assert(all_local(entered.current.orders, sender));
        lemma_lowest_exists(excess(entered.current));
        lemma_local_not_in_excess(entered.current, sender);
    }
}

proof fn lemma_local_not_in_excess(set: SetView, sender: Address)
    requires
        all_local(set.orders, sender),
    ensures
        forall|k: Slot| #[trigger] excess(set).contains(k) ==> k.sender != sender,
{
}

/// Whether a transaction at the place is there, and offers at least the given price.
pub open spec fn defends(orders: Map<Slot, TransactionOrder>, slot: Slot, gas_price: U256) -> bool {
    orders.contains_key(slot) && orders[slot].gas_price@ >= gas_price@
}

/// Revalidating leaves the better of what the two sets have at a place from the state nonce on.
proof fn lemma_revalidated_defends(
    v: QueueView,
    sender: Address,
    state_nonce: U256,
    slot: Slot,
    gas_price: U256,
)
    requires
        slot.sender == sender,
        slot.nonce@ >= state_nonce@,
    ensures
        ({
            let ready = revalidated(v, sender, state_nonce);
            (defends(ready.current.orders, slot, gas_price) || defends(
                ready.future.orders,
                slot,
                gas_price,
            )) == (defends(v.current.orders, slot, gas_price) || defends(
                v.future.orders,
                slot,
                gas_price,
            ))
        }),
{
    let young = aged(v, sender, state_nonce);
    assert(young.future.orders.contains_key(slot) == v.future.orders.contains_key(slot));
    let moved = retreated(young, places_of(young.current.orders, sender), state_nonce);
    lemma_run_end(moved.future.orders, sender, state_nonce@);
    assert(!moved.current.orders.contains_key(slot));
    let end = run_end(moved.future.orders, sender, state_nonce@);
    let back = promoted(moved, sender, state_nonce@, state_nonce);
    if span(sender, state_nonce@, end).contains(slot) {
        assert(moved.future.orders.contains_key(slot));
        assert(back.current.orders.contains_key(slot));
        assert(!back.future.orders.contains_key(slot));
    } else {
        assert(!back.current.orders.contains_key(slot));
    }
}

/// A transaction replaces the one with the same sender and nonce iff its gas price is higher, in
/// whichever set that one is.
pub proof fn lemma_replaces_iff_price_is_higher(
    v: QueueView,
    tx: VerifiedTransaction,
    state_nonce: U256,
)
    requires
        consistent(v),
        !v.by_hash.contains_key(tx.transaction.hash),
        tx.transaction.nonce@ >= state_nonce@,
    ensures
        import(v, tx, state_nonce).1 == Err::<TransactionImportResult, TransactionError>(
            TransactionError::TooCheapToReplace,
        ) <==> {
            ||| defends(v.current.orders, slot_of(tx), tx.transaction.gas_price)
            ||| defends(v.future.orders, slot_of(tx), tx.transaction.gas_price)
        },
{
    reveal(import);
    let slot = slot_of(tx);
    let Slot { sender, nonce } = slot;
    let ready = prepared(v, tx, state_nonce);
    lemma_prepared(v, tx, state_nonce);
    lemma_prepared_settled(v, tx, state_nonce);
    lemma_revalidated_defends(v, sender, state_nonce, slot, tx.transaction.gas_price);
    let plain = revalidated(v, sender, state_nonce);
    assert(defends(ready.current.orders, slot, tx.transaction.gas_price) == defends(
        plain.current.orders,
        slot,
        tx.transaction.gas_price,
    ));
    assert(defends(ready.future.orders, slot, tx.transaction.gas_price) == defends(
        plain.future.orders,
        slot,
        tx.transaction.gas_price,
    ));
    let end = run_end(ready.current.orders, sender, state_nonce@);
    if nonce@ <= end {
        lemma_nothing_to_promote(ready, sender, nonce@, state_nonce);
        let full = promoted(ready, sender, nonce@ + 1, state_nonce);
        assert(full.current.orders.contains_key(slot) == ready.current.orders.contains_key(slot));
    }
}

// ---------------------------------------------------------------------------------------------
// State nonces
// ---------------------------------------------------------------------------------------------

/// Whether what a sender has in the queue is settled as of a state nonce, and its run in `current` goes up
/// to `end`.
pub open spec fn settled_upto(v: QueueView, sender: Address, state_nonce: U256, end: nat) -> bool {
    &&& state_nonce@ <= end <= range()
    &&& forall|k: Slot| #[trigger]
        v.current.orders.contains_key(k) && k.sender == sender <==> span(
            sender,
            state_nonce@,
            end,
        ).contains(k)
    &&& forall|k: Slot| #[trigger]
        v.future.orders.contains_key(k) && k.sender == sender ==> k.nonce@ > end
    &&& forall|k: Slot| #[trigger]
        v.current.orders.contains_key(k) && k.sender == sender
            ==> v.current.orders[k].nonce_height@ == k.nonce@ - state_nonce@
}

pub proof fn lemma_settled_upto(v: QueueView, sender: Address, state_nonce: U256, end: nat)
    requires
        settled_upto(v, sender, state_nonce, end),
    ensures
        settled(v, sender, state_nonce),
        run_end(v.current.orders, sender, state_nonce@) == end,
{
    let found = run_end(v.current.orders, sender, state_nonce@);
    lemma_run_end(v.current.orders, sender, state_nonce@);
    if found < end {
        lemma_u256(found);
        assert(span(sender, state_nonce@, end).contains(place(sender, found)));
        assert(v.current.orders.contains_key(place(sender, found)));
    }
    if end < found {
        lemma_u256(end);
        assert(span(sender, state_nonce@, found).contains(place(sender, end)));
        assert(v.current.orders.contains_key(place(sender, end)));
        assert(span(sender, state_nonce@, end).contains(place(sender, end)));
    }
    assert forall|k: Slot| #[trigger] v.current.orders.contains_key(k) && k.sender == sender implies
        state_nonce@ <= k.nonce@ < end by {
        assert(span(sender, state_nonce@, end).contains(k));
    }
}

pub proof fn lemma_settled_run(v: QueueView, sender: Address, state_nonce: U256)
    requires
        settled(v, sender, state_nonce),
    ensures
        settled_upto(v, sender, state_nonce, run_end(v.current.orders, sender, state_nonce@)),
{
    lemma_run_end(v.current.orders, sender, state_nonce@);
}

/// Where a sender is settled, the nonce that is next is the one after the run.
pub proof fn lemma_next_nonce(v: QueueView, sender: Address, state_nonce: U256)
    requires
        consistent(v),
        settled(v, sender, state_nonce),
    ensures
        next_nonce(v, sender, state_nonce) == run_end(v.current.orders, sender, state_nonce@),
{
    let end = run_end(v.current.orders, sender, state_nonce@);
    lemma_settled_run(v, sender, state_nonce);
    assert(is_highest_of(v.current.orders.dom(), v.last_nonces, sender));
    if state_nonce@ < end {
        let k = place(sender, (end - 1) as nat);
        lemma_u256((end - 1) as nat);
        assert(span(sender, state_nonce@, end).contains(k));
        assert(v.current.orders.contains_key(k));
    }
    if v.last_nonces.contains_key(sender) {
        let k = Slot { sender, nonce: v.last_nonces[sender] };
        assert(v.current.orders.contains_key(k));
        assert(span(sender, state_nonce@, end).contains(k));
    }
}

/// Whether everything that a sender has in `future` is at or above a state nonce, with heights counted
/// from it.
pub open spec fn future_revalidated(v: QueueView, sender: Address, state_nonce: U256) -> bool {
    forall|k: Slot| #[trigger]
        v.future.orders.contains_key(k) && k.sender == sender ==> k.nonce@ >= state_nonce@
            && v.future.orders[k].nonce_height@ == k.nonce@ - state_nonce@
}

/// Whether what a sender has in the queue is sorted as of a state nonce: it is settled, and all heights
/// are counted from the state nonce.
pub open spec fn sorted_out(v: QueueView, sender: Address, state_nonce: U256) -> bool {
    settled(v, sender, state_nonce) && future_revalidated(v, sender, state_nonce)
}

/// Whether a transaction is at the place, in either set.
pub open spec fn occupied(v: QueueView, k: Slot) -> bool {
    v.current.orders.contains_key(k) || v.future.orders.contains_key(k)
}

/// Whether no transaction, and no place, is in `after` that was not in `before`.
pub open spec fn nothing_new(before: QueueView, after: QueueView) -> bool {
    &&& forall|h: H256| #[trigger]
        after.by_hash.contains_key(h) ==> before.by_hash.contains_key(h) && after.by_hash[h]
            == before.by_hash[h]
    &&& forall|k: Slot| #[trigger] occupied(after, k) ==> occupied(before, k)
}

/// In a new queue everything is settled, whatever the state nonce.
pub proof fn lemma_fresh_is_settled(
    strategy: PrioritizationStrategy,
    limit: usize,
    gas_limit: U256,
    tx_gas_limit: U256,
    sender: Address,
    state_nonce: U256,
)
    ensures
        settled(fresh(strategy, limit, gas_limit, tx_gas_limit), sender, state_nonce),
{
    let v = fresh(strategy, limit, gas_limit, tx_gas_limit);
    assert(settled_upto(v, sender, state_nonce, state_nonce@));
    lemma_settled_upto(v, sender, state_nonce, state_nonce@);
}

/// Once a sender has left `current`, all that it has is in `future`, at or above the state nonce and with
/// heights counted from it.
pub proof fn lemma_left(v: QueueView, sender: Address, state_nonce: U256)
    requires
        future_revalidated(v, sender, state_nonce),
    ensures
        ({
            let w = retreated(v, places_of(v.current.orders, sender), state_nonce);
            &&& forall|k: Slot| #[trigger] w.current.orders.contains_key(k) ==> k.sender != sender
            &&& future_revalidated(w, sender, state_nonce)
        }),
{
    let w = retreated(v, places_of(v.current.orders, sender), state_nonce);
    assert forall|k: Slot| #[trigger] w.future.orders.contains_key(k) && k.sender == sender implies
        k.nonce@ >= state_nonce@ && w.future.orders[k].nonce_height@ == k.nonce@ - state_nonce@ by {
        lemma_u256((k.nonce@ - state_nonce@) as nat);
    }
    assert forall|k: Slot| #[trigger] w.current.orders.contains_key(k) implies k.sender != sender by {
        assert(v.current.orders.contains_key(k));
    }
}

/// Where all that a sender has is in `future`, moving the run that starts at the state nonce settles it.
pub proof fn lemma_promoted_settled(v: QueueView, sender: Address, state_nonce: U256)
    requires
        forall|k: Slot| #[trigger] v.current.orders.contains_key(k) ==> k.sender != sender,
        future_revalidated(v, sender, state_nonce),
    ensures
        sorted_out(promoted(v, sender, state_nonce@, state_nonce), sender, state_nonce),
{
    let after = promoted(v, sender, state_nonce@, state_nonce);
    let end = run_end(v.future.orders, sender, state_nonce@);
    lemma_run_end(v.future.orders, sender, state_nonce@);
    assert forall|k: Slot| #[trigger] after.current.orders.contains_key(k) && k.sender == sender
        <==> span(sender, state_nonce@, end).contains(k) by {
        if span(sender, state_nonce@, end).contains(k) {
            assert(v.future.orders.contains_key(k));
        }
    }
    assert forall|k: Slot| #[trigger] after.current.orders.contains_key(k) && k.sender == sender implies
        after.current.orders[k].nonce_height@ == k.nonce@ - state_nonce@ by {
        assert(span(sender, state_nonce@, end).contains(k));
        lemma_u256((k.nonce@ - state_nonce@) as nat);
    }
    assert forall|k: Slot| #[trigger] after.future.orders.contains_key(k) && k.sender == sender implies
        k.nonce@ > end by {
        assert(v.future.orders.contains_key(k));
    }
    assert(settled_upto(after, sender, state_nonce, end));
    lemma_settled_upto(after, sender, state_nonce, end);
}

/// What is brought up to a state nonce in `future` is at or above it, with heights counted from it.
pub proof fn lemma_aged_revalidates(v: QueueView, sender: Address, state_nonce: U256)
    ensures
        future_revalidated(aged(v, sender, state_nonce), sender, state_nonce),
{
    let young = aged(v, sender, state_nonce);
    assert forall|k: Slot| #[trigger] young.future.orders.contains_key(k) && k.sender == sender implies
        k.nonce@ >= state_nonce@ && young.future.orders[k].nonce_height@ == k.nonce@ - state_nonce@ by {
        lemma_u256((k.nonce@ - state_nonce@) as nat);
    }
}

/// Revalidating sorts out all that a sender has.
pub proof fn lemma_revalidated_is_sorted_out(v: QueueView, sender: Address, state_nonce: U256)
    ensures
        sorted_out(revalidated(v, sender, state_nonce), sender, state_nonce),
        nothing_new(v, revalidated(v, sender, state_nonce)),
{
    let young = aged(v, sender, state_nonce);
    lemma_aged_revalidates(v, sender, state_nonce);
    let moved = retreated(young, places_of(young.current.orders, sender), state_nonce);
    lemma_left(young, sender, state_nonce);
    lemma_promoted_settled(moved, sender, state_nonce);
    let after = revalidated(v, sender, state_nonce);
    assert forall|k: Slot| #[trigger] occupied(after, k) implies occupied(v, k) by {
        assert(young.future.orders.contains_key(k) ==> v.future.orders.contains_key(k));
    }
}

/// Sorting a sender's transactions anew brings them in order as of the state nonce. It brings in nothing,
/// and leaves what others have in `current` alone.
pub proof fn lemma_resorted(v: QueueView, sender: Address, state_nonce: U256)
    ensures
        sorted_out(resorted(v, sender, state_nonce), sender, state_nonce),
        nothing_new(v, resorted(v, sender, state_nonce)),
        forall|k: Slot|
            k.sender != sender ==> {
                &&& #[trigger] resorted(v, sender, state_nonce).current.orders.contains_key(k)
                    == v.current.orders.contains_key(k)
                &&& v.current.orders.contains_key(k) ==> resorted(
                    v,
                    sender,
                    state_nonce,
                ).current.orders[k] == v.current.orders[k]
            },
{
    let young = aged(v, sender, state_nonce);
    let here = places_of(young.current.orders, sender);
    let moved = retreated(young, here, state_nonce);
    let limited = future_limited(moved);
    lemma_aged_revalidates(v, sender, state_nonce);
    lemma_left(young, sender, state_nonce);
    assert forall|k: Slot| #[trigger] limited.future.orders.contains_key(k) implies {
        &&& moved.future.orders.contains_key(k)
        &&& limited.future.orders[k] == moved.future.orders[k]
    } by {
    }
    lemma_promoted_settled(limited, sender, state_nonce);
}

/// Telling the queue the state nonce of a sender removes everything of that sender below it, and moves
/// what matches to `current`: nothing at it is left in `future`. It brings in nothing.
pub proof fn lemma_state_nonce_removes_old(v: QueueView, sender: Address, state_nonce: U256)
    ensures
        ({
            let after = without_old(v, sender, state_nonce);
            &&& forall|k: Slot| #[trigger]
                after.current.orders.contains_key(k) && k.sender == sender ==> k.nonce@
                    >= state_nonce@
            &&& forall|k: Slot| #[trigger]
                after.future.orders.contains_key(k) && k.sender == sender ==> k.nonce@ > state_nonce@
            &&& nothing_new(v, after)
        }),
{
    if outdated(v, sender, state_nonce) {
        lemma_resorted(v, sender, state_nonce);
        lemma_run_end(
            resorted(v, sender, state_nonce).current.orders,
            sender,
            state_nonce@,
        );
    }
}

/// Where the queue is told the state nonces of a sender as they grow, what the sender has stays settled:
/// what is pending is an unbroken run from the state nonce on, ranked by nonce.
pub proof fn lemma_state_nonce_keeps_settled(
    v: QueueView,
    sender: Address,
    earlier: U256,
    state_nonce: U256,
)
    requires
        settled(v, sender, earlier),
        earlier@ <= state_nonce@,
    ensures
        settled(without_old(v, sender, state_nonce), sender, state_nonce),
{
    if outdated(v, sender, state_nonce) {
        lemma_resorted(v, sender, state_nonce);
    } else {
        let end = run_end(v.current.orders, sender, earlier@);
        lemma_settled_run(v, sender, earlier);
        if earlier@ < state_nonce@ {
            if earlier@ < end {
                let k = Slot { sender, nonce: earlier };
                assert(span(sender, earlier@, end).contains(k));
                assert(v.current.orders.contains_key(k));
            }
            assert forall|k: Slot| #[trigger] v.current.orders.contains_key(k) && k.sender == sender
                <==> span(sender, state_nonce@, state_nonce@).contains(k) by {
                if v.current.orders.contains_key(k) && k.sender == sender {
                    assert(span(sender, earlier@, end).contains(k));
                }
            }
            assert(settled_upto(v, sender, state_nonce, state_nonce@));
            lemma_settled_upto(v, sender, state_nonce, state_nonce@);
        } else {
            lemma_u256_injective(earlier, state_nonce);
        }
    }
}

/// Telling the queue the same state nonce again changes nothing, and marks nothing.
pub proof fn lemma_state_nonce_again(v: QueueView, sender: Address, state_nonce: U256)
    ensures
        ({
            let once = without_old(v, sender, state_nonce);
            &&& without_old(once, sender, state_nonce) == once
            &&& without_old_marks(once, sender, state_nonce) == Set::<H256>::empty()
        }),
{
    lemma_state_nonce_removes_old(v, sender, state_nonce);
}

/// Telling the queue the state nonces of senders leaves nothing of any of them below its state nonce,
/// in whatever order they are told.
pub proof fn lemma_state_nonces_remove_old(v: QueueView, senders: Seq<Address>, nonces: Seq<U256>)
    requires
        senders.len() == nonces.len(),
    ensures
        ({
            let after = without_old_of(v, senders, nonces);
            &&& nothing_new(v, after)
            &&& forall|i: int, k: Slot|
                0 <= i < senders.len() && #[trigger] occupied(after, k) && k.sender
                    == #[trigger] senders[i] ==> k.nonce@ >= nonces[i]@
        }),
    decreases senders.len(),
{
    if senders.len() > 0 {
        let before = without_old_of(v, senders.drop_last(), nonces.drop_last());
        let after = without_old_of(v, senders, nonces);
        lemma_state_nonces_remove_old(v, senders.drop_last(), nonces.drop_last());
        lemma_state_nonce_removes_old(before, senders.last(), nonces.last());
        assert forall|i: int, k: Slot|
            0 <= i < senders.len() && #[trigger] occupied(after, k) && k.sender == #[trigger] senders[i]
            implies k.nonce@ >= nonces[i]@ by {
            if i < senders.len() - 1 {
                assert(occupied(before, k));
                assert(senders.drop_last()[i] == senders[i]);
                assert(nonces.drop_last()[i] == nonces[i]);
            }
        }
    }
}

/// Bringing a sender's transactions in `future` up to a state nonce drops those below it, counts heights
/// from it, and leaves nothing at it. It brings in nothing.
pub proof fn lemma_caught_up(v: QueueView, sender: Address, state_nonce: U256)
    ensures
        future_revalidated(caught_up(v, sender, state_nonce), sender, state_nonce),
        !caught_up(v, sender, state_nonce).future.orders.contains_key(
            Slot { sender, nonce: state_nonce },
        ),
        nothing_new(v, caught_up(v, sender, state_nonce)),
{
    let young = aged(v, sender, state_nonce);
    let after = caught_up(v, sender, state_nonce);
    lemma_run_end(young.future.orders, sender, state_nonce@);
    assert forall|k: Slot| #[trigger] after.future.orders.contains_key(k) && k.sender == sender implies
        k.nonce@ >= state_nonce@ && after.future.orders[k].nonce_height@ == k.nonce@ - state_nonce@ by {
        assert(young.future.orders.contains_key(k));
        lemma_u256((k.nonce@ - state_nonce@) as nat);
    }
    assert forall|k: Slot| #[trigger] occupied(after, k) implies occupied(v, k) by {
        assert(young.future.orders.contains_key(k) ==> v.future.orders.contains_key(k));
    }
}

/// Whether nothing that a sender had in `before` from the state nonce on, and no transaction at `slot`, is
/// missing in `after`.
pub open spec fn nothing_lost(
    before: QueueView,
    after: QueueView,
    slot: Slot,
    state_nonce: U256,
) -> bool {
    &&& occupied(after, slot)
    &&& forall|k: Slot| #[trigger]
        occupied(before, k) && k.sender == slot.sender && k.nonce@ >= state_nonce@ ==> occupied(
            after,
            k,
        )
}

/// Making a sender's transactions local leaves them settled.
proof fn lemma_local_settled(v: QueueView, sender: Address, state_nonce: U256)
    requires
        sorted_out(v, sender, state_nonce),
    ensures
        sorted_out(marked_local(v, sender), sender, state_nonce),
        run_end(marked_local(v, sender).current.orders, sender, state_nonce@) == run_end(
            v.current.orders,
            sender,
            state_nonce@,
        ),
{
    let after = marked_local(v, sender);
    let end = run_end(v.current.orders, sender, state_nonce@);
    lemma_settled_run(v, sender, state_nonce);
    assert forall|k: Slot| #[trigger] after.current.orders.contains_key(k) && k.sender == sender
        <==> span(sender, state_nonce@, end).contains(k) by {
        assert(after.current.orders.contains_key(k) == v.current.orders.contains_key(k));
    }
    assert forall|k: Slot| #[trigger] after.future.orders.contains_key(k) implies v.future.orders.contains_key(
        k,
    ) by {
    }
    assert forall|k: Slot| #[trigger] after.current.orders.contains_key(k) implies v.current.orders.contains_key(
        k,
    ) by {
    }
    assert(settled_upto(after, sender, state_nonce, end));
    lemma_settled_upto(after, sender, state_nonce, end);
}

pub proof fn lemma_prepared_settled(v: QueueView, tx: VerifiedTransaction, state_nonce: U256)
    requires
        consistent(v),
    ensures
        sorted_out(prepared(v, tx, state_nonce), slot_of(tx).sender, state_nonce),
        next_nonce(
            revalidated(v, slot_of(tx).sender, state_nonce),
            slot_of(tx).sender,
            state_nonce,
        ) == run_end(
            prepared(v, tx, state_nonce).current.orders,
            slot_of(tx).sender,
            state_nonce@,
        ),
        nothing_new(v, prepared(v, tx, state_nonce)),
{
    let sender = slot_of(tx).sender;
    let plain = revalidated(v, sender, state_nonce);
    lemma_revalidated_is_sorted_out(v, sender, state_nonce);
    lemma_revalidated(v, sender, state_nonce);
    lemma_next_nonce(plain, sender, state_nonce);
    lemma_local_settled(plain, sender, state_nonce);
    assert forall|k: Slot| #[trigger] occupied(prepared(v, tx, state_nonce), k) implies occupied(v, k) by {
        assert(occupied(plain, k));
    }
}

/// A run that starts at a place where `future` has nothing moves nothing.
pub proof fn lemma_nothing_to_promote(v: QueueView, sender: Address, from: nat, base: U256)
    requires
        consistent(v),
        from <= range(),
        forall|k: Slot| #[trigger]
            v.future.orders.contains_key(k) && k.sender == sender ==> k.nonce@ != from,
    ensures
        promoted(v, sender, from, base) == v,
{
    if from < range() {
        lemma_u256(from);
    }
    lemma_none_promoted(v, sender, from, base);
}

/// Limits that drop nothing of a sender leave it settled.
proof fn lemma_limited_settled(v: QueueView, sender: Address, state_nonce: U256, end: nat)
    requires
        settled_upto(v, sender, state_nonce, end),
        forall|k: Slot| #[trigger]
            span(sender, state_nonce@, end).contains(k) ==> occupied(current_limited(v), k),
    ensures
        settled_upto(current_limited(v), sender, state_nonce, end),
{
    let after = current_limited(v);
    assert forall|k: Slot| #[trigger] after.current.orders.contains_key(k) && k.sender == sender
        <==> span(sender, state_nonce@, end).contains(k) by {
        if span(sender, state_nonce@, end).contains(k) {
            assert(v.current.orders.contains_key(k));
            assert(occupied(current_limited(v), k));
        } else if after.current.orders.contains_key(k) {
            assert(v.current.orders.contains_key(k));
        }
    }
}

proof fn lemma_filled_settled(
    v: QueueView,
    tx: VerifiedTransaction,
    state_nonce: U256,
    end: nat,
)
    requires
        consistent(v),
        settled_upto(v, slot_of(tx).sender, state_nonce, end),
        state_nonce@ <= tx.transaction.nonce@ <= end,
        occupied(import_to_current(v, tx, state_nonce).0, slot_of(tx)),
        forall|k: Slot| #[trigger]
            occupied(v, k) && k.sender == slot_of(tx).sender && k.nonce@ >= state_nonce@ ==> occupied(
                import_to_current(v, tx, state_nonce).0,
                k,
            ),
    ensures
        settled(import_to_current(v, tx, state_nonce).0, slot_of(tx).sender, state_nonce),
        forall|k: Slot| #[trigger]
            import_to_current(v, tx, state_nonce).0.future.orders.contains_key(k) ==> {
                &&& v.future.orders.contains_key(k)
                &&& import_to_current(v, tx, state_nonce).0.future.orders[k] == v.future.orders[k]
            },
{
    let slot = slot_of(tx);
    let Slot { sender, nonce } = slot;
    let after = import_to_current(v, tx, state_nonce).0;
    let full = filled(v, sender, nonce, state_nonce);
    lemma_nothing_to_promote(v, sender, nonce@, state_nonce);
    assert(full == promoted(v, sender, nonce@ + 1, state_nonce));
    lemma_u256((nonce@ - state_nonce@) as nat);
    lemma_run_end(v.future.orders, sender, nonce@ + 1);
    let far = if nonce@ < end {
        end
    } else {
        run_end(v.future.orders, sender, nonce@ + 1)
    };
    if nonce@ < end {
        lemma_nothing_to_promote(v, sender, nonce@ + 1, state_nonce);
        assert(span(sender, state_nonce@, end).contains(slot));
    } else {
        assert(!span(sender, state_nonce@, end).contains(slot));
        assert(!v.current.orders.contains_key(slot));
    }
    if resists(full.current.orders, slot, order_in(v, tx, state_nonce), true) {
        assert(settled_upto(after, sender, state_nonce, end));
        lemma_settled_upto(after, sender, state_nonce, end);
    } else {
        let entered = entered_current(full, tx, state_nonce);
        assert forall|k: Slot| #[trigger] entered.current.orders.contains_key(k) && k.sender == sender
            <==> span(sender, state_nonce@, far).contains(k) by {
            assert(k == Slot { sender: k.sender, nonce: k.nonce });
            if k.sender == sender && k.nonce@ == nonce@ {
                lemma_u256_injective(k.nonce, nonce);
            }
            if span(sender, nonce@ + 1, far).contains(k) && nonce@ == end {
                assert(v.future.orders.contains_key(k));
            }
            if v.current.orders.contains_key(k) && k.sender == sender {
                assert(span(sender, state_nonce@, end).contains(k));
            }
            if span(sender, state_nonce@, end).contains(k) {
                assert(v.current.orders.contains_key(k));
            }
        }
        assert forall|k: Slot| #[trigger]
            entered.future.orders.contains_key(k) && k.sender == sender implies k.nonce@ > far by {
            assert(v.future.orders.contains_key(k));
        }
        assert forall|k: Slot| #[trigger]
            entered.current.orders.contains_key(k) && k.sender
                == sender implies entered.current.orders[k].nonce_height@ == k.nonce@ - state_nonce@ by {
            assert(span(sender, state_nonce@, far).contains(k));
            lemma_u256((k.nonce@ - state_nonce@) as nat);
        }
        assert(settled_upto(entered, sender, state_nonce, far));
        assert forall|k: Slot| #[trigger] span(sender, state_nonce@, far).contains(k) implies occupied(
            current_limited(entered),
            k,
        ) by {
            assert(entered.current.orders.contains_key(k));
            assert(occupied(v, k) || k == slot);
            assert(occupied(after, k));
        }
        lemma_limited_settled(entered, sender, state_nonce, far);
        lemma_settled_upto(after, sender, state_nonce, far);
    }
}

/// Whenever a transaction is imported, all that its sender has in the queue is revalidated, as long as
/// limits drop none of it. What is old is gone. What is pending is an unbroken run from the state nonce
/// on. What is left waits behind a gap. All heights are counted from the state nonce.
pub proof fn lemma_import_sorts_out(v: QueueView, tx: VerifiedTransaction, state_nonce: U256)
    requires
        consistent(v),
        !v.by_hash.contains_key(tx.transaction.hash),
        tx.transaction.nonce@ >= state_nonce@,
        nothing_lost(v, import(v, tx, state_nonce).0, slot_of(tx), state_nonce),
    ensures
        sorted_out(import(v, tx, state_nonce).0, slot_of(tx).sender, state_nonce),
{
    reveal(import);
    let slot = slot_of(tx);
    let Slot { sender, nonce } = slot;
    let after = import(v, tx, state_nonce).0;
    let ready = prepared(v, tx, state_nonce);
    lemma_prepared(v, tx, state_nonce);
    lemma_prepared_settled(v, tx, state_nonce);
    let end = run_end(ready.current.orders, sender, state_nonce@);
    lemma_settled_run(ready, sender, state_nonce);
    lemma_u256((nonce@ - state_nonce@) as nat);
    if nonce@ > end {
        let entered = entered_future(ready, tx, state_nonce);
        assert forall|k: Slot| #[trigger] after.future.orders.contains_key(k) implies {
            &&& entered.future.orders.contains_key(k)
            &&& after.future.orders[k] == entered.future.orders[k]
        } by {
        }
        assert(settled_upto(after, sender, state_nonce, end));
        lemma_settled_upto(after, sender, state_nonce, end);
    } else {
        assert forall|k: Slot| #[trigger]
            occupied(ready, k) && k.sender == sender && k.nonce@ >= state_nonce@ implies occupied(
            after,
            k,
        ) by {
            assert(occupied(v, k));
        }
        lemma_filled_settled(ready, tx, state_nonce, end);
    }
}

/// Whatever limits drop, an import leaves nothing of its sender below the state nonce, and counts the
/// heights of all that is left from it.
pub proof fn lemma_import_revalidates(v: QueueView, tx: VerifiedTransaction, state_nonce: U256, k: Slot)
    requires
        consistent(v),
        !v.by_hash.contains_key(tx.transaction.hash),
        tx.transaction.nonce@ >= state_nonce@,
        k.sender == slot_of(tx).sender,
    ensures
        ({
            let after = import(v, tx, state_nonce).0;
            &&& after.current.orders.contains_key(k) ==> k.nonce@ >= state_nonce@
                && after.current.orders[k].nonce_height@ == k.nonce@ - state_nonce@
            &&& after.future.orders.contains_key(k) ==> k.nonce@ >= state_nonce@
                && after.future.orders[k].nonce_height@ == k.nonce@ - state_nonce@
        }),
{
    reveal(import);
    let Slot { sender, nonce } = slot_of(tx);
    let ready = prepared(v, tx, state_nonce);
    lemma_prepared_settled(v, tx, state_nonce);
    lemma_u256((nonce@ - state_nonce@) as nat);
    if k.nonce@ >= state_nonce@ {
        lemma_u256((k.nonce@ - state_nonce@) as nat);
    }
    let end = run_end(ready.current.orders, sender, state_nonce@);
    if nonce@ <= end {
        let first = promoted(ready, sender, nonce@, state_nonce);
        let second = promoted(first, sender, nonce@ + 1, state_nonce);
        assert(first.future.orders.contains_key(k) ==> ready.future.orders.contains_key(k));
        assert(second.future.orders.contains_key(k) ==> first.future.orders.contains_key(k));
    }
}

/// Where a sender's transactions are sorted out, those with the same penalties and origin are ranked by
/// nonce.
pub proof fn lemma_sorted_by_nonce(
    v: QueueView,
    sender: Address,
    state_nonce: U256,
    j: Slot,
    k: Slot,
)
    requires
        sorted_out(v, sender, state_nonce),
        v.current.orders.contains_key(j),
        v.current.orders.contains_key(k),
        j.sender == sender,
        k.sender == sender,
        j.nonce@ < k.nonce@,
        v.current.orders[j].penalties == v.current.orders[k].penalties,
        v.current.orders[j].origin == v.current.orders[k].origin,
    ensures
        v.current.orders[j].precedes(v.current.orders[k]),
{
    lemma_low_nonce_height_first(v.current.orders[j], v.current.orders[k]);
}

// ---------------------------------------------------------------------------------------------
// Invalid transactions and penalties
// ---------------------------------------------------------------------------------------------

/// A transaction that is found invalid is no longer known. Nothing comes in. If it was pending, what is
/// left of its sender's transactions is sorted as of the state nonce: where it leaves a gap, those after
/// it wait.
pub proof fn lemma_invalid_is_removed(v: QueueView, hash: H256, state_nonce: U256)
    requires
        consistent(v),
    ensures
        !without_invalid(v, hash, state_nonce).by_hash.contains_key(hash),
        nothing_new(v, without_invalid(v, hash, state_nonce)),
        v.by_hash.contains_key(hash) && held(v.by_hash, v.current.orders, hash) ==> sorted_out(
            without_invalid(v, hash, state_nonce),
            slot_of(v.by_hash[hash]).sender,
            state_nonce,
        ),
{
    if v.by_hash.contains_key(hash) {
        let sender = slot_of(v.by_hash[hash]).sender;
        let after = without_invalid(v, hash, state_nonce);
        let rest = struck(v, hash);
        lemma_home(v, hash);
        if held(v.by_hash, v.future.orders, hash) {
            lemma_caught_up(rest, sender, state_nonce);
        } else {
            lemma_resorted(rest, sender, state_nonce);
        }
        assert forall|k: Slot| #[trigger] occupied(after, k) implies occupied(v, k) by {
            assert(occupied(rest, k));
        }
    }
}

/// Penalties move nothing in or out: every transaction stays where it is. All transactions of a sender
/// get them together, so that those of one sender keep their places towards each other.
pub proof fn lemma_penalties_keep_places(v: QueueView, hash: H256, j: Slot, k: Slot)
    requires
        v.current.orders.contains_key(j),
        v.current.orders.contains_key(k),
        j.sender == k.sender,
        v.current.orders[j].penalties < usize::MAX,
        v.current.orders[k].penalties < usize::MAX,
    ensures
        penalized_for(v, hash).by_hash == v.by_hash,
        penalized_for(v, hash).current.orders.dom() == v.current.orders.dom(),
        penalized_for(v, hash).future.orders.dom() == v.future.orders.dom(),
        penalized_for(v, hash).current.orders[j].precedes(penalized_for(v, hash).current.orders[k])
            == v.current.orders[j].precedes(v.current.orders[k]),
{
    assert(penalized_for(v, hash).current.orders.dom() =~= v.current.orders.dom());
    assert(penalized_for(v, hash).future.orders.dom() =~= v.future.orders.dom());
    lemma_penalties(v.current.orders[j], v.current.orders[k]);
}

/// Whether `after` is what penalties for one sender may make of the priorities in `before`: those of other
/// senders keep their places towards each other, and nothing of the sender gets ahead of another's.
pub open spec fn falls_back(
    before: Map<Slot, TransactionOrder>,
    after: Map<Slot, TransactionOrder>,
    sender: Address,
) -> bool {
    &&& after.dom() == before.dom()
    &&& forall|j: Slot, k: Slot| #[trigger]
        before.contains_key(j) && #[trigger] before.contains_key(k) && k.sender != sender ==> {
            &&& j.sender != sender ==> after[j].precedes(after[k]) == before[j].precedes(before[k])
            &&& after[j].precedes(after[k]) ==> before[j].precedes(before[k])
            &&& before[k].precedes(before[j]) ==> after[k].precedes(after[j])
        }
}

/// Penalties change the places of the penalized sender's transactions only, and only for the worse, in
/// both sets.
pub proof fn lemma_penalties_spare_others(v: QueueView, hash: H256)
    requires
        consistent(v),
    ensures
        falls_back(
            v.current.orders,
            penalized_for(v, hash).current.orders,
            slot_of(v.by_hash[hash]).sender,
        ),
        falls_back(
            v.future.orders,
            penalized_for(v, hash).future.orders,
            slot_of(v.by_hash[hash]).sender,
        ),
{
    let after = penalized_for(v, hash);
    assert(after.current.orders.dom() =~= v.current.orders.dom());
    assert(after.future.orders.dom() =~= v.future.orders.dom());
}

// ---------------------------------------------------------------------------------------------
// Listings
// ---------------------------------------------------------------------------------------------

/// Whether the queue shows what an import of `tx` told: what went to `current` is found and is among the
/// pending hashes, what went to `future` is found and is not among them, and what is too old or too cheap
/// to replace the one at its place is not found.
pub open spec fn shows(
    after: QueueView,
    tx: VerifiedTransaction,
    r: Result<TransactionImportResult, TransactionError>,
) -> bool {
    let hash = tx.transaction.hash;
    match r {
        Ok(imported) => {
            &&& found(after, hash) == Some(tx.transaction)
            &&& pending(after).contains(hash) == (imported == TransactionImportResult::Current)
        },
        Err(TransactionError::Old) => found(after, hash) is None,
        Err(TransactionError::TooCheapToReplace) => found(after, hash) is None,
        Err(TransactionError::AlreadyImported) => found(after, hash) is Some,
        Err(_) => true,
    }
}

/// The queue that an import leaves shows what the import told.
pub proof fn lemma_import_shows(
    v: QueueView,
    tx: VerifiedTransaction,
    state_nonce: U256,
    q: TransactionQueue,
)
    requires
        consistent(v),
        tx.transaction.signer is Some,
        q.wf(),
        q@ == import(v, tx, state_nonce).0,
    ensures
        shows(q@, tx, import(v, tx, state_nonce).1),
{
    lemma_imported_is_known(v, tx, state_nonce);
    lemma_pending_hashes(q, tx.transaction.hash);
}

/// The hashes of the pending transactions are those of the known transactions that are in `current`.
pub proof fn lemma_pending_hashes(q: TransactionQueue, h: H256)
    requires
        q.wf(),
    ensures
        pending(q@).contains(h)
            <==> q@.by_hash.contains_key(h) && held(q@.by_hash, q@.current.orders, h),
{
    let orders = q@.current.orders;
    let s = ranking(orders);
    lemma_ranking(q.current.by_priority@, orders);
    let hashes = pending(q@);
    if hashes.contains(h) {
        let i = hashes.index_of(h);
        assert(orders.contains_value(s[i]));
        let k = choose|k: Slot| #[trigger] orders.contains_key(k) && orders[k] == s[i];
        assert(orders[k].hash == h);
    }
    if q@.by_hash.contains_key(h) && held(q@.by_hash, orders, h) {
        let k = slot_of(q@.by_hash[h]);
        assert(s.contains(orders[k]));
        let i = s.index_of(orders[k]);
        assert(hashes[i] == h);
    }
}

/// The pending transactions are listed by priority: the list holds what is in `current` and nothing else,
/// each transaction once, and no transaction stands before one that is to be processed earlier.
pub proof fn lemma_listing(q: TransactionQueue)
    requires
        q.wf(),
    ensures
        listing(q@.current.orders, q@.by_hash).len() == q@.current.orders.dom().len(),
        forall|i: int, j: int|
            0 <= i < j < ranking(q@.current.orders).len() ==> (#[trigger] ranking(
                q@.current.orders,
            )[i]).precedes(#[trigger] ranking(q@.current.orders)[j]),
        forall|h: H256| #[trigger]
            q@.by_hash.contains_key(h) && held(q@.by_hash, q@.current.orders, h) ==> listing(
                q@.current.orders,
                q@.by_hash,
            ).contains(q@.by_hash[h].transaction),
        forall|i: int|
            0 <= i < listing(q@.current.orders, q@.by_hash).len() ==> {
                let tx = #[trigger] listing(q@.current.orders, q@.by_hash)[i];
                &&& q@.by_hash.contains_key(tx.hash)
                &&& q@.by_hash[tx.hash].transaction == tx
                &&& held(q@.by_hash, q@.current.orders, tx.hash)
            },
{
    let orders = q@.current.orders;
    let s = ranking(orders);
    lemma_ranking(q.current.by_priority@, orders);
    q.current.by_address.lemma_finite();
    lemma_ranking_len(s, orders);
    let list = listing(orders, q@.by_hash);
    assert forall|h: H256| #[trigger]
        q@.by_hash.contains_key(h) && held(q@.by_hash, orders, h) implies list.contains(
        q@.by_hash[h].transaction,
    ) by {
        let k = slot_of(q@.by_hash[h]);
        assert(orders.contains_key(k));
        assert(s.contains(orders[k]));
        let i = s.index_of(orders[k]);
        assert(list[i] == q@.by_hash[h].transaction);
    }
    assert forall|i: int| 0 <= i < list.len() implies {
        let tx = #[trigger] list[i];
        &&& q@.by_hash.contains_key(tx.hash)
        &&& q@.by_hash[tx.hash].transaction == tx
        &&& held(q@.by_hash, orders, tx.hash)
    } by {
        assert(orders.contains_value(s[i]));
        let k = choose|k: Slot| #[trigger] orders.contains_key(k) && orders[k] == s[i];
        assert(labelled(orders, q@.by_hash));
    }
}

} // verus!
