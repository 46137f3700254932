//! What the limits of a set keep and drop, counted out.
use crate::order::{lemma_priority_is_an_order, TransactionOrder};
use crate::order_laws::lemma_ties;
use crate::order_set::sorted;
use crate::queue_laws::{lemma_comes_forward, lemma_nothing_left_above};
use crate::queue_model::indexed;
use crate::transaction::{TransactionOrigin, VerifiedTransaction};
use crate::transaction_set::{
    entry_limit, exceeds, excess, gas_upto, is_lowest_price, is_ranking, labelled, lemma_ranking,
    lemma_ranking_len,
    lists, one_strategy, ranking, separate, slot_of, SetView,
};
use crate::uint::H256;
use crate::vec_map::Slot;
use vstd::prelude::*;
use vstd::set_lib::{lemma_len_subset, lemma_map_size_bound};

verus! {

/// The gas of all of the orders.
pub open spec fn total_gas(s: Seq<TransactionOrder>) -> nat
    decreases s.len(),
{
    if s.len() == 0 {
        0
    } else {
        s[0].gas@ + total_gas(s.drop_first())
    }
}

proof fn lemma_total_gas_last(s: Seq<TransactionOrder>)
    requires
        s.len() > 0,
    ensures
        total_gas(s) == total_gas(s.drop_last()) + s.last().gas@,
    decreases s.len(),
{
    if s.len() > 1 {
        lemma_total_gas_last(s.drop_first());
        assert(s.drop_first().drop_last() =~= s.drop_last().drop_first());
    } else {
        assert(s.drop_first() =~= Seq::empty());
        assert(s.drop_last() =~= Seq::empty());
    }
}

/// The gas up to a rank is the gas of all the orders before it.
pub proof fn lemma_total_gas(s: Seq<TransactionOrder>, n: nat)
    requires
        n <= s.len(),
    ensures
        gas_upto(s, n) == total_gas(s.take(n as int)),
    decreases n,
{
    if n > 0 {
        lemma_total_gas(s, (n - 1) as nat);
        let t = s.take(n as int);
        lemma_total_gas_last(t);
        assert(t.drop_last() =~= s.take(n - 1));
    }
}

proof fn lemma_total_gas_bound(s: Seq<TransactionOrder>, most: nat)
    requires
        forall|i: int| 0 <= i < s.len() ==> (#[trigger] s[i]).gas@ <= most,
    ensures
        total_gas(s) <= s.len() * most,
    decreases s.len(),
{
    if s.len() > 0 {
        let rest = s.drop_first();
        assert forall|i: int| 0 <= i < rest.len() implies (#[trigger] rest[i]).gas@ <= most by {
            assert(rest[i] == s[i + 1]);
        }
        lemma_total_gas_bound(rest, most);
        assert(s.len() * most == rest.len() * most + most) by (nonlinear_arith)
            requires
                s.len() == rest.len() + 1,
        ;
        assert(s[0].gas@ <= most);
    }
}

/// Where an order that ties with none comes in, what was sorted can be sorted again.
proof fn lemma_sorted_with(s: Seq<TransactionOrder>, order: TransactionOrder, n: nat) -> (r: Seq<
    TransactionOrder,
>)
    requires
        n <= s.len(),
        sorted(s),
        forall|i: int| 0 <= i < s.len() ==> (#[trigger] s[i]).strategy == order.strategy,
        forall|i: int| 0 <= i < s.len() ==> !order.ties(#[trigger] s[i]),
        forall|i: int| n <= i < s.len() ==> order.precedes(#[trigger] s[i]),
    ensures
        sorted(r),
        forall|x: TransactionOrder| #[trigger] r.contains(x) <==> s.contains(x) || x == order,
    decreases n,
{
    if n > 0 && order.precedes(s[n - 1]) {
        lemma_sorted_with(s, order, (n - 1) as nat)
    } else {
        let r = s.insert(n as int, order);
        if n > 0 {
            lemma_priority_is_an_order(order, s[n - 1], order);
            assert(s[n - 1].precedes(order));
        }
        assert forall|i: int, j: int| 0 <= i < j < r.len() implies (#[trigger] r[i]).precedes(
            #[trigger] r[j],
        ) by {
            if i < n && j == n {
                if i < n - 1 {
                    assert(s[i].precedes(s[n - 1]));
                    lemma_priority_is_an_order(s[i], s[n - 1], order);
                }
            } else if i == n {
                assert(r[j] == s[j - 1]);
            } else {
                let (a, b) = (if i < n { i } else { i - 1 }, if j < n { j } else { j - 1 });
                assert(r[i] == s[a] && r[j] == s[b]);
            }
        }
        assert forall|x: TransactionOrder| #[trigger] r.contains(x) <==> s.contains(x) || x == order by {
            if s.contains(x) {
                let i = s.index_of(x);
                assert(r[if i < n { i } else { i + 1 }] == x);
            }
            if x == order {
                assert(r[n as int] == x);
            }
            if r.contains(x) && x != order {
                let i = r.index_of(x);
                assert(s[if i < n { i } else { i - 1 }] == x);
            }
        }
        r
    }
}

/// Orders that do not tie have a ranking.
proof fn lemma_ranking_exists(orders: Map<Slot, TransactionOrder>)
    requires
        orders.dom().finite(),
        one_strategy(orders),
        separate(orders),
    ensures
        is_ranking(ranking(orders), orders),
    decreases orders.dom().len(),
{
    if orders.dom().is_empty() {
        let s = Seq::<TransactionOrder>::empty();
        assert(is_ranking(s, orders)) by {
            assert forall|k: Slot| #[trigger] orders.contains_key(k) implies s.contains(orders[k]) by {
                assert(orders.dom().contains(k));
            }
        }
    } else {
        let k = orders.dom().choose();
        let rest = orders.remove(k);
        assert(orders.dom().contains(k));
        assert(rest.dom() =~= orders.dom().remove(k));
        assert(one_strategy(rest) && separate(rest)) by {
            assert forall|j: Slot| #[trigger] rest.contains_key(j) implies orders.contains_key(j) && rest[j]
                == orders[j] by {}
        }
        lemma_ranking_exists(rest);
        let s = ranking(rest);
        assert forall|i: int| 0 <= i < s.len() implies (#[trigger] s[i]).strategy == orders[k].strategy
            && !orders[k].ties(s[i]) by {
            assert(rest.contains_value(s[i]));
            let j = choose|j: Slot| #[trigger] rest.contains_key(j) && rest[j] == s[i];
            assert(orders.contains_key(j) && orders.contains_key(k));
            lemma_ties(orders[k], s[i]);
        }
        let t = lemma_sorted_with(s, orders[k], s.len());
        assert(is_ranking(t, orders)) by {
            assert forall|i: int| 0 <= i < t.len() implies orders.contains_value(#[trigger] t[i]) by {
                assert(t.contains(t[i]));
                if t[i] != orders[k] {
                    assert(s.contains(t[i]));
                    assert(rest.contains_value(s[s.index_of(t[i])]));
                    let j = choose|j: Slot| #[trigger] rest.contains_key(j) && rest[j] == t[i];
                    assert(orders.contains_key(j) && orders[j] == t[i]);
                }
            }
            assert forall|j: Slot| #[trigger] orders.contains_key(j) implies t.contains(orders[j]) by {
                if j != k {
                    assert(rest.contains_key(j));
                    assert(s.contains(rest[j]));
                }
            }
        }
    }
}

/// The orders of known transactions are no more than these, and have a ranking with as many ranks.
pub proof fn lemma_ranked(
    orders: Map<Slot, TransactionOrder>,
    by_hash: Map<H256, VerifiedTransaction>,
    strategy: crate::order::PrioritizationStrategy,
)
    requires
        indexed(orders, by_hash, strategy),
        by_hash.dom().finite(),
    ensures
        orders.dom().finite(),
        orders.dom().len() <= by_hash.dom().len(),
        one_strategy(orders),
        separate(orders),
        is_ranking(ranking(orders), orders),
        ranking(orders).len() == orders.dom().len(),
{
    assert(labelled(orders, by_hash));
    let place_of = |h: H256| slot_of(by_hash[h]);
    let places = by_hash.dom().map(place_of);
    lemma_map_size_bound(by_hash.dom(), places, place_of);
    assert(orders.dom().subset_of(places)) by {
        assert forall|k: Slot| orders.dom().contains(k) implies places.contains(k) by {
            assert(orders.contains_key(k));
            assert(by_hash.dom().contains(orders[k].hash) && place_of(orders[k].hash) == k);
        }
    }
    vstd::set_lib::lemma_set_subset_finite(places, orders.dom());
    lemma_len_subset(orders.dom(), places);
    assert(one_strategy(orders)) by {
        assert forall|j: Slot, k: Slot| #[trigger]
            orders.contains_key(j) && #[trigger] orders.contains_key(k) implies orders[j].strategy
            == orders[k].strategy by {}
    }
    assert(separate(orders)) by {
        assert forall|j: Slot, k: Slot| #[trigger]
            orders.contains_key(j) && #[trigger] orders.contains_key(k) && j
                != k implies orders[j].gas_price != orders[k].gas_price || orders[j].hash
            != orders[k].hash by {}
    }
    lemma_ranking_exists(orders);
    lemma_ranking_len(ranking(orders), orders);
}

/// Whether the order of rank `i` is above a limit: it is external, and either as many orders as may stay
/// go before it, or the gas of those that go before it together with its own is above the limit on gas.
pub open spec fn over_limit(set: SetView, i: int) -> bool {
    let s = ranking(set.orders);
    s[i].origin == TransactionOrigin::External && (i >= set.limit || total_gas(s.take(i + 1))
        > set.gas_limit@)
}

/// What is dropped is what is above a limit, and nothing else.
pub proof fn lemma_dropped_is_over_limit(set: SetView, i: int, k: Slot)
    requires
        is_ranking(ranking(set.orders), set.orders),
        0 <= i < ranking(set.orders).len(),
        set.orders.contains_key(k),
        set.orders[k] == ranking(set.orders)[i],
    ensures
        excess(set).contains(k) <==> over_limit(set, i),
{
    let s = ranking(set.orders);
    lemma_total_gas(s, (i + 1) as nat);
    assert(exceeds(s, i, set.limit, set.gas_limit) <==> over_limit(set, i));
    if excess(set).contains(k) {
        let j = choose|j: int|
            0 <= j < s.len() && #[trigger] s[j] == set.orders[k] && exceeds(
                s,
                j,
                set.limit,
                set.gas_limit,
            );
        lemma_priority_is_an_order(s[i], s[i], s[i]);
        assert(i == j);
    }
}

/// Whether a set keeps to its limits: each external order has a rank below the limit on their number, and
/// the gas up to and with it is at most the limit on gas.
pub open spec fn keeps_to_limits(set: SetView) -> bool {
    let s = ranking(set.orders);
    forall|i: int|
        0 <= i < s.len() && (#[trigger] s[i]).origin == TransactionOrigin::External ==> i < set.limit
            && total_gas(s.take(i + 1)) <= set.gas_limit@
}

/// Once the limits of a set are enforced, it keeps to them.
pub proof fn lemma_keeps_to_limits(set: SetView)
    requires
        is_ranking(ranking(set.orders), set.orders),
        one_strategy(set.orders),
    ensures
        keeps_to_limits(SetView { orders: set.orders.remove_keys(excess(set)), ..set }),
{
    let once = SetView { orders: set.orders.remove_keys(excess(set)), ..set };
    lemma_nothing_left_above(set);
    let s = ranking(once.orders);
    assert forall|i: int|
        0 <= i < s.len() && (#[trigger] s[i]).origin == TransactionOrigin::External implies i < set.limit
        && total_gas(s.take(i + 1)) <= set.gas_limit@ by {
        assert(once.orders.contains_value(s[i]));
        let k = choose|k: Slot| #[trigger] once.orders.contains_key(k) && once.orders[k] == s[i];
        lemma_dropped_is_over_limit(once, i, k);
        assert(!excess(once).contains(k));
    }
}

/// Whether a set has room for `n` orders of at most `most` gas each.
pub open spec fn has_room(set: SetView, n: nat, most: nat) -> bool {
    n <= set.limit && n * most <= set.gas_limit@
}

/// Nothing is dropped from a set that has room for what it holds.
pub proof fn lemma_room_drops_nothing(set: SetView, n: nat, most: nat)
    requires
        is_ranking(ranking(set.orders), set.orders),
        ranking(set.orders).len() <= n,
        has_room(set, n, most),
        forall|k: Slot| #[trigger] set.orders.contains_key(k) ==> set.orders[k].gas@ <= most,
    ensures
        excess(set) == Set::<Slot>::empty(),
{
    let s = ranking(set.orders);
    assert forall|k: Slot| !#[trigger] excess(set).contains(k) by {
        if excess(set).contains(k) {
            assert(s.contains(set.orders[k]));
            let i = s.index_of(set.orders[k]);
            lemma_dropped_is_over_limit(set, i, k);
            let t = s.take(i + 1);
            assert forall|j: int| 0 <= j < t.len() implies (#[trigger] t[j]).gas@ <= most by {
                assert(set.orders.contains_value(s[j]));
                let l = choose|l: Slot| #[trigger] set.orders.contains_key(l) && set.orders[l] == s[j];
            }
            lemma_total_gas_bound(t, most);
            assert(t.len() * most <= n * most) by (nonlinear_arith)
                requires
                    t.len() <= n,
            ;
        }
    }
    assert(excess(set) =~= Set::empty());
}

/// Whether a set is at its limit and not empty, and a price is not above the lowest one in it.
pub open spec fn undercut(set: SetView, price: nat) -> bool {
    &&& set.orders.dom().len() >= set.limit
    &&& set.orders.dom().len() > 0
    &&& forall|k: Slot| #[trigger] set.orders.contains_key(k) ==> price <= set.orders[k].gas_price@
}

proof fn lemma_lowest_price(orders: Map<Slot, TransactionOrder>, k: Slot)
    requires
        orders.contains_key(k),
    ensures
        exists|p: nat| #[trigger] is_lowest_price(orders, p),
    decreases orders[k].gas_price@,
{
    if exists|j: Slot| #[trigger]
        orders.contains_key(j) && orders[j].gas_price@ < orders[k].gas_price@ {
        let j = choose|j: Slot| #[trigger]
            orders.contains_key(j) && orders[j].gas_price@ < orders[k].gas_price@;
        lemma_lowest_price(orders, j);
    } else {
        assert(is_lowest_price(orders, orders[k].gas_price@));
    }
}

/// The price that a set asks for is above a given one where that is not above the lowest price of a full
/// set, and only there. Where a set is at its limit, it asks for one more than the lowest price in it.
pub proof fn lemma_price_asked(set: SetView, price: nat, k: Slot)
    requires
        set.orders.dom().finite(),
    ensures
        price < entry_limit(set) <==> undercut(set, price),
        set.orders.dom().len() >= set.limit && set.orders.contains_key(k) && (forall|j: Slot| #[trigger]
            set.orders.contains_key(j) ==> set.orders[k].gas_price@ <= set.orders[j].gas_price@)
            ==> entry_limit(set) == set.orders[k].gas_price@ + 1,
        set.orders.dom().len() < set.limit ==> entry_limit(set) == 0,
        set.orders.dom().len() == 0 ==> entry_limit(set) == 0,
{
    let orders = set.orders;
    if orders.dom().len() > 0 {
        let j = orders.dom().choose();
        assert(orders.dom().contains(j)) by {
            if forall|x: Slot| !orders.dom().contains(x) {
                assert(orders.dom() =~= Set::empty());
            }
        }
        lemma_lowest_price(orders, j);
        let p = choose|p: nat| is_lowest_price(orders, p);
        assert(is_lowest_price(orders, p));
    } else {
        if orders.contains_key(k) {
            assert(orders.dom().contains(k));
            assert(orders.dom().remove(k).len() + 1 == orders.dom().len());
        }
    }
}

/// A set that keeps to its limits still does where some of its orders leave.
pub proof fn lemma_fewer_keep_to_limits(set: SetView, gone: Set<Slot>)
    requires
        is_ranking(ranking(set.orders), set.orders),
        one_strategy(set.orders),
        separate(set.orders),
        keeps_to_limits(set),
    ensures
        keeps_to_limits(SetView { orders: set.orders.remove_keys(gone), ..set }),
{
    broadcast use {Seq::lemma_filter_contains, Seq::lemma_filter_contains_rev, Seq::lemma_filter_pred};

    let orders = set.orders;
    let rest = orders.remove_keys(gone);
    let s = ranking(orders);
    let pred = |order: TransactionOrder| rest.contains_value(order);
    let t = s.filter(pred);
    lemma_comes_forward(s, pred, s.len());
    assert(s.take(s.len() as int) =~= s);
    assert(lists(t, rest)) by {
        assert forall|i: int| 0 <= i < t.len() implies rest.contains_value(#[trigger] t[i]) by {
            assert(pred(t[i]));
        }
        assert forall|k: Slot| #[trigger] rest.contains_key(k) implies t.contains(rest[k]) by {
            assert(orders.contains_key(k));
            assert(s.contains(orders[k]));
            let i = s.index_of(orders[k]);
            assert(rest.contains_key(k) && rest[k] == s[i]);
            assert(pred(s[i]));
            assert(t.contains(s[i]));
        }
    }
    assert(one_strategy(rest)) by {
        assert forall|j: Slot, k: Slot| #[trigger]
            rest.contains_key(j) && #[trigger] rest.contains_key(k) implies rest[j].strategy
            == rest[k].strategy by {
            assert(orders.contains_key(j) && orders.contains_key(k));
        }
    }
    lemma_ranking(t, rest);
    assert forall|j: int|
        0 <= j < t.len() && (#[trigger] t[j]).origin == TransactionOrigin::External implies j < set.limit
        && total_gas(t.take(j + 1)) <= set.gas_limit@ by {
        let i = choose|i: int|
            j <= i < s.len() && #[trigger] t[j] == #[trigger] s[i] && gas_upto(t, (j + 1) as nat)
                <= gas_upto(s, (i + 1) as nat);
        assert(s[i].origin == TransactionOrigin::External);
        lemma_total_gas(s, (i + 1) as nat);
        lemma_total_gas(t, (j + 1) as nat);
    }
}

} // verus!
