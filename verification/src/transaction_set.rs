//! One half of the queue: transactions by sender and nonce, by priority and by gas price.
use crate::gas_price_queue::GasPriceQueue;
use crate::local_transactions::{
    lemma_mark_one, lemma_unmarked, remarked, statuses, LocalTransactionStatus, LocalTransactionsList,
};
use crate::order::{lemma_priority_is_an_order, PrioritizationStrategy, TransactionOrder};
use crate::order_set::{
    has_tie, lemma_sorted_distinct, lemma_sorted_unique, sorted, uniform, OrderSet,
};
use crate::transaction::{TransactionOrigin, VerifiedTransaction};
use crate::uint::{lemma_u256_injective, range, Address, H256, U256};
use crate::vec_map::{Slot, VecMap};
use vstd::prelude::*;

verus! {

/// What a [`TransactionSet`] holds, and its limits.
#[verifier::ext_equal]
pub struct SetView {
    /// The order of the transaction at each place that has one.
    pub orders: Map<Slot, TransactionOrder>,
    /// The number of transactions above which external ones are dropped.
    pub limit: usize,
    /// The amount of gas above which external transactions are dropped.
    pub gas_limit: U256,
}

/// Whether all orders have the same strategy.
pub open spec fn one_strategy(orders: Map<Slot, TransactionOrder>) -> bool {
    forall|j: Slot, k: Slot| #[trigger]
        orders.contains_key(j) && #[trigger] orders.contains_key(k) ==> orders[j].strategy
            == orders[k].strategy
}

/// Whether orders at different places differ in gas price or hash.
pub open spec fn separate(orders: Map<Slot, TransactionOrder>) -> bool {
    forall|j: Slot, k: Slot| #[trigger]
        orders.contains_key(j) && #[trigger] orders.contains_key(k) && j != k ==> orders[j].gas_price
            != orders[k].gas_price || orders[j].hash != orders[k].hash
}

/// Whether an order ties with `order`.
pub open spec fn tied(orders: Map<Slot, TransactionOrder>, order: TransactionOrder) -> bool {
    exists|k: Slot| #[trigger] orders.contains_key(k) && order.ties(orders[k])
}

/// Whether `order` can be put at `slot`: it has the strategy of the others and, unless it ties with one
/// of them, no order elsewhere has both its gas price and its hash.
pub open spec fn accepts(
    orders: Map<Slot, TransactionOrder>,
    slot: Slot,
    order: TransactionOrder,
) -> bool {
    &&& forall|k: Slot| #[trigger] orders.contains_key(k) ==> orders[k].strategy == order.strategy
    &&& tied(orders, order) || forall|k: Slot| #[trigger]
        orders.contains_key(k) && k != slot ==> orders[k].gas_price != order.gas_price
            || orders[k].hash != order.hash
}

/// Whether `s` contains the orders and nothing else.
pub open spec fn lists(s: Seq<TransactionOrder>, orders: Map<Slot, TransactionOrder>) -> bool {
    &&& forall|i: int| 0 <= i < s.len() ==> orders.contains_value(#[trigger] s[i])
    &&& forall|k: Slot| #[trigger] orders.contains_key(k) ==> s.contains(orders[k])
}

/// Whether some order has the given price and hash.
pub open spec fn priced(orders: Map<Slot, TransactionOrder>, price: U256, hash: H256) -> bool {
    exists|k: Slot| #[trigger]
        orders.contains_key(k) && orders[k].gas_price == price && orders[k].hash == hash
}

/// Whether `s` lists the orders by falling priority.
pub open spec fn is_ranking(s: Seq<TransactionOrder>, orders: Map<Slot, TransactionOrder>) -> bool {
    sorted(s) && lists(s, orders)
}

/// The orders by falling priority.
pub open spec fn ranking(orders: Map<Slot, TransactionOrder>) -> Seq<TransactionOrder> {
    choose|s: Seq<TransactionOrder>| is_ranking(s, orders)
}

/// There is one ranking.
pub proof fn lemma_ranking(s: Seq<TransactionOrder>, orders: Map<Slot, TransactionOrder>)
    requires
        is_ranking(s, orders),
        one_strategy(orders),
    ensures
        s == ranking(orders),
{
    let r = ranking(orders);
    assert(is_ranking(r, orders));
    if s.len() > 0 {
        let strategy = s[0].strategy;
        lemma_ranking_uniform(s, orders, strategy);
        assert(orders.contains_value(s[0]));
        let k = choose|k: Slot| #[trigger] orders.contains_key(k) && orders[k] == s[0];
        assert(r.contains(orders[k]));
        lemma_ranking_uniform(r, orders, strategy);
        lemma_same_contents(s, r, orders);
        lemma_sorted_unique(s, r, strategy);
    } else {
        if r.len() > 0 {
            assert(orders.contains_value(r[0]));
            let k = choose|k: Slot| #[trigger] orders.contains_key(k) && orders[k] == r[0];
            assert(s.contains(orders[k]));
        }
        assert(s =~= r);
    }
}

proof fn lemma_same_contents(
    s: Seq<TransactionOrder>,
    r: Seq<TransactionOrder>,
    orders: Map<Slot, TransactionOrder>,
)
    requires
        lists(s, orders),
        lists(r, orders),
    ensures
        forall|x: TransactionOrder| #[trigger] s.contains(x) <==> r.contains(x),
{
    assert forall|x: TransactionOrder| #[trigger] s.contains(x) <==> r.contains(x) by {
        if s.contains(x) {
            let i = s.index_of(x);
            assert(orders.contains_value(s[i]));
            let k = choose|k: Slot| #[trigger] orders.contains_key(k) && orders[k] == x;
            assert(r.contains(orders[k]));
        }
        if r.contains(x) {
            let i = r.index_of(x);
            assert(orders.contains_value(r[i]));
            let k = choose|k: Slot| #[trigger] orders.contains_key(k) && orders[k] == x;
            assert(s.contains(orders[k]));
        }
    }
}

/// A ranking has the strategy of the orders.
pub proof fn lemma_ranking_uniform(
    s: Seq<TransactionOrder>,
    orders: Map<Slot, TransactionOrder>,
    strategy: PrioritizationStrategy,
)
    requires
        lists(s, orders),
        one_strategy(orders),
        exists|k: Slot| #[trigger] orders.contains_key(k) && orders[k].strategy == strategy,
    ensures
        uniform(s, strategy),
{
    let j = choose|k: Slot| #[trigger] orders.contains_key(k) && orders[k].strategy == strategy;
    assert forall|i: int| 0 <= i < s.len() implies (#[trigger] s[i]).strategy == strategy by {
        assert(orders.contains_value(s[i]));
        let k = choose|k: Slot| #[trigger] orders.contains_key(k) && orders[k] == s[i];
        assert(orders.contains_key(j));
    }
}

/// A ranking has one order for each place.
pub proof fn lemma_ranking_len(s: Seq<TransactionOrder>, orders: Map<Slot, TransactionOrder>)
    requires
        is_ranking(s, orders),
        separate(orders),
        orders.dom().finite(),
    ensures
        s.len() == orders.dom().len(),
{
    lemma_sorted_distinct(s);
    s.unique_seq_to_set();
    assert(s.to_set() =~= orders.values()) by {
        assert forall|x: TransactionOrder| s.to_set().contains(x) <==> orders.values().contains(x) by {
            if s.contains(x) {
                let i = s.index_of(x);
                assert(orders.contains_value(s[i]));
            }
            if orders.values().contains(x) {
                let k = choose|k: Slot| #[trigger] orders.dom().contains(k) && orders[k] == x;
                assert(orders.contains_key(k));
            }
        }
    }
    assert(orders.is_injective()) by {
        assert forall|j: Slot, k: Slot|
            j != k && orders.dom().contains(j) && orders.dom().contains(k) implies #[trigger] orders[j]
            != #[trigger] orders[k] by {
            assert(orders.contains_key(j) && orders.contains_key(k));
        }
    }
    orders.lemma_injective_values_len();
}

/// The gas of the first `n` orders.
pub open spec fn gas_upto(s: Seq<TransactionOrder>, n: nat) -> nat
    decreases n,
{
    if n == 0 {
        0
    } else {
        gas_upto(s, (n - 1) as nat) + s[n - 1].gas@
    }
}

/// Whether the order of rank `i` is above a limit. Own and retracted transactions never are.
pub open spec fn exceeds(
    s: Seq<TransactionOrder>,
    i: int,
    limit: usize,
    gas_limit: U256,
) -> bool {
    &&& s[i].origin == TransactionOrigin::External
    &&& gas_upto(s, (i + 1) as nat) > gas_limit@ || i + 1 > limit
}

/// Whether one of the first `n` orders is `order` and is above a limit.
pub open spec fn exceeds_upto(
    s: Seq<TransactionOrder>,
    n: int,
    order: TransactionOrder,
    limit: usize,
    gas_limit: U256,
) -> bool {
    exists|i: int| 0 <= i < n && #[trigger] s[i] == order && exceeds(s, i, limit, gas_limit)
}

/// The places whose transactions are above a limit.
pub open spec fn excess(set: SetView) -> Set<Slot> {
    let s = ranking(set.orders);
    Set::new(
        |k: Slot|
            set.orders.contains_key(k) && exceeds_upto(
                s,
                s.len() as int,
                set.orders[k],
                set.limit,
                set.gas_limit,
            ),
    )
}

/// The place of a verified transaction.
pub open spec fn slot_of(tx: VerifiedTransaction) -> Slot {
    Slot { sender: tx.transaction.signer.unwrap(), nonce: tx.transaction.nonce }
}

/// Whether each order belongs to a known transaction, which has the place of the order.
pub open spec fn labelled(
    orders: Map<Slot, TransactionOrder>,
    by_hash: Map<H256, VerifiedTransaction>,
) -> bool {
    forall|k: Slot| #[trigger]
        orders.contains_key(k) ==> {
            &&& by_hash.contains_key(orders[k].hash)
            &&& by_hash[orders[k].hash].transaction.hash == orders[k].hash
            &&& by_hash[orders[k].hash].transaction.signer is Some
            &&& slot_of(by_hash[orders[k].hash]) == k
        }
}

/// Whether the transaction `hash` has its order in `orders`, at one of the given places.
pub open spec fn at(
    by_hash: Map<H256, VerifiedTransaction>,
    orders: Map<Slot, TransactionOrder>,
    places: Set<Slot>,
    hash: H256,
) -> bool {
    let k = slot_of(by_hash[hash]);
    by_hash.contains_key(hash) && places.contains(k) && orders.contains_key(k) && orders[k].hash
        == hash
}

/// The known transactions without those that have their order at one of the given places.
pub open spec fn forget(
    by_hash: Map<H256, VerifiedTransaction>,
    orders: Map<Slot, TransactionOrder>,
    places: Set<Slot>,
) -> Map<H256, VerifiedTransaction> {
    Map::new(
        |h: H256| by_hash.contains_key(h) && !at(by_hash, orders, places, h),
        |h: H256| by_hash[h],
    )
}

/// The statuses once the local transactions at the given places were dropped.
pub open spec fn with_dropped(
    local: Map<H256, LocalTransactionStatus>,
    by_hash: Map<H256, VerifiedTransaction>,
    orders: Map<Slot, TransactionOrder>,
    places: Set<Slot>,
) -> Map<H256, LocalTransactionStatus> {
    let dropped = |h: H256|
        at(by_hash, orders, places, h) && by_hash[h].origin == TransactionOrigin::Local;
    Map::new(
        |h: H256| local.contains_key(h) || dropped(h),
        |h: H256|
            if dropped(h) {
                LocalTransactionStatus::Dropped(by_hash[h].transaction)
            } else {
                local[h]
            },
    )
}

/// The local transactions at the given places.
pub open spec fn dropped_marks(
    by_hash: Map<H256, VerifiedTransaction>,
    orders: Map<Slot, TransactionOrder>,
    places: Set<Slot>,
) -> Set<H256> {
    Set::new(
        |h: H256| at(by_hash, orders, places, h) && by_hash[h].origin == TransactionOrigin::Local,
    )
}

/// Whether `m` gives each sender that has a place in `places` the lowest nonce that it has there.
pub open spec fn is_lowest(places: Set<Slot>, m: Map<Address, U256>) -> bool {
    &&& forall|k: Slot| #[trigger]
        places.contains(k) ==> m.contains_key(k.sender) && m[k.sender]@ <= k.nonce@
    &&& forall|a: Address| #[trigger]
        m.contains_key(a) ==> places.contains(Slot { sender: a, nonce: m[a] })
}

/// The lowest nonce of each sender that has a place in `places`.
pub open spec fn lowest(places: Set<Slot>) -> Map<Address, U256> {
    choose|m: Map<Address, U256>| is_lowest(places, m)
}

/// There is one map of lowest nonces.
pub proof fn lemma_lowest(places: Set<Slot>, m: Map<Address, U256>)
    requires
        is_lowest(places, m),
    ensures
        m == lowest(places),
{
    let l = lowest(places);
    assert(is_lowest(places, l));
    assert forall|a: Address| m.contains_key(a) <==> l.contains_key(a) by {
        if m.contains_key(a) {
            assert(places.contains(Slot { sender: a, nonce: m[a] }));
        }
        if l.contains_key(a) {
            assert(places.contains(Slot { sender: a, nonce: l[a] }));
        }
    }
    assert forall|a: Address| m.contains_key(a) implies m[a] == l[a] by {
        assert(places.contains(Slot { sender: a, nonce: m[a] }));
        assert(places.contains(Slot { sender: a, nonce: l[a] }));
        lemma_u256_injective(m[a], l[a]);
    }
    assert(m =~= l);
}

/// Where a sender has places, it has a lowest one.
proof fn lemma_least(places: Set<Slot>, k: Slot) -> (r: Slot)
    requires
        places.contains(k),
    ensures
        places.contains(r),
        r.sender == k.sender,
        forall|j: Slot| #[trigger] places.contains(j) && j.sender == k.sender ==> r.nonce@ <= j.nonce@,
    decreases k.nonce@,
{
    if exists|j: Slot| #[trigger] places.contains(j) && j.sender == k.sender && j.nonce@ < k.nonce@ {
        let j = choose|j: Slot| #[trigger]
            places.contains(j) && j.sender == k.sender && j.nonce@ < k.nonce@;
        lemma_least(places, j)
    } else {
        k
    }
}

/// There is a map of lowest nonces.
pub proof fn lemma_lowest_exists(places: Set<Slot>)
    ensures
        is_lowest(places, lowest(places)),
{
    let is_least = |a: Address, n: U256|
        places.contains(Slot { sender: a, nonce: n }) && forall|j: Slot| #[trigger]
            places.contains(j) && j.sender == a ==> n@ <= j.nonce@;
    let m = Map::new(
        |a: Address| exists|n: U256| #[trigger] is_least(a, n),
        |a: Address| choose|n: U256| #[trigger] is_least(a, n),
    );
    assert forall|k: Slot| #[trigger] places.contains(k) implies m.contains_key(k.sender)
        && m[k.sender]@ <= k.nonce@ by {
        let r = lemma_least(places, k);
        assert(r == Slot { sender: k.sender, nonce: r.nonce });
        assert(is_least(k.sender, r.nonce));
    }
    assert(is_lowest(places, m));
}

/// Whether `m` gives `sender` the highest nonce that it has in `places`, and nothing if it has none.
pub open spec fn is_highest_of(places: Set<Slot>, m: Map<Address, U256>, sender: Address) -> bool {
    &&& forall|k: Slot| #[trigger]
        places.contains(k) && k.sender == sender ==> m.contains_key(sender) && k.nonce@ <= m[sender]@
    &&& m.contains_key(sender) ==> places.contains(Slot { sender, nonce: m[sender] })
}

/// Whether `m` gives each sender that has a place in `places` the highest nonce that it has there.
pub open spec fn is_highest(places: Set<Slot>, m: Map<Address, U256>) -> bool {
    forall|a: Address| #[trigger] is_highest_of(places, m, a)
}

/// The highest nonce of each sender that has a place in `places`.
pub open spec fn highest(places: Set<Slot>) -> Map<Address, U256> {
    choose|m: Map<Address, U256>| is_highest(places, m)
}

/// There is one map of highest nonces.
pub proof fn lemma_highest(places: Set<Slot>, m: Map<Address, U256>)
    requires
        is_highest(places, m),
    ensures
        m == highest(places),
{
    let l = highest(places);
    assert(is_highest(places, l));
    assert forall|a: Address| m.contains_key(a) <==> l.contains_key(a) by {
        assert(is_highest_of(places, m, a));
        assert(is_highest_of(places, l, a));
    }
    assert forall|a: Address| m.contains_key(a) implies m[a] == l[a] by {
        assert(is_highest_of(places, m, a));
        assert(is_highest_of(places, l, a));
        lemma_u256_injective(m[a], l[a]);
    }
    assert(m =~= l);
}

/// Where a sender has places, it has a highest one.
proof fn lemma_greatest(places: Set<Slot>, k: Slot) -> (r: Slot)
    requires
        places.contains(k),
    ensures
        places.contains(r),
        r.sender == k.sender,
        forall|j: Slot| #[trigger] places.contains(j) && j.sender == k.sender ==> j.nonce@ <= r.nonce@,
    decreases range() - k.nonce@,
{
    if exists|j: Slot| #[trigger] places.contains(j) && j.sender == k.sender && j.nonce@ > k.nonce@ {
        let j = choose|j: Slot| #[trigger]
            places.contains(j) && j.sender == k.sender && j.nonce@ > k.nonce@;
        lemma_greatest(places, j)
    } else {
        k
    }
}

/// There is a map of highest nonces.
pub proof fn lemma_highest_exists(places: Set<Slot>)
    ensures
        is_highest(places, highest(places)),
{
    let is_greatest = |a: Address, n: U256|
        places.contains(Slot { sender: a, nonce: n }) && forall|j: Slot| #[trigger]
            places.contains(j) && j.sender == a ==> j.nonce@ <= n@;
    let m = Map::new(
        |a: Address| exists|n: U256| #[trigger] is_greatest(a, n),
        |a: Address| choose|n: U256| #[trigger] is_greatest(a, n),
    );
    assert forall|a: Address| #[trigger] is_highest_of(places, m, a) by {
        assert forall|k: Slot| #[trigger] places.contains(k) && k.sender == a implies m.contains_key(a)
            && k.nonce@ <= m[a]@ by {
            let r = lemma_greatest(places, k);
            assert(r == Slot { sender: a, nonce: r.nonce });
            assert(is_greatest(a, r.nonce));
        }
    }
    assert(is_highest(places, m));
}

/// Whether `p` is the lowest gas price of the orders.
pub open spec fn is_lowest_price(orders: Map<Slot, TransactionOrder>, p: nat) -> bool {
    &&& exists|k: Slot| #[trigger] orders.contains_key(k) && orders[k].gas_price@ == p
    &&& forall|k: Slot| #[trigger] orders.contains_key(k) ==> p <= orders[k].gas_price@
}

/// One more than the lowest gas price of a set that is at its limit and not empty, otherwise 0.
pub open spec fn entry_limit(set: SetView) -> nat {
    if set.orders.dom().len() >= set.limit && set.orders.dom().len() > 0 {
        (choose|p: nat| is_lowest_price(set.orders, p)) + 1
    } else {
        0
    }
}

/// `TransactionSet` keeps number of entries below limit, but it doesn't
/// automatically happen during `insert/remove` operations.
/// You have to call `enforce_limit` to remove lowest priority transactions from set.
pub struct TransactionSet {
    pub by_priority: OrderSet,
    pub by_address: VecMap<Slot, TransactionOrder>,
    pub by_gas_price: GasPriceQueue,
    pub limit: usize,
    pub gas_limit: U256,
}

impl View for TransactionSet {
    type V = SetView;

    open spec fn view(&self) -> SetView {
        SetView { orders: self.by_address@, limit: self.limit, gas_limit: self.gas_limit }
    }
}

impl TransactionSet {
    /// The three indices hold the same orders.
    pub open spec fn wf(&self) -> bool {
        &&& self.by_address.wf()
        &&& self.by_gas_price.wf()
        &&& one_strategy(self.by_address@)
        &&& separate(self.by_address@)
        &&& is_ranking(self.by_priority@, self.by_address@)
        &&& forall|p: U256, h: H256| #[trigger]
            self.by_gas_price@.contains((p, h)) <==> priced(self.by_address@, p, h)
    }

    /// An empty set with the given limits.
    pub fn new(limit: usize, gas_limit: U256) -> (r: TransactionSet)
        ensures
            r.wf(),
            r@ == (SetView { orders: Map::empty(), limit, gas_limit }),
    {
        TransactionSet {
            by_priority: OrderSet::new(),
            by_address: VecMap::new(),
            by_gas_price: GasPriceQueue::new(),
            limit,
            gas_limit,
        }
    }

    /// Inserts `TransactionOrder` to this set. Transaction does not need to be unique -
    /// the same transaction may be validly inserted twice. Any previous transaction that
    /// it replaces (i.e. with the same `sender` and `nonce`) should be returned.
    pub fn insert(&mut self, sender: Address, nonce: U256, order: TransactionOrder) -> (r: Option<
        TransactionOrder,
    >)
        requires
            old(self).wf(),
            accepts(old(self)@.orders, Slot { sender, nonce }, order),
        ensures
            final(self).wf(),
            tied(old(self)@.orders, order) ==> r == Some(order) && final(self)@ == old(self)@,
            !tied(old(self)@.orders, order) ==> {
                &&& r == old(self)@.orders.get(Slot { sender, nonce })
                &&& final(self)@ == (SetView {
                    orders: old(self)@.orders.insert(Slot { sender, nonce }, order),
                    ..old(self)@
                })
            },
    {
        let ghost before = self.by_address@;
        let ghost ranks = self.by_priority@;
        let ghost prices = self.by_gas_price@;
        proof {
            assert forall|i: int| 0 <= i < ranks.len() implies (#[trigger] ranks[i]).strategy
                == order.strategy by {
                assert(before.contains_value(ranks[i]));
            }
            assert(has_tie(ranks, order) <==> tied(before, order)) by {
                if has_tie(ranks, order) {
                    let i = choose|i: int| 0 <= i < ranks.len() && order.ties(#[trigger] ranks[i]);
                    assert(before.contains_value(ranks[i]));
                    let k = choose|k: Slot| #[trigger] before.contains_key(k) && before[k] == ranks[i];
                    assert(before.contains_key(k) && order.ties(before[k]));
                }
                if tied(before, order) {
                    let k = choose|k: Slot| #[trigger] before.contains_key(k) && order.ties(before[k]);
                    let i = ranks.index_of(before[k]);
                    assert(order.ties(ranks[i]));
                }
            }
        }
        if !self.by_priority.insert(order) {
            return Some(order);
        }
        let slot = Slot { sender, nonce };
        let replaced = self.by_address.insert(slot, order);
        // If transaction was replaced remove it from priority queue
        let ghost between = self.by_priority@;
        if let Some(old_order) = replaced {
            assert(ranks.contains(before[slot]));
            assert(between.contains(old_order));
            self.by_priority.remove(&old_order);
            self.by_gas_price.remove(&old_order.gas_price, &old_order.hash);
        }
        self.by_gas_price.insert(order.gas_price, order.hash);
        proof {
            let after = self.by_address@;
            assert forall|x: TransactionOrder| #[trigger]
                self.by_priority@.contains(x) <==> after.contains_value(x) by {
                if after.contains_value(x) {
                    let k = choose|k: Slot| #[trigger] after.contains_key(k) && after[k] == x;
                    if k != slot {
                        assert(before.contains_key(k));
                        assert(ranks.contains(before[k]));
                        assert(between.contains(x));
                        if before.contains_key(slot) {
                            assert(x != before[slot]);
                        }
                    } else {
                        assert(between.contains(order));
                        if before.contains_key(slot) {
                            lemma_priority_is_an_order(order, order, order);
                            assert(order != before[slot]);
                        }
                    }
                }
                if self.by_priority@.contains(x) {
                    assert(between.contains(x));
                    if x == order {
                        assert(after.contains_key(slot));
                    } else {
                        assert(ranks.contains(x));
                        let i = ranks.index_of(x);
                        assert(before.contains_value(ranks[i]));
                        let k = choose|k: Slot| #[trigger] before.contains_key(k) && before[k] == x;
                        assert(k != slot);
                        assert(after.contains_key(k) && after[k] == x);
                    }
                }
            }
            assert(lists(self.by_priority@, after)) by {
                assert forall|i: int| 0 <= i < self.by_priority@.len() implies after.contains_value(
                    #[trigger] self.by_priority@[i],
                ) by {
                    assert(self.by_priority@.contains(self.by_priority@[i]));
                }
                assert forall|k: Slot| #[trigger] after.contains_key(k) implies self.by_priority@.contains(
                    after[k],
                ) by {
                    assert(after.contains_value(after[k]));
                }
            }
            assert forall|p: U256, h: H256| #[trigger]
                self.by_gas_price@.contains((p, h)) <==> priced(after, p, h) by {
                if priced(after, p, h) {
                    let k = choose|k: Slot| #[trigger]
                        after.contains_key(k) && after[k].gas_price == p && after[k].hash == h;
                    if k != slot {
                        assert(before.contains_key(k));
                        assert(prices.contains((p, h)));
                        if before.contains_key(slot) {
                            assert(before[k].gas_price != before[slot].gas_price || before[k].hash
                                != before[slot].hash);
                        }
                    }
                }
                if self.by_gas_price@.contains((p, h)) {
                    if p == order.gas_price && h == order.hash {
                        assert(after.contains_key(slot));
                    } else {
                        assert(prices.contains((p, h)));
                        assert(priced(before, p, h));
                        let k = choose|k: Slot| #[trigger]
                            before.contains_key(k) && before[k].gas_price == p && before[k].hash == h;
                        assert(k != slot);
                        assert(after.contains_key(k));
                    }
                }
            }
            assert(one_strategy(after)) by {
                assert forall|j: Slot, k: Slot| #[trigger]
                    after.contains_key(j) && #[trigger] after.contains_key(k) implies after[j].strategy
                    == after[k].strategy by {
                    assert(j != slot ==> before.contains_key(j));
                    assert(k != slot ==> before.contains_key(k));
                }
            }
            assert(separate(after)) by {
                assert forall|j: Slot, k: Slot| #[trigger]
                    after.contains_key(j) && #[trigger] after.contains_key(k) && j
                        != k implies after[j].gas_price != after[k].gas_price || after[j].hash
                    != after[k].hash by {
                    assert(j != slot ==> before.contains_key(j));
                    assert(k != slot ==> before.contains_key(k));
                }
            }
        }
        replaced
    }

    /// Drop transaction from this set (remove from `by_priority` and `by_address`)
    pub fn drop(&mut self, sender: &Address, nonce: &U256) -> (r: Option<TransactionOrder>)
        requires
            old(self).wf(),
        ensures
            final(self).wf(),
            r == old(self)@.orders.get(Slot { sender: *sender, nonce: *nonce }),
            final(self)@ == (SetView {
                orders: old(self)@.orders.remove(Slot { sender: *sender, nonce: *nonce }),
                ..old(self)@
            }),
    {
        let ghost before = self.by_address@;
        let ghost ranks = self.by_priority@;
        let ghost prices = self.by_gas_price@;
        let slot = Slot { sender: *sender, nonce: *nonce };
        let taken = self.by_address.remove(&slot);
        if let Some(order) = taken {
            proof {
                assert forall|i: int| 0 <= i < ranks.len() implies (#[trigger] ranks[i]).strategy
                    == order.strategy by {
                    assert(before.contains_value(ranks[i]));
                }
                assert(ranks.contains(before[slot]));
            }
            self.by_gas_price.remove(&order.gas_price, &order.hash);
            self.by_priority.remove(&order);
            proof {
                let after = self.by_address@;
                assert(lists(self.by_priority@, after)) by {
                    assert forall|i: int| 0 <= i < self.by_priority@.len() implies after.contains_value(
                        #[trigger] self.by_priority@[i],
                    ) by {
                        let x = self.by_priority@[i];
                        assert(self.by_priority@.contains(x));
                        assert(ranks.contains(x));
                        assert(before.contains_value(ranks[ranks.index_of(x)]));
                        let k = choose|k: Slot| #[trigger] before.contains_key(k) && before[k] == x;
                        assert(after.contains_key(k) && after[k] == x);
                    }
                    assert forall|k: Slot| #[trigger] after.contains_key(
                        k,
                    ) implies self.by_priority@.contains(after[k]) by {
                        assert(before.contains_key(k) && before.contains_key(slot));
                        assert(ranks.contains(before[k]));
                    }
                }
                assert forall|p: U256, h: H256| #[trigger]
                    self.by_gas_price@.contains((p, h)) <==> priced(after, p, h) by {
                    if priced(after, p, h) {
                        let k = choose|k: Slot| #[trigger]
                            after.contains_key(k) && after[k].gas_price == p && after[k].hash == h;
                        assert(before.contains_key(k) && before.contains_key(slot));
                        assert(prices.contains((p, h)));
                    }
                    if self.by_gas_price@.contains((p, h)) {
                        assert(prices.contains((p, h)));
                        assert(priced(before, p, h));
                        let k = choose|k: Slot| #[trigger]
                            before.contains_key(k) && before[k].gas_price == p && before[k].hash == h;
                        assert(after.contains_key(k));
                    }
                }
                assert(one_strategy(after) && separate(after)) by {
                    assert forall|k: Slot| #[trigger] after.contains_key(k) implies before.contains_key(k)
                        && before[k] == after[k] by {}
                }
            }
        } else {
            assert(before.remove(slot) =~= before);
        }
        taken
    }

    /// The number of transactions.
    pub fn len(&self) -> (r: usize)
        requires
            self.wf(),
        ensures
            r == self@.orders.dom().len(),
    {
        proof {
            self.by_address.lemma_finite();
            lemma_ranking_len(self.by_priority@, self.by_address@);
        }
        self.by_priority.len()
    }

    /// Drop all transactions.
    pub fn clear(&mut self)
        ensures
            final(self).wf(),
            final(self)@ == (SetView { orders: Map::empty(), ..old(self)@ }),
    {
        self.by_priority.clear();
        self.by_address.clear();
        self.by_gas_price.clear();
    }

    /// Sets new limit for number of transactions in this `TransactionSet`.
    /// Note the limit is not applied (no transactions are removed) by calling this method.
    pub fn set_limit(&mut self, limit: usize)
        requires
            old(self).wf(),
        ensures
            final(self).wf(),
            final(self)@ == (SetView { limit, ..old(self)@ }),
    {
        self.limit = limit;
    }

    /// Get the minimum gas price that we can accept into this queue that wouldn't cause the transaction to
    /// immediately be dropped. 0 if the queue isn't at capacity; 1 plus the lowest if it is.
    pub fn gas_price_entry_limit(&self) -> (r: U256)
        requires
            self.wf(),
            entry_limit(self@) < range(),
        ensures
            r@ == entry_limit(self@),
    {
        proof {
            self.by_address.lemma_finite();
            lemma_ranking_len(self.by_priority@, self.by_address@);
        }
        match self.by_gas_price.lowest() {
            Some(p) => {
                proof {
                    let orders = self.by_address@;
                    let h = choose|h: H256| self.by_gas_price@.contains((p, h));
                    assert(priced(orders, p, h));
                    let k = choose|k: Slot| #[trigger]
                        orders.contains_key(k) && orders[k].gas_price == p && orders[k].hash == h;
                    assert forall|j: Slot| #[trigger] orders.contains_key(j) implies p@
                        <= orders[j].gas_price@ by {
                        assert(priced(orders, orders[j].gas_price, orders[j].hash));
                        assert(self.by_gas_price@.contains((orders[j].gas_price, orders[j].hash)));
                    }
                    assert(is_lowest_price(orders, p@));
                    let q = choose|q: nat| is_lowest_price(orders, q);
                    assert(is_lowest_price(orders, q));
                    assert(q == p@);
                    assert(orders.dom().contains(k));
                }
                if self.by_priority.len() >= self.limit {
                    p.plus(U256::one())
                } else {
                    U256::zero()
                }
            },
            None => {
                proof {
                    if self.by_priority@.len() > 0 {
                        let x = self.by_priority@[0];
                        assert(self.by_address@.contains_value(x));
                        let k = choose|k: Slot| #[trigger]
                            self.by_address@.contains_key(k) && self.by_address@[k] == x;
                        assert(priced(self.by_address@, x.gas_price, x.hash));
                        assert(self.by_gas_price@.contains((x.gas_price, x.hash)));
                    }
                }
                U256::zero()
            },
        }
    }

    /// The places whose transactions are above a limit, each once.
    fn out_of_limit(&self, by_hash: &VecMap<H256, VerifiedTransaction>) -> (r: Vec<Slot>)
        requires
            self.wf(),
            by_hash.wf(),
            labelled(self@.orders, by_hash@),
        ensures
            r@.no_duplicates(),
            forall|k: Slot| #[trigger] r@.contains(k) <==> excess(self@).contains(k),
    {
        let ghost orders = self.by_address@;
        let ghost ranks = self.by_priority@;
        proof {
            lemma_ranking(ranks, orders);
            lemma_sorted_distinct(ranks);
        }
        let mut r: Vec<Slot> = Vec::new();
        let mut gas: U256 = U256::zero();
        let mut overflow: bool = false;
        let mut count: usize = 0;
        while count < self.by_priority.len()
            invariant
                self.wf(),
                by_hash.wf(),
                labelled(orders, by_hash@),
                orders == self.by_address@,
                ranks == self.by_priority@,
                ranks.no_duplicates(),
                count <= ranks.len(),
                overflow == (gas_upto(ranks, count as nat) >= range()),
                !overflow ==> gas@ == gas_upto(ranks, count as nat),
                r@.no_duplicates(),
                forall|k: Slot| #[trigger]
                    r@.contains(k) <==> orders.contains_key(k) && exceeds_upto(
                        ranks,
                        count as int,
                        orders[k],
                        self.limit,
                        self.gas_limit,
                    ),
            decreases ranks.len() - count,
        {
            let order = self.by_priority.get(count);
            let ghost i = count as int;
            let ghost done = r@;
            count += 1;
            proof {
                assert(orders.contains_value(ranks[i]));
            }
            let ghost place = choose|k: Slot| #[trigger] orders.contains_key(k) && orders[k] == order;
            let (sum, out): (U256, bool) = gas.overflowing_add(order.gas);
            gas = sum;
            // Gas that leaves the range is above any limit.
            overflow = overflow || out;
            // Own and retracted transactions are allowed to go above all limits.
            if order.origin != TransactionOrigin::Local && order.origin
                != TransactionOrigin::RetractedBlock && (overflow || gas > self.gas_limit || count
                > self.limit) {
                let tx = by_hash.get(&order.hash).unwrap();
                let slot = Slot { sender: tx.sender(), nonce: tx.nonce() };
                assert(slot == place);
                r.push(slot);
                assert(exceeds(ranks, i, self.limit, self.gas_limit));
                assert(r@[done.len() as int] == place);
            }
            proof {
                let over = exceeds(ranks, i, self.limit, self.gas_limit);
                assert(r@ == if over { done.push(place) } else { done });
                assert forall|k: Slot| #[trigger]
                    r@.contains(k) <==> orders.contains_key(k) && exceeds_upto(
                        ranks,
                        count as int,
                        orders[k],
                        self.limit,
                        self.gas_limit,
                    ) by {
                    if orders.contains_key(k) && orders[k] == ranks[i] {
                        assert(orders.contains_key(place));
                        assert(k == place);
                    }
                    if r@.contains(k) && k != place {
                        assert(done[r@.index_of(k)] == k);
                        assert(done.contains(k));
                    }
                    if done.contains(k) {
                        assert(r@[done.index_of(k)] == k);
                        let j = choose|j: int|
                            0 <= j < i && #[trigger] ranks[j] == orders[k] && exceeds(
                                ranks,
                                j,
                                self.limit,
                                self.gas_limit,
                            );
                        assert(exceeds_upto(
                            ranks,
                            count as int,
                            orders[k],
                            self.limit,
                            self.gas_limit,
                        ));
                    }
                    if orders.contains_key(k) && exceeds_upto(
                        ranks,
                        count as int,
                        orders[k],
                        self.limit,
                        self.gas_limit,
                    ) {
                        let j = choose|j: int|
                            0 <= j < count && #[trigger] ranks[j] == orders[k] && exceeds(
                                ranks,
                                j,
                                self.limit,
                                self.gas_limit,
                            );
                        if j < i {
                            assert(exceeds_upto(ranks, i, orders[k], self.limit, self.gas_limit));
                            assert(done.contains(k));
                        }
                    }
                }
                assert(!done.contains(place)) by {
                    if done.contains(place) {
                        let j = choose|j: int|
                            0 <= j < i && #[trigger] ranks[j] == orders[place] && exceeds(
                                ranks,
                                j,
                                self.limit,
                                self.gas_limit,
                            );
                        assert(ranks[j] == ranks[i]);
                    }
                }
            }
        }
        r
    }

    /// Remove low priority transactions if there is more than specified by given `limit`.
    ///
    /// It drops transactions from this set but also removes associated `VerifiedTransaction`.
    /// Returns addresses and lowest nonces of transactions removed because of limit.
    pub fn enforce_limit(
        &mut self,
        by_hash: &mut VecMap<H256, VerifiedTransaction>,
        local: &mut LocalTransactionsList,
    ) -> (r: Option<VecMap<Address, U256>>)
        requires
            old(self).wf(),
            old(by_hash).wf(),
            old(local).wf(),
            labelled(old(self)@.orders, old(by_hash)@),
        ensures
            final(self).wf(),
            final(by_hash).wf(),
            final(local).wf(),
            final(self)@ == (SetView {
                orders: old(self)@.orders.remove_keys(excess(old(self)@)),
                ..old(self)@
            }),
            final(by_hash)@ == forget(old(by_hash)@, old(self)@.orders, excess(old(self)@)),
            statuses(final(local)@) == with_dropped(
                statuses(old(local)@),
                old(by_hash)@,
                old(self)@.orders,
                excess(old(self)@),
            ),
            remarked(
                old(local)@,
                final(local)@,
                dropped_marks(old(by_hash)@, old(self)@.orders, excess(old(self)@)),
            ),
            r matches Some(removed) && removed.wf() && removed@ == lowest(excess(old(self)@)),
    {
        let ghost known = by_hash@;
        let ghost orders = self@.orders;
        let ghost marks = statuses(local@);
        let to_drop: Vec<Slot> = self.out_of_limit(by_hash);
        let mut removed: VecMap<Address, U256> = VecMap::new();
        let mut i: usize = 0;
        proof {
            assert(orders.remove_keys(to_drop@.take(0).to_set()) =~= orders);
            assert(forget(known, orders, to_drop@.take(0).to_set()) =~= known);
            assert(with_dropped(marks, known, orders, to_drop@.take(0).to_set()) =~= marks);
            assert(dropped_marks(known, orders, to_drop@.take(0).to_set()) =~= Set::empty());
            lemma_unmarked(local@, local@);
        }
        while i < to_drop.len()
            invariant
                i <= to_drop@.len(),
                to_drop@.no_duplicates(),
                forall|k: Slot| #[trigger] to_drop@.contains(k) ==> orders.contains_key(k),
                labelled(orders, known),
                self.wf(),
                by_hash.wf(),
                local.wf(),
                removed.wf(),
                self@ == (SetView {
                    orders: orders.remove_keys(to_drop@.take(i as int).to_set()),
                    ..old(self)@
                }),
                by_hash@ == forget(known, orders, to_drop@.take(i as int).to_set()),
                statuses(local@) == with_dropped(
                    marks,
                    known,
                    orders,
                    to_drop@.take(i as int).to_set(),
                ),
                remarked(
                    old(local)@,
                    local@,
                    dropped_marks(known, orders, to_drop@.take(i as int).to_set()),
                ),
                is_lowest(to_drop@.take(i as int).to_set(), removed@),
            decreases to_drop@.len() - i,
        {
            let slot: Slot = to_drop[i];
            let ghost gone = to_drop@.take(i as int).to_set();
            let ghost next = to_drop@.take(i + 1).to_set();
            proof {
                assert(to_drop@.contains(slot));
                assert(!gone.contains(slot)) by {
                    if to_drop@.take(i as int).contains(slot) {
                        let j = to_drop@.take(i as int).index_of(slot);
                        assert(to_drop@[j] == slot);
                    }
                }
                assert(to_drop@.take(i + 1) =~= to_drop@.take(i as int).push(slot));
                to_drop@.take(i as int).lemma_push_to_set_commute(slot);
                assert(next =~= gone.insert(slot));
            }
            let order = self.drop(&slot.sender, &slot.nonce).unwrap();
            assert(order == orders[slot]);
            let tx = by_hash.remove(&order.hash).unwrap();
            let ghost list = local@;
            if tx.origin.is_local() {
                local.mark_dropped(tx.transaction);
                proof {
                    lemma_mark_one(
                        old(local)@,
                        list,
                        dropped_marks(known, orders, gone),
                        tx.transaction.hash,
                        LocalTransactionStatus::Dropped(tx.transaction),
                    );
                }
            }
            let min: U256 = match removed.get(&slot.sender) {
                Some(n) => if n < slot.nonce { n } else { slot.nonce },
                None => slot.nonce,
            };
            removed.insert(slot.sender, min);
            proof {
                assert(orders.remove_keys(next) =~= orders.remove_keys(gone).remove(slot));
                assert(forget(known, orders, next) =~= forget(known, orders, gone).remove(order.hash));
                assert(statuses(local@) =~= with_dropped(marks, known, orders, next));
                assert(dropped_marks(known, orders, next) =~= if tx.origin == TransactionOrigin::Local {
                    dropped_marks(known, orders, gone).insert(order.hash)
                } else {
                    dropped_marks(known, orders, gone)
                });
                assert(is_lowest(next, removed@));
            }
            i += 1;
        }
        proof {
            assert(to_drop@.take(i as int) =~= to_drop@);
            assert(to_drop@.to_set() =~= excess(old(self)@));
            lemma_lowest(to_drop@.to_set(), removed@);
        }
        Some(removed)
    }

    /// The nonces at which `sender` has a transaction, each once.
    pub fn nonces_of(&self, sender: &Address) -> (r: Vec<U256>)
        requires
            self.wf(),
        ensures
            r@.no_duplicates(),
            forall|n: U256| #[trigger]
                r@.contains(n) <==> self@.orders.contains_key(Slot { sender: *sender, nonce: n }),
    {
        let keys = self.by_address.keys();
        let mut r: Vec<U256> = Vec::new();
        let mut i: usize = 0;
        while i < keys.len()
            invariant
                i <= keys@.len(),
                keys@.no_duplicates(),
                r@.no_duplicates(),
                forall|n: U256| #[trigger]
                    r@.contains(n) <==> keys@.take(i as int).contains(Slot { sender: *sender, nonce: n }),
            decreases keys@.len() - i,
        {
            let ghost done = r@;
            let ghost seen = keys@.take(i as int);
            let key: Slot = keys[i];
            if key.sender == *sender {
                r.push(key.nonce);
            }
            proof {
                assert(keys@.take(i + 1) =~= seen.push(key));
                assert forall|n: U256| #[trigger]
                    r@.contains(n) <==> keys@.take(i + 1).contains(
                        Slot { sender: *sender, nonce: n },
                    ) by {
                    let slot = Slot { sender: *sender, nonce: n };
                    if done.contains(n) {
                        assert(r@[done.index_of(n)] == n);
                        assert(seen.push(key)[seen.index_of(slot)] == slot);
                    }
                    if slot == key {
                        assert(seen.push(key)[i as int] == slot);
                        assert(r@[done.len() as int] == n);
                    }
                    if r@.contains(n) && slot != key {
                        assert(done[r@.index_of(n)] == n);
                    }
                    if seen.push(key).contains(slot) && slot != key {
                        assert(seen[seen.push(key).index_of(slot)] == slot);
                        assert(done.contains(n));
                    }
                }
                assert(key.sender == *sender ==> !done.contains(key.nonce)) by {
                    if key.sender == *sender && done.contains(key.nonce) {
                        assert(seen.contains(key));
                        let j = seen.index_of(key);
                        assert(keys@[j] == keys@[i as int]);
                    }
                }
            }
            i += 1;
        }
        assert(keys@.take(i as int) =~= keys@);
        r
    }

    /// The highest nonce at which `sender` has a transaction.
    pub fn highest_nonce_of(&self, sender: &Address) -> (r: Option<U256>)
        requires
            self.wf(),
        ensures
            r matches Some(n) ==> self@.orders.contains_key(Slot { sender: *sender, nonce: n }),
            forall|k: Slot| #[trigger]
                self@.orders.contains_key(k) && k.sender == *sender ==> r is Some && k.nonce@
                    <= r.unwrap()@,
    {
        let nonces = self.nonces_of(sender);
        let mut r: Option<U256> = None;
        let mut i: usize = 0;
        while i < nonces.len()
            invariant
                i <= nonces@.len(),
                r is None <==> i == 0,
                r matches Some(n) ==> nonces@.contains(n) && forall|j: int|
                    0 <= j < i ==> (#[trigger] nonces@[j])@ <= n@,
            decreases nonces@.len() - i,
        {
            let n: U256 = nonces[i];
            assert(nonces@.contains(n));
            r = match r {
                Some(m) => if m < n { Some(n) } else { Some(m) },
                None => Some(n),
            };
            i += 1;
        }
        proof {
            assert forall|k: Slot| #[trigger]
                self@.orders.contains_key(k) && k.sender == *sender implies r is Some && k.nonce@
                <= r.unwrap()@ by {
                assert(k == Slot { sender: *sender, nonce: k.nonce });
                assert(nonces@.contains(k.nonce));
                assert(nonces@[nonces@.index_of(k.nonce)] == k.nonce);
            }
        }
        r
    }
}

} // verus!
