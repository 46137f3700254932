//! A set of transaction orders, sorted by priority.
use crate::order::{lemma_priority_is_an_order, PrioritizationStrategy, TransactionOrder};
use vstd::prelude::*;

verus! {

/// Orders by falling priority. No two of them tie.
#[derive(Debug)]
pub struct OrderSet {
    orders: Vec<TransactionOrder>,
}

/// Whether each order goes before all that follow it.
pub open spec fn sorted(s: Seq<TransactionOrder>) -> bool {
    forall|i: int, j: int| 0 <= i < j < s.len() ==> (#[trigger] s[i]).precedes(#[trigger] s[j])
}

/// Whether every order has the given strategy.
pub open spec fn uniform(s: Seq<TransactionOrder>, strategy: PrioritizationStrategy) -> bool {
    forall|i: int| 0 <= i < s.len() ==> (#[trigger] s[i]).strategy == strategy
}

/// Whether an order of `s` ties with `order`.
pub open spec fn has_tie(s: Seq<TransactionOrder>, order: TransactionOrder) -> bool {
    exists|i: int| 0 <= i < s.len() && order.ties(#[trigger] s[i])
}

/// In a sorted sequence, orders at different places do not tie.
pub proof fn lemma_sole_tie(s: Seq<TransactionOrder>, i: int, j: int)
    requires
        sorted(s),
        0 <= i < s.len(),
        0 <= j < s.len(),
        s[i].strategy == s[j].strategy,
        s[i].ties(s[j]),
    ensures
        i == j,
{
    lemma_priority_is_an_order(s[i], s[j], s[i]);
    if i < j {
        assert(s[i].precedes(s[j]));
    }
    if j < i {
        assert(s[j].precedes(s[i]));
    }
}

/// A sorted sequence is determined by what it contains.
pub proof fn lemma_sorted_unique(
    a: Seq<TransactionOrder>,
    b: Seq<TransactionOrder>,
    strategy: PrioritizationStrategy,
)
    requires
        sorted(a),
        sorted(b),
        uniform(a, strategy),
        uniform(b, strategy),
        forall|x: TransactionOrder| #[trigger] a.contains(x) <==> b.contains(x),
    ensures
        a == b,
    decreases a.len(),
{
    if a.len() == 0 {
        if b.len() > 0 {
            assert(a.contains(b[0]));
        }
        assert(a =~= b);
    } else {
        assert(a.contains(a[0]));
        let j = b.index_of(a[0]);
        assert(a.contains(b[0]));
        let i = a.index_of(b[0]);
        lemma_priority_is_an_order(a[0], b[0], a[0]);
        assert(i == 0 && j == 0);
        let (a1, b1) = (a.drop_first(), b.drop_first());
        assert forall|x: TransactionOrder| #[trigger] a1.contains(x) <==> b1.contains(x) by {
            if a1.contains(x) {
                let p = a1.index_of(x);
                assert(a[p + 1] == x);
                assert(a.contains(x));
                let q = b.index_of(x);
                lemma_priority_is_an_order(a[0], x, a[0]);
                assert(a[0].precedes(a[p + 1]));
                assert(b[q] == x);
                assert(q > 0);
                assert(b1[q - 1] == x);
            }
            if b1.contains(x) {
                let q = b1.index_of(x);
                assert(b[q + 1] == x);
                assert(b.contains(x));
                assert(a.contains(x));
                let p = a.index_of(x);
                lemma_priority_is_an_order(b[0], x, b[0]);
                assert(b[0].precedes(b[q + 1]));
                assert(a[p] == x);
                assert(p > 0);
                assert(a1[p - 1] == x);
            }
        }
        lemma_sorted_unique(a1, b1, strategy);
        assert(a =~= seq![a[0]] + a1);
        assert(b =~= seq![b[0]] + b1);
    }
}

/// In a sorted sequence no order occurs twice.
pub proof fn lemma_sorted_distinct(s: Seq<TransactionOrder>)
    requires
        sorted(s),
    ensures
        s.no_duplicates(),
{
    assert forall|i: int, j: int| 0 <= i < s.len() && 0 <= j < s.len() && i != j implies s[i] != s[j] by {
        lemma_priority_is_an_order(s[i], s[i], s[i]);
        lemma_priority_is_an_order(s[j], s[j], s[j]);
    }
}

impl View for OrderSet {
    type V = Seq<TransactionOrder>;

    closed spec fn view(&self) -> Seq<TransactionOrder> {
        self.orders@
    }
}

impl OrderSet {
    pub fn new() -> (r: OrderSet)
        ensures
            r@ == Seq::<TransactionOrder>::empty(),
    {
        OrderSet { orders: Vec::new() }
    }

    pub fn len(&self) -> (r: usize)
        ensures
            r == self@.len(),
    {
        self.orders.len()
    }

    /// The order at the given rank, from the highest priority down.
    pub fn get(&self, i: usize) -> (r: TransactionOrder)
        requires
            i < self@.len(),
        ensures
            r == self@[i as int],
    {
        self.orders[i]
    }

    /// How many orders go before `order`.
    fn rank(&self, order: &TransactionOrder) -> (r: usize)
        requires
            sorted(self@),
            uniform(self@, order.strategy),
        ensures
            r <= self@.len(),
            forall|i: int| 0 <= i < r ==> (#[trigger] self@[i]).precedes(*order),
            forall|i: int| r <= i < self@.len() ==> !(#[trigger] self@[i]).precedes(*order),
    {
        let mut lo: usize = 0;
        let mut hi: usize = self.orders.len();
        while lo < hi
            invariant
                lo <= hi <= self@.len(),
                sorted(self@),
                uniform(self@, order.strategy),
                forall|i: int| 0 <= i < lo ==> (#[trigger] self@[i]).precedes(*order),
                forall|i: int| hi <= i < self@.len() ==> !(#[trigger] self@[i]).precedes(*order),
            decreases hi - lo,
        {
            let mid: usize = lo + (hi - lo) / 2;
            let at = self.orders[mid];
            if at < *order {
                proof {
                    assert forall|i: int| 0 <= i < mid + 1 implies (#[trigger] self@[i]).precedes(
                        *order,
                    ) by {
                        lemma_priority_is_an_order(self@[i], at, *order);
                    }
                }
                lo = mid + 1;
            } else {
                proof {
                    assert forall|i: int| mid <= i < self@.len() implies !(
                    #[trigger] self@[i]).precedes(*order) by {
                        lemma_priority_is_an_order(at, self@[i], *order);
                    }
                }
                hi = mid;
            }
        }
        lo
    }

    /// Puts `order` in its place, unless it ties with an order that is there. Tells whether it was
    /// put in.
    pub fn insert(&mut self, order: TransactionOrder) -> (r: bool)
        requires
            sorted(old(self)@),
            uniform(old(self)@, order.strategy),
        ensures
            sorted(final(self)@),
            uniform(final(self)@, order.strategy),
            r == !has_tie(old(self)@, order),
            !r ==> final(self)@ == old(self)@,
            r ==> exists|p: int|
                0 <= p <= old(self)@.len() && final(self)@ == #[trigger] old(self)@.insert(p, order),
            r ==> forall|x: TransactionOrder| #[trigger]
                final(self)@.contains(x) <==> old(self)@.contains(x) || x == order,
    {
        let p: usize = self.rank(&order);
        let ghost before = self@;
        if p < self.orders.len() && order == self.orders[p] {
            return false;
        }
        proof {
            assert forall|i: int| 0 <= i < before.len() implies !order.ties(#[trigger] before[i]) by {
                lemma_priority_is_an_order(order, before[i], order);
                if p < i {
                    lemma_priority_is_an_order(order, before[p as int], before[i]);
                }
            }
            assert forall|i: int| p <= i < before.len() implies order.precedes(#[trigger] before[i]) by {
                lemma_priority_is_an_order(order, before[i], order);
            }
        }
        self.orders.insert(p, order);
        proof {
            assert(self@ =~= before.insert(p as int, order));
            assert forall|x: TransactionOrder| #[trigger]
                self@.contains(x) <==> before.contains(x) || x == order by {
                if before.contains(x) {
                    let i = before.index_of(x);
                    assert(self@[if i < p { i } else { i + 1 }] == x);
                }
                if self@.contains(x) && x != order {
                    let i = self@.index_of(x);
                    assert(before[if i < p { i } else { i - 1 }] == x);
                }
                assert(self@[p as int] == order);
            }
        }
        true
    }

    /// Takes out the order that ties with `order`. Tells whether there was one.
    pub fn remove(&mut self, order: &TransactionOrder) -> (r: bool)
        requires
            sorted(old(self)@),
            uniform(old(self)@, order.strategy),
        ensures
            sorted(final(self)@),
            uniform(final(self)@, order.strategy),
            r == has_tie(old(self)@, *order),
            !r ==> final(self)@ == old(self)@,
            r ==> exists|p: int|
                0 <= p < old(self)@.len() && order.ties(old(self)@[p]) && final(self)@
                    == #[trigger] old(self)@.remove(p),
            old(self)@.contains(*order) ==> r && forall|x: TransactionOrder| #[trigger]
                final(self)@.contains(x) <==> old(self)@.contains(x) && x != *order,
    {
        let p: usize = self.rank(order);
        let ghost before = self@;
        if p < self.orders.len() && *order == self.orders[p] {
            self.orders.remove(p);
            proof {
                assert(self@ =~= before.remove(p as int));
                if before.contains(*order) {
                    lemma_sole_tie(before, before.index_of(*order), p as int);
                    assert forall|x: TransactionOrder| #[trigger]
                        self@.contains(x) <==> before.contains(x) && x != *order by {
                        if before.contains(x) && x != *order {
                            let i = before.index_of(x);
                            assert(self@[if i < p { i } else { i - 1 }] == x);
                        }
                        if self@.contains(x) {
                            let i = self@.index_of(x);
                            let j = if i < p { i } else { i + 1 };
                            assert(before[j] == x);
                            if x == *order {
                                lemma_priority_is_an_order(x, x, x);
                                lemma_sole_tie(before, j, p as int);
                            }
                        }
                    }
                }
            }
            return true;
        }
        proof {
            assert forall|i: int| 0 <= i < before.len() implies !order.ties(#[trigger] before[i]) by {
                lemma_priority_is_an_order(*order, before[i], *order);
                if p < i {
                    lemma_priority_is_an_order(*order, before[p as int], *order);
                    lemma_priority_is_an_order(*order, before[p as int], before[i]);
                }
            }
            if before.contains(*order) {
                lemma_priority_is_an_order(*order, *order, *order);
                assert(order.ties(before[before.index_of(*order)]));
            }
        }
        false
    }

    pub fn clear(&mut self)
        ensures
            final(self)@ == Seq::<TransactionOrder>::empty(),
    {
        self.orders.clear();
    }
}

} // verus!
