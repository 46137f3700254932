//! Transaction hashes by gas price.
use crate::uint::{H256, U256};
use std::ops::Deref;
use vstd::prelude::*;

verus! {

/// A multimap from gas prices to hashes, with the prices in ascending order.
#[derive(Debug)]
pub struct GasPriceQueue {
    pub backing: Vec<(U256, Vec<H256>)>,
}

/// The pairs of a price and a hash that the rows spell out.
pub open spec fn pairs(rows: Seq<(U256, Vec<H256>)>) -> Set<(U256, H256)> {
    Set::new(
        |e: (U256, H256)|
            exists|i: int|
                0 <= i < rows.len() && (#[trigger] rows[i]).0 == e.0 && rows[i].1@.contains(e.1),
    )
}

/// Whether a hash has the given price.
pub open spec fn has_price(items: Set<(U256, H256)>, gas_price: U256) -> bool {
    exists|h: H256| items.contains((gas_price, h))
}

impl View for GasPriceQueue {
    type V = Set<(U256, H256)>;

    open spec fn view(&self) -> Set<(U256, H256)> {
        pairs(self.backing@)
    }
}

impl GasPriceQueue {
    /// Prices ascend, and each has hashes, no hash twice.
    pub open spec fn wf(&self) -> bool {
        &&& forall|i: int, j: int|
            0 <= i < j < self.backing@.len() ==> (#[trigger] self.backing@[i]).0@ < (
            #[trigger] self.backing@[j]).0@
        &&& forall|i: int|
            0 <= i < self.backing@.len() ==> (#[trigger] self.backing@[i]).1@.len() > 0
                && self.backing@[i].1@.no_duplicates()
    }

    pub fn new() -> (r: GasPriceQueue)
        ensures
            r.wf(),
            r@ == Set::<(U256, H256)>::empty(),
    {
        let r = GasPriceQueue { backing: Vec::new() };
        assert(r@ =~= Set::<(U256, H256)>::empty());
        r
    }

    /// How many rows have a lower price.
    fn rank(&self, gas_price: &U256) -> (r: usize)
        requires
            self.wf(),
        ensures
            r <= self.backing@.len(),
            forall|i: int| 0 <= i < r ==> (#[trigger] self.backing@[i]).0@ < gas_price@,
            forall|i: int| r <= i < self.backing@.len() ==> gas_price@ <= (#[trigger] self.backing@[i]).0@,
    {
        let mut i: usize = 0;
        while i < self.backing.len() && self.backing[i].0 < *gas_price
            invariant
                self.wf(),
                i <= self.backing@.len(),
                forall|j: int| 0 <= j < i ==> (#[trigger] self.backing@[j]).0@ < gas_price@,
            decreases self.backing@.len() - i,
        {
            i += 1;
        }
        i
    }

    /// Insert an item into the multimap.
    /// Returns true if the item was not there before.
    pub fn insert(&mut self, gas_price: U256, hash: H256) -> (r: bool)
        requires
            old(self).wf(),
        ensures
            final(self).wf(),
            final(self)@ == old(self)@.insert((gas_price, hash)),
            r == !old(self)@.contains((gas_price, hash)),
    {
        let p: usize = self.rank(&gas_price);
        let ghost before = self.backing@;
        if p < self.backing.len() && self.backing[p].0 == gas_price {
            let at: usize = position(&self.backing[p].1, &hash);
            if at < self.backing[p].1.len() {
                assert(self.backing@[p as int].1@.contains(hash));
                assert(self@ =~= self@.insert((gas_price, hash)));
                return false;
            }
            let mut row: Vec<H256> = copied(&self.backing[p].1);
            row.push(hash);
            self.backing.set(p, (gas_price, row));
            proof {
                lemma_row_replaced(before, p as int, gas_price, row);
                assert(row@ =~= before[p as int].1@.push(hash));
                assert forall|h: H256| row@.contains(h) <==> before[p as int].1@.contains(h) || h == hash by {
                    if h == hash {
                        assert(row@[row@.len() - 1] == hash);
                    }
                    if before[p as int].1@.contains(h) {
                        let i = before[p as int].1@.index_of(h);
                        assert(row@[i] == h);
                    }
                }
                lemma_row_contents(before, p as int);
                assert(self@ =~= old(self)@.insert((gas_price, hash)));
            }
            true
        } else {
            let mut row: Vec<H256> = Vec::new();
            row.push(hash);
            self.backing.insert(p, (gas_price, row));
            proof {
                let after = self.backing@;
                assert(after =~= before.insert(p as int, (gas_price, row)));
                assert forall|e: (U256, H256)|
                    pairs(after).contains(e) <==> pairs(before).contains(e) || e == (gas_price, hash) by {
                    if pairs(before).contains(e) {
                        let i = choose|i: int|
                            0 <= i < before.len() && (#[trigger] before[i]).0 == e.0
                                && before[i].1@.contains(e.1);
                        let j = if i < p { i } else { i + 1 };
                        assert(after[j] == before[i]);
                    }
                    if pairs(after).contains(e) {
                        let j = choose|j: int|
                            0 <= j < after.len() && (#[trigger] after[j]).0 == e.0
                                && after[j].1@.contains(e.1);
                        if j != p {
                            let i = if j < p { j } else { j - 1 };
                            assert(after[j] == before[i]);
                        }
                    }
                    if e == (gas_price, hash) {
                        assert(after[p as int].1@[0] == hash);
                    }
                }
                assert(self@ =~= old(self)@.insert((gas_price, hash)));
                assert forall|h: H256| !pairs(before).contains((gas_price, h)) by {
                    if pairs(before).contains((gas_price, h)) {
                        let i = choose|i: int|
                            0 <= i < before.len() && (#[trigger] before[i]).0 == gas_price
                                && before[i].1@.contains(h);
                        assert(p <= i);
                        assert(before[p as int].0@ <= before[i].0@);
                    }
                }
            }
            true
        }
    }

    /// Remove an item from the multimap.
    /// Returns true if the item was removed successfully.
    pub fn remove(&mut self, gas_price: &U256, hash: &H256) -> (r: bool)
        requires
            old(self).wf(),
        ensures
            final(self).wf(),
            final(self)@ == old(self)@.remove((*gas_price, *hash)),
            r == old(self)@.contains((*gas_price, *hash)),
    {
        let p: usize = self.rank(gas_price);
        let ghost before = self.backing@;
        if p >= self.backing.len() || self.backing[p].0 != *gas_price {
            // Operation failed: gas-price not found in Map.
            proof {
                assert forall|h: H256| !pairs(before).contains((*gas_price, h)) by {
                    if pairs(before).contains((*gas_price, h)) {
                        let i = choose|i: int|
                            0 <= i < before.len() && (#[trigger] before[i]).0 == *gas_price
                                && before[i].1@.contains(h);
                        assert(p <= i);
                        assert(before[p as int].0@ <= before[i].0@);
                    }
                }
                assert(self@ =~= self@.remove((*gas_price, *hash)));
            }
            return false;
        }
        proof {
            lemma_row_contents(before, p as int);
        }
        let at: usize = position(&self.backing[p].1, hash);
        if at >= self.backing[p].1.len() {
            // Operation failed: hash not in gas-price's Set.
            assert(!before[p as int].1@.contains(*hash));
            assert(self@ =~= self@.remove((*gas_price, *hash)));
            return false;
        }
        assert(before[p as int].1@[at as int] == *hash);
        if self.backing[p].1.len() == 1 {
            self.backing.remove(p);
            proof {
                let after = self.backing@;
                assert(after =~= before.remove(p as int));
                assert forall|e: (U256, H256)|
                    pairs(after).contains(e) <==> pairs(before).contains(e) && e != (
                        *gas_price,
                        *hash,
                    ) by {
                    if pairs(before).contains(e) && e != (*gas_price, *hash) {
                        let i = choose|i: int|
                            0 <= i < before.len() && (#[trigger] before[i]).0 == e.0
                                && before[i].1@.contains(e.1);
                        assert(i != p);
                        let j = if i < p { i } else { i - 1 };
                        assert(after[j] == before[i]);
                    }
                    if pairs(after).contains(e) {
                        let j = choose|j: int|
                            0 <= j < after.len() && (#[trigger] after[j]).0 == e.0
                                && after[j].1@.contains(e.1);
                        let i = if j < p { j } else { j + 1 };
                        assert(after[j] == before[i]);
                        assert(before[i].0@ != before[p as int].0@);
                    }
                }
                assert(self@ =~= old(self)@.remove((*gas_price, *hash)));
            }
            return true;
        }
        let mut row: Vec<H256> = copied(&self.backing[p].1);
        row.swap_remove(at);
        self.backing.set(p, (*gas_price, row));
        proof {
            let hashes = before[p as int].1@;
            let last = hashes.len() - 1;
            lemma_row_replaced(before, p as int, *gas_price, row);
            assert(row@ =~= hashes.update(at as int, hashes[last]).drop_last());
            assert forall|h: H256| row@.contains(h) <==> hashes.contains(h) && h != *hash by {
                if hashes.contains(h) && h != *hash {
                    let i = hashes.index_of(h);
                    let j = if i == last { at as int } else { i };
                    assert(row@[j] == h);
                }
                if row@.contains(h) {
                    let j = row@.index_of(h);
                    let i = if j == at { last } else { j };
                    assert(hashes[i] == h);
                }
            }
            assert(row@.no_duplicates());
            assert(self@ =~= old(self)@.remove((*gas_price, *hash)));
        }
        true
    }

    /// The lowest price that has a hash.
    pub fn lowest(&self) -> (r: Option<U256>)
        requires
            self.wf(),
        ensures
            r is None ==> self@ == Set::<(U256, H256)>::empty(),
            r matches Some(p) ==> has_price(self@, p),
            r matches Some(p) ==> forall|q: U256, h: H256|
                #[trigger] self@.contains((q, h)) ==> p@ <= q@,
    {
        if self.backing.len() == 0 {
            assert(self@ =~= Set::<(U256, H256)>::empty());
            None
        } else {
            let p: U256 = self.backing[0].0;
            proof {
                let h = self.backing@[0].1@[0];
                assert(self.backing@[0].1@.contains(h));
                assert(self@.contains((p, h)));
                assert(has_price(self@, p));
                assert forall|q: U256, h: H256| #[trigger] self@.contains((q, h)) implies p@ <= q@ by {
                    let i = choose|i: int|
                        0 <= i < self.backing@.len() && (#[trigger] self.backing@[i]).0 == q
                            && self.backing@[i].1@.contains(h);
                    assert(self.backing@[0].0@ <= self.backing@[i].0@);
                }
            }
            Some(p)
        }
    }

    pub fn clear(&mut self)
        ensures
            final(self).wf(),
            final(self)@ == Set::<(U256, H256)>::empty(),
    {
        self.backing.clear();
        assert(self@ =~= Set::<(U256, H256)>::empty());
    }
}

impl Deref for GasPriceQueue {
    type Target = Vec<(U256, Vec<H256>)>;

    fn deref(&self) -> (r: &Vec<(U256, Vec<H256>)>)
        ensures
            *r == self.backing,
    {
        &self.backing
    }
}

impl Default for GasPriceQueue {
    fn default() -> (r: GasPriceQueue)
        ensures
            r.wf(),
            r@ == Set::<(U256, H256)>::empty(),
    {
        GasPriceQueue::new()
    }
}

/// The place of `hash` in `hashes`, or their number where it is not there.
fn position(hashes: &Vec<H256>, hash: &H256) -> (r: usize)
    ensures
        r <= hashes@.len(),
        r < hashes@.len() ==> hashes@[r as int] == *hash,
        r == hashes@.len() ==> !hashes@.contains(*hash),
{
    let mut i: usize = 0;
    while i < hashes.len()
        invariant
            i <= hashes@.len(),
            forall|j: int| 0 <= j < i ==> hashes@[j] != *hash,
        decreases hashes@.len() - i,
    {
        if hashes[i] == *hash {
            return i;
        }
        i += 1;
    }
    i
}

fn copied(hashes: &Vec<H256>) -> (r: Vec<H256>)
    ensures
        r@ == hashes@,
{
    let mut r: Vec<H256> = Vec::new();
    let mut i: usize = 0;
    while i < hashes.len()
        invariant
            i <= hashes@.len(),
            r@ == hashes@.take(i as int),
        decreases hashes@.len() - i,
    {
        r.push(hashes[i]);
        i += 1;
    }
    assert(hashes@.take(i as int) =~= hashes@);
    r
}

/// A row holds all the hashes of its price.
proof fn lemma_row_contents(rows: Seq<(U256, Vec<H256>)>, p: int)
    requires
        0 <= p < rows.len(),
        forall|i: int, j: int|
            0 <= i < j < rows.len() ==> (#[trigger] rows[i]).0@ < (#[trigger] rows[j]).0@,
    ensures
        forall|h: H256|
            #[trigger] pairs(rows).contains((rows[p].0, h)) <==> rows[p].1@.contains(h),
{
    assert forall|h: H256|
        #[trigger] pairs(rows).contains((rows[p].0, h)) <==> rows[p].1@.contains(h) by {
        if pairs(rows).contains((rows[p].0, h)) {
            let i = choose|i: int|
                0 <= i < rows.len() && (#[trigger] rows[i]).0 == rows[p].0 && rows[i].1@.contains(h);
            assert(i == p);
        }
    }
}

/// What changes where the hashes of one price are replaced.
proof fn lemma_row_replaced(
    rows: Seq<(U256, Vec<H256>)>,
    p: int,
    gas_price: U256,
    row: Vec<H256>,
)
    requires
        0 <= p < rows.len(),
        rows[p].0 == gas_price,
        forall|i: int, j: int|
            0 <= i < j < rows.len() ==> (#[trigger] rows[i]).0@ < (#[trigger] rows[j]).0@,
    ensures
        forall|e: (U256, H256)|
            #[trigger] pairs(rows.update(p, (gas_price, row))).contains(e) <==> if e.0 == gas_price {
                row@.contains(e.1)
            } else {
                pairs(rows).contains(e)
            },
{
    let after = rows.update(p, (gas_price, row));
    assert forall|e: (U256, H256)|
        #[trigger] pairs(after).contains(e) <==> if e.0 == gas_price {
            row@.contains(e.1)
        } else {
            pairs(rows).contains(e)
        } by {
        lemma_row_contents(after, p);
        if e.0 == gas_price {
            assert(after[p].0 == gas_price);
            assert(e == (after[p].0, e.1));
        } else {
            if pairs(rows).contains(e) {
                let i = choose|i: int|
                    0 <= i < rows.len() && (#[trigger] rows[i]).0 == e.0 && rows[i].1@.contains(e.1);
                assert(after[i] == rows[i]);
            }
            if pairs(after).contains(e) {
                let i = choose|i: int|
                    0 <= i < after.len() && (#[trigger] after[i]).0 == e.0 && after[i].1@.contains(e.1);
                assert(after[i] == rows[i]);
            }
        }
    }
}

} // verus!
