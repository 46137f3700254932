//! A map for small key sets, kept as a list of entries.
use crate::uint::{Address, H256, U256};
use vstd::prelude::*;

verus! {

/// Values that can be told apart, and so can be keys of a [`VecMap`].
pub trait Key: Copy {
    fn same(&self, other: &Self) -> (r: bool)
        ensures
            r == (*self == *other),
    ;
}

impl Key for U256 {
    fn same(&self, other: &U256) -> (r: bool) {
        *self == *other
    }
}

impl Key for H256 {
    fn same(&self, other: &H256) -> (r: bool) {
        *self == *other
    }
}

impl Key for Address {
    fn same(&self, other: &Address) -> (r: bool) {
        *self == *other
    }
}

/// The place of a transaction: its sender and its nonce.
#[derive(Clone, Copy, Debug, PartialEq, Eq, Structural)]
pub struct Slot {
    pub sender: Address,
    pub nonce: U256,
}

impl Key for Slot {
    fn same(&self, other: &Slot) -> (r: bool) {
        *self == *other
    }
}

/// A map from `K` to `V`. Each key occurs in one entry; the order of the entries means nothing.
#[derive(Debug)]
pub struct VecMap<K, V> {
    entries: Vec<(K, V)>,
}

/// Whether no key occurs in two entries.
pub open spec fn distinct_keys<K, V>(entries: Seq<(K, V)>) -> bool {
    forall|i: int, j: int|
        0 <= i < j < entries.len() ==> (#[trigger] entries[i]).0 != (#[trigger] entries[j]).0
}

/// Whether `k` is the key of an entry.
pub open spec fn has_key<K, V>(entries: Seq<(K, V)>, k: K) -> bool {
    exists|i: int| 0 <= i < entries.len() && (#[trigger] entries[i]).0 == k
}

/// The map that the entries spell out.
pub open spec fn entries_map<K, V>(entries: Seq<(K, V)>) -> Map<K, V> {
    Map::new(
        |k: K| has_key(entries, k),
        |k: K| entries[choose|i: int| 0 <= i < entries.len() && (#[trigger] entries[i]).0 == k].1,
    )
}

/// What the map of the entries holds for the key of one of them.
pub proof fn lemma_entry<K, V>(entries: Seq<(K, V)>, i: int)
    requires
        distinct_keys(entries),
        0 <= i < entries.len(),
    ensures
        entries_map(entries).contains_key(entries[i].0),
        entries_map(entries)[entries[i].0] == entries[i].1,
{
    let k = entries[i].0;
    let j = choose|j: int| 0 <= j < entries.len() && (#[trigger] entries[j]).0 == k;
    assert(entries[i].0 == k);
    assert(has_key(entries, k));
    assert(j == i);
}

/// As many keys as entries.
pub proof fn lemma_entries_len<K, V>(entries: Seq<(K, V)>)
    requires
        distinct_keys(entries),
    ensures
        entries_map(entries).dom().finite(),
        entries_map(entries).dom().len() == entries.len(),
{
    let keys = entries.map_values(|e: (K, V)| e.0);
    assert(keys.no_duplicates());
    keys.unique_seq_to_set();
    assert(keys.to_set() =~= entries_map(entries).dom()) by {
        assert forall|k: K| keys.to_set().contains(k) <==> entries_map(entries).contains_key(k) by {
            if has_key(entries, k) {
                let i = choose|i: int| 0 <= i < entries.len() && (#[trigger] entries[i]).0 == k;
                assert(keys[i] == k);
            }
            if keys.contains(k) {
                let i = choose|i: int| 0 <= i < keys.len() && keys[i] == k;
                assert(entries[i].0 == k);
            }
        }
    }
}

impl<K, V> View for VecMap<K, V> {
    type V = Map<K, V>;

    closed spec fn view(&self) -> Map<K, V> {
        entries_map(self.entries@)
    }
}

impl<K: Key, V: Copy> VecMap<K, V> {
    /// No key occurs in two entries.
    pub closed spec fn wf(&self) -> bool {
        distinct_keys(self.entries@)
    }

    pub proof fn lemma_finite(&self)
        requires
            self.wf(),
        ensures
            self@.dom().finite(),
    {
        lemma_entries_len(self.entries@);
    }

    pub fn new() -> (r: Self)
        ensures
            r.wf(),
            r@ == Map::<K, V>::empty(),
    {
        let r = VecMap { entries: Vec::new() };
        assert(r@ =~= Map::<K, V>::empty());
        r
    }

    /// The number of keys.
    pub fn len(&self) -> (r: usize)
        requires
            self.wf(),
        ensures
            r == self@.dom().len(),
    {
        proof {
            lemma_entries_len(self.entries@);
        }
        self.entries.len()
    }

    /// The place of the entry for `k`, or the number of entries where there is none.
    fn position(&self, k: &K) -> (r: usize)
        requires
            self.wf(),
        ensures
            r <= self.entries@.len(),
            r < self.entries@.len() ==> self.entries@[r as int].0 == *k && self@.contains_key(*k)
                && self@[*k] == self.entries@[r as int].1,
            r == self.entries@.len() ==> !self@.contains_key(*k),
    {
        let mut i: usize = 0;
        while i < self.entries.len()
            invariant
                self.wf(),
                i <= self.entries@.len(),
                forall|j: int| 0 <= j < i ==> (#[trigger] self.entries@[j]).0 != *k,
            decreases self.entries@.len() - i,
        {
            if self.entries[i].0.same(k) {
                proof {
                    lemma_entry(self.entries@, i as int);
                }
                return i;
            }
            i += 1;
        }
        i
    }

    pub fn get(&self, k: &K) -> (r: Option<V>)
        requires
            self.wf(),
        ensures
            r == self@.get(*k),
    {
        let i: usize = self.position(k);
        if i < self.entries.len() {
            Some(self.entries[i].1)
        } else {
            None
        }
    }

    pub fn contains_key(&self, k: &K) -> (r: bool)
        requires
            self.wf(),
        ensures
            r == self@.contains_key(*k),
    {
        self.position(k) < self.entries.len()
    }

    /// Sets the value of `k`, and returns the value that it had before.
    pub fn insert(&mut self, k: K, v: V) -> (r: Option<V>)
        requires
            old(self).wf(),
        ensures
            final(self).wf(),
            final(self)@ == old(self)@.insert(k, v),
            r == old(self)@.get(k),
    {
        let r = self.remove(&k);
        let ghost before = self.entries@;
        self.entries.push((k, v));
        proof {
            let after = self.entries@;
            assert forall|i: int| 0 <= i < before.len() implies before[i].0 != k by {
                lemma_entry(before, i);
            }
            assert(distinct_keys(after));
            assert(self@ =~= old(self)@.insert(k, v)) by {
                assert(after[before.len() as int] == (k, v));
                lemma_entry(after, before.len() as int);
                assert forall|x: K| x != k implies entries_map(after).contains_key(x)
                    == entries_map(before).contains_key(x) by {
                    if has_key(before, x) {
                        let i = choose|i: int| 0 <= i < before.len() && (#[trigger] before[i]).0 == x;
                        assert(after[i].0 == x);
                    }
                    if has_key(after, x) {
                        let i = choose|i: int| 0 <= i < after.len() && (#[trigger] after[i]).0 == x;
                        assert(before[i].0 == x);
                    }
                }
                assert forall|x: K| x != k && entries_map(before).contains_key(x) implies entries_map(
                    after,
                )[x] == entries_map(before)[x] by {
                    let i = choose|i: int| 0 <= i < before.len() && (#[trigger] before[i]).0 == x;
                    lemma_entry(before, i);
                    assert(after[i] == before[i]);
                    lemma_entry(after, i);
                }
            }
        }
        r
    }

    /// Takes `k` out, and returns the value that it had.
    pub fn remove(&mut self, k: &K) -> (r: Option<V>)
        requires
            old(self).wf(),
        ensures
            final(self).wf(),
            final(self)@ == old(self)@.remove(*k),
            r == old(self)@.get(*k),
    {
        let at: usize = self.position(k);
        if at >= self.entries.len() {
            assert(self@ =~= self@.remove(*k));
            return None;
        }
        let ghost before = self.entries@;
        let taken = self.entries.swap_remove(at);
        proof {
            let after = self.entries@;
            let last = before.len() - 1;
            assert(after =~= before.update(at as int, before[last]).drop_last());
            assert(distinct_keys(after));
            assert forall|x: K| x != *k && has_key(before, x) implies has_key(after, x)
                && entries_map(after)[x] == entries_map(before)[x] by {
                let i = choose|i: int| 0 <= i < before.len() && (#[trigger] before[i]).0 == x;
                lemma_entry(before, i);
                let j = if i == last { at as int } else { i };
                assert(after[j] == before[i]);
                lemma_entry(after, j);
            }
            assert forall|x: K| has_key(after, x) implies x != *k && has_key(before, x) by {
                let i = choose|i: int| 0 <= i < after.len() && (#[trigger] after[i]).0 == x;
                let j = if i == at { last } else { i };
                assert(after[i] == before[j]);
                assert(before[j].0 == x);
                assert(before[at as int].0 == *k);
            }
            assert(self@ =~= old(self)@.remove(*k));
        }
        Some(taken.1)
    }

    pub fn clear(&mut self)
        ensures
            final(self).wf(),
            final(self)@ == Map::<K, V>::empty(),
    {
        self.entries = Vec::new();
        assert(self@ =~= Map::<K, V>::empty());
    }

    /// The keys, each once.
    pub fn keys(&self) -> (r: Vec<K>)
        requires
            self.wf(),
        ensures
            r@.no_duplicates(),
            forall|k: K| #[trigger] r@.contains(k) <==> self@.contains_key(k),
    {
        let mut r: Vec<K> = Vec::new();
        let mut i: usize = 0;
        while i < self.entries.len()
            invariant
                self.wf(),
                i <= self.entries@.len(),
                r@.len() == i,
                forall|j: int| 0 <= j < i ==> r@[j] == (#[trigger] self.entries@[j]).0,
            decreases self.entries@.len() - i,
        {
            r.push(self.entries[i].0);
            i += 1;
        }
        proof {
            assert forall|a: int, b: int| 0 <= a < r@.len() && 0 <= b < r@.len() && a != b implies r@[a]
                != r@[b] by {
                assert(self.entries@[a].0 == r@[a] && self.entries@[b].0 == r@[b]);
            }
            assert forall|k: K| #[trigger] r@.contains(k) <==> self@.contains_key(k) by {
                if r@.contains(k) {
                    let j = choose|j: int| 0 <= j < r@.len() && r@[j] == k;
                    assert(self.entries@[j].0 == k);
                }
                if has_key(self.entries@, k) {
                    let j = choose|j: int|
                        0 <= j < self.entries@.len() && (#[trigger] self.entries@[j]).0 == k;
                    assert(r@[j] == k);
                }
            }
        }
        r
    }
}

} // verus!
