//! What became of the transactions that were sent through this node.
use crate::transaction::{SignedTransaction, TransactionError};
use crate::uint::{H256, U256};
use crate::vec_map::{distinct_keys, entries_map, has_key, lemma_entry};
use linked_hash_map::LinkedHashMap;
use std::collections::hash_map::RandomState;
use vstd::prelude::*;

verus! {

/// The status of a local transaction.
#[derive(Clone, Copy, Debug, PartialEq, Eq, Structural)]
pub enum LocalTransactionStatus {
    /// The transaction is ready to go to a block.
    Pending,
    /// The transaction waits for transactions with lower nonces.
    Future,
    /// The state has moved past the transaction.
    Mined(SignedTransaction),
    /// The transaction left the queue because of a limit.
    Dropped(SignedTransaction),
    /// Another transaction, of the given gas price and hash, took its place.
    Replaced(SignedTransaction, U256, H256),
    /// The queue refused the transaction.
    Rejected(SignedTransaction, TransactionError),
    /// The transaction is invalid.
    Invalid(SignedTransaction),
}

/// The words of a hash, as the list keys them.
pub type HashWords = (u128, u128);

/// `linked_hash_map::LinkedHashMap`: a hash map that remembers the order in which keys were put in.
#[verifier::external_type_specification]
#[verifier::external_body]
#[verifier::reject_recursive_types(K)]
#[verifier::reject_recursive_types(V)]
#[verifier::reject_recursive_types(S)]
pub struct ExLinkedHashMap<K, V, S>(linked_hash_map::LinkedHashMap<K, V, S>);

/// The entries of a linked hash map, oldest first.
pub uninterp spec fn linked_entries(
    m: LinkedHashMap<HashWords, LocalTransactionStatus, RandomState>,
) -> Seq<(HashWords, LocalTransactionStatus)>;

/// `LinkedHashMap::new`: a new map has no entries.
#[verifier::external_body]
fn linked_new() -> (r: LinkedHashMap<HashWords, LocalTransactionStatus, RandomState>)
    ensures
        linked_entries(r) == Seq::<(HashWords, LocalTransactionStatus)>::empty(),
{
    LinkedHashMap::new()
}

/// `LinkedHashMap::insert`: the key gets the value and goes to the end, whether or not it had a place
/// before. The other entries keep theirs. The value that the key had is returned.
#[verifier::external_body]
fn linked_insert(
    m: &mut LinkedHashMap<HashWords, LocalTransactionStatus, RandomState>,
    k: HashWords,
    v: LocalTransactionStatus,
) -> (r: Option<LocalTransactionStatus>)
    ensures
        linked_entries(*final(m)) == marked(linked_entries(*old(m)), k, v),
        r is Some <==> has_key(linked_entries(*old(m)), k),
        r matches Some(before) ==> linked_entries(*old(m)).contains((k, before)),
{
    m.insert(k, v)
}

/// `LinkedHashMap::contains_key`: whether the key has an entry.
#[verifier::external_body]
fn linked_contains_key(
    m: &LinkedHashMap<HashWords, LocalTransactionStatus, RandomState>,
    k: &HashWords,
) -> (r: bool)
    ensures
        r == has_key(linked_entries(*m), *k),
{
    m.contains_key(k)
}

/// Whether an entry has another key than `k`.
pub open spec fn other_than(k: HashWords) -> spec_fn((HashWords, LocalTransactionStatus)) -> bool {
    |e: (HashWords, LocalTransactionStatus)| e.0 != k
}

/// The entries once `k` was given the value `v`.
pub open spec fn marked(
    entries: Seq<(HashWords, LocalTransactionStatus)>,
    k: HashWords,
    v: LocalTransactionStatus,
) -> Seq<(HashWords, LocalTransactionStatus)> {
    entries.filter(other_than(k)).push((k, v))
}

/// Whether the latest entry gives `hash` the status `v`.
pub open spec fn latest(
    entries: Seq<(HashWords, LocalTransactionStatus)>,
    hash: H256,
    v: LocalTransactionStatus,
) -> bool {
    entries.len() > 0 && entries.last() == ((hash.hi, hash.lo), v)
}

/// The status of each hash that has one.
pub open spec fn statuses(entries: Seq<(HashWords, LocalTransactionStatus)>) -> Map<
    H256,
    LocalTransactionStatus,
> {
    Map::new(
        |h: H256| has_key(entries, (h.hi, h.lo)),
        |h: H256| entries_map(entries)[(h.hi, h.lo)],
    )
}

/// Marking a hash sets its status, leaves the others as they are, and keeps one entry to a hash.
pub proof fn lemma_marked(
    entries: Seq<(HashWords, LocalTransactionStatus)>,
    hash: H256,
    v: LocalTransactionStatus,
)
    requires
        distinct_keys(entries),
    ensures
        distinct_keys(marked(entries, (hash.hi, hash.lo), v)),
        statuses(marked(entries, (hash.hi, hash.lo), v)) == statuses(entries).insert(hash, v),
{
    broadcast use {
        Seq::lemma_filter_contains,
        Seq::lemma_filter_contains_rev,
        Seq::lemma_filter_pred,
    };

    let k = (hash.hi, hash.lo);
    let pred = other_than(k);
    let kept = entries.filter(pred);
    let after = marked(entries, k, v);
    lemma_filter_distinct(entries, k);
    assert forall|i: int| 0 <= i < kept.len() implies (#[trigger] kept[i]).0 != k by {
        assert(pred(kept[i]));
    }
    assert(distinct_keys(after));
    assert forall|h: H256| #[trigger] statuses(after).contains_key(h) <==> statuses(entries).insert(
        hash,
        v,
    ).contains_key(h) by {
        let words = (h.hi, h.lo);
        if h == hash {
            assert(after[kept.len() as int].0 == words);
        } else {
            if has_key(entries, words) {
                let i = choose|i: int| 0 <= i < entries.len() && (#[trigger] entries[i]).0 == words;
                assert(pred(entries[i]));
                assert(kept.contains(entries[i]));
                let j = kept.index_of(entries[i]);
                assert(after[j].0 == words);
            }
            if has_key(after, words) {
                let j = choose|j: int| 0 <= j < after.len() && (#[trigger] after[j]).0 == words;
                assert(kept.contains(kept[j]));
                assert(entries.contains(kept[j]));
                let i = entries.index_of(kept[j]);
                assert(entries[i].0 == words);
            }
        }
    }
    assert forall|h: H256| #[trigger] statuses(after).contains_key(h) implies statuses(after)[h]
        == statuses(entries).insert(hash, v)[h] by {
        let words = (h.hi, h.lo);
        let j = choose|j: int| 0 <= j < after.len() && (#[trigger] after[j]).0 == words;
        lemma_entry(after, j);
        if h == hash {
            assert(after[kept.len() as int].0 == words);
            lemma_entry(after, kept.len() as int);
        } else {
            assert(kept.contains(kept[j]));
            assert(entries.contains(kept[j]));
            let i = entries.index_of(kept[j]);
            lemma_entry(entries, i);
        }
    }
    assert(statuses(after) =~= statuses(entries).insert(hash, v));
}

proof fn lemma_filter_distinct(entries: Seq<(HashWords, LocalTransactionStatus)>, k: HashWords)
    requires
        distinct_keys(entries),
    ensures
        distinct_keys(entries.filter(other_than(k))),
    decreases entries.len(),
{
    broadcast use {Seq::lemma_filter_contains_rev, Seq::lemma_index_contains};

    reveal_with_fuel(Seq::filter, 1);
    let pred = other_than(k);
    if entries.len() > 0 {
        let front = entries.drop_last();
        lemma_filter_distinct(front, k);
        let kept = front.filter(pred);
        assert forall|i: int| 0 <= i < kept.len() implies (#[trigger] kept[i]).0 != entries.last().0 by {
            assert(front.contains(kept[i]));
            let j = front.index_of(kept[i]);
            assert(entries[j] == kept[i]);
        }
    }
}

/// The hash of an entry.
pub open spec fn hash_of(e: (HashWords, LocalTransactionStatus)) -> H256 {
    H256 { hi: e.0.0, lo: e.0.1 }
}

/// Whether an entry has a hash that is not in `marks`.
pub open spec fn outside(marks: Set<H256>) -> spec_fn((HashWords, LocalTransactionStatus)) -> bool {
    |e: (HashWords, LocalTransactionStatus)| !marks.contains(hash_of(e))
}

/// Whether `after` can come of `before` where the hashes in `marks` were marked, and no others: those that
/// were not marked keep their entries and the order among them, and those that were marked follow.
pub open spec fn remarked(
    before: Seq<(HashWords, LocalTransactionStatus)>,
    after: Seq<(HashWords, LocalTransactionStatus)>,
    marks: Set<H256>,
) -> bool {
    let kept = before.filter(outside(marks));
    &&& kept.len() <= after.len()
    &&& after.take(kept.len() as int) == kept
    &&& forall|i: int| kept.len() <= i < after.len() ==> marks.contains(#[trigger] hash_of(after[i]))
    &&& forall|h: H256| #[trigger] marks.contains(h) ==> has_key(after, (h.hi, h.lo))
}

/// A filter that lets everything through changes nothing.
proof fn lemma_filter_all(
    entries: Seq<(HashWords, LocalTransactionStatus)>,
    pred: spec_fn((HashWords, LocalTransactionStatus)) -> bool,
)
    requires
        forall|i: int| 0 <= i < entries.len() ==> pred(#[trigger] entries[i]),
    ensures
        entries.filter(pred) == entries,
    decreases entries.len(),
{
    reveal(Seq::filter);
    if entries.len() > 0 {
        let front = entries.drop_last();
        assert forall|i: int| 0 <= i < front.len() implies pred(#[trigger] front[i]) by {
            assert(front[i] == entries[i]);
        }
        lemma_filter_all(front, pred);
        assert(pred(entries[entries.len() - 1]));
        assert(entries =~= front.push(entries.last()));
    }
}

/// Two filters, one after the other, let through what both do.
proof fn lemma_filter_twice(
    entries: Seq<(HashWords, LocalTransactionStatus)>,
    m: Set<H256>,
    n: Set<H256>,
)
    ensures
        entries.filter(outside(m)).filter(outside(n)) == entries.filter(outside(m.union(n))),
    decreases entries.len(),
{
    reveal(Seq::filter);
    if entries.len() > 0 {
        let front = entries.drop_last();
        lemma_filter_twice(front, m, n);
        let kept = front.filter(outside(m));
        if outside(m)(entries.last()) {
            assert(kept.push(entries.last()).drop_last() =~= kept);
        }
    }
}

/// Where nothing is marked the list stays as it is.
pub proof fn lemma_unmarked(
    before: Seq<(HashWords, LocalTransactionStatus)>,
    after: Seq<(HashWords, LocalTransactionStatus)>,
)
    ensures
        remarked(before, after, Set::empty()) <==> before == after,
{
    lemma_filter_all(before, outside(Set::empty()));
    assert(before.take(before.len() as int) =~= before);
    if remarked(before, after, Set::empty()) {
        if after.len() > before.len() {
            assert(Set::<H256>::empty().contains(hash_of(after[before.len() as int])));
        }
        assert(after.take(before.len() as int) =~= after);
    }
}

/// What is marked in two steps is marked.
pub proof fn lemma_remarked_again(
    before: Seq<(HashWords, LocalTransactionStatus)>,
    between: Seq<(HashWords, LocalTransactionStatus)>,
    after: Seq<(HashWords, LocalTransactionStatus)>,
    m: Set<H256>,
    n: Set<H256>,
)
    requires
        remarked(before, between, m),
        remarked(between, after, n),
    ensures
        remarked(before, after, m.union(n)),
{
    let first = before.filter(outside(m));
    let tail = between.skip(first.len() as int);
    let kept = before.filter(outside(m.union(n)));
    let rest = tail.filter(outside(n));
    lemma_filter_twice(before, m, n);
    assert(between =~= first + tail);
    Seq::filter_distributes_over_add(first, tail, outside(n));
    assert(between.filter(outside(n)) == kept + rest);
    assert(after.take((kept + rest).len() as int) == kept + rest);
    assert(after.take(kept.len() as int) =~= kept) by {
        assert forall|i: int| 0 <= i < kept.len() implies after[i] == kept[i] by {
            assert(after.take((kept + rest).len() as int)[i] == (kept + rest)[i]);
        }
    }
    assert forall|i: int| kept.len() <= i < after.len() implies m.union(n).contains(
        #[trigger] hash_of(after[i]),
    ) by {
        if i < (kept + rest).len() {
            broadcast use Seq::lemma_filter_contains_rev;

            assert(after.take((kept + rest).len() as int)[i] == (kept + rest)[i]);
            let e = rest[i - kept.len()];
            assert(rest.contains(e));
            assert(tail.contains(e));
            let j = tail.index_of(e);
            assert(between[first.len() + j] == e);
            assert(m.contains(hash_of(between[first.len() + j])));
        }
    }
    assert forall|h: H256| #[trigger] m.union(n).contains(h) implies has_key(after, (h.hi, h.lo)) by {
        if !n.contains(h) {
            broadcast use Seq::lemma_filter_contains;

            let i = choose|i: int| 0 <= i < between.len() && (#[trigger] between[i]).0 == (h.hi, h.lo);
            assert(hash_of(between[i]) == h);
            assert(outside(n)(between[i]));
            assert((kept + rest).contains(between[i]));
            let j = (kept + rest).index_of(between[i]);
            assert(after.take((kept + rest).len() as int)[j] == (kept + rest)[j]);
            assert(after[j].0 == (h.hi, h.lo));
        }
    }
}

/// One more hash is marked.
pub proof fn lemma_mark_one(
    before: Seq<(HashWords, LocalTransactionStatus)>,
    entries: Seq<(HashWords, LocalTransactionStatus)>,
    marks: Set<H256>,
    hash: H256,
    v: LocalTransactionStatus,
)
    requires
        remarked(before, entries, marks),
    ensures
        remarked(before, marked(entries, (hash.hi, hash.lo), v), marks.insert(hash)),
{
    let one = Set::<H256>::empty().insert(hash);
    let k = (hash.hi, hash.lo);
    let after = marked(entries, k, v);
    assert(other_than(k) =~= outside(one)) by {
        assert forall|e: (HashWords, LocalTransactionStatus)| #[trigger] other_than(k)(e) == outside(
            one,
        )(e) by {
            assert(hash_of(e) == hash <==> e.0 == k);
        }
    }
    let kept = entries.filter(outside(one));
    assert(after.take(kept.len() as int) =~= kept);
    assert(after[kept.len() as int] == (k, v));
    assert(remarked(entries, after, one));
    lemma_remarked_again(before, entries, after, marks, one);
    assert(marks.union(one) =~= marks.insert(hash));
}

/// Keeps track of local transactions that are in the queue or were in it.
pub struct LocalTransactionsList {
    transactions: LinkedHashMap<HashWords, LocalTransactionStatus, RandomState>,
}

impl View for LocalTransactionsList {
    type V = Seq<(HashWords, LocalTransactionStatus)>;

    closed spec fn view(&self) -> Seq<(HashWords, LocalTransactionStatus)> {
        linked_entries(self.transactions)
    }
}

impl LocalTransactionsList {
    /// A hash has one status.
    pub open spec fn wf(&self) -> bool {
        distinct_keys(self@)
    }

    pub fn new() -> (r: LocalTransactionsList)
        ensures
            r.wf(),
            r@ == Seq::<(HashWords, LocalTransactionStatus)>::empty(),
            statuses(r@) == Map::<H256, LocalTransactionStatus>::empty(),
    {
        let r = LocalTransactionsList { transactions: linked_new() };
        assert(statuses(r@) =~= Map::<H256, LocalTransactionStatus>::empty());
        r
    }

    /// Gives `hash` a status. It becomes the latest entry.
    pub fn mark(&mut self, hash: H256, status: LocalTransactionStatus)
        requires
            old(self).wf(),
        ensures
            final(self).wf(),
            final(self)@ == marked(old(self)@, (hash.hi, hash.lo), status),
            statuses(final(self)@) == statuses(old(self)@).insert(hash, status),
    {
        proof {
            lemma_marked(self@, hash, status);
        }
        let _ = linked_insert(&mut self.transactions, (hash.hi, hash.lo), status);
    }

    /// Mark transaction with given hash as pending.
    pub fn mark_pending(&mut self, hash: H256)
        requires
            old(self).wf(),
        ensures
            final(self).wf(),
            final(self)@ == marked(old(self)@, (hash.hi, hash.lo), LocalTransactionStatus::Pending),
            statuses(final(self)@) == statuses(old(self)@).insert(
                hash,
                LocalTransactionStatus::Pending,
            ),
    {
        self.mark(hash, LocalTransactionStatus::Pending);
    }

    /// Mark transaction with given hash as future.
    pub fn mark_future(&mut self, hash: H256)
        requires
            old(self).wf(),
        ensures
            final(self).wf(),
            final(self)@ == marked(old(self)@, (hash.hi, hash.lo), LocalTransactionStatus::Future),
            statuses(final(self)@) == statuses(old(self)@).insert(
                hash,
                LocalTransactionStatus::Future,
            ),
    {
        self.mark(hash, LocalTransactionStatus::Future);
    }

    /// Mark given transaction as rejected from the queue.
    pub fn mark_rejected(&mut self, tx: SignedTransaction, err: TransactionError)
        requires
            old(self).wf(),
        ensures
            final(self).wf(),
            final(self)@ == marked(
                old(self)@,
                (tx.hash.hi, tx.hash.lo),
                LocalTransactionStatus::Rejected(tx, err),
            ),
            statuses(final(self)@) == statuses(old(self)@).insert(
                tx.hash,
                LocalTransactionStatus::Rejected(tx, err),
            ),
    {
        self.mark(tx.hash, LocalTransactionStatus::Rejected(tx, err));
    }

    /// Mark the transaction as replaced by transaction with given hash.
    pub fn mark_replaced(&mut self, tx: SignedTransaction, gas_price: U256, hash: H256)
        requires
            old(self).wf(),
        ensures
            final(self).wf(),
            final(self)@ == marked(
                old(self)@,
                (tx.hash.hi, tx.hash.lo),
                LocalTransactionStatus::Replaced(tx, gas_price, hash),
            ),
            statuses(final(self)@) == statuses(old(self)@).insert(
                tx.hash,
                LocalTransactionStatus::Replaced(tx, gas_price, hash),
            ),
    {
        self.mark(tx.hash, LocalTransactionStatus::Replaced(tx, gas_price, hash));
    }

    /// Mark transaction as invalid.
    pub fn mark_invalid(&mut self, tx: SignedTransaction)
        requires
            old(self).wf(),
        ensures
            final(self).wf(),
            final(self)@ == marked(
                old(self)@,
                (tx.hash.hi, tx.hash.lo),
                LocalTransactionStatus::Invalid(tx),
            ),
            statuses(final(self)@) == statuses(old(self)@).insert(
                tx.hash,
                LocalTransactionStatus::Invalid(tx),
            ),
    {
        self.mark(tx.hash, LocalTransactionStatus::Invalid(tx));
    }

    /// Mark transaction as dropped because of limit.
    pub fn mark_dropped(&mut self, tx: SignedTransaction)
        requires
            old(self).wf(),
        ensures
            final(self).wf(),
            final(self)@ == marked(
                old(self)@,
                (tx.hash.hi, tx.hash.lo),
                LocalTransactionStatus::Dropped(tx),
            ),
            statuses(final(self)@) == statuses(old(self)@).insert(
                tx.hash,
                LocalTransactionStatus::Dropped(tx),
            ),
    {
        self.mark(tx.hash, LocalTransactionStatus::Dropped(tx));
    }

    /// Mark transaction as mined.
    pub fn mark_mined(&mut self, tx: SignedTransaction)
        requires
            old(self).wf(),
        ensures
            final(self).wf(),
            final(self)@ == marked(
                old(self)@,
                (tx.hash.hi, tx.hash.lo),
                LocalTransactionStatus::Mined(tx),
            ),
            statuses(final(self)@) == statuses(old(self)@).insert(
                tx.hash,
                LocalTransactionStatus::Mined(tx),
            ),
    {
        self.mark(tx.hash, LocalTransactionStatus::Mined(tx));
    }

    /// Returns true if the transaction is already in local transactions.
    pub fn contains(&self, hash: &H256) -> (r: bool)
        ensures
            r == statuses(self@).contains_key(*hash),
    {
        linked_contains_key(&self.transactions, &(hash.hi, hash.lo))
    }

    /// Return a map of all currently stored transactions.
    pub fn all_transactions(&self) -> (r: &LinkedHashMap<
        HashWords,
        LocalTransactionStatus,
        RandomState,
    >)
        ensures
            linked_entries(*r) == self@,
    {
        &self.transactions
    }
}

} // verus!
