//! Transaction Queue
//!
//! `TransactionQueue` keeps track of all transactions seen by the node (received from other peers) and
//! own transactions and orders them by priority. Top priority transactions are those with low nonce
//! height (difference between transaction's nonce and next nonce expected from this sender). If nonces
//! are equal transaction's gas price is used for comparison (higher gas price = higher priority).
//!
//! # Maintaining valid state
//!
//! 1. Whenever transaction is imported to queue all other transactions from this sender are revalidated
//!    in current. It means that they are moved to future and back again (height recalculation & gap
//!    filling).
//! 2. Whenever invalid transaction is removed:
//!     - When it's removed from `future` - all `future` transactions heights are recalculated and then
//!       we check if the transactions should go to `current` (comparing state nonce)
//!     - When it's removed from `current` - all transactions from this sender (`current` & `future`)
//!       are recalculated.
//! 3. `remove_all` is used to inform the queue about client (state) nonce changes.
//!     - It removes all transactions (either from `current` or `future`) with nonce < client nonce
//!     - It moves matching `future` transactions to `current`
//! 4. `remove_old` is used as convenient method to update the state nonce for all senders in the queue.
//!     - Invokes `remove_all` with latest state nonce for all senders.
use crate::local_transactions::{
    latest, lemma_mark_one, lemma_remarked_again, lemma_unmarked, linked_entries, remarked, statuses,
    HashWords, LocalTransactionStatus, LocalTransactionsList,
};
use crate::order::{gas_factor, order_of, PrioritizationStrategy, TransactionOrder};
use crate::queue_effects::{takes_account, takes_estimate};
use crate::queue_laws::{
    lands, lemma_imported_is_known, lemma_pending_hashes, lemma_state_nonces_remove_old, occupied,
    refused_outright, shows,
};
use crate::queue_lemmas::{
    lemma_accepted, lemma_aged, lemma_current_limited, lemma_entered_current, lemma_entered_future,
    lemma_future_limited, lemma_home, lemma_limits_mark_nothing, lemma_marked_local, lemma_mine_one,
    lemma_none_promoted, lemma_none_retreated, lemma_penalized_for, lemma_promote_one,
    lemma_promoted_upto, lemma_readmitted, lemma_retreat_one, lemma_retreated, lemma_without,
};
use crate::queue_lists::{
    added_internal_lists, added_lists, adopted_lists, comes_back, entered_list, filled_list,
    import_lists, import_to_current_list, marked_local_lists, pending_list, promoted_list,
    promoted_upto_list, replaced_list, resorted_lists, revalidated_lists, taken_list,
    without_invalid_lists, without_old_lists, without_old_of_lists,
};
use crate::queue_marks::{
    added_internal_marks, added_marks, caught_up_marks, entered_marks, filled_marks, import_marks,
    import_to_current_marks, localized_marks, marked_local_marks, order_mark, own_mark, promoted_marks,
    promoted_upto_marks, resorted_marks, retreated_marks, revalidated_marks, taken_marks,
    without_invalid_marks, without_old_marks, without_old_of_marks,
};
use crate::queue_model::{
    added, added_internal, aged, computable, consistent, current_limited, cut_off, entered_current,
    entered_future, filled, found, fresh, has_sender, import, import_to_current, import_to_future,
    importable, indexed, listing, localized, marked_local, next_nonce, order_for, outdated,
    penalized, penalized_for, pending, place, places_of, presentable, promoted, promoted_upto,
    reheighted, resists, resorted, retreated, revalidated, run_end, screened, sends, settled, span,
    stale, struck, taken, taken_known, taken_local, too_cheap, with_hysteresis, with_limit,
    with_localized, with_replaced, with_total_gas_limit, without_invalid, without_old,
    without_old_of, QueueView,
};
use crate::removal_effects::{future_has_room, lemma_remove_old_with_room};
use crate::transaction::{
    AccountDetails, Error, SignedTransaction, TransactionError, TransactionImportResult,
    TransactionOrigin, VerifiedTransaction,
};
use crate::transaction_set::{
    accepts, entry_limit, excess, forget, highest, is_highest, is_highest_of, labelled,
    lemma_highest, lemma_lowest_exists, lemma_ranking, lowest, slot_of, tied, SetView,
    TransactionSet,
};
use crate::uint::{lemma_u256, lemma_u256_injective, range, u256, Address, H256, U256};
use crate::vec_map::{Slot, VecMap};
use linked_hash_map::LinkedHashMap;
use std::collections::hash_map::RandomState;
use vstd::prelude::*;

verus! {

/// Current status of the queue
#[derive(Debug)]
pub struct TransactionQueueStatus {
    /// Number of pending transactions (ready to go to block)
    pub pending: usize,
    /// Number of future transactions (waiting for transactions with lower nonces first)
    pub future: usize,
}

/// Transactions with `gas > gas_limit + gas_limit / GAS_LIMIT_HYSTERESIS` are not imported to the queue.
pub const GAS_LIMIT_HYSTERESIS: u64 = 10;

/// `TransactionQueue` implementation
pub struct TransactionQueue {
    /// Prioritization strategy for this queue
    pub strategy: PrioritizationStrategy,
    /// Gas Price threshold for transactions that can be imported to this queue (defaults to 0)
    pub minimal_gas_price: U256,
    /// The maximum amount of gas any individual transaction may use.
    pub tx_gas_limit: U256,
    /// Current gas limit (block gas limit * factor). Transactions above the limit will not be accepted
    /// (defaults to the largest number)
    pub gas_limit: U256,
    /// Priority queue for transactions that can go to block
    pub current: TransactionSet,
    /// Priority queue for transactions that has been received but are not yet valid to go to block
    pub future: TransactionSet,
    /// All transactions managed by queue indexed by hash
    pub by_hash: VecMap<H256, VerifiedTransaction>,
    /// Last nonce of transaction in current (to quickly check next expected transaction)
    pub last_nonces: VecMap<Address, U256>,
    /// List of local transactions and their statuses.
    pub local_transactions: LocalTransactionsList,
}

impl View for TransactionQueue {
    type V = QueueView;

    open spec fn view(&self) -> QueueView {
        QueueView {
            strategy: self.strategy,
            minimal_gas_price: self.minimal_gas_price,
            tx_gas_limit: self.tx_gas_limit,
            gas_limit: self.gas_limit,
            current: self.current@,
            future: self.future@,
            by_hash: self.by_hash@,
            last_nonces: self.last_nonces@,
            local: statuses(self.local_transactions@),
        }
    }
}

/// `after` at the places that are done, `before` elsewhere.
spec fn spliced(
    before: Map<Slot, TransactionOrder>,
    after: Map<Slot, TransactionOrder>,
    done: Set<Slot>,
) -> Map<Slot, TransactionOrder> {
    Map::new(
        |k: Slot|
            if done.contains(k) {
                after.contains_key(k)
            } else {
                before.contains_key(k)
            },
        |k: Slot|
            if done.contains(k) {
                after[k]
            } else {
                before[k]
            },
    )
}

/// The places of `sender` at the first `n` of the nonces.
spec fn visited(sender: Address, nonces: Seq<U256>, n: int) -> Set<Slot> {
    Set::new(|k: Slot| k.sender == sender && nonces.take(n).contains(k.nonce))
}

/// One more nonce is visited.
proof fn lemma_visit(sender: Address, nonces: Seq<U256>, n: int)
    requires
        0 <= n < nonces.len(),
        nonces.no_duplicates(),
    ensures
        visited(sender, nonces, n + 1) == visited(sender, nonces, n).insert(
            Slot { sender, nonce: nonces[n] },
        ),
        !visited(sender, nonces, n).contains(Slot { sender, nonce: nonces[n] }),
        nonces.contains(nonces[n]),
{
    let seen = nonces.take(n);
    assert(nonces.take(n + 1) =~= seen.push(nonces[n]));
    assert forall|x: U256| #[trigger]
        nonces.take(n + 1).contains(x) <==> seen.contains(x) || x == nonces[n] by {
        if seen.contains(x) {
            assert(nonces.take(n + 1)[seen.index_of(x)] == x);
        }
        if nonces.take(n + 1).contains(x) && x != nonces[n] {
            assert(seen[nonces.take(n + 1).index_of(x)] == x);
        }
        assert(nonces.take(n + 1)[n] == nonces[n]);
    }
    let slot = Slot { sender, nonce: nonces[n] };
    assert forall|k: Slot| visited(sender, nonces, n + 1).contains(k) <==> visited(
        sender,
        nonces,
        n,
    ).insert(slot).contains(k) by {
        assert(nonces.take(n + 1).contains(k.nonce) <==> seen.contains(k.nonce) || k.nonce
            == nonces[n]);
    }
    assert(visited(sender, nonces, n + 1) =~= visited(sender, nonces, n).insert(slot));
    if seen.contains(nonces[n]) {
        let j = seen.index_of(nonces[n]);
        assert(nonces[j] == nonces[n]);
    }
}

/// All nonces are visited.
proof fn lemma_all_visited(
    orders: Map<Slot, TransactionOrder>,
    sender: Address,
    nonces: Seq<U256>,
)
    requires
        forall|n: U256| #[trigger]
            nonces.contains(n) <==> orders.contains_key(Slot { sender, nonce: n }),
    ensures
        forall|k: Slot| #[trigger]
            visited(sender, nonces, nonces.len() as int).contains(k) <==> orders.contains_key(k)
                && k.sender == sender,
{
    assert(nonces.take(nonces.len() as int) =~= nonces);
    assert forall|k: Slot| #[trigger]
        visited(sender, nonces, nonces.len() as int).contains(k) <==> orders.contains_key(k)
            && k.sender == sender by {
        assert(k == Slot { sender: k.sender, nonce: k.nonce });
        if k.sender == sender {
            assert(nonces.contains(k.nonce) <==> orders.contains_key(Slot { sender, nonce: k.nonce }));
        }
    }
}

/// Where only one sender's places in `current` change, the last nonces of the others stay right.
proof fn lemma_others_noted(v: QueueView, orders: Map<Slot, TransactionOrder>, sender: Address)
    requires
        consistent(v),
        forall|k: Slot|
            k.sender != sender ==> (#[trigger] orders.contains_key(k)
                <==> v.current.orders.contains_key(k)),
    ensures
        forall|a: Address|
            a != sender ==> #[trigger] is_highest_of(orders.dom(), v.last_nonces, a),
{
    assert forall|a: Address| a != sender implies #[trigger] is_highest_of(
        orders.dom(),
        v.last_nonces,
        a,
    ) by {
        assert(is_highest_of(v.current.orders.dom(), v.last_nonces, a));
        assert forall|k: Slot| #[trigger] orders.dom().contains(k) && k.sender == a implies v.last_nonces.contains_key(
            a,
        ) && k.nonce@ <= v.last_nonces[a]@ by {
            assert(orders.contains_key(k));
            assert(v.current.orders.dom().contains(k));
        }
        if v.last_nonces.contains_key(a) {
            assert(orders.contains_key(Slot { sender: a, nonce: v.last_nonces[a] }));
        }
    }
}

/// Where limits drop nothing of a sender, its last nonce stays right.
proof fn lemma_rest_noted(v: QueueView)
    requires
        is_highest(v.current.orders.dom(), v.last_nonces),
    ensures
        forall|a: Address|
            !lowest(excess(v.current)).contains_key(a) ==> #[trigger] is_highest_of(
                v.current.orders.remove_keys(excess(v.current)).dom(),
                v.last_nonces,
                a,
            ),
{
    let orders = v.current.orders;
    let rest = orders.remove_keys(excess(v.current));
    lemma_lowest_exists(excess(v.current));
    assert forall|a: Address|
        !lowest(excess(v.current)).contains_key(a) implies #[trigger] is_highest_of(
        rest.dom(),
        v.last_nonces,
        a,
    ) by {
        assert(is_highest_of(orders.dom(), v.last_nonces, a));
        assert forall|k: Slot| #[trigger] rest.dom().contains(k) && k.sender == a implies v.last_nonces.contains_key(
            a,
        ) && k.nonce@ <= v.last_nonces[a]@ by {
            assert(orders.dom().contains(k));
        }
    }
}

impl TransactionQueue {
    /// The parts are well formed.
    pub open spec fn sound(&self) -> bool {
        &&& self.current.wf()
        &&& self.future.wf()
        &&& self.by_hash.wf()
        &&& self.last_nonces.wf()
        &&& self.local_transactions.wf()
    }

    /// The parts are well formed and agree with each other.
    pub open spec fn wf(&self) -> bool {
        self.sound() && consistent(self@)
    }

    /// Notes the highest nonce that the sender has in `current`.
    fn note_last_nonce(&mut self, sender: &Address)
        requires
            old(self).sound(),
            forall|a: Address|
                a != *sender ==> #[trigger] is_highest_of(
                    old(self)@.current.orders.dom(),
                    old(self)@.last_nonces,
                    a,
                ),
        ensures
            final(self).sound(),
            final(self)@ == (QueueView {
                last_nonces: highest(old(self)@.current.orders.dom()),
                ..old(self)@
            }),
            final(self).local_transactions == old(self).local_transactions,
    {
        let ghost v = self@;
        let ghost places = v.current.orders.dom();
        let last: Option<U256> = self.current.highest_nonce_of(sender);
        match last {
            Some(nonce) => {
                self.last_nonces.insert(*sender, nonce);
            },
            None => {
                self.last_nonces.remove(sender);
            },
        }
        proof {
            assert forall|a: Address| #[trigger] is_highest_of(places, self@.last_nonces, a) by {
                if a != *sender {
                    assert(is_highest_of(places, v.last_nonces, a));
                }
            }
            lemma_highest(places, self@.last_nonces);
        }
    }

    /// Update height of all transactions in future transactions set.
    fn update_future(&mut self, sender: &Address, current_nonce: U256)
        requires
            old(self).wf(),
        ensures
            final(self).wf(),
            final(self)@ == aged(old(self)@, *sender, current_nonce),
            final(self).local_transactions == old(self).local_transactions,
    {
        let ghost v = self@;
        let ghost before = v.future.orders;
        let ghost after = reheighted(before, *sender, current_nonce);
        // We need to drain all transactions for current sender from future and reinsert them with
        // updated height
        let nonces = self.future.nonces_of(sender);
        let mut i: usize = 0;
        proof {
            let none = visited(*sender, nonces@, 0);
            assert(spliced(before, after, none) =~= before);
            assert(forget(v.by_hash, before, stale(before, *sender, current_nonce).intersect(none))
                =~= v.by_hash);
        }
        while i < nonces.len()
            invariant
                i <= nonces@.len(),
                nonces@.no_duplicates(),
                forall|n: U256| #[trigger]
                    nonces@.contains(n) <==> before.contains_key(Slot { sender: *sender, nonce: n }),
                consistent(v),
                before == v.future.orders,
                after == reheighted(before, *sender, current_nonce),
                self.sound(),
                self.local_transactions == old(self).local_transactions,
                self@ == (QueueView {
                    future: SetView {
                        orders: spliced(before, after, visited(*sender, nonces@, i as int)),
                        ..v.future
                    },
                    by_hash: forget(
                        v.by_hash,
                        before,
                        stale(before, *sender, current_nonce).intersect(
                            visited(*sender, nonces@, i as int),
                        ),
                    ),
                    ..v
                }),
            decreases nonces@.len() - i,
        {
            let nonce: U256 = nonces[i];
            let ghost slot = Slot { sender: *sender, nonce };
            let ghost done = visited(*sender, nonces@, i as int);
            let ghost next = visited(*sender, nonces@, i + 1);
            let ghost orders = spliced(before, after, done);
            proof {
                lemma_visit(*sender, nonces@, i as int);
                assert(before.contains_key(slot));
            }
            let order = self.future.drop(sender, &nonce).unwrap();
            assert(order == before[slot]);
            if nonce >= current_nonce {
                let raised = order.update_height(nonce, current_nonce);
                proof {
                    lemma_accepted(orders.remove(slot), v.by_hash, slot, raised);
                    assert(spliced(before, after, next) =~= orders.remove(slot).insert(slot, raised));
                    assert(stale(before, *sender, current_nonce).intersect(next) =~= stale(
                        before,
                        *sender,
                        current_nonce,
                    ).intersect(done));
                }
                self.future.insert(*sender, nonce, raised);
            } else {
                // Remove the transaction completely
                self.by_hash.remove(&order.hash);
                proof {
                    assert(spliced(before, after, next) =~= orders.remove(slot));
                    assert(stale(before, *sender, current_nonce).intersect(next) =~= stale(
                        before,
                        *sender,
                        current_nonce,
                    ).intersect(done).insert(slot));
                    assert(forget(
                        v.by_hash,
                        before,
                        stale(before, *sender, current_nonce).intersect(next),
                    ) =~= forget(
                        v.by_hash,
                        before,
                        stale(before, *sender, current_nonce).intersect(done),
                    ).remove(order.hash));
                }
            }
            i += 1;
        }
        proof {
            let all = visited(*sender, nonces@, i as int);
            lemma_all_visited(before, *sender, nonces@);
            assert(spliced(before, after, all) =~= after);
            assert(stale(before, *sender, current_nonce).intersect(all) =~= stale(
                before,
                *sender,
                current_nonce,
            ));
            lemma_aged(v, *sender, current_nonce);
        }
    }

    /// One of two transactions that have the same place stays: the new one, unless the gas price of the
    /// old one is higher, or the same where the new one has to outbid it. The other is removed from
    /// queue entirely.
    ///
    /// Tells whether the new one stays.
    fn replace_orders(
        address: Address,
        nonce: U256,
        earlier: TransactionOrder,
        order: TransactionOrder,
        outbid: bool,
        set: &mut TransactionSet,
        by_hash: &mut VecMap<H256, VerifiedTransaction>,
        local: &mut LocalTransactionsList,
    ) -> (r: bool)
        requires
            old(set).wf(),
            old(by_hash).wf(),
            old(local).wf(),
            old(set)@.orders.contains_key(Slot { sender: address, nonce }),
            old(set)@.orders[Slot { sender: address, nonce }] == order,
            accepts(old(set)@.orders, Slot { sender: address, nonce }, earlier),
            !tied(old(set)@.orders, earlier),
            old(by_hash)@.contains_key(earlier.hash),
            old(by_hash)@.contains_key(order.hash),
            old(by_hash)@[earlier.hash].transaction.hash == earlier.hash,
            old(by_hash)@[order.hash].transaction.hash == order.hash,
        ensures
            final(set).wf(),
            final(by_hash).wf(),
            final(local).wf(),
            r == !(earlier.gas_price@ > order.gas_price@ || (outbid && earlier.gas_price@
                == order.gas_price@)),
            final(set)@ == (SetView {
                orders: old(set)@.orders.insert(
                    Slot { sender: address, nonce },
                    if r {
                        order
                    } else {
                        earlier
                    },
                ),
                ..old(set)@
            }),
            final(by_hash)@ == old(by_hash)@.remove(
                if r {
                    earlier.hash
                } else {
                    order.hash
                },
            ),
            statuses(final(local)@) == if r {
                with_replaced(
                    statuses(old(local)@),
                    old(by_hash)@[earlier.hash],
                    order.gas_price,
                    order.hash,
                )
            } else {
                with_replaced(
                    statuses(old(local)@),
                    old(by_hash)@[order.hash],
                    earlier.gas_price,
                    earlier.hash,
                )
            },
            remarked(
                old(local)@,
                final(local)@,
                own_mark(
                    if r {
                        old(by_hash)@[earlier.hash]
                    } else {
                        old(by_hash)@[order.hash]
                    },
                ),
            ),
            final(local)@ == if r {
                replaced_list(old(local)@, old(by_hash)@[earlier.hash], order.gas_price, order.hash)
            } else {
                replaced_list(old(local)@, old(by_hash)@[order.hash], earlier.gas_price, earlier.hash)
            },
    {
        let ghost list = local@;
        proof {
            lemma_unmarked(list, list);
        }
        // There was already transaction in queue. Let's check which one should stay
        if earlier.gas_price > order.gas_price || (outbid && earlier.gas_price == order.gas_price) {
            // Put back old transaction since the new one does not pay enough to replace it
            set.insert(address, nonce, earlier);
            // and remove new one
            let removed = by_hash.remove(&order.hash).unwrap();
            if removed.origin.is_local() {
                local.mark_replaced(removed.transaction, earlier.gas_price, earlier.hash);
                proof {
                    lemma_mark_one(
                        list,
                        list,
                        Set::empty(),
                        order.hash,
                        LocalTransactionStatus::Replaced(
                            removed.transaction,
                            earlier.gas_price,
                            earlier.hash,
                        ),
                    );
                }
            }
            false
        } else {
            assert(set@.orders.insert(Slot { sender: address, nonce }, order) =~= set@.orders);
            // Make sure we remove old transaction entirely
            let removed = by_hash.remove(&earlier.hash).unwrap();
            if removed.origin.is_local() {
                local.mark_replaced(removed.transaction, order.gas_price, order.hash);
                proof {
                    lemma_mark_one(
                        list,
                        list,
                        Set::empty(),
                        earlier.hash,
                        LocalTransactionStatus::Replaced(
                            removed.transaction,
                            order.gas_price,
                            order.hash,
                        ),
                    );
                }
            }
            true
        }
    }

    /// Puts an order at its place. Where there is one already, one of the two stays.
    ///
    /// Tells whether the new one stays.
    fn put(
        address: Address,
        nonce: U256,
        order: TransactionOrder,
        outbid: bool,
        set: &mut TransactionSet,
        by_hash: &mut VecMap<H256, VerifiedTransaction>,
        local: &mut LocalTransactionsList,
    ) -> (r: bool)
        requires
            old(set).wf(),
            old(by_hash).wf(),
            old(local).wf(),
            indexed(old(set)@.orders, old(by_hash)@, order.strategy),
            old(by_hash)@.contains_key(order.hash),
            old(by_hash)@[order.hash].transaction.hash == order.hash,
            old(by_hash)@[order.hash].transaction.signer is Some,
            slot_of(old(by_hash)@[order.hash]) == (Slot { sender: address, nonce }),
            old(set)@.orders.contains_key(Slot { sender: address, nonce })
                ==> old(set)@.orders[Slot { sender: address, nonce }].hash != order.hash,
        ensures
            final(set).wf(),
            final(by_hash).wf(),
            final(local).wf(),
            r == !resists(old(set)@.orders, Slot { sender: address, nonce }, order, outbid),
            final(set)@ == (SetView {
                orders: taken(old(set)@.orders, Slot { sender: address, nonce }, order, outbid),
                ..old(set)@
            }),
            final(by_hash)@ == taken_known(
                old(by_hash)@,
                old(set)@.orders,
                Slot { sender: address, nonce },
                order,
                outbid,
            ),
            statuses(final(local)@) == taken_local(
                statuses(old(local)@),
                old(by_hash)@,
                old(set)@.orders,
                Slot { sender: address, nonce },
                order,
                outbid,
            ),
            remarked(
                old(local)@,
                final(local)@,
                taken_marks(
                    old(by_hash)@,
                    old(set)@.orders,
                    Slot { sender: address, nonce },
                    order,
                    outbid,
                ),
            ),
            final(local)@ == taken_list(
                old(local)@,
                old(by_hash)@,
                old(set)@.orders,
                Slot { sender: address, nonce },
                order,
                outbid,
            ),
    {
        let ghost slot = Slot { sender: address, nonce };
        let ghost orders = set@.orders;
        proof {
            lemma_accepted(orders, by_hash@, slot, order);
            lemma_unmarked(local@, local@);
        }
        if let Some(earlier) = set.insert(address, nonce, order) {
            proof {
                lemma_accepted(set@.orders, by_hash@, slot, earlier);
                assert(orders.insert(slot, order).insert(slot, earlier) =~= orders);
            }
            Self::replace_orders(address, nonce, earlier, order, outbid, set, by_hash, local)
        } else {
            true
        }
    }

    /// Drop all transactions from given sender from `current`.
    /// Either moves them to `future` or removes them from queue completely.
    fn move_all_to_future(&mut self, sender: &Address, current_nonce: U256)
        requires
            old(self).wf(),
        ensures
            final(self).wf(),
            final(self)@ == retreated(
                old(self)@,
                places_of(old(self)@.current.orders, *sender),
                current_nonce,
            ),
            remarked(
                old(self).local_transactions@,
                final(self).local_transactions@,
                retreated_marks(
                    old(self)@,
                    places_of(old(self)@.current.orders, *sender),
                    current_nonce,
                ),
            ),
    {
        let ghost v = self@;
        let ghost list = self.local_transactions@;
        let nonces = self.current.nonces_of(sender);
        let mut i: usize = 0;
        proof {
            lemma_none_retreated(v, visited(*sender, nonces@, 0), current_nonce);
            lemma_unmarked(list, list);
        }
        while i < nonces.len()
            invariant
                i <= nonces@.len(),
                nonces@.no_duplicates(),
                forall|n: U256| #[trigger]
                    nonces@.contains(n) <==> v.current.orders.contains_key(
                        Slot { sender: *sender, nonce: n },
                    ),
                consistent(v),
                self.sound(),
                self@ == (QueueView {
                    last_nonces: v.last_nonces,
                    ..retreated(v, visited(*sender, nonces@, i as int), current_nonce)
                }),
                remarked(
                    list,
                    self.local_transactions@,
                    retreated_marks(v, visited(*sender, nonces@, i as int), current_nonce),
                ),
            decreases nonces@.len() - i,
        {
            let nonce: U256 = nonces[i];
            let ghost slot = Slot { sender: *sender, nonce };
            let ghost done = visited(*sender, nonces@, i as int);
            let ghost next = visited(*sender, nonces@, i + 1);
            proof {
                lemma_visit(*sender, nonces@, i as int);
                assert(v.current.orders.contains_key(slot));
                lemma_retreated(v, done, current_nonce);
                assert(v.current.orders.remove_keys(next) =~= v.current.orders.remove_keys(
                    done,
                ).remove(slot));
            }
            let ghost marks = retreated_marks(v, done, current_nonce);
            let ghost now = self.local_transactions@;
            // Goes to future or is removed
            let order = self.current.drop(sender, &nonce).unwrap();
            assert(order == v.current.orders[slot]);
            if nonce >= current_nonce {
                let order = order.update_height(nonce, current_nonce);
                proof {
                    lemma_retreat_one(v, done, slot, current_nonce);
                }
                if order.origin.is_local() {
                    self.local_transactions.mark_future(order.hash);
                    proof {
                        lemma_mark_one(list, now, marks, order.hash, LocalTransactionStatus::Future);
                    }
                }
                let ghost noted = self.local_transactions@;
                assert(marks.union(order_mark(order)) =~= if order.origin
                    == TransactionOrigin::Local {
                    marks.insert(order.hash)
                } else {
                    marks
                });
                Self::put(
                    *sender,
                    nonce,
                    order,
                    false,
                    &mut self.future,
                    &mut self.by_hash,
                    &mut self.local_transactions,
                );
                proof {
                    let before = retreated(v, done, current_nonce);
                    lemma_remarked_again(
                        list,
                        noted,
                        self.local_transactions@,
                        marks.union(order_mark(order)),
                        taken_marks(before.by_hash, before.future.orders, slot, order, false),
                    );
                }
            } else {
                proof {
                    lemma_mine_one(v, done, slot, current_nonce);
                }
                let tx = self.by_hash.remove(&order.hash).unwrap();
                if tx.origin.is_local() {
                    self.local_transactions.mark_mined(tx.transaction);
                    proof {
                        lemma_mark_one(
                            list,
                            now,
                            marks,
                            tx.transaction.hash,
                            LocalTransactionStatus::Mined(tx.transaction),
                        );
                    }
                }
                assert(marks.union(own_mark(tx)) =~= if tx.origin == TransactionOrigin::Local {
                    marks.insert(tx.transaction.hash)
                } else {
                    marks
                });
            }
            i += 1;
        }
        proof {
            lemma_all_visited(v.current.orders, *sender, nonces@);
            assert(visited(*sender, nonces@, i as int) =~= places_of(v.current.orders, *sender));
            lemma_retreated(v, visited(*sender, nonces@, i as int), current_nonce);
            lemma_others_noted(v, self@.current.orders, *sender);
        }
        self.note_last_nonce(sender);
    }

    /// Checks if there are any transactions in `future` that should actually be promoted to `current`
    /// (because nonce matches).
    fn move_matching_future_to_current(
        &mut self,
        address: Address,
        current_nonce: U256,
        first_nonce: U256,
    )
        requires
            old(self).wf(),
            first_nonce@ <= current_nonce@,
        ensures
            final(self).wf(),
            final(self)@ == promoted(old(self)@, address, current_nonce@, first_nonce),
            remarked(
                old(self).local_transactions@,
                final(self).local_transactions@,
                promoted_marks(old(self)@, address, current_nonce@, first_nonce),
            ),
            final(self).local_transactions@ == promoted_list(
                old(self).local_transactions@,
                old(self)@,
                address,
                current_nonce@,
                first_nonce,
            ),
    {
        let ghost v = self@;
        let ghost list = self.local_transactions@;
        let ghost from = current_nonce@;
        let ghost mut end: nat = from;
        let mut nonce: U256 = current_nonce;
        let mut more: bool = true;
        proof {
            lemma_none_promoted(v, address, from, first_nonce);
            lemma_unmarked(list, list);
        }
        while more
            invariant
                consistent(v),
                first_nonce@ <= from <= end <= range(),
                self.sound(),
                self@ == (QueueView {
                    last_nonces: v.last_nonces,
                    ..promoted_upto(v, address, from, first_nonce, end)
                }),
                remarked(
                    list,
                    self.local_transactions@,
                    promoted_upto_marks(v, address, from, first_nonce, end),
                ),
                self.local_transactions@ == promoted_upto_list(
                    list,
                    v,
                    address,
                    from,
                    first_nonce,
                    end,
                ),
                run_end(v.future.orders, address, from) == run_end(v.future.orders, address, end),
                more ==> nonce@ == end,
                !more ==> run_end(v.future.orders, address, end) == end,
            decreases range() - end, if more { 1int } else { 0 },
        {
            let ghost slot = Slot { sender: address, nonce };
            proof {
                lemma_u256(end);
                lemma_u256_injective(u256(end), nonce);
                assert(place(address, end) == slot);
                assert(!span(address, from, end).contains(slot));
                lemma_promoted_upto(v, address, from, first_nonce, end);
            }
            match self.future.drop(&address, &nonce) {
                None => {
                    assert(!v.future.orders.contains_key(slot));
                    assert(self@.future.orders.remove(slot) =~= self@.future.orders);
                    more = false;
                },
                Some(order) => {
                    // Put to current
                    let order = order.update_height(nonce, first_nonce);
                    let ghost marks = promoted_upto_marks(v, address, from, first_nonce, end);
                    let ghost now = self.local_transactions@;
                    proof {
                        lemma_promote_one(v, address, from, first_nonce, end);
                    }
                    if order.origin.is_local() {
                        self.local_transactions.mark_pending(order.hash);
                        proof {
                            lemma_mark_one(
                                list,
                                now,
                                marks,
                                order.hash,
                                LocalTransactionStatus::Pending,
                            );
                        }
                    }
                    let ghost noted = self.local_transactions@;
                    assert(noted == pending_list(now, order));
                    assert(marks.union(order_mark(order)) =~= if order.origin
                        == TransactionOrigin::Local {
                        marks.insert(order.hash)
                    } else {
                        marks
                    });
                    Self::put(
                        address,
                        nonce,
                        order,
                        false,
                        &mut self.current,
                        &mut self.by_hash,
                        &mut self.local_transactions,
                    );
                    proof {
                        let before = promoted_upto(v, address, from, first_nonce, end);
                        lemma_remarked_again(
                            list,
                            noted,
                            self.local_transactions@,
                            marks.union(order_mark(order)),
                            taken_marks(before.by_hash, before.current.orders, slot, order, false),
                        );
                        end = end + 1;
                    }
                    if nonce == U256::max_value() {
                        more = false;
                    } else {
                        nonce = nonce.plus(U256::one());
                    }
                },
            }
        }
        proof {
            lemma_promoted_upto(v, address, from, first_nonce, end);
        }
        proof {
            lemma_others_noted(v, self@.current.orders, address);
        }
        // Update last inserted nonce
        self.note_last_nonce(&address);
    }

    /// Marks all transactions of the sender in the set as local.
    fn mark_local(
        sender: &Address,
        set: &mut TransactionSet,
        local: &mut LocalTransactionsList,
        pending: bool,
        Ghost(known): Ghost<Map<H256, VerifiedTransaction>>,
    )
        requires
            old(set).wf(),
            old(local).wf(),
            labelled(old(set)@.orders, known),
        ensures
            final(set).wf(),
            final(local).wf(),
            final(set)@ == (SetView {
                orders: localized(
                    old(set)@.orders,
                    places_of(old(set)@.orders, *sender),
                ),
                ..old(set)@
            }),
            statuses(final(local)@) == with_localized(
                statuses(old(local)@),
                known,
                old(set)@.orders,
                places_of(old(set)@.orders, *sender),
                if pending {
                    LocalTransactionStatus::Pending
                } else {
                    LocalTransactionStatus::Future
                },
            ),
            remarked(
                old(local)@,
                final(local)@,
                localized_marks(
                    known,
                    old(set)@.orders,
                    places_of(old(set)@.orders, *sender),
                ),
            ),
    {
        let ghost list = local@;
        let ghost before = set@.orders;
        let ghost marks = statuses(local@);
        let ghost status = if pending {
            LocalTransactionStatus::Pending
        } else {
            LocalTransactionStatus::Future
        };
        let nonces = set.nonces_of(sender);
        let mut i: usize = 0;
        proof {
            let none = visited(*sender, nonces@, 0);
            assert(localized(before, none) =~= before);
            assert(with_localized(marks, known, before, none, status) =~= marks);
            assert(localized_marks(known, before, none) =~= Set::empty());
            lemma_unmarked(list, list);
        }
        while i < nonces.len()
            invariant
                i <= nonces@.len(),
                nonces@.no_duplicates(),
                forall|n: U256| #[trigger]
                    nonces@.contains(n) <==> before.contains_key(Slot { sender: *sender, nonce: n }),
                labelled(before, known),
                status == (if pending {
                    LocalTransactionStatus::Pending
                } else {
                    LocalTransactionStatus::Future
                }),
                set.wf(),
                local.wf(),
                set@ == (SetView {
                    orders: localized(before, visited(*sender, nonces@, i as int)),
                    ..old(set)@
                }),
                statuses(local@) == with_localized(
                    marks,
                    known,
                    before,
                    visited(*sender, nonces@, i as int),
                    status,
                ),
                remarked(
                    list,
                    local@,
                    localized_marks(known, before, visited(*sender, nonces@, i as int)),
                ),
            decreases nonces@.len() - i,
        {
            let nonce: U256 = nonces[i];
            let ghost slot = Slot { sender: *sender, nonce };
            let ghost done = visited(*sender, nonces@, i as int);
            let ghost next = visited(*sender, nonces@, i + 1);
            let ghost orders = set@.orders;
            proof {
                lemma_visit(*sender, nonces@, i as int);
                assert(before.contains_key(slot));
            }
            let mut order = set.drop(sender, &nonce).unwrap();
            let ghost now = local@;
            let ghost origin = order.origin;
            if !order.origin.is_local() {
                proof {
                    lemma_mark_one(
                        list,
                        now,
                        localized_marks(known, before, done),
                        order.hash,
                        status,
                    );
                }
                local.mark(
                    order.hash,
                    if pending {
                        LocalTransactionStatus::Pending
                    } else {
                        LocalTransactionStatus::Future
                    },
                );
                order.origin = TransactionOrigin::Local;
            }
            proof {
                lemma_readmitted(orders, slot, order);
                assert(localized(before, next) =~= orders.remove(slot).insert(slot, order));
                assert(statuses(local@) =~= with_localized(marks, known, before, next, status));
                assert(localized_marks(known, before, next) =~= if origin != TransactionOrigin::Local {
                    localized_marks(known, before, done).insert(order.hash)
                } else {
                    localized_marks(known, before, done)
                });
            }
            set.insert(*sender, nonce, order);
            i += 1;
        }
        proof {
            lemma_all_visited(before, *sender, nonces@);
            assert(visited(*sender, nonces@, i as int) =~= places_of(before, *sender));
        }
    }

    /// Marks all transactions from particular sender as local transactions
    fn mark_transactions_local(&mut self, sender: &Address)
        requires
            old(self).wf(),
        ensures
            final(self).wf(),
            final(self)@ == marked_local(old(self)@, *sender),
            remarked(
                old(self).local_transactions@,
                final(self).local_transactions@,
                marked_local_marks(old(self)@, *sender),
            ),
            marked_local_lists(
                old(self)@,
                *sender,
                old(self).local_transactions@,
                final(self).local_transactions@,
            ),
    {
        let ghost v = self@;
        let ghost list = self.local_transactions@;
        proof {
            lemma_marked_local(v, *sender);
        }
        Self::mark_local(
            sender,
            &mut self.current,
            &mut self.local_transactions,
            true,
            Ghost(v.by_hash),
        );
        let ghost now = self.local_transactions@;
        Self::mark_local(
            sender,
            &mut self.future,
            &mut self.local_transactions,
            false,
            Ghost(v.by_hash),
        );
        proof {
            lemma_remarked_again(
                list,
                now,
                self.local_transactions@,
                localized_marks(
                    v.by_hash,
                    v.current.orders,
                    places_of(v.current.orders, *sender),
                ),
                localized_marks(v.by_hash, v.future.orders, places_of(v.future.orders, *sender)),
            );
        }
    }

    /// Gives all transactions of the sender in the set one more penalty.
    fn penalize_sender(sender: &Address, set: &mut TransactionSet)
        requires
            old(set).wf(),
        ensures
            final(set).wf(),
            final(set)@ == (SetView {
                orders: penalized(
                    old(set)@.orders,
                    places_of(old(set)@.orders, *sender),
                ),
                ..old(set)@
            }),
    {
        let ghost before = set@.orders;
        let nonces = set.nonces_of(sender);
        let mut i: usize = 0;
        assert(penalized(before, visited(*sender, nonces@, 0)) =~= before);
        while i < nonces.len()
            invariant
                i <= nonces@.len(),
                nonces@.no_duplicates(),
                forall|n: U256| #[trigger]
                    nonces@.contains(n) <==> before.contains_key(Slot { sender: *sender, nonce: n }),
                set.wf(),
                set@ == (SetView {
                    orders: penalized(before, visited(*sender, nonces@, i as int)),
                    ..old(set)@
                }),
            decreases nonces@.len() - i,
        {
            let nonce: U256 = nonces[i];
            let ghost slot = Slot { sender: *sender, nonce };
            let ghost next = visited(*sender, nonces@, i + 1);
            let ghost orders = set@.orders;
            proof {
                lemma_visit(*sender, nonces@, i as int);
                assert(before.contains_key(slot));
            }
            let order = set.drop(sender, &nonce).unwrap().penalize();
            proof {
                lemma_readmitted(orders, slot, order);
                assert(penalized(before, next) =~= orders.remove(slot).insert(slot, order));
            }
            set.insert(*sender, nonce, order);
            i += 1;
        }
        proof {
            lemma_all_visited(before, *sender, nonces@);
            assert(visited(*sender, nonces@, i as int) =~= places_of(before, *sender));
        }
    }

    /// Whether a known transaction is local, or has become so.
    fn is_marked_local(&self, transaction_hash: &H256, transaction: &VerifiedTransaction) -> (r: bool)
        requires
            self.wf(),
            self@.by_hash.contains_key(*transaction_hash),
            self@.by_hash[*transaction_hash] == *transaction,
        ensures
            r == (order_for(self@, *transaction_hash).origin == TransactionOrigin::Local),
    {
        let slot = Slot { sender: transaction.sender(), nonce: transaction.nonce() };
        proof {
            lemma_home(self@, *transaction_hash);
        }
        match self.current.by_address.get(&slot) {
            Some(order) => if order.hash == *transaction_hash {
                return order.origin.is_local();
            },
            None => {},
        }
        self.future.by_address.get(&slot).unwrap().origin.is_local()
    }

    /// Penalize transactions from sender of transaction with given hash.
    /// I.e. it should change the priority of the transaction in the queue.
    ///
    /// NOTE: We need to penalize all transactions from particular sender
    /// to avoid breaking invariants in queue (ordered by nonces).
    /// Consecutive transactions from this sender would fail otherwise (because of invalid nonce).
    pub fn penalize(&mut self, transaction_hash: &H256)
        requires
            old(self).wf(),
        ensures
            final(self).wf(),
            final(self)@ == penalized_for(old(self)@, *transaction_hash),
            final(self).local_transactions@ == old(self).local_transactions@,
    {
        proof {
            lemma_penalized_for(self@, *transaction_hash);
        }
        let transaction = match self.by_hash.get(transaction_hash) {
            None => {
                return;
            },
            Some(t) => t,
        };
        let sender: Address = transaction.sender();
        // Never penalize local transactions
        if self.is_marked_local(transaction_hash, &transaction) {
            return;
        }
        // Penalize all transactions from this sender
        Self::penalize_sender(&sender, &mut self.current);
        // Same thing for future
        Self::penalize_sender(&sender, &mut self.future);
    }

    /// Replaces transaction in given set (could be `future` or `current`).
    ///
    /// If there is already transaction with same `(sender, nonce)` it will be replaced iff `gas_price`
    /// is higher. One of the transactions is dropped from set and also removed from queue entirely
    /// (from `by_hash`).
    ///
    /// Returns `true` if transaction actually got to the queue (`false` if there was already a
    /// transaction whose gas_price is as high)
    fn replace_transaction(
        tx: VerifiedTransaction,
        base_nonce: U256,
        min_gas_price: (U256, PrioritizationStrategy),
        set: &mut TransactionSet,
        by_hash: &mut VecMap<H256, VerifiedTransaction>,
        local: &mut LocalTransactionsList,
    ) -> (r: bool)
        requires
            old(set).wf(),
            old(by_hash).wf(),
            old(local).wf(),
            indexed(old(set)@.orders, old(by_hash)@, min_gas_price.1),
            !old(by_hash)@.contains_key(tx.transaction.hash),
            tx.transaction.signer is Some,
            base_nonce@ <= tx.transaction.nonce@,
            gas_factor(tx.transaction.gas, min_gas_price.0) < range(),
        ensures
            final(set).wf(),
            final(by_hash).wf(),
            final(local).wf(),
            ({
                let order = order_of(tx, base_nonce, min_gas_price.0, min_gas_price.1);
                let known = old(by_hash)@.insert(tx.transaction.hash, tx);
                &&& r == !resists(old(set)@.orders, slot_of(tx), order, true)
                &&& final(set)@ == (SetView {
                    orders: taken(old(set)@.orders, slot_of(tx), order, true),
                    ..old(set)@
                })
                &&& final(by_hash)@ == taken_known(known, old(set)@.orders, slot_of(tx), order, true)
                &&& statuses(final(local)@) == taken_local(
                    statuses(old(local)@),
                    known,
                    old(set)@.orders,
                    slot_of(tx),
                    order,
                    true,
                )
                &&& remarked(
                    old(local)@,
                    final(local)@,
                    taken_marks(known, old(set)@.orders, slot_of(tx), order, true),
                )
                &&& final(local)@ == taken_list(
                    old(local)@,
                    known,
                    old(set)@.orders,
                    slot_of(tx),
                    order,
                    true,
                )
            }),
    {
        let order = TransactionOrder::for_transaction(
            &tx,
            base_nonce,
            min_gas_price.0,
            min_gas_price.1,
        );
        by_hash.insert(tx.hash(), tx);
        Self::put(tx.sender(), tx.nonce(), order, true, set, by_hash, local)
    }

    /// Updates the last nonces of senders from whom transactions were removed because of limit.
    fn update_last_nonces(&mut self, removed_min_nonces: &Option<VecMap<Address, U256>>)
        requires
            old(self).sound(),
            removed_min_nonces matches Some(m) && m.wf() && forall|a: Address|
                !m@.contains_key(a) ==> #[trigger] is_highest_of(
                    old(self)@.current.orders.dom(),
                    old(self)@.last_nonces,
                    a,
                ),
        ensures
            final(self).sound(),
            final(self)@ == (QueueView {
                last_nonces: highest(old(self)@.current.orders.dom()),
                ..old(self)@
            }),
            final(self).local_transactions == old(self).local_transactions,
    {
        let ghost v = self@;
        let ghost places = v.current.orders.dom();
        if let Some(min_nonces) = removed_min_nonces {
            let senders = min_nonces.keys();
            let mut i: usize = 0;
            while i < senders.len()
                invariant
                    i <= senders@.len(),
                    forall|a: Address| #[trigger] senders@.contains(a) <==> min_nonces@.contains_key(a),
                    places == v.current.orders.dom(),
                    self.sound(),
                    self.local_transactions == old(self).local_transactions,
                    self@ == (QueueView { last_nonces: self@.last_nonces, ..v }),
                    forall|a: Address| #[trigger]
                        is_highest_of(places, self@.last_nonces, a) || (min_nonces@.contains_key(a)
                            && forall|j: int| 0 <= j < i ==> #[trigger] senders@[j] != a),
                decreases senders@.len() - i,
            {
                let sender: Address = senders[i];
                let ghost last_nonces = self@.last_nonces;
                match self.current.highest_nonce_of(&sender) {
                    Some(nonce) => {
                        self.last_nonces.insert(sender, nonce);
                    },
                    None => {
                        self.last_nonces.remove(&sender);
                    },
                }
                proof {
                    assert forall|a: Address| #[trigger]
                        is_highest_of(places, self@.last_nonces, a) || (min_nonces@.contains_key(a)
                            && forall|j: int| 0 <= j < i + 1 ==> #[trigger] senders@[j] != a) by {
                        if a != sender {
                            assert(is_highest_of(places, last_nonces, a) || (min_nonces@.contains_key(a)
                                && forall|j: int| 0 <= j < i ==> #[trigger] senders@[j] != a));
                        }
                    }
                }
                i += 1;
            }
            proof {
                assert forall|a: Address| #[trigger] is_highest_of(places, self@.last_nonces, a) by {
                    if min_nonces@.contains_key(a) {
                        assert(senders@.contains(a));
                        assert(senders@[senders@.index_of(a)] == a);
                    }
                }
                lemma_highest(places, self@.last_nonces);
            }
        }
    }

    /// Adds VerifiedTransaction to this queue.
    ///
    /// Determines if it should be placed in current or future. When transaction is
    /// imported to `current` also checks if there are any `future` transactions that should be promoted
    /// because of this.
    ///
    /// It ignores transactions that has already been imported (same `hash`) and replaces the transaction
    /// iff `(address, nonce)` is the same but `gas_price` is higher.
    #[verifier::rlimit(50)]
    pub fn import_tx(&mut self, tx: VerifiedTransaction, state_nonce: U256) -> (r: Result<
        TransactionImportResult,
        TransactionError,
    >)
        requires
            old(self).wf(),
            tx.transaction.signer is Some,
            importable(old(self)@, tx, state_nonce),
        ensures
            final(self).wf(),
            (final(self)@, r) == import(old(self)@, tx, state_nonce),
            remarked(
                old(self).local_transactions@,
                final(self).local_transactions@,
                import_marks(old(self)@, tx, state_nonce),
            ),
            import_lists(
                old(self)@,
                tx,
                state_nonce,
                old(self).local_transactions@,
                final(self).local_transactions@,
            ),
            lands(final(self)@, tx, r),
            shows(final(self)@, tx, r),
            match r {
                Ok(_) | Err(TransactionError::TooCheapToReplace) | Err(
                    TransactionError::LimitReached,
                ) => true,
                Err(_) => final(self).local_transactions@ == old(self).local_transactions@,
            },
    {
        let ghost list = self.local_transactions@;
        proof {
            reveal(import);
            reveal(import_marks);
            reveal(import_lists);
            lemma_unmarked(list, list);
            lemma_imported_is_known(self@, tx, state_nonce);
        }
        let ghost v = self@;
        if self.by_hash.contains_key(&tx.hash()) {
            // Transaction is already imported.
            proof {
                lemma_pending_hashes(*self, tx.transaction.hash);
            }
            return Err(TransactionError::AlreadyImported);
        }
        let address: Address = tx.sender();
        let nonce: U256 = tx.nonce();
        // The transaction might be old, let's check that.
        // This has to be the first test, otherwise calculating
        // nonce height would result in overflow.
        if nonce < state_nonce {
            // Droping transaction
            return Err(TransactionError::Old);
        }
        // Revalidate the other transactions of the sender
        self.revalidate(&address, state_nonce);
        // Check the next expected nonce (might be updated by move above)
        let gap: bool = self.leaves_gap(&address, nonce, state_nonce);
        let ghost ready = self@;
        let ghost fresh_list = self.local_transactions@;
        let ghost marks = revalidated_marks(v, address, state_nonce);
        let ghost mut own: Set<H256> = Set::empty();
        proof {
            lemma_unmarked(fresh_list, fresh_list);
        }
        if tx.origin.is_local() {
            self.mark_transactions_local(&address);
            proof {
                own = marked_local_marks(ready, address);
            }
        }
        let ghost marked = self@;
        let ghost now = self.local_transactions@;
        proof {
            lemma_remarked_again(list, fresh_list, now, marks, own);
            assert(revalidated_lists(v, address, state_nonce, list, fresh_list));
            assert(adopted_lists(ready, tx, fresh_list, now));
        }
        // Future transaction

        if gap {
            let r = self.import_to_future(tx, state_nonce);
            proof {
                lemma_remarked_again(
                    list,
                    now,
                    self.local_transactions@,
                    marks.union(own),
                    entered_marks(marked, marked.future.orders, tx, state_nonce),
                );
                lemma_pending_hashes(*self, tx.transaction.hash);
            }
            r
        } else {
            let r = self.import_to_current(tx, state_nonce);
            proof {
                lemma_remarked_again(
                    list,
                    now,
                    self.local_transactions@,
                    marks.union(own),
                    import_to_current_marks(marked, tx, state_nonce),
                );
                lemma_pending_hashes(*self, tx.transaction.hash);
            }
            r
        }
    }

    /// Revalidates the transactions of the sender as of the state nonce.
    fn revalidate(&mut self, sender: &Address, state_nonce: U256)
        requires
            old(self).wf(),
        ensures
            final(self).wf(),
            final(self)@ == revalidated(old(self)@, *sender, state_nonce),
            remarked(
                old(self).local_transactions@,
                final(self).local_transactions@,
                revalidated_marks(old(self)@, *sender, state_nonce),
            ),
            revalidated_lists(
                old(self)@,
                *sender,
                state_nonce,
                old(self).local_transactions@,
                final(self).local_transactions@,
            ),
    {
        let ghost list = self.local_transactions@;
        proof {
            lemma_unmarked(list, list);
        }
        // Update nonces of transactions in future (remove old transactions)
        self.update_future(sender, state_nonce);
        // State nonce could be updated. Unless nothing has moved, all go to future and back again.
        if !self.is_settled(sender, state_nonce) {
            let ghost young = self@;
            self.move_all_to_future(sender, state_nonce);
            let ghost moved = self@;
            let ghost now = self.local_transactions@;
            self.move_matching_future_to_current(*sender, state_nonce, state_nonce);
            proof {
                lemma_remarked_again(
                    list,
                    now,
                    self.local_transactions@,
                    retreated_marks(young, places_of(young.current.orders, *sender), state_nonce),
                    promoted_marks(moved, *sender, state_nonce@, state_nonce),
                );
                assert(comes_back(
                    young,
                    moved,
                    *sender,
                    state_nonce,
                    list,
                    self.local_transactions@,
                ));
            }
        }
    }

    /// The first nonce from the state nonce up at which the sender has nothing in current, if there is
    /// one.
    fn end_of_run(&self, sender: &Address, state_nonce: U256) -> (r: Option<U256>)
        requires
            self.current.wf(),
        ensures
            match r {
                Some(end) => end@ == run_end(self@.current.orders, *sender, state_nonce@),
                None => range() == run_end(self@.current.orders, *sender, state_nonce@),
            },
    {
        let mut slot: Slot = Slot { sender: *sender, nonce: state_nonce };
        while self.current.by_address.contains_key(&slot)
            invariant
                self.current.wf(),
                slot.sender == *sender,
                run_end(self@.current.orders, *sender, slot.nonce@) == run_end(
                    self@.current.orders,
                    *sender,
                    state_nonce@,
                ),
            decreases range() - slot.nonce@,
        {
            proof {
                lemma_u256(slot.nonce@);
                lemma_u256_injective(u256(slot.nonce@), slot.nonce);
                assert(place(*sender, slot.nonce@) == slot);
            }
            if slot.nonce == U256::max_value() {
                assert(run_end(self@.current.orders, *sender, range()) == range());
                return None;
            }
            slot = Slot { sender: *sender, nonce: slot.nonce.plus(U256::one()) };
        }
        proof {
            lemma_u256(slot.nonce@);
            lemma_u256_injective(u256(slot.nonce@), slot.nonce);
            assert(place(*sender, slot.nonce@) == slot);
        }
        Some(slot.nonce)
    }

    /// Whether what the sender has is settled as of the state nonce.
    fn is_settled(&self, sender: &Address, state_nonce: U256) -> (r: bool)
        requires
            self.wf(),
        ensures
            r == settled(self@, *sender, state_nonce),
    {
        let end: Option<U256> = self.end_of_run(sender, state_nonce);
        let ghost bound = run_end(self@.current.orders, *sender, state_nonce@);
        let nonces = self.current.nonces_of(sender);
        let mut i: usize = 0;
        while i < nonces.len()
            invariant
                i <= nonces@.len(),
                self.wf(),
                bound == run_end(self@.current.orders, *sender, state_nonce@),
                match end {
                    Some(e) => e@ == bound,
                    None => range() == bound,
                },
                forall|n: U256| #[trigger]
                    nonces@.contains(n) <==> self@.current.orders.contains_key(
                        Slot { sender: *sender, nonce: n },
                    ),
                forall|j: int|
                    0 <= j < i ==> state_nonce@ <= (#[trigger] nonces@[j])@ < bound
                        && self@.current.orders[Slot { sender: *sender, nonce: nonces@[j] }].nonce_height@
                        == nonces@[j]@ - state_nonce@,
            decreases nonces@.len() - i,
        {
            let nonce: U256 = nonces[i];
            let slot = Slot { sender: *sender, nonce };
            assert(nonces@.contains(nonce));
            assert(self@.current.orders.contains_key(slot));
            let order = self.current.by_address.get(&slot).unwrap();
            let inside: bool = match end {
                Some(end) => nonce < end,
                None => true,
            };
            if nonce < state_nonce || !inside {
                return false;
            }
            let height: U256 = nonce.minus(state_nonce);
            if order.nonce_height < height || order.nonce_height > height {
                return false;
            }
            i += 1;
        }
        let waiting = self.future.nonces_of(sender);
        let mut j: usize = 0;
        while j < waiting.len()
            invariant
                j <= waiting@.len(),
                self.wf(),
                bound == run_end(self@.current.orders, *sender, state_nonce@),
                match end {
                    Some(e) => e@ == bound,
                    None => range() == bound,
                },
                forall|n: U256| #[trigger]
                    waiting@.contains(n) <==> self@.future.orders.contains_key(
                        Slot { sender: *sender, nonce: n },
                    ),
                forall|l: int| 0 <= l < j ==> (#[trigger] waiting@[l])@ > bound,
            decreases waiting@.len() - j,
        {
            let nonce: U256 = waiting[j];
            assert(waiting@.contains(nonce));
            assert(self@.future.orders.contains_key(Slot { sender: *sender, nonce }));
            let beyond: bool = match end {
                Some(end) => nonce > end,
                None => false,
            };
            if !beyond {
                return false;
            }
            j += 1;
        }
        proof {
            assert forall|k: Slot| #[trigger]
                self@.current.orders.contains_key(k) && k.sender == *sender implies state_nonce@
                <= k.nonce@ < bound && self@.current.orders[k].nonce_height@ == k.nonce@ - state_nonce@ by {
                assert(k == Slot { sender: *sender, nonce: k.nonce });
                assert(nonces@.contains(k.nonce));
                assert(nonces@[nonces@.index_of(k.nonce)] == k.nonce);
            }
            assert forall|k: Slot| #[trigger]
                self@.future.orders.contains_key(k) && k.sender == *sender implies k.nonce@ > bound by {
                assert(k == Slot { sender: *sender, nonce: k.nonce });
                assert(waiting@.contains(k.nonce));
                assert(waiting@[waiting@.index_of(k.nonce)] == k.nonce);
            }
        }
        true
    }

    /// Whether the nonce is above the next one of the sender in current.
    fn leaves_gap(&self, address: &Address, nonce: U256, state_nonce: U256) -> (r: bool)
        requires
            self.last_nonces.wf(),
        ensures
            r == (nonce@ > next_nonce(self@, *address, state_nonce)),
    {
        match self.last_nonces.get(address) {
            Some(n) => n < nonce && nonce.minus(n) > U256::one(),
            None => nonce > state_nonce,
        }
    }

    /// Puts a transaction to future, because there is a gap before it.
    fn import_to_future(&mut self, tx: VerifiedTransaction, state_nonce: U256) -> (r: Result<
        TransactionImportResult,
        TransactionError,
    >)
        requires
            old(self).wf(),
            tx.transaction.signer is Some,
            !old(self)@.by_hash.contains_key(tx.transaction.hash),
            state_nonce@ <= tx.transaction.nonce@,
            gas_factor(tx.transaction.gas, old(self)@.minimal_gas_price) < range(),
        ensures
            final(self).wf(),
            (final(self)@, r) == import_to_future(old(self)@, tx, state_nonce),
            remarked(
                old(self).local_transactions@,
                final(self).local_transactions@,
                entered_marks(old(self)@, old(self)@.future.orders, tx, state_nonce),
            ),
            final(self).local_transactions@ == entered_list(
                old(self).local_transactions@,
                old(self)@,
                old(self)@.future.orders,
                tx,
                state_nonce,
            ),
    {
        proof {
            lemma_entered_future(self@, tx, state_nonce);
            lemma_future_limited(entered_future(self@, tx, state_nonce));
        }
        // Insert transaction (or replace old one with lower gas price)
        let is_in: bool = Self::replace_transaction(
            tx,
            state_nonce,
            (self.minimal_gas_price, self.strategy),
            &mut self.future,
            &mut self.by_hash,
            &mut self.local_transactions,
        );
        if let Err(e) = check_too_cheap(is_in) {
            return Err(e);
        }
        // Enforce limit in Future

        let ghost now = self.local_transactions@;
        proof {
            lemma_limits_mark_nothing(self@);
        }
        let removed = self.future.enforce_limit(&mut self.by_hash, &mut self.local_transactions);
        proof {
            lemma_unmarked(now, self.local_transactions@);
        }
        // Return an error if this transaction was not imported because of limit.
        if let Err(e) = check_if_removed(&tx.sender(), &tx.nonce(), &removed) {
            return Err(e);
        }
        Ok(TransactionImportResult::Future)
    }

    /// Moves to current what follows on a transaction and the transaction before it.
    fn fill_gap(&mut self, address: Address, nonce: U256, state_nonce: U256)
        requires
            old(self).wf(),
            state_nonce@ <= nonce@,
        ensures
            final(self).wf(),
            final(self)@ == filled(old(self)@, address, nonce, state_nonce),
            remarked(
                old(self).local_transactions@,
                final(self).local_transactions@,
                filled_marks(old(self)@, address, nonce, state_nonce),
            ),
            final(self).local_transactions@ == filled_list(
                old(self).local_transactions@,
                old(self)@,
                address,
                nonce,
                state_nonce,
            ),
    {
        let ghost v = self@;
        let ghost list = self.local_transactions@;
        // We might have filled a gap - move some more transactions from future
        self.move_matching_future_to_current(address, nonce, state_nonce);
        let ghost first = self@;
        let ghost now = self.local_transactions@;
        if nonce == U256::max_value() {
            proof {
                lemma_none_promoted(self@, address, nonce@ + 1, state_nonce);
                lemma_unmarked(now, now);
            }
        } else {
            self.move_matching_future_to_current(address, nonce.plus(U256::one()), state_nonce);
        }
        proof {
            lemma_remarked_again(
                list,
                now,
                self.local_transactions@,
                promoted_marks(v, address, nonce@, state_nonce),
                promoted_marks(first, address, nonce@ + 1, state_nonce),
            );
        }
    }

    /// Puts a transaction to current, with what follows on it.
    #[verifier::rlimit(50)]
    fn import_to_current(&mut self, tx: VerifiedTransaction, state_nonce: U256) -> (r: Result<
        TransactionImportResult,
        TransactionError,
    >)
        requires
            old(self).wf(),
            tx.transaction.signer is Some,
            !old(self)@.by_hash.contains_key(tx.transaction.hash),
            state_nonce@ <= tx.transaction.nonce@,
            gas_factor(tx.transaction.gas, old(self)@.minimal_gas_price) < range(),
        ensures
            final(self).wf(),
            (final(self)@, r) == import_to_current(old(self)@, tx, state_nonce),
            remarked(
                old(self).local_transactions@,
                final(self).local_transactions@,
                import_to_current_marks(old(self)@, tx, state_nonce),
            ),
            final(self).local_transactions@ == import_to_current_list(
                old(self).local_transactions@,
                old(self)@,
                tx,
                state_nonce,
            ),
    {
        let ghost v = self@;
        let ghost list = self.local_transactions@;
        let address: Address = tx.sender();
        let nonce: U256 = tx.nonce();
        self.fill_gap(address, nonce, state_nonce);
        let ghost full = self@;
        let ghost first = self.local_transactions@;
        proof {
            lemma_highest(full.current.orders.dom(), full.last_nonces);
            lemma_entered_current(self@, tx, state_nonce);
            lemma_current_limited(entered_current(self@, tx, state_nonce));
        }
        // Replace transaction if any
        let is_in: bool = Self::replace_transaction(
            tx,
            state_nonce,
            (self.minimal_gas_price, self.strategy),
            &mut self.current,
            &mut self.by_hash,
            &mut self.local_transactions,
        );
        let ghost now = self.local_transactions@;
        proof {
            lemma_remarked_again(
                list,
                first,
                now,
                filled_marks(v, address, nonce, state_nonce),
                entered_marks(full, full.current.orders, tx, state_nonce),
            );
        }
        if let Err(e) = check_too_cheap(is_in) {
            return Err(e);
        }
        // Keep track of highest nonce stored in current

        proof {
            lemma_others_noted(full, self@.current.orders, address);
        }
        self.note_last_nonce(&address);
        let ghost entered = self@;
        proof {
            lemma_limits_mark_nothing(entered);
        }
        // Also enforce the limit
        let removed = self.current.enforce_limit(&mut self.by_hash, &mut self.local_transactions);
        proof {
            lemma_rest_noted(entered);
            lemma_unmarked(now, self.local_transactions@);
        }
        // If some transaction were removed because of limit we need to update last_nonces also.
        self.update_last_nonces(&removed);
        // Trigger error if the transaction we are importing was removed.
        if let Err(e) = check_if_removed(&address, &nonce, &removed) {
            return Err(e);
        }
        Ok(TransactionImportResult::Current)
    }
}

impl TransactionQueue {
    /// Add signed transaction to queue to be verified and imported.
    ///
    /// NOTE fetch_account and gas_estimator should be cheap to compute
    /// otherwise it might open up an attack vector.
    #[verifier::rlimit(50)]
    pub fn add<F, G>(
        &mut self,
        tx: SignedTransaction,
        origin: TransactionOrigin,
        fetch_account: &F,
        gas_estimator: &G,
    ) -> (r: Result<TransactionImportResult, Error>) where
        F: Fn(&Address) -> AccountDetails,
        G: Fn(&SignedTransaction) -> U256,

        requires
            old(self).wf(),
            too_cheap(old(self)@, tx, origin) || entry_limit(old(self)@.current) < range(),
            screened(old(self)@, tx, origin) is None ==> call_requires(*gas_estimator, (&tx,)),
            forall|g: U256|
                screened(old(self)@, tx, origin) is None && #[trigger] call_ensures(
                    *gas_estimator,
                    (&tx,),
                    g,
                ) && presentable(old(self)@, tx, origin, g) ==> call_requires(
                    *fetch_account,
                    (&tx.signer.unwrap(),),
                ),
            forall|g: U256, account: AccountDetails|
                answers(old(self)@, tx, origin, fetch_account, gas_estimator, g, account)
                    ==> #[trigger] computable(old(self)@, tx, origin, g, account),
        ensures
            final(self).wf(),
            exists|g: U256, account: AccountDetails|
                answers(old(self)@, tx, origin, fetch_account, gas_estimator, g, account) && (
                final(self)@,
                r,
                ) == #[trigger] added(old(self)@, tx, origin, g, account) && remarked(
                    old(self).local_transactions@,
                    final(self).local_transactions@,
                    added_marks(old(self)@, tx, origin, g, account),
                ) && added_lists(
                    old(self)@,
                    tx,
                    origin,
                    g,
                    account,
                    old(self).local_transactions@,
                    final(self).local_transactions@,
                ),
            origin == TransactionOrigin::Local ==> match r {
                Ok(TransactionImportResult::Current) => latest(
                    final(self).local_transactions@,
                    tx.hash,
                    LocalTransactionStatus::Pending,
                ),
                Ok(TransactionImportResult::Future) => latest(
                    final(self).local_transactions@,
                    tx.hash,
                    LocalTransactionStatus::Future,
                ),
                Err(Error::Transaction(_)) => true,
                Err(_) => latest(
                    final(self).local_transactions@,
                    tx.hash,
                    LocalTransactionStatus::Invalid(tx),
                ),
            },
            match r {
                Ok(imported) => shows(
                    final(self)@,
                    (VerifiedTransaction { transaction: tx, origin }),
                    Ok(imported),
                ),
                Err(Error::Transaction(e)) => shows(
                    final(self)@,
                    (VerifiedTransaction { transaction: tx, origin }),
                    Err(e),
                ),
                Err(_) => true,
            },
            exists|g: U256, account: AccountDetails|
                (final(self)@, r) == #[trigger] added(old(self)@, tx, origin, g, account) && (
                takes_estimate(r) ==> call_ensures(*gas_estimator, (&tx,), g)) && (takes_account(r)
                    ==> call_ensures(*fetch_account, (&tx.signer.unwrap(),), account)),
            r is Ok ==> {
                &&& tx.low_s
                &&& tx.signer is Some
                &&& exists|g: U256| #[trigger]
                    call_ensures(*gas_estimator, (&tx,), g) && g@ <= tx.gas@
                &&& exists|account: AccountDetails| #[trigger]
                    call_ensures(*fetch_account, (&tx.signer.unwrap(),), account) && account.balance@
                        >= tx.value@ + tx.gas_price@ * tx.gas@ && account.nonce@ <= tx.nonce@
            },
            match r {
                Err(Error::Transaction(TransactionError::InsufficientGas { minimal, got })) => {
                    &&& call_ensures(*gas_estimator, (&tx,), minimal)
                    &&& got == tx.gas
                    &&& got@ < minimal@
                },
                Err(Error::Transaction(TransactionError::InsufficientBalance { balance, cost })) => {
                    &&& balance@ < cost@
                    &&& cost@ == tx.value@ + tx.gas_price@ * tx.gas@
                    &&& exists|account: AccountDetails| #[trigger]
                        call_ensures(*fetch_account, (&tx.signer.unwrap(),), account)
                            && account.balance == balance
                },
                Err(Error::Transaction(TransactionError::Old)) => exists|account: AccountDetails| #[trigger]
                    call_ensures(*fetch_account, (&tx.signer.unwrap(),), account) && account.nonce@
                        > tx.nonce@,
                _ => true,
            },
            origin != TransactionOrigin::Local && refused_outright(r)
                ==> final(self).local_transactions@ == old(self).local_transactions@,
    {
        let ghost v = self@;
        let ghost list = self.local_transactions@;
        let r = self.add_internal(tx, origin, fetch_account, gas_estimator);
        let ghost after = self@;
        let ghost now = self.local_transactions@;
        if origin == TransactionOrigin::Local {
            match r {
                Ok(TransactionImportResult::Current) => {
                    self.local_transactions.mark_pending(tx.hash());
                },
                Ok(TransactionImportResult::Future) => {
                    self.local_transactions.mark_future(tx.hash());
                },
                Err(Error::Transaction(err)) => {
                    // Sometimes transactions are re-imported, so
                    // don't overwrite transactions if they are already on the list
                    if !self.local_transactions.contains(&tx.hash()) {
                        self.local_transactions.mark_rejected(tx, err);
                    }
                },
                Err(_) => {
                    self.local_transactions.mark_invalid(tx);
                },
            }
        }
        proof {
            let (g, account) = choose|g: U256, account: AccountDetails|
                answers(v, tx, origin, fetch_account, gas_estimator, g, account) && (after, r)
                    == #[trigger] added_internal(v, tx, origin, g, account) && remarked(
                    list,
                    now,
                    added_internal_marks(v, tx, origin, g, account),
                ) && added_internal_lists(v, tx, origin, g, account, list, now);
            let marks = added_internal_marks(v, tx, origin, g, account);
            lemma_mark_one(list, now, marks, tx.hash, LocalTransactionStatus::Pending);
            lemma_mark_one(list, now, marks, tx.hash, LocalTransactionStatus::Future);
            lemma_mark_one(list, now, marks, tx.hash, LocalTransactionStatus::Invalid(tx));
            if let Err(Error::Transaction(err)) = r {
                lemma_mark_one(list, now, marks, tx.hash, LocalTransactionStatus::Rejected(tx, err));
            }
            assert((after, r) == added_internal(v, tx, origin, g, account));
            reveal(import);
            assert(computable(v, tx, origin, g, account));
            if presentable(v, tx, origin, g) {
                lemma_u256(tx.cost());
                assert(call_ensures(*fetch_account, (&tx.signer.unwrap(),), account));
            }
            assert((self@, r) == added(v, tx, origin, g, account));
            assert(added_internal_lists(v, tx, origin, g, account, list, now));
            assert(added_lists(v, tx, origin, g, account, list, self.local_transactions@));
        }
        r
    }

    /// Adds signed transaction to the queue.
    #[verifier::rlimit(50)]
    fn add_internal<F, G>(
        &mut self,
        tx: SignedTransaction,
        origin: TransactionOrigin,
        fetch_account: &F,
        gas_estimator: &G,
    ) -> (r: Result<TransactionImportResult, Error>) where
        F: Fn(&Address) -> AccountDetails,
        G: Fn(&SignedTransaction) -> U256,

        requires
            old(self).wf(),
            too_cheap(old(self)@, tx, origin) || entry_limit(old(self)@.current) < range(),
            screened(old(self)@, tx, origin) is None ==> call_requires(*gas_estimator, (&tx,)),
            forall|g: U256|
                screened(old(self)@, tx, origin) is None && #[trigger] call_ensures(
                    *gas_estimator,
                    (&tx,),
                    g,
                ) && presentable(old(self)@, tx, origin, g) ==> call_requires(
                    *fetch_account,
                    (&tx.signer.unwrap(),),
                ),
            forall|g: U256, account: AccountDetails|
                answers(old(self)@, tx, origin, fetch_account, gas_estimator, g, account)
                    ==> #[trigger] computable(old(self)@, tx, origin, g, account),
        ensures
            final(self).wf(),
            exists|g: U256, account: AccountDetails|
                answers(old(self)@, tx, origin, fetch_account, gas_estimator, g, account) && (
                final(self)@,
                r,
                ) == #[trigger] added_internal(old(self)@, tx, origin, g, account) && remarked(
                    old(self).local_transactions@,
                    final(self).local_transactions@,
                    added_internal_marks(old(self)@, tx, origin, g, account),
                ) && added_internal_lists(
                    old(self)@,
                    tx,
                    origin,
                    g,
                    account,
                    old(self).local_transactions@,
                    final(self).local_transactions@,
                ),
            match r {
                Ok(imported) => shows(
                    final(self)@,
                    (VerifiedTransaction { transaction: tx, origin }),
                    Ok(imported),
                ),
                Err(Error::Transaction(e)) => shows(
                    final(self)@,
                    (VerifiedTransaction { transaction: tx, origin }),
                    Err(e),
                ),
                Err(_) => true,
            },
            refused_outright(r) ==> final(self).local_transactions@ == old(self).local_transactions@,
    {
        let ghost v = self@;
        proof {
            lemma_unmarked(self.local_transactions@, self.local_transactions@);
        }
        let ghost some_gas: U256 = arbitrary();
        let ghost some_account: AccountDetails = arbitrary();
        if tx.gas_price < self.minimal_gas_price && origin != TransactionOrigin::Local {
            let e = TransactionError::InsufficientGasPrice {
                minimal: self.minimal_gas_price,
                got: tx.gas_price,
            };
            assert((v, Err::<TransactionImportResult, Error>(Error::Transaction(e)))
                == added_internal(v, tx, origin, some_gas, some_account));
            return Err(Error::Transaction(e));
        }
        let full_queues_lowest: U256 = self.effective_minimum_gas_price();
        proof {
            lemma_u256(entry_limit(v.current));
            lemma_u256_injective(u256(entry_limit(v.current)), full_queues_lowest);
        }
        if tx.gas_price < full_queues_lowest && origin != TransactionOrigin::Local {
            let e = TransactionError::InsufficientGasPrice {
                minimal: full_queues_lowest,
                got: tx.gas_price,
            };
            assert((v, Err::<TransactionImportResult, Error>(Error::Transaction(e)))
                == added_internal(v, tx, origin, some_gas, some_account));
            return Err(Error::Transaction(e));
        }
        if tx.gas > self.gas_limit || tx.gas > self.tx_gas_limit {
            let e = TransactionError::GasLimitExceeded { limit: self.gas_limit, got: tx.gas };
            assert((v, Err::<TransactionImportResult, Error>(Error::Transaction(e)))
                == added_internal(v, tx, origin, some_gas, some_account));
            return Err(Error::Transaction(e));
        }
        let minimal_gas: U256 = gas_estimator(&tx);
        if tx.gas < minimal_gas {
            let e = TransactionError::InsufficientGas { minimal: minimal_gas, got: tx.gas };
            assert((v, Err::<TransactionImportResult, Error>(Error::Transaction(e)))
                == added_internal(v, tx, origin, minimal_gas, some_account));
            return Err(Error::Transaction(e));
        }
        // Verify signature

        if let Err(e) = tx.check_low_s() {
            assert((v, Err::<TransactionImportResult, Error>(e)) == added_internal(
                v,
                tx,
                origin,
                minimal_gas,
                some_account,
            ));
            return Err(e);
        }
        let vtx = match VerifiedTransaction::new(tx, origin) {
            Ok(vtx) => vtx,
            Err(e) => {
                assert((v, Err::<TransactionImportResult, Error>(e)) == added_internal(
                    v,
                    tx,
                    origin,
                    minimal_gas,
                    some_account,
                ));
                return Err(e);
            },
        };
        let client_account: AccountDetails = fetch_account(&vtx.sender());
        assert(answers(v, tx, origin, fetch_account, gas_estimator, minimal_gas, client_account));
        assert(computable(v, tx, origin, minimal_gas, client_account));
        assert(tx.gas_price@ * tx.gas@ <= tx.cost());
        let cost: U256 = tx.value.plus(tx.gas_price.times(tx.gas));
        proof {
            lemma_u256(tx.cost());
            lemma_u256_injective(u256(tx.cost()), cost);
        }
        if client_account.balance < cost {
            let e = TransactionError::InsufficientBalance {
                cost,
                balance: client_account.balance,
            };
            assert((v, Err::<TransactionImportResult, Error>(Error::Transaction(e)))
                == added_internal(v, tx, origin, minimal_gas, client_account));
            return Err(Error::Transaction(e));
        }
        let r = match self.import_tx(vtx, client_account.nonce) {
            Ok(imported) => Ok(imported),
            Err(e) => Err(Error::Transaction(e)),
        };
        assert((self@, r) == added_internal(v, tx, origin, minimal_gas, client_account));
        r
    }

    /// Get one more than the lowest gas price in the queue iff the pool is
    /// full, otherwise 0.
    pub fn effective_minimum_gas_price(&self) -> (r: U256)
        requires
            self.wf(),
            entry_limit(self@.current) < range(),
        ensures
            r@ == entry_limit(self@.current),
    {
        self.current.gas_price_entry_limit()
    }
}

impl TransactionQueue {
    /// Removes all transactions from particular sender up to (excluding) given client (state) nonce.
    /// Client (State) Nonce = next valid nonce for this sender.
    pub fn remove_all(&mut self, sender: Address, client_nonce: U256)
        requires
            old(self).wf(),
        ensures
            final(self).wf(),
            final(self)@ == without_old(old(self)@, sender, client_nonce),
            remarked(
                old(self).local_transactions@,
                final(self).local_transactions@,
                without_old_marks(old(self)@, sender, client_nonce),
            ),
            without_old_lists(
                old(self)@,
                sender,
                client_nonce,
                old(self).local_transactions@,
                final(self).local_transactions@,
            ),
            !outdated(old(self)@, sender, client_nonce) ==> final(self).local_transactions@
                == old(self).local_transactions@,
    {
        proof {
            lemma_unmarked(self.local_transactions@, self.local_transactions@);
        }
        // Check if there is anything in current...
        // If nonce == client_nonce nothing is changed
        let check_in_current: bool = Self::any_below(&self.current, &sender, client_nonce, false);
        // ... or future
        // if nonce == client_nonce we need to promote to current
        let check_in_future: bool = Self::any_below(&self.future, &sender, client_nonce, true);
        if check_in_current || check_in_future {
            self.remove_all_internal(sender, client_nonce);
        }
    }

    /// Whether the sender has a transaction in the set below the nonce (or at it, if that counts too).
    fn any_below(set: &TransactionSet, sender: &Address, nonce: U256, inclusive: bool) -> (r: bool)
        requires
            set.wf(),
        ensures
            r == exists|k: Slot| #[trigger]
                set@.orders.contains_key(k) && k.sender == *sender && (k.nonce@ < nonce@ || (inclusive
                    && k.nonce@ == nonce@)),
    {
        let nonces = set.nonces_of(sender);
        let mut i: usize = 0;
        while i < nonces.len()
            invariant
                i <= nonces@.len(),
                forall|n: U256| #[trigger]
                    nonces@.contains(n) <==> set@.orders.contains_key(
                        Slot { sender: *sender, nonce: n },
                    ),
                forall|j: int|
                    0 <= j < i ==> !((#[trigger] nonces@[j])@ < nonce@ || (inclusive && nonces@[j]@
                        == nonce@)),
            decreases nonces@.len() - i,
        {
            let n: U256 = nonces[i];
            if n < nonce || (inclusive && n == nonce) {
                assert(nonces@.contains(n));
                assert(set@.orders.contains_key(Slot { sender: *sender, nonce: n }));
                return true;
            }
            assert(inclusive ==> n@ != nonce@) by {
                if n@ == nonce@ {
                    lemma_u256_injective(n, nonce);
                }
            }
            i += 1;
        }
        proof {
            assert forall|k: Slot| #[trigger]
                set@.orders.contains_key(k) && k.sender == *sender implies !(k.nonce@ < nonce@ || (
            inclusive && k.nonce@ == nonce@)) by {
                assert(k == Slot { sender: *sender, nonce: k.nonce });
                assert(nonces@.contains(k.nonce));
                let j = nonces@.index_of(k.nonce);
                assert(nonces@[j] == k.nonce);
            }
        }
        false
    }

    /// Always updates future and moves transactions from current to future.
    #[verifier::rlimit(50)]
    fn remove_all_internal(&mut self, sender: Address, client_nonce: U256)
        requires
            old(self).wf(),
        ensures
            final(self).wf(),
            final(self)@ == resorted(old(self)@, sender, client_nonce),
            remarked(
                old(self).local_transactions@,
                final(self).local_transactions@,
                resorted_marks(old(self)@, sender, client_nonce),
            ),
            resorted_lists(
                old(self)@,
                sender,
                client_nonce,
                old(self).local_transactions@,
                final(self).local_transactions@,
            ),
    {
        let ghost list = self.local_transactions@;
        // First update height of transactions in future to avoid collisions
        self.update_future(&sender, client_nonce);
        // This should move all current transactions to future and remove old transactions
        let ghost young = self@;
        self.move_all_to_future(&sender, client_nonce);
        let ghost now = self.local_transactions@;
        proof {
            lemma_future_limited(self@);
            lemma_limits_mark_nothing(self@);
        }
        self.future.enforce_limit(&mut self.by_hash, &mut self.local_transactions);
        let ghost limited = self@;
        proof {
            lemma_unmarked(now, self.local_transactions@);
        }
        // And now lets check if there is some batch of transactions in future
        // that should be placed in current. It should also update last_nonces.
        self.move_matching_future_to_current(sender, client_nonce, client_nonce);
        proof {
            lemma_remarked_again(
                list,
                now,
                self.local_transactions@,
                retreated_marks(young, places_of(young.current.orders, sender), client_nonce),
                promoted_marks(limited, sender, client_nonce@, client_nonce),
            );
            assert(comes_back(
                young,
                limited,
                sender,
                client_nonce,
                list,
                self.local_transactions@,
            ));
        }
    }

    /// The senders that have a transaction in the queue, each once.
    fn senders(&self) -> (r: Vec<Address>)
        requires
            self.wf(),
        ensures
            r@.no_duplicates(),
            forall|a: Address| #[trigger] r@.contains(a) <==> has_sender(self@, a),
    {
        let mut r: VecMap<Address, bool> = VecMap::new();
        Self::note_senders(&self.current, &mut r);
        Self::note_senders(&self.future, &mut r);
        r.keys()
    }

    /// Notes the senders that have a transaction in the set.
    fn note_senders(set: &TransactionSet, r: &mut VecMap<Address, bool>)
        requires
            set.wf(),
            old(r).wf(),
        ensures
            final(r).wf(),
            forall|a: Address| #[trigger]
                final(r)@.contains_key(a) <==> old(r)@.contains_key(a) || sends(set@.orders, a),
    {
        let slots = set.by_address.keys();
        let ghost before = r@;
        let mut i: usize = 0;
        while i < slots.len()
            invariant
                i <= slots@.len(),
                r.wf(),
                forall|a: Address| #[trigger]
                    r@.contains_key(a) <==> before.contains_key(a) || exists|j: int|
                        0 <= j < i && (#[trigger] slots@[j]).sender == a,
            decreases slots@.len() - i,
        {
            let ghost seen = r@;
            r.insert(slots[i].sender, true);
            proof {
                assert forall|a: Address| #[trigger] r@.contains_key(a) implies before.contains_key(a)
                    || exists|j: int| 0 <= j < i + 1 && (#[trigger] slots@[j]).sender == a by {
                    if !seen.contains_key(a) {
                        assert(slots@[i as int].sender == a);
                    }
                }
            }
            i += 1;
        }
        proof {
            assert forall|a: Address| #[trigger] r@.contains_key(a) <==> before.contains_key(a)
                || sends(set@.orders, a) by {
                if sends(set@.orders, a) {
                    let k = choose|k: Slot| #[trigger] set@.orders.contains_key(k) && k.sender == a;
                    assert(slots@.contains(k));
                    assert(slots@[slots@.index_of(k)].sender == a);
                }
                if r@.contains_key(a) && !before.contains_key(a) {
                    let j = choose|j: int| 0 <= j < i && (#[trigger] slots@[j]).sender == a;
                    assert(slots@.contains(slots@[j]));
                    assert(set@.orders.contains_key(slots@[j]));
                }
            }
        }
    }

    /// Checks the current nonce for all transactions' senders in the queue and removes the old
    /// transactions.
    pub fn remove_old<F>(&mut self, fetch_nonce: F) where F: Fn(&Address) -> U256
        requires
            old(self).wf(),
            forall|a: Address| #[trigger] has_sender(old(self)@, a) ==> call_requires(fetch_nonce, (&a,)),
        ensures
            final(self).wf(),
            exists|senders: Seq<Address>, nonces: Seq<U256>|
                walks(old(self)@, fetch_nonce, senders, nonces) && final(self)@
                    == #[trigger] without_old_of(old(self)@, senders, nonces) && remarked(
                    old(self).local_transactions@,
                    final(self).local_transactions@,
                    without_old_of_marks(old(self)@, senders, nonces),
                ) && without_old_of_lists(
                    old(self)@,
                    senders,
                    nonces,
                    old(self).local_transactions@,
                    final(self).local_transactions@,
                ),
            forall|k: Slot| #[trigger]
                final(self)@.current.orders.contains_key(k) ==> exists|n: U256| #[trigger]
                    call_ensures(fetch_nonce, (&k.sender,), n) && n@ <= k.nonce@,
            forall|k: Slot| #[trigger]
                final(self)@.future.orders.contains_key(k) ==> exists|n: U256| #[trigger]
                    call_ensures(fetch_nonce, (&k.sender,), n) && n@ <= k.nonce@,
            forall|most: nat, k: Slot|
                #![trigger future_has_room(old(self)@, most), occupied(final(self)@, k)]
                future_has_room(old(self)@, most) && occupied(old(self)@, k) && (forall|n: U256| #[trigger]
                    call_ensures(fetch_nonce, (&k.sender,), n) ==> n@ <= k.nonce@) ==> occupied(
                    final(self)@,
                    k,
                ),
    {
        let ghost v = self@;
        let ghost list = self.local_transactions@;
        let senders = self.senders();
        let ghost mut nonces: Seq<U256> = Seq::empty();
        let mut i: usize = 0;
        proof {
            assert(senders@.take(0) =~= Seq::<Address>::empty());
            lemma_unmarked(list, list);
        }
        while i < senders.len()
            invariant
                i <= senders@.len(),
                nonces.len() == i,
                forall|a: Address| #[trigger] has_sender(v, a) ==> call_requires(fetch_nonce, (&a,)),
                forall|a: Address| #[trigger] senders@.contains(a) <==> has_sender(v, a),
                forall|j: int|
                    0 <= j < i ==> call_ensures(fetch_nonce, (&senders@[j],), #[trigger] nonces[j]),
                self.wf(),
                self@ == without_old_of(v, senders@.take(i as int), nonces),
                remarked(
                    list,
                    self.local_transactions@,
                    without_old_of_marks(v, senders@.take(i as int), nonces),
                ),
                without_old_of_lists(
                    v,
                    senders@.take(i as int),
                    nonces,
                    list,
                    self.local_transactions@,
                ),
            decreases senders@.len() - i,
        {
            let sender: Address = senders[i];
            assert(senders@.contains(sender));
            let nonce: U256 = fetch_nonce(&sender);
            let ghost before = self@;
            let ghost now = self.local_transactions@;
            self.remove_all(sender, nonce);
            proof {
                lemma_remarked_again(
                    list,
                    now,
                    self.local_transactions@,
                    without_old_of_marks(v, senders@.take(i as int), nonces),
                    without_old_marks(before, sender, nonce),
                );
                let all = nonces.push(nonce);
                assert(all.drop_last() =~= nonces);
                assert(senders@.take(i + 1).drop_last() =~= senders@.take(i as int));
                let some = senders@.take(i + 1);
                assert(some.last() == sender && all.last() == nonce);
                assert(without_old_lists(before, some.last(), all.last(), now, self.local_transactions@));
                nonces = all;
            }
            i += 1;
        }
        proof {
            assert(senders@.take(i as int) =~= senders@);
            assert(walks(v, fetch_nonce, senders@, nonces));
            lemma_state_nonces_remove_old(v, senders@, nonces);
            assert forall|most: nat, k: Slot|
                #![trigger future_has_room(v, most), occupied(self@, k)]
                future_has_room(v, most) && occupied(v, k) && (forall|n: U256| #[trigger]
                    call_ensures(fetch_nonce, (&k.sender,), n) ==> n@ <= k.nonce@) implies occupied(
                self@,
                k,
            ) by {
                lemma_remove_old_with_room(v, senders@, nonces, most, k);
                assert forall|j: int| 0 <= j < senders@.len() && #[trigger] senders@[j]
                    == k.sender implies k.nonce@ >= nonces[j]@ by {
                    assert(call_ensures(fetch_nonce, (&senders@[j],), nonces[j]));
                }
            }
            assert forall|k: Slot| #[trigger] occupied(self@, k) implies exists|n: U256| #[trigger]
                call_ensures(fetch_nonce, (&k.sender,), n) && n@ <= k.nonce@ by {
                assert(occupied(v, k));
                assert(has_sender(v, k.sender));
                assert(senders@.contains(k.sender));
                let j = senders@.index_of(k.sender);
                assert(senders@[j] == k.sender);
                assert(call_ensures(fetch_nonce, (&senders@[j],), nonces[j]));
            }
            assert forall|k: Slot| #[trigger]
                self@.current.orders.contains_key(k) implies exists|n: U256| #[trigger]
                call_ensures(fetch_nonce, (&k.sender,), n) && n@ <= k.nonce@ by {
                assert(occupied(self@, k));
            }
            assert forall|k: Slot| #[trigger]
                self@.future.orders.contains_key(k) implies exists|n: U256| #[trigger]
                call_ensures(fetch_nonce, (&k.sender,), n) && n@ <= k.nonce@ by {
                assert(occupied(self@, k));
            }
        }
    }

    /// Removes invalid transaction identified by hash from queue.
    /// Assumption is that this transaction nonce is not related to client nonce,
    /// so transactions left in queue are processed according to client nonce.
    ///
    /// If gap is introduced marks subsequent transactions as future
    #[verifier::rlimit(50)]
    pub fn remove_invalid<T>(&mut self, transaction_hash: &H256, fetch_account: &T) where
        T: Fn(&Address) -> AccountDetails,

        requires
            old(self).wf(),
            old(self)@.by_hash.contains_key(*transaction_hash) ==> call_requires(
                *fetch_account,
                (&slot_of(old(self)@.by_hash[*transaction_hash]).sender,),
            ),
        ensures
            final(self).wf(),
            exists|account: AccountDetails|
                (old(self)@.by_hash.contains_key(*transaction_hash) ==> call_ensures(
                    *fetch_account,
                    (&slot_of(old(self)@.by_hash[*transaction_hash]).sender,),
                    account,
                )) && final(self)@ == #[trigger] without_invalid(
                    old(self)@,
                    *transaction_hash,
                    account.nonce,
                ) && remarked(
                    old(self).local_transactions@,
                    final(self).local_transactions@,
                    without_invalid_marks(old(self)@, *transaction_hash, account.nonce),
                ) && without_invalid_lists(
                    old(self)@,
                    *transaction_hash,
                    account.nonce,
                    old(self).local_transactions@,
                    final(self).local_transactions@,
                ),
            !old(self)@.by_hash.contains_key(*transaction_hash) ==> final(self).local_transactions@
                == old(self).local_transactions@,
    {
        let ghost v = self@;
        let ghost list = self.local_transactions@;
        proof {
            lemma_unmarked(list, list);
        }
        let ghost some_account: AccountDetails = arbitrary();
        let transaction = match self.by_hash.get(transaction_hash) {
            None => {
                // We don't know this transaction
                assert(v == without_invalid(v, *transaction_hash, some_account.nonce));
                return;
            },
            Some(t) => t,
        };
        let sender: Address = transaction.sender();
        let nonce: U256 = transaction.nonce();
        let account: AccountDetails = fetch_account(&sender);
        let current_nonce: U256 = account.nonce;
        proof {
            lemma_home(v, *transaction_hash);
            lemma_without(v, *transaction_hash);
        }
        self.by_hash.remove(transaction_hash);
        // Mark in locals
        if self.local_transactions.contains(transaction_hash) {
            self.local_transactions.mark_invalid(transaction.transaction);
            proof {
                lemma_mark_one(
                    list,
                    list,
                    Set::empty(),
                    *transaction_hash,
                    LocalTransactionStatus::Invalid(transaction.transaction),
                );
            }
        }
        let ghost now = self.local_transactions@;
        let ghost rest = struck(v, *transaction_hash);
        let ghost invalid: Set<H256> = if v.local.contains_key(*transaction_hash) {
            Set::empty().insert(*transaction_hash)
        } else {
            Set::empty()
        };
        let in_future: bool = match self.future.by_address.get(&Slot { sender, nonce }) {
            Some(order) => order.hash == *transaction_hash,
            None => false,
        };
        if in_future {
            proof {
                lemma_highest(v.current.orders.dom(), v.last_nonces);
            }
            // Remove from future
            self.future.drop(&sender, &nonce);
            self.update_future(&sender, current_nonce);
            // And now lets check if there is some chain of transactions in future
            // that should be placed in current
            self.move_matching_future_to_current(sender, current_nonce, current_nonce);
            proof {
                lemma_remarked_again(
                    list,
                    now,
                    self.local_transactions@,
                    invalid,
                    caught_up_marks(rest, sender, current_nonce),
                );
            }
        } else {
            // Remove from current
            self.current.drop(&sender, &nonce);
            proof {
                lemma_others_noted(v, self@.current.orders, sender);
            }
            self.note_last_nonce(&sender);
            // This will keep consistency in queue
            // Moves all to future and then promotes a batch from current:
            self.remove_all_internal(sender, current_nonce);
            proof {
                lemma_remarked_again(
                    list,
                    now,
                    self.local_transactions@,
                    invalid,
                    resorted_marks(rest, sender, current_nonce),
                );
            }
        }
        assert(self@ == without_invalid(v, *transaction_hash, account.nonce));
    }
}

impl TransactionQueue {
    /// Creates new instance of this Queue
    pub fn new(strategy: PrioritizationStrategy) -> (r: TransactionQueue)
        ensures
            r.wf(),
            r@ == fresh(strategy, 1024, u256((range() - 1) as nat), u256((range() - 1) as nat)),
    {
        proof {
            lemma_u256((range() - 1) as nat);
        }
        let most: U256 = U256::max_value();
        proof {
            lemma_u256_injective(most, u256((range() - 1) as nat));
        }
        TransactionQueue::with_limits(strategy, 1024, most, most)
    }

    /// Create new instance of this Queue with specified limits
    pub fn with_limits(
        strategy: PrioritizationStrategy,
        limit: usize,
        gas_limit: U256,
        tx_gas_limit: U256,
    ) -> (r: TransactionQueue)
        ensures
            r.wf(),
            r@ == fresh(strategy, limit, gas_limit, tx_gas_limit),
    {
        proof {
            lemma_u256((range() - 1) as nat);
        }
        let most: U256 = U256::max_value();
        proof {
            lemma_u256_injective(most, u256((range() - 1) as nat));
        }
        TransactionQueue {
            strategy,
            minimal_gas_price: U256::zero(),
            tx_gas_limit,
            gas_limit: most,
            current: TransactionSet::new(limit, gas_limit),
            future: TransactionSet::new(limit, gas_limit),
            by_hash: VecMap::new(),
            last_nonces: VecMap::new(),
            local_transactions: LocalTransactionsList::new(),
        }
    }

    /// Set the new limit for `current` and `future` queue.
    pub fn set_limit(&mut self, limit: usize)
        requires
            old(self).wf(),
        ensures
            final(self).wf(),
            final(self)@ == with_limit(old(self)@, limit),
            final(self).current.limit == limit,
            final(self).future.limit == limit,
            final(self).local_transactions@ == old(self).local_transactions@,
    {
        let ghost list = self.local_transactions@;
        self.current.set_limit(limit);
        self.future.set_limit(limit);
        proof {
            lemma_current_limited(self@);
            lemma_future_limited(current_limited(self@));
            lemma_limits_mark_nothing(self@);
            lemma_limits_mark_nothing(current_limited(self@));
        }
        let ghost limited = self@;
        // And ensure the limits
        let removed = self.current.enforce_limit(&mut self.by_hash, &mut self.local_transactions);
        proof {
            lemma_rest_noted(limited);
            lemma_unmarked(list, self.local_transactions@);
            assert(self@.current.orders == limited.current.orders.remove_keys(
                excess(limited.current),
            ));
            assert(self@.last_nonces == limited.last_nonces);
        }
        self.update_last_nonces(&removed);
        self.future.enforce_limit(&mut self.by_hash, &mut self.local_transactions);
        proof {
            lemma_unmarked(list, self.local_transactions@);
        }
    }

    /// Returns current limit of transactions in the queue.
    pub fn limit(&self) -> (r: usize)
        ensures
            r == self@.current.limit,
    {
        self.current.limit
    }

    /// Get the minimal gas price.
    pub fn minimal_gas_price(&self) -> (r: &U256)
        ensures
            *r == self@.minimal_gas_price,
    {
        &self.minimal_gas_price
    }

    /// Sets new gas price threshold for incoming transactions.
    /// Any transaction already imported to the queue is not affected.
    pub fn set_minimal_gas_price(&mut self, min_gas_price: U256)
        requires
            old(self).wf(),
        ensures
            final(self).wf(),
            final(self)@ == (QueueView { minimal_gas_price: min_gas_price, ..old(self)@ }),
            final(self).local_transactions@ == old(self).local_transactions@,
    {
        self.minimal_gas_price = min_gas_price;
    }

    /// Sets new gas limit. Transactions with gas more than a tenth above the limit won't be imported.
    /// Any transaction already imported to the queue is not affected.
    pub fn set_gas_limit(&mut self, gas_limit: U256)
        requires
            old(self).wf(),
        ensures
            final(self).wf(),
            final(self)@ == (QueueView {
                gas_limit: u256(with_hysteresis(gas_limit@)),
                ..old(self)@
            }),
            final(self).local_transactions@ == old(self).local_transactions@,
    {
        let extra: U256 = gas_limit.div_u64(GAS_LIMIT_HYSTERESIS);
        let limit: U256 = match gas_limit.overflowing_add(extra) {
            (_, true) => U256::max_value(),
            (val, false) => val,
        };
        proof {
            lemma_u256(with_hysteresis(gas_limit@));
            lemma_u256_injective(limit, u256(with_hysteresis(gas_limit@)));
        }
        self.gas_limit = limit;
    }

    /// Sets new total gas limit.
    pub fn set_total_gas_limit(&mut self, gas_limit: U256)
        requires
            old(self).wf(),
        ensures
            final(self).wf(),
            final(self)@ == with_total_gas_limit(old(self)@, gas_limit),
            final(self).current.gas_limit == gas_limit,
            final(self).future.gas_limit == gas_limit,
            final(self).local_transactions@ == old(self).local_transactions@,
    {
        let ghost list = self.local_transactions@;
        self.future.gas_limit = gas_limit;
        self.current.gas_limit = gas_limit;
        proof {
            lemma_future_limited(self@);
            lemma_limits_mark_nothing(self@);
        }
        self.future.enforce_limit(&mut self.by_hash, &mut self.local_transactions);
        proof {
            lemma_unmarked(list, self.local_transactions@);
        }
    }

    /// Set the new limit for the amount of gas any individual transaction may have.
    /// Any transaction already imported to the queue is not affected.
    pub fn set_tx_gas_limit(&mut self, limit: U256)
        requires
            old(self).wf(),
        ensures
            final(self).wf(),
            final(self)@ == (QueueView { tx_gas_limit: limit, ..old(self)@ }),
            final(self).local_transactions@ == old(self).local_transactions@,
    {
        self.tx_gas_limit = limit;
    }

    /// Returns current status for this queue
    pub fn status(&self) -> (r: TransactionQueueStatus)
        requires
            self.wf(),
        ensures
            r.pending == self@.current.orders.dom().len(),
            r.future == self@.future.orders.dom().len(),
    {
        TransactionQueueStatus { pending: self.current.len(), future: self.future.len() }
    }

    /// The transactions of a set, ordered by priority.
    fn transactions(&self, set: &TransactionSet) -> (r: Vec<SignedTransaction>)
        requires
            self.by_hash.wf(),
            set.wf(),
            labelled(set@.orders, self.by_hash@),
        ensures
            r@ == listing(set@.orders, self.by_hash@),
    {
        let ghost ranks = set.by_priority@;
        proof {
            lemma_ranking(ranks, set@.orders);
        }
        let mut r: Vec<SignedTransaction> = Vec::new();
        let mut i: usize = 0;
        while i < set.by_priority.len()
            invariant
                self.by_hash.wf(),
                set.wf(),
                labelled(set@.orders, self.by_hash@),
                ranks == set.by_priority@,
                i <= ranks.len(),
                r@.len() == i,
                forall|j: int|
                    0 <= j < i ==> #[trigger] r@[j] == self.by_hash@[ranks[j].hash].transaction,
            decreases ranks.len() - i,
        {
            let order = set.by_priority.get(i);
            assert(set@.orders.contains_value(ranks[i as int]));
            r.push(self.by_hash.get(&order.hash).unwrap().transaction);
            i += 1;
        }
        assert(r@ =~= listing(set@.orders, self.by_hash@));
        r
    }

    /// Returns top transactions from the queue ordered by priority.
    pub fn top_transactions(&self) -> (r: Vec<SignedTransaction>)
        requires
            self.wf(),
        ensures
            r@ == listing(self@.current.orders, self@.by_hash),
    {
        self.transactions(&self.current)
    }

    /// Returns future transactions ordered by priority.
    pub fn future_transactions(&self) -> (r: Vec<SignedTransaction>)
        requires
            self.wf(),
        ensures
            r@ == listing(self@.future.orders, self@.by_hash),
    {
        self.transactions(&self.future)
    }

    /// Returns local transactions (some of them might not be part of the queue anymore).
    pub fn local_transactions(&self) -> (r: &LinkedHashMap<
        HashWords,
        LocalTransactionStatus,
        RandomState,
    >)
        ensures
            linked_entries(*r) == self.local_transactions@,
            statuses(linked_entries(*r)) == self@.local,
    {
        self.local_transactions.all_transactions()
    }

    /// Returns hashes of all transactions from current, ordered by priority.
    pub fn pending_hashes(&self) -> (r: Vec<H256>)
        requires
            self.wf(),
        ensures
            r@ == pending(self@),
    {
        let ghost ranks = self.current.by_priority@;
        proof {
            lemma_ranking(ranks, self.current@.orders);
        }
        let mut r: Vec<H256> = Vec::new();
        let mut i: usize = 0;
        while i < self.current.by_priority.len()
            invariant
                ranks == self.current.by_priority@,
                i <= ranks.len(),
                r@.len() == i,
                forall|j: int| 0 <= j < i ==> #[trigger] r@[j] == ranks[j].hash,
            decreases ranks.len() - i,
        {
            r.push(self.current.by_priority.get(i).hash);
            i += 1;
        }
        assert(r@ =~= ranks.map_values(|order: TransactionOrder| order.hash));
        r
    }

    /// Returns true if there is at least one local transaction pending
    pub fn has_local_pending_transactions(&self) -> (r: bool)
        requires
            self.wf(),
        ensures
            r == exists|k: Slot| #[trigger]
                self@.current.orders.contains_key(k) && self@.current.orders[k].origin
                    == TransactionOrigin::Local,
    {
        let ghost orders = self.current@.orders;
        let ghost ranks = self.current.by_priority@;
        let mut i: usize = 0;
        while i < self.current.by_priority.len()
            invariant
                orders == self.current@.orders,
                ranks == self.current.by_priority@,
                self.current.wf(),
                i <= ranks.len(),
                forall|j: int|
                    0 <= j < i ==> (#[trigger] ranks[j]).origin != TransactionOrigin::Local,
            decreases ranks.len() - i,
        {
            if self.current.by_priority.get(i).origin == TransactionOrigin::Local {
                proof {
                    assert(orders.contains_value(ranks[i as int]));
                    let k = choose|k: Slot| #[trigger]
                        orders.contains_key(k) && orders[k] == ranks[i as int];
                    assert(orders.contains_key(k) && orders[k].origin == TransactionOrigin::Local);
                }
                return true;
            }
            i += 1;
        }
        proof {
            assert forall|k: Slot| #[trigger] orders.contains_key(k) implies orders[k].origin
                != TransactionOrigin::Local by {
                assert(ranks.contains(orders[k]));
                assert(ranks[ranks.index_of(orders[k])] == orders[k]);
            }
        }
        false
    }

    /// Finds transaction in the queue by hash (if any)
    pub fn find(&self, hash: &H256) -> (r: Option<SignedTransaction>)
        requires
            self.wf(),
        ensures
            r == found(self@, *hash),
            r is Some <==> self.by_hash@.contains_key(*hash),
            r matches Some(tx) ==> tx == self.by_hash@[*hash].transaction && tx.hash == *hash,
    {
        match self.by_hash.get(hash) {
            Some(tx) => Some(tx.transaction),
            None => None,
        }
    }

    /// Removes all elements (in any state) from the queue
    pub fn clear(&mut self)
        requires
            old(self).wf(),
        ensures
            final(self).wf(),
            final(self)@ == (QueueView {
                current: SetView { orders: Map::empty(), ..old(self)@.current },
                future: SetView { orders: Map::empty(), ..old(self)@.future },
                by_hash: Map::empty(),
                last_nonces: Map::empty(),
                ..old(self)@
            }),
            final(self).local_transactions@ == old(self).local_transactions@,
    {
        self.current.clear();
        self.future.clear();
        self.by_hash.clear();
        self.last_nonces.clear();
    }

    /// Returns highest transaction nonce for given address.
    pub fn last_nonce(&self, address: &Address) -> (r: Option<U256>)
        requires
            self.wf(),
        ensures
            r == self@.last_nonces.get(*address),
            r is Some <==> sends(self@.current.orders, *address),
            r matches Some(n) ==> self@.current.orders.contains_key(
                Slot { sender: *address, nonce: n },
            ),
            forall|k: Slot| #[trigger]
                self@.current.orders.contains_key(k) && k.sender == *address ==> r is Some && k.nonce@
                    <= r.unwrap()@,
    {
        proof {
            assert(is_highest_of(self@.current.orders.dom(), self@.last_nonces, *address));
            if self@.last_nonces.contains_key(*address) {
                assert(self@.current.orders.contains_key(
                    Slot { sender: *address, nonce: self@.last_nonces[*address] },
                ));
            }
            assert forall|k: Slot| #[trigger]
                self@.current.orders.contains_key(k) && k.sender
                    == *address implies self@.last_nonces.contains_key(*address) && k.nonce@
                <= self@.last_nonces[*address]@ by {
                assert(self@.current.orders.dom().contains(k));
            }
        }
        self.last_nonces.get(address)
    }
}

impl Default for TransactionQueue {
    fn default() -> (r: TransactionQueue)
        ensures
            r.wf(),
            r@ == fresh(
                PrioritizationStrategy::GasPriceOnly,
                1024,
                u256((range() - 1) as nat),
                u256((range() - 1) as nat),
            ),
    {
        TransactionQueue::new(PrioritizationStrategy::GasPriceOnly)
    }
}

/// Whether `senders` are the senders of the queue, each once and in whatever order, and `fetch_nonce`
/// may answer for each with the nonce at its place.
pub open spec fn walks<F>(
    v: QueueView,
    fetch_nonce: F,
    senders: Seq<Address>,
    nonces: Seq<U256>,
) -> bool where F: Fn(&Address) -> U256 {
    &&& senders.no_duplicates()
    &&& forall|a: Address| #[trigger] senders.contains(a) <==> has_sender(v, a)
    &&& nonces.len() == senders.len()
    &&& forall|i: int|
        0 <= i < senders.len() ==> call_ensures(fetch_nonce, (&senders[i],), #[trigger] nonces[i])
}

/// Whether `gas_estimator` and `fetch_account` may answer with these values, as far as they are asked.
pub open spec fn answers<F, G>(
    v: QueueView,
    tx: SignedTransaction,
    origin: TransactionOrigin,
    fetch_account: &F,
    gas_estimator: &G,
    minimal_gas: U256,
    account: AccountDetails,
) -> bool where F: Fn(&Address) -> AccountDetails, G: Fn(&SignedTransaction) -> U256 {
    &&& screened(v, tx, origin) is None ==> call_ensures(*gas_estimator, (&tx,), minimal_gas)
    &&& presentable(v, tx, origin, minimal_gas) ==> call_ensures(
        *fetch_account,
        (&tx.signer.unwrap(),),
        account,
    )
}

fn check_too_cheap(is_in: bool) -> (r: Result<(), TransactionError>)
    ensures
        is_in ==> r == Ok::<(), TransactionError>(()),
        !is_in ==> r == Err::<(), TransactionError>(TransactionError::TooCheapToReplace),
{
    if is_in {
        Ok(())
    } else {
        Err(TransactionError::TooCheapToReplace)
    }
}

fn check_if_removed(
    sender: &Address,
    nonce: &U256,
    dropped: &Option<VecMap<Address, U256>>,
) -> (r: Result<(), TransactionError>)
    requires
        dropped matches Some(m) ==> m.wf(),
    ensures
        r == (if dropped matches Some(m) && cut_off(m@, *sender, *nonce) {
            Err::<(), TransactionError>(TransactionError::LimitReached)
        } else {
            Ok(())
        }),
{
    match dropped {
        Some(dropped) => match dropped.get(sender) {
            Some(min) => if *nonce >= min {
                Err(TransactionError::LimitReached)
            } else {
                Ok(())
            },
            None => Ok(()),
        },
        None => Ok(()),
    }
}

} // verus!
