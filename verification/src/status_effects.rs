//! What is noted of local transactions where the queue changes around them.
use crate::import_effects::lemma_ready;
use crate::local_transactions::LocalTransactionStatus;
use crate::queue_laws::{
    lemma_filled, lemma_nothing_to_promote, lemma_prepared, lemma_prepared_settled,
    lemma_revalidated, lemma_settled_run, prepared,
};
use crate::queue_lemmas::{
    lemma_aged, lemma_entered_current, lemma_entered_future, lemma_future_limited, lemma_home,
    lemma_marked_local, lemma_promoted_upto, lemma_retreated, lemma_without,
};
use crate::queue_model::{
    aged, consistent, current_limited, entered_current, entered_future, filled, fits,
    future_limited, held, import, marked_local, places_of, promoted, resorted, retreated,
    revalidated, run_end, span, struck, with_limit, with_total_gas_limit, without_invalid,
    without_old, QueueView,
};
use crate::transaction::{
    TransactionError, TransactionImportResult, TransactionOrigin, VerifiedTransaction,
};
use crate::transaction_set::{slot_of, SetView};
use crate::uint::{Address, H256, U256};
use crate::vec_map::Slot;
use vstd::prelude::*;

verus! {

/// What is noted of a transaction.
pub open spec fn noted_of(v: QueueView, h: H256) -> Option<LocalTransactionStatus> {
    if v.local.contains_key(h) {
        Some(v.local[h])
    } else {
        None
    }
}

/// Whether a transaction is known and pending.
pub open spec fn is_pending(v: QueueView, h: H256) -> bool {
    v.by_hash.contains_key(h) && held(v.by_hash, v.current.orders, h)
}

/// Whether a transaction is known and waits.
pub open spec fn is_waiting(v: QueueView, h: H256) -> bool {
    v.by_hash.contains_key(h) && held(v.by_hash, v.future.orders, h)
}

/// Whether a known transaction has a local order.
pub open spec fn is_own(v: QueueView, h: H256) -> bool {
    let k = slot_of(v.by_hash[h]);
    ||| is_pending(v, h) && v.current.orders[k].origin == TransactionOrigin::Local
    ||| is_waiting(v, h) && v.future.orders[k].origin == TransactionOrigin::Local
}

/// Whether what is noted of a transaction that stayed in the queue follows it. A local one that became
/// pending, or was pending when it became local, is noted as pending. One that came to wait, or waited
/// when it became local, is noted as waiting. Of others nothing new is noted, and nothing but this is.
pub open spec fn note_follows(v: QueueView, w: QueueView, h: H256) -> bool {
    &&& !is_own(w, h) ==> noted_of(w, h) == noted_of(v, h)
    &&& is_own(w, h) && is_pending(w, h) && (is_waiting(v, h) || !is_own(v, h)) ==> noted_of(w, h)
        == Some(LocalTransactionStatus::Pending)
    &&& is_own(w, h) && is_waiting(w, h) && (is_pending(v, h) || !is_own(v, h)) ==> noted_of(w, h)
        == Some(LocalTransactionStatus::Future)
    &&& noted_of(w, h) == noted_of(v, h) || noted_of(w, h) == Some(
        if is_pending(w, h) {
            LocalTransactionStatus::Pending
        } else {
            LocalTransactionStatus::Future
        },
    )
}

/// Whether what is noted of a transaction that left the queue tells why. A local one that was pending
/// below the state nonce was mined. A local one that was not below it was replaced by the one that shared
/// its place. Nothing new is noted of one that waited below it, or is not local.
pub open spec fn note_tells(v: QueueView, w: QueueView, h: H256, state_nonce: U256) -> bool {
    let tx = v.by_hash[h];
    let old = tx.transaction.nonce@ < state_nonce@;
    let k = slot_of(tx);
    &&& !old && is_pending(v, h) && tx.origin == TransactionOrigin::Local ==> v.future.orders.contains_key(
        k,
    ) && noted_of(w, h) == Some(
        LocalTransactionStatus::Replaced(
            tx.transaction,
            v.future.orders[k].gas_price,
            v.future.orders[k].hash,
        ),
    )
    &&& !old && is_waiting(v, h) && tx.origin == TransactionOrigin::Local ==> v.current.orders.contains_key(
        k,
    ) && noted_of(w, h) == Some(
        LocalTransactionStatus::Replaced(
            tx.transaction,
            v.current.orders[k].gas_price,
            v.current.orders[k].hash,
        ),
    )
    &&& old && is_pending(v, h) && tx.origin == TransactionOrigin::Local ==> noted_of(w, h) == Some(
        LocalTransactionStatus::Mined(tx.transaction),
    )
    &&& old && is_waiting(v, h) ==> noted_of(w, h) == noted_of(v, h)
    &&& tx.origin != TransactionOrigin::Local && !is_own(v, h) ==> noted_of(w, h) == noted_of(v, h)
}

/// A sender leaves `current`.
proof fn lemma_notes_retreated(v: QueueView, sender: Address, base: U256, h: H256)
    requires
        consistent(v),
        forall|k: Slot| #[trigger]
            v.future.orders.contains_key(k) && k.sender == sender ==> k.nonce@ >= base@,
    ensures
        ({
            let w = retreated(v, places_of(v.current.orders, sender), base);
            let mine = v.by_hash.contains_key(h) && slot_of(v.by_hash[h]).sender == sender;
            &&& consistent(w)
            &&& !mine ==> noted_of(w, h) == noted_of(v, h)
            &&& w.by_hash.contains_key(h) ==> v.by_hash.contains_key(h) && w.by_hash[h] == v.by_hash[h]
            &&& !mine ==> w.by_hash.contains_key(h) == v.by_hash.contains_key(h)
            &&& mine && w.by_hash.contains_key(h) ==> {
                &&& is_waiting(w, h)
                &&& is_own(w, h) == is_own(v, h)
                &&& noted_of(w, h) == if is_pending(v, h) && is_own(v, h) {
                    Some(LocalTransactionStatus::Future)
                } else {
                    noted_of(v, h)
                }
            }
            &&& mine && !w.by_hash.contains_key(h) ==> note_tells(v, w, h, base)
        }),
{
    let here = places_of(v.current.orders, sender);
    let w = retreated(v, here, base);
    lemma_retreated(v, here, base);
    if v.by_hash.contains_key(h) {
        lemma_home(v, h);
        let k = slot_of(v.by_hash[h]);
        assert(v.current.orders.contains_key(k) ==> v.by_hash.contains_key(v.current.orders[k].hash));
        assert(v.future.orders.contains_key(k) ==> v.by_hash.contains_key(v.future.orders[k].hash));
    }
    if w.by_hash.contains_key(h) {
        lemma_home(w, h);
        let k = slot_of(v.by_hash[h]);
        if k.sender == sender {
            assert(!w.current.orders.contains_key(k));
            assert(held(w.by_hash, w.future.orders, h));
        }
    }
}

/// A run of a sender that has nothing pending comes into `current`.
proof fn lemma_notes_promoted(v: QueueView, sender: Address, from: nat, base: U256, h: H256)
    requires
        consistent(v),
        forall|k: Slot| #[trigger]
            v.current.orders.contains_key(k) && span(
                sender,
                from,
                run_end(v.future.orders, sender, from),
            ).contains(k) ==> !v.future.orders.contains_key(k),
    ensures
        ({
            let w = promoted(v, sender, from, base);
            &&& consistent(w)
            &&& w.by_hash == v.by_hash
            &&& v.by_hash.contains_key(h) ==> {
                &&& is_own(w, h) == is_own(v, h)
                &&& noted_of(w, h) == if is_waiting(v, h) && is_pending(w, h) && is_own(w, h) {
                    Some(LocalTransactionStatus::Pending)
                } else {
                    noted_of(v, h)
                }
                &&& is_pending(v, h) ==> is_pending(w, h)
                &&& is_pending(w, h) && !is_pending(v, h) ==> is_waiting(v, h)
            }
            &&& !v.by_hash.contains_key(h) ==> noted_of(w, h) == noted_of(v, h)
            &&& v.by_hash.contains_key(h) && slot_of(v.by_hash[h]).sender != sender ==> noted_of(w, h)
                == noted_of(v, h)
        }),
{
    let end = run_end(v.future.orders, sender, from);
    let w = promoted(v, sender, from, base);
    lemma_promoted_upto(v, sender, from, base, end);
    assert(w.by_hash =~= v.by_hash);
    if v.by_hash.contains_key(h) {
        lemma_home(v, h);
        lemma_home(w, h);
        let k = slot_of(v.by_hash[h]);
        assert(v.current.orders.contains_key(k) ==> v.by_hash.contains_key(v.current.orders[k].hash));
        assert(v.future.orders.contains_key(k) ==> v.by_hash.contains_key(v.future.orders[k].hash));
    }
}

/// Limits note nothing.
proof fn lemma_notes_limited(v: QueueView, h: H256)
    requires
        consistent(v),
    ensures
        noted_of(current_limited(v), h) == noted_of(v, h),
        noted_of(future_limited(v), h) == noted_of(v, h),
{
    if v.by_hash.contains_key(h) {
        let k = slot_of(v.by_hash[h]);
        assert(v.current.orders.contains_key(k) ==> fits(
            v.current.orders[k],
            v.by_hash[v.current.orders[k].hash],
            v.strategy,
        ));
        assert(v.future.orders.contains_key(k) ==> fits(
            v.future.orders[k],
            v.by_hash[v.future.orders[k].hash],
            v.strategy,
        ));
    }
}

/// Sorting anew.
proof fn lemma_notes_resorted(v: QueueView, sender: Address, state_nonce: U256, h: H256)
    requires
        consistent(v),
    ensures
        ({
            let w = resorted(v, sender, state_nonce);
            let mine = v.by_hash.contains_key(h) && slot_of(v.by_hash[h]).sender == sender;
            &&& !mine ==> noted_of(w, h) == noted_of(v, h)
            &&& mine && w.by_hash.contains_key(h) ==> note_follows(v, w, h)
            &&& mine && !w.by_hash.contains_key(h) ==> note_tells(v, w, h, state_nonce)
        }),
{
    let young = aged(v, sender, state_nonce);
    let here = places_of(young.current.orders, sender);
    let moved = retreated(young, here, state_nonce);
    let limited = future_limited(moved);
    let w = resorted(v, sender, state_nonce);
    lemma_aged(v, sender, state_nonce);
    lemma_notes_retreated(young, sender, state_nonce, h);
    lemma_notes_limited(moved, h);
    lemma_future_limited(moved);
    assert forall|k: Slot| #[trigger]
        limited.current.orders.contains_key(k) && span(
            sender,
            state_nonce@,
            run_end(limited.future.orders, sender, state_nonce@),
        ).contains(k) implies !limited.future.orders.contains_key(k) by {
        assert(!here.contains(k));
    }
    lemma_notes_promoted(limited, sender, state_nonce@, state_nonce, h);
    if v.by_hash.contains_key(h) {
        lemma_home(v, h);
        let k = slot_of(v.by_hash[h]);
        assert(v.current.orders.contains_key(k) ==> v.by_hash.contains_key(v.current.orders[k].hash));
        assert(v.future.orders.contains_key(k) ==> v.by_hash.contains_key(v.future.orders[k].hash));
    }
    if moved.by_hash.contains_key(h) {
        lemma_home(moved, h);
        let k = slot_of(moved.by_hash[h]);
        assert(moved.future.orders.contains_key(k) ==> fits(
            moved.future.orders[k],
            moved.by_hash[moved.future.orders[k].hash],
            moved.strategy,
        ));
    }
    if limited.by_hash.contains_key(h) {
        lemma_home(limited, h);
    }
    if w.by_hash.contains_key(h) {
        lemma_home(w, h);
    }
}

/// Where the queue is told the state nonce of a sender, what is noted of that sender's transactions
/// follows them and tells why they left. Of others nothing is noted.
pub proof fn lemma_notes_where_state_nonce_is_told(
    v: QueueView,
    sender: Address,
    state_nonce: U256,
    h: H256,
)
    requires
        consistent(v),
    ensures
        ({
            let w = without_old(v, sender, state_nonce);
            let mine = v.by_hash.contains_key(h) && v.by_hash[h].transaction.signer == Some(sender);
            &&& !mine ==> noted_of(w, h) == noted_of(v, h)
            &&& mine && w.by_hash.contains_key(h) ==> note_follows(v, w, h)
            &&& mine && !w.by_hash.contains_key(h) ==> note_tells(v, w, h, state_nonce)
        }),
{
    lemma_notes_resorted(v, sender, state_nonce, h);
    if v.by_hash.contains_key(h) {
        lemma_home(v, h);
    }
}

/// One transaction is struck out: of the others nothing is noted, and they stay where they are.
proof fn lemma_notes_struck(v: QueueView, hash: H256, h: H256)
    requires
        consistent(v),
        v.by_hash.contains_key(hash),
        h != hash,
    ensures
        ({
            let w = struck(v, hash);
            &&& consistent(w)
            &&& noted_of(w, h) == noted_of(v, h)
            &&& w.by_hash.contains_key(h) == v.by_hash.contains_key(h)
            &&& v.by_hash.contains_key(h) ==> w.by_hash[h] == v.by_hash[h]
            &&& is_pending(w, h) == is_pending(v, h)
            &&& is_waiting(w, h) == is_waiting(v, h)
            &&& is_own(w, h) == is_own(v, h)
        }),
{
    lemma_without(v, hash);
    lemma_home(v, hash);
    if v.by_hash.contains_key(h) {
        lemma_home(v, h);
        lemma_home(struck(v, hash), h);
    }
}

/// Where a pending transaction is found invalid, what is noted of the others of its sender follows them
/// and tells why they left. Of other senders' nothing is noted.
pub proof fn lemma_notes_where_pending_is_invalid(
    v: QueueView,
    hash: H256,
    state_nonce: U256,
    h: H256,
)
    requires
        consistent(v),
        is_pending(v, hash),
        h != hash,
    ensures
        ({
            let w = without_invalid(v, hash, state_nonce);
            let mine = v.by_hash.contains_key(h) && v.by_hash[h].transaction.signer
                == v.by_hash[hash].transaction.signer;
            &&& !mine ==> noted_of(w, h) == noted_of(v, h)
            &&& mine && w.by_hash.contains_key(h) ==> note_follows(v, w, h)
            &&& mine && !w.by_hash.contains_key(h) ==> note_tells(v, w, h, state_nonce)
        }),
{
    let sender = slot_of(v.by_hash[hash]).sender;
    lemma_home(v, hash);
    lemma_notes_struck(v, hash, h);
    lemma_notes_resorted(struck(v, hash), sender, state_nonce, h);
    if v.by_hash.contains_key(h) {
        lemma_home(v, h);
    }
}

/// Where a waiting transaction is found invalid, what is noted of the others of its sender follows them,
/// as long as no place has two. Of those that leave, which are below the state nonce, nothing is noted, and
/// neither is of other senders'.
pub proof fn lemma_notes_where_waiting_is_invalid(
    v: QueueView,
    hash: H256,
    state_nonce: U256,
    h: H256,
)
    requires
        consistent(v),
        is_waiting(v, hash),
        h != hash,
        forall|k: Slot| #[trigger]
            v.current.orders.contains_key(k) ==> !v.future.orders.contains_key(k),
    ensures
        ({
            let w = without_invalid(v, hash, state_nonce);
            let mine = v.by_hash.contains_key(h) && v.by_hash[h].transaction.signer
                == v.by_hash[hash].transaction.signer;
            &&& !mine ==> noted_of(w, h) == noted_of(v, h)
            &&& mine && w.by_hash.contains_key(h) ==> note_follows(v, w, h)
            &&& mine && !w.by_hash.contains_key(h) ==> noted_of(w, h) == noted_of(v, h)
        }),
{
    let sender = slot_of(v.by_hash[hash]).sender;
    let rest = struck(v, hash);
    let young = aged(rest, sender, state_nonce);
    let w = without_invalid(v, hash, state_nonce);
    lemma_home(v, hash);
    lemma_notes_struck(v, hash, h);
    lemma_aged(rest, sender, state_nonce);
    assert forall|k: Slot| #[trigger]
        young.current.orders.contains_key(k) && span(
            sender,
            state_nonce@,
            run_end(young.future.orders, sender, state_nonce@),
        ).contains(k) implies !young.future.orders.contains_key(k) by {
        assert(v.current.orders.contains_key(k));
    }
    lemma_notes_promoted(young, sender, state_nonce@, state_nonce, h);
    if v.by_hash.contains_key(h) {
        lemma_home(v, h);
    }
    if young.by_hash.contains_key(h) {
        lemma_home(young, h);
        lemma_home(w, h);
    }
}

/// Revalidating.
proof fn lemma_notes_revalidated(v: QueueView, sender: Address, state_nonce: U256, h: H256)
    requires
        consistent(v),
    ensures
        ({
            let w = revalidated(v, sender, state_nonce);
            let mine = v.by_hash.contains_key(h) && slot_of(v.by_hash[h]).sender == sender;
            &&& consistent(w)
            &&& w.by_hash.contains_key(h) ==> v.by_hash.contains_key(h) && w.by_hash[h] == v.by_hash[h]
            &&& !mine ==> noted_of(w, h) == noted_of(v, h)
            &&& mine && w.by_hash.contains_key(h) ==> note_follows(v, w, h) && is_own(w, h) == is_own(v, h)
            &&& mine && !w.by_hash.contains_key(h) ==> note_tells(v, w, h, state_nonce)
        }),
{
    let young = aged(v, sender, state_nonce);
    let here = places_of(young.current.orders, sender);
    let moved = retreated(young, here, state_nonce);
    let w = revalidated(v, sender, state_nonce);
    lemma_revalidated(v, sender, state_nonce);
    lemma_aged(v, sender, state_nonce);
    lemma_notes_retreated(young, sender, state_nonce, h);
    assert forall|k: Slot| #[trigger]
        moved.current.orders.contains_key(k) && span(
            sender,
            state_nonce@,
            run_end(moved.future.orders, sender, state_nonce@),
        ).contains(k) implies !moved.future.orders.contains_key(k) by {
        assert(!here.contains(k));
    }
    lemma_notes_promoted(moved, sender, state_nonce@, state_nonce, h);
    if v.by_hash.contains_key(h) {
        lemma_home(v, h);
        let k = slot_of(v.by_hash[h]);
        assert(v.current.orders.contains_key(k) ==> v.by_hash.contains_key(v.current.orders[k].hash));
        assert(v.future.orders.contains_key(k) ==> v.by_hash.contains_key(v.future.orders[k].hash));
    }
    if moved.by_hash.contains_key(h) {
        lemma_home(moved, h);
    }
    if w.by_hash.contains_key(h) {
        lemma_home(w, h);
    }
}

/// A sender's transactions become local.
proof fn lemma_notes_marked_local(v: QueueView, sender: Address, h: H256)
    requires
        consistent(v),
    ensures
        ({
            let w = marked_local(v, sender);
            let mine = v.by_hash.contains_key(h) && slot_of(v.by_hash[h]).sender == sender;
            &&& consistent(w)
            &&& w.by_hash == v.by_hash
            &&& !mine ==> noted_of(w, h) == noted_of(v, h)
            &&& is_pending(w, h) == is_pending(v, h)
            &&& is_waiting(w, h) == is_waiting(v, h)
            &&& mine ==> is_own(w, h)
            &&& mine ==> noted_of(w, h) == if is_own(v, h) {
                noted_of(v, h)
            } else if is_pending(v, h) {
                Some(LocalTransactionStatus::Pending)
            } else {
                Some(LocalTransactionStatus::Future)
            }
        }),
{
    lemma_marked_local(v, sender);
    if v.by_hash.contains_key(h) {
        lemma_home(v, h);
    }
}

/// The state before a transaction is put in its place.
proof fn lemma_notes_prepared(v: QueueView, tx: VerifiedTransaction, state_nonce: U256, h: H256)
    requires
        consistent(v),
    ensures
        ({
            let w = prepared(v, tx, state_nonce);
            let sender = slot_of(tx).sender;
            let mine = v.by_hash.contains_key(h) && slot_of(v.by_hash[h]).sender == sender;
            &&& consistent(w)
            &&& w.by_hash.contains_key(h) ==> v.by_hash.contains_key(h) && w.by_hash[h] == v.by_hash[h]
            &&& !mine ==> noted_of(w, h) == noted_of(v, h)
            &&& mine && w.by_hash.contains_key(h) ==> note_follows(v, w, h)
            &&& mine && w.by_hash.contains_key(h) && tx.origin == TransactionOrigin::Local ==> is_own(w, h)
            &&& mine && w.by_hash.contains_key(h) && tx.origin != TransactionOrigin::Local ==> is_own(w, h)
                == is_own(v, h)
            &&& mine && !w.by_hash.contains_key(h) ==> note_tells(v, w, h, state_nonce)
        }),
{
    let sender = slot_of(tx).sender;
    let plain = revalidated(v, sender, state_nonce);
    lemma_notes_revalidated(v, sender, state_nonce, h);
    lemma_notes_marked_local(plain, sender, h);
    if plain.by_hash.contains_key(h) {
        lemma_home(plain, h);
    }
}

/// What is noted where a transaction is imported that is neither known nor old. Of its sender's
/// transactions that stay, what is noted follows them, and where the transaction is local they are local
/// too. Of those that leave other places, what is noted tells why. One that was local and alone at the
/// place of the transaction, and left it, was replaced, by this transaction at its price. Of other senders'
/// nothing is noted.
pub proof fn lemma_notes_where_imported(
    v: QueueView,
    tx: VerifiedTransaction,
    state_nonce: U256,
    h: H256,
)
    requires
        consistent(v),
        tx.transaction.signer is Some,
        !v.by_hash.contains_key(tx.transaction.hash),
        tx.transaction.nonce@ >= state_nonce@,
        h != tx.transaction.hash,
    ensures
        ({
            let w = import(v, tx, state_nonce).0;
            let mine = v.by_hash.contains_key(h) && v.by_hash[h].transaction.signer
                == tx.transaction.signer;
            let old = v.by_hash[h].transaction.nonce@ < state_nonce@;
            let slot = Slot { sender: tx.transaction.signer->0, nonce: tx.transaction.nonce };
            let alone = v.current.orders.contains_key(slot) != v.future.orders.contains_key(slot);
            &&& !mine ==> noted_of(w, h) == noted_of(v, h)
            &&& mine && w.by_hash.contains_key(h) ==> note_follows(v, w, h)
            &&& mine && w.by_hash.contains_key(h) && tx.origin == TransactionOrigin::Local ==> is_own(w, h)
            &&& mine && w.by_hash.contains_key(h) && tx.origin != TransactionOrigin::Local ==> is_own(w, h)
                == is_own(v, h)
            &&& mine && old ==> !w.by_hash.contains_key(h)
            &&& mine && !w.by_hash.contains_key(h) && slot_of(v.by_hash[h]) != slot ==> note_tells(
                v,
                w,
                h,
                state_nonce,
            )
            &&& mine && !w.by_hash.contains_key(h) && slot_of(v.by_hash[h]) == slot && alone
                && v.by_hash[h].origin == TransactionOrigin::Local ==> noted_of(w, h) == Some(
                LocalTransactionStatus::Replaced(
                    v.by_hash[h].transaction,
                    tx.transaction.gas_price,
                    tx.transaction.hash,
                ),
            )
        }),
{
    reveal(import);
    let w = import(v, tx, state_nonce).0;
    let slot = slot_of(tx);
    let Slot { sender, nonce } = slot;
    let ready = prepared(v, tx, state_nonce);
    let end = run_end(ready.current.orders, sender, state_nonce@);
    lemma_ready(v, tx, state_nonce);
    lemma_prepared(v, tx, state_nonce);
    lemma_prepared_settled(v, tx, state_nonce);
    lemma_settled_run(ready, sender, state_nonce);
    lemma_notes_prepared(v, tx, state_nonce, h);
    if v.by_hash.contains_key(h) {
        lemma_home(v, h);
    }
    if ready.by_hash.contains_key(h) {
        lemma_home(ready, h);
        let k = slot_of(ready.by_hash[h]);
        if k.sender == sender && k.nonce@ < state_nonce@ {
            assert(!ready.current.orders.contains_key(k)) by {
                if ready.current.orders.contains_key(k) {
                    assert(span(sender, state_nonce@, end).contains(k));
                }
            }
            assert(!ready.future.orders.contains_key(k));
        }
    }
    if nonce@ > end {
        let entered = entered_future(ready, tx, state_nonce);
        lemma_entered_future(ready, tx, state_nonce);
        lemma_notes_entered_future(ready, tx, state_nonce, h);
        lemma_notes_limited(entered, h);
        lemma_notes_kept(entered, future_limited(entered), h);
    } else {
        let full = filled(ready, sender, nonce, state_nonce);
        let entered = entered_current(full, tx, state_nonce);
        lemma_nothing_to_promote(ready, sender, nonce@, state_nonce);
        assert(full == promoted(ready, sender, nonce@ + 1, state_nonce));
        lemma_filled(ready, sender, nonce, state_nonce);
        assert forall|k: Slot| #[trigger]
            ready.current.orders.contains_key(k) && span(
                sender,
                nonce@ + 1,
                run_end(ready.future.orders, sender, nonce@ + 1),
            ).contains(k) implies !ready.future.orders.contains_key(k) by {
            assert(span(sender, state_nonce@, end).contains(k));
        }
        lemma_notes_promoted(ready, sender, nonce@ + 1, state_nonce, h);
        if full.by_hash.contains_key(h) {
            lemma_home(full, h);
        }
        lemma_entered_current(full, tx, state_nonce);
        lemma_notes_entered_current(full, tx, state_nonce, h);
        lemma_notes_limited(entered, h);
        lemma_notes_kept(entered, current_limited(entered), h);
    }
}

/// A transaction comes into `future`.
proof fn lemma_notes_entered_future(v: QueueView, tx: VerifiedTransaction, base: U256, h: H256)
    requires
        consistent(v),
        tx.transaction.signer is Some,
        !v.by_hash.contains_key(tx.transaction.hash),
        h != tx.transaction.hash,
    ensures
        ({
            let w = entered_future(v, tx, base);
            &&& w.by_hash.contains_key(h) ==> v.by_hash.contains_key(h) && w.by_hash[h] == v.by_hash[h]
            &&& w.by_hash.contains_key(h) ==> is_pending(w, h) == is_pending(v, h) && is_waiting(w, h)
                == is_waiting(v, h) && is_own(w, h) == is_own(v, h)
            &&& w.by_hash.contains_key(h) == v.by_hash.contains_key(h) ==> noted_of(w, h) == noted_of(v, h)
            &&& v.by_hash.contains_key(h) && !w.by_hash.contains_key(h) ==> {
                &&& slot_of(v.by_hash[h]) == slot_of(tx)
                &&& noted_of(w, h) == if v.by_hash[h].origin == TransactionOrigin::Local {
                    Some(
                        LocalTransactionStatus::Replaced(
                            v.by_hash[h].transaction,
                            tx.transaction.gas_price,
                            tx.transaction.hash,
                        ),
                    )
                } else {
                    noted_of(v, h)
                }
            }
        }),
{
    lemma_entered_future(v, tx, base);
    let slot = slot_of(tx);
    if v.by_hash.contains_key(h) {
        lemma_home(v, h);
    }
    if v.future.orders.contains_key(slot) {
        lemma_home(v, v.future.orders[slot].hash);
    }
    if entered_future(v, tx, base).by_hash.contains_key(h) {
        lemma_home(entered_future(v, tx, base), h);
    }
}

/// A transaction comes into `current`.
proof fn lemma_notes_entered_current(v: QueueView, tx: VerifiedTransaction, base: U256, h: H256)
    requires
        consistent(v),
        tx.transaction.signer is Some,
        !v.by_hash.contains_key(tx.transaction.hash),
        h != tx.transaction.hash,
    ensures
        ({
            let w = entered_current(v, tx, base);
            &&& w.by_hash.contains_key(h) ==> v.by_hash.contains_key(h) && w.by_hash[h] == v.by_hash[h]
            &&& w.by_hash.contains_key(h) ==> is_pending(w, h) == is_pending(v, h) && is_waiting(w, h)
                == is_waiting(v, h) && is_own(w, h) == is_own(v, h)
            &&& w.by_hash.contains_key(h) == v.by_hash.contains_key(h) ==> noted_of(w, h) == noted_of(v, h)
            &&& v.by_hash.contains_key(h) && !w.by_hash.contains_key(h) ==> {
                &&& slot_of(v.by_hash[h]) == slot_of(tx)
                &&& noted_of(w, h) == if v.by_hash[h].origin == TransactionOrigin::Local {
                    Some(
                        LocalTransactionStatus::Replaced(
                            v.by_hash[h].transaction,
                            tx.transaction.gas_price,
                            tx.transaction.hash,
                        ),
                    )
                } else {
                    noted_of(v, h)
                }
            }
        }),
{
    lemma_entered_current(v, tx, base);
    let slot = slot_of(tx);
    if v.by_hash.contains_key(h) {
        lemma_home(v, h);
    }
    if v.current.orders.contains_key(slot) {
        lemma_home(v, v.current.orders[slot].hash);
    }
    if entered_current(v, tx, base).by_hash.contains_key(h) {
        lemma_home(entered_current(v, tx, base), h);
    }
}

/// What stays of a queue where orders and transactions leave stays in its place.
proof fn lemma_notes_kept(v: QueueView, w: QueueView, h: H256)
    requires
        consistent(v),
        w == current_limited(v) || w == future_limited(v),
    ensures
        w.by_hash.contains_key(h) ==> v.by_hash.contains_key(h) && w.by_hash[h] == v.by_hash[h],
        w.by_hash.contains_key(h) ==> is_pending(w, h) == is_pending(v, h) && is_waiting(w, h)
            == is_waiting(v, h) && is_own(w, h) == is_own(v, h),
        v.by_hash.contains_key(h) && !w.by_hash.contains_key(h) ==> v.by_hash[h].origin
            != TransactionOrigin::Local && !is_own(v, h),
{
    crate::queue_lemmas::lemma_current_limited(v);
    lemma_future_limited(v);
    if v.by_hash.contains_key(h) {
        lemma_home(v, h);
        let k = slot_of(v.by_hash[h]);
        assert(v.current.orders.contains_key(k) ==> fits(
            v.current.orders[k],
            v.by_hash[v.current.orders[k].hash],
            v.strategy,
        ));
        assert(v.future.orders.contains_key(k) ==> fits(
            v.future.orders[k],
            v.by_hash[v.future.orders[k].hash],
            v.strategy,
        ));
    }
    if w.by_hash.contains_key(h) {
        lemma_home(w, h);
    }
}

/// Of the transaction that is imported nothing is noted, unless it is local and too cheap: then the one at
/// its place has replaced it, at its price.
pub proof fn lemma_notes_of_the_imported(
    v: QueueView,
    tx: VerifiedTransaction,
    state_nonce: U256,
    k: Slot,
)
    requires
        consistent(v),
        tx.transaction.signer is Some,
        !v.by_hash.contains_key(tx.transaction.hash),
        k == (Slot { sender: tx.transaction.signer->0, nonce: tx.transaction.nonce }),
    ensures
        ({
            let (w, r) = import(v, tx, state_nonce);
            let hash = tx.transaction.hash;
            let refused = r == Err::<TransactionImportResult, TransactionError>(
                TransactionError::TooCheapToReplace,
            );
            let local = tx.origin == TransactionOrigin::Local;
            &&& !(refused && local) ==> noted_of(w, hash) == noted_of(v, hash)
            &&& refused && local && v.current.orders.contains_key(k) && !v.future.orders.contains_key(k)
                ==> noted_of(w, hash) == Some(
                LocalTransactionStatus::Replaced(
                    tx.transaction,
                    v.current.orders[k].gas_price,
                    v.current.orders[k].hash,
                ),
            )
            &&& refused && local && v.future.orders.contains_key(k) && !v.current.orders.contains_key(k)
                ==> noted_of(w, hash) == Some(
                LocalTransactionStatus::Replaced(
                    tx.transaction,
                    v.future.orders[k].gas_price,
                    v.future.orders[k].hash,
                ),
            )
        }),
{
    reveal(import);
    let hash = tx.transaction.hash;
    let Slot { sender, nonce } = k;
    if nonce@ >= state_nonce@ {
        let ready = prepared(v, tx, state_nonce);
        let end = run_end(ready.current.orders, sender, state_nonce@);
        lemma_ready(v, tx, state_nonce);
        lemma_prepared(v, tx, state_nonce);
        lemma_prepared_settled(v, tx, state_nonce);
        lemma_settled_run(ready, sender, state_nonce);
        lemma_notes_prepared(v, tx, state_nonce, hash);
        if nonce@ > end {
            let entered = entered_future(ready, tx, state_nonce);
            lemma_entered_future(ready, tx, state_nonce);
            lemma_notes_limited(entered, hash);
        } else {
            let full = filled(ready, sender, nonce, state_nonce);
            let entered = entered_current(full, tx, state_nonce);
            lemma_nothing_to_promote(ready, sender, nonce@, state_nonce);
            assert(full == promoted(ready, sender, nonce@ + 1, state_nonce));
            lemma_filled(ready, sender, nonce, state_nonce);
            assert forall|j: Slot| #[trigger]
                ready.current.orders.contains_key(j) && span(
                    sender,
                    nonce@ + 1,
                    run_end(ready.future.orders, sender, nonce@ + 1),
                ).contains(j) implies !ready.future.orders.contains_key(j) by {
                assert(span(sender, state_nonce@, end).contains(j));
            }
            lemma_notes_promoted(ready, sender, nonce@ + 1, state_nonce, hash);
            lemma_entered_current(full, tx, state_nonce);
            lemma_notes_limited(entered, hash);
        }
    }
}

/// Limits note nothing, when they are set or enforced.
pub proof fn lemma_limits_note_nothing(v: QueueView, limit: usize, gas_limit: U256, h: H256)
    requires
        consistent(v),
    ensures
        noted_of(with_limit(v, limit), h) == noted_of(v, h),
        noted_of(with_total_gas_limit(v, gas_limit), h) == noted_of(v, h),
{
    let less = QueueView {
        current: SetView { limit, ..v.current },
        future: SetView { limit, ..v.future },
        ..v
    };
    lemma_notes_limited(less, h);
    crate::queue_lemmas::lemma_current_limited(less);
    lemma_notes_limited(current_limited(less), h);
    lemma_notes_limited(
        QueueView {
            current: SetView { gas_limit, ..v.current },
            future: SetView { gas_limit, ..v.future },
            ..v
        },
        h,
    );
}

} // verus!
