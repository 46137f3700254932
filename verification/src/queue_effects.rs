//! What each operation does to the queue, told by the fields that a caller sees.
use crate::local_transactions::LocalTransactionStatus;
use crate::order::{PrioritizationStrategy, TransactionOrder};
use crate::order_laws::{lemma_penalty, once_more_penalized};
use crate::queue_lemmas::lemma_home;
use crate::queue_model::{
    added, consistent, fresh, import, listing, order_for, pending, penalized_for, with_hysteresis,
    with_limit, with_total_gas_limit, QueueView,
};
use crate::set_laws::{
    keeps_to_limits, lemma_dropped_is_over_limit, lemma_keeps_to_limits, lemma_price_asked,
    lemma_ranked, over_limit, undercut,
};
use crate::transaction::{
    AccountDetails, Error, SignedTransaction, TransactionError, TransactionImportResult,
    TransactionOrigin, VerifiedTransaction,
};
use crate::transaction_set::{is_ranking, ranking, slot_of, SetView};
use crate::uint::{lemma_u256, range, u256, Address, H256, U256};
use crate::vec_map::Slot;
use vstd::prelude::*;

verus! {

// ---------------------------------------------------------------------------------------------
// Settings
// ---------------------------------------------------------------------------------------------

/// Whether what the queue was set up with is the same: the strategy, the minimal gas price and all
/// limits.
pub open spec fn same_settings(v: QueueView, w: QueueView) -> bool {
    &&& w.strategy == v.strategy
    &&& w.minimal_gas_price == v.minimal_gas_price
    &&& w.tx_gas_limit == v.tx_gas_limit
    &&& w.gas_limit == v.gas_limit
    &&& w.current.limit == v.current.limit
    &&& w.current.gas_limit == v.current.gas_limit
    &&& w.future.limit == v.future.limit
    &&& w.future.gas_limit == v.future.gas_limit
}

/// Whether the same transactions are in the same places, with the same orders.
pub open spec fn same_transactions(v: QueueView, w: QueueView) -> bool {
    &&& w.current.orders == v.current.orders
    &&& w.future.orders == v.future.orders
    &&& w.by_hash == v.by_hash
    &&& w.last_nonces == v.last_nonces
}

/// Whether what is known in `w` was known in `v`, and is the same.
pub open spec fn known_before(v: QueueView, w: QueueView) -> bool {
    forall|h: H256| #[trigger]
        w.by_hash.contains_key(h) ==> v.by_hash.contains_key(h) && w.by_hash[h] == v.by_hash[h]
}

/// A new queue holds nothing. Both sets have the given limits, no price is too low, and the gas of one
/// transaction is bounded by the given limit alone.
pub proof fn lemma_new_queue(
    strategy: PrioritizationStrategy,
    limit: usize,
    gas_limit: U256,
    tx_gas_limit: U256,
    k: Slot,
    h: H256,
)
    ensures
        ({
            let v = fresh(strategy, limit, gas_limit, tx_gas_limit);
            &&& v.strategy == strategy
            &&& v.minimal_gas_price@ == 0
            &&& v.tx_gas_limit == tx_gas_limit
            &&& v.gas_limit@ == range() - 1
            &&& v.current.limit == limit
            &&& v.future.limit == limit
            &&& v.current.gas_limit == gas_limit
            &&& v.future.gas_limit == gas_limit
            &&& !v.current.orders.contains_key(k)
            &&& !v.future.orders.contains_key(k)
            &&& !v.by_hash.contains_key(h)
            &&& !v.last_nonces.contains_key(k.sender)
            &&& !v.local.contains_key(h)
        }),
{
    lemma_u256(0);
    lemma_u256((range() - 1) as nat);
}

/// Where a gas limit is set, a tenth more is let in, rounded down. What leaves the range is cut to the
/// largest number.
pub proof fn lemma_tenth_more(gas_limit: U256)
    ensures
        gas_limit@ + gas_limit@ / 10 < range() ==> u256(with_hysteresis(gas_limit@))@ == gas_limit@
            + gas_limit@ / 10,
        gas_limit@ + gas_limit@ / 10 >= range() ==> u256(with_hysteresis(gas_limit@))@ == range() - 1,
{
    lemma_u256(with_hysteresis(gas_limit@));
}

// ---------------------------------------------------------------------------------------------
// Limits
// ---------------------------------------------------------------------------------------------

/// Whether `after` is what is left of `before` under the limits of `after`: an order stays as it is unless
/// it is over a limit. Then it goes.
pub open spec fn cut_to_limits(before: SetView, after: SetView) -> bool {
    let bounds = SetView { orders: before.orders, ..after };
    &&& forall|k: Slot| #[trigger]
        after.orders.contains_key(k) ==> before.orders.contains_key(k) && after.orders[k]
            == before.orders[k]
    &&& forall|i: int, k: Slot|
        0 <= i < ranking(before.orders).len() && #[trigger] before.orders.contains_key(k)
            && #[trigger] ranking(before.orders)[i] == before.orders[k] ==> (after.orders.contains_key(k)
            <==> !over_limit(bounds, i))
    &&& keeps_to_limits(after)
}

proof fn lemma_cut_to_limits(set: SetView)
    requires
        is_ranking(ranking(set.orders), set.orders),
        crate::transaction_set::one_strategy(set.orders),
    ensures
        cut_to_limits(
            set,
            SetView {
                orders: set.orders.remove_keys(crate::transaction_set::excess(set)),
                ..set
            },
        ),
{
    let after = SetView {
        orders: set.orders.remove_keys(crate::transaction_set::excess(set)),
        ..set
    };
    lemma_keeps_to_limits(set);
    assert forall|i: int, k: Slot|
        0 <= i < ranking(set.orders).len() && #[trigger] set.orders.contains_key(k)
            && #[trigger] ranking(set.orders)[i] == set.orders[k] implies (after.orders.contains_key(k)
        <==> !over_limit(set, i)) by {
        lemma_dropped_is_over_limit(set, i, k);
    }
}

/// Setting the limit on the number of transactions sets it for both sets, and cuts both to it. Nothing
/// else changes.
pub proof fn lemma_set_limit(v: QueueView, limit: usize)
    requires
        consistent(v),
        v.by_hash.dom().finite(),
    ensures
        ({
            let w = with_limit(v, limit);
            &&& w.current.limit == limit
            &&& w.future.limit == limit
            &&& w.current.gas_limit == v.current.gas_limit
            &&& w.future.gas_limit == v.future.gas_limit
            &&& cut_to_limits(v.current, w.current)
            &&& cut_to_limits(v.future, w.future)
            &&& known_before(v, w)
            &&& w.strategy == v.strategy
            &&& w.minimal_gas_price == v.minimal_gas_price
            &&& w.tx_gas_limit == v.tx_gas_limit
            &&& w.gas_limit == v.gas_limit
        }),
{
    lemma_ranked(v.current.orders, v.by_hash, v.strategy);
    lemma_ranked(v.future.orders, v.by_hash, v.strategy);
    lemma_cut_to_limits(SetView { limit, ..v.current });
    lemma_cut_to_limits(SetView { limit, ..v.future });
}

/// Setting the limit on total gas sets it for both sets. The transactions that wait are cut to it at once,
/// those that are pending stay until the next import. Nothing else changes.
pub proof fn lemma_set_total_gas_limit(v: QueueView, gas_limit: U256)
    requires
        consistent(v),
        v.by_hash.dom().finite(),
    ensures
        ({
            let w = with_total_gas_limit(v, gas_limit);
            &&& w.current.gas_limit == gas_limit
            &&& w.future.gas_limit == gas_limit
            &&& w.current.limit == v.current.limit
            &&& w.future.limit == v.future.limit
            &&& w.current.orders == v.current.orders
            &&& cut_to_limits(v.future, w.future)
            &&& known_before(v, w)
            &&& w.strategy == v.strategy
            &&& w.minimal_gas_price == v.minimal_gas_price
            &&& w.tx_gas_limit == v.tx_gas_limit
            &&& w.gas_limit == v.gas_limit
            &&& w.last_nonces == v.last_nonces
        }),
{
    lemma_ranked(v.future.orders, v.by_hash, v.strategy);
    lemma_cut_to_limits(SetView { gas_limit, ..v.future });
}

// ---------------------------------------------------------------------------------------------
// Penalties
// ---------------------------------------------------------------------------------------------

/// Whether every order of `sender` has one penalty more, and every other order is the same.
pub open spec fn penalizes(
    before: Map<Slot, TransactionOrder>,
    after: Map<Slot, TransactionOrder>,
    sender: Address,
) -> bool {
    &&& forall|k: Slot| #[trigger] after.contains_key(k) <==> before.contains_key(k)
    &&& forall|k: Slot| #[trigger]
        before.contains_key(k) && k.sender == sender ==> once_more_penalized(before[k], after[k])
    &&& forall|k: Slot| #[trigger]
        before.contains_key(k) && k.sender != sender ==> after[k] == before[k]
}

/// Where a known transaction has an order that is not local, every order of its sender gets one penalty
/// more, in both sets and whichever of them holds the transaction. Orders of other senders stay as they
/// are, and so does everything else. For a local transaction, or one that is not known, nothing changes.
pub proof fn lemma_penalize(v: QueueView, hash: H256, k: Slot)
    requires
        consistent(v),
    ensures
        ({
            let w = penalized_for(v, hash);
            &&& v.by_hash.contains_key(hash) && v.current.orders.contains_key(k)
                && v.current.orders[k].hash == hash && v.current.orders[k].origin
                != TransactionOrigin::Local ==> penalizes(v.current.orders, w.current.orders, k.sender)
                && penalizes(v.future.orders, w.future.orders, k.sender)
            &&& v.by_hash.contains_key(hash) && v.future.orders.contains_key(k)
                && v.future.orders[k].hash == hash && v.future.orders[k].origin
                != TransactionOrigin::Local ==> penalizes(v.current.orders, w.current.orders, k.sender)
                && penalizes(v.future.orders, w.future.orders, k.sender)
            &&& !v.by_hash.contains_key(hash) ==> w == v
            &&& v.current.orders.contains_key(k) && v.current.orders[k].hash == hash
                && v.current.orders[k].origin == TransactionOrigin::Local ==> w == v
            &&& v.future.orders.contains_key(k) && v.future.orders[k].hash == hash
                && v.future.orders[k].origin == TransactionOrigin::Local ==> w == v
            &&& same_settings(v, w)
            &&& w.by_hash == v.by_hash
            &&& w.last_nonces == v.last_nonces
            &&& w.local == v.local
        }),
{
    if v.by_hash.contains_key(hash) {
        lemma_home(v, hash);
        if v.current.orders.contains_key(k) && v.current.orders[k].hash == hash {
            assert(slot_of(v.by_hash[hash]) == k);
            assert(order_for(v, hash) == v.current.orders[k]);
        }
        if v.future.orders.contains_key(k) && v.future.orders[k].hash == hash {
            assert(slot_of(v.by_hash[hash]) == k);
            assert(order_for(v, hash) == v.future.orders[k]);
        }
        assert forall|j: Slot| #[trigger] v.current.orders.contains_key(j) implies once_more_penalized(
            v.current.orders[j],
            v.current.orders[j].penalized(),
        ) by {
            lemma_penalty(v.current.orders[j]);
        }
        assert forall|j: Slot| #[trigger] v.future.orders.contains_key(j) implies once_more_penalized(
            v.future.orders[j],
            v.future.orders[j].penalized(),
        ) by {
            lemma_penalty(v.future.orders[j]);
        }
    }
}

// ---------------------------------------------------------------------------------------------
// What is let in
// ---------------------------------------------------------------------------------------------

/// Whether a transaction that is not local offers less than the minimal gas price, or no more than the
/// lowest price of a full queue.
pub open spec fn underpriced(v: QueueView, tx: SignedTransaction, origin: TransactionOrigin) -> bool {
    origin != TransactionOrigin::Local && (tx.gas_price@ < v.minimal_gas_price@ || undercut(
        v.current,
        tx.gas_price@,
    ))
}

/// Whether a transaction has more gas than one may have.
pub open spec fn overweight(v: QueueView, tx: SignedTransaction) -> bool {
    tx.gas@ > v.gas_limit@ || tx.gas@ > v.tx_gas_limit@
}

/// A transaction whose gas is above the limit for one transaction, or above the gas limit, is refused,
/// whoever sent it. The queue keeps what it holds. So any transaction that is let in has gas within both
/// limits.
pub proof fn lemma_gas_limits(
    v: QueueView,
    tx: SignedTransaction,
    origin: TransactionOrigin,
    minimal_gas: U256,
    account: AccountDetails,
)
    ensures
        ({
            let (w, r) = added(v, tx, origin, minimal_gas, account);
            &&& tx.gas@ > v.tx_gas_limit@ || tx.gas@ > v.gas_limit@ ==> r is Err && same_transactions(
                v,
                w,
            )
            &&& r is Ok ==> tx.gas@ <= v.tx_gas_limit@ && tx.gas@ <= v.gas_limit@
        }),
{
}

/// Transactions are refused for the first thing that is wrong with them, and for nothing else: the gas
/// price, the gas, the signature, the balance, in this order. What is local is not refused for its
/// price. A refused transaction leaves what the queue holds as it is.
pub proof fn lemma_refusals(
    v: QueueView,
    tx: SignedTransaction,
    origin: TransactionOrigin,
    minimal_gas: U256,
    account: AccountDetails,
)
    requires
        v.current.orders.dom().finite(),
    ensures
        ({
            let (w, r) = added(v, tx, origin, minimal_gas, account);
            let price = !underpriced(v, tx, origin);
            let gas = price && !overweight(v, tx);
            let enough = gas && tx.gas@ >= minimal_gas@;
            let signed = enough && tx.low_s && tx.signer is Some;
            let paid = signed && account.balance@ >= tx.value@ + tx.gas_price@ * tx.gas@;
            &&& (r matches Err(Error::Transaction(TransactionError::InsufficientGasPrice { .. }))) <==> !price
            &&& (r matches Err(Error::Transaction(TransactionError::GasLimitExceeded { .. }))) <==> price
                && !gas
            &&& (r matches Err(Error::Transaction(TransactionError::InsufficientGas { .. }))) <==> gas
                && !enough
            &&& r == Err::<TransactionImportResult, Error>(Error::HighSignature) <==> enough && !tx.low_s
            &&& r == Err::<TransactionImportResult, Error>(Error::NoSender) <==> enough && tx.low_s
                && tx.signer is None
            &&& (r matches Err(Error::Transaction(TransactionError::InsufficientBalance { .. })))
                <==> signed && !paid
            &&& !paid ==> same_transactions(v, w)
            &&& same_settings(v, w)
            &&& paid ==> {
                let vtx = VerifiedTransaction { transaction: tx, origin };
                let (x, s) = import(v, vtx, account.nonce);
                &&& same_transactions(x, w)
                &&& r == match s {
                    Ok(imported) => Ok::<TransactionImportResult, Error>(imported),
                    Err(e) => Err(Error::Transaction(e)),
                }
            }
        }),
{
    reveal(import);
    lemma_price_asked(v.current, tx.gas_price@, arbitrary());
}

/// A refusal tells what was asked for and what was offered.
pub proof fn lemma_refusals_tell(
    v: QueueView,
    tx: SignedTransaction,
    origin: TransactionOrigin,
    minimal_gas: U256,
    account: AccountDetails,
    k: Slot,
)
    requires
        v.current.orders.dom().finite(),
    ensures
        match added(v, tx, origin, minimal_gas, account).1 {
            Err(Error::Transaction(TransactionError::InsufficientGasPrice { minimal, got })) => {
                &&& got == tx.gas_price
                &&& tx.gas_price@ < v.minimal_gas_price@ ==> minimal == v.minimal_gas_price
                &&& tx.gas_price@ >= v.minimal_gas_price@ && v.current.orders.contains_key(k) && (forall|
                    j: Slot,
                | #[trigger]
                    v.current.orders.contains_key(j) ==> v.current.orders[k].gas_price@
                        <= v.current.orders[j].gas_price@) && v.current.orders[k].gas_price@ + 1
                    < range() ==> minimal@ == v.current.orders[k].gas_price@ + 1
            },
            Err(Error::Transaction(TransactionError::GasLimitExceeded { limit, got })) => limit
                == v.gas_limit && got == tx.gas,
            Err(Error::Transaction(TransactionError::InsufficientGas { minimal, got })) => minimal
                == minimal_gas && got == tx.gas,
            Err(Error::Transaction(TransactionError::InsufficientBalance { cost, balance })) => {
                &&& balance == account.balance
                &&& tx.value@ + tx.gas_price@ * tx.gas@ < range() ==> cost@ == tx.value@ + tx.gas_price@
                    * tx.gas@
            },
            _ => true,
        },
{
    reveal(import);
    lemma_price_asked(v.current, tx.gas_price@, k);
    if v.current.orders.contains_key(k) && v.current.orders[k].gas_price@ + 1 < range() {
        lemma_u256(v.current.orders[k].gas_price@ + 1);
    }
    if tx.cost() < range() {
        lemma_u256(tx.cost());
    }
}

/// Whether an answer takes what the gas estimator says of a transaction: it was not refused for its price,
/// nor for its gas being above a limit.
pub open spec fn takes_estimate(r: Result<TransactionImportResult, Error>) -> bool {
    match r {
        Err(Error::Transaction(TransactionError::InsufficientGasPrice { .. })) => false,
        Err(Error::Transaction(TransactionError::GasLimitExceeded { .. })) => false,
        _ => true,
    }
}

/// Whether an answer takes the account of the sender: the transaction was not refused for its price, its
/// gas or its signature.
pub open spec fn takes_account(r: Result<TransactionImportResult, Error>) -> bool {
    match r {
        Ok(_) => true,
        Err(Error::Transaction(TransactionError::InsufficientBalance { .. })) => true,
        Err(Error::Transaction(TransactionError::AlreadyImported)) => true,
        Err(Error::Transaction(TransactionError::Old)) => true,
        Err(Error::Transaction(TransactionError::TooCheapToReplace)) => true,
        Err(Error::Transaction(TransactionError::LimitReached)) => true,
        Err(_) => false,
    }
}

/// What is noted of a local transaction follows from the answer: pending or waiting where it was let in,
/// invalid where its signature was refused. Where it was refused otherwise, it is noted as rejected
/// unless something was noted of it before. Of a transaction that is not local nothing is noted that its
/// import did not note.
pub proof fn lemma_noted_where_added(
    v: QueueView,
    tx: SignedTransaction,
    origin: TransactionOrigin,
    minimal_gas: U256,
    account: AccountDetails,
    h: H256,
)
    ensures
        ({
            let (w, r) = added(v, tx, origin, minimal_gas, account);
            let local = origin == TransactionOrigin::Local;
            &&& local && r == Ok::<TransactionImportResult, Error>(TransactionImportResult::Current)
                ==> w.local.contains_key(tx.hash) && w.local[tx.hash] == LocalTransactionStatus::Pending
            &&& local && r == Ok::<TransactionImportResult, Error>(TransactionImportResult::Future)
                ==> w.local.contains_key(tx.hash) && w.local[tx.hash] == LocalTransactionStatus::Future
            &&& local && (r == Err::<TransactionImportResult, Error>(Error::HighSignature) || r
                == Err::<TransactionImportResult, Error>(Error::NoSender)) ==> w.local
                == v.local.insert(tx.hash, LocalTransactionStatus::Invalid(tx))
            &&& r matches Err(Error::Transaction(e)) ==> local ==> {
                &&& w.local.contains_key(tx.hash)
                &&& e == TransactionError::TooCheapToReplace || e == TransactionError::LimitReached ==> {
                    let x = import(v, VerifiedTransaction { transaction: tx, origin }, account.nonce).0;
                    w.local[tx.hash] == if x.local.contains_key(tx.hash) {
                        x.local[tx.hash]
                    } else {
                        LocalTransactionStatus::Rejected(tx, e)
                    }
                }
                &&& e != TransactionError::TooCheapToReplace && e != TransactionError::LimitReached
                    ==> w.local == if v.local.contains_key(tx.hash) {
                    v.local
                } else {
                    v.local.insert(tx.hash, LocalTransactionStatus::Rejected(tx, e))
                }
            }
            &&& !local && crate::queue_laws::refused_outright(r) ==> w.local == v.local
            &&& !crate::queue_laws::refused_outright(r) && (!local || h != tx.hash) ==> {
                let x = import(v, VerifiedTransaction { transaction: tx, origin }, account.nonce).0;
                &&& w.local.contains_key(h) == x.local.contains_key(h)
                &&& x.local.contains_key(h) ==> w.local[h] == x.local[h]
            }
        }),
{
    reveal(import);
}

// ---------------------------------------------------------------------------------------------
// Listings
// ---------------------------------------------------------------------------------------------

/// Whether `list` holds the transactions of the given orders, each once, and none stands before one that
/// is to be processed earlier.
pub open spec fn lists_by_priority(
    list: Seq<SignedTransaction>,
    orders: Map<Slot, TransactionOrder>,
    by_hash: Map<H256, VerifiedTransaction>,
) -> bool {
    let order = |i: int| orders[Slot { sender: list[i].signer->0, nonce: list[i].nonce }];
    &&& list.len() == orders.dom().len()
    &&& forall|i: int|
        0 <= i < list.len() ==> {
            let tx = #[trigger] list[i];
            &&& orders.contains_key(Slot { sender: tx.signer->0, nonce: tx.nonce })
            &&& order(i).hash == tx.hash
            &&& by_hash.contains_key(tx.hash)
            &&& by_hash[tx.hash].transaction == tx
        }
    &&& forall|i: int, j: int|
        0 <= i < j < list.len() ==> (#[trigger] order(i)).precedes(#[trigger] order(j))
    &&& forall|k: Slot| #[trigger]
        orders.contains_key(k) ==> exists|i: int|
            0 <= i < list.len() && (#[trigger] list[i]).hash == orders[k].hash
}

/// Both sets are listed in full, and by priority. The pending hashes are those of the pending
/// transactions, in the same order.
pub proof fn lemma_lists(v: QueueView)
    requires
        consistent(v),
        v.by_hash.dom().finite(),
    ensures
        lists_by_priority(listing(v.current.orders, v.by_hash), v.current.orders, v.by_hash),
        lists_by_priority(listing(v.future.orders, v.by_hash), v.future.orders, v.by_hash),
        pending(v).len() == listing(v.current.orders, v.by_hash).len(),
        forall|i: int|
            0 <= i < pending(v).len() ==> #[trigger] pending(v)[i] == listing(
                v.current.orders,
                v.by_hash,
            )[i].hash,
{
    lemma_listed(v.current.orders, v.by_hash, v.strategy);
    lemma_listed(v.future.orders, v.by_hash, v.strategy);
    lemma_ranked(v.current.orders, v.by_hash, v.strategy);
    let s = ranking(v.current.orders);
    assert forall|i: int| 0 <= i < pending(v).len() implies #[trigger] pending(v)[i] == listing(
        v.current.orders,
        v.by_hash,
    )[i].hash by {
        assert(v.current.orders.contains_value(s[i]));
        let k = choose|k: Slot| #[trigger]
            v.current.orders.contains_key(k) && v.current.orders[k] == s[i];
    }
}

proof fn lemma_listed(
    orders: Map<Slot, TransactionOrder>,
    by_hash: Map<H256, VerifiedTransaction>,
    strategy: PrioritizationStrategy,
)
    requires
        crate::queue_model::indexed(orders, by_hash, strategy),
        by_hash.dom().finite(),
    ensures
        lists_by_priority(listing(orders, by_hash), orders, by_hash),
{
    lemma_ranked(orders, by_hash, strategy);
    let s = ranking(orders);
    let list = listing(orders, by_hash);
    let order = |i: int| orders[Slot { sender: list[i].signer->0, nonce: list[i].nonce }];
    assert forall|i: int| 0 <= i < list.len() implies {
        let tx = #[trigger] list[i];
        &&& orders.contains_key(Slot { sender: tx.signer->0, nonce: tx.nonce })
        &&& order(i) == s[i]
        &&& order(i).hash == tx.hash
        &&& by_hash.contains_key(tx.hash)
        &&& by_hash[tx.hash].transaction == tx
    } by {
        assert(orders.contains_value(s[i]));
        let k = choose|k: Slot| #[trigger] orders.contains_key(k) && orders[k] == s[i];
        assert(list[i] == by_hash[s[i].hash].transaction);
        assert(slot_of(by_hash[s[i].hash]) == k);
    }
    assert forall|i: int, j: int| 0 <= i < j < list.len() implies (#[trigger] order(i)).precedes(
        #[trigger] order(j),
    ) by {
        assert(list[i] == list[i] && list[j] == list[j]);
        assert(order(i) == s[i] && order(j) == s[j]);
    }
    assert forall|k: Slot| #[trigger] orders.contains_key(k) implies exists|i: int|
        0 <= i < list.len() && (#[trigger] list[i]).hash == orders[k].hash by {
        assert(s.contains(orders[k]));
        let i = s.index_of(orders[k]);
        assert(list[i].hash == orders[k].hash);
    }
}

} // verus!
