//! What decides between two transactions, one thing after the other, and what an order is made of.
use crate::order::{gas_factor, order_of, PrioritizationStrategy, TransactionOrder};
use crate::transaction::{TransactionOrigin, VerifiedTransaction};
use crate::uint::{lemma_u256, range, H256, U256};
use vstd::prelude::*;

verus! {

/// Transactions of retracted blocks go before local ones, and these before external ones.
pub proof fn lemma_origins(a: TransactionOrigin, b: TransactionOrigin)
    ensures
        a.rank() < b.rank() <==> {
            ||| a is RetractedBlock && b is Local
            ||| a is RetractedBlock && b is External
            ||| a is Local && b is External
        },
        a.rank() == b.rank() <==> a == b,
{
}

/// Hashes are ordered by their first half, and by the second where that is the same.
pub proof fn lemma_hashes(a: H256, b: H256)
    ensures
        a.hi < b.hi ==> a.precedes(b) && !b.precedes(a),
        a.hi == b.hi && a.lo < b.lo ==> a.precedes(b) && !b.precedes(a),
        a == b ==> !a.precedes(b),
{
}

/// Whether two orders have the same penalties, origin and nonce height.
pub open spec fn level(a: TransactionOrder, b: TransactionOrder) -> bool {
    a.penalties == b.penalties && a.origin == b.origin && a.nonce_height@ == b.nonce_height@
}

/// Fewer penalties go first, whatever else holds. Then the origin decides, and then the lower nonce
/// height.
pub proof fn lemma_penalties_origin_height(a: TransactionOrder, b: TransactionOrder)
    ensures
        a.penalties < b.penalties ==> a.precedes(b) && !b.precedes(a),
        a.penalties == b.penalties && (a.origin is RetractedBlock && !(b.origin is RetractedBlock))
            ==> a.precedes(b) && !b.precedes(a),
        a.penalties == b.penalties && a.origin is Local && b.origin is External ==> a.precedes(b)
            && !b.precedes(a),
        a.penalties == b.penalties && a.origin == b.origin && a.nonce_height@ < b.nonce_height@
            ==> a.precedes(b) && !b.precedes(a),
{
}

/// Among level orders the strategy decides. By gas price alone, the higher price goes first. By gas and
/// gas price, less gas goes first, and at the same gas the higher price. By gas factor and gas price, the
/// higher price goes first once the gas factor is taken off it, and where that is the same the higher
/// price itself. Last of all the hash decides.
pub proof fn lemma_strategies(a: TransactionOrder, b: TransactionOrder)
    requires
        level(a, b),
        a.strategy == b.strategy,
    ensures
        a.strategy is GasPriceOnly && a.gas_price@ > b.gas_price@ ==> a.precedes(b) && !b.precedes(a),
        a.strategy is GasAndGasPrice && a.gas@ < b.gas@ ==> a.precedes(b) && !b.precedes(a),
        a.strategy is GasAndGasPrice && a.gas@ == b.gas@ && a.gas_price@ > b.gas_price@ ==> a.precedes(
            b,
        ) && !b.precedes(a),
        a.strategy is GasFactorAndGasPrice && a.gas_price@ - a.gas_factor@ > b.gas_price@
            - b.gas_factor@ ==> a.precedes(b) && !b.precedes(a),
        a.strategy is GasFactorAndGasPrice && a.gas_price@ - a.gas_factor@ == b.gas_price@
            - b.gas_factor@ && a.gas_price@ > b.gas_price@ ==> a.precedes(b) && !b.precedes(a),
        a.gas@ == b.gas@ && a.gas_factor@ == b.gas_factor@ && a.gas_price@ == b.gas_price@ && (a.hash.hi
            < b.hash.hi || (a.hash.hi == b.hash.hi && a.hash.lo < b.hash.lo)) ==> a.precedes(b)
            && !b.precedes(a),
{
}

/// Two orders tie where nothing that counts under the strategy differs, and only there.
pub proof fn lemma_ties(a: TransactionOrder, b: TransactionOrder)
    ensures
        a.ties(b) <==> {
            &&& level(a, b)
            &&& a.strategy is GasAndGasPrice ==> a.gas@ == b.gas@
            &&& a.strategy is GasFactorAndGasPrice ==> a.gas_factor@ == b.gas_factor@
            &&& a.gas_price@ == b.gas_price@
            &&& a.hash == b.hash
        },
{
}

/// A transaction gets an order without penalties, whose height is how far its nonce is above the state
/// nonce, and whose gas factor is its gas over 2^15, at the minimal gas price. The rest is its own.
pub proof fn lemma_order_of_transaction(
    tx: VerifiedTransaction,
    state_nonce: U256,
    min_gas_price: U256,
    strategy: PrioritizationStrategy,
)
    requires
        state_nonce@ <= tx.transaction.nonce@,
        (tx.transaction.gas@ / 32768) * min_gas_price@ < range(),
    ensures
        ({
            let order = order_of(tx, state_nonce, min_gas_price, strategy);
            &&& order.nonce_height@ == tx.transaction.nonce@ - state_nonce@
            &&& order.gas_factor@ == (tx.transaction.gas@ / 32768) * min_gas_price@
            &&& order.gas_price == tx.transaction.gas_price
            &&& order.gas == tx.transaction.gas
            &&& order.hash == tx.transaction.hash
            &&& order.origin == tx.origin
            &&& order.strategy == strategy
            &&& order.penalties == 0
        }),
{
    lemma_u256((tx.transaction.nonce@ - state_nonce@) as nat);
    lemma_u256(gas_factor(tx.transaction.gas, min_gas_price));
}

/// The gas factor is the gas over 2^15, at the given price.
pub proof fn lemma_gas_factor(gas: U256, min_gas_price: U256)
    ensures
        gas_factor(gas, min_gas_price) == (gas@ / 32768) * min_gas_price@,
{
}

/// Whether two orders differ in their nonce heights at most.
pub open spec fn same_but_height(a: TransactionOrder, b: TransactionOrder) -> bool {
    &&& a.gas_price == b.gas_price
    &&& a.gas_factor == b.gas_factor
    &&& a.gas == b.gas
    &&& a.strategy == b.strategy
    &&& a.hash == b.hash
    &&& a.origin == b.origin
    &&& a.penalties == b.penalties
}

/// Another height changes nothing else of an order.
pub proof fn lemma_height(order: TransactionOrder, height: nat)
    requires
        height < range(),
    ensures
        order.with_height(height).nonce_height@ == height,
        same_but_height(order, order.with_height(height)),
{
    lemma_u256(height);
}

/// Whether `b` is `a` with one penalty more, as far as they can be counted.
pub open spec fn once_more_penalized(a: TransactionOrder, b: TransactionOrder) -> bool {
    &&& a.penalties < usize::MAX ==> b.penalties == a.penalties + 1
    &&& a.penalties == usize::MAX ==> b.penalties == usize::MAX
    &&& b.nonce_height == a.nonce_height
    &&& b.gas_price == a.gas_price
    &&& b.gas_factor == a.gas_factor
    &&& b.gas == a.gas
    &&& b.strategy == a.strategy
    &&& b.hash == a.hash
    &&& b.origin == a.origin
}

/// A penalty is one more, and changes nothing else of an order.
pub proof fn lemma_penalty(order: TransactionOrder)
    ensures
        once_more_penalized(order, order.penalized()),
{
}

} // verus!
