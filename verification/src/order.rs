//! The priority of a transaction in the queue.
use crate::transaction::{TransactionOrigin, VerifiedTransaction};
use crate::uint::{range, u256, H256, U256};
use std::cmp::Ordering;
use vstd::prelude::*;

verus! {

/// Describes the strategy used to prioritize transactions in the queue.
#[derive(Debug, Copy, Clone, PartialEq, Eq, Structural)]
pub enum PrioritizationStrategy {
    /// Use only gas price. Disregards the actual computation cost of the transaction.
    /// i.e. Higher gas price = Higher priority
    GasPriceOnly,
    /// Use gas limit and then gas price.
    /// i.e. Higher gas limit = Lower priority
    GasAndGasPrice,
    /// Calculate and use priority based on gas and gas price.
    /// PRIORITY = GAS_PRICE - GAS/2^15 * MIN_GAS_PRICE
    ///
    /// Rationale:
    /// Heavy transactions are paying linear cost (GAS * GAS_PRICE)
    /// while the computation might be more expensive.
    ///
    /// i.e.
    /// 1M gas tx with `gas_price=30*min` has the same priority
    /// as 32k gas tx with `gas_price=min`
    GasFactorAndGasPrice,
}

/// Light structure used to identify transaction and its order
#[derive(Clone, Copy, Debug)]
pub struct TransactionOrder {
    /// Primary ordering factory. Difference between transaction nonce and expected nonce in state
    /// (e.g. Tx(nonce:5), State(nonce:0) -> height: 5)
    /// High nonce_height = Low priority (processed later)
    pub nonce_height: U256,
    /// Gas Price of the transaction.
    /// Low gas price = Low priority (processed later)
    pub gas_price: U256,
    /// Gas usage priority factor. Usage depends on strategy.
    /// Represents the linear increment in required gas price for heavy transactions.
    ///
    /// High gas limit + Low gas price = Low priority
    /// High gas limit + High gas price = High priority
    pub gas_factor: U256,
    /// Gas (limit) of the transaction. Usage depends on strategy.
    /// Low gas limit = High priority (processed earlier)
    pub gas: U256,
    /// Transaction ordering strategy
    pub strategy: PrioritizationStrategy,
    /// Hash to identify associated transaction
    pub hash: H256,
    /// Origin of the transaction
    pub origin: TransactionOrigin,
    /// Penalties
    pub penalties: usize,
}

/// The gas of a transaction over 2^15, at the given price.
pub open spec fn gas_factor(gas: U256, min_gas_price: U256) -> nat {
    (gas@ / 0x8000) * min_gas_price@
}

/// The order that [`TransactionOrder::for_transaction`] gives a transaction.
pub open spec fn order_of(
    tx: VerifiedTransaction,
    base_nonce: U256,
    min_gas_price: U256,
    strategy: PrioritizationStrategy,
) -> TransactionOrder {
    TransactionOrder {
        nonce_height: u256((tx.transaction.nonce@ - base_nonce@) as nat),
        gas_price: tx.transaction.gas_price,
        gas_factor: u256(gas_factor(tx.transaction.gas, min_gas_price)),
        gas: tx.transaction.gas,
        strategy,
        hash: tx.transaction.hash,
        origin: tx.origin,
        penalties: 0,
    }
}

impl TransactionOrder {
    /// Whether `self` is to be processed before `other` under the given strategy.
    ///
    /// Fewer penalties go first, then the origin decides, then the lower nonce height. Next comes what
    /// the strategy adds: less gas, or the higher price once the gas factor is taken off (compared as
    /// `gp1 + gf2 > gp2 + gf1`, over the exact sums). Then the higher gas price, and last the hash.
    pub open spec fn precedes_under(
        self,
        other: TransactionOrder,
        strategy: PrioritizationStrategy,
    ) -> bool {
        if self.penalties != other.penalties {
            self.penalties < other.penalties
        } else if self.origin != other.origin {
            self.origin.rank() < other.origin.rank()
        } else if self.nonce_height@ != other.nonce_height@ {
            self.nonce_height@ < other.nonce_height@
        } else if strategy == PrioritizationStrategy::GasAndGasPrice && self.gas@ != other.gas@ {
            self.gas@ < other.gas@
        } else if strategy == PrioritizationStrategy::GasFactorAndGasPrice && self.gas_price@
            + other.gas_factor@ != other.gas_price@ + self.gas_factor@ {
            self.gas_price@ + other.gas_factor@ > other.gas_price@ + self.gas_factor@
        } else if self.gas_price@ != other.gas_price@ {
            self.gas_price@ > other.gas_price@
        } else {
            self.hash.precedes(other.hash)
        }
    }

    /// Whether `self` is to be processed before `other`.
    pub open spec fn precedes(self, other: TransactionOrder) -> bool {
        self.precedes_under(other, self.strategy)
    }

    /// Whether neither goes before the other.
    pub open spec fn ties(self, other: TransactionOrder) -> bool {
        !self.precedes_under(other, self.strategy) && !other.precedes_under(self, self.strategy)
    }

    pub fn for_transaction(
        tx: &VerifiedTransaction,
        base_nonce: U256,
        min_gas_price: U256,
        strategy: PrioritizationStrategy,
    ) -> (r: TransactionOrder)
        requires
            base_nonce@ <= tx.transaction.nonce@,
            gas_factor(tx.transaction.gas, min_gas_price) < range(),
        ensures
            r == order_of(*tx, base_nonce, min_gas_price, strategy),
    {
        let factor: U256 = tx.transaction.gas.div_u64(0x8000).times(min_gas_price);
        TransactionOrder {
            nonce_height: tx.nonce().minus(base_nonce),
            gas_price: tx.transaction.gas_price,
            gas: tx.transaction.gas,
            gas_factor: factor,
            strategy,
            hash: tx.hash(),
            origin: tx.origin,
            penalties: 0,
        }
    }

    /// The order with its nonce height replaced.
    pub open spec fn with_height(self, height: nat) -> TransactionOrder {
        TransactionOrder { nonce_height: u256(height), ..self }
    }

    pub fn update_height(self, nonce: U256, base_nonce: U256) -> (r: TransactionOrder)
        requires
            base_nonce@ <= nonce@,
        ensures
            r == self.with_height((nonce@ - base_nonce@) as nat),
    {
        let mut order = self;
        order.nonce_height = nonce.minus(base_nonce);
        order
    }

    /// The order with one penalty more.
    pub open spec fn penalized(self) -> TransactionOrder {
        TransactionOrder {
            penalties: if self.penalties < usize::MAX {
                (self.penalties + 1) as usize
            } else {
                usize::MAX
            },
            ..self
        }
    }

    pub fn penalize(self) -> (r: TransactionOrder)
        ensures
            r == self.penalized(),
    {
        let mut order = self;
        order.penalties = self.penalties.saturating_add(1);
        order
    }

    /// Orders transactions by priority, under the strategy of the first.
    pub fn cmp(&self, b: &TransactionOrder) -> (r: Ordering)
        ensures
            r is Less <==> self.precedes(*b),
            r is Equal <==> self.ties(*b),
            r is Greater <==> b.precedes_under(*self, self.strategy),
    {
        // First check number of penalties
        if self.penalties != b.penalties {
            return if self.penalties < b.penalties {
                Ordering::Less
            } else {
                Ordering::Greater
            };
        }
        // Local transactions should always have priority

        if self.origin != b.origin {
            return self.origin.cmp(&b.origin);
        }
        // Check nonce_height

        if self.nonce_height != b.nonce_height {
            return if self.nonce_height < b.nonce_height {
                Ordering::Less
            } else {
                Ordering::Greater
            };
        }
        match self.strategy {
            PrioritizationStrategy::GasAndGasPrice => {
                if self.gas != b.gas {
                    return if self.gas < b.gas {
                        Ordering::Less
                    } else {
                        Ordering::Greater
                    };
                }
            },
            PrioritizationStrategy::GasFactorAndGasPrice => {
                // avoiding underflows
                // (gp1 - g1) > (gp2 - g2) <=>
                // (gp1 + g2) > (gp2 + g1)
                let (a_low, a_carry): (U256, bool) = self.gas_price.overflowing_add(b.gas_factor);
                let (b_low, b_carry): (U256, bool) = b.gas_price.overflowing_add(self.gas_factor);
                if a_carry != b_carry {
                    return if a_carry {
                        Ordering::Less
                    } else {
                        Ordering::Greater
                    };
                }
                if a_low != b_low {
                    return if a_low > b_low {
                        Ordering::Less
                    } else {
                        Ordering::Greater
                    };
                }
            },
            PrioritizationStrategy::GasPriceOnly => {},
        }
        // Then compare gas_prices

        if self.gas_price != b.gas_price {
            return if b.gas_price < self.gas_price {
                Ordering::Less
            } else {
                Ordering::Greater
            };
        }
        // Compare hashes

        if self.hash == b.hash {
            Ordering::Equal
        } else if self.hash.hi < b.hash.hi || (self.hash.hi == b.hash.hi && self.hash.lo < b.hash.lo) {
            Ordering::Less
        } else {
            Ordering::Greater
        }
    }
}

impl PartialEq for TransactionOrder {
    fn eq(&self, other: &TransactionOrder) -> (r: bool) {
        match self.cmp(other) {
            Ordering::Equal => true,
            _ => false,
        }
    }
}

impl vstd::std_specs::cmp::PartialEqSpecImpl for TransactionOrder {
    open spec fn obeys_eq_spec() -> bool {
        true
    }

    open spec fn eq_spec(&self, other: &TransactionOrder) -> bool {
        self.ties(*other)
    }
}

impl PartialOrd for TransactionOrder {
    fn partial_cmp(&self, other: &TransactionOrder) -> (r: Option<Ordering>) {
        Some(self.cmp(other))
    }
}

impl vstd::std_specs::cmp::PartialOrdSpecImpl for TransactionOrder {
    open spec fn obeys_partial_cmp_spec() -> bool {
        true
    }

    open spec fn partial_cmp_spec(&self, other: &TransactionOrder) -> Option<Ordering> {
        if self.precedes(*other) {
            Some(Ordering::Less)
        } else if self.ties(*other) {
            Some(Ordering::Equal)
        } else {
            Some(Ordering::Greater)
        }
    }
}

/// Under one strategy the priority is a strict total order, up to ties: no order goes before itself, of
/// two orders at most one goes before the other, going before is transitive, and so are ties.
pub proof fn lemma_priority_is_an_order(
    a: TransactionOrder,
    b: TransactionOrder,
    c: TransactionOrder,
)
    requires
        a.strategy == b.strategy,
        b.strategy == c.strategy,
    ensures
        !a.precedes(a),
        a.ties(a),
        a.precedes(b) ==> !b.precedes(a),
        a.precedes(b) || b.precedes(a) || a.ties(b),
        a.precedes(b) && b.precedes(c) ==> a.precedes(c),
        a.ties(b) && b.ties(c) ==> a.ties(c),
        a.ties(b) && b.precedes(c) ==> a.precedes(c),
        a.precedes(b) && b.ties(c) ==> a.precedes(c),
{
}

/// Orders that tie have the same hash and the same gas price.
pub proof fn lemma_ties_share_hash(a: TransactionOrder, b: TransactionOrder)
    requires
        a.ties(b),
    ensures
        a.hash == b.hash,
        a.gas_price == b.gas_price,
{
}

/// Among transactions with the same penalties and origin, the lower nonce height goes first.
pub proof fn lemma_low_nonce_height_first(a: TransactionOrder, b: TransactionOrder)
    requires
        a.penalties == b.penalties,
        a.origin == b.origin,
        a.nonce_height@ < b.nonce_height@,
    ensures
        a.precedes(b),
{
}

/// Where nonce heights are equal too, and nothing but the gas price counts, the higher price goes first.
pub proof fn lemma_high_gas_price_first(a: TransactionOrder, b: TransactionOrder)
    requires
        a.penalties == b.penalties,
        a.origin == b.origin,
        a.nonce_height@ == b.nonce_height@,
        a.strategy == PrioritizationStrategy::GasPriceOnly,
        a.gas_price@ > b.gas_price@,
    ensures
        a.precedes(b),
{
}

/// Penalties change the priority: an order goes after every order that has fewer of them. Where two
/// orders get one more each, they keep their places towards each other.
pub proof fn lemma_penalties(a: TransactionOrder, b: TransactionOrder)
    ensures
        a.penalties > b.penalties ==> b.precedes(a),
        a.penalties < usize::MAX && b.penalties < usize::MAX ==> a.penalized().precedes(b.penalized())
            == a.precedes(b),
{
}

} // verus!
