//! Transactions as the queue sees them, and the ways in which one is refused.
use crate::uint::{Address, H256, U256};
use std::cmp::Ordering;
use vstd::prelude::*;

verus! {

/// Where a transaction came from.
#[derive(Clone, Copy, Debug, PartialEq, Eq, Structural)]
pub enum TransactionOrigin {
    /// Transaction coming from local RPC
    Local,
    /// External transaction received from network
    External,
    /// Transactions from retracted blocks
    RetractedBlock,
}

impl TransactionOrigin {
    /// Retracted transactions rank first, then local ones, then external ones.
    pub open spec fn rank(self) -> int {
        match self {
            TransactionOrigin::RetractedBlock => 0,
            TransactionOrigin::Local => 1,
            TransactionOrigin::External => 2,
        }
    }

    /// Orders origins by rank.
    pub fn cmp(&self, other: &TransactionOrigin) -> (r: Ordering)
        ensures
            r is Less <==> self.rank() < other.rank(),
            r is Equal <==> *self == *other,
            r is Greater <==> self.rank() > other.rank(),
    {
        if *other == *self {
            return Ordering::Equal;
        }
        match (*self, *other) {
            (TransactionOrigin::RetractedBlock, _) => Ordering::Less,
            (_, TransactionOrigin::RetractedBlock) => Ordering::Greater,
            (TransactionOrigin::Local, _) => Ordering::Less,
            _ => Ordering::Greater,
        }
    }

    pub fn is_local(&self) -> (r: bool)
        ensures
            r == (*self == TransactionOrigin::Local),
    {
        *self == TransactionOrigin::Local
    }
}

impl PartialOrd for TransactionOrigin {
    fn partial_cmp(&self, other: &TransactionOrigin) -> (r: Option<Ordering>) {
        Some(self.cmp(other))
    }
}

impl vstd::std_specs::cmp::PartialOrdSpecImpl for TransactionOrigin {
    open spec fn obeys_partial_cmp_spec() -> bool {
        true
    }

    open spec fn partial_cmp_spec(&self, other: &TransactionOrigin) -> Option<Ordering> {
        if self.rank() < other.rank() {
            Some(Ordering::Less)
        } else if self.rank() == other.rank() {
            Some(Ordering::Equal)
        } else {
            Some(Ordering::Greater)
        }
    }
}

/// Why the queue refuses a transaction.
#[derive(Clone, Copy, Debug, PartialEq, Eq, Structural)]
pub enum TransactionError {
    /// Transaction is already imported to the queue
    AlreadyImported,
    /// Transaction is not valid anymore (state already has higher nonce)
    Old,
    /// Transaction has too low fee
    /// (there is already a transaction with the same sender-nonce whose gas price is as high)
    TooCheapToReplace,
    /// Transaction was not imported to the queue because limit has been reached.
    LimitReached,
    /// Transaction's gas price is below threshold.
    InsufficientGasPrice { minimal: U256, got: U256 },
    /// Transaction's gas is below currently set minimal gas requirement.
    InsufficientGas { minimal: U256, got: U256 },
    /// Sender doesn't have enough funds to pay for this transaction
    InsufficientBalance { balance: U256, cost: U256 },
    /// Transactions gas is higher then current gas limit
    GasLimitExceeded { limit: U256, got: U256 },
}

/// Why a transaction cannot be added.
#[derive(Clone, Copy, Debug, PartialEq, Eq, Structural)]
pub enum Error {
    /// The queue refuses the transaction.
    Transaction(TransactionError),
    /// The `s` part of the signature is in the upper half of its range.
    HighSignature,
    /// No sender can be recovered from the signature.
    NoSender,
}

/// What the import of a transaction led to.
#[derive(Clone, Copy, Debug, PartialEq, Eq, Structural)]
pub enum TransactionImportResult {
    /// Transaction was imported to current queue.
    Current,
    /// Transaction was imported to future queue.
    Future,
}

/// A signed transaction: the fields that decide its fate in the queue, its hash, and what its
/// signature was found to be.
#[derive(Clone, Copy, Debug, PartialEq, Eq, Structural)]
pub struct SignedTransaction {
    /// Nonce.
    pub nonce: U256,
    /// Gas price.
    pub gas_price: U256,
    /// Gas paid up front for transaction execution.
    pub gas: U256,
    /// Transfered value.
    pub value: U256,
    /// Hash of the transaction.
    pub hash: H256,
    /// The account that signed, where it can be recovered.
    pub signer: Option<Address>,
    /// Whether the `s` part of the signature is in the lower half of its range.
    pub low_s: bool,
}

impl SignedTransaction {
    /// Get the hash of this transaction.
    pub fn hash(&self) -> (r: H256)
        ensures
            r == self.hash,
    {
        self.hash
    }

    /// Returns transaction sender.
    pub fn sender(&self) -> (r: Result<Address, Error>)
        ensures
            self.signer matches Some(a) ==> r == Ok::<Address, Error>(a),
            self.signer is None ==> r == Err::<Address, Error>(Error::NoSender),
    {
        match self.signer {
            Some(a) => Ok(a),
            None => Err(Error::NoSender),
        }
    }

    /// Checks whether the signature has a low 's' value.
    pub fn check_low_s(&self) -> (r: Result<(), Error>)
        ensures
            self.low_s ==> r == Ok::<(), Error>(()),
            !self.low_s ==> r == Err::<(), Error>(Error::HighSignature),
    {
        if self.low_s {
            Ok(())
        } else {
            Err(Error::HighSignature)
        }
    }

    /// What the sender pays at most: the value, and the price of all the gas.
    pub open spec fn cost(self) -> nat {
        self.value@ + self.gas_price@ * self.gas@
    }
}

/// Details of account
#[derive(Clone, Copy, Debug)]
pub struct AccountDetails {
    /// Most recent account nonce
    pub nonce: U256,
    /// Current account balance
    pub balance: U256,
}

/// Verified transaction (with sender)
#[derive(Clone, Copy, Debug)]
pub struct VerifiedTransaction {
    /// Transaction
    pub transaction: SignedTransaction,
    /// transaction origin
    pub origin: TransactionOrigin,
}

impl VerifiedTransaction {
    /// Takes a transaction whose sender can be recovered.
    pub fn new(transaction: SignedTransaction, origin: TransactionOrigin) -> (r: Result<
        VerifiedTransaction,
        Error,
    >)
        ensures
            transaction.signer is Some ==> r == Ok::<VerifiedTransaction, Error>(
                VerifiedTransaction { transaction, origin },
            ),
            transaction.signer is None ==> r == Err::<VerifiedTransaction, Error>(Error::NoSender),
    {
        match transaction.sender() {
            Ok(_) => Ok(VerifiedTransaction { transaction, origin }),
            Err(e) => Err(e),
        }
    }

    pub fn hash(&self) -> (r: H256)
        ensures
            r == self.transaction.hash,
    {
        self.transaction.hash()
    }

    pub fn nonce(&self) -> (r: U256)
        ensures
            r == self.transaction.nonce,
    {
        self.transaction.nonce
    }

    pub fn sender(&self) -> (r: Address)
        requires
            self.transaction.signer is Some,
        ensures
            self.transaction.signer == Some(r),
    {
        self.transaction.signer.unwrap()
    }
}

} // verus!
