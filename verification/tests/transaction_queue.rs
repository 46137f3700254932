use std::cmp::Ordering;
use txqueue::local_transactions::LocalTransactionsList;
use txqueue::order::{PrioritizationStrategy, TransactionOrder};
use txqueue::transaction::{
    AccountDetails, Error, SignedTransaction, TransactionError, TransactionImportResult,
    TransactionOrigin, VerifiedTransaction,
};
use txqueue::transaction_queue::TransactionQueue;
use txqueue::transaction_set::TransactionSet;
use txqueue::uint::{Address, H256, U256};
use txqueue::vec_map::VecMap;

/// A transaction that nobody signed yet.
#[derive(Clone)]
struct Transaction {
    nonce: U256,
    gas: U256,
    gas_price: U256,
    value: U256,
}

impl Transaction {
    /// Signs with the key of the given number. The same transaction and key give the same hash.
    fn sign(&self, key: u32) -> SignedTransaction {
        let mut hash = H256 { hi: 1, lo: key as u128 };
        for part in [self.nonce, self.gas, self.gas_price, self.value] {
            for word in [part.hi, part.lo] {
                hash.hi = (hash.hi ^ word).wrapping_mul(0x0000_0000_0100_0000_0000_0000_0000_013b);
                hash.lo = (hash.lo ^ hash.hi).rotate_left(37);
            }
        }
        SignedTransaction {
            nonce: self.nonce,
            gas_price: self.gas_price,
            gas: self.gas,
            value: self.value,
            hash,
            signer: Some(Address { hi: key, lo: 7 }),
            low_s: true,
        }
    }
}

fn u(n: u64) -> U256 {
    U256::from(n)
}

fn unsigned(tx: &SignedTransaction) -> Transaction {
    Transaction { nonce: tx.nonce, gas: tx.gas, gas_price: tx.gas_price, value: tx.value }
}

fn unwrap_tx_err(err: Result<TransactionImportResult, Error>) -> TransactionError {
    match err.unwrap_err() {
        Error::Transaction(e) => e,
        _ => panic!("Expected transaction error!"),
    }
}

fn default_nonce() -> U256 {
    u(123)
}

fn default_gas_val() -> U256 {
    u(100_000)
}

fn default_gas_price() -> U256 {
    u(1)
}

fn new_unsigned_tx(nonce: U256, gas: U256, gas_price: U256) -> Transaction {
    Transaction { nonce, gas, gas_price, value: u(100) }
}

fn new_tx(key: u32, nonce: U256, gas_price: U256) -> SignedTransaction {
    new_unsigned_tx(nonce, default_gas_val(), gas_price).sign(key)
}

fn new_tx_with_gas(key: u32, gas: U256, gas_price: U256) -> SignedTransaction {
    new_unsigned_tx(default_nonce(), gas, gas_price).sign(key)
}

fn new_tx_default(key: u32) -> SignedTransaction {
    new_tx(key, default_nonce(), default_gas_price())
}

fn default_account_details(_address: &Address) -> AccountDetails {
    AccountDetails { nonce: default_nonce(), balance: U256::max_value() }
}

fn gas_estimator(_tx: &SignedTransaction) -> U256 {
    U256::zero()
}

fn new_tx_pair(
    key: u32,
    nonce: U256,
    gas_price: U256,
    nonce_increment: U256,
    gas_price_increment: U256,
) -> (SignedTransaction, SignedTransaction) {
    let tx1 = new_unsigned_tx(nonce, default_gas_val(), gas_price);
    let tx2 = new_unsigned_tx(
        nonce.plus(nonce_increment),
        default_gas_val(),
        gas_price.plus(gas_price_increment),
    );
    (tx1.sign(key), tx2.sign(key))
}

/// Returns two consecutive transactions, both with increased gas price
fn new_tx_pair_with_gas_price_increment(
    key: u32,
    gas_price_increment: U256,
) -> (SignedTransaction, SignedTransaction) {
    let gas = default_gas_price().plus(gas_price_increment);
    let tx1 = new_unsigned_tx(default_nonce(), default_gas_val(), gas);
    let tx2 = new_unsigned_tx(default_nonce().plus(u(1)), default_gas_val(), gas);
    (tx1.sign(key), tx2.sign(key))
}

fn new_tx_pair_default(
    key: u32,
    nonce_increment: U256,
    gas_price_increment: U256,
) -> (SignedTransaction, SignedTransaction) {
    new_tx_pair(key, default_nonce(), default_gas_price(), nonce_increment, gas_price_increment)
}

/// Returns two transactions with identical (sender, nonce) but different gas price/hash.
fn new_similar_tx_pair(key: u32) -> (SignedTransaction, SignedTransaction) {
    new_tx_pair_default(key, u(0), u(1))
}

fn transaction_order(tx: &VerifiedTransaction, nonce: U256) -> TransactionOrder {
    TransactionOrder::for_transaction(tx, nonce, u(0), PrioritizationStrategy::GasPriceOnly)
}

#[test]
fn test_ordering() {
    assert_eq!(TransactionOrigin::Local.cmp(&TransactionOrigin::External), Ordering::Less);
    assert_eq!(TransactionOrigin::RetractedBlock.cmp(&TransactionOrigin::Local), Ordering::Less);
    assert_eq!(TransactionOrigin::RetractedBlock.cmp(&TransactionOrigin::External), Ordering::Less);

    assert_eq!(TransactionOrigin::External.cmp(&TransactionOrigin::Local), Ordering::Greater);
    assert_eq!(TransactionOrigin::Local.cmp(&TransactionOrigin::RetractedBlock), Ordering::Greater);
    assert_eq!(TransactionOrigin::External.cmp(&TransactionOrigin::RetractedBlock), Ordering::Greater);
}


#[test]
fn should_return_correct_nonces_when_dropped_because_of_limit() {
    // given
    let mut txq = TransactionQueue::with_limits(PrioritizationStrategy::GasPriceOnly, 2, U256::max_value(), U256::max_value());
    let (tx1, tx2) = new_tx_pair(1, u(123), u(1), u(1), u(0));
    let sender = tx1.sender().unwrap();
    let nonce = tx1.nonce;
    txq.add(tx1.clone(), TransactionOrigin::External, &default_account_details, &gas_estimator).unwrap();
    txq.add(tx2.clone(), TransactionOrigin::External, &default_account_details, &gas_estimator).unwrap();
    assert_eq!(txq.status().pending, 2);
    assert_eq!(txq.last_nonce(&sender), Some(nonce.plus(u(1))));

    // when
    let tx = new_tx(2, u(123), u(1));
    let res = txq.add(tx.clone(), TransactionOrigin::External, &default_account_details, &gas_estimator);

    // then
    assert_eq!(unwrap_tx_err(res), TransactionError::InsufficientGasPrice {
        minimal: u(2),
        got: u(1),
    });
    assert_eq!(txq.status().pending, 2);
    assert_eq!(txq.last_nonce(&sender), Some(tx2.nonce));
}

#[test]
fn should_create_transaction_set() {
    // given
    let mut local = LocalTransactionsList::new();
    let mut set = TransactionSet::new(1, U256::max_value());
    let (tx1, tx2) = new_tx_pair_default(1, u(1), u(0));
    let tx1 = VerifiedTransaction::new(tx1, TransactionOrigin::External).unwrap();
    let tx2 = VerifiedTransaction::new(tx2, TransactionOrigin::External).unwrap();
    let mut by_hash = {
        let mut x = VecMap::new();
        let tx1 = VerifiedTransaction::new(tx1.transaction.clone(), TransactionOrigin::External).unwrap();
        let tx2 = VerifiedTransaction::new(tx2.transaction.clone(), TransactionOrigin::External).unwrap();
        x.insert(tx1.hash(), tx1);
        x.insert(tx2.hash(), tx2);
        x
    };
    // Insert both transactions
    let order1 = transaction_order(&tx1, U256::zero());
    set.insert(tx1.sender(), tx1.nonce(), order1.clone());
    let order2 = transaction_order(&tx2, U256::zero());
    set.insert(tx2.sender(), tx2.nonce(), order2.clone());
    assert_eq!(set.by_priority.len(), 2);
    assert_eq!(set.by_address.len(), 2);

    // when
    set.enforce_limit(&mut by_hash, &mut local);

    // then
    assert_eq!(by_hash.len(), 1);
    assert_eq!(set.by_priority.len(), 1);
    assert_eq!(set.by_address.len(), 1);
    assert_eq!(set.by_priority.get(0), order1);
    set.clear();
    assert_eq!(set.by_priority.len(), 0);
    assert_eq!(set.by_address.len(), 0);
}

#[test]
fn should_replace_transaction_in_set() {
    let mut set = TransactionSet::new(1, U256::max_value());
    // Create two transactions with same nonce
    // (same hash)
    let (tx1, tx2) = new_tx_pair_default(1, u(0), u(0));
    let tx1 = VerifiedTransaction::new(tx1, TransactionOrigin::External).unwrap();
    let tx2 = VerifiedTransaction::new(tx2, TransactionOrigin::External).unwrap();
    let by_hash = {
        let mut x = VecMap::new();
        let tx1 = VerifiedTransaction::new(tx1.transaction.clone(), TransactionOrigin::External).unwrap();
        let tx2 = VerifiedTransaction::new(tx2.transaction.clone(), TransactionOrigin::External).unwrap();
        x.insert(tx1.hash(), tx1);
        x.insert(tx2.hash(), tx2);
        x
    };
    // Insert both transactions
    let order1 = transaction_order(&tx1, U256::zero());
    set.insert(tx1.sender(), tx1.nonce(), order1.clone());
    assert_eq!(set.by_priority.len(), 1);
    assert_eq!(set.by_address.len(), 1);
    assert_eq!(set.by_gas_price.len(), 1);
    assert_eq!(set.by_gas_price.iter().next().unwrap().0, u(1));
    assert_eq!(set.by_gas_price.iter().next().unwrap().1.len(), 1);
    // Two different orders (imagine nonce changed in the meantime)
    let order2 = transaction_order(&tx2, U256::one());
    set.insert(tx2.sender(), tx2.nonce(), order2.clone());
    assert_eq!(set.by_priority.len(), 1);
    assert_eq!(set.by_address.len(), 1);
    assert_eq!(set.by_gas_price.len(), 1);
    assert_eq!(set.by_gas_price.iter().next().unwrap().0, u(1));
    assert_eq!(set.by_gas_price.iter().next().unwrap().1.len(), 1);

    // then
    assert_eq!(by_hash.len(), 1);
    assert_eq!(set.by_priority.len(), 1);
    assert_eq!(set.by_address.len(), 1);
    assert_eq!(set.by_gas_price.len(), 1);
    assert_eq!(set.by_gas_price.iter().next().unwrap().0, u(1));
    assert_eq!(set.by_gas_price.iter().next().unwrap().1.len(), 1);
    assert_eq!(set.by_priority.get(0), order2);
}

#[test]
fn should_not_insert_same_transaction_twice_into_set() {
    let mut set = TransactionSet::new(2, U256::max_value());
    let tx = new_tx_default(1);
    let tx1 = VerifiedTransaction::new(tx.clone(), TransactionOrigin::External).unwrap();
    let order1 = TransactionOrder::for_transaction(&tx1, u(0), u(1), PrioritizationStrategy::GasPriceOnly);
    assert!(set.insert(tx1.sender(), tx1.nonce(), order1).is_none());
    let tx2 = VerifiedTransaction::new(tx, TransactionOrigin::External).unwrap();
    let order2 = TransactionOrder::for_transaction(&tx2, u(0), u(1), PrioritizationStrategy::GasPriceOnly);
    assert!(set.insert(tx2.sender(), tx2.nonce(), order2).is_some());
}

#[test]
fn should_give_correct_gas_price_entry_limit() {
    let mut set = TransactionSet::new(1, U256::max_value());

    assert_eq!(set.gas_price_entry_limit(), u(0));
    let tx = new_tx_default(1);
    let tx1 = VerifiedTransaction::new(tx.clone(), TransactionOrigin::External).unwrap();
    let order1 = TransactionOrder::for_transaction(&tx1, u(0), u(1), PrioritizationStrategy::GasPriceOnly);
    assert!(set.insert(tx1.sender(), tx1.nonce(), order1.clone()).is_none());
    assert_eq!(set.gas_price_entry_limit(), u(2));
}

#[test]
fn should_handle_same_transaction_imported_twice_with_different_state_nonces() {
    // given
    let mut txq = TransactionQueue::default();
    let (tx, tx2) = new_similar_tx_pair(1);
    let prev_nonce = |a: &Address| AccountDetails{ nonce: default_account_details(a).nonce.minus(U256::one()), balance:
        U256::max_value() };

    // First insert one transaction to future
    let res = txq.add(tx, TransactionOrigin::External, &prev_nonce, &gas_estimator);
    assert_eq!(res.unwrap(), TransactionImportResult::Future);
    assert_eq!(txq.status().future, 1);

    // now import second transaction to current
    let res = txq.add(tx2.clone(), TransactionOrigin::External, &default_account_details, &gas_estimator);

    // and then there should be only one transaction in current (the one with higher gas_price)
    assert_eq!(res.unwrap(), TransactionImportResult::Current);
    assert_eq!(txq.status().pending, 1);
    assert_eq!(txq.status().future, 0);
    assert_eq!(txq.current.by_priority.len(), 1);
    assert_eq!(txq.current.by_address.len(), 1);
    assert_eq!(txq.top_transactions()[0], tx2);
}

#[test]
fn should_move_all_transactions_from_future() {
    // given
    let mut txq = TransactionQueue::default();
    let (tx, tx2) = new_tx_pair_default(1, u(1), u(1));
    let prev_nonce = |a: &Address| AccountDetails{ nonce: default_account_details(a).nonce.minus(U256::one()), balance:
        U256::max_value() };

    // First insert one transaction to future
    let res = txq.add(tx.clone(), TransactionOrigin::External, &prev_nonce, &gas_estimator);
    assert_eq!(res.unwrap(), TransactionImportResult::Future);
    assert_eq!(txq.status().future, 1);

    // now import second transaction to current
    let res = txq.add(tx2.clone(), TransactionOrigin::External, &default_account_details, &gas_estimator);

    // then
    assert_eq!(res.unwrap(), TransactionImportResult::Current);
    assert_eq!(txq.status().pending, 2);
    assert_eq!(txq.status().future, 0);
    assert_eq!(txq.current.by_priority.len(), 2);
    assert_eq!(txq.current.by_address.len(), 2);
    assert_eq!(txq.top_transactions()[0], tx);
    assert_eq!(txq.top_transactions()[1], tx2);
}

#[test]
fn should_import_tx() {
    // given
    let mut txq = TransactionQueue::default();
    let tx = new_tx_default(1);

    // when
    let res = txq.add(tx, TransactionOrigin::External, &default_account_details, &gas_estimator);

    // then
    assert_eq!(res.unwrap(), TransactionImportResult::Current);
    let stats = txq.status();
    assert_eq!(stats.pending, 1);
}

#[test]
fn should_order_by_gas() {
    // given
    let mut txq = TransactionQueue::new(PrioritizationStrategy::GasAndGasPrice);
    let tx1 = new_tx_with_gas(1, u(50000), u(40));
    let tx2 = new_tx_with_gas(2, u(40000), u(30));
    let tx3 = new_tx_with_gas(3, u(30000), u(10));
    let tx4 = new_tx_with_gas(4, u(50000), u(20));
    txq.set_minimal_gas_price(u(15));

    // when
    let res1 = txq.add(tx1, TransactionOrigin::External, &default_account_details, &gas_estimator);
    let res2 = txq.add(tx2, TransactionOrigin::External, &default_account_details, &gas_estimator);
    let res3 = txq.add(tx3, TransactionOrigin::External, &default_account_details, &gas_estimator);
    let res4 = txq.add(tx4, TransactionOrigin::External, &default_account_details, &gas_estimator);

    // then
    assert_eq!(res1.unwrap(), TransactionImportResult::Current);
    assert_eq!(res2.unwrap(), TransactionImportResult::Current);
    assert_eq!(unwrap_tx_err(res3), TransactionError::InsufficientGasPrice {
        minimal: u(15),
        got: u(10),
    });
    assert_eq!(res4.unwrap(), TransactionImportResult::Current);
    let stats = txq.status();
    assert_eq!(stats.pending, 3);
    assert_eq!(txq.top_transactions()[0].gas, u(40000));
    assert_eq!(txq.top_transactions()[1].gas, u(50000));
    assert_eq!(txq.top_transactions()[2].gas, u(50000));
    assert_eq!(txq.top_transactions()[1].gas_price, u(40));
    assert_eq!(txq.top_transactions()[2].gas_price, u(20));
}

#[test]
fn should_order_by_gas_factor() {
    // given
    let mut txq = TransactionQueue::new(PrioritizationStrategy::GasFactorAndGasPrice);

    let tx1 = new_tx_with_gas(1, u(150_000), u(40));
    let tx2 = new_tx_with_gas(2, u(40_000), u(16));
    let tx3 = new_tx_with_gas(3, u(30_000), u(15));
    let tx4 = new_tx_with_gas(4, u(150_000), u(62));
    txq.set_minimal_gas_price(u(15));

    // when
    let res1 = txq.add(tx1, TransactionOrigin::External, &default_account_details, &gas_estimator);
    let res2 = txq.add(tx2, TransactionOrigin::External, &default_account_details, &gas_estimator);
    let res3 = txq.add(tx3, TransactionOrigin::External, &default_account_details, &gas_estimator);
    let res4 = txq.add(tx4, TransactionOrigin::External, &default_account_details, &gas_estimator);

    // then
    assert_eq!(res1.unwrap(), TransactionImportResult::Current);
    assert_eq!(res2.unwrap(), TransactionImportResult::Current);
    assert_eq!(res3.unwrap(), TransactionImportResult::Current);
    assert_eq!(res4.unwrap(), TransactionImportResult::Current);
    let stats = txq.status();
    assert_eq!(stats.pending, 4);
    assert_eq!(txq.top_transactions()[0].gas, u(30_000));
    assert_eq!(txq.top_transactions()[1].gas, u(150_000));
    assert_eq!(txq.top_transactions()[2].gas, u(40_000));
    assert_eq!(txq.top_transactions()[3].gas, u(150_000));
    assert_eq!(txq.top_transactions()[0].gas_price, u(15));
    assert_eq!(txq.top_transactions()[1].gas_price, u(62));
    assert_eq!(txq.top_transactions()[2].gas_price, u(16));
    assert_eq!(txq.top_transactions()[3].gas_price, u(40));
}

#[test]
fn gas_limit_should_never_overflow() {
    // given
    let mut txq = TransactionQueue::default();
    txq.set_gas_limit(U256::zero());
    assert_eq!(txq.gas_limit, U256::zero());

    // when
    txq.set_gas_limit(U256::max_value());

    // then
    assert_eq!(txq.gas_limit, U256::max_value());
}

#[test]
fn should_not_import_transaction_above_gas_limit() {
    // given
    let mut txq = TransactionQueue::default();
    let tx = new_tx_default(1);
    let gas = tx.gas;
    let limit = gas.div_u64(2);
    txq.set_gas_limit(limit);

    // when
    let res = txq.add(tx, TransactionOrigin::External, &default_account_details, &gas_estimator);

    // then
    assert_eq!(unwrap_tx_err(res), TransactionError::GasLimitExceeded {
        limit: u(55_000), // Should be 110% of set_gas_limit
        got: gas,
    });
    let stats = txq.status();
    assert_eq!(stats.pending, 0);
    assert_eq!(stats.future, 0);
}


#[test]
fn should_drop_transactions_from_senders_without_balance() {
    // given
    let mut txq = TransactionQueue::default();
    let tx = new_tx_default(1);
    let account = |a: &Address| AccountDetails {
        nonce: default_account_details(a).nonce,
        balance: U256::one()
    };

    // when
    let res = txq.add(tx, TransactionOrigin::External, &account, &gas_estimator);

    // then
    assert_eq!(unwrap_tx_err(res), TransactionError::InsufficientBalance {
        balance: u(1),
        cost: u(100_100),
    });
    let stats = txq.status();
    assert_eq!(stats.pending, 0);
    assert_eq!(stats.future, 0);
}

#[test]
fn should_not_import_transaction_below_min_gas_price_threshold_if_external() {
    // given
    let mut txq = TransactionQueue::default();
    let tx = new_tx_default(1);
    txq.set_minimal_gas_price(tx.gas_price.plus(U256::one()));

    // when
    let res = txq.add(tx, TransactionOrigin::External, &default_account_details, &gas_estimator);

    // then
    assert_eq!(unwrap_tx_err(res), TransactionError::InsufficientGasPrice {
        minimal: u(2),
        got: u(1),
    });
    let stats = txq.status();
    assert_eq!(stats.pending, 0);
    assert_eq!(stats.future, 0);
}

#[test]
fn should_import_transaction_below_min_gas_price_threshold_if_local() {
    // given
    let mut txq = TransactionQueue::default();
    let tx = new_tx_default(1);
    txq.set_minimal_gas_price(tx.gas_price.plus(U256::one()));

    // when
    let res = txq.add(tx, TransactionOrigin::Local, &default_account_details, &gas_estimator);

    // then
    assert_eq!(res.unwrap(), TransactionImportResult::Current);
    let stats = txq.status();
    assert_eq!(stats.pending, 1);
    assert_eq!(stats.future, 0);
}

#[test]
fn should_reject_incorectly_signed_transaction() {
    // given
    let mut txq = TransactionQueue::default();
    let tx = new_unsigned_tx(u(123), u(100), u(1));
    // v, r and s are all zero: no sender can be recovered
    let stx = SignedTransaction { signer: None, ..tx.sign(1) };
    // when
    let res = txq.add(stx, TransactionOrigin::External, &default_account_details, &gas_estimator);

    // then
    assert!(res.is_err());
}

#[test]
fn should_import_txs_from_same_sender() {
    // given
    let mut txq = TransactionQueue::default();

    let (tx, tx2) = new_tx_pair_default(1, u(1), u(0));

    // when
    txq.add(tx.clone(), TransactionOrigin::External, &default_account_details, &gas_estimator).unwrap();
    txq.add(tx2.clone(), TransactionOrigin::External, &default_account_details, &gas_estimator).unwrap();

    // then
    let top = txq.top_transactions();
    assert_eq!(top[0], tx);
    assert_eq!(top[1], tx2);
    assert_eq!(top.len(), 2);
}

#[test]
fn should_prioritize_local_transactions_within_same_nonce_height() {
    // given
    let mut txq = TransactionQueue::default();
    let tx = new_tx_default(1);
    // the second one has same nonce but higher `gas_price`
    let (_, tx2) = new_similar_tx_pair(2);

    // when
    // first insert the one with higher gas price
    txq.add(tx2.clone(), TransactionOrigin::External, &default_account_details, &gas_estimator).unwrap();
    // then the one with lower gas price, but local
    txq.add(tx.clone(), TransactionOrigin::Local, &default_account_details, &gas_estimator).unwrap();

    // then
    let top = txq.top_transactions();
    assert_eq!(top[0], tx); // local should be first
    assert_eq!(top[1], tx2);
    assert_eq!(top.len(), 2);
}

#[test]
fn when_importing_local_should_mark_others_from_the_same_sender_as_local() {
    // given
    let mut txq = TransactionQueue::default();
    let (tx1, tx2) = new_tx_pair_default(1, u(1), u(0));
    // the second one has same nonce but higher `gas_price`
    let (_, tx0) = new_similar_tx_pair(2);

    txq.add(tx0.clone(), TransactionOrigin::External, &default_account_details, &gas_estimator).unwrap();
    txq.add(tx1.clone(), TransactionOrigin::External, &default_account_details, &gas_estimator).unwrap();
    // the one with higher gas price is first
    assert_eq!(txq.top_transactions()[0], tx0);
    assert_eq!(txq.top_transactions()[1], tx1);

    // when
    // insert second as local
    txq.add(tx2.clone(), TransactionOrigin::Local, &default_account_details, &gas_estimator).unwrap();

    // then
    // the order should be updated
    assert_eq!(txq.top_transactions()[0], tx1);
    assert_eq!(txq.top_transactions()[1], tx2);
    assert_eq!(txq.top_transactions()[2], tx0);
}

#[test]
fn should_prioritize_reimported_transactions_within_same_nonce_height() {
    // given
    let mut txq = TransactionQueue::default();
    let tx = new_tx_default(1);
    // the second one has same nonce but higher `gas_price`
    let (_, tx2) = new_similar_tx_pair(2);

    // when
    // first insert local one with higher gas price
    txq.add(tx2.clone(), TransactionOrigin::Local, &default_account_details, &gas_estimator).unwrap();
    // then the one with lower gas price, but from retracted block
    txq.add(tx.clone(), TransactionOrigin::RetractedBlock, &default_account_details, &gas_estimator).unwrap();

    // then
    let top = txq.top_transactions();
    assert_eq!(top[0], tx); // retracted should be first
    assert_eq!(top[1], tx2);
    assert_eq!(top.len(), 2);
}

#[test]
fn should_not_prioritize_local_transactions_with_different_nonce_height() {
    // given
    let mut txq = TransactionQueue::default();
    let (tx, tx2) = new_tx_pair_default(1, u(1), u(0));

    // when
    txq.add(tx.clone(), TransactionOrigin::External, &default_account_details, &gas_estimator).unwrap();
    txq.add(tx2.clone(), TransactionOrigin::Local, &default_account_details, &gas_estimator).unwrap();

    // then
    let top = txq.top_transactions();
    assert_eq!(top[0], tx);
    assert_eq!(top[1], tx2);
    assert_eq!(top.len(), 2);
}

#[test]
fn should_penalize_transactions_from_sender_in_future() {
    // given
    let prev_nonce = |a: &Address| AccountDetails{ nonce: default_account_details(a).nonce.minus(U256::one()), balance: U256::max_value() };
    let mut txq = TransactionQueue::default();
    // txa, txb - slightly bigger gas price to have consistent ordering
    let (txa, txb) = new_tx_pair_default(1, u(1), u(0));
    let (tx1, tx2) = new_tx_pair_with_gas_price_increment(2, u(3));

    // insert everything
    txq.add(txa.clone(), TransactionOrigin::External, &prev_nonce, &gas_estimator).unwrap();
    txq.add(txb.clone(), TransactionOrigin::External, &prev_nonce, &gas_estimator).unwrap();
    txq.add(tx1.clone(), TransactionOrigin::External, &prev_nonce, &gas_estimator).unwrap();
    txq.add(tx2.clone(), TransactionOrigin::External, &prev_nonce, &gas_estimator).unwrap();

    assert_eq!(txq.status().future, 4);

    // when
    txq.penalize(&tx1.hash());

    // then
    let top = txq.future_transactions();
    assert_eq!(top[0], txa);
    assert_eq!(top[1], txb);
    assert_eq!(top[2], tx1);
    assert_eq!(top[3], tx2);
    assert_eq!(top.len(), 4);
}

#[test]
fn should_not_penalize_local_transactions() {
    // given
    let mut txq = TransactionQueue::default();
    // txa, txb - slightly bigger gas price to have consistent ordering
    let (txa, txb) = new_tx_pair_default(1, u(1), u(0));
    let (tx1, tx2) = new_tx_pair_with_gas_price_increment(2, u(3));

    // insert everything
    txq.add(txa.clone(), TransactionOrigin::Local, &default_account_details, &gas_estimator).unwrap();
    txq.add(txb.clone(), TransactionOrigin::Local, &default_account_details, &gas_estimator).unwrap();
    txq.add(tx1.clone(), TransactionOrigin::Local, &default_account_details, &gas_estimator).unwrap();
    txq.add(tx2.clone(), TransactionOrigin::Local, &default_account_details, &gas_estimator).unwrap();

    let top = txq.top_transactions();
    assert_eq!(top[0], tx1);
    assert_eq!(top[1], txa);
    assert_eq!(top[2], tx2);
    assert_eq!(top[3], txb);
    assert_eq!(top.len(), 4);

    // when
    txq.penalize(&tx1.hash());

    // then (order is the same)
    let top = txq.top_transactions();
    assert_eq!(top[0], tx1);
    assert_eq!(top[1], txa);
    assert_eq!(top[2], tx2);
    assert_eq!(top[3], txb);
    assert_eq!(top.len(), 4);
}

#[test]
fn should_penalize_transactions_from_sender() {
    // given
    let mut txq = TransactionQueue::default();
    // txa, txb - slightly bigger gas price to have consistent ordering
    let (txa, txb) = new_tx_pair_default(1, u(1), u(0));
    let (tx1, tx2) = new_tx_pair_with_gas_price_increment(2, u(3));

    // insert everything
    txq.add(txa.clone(), TransactionOrigin::External, &default_account_details, &gas_estimator).unwrap();
    txq.add(txb.clone(), TransactionOrigin::External, &default_account_details, &gas_estimator).unwrap();
    txq.add(tx1.clone(), TransactionOrigin::External, &default_account_details, &gas_estimator).unwrap();
    txq.add(tx2.clone(), TransactionOrigin::External, &default_account_details, &gas_estimator).unwrap();

    let top = txq.top_transactions();
    assert_eq!(top[0], tx1);
    assert_eq!(top[1], txa);
    assert_eq!(top[2], tx2);
    assert_eq!(top[3], txb);
    assert_eq!(top.len(), 4);

    // when
    txq.penalize(&tx1.hash());

    // then
    let top = txq.top_transactions();
    assert_eq!(top[0], txa);
    assert_eq!(top[1], txb);
    assert_eq!(top[2], tx1);
    assert_eq!(top[3], tx2);
    assert_eq!(top.len(), 4);
}

#[test]
fn should_return_pending_hashes() {
        // given
    let mut txq = TransactionQueue::default();

    let (tx, tx2) = new_tx_pair_default(1, u(1), u(0));

    // when
    txq.add(tx.clone(), TransactionOrigin::External, &default_account_details, &gas_estimator).unwrap();
    txq.add(tx2.clone(), TransactionOrigin::External, &default_account_details, &gas_estimator).unwrap();

    // then
    let top = txq.pending_hashes();
    assert_eq!(top[0], tx.hash());
    assert_eq!(top[1], tx2.hash());
    assert_eq!(top.len(), 2);
}

#[test]
fn should_put_transaction_to_futures_if_gap_detected() {
    // given
    let mut txq = TransactionQueue::default();

    let (tx, tx2) = new_tx_pair_default(1, u(2), u(0));

    // when
    let res1 = txq.add(tx.clone(), TransactionOrigin::External, &default_account_details, &gas_estimator).unwrap();
    let res2 = txq.add(tx2.clone(), TransactionOrigin::External, &default_account_details, &gas_estimator).unwrap();

    // then
    assert_eq!(res1, TransactionImportResult::Current);
    assert_eq!(res2, TransactionImportResult::Future);
    let stats = txq.status();
    assert_eq!(stats.pending, 1);
    assert_eq!(stats.future, 1);
    let top = txq.top_transactions();
    assert_eq!(top.len(), 1);
    assert_eq!(top[0], tx);
}

#[test]
fn should_correctly_update_futures_when_removing() {
    // given
    let prev_nonce = |a: &Address| AccountDetails{ nonce: default_account_details(a).nonce.minus(U256::one()), balance:
        U256::max_value() };
    let next2_nonce = default_nonce().plus(u(3));

    let mut txq = TransactionQueue::default();

    let (tx, tx2) = new_tx_pair_default(1, u(1), u(0));
    txq.add(tx.clone(), TransactionOrigin::External, &prev_nonce, &gas_estimator).unwrap();
    txq.add(tx2.clone(), TransactionOrigin::External, &prev_nonce, &gas_estimator).unwrap();
    assert_eq!(txq.status().future, 2);

    // when
    txq.remove_all(tx.sender().unwrap(), next2_nonce);
    // should remove both transactions since they are not valid

    // then
    assert_eq!(txq.status().pending, 0);
    assert_eq!(txq.status().future, 0);
}

#[test]
fn should_move_transactions_if_gap_filled() {
    // given
    let mut txq = TransactionQueue::default();
    let kp = 1;
    let secret = kp;
    let tx = new_unsigned_tx(u(123), default_gas_val(), u(1)).sign(secret);
    let tx1 = new_unsigned_tx(u(124), default_gas_val(), u(1)).sign(secret);
    let tx2 = new_unsigned_tx(u(125), default_gas_val(), u(1)).sign(secret);

    txq.add(tx, TransactionOrigin::External, &default_account_details, &gas_estimator).unwrap();
    assert_eq!(txq.status().pending, 1);
    txq.add(tx2, TransactionOrigin::External, &default_account_details, &gas_estimator).unwrap();
    assert_eq!(txq.status().future, 1);

    // when
    txq.add(tx1, TransactionOrigin::External, &default_account_details, &gas_estimator).unwrap();

    // then
    let stats = txq.status();
    assert_eq!(stats.pending, 3);
    assert_eq!(stats.future, 0);
    assert_eq!(txq.future.by_priority.len(), 0);
    assert_eq!(txq.future.by_address.len(), 0);
    assert_eq!(txq.future.by_gas_price.len(), 0);
}

#[test]
fn should_remove_transaction() {
    // given
    let mut txq2 = TransactionQueue::default();
    let (tx, tx2) = new_tx_pair_default(1, u(3), u(0));
    txq2.add(tx.clone(), TransactionOrigin::External, &default_account_details, &gas_estimator).unwrap();
    txq2.add(tx2.clone(), TransactionOrigin::External, &default_account_details, &gas_estimator).unwrap();
    assert_eq!(txq2.status().pending, 1);
    assert_eq!(txq2.status().future, 1);

    // when
    txq2.remove_all(tx.sender().unwrap(), tx.nonce.plus(U256::one()));
    txq2.remove_all(tx2.sender().unwrap(), tx2.nonce.plus(U256::one()));


    // then
    let stats = txq2.status();
    assert_eq!(stats.pending, 0);
    assert_eq!(stats.future, 0);
}

#[test]
fn should_move_transactions_to_future_if_gap_introduced() {
    // given
    let mut txq = TransactionQueue::default();
    let (tx, tx2) = new_tx_pair_default(1, u(1), u(0));
    let tx3 = new_tx_default(2);
    txq.add(tx2.clone(), TransactionOrigin::External, &default_account_details, &gas_estimator).unwrap();
    assert_eq!(txq.status().future, 1);
    txq.add(tx3.clone(), TransactionOrigin::External, &default_account_details, &gas_estimator).unwrap();
    txq.add(tx.clone(), TransactionOrigin::External, &default_account_details, &gas_estimator).unwrap();
    assert_eq!(txq.status().pending, 3);

    // when
    txq.remove_invalid(&tx.hash(), &default_account_details);

    // then
    let stats = txq.status();
    assert_eq!(stats.future, 1);
    assert_eq!(stats.pending, 1);
}

#[test]
fn should_clear_queue() {
    // given
    let mut txq = TransactionQueue::default();
    let (tx, tx2) = new_tx_pair_default(1, u(1), u(0));

    // add
    txq.add(tx2.clone(), TransactionOrigin::External, &default_account_details, &gas_estimator).unwrap();
    txq.add(tx.clone(), TransactionOrigin::External, &default_account_details, &gas_estimator).unwrap();
    let stats = txq.status();
    assert_eq!(stats.pending, 2);

    // when
    txq.clear();

    // then
    let stats = txq.status();
    assert_eq!(stats.pending, 0);
}

#[test]
fn should_drop_old_transactions_when_hitting_the_limit() {
    // given
    let mut txq = TransactionQueue::with_limits(PrioritizationStrategy::GasPriceOnly, 1, U256::max_value(), U256::max_value());
    let (tx, tx2) = new_tx_pair_default(1, u(1), u(0));
    let sender = tx.sender().unwrap();
    let nonce = tx.nonce;
    txq.add(tx.clone(), TransactionOrigin::External, &default_account_details, &gas_estimator).unwrap();
    assert_eq!(txq.status().pending, 1);

    // when
    let res = txq.add(tx2.clone(), TransactionOrigin::External, &default_account_details, &gas_estimator);

    // then
    let t = txq.top_transactions();
    assert_eq!(unwrap_tx_err(res), TransactionError::InsufficientGasPrice { minimal: u(2), got: u(1) });
    assert_eq!(txq.status().pending, 1);
    assert_eq!(t.len(), 1);
    assert_eq!(t[0], tx);
    assert_eq!(txq.last_nonce(&sender), Some(nonce));
}

#[test]
fn should_limit_future_transactions() {
    let mut txq = TransactionQueue::with_limits(PrioritizationStrategy::GasPriceOnly, 1, U256::max_value(), U256::max_value());
    txq.current.set_limit(10);
    let (tx1, tx2) = new_tx_pair_default(1, u(4), u(1));
    let (tx3, tx4) = new_tx_pair_default(2, u(4), u(2));
    txq.add(tx1.clone(), TransactionOrigin::External, &default_account_details, &gas_estimator).unwrap();
    txq.add(tx3.clone(), TransactionOrigin::External, &default_account_details, &gas_estimator).unwrap();
    assert_eq!(txq.status().pending, 2);

    // when
    txq.add(tx2.clone(), TransactionOrigin::External, &default_account_details, &gas_estimator).unwrap();
    assert_eq!(txq.status().future, 1);
    txq.add(tx4.clone(), TransactionOrigin::External, &default_account_details, &gas_estimator).unwrap();

    // then
    assert_eq!(txq.status().future, 1);
}

#[test]
fn should_limit_by_gas() {
    let mut txq = TransactionQueue::with_limits(PrioritizationStrategy::GasPriceOnly, 100, default_gas_val().times(u(2)), U256::max_value());
    let (tx1, tx2) = new_tx_pair_default(1, u(1), u(1));
    let (tx3, tx4) = new_tx_pair_default(2, u(1), u(2));
    txq.add(tx1.clone(), TransactionOrigin::External, &default_account_details, &gas_estimator).unwrap();
    txq.add(tx2.clone(), TransactionOrigin::External, &default_account_details, &gas_estimator).unwrap();
    txq.add(tx3.clone(), TransactionOrigin::External, &default_account_details, &gas_estimator).unwrap();
    // limited by gas
    txq.add(tx4.clone(), TransactionOrigin::External, &default_account_details, &gas_estimator).unwrap_err();
    assert_eq!(txq.status().pending, 2);
}

#[test]
fn should_keep_own_transactions_above_gas_limit() {
    let mut txq = TransactionQueue::with_limits(PrioritizationStrategy::GasPriceOnly, 100, default_gas_val().times(u(2)), U256::max_value());
    let (tx1, tx2) = new_tx_pair_default(1, u(1), u(1));
    let (tx3, tx4) = new_tx_pair_default(2, u(1), u(2));
    let (tx5, _) = new_tx_pair_default(3, u(1), u(2));
    txq.add(tx1.clone(), TransactionOrigin::Local, &default_account_details, &gas_estimator).unwrap();
    txq.add(tx2.clone(), TransactionOrigin::Local, &default_account_details, &gas_estimator).unwrap();
    // Not accepted because of limit
    txq.add(tx5.clone(), TransactionOrigin::External, &default_account_details, &gas_estimator).unwrap_err();
    txq.add(tx3.clone(), TransactionOrigin::Local, &default_account_details, &gas_estimator).unwrap();
    txq.add(tx4.clone(), TransactionOrigin::Local, &default_account_details, &gas_estimator).unwrap();
    assert_eq!(txq.status().pending, 4);
}

#[test]
fn should_drop_transactions_with_old_nonces() {
    let mut txq = TransactionQueue::default();
    let tx = new_tx_default(1);
    let last_nonce = tx.nonce.plus(U256::one());
    let fetch_last_nonce = |_a: &Address| AccountDetails { nonce: last_nonce, balance: U256::max_value() };

    // when
    let res = txq.add(tx, TransactionOrigin::External, &fetch_last_nonce, &gas_estimator);

    // then
    assert_eq!(unwrap_tx_err(res), TransactionError::Old);
    let stats = txq.status();
    assert_eq!(stats.pending, 0);
    assert_eq!(stats.future, 0);
}

#[test]
fn should_not_insert_same_transaction_twice() {
    // given
    let nonce = |a: &Address| AccountDetails { nonce: default_account_details(a).nonce.plus(U256::one()),
        balance: U256::max_value() };
    let mut txq = TransactionQueue::default();
    let (_tx1, tx2) = new_tx_pair_default(1, u(1), u(0));
    txq.add(tx2.clone(), TransactionOrigin::External, &default_account_details, &gas_estimator).unwrap();
    assert_eq!(txq.status().future, 1);
    assert_eq!(txq.status().pending, 0);

    // when
    let res = txq.add(tx2.clone(), TransactionOrigin::External, &nonce, &gas_estimator);

    // then
    assert_eq!(unwrap_tx_err(res), TransactionError::AlreadyImported);
    let stats = txq.status();
    assert_eq!(stats.future, 1);
    assert_eq!(stats.pending, 0);
}

#[test]
fn should_accept_same_transaction_twice_if_removed() {
    // given
    let mut txq = TransactionQueue::default();
    let (tx1, tx2) = new_tx_pair_default(1, u(1), u(0));
    txq.add(tx1.clone(), TransactionOrigin::External, &default_account_details, &gas_estimator).unwrap();
    txq.add(tx2.clone(), TransactionOrigin::External, &default_account_details, &gas_estimator).unwrap();
    assert_eq!(txq.status().pending, 2);

    // when
    txq.remove_invalid(&tx1.hash(), &default_account_details);
    assert_eq!(txq.status().pending, 0);
    assert_eq!(txq.status().future, 1);
    txq.add(tx1.clone(), TransactionOrigin::External, &default_account_details, &gas_estimator).unwrap();

    // then
    let stats = txq.status();
    assert_eq!(stats.future, 0);
    assert_eq!(stats.pending, 2);
}

#[test]
fn should_not_move_to_future_if_state_nonce_is_higher() {
    // given
    let mut txq = TransactionQueue::default();
    let (tx, tx2) = new_tx_pair_default(1, u(1), u(0));
    let tx3 = new_tx_default(2);
    txq.add(tx2.clone(), TransactionOrigin::External, &default_account_details, &gas_estimator).unwrap();
    assert_eq!(txq.status().future, 1);
    txq.add(tx3.clone(), TransactionOrigin::External, &default_account_details, &gas_estimator).unwrap();
    txq.add(tx.clone(), TransactionOrigin::External, &default_account_details, &gas_estimator).unwrap();
    assert_eq!(txq.status().pending, 3);

    // when
    let sender = tx.sender().unwrap();
    txq.remove_all(sender, default_nonce().plus(U256::one()));

    // then
    let stats = txq.status();
    assert_eq!(stats.future, 0);
    assert_eq!(stats.pending, 2);
}

#[test]
fn should_replace_same_transaction_when_has_higher_fee() {
    // given
    let mut txq = TransactionQueue::default();
    let keypair = 1;
    let tx = new_unsigned_tx(u(123), default_gas_val(), u(1)).sign(keypair);
    let tx2 = {
        let mut tx2 = unsigned(&tx);
        tx2.gas_price = u(200);
        tx2.sign(keypair)
    };

    // when
    txq.add(tx, TransactionOrigin::External, &default_account_details, &gas_estimator).unwrap();
    txq.add(tx2, TransactionOrigin::External, &default_account_details, &gas_estimator).unwrap();

    // then
    let stats = txq.status();
    assert_eq!(stats.pending, 1);
    assert_eq!(stats.future, 0);
    assert_eq!(txq.top_transactions()[0].gas_price, u(200));
}

#[test]
fn should_replace_same_transaction_when_importing_to_futures() {
    // given
    let mut txq = TransactionQueue::default();
    let keypair = 1;
    let tx0 = new_unsigned_tx(u(123), default_gas_val(), u(1)).sign(keypair);
    let tx1 = {
        let mut tx1 = unsigned(&tx0);
        tx1.nonce = u(124);
        tx1.sign(keypair)
    };
    let tx2 = {
        let mut tx2 = unsigned(&tx1);
        tx2.gas_price = u(200);
        tx2.sign(keypair)
    };

    // when
    txq.add(tx1, TransactionOrigin::External, &default_account_details, &gas_estimator).unwrap();
    txq.add(tx2, TransactionOrigin::External, &default_account_details, &gas_estimator).unwrap();
    assert_eq!(txq.status().future, 1);
    txq.add(tx0, TransactionOrigin::External, &default_account_details, &gas_estimator).unwrap();

    // then
    let stats = txq.status();
    assert_eq!(stats.future, 0);
    assert_eq!(stats.pending, 2);
    assert_eq!(txq.top_transactions()[1].gas_price, u(200));
}

#[test]
fn should_recalculate_height_when_removing_from_future() {
    // given
    let previous_nonce = |a: &Address| AccountDetails{ nonce: default_account_details(a).nonce.minus(U256::one()), balance:
        U256::max_value() };
    let next_nonce = |a: &Address| AccountDetails{ nonce: default_account_details(a).nonce.plus(U256::one()), balance:
        U256::max_value() };
    let mut txq = TransactionQueue::default();
    let (tx1, tx2) = new_tx_pair_default(1, u(1), u(0));
    txq.add(tx1.clone(), TransactionOrigin::External, &previous_nonce, &gas_estimator).unwrap();
    txq.add(tx2, TransactionOrigin::External, &previous_nonce, &gas_estimator).unwrap();
    assert_eq!(txq.status().future, 2);

    // when
    txq.remove_invalid(&tx1.hash(), &next_nonce);

    // then
    let stats = txq.status();
    assert_eq!(stats.future, 0);
    assert_eq!(stats.pending, 1);
}

#[test]
fn should_return_none_when_transaction_from_given_address_does_not_exist() {
    // given
    let txq = TransactionQueue::default();

    // then
    assert_eq!(txq.last_nonce(&Address::default()), None);
}

#[test]
fn should_return_correct_nonce_when_transactions_from_given_address_exist() {
    // given
    let mut txq = TransactionQueue::default();
    let tx = new_tx_default(1);
    let from = tx.sender().unwrap();
    let nonce = tx.nonce;
    let details = |_a: &Address| AccountDetails { nonce: nonce, balance: U256::max_value() };

    // when
    txq.add(tx, TransactionOrigin::External, &details, &gas_estimator).unwrap();

    // then
    assert_eq!(txq.last_nonce(&from), Some(nonce));
}

#[test]
fn should_remove_old_transaction_even_if_newer_transaction_was_not_known() {
    // given
    let mut txq = TransactionQueue::default();
    let (tx1, tx2) = new_tx_pair_default(1, u(1), u(0));
    let (nonce1, nonce2) = (tx1.nonce, tx2.nonce);
    let details1 = |_a: &Address| AccountDetails { nonce: nonce1, balance: U256::max_value() };

    // Insert first transaction
    txq.add(tx1, TransactionOrigin::External, &details1, &gas_estimator).unwrap();

    // when
    txq.remove_all(tx2.sender().unwrap(), nonce2.plus(U256::one()));

    // then
    assert!(txq.top_transactions().is_empty());
}

#[test]
fn should_return_valid_last_nonce_after_remove_all() {
    // given
    let mut txq = TransactionQueue::default();
    let (tx1, tx2) = new_tx_pair_default(1, u(4), u(0));
    let sender = tx1.sender().unwrap();
    let (nonce1, nonce2) = (tx1.nonce, tx2.nonce);
    let details1 = |_a: &Address| AccountDetails { nonce: nonce1, balance: U256::max_value() };

    // when
    // Insert first transaction
    assert_eq!(txq.add(tx1, TransactionOrigin::External, &details1, &gas_estimator).unwrap(), TransactionImportResult::Current);
    // Second should go to future
    assert_eq!(txq.add(tx2, TransactionOrigin::External, &details1, &gas_estimator).unwrap(), TransactionImportResult::Future);
    // Now block is imported
    txq.remove_all(sender, nonce2.minus(u(1)));
    // tx2 should be not be promoted to current
    assert_eq!(txq.status().pending, 0);
    assert_eq!(txq.status().future, 1);

    // then
    assert_eq!(txq.last_nonce(&sender), None);
}

#[test]
fn should_return_true_if_there_is_local_transaction_pending() {
    // given
    let mut txq = TransactionQueue::default();
    let (tx1, tx2) = new_tx_pair_default(1, u(1), u(0));
    assert_eq!(txq.has_local_pending_transactions(), false);

    // when
    assert_eq!(txq.add(tx1, TransactionOrigin::External, &default_account_details, &gas_estimator).unwrap(), TransactionImportResult::Current);
    assert_eq!(txq.has_local_pending_transactions(), false);
    assert_eq!(txq.add(tx2, TransactionOrigin::Local, &default_account_details, &gas_estimator).unwrap(), TransactionImportResult::Current);

    // then
    assert_eq!(txq.has_local_pending_transactions(), true);
}

#[test]
fn should_keep_right_order_in_future() {
    // given
    let mut txq = TransactionQueue::with_limits(PrioritizationStrategy::GasPriceOnly, 1, U256::max_value(), U256::max_value());
    let (tx1, tx2) = new_tx_pair_default(1, u(1), u(0));
    let prev_nonce = |a: &Address| AccountDetails { nonce: default_account_details(a).nonce.minus(U256::one()), balance:
        default_account_details(a).balance };

    // when
    assert_eq!(txq.add(tx2, TransactionOrigin::External, &prev_nonce, &gas_estimator).unwrap(), TransactionImportResult::Future);
    assert_eq!(txq.add(tx1.clone(), TransactionOrigin::External, &prev_nonce, &gas_estimator).unwrap(), TransactionImportResult::Future);

    // then
    assert_eq!(txq.future.by_priority.len(), 1);
    assert_eq!(txq.future.by_priority.get(0).hash, tx1.hash());
}

#[test]
fn should_return_correct_last_nonce() {
    // given
    let mut txq = TransactionQueue::default();
    let (tx1, tx2, tx2_2, tx3) = {
        let keypair = 1;
        let secret = keypair;
        let nonce = u(123);
        let gas = default_gas_val();
        let tx = new_unsigned_tx(nonce, gas, u(1));
        let tx2 = new_unsigned_tx(nonce.plus(u(1)), gas, u(1));
        let tx2_2 = new_unsigned_tx(nonce.plus(u(1)), gas, u(5));
        let tx3 = new_unsigned_tx(nonce.plus(u(2)), gas, u(1));


        (tx.sign(secret), tx2.sign(secret), tx2_2.sign(secret), tx3.sign(secret))
    };
    let sender = tx1.sender().unwrap();
    txq.add(tx1, TransactionOrigin::Local, &default_account_details, &gas_estimator).unwrap();
    txq.add(tx2, TransactionOrigin::Local, &default_account_details, &gas_estimator).unwrap();
    txq.add(tx3, TransactionOrigin::Local, &default_account_details, &gas_estimator).unwrap();
    assert_eq!(txq.future.by_priority.len(), 0);
    assert_eq!(txq.current.by_priority.len(), 3);

    // when
    let res = txq.add(tx2_2, TransactionOrigin::Local, &default_account_details, &gas_estimator);

    // then
    assert_eq!(txq.last_nonce(&sender).unwrap(), u(125));
    assert_eq!(res.unwrap(), TransactionImportResult::Current);
    assert_eq!(txq.current.by_priority.len(), 3);
}

#[test]
fn should_reject_transactions_below_base_gas() {
    // given
    let mut txq = TransactionQueue::default();
    let (tx1, tx2) = new_tx_pair_default(1, u(1), u(0));
    let high_gas = |_: &SignedTransaction| u(100_001);

    // when
    let res1 = txq.add(tx1, TransactionOrigin::Local, &default_account_details, &gas_estimator);
    let res2 = txq.add(tx2, TransactionOrigin::Local, &default_account_details, &high_gas);

    // then
    assert_eq!(res1.unwrap(), TransactionImportResult::Current);
    assert_eq!(unwrap_tx_err(res2), TransactionError::InsufficientGas {
        minimal: u(100_001),
        got: u(100_000),
    });
}

#[test]
fn should_clear_all_old_transactions() {
    // given
    let mut txq = TransactionQueue::default();
    let (tx1, tx2) = new_tx_pair_default(1, u(1), u(0));
    let (tx3, tx4) = new_tx_pair_default(2, u(1), u(0));
    let nonce1 = tx1.nonce;

    // Insert all transactions
    txq.add(tx1, TransactionOrigin::External, &default_account_details, &gas_estimator).unwrap();
    txq.add(tx2, TransactionOrigin::External, &default_account_details, &gas_estimator).unwrap();
    txq.add(tx3, TransactionOrigin::External, &default_account_details, &gas_estimator).unwrap();
    txq.add(tx4, TransactionOrigin::External, &default_account_details, &gas_estimator).unwrap();
    assert_eq!(txq.top_transactions().len(), 4);

    // when
    txq.remove_old(|_| nonce1.plus(U256::one()));

    // then
    assert_eq!(txq.top_transactions().len(), 2);
}
