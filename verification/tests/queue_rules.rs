use txqueue::gas_price_queue::GasPriceQueue;
use txqueue::local_transactions::LocalTransactionStatus;
use txqueue::order::{PrioritizationStrategy, TransactionOrder};
use txqueue::transaction::{
    AccountDetails, Error, SignedTransaction, TransactionError, TransactionImportResult,
    TransactionOrigin, VerifiedTransaction,
};
use txqueue::transaction_queue::TransactionQueue;
use txqueue::uint::{Address, H256, U256};

fn u(n: u64) -> U256 {
    U256::from(n)
}

/// A transaction of a sender. Its hash tells it from all others.
fn tx(sender: u32, nonce: u64, gas_price: u64) -> SignedTransaction {
    SignedTransaction {
        nonce: u(nonce),
        gas_price: u(gas_price),
        gas: u(1000),
        value: u(5),
        hash: H256 { hi: sender as u128, lo: (nonce as u128) * 1_000_000 + gas_price as u128 },
        signer: Some(Address { hi: sender, lo: 0 }),
        low_s: true,
    }
}

fn address(sender: u32) -> Address {
    Address { hi: sender, lo: 0 }
}

/// Accounts whose next nonce is 10.
fn at_ten(_a: &Address) -> AccountDetails {
    AccountDetails { nonce: u(10), balance: U256::max_value() }
}

fn no_gas(_tx: &SignedTransaction) -> U256 {
    U256::zero()
}

fn queue() -> TransactionQueue {
    TransactionQueue::new(PrioritizationStrategy::GasPriceOnly)
}

fn limited(limit: usize) -> TransactionQueue {
    TransactionQueue::with_limits(
        PrioritizationStrategy::GasPriceOnly,
        limit,
        U256::max_value(),
        U256::max_value(),
    )
}

fn external(q: &mut TransactionQueue, t: SignedTransaction) -> Result<TransactionImportResult, Error> {
    q.add(t, TransactionOrigin::External, &at_ten, &no_gas)
}

fn own(q: &mut TransactionQueue, t: SignedTransaction) -> Result<TransactionImportResult, Error> {
    q.add(t, TransactionOrigin::Local, &at_ten, &no_gas)
}

fn counts(q: &TransactionQueue) -> (usize, usize) {
    let status = q.status();
    (status.pending, status.future)
}

fn hashes(list: Vec<SignedTransaction>) -> Vec<H256> {
    list.iter().map(|t| t.hash).collect()
}

fn status_of(q: &TransactionQueue, hash: H256) -> Option<LocalTransactionStatus> {
    q.local_transactions().get(&(hash.hi, hash.lo)).copied()
}

#[test]
fn usage_example() {
    let account = |_a: &Address| AccountDetails { nonce: u(10), balance: u(1_000_000) };
    let two = |_t: &SignedTransaction| u(2);
    let mut t1 = tx(1, 10, 1);
    t1.gas = u(100_000);
    t1.value = u(100);
    let mut t2 = tx(1, 11, 1);
    t2.gas = u(100_000);
    t2.value = u(100);
    let mut q = TransactionQueue::default();
    q.add(t2, TransactionOrigin::External, &account, &two).unwrap();
    q.add(t1, TransactionOrigin::External, &account, &two).unwrap();
    assert_eq!(q.status().pending, 2);
    let top = q.top_transactions();
    assert_eq!(top.len(), 2);
    assert_eq!(top[0], t1);
    assert_eq!(top[1], t2);
    q.remove_invalid(&t1.hash, &account);
    assert_eq!(q.status().pending, 0);
    assert_eq!(q.status().future, 1);
    assert_eq!(q.top_transactions().len(), 0);
}

#[test]
fn equal_price_does_not_replace() {
    let mut q = queue();
    let first = tx(1, 10, 5);
    let mut second = tx(1, 10, 5);
    second.hash = H256 { hi: 9, lo: 9 };
    external(&mut q, first).unwrap();
    assert_eq!(
        external(&mut q, second).unwrap_err(),
        Error::Transaction(TransactionError::TooCheapToReplace)
    );
    assert_eq!(hashes(q.top_transactions()), vec![first.hash]);
    assert_eq!(q.find(&second.hash), None);
    let third = tx(1, 10, 6);
    assert_eq!(external(&mut q, third).unwrap(), TransactionImportResult::Current);
    assert_eq!(hashes(q.top_transactions()), vec![third.hash]);
    assert_eq!(q.find(&first.hash), None);
}

#[test]
fn equal_price_does_not_replace_in_future() {
    let mut q = queue();
    let first = tx(1, 12, 5);
    let mut second = first;
    second.hash = H256 { hi: 9, lo: 9 };
    assert_eq!(external(&mut q, first).unwrap(), TransactionImportResult::Future);
    assert_eq!(
        external(&mut q, second).unwrap_err(),
        Error::Transaction(TransactionError::TooCheapToReplace)
    );
    assert_eq!(hashes(q.future_transactions()), vec![first.hash]);
}

#[test]
fn known_transaction_is_ignored() {
    let mut q = queue();
    external(&mut q, tx(1, 10, 1)).unwrap();
    assert_eq!(
        external(&mut q, tx(1, 10, 1)).unwrap_err(),
        Error::Transaction(TransactionError::AlreadyImported)
    );
    assert_eq!(counts(&q), (1, 0));
}

#[test]
fn old_transaction_is_refused() {
    let mut q = queue();
    assert_eq!(
        external(&mut q, tx(1, 9, 1)).unwrap_err(),
        Error::Transaction(TransactionError::Old)
    );
    assert_eq!(counts(&q), (0, 0));
}

#[test]
fn signature_is_checked() {
    let mut q = queue();
    let mut high = tx(1, 10, 1);
    high.low_s = false;
    assert_eq!(external(&mut q, high).unwrap_err(), Error::HighSignature);
    let mut nobody = tx(2, 10, 1);
    nobody.signer = None;
    assert_eq!(own(&mut q, nobody).unwrap_err(), Error::NoSender);
    assert_eq!(counts(&q), (0, 0));
    assert_eq!(status_of(&q, high.hash), None);
    assert_eq!(status_of(&q, nobody.hash), Some(LocalTransactionStatus::Invalid(nobody)));
}

#[test]
fn price_gas_and_balance_are_checked() {
    let mut q = queue();
    q.set_minimal_gas_price(u(4));
    assert_eq!(
        external(&mut q, tx(1, 10, 3)).unwrap_err(),
        Error::Transaction(TransactionError::InsufficientGasPrice { minimal: u(4), got: u(3) })
    );
    assert_eq!(own(&mut q, tx(1, 10, 3)).unwrap(), TransactionImportResult::Current);
    q.set_gas_limit(u(900));
    assert_eq!(
        external(&mut q, tx(2, 10, 5)).unwrap_err(),
        Error::Transaction(TransactionError::GasLimitExceeded { limit: u(990), got: u(1000) })
    );
    q.set_gas_limit(u(910));
    assert_eq!(external(&mut q, tx(2, 10, 5)).unwrap(), TransactionImportResult::Current);
    let much = |_t: &SignedTransaction| u(1001);
    assert_eq!(
        q.add(tx(3, 10, 5), TransactionOrigin::External, &at_ten, &much).unwrap_err(),
        Error::Transaction(TransactionError::InsufficientGas { minimal: u(1001), got: u(1000) })
    );
    let poor = |_a: &Address| AccountDetails { nonce: u(10), balance: u(5004) };
    assert_eq!(
        q.add(tx(3, 10, 5), TransactionOrigin::External, &poor, &no_gas).unwrap_err(),
        Error::Transaction(TransactionError::InsufficientBalance { cost: u(5005), balance: u(5004) })
    );
    let able = |_a: &Address| AccountDetails { nonce: u(10), balance: u(5005) };
    assert!(q.add(tx(3, 10, 5), TransactionOrigin::External, &able, &no_gas).is_ok());
}

#[test]
fn gas_limit_is_capped() {
    let mut q = queue();
    q.set_gas_limit(U256::max_value());
    assert_eq!(q.gas_limit, U256::max_value());
    q.set_gas_limit(u(105));
    assert_eq!(q.gas_limit, u(115));
}

#[test]
fn full_queue_asks_for_more_than_its_lowest_price() {
    let mut q = limited(2);
    external(&mut q, tx(1, 10, 7)).unwrap();
    assert_eq!(q.effective_minimum_gas_price(), u(0));
    external(&mut q, tx(2, 10, 5)).unwrap();
    assert_eq!(q.effective_minimum_gas_price(), u(6));
    assert_eq!(
        external(&mut q, tx(3, 10, 5)).unwrap_err(),
        Error::Transaction(TransactionError::InsufficientGasPrice { minimal: u(6), got: u(5) })
    );
    assert_eq!(external(&mut q, tx(3, 10, 6)).unwrap(), TransactionImportResult::Current);
    assert_eq!(hashes(q.top_transactions()), vec![tx(1, 10, 7).hash, tx(3, 10, 6).hash]);
    assert_eq!(q.find(&tx(2, 10, 5).hash), None);
}

#[test]
fn limit_drops_the_lowest_priority() {
    let mut q = limited(1);
    external(&mut q, tx(1, 10, 1)).unwrap();
    assert_eq!(
        external(&mut q, tx(1, 11, 50)).unwrap_err(),
        Error::Transaction(TransactionError::LimitReached)
    );
    assert_eq!(hashes(q.top_transactions()), vec![tx(1, 10, 1).hash]);
    assert_eq!(q.last_nonce(&address(1)), Some(u(10)));
}

#[test]
fn limit_on_future_is_reached() {
    let mut q = limited(1);
    assert_eq!(external(&mut q, tx(1, 12, 1)).unwrap(), TransactionImportResult::Future);
    assert_eq!(
        external(&mut q, tx(1, 13, 1)).unwrap_err(),
        Error::Transaction(TransactionError::LimitReached)
    );
    assert_eq!(counts(&q), (0, 1));
}

#[test]
fn limits_spare_own_transactions() {
    let mut q = limited(3);
    own(&mut q, tx(1, 10, 1)).unwrap();
    own(&mut q, tx(1, 11, 1)).unwrap();
    q.add(tx(2, 10, 1), TransactionOrigin::RetractedBlock, &at_ten, &no_gas).unwrap();
    q.set_limit(0);
    assert_eq!(q.limit(), 0);
    assert_eq!(counts(&q), (3, 0));
    external(&mut q, tx(3, 10, 9)).unwrap_err();
    assert_eq!(counts(&q), (3, 0));
}

#[test]
fn smaller_limit_drops_at_once() {
    let mut q = limited(5);
    for sender in 1..5 {
        external(&mut q, tx(sender, 10, sender as u64)).unwrap();
    }
    q.set_limit(2);
    assert_eq!(hashes(q.top_transactions()), vec![tx(4, 10, 4).hash, tx(3, 10, 3).hash]);
    assert_eq!(q.find(&tx(1, 10, 1).hash), None);
}

#[test]
fn total_gas_limit_drops_from_future() {
    let mut q = queue();
    external(&mut q, tx(1, 12, 1)).unwrap();
    external(&mut q, tx(2, 13, 1)).unwrap();
    external(&mut q, tx(3, 10, 1)).unwrap();
    q.set_total_gas_limit(u(1999));
    assert_eq!(counts(&q), (1, 1));
    assert_eq!(hashes(q.future_transactions()), vec![tx(1, 12, 1).hash]);
}

#[test]
fn importing_own_makes_all_of_the_sender_local() {
    let mut q = limited(2);
    external(&mut q, tx(1, 10, 1)).unwrap();
    external(&mut q, tx(1, 12, 1)).unwrap();
    assert!(!q.has_local_pending_transactions());
    assert_eq!(own(&mut q, tx(1, 11, 1)).unwrap(), TransactionImportResult::Current);
    assert!(q.has_local_pending_transactions());
    assert_eq!(counts(&q), (3, 0));
    for nonce in 10..13 {
        assert_eq!(status_of(&q, tx(1, nonce, 1).hash), Some(LocalTransactionStatus::Pending));
    }
    q.set_limit(0);
    assert_eq!(counts(&q), (3, 0));
}

#[test]
fn statuses_follow_local_transactions() {
    let mut q = queue();
    let waiting = tx(1, 11, 1);
    assert_eq!(own(&mut q, waiting).unwrap(), TransactionImportResult::Future);
    assert_eq!(status_of(&q, waiting.hash), Some(LocalTransactionStatus::Future));
    let first = tx(1, 10, 1);
    own(&mut q, first).unwrap();
    assert_eq!(status_of(&q, waiting.hash), Some(LocalTransactionStatus::Pending));
    let better = tx(1, 10, 2);
    own(&mut q, better).unwrap();
    assert_eq!(
        status_of(&q, first.hash),
        Some(LocalTransactionStatus::Replaced(first, u(2), better.hash))
    );
    let worse = tx(1, 9, 1);
    own(&mut q, worse).unwrap_err();
    assert_eq!(
        status_of(&q, worse.hash),
        Some(LocalTransactionStatus::Rejected(worse, TransactionError::Old))
    );
    q.remove_all(address(1), u(11));
    assert_eq!(status_of(&q, better.hash), Some(LocalTransactionStatus::Mined(better)));
    q.remove_invalid(&waiting.hash, &at_ten);
    assert_eq!(status_of(&q, waiting.hash), Some(LocalTransactionStatus::Invalid(waiting)));
    assert_eq!(q.local_transactions().len(), 4);
    q.clear();
    assert_eq!(counts(&q), (0, 0));
}

#[test]
fn statuses_are_listed_in_the_order_of_their_last_change() {
    let mut q = queue();
    own(&mut q, tx(1, 10, 1)).unwrap();
    own(&mut q, tx(2, 10, 1)).unwrap();
    own(&mut q, tx(1, 10, 2)).unwrap();
    let order: Vec<(u128, u128)> = q.local_transactions().keys().copied().collect();
    let expected: Vec<(u128, u128)> = [tx(2, 10, 1), tx(1, 10, 1), tx(1, 10, 2)]
        .iter()
        .map(|t| (t.hash.hi, t.hash.lo))
        .collect();
    assert_eq!(order, expected);
}

fn listed(q: &TransactionQueue) -> Vec<(u128, u128)> {
    q.local_transactions().keys().copied().collect()
}

fn words(list: &[SignedTransaction]) -> Vec<(u128, u128)> {
    list.iter().map(|t| (t.hash.hi, t.hash.lo)).collect()
}

#[test]
fn list_keeps_its_order_where_nothing_is_marked() {
    let mut q = queue();
    own(&mut q, tx(1, 10, 1)).unwrap();
    own(&mut q, tx(2, 10, 1)).unwrap();
    own(&mut q, tx(1, 11, 1)).unwrap();
    let order = words(&[tx(1, 10, 1), tx(2, 10, 1), tx(1, 11, 1)]);
    assert_eq!(listed(&q), order);
    external(&mut q, tx(1, 9, 1)).unwrap_err();
    external(&mut q, tx(3, 10, 1)).unwrap();
    q.remove_invalid(&tx(4, 10, 1).hash, &at_ten);
    q.remove_all(address(1), u(10));
    q.penalize(&tx(3, 10, 1).hash);
    q.set_limit(1);
    q.set_total_gas_limit(u(1));
    q.clear();
    assert_eq!(listed(&q), order);
}

#[test]
fn marked_transactions_follow_the_others() {
    let mut q = queue();
    for sender in 1..4 {
        own(&mut q, tx(sender, 10, 1)).unwrap();
    }
    q.remove_invalid(&tx(1, 10, 1).hash, &at_ten);
    assert_eq!(listed(&q), words(&[tx(2, 10, 1), tx(3, 10, 1), tx(1, 10, 1)]));
    q.remove_all(address(2), u(11));
    assert_eq!(listed(&q), words(&[tx(3, 10, 1), tx(1, 10, 1), tx(2, 10, 1)]));
}

#[test]
fn limits_enforced_twice() {
    let mut q = limited(5);
    for sender in 1..6 {
        external(&mut q, tx(sender, 10, sender as u64)).unwrap();
    }
    q.set_limit(3);
    let before = hashes(q.top_transactions());
    assert_eq!(before.len(), 3);
    q.set_limit(3);
    assert_eq!(hashes(q.top_transactions()), before);
}

#[test]
fn rejected_again_keeps_its_status() {
    let mut q = queue();
    own(&mut q, tx(1, 10, 1)).unwrap();
    own(&mut q, tx(1, 10, 1)).unwrap_err();
    assert_eq!(status_of(&q, tx(1, 10, 1).hash), Some(LocalTransactionStatus::Pending));
}

#[test]
fn state_nonce_sorts_anew() {
    let mut q = queue();
    for nonce in [10, 11, 12, 14] {
        external(&mut q, tx(1, nonce, 1)).unwrap();
    }
    external(&mut q, tx(2, 10, 1)).unwrap();
    assert_eq!(counts(&q), (4, 1));
    q.remove_all(address(1), u(12));
    assert_eq!(counts(&q), (2, 1));
    assert_eq!(q.last_nonce(&address(1)), Some(u(12)));
    q.remove_all(address(1), u(14));
    assert_eq!(counts(&q), (2, 0));
    assert_eq!(q.last_nonce(&address(1)), Some(u(14)));
    q.remove_all(address(1), u(15));
    assert_eq!(counts(&q), (1, 0));
    assert_eq!(q.last_nonce(&address(1)), None);
}

#[test]
fn state_nonces_of_all_senders() {
    let mut q = queue();
    for sender in 1..4 {
        for nonce in [10, 11, 13] {
            external(&mut q, tx(sender, nonce, 1)).unwrap();
        }
    }
    assert_eq!(counts(&q), (6, 3));
    q.remove_old(|a: &Address| u(10 + a.hi as u64));
    assert_eq!(counts(&q), (2, 2));
    assert_eq!(hashes(q.top_transactions()), vec![tx(1, 11, 1).hash, tx(3, 13, 1).hash]);
}

#[test]
fn removing_a_pending_one_leaves_a_gap() {
    let mut q = queue();
    for nonce in [10, 11, 12] {
        external(&mut q, tx(1, nonce, 1)).unwrap();
    }
    q.remove_invalid(&tx(1, 11, 1).hash, &at_ten);
    assert_eq!(hashes(q.top_transactions()), vec![tx(1, 10, 1).hash]);
    assert_eq!(hashes(q.future_transactions()), vec![tx(1, 12, 1).hash]);
    assert_eq!(q.find(&tx(1, 11, 1).hash), None);
    q.remove_invalid(&tx(1, 11, 1).hash, &at_ten);
    assert_eq!(counts(&q), (1, 1));
}

#[test]
fn last_possible_nonce() {
    let mut q = queue();
    let mut last = tx(1, 0, 1);
    last.nonce = U256::max_value();
    let done = |_a: &Address| AccountDetails { nonce: U256::max_value(), balance: U256::max_value() };
    assert_eq!(
        q.add(last, TransactionOrigin::External, &done, &no_gas).unwrap(),
        TransactionImportResult::Current
    );
    assert_eq!(q.last_nonce(&address(1)), Some(U256::max_value()));
    let mut again = tx(1, 0, 2);
    again.nonce = U256::max_value();
    assert_eq!(
        q.add(again, TransactionOrigin::External, &done, &no_gas).unwrap(),
        TransactionImportResult::Current
    );
    assert_eq!(hashes(q.top_transactions()), vec![again.hash]);
}

#[test]
fn penalties_rank_after_everyone_else() {
    let mut q = queue();
    external(&mut q, tx(1, 10, 20)).unwrap();
    external(&mut q, tx(1, 11, 20)).unwrap();
    external(&mut q, tx(2, 10, 1)).unwrap();
    q.penalize(&tx(1, 10, 20).hash);
    assert_eq!(
        q.pending_hashes(),
        vec![tx(2, 10, 1).hash, tx(1, 10, 20).hash, tx(1, 11, 20).hash]
    );
    assert_eq!(counts(&q), (3, 0));
}

#[test]
fn gas_factor_is_taken_off_the_price() {
    let order = |gas: u64, gas_price: u64, min: u64| {
        let mut t = tx(1, 10, gas_price);
        t.gas = u(gas);
        TransactionOrder::for_transaction(
            &VerifiedTransaction { transaction: t, origin: TransactionOrigin::External },
            u(10),
            u(min),
            PrioritizationStrategy::GasFactorAndGasPrice,
        )
    };
    // (1M / 2^15) * 7 = 210
    let heavy = order(1_000_000, 210, 7);
    assert_eq!(heavy.gas_factor, u(210));
    let light = order(32_768, 7, 7);
    assert_eq!(light.gas_factor, u(7));
    // Once the factors are taken off nothing is left of either, so the price decides.
    assert!(heavy < light);
    assert!(order(1_000_000, 209, 7) > light);
}

#[test]
fn prices_are_kept_sorted() {
    let mut prices = GasPriceQueue::default();
    let h = |lo: u128| H256 { hi: 0, lo };
    assert!(prices.insert(u(5), h(1)));
    assert!(prices.insert(u(3), h(2)));
    assert!(prices.insert(u(3), h(3)));
    assert!(!prices.insert(u(3), h(3)));
    assert_eq!(prices.lowest(), Some(u(3)));
    assert!(prices.remove(&u(3), &h(2)));
    assert!(!prices.remove(&u(3), &h(2)));
    assert_eq!(prices.lowest(), Some(u(3)));
    assert!(prices.remove(&u(3), &h(3)));
    assert_eq!(prices.lowest(), Some(u(5)));
}

#[test]
fn gas_that_leaves_the_range_is_above_the_limit() {
    let mut q = TransactionQueue::with_limits(
        PrioritizationStrategy::GasPriceOnly,
        10,
        U256::max_value(),
        U256::max_value(),
    );
    external(&mut q, tx(1, 10, 9)).unwrap();
    let mut huge = tx(2, 10, 0);
    huge.gas = U256::max_value();
    assert_eq!(
        external(&mut q, huge).unwrap_err(),
        Error::Transaction(TransactionError::LimitReached)
    );
    assert_eq!(counts(&q), (1, 0));
}

#[test]
fn limit_holds_for_huge_gas() {
    let mut q = limited(2);
    let huge = |sender: u32| {
        let mut t = tx(sender, 10, 0);
        t.gas = U256::max_value();
        t
    };
    q.add(huge(1), TransactionOrigin::External, &at_ten, &no_gas).unwrap();
    q.add(huge(2), TransactionOrigin::External, &at_ten, &no_gas).unwrap_err();
    assert_eq!(counts(&q), (1, 0));
    q.set_limit(1);
    assert_eq!(hashes(q.top_transactions()), vec![huge(1).hash]);
}

#[test]
fn import_revalidates_what_is_pending() {
    let mut q = queue();
    external(&mut q, tx(1, 10, 1)).unwrap();
    external(&mut q, tx(1, 11, 1)).unwrap();
    let later = |_a: &Address| AccountDetails { nonce: u(11), balance: U256::max_value() };
    assert_eq!(
        q.add(tx(1, 12, 5), TransactionOrigin::External, &later, &no_gas).unwrap(),
        TransactionImportResult::Current
    );
    assert_eq!(hashes(q.top_transactions()), vec![tx(1, 11, 1).hash, tx(1, 12, 5).hash]);
    assert_eq!(q.find(&tx(1, 10, 1).hash), None);
    assert_eq!(q.last_nonce(&address(1)), Some(u(12)));
}

#[test]
fn import_at_an_earlier_state_leaves_a_gap() {
    let mut q = queue();
    external(&mut q, tx(1, 10, 1)).unwrap();
    external(&mut q, tx(1, 11, 1)).unwrap();
    let eight = |_a: &Address| AccountDetails { nonce: u(8), balance: U256::max_value() };
    assert_eq!(
        q.add(tx(1, 8, 1), TransactionOrigin::External, &eight, &no_gas).unwrap(),
        TransactionImportResult::Current
    );
    assert_eq!(counts(&q), (1, 2));
    assert_eq!(
        q.add(tx(1, 9, 1), TransactionOrigin::External, &eight, &no_gas).unwrap(),
        TransactionImportResult::Current
    );
    assert_eq!(counts(&q), (4, 0));
}

#[test]
fn last_nonce_follows_limits() {
    let mut q = limited(2);
    external(&mut q, tx(1, 10, 1)).unwrap();
    external(&mut q, tx(1, 11, 1)).unwrap();
    q.set_limit(1);
    assert_eq!(q.last_nonce(&address(1)), Some(u(10)));
    external(&mut q, tx(2, 10, 9)).unwrap();
    assert_eq!(q.last_nonce(&address(1)), None);
    assert_eq!(q.last_nonce(&address(2)), Some(u(10)));
}

#[test]
fn what_became_local_is_not_penalized() {
    let mut q = queue();
    external(&mut q, tx(1, 10, 10)).unwrap();
    own(&mut q, tx(1, 11, 10)).unwrap();
    external(&mut q, tx(2, 10, 1)).unwrap();
    let before = q.pending_hashes();
    assert_eq!(before, vec![tx(1, 10, 10).hash, tx(1, 11, 10).hash, tx(2, 10, 1).hash]);
    q.penalize(&tx(1, 10, 10).hash);
    assert_eq!(q.pending_hashes(), before);
}

#[test]
fn told_twice_changes_nothing() {
    let mut q = queue();
    for nonce in [10, 11, 13] {
        external(&mut q, tx(1, nonce, 1)).unwrap();
    }
    q.remove_all(address(1), u(11));
    let before = (hashes(q.top_transactions()), hashes(q.future_transactions()));
    q.remove_all(address(1), u(11));
    assert_eq!((hashes(q.top_transactions()), hashes(q.future_transactions())), before);
}

#[test]
fn total_gas_drops_external_transactions() {
    let mut q = TransactionQueue::with_limits(
        PrioritizationStrategy::GasPriceOnly,
        10,
        u(1999),
        U256::max_value(),
    );
    external(&mut q, tx(1, 10, 9)).unwrap();
    assert_eq!(
        external(&mut q, tx(2, 10, 1)).unwrap_err(),
        Error::Transaction(TransactionError::LimitReached)
    );
    assert_eq!(external(&mut q, tx(3, 10, 10)).unwrap(), TransactionImportResult::Current);
    assert_eq!(hashes(q.top_transactions()), vec![tx(3, 10, 10).hash]);
}

#[test]
fn import_takes_along_what_waited() {
    let mut q = queue();
    for nonce in [11, 12, 14] {
        assert_eq!(external(&mut q, tx(1, nonce, 1)).unwrap(), TransactionImportResult::Future);
    }
    assert_eq!(external(&mut q, tx(1, 10, 1)).unwrap(), TransactionImportResult::Current);
    assert_eq!(counts(&q), (3, 1));
    assert_eq!(q.last_nonce(&address(1)), Some(u(12)));
}

#[test]
fn import_drops_what_is_old_in_future() {
    let mut q = queue();
    external(&mut q, tx(1, 12, 1)).unwrap();
    external(&mut q, tx(1, 15, 1)).unwrap();
    let later = |_a: &Address| AccountDetails { nonce: u(13), balance: U256::max_value() };
    assert_eq!(
        q.add(tx(1, 14, 1), TransactionOrigin::External, &later, &no_gas).unwrap(),
        TransactionImportResult::Future
    );
    assert_eq!(q.find(&tx(1, 12, 1).hash), None);
    assert_eq!(hashes(q.future_transactions()), vec![tx(1, 14, 1).hash, tx(1, 15, 1).hash]);
}

#[test]
fn added_transaction_is_the_latest_of_the_list() {
    let mut q = queue();
    own(&mut q, tx(2, 10, 1)).unwrap();
    own(&mut q, tx(1, 13, 4)).unwrap();
    own(&mut q, tx(1, 12, 3)).unwrap();
    own(&mut q, tx(1, 11, 2)).unwrap();
    assert_eq!(listed(&q), words(&[tx(2, 10, 1), tx(1, 13, 4), tx(1, 12, 3), tx(1, 11, 2)]));
    // What waited is marked by rising nonce, and the new one after that.
    own(&mut q, tx(1, 10, 1)).unwrap();
    assert_eq!(
        listed(&q),
        words(&[tx(2, 10, 1), tx(1, 11, 2), tx(1, 12, 3), tx(1, 13, 4), tx(1, 10, 1)])
    );
    let mut unsigned = tx(4, 10, 1);
    unsigned.signer = None;
    own(&mut q, unsigned).unwrap_err();
    assert_eq!(listed(&q).last(), Some(&(unsigned.hash.hi, unsigned.hash.lo)));
}

#[test]
fn replaced_transaction_is_listed_before_the_new_one() {
    let mut q = queue();
    own(&mut q, tx(1, 10, 1)).unwrap();
    own(&mut q, tx(2, 10, 1)).unwrap();
    own(&mut q, tx(1, 10, 5)).unwrap();
    assert_eq!(listed(&q), words(&[tx(2, 10, 1), tx(1, 10, 1), tx(1, 10, 5)]));
}

#[test]
fn invalid_transaction_is_listed_before_those_that_move() {
    let mut q = queue();
    own(&mut q, tx(1, 10, 1)).unwrap();
    own(&mut q, tx(1, 11, 2)).unwrap();
    own(&mut q, tx(2, 10, 1)).unwrap();
    q.remove_invalid(&tx(1, 10, 1).hash, &at_ten);
    assert_eq!(listed(&q), words(&[tx(2, 10, 1), tx(1, 10, 1), tx(1, 11, 2)]));
}

#[test]
fn queue_shows_what_an_import_told() {
    let mut q = queue();
    let pending = tx(1, 10, 5);
    let waiting = tx(1, 12, 5);
    let cheap = tx(1, 10, 4);
    let old = tx(1, 9, 9);
    let import = |q: &mut TransactionQueue, t: SignedTransaction| {
        q.import_tx(VerifiedTransaction { transaction: t, origin: TransactionOrigin::External }, u(10))
    };
    assert_eq!(import(&mut q, pending), Ok(TransactionImportResult::Current));
    assert!(q.pending_hashes().contains(&pending.hash));
    assert_eq!(q.find(&pending.hash), Some(pending));
    assert_eq!(import(&mut q, waiting), Ok(TransactionImportResult::Future));
    assert!(!q.pending_hashes().contains(&waiting.hash));
    assert_eq!(q.find(&waiting.hash), Some(waiting));
    assert_eq!(import(&mut q, cheap), Err(TransactionError::TooCheapToReplace));
    assert_eq!(q.find(&cheap.hash), None);
    assert_eq!(import(&mut q, old), Err(TransactionError::Old));
    assert_eq!(q.find(&old.hash), None);
    assert_eq!(import(&mut q, pending), Err(TransactionError::AlreadyImported));
    assert_eq!(q.find(&pending.hash), Some(pending));
}

#[test]
fn penalties_spare_other_senders() {
    let mut q = queue();
    for t in [tx(1, 10, 20), tx(1, 11, 15), tx(2, 10, 30), tx(3, 10, 10), tx(3, 11, 5)] {
        external(&mut q, t).unwrap();
    }
    let before = q.pending_hashes();
    q.penalize(&tx(1, 10, 20).hash);
    let after = q.pending_hashes();
    let others = |l: &Vec<H256>| -> Vec<H256> { l.iter().copied().filter(|h| h.hi != 1).collect() };
    assert_eq!(others(&before), others(&after));
    let at = |l: &Vec<H256>, h: &H256| l.iter().position(|x| x == h).unwrap();
    for j in before.iter().filter(|h| h.hi == 1) {
        for k in before.iter().filter(|h| h.hi != 1) {
            assert!(at(&after, j) > at(&after, k) || at(&before, j) < at(&before, k));
        }
    }
    assert_eq!(after[0], tx(2, 10, 30).hash);
    assert!(at(&after, &tx(1, 10, 20).hash) > at(&after, &tx(3, 10, 10).hash));
}
