//! Tests for the pool's metrics counters.

use blocana::crypto::KeyPair;
use blocana::metrics::{FeeRange, MetricsCollector, OperationType, SizeRange};
use blocana::state::BlockchainState;
use blocana::transaction::pool::{TransactionPool, TransactionPoolConfig};
use blocana::transaction::Transaction;

fn set_balance(state: &mut BlockchainState, address: &[u8; 32], balance: u64) {
    let mut account = state.get_account_state(address);
    account.balance = balance;
    state.set_account_state(address, account);
}

fn set_nonce(state: &mut BlockchainState, address: &[u8; 32], nonce: u64) {
    let mut account = state.get_account_state(address);
    account.nonce = nonce;
    state.set_account_state(address, account);
}

fn create_test_transaction(
    sender_keypair: &KeyPair,
    recipient: [u8; 32],
    amount: u64,
    fee: u64,
    nonce: u64,
    data_size: usize,
) -> Transaction {
    let mut tx = Transaction::new(
        sender_keypair.public_key,
        recipient,
        amount,
        fee,
        nonce,
        vec![0u8; data_size],
    );
    tx.sign(&sender_keypair.private_key).unwrap();
    tx
}

#[test]
fn test_metrics_basic_recording() {
    let config = TransactionPoolConfig {
        min_fee_per_byte: 0,
        ..Default::default()
    };
    let mut pool = TransactionPool::with_config(config);
    let mut state = BlockchainState::new();

    let sender = KeyPair::generate().unwrap();
    let recipient = [1u8; 32];

    set_balance(&mut state, &sender.public_key, 1000);

    let initial_metrics = pool.metrics().get_metrics();
    assert_eq!(initial_metrics.transactions_added, 0);

    let tx = create_test_transaction(&sender, recipient, 100, 10, 0, 50);
    pool.add_transaction(tx, &state).unwrap();

    let metrics = pool.metrics().get_metrics();
    assert_eq!(metrics.transactions_added, 1);

    let add_count = metrics.operation_timings.stat(OperationType::Add).count;
    assert_eq!(add_count, 1);

    assert!(metrics.peak_memory_usage > 0);
    assert_eq!(metrics.count_history.len(), 1);
    assert_eq!(metrics.count_history[0].1, 1);
}

#[test]
fn test_transaction_removal_metrics() {
    let config = TransactionPoolConfig {
        min_fee_per_byte: 0,
        ..Default::default()
    };
    let mut pool = TransactionPool::with_config(config);
    let mut state = BlockchainState::new();

    let sender = KeyPair::generate().unwrap();
    let recipient = [1u8; 32];

    set_balance(&mut state, &sender.public_key, 1000);

    let tx1 = create_test_transaction(&sender, recipient, 100, 10, 0, 50);
    let tx2 = create_test_transaction(&sender, recipient, 100, 10, 1, 50);

    set_nonce(&mut state, &sender.public_key, 0);
    let hash1 = pool.add_transaction(tx1, &state).unwrap();

    set_nonce(&mut state, &sender.public_key, 1);
    let _hash2 = pool.add_transaction(tx2, &state).unwrap();

    pool.remove_transaction(&hash1);

    let metrics = pool.metrics().get_metrics();
    assert_eq!(metrics.transactions_removed, 1);
    assert_eq!(metrics.transactions_added, 2);

    assert_eq!(pool.len(), 1);
    assert_eq!(metrics.count_history.last().unwrap().1, 1);
}

#[test]
fn test_fee_distribution_metrics() {
    let mut collector = MetricsCollector::new(10);

    // a fee rate of 2 per byte lands in the low bucket, 15 in the high one
    collector.record_transaction_fee(2, 400);
    collector.record_transaction_fee(15, 1200);

    let metrics = collector.get_metrics();
    assert_eq!(metrics.fee_distribution.get(FeeRange::Low), 1);
    assert_eq!(metrics.fee_distribution.get(FeeRange::High), 1);
    assert_eq!(metrics.fee_distribution.get(FeeRange::VeryLow), 0);
    assert_eq!(metrics.size_distribution.get(SizeRange::Small), 1);
    assert_eq!(metrics.size_distribution.get(SizeRange::Large), 1);
}

#[test]
fn test_memory_tracking() {
    let mut collector = MetricsCollector::new(10);

    collector.update_memory_usage(1000);
    collector.update_transaction_count(2);
    collector.update_memory_usage(2000);
    collector.update_transaction_count(1);

    let metrics = collector.get_metrics();
    assert_eq!(metrics.peak_memory_usage, 2000);
    assert_eq!(metrics.peak_transaction_count, 2);
    assert_eq!(metrics.memory_history.len(), 2);
    assert_eq!(metrics.memory_history[0].1, 1000);
    assert_eq!(metrics.memory_history[1].1, 2000);
    assert_eq!(metrics.count_history.len(), 2);
    assert_eq!(metrics.count_history[0].1, 2);
    assert_eq!(metrics.count_history[1].1, 1);
}

#[test]
fn test_metrics_collection() {
    let mut collector = MetricsCollector::new(10);

    collector.record_transaction_added(100, 50);
    collector.record_transaction_added(200, 80);
    collector.record_transaction_rejected();
    collector.record_transaction_removed();
    collector.record_transactions_expired(5);

    let metrics = collector.get_metrics();
    assert_eq!(metrics.transactions_added, 2);
    assert_eq!(metrics.transactions_rejected, 1);
    assert_eq!(metrics.transactions_removed, 1);
    assert_eq!(metrics.transactions_expired, 5);
    assert_eq!(metrics.avg_processing_time_us, 150);
    assert_eq!(metrics.avg_validation_time_us, 65);

    collector.reset();
    let metrics = collector.get_metrics();
    assert_eq!(metrics.transactions_added, 0);
    assert_eq!(metrics.memory_history.len(), 0);
}

#[test]
fn test_metrics_disabled() {
    let mut collector = MetricsCollector::new(10);
    collector.set_enabled(false);
    collector.record_transaction_added(100, 50);
    collector.record_transaction_rejected();
    let metrics = collector.get_metrics();
    assert_eq!(metrics.transactions_added, 0);
    assert_eq!(metrics.transactions_rejected, 0);
}
