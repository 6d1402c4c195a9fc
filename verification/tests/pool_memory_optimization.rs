//! Tests for memory-bounded eviction in the transaction pool.

use blocana::crypto::KeyPair;
use blocana::state::BlockchainState;
use blocana::transaction::pool::{TransactionPool, TransactionPoolConfig};
use blocana::transaction::Transaction;

fn set_balance(state: &mut BlockchainState, address: &[u8; 32], balance: u64) {
    let mut account = state.get_account_state(address);
    account.balance = balance;
    state.set_account_state(address, account);
}

fn set_nonce(state: &mut BlockchainState, address: &[u8; 32], nonce: u64) {
    let mut account = state.get_account_state(address);
    account.nonce = nonce;
    state.set_account_state(address, account);
}

fn create_sized_transaction(
    sender: &KeyPair,
    recipient: [u8; 32],
    size: usize,
    nonce: u64,
) -> Transaction {
    let base_size = 161;
    let data_size = if size > base_size { size - base_size } else { 0 };

    let mut tx = Transaction::new(
        sender.public_key,
        recipient,
        100,
        50,
        nonce,
        vec![0u8; data_size],
    );
    tx.sign(&sender.private_key).unwrap();

    let actual_size = tx.estimate_size();
    assert!(
        actual_size >= size - 10 && actual_size <= size + 10,
        "Transaction size estimation inaccurate. Target: {}, Actual: {}",
        size,
        actual_size
    );
    tx
}

#[test]
fn test_automatic_memory_optimization() {
    let config = TransactionPoolConfig {
        max_memory: 10000,
        max_size: 1000,
        min_fee_per_byte: 0,
        ..Default::default()
    };

    let max_memory = config.max_memory;
    let mut pool = TransactionPool::with_config(config);
    let mut state = BlockchainState::new();

    let sender = KeyPair::generate().unwrap();
    let recipient = [1u8; 32];

    set_balance(&mut state, &sender.public_key, 100000);

    let tx_size = 500;
    let max_transactions = 10;

    assert!(pool.memory_usage() < 100, "Initial memory usage should be minimal");

    for i in 0..max_transactions {
        let tx = create_sized_transaction(&sender, recipient, tx_size, i);
        set_nonce(&mut state, &sender.public_key, i);
        pool.add_transaction(tx, &state).unwrap();
        assert!(
            pool.memory_usage() > (i as usize + 1) * (tx_size / 2),
            "Memory usage not increasing properly: {}",
            pool.memory_usage()
        );
    }

    let initial_count = pool.len();
    assert!(initial_count > 5, "Pool should contain a reasonable number of transactions");

    let extra_tx = create_sized_transaction(&sender, recipient, tx_size, max_transactions);
    set_nonce(&mut state, &sender.public_key, max_transactions);

    pool.add_transaction(extra_tx, &state).unwrap();

    assert!(
        pool.len() < (max_transactions as usize) + 1,
        "Pool should have evicted some transactions"
    );
    assert!(
        pool.memory_usage() <= max_memory,
        "Memory usage exceeds limit: {}/{}",
        pool.memory_usage(),
        max_memory
    );
}

#[test]
fn test_explicit_memory_optimization() {
    let config = TransactionPoolConfig {
        max_memory: 10000,
        min_fee_per_byte: 0,
        ..Default::default()
    };

    let max_memory = config.max_memory;
    let mut pool = TransactionPool::with_config(config);
    let mut state = BlockchainState::new();

    let sender = KeyPair::generate().unwrap();
    let recipient = [1u8; 32];

    set_balance(&mut state, &sender.public_key, 100000);

    let mut added_count = 0;
    for i in 0..15 {
        let tx = create_sized_transaction(&sender, recipient, 800, i);
        set_nonce(&mut state, &sender.public_key, i);
        match pool.add_transaction(tx, &state) {
            Ok(_) => added_count += 1,
            Err(e) => {
                println!("Stopped adding at transaction {}: {}", i, e.message());
                break;
            },
        }
    }

    assert!(added_count > 0, "Should have been able to add some transactions");

    let initial_count = pool.len();
    let initial_memory = pool.memory_usage();
    println!("Before optimization: {} transactions, {} bytes", initial_count, initial_memory);

    let removed = pool.optimize_memory();
    println!("Optimization removed {} transactions", removed);

    if initial_memory > (max_memory * 9 / 10) {
        assert!(removed > 0, "Should have removed some transactions");
        assert!(pool.len() < initial_count, "Transaction count should have decreased");
        assert!(pool.memory_usage() < initial_memory, "Memory usage should have decreased");
    }
    assert!(
        pool.memory_usage() <= (max_memory * 8 / 10),
        "Memory usage should be under target after optimization"
    );
}

#[test]
fn test_maintenance_functionality() {
    let config = TransactionPoolConfig {
        min_fee_per_byte: 0,
        ..Default::default()
    };
    let mut pool = TransactionPool::with_config(config);
    let mut state = BlockchainState::new();

    let sender = KeyPair::generate().unwrap();
    let recipient = [1u8; 32];

    set_balance(&mut state, &sender.public_key, 100000);

    for i in 0..10 {
        let tx = create_sized_transaction(&sender, recipient, 200, i);
        set_nonce(&mut state, &sender.public_key, i);
        pool.add_transaction(tx, &state).unwrap();
    }

    assert_eq!(pool.len(), 10, "Should have 10 transactions initially");

    let all_txs: Vec<[u8; 32]> = pool.get_all_transactions().iter().map(|tx| tx.hash()).collect();
    for hash in all_txs.iter().take(3) {
        pool.remove_transaction(hash);
    }

    assert_eq!(pool.len(), 7, "Should have 7 transactions after removal");

    pool.perform_maintenance();

    let new_tx = create_sized_transaction(&sender, recipient, 200, 10);
    set_nonce(&mut state, &sender.public_key, 10);
    pool.add_transaction(new_tx, &state).unwrap();

    assert_eq!(pool.len(), 8, "Should have 8 transactions after maintenance and addition");

    let selected = pool.select_transactions_for_test(8);
    assert_eq!(selected.len(), 8, "Should select all valid transactions");
}
