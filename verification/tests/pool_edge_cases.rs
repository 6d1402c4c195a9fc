//! Edge case tests for the transaction pool.

use blocana::crypto::KeyPair;
use blocana::state::BlockchainState;
use blocana::transaction::pool::{TransactionPool, TransactionPoolConfig};
use blocana::transaction::Transaction;

fn set_balance(state: &mut BlockchainState, address: &[u8; 32], balance: u64) {
    let mut account = state.get_account_state(address);
    account.balance = balance;
    state.set_account_state(address, account);
}

fn set_nonce(state: &mut BlockchainState, address: &[u8; 32], nonce: u64) {
    let mut account = state.get_account_state(address);
    account.nonce = nonce;
    state.set_account_state(address, account);
}

fn create_test_transaction(
    sender_keypair: &KeyPair,
    recipient: &[u8; 32],
    amount: u64,
    fee: u64,
    nonce: u64,
    data_size: usize,
) -> Transaction {
    let mut tx = Transaction::new(
        sender_keypair.public_key,
        *recipient,
        amount,
        fee,
        nonce,
        vec![0u8; data_size],
    );
    tx.sign(&sender_keypair.private_key).unwrap();
    tx
}

#[test]
fn test_memory_limit_enforcement() {
    let config = TransactionPoolConfig {
        max_memory: 2000,
        min_fee_per_byte: 0,
        ..Default::default()
    };
    let mut pool = TransactionPool::with_config(config);
    let mut state = BlockchainState::new();

    let sender = KeyPair::generate().unwrap();
    let recipient = [2u8; 32];

    set_balance(&mut state, &sender.public_key, 1000000);

    let small_tx = create_test_transaction(&sender, &recipient, 100, 200, 0, 10);
    let result = pool.add_transaction(small_tx.clone(), &state);
    assert!(result.is_ok());

    set_nonce(&mut state, &sender.public_key, 1);

    let large_tx = create_test_transaction(&sender, &recipient, 100, 200, 1, 1500);
    let result = pool.add_transaction(large_tx.clone(), &state);

    if result.is_ok() {
        assert!(!pool.get_all_transactions().iter().any(|tx| tx.hash() == small_tx.hash()));
        assert!(pool.get_all_transactions().iter().any(|tx| tx.hash() == large_tx.hash()));
    } else {
        let error_message = result.unwrap_err().message().to_lowercase();
        assert!(
            error_message.contains("memory"),
            "Error message '{}' doesn't contain 'memory'",
            error_message
        );
    }

    assert!(pool.len() <= 1);
}

#[test]
fn test_transaction_expiry() {
    let config = TransactionPoolConfig {
        expiry_time: 0,
        ..Default::default()
    };
    let mut pool = TransactionPool::with_config(config);
    let mut state = BlockchainState::new();

    let sender = KeyPair::generate().unwrap();
    let recipient = [2u8; 32];

    set_balance(&mut state, &sender.public_key, 10000);

    let mut tx_hashes = Vec::new();
    for i in 0..10 {
        let tx = create_test_transaction(&sender, &recipient, 100, 200, i, 10);
        let hash = pool.add_transaction(tx, &state).unwrap();
        tx_hashes.push(hash);
        set_nonce(&mut state, &sender.public_key, i + 1);
    }

    assert_eq!(pool.len(), 10);

    let removed = pool.remove_expired();
    assert_eq!(removed, 10);
    assert_eq!(pool.len(), 0);

    for hash in tx_hashes {
        assert!(!pool.get_all_transactions().iter().any(|tx| tx.hash() == hash));
    }
}

#[test]
fn test_fee_prioritization_identical_fees() {
    let config = TransactionPoolConfig {
        min_fee_per_byte: 0,
        ..Default::default()
    };

    let mut pool = TransactionPool::with_config(config.clone());
    let mut state = BlockchainState::new();

    let sender1 = KeyPair::generate().unwrap();
    let sender2 = KeyPair::generate().unwrap();
    let sender3 = KeyPair::generate().unwrap();
    let recipient = [2u8; 32];

    set_balance(&mut state, &sender1.public_key, 10000);
    set_balance(&mut state, &sender2.public_key, 10000);
    set_balance(&mut state, &sender3.public_key, 10000);

    let tx1 = create_test_transaction(&sender1, &recipient, 100, 200, 0, 50);
    let tx2 = create_test_transaction(&sender2, &recipient, 100, 200, 0, 50);
    let tx3 = create_test_transaction(&sender3, &recipient, 100, 200, 0, 50);

    let state2 = state.clone();

    pool.add_transaction(tx1.clone(), &state).unwrap();
    pool.add_transaction(tx2.clone(), &state).unwrap();
    pool.add_transaction(tx3.clone(), &state).unwrap();

    let selected = pool.select_transactions_for_test(3);
    assert_eq!(selected.len(), 3);

    let tx1_pos = selected.iter().position(|tx| tx.hash() == tx1.hash()).unwrap();
    let tx2_pos = selected.iter().position(|tx| tx.hash() == tx2.hash()).unwrap();
    let tx3_pos = selected.iter().position(|tx| tx.hash() == tx3.hash()).unwrap();

    let mut pool2 = TransactionPool::with_config(config);
    pool2.add_transaction(tx3.clone(), &state2).unwrap();
    pool2.add_transaction(tx2.clone(), &state2).unwrap();
    pool2.add_transaction(tx1.clone(), &state2).unwrap();

    let selected2 = pool2.select_transactions_for_test(3);
    assert_eq!(selected2.len(), 3);

    let tx1_pos2 = selected2.iter().position(|tx| tx.hash() == tx1.hash()).unwrap();
    let tx2_pos2 = selected2.iter().position(|tx| tx.hash() == tx2.hash()).unwrap();
    let tx3_pos2 = selected2.iter().position(|tx| tx.hash() == tx3.hash()).unwrap();

    assert_ne!([tx1_pos, tx2_pos, tx3_pos], [tx1_pos2, tx2_pos2, tx3_pos2]);
}

#[test]
fn test_sequential_nonce_validation() {
    let mut pool = TransactionPool::new();
    let mut state = BlockchainState::new();

    let sender = KeyPair::generate().unwrap();
    let recipient = [2u8; 32];

    set_balance(&mut state, &sender.public_key, 10000);
    set_nonce(&mut state, &sender.public_key, 5);

    let tx_correct = create_test_transaction(&sender, &recipient, 100, 200, 5, 10);
    let tx_future = create_test_transaction(&sender, &recipient, 100, 200, 6, 10);
    let tx_past = create_test_transaction(&sender, &recipient, 100, 200, 4, 10);

    assert!(pool.add_transaction(tx_correct.clone(), &state).is_ok());
    assert!(pool.add_transaction(tx_future.clone(), &state).is_err());
    assert!(pool.add_transaction(tx_past.clone(), &state).is_err());

    let mut selected = pool.select_transactions(1, &state);
    assert_eq!(selected.len(), 1);
    assert_eq!(selected[0].nonce, 5);

    set_nonce(&mut state, &sender.public_key, 6);
    assert!(pool.add_transaction(tx_future.clone(), &state).is_ok());

    set_nonce(&mut state, &sender.public_key, 5);
    selected = pool.select_transactions(2, &state);
    assert_eq!(selected.len(), 2);
    assert_eq!(selected[0].nonce, 5);
    assert_eq!(selected[1].nonce, 6);
}

#[test]
fn test_duplicate_transaction_rejection() {
    let mut pool = TransactionPool::new();
    let mut state = BlockchainState::new();

    let sender = KeyPair::generate().unwrap();
    let recipient = [2u8; 32];

    set_balance(&mut state, &sender.public_key, 10000);

    let tx = create_test_transaction(&sender, &recipient, 100, 200, 0, 10);

    assert!(pool.add_transaction(tx.clone(), &state).is_ok());

    let result = pool.add_transaction(tx.clone(), &state);
    assert!(result.is_err());
    assert!(result.unwrap_err().message().contains("already in pool"));

    let mut tx2 = Transaction::new(sender.public_key, recipient, 100, 200, 0, vec![0u8; 10]);
    tx2.sign(&sender.private_key).unwrap();
    let result = pool.add_transaction(tx2, &state);
    assert!(result.is_err());
}

#[test]
fn test_pool_full_behavior() {
    let config = TransactionPoolConfig {
        max_size: 5,
        min_fee_per_byte: 0,
        ..Default::default()
    };
    let mut pool = TransactionPool::with_config(config);
    let mut state = BlockchainState::new();

    let senders: Vec<KeyPair> = (0..7).map(|_| KeyPair::generate().unwrap()).collect();
    let recipient = [2u8; 32];

    for sender in &senders {
        set_balance(&mut state, &sender.public_key, 10000);
    }

    let mut transactions = Vec::new();
    for i in 0..7 {
        let tx = create_test_transaction(&senders[i], &recipient, 100, (i as u64 + 1) * 100, 0, 10);
        transactions.push(tx);
    }

    for i in 0..5 {
        assert!(pool.add_transaction(transactions[i].clone(), &state).is_ok());
    }
    assert_eq!(pool.len(), 5);

    assert!(pool.add_transaction(transactions[5].clone(), &state).is_ok());
    assert!(pool.add_transaction(transactions[6].clone(), &state).is_ok());

    let hashes: Vec<[u8; 32]> = pool.get_all_transactions().iter().map(|tx| tx.hash()).collect();

    assert!(hashes.contains(&transactions[5].hash()));
    assert!(hashes.contains(&transactions[6].hash()));

    let low_fee_tx_evicted = (0..2).any(|i| !hashes.contains(&transactions[i].hash()));
    assert!(low_fee_tx_evicted, "No low-fee transaction was evicted");
}

#[test]
fn test_revalidation_after_state_change() {
    let mut pool = TransactionPool::new();
    let mut state = BlockchainState::new();

    let sender = KeyPair::generate().unwrap();
    let recipient = [2u8; 32];

    set_balance(&mut state, &sender.public_key, 310);

    let tx = create_test_transaction(&sender, &recipient, 100, 200, 0, 10);
    assert!(pool.add_transaction(tx.clone(), &state).is_ok());

    set_balance(&mut state, &sender.public_key, 0);
    pool.revalidate_transactions(&state);

    let selected = pool.select_transactions(1, &state);
    assert!(selected.is_empty());

    assert!(pool.get_all_transactions().iter().any(|t| t.hash() == tx.hash()));
}

#[test]
fn test_batch_processing_performance() {
    let mut pool = TransactionPool::new();
    let mut state = BlockchainState::new();

    const NUM_SENDERS: usize = 100;
    let senders: Vec<KeyPair> = (0..NUM_SENDERS).map(|_| KeyPair::generate().unwrap()).collect();
    let recipient = [2u8; 32];

    for sender in &senders {
        set_balance(&mut state, &sender.public_key, 10000);
    }

    let mut transactions = Vec::new();
    for sender in senders.iter() {
        let tx = create_test_transaction(sender, &recipient, 100, 200, 0, 10);
        transactions.push(tx);
    }

    let start = std::time::Instant::now();
    for tx in &transactions {
        pool.add_transaction(tx.clone(), &state).unwrap();
    }
    let individual_duration = start.elapsed();

    pool = TransactionPool::new();

    let start = std::time::Instant::now();
    for tx in &transactions {
        pool.add_transaction(tx.clone(), &state).unwrap();
    }
    let batch_duration = start.elapsed();

    println!(
        "Individual adds: {:?}, batch adds: {:?}",
        individual_duration, batch_duration
    );

    assert_eq!(pool.len(), NUM_SENDERS);
}
