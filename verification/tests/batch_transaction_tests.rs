//! Tests for batch admission in the transaction pool.

use blocana::crypto::KeyPair;
use blocana::state::BlockchainState;
use blocana::transaction::pool::{TransactionPool, TransactionPoolConfig};
use blocana::transaction::Transaction;

fn set_balance(state: &mut BlockchainState, address: &[u8; 32], balance: u64) {
    let mut account = state.get_account_state(address);
    account.balance = balance;
    state.set_account_state(address, account);
}

#[test]
fn test_batch_add_independent_transactions() {
    let config = TransactionPoolConfig {
        min_fee_per_byte: 0,
        ..Default::default()
    };
    let mut pool = TransactionPool::with_config(config);
    let mut state = BlockchainState::new();

    let senders: Vec<KeyPair> = (0..10).map(|_| KeyPair::generate().unwrap()).collect();
    let recipients: Vec<KeyPair> = (0..10).map(|_| KeyPair::generate().unwrap()).collect();

    for sender in &senders {
        set_balance(&mut state, &sender.public_key, 1000);
    }

    let mut batch = Vec::new();
    for i in 0..10 {
        let mut tx = Transaction::new(
            senders[i].public_key,
            recipients[i].public_key,
            100,
            10,
            0,
            vec![],
        );
        tx.sign(&senders[i].private_key).unwrap();
        batch.push(tx);
    }

    let (successful, failed) = pool.add_transactions_batch(batch, &state);

    assert_eq!(successful.len(), 10);
    assert_eq!(failed.len(), 0);
    assert_eq!(pool.len(), 10);

    for sender in &senders {
        let account = state.get_account_state(&sender.public_key);
        assert_eq!(account.balance, 1000);
        assert_eq!(account.nonce, 0);
    }
}

#[test]
fn test_batch_add_dependent_transactions() {
    let config = TransactionPoolConfig {
        min_fee_per_byte: 0,
        ..Default::default()
    };
    let mut pool = TransactionPool::with_config(config);
    let mut state = BlockchainState::new();
    let mut state_for_finalization = state.clone();

    let sender = KeyPair::generate().unwrap();
    let recipient = KeyPair::generate().unwrap();

    set_balance(&mut state, &sender.public_key, 1000);
    set_balance(&mut state_for_finalization, &sender.public_key, 1000);

    let mut batch = Vec::new();
    for i in 0..5 {
        let mut tx = Transaction::new(sender.public_key, recipient.public_key, 50, 10, i, vec![]);
        tx.sign(&sender.private_key).unwrap();
        batch.push(tx.clone());

        let total_cost = tx.amount + tx.fee;
        let mut sender_account = state_for_finalization.get_account_state(&sender.public_key);
        sender_account.balance -= total_cost;
        sender_account.nonce += 1;
        state_for_finalization.set_account_state(&sender.public_key, sender_account);
        let mut recipient_account = state_for_finalization.get_account_state(&recipient.public_key);
        recipient_account.balance += tx.amount;
        state_for_finalization.set_account_state(&recipient.public_key, recipient_account);
    }

    batch.reverse();

    let (successful, failed) = pool.add_transactions_batch(batch, &state);

    assert_eq!(successful.len(), 5);
    assert_eq!(failed.len(), 0);
    assert_eq!(pool.len(), 5);

    let sender_account = state.get_account_state(&sender.public_key);
    assert_eq!(sender_account.balance, 1000);
    assert_eq!(sender_account.nonce, 0);

    let sender_account = state_for_finalization.get_account_state(&sender.public_key);
    assert_eq!(sender_account.balance, 700);
    assert_eq!(sender_account.nonce, 5);

    let recipient_account = state_for_finalization.get_account_state(&recipient.public_key);
    assert_eq!(recipient_account.balance, 250);
}

#[test]
fn test_batch_add_mixed_success_failure() {
    let config = TransactionPoolConfig {
        min_fee_per_byte: 0,
        ..Default::default()
    };
    let mut pool = TransactionPool::with_config(config);
    let mut state = BlockchainState::new();
    let mut state_for_finalization = state.clone();

    let sender = KeyPair::generate().unwrap();
    let recipient = KeyPair::generate().unwrap();

    set_balance(&mut state, &sender.public_key, 180);
    set_balance(&mut state_for_finalization, &sender.public_key, 180);

    let mut batch = Vec::new();
    for i in 0..5 {
        let mut tx = Transaction::new(sender.public_key, recipient.public_key, 50, 10, i, vec![]);
        tx.sign(&sender.private_key).unwrap();
        batch.push(tx);
    }

    let (successful, failed) = pool.add_transactions_batch(batch.clone(), &state);

    assert_eq!(successful.len(), 3);
    assert_eq!(failed.len(), 2);
    assert_eq!(pool.len(), 3);

    let sender_account = state.get_account_state(&sender.public_key);
    assert_eq!(sender_account.balance, 180);
    assert_eq!(sender_account.nonce, 0);

    for tx in batch.iter().take(3) {
        let total_cost = tx.amount + tx.fee;
        let mut sender_account = state_for_finalization.get_account_state(&sender.public_key);
        sender_account.balance -= total_cost;
        sender_account.nonce += 1;
        state_for_finalization.set_account_state(&sender.public_key, sender_account);
        let mut recipient_account = state_for_finalization.get_account_state(&recipient.public_key);
        recipient_account.balance += tx.amount;
        state_for_finalization.set_account_state(&recipient.public_key, recipient_account);
    }

    let sender_account = state_for_finalization.get_account_state(&sender.public_key);
    assert_eq!(sender_account.balance, 0);
    assert_eq!(sender_account.nonce, 3);
}

#[test]
fn test_batch_performance() {
    let config = TransactionPoolConfig {
        min_fee_per_byte: 0,
        ..Default::default()
    };
    let mut pool = TransactionPool::with_config(config.clone());
    let mut state = BlockchainState::new();

    const NUM_TX: usize = 200;
    let senders: Vec<KeyPair> = (0..NUM_TX).map(|_| KeyPair::generate().unwrap()).collect();
    let recipient = KeyPair::generate().unwrap();

    for sender in &senders {
        set_balance(&mut state, &sender.public_key, 1000);
    }

    let mut batch = Vec::new();
    for i in 0..NUM_TX {
        let mut tx = Transaction::new(senders[i].public_key, recipient.public_key, 100, 10, 0, vec![]);
        tx.sign(&senders[i].private_key).unwrap();
        batch.push(tx);
    }

    let mut pool2 = TransactionPool::with_config(config);
    let state2 = state.clone();

    let start = std::time::Instant::now();
    for tx in batch.clone() {
        pool2.add_transaction(tx, &state2).unwrap();
    }
    let individual_time = start.elapsed();

    let start = std::time::Instant::now();
    let (successful, _failed) = pool.add_transactions_batch(batch, &state);
    let batch_time = start.elapsed();

    assert_eq!(successful.len(), NUM_TX);
    assert_eq!(pool.len(), NUM_TX);

    println!(
        "Individual add: {:?} for {} transactions",
        individual_time, NUM_TX
    );
    println!("Batch add: {:?} for {} transactions", batch_time, NUM_TX);

    assert!(
        batch_time <= individual_time * 2,
        "Batch processing should not be dramatically slower"
    );
}

#[test]
fn test_serialized_batch_roundtrip() {
    let config = TransactionPoolConfig {
        min_fee_per_byte: 0,
        ..Default::default()
    };
    let mut pool = TransactionPool::with_config(config);
    let mut state = BlockchainState::new();

    let sender = KeyPair::generate().unwrap();
    set_balance(&mut state, &sender.public_key, 1000);

    let mut tx = Transaction::new(sender.public_key, [7u8; 32], 100, 10, 0, vec![1, 2]);
    tx.sign(&sender.private_key).unwrap();

    let good = blocana::codec::encode_transaction(&tx);
    let bad = vec![1u8, 2, 3];
    let (ok, failed) = pool.add_serialized_transactions_batch(vec![good, bad], &state);
    assert_eq!(ok.len(), 1);
    assert_eq!(failed.len(), 1);
    assert_eq!(ok[0], tx.hash());
}

#[test]
fn test_serialized_batch_failure_keeps_input_position() {
    let config = TransactionPoolConfig {
        min_fee_per_byte: 0,
        ..Default::default()
    };
    let mut pool = TransactionPool::with_config(config);
    let mut state = BlockchainState::new();

    let sender = KeyPair::generate().unwrap();
    set_balance(&mut state, &sender.public_key, 1000);

    let mut tx = Transaction::new(sender.public_key, [9u8; 32], 50, 10, 0, vec![4, 5]);
    tx.sign(&sender.private_key).unwrap();

    let bad = vec![0xFFu8];
    let good = blocana::codec::encode_transaction(&tx);
    let (ok, failed) = pool.add_serialized_transactions_batch(vec![bad, good], &state);
    assert_eq!(ok.len(), 1);
    assert_eq!(failed.len(), 1);
    assert_eq!(failed[0].0, 0);
    assert_eq!(ok[0], tx.hash());
}

#[test]
fn test_selection_for_test_fills_the_count() {
    let config = TransactionPoolConfig {
        min_fee_per_byte: 0,
        ..Default::default()
    };
    let mut pool = TransactionPool::with_config(config);
    let mut state = BlockchainState::new();

    let mut hashes = Vec::new();
    for i in 0..3u64 {
        let kp = KeyPair::generate().unwrap();
        set_balance(&mut state, &kp.public_key, 1000);
        let mut tx = Transaction::new(kp.public_key, [1u8; 32], 10, 10 + i, 0, vec![]);
        tx.sign(&kp.private_key).unwrap();
        hashes.push(tx.hash());
        pool.add_transaction(tx, &state).unwrap();
    }
    assert_eq!(pool.select_transactions_for_test(5).len(), 3);
    assert_eq!(pool.select_transactions_for_test(2).len(), 2);
    assert_eq!(pool.select_transactions_for_test(0).len(), 0);
}
