//! Tests for replacement-by-fee in the transaction pool.

use blocana::crypto::KeyPair;
use blocana::state::BlockchainState;
use blocana::transaction::pool::{TransactionPool, TransactionPoolConfig};
use blocana::transaction::Transaction;

fn set_balance(state: &mut BlockchainState, address: &[u8; 32], balance: u64) {
    let mut account = state.get_account_state(address);
    account.balance = balance;
    state.set_account_state(address, account);
}

fn set_nonce(state: &mut BlockchainState, address: &[u8; 32], nonce: u64) {
    let mut account = state.get_account_state(address);
    account.nonce = nonce;
    state.set_account_state(address, account);
}

fn create_test_transaction(
    sender_keypair: &KeyPair,
    recipient: &[u8; 32],
    amount: u64,
    fee: u64,
    nonce: u64,
) -> Transaction {
    let mut tx = Transaction::new(sender_keypair.public_key, *recipient, amount, fee, nonce, vec![]);
    tx.sign(&sender_keypair.private_key).unwrap();
    tx
}

#[test]
fn test_basic_transaction_replacement() {
    let config = TransactionPoolConfig {
        replacement_fee_bump: 10,
        min_fee_per_byte: 0,
        ..Default::default()
    };

    let mut pool = TransactionPool::with_config(config);
    let mut state = BlockchainState::new();

    let sender = KeyPair::generate().unwrap();
    let recipient = [1u8; 32];

    set_balance(&mut state, &sender.public_key, 1000);

    let tx1 = create_test_transaction(&sender, &recipient, 100, 50, 0);
    let tx1_hash = pool.add_transaction(tx1.clone(), &state).unwrap();

    let tx2 = create_test_transaction(&sender, &recipient, 100, 60, 0);

    let result = pool.add_transaction(tx2.clone(), &state);
    assert!(result.is_err());

    let tx2_hash = pool.add_transaction_with_replacement(tx2.clone(), &state, true).unwrap();

    assert!(!pool.get_all_transactions().iter().any(|tx| tx.hash() == tx1_hash));
    assert!(pool.get_all_transactions().iter().any(|tx| tx.hash() == tx2_hash));
    assert_eq!(pool.len(), 1);
}

#[test]
fn test_insufficient_fee_bump() {
    let config = TransactionPoolConfig {
        replacement_fee_bump: 10,
        min_fee_per_byte: 0,
        ..Default::default()
    };

    let mut pool = TransactionPool::with_config(config);
    let mut state = BlockchainState::new();

    let sender = KeyPair::generate().unwrap();
    let recipient = [1u8; 32];

    set_balance(&mut state, &sender.public_key, 1000);

    let tx1 = create_test_transaction(&sender, &recipient, 100, 50, 0);
    let tx1_hash = pool.add_transaction(tx1.clone(), &state).unwrap();

    let tx2 = create_test_transaction(&sender, &recipient, 100, 54, 0);
    let result = pool.add_transaction_with_replacement(tx2.clone(), &state, true);
    assert!(result.is_err());
    assert!(result.unwrap_err().message().contains("Replacement fee too low"));

    assert!(pool.get_all_transactions().iter().any(|tx| tx.hash() == tx1_hash));
    assert_eq!(pool.len(), 1);

    let tx3 = create_test_transaction(&sender, &recipient, 100, 60, 0);
    let tx3_hash = pool.add_transaction_with_replacement(tx3.clone(), &state, true).unwrap();

    assert!(!pool.get_all_transactions().iter().any(|tx| tx.hash() == tx1_hash));
    assert!(pool.get_all_transactions().iter().any(|tx| tx.hash() == tx3_hash));
}

#[test]
fn test_replace_multiple_transactions() {
    let config = TransactionPoolConfig {
        replacement_fee_bump: 10,
        min_fee_per_byte: 0,
        ..Default::default()
    };

    let mut pool = TransactionPool::with_config(config);
    let mut state = BlockchainState::new();

    let sender = KeyPair::generate().unwrap();
    let recipient = [1u8; 32];

    set_balance(&mut state, &sender.public_key, 10000);
    set_nonce(&mut state, &sender.public_key, 5);

    let tx1 = create_test_transaction(&sender, &recipient, 100, 50, 5);
    pool.add_transaction(tx1, &state).unwrap();

    set_nonce(&mut state, &sender.public_key, 6);
    let tx2 = create_test_transaction(&sender, &recipient, 100, 50, 6);
    pool.add_transaction(tx2, &state).unwrap();

    set_nonce(&mut state, &sender.public_key, 7);
    let tx3 = create_test_transaction(&sender, &recipient, 100, 50, 7);
    pool.add_transaction(tx3, &state).unwrap();

    set_nonce(&mut state, &sender.public_key, 6);
    assert_eq!(pool.len(), 3);

    let tx2_replacement = create_test_transaction(&sender, &recipient, 100, 60, 6);
    pool.add_transaction_with_replacement(tx2_replacement, &state, true).unwrap();

    assert_eq!(pool.len(), 3);

    let tx_with_nonce_6 = pool.find_transaction_by_sender_and_nonce(&sender.public_key, 6).unwrap();
    assert_eq!(tx_with_nonce_6.fee, 60);
}

#[test]
fn test_replacement_with_different_parameters() {
    let config = TransactionPoolConfig {
        replacement_fee_bump: 10,
        min_fee_per_byte: 0,
        ..Default::default()
    };

    let mut pool = TransactionPool::with_config(config);
    let mut state = BlockchainState::new();

    let sender = KeyPair::generate().unwrap();
    let recipient1 = [1u8; 32];
    let recipient2 = [2u8; 32];

    set_balance(&mut state, &sender.public_key, 1000);

    let tx1 = create_test_transaction(&sender, &recipient1, 100, 50, 0);
    pool.add_transaction(tx1, &state).unwrap();

    let tx2 = create_test_transaction(&sender, &recipient2, 200, 60, 0);
    pool.add_transaction_with_replacement(tx2.clone(), &state, true).unwrap();

    let tx_in_pool = pool.find_transaction_by_sender_and_nonce(&sender.public_key, 0).unwrap();
    assert_eq!(tx_in_pool.recipient, recipient2);
    assert_eq!(tx_in_pool.amount, 200);
}

#[test]
fn test_high_fee_bump_requirement() {
    let config = TransactionPoolConfig {
        replacement_fee_bump: 50,
        min_fee_per_byte: 0,
        ..Default::default()
    };

    let mut pool = TransactionPool::with_config(config);
    let mut state = BlockchainState::new();

    let sender = KeyPair::generate().unwrap();
    let recipient = [1u8; 32];

    set_balance(&mut state, &sender.public_key, 1000);

    let tx1 = create_test_transaction(&sender, &recipient, 100, 50, 0);
    pool.add_transaction(tx1, &state).unwrap();

    let tx2 = create_test_transaction(&sender, &recipient, 100, 70, 0);
    let result = pool.add_transaction_with_replacement(tx2, &state, true);
    assert!(result.is_err());

    let tx3 = create_test_transaction(&sender, &recipient, 100, 80, 0);
    let result = pool.add_transaction_with_replacement(tx3, &state, true);
    assert!(result.is_ok());
}

#[test]
fn test_find_transaction_by_sender_and_nonce() {
    let config = TransactionPoolConfig {
        replacement_fee_bump: 50,
        min_fee_per_byte: 0,
        ..Default::default()
    };

    let mut pool = TransactionPool::with_config(config);
    let mut state = BlockchainState::new();

    let sender1 = KeyPair::generate().unwrap();
    let sender2 = KeyPair::generate().unwrap();
    let recipient = [1u8; 32];

    set_balance(&mut state, &sender1.public_key, 1000);
    set_balance(&mut state, &sender2.public_key, 1000);

    let tx1 = create_test_transaction(&sender1, &recipient, 100, 10, 0);
    let tx2 = create_test_transaction(&sender1, &recipient, 100, 10, 1);
    let tx3 = create_test_transaction(&sender2, &recipient, 100, 10, 0);

    pool.add_transaction(tx1, &state).unwrap();

    set_nonce(&mut state, &sender1.public_key, 1);
    pool.add_transaction(tx2, &state).unwrap();

    set_nonce(&mut state, &sender2.public_key, 0);
    pool.add_transaction(tx3, &state).unwrap();

    let found1 = pool.find_transaction_by_sender_and_nonce(&sender1.public_key, 0);
    assert!(found1.is_some());
    assert_eq!(found1.unwrap().nonce, 0);

    let found2 = pool.find_transaction_by_sender_and_nonce(&sender1.public_key, 1);
    assert!(found2.is_some());
    assert_eq!(found2.unwrap().nonce, 1);

    let found3 = pool.find_transaction_by_sender_and_nonce(&sender2.public_key, 0);
    assert!(found3.is_some());

    let not_found1 = pool.find_transaction_by_sender_and_nonce(&sender1.public_key, 2);
    assert!(not_found1.is_none());

    let not_found2 = pool.find_transaction_by_sender_and_nonce(&[9u8; 32], 0);
    assert!(not_found2.is_none());
}
