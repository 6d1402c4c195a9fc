//! Tests for the transaction pool working with state and selection.

use blocana::crypto::KeyPair;
use blocana::state::BlockchainState;
use blocana::transaction::pool::{TransactionPool, TransactionPoolConfig};
use blocana::transaction::Transaction;

fn set_balance(state: &mut BlockchainState, address: &[u8; 32], balance: u64) {
    let mut account = state.get_account_state(address);
    account.balance = balance;
    state.set_account_state(address, account);
}

#[test]
fn test_transaction_lifecycle() {
    let sender = KeyPair::generate().unwrap();
    let recipient = KeyPair::generate().unwrap();

    let mut tx = Transaction::new(
        sender.public_key,
        recipient.public_key,
        100,
        10,
        0,
        vec![1, 2, 3],
    );

    assert_eq!(tx.signature, [0u8; 64]);
    tx.sign(&sender.private_key).unwrap();
    assert_ne!(tx.signature, [0u8; 64]);

    let result = tx.verify();
    assert!(result.is_ok());

    let mut tampered_tx = tx.clone();
    tampered_tx.amount = 200;
    let result = tampered_tx.verify();
    assert!(result.is_err());
}

#[test]
fn test_transaction_pool_basic_operations() {
    let config = TransactionPoolConfig::default();
    let mut pool = TransactionPool::with_config(config);
    let mut state = BlockchainState::new();

    let sender = KeyPair::generate().unwrap();
    let recipient = KeyPair::generate().unwrap();

    set_balance(&mut state, &sender.public_key, 1000);

    let mut tx = Transaction::new(sender.public_key, recipient.public_key, 100, 200, 0, vec![]);
    tx.sign(&sender.private_key).unwrap();

    let result = pool.add_transaction(tx.clone(), &state);
    assert!(result.is_ok());
    let tx_hash = result.unwrap();
    assert_eq!(tx_hash, tx.hash());

    assert_eq!(pool.len(), 1);

    let result = pool.add_transaction(tx.clone(), &state);
    assert!(result.is_err());
    assert_eq!(pool.len(), 1);

    let selected = pool.select_transactions(10, &state);
    assert_eq!(selected.len(), 1);
    assert_eq!(selected[0].hash(), tx.hash());

    let removed = pool.remove_transaction(&tx.hash());
    assert!(removed);
    assert_eq!(pool.len(), 0);
}

#[test]
fn test_transaction_fee_prioritization() {
    let config = TransactionPoolConfig::default();
    let mut pool = TransactionPool::with_config(config);
    let mut state = BlockchainState::new();

    let sender1 = KeyPair::generate().unwrap();
    let sender2 = KeyPair::generate().unwrap();
    let sender3 = KeyPair::generate().unwrap();
    let recipient = KeyPair::generate().unwrap();

    set_balance(&mut state, &sender1.public_key, 1000);
    set_balance(&mut state, &sender2.public_key, 1000);
    set_balance(&mut state, &sender3.public_key, 1000);

    let mut tx1 = Transaction::new(sender1.public_key, recipient.public_key, 100, 200, 0, vec![]);
    let mut tx2 = Transaction::new(sender2.public_key, recipient.public_key, 100, 400, 0, vec![]);
    let mut tx3 = Transaction::new(sender3.public_key, recipient.public_key, 100, 300, 0, vec![]);

    tx1.sign(&sender1.private_key).unwrap();
    tx2.sign(&sender2.private_key).unwrap();
    tx3.sign(&sender3.private_key).unwrap();

    pool.add_transaction(tx1.clone(), &state).unwrap();
    pool.add_transaction(tx2.clone(), &state).unwrap();
    pool.add_transaction(tx3.clone(), &state).unwrap();

    let selected_one = pool.select_transactions(1, &state);
    assert_eq!(selected_one.len(), 1);
    assert_eq!(selected_one[0].hash(), tx2.hash());

    let selected_two = pool.select_transactions(2, &state);
    assert_eq!(selected_two.len(), 2);
    assert_eq!(selected_two[0].hash(), tx2.hash());
    assert_eq!(selected_two[1].hash(), tx1.hash());
}

#[test]
fn test_verify_transaction_detailed() {
    let config = TransactionPoolConfig {
        min_fee_per_byte: 0,
        ..Default::default()
    };
    let mut pool = TransactionPool::with_config(config);
    let mut state = BlockchainState::new();
    let sender = KeyPair::generate().unwrap();
    set_balance(&mut state, &sender.public_key, 1000);

    let mut tx = Transaction::new(sender.public_key, [9u8; 32], 100, 50, 0, vec![]);
    tx.sign(&sender.private_key).unwrap();
    assert!(pool.verify_transaction(&tx, &state).is_ok());

    // wrong nonce reports the expected one
    let mut tx_bad = Transaction::new(sender.public_key, [9u8; 32], 100, 50, 4, vec![]);
    tx_bad.sign(&sender.private_key).unwrap();
    let err = pool.verify_transaction(&tx_bad, &state).unwrap_err();
    assert!(err.is_nonce_error());
    assert_eq!(err.expected_nonce(), Some(0));

    // an unpayable amount reports a balance error
    let mut tx_poor = Transaction::new(sender.public_key, [9u8; 32], 5000, 50, 0, vec![]);
    tx_poor.sign(&sender.private_key).unwrap();
    let err = pool.verify_transaction(&tx_poor, &state).unwrap_err();
    assert!(err.is_balance_error());

    // a duplicate reports as such
    pool.add_transaction(tx.clone(), &state).unwrap();
    let err = pool.verify_transaction(&tx, &state).unwrap_err();
    assert!(err.is_duplicate());
}

#[test]
fn test_detailed_replacement_errors() {
    let config = TransactionPoolConfig {
        replacement_fee_bump: 10,
        min_fee_per_byte: 0,
        ..Default::default()
    };
    let mut pool = TransactionPool::with_config(config);
    let mut state = BlockchainState::new();
    let sender = KeyPair::generate().unwrap();
    set_balance(&mut state, &sender.public_key, 1000);

    let mut tx1 = Transaction::new(sender.public_key, [1u8; 32], 100, 50, 0, vec![]);
    tx1.sign(&sender.private_key).unwrap();
    pool.add_transaction_with_replacement_detailed(tx1, &state, false).unwrap();

    let mut low = Transaction::new(sender.public_key, [1u8; 32], 100, 54, 0, vec![]);
    low.sign(&sender.private_key).unwrap();
    let err = pool.add_transaction_with_replacement_detailed(low, &state, true).unwrap_err();
    assert!(err.is_fee_error());
    assert_eq!(err.minimum_required_fee(), Some(55));

    let mut ok = Transaction::new(sender.public_key, [1u8; 32], 100, 55, 0, vec![]);
    ok.sign(&sender.private_key).unwrap();
    assert!(pool.add_transaction_with_replacement_detailed(ok, &state, true).is_ok());
}
