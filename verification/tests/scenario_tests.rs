//! End-to-end scenarios across the mempool, state and ledger store.

use blocana::block::Block;
use blocana::crypto::KeyPair;
use blocana::state::BlockchainState;
use blocana::storage::{BlockchainStorage, StorageConfig};
use blocana::transaction::pool::{TransactionPool, TransactionPoolConfig};
use blocana::transaction::Transaction;

fn set_balance(state: &mut BlockchainState, address: &[u8; 32], balance: u64) {
    let mut account = state.get_account_state(address);
    account.balance = balance;
    state.set_account_state(address, account);
}

fn signed_tx(
    sender: &KeyPair,
    recipient: [u8; 32],
    amount: u64,
    fee: u64,
    nonce: u64,
    data: Vec<u8>,
) -> Transaction {
    let mut tx = Transaction::new(sender.public_key, recipient, amount, fee, nonce, data);
    tx.sign(&sender.private_key).unwrap();
    tx
}

/// Lifecycle: a signed transfer is admitted, put in a block and applied.
#[test]
fn test_lifecycle_submit_and_apply() {
    let config = TransactionPoolConfig {
        min_fee_per_byte: 0,
        ..Default::default()
    };
    let mut pool = TransactionPool::with_config(config);
    let mut state = BlockchainState::new();

    let sender = KeyPair::generate().unwrap();
    let recipient = KeyPair::generate().unwrap();
    set_balance(&mut state, &sender.public_key, 1000);

    let tx = signed_tx(&sender, recipient.public_key, 100, 10, 0, vec![]);
    pool.add_transaction(tx.clone(), &state).unwrap();

    let selected = pool.select_transactions(10, &state);
    assert_eq!(selected.len(), 1);

    let block = Block::new([0u8; 32], 1, selected, [5u8; 32]).unwrap();
    state.apply_block(&block).unwrap();

    assert_eq!(state.get_account_state(&sender.public_key).balance, 890);
    assert_eq!(state.get_account_state(&sender.public_key).nonce, 1);
    assert_eq!(state.get_account_state(&recipient.public_key).balance, 100);
}

/// Replacement gate: with a 10 percent bump over a fee of 50, a fee of 54
/// is rejected and fees of 55 and 60 are accepted.
#[test]
fn test_replacement_gate_thresholds() {
    let config = TransactionPoolConfig {
        replacement_fee_bump: 10,
        min_fee_per_byte: 0,
        ..Default::default()
    };
    let mut state = BlockchainState::new();
    let sender = KeyPair::generate().unwrap();
    set_balance(&mut state, &sender.public_key, 1000);

    let mut pool = TransactionPool::with_config(config.clone());
    pool.add_transaction(signed_tx(&sender, [1u8; 32], 100, 50, 0, vec![]), &state).unwrap();
    let r54 = pool.add_transaction_with_replacement(
        signed_tx(&sender, [1u8; 32], 100, 54, 0, vec![]),
        &state,
        true,
    );
    assert!(r54.is_err());
    let r55 = pool.add_transaction_with_replacement(
        signed_tx(&sender, [1u8; 32], 100, 55, 0, vec![]),
        &state,
        true,
    );
    assert!(r55.is_ok());
    let r60 = pool.add_transaction_with_replacement(
        signed_tx(&sender, [1u8; 32], 100, 60, 0, vec![2]),
        &state,
        true,
    );
    assert!(r60.is_ok());
}

/// Selection priority: the highest fee goes first, and equal rates go in
/// arrival order.
#[test]
fn test_selection_priority_order() {
    let config = TransactionPoolConfig {
        min_fee_per_byte: 0,
        ..Default::default()
    };
    let mut pool = TransactionPool::with_config(config);
    let mut state = BlockchainState::new();

    let a = KeyPair::generate().unwrap();
    let b = KeyPair::generate().unwrap();
    let c = KeyPair::generate().unwrap();
    set_balance(&mut state, &a.public_key, 1000);
    set_balance(&mut state, &b.public_key, 1000);
    set_balance(&mut state, &c.public_key, 1000);

    let tx_a = signed_tx(&a, [9u8; 32], 100, 200, 0, vec![]);
    let tx_b = signed_tx(&b, [9u8; 32], 100, 400, 0, vec![]);
    let tx_c = signed_tx(&c, [9u8; 32], 100, 300, 0, vec![]);

    pool.add_transaction(tx_a.clone(), &state).unwrap();
    pool.add_transaction(tx_b.clone(), &state).unwrap();
    pool.add_transaction(tx_c.clone(), &state).unwrap();

    let one = pool.select_transactions(1, &state);
    assert_eq!(one.len(), 1);
    assert_eq!(one[0].hash(), tx_b.hash());

    // 200 and 300 both price at 1 per byte over 161 bytes; the earlier
    // admission wins the tie
    let two = pool.select_transactions(2, &state);
    assert_eq!(two.len(), 2);
    assert_eq!(two[0].hash(), tx_b.hash());
    assert_eq!(two[1].hash(), tx_a.hash());
}

/// Dependency-respecting selection: one sender's nonces come out in order
/// no matter the admission order.
#[test]
fn test_dependency_respecting_selection() {
    let config = TransactionPoolConfig {
        min_fee_per_byte: 0,
        ..Default::default()
    };
    let mut pool = TransactionPool::with_config(config);
    let mut state = BlockchainState::new();

    let sender = KeyPair::generate().unwrap();
    set_balance(&mut state, &sender.public_key, 1000);
    let mut account = state.get_account_state(&sender.public_key);
    account.nonce = 5;
    state.set_account_state(&sender.public_key, account);

    // admitted out of order via batch grouping
    let txs = vec![
        signed_tx(&sender, [9u8; 32], 50, 10, 7, vec![]),
        signed_tx(&sender, [9u8; 32], 50, 10, 6, vec![]),
        signed_tx(&sender, [9u8; 32], 50, 10, 5, vec![]),
    ];
    let (ok, failed) = pool.add_transactions_batch(txs, &state);
    assert_eq!(ok.len(), 3);
    assert_eq!(failed.len(), 0);

    let selected = pool.select_transactions(3, &state);
    assert_eq!(selected.len(), 3);
    assert_eq!(selected[0].nonce, 5);
    assert_eq!(selected[1].nonce, 6);
    assert_eq!(selected[2].nonce, 7);
}

/// Integrity break: a rogue block whose previous-hash does not match the
/// height below makes the integrity walk answer false.
#[test]
fn test_integrity_break_detected() {
    let mut storage = BlockchainStorage::open(&StorageConfig::default()).unwrap();

    let genesis = Block::new([0u8; 32], 0, vec![], [0u8; 32]).unwrap();
    storage.store_block(&genesis).unwrap();

    let block1 = Block::new(genesis.header.hash(), 1, vec![], [0u8; 32]).unwrap();
    storage.store_block(&block1).unwrap();

    let rogue = Block::new([13u8; 32], 2, vec![], [0u8; 32]).unwrap();
    storage.store_block(&rogue).unwrap();

    assert_eq!(storage.verify_integrity().unwrap(), false);
}

/// Memory eviction: once enough transactions sit in the pool, admitting
/// another one evicts some and keeps usage within the budget.
#[test]
fn test_memory_eviction_keeps_budget() {
    let config = TransactionPoolConfig {
        max_memory: 8000,
        max_size: 1000,
        min_fee_per_byte: 0,
        ..Default::default()
    };
    let max_memory = config.max_memory;
    let mut pool = TransactionPool::with_config(config);
    let mut state = BlockchainState::new();

    let sender = KeyPair::generate().unwrap();
    set_balance(&mut state, &sender.public_key, 1000000);

    for i in 0..10 {
        let tx = signed_tx(&sender, [9u8; 32], 100, 50, i, vec![0u8; 340]);
        let mut account = state.get_account_state(&sender.public_key);
        account.nonce = i;
        state.set_account_state(&sender.public_key, account);
        pool.add_transaction(tx, &state).unwrap();
    }
    let len_before = pool.len();

    let tx = signed_tx(&sender, [9u8; 32], 100, 50, 10, vec![0u8; 340]);
    let mut account = state.get_account_state(&sender.public_key);
    account.nonce = 10;
    state.set_account_state(&sender.public_key, account);
    pool.add_transaction(tx, &state).unwrap();

    assert!(pool.len() < len_before + 1);
    assert!(pool.memory_usage() <= max_memory);
}
