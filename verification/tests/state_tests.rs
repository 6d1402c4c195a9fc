//! Tests for account state and state transitions.

use blocana::state::{AccountState, BlockchainState};
use blocana::transaction::Transaction;

fn set_balance(state: &mut BlockchainState, address: &[u8; 32], balance: u64) {
    let mut account = state.get_account_state(address);
    account.balance = balance;
    state.set_account_state(address, account);
}

#[test]
fn test_account_state_creation() {
    let account = AccountState::new();
    assert_eq!(account.balance, 0);
    assert_eq!(account.nonce, 0);
    assert!(account.code.is_none());
    assert!(account.storage.is_empty());

    let account_with_balance = AccountState::with_balance(1000);
    assert_eq!(account_with_balance.balance, 1000);
    assert_eq!(account_with_balance.nonce, 0);
}

#[test]
fn test_blockchain_state() {
    let mut state = BlockchainState::new();
    let address = [1u8; 32];

    let account = state.get_account_state(&address);
    assert_eq!(account.balance, 0);

    set_balance(&mut state, &address, 500);

    let retrieved_account = state.get_account_state(&address);
    assert_eq!(retrieved_account.balance, 500);
}

#[test]
fn test_apply_transaction() {
    let mut state = BlockchainState::new();
    let sender = [1u8; 32];
    let recipient = [2u8; 32];

    state.set_account_state(&sender, AccountState::with_balance(1000));

    let tx = Transaction::new(sender, recipient, 500, 10, 0, vec![]);
    let result = state.apply_transaction(&tx);
    assert!(result.is_ok());

    let sender_balance = state.get_account_state(&sender).balance;
    let recipient_balance = state.get_account_state(&recipient).balance;
    assert_eq!(sender_balance, 490);
    assert_eq!(recipient_balance, 500);
}

#[test]
fn test_apply_transaction_rejections() {
    let mut state = BlockchainState::new();
    let sender = [1u8; 32];
    let recipient = [2u8; 32];
    state.set_account_state(&sender, AccountState::with_balance(100));

    // wrong nonce
    let tx = Transaction::new(sender, recipient, 50, 1, 3, vec![]);
    assert!(state.apply_transaction(&tx).is_err());
    assert_eq!(state.get_account_state(&sender).balance, 100);

    // balance too small
    let tx = Transaction::new(sender, recipient, 100, 10, 0, vec![]);
    assert!(state.apply_transaction(&tx).is_err());
    assert_eq!(state.get_account_state(&sender).balance, 100);
    assert_eq!(state.get_account_state(&sender).nonce, 0);
}

#[test]
fn test_genesis_state_balances() {
    let state = BlockchainState::genesis_state(vec![([1u8; 32], 700), ([2u8; 32], 50)]);
    assert_eq!(state.get_account_state(&[1u8; 32]).balance, 700);
    assert_eq!(state.get_account_state(&[2u8; 32]).balance, 50);
    assert_eq!(state.get_account_state(&[3u8; 32]).balance, 0);
}
