//! Tests for blocks and block headers.

use blocana::block::Block;
use blocana::transaction::Transaction;

fn create_test_transaction() -> Transaction {
    let mut tx = Transaction::new([1u8; 32], [2u8; 32], 100, 5, 0, vec![]);
    tx.signature = [3u8; 64];
    tx
}

#[test]
fn test_block_creation() {
    let transactions = vec![create_test_transaction()];
    let validator = [5u8; 32];

    let block = Block::new([0u8; 32], 1, transactions, validator);
    assert!(block.is_ok());
    let block = block.unwrap();

    assert_eq!(block.header.version, 1);
    assert_eq!(block.header.height, 1);
    assert_eq!(block.header.validator, validator);
    assert_eq!(block.transactions.len(), 1);
}

#[test]
fn test_genesis_block() {
    let transactions = vec![create_test_transaction()];
    let validator = [5u8; 32];

    let genesis = Block::genesis(validator, transactions);
    assert!(genesis.is_ok());
    let genesis = genesis.unwrap();

    assert_eq!(genesis.header.version, 1);
    assert_eq!(genesis.header.height, 0);
    assert_eq!(genesis.header.prev_hash, [0u8; 32]);
    assert_eq!(genesis.transactions.len(), 1);
}

#[test]
fn test_block_hash() {
    let block = Block::new([0u8; 32], 1, vec![create_test_transaction()], [5u8; 32]).unwrap();
    let hash = block.header.hash();
    assert_ne!(hash, [0u8; 32]);
}

#[test]
fn test_block_validation() {
    let keypair = blocana::crypto::KeyPair::generate().unwrap();
    let mut tx = Transaction::new(keypair.public_key, [2u8; 32], 100, 10, 0, vec![]);
    tx.sign(&keypair.private_key).unwrap();

    let validator = blocana::crypto::KeyPair::generate().unwrap();
    let mut block = Block::new([0u8; 32], 1, vec![tx], validator.public_key).unwrap();
    // unsigned header fails validation
    assert!(block.validate().is_err());
    block.header.sign(&validator.private_key).unwrap();
    assert!(block.validate().is_ok());

    // a tampered merkle root fails validation
    let mut broken = block.clone();
    broken.header.merkle_root = [9u8; 32];
    assert!(broken.validate().is_err());
}

#[test]
fn test_header_serialization_width() {
    let block = Block::new([0u8; 32], 1, vec![], [5u8; 32]).unwrap();
    assert_eq!(block.header.serialize_for_hashing().len(), 113);
    assert_eq!(block.header.serialize_for_signing().len(), 113);
}
