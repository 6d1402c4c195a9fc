//! Tests for the stable byte encoding: encode and decode round trips for
//! every persisted record kind.

use blocana::block::Block;
use blocana::codec::{
    decode_account, decode_block, decode_transaction, encode_account, encode_block,
    encode_transaction,
};
use blocana::crypto::KeyPair;
use blocana::state::AccountState;
use blocana::storage::{decode_tx_location, encode_tx_location, TxLocation};
use blocana::transaction::Transaction;

#[test]
fn test_transaction_codec_round_trip() {
    let keypair = KeyPair::generate().unwrap();
    let mut tx = Transaction::new(keypair.public_key, [2u8; 32], 123, 45, 6, vec![1, 2, 3, 4]);
    tx.sign(&keypair.private_key).unwrap();

    let encoded = encode_transaction(&tx);
    assert_eq!(encoded.len(), 157 + 4);

    let decoded = decode_transaction(&encoded).unwrap();
    assert_eq!(decoded.version, tx.version);
    assert_eq!(decoded.sender, tx.sender);
    assert_eq!(decoded.recipient, tx.recipient);
    assert_eq!(decoded.amount, tx.amount);
    assert_eq!(decoded.fee, tx.fee);
    assert_eq!(decoded.nonce, tx.nonce);
    assert_eq!(decoded.data, tx.data);
    assert_eq!(decoded.signature, tx.signature);
    assert_eq!(decoded.hash(), tx.hash());

    // trailing bytes are refused
    let mut longer = encoded.clone();
    longer.push(0);
    assert!(decode_transaction(&longer).is_none());
    // truncation is refused
    assert!(decode_transaction(&encoded[..encoded.len() - 1]).is_none());
}

#[test]
fn test_block_codec_round_trip() {
    let keypair = KeyPair::generate().unwrap();
    let mut tx1 = Transaction::new(keypair.public_key, [2u8; 32], 10, 5, 0, vec![]);
    tx1.sign(&keypair.private_key).unwrap();
    let mut tx2 = Transaction::new(keypair.public_key, [3u8; 32], 20, 5, 1, vec![9; 7]);
    tx2.sign(&keypair.private_key).unwrap();

    let block = Block::new([4u8; 32], 3, vec![tx1, tx2], [5u8; 32]).unwrap();
    let encoded = encode_block(&block);
    let decoded = decode_block(&encoded).unwrap();

    assert_eq!(decoded.header.version, block.header.version);
    assert_eq!(decoded.header.prev_hash, block.header.prev_hash);
    assert_eq!(decoded.header.merkle_root, block.header.merkle_root);
    assert_eq!(decoded.header.timestamp, block.header.timestamp);
    assert_eq!(decoded.header.height, block.header.height);
    assert_eq!(decoded.header.validator, block.header.validator);
    assert_eq!(decoded.header.signature, block.header.signature);
    assert_eq!(decoded.transactions.len(), 2);
    assert_eq!(decoded.transactions[0].hash(), block.transactions[0].hash());
    assert_eq!(decoded.transactions[1].hash(), block.transactions[1].hash());
    assert_eq!(decoded.header.hash(), block.header.hash());

    assert_eq!(block.serialized_size(), encoded.len());
}

#[test]
fn test_account_codec_round_trip() {
    let account = AccountState {
        balance: 12345,
        nonce: 678,
        code: Some(vec![1, 2, 3]),
        storage: vec![([7u8; 32], vec![4, 5]), ([8u8; 32], vec![])],
    };
    let encoded = encode_account(&account);
    let decoded = decode_account(&encoded).unwrap();
    assert_eq!(decoded.balance, 12345);
    assert_eq!(decoded.nonce, 678);
    assert_eq!(decoded.code, Some(vec![1, 2, 3]));
    assert_eq!(decoded.storage.len(), 2);
    assert_eq!(decoded.storage[0].0, [7u8; 32]);
    assert_eq!(decoded.storage[0].1, vec![4, 5]);
    assert_eq!(decoded.storage[1].1, Vec::<u8>::new());

    let plain = AccountState::with_balance(99);
    let encoded = encode_account(&plain);
    let decoded = decode_account(&encoded).unwrap();
    assert_eq!(decoded.balance, 99);
    assert_eq!(decoded.nonce, 0);
    assert_eq!(decoded.code, None);
    assert!(decoded.storage.is_empty());
}

#[test]
fn test_tx_location_codec_round_trip() {
    let location = TxLocation {
        block_hash: [9u8; 32],
        index: 70000,
    };
    let encoded = encode_tx_location(&location);
    assert_eq!(encoded.len(), 36);
    let decoded = decode_tx_location(&encoded).unwrap();
    assert_eq!(decoded.block_hash, [9u8; 32]);
    assert_eq!(decoded.index, 70000);

    assert!(decode_tx_location(&encoded[..35]).is_none());
}
