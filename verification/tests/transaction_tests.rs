//! Tests for transactions: creation, hashing, signing and verification.

use blocana::crypto::KeyPair;
use blocana::transaction::Transaction;

#[test]
fn test_transaction_creation() {
    let sender = [1u8; 32];
    let recipient = [2u8; 32];

    let tx = Transaction::new(sender, recipient, 100, 10, 0, vec![1, 2, 3]);

    assert_eq!(tx.version, 1);
    assert_eq!(tx.sender, sender);
    assert_eq!(tx.recipient, recipient);
    assert_eq!(tx.amount, 100);
    assert_eq!(tx.fee, 10);
    assert_eq!(tx.nonce, 0);
    assert_eq!(tx.data, vec![1, 2, 3]);
    assert_eq!(tx.signature, [0u8; 64]);
}

#[test]
fn test_transaction_hash() {
    let sender = [1u8; 32];
    let recipient = [2u8; 32];

    let tx1 = Transaction::new(sender, recipient, 100, 10, 0, vec![]);
    let hash1 = tx1.hash();
    assert_ne!(hash1, [0u8; 32]);

    let tx2 = Transaction::new(sender, recipient, 100, 10, 0, vec![]);
    let hash2 = tx2.hash();
    assert_eq!(hash1, hash2);

    let tx3 = Transaction::new(sender, recipient, 200, 10, 0, vec![]);
    let hash3 = tx3.hash();
    assert_ne!(hash1, hash3);

    let mut tx4 = tx1.clone();
    tx4.signature = [1u8; 64];
    let hash4 = tx4.hash();
    assert_eq!(hash1, hash4);
}

#[test]
fn test_sign_and_verify() {
    let keypair = KeyPair::generate().unwrap();
    let mut tx = Transaction::new(keypair.public_key, [2u8; 32], 100, 10, 0, vec![1, 2, 3]);

    assert!(tx.verify().is_err());

    tx.sign(&keypair.private_key).unwrap();
    assert!(tx.verify().is_ok());

    let mut tx2 = tx.clone();
    tx2.amount = 200;
    assert!(tx2.verify().is_err());
}

#[test]
fn test_transaction_verify_structural_rules() {
    let keypair = KeyPair::generate().unwrap();
    let recipient = [2u8; 32];

    let mut tx = Transaction::new(keypair.public_key, recipient, 100, 10, 0, vec![]);
    tx.version = 2;
    tx.sign(&keypair.private_key).unwrap();
    assert!(tx.verify().is_err());

    let mut tx = Transaction::new(keypair.public_key, recipient, 0, 10, 0, vec![]);
    tx.sign(&keypair.private_key).unwrap();
    assert!(tx.verify().is_err());

    let mut tx = Transaction::new(keypair.public_key, recipient, 100, 0, 0, vec![]);
    tx.sign(&keypair.private_key).unwrap();
    assert!(tx.verify().is_err());

    let mut tx = Transaction::new(keypair.public_key, keypair.public_key, 100, 10, 0, vec![]);
    tx.sign(&keypair.private_key).unwrap();
    assert!(tx.verify().is_err());

    let mut tx = Transaction::new(
        keypair.public_key,
        recipient,
        100,
        10,
        0,
        vec![0; 1024 * 10 + 1],
    );
    tx.sign(&keypair.private_key).unwrap();
    assert!(tx.verify().is_err());

    let mut tx = Transaction::new(keypair.public_key, recipient, 100, 10, 0, vec![1, 2, 3]);
    tx.sign(&keypair.private_key).unwrap();
    assert!(tx.verify().is_ok());
}

#[test]
fn test_estimate_size() {
    let sender = [1u8; 32];
    let recipient = [2u8; 32];
    let tx_no_data = Transaction::new(sender, recipient, 100, 10, 0, vec![]);
    assert_eq!(tx_no_data.estimate_size(), 161);

    let tx_with_data = Transaction::new(sender, recipient, 100, 10, 0, vec![0u8; 50]);
    assert_eq!(tx_with_data.estimate_size(), 211);
}

#[test]
fn test_fee_per_byte_pricing() {
    let sender = [1u8; 32];
    let recipient = [2u8; 32];
    // size 161 + 39 = 200; fee 400 gives 2 per byte
    let tx = Transaction::new(sender, recipient, 100, 400, 0, vec![0; 39]);
    assert_eq!(tx.estimate_size(), 200);
    assert_eq!(tx.fee_per_byte(), 2);
    assert!(tx.meets_fee_requirement(2));
    assert!(!tx.meets_fee_requirement(3));
}
