//! Tests for the cryptographic primitives.

use blocana::crypto::{
    batch_verify_signatures, compute_merkle_root, generate_secure_random, hash_data, hash_pair,
    hash_to_hex, hex_to_hash, hmac_sha256, verify_signature, KeyPair,
};

#[test]
fn test_hash_data() {
    let data = b"test data";
    let hash = hash_data(data);
    assert_ne!(hash, [0u8; 32]);
    let hash2 = hash_data(data);
    assert_eq!(hash, hash2);
    let hash3 = hash_data(b"different data");
    assert_ne!(hash, hash3);
}

#[test]
fn test_keypair_generation() {
    let result = KeyPair::generate();
    assert!(result.is_ok());
    let keypair = result.unwrap();
    assert_ne!(keypair.public_key, [0u8; 32]);
    assert_ne!(keypair.private_key, [0u8; 32]);
}

#[test]
fn mod_test_sign_and_verify() {
    let keypair = KeyPair::generate().unwrap();
    let message = b"This is a test message";
    let signature = keypair.sign(message);
    let result = verify_signature(&keypair.public_key, &signature, message);
    assert!(result.is_ok());
    let modified_message = b"This is a MODIFIED message";
    let result = verify_signature(&keypair.public_key, &signature, modified_message);
    assert!(result.is_err());
}

#[test]
fn test_merkle_root() {
    let empty_root = compute_merkle_root(&[]);
    assert_eq!(empty_root, [0u8; 32]);

    let hash1 = hash_data(b"leaf1");
    let single_root = compute_merkle_root(&[hash1]);
    assert_eq!(single_root, hash1);

    let hash2 = hash_data(b"leaf2");
    let hash3 = hash_data(b"leaf3");
    let hash4 = hash_data(b"leaf4");
    let hashes = vec![hash1, hash2, hash3, hash4];

    let node1 = hash_pair(&hash1, &hash2);
    let node2 = hash_pair(&hash3, &hash4);
    let expected_root = hash_pair(&node1, &node2);

    let root = compute_merkle_root(&hashes);
    assert_eq!(root, expected_root);

    // an odd level duplicates its last element
    let odd = vec![hash1, hash2, hash3];
    let expected_odd = hash_pair(&hash_pair(&hash1, &hash2), &hash_pair(&hash3, &hash3));
    assert_eq!(compute_merkle_root(&odd), expected_odd);
}

#[test]
fn test_derive_child_key() {
    let master = KeyPair::generate().unwrap();
    let child1 = master.derive_child_key(1).unwrap();
    let child2 = master.derive_child_key(2).unwrap();
    let child1_again = master.derive_child_key(1).unwrap();

    assert_ne!(master.public_key, child1.public_key);
    assert_ne!(master.private_key, child1.private_key);
    assert_ne!(child1.public_key, child2.public_key);
    assert_eq!(child1.public_key, child1_again.public_key);
    assert_eq!(child1.private_key, child1_again.private_key);
}

#[test]
fn test_hmac_sha256() {
    let key = b"secret key";
    let message = b"test message";

    let hmac1 = hmac_sha256(key, message);
    let hmac2 = hmac_sha256(key, message);
    assert_eq!(hmac1, hmac2);

    let hmac3 = hmac_sha256(key, b"different message");
    assert_ne!(hmac1, hmac3);

    let hmac4 = hmac_sha256(b"different key", message);
    assert_ne!(hmac1, hmac4);
}

#[test]
fn test_batch_verify_signatures() {
    let keypair1 = KeyPair::generate().unwrap();
    let keypair2 = KeyPair::generate().unwrap();
    let keypair3 = KeyPair::generate().unwrap();

    let message1: &[u8] = b"message 1";
    let message2: &[u8] = b"message 2";
    let message3: &[u8] = b"message 3";

    let sig1 = keypair1.sign(message1);
    let sig2 = keypair2.sign(message2);
    let sig3 = keypair3.sign(message3);

    let result = batch_verify_signatures(
        &[message1, message2, message3],
        &[&sig1, &sig2, &sig3],
        &[&keypair1.public_key, &keypair2.public_key, &keypair3.public_key],
    );
    assert!(result.is_ok());

    let result = batch_verify_signatures(
        &[message1, message2, message3],
        &[&sig1, &sig3, &sig2],
        &[&keypair1.public_key, &keypair2.public_key, &keypair3.public_key],
    );
    assert!(result.is_err());
}

#[test]
fn test_hash_to_hex() {
    let hash = hash_data(b"test");
    let hex = hash_to_hex(&hash);
    assert_eq!(hex.len(), 64);
    let hash2 = hex_to_hash(&hex).unwrap();
    assert_eq!(hash, hash2);
}

#[test]
fn test_generate_secure_random() {
    let random1 = generate_secure_random();
    let random2 = generate_secure_random();
    assert_ne!(random1, random2);
}

#[test]
fn test_hex_fmt_renders_bytes() {
    assert_eq!(blocana::hex_fmt(&[0x00, 0x0f, 0xa5, 0xff]), "000fa5ff");
    assert_eq!(blocana::hex_fmt(&[]), "");
    let bad = hex_to_hash("zz");
    assert!(bad.is_err());
    let bad2 = hex_to_hash(&"a".repeat(64).replace('a', "g"));
    assert!(bad2.is_err());
}

#[test]
fn test_zeroize_clears_private_key() {
    let mut keypair = KeyPair::generate().unwrap();
    let public_before = keypair.public_key;
    assert_ne!(keypair.private_key, [0u8; 32]);
    keypair.zeroize();
    assert_eq!(keypair.private_key, [0u8; 32]);
    assert_eq!(keypair.public_key, public_before);
}

#[test]
fn test_batch_verify_reports_first_failing_index() {
    let keypair1 = KeyPair::generate().unwrap();
    let keypair2 = KeyPair::generate().unwrap();

    let message1: &[u8] = b"first";
    let message2: &[u8] = b"second";
    let sig1 = keypair1.sign(message1);
    let sig_wrong = keypair1.sign(b"something else");

    let result = batch_verify_signatures(
        &[message1, message2],
        &[&sig1, &sig_wrong],
        &[&keypair1.public_key, &keypair2.public_key],
    );
    match result {
        Err(e) => {
            let msg = e.message();
            assert!(msg.contains("index 1"), "message was: {msg}");
        }
        Ok(_) => panic!("verification should have failed"),
    }
}
