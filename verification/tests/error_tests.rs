//! Tests for the detailed transaction error kinds.

use blocana::errors::TransactionError;

#[test]
fn test_error_categorization() {
    let nonce_error = TransactionError::InvalidNonce {
        sender: [0u8; 32],
        expected: 5,
        actual: 3,
    };

    assert!(nonce_error.is_nonce_error());
    assert!(!nonce_error.is_fee_error());
    assert!(!nonce_error.is_balance_error());
    assert_eq!(nonce_error.expected_nonce(), Some(5));

    let fee_error = TransactionError::FeeTooLow {
        fee_per_byte: 1,
        min_required: 2,
    };

    assert!(fee_error.is_fee_error());
    assert!(!fee_error.is_nonce_error());
    assert_eq!(fee_error.minimum_required_fee(), Some(2));

    let balance_error = TransactionError::InsufficientBalance {
        sender: [0u8; 32],
        balance: 100,
        required: 150,
    };

    assert!(balance_error.is_balance_error());
    assert!(!balance_error.is_fee_error());

    let resource_error = TransactionError::PoolFull {
        current_size: 5000,
        max_size: 5000,
    };

    assert!(resource_error.is_resource_error());
    assert!(resource_error.is_temporary());
}

#[test]
fn test_error_messages() {
    let nonce_error = TransactionError::InvalidNonce {
        sender: [1u8; 32],
        expected: 5,
        actual: 3,
    };

    let error_msg = nonce_error.message();
    assert!(error_msg.contains("Invalid nonce"));
    assert!(error_msg.contains("expected 5"));
    assert!(error_msg.contains("got 3"));

    let fee_error = TransactionError::FeeTooLow {
        fee_per_byte: 1,
        min_required: 2,
    };

    let error_msg = fee_error.message();
    assert!(error_msg.contains("Transaction fee too low"));
    assert!(error_msg.contains("minimum is 2"));

    let log_context = fee_error.log_context();
    assert!(log_context.contains("Transaction fee too low"));
}

#[test]
fn test_error_conversion() {
    let tx_error = TransactionError::InvalidSignature;
    let error: blocana::Error = tx_error.into();
    match error {
        blocana::Error::Validation(msg) => {
            assert!(msg.contains("Invalid transaction signature"));
        },
        _ => panic!("Wrong error type after conversion"),
    }

    let error = blocana::Error::Validation("Test validation error".to_string());
    let tx_error = TransactionError::from_error(&error);
    match tx_error {
        TransactionError::Validation(msg) => {
            assert_eq!(msg, "Test validation error");
        },
        _ => panic!("Wrong error type after conversion"),
    }
}

#[test]
fn test_error_variants_from_pool() {
    // each detailed error variant can arise from pool validation
    let dup = TransactionError::AlreadyExists { tx_hash: [7u8; 32] };
    assert!(dup.is_duplicate());
    let repl = TransactionError::ReplacementFeeTooLow { actual: 54, required: 55 };
    assert!(repl.is_fee_error());
    assert_eq!(repl.minimum_required_fee(), Some(55));
    let mem = TransactionError::MemoryLimitReached { current_bytes: 10, max_bytes: 5 };
    assert!(mem.is_resource_error() && mem.is_temporary());
    let msg = mem.message();
    assert!(msg.contains("memory limit reached"));
}
