//! Detailed error kinds for transaction validation and pool operations,
//! with categorization helpers so callers need not match on message text.

use vstd::prelude::*;

verus! {

use crate::types::PublicKeyBytes;
use crate::strfmt::{dec_chars_of, u64_to_string};
use crate::Error;

/// Transaction pool specific errors.
#[derive(Clone, Debug)]
pub enum TransactionError {
    /// Generic transaction or block rule violation.
    Validation(String),
    /// Transaction already in the pool.
    AlreadyExists { tx_hash: crate::types::Hash },
    /// Transaction has an invalid signature.
    InvalidSignature,
    /// Transaction nonce does not match the account state.
    InvalidNonce { sender: PublicKeyBytes, expected: u64, actual: u64 },
    /// Transaction sender has insufficient balance.
    InsufficientBalance { sender: PublicKeyBytes, balance: u64, required: u64 },
    /// Transaction fee is too low for inclusion.
    FeeTooLow { fee_per_byte: u64, min_required: u64 },
    /// Fee too low to replace a pending transaction.
    ReplacementFeeTooLow { actual: u64, required: u64 },
    /// Transaction payload is too large.
    DataTooLarge { size: usize, max_size: usize },
    /// Transaction pool is full.
    PoolFull { current_size: usize, max_size: usize },
    /// Transaction pool memory limit reached.
    MemoryLimitReached { current_bytes: usize, max_bytes: usize },
    /// Transaction is expired.
    Expired { tx_hash: crate::types::Hash, creation_time: u64, expiry_time: u64 },
    /// Too many transactions from one sender (reserved).
    RateLimited { sender: PublicKeyBytes },
    /// Temporary failure that might succeed if tried again later.
    Temporary(String),
    /// Internal pool error.
    Internal(String),
    /// Cryptographic error.
    Crypto(String),
    /// Database error.
    Database(String),
}

/// The rendered message of an error.
pub open spec fn te_message(e: TransactionError) -> Seq<char> {
    match e {
        TransactionError::Validation(s) => "Transaction validation failed: "@ + s@,
        TransactionError::AlreadyExists { .. } => "Transaction already exists in pool"@,
        TransactionError::InvalidSignature => "Invalid transaction signature"@,
        TransactionError::InvalidNonce { expected, actual, .. } => "Invalid nonce: expected "@
            + dec_chars_of(expected as int) + ", got "@ + dec_chars_of(actual as int),
        TransactionError::InsufficientBalance { balance, required, .. } => {
            "Insufficient balance: has "@ + dec_chars_of(balance as int) + ", needs "@
                + dec_chars_of(required as int)
        },
        TransactionError::FeeTooLow { fee_per_byte, min_required } => {
            "Transaction fee too low: "@ + dec_chars_of(fee_per_byte as int)
                + " per byte, minimum is "@ + dec_chars_of(min_required as int)
        },
        TransactionError::ReplacementFeeTooLow { actual, required } => {
            "Replacement fee too low: got "@ + dec_chars_of(actual as int) + ", need at least "@
                + dec_chars_of(required as int)
        },
        TransactionError::DataTooLarge { size, max_size } => {
            "Transaction data too large: "@ + dec_chars_of(size as int) + " bytes, maximum is "@
                + dec_chars_of(max_size as int)
        },
        TransactionError::PoolFull { current_size, max_size } => {
            "Transaction pool is full: "@ + dec_chars_of(current_size as int) + "/"@ + dec_chars_of(
                max_size as int,
            ) + " transactions"@
        },
        TransactionError::MemoryLimitReached { current_bytes, max_bytes } => {
            "Transaction pool memory limit reached: "@ + dec_chars_of(current_bytes as int) + "/"@
                + dec_chars_of(max_bytes as int) + " bytes"@
        },
        TransactionError::Expired { .. } => "Transaction is expired"@,
        TransactionError::RateLimited { .. } => "Rate limited: too many transactions from sender"@,
        TransactionError::Temporary(s) => "Temporary failure: "@ + s@,
        TransactionError::Internal(s) => "Transaction pool internal error: "@ + s@,
        TransactionError::Crypto(s) => "Cryptographic error: "@ + s@,
        TransactionError::Database(s) => "Database error: "@ + s@,
    }
}

impl TransactionError {
    /// Whether the error indicates a duplicate transaction.
    pub fn is_duplicate(&self) -> (r: bool)
        ensures
            r == (self is AlreadyExists),
    {
        match self {
            TransactionError::AlreadyExists { .. } => true,
            _ => false,
        }
    }

    /// Whether the error is about the transaction's nonce.
    pub fn is_nonce_error(&self) -> (r: bool)
        ensures
            r == (self is InvalidNonce),
    {
        match self {
            TransactionError::InvalidNonce { .. } => true,
            _ => false,
        }
    }

    /// Whether the error is about the transaction's fee.
    pub fn is_fee_error(&self) -> (r: bool)
        ensures
            r == (self is FeeTooLow || self is ReplacementFeeTooLow),
    {
        match self {
            TransactionError::FeeTooLow { .. } => true,
            TransactionError::ReplacementFeeTooLow { .. } => true,
            _ => false,
        }
    }

    /// Whether the error is about the sender's balance.
    pub fn is_balance_error(&self) -> (r: bool)
        ensures
            r == (self is InsufficientBalance),
    {
        match self {
            TransactionError::InsufficientBalance { .. } => true,
            _ => false,
        }
    }

    /// Whether the error is about pool resource limits.
    pub fn is_resource_error(&self) -> (r: bool)
        ensures
            r == (self is PoolFull || self is MemoryLimitReached),
    {
        match self {
            TransactionError::PoolFull { .. } => true,
            TransactionError::MemoryLimitReached { .. } => true,
            _ => false,
        }
    }

    /// Whether the error is temporary and might pass on a later try.
    pub fn is_temporary(&self) -> (r: bool)
        ensures
            r == (self is Temporary || self is RateLimited || self is PoolFull
                || self is MemoryLimitReached),
    {
        match self {
            TransactionError::Temporary(_) => true,
            TransactionError::RateLimited { .. } => true,
            TransactionError::PoolFull { .. } => true,
            TransactionError::MemoryLimitReached { .. } => true,
            _ => false,
        }
    }

    /// The expected nonce, when this is a nonce error.
    pub fn expected_nonce(&self) -> (r: Option<u64>)
        ensures
            match *self {
                TransactionError::InvalidNonce { expected, .. } => r == Some(expected),
                _ => r is None,
            },
    {
        match self {
            TransactionError::InvalidNonce { expected, .. } => Some(*expected),
            _ => None,
        }
    }

    /// The minimum required fee, when this is a fee error.
    pub fn minimum_required_fee(&self) -> (r: Option<u64>)
        ensures
            match *self {
                TransactionError::FeeTooLow { min_required, .. } => r == Some(min_required),
                TransactionError::ReplacementFeeTooLow { required, .. } => r == Some(required),
                _ => r is None,
            },
    {
        match self {
            TransactionError::FeeTooLow { min_required, .. } => Some(*min_required),
            TransactionError::ReplacementFeeTooLow { required, .. } => Some(*required),
            _ => None,
        }
    }

    /// The rendered message of this error.
    pub fn message(&self) -> (r: String)
        ensures
            r@ == te_message(*self),
    {
        match self {
            TransactionError::Validation(s) => {
                let mut m = String::from_str("Transaction validation failed: ");
                m.append(s.as_str());
                m
            },
            TransactionError::AlreadyExists { .. } => {
                String::from_str("Transaction already exists in pool")
            },
            TransactionError::InvalidSignature => {
                String::from_str("Invalid transaction signature")
            },
            TransactionError::InvalidNonce { expected, actual, .. } => {
                let mut m = String::from_str("Invalid nonce: expected ");
                let e = u64_to_string(*expected);
                m.append(e.as_str());
                m.append(", got ");
                let a = u64_to_string(*actual);
                m.append(a.as_str());
                m
            },
            TransactionError::InsufficientBalance { balance, required, .. } => {
                let mut m = String::from_str("Insufficient balance: has ");
                let b = u64_to_string(*balance);
                m.append(b.as_str());
                m.append(", needs ");
                let q = u64_to_string(*required);
                m.append(q.as_str());
                m
            },
            TransactionError::FeeTooLow { fee_per_byte, min_required } => {
                let mut m = String::from_str("Transaction fee too low: ");
                let f = u64_to_string(*fee_per_byte);
                m.append(f.as_str());
                m.append(" per byte, minimum is ");
                let q = u64_to_string(*min_required);
                m.append(q.as_str());
                m
            },
            TransactionError::ReplacementFeeTooLow { actual, required } => {
                let mut m = String::from_str("Replacement fee too low: got ");
                let a = u64_to_string(*actual);
                m.append(a.as_str());
                m.append(", need at least ");
                let q = u64_to_string(*required);
                m.append(q.as_str());
                m
            },
            TransactionError::DataTooLarge { size, max_size } => {
                let mut m = String::from_str("Transaction data too large: ");
                let a = u64_to_string(*size as u64);
                m.append(a.as_str());
                m.append(" bytes, maximum is ");
                let q = u64_to_string(*max_size as u64);
                m.append(q.as_str());
                m
            },
            TransactionError::PoolFull { current_size, max_size } => {
                let mut m = String::from_str("Transaction pool is full: ");
                let a = u64_to_string(*current_size as u64);
                m.append(a.as_str());
                m.append("/");
                let q = u64_to_string(*max_size as u64);
                m.append(q.as_str());
                m.append(" transactions");
                m
            },
            TransactionError::MemoryLimitReached { current_bytes, max_bytes } => {
                let mut m = String::from_str("Transaction pool memory limit reached: ");
                let a = u64_to_string(*current_bytes as u64);
                m.append(a.as_str());
                m.append("/");
                let q = u64_to_string(*max_bytes as u64);
                m.append(q.as_str());
                m.append(" bytes");
                m
            },
            TransactionError::Expired { .. } => String::from_str("Transaction is expired"),
            TransactionError::RateLimited { .. } => {
                String::from_str("Rate limited: too many transactions from sender")
            },
            TransactionError::Temporary(s) => {
                let mut m = String::from_str("Temporary failure: ");
                m.append(s.as_str());
                m
            },
            TransactionError::Internal(s) => {
                let mut m = String::from_str("Transaction pool internal error: ");
                m.append(s.as_str());
                m
            },
            TransactionError::Crypto(s) => {
                let mut m = String::from_str("Cryptographic error: ");
                m.append(s.as_str());
                m
            },
            TransactionError::Database(s) => {
                let mut m = String::from_str("Database error: ");
                m.append(s.as_str());
                m
            },
        }
    }

    /// Additional context for log messages: the rendered message.
    pub fn log_context(&self) -> (r: String)
        ensures
            r@ == te_message(*self),
    {
        self.message()
    }

    /// Classify a general error as a transaction error.
    pub fn from_error(err: &Error) -> (r: TransactionError)
        ensures
            match *err {
                Error::Validation(_) => r is Validation,
                Error::Crypto(_) => r is Crypto,
                Error::DB(_) => r is Database,
                _ => r is Internal,
            },
    {
        match err {
            Error::Validation(msg) => TransactionError::Validation(clone_string(msg)),
            Error::Crypto(msg) => TransactionError::Crypto(clone_string(msg)),
            Error::DB(msg) => TransactionError::Database(clone_string(msg)),
            _ => TransactionError::Internal(String::from_str("Unknown error")),
        }
    }

    /// Convert this error into a general error: validation, cryptographic
    /// and database errors keep their kind and message; every other kind
    /// becomes a validation error carrying the rendered message.
    pub fn into_error(self) -> (r: Error)
        ensures
            match self {
                TransactionError::Validation(s) => r == Error::Validation(s),
                TransactionError::Crypto(s) => r == Error::Crypto(s),
                TransactionError::Database(s) => r is DB,
                _ => r is Validation && r->Validation_0@ == te_message(self),
            },
    {
        match self {
            TransactionError::Validation(msg) => Error::Validation(msg),
            TransactionError::Crypto(msg) => Error::Crypto(msg),
            TransactionError::Database(msg) => {
                let mut m = String::from_str("Database error: ");
                m.append(msg.as_str());
                Error::DB(m)
            },
            _ => Error::Validation(self.message()),
        }
    }
}

/// Copies a string.
pub fn clone_string(s: &String) -> (r: String)
    ensures
        r@ == s@,
{
    let mut out = String::new();
    out.append(s.as_str());
    out
}

impl From<TransactionError> for Error {
    /// Converts as `into_error` does.
    fn from(err: TransactionError) -> (r: Error) {
        err.into_error()
    }
}

impl vstd::std_specs::convert::FromSpecImpl<TransactionError> for Error {
    open spec fn obeys_from_spec() -> bool {
        false
    }

    open spec fn from_spec(t: TransactionError) -> Error {
        arbitrary()
    }
}

} // verus!
