//! Transfer records: creation, canonical signing preimage, structural
//! validation, signing and verification, hashing, and size estimation.

use vstd::prelude::*;

pub mod pool;

verus! {

use crate::types::{PrivateKeyBytes, PublicKeyBytes, SignatureBytes};
use crate::crypto::{ed25519_sign_of, ed25519_verify_of, sha256_of};
use crate::Error;
use vstd::bytes::{spec_u32_to_le_bytes, spec_u64_to_le_bytes, u32_to_le_bytes, u64_to_le_bytes};

/// Largest allowed payload length in bytes (10 KiB).
pub const MAX_TX_DATA_LEN: usize = 10240;

/// A transfer of value between two accounts.
pub struct Transaction {
    /// Transaction format version.
    pub version: u8,
    /// Sender public key.
    pub sender: PublicKeyBytes,
    /// Recipient public key.
    pub recipient: PublicKeyBytes,
    /// Amount to transfer.
    pub amount: u64,
    /// Fee for the transaction.
    pub fee: u64,
    /// Sender's transaction counter, for replay protection.
    pub nonce: u64,
    /// Optional payload.
    pub data: Vec<u8>,
    /// Signature over the canonical signing preimage.
    pub signature: SignatureBytes,
}

/// The mathematical shape of a transaction.
pub struct TransactionV {
    pub version: u8,
    pub sender: Seq<u8>,
    pub recipient: Seq<u8>,
    pub amount: u64,
    pub fee: u64,
    pub nonce: u64,
    pub data: Seq<u8>,
    pub signature: Seq<u8>,
}

impl View for Transaction {
    type V = TransactionV;

    open spec fn view(&self) -> TransactionV {
        TransactionV {
            version: self.version,
            sender: self.sender@,
            recipient: self.recipient@,
            amount: self.amount,
            fee: self.fee,
            nonce: self.nonce,
            data: self.data@,
            signature: self.signature@,
        }
    }
}

/// The canonical signing preimage: version, sender, recipient, amount,
/// fee and nonce (little-endian), a 4-byte little-endian payload length,
/// then the payload. The signature is not part of it.
pub open spec fn signing_preimage(t: TransactionV) -> Seq<u8> {
    seq![t.version] + t.sender + t.recipient + spec_u64_to_le_bytes(t.amount)
        + spec_u64_to_le_bytes(t.fee) + spec_u64_to_le_bytes(t.nonce) + spec_u32_to_le_bytes(
        t.data.len() as u32,
    ) + t.data
}

/// The transaction hash: SHA-256 over the signing preimage.
pub open spec fn tx_hash_of(t: TransactionV) -> Seq<u8> {
    sha256_of(signing_preimage(t))
}

/// The structural rules: version 1, positive amount and fee, payload at
/// most 10 KiB, no self-transfer, and amount + fee free of overflow.
pub open spec fn structurally_valid(t: TransactionV) -> bool {
    &&& t.version == 1
    &&& t.amount > 0
    &&& t.fee > 0
    &&& t.data.len() <= MAX_TX_DATA_LEN
    &&& t.sender != t.recipient
    &&& t.amount + t.fee <= u64::MAX
}

/// Whether the signature covers the canonical preimage under the sender key.
pub open spec fn signature_covers(t: TransactionV) -> bool {
    ed25519_verify_of(t.sender, t.signature, signing_preimage(t))
}

/// A transaction verifies exactly when it is structurally valid and its
/// signature covers the canonical preimage.
pub open spec fn tx_verify_ok(t: TransactionV) -> bool {
    structurally_valid(t) && signature_covers(t)
}

/// The estimated serialized size: 161 fixed bytes plus the payload.
pub open spec fn spec_estimate_size(t: TransactionV) -> int {
    161 + t.data.len() as int
}

/// The fee-per-byte pricing basis: fee divided by the estimated size.
pub open spec fn spec_fee_per_byte(t: TransactionV) -> u64 {
    (t.fee / (161 + t.data.len()) as u64) as u64
}

/// Copies a byte vector.
pub fn clone_bytes(v: &Vec<u8>) -> (r: Vec<u8>)
    ensures
        r@ == v@,
{
    let mut out: Vec<u8> = Vec::new();
    let mut i: usize = 0;
    while i < v.len()
        invariant
            i <= v@.len(),
            out@ == v@.take(i as int),
        decreases v@.len() - i,
    {
        out.push(v[i]);
        proof {
            assert(out@ =~= v@.take(i + 1));
        }
        i = i + 1;
    }
    proof {
        assert(v@.take(v@.len() as int) =~= v@);
    }
    out
}

impl Clone for Transaction {
    /// Copies the transaction; the copy has the same view.
    fn clone(&self) -> (r: Self)
        ensures
            r@ == self@,
    {
        Transaction {
            version: self.version,
            sender: self.sender,
            recipient: self.recipient,
            amount: self.amount,
            fee: self.fee,
            nonce: self.nonce,
            data: clone_bytes(&self.data),
            signature: self.signature,
        }
    }
}

impl Transaction {
    /// Create a new unsigned transaction: version 1 and an all-zero signature.
    pub fn new(
        sender: PublicKeyBytes,
        recipient: PublicKeyBytes,
        amount: u64,
        fee: u64,
        nonce: u64,
        data: Vec<u8>,
    ) -> (r: Transaction)
        ensures
            r@ == (TransactionV {
                version: 1,
                sender: sender@,
                recipient: recipient@,
                amount,
                fee,
                nonce,
                data: data@,
                signature: crate::types::zero_signature(),
            }),
    {
        let signature: SignatureBytes = [0u8; 64];
        proof {
            assert(signature@ =~= crate::types::zero_signature());
        }
        Transaction { version: 1, sender, recipient, amount, fee, nonce, data, signature }
    }

    /// The canonical byte string that is signed and hashed.
    pub fn serialized_for_signing(&self) -> (r: Vec<u8>)
        ensures
            r@ == signing_preimage(self@),
    {
        let mut out: Vec<u8> = Vec::new();
        out.push(self.version);
        out.extend_from_slice(self.sender.as_slice());
        out.extend_from_slice(self.recipient.as_slice());
        let amount_bytes = u64_to_le_bytes(self.amount);
        out.extend_from_slice(amount_bytes.as_slice());
        let fee_bytes = u64_to_le_bytes(self.fee);
        out.extend_from_slice(fee_bytes.as_slice());
        let nonce_bytes = u64_to_le_bytes(self.nonce);
        out.extend_from_slice(nonce_bytes.as_slice());
        let len_bytes = u32_to_le_bytes(self.data.len() as u32);
        out.extend_from_slice(len_bytes.as_slice());
        out.extend_from_slice(self.data.as_slice());
        proof {
            assert(out@ =~= signing_preimage(self@));
        }
        out
    }

    /// Sign the transaction with the sender's private key, replacing the
    /// signature with one that covers the canonical preimage.
    pub fn sign(&mut self, private_key: &PrivateKeyBytes) -> (r: Result<(), Error>)
        ensures
            r is Ok,
            final(self)@ == (TransactionV { signature: final(self)@.signature, ..old(self)@ }),
            final(self)@.signature == ed25519_sign_of(private_key@, signing_preimage(old(self)@)),
            signing_preimage(final(self)@) == signing_preimage(old(self)@),
            ed25519_verify_of(
                crate::crypto::ed25519_pubkey_of(private_key@),
                final(self)@.signature,
                signing_preimage(final(self)@),
            ),
    {
        let message = self.serialized_for_signing();
        let signature = crate::crypto::sign_message(private_key, message.as_slice());
        match signature {
            Ok(sig) => {
                self.signature = sig;
                proof {
                    assert(signing_preimage(self@) =~= signing_preimage(old(self)@));
                }
                Ok(())
            },
            Err(e) => Err(e),
        }
    }

    /// Verify the transaction: succeeds exactly when the structural rules
    /// hold and the signature covers the canonical preimage under the
    /// sender's key. A broken structural rule yields a validation error;
    /// a failing signature yields a cryptographic error.
    pub fn verify(&self) -> (r: Result<(), Error>)
        ensures
            r is Ok <==> tx_verify_ok(self@),
            r is Err && !structurally_valid(self@) ==> r->Err_0 is Validation,
            r is Err && structurally_valid(self@) ==> r->Err_0 is Crypto,
    {
        if self.version != 1 {
            return Err(Error::Validation(String::from_str("Invalid transaction version")));
        }
        if self.amount == 0 {
            return Err(Error::Validation(String::from_str("Transaction amount cannot be zero")));
        }
        if self.fee == 0 {
            return Err(Error::Validation(String::from_str("Transaction fee cannot be zero")));
        }
        if self.data.len() > MAX_TX_DATA_LEN {
            return Err(Error::Validation(String::from_str("Transaction data too large")));
        }
        if crate::types::hash_eq(&self.sender, &self.recipient) {
            return Err(
                Error::Validation(String::from_str("Sender cannot be the same as recipient")),
            );
        }
        if self.amount.checked_add(self.fee).is_none() {
            return Err(Error::Validation(String::from_str("Transaction amount and fee overflow")));
        }
        let message = self.serialized_for_signing();
        crate::crypto::verify_signature(&self.sender, &self.signature, message.as_slice())
    }

    /// The transaction hash: SHA-256 over the signing preimage, which does
    /// not include the signature.
    pub fn hash(&self) -> (r: crate::types::Hash)
        ensures
            r@ == tx_hash_of(self@),
    {
        let message = self.serialized_for_signing();
        crate::crypto::hash_data(message.as_slice())
    }

    /// Estimated serialized size in bytes: 161 plus the payload length.
    pub fn estimate_size(&self) -> (r: usize)
        requires
            self@.data.len() <= usize::MAX - 161,
        ensures
            r == spec_estimate_size(self@),
    {
        161 + self.data.len()
    }

    /// Fee per byte: the fee divided by the estimated size.
    pub fn fee_per_byte(&self) -> (r: u64)
        requires
            self@.data.len() <= usize::MAX - 161,
        ensures
            r == spec_fee_per_byte(self@),
    {
        let size = self.estimate_size() as u64;
        self.fee / size
    }

    /// Whether the transaction meets a minimum fee-per-byte floor.
    pub fn meets_fee_requirement(&self, min_fee_per_byte: u64) -> (r: bool)
        requires
            self@.data.len() <= usize::MAX - 161,
        ensures
            r == (spec_fee_per_byte(self@) >= min_fee_per_byte),
    {
        self.fee_per_byte() >= min_fee_per_byte
    }
}

} // verus!
// laws

verus! {

/// The transaction hash does not depend on the signature: two transactions
/// equal in everything but their signatures hash alike, and the hash is a
/// function of the signing preimage alone.
pub proof fn lemma_hash_ignores_signature(t: TransactionV, sig: Seq<u8>)
    ensures
        signing_preimage(TransactionV { signature: sig, ..t }) == signing_preimage(t),
        tx_hash_of(TransactionV { signature: sig, ..t }) == tx_hash_of(t),
{
}

/// The transaction hash is a deterministic function of the preimage: equal
/// preimages give equal hashes.
pub proof fn lemma_hash_deterministic(t1: TransactionV, t2: TransactionV)
    requires
        signing_preimage(t1) == signing_preimage(t2),
    ensures
        tx_hash_of(t1) == tx_hash_of(t2),
{
}

} // verus!
