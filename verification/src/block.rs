//! Blocks and block headers: canonical header preimage, header signing and
//! verification, Merkle root computation and whole-block validation.

use vstd::prelude::*;

verus! {

use crate::types::{PublicKeyBytes, SignatureBytes};
use crate::crypto::{ed25519_sign_of, ed25519_verify_of, merkle_root_of, sha256_of};
use crate::transaction::{Transaction, TransactionV, tx_hash_of, tx_verify_ok};
use crate::Error;
use vstd::bytes::{spec_u64_to_le_bytes, u64_to_le_bytes};

/// Block header metadata.
#[derive(Clone, Copy)]
pub struct BlockHeader {
    /// Protocol version.
    pub version: u8,
    /// Previous block hash.
    pub prev_hash: crate::types::Hash,
    /// Merkle root of the transaction hashes.
    pub merkle_root: crate::types::Hash,
    /// Block timestamp, in milliseconds since the Unix epoch.
    pub timestamp: u64,
    /// Block height.
    pub height: u64,
    /// Validator public key.
    pub validator: PublicKeyBytes,
    /// Validator signature over the header preimage.
    pub signature: SignatureBytes,
}

/// The mathematical shape of a block header.
pub struct BlockHeaderV {
    pub version: u8,
    pub prev_hash: Seq<u8>,
    pub merkle_root: Seq<u8>,
    pub timestamp: u64,
    pub height: u64,
    pub validator: Seq<u8>,
    pub signature: Seq<u8>,
}

impl View for BlockHeader {
    type V = BlockHeaderV;

    open spec fn view(&self) -> BlockHeaderV {
        BlockHeaderV {
            version: self.version,
            prev_hash: self.prev_hash@,
            merkle_root: self.merkle_root@,
            timestamp: self.timestamp,
            height: self.height,
            validator: self.validator@,
            signature: self.signature@,
        }
    }
}

/// The canonical header preimage: version, previous hash, Merkle root,
/// timestamp and height (little-endian), then validator. All widths are
/// fixed, so there is no length prefix; the signature is not part of it.
pub open spec fn header_preimage(h: BlockHeaderV) -> Seq<u8> {
    seq![h.version] + h.prev_hash + h.merkle_root + spec_u64_to_le_bytes(h.timestamp)
        + spec_u64_to_le_bytes(h.height) + h.validator
}

/// The header hash: SHA-256 over the header preimage.
pub open spec fn header_hash_of(h: BlockHeaderV) -> Seq<u8> {
    sha256_of(header_preimage(h))
}

impl BlockHeader {
    /// Create a new block header, stamped with the current wall-clock time
    /// and carrying an all-zero signature.
    pub fn new(
        version: u8,
        prev_hash: crate::types::Hash,
        merkle_root: crate::types::Hash,
        height: u64,
        validator: PublicKeyBytes,
    ) -> (r: BlockHeader)
        ensures
            r@ == (BlockHeaderV {
                version,
                prev_hash: prev_hash@,
                merkle_root: merkle_root@,
                timestamp: r@.timestamp,
                height,
                validator: validator@,
                signature: crate::types::zero_signature(),
            }),
    {
        let timestamp = crate::clock::now_millis();
        let signature: SignatureBytes = [0u8; 64];
        proof {
            assert(signature@ =~= crate::types::zero_signature());
        }
        BlockHeader { version, prev_hash, merkle_root, timestamp, height, validator, signature }
    }

    /// The canonical byte string that is hashed.
    pub fn serialize_for_hashing(&self) -> (r: Vec<u8>)
        ensures
            r@ == header_preimage(self@),
    {
        let mut out: Vec<u8> = Vec::new();
        out.push(self.version);
        out.extend_from_slice(self.prev_hash.as_slice());
        out.extend_from_slice(self.merkle_root.as_slice());
        let ts_bytes = u64_to_le_bytes(self.timestamp);
        out.extend_from_slice(ts_bytes.as_slice());
        let height_bytes = u64_to_le_bytes(self.height);
        out.extend_from_slice(height_bytes.as_slice());
        out.extend_from_slice(self.validator.as_slice());
        proof {
            assert(out@ =~= header_preimage(self@));
        }
        out
    }

    /// The canonical byte string that is signed: the same as for hashing.
    pub fn serialize_for_signing(&self) -> (r: Vec<u8>)
        ensures
            r@ == header_preimage(self@),
    {
        self.serialize_for_hashing()
    }

    /// Sign the block header with the given private key.
    pub fn sign(&mut self, private_key: &crate::types::PrivateKeyBytes) -> (r: Result<(), Error>)
        ensures
            r is Ok,
            final(self)@ == (BlockHeaderV { signature: final(self)@.signature, ..old(self)@ }),
            final(self)@.signature == ed25519_sign_of(private_key@, header_preimage(old(self)@)),
            ed25519_verify_of(
                crate::crypto::ed25519_pubkey_of(private_key@),
                final(self)@.signature,
                header_preimage(final(self)@),
            ),
    {
        let bytes = self.serialize_for_signing();
        match crate::crypto::sign_message(private_key, bytes.as_slice()) {
            Ok(signature) => {
                self.signature = signature;
                proof {
                    assert(header_preimage(self@) =~= header_preimage(old(self)@));
                }
                Ok(())
            },
            Err(e) => Err(e),
        }
    }

    /// Verify the header signature against the validator key: succeeds
    /// exactly when the signature covers the header preimage.
    pub fn verify_signature(&self) -> (r: Result<(), Error>)
        ensures
            r is Ok <==> ed25519_verify_of(self@.validator, self@.signature, header_preimage(self@)),
            r is Err ==> r->Err_0 is Crypto,
    {
        let bytes = self.serialize_for_signing();
        crate::crypto::verify_signature(&self.validator, &self.signature, bytes.as_slice())
    }

    /// The hash of this block header.
    pub fn hash(&self) -> (r: crate::types::Hash)
        ensures
            r@ == header_hash_of(self@),
    {
        let bytes = self.serialize_for_hashing();
        crate::crypto::hash_data(bytes.as_slice())
    }
}

/// A full block: a header and its transactions.
pub struct Block {
    /// Block header.
    pub header: BlockHeader,
    /// Block transactions.
    pub transactions: Vec<Transaction>,
}

/// The mathematical shape of a block.
pub struct BlockV {
    pub header: BlockHeaderV,
    pub transactions: Seq<TransactionV>,
}

impl View for Block {
    type V = BlockV;

    open spec fn view(&self) -> BlockV {
        BlockV {
            header: self.header@,
            transactions: self.transactions@.map_values(|t: Transaction| t@),
        }
    }
}

impl Clone for Block {
    /// Copies the block; the copy has the same view.
    fn clone(&self) -> (r: Self)
        ensures
            r@ == self@,
    {
        let mut transactions: Vec<Transaction> = Vec::new();
        let mut i: usize = 0;
        while i < self.transactions.len()
            invariant
                i <= self.transactions@.len(),
                transactions@.len() == i,
                forall|j: int|
                    0 <= j < i ==> #[trigger] transactions@[j]@ == self.transactions@[j]@,
            decreases self.transactions@.len() - i,
        {
            let tx = self.transactions[i].clone();
            transactions.push(tx);
            i = i + 1;
        }
        let r = Block { header: self.header, transactions };
        proof {
            assert(r@.transactions =~= self@.transactions);
        }
        r
    }
}

/// The hashes of a block's transactions, in order.
pub open spec fn tx_hashes_of(ts: Seq<TransactionV>) -> Seq<Seq<u8>> {
    ts.map_values(|t: TransactionV| tx_hash_of(t))
}

/// A block is valid when its header's Merkle root equals the root of its
/// transaction hashes, the header signature covers the header preimage
/// under the validator key, and every transaction verifies.
pub open spec fn block_valid(b: BlockV) -> bool {
    &&& b.header.merkle_root == merkle_root_of(tx_hashes_of(b.transactions))
    &&& ed25519_verify_of(b.header.validator, b.header.signature, header_preimage(b.header))
    &&& forall|i: int| 0 <= i < b.transactions.len() ==> tx_verify_ok(#[trigger] b.transactions[i])
}

/// Compute the Merkle root of a list of transactions' hashes.
pub fn compute_merkle_root(transactions: &[Transaction]) -> (r: Result<crate::types::Hash, Error>)
    ensures
        r is Ok,
        r->Ok_0@ == merkle_root_of(tx_hashes_of(transactions@.map_values(|t: Transaction| t@))),
{
    let mut hashes: Vec<crate::types::Hash> = Vec::new();
    let mut i: usize = 0;
    while i < transactions.len()
        invariant
            i <= transactions@.len(),
            hashes@.len() == i,
            forall|j: int|
                0 <= j < i ==> #[trigger] hashes@[j]@ == tx_hash_of(transactions@[j]@),
        decreases transactions@.len() - i,
    {
        let h = transactions[i].hash();
        hashes.push(h);
        i = i + 1;
    }
    let root = crate::crypto::compute_merkle_root(hashes.as_slice());
    proof {
        assert(crate::crypto::hash_views(hashes@) =~= tx_hashes_of(
            transactions@.map_values(|t: Transaction| t@),
        ));
    }
    Ok(root)
}

impl Block {
    /// Create a new block over the given transactions: a version-1 header
    /// carrying their Merkle root, stamped with the current time, unsigned.
    pub fn new(
        prev_hash: crate::types::Hash,
        height: u64,
        transactions: Vec<Transaction>,
        validator: PublicKeyBytes,
    ) -> (r: Result<Block, Error>)
        ensures
            r is Ok,
            r->Ok_0@.header == (BlockHeaderV {
                version: 1,
                prev_hash: prev_hash@,
                merkle_root: merkle_root_of(
                    tx_hashes_of(transactions@.map_values(|t: Transaction| t@)),
                ),
                timestamp: r->Ok_0@.header.timestamp,
                height,
                validator: validator@,
                signature: crate::types::zero_signature(),
            }),
            r->Ok_0@.transactions == transactions@.map_values(|t: Transaction| t@),
    {
        let merkle_root = match compute_merkle_root(transactions.as_slice()) {
            Ok(root) => root,
            Err(e) => {
                return Err(e);
            },
        };
        let header = BlockHeader::new(1, prev_hash, merkle_root, height, validator);
        Ok(Block { header, transactions })
    }

    /// Create a genesis block: height 0 and an all-zero previous hash.
    pub fn genesis(validator: PublicKeyBytes, initial_transactions: Vec<Transaction>) -> (r: Result<
        Block,
        Error,
    >)
        ensures
            r is Ok,
            r->Ok_0@.header.height == 0,
            r->Ok_0@.header.prev_hash == crate::types::zero_hash(),
            r->Ok_0@.header.version == 1,
            r->Ok_0@.transactions == initial_transactions@.map_values(|t: Transaction| t@),
    {
        let prev_hash = crate::types::make_zero_hash();
        Self::new(prev_hash, 0, initial_transactions, validator)
    }

    /// Validate the block: succeeds exactly when the Merkle root matches
    /// the transactions, the header signature verifies, and every
    /// transaction verifies.
    pub fn validate(&self) -> (r: Result<(), Error>)
        ensures
            r is Ok <==> block_valid(self@),
    {
        let computed_root = match compute_merkle_root(self.transactions.as_slice()) {
            Ok(root) => root,
            Err(e) => {
                return Err(e);
            },
        };
        if !crate::types::hash_eq(&computed_root, &self.header.merkle_root) {
            return Err(Error::Validation(String::from_str("Invalid merkle root")));
        }
        match self.header.verify_signature() {
            Ok(_) => {},
            Err(e) => {
                return Err(e);
            },
        }
        let mut i: usize = 0;
        while i < self.transactions.len()
            invariant
                i <= self.transactions@.len(),
                forall|j: int| 0 <= j < i ==> tx_verify_ok(#[trigger] self.transactions@[j]@),
            decreases self.transactions@.len() - i,
        {
            match self.transactions[i].verify() {
                Ok(_) => {},
                Err(e) => {
                    proof {
                        assert(!tx_verify_ok(self@.transactions[i as int]));
                    }
                    return Err(e);
                },
            }
            i = i + 1;
        }
        proof {
            assert(forall|j: int|
                0 <= j < self@.transactions.len() ==> tx_verify_ok(#[trigger] self@.transactions[j]));
        }
        Ok(())
    }
}

} // verus!
