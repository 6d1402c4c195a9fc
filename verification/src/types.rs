use vstd::prelude::*;

verus! {

/// Hash value used throughout the chain (SHA-256 output, 32 bytes).
pub type Hash = [u8; 32];

/// Public key bytes (Ed25519, 32 bytes); also used as an account address.
pub type PublicKeyBytes = [u8; 32];

/// Private key bytes (Ed25519 seed, 32 bytes).
pub type PrivateKeyBytes = [u8; 32];

/// Signature bytes (Ed25519, 64 bytes).
pub type SignatureBytes = [u8; 64];

/// The all-zero hash, used as the previous-hash of a genesis block and as
/// the Merkle root of an empty transaction list.
pub open spec fn zero_hash() -> Seq<u8> {
    Seq::new(32, |i: int| 0u8)
}

/// The all-zero signature carried by an unsigned transaction or header.
pub open spec fn zero_signature() -> Seq<u8> {
    Seq::new(64, |i: int| 0u8)
}

/// Returns the all-zero 32-byte value.
pub fn make_zero_hash() -> (r: Hash)
    ensures
        r@ == zero_hash(),
{
    let h: Hash = [0u8; 32];
    proof {
        assert(h@ =~= zero_hash());
    }
    h
}

/// Byte-wise equality of two 32-byte values.
pub fn hash_eq(a: &Hash, b: &Hash) -> (r: bool)
    ensures
        r == (a@ =~= b@),
{
    let mut i: usize = 0;
    while i < 32
        invariant
            i <= 32,
            forall|j: int| 0 <= j < i ==> a@[j] == b@[j],
        decreases 32 - i,
    {
        if a[i] != b[i] {
            assert(a@[i as int] != b@[i as int]);
            assert(!(a@ =~= b@));
            return false;
        }
        i = i + 1;
    }
    proof {
        assert(a@ =~= b@);
    }
    true
}

} // verus!
