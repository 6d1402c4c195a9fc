//! Cryptographic primitives: SHA-256 hashing, Ed25519 signatures, HMAC,
//! Merkle roots and hex utilities.
//!
//! The hash, signature and HMAC computations are performed by outside
//! crates behind trusted wrappers; their results are named by
//! uninterpreted spec functions. The Merkle root, batch verification and
//! hex utilities are verified code built on top of them.

use vstd::prelude::*;

use ed25519_dalek::Signer;
use hmac::KeyInit;
use hmac::Mac;
use rand::RngCore;
use sha2::Digest;
use zeroize::Zeroize;

verus! {

use crate::types::{PrivateKeyBytes, PublicKeyBytes, SignatureBytes, zero_hash};
use crate::strfmt::{hex_chars_of, hex_of_bytes, hex_val, parse_hex_digit};
use vstd::string::StringSliceAdditionalSpecFns;
use crate::Error;

/// The SHA-256 digest of a byte sequence (32 bytes).
pub uninterp spec fn sha256_of(data: Seq<u8>) -> Seq<u8>;

/// The Ed25519 signature of a message under a 32-byte private key (64 bytes).
pub uninterp spec fn ed25519_sign_of(sk: Seq<u8>, msg: Seq<u8>) -> Seq<u8>;

/// The Ed25519 public key derived from a 32-byte private key (32 bytes).
pub uninterp spec fn ed25519_pubkey_of(sk: Seq<u8>) -> Seq<u8>;

/// Whether strict Ed25519 verification of `sig` over `msg` under the public
/// key bytes `pk` succeeds (including decoding of the key and signature).
pub uninterp spec fn ed25519_verify_of(pk: Seq<u8>, sig: Seq<u8>, msg: Seq<u8>) -> bool;

/// The HMAC-SHA256 authentication code of a message under a key (32 bytes).
pub uninterp spec fn hmac_sha256_of(key: Seq<u8>, msg: Seq<u8>) -> Seq<u8>;

/// Hash arbitrary data using SHA-256.
///
/// Relies on sha2::Sha256 (Digest): the 32-byte digest is a function of the
/// input bytes alone.
#[verifier::external_body]
pub fn hash_data(data: &[u8]) -> (r: crate::types::Hash)
    ensures
        r@ == sha256_of(data@),
{
    let out = sha2::Sha256::digest(data);
    let mut hash = [0u8; 32];
    hash.copy_from_slice(&out);
    hash
}

/// Relies on ed25519_dalek::SigningKey::from_bytes and Signer::sign: signing
/// is deterministic (RFC 8032), a function of key and message alone, and the
/// produced signature passes strict verification under the derived public key.
#[verifier::external_body]
fn ed25519_sign_bytes(sk: &PrivateKeyBytes, msg: &[u8]) -> (r: SignatureBytes)
    ensures
        r@ == ed25519_sign_of(sk@, msg@),
        ed25519_verify_of(ed25519_pubkey_of(sk@), r@, msg@),
{
    let signing_key = ed25519_dalek::SigningKey::from_bytes(sk);
    signing_key.sign(msg).to_bytes()
}

/// Relies on ed25519_dalek::SigningKey::from_bytes and
/// SigningKey::verifying_key: the public key is a function of the private
/// key bytes alone, and derivation never fails for 32-byte inputs.
#[verifier::external_body]
fn ed25519_pubkey_bytes(sk: &PrivateKeyBytes) -> (r: PublicKeyBytes)
    ensures
        r@ == ed25519_pubkey_of(sk@),
{
    ed25519_dalek::SigningKey::from_bytes(sk).verifying_key().to_bytes()
}

/// Verify a signature against a message and public key.
///
/// Relies on ed25519_dalek::VerifyingKey::from_bytes,
/// ed25519::Signature::from_bytes and VerifyingKey::verify_strict: the
/// outcome is a function of the three byte strings alone.
#[verifier::external_body]
pub fn verify_signature(public_key: &PublicKeyBytes, signature: &SignatureBytes, message: &[u8]) -> (r:
    Result<(), Error>)
    ensures
        r is Ok <==> ed25519_verify_of(public_key@, signature@, message@),
        r is Err ==> r->Err_0 is Crypto,
{
    let public = match ed25519_dalek::VerifyingKey::from_bytes(public_key) {
        Ok(pk) => pk,
        Err(_) => return Err(Error::Crypto("Invalid public key".to_string())),
    };
    let sig = ed25519_dalek::Signature::from_bytes(signature);
    public.verify_strict(message, &sig).map_err(|_| {
        Error::Crypto("Signature verification failed".to_string())
    })
}

/// Relies on rand::rngs::OsRng (RngCore::fill_bytes): fills the buffer from
/// the operating system's random source; nothing is promised of the value.
/// fill_bytes aborts the process if that source fails, an environmental
/// fault outside this library's control.
#[verifier::external_body]
fn os_random_32() -> [u8; 32] {
    let mut bytes = [0u8; 32];
    rand::rngs::OsRng.fill_bytes(&mut bytes);
    bytes
}

/// Compute a keyed hash using HMAC-SHA256.
///
/// Relies on hmac::Hmac<sha2::Sha256> (KeyInit::new_from_slice and Mac):
/// accepts keys of any length, and the 32-byte code is a function of key
/// and message alone.
#[verifier::external_body]
pub fn hmac_sha256(key: &[u8], message: &[u8]) -> (r: crate::types::Hash)
    ensures
        r@ == hmac_sha256_of(key@, message@),
{
    let mut mac = <hmac::Hmac<sha2::Sha256> as KeyInit>::new_from_slice(key)
        .expect("HMAC accepts keys of any size");
    mac.update(message);
    let out = mac.finalize().into_bytes();
    let mut hash = [0u8; 32];
    hash.copy_from_slice(&out);
    hash
}

/// Generate a secure random value from the operating system's generator.
pub fn generate_secure_random() -> crate::types::Hash {
    os_random_32()
}

/// An Ed25519 key pair held as plain bytes.
pub struct KeyPair {
    /// Public key bytes.
    pub public_key: PublicKeyBytes,
    /// Private key bytes.
    pub private_key: PrivateKeyBytes,
}

/// A key pair is well formed when its public key is the one derived from
/// its private key.
pub open spec fn keypair_wf(kp: KeyPair) -> bool {
    kp.public_key@ == ed25519_pubkey_of(kp.private_key@)
}

impl KeyPair {
    /// Generate a new key pair from the system's random source.
    pub fn generate() -> (r: Result<KeyPair, Error>)
        ensures
            r is Ok,
            keypair_wf(r->Ok_0),
    {
        let private_key = os_random_32();
        let public_key = ed25519_pubkey_bytes(&private_key);
        Ok(KeyPair { public_key, private_key })
    }

    /// Create a key pair from an existing private key.
    pub fn from_private_key(private_key: &PrivateKeyBytes) -> (r: Result<KeyPair, Error>)
        ensures
            r is Ok,
            keypair_wf(r->Ok_0),
            r->Ok_0.private_key@ == private_key@,
    {
        let public_key = ed25519_pubkey_bytes(private_key);
        Ok(KeyPair { public_key, private_key: *private_key })
    }

    /// Sign a message with this key pair.
    pub fn sign(&self, message: &[u8]) -> (r: SignatureBytes)
        ensures
            r@ == ed25519_sign_of(self.private_key@, message@),
            ed25519_verify_of(ed25519_pubkey_of(self.private_key@), r@, message@),
    {
        ed25519_sign_bytes(&self.private_key, message)
    }

    /// Derive a child key pair from this one at a numeric path index.
    /// The derivation is deterministic: the child private key is the
    /// SHA-256 digest of this private key followed by the index bytes.
    pub fn derive_child_key(&self, path: u32) -> (r: Result<KeyPair, Error>)
        ensures
            r is Ok,
            keypair_wf(r->Ok_0),
            r->Ok_0.private_key@ == sha256_of(
                self.private_key@ + vstd::bytes::spec_u32_to_le_bytes(path),
            ),
    {
        let mut derivation_data: Vec<u8> = Vec::new();
        derivation_data.extend_from_slice(self.private_key.as_slice());
        let path_bytes = vstd::bytes::u32_to_le_bytes(path);
        derivation_data.extend_from_slice(path_bytes.as_slice());
        proof {
            assert(derivation_data@ =~= self.private_key@ + vstd::bytes::spec_u32_to_le_bytes(
                path,
            ));
        }
        let derived_private_key = hash_data(derivation_data.as_slice());
        KeyPair::from_private_key(&derived_private_key)
    }

    /// Overwrite the private key material in place.
    ///
    /// Relies on zeroize::Zeroize for [u8; 32]: the buffer is filled with
    /// zeroes and the write is not elided.
    #[verifier::external_body]
    pub fn zeroize(&mut self)
        ensures
            final(self).private_key@ == zero_hash(),
            final(self).public_key@ == old(self).public_key@,
    {
        self.private_key.zeroize();
    }
}

/// Sign a message with a private key.
pub fn sign_message(private_key: &PrivateKeyBytes, message: &[u8]) -> (r: Result<
    SignatureBytes,
    Error,
>)
    ensures
        r is Ok,
        r->Ok_0@ == ed25519_sign_of(private_key@, message@),
        ed25519_verify_of(ed25519_pubkey_of(private_key@), r->Ok_0@, message@),
{
    Ok(ed25519_sign_bytes(private_key, message))
}

/// The SHA-256 digest of the concatenation of two hashes.
pub open spec fn hash_pair_of(left: Seq<u8>, right: Seq<u8>) -> Seq<u8> {
    sha256_of(left + right)
}

/// Hash two hashes together (used for Merkle tree levels).
pub fn hash_pair(left: &crate::types::Hash, right: &crate::types::Hash) -> (r: crate::types::Hash)
    ensures
        r@ == hash_pair_of(left@, right@),
{
    let mut data: Vec<u8> = Vec::new();
    data.extend_from_slice(left.as_slice());
    data.extend_from_slice(right.as_slice());
    proof {
        assert(data@ =~= left@ + right@);
    }
    hash_data(data.as_slice())
}

/// A Merkle level with its last element duplicated when its length is odd.
pub open spec fn merkle_pad(level: Seq<Seq<u8>>) -> Seq<Seq<u8>> {
    if level.len() % 2 == 1 {
        level.push(level.last())
    } else {
        level
    }
}

/// The parent level of an even-length Merkle level.
pub open spec fn merkle_parents(level: Seq<Seq<u8>>) -> Seq<Seq<u8>> {
    Seq::new(level.len() / 2, |i: int| hash_pair_of(level[2 * i], level[2 * i + 1]))
}

/// The Merkle root of a sequence of leaf hashes: the zero hash of an empty
/// sequence, the leaf itself of a singleton, and otherwise the root of the
/// parent level, duplicating the last element of an odd level.
pub open spec fn merkle_root_of(level: Seq<Seq<u8>>) -> Seq<u8>
    decreases level.len(),
{
    if level.len() == 0 {
        zero_hash()
    } else if level.len() == 1 {
        level[0]
    } else {
        merkle_root_of(merkle_parents(merkle_pad(level)))
    }
}

/// The views of a sequence of hash values.
pub open spec fn hash_views(s: Seq<crate::types::Hash>) -> Seq<Seq<u8>> {
    s.map_values(|h: crate::types::Hash| h@)
}

/// Compute the Merkle root of a list of leaf hashes.
pub fn compute_merkle_root(leaf_hashes: &[crate::types::Hash]) -> (r: crate::types::Hash)
    ensures
        r@ == merkle_root_of(hash_views(leaf_hashes@)),
{
    if leaf_hashes.len() == 0 {
        return crate::types::make_zero_hash();
    }
    let mut hashes: Vec<crate::types::Hash> = vstd::slice::slice_to_vec(leaf_hashes);
    while hashes.len() > 1
        invariant
            hashes@.len() >= 1,
            merkle_root_of(hash_views(hashes@)) == merkle_root_of(hash_views(leaf_hashes@)),
        decreases hashes@.len(),
    {
        let ghost pre = hash_views(hashes@);
        if hashes.len() % 2 != 0 {
            let last = hashes[hashes.len() - 1];
            hashes.push(last);
        }
        proof {
            assert(hash_views(hashes@) =~= merkle_pad(pre));
        }
        let ghost padded = hash_views(hashes@);
        let mut next_level: Vec<crate::types::Hash> = Vec::new();
        let mut i: usize = 0;
        while i + 1 < hashes.len()
            invariant
                hashes@.len() % 2 == 0,
                i % 2 == 0,
                i <= hashes@.len(),
                padded == hash_views(hashes@),
                next_level@.len() == i / 2,
                forall|j: int|
                    0 <= j < next_level@.len() ==> #[trigger] next_level@[j]@ == hash_pair_of(
                        padded[2 * j],
                        padded[2 * j + 1],
                    ),
            decreases hashes@.len() - i,
        {
            let parent = hash_pair(&hashes[i], &hashes[i + 1]);
            next_level.push(parent);
            i = i + 2;
        }
        proof {
            assert(i == hashes@.len());
            assert(hash_views(next_level@) =~= merkle_parents(padded));
        }
        hashes = next_level;
    }
    let root = hashes[0];
    proof {
        assert(hash_views(hashes@).len() == 1);
        assert(merkle_root_of(hash_views(hashes@)) == hash_views(hashes@)[0]);
        assert(root@ == hash_views(hashes@)[0]);
    }
    root
}

/// The Merkle root cases: the empty sequence yields the zero hash, a
/// singleton yields its leaf, and a longer odd-length level has the same
/// root as that level with its last element duplicated.
pub proof fn lemma_merkle_root_cases(level: Seq<Seq<u8>>)
    ensures
        level.len() == 0 ==> merkle_root_of(level) == zero_hash(),
        level.len() == 1 ==> merkle_root_of(level) == level[0],
        level.len() > 1 && level.len() % 2 == 1 ==> merkle_root_of(level) == merkle_root_of(
            level.push(level.last()),
        ),
{
    if level.len() > 1 && level.len() % 2 == 1 {
        let padded = level.push(level.last());
        assert(merkle_pad(level) == padded);
        assert(padded.len() % 2 == 0);
        assert(merkle_pad(padded) =~= padded);
        assert(merkle_root_of(level) == merkle_root_of(merkle_parents(padded)));
        assert(merkle_root_of(padded) == merkle_root_of(merkle_parents(padded)));
    }
}

/// Verify several signatures; fails on a length mismatch, or on the first
/// triple that does not verify, naming its position.
pub fn batch_verify_signatures(
    messages: &[&[u8]],
    signatures: &[&SignatureBytes],
    public_keys: &[&PublicKeyBytes],
) -> (r: Result<(), Error>)
    ensures
        r is Ok <==> {
            &&& messages@.len() == signatures@.len()
            &&& messages@.len() == public_keys@.len()
            &&& forall|i: int|
                0 <= i < messages@.len() ==> ed25519_verify_of(
                    public_keys@[i]@,
                    signatures@[i]@,
                    messages@[i]@,
                )
        },
        r is Err ==> r->Err_0 is Crypto,
        !(messages@.len() == signatures@.len() && messages@.len() == public_keys@.len()) ==> r
            is Err && r->Err_0->Crypto_0@ == "Mismatched array lengths for batch verification"@,
        messages@.len() == signatures@.len() && messages@.len() == public_keys@.len() ==> forall|
            j: int,
        |
            (0 <= j < messages@.len() && !ed25519_verify_of(
                (#[trigger] public_keys@[j])@,
                signatures@[j]@,
                messages@[j]@,
            ) && (forall|p: int|
                0 <= p < j ==> ed25519_verify_of(
                    (#[trigger] public_keys@[p])@,
                    signatures@[p]@,
                    messages@[p]@,
                ))) ==> r is Err && r->Err_0->Crypto_0@
                == "Signature verification failed at index "@ + crate::strfmt::dec_chars_of(j),
{
    if messages.len() != signatures.len() || messages.len() != public_keys.len() {
        return Err(
            Error::Crypto(String::from_str("Mismatched array lengths for batch verification")),
        );
    }
    let mut i: usize = 0;
    while i < messages.len()
        invariant
            i <= messages@.len(),
            messages@.len() == signatures@.len(),
            messages@.len() == public_keys@.len(),
            forall|j: int|
                0 <= j < i ==> ed25519_verify_of(
                    (#[trigger] public_keys@[j])@,
                    signatures@[j]@,
                    messages@[j]@,
                ),
        decreases messages@.len() - i,
    {
        let msg: &[u8] = messages[i];
        let sig: &SignatureBytes = signatures[i];
        let pk: &PublicKeyBytes = public_keys[i];
        match verify_signature(pk, sig, msg) {
            Ok(_) => {},
            Err(_) => {
                let mut message = String::from_str("Signature verification failed at index ");
                let index_text = crate::strfmt::u64_to_string(i as u64);
                message.append(index_text.as_str());
                return Err(Error::Crypto(message));
            },
        }
        i = i + 1;
    }
    Ok(())
}

/// Get a lowercase hex representation of a hash.
pub fn hash_to_hex(hash: &crate::types::Hash) -> (r: String)
    ensures
        r@ == hex_chars_of(hash@),
{
    hex_of_bytes(hash.as_slice())
}

/// The 32 bytes denoted by 64 hex digit bytes, if all digits are valid.
pub open spec fn hex_parse32(s: Seq<u8>) -> Option<Seq<u8>> {
    if s.len() == 64 && (forall|i: int| 0 <= i < 64 ==> hex_val(#[trigger] s[i]) is Some) {
        Some(
            Seq::new(
                32,
                |i: int| (hex_val(s[2 * i])->Some_0 * 16 + hex_val(s[2 * i + 1])->Some_0) as u8,
            ),
        )
    } else {
        None
    }
}

/// Parse a hex string into a hash.
pub fn hex_to_hash(hex_str: &str) -> (r: Result<crate::types::Hash, Error>)
    ensures
        r is Ok ==> hex_parse32(hex_str.spec_bytes()) == Some(r->Ok_0@),
        r is Err ==> hex_parse32(hex_str.spec_bytes()) is None,
        r is Err ==> r->Err_0 is Crypto,
{
    let bytes: &[u8] = hex_str.as_bytes();
    if bytes.len() != 64 {
        return Err(Error::Crypto(String::from_str("Invalid hex string length")));
    }
    let mut hash: crate::types::Hash = [0u8; 32];
    let mut i: usize = 0;
    while i < 32
        invariant
            i <= 32,
            bytes@.len() == 64,
            bytes@ == hex_str.spec_bytes(),
            forall|j: int| 0 <= j < 2 * i ==> hex_val(#[trigger] bytes@[j]) is Some,
            forall|j: int|
                0 <= j < i ==> #[trigger] hash@[j] == (hex_val(bytes@[2 * j])->Some_0 * 16
                    + hex_val(bytes@[2 * j + 1])->Some_0) as u8,
        decreases 32 - i,
    {
        let hi = match parse_hex_digit(bytes[2 * i]) {
            Some(v) => v,
            None => {
                return Err(Error::Crypto(String::from_str("Invalid hex string")));
            },
        };
        let lo = match parse_hex_digit(bytes[2 * i + 1]) {
            Some(v) => v,
            None => {
                return Err(Error::Crypto(String::from_str("Invalid hex string")));
            },
        };
        hash[i] = hi * 16 + lo;
        i = i + 1;
    }
    proof {
        assert(hex_parse32(bytes@) is Some);
        assert(hex_parse32(bytes@)->Some_0 =~= hash@);
    }
    Ok(hash)
}

} // verus!
// the hex round trip

verus! {

/// The two digits a byte renders to, by position.
proof fn lemma_hex_chars_index(bytes: Seq<u8>, i: int)
    requires
        0 <= i < bytes.len(),
    ensures
        hex_chars_of(bytes).len() == 2 * bytes.len(),
        hex_chars_of(bytes)[2 * i] == crate::strfmt::hex_char(bytes[i] as int / 16),
        hex_chars_of(bytes)[2 * i + 1] == crate::strfmt::hex_char(bytes[i] as int % 16),
    decreases i,
{
    lemma_hex_chars_len(bytes);
    if i == 0 {
    } else {
        lemma_hex_chars_index(bytes.skip(1), i - 1);
        assert(bytes.skip(1)[i - 1] == bytes[i]);
    }
}

/// Two digits per byte.
proof fn lemma_hex_chars_len(bytes: Seq<u8>)
    ensures
        hex_chars_of(bytes).len() == 2 * bytes.len(),
    decreases bytes.len(),
{
    if bytes.len() > 0 {
        lemma_hex_chars_len(bytes.skip(1));
    }
}

/// Every hex digit is an ASCII character.
proof fn lemma_hex_char_ascii(n: int)
    ensures
        '\u{0}' <= crate::strfmt::hex_char(n) <= '\u{7f}',
        hex_val(crate::strfmt::hex_char(n) as u8) == (if 0 <= n < 16 {
            Some(n as u8)
        } else {
            Some(15u8)
        }),
{
}

/// Rendering 32 bytes as hex and reading the digits back as bytes parses
/// to the original bytes: the hex encoding round-trips.
pub proof fn lemma_hex_round_trip(h: Seq<u8>)
    requires
        h.len() == 32,
    ensures
        hex_chars_of(h).len() == 64,
        vstd::utf8::is_ascii_chars(hex_chars_of(h)),
        hex_parse32(Seq::new(64, |i: int| hex_chars_of(h)[i] as u8)) == Some(h),
{
    lemma_hex_chars_len(h);
    let chars = hex_chars_of(h);
    assert forall|i: int| 0 <= i < chars.len() implies '\u{0}' <= #[trigger] chars[i]
        <= '\u{7f}' by {
        let b = i / 2;
        lemma_hex_chars_index(h, b);
        if i % 2 == 0 {
            assert(i == 2 * b);
            lemma_hex_char_ascii(h[b] as int / 16);
        } else {
            assert(i == 2 * b + 1);
            lemma_hex_char_ascii(h[b] as int % 16);
        }
    }
    let s = Seq::new(64, |i: int| chars[i] as u8);
    assert forall|i: int| 0 <= i < 64 implies hex_val(#[trigger] s[i]) is Some by {
        let b = i / 2;
        lemma_hex_chars_index(h, b);
        if i % 2 == 0 {
            assert(i == 2 * b);
            lemma_hex_char_ascii(h[b] as int / 16);
        } else {
            assert(i == 2 * b + 1);
            lemma_hex_char_ascii(h[b] as int % 16);
        }
    }
    let parsed = hex_parse32(s)->Some_0;
    assert forall|b: int| 0 <= b < 32 implies #[trigger] parsed[b] == h[b] by {
        lemma_hex_chars_index(h, b);
        lemma_hex_char_ascii(h[b] as int / 16);
        lemma_hex_char_ascii(h[b] as int % 16);
        assert(hex_val(s[2 * b]) == Some((h[b] as int / 16) as u8));
        assert(hex_val(s[2 * b + 1]) == Some((h[b] as int % 16) as u8));
    }
    assert(parsed =~= h);
}

/// A string that renders 32 bytes as hex parses back to them: the byte
/// reading of its characters is the character-to-byte mapping, since every
/// hex digit is ASCII.
pub proof fn lemma_hex_string_parses(s: &str, h: Seq<u8>)
    requires
        s@ == hex_chars_of(h),
        h.len() == 32,
    ensures
        hex_parse32(s.spec_bytes()) == Some(h),
{
    lemma_hex_round_trip(h);
    assert(vstd::string::is_ascii(s));
    vstd::string::is_ascii_spec_bytes(s);
    assert(s.spec_bytes() =~= Seq::new(64, |i: int| hex_chars_of(h)[i] as u8));
}

} // verus!
