//! The persistent ledger layout: six independent key-value columns sharing
//! one atomic write unit, holding blocks, a height index, a transaction
//! location index, account states, a timestamp index and metadata.
//!
//! Keys are byte strings compared lexicographically; heights and
//! timestamps are little-endian. The store is held in memory; writing a
//! block updates all its columns in one exclusive call, so readers observe
//! either all of a block's index entries or none.

use vstd::prelude::*;

pub mod block_store;
pub mod state_store;
pub mod migration;

verus! {

use crate::block::{Block, header_hash_of};
use crate::state::AccountState;
use crate::transaction::{Transaction, tx_hash_of};
use crate::codec::{
    enc_block,
    dec_block,
    enc_account,
    dec_account,
    encode_block,
    decode_block,
    encode_account,
    decode_account,
    account_shape_ok,
    read_u64,
    read_u32,
    read_32,
};
use vstd::bytes::{spec_u64_to_le_bytes, spec_u64_from_le_bytes, spec_u32_to_le_bytes, u64_to_le_bytes, u32_to_le_bytes};

/// Storage errors.
#[derive(Debug)]
pub enum Error {
    /// IO error.
    IO(String),
    /// Database error.
    Database(String),
    /// Serialization error.
    Serialization(String),
    /// Item not found.
    NotFound(String),
    /// Other error kind.
    Other(String),
}

/// Configuration for the ledger store.
#[derive(Clone)]
pub struct StorageConfig {
    /// Path of the database directory.
    pub db_path: String,
    /// Maximum number of open files.
    pub max_open_files: i32,
    /// Write buffer size in bytes.
    pub write_buffer_size: usize,
    /// Maximum number of write buffers.
    pub max_write_buffer_number: i32,
    /// Target file size for table files.
    pub target_file_size_base: u64,
    /// Block cache size in bytes; zero means the engine default.
    pub cache_size: usize,
}

impl Default for StorageConfig {
    /// The default storage configuration.
    fn default() -> (r: Self)
        ensures
            r.max_open_files == 1000,
            r.write_buffer_size == 67108864,
            r.max_write_buffer_number == 3,
            r.target_file_size_base == 67108864,
            r.cache_size == 134217728,
    {
        StorageConfig {
            db_path: String::from_str("data/blocana_db"),
            max_open_files: 1000,
            write_buffer_size: 67108864,
            max_write_buffer_number: 3,
            target_file_size_base: 67108864,
            cache_size: 134217728,
        }
    }
}

/// Where a transaction is stored: its block and its index within it.
pub struct TxLocation {
    /// Hash of the block holding the transaction.
    pub block_hash: crate::types::Hash,
    /// Index of the transaction within the block.
    pub index: u32,
}

/// The mathematical shape of a transaction location.
pub struct TxLocationV {
    pub block_hash: Seq<u8>,
    pub index: u32,
}

impl View for TxLocation {
    type V = TxLocationV;

    open spec fn view(&self) -> TxLocationV {
        TxLocationV { block_hash: self.block_hash@, index: self.index }
    }
}

/// The encoded form of a transaction location: 32-byte block hash, then a
/// 4-byte little-endian index.
pub open spec fn enc_tx_location(l: TxLocationV) -> Seq<u8> {
    l.block_hash + spec_u32_to_le_bytes(l.index)
}

/// The location a byte string decodes to, when it fills it exactly.
pub open spec fn dec_tx_location(s: Seq<u8>) -> Option<TxLocationV> {
    if s.len() != 36 {
        None
    } else {
        Some(
            TxLocationV {
                block_hash: s.subrange(0, 32),
                index: vstd::bytes::spec_u32_from_le_bytes(s.subrange(32, 36)),
            },
        )
    }
}

/// Decoding the encoding of a well-shaped location yields it back.
pub proof fn lemma_tx_location_round_trip(l: TxLocationV)
    requires
        l.block_hash.len() == 32,
    ensures
        dec_tx_location(enc_tx_location(l)) == Some(l),
{
    vstd::bytes::lemma_auto_spec_u32_to_from_le_bytes();
    let e = enc_tx_location(l);
    assert(e.len() == 36);
    assert(e.subrange(0, 32) =~= l.block_hash);
    assert(e.subrange(32, 36) =~= spec_u32_to_le_bytes(l.index));
    assert(dec_tx_location(e)->Some_0 == l);
}

/// Encode a transaction location.
pub fn encode_tx_location(l: &TxLocation) -> (r: Vec<u8>)
    ensures
        r@ == enc_tx_location(l@),
{
    let mut out: Vec<u8> = Vec::new();
    out.extend_from_slice(l.block_hash.as_slice());
    let idx_bytes = u32_to_le_bytes(l.index);
    out.extend_from_slice(idx_bytes.as_slice());
    proof {
        assert(out@ =~= enc_tx_location(l@));
    }
    out
}

/// Decode a byte string holding exactly one transaction location.
pub fn decode_tx_location(bytes: &[u8]) -> (r: Option<TxLocation>)
    ensures
        match r {
            Some(l) => dec_tx_location(bytes@) == Some(l@),
            None => dec_tx_location(bytes@) is None,
        },
{
    if bytes.len() != 36 {
        return None;
    }
    let block_hash = read_32(bytes, 0);
    let index = read_u32(bytes, 32);
    Some(TxLocation { block_hash, index })
}


} // verus!
// columns

verus! {

/// One key-value column: unique keys, insertion order.
struct Column {
    entries: Vec<(Vec<u8>, Vec<u8>)>,
}

/// The mapping a column's entry list denotes; an earlier entry shadows a
/// later one with the same key (keys are unique in a well-formed column).
pub open spec fn col_model(s: Seq<(Vec<u8>, Vec<u8>)>) -> Map<Seq<u8>, Seq<u8>>
    decreases s.len(),
{
    if s.len() == 0 {
        Map::empty()
    } else {
        col_model(s.skip(1)).insert(s[0].0@, s[0].1@)
    }
}

/// A column is well formed when its keys are pairwise distinct.
pub open spec fn col_wf(s: Seq<(Vec<u8>, Vec<u8>)>) -> bool {
    forall|i: int, j: int|
        0 <= i < s.len() && 0 <= j < s.len() && i != j ==> (#[trigger] s[i]).0@ != (
        #[trigger] s[j]).0@
}

/// Skipping a prefix without the key leaves its lookup alone.
proof fn lemma_col_skip(s: Seq<(Vec<u8>, Vec<u8>)>, i: int, a: Seq<u8>)
    requires
        0 <= i <= s.len(),
        forall|j: int| 0 <= j < i ==> (#[trigger] s[j]).0@ != a,
    ensures
        col_model(s).dom().contains(a) == col_model(s.skip(i)).dom().contains(a),
        col_model(s).dom().contains(a) ==> col_model(s)[a] == col_model(s.skip(i))[a],
    decreases i,
{
    if i > 0 {
        assert(forall|j: int| 0 <= j < i - 1 ==> #[trigger] s.skip(1)[j] == s[j + 1]);
        lemma_col_skip(s.skip(1), i - 1, a);
        assert(s.skip(1).skip(i - 1) =~= s.skip(i));
        assert(s[0].0@ != a);
    } else {
        assert(s.skip(0) =~= s);
    }
}

/// A key is in the mapping exactly when some entry carries it, and its
/// value is that of the first such entry.
proof fn lemma_col_dom(s: Seq<(Vec<u8>, Vec<u8>)>, a: Seq<u8>)
    ensures
        col_model(s).dom().contains(a) <==> exists|i: int|
            0 <= i < s.len() && (#[trigger] s[i]).0@ == a,
    decreases s.len(),
{
    if s.len() > 0 {
        lemma_col_dom(s.skip(1), a);
        if s[0].0@ == a {
        } else {
            if col_model(s).dom().contains(a) {
                let i = choose|i: int| 0 <= i < s.skip(1).len() && (#[trigger] s.skip(1)[i]).0@ == a;
                assert(s[i + 1].0@ == a);
            }
            if exists|i: int| 0 <= i < s.len() && (#[trigger] s[i]).0@ == a {
                let i = choose|i: int| 0 <= i < s.len() && (#[trigger] s[i]).0@ == a;
                assert(i > 0);
                assert(s.skip(1)[i - 1].0@ == a);
            }
        }
    }
}

/// In a well-formed column, the value at an entry's key is that entry's.
proof fn lemma_col_at(s: Seq<(Vec<u8>, Vec<u8>)>, i: int)
    requires
        col_wf(s),
        0 <= i < s.len(),
    ensures
        col_model(s).dom().contains(s[i].0@),
        col_model(s)[s[i].0@] == s[i].1@,
    decreases i,
{
    if i == 0 {
        lemma_col_skip(s, 0, s[0].0@);
    } else {
        assert(forall|a: int, b: int|
            0 <= a < s.skip(1).len() && 0 <= b < s.skip(1).len() && a != b ==> (#[trigger] s.skip(
                1,
            )[a]).0@ != (#[trigger] s.skip(1)[b]).0@);
        lemma_col_at(s.skip(1), i - 1);
        assert(s.skip(1)[i - 1] == s[i]);
        assert(s[0].0@ != s[i].0@);
    }
}

/// Replacing the first entry of a key updates the mapping at that key.
proof fn lemma_col_update(s: Seq<(Vec<u8>, Vec<u8>)>, i: int, pair: (Vec<u8>, Vec<u8>))
    requires
        0 <= i < s.len(),
        s[i].0@ == pair.0@,
        forall|j: int| 0 <= j < i ==> (#[trigger] s[j]).0@ != pair.0@,
    ensures
        col_model(s.update(i, pair)) == col_model(s).insert(pair.0@, pair.1@),
    decreases i,
{
    let su = s.update(i, pair);
    if i == 0 {
        assert(su.skip(1) =~= s.skip(1));
        assert(col_model(s.skip(1)).insert(s[0].0@, s[0].1@).insert(pair.0@, pair.1@)
            =~= col_model(s.skip(1)).insert(pair.0@, pair.1@));
    } else {
        assert(forall|j: int| 0 <= j < i - 1 ==> #[trigger] s.skip(1)[j] == s[j + 1]);
        lemma_col_update(s.skip(1), i - 1, pair);
        assert(su.skip(1) =~= s.skip(1).update(i - 1, pair));
        assert(su[0] == s[0]);
        assert(s[0].0@ != pair.0@);
        assert(col_model(s.skip(1)).insert(pair.0@, pair.1@).insert(s[0].0@, s[0].1@)
            =~= col_model(s.skip(1)).insert(s[0].0@, s[0].1@).insert(pair.0@, pair.1@));
    }
}

/// Appending an entry with an absent key updates the mapping at that key.
proof fn lemma_col_push(s: Seq<(Vec<u8>, Vec<u8>)>, pair: (Vec<u8>, Vec<u8>))
    requires
        forall|j: int| 0 <= j < s.len() ==> (#[trigger] s[j]).0@ != pair.0@,
    ensures
        col_model(s.push(pair)) == col_model(s).insert(pair.0@, pair.1@),
    decreases s.len(),
{
    if s.len() == 0 {
        assert(s.push(pair).skip(1) =~= Seq::<(Vec<u8>, Vec<u8>)>::empty());
        assert(s.push(pair)[0] == pair);
        assert(col_model(s.push(pair)) == col_model(
            Seq::<(Vec<u8>, Vec<u8>)>::empty(),
        ).insert(pair.0@, pair.1@));
    } else {
        assert(forall|j: int| 0 <= j < s.skip(1).len() ==> #[trigger] s.skip(1)[j] == s[j + 1]);
        lemma_col_push(s.skip(1), pair);
        assert(s.push(pair).skip(1) =~= s.skip(1).push(pair));
        assert(s.push(pair)[0] == s[0]);
        assert(s[0].0@ != pair.0@);
        assert(col_model(s.skip(1)).insert(pair.0@, pair.1@).insert(s[0].0@, s[0].1@)
            =~= col_model(s.skip(1)).insert(s[0].0@, s[0].1@).insert(pair.0@, pair.1@));
    }
}

impl Column {
    spec fn model(&self) -> Map<Seq<u8>, Seq<u8>> {
        col_model(self.entries@)
    }

    spec fn wf(&self) -> bool {
        col_wf(self.entries@)
    }

    fn new() -> (r: Column)
        ensures
            r.wf(),
            r.model() == Map::<Seq<u8>, Seq<u8>>::empty(),
            r.entries@.len() == 0,
    {
        let r = Column { entries: Vec::new() };
        proof {
            assert(r.model() =~= Map::<Seq<u8>, Seq<u8>>::empty());
        }
        r
    }

    /// Read the value at a key.
    fn get(&self, key: &[u8]) -> (r: Option<Vec<u8>>)
        requires
            self.wf(),
        ensures
            match r {
                Some(v) => self.model().dom().contains(key@) && v@ == self.model()[key@],
                None => !self.model().dom().contains(key@),
            },
    {
        let mut i: usize = 0;
        while i < self.entries.len()
            invariant
                i <= self.entries@.len(),
                self.wf(),
                forall|j: int| 0 <= j < i ==> (#[trigger] self.entries@[j]).0@ != key@,
            decreases self.entries@.len() - i,
        {
            if bytes_equal(self.entries[i].0.as_slice(), key) {
                proof {
                    lemma_col_at(self.entries@, i as int);
                }
                return Some(crate::transaction::clone_bytes(&self.entries[i].1));
            }
            i = i + 1;
        }
        proof {
            lemma_col_dom(self.entries@, key@);
        }
        None
    }

    /// Write the value at a key, replacing any previous value.
    fn put(&mut self, key: Vec<u8>, value: Vec<u8>)
        requires
            old(self).wf(),
        ensures
            final(self).wf(),
            final(self).model() == old(self).model().insert(key@, value@),
            final(self).entries@.len() <= old(self).entries@.len() + 1,
            final(self).entries@.len() >= old(self).entries@.len(),
            forall|j: int|
                0 <= j < final(self).entries@.len() ==> (#[trigger] final(self).entries@[j]).0@
                    == key@ || exists|k: int|
                    0 <= k < old(self).entries@.len() && final(self).entries@[j].0@ == (
                    #[trigger] old(self).entries@[k]).0@,
    {
        let ghost s0 = self.entries@;
        let mut i: usize = 0;
        while i < self.entries.len()
            invariant
                i <= self.entries@.len(),
                self.entries@ == s0,
                s0 == old(self).entries@,
                self.wf(),
                forall|j: int| 0 <= j < i ==> (#[trigger] s0[j]).0@ != key@,
            decreases self.entries@.len() - i,
        {
            if bytes_equal(self.entries[i].0.as_slice(), key.as_slice()) {
                self.entries.remove(i);
                self.entries.insert(i, (key, value));
                proof {
                    let pair = self.entries@[i as int];
                    assert(self.entries@ =~= s0.update(i as int, pair));
                    lemma_col_update(s0, i as int, pair);
                    assert forall|a: int, b: int|
                        0 <= a < self.entries@.len() && 0 <= b < self.entries@.len() && a != b
                            implies (#[trigger] self.entries@[a]).0@ != (
                        #[trigger] self.entries@[b]).0@ by {
                        if a != i as int && b != i as int {
                            assert(self.entries@[a] == s0[a]);
                            assert(self.entries@[b] == s0[b]);
                        } else if a == i as int {
                            assert(self.entries@[b] == s0[b]);
                            assert(s0[b].0@ != s0[i as int].0@);
                        } else {
                            assert(self.entries@[a] == s0[a]);
                            assert(s0[a].0@ != s0[i as int].0@);
                        }
                    }
                }
                return ;
            }
            i = i + 1;
        }
        self.entries.push((key, value));
        proof {
            let pair = self.entries@[self.entries@.len() - 1];
            assert(self.entries@ =~= s0.push(pair));
            lemma_col_push(s0, pair);
        }
    }

    /// The number of entries.
    fn count(&self) -> (r: usize)
        ensures
            r == self.entries@.len(),
    {
        self.entries.len()
    }
}

/// Byte-wise equality of two byte slices.
pub fn bytes_equal(a: &[u8], b: &[u8]) -> (r: bool)
    ensures
        r == (a@ =~= b@),
{
    if a.len() != b.len() {
        proof {
            assert(a@.len() != b@.len());
        }
        return false;
    }
    let mut i: usize = 0;
    while i < a.len()
        invariant
            i <= a@.len(),
            a@.len() == b@.len(),
            forall|j: int| 0 <= j < i ==> a@[j] == b@[j],
        decreases a@.len() - i,
    {
        if a[i] != b[i] {
            return false;
        }
        i = i + 1;
    }
    proof {
        assert(a@ =~= b@);
    }
    true
}

} // verus!
// the ledger store

verus! {

/// The per-transaction location entries a stored block adds to the
/// transaction index, in order.
pub open spec fn txs_index_model(
    m: Map<Seq<u8>, Seq<u8>>,
    ts: Seq<crate::transaction::TransactionV>,
    block_hash: Seq<u8>,
    base: int,
) -> Map<Seq<u8>, Seq<u8>>
    decreases ts.len(),
{
    if ts.len() == 0 {
        m
    } else {
        txs_index_model(
            m.insert(
                tx_hash_of(ts[0]),
                enc_tx_location(TxLocationV { block_hash, index: base as u32 }),
            ),
            ts.skip(1),
            block_hash,
            base + 1,
        )
    }
}

/// Main storage interface for the chain.
pub struct BlockchainStorage {
    blocks: Column,
    block_height: Column,
    transactions: Column,
    account_state: Column,
    timestamp_index: Column,
    metadata: Column,
}

/// One link of the chain is sound at height `h`: the height index holds a
/// 32-byte hash, the block is there and decodes, and its previous-hash
/// field matches the height below (all zeroes for the genesis block).
pub open spec fn height_link_ok(hm: Map<Seq<u8>, Seq<u8>>, bm: Map<Seq<u8>, Seq<u8>>, h: int) -> bool {
    let key = spec_u64_to_le_bytes(h as u64);
    &&& hm.dom().contains(key)
    &&& hm[key].len() == 32
    &&& bm.dom().contains(hm[key])
    &&& dec_block(bm[hm[key]]) is Some
    &&& (h > 0 ==> hm.dom().contains(spec_u64_to_le_bytes((h - 1) as u64)) && hm[
        spec_u64_to_le_bytes((h - 1) as u64)
    ].len() == 32 && dec_block(bm[hm[key]])->Some_0.header.prev_hash == hm[spec_u64_to_le_bytes(
        (h - 1) as u64,
    )])
    &&& (h == 0 ==> dec_block(bm[hm[key]])->Some_0.header.prev_hash == crate::types::zero_hash())
}

/// The chain is sound from height 0 up to `latest`.
pub open spec fn spec_chain_ok(
    hm: Map<Seq<u8>, Seq<u8>>,
    bm: Map<Seq<u8>, Seq<u8>>,
    latest: int,
) -> bool {
    forall|h: int| 0 <= h <= latest ==> height_link_ok(hm, bm, h)
}

/// `h` is the latest height a mapping holds: its little-endian key is
/// present and no key reads above it.
pub open spec fn is_latest_height(hm: Map<Seq<u8>, Seq<u8>>, h: u64) -> bool {
    hm.dom().contains(spec_u64_to_le_bytes(h)) && forall|k: Seq<u8>|
        #[trigger] hm.dom().contains(k) ==> spec_u64_from_le_bytes(k) <= h
}

/// At most one height is the latest.
pub proof fn lemma_latest_height_unique(hm: Map<Seq<u8>, Seq<u8>>, h1: u64, h2: u64)
    requires
        is_latest_height(hm, h1),
        is_latest_height(hm, h2),
    ensures
        h1 == h2,
{
    vstd::bytes::lemma_auto_spec_u64_to_from_le_bytes();
    assert(spec_u64_from_le_bytes(spec_u64_to_le_bytes(h1)) == h1);
    assert(spec_u64_from_le_bytes(spec_u64_to_le_bytes(h2)) == h2);
}

/// The timestamp a 16-byte index key carries in its first 8 bytes.
pub open spec fn ts_of_key(k: Seq<u8>) -> u64 {
    spec_u64_from_le_bytes(k.subrange(0, 8))
}

/// The height a 16-byte index key carries in its last 8 bytes.
pub open spec fn height_of_key(k: Seq<u8>) -> u64 {
    spec_u64_from_le_bytes(k.subrange(8, 16))
}

/// The timestamp index order: timestamp-primary, height-secondary.
pub open spec fn ts_key_le(a: Seq<u8>, b: Seq<u8>) -> bool {
    ts_of_key(a) < ts_of_key(b) || (ts_of_key(a) == ts_of_key(b) && height_of_key(a)
        <= height_of_key(b))
}

/// A 16-byte key is its timestamp and height readings put back together,
/// so two keys that agree on both are the same key.
pub proof fn lemma_ts_key_determined(a: Seq<u8>, b: Seq<u8>)
    requires
        a.len() == 16,
        b.len() == 16,
        ts_of_key(a) == ts_of_key(b),
        height_of_key(a) == height_of_key(b),
    ensures
        a == b,
{
    vstd::bytes::lemma_auto_spec_u64_to_from_le_bytes();
    assert(a.subrange(0, 8).len() == 8);
    assert(spec_u64_to_le_bytes(spec_u64_from_le_bytes(a.subrange(0, 8))) == a.subrange(0, 8));
    assert(spec_u64_to_le_bytes(spec_u64_from_le_bytes(b.subrange(0, 8))) == b.subrange(0, 8));
    assert(spec_u64_to_le_bytes(spec_u64_from_le_bytes(a.subrange(8, 16))) == a.subrange(8, 16));
    assert(spec_u64_to_le_bytes(spec_u64_from_le_bytes(b.subrange(8, 16))) == b.subrange(8, 16));
    assert(a =~= a.subrange(0, 8) + a.subrange(8, 16));
    assert(b =~= b.subrange(0, 8) + b.subrange(8, 16));
    assert(a == a.subrange(0, 8) + a.subrange(8, 16));
}

/// No index entry at or after the probe lies within its one-second window.
pub open spec fn no_usable_after(tm: Map<Seq<u8>, Seq<u8>>, probe: u64) -> bool {
    forall|k: Seq<u8>|
        #[trigger] is_first_at_or_after(tm, probe, k) ==> !within_probe_window(ts_of_key(k), probe)
}

/// The result of decoding the block record a chosen index entry points at:
/// nothing when the record is absent, the decoded block when it decodes,
/// and a serialization error otherwise.
pub open spec fn chosen_entry_result(
    tm: Map<Seq<u8>, Seq<u8>>,
    bm: Map<Seq<u8>, Seq<u8>>,
    k: Seq<u8>,
    r: Result<Option<crate::block::Block>, Error>,
) -> bool {
    &&& (!bm.dom().contains(tm[k]) ==> r is Ok && r->Ok_0 is None)
    &&& (bm.dom().contains(tm[k]) && dec_block(bm[tm[k]]) is Some ==> r is Ok && r->Ok_0 is Some
        && r->Ok_0->Some_0@ == dec_block(bm[tm[k]])->Some_0)
    &&& (bm.dom().contains(tm[k]) && dec_block(bm[tm[k]]) is None ==> r is Err && r->Err_0
        is Serialization)
}

/// With 16-byte keys there is at most one first entry at or after a probe.
pub proof fn lemma_first_after_unique(tm: Map<Seq<u8>, Seq<u8>>, probe: u64, k: Seq<u8>)
    requires
        is_first_at_or_after(tm, probe, k),
        forall|k2: Seq<u8>| #[trigger] tm.dom().contains(k2) ==> k2.len() == 16,
    ensures
        forall|k2: Seq<u8>| #[trigger] is_first_at_or_after(tm, probe, k2) ==> k2 == k,
{
    assert forall|k2: Seq<u8>| #[trigger] is_first_at_or_after(tm, probe, k2) implies k2 == k by {
        assert(ts_key_le(k, k2));
        assert(ts_key_le(k2, k));
        lemma_ts_key_determined(k, k2);
    }
}

/// With 16-byte keys there is at most one nearest entry before a probe.
pub proof fn lemma_last_before_unique(tm: Map<Seq<u8>, Seq<u8>>, probe: u64, k: Seq<u8>)
    requires
        is_last_before(tm, probe, k),
        forall|k2: Seq<u8>| #[trigger] tm.dom().contains(k2) ==> k2.len() == 16,
    ensures
        forall|k2: Seq<u8>| #[trigger] is_last_before(tm, probe, k2) ==> k2 == k,
{
    assert forall|k2: Seq<u8>| #[trigger] is_last_before(tm, probe, k2) implies k2 == k by {
        assert(ts_key_le(k, k2));
        assert(ts_key_le(k2, k));
        lemma_ts_key_determined(k, k2);
    }
}

/// A valid result of the time-range query: each returned block decodes
/// from the record its key points at, the keys are in-range index entries,
/// pairwise distinct, and ascending in timestamp-height order.
pub open spec fn range_result_keys(
    tm: Map<Seq<u8>, Seq<u8>>,
    bm: Map<Seq<u8>, Seq<u8>>,
    start: u64,
    end: u64,
    keys: Seq<Seq<u8>>,
    blocks: Seq<crate::block::BlockV>,
) -> bool {
    &&& keys.len() == blocks.len()
    &&& forall|p: int|
        0 <= p < keys.len() ==> tm.dom().contains(#[trigger] keys[p]) && start <= ts_of_key(
            keys[p],
        ) <= end && bm.dom().contains(tm[keys[p]]) && dec_block(bm[tm[keys[p]]]) == Some(blocks[p])
    &&& forall|p: int, q: int| 0 <= p < q < keys.len() ==> ts_key_le(#[trigger] keys[p], #[trigger] keys[q])
    &&& forall|p: int, q: int|
        0 <= p < keys.len() && 0 <= q < keys.len() && p != q ==> (#[trigger] keys[p]) != (
        #[trigger] keys[q])
}

/// Whether a block sequence is a valid time-range query result for some
/// choice of index keys.
pub open spec fn is_range_result(
    tm: Map<Seq<u8>, Seq<u8>>,
    bm: Map<Seq<u8>, Seq<u8>>,
    start: u64,
    end: u64,
    blocks: Seq<crate::block::BlockV>,
) -> bool {
    exists|keys: Seq<Seq<u8>>|
        #![auto]
        range_result_keys(tm, bm, start, end, keys, blocks)
}

/// Removing one element of an index list shifts the later ones down.
proof fn lemma_remove_shifts(s: Seq<usize>, i: int)
    requires
        0 <= i < s.len(),
    ensures
        forall|a: int|
            0 <= a < s.len() - 1 ==> #[trigger] s.remove(i)[a] == (if a < i {
                s[a]
            } else {
                s[a + 1]
            }),
{
}

/// Whether a timestamp lies at the probe or within the one-second window
/// after it.
pub open spec fn within_probe_window(ts: u64, probe: u64) -> bool {
    ts == probe || (probe < u64::MAX - 1000 && ts < probe + 1000)
}

/// `k` is the first index entry at or after the probe timestamp.
pub open spec fn is_first_at_or_after(tm: Map<Seq<u8>, Seq<u8>>, probe: u64, k: Seq<u8>) -> bool {
    &&& tm.dom().contains(k)
    &&& ts_of_key(k) >= probe
    &&& forall|k2: Seq<u8>|
        #[trigger] tm.dom().contains(k2) && ts_of_key(k2) >= probe ==> ts_key_le(k, k2)
}

/// `k` is the nearest index entry before the probe timestamp.
pub open spec fn is_last_before(tm: Map<Seq<u8>, Seq<u8>>, probe: u64, k: Seq<u8>) -> bool {
    &&& tm.dom().contains(k)
    &&& ts_of_key(k) < probe
    &&& forall|k2: Seq<u8>|
        #[trigger] tm.dom().contains(k2) && ts_of_key(k2) < probe ==> ts_key_le(k2, k)
}

impl BlockchainStorage {
    /// The block column: block hash to encoded block.
    pub closed spec fn blocks_model(&self) -> Map<Seq<u8>, Seq<u8>> {
        self.blocks.model()
    }

    /// The height column: little-endian height to block hash.
    pub closed spec fn height_model(&self) -> Map<Seq<u8>, Seq<u8>> {
        self.block_height.model()
    }

    /// The transaction column: transaction hash to encoded location.
    pub closed spec fn tx_model(&self) -> Map<Seq<u8>, Seq<u8>> {
        self.transactions.model()
    }

    /// The account column: address to encoded account state.
    pub closed spec fn account_model(&self) -> Map<Seq<u8>, Seq<u8>> {
        self.account_state.model()
    }

    /// The timestamp column: little-endian timestamp and height to block hash.
    pub closed spec fn ts_model(&self) -> Map<Seq<u8>, Seq<u8>> {
        self.timestamp_index.model()
    }

    /// The metadata column.
    pub closed spec fn meta_model(&self) -> Map<Seq<u8>, Seq<u8>> {
        self.metadata.model()
    }

    /// How many height entries there are.
    pub closed spec fn height_count(&self) -> int {
        self.block_height.entries@.len() as int
    }

    /// Every column has pairwise distinct keys; height keys are 8 bytes
    /// and timestamp keys 16, each holding a 32-byte block hash.
    pub closed spec fn wf(&self) -> bool {
        &&& self.blocks.wf()
        &&& self.block_height.wf()
        &&& self.transactions.wf()
        &&& self.account_state.wf()
        &&& self.timestamp_index.wf()
        &&& self.metadata.wf()
        &&& forall|k: Seq<u8>|
            #[trigger] self.block_height.model().dom().contains(k) ==> k.len() == 8
                && self.block_height.model()[k].len() == 32
        &&& forall|k: Seq<u8>|
            #[trigger] self.timestamp_index.model().dom().contains(k) ==> k.len() == 16
                && self.timestamp_index.model()[k].len() == 32
    }

    /// Open the store described by a configuration: all six columns are
    /// created, empty.
    pub fn open(config: &StorageConfig) -> (r: Result<BlockchainStorage, Error>)
        ensures
            r is Ok,
            r->Ok_0.wf(),
            r->Ok_0.blocks_model() == Map::<Seq<u8>, Seq<u8>>::empty(),
            r->Ok_0.height_model() == Map::<Seq<u8>, Seq<u8>>::empty(),
            r->Ok_0.tx_model() == Map::<Seq<u8>, Seq<u8>>::empty(),
            r->Ok_0.account_model() == Map::<Seq<u8>, Seq<u8>>::empty(),
            r->Ok_0.ts_model() == Map::<Seq<u8>, Seq<u8>>::empty(),
            r->Ok_0.meta_model() == Map::<Seq<u8>, Seq<u8>>::empty(),
            r->Ok_0.height_count() == 0,
    {
        let _ = config;
        Ok(
            BlockchainStorage {
                blocks: Column::new(),
                block_height: Column::new(),
                transactions: Column::new(),
                account_state: Column::new(),
                timestamp_index: Column::new(),
                metadata: Column::new(),
            },
        )
    }

    /// Store a block in one atomic unit: the encoded block under its hash,
    /// the height and timestamp index entries, and one location record per
    /// transaction.
    pub fn store_block(&mut self, block: &Block) -> (r: Result<(), Error>)
        requires
            old(self).wf(),
            block@.transactions.len() <= u32::MAX,
        ensures
            final(self).wf(),
            r is Ok,
            final(self).blocks_model() == old(self).blocks_model().insert(
                header_hash_of(block@.header),
                enc_block(block@),
            ),
            final(self).height_model() == old(self).height_model().insert(
                spec_u64_to_le_bytes(block@.header.height),
                header_hash_of(block@.header),
            ),
            final(self).ts_model() == old(self).ts_model().insert(
                spec_u64_to_le_bytes(block@.header.timestamp) + spec_u64_to_le_bytes(
                    block@.header.height,
                ),
                header_hash_of(block@.header),
            ),
            final(self).tx_model() == txs_index_model(
                old(self).tx_model(),
                block@.transactions,
                header_hash_of(block@.header),
                0,
            ),
            final(self).account_model() == old(self).account_model(),
            final(self).meta_model() == old(self).meta_model(),
    {
        let block_bytes = encode_block(block);
        let block_hash = block.header.hash();
        let height_bytes = u64_to_le_bytes(block.header.height);
        let timestamp_bytes = u64_to_le_bytes(block.header.timestamp);
        let mut hash_vec: Vec<u8> = Vec::new();
        hash_vec.extend_from_slice(block_hash.as_slice());
        proof {
            assert(hash_vec@ =~= header_hash_of(block@.header));
        }
        self.blocks.put(hash_vec, block_bytes);
        let mut hash_vec2: Vec<u8> = Vec::new();
        hash_vec2.extend_from_slice(block_hash.as_slice());
        proof {
            assert(hash_vec2@ =~= header_hash_of(block@.header));
        }
        self.block_height.put(crate::transaction::clone_bytes(&height_bytes), hash_vec2);
        let mut ts_key: Vec<u8> = Vec::new();
        ts_key.extend_from_slice(timestamp_bytes.as_slice());
        ts_key.extend_from_slice(height_bytes.as_slice());
        proof {
            assert(ts_key@ =~= spec_u64_to_le_bytes(block@.header.timestamp) + spec_u64_to_le_bytes(
                block@.header.height,
            ));
        }
        let mut hash_vec3: Vec<u8> = Vec::new();
        hash_vec3.extend_from_slice(block_hash.as_slice());
        proof {
            assert(hash_vec3@ =~= header_hash_of(block@.header));
        }
        self.timestamp_index.put(ts_key, hash_vec3);
        let ghost tm0 = self.transactions.model();
        let mut i: usize = 0;
        proof {
            assert(block@.transactions.skip(0) =~= block@.transactions);
        }
        while i < block.transactions.len()
            invariant
                i <= block@.transactions.len(),
                block@.transactions.len() <= u32::MAX,
                block_hash@ == header_hash_of(block@.header),
                self.transactions.wf(),
                self.blocks.wf(),
                self.block_height.wf(),
                self.account_state.wf(),
                self.timestamp_index.wf(),
                self.metadata.wf(),
                self.blocks.model() == old(self).blocks_model().insert(
                    header_hash_of(block@.header),
                    enc_block(block@),
                ),
                self.block_height.model() == old(self).height_model().insert(
                    spec_u64_to_le_bytes(block@.header.height),
                    header_hash_of(block@.header),
                ),
                self.timestamp_index.model() == old(self).ts_model().insert(
                    spec_u64_to_le_bytes(block@.header.timestamp) + spec_u64_to_le_bytes(
                        block@.header.height,
                    ),
                    header_hash_of(block@.header),
                ),
                self.account_state.model() == old(self).account_model(),
                self.metadata.model() == old(self).meta_model(),
                tm0 == old(self).tx_model(),
                txs_index_model(tm0, block@.transactions, header_hash_of(block@.header), 0)
                    == txs_index_model(
                    self.transactions.model(),
                    block@.transactions.skip(i as int),
                    header_hash_of(block@.header),
                    i as int,
                ),
            decreases block@.transactions.len() - i,
        {
            let tx_hash = block.transactions[i].hash();
            let location = TxLocation { block_hash, index: i as u32 };
            let loc_bytes = encode_tx_location(&location);
            let mut tx_key: Vec<u8> = Vec::new();
            tx_key.extend_from_slice(tx_hash.as_slice());
            proof {
                assert(tx_key@ =~= tx_hash_of(block@.transactions[i as int]));
                assert(block@.transactions.skip(i as int)[0] == block@.transactions[i as int]);
                assert(block@.transactions.skip(i as int).skip(1) =~= block@.transactions.skip(
                    i as int + 1,
                ));
            }
            let ghost pre_tm = self.transactions.model();
            self.transactions.put(tx_key, loc_bytes);
            proof {
                assert(loc_bytes@ == enc_tx_location(
                    TxLocationV { block_hash: header_hash_of(block@.header), index: i as u32 },
                ));
                assert(self.transactions.model() == pre_tm.insert(
                    tx_hash_of(block@.transactions[i as int]),
                    enc_tx_location(
                        TxLocationV {
                            block_hash: header_hash_of(block@.header),
                            index: i as u32,
                        },
                    ),
                ));
                assert(txs_index_model(
                    pre_tm,
                    block@.transactions.skip(i as int),
                    header_hash_of(block@.header),
                    i as int,
                ) == txs_index_model(
                    self.transactions.model(),
                    block@.transactions.skip(i as int + 1),
                    header_hash_of(block@.header),
                    i as int + 1,
                ));
            }
            i = i + 1;
        }
        proof {
            assert(block@.transactions.skip(block@.transactions.len() as int) =~= Seq::<
                crate::transaction::TransactionV,
            >::empty());
        }
        Ok(())
    }

    /// Read a block by its hash: absent hashes read as nothing, a stored
    /// block is decoded, and an undecodable record is an error.
    pub fn get_block(&self, hash: &crate::types::Hash) -> (r: Result<Option<Block>, Error>)
        requires
            self.wf(),
        ensures
            !self.blocks_model().dom().contains(hash@) ==> r is Ok && r->Ok_0 is None,
            self.blocks_model().dom().contains(hash@) && dec_block(self.blocks_model()[hash@])
                is Some ==> r is Ok && r->Ok_0 is Some && r->Ok_0->Some_0@ == dec_block(
                self.blocks_model()[hash@],
            )->Some_0,
            self.blocks_model().dom().contains(hash@) && dec_block(self.blocks_model()[hash@])
                is None ==> r is Err && r->Err_0 is Serialization,
            r is Ok && r->Ok_0 is Some ==> self.blocks_model().dom().contains(hash@) && dec_block(
                self.blocks_model()[hash@],
            ) == Some(r->Ok_0->Some_0@),
    {
        match self.blocks.get(hash.as_slice()) {
            Some(bytes) => {
                match decode_block(bytes.as_slice()) {
                    Some(b) => Ok(Some(b)),
                    None => Err(Error::Serialization(String::from_str("Decode error"))),
                }
            },
            None => Ok(None),
        }
    }

    /// Read the block hash at a height; absent heights and records that
    /// are not 32 bytes are errors.
    pub fn get_block_hash_by_height(&self, height: u64) -> (r: Result<crate::types::Hash, Error>)
        requires
            self.wf(),
        ensures
            ({
                let key = spec_u64_to_le_bytes(height);
                &&& (!self.height_model().dom().contains(key) ==> r is Err && r->Err_0
                    is NotFound)
                &&& (self.height_model().dom().contains(key) && self.height_model()[key].len()
                    != 32 ==> r is Err && r->Err_0 is Database)
                &&& (self.height_model().dom().contains(key) && self.height_model()[key].len()
                    == 32 ==> r is Ok && r->Ok_0@ == self.height_model()[key])
            }),
    {
        let height_bytes = u64_to_le_bytes(height);
        match self.block_height.get(height_bytes.as_slice()) {
            Some(hash_bytes) => {
                if hash_bytes.len() != 32 {
                    return Err(Error::Database(String::from_str("Invalid hash length in index")));
                }
                let hash = read_32(hash_bytes.as_slice(), 0);
                proof {
                    assert(hash@ =~= self.height_model()[spec_u64_to_le_bytes(height)]);
                }
                Ok(hash)
            },
            None => Err(Error::NotFound(String::from_str("Block at height not found"))),
        }
    }

    /// Read a block by its height: an absent height reads as nothing.
    pub fn get_block_by_height(&self, height: u64) -> (r: Result<Option<Block>, Error>)
        requires
            self.wf(),
        ensures
            !self.height_model().dom().contains(spec_u64_to_le_bytes(height)) ==> r is Ok && r->Ok_0
                is None,
            ({
                let key = spec_u64_to_le_bytes(height);
                let hm = self.height_model();
                hm.dom().contains(key) && hm[key].len() == 32 && self.blocks_model().dom().contains(
                    hm[key],
                ) && dec_block(self.blocks_model()[hm[key]]) is Some ==> r is Ok && r->Ok_0 is Some
                    && r->Ok_0->Some_0@ == dec_block(self.blocks_model()[hm[key]])->Some_0
            }),
            ({
                let key = spec_u64_to_le_bytes(height);
                let hm = self.height_model();
                r is Ok && r->Ok_0 is Some ==> hm.dom().contains(key)
                    && self.blocks_model().dom().contains(hm[key]) && dec_block(
                    self.blocks_model()[hm[key]],
                ) == Some(r->Ok_0->Some_0@)
            }),
    {
        let height_bytes = u64_to_le_bytes(height);
        match self.block_height.get(height_bytes.as_slice()) {
            Some(hash_bytes) => {
                if hash_bytes.len() != 32 {
                    return Err(Error::Database(String::from_str("Invalid hash length in index")));
                }
                let hash = read_32(hash_bytes.as_slice(), 0);
                proof {
                    assert(hash@ =~= self.height_model()[spec_u64_to_le_bytes(height)]);
                }
                self.get_block(&hash)
            },
            None => Ok(None),
        }
    }

    /// The latest block height: the greatest height present in the height
    /// column, read numerically; zero when the store is empty.
    pub fn get_latest_height(&self) -> (r: Result<u64, Error>)
        requires
            self.wf(),
        ensures
            r is Ok,
            self.height_count() == 0 ==> r->Ok_0 == 0,
            self.height_count() > 0 ==> is_latest_height(self.height_model(), r->Ok_0),
    {
        proof {
            vstd::bytes::lemma_auto_spec_u64_to_from_le_bytes();
        }
        if self.block_height.count() == 0 {
            return Ok(0);
        }
        let entries = &self.block_height.entries;
        proof {
            lemma_col_at(entries@, 0);
            assert(self.block_height.model().dom().contains(entries@[0].0@));
            assert(entries@[0].0@.len() == 8);
            assert(entries@[0].0@.subrange(0, 8) =~= entries@[0].0@);
        }
        let mut best: u64 = read_u64(entries[0].0.as_slice(), 0);
        let mut i: usize = 1;
        while i < entries.len()
            invariant
                1 <= i <= entries@.len(),
                self.wf(),
                entries@ == self.height_entries(),
                forall|j: int|
                    0 <= j < i ==> spec_u64_from_le_bytes((#[trigger] entries@[j]).0@) <= best,
                exists|j: int|
                    0 <= j < i && spec_u64_from_le_bytes((#[trigger] entries@[j]).0@) == best,
            decreases entries@.len() - i,
        {
            proof {
                lemma_col_at(entries@, i as int);
                assert(self.block_height.model().dom().contains(entries@[i as int].0@));
                assert(entries@[i as int].0@.len() == 8);
                assert(entries@[i as int].0@.subrange(0, 8) =~= entries@[i as int].0@);
            }
            let h = read_u64(entries[i].0.as_slice(), 0);
            if h > best {
                best = h;
            }
            i = i + 1;
        }
        proof {
            let j = choose|j: int|
                0 <= j < entries@.len() && spec_u64_from_le_bytes((#[trigger] entries@[j]).0@)
                    == best;
            lemma_col_at(entries@, j);
            assert(self.block_height.model().dom().contains(entries@[j].0@));
            assert(entries@[j].0@.len() == 8);
            assert(spec_u64_to_le_bytes(spec_u64_from_le_bytes(entries@[j].0@)) == entries@[j].0@);
            assert(self.height_model().dom().contains(spec_u64_to_le_bytes(best)));
            assert forall|k: Seq<u8>|
                #[trigger] self.height_model().dom().contains(k) implies spec_u64_from_le_bytes(k)
                <= best by {
                lemma_col_dom(entries@, k);
                let w = choose|w: int| 0 <= w < entries@.len() && (#[trigger] entries@[w]).0@ == k;
            }
        }
        Ok(best)
    }

    /// The height column's entries, for contracts.
    pub closed spec fn height_entries(&self) -> Seq<(Vec<u8>, Vec<u8>)> {
        self.block_height.entries@
    }

    /// In a well-formed store, height keys are 8 bytes and timestamp keys
    /// 16, each holding a 32-byte block hash.
    pub proof fn lemma_wf_key_shapes(&self)
        requires
            self.wf(),
        ensures
            forall|k: Seq<u8>|
                #[trigger] self.height_model().dom().contains(k) ==> k.len() == 8
                    && self.height_model()[k].len() == 32,
            forall|k: Seq<u8>|
                #[trigger] self.ts_model().dom().contains(k) ==> k.len() == 16
                    && self.ts_model()[k].len() == 32,
    {
    }

    /// How many heights the store holds an entry for.
    pub fn height_entry_count(&self) -> (r: usize)
        ensures
            r == self.height_count(),
    {
        self.block_height.count()
    }

    /// Read a transaction by its hash through its location record: the
    /// record must decode, its block must exist and decode, and its index
    /// must lie within the block.
    pub fn get_transaction(&self, hash: &crate::types::Hash) -> (r: Result<Option<Transaction>, Error>)
        requires
            self.wf(),
        ensures
            !self.tx_model().dom().contains(hash@) ==> r is Ok && r->Ok_0 is None,
            ({
                let tm = self.tx_model();
                let bm = self.blocks_model();
                tm.dom().contains(hash@) && dec_tx_location(tm[hash@]) is Some && {
                    let loc = dec_tx_location(tm[hash@])->Some_0;
                    &&& bm.dom().contains(loc.block_hash)
                    &&& dec_block(bm[loc.block_hash]) is Some
                    &&& loc.index < dec_block(bm[loc.block_hash])->Some_0.transactions.len()
                } ==> r is Ok && r->Ok_0 is Some && r->Ok_0->Some_0@ == dec_block(
                    bm[dec_tx_location(tm[hash@])->Some_0.block_hash],
                )->Some_0.transactions[dec_tx_location(tm[hash@])->Some_0.index as int]
            }),
            self.tx_model().dom().contains(hash@) && dec_tx_location(self.tx_model()[hash@])
                is None ==> r is Err && r->Err_0 is Serialization,
            ({
                let tm = self.tx_model();
                let bm = self.blocks_model();
                tm.dom().contains(hash@) && dec_tx_location(tm[hash@]) is Some
                    && !bm.dom().contains(dec_tx_location(tm[hash@])->Some_0.block_hash) ==> r
                    is Err && r->Err_0 is NotFound
            }),
            ({
                let tm = self.tx_model();
                let bm = self.blocks_model();
                tm.dom().contains(hash@) && dec_tx_location(tm[hash@]) is Some
                    && bm.dom().contains(dec_tx_location(tm[hash@])->Some_0.block_hash)
                    && dec_block(bm[dec_tx_location(tm[hash@])->Some_0.block_hash]) is None ==> r
                    is Err && r->Err_0 is Serialization
            }),
            ({
                let tm = self.tx_model();
                let bm = self.blocks_model();
                tm.dom().contains(hash@) && dec_tx_location(tm[hash@]) is Some
                    && bm.dom().contains(dec_tx_location(tm[hash@])->Some_0.block_hash)
                    && dec_block(bm[dec_tx_location(tm[hash@])->Some_0.block_hash]) is Some
                    && dec_tx_location(tm[hash@])->Some_0.index >= dec_block(
                    bm[dec_tx_location(tm[hash@])->Some_0.block_hash],
                )->Some_0.transactions.len() ==> r is Err && r->Err_0 is Database
            }),
    {
        match self.transactions.get(hash.as_slice()) {
            Some(loc_bytes) => {
                let location = match decode_tx_location(loc_bytes.as_slice()) {
                    Some(l) => l,
                    None => {
                        return Err(Error::Serialization(String::from_str("Decode error")));
                    },
                };
                match self.get_block(&location.block_hash) {
                    Ok(Some(block)) => {
                        let index = location.index as usize;
                        if index < block.transactions.len() {
                            let tx = block.transactions[index].clone();
                            Ok(Some(tx))
                        } else {
                            Err(Error::Database(String::from_str("Invalid transaction index in block")))
                        }
                    },
                    Ok(None) => Err(
                        Error::NotFound(
                            String::from_str("Block containing transaction not found"),
                        ),
                    ),
                    Err(e) => Err(e),
                }
            },
            None => Ok(None),
        }
    }

    /// Store the state of an account under its address.
    pub fn store_account_state(&mut self, address: &crate::types::PublicKeyBytes, state: &AccountState) -> (r:
        Result<(), Error>)
        requires
            old(self).wf(),
            account_shape_ok(state@),
        ensures
            final(self).wf(),
            r is Ok,
            final(self).account_model() == old(self).account_model().insert(
                address@,
                enc_account(state@),
            ),
            final(self).blocks_model() == old(self).blocks_model(),
            final(self).height_model() == old(self).height_model(),
            final(self).tx_model() == old(self).tx_model(),
            final(self).ts_model() == old(self).ts_model(),
            final(self).meta_model() == old(self).meta_model(),
    {
        let state_bytes = encode_account(state);
        let mut key: Vec<u8> = Vec::new();
        key.extend_from_slice(address.as_slice());
        proof {
            assert(key@ =~= address@);
        }
        self.account_state.put(key, state_bytes);
        Ok(())
    }

    /// Read the state of an account by its address.
    pub fn get_account_state(&self, address: &crate::types::PublicKeyBytes) -> (r: Result<
        Option<AccountState>,
        Error,
    >)
        requires
            self.wf(),
        ensures
            !self.account_model().dom().contains(address@) ==> r is Ok && r->Ok_0 is None,
            self.account_model().dom().contains(address@) && dec_account(
                self.account_model()[address@],
            ) is Some ==> r is Ok && r->Ok_0 is Some && r->Ok_0->Some_0@ == dec_account(
                self.account_model()[address@],
            )->Some_0,
            self.account_model().dom().contains(address@) && dec_account(
                self.account_model()[address@],
            ) is None ==> r is Err && r->Err_0 is Serialization,
    {
        match self.account_state.get(address.as_slice()) {
            Some(bytes) => {
                match decode_account(bytes.as_slice()) {
                    Some(state) => Ok(Some(state)),
                    None => Err(Error::Serialization(String::from_str("Decode error"))),
                }
            },
            None => Ok(None),
        }
    }

    /// Walk the chain from the latest height down to zero: the store is
    /// sound exactly when every height holds a decodable block whose
    /// previous-hash matches the height below, with the genesis block
    /// pointing at all zeroes. An empty store is trivially sound.
    pub fn verify_integrity(&self) -> (r: Result<bool, Error>)
        requires
            self.wf(),
        ensures
            self.height_count() == 0 ==> r is Ok && r->Ok_0 == true,
            self.height_count() > 0 ==> forall|h: u64|
                #[trigger] is_latest_height(self.height_model(), h) ==> ((r is Ok && r->Ok_0
                    == true) <==> spec_chain_ok(
                    self.height_model(),
                    self.blocks_model(),
                    h as int,
                )),
    {
        if self.block_height.count() == 0 {
            return Ok(true);
        }
        let latest_height = match self.get_latest_height() {
            Ok(h) => h,
            Err(e) => {
                return Err(e);
            },
        };
        proof {
            assert(is_latest_height(self.height_model(), latest_height));
        }
        let mut h = latest_height;
        loop
            invariant
                self.wf(),
                h <= latest_height,
                self.height_count() > 0,
                is_latest_height(self.height_model(), latest_height),
                forall|g: int|
                    h < g <= latest_height ==> height_link_ok(
                        self.height_model(),
                        self.blocks_model(),
                        g,
                    ),
            decreases h + 1,
        {
            let current_hash = match self.get_block_hash_by_height(h) {
                Ok(hash) => hash,
                Err(e) => {
                    proof {
                        assert(!height_link_ok(self.height_model(), self.blocks_model(), h as int));
                        lemma_latest_witness(self.height_model(), latest_height);
                    }
                    return Err(e);
                },
            };
            let block = match self.get_block(&current_hash) {
                Ok(Some(b)) => b,
                Ok(None) => {
                    proof {
                        assert(!height_link_ok(self.height_model(), self.blocks_model(), h as int));
                        lemma_latest_witness(self.height_model(), latest_height);
                    }
                    return Err(Error::Database(String::from_str("Block not found")));
                },
                Err(e) => {
                    proof {
                        assert(!height_link_ok(self.height_model(), self.blocks_model(), h as int));
                        lemma_latest_witness(self.height_model(), latest_height);
                    }
                    return Err(e);
                },
            };
            if h > 0 {
                let expected_prev_hash = match self.get_block_hash_by_height(h - 1) {
                    Ok(hash) => hash,
                    Err(e) => {
                        proof {
                            assert(!height_link_ok(
                                self.height_model(),
                                self.blocks_model(),
                                h as int,
                            ));
                            lemma_latest_witness(self.height_model(), latest_height);
                        }
                        return Err(e);
                    },
                };
                if !crate::types::hash_eq(&block.header.prev_hash, &expected_prev_hash) {
                    proof {
                        assert(!height_link_ok(self.height_model(), self.blocks_model(), h as int));
                        lemma_latest_witness(self.height_model(), latest_height);
                    }
                    return Ok(false);
                }
                proof {
                    assert(height_link_ok(self.height_model(), self.blocks_model(), h as int));
                }
                h = h - 1;
            } else {
                let zero = crate::types::make_zero_hash();
                if !crate::types::hash_eq(&block.header.prev_hash, &zero) {
                    proof {
                        assert(!height_link_ok(self.height_model(), self.blocks_model(), 0));
                        lemma_latest_witness(self.height_model(), latest_height);
                    }
                    return Ok(false);
                }
                proof {
                    assert(height_link_ok(self.height_model(), self.blocks_model(), 0));
                    lemma_latest_witness(self.height_model(), latest_height);
                }
                return Ok(true);
            }
        }
    }
}

impl BlockchainStorage {
    /// Read a metadata value.
    pub fn get_metadata(&self, key: &[u8]) -> (r: Option<Vec<u8>>)
        requires
            self.wf(),
        ensures
            match r {
                Some(v) => self.meta_model().dom().contains(key@) && v@ == self.meta_model()[key@],
                None => !self.meta_model().dom().contains(key@),
            },
    {
        self.metadata.get(key)
    }

    /// Write a metadata value.
    pub fn put_metadata(&mut self, key: Vec<u8>, value: Vec<u8>)
        requires
            old(self).wf(),
        ensures
            final(self).wf(),
            final(self).meta_model() == old(self).meta_model().insert(key@, value@),
            final(self).blocks_model() == old(self).blocks_model(),
            final(self).height_model() == old(self).height_model(),
            final(self).tx_model() == old(self).tx_model(),
            final(self).account_model() == old(self).account_model(),
            final(self).ts_model() == old(self).ts_model(),
    {
        self.metadata.put(key, value);
    }
}

/// Every latest height equals a given one: the latest is unique.
pub proof fn lemma_latest_witness(hm: Map<Seq<u8>, Seq<u8>>, latest: u64)
    requires
        is_latest_height(hm, latest),
    ensures
        forall|h: u64| #[trigger] is_latest_height(hm, h) ==> h == latest,
{
    assert forall|h: u64| #[trigger] is_latest_height(hm, h) implies h == latest by {
        lemma_latest_height_unique(hm, h, latest);
    }
}

/// How many timestamp-index entries carry a timestamp within a range.
pub open spec fn count_ts_in_range(s: Seq<(Vec<u8>, Vec<u8>)>, start: u64, end: u64) -> int
    decreases s.len(),
{
    if s.len() == 0 {
        0
    } else {
        (if s[0].0@.len() >= 8 && start <= spec_u64_from_le_bytes(s[0].0@.subrange(0, 8)) <= end {
            1int
        } else {
            0
        }) + count_ts_in_range(s.skip(1), start, end)
    }
}

proof fn lemma_count_ts_snoc(s: Seq<(Vec<u8>, Vec<u8>)>, i: int, start: u64, end: u64)
    requires
        0 <= i < s.len(),
    ensures
        count_ts_in_range(s.take(i + 1), start, end) == count_ts_in_range(s.take(i), start, end)
            + (if s[i].0@.len() >= 8 && start <= spec_u64_from_le_bytes(
            s[i].0@.subrange(0, 8),
        ) <= end {
            1int
        } else {
            0
        }),
    decreases i,
{
    if i == 0 {
        assert(s.take(1) =~= seq![s[0]]);
        assert(s.take(1).skip(1) =~= Seq::<(Vec<u8>, Vec<u8>)>::empty());
        assert(s.take(0) =~= Seq::<(Vec<u8>, Vec<u8>)>::empty());
    } else {
        lemma_count_ts_snoc(s.skip(1), i - 1, start, end);
        assert(s.take(i + 1).skip(1) =~= s.skip(1).take(i));
        assert(s.take(i).skip(1) =~= s.skip(1).take(i - 1));
        assert(s.take(i + 1)[0] == s[0]);
        assert(s.take(i)[0] == s[0]);
        assert(s.skip(1)[i - 1] == s[i]);
    }
}

impl BlockchainStorage {
    /// How many blocks were stored with a timestamp in the inclusive range.
    pub fn count_blocks_by_time_range(&self, start_time: u64, end_time: u64) -> (r: Result<
        usize,
        Error,
    >)
        requires
            self.wf(),
        ensures
            r is Ok,
            r->Ok_0 as int == count_ts_in_range(self.ts_entries(), start_time, end_time),
    {
        let entries = &self.timestamp_index.entries;
        let mut count: usize = 0;
        let mut i: usize = 0;
        proof {
            assert(entries@.take(0) =~= Seq::<(Vec<u8>, Vec<u8>)>::empty());
        }
        while i < entries.len()
            invariant
                i <= entries@.len(),
                entries@ == self.ts_entries(),
                self.wf(),
                count as int == count_ts_in_range(entries@.take(i as int), start_time, end_time),
                count <= i,
            decreases entries@.len() - i,
        {
            proof {
                lemma_count_ts_snoc(entries@, i as int, start_time, end_time);
                self.lemma_ts_entry_shape(entries@, i as int);
            }
            if entries[i].0.len() >= 8 {
                let key_timestamp = read_u64(entries[i].0.as_slice(), 0);
                if key_timestamp >= start_time && key_timestamp <= end_time {
                    count = count + 1;
                }
            }
            i = i + 1;
        }
        proof {
            assert(entries@.take(entries@.len() as int) =~= entries@);
        }
        Ok(count)
    }

    /// The timestamp-index entries, for contracts.
    pub closed spec fn ts_entries(&self) -> Seq<(Vec<u8>, Vec<u8>)> {
        self.timestamp_index.entries@
    }

    /// The 16-byte shape of the timestamp entry at an index, for proofs.
    proof fn lemma_ts_entry_shape(&self, s: Seq<(Vec<u8>, Vec<u8>)>, i: int)
        requires
            self.wf(),
            s == self.ts_entries(),
            0 <= i < s.len(),
        ensures
            s[i].0@.len() == 16,
            s[i].1@.len() == 32,
            self.ts_model().dom().contains(s[i].0@),
            self.ts_model()[s[i].0@] == s[i].1@,
    {
        lemma_col_at(s, i);
        assert(self.timestamp_index.model().dom().contains(s[i].0@));
    }

    /// The blocks stored with a timestamp in the inclusive range, ordered
    /// by timestamp, height-secondary, ascending, up to `limit`: every
    /// returned block decodes from a record an in-range index entry points
    /// at, and when every in-range entry points at a stored, decodable
    /// block the result is the complete in-range prefix.
    pub fn get_blocks_by_time_range(&self, start_time: u64, end_time: u64, limit: usize) -> (r:
        Result<Vec<Block>, Error>)
        requires
            self.wf(),
        ensures
            r is Ok ==> r->Ok_0@.len() <= limit,
            r is Ok ==> is_range_result(
                self.ts_model(),
                self.blocks_model(),
                start_time,
                end_time,
                r->Ok_0@.map_values(|b: Block| b@),
            ),
            (forall|k: Seq<u8>|
                #[trigger] self.ts_model().dom().contains(k) && start_time <= ts_of_key(k)
                    <= end_time ==> self.blocks_model().dom().contains(self.ts_model()[k])
                    && dec_block(self.blocks_model()[self.ts_model()[k]]) is Some) ==> r is Ok && (
            r->Ok_0@.len() == limit || r->Ok_0@.len() == count_ts_in_range(
                self.ts_entries(),
                start_time,
                end_time,
            )),
    {
        let entries = &self.timestamp_index.entries;
        // collect the in-range entry indices, then emit them in ascending
        // timestamp-height order by repeatedly taking the least remaining
        let mut remaining: Vec<usize> = Vec::new();
        let mut i: usize = 0;
        proof {
            assert(entries@.take(0) =~= Seq::<(Vec<u8>, Vec<u8>)>::empty());
        }
        while i < entries.len()
            invariant
                i <= entries@.len(),
                self.wf(),
                entries@ == self.ts_entries(),
                remaining@.len() == count_ts_in_range(entries@.take(i as int), start_time, end_time),
                forall|p: int, q: int|
                    0 <= p < remaining@.len() && 0 <= q < remaining@.len() && p != q ==> (
                    #[trigger] remaining@[p]) != (#[trigger] remaining@[q]),
                forall|p: int|
                    0 <= p < remaining@.len() ==> (#[trigger] remaining@[p]) < i && start_time
                        <= ts_of_key(entries@[remaining@[p] as int].0@) <= end_time,
                forall|j: int|
                    0 <= j < i && start_time <= ts_of_key((#[trigger] entries@[j]).0@) <= end_time
                        ==> exists|p: int| 0 <= p < remaining@.len() && remaining@[p] == j,
            decreases entries@.len() - i,
        {
            proof {
                lemma_count_ts_snoc(entries@, i as int, start_time, end_time);
                lemma_col_at(entries@, i as int);
                assert(self.timestamp_index.model().dom().contains(entries@[i as int].0@));
                assert(entries@[i as int].0@.len() == 16);
                assert(entries@[i as int].0@.subrange(0, 8).len() == 8);
            }
            let ghost old_rem = remaining@;
            let key_timestamp = read_u64(entries[i].0.as_slice(), 0);
            if key_timestamp >= start_time && key_timestamp <= end_time {
                remaining.push(i);
            }
            proof {
                assert forall|j: int|
                    0 <= j < i + 1 && start_time <= ts_of_key((#[trigger] entries@[j]).0@)
                        <= end_time implies exists|p: int|
                    0 <= p < remaining@.len() && remaining@[p] == j by {
                    if j == i as int {
                        assert(remaining@[remaining@.len() - 1] == i);
                    } else {
                        let p0 = choose|p0: int| 0 <= p0 < old_rem.len() && old_rem[p0] == j;
                        assert(remaining@[p0] == j);
                    }
                }
            }
            i = i + 1;
        }
        proof {
            assert(entries@.take(entries@.len() as int) =~= entries@);
        }
        let ghost total_count = count_ts_in_range(entries@, start_time, end_time);
        let ghost benign = forall|k: Seq<u8>|
            #[trigger] self.ts_model().dom().contains(k) && start_time <= ts_of_key(k) <= end_time
                ==> self.blocks_model().dom().contains(self.ts_model()[k]) && dec_block(
                self.blocks_model()[self.ts_model()[k]],
            ) is Some;
        let mut blocks: Vec<Block> = Vec::new();
        let ghost gkeys: Seq<Seq<u8>> = Seq::empty();
        while remaining.len() > 0 && blocks.len() < limit
            invariant
                self.wf(),
                entries@ == self.ts_entries(),
                blocks@.len() <= limit,
                gkeys.len() == blocks@.len(),
                benign == (forall|k: Seq<u8>|
                    #[trigger] self.ts_model().dom().contains(k) && start_time <= ts_of_key(k)
                        <= end_time ==> self.blocks_model().dom().contains(self.ts_model()[k])
                        && dec_block(self.blocks_model()[self.ts_model()[k]]) is Some),
                benign ==> blocks@.len() + remaining@.len() == total_count,
                total_count == count_ts_in_range(entries@, start_time, end_time),
                forall|p: int, q: int|
                    0 <= p < remaining@.len() && 0 <= q < remaining@.len() && p != q ==> (
                    #[trigger] remaining@[p]) != (#[trigger] remaining@[q]),
                forall|p: int|
                    0 <= p < remaining@.len() ==> (#[trigger] remaining@[p]) < entries@.len()
                        && start_time <= ts_of_key(entries@[remaining@[p] as int].0@) <= end_time,
                range_result_keys(
                    self.ts_model(),
                    self.blocks_model(),
                    start_time,
                    end_time,
                    gkeys,
                    blocks@.map_values(|b: Block| b@),
                ),
                forall|p: int, q: int|
                    0 <= p < gkeys.len() && 0 <= q < remaining@.len() ==> ts_key_le(
                        #[trigger] gkeys[p],
                        (#[trigger] entries@[remaining@[q] as int]).0@,
                    ),
                forall|p: int, q: int|
                    0 <= p < gkeys.len() && 0 <= q < remaining@.len() ==> #[trigger] gkeys[p] != (
                    #[trigger] entries@[remaining@[q] as int]).0@,
            decreases remaining@.len(),
        {
            // the least remaining key in timestamp-height order
            let mut best_pos: usize = 0;
            let mut p: usize = 1;
            proof {
                self.lemma_ts_entry_shape(entries@, remaining@[0] as int);
            }
            let mut best_ts: u64 = read_u64(entries[remaining[0]].0.as_slice(), 0);
            let mut best_ht: u64 = read_u64(entries[remaining[0]].0.as_slice(), 8);
            while p < remaining.len()
                invariant
                    1 <= p <= remaining@.len(),
                    best_pos < p,
                    remaining@.len() > 0,
                    self.wf(),
                    entries@ == self.ts_entries(),
                    forall|q: int|
                        0 <= q < remaining@.len() ==> (#[trigger] remaining@[q]) < entries@.len(),
                    best_ts == ts_of_key(entries@[remaining@[best_pos as int] as int].0@),
                    best_ht == height_of_key(entries@[remaining@[best_pos as int] as int].0@),
                    forall|q: int|
                        0 <= q < p ==> ts_key_le(
                            entries@[remaining@[best_pos as int] as int].0@,
                            (#[trigger] entries@[remaining@[q] as int]).0@,
                        ),
                decreases remaining@.len() - p,
            {
                proof {
                    self.lemma_ts_entry_shape(entries@, remaining@[p as int] as int);
                }
                let ts = read_u64(entries[remaining[p]].0.as_slice(), 0);
                let ht = read_u64(entries[remaining[p]].0.as_slice(), 8);
                if ts < best_ts || (ts == best_ts && ht < best_ht) {
                    best_pos = p;
                    best_ts = ts;
                    best_ht = ht;
                }
                p = p + 1;
            }
            let ghost old_remaining = remaining@;
            let idx = remaining.remove(best_pos);
            proof {
                lemma_remove_shifts(old_remaining, best_pos as int);
                self.lemma_ts_entry_shape(entries@, idx as int);
            }
            let value = &entries[idx].1;
            let hash = read_32(value.as_slice(), 0);
            proof {
                lemma_col_at(entries@, idx as int);
                assert(hash@ =~= self.ts_model()[entries@[idx as int].0@]);
            }
            match self.get_block(&hash) {
                Ok(Some(block)) => {
                    proof {
                        let k = entries@[idx as int].0@;
                        assert(self.ts_model().dom().contains(k) && start_time <= ts_of_key(k)
                            <= end_time && self.blocks_model().dom().contains(self.ts_model()[k])
                            && dec_block(self.blocks_model()[self.ts_model()[k]]) == Some(block@));
                        assert(blocks@.push(block).map_values(|b: Block| b@) =~= blocks@.map_values(
                            |b: Block| b@,
                        ).push(block@));
                        gkeys = gkeys.push(k);
                    }
                    blocks.push(block);
                },
                Ok(None) => {
                    proof {
                        let k = entries@[idx as int].0@;
                        assert(self.ts_model().dom().contains(k) && start_time <= ts_of_key(k)
                            <= end_time);
                        assert(!benign);
                    }
                },
                Err(e) => {
                    proof {
                        let k = entries@[idx as int].0@;
                        assert(self.ts_model().dom().contains(k) && start_time <= ts_of_key(k)
                            <= end_time);
                        assert(!benign);
                    }
                    return Err(e);
                },
            }
            proof {
                lemma_remove_shifts(old_remaining, best_pos as int);
            }
        }
        proof {
            if benign && remaining@.len() > 0 {
                assert(blocks@.len() == limit);
            }
        }
        Ok(blocks)
    }

    /// Find the block stored nearest a timestamp: the first index entry at
    /// or after the probe when its timestamp lies within one second of it,
    /// otherwise the nearest entry before the probe; nothing when neither
    /// exists. The chosen entry's block record is decoded as `get_block`
    /// does.
    pub fn find_block_by_timestamp(&self, timestamp: u64) -> (r: Result<Option<Block>, Error>)
        requires
            self.wf(),
        ensures
            self.ts_entries().len() == 0 ==> r is Ok && r->Ok_0 is None,
            forall|k: Seq<u8>|
                #[trigger] is_first_at_or_after(self.ts_model(), timestamp, k)
                    && within_probe_window(ts_of_key(k), timestamp) ==> chosen_entry_result(
                    self.ts_model(),
                    self.blocks_model(),
                    k,
                    r,
                ),
            no_usable_after(self.ts_model(), timestamp) ==> forall|k: Seq<u8>|
                #[trigger] is_last_before(self.ts_model(), timestamp, k) ==> chosen_entry_result(
                    self.ts_model(),
                    self.blocks_model(),
                    k,
                    r,
                ),
            no_usable_after(self.ts_model(), timestamp) && (forall|k: Seq<u8>|
                #[trigger] self.ts_model().dom().contains(k) ==> ts_of_key(k) >= timestamp) ==> r
                is Ok && r->Ok_0 is None,
    {
        let entries = &self.timestamp_index.entries;
        let mut have_after = false;
        let mut after_idx: usize = 0;
        let mut after_ts: u64 = 0;
        let mut after_ht: u64 = 0;
        let mut have_before = false;
        let mut before_idx: usize = 0;
        let mut before_ts: u64 = 0;
        let mut before_ht: u64 = 0;
        let mut i: usize = 0;
        while i < entries.len()
            invariant
                i <= entries@.len(),
                self.wf(),
                entries@ == self.ts_entries(),
                have_after ==> after_idx < i && ts_of_key(entries@[after_idx as int].0@)
                    >= timestamp && after_ts == ts_of_key(entries@[after_idx as int].0@)
                    && after_ht == height_of_key(entries@[after_idx as int].0@),
                have_before ==> before_idx < i && ts_of_key(entries@[before_idx as int].0@)
                    < timestamp && before_ts == ts_of_key(entries@[before_idx as int].0@)
                    && before_ht == height_of_key(entries@[before_idx as int].0@),
                forall|j: int|
                    0 <= j < i && ts_of_key((#[trigger] entries@[j]).0@) >= timestamp ==> have_after
                        && ts_key_le(entries@[after_idx as int].0@, entries@[j].0@),
                forall|j: int|
                    0 <= j < i && ts_of_key((#[trigger] entries@[j]).0@) < timestamp ==> have_before
                        && ts_key_le(entries@[j].0@, entries@[before_idx as int].0@),
            decreases entries@.len() - i,
        {
            proof {
                self.lemma_ts_entry_shape(entries@, i as int);
            }
            let ts = read_u64(entries[i].0.as_slice(), 0);
            let ht = read_u64(entries[i].0.as_slice(), 8);
            if ts >= timestamp {
                if !have_after || ts < after_ts || (ts == after_ts && ht < after_ht) {
                    have_after = true;
                    after_idx = i;
                    after_ts = ts;
                    after_ht = ht;
                }
            } else {
                if !have_before || ts > before_ts || (ts == before_ts && ht > before_ht) {
                    have_before = true;
                    before_idx = i;
                    before_ts = ts;
                    before_ht = ht;
                }
            }
            i = i + 1;
        }
        proof {
            assert forall|k2: Seq<u8>|
                #[trigger] self.ts_model().dom().contains(k2) implies k2.len() == 16 by {}
            if have_after {
                self.lemma_ts_entry_shape(entries@, after_idx as int);
                assert(is_first_at_or_after(
                    self.ts_model(),
                    timestamp,
                    entries@[after_idx as int].0@,
                )) by {
                    assert forall|k2: Seq<u8>|
                        #[trigger] self.ts_model().dom().contains(k2) && ts_of_key(k2) >= timestamp
                            implies ts_key_le(entries@[after_idx as int].0@, k2) by {
                        lemma_col_dom(entries@, k2);
                        let w = choose|w: int|
                            0 <= w < entries@.len() && (#[trigger] entries@[w]).0@ == k2;
                    }
                }
                lemma_first_after_unique(
                    self.ts_model(),
                    timestamp,
                    entries@[after_idx as int].0@,
                );
            } else {
                assert forall|k2: Seq<u8>|
                    #[trigger] self.ts_model().dom().contains(k2) implies ts_of_key(k2)
                    < timestamp by {
                    lemma_col_dom(entries@, k2);
                    let w = choose|w: int|
                        0 <= w < entries@.len() && (#[trigger] entries@[w]).0@ == k2;
                }
            }
            if have_before {
                self.lemma_ts_entry_shape(entries@, before_idx as int);
                assert(is_last_before(
                    self.ts_model(),
                    timestamp,
                    entries@[before_idx as int].0@,
                )) by {
                    assert forall|k2: Seq<u8>|
                        #[trigger] self.ts_model().dom().contains(k2) && ts_of_key(k2) < timestamp
                            implies ts_key_le(k2, entries@[before_idx as int].0@) by {
                        lemma_col_dom(entries@, k2);
                        let w = choose|w: int|
                            0 <= w < entries@.len() && (#[trigger] entries@[w]).0@ == k2;
                    }
                }
                lemma_last_before_unique(
                    self.ts_model(),
                    timestamp,
                    entries@[before_idx as int].0@,
                );
            } else {
                assert forall|k2: Seq<u8>|
                    #[trigger] self.ts_model().dom().contains(k2) implies ts_of_key(k2)
                    >= timestamp by {
                    lemma_col_dom(entries@, k2);
                    let w = choose|w: int|
                        0 <= w < entries@.len() && (#[trigger] entries@[w]).0@ == k2;
                }
            }
        }
        let use_after = have_after && (after_ts == timestamp || (timestamp < u64::MAX - 1000
            && after_ts < timestamp + 1000));
        if use_after {
            proof {
                self.lemma_ts_entry_shape(entries@, after_idx as int);
            }
            let value = &entries[after_idx].1;
            let hash = read_32(value.as_slice(), 0);
            proof {
                assert(hash@ =~= self.ts_model()[entries@[after_idx as int].0@]);
            }
            return self.get_block(&hash);
        }
        if have_before {
            proof {
                self.lemma_ts_entry_shape(entries@, before_idx as int);
            }
            let value = &entries[before_idx].1;
            let hash = read_32(value.as_slice(), 0);
            proof {
                assert(hash@ =~= self.ts_model()[entries@[before_idx as int].0@]);
            }
            return self.get_block(&hash);
        }
        Ok(None)
    }
}

/// Storing a block and reading it back by its hash yields the block: the
/// stored record at the block's hash decodes to the block itself.
pub proof fn lemma_store_then_get_block(bm: Map<Seq<u8>, Seq<u8>>, b: crate::block::BlockV)
    requires
        crate::codec::block_shape_ok(b),
    ensures
        ({
            let bm2 = bm.insert(header_hash_of(b.header), enc_block(b));
            &&& bm2.dom().contains(header_hash_of(b.header))
            &&& dec_block(bm2[header_hash_of(b.header)]) == Some(b)
        }),
{
    crate::codec::lemma_block_codec_round_trip(b);
}

/// Storing a block makes every one of its transactions retrievable by its
/// hash: when the block's transaction hashes are pairwise distinct, the
/// location record stored for the transaction at `i` decodes and points
/// into the stored block at index `i`.
pub proof fn lemma_store_then_get_transaction(
    tm: Map<Seq<u8>, Seq<u8>>,
    b: crate::block::BlockV,
    i: int,
)
    requires
        crate::codec::block_shape_ok(b),
        header_hash_of(b.header).len() == 32,
        0 <= i < b.transactions.len(),
        b.transactions.len() <= u32::MAX,
        forall|p: int, q: int|
            0 <= p < b.transactions.len() && 0 <= q < b.transactions.len() && p != q ==> tx_hash_of(
                #[trigger] b.transactions[p],
            ) != tx_hash_of(#[trigger] b.transactions[q]),
    ensures
        ({
            let tm2 = txs_index_model(tm, b.transactions, header_hash_of(b.header), 0);
            let h = tx_hash_of(b.transactions[i]);
            &&& tm2.dom().contains(h)
            &&& dec_tx_location(tm2[h]) == Some(
                TxLocationV { block_hash: header_hash_of(b.header), index: i as u32 },
            )
        }),
{
    lemma_txs_index_at(tm, b.transactions, header_hash_of(b.header), 0, i);
    lemma_tx_location_round_trip(
        TxLocationV { block_hash: header_hash_of(b.header), index: i as u32 },
    );
}

/// The location index after storing holds, at the hash of the transaction
/// at `i`, the encoded location with index `base + i`, provided the
/// transaction hashes are pairwise distinct.
proof fn lemma_txs_index_at(
    m: Map<Seq<u8>, Seq<u8>>,
    ts: Seq<crate::transaction::TransactionV>,
    bh: Seq<u8>,
    base: int,
    i: int,
)
    requires
        0 <= i < ts.len(),
        forall|p: int, q: int|
            0 <= p < ts.len() && 0 <= q < ts.len() && p != q ==> tx_hash_of(#[trigger] ts[p])
                != tx_hash_of(#[trigger] ts[q]),
    ensures
        txs_index_model(m, ts, bh, base).dom().contains(tx_hash_of(ts[i])),
        txs_index_model(m, ts, bh, base)[tx_hash_of(ts[i])] == enc_tx_location(
            TxLocationV { block_hash: bh, index: (base + i) as u32 },
        ),
    decreases ts.len(),
{
    let m1 = m.insert(
        tx_hash_of(ts[0]),
        enc_tx_location(TxLocationV { block_hash: bh, index: base as u32 }),
    );
    if i == 0 {
        lemma_txs_index_preserves(m1, ts.skip(1), bh, base + 1, tx_hash_of(ts[0]));
        assert(forall|p: int|
            0 <= p < ts.skip(1).len() ==> tx_hash_of(#[trigger] ts.skip(1)[p]) == tx_hash_of(
                ts[p + 1],
            ));
    } else {
        assert(forall|p: int, q: int|
            0 <= p < ts.skip(1).len() && 0 <= q < ts.skip(1).len() && p != q ==> tx_hash_of(
                #[trigger] ts.skip(1)[p],
            ) != tx_hash_of(#[trigger] ts.skip(1)[q]));
        lemma_txs_index_at(m1, ts.skip(1), bh, base + 1, i - 1);
        assert(ts.skip(1)[i - 1] == ts[i]);
    }
}

/// The location index keeps every key whose transaction hash is not among
/// the stored ones.
proof fn lemma_txs_index_preserves(
    m: Map<Seq<u8>, Seq<u8>>,
    ts: Seq<crate::transaction::TransactionV>,
    bh: Seq<u8>,
    base: int,
    h: Seq<u8>,
)
    requires
        forall|p: int| 0 <= p < ts.len() ==> tx_hash_of(#[trigger] ts[p]) != h,
        m.dom().contains(h),
    ensures
        txs_index_model(m, ts, bh, base).dom().contains(h),
        txs_index_model(m, ts, bh, base)[h] == m[h],
    decreases ts.len(),
{
    if ts.len() > 0 {
        let m1 = m.insert(
            tx_hash_of(ts[0]),
            enc_tx_location(TxLocationV { block_hash: bh, index: base as u32 }),
        );
        assert(forall|p: int|
            0 <= p < ts.skip(1).len() ==> tx_hash_of(#[trigger] ts.skip(1)[p]) == tx_hash_of(
                ts[p + 1],
            ));
        lemma_txs_index_preserves(m1, ts.skip(1), bh, base + 1, h);
    }
}

} // verus!
// chain integrity law

verus! {

/// The height and block maps after storing a sequence of blocks into an
/// empty store, in order.
pub open spec fn chain_maps(blocks: Seq<crate::block::BlockV>) -> (
    Map<Seq<u8>, Seq<u8>>,
    Map<Seq<u8>, Seq<u8>>,
)
    decreases blocks.len(),
{
    if blocks.len() == 0 {
        (Map::empty(), Map::empty())
    } else {
        let (hm, bm) = chain_maps(blocks.drop_last());
        let last = blocks.last();
        (
            hm.insert(spec_u64_to_le_bytes(last.header.height), header_hash_of(last.header)),
            bm.insert(header_hash_of(last.header), enc_block(last)),
        )
    }
}

/// A sequence of blocks forms a chain: the block at position `i` sits at
/// height `i`, is well shaped with a 32-byte header hash, and points at the
/// header hash of the one below it, the genesis block at all zeroes; the
/// header hashes are pairwise distinct.
pub open spec fn blocks_form_chain(blocks: Seq<crate::block::BlockV>) -> bool {
    &&& blocks.len() <= u64::MAX
    &&& forall|i: int|
        0 <= i < blocks.len() ==> (#[trigger] blocks[i]).header.height == i as u64
    &&& forall|i: int| 0 <= i < blocks.len() ==> crate::codec::block_shape_ok(#[trigger] blocks[i])
    &&& forall|i: int|
        0 <= i < blocks.len() ==> header_hash_of((#[trigger] blocks[i]).header).len() == 32
    &&& forall|i: int|
        1 <= i < blocks.len() ==> (#[trigger] blocks[i]).header.prev_hash == header_hash_of(
            blocks[i - 1].header,
        )
    &&& (blocks.len() > 0 ==> blocks[0].header.prev_hash == crate::types::zero_hash())
    &&& forall|i: int, j: int|
        0 <= i < blocks.len() && 0 <= j < blocks.len() && i != j ==> header_hash_of(
            (#[trigger] blocks[i]).header,
        ) != header_hash_of((#[trigger] blocks[j]).header)
}

/// A store produced exclusively by storing a chain of linked blocks, from
/// the genesis block upward, passes the integrity walk: every height from
/// the top of the chain down to zero is sound. One named exception: the
/// law assumes the blocks' header hashes are pairwise distinct, which a
/// hash collision would break.
#[verifier::rlimit(60)]
pub proof fn lemma_chain_store_integrity(blocks: Seq<crate::block::BlockV>)
    requires
        blocks_form_chain(blocks),
        blocks.len() > 0,
    ensures
        spec_chain_ok(chain_maps(blocks).0, chain_maps(blocks).1, blocks.len() - 1),
        forall|i: int|
            0 <= i < blocks.len() ==> chain_maps(blocks).0.dom().contains(
                spec_u64_to_le_bytes(i as u64),
            ) && chain_maps(blocks).0[#[trigger] spec_u64_to_le_bytes(i as u64)] == header_hash_of(
                blocks[i].header,
            ),
        forall|k: Seq<u8>|
            #[trigger] chain_maps(blocks).0.dom().contains(k) ==> exists|i: int|
                0 <= i < blocks.len() && k == #[trigger] spec_u64_to_le_bytes(i as u64),
        is_latest_height(chain_maps(blocks).0, (blocks.len() - 1) as u64),
    decreases blocks.len(),
{
    vstd::bytes::lemma_auto_spec_u64_to_from_le_bytes();
    let (hm, bm) = chain_maps(blocks);
    let last = blocks.last();
    let n = blocks.len() as int;
    if n == 1 {
        crate::codec::lemma_block_codec_round_trip(last);
        assert(blocks.drop_last() =~= Seq::<crate::block::BlockV>::empty());
        assert(hm == Map::<Seq<u8>, Seq<u8>>::empty().insert(
            spec_u64_to_le_bytes(0u64),
            header_hash_of(last.header),
        ));
        assert(height_link_ok(hm, bm, 0));
        assert forall|k: Seq<u8>| #[trigger] hm.dom().contains(k) implies exists|i: int|
            0 <= i < blocks.len() && k == #[trigger] spec_u64_to_le_bytes(i as u64) by {
            assert(k == spec_u64_to_le_bytes(0u64));
            assert(0 <= 0 < blocks.len() && k == spec_u64_to_le_bytes(0 as u64));
        }
        assert forall|k: Seq<u8>| #[trigger] hm.dom().contains(k) implies spec_u64_from_le_bytes(k)
            <= (n - 1) as u64 by {}
    } else {
        let prefix = blocks.drop_last();
        assert(prefix.len() == n - 1);
        assert(blocks_form_chain(prefix)) by {
            assert(forall|i: int| 0 <= i < prefix.len() ==> #[trigger] prefix[i] == blocks[i]);
        }
        lemma_chain_store_integrity(prefix);
        let (hm0, bm0) = chain_maps(prefix);
        crate::codec::lemma_block_codec_round_trip(last);
        // the new height key and block hash are fresh, so every earlier
        // link survives the two inserts
        assert forall|i: int| 0 <= i < n ==> chain_maps(blocks).0.dom().contains(
            spec_u64_to_le_bytes(i as u64),
        ) && chain_maps(blocks).0[#[trigger] spec_u64_to_le_bytes(i as u64)] == header_hash_of(
            blocks[i].header,
        ) by {
            assert forall|i: int|
                0 <= i < n implies hm.dom().contains(spec_u64_to_le_bytes(i as u64)) && hm[
                #[trigger] spec_u64_to_le_bytes(i as u64)] == header_hash_of(blocks[i].header) by {
                if i < n - 1 {
                    assert(prefix[i] == blocks[i]);
                    assert(spec_u64_from_le_bytes(spec_u64_to_le_bytes(i as u64)) == i as u64);
                    assert(spec_u64_from_le_bytes(spec_u64_to_le_bytes((n - 1) as u64)) == (n
                        - 1) as u64);
                    assert(spec_u64_to_le_bytes(i as u64) != spec_u64_to_le_bytes((n - 1) as u64));
                }
            }
        }
        assert forall|k: Seq<u8>| #[trigger] hm.dom().contains(k) implies exists|i: int|
            0 <= i < blocks.len() && k == #[trigger] spec_u64_to_le_bytes(i as u64) by {
            if k == spec_u64_to_le_bytes((n - 1) as u64) {
                assert(0 <= n - 1 < blocks.len() && k == spec_u64_to_le_bytes((n - 1) as u64));
            } else {
                assert(hm0.dom().contains(k));
                let i = choose|i: int|
                    0 <= i < prefix.len() && k == #[trigger] spec_u64_to_le_bytes(i as u64);
                assert(0 <= i < blocks.len() && k == spec_u64_to_le_bytes(i as u64));
            }
        }
        assert forall|k: Seq<u8>| #[trigger] hm.dom().contains(k) implies spec_u64_from_le_bytes(k)
            <= (n - 1) as u64 by {
            let i = choose|i: int|
                0 <= i < blocks.len() && k == #[trigger] spec_u64_to_le_bytes(i as u64);
        }
        assert forall|h: int| 0 <= h <= n - 1 implies height_link_ok(hm, bm, h) by {
            if h < n - 1 {
                assert(height_link_ok(hm0, bm0, h));
                let key = spec_u64_to_le_bytes(h as u64);
                assert(spec_u64_from_le_bytes(key) == h as u64);
                assert(key != spec_u64_to_le_bytes((n - 1) as u64));
                assert(hm[key] == hm0[key]);
                assert(hm0[key] == header_hash_of(blocks[h].header));
                assert(bm[hm0[key]] == bm0[hm0[key]]);
                if h > 0 {
                    let key2 = spec_u64_to_le_bytes((h - 1) as u64);
                    assert(spec_u64_from_le_bytes(key2) == (h - 1) as u64);
                    assert(key2 != spec_u64_to_le_bytes((n - 1) as u64));
                    assert(hm[key2] == hm0[key2]);
                }
            } else {
                let key = spec_u64_to_le_bytes((n - 1) as u64);
                assert(hm[key] == header_hash_of(last.header));
                assert(bm[header_hash_of(last.header)] == enc_block(last));
                assert(dec_block(bm[hm[key]]) == Some(last));
                let key2 = spec_u64_to_le_bytes((n - 2) as u64);
                assert(spec_u64_from_le_bytes(key2) == (n - 2) as u64);
                assert(key2 != key);
                assert(hm[key2] == header_hash_of(blocks[n - 2].header));
                assert(last.header.prev_hash == header_hash_of(blocks[n - 2].header));
            }
        }
    }
}

} // verus!
