//! The library's stable byte encoding for transactions, blocks and account
//! states, with verified decoders and proved round trips.
//!
//! A transaction is encoded as its signing preimage followed by its
//! signature; a block as its encoded header, a 4-byte little-endian
//! transaction count, and the transactions in order; an account state as
//! balance, nonce, an optional code blob and the storage entries, all
//! length-prefixed. Integers are little-endian.

use vstd::prelude::*;

verus! {

use crate::transaction::{Transaction, TransactionV, signing_preimage};
use crate::block::{Block, BlockV, BlockHeader, BlockHeaderV, header_preimage};
use crate::state::{AccountState, AccountStateV};
use vstd::bytes::*;

/// The encoded form of a transaction: preimage, then signature.
pub open spec fn enc_tx(t: TransactionV) -> Seq<u8> {
    signing_preimage(t) + t.signature
}

/// A transaction whose fixed-width fields have their wire widths and whose
/// payload length fits the 4-byte prefix.
pub open spec fn tx_shape_ok(t: TransactionV) -> bool {
    &&& t.sender.len() == 32
    &&& t.recipient.len() == 32
    &&& t.signature.len() == 64
    &&& t.data.len() <= u32::MAX
}


/// When a window of `s` equals `e`, every subrange of the window equals the
/// corresponding subrange of `e`.
pub proof fn lemma_window_subrange(s: Seq<u8>, pos: int, e: Seq<u8>, a: int, b: int)
    requires
        0 <= pos,
        pos + e.len() <= s.len(),
        s.subrange(pos, pos + e.len() as int) == e,
        0 <= a <= b <= e.len(),
    ensures
        s.subrange(pos + a, pos + b) == e.subrange(a, b),
{
    assert(s.subrange(pos + a, pos + b) =~= e.subrange(a, b)) by {
        assert(forall|k: int|
            0 <= k < e.len() ==> e[k] == #[trigger] s.subrange(pos, pos + e.len() as int)[k]);
    }
}

/// The decoded transaction at `pos`, with the position after it.
pub open spec fn dec_tx_at(s: Seq<u8>, pos: int) -> Option<(TransactionV, int)> {
    if pos < 0 || s.len() - pos < 157 {
        None
    } else {
        let dlen = spec_u32_from_le_bytes(s.subrange(pos + 89, pos + 93)) as int;
        if s.len() - pos - 157 < dlen {
            None
        } else {
            Some(
                (
                    TransactionV {
                        version: s[pos],
                        sender: s.subrange(pos + 1, pos + 33),
                        recipient: s.subrange(pos + 33, pos + 65),
                        amount: spec_u64_from_le_bytes(s.subrange(pos + 65, pos + 73)),
                        fee: spec_u64_from_le_bytes(s.subrange(pos + 73, pos + 81)),
                        nonce: spec_u64_from_le_bytes(s.subrange(pos + 81, pos + 89)),
                        data: s.subrange(pos + 93, pos + 93 + dlen),
                        signature: s.subrange(pos + 93 + dlen, pos + 157 + dlen),
                    },
                    pos + 157 + dlen,
                ),
            )
        }
    }
}

/// Encoding then decoding a well-shaped transaction, wherever it stands in
/// a longer byte string, yields the transaction back.
pub proof fn lemma_tx_round_trip(s: Seq<u8>, pos: int, t: TransactionV)
    requires
        tx_shape_ok(t),
        0 <= pos,
        pos + enc_tx(t).len() <= s.len(),
        s.subrange(pos, pos + enc_tx(t).len()) == enc_tx(t),
    ensures
        dec_tx_at(s, pos) == Some((t, pos + enc_tx(t).len())),
{
    lemma_auto_spec_u64_to_from_le_bytes();
    lemma_auto_spec_u32_to_from_le_bytes();
    let e = enc_tx(t);
    let n = t.data.len() as int;
    assert(e.len() == 157 + n);
    assert forall|a: int, b: int| 0 <= a <= b <= e.len() implies s.subrange(pos + a, pos + b)
        =~= e.subrange(a, b) by {
        assert(forall|k: int|
            0 <= k < e.len() ==> s[pos + k] == #[trigger] e[k]) by {
            assert(forall|k: int|
                0 <= k < e.len() ==> e[k] == #[trigger] s.subrange(pos, pos + e.len())[k]);
        }
    }
    assert(e.subrange(89, 93) =~= spec_u32_to_le_bytes(t.data.len() as u32));
    assert(spec_u32_from_le_bytes(s.subrange(pos + 89, pos + 93)) == t.data.len() as u32);
    assert(s[pos] == e[0]);
    assert(e[0] == t.version);
    assert(e.subrange(1, 33) =~= t.sender);
    assert(e.subrange(33, 65) =~= t.recipient);
    assert(e.subrange(65, 73) =~= spec_u64_to_le_bytes(t.amount));
    assert(e.subrange(73, 81) =~= spec_u64_to_le_bytes(t.fee));
    assert(e.subrange(81, 89) =~= spec_u64_to_le_bytes(t.nonce));
    assert(e.subrange(93, 93 + n) =~= t.data);
    assert(e.subrange(93 + n, 157 + n) =~= t.signature);
    let d = dec_tx_at(s, pos)->Some_0;
    assert(d.0.sender == t.sender);
    assert(d.0 == t);
}

/// Reads 32 bytes at `pos`.
pub fn read_32(bytes: &[u8], pos: usize) -> (r: [u8; 32])
    requires
        pos + 32 <= bytes@.len(),
    ensures
        r@ == bytes@.subrange(pos as int, pos as int + 32),
{
    let total = bytes.len();
    let mut out: [u8; 32] = [0u8; 32];
    let mut i: usize = 0;
    while i < 32
        invariant
            i <= 32,
            pos + 32 <= bytes@.len(),
            bytes@.len() == total,
            forall|j: int| 0 <= j < i ==> out@[j] == bytes@[pos + j],
        decreases 32 - i,
    {
        out[i] = bytes[pos + i];
        i = i + 1;
    }
    proof {
        assert(out@ =~= bytes@.subrange(pos as int, pos as int + 32));
    }
    out
}

/// Reads 64 bytes at `pos`.
pub fn read_64(bytes: &[u8], pos: usize) -> (r: [u8; 64])
    requires
        pos + 64 <= bytes@.len(),
    ensures
        r@ == bytes@.subrange(pos as int, pos as int + 64),
{
    let total = bytes.len();
    let mut out: [u8; 64] = [0u8; 64];
    let mut i: usize = 0;
    while i < 64
        invariant
            i <= 64,
            pos + 64 <= bytes@.len(),
            bytes@.len() == total,
            forall|j: int| 0 <= j < i ==> out@[j] == bytes@[pos + j],
        decreases 64 - i,
    {
        out[i] = bytes[pos + i];
        i = i + 1;
    }
    proof {
        assert(out@ =~= bytes@.subrange(pos as int, pos as int + 64));
    }
    out
}

/// Reads a little-endian u64 at `pos`.
pub fn read_u64(bytes: &[u8], pos: usize) -> (r: u64)
    requires
        pos + 8 <= bytes@.len(),
    ensures
        r == spec_u64_from_le_bytes(bytes@.subrange(pos as int, pos as int + 8)),
{
    let total = bytes.len();
    let sub = vstd::slice::slice_subrange(bytes, pos, pos + 8);
    u64_from_le_bytes(sub)
}

/// Reads a little-endian u32 at `pos`.
pub fn read_u32(bytes: &[u8], pos: usize) -> (r: u32)
    requires
        pos + 4 <= bytes@.len(),
    ensures
        r == spec_u32_from_le_bytes(bytes@.subrange(pos as int, pos as int + 4)),
{
    let total = bytes.len();
    let sub = vstd::slice::slice_subrange(bytes, pos, pos + 4);
    u32_from_le_bytes(sub)
}

/// Reads `count` bytes at `pos` into a vector.
pub fn read_bytes(bytes: &[u8], pos: usize, count: usize) -> (r: Vec<u8>)
    requires
        pos + count <= bytes@.len(),
    ensures
        r@ == bytes@.subrange(pos as int, pos as int + count as int),
{
    let total = bytes.len();
    let sub = vstd::slice::slice_subrange(bytes, pos, pos + count);
    let mut out: Vec<u8> = Vec::new();
    out.extend_from_slice(sub);
    proof {
        assert(out@ =~= bytes@.subrange(pos as int, pos as int + count as int));
    }
    out
}

/// Encode a transaction: its signing preimage followed by its signature.
pub fn encode_transaction(tx: &Transaction) -> (r: Vec<u8>)
    ensures
        r@ == enc_tx(tx@),
{
    let mut out = tx.serialized_for_signing();
    out.extend_from_slice(tx.signature.as_slice());
    proof {
        assert(out@ =~= enc_tx(tx@));
    }
    out
}

/// Decode a transaction at `pos`; returns the transaction and the position
/// after it, exactly as the decoding function of the byte string gives.
pub fn decode_transaction_at(bytes: &[u8], pos: usize) -> (r: Option<(Transaction, usize)>)
    ensures
        match r {
            Some((tx, next)) => dec_tx_at(bytes@, pos as int) == Some((tx@, next as int)),
            None => dec_tx_at(bytes@, pos as int) is None,
        },
{
    if bytes.len() < pos || bytes.len() - pos < 157 {
        return None;
    }
    let dlen32 = read_u32(bytes, pos + 89);
    let dlen = dlen32 as usize;
    if bytes.len() - pos - 157 < dlen {
        return None;
    }
    let version = bytes[pos];
    let sender = read_32(bytes, pos + 1);
    let recipient = read_32(bytes, pos + 33);
    let amount = read_u64(bytes, pos + 65);
    let fee = read_u64(bytes, pos + 73);
    let nonce = read_u64(bytes, pos + 81);
    let data = read_bytes(bytes, pos + 93, dlen);
    let signature = read_64(bytes, pos + 93 + dlen);
    let tx = Transaction { version, sender, recipient, amount, fee, nonce, data, signature };
    Some((tx, pos + 157 + dlen))
}

/// A byte string decodes as one transaction when one stands at its start
/// and fills it exactly.
pub open spec fn dec_tx(s: Seq<u8>) -> Option<TransactionV> {
    match dec_tx_at(s, 0) {
        Some((t, next)) => if next == s.len() {
            Some(t)
        } else {
            None
        },
        None => None,
    }
}

/// Decode a byte string holding exactly one transaction.
pub fn decode_transaction(bytes: &[u8]) -> (r: Option<Transaction>)
    ensures
        match r {
            Some(tx) => dec_tx(bytes@) == Some(tx@),
            None => dec_tx(bytes@) is None,
        },
{
    match decode_transaction_at(bytes, 0) {
        Some((tx, next)) => {
            if next == bytes.len() {
                Some(tx)
            } else {
                None
            }
        },
        None => None,
    }
}

/// Decoding the encoding of a well-shaped transaction yields it back.
pub proof fn lemma_tx_codec_round_trip(t: TransactionV)
    requires
        tx_shape_ok(t),
    ensures
        dec_tx(enc_tx(t)) == Some(t),
{
    let e = enc_tx(t);
    assert(e.subrange(0, e.len() as int) =~= e);
    lemma_tx_round_trip(e, 0, t);
}

/// The encoded form of a block header: preimage, then signature (177 bytes).
pub open spec fn enc_header(h: BlockHeaderV) -> Seq<u8> {
    header_preimage(h) + h.signature
}

/// A header whose fixed-width fields have their wire widths.
pub open spec fn header_shape_ok(h: BlockHeaderV) -> bool {
    &&& h.prev_hash.len() == 32
    &&& h.merkle_root.len() == 32
    &&& h.validator.len() == 32
    &&& h.signature.len() == 64
}

/// The decoded header at `pos`, with the position after it.
pub open spec fn dec_header_at(s: Seq<u8>, pos: int) -> Option<(BlockHeaderV, int)> {
    if pos < 0 || s.len() - pos < 177 {
        None
    } else {
        Some(
            (
                BlockHeaderV {
                    version: s[pos],
                    prev_hash: s.subrange(pos + 1, pos + 33),
                    merkle_root: s.subrange(pos + 33, pos + 65),
                    timestamp: spec_u64_from_le_bytes(s.subrange(pos + 65, pos + 73)),
                    height: spec_u64_from_le_bytes(s.subrange(pos + 73, pos + 81)),
                    validator: s.subrange(pos + 81, pos + 113),
                    signature: s.subrange(pos + 113, pos + 177),
                },
                pos + 177,
            ),
        )
    }
}

/// Encoding then decoding a well-shaped header, wherever it stands, yields
/// it back.
pub proof fn lemma_header_round_trip(s: Seq<u8>, pos: int, h: BlockHeaderV)
    requires
        header_shape_ok(h),
        0 <= pos,
        pos + 177 <= s.len(),
        s.subrange(pos, pos + 177) == enc_header(h),
    ensures
        dec_header_at(s, pos) == Some((h, pos + 177)),
{
    lemma_auto_spec_u64_to_from_le_bytes();
    let e = enc_header(h);
    assert(e.len() == 177);
    assert forall|a: int, b: int| 0 <= a <= b <= 177 implies s.subrange(pos + a, pos + b)
        =~= e.subrange(a, b) by {
        assert(forall|k: int|
            0 <= k < 177 ==> e[k] == #[trigger] s.subrange(pos, pos + 177)[k]);
    }
    assert(s[pos] == e[0]);
    assert(e[0] == h.version);
    assert(e.subrange(1, 33) =~= h.prev_hash);
    assert(e.subrange(33, 65) =~= h.merkle_root);
    assert(e.subrange(65, 73) =~= spec_u64_to_le_bytes(h.timestamp));
    assert(e.subrange(73, 81) =~= spec_u64_to_le_bytes(h.height));
    assert(e.subrange(81, 113) =~= h.validator);
    assert(e.subrange(113, 177) =~= h.signature);
    let d = dec_header_at(s, pos)->Some_0;
    assert(d.0 == h);
}

/// The concatenation of the encodings of a transaction sequence.
pub open spec fn enc_txs(ts: Seq<TransactionV>) -> Seq<u8>
    decreases ts.len(),
{
    if ts.len() == 0 {
        Seq::empty()
    } else {
        enc_tx(ts[0]) + enc_txs(ts.skip(1))
    }
}

/// The decoded sequence of `n` transactions starting at `pos`.
pub open spec fn dec_txs_at(s: Seq<u8>, pos: int, n: int) -> Option<(Seq<TransactionV>, int)>
    decreases n,
{
    if n <= 0 {
        Some((Seq::empty(), pos))
    } else {
        match dec_tx_at(s, pos) {
            Some((t, next)) => match dec_txs_at(s, next, n - 1) {
                Some((rest, end)) => Some((seq![t] + rest, end)),
                None => None,
            },
            None => None,
        }
    }
}

/// Every transaction of a sequence is well shaped.
pub open spec fn txs_shape_ok(ts: Seq<TransactionV>) -> bool {
    forall|i: int| 0 <= i < ts.len() ==> tx_shape_ok(#[trigger] ts[i])
}

/// Encoding then decoding a well-shaped transaction sequence, wherever it
/// stands, yields it back.
pub proof fn lemma_txs_round_trip(s: Seq<u8>, pos: int, ts: Seq<TransactionV>)
    requires
        txs_shape_ok(ts),
        0 <= pos,
        pos + enc_txs(ts).len() <= s.len(),
        s.subrange(pos, pos + enc_txs(ts).len()) == enc_txs(ts),
    ensures
        dec_txs_at(s, pos, ts.len() as int) == Some((ts, pos + enc_txs(ts).len())),
    decreases ts.len(),
{
    if ts.len() == 0 {
        assert(dec_txs_at(s, pos, 0) == Some((Seq::<TransactionV>::empty(), pos)));
        assert(ts =~= Seq::<TransactionV>::empty());
    } else {
        let t0 = ts[0];
        let e0 = enc_tx(t0);
        let rest = enc_txs(ts.skip(1));
        assert(enc_txs(ts) == e0 + rest);
        lemma_window_subrange(s, pos, enc_txs(ts), 0, e0.len() as int);
        assert(enc_txs(ts).subrange(0, e0.len() as int) =~= e0);
        lemma_tx_round_trip(s, pos, t0);
        let next = pos + e0.len() as int;
        lemma_window_subrange(s, pos, enc_txs(ts), e0.len() as int, enc_txs(ts).len() as int);
        assert(enc_txs(ts).subrange(e0.len() as int, enc_txs(ts).len() as int) =~= rest);
        assert(txs_shape_ok(ts.skip(1))) by {
            assert(forall|i: int| 0 <= i < ts.skip(1).len() ==> #[trigger] ts.skip(1)[i] == ts[i + 1]);
        }
        lemma_txs_round_trip(s, next, ts.skip(1));
        assert(seq![t0] + ts.skip(1) =~= ts);
    }
}

/// The encoded form of a block: header, 4-byte little-endian transaction
/// count, then the transactions in order.
pub open spec fn enc_block(b: BlockV) -> Seq<u8> {
    enc_header(b.header) + spec_u32_to_le_bytes(b.transactions.len() as u32) + enc_txs(
        b.transactions,
    )
}

/// A block whose header and transactions are well shaped and whose
/// transaction count fits the 4-byte prefix.
pub open spec fn block_shape_ok(b: BlockV) -> bool {
    &&& header_shape_ok(b.header)
    &&& txs_shape_ok(b.transactions)
    &&& b.transactions.len() <= u32::MAX
}

/// The block a byte string decodes to, when it fills it exactly.
pub open spec fn dec_block(s: Seq<u8>) -> Option<BlockV> {
    match dec_header_at(s, 0) {
        Some((h, p1)) => if s.len() - p1 < 4 {
            None
        } else {
            let n = spec_u32_from_le_bytes(s.subrange(p1, p1 + 4)) as int;
            match dec_txs_at(s, p1 + 4, n) {
                Some((ts, end)) => if end == s.len() {
                    Some(BlockV { header: h, transactions: ts })
                } else {
                    None
                },
                None => None,
            }
        },
        None => None,
    }
}

/// Decoding the encoding of a well-shaped block yields it back.
pub proof fn lemma_block_codec_round_trip(b: BlockV)
    requires
        block_shape_ok(b),
    ensures
        dec_block(enc_block(b)) == Some(b),
{
    lemma_auto_spec_u32_to_from_le_bytes();
    lemma_auto_spec_u64_to_from_le_bytes();
    let e = enc_block(b);
    let eh = enc_header(b.header);
    let cnt = spec_u32_to_le_bytes(b.transactions.len() as u32);
    let etxs = enc_txs(b.transactions);
    assert(e =~= eh + cnt + etxs);
    assert(e.len() == 181 + etxs.len());
    assert(e.subrange(0, e.len() as int) =~= e);
    lemma_window_subrange(e, 0, e, 0, 177);
    assert(e.subrange(0, 177) =~= eh) by {
        assert(forall|k: int| 0 <= k < 177 ==> ((eh + cnt) + etxs)[k] == eh[k]);
    }
    lemma_header_round_trip(e, 0, b.header);
    assert(e.subrange(177, 181) =~= cnt) by {
        assert(forall|k: int| 177 <= k < 181 ==> ((eh + cnt) + etxs)[k] == cnt[k - 177]);
    }
    assert(spec_u32_from_le_bytes(e.subrange(177, 181)) == b.transactions.len() as u32);
    assert(e.subrange(181, 181 + etxs.len() as int) =~= etxs) by {
        assert(forall|k: int| 181 <= k < e.len() ==> ((eh + cnt) + etxs)[k] == etxs[k - 181]);
    }
    lemma_txs_round_trip(e, 181, b.transactions);
}

/// Encode a block header.
pub fn encode_header(h: &BlockHeader) -> (r: Vec<u8>)
    ensures
        r@ == enc_header(h@),
{
    let mut out = h.serialize_for_hashing();
    out.extend_from_slice(h.signature.as_slice());
    proof {
        assert(out@ =~= enc_header(h@));
    }
    out
}

/// Encode a block.
pub fn encode_block(b: &Block) -> (r: Vec<u8>)
    ensures
        r@ == enc_block(b@),
{
    let mut out = encode_header(&b.header);
    let count_bytes = u32_to_le_bytes(b.transactions.len() as u32);
    out.extend_from_slice(count_bytes.as_slice());
    let ghost prefix = out@;
    let mut i: usize = 0;
    while i < b.transactions.len()
        invariant
            i <= b.transactions@.len(),
            out@ == prefix + enc_txs(b@.transactions.take(i as int)),
        decreases b.transactions@.len() - i,
    {
        let etx = encode_transaction(&b.transactions[i]);
        out.extend_from_slice(etx.as_slice());
        proof {
            lemma_enc_txs_snoc(b@.transactions, i as int);
            assert(out@ =~= prefix + enc_txs(b@.transactions.take(i as int + 1)));
        }
        i = i + 1;
    }
    proof {
        assert(b@.transactions.take(b@.transactions.len() as int) =~= b@.transactions);
        assert(out@ =~= enc_block(b@));
    }
    out
}

/// Encoding one more transaction extends the concatenation by its encoding.
pub proof fn lemma_enc_txs_snoc(ts: Seq<TransactionV>, i: int)
    requires
        0 <= i < ts.len(),
    ensures
        enc_txs(ts.take(i + 1)) == enc_txs(ts.take(i)) + enc_tx(ts[i]),
    decreases i,
{
    if i == 0 {
        assert(ts.take(1) =~= seq![ts[0]]);
        assert(ts.take(1).skip(1) =~= Seq::<TransactionV>::empty());
        assert(ts.take(0) =~= Seq::<TransactionV>::empty());
        assert(enc_txs(ts.take(1)) == enc_tx(ts.take(1)[0]) + enc_txs(ts.take(1).skip(1)));
        assert(enc_tx(ts[0]) + Seq::<u8>::empty() =~= enc_tx(ts[0]));
        assert(enc_txs(ts.take(0)) + enc_tx(ts[0]) =~= enc_tx(ts[0]));
    } else {
        lemma_enc_txs_snoc(ts.skip(1), i - 1);
        assert(ts.take(i + 1).skip(1) =~= ts.skip(1).take(i));
        assert(ts.take(i).skip(1) =~= ts.skip(1).take(i - 1));
        assert(ts.take(i + 1)[0] == ts[0]);
        assert(ts.take(i)[0] == ts[0]);
        assert(ts.skip(1)[i - 1] == ts[i]);
        assert(enc_txs(ts.take(i + 1)) == enc_tx(ts[0]) + enc_txs(ts.skip(1).take(i)));
        assert(enc_tx(ts[0]) + (enc_txs(ts.skip(1).take(i - 1)) + enc_tx(ts[i])) =~= (enc_tx(ts[0])
            + enc_txs(ts.skip(1).take(i - 1))) + enc_tx(ts[i]));
    }
}

/// Decode a byte string holding exactly one block.
pub fn decode_block(bytes: &[u8]) -> (r: Option<Block>)
    ensures
        match r {
            Some(b) => dec_block(bytes@) == Some(b@),
            None => dec_block(bytes@) is None,
        },
{
    if bytes.len() < 177 {
        return None;
    }
    let version = bytes[0];
    let prev_hash = read_32(bytes, 1);
    let merkle_root = read_32(bytes, 33);
    let timestamp = read_u64(bytes, 65);
    let height = read_u64(bytes, 73);
    let validator = read_32(bytes, 81);
    let signature = read_64(bytes, 113);
    let header = BlockHeader {
        version,
        prev_hash,
        merkle_root,
        timestamp,
        height,
        validator,
        signature,
    };
    proof {
        assert(dec_header_at(bytes@, 0) == Some((header@, 177int)));
    }
    if bytes.len() - 177 < 4 {
        return None;
    }
    let n = read_u32(bytes, 177);
    let mut transactions: Vec<Transaction> = Vec::new();
    let mut pos: usize = 181;
    let mut k: u32 = 0;
    proof {
        let r0 = dec_txs_at(bytes@, 181, n as int);
        if r0 is Some {
            assert(Seq::<TransactionV>::empty() + r0->Some_0.0 =~= r0->Some_0.0);
        }
        assert(transactions@.map_values(|t: Transaction| t@) =~= Seq::<TransactionV>::empty());
    }
    while k < n
        invariant
            k <= n,
            181 <= pos <= bytes@.len(),
            transactions@.len() == k,
            dec_header_at(bytes@, 0) == Some((header@, 177int)),
            n == spec_u32_from_le_bytes(bytes@.subrange(177, 181)),
            dec_txs_at(bytes@, 181, n as int) == dec_txs_cont(
                transactions@.map_values(|t: Transaction| t@),
                bytes@,
                pos as int,
                n as int - k as int,
            ),
        decreases n - k,
    {
        let ghost pre_txs = transactions@.map_values(|t: Transaction| t@);
        match decode_transaction_at(bytes, pos) {
            Some((tx, next)) => {
                proof {
                    lemma_dec_tx_at_bounds(bytes@, pos as int);
                    lemma_dec_txs_step(bytes@, pos as int, next as int, n as int - k as int, tx@);
                }
                transactions.push(tx);
                proof {
                    assert(transactions@.map_values(|t: Transaction| t@) =~= pre_txs + seq![tx@]);
                    let r1 = dec_txs_at(bytes@, next as int, n as int - k as int - 1);
                    if r1 is Some {
                        assert(pre_txs + (seq![tx@] + r1->Some_0.0) =~= (pre_txs + seq![tx@])
                            + r1->Some_0.0);
                    }
                }
                pos = next;
                k = k + 1;
            },
            None => {
                return None;
            },
        }
    }
    if pos != bytes.len() {
        proof {
            lemma_dec_txs_cont_done(transactions@.map_values(|t: Transaction| t@), bytes@, pos as int);
        }
        return None;
    }
    let b = Block { header, transactions };
    proof {
        lemma_dec_txs_cont_done(transactions@.map_values(|t: Transaction| t@), bytes@, pos as int);
        assert(dec_block(bytes@) == Some(b@));
    }
    Some(b)
}

/// A decoded prefix followed by a decode of zero transactions is the
/// prefix itself, ending where it stands.
proof fn lemma_dec_txs_cont_done(prefix: Seq<TransactionV>, s: Seq<u8>, pos: int)
    ensures
        dec_txs_cont(prefix, s, pos, 0) == Some((prefix, pos)),
{
    assert(prefix + Seq::<TransactionV>::empty() =~= prefix);
}

/// A decoded tail appended to an already decoded prefix.
pub open spec fn dec_txs_cont(prefix: Seq<TransactionV>, s: Seq<u8>, pos: int, m: int) -> Option<
    (Seq<TransactionV>, int),
> {
    match dec_txs_at(s, pos, m) {
        Some((rest, end)) => Some((prefix + rest, end)),
        None => None,
    }
}

/// Prepending one decoded transaction to a decoded tail decodes as one
/// longer sequence.
proof fn lemma_dec_txs_step(s: Seq<u8>, pos: int, next: int, m: int, t: TransactionV)
    requires
        m >= 1,
        dec_tx_at(s, pos) == Some((t, next)),
    ensures
        dec_txs_at(s, pos, m) == match dec_txs_at(s, next, m - 1) {
            Some((rest, end)) => Some((seq![t] + rest, end)),
            None => None::<(Seq<TransactionV>, int)>,
        },
{
}

/// A decoded transaction's end position lies within the byte string and
/// after its start.
pub proof fn lemma_dec_tx_at_bounds(s: Seq<u8>, pos: int)
    requires
        dec_tx_at(s, pos) is Some,
    ensures
        pos <= dec_tx_at(s, pos)->Some_0.1 <= s.len(),
{
}

} // verus!
// account state encoding

verus! {

/// The encoded form of one storage entry: 32-byte key, 4-byte little-endian
/// value length, value.
pub open spec fn enc_entry(e: (Seq<u8>, Seq<u8>)) -> Seq<u8> {
    e.0 + spec_u32_to_le_bytes(e.1.len() as u32) + e.1
}

/// The concatenation of the encodings of the storage entries.
pub open spec fn enc_entries(es: Seq<(Seq<u8>, Seq<u8>)>) -> Seq<u8>
    decreases es.len(),
{
    if es.len() == 0 {
        Seq::empty()
    } else {
        enc_entry(es[0]) + enc_entries(es.skip(1))
    }
}

/// The encoded form of the optional code blob: a presence byte, then a
/// 4-byte little-endian length and the bytes when present.
pub open spec fn enc_code(c: Option<Seq<u8>>) -> Seq<u8> {
    match c {
        None => seq![0u8],
        Some(bs) => seq![1u8] + spec_u32_to_le_bytes(bs.len() as u32) + bs,
    }
}

/// The encoded form of an account state: balance, nonce, code, 4-byte
/// little-endian storage entry count, then the entries.
pub open spec fn enc_account(a: AccountStateV) -> Seq<u8> {
    spec_u64_to_le_bytes(a.balance) + spec_u64_to_le_bytes(a.nonce) + enc_code(a.code)
        + spec_u32_to_le_bytes(a.storage.len() as u32) + enc_entries(a.storage)
}

/// An account state whose parts fit their length prefixes.
pub open spec fn account_shape_ok(a: AccountStateV) -> bool {
    &&& match a.code {
        Some(bs) => bs.len() <= u32::MAX,
        None => true,
    }
    &&& a.storage.len() <= u32::MAX
    &&& forall|i: int|
        0 <= i < a.storage.len() ==> (#[trigger] a.storage[i]).0.len() == 32 && a.storage[i].1.len()
            <= u32::MAX
}

/// The decoded storage entry at `pos`, with the position after it.
pub open spec fn dec_entry_at(s: Seq<u8>, pos: int) -> Option<((Seq<u8>, Seq<u8>), int)> {
    if pos < 0 || s.len() - pos < 36 {
        None
    } else {
        let vlen = spec_u32_from_le_bytes(s.subrange(pos + 32, pos + 36)) as int;
        if s.len() - pos - 36 < vlen {
            None
        } else {
            Some(((s.subrange(pos, pos + 32), s.subrange(pos + 36, pos + 36 + vlen)), pos + 36 + vlen))
        }
    }
}

/// The decoded sequence of `n` storage entries starting at `pos`.
pub open spec fn dec_entries_at(s: Seq<u8>, pos: int, n: int) -> Option<
    (Seq<(Seq<u8>, Seq<u8>)>, int),
>
    decreases n,
{
    if n <= 0 {
        Some((Seq::empty(), pos))
    } else {
        match dec_entry_at(s, pos) {
            Some((e, next)) => match dec_entries_at(s, next, n - 1) {
                Some((rest, end)) => Some((seq![e] + rest, end)),
                None => None,
            },
            None => None,
        }
    }
}

/// The account state a byte string decodes to, when it fills it exactly.
pub open spec fn dec_account(s: Seq<u8>) -> Option<AccountStateV> {
    if s.len() < 17 {
        None
    } else {
        let balance = spec_u64_from_le_bytes(s.subrange(0, 8));
        let nonce = spec_u64_from_le_bytes(s.subrange(8, 16));
        let tag = s[16];
        if tag != 0 && tag != 1 {
            None
        } else if tag == 1 && s.len() < 21 {
            None
        } else {
            let clen = if tag == 0 { 0int } else {
                spec_u32_from_le_bytes(s.subrange(17, 21)) as int
            };
            let p = if tag == 0 { 17int } else { 21 + clen };
            if tag == 1 && s.len() - 21 < clen {
                None
            } else {
                let code = if tag == 0 { None } else { Some(s.subrange(21, 21 + clen)) };
                if s.len() - p < 4 {
                    None
                } else {
                    let cnt = spec_u32_from_le_bytes(s.subrange(p, p + 4)) as int;
                    match dec_entries_at(s, p + 4, cnt) {
                        Some((es, end)) => if end == s.len() {
                            Some(AccountStateV { balance, nonce, code, storage: es })
                        } else {
                            None
                        },
                        None => None,
                    }
                }
            }
        }
    }
}

/// Encoding one more storage entry extends the concatenation by its encoding.
proof fn lemma_enc_entries_snoc(es: Seq<(Seq<u8>, Seq<u8>)>, i: int)
    requires
        0 <= i < es.len(),
    ensures
        enc_entries(es.take(i + 1)) == enc_entries(es.take(i)) + enc_entry(es[i]),
    decreases i,
{
    if i == 0 {
        assert(es.take(1) =~= seq![es[0]]);
        assert(es.take(1).skip(1) =~= Seq::<(Seq<u8>, Seq<u8>)>::empty());
        assert(es.take(0) =~= Seq::<(Seq<u8>, Seq<u8>)>::empty());
        assert(enc_entries(es.take(1)) == enc_entry(es.take(1)[0]) + enc_entries(es.take(1).skip(1)));
        assert(enc_entry(es[0]) + Seq::<u8>::empty() =~= enc_entry(es[0]));
        assert(enc_entries(es.take(0)) + enc_entry(es[0]) =~= enc_entry(es[0]));
    } else {
        lemma_enc_entries_snoc(es.skip(1), i - 1);
        assert(es.take(i + 1).skip(1) =~= es.skip(1).take(i));
        assert(es.take(i).skip(1) =~= es.skip(1).take(i - 1));
        assert(es.take(i + 1)[0] == es[0]);
        assert(es.take(i)[0] == es[0]);
        assert(es.skip(1)[i - 1] == es[i]);
        assert(enc_entries(es.take(i + 1)) == enc_entry(es[0]) + enc_entries(es.skip(1).take(i)));
        assert(enc_entry(es[0]) + (enc_entries(es.skip(1).take(i - 1)) + enc_entry(es[i]))
            =~= (enc_entry(es[0]) + enc_entries(es.skip(1).take(i - 1))) + enc_entry(es[i]));
    }
}

/// Every entry of a storage sequence is well shaped.
pub open spec fn entries_shape_ok(es: Seq<(Seq<u8>, Seq<u8>)>) -> bool {
    forall|i: int| 0 <= i < es.len() ==> (#[trigger] es[i]).0.len() == 32 && es[i].1.len() <= u32::MAX
}

/// Encoding then decoding a well-shaped entry, wherever it stands, yields
/// it back.
proof fn lemma_entry_round_trip(s: Seq<u8>, pos: int, e: (Seq<u8>, Seq<u8>))
    requires
        e.0.len() == 32,
        e.1.len() <= u32::MAX,
        0 <= pos,
        pos + enc_entry(e).len() <= s.len(),
        s.subrange(pos, pos + enc_entry(e).len()) == enc_entry(e),
    ensures
        dec_entry_at(s, pos) == Some((e, pos + enc_entry(e).len())),
{
    lemma_auto_spec_u32_to_from_le_bytes();
    let ee = enc_entry(e);
    let n = e.1.len() as int;
    assert(ee.len() == 36 + n);
    lemma_window_subrange(s, pos, ee, 0, 32);
    lemma_window_subrange(s, pos, ee, 32, 36);
    lemma_window_subrange(s, pos, ee, 36, 36 + n);
    assert(ee.subrange(0, 32) =~= e.0);
    assert(ee.subrange(32, 36) =~= spec_u32_to_le_bytes(e.1.len() as u32));
    assert(ee.subrange(36, 36 + n) =~= e.1);
    let d = dec_entry_at(s, pos)->Some_0;
    assert(d.0.0 == e.0);
    assert(d.0.1 == e.1);
    assert(d.0 == e);
}

/// Encoding then decoding a well-shaped entry sequence, wherever it
/// stands, yields it back.
proof fn lemma_entries_round_trip(s: Seq<u8>, pos: int, es: Seq<(Seq<u8>, Seq<u8>)>)
    requires
        entries_shape_ok(es),
        0 <= pos,
        pos + enc_entries(es).len() <= s.len(),
        s.subrange(pos, pos + enc_entries(es).len()) == enc_entries(es),
    ensures
        dec_entries_at(s, pos, es.len() as int) == Some((es, pos + enc_entries(es).len())),
    decreases es.len(),
{
    if es.len() == 0 {
        assert(es =~= Seq::<(Seq<u8>, Seq<u8>)>::empty());
    } else {
        let e0 = enc_entry(es[0]);
        let rest = enc_entries(es.skip(1));
        lemma_window_subrange(s, pos, enc_entries(es), 0, e0.len() as int);
        assert(enc_entries(es).subrange(0, e0.len() as int) =~= e0);
        lemma_entry_round_trip(s, pos, es[0]);
        let next = pos + e0.len() as int;
        lemma_window_subrange(s, pos, enc_entries(es), e0.len() as int, enc_entries(es).len() as int);
        assert(enc_entries(es).subrange(e0.len() as int, enc_entries(es).len() as int) =~= rest);
        assert(entries_shape_ok(es.skip(1))) by {
            assert(forall|i: int|
                0 <= i < es.skip(1).len() ==> #[trigger] es.skip(1)[i] == es[i + 1]);
        }
        lemma_entries_round_trip(s, next, es.skip(1));
        assert(seq![es[0]] + es.skip(1) =~= es);
    }
}

/// Decoding the encoding of a well-shaped account state yields it back.
pub proof fn lemma_account_codec_round_trip(a: AccountStateV)
    requires
        account_shape_ok(a),
    ensures
        dec_account(enc_account(a)) == Some(a),
{
    lemma_auto_spec_u64_to_from_le_bytes();
    lemma_auto_spec_u32_to_from_le_bytes();
    let e = enc_account(a);
    let ec = enc_code(a.code);
    let cnt = spec_u32_to_le_bytes(a.storage.len() as u32);
    let ees = enc_entries(a.storage);
    let p = 16 + ec.len() as int;
    assert(e =~= spec_u64_to_le_bytes(a.balance) + spec_u64_to_le_bytes(a.nonce) + ec + cnt + ees);
    assert(e.len() == 16 + ec.len() + 4 + ees.len());
    assert(e.subrange(0, e.len() as int) =~= e);
    lemma_window_subrange(e, 0, e, 0, 8);
    assert(e.subrange(0, 8) =~= spec_u64_to_le_bytes(a.balance));
    assert(e.subrange(8, 16) =~= spec_u64_to_le_bytes(a.nonce));
    match a.code {
        None => {
            assert(e[16] == 0u8);
            assert(e.subrange(17, 21) =~= cnt);
            assert(e.subrange(21, 21 + ees.len() as int) =~= ees);
            lemma_entries_round_trip(e, 21, a.storage);
        },
        Some(bs) => {
            let n = bs.len() as int;
            assert(ec =~= seq![1u8] + spec_u32_to_le_bytes(bs.len() as u32) + bs);
            assert(e[16] == 1u8);
            assert(e.subrange(17, 21) =~= spec_u32_to_le_bytes(bs.len() as u32));
            assert(e.subrange(21, 21 + n) =~= bs);
            assert(e.subrange(21 + n, 25 + n) =~= cnt);
            assert(e.subrange(25 + n, 25 + n + ees.len() as int) =~= ees);
            lemma_entries_round_trip(e, 25 + n, a.storage);
        },
    }
}

/// Encode an account state.
pub fn encode_account(a: &AccountState) -> (r: Vec<u8>)
    requires
        account_shape_ok(a@),
    ensures
        r@ == enc_account(a@),
{
    let mut out: Vec<u8> = Vec::new();
    let balance_bytes = u64_to_le_bytes(a.balance);
    out.extend_from_slice(balance_bytes.as_slice());
    let nonce_bytes = u64_to_le_bytes(a.nonce);
    out.extend_from_slice(nonce_bytes.as_slice());
    match &a.code {
        None => {
            out.push(0u8);
        },
        Some(bs) => {
            out.push(1u8);
            let clen_bytes = u32_to_le_bytes(bs.len() as u32);
            out.extend_from_slice(clen_bytes.as_slice());
            out.extend_from_slice(bs.as_slice());
        },
    }
    proof {
        assert(out@ =~= spec_u64_to_le_bytes(a@.balance) + spec_u64_to_le_bytes(a@.nonce)
            + enc_code(a@.code));
    }
    let cnt_bytes = u32_to_le_bytes(a.storage.len() as u32);
    out.extend_from_slice(cnt_bytes.as_slice());
    let ghost prefix = out@;
    let mut i: usize = 0;
    while i < a.storage.len()
        invariant
            i <= a.storage@.len(),
            a@.storage == a.storage@.map_values(|p: ([u8; 32], Vec<u8>)| (p.0@, p.1@)),
            a@.storage.len() == a.storage@.len(),
            forall|j: int|
                0 <= j < a.storage@.len() ==> #[trigger] a@.storage[j] == (
                    a.storage@[j].0@,
                    a.storage@[j].1@,
                ),
            account_shape_ok(a@),
            out@ == prefix + enc_entries(a@.storage.take(i as int)),
        decreases a.storage@.len() - i,
    {
        out.extend_from_slice(a.storage[i].0.as_slice());
        let vlen_bytes = u32_to_le_bytes(a.storage[i].1.len() as u32);
        out.extend_from_slice(vlen_bytes.as_slice());
        out.extend_from_slice(a.storage[i].1.as_slice());
        proof {
            lemma_enc_entries_snoc(a@.storage, i as int);
            assert(out@ =~= prefix + enc_entries(a@.storage.take(i as int + 1)));
        }
        i = i + 1;
    }
    proof {
        assert(a@.storage.take(a@.storage.len() as int) =~= a@.storage);
        assert(out@ =~= enc_account(a@));
    }
    out
}

/// A decoded prefix of entries followed by a decode of zero entries is the
/// prefix itself, ending where it stands.
proof fn lemma_dec_entries_cont_done(prefix: Seq<(Seq<u8>, Seq<u8>)>, s: Seq<u8>, pos: int)
    ensures
        dec_entries_cont(prefix, s, pos, 0) == Some((prefix, pos)),
{
    assert(prefix + Seq::<(Seq<u8>, Seq<u8>)>::empty() =~= prefix);
}

/// A decoded tail of entries appended to an already decoded prefix.
pub open spec fn dec_entries_cont(
    prefix: Seq<(Seq<u8>, Seq<u8>)>,
    s: Seq<u8>,
    pos: int,
    m: int,
) -> Option<(Seq<(Seq<u8>, Seq<u8>)>, int)> {
    match dec_entries_at(s, pos, m) {
        Some((rest, end)) => Some((prefix + rest, end)),
        None => None,
    }
}

/// Decode a byte string holding exactly one account state.
pub fn decode_account(bytes: &[u8]) -> (r: Option<AccountState>)
    ensures
        match r {
            Some(a) => dec_account(bytes@) == Some(a@),
            None => dec_account(bytes@) is None,
        },
{
    if bytes.len() < 17 {
        return None;
    }
    let balance = read_u64(bytes, 0);
    let nonce = read_u64(bytes, 8);
    let tag = bytes[16];
    if tag != 0 && tag != 1 {
        return None;
    }
    let mut p: usize = 17;
    let code: Option<Vec<u8>> = if tag == 1 {
        if bytes.len() < 21 {
            return None;
        }
        let clen = read_u32(bytes, 17) as usize;
        if bytes.len() - 21 < clen {
            return None;
        }
        let bs = read_bytes(bytes, 21, clen);
        p = 21 + clen;
        Some(bs)
    } else {
        None
    };
    if bytes.len() - p < 4 {
        return None;
    }
    let cnt = read_u32(bytes, p);
    let ghost start = p + 4int;
    let mut pos: usize = p + 4;
    let mut storage: Vec<([u8; 32], Vec<u8>)> = Vec::new();
    let mut k: u32 = 0;
    proof {
        let r0 = dec_entries_at(bytes@, start, cnt as int);
        if r0 is Some {
            assert(Seq::<(Seq<u8>, Seq<u8>)>::empty() + r0->Some_0.0 =~= r0->Some_0.0);
        }
        assert(storage@.map_values(|q: ([u8; 32], Vec<u8>)| (q.0@, q.1@)) =~= Seq::<(
            Seq<u8>,
            Seq<u8>,
        )>::empty());
    }
    while k < cnt
        invariant
            k <= cnt,
            start <= pos <= bytes@.len(),
            storage@.len() == k,
            bytes@.len() >= 17,
            p as int + 4 <= bytes@.len(),
            start == p as int + 4,
            bytes@[16] == 0 || bytes@[16] == 1,
            bytes@[16] == 0 ==> p == 17,
            bytes@[16] == 1 ==> bytes@.len() >= 21 && p as int == 21 + spec_u32_from_le_bytes(
                bytes@.subrange(17, 21),
            ) as int && bytes@.len() - 21 >= spec_u32_from_le_bytes(bytes@.subrange(17, 21)) as int,
            cnt == spec_u32_from_le_bytes(bytes@.subrange(p as int, p as int + 4)),
            dec_entries_at(bytes@, start, cnt as int) == dec_entries_cont(
                storage@.map_values(|q: ([u8; 32], Vec<u8>)| (q.0@, q.1@)),
                bytes@,
                pos as int,
                cnt as int - k as int,
            ),
        decreases cnt - k,
    {
        let ghost pre_es = storage@.map_values(|q: ([u8; 32], Vec<u8>)| (q.0@, q.1@));
        if bytes.len() - pos < 36 {
            return None;
        }
        let vlen = read_u32(bytes, pos + 32) as usize;
        if bytes.len() - pos - 36 < vlen {
            return None;
        }
        let key = read_32(bytes, pos);
        let val = read_bytes(bytes, pos + 36, vlen);
        let next = pos + 36 + vlen;
        proof {
            assert(dec_entry_at(bytes@, pos as int) == Some(((key@, val@), next as int)));
        }
        storage.push((key, val));
        proof {
            assert(storage@.map_values(|q: ([u8; 32], Vec<u8>)| (q.0@, q.1@)) =~= pre_es + seq![
                (key@, val@),
            ]);
            let r1 = dec_entries_at(bytes@, next as int, cnt as int - k as int - 1);
            if r1 is Some {
                assert(pre_es + (seq![(key@, val@)] + r1->Some_0.0) =~= (pre_es + seq![
                    (key@, val@),
                ]) + r1->Some_0.0);
            }
        }
        pos = next;
        k = k + 1;
    }
    if pos != bytes.len() {
        proof {
            lemma_dec_entries_cont_done(
                storage@.map_values(|q: ([u8; 32], Vec<u8>)| (q.0@, q.1@)),
                bytes@,
                pos as int,
            );
        }
        return None;
    }
    let a = AccountState { balance, nonce, code, storage };
    proof {
        lemma_dec_entries_cont_done(
            storage@.map_values(|q: ([u8; 32], Vec<u8>)| (q.0@, q.1@)),
            bytes@,
            pos as int,
        );
        assert(dec_account(bytes@) == Some(a@));
    }
    Some(a)
}

impl Block {
    /// The exact serialized size of this block in bytes under the
    /// library's stable encoding.
    pub fn serialized_size(&self) -> (r: usize)
        requires
            enc_block(self@).len() <= usize::MAX,
        ensures
            r == enc_block(self@).len(),
    {
        let encoded = encode_block(self);
        encoded.len()
    }
}

} // verus!
// shape checks

verus! {

/// Whether an account state fits the encoding's length prefixes.
pub fn account_fits(a: &AccountState) -> (r: bool)
    ensures
        r == account_shape_ok(a@),
{
    match &a.code {
        Some(bs) => {
            if bs.len() > 0xffffffff {
                proof {
                    assert(a@.code == Some(bs@));
                }
                return false;
            }
        },
        None => {},
    }
    if a.storage.len() > 0xffffffff {
        proof {
            assert(a@.storage.len() == a.storage@.len());
        }
        return false;
    }
    let mut i: usize = 0;
    while i < a.storage.len()
        invariant
            i <= a.storage@.len(),
            a@.storage.len() == a.storage@.len(),
            forall|j: int|
                0 <= j < a.storage@.len() ==> (#[trigger] a@.storage[j]) == (
                    a.storage@[j].0@,
                    a.storage@[j].1@,
                ),
            match a@.code {
                Some(bs) => bs.len() <= u32::MAX,
                None => true,
            },
            a@.storage.len() <= u32::MAX,
            forall|j: int|
                0 <= j < i ==> (#[trigger] a@.storage[j]).0.len() == 32 && a@.storage[j].1.len()
                    <= u32::MAX,
        decreases a.storage@.len() - i,
    {
        if a.storage[i].1.len() > 0xffffffff {
            proof {
                assert(a@.storage[i as int].1.len() > u32::MAX);
            }
            return false;
        }
        i = i + 1;
    }
    true
}

} // verus!
