//! Pool of pending transactions: admission with replacement-by-fee,
//! fee-prioritized dependency-respecting selection, expiry, memory-bounded
//! eviction and revalidation.

use vstd::prelude::*;

verus! {

use crate::types::PublicKeyBytes;
use crate::transaction::{Transaction, TransactionV, tx_hash_of, tx_verify_ok, spec_fee_per_byte};
use crate::state::{BlockchainState, state_model, model_acct, sat_add_u64, sat_mul, sat_mul_u64};
use crate::errors::TransactionError;
use crate::metrics::{MetricsCollector, OperationType};
use crate::Error;

/// Result type for detailed pool operations.
pub type TxResult<T> = Result<T, TransactionError>;

/// Accounted overhead per pooled transaction, covering the entry metadata
/// and its share of the indices, in bytes.
pub const POOL_ENTRY_OVERHEAD: usize = 280;

/// Configuration for the transaction pool.
#[derive(Clone, Copy)]
pub struct TransactionPoolConfig {
    /// Maximum number of transactions in the pool.
    pub max_size: usize,
    /// Maximum transaction age before expiry, in seconds.
    pub expiry_time: u64,
    /// Maximum memory use of the pool, in bytes.
    pub max_memory: usize,
    /// Minimum fee per byte for acceptance.
    pub min_fee_per_byte: u64,
    /// Minimum fee increase, in percent, for a replacement.
    pub replacement_fee_bump: u64,
}

impl Default for TransactionPoolConfig {
    /// The default configuration: 5000 transactions, one hour expiry,
    /// 32 MiB of memory, a fee floor of 1, and a 10 percent bump.
    fn default() -> (r: Self)
        ensures
            r.max_size == 5000,
            r.expiry_time == 3600,
            r.max_memory == 33554432,
            r.min_fee_per_byte == 1,
            r.replacement_fee_bump == 10,
    {
        TransactionPoolConfig {
            max_size: 5000,
            expiry_time: 3600,
            max_memory: 33554432,
            min_fee_per_byte: 1,
            replacement_fee_bump: 10,
        }
    }
}

/// Coarse error kinds for pool operations.
#[derive(Debug)]
pub enum PoolError {
    /// Pool is full.
    PoolFull,
    /// Transaction already exists in the pool.
    DuplicateTransaction,
    /// Transaction fee is too low.
    FeeTooLow,
    /// Transaction has an invalid signature.
    InvalidSignature,
    /// Transaction has an invalid format.
    InvalidFormat,
    /// Insufficient balance.
    InsufficientBalance,
    /// Other error kind.
    Other(String),
}

impl PoolError {
    /// The rendered message of this error.
    pub fn message(&self) -> (r: String)
        ensures
            match *self {
                PoolError::PoolFull => r@ == "Transaction pool is full"@,
                PoolError::DuplicateTransaction => r@ == "Transaction already exists in pool"@,
                PoolError::FeeTooLow => r@ == "Transaction fee is too low"@,
                PoolError::InvalidSignature => r@ == "Transaction has invalid signature"@,
                PoolError::InvalidFormat => r@ == "Transaction has invalid format"@,
                PoolError::InsufficientBalance => r@ == "Insufficient balance for transaction"@,
                PoolError::Other(_) => true,
            },
    {
        match self {
            PoolError::PoolFull => String::from_str("Transaction pool is full"),
            PoolError::DuplicateTransaction => {
                String::from_str("Transaction already exists in pool")
            },
            PoolError::FeeTooLow => String::from_str("Transaction fee is too low"),
            PoolError::InvalidSignature => String::from_str("Transaction has invalid signature"),
            PoolError::InvalidFormat => String::from_str("Transaction has invalid format"),
            PoolError::InsufficientBalance => {
                String::from_str("Insufficient balance for transaction")
            },
            PoolError::Other(s) => crate::errors::clone_string(s),
        }
    }
}

/// A pooled transaction with its metadata.
struct PoolEntry {
    /// The transaction.
    tx: Transaction,
    /// Its hash, cached.
    tx_hash: crate::types::Hash,
    /// When it was admitted, on the pool's monotonic clock (nanoseconds).
    added_time: u64,
    /// Whether it passed the latest revalidation.
    is_valid: bool,
    /// Its accounted memory use in bytes.
    memory_size: usize,
}

/// The mathematical shape of a pooled transaction.
pub struct PoolEntryV {
    pub tx: TransactionV,
    pub tx_hash: Seq<u8>,
    pub added_time: u64,
    pub is_valid: bool,
    pub memory_size: usize,
}

impl View for PoolEntry {
    type V = PoolEntryV;

    closed spec fn view(&self) -> PoolEntryV {
        PoolEntryV {
            tx: self.tx@,
            tx_hash: self.tx_hash@,
            added_time: self.added_time,
            is_valid: self.is_valid,
            memory_size: self.memory_size,
        }
    }
}

/// The accounted memory of a transaction: its estimated size plus the
/// per-entry overhead.
pub open spec fn tx_mem(t: TransactionV) -> int {
    161 + t.data.len() + POOL_ENTRY_OVERHEAD
}

/// `a` leaves the pool no later than `b` under memory pressure: a lower
/// fee per byte is evicted first, and on equal rates the newer admission
/// goes first, keeping old settled traffic.
pub open spec fn evict_le(a: PoolEntryV, b: PoolEntryV) -> bool {
    spec_fee_per_byte(a.tx) < spec_fee_per_byte(b.tx) || (spec_fee_per_byte(a.tx)
        == spec_fee_per_byte(b.tx) && a.added_time >= b.added_time)
}

/// Whether an entry occurs in a sequence.
pub open spec fn entry_among(s: Seq<PoolEntryV>, e: PoolEntryV) -> bool {
    exists|p: int| 0 <= p < s.len() && #[trigger] s[p] == e
}

/// Every entry dropped between the two snapshots left no later than any
/// kept one: eviction took the lowest fee rates first, newest first on ties.
pub open spec fn evicted_are_least(before: Seq<PoolEntryV>, after: Seq<PoolEntryV>) -> bool {
    forall|i: int, q: int|
        0 <= i < before.len() && 0 <= q < after.len() && !entry_among(after, #[trigger] before[i])
            ==> evict_le(before[i], #[trigger] after[q])
}

/// The sum of the accounted memory of a sequence of entries.
pub open spec fn mem_sum(s: Seq<PoolEntryV>) -> int
    decreases s.len(),
{
    if s.len() == 0 {
        0
    } else {
        s[0].memory_size + mem_sum(s.skip(1))
    }
}

/// One pooled entry is internally consistent: the cached hash and memory
/// figure are right, the transaction verifies, and it meets the fee floor.
pub open spec fn entry_wf(e: PoolEntryV, cfg: TransactionPoolConfig) -> bool {
    &&& e.tx_hash == tx_hash_of(e.tx)
    &&& tx_verify_ok(e.tx)
    &&& spec_fee_per_byte(e.tx) >= cfg.min_fee_per_byte
    &&& e.memory_size == tx_mem(e.tx)
}

/// Whether some entry carries the given hash.
pub open spec fn has_hash(s: Seq<PoolEntryV>, h: Seq<u8>) -> bool {
    exists|i: int| 0 <= i < s.len() && (#[trigger] s[i]).tx_hash == h
}

/// The index of the entry carrying the given hash.
pub open spec fn idx_of_hash(s: Seq<PoolEntryV>, h: Seq<u8>) -> int {
    choose|i: int| 0 <= i < s.len() && (#[trigger] s[i]).tx_hash == h
}

/// Whether some entry is from the given sender at the given nonce.
pub open spec fn has_sender_nonce(s: Seq<PoolEntryV>, sender: Seq<u8>, nonce: u64) -> bool {
    exists|i: int|
        0 <= i < s.len() && (#[trigger] s[i]).tx.sender == sender && s[i].tx.nonce == nonce
}

/// The index of the entry from the given sender at the given nonce.
pub open spec fn idx_of_sender_nonce(s: Seq<PoolEntryV>, sender: Seq<u8>, nonce: u64) -> int {
    choose|i: int|
        0 <= i < s.len() && (#[trigger] s[i]).tx.sender == sender && s[i].tx.nonce == nonce
}

/// A pool for pending transactions.
pub struct TransactionPool {
    /// Pool configuration.
    config: TransactionPoolConfig,
    /// The pooled transactions, in admission order.
    txs: Vec<PoolEntry>,
    /// Running memory accounting, in bytes.
    memory_usage: usize,
    /// The largest admission time handed out so far.
    last_time: u64,
    /// Performance counters.
    metrics: MetricsCollector,
}

impl TransactionPool {
    /// The entries the pool holds, in admission order.
    pub closed spec fn entries(&self) -> Seq<PoolEntryV> {
        self.txs@.map_values(|e: PoolEntry| e@)
    }

    /// The pool's configuration.
    pub closed spec fn spec_config(&self) -> TransactionPoolConfig {
        self.config
    }

    /// The pool's accounted memory use.
    pub closed spec fn spec_memory_usage(&self) -> int {
        self.memory_usage as int
    }

    /// The pool is well formed: every entry is consistent, hashes and
    /// (sender, nonce) pairs are unique, admission times are distinct and
    /// bounded by the clock, and the memory figure adds up.
    pub closed spec fn wf(&self) -> bool {
        let s = self.entries();
        &&& forall|i: int| 0 <= i < s.len() ==> entry_wf(#[trigger] s[i], self.config)
        &&& forall|i: int, j: int|
            0 <= i < s.len() && 0 <= j < s.len() && i != j ==> (#[trigger] s[i]).tx_hash != (
            #[trigger] s[j]).tx_hash
        &&& forall|i: int, j: int|
            0 <= i < s.len() && 0 <= j < s.len() && i != j ==> !((#[trigger] s[i]).tx.sender == (
            #[trigger] s[j]).tx.sender && s[i].tx.nonce == s[j].tx.nonce)
        &&& forall|i: int| 0 <= i < s.len() ==> (#[trigger] s[i]).added_time <= self.last_time
        &&& self.memory_usage as int == mem_sum(s)
    }

    /// Initialize a new pool with the default configuration.
    pub fn new() -> (r: TransactionPool)
        ensures
            r.wf(),
            r.entries().len() == 0,
            r.spec_config() == (TransactionPoolConfig {
                max_size: 5000,
                expiry_time: 3600,
                max_memory: 33554432,
                min_fee_per_byte: 1,
                replacement_fee_bump: 10,
            }),
            r.spec_memory_usage() == 0,
    {
        Self::with_config(TransactionPoolConfig::default())
    }

    /// Initialize a new pool with the given configuration.
    pub fn with_config(config: TransactionPoolConfig) -> (r: TransactionPool)
        ensures
            r.wf(),
            r.entries().len() == 0,
            r.spec_config() == config,
            r.spec_memory_usage() == 0,
    {
        let r = TransactionPool {
            config,
            txs: Vec::new(),
            memory_usage: 0,
            last_time: 0,
            metrics: MetricsCollector::new(100),
        };
        proof {
            assert(r.entries() =~= Seq::<PoolEntryV>::empty());
        }
        r
    }

    /// The number of transactions in the pool.
    pub fn len(&self) -> (r: usize)
        ensures
            r == self.entries().len(),
    {
        self.txs.len()
    }

    /// Whether the pool is empty.
    pub fn is_empty(&self) -> (r: bool)
        ensures
            r == (self.entries().len() == 0),
    {
        self.txs.is_empty()
    }

    /// The pool's current accounted memory use in bytes.
    pub fn memory_usage(&self) -> (r: usize)
        ensures
            r == self.spec_memory_usage(),
    {
        self.memory_usage
    }

    /// Read a transaction by its hash.
    pub fn get_transaction(&self, hash: &crate::types::Hash) -> (r: Option<Transaction>)
        requires
            self.wf(),
        ensures
            match r {
                Some(tx) => has_hash(self.entries(), hash@) && tx@ == self.entries()[idx_of_hash(
                    self.entries(),
                    hash@,
                )].tx,
                None => !has_hash(self.entries(), hash@),
            },
    {
        let mut i: usize = 0;
        while i < self.txs.len()
            invariant
                i <= self.txs@.len(),
                self.wf(),
                forall|j: int| 0 <= j < i ==> (#[trigger] self.entries()[j]).tx_hash != hash@,
            decreases self.txs@.len() - i,
        {
            if crate::types::hash_eq(&self.txs[i].tx_hash, hash) {
                let tx = self.txs[i].tx.clone();
                proof {
                    assert(self.entries()[i as int].tx_hash == hash@);
                    let k = idx_of_hash(self.entries(), hash@);
                    assert(0 <= k < self.entries().len() && self.entries()[k].tx_hash == hash@);
                    if k != i as int {
                        assert(self.entries()[k].tx_hash != self.entries()[i as int].tx_hash);
                    }
                }
                return Some(tx);
            }
            i = i + 1;
        }
        None
    }

    /// All transactions currently in the pool, in admission order.
    pub fn get_all_transactions(&self) -> (r: Vec<Transaction>)
        ensures
            r@.len() == self.entries().len(),
            forall|i: int|
                0 <= i < r@.len() ==> (#[trigger] r@[i])@ == self.entries()[i].tx,
    {
        let mut out: Vec<Transaction> = Vec::new();
        let mut i: usize = 0;
        while i < self.txs.len()
            invariant
                i <= self.txs@.len(),
                out@.len() == i,
                forall|j: int| 0 <= j < i ==> (#[trigger] out@[j])@ == self.entries()[j].tx,
            decreases self.txs@.len() - i,
        {
            let tx = self.txs[i].tx.clone();
            out.push(tx);
            i = i + 1;
        }
        out
    }

    /// Find the pooled transaction from a sender at a nonce, if any.
    pub fn find_transaction_by_sender_and_nonce(
        &self,
        sender: &PublicKeyBytes,
        nonce: u64,
    ) -> (r: Option<Transaction>)
        requires
            self.wf(),
        ensures
            match r {
                Some(tx) => has_sender_nonce(self.entries(), sender@, nonce) && tx@
                    == self.entries()[idx_of_sender_nonce(self.entries(), sender@, nonce)].tx,
                None => !has_sender_nonce(self.entries(), sender@, nonce),
            },
    {
        let mut i: usize = 0;
        while i < self.txs.len()
            invariant
                i <= self.txs@.len(),
                self.wf(),
                forall|j: int|
                    0 <= j < i ==> !((#[trigger] self.entries()[j]).tx.sender == sender@
                        && self.entries()[j].tx.nonce == nonce),
            decreases self.txs@.len() - i,
        {
            if self.txs[i].tx.nonce == nonce && crate::types::hash_eq(&self.txs[i].tx.sender, sender) {
                let tx = self.txs[i].tx.clone();
                proof {
                    assert(self.entries()[i as int].tx.sender == sender@ && self.entries()[
                        i as int
                    ].tx.nonce == nonce);
                    let k = idx_of_sender_nonce(self.entries(), sender@, nonce);
                    assert(0 <= k < self.entries().len() && self.entries()[k].tx.sender == sender@
                        && self.entries()[k].tx.nonce == nonce);
                    if k != i as int {
                        assert(!(self.entries()[k].tx.sender == self.entries()[i as int].tx.sender
                            && self.entries()[k].tx.nonce == self.entries()[i as int].tx.nonce));
                    }
                }
                return Some(tx);
            }
            i = i + 1;
        }
        None
    }

    /// Removing the entry at an index keeps the pool well formed and drops
    /// exactly its memory from the sum.
    proof fn lemma_remove_keeps_wf(s: Seq<PoolEntryV>, i: int)
        requires
            0 <= i < s.len(),
        ensures
            mem_sum(s.remove(i)) == mem_sum(s) - s[i].memory_size,
        decreases i,
    {
        if i == 0 {
            assert(s.remove(0) =~= s.skip(1));
        } else {
            Self::lemma_remove_keeps_wf(s.skip(1), i - 1);
            assert(s.remove(i).skip(1) =~= s.skip(1).remove(i - 1));
            assert(s.remove(i)[0] == s[0]);
        }
    }

    /// Remove a transaction from the pool by its hash; returns whether it
    /// was present. The entry and exactly its memory are dropped.
    pub fn remove_transaction(&mut self, hash: &crate::types::Hash) -> (r: bool)
        requires
            old(self).wf(),
        ensures
            final(self).wf(),
            final(self).spec_config() == old(self).spec_config(),
            r == has_hash(old(self).entries(), hash@),
            r ==> final(self).entries() == old(self).entries().remove(
                idx_of_hash(old(self).entries(), hash@),
            ),
            !r ==> final(self).entries() == old(self).entries(),
            final(self).spec_memory_usage() == mem_sum(final(self).entries()),
    {
        self.metrics.start_operation(OperationType::Remove);
        let ghost s0 = old(self).entries();
        let mut i: usize = 0;
        while i < self.txs.len()
            invariant
                i <= self.txs@.len(),
                self.wf(),
                self.entries() == s0,
                s0 == old(self).entries(),
                self.spec_config() == old(self).spec_config(),
                self.spec_memory_usage() == old(self).spec_memory_usage(),
                forall|j: int| 0 <= j < i ==> (#[trigger] s0[j]).tx_hash != hash@,
            decreases self.txs@.len() - i,
        {
            if crate::types::hash_eq(&self.txs[i].tx_hash, hash) {
                proof {
                    assert(s0[i as int].tx_hash == hash@);
                    assert(has_hash(s0, hash@));
                }
                let entry_mem = self.txs[i].memory_size;
                proof {
                    Self::lemma_remove_keeps_wf(s0, i as int);
                    lemma_mem_sum_nonneg(s0.remove(i as int));
                    assert(entry_mem as int == s0[i as int].memory_size);
                }
                self.txs.remove(i);
                self.memory_usage = self.memory_usage - entry_mem;
                proof {
                    assert(self.entries() =~= s0.remove(i as int));
                    lemma_remove_preserves_uniqueness(s0, i as int);
                    assert(idx_of_hash(s0, hash@) == i as int) by {
                        let k = idx_of_hash(s0, hash@);
                        assert(0 <= k < s0.len() && s0[k].tx_hash == hash@);
                        if k != i as int {
                            assert(s0[k].tx_hash != s0[i as int].tx_hash);
                        }
                    }
                }
                self.metrics.record_transaction_removed();
                self.metrics.update_transaction_count(self.txs.len());
                self.metrics.update_memory_usage(self.memory_usage);
                self.metrics.stop_operation(OperationType::Remove);
                return true;
            }
            i = i + 1;
        }
        self.metrics.stop_operation(OperationType::Remove);
        false
    }

    /// The transaction with the lowest fee per byte, if the pool is not
    /// empty: the earliest-admitted entry among those of minimal fee rate.
    pub fn get_lowest_fee_transaction(&self) -> (r: Option<Transaction>)
        requires
            self.wf(),
        ensures
            match r {
                Some(tx) => {
                    &&& self.entries().len() > 0
                    &&& exists|i: int|
                        0 <= i < self.entries().len() && tx@ == (#[trigger] self.entries()[i]).tx
                    &&& forall|i: int|
                        0 <= i < self.entries().len() ==> spec_fee_per_byte(tx@) <= spec_fee_per_byte(
                            (#[trigger] self.entries()[i]).tx,
                        )
                },
                None => self.entries().len() == 0,
            },
    {
        if self.txs.len() == 0 {
            return None;
        }
        proof {
            assert(entry_wf(self.entries()[0], self.spec_config()));
        }
        let mut best: usize = 0;
        let mut best_fpb: u64 = self.txs[0].tx.fee_per_byte();
        let mut i: usize = 1;
        while i < self.txs.len()
            invariant
                1 <= i <= self.txs@.len(),
                best < i,
                self.wf(),
                best_fpb == spec_fee_per_byte(self.entries()[best as int].tx),
                forall|j: int|
                    0 <= j < i ==> best_fpb <= spec_fee_per_byte(
                        (#[trigger] self.entries()[j]).tx,
                    ),
            decreases self.txs@.len() - i,
        {
            proof {
                assert(entry_wf(self.entries()[i as int], self.spec_config()));
            }
            let fpb = self.txs[i].tx.fee_per_byte();
            if fpb < best_fpb {
                best = i;
                best_fpb = fpb;
            }
            i = i + 1;
        }
        Some(self.txs[best].tx.clone())
    }

    /// The metrics collector.
    pub fn metrics(&self) -> &MetricsCollector {
        &self.metrics
    }

    /// The pool's admission clock: reads the wall clock and never goes
    /// backwards.
    fn next_time(&mut self) -> (r: u64)
        ensures
            final(self).last_time_view() == r,
            r >= old(self).last_time_view(),
            old(self).last_time_view() < u64::MAX ==> r > old(self).last_time_view(),
            r > 0,
            final(self).entries() == old(self).entries(),
            final(self).spec_config() == old(self).spec_config(),
            final(self).spec_memory_usage() == old(self).spec_memory_usage(),
            old(self).wf() ==> final(self).wf(),
    {
        let now = crate::clock::now_nanos();
        let t = if now > self.last_time {
            now
        } else {
            self.last_time.saturating_add(1)
        };
        self.last_time = t;
        t
    }

    /// The largest admission time handed out so far.
    pub closed spec fn last_time_view(&self) -> u64 {
        self.last_time
    }
}

/// The memory sum of a sequence of entries is never negative.
proof fn lemma_mem_sum_nonneg(s: Seq<PoolEntryV>)
    ensures
        mem_sum(s) >= 0,
    decreases s.len(),
{
    if s.len() > 0 {
        lemma_mem_sum_nonneg(s.skip(1));
    }
}

/// Removing an entry preserves pairwise uniqueness facts.
proof fn lemma_remove_preserves_uniqueness(s: Seq<PoolEntryV>, i: int)
    requires
        0 <= i < s.len(),
    ensures
        forall|a: int|
            0 <= a < s.len() - 1 ==> #[trigger] s.remove(i)[a] == (if a < i {
                s[a]
            } else {
                s[a + 1]
            }),
{
}

} // verus!
// admission, replacement, eviction and maintenance

verus! {

use crate::transaction::signing_preimage;

/// The fee-per-byte admission conditions a new transaction must pass
/// against a state, besides capacity and memory: it verifies, is no
/// duplicate, its sender is at its nonce with enough balance, and it
/// meets the fee floor.
pub open spec fn admission_ok(
    s: Seq<PoolEntryV>,
    cfg: TransactionPoolConfig,
    t: TransactionV,
    m: Map<Seq<u8>, crate::state::AccountStateV>,
) -> bool {
    &&& tx_verify_ok(t)
    &&& !has_hash(s, tx_hash_of(t))
    &&& !has_sender_nonce(s, t.sender, t.nonce)
    &&& t.nonce == model_acct(m, t.sender).nonce
    &&& model_acct(m, t.sender).balance >= sat_add_u64(t.amount, t.fee)
    &&& spec_fee_per_byte(t) >= cfg.min_fee_per_byte
}

/// The conditions a batch transaction must pass against its sender's
/// projected account: it verifies, its hash and (sender, nonce) are fresh,
/// it sits at the projected nonce with sufficient projected balance, meets
/// the fee floor, and fits the memory budget.
pub open spec fn projected_admission_ok(
    s: Seq<PoolEntryV>,
    cfg: TransactionPoolConfig,
    mem: int,
    t: TransactionV,
    proj_balance: u64,
    proj_nonce: u64,
) -> bool {
    &&& tx_verify_ok(t)
    &&& !has_hash(s, tx_hash_of(t))
    &&& t.nonce == proj_nonce
    &&& proj_balance >= sat_add_u64(t.amount, t.fee)
    &&& spec_fee_per_byte(t) >= cfg.min_fee_per_byte
    &&& !has_sender_nonce(s, t.sender, t.nonce)
    &&& mem + tx_mem(t) <= cfg.max_memory
}

/// The accounted memory of a sequence of transactions, summed.
pub open spec fn txs_total_mem(ts: Seq<TransactionV>) -> int
    decreases ts.len(),
{
    if ts.len() == 0 {
        0
    } else {
        tx_mem(ts[0]) + txs_total_mem(ts.skip(1))
    }
}

/// Every batch input is admissible on its own against the pool and state,
/// the inputs carry pairwise distinct senders and hashes, and all of them
/// together fit the memory budget.
pub open spec fn batch_independently_admissible(
    ts: Seq<TransactionV>,
    s: Seq<PoolEntryV>,
    cfg: TransactionPoolConfig,
    mem: int,
    m: Map<Seq<u8>, crate::state::AccountStateV>,
) -> bool {
    &&& forall|i: int| 0 <= i < ts.len() ==> admission_ok(s, cfg, #[trigger] ts[i], m)
    &&& forall|i: int, j: int|
        0 <= i < ts.len() && 0 <= j < ts.len() && i != j ==> (#[trigger] ts[i]).sender != (
        #[trigger] ts[j]).sender
    &&& forall|i: int, j: int|
        0 <= i < ts.len() && 0 <= j < ts.len() && i != j ==> tx_hash_of(#[trigger] ts[i])
            != tx_hash_of(#[trigger] ts[j])
    &&& mem + txs_total_mem(ts) <= cfg.max_memory
}

/// Summing one more transaction's memory.
proof fn lemma_txs_mem_snoc(ts: Seq<TransactionV>, i: int)
    requires
        0 <= i < ts.len(),
    ensures
        txs_total_mem(ts.take(i + 1)) == txs_total_mem(ts.take(i)) + tx_mem(ts[i]),
    decreases i,
{
    if i == 0 {
        assert(ts.take(1) =~= seq![ts[0]]);
        assert(ts.take(1).skip(1) =~= Seq::<TransactionV>::empty());
        assert(ts.take(0) =~= Seq::<TransactionV>::empty());
    } else {
        lemma_txs_mem_snoc(ts.skip(1), i - 1);
        assert(ts.take(i + 1).skip(1) =~= ts.skip(1).take(i));
        assert(ts.take(i).skip(1) =~= ts.skip(1).take(i - 1));
        assert(ts.take(i + 1)[0] == ts[0]);
        assert(ts.take(i)[0] == ts[0]);
        assert(ts.skip(1)[i - 1] == ts[i]);
    }
}

/// A prefix never sums to more than the whole.
proof fn lemma_txs_mem_prefix(ts: Seq<TransactionV>, i: int)
    requires
        0 <= i <= ts.len(),
    ensures
        txs_total_mem(ts.take(i)) <= txs_total_mem(ts),
        txs_total_mem(ts.take(i)) >= 0,
        txs_total_mem(ts) >= 0,
    decreases ts.len(),
{
    if ts.len() == 0 || i == 0 {
        assert(ts.take(0) =~= Seq::<TransactionV>::empty());
        if ts.len() > 0 {
            lemma_txs_mem_prefix(ts.skip(1), 0);
        }
    } else {
        lemma_txs_mem_prefix(ts.skip(1), i - 1);
        assert(ts.take(i).skip(1) =~= ts.skip(1).take(i - 1));
        assert(ts.take(i)[0] == ts[0]);
    }
}

/// How many of the already admitted batch inputs `done` came from one
/// sender.
pub open spec fn batch_count(ts: Seq<TransactionV>, done: Seq<int>, sender: Seq<u8>) -> int
    decreases done.len(),
{
    if done.len() == 0 {
        0
    } else {
        (if ts[done[0]].sender == sender {
            1int
        } else {
            0int
        }) + batch_count(ts, done.skip(1), sender)
    }
}

/// What the already admitted batch inputs `done` spend from one sender's
/// balance.
pub open spec fn batch_spent(ts: Seq<TransactionV>, done: Seq<int>, sender: Seq<u8>) -> int
    decreases done.len(),
{
    if done.len() == 0 {
        0
    } else {
        (if ts[done[0]].sender == sender {
            sat_add_u64(ts[done[0]].amount, ts[done[0]].fee) as int
        } else {
            0int
        }) + batch_spent(ts, done.skip(1), sender)
    }
}

/// The accounted memory of the already admitted batch inputs `done`.
pub open spec fn batch_mem(ts: Seq<TransactionV>, done: Seq<int>) -> int
    decreases done.len(),
{
    if done.len() == 0 {
        0
    } else {
        tx_mem(ts[done[0]]) + batch_mem(ts, done.skip(1))
    }
}

/// A sender's projected nonce after some admissions: the stored nonce
/// raised once per admission, stopping at the largest value.
pub open spec fn projected_nonce(base: u64, count: int) -> u64 {
    if base + count > u64::MAX {
        u64::MAX
    } else {
        (base + count) as u64
    }
}

/// Whether the batch input at position `i` is admitted at its turn, after
/// the inputs listed in `done` were admitted, against the pool entries,
/// memory and account state the batch started from: it verifies, its hash
/// and (sender, nonce) are fresh in the pool and among the prior
/// admissions, it sits at the sender's projected nonce with enough balance
/// left over the prior admissions' spending, meets the fee floor, and fits
/// the memory budget together with the prior admissions.
pub open spec fn batch_step_ok(
    ts: Seq<TransactionV>,
    base: Seq<PoolEntryV>,
    cfg: TransactionPoolConfig,
    base_mem: int,
    m: Map<Seq<u8>, crate::state::AccountStateV>,
    i: int,
    done: Seq<int>,
) -> bool {
    let t = ts[i];
    &&& tx_verify_ok(t)
    &&& !has_hash(base, tx_hash_of(t))
    &&& forall|p: int| 0 <= p < done.len() ==> tx_hash_of(ts[#[trigger] done[p]]) != tx_hash_of(t)
    &&& t.nonce == projected_nonce(model_acct(m, t.sender).nonce, batch_count(ts, done, t.sender))
    &&& model_acct(m, t.sender).balance - batch_spent(ts, done, t.sender) >= sat_add_u64(
        t.amount,
        t.fee,
    )
    &&& spec_fee_per_byte(t) >= cfg.min_fee_per_byte
    &&& !has_sender_nonce(base, t.sender, t.nonce)
    &&& forall|p: int|
        0 <= p < done.len() ==> !(ts[#[trigger] done[p]].sender == t.sender && ts[done[p]].nonce
            == t.nonce)
    &&& base_mem + batch_mem(ts, done) + tx_mem(t) <= cfg.max_memory
}

/// The input positions admitted among the first `t` of a batch processing
/// order, in order: each is admitted exactly when `batch_step_ok` holds of
/// it after the admissions before it.
pub open spec fn batch_successes(
    ts: Seq<TransactionV>,
    base: Seq<PoolEntryV>,
    cfg: TransactionPoolConfig,
    base_mem: int,
    m: Map<Seq<u8>, crate::state::AccountStateV>,
    order: Seq<int>,
    t: int,
) -> Seq<int>
    decreases t,
{
    if t <= 0 {
        Seq::empty()
    } else {
        let prev = batch_successes(ts, base, cfg, base_mem, m, order, t - 1);
        if batch_step_ok(ts, base, cfg, base_mem, m, order[t - 1], prev) {
            prev.push(order[t - 1])
        } else {
            prev
        }
    }
}

/// The input positions rejected among the first `t` of a batch processing
/// order, in order.
pub open spec fn batch_failures(
    ts: Seq<TransactionV>,
    base: Seq<PoolEntryV>,
    cfg: TransactionPoolConfig,
    base_mem: int,
    m: Map<Seq<u8>, crate::state::AccountStateV>,
    order: Seq<int>,
    t: int,
) -> Seq<int>
    decreases t,
{
    if t <= 0 {
        Seq::empty()
    } else {
        let prev = batch_failures(ts, base, cfg, base_mem, m, order, t - 1);
        if batch_step_ok(
            ts,
            base,
            cfg,
            base_mem,
            m,
            order[t - 1],
            batch_successes(ts, base, cfg, base_mem, m, order, t - 1),
        ) {
            prev
        } else {
            prev.push(order[t - 1])
        }
    }
}

/// The views of a sequence of transactions, in order.
pub open spec fn tx_views(ts: Seq<Transaction>) -> Seq<TransactionV> {
    ts.map_values(|t: Transaction| t@)
}

/// The positions carried by a sequence of indexed errors, in order.
pub open spec fn fail_positions_of(fs: Seq<(usize, Error)>) -> Seq<int> {
    fs.map_values(|f: (usize, Error)| f.0 as int)
}

/// The views of the inputs that decode as transactions, in input order.
pub open spec fn decoded_txs(data: Seq<Vec<u8>>) -> Seq<TransactionV>
    decreases data.len(),
{
    if data.len() == 0 {
        Seq::empty()
    } else {
        if crate::codec::dec_tx(data[0]@) is Some {
            seq![crate::codec::dec_tx(data[0]@)->Some_0] + decoded_txs(data.skip(1))
        } else {
            decoded_txs(data.skip(1))
        }
    }
}

/// Extending the inputs by one extends the decoded views by what it
/// decodes to, if anything.
proof fn lemma_decoded_txs_snoc(data: Seq<Vec<u8>>, i: int)
    requires
        0 <= i < data.len(),
    ensures
        crate::codec::dec_tx(data[i]@) is Some ==> decoded_txs(data.take(i + 1)) == decoded_txs(
            data.take(i),
        ).push(crate::codec::dec_tx(data[i]@)->Some_0),
        crate::codec::dec_tx(data[i]@) is None ==> decoded_txs(data.take(i + 1)) == decoded_txs(
            data.take(i),
        ),
    decreases i,
{
    if i == 0 {
        assert(data.take(1)[0] == data[0]);
        assert(data.take(1).skip(1) =~= Seq::<Vec<u8>>::empty());
        assert(data.take(0) =~= Seq::<Vec<u8>>::empty());
        if crate::codec::dec_tx(data[0]@) is Some {
            let t = crate::codec::dec_tx(data[0]@)->Some_0;
            assert(seq![t] + Seq::<TransactionV>::empty() =~= Seq::<TransactionV>::empty().push(
                t,
            ));
        }
    } else {
        lemma_decoded_txs_snoc(data.skip(1), i - 1);
        assert(data.take(i + 1).skip(1) =~= data.skip(1).take(i));
        assert(data.take(i).skip(1) =~= data.skip(1).take(i - 1));
        assert(data.take(i + 1)[0] == data[0]);
        assert(data.take(i)[0] == data[0]);
        assert(data.skip(1)[i - 1] == data[i]);
        if crate::codec::dec_tx(data[0]@) is Some {
            let h = crate::codec::dec_tx(data[0]@)->Some_0;
            if crate::codec::dec_tx(data[i]@) is Some {
                let t = crate::codec::dec_tx(data[i]@)->Some_0;
                assert(seq![h] + decoded_txs(data.skip(1).take(i - 1)).push(t) =~= (seq![h]
                    + decoded_txs(data.skip(1).take(i - 1))).push(t));
            }
        }
    }
}

/// Every input that does not decode as a transaction is answered by a
/// serialization error carrying its input position.
pub open spec fn decode_failures_marked(data: Seq<Vec<u8>>, fails: Seq<(usize, Error)>) -> bool {
    forall|i: int|
        0 <= i < data.len() && crate::codec::dec_tx((#[trigger] data[i])@) is None
            ==> exists|p: int|
            0 <= p < fails.len() && (#[trigger] fails[p]).0 == i && fails[p].1 is Serialization
}

/// A lawful processing order for a batch: every input position exactly
/// once, and positions of one sender in ascending nonce order.
pub open spec fn batch_order_ok(ts: Seq<TransactionV>, order: Seq<int>) -> bool {
    &&& order.len() == ts.len()
    &&& forall|p: int| 0 <= p < order.len() ==> 0 <= #[trigger] order[p] < ts.len()
    &&& forall|p: int, q: int| 0 <= p < q < order.len() ==> order[p] != order[q]
    &&& forall|p: int, q: int|
        0 <= p < q < order.len() && ts[#[trigger] order[p]].sender == ts[#[trigger] order[q]].sender
            ==> ts[order[p]].nonce <= ts[order[q]].nonce
}

/// What a batch returns, tied to a processing order: the hashes of the
/// admitted inputs in processing order, and the rejected input positions
/// in processing order.
pub open spec fn batch_outcome_matches(
    ts: Seq<TransactionV>,
    base: Seq<PoolEntryV>,
    cfg: TransactionPoolConfig,
    base_mem: int,
    m: Map<Seq<u8>, crate::state::AccountStateV>,
    order: Seq<int>,
    hashes: Seq<Seq<u8>>,
    fail_positions: Seq<int>,
) -> bool {
    &&& batch_order_ok(ts, order)
    &&& hashes == batch_successes(ts, base, cfg, base_mem, m, order, order.len() as int).map_values(
        |i: int| tx_hash_of(ts[i]),
    )
    &&& fail_positions == batch_failures(ts, base, cfg, base_mem, m, order, order.len() as int)
}

/// Pushing one more admission onto `done` raises the per-sender tallies by
/// that input's contribution and the memory tally by its size.
proof fn lemma_batch_sums_push(ts: Seq<TransactionV>, done: Seq<int>, e: int, sender: Seq<u8>)
    ensures
        batch_count(ts, done.push(e), sender) == batch_count(ts, done, sender) + (if ts[e].sender
            == sender {
            1int
        } else {
            0int
        }),
        batch_spent(ts, done.push(e), sender) == batch_spent(ts, done, sender) + (if ts[e].sender
            == sender {
            sat_add_u64(ts[e].amount, ts[e].fee) as int
        } else {
            0int
        }),
        batch_mem(ts, done.push(e)) == batch_mem(ts, done) + tx_mem(ts[e]),
    decreases done.len(),
{
    if done.len() == 0 {
        assert(done.push(e)[0] == e);
        assert(done.push(e).skip(1) =~= Seq::<int>::empty());
        assert(batch_count(ts, Seq::<int>::empty(), sender) == 0);
        assert(batch_spent(ts, Seq::<int>::empty(), sender) == 0);
        assert(batch_mem(ts, Seq::<int>::empty()) == 0);
        assert(batch_count(ts, done, sender) == 0);
        assert(batch_spent(ts, done, sender) == 0);
        assert(batch_mem(ts, done) == 0);
    } else {
        lemma_batch_sums_push(ts, done.skip(1), e, sender);
        assert(done.push(e).skip(1) =~= done.skip(1).push(e));
        assert(done.push(e)[0] == done[0]);
        assert(batch_count(ts, done, sender) == (if ts[done[0]].sender == sender {
            1int
        } else {
            0int
        }) + batch_count(ts, done.skip(1), sender));
        assert(batch_spent(ts, done, sender) == (if ts[done[0]].sender == sender {
            sat_add_u64(ts[done[0]].amount, ts[done[0]].fee) as int
        } else {
            0int
        }) + batch_spent(ts, done.skip(1), sender));
    }
}

/// Admissions from other senders tally nothing for this one.
proof fn lemma_batch_sums_other(ts: Seq<TransactionV>, done: Seq<int>, sender: Seq<u8>)
    requires
        forall|p: int| 0 <= p < done.len() ==> ts[#[trigger] done[p]].sender != sender,
    ensures
        batch_count(ts, done, sender) == 0,
        batch_spent(ts, done, sender) == 0,
    decreases done.len(),
{
    if done.len() > 0 {
        assert(forall|p: int|
            0 <= p < done.skip(1).len() ==> ts[#[trigger] done.skip(1)[p]].sender != sender);
        lemma_batch_sums_other(ts, done.skip(1), sender);
        assert(ts[done[0]].sender != sender);
    }
}

/// The outcomes of the first `t` steps read only the first `t` positions
/// of the order.
proof fn lemma_batch_outcomes_prefix(
    ts: Seq<TransactionV>,
    base: Seq<PoolEntryV>,
    cfg: TransactionPoolConfig,
    base_mem: int,
    m: Map<Seq<u8>, crate::state::AccountStateV>,
    o1: Seq<int>,
    o2: Seq<int>,
    t: int,
)
    requires
        t <= o1.len(),
        t <= o2.len(),
        forall|p: int| 0 <= p < t ==> o1[p] == o2[p],
    ensures
        batch_successes(ts, base, cfg, base_mem, m, o1, t) == batch_successes(
            ts,
            base,
            cfg,
            base_mem,
            m,
            o2,
            t,
        ),
        batch_failures(ts, base, cfg, base_mem, m, o1, t) == batch_failures(
            ts,
            base,
            cfg,
            base_mem,
            m,
            o2,
            t,
        ),
    decreases t,
{
    if t > 0 {
        lemma_batch_outcomes_prefix(ts, base, cfg, base_mem, m, o1, o2, t - 1);
        assert(o1[t - 1] == o2[t - 1]);
    }
}

/// Every admitted or rejected position of a processing prefix stands in
/// it, and together they cover it.
proof fn lemma_batch_outcomes_sub(
    ts: Seq<TransactionV>,
    base: Seq<PoolEntryV>,
    cfg: TransactionPoolConfig,
    base_mem: int,
    m: Map<Seq<u8>, crate::state::AccountStateV>,
    order: Seq<int>,
    t: int,
)
    requires
        0 <= t <= order.len(),
    ensures
        batch_successes(ts, base, cfg, base_mem, m, order, t).len() + batch_failures(
            ts,
            base,
            cfg,
            base_mem,
            m,
            order,
            t,
        ).len() == t,
        forall|p: int|
            #![trigger batch_successes(ts, base, cfg, base_mem, m, order, t)[p]]
            0 <= p < batch_successes(ts, base, cfg, base_mem, m, order, t).len() ==> exists|q: int|
                0 <= q < t && batch_successes(ts, base, cfg, base_mem, m, order, t)[p]
                    == #[trigger] order[q],
    decreases t,
{
    if t > 0 {
        lemma_batch_outcomes_sub(ts, base, cfg, base_mem, m, order, t - 1);
        let prev = batch_successes(ts, base, cfg, base_mem, m, order, t - 1);
        let cur = batch_successes(ts, base, cfg, base_mem, m, order, t);
        assert forall|p: int| #![trigger cur[p]] 0 <= p < cur.len() implies exists|q: int|
            0 <= q < t && cur[p] == #[trigger] order[q] by {
            if p < prev.len() {
                assert(cur[p] == prev[p]);
                let q = choose|q: int| 0 <= q < t - 1 && prev[p] == order[q];
                assert(0 <= q < t && cur[p] == order[q]);
            } else {
                assert(cur[p] == order[t - 1]);
            }
        }
    }
}

/// The minimum fee a replacement must offer over an existing fee: the
/// existing fee raised by the configured bump percentage.
pub open spec fn spec_min_replacement_fee(existing_fee: u64, bump: u64) -> u64 {
    sat_add_u64(existing_fee, (sat_mul_u64(existing_fee, bump) / 100) as u64)
}

/// Whether an entry is expired at `now` under an expiry time in seconds.
pub open spec fn spec_expired(e: PoolEntryV, now: u64, expiry_time: u64) -> bool {
    if now <= e.added_time {
        false
    } else {
        now - e.added_time > sat_mul_u64(expiry_time, 1000000000)
    }
}

/// The entries that are not expired at `now`, in order.
pub open spec fn keep_fresh(s: Seq<PoolEntryV>, now: u64, expiry_time: u64) -> Seq<PoolEntryV>
    decreases s.len(),
{
    if s.len() == 0 {
        Seq::empty()
    } else {
        if spec_expired(s[0], now, expiry_time) {
            keep_fresh(s.skip(1), now, expiry_time)
        } else {
            seq![s[0]] + keep_fresh(s.skip(1), now, expiry_time)
        }
    }
}

/// The memory sum of a sequence grows by the pushed entry's memory.
proof fn lemma_mem_sum_push(s: Seq<PoolEntryV>, e: PoolEntryV)
    ensures
        mem_sum(s.push(e)) == mem_sum(s) + e.memory_size,
    decreases s.len(),
{
    if s.len() == 0 {
        assert(s.push(e).skip(1) =~= Seq::<PoolEntryV>::empty());
        assert(s.push(e)[0] == e);
        assert(mem_sum(s.push(e)) == e.memory_size + mem_sum(Seq::<PoolEntryV>::empty()));
    } else {
        lemma_mem_sum_push(s.skip(1), e);
        assert(s.push(e).skip(1) =~= s.skip(1).push(e));
        assert(s.push(e)[0] == s[0]);
        assert(mem_sum(s.push(e)) == s[0].memory_size + mem_sum(s.skip(1).push(e)));
    }
}

impl TransactionPool {
    /// Whether the pool holds a transaction with the given hash.
    fn contains_hash(&self, hash: &crate::types::Hash) -> (r: bool)
        ensures
            r == has_hash(self.entries(), hash@),
    {
        let mut i: usize = 0;
        while i < self.txs.len()
            invariant
                i <= self.txs@.len(),
                forall|j: int| 0 <= j < i ==> (#[trigger] self.entries()[j]).tx_hash != hash@,
            decreases self.txs@.len() - i,
        {
            if crate::types::hash_eq(&self.txs[i].tx_hash, hash) {
                proof {
                    assert(self.entries()[i as int].tx_hash == hash@);
                }
                return true;
            }
            i = i + 1;
        }
        false
    }

    /// Append a validated transaction as a fresh entry.
    fn insert_validated(&mut self, tx: Transaction, tx_hash: crate::types::Hash)
        requires
            old(self).wf(),
            old(self).spec_memory_usage() + tx_mem(tx@) <= usize::MAX,
            tx_verify_ok(tx@),
            spec_fee_per_byte(tx@) >= old(self).spec_config().min_fee_per_byte,
            tx_hash@ == tx_hash_of(tx@),
            !has_hash(old(self).entries(), tx_hash@),
            !has_sender_nonce(old(self).entries(), tx@.sender, tx@.nonce),
        ensures
            final(self).wf(),
            final(self).spec_config() == old(self).spec_config(),
            final(self).entries().len() == old(self).entries().len() + 1,
            final(self).entries().take(old(self).entries().len() as int) == old(self).entries(),
            final(self).entries().last().tx == tx@,
            final(self).entries().last().tx_hash == tx_hash@,
            final(self).entries().last().is_valid,
            final(self).entries().last().memory_size == tx_mem(tx@),
            forall|i: int|
                0 <= i < old(self).entries().len() ==> (#[trigger] old(self).entries()[i]).added_time <= final(self).entries().last().added_time,
            final(self).spec_memory_usage() == old(self).spec_memory_usage() + tx_mem(tx@),
    {
        let added_time = self.next_time();
        let data_len = tx.data.len();
        let memory_size = 161 + data_len + POOL_ENTRY_OVERHEAD;
        let entry = PoolEntry { tx, tx_hash, added_time, is_valid: true, memory_size };
        let ghost s0 = self.entries();
        proof {
            lemma_mem_sum_push(s0, entry@);
        }
        self.memory_usage = self.memory_usage + memory_size;
        self.txs.push(entry);
        proof {
            assert(self.entries() =~= s0.push(entry@));
            assert(self.entries().take(s0.len() as int) =~= s0);
        }
    }

    /// The index of the earliest-admitted entry of minimal fee per byte.
    fn lowest_fpb_index(&self) -> (r: usize)
        requires
            self.wf(),
            self.entries().len() > 0,
        ensures
            r < self.entries().len(),
            forall|j: int|
                0 <= j < self.entries().len() ==> spec_fee_per_byte(
                    self.entries()[r as int].tx,
                ) <= spec_fee_per_byte((#[trigger] self.entries()[j]).tx),
    {
        proof {
            assert(entry_wf(self.entries()[0], self.spec_config()));
        }
        let mut best: usize = 0;
        let mut best_fpb: u64 = self.txs[0].tx.fee_per_byte();
        let mut i: usize = 1;
        while i < self.txs.len()
            invariant
                1 <= i <= self.txs@.len(),
                best < i,
                self.wf(),
                best_fpb == spec_fee_per_byte(self.entries()[best as int].tx),
                forall|j: int|
                    0 <= j < i ==> best_fpb <= spec_fee_per_byte(
                        (#[trigger] self.entries()[j]).tx,
                    ),
            decreases self.txs@.len() - i,
        {
            proof {
                assert(entry_wf(self.entries()[i as int], self.spec_config()));
            }
            let fpb = self.txs[i].tx.fee_per_byte();
            if fpb < best_fpb {
                best = i;
                best_fpb = fpb;
            }
            i = i + 1;
        }
        best
    }

    /// Reduce memory use by evicting the lowest-priority transactions:
    /// does nothing at or below three quarters of the memory budget, and
    /// otherwise removes entries of minimal fee per byte (evicting a newer
    /// one first on ties) until usage falls to six tenths of the budget or
    /// the pool is empty. Returns the number of entries removed.
    pub fn optimize_memory(&mut self) -> (removed: usize)
        requires
            old(self).wf(),
        ensures
            final(self).wf(),
            final(self).spec_config() == old(self).spec_config(),
            final(self).spec_memory_usage() <= old(self).spec_memory_usage(),
            removed == old(self).entries().len() - final(self).entries().len(),
            old(self).spec_memory_usage() <= old(self).spec_config().max_memory as int * 3 / 4
                ==> final(self).entries() == old(self).entries(),
            old(self).spec_memory_usage() > old(self).spec_config().max_memory as int * 3 / 4 ==> (
            final(self).spec_memory_usage() <= old(self).spec_config().max_memory as int * 6 / 10
                || final(self).entries().len() == 0),
            forall|i: int|
                0 <= i < final(self).entries().len() ==> exists|j: int|
                    0 <= j < old(self).entries().len() && (#[trigger] final(self).entries()[i])
                        == old(self).entries()[j],
            evicted_are_least(old(self).entries(), final(self).entries()),
    {
        self.metrics.start_operation(OperationType::Optimize);
        let gate = (self.config.max_memory as u128) * 3 / 4;
        if (self.memory_usage as u128) <= gate {
            self.metrics.stop_operation(OperationType::Optimize);
            proof {
                assert(forall|i: int|
                    0 <= i < self.entries().len() ==> (#[trigger] self.entries()[i])
                        == old(self).entries()[i]);
            }
            return 0;
        }
        let target = ((self.config.max_memory as u128) * 6 / 10) as usize;
        let olen = self.txs.len();
        let mut removed: usize = 0;
        while self.memory_usage > target && self.txs.len() > 0
            invariant
                self.wf(),
                olen == old(self).entries().len(),
                self.spec_config() == old(self).spec_config(),
                self.spec_memory_usage() <= old(self).spec_memory_usage(),
                target as int == old(self).spec_config().max_memory as int * 6 / 10,
                removed == old(self).entries().len() - self.entries().len(),
                removed <= old(self).entries().len(),
                forall|i: int|
                    0 <= i < self.entries().len() ==> exists|j: int|
                        0 <= j < old(self).entries().len() && (#[trigger] self.entries()[i]) == old(self).entries()[j],
                evicted_are_least(old(self).entries(), self.entries()),
            decreases self.entries().len(),
        {
            let victim = self.eviction_index();
            let ghost pre = self.entries();
            let entry_mem = self.txs[victim].memory_size;
            proof {
                Self::lemma_remove_keeps_wf(pre, victim as int);
                lemma_mem_sum_nonneg(pre.remove(victim as int));
                assert(entry_mem as int == pre[victim as int].memory_size);
            }
            let ghost before = old(self).entries();
            self.txs.remove(victim);
            self.memory_usage = self.memory_usage - entry_mem;
            removed = removed + 1;
            proof {
                assert(self.entries() =~= pre.remove(victim as int));
                lemma_remove_preserves_uniqueness(pre, victim as int);
                let cur = self.entries();
                assert forall|i: int, q: int|
                    0 <= i < before.len() && 0 <= q < cur.len() && !entry_among(
                        cur,
                        #[trigger] before[i],
                    ) implies evict_le(before[i], #[trigger] cur[q]) by {
                    if entry_among(pre, before[i]) {
                        let p = choose|p: int| 0 <= p < pre.len() && #[trigger] pre[p] == before[i];
                        if p != victim as int {
                            if p < victim as int {
                                assert(cur[p] == pre[p]);
                            } else {
                                assert(cur[p - 1] == pre[p]);
                            }
                            assert(entry_among(cur, before[i]));
                        }
                        assert(before[i] == pre[victim as int]);
                        if q < victim as int {
                            assert(cur[q] == pre[q]);
                            assert(evict_le(pre[victim as int], pre[q]));
                        } else {
                            assert(cur[q] == pre[q + 1]);
                            assert(evict_le(pre[victim as int], pre[q + 1]));
                        }
                    } else {
                        assert(evict_le(before[i], pre[if q < victim as int {
                            q
                        } else {
                            q + 1
                        }]));
                        if q < victim as int {
                            assert(cur[q] == pre[q]);
                        } else {
                            assert(cur[q] == pre[q + 1]);
                        }
                    }
                }
            }
            self.metrics.record_transaction_removed();
        }
        self.metrics.update_transaction_count(self.txs.len());
        self.metrics.update_memory_usage(self.memory_usage);
        self.metrics.stop_operation(OperationType::Optimize);
        removed
    }

    /// The index of the entry to evict first: minimal fee per byte,
    /// breaking ties towards the newest admission.
    fn eviction_index(&self) -> (r: usize)
        requires
            self.wf(),
            self.entries().len() > 0,
        ensures
            r < self.entries().len(),
            forall|j: int|
                0 <= j < self.entries().len() ==> evict_le(
                    self.entries()[r as int],
                    #[trigger] self.entries()[j],
                ),
    {
        proof {
            assert(entry_wf(self.entries()[0], self.spec_config()));
        }
        let mut best: usize = 0;
        let mut best_fpb: u64 = self.txs[0].tx.fee_per_byte();
        let mut best_time: u64 = self.txs[0].added_time;
        let mut i: usize = 1;
        while i < self.txs.len()
            invariant
                1 <= i <= self.txs@.len(),
                best < i,
                self.wf(),
                best_fpb == spec_fee_per_byte(self.entries()[best as int].tx),
                best_time == self.entries()[best as int].added_time,
                forall|j: int|
                    0 <= j < i ==> evict_le(
                        self.entries()[best as int],
                        #[trigger] self.entries()[j],
                    ),
            decreases self.txs@.len() - i,
        {
            proof {
                assert(entry_wf(self.entries()[i as int], self.spec_config()));
            }
            let fpb = self.txs[i].tx.fee_per_byte();
            let t = self.txs[i].added_time;
            if fpb < best_fpb || (fpb == best_fpb && t > best_time) {
                best = i;
                best_fpb = fpb;
                best_time = t;
            }
            i = i + 1;
        }
        best
    }

    /// Remove entries older than the expiry time, measured against a
    /// reading of the pool clock that exceeds every admission time; with a
    /// zero expiry time everything is removed. Returns how many went.
    pub fn remove_expired(&mut self) -> (removed: usize)
        requires
            old(self).wf(),
        ensures
            final(self).wf(),
            final(self).spec_config() == old(self).spec_config(),
            removed == old(self).entries().len() - final(self).entries().len(),
            final(self).entries() == keep_fresh(
                old(self).entries(),
                final(self).last_time_view(),
                old(self).spec_config().expiry_time,
            ),
            final(self).last_time_view() >= old(self).last_time_view(),
            old(self).last_time_view() < u64::MAX ==> forall|i: int|
                0 <= i < old(self).entries().len() ==> (#[trigger] old(self).entries()[i]).added_time
                    < final(self).last_time_view(),
            old(self).spec_config().expiry_time == 0 && old(self).last_time_view() < u64::MAX
                ==> final(self).entries().len() == 0,
    {
        let ghost strict = self.last_time < u64::MAX;
        let now = self.next_time();
        proof {
            if strict {
                assert(forall|i: int|
                    0 <= i < self.entries().len() ==> (#[trigger] self.entries()[i]).added_time
                        < now);
            }
        }
        let r = self.remove_expired_at(now);
        r
    }

    /// Remove the entries expired at `now`; the survivors keep their order.
    pub fn remove_expired_at(&mut self, now: u64) -> (removed: usize)
        requires
            old(self).wf(),
            forall|i: int|
                0 <= i < old(self).entries().len() ==> (#[trigger] old(self).entries()[i]).added_time <= now,
        ensures
            final(self).wf(),
            final(self).spec_config() == old(self).spec_config(),
            final(self).last_time_view() == old(self).last_time_view(),
            final(self).entries() == keep_fresh(
                old(self).entries(),
                now,
                old(self).spec_config().expiry_time,
            ),
            removed == old(self).entries().len() - final(self).entries().len(),
            (old(self).spec_config().expiry_time == 0 && now > 0 && (forall|i: int|
                0 <= i < old(self).entries().len() ==> (#[trigger] old(self).entries()[i]).added_time < now)) ==> final(self).entries().len() == 0,
    {
        let ghost s0 = self.entries();
        let expiry = self.config.expiry_time;
        let expiry_nanos = sat_mul(expiry, 1000000000);
        let mut kept: Vec<PoolEntry> = Vec::new();
        let mut kept_mem: usize = 0;
        let mut i: usize = 0;
        proof {
            assert(s0.take(0) =~= Seq::<PoolEntryV>::empty());
        }
        while i < self.txs.len()
            invariant
                i <= self.txs@.len(),
                self.wf(),
                self.entries() == s0,
                s0 == old(self).entries(),
                self.spec_config() == old(self).spec_config(),
                expiry == old(self).spec_config().expiry_time,
                expiry_nanos == sat_mul_u64(expiry, 1000000000),
                kept@.map_values(|e: PoolEntry| e@) == keep_fresh(
                    s0.take(i as int),
                    now,
                    expiry,
                ),
                kept_mem as int == mem_sum(kept@.map_values(|e: PoolEntry| e@)),
                kept_mem <= self.spec_memory_usage(),
            decreases self.txs@.len() - i,
        {
            let ghost pre_kept = kept@.map_values(|e: PoolEntry| e@);
            let t = self.txs[i].added_time;
            let expired = now > t && now - t > expiry_nanos;
            proof {
                lemma_keep_fresh_snoc(s0, i as int, now, expiry);
                assert(spec_expired(s0[i as int], now, expiry) == expired);
            }
            if !expired {
                let e = self.clone_entry(i);
                proof {
                    assert(pre_kept.push(s0[i as int]) =~= pre_kept + seq![s0[i as int]]);
                    assert(keep_fresh(s0.take(i as int + 1), now, expiry) == pre_kept.push(
                        s0[i as int],
                    ));
                    lemma_mem_sum_push(pre_kept, s0[i as int]);
                    lemma_keep_fresh_mem_bound(s0.take(i as int + 1), now, expiry);
                    lemma_mem_sum_rest_bound(s0, i as int + 1);
                    assert(kept_mem + e.memory_size == mem_sum(
                        keep_fresh(s0.take(i as int + 1), now, expiry),
                    ));
                    assert(kept_mem + e.memory_size <= mem_sum(s0));
                }
                kept_mem = kept_mem + e.memory_size;
                kept.push(e);
                proof {
                    assert(kept@.map_values(|e2: PoolEntry| e2@) =~= pre_kept.push(
                        s0[i as int],
                    ));
                }
            }
            i = i + 1;
        }
        proof {
            assert(s0.take(s0.len() as int) =~= s0);
            lemma_keep_fresh_len(s0, now, expiry);
            assert(kept@.map_values(|e2: PoolEntry| e2@).len() <= s0.len());
        }
        let removed = self.txs.len() - kept.len();
        self.txs = kept;
        self.memory_usage = kept_mem;
        proof {
            lemma_keep_fresh_contained(s0, now, expiry);
            lemma_keep_fresh_unique(s0, now, expiry);
            if self.config.expiry_time == 0 && now > 0 && (forall|k: int|
                0 <= k < s0.len() ==> (#[trigger] s0[k]).added_time < now) {
                lemma_keep_fresh_zero(s0, now);
            }
        }
        if removed > 0 {
            self.metrics.record_transactions_expired(removed as u64);
        }
        self.metrics.update_transaction_count(self.txs.len());
        self.metrics.update_memory_usage(self.memory_usage);
        removed
    }

    /// Copy the entry at an index.
    fn clone_entry(&self, i: usize) -> (r: PoolEntry)
        requires
            i < self.entries().len(),
        ensures
            r@ == self.entries()[i as int],
    {
        let e = &self.txs[i];
        PoolEntry {
            tx: e.tx.clone(),
            tx_hash: e.tx_hash,
            added_time: e.added_time,
            is_valid: e.is_valid,
            memory_size: e.memory_size,
        }
    }

    /// Mark each pooled transaction valid exactly when its sender can pay
    /// it and it sits at the sender's current nonce; everything else about
    /// the pool is unchanged.
    pub fn revalidate_transactions(&mut self, state: &BlockchainState)
        requires
            old(self).wf(),
        ensures
            final(self).wf(),
            final(self).spec_config() == old(self).spec_config(),
            final(self).spec_memory_usage() == old(self).spec_memory_usage(),
            final(self).entries().len() == old(self).entries().len(),
            forall|i: int|
                0 <= i < old(self).entries().len() ==> (#[trigger] final(self).entries()[i])
                    == (PoolEntryV {
                    is_valid: {
                        let t = old(self).entries()[i].tx;
                        let acct = model_acct(state_model(*state), t.sender);
                        acct.balance >= sat_add_u64(t.amount, t.fee) && t.nonce == acct.nonce
                    },
                    ..old(self).entries()[i]
                }),
    {
        self.metrics.start_operation(OperationType::Revalidate);
        let ghost s0 = self.entries();
        let mut updated: Vec<PoolEntry> = Vec::new();
        let mut i: usize = 0;
        while i < self.txs.len()
            invariant
                i <= self.txs@.len(),
                self.wf(),
                self.entries() == s0,
                s0 == old(self).entries(),
                self.spec_config() == old(self).spec_config(),
                self.spec_memory_usage() == old(self).spec_memory_usage(),
                updated@.len() == i,
                forall|j: int|
                    0 <= j < i ==> (#[trigger] updated@[j]@) == (PoolEntryV {
                        is_valid: {
                            let t = s0[j].tx;
                            let acct = model_acct(state_model(*state), t.sender);
                            acct.balance >= sat_add_u64(t.amount, t.fee) && t.nonce == acct.nonce
                        },
                        ..s0[j]
                    }),
            decreases self.txs@.len() - i,
        {
            let mut e = self.clone_entry(i);
            let sender_state = state.get_account_state(&e.tx.sender);
            let required = e.tx.amount.saturating_add(e.tx.fee);
            let is_valid = sender_state.balance >= required && e.tx.nonce == sender_state.nonce;
            e.is_valid = is_valid;
            updated.push(e);
            i = i + 1;
        }
        let ghost snew = updated@.map_values(|e: PoolEntry| e@);
        proof {
            lemma_same_shape_mem_sum(s0, snew);
        }
        self.txs = updated;
        self.metrics.stop_operation(OperationType::Revalidate);
    }
}

/// Appending one entry to a prefix extends the fresh survivors by it when
/// it is not expired.
proof fn lemma_keep_fresh_snoc(s: Seq<PoolEntryV>, i: int, now: u64, expiry: u64)
    requires
        0 <= i < s.len(),
    ensures
        keep_fresh(s.take(i + 1), now, expiry) == if spec_expired(s[i], now, expiry) {
            keep_fresh(s.take(i), now, expiry)
        } else {
            keep_fresh(s.take(i), now, expiry) + seq![s[i]]
        },
    decreases i,
{
    if i == 0 {
        assert(s.take(1) =~= seq![s[0]]);
        assert(s.take(1).skip(1) =~= Seq::<PoolEntryV>::empty());
        assert(s.take(0) =~= Seq::<PoolEntryV>::empty());
        if !spec_expired(s[0], now, expiry) {
            assert(keep_fresh(s.take(1), now, expiry) =~= keep_fresh(
                s.take(0),
                now,
                expiry,
            ) + seq![s[0]]);
        }
    } else {
        lemma_keep_fresh_snoc(s.skip(1), i - 1, now, expiry);
        assert(s.take(i + 1).skip(1) =~= s.skip(1).take(i));
        assert(s.take(i).skip(1) =~= s.skip(1).take(i - 1));
        assert(s.take(i + 1)[0] == s[0]);
        assert(s.take(i)[0] == s[0]);
        assert(s.skip(1)[i - 1] == s[i]);
        if !spec_expired(s[i], now, expiry) {
            if spec_expired(s[0], now, expiry) {
            } else {
                assert(seq![s[0]] + (keep_fresh(s.skip(1).take(i - 1), now, expiry) + seq![s[i]])
                    =~= (seq![s[0]] + keep_fresh(s.skip(1).take(i - 1), now, expiry)) + seq![s[i]]);
            }
        }
    }
}

/// The fresh survivors are no longer than the original sequence.
proof fn lemma_keep_fresh_len(s: Seq<PoolEntryV>, now: u64, expiry: u64)
    ensures
        keep_fresh(s, now, expiry).len() <= s.len(),
    decreases s.len(),
{
    if s.len() > 0 {
        lemma_keep_fresh_len(s.skip(1), now, expiry);
    }
}

/// Every fresh survivor is one of the original entries.
proof fn lemma_keep_fresh_contained(s: Seq<PoolEntryV>, now: u64, expiry: u64)
    ensures
        forall|i: int|
            0 <= i < keep_fresh(s, now, expiry).len() ==> exists|j: int|
                0 <= j < s.len() && (#[trigger] keep_fresh(s, now, expiry)[i]) == s[j],
    decreases s.len(),
{
    if s.len() > 0 {
        lemma_keep_fresh_contained(s.skip(1), now, expiry);
        let rest = keep_fresh(s.skip(1), now, expiry);
        assert forall|i: int|
            0 <= i < keep_fresh(s, now, expiry).len() implies exists|j: int|
            0 <= j < s.len() && (#[trigger] keep_fresh(s, now, expiry)[i]) == s[j] by {
            if spec_expired(s[0], now, expiry) {
                let j = choose|j: int| 0 <= j < s.skip(1).len() && rest[i] == s.skip(1)[j];
                assert(keep_fresh(s, now, expiry)[i] == s[j + 1]);
            } else {
                if i == 0 {
                    assert(keep_fresh(s, now, expiry)[0] == s[0]);
                } else {
                    let j = choose|j: int|
                        0 <= j < s.skip(1).len() && rest[i - 1] == s.skip(1)[j];
                    assert(keep_fresh(s, now, expiry)[i] == s[j + 1]);
                }
            }
        }
    }
}

/// The fresh survivors keep distinct hashes and distinct (sender, nonce)
/// pairs when the originals have them.
proof fn lemma_keep_fresh_unique(s: Seq<PoolEntryV>, now: u64, expiry: u64)
    requires
        forall|i: int, j: int|
            0 <= i < s.len() && 0 <= j < s.len() && i != j ==> (#[trigger] s[i]).tx_hash != (
            #[trigger] s[j]).tx_hash,
        forall|i: int, j: int|
            0 <= i < s.len() && 0 <= j < s.len() && i != j ==> !((#[trigger] s[i]).tx.sender == (
            #[trigger] s[j]).tx.sender && s[i].tx.nonce == s[j].tx.nonce),
    ensures
        forall|i: int, j: int|
            0 <= i < keep_fresh(s, now, expiry).len() && 0 <= j < keep_fresh(
                s,
                now,
                expiry,
            ).len() && i != j ==> (#[trigger] keep_fresh(s, now, expiry)[i]).tx_hash != (
            #[trigger] keep_fresh(s, now, expiry)[j]).tx_hash,
        forall|i: int, j: int|
            0 <= i < keep_fresh(s, now, expiry).len() && 0 <= j < keep_fresh(
                s,
                now,
                expiry,
            ).len() && i != j ==> !((#[trigger] keep_fresh(s, now, expiry)[i]).tx.sender == (
            #[trigger] keep_fresh(s, now, expiry)[j]).tx.sender && keep_fresh(
                s,
                now,
                expiry,
            )[i].tx.nonce == keep_fresh(s, now, expiry)[j].tx.nonce),
    decreases s.len(),
{
    if s.len() > 0 {
        assert(forall|i: int, j: int|
            0 <= i < s.skip(1).len() && 0 <= j < s.skip(1).len() && i != j ==> (#[trigger] s.skip(
                1,
            )[i]).tx_hash != (#[trigger] s.skip(1)[j]).tx_hash);
        assert(forall|i: int, j: int|
            0 <= i < s.skip(1).len() && 0 <= j < s.skip(1).len() && i != j ==> !((#[trigger] s.skip(
                1,
            )[i]).tx.sender == (#[trigger] s.skip(1)[j]).tx.sender && s.skip(1)[i].tx.nonce
                == s.skip(1)[j].tx.nonce));
        lemma_keep_fresh_unique(s.skip(1), now, expiry);
        lemma_keep_fresh_contained(s.skip(1), now, expiry);
        let kf = keep_fresh(s, now, expiry);
        let rest = keep_fresh(s.skip(1), now, expiry);
        if !spec_expired(s[0], now, expiry) {
            assert(kf == seq![s[0]] + rest);
            assert forall|i: int, j: int|
                0 <= i < kf.len() && 0 <= j < kf.len() && i != j implies (#[trigger] kf[i]).tx_hash
                != (#[trigger] kf[j]).tx_hash && !(kf[i].tx.sender == kf[j].tx.sender
                && kf[i].tx.nonce == kf[j].tx.nonce) by {
                if i == 0 || j == 0 {
                    let k = if i == 0 { j } else { i };
                    assert(kf[k] == rest[k - 1]);
                    let w = choose|w: int|
                        0 <= w < s.skip(1).len() && rest[k - 1] == s.skip(1)[w];
                    assert(kf[k] == s[w + 1]);
                    assert(s[0].tx_hash != s[w + 1].tx_hash);
                    assert(!(s[0].tx.sender == s[w + 1].tx.sender && s[0].tx.nonce == s[w
                        + 1].tx.nonce));
                } else {
                    assert(kf[i] == rest[i - 1]);
                    assert(kf[j] == rest[j - 1]);
                }
            }
        }
    }
}

/// With a zero expiry time, nothing admitted strictly before `now` survives.
proof fn lemma_keep_fresh_zero(s: Seq<PoolEntryV>, now: u64)
    requires
        now > 0,
        forall|i: int| 0 <= i < s.len() ==> (#[trigger] s[i]).added_time < now,
    ensures
        keep_fresh(s, now, 0).len() == 0,
    decreases s.len(),
{
    if s.len() > 0 {
        assert(spec_expired(s[0], now, 0));
        lemma_keep_fresh_zero(s.skip(1), now);
    }
}

/// The memory of a prefix of a sequence is at most the whole sequence's.
proof fn lemma_mem_sum_rest_bound(s: Seq<PoolEntryV>, i: int)
    requires
        0 <= i <= s.len(),
    ensures
        mem_sum(s.take(i)) <= mem_sum(s),
    decreases s.len(),
{
    if i > 0 && s.len() > 0 {
        lemma_mem_sum_rest_bound(s.skip(1), i - 1);
        assert(s.take(i).skip(1) =~= s.skip(1).take(i - 1));
        assert(s.take(i)[0] == s[0]);
    } else {
        assert(s.take(0) =~= Seq::<PoolEntryV>::empty());
        lemma_mem_sum_nonneg(s);
    }
}

/// The fresh survivors never hold more memory than the originals.
proof fn lemma_keep_fresh_mem_bound(s: Seq<PoolEntryV>, now: u64, expiry: u64)
    ensures
        mem_sum(keep_fresh(s, now, expiry)) <= mem_sum(s),
    decreases s.len(),
{
    if s.len() > 0 {
        lemma_keep_fresh_mem_bound(s.skip(1), now, expiry);
        if !spec_expired(s[0], now, expiry) {
            let rest = keep_fresh(s.skip(1), now, expiry);
            assert((seq![s[0]] + rest).skip(1) =~= rest);
            assert((seq![s[0]] + rest)[0] == s[0]);
        } else {
            lemma_mem_sum_nonneg(seq![s[0]]);
        }
    }
}

/// Two entry sequences equal except possibly in validity flags have equal
/// memory sums.
proof fn lemma_same_shape_mem_sum(a: Seq<PoolEntryV>, b: Seq<PoolEntryV>)
    requires
        a.len() == b.len(),
        forall|i: int| 0 <= i < a.len() ==> (#[trigger] b[i]).memory_size == a[i].memory_size,
    ensures
        mem_sum(a) == mem_sum(b),
    decreases a.len(),
{
    if a.len() > 0 {
        lemma_same_shape_mem_sum(a.skip(1), b.skip(1));
    }
}

} // verus!
// admission

verus! {

impl TransactionPool {
    /// Add a transaction to the pool, rejecting a same-sender same-nonce
    /// conflict.
    pub fn add_transaction(&mut self, tx: Transaction, state: &BlockchainState) -> (r: Result<
        crate::types::Hash,
        Error,
    >)
        requires
            old(self).wf(),
        ensures
            final(self).wf(),
            final(self).spec_config() == old(self).spec_config(),
            r is Ok ==> r->Ok_0@ == tx_hash_of(tx@) && has_hash(final(self).entries(), tx_hash_of(tx@)),
            r is Ok ==> final(self).spec_memory_usage()
                <= final(self).spec_config().max_memory as int,
            !admission_ok(old(self).entries(), old(self).spec_config(), tx@, state_model(*state))
                ==> r is Err,
            r is Err && !(has_sender_nonce(old(self).entries(), tx@.sender, tx@.nonce)) && !(old(self).entries().len() >= old(self).spec_config().max_size) && !(old(self).spec_memory_usage() + tx_mem(tx@) > old(self).spec_config().max_memory as int) && !(
            old(self).spec_memory_usage() > old(self).spec_config().max_memory as int * 3 / 4)
                ==> final(self).entries() == old(self).entries() && !admission_ok(
                old(self).entries(),
                old(self).spec_config(),
                tx@,
                state_model(*state),
            ),
            admission_ok(old(self).entries(), old(self).spec_config(), tx@, state_model(*state))
                && old(self).entries().len() < old(self).spec_config().max_size && old(self).spec_memory_usage() + tx_mem(tx@) <= old(self).spec_config().max_memory as int && old(self).spec_memory_usage() <= old(self).spec_config().max_memory as int * 3 / 4 ==> r is Ok
                && final(self).entries().len() == old(self).entries().len() + 1 && final(self).entries().take(old(self).entries().len() as int) == old(self).entries() && final(self).entries().last().tx == tx@,
    {
        self.add_transaction_with_replacement(tx, state, false)
    }

    /// Add a transaction to the pool. A same-sender same-nonce conflict is
    /// rejected, or, when replacement is allowed and the new fee meets the
    /// bump floor over the old one, replaces the pooled transaction.
    pub fn add_transaction_with_replacement(
        &mut self,
        tx: Transaction,
        state: &BlockchainState,
        allow_replacement: bool,
    ) -> (r: Result<crate::types::Hash, Error>)
        requires
            old(self).wf(),
        ensures
            final(self).wf(),
            final(self).spec_config() == old(self).spec_config(),
            r is Ok ==> r->Ok_0@ == tx_hash_of(tx@) && has_hash(final(self).entries(), tx_hash_of(tx@)),
            r is Ok ==> final(self).spec_memory_usage()
                <= final(self).spec_config().max_memory as int,
            !tx_verify_ok(tx@) ==> r is Err && final(self).entries() == old(self).entries(),
            tx_verify_ok(tx@) && has_hash(old(self).entries(), tx_hash_of(tx@)) ==> r is Err
                && final(self).entries() == old(self).entries(),
            tx_verify_ok(tx@) && !has_hash(old(self).entries(), tx_hash_of(tx@))
                && has_sender_nonce(old(self).entries(), tx@.sender, tx@.nonce)
                && !allow_replacement ==> r is Err && final(self).entries() == old(self).entries(),
            tx_verify_ok(tx@) && !has_hash(old(self).entries(), tx_hash_of(tx@))
                && !has_sender_nonce(old(self).entries(), tx@.sender, tx@.nonce) && (tx@.nonce
                != model_acct(state_model(*state), tx@.sender).nonce || model_acct(
                state_model(*state),
                tx@.sender,
            ).balance < sat_add_u64(tx@.amount, tx@.fee) || spec_fee_per_byte(tx@) < old(self).spec_config().min_fee_per_byte) ==> r is Err && final(self).entries() == old(self).entries(),
            tx_verify_ok(tx@) && !has_hash(old(self).entries(), tx_hash_of(tx@))
                && has_sender_nonce(old(self).entries(), tx@.sender, tx@.nonce) && allow_replacement
                ==> {
                let i = idx_of_sender_nonce(old(self).entries(), tx@.sender, tx@.nonce);
                let min_required = spec_min_replacement_fee(
                    old(self).entries()[i].tx.fee,
                    old(self).spec_config().replacement_fee_bump,
                );
                &&& (tx@.fee < min_required ==> r is Err && final(self).entries() == old(self).entries())
                &&& (tx@.fee >= min_required && (tx@.nonce != model_acct(
                    state_model(*state),
                    tx@.sender,
                ).nonce || model_acct(state_model(*state), tx@.sender).balance < sat_add_u64(
                    tx@.amount,
                    tx@.fee,
                ) || spec_fee_per_byte(tx@) < old(self).spec_config().min_fee_per_byte) ==> r is Err
                    && final(self).entries() == old(self).entries())
                &&& (tx@.fee >= min_required && tx@.nonce == model_acct(
                    state_model(*state),
                    tx@.sender,
                ).nonce && model_acct(state_model(*state), tx@.sender).balance >= sat_add_u64(
                    tx@.amount,
                    tx@.fee,
                ) && spec_fee_per_byte(tx@) >= old(self).spec_config().min_fee_per_byte && mem_sum(
                    old(self).entries().remove(i),
                ) + tx_mem(tx@) <= old(self).spec_config().max_memory as int ==> r is Ok && final(self).entries().len() == old(self).entries().len() && final(self).entries().take(
                    old(self).entries().len() - 1,
                ) == old(self).entries().remove(i) && final(self).entries().last().tx == tx@)
            },
            !admission_ok(old(self).entries(), old(self).spec_config(), tx@, state_model(*state))
                && !(tx_verify_ok(tx@) && !has_hash(old(self).entries(), tx_hash_of(tx@))
                && has_sender_nonce(old(self).entries(), tx@.sender, tx@.nonce)
                && allow_replacement) ==> r is Err,
            admission_ok(old(self).entries(), old(self).spec_config(), tx@, state_model(*state))
                && old(self).entries().len() < old(self).spec_config().max_size && old(self).spec_memory_usage() + tx_mem(tx@) <= old(self).spec_config().max_memory as int && old(self).spec_memory_usage() <= old(self).spec_config().max_memory as int * 3 / 4 ==> r is Ok
                && final(self).entries().len() == old(self).entries().len() + 1 && final(self).entries().take(old(self).entries().len() as int) == old(self).entries() && final(self).entries().last().tx == tx@,
            admission_ok(old(self).entries(), old(self).spec_config(), tx@, state_model(*state))
                && old(self).entries().len() >= old(self).spec_config().max_size && old(self).entries().len() > 0 && (forall|j: int|
                0 <= j < old(self).entries().len() ==> spec_fee_per_byte(tx@) <= spec_fee_per_byte(
                    (#[trigger] old(self).entries()[j]).tx,
                )) ==> r is Err && final(self).entries() == old(self).entries(),
            r is Err && !(tx_verify_ok(tx@) && !has_hash(old(self).entries(), tx_hash_of(tx@))
                && has_sender_nonce(old(self).entries(), tx@.sender, tx@.nonce) && allow_replacement
                && tx@.fee >= spec_min_replacement_fee(
                old(self).entries()[idx_of_sender_nonce(
                    old(self).entries(),
                    tx@.sender,
                    tx@.nonce,
                )].tx.fee,
                old(self).spec_config().replacement_fee_bump,
            )) ==> (forall|i: int|
                0 <= i < final(self).entries().len() ==> exists|j: int|
                    0 <= j < old(self).entries().len() && (#[trigger] final(self).entries()[i])
                        == old(self).entries()[j]),
    {
        self.metrics.start_operation(OperationType::Add);
        self.metrics.start_operation(OperationType::Validate);
        match tx.verify() {
            Ok(_) => {},
            Err(e) => {
                self.metrics.record_transaction_rejected();
                self.metrics.stop_operation(OperationType::Validate);
                self.metrics.stop_operation(OperationType::Add);
                return Err(e);
            },
        }
        let tx_hash = tx.hash();
        if self.contains_hash(&tx_hash) {
            self.metrics.record_transaction_rejected();
            self.metrics.stop_operation(OperationType::Validate);
            self.metrics.stop_operation(OperationType::Add);
            return Err(Error::Validation(String::from_str("Transaction already in pool")));
        }
        let existing = self.find_transaction_by_sender_and_nonce(&tx.sender, tx.nonce);
        match existing {
            Some(existing_tx) => {
                if allow_replacement {
                    self.metrics.stop_operation(OperationType::Validate);
                    let r = self.process_replacement_transaction(tx, tx_hash, state);
                    self.metrics.stop_operation(OperationType::Add);
                    return r;
                } else {
                    self.metrics.record_transaction_rejected();
                    self.metrics.stop_operation(OperationType::Validate);
                    self.metrics.stop_operation(OperationType::Add);
                    return Err(
                        Error::Validation(
                            String::from_str("Transaction with this nonce already exists"),
                        ),
                    );
                }
            },
            None => {},
        }
        let sender_state = state.get_account_state(&tx.sender);
        if tx.nonce != sender_state.nonce {
            self.metrics.record_transaction_rejected();
            self.metrics.stop_operation(OperationType::Validate);
            self.metrics.stop_operation(OperationType::Add);
            return Err(Error::Validation(String::from_str("Invalid nonce")));
        }
        let total_cost = tx.amount.saturating_add(tx.fee);
        if sender_state.balance < total_cost {
            self.metrics.record_transaction_rejected();
            self.metrics.stop_operation(OperationType::Validate);
            self.metrics.stop_operation(OperationType::Add);
            return Err(Error::Validation(String::from_str("Insufficient balance")));
        }
        let fee_per_byte = tx.fee_per_byte();
        let tx_size = tx.estimate_size();
        self.metrics.record_transaction_fee(fee_per_byte, tx_size);
        if fee_per_byte < self.config.min_fee_per_byte {
            self.metrics.record_transaction_rejected();
            self.metrics.stop_operation(OperationType::Validate);
            self.metrics.stop_operation(OperationType::Add);
            return Err(Error::Validation(String::from_str("Fee too low")));
        }
        self.metrics.stop_operation(OperationType::Validate);
        let ghost pre_evict = self.entries();
        if self.txs.len() >= self.config.max_size && self.txs.len() > 0 {
            let li = self.lowest_fpb_index();
            proof {
                assert(entry_wf(self.entries()[li as int], self.spec_config()));
            }
            let lowest_fpb = self.txs[li].tx.fee_per_byte();
            if fee_per_byte <= lowest_fpb {
                self.metrics.record_transaction_rejected();
                self.metrics.stop_operation(OperationType::Add);
                return Err(
                    Error::Validation(String::from_str("Transaction pool full and fee too low")),
                );
            }
            let victim_hash = self.txs[li].tx_hash;
            proof {
                assert(self.entries()[li as int].tx_hash == victim_hash@);
                assert(has_hash(self.entries(), victim_hash@));
            }
            self.remove_transaction(&victim_hash);
            proof {
                lemma_remove_preserves_uniqueness(pre_evict, idx_of_hash(pre_evict, victim_hash@));
            }
        }
        let memory_size = 161 + tx.data.len() + POOL_ENTRY_OVERHEAD;
        let gate = (self.config.max_memory as u128) * 3 / 4;
        if (self.memory_usage as u128) > gate || memory_size
            > self.config.max_memory.saturating_sub(self.memory_usage) {
            self.optimize_memory();
            if memory_size > self.config.max_memory.saturating_sub(self.memory_usage) {
                self.metrics.record_transaction_rejected();
                self.metrics.stop_operation(OperationType::Add);
                return Err(
                    Error::Validation(
                        String::from_str("Cannot add transaction due to memory constraints"),
                    ),
                );
            }
        }
        proof {
            lemma_no_hash_sub(old(self).entries(), self.entries(), tx_hash_of(tx@));
            lemma_no_sender_nonce_sub(old(self).entries(), self.entries(), tx@);
        }
        self.insert_validated(tx, tx_hash);
        self.metrics.update_transaction_count(self.txs.len());
        self.metrics.update_memory_usage(self.memory_usage);
        self.metrics.record_transaction_added(0, 0);
        self.metrics.stop_operation(OperationType::Add);
        Ok(tx_hash)
    }

    /// Replace the pooled transaction with the new one's sender and nonce:
    /// the new fee must meet the bump floor over the old fee and the new
    /// transaction must pass nonce, balance, fee-floor and memory checks;
    /// then the old entry goes and the new one is admitted.
    fn process_replacement_transaction(
        &mut self,
        new_tx: Transaction,
        new_hash: crate::types::Hash,
        state: &BlockchainState,
    ) -> (r: Result<crate::types::Hash, Error>)
        requires
            old(self).wf(),
            tx_verify_ok(new_tx@),
            new_hash@ == tx_hash_of(new_tx@),
            !has_hash(old(self).entries(), new_hash@),
            has_sender_nonce(old(self).entries(), new_tx@.sender, new_tx@.nonce),
        ensures
            final(self).wf(),
            final(self).spec_config() == old(self).spec_config(),
            r is Ok ==> r->Ok_0@ == tx_hash_of(new_tx@) && has_hash(
                final(self).entries(),
                tx_hash_of(new_tx@),
            ),
            r is Ok ==> final(self).spec_memory_usage()
                <= final(self).spec_config().max_memory as int,
            ({
                let i = idx_of_sender_nonce(old(self).entries(), new_tx@.sender, new_tx@.nonce);
                let min_required = spec_min_replacement_fee(
                    old(self).entries()[i].tx.fee,
                    old(self).spec_config().replacement_fee_bump,
                );
                &&& (new_tx@.fee < min_required ==> r is Err && final(self).entries() == old(self).entries())
                &&& (new_tx@.fee >= min_required && (new_tx@.nonce != model_acct(
                    state_model(*state),
                    new_tx@.sender,
                ).nonce || model_acct(state_model(*state), new_tx@.sender).balance < sat_add_u64(
                    new_tx@.amount,
                    new_tx@.fee,
                ) || spec_fee_per_byte(new_tx@) < old(self).spec_config().min_fee_per_byte) ==> r
                    is Err && final(self).entries() == old(self).entries())
                &&& (new_tx@.fee >= min_required && new_tx@.nonce == model_acct(
                    state_model(*state),
                    new_tx@.sender,
                ).nonce && model_acct(state_model(*state), new_tx@.sender).balance >= sat_add_u64(
                    new_tx@.amount,
                    new_tx@.fee,
                ) && spec_fee_per_byte(new_tx@) >= old(self).spec_config().min_fee_per_byte
                    && mem_sum(old(self).entries().remove(i)) + tx_mem(new_tx@) <= old(self).spec_config().max_memory as int ==> r is Ok && final(self).entries().len() == old(self).entries().len() && final(self).entries().take(old(self).entries().len() - 1)
                    == old(self).entries().remove(i) && final(self).entries().last().tx == new_tx@)
                &&& (r is Err ==> final(self).entries() == old(self).entries())
            }),
    {
        let ghost s0 = self.entries();
        let existing = self.find_transaction_by_sender_and_nonce(&new_tx.sender, new_tx.nonce);
        let existing_tx = match existing {
            Some(t) => t,
            None => {
                proof {
                    assert(false);
                }
                return Err(Error::Validation(String::from_str("Existing transaction not found")));
            },
        };
        let ghost i = idx_of_sender_nonce(s0, new_tx@.sender, new_tx@.nonce);
        let existing_fee = existing_tx.fee;
        let min_fee = existing_fee.saturating_add(sat_mul(existing_fee, self.config.replacement_fee_bump) / 100);
        if new_tx.fee < min_fee {
            self.metrics.record_transaction_rejected();
            return Err(Error::Validation(String::from_str("Replacement fee too low")));
        }
        let sender_state = state.get_account_state(&new_tx.sender);
        if new_tx.nonce != sender_state.nonce {
            self.metrics.record_transaction_rejected();
            return Err(Error::Validation(String::from_str("Invalid nonce")));
        }
        let total_cost = new_tx.amount.saturating_add(new_tx.fee);
        if sender_state.balance < total_cost {
            self.metrics.record_transaction_rejected();
            return Err(Error::Validation(String::from_str("Insufficient balance")));
        }
        let fee_per_byte = new_tx.fee_per_byte();
        if fee_per_byte < self.config.min_fee_per_byte {
            self.metrics.record_transaction_rejected();
            return Err(Error::Validation(String::from_str("Fee too low")));
        }
        let memory_size = 161 + new_tx.data.len() + POOL_ENTRY_OVERHEAD;
        let existing_hash = existing_tx.hash();
        proof {
            assert(s0[i].tx == existing_tx@);
            assert(entry_wf(s0[i], self.spec_config()));
            assert(s0[i].tx_hash == tx_hash_of(existing_tx@));
            assert(has_hash(s0, existing_hash@));
            assert(idx_of_hash(s0, existing_hash@) == i) by {
                let k = idx_of_hash(s0, existing_hash@);
                assert(0 <= k < s0.len() && s0[k].tx_hash == existing_hash@);
                if k != i {
                    assert(s0[k].tx_hash != s0[i].tx_hash);
                }
            }
            Self::lemma_remove_keeps_wf(s0, i);
            lemma_mem_sum_nonneg(s0.remove(i));
        }
        if memory_size > self.config.max_memory.saturating_sub(self.memory_usage.saturating_sub(
            existing_tx.estimate_size() + POOL_ENTRY_OVERHEAD,
        )) {
            self.metrics.record_transaction_rejected();
            return Err(
                Error::Validation(
                    String::from_str("Memory limit reached, cannot replace transaction"),
                ),
            );
        }
        let removed = self.remove_transaction(&existing_hash);
        if !removed {
            proof {
                assert(false);
            }
            return Err(
                Error::Validation(
                    String::from_str("Failed to remove existing transaction during replacement"),
                ),
            );
        }
        proof {
            lemma_remove_preserves_uniqueness(s0, i);
            lemma_no_hash_sub(s0, self.entries(), tx_hash_of(new_tx@));
            assert(!has_sender_nonce(self.entries(), new_tx@.sender, new_tx@.nonce)) by {
                if has_sender_nonce(self.entries(), new_tx@.sender, new_tx@.nonce) {
                    let k = idx_of_sender_nonce(self.entries(), new_tx@.sender, new_tx@.nonce);
                    assert(0 <= k < self.entries().len() && self.entries()[k].tx.sender
                        == new_tx@.sender && self.entries()[k].tx.nonce == new_tx@.nonce);
                    if k < i {
                        assert(self.entries()[k] == s0[k]);
                        assert(!(s0[k].tx.sender == s0[i].tx.sender && s0[k].tx.nonce
                            == s0[i].tx.nonce));
                    } else {
                        assert(self.entries()[k] == s0[k + 1]);
                        assert(!(s0[k + 1].tx.sender == s0[i].tx.sender && s0[k + 1].tx.nonce
                            == s0[i].tx.nonce));
                    }
                }
            }
        }
        self.insert_validated(new_tx, new_hash);
        self.metrics.update_transaction_count(self.txs.len());
        self.metrics.update_memory_usage(self.memory_usage);
        Ok(new_hash)
    }
}

/// A hash absent from a sequence is absent from any selection of its
/// entries.
proof fn lemma_no_hash_sub(s0: Seq<PoolEntryV>, s1: Seq<PoolEntryV>, h: Seq<u8>)
    requires
        !has_hash(s0, h),
        forall|i: int|
            0 <= i < s1.len() ==> exists|j: int| 0 <= j < s0.len() && (#[trigger] s1[i]) == s0[j],
    ensures
        !has_hash(s1, h),
{
    assert forall|i: int| 0 <= i < s1.len() implies (#[trigger] s1[i]).tx_hash != h by {
        let j = choose|j: int| 0 <= j < s0.len() && s1[i] == s0[j];
        assert(s0[j].tx_hash != h);
    }
}

/// A (sender, nonce) pair absent from a sequence is absent from any
/// selection of its entries.
proof fn lemma_no_sender_nonce_sub(s0: Seq<PoolEntryV>, s1: Seq<PoolEntryV>, t: TransactionV)
    requires
        !has_sender_nonce(s0, t.sender, t.nonce),
        forall|i: int|
            0 <= i < s1.len() ==> exists|j: int| 0 <= j < s0.len() && (#[trigger] s1[i]) == s0[j],
    ensures
        !has_sender_nonce(s1, t.sender, t.nonce),
{
    assert forall|i: int| 0 <= i < s1.len() implies !((#[trigger] s1[i]).tx.sender == t.sender
        && s1[i].tx.nonce == t.nonce) by {
        let j = choose|j: int| 0 <= j < s0.len() && s1[i] == s0[j];
        assert(!(s0[j].tx.sender == t.sender && s0[j].tx.nonce == t.nonce));
    }
}

} // verus!
// selection

verus! {

/// The total amount plus fee the already chosen entries of one sender
/// spend.
pub open spec fn spent_of(s: Seq<PoolEntryV>, chosen: Seq<int>, sender: Seq<u8>) -> int
    decreases chosen.len(),
{
    if chosen.len() == 0 {
        0
    } else {
        (if 0 <= chosen[0] < s.len() && s[chosen[0]].tx.sender == sender {
            sat_add_u64(s[chosen[0]].tx.amount, s[chosen[0]].tx.fee) as int
        } else {
            0
        }) + spent_of(s, chosen.skip(1), sender)
    }
}

/// How many already chosen entries are from one sender.
pub open spec fn count_of(s: Seq<PoolEntryV>, chosen: Seq<int>, sender: Seq<u8>) -> int
    decreases chosen.len(),
{
    if chosen.len() == 0 {
        0
    } else {
        (if 0 <= chosen[0] < s.len() && s[chosen[0]].tx.sender == sender {
            1int
        } else {
            0
        }) + count_of(s, chosen.skip(1), sender)
    }
}

/// Whether the entry at `i` can be selected next: marked valid, not yet
/// chosen, at its sender's projected nonce, and affordable under the
/// sender's projected balance.
pub open spec fn eligible_at(
    s: Seq<PoolEntryV>,
    m: Map<Seq<u8>, crate::state::AccountStateV>,
    chosen: Seq<int>,
    i: int,
) -> bool {
    &&& 0 <= i < s.len()
    &&& s[i].is_valid
    &&& !chosen.contains(i)
    &&& s[i].tx.nonce as int == model_acct(m, s[i].tx.sender).nonce + count_of(
        s,
        chosen,
        s[i].tx.sender,
    )
    &&& model_acct(m, s[i].tx.sender).balance - spent_of(s, chosen, s[i].tx.sender) >= sat_add_u64(
        s[i].tx.amount,
        s[i].tx.fee,
    )
}

/// Whether the entry at `i` is preferred over the one at `j`: a higher fee
/// per byte, an earlier admission on equal fees, and the lower index on a
/// full tie.
pub open spec fn sel_prefer(s: Seq<PoolEntryV>, i: int, j: int) -> bool {
    let fi = spec_fee_per_byte(s[i].tx);
    let fj = spec_fee_per_byte(s[j].tx);
    ||| fi > fj
    ||| (fi == fj && s[i].added_time < s[j].added_time)
    ||| (fi == fj && s[i].added_time == s[j].added_time && i < j)
}

/// Whether the entry at `i` is the next selection: eligible and preferred
/// over every other eligible entry.
pub open spec fn is_best_at(
    s: Seq<PoolEntryV>,
    m: Map<Seq<u8>, crate::state::AccountStateV>,
    chosen: Seq<int>,
    i: int,
) -> bool {
    &&& eligible_at(s, m, chosen, i)
    &&& forall|j: int| #[trigger] eligible_at(s, m, chosen, j) && j != i ==> sel_prefer(s, i, j)
}

/// The indices selection picks, in order, continuing from the already
/// chosen ones, up to `k` more.
pub open spec fn spec_select_from(
    s: Seq<PoolEntryV>,
    m: Map<Seq<u8>, crate::state::AccountStateV>,
    chosen: Seq<int>,
    k: nat,
) -> Seq<int>
    decreases k,
{
    if k == 0 {
        Seq::empty()
    } else if exists|i: int| is_best_at(s, m, chosen, i) {
        let b = choose|i: int| is_best_at(s, m, chosen, i);
        seq![b] + spec_select_from(s, m, chosen.push(b), (k - 1) as nat)
    } else {
        Seq::empty()
    }
}

/// The indices selection picks from a pool against a state, up to `k`.
pub open spec fn spec_select(
    s: Seq<PoolEntryV>,
    m: Map<Seq<u8>, crate::state::AccountStateV>,
    k: nat,
) -> Seq<int> {
    spec_select_from(s, m, Seq::empty(), k)
}

/// Preference between entries is transitive.
proof fn lemma_prefer_trans(s: Seq<PoolEntryV>, i: int, j: int, k: int)
    requires
        sel_prefer(s, i, j),
        sel_prefer(s, j, k),
    ensures
        sel_prefer(s, i, k),
{
}

/// At most one entry is the next selection.
proof fn lemma_best_unique(
    s: Seq<PoolEntryV>,
    m: Map<Seq<u8>, crate::state::AccountStateV>,
    chosen: Seq<int>,
    i: int,
    j: int,
)
    requires
        is_best_at(s, m, chosen, i),
        is_best_at(s, m, chosen, j),
    ensures
        i == j,
{
    if i != j {
        assert(sel_prefer(s, i, j));
        assert(sel_prefer(s, j, i));
    }
}

/// When `b` is the next selection, the selection sequence starts with it.
proof fn lemma_select_step(
    s: Seq<PoolEntryV>,
    m: Map<Seq<u8>, crate::state::AccountStateV>,
    chosen: Seq<int>,
    k: nat,
    b: int,
)
    requires
        k > 0,
        is_best_at(s, m, chosen, b),
    ensures
        spec_select_from(s, m, chosen, k) == seq![b] + spec_select_from(
            s,
            m,
            chosen.push(b),
            (k - 1) as nat,
        ),
{
    let c = choose|i: int| is_best_at(s, m, chosen, i);
    lemma_best_unique(s, m, chosen, c, b);
}

/// A prefix of the chosen spends at most what the whole spends, and picks
/// at most as many.
proof fn lemma_spent_prefix(s: Seq<PoolEntryV>, chosen: Seq<int>, sender: Seq<u8>, i: int)
    requires
        0 <= i <= chosen.len(),
    ensures
        spent_of(s, chosen.take(i), sender) <= spent_of(s, chosen, sender),
        count_of(s, chosen.take(i), sender) <= count_of(s, chosen, sender),
        spent_of(s, chosen.take(i), sender) >= 0,
        count_of(s, chosen.take(i), sender) >= 0,
        spent_of(s, chosen, sender) >= 0,
        count_of(s, chosen, sender) >= 0,
    decreases chosen.len(),
{
    if chosen.len() == 0 {
        assert(chosen.take(i) =~= Seq::<int>::empty());
    } else if i == 0 {
        assert(chosen.take(0) =~= Seq::<int>::empty());
        lemma_spent_prefix(s, chosen.skip(1), sender, 0);
    } else {
        lemma_spent_prefix(s, chosen.skip(1), sender, i - 1);
        assert(chosen.take(i).skip(1) =~= chosen.skip(1).take(i - 1));
        assert(chosen.take(i)[0] == chosen[0]);
    }
}

/// Spending and counting one more chosen index.
proof fn lemma_spent_snoc(s: Seq<PoolEntryV>, chosen: Seq<int>, sender: Seq<u8>, i: int)
    requires
        0 <= i < chosen.len(),
    ensures
        spent_of(s, chosen.take(i + 1), sender) == spent_of(s, chosen.take(i), sender) + (if 0
            <= chosen[i] < s.len() && s[chosen[i]].tx.sender == sender {
            sat_add_u64(s[chosen[i]].tx.amount, s[chosen[i]].tx.fee) as int
        } else {
            0
        }),
        count_of(s, chosen.take(i + 1), sender) == count_of(s, chosen.take(i), sender) + (if 0
            <= chosen[i] < s.len() && s[chosen[i]].tx.sender == sender {
            1int
        } else {
            0
        }),
    decreases i,
{
    if i == 0 {
        assert(chosen.take(1) =~= seq![chosen[0]]);
        assert(chosen.take(1).skip(1) =~= Seq::<int>::empty());
        assert(chosen.take(0) =~= Seq::<int>::empty());
    } else {
        lemma_spent_snoc(s, chosen.skip(1), sender, i - 1);
        assert(chosen.take(i + 1).skip(1) =~= chosen.skip(1).take(i));
        assert(chosen.take(i).skip(1) =~= chosen.skip(1).take(i - 1));
        assert(chosen.take(i + 1)[0] == chosen[0]);
        assert(chosen.take(i)[0] == chosen[0]);
        assert(chosen.skip(1)[i - 1] == chosen[i]);
    }
}

impl TransactionPool {
    /// The sender's projected balance, base nonce and selection count
    /// against the already selected transactions.
    fn projected_for(
        &self,
        state: &BlockchainState,
        selected: &Vec<Transaction>,
        sender: &PublicKeyBytes,
        Ghost(s): Ghost<Seq<PoolEntryV>>,
        Ghost(chosen): Ghost<Seq<int>>,
    ) -> (r: (u64, u64, usize))
        requires
            selected@.len() == chosen.len(),
            forall|q: int|
                0 <= q < chosen.len() ==> 0 <= #[trigger] chosen[q] < s.len() && selected@[q]@
                    == s[chosen[q]].tx,
            forall|a: Seq<u8>|
                spent_of(s, chosen, a) <= model_acct(state_model(*state), a).balance,
        ensures
            r.0 as int == model_acct(state_model(*state), sender@).balance - spent_of(
                s,
                chosen,
                sender@,
            ),
            r.1 == model_acct(state_model(*state), sender@).nonce,
            r.2 as int == count_of(s, chosen, sender@),
    {
        let acct = state.get_account_state(sender);
        let base_nonce = acct.nonce;
        let mut bal: u64 = acct.balance;
        let mut cnt: usize = 0;
        let mut q: usize = 0;
        proof {
            assert(chosen.take(0) =~= Seq::<int>::empty());
            lemma_spent_prefix(s, chosen, sender@, 0);
        }
        while q < selected.len()
            invariant
                q <= selected@.len(),
                selected@.len() == chosen.len(),
                forall|p: int|
                    0 <= p < chosen.len() ==> 0 <= #[trigger] chosen[p] < s.len() && selected@[p]@
                        == s[chosen[p]].tx,
                forall|a: Seq<u8>|
                    spent_of(s, chosen, a) <= model_acct(state_model(*state), a).balance,
                bal as int == model_acct(state_model(*state), sender@).balance - spent_of(
                    s,
                    chosen.take(q as int),
                    sender@,
                ),
                cnt as int == count_of(s, chosen.take(q as int), sender@),
                cnt <= q,
            decreases selected@.len() - q,
        {
            proof {
                lemma_spent_snoc(s, chosen, sender@, q as int);
                lemma_spent_prefix(s, chosen, sender@, q as int + 1);
            }
            if crate::types::hash_eq(&selected[q].sender, sender) {
                let cost = selected[q].amount.saturating_add(selected[q].fee);
                proof {
                    assert(selected@[q as int]@ == s[chosen[q as int]].tx);
                    assert(s[chosen[q as int]].tx.sender == sender@);
                }
                bal = bal - cost;
                cnt = cnt + 1;
            } else {
                proof {
                    assert(selected@[q as int]@ == s[chosen[q as int]].tx);
                    assert(s[chosen[q as int]].tx.sender != sender@);
                }
            }
            q = q + 1;
        }
        proof {
            assert(chosen.take(chosen.len() as int) =~= chosen);
        }
        (bal, base_nonce, cnt)
    }

    /// Select up to `max_count` transactions for a block: repeatedly pick,
    /// among the valid pooled transactions whose sender is at its
    /// projected nonce and can pay under its projected balance, the one of
    /// highest fee per byte, preferring the earlier admission on ties.
    pub fn select_transactions(&mut self, max_count: usize, state: &BlockchainState) -> (r: Vec<
        Transaction,
    >)
        requires
            old(self).wf(),
        ensures
            final(self).wf(),
            final(self).entries() == old(self).entries(),
            final(self).spec_config() == old(self).spec_config(),
            final(self).spec_memory_usage() == old(self).spec_memory_usage(),
            r@.len() == spec_select(
                old(self).entries(),
                state_model(*state),
                max_count as nat,
            ).len(),
            forall|i: int|
                0 <= i < r@.len() ==> (#[trigger] r@[i])@ == old(self).entries()[spec_select(
                    old(self).entries(),
                    state_model(*state),
                    max_count as nat,
                )[i]].tx,
    {
        self.metrics.start_operation(OperationType::Select);
        let ghost s = self.entries();
        let ghost m = state_model(*state);
        let mut result: Vec<Transaction> = Vec::new();
        let ghost chosen: Seq<int> = Seq::empty();
        let mut used: Vec<bool> = Vec::new();
        let mut w: usize = 0;
        while w < self.txs.len()
            invariant
                w <= self.txs@.len(),
                used@.len() == w,
                forall|p: int| 0 <= p < w ==> !(#[trigger] used@[p]),
            decreases self.txs@.len() - w,
        {
            used.push(false);
            w = w + 1;
        }
        let mut rounds: usize = 0;
        proof {
            assert(spec_select_from(s, m, chosen, max_count as nat) == spec_select(
                s,
                m,
                max_count as nat,
            ));
        }
        while rounds < max_count
            invariant_except_break
                rounds <= max_count,
                self.wf(),
                self.entries() == s,
                s == old(self).entries(),
                m == state_model(*state),
                self.spec_config() == old(self).spec_config(),
                self.spec_memory_usage() == old(self).spec_memory_usage(),
                used@.len() == s.len(),
                result@.len() == chosen.len(),
                chosen.len() == rounds,
                forall|p: int|
                    0 <= p < chosen.len() ==> 0 <= #[trigger] chosen[p] < s.len() && result@[p]@
                        == s[chosen[p]].tx,
                forall|p: int| 0 <= p < s.len() ==> (#[trigger] used@[p]) == chosen.contains(p),
                forall|a: Seq<u8>| spent_of(s, chosen, a) <= model_acct(m, a).balance,
                spec_select(s, m, max_count as nat) == chosen + spec_select_from(
                    s,
                    m,
                    chosen,
                    (max_count - rounds) as nat,
                ),
            ensures
                self.wf(),
                self.entries() == s,
                s == old(self).entries(),
                self.spec_config() == old(self).spec_config(),
                self.spec_memory_usage() == old(self).spec_memory_usage(),
                result@.len() == chosen.len(),
                forall|p: int|
                    0 <= p < chosen.len() ==> 0 <= #[trigger] chosen[p] < s.len() && result@[p]@
                        == s[chosen[p]].tx,
                chosen == spec_select(s, m, max_count as nat),
            decreases max_count - rounds,
        {
            let mut best: usize = 0;
            let mut have_best = false;
            let mut best_fpb: u64 = 0;
            let mut best_time: u64 = 0;
            let mut idx: usize = 0;
            while idx < self.txs.len()
                invariant
                    idx <= self.txs@.len(),
                    self.wf(),
                    self.entries() == s,
                    m == state_model(*state),
                    used@.len() == s.len(),
                    result@.len() == chosen.len(),
                    forall|p: int|
                        0 <= p < chosen.len() ==> 0 <= #[trigger] chosen[p] < s.len()
                            && result@[p]@ == s[chosen[p]].tx,
                    forall|p: int|
                        0 <= p < s.len() ==> (#[trigger] used@[p]) == chosen.contains(p),
                    forall|a: Seq<u8>| spent_of(s, chosen, a) <= model_acct(m, a).balance,
                    have_best ==> best < idx && eligible_at(s, m, chosen, best as int)
                        && best_fpb == spec_fee_per_byte(s[best as int].tx) && best_time == s[
                        best as int
                    ].added_time,
                    forall|j: int|
                        0 <= j < idx && #[trigger] eligible_at(s, m, chosen, j) ==> have_best && (
                        j == best as int || sel_prefer(s, best as int, j)),
                decreases self.txs@.len() - idx,
            {
                proof {
                    assert(entry_wf(s[idx as int], self.spec_config()));
                }
                let mut candidate = false;
                if self.txs[idx].is_valid && !used[idx] {
                    let (bal, base_nonce, cnt) = self.projected_for(
                        state,
                        &result,
                        &self.txs[idx].tx.sender,
                        Ghost(s),
                        Ghost(chosen),
                    );
                    let t_nonce = self.txs[idx].tx.nonce;
                    let total = self.txs[idx].tx.amount.saturating_add(self.txs[idx].tx.fee);
                    if t_nonce >= base_nonce && t_nonce - base_nonce == cnt as u64 && bal >= total {
                        candidate = true;
                    }
                } else {
                    proof {
                        assert(!eligible_at(s, m, chosen, idx as int));
                    }
                }
                proof {
                    assert(candidate == eligible_at(s, m, chosen, idx as int));
                }
                if candidate {
                    let fpb = self.txs[idx].tx.fee_per_byte();
                    let t = self.txs[idx].added_time;
                    proof {
                        assert(fpb == spec_fee_per_byte(s[idx as int].tx));
                        assert(t == s[idx as int].added_time);
                    }
                    if !have_best {
                        best = idx;
                        have_best = true;
                        best_fpb = fpb;
                        best_time = t;
                    } else if fpb > best_fpb || (fpb == best_fpb && t < best_time) {
                        proof {
                            assert(sel_prefer(s, idx as int, best as int));
                            assert forall|j: int|
                                0 <= j < idx && #[trigger] eligible_at(s, m, chosen, j) && j
                                    != idx as int implies sel_prefer(s, idx as int, j) by {
                                if j != best as int {
                                    assert(sel_prefer(s, best as int, j));
                                    lemma_prefer_trans(s, idx as int, best as int, j);
                                }
                            }
                        }
                        best = idx;
                        best_fpb = fpb;
                        best_time = t;
                    } else {
                        proof {
                            assert(best < idx);
                            assert(sel_prefer(s, best as int, idx as int));
                        }
                    }
                }
                proof {
                    assert forall|j: int|
                        0 <= j < idx + 1 && #[trigger] eligible_at(s, m, chosen, j) implies
                        have_best && (j == best as int || sel_prefer(s, best as int, j)) by {
                        if j == idx as int {
                            assert(candidate);
                        }
                    }
                }
                idx = idx + 1;
            }
            if !have_best {
                proof {
                    assert(idx == s.len());
                    assert forall|j: int| !eligible_at(s, m, chosen, j) by {
                        if 0 <= j < s.len() {
                            assert(eligible_at(s, m, chosen, j) ==> have_best);
                        }
                    }
                    assert(forall|j: int| !is_best_at(s, m, chosen, j));
                    assert(spec_select_from(s, m, chosen, (max_count - rounds) as nat)
                        =~= Seq::<int>::empty());
                    assert(chosen + Seq::<int>::empty() =~= chosen);
                }
                break ;
            }
            proof {
                assert(is_best_at(s, m, chosen, best as int));
                lemma_select_step(s, m, chosen, (max_count - rounds) as nat, best as int);
                lemma_spent_snoc(s, chosen.push(best as int), s[best as int].tx.sender, chosen.len() as int);
            }
            let tx = self.txs[best].tx.clone();
            result.push(tx);
            used.remove(best);
            used.insert(best, true);
            proof {
                let newchosen = chosen.push(best as int);
                assert forall|a: Seq<u8>| spent_of(s, newchosen, a) <= model_acct(m, a).balance by {
                    lemma_spent_push(s, chosen, best as int, a);
                    if s[best as int].tx.sender == a {
                        assert(eligible_at(s, m, chosen, best as int));
                    }
                }
                assert forall|p: int|
                    0 <= p < s.len() implies (#[trigger] used@[p]) == newchosen.contains(p) by {
                    if p == best as int {
                        assert(newchosen[newchosen.len() - 1] == p);
                        assert(newchosen.contains(p));
                    } else {
                        assert(used@[p] == chosen.contains(p));
                        assert(newchosen.contains(p) == chosen.contains(p)) by {
                            if chosen.contains(p) {
                                let w2 = choose|w2: int| 0 <= w2 < chosen.len() && chosen[w2] == p;
                                assert(newchosen[w2] == p);
                            } else if newchosen.contains(p) {
                                let w2 = choose|w2: int|
                                    0 <= w2 < newchosen.len() && newchosen[w2] == p;
                                assert(w2 < chosen.len());
                                assert(chosen[w2] == p);
                            }
                        }
                    }
                }
                assert((chosen + (seq![best as int] + spec_select_from(
                    s,
                    m,
                    newchosen,
                    (max_count - rounds - 1) as nat,
                ))) =~= (newchosen + spec_select_from(
                    s,
                    m,
                    newchosen,
                    (max_count - rounds - 1) as nat,
                )));
                chosen = newchosen;
            }
            rounds = rounds + 1;
        }
        proof {
            if rounds == max_count && chosen.len() == max_count {
                assert(spec_select_from(s, m, chosen, 0) =~= Seq::<int>::empty());
                assert(chosen + Seq::<int>::empty() =~= chosen);
            }
        }
        self.metrics.stop_operation(OperationType::Select);
        result
    }
}

/// The spending of a pushed index splits off.
proof fn lemma_spent_push(s: Seq<PoolEntryV>, chosen: Seq<int>, b: int, a: Seq<u8>)
    ensures
        spent_of(s, chosen.push(b), a) == spent_of(s, chosen, a) + (if 0 <= b < s.len()
            && s[b].tx.sender == a {
            sat_add_u64(s[b].tx.amount, s[b].tx.fee) as int
        } else {
            0
        }),
        count_of(s, chosen.push(b), a) == count_of(s, chosen, a) + (if 0 <= b < s.len()
            && s[b].tx.sender == a {
            1int
        } else {
            0
        }),
    decreases chosen.len(),
{
    if chosen.len() == 0 {
        assert(chosen.push(b)[0] == b);
        assert(chosen.push(b).skip(1) =~= Seq::<int>::empty());
        assert(spent_of(s, Seq::<int>::empty(), a) == 0);
        assert(count_of(s, Seq::<int>::empty(), a) == 0);
        assert(spent_of(s, chosen.push(b), a) == (if 0 <= b < s.len() && s[b].tx.sender == a {
            sat_add_u64(s[b].tx.amount, s[b].tx.fee) as int
        } else {
            0
        }) + spent_of(s, Seq::<int>::empty(), a));
        assert(count_of(s, chosen.push(b), a) == (if 0 <= b < s.len() && s[b].tx.sender == a {
            1int
        } else {
            0
        }) + count_of(s, Seq::<int>::empty(), a));
    } else {
        lemma_spent_push(s, chosen.skip(1), b, a);
        assert(chosen.push(b).skip(1) =~= chosen.skip(1).push(b));
        assert(chosen.push(b)[0] == chosen[0]);
        assert(spent_of(s, chosen.push(b), a) == (if 0 <= chosen[0] < s.len()
            && s[chosen[0]].tx.sender == a {
            sat_add_u64(s[chosen[0]].tx.amount, s[chosen[0]].tx.fee) as int
        } else {
            0
        }) + spent_of(s, chosen.skip(1).push(b), a));
        assert(count_of(s, chosen.push(b), a) == (if 0 <= chosen[0] < s.len()
            && s[chosen[0]].tx.sender == a {
            1int
        } else {
            0
        }) + count_of(s, chosen.skip(1).push(b), a));
    }
}

} // verus!
// detailed validation and batch admission

verus! {

impl TransactionPool {
    /// Validate a transaction against the pool and a state with detailed
    /// errors, in order: duplicate, signature, nonce, balance, fee floor,
    /// capacity, memory; succeeds exactly when every check passes.
    fn validate_transaction_internal(&self, tx: &Transaction, state: &BlockchainState) -> (r:
        TxResult<()>)
        requires
            self.wf(),
        ensures
            ({
                let t = tx@;
                let s = self.entries();
                let acct = model_acct(state_model(*state), t.sender);
                let total = sat_add_u64(t.amount, t.fee);
                &&& (r is Ok <==> {
                    &&& !has_hash(s, tx_hash_of(t))
                    &&& tx_verify_ok(t)
                    &&& t.nonce == acct.nonce
                    &&& acct.balance >= total
                    &&& spec_fee_per_byte(t) >= self.spec_config().min_fee_per_byte
                    &&& s.len() < self.spec_config().max_size
                    &&& self.spec_memory_usage() + tx_mem(t)
                        <= self.spec_config().max_memory as int
                })
                &&& (has_hash(s, tx_hash_of(t)) ==> r is Err && r->Err_0 is AlreadyExists)
                &&& (!has_hash(s, tx_hash_of(t)) && !tx_verify_ok(t) ==> r is Err && r->Err_0
                    is InvalidSignature)
                &&& (!has_hash(s, tx_hash_of(t)) && tx_verify_ok(t) && t.nonce != acct.nonce ==> r
                    is Err && r->Err_0 == (TransactionError::InvalidNonce {
                    sender: tx.sender,
                    expected: acct.nonce,
                    actual: t.nonce,
                }))
                &&& (!has_hash(s, tx_hash_of(t)) && tx_verify_ok(t) && t.nonce == acct.nonce
                    && acct.balance < total ==> r is Err && r->Err_0
                    == (TransactionError::InsufficientBalance {
                    sender: tx.sender,
                    balance: acct.balance,
                    required: total,
                }))
                &&& (!has_hash(s, tx_hash_of(t)) && tx_verify_ok(t) && t.nonce == acct.nonce
                    && acct.balance >= total && spec_fee_per_byte(t)
                    < self.spec_config().min_fee_per_byte ==> r is Err && r->Err_0
                    == (TransactionError::FeeTooLow {
                    fee_per_byte: spec_fee_per_byte(t),
                    min_required: self.spec_config().min_fee_per_byte,
                }))
                &&& (!has_hash(s, tx_hash_of(t)) && tx_verify_ok(t) && t.nonce == acct.nonce
                    && acct.balance >= total && spec_fee_per_byte(t)
                    >= self.spec_config().min_fee_per_byte && s.len()
                    >= self.spec_config().max_size ==> r is Err && r->Err_0
                    is PoolFull)
                &&& (!has_hash(s, tx_hash_of(t)) && tx_verify_ok(t) && t.nonce == acct.nonce
                    && acct.balance >= total && spec_fee_per_byte(t)
                    >= self.spec_config().min_fee_per_byte && s.len()
                    < self.spec_config().max_size && self.spec_memory_usage() + tx_mem(t)
                    > self.spec_config().max_memory as int ==> r is Err && r->Err_0
                    is MemoryLimitReached)
            }),
    {
        let tx_hash = tx.hash();
        if self.contains_hash(&tx_hash) {
            return Err(TransactionError::AlreadyExists { tx_hash });
        }
        match tx.verify() {
            Ok(_) => {},
            Err(_) => {
                return Err(TransactionError::InvalidSignature);
            },
        }
        let sender_state = state.get_account_state(&tx.sender);
        if tx.nonce != sender_state.nonce {
            return Err(
                TransactionError::InvalidNonce {
                    sender: tx.sender,
                    expected: sender_state.nonce,
                    actual: tx.nonce,
                },
            );
        }
        let total_cost = tx.amount.saturating_add(tx.fee);
        if sender_state.balance < total_cost {
            return Err(
                TransactionError::InsufficientBalance {
                    sender: tx.sender,
                    balance: sender_state.balance,
                    required: total_cost,
                },
            );
        }
        let fee_per_byte = tx.fee_per_byte();
        if fee_per_byte < self.config.min_fee_per_byte {
            return Err(
                TransactionError::FeeTooLow {
                    fee_per_byte,
                    min_required: self.config.min_fee_per_byte,
                },
            );
        }
        if self.txs.len() >= self.config.max_size {
            return Err(
                TransactionError::PoolFull {
                    current_size: self.txs.len(),
                    max_size: self.config.max_size,
                },
            );
        }
        let tx_memory = 161 + tx.data.len() + POOL_ENTRY_OVERHEAD;
        if tx_memory > self.config.max_memory.saturating_sub(self.memory_usage) {
            return Err(
                TransactionError::MemoryLimitReached {
                    current_bytes: self.memory_usage,
                    max_bytes: self.config.max_memory,
                },
            );
        }
        Ok(())
    }

    /// Validate a transaction with detailed errors, without admitting it.
    pub fn verify_transaction(&self, tx: &Transaction, state: &BlockchainState) -> (r: TxResult<
        (),
    >)
        requires
            self.wf(),
        ensures
            r is Ok <==> {
                let t = tx@;
                let acct = model_acct(state_model(*state), t.sender);
                &&& !has_hash(self.entries(), tx_hash_of(t))
                &&& tx_verify_ok(t)
                &&& t.nonce == acct.nonce
                &&& acct.balance >= sat_add_u64(t.amount, t.fee)
                &&& spec_fee_per_byte(t) >= self.spec_config().min_fee_per_byte
                &&& self.entries().len() < self.spec_config().max_size
                &&& self.spec_memory_usage() + tx_mem(t) <= self.spec_config().max_memory as int
            },
    {
        self.validate_transaction_internal(tx, state)
    }

    /// Validate the signature and basic format of a transaction.
    pub fn validate_transaction(&self, tx: &Transaction) -> (r: Result<(), PoolError>)
        ensures
            r is Ok <==> tx_verify_ok(tx@) && !(tx@.amount == 0 && tx@.data.len() == 0),
            r is Err && !tx_verify_ok(tx@) ==> r->Err_0 is InvalidSignature,
            r is Err && tx_verify_ok(tx@) ==> r->Err_0 is InvalidFormat,
    {
        match tx.verify() {
            Ok(_) => {},
            Err(_) => {
                return Err(PoolError::InvalidSignature);
            },
        }
        if tx.amount == 0 && tx.data.len() == 0 {
            return Err(PoolError::InvalidFormat);
        }
        Ok(())
    }

    /// Add a transaction with detailed errors, replacing a same-sender
    /// same-nonce transaction when allowed and the fee meets the bump floor.
    pub fn add_transaction_with_replacement_detailed(
        &mut self,
        tx: Transaction,
        state: &BlockchainState,
        allow_replacement: bool,
    ) -> (r: TxResult<crate::types::Hash>)
        requires
            old(self).wf(),
        ensures
            final(self).wf(),
            final(self).spec_config() == old(self).spec_config(),
            r is Ok ==> r->Ok_0@ == tx_hash_of(tx@) && has_hash(
                final(self).entries(),
                tx_hash_of(tx@),
            ),
            r is Err ==> final(self).entries() == old(self).entries(),
            has_sender_nonce(old(self).entries(), tx@.sender, tx@.nonce) && !allow_replacement
                ==> r is Err && r->Err_0 is AlreadyExists,
            has_sender_nonce(old(self).entries(), tx@.sender, tx@.nonce) && allow_replacement
                && tx@.fee < spec_min_replacement_fee(
                old(self).entries()[idx_of_sender_nonce(
                    old(self).entries(),
                    tx@.sender,
                    tx@.nonce,
                )].tx.fee,
                old(self).spec_config().replacement_fee_bump,
            ) ==> r is Err && r->Err_0 is ReplacementFeeTooLow,
            !has_sender_nonce(old(self).entries(), tx@.sender, tx@.nonce) && {
                let acct = model_acct(state_model(*state), tx@.sender);
                &&& !has_hash(old(self).entries(), tx_hash_of(tx@))
                &&& tx_verify_ok(tx@)
                &&& tx@.nonce == acct.nonce
                &&& acct.balance >= sat_add_u64(tx@.amount, tx@.fee)
                &&& spec_fee_per_byte(tx@) >= old(self).spec_config().min_fee_per_byte
                &&& old(self).entries().len() < old(self).spec_config().max_size
                &&& old(self).spec_memory_usage() + tx_mem(tx@) <= old(self).spec_config().max_memory as int
            } ==> r is Ok && final(self).entries().len() == old(self).entries().len() + 1 && final(self).entries().take(old(self).entries().len() as int) == old(self).entries() && final(self).entries().last().tx == tx@,
            has_sender_nonce(old(self).entries(), tx@.sender, tx@.nonce) && allow_replacement
                && tx_verify_ok(tx@) && !has_hash(old(self).entries(), tx_hash_of(tx@)) && {
                let i = idx_of_sender_nonce(old(self).entries(), tx@.sender, tx@.nonce);
                let acct = model_acct(state_model(*state), tx@.sender);
                &&& tx@.fee >= spec_min_replacement_fee(
                    old(self).entries()[i].tx.fee,
                    old(self).spec_config().replacement_fee_bump,
                )
                &&& tx@.nonce == acct.nonce
                &&& acct.balance >= sat_add_u64(tx@.amount, tx@.fee)
                &&& spec_fee_per_byte(tx@) >= old(self).spec_config().min_fee_per_byte
                &&& mem_sum(
                    old(self).entries().remove(
                        idx_of_sender_nonce(old(self).entries(), tx@.sender, tx@.nonce),
                    ),
                ) + tx_mem(tx@) <= old(self).spec_config().max_memory as int
            } ==> r is Ok && final(self).entries().len() == old(self).entries().len() && final(self).entries().take(old(self).entries().len() - 1) == old(self).entries().remove(
                idx_of_sender_nonce(old(self).entries(), tx@.sender, tx@.nonce),
            ) && final(self).entries().last().tx == tx@,
    {
        let tx_hash = tx.hash();
        let existing = self.find_transaction_by_sender_and_nonce(&tx.sender, tx.nonce);
        match existing {
            Some(existing_tx) => {
                if !allow_replacement {
                    return Err(TransactionError::AlreadyExists { tx_hash: existing_tx.hash() });
                }
                let existing_fee = existing_tx.fee;
                let min_required_fee = existing_fee.saturating_add(
                    sat_mul(existing_fee, self.config.replacement_fee_bump) / 100,
                );
                if tx.fee < min_required_fee {
                    return Err(
                        TransactionError::ReplacementFeeTooLow {
                            actual: tx.fee,
                            required: min_required_fee,
                        },
                    );
                }
                match tx.verify() {
                    Ok(_) => {},
                    Err(_) => {
                        return Err(TransactionError::InvalidSignature);
                    },
                }
                if self.contains_hash(&tx_hash) {
                    return Err(TransactionError::AlreadyExists { tx_hash });
                }
                match self.process_replacement_transaction(tx, tx_hash, state) {
                    Ok(h) => Ok(h),
                    Err(e) => Err(crate::errors::TransactionError::from_error(&e)),
                }
            },
            None => {
                match self.validate_transaction_internal(&tx, state) {
                    Ok(_) => {},
                    Err(e) => {
                        return Err(e);
                    },
                }
                proof {
                    assert(!has_sender_nonce(self.entries(), tx@.sender, tx@.nonce));
                }
                self.insert_validated(tx, tx_hash);
                Ok(tx_hash)
            },
        }
    }

    /// Add many transactions: they are grouped by sender, each group is
    /// processed in ascending nonce order against a projected copy of the
    /// sender's account, and each transaction either yields its hash or an
    /// error at its input position. The outcomes follow some lawful
    /// processing order: an input is admitted exactly when it verifies, is
    /// fresh, sits at its sender's projected nonce with enough projected
    /// balance, meets the fee floor and fits the memory budget after the
    /// admissions before it. The given state is never changed.
    #[verifier::rlimit(100)]
    pub fn add_transactions_batch(
        &mut self,
        transactions: Vec<Transaction>,
        state: &BlockchainState,
    ) -> (r: (Vec<crate::types::Hash>, Vec<(usize, Error)>))
        requires
            old(self).wf(),
        ensures
            final(self).wf(),
            final(self).spec_config() == old(self).spec_config(),
            r.0@.len() + r.1@.len() == transactions@.len(),
            forall|i: int|
                0 <= i < r.0@.len() ==> has_hash(final(self).entries(), (#[trigger] r.0@[i])@),
            forall|i: int| 0 <= i < r.1@.len() ==> (#[trigger] r.1@[i]).0 < transactions@.len(),
            exists|order: Seq<int>|
                #[trigger] batch_outcome_matches(
                    tx_views(transactions@),
                    old(self).entries(),
                    old(self).spec_config(),
                    old(self).spec_memory_usage(),
                    state_model(*state),
                    order,
                    crate::crypto::hash_views(r.0@),
                    fail_positions_of(r.1@),
                ),
            batch_independently_admissible(
                transactions@.map_values(|t: Transaction| t@),
                old(self).entries(),
                old(self).spec_config(),
                old(self).spec_memory_usage(),
                state_model(*state),
            ) ==> r.1@.len() == 0 && r.0@.len() == transactions@.len(),
    {
        let ghost tsv = transactions@.map_values(|t: Transaction| t@);
        let ghost ind = batch_independently_admissible(
            tsv,
            old(self).entries(),
            old(self).spec_config(),
            old(self).spec_memory_usage(),
            state_model(*state),
        );
        let ghost old_len = old(self).entries().len() as int;
        let ghost old_mem = old(self).spec_memory_usage();
        let ghost base = old(self).entries();
        let ghost cfg = old(self).spec_config();
        let ghost m = state_model(*state);
        let ghost mut gorder: Seq<int> = Seq::empty();
        let ghost mut gdone: Seq<int> = Seq::empty();
        let ghost mut gfail: Seq<int> = Seq::empty();
        let mut successes: Vec<crate::types::Hash> = Vec::new();
        let mut failures: Vec<(usize, Error)> = Vec::new();
        // group indices by sender, keeping input order inside a group
        let mut groups: Vec<(PublicKeyBytes, Vec<usize>)> = Vec::new();
        let mut i: usize = 0;
        while i < transactions.len()
            invariant
                i <= transactions@.len(),
                tsv == transactions@.map_values(|t: Transaction| t@),
                old_mem == old(self).spec_memory_usage(),
                ind ==> batch_independently_admissible(
                    tsv,
                    old(self).entries(),
                    old(self).spec_config(),
                    old_mem,
                    state_model(*state),
                ),
                group_sizes(groups@) == i,
                forall|g: int|
                    0 <= g < groups@.len() ==> forall|k: int|
                        0 <= k < (#[trigger] groups@[g]).1@.len() ==> (#[trigger] groups@[g].1@[k])
                            < i,
                forall|g: int|
                    0 <= g < groups@.len() ==> forall|k: int|
                        0 <= k < (#[trigger] groups@[g]).1@.len() ==> tsv[(
                        #[trigger] groups@[g].1@[k]) as int].sender == groups@[g].0@,
                forall|g1: int, g2: int|
                    0 <= g1 < g2 < groups@.len() ==> (#[trigger] groups@[g1]).0@ != (
                    #[trigger] groups@[g2]).0@,
                forall|g: int|
                    0 <= g < groups@.len() ==> forall|k1: int, k2: int|
                        0 <= k1 < k2 < (#[trigger] groups@[g]).1@.len() ==> (
                        #[trigger] groups@[g].1@[k1]) < (#[trigger] groups@[g].1@[k2]),
                ind ==> groups@.len() == i && forall|k: int|
                    0 <= k < i ==> (#[trigger] groups@[k]).0@ == tsv[k].sender
                        && groups@[k].1@.len() == 1 && (groups@[k].1@[0] as int) == k,
            decreases transactions@.len() - i,
        {
            let sender = transactions[i].sender;
            proof {
                assert(sender@ == tsv[i as int].sender);
            }
            let mut g: usize = 0;
            let mut placed = false;
            while g < groups.len()
                invariant
                    g <= groups@.len(),
                    i < transactions@.len(),
                    sender@ == tsv[i as int].sender,
                    tsv == transactions@.map_values(|t: Transaction| t@),
                    !placed ==> group_sizes(groups@) == i,
                    placed ==> group_sizes(groups@) == i + 1,
                    forall|h: int|
                        0 <= h < groups@.len() ==> forall|k: int|
                            0 <= k < (#[trigger] groups@[h]).1@.len() ==> (
                            #[trigger] groups@[h].1@[k]) < i + 1,
                    forall|h: int|
                        0 <= h < groups@.len() ==> forall|k: int|
                            0 <= k < (#[trigger] groups@[h]).1@.len() ==> tsv[(
                            #[trigger] groups@[h].1@[k]) as int].sender == groups@[h].0@,
                    forall|g1: int, g2: int|
                        0 <= g1 < g2 < groups@.len() ==> (#[trigger] groups@[g1]).0@ != (
                        #[trigger] groups@[g2]).0@,
                    forall|h: int|
                        0 <= h < groups@.len() ==> forall|k1: int, k2: int|
                            0 <= k1 < k2 < (#[trigger] groups@[h]).1@.len() ==> (
                            #[trigger] groups@[h].1@[k1]) < (#[trigger] groups@[h].1@[k2]),
                    !placed ==> forall|h: int|
                        0 <= h < g ==> (#[trigger] groups@[h]).0@ != sender@,
                    !placed ==> forall|h: int|
                        0 <= h < groups@.len() ==> forall|k: int|
                            0 <= k < (#[trigger] groups@[h]).1@.len() ==> (
                            #[trigger] groups@[h].1@[k]) < i,
                    ind ==> batch_independently_admissible(
                        tsv,
                        old(self).entries(),
                        old(self).spec_config(),
                        old_mem,
                        state_model(*state),
                    ),
                    ind ==> !placed && groups@.len() == i && forall|k: int|
                        0 <= k < i ==> (#[trigger] groups@[k]).0@ == tsv[k].sender
                            && groups@[k].1@.len() == 1 && (groups@[k].1@[0] as int) == k,
                decreases groups@.len() - g,
            {
                if !placed && crate::types::hash_eq(&groups[g].0, &sender) {
                    proof {
                        if ind {
                            assert(groups@[g as int].0@ == tsv[g as int].sender);
                            assert(tsv[g as int].sender != tsv[i as int].sender);
                            assert(false);
                        }
                    }
                    let ghost pre = groups@;
                    let mut idxs = groups.remove(g);
                    idxs.1.push(i);
                    groups.insert(g, idxs);
                    placed = true;
                    proof {
                        lemma_group_sizes_update(pre, g as int, groups@);
                        assert(groups@ =~= pre.update(g as int, groups@[g as int]));
                        assert(groups@[g as int].0 == pre[g as int].0);
                        assert(groups@[g as int].1@ =~= pre[g as int].1@.push(i));
                        assert(tsv[i as int].sender == groups@[g as int].0@);
                    }
                }
                g = g + 1;
            }
            if !placed {
                let ghost pre = groups@;
                let mut idxs: Vec<usize> = Vec::new();
                idxs.push(i);
                groups.push((sender, idxs));
                proof {
                    lemma_group_sizes_push(pre, groups@[groups@.len() - 1]);
                    assert(groups@ =~= pre.push(groups@[groups@.len() - 1]));
                    assert(groups@[groups@.len() - 1].0@ == sender@);
                    assert(groups@[groups@.len() - 1].1@ =~= seq![i]);
                    assert(tsv[i as int].sender == sender@);
                }
            }
            i = i + 1;
        }
        // process each group in ascending nonce order
        proof {
            assert(self.entries().take(old_len) =~= base);
            assert(batch_successes(tsv, base, cfg, old_mem, m, gorder, 0) =~= Seq::<int>::empty());
            assert(batch_failures(tsv, base, cfg, old_mem, m, gorder, 0) =~= Seq::<int>::empty());
        }
        let mut g: usize = 0;
        while g < groups.len()
            invariant
                g <= groups@.len(),
                self.wf(),
                self.spec_config() == old(self).spec_config(),
                tsv == transactions@.map_values(|t: Transaction| t@),
                old_len == old(self).entries().len() as int,
                old_mem == old(self).spec_memory_usage(),
                base == old(self).entries(),
                cfg == old(self).spec_config(),
                m == state_model(*state),
                old_len == base.len(),
                successes@.len() + failures@.len() == processed_sizes(groups@, g as int),
                forall|gg: int|
                    0 <= gg < groups@.len() ==> forall|k: int|
                        0 <= k < (#[trigger] groups@[gg]).1@.len() ==> (#[trigger] groups@[gg].1@[k])
                            < transactions@.len(),
                forall|gg: int|
                    0 <= gg < groups@.len() ==> forall|k: int|
                        0 <= k < (#[trigger] groups@[gg]).1@.len() ==> tsv[(
                        #[trigger] groups@[gg].1@[k]) as int].sender == groups@[gg].0@,
                forall|g1: int, g2: int|
                    0 <= g1 < g2 < groups@.len() ==> (#[trigger] groups@[g1]).0@ != (
                    #[trigger] groups@[g2]).0@,
                forall|gg: int|
                    0 <= gg < groups@.len() ==> forall|k1: int, k2: int|
                        0 <= k1 < k2 < (#[trigger] groups@[gg]).1@.len() ==> (
                        #[trigger] groups@[gg].1@[k1]) < (#[trigger] groups@[gg].1@[k2]),
                gorder.len() == successes@.len() + failures@.len(),
                forall|p: int| 0 <= p < gorder.len() ==> 0 <= #[trigger] gorder[p] < tsv.len(),
                forall|p1: int, p2: int|
                    0 <= p1 < p2 < gorder.len() ==> gorder[p1] != gorder[p2],
                forall|p1: int, p2: int|
                    0 <= p1 < p2 < gorder.len() && tsv[#[trigger] gorder[p1]].sender == tsv[
                    #[trigger] gorder[p2]].sender ==> tsv[gorder[p1]].nonce <= tsv[gorder[p2]].nonce,
                forall|p: int, hh: int|
                    0 <= p < gorder.len() && g <= hh < groups@.len() ==> tsv[(
                    #[trigger] gorder[p])].sender != (#[trigger] groups@[hh]).0@,
                gdone == batch_successes(tsv, base, cfg, old_mem, m, gorder, gorder.len() as int),
                gfail == batch_failures(tsv, base, cfg, old_mem, m, gorder, gorder.len() as int),
                successes@.len() == gdone.len(),
                forall|p: int|
                    0 <= p < gdone.len() ==> (#[trigger] successes@[p])@ == tx_hash_of(
                        tsv[gdone[p]],
                    ),
                failures@.len() == gfail.len(),
                forall|p: int| 0 <= p < gfail.len() ==> (#[trigger] failures@[p]).0 as int
                    == gfail[p],
                self.entries().len() == old_len + gdone.len(),
                self.entries().take(old_len) == base,
                forall|p: int|
                    0 <= p < gdone.len() ==> (#[trigger] self.entries()[old_len + p]).tx
                        == tsv[gdone[p]],
                self.spec_memory_usage() == old_mem + batch_mem(tsv, gdone),
                forall|p: int|
                    0 <= p < successes@.len() ==> has_hash(
                        self.entries(),
                        (#[trigger] successes@[p])@,
                    ),
                forall|p: int| 0 <= p < failures@.len() ==> (#[trigger] failures@[p]).0
                    < transactions@.len(),
                ind ==> batch_independently_admissible(
                    tsv,
                    old(self).entries(),
                    old(self).spec_config(),
                    old_mem,
                    state_model(*state),
                ),
                ind ==> groups@.len() == tsv.len() && forall|k: int|
                    0 <= k < tsv.len() ==> (#[trigger] groups@[k]).0@ == tsv[k].sender
                        && groups@[k].1@.len() == 1 && (groups@[k].1@[0] as int) == k,
                ind ==> failures@.len() == 0 && successes@.len() == g,
                ind ==> self.entries().len() == old_len + g && self.entries().take(old_len) == old(self).entries() && (forall|k: int|
                    0 <= k < g ==> (#[trigger] self.entries()[old_len + k]).tx == tsv[k]),
                ind ==> self.spec_memory_usage() == old_mem + txs_total_mem(tsv.take(g as int)),
            decreases groups@.len() - g,
        {
            proof {
                if ind {
                    lemma_processed_sizes_singleton(groups@, g as int);
                }
            }
            // selection-sort the group's indices by the nonce of their transactions
            let mut order: Vec<usize> = Vec::new();
            let mut taken: Vec<bool> = Vec::new();
            let ghost mut gpicks: Seq<int> = Seq::empty();
            let glen = groups[g].1.len();
            let mut w: usize = 0;
            while w < glen
                invariant
                    w <= glen,
                    taken@.len() == w,
                    forall|p: int| 0 <= p < w ==> !(#[trigger] taken@[p]),
                decreases glen - w,
            {
                taken.push(false);
                w = w + 1;
            }
            proof {
                lemma_count_true_all_false(taken@);
            }
            let mut filled: usize = 0;
            while filled < glen
                invariant
                    filled <= glen,
                    glen == groups@[g as int].1@.len(),
                    g < groups@.len(),
                    taken@.len() == glen,
                    order@.len() == filled,
                    count_true(taken@) == filled,
                    gpicks.len() == filled,
                    tsv == transactions@.map_values(|t: Transaction| t@),
                    forall|gg: int|
                        0 <= gg < groups@.len() ==> forall|k: int|
                            0 <= k < (#[trigger] groups@[gg]).1@.len() ==> (
                            #[trigger] groups@[gg].1@[k]) < transactions@.len(),
                    forall|p: int|
                        0 <= p < filled ==> 0 <= #[trigger] gpicks[p] < glen && taken@[gpicks[p]],
                    forall|p1: int, p2: int| 0 <= p1 < p2 < filled ==> gpicks[p1] != gpicks[p2],
                    forall|p: int|
                        0 <= p < filled ==> (#[trigger] order@[p]) == groups@[g as int].1@[gpicks[p]],
                    forall|p: int|
                        0 <= p < filled ==> (#[trigger] order@[p]) < transactions@.len(),
                    forall|p1: int, p2: int|
                        0 <= p1 < p2 < filled ==> tsv[(#[trigger] order@[p1]) as int].nonce <= tsv[(
                        #[trigger] order@[p2]) as int].nonce,
                    forall|p: int, k: int|
                        0 <= p < filled && 0 <= k < glen && !taken@[k] ==> tsv[(
                        #[trigger] order@[p]) as int].nonce <= tsv[(
                        #[trigger] groups@[g as int].1@[k]) as int].nonce,
                    ind ==> glen == 1 && (groups@[g as int].1@[0] as int) == g as int,
                    ind && filled == 0 ==> forall|p: int|
                        0 <= p < taken@.len() ==> !(#[trigger] taken@[p]),
                    ind && filled == 1 ==> (order@[0] as int) == g as int,
                decreases glen - filled,
            {
                let mut pick: usize = 0;
                let mut have_pick = false;
                let mut pick_nonce: u64 = 0;
                let mut k: usize = 0;
                while k < glen
                    invariant
                        k <= glen,
                        glen == groups@[g as int].1@.len(),
                        g < groups@.len(),
                        taken@.len() == glen,
                        tsv == transactions@.map_values(|t: Transaction| t@),
                        forall|gg: int|
                            0 <= gg < groups@.len() ==> forall|kk: int|
                                0 <= kk < (#[trigger] groups@[gg]).1@.len() ==> (
                                #[trigger] groups@[gg].1@[kk]) < transactions@.len(),
                        have_pick ==> pick < glen && !taken@[pick as int] && pick_nonce == tsv[(
                            groups@[g as int].1@[pick as int]) as int].nonce,
                        forall|kk: int|
                            0 <= kk < k && !taken@[kk] ==> have_pick && pick_nonce <= tsv[(
                            #[trigger] groups@[g as int].1@[kk]) as int].nonce,
                        (exists|p: int| 0 <= p < k && !(#[trigger] taken@[p])) ==> have_pick,
                    decreases glen - k,
                {
                    if !taken[k] {
                        let cand = groups[g].1[k];
                        let n = transactions[cand].nonce;
                        proof {
                            assert(!taken@[k as int]);
                            assert(n == tsv[(groups@[g as int].1@[k as int]) as int].nonce);
                        }
                        if !have_pick || n < pick_nonce {
                            pick = k;
                            have_pick = true;
                            pick_nonce = n;
                        }
                    }
                    k = k + 1;
                }
                proof {
                    if !have_pick {
                        lemma_count_true_bound(taken@);
                        let j = choose|j: int| 0 <= j < taken@.len() && !(#[trigger] taken@[j]);
                        assert(!taken@[j]);
                        assert(false);
                    }
                }
                let ghost pre_taken = taken@;
                taken.remove(pick);
                taken.insert(pick, true);
                let chosen_idx = groups[g].1[pick];
                order.push(chosen_idx);
                proof {
                    assert(taken@ =~= pre_taken.update(pick as int, true));
                    lemma_count_true_update(pre_taken, pick as int);
                    gpicks = gpicks.push(pick as int);
                    assert(forall|j: int| 0 <= j < taken@.len() && !(#[trigger] taken@[j]) ==> !pre_taken[j]);
                    assert(order@[filled as int] == groups@[g as int].1@[pick as int]);
                }
                filled = filled + 1;
            }
            // process in nonce order against a projected account copy
            let sender = groups[g].0;
            let ghost sg = groups@[g as int].0@;
            let ghost ov = order@.map_values(|u: usize| u as int);
            let ghost gorder_pre = gorder;
            let acct = state.get_account_state(&sender);
            let mut proj_balance = acct.balance;
            let mut proj_nonce = acct.nonce;
            proof {
                assert(sender@ == sg);
                assert(ov.len() == order@.len());
                assert forall|p: int| 0 <= p < ov.len() implies 0 <= #[trigger] ov[p] < tsv.len()
                    && tsv[ov[p]].sender == sg by {
                    assert(ov[p] == order@[p] as int);
                    assert(order@[p] == groups@[g as int].1@[gpicks[p]]);
                };
                assert forall|p1: int, p2: int| 0 <= p1 < p2 < ov.len() implies #[trigger] ov[p1]
                    != #[trigger] ov[p2] by {
                    assert(order@[p1] == groups@[g as int].1@[gpicks[p1]]);
                    assert(order@[p2] == groups@[g as int].1@[gpicks[p2]]);
                    if gpicks[p1] < gpicks[p2] {
                        assert(groups@[g as int].1@[gpicks[p1]] < groups@[g as int].1@[gpicks[p2]]);
                    } else {
                        assert(groups@[g as int].1@[gpicks[p2]] < groups@[g as int].1@[gpicks[p1]]);
                    }
                };
                assert forall|p1: int, p2: int| 0 <= p1 < p2 < ov.len() implies tsv[
                    #[trigger] ov[p1]].nonce <= tsv[#[trigger] ov[p2]].nonce by {
                    assert(tsv[(order@[p1]) as int].nonce <= tsv[(order@[p2]) as int].nonce);
                };
                assert forall|p: int| 0 <= p < gorder_pre.len() implies tsv[
                    #[trigger] gorder_pre[p]].sender != sg by {
                    assert(tsv[gorder[p]].sender != groups@[g as int].0@);
                };
                lemma_batch_outcomes_sub(tsv, base, cfg, old_mem, m, gorder, gorder.len() as int);
                assert forall|p: int| 0 <= p < gdone.len() implies tsv[#[trigger] gdone[p]].sender
                    != sg by {
                    let qq = choose|qq: int|
                        0 <= qq < gorder.len() && gdone[p] == #[trigger] gorder[qq];
                    assert(tsv[gorder[qq]].sender != groups@[g as int].0@);
                };
                lemma_batch_sums_other(tsv, gdone, sg);
                assert(proj_balance as int == model_acct(m, sg).balance - batch_spent(
                    tsv,
                    gdone,
                    sg,
                ));
                assert(proj_nonce == projected_nonce(
                    model_acct(m, sg).nonce,
                    batch_count(tsv, gdone, sg),
                ));
                assert(gorder =~= gorder_pre + ov.take(0));
            }
            let mut q: usize = 0;
            while q < order.len()
                invariant
                    q <= order@.len(),
                    self.wf(),
                    self.spec_config() == old(self).spec_config(),
                    tsv == transactions@.map_values(|t: Transaction| t@),
                    old_len == old(self).entries().len() as int,
                    old_mem == old(self).spec_memory_usage(),
                    base == old(self).entries(),
                    cfg == old(self).spec_config(),
                    m == state_model(*state),
                    old_len == base.len(),
                    g < groups@.len(),
                    sg == groups@[g as int].0@,
                    ov == order@.map_values(|u: usize| u as int),
                    forall|p: int|
                        0 <= p < order@.len() ==> (#[trigger] order@[p]) < transactions@.len(),
                    forall|p: int|
                        0 <= p < ov.len() ==> 0 <= #[trigger] ov[p] < tsv.len() && tsv[ov[p]].sender
                            == sg,
                    forall|p1: int, p2: int|
                        0 <= p1 < p2 < ov.len() ==> #[trigger] ov[p1] != #[trigger] ov[p2],
                    forall|p1: int, p2: int|
                        0 <= p1 < p2 < ov.len() ==> tsv[#[trigger] ov[p1]].nonce <= tsv[
                        #[trigger] ov[p2]].nonce,
                    gorder == gorder_pre + ov.take(q as int),
                    forall|p: int|
                        0 <= p < gorder_pre.len() ==> tsv[#[trigger] gorder_pre[p]].sender != sg,
                    forall|gg: int|
                        0 <= gg < groups@.len() ==> forall|k: int|
                            0 <= k < (#[trigger] groups@[gg]).1@.len() ==> tsv[(
                            #[trigger] groups@[gg].1@[k]) as int].sender == groups@[gg].0@,
                    forall|g1: int, g2: int|
                        0 <= g1 < g2 < groups@.len() ==> (#[trigger] groups@[g1]).0@ != (
                        #[trigger] groups@[g2]).0@,
                    gorder.len() == successes@.len() + failures@.len(),
                    forall|p: int| 0 <= p < gorder.len() ==> 0 <= #[trigger] gorder[p] < tsv.len(),
                    forall|p1: int, p2: int|
                        0 <= p1 < p2 < gorder.len() ==> gorder[p1] != gorder[p2],
                    forall|p1: int, p2: int|
                        0 <= p1 < p2 < gorder.len() && tsv[#[trigger] gorder[p1]].sender == tsv[
                        #[trigger] gorder[p2]].sender ==> tsv[gorder[p1]].nonce
                            <= tsv[gorder[p2]].nonce,
                    forall|p: int, hh: int|
                        0 <= p < gorder.len() && g < hh < groups@.len() ==> tsv[(
                        #[trigger] gorder[p])].sender != (#[trigger] groups@[hh]).0@,
                    gdone == batch_successes(tsv, base, cfg, old_mem, m, gorder, gorder.len() as int),
                    gfail == batch_failures(tsv, base, cfg, old_mem, m, gorder, gorder.len() as int),
                    successes@.len() == gdone.len(),
                    forall|p: int|
                        0 <= p < gdone.len() ==> (#[trigger] successes@[p])@ == tx_hash_of(
                            tsv[gdone[p]],
                        ),
                    failures@.len() == gfail.len(),
                    forall|p: int| 0 <= p < gfail.len() ==> (#[trigger] failures@[p]).0 as int
                        == gfail[p],
                    self.entries().len() == old_len + gdone.len(),
                    self.entries().take(old_len) == base,
                    forall|p: int|
                        0 <= p < gdone.len() ==> (#[trigger] self.entries()[old_len + p]).tx
                            == tsv[gdone[p]],
                    self.spec_memory_usage() == old_mem + batch_mem(tsv, gdone),
                    proj_balance as int == model_acct(m, sg).balance - batch_spent(tsv, gdone, sg),
                    proj_nonce == projected_nonce(
                        model_acct(m, sg).nonce,
                        batch_count(tsv, gdone, sg),
                    ),
                    0 <= batch_count(tsv, gdone, sg),
                    successes@.len() + failures@.len() == processed_sizes(groups@, g as int) + q,
                    forall|p: int|
                        0 <= p < successes@.len() ==> has_hash(
                            self.entries(),
                            (#[trigger] successes@[p])@,
                        ),
                    forall|p: int| 0 <= p < failures@.len() ==> (#[trigger] failures@[p]).0
                        < transactions@.len(),
                    ind ==> batch_independently_admissible(
                        tsv,
                        old(self).entries(),
                        old(self).spec_config(),
                        old_mem,
                        state_model(*state),
                    ),
                    ind ==> groups@.len() == tsv.len() && (forall|k: int|
                        0 <= k < tsv.len() ==> (#[trigger] groups@[k]).0@ == tsv[k].sender
                            && groups@[k].1@.len() == 1 && (groups@[k].1@[0] as int) == k),
                    ind ==> processed_sizes(groups@, g as int) == g as int,
                    ind ==> order@.len() == 1 && (order@[0] as int) == g as int,
                    ind ==> failures@.len() == 0 && successes@.len() == g + q,
                    ind ==> q <= 1,
                    ind && q == 0 ==> proj_balance == model_acct(
                        state_model(*state),
                        tsv[g as int].sender,
                    ).balance && proj_nonce == model_acct(
                        state_model(*state),
                        tsv[g as int].sender,
                    ).nonce,
                    ind ==> self.entries().len() == old_len + g + q && self.entries().take(old_len)
                        == old(self).entries() && (forall|k: int|
                        0 <= k < g + q ==> (#[trigger] self.entries()[old_len + k]).tx == tsv[k]),
                    ind ==> self.spec_memory_usage() == old_mem + txs_total_mem(
                        tsv.take(g as int + q),
                    ),
                decreases order@.len() - q,
            {
                let orig_idx = order[q];
                let tx = transactions[orig_idx].clone();
                let ghost pre_entries = self.entries();
                let ghost pre_mem = self.spec_memory_usage();
                let ghost ii = orig_idx as int;
                let ghost t = tsv[ii];
                proof {
                    assert(ov[q as int] == ii);
                    assert(tx@ == t);
                    assert(t.sender == sg);
                    if ind {
                        assert(orig_idx as int == g as int);
                        assert(tx@ == tsv[g as int]);
                        lemma_batch_step_admissible(
                            tsv,
                            old(self).entries(),
                            pre_entries,
                            self.spec_config(),
                            old_mem,
                            state_model(*state),
                            g as int,
                        );
                        lemma_txs_mem_snoc(tsv, g as int);
                        lemma_txs_mem_prefix(tsv, g as int + 1);
                        assert(projected_admission_ok(
                            pre_entries,
                            self.spec_config(),
                            pre_mem,
                            tsv[g as int],
                            proj_balance,
                            proj_nonce,
                        ));
                    }
                    assert forall|j: int| 0 <= j < old_len implies #[trigger] pre_entries[j]
                        == base[j] by {
                        assert(pre_entries.take(old_len)[j] == pre_entries[j]);
                    };
                    assert forall|p: int| 0 <= p < gdone.len() implies (#[trigger] pre_entries[
                        old_len + p]).tx_hash == tx_hash_of(tsv[gdone[p]]) by {
                        assert(entry_wf(pre_entries[old_len + p], self.spec_config()));
                    };
                    assert(has_hash(pre_entries, tx_hash_of(t)) <==> (has_hash(
                        base,
                        tx_hash_of(t),
                    ) || exists|p: int|
                        0 <= p < gdone.len() && tx_hash_of(tsv[#[trigger] gdone[p]]) == tx_hash_of(
                            t,
                        ))) by {
                        if has_hash(pre_entries, tx_hash_of(t)) {
                            let j = choose|j: int|
                                0 <= j < pre_entries.len() && (#[trigger] pre_entries[j]).tx_hash
                                    == tx_hash_of(t);
                            if j < old_len {
                                assert(base[j].tx_hash == tx_hash_of(t));
                            } else {
                                let p = j - old_len;
                                assert(pre_entries[old_len + p] == pre_entries[j]);
                                assert(pre_entries[old_len + p].tx_hash == tx_hash_of(
                                    tsv[gdone[p]],
                                ));
                                assert(tx_hash_of(tsv[gdone[p]]) == tx_hash_of(t));
                            }
                        }
                        if has_hash(base, tx_hash_of(t)) {
                            let j = choose|j: int|
                                0 <= j < base.len() && (#[trigger] base[j]).tx_hash == tx_hash_of(
                                    t,
                                );
                            assert(pre_entries[j].tx_hash == tx_hash_of(t));
                        }
                        if exists|p: int|
                            0 <= p < gdone.len() && tx_hash_of(tsv[#[trigger] gdone[p]])
                                == tx_hash_of(t) {
                            let p = choose|p: int|
                                0 <= p < gdone.len() && tx_hash_of(tsv[#[trigger] gdone[p]])
                                    == tx_hash_of(t);
                            assert(pre_entries[old_len + p].tx_hash == tx_hash_of(t));
                        }
                    };
                    assert(has_sender_nonce(pre_entries, t.sender, t.nonce) <==> (has_sender_nonce(
                        base,
                        t.sender,
                        t.nonce,
                    ) || exists|p: int|
                        0 <= p < gdone.len() && tsv[#[trigger] gdone[p]].sender == t.sender && tsv[
                            gdone[p]].nonce == t.nonce)) by {
                        if has_sender_nonce(pre_entries, t.sender, t.nonce) {
                            let j = choose|j: int|
                                0 <= j < pre_entries.len() && (#[trigger] pre_entries[j]).tx.sender
                                    == t.sender && pre_entries[j].tx.nonce == t.nonce;
                            if j < old_len {
                                assert(base[j].tx.sender == t.sender && base[j].tx.nonce
                                    == t.nonce);
                            } else {
                                let p = j - old_len;
                                assert(pre_entries[old_len + p] == pre_entries[j]);
                                assert(pre_entries[old_len + p].tx == tsv[gdone[p]]);
                                assert(tsv[gdone[p]].sender == t.sender && tsv[gdone[p]].nonce
                                    == t.nonce);
                            }
                        }
                        if has_sender_nonce(base, t.sender, t.nonce) {
                            let j = choose|j: int|
                                0 <= j < base.len() && (#[trigger] base[j]).tx.sender == t.sender
                                    && base[j].tx.nonce == t.nonce;
                            assert(pre_entries[j].tx.sender == t.sender && pre_entries[j].tx.nonce
                                == t.nonce);
                        }
                        if exists|p: int|
                            0 <= p < gdone.len() && tsv[#[trigger] gdone[p]].sender == t.sender
                                && tsv[gdone[p]].nonce == t.nonce {
                            let p = choose|p: int|
                                0 <= p < gdone.len() && tsv[#[trigger] gdone[p]].sender == t.sender
                                    && tsv[gdone[p]].nonce == t.nonce;
                            assert(pre_entries[old_len + p].tx.sender == t.sender && pre_entries[
                                old_len + p].tx.nonce == t.nonce);
                        }
                    };
                    assert(projected_admission_ok(
                        pre_entries,
                        cfg,
                        pre_mem,
                        t,
                        proj_balance,
                        proj_nonce,
                    ) <==> batch_step_ok(tsv, base, cfg, old_mem, m, ii, gdone));
                }
                let outcome = self.admit_projected(tx, proj_balance, proj_nonce);
                proof {
                    let prev_order = gorder;
                    gorder = gorder.push(ii);
                    lemma_batch_outcomes_prefix(
                        tsv,
                        base,
                        cfg,
                        old_mem,
                        m,
                        prev_order,
                        gorder,
                        prev_order.len() as int,
                    );
                    assert(gorder[gorder.len() - 1] == ii);
                    assert(batch_successes(tsv, base, cfg, old_mem, m, gorder, gorder.len() as int)
                        == (if batch_step_ok(tsv, base, cfg, old_mem, m, ii, gdone) {
                        gdone.push(ii)
                    } else {
                        gdone
                    }));
                    assert(batch_failures(tsv, base, cfg, old_mem, m, gorder, gorder.len() as int)
                        == (if batch_step_ok(tsv, base, cfg, old_mem, m, ii, gdone) {
                        gfail
                    } else {
                        gfail.push(ii)
                    }));
                    assert(gorder =~= gorder_pre + ov.take(q as int + 1));
                    assert forall|p1: int, p2: int| 0 <= p1 < p2 < gorder.len() implies gorder[p1]
                        != gorder[p2] by {
                        if p2 == gorder.len() - 1 {
                            if p1 < gorder_pre.len() {
                                assert(gorder[p1] == gorder_pre[p1]);
                                assert(tsv[gorder[p1]].sender != sg);
                            } else {
                                assert(gorder[p1] == ov[p1 - gorder_pre.len()]);
                                assert(ov[p1 - gorder_pre.len()] != ov[q as int]);
                            }
                        } else {
                            assert(gorder[p1] == prev_order[p1]);
                            assert(gorder[p2] == prev_order[p2]);
                        }
                    };
                    assert forall|p1: int, p2: int|
                        0 <= p1 < p2 < gorder.len() && tsv[#[trigger] gorder[p1]].sender == tsv[
                        #[trigger] gorder[p2]].sender implies tsv[gorder[p1]].nonce <= tsv[gorder[
                        p2]].nonce by {
                        if p2 == gorder.len() - 1 {
                            if p1 < gorder_pre.len() {
                                assert(gorder[p1] == gorder_pre[p1]);
                                assert(tsv[gorder[p1]].sender != sg);
                            } else {
                                assert(gorder[p1] == ov[p1 - gorder_pre.len()]);
                                assert(gorder[p2] == ov[q as int]);
                            }
                        } else {
                            assert(gorder[p1] == prev_order[p1]);
                            assert(gorder[p2] == prev_order[p2]);
                        }
                    };
                    assert forall|p: int, hh: int|
                        0 <= p < gorder.len() && g < hh < groups@.len() implies tsv[(
                        #[trigger] gorder[p])].sender != (#[trigger] groups@[hh]).0@ by {
                        if p == gorder.len() - 1 {
                            assert(tsv[gorder[p]].sender == sg);
                            assert(groups@[g as int].0@ != groups@[hh].0@);
                        } else {
                            assert(gorder[p] == prev_order[p]);
                        }
                    };
                }
                match outcome {
                    Ok((h, new_balance, new_nonce)) => {
                        proof {
                            assert(batch_step_ok(tsv, base, cfg, old_mem, m, ii, gdone));
                            let prev_done = gdone;
                            gdone = gdone.push(ii);
                            lemma_batch_sums_push(tsv, prev_done, ii, sg);
                            assert(batch_count(tsv, gdone, sg) == batch_count(tsv, prev_done, sg)
                                + 1);
                            assert(batch_spent(tsv, gdone, sg) == batch_spent(tsv, prev_done, sg)
                                + sat_add_u64(t.amount, t.fee));
                            assert(batch_mem(tsv, gdone) == batch_mem(tsv, prev_done) + tx_mem(t));
                            assert(new_nonce == projected_nonce(
                                model_acct(m, sg).nonce,
                                batch_count(tsv, gdone, sg),
                            )) by {
                                let b = model_acct(m, sg).nonce;
                                let c = batch_count(tsv, prev_done, sg);
                                assert(proj_nonce == projected_nonce(b, c));
                                if b + c >= u64::MAX {
                                    assert(projected_nonce(b, c + 1) == u64::MAX);
                                } else {
                                    assert(projected_nonce(b, c + 1) == (b + c + 1) as u64);
                                }
                            };
                            assert(self.entries().take(pre_entries.len() as int) == pre_entries);
                            assert forall|j: int| 0 <= j < old_len implies #[trigger] self.entries().take(
                                old_len,
                            )[j] == base[j] by {
                                assert(self.entries().take(pre_entries.len() as int)[j]
                                    == pre_entries[j]);
                                assert(self.entries().take(old_len)[j] == self.entries()[j]);
                            };
                            assert(self.entries().take(old_len) =~= base);
                            assert forall|p: int| 0 <= p < gdone.len() implies (
                            #[trigger] self.entries()[old_len + p]).tx == tsv[gdone[p]] by {
                                if p < prev_done.len() {
                                    assert(self.entries().take(pre_entries.len() as int)[old_len
                                        + p] == pre_entries[old_len + p]);
                                } else {
                                    assert(self.entries()[old_len + p] == self.entries().last());
                                }
                            };
                            if ind {
                                assert(forall|k: int|
                                    0 <= k < g + q ==> #[trigger] self.entries()[old_len + k]
                                        == pre_entries[old_len + k]);
                                assert(self.entries()[old_len + g + q].tx == tsv[g as int]);
                                lemma_txs_mem_snoc(tsv, g as int);
                            }
                        }
                        proj_balance = new_balance;
                        proj_nonce = new_nonce;
                        successes.push(h);
                        proof {
                            assert(successes@[successes@.len() - 1]@ == tx_hash_of(t));
                        }
                    },
                    Err(e) => {
                        proof {
                            assert(!batch_step_ok(tsv, base, cfg, old_mem, m, ii, gdone));
                            gfail = gfail.push(ii);
                            if ind {
                                assert(false);
                            }
                        }
                        failures.push((orig_idx, e));
                        proof {
                            assert(failures@[failures@.len() - 1].0 as int == ii);
                        }
                    },
                }
                q = q + 1;
            }
            proof {
                lemma_processed_sizes_step(groups@, g as int);
                assert(order@.len() == groups@[g as int].1@.len());
                if ind {
                    lemma_processed_sizes_singleton(groups@, g as int + 1);
                }
            }
            g = g + 1;
        }
        proof {
            lemma_processed_sizes_all(groups@);
            if ind {
                assert(tsv.len() == transactions@.len());
            }
            assert(gorder.len() == tsv.len());
            assert(batch_order_ok(tsv, gorder));
            let done = batch_successes(tsv, base, cfg, old_mem, m, gorder, gorder.len() as int);
            assert(crate::crypto::hash_views(successes@) =~= done.map_values(
                |j: int| tx_hash_of(tsv[j]),
            ));
            assert(fail_positions_of(failures@) =~= gfail);
            assert(tsv == tx_views(transactions@));
            assert(batch_outcome_matches(
                tx_views(transactions@),
                old(self).entries(),
                old(self).spec_config(),
                old(self).spec_memory_usage(),
                state_model(*state),
                gorder,
                crate::crypto::hash_views(successes@),
                fail_positions_of(failures@),
            ));
        }
        let result = (successes, failures);
        proof {
            assert(result.0@ == successes@ && result.1@ == failures@);
            assert(batch_outcome_matches(
                tx_views(transactions@),
                old(self).entries(),
                old(self).spec_config(),
                old(self).spec_memory_usage(),
                state_model(*state),
                gorder,
                crate::crypto::hash_views(result.0@),
                fail_positions_of(result.1@),
            ));
            assert(exists|order: Seq<int>|
                #[trigger] batch_outcome_matches(
                    tx_views(transactions@),
                    old(self).entries(),
                    old(self).spec_config(),
                    old(self).spec_memory_usage(),
                    state_model(*state),
                    order,
                    crate::crypto::hash_views(result.0@),
                    fail_positions_of(result.1@),
                ));
        }
        result
    }

    /// Admit one transaction against a projected sender account: it is
    /// admitted exactly when it verifies, its hash and (sender, nonce) are
    /// fresh, it sits at the projected nonce with sufficient projected
    /// balance, meets the fee floor, and fits the memory budget; the
    /// updated projection is returned on success.
    fn admit_projected(&mut self, tx: Transaction, proj_balance: u64, proj_nonce: u64) -> (r:
        Result<(crate::types::Hash, u64, u64), Error>)
        requires
            old(self).wf(),
        ensures
            final(self).wf(),
            final(self).spec_config() == old(self).spec_config(),
            r is Ok <==> projected_admission_ok(
                old(self).entries(),
                old(self).spec_config(),
                old(self).spec_memory_usage(),
                tx@,
                proj_balance,
                proj_nonce,
            ),
            r is Ok ==> r->Ok_0.0@ == tx_hash_of(tx@) && r->Ok_0.1 == proj_balance - sat_add_u64(
                tx@.amount,
                tx@.fee,
            ) && r->Ok_0.2 == (if proj_nonce < u64::MAX {
                (proj_nonce + 1) as u64
            } else {
                proj_nonce
            }),
            r is Ok ==> final(self).entries().len() == old(self).entries().len() + 1 && final(self).entries().take(old(self).entries().len() as int) == old(self).entries() && final(self).entries().last().tx == tx@ && has_hash(final(self).entries(), tx_hash_of(tx@)),
            r is Ok ==> final(self).spec_memory_usage() == old(self).spec_memory_usage() + tx_mem(
                tx@,
            ),
            forall|h: Seq<u8>|
                has_hash(old(self).entries(), h) ==> has_hash(final(self).entries(), h),
            r is Err ==> final(self).entries() == old(self).entries()
                && final(self).spec_memory_usage() == old(self).spec_memory_usage(),
    {
        match tx.verify() {
            Ok(_) => {},
            Err(e) => {
                return Err(e);
            },
        }
        let tx_hash = tx.hash();
        if self.contains_hash(&tx_hash) {
            return Err(Error::Validation(String::from_str("Transaction already in pool")));
        }
        if tx.nonce != proj_nonce {
            return Err(Error::Validation(String::from_str("Invalid nonce")));
        }
        let total_cost = tx.amount.saturating_add(tx.fee);
        if proj_balance < total_cost {
            return Err(Error::Validation(String::from_str("Insufficient balance")));
        }
        let fee_per_byte = tx.fee_per_byte();
        if fee_per_byte < self.config.min_fee_per_byte {
            return Err(Error::Validation(String::from_str("Fee too low")));
        }
        let existing = self.find_transaction_by_sender_and_nonce(&tx.sender, tx.nonce);
        if existing.is_some() {
            return Err(
                Error::Validation(String::from_str("Transaction with this nonce already exists")),
            );
        }
        let memory_size = 161 + tx.data.len() + POOL_ENTRY_OVERHEAD;
        if memory_size > self.config.max_memory.saturating_sub(self.memory_usage) {
            return Err(
                Error::Validation(
                    String::from_str("Cannot add transaction due to memory constraints"),
                ),
            );
        }
        let new_balance = proj_balance - total_cost;
        let new_nonce = if proj_nonce < u64::MAX {
            proj_nonce + 1
        } else {
            proj_nonce
        };
        let ghost pre = old(self).entries();
        self.insert_validated(tx, tx_hash);
        proof {
            assert forall|h: Seq<u8>| has_hash(pre, h) implies has_hash(
                self.entries(),
                h,
            ) by {
                let i = choose|i: int| 0 <= i < pre.len() && (#[trigger] pre[i]).tx_hash == h;
                assert(self.entries().take(pre.len() as int)[i] == pre[i]);
                assert(self.entries()[i].tx_hash == h);
            }
        }
        self.metrics.record_transaction_added(0, 0);
        Ok((tx_hash, new_balance, new_nonce))
    }

    /// Decode serialized transactions and add them as a batch: every input
    /// yields either a pooled hash or an error at its input position; an
    /// input that does not decode fails with a serialization error, and
    /// the inputs that decode are handed to the transaction batch.
    pub fn add_serialized_transactions_batch(
        &mut self,
        transaction_data: Vec<Vec<u8>>,
        state: &BlockchainState,
    ) -> (r: (Vec<crate::types::Hash>, Vec<(usize, Error)>))
        requires
            old(self).wf(),
        ensures
            final(self).wf(),
            final(self).spec_config() == old(self).spec_config(),
            r.0@.len() + r.1@.len() == transaction_data@.len(),
            forall|i: int|
                0 <= i < r.0@.len() ==> has_hash(final(self).entries(), (#[trigger] r.0@[i])@),
            forall|p: int| 0 <= p < r.1@.len() ==> (#[trigger] r.1@[p]).0
                < transaction_data@.len(),
            decode_failures_marked(transaction_data@, r.1@),
            exists|order: Seq<int>, batch_fails: Seq<int>|
                #[trigger] batch_outcome_matches(
                    decoded_txs(transaction_data@),
                    old(self).entries(),
                    old(self).spec_config(),
                    old(self).spec_memory_usage(),
                    state_model(*state),
                    order,
                    crate::crypto::hash_views(r.0@),
                    batch_fails,
                ),
    {
        let mut transactions: Vec<Transaction> = Vec::new();
        let mut positions: Vec<usize> = Vec::new();
        let mut failed: Vec<(usize, Error)> = Vec::new();
        let mut i: usize = 0;
        while i < transaction_data.len()
            invariant
                i <= transaction_data@.len(),
                positions@.len() == transactions@.len(),
                transactions@.len() + failed@.len() == i,
                tx_views(transactions@) == decoded_txs(transaction_data@.take(i as int)),
                forall|p: int|
                    0 <= p < positions@.len() ==> (#[trigger] positions@[p])
                        < transaction_data@.len(),
                forall|p: int| 0 <= p < failed@.len() ==> (#[trigger] failed@[p]).0
                    < transaction_data@.len(),
                forall|j: int|
                    0 <= j < i && crate::codec::dec_tx(
                        (#[trigger] transaction_data@[j])@,
                    ) is None ==> exists|p: int|
                        0 <= p < failed@.len() && (#[trigger] failed@[p]).0 == j && failed@[p].1
                            is Serialization,
            decreases transaction_data@.len() - i,
        {
            let ghost pre_txs = tx_views(transactions@);
            proof {
                lemma_decoded_txs_snoc(transaction_data@, i as int);
                assert(transaction_data@.take(i as int + 1) == transaction_data@.take(i as int
                    + 1));
            }
            match crate::codec::decode_transaction(transaction_data[i].as_slice()) {
                Some(tx) => {
                    proof {
                        assert(crate::codec::dec_tx(transaction_data@[i as int]@) == Some(tx@));
                    }
                    transactions.push(tx);
                    positions.push(i);
                    proof {
                        assert(tx_views(transactions@) =~= pre_txs.push(tx@));
                    }
                },
                None => {
                    let ghost pre_failed = failed@;
                    failed.push(
                        (i, Error::Serialization(String::from_str("Deserialization error"))),
                    );
                    proof {
                        assert(failed@[failed@.len() - 1].0 == i as int);
                        assert(forall|p: int|
                            0 <= p < pre_failed.len() ==> #[trigger] failed@[p] == pre_failed[p]);
                        assert forall|j: int|
                            0 <= j < i + 1 && crate::codec::dec_tx(
                                (#[trigger] transaction_data@[j])@,
                            ) is None implies exists|p: int|
                            0 <= p < failed@.len() && (#[trigger] failed@[p]).0 == j && failed@[
                                p].1 is Serialization by {
                            if j < i {
                                let p = choose|p: int|
                                    0 <= p < pre_failed.len() && (#[trigger] pre_failed[p]).0 == j
                                        && pre_failed[p].1 is Serialization;
                                assert(failed@[p] == pre_failed[p]);
                                assert(failed@[p].0 == j && failed@[p].1 is Serialization);
                            } else {
                                assert(failed@[failed@.len() - 1].0 == j && failed@[failed@.len()
                                    - 1].1 is Serialization);
                            }
                        };
                    }
                },
            }
            i = i + 1;
        }
        let ghost n_decoded = transactions@.len();
        proof {
            assert(transaction_data@.take(transaction_data@.len() as int) =~= transaction_data@);
            assert(tx_views(transactions@) == decoded_txs(transaction_data@));
        }
        let (successful, mut tx_failed) = self.add_transactions_batch(transactions, state);
        let ghost tf0 = tx_failed@;
        let ghost border: Seq<int> = choose|o: Seq<int>|
            #[trigger] batch_outcome_matches(
                decoded_txs(transaction_data@),
                old(self).entries(),
                old(self).spec_config(),
                old(self).spec_memory_usage(),
                state_model(*state),
                o,
                crate::crypto::hash_views(successful@),
                fail_positions_of(tf0),
            );
        proof {
            assert(batch_outcome_matches(
                decoded_txs(transaction_data@),
                old(self).entries(),
                old(self).spec_config(),
                old(self).spec_memory_usage(),
                state_model(*state),
                border,
                crate::crypto::hash_views(successful@),
                fail_positions_of(tf0),
            ));
        }
        let mut all_failed = failed;
        while tx_failed.len() > 0
            invariant
                self.wf(),
                positions@.len() == n_decoded,
                forall|p: int|
                    0 <= p < positions@.len() ==> (#[trigger] positions@[p])
                        < transaction_data@.len(),
                forall|p: int| 0 <= p < tx_failed@.len() ==> (#[trigger] tx_failed@[p]).0
                    < n_decoded,
                successful@.len() + tx_failed@.len() + all_failed@.len()
                    == transaction_data@.len(),
                forall|p: int| 0 <= p < all_failed@.len() ==> (#[trigger] all_failed@[p]).0
                    < transaction_data@.len(),
                forall|j: int|
                    0 <= j < transaction_data@.len() && crate::codec::dec_tx(
                        (#[trigger] transaction_data@[j])@,
                    ) is None ==> exists|p: int|
                        0 <= p < all_failed@.len() && (#[trigger] all_failed@[p]).0 == j
                            && all_failed@[p].1 is Serialization,
            decreases tx_failed@.len(),
        {
            let ghost pre_all = all_failed@;
            let (k, e) = tx_failed.remove(0);
            let orig = positions[k];
            all_failed.push((orig, e));
            proof {
                assert(forall|p: int|
                    0 <= p < pre_all.len() ==> #[trigger] all_failed@[p] == pre_all[p]);
                assert forall|j: int|
                    0 <= j < transaction_data@.len() && crate::codec::dec_tx(
                        (#[trigger] transaction_data@[j])@,
                    ) is None implies exists|p: int|
                    0 <= p < all_failed@.len() && (#[trigger] all_failed@[p]).0 == j && all_failed@[
                        p].1 is Serialization by {
                    let p = choose|p: int|
                        0 <= p < pre_all.len() && (#[trigger] pre_all[p]).0 == j && pre_all[p].1
                            is Serialization;
                    assert(all_failed@[p] == pre_all[p]);
                    assert(all_failed@[p].0 == j && all_failed@[p].1 is Serialization);
                };
            }
        }
        proof {
            assert(forall|j: int|
                0 <= j < transaction_data@.len() && crate::codec::dec_tx(
                    (#[trigger] transaction_data@[j])@,
                ) is None ==> exists|p: int|
                    0 <= p < all_failed@.len() && (#[trigger] all_failed@[p]).0 == j
                        && all_failed@[p].1 is Serialization);
            assert(decode_failures_marked(transaction_data@, all_failed@));
            assert(batch_outcome_matches(
                decoded_txs(transaction_data@),
                old(self).entries(),
                old(self).spec_config(),
                old(self).spec_memory_usage(),
                state_model(*state),
                border,
                crate::crypto::hash_views(successful@),
                fail_positions_of(tf0),
            ));
        }
        let result = (successful, all_failed);
        proof {
            assert(result.0@ == successful@);
            assert(exists|order: Seq<int>, batch_fails: Seq<int>|
                #[trigger] batch_outcome_matches(
                    decoded_txs(transaction_data@),
                    old(self).entries(),
                    old(self).spec_config(),
                    old(self).spec_memory_usage(),
                    state_model(*state),
                    order,
                    crate::crypto::hash_views(result.0@),
                    batch_fails,
                ));
        }
        result
    }

    /// All pooled transactions ordered by descending fee per byte, earlier
    /// admissions first on ties, up to `max_count`: exactly `max_count` of
    /// them, or all of them when the pool holds fewer.
    pub fn select_transactions_for_test(&self, max_count: usize) -> (r: Vec<Transaction>)
        requires
            self.wf(),
        ensures
            r@.len() == if max_count < self.entries().len() {
                max_count as int
            } else {
                self.entries().len() as int
            },
            r@.len() <= max_count,
            r@.len() <= self.entries().len(),
            forall|p: int|
                0 <= p < r@.len() ==> exists|j: int|
                    0 <= j < self.entries().len() && (#[trigger] r@[p])@ == self.entries()[j].tx,
            forall|p: int, q: int|
                0 <= p < q < r@.len() ==> spec_fee_per_byte((#[trigger] r@[p])@)
                    >= spec_fee_per_byte((#[trigger] r@[q])@),
    {
        let mut taken: Vec<bool> = Vec::new();
        let mut w: usize = 0;
        while w < self.txs.len()
            invariant
                w <= self.txs@.len(),
                taken@.len() == w,
                forall|j: int| 0 <= j < w ==> !(#[trigger] taken@[j]),
            decreases self.txs@.len() - w,
        {
            taken.push(false);
            w = w + 1;
        }
        proof {
            lemma_count_true_all_false(taken@);
        }
        let mut result: Vec<Transaction> = Vec::new();
        let limit = if max_count < self.txs.len() {
            max_count
        } else {
            self.txs.len()
        };
        let mut round: usize = 0;
        while round < limit
            invariant
                round <= limit,
                limit <= max_count,
                limit <= self.entries().len(),
                self.wf(),
                taken@.len() == self.entries().len(),
                result@.len() == round,
                count_true(taken@) == round,
                forall|p: int, j: int|
                    0 <= p < result@.len() && 0 <= j < taken@.len() && !taken@[j]
                        ==> spec_fee_per_byte((#[trigger] result@[p])@) >= spec_fee_per_byte(
                        (#[trigger] self.entries()[j]).tx,
                    ),
                forall|p: int, q: int|
                    0 <= p < q < result@.len() ==> spec_fee_per_byte((#[trigger] result@[p])@)
                        >= spec_fee_per_byte((#[trigger] result@[q])@),
                forall|p: int|
                    0 <= p < result@.len() ==> exists|j: int|
                        0 <= j < self.entries().len() && (#[trigger] result@[p])@
                            == self.entries()[j].tx,
            decreases limit - round,
        {
            let mut best: usize = 0;
            let mut have_best = false;
            let mut best_fpb: u64 = 0;
            let mut best_time: u64 = 0;
            let mut idx: usize = 0;
            while idx < self.txs.len()
                invariant
                    idx <= self.txs@.len(),
                    self.wf(),
                    taken@.len() == self.entries().len(),
                    have_best ==> best < idx && !taken@[best as int] && best_fpb
                        == spec_fee_per_byte(self.entries()[best as int].tx),
                    forall|j: int|
                        0 <= j < idx && !taken@[j] ==> have_best && best_fpb >= spec_fee_per_byte(
                            (#[trigger] self.entries()[j]).tx,
                        ),
                    (exists|j: int| 0 <= j < idx && !(#[trigger] taken@[j])) ==> have_best,
                decreases self.txs@.len() - idx,
            {
                proof {
                    assert(entry_wf(self.entries()[idx as int], self.spec_config()));
                }
                if !taken[idx] {
                    let fpb = self.txs[idx].tx.fee_per_byte();
                    let t = self.txs[idx].added_time;
                    if !have_best || fpb > best_fpb || (fpb == best_fpb && t < best_time) {
                        best = idx;
                        have_best = true;
                        best_fpb = fpb;
                        best_time = t;
                    }
                }
                idx = idx + 1;
            }
            proof {
                if !have_best {
                    lemma_count_true_bound(taken@);
                    let j = choose|j: int| 0 <= j < taken@.len() && !(#[trigger] taken@[j]);
                    assert(!taken@[j]);
                    assert(false);
                }
            }
            let ghost pre_taken = taken@;
            taken.remove(best);
            taken.insert(best, true);
            let tx = self.txs[best].tx.clone();
            result.push(tx);
            proof {
                assert(result@[result@.len() - 1]@ == self.entries()[best as int].tx);
                assert(taken@ =~= pre_taken.update(best as int, true));
                lemma_count_true_update(pre_taken, best as int);
                assert(forall|j: int|
                    0 <= j < taken@.len() && !taken@[j] ==> !pre_taken[j]);
            }
            round = round + 1;
        }
        result
    }

    /// Periodic maintenance: expire old transactions, then reduce memory.
    pub fn perform_maintenance(&mut self) -> (removed: usize)
        requires
            old(self).wf(),
        ensures
            final(self).wf(),
            final(self).spec_config() == old(self).spec_config(),
            removed == old(self).entries().len() - final(self).entries().len(),
    {
        self.metrics.start_operation(OperationType::Maintenance);
        let n0 = self.txs.len();
        let expired = self.remove_expired();
        let optimized = self.optimize_memory();
        self.metrics.stop_operation(OperationType::Maintenance);
        proof {
            assert(expired + optimized <= n0);
        }
        expired + optimized
    }

    /// A reading of the wall clock, in nanoseconds since the Unix epoch.
    pub fn get_current_time(&self) -> u64 {
        crate::clock::now_nanos()
    }
}

/// With singleton groups the first `g` of them hold `g` indices.
/// How many positions of a boolean sequence are set.
pub open spec fn count_true(s: Seq<bool>) -> int
    decreases s.len(),
{
    if s.len() == 0 {
        0
    } else {
        (if s[0] {
            1int
        } else {
            0int
        }) + count_true(s.skip(1))
    }
}

/// A sequence with no set position counts zero.
proof fn lemma_count_true_all_false(s: Seq<bool>)
    requires
        forall|j: int| 0 <= j < s.len() ==> !(#[trigger] s[j]),
    ensures
        count_true(s) == 0,
    decreases s.len(),
{
    if s.len() > 0 {
        assert(forall|j: int| 0 <= j < s.skip(1).len() ==> !(#[trigger] s.skip(1)[j]));
        lemma_count_true_all_false(s.skip(1));
    }
}

/// Setting a clear position raises the count by one.
proof fn lemma_count_true_update(s: Seq<bool>, i: int)
    requires
        0 <= i < s.len(),
        !s[i],
    ensures
        count_true(s.update(i, true)) == count_true(s) + 1,
    decreases s.len(),
{
    if i == 0 {
        assert(s.update(0, true)[0]);
        assert(s.update(0, true).skip(1) =~= s.skip(1));
    } else {
        lemma_count_true_update(s.skip(1), i - 1);
        assert(s.update(i, true).skip(1) =~= s.skip(1).update(i - 1, true));
        assert(s.update(i, true)[0] == s[0]);
        assert(s.skip(1)[i - 1] == s[i]);
    }
}

/// The count never exceeds the length, and a short count leaves a clear
/// position.
proof fn lemma_count_true_bound(s: Seq<bool>)
    ensures
        0 <= count_true(s) <= s.len(),
        count_true(s) < s.len() ==> exists|j: int| 0 <= j < s.len() && !(#[trigger] s[j]),
    decreases s.len(),
{
    if s.len() > 0 {
        lemma_count_true_bound(s.skip(1));
        if !s[0] {
            assert(!s[0]);
        } else if count_true(s) < s.len() {
            let j = choose|j: int| 0 <= j < s.skip(1).len() && !(#[trigger] s.skip(1)[j]);
            assert(s.skip(1)[j] == s[j + 1]);
            assert(!s[j + 1]);
        }
    }
}

proof fn lemma_processed_sizes_singleton(groups: Seq<(PublicKeyBytes, Vec<usize>)>, g: int)
    requires
        0 <= g <= groups.len(),
        forall|k: int| 0 <= k < groups.len() ==> (#[trigger] groups[k]).1@.len() == 1,
    ensures
        processed_sizes(groups, g) == g,
    decreases g,
{
    if g > 0 {
        lemma_processed_sizes_singleton(groups, g - 1);
    }
}

/// In an independently admissible batch, the transaction at `g` passes the
/// projected admission checks against the pool grown by the first `g`
/// inputs and its sender's account read from the state.
proof fn lemma_batch_step_admissible(
    ts: Seq<TransactionV>,
    base: Seq<PoolEntryV>,
    cur: Seq<PoolEntryV>,
    cfg: TransactionPoolConfig,
    base_mem: int,
    m: Map<Seq<u8>, crate::state::AccountStateV>,
    g: int,
)
    requires
        batch_independently_admissible(ts, base, cfg, base_mem, m),
        0 <= g < ts.len(),
        cur.len() == base.len() + g,
        cur.take(base.len() as int) == base,
        forall|k: int| 0 <= k < g ==> (#[trigger] cur[base.len() + k]).tx == ts[k],
        forall|p: int| 0 <= p < cur.len() ==> entry_wf(#[trigger] cur[p], cfg),
    ensures
        !has_hash(cur, tx_hash_of(ts[g])),
        !has_sender_nonce(cur, ts[g].sender, ts[g].nonce),
{
    let h = tx_hash_of(ts[g]);
    assert(admission_ok(base, cfg, ts[g], m));
    assert forall|p: int| 0 <= p < cur.len() implies (#[trigger] cur[p]).tx_hash != h && !(
    cur[p].tx.sender == ts[g].sender && cur[p].tx.nonce == ts[g].nonce) by {
        if p < base.len() {
            assert(cur.take(base.len() as int)[p] == cur[p]);
            assert(base[p] == cur[p]);
            assert(!has_hash(base, h) ==> base[p].tx_hash != h);
            assert(!(base[p].tx.sender == ts[g].sender && base[p].tx.nonce == ts[g].nonce));
        } else {
            let k = p - base.len();
            assert(cur[base.len() + k] == cur[p]);
            assert(cur[p].tx == ts[k]);
            assert(entry_wf(cur[p], cfg));
            assert(cur[p].tx_hash == tx_hash_of(ts[k]));
            assert(tx_hash_of(ts[k]) != h);
            assert(ts[k].sender != ts[g].sender);
        }
    }
}

/// The total number of indices across the groups.
pub open spec fn group_sizes(groups: Seq<(PublicKeyBytes, Vec<usize>)>) -> int
    decreases groups.len(),
{
    if groups.len() == 0 {
        0
    } else {
        groups[0].1@.len() + group_sizes(groups.skip(1))
    }
}

/// The total number of indices across the first `g` groups.
pub open spec fn processed_sizes(groups: Seq<(PublicKeyBytes, Vec<usize>)>, g: int) -> int
    decreases g,
{
    if g <= 0 {
        0
    } else {
        processed_sizes(groups, g - 1) + if g - 1 < groups.len() {
            groups[g - 1].1@.len() as int
        } else {
            0
        }
    }
}

proof fn lemma_processed_sizes_step(groups: Seq<(PublicKeyBytes, Vec<usize>)>, g: int)
    requires
        0 <= g < groups.len(),
    ensures
        processed_sizes(groups, g + 1) == processed_sizes(groups, g) + groups[g].1@.len(),
{
}

proof fn lemma_processed_sizes_all(groups: Seq<(PublicKeyBytes, Vec<usize>)>)
    ensures
        processed_sizes(groups, groups.len() as int) == group_sizes(groups),
    decreases groups.len(),
{
    if groups.len() > 0 {
        lemma_processed_sizes_all(groups.skip(1));
        lemma_processed_sizes_shift(groups, groups.len() as int);
    }
}

proof fn lemma_processed_sizes_shift(groups: Seq<(PublicKeyBytes, Vec<usize>)>, g: int)
    requires
        1 <= g <= groups.len(),
    ensures
        processed_sizes(groups, g) == groups[0].1@.len() + processed_sizes(groups.skip(1), g - 1),
    decreases g,
{
    if g > 1 {
        lemma_processed_sizes_shift(groups, g - 1);
        assert(groups.skip(1)[g - 2] == groups[g - 1]);
        assert(processed_sizes(groups, g) == processed_sizes(groups, g - 1)
            + groups[g - 1].1@.len());
        assert(processed_sizes(groups.skip(1), g - 1) == processed_sizes(groups.skip(1), g - 2)
            + groups.skip(1)[g - 2].1@.len());
    } else {
        assert(processed_sizes(groups, 1) == processed_sizes(groups, 0) + groups[0].1@.len());
        assert(processed_sizes(groups.skip(1), 0) == 0);
    }
}

proof fn lemma_group_sizes_update(
    pre: Seq<(PublicKeyBytes, Vec<usize>)>,
    g: int,
    post: Seq<(PublicKeyBytes, Vec<usize>)>,
)
    requires
        0 <= g < pre.len(),
        post.len() == pre.len(),
        forall|h: int| 0 <= h < pre.len() && h != g ==> #[trigger] post[h] == pre[h],
        post[g].1@.len() == pre[g].1@.len() + 1,
    ensures
        group_sizes(post) == group_sizes(pre) + 1,
    decreases g,
{
    if g == 0 {
        assert(post.skip(1) =~= pre.skip(1));
    } else {
        assert(forall|h: int|
            0 <= h < pre.skip(1).len() && h != g - 1 ==> #[trigger] post.skip(1)[h] == pre.skip(
                1,
            )[h]);
        assert(post.skip(1)[g - 1].1@.len() == pre.skip(1)[g - 1].1@.len() + 1);
        lemma_group_sizes_update(pre.skip(1), g - 1, post.skip(1));
        assert(post[0] == pre[0]);
    }
}

proof fn lemma_group_sizes_push(
    pre: Seq<(PublicKeyBytes, Vec<usize>)>,
    e: (PublicKeyBytes, Vec<usize>),
)
    ensures
        group_sizes(pre.push(e)) == group_sizes(pre) + e.1@.len(),
    decreases pre.len(),
{
    if pre.len() == 0 {
        assert(pre.push(e).skip(1) =~= Seq::<(PublicKeyBytes, Vec<usize>)>::empty());
        assert(pre.push(e)[0] == e);
        assert(group_sizes(pre.push(e)) == e.1@.len() + group_sizes(
            Seq::<(PublicKeyBytes, Vec<usize>)>::empty(),
        ));
    } else {
        lemma_group_sizes_push(pre.skip(1), e);
        assert(pre.push(e).skip(1) =~= pre.skip(1).push(e));
        assert(pre.push(e)[0] == pre[0]);
        assert(group_sizes(pre.push(e)) == pre[0].1@.len() + group_sizes(pre.skip(1).push(e)));
    }
}

} // verus!
// laws

verus! {

/// Counting selected spending splits over concatenation.
proof fn lemma_count_concat(s: Seq<PoolEntryV>, c1: Seq<int>, c2: Seq<int>, a: Seq<u8>)
    ensures
        count_of(s, c1 + c2, a) == count_of(s, c1, a) + count_of(s, c2, a),
    decreases c1.len(),
{
    if c1.len() == 0 {
        assert(c1 + c2 =~= c2);
    } else {
        lemma_count_concat(s, c1.skip(1), c2, a);
        assert((c1 + c2).skip(1) =~= c1.skip(1) + c2);
        assert((c1 + c2)[0] == c1[0]);
    }
}

/// Every selected index was the best pick at its own step.
proof fn lemma_select_sound(
    s: Seq<PoolEntryV>,
    m: Map<Seq<u8>, crate::state::AccountStateV>,
    chosen: Seq<int>,
    k: nat,
)
    ensures
        forall|r: int|
            0 <= r < spec_select_from(s, m, chosen, k).len() ==> is_best_at(
                s,
                m,
                chosen + spec_select_from(s, m, chosen, k).take(r),
                #[trigger] spec_select_from(s, m, chosen, k)[r],
            ),
    decreases k,
{
    let picks = spec_select_from(s, m, chosen, k);
    if k > 0 && exists|i: int| is_best_at(s, m, chosen, i) {
        let b = choose|i: int| is_best_at(s, m, chosen, i);
        let rest = spec_select_from(s, m, chosen.push(b), (k - 1) as nat);
        lemma_select_sound(s, m, chosen.push(b), (k - 1) as nat);
        assert forall|r: int| 0 <= r < picks.len() implies is_best_at(
            s,
            m,
            chosen + picks.take(r),
            #[trigger] picks[r],
        ) by {
            if r == 0 {
                assert(picks[0] == b);
                assert(chosen + picks.take(0) =~= chosen);
            } else {
                assert(picks[r] == rest[r - 1]);
                assert(is_best_at(s, m, chosen.push(b) + rest.take(r - 1), rest[r - 1]));
                assert(chosen + picks.take(r) =~= chosen.push(b) + rest.take(r - 1));
            }
        }
    }
}

/// Selection respects per-sender nonce order: of two selected transactions
/// from the same sender, the one selected earlier carries the strictly
/// smaller nonce; nonces of one sender leave the pool in ascending order.
pub proof fn lemma_select_nonce_order(
    s: Seq<PoolEntryV>,
    m: Map<Seq<u8>, crate::state::AccountStateV>,
    k: nat,
    p: int,
    q: int,
)
    requires
        0 <= p < q < spec_select(s, m, k).len(),
        0 <= spec_select(s, m, k)[p] < s.len(),
        0 <= spec_select(s, m, k)[q] < s.len(),
        s[spec_select(s, m, k)[p]].tx.sender == s[spec_select(s, m, k)[q]].tx.sender,
    ensures
        s[spec_select(s, m, k)[p]].tx.nonce < s[spec_select(s, m, k)[q]].tx.nonce,
{
    let picks = spec_select(s, m, k);
    let a = s[picks[p]].tx.sender;
    lemma_select_sound(s, m, Seq::empty(), k);
    assert(is_best_at(s, m, Seq::empty() + picks.take(p), picks[p]));
    assert(is_best_at(s, m, Seq::empty() + picks.take(q), picks[q]));
    assert(Seq::empty() + picks.take(p) =~= picks.take(p));
    assert(Seq::empty() + picks.take(q) =~= picks.take(q));
    let base = model_acct(m, a).nonce as int;
    assert(s[picks[p]].tx.nonce as int == base + count_of(s, picks.take(p), a));
    assert(s[picks[q]].tx.nonce as int == base + count_of(s, picks.take(q), a));
    assert(picks.take(q) =~= picks.take(p + 1) + picks.subrange(p + 1, q));
    lemma_count_concat(s, picks.take(p + 1), picks.subrange(p + 1, q), a);
    lemma_spent_snoc(s, picks, a, p);
    lemma_spent_prefix(s, picks.subrange(p + 1, q), a, 0);
    assert(count_of(s, picks.take(p + 1), a) == count_of(s, picks.take(p), a) + 1);
    assert(count_of(s, picks.take(q), a) >= count_of(s, picks.take(p), a) + 1);
}

/// On equal fee rates the earlier admission wins: of two transactions that
/// are both eligible at the start, with equal fee per byte and distinct
/// admission times, the later-admitted one is not selected first.
pub proof fn lemma_select_tie_break(
    s: Seq<PoolEntryV>,
    m: Map<Seq<u8>, crate::state::AccountStateV>,
    k: nat,
    chosen: Seq<int>,
    i: int,
    j: int,
)
    requires
        eligible_at(s, m, chosen, i),
        eligible_at(s, m, chosen, j),
        i != j,
        spec_fee_per_byte(s[i].tx) == spec_fee_per_byte(s[j].tx),
        s[i].added_time < s[j].added_time,
    ensures
        !is_best_at(s, m, chosen, j),
        spec_select_from(s, m, chosen, k).len() > 0 ==> spec_select_from(s, m, chosen, k)[0] != j,
{
    assert(!sel_prefer(s, j, i));
    if spec_select_from(s, m, chosen, k).len() > 0 {
        lemma_select_sound(s, m, chosen, k);
        let picks = spec_select_from(s, m, chosen, k);
        assert(is_best_at(s, m, chosen + picks.take(0), picks[0]));
        assert(chosen + picks.take(0) =~= chosen);
    }
}

/// Precedence on fee-rate ties across the whole selection: at any step at
/// which both entries of a tie are still selectable, the step never picks
/// the later-admitted one, so the earlier admission goes first wherever
/// both could go.
pub proof fn lemma_select_precedence(
    s: Seq<PoolEntryV>,
    m: Map<Seq<u8>, crate::state::AccountStateV>,
    k: nat,
    r: int,
    i: int,
    j: int,
)
    requires
        0 <= r < spec_select(s, m, k).len(),
        eligible_at(s, m, spec_select(s, m, k).take(r), i),
        eligible_at(s, m, spec_select(s, m, k).take(r), j),
        i != j,
        spec_fee_per_byte(s[i].tx) == spec_fee_per_byte(s[j].tx),
        s[i].added_time < s[j].added_time,
    ensures
        spec_select(s, m, k)[r] != j,
{
    let picks = spec_select(s, m, k);
    lemma_select_sound(s, m, Seq::empty(), k);
    assert(is_best_at(s, m, Seq::empty() + picks.take(r), picks[r]));
    assert(Seq::empty() + picks.take(r) =~= picks.take(r));
    assert(!sel_prefer(s, j, i));
    assert(!is_best_at(s, m, picks.take(r), j));
}

/// Admitting a fresh entry and then removing it by its hash restores the
/// pool's entries exactly: the appended entry is the one removed.
pub proof fn lemma_admit_remove_restores(s: Seq<PoolEntryV>, e: PoolEntryV)
    requires
        !has_hash(s, e.tx_hash),
    ensures
        has_hash(s.push(e), e.tx_hash),
        idx_of_hash(s.push(e), e.tx_hash) == s.len(),
        s.push(e).remove(s.len() as int) == s,
        mem_sum(s.push(e)) == mem_sum(s) + e.memory_size,
{
    assert(s.push(e)[s.len() as int] == e);
    assert(has_hash(s.push(e), e.tx_hash));
    let k = idx_of_hash(s.push(e), e.tx_hash);
    assert(0 <= k < s.push(e).len() && s.push(e)[k].tx_hash == e.tx_hash);
    if k < s.len() {
        assert(s.push(e)[k] == s[k]);
        assert(s[k].tx_hash != e.tx_hash);
    }
    assert(s.push(e).remove(s.len() as int) =~= s);
    lemma_mem_sum_push(s, e);
}

/// The replacement fee floor: a replacement is admitted exactly when the
/// new fee reaches the old fee raised by the bump percentage; when the
/// bump product has no rounding remainder this floor is the ceiling of
/// existing_fee * (100 + bump) / 100.
pub proof fn lemma_replacement_fee_threshold(existing_fee: u64, bump: u64, new_fee: u64)
    requires
        (existing_fee * bump) % 100 == 0,
        existing_fee * (100 + bump) <= u64::MAX,
    ensures
        (new_fee >= spec_min_replacement_fee(existing_fee, bump)) <==> (new_fee as int >= (
        existing_fee * (100 + bump) + 99) / 100),
{
    let f = existing_fee as int;
    let b = bump as int;
    assert(f * (100 + b) == f * 100 + f * b) by (nonlinear_arith);
    assert(f * b >= 0) by (nonlinear_arith)
        requires
            f >= 0,
            b >= 0,
    ;
    assert(f * 100 >= 0) by (nonlinear_arith)
        requires
            f >= 0,
    ;
    assert(f * b <= f * 100 + f * b);
    assert(existing_fee * bump <= u64::MAX);
    assert(sat_mul_u64(existing_fee, bump) == existing_fee * bump);
    let d = (existing_fee * bump) as int / 100;
    assert((f * b) == 100 * d) by {
        assert(f * b % 100 == 0);
        vstd::arithmetic::div_mod::lemma_fundamental_div_mod(f * b, 100);
    }
    assert(f + d <= u64::MAX) by {
        assert(100 * (f + d) == f * 100 + f * b) by (nonlinear_arith)
            requires
                100 * d == f * b,
        ;
        assert(100 * (f + d) <= 100 * u64::MAX);
    }
    assert(sat_add_u64(existing_fee, ((existing_fee * bump) / 100) as u64) == f + d);
    assert((f * 100 + f * b + 99) / 100 == f + d) by {
        assert(f * 100 + f * b == 100 * (f + d));
        assert((100 * (f + d) + 99) / 100 == f + d) by (nonlinear_arith)
            requires
                f + d >= 0,
        ;
    }
}

} // verus!
