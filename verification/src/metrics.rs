//! Performance counters for the transaction pool: totals, peaks, bounded
//! histories, fee and size distributions, and per-operation timings.

use vstd::prelude::*;

verus! {

/// Pool operation kinds that are timed.
#[derive(Clone, Copy, PartialEq, Eq, Structural)]
pub enum OperationType {
    /// Adding a transaction.
    Add,
    /// Validating a transaction.
    Validate,
    /// Selecting transactions.
    Select,
    /// Removing a transaction.
    Remove,
    /// Revalidating transactions.
    Revalidate,
    /// Memory optimization.
    Optimize,
    /// Maintenance work.
    Maintenance,
}

/// Fee-per-byte buckets.
#[derive(Clone, Copy, PartialEq, Eq, Structural)]
pub enum FeeRange {
    /// Below 1 unit per byte.
    VeryLow,
    /// 1 to 4 units per byte.
    Low,
    /// 5 to 9 units per byte.
    Medium,
    /// 10 to 49 units per byte.
    High,
    /// 50 or more units per byte.
    VeryHigh,
}

/// Transaction size buckets.
#[derive(Clone, Copy, PartialEq, Eq, Structural)]
pub enum SizeRange {
    /// Below 100 bytes.
    Tiny,
    /// 100 to 499 bytes.
    Small,
    /// 500 to 999 bytes.
    Medium,
    /// 1000 to 4999 bytes.
    Large,
    /// 5000 bytes or more.
    VeryLarge,
}

/// The bucket a fee-per-byte value falls in.
pub open spec fn spec_fee_bucket(fee_per_byte: u64) -> FeeRange {
    if fee_per_byte < 1 {
        FeeRange::VeryLow
    } else if fee_per_byte < 5 {
        FeeRange::Low
    } else if fee_per_byte < 10 {
        FeeRange::Medium
    } else if fee_per_byte < 50 {
        FeeRange::High
    } else {
        FeeRange::VeryHigh
    }
}

/// The bucket a transaction size falls in.
pub open spec fn spec_size_bucket(size: usize) -> SizeRange {
    if size < 100 {
        SizeRange::Tiny
    } else if size < 500 {
        SizeRange::Small
    } else if size < 1000 {
        SizeRange::Medium
    } else if size < 5000 {
        SizeRange::Large
    } else {
        SizeRange::VeryLarge
    }
}

/// Timing figures for one operation kind.
#[derive(Clone, Copy, PartialEq, Eq, Structural)]
pub struct OperationStat {
    /// How many times the operation ran.
    pub count: u64,
    /// Total time spent, in microseconds.
    pub total_us: u64,
    /// Longest single run, in microseconds.
    pub max_us: u64,
}

/// Timing figures for every operation kind.
#[derive(Clone, Copy, PartialEq, Eq, Structural)]
pub struct OperationTimings {
    pub add: OperationStat,
    pub validate: OperationStat,
    pub select: OperationStat,
    pub remove: OperationStat,
    pub revalidate: OperationStat,
    pub optimize: OperationStat,
    pub maintenance: OperationStat,
}

/// An all-zero timing figure.
pub open spec fn zero_stat() -> OperationStat {
    OperationStat { count: 0, total_us: 0, max_us: 0 }
}

impl Default for OperationTimings {
    /// All figures start at zero.
    fn default() -> (r: Self)
        ensures
            r.add == zero_stat(),
            r.validate == zero_stat(),
            r.select == zero_stat(),
            r.remove == zero_stat(),
            r.revalidate == zero_stat(),
            r.optimize == zero_stat(),
            r.maintenance == zero_stat(),
    {
        let z = OperationStat { count: 0, total_us: 0, max_us: 0 };
        OperationTimings {
            add: z,
            validate: z,
            select: z,
            remove: z,
            revalidate: z,
            optimize: z,
            maintenance: z,
        }
    }
}

/// The figures of one operation kind.
pub open spec fn spec_stat(t: OperationTimings, op: OperationType) -> OperationStat {
    match op {
        OperationType::Add => t.add,
        OperationType::Validate => t.validate,
        OperationType::Select => t.select,
        OperationType::Remove => t.remove,
        OperationType::Revalidate => t.revalidate,
        OperationType::Optimize => t.optimize,
        OperationType::Maintenance => t.maintenance,
    }
}

impl OperationTimings {
    /// Read the figures of one operation kind.
    pub fn stat(&self, op: OperationType) -> (r: OperationStat)
        ensures
            r == spec_stat(*self, op),
    {
        match op {
            OperationType::Add => self.add,
            OperationType::Validate => self.validate,
            OperationType::Select => self.select,
            OperationType::Remove => self.remove,
            OperationType::Revalidate => self.revalidate,
            OperationType::Optimize => self.optimize,
            OperationType::Maintenance => self.maintenance,
        }
    }
}

/// Counts per fee bucket.
#[derive(Clone, Copy, PartialEq, Eq, Structural)]
pub struct FeeDistribution {
    pub very_low: u64,
    pub low: u64,
    pub medium: u64,
    pub high: u64,
    pub very_high: u64,
}

impl FeeDistribution {
    /// Read the count of one bucket.
    pub fn get(&self, range: FeeRange) -> (r: u64)
        ensures
            r == spec_fee_count(*self, range),
    {
        match range {
            FeeRange::VeryLow => self.very_low,
            FeeRange::Low => self.low,
            FeeRange::Medium => self.medium,
            FeeRange::High => self.high,
            FeeRange::VeryHigh => self.very_high,
        }
    }
}

/// The count of one fee bucket.
pub open spec fn spec_fee_count(d: FeeDistribution, range: FeeRange) -> u64 {
    match range {
        FeeRange::VeryLow => d.very_low,
        FeeRange::Low => d.low,
        FeeRange::Medium => d.medium,
        FeeRange::High => d.high,
        FeeRange::VeryHigh => d.very_high,
    }
}

/// Counts per size bucket.
#[derive(Clone, Copy, PartialEq, Eq, Structural)]
pub struct SizeDistribution {
    pub tiny: u64,
    pub small: u64,
    pub medium: u64,
    pub large: u64,
    pub very_large: u64,
}

impl SizeDistribution {
    /// Read the count of one bucket.
    pub fn get(&self, range: SizeRange) -> (r: u64)
        ensures
            r == spec_size_count(*self, range),
    {
        match range {
            SizeRange::Tiny => self.tiny,
            SizeRange::Small => self.small,
            SizeRange::Medium => self.medium,
            SizeRange::Large => self.large,
            SizeRange::VeryLarge => self.very_large,
        }
    }
}

/// The count of one size bucket.
pub open spec fn spec_size_count(d: SizeDistribution, range: SizeRange) -> u64 {
    match range {
        SizeRange::Tiny => d.tiny,
        SizeRange::Small => d.small,
        SizeRange::Medium => d.medium,
        SizeRange::Large => d.large,
        SizeRange::VeryLarge => d.very_large,
    }
}

/// Collected pool metrics.
pub struct PoolMetrics {
    /// Total number of transactions added.
    pub transactions_added: u64,
    /// Total number of transactions rejected.
    pub transactions_rejected: u64,
    /// Total number of transactions removed.
    pub transactions_removed: u64,
    /// Total number of transactions expired.
    pub transactions_expired: u64,
    /// Average processing time per added transaction, in microseconds.
    pub avg_processing_time_us: u64,
    /// Average validation time per added transaction, in microseconds.
    pub avg_validation_time_us: u64,
    /// Highest memory usage observed, in bytes.
    pub peak_memory_usage: usize,
    /// Highest transaction count observed.
    pub peak_transaction_count: usize,
    /// Memory usage over time: (seconds since start, bytes).
    pub memory_history: Vec<(u64, usize)>,
    /// Transaction count over time: (seconds since start, count).
    pub count_history: Vec<(u64, usize)>,
    /// Counts per fee bucket.
    pub fee_distribution: FeeDistribution,
    /// Counts per size bucket.
    pub size_distribution: SizeDistribution,
    /// Timing figures per operation kind.
    pub operation_timings: OperationTimings,
}

impl Default for PoolMetrics {
    /// Everything starts at zero, with empty histories.
    fn default() -> (r: Self)
        ensures
            r.transactions_added == 0,
            r.transactions_rejected == 0,
            r.transactions_removed == 0,
            r.transactions_expired == 0,
            r.avg_processing_time_us == 0,
            r.avg_validation_time_us == 0,
            r.peak_memory_usage == 0,
            r.peak_transaction_count == 0,
            r.memory_history@.len() == 0,
            r.count_history@.len() == 0,
            r.fee_distribution == (FeeDistribution {
                very_low: 0,
                low: 0,
                medium: 0,
                high: 0,
                very_high: 0,
            }),
            r.size_distribution == (SizeDistribution {
                tiny: 0,
                small: 0,
                medium: 0,
                large: 0,
                very_large: 0,
            }),
            r.operation_timings.add == zero_stat(),
            r.operation_timings.select == zero_stat(),
    {
        PoolMetrics {
            transactions_added: 0,
            transactions_rejected: 0,
            transactions_removed: 0,
            transactions_expired: 0,
            avg_processing_time_us: 0,
            avg_validation_time_us: 0,
            peak_memory_usage: 0,
            peak_transaction_count: 0,
            memory_history: Vec::new(),
            count_history: Vec::new(),
            fee_distribution: FeeDistribution {
                very_low: 0,
                low: 0,
                medium: 0,
                high: 0,
                very_high: 0,
            },
            size_distribution: SizeDistribution {
                tiny: 0,
                small: 0,
                medium: 0,
                large: 0,
                very_large: 0,
            },
            operation_timings: OperationTimings::default(),
        }
    }
}

/// Copies a history vector.
fn clone_history(v: &Vec<(u64, usize)>) -> (r: Vec<(u64, usize)>)
    ensures
        r@ == v@,
{
    let mut out: Vec<(u64, usize)> = Vec::new();
    let mut i: usize = 0;
    while i < v.len()
        invariant
            i <= v@.len(),
            out@ == v@.take(i as int),
        decreases v@.len() - i,
    {
        out.push(v[i]);
        proof {
            assert(out@ =~= v@.take(i + 1));
        }
        i = i + 1;
    }
    proof {
        assert(v@.take(v@.len() as int) =~= v@);
    }
    out
}

impl Clone for PoolMetrics {
    /// Copies every figure.
    fn clone(&self) -> (r: Self)
        ensures
            r.transactions_added == self.transactions_added,
            r.transactions_rejected == self.transactions_rejected,
            r.transactions_removed == self.transactions_removed,
            r.transactions_expired == self.transactions_expired,
            r.avg_processing_time_us == self.avg_processing_time_us,
            r.avg_validation_time_us == self.avg_validation_time_us,
            r.peak_memory_usage == self.peak_memory_usage,
            r.peak_transaction_count == self.peak_transaction_count,
            r.memory_history@ == self.memory_history@,
            r.count_history@ == self.count_history@,
            r.fee_distribution == self.fee_distribution,
            r.size_distribution == self.size_distribution,
            r.operation_timings == self.operation_timings,
    {
        PoolMetrics {
            transactions_added: self.transactions_added,
            transactions_rejected: self.transactions_rejected,
            transactions_removed: self.transactions_removed,
            transactions_expired: self.transactions_expired,
            avg_processing_time_us: self.avg_processing_time_us,
            avg_validation_time_us: self.avg_validation_time_us,
            peak_memory_usage: self.peak_memory_usage,
            peak_transaction_count: self.peak_transaction_count,
            memory_history: clone_history(&self.memory_history),
            count_history: clone_history(&self.count_history),
            fee_distribution: self.fee_distribution,
            size_distribution: self.size_distribution,
            operation_timings: self.operation_timings,
        }
    }
}

/// Pending start times for the timed operations, in nanoseconds.
struct OperationTimers {
    add: Option<u64>,
    validate: Option<u64>,
    select: Option<u64>,
    remove: Option<u64>,
    revalidate: Option<u64>,
    optimize: Option<u64>,
    maintenance: Option<u64>,
}

/// Metrics collector for the transaction pool.
pub struct MetricsCollector {
    metrics: PoolMetrics,
    start_nanos: u64,
    timers: OperationTimers,
    max_history_points: usize,
    enabled: bool,
}

impl MetricsCollector {
    /// Create a new collector keeping at most the given number of history
    /// points, with collection enabled and every figure at zero.
    pub fn new(max_history_points: usize) -> (r: MetricsCollector)
        ensures
            r.snapshot().transactions_added == 0,
            r.snapshot().transactions_rejected == 0,
            r.snapshot().transactions_removed == 0,
            r.snapshot().transactions_expired == 0,
            r.snapshot().memory_history@.len() == 0,
            r.snapshot().count_history@.len() == 0,
            r.is_enabled(),
    {
        MetricsCollector {
            metrics: PoolMetrics::default(),
            start_nanos: crate::clock::now_nanos(),
            timers: OperationTimers {
                add: None,
                validate: None,
                select: None,
                remove: None,
                revalidate: None,
                optimize: None,
                maintenance: None,
            },
            max_history_points,
            enabled: true,
        }
    }

    /// The collected figures.
    pub closed spec fn snapshot(&self) -> PoolMetrics {
        self.metrics
    }

    /// Whether collection is on.
    pub closed spec fn is_enabled(&self) -> bool {
        self.enabled
    }

    /// Turn collection on or off.
    pub fn set_enabled(&mut self, enabled: bool)
        ensures
            final(self).is_enabled() == enabled,
            final(self).snapshot() == old(self).snapshot(),
    {
        self.enabled = enabled;
    }

    /// Start timing an operation.
    pub fn start_operation(&mut self, op_type: OperationType)
        ensures
            final(self).snapshot() == old(self).snapshot(),
            final(self).is_enabled() == old(self).is_enabled(),
    {
        if !self.enabled {
            return ;
        }
        let now = crate::clock::now_nanos();
        match op_type {
            OperationType::Add => {
                self.timers.add = Some(now);
            },
            OperationType::Validate => {
                self.timers.validate = Some(now);
            },
            OperationType::Select => {
                self.timers.select = Some(now);
            },
            OperationType::Remove => {
                self.timers.remove = Some(now);
            },
            OperationType::Revalidate => {
                self.timers.revalidate = Some(now);
            },
            OperationType::Optimize => {
                self.timers.optimize = Some(now);
            },
            OperationType::Maintenance => {
                self.timers.maintenance = Some(now);
            },
        }
    }

    /// Stop timing an operation and record its duration: the count rises
    /// by one, the duration is added to the total, and the maximum is
    /// updated, all saturating. Without a matching start, or when
    /// collection is off, nothing changes.
    pub fn stop_operation(&mut self, op_type: OperationType)
        ensures
            final(self).is_enabled() == old(self).is_enabled(),
            spec_stat(final(self).snapshot().operation_timings, op_type).count >= spec_stat(
                old(self).snapshot().operation_timings,
                op_type,
            ).count,
            final(self).snapshot().transactions_added == old(self).snapshot().transactions_added,
            final(self).snapshot().transactions_rejected == old(
                self,
            ).snapshot().transactions_rejected,
            final(self).snapshot().transactions_removed == old(
                self,
            ).snapshot().transactions_removed,
            final(self).snapshot().transactions_expired == old(
                self,
            ).snapshot().transactions_expired,
            final(self).snapshot().memory_history@ == old(self).snapshot().memory_history@,
            final(self).snapshot().count_history@ == old(self).snapshot().count_history@,
            final(self).snapshot().fee_distribution == old(self).snapshot().fee_distribution,
            final(self).snapshot().size_distribution == old(self).snapshot().size_distribution,
    {
        if !self.enabled {
            return ;
        }
        let started: Option<u64> = match op_type {
            OperationType::Add => self.timers.add,
            OperationType::Validate => self.timers.validate,
            OperationType::Select => self.timers.select,
            OperationType::Remove => self.timers.remove,
            OperationType::Revalidate => self.timers.revalidate,
            OperationType::Optimize => self.timers.optimize,
            OperationType::Maintenance => self.timers.maintenance,
        };
        let start = match started {
            Some(s) => s,
            None => {
                return ;
            },
        };
        match op_type {
            OperationType::Add => {
                self.timers.add = None;
            },
            OperationType::Validate => {
                self.timers.validate = None;
            },
            OperationType::Select => {
                self.timers.select = None;
            },
            OperationType::Remove => {
                self.timers.remove = None;
            },
            OperationType::Revalidate => {
                self.timers.revalidate = None;
            },
            OperationType::Optimize => {
                self.timers.optimize = None;
            },
            OperationType::Maintenance => {
                self.timers.maintenance = None;
            },
        }
        let now = crate::clock::now_nanos();
        let duration_us = now.saturating_sub(start) / 1000;
        let stat = self.metrics.operation_timings.stat(op_type);
        let updated = OperationStat {
            count: stat.count.saturating_add(1),
            total_us: stat.total_us.saturating_add(duration_us),
            max_us: if duration_us > stat.max_us {
                duration_us
            } else {
                stat.max_us
            },
        };
        match op_type {
            OperationType::Add => {
                self.metrics.operation_timings.add = updated;
            },
            OperationType::Validate => {
                self.metrics.operation_timings.validate = updated;
            },
            OperationType::Select => {
                self.metrics.operation_timings.select = updated;
            },
            OperationType::Remove => {
                self.metrics.operation_timings.remove = updated;
            },
            OperationType::Revalidate => {
                self.metrics.operation_timings.revalidate = updated;
            },
            OperationType::Optimize => {
                self.metrics.operation_timings.optimize = updated;
            },
            OperationType::Maintenance => {
                self.metrics.operation_timings.maintenance = updated;
            },
        }
    }

    /// Record a successful addition with its processing and validation
    /// times; the running averages are recomputed over the new count.
    pub fn record_transaction_added(&mut self, processing_time_us: u64, validation_time_us: u64)
        ensures
            final(self).is_enabled() == old(self).is_enabled(),
            old(self).is_enabled() ==> final(self).snapshot().transactions_added == old(
                self,
            ).snapshot().transactions_added.saturating_add(1),
            !old(self).is_enabled() ==> final(self).snapshot() == old(self).snapshot(),
    {
        if !self.enabled {
            return ;
        }
        let added = self.metrics.transactions_added.saturating_add(1);
        let total_processing = crate::state::sat_mul(self.metrics.avg_processing_time_us, added - 1);
        self.metrics.avg_processing_time_us = total_processing.saturating_add(processing_time_us)
            / added;
        let total_validation = crate::state::sat_mul(self.metrics.avg_validation_time_us, added - 1);
        self.metrics.avg_validation_time_us = total_validation.saturating_add(validation_time_us)
            / added;
        self.metrics.transactions_added = added;
    }

    /// Record a rejected transaction.
    pub fn record_transaction_rejected(&mut self)
        ensures
            final(self).is_enabled() == old(self).is_enabled(),
            old(self).is_enabled() ==> final(self).snapshot().transactions_rejected == old(
                self,
            ).snapshot().transactions_rejected.saturating_add(1),
            !old(self).is_enabled() ==> final(self).snapshot() == old(self).snapshot(),
    {
        if !self.enabled {
            return ;
        }
        self.metrics.transactions_rejected = self.metrics.transactions_rejected.saturating_add(1);
    }

    /// Record a removed transaction.
    pub fn record_transaction_removed(&mut self)
        ensures
            final(self).is_enabled() == old(self).is_enabled(),
            old(self).is_enabled() ==> final(self).snapshot().transactions_removed == old(
                self,
            ).snapshot().transactions_removed.saturating_add(1),
            !old(self).is_enabled() ==> final(self).snapshot() == old(self).snapshot(),
    {
        if !self.enabled {
            return ;
        }
        self.metrics.transactions_removed = self.metrics.transactions_removed.saturating_add(1);
    }

    /// Record expired transactions.
    pub fn record_transactions_expired(&mut self, count: u64)
        ensures
            final(self).is_enabled() == old(self).is_enabled(),
            old(self).is_enabled() ==> final(self).snapshot().transactions_expired == old(
                self,
            ).snapshot().transactions_expired.saturating_add(count),
            !old(self).is_enabled() ==> final(self).snapshot() == old(self).snapshot(),
    {
        if !self.enabled {
            return ;
        }
        self.metrics.transactions_expired = self.metrics.transactions_expired.saturating_add(
            count,
        );
    }

    /// Record the current memory usage: the peak is updated and a history
    /// point appended, discarding the oldest past the bound.
    pub fn update_memory_usage(&mut self, current_bytes: usize)
        ensures
            final(self).is_enabled() == old(self).is_enabled(),
            old(self).is_enabled() ==> final(self).snapshot().peak_memory_usage == (if current_bytes
                > old(self).snapshot().peak_memory_usage {
                current_bytes
            } else {
                old(self).snapshot().peak_memory_usage
            }),
            !old(self).is_enabled() ==> final(self).snapshot() == old(self).snapshot(),
    {
        if !self.enabled {
            return ;
        }
        if current_bytes > self.metrics.peak_memory_usage {
            self.metrics.peak_memory_usage = current_bytes;
        }
        let now = crate::clock::now_nanos();
        let timestamp = now.saturating_sub(self.start_nanos) / 1000000000;
        self.metrics.memory_history.push((timestamp, current_bytes));
        if self.metrics.memory_history.len() > self.max_history_points {
            self.metrics.memory_history.remove(0);
        }
    }

    /// Record the current transaction count: the peak is updated and a
    /// history point appended, discarding the oldest past the bound.
    pub fn update_transaction_count(&mut self, current_count: usize)
        ensures
            final(self).is_enabled() == old(self).is_enabled(),
            old(self).is_enabled() ==> final(self).snapshot().peak_transaction_count == (if
                current_count > old(self).snapshot().peak_transaction_count {
                current_count
            } else {
                old(self).snapshot().peak_transaction_count
            }),
            !old(self).is_enabled() ==> final(self).snapshot() == old(self).snapshot(),
    {
        if !self.enabled {
            return ;
        }
        if current_count > self.metrics.peak_transaction_count {
            self.metrics.peak_transaction_count = current_count;
        }
        let now = crate::clock::now_nanos();
        let timestamp = now.saturating_sub(self.start_nanos) / 1000000000;
        self.metrics.count_history.push((timestamp, current_count));
        if self.metrics.count_history.len() > self.max_history_points {
            self.metrics.count_history.remove(0);
        }
    }

    /// Record a transaction's fee-per-byte and size into their buckets.
    pub fn record_transaction_fee(&mut self, fee_per_byte: u64, tx_size: usize)
        ensures
            final(self).is_enabled() == old(self).is_enabled(),
            old(self).is_enabled() ==> spec_fee_count(
                final(self).snapshot().fee_distribution,
                spec_fee_bucket(fee_per_byte),
            ) == spec_fee_count(
                old(self).snapshot().fee_distribution,
                spec_fee_bucket(fee_per_byte),
            ).saturating_add(1),
            old(self).is_enabled() ==> spec_size_count(
                final(self).snapshot().size_distribution,
                spec_size_bucket(tx_size),
            ) == spec_size_count(
                old(self).snapshot().size_distribution,
                spec_size_bucket(tx_size),
            ).saturating_add(1),
            !old(self).is_enabled() ==> final(self).snapshot() == old(self).snapshot(),
    {
        if !self.enabled {
            return ;
        }
        if fee_per_byte < 1 {
            self.metrics.fee_distribution.very_low =
                self.metrics.fee_distribution.very_low.saturating_add(1);
        } else if fee_per_byte < 5 {
            self.metrics.fee_distribution.low = self.metrics.fee_distribution.low.saturating_add(
                1,
            );
        } else if fee_per_byte < 10 {
            self.metrics.fee_distribution.medium =
                self.metrics.fee_distribution.medium.saturating_add(1);
        } else if fee_per_byte < 50 {
            self.metrics.fee_distribution.high = self.metrics.fee_distribution.high.saturating_add(
                1,
            );
        } else {
            self.metrics.fee_distribution.very_high =
                self.metrics.fee_distribution.very_high.saturating_add(1);
        }
        if tx_size < 100 {
            self.metrics.size_distribution.tiny =
                self.metrics.size_distribution.tiny.saturating_add(1);
        } else if tx_size < 500 {
            self.metrics.size_distribution.small =
                self.metrics.size_distribution.small.saturating_add(1);
        } else if tx_size < 1000 {
            self.metrics.size_distribution.medium =
                self.metrics.size_distribution.medium.saturating_add(1);
        } else if tx_size < 5000 {
            self.metrics.size_distribution.large =
                self.metrics.size_distribution.large.saturating_add(1);
        } else {
            self.metrics.size_distribution.very_large =
                self.metrics.size_distribution.very_large.saturating_add(1);
        }
    }

    /// A snapshot of the collected figures.
    pub fn get_metrics(&self) -> (r: PoolMetrics)
        ensures
            r.transactions_added == self.snapshot().transactions_added,
            r.transactions_rejected == self.snapshot().transactions_rejected,
            r.transactions_removed == self.snapshot().transactions_removed,
            r.transactions_expired == self.snapshot().transactions_expired,
            r.avg_processing_time_us == self.snapshot().avg_processing_time_us,
            r.avg_validation_time_us == self.snapshot().avg_validation_time_us,
            r.peak_memory_usage == self.snapshot().peak_memory_usage,
            r.peak_transaction_count == self.snapshot().peak_transaction_count,
            r.memory_history@ == self.snapshot().memory_history@,
            r.count_history@ == self.snapshot().count_history@,
            r.fee_distribution == self.snapshot().fee_distribution,
            r.size_distribution == self.snapshot().size_distribution,
            r.operation_timings == self.snapshot().operation_timings,
    {
        self.metrics.clone()
    }

    /// Reset every figure to zero and restart the clock.
    pub fn reset(&mut self)
        ensures
            final(self).snapshot().transactions_added == 0,
            final(self).snapshot().transactions_rejected == 0,
            final(self).snapshot().transactions_removed == 0,
            final(self).snapshot().transactions_expired == 0,
            final(self).snapshot().memory_history@.len() == 0,
            final(self).snapshot().count_history@.len() == 0,
            final(self).is_enabled() == old(self).is_enabled(),
    {
        self.metrics = PoolMetrics::default();
        self.start_nanos = crate::clock::now_nanos();
        self.timers = OperationTimers {
            add: None,
            validate: None,
            select: None,
            remove: None,
            revalidate: None,
            optimize: None,
            maintenance: None,
        };
    }
}

} // verus!
