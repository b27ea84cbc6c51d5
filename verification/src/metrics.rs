//! Metrics aggregation: cumulative counters and derived throughput
//! ratios, updated once per completed multi-batch run.
//!
//! Ratios are dimensionless and carried in thousandths, so that the
//! snapshot stays in plain integers: a DAG efficiency of 2500 means the
//! run went 2.5 times faster than the assumed sequential baseline. The
//! baseline cost of one transaction with no parallelism is configuration
//! (`DAGConfig::sequential_unit_cost_ms`), not a wired-in guess.

use vstd::prelude::*;

use crate::ext::current_timestamp;

verus! {

/// A read-only snapshot of the scheduler's cumulative statistics. The
/// counters never decrease over the life of the scheduler.
#[derive(Clone, Copy, Debug, PartialEq, Eq, Structural)]
pub struct U2UMetrics {
    pub total_transactions: u64,
    pub successful_transactions: u64,
    pub failed_transactions: u64,
    /// Rolling mean of the runs' wall-clock times, in milliseconds.
    pub avg_confirmation_time_ms: u64,
    /// Speedup of the last run against the sequential baseline, in
    /// thousandths.
    pub dag_efficiency_milli: u64,
    /// Parallel-processing ratio of the last run, in thousandths; a
    /// single-transaction run counts as exactly sequential (1000).
    pub parallel_processing_ratio_milli: u64,
    /// Unix timestamp of the last update.
    pub last_updated: u64,
}

/// The all-zero snapshot a fresh scheduler starts from.
pub open spec fn zero_metrics() -> U2UMetrics {
    U2UMetrics {
        total_transactions: 0,
        successful_transactions: 0,
        failed_transactions: 0,
        avg_confirmation_time_ms: 0,
        dag_efficiency_milli: 0,
        parallel_processing_ratio_milli: 0,
        last_updated: 0,
    }
}

impl U2UMetrics {
    /// The all-zero snapshot a fresh scheduler starts from.
    pub fn new() -> (m: U2UMetrics)
        ensures
            m == (U2UMetrics {
                total_transactions: 0,
                successful_transactions: 0,
                failed_transactions: 0,
                avg_confirmation_time_ms: 0,
                dag_efficiency_milli: 0,
                parallel_processing_ratio_milli: 0,
                last_updated: 0,
            }),
    {
        U2UMetrics {
            total_transactions: 0,
            successful_transactions: 0,
            failed_transactions: 0,
            avg_confirmation_time_ms: 0,
            dag_efficiency_milli: 0,
            parallel_processing_ratio_milli: 0,
            last_updated: 0,
        }
    }
}

/// Addition on counters, saturating at the type's ceiling so that a
/// counter never wraps back down.
pub open spec fn sat_add_spec(a: u64, b: u64) -> u64 {
    if a + b > u64::MAX {
        u64::MAX
    } else {
        (a + b) as u64
    }
}

/// Saturating counter addition.
pub fn sat_add(a: u64, b: u64) -> (r: u64)
    ensures
        r == sat_add_spec(a, b),
        r >= a,
        r >= b,
{
    if b > u64::MAX - a {
        u64::MAX
    } else {
        a + b
    }
}

/// The speedup ratio of a run, in thousandths: hypothetical sequential
/// time (`submitted * unit_cost_ms`) over observed time, capped at the
/// counter ceiling. An elapsed time below one millisecond counts as one.
pub open spec fn efficiency_milli_spec(submitted: u64, unit_cost_ms: u64, elapsed_ms: u64) -> u64 {
    let e = if elapsed_ms == 0 {
        1int
    } else {
        elapsed_ms as int
    };
    let v = submitted * unit_cost_ms * 1000 / e;
    if v > u64::MAX {
        u64::MAX
    } else {
        v as u64
    }
}

/// Compute the speedup ratio of a run.
pub fn efficiency_milli(submitted: u64, unit_cost_ms: u64, elapsed_ms: u64) -> (r: u64)
    ensures
        r == efficiency_milli_spec(submitted, unit_cost_ms, elapsed_ms),
{
    let e: u128 = if elapsed_ms == 0 {
        1
    } else {
        elapsed_ms as u128
    };
    let unit_scaled: u128 = (unit_cost_ms as u128) * 1000;
    if unit_scaled != 0 && (submitted as u128) > u128::MAX / unit_scaled {
        proof {
            lemma_efficiency_overflow(submitted, unit_cost_ms, elapsed_ms);
        }
        u64::MAX
    } else {
        proof {
            if unit_scaled != 0 {
                assert((submitted as u128) * unit_scaled <= u128::MAX) by (nonlinear_arith)
                    requires
                        unit_scaled > 0,
                        submitted as u128 <= u128::MAX as int / unit_scaled as int,
                ;
            }
            assert((submitted as int) * (unit_cost_ms as int) * 1000 == (submitted as int) * (
            (unit_cost_ms as int) * 1000)) by (nonlinear_arith);
        }
        let prod: u128 = (submitted as u128) * unit_scaled;
        let q: u128 = prod / e;
        if q > u64::MAX as u128 {
            u64::MAX
        } else {
            q as u64
        }
    }
}

/// When the product of count and scaled unit cost exceeds the 128-bit
/// range, the true ratio exceeds the 64-bit ceiling for every possible
/// elapsed time.
proof fn lemma_efficiency_overflow(submitted: u64, unit_cost_ms: u64, elapsed_ms: u64)
    requires
        (unit_cost_ms as int) * 1000 > 0,
        submitted as int > u128::MAX as int / ((unit_cost_ms as int) * 1000),
    ensures
        efficiency_milli_spec(submitted, unit_cost_ms, elapsed_ms) == u64::MAX,
{
    let u1000 = (unit_cost_ms as int) * 1000;
    let s = submitted as int;
    let m = u128::MAX as int;
    assert(s * u1000 > m) by (nonlinear_arith)
        requires
            u1000 > 0,
            s > m / u1000,
    ;
    let e = if elapsed_ms == 0 {
        1int
    } else {
        elapsed_ms as int
    };
    assert(1 <= e <= u64::MAX);
    let v = s * (unit_cost_ms as int) * 1000 / e;
    assert(s * (unit_cost_ms as int) * 1000 == s * u1000) by (nonlinear_arith)
        requires
            u1000 == (unit_cost_ms as int) * 1000,
    ;
    assert(v > u64::MAX) by (nonlinear_arith)
        requires
            v == s * u1000 / e,
            s * u1000 > m,
            1 <= e <= u64::MAX,
            m == u128::MAX as int,
    ;
}

/// Accumulators behind the public snapshot: total wall-clock time and
/// number of completed runs, for the rolling mean.
pub struct MetricsAggregator {
    pub metrics: U2UMetrics,
    pub elapsed_total_ms: u64,
    pub runs: u64,
}

impl MetricsAggregator {
    /// A fresh aggregator: zero counters, no completed run.
    pub fn new() -> (a: MetricsAggregator)
        ensures
            a.metrics == zero_metrics(),
            a.elapsed_total_ms == 0,
            a.runs == 0,
    {
        MetricsAggregator { metrics: U2UMetrics::new(), elapsed_total_ms: 0, runs: 0 }
    }

    /// Fold one completed run into the statistics: counters grow by the
    /// run's tallies (never decreasing), the ratios are recomputed from
    /// the run, and the mean confirmation time covers all runs so far.
    pub fn update(
        &mut self,
        submitted: u64,
        succeeded: u64,
        failed: u64,
        elapsed_ms: u64,
        unit_cost_ms: u64,
    )
        ensures
            final(self).metrics.total_transactions == sat_add_spec(
                old(self).metrics.total_transactions,
                submitted,
            ),
            final(self).metrics.successful_transactions == sat_add_spec(
                old(self).metrics.successful_transactions,
                succeeded,
            ),
            final(self).metrics.failed_transactions == sat_add_spec(
                old(self).metrics.failed_transactions,
                failed,
            ),
            final(self).metrics.total_transactions >= old(self).metrics.total_transactions,
            final(self).metrics.successful_transactions >= old(
                self,
            ).metrics.successful_transactions,
            final(self).metrics.failed_transactions >= old(self).metrics.failed_transactions,
            final(self).metrics.dag_efficiency_milli == efficiency_milli_spec(
                submitted,
                unit_cost_ms,
                elapsed_ms,
            ),
            final(self).metrics.parallel_processing_ratio_milli == (if submitted > 1 {
                efficiency_milli_spec(submitted, unit_cost_ms, elapsed_ms)
            } else {
                1000u64
            }),
            final(self).elapsed_total_ms == sat_add_spec(old(self).elapsed_total_ms, elapsed_ms),
            final(self).runs == sat_add_spec(old(self).runs, 1),
            final(self).metrics.avg_confirmation_time_ms == final(self).elapsed_total_ms as int
                / final(self).runs as int,
    {
        self.metrics.total_transactions = sat_add(self.metrics.total_transactions, submitted);
        self.metrics.successful_transactions = sat_add(
            self.metrics.successful_transactions,
            succeeded,
        );
        self.metrics.failed_transactions = sat_add(self.metrics.failed_transactions, failed);
        let eff = efficiency_milli(submitted, unit_cost_ms, elapsed_ms);
        self.metrics.dag_efficiency_milli = eff;
        self.metrics.parallel_processing_ratio_milli = if submitted > 1 {
            eff
        } else {
            1000
        };
        self.elapsed_total_ms = sat_add(self.elapsed_total_ms, elapsed_ms);
        self.runs = sat_add(self.runs, 1);
        self.metrics.avg_confirmation_time_ms = self.elapsed_total_ms / self.runs;
        self.metrics.last_updated = current_timestamp();
    }
}

} // verus!
