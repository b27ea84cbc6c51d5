//! DAGShield transaction scheduler: a verified core for ordering, batching,
//! and tracking units of work that form a directed acyclic dependency graph
//! before they are committed to an external ledger.
//!
//! The scheduler itself is pure, synchronous logic: it validates a submission
//! set, extracts a deterministic topological order, packs the order into
//! concurrency-safe batches, tracks per-transaction status transitions, and
//! aggregates throughput metrics. The actual ledger write is an external,
//! possibly failing network call; callers drive it batch by batch and hand
//! each batch's outcomes back to the scheduler.

pub mod batch;
pub mod ext;
pub mod graph;
pub mod ids;
pub mod metrics;
pub mod scheduler;
pub mod txn;
pub mod zkproof;

pub use batch::{batch, can_process_parallel};
pub use graph::order;
pub use metrics::U2UMetrics;
pub use scheduler::{
    calculate_priority, DAGConfig, DAGProcessor, Receipt, ScheduleRun, SubmissionError,
};
pub use txn::{DAGTransaction, DAGTxStatus, DAGTxType, SchedulerError, TxView};
pub use zkproof::{generate_proof_id, ProofCache, ProofStats, ThreatProof};
