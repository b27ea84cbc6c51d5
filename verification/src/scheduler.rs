//! The DAG transaction scheduler: the transaction pool with its status
//! state machine, the scheduling entry point, and the per-batch
//! execution protocol.
//!
//! Ordering and batching are pure computations; the actual ledger write
//! is an external, possibly failing call. A caller therefore drives a
//! run batch by batch: `begin_schedule` validates, orders, batches and
//! records the submission set, `next_batch` hands out one batch to
//! dispatch concurrently and marks it `Processing`, `complete_batch`
//! folds the batch's outcomes back in, `cancel` stops a run at the batch
//! barrier, and `finish_schedule` settles the metrics. Batches run
//! strictly one after another; only the transactions inside one batch
//! are ever in flight together.

use vstd::prelude::*;

use crate::batch::{batch, batch_spec, batch_views};
use crate::ext::{current_timestamp, fresh_id};
use crate::graph::{collect_ids, ids_of, order, order_spec, views_of};
use crate::ids::{contains_str, id_in};
use crate::metrics::{sat_add_spec, MetricsAggregator, U2UMetrics};
use crate::txn::{
    can_transition, views_of_ids, DAGTransaction, DAGTxStatus, DAGTxType, SchedulerError, TxView,
};

verus! {

/// Scheduler configuration. `sequential_unit_cost_ms` is the assumed
/// cost of one transaction with no parallelism, used only to derive the
/// efficiency ratio; it is configuration, not a measured baseline.
#[derive(Clone, Copy, Debug)]
pub struct DAGConfig {
    pub batch_size: usize,
    pub max_parallel_txs: usize,
    pub confirmation_blocks: u64,
    pub gas_limit: u64,
    pub sequential_unit_cost_ms: u64,
}

impl DAGConfig {
    /// The concurrency budget must allow at least one transaction.
    pub open spec fn wf(&self) -> bool {
        self.max_parallel_txs >= 1
    }
}

impl Default for DAGConfig {
    /// The stock configuration: batches of up to one hundred
    /// transactions, fifty in flight at once, three confirmation blocks,
    /// a five-hundred-thousand gas ceiling, and a hundred-millisecond
    /// sequential baseline per transaction.
    fn default() -> (c: DAGConfig)
        ensures
            c.batch_size == 100,
            c.max_parallel_txs == 50,
            c.confirmation_blocks == 3,
            c.gas_limit == 500000,
            c.sequential_unit_cost_ms == 100,
            c.wf(),
    {
        DAGConfig {
            batch_size: 100,
            max_parallel_txs: 50,
            confirmation_blocks: 3,
            gas_limit: 500000,
            sequential_unit_cost_ms: 100,
        }
    }
}

/// The same transaction with another status.
pub open spec fn with_status_spec(t: TxView, st: DAGTxStatus) -> TxView {
    TxView { status: st, ..t }
}

/// A pool after one status change: the entry named by `id` moves to
/// `st` where the state machine allows it; everything else stays.
pub open spec fn mark_one_spec(pool: Seq<TxView>, id: Seq<char>, st: DAGTxStatus) -> Seq<TxView> {
    Seq::new(
        pool.len(),
        |j: int|
            if pool[j].id == id && can_transition(pool[j].status, st) {
                with_status_spec(pool[j], st)
            } else {
                pool[j]
            },
    )
}

/// A pool after status changes for a whole list of identifiers, first
/// to last.
pub open spec fn mark_all_spec(pool: Seq<TxView>, ids: Seq<Seq<char>>, st: DAGTxStatus) -> Seq<
    TxView,
>
    decreases ids.len(),
{
    if ids.len() == 0 {
        pool
    } else {
        mark_all_spec(mark_one_spec(pool, ids.first(), st), ids.drop_first(), st)
    }
}

/// Whether the pool holds a `Confirmed` entry under `id`.
pub open spec fn confirmed_in(pool: Seq<TxView>, id: Seq<char>) -> bool {
    exists|j: int| 0 <= j < pool.len() && pool[j].id == id && #[trigger] pool[j].status is Confirmed
}

/// The same transactions, all reset to `Pending`.
pub open spec fn as_pending(s: Seq<TxView>) -> Seq<TxView> {
    Seq::new(s.len(), |i: int| with_status_spec(s[i], DAGTxStatus::Pending))
}

/// Priority from a detection confidence given in thousandths: the
/// surest threats go first.
pub open spec fn priority_spec(confidence_milli: u32) -> u8 {
    if confidence_milli > 900 {
        100u8
    } else if confidence_milli > 700 {
        80u8
    } else if confidence_milli > 500 {
        60u8
    } else {
        40u8
    }
}

/// Map a detection confidence (in thousandths) to a scheduling
/// priority.
pub fn calculate_priority(confidence_milli: u32) -> (r: u8)
    ensures
        r == priority_spec(confidence_milli),
{
    if confidence_milli > 900 {
        100
    } else if confidence_milli > 700 {
        80
    } else if confidence_milli > 500 {
        60
    } else {
        40
    }
}

/// Leaving a terminal status is never allowed.
pub proof fn lemma_terminal_is_final(from: DAGTxStatus, to: DAGTxStatus)
    ensures
        crate::txn::is_terminal(from) ==> !can_transition(from, to),
{
}

/// The scheduler: the shared transaction pool, the metrics aggregator,
/// and the configuration. The pool keys transactions by identifier;
/// confirmed entries are retained (not evicted), so later submissions
/// may depend on them.
pub struct DAGProcessor {
    pub config: DAGConfig,
    pool: Vec<DAGTransaction>,
    agg: MetricsAggregator,
}

impl DAGProcessor {
    /// The pool's mathematical model.
    pub closed spec fn spec_pool(&self) -> Seq<TxView> {
        views_of(self.pool@)
    }

    /// The configuration in force.
    pub closed spec fn spec_config(&self) -> DAGConfig {
        self.config
    }

    /// The metrics snapshot.
    pub closed spec fn spec_metrics(&self) -> U2UMetrics {
        self.agg.metrics
    }

    /// Total wall-clock milliseconds folded into the metrics so far.
    pub closed spec fn spec_elapsed_total_ms(&self) -> u64 {
        self.agg.elapsed_total_ms
    }

    /// Completed runs folded into the metrics so far.
    pub closed spec fn spec_runs(&self) -> u64 {
        self.agg.runs
    }

    /// Pool identifiers are unique and the configuration is sane.
    pub open spec fn wf(&self) -> bool {
        ids_of(self.spec_pool()).no_duplicates() && self.spec_config().wf()
    }

    /// A fresh scheduler: empty pool, zeroed metrics.
    pub fn new(config: DAGConfig) -> (p: DAGProcessor)
        requires
            config.wf(),
        ensures
            p.wf(),
            p.spec_config() == config,
            p.spec_pool() =~= Seq::<TxView>::empty(),
            p.spec_metrics() == crate::metrics::zero_metrics(),
            p.spec_runs() == 0,
    {
        let p = DAGProcessor { config, pool: Vec::new(), agg: MetricsAggregator::new() };
        proof {
            assert(p.spec_pool() =~= Seq::<TxView>::empty());
            assert(ids_of(p.spec_pool()) =~= Seq::<Seq<char>>::empty());
        }
        p
    }

    /// The current metrics snapshot.
    pub fn get_metrics(&self) -> (m: U2UMetrics)
        ensures
            m == self.spec_metrics(),
    {
        self.agg.metrics
    }

    /// Point read of one transaction's status.
    pub fn query_status(&self, id: &String) -> (r: Option<DAGTxStatus>)
        ensures
            match r {
                Some(st) => exists|j: int|
                    0 <= j < self.spec_pool().len() && #[trigger] self.spec_pool()[j].id == id@
                        && self.spec_pool()[j].status == st,
                None => forall|j: int|
                    0 <= j < self.spec_pool().len() ==> #[trigger] self.spec_pool()[j].id != id@,
            },
    {
        let mut i: usize = 0;
        while i < self.pool.len()
            invariant
                i <= self.pool@.len(),
                forall|j: int| 0 <= j < i ==> #[trigger] self.spec_pool()[j].id != id@,
            decreases self.pool@.len() - i,
        {
            if self.pool[i].id == *id {
                proof {
                    assert(self.spec_pool()[i as int].id == id@);
                }
                return Some(self.pool[i].status);
            }
            i = i + 1;
        }
        None
    }

    /// Whether the pool holds a confirmed transaction under `id`.
    fn is_confirmed(&self, id: &String) -> (r: bool)
        ensures
            r == confirmed_in(self.spec_pool(), id@),
    {
        let mut i: usize = 0;
        while i < self.pool.len()
            invariant
                i <= self.pool@.len(),
                forall|j: int|
                    0 <= j < i ==> !(#[trigger] self.spec_pool()[j].id == id@
                        && self.spec_pool()[j].status is Confirmed),
            decreases self.pool@.len() - i,
        {
            let hit = self.pool[i].id == *id && matches!(self.pool[i].status, DAGTxStatus::Confirmed);
            proof {
                assert(hit == (self.spec_pool()[i as int].id == id@
                    && self.spec_pool()[i as int].status is Confirmed));
            }
            if hit {
                return true;
            }
            i = i + 1;
        }
        false
    }

    /// Move the entry named by `id` to status `st`, where the state
    /// machine allows it; report whether a transition happened.
    fn mark(&mut self, id: &String, st: DAGTxStatus) -> (r: bool)
        ensures
            final(self).spec_pool() == mark_one_spec(old(self).spec_pool(), id@, st),
            ids_of(final(self).spec_pool()) == ids_of(old(self).spec_pool()),
            final(self).spec_config() == old(self).spec_config(),
            final(self).spec_metrics() == old(self).spec_metrics(),
            final(self).spec_elapsed_total_ms() == old(self).spec_elapsed_total_ms(),
            final(self).spec_runs() == old(self).spec_runs(),
            r == exists|j: int|
                0 <= j < old(self).spec_pool().len() && #[trigger] old(self).spec_pool()[j].id
                    == id@ && can_transition(old(self).spec_pool()[j].status, st),
    {
        let ghost p0 = self.spec_pool();
        let mut changed = false;
        let mut i: usize = 0;
        while i < self.pool.len()
            invariant
                i <= self.pool@.len(),
                p0 == old(self).spec_pool(),
                self.pool@.len() == p0.len(),
                self.config == old(self).config,
                self.agg == old(self).agg,
                forall|j: int|
                    i <= j < p0.len() ==> #[trigger] self.spec_pool()[j] == p0[j],
                forall|j: int|
                    0 <= j < i ==> #[trigger] self.spec_pool()[j] == mark_one_spec(p0, id@, st)[j],
                changed == exists|j: int|
                    0 <= j < i && #[trigger] p0[j].id == id@ && can_transition(p0[j].status, st),
            decreases self.pool@.len() - i,
    {
            let is_match = self.pool[i].id == *id;
            proof {
                assert(self.spec_pool()[i as int] == p0[i as int]);
                assert(is_match == (p0[i as int].id == id@));
            }
            if is_match {
                let from = self.pool[i].status;
                let allowed = match (from, st) {
                    (DAGTxStatus::Pending, DAGTxStatus::Processing) => true,
                    (DAGTxStatus::Pending, DAGTxStatus::Cancelled) => true,
                    (DAGTxStatus::Processing, DAGTxStatus::Confirmed) => true,
                    (DAGTxStatus::Processing, DAGTxStatus::Failed) => true,
                    _ => false,
                };
                proof {
                    assert(allowed == can_transition(p0[i as int].status, st));
                }
                if allowed {
                    let t = self.pool[i].with_status(st);
                    let ghost before = self.spec_pool();
                    let ghost bp = self.pool@;
                    self.pool.set(i, t);
                    proof {
                        assert(self.pool@ == bp.update(i as int, t));
                        assert forall|j: int|
                            0 <= j < p0.len() && j != i implies #[trigger] self.spec_pool()[j]
                            == before[j] by {
                            assert(self.pool@[j] == bp[j]);
                        }
                        assert(self.spec_pool()[i as int] == t@);
                        assert(t@ == with_status_spec(p0[i as int], st));
                    }
                    changed = true;
                }
            }
            i = i + 1;
        }
        proof {
            assert(self.spec_pool() =~= mark_one_spec(p0, id@, st));
            lemma_mark_one_ids(p0, id@, st);
            assert(ids_of(self.spec_pool()) =~= ids_of(p0));
        }
        changed
    }
}

/// Confirmation evidence handed back by the submission collaborator;
/// opaque to the scheduler.
#[derive(Clone, Debug)]
pub struct Receipt {
    pub tx_hash: Vec<u8>,
}

/// A per-transaction submission failure reported by the collaborator;
/// it never aborts sibling transactions or later batches.
#[derive(Clone, Debug)]
pub struct SubmissionError {
    pub message: String,
}

/// One scheduling run: the sealed batches in dispatch order and the
/// run's progress. Batches execute strictly one after another; `next`
/// is the first not yet completed, and `in_flight` says whether it has
/// been handed out for dispatch.
#[derive(Debug)]
pub struct ScheduleRun {
    pub batches: Vec<Vec<DAGTransaction>>,
    pub next: usize,
    pub in_flight: bool,
    pub cancelled: bool,
    pub submitted: u64,
    pub succeeded: u64,
    pub failed: u64,
    pub failures: Vec<(String, String)>,
}

/// The views of a failure list.
pub open spec fn failures_view(s: Seq<(String, String)>) -> Seq<(Seq<char>, Seq<char>)> {
    Seq::new(s.len(), |i: int| (s[i].0@, s[i].1@))
}

/// Every dependency of the submission set names a member of the set or
/// a transaction already confirmed in the pool.
pub open spec fn all_deps_covered(
    staged: Seq<TxView>,
    known: Seq<Seq<char>>,
    pool: Seq<TxView>,
) -> bool {
    forall|i: int, k: int|
        0 <= i < staged.len() && 0 <= k < staged[i].dependencies.len() ==> id_in(
            known,
            #[trigger] staged[i].dependencies[k],
        ) || confirmed_in(pool, staged[i].dependencies[k])
}

/// The pool after folding in one batch's outcomes, member by member:
/// `Confirmed` on success, `Failed` on error.
pub open spec fn apply_outcomes_spec(
    pool: Seq<TxView>,
    b: Seq<TxView>,
    outs: Seq<Result<Receipt, SubmissionError>>,
) -> Seq<TxView>
    decreases b.len(),
{
    if b.len() == 0 {
        pool
    } else {
        let st = if outs[0] is Ok {
            DAGTxStatus::Confirmed
        } else {
            DAGTxStatus::Failed
        };
        apply_outcomes_spec(mark_one_spec(pool, b[0].id, st), b.drop_first(), outs.drop_first())
    }
}

/// How many outcomes of a batch succeeded.
pub open spec fn count_ok(outs: Seq<Result<Receipt, SubmissionError>>) -> int
    decreases outs.len(),
{
    if outs.len() == 0 {
        0
    } else {
        (if outs[0] is Ok {
            1int
        } else {
            0int
        }) + count_ok(outs.drop_first())
    }
}

/// The failures of a batch: each failed member's identifier with the
/// collaborator's message, in batch order.
pub open spec fn failures_of(
    b: Seq<TxView>,
    outs: Seq<Result<Receipt, SubmissionError>>,
) -> Seq<(Seq<char>, Seq<char>)>
    decreases b.len(),
{
    if b.len() == 0 {
        Seq::empty()
    } else {
        let rest = failures_of(b.drop_first(), outs.drop_first());
        match outs[0] {
            Result::Err(e) => seq![(b[0].id, e.message@)] + rest,
            Result::Ok(_) => rest,
        }
    }
}

/// The pool after cancelling every batch from position `from` on.
pub open spec fn cancel_rest_spec(pool: Seq<TxView>, batches: Seq<Seq<TxView>>, from: int) -> Seq<
    TxView,
>
    decreases batches.len() - from,
{
    if from < 0 || from >= batches.len() {
        pool
    } else {
        cancel_rest_spec(
            mark_all_spec(pool, ids_of(batches[from]), DAGTxStatus::Cancelled),
            batches,
            from + 1,
        )
    }
}

/// The pool after storing `t` under its identifier: replacing the
/// previous entry with that identifier, or appended if there is none.
pub open spec fn upsert_spec(pool: Seq<TxView>, t: TxView) -> Seq<TxView> {
    if id_in(ids_of(pool), t.id) {
        Seq::new(
            pool.len(),
            |j: int|
                if pool[j].id == t.id {
                    t
                } else {
                    pool[j]
                },
        )
    } else {
        pool.push(t)
    }
}

/// A status change touches no identifier.
pub proof fn lemma_mark_one_ids(pool: Seq<TxView>, id: Seq<char>, st: DAGTxStatus)
    ensures
        ids_of(mark_one_spec(pool, id, st)) =~= ids_of(pool),
{
}


impl DAGProcessor {
    /// Move every member of `b` to status `st`, in batch order, where
    /// the state machine allows it.
    fn mark_batch(&mut self, b: &Vec<DAGTransaction>, st: DAGTxStatus)
        ensures
            final(self).spec_pool() == mark_all_spec(
                old(self).spec_pool(),
                ids_of(views_of(b@)),
                st,
            ),
            ids_of(final(self).spec_pool()) == ids_of(old(self).spec_pool()),
            final(self).spec_config() == old(self).spec_config(),
            final(self).spec_metrics() == old(self).spec_metrics(),
            final(self).spec_elapsed_total_ms() == old(self).spec_elapsed_total_ms(),
            final(self).spec_runs() == old(self).spec_runs(),
    {
        let ghost p0 = self.spec_pool();
        let ghost allids = ids_of(views_of(b@));
        proof {
            assert(allids.skip(0) =~= allids);
        }
        let mut k: usize = 0;
        while k < b.len()
            invariant
                k <= b@.len(),
                allids == ids_of(views_of(b@)),
                mark_all_spec(self.spec_pool(), allids.skip(k as int), st) == mark_all_spec(
                    p0,
                    allids,
                    st,
                ),
                ids_of(self.spec_pool()) == ids_of(p0),
                self.spec_config() == old(self).spec_config(),
                self.spec_metrics() == old(self).spec_metrics(),
                self.spec_elapsed_total_ms() == old(self).spec_elapsed_total_ms(),
                self.spec_runs() == old(self).spec_runs(),
            decreases b@.len() - k,
        {
            let ghost pool_before = self.spec_pool();
            self.mark(&b[k].id, st);
            proof {
                assert(allids.skip(k as int).first() == b@[k as int]@.id);
                assert(allids.skip(k as int).drop_first() =~= allids.skip(k as int + 1));
                assert(self.spec_pool() == mark_one_spec(pool_before, b@[k as int]@.id, st));
                assert(mark_all_spec(pool_before, allids.skip(k as int), st) == mark_all_spec(
                    self.spec_pool(),
                    allids.skip(k as int + 1),
                    st,
                ));
            }
            k = k + 1;
        }
        proof {
            assert(allids.skip(b@.len() as int) =~= Seq::<Seq<char>>::empty());
        }
    }

    /// Record one transaction as `Pending` in the pool.
    fn insert_pending(&mut self, tx: DAGTransaction)
        requires
            old(self).wf(),
            !id_in(ids_of(old(self).spec_pool()), tx@.id),
        ensures
            final(self).wf(),
            final(self).spec_pool() == old(self).spec_pool().push(
                with_status_spec(tx@, DAGTxStatus::Pending),
            ),
            final(self).spec_config() == old(self).spec_config(),
            final(self).spec_metrics() == old(self).spec_metrics(),
            final(self).spec_elapsed_total_ms() == old(self).spec_elapsed_total_ms(),
            final(self).spec_runs() == old(self).spec_runs(),
    {
        let ghost p0 = self.spec_pool();
        let t = tx.with_status(DAGTxStatus::Pending);
        self.pool.push(t);
        proof {
            assert(self.spec_pool() =~= p0.push(with_status_spec(tx@, DAGTxStatus::Pending)));
            let ids2 = ids_of(self.spec_pool());
            assert(ids2.len() == ids_of(p0).len() + 1);
            assert forall|i: int, j: int|
                0 <= i < ids2.len() && 0 <= j < ids2.len() && i != j implies ids2[i] != ids2[j] by {
                if i < ids_of(p0).len() && j < ids_of(p0).len() {
                    assert(ids2[i] == ids_of(p0)[i]);
                    assert(ids2[j] == ids_of(p0)[j]);
                } else if i < ids_of(p0).len() {
                    assert(ids2[j] == tx@.id);
                    assert(ids2[i] == ids_of(p0)[i]);
                } else {
                    assert(ids2[i] == tx@.id);
                    assert(ids2[j] == ids_of(p0)[j]);
                }
            }
        }
    }

    /// Store `tx` under its identifier, replacing any previous entry
    /// with the same identifier.
    fn upsert(&mut self, tx: DAGTransaction)
        requires
            old(self).wf(),
        ensures
            final(self).wf(),
            final(self).spec_pool() == upsert_spec(old(self).spec_pool(), tx@),
            final(self).spec_config() == old(self).spec_config(),
            final(self).spec_metrics() == old(self).spec_metrics(),
            final(self).spec_elapsed_total_ms() == old(self).spec_elapsed_total_ms(),
            final(self).spec_runs() == old(self).spec_runs(),
    {
        let ghost p0 = self.spec_pool();
        let mut i: usize = 0;
        while i < self.pool.len()
            invariant
                i <= self.pool@.len(),
                p0 == self.spec_pool(),
                p0 == old(self).spec_pool(),
                ids_of(p0).no_duplicates(),
                self.spec_config() == old(self).spec_config(),
                self.spec_config().wf(),
                self.agg == old(self).agg,
                forall|j: int| 0 <= j < i ==> #[trigger] p0[j].id != tx@.id,
            decreases self.pool@.len() - i,
        {
            let is_match = self.pool[i].id == tx.id;
            proof {
                assert(is_match == (p0[i as int].id == tx@.id));
            }
            if is_match {
                let ghost bp = self.pool@;
                self.pool.set(i, tx);
                proof {
                    assert(self.pool@ == bp.update(i as int, tx));
                    assert(ids_of(p0)[i as int] == tx@.id);
                    assert(id_in(ids_of(p0), tx@.id));
                    assert forall|j: int|
                        0 <= j < p0.len() implies self.spec_pool()[j] == upsert_spec(p0, tx@)[j] by {
                        if j == i {
                            assert(self.spec_pool()[j] == tx@);
                        } else {
                            assert(self.pool@[j] == bp[j]);
                            assert(self.spec_pool()[j] == p0[j]);
                            assert(ids_of(p0)[j] != ids_of(p0)[i as int]);
                            assert(p0[j].id != tx@.id);
                        }
                    }
                    assert(self.spec_pool() =~= upsert_spec(p0, tx@));
                    assert(ids_of(self.spec_pool()) =~= ids_of(p0)) by {
                        assert forall|a: int|
                            0 <= a < p0.len() implies ids_of(self.spec_pool())[a] == ids_of(
                            p0,
                        )[a] by {
                            if a == i {
                                assert(self.spec_pool()[a].id == tx@.id);
                                assert(p0[a].id == tx@.id);
                            } else {
                                assert(self.spec_pool()[a] == p0[a]);
                            }
                        }
                    }
                }
                return ;
            }
            i = i + 1;
        }
        proof {
            assert forall|j: int| 0 <= j < ids_of(p0).len() implies ids_of(p0)[j] != tx@.id by {
                assert(p0[j].id != tx@.id);
            }
            assert(!id_in(ids_of(p0), tx@.id));
        }
        self.pool.push(tx);
        proof {
            assert(self.spec_pool() =~= p0.push(tx@));
            assert(self.spec_pool() =~= upsert_spec(p0, tx@));
            let ids2 = ids_of(self.spec_pool());
            assert forall|a: int, b2: int|
                0 <= a < ids2.len() && 0 <= b2 < ids2.len() && a != b2 implies ids2[a]
                != ids2[b2] by {
                if a < ids_of(p0).len() && b2 < ids_of(p0).len() {
                    assert(ids2[a] == ids_of(p0)[a]);
                    assert(ids2[b2] == ids_of(p0)[b2]);
                } else if a < ids_of(p0).len() {
                    assert(ids2[b2] == tx@.id);
                    assert(ids2[a] == ids_of(p0)[a]);
                } else {
                    assert(ids2[a] == tx@.id);
                    assert(ids2[b2] == ids_of(p0)[b2]);
                }
            }
        }
    }

    /// Scan the submission set for a dependency that neither names a
    /// member of the set nor a confirmed pool entry.
    fn find_missing_dep(&self, staged: &Vec<DAGTransaction>, known: &Vec<String>) -> (r: Option<
        String,
    >)
        requires
            views_of_ids(known@) == ids_of(views_of(staged@)),
        ensures
            match r {
                Some(d) => exists|i: int, k: int|
                    0 <= i < views_of(staged@).len() && 0 <= k < views_of(
                        staged@,
                    )[i].dependencies.len() && #[trigger] views_of(staged@)[i].dependencies[k] == d@
                        && !id_in(ids_of(views_of(staged@)), d@) && !confirmed_in(
                        self.spec_pool(),
                        d@,
                    ),
                None => all_deps_covered(
                    views_of(staged@),
                    ids_of(views_of(staged@)),
                    self.spec_pool(),
                ),
            },
    {
        let ghost sv = views_of(staged@);
        let ghost kv = ids_of(sv);
        let mut i: usize = 0;
        while i < staged.len()
            invariant
                i <= staged@.len(),
                sv == views_of(staged@),
                kv == ids_of(sv),
                views_of_ids(known@) == kv,
                forall|i2: int, k: int|
                    0 <= i2 < i && 0 <= k < sv[i2].dependencies.len() ==> id_in(
                        kv,
                        #[trigger] sv[i2].dependencies[k],
                    ) || confirmed_in(self.spec_pool(), sv[i2].dependencies[k]),
            decreases staged@.len() - i,
        {
            let deps = &staged[i].dependencies;
            let mut k: usize = 0;
            while k < deps.len()
                invariant
                    i < staged@.len(),
                    k <= deps@.len(),
                    sv == views_of(staged@),
                    kv == ids_of(sv),
                    views_of_ids(known@) == kv,
                    deps@ == staged@[i as int].dependencies@,
                    forall|k2: int|
                        0 <= k2 < k ==> id_in(kv, #[trigger] sv[i as int].dependencies[k2])
                            || confirmed_in(self.spec_pool(), sv[i as int].dependencies[k2]),
                decreases deps@.len() - k,
            {
                let dep = &deps[k];
                proof {
                    assert(sv[i as int].dependencies[k as int] == dep@);
                }
                let in_set = contains_str(known, dep);
                let confirmed = if in_set {
                    true
                } else {
                    self.is_confirmed(dep)
                };
                if !in_set && !confirmed {
                    return Some(dep.clone());
                }
                k = k + 1;
            }
            i = i + 1;
        }
        None
    }

    /// The submission set, each transaction recorded as `Pending`.
    fn stage_pending(txs: &Vec<DAGTransaction>) -> (r: Vec<DAGTransaction>)
        ensures
            views_of(r@) == as_pending(views_of(txs@)),
    {
        let mut r: Vec<DAGTransaction> = Vec::new();
        let mut i: usize = 0;
        while i < txs.len()
            invariant
                i <= txs@.len(),
                r@.len() == i,
                forall|j: int|
                    0 <= j < i ==> #[trigger] views_of(r@)[j] == as_pending(views_of(txs@))[j],
            decreases txs@.len() - i,
        {
            let ghost r0 = r@;
            let t = txs[i].with_status(DAGTxStatus::Pending);
            r.push(t);
            proof {
                assert(r@ == r0.push(t));
                assert forall|j: int| 0 <= j < i + 1 implies #[trigger] views_of(r@)[j]
                    == as_pending(views_of(txs@))[j] by {
                    if j < i {
                        assert(r@[j] == r0[j]);
                        assert(views_of(r0)[j] == as_pending(views_of(txs@))[j]);
                    } else {
                        assert(views_of(r@)[j] == t@);
                    }
                }
            }
            i = i + 1;
        }
        proof {
            assert(views_of(r@) =~= as_pending(views_of(txs@)));
        }
        r
    }

    /// A copy of a batch, member for member.
    fn duplicate_batch(b: &Vec<DAGTransaction>) -> (r: Vec<DAGTransaction>)
        ensures
            views_of(r@) == views_of(b@),
    {
        let mut r: Vec<DAGTransaction> = Vec::new();
        let mut i: usize = 0;
        while i < b.len()
            invariant
                i <= b@.len(),
                r@.len() == i,
                forall|j: int| 0 <= j < i ==> #[trigger] views_of(r@)[j] == views_of(b@)[j],
            decreases b@.len() - i,
        {
            let ghost r0 = r@;
            let t = b[i].duplicate();
            r.push(t);
            proof {
                assert(r@ == r0.push(t));
                assert forall|j: int| 0 <= j < i + 1 implies #[trigger] views_of(r@)[j] == views_of(
                    b@,
                )[j] by {
                    if j < i {
                        assert(r@[j] == r0[j]);
                        assert(views_of(r0)[j] == views_of(b@)[j]);
                    } else {
                        assert(views_of(r@)[j] == t@);
                    }
                }
            }
            i = i + 1;
        }
        proof {
            assert(views_of(r@) =~= views_of(b@));
        }
        r
    }

    /// The sole scheduling entry point's first half: record the
    /// submission set as `Pending`, validate its dependencies, extract
    /// the topological order, and seal the batches of a new run.
    ///
    /// Structural errors abort the run before any dispatch: a
    /// `MissingDependency` names a declared dependency that is neither
    /// in the set nor confirmed in the pool, and a `CyclicDependency`
    /// names a transaction of a self-blocking remainder. Either way
    /// every submitted transaction is in the pool as `Pending` and
    /// nothing was dispatched. On success, the sealed batches cover
    /// exactly the submission set, in topological order, each batch
    /// concurrency-safe and within the parallelism bound.
    pub fn begin_schedule(&mut self, txs: Vec<DAGTransaction>) -> (r: Result<
        ScheduleRun,
        SchedulerError,
    >)
        requires
            old(self).wf(),
            ids_of(views_of(txs@)).no_duplicates(),
            forall|j: int|
                0 <= j < txs@.len() ==> !id_in(
                    ids_of(old(self).spec_pool()),
                    #[trigger] views_of(txs@)[j].id,
                ),
        ensures
            final(self).wf(),
            final(self).spec_config() == old(self).spec_config(),
            final(self).spec_metrics() == old(self).spec_metrics(),
            final(self).spec_runs() == old(self).spec_runs(),
            final(self).spec_pool() == old(self).spec_pool() + as_pending(views_of(txs@)),
            ({
                let staged = as_pending(views_of(txs@));
                let known = ids_of(staged);
                let maxp = old(self).spec_config().max_parallel_txs as int;
                match r {
                    Result::Err(SchedulerError::MissingDependency { id }) => exists|i: int, k: int|
                        0 <= i < staged.len() && 0 <= k < staged[i].dependencies.len()
                            && #[trigger] staged[i].dependencies[k] == id@ && !id_in(known, id@)
                            && !confirmed_in(old(self).spec_pool(), id@),
                    Result::Err(SchedulerError::CyclicDependency { id }) => {
                        &&& all_deps_covered(staged, known, old(self).spec_pool())
                        &&& order_spec(staged) == Err::<Seq<TxView>, Seq<char>>(id@)
                    },
                    Result::Ok(run) => {
                        &&& all_deps_covered(staged, known, old(self).spec_pool())
                        &&& (order_spec(staged) matches Ok(o) && batch_views(run.batches@)
                            == batch_spec(o, maxp))
                        &&& (order_spec(staged) matches Ok(o) && batch_views(
                            run.batches@,
                        ).flatten() == o && o.to_multiset() == staged.to_multiset())
                        &&& forall|bi: int|
                            0 <= bi < batch_views(run.batches@).len() ==> crate::batch::batch_ok(
                                #[trigger] batch_views(run.batches@)[bi],
                                maxp,
                            )
                        &&& run.next == 0
                        &&& !run.in_flight
                        &&& !run.cancelled
                        &&& run.submitted == txs@.len()
                        &&& run.succeeded == 0
                        &&& run.failed == 0
                        &&& run.failures@.len() == 0
                    },
                }
            }),
    {
        let ghost t0 = views_of(txs@);
        let ghost staged_v = as_pending(t0);
        let staged = Self::stage_pending(&txs);
        let known = collect_ids(&staged);
        proof {
            assert forall|j: int| 0 <= j < staged_v.len() implies #[trigger] ids_of(staged_v)[j]
                == ids_of(t0)[j] by {
                assert(staged_v[j] == with_status_spec(t0[j], DAGTxStatus::Pending));
            }
            assert(ids_of(staged_v) =~= ids_of(t0));
        }
        let missing = self.find_missing_dep(&staged, &known);

        // Record every submission as Pending, before any decision is
        // taken: a rejected set stays visible in the pool.
        let ghost p0 = self.spec_pool();
        proof {
            assert forall|j: int| 0 <= j < staged_v.len() implies !id_in(
                ids_of(p0),
                #[trigger] staged_v[j].id,
            ) by {
                assert(views_of(txs@)[j] == t0[j]);
                assert(staged_v[j] == with_status_spec(t0[j], DAGTxStatus::Pending));
            }
        }
        let mut i: usize = 0;
        while i < staged.len()
            invariant
                i <= staged@.len(),
                staged_v == views_of(staged@),
                staged_v == as_pending(views_of(txs@)),
                ids_of(staged_v).no_duplicates(),
                forall|j: int|
                    0 <= j < staged_v.len() ==> !id_in(ids_of(p0), #[trigger] staged_v[j].id),
                p0 == old(self).spec_pool(),
                self.wf(),
                self.spec_pool() == p0 + staged_v.take(i as int),
                self.spec_config() == old(self).spec_config(),
                self.spec_metrics() == old(self).spec_metrics(),
                self.spec_elapsed_total_ms() == old(self).spec_elapsed_total_ms(),
                self.spec_runs() == old(self).spec_runs(),
            decreases staged@.len() - i,
        {
            let ghost pool_before = self.spec_pool();
            proof {
                assert(!id_in(ids_of(pool_before), staged_v[i as int].id)) by {
                    if id_in(ids_of(pool_before), staged_v[i as int].id) {
                        let j = choose|j: int|
                            0 <= j < ids_of(pool_before).len() && ids_of(pool_before)[j]
                                == staged_v[i as int].id;
                        if j < p0.len() {
                            assert(ids_of(p0)[j] == staged_v[i as int].id);
                            assert(id_in(ids_of(p0), staged_v[i as int].id));
                        } else {
                            assert(pool_before[j] == staged_v.take(i as int)[j - p0.len()]);
                            assert(ids_of(staged_v)[j - p0.len()] == staged_v[i as int].id);
                            assert(ids_of(staged_v)[i as int] == staged_v[i as int].id);
                        }
                    }
                }
                assert(staged@[i as int]@ == staged_v[i as int]);
                assert(with_status_spec(staged_v[i as int], DAGTxStatus::Pending) == staged_v[i as int]);
            }
            let dup = staged[i].duplicate();
            self.insert_pending(dup);
            proof {
                assert(self.spec_pool() =~= p0 + staged_v.take(i as int + 1));
            }
            i = i + 1;
        }
        proof {
            assert(staged_v.take(staged_v.len() as int) =~= staged_v);
            assert(self.spec_pool() == p0 + staged_v);
        }

        if let Some(d) = missing {
            return Err(SchedulerError::MissingDependency { id: d });
        }

        let ordered = match order(staged) {
            Ok(o) => o,
            Err(e) => {
                return Err(e);
            },
        };
        let max_parallel = self.config.max_parallel_txs;
        proof {
            assert(max_parallel >= 1);
        }
        let batches = batch(&ordered, max_parallel);
        let submitted = txs.len() as u64;
        proof {
            let o = views_of(ordered@);
            crate::graph::lemma_order_topological(staged_v, o);
            crate::graph::lemma_distinct_ids_permutation(staged_v, o);
            crate::batch::lemma_topo_no_forward(o, staged_v);
            crate::batch::lemma_batches_safe(o, max_parallel as int);
            crate::batch::lemma_batches_flatten(o, max_parallel as int);
        }
        Ok(
            ScheduleRun {
                batches,
                next: 0,
                in_flight: false,
                cancelled: false,
                submitted,
                succeeded: 0,
                failed: 0,
                failures: Vec::new(),
            },
        )
    }

    /// Hand out the next batch for concurrent dispatch, marking its
    /// members `Processing`. Returns `None`, changing nothing, exactly
    /// when the run is cancelled or complete.
    pub fn next_batch(&mut self, run: &mut ScheduleRun) -> (b: Option<Vec<DAGTransaction>>)
        requires
            !old(run).in_flight,
        ensures
            final(self).wf() == old(self).wf(),
            final(self).spec_config() == old(self).spec_config(),
            final(self).spec_metrics() == old(self).spec_metrics(),
            final(self).spec_runs() == old(self).spec_runs(),
            final(run).batches@ == old(run).batches@,
            final(run).next == old(run).next,
            final(run).cancelled == old(run).cancelled,
            final(run).submitted == old(run).submitted,
            final(run).succeeded == old(run).succeeded,
            final(run).failed == old(run).failed,
            final(run).failures@ == old(run).failures@,
            (b is Some) == (!old(run).cancelled && old(run).next < old(run).batches@.len()),
            match b {
                Some(v) => {
                    &&& views_of(v@) == batch_views(old(run).batches@)[old(run).next as int]
                    &&& final(run).in_flight
                    &&& final(self).spec_pool() == mark_all_spec(
                        old(self).spec_pool(),
                        ids_of(batch_views(old(run).batches@)[old(run).next as int]),
                        DAGTxStatus::Processing,
                    )
                },
                None => {
                    &&& !final(run).in_flight
                    &&& final(self).spec_pool() == old(self).spec_pool()
                },
            },
    {
        if run.cancelled || run.next >= run.batches.len() {
            return None;
        }
        let current = &run.batches[run.next];
        proof {
            assert(views_of(current@) == batch_views(run.batches@)[run.next as int]);
        }
        let copy = Self::duplicate_batch(current);
        self.mark_batch(current, DAGTxStatus::Processing);
        run.in_flight = true;
        Some(copy)
    }

    /// Fold one dispatched batch's outcomes back in, outcome by
    /// outcome and aligned by batch order: success confirms a member,
    /// an error fails it and is recorded with the member's identifier.
    /// Sibling members and later batches are unaffected by a failure.
    pub fn complete_batch(
        &mut self,
        run: &mut ScheduleRun,
        outcomes: &Vec<Result<Receipt, SubmissionError>>,
    )
        requires
            old(run).in_flight,
            old(run).next < old(run).batches@.len(),
            outcomes@.len() == old(run).batches@[old(run).next as int]@.len(),
        ensures
            final(self).wf() == old(self).wf(),
            final(self).spec_config() == old(self).spec_config(),
            final(self).spec_metrics() == old(self).spec_metrics(),
            final(self).spec_runs() == old(self).spec_runs(),
            final(self).spec_pool() == apply_outcomes_spec(
                old(self).spec_pool(),
                batch_views(old(run).batches@)[old(run).next as int],
                outcomes@,
            ),
            final(run).batches@ == old(run).batches@,
            final(run).next == old(run).next + 1,
            !final(run).in_flight,
            final(run).cancelled == old(run).cancelled,
            final(run).submitted == old(run).submitted,
            final(run).succeeded == sat_add_spec(
                old(run).succeeded,
                count_ok(outcomes@) as u64,
            ),
            final(run).failed == sat_add_spec(
                old(run).failed,
                (outcomes@.len() - count_ok(outcomes@)) as u64,
            ),
            failures_view(final(run).failures@) == failures_view(old(run).failures@) + failures_of(
                batch_views(old(run).batches@)[old(run).next as int],
                outcomes@,
            ),
    {
        let ghost bv = batch_views(run.batches@)[run.next as int];
        let ghost p0 = self.spec_pool();
        let ghost f0 = failures_view(run.failures@);
        let mut ok_count: u64 = 0;
        let mut err_count: u64 = 0;
        let mut m: usize = 0;
        let b = Self::duplicate_batch(&run.batches[run.next]);
        proof {
            assert(views_of(b@) == bv);
            assert(bv.skip(0) =~= bv);
            assert(outcomes@.skip(0) =~= outcomes@);
            assert(bv.take(0) =~= Seq::<TxView>::empty());
            assert(outcomes@.take(0) =~= Seq::<Result<Receipt, SubmissionError>>::empty());
            assert(f0 + failures_of(bv.take(0), outcomes@.take(0)) =~= f0);
        }
        while m < b.len()
            invariant
                m <= b@.len(),
                outcomes@.len() == b@.len(),
                bv == views_of(b@),
                apply_outcomes_spec(self.spec_pool(), bv.skip(m as int), outcomes@.skip(m as int))
                    == apply_outcomes_spec(p0, bv, outcomes@),
                ids_of(self.spec_pool()) == ids_of(p0),
                ok_count == count_ok(outcomes@.take(m as int)),
                ok_count <= m,
                err_count == m - ok_count,
                failures_view(run.failures@) == f0 + failures_of(
                    bv.take(m as int),
                    outcomes@.take(m as int),
                ),
                run.batches@ == old(run).batches@,
                run.next == old(run).next,
                run.in_flight == old(run).in_flight,
                run.cancelled == old(run).cancelled,
                run.submitted == old(run).submitted,
                run.succeeded == old(run).succeeded,
                run.failed == old(run).failed,
                self.spec_config() == old(self).spec_config(),
                self.spec_metrics() == old(self).spec_metrics(),
                self.spec_elapsed_total_ms() == old(self).spec_elapsed_total_ms(),
                self.spec_runs() == old(self).spec_runs(),
            decreases b@.len() - m,
        {
            let ghost pool_before = self.spec_pool();
            let ghost fv_before = failures_view(run.failures@);
            let is_ok = match &outcomes[m] {
                Result::Ok(_) => true,
                Result::Err(_) => false,
            };
            let st = if is_ok {
                DAGTxStatus::Confirmed
            } else {
                DAGTxStatus::Failed
            };
            self.mark(&b[m].id, st);
            proof {
                assert(bv.skip(m as int).first() == bv[m as int]);
                assert(bv[m as int].id == b@[m as int]@.id);
                assert(bv.skip(m as int).drop_first() =~= bv.skip(m as int + 1));
                assert(outcomes@.skip(m as int).drop_first() =~= outcomes@.skip(m as int + 1));
                assert(outcomes@.skip(m as int)[0] == outcomes@[m as int]);
                assert(is_ok == (outcomes@[m as int] is Ok));
                assert(self.spec_pool() == mark_one_spec(pool_before, bv[m as int].id, st));
                assert(apply_outcomes_spec(pool_before, bv.skip(m as int), outcomes@.skip(m as int))
                    == apply_outcomes_spec(
                    self.spec_pool(),
                    bv.skip(m as int + 1),
                    outcomes@.skip(m as int + 1),
                ));
                lemma_count_ok_take_succ(outcomes@, m as int);
                lemma_failures_take_succ(bv, outcomes@, m as int);
            }
            if is_ok {
                ok_count = ok_count + 1;
                proof {
                    assert(failures_view(run.failures@) =~= f0 + failures_of(
                        bv.take(m as int + 1),
                        outcomes@.take(m as int + 1),
                    ));
                }
            } else {
                err_count = err_count + 1;
                match &outcomes[m] {
                    Result::Err(e) => {
                        let entry = (b[m].id.clone(), e.message.clone());
                        let ghost fvec0 = run.failures@;
                        proof {
                            assert(entry.0@ == bv[m as int].id);
                            assert(entry.1@ == e.message@);
                        }
                        run.failures.push(entry);
                        proof {
                            assert(run.failures@.len() == fvec0.len() + 1);
                            assert forall|j: int|
                                0 <= j < run.failures@.len() implies #[trigger] failures_view(
                                run.failures@,
                            )[j] == (fv_before.push((bv[m as int].id, e.message@)))[j] by {
                                if j < fvec0.len() {
                                    assert(run.failures@[j] == fvec0[j]);
                                    assert(failures_view(fvec0)[j] == fv_before[j]);
                                } else {
                                    assert(run.failures@[j] == entry);
                                }
                            }
                            assert(failures_view(run.failures@) =~= fv_before.push(
                                (bv[m as int].id, e.message@),
                            ));
                            assert(failures_view(run.failures@) =~= f0 + failures_of(
                                bv.take(m as int + 1),
                                outcomes@.take(m as int + 1),
                            ));
                        }
                    },
                    Result::Ok(_) => {},
                }
            }
            m = m + 1;
        }
        proof {
            assert(bv.skip(b@.len() as int) =~= Seq::<TxView>::empty());
            assert(outcomes@.skip(b@.len() as int) =~= Seq::<
                Result<Receipt, SubmissionError>,
            >::empty());
            assert(bv.take(b@.len() as int) =~= bv);
            assert(outcomes@.take(b@.len() as int) =~= outcomes@);
        }
        run.succeeded = crate::metrics::sat_add(run.succeeded, ok_count);
        run.failed = crate::metrics::sat_add(run.failed, err_count);
        let blen = run.batches.len();
        proof {
            assert(run.next < blen);
        }
        run.next = run.next + 1;
        run.in_flight = false;
    }

    /// Honour a cancellation at the batch barrier: no further batch is
    /// started, and every transaction not yet dispatched is marked
    /// `Cancelled`. A batch already in flight is left to finish.
    pub fn cancel(&mut self, run: &mut ScheduleRun)
        ensures
            final(self).wf() == old(self).wf(),
            final(self).spec_config() == old(self).spec_config(),
            final(self).spec_metrics() == old(self).spec_metrics(),
            final(self).spec_runs() == old(self).spec_runs(),
            final(run).cancelled,
            final(run).batches@ == old(run).batches@,
            final(run).next == old(run).next,
            final(run).in_flight == old(run).in_flight,
            final(run).submitted == old(run).submitted,
            final(run).succeeded == old(run).succeeded,
            final(run).failed == old(run).failed,
            final(run).failures@ == old(run).failures@,
            final(self).spec_pool() == cancel_rest_spec(
                old(self).spec_pool(),
                batch_views(old(run).batches@),
                old(run).next as int + (if old(run).in_flight {
                    1int
                } else {
                    0int
                }),
            ),
    {
        let ghost p0 = self.spec_pool();
        let ghost bvs = batch_views(run.batches@);
        let ghost from0 = run.next as int + (if run.in_flight {
            1int
        } else {
            0int
        });
        let mut b: usize = run.next;
        if run.in_flight {
            if b < run.batches.len() {
                b = b + 1;
            } else {
                proof {
                    assert(cancel_rest_spec(p0, bvs, from0) == p0);
                    assert(cancel_rest_spec(p0, bvs, b as int) == p0);
                }
            }
        }
        if b > run.batches.len() {
            proof {
                assert(cancel_rest_spec(p0, bvs, from0) == p0);
            }
            run.cancelled = true;
            return ;
        }
        while b < run.batches.len()
            invariant
                b <= run.batches@.len(),
                bvs == batch_views(run.batches@),
                cancel_rest_spec(self.spec_pool(), bvs, b as int) == cancel_rest_spec(
                    p0,
                    bvs,
                    from0,
                ),
                ids_of(self.spec_pool()) == ids_of(p0),
                self.spec_config() == old(self).spec_config(),
                self.spec_metrics() == old(self).spec_metrics(),
                self.spec_elapsed_total_ms() == old(self).spec_elapsed_total_ms(),
                self.spec_runs() == old(self).spec_runs(),
            decreases run.batches@.len() - b,
        {
            let ghost pool_before = self.spec_pool();
            let batch_ref = &run.batches[b];
            proof {
                assert(views_of(batch_ref@) == bvs[b as int]);
            }
            self.mark_batch(batch_ref, DAGTxStatus::Cancelled);
            proof {
                assert(cancel_rest_spec(pool_before, bvs, b as int) == cancel_rest_spec(
                    self.spec_pool(),
                    bvs,
                    b as int + 1,
                ));
            }
            b = b + 1;
        }
        proof {
            assert(cancel_rest_spec(self.spec_pool(), bvs, run.batches@.len() as int)
                == self.spec_pool());
        }
        run.cancelled = true;
    }

    /// Settle a completed (or cancelled) run's metrics: the counters
    /// grow by the run's tallies and never decrease, the ratios are
    /// derived from this run against the configured sequential
    /// baseline, and the mean confirmation time covers all runs.
    pub fn finish_schedule(&mut self, run: &ScheduleRun, elapsed_ms: u64)
        requires
            !run.in_flight,
        ensures
            final(self).wf() == old(self).wf(),
            final(self).spec_pool() == old(self).spec_pool(),
            final(self).spec_config() == old(self).spec_config(),
            final(self).spec_metrics().total_transactions == sat_add_spec(
                old(self).spec_metrics().total_transactions,
                run.submitted,
            ),
            final(self).spec_metrics().successful_transactions == sat_add_spec(
                old(self).spec_metrics().successful_transactions,
                run.succeeded,
            ),
            final(self).spec_metrics().failed_transactions == sat_add_spec(
                old(self).spec_metrics().failed_transactions,
                run.failed,
            ),
            final(self).spec_metrics().total_transactions >= old(
                self,
            ).spec_metrics().total_transactions,
            final(self).spec_metrics().successful_transactions >= old(
                self,
            ).spec_metrics().successful_transactions,
            final(self).spec_metrics().failed_transactions >= old(
                self,
            ).spec_metrics().failed_transactions,
            final(self).spec_metrics().dag_efficiency_milli
                == crate::metrics::efficiency_milli_spec(
                run.submitted,
                old(self).spec_config().sequential_unit_cost_ms,
                elapsed_ms,
            ),
            final(self).spec_metrics().parallel_processing_ratio_milli == (if run.submitted > 1 {
                crate::metrics::efficiency_milli_spec(
                    run.submitted,
                    old(self).spec_config().sequential_unit_cost_ms,
                    elapsed_ms,
                )
            } else {
                1000u64
            }),
            final(self).spec_elapsed_total_ms() == sat_add_spec(
                old(self).spec_elapsed_total_ms(),
                elapsed_ms,
            ),
            final(self).spec_runs() == sat_add_spec(old(self).spec_runs(), 1),
            final(self).spec_metrics().avg_confirmation_time_ms == final(self).spec_elapsed_total_ms() as int
                / final(self).spec_runs() as int,
    {
        let unit = self.config.sequential_unit_cost_ms;
        self.agg.update(run.submitted, run.succeeded, run.failed, elapsed_ms, unit);
    }

    /// Record a threat-report transaction: a fresh random identifier, a
    /// priority derived from the detection confidence (in thousandths),
    /// the current time, and `Pending` status, stored in the pool under
    /// its identifier. Dispatch is a later `begin_schedule`'s concern.
    pub fn submit_threat(
        &mut self,
        threat_data: Vec<u8>,
        confidence_milli: u32,
        node_id: String,
        dependencies: Vec<String>,
        gas_estimate: u64,
    ) -> (id: String)
        requires
            old(self).wf(),
        ensures
            final(self).wf(),
            final(self).spec_config() == old(self).spec_config(),
            final(self).spec_metrics() == old(self).spec_metrics(),
            final(self).spec_runs() == old(self).spec_runs(),
            id@.len() == 36,
            exists|ts: u64|
                final(self).spec_pool() == upsert_spec(
                    old(self).spec_pool(),
                    (TxView {
                        id: id@,
                        tx_type: DAGTxType::ThreatSubmission,
                        data: threat_data@,
                        dependencies: views_of_ids(dependencies@),
                        priority: priority_spec(confidence_milli),
                        timestamp: ts,
                        node_id: node_id@,
                        status: DAGTxStatus::Pending,
                        gas_estimate,
                    }),
                ),
    {
        let id = fresh_id();
        let ts = current_timestamp();
        let priority = calculate_priority(confidence_milli);
        let tx = DAGTransaction {
            id: id.clone(),
            tx_type: DAGTxType::ThreatSubmission,
            data: threat_data,
            dependencies,
            priority,
            timestamp: ts,
            node_id,
            status: DAGTxStatus::Pending,
            gas_estimate,
        };
        self.upsert(tx);
        id
    }
}

/// One more outcome extends the success count by one exactly on
/// success.
proof fn lemma_count_ok_take_succ(outs: Seq<Result<Receipt, SubmissionError>>, m: int)
    requires
        0 <= m < outs.len(),
    ensures
        count_ok(outs.take(m + 1)) == count_ok(outs.take(m)) + (if outs[m] is Ok {
            1int
        } else {
            0int
        }),
        count_ok(outs.take(m)) >= 0,
        count_ok(outs.take(m)) <= m,
    decreases m,
{
    lemma_count_ok_last(outs.take(m + 1));
    assert(outs.take(m + 1).drop_last() =~= outs.take(m));
    assert(outs.take(m + 1).last() == outs[m]);
    lemma_count_ok_bounds(outs.take(m));
}

/// The success count splits off at the last element.
proof fn lemma_count_ok_last(outs: Seq<Result<Receipt, SubmissionError>>)
    requires
        outs.len() > 0,
    ensures
        count_ok(outs) == count_ok(outs.drop_last()) + (if outs.last() is Ok {
            1int
        } else {
            0int
        }),
    decreases outs.len(),
{
    if outs.len() == 1 {
        assert(outs.drop_last() =~= Seq::<Result<Receipt, SubmissionError>>::empty());
        assert(outs.drop_first() =~= Seq::<Result<Receipt, SubmissionError>>::empty());
    } else {
        lemma_count_ok_last(outs.drop_first());
        assert(outs.drop_first().drop_last() =~= outs.drop_last().drop_first());
        assert(outs.drop_first().last() == outs.last());
        assert(outs.drop_last()[0] == outs[0]);
        assert(outs.drop_last().len() > 0);
    }
}

/// The success count of a batch lies between zero and its size.
proof fn lemma_count_ok_bounds(outs: Seq<Result<Receipt, SubmissionError>>)
    ensures
        0 <= count_ok(outs) <= outs.len(),
    decreases outs.len(),
{
    if outs.len() > 0 {
        lemma_count_ok_bounds(outs.drop_first());
    }
}

/// One more outcome extends the failure list exactly on failure.
proof fn lemma_failures_take_succ(
    b: Seq<TxView>,
    outs: Seq<Result<Receipt, SubmissionError>>,
    m: int,
)
    requires
        0 <= m < b.len(),
        b.len() == outs.len(),
    ensures
        failures_of(b.take(m + 1), outs.take(m + 1)) == failures_of(b.take(m), outs.take(m)) + (
        match outs[m] {
            Result::Err(e) => seq![(b[m].id, e.message@)],
            Result::Ok(_) => Seq::<(Seq<char>, Seq<char>)>::empty(),
        }),
{
    lemma_failures_last(b.take(m + 1), outs.take(m + 1));
    assert(b.take(m + 1).drop_last() =~= b.take(m));
    assert(outs.take(m + 1).drop_last() =~= outs.take(m));
    assert(b.take(m + 1).last() == b[m]);
    assert(outs.take(m + 1).last() == outs[m]);
}

/// The failure list splits off at the last element.
proof fn lemma_failures_last(b: Seq<TxView>, outs: Seq<Result<Receipt, SubmissionError>>)
    requires
        b.len() > 0,
        b.len() <= outs.len(),
    ensures
        failures_of(b, outs) == failures_of(b.drop_last(), outs.drop_last()) + (match outs[b.len()
            - 1] {
            Result::Err(e) => seq![(b.last().id, e.message@)],
            Result::Ok(_) => Seq::<(Seq<char>, Seq<char>)>::empty(),
        }),
    decreases b.len(),
{
    if b.len() == 1 {
        assert(b.drop_last() =~= Seq::<TxView>::empty());
        assert(b.drop_first() =~= Seq::<TxView>::empty());
        assert(failures_of(b.drop_last(), outs.drop_last()) =~= Seq::<
            (Seq<char>, Seq<char>),
        >::empty());
        assert(failures_of(b.drop_first(), outs.drop_first()) =~= Seq::<
            (Seq<char>, Seq<char>),
        >::empty());
        match outs[0] {
            Result::Err(e) => {
                assert(failures_of(b, outs) =~= Seq::<(Seq<char>, Seq<char>)>::empty() + seq![
                    (b[0].id, e.message@),
                ]);
                assert(failures_of(b, outs) =~= failures_of(b.drop_last(), outs.drop_last())
                    + seq![(b.last().id, e.message@)]);
            },
            Result::Ok(_) => {
                assert(failures_of(b, outs) =~= failures_of(b.drop_last(), outs.drop_last()));
                assert(failures_of(b, outs) == failures_of(b.drop_last(), outs.drop_last())
                    + Seq::<(Seq<char>, Seq<char>)>::empty()) by {
                    assert(failures_of(b.drop_last(), outs.drop_last()) + Seq::<
                        (Seq<char>, Seq<char>),
                    >::empty() =~= failures_of(b.drop_last(), outs.drop_last()));
                }
            },
        }
    } else {
        lemma_failures_last(b.drop_first(), outs.drop_first());
        assert(b.drop_first().drop_last() =~= b.drop_last().drop_first());
        assert(outs.drop_first().drop_last() =~= outs.drop_last().drop_first());
        assert(b.drop_first().last() == b.last());
        assert(b.drop_first().len() - 1 == b.len() - 2);
        assert(outs.drop_first()[b.len() - 2] == outs[b.len() - 1]);
        assert(b.drop_last()[0] == b[0]);
        assert(outs.drop_last()[0] == outs[0]);
        assert(b.drop_last().len() > 0);
        match outs[0] {
            Result::Err(e) => {
                assert(failures_of(b, outs) == seq![(b[0].id, e.message@)] + failures_of(
                    b.drop_first(),
                    outs.drop_first(),
                ));
                assert(failures_of(b.drop_last(), outs.drop_last()) == seq![(b[0].id, e.message@)]
                    + failures_of(b.drop_last().drop_first(), outs.drop_last().drop_first()));
                assert(failures_of(b, outs) =~= failures_of(b.drop_last(), outs.drop_last()) + (
                match outs[b.len() - 1] {
                    Result::Err(e2) => seq![(b.last().id, e2.message@)],
                    Result::Ok(_) => Seq::<(Seq<char>, Seq<char>)>::empty(),
                }));
            },
            Result::Ok(_) => {
                assert(failures_of(b, outs) == failures_of(b.drop_first(), outs.drop_first()));
                assert(failures_of(b.drop_last(), outs.drop_last()) == failures_of(
                    b.drop_last().drop_first(),
                    outs.drop_last().drop_first(),
                ));
                assert(failures_of(b, outs) =~= failures_of(b.drop_last(), outs.drop_last()) + (
                match outs[b.len() - 1] {
                    Result::Err(e2) => seq![(b.last().id, e2.message@)],
                    Result::Ok(_) => Seq::<(Seq<char>, Seq<char>)>::empty(),
                }));
            },
        }
    }
}

} // verus!
