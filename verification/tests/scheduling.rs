//! The scheduling session: validation, dispatch protocol, statuses,
//! cancellation, and metrics.

use dagshield::metrics::{efficiency_milli, MetricsAggregator};
use dagshield::{
    calculate_priority, DAGConfig, DAGProcessor, DAGTransaction, DAGTxStatus, DAGTxType, Receipt,
    SchedulerError, SubmissionError,
};

fn tx(id: &str, deps: &[&str], priority: u8) -> DAGTransaction {
    DAGTransaction {
        id: id.to_string(),
        tx_type: DAGTxType::ThreatSubmission,
        data: vec![1, 2, 3],
        dependencies: deps.iter().map(|d| d.to_string()).collect(),
        priority,
        timestamp: 0,
        node_id: "node1".to_string(),
        status: DAGTxStatus::Pending,
        gas_estimate: 21000,
    }
}

fn processor() -> DAGProcessor {
    DAGProcessor::new(DAGConfig::default())
}

fn ok_outcome() -> Result<Receipt, SubmissionError> {
    Ok(Receipt { tx_hash: vec![0xab; 32] })
}

fn err_outcome(msg: &str) -> Result<Receipt, SubmissionError> {
    Err(SubmissionError { message: msg.to_string() })
}

#[test]
fn missing_dependency_is_rejected_before_dispatch() {
    let mut p = processor();
    let result = p.begin_schedule(vec![tx("P", &["Z"], 10)]);
    match result {
        Err(SchedulerError::MissingDependency { id }) => assert_eq!(id, "Z"),
        other => panic!("expected MissingDependency, got {:?}", other),
    }
    // The submission was recorded but never dispatched.
    assert_eq!(p.query_status(&"P".to_string()), Some(DAGTxStatus::Pending));
}

#[test]
fn dependency_on_confirmed_pool_entry_is_satisfied() {
    let mut p = processor();
    // First run confirms A.
    let mut run = p.begin_schedule(vec![tx("A", &[], 10)]).unwrap();
    let b = p.next_batch(&mut run).unwrap();
    assert_eq!(b.len(), 1);
    p.complete_batch(&mut run, &vec![ok_outcome()]);
    p.finish_schedule(&run, 50);
    assert_eq!(p.query_status(&"A".to_string()), Some(DAGTxStatus::Confirmed));
    // A second submission may now depend on A.
    let run2 = p.begin_schedule(vec![tx("B", &["A"], 10)]);
    assert!(run2.is_ok());
}

#[test]
fn partial_batch_failure_is_tolerated_and_counted() {
    let mut p = processor();
    let before = p.get_metrics();
    let mut run = p
        .begin_schedule(vec![tx("t1", &[], 3), tx("t2", &[], 2), tx("t3", &[], 1)])
        .unwrap();
    let b = p.next_batch(&mut run).unwrap();
    assert_eq!(b.len(), 3);
    let outcomes = vec![ok_outcome(), err_outcome("nonce too low"), ok_outcome()];
    p.complete_batch(&mut run, &outcomes);
    p.finish_schedule(&run, 120);

    // Two confirmed, one failed, aligned with the batch order.
    assert_eq!(p.query_status(&b[0].id), Some(DAGTxStatus::Confirmed));
    assert_eq!(p.query_status(&b[1].id), Some(DAGTxStatus::Failed));
    assert_eq!(p.query_status(&b[2].id), Some(DAGTxStatus::Confirmed));
    assert_eq!(run.failures.len(), 1);
    assert_eq!(run.failures[0].1, "nonce too low");

    let after = p.get_metrics();
    assert_eq!(after.total_transactions, before.total_transactions + 3);
    assert_eq!(after.successful_transactions, before.successful_transactions + 2);
    assert_eq!(after.failed_transactions, before.failed_transactions + 1);
}

#[test]
fn counters_never_decrease_across_runs() {
    let mut p = processor();
    let mut last = p.get_metrics();
    for round in 0..3u32 {
        let a = format!("a{}", round);
        let b = format!("b{}", round);
        let mut run = p
            .begin_schedule(vec![tx(&a, &[], 2), tx(&b, &[], 1)])
            .unwrap();
        while let Some(batch) = p.next_batch(&mut run) {
            let outcomes: Vec<Result<Receipt, SubmissionError>> = batch
                .iter()
                .enumerate()
                .map(|(i, _)| if i == 0 { ok_outcome() } else { err_outcome("boom") })
                .collect();
            p.complete_batch(&mut run, &outcomes);
        }
        p.finish_schedule(&run, 10 + round as u64);
        let m = p.get_metrics();
        assert!(m.total_transactions >= last.total_transactions);
        assert!(m.successful_transactions >= last.successful_transactions);
        assert!(m.failed_transactions >= last.failed_transactions);
        last = m;
    }
    assert_eq!(last.total_transactions, 6);
}

#[test]
fn batches_run_in_dependency_order() {
    let mut p = processor();
    let mut run = p
        .begin_schedule(vec![tx("B", &["A"], 90), tx("C", &[], 60), tx("A", &[], 80)])
        .unwrap();
    let first = p.next_batch(&mut run).unwrap();
    assert_eq!(first.len(), 2);
    assert_eq!(first[0].id, "A");
    assert_eq!(first[1].id, "C");
    // In flight: both members are Processing, B still Pending.
    assert_eq!(p.query_status(&"A".to_string()), Some(DAGTxStatus::Processing));
    assert_eq!(p.query_status(&"B".to_string()), Some(DAGTxStatus::Pending));
    p.complete_batch(&mut run, &vec![ok_outcome(), ok_outcome()]);
    let second = p.next_batch(&mut run).unwrap();
    assert_eq!(second.len(), 1);
    assert_eq!(second[0].id, "B");
    p.complete_batch(&mut run, &vec![ok_outcome()]);
    assert!(p.next_batch(&mut run).is_none());
    p.finish_schedule(&run, 80);
}

#[test]
fn cancellation_marks_undispatched_transactions_cancelled() {
    let p = processor();
    let cfg = DAGConfig { max_parallel_txs: 1, ..DAGConfig::default() };
    let mut p1 = DAGProcessor::new(cfg);
    let mut run = p1
        .begin_schedule(vec![tx("A", &[], 2), tx("B", &["A"], 1)])
        .unwrap();
    let first = p1.next_batch(&mut run).unwrap();
    assert_eq!(first[0].id, "A");
    // Cancel while A is in flight: A may finish, B must not start.
    p1.cancel(&mut run);
    p1.complete_batch(&mut run, &vec![ok_outcome()]);
    assert!(p1.next_batch(&mut run).is_none());
    p1.finish_schedule(&run, 30);
    assert_eq!(p1.query_status(&"A".to_string()), Some(DAGTxStatus::Confirmed));
    assert_eq!(p1.query_status(&"B".to_string()), Some(DAGTxStatus::Cancelled));
    // The untouched default processor still reports nothing for these ids.
    assert_eq!(p.query_status(&"A".to_string()), None);
}

#[test]
fn efficiency_ratio_follows_the_configured_baseline() {
    let mut agg = MetricsAggregator::new();
    // Four transactions at a 100 ms sequential baseline done in 200 ms:
    // a 2.0 speedup, in thousandths.
    agg.update(4, 3, 1, 200, 100);
    assert_eq!(agg.metrics.total_transactions, 4);
    assert_eq!(agg.metrics.successful_transactions, 3);
    assert_eq!(agg.metrics.failed_transactions, 1);
    assert_eq!(agg.metrics.dag_efficiency_milli, 2000);
    assert_eq!(agg.metrics.parallel_processing_ratio_milli, 2000);
    assert_eq!(agg.metrics.avg_confirmation_time_ms, 200);
    // A single-transaction run counts as exactly sequential.
    agg.update(1, 1, 0, 100, 100);
    assert_eq!(agg.metrics.total_transactions, 5);
    assert_eq!(agg.metrics.dag_efficiency_milli, 1000);
    assert_eq!(agg.metrics.parallel_processing_ratio_milli, 1000);
    assert_eq!(agg.metrics.avg_confirmation_time_ms, 150);
}

#[test]
fn efficiency_treats_instant_runs_as_one_millisecond() {
    assert_eq!(efficiency_milli(10, 100, 500), 2000);
    assert_eq!(efficiency_milli(1, 100, 0), 100000);
    assert_eq!(efficiency_milli(0, 100, 50), 0);
}

#[test]
fn priority_thresholds_match_the_confidence_bands() {
    assert_eq!(calculate_priority(1000), 100);
    assert_eq!(calculate_priority(901), 100);
    assert_eq!(calculate_priority(900), 80);
    assert_eq!(calculate_priority(701), 80);
    assert_eq!(calculate_priority(700), 60);
    assert_eq!(calculate_priority(501), 60);
    assert_eq!(calculate_priority(500), 40);
    assert_eq!(calculate_priority(0), 40);
}

#[test]
fn submit_threat_records_a_pending_transaction() {
    let mut p = processor();
    let id = p.submit_threat(vec![0xde, 0xad], 950, "node7".to_string(), Vec::new(), 500000);
    assert_eq!(id.len(), 36);
    assert_eq!(p.query_status(&id), Some(DAGTxStatus::Pending));
    let id2 = p.submit_threat(vec![0xbe, 0xef], 100, "node7".to_string(), Vec::new(), 500000);
    assert_ne!(id, id2);
}

#[test]
fn query_status_of_unknown_identifier_is_none() {
    let p = processor();
    assert_eq!(p.query_status(&"nope".to_string()), None);
}
