//! Topological ordering and batching behaviour.

use dagshield::{batch, can_process_parallel, order, DAGTransaction, DAGTxStatus, DAGTxType,
    SchedulerError};

fn tx(id: &str, deps: &[&str], priority: u8) -> DAGTransaction {
    DAGTransaction {
        id: id.to_string(),
        tx_type: DAGTxType::ThreatSubmission,
        data: Vec::new(),
        dependencies: deps.iter().map(|d| d.to_string()).collect(),
        priority,
        timestamp: 0,
        node_id: "node1".to_string(),
        status: DAGTxStatus::Pending,
        gas_estimate: 0,
    }
}

fn ids(txs: &[DAGTransaction]) -> Vec<String> {
    txs.iter().map(|t| t.id.clone()).collect()
}

#[test]
fn test_dag_transaction_sorting() {
    let tx1 = DAGTransaction {
        id: "tx1".to_string(),
        dependencies: vec![],
        priority: 80,
        tx_type: DAGTxType::ThreatSubmission,
        data: Vec::new(),
        timestamp: 0,
        node_id: "node1".to_string(),
        status: DAGTxStatus::Pending,
        gas_estimate: 0,
    };
    let tx2 = DAGTransaction {
        id: "tx2".to_string(),
        dependencies: vec!["tx1".to_string()],
        priority: 90,
        tx_type: DAGTxType::RewardClaim,
        data: Vec::new(),
        timestamp: 0,
        node_id: "node1".to_string(),
        status: DAGTxStatus::Pending,
        gas_estimate: 0,
    };
    let sorted = order(vec![tx2, tx1]).unwrap();
    assert_eq!(ids(&sorted), vec!["tx1".to_string(), "tx2".to_string()]);
}

#[test]
fn order_resolves_dependencies_before_dependents() {
    let input = vec![
        tx("c", &["b"], 10),
        tx("b", &["a"], 10),
        tx("a", &[], 10),
    ];
    let sorted = order(input).unwrap();
    assert_eq!(ids(&sorted), vec!["a".to_string(), "b".to_string(), "c".to_string()]);
}

#[test]
fn order_breaks_ties_by_priority_then_identifier() {
    // A and C are resolvable first; A goes before C by priority. B waits
    // for A and forms its own round.
    let input = vec![tx("B", &["A"], 90), tx("C", &[], 60), tx("A", &[], 80)];
    let sorted = order(input).unwrap();
    assert_eq!(ids(&sorted), vec!["A".to_string(), "C".to_string(), "B".to_string()]);
}

#[test]
fn order_breaks_equal_priorities_by_identifier() {
    let input = vec![tx("b", &[], 50), tx("a", &[], 50)];
    let sorted = order(input).unwrap();
    assert_eq!(ids(&sorted), vec!["a".to_string(), "b".to_string()]);
}

#[test]
fn order_of_empty_input_is_empty() {
    let sorted = order(Vec::new()).unwrap();
    assert!(sorted.is_empty());
}

#[test]
fn order_is_idempotent() {
    let build = || vec![tx("B", &["A"], 90), tx("C", &[], 60), tx("A", &[], 80), tx("D", &["C"], 5)];
    let first = order(build()).unwrap();
    let second = order(build()).unwrap();
    assert_eq!(ids(&first), ids(&second));
}

#[test]
fn order_rejects_two_cycle_naming_a_member() {
    let input = vec![tx("X", &["Y"], 10), tx("Y", &["X"], 10)];
    match order(input) {
        Err(SchedulerError::CyclicDependency { id }) => {
            assert!(id == "X" || id == "Y");
        }
        other => panic!("expected CyclicDependency, got {:?}", other),
    }
}

#[test]
fn order_rejects_three_cycle() {
    let input = vec![tx("p", &["r"], 1), tx("q", &["p"], 2), tx("r", &["q"], 3)];
    assert!(matches!(
        order(input),
        Err(SchedulerError::CyclicDependency { .. })
    ));
}

#[test]
fn batches_respect_parallelism_bound_and_dependencies() {
    let input = vec![
        tx("a", &[], 9),
        tx("b", &[], 8),
        tx("c", &[], 7),
        tx("d", &[], 6),
        tx("e", &[], 5),
    ];
    let sorted = order(input).unwrap();
    let batches = batch(&sorted, 2);
    let sizes: Vec<usize> = batches.iter().map(|b| b.len()).collect();
    assert_eq!(sizes, vec![2, 2, 1]);
    let flattened: Vec<String> = batches.iter().flat_map(|b| ids(b)).collect();
    assert_eq!(flattened, ids(&sorted));
    for b in &batches {
        for member in b {
            for other in b {
                if member.id != other.id {
                    assert!(!member.dependencies.contains(&other.id));
                }
            }
        }
    }
}

#[test]
fn batch_seals_on_intra_batch_dependency() {
    // Expected batches for the priority scenario: [A, C] then [B].
    let input = vec![tx("B", &["A"], 90), tx("C", &[], 60), tx("A", &[], 80)];
    let sorted = order(input).unwrap();
    let batches = batch(&sorted, 2);
    assert_eq!(batches.len(), 2);
    assert_eq!(ids(&batches[0]), vec!["A".to_string(), "C".to_string()]);
    assert_eq!(ids(&batches[1]), vec!["B".to_string()]);
}

#[test]
fn can_process_parallel_spots_dependencies() {
    let a = tx("a", &[], 1);
    let b = tx("b", &["a"], 1);
    let c = tx("c", &[], 1);
    let current = vec![a];
    assert!(!can_process_parallel(&b, &current));
    assert!(can_process_parallel(&c, &current));
}
