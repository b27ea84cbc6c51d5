//! Transaction data model: the unit of work handled by the scheduler,
//! its kind, and its status state machine.

use vstd::prelude::*;

verus! {

/// The closed set of transaction kinds. All kinds receive the same
/// scheduling treatment; kind-specific payload interpretation is the
/// submission collaborator's concern.
#[derive(Clone, Copy, Debug, PartialEq, Eq, Structural)]
pub enum DAGTxType {
    ThreatSubmission,
    NodeRegistration,
    RewardClaim,
    StakeUpdate,
    CrossChainRelay,
}

/// Transaction status. `Pending` is the initial state; `Confirmed`,
/// `Failed` and `Cancelled` are terminal.
#[derive(Clone, Copy, Debug, PartialEq, Eq, Structural)]
pub enum DAGTxStatus {
    Pending,
    Processing,
    Confirmed,
    Failed,
    Cancelled,
}

/// A transaction destined for the external ledger. The payload and the
/// gas estimate are opaque to the scheduler; `dependencies` lists the
/// identifiers that must be confirmed before this transaction may run.
#[derive(Clone, Debug)]
pub struct DAGTransaction {
    pub id: String,
    pub tx_type: DAGTxType,
    pub data: Vec<u8>,
    pub dependencies: Vec<String>,
    pub priority: u8,
    pub timestamp: u64,
    pub node_id: String,
    pub status: DAGTxStatus,
    pub gas_estimate: u64,
}

/// A structural error that aborts a scheduling call before any dispatch:
/// either the submission set contains a dependency cycle, or a declared
/// dependency names a transaction that is neither in the set nor already
/// confirmed. The carried identifier names an offender.
#[derive(Clone, Debug, PartialEq, Eq)]
pub enum SchedulerError {
    CyclicDependency { id: String },
    MissingDependency { id: String },
}

/// The character sequences of a list of identifiers.
pub open spec fn views_of_ids(s: Seq<String>) -> Seq<Seq<char>> {
    Seq::new(s.len(), |i: int| s[i]@)
}

/// Mathematical model of a transaction: every field as a plain value.
pub struct TxView {
    pub id: Seq<char>,
    pub tx_type: DAGTxType,
    pub data: Seq<u8>,
    pub dependencies: Seq<Seq<char>>,
    pub priority: u8,
    pub timestamp: u64,
    pub node_id: Seq<char>,
    pub status: DAGTxStatus,
    pub gas_estimate: u64,
}

impl View for DAGTransaction {
    type V = TxView;

    open spec fn view(&self) -> TxView {
        TxView {
            id: self.id@,
            tx_type: self.tx_type,
            data: self.data@,
            dependencies: views_of_ids(self.dependencies@),
            priority: self.priority,
            timestamp: self.timestamp,
            node_id: self.node_id@,
            status: self.status,
            gas_estimate: self.gas_estimate,
        }
    }
}

impl DAGTransaction {
    /// An explicit copy whose relation to the original is part of the
    /// contract (the derived `Clone` carries no specification).
    pub fn duplicate(&self) -> (t: DAGTransaction)
        ensures
            t@ == self@,
    {
        DAGTransaction {
            id: self.id.clone(),
            tx_type: self.tx_type,
            data: clone_bytes(&self.data),
            dependencies: clone_ids(&self.dependencies),
            priority: self.priority,
            timestamp: self.timestamp,
            node_id: self.node_id.clone(),
            status: self.status,
            gas_estimate: self.gas_estimate,
        }
    }

    /// The same transaction with another status.
    pub fn with_status(&self, status: DAGTxStatus) -> (t: DAGTransaction)
        ensures
            t@ == (TxView { status, ..self@ }),
    {
        let mut t = self.duplicate();
        t.status = status;
        t
    }
}

/// Whether a status is terminal: no transition may leave it.
pub open spec fn is_terminal(s: DAGTxStatus) -> bool {
    s is Confirmed || s is Failed || s is Cancelled
}

/// The status state machine: `Pending` may begin processing or be
/// cancelled before dispatch; `Processing` ends in `Confirmed` or
/// `Failed`. Transactions that were never dispatched are cancelled, not
/// failed, when a run is cut short.
pub open spec fn can_transition(from: DAGTxStatus, to: DAGTxStatus) -> bool {
    match from {
        DAGTxStatus::Pending => to is Processing || to is Cancelled,
        DAGTxStatus::Processing => to is Confirmed || to is Failed,
        _ => false,
    }
}

/// Byte-for-byte copy of a payload.
pub fn clone_bytes(v: &Vec<u8>) -> (r: Vec<u8>)
    ensures
        r@ == v@,
{
    let mut r: Vec<u8> = Vec::new();
    let mut i: usize = 0;
    while i < v.len()
        invariant
            i <= v.len(),
            r@ == v@.subrange(0, i as int),
        decreases v.len() - i,
    {
        r.push(v[i]);
        i = i + 1;
    }
    assert(r@ == v@);
    r
}

/// Element-for-element copy of a list of identifiers.
pub fn clone_ids(v: &Vec<String>) -> (r: Vec<String>)
    ensures
        views_of_ids(r@) == views_of_ids(v@),
{
    let mut r: Vec<String> = Vec::new();
    let mut i: usize = 0;
    while i < v.len()
        invariant
            i <= v.len(),
            r@.len() == i,
            forall|j: int| 0 <= j < i ==> #[trigger] r@[j]@ == v@[j]@,
        decreases v.len() - i,
    {
        r.push(v[i].clone());
        i = i + 1;
    }
    proof {
        assert forall|j: int| 0 <= j < r@.len() implies views_of_ids(r@)[j] == views_of_ids(v@)[j] by {
            assert(r@[j]@ == v@[j]@);
        }
        assert(views_of_ids(r@) =~= views_of_ids(v@));
    }
    r
}

} // verus!
