//! The experiment graph: every trial as a node with its parent, children,
//! hypothesis, status, outcome and gates, kept under its id.

use vstd::prelude::*;

use crate::clock::now_millis;
use crate::keyed::DeepClone;
use crate::acceptance::{verdict_is, AcceptanceCriterion, AcceptanceVerdict};
use crate::outcome::{
    better_or_equal, directional, is_nan_code, key_above, key_is_nan, key_ties, Metric, MetricDirection, TrialOutcome,
};
use crate::policy::{Gate, GateV};
use crate::text::{decimal, push_chars, push_str, seq_lt, str_lt, zero_pad, zero_padded};
use crate::textmap::TextMap;

verus! {

/// The id of an experiment node.
pub type ExperimentId = String;

/// What a trial is for: mapping new surface, refining the best, or checking
/// it against gates.
#[derive(Clone, Copy, Debug, PartialEq, Eq, PartialOrd, Ord, Hash, Structural)]
pub enum ResearchMode {
    Explore,
    Exploit,
    Validate,
}

impl Default for ResearchMode {
    fn default() -> (r: Self)
        ensures
            r == ResearchMode::Explore,
    {
        ResearchMode::Explore
    }
}

impl ResearchMode {
    /// The mode's name, as `{:?}` prints it.
    pub fn name(&self) -> (r: &'static str)
        ensures
            r@ == mode_name(*self),
    {
        match self {
            ResearchMode::Explore => "Explore",
            ResearchMode::Exploit => "Exploit",
            ResearchMode::Validate => "Validate",
        }
    }
}

/// The name of a mode, as `{:?}` prints it.
pub open spec fn mode_name(m: ResearchMode) -> Seq<char> {
    match m {
        ResearchMode::Explore => "Explore"@,
        ResearchMode::Exploit => "Exploit"@,
        ResearchMode::Validate => "Validate"@,
    }
}

/// Where an experiment node stands.
#[derive(Clone, Copy, Debug, PartialEq, Eq, Structural)]
pub enum ExperimentStatus {
    Root,
    Pending,
    Active,
    Evaluated,
    Committed,
    Discarded,
    Failed,
    Pruned,
}

/// The name of a status, as `{:?}` prints it.
pub open spec fn status_name(s: ExperimentStatus) -> Seq<char> {
    match s {
        ExperimentStatus::Root => "Root"@,
        ExperimentStatus::Pending => "Pending"@,
        ExperimentStatus::Active => "Active"@,
        ExperimentStatus::Evaluated => "Evaluated"@,
        ExperimentStatus::Committed => "Committed"@,
        ExperimentStatus::Discarded => "Discarded"@,
        ExperimentStatus::Failed => "Failed"@,
        ExperimentStatus::Pruned => "Pruned"@,
    }
}

/// Whether no child may be allocated under a node with status `s`.
pub open spec fn is_terminal(s: ExperimentStatus) -> bool {
    s == ExperimentStatus::Discarded || s == ExperimentStatus::Failed || s
        == ExperimentStatus::Pruned
}

impl ExperimentStatus {
    /// The status's name, as `{:?}` prints it.
    pub fn name(&self) -> (r: &'static str)
        ensures
            r@ == status_name(*self),
    {
        match self {
            ExperimentStatus::Root => "Root",
            ExperimentStatus::Pending => "Pending",
            ExperimentStatus::Active => "Active",
            ExperimentStatus::Evaluated => "Evaluated",
            ExperimentStatus::Committed => "Committed",
            ExperimentStatus::Discarded => "Discarded",
            ExperimentStatus::Failed => "Failed",
            ExperimentStatus::Pruned => "Pruned",
        }
    }
}

/// What a trial sets out to show.
#[derive(Debug, PartialEq, Eq)]
pub struct Hypothesis {
    pub statement: String,
    pub target: Option<String>,
    pub rationale: String,
    pub mode: ResearchMode,
}

impl Hypothesis {
    /// An exploring hypothesis with `statement`, no target and no rationale.
    pub fn new(statement: &str) -> (r: Self)
        ensures
            r.statement@ == statement@,
            r.target is None,
            r.rationale@ == Seq::<char>::empty(),
            r.mode == ResearchMode::Explore,
    {
        Hypothesis {
            statement: statement.to_owned(),
            target: None,
            rationale: String::new(),
            mode: ResearchMode::Explore,
        }
    }

    /// This hypothesis with its mode replaced.
    pub fn with_mode(self, mode: ResearchMode) -> (r: Self)
        ensures
            r == (Hypothesis { mode, ..self }),
    {
        Hypothesis { mode, ..self }
    }
}

/// One trial in the experiment graph.
#[derive(Debug)]
pub struct ExperimentNode {
    pub id: ExperimentId,
    pub parent: Option<ExperimentId>,
    pub children: Vec<ExperimentId>,
    pub status: ExperimentStatus,
    pub hypothesis: Hypothesis,
    /// The outcome's aggregate score (a score code, see `crate::outcome`).
    pub score: Option<i64>,
    pub outcome: Option<TrialOutcome>,
    pub gates: Vec<Gate>,
    pub branch: Option<String>,
    pub worktree: Option<String>,
    pub commit: Option<String>,
    pub notes: Vec<String>,
    pub pruned_reason: Option<String>,
    pub created_at_ms: u64,
    pub updated_at_ms: u64,
}

impl ExperimentNode {
    /// The mode of the node's hypothesis.
    pub fn mode(&self) -> (r: ResearchMode)
        ensures
            r == self.hypothesis.mode,
    {
        self.hypothesis.mode
    }
}

/// The lineage of a research run: nodes by id, starting from a synthetic root.
#[derive(Debug)]
pub struct ExperimentGraph {
    pub run_id: String,
    pub root: ExperimentId,
    /// The number the next allocated node id carries.
    pub next_id: u64,
    pub nodes: TextMap<ExperimentNode>,
    pub workspace_notes: Vec<String>,
}

/// Why a graph operation failed.
#[derive(Debug, PartialEq, Eq)]
pub enum GraphError {
    /// No node has this id.
    UnknownNode(String),
    /// The would-be parent is discarded, failed or pruned.
    TerminalParent { id: ExperimentId, status: ExperimentStatus },
    /// The node has no parent.
    MissingParent(ExperimentId),
}

/// The message of an error.
pub open spec fn graph_error_message(e: GraphError) -> Seq<char> {
    match e {
        GraphError::UnknownNode(id) => "unknown experiment node: "@ + id@,
        GraphError::TerminalParent { id, status } => "cannot allocate a child from terminal node "@
            + id@ + " ("@ + status_name(status) + ")"@,
        GraphError::MissingParent(id) => "node has no parent: "@ + id@,
    }
}

impl GraphError {
    /// The error's message.
    pub fn message(&self) -> (r: String)
        ensures
            r@ == graph_error_message(*self),
    {
        let mut out = String::new();
        match self {
            GraphError::UnknownNode(id) => {
                push_str(&mut out, "unknown experiment node: ");
                push_str(&mut out, id.as_str());
            },
            GraphError::TerminalParent { id, status } => {
                push_str(&mut out, "cannot allocate a child from terminal node ");
                push_str(&mut out, id.as_str());
                push_str(&mut out, " (");
                push_str(&mut out, status.name());
                push_str(&mut out, ")");
            },
            GraphError::MissingParent(id) => {
                push_str(&mut out, "node has no parent: ");
                push_str(&mut out, id.as_str());
            },
        }
        out
    }
}

/// Whether `r` failed because no node has id `id`.
pub open spec fn unknown_node<T>(r: Result<T, GraphError>, id: Seq<char>) -> bool {
    r matches Err(GraphError::UnknownNode(s)) && s@ == id
}

/// Whether `r` failed because the would-be parent `id` has the terminal
/// status `status`.
pub open spec fn terminal_error<T>(r: Result<T, GraphError>, id: Seq<char>, status: ExperimentStatus) -> bool {
    r matches Err(GraphError::TerminalParent { id: i, status: s }) && i@ == id && s == status
}

/// The id of the node numbered `n`: `exp_` and `n` in at least four digits.
pub open spec fn node_id_spec(n: u64) -> Seq<char> {
    "exp_"@ + zero_pad(decimal(n as nat), 4)
}

/// The branch of node `id` in run `run_id`.
pub open spec fn branch_spec(run_id: Seq<char>, id: Seq<char>) -> Seq<char> {
    "autoresearch/"@ + run_id + "/"@ + id
}

/// Whether `n` is a freshly made node with these fields, nothing else set.
pub open spec fn fresh_node(
    n: ExperimentNode,
    id: Seq<char>,
    status: ExperimentStatus,
    now: u64,
) -> bool {
    &&& n.id@ == id
    &&& n.children@.len() == 0
    &&& n.status == status
    &&& n.score is None
    &&& n.outcome is None
    &&& n.gates@.len() == 0
    &&& n.worktree is None
    &&& n.commit is None
    &&& n.notes@.len() == 0
    &&& n.pruned_reason is None
    &&& n.created_at_ms == now
    &&& n.updated_at_ms == now
}

/// Whether `n` is the synthetic root made at `now`.
pub open spec fn root_node_spec(n: ExperimentNode, now: u64) -> bool {
    &&& fresh_node(n, "root"@, ExperimentStatus::Root, now)
    &&& n.parent is None
    &&& n.branch is None
    &&& n.hypothesis.statement@ == "synthetic root"@
    &&& n.hypothesis.target is None
    &&& n.hypothesis.rationale@ == Seq::<char>::empty()
    &&& n.hypothesis.mode == ResearchMode::Explore
}

/// Whether `b` is `a` with its children's ids extended by `id`.
pub open spec fn with_child(b: ExperimentNode, a: ExperimentNode, id: Seq<char>) -> bool {
    &&& b.children.deep_view() == a.children.deep_view().push(id)
    &&& b == (ExperimentNode { children: b.children, ..a })
}

/// Whether `b` holds the same keys as `a`, with the same node under each but `id`.
pub open spec fn changed_only(
    a: Map<Seq<char>, ExperimentNode>,
    b: Map<Seq<char>, ExperimentNode>,
    id: Seq<char>,
) -> bool {
    &&& b.dom() == a.dom()
    &&& forall|k: Seq<char>| k != id && #[trigger] a.dom().contains(k) ==> b[k] == a[k]
}

/// Whether `o` holds text `t`.
pub open spec fn holds_text(o: Option<String>, t: Seq<char>) -> bool {
    o matches Some(c) && c@ == t
}

/// How many of the nodes under keys `ks` have the status named `name`.
pub open spec fn status_count(nodes: Map<Seq<char>, ExperimentNode>, ks: Seq<Seq<char>>, name: Seq<char>) -> nat
    decreases ks.len(),
{
    if ks.len() == 0 {
        0
    } else {
        status_count(nodes, ks.drop_last(), name) + if status_name(nodes[ks.last()].status) == name {
            1nat
        } else {
            0nat
        }
    }
}

/// A count over `ks` is at most the number of keys.
pub proof fn lemma_status_count_bound(nodes: Map<Seq<char>, ExperimentNode>, ks: Seq<Seq<char>>, name: Seq<char>)
    ensures
        status_count(nodes, ks, name) <= ks.len(),
    decreases ks.len(),
{
    if ks.len() > 0 {
        lemma_status_count_bound(nodes, ks.drop_last(), name);
    }
}

/// Whether `b` equals `a` in every field but the nodes.
pub open spec fn same_but_nodes(a: ExperimentGraph, b: ExperimentGraph) -> bool {
    &&& b.run_id == a.run_id
    &&& b.root == a.root
    &&& b.next_id == a.next_id
    &&& b.workspace_notes == a.workspace_notes
}

impl ExperimentGraph {
    /// A graph for run `run_id` holding only the synthetic root, made at `now`.
    pub fn new_at(run_id: &str, now: u64) -> (r: Self)
        ensures
            lineage_ok(r),
            r.run_id@ == run_id@,
            r.root@ == "root"@,
            r.next_id == 0,
            r.workspace_notes@.len() == 0,
            r.nodes@.dom() == set!["root"@],
            root_node_spec(r.nodes@["root"@], now),
    {
        let root = "root".to_owned();
        let node = ExperimentNode {
            id: root.clone(),
            parent: None,
            children: Vec::new(),
            status: ExperimentStatus::Root,
            hypothesis: Hypothesis::new("synthetic root"),
            score: None,
            outcome: None,
            gates: Vec::new(),
            branch: None,
            worktree: None,
            commit: None,
            notes: Vec::new(),
            pruned_reason: None,
            created_at_ms: now,
            updated_at_ms: now,
        };
        let mut nodes = TextMap::new();
        nodes.insert(root.clone(), node);
        assert(nodes@.dom() =~= set!["root"@]);
        let g = ExperimentGraph {
            run_id: run_id.to_owned(),
            root,
            next_id: 0,
            nodes,
            workspace_notes: Vec::new(),
        };
        proof {
            let rank = |k: Seq<char>| 0nat;
            assert(ranked(g.nodes@, rank));
        }
        g
    }

    /// A graph for run `run_id` holding only the synthetic root, made now.
    pub fn new(run_id: &str) -> (r: Self)
        ensures
            lineage_ok(r),
            r.run_id@ == run_id@,
            r.root@ == "root"@,
            r.next_id == 0,
            r.workspace_notes@.len() == 0,
            r.nodes@.dom() == set!["root"@],
            root_node_spec(r.nodes@["root"@], r.nodes@["root"@].created_at_ms),
    {
        Self::new_at(run_id, now_millis())
    }

    /// The node with id `id`.
    pub fn node(&self, id: &str) -> (r: Result<&ExperimentNode, GraphError>)
        ensures
            match r {
                Ok(n) => self.nodes@.dom().contains(id@) && *n == self.nodes@[id@],
                Err(_) => !self.nodes@.dom().contains(id@) && unknown_node(r, id@),
            },
    {
        match self.nodes.get(id) {
            Some(n) => Ok(n),
            None => Err(GraphError::UnknownNode(id.to_owned())),
        }
    }

    /// A mutable handle on the node with id `id`: every other node and field
    /// stays as it is, and `id` comes to hold what is left behind the handle.
    pub fn node_mut(&mut self, id: &str) -> (r: Result<&mut ExperimentNode, GraphError>)
        ensures
            same_but_nodes(*old(self), *final(self)),
            match r {
                Ok(n) => old(self).nodes@.dom().contains(id@) && *n == old(self).nodes@[id@]
                    && final(self).nodes@ == old(self).nodes@.insert(id@, *final(n)),
                Err(_) => !old(self).nodes@.dom().contains(id@) && unknown_node(r, id@)
                    && final(self).nodes@ == old(self).nodes@,
            },
    {
        match self.nodes.get_mut(id) {
            Some(n) => Ok(n),
            None => Err(GraphError::UnknownNode(id.to_owned())),
        }
    }

    /// Takes node `id` out of the graph.
    fn take_node(&mut self, id: &str) -> (r: Result<ExperimentNode, GraphError>)
        ensures
            same_but_nodes(*old(self), *final(self)),
            match r {
                Ok(n) => old(self).nodes@.dom().contains(id@) && n == old(self).nodes@[id@]
                    && final(self).nodes@ == old(self).nodes@.remove(id@),
                Err(_) => !old(self).nodes@.dom().contains(id@) && unknown_node(r, id@)
                    && final(self).nodes@ == old(self).nodes@,
            },
    {
        match self.nodes.remove(id) {
            Some(n) => Ok(n),
            None => {
                assert(self.nodes@ =~= old(self).nodes@);
                Err(GraphError::UnknownNode(id.to_owned()))
            },
        }
    }

    /// Sets the status of node `id`, stamping it with `now`.
    pub fn set_status_at(&mut self, id: &str, status: ExperimentStatus, now: u64) -> (r: Result<
        (),
        GraphError,
    >)
        ensures
            lineage_ok(*old(self)) ==> lineage_ok(*final(self)),
            same_but_nodes(*old(self), *final(self)),
            old(self).nodes@.dom().contains(id@) ==> r is Ok && final(self).nodes@ == old(
                self,
            ).nodes@.insert(
                id@,
                (ExperimentNode { status, updated_at_ms: now, ..old(self).nodes@[id@] }),
            ),
            !old(self).nodes@.dom().contains(id@) ==> unknown_node(r, id@) && final(self).nodes@
                == old(self).nodes@,
    {
        let mut node = self.take_node(id)?;
        node.status = status;
        node.updated_at_ms = now;
        self.nodes.insert(id.to_owned(), node);
        assert(self.nodes@ =~= old(self).nodes@.insert(
            id@,
            (ExperimentNode { status, updated_at_ms: now, ..old(self).nodes@[id@] }),
        ));
        proof {
            if lineage_ok(*old(self)) {
                assert forall|k: Seq<char>| #[trigger] old(self).nodes@.dom().contains(k) implies self.nodes@[k].parent
                    == old(self).nodes@[k].parent by {}
                lemma_parents_kept(*old(self), *self);
            }
        }
        Ok(())
    }

    /// Sets the status of node `id`, stamping it with the time now.
    pub fn set_status(&mut self, id: &str, status: ExperimentStatus) -> (r: Result<(), GraphError>)
        ensures
            lineage_ok(*old(self)) ==> lineage_ok(*final(self)),
            same_but_nodes(*old(self), *final(self)),
            old(self).nodes@.dom().contains(id@) ==> r is Ok && final(self).nodes@ == old(
                self,
            ).nodes@.insert(
                id@,
                (ExperimentNode {
                    status,
                    updated_at_ms: final(self).nodes@[id@].updated_at_ms,
                    ..old(self).nodes@[id@]
                }),
            ),
            !old(self).nodes@.dom().contains(id@) ==> unknown_node(r, id@) && final(self).nodes@
                == old(self).nodes@,
    {
        self.set_status_at(id, status, now_millis())
    }

    /// Records `outcome` on node `id`: its score becomes the node's score and
    /// the node becomes evaluated, stamped with `now`.
    pub fn record_outcome_at(&mut self, id: &str, outcome: TrialOutcome, now: u64) -> (r: Result<
        (),
        GraphError,
    >)
        ensures
            lineage_ok(*old(self)) ==> lineage_ok(*final(self)),
            same_but_nodes(*old(self), *final(self)),
            old(self).nodes@.dom().contains(id@) ==> r is Ok && final(self).nodes@ == old(
                self,
            ).nodes@.insert(
                id@,
                (ExperimentNode {
                    score: Some(outcome.score),
                    outcome: Some(outcome),
                    status: ExperimentStatus::Evaluated,
                    updated_at_ms: now,
                    ..old(self).nodes@[id@]
                }),
            ),
            !old(self).nodes@.dom().contains(id@) ==> unknown_node(r, id@) && final(self).nodes@
                == old(self).nodes@,
    {
        let mut node = self.take_node(id)?;
        node.score = Some(outcome.score);
        node.outcome = Some(outcome);
        node.status = ExperimentStatus::Evaluated;
        node.updated_at_ms = now;
        self.nodes.insert(id.to_owned(), node);
        proof {
            if lineage_ok(*old(self)) {
                assert forall|k: Seq<char>| #[trigger] old(self).nodes@.dom().contains(k) implies self.nodes@[k].parent
                    == old(self).nodes@[k].parent by {}
                lemma_parents_kept(*old(self), *self);
            }
        }
        Ok(())
    }

    /// Records `outcome` on node `id`, stamped with the time now.
    pub fn record_outcome(&mut self, id: &str, outcome: TrialOutcome) -> (r: Result<(), GraphError>)
        ensures
            lineage_ok(*old(self)) ==> lineage_ok(*final(self)),
            same_but_nodes(*old(self), *final(self)),
            old(self).nodes@.dom().contains(id@) ==> r is Ok && final(self).nodes@ == old(
                self,
            ).nodes@.insert(
                id@,
                (ExperimentNode {
                    score: Some(outcome.score),
                    outcome: Some(outcome),
                    status: ExperimentStatus::Evaluated,
                    updated_at_ms: final(self).nodes@[id@].updated_at_ms,
                    ..old(self).nodes@[id@]
                }),
            ),
            !old(self).nodes@.dom().contains(id@) ==> unknown_node(r, id@) && final(self).nodes@
                == old(self).nodes@,
    {
        self.record_outcome_at(id, outcome, now_millis())
    }

    /// Marks node `id` committed as `commit`, stamped with `now`.
    pub fn commit_at(&mut self, id: &str, commit: &str, now: u64) -> (r: Result<(), GraphError>)
        ensures
            lineage_ok(*old(self)) ==> lineage_ok(*final(self)),
            same_but_nodes(*old(self), *final(self)),
            old(self).nodes@.dom().contains(id@) ==> r is Ok && changed_only(
                old(self).nodes@,
                final(self).nodes@,
                id@,
            ) && final(self).nodes@[id@] == (ExperimentNode {
                commit: final(self).nodes@[id@].commit,
                status: ExperimentStatus::Committed,
                updated_at_ms: now,
                ..old(self).nodes@[id@]
            }) && holds_text(final(self).nodes@[id@].commit, commit@),
            !old(self).nodes@.dom().contains(id@) ==> unknown_node(r, id@) && final(self).nodes@
                == old(self).nodes@,
    {
        let mut node = self.take_node(id)?;
        node.commit = Some(commit.to_owned());
        node.status = ExperimentStatus::Committed;
        node.updated_at_ms = now;
        self.nodes.insert(id.to_owned(), node);
        assert(self.nodes@.dom() =~= old(self).nodes@.dom());
        proof {
            if lineage_ok(*old(self)) {
                assert forall|k: Seq<char>| #[trigger] old(self).nodes@.dom().contains(k) implies self.nodes@[k].parent
                    == old(self).nodes@[k].parent by {}
                lemma_parents_kept(*old(self), *self);
            }
        }
        Ok(())
    }

    /// Marks node `id` committed as `commit`, stamped with the time now.
    pub fn commit(&mut self, id: &str, commit: &str) -> (r: Result<(), GraphError>)
        ensures
            lineage_ok(*old(self)) ==> lineage_ok(*final(self)),
            same_but_nodes(*old(self), *final(self)),
            old(self).nodes@.dom().contains(id@) ==> r is Ok && changed_only(
                old(self).nodes@,
                final(self).nodes@,
                id@,
            ) && final(self).nodes@[id@] == (ExperimentNode {
                commit: final(self).nodes@[id@].commit,
                status: ExperimentStatus::Committed,
                updated_at_ms: final(self).nodes@[id@].updated_at_ms,
                ..old(self).nodes@[id@]
            }) && holds_text(final(self).nodes@[id@].commit, commit@),
            !old(self).nodes@.dom().contains(id@) ==> unknown_node(r, id@) && final(self).nodes@
                == old(self).nodes@,
    {
        self.commit_at(id, commit, now_millis())
    }

    /// Marks node `id` discarded for `reason`, stamped with `now`.
    pub fn discard_at(&mut self, id: &str, reason: &str, now: u64) -> (r: Result<(), GraphError>)
        ensures
            lineage_ok(*old(self)) ==> lineage_ok(*final(self)),
            same_but_nodes(*old(self), *final(self)),
            old(self).nodes@.dom().contains(id@) ==> r is Ok && changed_only(
                old(self).nodes@,
                final(self).nodes@,
                id@,
            ) && final(self).nodes@[id@] == (ExperimentNode {
                pruned_reason: final(self).nodes@[id@].pruned_reason,
                status: ExperimentStatus::Discarded,
                updated_at_ms: now,
                ..old(self).nodes@[id@]
            }) && holds_text(final(self).nodes@[id@].pruned_reason, reason@),
            !old(self).nodes@.dom().contains(id@) ==> unknown_node(r, id@) && final(self).nodes@
                == old(self).nodes@,
    {
        let mut node = self.take_node(id)?;
        node.status = ExperimentStatus::Discarded;
        node.pruned_reason = Some(reason.to_owned());
        node.updated_at_ms = now;
        self.nodes.insert(id.to_owned(), node);
        assert(self.nodes@.dom() =~= old(self).nodes@.dom());
        proof {
            if lineage_ok(*old(self)) {
                assert forall|k: Seq<char>| #[trigger] old(self).nodes@.dom().contains(k) implies self.nodes@[k].parent
                    == old(self).nodes@[k].parent by {}
                lemma_parents_kept(*old(self), *self);
            }
        }
        Ok(())
    }

    /// Marks node `id` discarded for `reason`, stamped with the time now.
    pub fn discard(&mut self, id: &str, reason: &str) -> (r: Result<(), GraphError>)
        ensures
            lineage_ok(*old(self)) ==> lineage_ok(*final(self)),
            same_but_nodes(*old(self), *final(self)),
            old(self).nodes@.dom().contains(id@) ==> r is Ok && changed_only(
                old(self).nodes@,
                final(self).nodes@,
                id@,
            ) && final(self).nodes@[id@] == (ExperimentNode {
                pruned_reason: final(self).nodes@[id@].pruned_reason,
                status: ExperimentStatus::Discarded,
                updated_at_ms: final(self).nodes@[id@].updated_at_ms,
                ..old(self).nodes@[id@]
            }) && holds_text(final(self).nodes@[id@].pruned_reason, reason@),
            !old(self).nodes@.dom().contains(id@) ==> unknown_node(r, id@) && final(self).nodes@
                == old(self).nodes@,
    {
        self.discard_at(id, reason, now_millis())
    }

    /// Adds `gate` to node `id`, stamped with `now`.
    pub fn add_gate_at(&mut self, id: &str, gate: Gate, now: u64) -> (r: Result<(), GraphError>)
        ensures
            lineage_ok(*old(self)) ==> lineage_ok(*final(self)),
            same_but_nodes(*old(self), *final(self)),
            old(self).nodes@.dom().contains(id@) ==> r is Ok && changed_only(
                old(self).nodes@,
                final(self).nodes@,
                id@,
            ) && final(self).nodes@[id@] == (ExperimentNode {
                gates: final(self).nodes@[id@].gates,
                updated_at_ms: now,
                ..old(self).nodes@[id@]
            }) && final(self).nodes@[id@].gates@ == old(self).nodes@[id@].gates@.push(gate),
            !old(self).nodes@.dom().contains(id@) ==> unknown_node(r, id@) && final(self).nodes@
                == old(self).nodes@,
    {
        let mut node = self.take_node(id)?;
        node.gates.push(gate);
        node.updated_at_ms = now;
        self.nodes.insert(id.to_owned(), node);
        assert(self.nodes@.dom() =~= old(self).nodes@.dom());
        proof {
            if lineage_ok(*old(self)) {
                assert forall|k: Seq<char>| #[trigger] old(self).nodes@.dom().contains(k) implies self.nodes@[k].parent
                    == old(self).nodes@[k].parent by {}
                lemma_parents_kept(*old(self), *self);
            }
        }
        Ok(())
    }

    /// Adds `gate` to node `id`, stamped with the time now.
    pub fn add_gate(&mut self, id: &str, gate: Gate) -> (r: Result<(), GraphError>)
        ensures
            lineage_ok(*old(self)) ==> lineage_ok(*final(self)),
            same_but_nodes(*old(self), *final(self)),
            old(self).nodes@.dom().contains(id@) ==> r is Ok && changed_only(
                old(self).nodes@,
                final(self).nodes@,
                id@,
            ) && final(self).nodes@[id@] == (ExperimentNode {
                gates: final(self).nodes@[id@].gates,
                updated_at_ms: final(self).nodes@[id@].updated_at_ms,
                ..old(self).nodes@[id@]
            }) && final(self).nodes@[id@].gates@ == old(self).nodes@[id@].gates@.push(gate),
            !old(self).nodes@.dom().contains(id@) ==> unknown_node(r, id@) && final(self).nodes@
                == old(self).nodes@,
    {
        self.add_gate_at(id, gate, now_millis())
    }
}


/// Whether `n` carries the fields of a node allocated as `id` under
/// `parent` in run `run_id` at `now` (its children aside).
pub open spec fn child_fields(
    n: ExperimentNode,
    id: Seq<char>,
    parent: Seq<char>,
    hypothesis: Hypothesis,
    run_id: Seq<char>,
    now: u64,
) -> bool {
    &&& n.id@ == id
    &&& holds_text(n.parent, parent)
    &&& n.status == ExperimentStatus::Pending
    &&& n.hypothesis == hypothesis
    &&& n.score is None
    &&& n.outcome is None
    &&& n.gates@.len() == 0
    &&& holds_text(n.branch, branch_spec(run_id, id))
    &&& n.worktree is None
    &&& n.commit is None
    &&& n.notes@.len() == 0
    &&& n.pruned_reason is None
    &&& n.created_at_ms == now
    &&& n.updated_at_ms == now
}

/// The walk from node `id` up through its parents, with at most `fuel`
/// steps up: the nodes from the top ancestor down to `id` (`Ok`), the first
/// id met that no node has (`Err`), or `None` when the fuel runs out.
pub open spec fn walk(nodes: Map<Seq<char>, ExperimentNode>, id: Seq<char>, fuel: nat) -> Option<
    Result<Seq<ExperimentNode>, Seq<char>>,
>
    decreases fuel,
{
    if !nodes.dom().contains(id) {
        Some(Err(id))
    } else {
        match nodes[id].parent {
            None => Some(Ok(seq![nodes[id]])),
            Some(p) => if fuel == 0 {
                None
            } else {
                extend(walk(nodes, p@, (fuel - 1) as nat), seq![nodes[id]])
            },
        }
    }
}

/// A walk result with `tail` appended to the nodes found.
pub open spec fn extend(
    w: Option<Result<Seq<ExperimentNode>, Seq<char>>>,
    tail: Seq<ExperimentNode>,
) -> Option<Result<Seq<ExperimentNode>, Seq<char>>> {
    match w {
        Some(Ok(s)) => Some(Ok(s + tail)),
        other => other,
    }
}

/// Whether the walk up from `id` ends: at a node without parent or at an
/// unknown id (it does not when the parents form a cycle).
pub open spec fn walk_ends(nodes: Map<Seq<char>, ExperimentNode>, id: Seq<char>) -> bool {
    exists|f: nat| #[trigger] walk(nodes, id, f) is Some
}

/// The fuel at which the walk up from `id` ends.
pub open spec fn walk_fuel(nodes: Map<Seq<char>, ExperimentNode>, id: Seq<char>) -> nat {
    choose|f: nat| #[trigger] walk(nodes, id, f) is Some
}

/// Where the walk up from `id` ends (see [`walk`]).
pub open spec fn path_spec(nodes: Map<Seq<char>, ExperimentNode>, id: Seq<char>) -> Result<
    Seq<ExperimentNode>,
    Seq<char>,
> {
    match walk(nodes, id, walk_fuel(nodes, id)) {
        Some(r) => r,
        None => Err(id),
    }
}

/// Whether the references in `v` point at the nodes of `s`, in order.
pub open spec fn refs_are(v: Seq<&ExperimentNode>, s: Seq<ExperimentNode>) -> bool {
    &&& v.len() == s.len()
    &&& forall|i: int| 0 <= i < s.len() ==> *v[i] == s[i]
}

/// The gates of the nodes of `path`, in order.
pub open spec fn all_gates(path: Seq<ExperimentNode>) -> Seq<GateV>
    decreases path.len(),
{
    if path.len() == 0 {
        Seq::empty()
    } else {
        all_gates(path.drop_last()) + path.last().gates.deep_view()
    }
}

/// Whether some gate of `gs` is named `name`.
pub open spec fn has_gate_named(gs: Seq<GateV>, name: Seq<char>) -> bool {
    exists|j: int| 0 <= j < gs.len() && #[trigger] gs[j].name == name
}

/// The gates of `gs`, each name kept at its first occurrence only.
pub open spec fn first_gates(gs: Seq<GateV>) -> Seq<GateV>
    decreases gs.len(),
{
    if gs.len() == 0 {
        Seq::empty()
    } else {
        let f = first_gates(gs.drop_last());
        if has_gate_named(f, gs.last().name) {
            f
        } else {
            f.push(gs.last())
        }
    }
}

impl ExperimentGraph {
    /// Allocates a pending child of `parent_id` with `hypothesis`, stamped
    /// with `now`: its id is `exp_` and the next number in four digits, its
    /// branch `autoresearch/<run>/<id>`, and it joins the parent's children.
    pub fn allocate_child_at(&mut self, parent_id: &str, hypothesis: Hypothesis, now: u64) -> (r:
        Result<String, GraphError>)
        requires
            old(self).next_id < u64::MAX,
        ensures
            lineage_ok(*old(self)) ==> lineage_ok(*final(self)),
            !old(self).nodes@.dom().contains(parent_id@) ==> unknown_node(r, parent_id@) && *final(self) == *old(self),
            old(self).nodes@.dom().contains(parent_id@) && is_terminal(
                old(self).nodes@[parent_id@].status,
            ) ==> *final(self) == *old(self) && terminal_error(
                r,
                parent_id@,
                old(self).nodes@[parent_id@].status,
            ),
            old(self).nodes@.dom().contains(parent_id@) && !is_terminal(
                old(self).nodes@[parent_id@].status,
            ) ==> r is Ok && Self::allocated(
                *old(self),
                *final(self),
                r->Ok_0@,
                parent_id@,
                hypothesis,
                now,
            ),
    {
        let ghost hyp = hypothesis;
        let parent_status = self.node(parent_id)?.status;
        match parent_status {
            ExperimentStatus::Discarded | ExperimentStatus::Failed | ExperimentStatus::Pruned => {
                return Err(GraphError::TerminalParent { id: parent_id.to_owned(), status: parent_status });
            },
            _ => {},
        }
        let digits = zero_padded(self.next_id, 4);
        let mut id = String::new();
        push_str(&mut id, "exp_");
        push_chars(&mut id, &digits);
        self.next_id = self.next_id + 1;
        let mut branch = String::new();
        push_str(&mut branch, "autoresearch/");
        push_str(&mut branch, self.run_id.as_str());
        push_str(&mut branch, "/");
        push_str(&mut branch, id.as_str());
        let node = ExperimentNode {
            id: id.clone(),
            parent: Some(parent_id.to_owned()),
            children: Vec::new(),
            status: ExperimentStatus::Pending,
            hypothesis,
            score: None,
            outcome: None,
            gates: Vec::new(),
            branch: Some(branch),
            worktree: None,
            commit: None,
            notes: Vec::new(),
            pruned_reason: None,
            created_at_ms: now,
            updated_at_ms: now,
        };
        self.nodes.insert(id.clone(), node);
        let ghost mid = self.nodes@;
        let mut parent = match self.take_node(parent_id) {
            Ok(n) => n,
            Err(e) => return Err(e),
        };
        let ghost before = parent;
        parent.children.push(id.clone());
        assert(parent.children.deep_view() =~= before.children.deep_view().push(id@));
        self.nodes.insert(parent_id.to_owned(), parent);
        assert(self.nodes@.dom() =~= old(self).nodes@.dom().insert(id@));
        proof {
            assert(with_child(self.nodes@[parent_id@], before, id@));
            if id@ == parent_id@ {
                assert(self.nodes@[parent_id@].children.deep_view() =~= seq![id@]);
            }
        }
        proof {
            if lineage_ok(*old(self)) {
                lemma_allocated_lineage(*old(self), *self, id@, parent_id@, hyp, now);
            }
        }
        Ok(id)
    }

    /// Whether `b` is `a` after allocating child `id` of `parent` with
    /// `hypothesis` at `now`.
    pub open spec fn allocated(
        a: ExperimentGraph,
        b: ExperimentGraph,
        id: Seq<char>,
        parent: Seq<char>,
        hypothesis: Hypothesis,
        now: u64,
    ) -> bool {
        &&& id == node_id_spec(a.next_id)
        &&& b.next_id == a.next_id + 1
        &&& b.run_id == a.run_id
        &&& b.root == a.root
        &&& b.workspace_notes == a.workspace_notes
        &&& b.nodes@.dom() == a.nodes@.dom().insert(id)
        &&& forall|k: Seq<char>|
            k != id && k != parent && #[trigger] a.nodes@.dom().contains(k) ==> b.nodes@[k]
                == a.nodes@[k]
        &&& id != parent ==> child_fields(b.nodes@[id], id, parent, hypothesis, a.run_id@, now)
            && b.nodes@[id].children@.len() == 0 && with_child(
            b.nodes@[parent],
            a.nodes@[parent],
            id,
        )
        &&& id == parent ==> child_fields(b.nodes@[id], id, parent, hypothesis, a.run_id@, now)
            && b.nodes@[id].children.deep_view() == seq![id]
    }

    /// Allocates a pending child of `parent_id`, stamped with the time now.
    pub fn allocate_child(&mut self, parent_id: &str, hypothesis: Hypothesis) -> (r: Result<
        String,
        GraphError,
    >)
        requires
            old(self).next_id < u64::MAX,
        ensures
            lineage_ok(*old(self)) ==> lineage_ok(*final(self)),
            !old(self).nodes@.dom().contains(parent_id@) ==> unknown_node(r, parent_id@) && *final(self) == *old(self),
            old(self).nodes@.dom().contains(parent_id@) && is_terminal(
                old(self).nodes@[parent_id@].status,
            ) ==> *final(self) == *old(self) && terminal_error(
                r,
                parent_id@,
                old(self).nodes@[parent_id@].status,
            ),
            old(self).nodes@.dom().contains(parent_id@) && !is_terminal(
                old(self).nodes@[parent_id@].status,
            ) ==> r is Ok && Self::allocated(
                *old(self),
                *final(self),
                r->Ok_0@,
                parent_id@,
                hypothesis,
                final(self).nodes@[r->Ok_0@].created_at_ms,
            ),
    {
        self.allocate_child_at(parent_id, hypothesis, now_millis())
    }
}

/// The references of `v` in reverse order.
fn reverse_refs<'a>(v: &Vec<&'a ExperimentNode>) -> (r: Vec<&'a ExperimentNode>)
    ensures
        r@.len() == v@.len(),
        forall|j: int| 0 <= j < v@.len() ==> r@[j] == v@[v@.len() - 1 - j],
{
    let mut out: Vec<&'a ExperimentNode> = Vec::new();
    let mut i: usize = v.len();
    while i > 0
        invariant
            i <= v@.len(),
            out@.len() == v@.len() - i,
            forall|j: int| 0 <= j < out@.len() ==> out@[j] == v@[v@.len() - 1 - j],
        decreases i,
    {
        i = i - 1;
        out.push(v[i]);
    }
    out
}

impl ExperimentGraph {
    /// Whether the walk up from `id` ends within as many steps as there are
    /// nodes (it always does unless parents form a cycle above `id`); where
    /// it says so, the walk ends.
    pub fn lineage_ends(&self, id: &str) -> (r: bool)
        ensures
            r ==> walk_ends(self.nodes@, id@),
    {
        let ghost nodes = self.nodes@;
        let fuel: usize = self.nodes.len();
        let mut steps: usize = 0;
        let mut cursor: String = id.to_owned();
        loop
            invariant
                nodes == self.nodes@,
                steps <= fuel,
                walk(nodes, cursor@, (fuel - steps) as nat) is Some ==> walk(nodes, id@, fuel as nat) is Some,
            decreases fuel - steps,
        {
            let node = match self.nodes.get(cursor.as_str()) {
                Some(n) => n,
                None => {
                    assert(walk(nodes, cursor@, (fuel - steps) as nat) is Some);
                    assert(walk(nodes, id@, fuel as nat) is Some);
                    return true;
                },
            };
            match &node.parent {
                None => {
                    assert(walk(nodes, cursor@, (fuel - steps) as nat) is Some);
                    assert(walk(nodes, id@, fuel as nat) is Some);
                    return true;
                },
                Some(p) => {
                    if steps == fuel {
                        return false;
                    }
                    proof {
                        let f = (fuel - steps) as nat;
                        assert(walk(nodes, cursor@, f) == extend(walk(nodes, p@, (f - 1) as nat), seq![*node]));
                    }
                    cursor = p.clone();
                    steps = steps + 1;
                },
            }
        }
    }

    /// The nodes from the top ancestor of `id` down to `id` itself, found by
    /// following parents; the first unknown id met is an error. The walk must
    /// end: parents must not form a cycle above `id`.
    pub fn path_to_root(&self, id: &str) -> (r: Result<Vec<&ExperimentNode>, GraphError>)
        requires
            walk_ends(self.nodes@, id@),
        ensures
            match path_spec(self.nodes@, id@) {
                Ok(s) => r matches Ok(v) && refs_are(v@, s),
                Err(k) => unknown_node(r, k),
            },
    {
        let ghost nodes = self.nodes@;
        let ghost total: nat = walk_fuel(nodes, id@);
        let ghost mut fuel: nat = total;
        let ghost mut tail: Seq<ExperimentNode> = Seq::empty();
        let mut acc: Vec<&ExperimentNode> = Vec::new();
        let mut cursor: String = id.to_owned();
        loop
            invariant
                nodes == self.nodes@,
                total == walk_fuel(nodes, id@),
                walk(nodes, id@, total) is Some,
                walk(nodes, id@, total) == extend(walk(nodes, cursor@, fuel), tail),
                walk(nodes, cursor@, fuel) is Some,
                acc@.len() == tail.len(),
                forall|i: int| 0 <= i < tail.len() ==> *acc@[i] == tail[tail.len() - 1 - i],
            decreases fuel,
        {
            let node = match self.nodes.get(cursor.as_str()) {
                Some(n) => n,
                None => {
                    proof {
                        assert(walk(nodes, cursor@, fuel) == Some(
                            Err::<Seq<ExperimentNode>, Seq<char>>(cursor@),
                        ));
                    }
                    return Err(GraphError::UnknownNode(cursor));
                },
            };
            acc.push(node);
            let ghost t2 = seq![*node] + tail;
            match &node.parent {
                None => {
                    proof {
                        assert(walk(nodes, cursor@, fuel) == Some(
                            Ok::<Seq<ExperimentNode>, Seq<char>>(seq![*node]),
                        ));
                        assert(walk(nodes, id@, total) == Some(
                            Ok::<Seq<ExperimentNode>, Seq<char>>(t2),
                        ));
                    }
                    let out = reverse_refs(&acc);
                    proof {
                        assert forall|j: int| 0 <= j < t2.len() implies *out@[j] == t2[j] by {
                            if j == 0 {
                            } else {
                                assert(t2[j] == tail[j - 1]);
                            }
                        }
                    }
                    return Ok(out);
                },
                Some(p) => {
                    proof {
                        let w = walk(nodes, p@, (fuel - 1) as nat);
                        assert(walk(nodes, cursor@, fuel) == extend(w, seq![*node]));
                        match w {
                            Some(Ok(s0)) => {
                                assert(s0 + seq![*node] + tail =~= s0 + t2);
                            },
                            _ => {},
                        }
                        fuel = (fuel - 1) as nat;
                        tail = t2;
                    }
                    cursor = p.clone();
                },
            }
        }
    }

    /// The gates in force at node `id`: those of every node from the top
    /// ancestor down to `id`, a name kept only where it first appears.
    pub fn effective_gates(&self, id: &str) -> (r: Result<Vec<Gate>, GraphError>)
        requires
            walk_ends(self.nodes@, id@),
        ensures
            match path_spec(self.nodes@, id@) {
                Ok(s) => r matches Ok(g) && g.deep_view() == first_gates(all_gates(s)),
                Err(k) => unknown_node(r, k),
            },
    {
        let path = self.path_to_root(id)?;
        let ghost s = match path_spec(self.nodes@, id@) {
            Ok(s) => s,
            Err(_) => Seq::empty(),
        };
        let mut gates: Vec<Gate> = Vec::new();
        let mut i: usize = 0;
        while i < path.len()
            invariant
                i <= path@.len(),
                refs_are(path@, s),
                gates.deep_view() == first_gates(all_gates(s.take(i as int))),
            decreases path@.len() - i,
        {
            let node = path[i];
            let ghost before = all_gates(s.take(i as int));
            assert(s.take(i + 1).drop_last() =~= s.take(i as int));
            let mut j: usize = 0;
            while j < node.gates.len()
                invariant
                    i < path@.len(),
                    refs_are(path@, s),
                    *node == s[i as int],
                    j <= node.gates@.len(),
                    gates.deep_view() == first_gates(
                        before + node.gates.deep_view().take(j as int),
                    ),
                decreases node.gates@.len() - j,
            {
                let gate = &node.gates[j];
                let ghost cur = before + node.gates.deep_view().take(j as int);
                let ghost next = before + node.gates.deep_view().take(j + 1);
                assert(next.drop_last() =~= cur);
                assert(next.last() == gate.deep_view());
                let mut seen = false;
                let mut k: usize = 0;
                while k < gates.len()
                    invariant
                        k <= gates@.len(),
                        seen == exists|m: int| 0 <= m < k && #[trigger] gates.deep_view()[m].name
                            == gate.name@,
                    decreases gates@.len() - k,
                {
                    if crate::text::str_eq(gates[k].name.as_str(), gate.name.as_str()) {
                        assert(gates.deep_view()[k as int].name == gate.name@);
                        seen = true;
                    }
                    k = k + 1;
                }
                if !seen {
                    let ghost prev = gates.deep_view();
                    gates.push(gate.deep_clone());
                    assert(gates.deep_view() =~= prev.push(gate.deep_view()));
                }
                j = j + 1;
            }
            assert(node.gates.deep_view().take(node.gates@.len() as int) =~= node.gates.deep_view());
            i = i + 1;
        }
        assert(s.take(s.len() as int) =~= s);
        Ok(gates)
    }
}

/// The nodes of `nodes` in ascending id order.
pub open spec fn nodes_in_order(nodes: TextMap<ExperimentNode>) -> Seq<ExperimentNode> {
    Seq::new(nodes.keys().len(), |i: int| nodes@[nodes.keys()[i]])
}

/// Whether node `n` has a recorded outcome (discarded ones included).
pub open spec fn is_evaluated(n: ExperimentNode) -> bool {
    n.outcome is Some
}

/// Whether a node with status `s` still carries its lineage forward.
pub open spec fn is_live(s: ExperimentStatus) -> bool {
    s == ExperimentStatus::Active || s == ExperimentStatus::Committed
}

/// Whether some child listed by `n` is a node of `nodes` that is active or
/// committed.
pub open spec fn has_live_child(nodes: Map<Seq<char>, ExperimentNode>, n: ExperimentNode) -> bool {
    exists|j: int|
        0 <= j < n.children@.len() && nodes.dom().contains(#[trigger] n.children@[j]@) && is_live(
            nodes[n.children@[j]@].status,
        )
}

/// Whether `n` is a frontier tip: the root or a committed node with no live
/// child.
pub open spec fn is_frontier(nodes: Map<Seq<char>, ExperimentNode>, n: ExperimentNode) -> bool {
    (n.status == ExperimentStatus::Root || n.status == ExperimentStatus::Committed)
        && !has_live_child(nodes, n)
}

/// The frontier tips of `nodes`, in key order.
pub open spec fn tips(nodes: TextMap<ExperimentNode>) -> Seq<ExperimentNode> {
    nodes_in_order(nodes).filter(|n: ExperimentNode| is_frontier(nodes@, n))
}

/// The frontier tips are exactly the nodes of the graph that are the root
/// or committed and have no active or committed child: every tip listed is
/// such a node of the graph, and every such node is listed.
pub proof fn lemma_frontier_tips(nodes: TextMap<ExperimentNode>)
    ensures
        forall|i: int|
            0 <= i < tips(nodes).len() ==> is_frontier(nodes@, #[trigger] tips(nodes)[i]) && exists|k: Seq<char>|
                #[trigger] nodes@.dom().contains(k) && nodes@[k] == tips(nodes)[i],
        forall|k: Seq<char>|
            #[trigger] nodes@.dom().contains(k) && is_frontier(nodes@, nodes@[k]) ==> tips(nodes).contains(nodes@[k]),
{
    broadcast use vstd::seq_lib::group_filter_ensures;
    let all = nodes_in_order(nodes);
    let pred = |n: ExperimentNode| is_frontier(nodes@, n);
    let f = all.filter(pred);
    assert forall|i: int| 0 <= i < f.len() implies is_frontier(nodes@, #[trigger] f[i]) && exists|k: Seq<char>|
        #[trigger] nodes@.dom().contains(k) && nodes@[k] == f[i] by {
        assert(pred(f[i]));
        assert(f.contains(f[i]));
        all.lemma_filter_contains_rev(pred, f[i]);
        assert(all.contains(f[i]));
        let j = choose|j: int| 0 <= j < all.len() && all[j] == f[i];
        assert(nodes@.dom().contains(nodes.keys()[j]));
    }
    assert forall|k: Seq<char>| #[trigger] nodes@.dom().contains(k) && is_frontier(nodes@, nodes@[k]) implies f.contains(
        nodes@[k],
    ) by {
        let j = choose|j: int| 0 <= j < nodes.keys().len() && nodes.keys()[j] == k;
        assert(all[j] == nodes@[k]);
        assert(pred(all[j]));
    }
}

/// A node of the graph is a frontier tip exactly when it is the root or
/// committed and none of its children in the graph is active or committed:
/// a child that is pending, evaluated, discarded, failed or pruned does not
/// carry the lineage on, so a committed node whose only children were
/// discarded stays a tip.
pub proof fn lemma_frontier_tip_children(nodes: TextMap<ExperimentNode>, k: Seq<char>)
    requires
        nodes@.dom().contains(k),
    ensures
        tips(nodes).contains(nodes@[k]) <==> {
            &&& (nodes@[k].status == ExperimentStatus::Root || nodes@[k].status
                == ExperimentStatus::Committed)
            &&& forall|j: int|
                0 <= j < nodes@[k].children@.len() && nodes@.dom().contains(
                    #[trigger] nodes@[k].children@[j]@,
                ) ==> nodes@[nodes@[k].children@[j]@].status != ExperimentStatus::Active
                    && nodes@[nodes@[k].children@[j]@].status != ExperimentStatus::Committed
        },
{
    lemma_frontier_tips(nodes);
    let n = nodes@[k];
    if tips(nodes).contains(n) {
        let i = choose|i: int| 0 <= i < tips(nodes).len() && tips(nodes)[i] == n;
        assert(is_frontier(nodes@, tips(nodes)[i]));
    }
}

/// Whether `n` is committed with a score.
pub open spec fn is_scored_commit(n: ExperimentNode) -> bool {
    n.status == ExperimentStatus::Committed && n.score is Some
}

/// Whether `a` ranks above `b` under direction `d`: a higher oriented score,
/// or an equal one and a smaller id.
pub open spec fn ranks_above(d: MetricDirection, a: ExperimentNode, b: ExperimentNode) -> bool {
    let da = directional(d, a.score->0 as int);
    let db = directional(d, b.score->0 as int);
    key_above(da, db) || (key_ties(da, db) && seq_lt(a.id@, b.id@))
}

/// The best of the nodes `s` under `d`, scanning in order and letting a
/// later node take over unless the one held ranks above it.
pub open spec fn pick_best(d: MetricDirection, s: Seq<ExperimentNode>) -> Option<ExperimentNode>
    decreases s.len(),
{
    if s.len() == 0 {
        None
    } else {
        match pick_best(d, s.drop_last()) {
            None => Some(s.last()),
            Some(b) => if ranks_above(d, b, s.last()) {
                Some(b)
            } else {
                Some(s.last())
            },
        }
    }
}

/// Whether `r` refers to the node that `o` holds (and is `None` with it).
pub open spec fn ref_is(r: Option<&ExperimentNode>, o: Option<ExperimentNode>) -> bool {
    match r {
        Some(x) => o == Some(*x),
        None => o is None,
    }
}

impl ExperimentGraph {
    /// Whether node `id`'s score is at least as good as its parent's under
    /// `metric`: false without a score of its own, true when the parent has
    /// none, an error when `id` or its parent is unknown or `id` has no
    /// parent.
    pub fn outcome_improves_parent(&self, id: &str, metric: &Metric) -> (r: Result<bool, GraphError>)
        ensures
            !self.nodes@.dom().contains(id@) ==> unknown_node(r, id@),
            self.nodes@.dom().contains(id@) ==> ({
                let n = self.nodes@[id@];
                match n.score {
                    None => r == Ok::<bool, GraphError>(false),
                    Some(c) => match n.parent {
                        None => r matches Err(GraphError::MissingParent(x)) && x@ == id@,
                        Some(p) => if !self.nodes@.dom().contains(p@) {
                            unknown_node(r, p@)
                        } else {
                            r == Ok::<bool, GraphError>(
                                match self.nodes@[p@].score {
                                    Some(ps) => better_or_equal(metric.direction, c as int, ps as int),
                                    None => true,
                                },
                            )
                        },
                    },
                }
            }),
    {
        let node = self.node(id)?;
        let candidate = match node.score {
            Some(c) => c,
            None => return Ok(false),
        };
        let parent_id = match &node.parent {
            Some(p) => p,
            None => return Err(GraphError::MissingParent(id.to_owned())),
        };
        let parent_score = self.node(parent_id.as_str())?.score;
        Ok(
            match parent_score {
                Some(parent) => metric.direction.is_better_or_equal(candidate, parent),
                None => true,
            },
        )
    }

    /// The verdict of `criterion` on node `id` against its parent: an error
    /// when `id` or its parent is unknown or `id` has no parent; a rejection
    /// when `id` has no score; else [`AcceptanceCriterion::should_accept`]
    /// on the two scores, `render` printing them.
    pub fn acceptance_verdict<F: Fn(i64) -> String>(
        &self,
        id: &str,
        metric: &Metric,
        criterion: AcceptanceCriterion,
        render: &F,
    ) -> (r: Result<AcceptanceVerdict, GraphError>)
        requires
            forall|x: i64| render.requires((x,)),
        ensures
            !self.nodes@.dom().contains(id@) ==> unknown_node(r, id@),
            self.nodes@.dom().contains(id@) ==> ({
                let n = self.nodes@[id@];
                match n.parent {
                    None => r matches Err(GraphError::MissingParent(x)) && x@ == id@,
                    Some(p) => if !self.nodes@.dom().contains(p@) {
                        unknown_node(r, p@)
                    } else {
                        r matches Ok(v) && match n.score {
                            None => !v.accepted && v.reason@ == "no score to judge"@,
                            Some(c) => verdict_is(criterion, c, self.nodes@[p@].score, *metric, *render, v),
                        }
                    },
                }
            }),
    {
        let node = self.node(id)?;
        let parent_id = match &node.parent {
            Some(p) => p,
            None => return Err(GraphError::MissingParent(id.to_owned())),
        };
        let parent = self.node(parent_id.as_str())?;
        match node.score {
            None => Ok(AcceptanceVerdict { accepted: false, reason: "no score to judge".to_owned() }),
            Some(c) => Ok(criterion.should_accept(c, parent.score, metric, render)),
        }
    }

    /// The nodes with a recorded outcome, discarded ones included, in id
    /// order: the pool a Pareto frontier is computed over.
    pub fn evaluated_pool(&self) -> (r: Vec<&ExperimentNode>)
        ensures
            refs_are(r@, nodes_in_order(self.nodes).filter(|n: ExperimentNode| is_evaluated(n))),
    {
        let ghost all = nodes_in_order(self.nodes);
        let ghost pred = |n: ExperimentNode| is_evaluated(n);
        let mut out: Vec<&ExperimentNode> = Vec::new();
        let mut i: usize = 0;
        while i < self.nodes.len()
            invariant
                i <= all.len(),
                all == nodes_in_order(self.nodes),
                pred == (|n: ExperimentNode| is_evaluated(n)),
                refs_are(out@, all.take(i as int).filter(pred)),
            decreases all.len() - i,
        {
            let n = self.nodes.value_at(i);
            assert(all.take(i + 1) =~= all.take(i as int).push(*n));
            proof {
                all.take(i as int).lemma_filter_push(*n, pred);
            }
            if n.outcome.is_some() {
                out.push(n);
            }
            i = i + 1;
        }
        assert(all.take(all.len() as int) =~= all);
        out
    }

    /// How many nodes there are of each status, by the status's name.
    pub fn status_counts(&self) -> (r: TextMap<usize>)
        ensures
            forall|name: Seq<char>| #[trigger] r@.dom().contains(name) <==> status_count(
                self.nodes@,
                self.nodes.keys(),
                name,
            ) > 0,
            forall|name: Seq<char>| #[trigger] r@.dom().contains(name) ==> r@[name] == status_count(
                self.nodes@,
                self.nodes.keys(),
                name,
            ),
    {
        let ghost ks = self.nodes.keys();
        let mut counts: TextMap<usize> = TextMap::new();
        let mut i: usize = 0;
        while i < self.nodes.len()
            invariant
                i <= ks.len(),
                ks == self.nodes.keys(),
                forall|name: Seq<char>| #[trigger] counts@.dom().contains(name) <==> status_count(
                    self.nodes@,
                    ks.take(i as int),
                    name,
                ) > 0,
                forall|name: Seq<char>| #[trigger] counts@.dom().contains(name) ==> counts@[name] == status_count(
                    self.nodes@,
                    ks.take(i as int),
                    name,
                ),
            decreases ks.len() - i,
        {
            let name = self.nodes.value_at(i).status.name();
            proof {
                assert(ks.take(i + 1).drop_last() =~= ks.take(i as int));
                lemma_status_count_bound(self.nodes@, ks.take(i as int), name@);
            }
            let c: usize = match counts.get(name) {
                Some(c) => *c,
                None => 0,
            };
            counts.insert(name.to_owned(), c + 1);
            proof {
                assert forall|nm: Seq<char>| #[trigger] counts@.dom().contains(nm) <==> status_count(
                    self.nodes@,
                    ks.take(i + 1),
                    nm,
                ) > 0 by {
                    assert(ks.take(i + 1).last() == ks[i as int]);
                }
                assert forall|nm: Seq<char>| #[trigger] counts@.dom().contains(nm) implies counts@[nm] == status_count(
                    self.nodes@,
                    ks.take(i + 1),
                    nm,
                ) by {
                    assert(ks.take(i + 1).last() == ks[i as int]);
                }
            }
            i = i + 1;
        }
        assert(ks.take(ks.len() as int) =~= ks);
        counts
    }

    /// The frontier tips, in id order: the root and the committed nodes, each
    /// unless one of its children is an active or committed node.
    pub fn frontier_nodes(&self) -> (r: Vec<&ExperimentNode>)
        ensures
            refs_are(
                r@,
                nodes_in_order(self.nodes).filter(|n: ExperimentNode| is_frontier(self.nodes@, n)),
            ),
    {
        let ghost all = nodes_in_order(self.nodes);
        let ghost pred = |n: ExperimentNode| is_frontier(self.nodes@, n);
        let mut out: Vec<&ExperimentNode> = Vec::new();
        let mut i: usize = 0;
        while i < self.nodes.len()
            invariant
                i <= all.len(),
                all == nodes_in_order(self.nodes),
                pred == (|n: ExperimentNode| is_frontier(self.nodes@, n)),
                refs_are(out@, all.take(i as int).filter(pred)),
            decreases all.len() - i,
        {
            let n = self.nodes.value_at(i);
            assert(all.take(i + 1) =~= all.take(i as int).push(*n));
            proof {
                all.take(i as int).lemma_filter_push(*n, pred);
            }
            let tip = match n.status {
                ExperimentStatus::Root | ExperimentStatus::Committed => true,
                _ => false,
            };
            if tip {
                let mut live = false;
                let mut j: usize = 0;
                while j < n.children.len()
                    invariant
                        j <= n.children@.len(),
                        live == exists|m: int|
                            0 <= m < j && self.nodes@.dom().contains(#[trigger] n.children@[m]@)
                                && is_live(self.nodes@[n.children@[m]@].status),
                    decreases n.children@.len() - j,
                {
                    match self.nodes.get(n.children[j].as_str()) {
                        Some(c) => {
                            let l = match c.status {
                                ExperimentStatus::Active | ExperimentStatus::Committed => true,
                                _ => false,
                            };
                            if l {
                                live = true;
                            }
                        },
                        None => {},
                    }
                    j = j + 1;
                }
                if !live {
                    out.push(n);
                }
            }
            i = i + 1;
        }
        assert(all.take(all.len() as int) =~= all);
        out
    }

    /// The best committed node with a score under `metric`: the highest
    /// oriented score, then the smallest id.
    pub fn best_committed(&self, metric: &Metric) -> (r: Option<&ExperimentNode>)
        ensures
            ref_is(
                r,
                pick_best(
                    metric.direction,
                    nodes_in_order(self.nodes).filter(|n: ExperimentNode| is_scored_commit(n)),
                ),
            ),
    {
        let ghost all = nodes_in_order(self.nodes);
        let ghost pred = |n: ExperimentNode| is_scored_commit(n);
        let d = metric.direction;
        let mut best: Option<&ExperimentNode> = None;
        let mut i: usize = 0;
        while i < self.nodes.len()
            invariant
                i <= all.len(),
                all == nodes_in_order(self.nodes),
                pred == (|n: ExperimentNode| is_scored_commit(n)),
                d == metric.direction,
                ref_is(best, pick_best(d, all.take(i as int).filter(pred))),
                best matches Some(b) ==> is_scored_commit(*b),
            decreases all.len() - i,
        {
            let n = self.nodes.value_at(i);
            assert(all.take(i + 1) =~= all.take(i as int).push(*n));
            proof {
                all.take(i as int).lemma_filter_push(*n, pred);
            }
            let committed = match n.status {
                ExperimentStatus::Committed => true,
                _ => false,
            };
            if committed && n.score.is_some() {
                let ghost prev = all.take(i as int).filter(pred);
                assert(prev.push(*n).drop_last() =~= prev);
                match best {
                    None => {
                        best = Some(n);
                    },
                    Some(b) => {
                        let db = d.directional_score(b.score.unwrap());
                        let dn = d.directional_score(n.score.unwrap());
                        let nan = key_is_nan(db) || key_is_nan(dn);
                        let keep = (!nan && db > dn) || ((nan || db == dn) && str_lt(b.id.as_str(), n.id.as_str()));
                        if !keep {
                            best = Some(n);
                        }
                    },
                }
            }
            i = i + 1;
        }
        assert(all.take(all.len() as int) =~= all);
        best
    }
}

/// Whether no two gates of `gs` share a name.
pub open spec fn names_distinct(gs: Seq<GateV>) -> bool {
    forall|i: int, j: int| 0 <= i < j < gs.len() ==> #[trigger] gs[i].name != #[trigger] gs[j].name
}

/// Inherited gates are deduplicated by name: the gates kept from `gs` never
/// repeat a name, every name of `gs` is kept, and each kept gate is the first
/// of `gs` with its name.
pub proof fn lemma_first_gates_dedup(gs: Seq<GateV>)
    ensures
        names_distinct(first_gates(gs)),
        forall|k: int| 0 <= k < gs.len() ==> has_gate_named(first_gates(gs), #[trigger] gs[k].name),
        forall|m: int| 0 <= m < first_gates(gs).len() ==> exists|k: int|
            0 <= k < gs.len() && gs[k] == #[trigger] first_gates(gs)[m] && forall|x: int|
                0 <= x < k ==> #[trigger] gs[x].name != gs[k].name,
    decreases gs.len(),
{
    if gs.len() > 0 {
        let init = gs.drop_last();
        lemma_first_gates_dedup(init);
        let f = first_gates(init);
        let r = first_gates(gs);
        assert forall|k: int| 0 <= k < gs.len() implies has_gate_named(r, #[trigger] gs[k].name) by {
            if k < gs.len() - 1 {
                assert(init[k] == gs[k]);
                assert(has_gate_named(f, init[k].name));
                let j = choose|j: int| 0 <= j < f.len() && #[trigger] f[j].name == init[k].name;
                assert(r[j] == f[j]);
            } else if !has_gate_named(f, gs.last().name) {
                assert(r[f.len() as int] == gs.last());
            }
        }
        assert forall|m: int| 0 <= m < r.len() implies exists|k: int|
            0 <= k < gs.len() && gs[k] == #[trigger] r[m] && forall|x: int|
                0 <= x < k ==> #[trigger] gs[x].name != gs[k].name by {
            if m < f.len() {
                let k = choose|k: int|
                    0 <= k < init.len() && init[k] == #[trigger] f[m] && forall|x: int|
                        0 <= x < k ==> #[trigger] init[x].name != init[k].name;
                assert(gs[k] == r[m]);
                assert forall|x: int| 0 <= x < k implies #[trigger] gs[x].name != gs[k].name by {
                    assert(init[x] == gs[x]);
                }
            } else {
                let k = gs.len() - 1;
                assert(r[m] == gs[k]);
                assert forall|x: int| 0 <= x < k implies #[trigger] gs[x].name != gs[k].name by {
                    assert(init[x] == gs[x]);
                    if gs[x].name == gs[k].name {
                        assert(has_gate_named(f, init[x].name));
                    }
                }
            }
        }
    }
}


/// Whether `rank` orders the lineage of `nodes`: the parent of every node is
/// a node of the graph, ranked below it.
pub open spec fn ranked(nodes: Map<Seq<char>, ExperimentNode>, rank: spec_fn(Seq<char>) -> nat) -> bool {
    forall|k: Seq<char>|
        #[trigger] nodes.dom().contains(k) && nodes[k].parent is Some ==> nodes.dom().contains(
            nodes[k].parent->0@,
        ) && rank(nodes[k].parent->0@) < rank(k)
}

/// Whether every id of `g` is the root's or one minted before `next_id`.
pub open spec fn minted(g: ExperimentGraph) -> bool {
    forall|k: Seq<char>|
        #[trigger] g.nodes@.dom().contains(k) ==> k == "root"@ || exists|m: u64|
            m < g.next_id && k == #[trigger] node_id_spec(m)
}

/// Whether the lineage of `g` is sound: every parent is a node of the graph,
/// the parents never loop, and ids are the root's or minted before `next_id`
/// (so the next minted id is fresh).
pub open spec fn lineage_ok(g: ExperimentGraph) -> bool {
    &&& exists|rank: spec_fn(Seq<char>) -> nat| #[trigger] ranked(g.nodes@, rank)
    &&& minted(g)
}

/// A walk up from a ranked node ends within its rank.
proof fn lemma_ranked_walk(
    nodes: Map<Seq<char>, ExperimentNode>,
    rank: spec_fn(Seq<char>) -> nat,
    k: Seq<char>,
    f: nat,
)
    requires
        ranked(nodes, rank),
        nodes.dom().contains(k) ==> rank(k) <= f,
    ensures
        walk(nodes, k, f) is Some,
    decreases f,
{
    if nodes.dom().contains(k) {
        match nodes[k].parent {
            None => {},
            Some(p) => {
                assert(nodes.dom().contains(p@) && rank(p@) < rank(k));
                lemma_ranked_walk(nodes, rank, p@, (f - 1) as nat);
            },
        }
    }
}

/// In a graph with a sound lineage the walk up from any id ends, so
/// [`ExperimentGraph::path_to_root`] and
/// [`ExperimentGraph::effective_gates`] can be asked of every id.
pub proof fn lemma_lineage_walks_end(g: ExperimentGraph, id: Seq<char>)
    requires
        lineage_ok(g),
    ensures
        walk_ends(g.nodes@, id),
{
    let rank = choose|rank: spec_fn(Seq<char>) -> nat| #[trigger] ranked(g.nodes@, rank);
    let f: nat = if g.nodes@.dom().contains(id) { rank(id) } else { 0 };
    lemma_ranked_walk(g.nodes@, rank, id, f);
    assert(walk(g.nodes@, id, f) is Some);
}

/// Node ids minted from different numbers differ, and none is the root's.
proof fn lemma_node_ids_distinct(m: u64, n: u64)
    ensures
        node_id_spec(m) == node_id_spec(n) ==> m == n,
        node_id_spec(m) != "root"@,
{
    reveal_strlit("exp_");
    reveal_strlit("root");
    let a = node_id_spec(m);
    let b = node_id_spec(n);
    assert(a[0] == 'e');
    assert("root"@[0] == 'r');
    if a == b {
        assert(a.skip(4) =~= zero_pad(decimal(m as nat), 4));
        assert(b.skip(4) =~= zero_pad(decimal(n as nat), 4));
        crate::text::lemma_zero_pad_decimal_injective(m as nat, n as nat, 4);
    }
}

/// Changing nodes without touching any parent, the ids or the counter keeps
/// the lineage sound.
proof fn lemma_parents_kept(a: ExperimentGraph, b: ExperimentGraph)
    requires
        lineage_ok(a),
        b.next_id == a.next_id,
        b.nodes@.dom() == a.nodes@.dom(),
        forall|k: Seq<char>| #[trigger] a.nodes@.dom().contains(k) ==> b.nodes@[k].parent == a.nodes@[k].parent,
    ensures
        lineage_ok(b),
{
    let rank = choose|rank: spec_fn(Seq<char>) -> nat| #[trigger] ranked(a.nodes@, rank);
    assert(ranked(b.nodes@, rank));
    assert forall|k: Seq<char>| #[trigger] b.nodes@.dom().contains(k) implies k == "root"@ || exists|m: u64|
        m < b.next_id && k == #[trigger] node_id_spec(m) by {
        assert(a.nodes@.dom().contains(k));
    }
}

/// Allocating a child of a node of a graph with a sound lineage keeps it
/// sound: the new id is fresh and its parent is ranked below it.
proof fn lemma_allocated_lineage(
    a: ExperimentGraph,
    b: ExperimentGraph,
    id: Seq<char>,
    parent: Seq<char>,
    hypothesis: Hypothesis,
    now: u64,
)
    requires
        lineage_ok(a),
        a.nodes@.dom().contains(parent),
        ExperimentGraph::allocated(a, b, id, parent, hypothesis, now),
    ensures
        lineage_ok(b),
        !a.nodes@.dom().contains(id),
{
    lemma_node_ids_distinct(a.next_id, a.next_id);
    if a.nodes@.dom().contains(id) {
        if id != "root"@ {
            let m = choose|m: u64| m < a.next_id && id == #[trigger] node_id_spec(m);
            lemma_node_ids_distinct(m, a.next_id);
        }
    }
    let rank = choose|rank: spec_fn(Seq<char>) -> nat| #[trigger] ranked(a.nodes@, rank);
    let rank2 = |k: Seq<char>| if k == id { rank(parent) + 1 } else { rank(k) };
    assert forall|k: Seq<char>|
        #[trigger] b.nodes@.dom().contains(k) && b.nodes@[k].parent is Some implies b.nodes@.dom().contains(
            b.nodes@[k].parent->0@,
        ) && rank2(b.nodes@[k].parent->0@) < rank2(k) by {
        if k == id {
            assert(b.nodes@[k].parent->0@ == parent);
        } else if k == parent {
            assert(b.nodes@[k].parent == a.nodes@[k].parent);
            assert(a.nodes@.dom().contains(k));
        } else {
            assert(a.nodes@.dom().contains(k));
            assert(b.nodes@[k] == a.nodes@[k]);
        }
    }
    assert(ranked(b.nodes@, rank2));
    assert forall|k: Seq<char>| #[trigger] b.nodes@.dom().contains(k) implies k == "root"@ || exists|m: u64|
        m < b.next_id && k == #[trigger] node_id_spec(m) by {
        if k == id {
            assert(node_id_spec(a.next_id) == k);
        } else {
            assert(a.nodes@.dom().contains(k));
            if k != "root"@ {
                let m = choose|m: u64| m < a.next_id && k == #[trigger] node_id_spec(m);
                assert(m < b.next_id);
            }
        }
    }
}


/// Ranking above is a strict order: never of a node over itself, never both
/// ways, and transitive.
proof fn lemma_ranks_above_order(d: MetricDirection, a: ExperimentNode, b: ExperimentNode, c: ExperimentNode)
    requires
        !is_nan_code(a.score->0 as int),
        !is_nan_code(b.score->0 as int),
        !is_nan_code(c.score->0 as int),
    ensures
        !ranks_above(d, a, a),
        ranks_above(d, a, b) ==> !ranks_above(d, b, a),
        ranks_above(d, a, b) && ranks_above(d, b, c) ==> ranks_above(d, a, c),
        !ranks_above(d, a, b) && !ranks_above(d, b, a) ==> directional(d, a.score->0 as int) == directional(
            d,
            b.score->0 as int,
        ) && a.id@ == b.id@,
{
    crate::text::lemma_seq_lt_irreflexive(a.id@);
    if seq_lt(a.id@, b.id@) {
        crate::text::lemma_seq_lt_asymmetric(a.id@, b.id@);
        if seq_lt(b.id@, c.id@) {
            crate::text::lemma_seq_lt_transitive(a.id@, b.id@, c.id@);
        }
    }
    crate::text::lemma_seq_lt_total(a.id@, b.id@);
}

/// The best node picked from `s` is one of `s`, and where no score is NaN,
/// no node of `s` ranks above it; there is one exactly when `s` is not empty.
pub proof fn lemma_pick_best_is_best(d: MetricDirection, s: Seq<ExperimentNode>)
    requires
        forall|i: int| 0 <= i < s.len() ==> !is_nan_code((#[trigger] s[i]).score->0 as int),
    ensures
        s.len() > 0 <==> pick_best(d, s) is Some,
        pick_best(d, s) matches Some(b) ==> s.contains(b) && forall|i: int|
            0 <= i < s.len() ==> !ranks_above(d, #[trigger] s[i], b),
    decreases s.len(),
{
    if s.len() > 0 {
        let init = s.drop_last();
        let last = s.last();
        lemma_pick_best_is_best(d, init);
        lemma_ranks_above_order(d, last, last, last);
        match pick_best(d, init) {
            None => {
                assert(s[s.len() - 1] == last);
            },
            Some(b) => {
                let k = choose|k: int| 0 <= k < init.len() && init[k] == b;
                assert(s[k] == b);
                if ranks_above(d, b, last) {
                    lemma_ranks_above_order(d, b, last, b);
                    assert forall|i: int| 0 <= i < s.len() implies !ranks_above(d, #[trigger] s[i], b) by {
                        if i < s.len() - 1 {
                            assert(s[i] == init[i]);
                        }
                    }
                } else {
                    assert(s[s.len() - 1] == last);
                    assert forall|i: int| 0 <= i < s.len() implies !ranks_above(d, #[trigger] s[i], last) by {
                        if i < s.len() - 1 {
                            assert(s[i] == init[i]);
                            assert(!ranks_above(d, init[i], b));
                            lemma_ranks_above_order(d, s[i], last, b);
                            lemma_ranks_above_order(d, last, b, s[i]);
                            lemma_ranks_above_order(d, b, last, s[i]);
                        }
                    }
                }
            },
        }
    }
}

} // verus!
