//! The research ledger: observations, hypotheses, experiment plans and
//! results recorded once each under stable ids, rendered as a compact dossier
//! that a language model reads in order before choosing its next action.

use vstd::prelude::*;

use crate::clock::now_millis;
use crate::ids::{stable_id, stable_id_spec, str_views};
use crate::keyed::{append_once, contains_key, has_key, newest, newest_spec, unique, dedup, string_views, DeepClone, Keyed};
use crate::text::{truncate, truncate_spec, ascii_lower, clean_detail, clean_detail_spec, clean_line, collapse_ws, contains_spec, contains_str, join, join_spec, push_str, lowercase_chars};

verus! {

/// How strongly a piece of evidence is believed.
#[derive(Clone, Copy, Debug, PartialEq, Eq, Structural)]
pub enum EvidenceConfidence {
    Low,
    Medium,
    High,
}

impl Default for EvidenceConfidence {
    fn default() -> (r: Self)
        ensures
            r == EvidenceConfidence::Medium,
    {
        EvidenceConfidence::Medium
    }
}

/// Where a hypothesis stands.
#[derive(Clone, Copy, Debug, PartialEq, Eq, Structural)]
pub enum HypothesisState {
    Proposed,
    Active,
    Supported,
    Refuted,
    Inconclusive,
}

impl Default for HypothesisState {
    fn default() -> (r: Self)
        ensures
            r == HypothesisState::Proposed,
    {
        HypothesisState::Proposed
    }
}

/// Where an experiment plan stands.
#[derive(Clone, Copy, Debug, PartialEq, Eq, Structural)]
pub enum ExperimentState {
    Proposed,
    Running,
    Complete,
    Blocked,
}

impl Default for ExperimentState {
    fn default() -> (r: Self)
        ensures
            r == ExperimentState::Proposed,
    {
        ExperimentState::Proposed
    }
}

/// What a result says about its experiment's hypothesis.
#[derive(Clone, Copy, Debug, PartialEq, Eq, Structural)]
pub enum ResultVerdict {
    Supports,
    Refutes,
    Expands,
    Inconclusive,
    Blocked,
}

impl Default for ResultVerdict {
    fn default() -> (r: Self)
        ensures
            r == ResultVerdict::Inconclusive,
    {
        ResultVerdict::Inconclusive
    }
}

/// A descriptive work budget for an experiment plan.
#[derive(Debug, PartialEq, Eq)]
pub struct WorkBudget {
    pub max_agent_turns: Option<u32>,
    pub max_tool_calls: Option<u32>,
    pub expected_duration: Option<String>,
}

/// The view of a [`WorkBudget`].
pub struct WorkBudgetV {
    pub max_agent_turns: Option<u32>,
    pub max_tool_calls: Option<u32>,
    pub expected_duration: Option<Seq<char>>,
}

impl DeepView for WorkBudget {
    type V = WorkBudgetV;

    open spec fn deep_view(&self) -> WorkBudgetV {
        WorkBudgetV {
            max_agent_turns: self.max_agent_turns,
            max_tool_calls: self.max_tool_calls,
            expected_duration: self.expected_duration.deep_view(),
        }
    }
}

impl DeepClone for WorkBudget {
    fn deep_clone(&self) -> (r: Self) {
        WorkBudget {
            max_agent_turns: self.max_agent_turns,
            max_tool_calls: self.max_tool_calls,
            expected_duration: self.expected_duration.deep_clone(),
        }
    }
}

impl Default for WorkBudget {
    fn default() -> (r: Self)
        ensures
            r.max_agent_turns.is_none(),
            r.max_tool_calls.is_none(),
            r.expected_duration.is_none(),
    {
        WorkBudget { max_agent_turns: None, max_tool_calls: None, expected_duration: None }
    }
}

/// Something seen while researching a target.
#[derive(Debug, PartialEq, Eq)]
pub struct Observation {
    pub id: String,
    pub target: String,
    pub source: String,
    pub summary: String,
    pub detail: String,
    pub artifact_refs: Vec<String>,
    pub confidence: EvidenceConfidence,
    pub created_at_ms: u64,
}

/// The view of an [`Observation`].
pub struct ObservationV {
    pub id: Seq<char>,
    pub target: Seq<char>,
    pub source: Seq<char>,
    pub summary: Seq<char>,
    pub detail: Seq<char>,
    pub artifact_refs: Seq<Seq<char>>,
    pub confidence: EvidenceConfidence,
    pub created_at_ms: u64,
}

impl DeepView for Observation {
    type V = ObservationV;

    open spec fn deep_view(&self) -> ObservationV {
        ObservationV {
            id: self.id@,
            target: self.target@,
            source: self.source@,
            summary: self.summary@,
            detail: self.detail@,
            artifact_refs: self.artifact_refs.deep_view(),
            confidence: self.confidence,
            created_at_ms: self.created_at_ms,
        }
    }
}

impl DeepClone for Observation {
    fn deep_clone(&self) -> (r: Self) {
        Observation {
            id: self.id.clone(),
            target: self.target.clone(),
            source: self.source.clone(),
            summary: self.summary.clone(),
            detail: self.detail.clone(),
            artifact_refs: self.artifact_refs.deep_clone(),
            confidence: self.confidence,
            created_at_ms: self.created_at_ms,
        }
    }
}

impl Keyed for Observation {
    open spec fn key_of(v: ObservationV) -> Seq<char> {
        v.id
    }

    fn key_str(&self) -> (r: &str) {
        self.id.as_str()
    }
}

/// A candidate explanation to test.
#[derive(Debug, PartialEq, Eq)]
pub struct HypothesisCandidate {
    pub id: String,
    pub statement: String,
    pub target: Option<String>,
    pub rationale: String,
    pub status: HypothesisState,
    pub evidence_ids: Vec<String>,
    pub created_at_ms: u64,
}

/// The view of a [`HypothesisCandidate`].
pub struct HypothesisCandidateV {
    pub id: Seq<char>,
    pub statement: Seq<char>,
    pub target: Option<Seq<char>>,
    pub rationale: Seq<char>,
    pub status: HypothesisState,
    pub evidence_ids: Seq<Seq<char>>,
    pub created_at_ms: u64,
}

impl DeepView for HypothesisCandidate {
    type V = HypothesisCandidateV;

    open spec fn deep_view(&self) -> HypothesisCandidateV {
        HypothesisCandidateV {
            id: self.id@,
            statement: self.statement@,
            target: self.target.deep_view(),
            rationale: self.rationale@,
            status: self.status,
            evidence_ids: self.evidence_ids.deep_view(),
            created_at_ms: self.created_at_ms,
        }
    }
}

impl DeepClone for HypothesisCandidate {
    fn deep_clone(&self) -> (r: Self) {
        HypothesisCandidate {
            id: self.id.clone(),
            statement: self.statement.clone(),
            target: self.target.deep_clone(),
            rationale: self.rationale.clone(),
            status: self.status,
            evidence_ids: self.evidence_ids.deep_clone(),
            created_at_ms: self.created_at_ms,
        }
    }
}

impl Keyed for HypothesisCandidate {
    open spec fn key_of(v: HypothesisCandidateV) -> Seq<char> {
        v.id
    }

    fn key_str(&self) -> (r: &str) {
        self.id.as_str()
    }
}

/// A planned experiment.
#[derive(Debug, PartialEq, Eq)]
pub struct ExperimentPlan {
    pub id: String,
    pub hypothesis_id: Option<String>,
    pub objective: String,
    pub target: Option<String>,
    pub required_tools: Vec<String>,
    pub budget: WorkBudget,
    pub status: ExperimentState,
    pub created_at_ms: u64,
}

/// The view of an [`ExperimentPlan`].
pub struct ExperimentPlanV {
    pub id: Seq<char>,
    pub hypothesis_id: Option<Seq<char>>,
    pub objective: Seq<char>,
    pub target: Option<Seq<char>>,
    pub required_tools: Seq<Seq<char>>,
    pub budget: WorkBudgetV,
    pub status: ExperimentState,
    pub created_at_ms: u64,
}

impl DeepView for ExperimentPlan {
    type V = ExperimentPlanV;

    open spec fn deep_view(&self) -> ExperimentPlanV {
        ExperimentPlanV {
            id: self.id@,
            hypothesis_id: self.hypothesis_id.deep_view(),
            objective: self.objective@,
            target: self.target.deep_view(),
            required_tools: self.required_tools.deep_view(),
            budget: self.budget.deep_view(),
            status: self.status,
            created_at_ms: self.created_at_ms,
        }
    }
}

impl DeepClone for ExperimentPlan {
    fn deep_clone(&self) -> (r: Self) {
        ExperimentPlan {
            id: self.id.clone(),
            hypothesis_id: self.hypothesis_id.deep_clone(),
            objective: self.objective.clone(),
            target: self.target.deep_clone(),
            required_tools: self.required_tools.deep_clone(),
            budget: self.budget.deep_clone(),
            status: self.status,
            created_at_ms: self.created_at_ms,
        }
    }
}

impl Keyed for ExperimentPlan {
    open spec fn key_of(v: ExperimentPlanV) -> Seq<char> {
        v.id
    }

    fn key_str(&self) -> (r: &str) {
        self.id.as_str()
    }
}

/// The outcome of an experiment.
#[derive(Debug, PartialEq, Eq)]
pub struct ResearchResult {
    pub id: String,
    pub experiment_id: Option<String>,
    pub verdict: ResultVerdict,
    pub summary: String,
    pub evidence_ids: Vec<String>,
    pub created_at_ms: u64,
}

/// The view of a [`ResearchResult`].
pub struct ResearchResultV {
    pub id: Seq<char>,
    pub experiment_id: Option<Seq<char>>,
    pub verdict: ResultVerdict,
    pub summary: Seq<char>,
    pub evidence_ids: Seq<Seq<char>>,
    pub created_at_ms: u64,
}

impl DeepView for ResearchResult {
    type V = ResearchResultV;

    open spec fn deep_view(&self) -> ResearchResultV {
        ResearchResultV {
            id: self.id@,
            experiment_id: self.experiment_id.deep_view(),
            verdict: self.verdict,
            summary: self.summary@,
            evidence_ids: self.evidence_ids.deep_view(),
            created_at_ms: self.created_at_ms,
        }
    }
}

impl DeepClone for ResearchResult {
    fn deep_clone(&self) -> (r: Self) {
        ResearchResult {
            id: self.id.clone(),
            experiment_id: self.experiment_id.deep_clone(),
            verdict: self.verdict,
            summary: self.summary.clone(),
            evidence_ids: self.evidence_ids.deep_clone(),
            created_at_ms: self.created_at_ms,
        }
    }
}

impl Keyed for ResearchResult {
    open spec fn key_of(v: ResearchResultV) -> Seq<char> {
        v.id
    }

    fn key_str(&self) -> (r: &str) {
        self.id.as_str()
    }
}

/// One entry of the ledger's append-only event log.
#[derive(Debug, PartialEq, Eq)]
pub struct LedgerEvent {
    pub id: String,
    pub kind: String,
    pub ref_id: String,
    pub summary: String,
    pub created_at_ms: u64,
}

/// The view of a [`LedgerEvent`].
pub struct LedgerEventV {
    pub id: Seq<char>,
    pub kind: Seq<char>,
    pub ref_id: Seq<char>,
    pub summary: Seq<char>,
    pub created_at_ms: u64,
}

impl DeepView for LedgerEvent {
    type V = LedgerEventV;

    open spec fn deep_view(&self) -> LedgerEventV {
        LedgerEventV {
            id: self.id@,
            kind: self.kind@,
            ref_id: self.ref_id@,
            summary: self.summary@,
            created_at_ms: self.created_at_ms,
        }
    }
}

impl DeepClone for LedgerEvent {
    fn deep_clone(&self) -> (r: Self) {
        LedgerEvent {
            id: self.id.clone(),
            kind: self.kind.clone(),
            ref_id: self.ref_id.clone(),
            summary: self.summary.clone(),
            created_at_ms: self.created_at_ms,
        }
    }
}

impl Keyed for LedgerEvent {
    open spec fn key_of(v: LedgerEventV) -> Seq<char> {
        v.id
    }

    fn key_str(&self) -> (r: &str) {
        self.id.as_str()
    }
}

/// The recent slice of a ledger that a model reads.
#[derive(Debug, PartialEq, Eq)]
pub struct ResearchDossier {
    pub run_id: String,
    pub targets: Vec<String>,
    pub observations: Vec<Observation>,
    pub hypotheses: Vec<HypothesisCandidate>,
    pub experiments: Vec<ExperimentPlan>,
    pub results: Vec<ResearchResult>,
}

/// The view of a [`ResearchDossier`].
pub struct ResearchDossierV {
    pub run_id: Seq<char>,
    pub targets: Seq<Seq<char>>,
    pub observations: Seq<ObservationV>,
    pub hypotheses: Seq<HypothesisCandidateV>,
    pub experiments: Seq<ExperimentPlanV>,
    pub results: Seq<ResearchResultV>,
}

impl DeepView for ResearchDossier {
    type V = ResearchDossierV;

    open spec fn deep_view(&self) -> ResearchDossierV {
        ResearchDossierV {
            run_id: self.run_id@,
            targets: self.targets.deep_view(),
            observations: self.observations.deep_view(),
            hypotheses: self.hypotheses.deep_view(),
            experiments: self.experiments.deep_view(),
            results: self.results.deep_view(),
        }
    }
}

/// A dossier rendered for a particular target, node and mission.
#[derive(Debug, PartialEq, Eq)]
pub struct ContextPack {
    pub run_id: String,
    pub current_target: String,
    pub current_node_id: String,
    pub mission: String,
    pub dossier: ResearchDossier,
    pub rendered: String,
}

/// The ids recorded while absorbing one agent output.
#[derive(Debug, PartialEq, Eq)]
pub struct AbsorbReport {
    pub observation_ids: Vec<String>,
    pub hypothesis_ids: Vec<String>,
    pub result_ids: Vec<String>,
}

impl Default for AbsorbReport {
    fn default() -> (r: Self)
        ensures
            r.observation_ids@.len() == 0,
            r.hypothesis_ids@.len() == 0,
            r.result_ids@.len() == 0,
    {
        AbsorbReport { observation_ids: Vec::new(), hypothesis_ids: Vec::new(), result_ids: Vec::new() }
    }
}

/// The append-once research ledger.
#[derive(Debug, PartialEq, Eq)]
pub struct ResearchLedger {
    pub run_id: String,
    pub targets: Vec<String>,
    pub observations: Vec<Observation>,
    pub hypotheses: Vec<HypothesisCandidate>,
    pub experiments: Vec<ExperimentPlan>,
    pub results: Vec<ResearchResult>,
    pub events: Vec<LedgerEvent>,
    pub updated_at_ms: u64,
}

/// The view of a [`ResearchLedger`].
pub struct ResearchLedgerV {
    pub run_id: Seq<char>,
    pub targets: Seq<Seq<char>>,
    pub observations: Seq<ObservationV>,
    pub hypotheses: Seq<HypothesisCandidateV>,
    pub experiments: Seq<ExperimentPlanV>,
    pub results: Seq<ResearchResultV>,
    pub events: Seq<LedgerEventV>,
    pub updated_at_ms: u64,
}

impl DeepView for ResearchLedger {
    type V = ResearchLedgerV;

    open spec fn deep_view(&self) -> ResearchLedgerV {
        ResearchLedgerV {
            run_id: self.run_id@,
            targets: self.targets.deep_view(),
            observations: self.observations.deep_view(),
            hypotheses: self.hypotheses.deep_view(),
            experiments: self.experiments.deep_view(),
            results: self.results.deep_view(),
            events: self.events.deep_view(),
            updated_at_ms: self.updated_at_ms,
        }
    }
}

/// The id of the event that records `kind` for `ref_id`.
pub open spec fn event_id(run_id: Seq<char>, kind: Seq<char>, ref_id: Seq<char>, summary: Seq<char>) -> Seq<char> {
    stable_id_spec("event"@, seq![run_id, kind, ref_id, summary])
}

/// `events` with the event for (`kind`, `ref_id`, `summary`) appended once.
pub open spec fn with_event(
    events: Seq<LedgerEventV>,
    run_id: Seq<char>,
    kind: Seq<char>,
    ref_id: Seq<char>,
    summary: Seq<char>,
    created_at_ms: u64,
) -> Seq<LedgerEventV> {
    append_once::<LedgerEvent>(
        events,
        LedgerEventV {
            id: event_id(run_id, kind, ref_id, summary),
            kind,
            ref_id,
            summary,
            created_at_ms,
        },
    )
}

/// The id of an observation.
pub open spec fn observation_id(
    run_id: Seq<char>,
    target: Seq<char>,
    source: Seq<char>,
    summary: Seq<char>,
    detail: Seq<char>,
) -> Seq<char> {
    stable_id_spec("obs"@, seq![run_id, target, source, summary, detail])
}

/// The ledger after recording an observation at time `now`, with the id it
/// is recorded under. Summary and detail are normalised first; a repeat of
/// an existing observation changes nothing but the update time.
pub open spec fn observe(
    l: ResearchLedgerV,
    target: Seq<char>,
    source: Seq<char>,
    summary: Seq<char>,
    detail: Seq<char>,
    confidence: EvidenceConfidence,
    now: u64,
) -> (ResearchLedgerV, Seq<char>) {
    let summary = collapse_ws(summary);
    let detail = clean_detail_spec(detail);
    let id = observation_id(l.run_id, target, source, summary, detail);
    let item = ObservationV {
        id,
        target,
        source,
        summary,
        detail,
        artifact_refs: Seq::empty(),
        confidence,
        created_at_ms: now,
    };
    if has_key::<Observation>(l.observations, id) {
        (ResearchLedgerV { updated_at_ms: now, ..l }, id)
    } else {
        (
            ResearchLedgerV {
                observations: l.observations.push(item),
                events: with_event(l.events, l.run_id, "observation"@, id, summary, now),
                updated_at_ms: now,
                ..l
            },
            id,
        )
    }
}

/// The id of a hypothesis.
pub open spec fn hypothesis_id(run_id: Seq<char>, target: Seq<char>, statement: Seq<char>) -> Seq<char> {
    stable_id_spec("hyp"@, seq![run_id, target, statement])
}

/// `Some(s)` as `s`, `None` as the empty text.
pub open spec fn or_empty(s: Option<Seq<char>>) -> Seq<char> {
    match s {
        Some(t) => t,
        None => Seq::empty(),
    }
}

/// The ledger after recording a hypothesis at time `now`, with its id. The
/// statement is normalised to one line and the rationale to joined lines;
/// evidence ids are kept once each, in order.
pub open spec fn hypothesize(
    l: ResearchLedgerV,
    statement: Seq<char>,
    target: Option<Seq<char>>,
    rationale: Seq<char>,
    evidence_ids: Seq<Seq<char>>,
    now: u64,
) -> (ResearchLedgerV, Seq<char>) {
    let statement = collapse_ws(statement);
    let rationale = clean_detail_spec(rationale);
    let id = hypothesis_id(l.run_id, or_empty(target), statement);
    let item = HypothesisCandidateV {
        id,
        statement,
        target,
        rationale,
        status: HypothesisState::Proposed,
        evidence_ids: dedup(evidence_ids),
        created_at_ms: now,
    };
    if has_key::<HypothesisCandidate>(l.hypotheses, id) {
        (ResearchLedgerV { updated_at_ms: now, ..l }, id)
    } else {
        (
            ResearchLedgerV {
                hypotheses: l.hypotheses.push(item),
                events: with_event(l.events, l.run_id, "hypothesis"@, id, statement, now),
                updated_at_ms: now,
                ..l
            },
            id,
        )
    }
}

/// The ledger after recording an experiment plan at time `now`: the plan is
/// kept under its own id, once.
pub open spec fn plan(l: ResearchLedgerV, p: ExperimentPlanV, now: u64) -> ResearchLedgerV {
    if has_key::<ExperimentPlan>(l.experiments, p.id) {
        ResearchLedgerV { updated_at_ms: now, ..l }
    } else {
        ResearchLedgerV {
            experiments: l.experiments.push(p),
            events: with_event(l.events, l.run_id, "experiment"@, p.id, p.objective, p.created_at_ms),
            updated_at_ms: now,
            ..l
        }
    }
}

/// The name of a verdict, as `{:?}` prints it.
pub open spec fn verdict_name(v: ResultVerdict) -> Seq<char> {
    match v {
        ResultVerdict::Supports => "Supports"@,
        ResultVerdict::Refutes => "Refutes"@,
        ResultVerdict::Expands => "Expands"@,
        ResultVerdict::Inconclusive => "Inconclusive"@,
        ResultVerdict::Blocked => "Blocked"@,
    }
}

impl ResultVerdict {
    /// The verdict's name, as `{:?}` prints it.
    pub fn name(&self) -> (r: &'static str)
        ensures
            r@ == verdict_name(*self),
    {
        match self {
            ResultVerdict::Supports => "Supports",
            ResultVerdict::Refutes => "Refutes",
            ResultVerdict::Expands => "Expands",
            ResultVerdict::Inconclusive => "Inconclusive",
            ResultVerdict::Blocked => "Blocked",
        }
    }
}

/// The id of a result.
pub open spec fn result_id(
    run_id: Seq<char>,
    experiment: Seq<char>,
    verdict: Seq<char>,
    summary: Seq<char>,
    evidence: Seq<char>,
) -> Seq<char> {
    stable_id_spec("result"@, seq![run_id, experiment, verdict, summary, evidence])
}

/// The ledger after recording a result at time `now`, with its id. The
/// evidence ids enter the id joined by commas, and are kept once each.
pub open spec fn conclude(
    l: ResearchLedgerV,
    experiment_id: Option<Seq<char>>,
    verdict: ResultVerdict,
    summary: Seq<char>,
    evidence_ids: Seq<Seq<char>>,
    now: u64,
) -> (ResearchLedgerV, Seq<char>) {
    let summary = collapse_ws(summary);
    let id = result_id(
        l.run_id,
        or_empty(experiment_id),
        verdict_name(verdict),
        summary,
        join_spec(evidence_ids, seq![',']),
    );
    let item = ResearchResultV {
        id,
        experiment_id,
        verdict,
        summary,
        evidence_ids: dedup(evidence_ids),
        created_at_ms: now,
    };
    if has_key::<ResearchResult>(l.results, id) {
        (ResearchLedgerV { updated_at_ms: now, ..l }, id)
    } else {
        (
            ResearchLedgerV {
                results: l.results.push(item),
                events: with_event(l.events, l.run_id, "result"@, id, summary, now),
                updated_at_ms: now,
                ..l
            },
            id,
        )
    }
}

/// The dossier of the last `n` items of each kind.
pub open spec fn dossier_spec(l: ResearchLedgerV, n: nat) -> ResearchDossierV {
    ResearchDossierV {
        run_id: l.run_id,
        targets: l.targets,
        observations: newest_spec(l.observations, n),
        hypotheses: newest_spec(l.hypotheses, n),
        experiments: newest_spec(l.experiments, n),
        results: newest_spec(l.results, n),
    }
}

/// The verdict that a free-text result summary expresses. Blocking words
/// win over refutations, refutations (including negated findings such as
/// "no exploitable") over confirmations, and confirmations over expansions.
pub open spec fn verdict_spec(text: Seq<char>) -> ResultVerdict {
    let t = ascii_lower(text);
    if contains_spec(t, "needs_more_budget"@) || contains_spec(t, "blocked"@) || contains_spec(
        t,
        "unreachable"@,
    ) || contains_spec(t, "timeout"@) {
        ResultVerdict::Blocked
    } else if contains_spec(t, "false_positive"@) || contains_spec(t, "false positive"@)
        || contains_spec(t, "refuted"@) || contains_spec(t, "not vulnerable"@) || contains_spec(
        t,
        "no vulnerabilities"@,
    ) || contains_spec(t, "no vulnerability"@) || contains_spec(t, "no confirmed vulnerability"@)
        || contains_spec(t, "no exploitable"@) || contains_spec(t, "no attack surface"@)
        || contains_spec(t, "no concrete"@) || contains_spec(t, "zero vulnerability"@)
        || contains_spec(t, "zero attack surface"@) {
        ResultVerdict::Refutes
    } else if contains_spec(t, "confirmed"@) || contains_spec(t, "validated"@) || contains_spec(
        t,
        "supports"@,
    ) || contains_spec(t, "exploitable"@) {
        ResultVerdict::Supports
    } else if contains_spec(t, "suspected"@) || contains_spec(t, "new"@) {
        ResultVerdict::Expands
    } else {
        ResultVerdict::Inconclusive
    }
}

/// Classifies a free-text result summary (see [`verdict_spec`]).
pub fn verdict_from_text(value: &str) -> (r: ResultVerdict)
    ensures
        r == verdict_spec(value@),
{
    let t = lowercase_chars(value);
    if contains_str(&t, "needs_more_budget") || contains_str(&t, "blocked") || contains_str(
        &t,
        "unreachable",
    ) || contains_str(&t, "timeout") {
        ResultVerdict::Blocked
    } else if contains_str(&t, "false_positive") || contains_str(&t, "false positive")
        || contains_str(&t, "refuted") || contains_str(&t, "not vulnerable") || contains_str(
        &t,
        "no vulnerabilities",
    ) || contains_str(&t, "no vulnerability") || contains_str(&t, "no confirmed vulnerability")
        || contains_str(&t, "no exploitable") || contains_str(&t, "no attack surface")
        || contains_str(&t, "no concrete") || contains_str(&t, "zero vulnerability")
        || contains_str(&t, "zero attack surface") {
        ResultVerdict::Refutes
    } else if contains_str(&t, "confirmed") || contains_str(&t, "validated") || contains_str(
        &t,
        "supports",
    ) || contains_str(&t, "exploitable") {
        ResultVerdict::Supports
    } else if contains_str(&t, "suspected") || contains_str(&t, "new") {
        ResultVerdict::Expands
    } else {
        ResultVerdict::Inconclusive
    }
}

/// The name of a confidence level, as `{:?}` prints it.
pub open spec fn confidence_name(c: EvidenceConfidence) -> Seq<char> {
    match c {
        EvidenceConfidence::Low => "Low"@,
        EvidenceConfidence::Medium => "Medium"@,
        EvidenceConfidence::High => "High"@,
    }
}

impl EvidenceConfidence {
    /// The level's name, as `{:?}` prints it.
    pub fn name(&self) -> (r: &'static str)
        ensures
            r@ == confidence_name(*self),
    {
        match self {
            EvidenceConfidence::Low => "Low",
            EvidenceConfidence::Medium => "Medium",
            EvidenceConfidence::High => "High",
        }
    }
}

/// The name of a hypothesis state, as `{:?}` prints it.
pub open spec fn hypothesis_state_name(s: HypothesisState) -> Seq<char> {
    match s {
        HypothesisState::Proposed => "Proposed"@,
        HypothesisState::Active => "Active"@,
        HypothesisState::Supported => "Supported"@,
        HypothesisState::Refuted => "Refuted"@,
        HypothesisState::Inconclusive => "Inconclusive"@,
    }
}

impl HypothesisState {
    /// The state's name, as `{:?}` prints it.
    pub fn name(&self) -> (r: &'static str)
        ensures
            r@ == hypothesis_state_name(*self),
    {
        match self {
            HypothesisState::Proposed => "Proposed",
            HypothesisState::Active => "Active",
            HypothesisState::Supported => "Supported",
            HypothesisState::Refuted => "Refuted",
            HypothesisState::Inconclusive => "Inconclusive",
        }
    }
}

/// The name of an experiment state, as `{:?}` prints it.
pub open spec fn experiment_state_name(s: ExperimentState) -> Seq<char> {
    match s {
        ExperimentState::Proposed => "Proposed"@,
        ExperimentState::Running => "Running"@,
        ExperimentState::Complete => "Complete"@,
        ExperimentState::Blocked => "Blocked"@,
    }
}

impl ExperimentState {
    /// The state's name, as `{:?}` prints it.
    pub fn name(&self) -> (r: &'static str)
        ensures
            r@ == experiment_state_name(*self),
    {
        match self {
            ExperimentState::Proposed => "Proposed",
            ExperimentState::Running => "Running",
            ExperimentState::Complete => "Complete",
            ExperimentState::Blocked => "Blocked",
        }
    }
}

/// The text of a dossier section with no items.
pub open spec fn none_yet() -> Seq<char> {
    "- none yet\n"@
}

/// The lines of `items`, in order (see [`observation_lines`]).
pub open spec fn observations_text(items: Seq<ObservationV>) -> Seq<char>
    decreases items.len(),
{
    if items.len() == 0 {
        Seq::empty()
    } else {
        observations_text(items.drop_last()) + observation_lines(items.last())
    }
}

/// The lines of `items`, in order (see [`hypothesis_lines`]).
pub open spec fn hypotheses_text(items: Seq<HypothesisCandidateV>) -> Seq<char>
    decreases items.len(),
{
    if items.len() == 0 {
        Seq::empty()
    } else {
        hypotheses_text(items.drop_last()) + hypothesis_lines(items.last())
    }
}

/// The lines of `items`, in order (see [`experiment_lines`]).
pub open spec fn experiments_text(items: Seq<ExperimentPlanV>) -> Seq<char>
    decreases items.len(),
{
    if items.len() == 0 {
        Seq::empty()
    } else {
        experiments_text(items.drop_last()) + experiment_lines(items.last())
    }
}

/// The lines of `items`, in order (see [`result_lines`]).
pub open spec fn results_text(items: Seq<ResearchResultV>) -> Seq<char>
    decreases items.len(),
{
    if items.len() == 0 {
        Seq::empty()
    } else {
        results_text(items.drop_last()) + result_lines(items.last())
    }
}

/// `s` with a value of `target` shown, `"unknown"` for none.
pub open spec fn or_unknown(target: Option<Seq<char>>) -> Seq<char> {
    match target {
        Some(t) => t,
        None => "unknown"@,
    }
}

/// The dossier lines of one observation.
pub open spec fn observation_lines(o: ObservationV) -> Seq<char> {
    "- ["@ + o.id + "] target="@ + o.target + " source="@ + o.source + " confidence="@
        + confidence_name(o.confidence) + ": "@ + o.summary + "\n"@ + if o.detail.len() > 0 {
        "  detail: "@ + truncate_spec(o.detail, 260) + "\n"@
    } else {
        Seq::empty()
    }
}

/// The dossier lines of one hypothesis.
pub open spec fn hypothesis_lines(h: HypothesisCandidateV) -> Seq<char> {
    "- ["@ + h.id + "] status="@ + hypothesis_state_name(h.status) + " target="@ + or_unknown(
        h.target,
    ) + ": "@ + h.statement + "\n"@ + if h.rationale.len() > 0 {
        "  rationale: "@ + truncate_spec(h.rationale, 220) + "\n"@
    } else {
        Seq::empty()
    }
}

/// The dossier lines of one experiment plan.
pub open spec fn experiment_lines(e: ExperimentPlanV) -> Seq<char> {
    "- ["@ + e.id + "] status="@ + experiment_state_name(e.status) + " target="@ + or_unknown(
        e.target,
    ) + ": "@ + e.objective + "\n"@ + if e.required_tools.len() > 0 {
        "  tools: "@ + join_spec(e.required_tools, ", "@) + "\n"@
    } else {
        Seq::empty()
    }
}

/// The dossier lines of one result.
pub open spec fn result_lines(r: ResearchResultV) -> Seq<char> {
    "- ["@ + r.id + "] verdict="@ + verdict_name(r.verdict) + ": "@ + r.summary + "\n"@
        + if r.evidence_ids.len() > 0 {
        "  evidence: "@ + join_spec(r.evidence_ids, ", "@) + "\n"@
    } else {
        Seq::empty()
    }
}

/// The optional header line `label + value`, present when `value` is not empty.
pub open spec fn opt_line(label: Seq<char>, value: Seq<char>) -> Seq<char> {
    if value.len() > 0 {
        label + value + "\n"@
    } else {
        Seq::empty()
    }
}

/// The dossier's title, reading instruction and run line.
pub open spec fn intro_spec(run_id: Seq<char>) -> Seq<char> {
    "## LM Research Dossier\n"@
        + "Read in order: observations, hypotheses, experiments, results, then decide the next smallest useful action.\n"@
        + "Run: "@ + run_id + "\n"@
}

/// The dossier's targets line, present when there are targets.
pub open spec fn targets_line(targets: Seq<Seq<char>>) -> Seq<char> {
    if targets.len() > 0 {
        "Targets: "@ + join_spec(targets, ", "@) + "\n"@
    } else {
        Seq::empty()
    }
}

/// The dossier header: title, reading instruction, run, targets, current
/// target and node when given, and the mission.
pub open spec fn header_spec(
    d: ResearchDossierV,
    current_target: Seq<char>,
    current_node_id: Seq<char>,
    mission: Seq<char>,
) -> Seq<char> {
    intro_spec(d.run_id) + targets_line(d.targets) + opt_line("Current target: "@, current_target)
        + opt_line("Current node: "@, current_node_id) + "Mission: "@ + mission + "\n"@
}

/// The closing next-action policy.
pub open spec fn policy_spec() -> Seq<char> {
    "\n### 5. Next-action policy\n"@ + "- Reuse receipts before rediscovery.\n"@
        + "- Generate new hypotheses only from observations above.\n"@
        + "- Prefer the smallest executable experiment that changes belief.\n"@
        + "- Mark false positives and blocked work explicitly so other workers stop repeating them.\n"@
}

/// The rendered dossier: header, then observations, hypotheses, experiments
/// and results in that order, then the next-action policy.
pub open spec fn render_spec(
    d: ResearchDossierV,
    current_target: Seq<char>,
    current_node_id: Seq<char>,
    mission: Seq<char>,
) -> Seq<char> {
    header_spec(d, current_target, current_node_id, mission) + "\n### 1. Observations\n"@
        + (if d.observations.len() == 0 {
        none_yet()
    } else {
        observations_text(d.observations)
    }) + "\n### 2. Hypotheses\n"@ + (if d.hypotheses.len() == 0 {
        none_yet()
    } else {
        hypotheses_text(d.hypotheses)
    }) + "\n### 3. Experiments\n"@ + (if d.experiments.len() == 0 {
        none_yet()
    } else {
        experiments_text(d.experiments)
    }) + "\n### 4. Results\n"@ + (if d.results.len() == 0 {
        none_yet()
    } else {
        results_text(d.results)
    }) + policy_spec()
}

fn push_opt_line(out: &mut String, label: &str, value: &str)
    ensures
        final(out)@ == old(out)@ + opt_line(label@, value@),
{
    let ghost start = out@;
    if !value.is_empty() {
        push_str(out, label);
        push_str(out, value);
        push_str(out, "\n");
        assert(out@ =~= start + opt_line(label@, value@));
    } else {
        assert(out@ =~= start + opt_line(label@, value@));
    }
}

fn push_header(
    out: &mut String,
    d: &ResearchDossier,
    current_target: &str,
    current_node_id: &str,
    mission: &str,
)
    ensures
        final(out)@ == old(out)@ + header_spec(
            d.deep_view(),
            current_target@,
            current_node_id@,
            mission@,
        ),
{
    let ghost start = out@;
    push_str(out, "## LM Research Dossier\n");
    push_str(
        out,
        "Read in order: observations, hypotheses, experiments, results, then decide the next smallest useful action.\n",
    );
    push_str(out, "Run: ");
    push_str(out, d.run_id.as_str());
    push_str(out, "\n");
    assert(out@ =~= start + intro_spec(d.run_id@));
    let ghost a = out@;
    if d.targets.len() > 0 {
        push_str(out, "Targets: ");
        let t = join(&d.targets, ", ");
        push_str(out, t.as_str());
        push_str(out, "\n");
    }
    assert(out@ =~= a + targets_line(d.targets.deep_view()));
    let ghost b = out@;
    push_opt_line(out, "Current target: ", current_target);
    push_opt_line(out, "Current node: ", current_node_id);
    push_str(out, "Mission: ");
    push_str(out, mission);
    push_str(out, "\n");
    assert(out@ =~= b + opt_line("Current target: "@, current_target@) + opt_line(
        "Current node: "@,
        current_node_id@,
    ) + "Mission: "@ + mission@ + "\n"@);
    assert(out@ =~= start + header_spec(d.deep_view(), current_target@, current_node_id@, mission@));
}

fn push_observation_lines(out: &mut String, o: &Observation)
    ensures
        final(out)@ == old(out)@ + observation_lines(o.deep_view()),
{
    let ghost before = out@;
    push_str(out, "- [");
    push_str(out, o.id.as_str());
    push_str(out, "] target=");
    push_str(out, o.target.as_str());
    push_str(out, " source=");
    push_str(out, o.source.as_str());
    push_str(out, " confidence=");
    push_str(out, o.confidence.name());
    push_str(out, ": ");
    push_str(out, o.summary.as_str());
    push_str(out, "\n");
    if !o.detail.as_str().is_empty() {
        push_str(out, "  detail: ");
        let t = truncate(o.detail.as_str(), 260);
        push_str(out, t.as_str());
        push_str(out, "\n");
    }
    assert(out@ =~= before + observation_lines(o.deep_view()));
}

fn push_observations(out: &mut String, items: &Vec<Observation>)
    ensures
        final(out)@ == old(out)@ + (if items.deep_view().len() == 0 {
            none_yet()
        } else {
            observations_text(items.deep_view())
        }),
{
    if items.len() == 0 {
        push_str(out, "- none yet\n");
        return;
    }
    let ghost start = out@;
    let mut i: usize = 0;
    while i < items.len()
        invariant
            i <= items.len(),
            out@ == start + observations_text(items.deep_view().take(i as int)),
        decreases items.len() - i,
    {
        let o = &items[i];
        let ghost before = out@;
        push_observation_lines(out, o);
        let ghost next = items.deep_view().take(i + 1);
        assert(next.drop_last() =~= items.deep_view().take(i as int));
        assert(next.last() == o.deep_view());
        i = i + 1;
    }
    assert(items.deep_view().take(items.len() as int) =~= items.deep_view());
}

fn push_hypothesis_lines(out: &mut String, h: &HypothesisCandidate)
    ensures
        final(out)@ == old(out)@ + hypothesis_lines(h.deep_view()),
{
    let ghost before = out@;
    push_str(out, "- [");
    push_str(out, h.id.as_str());
    push_str(out, "] status=");
    push_str(out, h.status.name());
    push_str(out, " target=");
    match &h.target {
        Some(t) => push_str(out, t.as_str()),
        None => push_str(out, "unknown"),
    }
    push_str(out, ": ");
    push_str(out, h.statement.as_str());
    push_str(out, "\n");
    if !h.rationale.as_str().is_empty() {
        push_str(out, "  rationale: ");
        let t = truncate(h.rationale.as_str(), 220);
        push_str(out, t.as_str());
        push_str(out, "\n");
    }
    assert(out@ =~= before + hypothesis_lines(h.deep_view()));
}

fn push_hypotheses(out: &mut String, items: &Vec<HypothesisCandidate>)
    ensures
        final(out)@ == old(out)@ + (if items.deep_view().len() == 0 {
            none_yet()
        } else {
            hypotheses_text(items.deep_view())
        }),
{
    if items.len() == 0 {
        push_str(out, "- none yet\n");
        return;
    }
    let ghost start = out@;
    let mut i: usize = 0;
    while i < items.len()
        invariant
            i <= items.len(),
            out@ == start + hypotheses_text(items.deep_view().take(i as int)),
        decreases items.len() - i,
    {
        let h = &items[i];
        let ghost before = out@;
        push_hypothesis_lines(out, h);
        let ghost next = items.deep_view().take(i + 1);
        assert(next.drop_last() =~= items.deep_view().take(i as int));
        assert(next.last() == h.deep_view());
        i = i + 1;
    }
    assert(items.deep_view().take(items.len() as int) =~= items.deep_view());
}

fn push_experiment_lines(out: &mut String, e: &ExperimentPlan)
    ensures
        final(out)@ == old(out)@ + experiment_lines(e.deep_view()),
{
    let ghost before = out@;
    push_str(out, "- [");
    push_str(out, e.id.as_str());
    push_str(out, "] status=");
    push_str(out, e.status.name());
    push_str(out, " target=");
    match &e.target {
        Some(t) => push_str(out, t.as_str()),
        None => push_str(out, "unknown"),
    }
    push_str(out, ": ");
    push_str(out, e.objective.as_str());
    push_str(out, "\n");
    if e.required_tools.len() > 0 {
        push_str(out, "  tools: ");
        let t = join(&e.required_tools, ", ");
        push_str(out, t.as_str());
        push_str(out, "\n");
    }
    assert(out@ =~= before + experiment_lines(e.deep_view()));
}

fn push_experiments(out: &mut String, items: &Vec<ExperimentPlan>)
    ensures
        final(out)@ == old(out)@ + (if items.deep_view().len() == 0 {
            none_yet()
        } else {
            experiments_text(items.deep_view())
        }),
{
    if items.len() == 0 {
        push_str(out, "- none yet\n");
        return;
    }
    let ghost start = out@;
    let mut i: usize = 0;
    while i < items.len()
        invariant
            i <= items.len(),
            out@ == start + experiments_text(items.deep_view().take(i as int)),
        decreases items.len() - i,
    {
        let e = &items[i];
        let ghost before = out@;
        push_experiment_lines(out, e);
        let ghost next = items.deep_view().take(i + 1);
        assert(next.drop_last() =~= items.deep_view().take(i as int));
        assert(next.last() == e.deep_view());
        i = i + 1;
    }
    assert(items.deep_view().take(items.len() as int) =~= items.deep_view());
}

fn push_result_lines(out: &mut String, r: &ResearchResult)
    ensures
        final(out)@ == old(out)@ + result_lines(r.deep_view()),
{
    let ghost before = out@;
    push_str(out, "- [");
    push_str(out, r.id.as_str());
    push_str(out, "] verdict=");
    push_str(out, r.verdict.name());
    push_str(out, ": ");
    push_str(out, r.summary.as_str());
    push_str(out, "\n");
    if r.evidence_ids.len() > 0 {
        push_str(out, "  evidence: ");
        let t = join(&r.evidence_ids, ", ");
        push_str(out, t.as_str());
        push_str(out, "\n");
    }
    assert(out@ =~= before + result_lines(r.deep_view()));
}

fn push_results(out: &mut String, items: &Vec<ResearchResult>)
    ensures
        final(out)@ == old(out)@ + (if items.deep_view().len() == 0 {
            none_yet()
        } else {
            results_text(items.deep_view())
        }),
{
    if items.len() == 0 {
        push_str(out, "- none yet\n");
        return;
    }
    let ghost start = out@;
    let mut i: usize = 0;
    while i < items.len()
        invariant
            i <= items.len(),
            out@ == start + results_text(items.deep_view().take(i as int)),
        decreases items.len() - i,
    {
        let r = &items[i];
        let ghost before = out@;
        push_result_lines(out, r);
        let ghost next = items.deep_view().take(i + 1);
        assert(next.drop_last() =~= items.deep_view().take(i as int));
        assert(next.last() == r.deep_view());
        i = i + 1;
    }
    assert(items.deep_view().take(items.len() as int) =~= items.deep_view());
}

/// Renders `dossier` under a header naming the current target, node and
/// mission (see [`render_spec`]).
pub fn render_dossier_with_header(
    dossier: &ResearchDossier,
    current_target: &str,
    current_node_id: &str,
    mission: &str,
) -> (r: String)
    ensures
        r@ == render_spec(dossier.deep_view(), current_target@, current_node_id@, mission@),
{
    let mut out = String::new();
    push_header(&mut out, dossier, current_target, current_node_id, mission);
    push_str(&mut out, "\n### 1. Observations\n");
    push_observations(&mut out, &dossier.observations);
    push_str(&mut out, "\n### 2. Hypotheses\n");
    push_hypotheses(&mut out, &dossier.hypotheses);
    push_str(&mut out, "\n### 3. Experiments\n");
    push_experiments(&mut out, &dossier.experiments);
    push_str(&mut out, "\n### 4. Results\n");
    push_results(&mut out, &dossier.results);
    push_str(&mut out, "\n### 5. Next-action policy\n");
    push_str(&mut out, "- Reuse receipts before rediscovery.\n");
    push_str(&mut out, "- Generate new hypotheses only from observations above.\n");
    push_str(&mut out, "- Prefer the smallest executable experiment that changes belief.\n");
    push_str(
        &mut out,
        "- Mark false positives and blocked work explicitly so other workers stop repeating them.\n",
    );
    assert(out@ =~= render_spec(dossier.deep_view(), current_target@, current_node_id@, mission@));
    out
}

/// Renders `dossier` with no current target or node and the default
/// mission `"Continue the research loop."`.
pub fn render_dossier(dossier: &ResearchDossier) -> (r: String)
    ensures
        r@ == render_spec(dossier.deep_view(), Seq::empty(), Seq::empty(), "Continue the research loop."@),
{
    proof {
        reveal_strlit("");
    }
    render_dossier_with_header(dossier, "", "", "Continue the research loop.")
}

impl ResearchLedger {
    /// An empty ledger for `run_id` over `targets`.
    pub fn new(run_id: &str, targets: Vec<String>) -> (r: Self)
        ensures
            r.run_id@ == run_id@,
            r.targets@ == targets@,
            r.observations@.len() == 0,
            r.hypotheses@.len() == 0,
            r.experiments@.len() == 0,
            r.results@.len() == 0,
            r.events@.len() == 0,
    {
        ResearchLedger {
            run_id: run_id.to_owned(),
            targets,
            observations: Vec::new(),
            hypotheses: Vec::new(),
            experiments: Vec::new(),
            results: Vec::new(),
            events: Vec::new(),
            updated_at_ms: now_millis(),
        }
    }

    /// Appends the event for (`kind`, `ref_id`, `summary`) unless one with
    /// the same id is already logged.
    fn record_event(&mut self, kind: &str, ref_id: &str, summary: &str, created_at_ms: u64)
        ensures
            final(self).deep_view() == (ResearchLedgerV {
                events: with_event(
                    old(self).events.deep_view(),
                    old(self).run_id@,
                    kind@,
                    ref_id@,
                    summary@,
                    created_at_ms,
                ),
                ..old(self).deep_view()
            }),
    {
        let parts: [&str; 4] = [self.run_id.as_str(), kind, ref_id, summary];
        let id = stable_id("event", &parts);
        assert(str_views(parts@) =~= seq![self.run_id@, kind@, ref_id@, summary@]);
        if contains_key(&self.events, id.as_str()) {
            return;
        }
        let ghost prev = self.events.deep_view();
        self.events.push(
            LedgerEvent {
                id,
                kind: kind.to_owned(),
                ref_id: ref_id.to_owned(),
                summary: summary.to_owned(),
                created_at_ms,
            },
        );
        assert(self.events.deep_view() =~= with_event(
            prev,
            self.run_id@,
            kind@,
            ref_id@,
            summary@,
            created_at_ms,
        ));
    }

    /// Records an observation at time `now` (see [`observe`]).
    pub fn record_observation_at(
        &mut self,
        target: &str,
        source: &str,
        summary: &str,
        detail: &str,
        confidence: EvidenceConfidence,
        now: u64,
    ) -> (r: String)
        ensures
            (final(self).deep_view(), r@) == observe(
                old(self).deep_view(),
                target@,
                source@,
                summary@,
                detail@,
                confidence,
                now,
            ),
    {
        let summary = clean_line(summary);
        let detail = clean_detail(detail);
        let parts: [&str; 5] = [
            self.run_id.as_str(),
            target,
            source,
            summary.as_str(),
            detail.as_str(),
        ];
        let id = stable_id("obs", &parts);
        assert(str_views(parts@) =~= seq![self.run_id@, target@, source@, summary@, detail@]);
        if !contains_key(&self.observations, id.as_str()) {
            let ghost prev = self.observations.deep_view();
            let ghost dv = detail@;
            let item = Observation {
                id: id.clone(),
                target: target.to_owned(),
                source: source.to_owned(),
                summary: summary.clone(),
                detail,
                artifact_refs: Vec::new(),
                confidence,
                created_at_ms: now,
            };
            assert(item.artifact_refs.deep_view() =~= Seq::<Seq<char>>::empty());
            let ghost iv = item.deep_view();
            self.observations.push(item);
            assert(self.observations.deep_view() =~= prev.push(iv));
            self.record_event("observation", id.as_str(), summary.as_str(), now);
        }
        self.updated_at_ms = now;
        id
    }

    /// Records an observation now (see [`observe`]); returns its id.
    pub fn record_observation(
        &mut self,
        target: &str,
        source: &str,
        summary: &str,
        detail: &str,
        confidence: EvidenceConfidence,
    ) -> (r: String)
        ensures
            exists|now: u64|
                (final(self).deep_view(), r@) == #[trigger] observe(
                    old(self).deep_view(),
                    target@,
                    source@,
                    summary@,
                    detail@,
                    confidence,
                    now,
                ),
    {
        let now = now_millis();
        self.record_observation_at(target, source, summary, detail, confidence, now)
    }

    /// Records a hypothesis at time `now` (see [`hypothesize`]).
    pub fn record_hypothesis_at(
        &mut self,
        statement: &str,
        target: Option<String>,
        rationale: &str,
        evidence_ids: Vec<String>,
        now: u64,
    ) -> (r: String)
        ensures
            (final(self).deep_view(), r@) == hypothesize(
                old(self).deep_view(),
                statement@,
                target.deep_view(),
                rationale@,
                evidence_ids.deep_view(),
                now,
            ),
    {
        let statement = clean_line(statement);
        let rationale = clean_detail(rationale);
        let target_key = match &target {
            Some(t) => t.clone(),
            None => String::new(),
        };
        let parts: [&str; 3] = [self.run_id.as_str(), target_key.as_str(), statement.as_str()];
        let id = stable_id("hyp", &parts);
        assert(str_views(parts@) =~= seq![self.run_id@, or_empty(target.deep_view()), statement@]);
        if !contains_key(&self.hypotheses, id.as_str()) {
            let ghost prev = self.hypotheses.deep_view();
            assert(string_views(evidence_ids@) =~= evidence_ids.deep_view());
            let evidence = unique(evidence_ids);
            assert(evidence.deep_view() =~= string_views(evidence@));
            let item = HypothesisCandidate {
                id: id.clone(),
                statement: statement.clone(),
                target,
                rationale,
                status: HypothesisState::Proposed,
                evidence_ids: evidence,
                created_at_ms: now,
            };
            let ghost iv = item.deep_view();
            self.hypotheses.push(item);
            assert(self.hypotheses.deep_view() =~= prev.push(iv));
            self.record_event("hypothesis", id.as_str(), statement.as_str(), now);
        }
        self.updated_at_ms = now;
        id
    }

    /// Records a hypothesis now (see [`hypothesize`]); returns its id.
    pub fn record_hypothesis(
        &mut self,
        statement: &str,
        target: Option<String>,
        rationale: &str,
        evidence_ids: Vec<String>,
    ) -> (r: String)
        ensures
            exists|now: u64|
                (final(self).deep_view(), r@) == #[trigger] hypothesize(
                    old(self).deep_view(),
                    statement@,
                    target.deep_view(),
                    rationale@,
                    evidence_ids.deep_view(),
                    now,
                ),
    {
        let now = now_millis();
        self.record_hypothesis_at(statement, target, rationale, evidence_ids, now)
    }

    /// Records an experiment plan at time `now` (see [`plan`]); returns its id.
    pub fn record_experiment_at(&mut self, plan_item: ExperimentPlan, now: u64) -> (r: String)
        ensures
            r@ == plan_item.id@,
            final(self).deep_view() == plan(old(self).deep_view(), plan_item.deep_view(), now),
    {
        let id = plan_item.id.clone();
        if !contains_key(&self.experiments, id.as_str()) {
            let created = plan_item.created_at_ms;
            let summary = plan_item.objective.clone();
            let ghost prev = self.experiments.deep_view();
            let ghost pv = plan_item.deep_view();
            self.experiments.push(plan_item);
            assert(self.experiments.deep_view() =~= prev.push(pv));
            self.record_event("experiment", id.as_str(), summary.as_str(), created);
        }
        self.updated_at_ms = now;
        id
    }

    /// Records an experiment plan now (see [`plan`]); returns its id.
    pub fn record_experiment(&mut self, plan_item: ExperimentPlan) -> (r: String)
        ensures
            r@ == plan_item.id@,
            exists|now: u64|
                final(self).deep_view() == #[trigger] plan(
                    old(self).deep_view(),
                    plan_item.deep_view(),
                    now,
                ),
    {
        let now = now_millis();
        self.record_experiment_at(plan_item, now)
    }

    /// Records a result at time `now` (see [`conclude`]); returns its id.
    pub fn record_result_at(
        &mut self,
        experiment_id: Option<String>,
        verdict: ResultVerdict,
        summary: &str,
        evidence_ids: Vec<String>,
        now: u64,
    ) -> (r: String)
        ensures
            (final(self).deep_view(), r@) == conclude(
                old(self).deep_view(),
                experiment_id.deep_view(),
                verdict,
                summary@,
                evidence_ids.deep_view(),
                now,
            ),
    {
        let summary = clean_line(summary);
        let experiment_key = match &experiment_id {
            Some(t) => t.clone(),
            None => String::new(),
        };
        let evidence_key = join(&evidence_ids, ",");
        proof {
            reveal_strlit(",");
        }
        assert(","@ =~= seq![',']);
        let verdict_key = verdict.name();
        let parts: [&str; 5] = [
            self.run_id.as_str(),
            experiment_key.as_str(),
            verdict_key,
            summary.as_str(),
            evidence_key.as_str(),
        ];
        let id = stable_id("result", &parts);
        assert(str_views(parts@) =~= seq![
            self.run_id@,
            or_empty(experiment_id.deep_view()),
            verdict_name(verdict),
            summary@,
            evidence_key@,
        ]);
        if !contains_key(&self.results, id.as_str()) {
            let ghost prev = self.results.deep_view();
            assert(string_views(evidence_ids@) =~= evidence_ids.deep_view());
            let evidence = unique(evidence_ids);
            assert(evidence.deep_view() =~= string_views(evidence@));
            let item = ResearchResult {
                id: id.clone(),
                experiment_id,
                verdict,
                summary: summary.clone(),
                evidence_ids: evidence,
                created_at_ms: now,
            };
            let ghost iv = item.deep_view();
            self.results.push(item);
            assert(self.results.deep_view() =~= prev.push(iv));
            self.record_event("result", id.as_str(), summary.as_str(), now);
        }
        self.updated_at_ms = now;
        id
    }

    /// Records a result now (see [`conclude`]); returns its id.
    pub fn record_result(
        &mut self,
        experiment_id: Option<String>,
        verdict: ResultVerdict,
        summary: &str,
        evidence_ids: Vec<String>,
    ) -> (r: String)
        ensures
            exists|now: u64|
                (final(self).deep_view(), r@) == #[trigger] conclude(
                    old(self).deep_view(),
                    experiment_id.deep_view(),
                    verdict,
                    summary@,
                    evidence_ids.deep_view(),
                    now,
                ),
    {
        let now = now_millis();
        self.record_result_at(experiment_id, verdict, summary, evidence_ids, now)
    }

    /// The last `max_items` observations, hypotheses, experiments and results.
    pub fn dossier(&self, max_items: usize) -> (r: ResearchDossier)
        ensures
            r.deep_view() == dossier_spec(self.deep_view(), max_items as nat),
    {
        let observations = newest(self.observations.deep_clone(), max_items);
        let hypotheses = newest(self.hypotheses.deep_clone(), max_items);
        let experiments = newest(self.experiments.deep_clone(), max_items);
        let results = newest(self.results.deep_clone(), max_items);
        let r = ResearchDossier {
            run_id: self.run_id.clone(),
            targets: self.targets.deep_clone(),
            observations,
            hypotheses,
            experiments,
            results,
        };
        assert(r.observations.deep_view() =~= newest_spec(self.observations.deep_view(), max_items as nat));
        assert(r.hypotheses.deep_view() =~= newest_spec(self.hypotheses.deep_view(), max_items as nat));
        assert(r.experiments.deep_view() =~= newest_spec(self.experiments.deep_view(), max_items as nat));
        assert(r.results.deep_view() =~= newest_spec(self.results.deep_view(), max_items as nat));
        r
    }

    /// The dossier of the last `max_items` items, rendered with the default
    /// header.
    pub fn render_dossier(&self, max_items: usize) -> (r: String)
        ensures
            r@ == render_spec(
                dossier_spec(self.deep_view(), max_items as nat),
                Seq::empty(),
                Seq::empty(),
                "Continue the research loop."@,
            ),
    {
        let d = self.dossier(max_items);
        render_dossier(&d)
    }

    /// The dossier of the last `max_items` items with its rendering for the
    /// given target, node and mission.
    pub fn build_context_pack(
        &self,
        current_target: &str,
        current_node_id: &str,
        mission: &str,
        max_items: usize,
    ) -> (r: ContextPack)
        ensures
            r.run_id@ == self.run_id@,
            r.current_target@ == current_target@,
            r.current_node_id@ == current_node_id@,
            r.mission@ == mission@,
            r.dossier.deep_view() == dossier_spec(self.deep_view(), max_items as nat),
            r.rendered@ == render_spec(
                r.dossier.deep_view(),
                current_target@,
                current_node_id@,
                mission@,
            ),
    {
        let dossier = self.dossier(max_items);
        let rendered = render_dossier_with_header(&dossier, current_target, current_node_id, mission);
        ContextPack {
            run_id: self.run_id.clone(),
            current_target: current_target.to_owned(),
            current_node_id: current_node_id.to_owned(),
            mission: mission.to_owned(),
            dossier,
            rendered,
        }
    }
}


/// Recording the same observation again changes nothing but the update
/// time, and gives back the same id.
pub proof fn lemma_observe_is_idempotent(
    l: ResearchLedgerV,
    target: Seq<char>,
    source: Seq<char>,
    summary: Seq<char>,
    detail: Seq<char>,
    first: EvidenceConfidence,
    again: EvidenceConfidence,
    now1: u64,
    now2: u64,
)
    ensures
        ({
            let (l1, id1) = observe(l, target, source, summary, detail, first, now1);
            let (l2, id2) = observe(l1, target, source, summary, detail, again, now2);
            id2 == id1 && l2 == (ResearchLedgerV { updated_at_ms: now2, ..l1 })
        }),
{
    let (l1, id1) = observe(l, target, source, summary, detail, first, now1);
    if !has_key::<Observation>(l.observations, id1) {
        let n = l.observations.len() as int;
        assert(<Observation as Keyed>::key_of(l1.observations[n]) == id1);
    }
    assert(has_key::<Observation>(l1.observations, id1));
}

/// Recording the same hypothesis again changes nothing but the update time,
/// and gives back the same id.
pub proof fn lemma_hypothesize_is_idempotent(
    l: ResearchLedgerV,
    statement: Seq<char>,
    target: Option<Seq<char>>,
    rationale: Seq<char>,
    evidence_ids: Seq<Seq<char>>,
    again_rationale: Seq<char>,
    again_evidence: Seq<Seq<char>>,
    now1: u64,
    now2: u64,
)
    ensures
        ({
            let (l1, id1) = hypothesize(l, statement, target, rationale, evidence_ids, now1);
            let (l2, id2) = hypothesize(l1, statement, target, again_rationale, again_evidence, now2);
            id2 == id1 && l2 == (ResearchLedgerV { updated_at_ms: now2, ..l1 })
        }),
{
    let (l1, id1) = hypothesize(l, statement, target, rationale, evidence_ids, now1);
    if !has_key::<HypothesisCandidate>(l.hypotheses, id1) {
        let n = l.hypotheses.len() as int;
        assert(<HypothesisCandidate as Keyed>::key_of(l1.hypotheses[n]) == id1);
    }
    assert(has_key::<HypothesisCandidate>(l1.hypotheses, id1));
}

} // verus!
