//! The decisions of the optimization loop (propose, minibatch-evaluate,
//! accept, full-evaluate, commit): parent choice, minibatch sampling,
//! acceptance and gate verdicts, and committing an accepted child. The host
//! runs the loop and the evaluations around them.

use vstd::prelude::*;

use crate::acceptance::{verdict_is, AcceptanceCriterion};
use crate::clock::now_millis;
use crate::graph::{
    all_gates, first_gates, mode_name, path_spec, walk_ends, ExperimentGraph,
    ExperimentNode, GraphError, Hypothesis, ResearchMode,
};
use crate::keyed::DeepClone;
use crate::lm_loop::{observe, EvidenceConfidence, ResearchLedger};
use crate::opportunity::ResearchBias;
use crate::outcome::{
    better, directional, is_nan_code, key_above, key_is_nan, key_ties, Metric, MetricDirection, Objectives,
    TrialOutcome,
};
use crate::pareto::FrontierType;
use crate::policy::GateOutcome;
use crate::proposer::Candidate;
use crate::stop::LoopSnapshot;
use crate::text::{decimal, decimal_chars, push_chars, push_str, seq_lt, str_lt};
use crate::textmap::TextMap;

verus! {

/// A rejected proposal: the iteration it came in and why.
#[derive(Debug, PartialEq, Eq)]
pub struct RejectionRecord {
    pub iteration: u32,
    pub reason: String,
}

/// What the optimization loop owns: the lineage and outcomes, the
/// objectives, the acceptance policy, the mode bias, progress, the best
/// score so far, each node's candidate (the seed under the root id), the
/// research ledger and the rejections.
pub struct OptimizationState {
    pub graph: ExperimentGraph,
    pub metric: Metric,
    pub objectives: Objectives,
    pub frontier_type: FrontierType,
    pub acceptance: AcceptanceCriterion,
    pub bias: ResearchBias,
    pub snapshot: LoopSnapshot,
    /// The best accepted score (a score code).
    pub best_score: Option<i64>,
    pub candidates: TextMap<Candidate>,
    pub ledger: ResearchLedger,
    pub rejections: Vec<RejectionRecord>,
}

impl OptimizationState {
    /// A fresh state for `metric` with the seed candidate under the root id:
    /// a single objective, the instance frontier, strict improvement, the
    /// default bias, no progress, no best score.
    pub fn new(metric: Metric, seed_candidate: Candidate) -> (r: Self)
        ensures
            r.candidates@.dom() == set!["root"@],
            r.candidates@["root"@] == seed_candidate,
            r.metric == metric,
            r.objectives.metrics@.len() == 1,
            r.objectives.metrics@[0].name@ == metric.name@,
            r.objectives.metrics@[0].direction == metric.direction,
            r.frontier_type == FrontierType::Instance,
            r.acceptance == AcceptanceCriterion::StrictImprovement,
            r.snapshot == (LoopSnapshot { iteration: 0, metric_calls: 0, iterations_since_improvement: 0 }),
            r.best_score is None,
            r.rejections@.len() == 0,
            r.graph.run_id@ == "optimize"@,
            r.graph.nodes@.dom() == set!["root"@],
            crate::graph::lineage_ok(r.graph),
            r.ledger.run_id@ == "optimize"@,
            r.ledger.targets.deep_view() == seq![metric.name@],
            r.ledger.observations@.len() == 0,
    {
        let mut candidates: TextMap<Candidate> = TextMap::new();
        candidates.insert("root".to_owned(), seed_candidate);
        assert(candidates@.dom() =~= set!["root"@]);
        let objectives = Objectives::single(metric.copy());
        let mut targets: Vec<String> = Vec::new();
        targets.push(metric.name.clone());
        assert(targets.deep_view() =~= seq![metric.name@]);
        let ledger = ResearchLedger::new("optimize", targets);
        OptimizationState {
            graph: ExperimentGraph::new("optimize"),
            metric,
            objectives,
            frontier_type: FrontierType::Instance,
            acceptance: AcceptanceCriterion::StrictImprovement,
            bias: ResearchBias::default(),
            snapshot: LoopSnapshot { iteration: 0, metric_calls: 0, iterations_since_improvement: 0 },
            best_score: None,
            candidates,
            ledger,
            rejections: Vec::new(),
        }
    }

    /// This state with its objectives replaced.
    pub fn with_objectives(self, objectives: Objectives) -> (r: Self)
        ensures
            r == (OptimizationState { objectives, ..self }),
    {
        OptimizationState { objectives, ..self }
    }

    /// This state with its frontier type replaced.
    pub fn with_frontier_type(self, frontier_type: FrontierType) -> (r: Self)
        ensures
            r == (OptimizationState { frontier_type, ..self }),
    {
        OptimizationState { frontier_type, ..self }
    }

    /// This state with its acceptance criterion replaced.
    pub fn with_acceptance(self, acceptance: AcceptanceCriterion) -> (r: Self)
        ensures
            r == (OptimizationState { acceptance, ..self }),
    {
        OptimizationState { acceptance, ..self }
    }

    /// This state with its mode bias replaced.
    pub fn with_bias(self, bias: ResearchBias) -> (r: Self)
        ensures
            r == (OptimizationState { bias, ..self }),
    {
        OptimizationState { bias, ..self }
    }

    /// Records a rejection for `reason` and counts the iteration as one
    /// without improvement.
    pub fn reject(&mut self, reason: String)
        requires
            old(self).snapshot.iteration < u32::MAX,
            old(self).snapshot.iterations_since_improvement < u32::MAX,
        ensures
            final(self).rejections@.len() == old(self).rejections@.len() + 1,
            final(self).rejections@.take(old(self).rejections@.len() as int) == old(self).rejections@,
            final(self).rejections@.last().iteration == old(self).snapshot.iteration,
            final(self).rejections@.last().reason@ == reason@,
            final(self).snapshot == (LoopSnapshot {
                iteration: (old(self).snapshot.iteration + 1) as u32,
                iterations_since_improvement: (old(self).snapshot.iterations_since_improvement + 1) as u32,
                ..old(self).snapshot
            }),
            *final(self) == (OptimizationState { rejections: final(self).rejections, snapshot: final(self).snapshot, ..*old(self) }),
    {
        let iteration = self.snapshot.iteration;
        self.rejections.push(RejectionRecord { iteration, reason });
        assert(self.rejections@.take(old(self).rejections@.len() as int) =~= old(self).rejections@);
        self.snapshot.iteration = self.snapshot.iteration + 1;
        self.snapshot.iterations_since_improvement = self.snapshot.iterations_since_improvement + 1;
    }

    /// The candidate of node `id`, or the seed when it has none.
    pub fn candidate_of(&self, id: &str) -> (r: Candidate)
        requires
            self.candidates@.dom().contains("root"@),
        ensures
            r.deep_view() == (if self.candidates@.dom().contains(id@) {
                self.candidates@[id@].deep_view()
            } else {
                self.candidates@["root"@].deep_view()
            }),
    {
        match self.candidates.get(id) {
            Some(c) => c.deep_clone(),
            None => {
                let root = self.candidates.get("root").unwrap();
                root.deep_clone()
            },
        }
    }
}

/// The code of negative infinity.
pub open spec fn neg_inf() -> int {
    -0x7ff0_0000_0000_0000
}

/// The oriented score argmax ranks a node by: its score (negative infinity
/// when it has none) oriented by `d`.
pub open spec fn argmax_key(d: MetricDirection, n: ExperimentNode) -> int {
    directional(
        d,
        match n.score {
            Some(c) => c as int,
            None => neg_inf(),
        },
    )
}

/// Whether `a` beats `b` for argmax: a higher key, or keys that tie (equal,
/// or not comparable because one is NaN) and a smaller id.
pub open spec fn argmax_above(d: MetricDirection, a: ExperimentNode, b: ExperimentNode) -> bool {
    key_above(argmax_key(d, a), argmax_key(d, b)) || (key_ties(argmax_key(d, a), argmax_key(d, b)) && seq_lt(
        a.id@,
        b.id@,
    ))
}

/// The argmax of `s`: scanning in order, a later node takes over unless the
/// one held beats it.
pub open spec fn argmax_spec(d: MetricDirection, s: Seq<&ExperimentNode>) -> Option<&ExperimentNode>
    decreases s.len(),
{
    if s.len() == 0 {
        None
    } else {
        match argmax_spec(d, s.drop_last()) {
            None => Some(s.last()),
            Some(b) => if argmax_above(d, *b, *s.last()) {
                Some(b)
            } else {
                Some(s.last())
            },
        }
    }
}

/// The key argmax ranks a node by.
fn argmax_key_of(d: MetricDirection, n: &ExperimentNode) -> (r: i128)
    ensures
        r == argmax_key(d, *n),
{
    let s: i64 = match n.score {
        Some(c) => c,
        None => -0x7ff0_0000_0000_0000i64,
    };
    d.directional_score(s)
}

/// Whether every node of `s` has a score that is not NaN.
pub open spec fn all_scored(s: Seq<&ExperimentNode>) -> bool {
    forall|i: int| 0 <= i < s.len() ==> (#[trigger] s[i]).score is Some && !is_nan_code(s[i].score->0 as int)
}

/// Among scored nodes (no NaN), the argmax is a node of the pool that no node
/// of the pool beats under the direction, and that no node with the same
/// score precedes by id; there is one exactly when the pool is not empty.
pub proof fn lemma_argmax_is_best(d: MetricDirection, s: Seq<&ExperimentNode>)
    requires
        all_scored(s),
    ensures
        s.len() > 0 <==> argmax_spec(d, s) is Some,
        argmax_spec(d, s) matches Some(b) ==> s.contains(b) && forall|i: int|
            0 <= i < s.len() ==> !better(d, (#[trigger] s[i]).score->0 as int, b.score->0 as int) && (s[i].score
                == b.score ==> !seq_lt(s[i].id@, b.id@)),
    decreases s.len(),
{
    if s.len() > 0 {
        let init = s.drop_last();
        let last = s.last();
        assert forall|i: int| 0 <= i < init.len() implies (#[trigger] init[i]).score is Some && !is_nan_code(
            init[i].score->0 as int,
        ) by {
            assert(init[i] == s[i]);
        }
        lemma_argmax_is_best(d, init);
        assert(s[s.len() - 1] == last);
        let kl = last.score->0 as int;
        crate::outcome::lemma_direction_orders(d, kl, kl);
        crate::text::lemma_seq_lt_irreflexive(last.id@);
        match argmax_spec(d, init) {
            None => {},
            Some(b) => {
                let k = choose|k: int| 0 <= k < init.len() && init[k] == b;
                assert(s[k] == b);
                let kb = b.score->0 as int;
                crate::outcome::lemma_direction_orders(d, kb, kl);
                crate::outcome::lemma_direction_orders(d, kl, kb);
                crate::text::lemma_seq_lt_total(b.id@, last.id@);
                if argmax_above(d, *b, *last) {
                    if seq_lt(b.id@, last.id@) {
                        crate::text::lemma_seq_lt_asymmetric(b.id@, last.id@);
                    }
                    assert forall|i: int| 0 <= i < s.len() implies !better(
                        d,
                        (#[trigger] s[i]).score->0 as int,
                        b.score->0 as int,
                    ) && (s[i].score == b.score ==> !seq_lt(s[i].id@, b.id@)) by {
                        if i < s.len() - 1 {
                            assert(s[i] == init[i]);
                        }
                    }
                } else {
                    assert forall|i: int| 0 <= i < s.len() implies !better(
                        d,
                        (#[trigger] s[i]).score->0 as int,
                        last.score->0 as int,
                    ) && (s[i].score == last.score ==> !seq_lt(s[i].id@, last.id@)) by {
                        if i < s.len() - 1 {
                            assert(s[i] == init[i]);
                            let ki = s[i].score->0 as int;
                            crate::outcome::lemma_direction_orders(d, ki, kb);
                            crate::outcome::lemma_direction_orders(d, ki, kl);
                            if s[i].score == last.score && seq_lt(s[i].id@, last.id@) {
                                if seq_lt(last.id@, b.id@) {
                                    crate::text::lemma_seq_lt_transitive(s[i].id@, last.id@, b.id@);
                                }
                            }
                        }
                    }
                }
            },
        }
    }
}

/// The node of `pool` with the best oriented score (negative infinity
/// without one), the smaller id winning a tie.
pub fn argmax_score<'a>(pool: &Vec<&'a ExperimentNode>, metric: &Metric) -> (r: Option<&'a ExperimentNode>)
    ensures
        r == argmax_spec(metric.direction, pool@),
        all_scored(pool@) ==> (pool@.len() > 0 <==> r is Some),
        all_scored(pool@) ==> (r matches Some(b) ==> pool@.contains(b) && forall|i: int|
            0 <= i < pool@.len() ==> !better(metric.direction, (#[trigger] pool@[i]).score->0 as int, b.score->0 as int)
                && (pool@[i].score == b.score ==> !seq_lt(pool@[i].id@, b.id@))),
{
    proof {
        if all_scored(pool@) {
            lemma_argmax_is_best(metric.direction, pool@);
        }
    }
    let d = metric.direction;
    let mut best: Option<&'a ExperimentNode> = None;
    let mut i: usize = 0;
    while i < pool.len()
        invariant
            i <= pool@.len(),
            d == metric.direction,
            best == argmax_spec(d, pool@.take(i as int)),
        decreases pool@.len() - i,
    {
        assert(pool@.take(i + 1).drop_last() =~= pool@.take(i as int));
        let n = pool[i];
        match best {
            None => {
                best = Some(n);
            },
            Some(b) => {
                let kb = argmax_key_of(d, b);
                let kn = argmax_key_of(d, n);
                let nan = key_is_nan(kb) || key_is_nan(kn);
                let keep = (!nan && kb > kn) || ((nan || kb == kn) && str_lt(b.id.as_str(), n.id.as_str()));
                if !keep {
                    best = Some(n);
                }
            },
        }
        i = i + 1;
    }
    assert(pool@.take(pool@.len() as int) =~= pool@);
    best
}

/// Whether `a` beats `b` for validation: more inherited gates, then argmax.
pub open spec fn gated_above(d: MetricDirection, ga: int, a: ExperimentNode, gb: int, b: ExperimentNode) -> bool {
    ga > gb || (ga == gb && argmax_above(d, a, b))
}

/// The strictest-gated node of `s` (whose gate counts are `g`): scanning in
/// order, a later node takes over unless the one held beats it.
pub open spec fn strictest_spec(d: MetricDirection, s: Seq<&ExperimentNode>, g: Seq<usize>) -> Option<int>
    decreases s.len(),
{
    if s.len() == 0 {
        None
    } else {
        let l = s.len() - 1;
        match strictest_spec(d, s.drop_last(), g) {
            None => Some(l),
            Some(b) => if gated_above(d, g[b] as int, *s[b], g[l] as int, *s[l]) {
                Some(b)
            } else {
                Some(l)
            },
        }
    }
}

/// The node of `pool` with the most inherited gates (`gate_counts`, aligned
/// with the pool), then the best oriented score, then the smaller id.
pub fn strictest_gated<'a>(pool: &Vec<&'a ExperimentNode>, metric: &Metric, gate_counts: &Vec<usize>) -> (r: Option<&'a ExperimentNode>)
    requires
        gate_counts@.len() == pool@.len(),
    ensures
        match strictest_spec(metric.direction, pool@, gate_counts@) {
            Some(i) => r == Some(pool@[i]),
            None => r is None,
        },
{
    let d = metric.direction;
    let mut best: Option<usize> = None;
    let mut i: usize = 0;
    while i < pool.len()
        invariant
            i <= pool@.len(),
            gate_counts@.len() == pool@.len(),
            d == metric.direction,
            match best {
                Some(b) => strictest_spec(d, pool@.take(i as int), gate_counts@) == Some(b as int) && b < i,
                None => strictest_spec(d, pool@.take(i as int), gate_counts@) is None && i == 0,
            },
        decreases pool@.len() - i,
    {
        assert(pool@.take(i + 1).drop_last() =~= pool@.take(i as int));
        match best {
            None => {
                best = Some(i);
            },
            Some(b) => {
                let gb = gate_counts[b];
                let gn = gate_counts[i];
                let kb = argmax_key_of(d, pool[b]);
                let kn = argmax_key_of(d, pool[i]);
                let nan = key_is_nan(kb) || key_is_nan(kn);
                let keep = gb > gn || (gb == gn && ((!nan && kb > kn) || ((nan || kb == kn) && str_lt(
                    pool[b].id.as_str(),
                    pool[i].id.as_str(),
                ))));
                assert(pool@.take(i + 1)[b as int] == pool@[b as int]);
                if !keep {
                    best = Some(i);
                }
            },
        }
        i = i + 1;
    }
    assert(pool@.take(pool@.len() as int) =~= pool@);
    match best {
        Some(b) => Some(pool[b]),
        None => None,
    }
}


/// The minibatch for `iteration` over a trainset of `len` examples: `size`
/// examples (at least one, at most all), starting where the previous ones
/// left off and wrapping around; their positions and their ids
/// (`train_<position>`).
pub open spec fn minibatch_spec(len: nat, size: nat, iteration: nat) -> Seq<nat> {
    if len == 0 {
        Seq::empty()
    } else {
        let n = if size < 1 { 1 } else if size > len { len } else { size };
        let start = (iteration * n) % len;
        Seq::new(n, |i: int| ((start + i) % (len as int)) as nat)
    }
}

/// Samples the minibatch for `iteration` (see [`minibatch_spec`]).
pub fn sample_minibatch(len: usize, size: usize, iteration: u32) -> (r: (Vec<usize>, Vec<String>))
    ensures
        r.0@.len() == minibatch_spec(len as nat, size as nat, iteration as nat).len(),
        forall|i: int| 0 <= i < r.0@.len() ==> #[trigger] r.0@[i] == minibatch_spec(len as nat, size as nat, iteration as nat)[i],
        r.1@.len() == r.0@.len(),
        forall|i: int| 0 <= i < r.1@.len() ==> (#[trigger] r.1@[i])@ == "train_"@ + decimal(r.0@[i] as nat),
{
    let mut idx: Vec<usize> = Vec::new();
    let mut ids: Vec<String> = Vec::new();
    if len == 0 {
        return (idx, ids);
    }
    let n = if size < 1 { 1 } else if size > len { len } else { size };
    assert((iteration as int) * (n as int) <= 0xffff_ffff * 0xffff_ffff_ffff_ffff) by (nonlinear_arith)
        requires
            iteration <= 0xffff_ffff,
            n <= 0xffff_ffff_ffff_ffff,
    ;
    let wide: u128 = (iteration as u128) * (n as u128);
    let start = (wide % (len as u128)) as usize;
    let mut i: usize = 0;
    while i < n
        invariant
            i <= n,
            n <= len,
            len > 0,
            start < len,
            start == (iteration as nat * n as nat) % (len as nat),
            n == (if size < 1 { 1 } else if size > len { len } else { size }),
            idx@.len() == i,
            ids@.len() == i,
            forall|q: int| 0 <= q < i ==> #[trigger] idx@[q] == ((start + q) % (len as int)) as nat,
            forall|q: int| 0 <= q < i ==> (#[trigger] ids@[q])@ == "train_"@ + decimal(idx@[q] as nat),
        decreases n - i,
    {
        let pos = if i < len - start {
            start + i
        } else {
            i - (len - start)
        };
        assert(pos == ((start + i) % (len as int)) as nat) by (nonlinear_arith)
            requires
                start < len,
                i < len,
                pos == (if i < len - start { start + i } else { i - (len - start) }),
        ;
        let mut id = String::new();
        push_str(&mut id, "train_");
        let digits = decimal_chars(pos as u64);
        push_chars(&mut id, &digits);
        idx.push(pos);
        ids.push(id);
        i = i + 1;
    }
    (idx, ids)
}

/// The ids of `n` validation examples: `val_0`, `val_1`, ...
pub fn val_ids(n: usize) -> (r: Vec<String>)
    ensures
        r@.len() == n,
        forall|i: int| 0 <= i < n ==> (#[trigger] r@[i])@ == "val_"@ + decimal(i as nat),
{
    let mut out: Vec<String> = Vec::new();
    let mut i: usize = 0;
    while i < n
        invariant
            i <= n,
            out@.len() == i,
            forall|q: int| 0 <= q < i ==> (#[trigger] out@[q])@ == "val_"@ + decimal(q as nat),
        decreases n - i,
    {
        let mut id = String::new();
        push_str(&mut id, "val_");
        let digits = decimal_chars(i as u64);
        push_chars(&mut id, &digits);
        out.push(id);
        i = i + 1;
    }
    out
}

/// Why a gate run rejects a proposal: `gate '<name>' failed: <output>`
/// (or `no output`), when it did not pass.
pub open spec fn gate_failure_spec(name: Seq<char>, outcome: GateOutcome) -> Option<Seq<char>> {
    if outcome.passed {
        None
    } else {
        Some(
            "gate '"@ + name + "' failed: "@ + if outcome.output_snippet@.len() == 0 {
                "no output"@
            } else {
                outcome.output_snippet@
            },
        )
    }
}

/// Why the outcome of a gate called `name` rejects a proposal, if it does.
pub fn gate_failure(name: &str, outcome: &GateOutcome) -> (r: Option<String>)
    ensures
        match r {
            Some(x) => gate_failure_spec(name@, *outcome) == Some(x@),
            None => gate_failure_spec(name@, *outcome) is None,
        },
{
    if outcome.passed {
        return None;
    }
    let mut out = String::new();
    push_str(&mut out, "gate '");
    push_str(&mut out, name);
    push_str(&mut out, "' failed: ");
    if outcome.output_snippet.as_str().is_empty() {
        push_str(&mut out, "no output");
    } else {
        push_str(&mut out, outcome.output_snippet.as_str());
    }
    Some(out)
}

/// The statement of the hypothesis behind the child accepted in iteration
/// `iteration` (counted from 0) in `mode`.
pub open spec fn proposal_statement(iteration: nat, mode: ResearchMode) -> Seq<char> {
    "proposed iter "@ + decimal(iteration + 1) + " ("@ + mode_name(mode) + ")"@
}

/// What committing the child `id` of `parent` leaves besides the counters:
/// the graph's next id minted for `id` and the other nodes kept (the parent
/// listing `id` last among its children); `id` a child of `parent` with the
/// proposal hypothesis, committed as `iter <n>` with `outcome`, made and
/// stamped at `now`; the acceptance observed in the ledger; and the metric,
/// objectives, frontier type, acceptance criterion and bias unchanged.
pub open spec fn committed_child_spec(
    a: OptimizationState,
    b: OptimizationState,
    id: Seq<char>,
    parent: Seq<char>,
    mode: ResearchMode,
    outcome: TrialOutcome,
    score_text: Seq<char>,
    now: u64,
) -> bool {
    let n = b.graph.nodes@[id];
    let iteration = a.snapshot.iteration as nat;
    &&& id == crate::graph::node_id_spec(a.graph.next_id)
    &&& b.graph.next_id == a.graph.next_id + 1
    &&& b.graph.run_id == a.graph.run_id
    &&& b.graph.root == a.graph.root
    &&& b.graph.workspace_notes == a.graph.workspace_notes
    &&& forall|k: Seq<char>|
        k != id && k != parent && #[trigger] a.graph.nodes@.dom().contains(k) ==> b.graph.nodes@[k]
            == a.graph.nodes@[k]
    &&& id != parent ==> crate::graph::with_child(b.graph.nodes@[parent], a.graph.nodes@[parent], id)
        && n.children@.len() == 0
    &&& crate::graph::child_fields(
        ExperimentNode { status: crate::graph::ExperimentStatus::Pending, score: None, outcome: None, commit: None, ..n },
        id,
        parent,
        n.hypothesis,
        a.graph.run_id@,
        now,
    )
    &&& n.hypothesis.statement@ == proposal_statement(iteration, mode)
    &&& n.hypothesis.target is None
    &&& n.hypothesis.rationale@.len() == 0
    &&& n.hypothesis.mode == mode
    &&& n.outcome == Some(outcome)
    &&& crate::graph::holds_text(n.commit, "iter "@ + decimal(iteration + 1))
    &&& b.ledger.deep_view() == observe(
        a.ledger.deep_view(),
        a.metric.name@,
        "loop"@,
        "accepted "@ + id + " score="@ + score_text + " mode="@ + mode_name(mode),
        "parent="@ + parent,
        EvidenceConfidence::High,
        now,
    ).0
    &&& b.metric == a.metric
    &&& b.objectives == a.objectives
    &&& b.frontier_type == a.frontier_type
    &&& b.acceptance == a.acceptance
    &&& b.bias == a.bias
}

impl OptimizationState {
    /// Judges a proposal on the minibatch: its summed score `after` against
    /// the parent's `before` (score codes; `render` prints them). A rejected
    /// proposal is recorded and ends the iteration.
    pub fn judge_minibatch<F: Fn(i64) -> String>(&mut self, after: i64, before: i64, render: &F) -> (r: bool)
        requires
            forall|x: i64| render.requires((x,)),
            old(self).snapshot.iteration < u32::MAX,
            old(self).snapshot.iterations_since_improvement < u32::MAX,
        ensures
            exists|v: crate::acceptance::AcceptanceVerdict|
                #![trigger verdict_is(old(self).acceptance, after, Some(before), old(self).metric, *render, v)]
                verdict_is(old(self).acceptance, after, Some(before), old(self).metric, *render, v) && r == v.accepted && if v.accepted {
                    *final(self) == *old(self)
                } else {
                    final(self).rejections@ == old(self).rejections@.push(final(self).rejections@.last())
                        && final(self).rejections@.last().reason@ == v.reason@
                        && final(self).rejections@.last().iteration == old(self).snapshot.iteration
                        && final(self).snapshot.iteration == old(self).snapshot.iteration + 1
                        && final(self).snapshot.iterations_since_improvement == old(self).snapshot.iterations_since_improvement + 1
                        && final(self).snapshot.metric_calls == old(self).snapshot.metric_calls
                        && *final(self) == (OptimizationState {
                        rejections: final(self).rejections,
                        snapshot: final(self).snapshot,
                        ..*old(self)
                    })
                },
    {
        let verdict = self.acceptance.should_accept(after, Some(before), &self.metric, render);
        let ghost v = verdict;
        if !verdict.accepted {
            self.reject(verdict.reason);
            assert(self.rejections@ =~= old(self).rejections@.push(self.rejections@.last()));
            return false;
        }
        true
    }

    /// Commits the accepted child `child` of `parent_id`, found in `mode`,
    /// with its full evaluation `outcome`, at `now`: a new graph node with
    /// the hypothesis `proposed iter <n> (<mode>)`, evaluated and committed as
    /// `iter <n>`; the candidate kept under its id; an observation that it
    /// was accepted (`score_text` printing its score); the best score and the
    /// improvement count updated; the iteration ended.
    pub fn commit_child(
        &mut self,
        parent_id: &str,
        mode: ResearchMode,
        child: Candidate,
        outcome: TrialOutcome,
        score_text: &str,
        now: u64,
    ) -> (r: Result<String, GraphError>)
        requires
            old(self).graph.next_id < u64::MAX,
            old(self).snapshot.iteration < u32::MAX,
            old(self).snapshot.iterations_since_improvement < u32::MAX,
        ensures
            crate::graph::lineage_ok(old(self).graph) ==> crate::graph::lineage_ok(final(self).graph),
            !old(self).graph.nodes@.dom().contains(parent_id@) ==> crate::graph::unknown_node(r, parent_id@)
                && *final(self) == *old(self),
            old(self).graph.nodes@.dom().contains(parent_id@) && crate::graph::is_terminal(
                old(self).graph.nodes@[parent_id@].status,
            ) ==> crate::graph::terminal_error(r, parent_id@, old(self).graph.nodes@[parent_id@].status)
                && *final(self) == *old(self),
            old(self).graph.nodes@.dom().contains(parent_id@) && !crate::graph::is_terminal(
                old(self).graph.nodes@[parent_id@].status,
            ) ==> r is Ok,
            r matches Ok(id) ==> committed_child_spec(*old(self), *final(self), id@, parent_id@, mode, outcome, score_text@, now),
            r matches Ok(id) ==> ({
                let improved = match old(self).best_score {
                    None => true,
                    Some(b) => better(old(self).metric.direction, outcome.score as int, b as int),
                };
                &&& final(self).candidates@ == old(self).candidates@.insert(id@, child)
                &&& final(self).graph.nodes@.dom() == old(self).graph.nodes@.dom().insert(id@)
                &&& final(self).graph.nodes@[id@].hypothesis.statement@ == proposal_statement(
                    old(self).snapshot.iteration as nat,
                    mode,
                )
                &&& final(self).graph.nodes@[id@].hypothesis.mode == mode
                &&& final(self).graph.nodes@[id@].status == crate::graph::ExperimentStatus::Committed
                &&& final(self).graph.nodes@[id@].score == Some(outcome.score)
                &&& final(self).best_score == (if improved { Some(outcome.score) } else { old(self).best_score })
                &&& final(self).snapshot.iteration == old(self).snapshot.iteration + 1
                &&& final(self).snapshot.iterations_since_improvement == (if improved {
                    0
                } else {
                    old(self).snapshot.iterations_since_improvement + 1
                })
                &&& final(self).snapshot.metric_calls == old(self).snapshot.metric_calls
                &&& final(self).rejections == old(self).rejections
            }),
    {
        let n = self.snapshot.iteration + 1;
        let mut statement = String::new();
        push_str(&mut statement, "proposed iter ");
        let digits = decimal_chars(n as u64);
        push_chars(&mut statement, &digits);
        push_str(&mut statement, " (");
        push_str(&mut statement, mode.name());
        push_str(&mut statement, ")");
        let hypothesis = Hypothesis::new(statement.as_str()).with_mode(mode);
        let id = self.graph.allocate_child_at(parent_id, hypothesis, now)?;
        let ghost g1 = self.graph;
        self.candidates.insert(id.clone(), child);
        let score = outcome.score;
        match self.graph.record_outcome_at(id.as_str(), outcome, now) {
            Ok(()) => {},
            Err(e) => {
                return Err(e);
            },
        }
        let mut label = String::new();
        push_str(&mut label, "iter ");
        push_chars(&mut label, &digits);
        match self.graph.commit_at(id.as_str(), label.as_str(), now) {
            Ok(()) => {},
            Err(e) => {
                return Err(e);
            },
        }
        let mut summary = String::new();
        push_str(&mut summary, "accepted ");
        push_str(&mut summary, id.as_str());
        push_str(&mut summary, " score=");
        push_str(&mut summary, score_text);
        push_str(&mut summary, " mode=");
        push_str(&mut summary, mode.name());
        let mut detail = String::new();
        push_str(&mut detail, "parent=");
        push_str(&mut detail, parent_id);
        self.ledger.record_observation_at(
            self.metric.name.as_str(),
            "loop",
            summary.as_str(),
            detail.as_str(),
            EvidenceConfidence::High,
            now,
        );
        let improved = match self.best_score {
            None => true,
            Some(b) => self.metric.direction.is_better(score, b),
        };
        if improved {
            self.best_score = Some(score);
            self.snapshot.iterations_since_improvement = 0;
        } else {
            self.snapshot.iterations_since_improvement = self.snapshot.iterations_since_improvement + 1;
        }
        self.snapshot.iteration = n;
        proof {
            let a = *old(self);
            let b = *self;
            let nn = b.graph.nodes@[id@];
            assert(id@ == crate::graph::node_id_spec(a.graph.next_id));
            assert(b.graph.next_id == a.graph.next_id + 1);
            assert(forall|k: Seq<char>|
                k != id@ && k != parent_id@ && #[trigger] a.graph.nodes@.dom().contains(k) ==> b.graph.nodes@[k]
                    == a.graph.nodes@[k]);
            assert(id@ != parent_id@ ==> crate::graph::with_child(b.graph.nodes@[parent_id@], a.graph.nodes@[parent_id@], id@)
                && nn.children@.len() == 0);
            assert(crate::graph::child_fields(
                ExperimentNode { status: crate::graph::ExperimentStatus::Pending, score: None, outcome: None, commit: None, ..nn },
                id@,
                parent_id@,
                nn.hypothesis,
                a.graph.run_id@,
                now,
            ));
            assert(nn.hypothesis.statement@ == proposal_statement(a.snapshot.iteration as nat, mode));
            assert(crate::graph::holds_text(nn.commit, "iter "@ + decimal(a.snapshot.iteration as nat + 1)));
            assert(b.ledger.deep_view() == observe(
                a.ledger.deep_view(),
                a.metric.name@,
                "loop"@,
                "accepted "@ + id@ + " score="@ + score_text@ + " mode="@ + mode_name(mode),
                "parent="@ + parent_id@,
                EvidenceConfidence::High,
                now,
            ).0);
        }
        Ok(id)
    }

    /// The exploit parent: the best evaluated node and its candidate, or the
    /// seed under the root id when nothing is evaluated.
    pub fn select_parent(&self) -> (r: (String, Candidate))
        requires
            self.candidates@.dom().contains("root"@),
        ensures
            exists|pool: Seq<&ExperimentNode>|
                #![trigger argmax_spec(self.metric.direction, pool)]
                crate::graph::refs_are(
                    pool,
                    crate::graph::nodes_in_order(self.graph.nodes).filter(|n: ExperimentNode| crate::graph::is_evaluated(n)),
                ) && match argmax_spec(self.metric.direction, pool) {
                    Some(n) => r.0@ == n.id@ && r.1.deep_view() == (if self.candidates@.dom().contains(n.id@) {
                        self.candidates@[n.id@].deep_view()
                    } else {
                        self.candidates@["root"@].deep_view()
                    }),
                    None => r.0@ == "root"@ && r.1.deep_view() == self.candidates@["root"@].deep_view(),
                },
    {
        let pool = self.graph.evaluated_pool();
        match argmax_score(&pool, &self.metric) {
            Some(node) => (node.id.clone(), self.candidate_of(node.id.as_str())),
            None => ("root".to_owned(), self.candidate_of("root")),
        }
    }
}

/// How many gates are in force at node `id` of `nodes` (none where its
/// lineage cannot be walked).
pub open spec fn gate_count(nodes: Map<Seq<char>, ExperimentNode>, id: Seq<char>) -> int {
    match path_spec(nodes, id) {
        Ok(s) => first_gates(all_gates(s)).len() as int,
        Err(_) => 0,
    }
}

/// The numbers of gates in force at each node of `pool`, in order.
pub open spec fn gate_counts_spec(nodes: Map<Seq<char>, ExperimentNode>, pool: Seq<&ExperimentNode>) -> Seq<usize> {
    Seq::new(pool.len(), |i: int| gate_count(nodes, pool[i].id@) as usize)
}

/// The node chosen in `mode` among `sel` before any fallback: the best to
/// exploit, the strictest-gated to validate (by the per-node counts `counts`),
/// and to explore the one at position `explored`.
pub open spec fn mode_choice<'a>(
    d: MetricDirection,
    sel: Seq<&'a ExperimentNode>,
    mode: ResearchMode,
    explored: Option<usize>,
    counts: Seq<usize>,
) -> Option<&'a ExperimentNode> {
    match mode {
        ResearchMode::Exploit => argmax_spec(d, sel),
        ResearchMode::Explore => match explored {
            Some(i) => Some(sel[i as int]),
            None => None,
        },
        ResearchMode::Validate => match strictest_spec(d, sel, counts) {
            Some(i) => Some(sel[i]),
            None => None,
        },
    }
}

impl OptimizationState {
    /// The numbers of gates in force at each node of `pool`, in order.
    pub fn gate_counts(&self, pool: &Vec<&ExperimentNode>) -> (r: Vec<usize>)
        requires
            forall|i: int| 0 <= i < pool@.len() ==> walk_ends(self.graph.nodes@, (#[trigger] pool@[i]).id@),
        ensures
            r@ == gate_counts_spec(self.graph.nodes@, pool@),
    {
        let mut out: Vec<usize> = Vec::new();
        let mut i: usize = 0;
        while i < pool.len()
            invariant
                i <= pool@.len(),
                forall|j: int| 0 <= j < pool@.len() ==> walk_ends(self.graph.nodes@, (#[trigger] pool@[j]).id@),
                out@ == gate_counts_spec(self.graph.nodes@, pool@.take(i as int)),
            decreases pool@.len() - i,
        {
            proof {
                assert(walk_ends(self.graph.nodes@, pool@[i as int].id@));
            }
            let c: usize = match self.graph.effective_gates(pool[i].id.as_str()) {
                Ok(g) => g.len(),
                Err(_) => 0,
            };
            let ghost prev = out@;
            out.push(c);
            assert(out@ =~= gate_counts_spec(self.graph.nodes@, pool@.take(i + 1))) by {
                assert(out@ == prev.push(c));
                match path_spec(self.graph.nodes@, pool@[i as int].id@) {
                    Ok(s) => {},
                    Err(_) => {},
                }
            }
            i = i + 1;
        }
        assert(pool@.take(pool@.len() as int) =~= pool@);
        out
    }

    /// The node to mutate in `mode` among `selectable`: the best one to
    /// exploit, the one with the most gates in force (then the best, then the
    /// smaller id) to validate, and to explore the one at position `explored`
    /// that the caller's weighted draw picked; the best one where that finds
    /// none.
    pub fn choose_in_mode<'a>(&self, selectable: &Vec<&'a ExperimentNode>, mode: ResearchMode, explored: Option<usize>) -> (r:
        Option<&'a ExperimentNode>)
        requires
            forall|i: int| 0 <= i < selectable@.len() ==> walk_ends(self.graph.nodes@, (#[trigger] selectable@[i]).id@),
            explored matches Some(i) ==> i < selectable@.len(),
        ensures
            r == match mode_choice(
                self.metric.direction,
                selectable@,
                mode,
                explored,
                gate_counts_spec(self.graph.nodes@, selectable@),
            ) {
                Some(n) => Some(n),
                None => argmax_spec(self.metric.direction, selectable@),
            },
    {
        let first = match mode {
            ResearchMode::Exploit => argmax_score(selectable, &self.metric),
            ResearchMode::Explore => match explored {
                Some(i) => Some(selectable[i]),
                None => None,
            },
            ResearchMode::Validate => {
                let counts = self.gate_counts(selectable);
                strictest_gated(selectable, &self.metric, &counts)
            },
        };
        match first {
            Some(n) => Some(n),
            None => argmax_score(selectable, &self.metric),
        }
    }

    /// The nodes a parent is chosen from: the non-dominated evaluated nodes,
    /// or every evaluated node when none is non-dominated.
    pub fn selectable(&self) -> (r: Vec<&ExperimentNode>)
        requires
            self.objectives.metrics@.len() > 0,
        ensures
            exists|pool: Seq<&ExperimentNode>|
                #![trigger crate::pareto::derefs(pool)]
                crate::graph::refs_are(
                    pool,
                    crate::graph::nodes_in_order(self.graph.nodes).filter(|n: ExperimentNode| crate::graph::is_evaluated(n)),
                ) && ({
                    let nd = crate::pareto::derefs(pool).filter(
                        |n: ExperimentNode| crate::pareto::front_ids(
                            crate::pareto::front_spec(crate::pareto::derefs(pool), self.frontier_type, self.objectives.metrics@),
                        ).contains(n.id@),
                    );
                    if nd.len() == 0 {
                        r@ == pool
                    } else {
                        crate::graph::refs_are(r@, nd)
                    }
                }),
    {
        let pool = self.graph.evaluated_pool();
        let nd = crate::pareto::non_dominated_set(pool.as_slice(), self.frontier_type, &self.objectives);
        if nd.len() == 0 {
            pool
        } else {
            nd
        }
    }
}
} // verus!
