//! The optimization loop: select a parent, propose a child from reflection
//! on a minibatch, judge it on that minibatch, hold it to the gates in force
//! when validating, evaluate it in full and commit it, until a stop
//! condition fires. Every step that runs outside the library (evaluation,
//! proposal, gates, floating-point sums and sampling) is a call of a function
//! the host hands in.

use vstd::prelude::*;

use crate::acceptance::{verdict_is, AcceptanceVerdict};
use crate::adapter::{gate_rejection, gate_run, reason_view};
use crate::cache::{cached_evaluate, EvaluationBatch, EvaluationCache};
use crate::clock::now_millis;
use crate::graph::{walk_ends, ResearchMode};
use crate::graph::{all_gates, first_gates, path_spec};
use crate::lm_loop::{dossier_spec, render_spec, ResearchLedgerV};
use crate::loop_opt::{committed_child_spec, minibatch_spec, sample_minibatch, val_ids, OptimizationState};
use crate::policy::GateV;
use crate::outcome::TrialOutcome;
use crate::policy::{Gate, GateOutcome};
use crate::proposer::Candidate;
use crate::stop::{stop_spec, StopCondition};

verus! {

/// How many of each kind of ledger entry the reflection history shows.
pub const REFLECTION_HISTORY_ITEMS: usize = 16;

/// Evaluates `candidate` on the examples at `positions` (of the validation
/// set where `from_val`, else of the training set), named `ids`, through
/// `cache`: the host's `evaluate` is asked, with the positions and the missed
/// ones among them, only for the misses. The batch's metric calls are the
/// misses the cache counted. Refused, with the cache untouched, where the
/// cache's counters could overflow.
pub fn evaluate_through<O: Clone + Default, E: Fn(&Vec<usize>, &Vec<usize>, bool, &Candidate, bool) -> Result<
    EvaluationBatch<O>,
    String,
>>(
    cache: &mut EvaluationCache<O>,
    positions: &Vec<usize>,
    ids: &Vec<String>,
    from_val: bool,
    candidate: &Candidate,
    capture: bool,
    evaluate: &E,
) -> (r: Result<EvaluationBatch<O>, String>)
    requires
        forall|a: &Vec<usize>, b: &Vec<usize>, c: bool, d: &Candidate, e: bool| evaluate.requires((a, b, c, d, e)),
    ensures
        (old(cache).hit_count() + ids@.len() > u32::MAX || old(cache).miss_count() + ids@.len() > u32::MAX) ==> (r
            is Err && *final(cache) == *old(cache)),
        final(cache).miss_count() >= old(cache).miss_count(),
        r matches Ok(b) ==> b.num_metric_calls == final(cache).miss_count() - old(cache).miss_count(),
{
    if ids.len() > 0xffff_ffffusize || cache.hits() as u64 + ids.len() as u64 > 0xffff_ffffu64
        || cache.misses() as u64 + ids.len() as u64 > 0xffff_ffffu64 {
        return Err(String::from_str("evaluation cache counters would overflow"));
    }
    let f = |misses: &Vec<usize>| -> (res: Result<EvaluationBatch<O>, String>)
        requires
            forall|a: &Vec<usize>, b: &Vec<usize>, c: bool, d: &Candidate, e: bool| evaluate.requires((a, b, c, d, e)),
        ensures
            evaluate.ensures((positions, misses, from_val, candidate, capture), res),
        { evaluate(positions, misses, from_val, candidate, capture) };
    cached_evaluate(cache, ids, candidate, &f)
}

/// What one iteration of the loop did with its proposal.
#[derive(Debug, PartialEq, Eq)]
pub enum StepOutcome {
    /// It did not improve on its parent on the minibatch.
    Rejected,
    /// It improved, but a gate in force at its parent failed on it.
    GateRejected,
    /// It was accepted and committed under this id.
    Committed(String),
}

/// Whether `b` is `a` after a rejected proposal: the lineage, candidates,
/// ledger and best score kept, the rejection recorded for this iteration,
/// and the iteration counted as one without improvement.
pub open spec fn rejected_step(a: OptimizationState, b: OptimizationState) -> bool {
    &&& b.graph == a.graph
    &&& b.candidates == a.candidates
    &&& b.ledger == a.ledger
    &&& b.best_score == a.best_score
    &&& b.rejections@.len() == a.rejections@.len() + 1
    &&& b.rejections@.take(a.rejections@.len() as int) == a.rejections@
    &&& b.rejections@.last().iteration == a.snapshot.iteration
    &&& b.snapshot.iterations_since_improvement == a.snapshot.iterations_since_improvement + 1
}

/// The history reflection reads: the ledger's dossier rendered in full.
pub open spec fn history_of(l: ResearchLedgerV) -> Seq<char> {
    render_spec(
        dossier_spec(l, REFLECTION_HISTORY_ITEMS as nat),
        Seq::empty(),
        Seq::empty(),
        "Continue the research loop."@,
    )
}

/// Whether the positions `pos` are the numbers `s`.
pub open spec fn positions_are(pos: Seq<usize>, s: Seq<nat>) -> bool {
    pos.len() == s.len() && forall|i: int| 0 <= i < s.len() ==> pos[i] == #[trigger] s[i]
}

/// The gates in force at node `id` of `nodes`: those of its lineage, a name
/// kept where it first appears (none where `id` is unknown).
pub open spec fn gates_in_force(nodes: Map<Seq<char>, crate::graph::ExperimentNode>, id: Seq<char>) -> Seq<GateV> {
    match path_spec(nodes, id) {
        Ok(s) => first_gates(all_gates(s)),
        Err(_) => Seq::empty(),
    }
}

/// Whether `b` is `a` after a proposal rejected on the minibatch: as
/// [`rejected_step`], with the reason the acceptance criterion gave for some
/// summed scores of the child (`after`) and the parent (`before`).
pub open spec fn judged_out<R: Fn(i64) -> String>(a: OptimizationState, b: OptimizationState, render: R) -> bool {
    &&& rejected_step(a, b)
    &&& exists|after: i64, before: i64, v: AcceptanceVerdict|
        #![trigger verdict_is(a.acceptance, after, Some(before), a.metric, render, v)]
        verdict_is(a.acceptance, after, Some(before), a.metric, render, v) && !v.accepted
            && b.rejections@.last().reason@ == v.reason@
}

/// Whether `b` is `a` after a proposal that failed a gate: as
/// [`rejected_step`], in `Validate` mode, with the first failing gate's
/// reason, the gates in force at the parent `select` chose having run in
/// order on the child.
pub open spec fn gated_out<S: Fn(&OptimizationState) -> Result<(String, Candidate, ResearchMode), String>>(
    a: OptimizationState,
    b: OptimizationState,
    select: S,
) -> bool {
    &&& rejected_step(a, b)
    &&& exists|sel: (String, Candidate, ResearchMode), gates: Vec<Gate>, outs: Seq<GateOutcome>|
        #![trigger select.ensures((&a,), Ok::<(String, Candidate, ResearchMode), String>(sel)), gate_run(gates@, outs, Some(b.rejections@.last().reason@))]
        select.ensures((&a,), Ok::<(String, Candidate, ResearchMode), String>(sel)) && sel.2 == ResearchMode::Validate
            && gates.deep_view() == gates_in_force(a.graph.nodes@, sel.0@) && gate_run(
            gates@,
            outs,
            Some(b.rejections@.last().reason@),
        )
}

/// Whether `b` is `a` after committing the child `id`, with the witnesses of
/// how it came: `select` chose `sel`; `propose` made `child` from the
/// parent's candidate, the minibatch positions of this iteration, an
/// evaluation `before`, the parent's components and the rendered history;
/// `outcome_of` made `outcome` from a full evaluation `full` named by `vids`;
/// `score_text` printed its score as `text`; and the child was committed at
/// `now` (see [`committed_child_spec`]) under its full-validation score.
pub open spec fn committed_with<
    O,
    S: Fn(&OptimizationState) -> Result<(String, Candidate, ResearchMode), String>,
    P: Fn(&Candidate, &Vec<usize>, &EvaluationBatch<O>, &Vec<String>, &str) -> Result<Candidate, String>,
    B: Fn(&EvaluationBatch<O>, &Vec<String>) -> TrialOutcome,
    T: Fn(i64) -> String,
>(
    a: OptimizationState,
    b: OptimizationState,
    id: Seq<char>,
    select: S,
    propose: P,
    outcome_of: B,
    score_text: T,
    trainset_len: usize,
    valset_len: usize,
    minibatch_size: usize,
    sel: (String, Candidate, ResearchMode),
    pos: Vec<usize>,
    before: EvaluationBatch<O>,
    comps: Vec<String>,
    hist: &str,
    child: Candidate,
    full: EvaluationBatch<O>,
    vids: Vec<String>,
    outcome: TrialOutcome,
    text: String,
    now: u64,
) -> bool {
    &&& select.ensures((&a,), Ok::<(String, Candidate, ResearchMode), String>(sel))
    &&& positions_are(pos@, minibatch_spec(trainset_len as nat, minibatch_size as nat, a.snapshot.iteration as nat))
    &&& comps.deep_view() == sel.1.keys()
    &&& hist@ == history_of(a.ledger.deep_view())
    &&& propose.ensures((&sel.1, &pos, &before, &comps, hist), Ok::<Candidate, String>(child))
    &&& b.candidates@ == a.candidates@.insert(id, child)
    &&& vids@.len() == valset_len
    &&& outcome_of.ensures((&full, &vids), outcome)
    &&& score_text.ensures((outcome.score,), text)
    &&& committed_child_spec(a, b, id, sel.0@, sel.2, outcome, text@, now)
    &&& b.graph.nodes@[id].score == Some(outcome.score)
}

/// Whether `b` is `a` after committing the child `id`, by some selection,
/// proposal, full evaluation and outcome (see [`committed_with`]).
pub open spec fn committed_step<
    O,
    S: Fn(&OptimizationState) -> Result<(String, Candidate, ResearchMode), String>,
    P: Fn(&Candidate, &Vec<usize>, &EvaluationBatch<O>, &Vec<String>, &str) -> Result<Candidate, String>,
    B: Fn(&EvaluationBatch<O>, &Vec<String>) -> TrialOutcome,
    T: Fn(i64) -> String,
>(
    a: OptimizationState,
    b: OptimizationState,
    id: Seq<char>,
    select: S,
    propose: P,
    outcome_of: B,
    score_text: T,
    trainset_len: usize,
    valset_len: usize,
    minibatch_size: usize,
) -> bool {
    exists|
        sel: (String, Candidate, ResearchMode),
        pos: Vec<usize>,
        before: EvaluationBatch<O>,
        comps: Vec<String>,
        hist: &str,
        child: Candidate,
        full: EvaluationBatch<O>,
        vids: Vec<String>,
        outcome: TrialOutcome,
        text: String,
        now: u64,
    |
        #![trigger committed_with(a, b, id, select, propose, outcome_of, score_text, trainset_len, valset_len, minibatch_size, sel, pos, before, comps, hist, child, full, vids, outcome, text, now)]
        committed_with(
            a,
            b,
            id,
            select,
            propose,
            outcome_of,
            score_text,
            trainset_len,
            valset_len,
            minibatch_size,
            sel,
            pos,
            before,
            comps,
            hist,
            child,
            full,
            vids,
            outcome,
            text,
            now,
        )
}

/// Runs one iteration of the loop on `state`:
/// - `select` picks the parent, its candidate and the research mode;
/// - the parent is evaluated (with traces) on the minibatch of the training
///   set that [`sample_minibatch`] gives for this iteration;
/// - `propose` makes a child from the parent, the minibatch, its evaluation,
///   the parent's components and the rendered ledger history;
/// - the child is evaluated on the same minibatch, and the two evaluations'
///   scores, summed by `sum`, are judged by the acceptance criterion
///   (`render` prints scores in a rejection);
/// - in `Validate` mode, with a gate runner, the gates in force at the parent
///   are run on the child in order, and the first failure rejects it;
/// - the child is evaluated on the whole validation set, `outcome_of` makes
///   its outcome from that evaluation, and it is committed (`score_text`
///   printing its score in the ledger).
/// Every evaluation goes through `cache`. Each completed iteration counts one
/// more iteration and the evaluations' metric calls. Refused where a counter
/// is exhausted or the parent's lineage does not end; the host's errors are
/// passed on.
pub fn optimize_step<
    O: Clone + Default,
    S: Fn(&OptimizationState) -> Result<(String, Candidate, ResearchMode), String>,
    E: Fn(&Vec<usize>, &Vec<usize>, bool, &Candidate, bool) -> Result<EvaluationBatch<O>, String>,
    P: Fn(&Candidate, &Vec<usize>, &EvaluationBatch<O>, &Vec<String>, &str) -> Result<Candidate, String>,
    G: Fn(&Gate, &Candidate) -> Result<GateOutcome, String>,
    A: Fn(&Vec<i64>) -> i64,
    R: Fn(i64) -> String,
    B: Fn(&EvaluationBatch<O>, &Vec<String>) -> TrialOutcome,
    T: Fn(i64) -> String,
>(
    state: &mut OptimizationState,
    cache: &mut EvaluationCache<O>,
    select: &S,
    evaluate: &E,
    propose: &P,
    run_gate: Option<&G>,
    sum: &A,
    render: &R,
    outcome_of: &B,
    score_text: &T,
    trainset_len: usize,
    valset_len: usize,
    minibatch_size: usize,
) -> (r: Result<StepOutcome, String>)
    requires
        forall|s: &OptimizationState| select.requires((s,)),
        forall|a: &Vec<usize>, b: &Vec<usize>, c: bool, d: &Candidate, e: bool| evaluate.requires((a, b, c, d, e)),
        forall|a: &Candidate, b: &Vec<usize>, c: &EvaluationBatch<O>, d: &Vec<String>, e: &str|
            propose.requires((a, b, c, d, e)),
        forall|g: &G, a: &Gate, c: &Candidate| run_gate == Some(g) ==> g.requires((a, c)),
        forall|v: &Vec<i64>| sum.requires((v,)),
        forall|x: i64| render.requires((x,)),
        forall|b: &EvaluationBatch<O>, v: &Vec<String>| outcome_of.requires((b, v)),
        forall|x: i64| score_text.requires((x,)),
    ensures
        r is Ok ==> final(state).snapshot.iteration == old(state).snapshot.iteration + 1,
        r is Ok ==> final(state).snapshot.metric_calls == old(state).snapshot.metric_calls + (final(cache).miss_count()
            - old(cache).miss_count()),
        r is Ok ==> final(state).metric == old(state).metric && final(state).objectives == old(state).objectives
            && final(state).frontier_type == old(state).frontier_type && final(state).acceptance == old(
            state,
        ).acceptance && final(state).bias == old(state).bias,
        r is Ok ==> final(state).rejections@.len() >= old(state).rejections@.len() && final(state).rejections@.take(
            old(state).rejections@.len() as int,
        ) == old(state).rejections@,
        r matches Ok(StepOutcome::Rejected) ==> judged_out(*old(state), *final(state), *render),
        r matches Ok(StepOutcome::GateRejected) ==> gated_out(*old(state), *final(state), *select) && run_gate is Some,
        r matches Ok(StepOutcome::Committed(id)) ==> committed_step(
            *old(state),
            *final(state),
            id@,
            *select,
            *propose,
            *outcome_of,
            *score_text,
            trainset_len,
            valset_len,
            minibatch_size,
        ),
{
    if state.snapshot.iteration == u32::MAX || state.snapshot.iterations_since_improvement == u32::MAX
        || state.graph.next_id == u64::MAX {
        return Err(String::from_str("loop counters exhausted"));
    }
    let ghost s0 = *state;
    assert(s0 == *old(state));
    let ghost m0 = cache.miss_count();
    let sel = select(&*state)?;
    let ghost gsel = sel;
    let (parent_id, parent_candidate, mode) = sel;
    let components: Vec<String> = parent_candidate.key_list();
    let (positions, ids) = sample_minibatch(trainset_len, minibatch_size, state.snapshot.iteration);
    let before = evaluate_through(cache, &positions, &ids, false, &parent_candidate, true, evaluate)?;
    if before.num_metric_calls > u32::MAX - state.snapshot.metric_calls {
        return Err(String::from_str("metric call counter exhausted"));
    }
    state.snapshot.metric_calls = state.snapshot.metric_calls + before.num_metric_calls;
    let history = state.ledger.render_dossier(REFLECTION_HISTORY_ITEMS);
    let hist: &str = history.as_str();
    let child = propose(&parent_candidate, &positions, &before, &components, hist)?;
    let ghost gchild = child;
    let after = evaluate_through(cache, &positions, &ids, false, &child, false, evaluate)?;
    if after.num_metric_calls > u32::MAX - state.snapshot.metric_calls {
        return Err(String::from_str("metric call counter exhausted"));
    }
    state.snapshot.metric_calls = state.snapshot.metric_calls + after.num_metric_calls;
    let after_sum = sum(&after.scores);
    let before_sum = sum(&before.scores);
    if !state.judge_minibatch(after_sum, before_sum, render) {
        assert(state.rejections@.take(s0.rejections@.len() as int) =~= s0.rejections@);
        return Ok(StepOutcome::Rejected);
    }
    if mode == ResearchMode::Validate {
        match run_gate {
            Some(g) => {
                if !state.graph.lineage_ends(parent_id.as_str()) {
                    return Err(String::from_str("the parent's lineage does not end"));
                }
                let gates: Vec<Gate> = match state.graph.effective_gates(parent_id.as_str()) {
                    Ok(v) => v,
                    Err(_) => Vec::new(),
                };
                match gate_rejection(g, &gates, &child)? {
                    Some(reason) => {
                        state.reject(reason);
                        return Ok(StepOutcome::GateRejected);
                    },
                    None => {},
                }
            },
            None => {},
        }
    }
    let mut vpos: Vec<usize> = Vec::new();
    let mut i: usize = 0;
    while i < valset_len
        invariant
            i <= valset_len,
            vpos@.len() == i,
            forall|j: int| 0 <= j < i ==> vpos@[j] == j,
        decreases valset_len - i,
    {
        vpos.push(i);
        i = i + 1;
    }
    let vids = val_ids(valset_len);
    let full = evaluate_through(cache, &vpos, &vids, true, &child, false, evaluate)?;
    if full.num_metric_calls > u32::MAX - state.snapshot.metric_calls {
        return Err(String::from_str("metric call counter exhausted"));
    }
    state.snapshot.metric_calls = state.snapshot.metric_calls + full.num_metric_calls;
    let outcome = outcome_of(&full, &vids);
    let ghost goutcome = outcome;
    let text = score_text(outcome.score);
    let now = now_millis();
    match state.commit_child(parent_id.as_str(), mode, child, outcome, text.as_str(), now) {
        Ok(id) => {
            proof {
                assert(positions_are(
                    positions@,
                    minibatch_spec(trainset_len as nat, minibatch_size as nat, s0.snapshot.iteration as nat),
                ));
                assert(committed_with(
                    *old(state),
                    *state,
                    id@,
                    *select,
                    *propose,
                    *outcome_of,
                    *score_text,
                    trainset_len,
                    valset_len,
                    minibatch_size,
                    gsel,
                    positions,
                    before,
                    components,
                    hist,
                    gchild,
                    full,
                    vids,
                    goutcome,
                    text,
                    now,
                ));
            }
            Ok(StepOutcome::Committed(id))
        },
        Err(e) => Err(e.message()),
    }
}

/// Runs the loop on `state` until `stop` fires at its progress (checked
/// before each iteration; see [`optimize_step`] for one iteration): nothing
/// at all where the validation set is empty. When it ends well, the stop
/// condition holds of the final progress, every metric call counted is one
/// the cache counted as a miss, no rejection was dropped, and the loop's
/// settings are as they were. The first error of an iteration ends it.
pub fn optimize<
    O: Clone + Default,
    S: Fn(&OptimizationState) -> Result<(String, Candidate, ResearchMode), String>,
    E: Fn(&Vec<usize>, &Vec<usize>, bool, &Candidate, bool) -> Result<EvaluationBatch<O>, String>,
    P: Fn(&Candidate, &Vec<usize>, &EvaluationBatch<O>, &Vec<String>, &str) -> Result<Candidate, String>,
    G: Fn(&Gate, &Candidate) -> Result<GateOutcome, String>,
    A: Fn(&Vec<i64>) -> i64,
    R: Fn(i64) -> String,
    B: Fn(&EvaluationBatch<O>, &Vec<String>) -> TrialOutcome,
    T: Fn(i64) -> String,
>(
    state: &mut OptimizationState,
    stop: &StopCondition,
    cache: &mut EvaluationCache<O>,
    select: &S,
    evaluate: &E,
    propose: &P,
    run_gate: Option<&G>,
    sum: &A,
    render: &R,
    outcome_of: &B,
    score_text: &T,
    trainset_len: usize,
    valset_len: usize,
    minibatch_size: usize,
) -> (r: Result<(), String>)
    requires
        forall|s: &OptimizationState| select.requires((s,)),
        forall|a: &Vec<usize>, b: &Vec<usize>, c: bool, d: &Candidate, e: bool| evaluate.requires((a, b, c, d, e)),
        forall|a: &Candidate, b: &Vec<usize>, c: &EvaluationBatch<O>, d: &Vec<String>, e: &str|
            propose.requires((a, b, c, d, e)),
        forall|g: &G, a: &Gate, c: &Candidate| run_gate == Some(g) ==> g.requires((a, c)),
        forall|v: &Vec<i64>| sum.requires((v,)),
        forall|x: i64| render.requires((x,)),
        forall|b: &EvaluationBatch<O>, v: &Vec<String>| outcome_of.requires((b, v)),
        forall|x: i64| score_text.requires((x,)),
    ensures
        valset_len == 0 ==> r is Ok && *final(state) == *old(state) && *final(cache) == *old(cache),
        valset_len > 0 && r is Ok ==> exists|present: Seq<Seq<char>>|
            #[trigger] stop_spec(*stop, final(state).snapshot, present),
        r is Ok ==> final(state).snapshot.iteration >= old(state).snapshot.iteration,
        r is Ok ==> final(state).snapshot.metric_calls - old(state).snapshot.metric_calls == final(cache).miss_count()
            - old(cache).miss_count(),
        r is Ok ==> final(state).rejections@.len() >= old(state).rejections@.len() && final(state).rejections@.take(
            old(state).rejections@.len() as int,
        ) == old(state).rejections@,
        r is Ok ==> final(state).metric == old(state).metric && final(state).objectives == old(state).objectives
            && final(state).frontier_type == old(state).frontier_type && final(state).acceptance == old(
            state,
        ).acceptance && final(state).bias == old(state).bias,
{
    if valset_len == 0 {
        return Ok(());
    }
    loop
        invariant
            forall|s: &OptimizationState| select.requires((s,)),
            forall|a: &Vec<usize>, b: &Vec<usize>, c: bool, d: &Candidate, e: bool| evaluate.requires((a, b, c, d, e)),
            forall|a: &Candidate, b: &Vec<usize>, c: &EvaluationBatch<O>, d: &Vec<String>, e: &str|
                propose.requires((a, b, c, d, e)),
            forall|g: &G, a: &Gate, c: &Candidate| run_gate == Some(g) ==> g.requires((a, c)),
            forall|v: &Vec<i64>| sum.requires((v,)),
            forall|x: i64| render.requires((x,)),
            forall|b: &EvaluationBatch<O>, v: &Vec<String>| outcome_of.requires((b, v)),
            forall|x: i64| score_text.requires((x,)),
            state.snapshot.iteration >= old(state).snapshot.iteration,
            state.snapshot.metric_calls - old(state).snapshot.metric_calls == cache.miss_count() - old(
                cache,
            ).miss_count(),
            state.rejections@.len() >= old(state).rejections@.len(),
            state.rejections@.take(old(state).rejections@.len() as int) == old(state).rejections@,
            state.metric == old(state).metric,
            state.objectives == old(state).objectives,
            state.frontier_type == old(state).frontier_type,
            state.acceptance == old(state).acceptance,
            state.bias == old(state).bias,
            valset_len > 0,
        decreases u32::MAX - state.snapshot.iteration,
    {
        if stop.should_stop(&state.snapshot) {
            return Ok(());
        }
        let ghost before_len = state.rejections@.len();
        let ghost before_rej = state.rejections@;
        optimize_step(
            state,
            cache,
            select,
            evaluate,
            propose,
            run_gate,
            sum,
            render,
            outcome_of,
            score_text,
            trainset_len,
            valset_len,
            minibatch_size,
        )?;
        proof {
            assert(state.rejections@.take(old(state).rejections@.len() as int) =~= before_rej.take(
                old(state).rejections@.len() as int,
            ));
        }
    }
}

} // verus!
