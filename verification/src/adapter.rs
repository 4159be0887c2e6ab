//! The execution boundary the host implements: running gates on a
//! candidate. Running a gate is execution, so it stays with the host; the
//! library decides what the outcomes mean.

use vstd::prelude::*;

use crate::cache::EvaluationBatch;
use crate::loop_opt::{gate_failure, gate_failure_spec};
use crate::textmap::TextMap;
use crate::policy::{Gate, GateOutcome};
use crate::proposer::Candidate;

verus! {

/// Runs a gate's command against a materialized candidate (the host's job).
pub trait GateRunner {
    /// Runs `gate` against `candidate` and reports the outcome.
    fn run_gate(&self, gate: &Gate, candidate: &Candidate) -> Result<GateOutcome, String>;
}

/// Whether `outs` are the outcomes of running `gates` in order up to the
/// first that did not pass, with `reason` why that one rejects (none when
/// every gate passed).
pub open spec fn gate_run(gates: Seq<Gate>, outs: Seq<GateOutcome>, reason: Option<Seq<char>>) -> bool {
    &&& outs.len() <= gates.len()
    &&& forall|i: int| 0 <= i < outs.len() - 1 ==> (#[trigger] outs[i]).passed
    &&& match reason {
        None => outs.len() == gates.len() && forall|i: int| 0 <= i < outs.len() ==> (#[trigger] outs[i]).passed,
        Some(why) => outs.len() >= 1 && gate_failure_spec(gates[outs.len() - 1].name@, outs.last()) == Some(why),
    }
}

/// The text of a rejection, if there is one.
pub open spec fn reason_view(reason: Option<String>) -> Option<Seq<char>> {
    match reason {
        Some(s) => Some(s@),
        None => None,
    }
}

/// Whether each of `outs` is an answer `run` may give for the entry of
/// `gates` at its position, run on `candidate`.
pub open spec fn gate_answers<F: Fn(&Gate, &Candidate) -> Result<GateOutcome, String>>(
    run: F,
    gates: Seq<Gate>,
    candidate: Candidate,
    outs: Seq<GateOutcome>,
) -> bool {
    forall|j: int| 0 <= j < outs.len() ==> run.ensures((&gates[j], &candidate), Ok::<GateOutcome, String>(#[trigger] outs[j]))
}

/// Runs `gates` on `candidate` in order with `run` (the host's gate runner)
/// and stops at the first that fails: `Ok(None)` when all pass,
/// `Ok(Some(reason))` with the failing gate's rejection, or the runner's
/// error. Each gate is run once, on `candidate`, and only while the ones
/// before it passed; with no gates nothing is run.
pub fn gate_rejection<F: Fn(&Gate, &Candidate) -> Result<GateOutcome, String>>(
    run: &F,
    gates: &Vec<Gate>,
    candidate: &Candidate,
) -> (r: Result<Option<String>, String>)
    requires
        forall|g: &Gate, c: &Candidate| run.requires((g, c)),
    ensures
        gates@.len() == 0 ==> r == Ok::<Option<String>, String>(None),
        r matches Ok(reason) ==> exists|outs: Seq<GateOutcome>|
            #![trigger gate_run(gates@, outs, reason_view(reason))]
            gate_run(gates@, outs, reason_view(reason)) && gate_answers(*run, gates@, *candidate, outs),
        r matches Err(e) ==> exists|outs: Seq<GateOutcome>|
            #![trigger gate_answers(*run, gates@, *candidate, outs)]
            outs.len() < gates@.len() && (forall|j: int| 0 <= j < outs.len() ==> (#[trigger] outs[j]).passed)
                && gate_answers(*run, gates@, *candidate, outs) && run.ensures(
                (&gates@[outs.len() as int], candidate),
                Err::<GateOutcome, String>(e),
            ),
{
    let ghost mut outs: Seq<GateOutcome> = Seq::empty();
    let mut i: usize = 0;
    while i < gates.len()
        invariant
            i <= gates@.len(),
            outs.len() == i,
            forall|g: &Gate, c: &Candidate| run.requires((g, c)),
            forall|j: int| 0 <= j < outs.len() ==> (#[trigger] outs[j]).passed,
            gate_answers(*run, gates@, *candidate, outs),
        decreases gates@.len() - i,
    {
        let answer = run(&gates[i], candidate);
        let outcome = match answer {
            Ok(o) => o,
            Err(e) => {
                assert(gate_answers(*run, gates@, *candidate, outs));
                return Err(e);
            },
        };
        let ghost prev = outs;
        proof {
            outs = outs.push(outcome);
            assert forall|j: int| 0 <= j < outs.len() implies run.ensures(
                (&gates@[j], candidate),
                Ok::<GateOutcome, String>(#[trigger] outs[j]),
            ) by {
                if j < prev.len() {
                    assert(outs[j] == prev[j]);
                }
            }
        }
        match gate_failure(gates[i].name.as_str(), &outcome) {
            Some(reason) => {
                assert(gate_run(gates@, outs, Some(reason@)));
                return Ok(Some(reason));
            },
            None => {},
        }
        i = i + 1;
    }
    assert(gate_run(gates@, outs, None));
    Ok(None)
}

/// One example's context for reflection: its input and output, its score
/// (a score code) and its trajectory, when there is one.
pub struct ReflectiveEntry<O> {
    pub input: O,
    pub output: O,
    pub score: i64,
    pub trajectory: Option<O>,
}

/// Whether `x` is a clone of the `i`-th item of `s`, or the default value
/// when `s` has none.
pub open spec fn copy_or_default<O: Clone + Default>(s: Seq<O>, i: int, x: O) -> bool {
    if 0 <= i < s.len() {
        cloned::<O>(s[i], x)
    } else {
        call_ensures(O::default, (), x)
    }
}

/// Whether `x` is a clone of the `i`-th trajectory, when there is one.
pub open spec fn trajectory_at<O: Clone>(t: Option<Vec<O>>, i: int, x: Option<O>) -> bool {
    match t {
        Some(v) => if 0 <= i < v@.len() {
            x matches Some(y) && cloned::<O>(v@[i], y)
        } else {
            x is None
        },
        None => x is None,
    }
}

/// Whether `e` pairs the `i`-th example's input, output, score and
/// trajectory.
pub open spec fn entry_from<O: Clone + Default>(
    inputs: Seq<O>,
    batch: EvaluationBatch<O>,
    i: int,
    e: ReflectiveEntry<O>,
) -> bool {
    &&& e.score == batch.scores@[i]
    &&& copy_or_default(inputs, i, e.input)
    &&& copy_or_default(batch.outputs@, i, e.output)
    &&& trajectory_at(batch.trajectories, i, e.trajectory)
}

/// The reflective dataset that reflects on the whole candidate at once: for
/// each of `components`, one entry per scored example, pairing its input,
/// output, score and trajectory (default values where the batch has none).
pub fn default_reflective_dataset<O: Clone + Default>(
    inputs: &Vec<O>,
    batch: &EvaluationBatch<O>,
    components: &Vec<String>,
) -> (r: TextMap<Vec<ReflectiveEntry<O>>>)
    ensures
        forall|k: Seq<char>| r@.dom().contains(k) <==> components.deep_view().contains(k),
        forall|k: Seq<char>|
            #[trigger] r@.dom().contains(k) ==> r@[k]@.len() == batch.scores@.len() && forall|i: int|
                0 <= i < batch.scores@.len() ==> entry_from(inputs@, *batch, i, #[trigger] r@[k]@[i]),
{
    let mut out: TextMap<Vec<ReflectiveEntry<O>>> = TextMap::new();
    let mut c: usize = 0;
    while c < components.len()
        invariant
            c <= components@.len(),
            forall|k: Seq<char>| out@.dom().contains(k) <==> components.deep_view().take(c as int).contains(k),
            forall|k: Seq<char>|
                #[trigger] out@.dom().contains(k) ==> out@[k]@.len() == batch.scores@.len() && forall|i: int|
                    0 <= i < batch.scores@.len() ==> entry_from(inputs@, *batch, i, #[trigger] out@[k]@[i]),
        decreases components@.len() - c,
    {
        let mut entries: Vec<ReflectiveEntry<O>> = Vec::new();
        let mut i: usize = 0;
        while i < batch.scores.len()
            invariant
                i <= batch.scores@.len(),
                entries@.len() == i,
                forall|q: int| 0 <= q < i ==> entry_from(inputs@, *batch, q, #[trigger] entries@[q]),
            decreases batch.scores@.len() - i,
        {
            let input = if i < inputs.len() {
                inputs[i].clone()
            } else {
                O::default()
            };
            let output = if i < batch.outputs.len() {
                batch.outputs[i].clone()
            } else {
                O::default()
            };
            let trajectory = match &batch.trajectories {
                Some(t) => if i < t.len() {
                    Some(t[i].clone())
                } else {
                    None
                },
                None => None,
            };
            let e = ReflectiveEntry { input, output, score: batch.scores[i], trajectory };
            assert(entry_from(inputs@, *batch, i as int, e));
            entries.push(e);
            i = i + 1;
        }
        let ghost before = out@;
        out.insert(components[c].clone(), entries);
        proof {
            let cv = components.deep_view();
            assert(cv.take(c + 1) =~= cv.take(c as int).push(cv[c as int]));
            let next = cv.take(c + 1);
            assert forall|k: Seq<char>| out@.dom().contains(k) <==> next.contains(k) by {
                if k == cv[c as int] {
                    assert(next[c as int] == k);
                } else if next.contains(k) {
                    let x = choose|x: int| 0 <= x < c + 1 && #[trigger] next[x] == k;
                    assert(cv.take(c as int)[x] == k);
                }
            }
        }
        c = c + 1;
    }
    assert(components.deep_view().take(components@.len() as int) =~= components.deep_view());
    out
}

} // verus!
