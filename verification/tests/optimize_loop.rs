use clark_autoresearch::cache::{EvaluationBatch, EvaluationCache};
use clark_autoresearch::graph::ResearchMode;
use clark_autoresearch::loop_opt::OptimizationState;
use clark_autoresearch::optimize::{optimize, optimize_step, StepOutcome};
use clark_autoresearch::outcome::{score_from_bits, score_to_bits, Metric, TrialOutcome};
use clark_autoresearch::policy::{Gate, GateOutcome, GatePhase};
use clark_autoresearch::proposer::Candidate;
use clark_autoresearch::stop::StopCondition;
use clark_autoresearch::textmap::TextMap;

fn code(x: f64) -> i64 {
    score_from_bits(x.to_bits())
}

fn float(c: i64) -> f64 {
    f64::from_bits(score_to_bits(c))
}

fn candidate(text: &str, score: &str) -> Candidate {
    TextMap::from_pairs(vec![
        ("text".to_string(), text.to_string()),
        ("score".to_string(), score.to_string()),
    ])
}

fn score_of(c: &Candidate) -> f64 {
    c.get("score").and_then(|s| s.parse().ok()).unwrap_or(0.0)
}

/// Parent selection with the mode fixed, as a bias weighting one mode alone
/// draws it: the seed until something is evaluated, then the library's
/// choice for that mode.
fn select_in(mode: ResearchMode) -> impl Fn(&OptimizationState) -> Result<(String, Candidate, ResearchMode), String> {
    move |s: &OptimizationState| {
        if s.graph.evaluated_pool().is_empty() {
            return Ok(("root".to_string(), s.candidate_of("root"), mode));
        }
        let selectable = s.selectable();
        let chosen = s.choose_in_mode(&selectable, mode, None).ok_or("no parent")?;
        Ok((chosen.id.clone(), s.candidate_of(&chosen.id), mode))
    }
}

/// Scores every missed example by the candidate's "score" component.
fn score_adapter(
    _positions: &Vec<usize>,
    misses: &Vec<usize>,
    _from_val: bool,
    c: &Candidate,
    _capture: bool,
) -> Result<EvaluationBatch<String>, String> {
    let base = score_of(c);
    Ok(EvaluationBatch {
        scores: misses.iter().map(|_| code(base)).collect(),
        outputs: misses.iter().map(|m| format!("out{m}")).collect(),
        trajectories: None,
        objective_scores: None,
        num_metric_calls: misses.len() as u32,
    })
}

/// Raises the parent's score by 0.1 and bumps its text version.
fn incrementing(
    parent: &Candidate,
    _positions: &Vec<usize>,
    _before: &EvaluationBatch<String>,
    _components: &Vec<String>,
    _history: &str,
) -> Result<Candidate, String> {
    let text = parent.get("text").cloned().unwrap_or_else(|| "v0".to_string());
    let version: u32 = text.trim_start_matches('v').parse().unwrap_or(0);
    Ok(candidate(&format!("v{}", version + 1), &format!("{:.1}", score_of(parent) + 0.1)))
}

fn identity(
    parent: &Candidate,
    _positions: &Vec<usize>,
    _before: &EvaluationBatch<String>,
    _components: &Vec<String>,
    _history: &str,
) -> Result<Candidate, String> {
    Ok(candidate(parent.get("text").unwrap(), parent.get("score").unwrap()))
}

fn sum(scores: &Vec<i64>) -> i64 {
    code(scores.iter().map(|&c| float(c)).sum::<f64>())
}

fn render(c: i64) -> String {
    format!("{}", float(c))
}

fn mean_outcome(full: &EvaluationBatch<String>, _ids: &Vec<String>) -> TrialOutcome {
    let mean = full.scores.iter().map(|&c| float(c)).sum::<f64>() / full.scores.len().max(1) as f64;
    TrialOutcome::passed(code(mean), &format!("full eval mean={mean:.4}"))
}

fn text4(c: i64) -> String {
    format!("{:.4}", float(c))
}

fn gate_runner(passed: bool) -> impl Fn(&Gate, &Candidate) -> Result<GateOutcome, String> {
    move |gate: &Gate, _c: &Candidate| {
        Ok(GateOutcome {
            name: gate.name.clone(),
            phase: GatePhase::Post,
            passed,
            exit_code: Some(if passed { 0 } else { 1 }),
            output_snippet: if passed { String::new() } else { "cargo test failed: 2 tests failed".to_string() },
        })
    }
}

type NoGate = fn(&Gate, &Candidate) -> Result<GateOutcome, String>;

fn committed_scores(state: &OptimizationState) -> Vec<i64> {
    (0..state.graph.nodes.len())
        .map(|i| state.graph.nodes.value_at(i))
        .filter(|n| n.commit.is_some())
        .filter_map(|n| n.score)
        .collect()
}

#[test]
fn loop_accepts_strict_improvements_and_stops_on_budget() {
    let mut state = OptimizationState::new(Metric::maximize("accuracy"), candidate("v0", "0.0"));
    let stop = StopCondition::MaxMetricCalls { max: 12 };
    let mut cache: EvaluationCache<String> = EvaluationCache::new();
    optimize(
        &mut state,
        &stop,
        &mut cache,
        &select_in(ResearchMode::Exploit),
        &score_adapter,
        &incrementing,
        None::<&NoGate>,
        &sum,
        &render,
        &mean_outcome,
        &text4,
        3,
        2,
        1,
    )
    .unwrap();
    assert_eq!(committed_scores(&state), vec![code(0.1), code(0.2), code(0.3)]);
    assert_eq!(state.snapshot.iteration, 3);
    assert!(state.snapshot.metric_calls <= 12);
    assert_eq!(state.best_score, Some(code(0.3)));
    assert!(!state.ledger.observations.is_empty());
}

#[test]
fn loop_rejects_non_improving_proposal() {
    let mut state = OptimizationState::new(Metric::maximize("accuracy"), candidate("v0", "0.5"));
    let stop = StopCondition::MaxIterations { max: 5 };
    let mut cache: EvaluationCache<String> = EvaluationCache::new();
    optimize(
        &mut state,
        &stop,
        &mut cache,
        &select_in(ResearchMode::Exploit),
        &score_adapter,
        &identity,
        None::<&NoGate>,
        &sum,
        &render,
        &mean_outcome,
        &text4,
        1,
        1,
        1,
    )
    .unwrap();
    assert_eq!(committed_scores(&state).len(), 0);
    assert_eq!(state.snapshot.iteration, 5);
    assert!(!state.rejections.is_empty());
    assert!(state.rejections[0].reason.contains("strict improvement"));
}

#[test]
fn validate_rejects_score_improving_proposal_that_fails_a_gate() {
    let mut state = OptimizationState::new(Metric::maximize("accuracy"), candidate("v0", "0.0"));
    state.graph.add_gate("root", Gate::new("test", "cargo test")).unwrap();
    let stop = StopCondition::MaxIterations { max: 3 };
    let mut cache: EvaluationCache<String> = EvaluationCache::new();
    let runner = gate_runner(false);
    optimize(
        &mut state,
        &stop,
        &mut cache,
        &select_in(ResearchMode::Validate),
        &score_adapter,
        &incrementing,
        Some(&runner),
        &sum,
        &render,
        &mean_outcome,
        &text4,
        1,
        1,
        1,
    )
    .unwrap();
    assert_eq!(committed_scores(&state).len(), 0);
    assert!(state.rejections.iter().any(|r| r.reason.contains("gate 'test' failed")));
}

#[test]
fn validate_accepts_when_gate_passes() {
    let mut state = OptimizationState::new(Metric::maximize("accuracy"), candidate("v0", "0.0"));
    state.graph.add_gate("root", Gate::new("test", "cargo test")).unwrap();
    let stop = StopCondition::MaxIterations { max: 1 };
    let mut cache: EvaluationCache<String> = EvaluationCache::new();
    let runner = gate_runner(true);
    optimize(
        &mut state,
        &stop,
        &mut cache,
        &select_in(ResearchMode::Validate),
        &score_adapter,
        &incrementing,
        Some(&runner),
        &sum,
        &render,
        &mean_outcome,
        &text4,
        1,
        1,
        1,
    )
    .unwrap();
    assert_eq!(committed_scores(&state).len(), 1);
}

#[test]
fn empty_validation_set_runs_nothing() {
    let mut state = OptimizationState::new(Metric::maximize("accuracy"), candidate("v0", "0.0"));
    let stop = StopCondition::MaxIterations { max: 3 };
    let mut cache: EvaluationCache<String> = EvaluationCache::new();
    optimize(
        &mut state,
        &stop,
        &mut cache,
        &select_in(ResearchMode::Exploit),
        &score_adapter,
        &incrementing,
        None::<&NoGate>,
        &sum,
        &render,
        &mean_outcome,
        &text4,
        1,
        0,
        1,
    )
    .unwrap();
    assert_eq!(state.snapshot.iteration, 0);
    assert_eq!(cache.misses(), 0);
}

#[test]
fn one_step_reports_what_it_did_and_passes_errors_on() {
    let mut state = OptimizationState::new(Metric::maximize("accuracy"), candidate("v0", "0.0"));
    let mut cache: EvaluationCache<String> = EvaluationCache::new();
    let r = optimize_step(
        &mut state,
        &mut cache,
        &select_in(ResearchMode::Exploit),
        &score_adapter,
        &incrementing,
        None::<&NoGate>,
        &sum,
        &render,
        &mean_outcome,
        &text4,
        1,
        1,
        1,
    )
    .unwrap();
    assert!(matches!(r, StepOutcome::Committed(ref id) if id == "exp_0000"));
    assert_eq!(state.snapshot.metric_calls, 3);
    let r = optimize_step(
        &mut state,
        &mut cache,
        &select_in(ResearchMode::Exploit),
        &score_adapter,
        &identity,
        None::<&NoGate>,
        &sum,
        &render,
        &mean_outcome,
        &text4,
        1,
        1,
        1,
    )
    .unwrap();
    assert_eq!(r, StepOutcome::Rejected);
    let failing = |_p: &Candidate, _q: &Vec<usize>, _b: &EvaluationBatch<String>, _c: &Vec<String>, _h: &str| {
        Err::<Candidate, String>("proposer down".to_string())
    };
    let r = optimize_step(
        &mut state,
        &mut cache,
        &select_in(ResearchMode::Exploit),
        &score_adapter,
        &failing,
        None::<&NoGate>,
        &sum,
        &render,
        &mean_outcome,
        &text4,
        1,
        1,
        1,
    );
    assert_eq!(r, Err("proposer down".to_string()));
}
