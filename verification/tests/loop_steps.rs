use clark_autoresearch::adapter::{default_reflective_dataset, gate_rejection, GateRunner};
use clark_autoresearch::cache::EvaluationBatch;
use clark_autoresearch::graph::{ExperimentStatus, Hypothesis, ResearchMode};
use clark_autoresearch::loop_opt::{
    argmax_score, gate_failure, sample_minibatch, strictest_gated, val_ids, OptimizationState,
};
use clark_autoresearch::outcome::{score_from_bits, score_to_bits, Metric, TrialOutcome};
use clark_autoresearch::policy::{Gate, GateOutcome, GatePhase};
use clark_autoresearch::proposer::Candidate;
use clark_autoresearch::textmap::TextMap;

fn code(x: f64) -> i64 {
    score_from_bits(x.to_bits())
}

fn render(c: i64) -> String {
    format!("{}", f64::from_bits(score_to_bits(c)))
}

fn seed(score: &str) -> Candidate {
    TextMap::from_pairs(vec![
        ("text".to_string(), "v0".to_string()),
        ("score".to_string(), score.to_string()),
    ])
}

struct FixedGateRunner {
    passed: bool,
}

impl GateRunner for FixedGateRunner {
    fn run_gate(&self, gate: &Gate, _candidate: &Candidate) -> Result<GateOutcome, String> {
        Ok(GateOutcome {
            name: gate.name.clone(),
            phase: GatePhase::Post,
            passed: self.passed,
            exit_code: Some(if self.passed { 0 } else { 1 }),
            output_snippet: if self.passed {
                String::new()
            } else {
                "cargo test failed: 2 tests failed".to_string()
            },
        })
    }
}

#[test]
fn non_improving_proposal_is_rejected_with_reason() {
    let mut state = OptimizationState::new(Metric::maximize("accuracy"), seed("0.5"));
    let accepted = state.judge_minibatch(code(0.5), code(0.5), &render);
    assert!(!accepted);
    assert_eq!(state.rejections.len(), 1);
    assert!(state.rejections[0].reason.contains("strict improvement"));
    assert_eq!(state.rejections[0].iteration, 0);
    assert_eq!(state.snapshot.iteration, 1);
    assert_eq!(state.snapshot.iterations_since_improvement, 1);
    assert!(state.judge_minibatch(code(0.6), code(0.5), &render));
    assert_eq!(state.rejections.len(), 1);
}

#[test]
fn failing_gate_rejects_in_validate_mode() {
    let gates = vec![Gate::new("test", "cargo test")];
    let child = seed("0.1");
    let reason = gate_rejection(&|g: &Gate, c: &Candidate| FixedGateRunner { passed: false }.run_gate(g, c), &gates, &child).unwrap();
    assert_eq!(reason.as_deref(), Some("gate 'test' failed: cargo test failed: 2 tests failed"));
    let none = gate_rejection(&|g: &Gate, c: &Candidate| FixedGateRunner { passed: true }.run_gate(g, c), &gates, &child).unwrap();
    assert_eq!(none, None);
    assert_eq!(gate_rejection(&|g: &Gate, c: &Candidate| FixedGateRunner { passed: false }.run_gate(g, c), &Vec::new(), &child), Ok(None));
}

#[test]
fn gate_failure_reports_no_output() {
    let outcome = GateOutcome {
        name: "smoke".to_string(),
        phase: GatePhase::Post,
        passed: false,
        exit_code: None,
        output_snippet: String::new(),
    };
    assert_eq!(gate_failure("smoke", &outcome).as_deref(), Some("gate 'smoke' failed: no output"));
    let ok = GateOutcome { passed: true, ..outcome };
    assert_eq!(gate_failure("smoke", &ok), None);
}

#[test]
fn accepted_children_are_committed_and_tracked() {
    let mut state = OptimizationState::new(Metric::maximize("accuracy"), seed("0.0"));
    let mut parent = "root".to_string();
    for (i, s) in [0.1, 0.2, 0.3].iter().enumerate() {
        let child = seed(&format!("{s}"));
        let outcome = TrialOutcome::passed(code(*s), "full eval");
        let id = state
            .commit_child(&parent, ResearchMode::Exploit, child, outcome, &format!("{s:.4}"), 7)
            .unwrap();
        assert_eq!(id, format!("exp_{:04}", i));
        let node = state.graph.node(&id).unwrap();
        assert_eq!(node.status, ExperimentStatus::Committed);
        assert_eq!(node.hypothesis.statement, format!("proposed iter {} (Exploit)", i + 1));
        assert_eq!(node.commit.as_deref(), Some(format!("iter {}", i + 1).as_str()));
        parent = id;
    }
    assert_eq!(state.snapshot.iteration, 3);
    assert_eq!(state.best_score, Some(code(0.3)));
    assert_eq!(state.snapshot.iterations_since_improvement, 0);
    assert_eq!(state.ledger.observations.len(), 3);
    assert!(state.ledger.observations[2].summary.contains("score=0.3000 mode=Exploit"));
    let (best, candidate) = state.select_parent();
    assert_eq!(best, parent);
    assert_eq!(candidate.get("score").unwrap(), "0.3");
}

#[test]
fn worse_child_does_not_move_the_best_score() {
    let mut state = OptimizationState::new(Metric::maximize("accuracy"), seed("0.0"));
    state
        .commit_child("root", ResearchMode::Explore, seed("0.5"), TrialOutcome::passed(code(0.5), ""), "0.5", 1)
        .unwrap();
    state
        .commit_child("root", ResearchMode::Explore, seed("0.4"), TrialOutcome::passed(code(0.4), ""), "0.4", 2)
        .unwrap();
    assert_eq!(state.best_score, Some(code(0.5)));
    assert_eq!(state.snapshot.iterations_since_improvement, 1);
    assert!(state.commit_child("nope", ResearchMode::Explore, seed("1"), TrialOutcome::passed(0, ""), "", 3).is_err());
}

#[test]
fn parent_selection_starts_at_the_seed() {
    let state = OptimizationState::new(Metric::maximize("accuracy"), seed("0.0"));
    let (id, candidate) = state.select_parent();
    assert_eq!(id, "root");
    assert_eq!(candidate.get("text").unwrap(), "v0");
    assert_eq!(state.candidate_of("missing").get("text").unwrap(), "v0");
}

#[test]
fn argmax_and_strictest_gated_break_ties() {
    let mut graph = clark_autoresearch::graph::ExperimentGraph::new("run");
    let a = graph.allocate_child("root", Hypothesis::new("a")).unwrap();
    let b = graph.allocate_child("root", Hypothesis::new("b")).unwrap();
    graph.record_outcome(&a, TrialOutcome::passed(code(0.5), "")).unwrap();
    graph.record_outcome(&b, TrialOutcome::passed(code(0.5), "")).unwrap();
    let pool = graph.evaluated_pool();
    let metric = Metric::maximize("m");
    assert_eq!(argmax_score(&pool, &metric).unwrap().id, a);
    assert_eq!(strictest_gated(&pool, &metric, &vec![0, 1]).unwrap().id, b);
    assert_eq!(strictest_gated(&pool, &metric, &vec![0, 0]).unwrap().id, a);
    assert!(argmax_score(&Vec::new(), &metric).is_none());
}

#[test]
fn minibatches_rotate_through_the_trainset() {
    let (idx, ids) = sample_minibatch(3, 2, 0);
    assert_eq!(idx, vec![0, 1]);
    assert_eq!(ids, vec!["train_0".to_string(), "train_1".to_string()]);
    let (idx, _) = sample_minibatch(3, 2, 1);
    assert_eq!(idx, vec![2, 0]);
    let (idx, _) = sample_minibatch(3, 0, 4);
    assert_eq!(idx, vec![1]);
    let (idx, _) = sample_minibatch(3, 10, 1);
    assert_eq!(idx, vec![0, 1, 2]);
    assert_eq!(sample_minibatch(0, 2, 5).0, Vec::<usize>::new());
    let (idx, _) = sample_minibatch(7, 3, u32::MAX);
    assert_eq!(idx[0], ((u32::MAX as u128 * 3) % 7) as usize);
    assert_eq!(val_ids(3), vec!["val_0".to_string(), "val_1".to_string(), "val_2".to_string()]);
}

#[test]
fn default_reflective_dataset_pairs_every_example() {
    let inputs = vec!["q1".to_string(), "q2".to_string()];
    let batch = EvaluationBatch {
        scores: vec![code(0.5), code(0.5)],
        outputs: inputs.clone(),
        trajectories: Some(inputs.clone()),
        objective_scores: None,
        num_metric_calls: 2,
    };
    let dataset = default_reflective_dataset(&inputs, &batch, &vec!["prompt".to_string()]);
    let entries = dataset.get("prompt").unwrap();
    assert_eq!(entries.len(), 2);
    assert_eq!(entries[0].input, "q1");
    assert!(entries[0].trajectory.is_some());
    assert_eq!(dataset.len(), 1);
}

#[test]
fn reflective_dataset_fills_missing_parts_with_defaults() {
    let batch: EvaluationBatch<String> = EvaluationBatch {
        scores: vec![1, 2, 3],
        outputs: vec!["o1".to_string()],
        trajectories: None,
        objective_scores: None,
        num_metric_calls: 3,
    };
    let dataset = default_reflective_dataset(
        &vec!["i1".to_string(), "i2".to_string()],
        &batch,
        &vec!["a".to_string(), "b".to_string(), "a".to_string()],
    );
    assert_eq!(dataset.len(), 2);
    let entries = dataset.get("b").unwrap();
    assert_eq!(entries.len(), 3);
    assert_eq!(entries[2].input, "");
    assert_eq!(entries[1].output, "");
    assert_eq!(entries[2].score, 3);
    assert!(entries[0].trajectory.is_none());
}

#[test]
fn choose_in_mode_exploits_validates_and_explores() {
    let mut state = OptimizationState::new(Metric::maximize("accuracy"), seed("0.0"));
    let strong = state
        .commit_child("root", ResearchMode::Explore, seed("0.9"), TrialOutcome::passed(code(0.9), ""), "0.9", 1)
        .unwrap();
    let gated = state
        .commit_child("root", ResearchMode::Explore, seed("0.4"), TrialOutcome::passed(code(0.4), ""), "0.4", 2)
        .unwrap();
    state.graph.add_gate(&gated, Gate::new("test", "cargo test")).unwrap();
    let pool = state.graph.evaluated_pool();
    let counts = state.gate_counts(&pool);
    let by_id: Vec<(&str, usize)> = pool.iter().map(|n| n.id.as_str()).zip(counts.iter().copied()).collect();
    assert!(by_id.contains(&(strong.as_str(), 0)));
    assert!(by_id.contains(&(gated.as_str(), 1)));

    let chosen = state.choose_in_mode(&pool, ResearchMode::Exploit, None).unwrap();
    assert_eq!(chosen.id, strong);
    let chosen = state.choose_in_mode(&pool, ResearchMode::Validate, None).unwrap();
    assert_eq!(chosen.id, gated);
    let at = pool.iter().position(|n| n.id == gated).unwrap();
    let chosen = state.choose_in_mode(&pool, ResearchMode::Explore, Some(at)).unwrap();
    assert_eq!(chosen.id, gated);
    let chosen = state.choose_in_mode(&pool, ResearchMode::Explore, None).unwrap();
    assert_eq!(chosen.id, strong);
}

#[test]
fn commit_child_refuses_a_terminal_parent_and_leaves_the_state() {
    let mut state = OptimizationState::new(Metric::maximize("accuracy"), seed("0.0"));
    let a = state.graph.allocate_child("root", Hypothesis::new("a")).unwrap();
    state.graph.discard(&a, "worse").unwrap();
    let before_next = state.graph.next_id;
    let r = state.commit_child(&a, ResearchMode::Exploit, seed("0.5"), TrialOutcome::passed(code(0.5), ""), "0.5", 3);
    assert!(r.is_err());
    assert_eq!(state.graph.next_id, before_next);
    assert_eq!(state.snapshot.iteration, 0);
    assert_eq!(state.candidates.len(), 1);
    let ok = state
        .commit_child("root", ResearchMode::Exploit, seed("0.5"), TrialOutcome::passed(code(0.5), ""), "0.5", 3)
        .unwrap();
    let node = state.graph.node(&ok).unwrap();
    assert_eq!(node.commit.as_deref(), Some("iter 1"));
    assert_eq!(node.parent.as_deref(), Some("root"));
    assert_eq!(state.graph.node("root").unwrap().children.last().unwrap(), &ok);
}

#[test]
fn argmax_treats_a_nan_score_as_tied_and_breaks_by_id() {
    let mut graph = clark_autoresearch::graph::ExperimentGraph::new("run");
    let a = graph.allocate_child("root", Hypothesis::new("a")).unwrap();
    let b = graph.allocate_child("root", Hypothesis::new("b")).unwrap();
    let c = graph.allocate_child("root", Hypothesis::new("c")).unwrap();
    graph.record_outcome(&a, TrialOutcome::passed(code(f64::NAN), "")).unwrap();
    graph.record_outcome(&b, TrialOutcome::passed(code(0.5), "")).unwrap();
    graph.record_outcome(&c, TrialOutcome::passed(code(0.9), "")).unwrap();
    let pool = graph.evaluated_pool();
    let metric = Metric::maximize("m");
    // a (NaN) ties b and keeps it by its smaller id; a ties c and keeps it too.
    assert_eq!(argmax_score(&pool, &metric).unwrap().id, a);
}
