use clark_autoresearch::acceptance::AcceptanceCriterion;
use clark_autoresearch::frontier::{
    enforce_acceptance, epsilon_greedy_rank, rank_frontier, rank_in_order, FrontierStrategy,
};
use clark_autoresearch::graph::{
    ExperimentGraph, ExperimentStatus, GraphError, Hypothesis, ResearchMode,
};
use clark_autoresearch::outcome::{
    score_from_bits, score_to_bits, Metric, MetricDirection, TaskScore, TrialOutcome,
};
use clark_autoresearch::pareto::{
    non_dominated_set, pareto_front, FrontierType,
};
use clark_autoresearch::outcome::Objectives;
use clark_autoresearch::policy::Gate;
use clark_autoresearch::textmap::TextMap;

fn code(x: f64) -> i64 {
    score_from_bits(x.to_bits())
}

fn render(c: i64) -> String {
    format!("{}", f64::from_bits(score_to_bits(c)))
}

fn subscores(pairs: &[(&str, f64)]) -> TextMap<i64> {
    TextMap::from_pairs(pairs.iter().map(|(k, v)| (k.to_string(), code(*v))).collect())
}

#[test]
fn allocates_child_and_records_parent_lineage() {
    let mut graph = ExperimentGraph::new("run_0000");
    let child = graph
        .allocate_child("root", Hypothesis::new("try focused endpoint validation"))
        .unwrap();

    assert_eq!(child, "exp_0000");
    assert_eq!(graph.node("root").unwrap().children, vec!["exp_0000"]);
    assert_eq!(graph.node("exp_0000").unwrap().parent.as_deref(), Some("root"));
    assert_eq!(
        graph.node("exp_0000").unwrap().branch.as_deref(),
        Some("autoresearch/run_0000/exp_0000")
    );
}

#[test]
fn inherited_gates_are_deduplicated_by_name() {
    let mut graph = ExperimentGraph::new("run_0000");
    graph.add_gate("root", Gate::new("scope", "cargo test scope")).unwrap();
    let child = graph.allocate_child("root", Hypothesis::new("probe auth bypass")).unwrap();
    graph.add_gate(&child, Gate::new("scope", "cargo test stricter_scope")).unwrap();
    graph.add_gate(&child, Gate::new("smoke", "cargo test")).unwrap();

    let gates = graph.effective_gates(&child).unwrap();
    assert_eq!(
        gates.iter().map(|g| g.name.as_str()).collect::<Vec<_>>(),
        vec!["scope", "smoke"]
    );
    assert_eq!(gates[0].command, "cargo test scope");
}

#[test]
fn lower_metric_can_improve_parent() {
    let metric = Metric::minimize("latency_ms");
    let mut graph = ExperimentGraph::new("run_0000");
    let parent = graph.allocate_child("root", Hypothesis::new("baseline")).unwrap();
    graph.record_outcome(&parent, TrialOutcome::passed(code(10.0), "baseline")).unwrap();
    graph.commit(&parent, "abc").unwrap();

    let child = graph.allocate_child(&parent, Hypothesis::new("remove wasted work")).unwrap();
    graph.record_outcome(&child, TrialOutcome::passed(code(8.0), "faster")).unwrap();

    assert!(graph.outcome_improves_parent(&child, &metric).unwrap());
}

#[test]
fn graph_errors_name_the_node() {
    let mut graph = ExperimentGraph::new("run");
    assert_eq!(
        graph.allocate_child("nope", Hypothesis::new("x")),
        Err(GraphError::UnknownNode("nope".to_string()))
    );
    let a = graph.allocate_child("root", Hypothesis::new("a")).unwrap();
    graph.discard(&a, "bad").unwrap();
    assert_eq!(graph.node(&a).unwrap().status, ExperimentStatus::Discarded);
    assert_eq!(graph.node(&a).unwrap().pruned_reason.as_deref(), Some("bad"));
    assert_eq!(
        graph.allocate_child(&a, Hypothesis::new("b")),
        Err(GraphError::TerminalParent { id: a.clone(), status: ExperimentStatus::Discarded })
    );
    assert_eq!(
        graph.outcome_improves_parent("root", &Metric::maximize("m")),
        Ok(false)
    );
    assert!(graph.set_status("ghost", ExperimentStatus::Active).is_err());
    let err = GraphError::MissingParent("x".to_string());
    assert!(err.message().contains("x"));
}

#[test]
fn path_to_root_runs_from_the_top() {
    let mut graph = ExperimentGraph::new("run");
    let a = graph.allocate_child("root", Hypothesis::new("a")).unwrap();
    let b = graph.allocate_child(&a, Hypothesis::new("b")).unwrap();
    let path = graph.path_to_root(&b).unwrap();
    let ids: Vec<&str> = path.iter().map(|n| n.id.as_str()).collect();
    assert_eq!(ids, vec!["root", a.as_str(), b.as_str()]);
    assert_eq!(b, "exp_0001");
}

#[test]
fn best_committed_prefers_score_then_smaller_id() {
    let metric = Metric::maximize("m");
    let mut graph = ExperimentGraph::new("run");
    let a = graph.allocate_child("root", Hypothesis::new("a")).unwrap();
    let b = graph.allocate_child("root", Hypothesis::new("b")).unwrap();
    let c = graph.allocate_child("root", Hypothesis::new("c")).unwrap();
    for (id, s) in [(&a, 0.5), (&b, 0.9), (&c, 0.9)] {
        graph.record_outcome(id, TrialOutcome::passed(code(s), "")).unwrap();
        graph.commit(id, "x").unwrap();
    }
    assert_eq!(graph.best_committed(&metric).unwrap().id, b);
    assert!(ExperimentGraph::new("empty").best_committed(&metric).is_none());
}

#[test]
fn pareto_strategy_ranks_discarded_specialist() {
    let metric = Metric::maximize("accuracy");
    let mut graph = ExperimentGraph::new("run");

    let generalist = graph.allocate_child("root", Hypothesis::new("generalist")).unwrap();
    graph
        .record_outcome(
            &generalist,
            TrialOutcome::passed(code(0.8), "")
                .with_val_subscores(subscores(&[("ex_0", 0.6), ("ex_1", 0.6)])),
        )
        .unwrap();
    graph.commit(&generalist, "g").unwrap();

    let specialist = graph.allocate_child("root", Hypothesis::new("specialist")).unwrap();
    graph
        .record_outcome(
            &specialist,
            TrialOutcome::passed(code(0.7), "")
                .with_val_subscores(subscores(&[("ex_0", 0.4), ("ex_1", 1.0)])),
        )
        .unwrap();
    graph.discard(&specialist, "lower aggregate").unwrap();

    let ranked = rank_frontier(
        &graph,
        &metric,
        &FrontierStrategy::Pareto { frontier_type: FrontierType::Instance, objectives: Vec::new() },
    );
    let ids: Vec<&str> = ranked.iter().map(|c| c.id.as_str()).collect();
    assert!(ids.contains(&specialist.as_str()));
    assert!(ids.contains(&generalist.as_str()));
    assert!(ranked.iter().any(|c| c.reason.starts_with("pareto:instance")));
}

#[test]
fn top_k_respects_minimize_metric() {
    let metric = Metric::minimize("loss");
    let mut graph = ExperimentGraph::new("run");
    let a = graph.allocate_child("root", Hypothesis::new("a")).unwrap();
    graph.record_outcome(&a, TrialOutcome::passed(code(10.0), "")).unwrap();
    graph.commit(&a, "a").unwrap();
    let b = graph.allocate_child("root", Hypothesis::new("b")).unwrap();
    graph.record_outcome(&b, TrialOutcome::passed(code(8.0), "")).unwrap();
    graph.commit(&b, "b").unwrap();

    let ranked = rank_frontier(&graph, &metric, &FrontierStrategy::ArgMax);
    assert_eq!(ranked[0].id, b);
}

#[test]
fn top_k_ranks_from_one_and_keeps_k() {
    let metric = Metric::maximize("m");
    let mut graph = ExperimentGraph::new("run");
    let mut ids = Vec::new();
    for (i, s) in [0.1, 0.7, 0.4].iter().enumerate() {
        let id = graph.allocate_child("root", Hypothesis::new(&format!("h{i}"))).unwrap();
        graph.record_outcome(&id, TrialOutcome::passed(code(*s), "")).unwrap();
        graph.commit(&id, "c").unwrap();
        ids.push(id);
    }
    let ranked = rank_frontier(&graph, &metric, &FrontierStrategy::TopK { k: 2 });
    assert_eq!(ranked.len(), 2);
    assert_eq!(ranked[0].id, ids[1]);
    assert_eq!(ranked[0].rank, 1);
    assert_eq!(ranked[1].id, ids[2]);
    assert_eq!(ranked[1].rank, 2);
    assert_eq!(ranked[0].mode, ResearchMode::Explore);
}

#[test]
fn pareto_preserves_task_specialist() {
    let metric = Metric::maximize("aggregate");
    let mut graph = ExperimentGraph::new("run");
    let a = graph.allocate_child("root", Hypothesis::new("aggregate")).unwrap();
    graph
        .record_outcome(
            &a,
            TrialOutcome::passed(code(0.8), "").with_task_scores(vec![
                TaskScore::with_direction("task_a", code(1.0), MetricDirection::Maximize),
                TaskScore::with_direction("task_b", code(0.2), MetricDirection::Maximize),
            ]),
        )
        .unwrap();
    graph.commit(&a, "a").unwrap();
    let b = graph.allocate_child("root", Hypothesis::new("specialist")).unwrap();
    graph
        .record_outcome(
            &b,
            TrialOutcome::passed(code(0.7), "").with_task_scores(vec![
                TaskScore::with_direction("task_a", code(0.5), MetricDirection::Maximize),
                TaskScore::with_direction("task_b", code(1.0), MetricDirection::Maximize),
            ]),
        )
        .unwrap();
    graph.commit(&b, "b").unwrap();

    let ranked = rank_frontier(
        &graph,
        &metric,
        &FrontierStrategy::ParetoPerTask { k: 2, task_floor: code(0.0) },
    );
    let ids = ranked.into_iter().map(|c| c.id).collect::<Vec<_>>();
    assert!(ids.contains(&a));
    assert!(ids.contains(&b));
}

#[test]
fn enforce_acceptance_marks_non_improving_children() {
    let metric = Metric::maximize("m");
    let mut graph = ExperimentGraph::new("run");
    let p = graph.allocate_child("root", Hypothesis::new("p")).unwrap();
    graph.record_outcome(&p, TrialOutcome::passed(code(0.5), "")).unwrap();
    graph.commit(&p, "p").unwrap();
    let worse = graph.allocate_child(&p, Hypothesis::new("worse")).unwrap();
    graph.record_outcome(&worse, TrialOutcome::passed(code(0.4), "")).unwrap();
    graph.commit(&worse, "w").unwrap();
    let better = graph.allocate_child(&p, Hypothesis::new("better")).unwrap();
    graph.record_outcome(&better, TrialOutcome::passed(code(0.6), "")).unwrap();
    graph.commit(&better, "b").unwrap();

    let mut ranked = rank_frontier(&graph, &metric, &FrontierStrategy::TopK { k: 5 });
    enforce_acceptance(&graph, &metric, AcceptanceCriterion::StrictImprovement, &mut ranked, &render);
    assert_eq!(ranked.len(), 2);
    assert_eq!(ranked[0].id, better);
    assert!(ranked[0].reject_reason.is_none());
    assert_eq!(ranked[1].id, worse);
    assert!(ranked[1].reject_reason.as_ref().unwrap().contains("strict improvement required"));
}

#[test]
fn instance_frontier_keeps_single_example_specialist() {
    let metric = Metric::maximize("accuracy");
    let objectives = Objectives::single(metric.copy());
    let mut graph = ExperimentGraph::new("run");

    let generalist = graph.allocate_child("root", Hypothesis::new("generalist")).unwrap();
    graph
        .record_outcome(
            &generalist,
            TrialOutcome::passed(code(0.8), "")
                .with_val_subscores(subscores(&[("ex_0", 0.6), ("ex_1", 0.6)])),
        )
        .unwrap();
    graph.commit(&generalist, "g").unwrap();

    let specialist = graph.allocate_child("root", Hypothesis::new("specialist")).unwrap();
    graph
        .record_outcome(
            &specialist,
            TrialOutcome::passed(code(0.7), "")
                .with_val_subscores(subscores(&[("ex_0", 0.4), ("ex_1", 1.0)])),
        )
        .unwrap();
    graph.discard(&specialist, "lower aggregate").unwrap();

    let pool = graph.evaluated_pool();
    let nd = non_dominated_set(&pool, FrontierType::Instance, &objectives);
    let ids: Vec<&str> = nd.iter().map(|n| n.id.as_str()).collect();

    assert!(ids.contains(&specialist.as_str()), "specialist must stay non-dominated");
    assert!(ids.contains(&generalist.as_str()), "generalist must stay non-dominated");
}

#[test]
fn objective_frontier_keeps_single_objective_winner() {
    let objectives = Objectives::new(vec![Metric::maximize("accuracy"), Metric::minimize("cost")]);
    let mut graph = ExperimentGraph::new("run");

    let a = graph.allocate_child("root", Hypothesis::new("accurate")).unwrap();
    graph
        .record_outcome(
            &a,
            TrialOutcome::passed(code(0.9), "")
                .with_objective_scores(subscores(&[("accuracy", 0.9), ("cost", 5.0)])),
        )
        .unwrap();
    graph.commit(&a, "a").unwrap();

    let b = graph.allocate_child("root", Hypothesis::new("cheap")).unwrap();
    graph
        .record_outcome(
            &b,
            TrialOutcome::passed(code(0.5), "")
                .with_objective_scores(subscores(&[("accuracy", 0.5), ("cost", 1.0)])),
        )
        .unwrap();
    graph.discard(&b, "lower aggregate").unwrap();

    let pool = graph.evaluated_pool();
    let nd = non_dominated_set(&pool, FrontierType::Objective, &objectives);
    let ids: Vec<&str> = nd.iter().map(|n| n.id.as_str()).collect();

    assert!(ids.contains(&a.as_str()), "a wins accuracy");
    assert!(ids.contains(&b.as_str()), "b wins cost (minimize)");
}

#[test]
fn hybrid_frontier_combines_instance_and_objective() {
    let objectives = Objectives::new(vec![Metric::maximize("accuracy")]);
    let mut graph = ExperimentGraph::new("run");

    let a = graph.allocate_child("root", Hypothesis::new("a")).unwrap();
    graph
        .record_outcome(
            &a,
            TrialOutcome::passed(code(0.7), "").with_val_subscores(subscores(&[("ex_0", 1.0)])),
        )
        .unwrap();
    graph.commit(&a, "a").unwrap();

    let b = graph.allocate_child("root", Hypothesis::new("b")).unwrap();
    graph
        .record_outcome(
            &b,
            TrialOutcome::passed(code(0.6), "")
                .with_objective_scores(subscores(&[("accuracy", 0.99)])),
        )
        .unwrap();
    graph.discard(&b, "lower aggregate").unwrap();

    let pool = graph.evaluated_pool();
    let front = pareto_front(&pool, FrontierType::Hybrid, &objectives);
    let ids = front.non_dominated_ids();
    assert!(ids.contains(&a), "a wins instance ex_0");
    assert!(ids.contains(&b), "b wins objective accuracy");
}

#[test]
fn cartesian_frontier_uses_per_pair_data() {
    let objectives = Objectives::new(vec![Metric::maximize("accuracy")]);
    let mut graph = ExperimentGraph::new("run");

    let a = graph.allocate_child("root", Hypothesis::new("a")).unwrap();
    let a_pairs: TextMap<TextMap<i64>> =
        TextMap::from_pairs(vec![("ex_0".to_string(), subscores(&[("accuracy", 1.0)]))]);
    graph
        .record_outcome(&a, TrialOutcome::passed(code(0.9), ""))
        .unwrap();
    graph.commit(&a, "a").unwrap();

    // b wins (ex_1, accuracy) which a never scored
    let b = graph.allocate_child("root", Hypothesis::new("b")).unwrap();
    let b_pairs: TextMap<TextMap<i64>> =
        TextMap::from_pairs(vec![("ex_1".to_string(), subscores(&[("accuracy", 1.0)]))]);
    graph
        .record_outcome(&b, TrialOutcome::passed(code(0.4), ""))
        .unwrap();
    graph.discard(&b, "lower aggregate").unwrap();

    // Attach per-pair data via outcome mutation.
    let a_node = graph.node_mut(&a).unwrap();
    if let Some(outcome) = &mut a_node.outcome {
        outcome.objective_subscores = a_pairs;
    }
    let b_node = graph.node_mut(&b).unwrap();
    if let Some(outcome) = &mut b_node.outcome {
        outcome.objective_subscores = b_pairs;
    }

    let pool = graph.evaluated_pool();
    let front = pareto_front(&pool, FrontierType::Cartesian, &objectives);
    let ids = front.non_dominated_ids();
    assert!(ids.contains(&a), "a wins (ex_0, accuracy)");
    assert!(ids.contains(&b), "b wins (ex_1, accuracy)");
}

#[test]
fn win_count_ranks_broader_winners_higher() {
    let metric = Metric::maximize("accuracy");
    let objectives = Objectives::single(metric);
    let mut graph = ExperimentGraph::new("run");

    let a = graph.allocate_child("root", Hypothesis::new("a")).unwrap();
    graph
        .record_outcome(
            &a,
            TrialOutcome::passed(code(0.9), "")
                .with_val_subscores(subscores(&[("ex_0", 1.0), ("ex_1", 1.0)])),
        )
        .unwrap();
    graph.commit(&a, "a").unwrap();

    let b = graph.allocate_child("root", Hypothesis::new("b")).unwrap();
    graph
        .record_outcome(
            &b,
            TrialOutcome::passed(code(0.5), "").with_val_subscores(subscores(&[("ex_0", 0.2)])),
        )
        .unwrap();
    graph.discard(&b, "lower").unwrap();

    let pool = graph.evaluated_pool();
    let front = pareto_front(&pool, FrontierType::Instance, &objectives);
    assert!(front.win_count(&a) >= 2);
    assert_eq!(front.win_count(&b), 0);
}

#[test]
fn minimize_direction_respected_on_instance_frontier() {
    let metric = Metric::minimize("latency_ms");
    let objectives = Objectives::single(metric);
    let mut graph = ExperimentGraph::new("run");

    let a = graph.allocate_child("root", Hypothesis::new("a")).unwrap();
    graph
        .record_outcome(
            &a,
            TrialOutcome::passed(code(10.0), "").with_val_subscores(subscores(&[("ex_0", 100.0)])),
        )
        .unwrap();
    graph.commit(&a, "a").unwrap();

    let b = graph.allocate_child("root", Hypothesis::new("b")).unwrap();
    graph
        .record_outcome(
            &b,
            TrialOutcome::passed(code(20.0), "").with_val_subscores(subscores(&[("ex_0", 5.0)])),
        )
        .unwrap();
    graph.discard(&b, "higher aggregate latency").unwrap();

    let pool = graph.evaluated_pool();
    let front = pareto_front(&pool, FrontierType::Instance, &objectives);
    assert!(front.non_dominated_ids().contains(&b));
}

#[test]
fn scored_root_has_no_parent_to_improve_on() {
    let mut graph = ExperimentGraph::new("run");
    graph.record_outcome("root", TrialOutcome::passed(code(1.0), "")).unwrap();
    assert_eq!(
        graph.outcome_improves_parent("root", &Metric::maximize("m")),
        Err(GraphError::MissingParent("root".to_string()))
    );
    assert_eq!(
        GraphError::UnknownNode("x".to_string()).message(),
        "unknown experiment node: x"
    );
}

#[test]
fn node_mut_writes_through_and_rejects_unknown_ids() {
    let mut graph = ExperimentGraph::new("run");
    let a = graph.allocate_child("root", Hypothesis::new("a")).unwrap();
    graph.node_mut(&a).unwrap().notes.push("edited".to_string());
    assert_eq!(graph.node(&a).unwrap().notes, vec!["edited".to_string()]);
    match graph.node_mut("exp_9999") {
        Err(GraphError::UnknownNode(id)) => assert_eq!(id, "exp_9999"),
        _ => panic!("expected an unknown-node error"),
    }
}

#[test]
fn status_counts_tally_nodes_by_status_name() {
    let mut graph = ExperimentGraph::new("run");
    let a = graph.allocate_child("root", Hypothesis::new("a")).unwrap();
    let b = graph.allocate_child("root", Hypothesis::new("b")).unwrap();
    let _c = graph.allocate_child("root", Hypothesis::new("c")).unwrap();
    graph.record_outcome(&a, TrialOutcome::passed(code(0.5), "")).unwrap();
    graph.commit(&a, "a").unwrap();
    graph.discard(&b, "worse").unwrap();
    let counts = graph.status_counts();
    let listed: Vec<(String, usize)> =
        (0..counts.len()).map(|i| (counts.key_at(i).clone(), *counts.value_at(i))).collect();
    assert_eq!(
        listed,
        vec![
            ("Committed".to_string(), 1),
            ("Discarded".to_string(), 1),
            ("Pending".to_string(), 1),
            ("Root".to_string(), 1),
        ]
    );
}

#[test]
fn readme_library_usage_ranks_the_committed_child_first() {
    let metric = Metric::maximize("accuracy");
    let mut graph = ExperimentGraph::new("demo");
    let child = graph.allocate_child("root", Hypothesis::new("try a shorter prompt")).unwrap();
    graph.record_outcome(&child, TrialOutcome::passed(code(0.82), "eval improved")).unwrap();
    graph.commit(&child, "abc123").unwrap();
    let ranked = rank_frontier(&graph, &metric, &FrontierStrategy::TopK { k: 3 });
    assert_eq!(ranked[0].id, child);
}

#[test]
fn simple_loop_example_ranks_the_improved_tip_alone() {
    let metric = Metric::maximize("accuracy");
    let mut graph = ExperimentGraph::new("demo");
    let baseline = graph.allocate_child("root", Hypothesis::new("baseline prompt")).unwrap();
    graph
        .record_outcome(
            &baseline,
            TrialOutcome::passed(code(0.72), "baseline eval").with_task_scores(vec![
                TaskScore::new("math", code(0.70)),
                TaskScore::new("code", code(0.74)),
            ]),
        )
        .unwrap();
    graph.commit(&baseline, "baseline-commit").unwrap();
    let candidate = graph
        .allocate_child(&baseline, Hypothesis::new("shorter prompt with explicit checks"))
        .unwrap();
    graph
        .record_outcome(
            &candidate,
            TrialOutcome::passed(code(0.81), "improved validation pass").with_task_scores(vec![
                TaskScore::new("math", code(0.82)),
                TaskScore::new("code", code(0.80)),
            ]),
        )
        .unwrap();
    graph.commit(&candidate, "candidate-commit").unwrap();
    let ranked = rank_frontier(&graph, &metric, &FrontierStrategy::TopK { k: 3 });
    let ids: Vec<&str> = ranked.iter().map(|c| c.id.as_str()).collect();
    assert_eq!(ids, vec![candidate.as_str()]);
    assert_eq!(ranked[0].rank, 1);
    assert_eq!(ranked[0].score, Some(code(0.81)));
}

#[test]
fn epsilon_greedy_rank_explores_the_drawn_tip_or_exploits_the_best() {
    let metric = Metric::maximize("accuracy");
    let mut graph = ExperimentGraph::new("run");
    let a = graph.allocate_child("root", Hypothesis::new("a")).unwrap();
    graph.record_outcome(&a, TrialOutcome::passed(code(0.3), "")).unwrap();
    graph.commit(&a, "a").unwrap();
    let b = graph.allocate_child("root", Hypothesis::new("b")).unwrap();
    graph.record_outcome(&b, TrialOutcome::passed(code(0.9), "")).unwrap();
    graph.commit(&b, "b").unwrap();
    let tips = graph.frontier_nodes();
    assert_eq!(tips.len(), 2);
    let explored = epsilon_greedy_rank(tips.clone(), &metric, true, 0);
    assert_eq!(explored.len(), 1);
    assert_eq!(explored[0].id, a);
    assert_eq!(explored[0].rank, 1);
    assert_eq!(explored[0].reason, "epsilon_greedy_explore");
    let exploited = epsilon_greedy_rank(tips, &metric, false, 0);
    assert_eq!(exploited.len(), 1);
    assert_eq!(exploited[0].id, b);
    assert_eq!(exploited[0].reason, "epsilon_greedy_exploit");
}

#[test]
fn rank_in_order_keeps_the_drawn_order_and_at_least_one() {
    let mut graph = ExperimentGraph::new("run");
    let a = graph.allocate_child("root", Hypothesis::new("a")).unwrap();
    graph.record_outcome(&a, TrialOutcome::passed(code(0.3), "")).unwrap();
    graph.commit(&a, "a").unwrap();
    let b = graph.allocate_child("root", Hypothesis::new("b")).unwrap();
    graph.record_outcome(&b, TrialOutcome::passed(code(0.9), "")).unwrap();
    graph.commit(&b, "b").unwrap();
    let tips = graph.frontier_nodes();
    let ranked = rank_in_order(&tips, &vec![1, 0], 5, "softmax");
    let ids: Vec<&str> = ranked.iter().map(|c| c.id.as_str()).collect();
    assert_eq!(ids, vec![b.as_str(), a.as_str()]);
    assert_eq!(ranked[1].rank, 2);
    let one = rank_in_order(&tips, &vec![1, 0], 0, "softmax");
    assert_eq!(one.len(), 1);
    assert_eq!(one[0].id, b);
}

#[test]
fn a_nan_subscore_neither_beats_nor_ties_on_the_instance_frontier() {
    let objectives = Objectives::single(Metric::maximize("accuracy"));
    let mut graph = ExperimentGraph::new("run");
    let a = graph.allocate_child("root", Hypothesis::new("a")).unwrap();
    graph
        .record_outcome(&a, TrialOutcome::passed(code(0.5), "").with_val_subscores(subscores(&[("ex_0", 0.5)])))
        .unwrap();
    let b = graph.allocate_child("root", Hypothesis::new("b")).unwrap();
    graph
        .record_outcome(&b, TrialOutcome::passed(code(0.5), "").with_val_subscores(subscores(&[("ex_0", f64::NAN)])))
        .unwrap();
    let pool = graph.evaluated_pool();
    let front = pareto_front(&pool, FrontierType::Instance, &objectives);
    assert_eq!(front.non_dominated_ids(), vec![a.clone()]);
}
