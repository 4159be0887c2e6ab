use clark_autoresearch::acceptance::AcceptanceCriterion;
use clark_autoresearch::outcome::{
    score_from_bits, score_to_bits, Metric, MetricDirection, Objectives,
};
use clark_autoresearch::stop::{LoopSnapshot, StopCondition};

fn code(x: f64) -> i64 {
    score_from_bits(x.to_bits())
}

fn render(c: i64) -> String {
    format!("{}", f64::from_bits(score_to_bits(c)))
}

fn snap(iteration: u32, metric_calls: u32, since: u32) -> LoopSnapshot {
    LoopSnapshot { iteration, metric_calls, iterations_since_improvement: since }
}

#[test]
fn strict_improvement_rejects_equal_score_with_reason() {
    let metric = Metric::maximize("accuracy");
    let verdict = AcceptanceCriterion::StrictImprovement.should_accept(
        code(0.82),
        Some(code(0.82)),
        &metric,
        &render,
    );
    assert!(!verdict.accepted);
    assert!(
        verdict.reason.contains("strict improvement required"),
        "reason should explain the rejection: {}",
        verdict.reason
    );
}

#[test]
fn strict_improvement_accepts_higher_score() {
    let metric = Metric::maximize("accuracy");
    let verdict =
        AcceptanceCriterion::StrictImprovement.should_accept(code(0.9), Some(code(0.82)), &metric, &render);
    assert!(verdict.accepted);
    assert_eq!(verdict.reason, "strict improvement: 0.9 > 0.82 (accuracy)");
}

#[test]
fn improvement_or_equal_accepts_equal_score() {
    let metric = Metric::maximize("accuracy");
    let verdict = AcceptanceCriterion::ImprovementOrEqual.should_accept(
        code(0.82),
        Some(code(0.82)),
        &metric,
        &render,
    );
    assert!(verdict.accepted);
}

#[test]
fn improvement_or_equal_rejects_lower_score() {
    let metric = Metric::maximize("accuracy");
    let verdict =
        AcceptanceCriterion::ImprovementOrEqual.should_accept(code(0.7), Some(code(0.82)), &metric, &render);
    assert!(!verdict.accepted);
    assert!(verdict.reason.contains("worse"));
    assert_eq!(
        verdict.reason,
        "improvement-or-equal required: candidate 0.7 is worse than parent 0.82 (accuracy, Maximize)"
    );
}

#[test]
fn minimize_direction_respected() {
    let metric = Metric::minimize("latency_ms");
    let verdict =
        AcceptanceCriterion::StrictImprovement.should_accept(code(8.0), Some(code(10.0)), &metric, &render);
    assert!(verdict.accepted);
    let verdict =
        AcceptanceCriterion::StrictImprovement.should_accept(code(10.0), Some(code(10.0)), &metric, &render);
    assert!(!verdict.accepted);
}

#[test]
fn parentless_candidate_is_accepted() {
    let metric = Metric::maximize("accuracy");
    let verdict = AcceptanceCriterion::StrictImprovement.should_accept(code(0.5), None, &metric, &render);
    assert!(verdict.accepted);
    assert!(verdict.reason.contains("no parent"));
}

#[test]
fn metric_direction_compares_scores() {
    assert!(MetricDirection::Maximize.is_better(code(2.0), code(1.0)));
    assert!(MetricDirection::Minimize.is_better(code(1.0), code(2.0)));
    assert_eq!(MetricDirection::Minimize.directional_score(code(2.0)), -(code(2.0) as i128));
}

#[test]
fn score_codes_order_like_the_scores() {
    let xs = [-1e300, -2.5, -1.0, -0.0, 0.0, 1e-300, 0.5, 1.0, 3.25, f64::INFINITY];
    for a in xs {
        for b in xs {
            assert_eq!(a < b, code(a) < code(b), "{a} vs {b}");
            assert_eq!(a == b, code(a) == code(b), "{a} vs {b}");
        }
        assert_eq!(f64::from_bits(score_to_bits(code(a))), a);
    }
    assert_eq!(code(-0.0), 0);
    assert!(code(f64::NEG_INFINITY) < code(-1e308));
}

#[test]
fn objectives_resolve_directions() {
    let objectives = Objectives::new(vec![Metric::maximize("accuracy"), Metric::minimize("cost")]);
    assert_eq!(objectives.primary().name, "accuracy");
    assert_eq!(objectives.direction_for("cost"), Some(MetricDirection::Minimize));
    assert_eq!(objectives.direction_for("nope"), None);
    assert_eq!(objectives.direction_for_or_primary("nope"), MetricDirection::Maximize);
}

#[test]
fn max_metric_calls_stops_at_budget() {
    let stop = StopCondition::MaxMetricCalls { max: 10 };
    assert!(!stop.should_stop(&snap(0, 9, 0)));
    assert!(stop.should_stop(&snap(0, 10, 0)));
}

#[test]
fn max_iterations_stops_at_budget() {
    let stop = StopCondition::MaxIterations { max: 3 };
    assert!(!stop.should_stop(&snap(2, 0, 0)));
    assert!(stop.should_stop(&snap(3, 0, 0)));
}

#[test]
fn no_improvement_stops_after_window() {
    let stop = StopCondition::NoImprovement { window: 5 };
    assert!(!stop.should_stop(&snap(0, 0, 4)));
    assert!(stop.should_stop(&snap(0, 0, 5)));
}

#[test]
fn file_stopper_fires_when_file_exists() {
    let path = "clark_autoresearch_stop_test_marker".to_string();
    let stop = StopCondition::FileStopper { path: path.clone() };
    assert!(!stop.should_stop_given(&LoopSnapshot::default(), &Vec::new()));
    assert!(stop.should_stop_given(&LoopSnapshot::default(), &vec![path.clone()]));
    assert_eq!(stop.file_paths(), vec![path]);
}

#[test]
fn composite_stops_if_any_member_fires() {
    let stop = StopCondition::Composite {
        conditions: vec![
            StopCondition::MaxIterations { max: 100 },
            StopCondition::NoImprovement { window: 3 },
        ],
    };
    assert!(!stop.should_stop(&snap(1, 0, 2)));
    assert!(stop.should_stop(&snap(1, 0, 3)));
}

#[test]
fn composite_stops_on_max_metric_calls_member() {
    let stop = StopCondition::Composite {
        conditions: vec![
            StopCondition::MaxMetricCalls { max: 5 },
            StopCondition::NoImprovement { window: 100 },
        ],
    };
    assert!(stop.should_stop(&snap(0, 5, 0)));
}

#[test]
fn file_paths_cover_nested_stoppers() {
    let stop = StopCondition::Composite {
        conditions: vec![
            StopCondition::FileStopper { path: "a".to_string() },
            StopCondition::Composite {
                conditions: vec![StopCondition::FileStopper { path: "b".to_string() }],
            },
        ],
    };
    assert_eq!(stop.file_paths(), vec!["a".to_string(), "b".to_string()]);
    assert!(stop.should_stop_given(&snap(0, 0, 0), &vec!["b".to_string()]));
    assert!(!stop.should_stop_given(&snap(0, 0, 0), &vec!["c".to_string()]));
}

#[test]
fn nan_scores_never_compare_better() {
    let metric = Metric::maximize("accuracy");
    let nan = code(f64::NAN);
    for criterion in [AcceptanceCriterion::StrictImprovement, AcceptanceCriterion::ImprovementOrEqual] {
        assert!(!criterion.should_accept(nan, Some(code(0.5)), &metric, &render).accepted);
        assert!(!criterion.should_accept(code(0.5), Some(nan), &metric, &render).accepted);
    }
    assert!(!MetricDirection::Maximize.is_better(nan, code(0.5)));
    assert!(!MetricDirection::Minimize.is_better(nan, code(0.5)));
    assert!(!MetricDirection::Minimize.is_better_or_equal(code(0.5), nan));
    assert!(MetricDirection::Maximize.is_better(code(f64::INFINITY), code(0.5)));
}
