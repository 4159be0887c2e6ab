use clark_autoresearch::cli_args::{
    parse_metadata, parse_u16, AcceptanceArg, EvalUrlError, HttpEvalAdapter, MetadataError,
    StrategyArg, task_score_fields, TaskScoreError,
};
use clark_autoresearch::acceptance::AcceptanceCriterion;
use clark_autoresearch::frontier::FrontierStrategy;
use clark_autoresearch::json::Json;
use clark_autoresearch::outcome::{Metric, MetricDirection};
use clark_autoresearch::pareto::FrontierType;
use clark_autoresearch::policy::{parse_gate, Gate, GateParseError, GatePhase, ResearchPolicy};

#[test]
fn parses_gate() {
    let gate = parse_gate("test=cargo test").unwrap();
    assert_eq!(gate.name, "test");
    assert_eq!(gate.command, "cargo test");
}

#[test]
fn gate_parse_errors() {
    assert_eq!(parse_gate("no separator"), Err(GateParseError::MissingSeparator));
    assert_eq!(parse_gate("  = cargo test"), Err(GateParseError::EmptyPart));
    assert_eq!(parse_gate("name=   "), Err(GateParseError::EmptyPart));
    let gate = parse_gate("  smoke  =  a=b ").unwrap();
    assert_eq!(gate.name, "smoke");
    assert_eq!(gate.command, "a=b");
    assert_eq!(gate.phase, GatePhase::Post);
    assert_eq!(GateParseError::MissingSeparator.message(), "gate must be name=command");
}

#[test]
fn policy_defaults_and_gates() {
    let policy = ResearchPolicy::new(Metric::maximize("accuracy"))
        .with_gate(Gate::new("test", "cargo test"))
        .with_gate(Gate::pre("lint", "cargo clippy"));
    assert_eq!(policy.max_attempts, 3);
    assert_eq!(policy.frontier_strategy, FrontierStrategy::TopK { k: 5 });
    assert_eq!(policy.gates.len(), 2);
    assert_eq!(policy.gates[1].phase, GatePhase::Pre);
}

#[test]
fn metadata_reads_json_or_text() {
    let (key, value) = parse_metadata(" owner = 42").unwrap();
    assert_eq!(key, "owner");
    assert!(matches!(value, Json::Number(ref n) if n == "42"));
    let (key, value) = parse_metadata("note=not json").unwrap();
    assert_eq!(key, "note");
    assert!(matches!(value, Json::Str(ref s) if s == "not json"));
    assert!(matches!(parse_metadata("novalue"), Err(MetadataError::MissingSeparator)));
    assert!(matches!(parse_metadata(" =1"), Err(MetadataError::EmptyKey)));
}

#[test]
fn eval_url_is_split_into_host_port_and_path() {
    let a = HttpEvalAdapter::new("http://127.0.0.1:8081/evaluate").unwrap();
    assert_eq!(a.host, "127.0.0.1");
    assert_eq!(a.port, 8081);
    assert_eq!(a.path, "/evaluate");
    let b = HttpEvalAdapter::new("http://example.com").unwrap();
    assert_eq!(b.host, "example.com");
    assert_eq!(b.port, 80);
    assert_eq!(b.path, "/");
    assert_eq!(HttpEvalAdapter::new("https://example.com"), Err(EvalUrlError::NotHttp));
    assert_eq!(HttpEvalAdapter::new("http://host:99999/x"), Err(EvalUrlError::BadPort));
    assert_eq!(HttpEvalAdapter::new("http://host:/x"), Err(EvalUrlError::BadPort));
}

#[test]
fn u16_text_parses_like_from_str() {
    let p = |s: &str| parse_u16(&s.chars().collect());
    assert_eq!(p("65535"), Some(65535));
    assert_eq!(p("+7"), Some(7));
    assert_eq!(p("65536"), None);
    assert_eq!(p("+"), None);
    assert_eq!(p(""), None);
    assert_eq!(p("1a"), None);
    for s in ["0", "80", "00012", "+65535", "-1"] {
        assert_eq!(p(s), s.parse::<u16>().ok());
    }
}

#[test]
fn command_line_choices_map_to_library_values() {
    assert_eq!(AcceptanceArg::Strict.into_criterion(), Some(AcceptanceCriterion::StrictImprovement));
    assert_eq!(AcceptanceArg::OrEqual.into_criterion(), Some(AcceptanceCriterion::ImprovementOrEqual));
    assert_eq!(AcceptanceArg::Off.into_criterion(), None);
    assert_eq!(
        StrategyArg::TopK.into_strategy(3, 0, 0, 1, 0, FrontierType::Instance),
        FrontierStrategy::TopK { k: 3 }
    );
    assert_eq!(
        StrategyArg::Pareto.into_strategy(3, 0, 0, 1, 0, FrontierType::Hybrid),
        FrontierStrategy::Pareto { frontier_type: FrontierType::Hybrid, objectives: Vec::new() }
    );
}

#[test]
fn task_score_fields_split_id_score_and_direction() {
    let f = task_score_fields(" ex_1 =0.75:min").unwrap();
    assert_eq!(f.task_id, "ex_1");
    assert_eq!(f.score_text, "0.75");
    assert_eq!(f.direction, Ok(Some(MetricDirection::Minimize)));

    let f = task_score_fields("t=1:maximize").unwrap();
    assert_eq!(f.direction, Ok(Some(MetricDirection::Maximize)));

    let f = task_score_fields("t=0.5").unwrap();
    assert_eq!(f.score_text, "0.5");
    assert_eq!(f.direction, Ok(None));
}

#[test]
fn task_score_fields_errors() {
    let e = task_score_fields("no separator").err().unwrap();
    assert_eq!(e, TaskScoreError::Malformed);
    assert_eq!(e.message(), "task score must be task_id=score[:maximize|minimize]");

    let f = task_score_fields("t=0.5:sideways").unwrap();
    let e = f.direction.err().unwrap();
    assert_eq!(e, TaskScoreError::UnknownDirection("sideways".to_string()));
    assert_eq!(e.message(), "unknown task score direction: sideways");

    let f = task_score_fields("t=0.5:max:extra").unwrap();
    assert_eq!(f.direction, Err(TaskScoreError::Malformed));
}
