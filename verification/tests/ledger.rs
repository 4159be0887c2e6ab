use clark_autoresearch::keyed::{pick_ranked, ranking_applies};
use clark_autoresearch::lm_loop::{
    render_dossier, verdict_from_text, EvidenceConfidence, ResearchLedger, ResultVerdict,
};

fn ledger() -> ResearchLedger {
    ResearchLedger::new("run", vec!["https://example.com".to_string()])
}

#[test]
fn absorb_agent_output_records_observations_hypotheses_and_result() {
    let mut ledger = ledger();
    let output = r#"{"surfaces":[{"url":"https://example.com/api","method":"GET","status":"200"}],"evidence":["GET /api returned JSON with csrf token"],"hypotheses":[{"statement":"csrf token may be reusable","target":"https://example.com/api","reasoning":"token observed in static response"}],"verdict":"suspected: needs CodeAct validation"}"#;

    let report = ledger.absorb_agent_output("node:1", "https://example.com", "agent", output);

    assert_eq!(report.observation_ids.len(), 2);
    assert_eq!(report.hypothesis_ids.len(), 1);
    assert_eq!(report.result_ids.len(), 1);
    assert_eq!(ledger.results[0].verdict, ResultVerdict::Expands);
}

#[test]
fn render_dossier_keeps_autoregressive_order() {
    let mut ledger = ledger();
    ledger.record_observation(
        "https://example.com",
        "agent",
        "surface observed https://example.com/login",
        "",
        EvidenceConfidence::Medium,
    );
    ledger.record_hypothesis(
        "login csrf token is missing",
        Some("https://example.com/login".to_string()),
        "form has no hidden token",
        Vec::new(),
    );
    ledger.record_result(
        Some("node:1".to_string()),
        ResultVerdict::Inconclusive,
        "manual confirmation still needed",
        Vec::new(),
    );

    let rendered = ledger.render_dossier(10);
    assert!(
        rendered.find("### 1. Observations").unwrap()
            < rendered.find("### 2. Hypotheses").unwrap()
    );
    assert!(
        rendered.find("### 2. Hypotheses").unwrap() < rendered.find("### 4. Results").unwrap()
    );
}

#[test]
fn verdict_negation_beats_exploitable_keyword() {
    assert_eq!(
        verdict_from_text("No exploitable surface — static build artifact"),
        ResultVerdict::Refutes
    );
    assert_eq!(
        verdict_from_text("No vulnerabilities found — zero attack surface"),
        ResultVerdict::Refutes
    );
    assert_eq!(
        verdict_from_text(
            "deterministic fallback endpoint probe completed; no confirmed vulnerability from bounded GET"
        ),
        ResultVerdict::Refutes
    );
    assert_eq!(
        verdict_from_text("No attack surface. False positive."),
        ResultVerdict::Refutes
    );
}

#[test]
fn verdict_keywords_by_precedence() {
    assert_eq!(verdict_from_text("request TIMEOUT, confirmed"), ResultVerdict::Blocked);
    assert_eq!(verdict_from_text("Confirmed exploitable"), ResultVerdict::Supports);
    assert_eq!(verdict_from_text("a new surface"), ResultVerdict::Expands);
    assert_eq!(verdict_from_text("nothing to say"), ResultVerdict::Inconclusive);
}

#[test]
fn repeated_observation_is_recorded_once() {
    let mut ledger = ledger();
    let a = ledger.record_observation("t", "s", "same   summary", "d", EvidenceConfidence::Low);
    let b = ledger.record_observation("t", "s", "same summary", "d", EvidenceConfidence::High);
    assert_eq!(a, b);
    assert!(a.starts_with("obs:"));
    assert_eq!(ledger.observations.len(), 1);
    assert_eq!(ledger.events.len(), 1);
    assert_eq!(ledger.observations[0].summary, "same summary");
}

#[test]
fn repeated_hypothesis_is_recorded_once() {
    let mut ledger = ledger();
    let a = ledger.record_hypothesis("h", None, "why", vec!["e1".to_string(), "e1".to_string()]);
    let b = ledger.record_hypothesis("h", None, "other", Vec::new());
    assert_eq!(a, b);
    assert_eq!(ledger.hypotheses.len(), 1);
    assert_eq!(ledger.hypotheses[0].evidence_ids, vec!["e1".to_string()]);
}

#[test]
fn dossier_keeps_the_newest_items() {
    let mut ledger = ledger();
    for i in 0..5 {
        ledger.record_observation("t", "s", &format!("obs {i}"), "", EvidenceConfidence::Medium);
    }
    let dossier = ledger.dossier(2);
    assert_eq!(dossier.observations.len(), 2);
    assert_eq!(dossier.observations[0].summary, "obs 3");
    assert_eq!(dossier.observations[1].summary, "obs 4");
    let text = render_dossier(&dossier);
    assert!(text.contains("obs 4"));
    assert!(!text.contains("obs 2"));
}

#[test]
fn relevance_pick_follows_the_ranking_or_falls_back_on_newest() {
    let items: Vec<String> = ["a", "b", "c", "d"].iter().map(|s| s.to_string()).collect();
    assert!(ranking_applies(4, 4));
    assert!(ranking_applies(4, 5));
    assert!(!ranking_applies(4, 3));
    assert!(!ranking_applies(0, 3));
    let picked = pick_ranked(items.clone(), &vec![2, 0, 3], 2);
    assert_eq!(picked, vec!["c".to_string(), "a".to_string()]);
    let picked = pick_ranked(items.clone(), &vec![1], 3);
    assert_eq!(picked, vec!["b".to_string()]);
    let fallback = pick_ranked(items, &Vec::new(), 2);
    assert_eq!(fallback, vec!["c".to_string(), "d".to_string()]);
}
