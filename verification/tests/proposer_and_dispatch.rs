use std::cell::{Cell, RefCell};

use clark_autoresearch::boss::{boss_dispatch_class, boss_hints, BossDispatchClass};
use clark_autoresearch::graph::ResearchMode;
use clark_autoresearch::opportunity::{
    considered, dispatch_class_for, focus_for, opportunity_hint, rank_hints, recommended_mode,
    DispatchClass, ResearchBias, ResearchOpportunity, SurfaceKind,
};
use clark_autoresearch::proposer::{
    parse_component_response, replace_all, LanguageModel, ReflectiveMutation,
    DEFAULT_REFLECTION_TEMPLATE,
};
use clark_autoresearch::textmap::TextMap;

struct FakeLm {
    responses: Vec<String>,
    calls: Cell<usize>,
    prompts: RefCell<Vec<String>>,
}

impl FakeLm {
    fn new(responses: Vec<String>) -> Self {
        FakeLm { responses, calls: Cell::new(0), prompts: RefCell::new(Vec::new()) }
    }
}

impl LanguageModel for FakeLm {
    fn complete(&self, prompt: &str) -> Result<String, String> {
        self.prompts.borrow_mut().push(prompt.to_string());
        let i = self.calls.get();
        self.calls.set(i + 1);
        Ok(self
            .responses
            .get(i)
            .cloned()
            .unwrap_or_else(|| r#"{"prompt": "improved"}"#.to_string()))
    }
}

struct FailingLm;

impl LanguageModel for FailingLm {
    fn complete(&self, _prompt: &str) -> Result<String, String> {
        Err("provider down".to_string())
    }
}

fn text_map(pairs: &[(&str, &str)]) -> TextMap<String> {
    TextMap::from_pairs(pairs.iter().map(|(k, v)| (k.to_string(), v.to_string())).collect())
}

#[test]
fn reflective_mutation_updates_component_from_json() {
    let lm = FakeLm::new(vec![r#"{"prompt": "be explicit and concise"}"#.to_string()]);
    let proposer = ReflectiveMutation::new(lm);
    let parent = text_map(&[("prompt", "be brief")]);
    let side = text_map(&[("prompt", "[{\"score\": 0.4}]")]);
    let child = proposer
        .propose_with(&parent, &side, &vec!["prompt".to_string()], None)
        .unwrap();
    assert_eq!(child.get("prompt").unwrap(), "be explicit and concise");
}

#[test]
fn proposal_falls_back_to_trimmed_text_and_passes_errors_on() {
    let lm = FakeLm::new(vec!["  plain new text \n".to_string()]);
    let proposer = ReflectiveMutation::new(lm).with_template("<curr_param>|<side_info>|<history>");
    let parent = text_map(&[("prompt", "old"), ("other", "kept")]);
    let child = proposer
        .propose_with(&parent, &TextMap::new(), &vec!["prompt".to_string()], Some("hist"))
        .unwrap();
    assert_eq!(child.get("prompt").unwrap(), "plain new text");
    assert_eq!(child.get("other").unwrap(), "kept");
    let failing = ReflectiveMutation::new(FailingLm);
    let r = failing.propose_with(&parent, &TextMap::new(), &vec!["prompt".to_string()], None);
    assert_eq!(r.unwrap_err(), "provider down");
}

#[test]
fn reflection_prompt_fills_the_template() {
    let proposer = ReflectiveMutation::new(FakeLm::new(Vec::new()));
    let prompt = proposer.reflection_prompt("CURR", "SIDE", "HIST");
    assert!(prompt.contains("## Current component text\nCURR\n"));
    assert!(prompt.contains("SIDE"));
    assert!(prompt.contains("HIST"));
    assert!(!prompt.contains("<curr_param>"));
    assert_eq!(
        prompt,
        DEFAULT_REFLECTION_TEMPLATE
            .replace("<curr_param>", "CURR")
            .replace("<side_info>", "SIDE")
            .replace("<history>", "HIST")
    );
    assert_eq!(replace_all("a-b-c", "-", "+"), "a+b+c");
    assert_eq!(replace_all("aaa", "aa", "b"), "ba");
}

#[test]
fn parse_handles_fenced_json() {
    let text = parse_component_response("```json\n{\"prompt\": \"x\"}\n```", "prompt");
    assert_eq!(text.as_deref(), Some("x"));
}

#[test]
fn parse_falls_back_to_none_for_garbage() {
    assert!(parse_component_response("not json at all", "prompt").is_none());
}

#[test]
fn parse_accepts_a_bare_json_string() {
    assert_eq!(parse_component_response("\"whole\"", "prompt").as_deref(), Some("whole"));
    assert_eq!(parse_component_response("{\"other\": \"x\"}", "prompt"), None);
}

fn opportunity(surface: SurfaceKind, in_scope: bool) -> ResearchOpportunity {
    ResearchOpportunity {
        node_id: "n1".to_string(),
        surface,
        priority_bits: 0.5f64.to_bits(),
        novelty_bits: 0.5f64.to_bits(),
        confidence_bits: 0.5f64.to_bits(),
        impact_bits: 0.5f64.to_bits(),
        in_scope,
        requires_validation: false,
    }
}

#[test]
fn dispatch_class_follows_mode_and_surface() {
    let o = opportunity(SurfaceKind::Hypothesis, true);
    assert_eq!(dispatch_class_for(&o, ResearchMode::Explore), DispatchClass::SurfaceExplorer);
    assert_eq!(dispatch_class_for(&o, ResearchMode::Validate), DispatchClass::ProofValidator);
    assert_eq!(dispatch_class_for(&o, ResearchMode::Exploit), DispatchClass::ProofValidator);
    let e = opportunity(SurfaceKind::Endpoint, true);
    assert_eq!(dispatch_class_for(&e, ResearchMode::Exploit), DispatchClass::HypothesisProber);
    let t = opportunity(SurfaceKind::Target, true);
    assert_eq!(dispatch_class_for(&t, ResearchMode::Exploit), DispatchClass::SurfaceExplorer);
    assert_eq!(
        clark_autoresearch::boss::dispatch_class_for(&e, ResearchMode::Exploit),
        BossDispatchClass::VulnerabilityProber
    );
    assert_eq!(boss_dispatch_class(DispatchClass::ProofValidator), BossDispatchClass::ExploitValidator);
}

#[test]
fn focus_names_the_node() {
    let o = opportunity(SurfaceKind::Target, true);
    assert_eq!(focus_for(&o, ResearchMode::Explore), "map additional surface around n1");
    assert_eq!(focus_for(&o, ResearchMode::Exploit), "probe the strongest concrete hypothesis on n1");
    assert_eq!(focus_for(&o, ResearchMode::Validate), "validate proof end-to-end for n1");
}

#[test]
fn scope_filter_respects_the_bias() {
    let bias = ResearchBias::default();
    assert!(bias.require_in_scope);
    assert_eq!(f64::from_bits(bias.validation_weight_bits), 0.45);
    assert!(!considered(&opportunity(SurfaceKind::Hypothesis, false), &bias));
    assert!(considered(&opportunity(SurfaceKind::Target, true), &bias));
    let open = ResearchBias { require_in_scope: false, ..ResearchBias::default() };
    assert!(considered(&opportunity(SurfaceKind::Hypothesis, false), &open));
}

fn opp(id: &str, surface: SurfaceKind, requires_validation: bool) -> ResearchOpportunity {
    ResearchOpportunity {
        node_id: id.to_string(),
        surface,
        priority_bits: 0.5f64.to_bits(),
        novelty_bits: 0.5f64.to_bits(),
        confidence_bits: 0.5f64.to_bits(),
        impact_bits: 0.5f64.to_bits(),
        in_scope: true,
        requires_validation,
    }
}

#[test]
fn recommended_mode_follows_surface_and_validation() {
    assert_eq!(recommended_mode(&opp("a", SurfaceKind::Target, true), false), ResearchMode::Validate);
    assert_eq!(recommended_mode(&opp("a", SurfaceKind::Target, false), true), ResearchMode::Explore);
    assert_eq!(recommended_mode(&opp("a", SurfaceKind::Evidence, false), true), ResearchMode::Explore);
    assert_eq!(recommended_mode(&opp("a", SurfaceKind::Endpoint, false), true), ResearchMode::Exploit);
    assert_eq!(recommended_mode(&opp("a", SurfaceKind::Endpoint, false), false), ResearchMode::Explore);
    assert_eq!(recommended_mode(&opp("a", SurfaceKind::Finding, false), false), ResearchMode::Exploit);
    assert_eq!(recommended_mode(&opp("a", SurfaceKind::Hypothesis, false), false), ResearchMode::Exploit);
}

#[test]
fn rank_hints_orders_by_score_then_id_keeping_ties_in_order() {
    let h = |id: &str, score: i64, why: &str| {
        opportunity_hint(&opp(id, SurfaceKind::Finding, false), ResearchMode::Exploit, score, why.to_string())
    };
    let ranked = rank_hints(vec![h("b", 5, "first b"), h("a", 5, "a"), h("c", 9, "c"), h("b", 5, "second b"), h("d", 1, "d")]);
    let order: Vec<(&str, i64, &str)> =
        ranked.iter().map(|x| (x.node_id.as_str(), x.score, x.rationale.as_str())).collect();
    assert_eq!(
        order,
        vec![("c", 9, "c"), ("a", 5, "a"), ("b", 5, "first b"), ("b", 5, "second b"), ("d", 1, "d")]
    );
    assert_eq!(ranked[0].dispatch_class, DispatchClass::HypothesisProber);
    assert_eq!(ranked[0].focus, "probe the strongest concrete hypothesis on c");
}

#[test]
fn boss_hints_rename_the_workers_in_order() {
    let hint = opportunity_hint(&opp("h", SurfaceKind::Hypothesis, true), ResearchMode::Validate, 3, "r".to_string());
    let boss = boss_hints(vec![hint]);
    assert_eq!(boss.len(), 1);
    assert_eq!(boss[0].node_id, "h");
    assert_eq!(boss[0].dispatch_class, BossDispatchClass::ExploitValidator);
    assert_eq!(boss[0].score, 3);
    assert_eq!(boss[0].focus, "validate proof end-to-end for h");
}

#[test]
fn propose_with_no_components_returns_the_parent_without_asking() {
    let parent: TextMap<String> = TextMap::from_pairs(vec![("prompt".to_string(), "old".to_string())]);
    let failing = ReflectiveMutation::new(FailingLm);
    let child = failing.propose_with(&parent, &TextMap::new(), &Vec::new(), None).unwrap();
    assert_eq!(child.len(), 1);
    assert_eq!(child.get("prompt").unwrap(), "old");
}
