//! Research opportunities and how to dispatch them: which kind of worker a
//! surface needs in each research mode, and what to focus it on.
//!
//! Urgency and bias weights are floating-point numbers; they are carried
//! here as their `f64::to_bits` patterns.

use vstd::prelude::*;

use crate::graph::ResearchMode;
use crate::text::{lemma_seq_lt_irreflexive, lemma_seq_lt_transitive, push_str, seq_lt, str_lt};

verus! {

/// What kind of thing an opportunity is about.
#[derive(Clone, Copy, Debug, PartialEq, Eq, Structural)]
pub enum SurfaceKind {
    Target,
    Endpoint,
    Finding,
    Hypothesis,
    Evidence,
}

/// Which kind of worker takes an opportunity.
#[derive(Clone, Copy, Debug, PartialEq, Eq, Structural)]
pub enum DispatchClass {
    SurfaceExplorer,
    HypothesisProber,
    ProofValidator,
}

/// A place the research loop could spend attention on.
#[derive(Debug, PartialEq, Eq)]
pub struct ResearchOpportunity {
    pub node_id: String,
    pub surface: SurfaceKind,
    /// Urgency from 0.0 to 1.0 (bits of an `f64`).
    pub priority_bits: u64,
    /// Expected new map information (bits of an `f64`).
    pub novelty_bits: u64,
    /// How likely the current evidence holds up (bits of an `f64`).
    pub confidence_bits: u64,
    /// Expected value if confirmed (bits of an `f64`).
    pub impact_bits: u64,
    /// Whether the caller checked the opportunity against its constraints.
    pub in_scope: bool,
    /// Whether the next best action is proof-oriented validation.
    pub requires_validation: bool,
}

/// How much each research mode is favoured (weights as bits of `f64`s).
#[derive(Debug, PartialEq, Eq)]
pub struct ResearchBias {
    pub explore_weight_bits: u64,
    pub exploit_weight_bits: u64,
    pub validation_weight_bits: u64,
    pub require_in_scope: bool,
}

impl Default for ResearchBias {
    /// Explore 0.15, exploit 0.35, validate 0.45, in scope only.
    fn default() -> (r: Self)
        ensures
            r.explore_weight_bits == 0x3fc3_3333_3333_3333u64,
            r.exploit_weight_bits == 0x3fd6_6666_6666_6666u64,
            r.validation_weight_bits == 0x3fdc_cccc_cccc_cccdu64,
            r.require_in_scope,
    {
        ResearchBias {
            explore_weight_bits: 0x3fc3_3333_3333_3333u64,
            exploit_weight_bits: 0x3fd6_6666_6666_6666u64,
            validation_weight_bits: 0x3fdc_cccc_cccc_cccdu64,
            require_in_scope: true,
        }
    }
}

/// A ranked opportunity: who should take it, in which mode, and why.
#[derive(Debug, PartialEq, Eq)]
pub struct DispatchHint {
    pub node_id: String,
    pub surface: SurfaceKind,
    pub mode: ResearchMode,
    pub dispatch_class: DispatchClass,
    /// The ranking score (a score code, see `crate::outcome`).
    pub score: i64,
    pub focus: String,
    pub rationale: String,
}

/// The worker for a surface in a mode: explorers explore, validators
/// validate, and exploiting goes to a prober for findings and endpoints, a
/// validator for hypotheses, an explorer otherwise.
pub open spec fn dispatch_spec(surface: SurfaceKind, mode: ResearchMode) -> DispatchClass {
    match mode {
        ResearchMode::Explore => DispatchClass::SurfaceExplorer,
        ResearchMode::Validate => DispatchClass::ProofValidator,
        ResearchMode::Exploit => match surface {
            SurfaceKind::Hypothesis => DispatchClass::ProofValidator,
            SurfaceKind::Finding | SurfaceKind::Endpoint => DispatchClass::HypothesisProber,
            SurfaceKind::Target | SurfaceKind::Evidence => DispatchClass::SurfaceExplorer,
        },
    }
}

/// The worker for `opportunity` in `mode` (see [`dispatch_spec`]).
pub fn dispatch_class_for(opportunity: &ResearchOpportunity, mode: ResearchMode) -> (r: DispatchClass)
    ensures
        r == dispatch_spec(opportunity.surface, mode),
{
    match mode {
        ResearchMode::Explore => DispatchClass::SurfaceExplorer,
        ResearchMode::Validate => DispatchClass::ProofValidator,
        ResearchMode::Exploit => match opportunity.surface {
            SurfaceKind::Hypothesis => DispatchClass::ProofValidator,
            SurfaceKind::Finding | SurfaceKind::Endpoint => DispatchClass::HypothesisProber,
            SurfaceKind::Target | SurfaceKind::Evidence => DispatchClass::SurfaceExplorer,
        },
    }
}

/// What a worker in `mode` should focus on at `node_id`.
pub open spec fn focus_spec(node_id: Seq<char>, mode: ResearchMode) -> Seq<char> {
    match mode {
        ResearchMode::Explore => "map additional surface around "@ + node_id,
        ResearchMode::Exploit => "probe the strongest concrete hypothesis on "@ + node_id,
        ResearchMode::Validate => "validate proof end-to-end for "@ + node_id,
    }
}

/// What a worker in `mode` should focus on for `opportunity`.
pub fn focus_for(opportunity: &ResearchOpportunity, mode: ResearchMode) -> (r: String)
    ensures
        r@ == focus_spec(opportunity.node_id@, mode),
{
    let mut out = String::new();
    match mode {
        ResearchMode::Explore => push_str(&mut out, "map additional surface around "),
        ResearchMode::Exploit => push_str(&mut out, "probe the strongest concrete hypothesis on "),
        ResearchMode::Validate => push_str(&mut out, "validate proof end-to-end for "),
    }
    push_str(&mut out, opportunity.node_id.as_str());
    out
}

/// The name of a surface kind, as `{:?}` prints it.
pub open spec fn surface_name(s: SurfaceKind) -> Seq<char> {
    match s {
        SurfaceKind::Target => "Target"@,
        SurfaceKind::Endpoint => "Endpoint"@,
        SurfaceKind::Finding => "Finding"@,
        SurfaceKind::Hypothesis => "Hypothesis"@,
        SurfaceKind::Evidence => "Evidence"@,
    }
}

impl SurfaceKind {
    /// The surface kind's name, as `{:?}` prints it.
    pub fn name(&self) -> (r: &'static str)
        ensures
            r@ == surface_name(*self),
    {
        match self {
            SurfaceKind::Target => "Target",
            SurfaceKind::Endpoint => "Endpoint",
            SurfaceKind::Finding => "Finding",
            SurfaceKind::Hypothesis => "Hypothesis",
            SurfaceKind::Evidence => "Evidence",
        }
    }
}

/// Whether `bias` lets `opportunity` be ranked: always, unless only
/// in-scope opportunities count and it is not in scope.
pub fn considered(opportunity: &ResearchOpportunity, bias: &ResearchBias) -> (r: bool)
    ensures
        r == (!bias.require_in_scope || opportunity.in_scope),
{
    !bias.require_in_scope || opportunity.in_scope
}

/// The mode an opportunity calls for: validation where it asks for it; else
/// exploring targets and evidence, exploiting findings and hypotheses, and for
/// an endpoint exploiting where `leans_exploit` (its impact and confidence
/// add up to at least its novelty and a quarter, a floating-point sum the
/// caller makes), else exploring.
pub open spec fn recommended_mode_spec(o: ResearchOpportunity, leans_exploit: bool) -> ResearchMode {
    if o.requires_validation {
        ResearchMode::Validate
    } else {
        match o.surface {
            SurfaceKind::Target | SurfaceKind::Evidence => ResearchMode::Explore,
            SurfaceKind::Endpoint => if leans_exploit {
                ResearchMode::Exploit
            } else {
                ResearchMode::Explore
            },
            SurfaceKind::Finding | SurfaceKind::Hypothesis => ResearchMode::Exploit,
        }
    }
}

/// The mode `opportunity` calls for (see [`recommended_mode_spec`]).
pub fn recommended_mode(opportunity: &ResearchOpportunity, leans_exploit: bool) -> (r: ResearchMode)
    ensures
        r == recommended_mode_spec(*opportunity, leans_exploit),
{
    if opportunity.requires_validation {
        return ResearchMode::Validate;
    }
    match opportunity.surface {
        SurfaceKind::Target | SurfaceKind::Evidence => ResearchMode::Explore,
        SurfaceKind::Endpoint => if leans_exploit {
            ResearchMode::Exploit
        } else {
            ResearchMode::Explore
        },
        SurfaceKind::Finding | SurfaceKind::Hypothesis => ResearchMode::Exploit,
    }
}

/// The hint for `opportunity` in `mode`, with its ranking score (a score
/// code) and rationale: its worker and focus follow from the mode.
pub fn opportunity_hint(opportunity: &ResearchOpportunity, mode: ResearchMode, score: i64, rationale: String) -> (r:
    DispatchHint)
    ensures
        r.node_id@ == opportunity.node_id@,
        r.surface == opportunity.surface,
        r.mode == mode,
        r.dispatch_class == dispatch_spec(opportunity.surface, mode),
        r.score == score,
        r.focus@ == focus_spec(opportunity.node_id@, mode),
        r.rationale == rationale,
{
    DispatchHint {
        node_id: opportunity.node_id.clone(),
        surface: opportunity.surface,
        mode,
        dispatch_class: dispatch_class_for(opportunity, mode),
        score,
        focus: focus_for(opportunity, mode),
        rationale,
    }
}

/// Whether hint `a` goes strictly before hint `b`: a higher score, or an
/// equal score and a smaller node id.
pub open spec fn hint_precedes(a: DispatchHint, b: DispatchHint) -> bool {
    a.score > b.score || (a.score == b.score && seq_lt(a.node_id@, b.node_id@))
}

/// Where `x` goes into the ranked hints `s`: before the first hint it
/// strictly precedes, so after every hint that ties with it.
pub open spec fn hint_slot(s: Seq<DispatchHint>, x: DispatchHint) -> nat
    decreases s.len(),
{
    if s.len() == 0 {
        0
    } else if hint_precedes(x, s[0]) {
        0
    } else {
        1 + hint_slot(s.drop_first(), x)
    }
}

/// The hints `s` ranked by score (highest first) and then node id, hints
/// that tie keeping their order in `s`.
pub open spec fn ranked_hints(s: Seq<DispatchHint>) -> Seq<DispatchHint>
    decreases s.len(),
{
    if s.len() == 0 {
        s
    } else {
        let t = ranked_hints(s.drop_last());
        t.insert(hint_slot(t, s.last()) as int, s.last())
    }
}

/// Whether no hint of `s` strictly precedes one before it.
pub open spec fn hints_in_order(s: Seq<DispatchHint>) -> bool {
    forall|i: int, j: int| 0 <= i < j < s.len() ==> !hint_precedes(#[trigger] s[j], #[trigger] s[i])
}

proof fn lemma_hint_precedes_transitive(a: DispatchHint, b: DispatchHint, c: DispatchHint)
    requires
        hint_precedes(a, b),
        hint_precedes(b, c),
    ensures
        hint_precedes(a, c),
{
    if a.score == b.score && b.score == c.score {
        lemma_seq_lt_transitive(a.node_id@, b.node_id@, c.node_id@);
    }
}

proof fn lemma_hint_slot(s: Seq<DispatchHint>, x: DispatchHint)
    requires
        hints_in_order(s),
    ensures
        hint_slot(s, x) <= s.len(),
        forall|i: int| 0 <= i < hint_slot(s, x) ==> !hint_precedes(x, #[trigger] s[i]),
        hint_slot(s, x) < s.len() ==> hint_precedes(x, s[hint_slot(s, x) as int]),
    decreases s.len(),
{
    if s.len() > 0 && !hint_precedes(x, s[0]) {
        let t = s.drop_first();
        assert(hints_in_order(t)) by {
            assert forall|i: int, j: int| 0 <= i < j < t.len() implies !hint_precedes(#[trigger] t[j], #[trigger] t[i]) by {
                assert(t[i] == s[i + 1] && t[j] == s[j + 1]);
            }
        }
        lemma_hint_slot(t, x);
        assert forall|i: int| 0 <= i < hint_slot(s, x) implies !hint_precedes(x, #[trigger] s[i]) by {
            if i > 0 {
                assert(s[i] == t[i - 1]);
            }
        }
    }
}

/// Ranking the hints puts them in order and keeps each of them, as often as
/// it came.
pub proof fn lemma_ranked_hints(s: Seq<DispatchHint>)
    ensures
        hints_in_order(ranked_hints(s)),
        ranked_hints(s).to_multiset() == s.to_multiset(),
        ranked_hints(s).len() == s.len(),
    decreases s.len(),
{
    broadcast use vstd::multiset::group_multiset_axioms;
    if s.len() > 0 {
        let t = ranked_hints(s.drop_last());
        let x = s.last();
        lemma_ranked_hints(s.drop_last());
        lemma_hint_slot(t, x);
        let p = hint_slot(t, x) as int;
        let r = t.insert(p, x);
        assert forall|i: int, j: int| 0 <= i < j < r.len() implies !hint_precedes(#[trigger] r[j], #[trigger] r[i]) by {
            if j < p {
                assert(r[i] == t[i] && r[j] == t[j]);
            } else if j == p {
                assert(r[i] == t[i]);
            } else if i < p {
                assert(r[i] == t[i] && r[j] == t[j - 1]);
                assert(!hint_precedes(t[j - 1], t[i]));
            } else if i == p {
                assert(r[i] == x);
                assert(r[j] == t[j - 1]);
                assert(hint_precedes(x, t[p]));
                if hint_precedes(t[j - 1], x) {
                    lemma_hint_precedes_transitive(t[j - 1], x, t[p]);
                    if j - 1 == p {
                        lemma_seq_lt_irreflexive(t[p].node_id@);
                    } else {
                        assert(!hint_precedes(t[j - 1], t[p]));
                    }
                }
            } else {
                assert(r[i] == t[i - 1] && r[j] == t[j - 1]);
            }
        }
        vstd::seq_lib::to_multiset_insert(t, p, x);
        vstd::seq_lib::to_multiset_build(s.drop_last(), x);
        assert(s.drop_last().push(x) =~= s);
    }
}

/// The hints ranked by score (highest first) and then node id, hints that
/// tie keeping their order (see [`ranked_hints`]).
pub fn rank_hints(hints: Vec<DispatchHint>) -> (r: Vec<DispatchHint>)
    ensures
        r@ == ranked_hints(hints@),
{
    let ghost h = hints@;
    let mut hints = hints;
    let mut rest: Vec<DispatchHint> = Vec::new();
    while hints.len() > 0
        invariant
            hints@ + rest@.reverse() == h,
        decreases hints@.len(),
    {
        let x = hints.pop().unwrap();
        let ghost prev = rest@;
        rest.push(x);
        assert(rest@.reverse() =~= seq![x] + prev.reverse());
        assert(hints@ + rest@.reverse() =~= h);
    }
    let mut out: Vec<DispatchHint> = Vec::new();
    let ghost n = h.len();
    assert(h =~= rest@.reverse());
    while rest.len() > 0
        invariant
            rest@.reverse() == h.skip(n - rest@.len()),
            rest@.len() <= n,
            n == h.len(),
            out@ == ranked_hints(h.take(n - rest@.len())),
        decreases rest@.len(),
    {
        let ghost k = n - rest@.len();
        let ghost old_rest = rest@;
        let x = rest.pop().unwrap();
        assert(old_rest.reverse()[0] == x);
        assert(rest@.reverse() =~= old_rest.reverse().drop_first());
        assert(h[k] == x) by {
            assert(h.skip(k)[0] == x);
        }
        assert(h.take(k + 1).drop_last() =~= h.take(k));
        assert(h.take(k + 1).last() == x);
        let mut p: usize = 0;
        assert(out@.skip(0) =~= out@);
        while p < out.len() && !(x.score > out[p].score || (x.score == out[p].score && str_lt(
            x.node_id.as_str(),
            out[p].node_id.as_str(),
        )))
            invariant
                p <= out@.len(),
                hint_slot(out@, x) == p + hint_slot(out@.skip(p as int), x),
            decreases out@.len() - p,
        {
            assert(out@.skip(p as int).drop_first() =~= out@.skip(p + 1));
            p = p + 1;
        }
        proof {
            if p < out@.len() {
                assert(out@.skip(p as int)[0] == out@[p as int]);
            }
        }
        out.insert(p, x);
        assert(h.skip(k).drop_first() =~= h.skip(k + 1));
    }
    assert(h.take(n as int) =~= h);
    out
}

} // verus!
