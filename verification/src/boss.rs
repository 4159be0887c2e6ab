//! The same opportunities under the names a security-testing "boss" loop
//! dispatches them by.

use vstd::prelude::*;

use crate::graph::ResearchMode;
use crate::opportunity::{self, DispatchClass, DispatchHint, ResearchOpportunity, SurfaceKind};

verus! {

/// The surface kind of a boss opportunity.
pub type BossSurfaceKind = SurfaceKind;

/// A boss opportunity.
pub type BossOpportunity = ResearchOpportunity;

/// A boss research bias.
pub type BossResearchBias = opportunity::ResearchBias;

/// Which kind of boss worker takes an opportunity.
#[derive(Clone, Copy, Debug, PartialEq, Eq, Structural)]
pub enum BossDispatchClass {
    SurfaceExplorer,
    VulnerabilityProber,
    ExploitValidator,
}

/// A ranked boss opportunity.
#[derive(Debug, PartialEq, Eq)]
pub struct BossDispatchHint {
    pub node_id: String,
    pub surface: BossSurfaceKind,
    pub mode: ResearchMode,
    pub dispatch_class: BossDispatchClass,
    /// The ranking score (a score code, see `crate::outcome`).
    pub score: i64,
    pub focus: String,
    pub rationale: String,
}

/// The boss name of a worker class: probers probe vulnerabilities and
/// validators validate exploits.
pub open spec fn boss_class_spec(c: DispatchClass) -> BossDispatchClass {
    match c {
        DispatchClass::SurfaceExplorer => BossDispatchClass::SurfaceExplorer,
        DispatchClass::HypothesisProber => BossDispatchClass::VulnerabilityProber,
        DispatchClass::ProofValidator => BossDispatchClass::ExploitValidator,
    }
}

/// The boss name of a worker class (see [`boss_class_spec`]).
pub fn boss_dispatch_class(dispatch_class: DispatchClass) -> (r: BossDispatchClass)
    ensures
        r == boss_class_spec(dispatch_class),
{
    match dispatch_class {
        DispatchClass::SurfaceExplorer => BossDispatchClass::SurfaceExplorer,
        DispatchClass::HypothesisProber => BossDispatchClass::VulnerabilityProber,
        DispatchClass::ProofValidator => BossDispatchClass::ExploitValidator,
    }
}

/// The boss worker for `opportunity` in `mode`.
pub fn dispatch_class_for(opportunity: &BossOpportunity, mode: ResearchMode) -> (r: BossDispatchClass)
    ensures
        r == boss_class_spec(opportunity::dispatch_spec(opportunity.surface, mode)),
{
    boss_dispatch_class(opportunity::dispatch_class_for(opportunity, mode))
}

/// The boss form of `h`: the same hint, its worker under the boss name.
pub open spec fn boss_form(h: DispatchHint) -> BossDispatchHint {
    BossDispatchHint {
        node_id: h.node_id,
        surface: h.surface,
        mode: h.mode,
        dispatch_class: boss_class_spec(h.dispatch_class),
        score: h.score,
        focus: h.focus,
        rationale: h.rationale,
    }
}

/// The boss forms of ranked hints, in their order (see [`boss_form`]).
pub fn boss_hints(hints: Vec<DispatchHint>) -> (r: Vec<BossDispatchHint>)
    ensures
        r@ == hints@.map_values(|h: DispatchHint| boss_form(h)),
{
    let ghost h0 = hints@;
    let mut hints = hints;
    let mut rev: Vec<BossDispatchHint> = Vec::new();
    while hints.len() > 0
        invariant
            hints@.len() + rev@.len() == h0.len(),
            hints@ == h0.take(hints@.len() as int),
            forall|i: int| 0 <= i < rev@.len() ==> #[trigger] rev@[i] == boss_form(h0[h0.len() - 1 - i]),
        decreases hints@.len(),
    {
        let h = hints.pop().unwrap();
        let b = BossDispatchHint {
            node_id: h.node_id,
            surface: h.surface,
            mode: h.mode,
            dispatch_class: boss_dispatch_class(h.dispatch_class),
            score: h.score,
            focus: h.focus,
            rationale: h.rationale,
        };
        rev.push(b);
        assert(hints@ =~= h0.take(hints@.len() as int));
    }
    let mut out: Vec<BossDispatchHint> = Vec::new();
    while rev.len() > 0
        invariant
            rev@.len() + out@.len() == h0.len(),
            forall|i: int| 0 <= i < rev@.len() ==> #[trigger] rev@[i] == boss_form(h0[h0.len() - 1 - i]),
            forall|i: int| 0 <= i < out@.len() ==> #[trigger] out@[i] == boss_form(h0[i]),
        decreases rev@.len(),
    {
        let b = rev.pop().unwrap();
        out.push(b);
    }
    assert(out@ =~= h0.map_values(|h: DispatchHint| boss_form(h)));
    out
}

} // verus!
