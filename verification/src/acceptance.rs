//! Acceptance criteria: whether a proposed candidate's score improves on its
//! parent's, with a reason that explains the verdict.

use vstd::prelude::*;

use crate::outcome::{better, better_or_equal, Metric, MetricDirection};
use crate::text::push_str;

verus! {

/// Policy for accepting a proposed candidate against its parent's score.
#[derive(Clone, Copy, Debug, PartialEq, Eq, Structural)]
pub enum AcceptanceCriterion {
    /// Accept only a strictly better candidate; equal scores are rejected so
    /// the loop does not churn on lateral moves.
    StrictImprovement,
    /// Accept a candidate at least as good as its parent.
    ImprovementOrEqual,
}

impl Default for AcceptanceCriterion {
    fn default() -> (r: Self)
        ensures
            r == AcceptanceCriterion::StrictImprovement,
    {
        AcceptanceCriterion::StrictImprovement
    }
}

/// The verdict of [`AcceptanceCriterion::should_accept`].
#[derive(Debug, PartialEq, Eq)]
pub struct AcceptanceVerdict {
    pub accepted: bool,
    pub reason: String,
}

/// Whether `criterion` accepts `candidate` against `parent` under `d`: always
/// without a parent score, else by strict or non-strict improvement.
pub open spec fn accepts(
    criterion: AcceptanceCriterion,
    candidate: int,
    parent: Option<i64>,
    d: MetricDirection,
) -> bool {
    match parent {
        None => true,
        Some(p) => match criterion {
            AcceptanceCriterion::StrictImprovement => better(d, candidate, p as int),
            AcceptanceCriterion::ImprovementOrEqual => better_or_equal(d, candidate, p as int),
        },
    }
}

/// The name of a direction, as `{:?}` prints it.
pub open spec fn direction_name(d: MetricDirection) -> Seq<char> {
    match d {
        MetricDirection::Maximize => "Maximize"@,
        MetricDirection::Minimize => "Minimize"@,
    }
}

impl MetricDirection {
    /// The direction's name, as `{:?}` prints it.
    pub fn name(&self) -> (r: &'static str)
        ensures
            r@ == direction_name(*self),
    {
        match self {
            MetricDirection::Maximize => "Maximize",
            MetricDirection::Minimize => "Minimize",
        }
    }
}

/// The reason given for a verdict, where `c` and `p` are the rendered
/// candidate and parent scores and `name`, `d` the metric's name and
/// direction.
pub open spec fn reason_spec(
    criterion: AcceptanceCriterion,
    accepted: bool,
    has_parent: bool,
    c: Seq<char>,
    p: Seq<char>,
    name: Seq<char>,
    d: MetricDirection,
) -> Seq<char> {
    if !has_parent {
        "no parent score to improve on"@
    } else {
        match criterion {
            AcceptanceCriterion::StrictImprovement => if accepted {
                "strict improvement: "@ + c + " > "@ + p + " ("@ + name + ")"@
            } else {
                "strict improvement required: candidate "@ + c + " is not better than parent "@
                    + p + " ("@ + name + ", "@ + direction_name(d) + ")"@
            },
            AcceptanceCriterion::ImprovementOrEqual => if accepted {
                "improvement-or-equal: "@ + c + " >= "@ + p + " ("@ + name + ")"@
            } else {
                "improvement-or-equal required: candidate "@ + c + " is worse than parent "@ + p
                    + " ("@ + name + ", "@ + direction_name(d) + ")"@
            },
        }
    }
}

/// Whether `v` is the verdict of `criterion` on `candidate` against
/// `parent` under `metric`: accepted exactly when [`accepts`] says so, with
/// the reason [`reason_spec`] gives for the scores as `render` prints them.
pub open spec fn verdict_is<F: Fn(i64) -> String>(
    criterion: AcceptanceCriterion,
    candidate: i64,
    parent: Option<i64>,
    metric: Metric,
    render: F,
    v: AcceptanceVerdict,
) -> bool {
    &&& v.accepted == accepts(criterion, candidate as int, parent, metric.direction)
    &&& exists|c: String, p: String|
        #![trigger reason_spec(criterion, v.accepted, parent is Some, c@, p@, metric.name@, metric.direction)]
        render.ensures((candidate,), c) && (parent matches Some(ps) ==> render.ensures((ps,), p))
            && v.reason@ == reason_spec(criterion, v.accepted, parent is Some, c@, p@, metric.name@, metric.direction)
}

impl AcceptanceCriterion {
    /// Judges whether a candidate's score improves on its parent's.
    ///
    /// A candidate without a parent score is always accepted: there is
    /// nothing to improve on. Scores are codes (see `crate::outcome`);
    /// `render` prints a code for the reason text.
    pub fn should_accept<F: Fn(i64) -> String>(
        self,
        candidate_score: i64,
        parent_score: Option<i64>,
        metric: &Metric,
        render: &F,
    ) -> (r: AcceptanceVerdict)
        requires
            forall|x: i64| render.requires((x,)),
        ensures
            verdict_is(self, candidate_score, parent_score, *metric, *render, r),
    {
        let c = render(candidate_score);
        let parent = match parent_score {
            None => {
                let reason = "no parent score to improve on".to_owned();
                let r = AcceptanceVerdict { accepted: true, reason };
                assert(r.reason@ == reason_spec(
                    self,
                    r.accepted,
                    parent_score is Some,
                    c@,
                    c@,
                    metric.name@,
                    metric.direction,
                ));
                return r;
            },
            Some(p) => p,
        };
        let p = render(parent);
        let mut reason = String::new();
        let accepted;
        match self {
            AcceptanceCriterion::StrictImprovement => {
                accepted = metric.direction.is_better(candidate_score, parent);
                if accepted {
                    push_str(&mut reason, "strict improvement: ");
                    push_str(&mut reason, c.as_str());
                    push_str(&mut reason, " > ");
                    push_str(&mut reason, p.as_str());
                    push_str(&mut reason, " (");
                    push_str(&mut reason, metric.name.as_str());
                    push_str(&mut reason, ")");
                } else {
                    push_str(&mut reason, "strict improvement required: candidate ");
                    push_str(&mut reason, c.as_str());
                    push_str(&mut reason, " is not better than parent ");
                    push_str(&mut reason, p.as_str());
                    push_str(&mut reason, " (");
                    push_str(&mut reason, metric.name.as_str());
                    push_str(&mut reason, ", ");
                    push_str(&mut reason, metric.direction.name());
                    push_str(&mut reason, ")");
                }
            },
            AcceptanceCriterion::ImprovementOrEqual => {
                accepted = metric.direction.is_better_or_equal(candidate_score, parent);
                if accepted {
                    push_str(&mut reason, "improvement-or-equal: ");
                    push_str(&mut reason, c.as_str());
                    push_str(&mut reason, " >= ");
                    push_str(&mut reason, p.as_str());
                    push_str(&mut reason, " (");
                    push_str(&mut reason, metric.name.as_str());
                    push_str(&mut reason, ")");
                } else {
                    push_str(&mut reason, "improvement-or-equal required: candidate ");
                    push_str(&mut reason, c.as_str());
                    push_str(&mut reason, " is worse than parent ");
                    push_str(&mut reason, p.as_str());
                    push_str(&mut reason, " (");
                    push_str(&mut reason, metric.name.as_str());
                    push_str(&mut reason, ", ");
                    push_str(&mut reason, metric.direction.name());
                    push_str(&mut reason, ")");
                }
            },
        }
        let r = AcceptanceVerdict { accepted, reason };
        assert(r.reason@ =~= reason_spec(
            self,
            r.accepted,
            parent_score is Some,
            c@,
            p@,
            metric.name@,
            metric.direction,
        ));
        r
    }
}

/// A candidate without a parent score is accepted under either criterion;
/// a candidate with its parent's own score is rejected under strict
/// improvement and, unless that score is NaN, accepted under
/// improvement-or-equal; a NaN score is never accepted against a parent's;
/// and whatever strict improvement accepts, improvement-or-equal accepts too.
pub proof fn lemma_acceptance_laws(candidate: int, parent: i64, d: MetricDirection)
    ensures
        accepts(AcceptanceCriterion::StrictImprovement, candidate, None, d),
        accepts(AcceptanceCriterion::ImprovementOrEqual, candidate, None, d),
        !accepts(AcceptanceCriterion::StrictImprovement, parent as int, Some(parent), d),
        !crate::outcome::is_nan_code(parent as int) ==> accepts(
            AcceptanceCriterion::ImprovementOrEqual,
            parent as int,
            Some(parent),
            d,
        ),
        crate::outcome::is_nan_code(candidate) ==> !accepts(AcceptanceCriterion::StrictImprovement, candidate, Some(parent), d)
            && !accepts(AcceptanceCriterion::ImprovementOrEqual, candidate, Some(parent), d),
        accepts(AcceptanceCriterion::StrictImprovement, candidate, Some(parent), d) ==> accepts(
            AcceptanceCriterion::ImprovementOrEqual,
            candidate,
            Some(parent),
            d,
        ),
{
}

} // verus!
