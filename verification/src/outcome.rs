//! Metrics, their directions, and trial outcomes.
//!
//! A score is carried as an `i64` code of the floating-point score it stands
//! for: codes of scores that are not NaN order exactly as the scores do (see
//! [`score_from_bits`]), so comparisons are made on codes; [`better`] and
//! [`better_or_equal`], as `f64` comparisons do, never hold of a NaN.

use vstd::prelude::*;

use crate::json::Json;
use crate::textmap::TextMap;

verus! {

/// The sign bit of an IEEE-754 double.
pub open spec fn sign_bit() -> u64 {
    0x8000_0000_0000_0000u64
}

/// The code of the double whose bit pattern is `bits`: the magnitude bits,
/// negated when the sign bit is set. For any two doubles that are not NaN,
/// `a < b` exactly when `code(a) < code(b)`, and `-0.0` and `0.0` share the
/// code 0. NaNs get codes beyond those of the infinities of their sign.
pub open spec fn code_of_bits(bits: u64) -> int {
    if bits < sign_bit() {
        bits as int
    } else {
        -((bits - sign_bit()) as int)
    }
}

/// The bit pattern of the double with code `code` (`u64::MAX`, a NaN, for
/// `i64::MIN`, which no double has).
pub open spec fn bits_of_code(code: int) -> int {
    if code >= 0 {
        code
    } else if code == i64::MIN {
        u64::MAX as int
    } else {
        sign_bit() - code
    }
}

/// The code of the score whose `f64::to_bits` is `bits` (see [`code_of_bits`]).
pub fn score_from_bits(bits: u64) -> (r: i64)
    ensures
        r == code_of_bits(bits),
{
    if bits < 0x8000_0000_0000_0000u64 {
        bits as i64
    } else {
        let magnitude = bits - 0x8000_0000_0000_0000u64;
        -(magnitude as i64)
    }
}

/// The `f64::to_bits` of the score with code `code` (see [`bits_of_code`]).
pub fn score_to_bits(code: i64) -> (r: u64)
    ensures
        r == bits_of_code(code as int),
{
    if code >= 0 {
        code as u64
    } else if code == i64::MIN {
        u64::MAX
    } else {
        0x8000_0000_0000_0000u64 + ((-code) as u64)
    }
}

/// Codes and bit patterns convert back and forth without loss, except that
/// negative zero comes back as zero.
pub proof fn lemma_score_codes_round_trip(bits: u64, code: i64)
    ensures
        bits != sign_bit() ==> bits_of_code(code_of_bits(bits)) == bits,
        bits == sign_bit() ==> code_of_bits(bits) == 0,
        code != i64::MIN ==> code_of_bits(bits_of_code(code as int) as u64) == code,
{
}

/// Whether scores are better when higher or when lower.
#[derive(Clone, Copy, Debug, PartialEq, Eq, Structural)]
pub enum MetricDirection {
    Maximize,
    Minimize,
}

/// The code of positive infinity (negative infinity has its negation).
pub open spec fn inf_code() -> int {
    0x7ff0_0000_0000_0000
}

/// Whether `code` stands for a NaN: its magnitude lies beyond infinity's.
pub open spec fn is_nan_code(code: int) -> bool {
    code > inf_code() || code < -inf_code()
}

/// Whether `candidate` beats `incumbent` under direction `d`; as with
/// floating-point comparisons, never when either is NaN.
pub open spec fn better(d: MetricDirection, candidate: int, incumbent: int) -> bool {
    !is_nan_code(candidate) && !is_nan_code(incumbent) && match d {
        MetricDirection::Maximize => candidate > incumbent,
        MetricDirection::Minimize => candidate < incumbent,
    }
}

/// Whether `candidate` is at least as good as `incumbent` under direction
/// `d`; as with floating-point comparisons, never when either is NaN.
pub open spec fn better_or_equal(d: MetricDirection, candidate: int, incumbent: int) -> bool {
    !is_nan_code(candidate) && !is_nan_code(incumbent) && match d {
        MetricDirection::Maximize => candidate >= incumbent,
        MetricDirection::Minimize => candidate <= incumbent,
    }
}

/// Whether key `a` is above key `b` as `f64::partial_cmp` orders them: never
/// when either is NaN.
pub open spec fn key_above(a: int, b: int) -> bool {
    !is_nan_code(a) && !is_nan_code(b) && a > b
}

/// Whether keys `a` and `b` compare equal under `f64::partial_cmp` with an
/// unordered pair counted as equal: they are equal, or one is NaN.
pub open spec fn key_ties(a: int, b: int) -> bool {
    is_nan_code(a) || is_nan_code(b) || a == b
}

/// Whether the oriented key `k` (a score code or its negation) stands for a NaN.
pub fn key_is_nan(k: i128) -> (r: bool)
    ensures
        r == is_nan_code(k as int),
{
    k > 0x7ff0_0000_0000_0000i128 || k < -0x7ff0_0000_0000_0000i128
}

/// Whether the score code `code` stands for a NaN.
pub fn code_is_nan(code: i64) -> (r: bool)
    ensures
        r == is_nan_code(code as int),
{
    code > 0x7ff0_0000_0000_0000i64 || code < -0x7ff0_0000_0000_0000i64
}

/// The score oriented so that higher is better under direction `d`.
pub open spec fn directional(d: MetricDirection, score: int) -> int {
    match d {
        MetricDirection::Maximize => score,
        MetricDirection::Minimize => -score,
    }
}

impl MetricDirection {
    /// Whether `candidate` is strictly better than `incumbent` (never when
    /// either is NaN).
    pub fn is_better(self, candidate: i64, incumbent: i64) -> (r: bool)
        ensures
            r == better(self, candidate as int, incumbent as int),
    {
        if code_is_nan(candidate) || code_is_nan(incumbent) {
            return false;
        }
        match self {
            MetricDirection::Maximize => candidate > incumbent,
            MetricDirection::Minimize => candidate < incumbent,
        }
    }

    /// Whether `candidate` is at least as good as `incumbent` (never when
    /// either is NaN).
    pub fn is_better_or_equal(self, candidate: i64, incumbent: i64) -> (r: bool)
        ensures
            r == better_or_equal(self, candidate as int, incumbent as int),
    {
        if code_is_nan(candidate) || code_is_nan(incumbent) {
            return false;
        }
        match self {
            MetricDirection::Maximize => candidate >= incumbent,
            MetricDirection::Minimize => candidate <= incumbent,
        }
    }

    /// The score oriented so that higher is better (negated for `Minimize`).
    pub fn directional_score(self, score: i64) -> (r: i128)
        ensures
            r == directional(self, score as int),
    {
        match self {
            MetricDirection::Maximize => score as i128,
            MetricDirection::Minimize => -(score as i128),
        }
    }
}

/// Among scores that are not NaN, being better is being better-or-equal and
/// not equal, and orienting a score preserves the order of the direction.
pub proof fn lemma_direction_orders(d: MetricDirection, a: int, b: int)
    requires
        !is_nan_code(a),
        !is_nan_code(b),
    ensures
        better(d, a, b) <==> (better_or_equal(d, a, b) && a != b),
        better(d, a, b) <==> directional(d, a) > directional(d, b),
        better_or_equal(d, a, b) <==> directional(d, a) >= directional(d, b),
        better_or_equal(d, a, b) || better(d, b, a),
{
}

/// A named metric and its direction.
#[derive(Debug, PartialEq, Eq)]
pub struct Metric {
    pub name: String,
    pub direction: MetricDirection,
}

impl Metric {
    /// A metric where higher is better.
    pub fn maximize(name: &str) -> (r: Self)
        ensures
            r.name@ == name@,
            r.direction == MetricDirection::Maximize,
    {
        Metric { name: name.to_owned(), direction: MetricDirection::Maximize }
    }

    /// A metric where lower is better.
    pub fn minimize(name: &str) -> (r: Self)
        ensures
            r.name@ == name@,
            r.direction == MetricDirection::Minimize,
    {
        Metric { name: name.to_owned(), direction: MetricDirection::Minimize }
    }

    /// A copy of this metric.
    pub fn copy(&self) -> (r: Self)
        ensures
            r.name@ == self.name@,
            r.direction == self.direction,
    {
        Metric { name: self.name.clone(), direction: self.direction }
    }
}

/// How a trial ended.
#[derive(Clone, Copy, Debug, PartialEq, Eq, Structural)]
pub enum OutcomeStatus {
    Passed,
    Failed,
    Inconclusive,
}

/// A score on one task, optionally with its own direction.
#[derive(Debug, PartialEq, Eq)]
pub struct TaskScore {
    pub task_id: String,
    pub score: i64,
    pub direction: Option<MetricDirection>,
}

impl TaskScore {
    /// A task score that follows the metric's direction.
    pub fn new(task_id: &str, score: i64) -> (r: Self)
        ensures
            r.task_id@ == task_id@,
            r.score == score,
            r.direction.is_none(),
    {
        TaskScore { task_id: task_id.to_owned(), score, direction: None }
    }

    /// A task score with its own direction.
    pub fn with_direction(task_id: &str, score: i64, direction: MetricDirection) -> (r: Self)
        ensures
            r.task_id@ == task_id@,
            r.score == score,
            r.direction == Some(direction),
    {
        TaskScore { task_id: task_id.to_owned(), score, direction: Some(direction) }
    }
}

/// The evaluation of one trial.
#[derive(Debug)]
pub struct TrialOutcome {
    /// The aggregate score (the primary metric).
    pub score: i64,
    pub status: OutcomeStatus,
    pub summary: String,
    pub task_scores: Vec<TaskScore>,
    pub metadata: TextMap<Json>,
    /// Per-objective aggregate scores (objective name -> score).
    pub objective_scores: TextMap<i64>,
    /// Per-example validation subscores (example id -> score).
    pub val_subscores: TextMap<i64>,
    /// Per-example, per-objective scores (example id -> objective -> score).
    pub objective_subscores: TextMap<TextMap<i64>>,
}

impl TrialOutcome {
    fn with_status(score: i64, status: OutcomeStatus, summary: &str) -> (r: Self)
        ensures
            r.score == score,
            r.status == status,
            r.summary@ == summary@,
            r.task_scores@.len() == 0,
            r.metadata@ == Map::<Seq<char>, Json>::empty(),
            r.objective_scores@ == Map::<Seq<char>, i64>::empty(),
            r.val_subscores@ == Map::<Seq<char>, i64>::empty(),
            r.objective_subscores@ == Map::<Seq<char>, TextMap<i64>>::empty(),
    {
        TrialOutcome {
            score,
            status,
            summary: summary.to_owned(),
            task_scores: Vec::new(),
            metadata: TextMap::new(),
            objective_scores: TextMap::new(),
            val_subscores: TextMap::new(),
            objective_subscores: TextMap::new(),
        }
    }

    /// A passed trial with `score` and no per-task, per-objective or
    /// per-example scores.
    pub fn passed(score: i64, summary: &str) -> (r: Self)
        ensures
            r.score == score,
            r.status == OutcomeStatus::Passed,
            r.summary@ == summary@,
            r.task_scores@.len() == 0,
            r.metadata@ == Map::<Seq<char>, Json>::empty(),
            r.objective_scores@ == Map::<Seq<char>, i64>::empty(),
            r.val_subscores@ == Map::<Seq<char>, i64>::empty(),
            r.objective_subscores@ == Map::<Seq<char>, TextMap<i64>>::empty(),
    {
        Self::with_status(score, OutcomeStatus::Passed, summary)
    }

    /// A failed trial with `score` and no per-task, per-objective or
    /// per-example scores.
    pub fn failed(score: i64, summary: &str) -> (r: Self)
        ensures
            r.score == score,
            r.status == OutcomeStatus::Failed,
            r.summary@ == summary@,
            r.task_scores@.len() == 0,
            r.metadata@ == Map::<Seq<char>, Json>::empty(),
            r.objective_scores@ == Map::<Seq<char>, i64>::empty(),
            r.val_subscores@ == Map::<Seq<char>, i64>::empty(),
            r.objective_subscores@ == Map::<Seq<char>, TextMap<i64>>::empty(),
    {
        Self::with_status(score, OutcomeStatus::Failed, summary)
    }

    /// This outcome with its per-task scores replaced.
    pub fn with_task_scores(self, task_scores: Vec<TaskScore>) -> (r: Self)
        ensures
            r == (TrialOutcome { task_scores, ..self }),
    {
        TrialOutcome { task_scores, ..self }
    }

    /// This outcome with its per-objective scores replaced.
    pub fn with_objective_scores(self, objective_scores: TextMap<i64>) -> (r: Self)
        ensures
            r == (TrialOutcome { objective_scores, ..self }),
    {
        TrialOutcome { objective_scores, ..self }
    }

    /// This outcome with its per-example subscores replaced.
    pub fn with_val_subscores(self, val_subscores: TextMap<i64>) -> (r: Self)
        ensures
            r == (TrialOutcome { val_subscores, ..self }),
    {
        TrialOutcome { val_subscores, ..self }
    }
}

/// One or more named objectives, the first of which is primary.
#[derive(Debug, PartialEq, Eq)]
pub struct Objectives {
    pub metrics: Vec<Metric>,
}

/// The direction of the first metric of `metrics` named `name`.
pub open spec fn direction_for_spec(metrics: Seq<Metric>, name: Seq<char>) -> Option<MetricDirection>
    decreases metrics.len(),
{
    if metrics.len() == 0 {
        None
    } else if metrics[0].name@ == name {
        Some(metrics[0].direction)
    } else {
        direction_for_spec(metrics.drop_first(), name)
    }
}

/// The direction looked up for `name` is that of the first metric named
/// `name`, and the primary metric's where none is.
pub proof fn lemma_direction_lookup(metrics: Seq<Metric>, name: Seq<char>)
    requires
        metrics.len() > 0,
    ensures
        (exists|i: int| 0 <= i < metrics.len() && #[trigger] metrics[i].name@ == name) ==> exists|i: int|
            0 <= i < metrics.len() && #[trigger] metrics[i].name@ == name && (forall|j: int|
                0 <= j < i ==> #[trigger] metrics[j].name@ != name) && direction_or_primary(metrics, name)
                == metrics[i].direction,
        (forall|i: int| 0 <= i < metrics.len() ==> #[trigger] metrics[i].name@ != name) ==> direction_or_primary(
            metrics,
            name,
        ) == metrics[0].direction,
{
    lemma_direction_for_first(metrics, name);
}

proof fn lemma_direction_for_first(metrics: Seq<Metric>, name: Seq<char>)
    ensures
        (exists|i: int| 0 <= i < metrics.len() && #[trigger] metrics[i].name@ == name) ==> exists|i: int|
            0 <= i < metrics.len() && #[trigger] metrics[i].name@ == name && (forall|j: int|
                0 <= j < i ==> #[trigger] metrics[j].name@ != name) && direction_for_spec(metrics, name)
                == Some(metrics[i].direction),
        (forall|i: int| 0 <= i < metrics.len() ==> #[trigger] metrics[i].name@ != name) ==> direction_for_spec(
            metrics,
            name,
        ) is None,
    decreases metrics.len(),
{
    if metrics.len() > 0 {
        let rest = metrics.drop_first();
        lemma_direction_for_first(rest, name);
        if metrics[0].name@ == name {
            assert(metrics[0].name@ == name);
        } else {
            if exists|i: int| 0 <= i < metrics.len() && #[trigger] metrics[i].name@ == name {
                let i = choose|i: int| 0 <= i < metrics.len() && #[trigger] metrics[i].name@ == name;
                assert(rest[i - 1].name@ == name);
                let w = choose|w: int| 0 <= w < rest.len() && #[trigger] rest[w].name@ == name && (forall|j: int|
                    0 <= j < w ==> #[trigger] rest[j].name@ != name) && direction_for_spec(rest, name)
                    == Some(rest[w].direction);
                assert(metrics[w + 1].name@ == name);
                assert forall|j: int| 0 <= j < w + 1 implies #[trigger] metrics[j].name@ != name by {
                    if j > 0 {
                        assert(metrics[j] == rest[j - 1]);
                    }
                }
            }
            if forall|i: int| 0 <= i < metrics.len() ==> #[trigger] metrics[i].name@ != name {
                assert forall|i: int| 0 <= i < rest.len() implies #[trigger] rest[i].name@ != name by {
                    assert(rest[i] == metrics[i + 1]);
                }
            }
        }
    }
}

/// The direction for objective `name`, falling back to the primary one.
pub open spec fn direction_or_primary(metrics: Seq<Metric>, name: Seq<char>) -> MetricDirection {
    match direction_for_spec(metrics, name) {
        Some(d) => d,
        None => metrics[0].direction,
    }
}

impl Objectives {
    /// A single objective.
    pub fn single(metric: Metric) -> (r: Self)
        ensures
            r.metrics@ == seq![metric],
    {
        let mut metrics = Vec::new();
        metrics.push(metric);
        Objectives { metrics }
    }

    /// The given objectives, in order.
    pub fn new(metrics: Vec<Metric>) -> (r: Self)
        ensures
            r.metrics == metrics,
    {
        Objectives { metrics }
    }

    /// The primary (first) objective.
    pub fn primary(&self) -> (r: &Metric)
        requires
            self.metrics@.len() > 0,
        ensures
            *r == self.metrics@[0],
    {
        &self.metrics[0]
    }

    /// The direction of the first objective named `name`.
    pub fn direction_for(&self, name: &str) -> (r: Option<MetricDirection>)
        ensures
            r == direction_for_spec(self.metrics@, name@),
    {
        let mut i: usize = 0;
        assert(self.metrics@.skip(0) =~= self.metrics@);
        while i < self.metrics.len()
            invariant
                i <= self.metrics@.len(),
                direction_for_spec(self.metrics@, name@) == direction_for_spec(
                    self.metrics@.skip(i as int),
                    name@,
                ),
            decreases self.metrics@.len() - i,
        {
            let ghost rest = self.metrics@.skip(i as int);
            assert(rest.drop_first() =~= self.metrics@.skip(i + 1));
            if crate::text::str_eq(self.metrics[i].name.as_str(), name) {
                return Some(self.metrics[i].direction);
            }
            i = i + 1;
        }
        None
    }

    /// The direction of objective `name`, or the primary objective's when
    /// no objective has that name.
    pub fn direction_for_or_primary(&self, name: &str) -> (r: MetricDirection)
        requires
            self.metrics@.len() > 0,
        ensures
            r == direction_or_primary(self.metrics@, name@),
    {
        match self.direction_for(name) {
            Some(d) => d,
            None => self.primary().direction,
        }
    }
}

} // verus!
