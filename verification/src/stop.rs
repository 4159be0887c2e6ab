//! Enforceable stop conditions for the optimization loop.

use vstd::prelude::*;

use crate::text::str_eq;

verus! {

/// Loop progress that a [`StopCondition`] inspects.
#[derive(Clone, Copy, Debug, PartialEq, Eq, Structural)]
pub struct LoopSnapshot {
    /// Loop iterations completed.
    pub iteration: u32,
    /// Metric (evaluation) calls made so far.
    pub metric_calls: u32,
    /// Iterations since the last accepted improvement.
    pub iterations_since_improvement: u32,
}

impl Default for LoopSnapshot {
    fn default() -> (r: Self)
        ensures
            r.iteration == 0,
            r.metric_calls == 0,
            r.iterations_since_improvement == 0,
    {
        LoopSnapshot { iteration: 0, metric_calls: 0, iterations_since_improvement: 0 }
    }
}

/// When the optimization loop should stop.
#[derive(Debug, PartialEq, Eq)]
pub enum StopCondition {
    /// Stop after a maximum number of metric (evaluation) calls.
    MaxMetricCalls { max: u32 },
    /// Stop after a maximum number of loop iterations.
    MaxIterations { max: u32 },
    /// Stop when no improvement has been accepted for `window` iterations.
    NoImprovement { window: u32 },
    /// Stop when the file at `path` exists.
    FileStopper { path: String },
    /// Stop as soon as any member condition fires.
    Composite { conditions: Vec<StopCondition> },
}

/// Whether `c` fires on `s` when the files whose paths are in `present`
/// exist (and no others).
pub open spec fn stop_spec(c: StopCondition, s: LoopSnapshot, present: Seq<Seq<char>>) -> bool
    decreases c,
{
    match c {
        StopCondition::MaxMetricCalls { max } => s.metric_calls >= max,
        StopCondition::MaxIterations { max } => s.iteration >= max,
        StopCondition::NoImprovement { window } => s.iterations_since_improvement >= window,
        StopCondition::FileStopper { path } => present.contains(path@),
        StopCondition::Composite { conditions } => exists|i: int|
            #![trigger conditions@[i]]
            0 <= i < conditions@.len() && stop_spec(conditions@[i], s, present),
    }
}

/// Whether `c` holds a file stopper on `path`.
pub open spec fn names_file(c: StopCondition, path: Seq<char>) -> bool
    decreases c,
{
    match c {
        StopCondition::FileStopper { path: p } => p@ == path,
        StopCondition::Composite { conditions } => exists|i: int|
            #![trigger conditions@[i]]
            0 <= i < conditions@.len() && names_file(conditions@[i], path),
        _ => false,
    }
}

/// A composite condition fires exactly when one of its members fires.
pub proof fn lemma_composite_fires_if_any(conditions: Vec<StopCondition>, s: LoopSnapshot, present: Seq<Seq<char>>)
    ensures
        stop_spec(StopCondition::Composite { conditions }, s, present) <==> exists|i: int|
            0 <= i < conditions@.len() && #[trigger] stop_spec(conditions@[i], s, present),
{
    let c = StopCondition::Composite { conditions };
    assert(c->conditions == conditions);
    assert(stop_spec(c, s, present) == exists|i: int|
            #![trigger conditions@[i]]
            0 <= i < conditions@.len() && stop_spec(conditions@[i], s, present));
    if stop_spec(c, s, present) {
        let i = choose|i: int| 0 <= i < conditions@.len() && #[trigger] stop_spec(conditions@[i], s, present);
    }
}

/// Whether some string of `v` equals `k`.
fn has_text(v: &Vec<String>, k: &str) -> (r: bool)
    ensures
        r == v.deep_view().contains(k@),
{
    let mut i: usize = 0;
    while i < v.len()
        invariant
            i <= v.len(),
            forall|j: int| 0 <= j < i ==> v.deep_view()[j] != k@,
        decreases v.len() - i,
    {
        if str_eq(v[i].as_str(), k) {
            assert(v.deep_view()[i as int] == k@);
            return true;
        }
        i = i + 1;
    }
    false
}

/// Whether a file or directory exists at `path` (`std::path::Path::exists`).
/// Trusted: nothing is claimed of the answer, which depends on the disk.
#[verifier::external_body]
fn path_exists(path: &str) -> bool {
    std::path::Path::new(path).exists()
}

/// Whether the existence check of the file at `p` (`Path::exists`) answered
/// `exists`.
pub closed spec fn answered(p: Seq<char>, exists: bool) -> bool {
    exists|s: &str| s@ == p && #[trigger] call_ensures(path_exists, (s,), exists)
}

/// Whether `present` is what the existence checks of the file stoppers of
/// `c` answered: each path named is present exactly when its check said the
/// file exists.
pub open spec fn checked_paths(c: StopCondition, present: Seq<Seq<char>>) -> bool {
    forall|p: Seq<char>|
        #[trigger] names_file(c, p) ==> (present.contains(p) ==> answered(p, true)) && (!present.contains(p)
            ==> answered(p, false))
}

/// A file stopper, asked with the paths its existence checks found, fires
/// exactly when the check of its file said the file exists, and does not
/// when it said the file is absent.
pub proof fn lemma_file_stopper_fires(path: String, s: LoopSnapshot, present: Seq<Seq<char>>)
    requires
        checked_paths(StopCondition::FileStopper { path }, present),
    ensures
        stop_spec(StopCondition::FileStopper { path }, s, present) ==> answered(path@, true),
        !stop_spec(StopCondition::FileStopper { path }, s, present) ==> answered(path@, false),
{
    assert(names_file(StopCondition::FileStopper { path }, path@));
}

impl StopCondition {
    /// Whether this condition fires on `snapshot`, given the paths of the
    /// files that exist.
    pub fn should_stop_given(&self, snapshot: &LoopSnapshot, present: &Vec<String>) -> (r: bool)
        ensures
            r == stop_spec(*self, *snapshot, present.deep_view()),
        decreases self,
    {
        match self {
            StopCondition::MaxMetricCalls { max } => snapshot.metric_calls >= *max,
            StopCondition::MaxIterations { max } => snapshot.iteration >= *max,
            StopCondition::NoImprovement { window } => snapshot.iterations_since_improvement >= *window,
            StopCondition::FileStopper { path } => has_text(present, path.as_str()),
            StopCondition::Composite { conditions } => {
                let mut i: usize = 0;
                while i < conditions.len()
                    invariant
                        i <= conditions@.len(),
                        *self is Composite,
                        self->conditions == *conditions,
                        forall|j: int|
                            #![trigger conditions@[j]]
                            0 <= j < i ==> !stop_spec(conditions@[j], *snapshot, present.deep_view()),
                    decreases conditions@.len() - i,
                {
                    proof {
                        assert(decreases_to!(*self => self->conditions));
                        assert(decreases_to!(self->conditions => conditions@));
                        assert(decreases_to!(conditions@ => conditions@[i as int]));
                    }
                    if conditions[i].should_stop_given(snapshot, present) {
                        assert(stop_spec(conditions@[i as int], *snapshot, present.deep_view()));
                        return true;
                    }
                    i = i + 1;
                }
                false
            },
        }
    }

    /// The paths of the file stoppers in this condition, in order.
    pub fn file_paths(&self) -> (r: Vec<String>)
        ensures
            forall|i: int| 0 <= i < r@.len() ==> names_file(*self, #[trigger] r@[i]@),
            forall|p: Seq<char>| names_file(*self, p) ==> r.deep_view().contains(p),
        decreases self,
    {
        match self {
            StopCondition::FileStopper { path } => {
                let mut v = Vec::new();
                v.push(path.clone());
                assert(v.deep_view()[0] == path@);
                v
            },
            StopCondition::Composite { conditions } => {
                let mut out: Vec<String> = Vec::new();
                let mut i: usize = 0;
                while i < conditions.len()
                    invariant
                        i <= conditions@.len(),
                        *self is Composite,
                        self->conditions == *conditions,
                        forall|k: int| 0 <= k < out@.len() ==> names_file(*self, #[trigger] out@[k]@),
                        forall|p: Seq<char>, j: int|
                            0 <= j < i && #[trigger] names_file(conditions@[j], p) ==> out.deep_view().contains(p),
                    decreases conditions@.len() - i,
                {
                    proof {
                        assert(decreases_to!(*self => self->conditions));
                        assert(decreases_to!(self->conditions => conditions@));
                        assert(decreases_to!(conditions@ => conditions@[i as int]));
                    }
                    let mut sub = conditions[i].file_paths();
                    let ghost before = out.deep_view();
                    let ghost added = sub.deep_view();
                    out.append(&mut sub);
                    proof {
                        assert(out.deep_view() =~= before + added);
                        assert forall|k: int| 0 <= k < out@.len() implies names_file(*self, #[trigger] out@[k]@) by {
                            if k >= before.len() {
                                assert(out@[k]@ == added[k - before.len()]);
                                assert(names_file(conditions@[i as int], out@[k]@));
                            }
                        }
                        assert forall|p: Seq<char>, j: int|
                            0 <= j < i + 1 && #[trigger] names_file(conditions@[j], p) implies out.deep_view().contains(p) by {
                            if j < i {
                                let x = choose|x: int| 0 <= x < before.len() && before[x] == p;
                                assert(out.deep_view()[x] == p);
                            } else {
                                let x = choose|x: int| 0 <= x < added.len() && added[x] == p;
                                assert(out.deep_view()[before.len() + x] == p);
                            }
                        }
                    }
                    i = i + 1;
                }
                proof {
                    assert forall|p: Seq<char>| names_file(*self, p) implies out.deep_view().contains(p) by {
                        assert(self->conditions == *conditions);
                        assert(names_file(*self, p) == exists|j: int|
                            #![trigger conditions@[j]]
                            0 <= j < conditions@.len() && names_file(conditions@[j], p));
                        let j = choose|j: int| 0 <= j < conditions@.len() && names_file(conditions@[j], p);
                        assert(names_file(conditions@[j], p));
                    }
                }
                out
            },
            _ => Vec::new(),
        }
    }

    /// Whether the loop should stop at `snapshot`. Each file stopper asks
    /// whether its file exists now; the answer is whatever the disk says.
    pub fn should_stop(&self, snapshot: &LoopSnapshot) -> (r: bool)
        ensures
            exists|present: Seq<Seq<char>>|
                r == #[trigger] stop_spec(*self, *snapshot, present) && checked_paths(*self, present),
    {
        let paths = self.file_paths();
        let mut present: Vec<String> = Vec::new();
        let mut i: usize = 0;
        while i < paths.len()
            invariant
                i <= paths.len(),
                forall|p: Seq<char>| #[trigger] present.deep_view().contains(p) ==> answered(p, true),
                forall|j: int|
                    0 <= j < i && !present.deep_view().contains(#[trigger] paths.deep_view()[j]) ==> answered(
                        paths.deep_view()[j],
                        false,
                    ),
            decreases paths.len() - i,
        {
            let s: &str = paths[i].as_str();
            let found = path_exists(s);
            let ghost before = present.deep_view();
            if found {
                present.push(paths[i].clone());
                assert(present.deep_view() =~= before.push(paths.deep_view()[i as int]));
                assert forall|p: Seq<char>| #[trigger] present.deep_view().contains(p) implies answered(p, true) by {
                    if !before.contains(p) {
                        let q = choose|q: int| 0 <= q < present.deep_view().len() && present.deep_view()[q] == p;
                        assert(q == before.len());
                        assert(s@ == p);
                    }
                }
                assert forall|j: int|
                    0 <= j < i + 1 && !present.deep_view().contains(#[trigger] paths.deep_view()[j]) implies answered(
                    paths.deep_view()[j],
                    false,
                ) by {
                    if j < i {
                        if before.contains(paths.deep_view()[j]) {
                            let q = choose|q: int| 0 <= q < before.len() && before[q] == paths.deep_view()[j];
                            assert(present.deep_view()[q] == before[q]);
                        }
                    } else {
                        assert(present.deep_view()[before.len() as int] == paths.deep_view()[j]);
                    }
                }
            } else {
                assert(s@ == paths.deep_view()[i as int]);
                assert(answered(paths.deep_view()[i as int], false));
            }
            i = i + 1;
        }
        proof {
            assert forall|p: Seq<char>| #[trigger] names_file(*self, p) implies (present.deep_view().contains(p)
                ==> answered(p, true)) && (!present.deep_view().contains(p) ==> answered(p, false)) by {
                if !present.deep_view().contains(p) {
                    assert(paths.deep_view().contains(p));
                    let j = choose|j: int| 0 <= j < paths.deep_view().len() && paths.deep_view()[j] == p;
                }
            }
        }
        let r = self.should_stop_given(snapshot, &present);
        assert(r == stop_spec(*self, *snapshot, present.deep_view()));
        r
    }
}

} // verus!
