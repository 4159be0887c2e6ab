//! An exact-match evaluation cache: a (candidate, example) pair evaluated
//! once is served from the cache afterwards, saving metric calls.

use vstd::prelude::*;
use vstd::utf8::encode_utf8;

use crate::adapter::copy_or_default;
use crate::ids::{hex_encode, hex_prefix, push_part, sha1_digest, sha1_spec};
use crate::keyed::DeepClone;
use crate::proposer::Candidate;
use crate::text::{push_str, sorted_strict};
use crate::textmap::TextMap;

verus! {

/// The bytes a candidate is hashed over: each component name and its text,
/// in component order, each followed by a zero byte (the first `n`
/// components).
pub open spec fn candidate_message(c: Candidate, n: int) -> Seq<u8>
    decreases n,
{
    if n <= 0 {
        Seq::empty()
    } else {
        let k = c.keys()[n - 1];
        candidate_message(c, n - 1) + encode_utf8(k).push(0u8) + encode_utf8(c@[k]@).push(0u8)
    }
}

/// The hash of a candidate: the lower-case hex SHA-1 of its message.
pub open spec fn candidate_hash_spec(c: Candidate) -> Seq<char> {
    hex_encode(sha1_spec(candidate_message(c, c.keys().len() as int)))
}

/// A stable hash of a candidate over its (component, text) pairs in
/// component order, independent of how it was built. A deduplication key,
/// not a security primitive.
pub fn candidate_hash(candidate: &Candidate) -> (r: String)
    ensures
        r@ == candidate_hash_spec(*candidate),
{
    let mut msg: Vec<u8> = Vec::new();
    let mut i: usize = 0;
    assert(msg@ =~= candidate_message(*candidate, 0));
    while i < candidate.len()
        invariant
            i <= candidate.keys().len(),
            msg@ == candidate_message(*candidate, i as int),
        decreases candidate.keys().len() - i,
    {
        let k = candidate.key_at(i);
        let v = candidate.value_at(i);
        push_part(&mut msg, k.as_str());
        push_part(&mut msg, v.as_str());
        i = i + 1;
    }
    let digest = sha1_digest(msg.as_slice());
    let r = hex_prefix(&digest, 40);
    assert(hex_encode(digest@).take(40) =~= hex_encode(digest@));
    r
}

/// The cache key of example `example_id` for the candidate with hash `hash`.
pub open spec fn cache_key(hash: Seq<char>, example_id: Seq<char>) -> Seq<char> {
    hash + seq!['\0'] + example_id
}

/// The cache key of example `example_id` for the candidate with hash `hash`.
fn key_of(hash: &str, example_id: &str) -> (r: String)
    ensures
        r@ == cache_key(hash@, example_id@),
{
    let mut k = String::new();
    push_str(&mut k, hash);
    k.push('\0');
    push_str(&mut k, example_id);
    k
}

/// A stored evaluation of one example: its score (a score code), output
/// and per-objective scores.
#[derive(Debug)]
pub struct CachedEval<O> {
    pub score: i64,
    pub output: O,
    pub objective_scores: Option<TextMap<i64>>,
}

/// The result of evaluating a candidate on a batch of examples, aligned
/// with the batch. Scores are score codes.
#[derive(Debug)]
pub struct EvaluationBatch<O> {
    pub scores: Vec<i64>,
    pub outputs: Vec<O>,
    pub trajectories: Option<Vec<O>>,
    pub objective_scores: Option<Vec<TextMap<i64>>>,
    /// How many metric (evaluation) calls the batch consumed.
    pub num_metric_calls: u32,
}

/// An exact-match cache of (candidate, example) evaluations.
#[derive(Debug)]
pub struct EvaluationCache<O> {
    entries: TextMap<CachedEval<O>>,
    hits: u32,
    misses: u32,
}

impl<O: Clone + Default> EvaluationCache<O> {
    /// The stored evaluations by key.
    pub closed spec fn stored(&self) -> Map<Seq<char>, CachedEval<O>> {
        self.entries@
    }

    /// The number of stored evaluations.
    pub closed spec fn size(&self) -> nat {
        self.entries.keys().len()
    }

    /// How many lookups were served from the cache.
    pub closed spec fn hit_count(&self) -> u32 {
        self.hits
    }

    /// How many lookups needed a fresh evaluation.
    pub closed spec fn miss_count(&self) -> u32 {
        self.misses
    }

    /// An empty cache.
    pub fn new() -> (r: Self)
        ensures
            r.stored() == Map::<Seq<char>, CachedEval<O>>::empty(),
            r.size() == 0,
            r.hit_count() == 0,
            r.miss_count() == 0,
    {
        EvaluationCache { entries: TextMap::new(), hits: 0, misses: 0 }
    }

    /// The number of stored evaluations.
    pub fn len(&self) -> (r: usize)
        ensures
            r == self.size(),
    {
        self.entries.len()
    }

    /// Whether nothing is stored.
    pub fn is_empty(&self) -> (r: bool)
        ensures
            r == (self.size() == 0),
    {
        self.entries.len() == 0
    }

    /// How many lookups were served from the cache.
    pub fn hits(&self) -> (r: u32)
        ensures
            r == self.hit_count(),
    {
        self.hits
    }

    /// How many lookups needed a fresh evaluation.
    pub fn misses(&self) -> (r: u32)
        ensures
            r == self.miss_count(),
    {
        self.misses
    }
}


/// The cache keys of the examples `ids` for the candidate with hash `hash`.
pub open spec fn example_keys(hash: Seq<char>, ids: Seq<Seq<char>>) -> Seq<Seq<char>> {
    Seq::new(ids.len(), |i: int| cache_key(hash, ids[i]))
}

/// The positions of the keys of `keys` that `present` lacks, in order.
pub open spec fn miss_positions(present: Set<Seq<char>>, keys: Seq<Seq<char>>) -> Seq<usize>
    decreases keys.len(),
{
    if keys.len() == 0 {
        Seq::empty()
    } else {
        let rest = miss_positions(present, keys.drop_last());
        if present.contains(keys.last()) {
            rest
        } else {
            rest.push((keys.len() - 1) as usize)
        }
    }
}

/// The score the fresh batch gives its `k`-th example (0 when it gives none).
pub open spec fn fresh_score<O>(fresh: EvaluationBatch<O>, k: int) -> i64 {
    if 0 <= k < fresh.scores@.len() {
        fresh.scores@[k]
    } else {
        0
    }
}

/// The scores by key after storing the first `n` fresh scores of `fresh` for
/// the missed positions `ms` of `keys`, one after another.
pub open spec fn scores_after<O>(
    scores: Map<Seq<char>, i64>,
    keys: Seq<Seq<char>>,
    ms: Seq<usize>,
    fresh: EvaluationBatch<O>,
    n: int,
) -> Map<Seq<char>, i64>
    decreases n,
{
    if n <= 0 {
        scores
    } else {
        scores_after(scores, keys, ms, fresh, n - 1).insert(keys[ms[n - 1] as int], fresh_score(fresh, n - 1))
    }
}

/// The score of each stored evaluation by key.
pub open spec fn stored_scores<O>(m: Map<Seq<char>, CachedEval<O>>) -> Map<Seq<char>, i64> {
    m.map_values(|e: CachedEval<O>| e.score)
}

/// Whether `scores` gives each example whose key was stored the stored
/// score.
pub open spec fn hit_scores_ok(scores: Seq<i64>, old_scores: Map<Seq<char>, i64>, keys: Seq<Seq<char>>) -> bool {
    &&& scores.len() == keys.len()
    &&& forall|i: int| 0 <= i < keys.len() && old_scores.dom().contains(keys[i]) ==> #[trigger] scores[i] == old_scores[keys[i]]
}

/// Whether `outputs` gives each example whose key was stored a clone of the
/// stored output.
pub open spec fn hit_outputs_ok<O: Clone>(outputs: Seq<O>, stored: Map<Seq<char>, CachedEval<O>>, keys: Seq<Seq<char>>) -> bool {
    &&& outputs.len() == keys.len()
    &&& forall|i: int|
        0 <= i < keys.len() && stored.dom().contains(keys[i]) ==> cloned::<O>(stored[keys[i]].output, #[trigger] outputs[i])
}

/// Whether `outputs` gives the `k`-th missed example a clone of the `k`-th
/// fresh output (the default output when the fresh batch has none).
pub open spec fn miss_outputs_ok<O: Clone + Default>(outputs: Seq<O>, ms: Seq<usize>, fresh: EvaluationBatch<O>) -> bool {
    forall|k: int| 0 <= k < ms.len() ==> copy_or_default(fresh.outputs@, k, #[trigger] outputs[ms[k] as int])
}

/// Whether `scores` gives the `k`-th missed example the `k`-th fresh score.
pub open spec fn miss_scores_ok<O>(scores: Seq<i64>, ms: Seq<usize>, fresh: EvaluationBatch<O>) -> bool {
    forall|k: int| 0 <= k < ms.len() ==> #[trigger] scores[ms[k] as int] == fresh_score(fresh, k)
}

/// Missed positions are increasing positions of `keys` whose key `present`
/// lacks, and every such position is one.
pub proof fn lemma_miss_positions(present: Set<Seq<char>>, keys: Seq<Seq<char>>)
    requires
        keys.len() <= usize::MAX,
    ensures
        forall|a: int, b: int| 0 <= a < b < miss_positions(present, keys).len() ==> #[trigger] miss_positions(present, keys)[a]
            < #[trigger] miss_positions(present, keys)[b],
        forall|a: int| 0 <= a < miss_positions(present, keys).len() ==> (#[trigger] miss_positions(present, keys)[a]) < keys.len()
            && !present.contains(keys[miss_positions(present, keys)[a] as int]),
        forall|i: int| 0 <= i < keys.len() && !present.contains(#[trigger] keys[i]) ==> exists|a: int|
            0 <= a < miss_positions(present, keys).len() && miss_positions(present, keys)[a] == i,
        miss_positions(present, keys).len() <= keys.len(),
    decreases keys.len(),
{
    if keys.len() > 0 {
        let p = keys.drop_last();
        lemma_miss_positions(present, p);
        let mp = miss_positions(present, p);
        assert forall|i: int| 0 <= i < keys.len() && !present.contains(#[trigger] keys[i]) implies exists|a: int|
            0 <= a < miss_positions(present, keys).len() && miss_positions(present, keys)[a] == i by {
            if i < p.len() {
                assert(p[i] == keys[i]);
                let a = choose|a: int| 0 <= a < mp.len() && mp[a] == i;
                assert(miss_positions(present, keys)[a] == i);
            } else {
                assert(miss_positions(present, keys)[mp.len() as int] == i);
            }
        }
        assert forall|a: int| 0 <= a < miss_positions(present, keys).len() implies (#[trigger] miss_positions(present, keys)[a]) < keys.len()
            && !present.contains(keys[miss_positions(present, keys)[a] as int]) by {
            if a < mp.len() {
                assert(miss_positions(present, keys)[a] == mp[a]);
                assert(p[mp[a] as int] == keys[mp[a] as int]);
            }
        }
    }
}

impl<O: Clone + Default> EvaluationCache<O> {
    /// Looks up `key`, counting the hit or miss; a hit hands back a copy of
    /// the stored evaluation (its output a clone).
    fn get(&mut self, key: &str) -> (r: Option<CachedEval<O>>)
        requires
            old(self).hit_count() < u32::MAX,
            old(self).miss_count() < u32::MAX,
        ensures
            final(self).stored() == old(self).stored(),
            final(self).size() == old(self).size(),
            match r {
                Some(e) => old(self).stored().dom().contains(key@) && e.score == old(self).stored()[key@].score
                    && cloned::<O>(old(self).stored()[key@].output, e.output)
                    && objectives_of(Some(e)) == objectives_of(Some(old(self).stored()[key@]))
                    && final(self).hit_count() == old(self).hit_count() + 1 && final(self).miss_count()
                    == old(self).miss_count(),
                None => !old(self).stored().dom().contains(key@) && final(self).miss_count()
                    == old(self).miss_count() + 1 && final(self).hit_count() == old(self).hit_count(),
            },
    {
        let found = match self.entries.get(key) {
            Some(e) => {
                let objective_scores = e.objective_scores.deep_clone();
                proof {
                    if e.objective_scores is Some {
                        lemma_scores_view(objective_scores->0, e.objective_scores->0);
                    }
                }
                Some(CachedEval { score: e.score, output: e.output.clone(), objective_scores })
            },
            None => None,
        };
        if found.is_some() {
            self.hits = self.hits + 1;
        } else {
            self.misses = self.misses + 1;
        }
        found
    }

    /// Stores an evaluation under `key`.
    fn insert(&mut self, key: String, eval: CachedEval<O>)
        ensures
            final(self).stored() == old(self).stored().insert(key@, eval),
            final(self).hit_count() == old(self).hit_count(),
            final(self).miss_count() == old(self).miss_count(),
    {
        self.entries.insert(key, eval);
    }
}

/// Copies of a score map hold the same scores.
proof fn lemma_scores_view(a: TextMap<i64>, b: TextMap<i64>)
    requires
        a.deep_view() == b.deep_view(),
    ensures
        a@ == b@,
{
    assert(a.deep_view() =~= a@);
    assert(b.deep_view() =~= b@);
}

/// The per-objective scores the fresh batch gives its `k`-th example (none
/// when it gives none).
pub open spec fn fresh_objectives<O>(fresh: EvaluationBatch<O>, k: int) -> Map<Seq<char>, i64> {
    match fresh.objective_scores {
        Some(v) => if 0 <= k < v@.len() {
            v@[k]@
        } else {
            Map::empty()
        },
        None => Map::empty(),
    }
}

/// Whether the per-objective scores `objs` give each example whose key was
/// stored the stored ones.
pub open spec fn hit_objectives_ok<O>(
    objs: Option<Vec<TextMap<i64>>>,
    stored: Map<Seq<char>, CachedEval<O>>,
    keys: Seq<Seq<char>>,
) -> bool {
    objs matches Some(v) ==> v@.len() == keys.len() && forall|i: int|
        0 <= i < keys.len() && stored.dom().contains(keys[i]) ==> (#[trigger] v@[i])@ == objectives_of(
            Some(stored[keys[i]]),
        )
}

/// Whether the per-objective scores `objs` give the `k`-th missed example
/// the `k`-th fresh ones.
pub open spec fn miss_objectives_ok<O>(objs: Option<Vec<TextMap<i64>>>, ms: Seq<usize>, fresh: EvaluationBatch<O>) -> bool {
    objs matches Some(v) ==> forall|k: int| 0 <= k < ms.len() ==> (#[trigger] v@[ms[k] as int])@ == fresh_objectives(fresh, k)
}

/// Whether `e` is a stored evaluation with per-objective scores.
pub open spec fn has_objectives<O>(e: Option<CachedEval<O>>) -> bool {
    e matches Some(x) && x.objective_scores is Some
}

/// The per-objective scores a stored evaluation gives its position (none
/// where there is no evaluation or it has none).
pub open spec fn objectives_of<O>(e: Option<CachedEval<O>>) -> Map<Seq<char>, i64> {
    match e {
        Some(x) => match x.objective_scores {
            Some(m) => m@,
            None => Map::empty(),
        },
        None => Map::empty(),
    }
}

/// Whether `x` is the trajectory of position `i`: a clone of the `k`-th
/// fresh trajectory when `i` is the `k`-th missed position and there is one,
/// else the default value.
pub open spec fn trajectory_slot_ok<O: Clone + Default>(ft: Seq<O>, ms: Seq<usize>, i: int, x: O) -> bool {
    if exists|k: int| 0 <= k < ms.len() && k < ft.len() && #[trigger] ms[k] == i {
        cloned::<O>(ft[choose|k: int| 0 <= k < ms.len() && k < ft.len() && #[trigger] ms[k] == i], x)
    } else {
        call_ensures(O::default, (), x)
    }
}

/// A batch aligned with `cached`: each stored evaluation in its position
/// (0 and a default output where there is none), the per-objective scores
/// when any position has them (none where a position has none), and the
/// trajectories of `fresh_traces` put back at the missed positions
/// `miss_indices` when any was captured.
fn reassemble<O: Clone + Default>(
    cached: Vec<Option<CachedEval<O>>>,
    fresh_traces: Option<Vec<O>>,
    miss_indices: &Vec<usize>,
    num_metric_calls: u32,
) -> (r: EvaluationBatch<O>)
    requires
        forall|a: int, b: int| 0 <= a < b < miss_indices@.len() ==> miss_indices@[a] < miss_indices@[b],
        forall|a: int| 0 <= a < miss_indices@.len() ==> miss_indices@[a] < cached@.len(),
    ensures
        r.num_metric_calls == num_metric_calls,
        r.scores@.len() == cached@.len(),
        r.outputs@.len() == cached@.len(),
        forall|i: int| 0 <= i < cached@.len() ==> #[trigger] r.scores@[i] == match cached@[i] {
            Some(e) => e.score,
            None => 0i64,
        },
        forall|i: int| 0 <= i < cached@.len() && (#[trigger] cached@[i]) is Some ==> r.outputs@[i] == cached@[i]->0.output,
        r.objective_scores is Some <==> exists|i: int| 0 <= i < cached@.len() && has_objectives(#[trigger] cached@[i]),
        r.objective_scores matches Some(v) ==> v@.len() == cached@.len() && forall|i: int|
            0 <= i < cached@.len() ==> (#[trigger] v@[i])@ == objectives_of(cached@[i]),
        fresh_traces is None ==> r.trajectories is None,
        fresh_traces matches Some(ft) ==> (r.trajectories is Some <==> (miss_indices@.len() > 0 && ft@.len() > 0)),
        r.trajectories matches Some(t) ==> t@.len() == cached@.len() && (fresh_traces matches Some(ft) && forall|i: int|
            0 <= i < cached@.len() ==> trajectory_slot_ok(ft@, miss_indices@, i, #[trigger] t@[i])),
{
    let n = cached.len();
    let ghost cv = cached@;
    let mut scores: Vec<i64> = Vec::new();
    let mut outputs: Vec<O> = Vec::new();
    let mut objectives: Vec<Option<TextMap<i64>>> = Vec::new();
    let mut any_objective = false;
    let mut rest = cached;
    let mut pending: Vec<Option<CachedEval<O>>> = Vec::new();
    while rest.len() > 0
        invariant
            rest@.len() + pending@.len() == cv.len(),
            forall|q: int| 0 <= q < rest@.len() ==> #[trigger] rest@[q] == cv[q],
            forall|q: int| 0 <= q < pending@.len() ==> #[trigger] pending@[q] == cv[cv.len() - 1 - q],
        decreases rest@.len(),
    {
        let x = rest.pop().unwrap();
        pending.push(x);
    }
    let mut i: usize = 0;
    while pending.len() > 0
        invariant
            i + pending@.len() == cv.len(),
            cv.len() == n,
            forall|q: int| 0 <= q < pending@.len() ==> #[trigger] pending@[q] == cv[cv.len() - 1 - q],
            scores@.len() == i,
            outputs@.len() == i,
            objectives@.len() == i,
            forall|q: int| 0 <= q < i ==> #[trigger] scores@[q] == match cv[q] {
                Some(e) => e.score,
                None => 0i64,
            },
            forall|q: int| 0 <= q < i && (#[trigger] cv[q]) is Some ==> outputs@[q] == cv[q]->0.output,
            forall|q: int| 0 <= q < i ==> (#[trigger] objectives@[q]) == match cv[q] {
                Some(e) => e.objective_scores,
                None => None,
            },
            any_objective == exists|q: int| 0 <= q < i && has_objectives(#[trigger] cv[q]),
        decreases pending@.len(),
    {
        let entry = pending.pop().unwrap();
        assert(entry == cv[i as int]);
        match entry {
            Some(e) => {
                scores.push(e.score);
                outputs.push(e.output);
                if e.objective_scores.is_some() {
                    any_objective = true;
                }
                objectives.push(e.objective_scores);
            },
            None => {
                scores.push(0);
                outputs.push(O::default());
                objectives.push(None);
            },
        }
        i = i + 1;
    }
    let trajectories: Option<Vec<O>> = match fresh_traces {
        None => None,
        Some(ft) => {
            if miss_indices.len() == 0 || ft.len() == 0 {
                None
            } else {
                let ghost ms = miss_indices@;
                let mut out: Vec<O> = Vec::new();
                let mut k: usize = 0;
                let mut q: usize = 0;
                while q < n
                    invariant
                        q <= n,
                        n == cv.len(),
                        ms == miss_indices@,
                        k <= ms.len(),
                        out@.len() == q,
                        forall|a: int, b: int| 0 <= a < b < ms.len() ==> ms[a] < ms[b],
                        forall|a: int| 0 <= a < ms.len() ==> ms[a] < n,
                        forall|a: int| 0 <= a < k ==> #[trigger] ms[a] < q,
                        forall|a: int| k <= a < ms.len() ==> #[trigger] ms[a] >= q,
                        forall|p: int| 0 <= p < q ==> trajectory_slot_ok(ft@, ms, p, #[trigger] out@[p]),
                    decreases n - q,
                {
                    if k < miss_indices.len() && miss_indices[k] == q {
                        let x = if k < ft.len() {
                            ft[k].clone()
                        } else {
                            O::default()
                        };
                        proof {
                            assert forall|a: int| 0 <= a < ms.len() && #[trigger] ms[a] == q implies a == k by {
                                if a < k {
                                } else if a > k {
                                    assert(ms[k as int] < ms[a]);
                                }
                            }
                            if k < ft.len() {
                                assert(ms[k as int] == q);
                            }
                        }
                        out.push(x);
                        k = k + 1;
                    } else {
                        proof {
                            assert forall|a: int| 0 <= a < ms.len() implies #[trigger] ms[a] != q by {
                                if a >= k && a > k {
                                    assert(ms[k as int] < ms[a]);
                                }
                            }
                        }
                        out.push(O::default());
                    }
                    q = q + 1;
                }
                proof {
                    assert(ms[0] < n);
                    assert(ms[0] >= 0);
                }
                Some(out)
            }
        },
    };
    let objective_scores = if any_objective {
        let mut out: Vec<TextMap<i64>> = Vec::new();
        let mut rest = objectives;
        let mut pending: Vec<TextMap<i64>> = Vec::new();
        while rest.len() > 0
            invariant
                rest@.len() + pending@.len() == n,
                n == cv.len(),
                forall|q: int| 0 <= q < rest@.len() ==> (#[trigger] rest@[q]) == match cv[q] {
                    Some(e) => e.objective_scores,
                    None => None,
                },
                forall|q: int| 0 <= q < pending@.len() ==> (#[trigger] pending@[q])@ == objectives_of(cv[n - 1 - q]),
            decreases rest@.len(),
        {
            let ghost at = rest@.len() - 1;
            match rest.pop().unwrap() {
                Some(m) => pending.push(m),
                None => {
                    let empty: TextMap<i64> = TextMap::new();
                    pending.push(empty);
                },
            }
            assert(n - 1 - (pending@.len() - 1) == at);
        }
        while pending.len() > 0
            invariant
                out@.len() + pending@.len() == n,
                n == cv.len(),
                forall|q: int| 0 <= q < pending@.len() ==> (#[trigger] pending@[q])@ == objectives_of(cv[n - 1 - q]),
                forall|q: int| 0 <= q < out@.len() ==> (#[trigger] out@[q])@ == objectives_of(cv[q]),
            decreases pending@.len(),
        {
            out.push(pending.pop().unwrap());
        }
        Some(out)
    } else {
        None
    };
    EvaluationBatch { scores, outputs, trajectories, objective_scores, num_metric_calls }
}

/// Evaluates `candidate` on the examples `example_ids`, serving each stored
/// (candidate, example) evaluation from `cache` and asking
/// `evaluate_misses` (with the missed positions) only for the rest, which
/// are then stored. The batch is aligned with `example_ids`; its metric
/// calls are the misses alone. Every lookup is counted as a hit or a miss.
/// What the evaluator returns is not known here: for whatever it returned,
/// its error is passed on, or its scores, outputs and per-objective scores
/// fill the missed positions; its trajectories, when it gave any, are put at
/// the missed positions (default values elsewhere).
pub fn cached_evaluate<O: Clone + Default, F: Fn(&Vec<usize>) -> Result<EvaluationBatch<O>, String>>(
    cache: &mut EvaluationCache<O>,
    example_ids: &Vec<String>,
    candidate: &Candidate,
    evaluate_misses: &F,
) -> (r: Result<EvaluationBatch<O>, String>)
    requires
        old(cache).hit_count() + example_ids@.len() <= u32::MAX,
        old(cache).miss_count() + example_ids@.len() <= u32::MAX,
        forall|v: &Vec<usize>| evaluate_misses.requires((v,)),
    ensures
        ({
            let ks = example_keys(candidate_hash_spec(*candidate), example_ids.deep_view());
            let ms = miss_positions(old(cache).stored().dom(), ks);
            let old_scores = stored_scores(old(cache).stored());
            &&& final(cache).hit_count() == old(cache).hit_count() + ks.len() - ms.len()
            &&& final(cache).miss_count() == old(cache).miss_count() + ms.len()
            &&& ms.len() == 0 ==> final(cache).stored() == old(cache).stored() && (r matches Ok(b) && b.num_metric_calls == 0
                && hit_scores_ok(b.scores@, old_scores, ks) && hit_outputs_ok(b.outputs@, old(cache).stored(), ks)
                && hit_objectives_ok(b.objective_scores, old(cache).stored(), ks) && b.trajectories is None)
            &&& ms.len() > 0 ==> exists|v: Vec<usize>, res: Result<EvaluationBatch<O>, String>|
                #![trigger evaluate_misses.ensures((&v,), res)]
                v@ == ms && evaluate_misses.ensures((&v,), res) && match res {
                    Err(e) => r == Err::<EvaluationBatch<O>, String>(e) && final(cache).stored() == old(cache).stored(),
                    Ok(fresh) => stored_scores(final(cache).stored()) == scores_after(
                        old_scores,
                        ks,
                        ms,
                        fresh,
                        ms.len() as int,
                    ) && (r matches Ok(b) && b.num_metric_calls == ms.len() && hit_scores_ok(b.scores@, old_scores, ks)
                        && miss_scores_ok(b.scores@, ms, fresh) && hit_outputs_ok(b.outputs@, old(cache).stored(), ks)
                        && miss_outputs_ok(b.outputs@, ms, fresh) && hit_objectives_ok(
                        b.objective_scores,
                        old(cache).stored(),
                        ks,
                    ) && miss_objectives_ok(b.objective_scores, ms, fresh) && (b.trajectories is Some <==> (
                    fresh.trajectories matches Some(ft) && ft@.len() > 0)) && (b.trajectories matches Some(t) ==> (
                    fresh.trajectories matches Some(ft) && forall|i: int|
                        0 <= i < ks.len() ==> trajectory_slot_ok(ft@, ms, i, #[trigger] t@[i])))),
                }
        }),
{
    let hash = candidate_hash(candidate);
    let ghost ks = example_keys(hash@, example_ids.deep_view());
    let ghost present = cache.stored().dom();
    let ghost old_scores = stored_scores(cache.stored());
    proof {
        lemma_miss_positions(present, ks);
    }
    let mut cached: Vec<Option<CachedEval<O>>> = Vec::new();
    let mut misses: Vec<usize> = Vec::new();
    let mut i: usize = 0;
    while i < example_ids.len()
        invariant
            i <= example_ids@.len(),
            ks == example_keys(hash@, example_ids.deep_view()),
            ks.len() == example_ids@.len(),
            cache.stored() == old(cache).stored(),
            present == old(cache).stored().dom(),
            old_scores == stored_scores(old(cache).stored()),
            misses@ == miss_positions(present, ks.take(i as int)),
            misses@.len() <= i,
            cache.hit_count() == old(cache).hit_count() + i - misses@.len(),
            cache.miss_count() == old(cache).miss_count() + misses@.len(),
            old(cache).hit_count() + example_ids@.len() <= u32::MAX,
            old(cache).miss_count() + example_ids@.len() <= u32::MAX,
            cached@.len() == i,
            forall|q: int| 0 <= q < i ==> ((#[trigger] cached@[q]) is Some <==> present.contains(ks[q])),
            forall|q: int| 0 <= q < i && (#[trigger] cached@[q]) is Some ==> cached@[q]->0.score == old_scores[ks[q]],
            forall|q: int|
                0 <= q < i && (#[trigger] cached@[q]) is Some ==> cloned::<O>(
                    old(cache).stored()[ks[q]].output,
                    cached@[q]->0.output,
                ) && objectives_of(cached@[q]) == objectives_of(Some(old(cache).stored()[ks[q]])),
        decreases example_ids@.len() - i,
    {
        let key = key_of(hash.as_str(), example_ids[i].as_str());
        assert(key@ == ks[i as int]);
        assert(ks.take(i + 1).drop_last() =~= ks.take(i as int));
        let e = cache.get(key.as_str());
        proof {
            if e.is_some() {
                assert(old_scores[ks[i as int]] == old(cache).stored()[ks[i as int]].score);
            }
        }
        if e.is_none() {
            misses.push(i);
        }
        cached.push(e);
        i = i + 1;
    }
    assert(ks.take(ks.len() as int) =~= ks);
    let calls = misses.len() as u32;
    if misses.len() == 0 {
        let b = reassemble(cached, None, &misses, calls);
        proof {
            assert forall|q: int| 0 <= q < ks.len() && old_scores.dom().contains(ks[q]) implies #[trigger] b.scores@[q]
                == old_scores[ks[q]] by {
                assert(cached@[q] is Some);
            }
            assert forall|q: int| 0 <= q < ks.len() && old(cache).stored().dom().contains(ks[q]) implies cloned::<O>(
                old(cache).stored()[ks[q]].output,
                #[trigger] b.outputs@[q],
            ) by {
                assert(cached@[q] is Some);
            }
            if b.objective_scores is Some {
                let v = b.objective_scores->0;
                assert forall|q: int| 0 <= q < ks.len() && old(cache).stored().dom().contains(ks[q]) implies (
                #[trigger] v@[q])@ == objectives_of(Some(old(cache).stored()[ks[q]])) by {
                    assert(cached@[q] is Some);
                }
            }
        }
        return Ok(b);
    }
    let ghost mv = misses@;
    let res = evaluate_misses(&misses);
    let ghost res_g = res;
    let fresh = match res {
        Ok(f) => f,
        Err(e) => {
            return Err(e);
        },
    };
    let mut k: usize = 0;
    while k < misses.len()
        invariant
            k <= mv.len(),
            misses@ == mv,
            mv == miss_positions(present, ks),
            ks == example_keys(hash@, example_ids.deep_view()),
            ks.len() == example_ids@.len(),
            cached@.len() == ks.len(),
            forall|a: int, b: int| 0 <= a < b < mv.len() ==> #[trigger] mv[a] < #[trigger] mv[b],
            forall|a: int| 0 <= a < mv.len() ==> (#[trigger] mv[a]) < ks.len() && !present.contains(ks[mv[a] as int]),
            forall|q: int| 0 <= q < ks.len() && !present.contains(#[trigger] ks[q]) ==> exists|a: int| 0 <= a < mv.len() && mv[a] == q,
            forall|q: int| 0 <= q < ks.len() && present.contains(ks[q]) ==> (#[trigger] cached@[q]) is Some && cached@[q]->0.score == old_scores[ks[q]],
            forall|a: int| 0 <= a < k ==> (#[trigger] cached@[mv[a] as int]) is Some && cached@[mv[a] as int]->0.score == fresh_score(fresh, a)
                && copy_or_default(fresh.outputs@, a, cached@[mv[a] as int]->0.output) && objectives_of(
                cached@[mv[a] as int],
            ) == fresh_objectives(fresh, a),
            forall|q: int|
                0 <= q < ks.len() && present.contains(ks[q]) ==> cloned::<O>(
                    old(cache).stored()[ks[q]].output,
                    (#[trigger] cached@[q])->0.output,
                ) && objectives_of(cached@[q]) == objectives_of(Some(old(cache).stored()[ks[q]])),
            stored_scores(cache.stored()) == scores_after(old_scores, ks, mv, fresh, k as int),
            cache.hit_count() == old(cache).hit_count() + ks.len() - mv.len(),
            cache.miss_count() == old(cache).miss_count() + mv.len(),
            present == old(cache).stored().dom(),
            old_scores == stored_scores(old(cache).stored()),
        decreases mv.len() - k,
    {
        let pos = misses[k];
        let score: i64 = if k < fresh.scores.len() {
            fresh.scores[k]
        } else {
            0
        };
        let output: O = if k < fresh.outputs.len() {
            fresh.outputs[k].clone()
        } else {
            O::default()
        };
        let objective: Option<TextMap<i64>> = match &fresh.objective_scores {
            Some(v) => if k < v.len() {
                let m = v[k].deep_clone();
                proof {
                    lemma_scores_view(m, v@[k as int]);
                }
                Some(m)
            } else {
                None
            },
            None => None,
        };
        let key = key_of(hash.as_str(), example_ids[pos].as_str());
        assert(key@ == ks[pos as int]);
        let ghost before = stored_scores(cache.stored());
        let stored = CachedEval { score, output: output.clone(), objective_scores: objective.deep_clone() };
        cache.insert(key, stored);
        assert(stored_scores(cache.stored()) =~= before.insert(ks[pos as int], score));
        cached.set(pos, Some(CachedEval { score, output, objective_scores: objective }));
        proof {
            assert forall|a: int| 0 <= a < k + 1 implies (#[trigger] cached@[mv[a] as int]) is Some && cached@[mv[a] as int]->0.score
                == fresh_score(fresh, a) && copy_or_default(fresh.outputs@, a, cached@[mv[a] as int]->0.output)
                && objectives_of(cached@[mv[a] as int]) == fresh_objectives(fresh, a) by {
                if a < k {
                    assert(mv[a] < mv[k as int]);
                }
            }
            assert forall|q: int| 0 <= q < ks.len() && present.contains(ks[q]) implies (#[trigger] cached@[q]) is Some
                && cached@[q]->0.score == old_scores[ks[q]] by {
                assert(q != pos);
            }
        }
        k = k + 1;
    }
    let b = reassemble(cached, fresh.trajectories, &misses, calls);
    proof {
        assert forall|q: int| 0 <= q < ks.len() && old_scores.dom().contains(ks[q]) implies #[trigger] b.scores@[q]
            == old_scores[ks[q]] by {}
        assert forall|a: int| 0 <= a < mv.len() implies #[trigger] b.scores@[mv[a] as int] == fresh_score(fresh, a) by {}
        assert forall|a: int| 0 <= a < mv.len() implies copy_or_default(fresh.outputs@, a, #[trigger] b.outputs@[mv[a] as int]) by {
            assert(cached@[mv[a] as int] is Some);
        }
        assert forall|q: int| 0 <= q < ks.len() && old(cache).stored().dom().contains(ks[q]) implies cloned::<O>(
            old(cache).stored()[ks[q]].output,
            #[trigger] b.outputs@[q],
        ) by {
            assert(cached@[q] is Some);
        }
        if b.objective_scores is Some {
            let v = b.objective_scores->0;
            assert forall|q: int| 0 <= q < ks.len() && old(cache).stored().dom().contains(ks[q]) implies (
            #[trigger] v@[q])@ == objectives_of(Some(old(cache).stored()[ks[q]])) by {
                assert(cached@[q] is Some);
            }
            assert forall|a: int| 0 <= a < mv.len() implies (#[trigger] v@[mv[a] as int])@ == fresh_objectives(fresh, a) by {
                assert(cached@[mv[a] as int] is Some);
            }
        }
        assert(evaluate_misses.ensures((&misses,), res_g));
    }
    Ok(b)
}

/// With every key present, nothing is missed.
proof fn lemma_no_misses(present: Set<Seq<char>>, keys: Seq<Seq<char>>)
    requires
        forall|i: int| 0 <= i < keys.len() ==> present.contains(#[trigger] keys[i]),
    ensures
        miss_positions(present, keys).len() == 0,
    decreases keys.len(),
{
    if keys.len() > 0 {
        let p = keys.drop_last();
        assert forall|i: int| 0 <= i < p.len() implies present.contains(#[trigger] p[i]) by {
            assert(p[i] == keys[i]);
        }
        lemma_no_misses(present, p);
        assert(present.contains(keys[keys.len() - 1]));
    }
}

/// Storing the fresh scores for the missed positions adds exactly their
/// keys.
proof fn lemma_scores_after_keys<O>(
    scores: Map<Seq<char>, i64>,
    keys: Seq<Seq<char>>,
    ms: Seq<usize>,
    fresh: EvaluationBatch<O>,
    n: int,
)
    requires
        0 <= n <= ms.len(),
    ensures
        forall|j: int| 0 <= j < n ==> scores_after(scores, keys, ms, fresh, n).dom().contains(#[trigger] keys[ms[j] as int]),
        forall|k: Seq<char>| scores.dom().contains(k) ==> #[trigger] scores_after(scores, keys, ms, fresh, n).dom().contains(k),
    decreases n,
{
    if n > 0 {
        lemma_scores_after_keys(scores, keys, ms, fresh, n - 1);
        assert forall|k: Seq<char>| scores.dom().contains(k) implies #[trigger] scores_after(
            scores,
            keys,
            ms,
            fresh,
            n,
        ).dom().contains(k) by {
            assert(scores_after(scores, keys, ms, fresh, n - 1).dom().contains(k));
        }
    }
}

/// A repeated evaluation is served from the cache: once an evaluation of
/// the examples with keys `ks` has stored the fresh scores of its misses,
/// looking the same keys up again misses none of them.
pub proof fn lemma_repeat_is_all_hits<O>(
    before: Map<Seq<char>, CachedEval<O>>,
    after: Map<Seq<char>, CachedEval<O>>,
    ks: Seq<Seq<char>>,
    fresh: EvaluationBatch<O>,
)
    requires
        ks.len() <= usize::MAX,
        stored_scores(after) == scores_after(
            stored_scores(before),
            ks,
            miss_positions(before.dom(), ks),
            fresh,
            miss_positions(before.dom(), ks).len() as int,
        ),
    ensures
        miss_positions(after.dom(), ks).len() == 0,
{
    let ms = miss_positions(before.dom(), ks);
    lemma_miss_positions(before.dom(), ks);
    lemma_scores_after_keys(stored_scores(before), ks, ms, fresh, ms.len() as int);
    assert(stored_scores(before).dom() == before.dom());
    assert(stored_scores(after).dom() == after.dom());
    assert forall|i: int| 0 <= i < ks.len() implies after.dom().contains(#[trigger] ks[i]) by {
        if !before.dom().contains(ks[i]) {
            let a = choose|a: int| 0 <= a < ms.len() && ms[a] == i;
            assert(scores_after(stored_scores(before), ks, ms, fresh, ms.len() as int).dom().contains(ks[ms[a] as int]));
        } else {
            assert(stored_scores(before).dom().contains(ks[i]));
        }
    }
    lemma_no_misses(after.dom(), ks);
}


/// The hash of a candidate depends on its contents alone, not on the order
/// its components were added in: candidates with the same component texts
/// hash alike.
pub proof fn lemma_candidate_hash_by_contents(a: Candidate, b: Candidate)
    requires
        sorted_strict(a.keys()),
        sorted_strict(b.keys()),
        a@ == b@,
    ensures
        candidate_hash_spec(a) == candidate_hash_spec(b),
{
    TextMap::lemma_same_view_same_keys(&a, &b);
    lemma_message_by_contents(a, b, a.keys().len() as int);
}

/// Candidates with the same keys in the same order and the same contents
/// have the same message.
proof fn lemma_message_by_contents(a: Candidate, b: Candidate, n: int)
    requires
        a.keys() == b.keys(),
        a@ == b@,
        n <= a.keys().len(),
    ensures
        candidate_message(a, n) == candidate_message(b, n),
    decreases n,
{
    if n > 0 {
        lemma_message_by_contents(a, b, n - 1);
    }
}

} // verus!
