//! The Pareto frontier over the evaluated pool.
//!
//! For each frontier key (a validation example, an objective, or an
//! (example, objective) pair) the frontier keeps every node whose oriented
//! score on that key is the best in the pool, ties included. A node that wins
//! even one key stays on the frontier, whatever its aggregate score.

use vstd::prelude::*;

use crate::graph::{refs_are, ExperimentNode};
use crate::keyed::DeepClone;
use crate::outcome::{better, direction_or_primary, directional, is_nan_code, Metric, MetricDirection, Objectives};
use crate::text::{seq_lt, sorted_strict, str_eq};
use crate::textmap::TextMap;

verus! {

/// One step of a best-score scan: entry (`k`, `id`, `d`) takes over key `k`
/// when `d` beats the best so far, joins its winners on a tie, and starts the
/// key when it is new. As floating-point comparisons go, a NaN neither beats
/// nor ties anything.
pub open spec fn best_step<K>(
    m: Map<K, (int, Seq<Seq<char>>)>,
    k: K,
    id: Seq<char>,
    d: int,
) -> Map<K, (int, Seq<Seq<char>>)> {
    if m.dom().contains(k) {
        if is_nan_code(d) || is_nan_code(m[k].0) {
            m
        } else if d > m[k].0 {
            m.insert(k, (d, seq![id]))
        } else if d == m[k].0 {
            m.insert(k, (d, m[k].1.push(id)))
        } else {
            m
        }
    } else {
        m.insert(k, (d, seq![id]))
    }
}

/// The best score and its winners for every key of the entries `e`
/// (key, node id, oriented score), scanned in order.
pub open spec fn best_fold<K>(e: Seq<(K, Seq<char>, int)>) -> Map<K, (int, Seq<Seq<char>>)>
    decreases e.len(),
{
    if e.len() == 0 {
        Map::empty()
    } else {
        let l = e.last();
        best_step(best_fold(e.drop_last()), l.0, l.1, l.2)
    }
}

/// Whether some entry of `e` has key `k`.
pub open spec fn has_entry<K>(e: Seq<(K, Seq<char>, int)>, k: K) -> bool {
    exists|i: int| 0 <= i < e.len() && #[trigger] e[i].0 == k
}

/// The ids of the entries of `e` with key `k` and score `b`, in order.
pub open spec fn achievers<K>(e: Seq<(K, Seq<char>, int)>, k: K, b: int) -> Seq<Seq<char>>
    decreases e.len(),
{
    if e.len() == 0 {
        Seq::empty()
    } else {
        let rest = achievers(e.drop_last(), k, b);
        if e.last().0 == k && e.last().2 == b {
            rest.push(e.last().1)
        } else {
            rest
        }
    }
}

proof fn lemma_achievers_none<K>(e: Seq<(K, Seq<char>, int)>, k: K, b: int)
    requires
        forall|i: int| 0 <= i < e.len() && e[i].0 == k ==> #[trigger] e[i].2 < b,
    ensures
        achievers(e, k, b) == Seq::<Seq<char>>::empty(),
    decreases e.len(),
{
    if e.len() > 0 {
        let p = e.drop_last();
        assert forall|i: int| 0 <= i < p.len() && p[i].0 == k implies #[trigger] p[i].2 < b by {
            assert(p[i] == e[i]);
        }
        lemma_achievers_none(p, k, b);
        if e.last().0 == k {
            assert(e[e.len() - 1].2 < b);
        }
    }
}

/// Whether no entry of `e` has a NaN score.
pub open spec fn no_nan<K>(e: Seq<(K, Seq<char>, int)>) -> bool {
    forall|i: int| 0 <= i < e.len() ==> !is_nan_code(#[trigger] e[i].2)
}

/// The scan holds exactly the keys of the entries; where no score is NaN,
/// it finds, for every key, the best score among the entries with that key
/// and exactly the ids (in order) of the entries that reach it.
pub proof fn lemma_best_fold<K>(e: Seq<(K, Seq<char>, int)>, k: K)
    ensures
        best_fold(e).dom().contains(k) <==> has_entry(e, k),
        has_entry(e, k) && no_nan(e) ==> ({
            let b = best_fold(e)[k].0;
            &&& exists|i: int| 0 <= i < e.len() && #[trigger] e[i].0 == k && e[i].2 == b
            &&& forall|i: int| 0 <= i < e.len() && #[trigger] e[i].0 == k ==> e[i].2 <= b
            &&& best_fold(e)[k].1 == achievers(e, k, b)
        }),
    decreases e.len(),
{
    if e.len() > 0 {
        let p = e.drop_last();
        let l = e.last();
        lemma_best_fold(p, k);
        assert forall|i: int| 0 <= i < p.len() implies #[trigger] p[i] == e[i] by {}
        if no_nan(e) {
            assert forall|i: int| 0 <= i < p.len() implies !is_nan_code(#[trigger] p[i].2) by {
                assert(p[i] == e[i]);
            }
            assert(!is_nan_code(e[e.len() - 1].2));
        }
        if has_entry(p, k) {
            let i0 = choose|i: int| 0 <= i < p.len() && #[trigger] p[i].0 == k;
            assert(e[i0].0 == k);
        }
        if l.0 == k {
            assert(e[e.len() - 1].0 == k);
            if !has_entry(p, k) {
                assert forall|i: int| 0 <= i < p.len() && p[i].0 == k implies #[trigger] p[i].2
                    < l.2 by {
                    assert(has_entry(p, k));
                }
                lemma_achievers_none(p, k, l.2);
                assert forall|i: int| 0 <= i < e.len() && #[trigger] e[i].0 == k implies e[i].2
                    <= l.2 by {
                    if i < p.len() {
                        assert(p[i].0 == k);
                        assert(has_entry(p, k));
                    }
                }
                assert(seq![l.1] =~= Seq::<Seq<char>>::empty().push(l.1));
            } else if no_nan(e) {
                let b = best_fold(p)[k].0;
                if l.2 > b {
                    assert forall|i: int| 0 <= i < p.len() && p[i].0 == k implies #[trigger] p[i].2
                        < l.2 by {}
                    lemma_achievers_none(p, k, l.2);
                    assert(seq![l.1] =~= Seq::<Seq<char>>::empty().push(l.1));
                    assert forall|i: int| 0 <= i < e.len() && #[trigger] e[i].0 == k implies e[i].2
                        <= l.2 by {
                        if i < p.len() {
                            assert(p[i].0 == k);
                        }
                    }
                } else {
                    assert forall|i: int| 0 <= i < e.len() && #[trigger] e[i].0 == k implies e[i].2
                        <= b by {
                        if i < p.len() {
                            assert(p[i].0 == k);
                        }
                    }
                    let w = choose|i: int| 0 <= i < p.len() && #[trigger] p[i].0 == k && p[i].2 == b;
                    assert(e[w].0 == k && e[w].2 == b);
                }
            }
        } else {
            if has_entry(p, k) && no_nan(e) {
                let b = best_fold(p)[k].0;
                let w = choose|i: int| 0 <= i < p.len() && #[trigger] p[i].0 == k && p[i].2 == b;
                assert(e[w].0 == k && e[w].2 == b);
                assert forall|i: int| 0 <= i < e.len() && #[trigger] e[i].0 == k implies e[i].2
                    <= b by {
                    if i < p.len() {
                        assert(p[i].0 == k);
                    }
                }
            }
            if has_entry(e, k) {
                let i0 = choose|i: int| 0 <= i < e.len() && #[trigger] e[i].0 == k;
                assert(i0 < p.len());
                assert(p[i0].0 == k);
            }
        }
    }
}

/// The best-score scan state held in a map: key -> (best oriented score,
/// winners so far).
pub open spec fn best_view(t: TextMap<(i128, Vec<String>)>) -> Map<Seq<char>, (int, Seq<Seq<char>>)> {
    t@.map_values(|v: (i128, Vec<String>)| (v.0 as int, v.1.deep_view()))
}

/// Applies one step of the best-score scan to `best`.
pub(crate) fn best_record(best: &mut TextMap<(i128, Vec<String>)>, key: &str, id: &str, d: i128)
    ensures
        best_view(*final(best)) == best_step(best_view(*old(best)), key@, id@, d as int),
{
    let ghost m = best_view(*old(best));
    match best.remove(key) {
        Some((b, mut winners)) => {
            if d > 0x7ff0_0000_0000_0000i128 || d < -0x7ff0_0000_0000_0000i128 || b > 0x7ff0_0000_0000_0000i128
                || b < -0x7ff0_0000_0000_0000i128 {
                best.insert(key.to_owned(), (b, winners));
            } else if d > b {
                let mut w: Vec<String> = Vec::new();
                w.push(id.to_owned());
                assert(w.deep_view() =~= seq![id@]);
                best.insert(key.to_owned(), (d, w));
            } else if d == b {
                let ghost before = winners.deep_view();
                winners.push(id.to_owned());
                assert(winners.deep_view() =~= before.push(id@));
                best.insert(key.to_owned(), (b, winners));
            } else {
                best.insert(key.to_owned(), (b, winners));
            }
        },
        None => {
            let mut w: Vec<String> = Vec::new();
            w.push(id.to_owned());
            assert(w.deep_view() =~= seq![id@]);
            best.insert(key.to_owned(), (d, w));
        },
    }
    assert(best_view(*best) =~= best_step(m, key@, id@, d as int));
}


/// The nodes that the references of `pool` point at.
pub open spec fn derefs(pool: Seq<&ExperimentNode>) -> Seq<ExperimentNode> {
    Seq::new(pool.len(), |i: int| *pool[i])
}

/// The oriented score entries of node `n` for the instance scan (its
/// per-example subscores, under the primary direction) or the objective scan
/// (its per-objective scores, each under its objective's direction), in key
/// order.
pub open spec fn node_entries(n: ExperimentNode, objective: bool, metrics: Seq<Metric>) -> Seq<
    (Seq<char>, Seq<char>, int),
> {
    match n.outcome {
        None => Seq::empty(),
        Some(o) => {
            let t = if objective {
                o.objective_scores
            } else {
                o.val_subscores
            };
            Seq::new(
                t.keys().len(),
                |j: int|
                    (
                        t.keys()[j],
                        n.id@,
                        directional(
                            if objective {
                                direction_or_primary(metrics, t.keys()[j])
                            } else {
                                metrics[0].direction
                            },
                            t@[t.keys()[j]] as int,
                        ),
                    ),
            )
        },
    }
}

/// The entries of the nodes of `pool`, node after node.
pub open spec fn pool_entries(pool: Seq<ExperimentNode>, objective: bool, metrics: Seq<Metric>) -> Seq<
    (Seq<char>, Seq<char>, int),
>
    decreases pool.len(),
{
    if pool.len() == 0 {
        Seq::empty()
    } else {
        pool_entries(pool.drop_last(), objective, metrics) + node_entries(
            pool.last(),
            objective,
            metrics,
        )
    }
}

proof fn lemma_pool_entries_hold(pool: Seq<ExperimentNode>, objective: bool, metrics: Seq<Metric>, i: int)
    requires
        0 <= i < pool.len(),
    ensures
        pool_entries(pool, objective, metrics).len() >= node_entries(pool[i], objective, metrics).len(),
    decreases pool.len(),
{
    if i < pool.len() - 1 {
        lemma_pool_entries_hold(pool.drop_last(), objective, metrics, i);
    }
}

/// The best-score scan over the instance (or objective) entries of `pool`.
fn scan_scores(pool: &[&ExperimentNode], objective: bool, objectives: &Objectives) -> (r: TextMap<
    (i128, Vec<String>),
>)
    requires
        objectives.metrics@.len() > 0 || pool_entries(derefs(pool@), objective, objectives.metrics@).len()
            == 0,
    ensures
        best_view(r) == best_fold(pool_entries(derefs(pool@), objective, objectives.metrics@)),
{
    let ghost ps = derefs(pool@);
    let ghost ms = objectives.metrics@;
    let mut best: TextMap<(i128, Vec<String>)> = TextMap::new();
    assert(best_view(best) =~= best_fold(pool_entries(ps.take(0), objective, ms)));
    let mut i: usize = 0;
    while i < pool.len()
        invariant
            i <= pool@.len(),
            ps == derefs(pool@),
            ms == objectives.metrics@,
            ms.len() > 0 || pool_entries(ps, objective, ms).len() == 0,
            best_view(best) == best_fold(pool_entries(ps.take(i as int), objective, ms)),
        decreases pool@.len() - i,
    {
        let node = pool[i];
        assert(ps.take(i + 1).drop_last() =~= ps.take(i as int));
        assert(ps.take(i + 1).last() == *node);
        let ghost before = pool_entries(ps.take(i as int), objective, ms);
        let ghost ne = node_entries(*node, objective, ms);
        proof {
            lemma_pool_entries_hold(ps, objective, ms, i as int);
        }
        match &node.outcome {
            None => {
                assert(before + ne =~= before);
            },
            Some(o) => {
                let t = if objective {
                    &o.objective_scores
                } else {
                    &o.val_subscores
                };
                assert(before + ne.take(0) =~= before);
                let mut j: usize = 0;
                while j < t.len()
                    invariant
                        j <= t.keys().len(),
                        ms == objectives.metrics@,
                        ne == node_entries(*node, objective, ms),
                        node.outcome == Some(*o),
                        *t == (if objective { o.objective_scores } else { o.val_subscores }),
                        ms.len() > 0 || ne.len() == 0,
                        best_view(best) == best_fold(before + ne.take(j as int)),
                    decreases t.keys().len() - j,
                {
                    let key = t.key_at(j);
                    let score = *t.value_at(j);
                    let dir = if objective {
                        objectives.direction_for_or_primary(key.as_str())
                    } else {
                        objectives.primary().direction
                    };
                    let d = dir.directional_score(score);
                    let ghost e = (key@, node.id@, d as int);
                    assert(ne[j as int] == e);
                    let ghost nxt = before + ne.take(j + 1);
                    assert(nxt.drop_last() =~= before + ne.take(j as int));
                    assert(nxt.last() == e);
                    best_record(&mut best, key.as_str(), node.id.as_str(), d);
                    j = j + 1;
                }
                assert(ne.take(ne.len() as int) =~= ne);
            },
        }
        i = i + 1;
    }
    assert(ps.take(ps.len() as int) =~= ps);
    best
}

/// The (example, objective) entries of one example `a` of node `id`, whose
/// per-objective scores are `inner`, in objective order.
pub open spec fn pair_row(a: Seq<char>, inner: TextMap<i64>, id: Seq<char>, metrics: Seq<Metric>) -> Seq<
    ((Seq<char>, Seq<char>), Seq<char>, int),
> {
    Seq::new(
        inner.keys().len(),
        |j: int|
            (
                (a, inner.keys()[j]),
                id,
                directional(
                    direction_or_primary(metrics, inner.keys()[j]),
                    inner@[inner.keys()[j]] as int,
                ),
            ),
    )
}

/// The pair entries of the first `upto` examples of `outer`.
pub open spec fn pair_rows(
    outer: TextMap<TextMap<i64>>,
    id: Seq<char>,
    metrics: Seq<Metric>,
    upto: int,
) -> Seq<((Seq<char>, Seq<char>), Seq<char>, int)>
    decreases upto,
{
    if upto <= 0 {
        Seq::empty()
    } else {
        pair_rows(outer, id, metrics, upto - 1) + pair_row(
            outer.keys()[upto - 1],
            outer@[outer.keys()[upto - 1]],
            id,
            metrics,
        )
    }
}

/// The (example, objective) entries of node `n`, example after example.
pub open spec fn node_pair_entries(n: ExperimentNode, metrics: Seq<Metric>) -> Seq<
    ((Seq<char>, Seq<char>), Seq<char>, int),
> {
    match n.outcome {
        None => Seq::empty(),
        Some(o) => pair_rows(
            o.objective_subscores,
            n.id@,
            metrics,
            o.objective_subscores.keys().len() as int,
        ),
    }
}

/// The (example, objective) entries of the nodes of `pool`, node after node.
pub open spec fn pool_pair_entries(pool: Seq<ExperimentNode>, metrics: Seq<Metric>) -> Seq<
    ((Seq<char>, Seq<char>), Seq<char>, int),
>
    decreases pool.len(),
{
    if pool.len() == 0 {
        Seq::empty()
    } else {
        pool_pair_entries(pool.drop_last(), metrics) + node_pair_entries(pool.last(), metrics)
    }
}

/// The pair scan state held in nested maps: example -> objective -> (best,
/// winners).
pub open spec fn pair_view(t: TextMap<TextMap<(i128, Vec<String>)>>) -> Map<
    (Seq<char>, Seq<char>),
    (int, Seq<Seq<char>>),
> {
    Map::new(
        |p: (Seq<char>, Seq<char>)| t@.dom().contains(p.0) && best_view(t@[p.0]).dom().contains(p.1),
        |p: (Seq<char>, Seq<char>)| best_view(t@[p.0])[p.1],
    )
}

/// Applies one step of the pair scan to `best`.
fn pair_record(
    best: &mut TextMap<TextMap<(i128, Vec<String>)>>,
    a: &str,
    b: &str,
    id: &str,
    d: i128,
)
    ensures
        pair_view(*final(best)) == best_step(pair_view(*old(best)), (a@, b@), id@, d as int),
{
    let ghost m = pair_view(*old(best));
    let mut inner = match best.remove(a) {
        Some(x) => x,
        None => TextMap::new(),
    };
    let ghost iv = best_view(inner);
    best_record(&mut inner, b, id, d);
    best.insert(a.to_owned(), inner);
    proof {
        let n = best_step(m, (a@, b@), id@, d as int);
        assert forall|p: (Seq<char>, Seq<char>)| #![auto] pair_view(*best).dom().contains(p) <==> n.dom().contains(p) by {
            if p.0 == a@ {
                if old(best)@.dom().contains(a@) {
                    assert(iv == best_view(old(best)@[a@]));
                }
            }
        }
        assert forall|p: (Seq<char>, Seq<char>)| #![auto] pair_view(*best).dom().contains(p) implies pair_view(*best)[p] == n[p] by {
            if p.0 == a@ {
                if old(best)@.dom().contains(a@) {
                    assert(iv == best_view(old(best)@[a@]));
                }
            }
        }
        assert(pair_view(*best) =~= n);
    }
}

/// The best-score scan over the (example, objective) entries of `pool`.
fn scan_pairs(pool: &[&ExperimentNode], objectives: &Objectives) -> (r: TextMap<
    TextMap<(i128, Vec<String>)>,
>)
    requires
        objectives.metrics@.len() > 0,
    ensures
        pair_view(r) == best_fold(pool_pair_entries(derefs(pool@), objectives.metrics@)),
{
    let ghost ps = derefs(pool@);
    let ghost ms = objectives.metrics@;
    let mut best: TextMap<TextMap<(i128, Vec<String>)>> = TextMap::new();
    assert(pair_view(best) =~= best_fold(pool_pair_entries(ps.take(0), ms)));
    let mut i: usize = 0;
    while i < pool.len()
        invariant
            i <= pool@.len(),
            ps == derefs(pool@),
            ms == objectives.metrics@,
            ms.len() > 0,
            pair_view(best) == best_fold(pool_pair_entries(ps.take(i as int), ms)),
        decreases pool@.len() - i,
    {
        let node = pool[i];
        assert(ps.take(i + 1).drop_last() =~= ps.take(i as int));
        assert(ps.take(i + 1).last() == *node);
        let ghost before = pool_pair_entries(ps.take(i as int), ms);
        match &node.outcome {
            None => {
                assert(before + node_pair_entries(*node, ms) =~= before);
            },
            Some(o) => {
                let outer = &o.objective_subscores;
                assert(before + pair_rows(*outer, node.id@, ms, 0) =~= before);
                let mut a: usize = 0;
                while a < outer.len()
                    invariant
                        a <= outer.keys().len(),
                        ms == objectives.metrics@,
                        ms.len() > 0,
                        node.outcome == Some(*o),
                        *outer == o.objective_subscores,
                        pair_view(best) == best_fold(before + pair_rows(*outer, node.id@, ms, a as int)),
                    decreases outer.keys().len() - a,
                {
                    let ex = outer.key_at(a);
                    let inner = outer.value_at(a);
                    let ghost row = pair_row(ex@, *inner, node.id@, ms);
                    let ghost base = before + pair_rows(*outer, node.id@, ms, a as int);
                    assert(base + row.take(0) =~= base);
                    let mut j: usize = 0;
                    while j < inner.len()
                        invariant
                            j <= inner.keys().len(),
                            ms == objectives.metrics@,
                            ms.len() > 0,
                            row == pair_row(ex@, *inner, node.id@, ms),
                            pair_view(best) == best_fold(base + row.take(j as int)),
                        decreases inner.keys().len() - j,
                    {
                        let ob = inner.key_at(j);
                        let score = *inner.value_at(j);
                        let dir = objectives.direction_for_or_primary(ob.as_str());
                        let d = dir.directional_score(score);
                        let ghost e = ((ex@, ob@), node.id@, d as int);
                        assert(row[j as int] == e);
                        let ghost nxt = base + row.take(j + 1);
                        assert(nxt.drop_last() =~= base + row.take(j as int));
                        assert(nxt.last() == e);
                        pair_record(&mut best, ex.as_str(), ob.as_str(), node.id.as_str(), d);
                        j = j + 1;
                    }
                    assert(row.take(row.len() as int) =~= row);
                    assert(base + row =~= before + pair_rows(*outer, node.id@, ms, a + 1));
                    a = a + 1;
                }
            },
        }
        i = i + 1;
    }
    assert(ps.take(ps.len() as int) =~= ps);
    best
}

/// Which frontier type the Pareto frontier tracks.
#[derive(Clone, Copy, Debug, PartialEq, Eq, Structural)]
pub enum FrontierType {
    /// Per validation example: keeps nodes that win a single example.
    Instance,
    /// Per objective: keeps nodes that win a single objective.
    Objective,
    /// The instance and objective fronts together.
    Hybrid,
    /// Per (validation example, objective) pair; the hybrid front when no
    /// node has per-pair scores.
    Cartesian,
}

impl Default for FrontierType {
    fn default() -> (r: Self)
        ensures
            r == FrontierType::Instance,
    {
        FrontierType::Instance
    }
}

/// One axis of the Pareto frontier.
#[derive(Debug, PartialEq, Eq, PartialOrd, Ord)]
pub enum FrontierKey {
    /// A validation example id.
    Instance(String),
    /// An objective name.
    Objective(String),
    /// A (validation example, objective) pair.
    Cartesian { instance: String, objective: String },
}

/// The view of a [`FrontierKey`].
pub enum FrontierKeyV {
    Instance(Seq<char>),
    Objective(Seq<char>),
    Cartesian(Seq<char>, Seq<char>),
}

impl DeepView for FrontierKey {
    type V = FrontierKeyV;

    open spec fn deep_view(&self) -> FrontierKeyV {
        match self {
            FrontierKey::Instance(s) => FrontierKeyV::Instance(s@),
            FrontierKey::Objective(s) => FrontierKeyV::Objective(s@),
            FrontierKey::Cartesian { instance, objective } => FrontierKeyV::Cartesian(
                instance@,
                objective@,
            ),
        }
    }
}

/// The Pareto frontier: each frontier key with the ids of the nodes that are
/// best (or tied best) on it.
#[derive(Debug)]
pub struct ParetoFront {
    pub mapping: Vec<(FrontierKey, Vec<String>)>,
}

impl Default for ParetoFront {
    fn default() -> (r: Self)
        ensures
            r.mapping@.len() == 0,
    {
        ParetoFront { mapping: Vec::new() }
    }
}

/// The key of an instance (or objective) axis named `s`.
pub open spec fn axis(objective: bool, s: Seq<char>) -> FrontierKeyV {
    if objective {
        FrontierKeyV::Objective(s)
    } else {
        FrontierKeyV::Instance(s)
    }
}

/// The frontier of a best-score scan over instance (or objective) keys.
pub open spec fn lift_keys(f: Map<Seq<char>, (int, Seq<Seq<char>>)>, objective: bool) -> Map<
    FrontierKeyV,
    Seq<Seq<char>>,
> {
    Map::new(
        |k: FrontierKeyV|
            match k {
                FrontierKeyV::Instance(s) => !objective && f.dom().contains(s),
                FrontierKeyV::Objective(s) => objective && f.dom().contains(s),
                FrontierKeyV::Cartesian(a, b) => false,
            },
        |k: FrontierKeyV|
            match k {
                FrontierKeyV::Instance(s) => f[s].1,
                FrontierKeyV::Objective(s) => f[s].1,
                FrontierKeyV::Cartesian(a, b) => Seq::empty(),
            },
    )
}

/// The frontier of a best-score scan over (example, objective) pairs.
pub open spec fn lift_pairs(f: Map<(Seq<char>, Seq<char>), (int, Seq<Seq<char>>)>) -> Map<
    FrontierKeyV,
    Seq<Seq<char>>,
> {
    Map::new(
        |k: FrontierKeyV|
            match k {
                FrontierKeyV::Cartesian(a, b) => f.dom().contains((a, b)),
                _ => false,
            },
        |k: FrontierKeyV|
            match k {
                FrontierKeyV::Cartesian(a, b) => f[(a, b)].1,
                _ => Seq::empty(),
            },
    )
}

/// The frontier of `pool` of type `ft` under the objectives `metrics`: each
/// key with the ids of the nodes whose oriented score on it is the best.
pub open spec fn front_spec(pool: Seq<ExperimentNode>, ft: FrontierType, metrics: Seq<Metric>) -> Map<
    FrontierKeyV,
    Seq<Seq<char>>,
> {
    let inst = lift_keys(best_fold(pool_entries(pool, false, metrics)), false);
    let obj = lift_keys(best_fold(pool_entries(pool, true, metrics)), true);
    let hybrid = inst.union_prefer_right(obj);
    match ft {
        FrontierType::Instance => inst,
        FrontierType::Objective => obj,
        FrontierType::Hybrid => hybrid,
        FrontierType::Cartesian => if pool_pair_entries(pool, metrics).len() == 0 {
            hybrid
        } else {
            lift_pairs(best_fold(pool_pair_entries(pool, metrics)))
        },
    }
}

/// The Cartesian frontier: with no (example, objective) score in the pool it
/// is the hybrid frontier; else its keys are exactly the scored (example,
/// objective) pairs, and where no such score is NaN, each pair's winners are
/// the nodes, in pool order, whose oriented score for it is the best any
/// node has.
pub proof fn lemma_cartesian_front(pool: Seq<ExperimentNode>, metrics: Seq<Metric>, ex: Seq<char>, obj: Seq<char>)
    ensures
        pool_pair_entries(pool, metrics).len() == 0 ==> front_spec(pool, FrontierType::Cartesian, metrics) == front_spec(
            pool,
            FrontierType::Hybrid,
            metrics,
        ),
        pool_pair_entries(pool, metrics).len() > 0 ==> (front_spec(pool, FrontierType::Cartesian, metrics).dom().contains(
            FrontierKeyV::Cartesian(ex, obj),
        ) <==> has_entry(pool_pair_entries(pool, metrics), (ex, obj))),
        pool_pair_entries(pool, metrics).len() > 0 && no_nan(pool_pair_entries(pool, metrics)) && has_entry(
            pool_pair_entries(pool, metrics),
            (ex, obj),
        ) ==> exists|b: int|
            #![trigger achievers(pool_pair_entries(pool, metrics), (ex, obj), b)]
            (forall|i: int|
                0 <= i < pool_pair_entries(pool, metrics).len() && #[trigger] pool_pair_entries(pool, metrics)[i].0 == (ex, obj)
                    ==> pool_pair_entries(pool, metrics)[i].2 <= b) && (exists|i: int|
                0 <= i < pool_pair_entries(pool, metrics).len() && #[trigger] pool_pair_entries(pool, metrics)[i].0 == (ex, obj)
                    && pool_pair_entries(pool, metrics)[i].2 == b) && front_spec(pool, FrontierType::Cartesian, metrics)[FrontierKeyV::Cartesian(
                ex,
                obj,
            )] == achievers(pool_pair_entries(pool, metrics), (ex, obj), b),
{
    let e = pool_pair_entries(pool, metrics);
    lemma_best_fold(e, (ex, obj));
    if e.len() == 0 {
    } else {
        let f = front_spec(pool, FrontierType::Cartesian, metrics);
        assert(f == lift_pairs(best_fold(e)));
        if no_nan(e) && has_entry(e, (ex, obj)) {
            let b = best_fold(e)[(ex, obj)].0;
            assert(f[FrontierKeyV::Cartesian(ex, obj)] == achievers(e, (ex, obj), b));
        }
    }
}

/// Whether the mapping `m` lists each key of the frontier `f` once, with
/// its winners, and nothing else.
pub open spec fn mapping_is(m: Seq<(FrontierKeyV, Seq<Seq<char>>)>, f: Map<FrontierKeyV, Seq<Seq<char>>>) -> bool {
    &&& forall|i: int, j: int| 0 <= i < j < m.len() ==> #[trigger] m[i].0 != #[trigger] m[j].0
    &&& forall|i: int| 0 <= i < m.len() ==> f.dom().contains(#[trigger] m[i].0) && f[m[i].0] == m[i].1
    &&& forall|k: FrontierKeyV| #[trigger] f.dom().contains(k) ==> exists|i: int| 0 <= i < m.len() && m[i].0 == k
}

/// Appends to `out` each key of `best` (in order) as an instance (or
/// objective) axis with its winners.
fn push_axes(out: &mut Vec<(FrontierKey, Vec<String>)>, best: &TextMap<(i128, Vec<String>)>, objective: bool)
    ensures
        final(out).deep_view().len() == old(out).deep_view().len() + best.keys().len(),
        final(out).deep_view().take(old(out).deep_view().len() as int) == old(out).deep_view(),
        forall|j: int| 0 <= j < best.keys().len() ==> #[trigger] final(out).deep_view()[old(out).deep_view().len() + j]
            == (axis(objective, best.keys()[j]), best_view(*best)[best.keys()[j]].1),
{
    let ghost start = out.deep_view();
    let mut j: usize = 0;
    while j < best.len()
        invariant
            j <= best.keys().len(),
            out.deep_view().len() == start.len() + j,
            out.deep_view().take(start.len() as int) == start,
            forall|q: int| 0 <= q < j ==> #[trigger] out.deep_view()[start.len() + q] == (
                axis(objective, best.keys()[q]),
                best_view(*best)[best.keys()[q]].1,
            ),
        decreases best.keys().len() - j,
    {
        let k = best.key_at(j);
        let v = best.value_at(j);
        let key = if objective {
            FrontierKey::Objective(k.clone())
        } else {
            FrontierKey::Instance(k.clone())
        };
        let winners = v.1.deep_clone();
        let ghost prev = out.deep_view();
        out.push((key, winners));
        assert(out.deep_view() =~= prev.push((axis(objective, k@), v.1.deep_view())));
        j = j + 1;
    }
}

/// Appends to `out` each objective of `inner` (in order), paired with
/// example `ex`, with its winners.
fn push_row(out: &mut Vec<(FrontierKey, Vec<String>)>, ex: &String, inner: &TextMap<(i128, Vec<String>)>)
    ensures
        final(out).deep_view().len() == old(out).deep_view().len() + inner.keys().len(),
        final(out).deep_view().take(old(out).deep_view().len() as int) == old(out).deep_view(),
        forall|q: int| 0 <= q < inner.keys().len() ==> #[trigger] final(out).deep_view()[old(out).deep_view().len() + q]
            == (FrontierKeyV::Cartesian(ex@, inner.keys()[q]), best_view(*inner)[inner.keys()[q]].1),
{
    let ghost start = out.deep_view();
    let mut j: usize = 0;
    while j < inner.len()
        invariant
            j <= inner.keys().len(),
            out.deep_view().len() == start.len() + j,
            out.deep_view().take(start.len() as int) == start,
            forall|q: int| 0 <= q < j ==> #[trigger] out.deep_view()[start.len() + q] == (
                FrontierKeyV::Cartesian(ex@, inner.keys()[q]),
                best_view(*inner)[inner.keys()[q]].1,
            ),
        decreases inner.keys().len() - j,
    {
        let ob = inner.key_at(j);
        let v = inner.value_at(j);
        let key = FrontierKey::Cartesian { instance: ex.clone(), objective: ob.clone() };
        let winners = v.1.deep_clone();
        let ghost prev = out.deep_view();
        out.push((key, winners));
        assert(out.deep_view() =~= prev.push((FrontierKeyV::Cartesian(ex@, ob@), v.1.deep_view())));
        j = j + 1;
    }
}

/// Appends to `out` each (example, objective) pair of `best` (in order)
/// with its winners.
fn push_pairs(out: &mut Vec<(FrontierKey, Vec<String>)>, best: &TextMap<TextMap<(i128, Vec<String>)>>)
    requires
        old(out).deep_view().len() == 0,
    ensures
        mapping_is(final(out).deep_view(), lift_pairs(pair_view(*best))),
{
    best.keys_sorted();
    let ghost ks = best.keys();
    let ghost f = lift_pairs(pair_view(*best));
    let ghost mut src: Seq<int> = Seq::empty();
    let mut a: usize = 0;
    while a < best.len()
        invariant
            a <= ks.len(),
            ks == best.keys(),
            f == lift_pairs(pair_view(*best)),
            sorted_strict(ks),
            src.len() == out.deep_view().len(),
            forall|i: int, j: int| 0 <= i < j < out.deep_view().len() ==> #[trigger] out.deep_view()[i].0
                != #[trigger] out.deep_view()[j].0,
            forall|i: int| 0 <= i < out.deep_view().len() ==> ({
                let k = #[trigger] out.deep_view()[i].0;
                &&& k is Cartesian
                &&& f.dom().contains(k)
                &&& f[k] == out.deep_view()[i].1
                &&& 0 <= src[i] < a
                &&& ks[src[i]] == k->Cartesian_0
            }),
            forall|q: int, b: Seq<char>|
                0 <= q < a && #[trigger] best@[ks[q]]@.dom().contains(b) ==> exists|i: int|
                    0 <= i < out.deep_view().len() && out.deep_view()[i].0 == FrontierKeyV::Cartesian(ks[q], b),
        decreases ks.len() - a,
    {
        let ex = best.key_at(a);
        let inner = best.value_at(a);
        inner.keys_sorted();
        let ghost start = out.deep_view();
        let ghost old_src = src;
        push_row(out, ex, inner);
        proof {
            let m = out.deep_view();
            let ik = inner.keys();
            src = old_src + Seq::new(ik.len(), |q: int| a as int);
            assert forall|i: int| 0 <= i < start.len() implies #[trigger] m[i] == start[i] by {
                assert(m.take(start.len() as int)[i] == start[i]);
            }
            assert forall|q: int| 0 <= q < ik.len() implies #[trigger] m[start.len() + q] == (
                FrontierKeyV::Cartesian(ex@, ik[q]),
                best_view(*inner)[ik[q]].1,
            ) by {}
            lemma_pairs_row_keys(m, start, src, ks, a as int, f, ik, *inner, *best);
            lemma_pairs_row_distinct(m, start, src, ks, a as int, ik);
            lemma_pairs_row_cover(m, start, ks, a as int, ik, *best);
        }
        a = a + 1;
    }
    proof {
        let m = out.deep_view();
        assert forall|k: FrontierKeyV| #[trigger] f.dom().contains(k) implies exists|i: int| 0 <= i < m.len() && m[i].0 == k by {
            let q = choose|q: int| 0 <= q < ks.len() && ks[q] == k->Cartesian_0;
            assert(best@[ks[q]]@.dom().contains(k->Cartesian_1));
        }
    }
}

proof fn lemma_pairs_row_keys(
    m: Seq<(FrontierKeyV, Seq<Seq<char>>)>,
    start: Seq<(FrontierKeyV, Seq<Seq<char>>)>,
    src: Seq<int>,
    ks: Seq<Seq<char>>,
    a: int,
    f: Map<FrontierKeyV, Seq<Seq<char>>>,
    ik: Seq<Seq<char>>,
    inner: TextMap<(i128, Vec<String>)>,
    best: TextMap<TextMap<(i128, Vec<String>)>>,
)
    requires
        0 <= a < ks.len(),
        ks == best.keys(),
        ik == inner.keys(),
        inner == best@[ks[a]],
        f == lift_pairs(pair_view(best)),
        sorted_strict(ks),
        sorted_strict(ik),
        m.len() == start.len() + ik.len(),
        src.len() == m.len(),
        forall|i: int| 0 <= i < start.len() ==> #[trigger] m[i] == start[i],
        forall|q: int| 0 <= q < ik.len() ==> #[trigger] m[start.len() + q] == (
            FrontierKeyV::Cartesian(ks[a], ik[q]),
            best_view(inner)[ik[q]].1,
        ),
        forall|q: int| start.len() <= q < m.len() ==> #[trigger] src[q] == a,
        forall|i: int, j: int| 0 <= i < j < start.len() ==> #[trigger] start[i].0 != #[trigger] start[j].0,
        forall|i: int| 0 <= i < start.len() ==> ({
            let k = #[trigger] start[i].0;
            &&& k is Cartesian
            &&& f.dom().contains(k)
            &&& f[k] == start[i].1
            &&& 0 <= src[i] < a
            &&& ks[src[i]] == k->Cartesian_0
        }),
        forall|q: int, b: Seq<char>|
            0 <= q < a && #[trigger] best@[ks[q]]@.dom().contains(b) ==> exists|i: int|
                0 <= i < start.len() && start[i].0 == FrontierKeyV::Cartesian(ks[q], b),
    ensures
        forall|i: int| 0 <= i < m.len() ==> ({
            let k = #[trigger] m[i].0;
            &&& k is Cartesian
            &&& f.dom().contains(k)
            &&& f[k] == m[i].1
            &&& 0 <= src[i] < a + 1
            &&& ks[src[i]] == k->Cartesian_0
        }),
{
    assert forall|i: int| 0 <= i < m.len() implies ({
        let k = #[trigger] m[i].0;
        &&& k is Cartesian
        &&& f.dom().contains(k)
        &&& f[k] == m[i].1
        &&& 0 <= src[i] < a + 1
        &&& ks[src[i]] == k->Cartesian_0
    }) by {
        if i < start.len() {
            assert(m[i] == start[i]);
        } else {
            let q = i - start.len();
            assert(m[start.len() + q] == (FrontierKeyV::Cartesian(ks[a], ik[q]), best_view(inner)[ik[q]].1));
            assert(inner@.dom().contains(ik[q]));
            assert(src[i] == a);
        }
    }
}

proof fn lemma_pairs_row_distinct(
    m: Seq<(FrontierKeyV, Seq<Seq<char>>)>,
    start: Seq<(FrontierKeyV, Seq<Seq<char>>)>,
    src: Seq<int>,
    ks: Seq<Seq<char>>,
    a: int,
    ik: Seq<Seq<char>>,
)
    requires
        0 <= a < ks.len(),
        sorted_strict(ks),
        sorted_strict(ik),
        m.len() == start.len() + ik.len(),
        src.len() >= start.len(),
        forall|i: int| 0 <= i < start.len() ==> #[trigger] m[i] == start[i],
        forall|q: int| 0 <= q < ik.len() ==> #[trigger] m[start.len() + q].0 == FrontierKeyV::Cartesian(ks[a], ik[q]),
        forall|i: int, j: int| 0 <= i < j < start.len() ==> #[trigger] start[i].0 != #[trigger] start[j].0,
        forall|i: int| 0 <= i < start.len() ==> (#[trigger] start[i].0) is Cartesian && 0 <= src[i] < a
            && ks[src[i]] == start[i].0->Cartesian_0,
    ensures
        forall|i: int, j: int| 0 <= i < j < m.len() ==> #[trigger] m[i].0 != #[trigger] m[j].0,
{
    assert forall|i: int, j: int| 0 <= i < j < m.len() implies #[trigger] m[i].0 != #[trigger] m[j].0 by {
        if j < start.len() {
            assert(m[i] == start[i]);
            assert(m[j] == start[j]);
        } else if i < start.len() {
            assert(m[i] == start[i]);
            let q2 = j - start.len();
            assert(m[start.len() + q2].0 == FrontierKeyV::Cartesian(ks[a], ik[q2]));
            assert(start[i].0 is Cartesian);
            let si = src[i];
            assert(0 <= si < a);
            assert(seq_lt(ks[si], ks[a]));
            crate::text::lemma_seq_lt_irreflexive(ks[a]);
        } else {
            let q1 = i - start.len();
            let q2 = j - start.len();
            assert(m[start.len() + q1].0 == FrontierKeyV::Cartesian(ks[a], ik[q1]));
            assert(m[start.len() + q2].0 == FrontierKeyV::Cartesian(ks[a], ik[q2]));
            assert(seq_lt(ik[q1], ik[q2]));
            crate::text::lemma_seq_lt_irreflexive(ik[q1]);
        }
    }
}

proof fn lemma_pairs_row_cover(
    m: Seq<(FrontierKeyV, Seq<Seq<char>>)>,
    start: Seq<(FrontierKeyV, Seq<Seq<char>>)>,
    ks: Seq<Seq<char>>,
    a: int,
    ik: Seq<Seq<char>>,
    best: TextMap<TextMap<(i128, Vec<String>)>>,
)
    requires
        0 <= a < ks.len(),
        ks == best.keys(),
        ik == best@[ks[a]].keys(),
        m.len() == start.len() + ik.len(),
        forall|i: int| 0 <= i < start.len() ==> #[trigger] m[i] == start[i],
        forall|q: int| 0 <= q < ik.len() ==> #[trigger] m[start.len() + q].0 == FrontierKeyV::Cartesian(ks[a], ik[q]),
        forall|q: int, b: Seq<char>|
            0 <= q < a && #[trigger] best@[ks[q]]@.dom().contains(b) ==> exists|i: int|
                0 <= i < start.len() && start[i].0 == FrontierKeyV::Cartesian(ks[q], b),
    ensures
        forall|q: int, b: Seq<char>|
            0 <= q < a + 1 && #[trigger] best@[ks[q]]@.dom().contains(b) ==> exists|i: int|
                0 <= i < m.len() && m[i].0 == FrontierKeyV::Cartesian(ks[q], b),
{
    assert forall|q: int, b: Seq<char>|
        0 <= q < a + 1 && #[trigger] best@[ks[q]]@.dom().contains(b) implies exists|i: int|
            0 <= i < m.len() && m[i].0 == FrontierKeyV::Cartesian(ks[q], b) by {
        if q < a {
            let i = choose|i: int| 0 <= i < start.len() && start[i].0 == FrontierKeyV::Cartesian(ks[q], b);
            assert(m[i] == start[i]);
        } else {
            let jj = choose|jj: int| 0 <= jj < ik.len() && ik[jj] == b;
            assert(m[start.len() + jj].0 == FrontierKeyV::Cartesian(ks[a], ik[jj]));
        }
    }
}

/// The mapping of the instance (or objective) frontier held by `best`.
fn axes_front(best: &TextMap<(i128, Vec<String>)>, objective: bool) -> (r: Vec<(FrontierKey, Vec<String>)>)
    ensures
        mapping_is(r.deep_view(), lift_keys(best_view(*best), objective)),
        forall|i: int| 0 <= i < r.deep_view().len() ==> (#[trigger] r.deep_view()[i].0 is Objective) == objective
            && !(r.deep_view()[i].0 is Cartesian),
{
    best.keys_sorted();
    let mut out: Vec<(FrontierKey, Vec<String>)> = Vec::new();
    push_axes(&mut out, best, objective);
    proof {
        let m = out.deep_view();
        let ks = best.keys();
        let f = lift_keys(best_view(*best), objective);
        assert forall|i: int| 0 <= i < m.len() implies f.dom().contains(#[trigger] m[i].0) && f[m[i].0]
            == m[i].1 by {
            assert(m[0 + i] == (axis(objective, ks[i]), best_view(*best)[ks[i]].1));
            assert(best@.dom().contains(ks[i]));
        }
        assert forall|i: int, j: int| 0 <= i < j < m.len() implies #[trigger] m[i].0 != #[trigger] m[j].0 by {
            assert(m[0 + i] == (axis(objective, ks[i]), best_view(*best)[ks[i]].1));
            assert(m[0 + j] == (axis(objective, ks[j]), best_view(*best)[ks[j]].1));
            crate::text::lemma_seq_lt_irreflexive(ks[i]);
        }
        assert forall|k: FrontierKeyV| #[trigger] f.dom().contains(k) implies exists|i: int|
            0 <= i < m.len() && m[i].0 == k by {
            let s = match k {
                FrontierKeyV::Instance(s) => s,
                FrontierKeyV::Objective(s) => s,
                FrontierKeyV::Cartesian(a, b) => a,
            };
            let i = choose|i: int| 0 <= i < ks.len() && ks[i] == s;
            assert(m[0 + i] == (axis(objective, ks[i]), best_view(*best)[ks[i]].1));
        }
        assert forall|i: int| 0 <= i < m.len() implies (#[trigger] m[i].0 is Objective) == objective
            && !(m[i].0 is Cartesian) by {
            assert(m[0 + i] == (axis(objective, ks[i]), best_view(*best)[ks[i]].1));
        }
    }
    out
}

/// The instance frontier followed by the objective frontier.
fn hybrid_front(pool: &[&ExperimentNode], objectives: &Objectives) -> (r: Vec<(FrontierKey, Vec<String>)>)
    requires
        objectives.metrics@.len() > 0,
    ensures
        mapping_is(r.deep_view(), front_spec(derefs(pool@), FrontierType::Hybrid, objectives.metrics@)),
{
    let inst = scan_scores(pool, false, objectives);
    let obj = scan_scores(pool, true, objectives);
    let mut out = axes_front(&inst, false);
    let ghost first = out.deep_view();
    obj.keys_sorted();
    push_axes(&mut out, &obj, true);
    let ghost rv = Seq::new(
        obj.keys().len(),
        |j: int| (axis(true, obj.keys()[j]), best_view(obj)[obj.keys()[j]].1),
    );
    proof {
        let fo = lift_keys(best_view(obj), true);
        let ks = obj.keys();
        assert forall|q: int| first.len() <= q < out.deep_view().len() implies #[trigger] out.deep_view()[q]
            == rv[q - first.len()] by {
            assert(out.deep_view()[first.len() + (q - first.len())] == rv[q - first.len()]);
        }
        assert forall|q: int| 0 <= q < first.len() implies #[trigger] out.deep_view()[q] == first[q] by {
            assert(out.deep_view().take(first.len() as int)[q] == first[q]);
        }
        assert forall|i: int| 0 <= i < rv.len() implies fo.dom().contains(#[trigger] rv[i].0) && fo[rv[i].0]
            == rv[i].1 && rv[i].0 is Objective by {
            assert(obj@.dom().contains(ks[i]));
        }
        assert forall|i: int, j: int| 0 <= i < j < rv.len() implies #[trigger] rv[i].0 != #[trigger] rv[j].0 by {
            crate::text::lemma_seq_lt_irreflexive(ks[i]);
        }
        assert forall|k: FrontierKeyV| #[trigger] fo.dom().contains(k) implies exists|i: int|
            0 <= i < rv.len() && rv[i].0 == k by {
            let s = k->Objective_0;
            let i = choose|i: int| 0 <= i < ks.len() && ks[i] == s;
            assert(rv[i].0 == k);
        }
    }
    proof {
        let m = out.deep_view();
        let fi = lift_keys(best_view(inst), false);
        let fo = lift_keys(best_view(obj), true);
        let f = fi.union_prefer_right(fo);
        assert(f == front_spec(derefs(pool@), FrontierType::Hybrid, objectives.metrics@));
        assert forall|i: int| 0 <= i < m.len() implies f.dom().contains(#[trigger] m[i].0) && f[m[i].0]
            == m[i].1 by {
            if i < first.len() {
                assert(m[i] == first[i]);
                assert(!fo.dom().contains(first[i].0));
            } else {
                assert(m[i] == rv[i - first.len()]);
            }
        }
        assert forall|i: int, j2: int| 0 <= i < j2 < m.len() implies #[trigger] m[i].0 != #[trigger] m[j2].0 by {
            if j2 < first.len() {
                assert(m[i] == first[i]);
                assert(m[j2] == first[j2]);
            } else if i < first.len() {
                assert(m[i] == first[i]);
                assert(m[j2] == rv[j2 - first.len()]);
            } else {
                assert(m[i] == rv[i - first.len()]);
                assert(m[j2] == rv[j2 - first.len()]);
            }
        }
        assert forall|k: FrontierKeyV| #[trigger] f.dom().contains(k) implies exists|i: int|
            0 <= i < m.len() && m[i].0 == k by {
            if fo.dom().contains(k) {
                let i = choose|i: int| 0 <= i < rv.len() && rv[i].0 == k;
                assert(m[first.len() + i] == rv[i]);
            } else {
                let i = choose|i: int| 0 <= i < first.len() && first[i].0 == k;
                assert(m[i] == first[i]);
            }
        }
    }
    out
}

/// Whether `pareto_front` can compute the frontier of type `ft` with the
/// objectives `metrics` (it needs a primary objective, unless only
/// objective scores are scanned and there are none).
pub open spec fn front_defined(pool: Seq<ExperimentNode>, ft: FrontierType, metrics: Seq<Metric>) -> bool {
    metrics.len() > 0 || (ft == FrontierType::Objective && pool_entries(pool, true, metrics).len() == 0)
}

/// The Pareto frontier of type `frontier_type` over the evaluated `pool`,
/// orienting each score by its objective's direction (the primary one for
/// examples and for objectives not listed).
pub fn pareto_front(pool: &[&ExperimentNode], frontier_type: FrontierType, objectives: &Objectives) -> (r:
    ParetoFront)
    requires
        front_defined(derefs(pool@), frontier_type, objectives.metrics@),
    ensures
        mapping_is(r.mapping.deep_view(), front_spec(derefs(pool@), frontier_type, objectives.metrics@)),
{
    match frontier_type {
        FrontierType::Instance => {
            let best = scan_scores(pool, false, objectives);
            ParetoFront { mapping: axes_front(&best, false) }
        },
        FrontierType::Objective => {
            let best = scan_scores(pool, true, objectives);
            ParetoFront { mapping: axes_front(&best, true) }
        },
        FrontierType::Hybrid => ParetoFront { mapping: hybrid_front(pool, objectives) },
        FrontierType::Cartesian => {
            let best = scan_pairs(pool, objectives);
            let mut out: Vec<(FrontierKey, Vec<String>)> = Vec::new();
            push_pairs(&mut out, &best);
            let ghost e = pool_pair_entries(derefs(pool@), objectives.metrics@);
            if out.len() == 0 {
                proof {
                    if e.len() > 0 {
                        lemma_best_fold(e, e[0].0);
                        let k = FrontierKeyV::Cartesian(e[0].0.0, e[0].0.1);
                        assert(lift_pairs(pair_view(best)).dom().contains(k));
                    }
                }
                ParetoFront { mapping: hybrid_front(pool, objectives) }
            } else {
                proof {
                    if e.len() == 0 {
                        assert(best_fold(e) =~= Map::empty());
                        assert(lift_pairs(pair_view(best)).dom().contains(out.deep_view()[0].0));
                    }
                }
                ParetoFront { mapping: out }
            }
        },
    }
}

/// The ids that win some key of the frontier `f`.
pub open spec fn front_ids(f: Map<FrontierKeyV, Seq<Seq<char>>>) -> Set<Seq<char>> {
    Set::new(|x: Seq<char>| exists|k: FrontierKeyV| #[trigger] f.dom().contains(k) && f[k].contains(x))
}

/// The ids listed as winners anywhere in the mapping `m`.
pub open spec fn mapping_ids(m: Seq<(FrontierKeyV, Seq<Seq<char>>)>) -> Set<Seq<char>> {
    Set::new(|x: Seq<char>| exists|i: int| 0 <= i < m.len() && #[trigger] m[i].1.contains(x))
}

/// A mapping of a frontier lists exactly the frontier's winners.
pub proof fn lemma_mapping_ids(m: Seq<(FrontierKeyV, Seq<Seq<char>>)>, f: Map<FrontierKeyV, Seq<Seq<char>>>)
    requires
        mapping_is(m, f),
    ensures
        mapping_ids(m) == front_ids(f),
{
    assert forall|x: Seq<char>| mapping_ids(m).contains(x) <==> front_ids(f).contains(x) by {
        if mapping_ids(m).contains(x) {
            let i = choose|i: int| 0 <= i < m.len() && #[trigger] m[i].1.contains(x);
            assert(f.dom().contains(m[i].0));
        }
        if front_ids(f).contains(x) {
            let k = choose|k: FrontierKeyV| #[trigger] f.dom().contains(k) && f[k].contains(x);
            let i = choose|i: int| 0 <= i < m.len() && m[i].0 == k;
            assert(m[i].1.contains(x));
        }
    }
    assert(mapping_ids(m) =~= front_ids(f));
}

/// The number of entries of `m` that list `id` among their winners.
pub open spec fn wins_in(m: Seq<(FrontierKeyV, Seq<Seq<char>>)>, id: Seq<char>) -> nat {
    m.filter(|e: (FrontierKeyV, Seq<Seq<char>>)| e.1.contains(id)).len()
}

impl ParetoFront {
    /// The flat non-dominated set: every id that wins at least one frontier
    /// key, each once, in ascending order.
    pub fn non_dominated_ids(&self) -> (r: Vec<String>)
        ensures
            sorted_strict(r.deep_view()),
            forall|x: Seq<char>| r.deep_view().contains(x) <==> mapping_ids(self.mapping.deep_view()).contains(x),
    {
        let ghost m = self.mapping.deep_view();
        let mut seen: TextMap<bool> = TextMap::new();
        let mut i: usize = 0;
        while i < self.mapping.len()
            invariant
                i <= m.len(),
                m == self.mapping.deep_view(),
                forall|x: Seq<char>| seen@.dom().contains(x) <==> exists|q: int| 0 <= q < i && #[trigger] m[q].1.contains(x),
            decreases m.len() - i,
        {
            let winners = &self.mapping[i].1;
            assert(winners.deep_view() == m[i as int].1);
            let mut j: usize = 0;
            while j < winners.len()
                invariant
                    i < m.len(),
                    m == self.mapping.deep_view(),
                    winners.deep_view() == m[i as int].1,
                    j <= winners@.len(),
                    forall|x: Seq<char>| seen@.dom().contains(x) <==> (exists|q: int| 0 <= q < i && #[trigger] m[q].1.contains(x))
                        || exists|t: int| 0 <= t < j && winners.deep_view()[t] == x,
                decreases winners@.len() - j,
            {
                let ghost before = seen@;
                seen.insert(winners[j].clone(), true);
                assert(winners.deep_view()[j as int] == winners[j as int]@);
                j = j + 1;
            }
            assert forall|x: Seq<char>| seen@.dom().contains(x) <==> exists|q: int| 0 <= q < i + 1 && #[trigger] m[q].1.contains(x) by {
                if exists|t: int| 0 <= t < winners@.len() && winners.deep_view()[t] == x {
                    let t = choose|t: int| 0 <= t < winners@.len() && winners.deep_view()[t] == x;
                    assert(m[i as int].1.contains(x));
                }
                if m[i as int].1.contains(x) {
                    let t = choose|t: int| 0 <= t < m[i as int].1.len() && m[i as int].1[t] == x;
                    assert(winners.deep_view()[t] == x);
                }
            }
            i = i + 1;
        }
        let r = seen.key_list();
        proof {
            assert(i == m.len());
            assert forall|x: Seq<char>| r.deep_view().contains(x) <==> mapping_ids(m).contains(x) by {
                assert(seen@.dom().contains(x) == seen.keys().contains(x));
                if mapping_ids(m).contains(x) {
                    let q = choose|q: int| 0 <= q < m.len() && #[trigger] m[q].1.contains(x);
                    assert(seen@.dom().contains(x));
                }
                if seen@.dom().contains(x) {
                    let q = choose|q: int| 0 <= q < i && #[trigger] m[q].1.contains(x);
                    assert(mapping_ids(m).contains(x));
                }
            }
        }
        r
    }

    /// The number of frontier keys that `id` wins.
    pub fn win_count(&self, id: &str) -> (r: usize)
        ensures
            r == wins_in(self.mapping.deep_view(), id@),
    {
        let ghost m = self.mapping.deep_view();
        let ghost pred = |e: (FrontierKeyV, Seq<Seq<char>>)| e.1.contains(id@);
        let mut count: usize = 0;
        let mut i: usize = 0;
        while i < self.mapping.len()
            invariant
                i <= m.len(),
                m == self.mapping.deep_view(),
                pred == (|e: (FrontierKeyV, Seq<Seq<char>>)| e.1.contains(id@)),
                count == m.take(i as int).filter(pred).len(),
                count <= i,
            decreases m.len() - i,
        {
            let winners = &self.mapping[i].1;
            assert(winners.deep_view() == m[i as int].1);
            let mut found = false;
            let mut j: usize = 0;
            while j < winners.len()
                invariant
                    j <= winners@.len(),
                    found == exists|t: int| 0 <= t < j && winners.deep_view()[t] == id@,
                decreases winners@.len() - j,
            {
                if str_eq(winners[j].as_str(), id) {
                    assert(winners.deep_view()[j as int] == id@);
                    found = true;
                }
                j = j + 1;
            }
            assert(m.take(i + 1) =~= m.take(i as int).push(m[i as int]));
            proof {
                m.take(i as int).lemma_filter_push(m[i as int], pred);
                if found {
                    let t = choose|t: int| 0 <= t < winners@.len() && winners.deep_view()[t] == id@;
                    assert(m[i as int].1[t] == id@);
                }
                if m[i as int].1.contains(id@) {
                    let t = choose|t: int| 0 <= t < m[i as int].1.len() && m[i as int].1[t] == id@;
                    assert(winners.deep_view()[t] == id@);
                }
            }
            if found {
                count = count + 1;
            }
            i = i + 1;
        }
        assert(m.take(m.len() as int) =~= m);
        count
    }
}

/// The nodes of `pool` (in order) that win at least one key of the Pareto
/// frontier of type `frontier_type`.
pub fn non_dominated_set<'a>(
    pool: &[&'a ExperimentNode],
    frontier_type: FrontierType,
    objectives: &Objectives,
) -> (r: Vec<&'a ExperimentNode>)
    requires
        front_defined(derefs(pool@), frontier_type, objectives.metrics@),
    ensures
        refs_are(
            r@,
            derefs(pool@).filter(
                |n: ExperimentNode|
                    front_ids(front_spec(derefs(pool@), frontier_type, objectives.metrics@)).contains(n.id@),
            ),
        ),
{
    let front = pareto_front(pool, frontier_type, objectives);
    let ids = front.non_dominated_ids();
    let ghost f = front_spec(derefs(pool@), frontier_type, objectives.metrics@);
    proof {
        lemma_mapping_ids(front.mapping.deep_view(), f);
    }
    let ghost ps = derefs(pool@);
    let ghost pred = |n: ExperimentNode| front_ids(f).contains(n.id@);
    let mut out: Vec<&'a ExperimentNode> = Vec::new();
    let mut i: usize = 0;
    while i < pool.len()
        invariant
            i <= ps.len(),
            ps == derefs(pool@),
            pred == (|n: ExperimentNode| front_ids(f).contains(n.id@)),
            forall|x: Seq<char>| ids.deep_view().contains(x) <==> front_ids(f).contains(x),
            refs_are(out@, ps.take(i as int).filter(pred)),
        decreases ps.len() - i,
    {
        let node = pool[i];
        let mut hit = false;
        let mut j: usize = 0;
        while j < ids.len()
            invariant
                j <= ids@.len(),
                hit == exists|t: int| 0 <= t < j && ids.deep_view()[t] == node.id@,
            decreases ids@.len() - j,
        {
            if str_eq(ids[j].as_str(), node.id.as_str()) {
                assert(ids.deep_view()[j as int] == node.id@);
                hit = true;
            }
            j = j + 1;
        }
        assert(ps.take(i + 1) =~= ps.take(i as int).push(*node));
        proof {
            ps.take(i as int).lemma_filter_push(*node, pred);
            if ids.deep_view().contains(node.id@) {
                let t = choose|t: int| 0 <= t < ids.deep_view().len() && ids.deep_view()[t] == node.id@;
            }
        }
        if hit {
            out.push(node);
        }
        i = i + 1;
    }
    assert(ps.take(ps.len() as int) =~= ps);
    out
}

proof fn lemma_achievers_has<K>(e: Seq<(K, Seq<char>, int)>, i: int)
    requires
        0 <= i < e.len(),
    ensures
        achievers(e, e[i].0, e[i].2).contains(e[i].1),
    decreases e.len(),
{
    let p = e.drop_last();
    if i < e.len() - 1 {
        assert(p[i] == e[i]);
        lemma_achievers_has(p, i);
        let rest = achievers(p, e[i].0, e[i].2);
        let t = choose|t: int| 0 <= t < rest.len() && rest[t] == e[i].1;
        if e.last().0 == e[i].0 && e.last().2 == e[i].2 {
            assert(rest.push(e.last().1)[t] == e[i].1);
        }
    } else {
        let rest = achievers(p, e[i].0, e[i].2);
        assert(rest.push(e.last().1)[rest.len() as int] == e[i].1);
    }
}

/// Where no score is NaN, an entry whose score is the best among the
/// entries with its key keeps its id among that key's winners, whatever its
/// other scores: a specialist that wins one key stays on the frontier.
pub proof fn lemma_best_entry_wins<K>(e: Seq<(K, Seq<char>, int)>, i: int)
    requires
        0 <= i < e.len(),
        no_nan(e),
        forall|j: int| 0 <= j < e.len() && #[trigger] e[j].0 == e[i].0 ==> e[j].2 <= e[i].2,
    ensures
        best_fold(e).dom().contains(e[i].0),
        best_fold(e)[e[i].0].1.contains(e[i].1),
{
    lemma_best_fold(e, e[i].0);
    assert(e[i].0 == e[i].0);
    let b = best_fold(e)[e[i].0].0;
    let w = choose|j: int| 0 <= j < e.len() && #[trigger] e[j].0 == e[i].0 && e[j].2 == b;
    assert(e[i].2 <= b);
    assert(e[w].2 <= e[i].2);
    lemma_achievers_has(e, i);
}

proof fn lemma_node_entry_in_pool(pool: Seq<ExperimentNode>, objective: bool, metrics: Seq<Metric>, n: int, j: int)
    requires
        0 <= n < pool.len(),
        0 <= j < node_entries(pool[n], objective, metrics).len(),
    ensures
        exists|x: int| 0 <= x < pool_entries(pool, objective, metrics).len()
            && #[trigger] pool_entries(pool, objective, metrics)[x] == node_entries(pool[n], objective, metrics)[j],
    decreases pool.len(),
{
    let p = pool.drop_last();
    let pe = pool_entries(pool, objective, metrics);
    let pp = pool_entries(p, objective, metrics);
    if n < pool.len() - 1 {
        assert(p[n] == pool[n]);
        lemma_node_entry_in_pool(p, objective, metrics, n, j);
        let x = choose|x: int| 0 <= x < pp.len() && #[trigger] pp[x] == node_entries(p[n], objective, metrics)[j];
        assert(pe[x] == pp[x]);
    } else {
        assert(pe[pp.len() + j] == node_entries(pool[n], objective, metrics)[j]);
    }
}

proof fn lemma_pool_entry_from_node(pool: Seq<ExperimentNode>, objective: bool, metrics: Seq<Metric>, x: int)
    requires
        0 <= x < pool_entries(pool, objective, metrics).len(),
    ensures
        exists|n: int, j: int| 0 <= n < pool.len() && 0 <= j < node_entries(pool[n], objective, metrics).len()
            && pool_entries(pool, objective, metrics)[x] == #[trigger] node_entries(pool[n], objective, metrics)[j],
    decreases pool.len(),
{
    let p = pool.drop_last();
    let pe = pool_entries(pool, objective, metrics);
    let pp = pool_entries(p, objective, metrics);
    if x < pp.len() {
        lemma_pool_entry_from_node(p, objective, metrics, x);
        let (n, j) = choose|n: int, j: int| 0 <= n < p.len() && 0 <= j < node_entries(p[n], objective, metrics).len()
            && pp[x] == #[trigger] node_entries(p[n], objective, metrics)[j];
        assert(p[n] == pool[n]);
        assert(pe[x] == pp[x]);
    } else {
        let j = x - pp.len();
        assert(pe[x] == node_entries(pool[pool.len() - 1], objective, metrics)[j]);
    }
}

/// Where no validation score is NaN, a node that scores best (ties included)
/// on one validation example stays on the instance frontier, however low its
/// other scores or its aggregate.
pub proof fn lemma_instance_specialist_kept(pool: Seq<ExperimentNode>, metrics: Seq<Metric>, n: int, k: Seq<char>)
    requires
        0 <= n < pool.len(),
        metrics.len() > 0,
        pool[n].outcome is Some,
        pool[n].outcome->0.val_subscores@.dom().contains(k),
        forall|m: int|
            0 <= m < pool.len() && (#[trigger] pool[m]).outcome is Some
                && pool[m].outcome->0.val_subscores@.dom().contains(k) ==> directional(
                metrics[0].direction,
                pool[m].outcome->0.val_subscores@[k] as int,
            ) <= directional(metrics[0].direction, pool[n].outcome->0.val_subscores@[k] as int),
        forall|m: int, q: Seq<char>|
            #![trigger pool[m].outcome->0.val_subscores@[q]]
            0 <= m < pool.len() && pool[m].outcome is Some && pool[m].outcome->0.val_subscores@.dom().contains(q)
                ==> !is_nan_code(pool[m].outcome->0.val_subscores@[q] as int),
    ensures
        front_ids(front_spec(pool, FrontierType::Instance, metrics)).contains(pool[n].id@),
{
    let e = pool_entries(pool, false, metrics);
    let t = pool[n].outcome->0.val_subscores;
    let jn = choose|j: int| 0 <= j < t.keys().len() && t.keys()[j] == k;
    lemma_node_entry_in_pool(pool, false, metrics, n, jn);
    let x = choose|x: int| 0 <= x < e.len() && #[trigger] e[x] == node_entries(pool[n], false, metrics)[jn];
    assert forall|y: int| 0 <= y < e.len() && #[trigger] e[y].0 == e[x].0 implies e[y].2 <= e[x].2 by {
        lemma_pool_entry_from_node(pool, false, metrics, y);
        let (m, j) = choose|m: int, j: int| 0 <= m < pool.len() && 0 <= j < node_entries(pool[m], false, metrics).len()
            && e[y] == #[trigger] node_entries(pool[m], false, metrics)[j];
        let tm = pool[m].outcome->0.val_subscores;
        assert(tm@.dom().contains(tm.keys()[j]));
        assert(pool[m].outcome is Some);
    }
    assert forall|y: int| 0 <= y < e.len() implies !is_nan_code(#[trigger] e[y].2) by {
        lemma_pool_entry_from_node(pool, false, metrics, y);
        let (m, j) = choose|m: int, j: int| 0 <= m < pool.len() && 0 <= j < node_entries(pool[m], false, metrics).len()
            && e[y] == #[trigger] node_entries(pool[m], false, metrics)[j];
        let tm = pool[m].outcome->0.val_subscores;
        assert(tm@.dom().contains(tm.keys()[j]));
        assert(pool[m].outcome is Some);
    }
    lemma_best_entry_wins(e, x);
    let f = front_spec(pool, FrontierType::Instance, metrics);
    assert(f.dom().contains(FrontierKeyV::Instance(k)));
}

/// Whether node `n` has a score for objective `obj` on example `ex`.
pub open spec fn has_pair_score(n: ExperimentNode, ex: Seq<char>, obj: Seq<char>) -> bool {
    &&& n.outcome is Some
    &&& n.outcome->0.objective_subscores@.dom().contains(ex)
    &&& n.outcome->0.objective_subscores@[ex]@.dom().contains(obj)
}

/// The score (a score code) of node `n` for objective `obj` on example `ex`.
pub open spec fn pair_score(n: ExperimentNode, ex: Seq<char>, obj: Seq<char>) -> int {
    n.outcome->0.objective_subscores@[ex]@[obj] as int
}

/// Whether `e` is the (example, objective) entry of node `id`, whose
/// per-example objective scores are `outer`: a score that `outer` holds,
/// oriented by the direction of the entry's own objective.
pub open spec fn row_entry(
    outer: TextMap<TextMap<i64>>,
    id: Seq<char>,
    metrics: Seq<Metric>,
    e: ((Seq<char>, Seq<char>), Seq<char>, int),
) -> bool {
    &&& outer@.dom().contains(e.0.0)
    &&& outer@[e.0.0]@.dom().contains(e.0.1)
    &&& e.1 == id
    &&& e.2 == directional(direction_or_primary(metrics, e.0.1), outer@[e.0.0]@[e.0.1] as int)
}

proof fn lemma_pair_rows_from(outer: TextMap<TextMap<i64>>, id: Seq<char>, metrics: Seq<Metric>, upto: int, x: int)
    requires
        0 <= upto <= outer.keys().len(),
        0 <= x < pair_rows(outer, id, metrics, upto).len(),
    ensures
        row_entry(outer, id, metrics, pair_rows(outer, id, metrics, upto)[x]),
    decreases upto,
{
    let p = pair_rows(outer, id, metrics, upto - 1);
    let rows = pair_rows(outer, id, metrics, upto);
    if x < p.len() {
        lemma_pair_rows_from(outer, id, metrics, upto - 1, x);
        assert(rows[x] == p[x]);
    } else {
        let a = outer.keys()[upto - 1];
        let inner = outer@[a];
        let j = x - p.len();
        assert(rows[x] == pair_row(a, inner, id, metrics)[j]);
        assert(outer.keys().contains(a));
        assert(inner.keys().contains(inner.keys()[j]));
    }
}

proof fn lemma_pair_rows_has(
    outer: TextMap<TextMap<i64>>,
    id: Seq<char>,
    metrics: Seq<Metric>,
    upto: int,
    a: int,
    obj: Seq<char>,
)
    requires
        0 <= a < upto <= outer.keys().len(),
        outer@[outer.keys()[a]]@.dom().contains(obj),
    ensures
        pair_rows(outer, id, metrics, upto).contains(
            (
                (outer.keys()[a], obj),
                id,
                directional(direction_or_primary(metrics, obj), outer@[outer.keys()[a]]@[obj] as int),
            ),
        ),
    decreases upto,
{
    let p = pair_rows(outer, id, metrics, upto - 1);
    let rows = pair_rows(outer, id, metrics, upto);
    let ex = outer.keys()[a];
    let want = ((ex, obj), id, directional(direction_or_primary(metrics, obj), outer@[ex]@[obj] as int));
    if a < upto - 1 {
        lemma_pair_rows_has(outer, id, metrics, upto - 1, a, obj);
        let t = choose|t: int| 0 <= t < p.len() && p[t] == want;
        assert(rows[t] == want);
    } else {
        let inner = outer@[ex];
        let j = choose|j: int| 0 <= j < inner.keys().len() && inner.keys()[j] == obj;
        assert(rows[p.len() + j] == pair_row(ex, inner, id, metrics)[j]);
        assert(rows[p.len() + j] == want);
    }
}

/// Whether `e` is an (example, objective) entry of node `n`.
pub open spec fn is_pair_entry(n: ExperimentNode, metrics: Seq<Metric>, e: ((Seq<char>, Seq<char>), Seq<char>, int)) -> bool {
    n.outcome is Some && row_entry(n.outcome->0.objective_subscores, n.id@, metrics, e)
}

proof fn lemma_pool_pair_from(pool: Seq<ExperimentNode>, metrics: Seq<Metric>, x: int)
    requires
        0 <= x < pool_pair_entries(pool, metrics).len(),
    ensures
        exists|n: int| 0 <= n < pool.len() && #[trigger] is_pair_entry(pool[n], metrics, pool_pair_entries(pool, metrics)[x]),
    decreases pool.len(),
{
    let p = pool.drop_last();
    let pe = pool_pair_entries(pool, metrics);
    let pp = pool_pair_entries(p, metrics);
    if x < pp.len() {
        lemma_pool_pair_from(p, metrics, x);
        let n = choose|n: int| 0 <= n < p.len() && #[trigger] is_pair_entry(p[n], metrics, pp[x]);
        assert(p[n] == pool[n]);
        assert(pe[x] == pp[x]);
        assert(is_pair_entry(pool[n], metrics, pe[x]));
    } else {
        let last = pool[pool.len() - 1];
        let o = last.outcome->0;
        assert(pe[x] == node_pair_entries(last, metrics)[x - pp.len()]);
        lemma_pair_rows_from(o.objective_subscores, last.id@, metrics, o.objective_subscores.keys().len() as int, x - pp.len());
        assert(is_pair_entry(pool[pool.len() - 1], metrics, pe[x]));
    }
}

proof fn lemma_pool_pair_has(pool: Seq<ExperimentNode>, metrics: Seq<Metric>, n: int, ex: Seq<char>, obj: Seq<char>)
    requires
        0 <= n < pool.len(),
        has_pair_score(pool[n], ex, obj),
    ensures
        pool_pair_entries(pool, metrics).contains(
            ((ex, obj), pool[n].id@, directional(direction_or_primary(metrics, obj), pair_score(pool[n], ex, obj))),
        ),
    decreases pool.len(),
{
    let p = pool.drop_last();
    let pe = pool_pair_entries(pool, metrics);
    let pp = pool_pair_entries(p, metrics);
    let want = ((ex, obj), pool[n].id@, directional(direction_or_primary(metrics, obj), pair_score(pool[n], ex, obj)));
    if n < pool.len() - 1 {
        assert(p[n] == pool[n]);
        lemma_pool_pair_has(p, metrics, n, ex, obj);
        let t = choose|t: int| 0 <= t < pp.len() && pp[t] == want;
        assert(pe[t] == want);
    } else {
        let o = pool[n].outcome->0;
        let outer = o.objective_subscores;
        assert(outer.keys().contains(ex));
        let a = choose|a: int| 0 <= a < outer.keys().len() && outer.keys()[a] == ex;
        lemma_pair_rows_has(outer, pool[n].id@, metrics, outer.keys().len() as int, a, obj);
        let ne = node_pair_entries(pool[n], metrics);
        let t = choose|t: int| 0 <= t < ne.len() && ne[t] == want;
        assert(pe[pp.len() + t] == want);
    }
}

proof fn lemma_achievers_from<K>(e: Seq<(K, Seq<char>, int)>, k: K, b: int, id: Seq<char>)
    requires
        achievers(e, k, b).contains(id),
    ensures
        exists|i: int| 0 <= i < e.len() && #[trigger] e[i].0 == k && e[i].2 == b && e[i].1 == id,
    decreases e.len(),
{
    let p = e.drop_last();
    let rest = achievers(p, k, b);
    if e.last().0 == k && e.last().2 == b && e.last().1 == id {
        assert(e[e.len() - 1].0 == k);
    } else {
        if e.last().0 == k && e.last().2 == b {
            let t = choose|t: int| 0 <= t < rest.push(e.last().1).len() && rest.push(e.last().1)[t] == id;
            assert(t < rest.len());
            assert(rest.contains(id));
        }
        lemma_achievers_from(p, k, b, id);
        let i = choose|i: int| 0 <= i < p.len() && #[trigger] p[i].0 == k && p[i].2 == b && p[i].1 == id;
        assert(e[i] == p[i]);
    }
}

/// Whether no (example, objective) score of a node of `pool` is NaN.
pub open spec fn no_nan_pair_scores(pool: Seq<ExperimentNode>) -> bool {
    forall|m: int, ex: Seq<char>, obj: Seq<char>|
        0 <= m < pool.len() && #[trigger] has_pair_score(pool[m], ex, obj) ==> !is_nan_code(pair_score(pool[m], ex, obj))
}

proof fn lemma_pair_entries_no_nan(pool: Seq<ExperimentNode>, metrics: Seq<Metric>)
    requires
        no_nan_pair_scores(pool),
    ensures
        no_nan(pool_pair_entries(pool, metrics)),
{
    let e = pool_pair_entries(pool, metrics);
    assert forall|y: int| 0 <= y < e.len() implies !is_nan_code(#[trigger] e[y].2) by {
        lemma_pool_pair_from(pool, metrics, y);
        let m = choose|m: int| 0 <= m < pool.len() && #[trigger] is_pair_entry(pool[m], metrics, e[y]);
        assert(has_pair_score(pool[m], e[y].0.0, e[y].0.1));
    }
}

/// Where no (example, objective) score is NaN, each (example, objective)
/// key of the Cartesian frontier is oriented by that objective's own
/// direction: a node whose score for the pair is best under that direction
/// (the lowest for a minimized objective, the highest for a maximized one),
/// ties included, wins the key whatever its other scores; and every node
/// that wins the key scores for the pair, no node of the pool doing
/// strictly better under that direction.
pub proof fn lemma_cartesian_orientation(pool: Seq<ExperimentNode>, metrics: Seq<Metric>, n: int, ex: Seq<char>, obj: Seq<char>)
    requires
        0 <= n < pool.len(),
        has_pair_score(pool[n], ex, obj),
        no_nan_pair_scores(pool),
    ensures
        front_spec(pool, FrontierType::Cartesian, metrics).dom().contains(FrontierKeyV::Cartesian(ex, obj)),
        (forall|m: int|
            0 <= m < pool.len() && #[trigger] has_pair_score(pool[m], ex, obj) ==> !better(
                direction_or_primary(metrics, obj),
                pair_score(pool[m], ex, obj),
                pair_score(pool[n], ex, obj),
            )) ==> front_spec(pool, FrontierType::Cartesian, metrics)[FrontierKeyV::Cartesian(ex, obj)].contains(
            pool[n].id@,
        ),
        forall|id: Seq<char>|
            #[trigger] front_spec(pool, FrontierType::Cartesian, metrics)[FrontierKeyV::Cartesian(ex, obj)].contains(id)
                ==> exists|w: int|
                0 <= w < pool.len() && pool[w].id@ == id && #[trigger] has_pair_score(pool[w], ex, obj) && forall|m: int|
                    0 <= m < pool.len() && #[trigger] has_pair_score(pool[m], ex, obj) ==> !better(
                        direction_or_primary(metrics, obj),
                        pair_score(pool[m], ex, obj),
                        pair_score(pool[w], ex, obj),
                    ),
{
    let e = pool_pair_entries(pool, metrics);
    let k = (ex, obj);
    let dir = direction_or_primary(metrics, obj);
    let f = front_spec(pool, FrontierType::Cartesian, metrics);
    lemma_pool_pair_has(pool, metrics, n, ex, obj);
    let want = (k, pool[n].id@, directional(dir, pair_score(pool[n], ex, obj)));
    let xn = choose|x: int| 0 <= x < e.len() && e[x] == want;
    assert(e[xn].0 == k);
    assert(has_entry(e, k));
    lemma_pair_entries_no_nan(pool, metrics);
    lemma_best_fold(e, k);
    assert(f == lift_pairs(best_fold(e)));
    let b = best_fold(e)[k].0;
    assert(f[FrontierKeyV::Cartesian(ex, obj)] == achievers(e, k, b));
    assert forall|m: int| 0 <= m < pool.len() && #[trigger] has_pair_score(pool[m], ex, obj) implies directional(
        dir,
        pair_score(pool[m], ex, obj),
    ) <= b by {
        lemma_pool_pair_has(pool, metrics, m, ex, obj);
        let wm = (k, pool[m].id@, directional(dir, pair_score(pool[m], ex, obj)));
        let xm = choose|x: int| 0 <= x < e.len() && e[x] == wm;
        assert(e[xm].0 == k);
    }
    if forall|m: int|
        0 <= m < pool.len() && #[trigger] has_pair_score(pool[m], ex, obj) ==> !better(
            dir,
            pair_score(pool[m], ex, obj),
            pair_score(pool[n], ex, obj),
        ) {
        let wi = choose|i: int| 0 <= i < e.len() && #[trigger] e[i].0 == k && e[i].2 == b;
        lemma_pool_pair_from(pool, metrics, wi);
        let mw = choose|m: int| 0 <= m < pool.len() && #[trigger] is_pair_entry(pool[m], metrics, e[wi]);
        assert(has_pair_score(pool[mw], ex, obj));
        assert(!better(dir, pair_score(pool[mw], ex, obj), pair_score(pool[n], ex, obj)));
        assert(e[xn].2 == b);
        lemma_achievers_has(e, xn);
    }
    assert forall|id: Seq<char>| #[trigger] f[FrontierKeyV::Cartesian(ex, obj)].contains(id) implies exists|w: int|
        0 <= w < pool.len() && pool[w].id@ == id && #[trigger] has_pair_score(pool[w], ex, obj) && forall|m: int|
            0 <= m < pool.len() && #[trigger] has_pair_score(pool[m], ex, obj) ==> !better(
                dir,
                pair_score(pool[m], ex, obj),
                pair_score(pool[w], ex, obj),
            ) by {
        lemma_achievers_from(e, k, b, id);
        let i = choose|i: int| 0 <= i < e.len() && #[trigger] e[i].0 == k && e[i].2 == b && e[i].1 == id;
        lemma_pool_pair_from(pool, metrics, i);
        let w = choose|m: int| 0 <= m < pool.len() && #[trigger] is_pair_entry(pool[m], metrics, e[i]);
        assert(has_pair_score(pool[w], ex, obj));
        assert forall|m: int| 0 <= m < pool.len() && #[trigger] has_pair_score(pool[m], ex, obj) implies !better(
            dir,
            pair_score(pool[m], ex, obj),
            pair_score(pool[w], ex, obj),
        ) by {
            assert(directional(dir, pair_score(pool[m], ex, obj)) <= b);
        }
    }
}

/// Whether node `n` has a score for objective `obj`.
pub open spec fn has_objective_score(n: ExperimentNode, obj: Seq<char>) -> bool {
    n.outcome is Some && n.outcome->0.objective_scores@.dom().contains(obj)
}

/// The score (a score code) of node `n` for objective `obj`.
pub open spec fn objective_score(n: ExperimentNode, obj: Seq<char>) -> int {
    n.outcome->0.objective_scores@[obj] as int
}

/// Whether no objective score of a node of `pool` is NaN.
pub open spec fn no_nan_objective_scores(pool: Seq<ExperimentNode>) -> bool {
    forall|m: int, obj: Seq<char>|
        0 <= m < pool.len() && #[trigger] has_objective_score(pool[m], obj) ==> !is_nan_code(objective_score(pool[m], obj))
}

proof fn lemma_objective_entry(pool: Seq<ExperimentNode>, metrics: Seq<Metric>, y: int)
    requires
        0 <= y < pool_entries(pool, true, metrics).len(),
    ensures
        exists|m: int|
            0 <= m < pool.len() && #[trigger] has_objective_score(pool[m], pool_entries(pool, true, metrics)[y].0)
                && pool_entries(pool, true, metrics)[y].1 == pool[m].id@ && pool_entries(pool, true, metrics)[y].2
                == directional(
                direction_or_primary(metrics, pool_entries(pool, true, metrics)[y].0),
                objective_score(pool[m], pool_entries(pool, true, metrics)[y].0),
            ),
{
    let e = pool_entries(pool, true, metrics);
    lemma_pool_entry_from_node(pool, true, metrics, y);
    let (m, j) = choose|m: int, j: int| 0 <= m < pool.len() && 0 <= j < node_entries(pool[m], true, metrics).len()
        && e[y] == #[trigger] node_entries(pool[m], true, metrics)[j];
    let t = pool[m].outcome->0.objective_scores;
    assert(t.keys().contains(t.keys()[j]));
    assert(has_objective_score(pool[m], e[y].0));
}

proof fn lemma_objective_entry_present(pool: Seq<ExperimentNode>, metrics: Seq<Metric>, n: int, obj: Seq<char>)
    requires
        0 <= n < pool.len(),
        has_objective_score(pool[n], obj),
    ensures
        pool_entries(pool, true, metrics).contains(
            (obj, pool[n].id@, directional(direction_or_primary(metrics, obj), objective_score(pool[n], obj))),
        ),
{
    let e = pool_entries(pool, true, metrics);
    let t = pool[n].outcome->0.objective_scores;
    assert(t.keys().contains(obj));
    let j = choose|j: int| 0 <= j < t.keys().len() && t.keys()[j] == obj;
    lemma_node_entry_in_pool(pool, true, metrics, n, j);
    let x = choose|x: int| 0 <= x < e.len() && #[trigger] e[x] == node_entries(pool[n], true, metrics)[j];
    assert(e[x] == (obj, pool[n].id@, directional(direction_or_primary(metrics, obj), objective_score(pool[n], obj))));
}

/// Where no objective score is NaN, each objective key of the objective
/// frontier is oriented by that objective's own direction: a node whose
/// score for it is best under that direction (the lowest for a minimized
/// objective), ties included, wins the key; and every node that wins the
/// key scores for the objective, no node of the pool doing strictly better
/// under that direction.
pub proof fn lemma_objective_orientation(pool: Seq<ExperimentNode>, metrics: Seq<Metric>, n: int, obj: Seq<char>)
    requires
        0 <= n < pool.len(),
        has_objective_score(pool[n], obj),
        no_nan_objective_scores(pool),
    ensures
        front_spec(pool, FrontierType::Objective, metrics).dom().contains(FrontierKeyV::Objective(obj)),
        (forall|m: int|
            0 <= m < pool.len() && #[trigger] has_objective_score(pool[m], obj) ==> !better(
                direction_or_primary(metrics, obj),
                objective_score(pool[m], obj),
                objective_score(pool[n], obj),
            )) ==> front_spec(pool, FrontierType::Objective, metrics)[FrontierKeyV::Objective(obj)].contains(pool[n].id@),
        forall|id: Seq<char>|
            #[trigger] front_spec(pool, FrontierType::Objective, metrics)[FrontierKeyV::Objective(obj)].contains(id)
                ==> exists|w: int|
                0 <= w < pool.len() && pool[w].id@ == id && #[trigger] has_objective_score(pool[w], obj) && forall|m: int|
                    0 <= m < pool.len() && #[trigger] has_objective_score(pool[m], obj) ==> !better(
                        direction_or_primary(metrics, obj),
                        objective_score(pool[m], obj),
                        objective_score(pool[w], obj),
                    ),
{
    let e = pool_entries(pool, true, metrics);
    let dir = direction_or_primary(metrics, obj);
    let f = front_spec(pool, FrontierType::Objective, metrics);
    lemma_objective_entry_present(pool, metrics, n, obj);
    let want = (obj, pool[n].id@, directional(dir, objective_score(pool[n], obj)));
    let xn = choose|x: int| 0 <= x < e.len() && e[x] == want;
    assert(e[xn].0 == obj);
    assert(has_entry(e, obj));
    assert forall|y: int| 0 <= y < e.len() implies !is_nan_code(#[trigger] e[y].2) by {
        lemma_objective_entry(pool, metrics, y);
    }
    lemma_best_fold(e, obj);
    let b = best_fold(e)[obj].0;
    assert(f[FrontierKeyV::Objective(obj)] == achievers(e, obj, b));
    assert forall|m: int| 0 <= m < pool.len() && #[trigger] has_objective_score(pool[m], obj) implies directional(
        dir,
        objective_score(pool[m], obj),
    ) <= b by {
        lemma_objective_entry_present(pool, metrics, m, obj);
        let wm = (obj, pool[m].id@, directional(dir, objective_score(pool[m], obj)));
        let xm = choose|x: int| 0 <= x < e.len() && e[x] == wm;
        assert(e[xm].0 == obj);
    }
    if forall|m: int|
        0 <= m < pool.len() && #[trigger] has_objective_score(pool[m], obj) ==> !better(
            dir,
            objective_score(pool[m], obj),
            objective_score(pool[n], obj),
        ) {
        let wi = choose|i: int| 0 <= i < e.len() && #[trigger] e[i].0 == obj && e[i].2 == b;
        lemma_objective_entry(pool, metrics, wi);
        let mw = choose|m: int| 0 <= m < pool.len() && #[trigger] has_objective_score(pool[m], e[wi].0) && e[wi].1
            == pool[m].id@ && e[wi].2 == directional(direction_or_primary(metrics, e[wi].0), objective_score(pool[m], e[wi].0));
        assert(!better(dir, objective_score(pool[mw], obj), objective_score(pool[n], obj)));
        assert(e[xn].2 == b);
        lemma_achievers_has(e, xn);
    }
    assert forall|id: Seq<char>| #[trigger] f[FrontierKeyV::Objective(obj)].contains(id) implies exists|w: int|
        0 <= w < pool.len() && pool[w].id@ == id && #[trigger] has_objective_score(pool[w], obj) && forall|m: int|
            0 <= m < pool.len() && #[trigger] has_objective_score(pool[m], obj) ==> !better(
                dir,
                objective_score(pool[m], obj),
                objective_score(pool[w], obj),
            ) by {
        lemma_achievers_from(e, obj, b, id);
        let i = choose|i: int| 0 <= i < e.len() && #[trigger] e[i].0 == obj && e[i].2 == b && e[i].1 == id;
        lemma_objective_entry(pool, metrics, i);
        let w = choose|m: int| 0 <= m < pool.len() && #[trigger] has_objective_score(pool[m], e[i].0) && e[i].1
            == pool[m].id@ && e[i].2 == directional(direction_or_primary(metrics, e[i].0), objective_score(pool[m], e[i].0));
        assert forall|m: int| 0 <= m < pool.len() && #[trigger] has_objective_score(pool[m], obj) implies !better(
            dir,
            objective_score(pool[m], obj),
            objective_score(pool[w], obj),
        ) by {
            assert(directional(dir, objective_score(pool[m], obj)) <= b);
        }
    }
}
} // verus!
