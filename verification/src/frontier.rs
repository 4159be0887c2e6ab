//! Ranking the research frontier: which nodes to expand next.

use vstd::prelude::*;

use crate::graph::{is_evaluated, is_frontier, nodes_in_order, refs_are, ExperimentGraph, ExperimentNode, ResearchMode};
use crate::acceptance::{verdict_is, AcceptanceCriterion, AcceptanceVerdict};
use crate::keyed::DeepClone;
use crate::outcome::{code_is_nan, directional, is_nan_code, Metric, MetricDirection, TaskScore};
use crate::outcome::Objectives;
use crate::pareto::{best_fold, best_record, best_view, derefs, front_ids, front_spec, mapping_is, non_dominated_set, pareto_front, wins_in, FrontierKeyV};
use crate::textmap::TextMap;
use crate::pareto::FrontierType;
use crate::text::{decimal, decimal_chars, push_chars, push_str, seq_lt, sorted_strict, str_lt};

verus! {

/// How the frontier is ranked. The two sampling strategies carry their
/// floating-point parameters as `f64::to_bits` patterns.
#[derive(Debug, PartialEq, Eq)]
pub enum FrontierStrategy {
    /// The single best node.
    ArgMax,
    /// The `k` best nodes.
    TopK { k: usize },
    /// With probability `epsilon` a seeded random tip, else the best one.
    EpsilonGreedy { epsilon_bits: u64, seed: u64 },
    /// `k` tips sampled without replacement, weighted by a softmax of their
    /// scores at `temperature`.
    Softmax { temperature_bits: u64, k: usize, seed: u64 },
    /// Tips that win at least one task shared by all of them, at most `k`;
    /// maximized task scores at or below `task_floor` (a score code) win
    /// nothing.
    ParetoPerTask { k: usize, task_floor: i64 },
    /// The non-dominated set over the evaluated pool, ranked by the number of
    /// frontier keys won.
    Pareto { frontier_type: FrontierType, objectives: Vec<Metric> },
}

impl Default for FrontierStrategy {
    fn default() -> (r: Self)
        ensures
            r == (FrontierStrategy::TopK { k: 5 }),
    {
        FrontierStrategy::TopK { k: 5 }
    }
}

/// A node chosen for expansion, with its rank (from 1) and why.
#[derive(Debug, PartialEq, Eq)]
pub struct RankedCandidate {
    pub id: String,
    pub rank: usize,
    /// The node's score (a score code).
    pub score: Option<i64>,
    pub mode: ResearchMode,
    pub reason: String,
    /// Why acceptance rejected the candidate, when it was enforced and did.
    pub reject_reason: Option<String>,
}

/// Whether `c` presents `node` at rank `rank` for `reason`.
pub open spec fn presents(c: RankedCandidate, node: ExperimentNode, rank: int, reason: Seq<char>) -> bool {
    &&& c.id@ == node.id@
    &&& c.rank == rank
    &&& c.score == node.score
    &&& c.mode == node.hypothesis.mode
    &&& c.reason@ == reason
    &&& c.reject_reason is None
}

/// The candidate presenting `node` at `rank` for `reason`.
fn candidate(node: &ExperimentNode, rank: usize, reason: &str) -> (r: RankedCandidate)
    ensures
        presents(r, *node, rank as int, reason@),
{
    RankedCandidate {
        id: node.id.clone(),
        rank,
        score: node.score,
        mode: node.mode(),
        reason: reason.to_owned(),
        reject_reason: None,
    }
}

/// The code of negative infinity, the score of a node without one.
pub open spec fn neg_inf_code() -> int {
    -0x7ff0_0000_0000_0000
}

/// The oriented score a node is ranked by: negative infinity without a score.
pub open spec fn rank_score(d: MetricDirection, score: Option<i64>) -> int {
    match score {
        Some(c) => directional(d, c as int),
        None => neg_inf_code(),
    }
}

/// A node waiting to be ranked: the frontier keys (or tasks) it wins and
/// its oriented score.
pub struct Ranked<'a> {
    pub wins: usize,
    pub key: i128,
    pub node: &'a ExperimentNode,
}

/// Whether `a` ranks before `b`: more wins, then a higher oriented score,
/// then a smaller id.
pub open spec fn rank_before(a: Ranked, b: Ranked) -> bool {
    a.wins > b.wins || (a.wins == b.wins && (a.key > b.key || (a.key == b.key && seq_lt(
        a.node.id@,
        b.node.id@,
    ))))
}

/// The position of the first item of `s` that nothing in `s` ranks before.
pub open spec fn first_best(s: Seq<Ranked>) -> int
    decreases s.len(),
{
    if s.len() <= 1 {
        0
    } else {
        let j = first_best(s.drop_last());
        if rank_before(s.last(), s[j]) {
            s.len() - 1
        } else {
            j
        }
    }
}

/// The items of `s` in ranking order, ties kept in their order in `s` (a
/// stable sort).
pub open spec fn rank_sorted(s: Seq<Ranked>) -> Seq<Ranked>
    decreases s.len(),
{
    if s.len() == 0 {
        Seq::empty()
    } else {
        let b = first_best(s);
        proof {
            lemma_first_best_bounds(s);
        }
        seq![s[b]] + rank_sorted(s.remove(b))
    }
}

/// The first best item is one of the items.
pub proof fn lemma_first_best_bounds(s: Seq<Ranked>)
    requires
        s.len() > 0,
    ensures
        0 <= first_best(s) < s.len(),
    decreases s.len(),
{
    if s.len() > 1 {
        lemma_first_best_bounds(s.drop_last());
    }
}

/// The position of the first best item of `items` (see [`first_best`]).
fn find_best(items: &Vec<Ranked>) -> (r: usize)
    requires
        items@.len() > 0,
    ensures
        r == first_best(items@),
        r < items@.len(),
{
    let mut j: usize = 0;
    let mut i: usize = 1;
    while i < items.len()
        invariant
            1 <= i <= items@.len(),
            j == first_best(items@.take(i as int)),
            j < i,
        decreases items@.len() - i,
    {
        let ghost t = items@.take(i + 1);
        assert(t.drop_last() =~= items@.take(i as int));
        let a = &items[i];
        let b = &items[j];
        let before = a.wins > b.wins || (a.wins == b.wins && (a.key > b.key || (a.key == b.key
            && str_lt(a.node.id.as_str(), b.node.id.as_str()))));
        if before {
            j = i;
        }
        i = i + 1;
    }
    assert(items@.take(items@.len() as int) =~= items@);
    j
}

/// The items in ranking order, ties kept in their given order.
pub fn sort_ranked<'a>(items: Vec<Ranked<'a>>) -> (r: Vec<Ranked<'a>>)
    ensures
        r@ == rank_sorted(items@),
{
    let ghost orig = items@;
    let mut rest = items;
    let mut out: Vec<Ranked<'a>> = Vec::new();
    while rest.len() > 0
        invariant
            out@ + rank_sorted(rest@) == rank_sorted(orig),
        decreases rest@.len(),
    {
        let b = find_best(&rest);
        let ghost before = rest@;
        let x = rest.remove(b);
        assert(rest@ == before.remove(b as int));
        let ghost prev = out@;
        out.push(x);
        assert(rank_sorted(before) == seq![x] + rank_sorted(rest@));
        assert(prev + rank_sorted(before) =~= out@ + rank_sorted(rest@));
    }
    assert(out@ + rank_sorted(rest@) =~= out@);
    out
}

/// The nodes `nodes` to rank, each with no wins.
pub open spec fn unranked(nodes: Seq<&ExperimentNode>, d: MetricDirection) -> Seq<Ranked> {
    Seq::new(
        nodes.len(),
        |i: int| Ranked { wins: 0, key: rank_score(d, nodes[i].score) as i128, node: nodes[i] },
    )
}

/// `nodes` paired with their oriented scores and no wins.
fn plain_ranked<'a>(nodes: &Vec<&'a ExperimentNode>, d: MetricDirection) -> (r: Vec<Ranked<'a>>)
    ensures
        r@ == unranked(nodes@, d),
{
    let mut out: Vec<Ranked<'a>> = Vec::new();
    let mut i: usize = 0;
    while i < nodes.len()
        invariant
            i <= nodes@.len(),
            out@ == unranked(nodes@.take(i as int), d),
        decreases nodes@.len() - i,
    {
        let node = nodes[i];
        let key: i128 = match node.score {
            Some(c) => d.directional_score(c),
            None => -0x7ff0_0000_0000_0000i128,
        };
        let ghost prev = out@;
        out.push(Ranked { wins: 0, key, node });
        assert(out@ =~= unranked(nodes@.take(i + 1), d));
        i = i + 1;
    }
    assert(nodes@.take(nodes@.len() as int) =~= nodes@);
    out
}

/// Whether `r` presents the first `n` items of `sorted` at ranks 1, 2, ...
/// for `reason`.
pub open spec fn presents_ranked(r: Seq<RankedCandidate>, sorted: Seq<Ranked>, n: int, reason: Seq<char>) -> bool {
    &&& r.len() == n
    &&& forall|i: int| 0 <= i < n ==> presents(#[trigger] r[i], *sorted[i].node, i + 1, reason)
}

/// The number of candidates a top-`k` ranking of `len` nodes keeps.
pub open spec fn keep_count(len: int, k: int) -> int {
    let k1 = if k < 1 { 1 } else { k };
    if len < k1 { len } else { k1 }
}

/// The `k` best (at least one) of `nodes`, by oriented score and then id,
/// ranked from 1 for `reason`.
pub fn top_k(nodes: Vec<&ExperimentNode>, metric: &Metric, k: usize, reason: &str) -> (r: Vec<RankedCandidate>)
    ensures
        presents_ranked(
            r@,
            rank_sorted(unranked(nodes@, metric.direction)),
            keep_count(nodes@.len() as int, k as int),
            reason@,
        ),
{
    let sorted = sort_ranked(plain_ranked(&nodes, metric.direction));
    let keep = if k < 1 { 1 } else { k };
    let mut out: Vec<RankedCandidate> = Vec::new();
    let mut i: usize = 0;
    proof {
        lemma_rank_sorted_len(unranked(nodes@, metric.direction));
    }
    while i < sorted.len() && i < keep
        invariant
            i <= sorted@.len(),
            i <= keep,
            keep == (if k < 1 { 1 } else { k }),
            sorted@.len() == nodes@.len(),
            out@.len() == i,
            forall|q: int| 0 <= q < i ==> presents(#[trigger] out@[q], *sorted@[q].node, q + 1, reason@),
        decreases sorted@.len() - i,
    {
        out.push(candidate(sorted[i].node, i + 1, reason));
        i = i + 1;
    }
    assert(i == keep_count(nodes@.len() as int, k as int));
    out
}

/// The epsilon-greedy ranking of the frontier tips `nodes`: where the draw
/// explores, the tip at position `chosen` (the one the caller's draw picked)
/// alone, ranked first; else the best tip.
pub fn epsilon_greedy_rank(nodes: Vec<&ExperimentNode>, metric: &Metric, explore: bool, chosen: usize) -> (r: Vec<
    RankedCandidate,
>)
    requires
        chosen < nodes@.len(),
    ensures
        explore ==> r@.len() == 1 && presents(r@[0], *nodes@[chosen as int], 1, "epsilon_greedy_explore"@),
        !explore ==> presents_ranked(
            r@,
            rank_sorted(unranked(nodes@, metric.direction)),
            keep_count(nodes@.len() as int, 1),
            "epsilon_greedy_exploit"@,
        ),
{
    if explore {
        let mut out: Vec<RankedCandidate> = Vec::new();
        out.push(candidate(nodes[chosen], 1, "epsilon_greedy_explore"));
        out
    } else {
        top_k(nodes, metric, 1, "epsilon_greedy_exploit")
    }
}

/// The tips `nodes` taken in the order `order` (positions into `nodes`, as
/// the caller's weighted draw sorted them): the first `k` (at least one),
/// ranked from 1 for `reason`.
pub fn rank_in_order(nodes: &Vec<&ExperimentNode>, order: &Vec<usize>, k: usize, reason: &str) -> (r: Vec<
    RankedCandidate,
>)
    requires
        forall|i: int| 0 <= i < order@.len() ==> order@[i] < nodes@.len(),
    ensures
        r@.len() == keep_count(order@.len() as int, k as int),
        forall|i: int| 0 <= i < r@.len() ==> presents(#[trigger] r@[i], *nodes@[order@[i] as int], i + 1, reason@),
{
    let keep = if k < 1 { 1 } else { k };
    let mut out: Vec<RankedCandidate> = Vec::new();
    let mut i: usize = 0;
    while i < order.len() && i < keep
        invariant
            i <= order@.len(),
            i <= keep,
            keep == (if k < 1 { 1 } else { k }),
            out@.len() == i,
            forall|t: int| 0 <= t < order@.len() ==> order@[t] < nodes@.len(),
            forall|q: int| 0 <= q < i ==> presents(#[trigger] out@[q], *nodes@[order@[q] as int], q + 1, reason@),
        decreases order@.len() - i,
    {
        out.push(candidate(nodes[order[i]], i + 1, reason));
        i = i + 1;
    }
    out
}

/// Whether candidate `a` ranks before candidate `b` by oriented score
/// (unscored last) and then id.
pub open spec fn score_before(d: MetricDirection, a_score: Option<i64>, a_id: Seq<char>, b_score: Option<i64>, b_id: Seq<char>) -> bool {
    rank_score(d, a_score) > rank_score(d, b_score) || (rank_score(d, a_score) == rank_score(d, b_score) && seq_lt(
        a_id,
        b_id,
    ))
}

/// Top-k ranking keeps `max(k, 1)` of the nodes (all of them when fewer),
/// ranked from 1 for `reason` with no rejection reason, each ranked no lower
/// than the one after it by oriented score and then id; and every node left
/// out ranks no higher than the last one kept.
pub proof fn lemma_top_k(nodes: Seq<&ExperimentNode>, d: MetricDirection, k: int, reason: Seq<char>, r: Seq<RankedCandidate>)
    requires
        presents_ranked(r, rank_sorted(unranked(nodes, d)), keep_count(nodes.len() as int, k), reason),
    ensures
        r.len() == keep_count(nodes.len() as int, k),
        forall|i: int| 0 <= i < r.len() ==> (#[trigger] r[i]).rank == i + 1 && r[i].reason@ == reason && r[i].reject_reason is None,
        forall|i: int, j: int|
            0 <= i < j < r.len() ==> !score_before(d, (#[trigger] r[j]).score, r[j].id@, (#[trigger] r[i]).score, r[i].id@),
        forall|x: int|
            0 <= x < nodes.len() ==> (exists|i: int| 0 <= i < r.len() && (#[trigger] r[i]).id@ == nodes[x].id@) || !score_before(
                d,
                (#[trigger] nodes[x]).score,
                nodes[x].id@,
                r.last().score,
                r.last().id@,
            ),
{
    broadcast use vstd::seq_lib::group_to_multiset_ensures;
    let u = unranked(nodes, d);
    let sorted = rank_sorted(u);
    let n = keep_count(nodes.len() as int, k);
    lemma_rank_sorted_len(u);
    lemma_rank_sorted_sorts(u);
    assert forall|i: int| 0 <= i < sorted.len() implies (#[trigger] sorted[i]).wins == 0 && sorted[i].key == rank_score(
        d,
        sorted[i].node.score,
    ) by {
        assert(sorted.to_multiset().count(sorted[i]) > 0);
        assert(u.contains(sorted[i]));
    }
    assert forall|i: int, j: int| 0 <= i < j < r.len() implies !score_before(
        d,
        (#[trigger] r[j]).score,
        r[j].id@,
        (#[trigger] r[i]).score,
        r[i].id@,
    ) by {
        assert(presents(r[i], *sorted[i].node, i + 1, reason));
        assert(presents(r[j], *sorted[j].node, j + 1, reason));
        assert(!rank_before(sorted[j], sorted[i]));
    }
    assert forall|x: int| 0 <= x < nodes.len() implies (exists|i: int|
        0 <= i < r.len() && (#[trigger] r[i]).id@ == nodes[x].id@) || !score_before(
        d,
        (#[trigger] nodes[x]).score,
        nodes[x].id@,
        r.last().score,
        r.last().id@,
    ) by {
        assert(u[x].node == nodes[x]);
        assert(u.contains(u[x]));
        assert(u.to_multiset().count(u[x]) > 0);
        assert(sorted.contains(u[x]));
        let p = choose|p: int| 0 <= p < sorted.len() && sorted[p] == u[x];
        if p < n {
            assert(presents(r[p], *sorted[p].node, p + 1, reason));
            assert(r[p].id@ == nodes[x].id@);
        } else {
            assert(presents(r[n - 1], *sorted[n - 1].node, n, reason));
            if n - 1 < p {
                assert(!rank_before(sorted[p], sorted[n - 1]));
            }
        }
    }
}

/// Every item a per-task ranking considers is a node of `nodes` that wins
/// at least one of the tasks `ts`, with its oriented score as key; and every
/// such node is one.
proof fn lemma_task_items(nodes: Seq<&ExperimentNode>, all: Seq<&ExperimentNode>, d: MetricDirection, floor: i64, ts: Seq<Seq<char>>)
    ensures
        forall|i: int| 0 <= i < task_items(nodes, all, d, floor, ts).len() ==> ({
            let it = #[trigger] task_items(nodes, all, d, floor, ts)[i];
            &&& it.wins > 0
            &&& it.key == rank_score(d, it.node.score)
            &&& win_total(all, d, floor, ts, it.node.id@) > 0
            &&& it.wins == capped(win_total(all, d, floor, ts, it.node.id@))
            &&& nodes.contains(it.node)
        }),
        forall|x: int|
            0 <= x < nodes.len() && win_total(all, d, floor, ts, (#[trigger] nodes[x]).id@) > 0 ==> task_items(
                nodes,
                all,
                d,
                floor,
                ts,
            ).contains(Ranked { wins: capped(win_total(all, d, floor, ts, nodes[x].id@)), key: rank_score(d, nodes[x].score) as i128, node: nodes[x] }),
    decreases nodes.len(),
{
    if nodes.len() > 0 {
        let p = nodes.drop_last();
        lemma_task_items(p, all, d, floor, ts);
        let rest = task_items(p, all, d, floor, ts);
        let items = task_items(nodes, all, d, floor, ts);
        assert forall|i: int| 0 <= i < items.len() implies ({
            let it = #[trigger] items[i];
            &&& it.wins > 0
            &&& it.key == rank_score(d, it.node.score)
            &&& win_total(all, d, floor, ts, it.node.id@) > 0
            &&& it.wins == capped(win_total(all, d, floor, ts, it.node.id@))
            &&& nodes.contains(it.node)
        }) by {
            if i < rest.len() {
                assert(items[i] == rest[i]);
                let q = choose|q: int| 0 <= q < p.len() && p[q] == rest[i].node;
                assert(nodes[q] == p[q]);
            } else {
                assert(nodes[nodes.len() - 1] == nodes.last());
            }
        }
        assert forall|x: int|
            0 <= x < nodes.len() && win_total(all, d, floor, ts, (#[trigger] nodes[x]).id@) > 0 implies items.contains(
            Ranked { wins: capped(win_total(all, d, floor, ts, nodes[x].id@)), key: rank_score(d, nodes[x].score) as i128, node: nodes[x] },
        ) by {
            let want = Ranked { wins: capped(win_total(all, d, floor, ts, nodes[x].id@)), key: rank_score(d, nodes[x].score) as i128, node: nodes[x] };
            if x < p.len() {
                assert(p[x] == nodes[x]);
                let q = choose|q: int| 0 <= q < rest.len() && rest[q] == want;
                assert(items[q] == want);
            } else {
                assert(items[items.len() - 1] == want);
            }
        }
    }
}

/// Where the nodes share tasks and some node wins one, the per-task ranking
/// keeps `max(k, 1)` of the winning nodes (all when fewer), ranked from 1
/// with their win counts in the reason; each ranks no lower than the one
/// after it by wins, then oriented score, then id; and every winning node
/// left out ranks no higher than the last one kept.
pub proof fn lemma_per_task_ranking(
    nodes: Seq<&ExperimentNode>,
    d: MetricDirection,
    k: int,
    floor: i64,
    ts: Seq<Seq<char>>,
    r: Seq<RankedCandidate>,
)
    requires
        task_items(nodes, nodes, d, floor, ts).len() > 0,
        presents_task_wins(
            r,
            rank_sorted(task_items(nodes, nodes, d, floor, ts)),
            keep_count(task_items(nodes, nodes, d, floor, ts).len() as int, k),
        ),
    ensures
        r.len() == keep_count(task_items(nodes, nodes, d, floor, ts).len() as int, k),
        forall|i: int| 0 <= i < r.len() ==> ({
            let it = #[trigger] rank_sorted(task_items(nodes, nodes, d, floor, ts))[i];
            &&& r[i].rank == i + 1
            &&& r[i].id@ == it.node.id@
            &&& r[i].reason@ == "pareto_per_task:wins="@ + decimal(it.wins as nat)
            &&& r[i].reject_reason is None
            &&& it.wins > 0
            &&& it.wins == capped(win_total(nodes, d, floor, ts, it.node.id@))
        }),
        forall|i: int, j: int|
            0 <= i < j < r.len() ==> !rank_before(
                #[trigger] rank_sorted(task_items(nodes, nodes, d, floor, ts))[j],
                #[trigger] rank_sorted(task_items(nodes, nodes, d, floor, ts))[i],
            ),
        forall|i: int, j: int|
            0 <= i < j < r.len() ==> ({
                let a = #[trigger] rank_sorted(task_items(nodes, nodes, d, floor, ts))[i];
                let b = #[trigger] rank_sorted(task_items(nodes, nodes, d, floor, ts))[j];
                &&& a.wins >= b.wins
                &&& a.wins == b.wins ==> a.key >= b.key
                &&& a.wins == b.wins && a.key == b.key ==> !seq_lt(b.node.id@, a.node.id@)
            }),
        forall|x: int|
            0 <= x < nodes.len() && win_total(nodes, d, floor, ts, (#[trigger] nodes[x]).id@) > 0 ==> (exists|i: int|
                0 <= i < r.len() && (#[trigger] r[i]).id@ == nodes[x].id@) || !rank_before(
                Ranked { wins: capped(win_total(nodes, d, floor, ts, nodes[x].id@)), key: rank_score(d, nodes[x].score) as i128, node: nodes[x] },
                rank_sorted(task_items(nodes, nodes, d, floor, ts))[r.len() - 1],
            ),
{
    broadcast use vstd::seq_lib::group_to_multiset_ensures;
    let u = task_items(nodes, nodes, d, floor, ts);
    let sorted = rank_sorted(u);
    let n = keep_count(u.len() as int, k);
    lemma_rank_sorted_len(u);
    lemma_rank_sorted_sorts(u);
    lemma_rank_sorted_order(u);
    lemma_task_items(nodes, nodes, d, floor, ts);
    assert forall|i: int| 0 <= i < r.len() implies ({
        let it = #[trigger] rank_sorted(task_items(nodes, nodes, d, floor, ts))[i];
        &&& r[i].rank == i + 1
        &&& r[i].id@ == it.node.id@
        &&& r[i].reason@ == "pareto_per_task:wins="@ + decimal(it.wins as nat)
        &&& r[i].reject_reason is None
        &&& it.wins > 0
        &&& it.wins == capped(win_total(nodes, d, floor, ts, it.node.id@))
    }) by {
        assert(presents(r[i], *sorted[i].node, i + 1, "pareto_per_task:wins="@ + decimal(sorted[i].wins as nat)));
        assert(sorted.to_multiset().count(sorted[i]) > 0);
        assert(u.contains(sorted[i]));
        let q = choose|q: int| 0 <= q < u.len() && u[q] == sorted[i];
        assert(u[q] == sorted[i]);
    }
    assert forall|x: int|
        0 <= x < nodes.len() && win_total(nodes, d, floor, ts, (#[trigger] nodes[x]).id@) > 0 implies (exists|i: int|
            0 <= i < r.len() && (#[trigger] r[i]).id@ == nodes[x].id@) || !rank_before(
            Ranked { wins: capped(win_total(nodes, d, floor, ts, nodes[x].id@)), key: rank_score(d, nodes[x].score) as i128, node: nodes[x] },
            sorted[r.len() - 1],
        ) by {
        let want = Ranked { wins: capped(win_total(nodes, d, floor, ts, nodes[x].id@)), key: rank_score(d, nodes[x].score) as i128, node: nodes[x] };
        assert(u.contains(want));
        assert(u.to_multiset().count(want) > 0);
        assert(sorted.contains(want));
        let p = choose|p: int| 0 <= p < sorted.len() && sorted[p] == want;
        if p < n {
            assert(presents(r[p], *sorted[p].node, p + 1, "pareto_per_task:wins="@ + decimal(sorted[p].wins as nat)));
            assert(r[p].id@ == nodes[x].id@);
        } else {
            if n - 1 < p {
                assert(!rank_before(sorted[p], sorted[n - 1]));
            }
        }
    }
}

/// Sorting keeps the number of items.
pub proof fn lemma_rank_sorted_len(s: Seq<Ranked>)
    ensures
        rank_sorted(s).len() == s.len(),
    decreases s.len(),
{
    if s.len() > 0 {
        lemma_first_best_bounds(s);
        lemma_rank_sorted_len(s.remove(first_best(s)));
    }
}

/// The name of a frontier type in reasons.
pub open spec fn frontier_label_spec(t: FrontierType) -> Seq<char> {
    match t {
        FrontierType::Instance => "instance"@,
        FrontierType::Objective => "objective"@,
        FrontierType::Hybrid => "hybrid"@,
        FrontierType::Cartesian => "cartesian"@,
    }
}

/// The name of a frontier type in reasons.
pub fn frontier_label(frontier_type: FrontierType) -> (r: &'static str)
    ensures
        r@ == frontier_label_spec(frontier_type),
{
    match frontier_type {
        FrontierType::Instance => "instance",
        FrontierType::Objective => "objective",
        FrontierType::Hybrid => "hybrid",
        FrontierType::Cartesian => "cartesian",
    }
}


/// The score and direction of each task of `ts` (a later score of a task
/// replacing an earlier one), `d` standing in for a missing direction.
pub open spec fn task_map(ts: Seq<TaskScore>, d: MetricDirection) -> Map<Seq<char>, (i64, MetricDirection)>
    decreases ts.len(),
{
    if ts.len() == 0 {
        Map::empty()
    } else {
        task_map(ts.drop_last(), d).insert(
            ts.last().task_id@,
            (
                ts.last().score,
                match ts.last().direction {
                    Some(x) => x,
                    None => d,
                },
            ),
        )
    }
}

/// The task scores of node `n`, if it has an outcome with any.
pub open spec fn node_tasks(n: ExperimentNode, d: MetricDirection) -> Option<Map<Seq<char>, (i64, MetricDirection)>> {
    match n.outcome {
        Some(o) => if o.task_scores@.len() > 0 {
            Some(task_map(o.task_scores@, d))
        } else {
            None
        },
        None => None,
    }
}

/// The tasks that every node of `nodes` with task scores has (`None` when
/// no node has any).
pub open spec fn common_tasks(nodes: Seq<&ExperimentNode>, d: MetricDirection) -> Option<Set<Seq<char>>>
    decreases nodes.len(),
{
    if nodes.len() == 0 {
        None
    } else {
        let acc = common_tasks(nodes.drop_last(), d);
        match node_tasks(*nodes.last(), d) {
            None => acc,
            Some(m) => Some(
                match acc {
                    Some(s) => s.intersect(m.dom()),
                    None => m.dom(),
                },
            ),
        }
    }
}

/// The entry of node `n` for task `t`: its oriented score, unless it has no
/// such score or a maximized one at or below `floor` (a NaN is neither).
pub open spec fn task_entry(n: ExperimentNode, d: MetricDirection, t: Seq<char>, floor: i64) -> Seq<
    (Seq<char>, Seq<char>, int),
> {
    match node_tasks(n, d) {
        Some(m) => if m.dom().contains(t) && !(m[t].1 == MetricDirection::Maximize && !is_nan_code(m[t].0 as int)
            && !is_nan_code(floor as int) && m[t].0 <= floor) {
            seq![(t, n.id@, directional(m[t].1, m[t].0 as int))]
        } else {
            Seq::empty()
        },
        None => Seq::empty(),
    }
}

/// The entries of the nodes of `nodes` for task `t`, node after node.
pub open spec fn task_entries(nodes: Seq<&ExperimentNode>, d: MetricDirection, t: Seq<char>, floor: i64) -> Seq<
    (Seq<char>, Seq<char>, int),
>
    decreases nodes.len(),
{
    if nodes.len() == 0 {
        Seq::empty()
    } else {
        task_entries(nodes.drop_last(), d, t, floor) + task_entry(*nodes.last(), d, t, floor)
    }
}

/// The ids of the nodes that win task `t`: best oriented score, ties kept.
pub open spec fn task_win(nodes: Seq<&ExperimentNode>, d: MetricDirection, t: Seq<char>, floor: i64) -> Seq<Seq<char>> {
    let f = best_fold(task_entries(nodes, d, t, floor));
    if f.dom().contains(t) {
        f[t].1
    } else {
        Seq::empty()
    }
}

/// How many times `id` wins the tasks `ts`.
pub open spec fn win_total(nodes: Seq<&ExperimentNode>, d: MetricDirection, floor: i64, ts: Seq<Seq<char>>, id: Seq<char>) -> int
    decreases ts.len(),
{
    if ts.len() == 0 {
        0
    } else {
        win_total(nodes, d, floor, ts.drop_last(), id) + occurrences(task_win(nodes, d, ts.last(), floor), id)
    }
}

/// How many times `id` occurs in `s`.
pub open spec fn occurrences(s: Seq<Seq<char>>, id: Seq<char>) -> int
    decreases s.len(),
{
    if s.len() == 0 {
        0
    } else {
        occurrences(s.drop_last(), id) + if s.last() == id {
            1int
        } else {
            0int
        }
    }
}

proof fn lemma_occurrences_nonneg(s: Seq<Seq<char>>, id: Seq<char>)
    ensures
        occurrences(s, id) >= 0,
    decreases s.len(),
{
    if s.len() > 0 {
        lemma_occurrences_nonneg(s.drop_last(), id);
    }
}

/// A win count as a `usize` (saturating).
pub open spec fn capped(n: int) -> usize {
    if n >= usize::MAX {
        usize::MAX
    } else {
        n as usize
    }
}

/// The task scores of `ts` by task.
fn task_map_of(ts: &Vec<TaskScore>, d: MetricDirection) -> (r: TextMap<(i64, MetricDirection)>)
    ensures
        r@ == task_map(ts@, d),
{
    let mut m: TextMap<(i64, MetricDirection)> = TextMap::new();
    let mut i: usize = 0;
    while i < ts.len()
        invariant
            i <= ts@.len(),
            m@ == task_map(ts@.take(i as int), d),
        decreases ts@.len() - i,
    {
        assert(ts@.take(i + 1).drop_last() =~= ts@.take(i as int));
        let t = &ts[i];
        let dir = match t.direction {
            Some(x) => x,
            None => d,
        };
        m.insert(t.task_id.clone(), (t.score, dir));
        i = i + 1;
    }
    assert(ts@.take(ts@.len() as int) =~= ts@);
    m
}

/// The task scores of node `n`, if it has any.
fn tasks_of(n: &ExperimentNode, d: MetricDirection) -> (r: Option<TextMap<(i64, MetricDirection)>>)
    ensures
        match r {
            Some(m) => node_tasks(*n, d) == Some(m@),
            None => node_tasks(*n, d) is None,
        },
{
    match &n.outcome {
        Some(o) => if o.task_scores.len() > 0 {
            Some(task_map_of(&o.task_scores, d))
        } else {
            None
        },
        None => None,
    }
}

/// The entry of node `n` for task `t` (see [`task_entry`]).
fn task_entry_of(n: &ExperimentNode, tasks: &Option<TextMap<(i64, MetricDirection)>>, d: MetricDirection, t: &str, floor: i64) -> (r: Option<i128>)
    requires
        match *tasks {
            Some(m) => node_tasks(*n, d) == Some(m@),
            None => node_tasks(*n, d) is None,
        },
    ensures
        match r {
            Some(x) => task_entry(*n, d, t@, floor) == seq![(t@, n.id@, x as int)],
            None => task_entry(*n, d, t@, floor) == Seq::<(Seq<char>, Seq<char>, int)>::empty(),
        },
{
    match tasks {
        Some(m) => match m.get(t) {
            Some(v) => {
                let (score, dir) = *v;
                let low = match dir {
                    MetricDirection::Maximize => !code_is_nan(score) && !code_is_nan(floor) && score <= floor,
                    MetricDirection::Minimize => false,
                };
                if low {
                    None
                } else {
                    Some(dir.directional_score(score))
                }
            },
            None => None,
        },
        None => None,
    }
}

/// The winners of task `t` among `nodes`, whose task scores are `maps`.
fn task_winners(nodes: &Vec<&ExperimentNode>, maps: &Vec<Option<TextMap<(i64, MetricDirection)>>>, d: MetricDirection, t: &str, floor: i64) -> (r: Vec<String>)
    requires
        maps@.len() == nodes@.len(),
        forall|i: int| 0 <= i < nodes@.len() ==> match #[trigger] maps@[i] {
            Some(m) => node_tasks(*nodes@[i], d) == Some(m@),
            None => node_tasks(*nodes@[i], d) is None,
        },
    ensures
        r.deep_view() == task_win(nodes@, d, t@, floor),
{
    let mut best: TextMap<(i128, Vec<String>)> = TextMap::new();
    let mut i: usize = 0;
    assert(best_view(best) =~= best_fold(task_entries(nodes@.take(0), d, t@, floor)));
    while i < nodes.len()
        invariant
            i <= nodes@.len(),
            maps@.len() == nodes@.len(),
            forall|q: int| 0 <= q < nodes@.len() ==> match #[trigger] maps@[q] {
                Some(m) => node_tasks(*nodes@[q], d) == Some(m@),
                None => node_tasks(*nodes@[q], d) is None,
            },
            best_view(best) == best_fold(task_entries(nodes@.take(i as int), d, t@, floor)),
        decreases nodes@.len() - i,
    {
        let ghost before = task_entries(nodes@.take(i as int), d, t@, floor);
        assert(nodes@.take(i + 1).drop_last() =~= nodes@.take(i as int));
        let node = nodes[i];
        let _ = maps[i];
        match task_entry_of(node, &maps[i], d, t, floor) {
            Some(x) => {
                let ghost e = (t@, node.id@, x as int);
                assert(task_entries(nodes@.take(i + 1), d, t@, floor) == before + seq![e]);
                assert((before + seq![e]).drop_last() =~= before);
                best_record(&mut best, t, node.id.as_str(), x);
            },
            None => {
                assert(task_entries(nodes@.take(i + 1), d, t@, floor) =~= before);
            },
        }
        i = i + 1;
    }
    assert(nodes@.take(nodes@.len() as int) =~= nodes@);
    match best.get(t) {
        Some(v) => v.1.deep_clone(),
        None => Vec::new(),
    }
}

/// The tasks common to the nodes with task scores (see [`common_tasks`]).
fn common_of(nodes: &Vec<&ExperimentNode>, maps: &Vec<Option<TextMap<(i64, MetricDirection)>>>, d: MetricDirection) -> (r: Option<TextMap<bool>>)
    requires
        maps@.len() == nodes@.len(),
        forall|i: int| 0 <= i < nodes@.len() ==> match #[trigger] maps@[i] {
            Some(m) => node_tasks(*nodes@[i], d) == Some(m@),
            None => node_tasks(*nodes@[i], d) is None,
        },
    ensures
        match r {
            Some(c) => common_tasks(nodes@, d) == Some(c@.dom()),
            None => common_tasks(nodes@, d) is None,
        },
{
    let mut acc: Option<TextMap<bool>> = None;
    let mut i: usize = 0;
    while i < nodes.len()
        invariant
            i <= nodes@.len(),
            maps@.len() == nodes@.len(),
            forall|q: int| 0 <= q < nodes@.len() ==> match #[trigger] maps@[q] {
                Some(m) => node_tasks(*nodes@[q], d) == Some(m@),
                None => node_tasks(*nodes@[q], d) is None,
            },
            match acc {
                Some(c) => common_tasks(nodes@.take(i as int), d) == Some(c@.dom()),
                None => common_tasks(nodes@.take(i as int), d) is None,
            },
        decreases nodes@.len() - i,
    {
        assert(nodes@.take(i + 1).drop_last() =~= nodes@.take(i as int));
        assert(nodes@.take(i + 1).last() == nodes@[i as int]);
        let _ = maps[i];
        match &maps[i] {
            None => {},
            Some(m) => {
                let mut next: TextMap<bool> = TextMap::new();
                match &acc {
                    None => {
                        let mut j: usize = 0;
                        while j < m.len()
                            invariant
                                j <= m.keys().len(),
                                forall|x: Seq<char>| next@.dom().contains(x) <==> exists|q: int| 0 <= q < j && m.keys()[q] == x,
                            decreases m.keys().len() - j,
                        {
                            next.insert(m.key_at(j).clone(), true);
                            j = j + 1;
                        }
                        assert(next@.dom() =~= m@.dom());
                    },
                    Some(c) => {
                        let mut j: usize = 0;
                        while j < c.len()
                            invariant
                                j <= c.keys().len(),
                                forall|x: Seq<char>| next@.dom().contains(x) <==> exists|q: int| 0 <= q < j && c.keys()[q] == x && m@.dom().contains(x),
                            decreases c.keys().len() - j,
                        {
                            let key = c.key_at(j);
                            if m.contains_key(key.as_str()) {
                                next.insert(key.clone(), true);
                            }
                            j = j + 1;
                        }
                        assert(next@.dom() =~= c@.dom().intersect(m@.dom()));
                    },
                }
                acc = Some(next);
            },
        }
        i = i + 1;
    }
    assert(nodes@.take(nodes@.len() as int) =~= nodes@);
    acc
}

/// The nodes of `nodes` that win some task of `ts`, with their win counts.
pub open spec fn task_items<'a>(nodes: Seq<&'a ExperimentNode>, all: Seq<&'a ExperimentNode>, d: MetricDirection, floor: i64, ts: Seq<Seq<char>>) -> Seq<Ranked<'a>>
    decreases nodes.len(),
{
    if nodes.len() == 0 {
        Seq::empty()
    } else {
        let rest = task_items(nodes.drop_last(), all, d, floor, ts);
        let n = nodes.last();
        let w = win_total(all, d, floor, ts, n.id@);
        if w > 0 {
            rest.push(Ranked { wins: capped(w), key: rank_score(d, n.score) as i128, node: n })
        } else {
            rest
        }
    }
}

/// Whether `r` presents the first `n` items of `sorted` at ranks 1, 2, ...,
/// each for the reason `pareto_per_task:wins=` and its win count.
pub open spec fn presents_task_wins(r: Seq<RankedCandidate>, sorted: Seq<Ranked>, n: int) -> bool {
    &&& r.len() == n
    &&& forall|i: int| 0 <= i < n ==> presents(
        #[trigger] r[i],
        *sorted[i].node,
        i + 1,
        "pareto_per_task:wins="@ + decimal(sorted[i].wins as nat),
    )
}

/// What [`pareto_per_task`] returns on `nodes`: a top-`k` ranking when no
/// node has task scores, they share no task, or nobody wins one; else the
/// nodes winning a shared task (listed once each, ascending, in `ts`),
/// ranked by win count, then oriented score, then id.
pub open spec fn per_task_result(nodes: Seq<&ExperimentNode>, d: MetricDirection, k: usize, floor: i64, r: Seq<RankedCandidate>) -> bool {
    let fallback = presents_ranked(
        r,
        rank_sorted(unranked(nodes, d)),
        keep_count(nodes.len() as int, k as int),
        "pareto_fallback_top_k"@,
    );
    match common_tasks(nodes, d) {
        None => fallback,
        Some(c) => if c =~= Set::empty() {
            fallback
        } else {
            exists|ts: Seq<Seq<char>>|
                #![trigger task_items(nodes, nodes, d, floor, ts)]
                sorted_strict(ts) && (forall|x: Seq<char>| ts.contains(x) <==> c.contains(x)) && if task_items(nodes, nodes, d, floor, ts).len() == 0 {
                    fallback
                } else {
                    presents_task_wins(
                        r,
                        rank_sorted(task_items(nodes, nodes, d, floor, ts)),
                        keep_count(task_items(nodes, nodes, d, floor, ts).len() as int, k as int),
                    )
                }
        },
    }
}

/// The win counts of the tasks `ts` (each listed once) by node id.
fn count_wins(
    nodes: &Vec<&ExperimentNode>,
    maps: &Vec<Option<TextMap<(i64, MetricDirection)>>>,
    d: MetricDirection,
    floor: i64,
    ts: &Vec<String>,
) -> (r: TextMap<usize>)
    requires
        maps@.len() == nodes@.len(),
        forall|i: int| 0 <= i < nodes@.len() ==> match #[trigger] maps@[i] {
            Some(m) => node_tasks(*nodes@[i], d) == Some(m@),
            None => node_tasks(*nodes@[i], d) is None,
        },
    ensures
        forall|id: Seq<char>| r@.dom().contains(id) <==> win_total(nodes@, d, floor, ts.deep_view(), id) > 0,
        forall|id: Seq<char>| #[trigger] r@.dom().contains(id) ==> r@[id] == capped(win_total(nodes@, d, floor, ts.deep_view(), id)),
{
    let ghost tv = ts.deep_view();
    let mut counts: TextMap<usize> = TextMap::new();
    let mut a: usize = 0;
    while a < ts.len()
        invariant
            a <= tv.len(),
            tv == ts.deep_view(),
            maps@.len() == nodes@.len(),
            forall|i: int| 0 <= i < nodes@.len() ==> match #[trigger] maps@[i] {
                Some(m) => node_tasks(*nodes@[i], d) == Some(m@),
                None => node_tasks(*nodes@[i], d) is None,
            },
            forall|id: Seq<char>| counts@.dom().contains(id) <==> win_total(nodes@, d, floor, tv.take(a as int), id) > 0,
            forall|id: Seq<char>| #[trigger] counts@.dom().contains(id) ==> counts@[id] == capped(win_total(nodes@, d, floor, tv.take(a as int), id)),
            forall|id: Seq<char>| win_total(nodes@, d, floor, tv.take(a as int), id) >= 0,
        decreases tv.len() - a,
    {
        let t = &ts[a];
        assert(tv[a as int] == t@);
        let winners = task_winners(nodes, maps, d, t.as_str(), floor);
        let ghost wv = winners.deep_view();
        let ghost prev = tv.take(a as int);
        assert(tv.take(a + 1).drop_last() =~= prev);
        assert(tv.take(a + 1).last() == t@);
        let mut j: usize = 0;
        while j < winners.len()
            invariant
                j <= wv.len(),
                wv == winners.deep_view(),
                forall|id: Seq<char>| win_total(nodes@, d, floor, prev, id) >= 0,
                forall|id: Seq<char>| counts@.dom().contains(id) <==> win_total(nodes@, d, floor, prev, id) + occurrences(wv.take(j as int), id) > 0,
                forall|id: Seq<char>| #[trigger] counts@.dom().contains(id) ==> counts@[id] == capped(win_total(nodes@, d, floor, prev, id) + occurrences(wv.take(j as int), id)),
            decreases wv.len() - j,
        {
            let w = &winners[j];
            assert(wv[j as int] == w@);
            let ghost old_counts = counts@;
            let c = match counts.remove(w.as_str()) {
                Some(c) => c,
                None => 0,
            };
            let c1 = if c < usize::MAX { c + 1 } else { c };
            counts.insert(w.clone(), c1);
            proof {
                assert(wv.take(j + 1) =~= wv.take(j as int).push(w@));
                assert forall|id: Seq<char>| #[trigger] occurrences(wv.take(j + 1), id) == occurrences(wv.take(j as int), id)
                    + (if w@ == id { 1int } else { 0int }) by {
                    assert(wv.take(j + 1).drop_last() =~= wv.take(j as int));
                }
                assert forall|id: Seq<char>| occurrences(wv.take(j as int), id) >= 0 by {
                    lemma_occurrences_nonneg(wv.take(j as int), id);
                }
            }
            j = j + 1;
        }
        proof {
            assert(wv.take(wv.len() as int) =~= wv);
            assert(wv == task_win(nodes@, d, t@, floor));
            assert forall|id: Seq<char>| #[trigger] win_total(nodes@, d, floor, tv.take(a + 1), id) >= 0 by {
                lemma_occurrences_nonneg(wv, id);
                assert(win_total(nodes@, d, floor, tv.take(a + 1), id) == win_total(nodes@, d, floor, prev, id)
                    + occurrences(wv, id));
            }
        }
        a = a + 1;
    }
    assert(tv.take(tv.len() as int) =~= tv);
    counts
}

/// The reason `prefix` followed by the decimal `wins`.
fn wins_reason(prefix: &str, wins: usize) -> (r: String)
    ensures
        r@ == prefix@ + decimal(wins as nat),
{
    let mut out = String::new();
    push_str(&mut out, prefix);
    let digits = decimal_chars(wins as u64);
    push_chars(&mut out, &digits);
    out
}

/// The tips of `nodes` that win at least one task shared by every tip with
/// task scores, ranked by wins, then oriented score, then id, at most `k`
/// (at least one); a maximized task score at or below `task_floor` wins
/// nothing. Falls back to the top `k` when there is no such task or winner.
pub fn pareto_per_task<'a>(nodes: Vec<&'a ExperimentNode>, metric: &Metric, k: usize, task_floor: i64) -> (r: Vec<RankedCandidate>)
    ensures
        per_task_result(nodes@, metric.direction, k, task_floor, r@),
{
    let d = metric.direction;
    let mut maps: Vec<Option<TextMap<(i64, MetricDirection)>>> = Vec::new();
    let mut i: usize = 0;
    while i < nodes.len()
        invariant
            i <= nodes@.len(),
            maps@.len() == i,
            forall|q: int| 0 <= q < i ==> match #[trigger] maps@[q] {
                Some(m) => node_tasks(*nodes@[q], d) == Some(m@),
                None => node_tasks(*nodes@[q], d) is None,
            },
        decreases nodes@.len() - i,
    {
        maps.push(tasks_of(nodes[i], d));
        i = i + 1;
    }
    let common = match common_of(&nodes, &maps, d) {
        None => {
            return top_k(nodes, metric, k, "pareto_fallback_top_k");
        },
        Some(c) => c,
    };
    if common.len() == 0 {
        proof {
            assert(common@.dom() =~= Set::<Seq<char>>::empty());
        }
        return top_k(nodes, metric, k, "pareto_fallback_top_k");
    }
    let ts = common.key_list();
    let ghost tsv = ts.deep_view();
    proof {
        assert(!(common@.dom() =~= Set::<Seq<char>>::empty())) by {
            assert(common@.dom().contains(common.keys()[0]));
        }
    }
    let counts = count_wins(&nodes, &maps, d, task_floor, &ts);
    let mut items: Vec<Ranked<'a>> = Vec::new();
    let mut i: usize = 0;
    while i < nodes.len()
        invariant
            i <= nodes@.len(),
            forall|id: Seq<char>| counts@.dom().contains(id) <==> win_total(nodes@, d, task_floor, tsv, id) > 0,
            forall|id: Seq<char>| #[trigger] counts@.dom().contains(id) ==> counts@[id] == capped(win_total(nodes@, d, task_floor, tsv, id)),
            items@ == task_items(nodes@.take(i as int), nodes@, d, task_floor, tsv),
        decreases nodes@.len() - i,
    {
        let node = nodes[i];
        assert(nodes@.take(i + 1).drop_last() =~= nodes@.take(i as int));
        assert(nodes@.take(i + 1).last() == node);
        match counts.get(node.id.as_str()) {
            Some(c) => {
                let key: i128 = match node.score {
                    Some(sc) => d.directional_score(sc),
                    None => -0x7ff0_0000_0000_0000i128,
                };
                items.push(Ranked { wins: *c, key, node });
            },
            None => {},
        }
        i = i + 1;
    }
    assert(nodes@.take(nodes@.len() as int) =~= nodes@);
    if items.len() == 0 {
        return top_k(nodes, metric, k, "pareto_fallback_top_k");
    }
    let ghost all_items = items@;
    let sorted = sort_ranked(items);
    proof {
        lemma_rank_sorted_len(all_items);
    }
    let keep = if k < 1 { 1 } else { k };
    let mut out: Vec<RankedCandidate> = Vec::new();
    let mut i: usize = 0;
    while i < sorted.len() && i < keep
        invariant
            i <= sorted@.len(),
            i <= keep,
            keep == (if k < 1 { 1 } else { k }),
            out@.len() == i,
            forall|q: int| 0 <= q < i ==> presents(
                #[trigger] out@[q],
                *sorted@[q].node,
                q + 1,
                "pareto_per_task:wins="@ + decimal(sorted@[q].wins as nat),
            ),
        decreases sorted@.len() - i,
    {
        let item = &sorted[i];
        let reason = wins_reason("pareto_per_task:wins=", item.wins);
        out.push(candidate(item.node, i + 1, reason.as_str()));
        i = i + 1;
    }
    assert(i == keep_count(all_items.len() as int, k as int));
    proof {
        assert(task_items(nodes@, nodes@, d, task_floor, tsv) == all_items);
        assert(forall|x: Seq<char>| tsv.contains(x) <==> common@.dom().contains(x));
    }
    out
}


/// The nodes of the non-dominated set `nd` with the number of keys each
/// wins in the frontier mapping `m`.
pub open spec fn pareto_items(nd: Seq<&ExperimentNode>, m: Seq<(FrontierKeyV, Seq<Seq<char>>)>, d: MetricDirection) -> Seq<Ranked> {
    Seq::new(
        nd.len(),
        |i: int| Ranked { wins: wins_in(m, nd[i].id@) as usize, key: rank_score(d, nd[i].score) as i128, node: nd[i] },
    )
}

/// The nodes of `pool` that win some key of the frontier `f`, in order.
pub open spec fn non_dominated(pool: Seq<ExperimentNode>, f: Map<FrontierKeyV, Seq<Seq<char>>>) -> Seq<ExperimentNode> {
    pool.filter(|n: ExperimentNode| front_ids(f).contains(n.id@))
}

/// Whether `r` presents every item of `sorted` at ranks 1, 2, ..., each for
/// the reason `pareto:<label>:wins=` and its win count.
pub open spec fn presents_pareto(r: Seq<RankedCandidate>, sorted: Seq<Ranked>, label: Seq<char>) -> bool {
    &&& r.len() == sorted.len()
    &&& forall|i: int| 0 <= i < sorted.len() ==> presents(
        #[trigger] r[i],
        *sorted[i].node,
        i + 1,
        "pareto:"@ + label + ":wins="@ + decimal(sorted[i].wins as nat),
    )
}

/// Whether `objs` names and orients the same objectives as `expected`.
pub open spec fn same_metrics(objs: Seq<Metric>, expected: Seq<Metric>) -> bool {
    &&& objs.len() == expected.len()
    &&& forall|i: int| 0 <= i < objs.len() ==> (#[trigger] objs[i]).name@ == expected[i].name@ && objs[i].direction
        == expected[i].direction
}

/// Copies of `metrics`.
fn copy_metrics(metrics: &Vec<Metric>) -> (r: Vec<Metric>)
    ensures
        same_metrics(r@, metrics@),
{
    let mut out: Vec<Metric> = Vec::new();
    let mut i: usize = 0;
    while i < metrics.len()
        invariant
            i <= metrics@.len(),
            same_metrics(out@, metrics@.take(i as int)),
        decreases metrics@.len() - i,
    {
        out.push(metrics[i].copy());
        i = i + 1;
    }
    assert(metrics@.take(metrics@.len() as int) =~= metrics@);
    out
}

/// The objectives a Pareto ranking uses: `objectives`, or `metric` alone
/// when none are given.
pub open spec fn ranking_objectives(metric: Metric, objectives: Seq<Metric>) -> Seq<Metric> {
    if objectives.len() == 0 {
        seq![metric]
    } else {
        objectives
    }
}

/// What [`pareto_select`] returns for the evaluated `pool`: nothing when it
/// or its non-dominated set is empty, else the non-dominated nodes ranked by
/// keys won, then oriented score, then id.
pub open spec fn pareto_result(
    pool: Seq<&ExperimentNode>,
    ft: FrontierType,
    metric: Metric,
    objectives: Seq<Metric>,
    r: Seq<RankedCandidate>,
) -> bool {
    if pool.len() == 0 {
        r.len() == 0
    } else {
        exists|objs: Seq<Metric>, m: Seq<(FrontierKeyV, Seq<Seq<char>>)>, nd: Seq<&ExperimentNode>|
            #![trigger mapping_is(m, front_spec(derefs(pool), ft, objs)), refs_are(nd, non_dominated(derefs(pool), front_spec(derefs(pool), ft, objs)))]
            same_metrics(objs, ranking_objectives(metric, objectives)) && mapping_is(m, front_spec(derefs(pool), ft, objs))
                && refs_are(nd, non_dominated(derefs(pool), front_spec(derefs(pool), ft, objs)))
                && presents_pareto(r, rank_sorted(pareto_items(nd, m, metric.direction)), frontier_label_spec(ft))
    }
}

/// Pareto-efficient ranking over the evaluated `pool`: the non-dominated
/// nodes, ranked by the number of frontier keys each wins, then oriented
/// score, then id.
fn pareto_select<'a>(pool: Vec<&'a ExperimentNode>, metric: &Metric, frontier_type: FrontierType, objectives: &Vec<Metric>) -> (r: Vec<RankedCandidate>)
    ensures
        pareto_result(pool@, frontier_type, *metric, objectives@, r@),
{
    if pool.len() == 0 {
        return Vec::new();
    }
    let ms = if objectives.len() == 0 {
        let mut v: Vec<Metric> = Vec::new();
        v.push(metric.copy());
        v
    } else {
        copy_metrics(objectives)
    };
    let objs = Objectives::new(ms);
    let slice = pool.as_slice();
    assert(slice@ == pool@);
    let front = pareto_front(slice, frontier_type, &objs);
    let nd = non_dominated_set(slice, frontier_type, &objs);
    let ghost f = front_spec(derefs(pool@), frontier_type, objs.metrics@);
    let ghost m = front.mapping.deep_view();
    let d = metric.direction;
    let mut items: Vec<Ranked<'a>> = Vec::new();
    let mut i: usize = 0;
    while i < nd.len()
        invariant
            i <= nd@.len(),
            m == front.mapping.deep_view(),
            items@ == pareto_items(nd@.take(i as int), m, d),
        decreases nd@.len() - i,
    {
        let node = nd[i];
        let wins = front.win_count(node.id.as_str());
        let key: i128 = match node.score {
            Some(sc) => d.directional_score(sc),
            None => -0x7ff0_0000_0000_0000i128,
        };
        items.push(Ranked { wins, key, node });
        assert(items@ =~= pareto_items(nd@.take(i + 1), m, d));
        i = i + 1;
    }
    assert(nd@.take(nd@.len() as int) =~= nd@);
    let ghost all_items = items@;
    let sorted = sort_ranked(items);
    proof {
        lemma_rank_sorted_len(all_items);
    }
    let label = frontier_label(frontier_type);
    let mut out: Vec<RankedCandidate> = Vec::new();
    let mut i: usize = 0;
    while i < sorted.len()
        invariant
            i <= sorted@.len(),
            out@.len() == i,
            forall|q: int| 0 <= q < i ==> presents(
                #[trigger] out@[q],
                *sorted@[q].node,
                q + 1,
                "pareto:"@ + label@ + ":wins="@ + decimal(sorted@[q].wins as nat),
            ),
        decreases sorted@.len() - i,
    {
        let item = &sorted[i];
        let mut prefix = String::new();
        push_str(&mut prefix, "pareto:");
        push_str(&mut prefix, label);
        push_str(&mut prefix, ":wins=");
        let reason = wins_reason(prefix.as_str(), item.wins);
        out.push(candidate(item.node, i + 1, reason.as_str()));
        i = i + 1;
    }
    proof {
        assert(same_metrics(objs.metrics@, ranking_objectives(*metric, objectives@)));
        assert(mapping_is(m, f));
        assert(refs_are(nd@, non_dominated(derefs(pool@), f)));
        assert(presents_pareto(out@, rank_sorted(pareto_items(nd@, m, d)), frontier_label_spec(frontier_type)));
    }
    out
}

/// A Pareto ranking lists each node of the non-dominated set `nd` once, at
/// ranks 1, 2, ..., with the number of frontier keys it wins in its reason;
/// a candidate placed before another wins at least as many keys, with as
/// many wins has an oriented score at least as high, and with both equal
/// has the smaller id.
pub proof fn lemma_pareto_ranking(
    nd: Seq<&ExperimentNode>,
    m: Seq<(FrontierKeyV, Seq<Seq<char>>)>,
    d: MetricDirection,
    label: Seq<char>,
    r: Seq<RankedCandidate>,
)
    requires
        presents_pareto(r, rank_sorted(pareto_items(nd, m, d)), label),
    ensures
        r.len() == nd.len(),
        forall|i: int| 0 <= i < r.len() ==> ({
            let it = #[trigger] rank_sorted(pareto_items(nd, m, d))[i];
            &&& r[i].rank == i + 1
            &&& r[i].id@ == it.node.id@
            &&& r[i].score == it.node.score
            &&& r[i].reason@ == "pareto:"@ + label + ":wins="@ + decimal(it.wins as nat)
            &&& nd.contains(it.node)
            &&& it.wins == wins_in(m, it.node.id@) as usize
            &&& it.key == rank_score(d, it.node.score)
        }),
        forall|i: int, j: int|
            0 <= i < j < r.len() ==> ({
                let a = #[trigger] rank_sorted(pareto_items(nd, m, d))[i];
                let b = #[trigger] rank_sorted(pareto_items(nd, m, d))[j];
                &&& a.wins >= b.wins
                &&& a.wins == b.wins ==> a.key >= b.key
                &&& a.wins == b.wins && a.key == b.key ==> !seq_lt(b.node.id@, a.node.id@)
            }),
{
    broadcast use vstd::seq_lib::group_to_multiset_ensures;
    let u = pareto_items(nd, m, d);
    let sorted = rank_sorted(u);
    lemma_rank_sorted_len(u);
    lemma_rank_sorted_sorts(u);
    lemma_rank_sorted_order(u);
    assert forall|i: int| 0 <= i < r.len() implies ({
        let it = #[trigger] rank_sorted(pareto_items(nd, m, d))[i];
        &&& r[i].rank == i + 1
        &&& r[i].id@ == it.node.id@
        &&& r[i].score == it.node.score
        &&& r[i].reason@ == "pareto:"@ + label + ":wins="@ + decimal(it.wins as nat)
        &&& nd.contains(it.node)
        &&& it.wins == wins_in(m, it.node.id@) as usize
        &&& it.key == rank_score(d, it.node.score)
    }) by {
        assert(presents(r[i], *sorted[i].node, i + 1, "pareto:"@ + label + ":wins="@ + decimal(sorted[i].wins as nat)));
        assert(sorted.to_multiset().count(sorted[i]) > 0);
        assert(u.contains(sorted[i]));
        let q = choose|q: int| 0 <= q < u.len() && u[q] == sorted[i];
        assert(u[q] == sorted[i]);
        assert(nd[q] == sorted[i].node);
    }
}

/// The order of [`compare_nodes`]: a higher oriented score first, then the
/// smaller id.
pub open spec fn node_order_spec(d: MetricDirection, a: ExperimentNode, b: ExperimentNode) -> std::cmp::Ordering {
    let ka = rank_score(d, a.score);
    let kb = rank_score(d, b.score);
    if kb > ka {
        std::cmp::Ordering::Greater
    } else if kb < ka {
        std::cmp::Ordering::Less
    } else if seq_lt(a.id@, b.id@) {
        std::cmp::Ordering::Less
    } else if a.id@ == b.id@ {
        std::cmp::Ordering::Equal
    } else {
        std::cmp::Ordering::Greater
    }
}

/// The ranking order of two nodes under `metric`: the one with the higher
/// oriented score first (a node without a score counting as negative
/// infinity), then the one with the smaller id.
pub fn compare_nodes(a: &ExperimentNode, b: &ExperimentNode, metric: &Metric) -> (r: std::cmp::Ordering)
    ensures
        r == node_order_spec(metric.direction, *a, *b),
{
    let d = metric.direction;
    let ka: i128 = match a.score {
        Some(c) => d.directional_score(c),
        None => -0x7ff0_0000_0000_0000i128,
    };
    let kb: i128 = match b.score {
        Some(c) => d.directional_score(c),
        None => -0x7ff0_0000_0000_0000i128,
    };
    if kb > ka {
        std::cmp::Ordering::Greater
    } else if kb < ka {
        std::cmp::Ordering::Less
    } else if str_lt(a.id.as_str(), b.id.as_str()) {
        std::cmp::Ordering::Less
    } else if crate::text::str_eq(a.id.as_str(), b.id.as_str()) {
        std::cmp::Ordering::Equal
    } else {
        std::cmp::Ordering::Greater
    }
}

/// Whether `r` is what [`rank_frontier`] gives for the frontier tips `tips`
/// and the evaluated pool `pool`.
pub open spec fn rank_result(
    tips: Seq<&ExperimentNode>,
    pool: Seq<&ExperimentNode>,
    metric: Metric,
    strategy: FrontierStrategy,
    r: Seq<RankedCandidate>,
) -> bool {
    let d = metric.direction;
    if tips.len() == 0 {
        r.len() == 0
    } else {
        match strategy {
            FrontierStrategy::ArgMax => presents_ranked(r, rank_sorted(unranked(tips, d)), keep_count(tips.len() as int, 1), "argmax"@),
            FrontierStrategy::TopK { k } => presents_ranked(r, rank_sorted(unranked(tips, d)), keep_count(tips.len() as int, k as int), "top_k"@),
            FrontierStrategy::ParetoPerTask { k, task_floor } => per_task_result(tips, d, k, task_floor, r),
            FrontierStrategy::Pareto { frontier_type, objectives } => pareto_result(pool, frontier_type, metric, objectives@, r),
            _ => false,
        }
    }
}

/// The ranked frontier of `graph` under `strategy`: nothing without frontier
/// tips; else the best tips (`ArgMax`, `TopK`), the tips winning shared
/// tasks (`ParetoPerTask`), or the non-dominated evaluated nodes (`Pareto`).
/// The two sampling strategies draw on floating-point weights: the caller
/// draws, and [`epsilon_greedy_rank`] or [`rank_in_order`] ranks what it drew.
pub fn rank_frontier(graph: &ExperimentGraph, metric: &Metric, strategy: &FrontierStrategy) -> (r: Vec<RankedCandidate>)
    requires
        !(strategy is EpsilonGreedy),
        !(strategy is Softmax),
    ensures
        exists|tips: Seq<&ExperimentNode>, pool: Seq<&ExperimentNode>|
            #![trigger rank_result(tips, pool, *metric, *strategy, r@)]
            refs_are(tips, nodes_in_order(graph.nodes).filter(|n: ExperimentNode| is_frontier(graph.nodes@, n)))
                && refs_are(pool, nodes_in_order(graph.nodes).filter(|n: ExperimentNode| is_evaluated(n)))
                && rank_result(tips, pool, *metric, *strategy, r@),
{
    let nodes = graph.frontier_nodes();
    let pool = graph.evaluated_pool();
    let ghost tips = nodes@;
    let ghost pv = pool@;
    if nodes.len() == 0 {
        assert(rank_result(tips, pv, *metric, *strategy, Seq::<RankedCandidate>::empty()));
        return Vec::new();
    }
    let r = match strategy {
        FrontierStrategy::ArgMax => top_k(nodes, metric, 1, "argmax"),
        FrontierStrategy::TopK { k } => top_k(nodes, metric, *k, "top_k"),
        FrontierStrategy::ParetoPerTask { k, task_floor } => pareto_per_task(nodes, metric, *k, *task_floor),
        FrontierStrategy::Pareto { frontier_type, objectives } => pareto_select(pool, metric, *frontier_type, objectives),
        _ => Vec::new(),
    };
    assert(rank_result(tips, pv, *metric, *strategy, r@));
    r
}

/// Whether `rr` is the rejection reason that enforcing `criterion` gives
/// the candidate `id` of `graph`: none when `id` or its parent is unknown or
/// `id` has no parent, or when the verdict accepts; else the verdict's reason.
pub open spec fn reject_reason_ok<F: Fn(i64) -> String>(
    graph: ExperimentGraph,
    id: Seq<char>,
    metric: Metric,
    criterion: AcceptanceCriterion,
    render: F,
    rr: Option<String>,
) -> bool {
    let nodes = graph.nodes@;
    if !nodes.dom().contains(id) || nodes[id].parent is None || !nodes.dom().contains(nodes[id].parent->0@) {
        rr is None
    } else {
        exists|v: AcceptanceVerdict|
            #![trigger verdict_is(criterion, nodes[id].score->0, nodes[nodes[id].parent->0@].score, metric, render, v)]
            match nodes[id].score {
                None => !v.accepted && v.reason@ == "no score to judge"@,
                Some(c) => verdict_is(criterion, c, nodes[nodes[id].parent->0@].score, metric, render, v),
            } && if v.accepted {
                rr is None
            } else {
                rr matches Some(x) && x@ == v.reason@
            }
    }
}

/// The candidates of `s` without a rejection reason, then those with one,
/// each group in its order in `s`.
pub open spec fn partitioned(s: Seq<RankedCandidate>) -> Seq<RankedCandidate> {
    s.filter(|c: RankedCandidate| c.reject_reason is None) + s.filter(|c: RankedCandidate| c.reject_reason is Some)
}

/// Filtering `s` for candidates with and without a rejection reason splits
/// it: the two parts hold as many as `s`, and filtering a part again keeps it.
proof fn lemma_reject_split(s: Seq<RankedCandidate>)
    ensures
        s.filter(|c: RankedCandidate| c.reject_reason is None).len() + s.filter(
            |c: RankedCandidate| c.reject_reason is Some,
        ).len() == s.len(),
        s.filter(|c: RankedCandidate| c.reject_reason is None).filter(|c: RankedCandidate| c.reject_reason is None)
            == s.filter(|c: RankedCandidate| c.reject_reason is None),
        s.filter(|c: RankedCandidate| c.reject_reason is None).filter(|c: RankedCandidate| c.reject_reason is Some)
            == Seq::<RankedCandidate>::empty(),
        s.filter(|c: RankedCandidate| c.reject_reason is Some).filter(|c: RankedCandidate| c.reject_reason is Some)
            == s.filter(|c: RankedCandidate| c.reject_reason is Some),
        s.filter(|c: RankedCandidate| c.reject_reason is Some).filter(|c: RankedCandidate| c.reject_reason is None)
            == Seq::<RankedCandidate>::empty(),
    decreases s.len(),
{
    let n = |c: RankedCandidate| c.reject_reason is None;
    let y = |c: RankedCandidate| c.reject_reason is Some;
    if s.len() > 0 {
        let p = s.drop_last();
        lemma_reject_split(p);
        assert(p.push(s.last()) =~= s);
        p.lemma_filter_push(s.last(), n);
        p.lemma_filter_push(s.last(), y);
        p.filter(n).lemma_filter_push(s.last(), n);
        p.filter(n).lemma_filter_push(s.last(), y);
        p.filter(y).lemma_filter_push(s.last(), n);
        p.filter(y).lemma_filter_push(s.last(), y);
    } else {
        assert(s.filter(n) =~= Seq::<RankedCandidate>::empty()) by {
            reveal(Seq::filter);
        }
        assert(s.filter(y) =~= Seq::<RankedCandidate>::empty()) by {
            reveal(Seq::filter);
        }
        assert(Seq::<RankedCandidate>::empty().filter(n) =~= Seq::<RankedCandidate>::empty()) by {
            reveal(Seq::filter);
        }
        assert(Seq::<RankedCandidate>::empty().filter(y) =~= Seq::<RankedCandidate>::empty()) by {
            reveal(Seq::filter);
        }
    }
}

/// Enforcing acceptance reorders the candidates as a stable partition: as
/// many as before, every candidate without a rejection reason before every
/// one with a reason, and each group in its earlier order.
pub proof fn lemma_partitioned(s: Seq<RankedCandidate>)
    ensures
        partitioned(s).len() == s.len(),
        forall|i: int, j: int|
            0 <= i < j < s.len() && (#[trigger] partitioned(s)[j]).reject_reason is None ==> (
            #[trigger] partitioned(s)[i]).reject_reason is None,
        partitioned(s).filter(|c: RankedCandidate| c.reject_reason is None) == s.filter(
            |c: RankedCandidate| c.reject_reason is None,
        ),
        partitioned(s).filter(|c: RankedCandidate| c.reject_reason is Some) == s.filter(
            |c: RankedCandidate| c.reject_reason is Some,
        ),
{
    let n = |c: RankedCandidate| c.reject_reason is None;
    let y = |c: RankedCandidate| c.reject_reason is Some;
    let a = s.filter(n);
    let b = s.filter(y);
    lemma_reject_split(s);
    Seq::filter_distributes_over_add(a, b, n);
    Seq::filter_distributes_over_add(a, b, y);
    assert(a + Seq::<RankedCandidate>::empty() =~= a);
    assert(Seq::<RankedCandidate>::empty() + b =~= b);
    assert forall|i: int, j: int|
        0 <= i < j < s.len() && (#[trigger] partitioned(s)[j]).reject_reason is None implies (
        #[trigger] partitioned(s)[i]).reject_reason is None by {
        if j >= a.len() {
            s.lemma_filter_pred(y, j - a.len());
            assert(partitioned(s)[j] == b[j - a.len()]);
        } else {
            s.lemma_filter_pred(n, i);
            assert(partitioned(s)[i] == a[i]);
        }
    }
}

/// Whether `b` is `a` with only its rejection reason changed.
pub open spec fn same_but_reject(a: RankedCandidate, b: RankedCandidate) -> bool {
    b == (RankedCandidate { reject_reason: b.reject_reason, ..a })
}

/// Judges every candidate of `ranked` by `criterion` against its parent,
/// recording the rejection reason of those rejected (`render` prints
/// scores), and moves the rejected ones after the others, each group kept in
/// its order. Nothing is removed.
pub fn enforce_acceptance<F: Fn(i64) -> String>(
    graph: &ExperimentGraph,
    metric: &Metric,
    criterion: AcceptanceCriterion,
    ranked: &mut Vec<RankedCandidate>,
    render: &F,
)
    requires
        forall|x: i64| render.requires((x,)),
    ensures
        exists|upd: Seq<RankedCandidate>|
            #![trigger partitioned(upd)]
            upd.len() == old(ranked)@.len() && (forall|i: int|
                0 <= i < upd.len() ==> same_but_reject(old(ranked)@[i], #[trigger] upd[i]) && reject_reason_ok(
                    *graph,
                    old(ranked)@[i].id@,
                    *metric,
                    criterion,
                    *render,
                    upd[i].reject_reason,
                )) && final(ranked)@ == partitioned(upd),
{
    let mut items: Vec<RankedCandidate> = Vec::new();
    std::mem::swap(&mut items, ranked);
    let ghost orig = items@;
    let ghost mut upd: Seq<RankedCandidate> = Seq::empty();
    let ghost pa = |c: RankedCandidate| c.reject_reason is None;
    let ghost pr = |c: RankedCandidate| c.reject_reason is Some;
    let mut accepted: Vec<RankedCandidate> = Vec::new();
    let mut rejected: Vec<RankedCandidate> = Vec::new();
    let mut i: usize = 0;
    let n = items.len();
    while items.len() > 0
        invariant
            items@.len() + i == n,
            n == orig.len(),
            items@ == orig.skip(i as int),
            upd.len() == i,
            forall|q: int| 0 <= q < i ==> same_but_reject(orig[q], #[trigger] upd[q]) && reject_reason_ok(
                *graph,
                orig[q].id@,
                *metric,
                criterion,
                *render,
                upd[q].reject_reason,
            ),
            accepted@ == upd.filter(pa),
            rejected@ == upd.filter(pr),
            pa == (|c: RankedCandidate| c.reject_reason is None),
            pr == (|c: RankedCandidate| c.reject_reason is Some),
            forall|x: i64| render.requires((x,)),
        decreases items@.len(),
    {
        let ghost before = items@;
        let mut c = items.remove(0);
        assert(items@ =~= orig.skip(i + 1));
        assert(c == orig[i as int]);
        let ghost c0 = c;
        let res = graph.acceptance_verdict(c.id.as_str(), metric, criterion, render);
        let ghost res_g = res;
        let rr: Option<String> = match res {
            Err(_) => None,
            Ok(v) => if v.accepted {
                None
            } else {
                Some(v.reason)
            },
        };
        c.reject_reason = rr;
        proof {
            assert(same_but_reject(c0, c));
            match res_g {
                Ok(v) => {
                    let nodes = graph.nodes@;
                    let id = c0.id@;
                    assert(nodes.dom().contains(id));
                    let t = verdict_is(criterion, nodes[id].score->0, nodes[nodes[id].parent->0@].score, *metric, *render, v);
                },
                Err(_) => {},
            }
            assert(reject_reason_ok(*graph, c0.id@, *metric, criterion, *render, c.reject_reason));
            upd.lemma_filter_push(c, pa);
            upd.lemma_filter_push(c, pr);
            upd = upd.push(c);
        }
        if c.reject_reason.is_none() {
            accepted.push(c);
        } else {
            rejected.push(c);
        }
        i = i + 1;
    }
    let ghost a = accepted@;
    let ghost r = rejected@;
    accepted.append(&mut rejected);
    assert(accepted@ == a + r);
    std::mem::swap(&mut accepted, ranked);
    assert(ranked@ == partitioned(upd));
    assert(orig == old(ranked)@);
}

/// Ranking before is a strict order: never of an item over itself, never
/// both ways, transitive, and two items neither of which ranks before the
/// other tie on wins, score and id.
proof fn lemma_rank_before_order(a: Ranked, b: Ranked, c: Ranked)
    ensures
        !rank_before(a, a),
        rank_before(a, b) ==> !rank_before(b, a),
        rank_before(a, b) && rank_before(b, c) ==> rank_before(a, c),
        !rank_before(a, b) && !rank_before(b, a) ==> a.wins == b.wins && a.key == b.key && a.node.id@
            == b.node.id@,
{
    crate::text::lemma_seq_lt_irreflexive(a.node.id@);
    if seq_lt(a.node.id@, b.node.id@) {
        crate::text::lemma_seq_lt_asymmetric(a.node.id@, b.node.id@);
        if seq_lt(b.node.id@, c.node.id@) {
            crate::text::lemma_seq_lt_transitive(a.node.id@, b.node.id@, c.node.id@);
        }
    }
    crate::text::lemma_seq_lt_total(a.node.id@, b.node.id@);
}

/// Nothing in `s` ranks before its first best item.
proof fn lemma_first_best_is_best(s: Seq<Ranked>)
    requires
        s.len() > 0,
    ensures
        forall|i: int| 0 <= i < s.len() ==> !rank_before(#[trigger] s[i], s[first_best(s)]),
    decreases s.len(),
{
    lemma_first_best_bounds(s);
    lemma_rank_before_order(s[0], s[0], s[0]);
    if s.len() > 1 {
        let init = s.drop_last();
        lemma_first_best_is_best(init);
        lemma_first_best_bounds(init);
        let j = first_best(init);
        let last = s.last();
        assert(s[j] == init[j]);
        if rank_before(last, s[j]) {
            assert forall|i: int| 0 <= i < s.len() implies !rank_before(#[trigger] s[i], last) by {
                lemma_rank_before_order(last, last, last);
                if i < s.len() - 1 {
                    assert(s[i] == init[i]);
                    lemma_rank_before_order(s[i], last, s[j]);
                }
            }
        } else {
            assert forall|i: int| 0 <= i < s.len() implies !rank_before(#[trigger] s[i], s[j]) by {
                if i < s.len() - 1 {
                    assert(s[i] == init[i]);
                }
            }
        }
    }
}

/// Ranking sorts: the ranked items are exactly the given ones, and no item
/// is placed after one that it ranks before.
pub proof fn lemma_rank_sorted_sorts(s: Seq<Ranked>)
    ensures
        rank_sorted(s).to_multiset() == s.to_multiset(),
        forall|i: int, j: int|
            0 <= i < j < rank_sorted(s).len() ==> !rank_before(#[trigger] rank_sorted(s)[j], #[trigger] rank_sorted(s)[i]),
    decreases s.len(),
{
    broadcast use vstd::multiset::group_multiset_axioms;
    if s.len() == 0 {
        assert(rank_sorted(s) =~= s);
    } else {
        let b = first_best(s);
        lemma_first_best_bounds(s);
        lemma_first_best_is_best(s);
        let t = s.remove(b);
        lemma_rank_sorted_sorts(t);
        lemma_rank_sorted_len(t);
        let rt = rank_sorted(t);
        let r = rank_sorted(s);
        assert(r == seq![s[b]] + rt);
        vstd::seq_lib::to_multiset_remove(s, b);
        vstd::seq_lib::lemma_multiset_commutative(seq![s[b]], rt);
        let e = Seq::<Ranked>::empty();
        vstd::seq_lib::to_multiset_build(e, s[b]);
        vstd::seq_lib::to_multiset_len(e);
        assert(e.to_multiset() =~= vstd::multiset::Multiset::<Ranked>::empty());
        assert(seq![s[b]] =~= e.push(s[b]));
        vstd::seq_lib::to_multiset_contains(s, s[b]);
        assert(s.contains(s[b]));
        assert(r.to_multiset() =~= s.to_multiset());
        assert forall|i: int, j: int| 0 <= i < j < r.len() implies !rank_before(#[trigger] r[j], #[trigger] r[i]) by {
            assert(r[j] == rt[j - 1]);
            if i == 0 {
                vstd::seq_lib::to_multiset_contains(rt, rt[j - 1]);
                assert(rt.contains(rt[j - 1]));
                vstd::seq_lib::to_multiset_contains(t, rt[j - 1]);
                let k = choose|k: int| 0 <= k < t.len() && t[k] == rt[j - 1];
                if k < b {
                    assert(t[k] == s[k]);
                } else {
                    assert(t[k] == s[k + 1]);
                }
            } else {
                assert(r[i] == rt[i - 1]);
            }
        }
    }
}

/// In ranking order, an item placed before another wins at least as many
/// keys; with as many wins, its oriented score is at least as high; and with
/// both equal, its id is not the greater.
pub proof fn lemma_rank_sorted_order(s: Seq<Ranked>)
    ensures
        forall|i: int, j: int|
            0 <= i < j < rank_sorted(s).len() ==> ({
                let a = #[trigger] rank_sorted(s)[i];
                let b = #[trigger] rank_sorted(s)[j];
                &&& a.wins >= b.wins
                &&& a.wins == b.wins ==> a.key >= b.key
                &&& a.wins == b.wins && a.key == b.key ==> !seq_lt(b.node.id@, a.node.id@)
            }),
{
    lemma_rank_sorted_sorts(s);
    let r = rank_sorted(s);
    assert forall|i: int, j: int| 0 <= i < j < r.len() implies ({
        let a = #[trigger] r[i];
        let b = #[trigger] r[j];
        &&& a.wins >= b.wins
        &&& a.wins == b.wins ==> a.key >= b.key
        &&& a.wins == b.wins && a.key == b.key ==> !seq_lt(b.node.id@, a.node.id@)
    }) by {
        assert(!rank_before(r[j], r[i]));
    }
}

} // verus!
