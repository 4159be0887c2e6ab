//! Records identified by a text key, and append-once vectors of them.

use vstd::prelude::*;

use crate::text::str_eq;

verus! {

/// A record identified by a text key carried in its deep view.
pub trait Keyed: DeepView + Sized {
    /// The key of a record's view.
    spec fn key_of(v: Self::V) -> Seq<char>;

    /// The record's key, as a string slice.
    fn key_str(&self) -> (r: &str)
        ensures
            r@ == Self::key_of(self.deep_view()),
    ;
}

/// Whether some record view of `s` has key `k`.
pub open spec fn has_key<T: Keyed>(s: Seq<T::V>, k: Seq<char>) -> bool {
    exists|i: int| 0 <= i < s.len() && T::key_of(#[trigger] s[i]) == k
}

/// Whether some record of `v` has key `k`.
pub fn contains_key<T: Keyed>(v: &Vec<T>, k: &str) -> (r: bool)
    ensures
        r == has_key::<T>(v.deep_view(), k@),
{
    let mut i: usize = 0;
    while i < v.len()
        invariant
            i <= v.len(),
            forall|j: int| 0 <= j < i ==> T::key_of(#[trigger] v.deep_view()[j]) != k@,
        decreases v.len() - i,
    {
        assert(v.deep_view()[i as int] == v@[i as int].deep_view());
        if str_eq(v[i].key_str(), k) {
            return true;
        }
        i = i + 1;
    }
    false
}

/// `s` with `item` appended unless a record with the same key is present.
pub open spec fn append_once<T: Keyed>(s: Seq<T::V>, item: T::V) -> Seq<T::V> {
    if has_key::<T>(s, T::key_of(item)) {
        s
    } else {
        s.push(item)
    }
}

/// Whether the strings `s` hold the views `t`, in order.
pub open spec fn views_are(s: Seq<String>, t: Seq<Seq<char>>) -> bool {
    s.len() == t.len() && forall|i: int| 0 <= i < s.len() ==> #[trigger] s[i]@ == t[i]
}

/// The views of a sequence of strings.
pub open spec fn string_views(s: Seq<String>) -> Seq<Seq<char>> {
    s.map_values(|x: String| x@)
}

/// `s` without later repeats of a value, first occurrences kept in order.
pub open spec fn dedup(s: Seq<Seq<char>>) -> Seq<Seq<char>>
    decreases s.len(),
{
    if s.len() == 0 {
        Seq::empty()
    } else {
        let head = dedup(s.drop_last());
        if head.contains(s.last()) {
            head
        } else {
            head.push(s.last())
        }
    }
}

/// Whether some string of `v` has the view `k`.
fn contains_string(v: &Vec<String>, k: &String) -> (r: bool)
    ensures
        r == string_views(v@).contains(k@),
{
    let mut i: usize = 0;
    while i < v.len()
        invariant
            i <= v.len(),
            forall|j: int| 0 <= j < i ==> v@[j]@ != k@,
        decreases v.len() - i,
    {
        if v[i] == *k {
            assert(string_views(v@)[i as int] == k@);
            return true;
        }
        i = i + 1;
    }
    assert forall|j: int| 0 <= j < string_views(v@).len() implies string_views(v@)[j] != k@ by {
        assert(string_views(v@)[j] == v@[j]@);
    }
    false
}

/// Keeps the first occurrence of each value of `values`, in order.
pub fn unique(values: Vec<String>) -> (r: Vec<String>)
    ensures
        string_views(r@) == dedup(string_views(values@)),
{
    let mut out: Vec<String> = Vec::new();
    let mut i: usize = 0;
    while i < values.len()
        invariant
            i <= values.len(),
            string_views(out@) == dedup(string_views(values@).take(i as int)),
        decreases values.len() - i,
    {
        let ghost pre = string_views(values@).take(i as int);
        assert(string_views(values@).take(i + 1).drop_last() =~= pre);
        assert(string_views(values@).take(i + 1).last() == values@[i as int]@);
        if !contains_string(&out, &values[i]) {
            let ghost prev = out@;
            out.push(values[i].clone());
            assert(string_views(out@) =~= string_views(prev).push(values@[i as int]@));
        }
        i = i + 1;
    }
    assert(string_views(values@).take(values.len() as int) =~= string_views(values@));
    out
}

/// The last `n` elements of `s` (all of them when there are fewer).
pub open spec fn newest_spec<T>(s: Seq<T>, n: nat) -> Seq<T> {
    if s.len() > n {
        s.subrange(s.len() - n, s.len() as int)
    } else {
        s
    }
}

/// Keeps only the last `max_items` elements of `values`.
pub fn newest<T>(values: Vec<T>, max_items: usize) -> (r: Vec<T>)
    ensures
        r@ == newest_spec(values@, max_items as nat),
{
    let mut values = values;
    if values.len() > max_items {
        let cut = values.len() - max_items;
        let tail = values.split_off(cut);
        return tail;
    }
    values
}

/// Whether a relevance ranking applies to `item_count` records of which
/// `sketch_count` have a similarity sketch: there are records, and each has one.
pub fn ranking_applies(item_count: usize, sketch_count: usize) -> (r: bool)
    ensures
        r == (item_count > 0 && sketch_count >= item_count),
{
    item_count > 0 && sketch_count >= item_count
}

/// The records that a relevance ranking picks: the newest `max_items` where
/// the ranking named none, else those at the first `max_items` ranked
/// positions, in ranked order.
pub open spec fn ranked_pick_spec<T: DeepView>(items: Seq<T>, ranked: Seq<usize>, max_items: nat) -> Seq<T::V> {
    if ranked.len() == 0 {
        newest_spec(items, max_items).map_values(|x: T| x.deep_view())
    } else {
        let n = if ranked.len() < max_items { ranked.len() } else { max_items };
        ranked.take(n as int).map_values(|i: usize| items[i as int].deep_view())
    }
}

/// Picks records by a relevance ranking (positions into `items`, best first),
/// falling back on the newest records where the ranking named none.
pub fn pick_ranked<T: DeepClone>(items: Vec<T>, ranked: &Vec<usize>, max_items: usize) -> (r: Vec<T>)
    requires
        forall|j: int| 0 <= j < ranked@.len() ==> ranked@[j] < items@.len(),
    ensures
        r.deep_view() == ranked_pick_spec(items@, ranked@, max_items as nat),
{
    if ranked.len() == 0 {
        let r = newest(items, max_items);
        assert(r.deep_view() =~= ranked_pick_spec(items@, ranked@, max_items as nat));
        return r;
    }
    let n: usize = if ranked.len() < max_items { ranked.len() } else { max_items };
    let mut out: Vec<T> = Vec::new();
    let mut j: usize = 0;
    while j < n
        invariant
            j <= n,
            n <= ranked@.len(),
            out@.len() == j,
            forall|t: int| 0 <= t < ranked@.len() ==> ranked@[t] < items@.len(),
            out.deep_view() == ranked@.take(j as int).map_values(|i: usize| items@[i as int].deep_view()),
        decreases n - j,
    {
        let idx = ranked[j];
        let v = items[idx].deep_clone();
        let ghost prev = out@;
        let ghost prev_dv = out.deep_view();
        out.push(v);
        proof {
            let want = ranked@.take(j + 1).map_values(|i: usize| items@[i as int].deep_view());
            assert(out@ == prev.push(v));
            assert(ranked@.take(j + 1) =~= ranked@.take(j as int).push(ranked@[j as int]));
            assert forall|t: int| 0 <= t < out@.len() implies #[trigger] out.deep_view()[t] == want[t] by {
                if t < j {
                    assert(out@[t] == prev[t]);
                    assert(prev_dv[t] == prev[t].deep_view());
                    assert(want[t] == ranked@.take(j as int).map_values(|i: usize| items@[i as int].deep_view())[t]);
                } else {
                    assert(out@[t] == v);
                }
            }
            assert(out.deep_view() =~= want);
        }
        j = j + 1;
    }
    out
}

/// Values that can be copied with a proof that the copy has the same deep view.
pub trait DeepClone: DeepView + Sized {
    /// A copy of `self` with the same deep view.
    fn deep_clone(&self) -> (r: Self)
        ensures
            r.deep_view() == self.deep_view(),
    ;
}

impl DeepClone for String {
    fn deep_clone(&self) -> (r: Self) {
        self.clone()
    }
}

impl DeepClone for u32 {
    fn deep_clone(&self) -> (r: Self) {
        *self
    }
}

impl DeepClone for i64 {
    fn deep_clone(&self) -> (r: Self) {
        *self
    }
}

impl<T: DeepClone> DeepClone for Option<T> {
    fn deep_clone(&self) -> (r: Self) {
        match self {
            Some(x) => Some(x.deep_clone()),
            None => None,
        }
    }
}

impl<T: DeepClone> DeepClone for Vec<T> {
    fn deep_clone(&self) -> (r: Self) {
        let mut out: Vec<T> = Vec::new();
        let mut i: usize = 0;
        while i < self.len()
            invariant
                i <= self.len(),
                out@.len() == i,
                out.deep_view() == self.deep_view().take(i as int),
            decreases self.len() - i,
        {
            let x = self[i].deep_clone();
            assert(x.deep_view() == self@[i as int].deep_view());
            let ghost prev = out@;
            out.push(x);
            assert(out@ == prev.push(x));
            assert forall|k: int| 0 <= k < i + 1 implies #[trigger] out.deep_view()[k]
                == self.deep_view()[k] by {
                if k < i {
                    assert(out@[k] == prev[k]);
                    assert(self.deep_view().take(i as int)[k] == self.deep_view()[k]);
                }
            }
            assert(out.deep_view() =~= self.deep_view().take(i + 1));
            i = i + 1;
        }
        assert(self.deep_view().take(self.len() as int) =~= self.deep_view());
        out
    }
}

} // verus!
