//! A map from text keys to values, kept in ascending key order.

use vstd::prelude::*;

use crate::keyed::DeepClone;
use crate::text::{
    lemma_seq_lt_asymmetric, lemma_seq_lt_irreflexive, lemma_seq_lt_total,
    lemma_seq_lt_transitive, seq_lt, sorted_strict, str_eq, str_lt,
};

verus! {

/// A map from text keys to values whose entries stay sorted by key, with
/// each key at most once (the ordered-map behaviour of `BTreeMap<String, V>`).
#[derive(Debug)]
pub struct TextMap<V> {
    ks: Vec<String>,
    vs: Vec<V>,
}

/// The texts of a list of keys, in order.
pub open spec fn key_seq(ks: Seq<String>) -> Seq<Seq<char>> {
    Seq::new(ks.len(), |i: int| ks[i]@)
}

/// The index in sorted keys `ks` of key `k`.
pub open spec fn index_of(ks: Seq<Seq<char>>, k: Seq<char>) -> int {
    choose|i: int| 0 <= i < ks.len() && ks[i] == k
}

/// In strictly sorted keys, equal keys sit at equal positions.
pub proof fn lemma_sorted_unique(ks: Seq<Seq<char>>, i: int, j: int)
    requires
        sorted_strict(ks),
        0 <= i < ks.len(),
        0 <= j < ks.len(),
        ks[i] == ks[j],
    ensures
        i == j,
{
    if i < j {
        lemma_seq_lt_irreflexive(ks[i]);
    } else if j < i {
        lemma_seq_lt_irreflexive(ks[i]);
    }
}

/// Two strictly sorted key lists holding the same keys are the same list.
pub proof fn lemma_sorted_same_keys(a: Seq<Seq<char>>, b: Seq<Seq<char>>)
    requires
        sorted_strict(a),
        sorted_strict(b),
        forall|k: Seq<char>| a.contains(k) <==> b.contains(k),
    ensures
        a == b,
    decreases a.len(),
{
    if a.len() == 0 {
        if b.len() > 0 {
            assert(b.contains(b[0]));
        }
    } else {
        assert(a.contains(a[0]));
        assert(b.len() > 0);
        assert(b.contains(b[0]));
        let j = choose|j: int| 0 <= j < b.len() && b[j] == a[0];
        let i = choose|i: int| 0 <= i < a.len() && a[i] == b[0];
        if j > 0 {
            assert(seq_lt(b[0], b[j]));
            if i > 0 {
                assert(seq_lt(a[0], a[i]));
                lemma_seq_lt_transitive(a[0], b[0], a[0]);
                lemma_seq_lt_irreflexive(a[0]);
            } else {
                lemma_seq_lt_irreflexive(a[0]);
            }
        }
        assert(b[0] == a[0]);
        let a1 = a.drop_first();
        let b1 = b.drop_first();
        assert forall|k: Seq<char>| a1.contains(k) <==> b1.contains(k) by {
            if a1.contains(k) {
                let x = choose|x: int| 0 <= x < a1.len() && a1[x] == k;
                assert(a[x + 1] == k);
                assert(seq_lt(a[0], a[x + 1]));
                lemma_seq_lt_irreflexive(a[0]);
                assert(b.contains(k));
                let y = choose|y: int| 0 <= y < b.len() && b[y] == k;
                assert(y != 0);
                assert(b1[y - 1] == k);
            }
            if b1.contains(k) {
                let x = choose|x: int| 0 <= x < b1.len() && b1[x] == k;
                assert(b[x + 1] == k);
                assert(seq_lt(b[0], b[x + 1]));
                lemma_seq_lt_irreflexive(b[0]);
                assert(a.contains(k));
                let y = choose|y: int| 0 <= y < a.len() && a[y] == k;
                assert(y != 0);
                assert(a1[y - 1] == k);
            }
        }
        lemma_sorted_same_keys(a1, b1);
        assert(a =~= seq![a[0]] + a1);
        assert(b =~= seq![b[0]] + b1);
    }
}

impl<V> TextMap<V> {
    #[verifier::type_invariant]
    spec fn sorted(&self) -> bool {
        &&& self.ks@.len() == self.vs@.len()
        &&& sorted_strict(key_seq(self.ks@))
    }

    /// The keys, in ascending order.
    pub closed spec fn keys(&self) -> Seq<Seq<char>> {
        key_seq(self.ks@)
    }

    /// The value stored under key `k`.
    pub closed spec fn value_for(&self, k: Seq<char>) -> V {
        self.vs@[index_of(self.keys(), k)]
    }

    /// The map from each key to its value.
    pub open spec fn view(&self) -> Map<Seq<char>, V> {
        Map::new(|k: Seq<char>| self.keys().contains(k), |k: Seq<char>| self.value_for(k))
    }

    proof fn lemma_value_at(&self, i: int)
        requires
            0 <= i < self.keys().len(),
            sorted_strict(self.keys()),
        ensures
            self@.dom().contains(self.keys()[i]),
            self@[self.keys()[i]] == self.vs@[i],
    {
        let ks = self.keys();
        assert(ks.contains(ks[i]));
        let j = index_of(ks, ks[i]);
        lemma_sorted_unique(ks, i, j);
    }

    /// Two maps with sorted keys and the same contents list the same keys in
    /// the same order.
    pub proof fn lemma_same_view_same_keys(a: &Self, b: &Self)
        requires
            sorted_strict(a.keys()),
            sorted_strict(b.keys()),
            a@.dom() == b@.dom(),
        ensures
            a.keys() == b.keys(),
    {
        assert forall|k: Seq<char>| a.keys().contains(k) <==> b.keys().contains(k) by {
            assert(a@.dom().contains(k) == a.keys().contains(k));
            assert(b@.dom().contains(k) == b.keys().contains(k));
        }
        lemma_sorted_same_keys(a.keys(), b.keys());
    }

    /// The keys are strictly ascending.
    pub fn keys_sorted(&self)
        ensures
            sorted_strict(self.keys()),
    {
        proof {
            use_type_invariant(self);
        }
    }

    /// The keys in ascending order, each once.
    pub fn key_list(&self) -> (r: Vec<String>)
        ensures
            r.deep_view() == self.keys(),
            sorted_strict(self.keys()),
    {
        proof {
            use_type_invariant(self);
        }
        let mut out: Vec<String> = Vec::new();
        let mut i: usize = 0;
        while i < self.ks.len()
            invariant
                i <= self.ks@.len(),
                out@.len() == i,
                out.deep_view() == self.keys().take(i as int),
            decreases self.ks@.len() - i,
        {
            let k = self.ks[i].clone();
            let ghost prev = out@;
            out.push(k);
            assert(out@ == prev.push(k));
            assert(out.deep_view() =~= self.keys().take(i + 1));
            i = i + 1;
        }
        assert(self.keys().take(self.ks@.len() as int) =~= self.keys());
        out
    }

    /// An empty map.
    pub fn new() -> (r: Self)
        ensures
            r@ == Map::<Seq<char>, V>::empty(),
            r.keys() == Seq::<Seq<char>>::empty(),
    {
        let r = TextMap { ks: Vec::new(), vs: Vec::new() };
        assert(r.keys() =~= Seq::<Seq<char>>::empty());
        assert(r@ =~= Map::<Seq<char>, V>::empty());
        r
    }

    /// The number of keys.
    pub fn len(&self) -> (r: usize)
        ensures
            r == self.keys().len(),
    {
        self.ks.len()
    }

    /// The key at position `i`.
    pub fn key_at(&self, i: usize) -> (r: &String)
        requires
            i < self.keys().len(),
        ensures
            r@ == self.keys()[i as int],
    {
        &self.ks[i]
    }

    /// The value at position `i`: the value of the key at position `i`.
    pub fn value_at(&self, i: usize) -> (r: &V)
        requires
            i < self.keys().len(),
        ensures
            self@.dom().contains(self.keys()[i as int]),
            *r == self@[self.keys()[i as int]],
    {
        proof {
            use_type_invariant(self);
            self.lemma_value_at(i as int);
        }
        &self.vs[i]
    }

    /// The position of `key`, if present.
    pub fn position(&self, key: &str) -> (r: Option<usize>)
        ensures
            match r {
                Some(i) => i < self.keys().len() && self.keys()[i as int] == key@,
                None => !self@.dom().contains(key@),
            },
    {
        let mut i: usize = 0;
        while i < self.ks.len()
            invariant
                i <= self.ks@.len(),
                forall|j: int| 0 <= j < i ==> self.keys()[j] != key@,
            decreases self.ks@.len() - i,
        {
            if str_eq(self.ks[i].as_str(), key) {
                return Some(i);
            }
            i = i + 1;
        }
        None
    }

    /// The value of `key`, if present.
    pub fn get(&self, key: &str) -> (r: Option<&V>)
        ensures
            match r {
                Some(v) => self@.dom().contains(key@) && *v == self@[key@],
                None => !self@.dom().contains(key@),
            },
    {
        match self.position(key) {
            Some(i) => {
                proof {
                    use_type_invariant(self);
                    self.lemma_value_at(i as int);
                }
                Some(&self.vs[i])
            },
            None => None,
        }
    }

    /// A mutable handle on the value of `key`, if present: the keys stay as
    /// they are, and `key` comes to hold what is left behind the handle.
    pub fn get_mut(&mut self, key: &str) -> (r: Option<&mut V>)
        ensures
            match r {
                Some(v) => old(self)@.dom().contains(key@) && *v == old(self)@[key@]
                    && final(self)@ == old(self)@.insert(key@, *final(v)),
                None => !old(self)@.dom().contains(key@) && final(self)@ == old(self)@,
            },
    {
        proof {
            use_type_invariant(&*self);
        }
        let ghost old_keys = self.keys();
        let ghost old_vals = self.vs@;
        let ghost old_view = self@;
        match self.position(key) {
            Some(i) => {
                proof {
                    self.lemma_value_at(i as int);
                    lemma_sorted_unique(old_keys, i as int, index_of(old_keys, key@));
                    assert forall|k: Seq<char>| #[trigger] old_keys.contains(k) && k != key@
                        implies index_of(old_keys, k) != i by {}
                }
                Some(&mut self.vs[i])
            },
            None => None,
        }
    }

    /// Whether `key` is present.
    pub fn contains_key(&self, key: &str) -> (r: bool)
        ensures
            r == self@.dom().contains(key@),
    {
        self.position(key).is_some()
    }

    /// Sets the value of `key` (replacing any value it had).
    pub fn insert(&mut self, key: String, value: V)
        ensures
            final(self)@ == old(self)@.insert(key@, value),
    {
        proof {
            use_type_invariant(&*self);
        }
        let ghost old_keys = self.keys();
        let ghost old_view = self@;
        let mut cur: TextMap<V> = TextMap::new();
        std::mem::swap(&mut cur, self);
        let TextMap { ks: mut ks, vs: mut vs } = cur;
        assert(key_seq(ks@) == old_keys);
        let mut p: usize = 0;
        while p < ks.len() && str_lt(ks[p].as_str(), key.as_str())
            invariant
                p <= ks@.len(),
                vs@.len() == ks@.len(),
                key_seq(ks@) == old_keys,
                forall|j: int| 0 <= j < p ==> seq_lt(#[trigger] old_keys[j], key@),
            decreases ks@.len() - p,
        {
            p = p + 1;
        }
        let ghost n = ks@.len();
        if p < ks.len() && str_eq(ks[p].as_str(), key.as_str()) {
            vs.set(p, value);
        } else {
            proof {
                if p < n {
                    lemma_seq_lt_total(old_keys[p as int], key@);
                }
            }
            ks.insert(p, key);
            vs.insert(p, value);
            let ghost nk = key_seq(ks@);
            assert(nk =~= old_keys.insert(p as int, key@));
            proof {
                assert forall|i: int, j: int| 0 <= i < j < nk.len() implies seq_lt(
                    #[trigger] nk[i],
                    #[trigger] nk[j],
                ) by {
                    if j < p {
                    } else if i < p && j == p {
                    } else if i < p && j > p {
                        if j - 1 > p {
                            lemma_seq_lt_transitive(key@, old_keys[p as int], old_keys[j - 1]);
                        }
                        lemma_seq_lt_transitive(nk[i], key@, nk[j]);
                    } else if i == p {
                        if j - 1 > p {
                            lemma_seq_lt_transitive(key@, old_keys[p as int], old_keys[j - 1]);
                        }
                    } else {
                    }
                }
                assert(!old_keys.contains(key@)) by {
                    if old_keys.contains(key@) {
                        let q = choose|q: int| 0 <= q < old_keys.len() && old_keys[q] == key@;
                        if q < p {
                            lemma_seq_lt_irreflexive(key@);
                        } else if q == p {
                        } else {
                            lemma_seq_lt_transitive(key@, old_keys[p as int], old_keys[q]);
                            lemma_seq_lt_irreflexive(key@);
                        }
                    }
                }
            }
        }
        *self = TextMap { ks, vs };
        proof {
            use_type_invariant(&*self);
            let ks = self.keys();
            assert(old_view == old(self)@);
            assert forall|k: Seq<char>| #![auto] self@.dom().contains(k) <==> old_view.insert(
                key@,
                value,
            ).dom().contains(k) by {
                if old_keys.contains(k) {
                    let i = choose|i: int| 0 <= i < old_keys.len() && old_keys[i] == k;
                    if (i < p) {
                        assert(ks[i] == k);
                    } else if ks.len() == old_keys.len() {
                        assert(ks[i] == k);
                    } else {
                        assert(ks[i + 1] == k);
                    }
                }
                if ks.contains(k) && k != key@ {
                    let i = choose|i: int| 0 <= i < ks.len() && ks[i] == k;
                    if ks.len() == old_keys.len() {
                        assert(old_keys[i] == k);
                    } else if i < p {
                        assert(old_keys[i] == k);
                    } else {
                        assert(old_keys[i - 1] == k);
                    }
                }
                if k == key@ {
                    if ks.len() == old_keys.len() {
                        assert(ks[p as int] == k);
                    } else {
                        assert(ks[p as int] == k);
                    }
                }
            }
            assert forall|k: Seq<char>| #![auto] self@.dom().contains(k) implies self@[k]
                == old_view.insert(key@, value)[k] by {
                let i = index_of(ks, k);
                self.lemma_value_at(i);
                if k != key@ {
                    let j = index_of(old_keys, k);
                    if ks.len() == old_keys.len() {
                        lemma_sorted_unique(ks, i, j);
                    } else if j < p {
                        lemma_sorted_unique(ks, i, j);
                    } else {
                        lemma_sorted_unique(ks, i, j + 1);
                    }
                } else {
                    lemma_sorted_unique(ks, i, p as int);
                }
            }
            assert(self@ =~= old_view.insert(key@, value));
        }
    }

    /// Removes `key`, handing back the value it had.
    pub fn remove(&mut self, key: &str) -> (r: Option<V>)
        ensures
            final(self)@ == old(self)@.remove(key@),
            match r {
                Some(v) => old(self)@.dom().contains(key@) && v == old(self)@[key@],
                None => !old(self)@.dom().contains(key@),
            },
    {
        proof {
            use_type_invariant(&*self);
        }
        let ghost old_keys = self.keys();
        let ghost old_view = self@;
        match self.position(key) {
            None => {
                assert(self@ =~= old_view.remove(key@));
                None
            },
            Some(p) => {
                proof {
                    self.lemma_value_at(p as int);
                }
                let mut cur: TextMap<V> = TextMap::new();
                std::mem::swap(&mut cur, self);
                let TextMap { ks: mut ks, vs: mut vs } = cur;
                ks.remove(p);
                let v = vs.remove(p);
                let ghost nk = key_seq(ks@);
                assert(nk =~= old_keys.remove(p as int));
                assert(sorted_strict(nk)) by {
                    assert forall|i: int, j: int| 0 <= i < j < nk.len() implies seq_lt(
                        #[trigger] nk[i],
                        #[trigger] nk[j],
                    ) by {
                        if i < p && j >= p {
                            assert(nk[j] == old_keys[j + 1]);
                        } else if i >= p {
                            assert(nk[i] == old_keys[i + 1]);
                            assert(nk[j] == old_keys[j + 1]);
                        }
                    }
                }
                *self = TextMap { ks, vs };
                proof {
                    use_type_invariant(&*self);
                    let ks = self.keys();
                    assert(ks == nk);
                    assert forall|k: Seq<char>| #![auto] self@.dom().contains(k)
                        <==> old_view.remove(key@).dom().contains(k) by {
                        if ks.contains(k) {
                            let i = choose|i: int| 0 <= i < ks.len() && ks[i] == k;
                            if i < p {
                                assert(old_keys[i] == k);
                                if k == key@ {
                                    lemma_sorted_unique(old_keys, i, p as int);
                                }
                            } else {
                                assert(old_keys[i + 1] == k);
                                if k == key@ {
                                    lemma_sorted_unique(old_keys, i + 1, p as int);
                                }
                            }
                        }
                        if old_keys.contains(k) && k != key@ {
                            let i = choose|i: int| 0 <= i < old_keys.len() && old_keys[i] == k;
                            if i < p {
                                assert(ks[i] == k);
                            } else {
                                assert(i != p);
                                assert(ks[i - 1] == k);
                            }
                        }
                    }
                    assert forall|k: Seq<char>| #![auto] self@.dom().contains(k) implies self@[k]
                        == old_view[k] by {
                        let i = index_of(ks, k);
                        self.lemma_value_at(i);
                        if i < p {
                            assert(old_keys[i] == k);
                            old(self).lemma_value_at(i);
                        } else {
                            assert(old_keys[i + 1] == k);
                            old(self).lemma_value_at(i + 1);
                        }
                    }
                    assert(self@ =~= old_view.remove(key@));
                }
                Some(v)
            },
        }
    }

    /// A map holding `pairs`; a key given more than once keeps its last value.
    pub fn from_pairs(pairs: Vec<(String, V)>) -> (r: Self)
        ensures
            r@ == pairs_map(pairs@),
    {
        let ghost p0 = pairs@;
        let ghost n = p0.len();
        let total = pairs.len();
        let mut pairs = pairs;
        let mut rest: Vec<(String, V)> = Vec::new();
        while pairs.len() > 0
            invariant
                pairs@ == p0.take(pairs@.len() as int),
                rest@.len() + pairs@.len() == n,
                n == p0.len(),
                forall|i: int| 0 <= i < rest@.len() ==> #[trigger] rest@[i] == p0[n - 1 - i],
            decreases pairs@.len(),
        {
            let p = pairs.pop().unwrap();
            rest.push(p);
            assert(pairs@ =~= p0.take(pairs@.len() as int));
        }
        let mut m = Self::new();
        let mut k: usize = 0;
        while rest.len() > 0
            invariant
                rest@.len() + k == n,
                n == p0.len(),
                n == total,
                forall|i: int| 0 <= i < rest@.len() ==> #[trigger] rest@[i] == p0[n - 1 - i],
                m@ == pairs_map(p0.take(k as int)),
            decreases rest@.len(),
        {
            let (key, value) = rest.pop().unwrap();
            assert(p0.take(k + 1).drop_last() =~= p0.take(k as int));
            m.insert(key, value);
            k = k + 1;
        }
        assert(p0.take(n as int) =~= p0);
        m
    }
}

impl<V: DeepView> DeepView for TextMap<V> {
    type V = Map<Seq<char>, V::V>;

    open spec fn deep_view(&self) -> Map<Seq<char>, V::V> {
        self@.map_values(|v: V| v.deep_view())
    }
}

impl<V: DeepClone> DeepClone for TextMap<V> {
    fn deep_clone(&self) -> (r: Self) {
        proof {
            use_type_invariant(self);
        }
        let mut out_k: Vec<String> = Vec::new();
        let mut out_v: Vec<V> = Vec::new();
        let mut i: usize = 0;
        while i < self.ks.len()
            invariant
                i <= self.ks@.len(),
                self.ks@.len() == self.vs@.len(),
                out_k@.len() == i,
                out_v@.len() == i,
                sorted_strict(key_seq(self.ks@)),
                forall|j: int| #![auto] 0 <= j < i ==> out_k@[j]@ == self.ks@[j]@
                    && out_v@[j].deep_view() == self.vs@[j].deep_view(),
            decreases self.ks@.len() - i,
        {
            let k = self.ks[i].clone();
            let v = self.vs[i].deep_clone();
            out_k.push(k);
            out_v.push(v);
            i = i + 1;
        }
        assert(key_seq(out_k@) =~= key_seq(self.ks@));
        let r = TextMap { ks: out_k, vs: out_v };
        proof {
            let ks = self.keys();
            assert(r.keys() == ks);
            assert forall|k: Seq<char>| #![auto] r@.dom().contains(k) implies r@[k].deep_view()
                == self@[k].deep_view() by {
                let j = index_of(ks, k);
                r.lemma_value_at(j);
                self.lemma_value_at(j);
            }
            assert(r.deep_view() =~= self.deep_view());
        }
        r
    }
}

/// The map that inserting `pairs` one after another builds.
pub open spec fn pairs_map<V>(pairs: Seq<(String, V)>) -> Map<Seq<char>, V>
    decreases pairs.len(),
{
    if pairs.len() == 0 {
        Map::empty()
    } else {
        pairs_map(pairs.drop_last()).insert(pairs.last().0@, pairs.last().1)
    }
}

} // verus!
