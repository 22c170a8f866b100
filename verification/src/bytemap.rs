//! An ordered map from byte strings, kept as a vector sorted by key.
use crate::bytes::{bytes_eq, bytes_less, lex_lt, lemma_lex_irreflexive, lemma_lex_total, lemma_lex_trans};
use vstd::prelude::*;

verus! {

/// The keys of a list of pairs are strictly increasing.
pub open spec fn keys_sorted<T>(s: Seq<(Seq<u8>, T)>) -> bool {
    forall|i: int, j: int|
        #![trigger s[i], s[j]]
        0 <= i < j < s.len() ==> lex_lt(s[i].0, s[j].0)
}

/// Some pair of the list has the key `k`.
pub open spec fn has_key<T>(s: Seq<(Seq<u8>, T)>, k: Seq<u8>) -> bool {
    exists|i: int| 0 <= i < s.len() && (#[trigger] s[i]).0 == k
}

/// The map that a list of pairs stands for.
pub open spec fn pairs_map<T>(s: Seq<(Seq<u8>, T)>) -> Map<Seq<u8>, T>
    decreases s.len(),
{
    if s.len() == 0 {
        Map::empty()
    } else {
        pairs_map(s.drop_last()).insert(s.last().0, s.last().1)
    }
}

pub proof fn lemma_pairs_map_keys<T>(s: Seq<(Seq<u8>, T)>)
    ensures
        pairs_map(s).dom().finite(),
        forall|k: Seq<u8>| #[trigger] pairs_map(s).contains_key(k) <==> has_key(s, k),
    decreases s.len(),
{
    if s.len() > 0 {
        let t = s.drop_last();
        lemma_pairs_map_keys(t);
        assert forall|k: Seq<u8>| #[trigger] pairs_map(s).contains_key(k) <==> has_key(s, k) by {
            if pairs_map(s).contains_key(k) {
                if k == s.last().0 {
                    assert(s[s.len() - 1].0 == k);
                } else {
                    assert(pairs_map(t).contains_key(k));
                    let i = choose|i: int| 0 <= i < t.len() && (#[trigger] t[i]).0 == k;
                    assert(s[i].0 == k);
                }
            }
            if has_key(s, k) {
                let i = choose|i: int| 0 <= i < s.len() && (#[trigger] s[i]).0 == k;
                if i < s.len() - 1 {
                    assert(t[i].0 == k);
                    assert(pairs_map(t).contains_key(k));
                }
            }
        }
    }
}

pub proof fn lemma_pairs_map<T>(s: Seq<(Seq<u8>, T)>)
    requires
        keys_sorted(s),
    ensures
        pairs_map(s).dom().finite(),
        forall|k: Seq<u8>| #[trigger] pairs_map(s).contains_key(k) <==> has_key(s, k),
        forall|i: int|
            0 <= i < s.len() ==> pairs_map(s).contains_key((#[trigger] s[i]).0) && pairs_map(s)[s[i].0]
                == s[i].1,
        pairs_map(s).len() == s.len(),
    decreases s.len(),
{
    lemma_pairs_map_keys(s);
    if s.len() > 0 {
        let t = s.drop_last();
        assert(keys_sorted(t)) by {
            assert forall|i: int, j: int| 0 <= i < j < t.len() implies lex_lt(t[i].0, t[j].0) by {
                assert(s[i] == t[i] && s[j] == t[j]);
            }
        }
        lemma_pairs_map(t);
        assert forall|i: int| 0 <= i < s.len() implies pairs_map(s).contains_key((#[trigger] s[i]).0)
            && pairs_map(s)[s[i].0] == s[i].1 by {
            if i < s.len() - 1 {
                assert(t[i] == s[i]);
                assert(lex_lt(s[i].0, s[s.len() - 1].0));
                lemma_lex_total(s[i].0, s[s.len() - 1].0);
            }
        }
        assert(!pairs_map(t).contains_key(s.last().0)) by {
            if pairs_map(t).contains_key(s.last().0) {
                let i = choose|i: int| 0 <= i < t.len() && (#[trigger] t[i]).0 == s.last().0;
                assert(lex_lt(s[i].0, s[s.len() - 1].0));
                assert(t[i] == s[i]);
                lemma_lex_irreflexive(s.last().0);
            }
        }
    }
}

/// Two pairs of a sorted list with one key are one pair.
pub proof fn lemma_sorted_unique<T>(s: Seq<(Seq<u8>, T)>, i: int, j: int)
    requires
        keys_sorted(s),
        0 <= i < s.len(),
        0 <= j < s.len(),
        s[i].0 == s[j].0,
    ensures
        i == j,
{
    lemma_lex_irreflexive(s[i].0);
    if i < j {
        assert(lex_lt(s[i].0, s[j].0));
    }
    if j < i {
        assert(lex_lt(s[j].0, s[i].0));
    }
}

/// A sorted list is determined by the map it stands for.
pub proof fn lemma_sorted_pairs_determined<T>(s: Seq<(Seq<u8>, T)>, t: Seq<(Seq<u8>, T)>)
    requires
        keys_sorted(s),
        keys_sorted(t),
        pairs_map(s) == pairs_map(t),
    ensures
        s == t,
    decreases s.len(),
{
    lemma_pairs_map(s);
    lemma_pairs_map(t);
    if s.len() == 0 {
        assert(s =~= t);
    } else {
        let n = s.len() - 1;
        let a = s[n].0;
        let b = t[n].0;
        assert(has_key(t, a)) by {
            assert(pairs_map(s).contains_key(s[n].0));
        }
        assert(has_key(s, b)) by {
            assert(pairs_map(t).contains_key(t[n].0));
        }
        let i = choose|i: int| 0 <= i < t.len() && (#[trigger] t[i]).0 == a;
        let j = choose|j: int| 0 <= j < s.len() && (#[trigger] s[j]).0 == b;
        if i != n {
            assert(lex_lt(t[i].0, t[n].0));
            if j != n {
                assert(lex_lt(s[j].0, s[n].0));
                lemma_lex_total(a, b);
            } else {
                lemma_lex_irreflexive(a);
            }
        }
        assert(a == b);
        assert(s[n].1 == t[n].1) by {
            assert(pairs_map(s)[s[n].0] == s[n].1);
            assert(pairs_map(t)[t[n].0] == t[n].1);
        }
        let s1 = s.drop_last();
        let t1 = t.drop_last();
        assert(keys_sorted(s1)) by {
            assert forall|i: int, j: int| 0 <= i < j < s1.len() implies lex_lt(s1[i].0, s1[j].0) by {
                assert(s[i] == s1[i] && s[j] == s1[j]);
            }
        }
        assert(keys_sorted(t1)) by {
            assert forall|i: int, j: int| 0 <= i < j < t1.len() implies lex_lt(t1[i].0, t1[j].0) by {
                assert(t[i] == t1[i] && t[j] == t1[j]);
            }
        }
        lemma_pairs_map(s1);
        lemma_pairs_map(t1);
        assert(!has_key(s1, a)) by {
            if has_key(s1, a) {
                let k = choose|k: int| 0 <= k < s1.len() && (#[trigger] s1[k]).0 == a;
                assert(s[k] == s1[k]);
                lemma_sorted_unique(s, k, n);
            }
        }
        assert(!has_key(t1, a)) by {
            if has_key(t1, a) {
                let k = choose|k: int| 0 <= k < t1.len() && (#[trigger] t1[k]).0 == a;
                assert(t[k] == t1[k]);
                lemma_sorted_unique(t, k, n);
            }
        }
        assert(pairs_map(s1) =~= pairs_map(s).remove(a));
        assert(pairs_map(t1) =~= pairs_map(t).remove(a));
        lemma_sorted_pairs_determined(s1, t1);
        assert(s =~= s1.push(s[n]));
        assert(t =~= t1.push(t[n]));
    }
}

/// The entries of a finite map in key order.
pub open spec fn ordered<T>(m: Map<Seq<u8>, T>) -> Seq<(Seq<u8>, T)> {
    choose|s: Seq<(Seq<u8>, T)>| keys_sorted(s) && #[trigger] pairs_map(s) == m
}

/// A sorted list is the ordered form of the map it stands for.
pub proof fn lemma_ordered<T>(s: Seq<(Seq<u8>, T)>)
    requires
        keys_sorted(s),
    ensures
        ordered(pairs_map(s)) == s,
{
    let t = ordered(pairs_map(s));
    assert(keys_sorted(t) && pairs_map(t) == pairs_map(s));
    lemma_sorted_pairs_determined(s, t);
}

/// A sorted list with one entry more.
spec fn insert_sorted<T>(s: Seq<(Seq<u8>, T)>, k: Seq<u8>, v: T) -> Seq<(Seq<u8>, T)>
    decreases s.len(),
{
    if s.len() == 0 || lex_lt(s.last().0, k) {
        s.push((k, v))
    } else {
        insert_sorted(s.drop_last(), k, v).push(s.last())
    }
}

proof fn lemma_insert_sorted<T>(s: Seq<(Seq<u8>, T)>, k: Seq<u8>, v: T)
    requires
        keys_sorted(s),
        !has_key(s, k),
    ensures
        keys_sorted(insert_sorted(s, k, v)),
        pairs_map(insert_sorted(s, k, v)) == pairs_map(s).insert(k, v),
    decreases s.len(),
{
    let t = insert_sorted(s, k, v);
    if s.len() == 0 || lex_lt(s.last().0, k) {
        assert(t.drop_last() =~= s);
        assert forall|i: int, j: int| 0 <= i < j < t.len() implies lex_lt(t[i].0, t[j].0) by {
            if j < s.len() {
                assert(lex_lt(s[i].0, s[j].0));
            } else if i < s.len() - 1 {
                assert(lex_lt(s[i].0, s[s.len() - 1].0));
                lemma_lex_trans(s[i].0, s.last().0, k);
            }
        }
    } else {
        let s1 = s.drop_last();
        assert(s[s.len() - 1].0 != k);
        lemma_lex_total(s.last().0, k);
        assert(keys_sorted(s1)) by {
            assert forall|i: int, j: int| 0 <= i < j < s1.len() implies lex_lt(s1[i].0, s1[j].0) by {
                assert(s[i] == s1[i] && s[j] == s1[j]);
            }
        }
        assert(!has_key(s1, k)) by {
            if has_key(s1, k) {
                let i = choose|i: int| 0 <= i < s1.len() && (#[trigger] s1[i]).0 == k;
                assert(s[i].0 == k);
            }
        }
        lemma_insert_sorted(s1, k, v);
        let t1 = insert_sorted(s1, k, v);
        assert(t.drop_last() =~= t1);
        lemma_pairs_map(t1);
        lemma_pairs_map(s1);
        assert forall|i: int, j: int| 0 <= i < j < t.len() implies lex_lt(t[i].0, t[j].0) by {
            if j < t1.len() {
                assert(lex_lt(t1[i].0, t1[j].0));
            } else {
                assert(t[i] == t1[i]);
                assert(pairs_map(t1).contains_key(t1[i].0));
                if t1[i].0 != k {
                    assert(has_key(s1, t1[i].0));
                    let q = choose|q: int| 0 <= q < s1.len() && (#[trigger] s1[q]).0 == t1[i].0;
                    assert(s1[q] == s[q]);
                    assert(lex_lt(s[q].0, s[s.len() - 1].0));
                }
            }
        }
        assert(pairs_map(t) =~= pairs_map(s).insert(k, v));
    }
}

/// A finite map has an ordered form.
pub proof fn lemma_finite_ordered<T>(m: Map<Seq<u8>, T>)
    requires
        m.dom().finite(),
    ensures
        keys_sorted(ordered(m)),
        pairs_map(ordered(m)) == m,
    decreases m.dom().len(),
{
    if m.dom().len() == 0 {
        let s = Seq::<(Seq<u8>, T)>::empty();
        assert(pairs_map(s) =~= m);
        assert(keys_sorted(s));
    } else {
        let k = m.dom().choose();
        assert(m.dom().contains(k));
        let rest = m.remove(k);
        lemma_finite_ordered(rest);
        let s = ordered(rest);
        lemma_pairs_map(s);
        assert(!rest.contains_key(k));
        lemma_insert_sorted(s, k, m[k]);
        let t = insert_sorted(s, k, m[k]);
        assert(pairs_map(t) =~= m);
    }
}

/// The entries of `m` whose key starts with `p`.
pub open spec fn under<T>(m: Map<Seq<u8>, T>, p: Seq<u8>) -> Map<Seq<u8>, T> {
    Map::new(|k: Seq<u8>| m.contains_key(k) && p.is_prefix_of(k), |k: Seq<u8>| m[k])
}

/// The entries of `m` whose key does not start with `p`.
pub open spec fn outside<T>(m: Map<Seq<u8>, T>, p: Seq<u8>) -> Map<Seq<u8>, T> {
    Map::new(|k: Seq<u8>| m.contains_key(k) && !p.is_prefix_of(k), |k: Seq<u8>| m[k])
}

/// `f` turns a value with the view `a` into one with the view `b`.
pub open spec fn maps_to<V: View, W: View, F: Fn(&V) -> W>(f: F, a: V::V, b: W::V) -> bool {
    exists|v: V, w: W| v@ == a && w@ == b && #[trigger] call_ensures(f, (&v,), w)
}

/// A map from byte strings to values, iterated in lexicographic order of its keys.
#[derive(Debug)]
pub struct ByteMap<V> {
    entries: Vec<(Vec<u8>, V)>,
}

impl<V: View> View for ByteMap<V> {
    type V = Map<Seq<u8>, V::V>;

    closed spec fn view(&self) -> Map<Seq<u8>, V::V> {
        pairs_map(self.pairs())
    }
}

impl<V: View> ByteMap<V> {
    /// The entries in key order.
    pub closed spec fn pairs(&self) -> Seq<(Seq<u8>, V::V)> {
        Seq::new(self.entries@.len(), |i: int| (self.entries@[i].0@, self.entries@[i].1@))
    }

    /// The entries are strictly increasing by key.
    pub closed spec fn wf(&self) -> bool {
        keys_sorted(self.pairs())
    }

    /// What a well-formed map's view says of its ordered entries.
    pub proof fn lemma_view(&self)
        requires
            self.wf(),
        ensures
            keys_sorted(self.pairs()),
            self@ == pairs_map(self.pairs()),
            self@.dom().finite(),
            self@.len() == self.pairs().len(),
            forall|k: Seq<u8>| #[trigger] self@.contains_key(k) <==> has_key(self.pairs(), k),
            forall|i: int|
                0 <= i < self.pairs().len() ==> self@.contains_key((#[trigger] self.pairs()[i]).0)
                    && self@[self.pairs()[i].0] == self.pairs()[i].1,
            ordered(self@) == self.pairs(),
    {
        lemma_pairs_map(self.pairs());
        lemma_ordered(self.pairs());
    }

    /// A map with the same keys, and `f` of every value.
    pub fn map_values<W: View, F: Fn(&V) -> W>(&self, f: F) -> (r: ByteMap<W>)
        requires
            forall|v: &V| #[trigger] call_requires(f, (v,)),
        ensures
            self.wf() ==> r.wf(),
            r.pairs().len() == self.pairs().len(),
            forall|i: int|
                0 <= i < self.pairs().len() ==> (#[trigger] r.pairs()[i]).0 == self.pairs()[i].0
                    && maps_to(f, self.pairs()[i].1, r.pairs()[i].1),
    {
        let mut entries: Vec<(Vec<u8>, W)> = Vec::with_capacity(self.entries.len());
        let mut i: usize = 0;
        while i < self.entries.len()
            invariant
                i <= self.entries@.len(),
                entries@.len() == i,
                forall|v: &V| #[trigger] call_requires(f, (v,)),
                forall|j: int|
                    0 <= j < i ==> (#[trigger] entries@[j]).0@ == self.entries@[j].0@
                        && call_ensures(f, (&self.entries@[j].1,), entries@[j].1),
            decreases self.entries@.len() - i,
        {
            let w: W = f(&self.entries[i].1);
            entries.push((crate::bytes::to_vec(self.entries[i].0.as_slice()), w));
            i += 1;
        }
        let r = ByteMap { entries };
        proof {
            assert forall|i: int| 0 <= i < self.pairs().len() implies (#[trigger] r.pairs()[i]).0
                == self.pairs()[i].0 && maps_to(f, self.pairs()[i].1, r.pairs()[i].1) by {
                assert(entries@[i].0@ == self.entries@[i].0@);
                assert(call_ensures(f, (&self.entries@[i].1,), entries@[i].1));
            }
            if self.wf() {
                assert forall|i: int, j: int| 0 <= i < j < r.pairs().len() implies lex_lt(
                    r.pairs()[i].0,
                    r.pairs()[j].0,
                ) by {
                    assert(lex_lt(self.pairs()[i].0, self.pairs()[j].0));
                }
            }
        }
        r
    }

    /// An empty map.
    pub fn new() -> (r: Self)
        ensures
            r.wf(),
            r@ == Map::<Seq<u8>, V::V>::empty(),
    {
        ByteMap { entries: Vec::new() }
    }

    /// Number of entries.
    pub fn len(&self) -> (r: usize)
        requires
            self.wf(),
        ensures
            r == self@.len(),
            r == self.pairs().len(),
    {
        proof {
            self.lemma_view();
        }
        self.entries.len()
    }

    /// Whether there is no entry.
    pub fn is_empty(&self) -> (r: bool)
        requires
            self.wf(),
        ensures
            r == (self@.len() == 0),
            r == (self@ == Map::<Seq<u8>, V::V>::empty()),
    {
        proof {
            self.lemma_view();
            if self.pairs().len() > 0 {
                assert(self@.contains_key(self.pairs()[0].0));
            } else {
                assert(self@ =~= Map::<Seq<u8>, V::V>::empty());
            }
        }
        self.entries.len() == 0
    }

    /// Position of the first entry whose key is not below `key`.
    pub fn lower_bound(&self, key: &[u8]) -> (r: usize)
        requires
            self.wf(),
        ensures
            r <= self.pairs().len(),
            forall|j: int| 0 <= j < r ==> lex_lt((#[trigger] self.pairs()[j]).0, key@),
            forall|j: int|
                r <= j < self.pairs().len() ==> !lex_lt((#[trigger] self.pairs()[j]).0, key@),
    {
        let mut lo: usize = 0;
        let mut hi: usize = self.entries.len();
        while lo < hi
            invariant
                self.wf(),
                lo <= hi <= self.entries.len(),
                forall|j: int| 0 <= j < lo ==> lex_lt((#[trigger] self.pairs()[j]).0, key@),
                forall|j: int|
                    hi <= j < self.pairs().len() ==> !lex_lt((#[trigger] self.pairs()[j]).0, key@),
            decreases hi - lo,
        {
            let mid: usize = lo + (hi - lo) / 2;
            let below: bool = bytes_less(self.entries[mid].0.as_slice(), key);
            proof {
                let s = self.pairs();
                assert(s[mid as int].0 == self.entries@[mid as int].0@);
                if below {
                    assert forall|j: int| 0 <= j < mid + 1 implies lex_lt(
                        (#[trigger] s[j]).0,
                        key@,
                    ) by {
                        if j < mid {
                            assert(lex_lt(s[j].0, s[mid as int].0));
                            lemma_lex_trans(s[j].0, s[mid as int].0, key@);
                        }
                    }
                } else {
                    assert forall|j: int| mid <= j < s.len() implies !lex_lt(
                        (#[trigger] s[j]).0,
                        key@,
                    ) by {
                        if j > mid {
                            assert(lex_lt(s[mid as int].0, s[j].0));
                            if lex_lt(s[j].0, key@) {
                                lemma_lex_trans(s[mid as int].0, s[j].0, key@);
                            }
                        }
                    }
                }
            }
            if below {
                lo = mid + 1;
            } else {
                hi = mid;
            }
        }
        lo
    }

    /// Key of the entry at position `i`.
    pub fn key_at(&self, i: usize) -> (r: &Vec<u8>)
        requires
            i < self.pairs().len(),
        ensures
            r@ == self.pairs()[i as int].0,
    {
        &self.entries[i].0
    }

    /// Value of the entry at position `i`.
    pub fn value_at(&self, i: usize) -> (r: &V)
        requires
            i < self.pairs().len(),
        ensures
            r@ == self.pairs()[i as int].1,
    {
        &self.entries[i].1
    }

    /// Position of `key`, if it is present.
    pub fn find(&self, key: &[u8]) -> (r: Option<usize>)
        requires
            self.wf(),
        ensures
            match r {
                Some(i) => i < self.pairs().len() && self.pairs()[i as int].0 == key@
                    && self@.contains_key(key@) && self@[key@] == self.pairs()[i as int].1,
                None => !self@.contains_key(key@),
            },
    {
        let pos: usize = self.lower_bound(key);
        proof {
            self.lemma_view();
        }
        if pos < self.entries.len() && bytes_eq(self.entries[pos].0.as_slice(), key) {
            proof {
                assert(self.pairs()[pos as int].0 == key@);
            }
            return Some(pos);
        }
        proof {
            let s = self.pairs();
            if has_key(s, key@) {
                let i = choose|i: int| 0 <= i < s.len() && (#[trigger] s[i]).0 == key@;
                lemma_lex_irreflexive(key@);
                if i < pos {
                    assert(lex_lt(s[i].0, key@));
                }
                assert(pos <= i);
                if pos < i {
                    assert(lex_lt(s[pos as int].0, s[i].0));
                }
                assert(s[pos as int].0 == self.entries@[pos as int].0@);
                assert(false);
            }
        }
        None
    }

    /// The value stored under `key`.
    pub fn get(&self, key: &[u8]) -> (r: Option<&V>)
        requires
            self.wf(),
        ensures
            match r {
                Some(v) => self@.contains_key(key@) && v@ == self@[key@],
                None => !self@.contains_key(key@),
            },
    {
        match self.find(key) {
            Some(i) => Some(&self.entries[i].1),
            None => None,
        }
    }

    /// Whether `key` is present.
    pub fn contains_key(&self, key: &[u8]) -> (r: bool)
        requires
            self.wf(),
        ensures
            r == self@.contains_key(key@),
    {
        self.find(key).is_some()
    }

    /// Stores `value` under `key`, replacing what was there.
    pub fn insert(&mut self, key: Vec<u8>, value: V)
        requires
            old(self).wf(),
        ensures
            final(self).wf(),
            final(self)@ == old(self)@.insert(key@, value@),
    {
        let ghost kk = key@;
        let ghost vv = value@;
        let ghost s0 = self.pairs();
        let pos: usize = self.lower_bound(key.as_slice());
        proof {
            self.lemma_view();
        }
        if pos < self.entries.len() && bytes_eq(self.entries[pos].0.as_slice(), key.as_slice()) {
            self.entries[pos] = (key, value);
            proof {
                let s1 = self.pairs();
                assert(s1 =~= s0.update(pos as int, (kk, vv)));
                assert(s0[pos as int].0 == kk);
                assert forall|i: int, j: int| 0 <= i < j < s1.len() implies lex_lt(
                    s1[i].0,
                    s1[j].0,
                ) by {
                    assert(lex_lt(s0[i].0, s0[j].0));
                }
                lemma_pairs_map(s1);
                let m = pairs_map(s0).insert(kk, vv);
                assert forall|k: Seq<u8>| pairs_map(s1).contains_key(k) == m.contains_key(k) by {
                    if has_key(s1, k) {
                        let i = choose|i: int| 0 <= i < s1.len() && (#[trigger] s1[i]).0 == k;
                        assert(s0[i].0 == k);
                    }
                    if has_key(s0, k) {
                        let i = choose|i: int| 0 <= i < s0.len() && (#[trigger] s0[i]).0 == k;
                        assert(s1[i].0 == k);
                    }
                    assert(s1[pos as int].0 == kk);
                }
                assert forall|k: Seq<u8>| #[trigger]
                    pairs_map(s1).contains_key(k) implies pairs_map(s1)[k] == m[k] by {
                    let i = choose|i: int| 0 <= i < s1.len() && (#[trigger] s1[i]).0 == k;
                    assert(pairs_map(s1)[s1[i].0] == s1[i].1);
                    if i != pos {
                        assert(s0[i] == s1[i]);
                        if k == kk {
                            lemma_sorted_unique(s1, i, pos as int);
                        }
                        assert(pairs_map(s0)[s0[i].0] == s0[i].1);
                    }
                }
                assert(pairs_map(s1) =~= m);
            }
        } else {
            proof {
                assert forall|i: int| 0 <= i < s0.len() implies (#[trigger] s0[i]).0 != kk by {
                    lemma_lex_irreflexive(kk);
                    if s0[i].0 == kk {
                        if i < pos {
                            assert(lex_lt(s0[i].0, kk));
                        } else if i > pos {
                            assert(lex_lt(s0[pos as int].0, s0[i].0));
                        } else {
                            assert(s0[i].0 == self.entries@[i].0@);
                        }
                    }
                }
            }
            self.entries.insert(pos, (key, value));
            proof {
                let s1 = self.pairs();
                assert(s1 =~= s0.insert(pos as int, (kk, vv)));
                assert forall|i: int, j: int| 0 <= i < j < s1.len() implies lex_lt(
                    s1[i].0,
                    s1[j].0,
                ) by {
                    let p = pos as int;
                    if j < p {
                        assert(s1[i] == s0[i] && s1[j] == s0[j]);
                    } else if j == p {
                        assert(s1[i] == s0[i]);
                    } else if i < p {
                        assert(s1[i] == s0[i] && s1[j] == s0[j - 1]);
                        assert(lex_lt(s0[i].0, s0[j - 1].0));
                    } else if i == p {
                        assert(s1[j] == s0[j - 1]);
                        lemma_lex_total(s0[j - 1].0, kk);
                    } else {
                        assert(s1[i] == s0[i - 1] && s1[j] == s0[j - 1]);
                        assert(lex_lt(s0[i - 1].0, s0[j - 1].0));
                    }
                }
                lemma_pairs_map(s1);
                let m = pairs_map(s0).insert(kk, vv);
                assert forall|k: Seq<u8>| pairs_map(s1).contains_key(k) == m.contains_key(k) by {
                    if has_key(s1, k) {
                        let i = choose|i: int| 0 <= i < s1.len() && (#[trigger] s1[i]).0 == k;
                        if i < pos {
                            assert(s0[i].0 == k);
                        } else if i > pos {
                            assert(s0[i - 1].0 == k);
                        }
                    }
                    if has_key(s0, k) {
                        let i = choose|i: int| 0 <= i < s0.len() && (#[trigger] s0[i]).0 == k;
                        if i < pos {
                            assert(s1[i].0 == k);
                        } else {
                            assert(s1[i + 1].0 == k);
                        }
                    }
                    assert(s1[pos as int].0 == kk);
                }
                assert forall|k: Seq<u8>| #[trigger]
                    pairs_map(s1).contains_key(k) implies pairs_map(s1)[k] == m[k] by {
                    let i = choose|i: int| 0 <= i < s1.len() && (#[trigger] s1[i]).0 == k;
                    assert(pairs_map(s1)[s1[i].0] == s1[i].1);
                    if i < pos {
                        assert(s0[i] == s1[i]);
                        assert(pairs_map(s0)[s0[i].0] == s0[i].1);
                    } else if i > pos {
                        assert(s0[i - 1] == s1[i]);
                        assert(pairs_map(s0)[s0[i - 1].0] == s0[i - 1].1);
                    }
                }
                assert(pairs_map(s1) =~= m);
            }
        }
    }

    /// Removes the entry of `key`, if there is one.
    pub fn remove(&mut self, key: &[u8])
        requires
            old(self).wf(),
        ensures
            final(self).wf(),
            final(self)@ == old(self)@.remove(key@),
    {
        let ghost s0 = self.pairs();
        proof {
            self.lemma_view();
        }
        match self.find(key) {
            Some(pos) => {
                self.entries.remove(pos);
                proof {
                    let s1 = self.pairs();
                    assert(s1 =~= s0.remove(pos as int));
                    assert forall|i: int, j: int| 0 <= i < j < s1.len() implies lex_lt(
                        s1[i].0,
                        s1[j].0,
                    ) by {
                        let a = if i < pos { i } else { i + 1 };
                        let b = if j < pos { j } else { j + 1 };
                        assert(s1[i] == s0[a] && s1[j] == s0[b]);
                        assert(lex_lt(s0[a].0, s0[b].0));
                    }
                    lemma_pairs_map(s1);
                    let m = pairs_map(s0).remove(key@);
                    assert forall|k: Seq<u8>| pairs_map(s1).contains_key(k) == m.contains_key(k) by {
                        if has_key(s1, k) {
                            let i = choose|i: int| 0 <= i < s1.len() && (#[trigger] s1[i]).0 == k;
                            let a = if i < pos { i } else { i + 1 };
                            assert(s0[a].0 == k);
                            if k == key@ {
                                lemma_sorted_unique(s0, a, pos as int);
                            }
                        }
                        if has_key(s0, k) && k != key@ {
                            let i = choose|i: int| 0 <= i < s0.len() && (#[trigger] s0[i]).0 == k;
                            let a = if i < pos { i } else { i - 1 };
                            assert(s1[a].0 == k);
                        }
                    }
                    assert forall|k: Seq<u8>| #[trigger]
                        pairs_map(s1).contains_key(k) implies pairs_map(s1)[k] == m[k] by {
                        let i = choose|i: int| 0 <= i < s1.len() && (#[trigger] s1[i]).0 == k;
                        assert(pairs_map(s1)[s1[i].0] == s1[i].1);
                        let a = if i < pos { i } else { i + 1 };
                        assert(s0[a] == s1[i]);
                        assert(pairs_map(s0)[s0[a].0] == s0[a].1);
                    }
                    assert(pairs_map(s1) =~= m);
                }
            },
            None => {
                proof {
                    assert(self@ =~= old(self)@.remove(key@));
                }
            },
        }
    }

    /// Drops every entry.
    pub fn clear(&mut self)
        ensures
            final(self).wf(),
            final(self)@ == Map::<Seq<u8>, V::V>::empty(),
    {
        self.entries.clear();
        proof {
            assert(self.pairs() =~= Seq::empty());
        }
    }
}

} // verus!
