//! Values ranked by how often they occur.
use crate::bytemap::ByteMap;
use crate::bytes::to_vec;
use crate::order::{comes_before, is_order, order_by_key};
use vstd::prelude::*;

verus! {

/// How often `v` occurs.
pub open spec fn occurrences(xs: Seq<Seq<u8>>, v: Seq<u8>) -> nat
    decreases xs.len(),
{
    if xs.len() == 0 {
        0
    } else {
        occurrences(xs.drop_last(), v) + if xs.last() == v {
            1nat
        } else {
            0
        }
    }
}

/// The different values, in the order in which they first occur.
pub open spec fn distinct(xs: Seq<Seq<u8>>) -> Seq<Seq<u8>>
    decreases xs.len(),
{
    if xs.len() == 0 {
        Seq::empty()
    } else {
        let done = distinct(xs.drop_last());
        if done.contains(xs.last()) {
            done
        } else {
            done.push(xs.last())
        }
    }
}

/// Where a value stands among the different values.
pub open spec fn turn_of(xs: Seq<Seq<u8>>, v: Seq<u8>) -> int {
    choose|i: int| 0 <= i < distinct(xs).len() && distinct(xs)[i] == v
}

/// Whether `a` ranks before `b`: it occurs more often, or as often and first.
pub open spec fn ranks_before(xs: Seq<Seq<u8>>, a: Seq<u8>, b: Seq<u8>) -> bool {
    occurrences(xs, a) > occurrences(xs, b) || (occurrences(xs, a) == occurrences(xs, b) && turn_of(
        xs,
        a,
    ) < turn_of(xs, b))
}

/// Whether `r` lists the different values by rank.
pub open spec fn is_ranking(xs: Seq<Seq<u8>>, r: Seq<Seq<u8>>) -> bool {
    &&& forall|i: int| 0 <= i < r.len() ==> distinct(xs).contains(#[trigger] r[i])
    &&& forall|k: int| 0 <= k < distinct(xs).len() ==> r.contains(#[trigger] distinct(xs)[k])
    &&& forall|i: int, j: int|
        0 <= i < j < r.len() ==> ranks_before(xs, #[trigger] r[i], #[trigger] r[j])
}

/// The different values by rank.
pub open spec fn ranking(xs: Seq<Seq<u8>>) -> Seq<Seq<u8>> {
    choose|r: Seq<Seq<u8>>| is_ranking(xs, r)
}

/// What the different values are.
pub proof fn lemma_distinct(xs: Seq<Seq<u8>>)
    ensures
        forall|k: int| 0 <= k < xs.len() ==> distinct(xs).contains(#[trigger] xs[k]),
        forall|i: int| 0 <= i < distinct(xs).len() ==> xs.contains(#[trigger] distinct(xs)[i]),
        forall|i: int, j: int|
            0 <= i < j < distinct(xs).len() ==> #[trigger] distinct(xs)[i] != #[trigger] distinct(
                xs,
            )[j],
    decreases xs.len(),
{
    if xs.len() > 0 {
        let front = xs.drop_last();
        lemma_distinct(front);
        let done = distinct(front);
        let all = distinct(xs);
        assert forall|i: int| 0 <= i < done.len() implies all[i] == #[trigger] done[i] by {}
        assert forall|k: int| 0 <= k < xs.len() implies all.contains(#[trigger] xs[k]) by {
            if k < front.len() {
                assert(front[k] == xs[k]);
                let i = choose|i: int| 0 <= i < done.len() && done[i] == xs[k];
                assert(all[i] == xs[k]);
            } else if !done.contains(xs.last()) {
                assert(all[done.len() as int] == xs[k]);
            }
        }
        assert forall|i: int| 0 <= i < all.len() implies xs.contains(#[trigger] all[i]) by {
            if i < done.len() {
                assert(front.contains(done[i]));
                let k = choose|k: int| 0 <= k < front.len() && front[k] == done[i];
                assert(xs[k] == all[i]);
            } else {
                assert(xs[xs.len() - 1] == all[i]);
            }
        }
        assert forall|i: int, j: int| 0 <= i < j < all.len() implies #[trigger] all[i]
            != #[trigger] all[j] by {
            if j < done.len() {
                assert(done[i] != done[j]);
            }
        }
    }
}

/// Where a value stands among the different values is the only place it has there.
proof fn lemma_turn(xs: Seq<Seq<u8>>, i: int)
    requires
        0 <= i < distinct(xs).len(),
    ensures
        turn_of(xs, distinct(xs)[i]) == i,
{
    lemma_distinct(xs);
    let v = distinct(xs)[i];
    let k = turn_of(xs, v);
    assert(0 <= k < distinct(xs).len() && distinct(xs)[k] == v);
    if k < i {
        assert(distinct(xs)[k] != distinct(xs)[i]);
    }
    if i < k {
        assert(distinct(xs)[i] != distinct(xs)[k]);
    }
}

/// Values have one ranking only.
pub proof fn law_ranking_unique(xs: Seq<Seq<u8>>, r: Seq<Seq<u8>>)
    requires
        is_ranking(xs, r),
    ensures
        r == ranking(xs),
{
    let t = ranking(xs);
    assert(is_ranking(xs, t));
    lemma_rankings_agree(xs, r, t, r.len() as int);
    lemma_rankings_agree(xs, t, r, t.len() as int);
    assert(r =~= t);
}

/// The first `n` values of a ranking are those of any other.
proof fn lemma_rankings_agree(xs: Seq<Seq<u8>>, r: Seq<Seq<u8>>, t: Seq<Seq<u8>>, n: int)
    requires
        is_ranking(xs, r),
        is_ranking(xs, t),
        0 <= n <= r.len(),
    ensures
        n <= t.len(),
        forall|i: int| 0 <= i < n ==> #[trigger] r[i] == t[i],
    decreases n,
{
    if n > 0 {
        lemma_rankings_agree(xs, r, t, n - 1);
        let at = n - 1;
        let k = lemma_listed(xs, r, t, at);
        if k < at {
            assert(r[k] == t[k]);
            assert(ranks_before(xs, r[k], r[at]));
        }
        if k > at {
            let l = lemma_listed(xs, t, r, at);
            assert(ranks_before(xs, t[at], t[k]));
            if l > at {
                assert(ranks_before(xs, r[at], r[l]));
            } else if l < at {
                assert(r[l] == t[l]);
                assert(ranks_before(xs, t[l], t[at]));
            }
        }
        assert(r[at] == t[at]);
    }
}

/// A value of one ranking is listed in any other.
proof fn lemma_listed(xs: Seq<Seq<u8>>, r: Seq<Seq<u8>>, t: Seq<Seq<u8>>, i: int) -> (k: int)
    requires
        is_ranking(xs, r),
        is_ranking(xs, t),
        0 <= i < r.len(),
    ensures
        0 <= k < t.len(),
        t[k] == r[i],
{
    assert(distinct(xs).contains(r[i]));
    let d = choose|d: int| 0 <= d < distinct(xs).len() && distinct(xs)[d] == r[i];
    assert(t.contains(distinct(xs)[d]));
    choose|k: int| 0 <= k < t.len() && t[k] == distinct(xs)[d]
}

/// Counts values and remembers the order in which they first occurred.
pub struct Frequency {
    index: ByteMap<usize>,
    values: Vec<Vec<u8>>,
    counts: Vec<u64>,
}

impl Frequency {
    /// Whether the values that were counted are `xs`.
    pub closed spec fn counted(&self, xs: Seq<Seq<u8>>) -> bool {
        &&& self.index.wf()
        &&& self.values@.len() == distinct(xs).len()
        &&& self.counts@.len() == distinct(xs).len()
        &&& forall|i: int|
            0 <= i < distinct(xs).len() ==> (#[trigger] self.values@[i])@ == distinct(xs)[i]
        &&& forall|i: int|
            0 <= i < distinct(xs).len() ==> #[trigger] self.counts@[i] == occurrences(
                xs,
                distinct(xs)[i],
            )
        &&& forall|v: Seq<u8>|
            #[trigger] self.index@.contains_key(v) <==> distinct(xs).contains(v)
        &&& forall|v: Seq<u8>| #[trigger]
            self.index@.contains_key(v) ==> 0 <= self.index@[v] < distinct(xs).len() && distinct(
                xs,
            )[self.index@[v] as int] == v
    }

    /// Nothing counted.
    pub fn new() -> (r: Self)
        ensures
            r.counted(Seq::empty()),
    {
        Frequency { index: ByteMap::new(), values: Vec::new(), counts: Vec::new() }
    }

    /// Counts one value more.
    pub fn count(&mut self, value: &[u8], Ghost(xs): Ghost<Seq<Seq<u8>>>)
        requires
            old(self).counted(xs),
            xs.len() < u64::MAX,
        ensures
            final(self).counted(xs.push(value@)),
    {
        let ghost v = value@;
        let ghost more = xs.push(v);
        let ghost known = distinct(xs);
        proof {
            assert(more.drop_last() =~= xs);
            lemma_distinct(xs);
            lemma_count_bound(xs, v);
            assert forall|w: Seq<u8>| #[trigger] occurrences(more, w) == occurrences(xs, w) + if w
                == v {
                1nat
            } else {
                0
            } by {}
        }
        match self.index.get(value) {
            Some(at) => {
                let i: usize = *at;
                proof {
                    assert(self.index@.contains_key(v));
                    assert(known[i as int] == v);
                    assert(known.contains(v));
                    assert(self.counts@[i as int] == occurrences(xs, known[i as int]));
                }
                let n: u64 = self.counts[i];
                self.counts[i] = n + 1;
                proof {
                    assert forall|k: int| 0 <= k < distinct(more).len() implies #[trigger]
                        self.counts@[k] == occurrences(more, distinct(more)[k]) by {
                        if k != i {
                            assert(old(self).counts@[k] == occurrences(xs, known[k]));
                            if k < i {
                                assert(known[k] != known[i as int]);
                            } else {
                                assert(known[i as int] != known[k]);
                            }
                        }
                    }
                }
            },
            None => {
                let n: usize = self.values.len();
                proof {
                    assert(!known.contains(v));
                    lemma_absent(xs, v);
                }
                self.index.insert(to_vec(value), n);
                self.values.push(to_vec(value));
                self.counts.push(1);
                proof {
                    let all = distinct(more);
                    assert(all == known.push(v));
                    assert forall|k: int| 0 <= k < all.len() implies #[trigger] self.counts@[k]
                        == occurrences(more, all[k]) by {
                        if k < known.len() {
                            assert(old(self).counts@[k] == occurrences(xs, known[k]));
                            assert(known.contains(known[k]));
                        }
                    }
                    assert forall|w: Seq<u8>| #[trigger]
                        self.index@.contains_key(w) <==> all.contains(w) by {
                        if all.contains(w) && w != v {
                            let k = choose|k: int| 0 <= k < all.len() && all[k] == w;
                            assert(known[k] == w);
                        }
                        if w == v {
                            assert(all[known.len() as int] == w);
                        }
                        if known.contains(w) {
                            let k = choose|k: int| 0 <= k < known.len() && known[k] == w;
                            assert(all[k] == w);
                        }
                    }
                    assert forall|w: Seq<u8>| #[trigger] self.index@.contains_key(w) implies 0
                        <= self.index@[w] < all.len() && all[self.index@[w] as int] == w by {
                        if w != v {
                            assert(old(self).index@.contains_key(w));
                        }
                    }
                }
            },
        }
    }

    /// The values by rank, with their counts.
    pub fn ranked(&self, Ghost(xs): Ghost<Seq<Seq<u8>>>) -> (r: Vec<(Vec<u8>, u64)>)
        requires
            self.counted(xs),
        ensures
            Seq::new(r@.len(), |i: int| r@[i].0@) == ranking(xs),
            is_ranking(xs, ranking(xs)),
            forall|i: int|
                0 <= i < r@.len() ==> (#[trigger] r@[i]).1 == occurrences(xs, r@[i].0@),
    {
        let ghost known = distinct(xs);
        let mut keys: Vec<Option<u64>> = Vec::new();
        let mut i: usize = 0;
        while i < self.counts.len()
            invariant
                i <= self.counts@.len(),
                keys@.len() == i,
                forall|k: int|
                    0 <= k < i ==> #[trigger] keys@[k] == Some((u64::MAX - self.counts@[k]) as u64),
            decreases self.counts@.len() - i,
        {
            keys.push(Some(u64::MAX - self.counts[i]));
            i += 1;
        }
        let order = order_by_key(&keys);
        let mut out: Vec<(Vec<u8>, u64)> = Vec::new();
        let mut i: usize = 0;
        while i < order.len()
            invariant
                i <= order@.len(),
                self.counted(xs),
                known == distinct(xs),
                keys@.len() == known.len(),
                is_order(keys@, order@),
                out@.len() == i,
                forall|k: int|
                    0 <= k < i ==> (#[trigger] out@[k]).0@ == known[order@[k] as int] && out@[k].1
                        == occurrences(xs, known[order@[k] as int]),
            decreases order@.len() - i,
        {
            let at: usize = order[i];
            out.push((to_vec(self.values[at].as_slice()), self.counts[at]));
            i += 1;
        }
        proof {
            let r = Seq::new(out@.len(), |i: int| out@[i].0@);
            assert forall|i: int| 0 <= i < r.len() implies known.contains(#[trigger] r[i]) by {
                assert(order@[i] < keys@.len());
                assert(known[order@[i] as int] == r[i]);
            }
            assert forall|k: int| 0 <= k < known.len() implies r.contains(#[trigger] known[k]) by {
                assert(keys@[k] is Some);
                assert(order@.contains(k as usize));
                let i = choose|i: int| 0 <= i < order@.len() && order@[i] == k as usize;
                assert(r[i] == known[k]);
            }
            assert forall|i: int, j: int| 0 <= i < j < r.len() implies ranks_before(
                xs,
                #[trigger] r[i],
                #[trigger] r[j],
            ) by {
                let a = order@[i] as int;
                let b = order@[j] as int;
                assert(comes_before(keys@, a, b));
                assert(order@[i] < keys@.len() && order@[j] < keys@.len());
                assert(self.counts@[a] == occurrences(xs, known[a]));
                assert(self.counts@[b] == occurrences(xs, known[b]));
                lemma_turn(xs, a);
                lemma_turn(xs, b);
            }
            law_ranking_unique(xs, r);
        }
        out
    }
}

/// A value occurs at most as often as there are values.
proof fn lemma_count_bound(xs: Seq<Seq<u8>>, v: Seq<u8>)
    ensures
        occurrences(xs, v) <= xs.len(),
    decreases xs.len(),
{
    if xs.len() > 0 {
        lemma_count_bound(xs.drop_last(), v);
    }
}

/// A value that is not listed does not occur.
proof fn lemma_absent(xs: Seq<Seq<u8>>, v: Seq<u8>)
    requires
        !distinct(xs).contains(v),
    ensures
        occurrences(xs, v) == 0,
    decreases xs.len(),
{
    if xs.len() > 0 {
        lemma_distinct(xs);
        let done = distinct(xs.drop_last());
        if done.contains(v) {
            let k = choose|k: int| 0 <= k < done.len() && done[k] == v;
            assert(distinct(xs)[k] == v);
        }
        assert(distinct(xs).contains(xs[xs.len() - 1]));
        lemma_absent(xs.drop_last(), v);
    }
}

} // verus!
