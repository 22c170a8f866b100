//! The order of byte strings and names, and the entries of maps in that order.
use crate::bytemap::{lemma_finite_ordered, lemma_pairs_map, lemma_pairs_map_keys, ordered, outside, pairs_map, under};
use crate::bytes::{lcp, lemma_lcp, lex_lt};
use crate::extract::name_order::text_leq;
use crate::state::is_prefix_result;
use crate::types::{MptKeyValue, Result};
use vstd::prelude::*;

verus! {

/// Two byte strings are ordered by the first byte in which they differ; one that the other goes
/// on from comes first.
pub proof fn law_byte_order(a: Seq<u8>, b: Seq<u8>, d: int)
    requires
        0 <= d <= a.len(),
        d <= b.len(),
        forall|i: int| 0 <= i < d ==> #[trigger] a[i] == b[i],
    ensures
        d < a.len() && d < b.len() && a[d] < b[d] ==> lex_lt(a, b) && !lex_lt(b, a),
        d == a.len() && d < b.len() ==> lex_lt(a, b) && !lex_lt(b, a),
        d == a.len() && d == b.len() ==> !lex_lt(a, b) && !lex_lt(b, a),
{
    lemma_lcp(a, b);
    lemma_lcp(b, a);
    let l = lcp(a, b) as int;
    let r = lcp(b, a) as int;
    if l < d {
        assert(a[l] == b[l]);
    }
    if r < d {
        assert(a[r] == b[r]);
    }
    if d < a.len() && d < b.len() && a[d] < b[d] {
        if l > d {
            assert(a[d] == b[d]);
        }
        if r > d {
            assert(b[d] == a[d]);
        }
    }
}

/// The entries of a finite map in order: each entry of the map once, and no other, by increasing
/// keys.
pub proof fn law_ordered<T>(m: Map<Seq<u8>, T>, key: Seq<u8>)
    requires
        m.dom().finite(),
    ensures
        forall|i: int, j: int|
            #![trigger ordered(m)[i], ordered(m)[j]]
            0 <= i < j < ordered(m).len() ==> lex_lt(ordered(m)[i].0, ordered(m)[j].0),
        forall|i: int|
            0 <= i < ordered(m).len() ==> m.contains_key((#[trigger] ordered(m)[i]).0)
                && m[ordered(m)[i].0] == ordered(m)[i].1,
        m.contains_key(key) ==> exists|i: int|
            0 <= i < ordered(m).len() && #[trigger] ordered(m)[i] == (key, m[key]),
{
    lemma_finite_ordered(m);
    let s = ordered(m);
    lemma_pairs_map(s);
    lemma_pairs_map_keys(s);
    if m.contains_key(key) {
        assert(pairs_map(s).contains_key(key));
        let i = choose|i: int| 0 <= i < s.len() && (#[trigger] s[i]).0 == key;
        assert(s[i] == (key, m[key]));
    }
}

/// The entries under a prefix are those whose keys start with it, and the others are outside.
pub proof fn law_under<T>(m: Map<Seq<u8>, T>, p: Seq<u8>, key: Seq<u8>)
    ensures
        ({
            let starts = key.len() >= p.len() && key.subrange(0, p.len() as int) == p;
            &&& under(m, p).contains_key(key) <==> m.contains_key(key) && starts
            &&& outside(m, p).contains_key(key) <==> m.contains_key(key) && !starts
            &&& under(m, p).contains_key(key) ==> under(m, p)[key] == m[key]
            &&& outside(m, p).contains_key(key) ==> outside(m, p)[key] == m[key]
        }),
{
    if key.len() >= p.len() && key.subrange(0, p.len() as int) == p {
        assert(p.is_prefix_of(key));
    }
    if p.is_prefix_of(key) {
        assert(p =~= key.subrange(0, p.len() as int));
    }
}

/// Names are ordered by the first character in which they differ; one that another goes on from
/// comes first.
pub proof fn law_name_order(a: Seq<char>, b: Seq<char>, d: int)
    requires
        0 <= d <= a.len(),
        d <= b.len(),
        forall|i: int| 0 <= i < d ==> #[trigger] a[i] == b[i],
    ensures
        d < a.len() && d < b.len() && a[d] < b[d] ==> text_leq(a, b) && !text_leq(b, a),
        d == a.len() ==> text_leq(a, b),
        d == a.len() && d < b.len() ==> !text_leq(b, a),
    decreases d,
{
    if d > 0 {
        assert(a[0] == b[0]);
        let (s, t) = (a.drop_first(), b.drop_first());
        assert forall|i: int| 0 <= i < d - 1 implies #[trigger] s[i] == t[i] by {
            assert(a[i + 1] == b[i + 1]);
        }
        law_name_order(s, t, d - 1);
    }
}

/// A prefix operation gives the pairs, nothing where there are none, and the error of an invalid
/// key where it fails.
pub proof fn law_prefix_result(
    r: Result<Option<Vec<MptKeyValue>>>,
    want: core::result::Result<Seq<(Seq<u8>, Seq<u8>)>, Seq<char>>,
)
    requires
        is_prefix_result(r, want),
    ensures
        want matches Ok(pairs) ==> (pairs.len() == 0 <==> (r matches Ok(found) && found is None)),
        want matches Ok(pairs) ==> (pairs.len() > 0 ==> (r matches Ok(found) && found is Some
            && found->0@.len() == pairs.len() && forall|i: int|
            0 <= i < pairs.len() ==> (#[trigger] found->0@[i]).0@ == pairs[i].0 && found->0@[i].1@
                == pairs[i].1)),
        want matches Err(why) ==> (r matches Err(e) && e.text() == "invalid key: "@ + why),
{
    if let Ok(pairs) = want {
        if pairs.len() > 0 {
            let found = r->Ok_0->0;
            let listed = crate::incremental::kv_pairs(found@);
            assert forall|i: int| 0 <= i < pairs.len() implies (#[trigger] found@[i]).0@ == pairs[i].0
                && found@[i].1@ == pairs[i].1 by {
                assert(listed[i] == pairs[i]);
            }
        }
    }
}

} // verus!
