//! Byte strings: lexicographic order, prefixes and small helpers.
use vstd::prelude::*;

verus! {

/// Length of the longest common prefix of two byte strings.
pub open spec fn lcp(a: Seq<u8>, b: Seq<u8>) -> nat
    decreases a.len(),
{
    if a.len() == 0 || b.len() == 0 || a[0] != b[0] {
        0
    } else {
        1 + lcp(a.drop_first(), b.drop_first())
    }
}

/// Strict lexicographic order on byte strings (a proper prefix comes first).
pub open spec fn lex_lt(a: Seq<u8>, b: Seq<u8>) -> bool {
    let l = lcp(a, b);
    l < b.len() && (l == a.len() || a[l as int] < b[l as int])
}

/// Whether `a` and `b` agree on their first `n` bytes.
pub open spec fn agree(a: Seq<u8>, b: Seq<u8>, n: nat) -> bool {
    &&& n <= a.len()
    &&& n <= b.len()
    &&& forall|i: int| 0 <= i < n ==> a[i] == b[i]
}

pub proof fn lemma_lcp(a: Seq<u8>, b: Seq<u8>)
    ensures
        agree(a, b, lcp(a, b)),
        lcp(a, b) < a.len() && lcp(a, b) < b.len() ==> a[lcp(a, b) as int] != b[lcp(a, b) as int],
    decreases a.len(),
{
    if a.len() == 0 || b.len() == 0 || a[0] != b[0] {
    } else {
        let a1 = a.drop_first();
        let b1 = b.drop_first();
        lemma_lcp(a1, b1);
        let l = lcp(a1, b1);
        assert forall|i: int| 0 <= i < l + 1 implies a[i] == b[i] by {
            if i > 0 {
                assert(a1[i - 1] == b1[i - 1]);
            }
        }
        if l + 1 < a.len() && l + 1 < b.len() {
            assert(a1[l as int] != b1[l as int]);
        }
    }
}

/// The longest common prefix is the only length on which two strings agree and
/// beyond which they do not.
pub proof fn lemma_lcp_unique(a: Seq<u8>, b: Seq<u8>, n: nat)
    requires
        agree(a, b, n),
        n == a.len() || n == b.len() || a[n as int] != b[n as int],
    ensures
        lcp(a, b) == n,
{
    lemma_lcp(a, b);
    if lcp(a, b) < n {
        assert(a[lcp(a, b) as int] == b[lcp(a, b) as int]);
    }
}

pub proof fn lemma_lcp_at_least(a: Seq<u8>, b: Seq<u8>, n: nat)
    requires
        agree(a, b, n),
    ensures
        lcp(a, b) >= n,
{
    lemma_lcp(a, b);
    if lcp(a, b) < n {
        assert(a[lcp(a, b) as int] == b[lcp(a, b) as int]);
    }
}

/// `lex_lt` from a witness: the strings agree below `n` and differ there.
pub proof fn lemma_lex_lt_intro(a: Seq<u8>, b: Seq<u8>, n: nat)
    requires
        agree(a, b, n),
        n < b.len(),
        n == a.len() || a[n as int] < b[n as int],
    ensures
        lex_lt(a, b),
{
    lemma_lcp_unique(a, b, n);
}

pub proof fn lemma_lex_trans(a: Seq<u8>, b: Seq<u8>, c: Seq<u8>)
    requires
        lex_lt(a, b),
        lex_lt(b, c),
    ensures
        lex_lt(a, c),
{
    lemma_lcp(a, b);
    lemma_lcp(b, c);
    let l1 = lcp(a, b);
    let l2 = lcp(b, c);
    let l = if l1 <= l2 {
        l1
    } else {
        l2
    };
    assert forall|i: int| 0 <= i < l implies a[i] == c[i] by {
        assert(a[i] == b[i]);
        assert(b[i] == c[i]);
    }
    lemma_lex_lt_intro(a, c, l);
}

pub proof fn lemma_lex_irreflexive(a: Seq<u8>)
    ensures
        !lex_lt(a, a),
{
    lemma_lcp(a, a);
}

pub proof fn lemma_lex_total(a: Seq<u8>, b: Seq<u8>)
    ensures
        lex_lt(a, b) || lex_lt(b, a) || a == b,
        !(lex_lt(a, b) && lex_lt(b, a)),
        lex_lt(a, b) ==> a != b,
{
    lemma_lcp(a, b);
    lemma_lcp(b, a);
    let l = lcp(a, b);
    lemma_lcp_unique(b, a, l);
    if l == a.len() && l == b.len() {
        assert(a =~= b);
    }
}

/// Strings between two strings that share their first `n` bytes share them too.
pub proof fn lemma_lex_between(a: Seq<u8>, b: Seq<u8>, c: Seq<u8>, n: nat)
    requires
        lex_lt(a, b) || a == b,
        lex_lt(b, c) || b == c,
        agree(a, c, n),
    ensures
        agree(a, b, n),
{
    if a == b {
    } else if b == c {
    } else {
        lemma_lcp(a, b);
        lemma_lcp(b, c);
        let l1 = lcp(a, b);
        let l2 = lcp(b, c);
        if l1 < n {
            if l2 > l1 {
                assert(b[l1 as int] == c[l1 as int]);
                assert(a[l1 as int] == c[l1 as int]);
                assert(false);
            } else {
                assert(l2 <= l1);
                if l2 < l1 {
                    assert(a[l2 as int] == b[l2 as int]);
                    assert(a[l2 as int] == c[l2 as int]);
                    assert(false);
                } else {
                    assert(a[l1 as int] == c[l1 as int]);
                    assert(false);
                }
            }
        }
    }
}

pub proof fn lemma_agree_prefix(p: Seq<u8>, s: Seq<u8>)
    ensures
        p.is_prefix_of(s) <==> agree(p, s, p.len()),
{
    if agree(p, s, p.len()) {
        assert(p =~= s.subrange(0, p.len() as int));
    }
    if p.is_prefix_of(s) {
        assert forall|i: int| 0 <= i < p.len() implies p[i] == s[i] by {
            assert(s.subrange(0, p.len() as int)[i] == s[i]);
        }
    }
}

/// Whether two byte strings are equal.
pub fn bytes_eq(a: &[u8], b: &[u8]) -> (r: bool)
    ensures
        r == (a@ == b@),
{
    if a.len() != b.len() {
        return false;
    }
    let n: usize = a.len();
    let mut i: usize = 0;
    while i < n
        invariant
            i <= n,
            n == a.len(),
            n == b.len(),
            agree(a@, b@, i as nat),
        decreases n - i,
    {
        if a[i] != b[i] {
            return false;
        }
        i += 1;
    }
    proof {
        assert(a@ =~= b@);
    }
    true
}

/// Length of the longest common prefix of two byte strings.
pub fn common_len(a: &[u8], b: &[u8]) -> (r: usize)
    ensures
        r == lcp(a@, b@),
        r <= a.len(),
        r <= b.len(),
{
    let mut i: usize = 0;
    while i < a.len() && i < b.len() && a[i] == b[i]
        invariant
            agree(a@, b@, i as nat),
        decreases a.len() - i,
    {
        i += 1;
    }
    proof {
        lemma_lcp_unique(a@, b@, i as nat);
    }
    i
}

/// Whether `a` comes before `b` in lexicographic order.
pub fn bytes_less(a: &[u8], b: &[u8]) -> (r: bool)
    ensures
        r == lex_lt(a@, b@),
{
    let l: usize = common_len(a, b);
    l < b.len() && (l == a.len() || a[l] < b[l])
}

/// Whether `s` starts with `p`.
pub fn starts_with(s: &[u8], p: &[u8]) -> (r: bool)
    ensures
        r == p@.is_prefix_of(s@),
{
    proof {
        lemma_agree_prefix(p@, s@);
        lemma_lcp(s@, p@);
    }
    let l: usize = common_len(s, p);
    proof {
        if agree(p@, s@, p@.len()) {
            lemma_lcp_unique(s@, p@, p@.len());
        }
    }
    l == p.len()
}

/// Appends `s` to `out`.
pub fn append_bytes(out: &mut Vec<u8>, s: &[u8])
    ensures
        final(out)@ == old(out)@ + s@,
{
    out.extend_from_slice(s);
    proof {
        assert(out@ =~= old(out)@ + s@);
    }
}

/// A copy of `s`.
pub fn to_vec(s: &[u8]) -> (r: Vec<u8>)
    ensures
        r@ == s@,
{
    vstd::slice::slice_to_vec(s)
}

/// `Vec::into_boxed_slice`: the box holds the vector's elements.
#[verifier::external_body]
pub(crate) fn into_boxed(v: Vec<u8>) -> (r: Box<[u8]>)
    ensures
        r@ == v@,
{
    v.into_boxed_slice()
}

/// A boxed copy of `s`.
pub fn to_boxed(s: &[u8]) -> (r: Box<[u8]>)
    ensures
        r@ == s@,
{
    into_boxed(to_vec(s))
}

} // verus!
