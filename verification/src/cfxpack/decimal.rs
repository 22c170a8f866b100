//! 256-bit words in decimal digits.
use crate::cfxpack::types::{array32, be_bytes, be_value, lemma_be_value_bound, pow256, zeros, U256};
use crate::text::{append_digit, decimal, digits_value, lemma_digits_take};
use vstd::prelude::*;

verus! {

/// One byte more at the front of a number.
proof fn lemma_be_front(b: u8, s: Seq<u8>)
    ensures
        be_value(seq![b] + s) == b * pow256(s.len()) + be_value(s),
    decreases s.len(),
{
    let all = seq![b] + s;
    if s.len() == 0 {
        assert(all.drop_last() =~= Seq::empty());
        assert(be_value(Seq::<u8>::empty()) == 0);
        assert(all.last() == b);
        let p = pow256(s.len());
        assert(p == 1);
        assert(b * p == b) by (nonlinear_arith)
            requires
                p == 1,
        ;
    } else {
        lemma_be_front(b, s.drop_last());
        assert(all.drop_last() =~= seq![b] + s.drop_last());
        assert(all.last() == s.last());
        let p = pow256((s.len() - 1) as nat);
        assert(256 * (b * p) == b * (256 * p)) by (nonlinear_arith);
    }
}

/// Multiplies a word by ten and adds a digit. Gives whether it fits.
fn push_digit(w: &mut Vec<u8>, d: u8) -> (r: bool)
    requires
        old(w)@.len() == 32,
        d < 10,
    ensures
        final(w)@.len() == 32,
        r == (10 * be_value(old(w)@) + d < pow256(32)),
        r ==> be_value(final(w)@) == 10 * be_value(old(w)@) + d,
{
    let mut carry: u16 = d as u16;
    let mut i: usize = 32;
    let ghost first = w@;
    proof {
        assert(first.skip(32) =~= Seq::empty());
        assert(w@.skip(32) =~= Seq::empty());
        let p = pow256(0);
        assert(p == 1);
        assert(carry * p == carry) by (nonlinear_arith)
            requires
                p == 1,
        ;
        assert(be_value(Seq::<u8>::empty()) == 0);
    }
    while i > 0
        invariant
            i <= 32,
            w@.len() == 32,
            first == old(w)@,
            first.len() == 32,
            carry < 10,
            forall|k: int| 0 <= k < i ==> w@[k] == first[k],
            carry * pow256((32 - i) as nat) + be_value(w@.skip(i as int)) == 10 * be_value(
                first.skip(i as int),
            ) + d,
        decreases i,
    {
        let ghost before = w@;
        let ghost n = (32 - i) as nat;
        let old_byte: u8 = w[i - 1];
        let v: u16 = 10 * old_byte as u16 + carry;
        proof {
            assert(v <= 2559);
        }
        w[i - 1] = (v % 256) as u8;
        proof {
            assert(w@.skip(i - 1) =~= seq![(v % 256) as u8] + before.skip(i as int));
            assert(first.skip(i - 1) =~= seq![old_byte] + first.skip(i as int));
            lemma_be_front((v % 256) as u8, before.skip(i as int));
            lemma_be_front(old_byte, first.skip(i as int));
            let p = pow256(n);
            let a = be_value(before.skip(i as int));
            let b = be_value(first.skip(i as int));
            assert(pow256(n + 1) == 256 * p);
            let c = carry as int;
            let h = (v / 256) as int;
            let l = (v % 256) as int;
            let o = old_byte as int;
            assert(h * (256 * p) + (l * p + a) == 10 * (o * p + b) + d) by (nonlinear_arith)
                requires
                    256 * h + l == 10 * o + c,
                    c * p + a == 10 * b + d,
            ;
        }
        carry = v / 256;
        i -= 1;
    }
    proof {
        assert(w@.skip(0) =~= w@);
        assert(first.skip(0) =~= first);
        lemma_be_value_bound(w@);
        let p = pow256(32) as int;
        let a = be_value(w@) as int;
        if carry == 0 {
            assert(0 * p == 0);
        } else {
            let c = carry as int;
            assert(c * p + a >= p) by (nonlinear_arith)
                requires
                    c >= 1,
                    p >= 0,
                    a >= 0,
            ;
        }
    }
    carry == 0
}

/// The word that decimal digits stand for.
pub open spec fn decimal_word(s: Seq<char>) -> Option<Seq<u8>> {
    match digits_value(s) {
        Some(v) => if v < pow256(32) {
            Some(be_bytes(v, 32))
        } else {
            None
        },
        None => None,
    }
}

/// The word that decimal digits stand for.
pub fn parse_decimal(s: &[char]) -> (r: Option<U256>)
    ensures
        match r {
            Some(w) => decimal_word(s@) == Some(w@),
            None => decimal_word(s@) is None,
        },
{
    let mut w: Vec<u8> = Vec::new();
    w.resize(32, 0);
    let mut i: usize = 0;
    proof {
        assert(s@.take(0) =~= Seq::empty());
        assert(w@ =~= zeros(32));
        lemma_zero_value(32);
    }
    while i < s.len()
        invariant
            i <= s@.len(),
            w@.len() == 32,
            digits_value(s@.take(i as int)) == Some(be_value(w@)),
        decreases s@.len() - i,
    {
        let c: char = s[i];
        proof {
            assert(s@.take(i + 1).drop_last() =~= s@.take(i as int));
            assert(s@.take(i + 1).last() == c);
            lemma_digits_take(s@, i + 1);
        }
        if c < '0' || c > '9' {
            return None;
        }
        let d: u8 = (c as u32 - '0' as u32) as u8;
        if !push_digit(&mut w, d) {
            return None;
        }
        i += 1;
    }
    proof {
        assert(s@.take(i as int) =~= s@);
        lemma_be_value_bound(w@);
    }
    Some(U256(array32(w.as_slice())))
}

proof fn lemma_zero_value(n: nat)
    ensures
        be_value(zeros(n)) == 0,
    decreases n,
{
    if n > 0 {
        assert(zeros(n).drop_last() =~= zeros((n - 1) as nat));
        lemma_zero_value((n - 1) as nat);
    }
}

/// Divides a number by ten. Gives the remainder.
fn pop_digit(w: &mut Vec<u8>) -> (r: u8)
    ensures
        final(w)@.len() == old(w)@.len(),
        r < 10,
        be_value(old(w)@) == 10 * be_value(final(w)@) + r,
{
    let ghost first = w@;
    let mut rest: u16 = 0;
    let mut i: usize = 0;
    proof {
        assert(first.take(0) =~= Seq::empty());
        assert(w@.take(0) =~= Seq::empty());
    }
    while i < w.len()
        invariant
            i <= w@.len(),
            w@.len() == first.len(),
            first == old(w)@,
            rest < 10,
            forall|k: int| i <= k < w@.len() ==> w@[k] == first[k],
            be_value(first.take(i as int)) == 10 * be_value(w@.take(i as int)) + rest,
        decreases w@.len() - i,
    {
        let ghost before = w@;
        let b: u8 = w[i];
        let v: u16 = 256 * rest + b as u16;
        proof {
            assert(v <= 2559);
        }
        w[i] = (v / 10) as u8;
        proof {
            assert(first.take(i + 1).drop_last() =~= first.take(i as int));
            assert(w@.take(i + 1).drop_last() =~= before.take(i as int));
            assert(w@.take(i + 1).last() == (v / 10) as u8);
            assert(v == 10 * (v / 10) + v % 10);
        }
        rest = v % 10;
        i += 1;
    }
    proof {
        assert(first.take(i as int) =~= first);
        assert(w@.take(i as int) =~= w@);
    }
    rest as u8
}

/// Whether all bytes are zero.
fn is_zero(w: &Vec<u8>) -> (r: bool)
    ensures
        r == (be_value(w@) == 0),
{
    let mut i: usize = 0;
    proof {
        assert(w@.take(0) =~= Seq::empty());
    }
    while i < w.len()
        invariant
            i <= w@.len(),
            be_value(w@.take(i as int)) == 0,
        decreases w@.len() - i,
    {
        proof {
            assert(w@.take(i + 1).drop_last() =~= w@.take(i as int));
            lemma_value_grows(w@, i + 1);
        }
        if w[i] != 0 {
            return false;
        }
        i += 1;
    }
    proof {
        assert(w@.take(i as int) =~= w@);
    }
    true
}

proof fn lemma_value_grows(s: Seq<u8>, i: int)
    requires
        0 <= i <= s.len(),
    ensures
        be_value(s.take(i)) <= be_value(s),
    decreases s.len(),
{
    if i < s.len() {
        assert(s.drop_last().take(i) =~= s.take(i));
        lemma_value_grows(s.drop_last(), i);
    } else {
        assert(s.take(i) =~= s);
    }
}

/// Appends the digits of a number.
fn append_digits(out: &mut String, w: Vec<u8>)
    ensures
        final(out)@ == old(out)@ + decimal(be_value(w@)),
    decreases be_value(w@),
{
    let ghost v = be_value(w@);
    let mut rest = w;
    let d: u8 = pop_digit(&mut rest);
    let ghost high = be_value(rest@);
    proof {
        assert(v == 10 * high + d);
        assert(v / 10 == high && v % 10 == d);
    }
    if !is_zero(&rest) {
        append_digits(out, rest);
    }
    append_digit(out, d);
    proof {
        assert(out@ =~= old(out)@ + decimal(v));
    }
}

/// Appends a word in decimal digits.
pub fn append_decimal(out: &mut String, w: &U256)
    ensures
        final(out)@ == old(out)@ + decimal(be_value(w@)),
{
    append_digits(out, crate::bytes::to_vec(&w.0));
}

/// A word that was written in decimal is read back.
pub proof fn law_word_roundtrip(w: Seq<u8>)
    requires
        w.len() == 32,
    ensures
        decimal_word(decimal(be_value(w))) == Some(w),
{
    crate::text::lemma_decimal(be_value(w));
    lemma_be_value_bound(w);
}

} // verus!
