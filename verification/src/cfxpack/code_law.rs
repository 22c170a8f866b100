//! The codes of numbers, words, strings and lists, digit by digit.
use crate::cfxpack::codec::{enumerated_in, fits, known_base_prices, known_gas_limits, qc5e, qc8, tagged, uleb, unzigzag, zigzag};
use crate::cfxpack::error::PackError;
use crate::cfxpack::rlp_form::{be_min, join, lemma_be_min, rlp_list, rlp_num, rlp_str};
use crate::cfxpack::types::{be_bytes, be_value, le_bytes, le_value, lemma_be_bytes, lemma_le_bytes, lemma_pow256, low_u64, word, zeros};
use vstd::prelude::*;

verus! {

/// In little-endian order the first byte counts once, the next 256 times, and so on.
pub proof fn law_little_endian(s: Seq<u8>)
    ensures
        s.len() == 2 ==> le_value(s) == s[0] + 0x100 * s[1],
        s.len() == 4 ==> le_value(s) == s[0] + 0x100 * s[1] + 0x1_0000 * s[2] + 0x100_0000 * s[3],
        s.len() == 8 ==> le_value(s) == s[0] + 0x100 * s[1] + 0x1_0000 * s[2] + 0x100_0000 * s[3]
            + 0x1_0000_0000 * s[4] + 0x100_0000_0000 * s[5] + 0x1_0000_0000_0000 * s[6]
            + 0x100_0000_0000_0000 * s[7],
{
    reveal_with_fuel(le_value, 9);
}

/// The bytes of a number in little-endian order are as many as asked for and stand for the
/// number, if it fits.
pub proof fn law_little_endian_bytes(v: nat)
    ensures
        v < 0x1_0000 ==> le_bytes(v, 2).len() == 2 && le_value(le_bytes(v, 2)) == v,
        v < 0x1_0000_0000 ==> le_bytes(v, 4).len() == 4 && le_value(le_bytes(v, 4)) == v,
        v < 0x1_0000_0000_0000_0000 ==> le_bytes(v, 8).len() == 8 && le_value(le_bytes(v, 8)) == v,
{
    lemma_pow256();
    lemma_le_bytes(v, 2);
    lemma_le_bytes(v, 4);
    lemma_le_bytes(v, 8);
}

/// In big-endian order each byte counts 256 times as much as the next.
pub proof fn law_big_endian(s: Seq<u8>)
    ensures
        be_value(s) == s.fold_left(0int, |a: int, b: u8| 256 * a + b),
    decreases s.len(),
{
    if s.len() > 0 {
        law_big_endian(s.drop_last());
    }
}

/// The bytes of a number in big-endian order are as many as asked for and stand for the
/// number, if it fits.
pub proof fn law_big_endian_bytes(v: nat)
    ensures
        v < 0x1_0000_0000_0000_0000 ==> be_bytes(v, 8).len() == 8 && be_value(be_bytes(v, 8)) == v,
{
    lemma_pow256();
    lemma_be_bytes(v, 8);
}

/// A word holds a 64-bit number in its last eight bytes, most significant first, and zeros
/// before them.
pub proof fn law_word(v: u64, w: Seq<u8>)
    requires
        w.len() == 32,
    ensures
        word(v).len() == 32,
        forall|i: int| 0 <= i < 24 ==> #[trigger] word(v)[i] == 0,
        be_value(word(v).skip(24)) == v,
        low_u64(word(v)) == v,
        low_u64(w) == be_value(w.skip(24)),
{
    lemma_pow256();
    lemma_be_bytes(v as nat, 8);
    assert(word(v).skip(24) =~= be_bytes(v as nat, 8));
    crate::cfxpack::types::lemma_be_value_bound(w.skip(24));
}

/// The LEB128 code of a number has seven bits in each byte, low bits first. The top bit is set
/// in all bytes but the last, and no code of more than one byte ends with zero bits.
pub proof fn law_uleb_digits(v: nat)
    ensures
        ({
            let s = uleb(v);
            &&& s.len() > 0
            &&& s.last() < 128
            &&& forall|i: int| 0 <= i < s.len() - 1 ==> #[trigger] s[i] >= 128
            &&& s.len() > 1 ==> s.last() > 0
            &&& s.fold_right(|b: u8, a: int| b as int % 128 + 128 * a, 0int) == v
        }),
    decreases v,
{
    let f = |b: u8, a: int| b as int % 128 + 128 * a;
    let s = uleb(v);
    if v < 128 {
        assert(s.drop_last() =~= Seq::empty());
        assert(s.last() == v);
        reveal_with_fuel(Seq::fold_right, 2);
    } else {
        law_uleb_digits(v / 128);
        let t = uleb(v / 128);
        let b = (v % 128 + 128) as u8;
        assert(s == seq![b] + t);
        assert(s.last() == t.last());
        assert forall|i: int| 0 <= i < s.len() - 1 implies #[trigger] s[i] >= 128 by {
            if i > 0 {
                assert(s[i] == t[i - 1]);
            }
        }
        lemma_fold_front(b, t, 0);
    }
}

pub(crate) proof fn lemma_fold_front(b: u8, t: Seq<u8>, start: int)
    ensures
        (seq![b] + t).fold_right(|b: u8, a: int| b as int % 128 + 128 * a, start) == b as int % 128
            + 128 * t.fold_right(|b: u8, a: int| b as int % 128 + 128 * a, start),
    decreases t.len(),
{
    let f = |b: u8, a: int| b as int % 128 + 128 * a;
    let s = seq![b] + t;
    if t.len() == 0 {
        assert(s.drop_last() =~= Seq::empty());
        assert(s.last() == b);
        reveal_with_fuel(Seq::fold_right, 2);
    } else {
        assert(s.drop_last() =~= seq![b] + t.drop_last());
        assert(s.last() == t.last());
        lemma_fold_front(b, t.drop_last(), f(t.last(), start));
    }
}

/// Zigzag takes differences of either sign to numbers: not below zero to twice the
/// difference, below zero to one less than twice its size.
pub proof fn law_zigzag_sign(d: u64)
    ensures
        d < 0x8000_0000_0000_0000 ==> zigzag(d) == 2 * d,
        d >= 0x8000_0000_0000_0000 ==> zigzag(d) == 2 * (0x1_0000_0000_0000_0000 - d) - 1,
        d % 2 == 0 ==> 2 * unzigzag(d) == d,
        d % 2 == 1 ==> 2 * (0x1_0000_0000_0000_0000 - unzigzag(d)) == d + 1,
{
}

/// The shortest big-endian form of a number: no leading zero, nothing for zero.
pub proof fn law_shortest(v: nat)
    ensures
        be_value(be_min(v)) == v,
        v == 0 ==> be_min(v).len() == 0,
        v > 0 ==> be_min(v).len() > 0 && be_min(v)[0] > 0,
{
    lemma_be_min(v);
}

/// A string in RLP: one byte below 0x80 is itself; up to 55 bytes follow one byte that tells
/// their number above 0x80; more follow their number in its shortest form, after one byte that
/// tells the length of that form above 0xb7.
pub proof fn law_rlp_string(b: Seq<u8>)
    ensures
        ({
            let s = rlp_str(b);
            let n = be_min(b.len()).len() as int;
            &&& b.len() == 1 && b[0] < 0x80 ==> s == b
            &&& b.len() <= 55 && !(b.len() == 1 && b[0] < 0x80) ==> {
                &&& s.len() == 1 + b.len()
                &&& s[0] == 0x80 + b.len()
                &&& s.skip(1) == b
            }
            &&& 55 < b.len() <= 0xffff_ffff ==> {
                &&& s.len() == 1 + n + b.len()
                &&& s[0] == 0xb7 + n
                &&& be_value(s.subrange(1, 1 + n)) == b.len()
                &&& s[1] > 0
                &&& s.skip(1 + n) == b
            }
        }),
{
    let s = rlp_str(b);
    let m = be_min(b.len());
    let n = m.len() as int;
    if b.len() == 1 && b[0] < 0x80 {
    } else if b.len() <= 55 {
        assert(s.skip(1) =~= b);
    } else if b.len() <= 0xffff_ffff {
        lemma_pow256();
        lemma_be_min(b.len());
        crate::cfxpack::rlp_form::lemma_be_min_len(b.len(), 4);
        assert(s.subrange(1, 1 + n) =~= m);
        assert(s.skip(1 + n) =~= b);
    }
}

/// A number in RLP is the string of its shortest form.
pub proof fn law_rlp_number(v: nat)
    ensures
        rlp_num(v) == rlp_str(be_min(v)),
        v == 0 ==> rlp_num(v) == seq![0x80u8],
        0 < v < 128 ==> rlp_num(v) == seq![v as u8],
{
    if v == 0 {
        assert(rlp_num(v) =~= seq![0x80u8]);
    } else if v < 128 {
        assert(v / 256 == 0 && v % 256 == v);
        reveal_with_fuel(be_min, 2);
        assert(be_min(v) =~= seq![v as u8]);
    }
}

/// A list in RLP: up to 55 bytes of items follow one byte that tells their number above 0xc0;
/// more follow their number in its shortest form, after one byte that tells the length of that
/// form above 0xf7.
pub proof fn law_rlp_list(b: Seq<u8>)
    ensures
        ({
            let s = rlp_list(b);
            let n = be_min(b.len()).len() as int;
            &&& b.len() <= 55 ==> {
                &&& s.len() == 1 + b.len()
                &&& s[0] == 0xc0 + b.len()
                &&& s.skip(1) == b
            }
            &&& 55 < b.len() <= 0xffff_ffff ==> {
                &&& s.len() == 1 + n + b.len()
                &&& s[0] == 0xf7 + n
                &&& be_value(s.subrange(1, 1 + n)) == b.len()
                &&& s[1] > 0
                &&& s.skip(1 + n) == b
            }
        }),
{
    let s = rlp_list(b);
    let m = be_min(b.len());
    let n = m.len() as int;
    if b.len() <= 55 {
        assert(s.skip(1) =~= b);
    } else if b.len() <= 0xffff_ffff {
        lemma_pow256();
        lemma_be_min(b.len());
        crate::cfxpack::rlp_form::lemma_be_min_len(b.len(), 4);
        assert(s.subrange(1, 1 + n) =~= m);
        assert(s.skip(1 + n) =~= b);
    }
}

/// Items that are joined stand one after another.
pub proof fn law_join(items: Seq<Seq<u8>>)
    ensures
        join(items) == items.flatten(),
    decreases items.len(),
{
    if items.len() > 0 {
        law_join(items.drop_first());
    }
}

/// A word in QC8 form takes the fewest of eight to eleven bytes that leave two bits free. The
/// two top bits tell how many bytes above eight; the others are the low bits of the word, most
/// significant first. A word that needs more cannot be written.
pub proof fn law_qc8_form(w: Seq<u8>)
    requires
        w.len() == 32,
    ensures
        match qc8(w) {
            Ok(s) => {
                let n = s.len() as int;
                &&& 8 <= n <= 11
                &&& s[0] / 64 == n - 8
                &&& s[0] % 64 == w[32 - n]
                &&& s.skip(1) == w.skip(33 - n)
                &&& forall|i: int| 0 <= i < 32 - n ==> #[trigger] w[i] == 0
                &&& n > 8 ==> w[32 - n] > 0 || w[33 - n] >= 64
            },
            Err(e) => {
                &&& e == PackError::ValueTooLarge
                &&& w[21] >= 64 || exists|i: int| 0 <= i < 21 && #[trigger] w[i] > 0
            },
        },
{
    reveal(qc8);
    if let Ok(s) = qc8(w) {
        let n = s.len() as int;
        assert(s == tagged(w, n, n - 8));
        assert(w[32 - n] < 64);
        assert(s[0] == 64 * (n - 8) + w[32 - n]);
        assert(s.skip(1) =~= w.skip(33 - n));
        if n > 8 && w[32 - n] == 0 && w[33 - n] < 64 {
            assert(fits(w, n - 1)) by {
                assert forall|i: int| 0 <= i < 33 - n implies #[trigger] w[i] == 0 by {}
            }
        }
    } else {
        assert(!fits(w, 11));
    }
}

/// A word in QC5E form is one byte for zero and for an enumerated value. Otherwise it takes the
/// fewest of five to seven bytes that leave two bits free, and the two top bits tell how many
/// bytes above four.
pub proof fn law_qc5e_form(w: Seq<u8>, enumerated: Option<u8>)
    requires
        w.len() == 32,
    ensures
        w == zeros(32) ==> qc5e(w, enumerated) == Ok::<Seq<u8>, PackError>(seq![0u8]),
        w != zeros(32) && enumerated is Some ==> qc5e(w, enumerated) == Ok::<Seq<u8>, PackError>(
            seq![enumerated->0],
        ),
        w != zeros(32) && enumerated is None ==> match qc5e(w, enumerated) {
            Ok(s) => {
                let n = s.len() as int;
                &&& 5 <= n <= 7
                &&& s[0] / 64 == n - 4
                &&& s[0] % 64 == w[32 - n]
                &&& s.skip(1) == w.skip(33 - n)
                &&& forall|i: int| 0 <= i < 32 - n ==> #[trigger] w[i] == 0
                &&& n > 5 ==> w[32 - n] > 0 || w[33 - n] >= 64
            },
            Err(e) => {
                &&& e == PackError::ValueTooLarge
                &&& w[25] >= 64 || exists|i: int| 0 <= i < 25 && #[trigger] w[i] > 0
            },
        },
{
    reveal(qc5e);
    if w != zeros(32) && enumerated is None {
        if let Ok(s) = qc5e(w, enumerated) {
            let n = s.len() as int;
            assert(s == tagged(w, n, n - 4));
            assert(w[32 - n] < 64);
            assert(s[0] == 64 * (n - 4) + w[32 - n]);
            assert(s.skip(1) =~= w.skip(33 - n));
            if n > 5 && w[32 - n] == 0 && w[33 - n] < 64 {
                assert(fits(w, n - 1)) by {
                    assert forall|i: int| 0 <= i < 33 - n implies #[trigger] w[i] == 0 by {}
                }
            }
        } else {
            assert(!fits(w, 7));
        }
    }
}

/// The values that a header enumerates: gas limits of thirty and sixty million, a base price of
/// one giga in the native space and of twenty giga in eSpace.
pub proof fn law_enumerated(w: Seq<u8>)
    ensures
        enumerated_in(w, known_gas_limits()) == (if w == word(30_000_000) {
            Some(1u8)
        } else if w == word(60_000_000) {
            Some(2u8)
        } else {
            None
        }),
        enumerated_in(w, known_base_prices(false)) == (if w == word(1_000_000_000) {
            Some(1u8)
        } else {
            None
        }),
        enumerated_in(w, known_base_prices(true)) == (if w == word(20_000_000_000) {
            Some(1u8)
        } else {
            None
        }),
{
}

} // verus!
