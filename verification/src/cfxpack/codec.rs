//! Integer encodings of the packet format.
use crate::bytes::append_bytes;
use crate::cfxpack::error::PackError;
use crate::cfxpack::types::{le_bytes, le_value, lemma_pow256, pow256, word, zeros, U256};
use vstd::prelude::*;

verus! {

/// Unsigned LEB128: seven bits to a byte, low bits first, the top bit set on all
/// bytes but the last.
pub open spec fn uleb(v: nat) -> Seq<u8>
    decreases v,
{
    if v < 128 {
        seq![v as u8]
    } else {
        seq![(v % 128 + 128) as u8] + uleb(v / 128)
    }
}

/// The number at the start of `s` in LEB128, with the number of bytes it takes.
pub open spec fn uleb_at(s: Seq<u8>) -> Option<(nat, nat)>
    decreases s.len(),
{
    if s.len() == 0 {
        None
    } else if s[0] < 128 {
        Some((s[0] as nat, 1))
    } else {
        match uleb_at(s.drop_first()) {
            Some((v, n)) => Some(((s[0] - 128 + 128 * v) as nat, n + 1)),
            None => None,
        }
    }
}

/// What reading a LEB128 number of at most ten bytes and 64 bits gives: the number
/// and the rest.
#[verifier::opaque]
pub open spec fn read_uleb(s: Seq<u8>) -> Result<(u64, Seq<u8>), PackError> {
    match uleb_at(s) {
        Some((v, n)) => if n <= 10 && v <= u64::MAX {
            Ok((v as u64, s.skip(n as int)))
        } else {
            Err(PackError::VarintTooLong)
        },
        None => if s.len() < 10 {
            Err(PackError::Truncated)
        } else {
            Err(PackError::VarintTooLong)
        },
    }
}

pub open spec fn pow128(n: nat) -> nat
    decreases n,
{
    if n == 0 {
        1
    } else {
        128 * pow128((n - 1) as nat)
    }
}

proof fn lemma_uleb_at_len(s: Seq<u8>)
    ensures
        uleb_at(s) matches Some((v, n)) ==> 1 <= n <= s.len(),
    decreases s.len(),
{
    if s.len() > 0 && s[0] >= 128 {
        lemma_uleb_at_len(s.drop_first());
    }
}

/// Reading a number that was written gives the number back.
pub proof fn lemma_uleb_roundtrip(v: nat, rest: Seq<u8>)
    ensures
        uleb_at(uleb(v) + rest) == Some((v, uleb(v).len())),
        uleb(v).len() >= 1,
    decreases v,
{
    let s = uleb(v) + rest;
    if v >= 128 {
        lemma_uleb_roundtrip(v / 128, rest);
        assert(s.drop_first() =~= uleb(v / 128) + rest);
    }
}

proof fn lemma_uleb_len(v: nat, n: nat)
    requires
        v < pow128(n),
        n >= 1,
    ensures
        uleb(v).len() <= n,
    decreases n,
{
    if v >= 128 {
        assert(pow128(1) == 128) by {
            reveal_with_fuel(pow128, 2);
        }
        assert(n > 1);
        assert(v / 128 < pow128((n - 1) as nat)) by (nonlinear_arith)
            requires
                v < 128 * pow128((n - 1) as nat),
        ;
        lemma_uleb_len(v / 128, (n - 1) as nat);
    }
}

/// A 64-bit number that was written reads back, and leaves the rest.
pub proof fn law_uleb(v: u64, rest: Seq<u8>)
    ensures
        read_uleb(uleb(v as nat) + rest) == Ok::<(u64, Seq<u8>), PackError>((v, rest)),
{
    reveal(read_uleb);
    lemma_uleb_roundtrip(v as nat, rest);
    assert(pow128(10) > u64::MAX) by {
        reveal_with_fuel(pow128, 11);
    }
    lemma_uleb_len(v as nat, 10);
    assert((uleb(v as nat) + rest).skip(uleb(v as nat).len() as int) =~= rest);
}

/// Appends `v` in LEB128.
pub fn put_uleb128(out: &mut Vec<u8>, v: u64)
    ensures
        final(out)@ == old(out)@ + uleb(v as nat),
{
    let mut rest: u64 = v;
    while rest >= 128
        invariant
            out@ + uleb(rest as nat) == old(out)@ + uleb(v as nat),
        decreases rest,
    {
        let ghost before = out@;
        let ghost r = rest as nat;
        out.push((rest % 128) as u8 + 128);
        rest = rest / 128;
        proof {
            assert(out@ + uleb(rest as nat) =~= before + uleb(r));
        }
    }
    out.push(rest as u8);
    proof {
        assert(out@ =~= old(out)@ + uleb(v as nat));
    }
}

/// Number of bytes of `v` in LEB128.
pub fn uleb128_len(v: u64) -> (r: usize)
    ensures
        r == uleb(v as nat).len(),
        1 <= r <= 10,
{
    proof {
        assert(pow128(10) > u64::MAX) by {
            reveal_with_fuel(pow128, 11);
        }
        lemma_uleb_len(v as nat, 10);
    }
    let mut rest: u64 = v;
    let mut n: usize = 1;
    while rest >= 128
        invariant
            n + uleb(rest as nat).len() == uleb(v as nat).len() + 1,
            uleb(v as nat).len() <= 10,
            n >= 1,
        decreases rest,
    {
        proof {
            lemma_uleb_roundtrip((rest / 128) as nat, Seq::empty());
        }
        rest = rest / 128;
        n += 1;
    }
    n
}

/// Reads a LEB128 number at `*offset` and moves `*offset` behind it.
pub fn read_uleb128(data: &[u8], offset: &mut usize) -> (r: Result<u64, PackError>)
    requires
        *old(offset) <= data@.len(),
    ensures
        *final(offset) <= data@.len(),
        match r {
            Ok(v) => read_uleb(data@.skip(*old(offset) as int)) == Ok::<
                (u64, Seq<u8>),
                PackError,
            >((v, data@.skip(*final(offset) as int))) && *final(offset) > *old(offset),
            Err(e) => read_uleb(data@.skip(*old(offset) as int)) == Err::<
                (u64, Seq<u8>),
                PackError,
            >(e),
        },
{
    proof {
        reveal(read_uleb);
    }
    let start: usize = *offset;
    let ghost s = data@.skip(start as int);
    let mut value: u128 = 0;
    let mut weight: u128 = 1;
    let mut n: usize = 0;
    proof {
        lemma_uleb_at_len(s);
        assert(s.skip(0) =~= s);
        assert(pow128(10) == 1180591620717411303424) by {
            reveal_with_fuel(pow128, 11);
        }
    }
    while n < 10
        invariant
            start == *old(offset),
            start <= data@.len(),
            s == data@.skip(start as int),
            n <= 10,
            n <= s.len(),
            weight == pow128(n as nat),
            value < weight,
            weight <= 1180591620717411303424,
            pow128(10) == 1180591620717411303424,
            uleb_at(s) == (match uleb_at(s.skip(n as int)) {
                Some((v, k)) => Some(((value + weight * v) as nat, (n + k) as nat)),
                None => None,
            }),
        decreases 10 - n,
    {
        if n >= data.len() - start {
            proof {
                reveal(read_uleb);
                assert(s.len() == n);
                assert(s.skip(n as int).len() == 0);
            }
            *offset = data.len();
            return Err(PackError::Truncated);
        }
        let b: u8 = data[start + n];
        let ghost t = s.skip(n as int);
        proof {
            assert(t[0] == b);
            assert(t.drop_first() =~= s.skip(n + 1));
            lemma_pow128_mono((n + 1) as nat, 10);
        }
        if b < 128 {
            proof {
                assert(b * weight <= 127 * weight) by (nonlinear_arith)
                    requires
                        b <= 127,
                ;
                assert(weight * (b as nat) == b * weight) by (nonlinear_arith);
            }
            let total: u128 = value + (b as u128) * weight;
            *offset = start + n + 1;
            proof {
                reveal(read_uleb);
                assert(s.skip(n + 1) =~= data@.skip(*offset as int));
            }
            if total > u64::MAX as u128 {
                return Err(PackError::VarintTooLong);
            }
            return Ok(total as u64);
        }
        proof {
            let low = (b - 128) as nat;
            assert(low * weight <= 127 * weight) by (nonlinear_arith)
                requires
                    low <= 127,
            ;
            match uleb_at(s.skip(n + 1)) {
                Some((v, k)) => {
                    assert(weight * (low + 128 * v) == low * weight + (128 * weight) * v)
                        by (nonlinear_arith);
                },
                None => {},
            }
        }
        value = value + ((b - 128) as u128) * weight;
        weight = weight * 128;
        n += 1;
    }
    proof {
        lemma_uleb_at_len(s.skip(10));
        assert(start + n <= data.len());
    }
    *offset = start + n;
    Err(PackError::VarintTooLong)
}

proof fn lemma_pow128_mono(a: nat, b: nat)
    requires
        a <= b,
    ensures
        pow128(a) <= pow128(b),
        pow128(a) >= 1,
    decreases b,
{
    if b > 0 {
        lemma_pow128_mono(
            if a == b {
                (b - 1) as nat
            } else {
                a
            },
            (b - 1) as nat,
        );
    }
}

/// `s` with zero bytes appended up to a multiple of `n`.
pub open spec fn aligned(s: Seq<u8>, n: nat) -> Seq<u8> {
    s + zeros(((n - s.len() % n) % n as int) as nat)
}

/// Appends zero bytes until the length with `base` more is a multiple of `n`.
pub fn pad_from(out: &mut Vec<u8>, base: usize, n: usize)
    requires
        0 < n,
    ensures
        final(out)@ == padded_from(old(out)@, base as nat, n as nat),
{
    let a: usize = out.len() % n;
    let b: usize = base % n;
    let rest: usize = if a >= n - b {
        a - (n - b)
    } else {
        a + b
    };
    proof {
        let sum = a + b;
        if a >= n - b {
            vstd::arithmetic::div_mod::lemma_mod_add_multiples_vanish(sum - n, n as int);
            vstd::arithmetic::div_mod::lemma_small_mod((sum - n) as nat, n as nat);
        } else {
            vstd::arithmetic::div_mod::lemma_small_mod(sum as nat, n as nat);
        }
        assert(rest == sum % n as int);
    }
    let need: usize = (n - rest) % n;
    let mut i: usize = 0;
    while i < need
        invariant
            i <= need,
            out@ == old(out)@ + zeros(i as nat),
        decreases need - i,
    {
        out.push(0);
        i += 1;
        proof {
            assert(out@ =~= old(out)@ + zeros(i as nat));
        }
    }
    proof {
        vstd::arithmetic::div_mod::lemma_add_mod_noop(
            old(out)@.len() as int,
            base as int,
            n as int,
        );
        assert(out@ =~= padded_from(old(out)@, base as nat, n as nat));
    }
}

/// `s` with zero bytes appended until its length with `base` more is a multiple of `n`.
pub open spec fn padded_from(s: Seq<u8>, base: nat, n: nat) -> Seq<u8> {
    s + zeros(((n - (base + s.len()) % n) % n as int) as nat)
}

/// Appends zero bytes up to a multiple of `n`.
pub fn align_to(out: &mut Vec<u8>, n: usize)
    requires
        0 < n,
    ensures
        final(out)@ == aligned(old(out)@, n as nat),
{
    pad_from(out, 0, n);
}

/// Appends the low four bytes of `v`, least significant first.
pub fn put_u32_le(out: &mut Vec<u8>, v: u32)
    ensures
        final(out)@ == old(out)@ + le_bytes(v as nat, 4),
{
    out.push((v % 256) as u8);
    out.push((v / 256 % 256) as u8);
    out.push((v / 0x1_0000 % 256) as u8);
    out.push((v / 0x100_0000) as u8);
    proof {
        reveal_with_fuel(le_bytes, 5);
        let n = v as nat;
        assert(n / 256 / 256 == n / 0x1_0000);
        assert(n / 0x1_0000 / 256 == n / 0x100_0000);
        assert(out@ =~= old(out)@ + le_bytes(n, 4));
    }
}

/// Appends the eight bytes of `v`, least significant first.
pub fn put_u64_le(out: &mut Vec<u8>, v: u64)
    ensures
        final(out)@ == old(out)@ + le_bytes(v as nat, 8),
{
    let low: u32 = (v % 0x1_0000_0000) as u32;
    let high: u32 = (v / 0x1_0000_0000) as u32;
    put_u32_le(out, low);
    put_u32_le(out, high);
    proof {
        lemma_le_split(v as nat);
        assert(out@ =~= old(out)@ + le_bytes(v as nat, 8));
    }
}

/// Eight little-endian bytes are those of the low half, then those of the high half.
proof fn lemma_le_split(n: nat)
    requires
        n < 0x1_0000_0000_0000_0000,
    ensures
        le_bytes(n, 8) == le_bytes(n % 0x1_0000_0000, 4) + le_bytes(n / 0x1_0000_0000, 4),
{
    reveal_with_fuel(le_bytes, 9);
    let a = n % 0x1_0000_0000;
    let b = n / 0x1_0000_0000;
    assert(n / 256 / 256 == n / 0x1_0000);
    assert(n / 0x1_0000 / 256 == n / 0x100_0000);
    assert(n / 0x100_0000 / 256 == b);
    assert(a / 256 / 256 == a / 0x1_0000);
    assert(a / 0x1_0000 / 256 == a / 0x100_0000);
    assert(n % 256 == a % 256);
    assert((n / 256) % 256 == (a / 256) % 256);
    assert((n / 0x1_0000) % 256 == (a / 0x1_0000) % 256);
    assert((n / 0x100_0000) % 256 == (a / 0x100_0000) % 256);
    assert(le_bytes(n, 8) =~= le_bytes(a, 4) + le_bytes(b, 4));
}

/// What reading `n` little-endian bytes at `at` gives.
pub open spec fn le_at(data: Seq<u8>, at: int, n: nat) -> Result<nat, PackError> {
    if at + n <= data.len() {
        Ok(le_value(data.subrange(at, at + n)))
    } else {
        Err(PackError::Truncated)
    }
}

/// The 32-bit little-endian integer at `at`.
pub fn read_u32_le(data: &[u8], at: usize) -> (r: Result<u32, PackError>)
    ensures
        match r {
            Ok(v) => le_at(data@, at as int, 4) == Ok::<nat, PackError>(v as nat),
            Err(e) => le_at(data@, at as int, 4) == Err::<nat, PackError>(e),
        },
{
    if at > data.len() || data.len() - at < 4 {
        return Err(PackError::Truncated);
    }
    let v: u32 = data[at] as u32 + 0x100 * (data[at + 1] as u32) + 0x1_0000 * (data[at + 2] as u32)
        + 0x100_0000 * (data[at + 3] as u32);
    proof {
        let s = data@.subrange(at as int, at + 4);
        reveal_with_fuel(le_value, 5);
        assert(s[0] == data@[at as int]);
        assert(s.drop_first()[0] == data@[at + 1]);
        assert(s.drop_first().drop_first()[0] == data@[at + 2]);
        assert(s.drop_first().drop_first().drop_first()[0] == data@[at + 3]);
    }
    Ok(v)
}

/// The 64-bit little-endian integer at `at`.
pub fn read_u64_le(data: &[u8], at: usize) -> (r: Result<u64, PackError>)
    ensures
        match r {
            Ok(v) => le_at(data@, at as int, 8) == Ok::<nat, PackError>(v as nat),
            Err(e) => le_at(data@, at as int, 8) == Err::<nat, PackError>(e),
        },
{
    if at > data.len() || data.len() - at < 8 {
        return Err(PackError::Truncated);
    }
    let low: u32 = match read_u32_le(data, at) {
        Ok(v) => v,
        Err(e) => {
            return Err(e);
        },
    };
    let high: u32 = match read_u32_le(data, at + 4) {
        Ok(v) => v,
        Err(e) => {
            return Err(e);
        },
    };
    proof {
        let s = data@.subrange(at as int, at + 8);
        let a = data@.subrange(at as int, at + 4);
        let b = data@.subrange(at + 4, at + 8);
        assert(s =~= a + b);
        lemma_le_value_concat(a, b);
        lemma_pow256();
    }
    Ok(low as u64 + 0x1_0000_0000 * (high as u64))
}

pub proof fn lemma_le_value_concat(a: Seq<u8>, b: Seq<u8>)
    ensures
        le_value(a + b) == le_value(a) + pow256(a.len()) * le_value(b),
    decreases a.len(),
{
    if a.len() == 0 {
        assert(a + b =~= b);
        assert(pow256(0) * le_value(b) == le_value(b)) by (nonlinear_arith)
            requires
                pow256(0) == 1,
        ;
    } else {
        let a1 = a.drop_first();
        lemma_le_value_concat(a1, b);
        assert((a + b).drop_first() =~= a1 + b);
        assert(pow256(a.len()) == 256 * pow256(a1.len()));
        assert(256 * (le_value(a1) + pow256(a1.len()) * le_value(b)) == 256 * le_value(a1) + (256
            * pow256(a1.len())) * le_value(b)) by (nonlinear_arith);
    }
}

/// The zigzag form of a signed difference given in two's complement: small
/// differences of either sign become small numbers.
pub open spec fn zigzag(d: u64) -> u64 {
    if d < 0x8000_0000_0000_0000 {
        (2 * d) as u64
    } else {
        (2 * (u64::MAX - d) + 1) as u64
    }
}

/// The difference in two's complement that a zigzag number stands for.
pub open spec fn unzigzag(z: u64) -> u64 {
    if z % 2 == 0 {
        z / 2
    } else {
        (u64::MAX - z / 2) as u64
    }
}

/// Zigzag encoding gives every difference back, with its sign.
pub proof fn law_zigzag(d: u64)
    ensures
        unzigzag(zigzag(d)) == d,
        zigzag(unzigzag(d)) == d,
{
}

/// The zigzag form of a difference in two's complement.
pub fn zigzag_encode(d: u64) -> (r: u64)
    ensures
        r == zigzag(d),
{
    if d < 0x8000_0000_0000_0000 {
        2 * d
    } else {
        2 * (u64::MAX - d) + 1
    }
}

/// The difference in two's complement that a zigzag number stands for.
pub fn zigzag_decode(z: u64) -> (r: u64)
    ensures
        r == unzigzag(z),
{
    if z % 2 == 0 {
        z / 2
    } else {
        u64::MAX - z / 2
    }
}

/// A word whose value takes no more than `8 * len - 2` bits.
pub open spec fn fits(w: Seq<u8>, len: int) -> bool {
    &&& forall|i: int| 0 <= i < 32 - len ==> #[trigger] w[i] == 0
    &&& w[32 - len] < 64
}

/// The low `len` bytes of a word with the mode in the two top bits.
pub open spec fn tagged(w: Seq<u8>, len: int, mode: int) -> Seq<u8> {
    seq![(64 * mode + w[32 - len]) as u8] + w.subrange(33 - len, 32)
}

/// The QC8 form of a word: eight to eleven bytes, by the size of the value.
#[verifier::opaque]
pub open spec fn qc8(w: Seq<u8>) -> Result<Seq<u8>, PackError> {
    if fits(w, 8) {
        Ok(tagged(w, 8, 0))
    } else if fits(w, 9) {
        Ok(tagged(w, 9, 1))
    } else if fits(w, 10) {
        Ok(tagged(w, 10, 2))
    } else if fits(w, 11) {
        Ok(tagged(w, 11, 3))
    } else {
        Err(PackError::ValueTooLarge)
    }
}

/// The QC5E form of a word: one byte for zero and for the values in the
/// enumeration, otherwise five to seven bytes, by the size of the value.
#[verifier::opaque]
pub open spec fn qc5e(w: Seq<u8>, enumerated: Option<u8>) -> Result<Seq<u8>, PackError> {
    if w == zeros(32) {
        Ok(seq![0u8])
    } else if enumerated is Some {
        Ok(seq![enumerated->0])
    } else if fits(w, 5) {
        Ok(tagged(w, 5, 1))
    } else if fits(w, 6) {
        Ok(tagged(w, 6, 2))
    } else if fits(w, 7) {
        Ok(tagged(w, 7, 3))
    } else {
        Err(PackError::ValueTooLarge)
    }
}

/// The word whose low bytes are those of a tagged form.
pub open spec fn untagged(s: Seq<u8>, len: int) -> Seq<u8> {
    zeros((32 - len) as nat) + seq![s[0] % 64] + s.subrange(1, len)
}

/// What reading a QC8 value gives: the word and the rest.
#[verifier::opaque]
pub open spec fn read_qc8_spec(s: Seq<u8>) -> Result<(Seq<u8>, Seq<u8>), PackError> {
    let len = 8 + s[0] / 64;
    if s.len() == 0 || s.len() < len {
        Err(PackError::Truncated)
    } else {
        Ok((untagged(s, len), s.skip(len)))
    }
}

/// A QC5E value as it was read: a number of the enumeration, or a word.
pub enum Qc5eModel {
    Enumerated(u8),
    Word(Seq<u8>),
}

/// What reading a QC5E value gives: the value and the rest.
#[verifier::opaque]
pub open spec fn read_qc5e_spec(s: Seq<u8>) -> Result<(Qc5eModel, Seq<u8>), PackError> {
    let len = 4 + s[0] / 64;
    if s.len() == 0 {
        Err(PackError::Truncated)
    } else if s[0] < 64 {
        Ok((Qc5eModel::Enumerated(s[0]), s.skip(1)))
    } else if s.len() < len {
        Err(PackError::Truncated)
    } else {
        Ok((Qc5eModel::Word(untagged(s, len)), s.skip(len)))
    }
}

/// A fixed list of words that a field enumerates from 1 on.
pub open spec fn enumerated_in(w: Seq<u8>, known: Seq<u64>) -> Option<u8> {
    if known.len() > 0 && w == word(known[0]) {
        Some(1)
    } else if known.len() > 1 && w == word(known[1]) {
        Some(2)
    } else {
        None
    }
}

/// The word that a QC5E value stands for in a field that enumerates `known`.
pub open spec fn qc5e_word(q: Qc5eModel, known: Seq<u64>) -> Result<Seq<u8>, PackError> {
    match q {
        Qc5eModel::Word(w) => Ok(w),
        Qc5eModel::Enumerated(e) => if e == 0 {
            Ok(zeros(32))
        } else if e <= known.len() {
            Ok(word(known[e - 1]))
        } else {
            Err(PackError::UnknownEnum)
        },
    }
}

/// The gas limits that are enumerated.
pub open spec fn known_gas_limits() -> Seq<u64> {
    seq![30_000_000u64, 60_000_000u64]
}

/// The base prices that are enumerated in a space.
pub open spec fn known_base_prices(espace: bool) -> Seq<u64> {
    if espace {
        seq![20_000_000_000u64]
    } else {
        seq![1_000_000_000u64]
    }
}

proof fn lemma_untagged(w: Seq<u8>, len: int, mode: int, rest: Seq<u8>)
    requires
        w.len() == 32,
        5 <= len <= 11,
        0 <= mode <= 3,
        fits(w, len),
    ensures
        ({
            let s = tagged(w, len, mode) + rest;
            &&& s.len() >= len
            &&& s[0] / 64 == mode
            &&& untagged(s, len) == w
            &&& s.skip(len) == rest
        }),
{
    let s = tagged(w, len, mode) + rest;
    let b = w[32 - len];
    assert(s[0] == 64 * mode + b);
    assert(s[0] % 64 == b);
    assert(untagged(s, len) =~= w) by {
        assert forall|i: int| 0 <= i < 32 implies untagged(s, len)[i] == w[i] by {
            if i < 32 - len {
                assert(w[i] == 0);
            } else if i > 32 - len {
                assert(s[i - (32 - len)] == w[i]);
            }
        }
    }
    assert(s.skip(len) =~= rest);
}

/// A QC8 value that was written reads back, and leaves the rest.
pub proof fn law_qc8(w: Seq<u8>, rest: Seq<u8>)
    requires
        w.len() == 32,
        qc8(w) is Ok,
    ensures
        read_qc8_spec(qc8(w)->Ok_0 + rest) == Ok::<(Seq<u8>, Seq<u8>), PackError>((w, rest)),
{
    reveal(qc8);
    reveal(read_qc8_spec);
    if fits(w, 8) {
        lemma_untagged(w, 8, 0, rest);
    } else if fits(w, 9) {
        lemma_untagged(w, 9, 1, rest);
    } else if fits(w, 10) {
        lemma_untagged(w, 10, 2, rest);
    } else {
        lemma_untagged(w, 11, 3, rest);
    }
}

/// A QC5E value that was written reads back to the same word, and leaves the rest.
pub proof fn law_qc5e(w: Seq<u8>, known: Seq<u64>, rest: Seq<u8>)
    requires
        w.len() == 32,
        known.len() <= 2,
        qc5e(w, enumerated_in(w, known)) is Ok,
    ensures
        ({
            let r = read_qc5e_spec(qc5e(w, enumerated_in(w, known))->Ok_0 + rest);
            &&& r is Ok
            &&& qc5e_word(r->Ok_0.0, known) == Ok::<Seq<u8>, PackError>(w)
            &&& r->Ok_0.1 == rest
        }),
{
    reveal(qc5e);
    reveal(read_qc5e_spec);
    let e = enumerated_in(w, known);
    let s = qc5e(w, e)->Ok_0 + rest;
    if w == zeros(32) || e is Some {
        assert(s.skip(1) =~= rest);
    } else if fits(w, 5) {
        lemma_untagged(w, 5, 1, rest);
    } else if fits(w, 6) {
        lemma_untagged(w, 6, 2, rest);
    } else {
        lemma_untagged(w, 7, 3, rest);
    }
}

/// Whether the value of a word takes no more than `8 * len - 2` bits.
fn word_fits(w: &U256, len: usize) -> (r: bool)
    requires
        1 <= len <= 32,
    ensures
        r == fits(w@, len as int),
{
    let mut i: usize = 0;
    while i < 32 - len
        invariant
            len <= 32,
            i <= 32 - len,
            forall|j: int| 0 <= j < i ==> #[trigger] w@[j] == 0,
        decreases 32 - len - i,
    {
        if w.0[i] != 0 {
            proof {
                assert(w@[i as int] != 0);
            }
            return false;
        }
        i += 1;
    }
    w.0[32 - len] < 64
}

fn put_tagged(out: &mut Vec<u8>, w: &U256, len: usize, mode: u8)
    requires
        1 <= len <= 32,
        mode <= 3,
        fits(w@, len as int),
    ensures
        final(out)@ == old(out)@ + tagged(w@, len as int, mode as int),
{
    out.push(64 * mode + w.0[32 - len]);
    append_bytes(out, &w.0[33 - len..32]);
    proof {
        assert(out@ =~= old(out)@ + tagged(w@, len as int, mode as int));
    }
}

/// Appends the QC8 form of `w`.
pub fn put_qc8(out: &mut Vec<u8>, w: &U256) -> (r: Result<(), PackError>)
    ensures
        match r {
            Ok(_) => qc8(w@) is Ok && final(out)@ == old(out)@ + qc8(w@)->Ok_0,
            Err(e) => qc8(w@) == Err::<Seq<u8>, PackError>(e) && final(out)@ == old(out)@,
        },
{
    proof {
        reveal(qc8);
    }
    if word_fits(w, 8) {
        put_tagged(out, w, 8, 0);
    } else if word_fits(w, 9) {
        put_tagged(out, w, 9, 1);
    } else if word_fits(w, 10) {
        put_tagged(out, w, 10, 2);
    } else if word_fits(w, 11) {
        put_tagged(out, w, 11, 3);
    } else {
        return Err(PackError::ValueTooLarge);
    }
    Ok(())
}

/// Appends the QC5E form of `w`, in a field that gives it the number `enumerated`.
pub fn put_qc5e(out: &mut Vec<u8>, w: &U256, enumerated: Option<u8>) -> (r: Result<(), PackError>)
    ensures
        match r {
            Ok(_) => qc5e(w@, enumerated) is Ok && final(out)@ == old(out)@ + qc5e(
                w@,
                enumerated,
            )->Ok_0,
            Err(e) => qc5e(w@, enumerated) == Err::<Seq<u8>, PackError>(e) && final(out)@ == old(
                out,
            )@,
        },
{
    proof {
        reveal(qc5e);
    }
    if w.same(&U256::zero()) {
        out.push(0);
        return Ok(());
    }
    match enumerated {
        Some(e) => {
            out.push(e);
            return Ok(());
        },
        None => {},
    }
    if word_fits(w, 5) {
        put_tagged(out, w, 5, 1);
    } else if word_fits(w, 6) {
        put_tagged(out, w, 6, 2);
    } else if word_fits(w, 7) {
        put_tagged(out, w, 7, 3);
    } else {
        return Err(PackError::ValueTooLarge);
    }
    Ok(())
}

/// The number that a gas limit has in the enumeration.
pub fn qc5e_gas_limit_enum(w: &U256) -> (r: Option<u8>)
    ensures
        r == enumerated_in(w@, known_gas_limits()),
{
    if w.same(&U256::from_u64(30_000_000)) {
        Some(1)
    } else if w.same(&U256::from_u64(60_000_000)) {
        Some(2)
    } else {
        None
    }
}

/// The number that a base price has in the enumeration of its space.
pub fn qc5e_base_price_enum(w: &U256, espace: bool) -> (r: Option<u8>)
    ensures
        r == enumerated_in(w@, known_base_prices(espace)),
{
    let known: u64 = if espace {
        20_000_000_000
    } else {
        1_000_000_000
    };
    if w.same(&U256::from_u64(known)) {
        Some(1)
    } else {
        None
    }
}

/// A QC5E value as it was read.
#[derive(Clone, Copy, Debug)]
pub enum Qc5e {
    Enumerated(u8),
    Word(U256),
}

impl View for Qc5e {
    type V = Qc5eModel;

    open spec fn view(&self) -> Qc5eModel {
        match *self {
            Qc5e::Enumerated(e) => Qc5eModel::Enumerated(e),
            Qc5e::Word(w) => Qc5eModel::Word(w@),
        }
    }
}

/// The word with the given low bytes, the first of which carries a mode.
fn untag(s: &[u8]) -> (r: U256)
    requires
        1 <= s@.len() <= 32,
    ensures
        r@ == untagged(s@, s@.len() as int),
{
    let mut low: Vec<u8> = Vec::new();
    low.push(s[0] % 64);
    append_bytes(&mut low, &s[1..s.len()]);
    let r = U256::from_big_endian(low.as_slice());
    proof {
        assert(r@ =~= untagged(s@, s@.len() as int));
    }
    r
}

/// Reads a QC8 value at `*offset` and moves `*offset` behind it.
pub fn read_qc8(data: &[u8], offset: &mut usize) -> (r: Result<U256, PackError>)
    requires
        *old(offset) <= data@.len(),
    ensures
        *final(offset) <= data@.len(),
        match r {
            Ok(w) => read_qc8_spec(data@.skip(*old(offset) as int)) == Ok::<
                (Seq<u8>, Seq<u8>),
                PackError,
            >((w@, data@.skip(*final(offset) as int))),
            Err(e) => read_qc8_spec(data@.skip(*old(offset) as int)) == Err::<
                (Seq<u8>, Seq<u8>),
                PackError,
            >(e),
        },
{
    proof {
        reveal(read_qc8_spec);
    }
    let start: usize = *offset;
    let left: usize = data.len() - start;
    if left == 0 {
        return Err(PackError::Truncated);
    }
    let len: usize = 8 + (data[start] / 64) as usize;
    if left < len {
        return Err(PackError::Truncated);
    }
    let w = untag(&data[start..start + len]);
    *offset = start + len;
    proof {
        let s = data@.skip(start as int);
        let t = data@.subrange(start as int, start + len);
        assert(untagged(s, len as int) =~= untagged(t, len as int));
        assert(s.skip(len as int) =~= data@.skip(start + len));
    }
    Ok(w)
}

/// Reads a QC5E value at `*offset` and moves `*offset` behind it.
pub fn read_qc5e(data: &[u8], offset: &mut usize) -> (r: Result<Qc5e, PackError>)
    requires
        *old(offset) <= data@.len(),
    ensures
        *final(offset) <= data@.len(),
        match r {
            Ok(q) => read_qc5e_spec(data@.skip(*old(offset) as int)) == Ok::<
                (Qc5eModel, Seq<u8>),
                PackError,
            >((q@, data@.skip(*final(offset) as int))),
            Err(e) => read_qc5e_spec(data@.skip(*old(offset) as int)) == Err::<
                (Qc5eModel, Seq<u8>),
                PackError,
            >(e),
        },
{
    proof {
        reveal(read_qc5e_spec);
    }
    let start: usize = *offset;
    let left: usize = data.len() - start;
    if left == 0 {
        return Err(PackError::Truncated);
    }
    let ghost s = data@.skip(start as int);
    if data[start] < 64 {
        *offset = start + 1;
        proof {
            assert(s.skip(1) =~= data@.skip(start + 1));
        }
        return Ok(Qc5e::Enumerated(data[start]));
    }
    let len: usize = 4 + (data[start] / 64) as usize;
    if left < len {
        return Err(PackError::Truncated);
    }
    let w = untag(&data[start..start + len]);
    *offset = start + len;
    proof {
        let t = data@.subrange(start as int, start + len);
        assert(untagged(s, len as int) =~= untagged(t, len as int));
        assert(s.skip(len as int) =~= data@.skip(start + len));
    }
    Ok(Qc5e::Word(w))
}

impl Qc5e {
    /// The gas limit that the value stands for.
    pub fn gas_limit(&self) -> (r: Result<U256, PackError>)
        ensures
            match r {
                Ok(w) => qc5e_word(self@, known_gas_limits()) == Ok::<Seq<u8>, PackError>(w@),
                Err(e) => qc5e_word(self@, known_gas_limits()) == Err::<Seq<u8>, PackError>(e),
            },
    {
        match self {
            Qc5e::Word(w) => Ok(*w),
            Qc5e::Enumerated(e) => {
                if *e == 0 {
                    Ok(U256::zero())
                } else if *e == 1 {
                    Ok(U256::from_u64(30_000_000))
                } else if *e == 2 {
                    Ok(U256::from_u64(60_000_000))
                } else {
                    Err(PackError::UnknownEnum)
                }
            },
        }
    }

    /// The base price that the value stands for in a space.
    pub fn base_price(&self, espace: bool) -> (r: Result<U256, PackError>)
        ensures
            match r {
                Ok(w) => qc5e_word(self@, known_base_prices(espace)) == Ok::<Seq<u8>, PackError>(
                    w@,
                ),
                Err(e) => qc5e_word(self@, known_base_prices(espace)) == Err::<Seq<u8>, PackError>(
                    e,
                ),
            },
    {
        match self {
            Qc5e::Word(w) => Ok(*w),
            Qc5e::Enumerated(e) => {
                if *e == 0 {
                    Ok(U256::zero())
                } else if *e == 1 {
                    Ok(
                        U256::from_u64(
                            if espace {
                                20_000_000_000
                            } else {
                                1_000_000_000
                            },
                        ),
                    )
                } else {
                    Err(PackError::UnknownEnum)
                }
            },
        }
    }
}

} // verus!
