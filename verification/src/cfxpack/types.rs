//! Addresses and 256-bit words.
use crate::bytes::{append_bytes, bytes_eq};
use crate::types::H256;
use vstd::prelude::*;

verus! {

/// A 20-byte address.
#[derive(Clone, Copy, Debug, PartialEq, Eq, PartialOrd, Ord, Hash)]
pub struct Address(pub [u8; 20]);

impl View for Address {
    type V = Seq<u8>;

    open spec fn view(&self) -> Seq<u8> {
        self.0@
    }
}

/// A 256-bit unsigned integer, as its 32 bytes in big-endian order.
#[derive(Clone, Copy, Debug, PartialEq, Eq, PartialOrd, Ord, Hash)]
pub struct U256(pub [u8; 32]);

impl View for U256 {
    type V = Seq<u8>;

    open spec fn view(&self) -> Seq<u8> {
        self.0@
    }
}

/// `n` zero bytes.
pub open spec fn zeros(n: nat) -> Seq<u8> {
    Seq::new(n, |i: int| 0u8)
}

/// The integer that bytes in big-endian order stand for.
pub open spec fn be_value(s: Seq<u8>) -> nat
    decreases s.len(),
{
    if s.len() == 0 {
        0
    } else {
        be_value(s.drop_last()) * 256 + s.last() as nat
    }
}

/// The `n` low bytes of an integer in big-endian order.
pub open spec fn be_bytes(v: nat, n: nat) -> Seq<u8>
    decreases n,
{
    if n == 0 {
        Seq::empty()
    } else {
        be_bytes(v / 256, (n - 1) as nat).push((v % 256) as u8)
    }
}

/// The `n` low bytes of an integer in little-endian order.
pub open spec fn le_bytes(v: nat, n: nat) -> Seq<u8>
    decreases n,
{
    if n == 0 {
        Seq::empty()
    } else {
        seq![(v % 256) as u8] + le_bytes(v / 256, (n - 1) as nat)
    }
}

/// The integer that bytes in little-endian order stand for.
pub open spec fn le_value(s: Seq<u8>) -> nat
    decreases s.len(),
{
    if s.len() == 0 {
        0
    } else {
        s[0] as nat + 256 * le_value(s.drop_first())
    }
}

pub open spec fn pow256(n: nat) -> nat
    decreases n,
{
    if n == 0 {
        1
    } else {
        256 * pow256((n - 1) as nat)
    }
}

pub proof fn lemma_pow256()
    ensures
        pow256(2) == 0x1_0000,
        pow256(4) == 0x1_0000_0000,
        pow256(8) == 0x1_0000_0000_0000_0000,
{
    reveal_with_fuel(pow256, 9);
}

pub proof fn lemma_be_bytes(v: nat, n: nat)
    ensures
        be_bytes(v, n).len() == n,
        v < pow256(n) ==> be_value(be_bytes(v, n)) == v,
    decreases n,
{
    if n > 0 {
        lemma_be_bytes(v / 256, (n - 1) as nat);
        let s = be_bytes(v, n);
        assert(s.drop_last() =~= be_bytes(v / 256, (n - 1) as nat));
        if v < pow256(n) {
            assert(v / 256 < pow256((n - 1) as nat)) by (nonlinear_arith)
                requires
                    v < 256 * pow256((n - 1) as nat),
            ;
        }
    }
}

pub proof fn lemma_le_bytes(v: nat, n: nat)
    ensures
        le_bytes(v, n).len() == n,
        v < pow256(n) ==> le_value(le_bytes(v, n)) == v,
    decreases n,
{
    if n > 0 {
        lemma_le_bytes(v / 256, (n - 1) as nat);
        let s = le_bytes(v, n);
        assert(s.drop_first() =~= le_bytes(v / 256, (n - 1) as nat));
        if v < pow256(n) {
            assert(v / 256 < pow256((n - 1) as nat)) by (nonlinear_arith)
                requires
                    v < 256 * pow256((n - 1) as nat),
            ;
        }
    }
}

pub proof fn lemma_be_value_bound(s: Seq<u8>)
    ensures
        be_value(s) < pow256(s.len()),
        be_bytes(be_value(s), s.len()) == s,
    decreases s.len(),
{
    if s.len() > 0 {
        let t = s.drop_last();
        lemma_be_value_bound(t);
        let v = be_value(s);
        assert(v / 256 == be_value(t) && v % 256 == s.last() as nat);
        assert(be_bytes(v, s.len()) =~= t.push(s.last()));
        assert(t.push(s.last()) =~= s);
    } else {
        assert(be_bytes(0, 0) =~= s);
    }
}

pub proof fn lemma_le_value_bound(s: Seq<u8>)
    ensures
        le_value(s) < pow256(s.len()),
    decreases s.len(),
{
    if s.len() > 0 {
        lemma_le_value_bound(s.drop_first());
    }
}

/// The word that stands for a 64-bit integer.
pub open spec fn word(v: u64) -> Seq<u8> {
    zeros(24) + be_bytes(v as nat, 8)
}

/// The low 64 bits of a word.
pub open spec fn low_u64(w: Seq<u8>) -> u64 {
    be_value(w.skip(24)) as u64
}

pub proof fn lemma_word(v: u64)
    ensures
        word(v).len() == 32,
        low_u64(word(v)) == v,
{
    lemma_pow256();
    lemma_be_bytes(v as nat, 8);
    assert(word(v).skip(24) =~= be_bytes(v as nat, 8));
}

/// The eight bytes of `v`, most significant first.
pub fn be8(v: u64) -> (r: [u8; 8])
    ensures
        r@ == be_bytes(v as nat, 8),
{
    let r: [u8; 8] = [
        (v / 0x100_0000_0000_0000 % 256) as u8,
        (v / 0x1_0000_0000_0000 % 256) as u8,
        (v / 0x100_0000_0000 % 256) as u8,
        (v / 0x1_0000_0000 % 256) as u8,
        (v / 0x100_0000 % 256) as u8,
        (v / 0x1_0000 % 256) as u8,
        (v / 0x100 % 256) as u8,
        (v % 256) as u8,
    ];
    proof {
        reveal_with_fuel(be_bytes, 9);
        let n = v as nat;
        assert(n / 256 / 256 == n / 0x1_0000);
        assert(n / 0x1_0000 / 256 == n / 0x100_0000);
        assert(n / 0x100_0000 / 256 == n / 0x1_0000_0000);
        assert(n / 0x1_0000_0000 / 256 == n / 0x100_0000_0000);
        assert(n / 0x100_0000_0000 / 256 == n / 0x1_0000_0000_0000);
        assert(n / 0x1_0000_0000_0000 / 256 == n / 0x100_0000_0000_0000);
        assert(r@ =~= be_bytes(n, 8));
    }
    r
}

impl Address {
    /// Whether two addresses are equal.
    pub fn same(&self, other: &Address) -> (r: bool)
        ensures
            r == (self@ == other@),
    {
        bytes_eq(&self.0, &other.0)
    }

    /// The address with the given bytes.
    pub fn from_slice(s: &[u8]) -> (r: Self)
        requires
            s@.len() == 20,
        ensures
            r@ == s@,
    {
        let mut a: [u8; 20] = [0, 0, 0, 0, 0, 0, 0, 0, 0, 0, 0, 0, 0, 0, 0, 0, 0, 0, 0, 0];
        let mut i: usize = 0;
        while i < 20
            invariant
                i <= 20,
                s@.len() == 20,
                forall|j: int| 0 <= j < i ==> a@[j] == s@[j],
            decreases 20 - i,
        {
            a[i] = s[i];
            i += 1;
        }
        proof {
            assert(a@ =~= s@);
        }
        Address(a)
    }

    /// The address whose low eight bytes are `v` and whose other bytes are zero.
    pub fn from_low_u64_be(v: u64) -> (r: Self)
        ensures
            r@ == zeros(12) + be_bytes(v as nat, 8),
    {
        let low = be8(v);
        let mut s: Vec<u8> = Vec::new();
        s.resize(12, 0);
        append_bytes(&mut s, &low);
        proof {
            lemma_be_bytes(v as nat, 8);
            assert(s@ =~= zeros(12) + be_bytes(v as nat, 8));
        }
        Address::from_slice(s.as_slice())
    }
}

/// The 32-byte array with the given bytes.
pub fn array32(s: &[u8]) -> (r: [u8; 32])
    requires
        s@.len() == 32,
    ensures
        r@ == s@,
{
    let mut a: [u8; 32] = [
        0, 0, 0, 0, 0, 0, 0, 0, 0, 0, 0, 0, 0, 0, 0, 0, 0, 0, 0, 0, 0, 0, 0, 0, 0, 0, 0, 0, 0, 0, 0,
        0,
    ];
    let mut i: usize = 0;
    while i < 32
        invariant
            i <= 32,
            s@.len() == 32,
            forall|j: int| 0 <= j < i ==> a@[j] == s@[j],
        decreases 32 - i,
    {
        a[i] = s[i];
        i += 1;
    }
    proof {
        assert(a@ =~= s@);
    }
    a
}

impl U256 {
    /// Zero.
    pub fn zero() -> (r: Self)
        ensures
            r@ == zeros(32),
    {
        let r = U256(
            [
                0, 0, 0, 0, 0, 0, 0, 0, 0, 0, 0, 0, 0, 0, 0, 0, 0, 0, 0, 0, 0, 0, 0, 0, 0, 0, 0, 0,
                0, 0, 0, 0,
            ],
        );
        proof {
            assert(r@ =~= zeros(32));
        }
        r
    }

    /// The word that stands for `v`.
    pub fn from_u64(v: u64) -> (r: Self)
        ensures
            r@ == word(v),
    {
        let low = be8(v);
        let mut s: Vec<u8> = Vec::new();
        s.resize(24, 0);
        append_bytes(&mut s, &low);
        proof {
            lemma_be_bytes(v as nat, 8);
            assert(s@ =~= word(v));
        }
        U256(array32(s.as_slice()))
    }

    /// The word whose low bytes are `s` and whose other bytes are zero.
    pub fn from_big_endian(s: &[u8]) -> (r: Self)
        requires
            s@.len() <= 32,
        ensures
            r@ == zeros((32 - s@.len()) as nat) + s@,
    {
        let mut b: Vec<u8> = Vec::new();
        b.resize(32 - s.len(), 0);
        append_bytes(&mut b, s);
        proof {
            assert(b@ =~= zeros((32 - s@.len()) as nat) + s@);
        }
        U256(array32(b.as_slice()))
    }

    /// The low 64 bits.
    pub fn low_u64(&self) -> (r: u64)
        ensures
            r == low_u64(self@),
    {
        let mut v: u64 = 0;
        let mut i: usize = 24;
        let ghost s = self@.skip(24);
        proof {
            lemma_pow256();
            assert(s.take(0) =~= Seq::empty());
        }
        while i < 32
            invariant
                24 <= i <= 32,
                s == self@.skip(24),
                s.len() == 8,
                v == be_value(s.take(i - 24)),
                pow256(8) == 0x1_0000_0000_0000_0000,
            decreases 32 - i,
        {
            proof {
                let t = s.take(i - 23);
                assert(t.drop_last() =~= s.take(i - 24));
                assert(t.last() == self@[i as int]);
                lemma_be_value_bound(t);
                lemma_pow256_mono((i - 23) as nat, 8);
            }
            v = v * 256 + self.0[i] as u64;
            i += 1;
        }
        proof {
            assert(s.take(8) =~= s);
        }
        v
    }

    /// Whether two words are equal.
    pub fn same(&self, other: &U256) -> (r: bool)
        ensures
            r == (self@ == other@),
    {
        bytes_eq(&self.0, &other.0)
    }
}

pub proof fn lemma_pow256_mono(a: nat, b: nat)
    requires
        a <= b,
    ensures
        1 <= pow256(a) <= pow256(b),
    decreases b,
{
    if b > 0 {
        lemma_pow256_mono(
            if a == b {
                (b - 1) as nat
            } else {
                a
            },
            (b - 1) as nat,
        );
    }
}

impl H256 {
    /// The hash with the given bytes.
    pub fn from_slice(s: &[u8]) -> (r: Self)
        requires
            s@.len() == 32,
        ensures
            r@ == s@,
    {
        H256(array32(s))
    }

    /// The hash whose low eight bytes are `v` and whose other bytes are zero.
    pub fn from_low_u64_be(v: u64) -> (r: Self)
        ensures
            r@ == word(v),
    {
        H256(U256::from_u64(v).0)
    }
}

} // verus!
