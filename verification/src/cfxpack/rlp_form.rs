//! RLP, as the transaction payloads use it.
//!
//! The writing and reading of single strings, numbers and lists is done by the
//! `rlp` crate; what its functions do on every input is stated here.
use crate::cfxpack::types::{be_value, lemma_pow256, pow256};
use rlp::{DecoderError, Rlp, RlpStream};
use vstd::prelude::*;

verus! {

/// The error type of the `rlp` crate.
#[verifier::external_type_specification]
#[verifier::external_body]
pub struct ExDecoderError(DecoderError);

/// The big-endian bytes of an integer without leading zeros; none for zero.
pub open spec fn be_min(v: nat) -> Seq<u8>
    decreases v,
{
    if v == 0 {
        Seq::empty()
    } else {
        be_min(v / 256).push((v % 256) as u8)
    }
}

/// The items one after another.
pub open spec fn join(items: Seq<Seq<u8>>) -> Seq<u8>
    decreases items.len(),
{
    if items.len() == 0 {
        Seq::empty()
    } else {
        items[0] + join(items.drop_first())
    }
}

/// The longest string or list payload that is written.
pub open spec fn max_payload() -> nat {
    0xffff_ffff
}

/// A byte string in RLP.
pub open spec fn rlp_str(b: Seq<u8>) -> Seq<u8> {
    if b.len() == 1 && b[0] < 0x80 {
        b
    } else if b.len() <= 55 {
        seq![(0x80 + b.len()) as u8] + b
    } else {
        seq![(0xb7 + be_min(b.len()).len()) as u8] + be_min(b.len()) + b
    }
}

/// An integer in RLP: the string of its bytes without leading zeros.
pub open spec fn rlp_num(v: nat) -> Seq<u8> {
    rlp_str(be_min(v))
}

/// A list in RLP, from its items one after another.
pub open spec fn rlp_list(payload: Seq<u8>) -> Seq<u8> {
    if payload.len() <= 55 {
        seq![(0xc0 + payload.len()) as u8] + payload
    } else {
        seq![(0xf7 + be_min(payload.len()).len()) as u8] + be_min(payload.len()) + payload
    }
}

/// Header and payload length where the payload length takes `k` bytes.
pub open spec fn long_info(s: Seq<u8>, k: nat) -> Option<(nat, nat)> {
    let v = be_value(s.subrange(1, 1 + k as int));
    if s.len() < 1 + k || s[1] == 0 || v <= 55 {
        None
    } else {
        Some((1 + k, v))
    }
}

/// Lengths of the header and the payload of the item that starts `s`, where all of
/// it is there.
pub open spec fn item_info(s: Seq<u8>) -> Option<(nat, nat)> {
    if s.len() == 0 {
        None
    } else {
        let l = s[0];
        let info = if l <= 0x7f {
            Some((0nat, 1nat))
        } else if l <= 0xb7 {
            Some((1, (l - 0x80) as nat))
        } else if l <= 0xbf {
            long_info(s, (l - 0xb7) as nat)
        } else if l <= 0xf7 {
            Some((1, (l - 0xc0) as nat))
        } else {
            long_info(s, (l - 0xf7) as nat)
        };
        match info {
            Some((h, v)) => if h + v <= s.len() {
                Some((h, v))
            } else {
                None
            },
            None => None,
        }
    }
}

/// The items that stand one after another in `s`, up to the first that is not all there.
pub open spec fn split_items(s: Seq<u8>) -> Seq<Seq<u8>>
    decreases s.len(),
{
    match item_info(s) {
        Some((h, v)) => if 0 < h + v <= s.len() {
            seq![s.take((h + v) as int)] + split_items(s.skip((h + v) as int))
        } else {
            Seq::empty()
        },
        None => Seq::empty(),
    }
}

/// The items of a list. A list whose payload is cut short has none; items are
/// looked for to the end of the bytes, also behind the payload.
pub open spec fn list_items(s: Seq<u8>) -> Option<Seq<Seq<u8>>> {
    if s.len() == 0 || s[0] < 0xc0 {
        None
    } else {
        match item_info(s) {
            Some((h, v)) => if item_info(s.subrange(h as int, (h + v) as int)) is Some {
                Some(split_items(s.skip(h as int)))
            } else {
                Some(Seq::empty())
            },
            None => Some(Seq::empty()),
        }
    }
}

/// Item `i` of a list whose payload is all there. What stands behind the payload is not
/// looked at.
pub open spec fn nth_item(s: Seq<u8>, i: int) -> Option<Seq<u8>> {
    if s.len() == 0 || s[0] < 0xc0 {
        None
    } else {
        match item_info(s) {
            Some((h, v)) => {
                let items = split_items(s.subrange(h as int, (h + v) as int));
                if 0 <= i < items.len() {
                    Some(items[i])
                } else {
                    None
                }
            },
            None => None,
        }
    }
}

/// The bytes of a string.
pub open spec fn str_bytes(s: Seq<u8>) -> Option<Seq<u8>> {
    if s.len() == 0 {
        None
    } else {
        let l = s[0];
        if l <= 0x7f {
            Some(seq![l])
        } else if l <= 0xb7 {
            let n = 1 + l - 0x80;
            if s.len() < n || (l == 0x81 && s[1] < 0x80) {
                None
            } else {
                Some(s.subrange(1, n))
            }
        } else if l <= 0xbf {
            let k = 1 + l - 0xb7;
            let n = k + be_value(s.subrange(1, k));
            if s.len() < k || s[1] == 0 || s.len() < n {
                None
            } else {
                Some(s.subrange(k, n))
            }
        } else {
            None
        }
    }
}

/// The integer that a string stands for: no leading zeros, at most `n` bytes.
pub open spec fn str_num(s: Seq<u8>, n: nat) -> Option<nat> {
    match str_bytes(s) {
        Some(b) => if b.len() == 0 {
            Some(0)
        } else if b[0] == 0 || b.len() > n {
            None
        } else {
            Some(be_value(b))
        },
        None => None,
    }
}

/// Byte strings as sequences.
pub open spec fn byte_views(items: Seq<Vec<u8>>) -> Seq<Seq<u8>> {
    Seq::new(items.len(), |i: int| items[i]@)
}

/// `rlp::encode` on a byte slice.
#[verifier::external_body]
pub(crate) fn encode_str(b: &[u8]) -> (r: Vec<u8>)
    requires
        b@.len() <= max_payload(),
    ensures
        r@ == rlp_str(b@),
{
    rlp::encode(&b).to_vec()
}

/// `rlp::encode` on a 64-bit integer.
#[verifier::external_body]
pub(crate) fn encode_num(v: u64) -> (r: Vec<u8>)
    ensures
        r@ == rlp_num(v as nat),
{
    rlp::encode(&v).to_vec()
}

/// `RlpStream::new_list`, filled by one `append_raw` with all the `count` items:
/// the header of the list, then the items as they are.
#[verifier::external_body]
pub(crate) fn encode_list(payload: &[u8], count: usize) -> (r: Vec<u8>)
    requires
        payload@.len() <= max_payload(),
        count == 0 ==> payload@.len() == 0,
    ensures
        r@ == rlp_list(payload@),
{
    let mut stream = RlpStream::new_list(count);
    stream.append_raw(payload, count);
    stream.out().to_vec()
}

/// `Rlp::item_count` and `Rlp::iter`: the items of a list as raw bytes, and an error
/// where the bytes are not a list.
#[verifier::external_body]
pub(crate) fn decode_items(raw: &[u8]) -> (r: Result<Vec<Vec<u8>>, DecoderError>)
    ensures
        match r {
            Ok(items) => list_items(raw@) == Some(byte_views(items@)),
            Err(_) => list_items(raw@) is None,
        },
{
    let rlp = Rlp::new(raw);
    let count = rlp.item_count()?;
    Ok(rlp.iter().take(count).map(|item| item.as_raw().to_vec()).collect())
}

/// `Rlp::at` on an `Rlp` that nothing was read from before: item `i` of a list as raw bytes,
/// and an error where the bytes are not a list, its payload is cut short, or it has no such
/// item.
#[verifier::external_body]
pub(crate) fn decode_at(raw: &[u8], i: usize) -> (r: Result<Vec<u8>, DecoderError>)
    ensures
        match r {
            Ok(item) => nth_item(raw@, i as int) == Some(item@),
            Err(_) => nth_item(raw@, i as int) is None,
        },
{
    Ok(Rlp::new(raw).at(i)?.as_raw().to_vec())
}

/// `Rlp::as_val` to a byte vector.
#[verifier::external_body]
pub(crate) fn decode_str(raw: &[u8]) -> (r: Result<Vec<u8>, DecoderError>)
    ensures
        match r {
            Ok(b) => str_bytes(raw@) == Some(b@),
            Err(_) => str_bytes(raw@) is None,
        },
{
    Rlp::new(raw).as_val::<Vec<u8>>()
}

/// `Rlp::as_val` to a 64-bit integer.
#[verifier::external_body]
pub(crate) fn decode_u64(raw: &[u8]) -> (r: Result<u64, DecoderError>)
    ensures
        match r {
            Ok(v) => str_num(raw@, 8) == Some(v as nat),
            Err(_) => str_num(raw@, 8) is None,
        },
{
    Rlp::new(raw).as_val::<u64>()
}

/// `Rlp::as_val` to a byte.
#[verifier::external_body]
pub(crate) fn decode_u8(raw: &[u8]) -> (r: Result<u8, DecoderError>)
    ensures
        match r {
            Ok(v) => str_num(raw@, 1) == Some(v as nat),
            Err(_) => str_num(raw@, 1) is None,
        },
{
    Rlp::new(raw).as_val::<u8>()
}

/// The encoding of a string or of a list.
pub open spec fn framed(x: Seq<u8>) -> bool {
    ||| exists|b: Seq<u8>| b.len() <= max_payload() && x == #[trigger] rlp_str(b)
    ||| exists|p: Seq<u8>| p.len() <= max_payload() && x == #[trigger] rlp_list(p)
}

pub open spec fn all_framed(items: Seq<Seq<u8>>) -> bool {
    forall|i: int| 0 <= i < items.len() ==> framed(#[trigger] items[i])
}

pub proof fn lemma_be_min(v: nat)
    ensures
        be_value(be_min(v)) == v,
        v > 0 ==> be_min(v).len() > 0 && be_min(v)[0] != 0,
        v == 0 ==> be_min(v).len() == 0,
    decreases v,
{
    if v > 0 {
        lemma_be_min(v / 256);
        let s = be_min(v);
        assert(s.drop_last() =~= be_min(v / 256));
        if v / 256 == 0 {
            assert(be_min(v / 256).len() == 0);
            assert(s[0] == v % 256);
        } else {
            assert(s[0] == be_min(v / 256)[0]);
        }
    }
}

pub proof fn lemma_be_min_len(v: nat, n: nat)
    requires
        v < pow256(n),
    ensures
        be_min(v).len() <= n,
    decreases n,
{
    if v > 0 {
        assert(n > 0);
        assert(v / 256 < pow256((n - 1) as nat)) by (nonlinear_arith)
            requires
                v < 256 * pow256((n - 1) as nat),
        ;
        lemma_be_min_len(v / 256, (n - 1) as nat);
    }
}

/// The header of an encoding tells its length, whatever follows.
pub proof fn lemma_framed_info(x: Seq<u8>, rest: Seq<u8>)
    requires
        framed(x),
    ensures
        item_info(x + rest) matches Some((h, v)) && h + v == x.len(),
        x.len() > 0,
{
    lemma_pow256();
    if exists|b: Seq<u8>| b.len() <= max_payload() && x == #[trigger] rlp_str(b) {
        let b = choose|b: Seq<u8>| b.len() <= max_payload() && x == #[trigger] rlp_str(b);
        lemma_str_info(b, rest);
    } else {
        let p = choose|p: Seq<u8>| p.len() <= max_payload() && x == #[trigger] rlp_list(p);
        lemma_list_info(p, rest);
    }
}

proof fn lemma_str_info(b: Seq<u8>, rest: Seq<u8>)
    requires
        b.len() <= max_payload(),
    ensures
        item_info(rlp_str(b) + rest) matches Some((h, v)) && h + v == rlp_str(b).len(),
        rlp_str(b).len() > 0,
{
    let x = rlp_str(b);
    let s = x + rest;
    if b.len() > 55 {
        let n = be_min(b.len());
        lemma_pow256();
        lemma_be_min(b.len());
        lemma_be_min_len(b.len(), 4);
        assert(s.subrange(1, 1 + n.len() as int) =~= n);
        assert(s[1] == n[0]);
    }
}

pub proof fn lemma_list_info(p: Seq<u8>, rest: Seq<u8>)
    requires
        p.len() <= max_payload(),
    ensures
        ({
            let s = rlp_list(p) + rest;
            &&& s[0] >= 0xc0
            &&& item_info(s) matches Some((h, v)) && {
                &&& h + v == rlp_list(p).len()
                &&& v == p.len()
                &&& rlp_list(p).skip(h as int) == p
            }
        }),
{
    let x = rlp_list(p);
    let s = x + rest;
    if p.len() > 55 {
        let n = be_min(p.len());
        lemma_pow256();
        lemma_be_min(p.len());
        lemma_be_min_len(p.len(), 4);
        assert(s.subrange(1, 1 + n.len() as int) =~= n);
        assert(s[1] == n[0]);
        assert(x.skip(1 + n.len() as int) =~= p);
    } else {
        assert(x.skip(1) =~= p);
    }
}

/// Items that were joined come apart again.
pub proof fn lemma_split_items(items: Seq<Seq<u8>>)
    requires
        all_framed(items),
    ensures
        split_items(join(items)) == items,
    decreases items.len(),
{
    let s = join(items);
    if items.len() == 0 {
        assert(split_items(s) =~= items);
    } else {
        let rest = items.drop_first();
        assert(all_framed(rest)) by {
            assert forall|i: int| 0 <= i < rest.len() implies framed(#[trigger] rest[i]) by {
                assert(rest[i] == items[i + 1]);
            }
        }
        assert(framed(items[0]));
        lemma_framed_info(items[0], join(rest));
        lemma_split_items(rest);
        let n = items[0].len() as int;
        assert(s.take(n) =~= items[0]);
        assert(s.skip(n) =~= join(rest));
        assert(split_items(s) =~= seq![items[0]] + rest);
        assert(seq![items[0]] + rest =~= items);
    }
}

/// The items of a list that was written are the items it was made of.
pub proof fn law_list_items(items: Seq<Seq<u8>>)
    requires
        all_framed(items),
        join(items).len() <= max_payload(),
    ensures
        list_items(rlp_list(join(items))) == Some(items),
{
    let p = join(items);
    let s = rlp_list(p);
    lemma_list_info(p, Seq::empty());
    assert(s + Seq::<u8>::empty() =~= s);
    lemma_split_items(items);
    let (h, v) = item_info(s)->0;
    assert(s.subrange(h as int, s.len() as int) =~= p);
    if items.len() > 0 {
        assert(framed(items[0]));
        lemma_framed_info(items[0], join(items.drop_first()));
    } else {
        assert(items =~= Seq::empty());
    }
}

/// A string that was written reads back.
pub proof fn law_str_bytes(b: Seq<u8>)
    requires
        b.len() <= max_payload(),
    ensures
        str_bytes(rlp_str(b)) == Some(b),
{
    let s = rlp_str(b);
    if b.len() == 1 && b[0] < 0x80 {
        assert(seq![b[0]] =~= b);
    } else if b.len() <= 55 {
        assert(s.subrange(1, 1 + b.len() as int) =~= b);
    } else {
        let n = be_min(b.len());
        lemma_pow256();
        lemma_be_min(b.len());
        lemma_be_min_len(b.len(), 4);
        let k = 1 + n.len() as int;
        assert(s.subrange(1, k) =~= n);
        assert(s[1] == n[0]);
        assert(s.subrange(k, k + b.len() as int) =~= b);
    }
}

/// A number that was written reads back.
pub proof fn law_str_num(v: nat, n: nat)
    requires
        v < pow256(n),
        n <= 8,
    ensures
        str_num(rlp_num(v), n) == Some(v),
{
    lemma_be_min(v);
    lemma_be_min_len(v, n);
    law_str_bytes(be_min(v));
}

} // verus!
