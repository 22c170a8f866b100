//! A fixed sequence of state operations, and the text that tells what they gave.
use crate::bytes::{bytes_eq, bytes_less, lemma_lex_irreflexive, lemma_lex_total, lemma_lex_trans, lex_lt, to_vec};
use crate::key_codec::{StorageKey, StorageKeyWithSpace};
use crate::text::{append_hex, hex_of};
use crate::types::{CommitRoot, MptKeyValue, Space};
use vstd::prelude::*;
use vstd::string::StringExecFns;

verus! {

/// The account that a step works on.
pub open spec fn step_account(step: u32) -> u8 {
    (((step * 37 % 0x1_0000_0000) + 11) % 0x1_0000_0000 % 64) as u8
}

/// The account that a step works on.
pub fn trace_id(step: u32) -> (r: u8)
    ensures
        r == step_account(step),
        r < 64,
{
    (step.wrapping_mul(37).wrapping_add(11) % 64) as u8
}

/// Bytes that are all alike.
fn filled(b: u8, n: usize) -> (r: Vec<u8>)
    ensures
        r@ == Seq::new(n as nat, |i: int| b),
{
    let mut out: Vec<u8> = Vec::new();
    out.resize(n, b);
    proof {
        assert(out@ =~= Seq::new(n as nat, |i: int| b));
    }
    out
}

/// The key of an account: every third one is of the Ethereum space.
pub fn account_key(id: u8) -> (r: StorageKeyWithSpace)
    ensures
        r.space == (if id % 3 == 0 {
            Space::Ethereum
        } else {
            Space::Native
        }),
        r.key matches StorageKey::Account(a) && a@ == Seq::new(20, |i: int| id),
{
    StorageKeyWithSpace {
        key: StorageKey::Account(filled(id, 20)),
        space: if id % 3 == 0 {
            Space::Ethereum
        } else {
            Space::Native
        },
    }
}

/// The key of a native account with a short address.
pub fn short_account(bytes: &[u8]) -> (r: StorageKeyWithSpace)
    ensures
        r.space == Space::Native,
        r.key matches StorageKey::Account(a) && a@ == bytes@,
{
    StorageKeyWithSpace { key: StorageKey::Account(to_vec(bytes)), space: Space::Native }
}

/// The key of a storage entry.
pub fn storage_key(address_byte: u8, key: Vec<u8>, space: Space) -> (r: StorageKeyWithSpace)
    ensures
        r.space == space,
        r.key matches StorageKey::Storage { address, storage_key } && address@ == Seq::new(
            20,
            |i: int| address_byte,
        ) && storage_key@ == key@,
{
    StorageKeyWithSpace {
        key: StorageKey::Storage { address: filled(address_byte, 20), storage_key: key },
        space,
    }
}

/// The value that a step stores.
pub open spec fn step_value(step: u32, id: u8) -> Seq<u8> {
    Seq::new((1 + step % 47) as nat, |i: int| ((id + step + i) % 256) as u8)
}

/// The value that a step stores.
pub fn value_for(step: u32, id: u8) -> (r: Vec<u8>)
    ensures
        r@ == step_value(step, id),
{
    let len: usize = 1 + (step % 47) as usize;
    let mut out: Vec<u8> = Vec::new();
    let mut i: usize = 0;
    while i < len
        invariant
            i <= len,
            len == 1 + step % 47,
            out@.len() == i,
            forall|k: int| 0 <= k < i ==> #[trigger] out@[k] == ((id + step + k) % 256) as u8,
        decreases len - i,
    {
        let sum: u64 = id as u64 + step as u64 + i as u64;
        out.push((sum % 256) as u8);
        i += 1;
    }
    proof {
        assert(out@ =~= step_value(step, id));
    }
    out
}

/// The four roots of a commit as text.
pub open spec fn root_text(r: CommitRoot) -> Seq<char> {
    hex_of(r.snapshot_root@) + ":"@ + hex_of(r.intermediate_delta_root@) + ":"@ + hex_of(
        r.delta_root@,
    ) + ":"@ + hex_of(r.state_root_hash@)
}

/// The four roots of a commit as text.
pub fn format_root(root: &CommitRoot) -> (r: String)
    ensures
        r@ == root_text(*root),
{
    let mut out: String = String::new();
    append_hex(&mut out, &root.snapshot_root.0);
    out.append(":");
    append_hex(&mut out, &root.intermediate_delta_root.0);
    out.append(":");
    append_hex(&mut out, &root.delta_root.0);
    out.append(":");
    append_hex(&mut out, &root.state_root_hash.0);
    proof {
        assert(out@ =~= root_text(*root));
    }
    out
}

/// Whether a pair comes before another: by its key, and by its value where the keys are
/// equal.
pub open spec fn pair_less(a: MptKeyValue, b: MptKeyValue) -> bool {
    lex_lt(a.0@, b.0@) || (a.0@ == b.0@ && lex_lt(a.1@, b.1@))
}

/// Whether a pair comes before another.
fn is_pair_less(a: &MptKeyValue, b: &MptKeyValue) -> (r: bool)
    ensures
        r == pair_less(*a, *b),
{
    bytes_less(a.0.as_slice(), b.0.as_slice()) || (bytes_eq(a.0.as_slice(), b.0.as_slice())
        && bytes_less(&a.1, &b.1))
}

/// Whether `order` lists the first `n` places, each once, and no pair stands behind one
/// that it comes before.
pub open spec fn in_order(values: Seq<MptKeyValue>, order: Seq<usize>, n: int) -> bool {
    &&& order.len() == n
    &&& forall|i: int| 0 <= i < n ==> (#[trigger] order[i]) < n
    &&& forall|k: int| 0 <= k < n ==> #[trigger] order.contains(k as usize)
    &&& forall|i: int, j: int|
        0 <= i < j < n ==> !pair_less(
            values[#[trigger] order[j] as int],
            values[#[trigger] order[i] as int],
        )
}

proof fn lemma_pair_between(a: MptKeyValue, b: MptKeyValue, c: MptKeyValue)
    requires
        !pair_less(b, a),
        !pair_less(c, b),
    ensures
        !pair_less(c, a),
{
    lemma_lex_total(a.0@, b.0@);
    lemma_lex_total(b.0@, c.0@);
    lemma_lex_total(a.1@, b.1@);
    lemma_lex_total(b.1@, c.1@);
    if lex_lt(a.0@, b.0@) && lex_lt(b.0@, c.0@) {
        lemma_lex_trans(a.0@, b.0@, c.0@);
    }
    if lex_lt(a.1@, b.1@) && lex_lt(b.1@, c.1@) {
        lemma_lex_trans(a.1@, b.1@, c.1@);
    }
    lemma_lex_irreflexive(a.0@);
    lemma_lex_irreflexive(a.1@);
    if lex_lt(c.0@, a.0@) {
        if lex_lt(a.0@, c.0@) {
            lemma_lex_trans(a.0@, c.0@, a.0@);
        }
    }
    if lex_lt(c.1@, a.1@) {
        if lex_lt(a.1@, c.1@) {
            lemma_lex_trans(a.1@, c.1@, a.1@);
        }
    }
}

/// Puts the pairs in order.
fn sort_pairs(values: &Vec<MptKeyValue>) -> (r: Vec<usize>)
    ensures
        in_order(values@, r@, values@.len() as int),
{
    let mut order: Vec<usize> = Vec::new();
    let mut n: usize = 0;
    while n < values.len()
        invariant
            n <= values@.len(),
            in_order(values@, order@, n as int),
        decreases values@.len() - n,
    {
        let mut at: usize = n;
        while at > 0 && is_pair_less(&values[n], &values[order[at - 1]])
            invariant
                at <= n,
                n < values@.len(),
                in_order(values@, order@, n as int),
                forall|i: int|
                    at <= i < n ==> pair_less(values@[n as int], values@[
                        #[trigger] order@[i] as int
                    ]),
            decreases at,
        {
            at -= 1;
        }
        let ghost before = order@;
        order.insert(at, n);
        proof {
            let x = values@[n as int];
            assert forall|i: int| 0 <= i < at implies !pair_less(x, values@[
                #[trigger] before[i] as int
            ]) by {
                if i < at - 1 {
                    lemma_pair_between(
                        values@[before[i] as int],
                        values@[before[at - 1] as int],
                        x,
                    );
                }
            }
            assert forall|i: int| at <= i < n implies !pair_less(
                values@[#[trigger] before[i] as int],
                x,
            ) by {
                lemma_pair_once(x, values@[before[i] as int]);
            }
            assert forall|i: int| 0 <= i < n + 1 implies (#[trigger] order@[i]) < n + 1 by {
                if i < at {
                    assert(order@[i] == before[i]);
                } else if i > at {
                    assert(order@[i] == before[i - 1]);
                }
            }
            assert forall|k: int| 0 <= k < n + 1 implies #[trigger] order@.contains(k as usize) by {
                if k < n {
                    assert(before.contains(k as usize));
                    let i = choose|i: int| 0 <= i < before.len() && before[i] == k as usize;
                    if i < at {
                        assert(order@[i] == k as usize);
                    } else {
                        assert(order@[i + 1] == k as usize);
                    }
                } else {
                    assert(order@[at as int] == k as usize);
                }
            }
            assert forall|i: int, j: int| 0 <= i < j < n + 1 implies !pair_less(
                values@[#[trigger] order@[j] as int],
                values@[#[trigger] order@[i] as int],
            ) by {
                let p = if i < at {
                    i
                } else {
                    i - 1
                };
                let q = if j < at {
                    j
                } else {
                    j - 1
                };
                if i != at {
                    assert(order@[i] == before[p]);
                }
                if j != at {
                    assert(order@[j] == before[q]);
                }
            }
        }
        n += 1;
    }
    order
}

proof fn lemma_pair_once(a: MptKeyValue, b: MptKeyValue)
    requires
        pair_less(a, b),
    ensures
        !pair_less(b, a),
{
    lemma_lex_irreflexive(a.0@);
    lemma_lex_irreflexive(a.1@);
    if lex_lt(a.0@, b.0@) && lex_lt(b.0@, a.0@) {
        lemma_lex_trans(a.0@, b.0@, a.0@);
    }
    if lex_lt(a.1@, b.1@) && lex_lt(b.1@, a.1@) {
        lemma_lex_trans(a.1@, b.1@, a.1@);
    }
}

/// The first `n` pairs of a list as text, in the given order.
pub open spec fn pairs_text(values: Seq<MptKeyValue>, order: Seq<usize>, n: int) -> Seq<char>
    decreases n,
{
    if n <= 0 {
        Seq::empty()
    } else {
        let v = values[order[n - 1] as int];
        let done = if n == 1 {
            Seq::empty()
        } else {
            pairs_text(values, order, n - 1) + ","@
        };
        done + hex_of(v.0@) + "="@ + hex_of(v.1@)
    }
}

/// The pairs under a prefix as text, in order, and a dash where there are none.
pub fn format_prefix_result(values: &Option<Vec<MptKeyValue>>) -> (r: String)
    ensures
        match values {
            None => r@ == "-"@,
            Some(list) => exists|order: Seq<usize>| #[trigger]
                in_order(list@, order, list@.len() as int) && r@ == pairs_text(
                    list@,
                    order,
                    list@.len() as int,
                ),
        },
{
    match values {
        None => String::from_str("-"),
        Some(list) => {
            let order = sort_pairs(list);
            let mut out: String = String::new();
            let mut i: usize = 0;
            proof {
                assert(out@ =~= pairs_text(list@, order@, 0));
            }
            while i < list.len()
                invariant
                    i <= list@.len(),
                    in_order(list@, order@, list@.len() as int),
                    out@ == pairs_text(list@, order@, i as int),
                decreases list@.len() - i,
            {
                let ghost before = out@;
                if i > 0 {
                    out.append(",");
                }
                let v: &MptKeyValue = &list[order[i]];
                append_hex(&mut out, v.0.as_slice());
                out.append("=");
                append_hex(&mut out, &v.1);
                proof {
                    assert(out@ =~= pairs_text(list@, order@, i + 1));
                }
                i += 1;
            }
            proof {
                assert(in_order(list@, order@, list@.len() as int));
            }
            out
        },
    }
}

} // verus!
