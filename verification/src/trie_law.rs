//! What the hashes of nodes and the roots of layers are made of, byte for byte, and that
//! they commit to all that a layer holds.
use crate::bytes::agree;
use crate::trie::{common_path, compressed, concat, from_nibbles, full_path, has_prefix, is_nibbles, keccak_digest, key_bound, layer_root, lemma_key_bound, lemma_nibbles, lemma_node_path_exists, lemma_node_path_unique, lemma_subtree_unfold, merkle_bytes, nibble_map, nibbles, node_merkle, null_hash, pack_nibbles, path_info, path_merkle, same_under, slot_hash, subtree_hash, value_of};
use crate::types::MERKLE_NULL_NODE;
use vstd::prelude::*;

verus! {

/// The string that the core hash of a node is the digest of.
pub open spec fn node_string(children: Seq<Seq<u8>>, value: Option<Seq<u8>>) -> Seq<u8> {
    seq![0x6eu8] + concat(children) + match value {
        Some(v) => seq![0x76u8] + v,
        None => Seq::empty(),
    }
}

/// The string that the hash of a node behind a compressed path is the digest of.
pub open spec fn path_string(path: Seq<u8>, start: nat, core: Seq<u8>) -> Seq<u8> {
    seq![path_info(path.len(), start)] + compressed(path, start % 2 == 1) + core
}

/// Parts of 32 bytes stand one after another.
proof fn lemma_concat(parts: Seq<Seq<u8>>)
    requires
        forall|i: int| 0 <= i < parts.len() ==> (#[trigger] parts[i]).len() == 32,
    ensures
        concat(parts).len() == 32 * parts.len(),
        forall|i: int|
            0 <= i < parts.len() ==> concat(parts).subrange(32 * i, 32 * i + 32)
                == #[trigger] parts[i],
    decreases parts.len(),
{
    if parts.len() > 0 {
        let t = parts.drop_last();
        assert forall|i: int| 0 <= i < t.len() implies (#[trigger] t[i]).len() == 32 by {
            assert(t[i] == parts[i]);
        }
        lemma_concat(t);
        assert(parts.last().len() == 32) by {
            assert(parts[parts.len() - 1].len() == 32);
        }
        assert forall|i: int| 0 <= i < parts.len() implies concat(parts).subrange(
            32 * i,
            32 * i + 32,
        ) == #[trigger] parts[i] by {
            if i < t.len() {
                assert(t[i] == parts[i]);
                assert(concat(parts).subrange(32 * i, 32 * i + 32) =~= concat(t).subrange(
                    32 * i,
                    32 * i + 32,
                ));
            } else {
                assert(concat(parts).subrange(32 * i, 32 * i + 32) =~= parts[i]);
            }
        }
    }
}

/// The core hash of a node is the digest of `n`, the sixteen child hashes in order, and,
/// where a value ends at the node, `v` and all bytes of the value.
pub proof fn law_node_hash(children: Seq<Seq<u8>>, value: Option<Seq<u8>>, pre: Seq<u8>)
    requires
        children.len() == 16,
        forall|c: int| 0 <= c < 16 ==> (#[trigger] children[c]).len() == 32,
        pre.len() == 513 + (match value {
            Some(v) => 1 + v.len(),
            None => 0,
        }),
        pre[0] == 0x6e,
        forall|c: int|
            0 <= c < 16 ==> pre.subrange(1 + 32 * c, 33 + 32 * c) == #[trigger] children[c],
        value matches Some(v) ==> pre[513] == 0x76 && pre.skip(514) == v,
    ensures
        node_merkle(children, value) == keccak_digest(pre)@,
{
    lemma_concat(children);
    let all = concat(children);
    let want = node_string(children, value);
    assert(want.len() == pre.len());
    assert forall|i: int| 0 <= i < pre.len() implies #[trigger] want[i] == pre[i] by {
        if 1 <= i < 513 {
            let c = (i - 1) / 32;
            let o = (i - 1) % 32;
            assert(i == 1 + 32 * c + o);
            assert(pre.subrange(1 + 32 * c, 33 + 32 * c)[o] == pre[i]);
            assert(all.subrange(32 * c, 32 * c + 32)[o] == all[i - 1]);
            assert(children[c].len() == 32);
        } else if i >= 514 {
            assert(pre.skip(514)[i - 514] == pre[i]);
        }
    }
    assert(want =~= pre);
}

/// The hash of a node behind a path is the digest of a byte that tells the parity of the
/// depth and the length of the path modulo 63, the nibbles of the path, and the core hash.
/// The nibbles stand two to a byte; at an odd depth the first has a byte of its own.
pub proof fn law_path_hash(path: Seq<u8>, start: nat, core: Seq<u8>, pre: Seq<u8>)
    requires
        path.len() > 0,
        forall|i: int| 0 <= i < path.len() ==> #[trigger] path[i] < 16,
        ({
            let n = path.len() as int;
            let odd = start % 2 == 1;
            let from = if odd {
                1int
            } else {
                0
            };
            let bytes = from + (n - from + 1) / 2;
            &&& pre.len() == 1 + bytes + core.len()
            &&& pre[0] == 128 + (if odd {
                64int
            } else {
                0
            }) + n % 63
            &&& odd ==> pre[1] == path[0]
            &&& forall|i: int|
                from <= i < n ==> #[trigger] path[i] == (if (i - from) % 2 == 0 {
                    pre[1 + from + (i - from) / 2] / 16
                } else {
                    pre[1 + from + (i - from) / 2] % 16
                })
            &&& (n - from) % 2 == 1 ==> pre[bytes] % 16 == 0
            &&& pre.skip(1 + bytes) == core
        }),
    ensures
        path_merkle(path, start, core) == keccak_digest(pre)@,
        path_merkle(Seq::empty(), start, core) == core,
{
    let n = path.len() as int;
    let odd = start % 2 == 1;
    let from = if odd {
        1int
    } else {
        0
    };
    let bytes = from + (n - from + 1) / 2;
    let rest = path.skip(from);
    assert(rest =~= if odd {
        path.drop_first()
    } else {
        path
    });
    let packed = pack_nibbles(rest);
    let want = path_string(path, start, core);
    assert(packed.len() == (n - from + 1) / 2);
    assert(want.len() == pre.len());
    assert forall|i: int| 0 <= i < pre.len() implies #[trigger] want[i] == pre[i] by {
        if i == 0 {
        } else if i < 1 + from {
        } else if i < 1 + bytes {
            let j = i - 1 - from;
            assert(want[i] == packed[j]);
            let a = from + 2 * j;
            assert((a - from) % 2 == 0 && (a - from) / 2 == j);
            assert(path[a] == pre[1 + from + j] / 16);
            assert(rest[2 * j] == path[a]);
            if 2 * j + 1 < rest.len() {
                assert((a + 1 - from) % 2 == 1 && (a + 1 - from) / 2 == j);
                assert(path[a + 1] == pre[1 + from + j] % 16);
                assert(rest[2 * j + 1] == path[a + 1]);
            } else {
                assert(i == bytes);
            }
        } else {
            assert(pre.skip(1 + bytes)[i - 1 - bytes] == pre[i]);
        }
    }
    assert(want =~= pre);
}

/// The root of a layer without records.
pub proof fn law_empty_root()
    ensures
        layer_root(Map::empty()) == seq![
            0xc5u8, 0xd2, 0x46, 0x01, 0x86, 0xf7, 0x23, 0x3c, 0x92, 0x7e, 0x7d, 0xb2, 0xdc, 0xc7,
            0x03, 0xc0, 0xe5, 0x00, 0xb6, 0x53, 0xca, 0x82, 0x27, 0x3b, 0x7b, 0xfa, 0xd8, 0x04,
            0x5d, 0x85, 0xa4, 0x70,
        ],
{
    assert(MERKLE_NULL_NODE@ =~= seq![
        0xc5u8, 0xd2, 0x46, 0x01, 0x86, 0xf7, 0x23, 0x3c, 0x92, 0x7e, 0x7d, 0xb2, 0xdc, 0xc7,
        0x03, 0xc0, 0xe5, 0x00, 0xb6, 0x53, 0xca, 0x82, 0x27, 0x3b, 0x7b, 0xfa, 0xd8, 0x04,
        0x5d, 0x85, 0xa4, 0x70,
    ]);
}

/// What the nibbles of a byte string are.
proof fn lemma_nibble_at(k: Seq<u8>, i: int)
    requires
        0 <= i < k.len(),
    ensures
        nibbles(k)[2 * i] == k[i] / 16,
        nibbles(k)[2 * i + 1] == k[i] % 16,
{
    reveal(nibbles);
    assert((2 * i) / 2 == i && (2 * i + 1) / 2 == i);
    assert((2 * i) % 2 == 0 && (2 * i + 1) % 2 == 1);
}

/// The nibble form of a layer with one record.
proof fn lemma_one_key(k: Seq<u8>, record: Option<Seq<u8>>)
    ensures
        nibble_map(Map::<Seq<u8>, Option<Seq<u8>>>::empty().insert(k, record)) == Map::<
            Seq<u8>,
            Seq<u8>,
        >::empty().insert(nibbles(k), merkle_bytes(record)),
{
    lemma_nibbles(k);
    let m = Map::<Seq<u8>, Option<Seq<u8>>>::empty().insert(k, record);
    let want = Map::<Seq<u8>, Seq<u8>>::empty().insert(nibbles(k), merkle_bytes(record));
    assert forall|n: Seq<u8>| nibble_map(m).contains_key(n) == want.contains_key(n) by {}
    assert(nibble_map(m) =~= want);
}

/// The root of a layer with one record of the key `k`. The root's child in the slot of the
/// first half of `k[0]` is a leaf behind the rest of the key; the leaf holds the record's
/// bytes, of which a tombstone has none. All other slots hold the root of an empty layer.
pub proof fn law_one_record_root(
    k: Seq<u8>,
    record: Option<Seq<u8>>,
    leaf: Seq<u8>,
    branch: Seq<u8>,
    top: Seq<u8>,
)
    requires
        k.len() > 0,
        ({
            let value = match record {
                Some(v) => v,
                None => Seq::<u8>::empty(),
            };
            let null = layer_root(Map::empty());
            let n = k.len() as int;
            &&& leaf.len() == 514 + value.len()
            &&& leaf[0] == 0x6e
            &&& forall|c: int|
                0 <= c < 16 ==> #[trigger] leaf.subrange(1 + 32 * c, 33 + 32 * c) == null
            &&& leaf[513] == 0x76
            &&& leaf.skip(514) == value
            &&& branch.len() == 33 + n
            &&& branch[0] == 192 + (2 * n - 1) % 63
            &&& branch[1] == k[0] % 16
            &&& branch.subrange(2, n + 1) == k.skip(1)
            &&& branch.skip(n + 1) == keccak_digest(leaf)@
            &&& top.len() == 513
            &&& top[0] == 0x6e
            &&& forall|c: int|
                0 <= c < 16 ==> #[trigger] top.subrange(1 + 32 * c, 33 + 32 * c) == (if c == k[0]
                    / 16 {
                    keccak_digest(branch)@
                } else {
                    null
                })
        }),
    ensures
        layer_root(Map::<Seq<u8>, Option<Seq<u8>>>::empty().insert(k, record)) == keccak_digest(
            top,
        )@,
{
    let layer = Map::<Seq<u8>, Option<Seq<u8>>>::empty().insert(k, record);
    let value = merkle_bytes(record);
    let n = k.len() as int;
    let q = nibbles(k);
    let m = Map::<Seq<u8>, Seq<u8>>::empty().insert(q, value);
    lemma_one_key(k, record);
    lemma_nibbles(k);
    assert(layer != Map::<Seq<u8>, Option<Seq<u8>>>::empty()) by {
        assert(layer.contains_key(k));
    }
    let none = Seq::<u8>::empty();
    assert(m.contains_key(q));
    assert(none =~= q.subrange(0, 0));
    assert(has_prefix(m, none));
    lemma_subtree_unfold(m, none, false);
    lemma_nibble_at(k, 0);
    let first = q[0];
    let child = none.push(first);
    assert(child =~= q.subrange(0, 1));
    assert(has_prefix(m, child));
    lemma_subtree_unfold(m, child, true);
    // The leaf.
    assert(common_path(m, child, q)) by {
        assert(q =~= q.subrange(0, q.len() as int));
    }
    assert forall|p: Seq<u8>| #[trigger] common_path(m, child, p) implies p.len() <= q.len() by {
        assert(p.is_prefix_of(q));
    }
    lemma_node_path_unique(m, child, q);
    let leaf_slots = Seq::new(16, |c: int| slot_hash(m, q, c));
    assert forall|c: int| 0 <= c < 16 implies (#[trigger] leaf_slots[c]) == null_hash() by {
        assert(!has_prefix(m, q.push(c as u8)));
    }
    assert forall|c: int| 0 <= c < 16 implies leaf.subrange(1 + 32 * c, 33 + 32 * c)
        == #[trigger] leaf_slots[c] by {}
    law_node_hash(leaf_slots, Some(value), leaf);
    // The path to it.
    let path = q.subrange(1, q.len() as int);
    assert forall|i: int| 0 <= i < path.len() implies #[trigger] path[i] < 16 by {
        assert(q[i + 1] < 16);
    }
    assert(path[0] == q[1]);
    assert forall|i: int| 1 <= i < path.len() implies #[trigger] path[i] == (if (i - 1) % 2 == 0 {
        branch[2 + (i - 1) / 2] / 16
    } else {
        branch[2 + (i - 1) / 2] % 16
    }) by {
        let b = (i - 1) / 2;
        assert(branch.subrange(2, n + 1)[b] == branch[2 + b]);
        assert(k.skip(1)[b] == k[1 + b]);
        lemma_nibble_at(k, 1 + b);
        if (i - 1) % 2 == 0 {
            assert(i == 1 + 2 * b);
        } else {
            assert(i == 2 + 2 * b);
        }
    }
    assert(path.len() == 2 * n - 1);
    assert((2 * n - 1 - 1 + 1) / 2 == n - 1 || n == 0) by {
        assert((2 * n - 1) / 2 == n - 1);
    }
    assert((2 * n - 2) % 2 == 0);
    law_path_hash(path, 1, keccak_digest(leaf)@, branch);
    assert(subtree_hash(m, child, true) == keccak_digest(branch)@);
    // The root.
    let slots = Seq::new(16, |c: int| slot_hash(m, none, c));
    assert forall|c: int| 0 <= c < 16 implies top.subrange(1 + 32 * c, 33 + 32 * c)
        == #[trigger] slots[c] by {
        if c == first {
            assert(none.push(c as u8) == child);
        } else {
            assert(!has_prefix(m, none.push(c as u8))) by {
                if has_prefix(m, none.push(c as u8)) {
                    assert(none.push(c as u8).is_prefix_of(q));
                    assert(none.push(c as u8)[0] == q.subrange(0, 1)[0]);
                }
            }
        }
    }
    assert forall|c: int| 0 <= c < 16 implies (#[trigger] slots[c]).len() == 32 by {}
    assert(!m.contains_key(none)) by {
        assert(q.len() > 0);
    }
    law_node_hash(slots, None, top);
    assert(none.subrange(0, 0) =~= none);
}

/// Equal strings of nodes are made of equal child hashes and equal values.
proof fn lemma_node_string(
    c1: Seq<Seq<u8>>,
    v1: Option<Seq<u8>>,
    c2: Seq<Seq<u8>>,
    v2: Option<Seq<u8>>,
)
    requires
        c1.len() == 16,
        c2.len() == 16,
        forall|c: int| 0 <= c < 16 ==> (#[trigger] c1[c]).len() == 32,
        forall|c: int| 0 <= c < 16 ==> (#[trigger] c2[c]).len() == 32,
        node_string(c1, v1) == node_string(c2, v2),
    ensures
        c1 == c2,
        v1 == v2,
{
    let a = node_string(c1, v1);
    let b = node_string(c2, v2);
    lemma_concat(c1);
    lemma_concat(c2);
    assert forall|c: int| 0 <= c < 16 implies #[trigger] c1[c] == c2[c] by {
        assert(a.subrange(1 + 32 * c, 33 + 32 * c) =~= concat(c1).subrange(32 * c, 32 * c + 32));
        assert(b.subrange(1 + 32 * c, 33 + 32 * c) =~= concat(c2).subrange(32 * c, 32 * c + 32));
        assert(c2[c].len() == 32);
    }
    assert(c1 =~= c2);
    match (v1, v2) {
        (Some(x), Some(y)) => {
            assert(a.skip(514) =~= x);
            assert(b.skip(514) =~= y);
        },
        (Some(x), None) => {
            assert(a.len() == 514 + x.len() && b.len() == 513);
        },
        (None, Some(y)) => {
            assert(b.len() == 514 + y.len() && a.len() == 513);
        },
        (None, None) => {},
    }
}

/// Two nodes with the same core hash have the same child hashes and the same value, or
/// their strings are two different strings with one digest.
pub proof fn law_node_commits(
    c1: Seq<Seq<u8>>,
    v1: Option<Seq<u8>>,
    c2: Seq<Seq<u8>>,
    v2: Option<Seq<u8>>,
    pre1: Seq<u8>,
    pre2: Seq<u8>,
)
    requires
        c1.len() == 16,
        c2.len() == 16,
        forall|c: int| 0 <= c < 16 ==> (#[trigger] c1[c]).len() == 32,
        forall|c: int| 0 <= c < 16 ==> (#[trigger] c2[c]).len() == 32,
        pre1.len() >= 513,
        pre2.len() >= 513,
        pre1[0] == 0x6e && pre2[0] == 0x6e,
        forall|c: int| 0 <= c < 16 ==> pre1.subrange(1 + 32 * c, 33 + 32 * c) == #[trigger] c1[c],
        forall|c: int| 0 <= c < 16 ==> pre2.subrange(1 + 32 * c, 33 + 32 * c) == #[trigger] c2[c],
        match v1 {
            Some(v) => pre1.len() >= 514 && pre1[513] == 0x76 && pre1.skip(514) == v,
            None => pre1.len() == 513,
        },
        match v2 {
            Some(v) => pre2.len() >= 514 && pre2[513] == 0x76 && pre2.skip(514) == v,
            None => pre2.len() == 513,
        },
        node_merkle(c1, v1) == node_merkle(c2, v2),
    ensures
        (c1 == c2 && v1 == v2) || (pre1 != pre2 && keccak_digest(pre1)@ == keccak_digest(pre2)@),
{
    law_node_hash(c1, v1, pre1);
    law_node_hash(c2, v2, pre2);
    if pre1 == pre2 {
        assert forall|c: int| 0 <= c < 16 implies #[trigger] c1[c] == c2[c] by {}
        assert(c1 =~= c2);
    }
}

/// Nibbles that pack to the same bytes, in the same number, are the same.
proof fn lemma_pack_same(a: Seq<u8>, b: Seq<u8>)
    requires
        is_nibbles(a),
        is_nibbles(b),
        a.len() == b.len(),
        pack_nibbles(a) == pack_nibbles(b),
    ensures
        a == b,
{
    assert forall|i: int| 0 <= i < a.len() implies a[i] == b[i] by {
        let j = i / 2;
        let x = pack_nibbles(a)[j];
        let y = pack_nibbles(b)[j];
        assert(x == y);
        assert(a[2 * j] < 16 && b[2 * j] < 16);
        let low_a = if 2 * j + 1 < a.len() {
            a[2 * j + 1] as int
        } else {
            0
        };
        let low_b = if 2 * j + 1 < b.len() {
            b[2 * j + 1] as int
        } else {
            0
        };
        if 2 * j + 1 < a.len() {
            assert(a[2 * j + 1] < 16 && b[2 * j + 1] < 16);
        }
        assert(x == a[2 * j] * 16 + low_a);
        assert(y == b[2 * j] * 16 + low_b);
        assert(i == 2 * j || i == 2 * j + 1);
    }
    assert(a =~= b);
}

/// Equal strings of paths from one depth are made of equal paths and equal core hashes.
proof fn lemma_path_string(p1: Seq<u8>, k1: Seq<u8>, p2: Seq<u8>, k2: Seq<u8>, start: nat)
    requires
        p1.len() > 0,
        p2.len() > 0,
        is_nibbles(p1),
        is_nibbles(p2),
        k1.len() == 32,
        k2.len() == 32,
        path_string(p1, start, k1) == path_string(p2, start, k2),
    ensures
        p1 == p2,
        k1 == k2,
{
    let a = path_string(p1, start, k1);
    let b = path_string(p2, start, k2);
    let odd = start % 2 == 1;
    let x = compressed(p1, odd);
    let y = compressed(p2, odd);
    assert(a.len() == 33 + x.len() && b.len() == 33 + y.len());
    assert(a[0] == b[0]);
    assert(p1.len() % 63 == p2.len() % 63);
    assert(x =~= a.subrange(1, 1 + x.len() as int));
    assert(y =~= b.subrange(1, 1 + y.len() as int));
    assert(k1 =~= a.skip(1 + x.len() as int));
    assert(k2 =~= b.skip(1 + y.len() as int));
    if odd {
        let r1 = p1.drop_first();
        let r2 = p2.drop_first();
        assert(x.len() == 1 + (r1.len() + 1) / 2);
        assert(y.len() == 1 + (r2.len() + 1) / 2);
        assert(p1.len() == p2.len());
        assert(x[0] == p1[0] && y[0] == p2[0]);
        assert(pack_nibbles(r1) =~= x.skip(1));
        assert(pack_nibbles(r2) =~= y.skip(1));
        assert forall|i: int| 0 <= i < r1.len() implies #[trigger] r1[i] < 16 by {
            assert(p1[i + 1] < 16);
        }
        assert forall|i: int| 0 <= i < r2.len() implies #[trigger] r2[i] < 16 by {
            assert(p2[i + 1] < 16);
        }
        lemma_pack_same(r1, r2);
        assert(p1 =~= seq![p1[0]] + r1);
        assert(p2 =~= seq![p2[0]] + r2);
    } else {
        assert(p1.len() == p2.len());
        lemma_pack_same(p1, p2);
    }
}

/// Whether `strings` holds what is hashed for the node at `rp`.
pub open spec fn hashes_node(
    strings: Set<Seq<u8>>,
    m: Map<Seq<u8>, Seq<u8>>,
    rp: Seq<u8>,
    compress: bool,
) -> bool {
    let full = full_path(m, rp, compress);
    let node = node_string(Seq::new(16, |c: int| slot_hash(m, full, c)), value_of(m, full));
    let path = full.subrange(rp.len() as int, full.len() as int);
    &&& strings.contains(node)
    &&& path.len() > 0 ==> strings.contains(path_string(path, rp.len(), keccak_digest(node)@))
}

/// Whether `strings` holds everything that is hashed for the root of a layer.
pub open spec fn hashes_layer(strings: Set<Seq<u8>>, layer: Map<Seq<u8>, Option<Seq<u8>>>) -> bool {
    forall|rp: Seq<u8>, compress: bool| #[trigger]
        hashes_node(strings, nibble_map(layer), rp, compress) || !has_prefix(
            nibble_map(layer),
            rp,
        )
}

/// No two of the strings have one digest, and none has the root of an empty layer.
pub open spec fn collision_free(strings: Set<Seq<u8>>) -> bool {
    &&& forall|a: Seq<u8>, b: Seq<u8>|
        strings.contains(a) && strings.contains(b) && #[trigger] keccak_digest(a)@
            == #[trigger] keccak_digest(b)@ ==> a == b
    &&& forall|a: Seq<u8>| strings.contains(a) ==> #[trigger] keccak_digest(a)@
        != layer_root(Map::empty())
}

/// The hash of a node at which something is stored.
proof fn lemma_subtree_digest(
    strings: Set<Seq<u8>>,
    m: Map<Seq<u8>, Seq<u8>>,
    rp: Seq<u8>,
    compress: bool,
)
    requires
        m.dom().finite(),
        has_prefix(m, rp),
        hashes_node(strings, m, rp, compress),
        collision_free(strings),
    ensures
        subtree_hash(m, rp, compress).len() == 32,
        subtree_hash(m, rp, compress) != null_hash(),
{
    lemma_subtree_unfold(m, rp, compress);
}

/// Every key is made of nibbles.
spec fn nibbled(m: Map<Seq<u8>, Seq<u8>>) -> bool {
    forall|k: Seq<u8>| #[trigger] m.contains_key(k) ==> is_nibbles(k)
}

proof fn lemma_nibbled(layer: Map<Seq<u8>, Option<Seq<u8>>>)
    ensures
        nibbled(nibble_map(layer)),
{
    assert forall|k: Seq<u8>| #[trigger] nibble_map(layer).contains_key(k) implies is_nibbles(k) by {
        lemma_nibbles(from_nibbles(k));
    }
}

proof fn lemma_slots(
    strings: Set<Seq<u8>>,
    m: Map<Seq<u8>, Seq<u8>>,
    full: Seq<u8>,
)
    requires
        m.dom().finite(),
        collision_free(strings),
        forall|rp: Seq<u8>, compress: bool| #[trigger]
            hashes_node(strings, m, rp, compress) || !has_prefix(m, rp),
    ensures
        forall|c: int| 0 <= c < 16 ==> (#[trigger] slot_hash(m, full, c)).len() == 32,
        forall|c: int|
            0 <= c < 16 ==> (#[trigger] slot_hash(m, full, c) == null_hash() <==> !has_prefix(
                m,
                full.push(c as u8),
            )),
{
    assert forall|c: int| 0 <= c < 16 implies (#[trigger] slot_hash(m, full, c)).len() == 32 && (
    slot_hash(m, full, c) == null_hash() <==> !has_prefix(m, full.push(c as u8))) by {
        if has_prefix(m, full.push(c as u8)) {
            assert(hashes_node(strings, m, full.push(c as u8), true));
            lemma_subtree_digest(strings, m, full.push(c as u8), true);
        }
    }
}

/// The path and the core of two nodes with one hash are the same.
proof fn lemma_same_node(
    strings: Set<Seq<u8>>,
    m1: Map<Seq<u8>, Seq<u8>>,
    m2: Map<Seq<u8>, Seq<u8>>,
    rp: Seq<u8>,
    compress: bool,
)
    requires
        m1.dom().finite(),
        m2.dom().finite(),
        nibbled(m1),
        nibbled(m2),
        has_prefix(m1, rp),
        has_prefix(m2, rp),
        collision_free(strings),
        forall|rp: Seq<u8>, compress: bool| #[trigger]
            hashes_node(strings, m1, rp, compress) || !has_prefix(m1, rp),
        forall|rp: Seq<u8>, compress: bool| #[trigger]
            hashes_node(strings, m2, rp, compress) || !has_prefix(m2, rp),
        subtree_hash(m1, rp, compress) == subtree_hash(m2, rp, compress),
    ensures
        full_path(m1, rp, compress) == full_path(m2, rp, compress),
        rp.is_prefix_of(full_path(m1, rp, compress)),
        value_of(m1, full_path(m1, rp, compress)) == value_of(m2, full_path(m1, rp, compress)),
        forall|c: int|
            0 <= c < 16 ==> #[trigger] slot_hash(m1, full_path(m1, rp, compress), c) == slot_hash(
                m2,
                full_path(m1, rp, compress),
                c,
            ),
{
    let f1 = full_path(m1, rp, compress);
    let f2 = full_path(m2, rp, compress);
    lemma_subtree_unfold(m1, rp, compress);
    lemma_subtree_unfold(m2, rp, compress);
    assert(hashes_node(strings, m1, rp, compress));
    assert(hashes_node(strings, m2, rp, compress));
    lemma_slots(strings, m1, f1);
    lemma_slots(strings, m2, f2);
    let s1 = Seq::new(16, |c: int| slot_hash(m1, f1, c));
    let s2 = Seq::new(16, |c: int| slot_hash(m2, f2, c));
    let n1 = node_string(s1, value_of(m1, f1));
    let n2 = node_string(s2, value_of(m2, f2));
    let p1 = f1.subrange(rp.len() as int, f1.len() as int);
    let p2 = f2.subrange(rp.len() as int, f2.len() as int);
    lemma_full_nibbles(m1, rp, compress);
    lemma_full_nibbles(m2, rp, compress);
    let t1 = path_string(p1, rp.len(), keccak_digest(n1)@);
    let t2 = path_string(p2, rp.len(), keccak_digest(n2)@);
    assert(n1[0] == 0x6e && n2[0] == 0x6e);
    assert(t1[0] >= 128 && t2[0] >= 128);
    if p1.len() > 0 && p2.len() > 0 {
        assert(t1 == t2);
        lemma_path_string(p1, keccak_digest(n1)@, p2, keccak_digest(n2)@, rp.len());
    } else if p1.len() > 0 {
        assert(keccak_digest(t1)@ == keccak_digest(n2)@);
        assert(t1 == n2);
    } else if p2.len() > 0 {
        assert(keccak_digest(n1)@ == keccak_digest(t2)@);
        assert(n1 == t2);
    }
    assert(p1 =~= p2);
    assert(keccak_digest(n1)@ == keccak_digest(n2)@);
    assert(n1 == n2);
    lemma_node_string(s1, value_of(m1, f1), s2, value_of(m2, f2));
    assert(f1 =~= rp + p1);
    assert(f2 =~= rp + p2);
    assert forall|c: int| 0 <= c < 16 implies #[trigger] slot_hash(m1, f1, c) == slot_hash(
        m2,
        f1,
        c,
    ) by {
        assert(s1[c] == s2[c]);
    }
}

proof fn lemma_full_nibbles(m: Map<Seq<u8>, Seq<u8>>, rp: Seq<u8>, compress: bool)
    requires
        nibbled(m),
        has_prefix(m, rp),
        m.dom().finite(),
    ensures
        ({
            let full = full_path(m, rp, compress);
            is_nibbles(full.subrange(rp.len() as int, full.len() as int))
        }),
{
    lemma_subtree_unfold(m, rp, compress);
    lemma_node_path_exists(m, rp);
    let full = full_path(m, rp, compress);
    let k = choose|k: Seq<u8>| #[trigger] m.contains_key(k) && rp.is_prefix_of(k);
    assert(full.is_prefix_of(k));
    let p = full.subrange(rp.len() as int, full.len() as int);
    assert forall|i: int| 0 <= i < p.len() implies #[trigger] p[i] < 16 by {
        assert(full[rp.len() + i] == k.subrange(0, full.len() as int)[rp.len() + i]);
        assert(k[rp.len() + i] < 16);
    }
}

/// Where the hashes of two nodes agree, what lies under the nodes does.
proof fn lemma_same_subtree(
    strings: Set<Seq<u8>>,
    m1: Map<Seq<u8>, Seq<u8>>,
    m2: Map<Seq<u8>, Seq<u8>>,
    rp: Seq<u8>,
    compress: bool,
)
    requires
        m1.dom().finite(),
        m2.dom().finite(),
        nibbled(m1),
        nibbled(m2),
        has_prefix(m1, rp),
        has_prefix(m2, rp),
        collision_free(strings),
        forall|rp: Seq<u8>, compress: bool| #[trigger]
            hashes_node(strings, m1, rp, compress) || !has_prefix(m1, rp),
        forall|rp: Seq<u8>, compress: bool| #[trigger]
            hashes_node(strings, m2, rp, compress) || !has_prefix(m2, rp),
        subtree_hash(m1, rp, compress) == subtree_hash(m2, rp, compress),
    ensures
        same_under(m1, m2, rp),
    decreases key_bound(m1) + 1 - rp.len(),
{
    lemma_same_node(strings, m1, m2, rp, compress);
    lemma_key_bound(m1);
    lemma_node_path_exists(m1, rp);
    lemma_node_path_exists(m2, rp);
    let full = full_path(m1, rp, compress);
    lemma_slots(strings, m1, full);
    lemma_slots(strings, m2, full);
    assert forall|c: int| 0 <= c < 16 implies same_under(m1, m2, #[trigger] full.push(c as u8)) by {
        let child = full.push(c as u8);
        assert(slot_hash(m1, full, c) == slot_hash(m2, full, c));
        if has_prefix(m1, child) {
            let k = choose|k: Seq<u8>| #[trigger] m1.contains_key(k) && child.is_prefix_of(k);
            assert(k.len() >= child.len());
            lemma_same_subtree(strings, m1, m2, child, true);
        }
    }
    assert forall|k: Seq<u8>| rp.is_prefix_of(k) implies (#[trigger] m1.contains_key(k)
        <==> m2.contains_key(k)) && (m1.contains_key(k) ==> m1[k] == m2[k]) by {
        if m1.contains_key(k) || m2.contains_key(k) {
            assert(full.is_prefix_of(k)) by {
                if compress {
                    assert(common_path(m1, rp, full) && common_path(m2, rp, full));
                }
            }
            if k.len() == full.len() {
                assert(k =~= full);
                assert(value_of(m1, full) == value_of(m2, full));
            } else {
                let c = k[full.len() as int];
                assert(is_nibbles(k));
                assert(c < 16);
                let child = full.push(c as int as u8);
                assert(child =~= k.subrange(0, child.len() as int)) by {
                    assert forall|i: int| 0 <= i < full.len() implies full[i] == k[i] by {
                        assert(full[i] == k.subrange(0, full.len() as int)[i]);
                    }
                }
                assert(same_under(m1, m2, full.push(c as int as u8)));
            }
        }
    }
}

/// The root of a layer commits to the layer. Two layers with the same root hold the same
/// keys, each with the same bytes, unless two of the strings that are hashed for them have
/// one digest.
pub proof fn law_root_commits(
    m1: Map<Seq<u8>, Option<Seq<u8>>>,
    m2: Map<Seq<u8>, Option<Seq<u8>>>,
    strings: Set<Seq<u8>>,
)
    requires
        m1.dom().finite(),
        m2.dom().finite(),
        hashes_layer(strings, m1),
        hashes_layer(strings, m2),
        collision_free(strings),
        layer_root(m1) == layer_root(m2),
    ensures
        forall|k: Seq<u8>| #[trigger] m1.contains_key(k) <==> m2.contains_key(k),
        forall|k: Seq<u8>|
            #![trigger m1[k]]
            m1.contains_key(k) ==> (match m1[k] {
                Some(v) => v,
                None => Seq::<u8>::empty(),
            }) == (match m2[k] {
                Some(v) => v,
                None => Seq::<u8>::empty(),
            }),
{
    let n1 = nibble_map(m1);
    let n2 = nibble_map(m2);
    lemma_nibble_finite(m1);
    lemma_nibble_finite(m2);
    lemma_nibbled(m1);
    lemma_nibbled(m2);
    let none = Seq::<u8>::empty();
    let nothing = Map::<Seq<u8>, Option<Seq<u8>>>::empty();
    if m1 != nothing {
        lemma_some_key(m1);
        assert(hashes_node(strings, n1, none, false));
        lemma_subtree_digest(strings, n1, none, false);
    }
    if m2 != nothing {
        lemma_some_key(m2);
        assert(hashes_node(strings, n2, none, false));
        lemma_subtree_digest(strings, n2, none, false);
    }
    if m1 != nothing && m2 != nothing {
        assert forall|rp: Seq<u8>, compress: bool| #[trigger]
            hashes_node(strings, n1, rp, compress) || !has_prefix(n1, rp) by {}
        assert forall|rp: Seq<u8>, compress: bool| #[trigger]
            hashes_node(strings, n2, rp, compress) || !has_prefix(n2, rp) by {}
        lemma_same_subtree(strings, n1, n2, none, false);
        assert forall|k: Seq<u8>| #[trigger] m1.contains_key(k) <==> m2.contains_key(k) by {
            lemma_same_record(m1, m2, k);
        }
        assert forall|k: Seq<u8>|
            #![trigger m1[k]]
            m1.contains_key(k) implies merkle_bytes(m1[k]) == merkle_bytes(m2[k]) by {
            lemma_same_record(m1, m2, k);
        }
    }
}

proof fn lemma_same_record(
    m1: Map<Seq<u8>, Option<Seq<u8>>>,
    m2: Map<Seq<u8>, Option<Seq<u8>>>,
    k: Seq<u8>,
)
    requires
        same_under(nibble_map(m1), nibble_map(m2), Seq::empty()),
    ensures
        m1.contains_key(k) <==> m2.contains_key(k),
        m1.contains_key(k) ==> merkle_bytes(m1[k]) == merkle_bytes(m2[k]),
{
    lemma_nibbles(k);
    let q = nibbles(k);
    assert(Seq::<u8>::empty() =~= q.subrange(0, 0));
    assert(nibble_map(m1).contains_key(q) == m1.contains_key(k));
    assert(nibble_map(m2).contains_key(q) == m2.contains_key(k));
}

proof fn lemma_some_key(m: Map<Seq<u8>, Option<Seq<u8>>>)
    requires
        m != Map::<Seq<u8>, Option<Seq<u8>>>::empty(),
    ensures
        has_prefix(nibble_map(m), Seq::empty()),
{
    if forall|k: Seq<u8>| !m.contains_key(k) {
        assert(m =~= Map::<Seq<u8>, Option<Seq<u8>>>::empty());
    }
    let k = choose|k: Seq<u8>| m.contains_key(k);
    lemma_nibbles(k);
    let q = nibbles(k);
    assert(Seq::<u8>::empty() =~= q.subrange(0, 0));
    assert(nibble_map(m).contains_key(q));
}

proof fn lemma_nibble_finite(m: Map<Seq<u8>, Option<Seq<u8>>>)
    requires
        m.dom().finite(),
    ensures
        nibble_map(m).dom().finite(),
{
    let images = m.dom().map(|k: Seq<u8>| nibbles(k));
    m.dom().lemma_map_finite(|k: Seq<u8>| nibbles(k));
    assert forall|n: Seq<u8>| #[trigger] nibble_map(m).dom().contains(n) implies images.contains(n) by {
        assert(m.dom().contains(from_nibbles(n)));
    }
    vstd::set_lib::lemma_set_subset_finite(images, nibble_map(m).dom());
}

/// In the nibble form of a layer a key stands as its halves of bytes, high half first, with
/// the bytes of its record, of which a tombstone has none.
pub proof fn law_nibble_key(layer: Map<Seq<u8>, Option<Seq<u8>>>, k: Seq<u8>, n: Seq<u8>)
    requires
        n.len() == 2 * k.len(),
        forall|i: int|
            0 <= i < k.len() ==> n[2 * i] == #[trigger] k[i] / 16 && n[2 * i + 1] == k[i] % 16,
    ensures
        nibble_map(layer).contains_key(n) <==> layer.contains_key(k),
        layer.contains_key(k) ==> nibble_map(layer)[n] == (match layer[k] {
            Some(v) => v,
            None => Seq::<u8>::empty(),
        }),
{
    lemma_nibbles(k);
    assert(n =~= nibbles(k)) by {
        assert forall|j: int| 0 <= j < n.len() implies n[j] == nibbles(k)[j] by {
            let i = j / 2;
            lemma_nibble_at(k, i);
            assert(n[2 * i] == k[i] / 16 && n[2 * i + 1] == k[i] % 16);
            assert(j == 2 * i || j == 2 * i + 1);
        }
    }
}

/// The nibble form of a layer holds the keys of the layer, and no others.
pub proof fn law_nibble_keys(layer: Map<Seq<u8>, Option<Seq<u8>>>, n: Seq<u8>)
    requires
        nibble_map(layer).contains_key(n),
    ensures
        exists|k: Seq<u8>| #[trigger]
            layer.contains_key(k) && n.len() == 2 * k.len() && forall|i: int|
                0 <= i < k.len() ==> n[2 * i] == #[trigger] k[i] / 16 && n[2 * i + 1] == k[i] % 16,
{
    let k = from_nibbles(n);
    lemma_nibbles(k);
    assert forall|i: int| 0 <= i < k.len() implies n[2 * i] == #[trigger] k[i] / 16 && n[2 * i + 1]
        == k[i] % 16 by {
        lemma_nibble_at(k, i);
    }
    assert(layer.contains_key(k));
}

/// The root of a layer with records is the digest of the string of a node: in each slot the
/// hash of what lies under that nibble, or the root of an empty layer, and the record of the
/// empty key where there is one.
pub proof fn law_root_node(layer: Map<Seq<u8>, Option<Seq<u8>>>, some: Seq<u8>, top: Seq<u8>)
    requires
        layer.dom().finite(),
        layer.contains_key(some),
        top.len() >= 513,
        top[0] == 0x6e,
        forall|c: int|
            0 <= c < 16 ==> #[trigger] top.subrange(1 + 32 * c, 33 + 32 * c) == (if exists|n: Seq<
                u8,
            >| #[trigger]
                nibble_map(layer).contains_key(n) && n.len() > 0 && n[0] == c {
                subtree_hash(nibble_map(layer), seq![c as u8], true)
            } else {
                layer_root(Map::empty())
            }),
        layer.contains_key(Seq::empty()) ==> top.len() >= 514 && top[513] == 0x76 && top.skip(514)
            == (match layer[Seq::empty()] {
            Some(v) => v,
            None => Seq::<u8>::empty(),
        }),
        !layer.contains_key(Seq::empty()) ==> top.len() == 513,
    ensures
        layer_root(layer) == keccak_digest(top)@,
{
    let m = nibble_map(layer);
    let none = Seq::<u8>::empty();
    lemma_nibble_finite(layer);
    assert(layer != Map::<Seq<u8>, Option<Seq<u8>>>::empty()) by {
        assert(layer.contains_key(some));
    }
    lemma_some_key(layer);
    lemma_subtree_unfold(m, none, false);
    law_nibble_key(layer, none, none);
    let slots = Seq::new(16, |c: int| slot_hash(m, none, c));
    assert forall|c: int| 0 <= c < 16 implies top.subrange(1 + 32 * c, 33 + 32 * c)
        == #[trigger] slots[c] && slots[c].len() == 32 by {
        let p = none.push(c as u8);
        assert(p =~= seq![c as u8]);
        if has_prefix(m, p) {
            let n = choose|n: Seq<u8>| #[trigger] m.contains_key(n) && p.is_prefix_of(n);
            assert(n.subrange(0, 1)[0] == p[0]);
            assert(m.contains_key(n) && n.len() > 0 && n[0] == c);
        }
        if exists|n: Seq<u8>| #[trigger] m.contains_key(n) && n.len() > 0 && n[0] == c {
            let n = choose|n: Seq<u8>| #[trigger] m.contains_key(n) && n.len() > 0 && n[0] == c;
            assert(p =~= n.subrange(0, 1));
            assert(has_prefix(m, p));
        }
    }
    law_node_hash(slots, value_of(m, none), top);
    assert(none.subrange(0, 0) =~= none);
}

/// The hash of what lies under `rp`. The node stands at `full`, the longest path that all keys
/// under `rp` share: its string holds in each slot the hash of what lies under that nibble, or
/// the root of an empty layer, and the value of `full` where it is a key. The hash is the
/// digest of that string, or, where `full` is longer than `rp`, that of the string of the path
/// between them.
pub proof fn law_subtree_hash(
    m: Map<Seq<u8>, Seq<u8>>,
    rp: Seq<u8>,
    full: Seq<u8>,
    node: Seq<u8>,
)
    requires
        m.dom().finite(),
        rp.is_prefix_of(full),
        exists|k: Seq<u8>| #[trigger] m.contains_key(k) && rp.is_prefix_of(k),
        forall|k: Seq<u8>| #[trigger]
            m.contains_key(k) && rp.is_prefix_of(k) ==> full.is_prefix_of(k),
        forall|c: u8|
            exists|k: Seq<u8>| #[trigger]
                m.contains_key(k) && rp.is_prefix_of(k) && !(#[trigger] full.push(c)).is_prefix_of(
                    k,
                ),
        node.len() >= 513,
        node[0] == 0x6e,
        forall|c: int|
            0 <= c < 16 ==> #[trigger] node.subrange(1 + 32 * c, 33 + 32 * c) == (if exists|
                k: Seq<u8>,
            | #[trigger]
                m.contains_key(k) && full.push(c as u8).is_prefix_of(k) {
                subtree_hash(m, full.push(c as u8), true)
            } else {
                layer_root(Map::empty())
            }),
        m.contains_key(full) ==> node.len() >= 514 && node[513] == 0x76 && node.skip(514)
            == m[full],
        !m.contains_key(full) ==> node.len() == 513,
    ensures
        subtree_hash(m, rp, true) == path_merkle(
            full.skip(rp.len() as int),
            rp.len(),
            keccak_digest(node)@,
        ),
{
    assert(has_prefix(m, rp));
    assert(common_path(m, rp, full));
    assert forall|q: Seq<u8>| #[trigger] common_path(m, rp, q) implies q.len() <= full.len() by {
        if q.len() > full.len() {
            let k0 = choose|k: Seq<u8>| #[trigger] m.contains_key(k) && rp.is_prefix_of(k);
            let c = q[full.len() as int];
            let k = choose|k: Seq<u8>| #[trigger]
                m.contains_key(k) && rp.is_prefix_of(k) && !full.push(c).is_prefix_of(k);
            assert(q.is_prefix_of(k) && full.is_prefix_of(k));
            let f = full.push(c);
            assert(f =~= k.subrange(0, f.len() as int)) by {
                assert forall|i: int| 0 <= i < f.len() implies f[i] == k[i] by {
                    if i < full.len() {
                        assert(full[i] == k.subrange(0, full.len() as int)[i]);
                    } else {
                        assert(q[i] == k.subrange(0, q.len() as int)[i]);
                    }
                }
            }
        }
    }
    lemma_node_path_unique(m, rp, full);
    lemma_subtree_unfold(m, rp, true);
    let slots = Seq::new(16, |c: int| slot_hash(m, full, c));
    assert forall|c: int| 0 <= c < 16 implies node.subrange(1 + 32 * c, 33 + 32 * c)
        == #[trigger] slots[c] && slots[c].len() == 32 by {
        assert(has_prefix(m, full.push(c as u8)) == exists|k: Seq<u8>| #[trigger]
            m.contains_key(k) && full.push(c as u8).is_prefix_of(k));
    }
    law_node_hash(slots, value_of(m, full), node);
    assert(full.skip(rp.len() as int) =~= full.subrange(rp.len() as int, full.len() as int));
}

} // verus!
