//! Blocks of entries: sorted runs of nibble keys that share a routing prefix.
use crate::bytemap::{keys_sorted, lemma_pairs_map, pairs_map};
use crate::bytes::{agree, lcp, lemma_agree_prefix, lemma_lcp, lemma_lcp_at_least, lemma_lex_between, lex_lt};
use crate::trie::{common_path, has_prefix, hash_bytes, is_nibbles, lemma_node_path_unique, lemma_subtree_local, merkle_bytes, node_path, null_hash, null_slots, same_under, slot_hash, subtree_hash, value_of, MptValue};
use crate::types::{H256, MERKLE_NULL_NODE};
use vstd::prelude::*;

verus! {

/// One entry of a trie under construction: a nibble key and its record.
#[derive(Clone, Copy)]
pub(crate) struct EntryRef<'a> {
    pub key: &'a [u8],
    pub value: &'a MptValue,
}

/// The keys of the entries with the bytes they contribute.
pub(crate) open spec fn entry_pairs(es: Seq<EntryRef<'_>>) -> Seq<(Seq<u8>, Seq<u8>)> {
    Seq::new(es.len(), |i: int| (es[i].key@, merkle_bytes(es[i].value@)))
}

/// A non-empty sorted run of nibble keys that agree on their first `depth` nibbles.
pub open spec fn block_ok(s: Seq<(Seq<u8>, Seq<u8>)>, depth: nat) -> bool {
    &&& s.len() > 0
    &&& keys_sorted(s)
    &&& forall|i: int|
        0 <= i < s.len() ==> is_nibbles((#[trigger] s[i]).0) && agree(s[0].0, s[i].0, depth)
}

/// Length of the longest key.
pub open spec fn longest(s: Seq<(Seq<u8>, Seq<u8>)>) -> nat
    decreases s.len(),
{
    if s.len() == 0 {
        0
    } else {
        let l = longest(s.drop_last());
        if l < s.last().0.len() {
            s.last().0.len()
        } else {
            l
        }
    }
}

pub proof fn lemma_longest(s: Seq<(Seq<u8>, Seq<u8>)>)
    ensures
        forall|i: int| 0 <= i < s.len() ==> (#[trigger] s[i]).0.len() <= longest(s),
        s.len() > 0 ==> exists|i: int| 0 <= i < s.len() && (#[trigger] s[i]).0.len() == longest(s),
    decreases s.len(),
{
    if s.len() > 0 {
        let t = s.drop_last();
        lemma_longest(t);
        assert forall|i: int| 0 <= i < s.len() implies (#[trigger] s[i]).0.len() <= longest(s) by {
            if i < s.len() - 1 {
                assert(t[i] == s[i]);
            }
        }
        if longest(s) == s.last().0.len() {
            assert(s[s.len() - 1].0.len() == longest(s));
        } else {
            let i = choose|i: int| 0 <= i < t.len() && (#[trigger] t[i]).0.len() == longest(t);
            assert(s[i].0.len() == longest(s));
        }
    }
}

pub proof fn lemma_longest_subrange(s: Seq<(Seq<u8>, Seq<u8>)>, a: int, b: int)
    requires
        0 <= a < b <= s.len(),
    ensures
        longest(s.subrange(a, b)) <= longest(s),
{
    let t = s.subrange(a, b);
    lemma_longest(s);
    lemma_longest(t);
    let i = choose|i: int| 0 <= i < t.len() && (#[trigger] t[i]).0.len() == longest(t);
    assert(s[a + i] == t[i]);
}

/// The path shared by a whole block is the one shared by its first and last key.
pub proof fn lemma_block_path(s: Seq<(Seq<u8>, Seq<u8>)>, depth: nat)
    requires
        block_ok(s, depth),
    ensures
        ({
            let l = lcp(s[0].0, s.last().0);
            &&& depth <= l <= s[0].0.len()
            &&& block_ok(s, l)
            &&& node_path(pairs_map(s), s[0].0.take(depth as int)) == s[0].0.take(l as int)
        }),
        has_prefix(pairs_map(s), s[0].0.take(depth as int)),
        pairs_map(s).dom().finite(),
{
    let m = pairs_map(s);
    let rp = s[0].0.take(depth as int);
    let last = s.last().0;
    let l = lcp(s[0].0, last);
    lemma_pairs_map(s);
    lemma_lcp(s[0].0, last);
    assert(agree(s[0].0, s[s.len() - 1].0, depth));
    lemma_lcp_at_least(s[0].0, last, depth);
    assert(has_prefix(m, rp)) by {
        assert(m.contains_key(s[0].0));
        assert(rp =~= s[0].0.subrange(0, depth as int));
    }
    assert(block_ok(s, l)) by {
        assert forall|i: int| 0 <= i < s.len() implies is_nibbles((#[trigger] s[i]).0) && agree(
            s[0].0,
            s[i].0,
            l,
        ) by {
            if i > 0 {
                assert(lex_lt(s[0].0, s[i].0));
            }
            if i < s.len() - 1 {
                assert(lex_lt(s[i].0, s[s.len() - 1].0));
            }
            lemma_lex_between(s[0].0, s[i].0, last, l);
        }
    }
    let p = s[0].0.take(l as int);
    assert(common_path(m, rp, p)) by {
        assert(rp =~= p.subrange(0, depth as int));
        assert forall|k: Seq<u8>| #[trigger] m.contains_key(k) && rp.is_prefix_of(k) implies
            p.is_prefix_of(k) by {
            let i = choose|i: int| 0 <= i < s.len() && (#[trigger] s[i]).0 == k;
            assert(agree(s[0].0, s[i].0, l));
            assert(p =~= k.subrange(0, l as int));
        }
    }
    assert forall|q: Seq<u8>| #[trigger] common_path(m, rp, q) implies q.len() <= p.len() by {
        assert(m.contains_key(s[0].0) && m.contains_key(s[s.len() - 1].0));
        assert(rp.is_prefix_of(s[0].0)) by {
            assert(rp =~= s[0].0.subrange(0, depth as int));
        }
        assert(rp.is_prefix_of(last)) by {
            assert(rp =~= last.subrange(0, depth as int));
        }
        lemma_agree_prefix(q, s[0].0);
        lemma_agree_prefix(q, last);
        assert(agree(s[0].0, last, q.len()));
        lemma_lcp_at_least(s[0].0, last, q.len());
    }
    lemma_node_path_unique(m, rp, p);
}

/// `r` is a run of entries that continue with one nibble at `depth`.
pub open spec fn range_ok(s: Seq<(Seq<u8>, Seq<u8>)>, depth: nat, r: (usize, usize, usize)) -> bool {
    &&& r.0 < 16
    &&& r.1 < r.2 <= s.len()
    &&& forall|i: int|
        r.1 <= i < r.2 ==> (#[trigger] s[i]).0.len() > depth && s[i].0[depth as int] == r.0
}

/// `ranges` splits the first `n` entries that go on beyond `depth` by their next nibble.
pub open spec fn ranges_ok(
    s: Seq<(Seq<u8>, Seq<u8>)>,
    depth: nat,
    ranges: Seq<(usize, usize, usize)>,
    n: int,
) -> bool {
    &&& forall|j: int| 0 <= j < ranges.len() ==> range_ok(s, depth, #[trigger] ranges[j])
    &&& forall|j: int, k: int|
        #![trigger ranges[j], ranges[k]]
        0 <= j < k < ranges.len() ==> ranges[j].0 < ranges[k].0
    &&& forall|j: int| 0 <= j < ranges.len() ==> (#[trigger] ranges[j]).2 <= n
    &&& forall|i: int|
        0 <= i < n && (#[trigger] s[i]).0.len() > depth ==> exists|j: int|
            0 <= j < ranges.len() && (#[trigger] ranges[j]).1 <= i < ranges[j].2
}

proof fn lemma_sorted_step(a: Seq<u8>, b: Seq<u8>, depth: nat)
    requires
        lex_lt(a, b),
        agree(a, b, depth),
    ensures
        b.len() > depth,
        a.len() > depth ==> a[depth as int] <= b[depth as int],
{
    lemma_lcp(a, b);
    lemma_lcp_at_least(a, b, depth);
}

/// Splits a block by the nibble at `node_depth`: (nibble, start, end) for each run.
pub(crate) fn child_ranges(entries: &[EntryRef<'_>], node_depth: usize) -> (ranges: Vec<
    (usize, usize, usize),
>)
    requires
        block_ok(entry_pairs(entries@), node_depth as nat),
    ensures
        ranges_ok(
            entry_pairs(entries@),
            node_depth as nat,
            ranges@,
            entries@.len() as int,
        ),
{
    let ghost s = entry_pairs(entries@);
    let ghost d = node_depth as nat;
    let mut ranges: Vec<(usize, usize, usize)> = Vec::new();
    let mut idx: usize = 0;
    while idx < entries.len()
        invariant
            s == entry_pairs(entries@),
            d == node_depth,
            block_ok(s, d),
            idx <= entries.len(),
            ranges_ok(s, d, ranges@, idx as int),
            ranges@.len() > 0 && idx < entries.len() ==> {
                &&& s[idx as int].0.len() > d
                &&& s[idx as int].0[d as int] > ranges@.last().0
            },
        decreases entries.len() - idx,
    {
        proof {
            assert(s[idx as int].0 == entries@[idx as int].key@);
            assert(is_nibbles(s[idx as int].0) && agree(s[0].0, s[idx as int].0, d));
        }
        if entries[idx].key.len() == node_depth {
            idx += 1;
            continue;
        }
        let child: usize = entries[idx].key[node_depth] as usize;
        let start: usize = idx;
        let ghost before = ranges@;
        idx += 1;
        while idx < entries.len() && entries[idx].key.len() > node_depth
            && entries[idx].key[node_depth] as usize == child
            invariant
                s == entry_pairs(entries@),
                d == node_depth,
                block_ok(s, d),
                start < idx <= entries.len(),
                child < 16,
                forall|i: int|
                    start <= i < idx ==> (#[trigger] s[i]).0.len() > d && s[i].0[d as int] == child,
            decreases entries.len() - idx,
        {
            proof {
                assert(s[idx as int].0 == entries@[idx as int].key@);
            }
            idx += 1;
        }
        ranges.push((child, start, idx));
        proof {
            let r = (child, start, idx);
            assert forall|j: int| 0 <= j < ranges@.len() implies range_ok(
                s,
                d,
                #[trigger] ranges@[j],
            ) by {
                if j < before.len() {
                    assert(ranges@[j] == before[j]);
                }
            }
            assert forall|j: int, k: int| 0 <= j < k < ranges@.len() implies ranges@[j].0
                < ranges@[k].0 by {
                if k < before.len() {
                    assert(before[j].0 < before[k].0);
                } else {
                    assert(before[j].0 <= before.last().0) by {
                        if j < before.len() - 1 {
                            assert(before[j].0 < before[before.len() - 1].0);
                        }
                    }
                }
            }
            assert forall|i: int| 0 <= i < idx && (#[trigger] s[i]).0.len() > d implies exists|j: int|
                0 <= j < ranges@.len() && (#[trigger] ranges@[j]).1 <= i < ranges@[j].2 by {
                if i < start {
                    let j = choose|j: int|
                        0 <= j < before.len() && (#[trigger] before[j]).1 <= i < before[j].2;
                    assert(ranges@[j] == before[j]);
                } else {
                    assert(ranges@[ranges@.len() - 1] == r);
                }
            }
            if idx < entries.len() {
                let a = s[start as int].0;
                let b = s[idx as int].0;
                assert(b == entries@[idx as int].key@);
                assert(agree(s[0].0, s[start as int].0, d) && agree(s[0].0, s[idx as int].0, d));
                assert(agree(a, b, d)) by {
                    assert forall|i: int| 0 <= i < d implies a[i] == b[i] by {
                        assert(s[0].0[i] == a[i]);
                        assert(s[0].0[i] == b[i]);
                    }
                }
                lemma_sorted_step(a, b, d);
            }
        }
    }
    ranges
}

/// A run that takes in every entry with its nibble is the block of that child.
pub proof fn lemma_child_block(
    s: Seq<(Seq<u8>, Seq<u8>)>,
    depth: nat,
    ranges: Seq<(usize, usize, usize)>,
    j: int,
)
    requires
        block_ok(s, depth),
        ranges_ok(s, depth, ranges, s.len() as int),
        0 <= j < ranges.len(),
    ensures
        ({
            let r = ranges[j];
            let t = s.subrange(r.1 as int, r.2 as int);
            let child = s[0].0.take(depth as int).push(r.0 as u8);
            &&& block_ok(t, depth + 1)
            &&& t[0].0.take(depth as int + 1) == child
            &&& longest(t) <= longest(s)
            &&& depth + 1 <= longest(t)
            &&& has_prefix(pairs_map(s), child)
            &&& same_under(pairs_map(t), pairs_map(s), child)
            &&& subtree_hash(pairs_map(t), child, true) == slot_hash(
                pairs_map(s),
                s[0].0.take(depth as int),
                r.0 as int,
            )
        }),
{
    let r = ranges[j];
    let full = s[0].0.take(depth as int);
    let child = full.push(r.0 as u8);
    let t = s.subrange(r.1 as int, r.2 as int);
    assert(range_ok(s, depth, ranges[j]));
    assert(keys_sorted(t)) by {
        assert forall|a: int, b: int| 0 <= a < b < t.len() implies lex_lt(t[a].0, t[b].0) by {
            assert(t[a] == s[r.1 + a] && t[b] == s[r.1 + b]);
        }
    }
    assert forall|i: int| 0 <= i < t.len() implies is_nibbles((#[trigger] t[i]).0) && agree(
        t[0].0,
        t[i].0,
        depth + 1,
    ) && child.is_prefix_of(t[i].0) by {
        assert(t[i] == s[r.1 + i]);
        assert(t[0] == s[r.1 as int]);
        assert(agree(s[0].0, s[r.1 + i].0, depth));
        assert(agree(s[0].0, s[r.1 as int].0, depth));
        assert(s[r.1 + i].0[depth as int] == r.0 && s[r.1 as int].0[depth as int] == r.0);
        assert forall|x: int| 0 <= x < depth + 1 implies t[0].0[x] == t[i].0[x] by {
            if x < depth {
                assert(s[0].0[x] == t[0].0[x]);
                assert(s[0].0[x] == t[i].0[x]);
            }
        }
        assert(child =~= t[i].0.subrange(0, depth as int + 1)) by {
            assert forall|x: int| 0 <= x < depth implies child[x] == t[i].0[x] by {
                assert(s[0].0[x] == t[i].0[x]);
            }
        }
    }
    assert(t[0].0.take(depth as int + 1) =~= child);
    lemma_longest_subrange(s, r.1 as int, r.2 as int);
    lemma_longest(t);
    assert(t[0].0.len() >= depth + 1);
    lemma_pairs_map(s);
    lemma_pairs_map(t);
    let ms = pairs_map(s);
    let mt = pairs_map(t);
    assert forall|k: Seq<u8>| child.is_prefix_of(k) implies (#[trigger] mt.contains_key(k)
        <==> ms.contains_key(k)) && (mt.contains_key(k) ==> mt[k] == ms[k]) by {
        if mt.contains_key(k) {
            let i = choose|i: int| 0 <= i < t.len() && (#[trigger] t[i]).0 == k;
            assert(t[i] == s[r.1 + i]);
            assert(ms.contains_key(s[r.1 + i].0) && ms[s[r.1 + i].0] == s[r.1 + i].1);
            assert(mt[t[i].0] == t[i].1);
        }
        if ms.contains_key(k) {
            let i = choose|i: int| 0 <= i < s.len() && (#[trigger] s[i]).0 == k;
            assert(k.subrange(0, depth as int + 1)[depth as int] == child[depth as int]);
            assert(s[i].0.len() > depth && s[i].0[depth as int] == r.0);
            let q = choose|q: int| 0 <= q < ranges.len() && (#[trigger] ranges[q]).1 <= i < ranges[q].2;
            assert(range_ok(s, depth, ranges[q]));
            assert(ranges[q].0 == r.0);
            if q < j {
                assert(ranges[q].0 < ranges[j].0);
            }
            if j < q {
                assert(ranges[j].0 < ranges[q].0);
            }
            assert(t[i - r.1] == s[i]);
            assert(mt.contains_key(t[i - r.1].0));
        }
    }
    assert(has_prefix(mt, child)) by {
        assert(mt.contains_key(t[0].0));
        assert(child.is_prefix_of(t[0].0));
    }
    lemma_subtree_local(mt, ms, child, true);
}

/// A nibble without a run has an empty slot.
pub proof fn lemma_empty_slot(
    s: Seq<(Seq<u8>, Seq<u8>)>,
    depth: nat,
    ranges: Seq<(usize, usize, usize)>,
    c: int,
)
    requires
        block_ok(s, depth),
        ranges_ok(s, depth, ranges, s.len() as int),
        0 <= c < 16,
        forall|j: int| 0 <= j < ranges.len() ==> (#[trigger] ranges[j]).0 != c,
    ensures
        slot_hash(pairs_map(s), s[0].0.take(depth as int), c) == null_hash(),
{
    lemma_pairs_map(s);
    let full = s[0].0.take(depth as int);
    let child = full.push(c as u8);
    if has_prefix(pairs_map(s), child) {
        let k = choose|k: Seq<u8>| #[trigger] pairs_map(s).contains_key(k) && child.is_prefix_of(k);
        let i = choose|i: int| 0 <= i < s.len() && (#[trigger] s[i]).0 == k;
        assert(k.subrange(0, depth as int + 1)[depth as int] == child[depth as int]);
        let q = choose|q: int| 0 <= q < ranges.len() && (#[trigger] ranges[q]).1 <= i < ranges[q].2;
        assert(range_ok(s, depth, ranges[q]));
        assert(s[i].0[depth as int] == ranges[q].0);
        assert(false);
    }
}

/// The value that ends at the node of a block, which only its first key can be.
pub proof fn lemma_block_value(s: Seq<(Seq<u8>, Seq<u8>)>, depth: nat)
    requires
        block_ok(s, depth),
    ensures
        value_of(pairs_map(s), s[0].0.take(depth as int)) == (if s[0].0.len() == depth {
            Some(s[0].1)
        } else {
            None
        }),
{
    lemma_pairs_map(s);
    let full = s[0].0.take(depth as int);
    if s[0].0.len() == depth {
        assert(full =~= s[0].0);
    } else if pairs_map(s).contains_key(full) {
        let i = choose|i: int| 0 <= i < s.len() && (#[trigger] s[i]).0 == full;
        if i > 0 {
            assert(lex_lt(s[0].0, s[i].0));
            lemma_sorted_step(s[0].0, s[i].0, depth);
        }
    }
}

/// The sixteen child slots of a node: the given hashes, and empty slots elsewhere.
pub(crate) fn fill_slots(child_hashes: &Vec<(usize, H256)>) -> (children: [H256; 16])
    requires
        forall|j: int| 0 <= j < child_hashes@.len() ==> (#[trigger] child_hashes@[j]).0 < 16,
        forall|j: int, k: int|
            #![trigger child_hashes@[j], child_hashes@[k]]
            0 <= j < k < child_hashes@.len() ==> child_hashes@[j].0 < child_hashes@[k].0,
    ensures
        forall|j: int|
            0 <= j < child_hashes@.len() ==> children@[(#[trigger] child_hashes@[j]).0 as int]
                == child_hashes@[j].1,
        forall|c: int|
            0 <= c < 16 && (forall|j: int|
                0 <= j < child_hashes@.len() ==> (#[trigger] child_hashes@[j]).0 != c) ==> (
            #[trigger] children@[c])@ == null_hash(),
{
    let mut children: [H256; 16] = null_slots();
    let mut n: usize = 0;
    while n < child_hashes.len()
        invariant
            n <= child_hashes.len(),
            forall|j: int| 0 <= j < child_hashes@.len() ==> (#[trigger] child_hashes@[j]).0 < 16,
            forall|j: int, k: int|
                #![trigger child_hashes@[j], child_hashes@[k]]
                0 <= j < k < child_hashes@.len() ==> child_hashes@[j].0 < child_hashes@[k].0,
            forall|j: int|
                0 <= j < n ==> children@[(#[trigger] child_hashes@[j]).0 as int]
                    == child_hashes@[j].1,
            forall|c: int|
                0 <= c < 16 && (forall|j: int|
                    0 <= j < n ==> (#[trigger] child_hashes@[j]).0 != c) ==> (
                #[trigger] children@[c])@ == null_hash(),
        decreases child_hashes.len() - n,
    {
        let slot: usize = child_hashes[n].0;
        let hash: H256 = child_hashes[n].1;
        let ghost before = children@;
        children[slot] = hash;
        proof {
            assert(children@ =~= before.update(slot as int, hash));
            assert forall|j: int| 0 <= j < n + 1 implies children@[(
            #[trigger] child_hashes@[j]).0 as int] == child_hashes@[j].1 by {
                if j < n {
                    assert(child_hashes@[j].0 < child_hashes@[n as int].0);
                }
            }
            assert forall|c: int|
                0 <= c < 16 && (forall|j: int|
                    0 <= j < n + 1 ==> (#[trigger] child_hashes@[j]).0 != c) implies (
            #[trigger] children@[c])@ == null_hash() by {
                assert(child_hashes@[n as int].0 != c);
                assert(before[c] == children@[c]);
                assert forall|j: int| 0 <= j < n implies (#[trigger] child_hashes@[j]).0 != c by {}
            }
        }
        n += 1;
    }
    children
}

/// `child_hashes` holds, range by range, the hashes of the children of a block.
pub open spec fn child_hashes_ok(
    s: Seq<(Seq<u8>, Seq<u8>)>,
    depth: nat,
    ranges: Seq<(usize, usize, usize)>,
    child_hashes: Seq<(usize, H256)>,
) -> bool {
    &&& child_hashes.len() == ranges.len()
    &&& forall|j: int|
        0 <= j < ranges.len() ==> (#[trigger] child_hashes[j]).0 == ranges[j].0
            && child_hashes[j].1@ == slot_hash(
            pairs_map(s),
            s[0].0.take(depth as int),
            ranges[j].0 as int,
        )
}

/// The child slots of the node of a block.
pub(crate) fn block_slots(
    Ghost(s): Ghost<Seq<(Seq<u8>, Seq<u8>)>>,
    Ghost(depth): Ghost<nat>,
    ranges: &Vec<(usize, usize, usize)>,
    child_hashes: &Vec<(usize, H256)>,
) -> (children: [H256; 16])
    requires
        block_ok(s, depth),
        ranges_ok(s, depth, ranges@, s.len() as int),
        child_hashes_ok(s, depth, ranges@, child_hashes@),
    ensures
        hash_bytes(children@) == Seq::new(
            16,
            |c: int| slot_hash(pairs_map(s), s[0].0.take(depth as int), c),
        ),
{
    let ghost full = s[0].0.take(depth as int);
    proof {
        assert forall|j: int| 0 <= j < child_hashes@.len() implies (
        #[trigger] child_hashes@[j]).0 < 16 by {
            assert(range_ok(s, depth, ranges@[j]));
        }
        assert forall|j: int, k: int| 0 <= j < k < child_hashes@.len() implies child_hashes@[j].0
            < child_hashes@[k].0 by {
            assert(ranges@[j].0 < ranges@[k].0);
        }
    }
    let children = fill_slots(child_hashes);
    proof {
        let want = Seq::new(16, |c: int| slot_hash(pairs_map(s), full, c));
        assert forall|c: int| 0 <= c < 16 implies #[trigger] hash_bytes(children@)[c] == want[c] by {
            if exists|j: int| 0 <= j < ranges@.len() && (#[trigger] ranges@[j]).0 == c {
                let j = choose|j: int| 0 <= j < ranges@.len() && (#[trigger] ranges@[j]).0 == c;
                assert(child_hashes@[j].0 == c);
            } else {
                lemma_empty_slot(s, depth, ranges@, c);
                assert forall|j: int| 0 <= j < child_hashes@.len() implies (
                #[trigger] child_hashes@[j]).0 != c by {
                    assert(ranges@[j].0 != c);
                }
                assert(children@[c]@ == null_hash());
            }
        }
        assert(hash_bytes(children@) =~= want);
    }
    children
}

/// Whether some slot is not empty.
pub(crate) fn any_child(children: &[H256; 16]) -> (r: bool)
    ensures
        r == (hash_bytes(children@) != crate::trie::empty_slots()),
{
    let null = H256(MERKLE_NULL_NODE);
    let mut c: usize = 0;
    while c < 16
        invariant
            c <= 16,
            null@ == null_hash(),
            forall|i: int| 0 <= i < c ==> (#[trigger] children@[i])@ == null_hash(),
        decreases 16 - c,
    {
        if children[c] != null {
            proof {
                if children@[c as int]@ == null@ {
                    assert(children@[c as int].0 =~= null.0);
                }
                assert(hash_bytes(children@)[c as int] != crate::trie::empty_slots()[c as int]);
            }
            return true;
        }
        c += 1;
    }
    proof {
        assert(hash_bytes(children@) =~= crate::trie::empty_slots());
    }
    false
}

} // verus!
