//! Incremental trie root.
//!
//! [`IncrementalTrie`] hashes exactly as [`crate::trie::trie_root`] does, but
//! keeps the hash of every subtree it has visited, by the subtree's routing
//! prefix. A change of a key makes every prefix of that key stale; those are
//! evicted when the next root is asked for, and only they are hashed again.
use crate::block::{any_child, block_ok, block_slots, child_ranges, entry_pairs, lemma_block_path, lemma_block_value, lemma_child_block, lemma_longest, lemma_longest_subrange, longest, range_ok, ranges_ok, EntryRef};
use crate::bytemap::{has_key, keys_sorted, lemma_pairs_map, pairs_map, ByteMap};
use crate::bytes::{agree, bytes_eq, common_len, lcp, lemma_agree_prefix, lemma_lcp, lemma_lcp_unique, lemma_lex_irreflexive, lemma_lex_lt_intro, lex_lt, to_boxed, to_vec};
use crate::cache::{cache_clear, cache_get, cache_insert, cache_is_empty, cache_new, cache_remove, cached, Cache};
use crate::parallel::par_map;
use crate::trie::{bytes_to_nibbles, compute_node_merkle, compute_path_merkle, from_nibbles, full_path, has_prefix, hash_bytes, is_nibbles, layer_root, lemma_nibbles, lemma_nibbles_lex_back, lemma_nibbles_prefix, lemma_prefix_trans, lemma_full_path_local, lemma_same_under_narrow, lemma_subtree_local, lemma_subtree_unfold, merkle_bytes, nibble_map, nibbles, nibbles_to_bytes, null_hash, null_slots, same_under, slot_hash, subtree_hash, MptValue};
use crate::types::{H256, MERKLE_NULL_NODE};
use vstd::prelude::*;

verus! {

/// A cold cache over this many entries or more is rebuilt in parallel.
const PARALLEL_REBUILD_THRESHOLD: usize = 4096;

/// How many levels below the root may fan out in parallel.
const PARALLEL_REBUILD_DEPTH: usize = 3;

/// Which subtree hashes are kept after a root walk: all of them, or all but
/// those of subtrees with a single key.
#[derive(Clone, Copy, Debug, PartialEq, Eq, Structural)]
pub enum CachePolicy {
    Full,
    SkipSingleton,
}

/// The records of a nibble-keyed layer as the bytes they contribute.
pub open spec fn merkled(m: Map<Seq<u8>, Option<Seq<u8>>>) -> Map<Seq<u8>, Seq<u8>> {
    Map::new(|k: Seq<u8>| m.contains_key(k), |k: Seq<u8>| merkle_bytes(m[k]))
}

/// Every key is the nibble form of a byte string.
pub open spec fn nibble_keyed(m: Map<Seq<u8>, Option<Seq<u8>>>) -> bool {
    forall|k: Seq<u8>| #[trigger] m.contains_key(k) ==> k == nibbles(from_nibbles(k))
}

/// `hash` is the hash of the subtree at `p`, which is not empty.
pub open spec fn hash_valid(m: Map<Seq<u8>, Seq<u8>>, p: Seq<u8>, hash: Seq<u8>) -> bool {
    has_prefix(m, p) && hash == subtree_hash(m, p, p.len() > 0)
}

/// Every cached hash is that of its subtree.
pub open spec fn cache_valid(m: Map<Seq<u8>, Seq<u8>>, c: Map<Seq<u8>, Seq<u8>>) -> bool {
    forall|p: Seq<u8>| #[trigger] c.contains_key(p) ==> hash_valid(m, p, c[p])
}

/// Some changed key starts with `p`.
pub open spec fn touched(dirty: Map<Seq<u8>, ()>, p: Seq<u8>) -> bool {
    exists|d: Seq<u8>| #[trigger] dirty.contains_key(d) && p.is_prefix_of(d)
}

/// Every cached hash is that of its subtree, unless a key below it has changed.
pub open spec fn cache_valid_but(
    m: Map<Seq<u8>, Seq<u8>>,
    c: Map<Seq<u8>, Seq<u8>>,
    dirty: Map<Seq<u8>, ()>,
) -> bool {
    forall|p: Seq<u8>| #[trigger]
        c.contains_key(p) && !touched(dirty, p) ==> hash_valid(m, p, c[p])
}

/// A layer's trie with the hashes of the subtrees that have not changed.
#[derive(Debug)]
pub struct IncrementalTrie {
    /// Records by nibble key.
    entries: ByteMap<MptValue>,
    /// Subtree hashes by routing prefix.
    cache: Cache,
    /// Nibble keys changed since the last root.
    dirty: ByteMap<()>,
}

impl View for IncrementalTrie {
    type V = Map<Seq<u8>, Option<Seq<u8>>>;

    closed spec fn view(&self) -> Map<Seq<u8>, Option<Seq<u8>>> {
        Map::new(
            |k: Seq<u8>| self.entries@.contains_key(nibbles(k)),
            |k: Seq<u8>| self.entries@[nibbles(k)],
        )
    }
}

/// `p` followed by a value above every nibble.
fn prefix_upper(p: &[u8]) -> (upper: Vec<u8>)
    ensures
        upper@ == p@.push(16u8),
{
    let mut upper: Vec<u8> = to_vec(p);
    upper.push(16);
    upper
}

proof fn lemma_prefix_upper(p: Seq<u8>, k: Seq<u8>)
    requires
        is_nibbles(k),
    ensures
        p.is_prefix_of(k) <==> !lex_lt(k, p) && lex_lt(k, p.push(16u8)),
{
    let u = p.push(16u8);
    lemma_agree_prefix(p, k);
    if p.is_prefix_of(k) {
        lemma_lcp_unique(k, p, p.len());
        assert(agree(k, u, p.len()));
        lemma_lex_lt_intro(k, u, p.len());
    } else if lex_lt(k, u) {
        lemma_lcp(k, u);
        let l = lcp(k, u);
        if l >= p.len() {
            assert(agree(p, k, p.len()));
        } else {
            assert(u[l as int] == p[l as int]);
            assert(agree(k, p, l));
            lemma_lex_lt_intro(k, p, l);
        }
    }
}

/// The positions of the keys that start with `p`.
fn prefix_range(entries: &ByteMap<MptValue>, p: &[u8]) -> (r: (usize, usize))
    requires
        entries.wf(),
        nibble_keyed(entries@),
    ensures
        r.0 <= r.1 <= entries.pairs().len(),
        forall|i: int|
            0 <= i < entries.pairs().len() ==> (r.0 <= i < r.1 <==> p@.is_prefix_of(
                (#[trigger] entries.pairs()[i]).0,
            )),
{
    let lo: usize = entries.lower_bound(p);
    let upper = prefix_upper(p);
    let hi: usize = entries.lower_bound(upper.as_slice());
    proof {
        entries.lemma_view();
        let s = entries.pairs();
        assert forall|i: int| 0 <= i < s.len() implies (lo <= i < hi <==> p@.is_prefix_of(
            (#[trigger] s[i]).0,
        )) by {
            lemma_nibbles(from_nibbles(s[i].0));
            lemma_prefix_upper(p@, s[i].0);
        }
        if hi < lo {
            lemma_nibbles(from_nibbles(s[hi as int].0));
            lemma_prefix_upper(p@, s[hi as int].0);
            assert(lex_lt(s[hi as int].0, p@));
            assert(!lex_lt(s[hi as int].0, p@.push(16u8)));
            assert(lex_lt(p@, p@.push(16u8))) by {
                lemma_lex_lt_intro(p@, p@.push(16u8), p@.len());
            }
            crate::bytes::lemma_lex_trans(s[hi as int].0, p@, p@.push(16u8));
        }
    }
    (lo, hi)
}

/// The records as pairs of nibble key and contributed bytes.
spec fn merkled_pairs(s: Seq<(Seq<u8>, Option<Seq<u8>>)>) -> Seq<(Seq<u8>, Seq<u8>)> {
    Seq::new(s.len(), |i: int| (s[i].0, merkle_bytes(s[i].1)))
}

proof fn lemma_merkled_pairs(s: Seq<(Seq<u8>, Option<Seq<u8>>)>)
    requires
        keys_sorted(s),
    ensures
        keys_sorted(merkled_pairs(s)),
        pairs_map(merkled_pairs(s)) == merkled(pairs_map(s)),
        merkled(pairs_map(s)).dom().finite(),
{
    let t = merkled_pairs(s);
    assert forall|i: int, j: int| 0 <= i < j < t.len() implies lex_lt(t[i].0, t[j].0) by {
        assert(lex_lt(s[i].0, s[j].0));
    }
    lemma_pairs_map(s);
    lemma_pairs_map(t);
    let m = merkled(pairs_map(s));
    assert forall|n: Seq<u8>| pairs_map(t).contains_key(n) == m.contains_key(n) by {
        if pairs_map(t).contains_key(n) {
            let i = choose|i: int| 0 <= i < t.len() && (#[trigger] t[i]).0 == n;
            assert(s[i].0 == n);
        }
        if m.contains_key(n) {
            let i = choose|i: int| 0 <= i < s.len() && (#[trigger] s[i]).0 == n;
            assert(t[i].0 == n);
        }
    }
    assert forall|n: Seq<u8>| #[trigger] pairs_map(t).contains_key(n) implies pairs_map(t)[n]
        == m[n] by {
        let i = choose|i: int| 0 <= i < t.len() && (#[trigger] t[i]).0 == n;
        assert(pairs_map(t)[t[i].0] == t[i].1);
        assert(pairs_map(s)[s[i].0] == s[i].1);
    }
    assert(pairs_map(t) =~= m);
}

/// The run of entries under a prefix is a block that stands for all that lies there.
proof fn lemma_prefix_block(s: Seq<(Seq<u8>, Option<Seq<u8>>)>, rp: Seq<u8>, lo: int, hi: int)
    requires
        keys_sorted(s),
        nibble_keyed(pairs_map(s)),
        has_prefix(merkled(pairs_map(s)), rp),
        0 <= lo <= hi <= s.len(),
        forall|i: int|
            0 <= i < s.len() ==> (lo <= i < hi <==> rp.is_prefix_of((#[trigger] s[i]).0)),
    ensures
        lo < hi,
        ({
            let t = merkled_pairs(s).subrange(lo, hi);
            &&& block_ok(t, rp.len())
            &&& t[0].0 == s[lo].0
            &&& t.last().0 == s[hi - 1].0
            &&& t[0].0.take(rp.len() as int) == rp
            &&& same_under(pairs_map(t), merkled(pairs_map(s)), rp)
            &&& longest(t) <= longest(merkled_pairs(s))
        }),
{
    let m = merkled(pairs_map(s));
    lemma_pairs_map(s);
    let k = choose|k: Seq<u8>| #[trigger] m.contains_key(k) && rp.is_prefix_of(k);
    assert(pairs_map(s).contains_key(k));
    let i0 = choose|i: int| 0 <= i < s.len() && (#[trigger] s[i]).0 == k;
    assert(lo <= i0 < hi);
    let full = merkled_pairs(s);
    lemma_merkled_pairs(s);
    let t = full.subrange(lo, hi);
    assert(keys_sorted(t)) by {
        assert forall|a: int, b: int| 0 <= a < b < t.len() implies lex_lt(t[a].0, t[b].0) by {
            assert(t[a] == full[lo + a] && t[b] == full[lo + b]);
        }
    }
    assert forall|i: int| 0 <= i < t.len() implies is_nibbles((#[trigger] t[i]).0) && agree(
        t[0].0,
        t[i].0,
        rp.len(),
    ) by {
        assert(t[i].0 == s[lo + i].0 && t[0].0 == s[lo].0);
        lemma_nibbles(from_nibbles(s[lo + i].0));
        lemma_agree_prefix(rp, s[lo + i].0);
        lemma_agree_prefix(rp, s[lo].0);
        assert forall|x: int| 0 <= x < rp.len() implies t[0].0[x] == t[i].0[x] by {
            assert(rp[x] == s[lo].0[x]);
            assert(rp[x] == s[lo + i].0[x]);
        }
    }
    lemma_agree_prefix(rp, s[lo].0);
    assert(t[0].0.take(rp.len() as int) =~= rp);
    lemma_longest_subrange(full, lo, hi);
    lemma_pairs_map(t);
    let mt = pairs_map(t);
    assert forall|k: Seq<u8>| rp.is_prefix_of(k) implies (#[trigger] mt.contains_key(k)
        <==> m.contains_key(k)) && (mt.contains_key(k) ==> mt[k] == m[k]) by {
        if mt.contains_key(k) {
            let i = choose|i: int| 0 <= i < t.len() && (#[trigger] t[i]).0 == k;
            assert(t[i].0 == s[lo + i].0);
            assert(pairs_map(s)[s[lo + i].0] == s[lo + i].1);
            assert(mt[t[i].0] == t[i].1);
        }
        if m.contains_key(k) {
            let i = choose|i: int| 0 <= i < s.len() && (#[trigger] s[i]).0 == k;
            assert(lo <= i < hi);
            assert(t[i - lo].0 == s[i].0);
            assert(mt.contains_key(t[i - lo].0));
        }
    }
}

/// The hash of the node at `rp`, from the cache where it holds the subtree.
fn memo_node(
    entries: &ByteMap<MptValue>,
    rp: &[u8],
    allow_path_compression: bool,
    cache: &mut Cache,
    cache_policy: CachePolicy,
) -> (r: H256)
    requires
        entries.wf(),
        nibble_keyed(entries@),
        has_prefix(merkled(entries@), rp@),
        allow_path_compression == (rp@.len() > 0),
        cache_valid(merkled(entries@), cached(*old(cache))),
    ensures
        r@ == subtree_hash(merkled(entries@), rp@, allow_path_compression),
        cache_valid(merkled(entries@), cached(*final(cache))),
    decreases longest(merkled_pairs(entries.pairs())) + 1 - rp@.len(),
{
    match cache_get(cache, rp) {
        Some(hash) => {
            return hash;
        },
        None => {},
    }
    let depth: usize = rp.len();
    let ghost m = merkled(entries@);
    let ghost s = entries.pairs();
    let (lo, hi): (usize, usize) = prefix_range(entries, rp);
    let ghost t = merkled_pairs(s).subrange(lo as int, hi as int);
    proof {
        entries.lemma_view();
        lemma_merkled_pairs(s);
        lemma_prefix_block(s, rp@, lo as int, hi as int);
        lemma_block_path(t, depth as nat);
        lemma_longest(t);
        assert(t[0].0.len() <= longest(t));
        lemma_full_path_local(pairs_map(t), m, rp@, allow_path_compression);
        lemma_subtree_unfold(m, rp@, allow_path_compression);
    }
    let first_key: &Vec<u8> = entries.key_at(lo);
    let last_key: &Vec<u8> = if allow_path_compression || cache_policy
        == CachePolicy::SkipSingleton {
        entries.key_at(hi - 1)
    } else {
        first_key
    };
    let is_singleton: bool = bytes_eq(first_key.as_slice(), last_key.as_slice());
    let node_depth: usize = if allow_path_compression {
        common_len(first_key.as_slice(), last_key.as_slice())
    } else {
        depth
    };
    let full_prefix: &[u8] = &first_key[0..node_depth];
    let ghost full = full_path(m, rp@, allow_path_compression);
    proof {
        assert(full_prefix@ =~= first_key@.take(node_depth as int));
        assert(full_prefix@ == full);
    }
    let maybe_value: Option<&[u8]> = match entries.get(full_prefix) {
        Some(v) => Some(v.merkle_value()),
        None => None,
    };
    let mut children: [H256; 16] = null_slots();
    let mut c: usize = 0;
    while c < 16
        invariant
            c <= 16,
            entries.wf(),
            nibble_keyed(entries@),
            m == merkled(entries@),
            m.dom().finite(),
            s == entries.pairs(),
            full == full_prefix@,
            full.len() >= rp@.len(),
            full.len() <= longest(merkled_pairs(s)),
            cache_valid(m, cached(*cache)),
            forall|j: int| 0 <= j < c ==> (#[trigger] children@[j])@ == slot_hash(m, full, j),
            forall|j: int| c <= j < 16 ==> (#[trigger] children@[j])@ == null_hash(),
        decreases 16 - c,
    {
        let mut child_rp: Vec<u8> = to_vec(full_prefix);
        child_rp.push(c as u8);
        let ghost child = full.push(c as u8);
        let ghost before = children@;
        proof {
            assert(child_rp@ =~= child);
        }
        match cache_get(cache, child_rp.as_slice()) {
            Some(hash) => {
                children[c] = hash;
                proof {
                    assert(hash_valid(m, child, hash@));
                    assert(children@ =~= before.update(c as int, hash));
                }
            },
            None => {
                let (a, b): (usize, usize) = prefix_range(entries, child_rp.as_slice());
                if a < b {
                    proof {
                        entries.lemma_view();
                        assert(m.contains_key(s[a as int].0) && child.is_prefix_of(s[a as int].0));
                        lemma_longest(merkled_pairs(s));
                        assert(merkled_pairs(s)[a as int].0.len() <= longest(merkled_pairs(s)));
                    }
                    let hash = memo_node(entries, child_rp.as_slice(), true, cache, cache_policy);
                    children[c] = hash;
                    proof {
                        assert(children@ =~= before.update(c as int, hash));
                    }
                } else {
                    proof {
                        if has_prefix(m, child) {
                            entries.lemma_view();
                            let k = choose|k: Seq<u8>| #[trigger]
                                m.contains_key(k) && child.is_prefix_of(k);
                            assert(entries@.contains_key(k));
                            let i = choose|i: int| 0 <= i < s.len() && (#[trigger] s[i]).0 == k;
                            assert(a <= i < b);
                        }
                    }
                }
            },
        }
        c += 1;
    }
    let has_children: bool = any_child(&children);
    let node_hash = compute_node_merkle(
        if has_children {
            Some(&children)
        } else {
            None
        },
        maybe_value,
    );
    proof {
        assert(hash_bytes(children@) =~= Seq::new(16, |c: int| slot_hash(m, full, c)));
        assert(first_key@.subrange(depth as int, node_depth as int) =~= full.subrange(
            depth as int,
            full.len() as int,
        ));
        assert(is_nibbles(t[0].0));
    }
    let hash = compute_path_merkle(&first_key[depth..node_depth], depth, node_hash);
    if cache_policy == CachePolicy::Full || !is_singleton {
        cache_insert(cache, to_vec(rp), hash);
    }
    hash
}

/// A subtree hash with the routing prefix it is cached under.
pub open spec fn entries_valid(
    m: Map<Seq<u8>, Seq<u8>>,
    rp: Seq<u8>,
    cache_entries: Seq<(Vec<u8>, H256)>,
) -> bool {
    forall|i: int|
        0 <= i < cache_entries.len() ==> rp.is_prefix_of((#[trigger] cache_entries[i]).0@)
            && hash_valid(m, cache_entries[i].0@, cache_entries[i].1@)
}

/// Hashes valid in the block of a child are valid in the whole block.
proof fn lemma_entries_lift(
    s: Seq<(Seq<u8>, Seq<u8>)>,
    depth: nat,
    ranges: Seq<(usize, usize, usize)>,
    j: int,
    rp: Seq<u8>,
    cache_entries: Seq<(Vec<u8>, H256)>,
)
    requires
        block_ok(s, depth),
        ranges_ok(s, depth, ranges, s.len() as int),
        0 <= j < ranges.len(),
        rp.is_prefix_of(s[0].0.take(depth as int)),
        entries_valid(
            pairs_map(s.subrange(ranges[j].1 as int, ranges[j].2 as int)),
            s[0].0.take(depth as int).push(ranges[j].0 as u8),
            cache_entries,
        ),
    ensures
        entries_valid(pairs_map(s), rp, cache_entries),
{
    lemma_child_block(s, depth, ranges, j);
    let t = s.subrange(ranges[j].1 as int, ranges[j].2 as int);
    let full = s[0].0.take(depth as int);
    let child = full.push(ranges[j].0 as u8);
    lemma_pairs_map(s);
    lemma_pairs_map(t);
    assert(full.is_prefix_of(child)) by {
        assert(full =~= child.subrange(0, full.len() as int));
    }
    lemma_prefix_trans(rp, full, child);
    assert forall|i: int| 0 <= i < cache_entries.len() implies rp.is_prefix_of(
        (#[trigger] cache_entries[i]).0@,
    ) && hash_valid(pairs_map(s), cache_entries[i].0@, cache_entries[i].1@) by {
        let p = cache_entries[i].0@;
        lemma_prefix_trans(rp, child, p);
        lemma_same_under_narrow(pairs_map(t), pairs_map(s), child, p);
        lemma_subtree_local(pairs_map(t), pairs_map(s), p, p.len() > 0);
    }
}

/// What the rebuild of one run of a block gives: its slot, its hash, and the
/// subtree hashes to cache.
spec fn rebuilt_run(
    s: Seq<(Seq<u8>, Seq<u8>)>,
    depth: nat,
    range: (usize, usize, usize),
    out: (usize, H256, Vec<(Vec<u8>, H256)>),
) -> bool {
    let t = s.subrange(range.1 as int, range.2 as int);
    let child = t[0].0.take(depth as int + 1);
    &&& out.0 == range.0
    &&& out.1@ == subtree_hash(pairs_map(t), child, true)
    &&& entries_valid(pairs_map(t), child, out.2@)
}

/// The routing prefix of child `c` of the node at `full_prefix`.
fn child_prefix(full_prefix: &[u8], c: usize) -> (r: Vec<u8>)
    requires
        c < 16,
    ensures
        r@ == full_prefix@.push(c as u8),
{
    let mut child_rp: Vec<u8> = to_vec(full_prefix);
    child_rp.push(c as u8);
    child_rp
}

/// The hash of the node of a block at `rp`, with every subtree hash to cache.
fn memo_node_rebuild(
    entries: &[EntryRef<'_>],
    rp: &[u8],
    allow_path_compression: bool,
    cache_policy: CachePolicy,
    parallel_depth: usize,
) -> (r: (H256, Vec<(Vec<u8>, H256)>))
    requires
        block_ok(entry_pairs(entries@), rp@.len()),
        rp@ == entries@[0].key@.take(rp@.len() as int),
        allow_path_compression == (rp@.len() > 0),
    ensures
        r.0@ == subtree_hash(pairs_map(entry_pairs(entries@)), rp@, allow_path_compression),
        entries_valid(pairs_map(entry_pairs(entries@)), rp@, r.1@),
    decreases longest(entry_pairs(entries@)) + 1 - rp@.len(),
{
    let ghost s = entry_pairs(entries@);
    let depth: usize = rp.len();
    proof {
        lemma_block_path(s, depth as nat);
        assert(s[0].0 == entries@[0].key@);
        assert(s.last().0 == entries@[entries@.len() - 1].key@);
        lemma_longest(s);
        assert(s[0].0.len() <= longest(s));
    }
    let first_key: &[u8] = entries[0].key;
    let last_key: &[u8] = entries[entries.len() - 1].key;
    let is_singleton: bool = bytes_eq(first_key, last_key);
    let node_depth: usize = if allow_path_compression {
        common_len(first_key, last_key)
    } else {
        depth
    };
    let full_prefix: &[u8] = &first_key[0..node_depth];
    let ghost d = node_depth as nat;
    let ghost full = s[0].0.take(d as int);
    proof {
        assert(full_prefix@ =~= full);
        assert(rp@.is_prefix_of(full)) by {
            assert(rp@ =~= full.subrange(0, depth as int));
        }
    }
    let maybe_value: Option<&[u8]> = if first_key.len() == node_depth {
        Some(entries[0].value.merkle_value())
    } else {
        None
    };
    let ranges = child_ranges(entries, node_depth);
    let mut child_hashes: Vec<(usize, H256)> = Vec::new();
    let mut cache_entries: Vec<(Vec<u8>, H256)> = Vec::new();
    if parallel_depth > 0 && entries.len() >= PARALLEL_REBUILD_THRESHOLD && ranges.len() > 1 {
        let rebuild_run = |range: &(usize, usize, usize)| -> (out: (
            usize,
            H256,
            Vec<(Vec<u8>, H256)>,
        ))
            requires
                crate::trie::child_run(entry_pairs(entries@), node_depth as nat, *range),
                range.0 < 16,
                entries@[range.1 as int].key@.take(node_depth + 1) == full_prefix@.push(
                    range.0 as u8,
                ),
            ensures
                rebuilt_run(entry_pairs(entries@), node_depth as nat, *range, out),
            {
                let part: &[EntryRef<'_>] = &entries[range.1..range.2];
                let child_rp = child_prefix(full_prefix, range.0);
                proof {
                    assert(entry_pairs(part@) =~= entry_pairs(entries@).subrange(
                        range.1 as int,
                        range.2 as int,
                    ));
                    assert(entry_pairs(part@)[0].0 == part@[0].key@);
                    assert(part@[0].key@ == entries@[range.1 as int].key@);
                }
                let (hash, found): (H256, Vec<(Vec<u8>, H256)>) = memo_node_rebuild(
                    part,
                    child_rp.as_slice(),
                    true,
                    cache_policy,
                    parallel_depth - 1,
                );
                (range.0, hash, found)
            };
        proof {
            assert forall|j: int| 0 <= j < ranges@.len() implies call_requires(
                rebuild_run,
                (&#[trigger] ranges@[j],),
            ) by {
                lemma_child_block(s, d, ranges@, j);
                assert(range_ok(s, d, ranges@[j]));
                assert(s[ranges@[j].1 as int].0 == entries@[ranges@[j].1 as int].key@);
            }
        }
        let mut results: Vec<(usize, H256, Vec<(Vec<u8>, H256)>)> = par_map(&ranges, rebuild_run);
        let ghost all = results@;
        proof {
            assert forall|j: int| 0 <= j < ranges@.len() implies rebuilt_run(
                s,
                d,
                ranges@[j],
                #[trigger] all[j],
            ) by {
                assert(call_ensures(rebuild_run, (&ranges@[j],), all[j]));
            }
        }
        let mut j: usize = 0;
        while j < ranges.len()
            invariant
                j <= ranges.len(),
                block_ok(s, d),
                ranges_ok(s, d, ranges@, s.len() as int),
                full == s[0].0.take(d as int),
                rp@.is_prefix_of(full),
                all.len() == ranges@.len(),
                results@.len() == ranges@.len(),
                forall|i: int| j <= i < all.len() ==> #[trigger] results@[i] == all[i],
                forall|i: int|
                    0 <= i < all.len() ==> rebuilt_run(s, d, ranges@[i], #[trigger] all[i]),
                child_hashes@.len() == j,
                forall|i: int|
                    0 <= i < j ==> (#[trigger] child_hashes@[i]).0 == ranges@[i].0
                        && child_hashes@[i].1@ == slot_hash(
                        pairs_map(s),
                        full,
                        ranges@[i].0 as int,
                    ),
                entries_valid(pairs_map(s), rp@, cache_entries@),
            decreases ranges.len() - j,
        {
            let child: usize = results[j].0;
            let hash: H256 = results[j].1;
            proof {
                lemma_child_block(s, d, ranges@, j as int);
                assert(rebuilt_run(s, d, ranges@[j as int], all[j as int]));
                lemma_entries_lift(s, d, ranges@, j as int, rp@, all[j as int].2@);
            }
            let ghost before = cache_entries@;
            cache_entries.append(&mut results[j].2);
            child_hashes.push((child, hash));
            proof {
                assert(cache_entries@ =~= before + all[j as int].2@);
                assert forall|i: int| 0 <= i < cache_entries@.len() implies rp@.is_prefix_of(
                    (#[trigger] cache_entries@[i]).0@,
                ) && hash_valid(pairs_map(s), cache_entries@[i].0@, cache_entries@[i].1@) by {
                    if i < before.len() {
                        assert(cache_entries@[i] == before[i]);
                    } else {
                        assert(cache_entries@[i] == all[j as int].2@[i - before.len()]);
                    }
                }
            }
            j += 1;
        }
    } else {
        let mut j: usize = 0;
        while j < ranges.len()
            invariant
                j <= ranges.len(),
                s == entry_pairs(entries@),
                d == node_depth,
                depth <= node_depth,
                depth == rp@.len(),
                full == s[0].0.take(d as int),
                full_prefix@ == full,
                rp@.is_prefix_of(full),
                block_ok(s, d),
                ranges_ok(s, d, ranges@, s.len() as int),
                child_hashes@.len() == j,
                forall|i: int|
                    0 <= i < j ==> (#[trigger] child_hashes@[i]).0 == ranges@[i].0
                        && child_hashes@[i].1@ == slot_hash(
                        pairs_map(s),
                        full,
                        ranges@[i].0 as int,
                    ),
                entries_valid(pairs_map(s), rp@, cache_entries@),
            decreases ranges.len() - j,
        {
            let (child, start, end): (usize, usize, usize) = ranges[j];
            proof {
                lemma_child_block(s, d, ranges@, j as int);
                assert(range_ok(s, d, ranges@[j as int]));
            }
            let part: &[EntryRef<'_>] = &entries[start..end];
            let child_rp = child_prefix(full_prefix, child);
            proof {
                assert(entry_pairs(part@) =~= s.subrange(start as int, end as int));
                assert(entry_pairs(part@)[0].0 == part@[0].key@);
                assert(part@[0].key@ == s[start as int].0);
            }
            let (hash, mut found): (H256, Vec<(Vec<u8>, H256)>) = memo_node_rebuild(
                part,
                child_rp.as_slice(),
                true,
                cache_policy,
                0,
            );
            let ghost fresh = found@;
            let ghost before = cache_entries@;
            proof {
                lemma_entries_lift(s, d, ranges@, j as int, rp@, fresh);
            }
            cache_entries.append(&mut found);
            child_hashes.push((child, hash));
            proof {
                assert(cache_entries@ =~= before + fresh);
                assert forall|i: int| 0 <= i < cache_entries@.len() implies rp@.is_prefix_of(
                    (#[trigger] cache_entries@[i]).0@,
                ) && hash_valid(pairs_map(s), cache_entries@[i].0@, cache_entries@[i].1@) by {
                    if i < before.len() {
                        assert(cache_entries@[i] == before[i]);
                    } else {
                        assert(cache_entries@[i] == fresh[i - before.len()]);
                    }
                }
            }
            j += 1;
        }
    }
    let children = block_slots(Ghost(s), Ghost(d), &ranges, &child_hashes);
    let has_children: bool = any_child(&children);
    let node_hash = compute_node_merkle(
        if has_children {
            Some(&children)
        } else {
            None
        },
        maybe_value,
    );
    proof {
        lemma_block_value(s, d);
        lemma_subtree_unfold(pairs_map(s), rp@, allow_path_compression);
        assert(first_key@.subrange(depth as int, node_depth as int) =~= full.subrange(
            depth as int,
            full.len() as int,
        ));
        assert(is_nibbles(s[0].0));
        assert(rp@.is_prefix_of(rp@)) by {
            assert(rp@ =~= rp@.subrange(0, rp@.len() as int));
        }
    }
    let hash = compute_path_merkle(&first_key[depth..node_depth], depth, node_hash);
    if cache_policy == CachePolicy::Full || !is_singleton {
        cache_entries.push((to_vec(rp), hash));
    }
    (hash, cache_entries)
}

/// The live records of a layer whose keys start with `prefix`.
pub open spec fn live_under(m: Map<Seq<u8>, Option<Seq<u8>>>, prefix: Seq<u8>) -> Map<
    Seq<u8>,
    Seq<u8>,
> {
    Map::new(
        |k: Seq<u8>| m.contains_key(k) && prefix.is_prefix_of(k) && m[k] is Some,
        |k: Seq<u8>| m[k]->0,
    )
}

/// A canonical map as a layer of live records.
pub open spec fn all_live(m: Map<Seq<u8>, Seq<u8>>) -> Map<Seq<u8>, Option<Seq<u8>>> {
    Map::new(|k: Seq<u8>| m.contains_key(k), |k: Seq<u8>| Some(m[k]))
}

/// Keys and values of a list of key-value pairs.
pub open spec fn kv_pairs(s: Seq<(Vec<u8>, Box<[u8]>)>) -> Seq<(Seq<u8>, Seq<u8>)> {
    Seq::new(s.len(), |i: int| (s[i].0@, s[i].1@))
}

impl IncrementalTrie {
    /// Keys are in nibble form, and every cached hash that no change has touched
    /// is that of its subtree.
    pub closed spec fn wf(&self) -> bool {
        &&& self.entries.wf()
        &&& self.dirty.wf()
        &&& nibble_keyed(self.entries@)
        &&& cache_valid_but(merkled(self.entries@), cached(self.cache), self.dirty@)
    }

    /// The records by nibble key are those of the view by byte key.
    proof fn lemma_view(&self)
        requires
            self.wf(),
        ensures
            nibble_map(self@) == merkled(self.entries@),
            self@ == Map::<Seq<u8>, Option<Seq<u8>>>::empty() <==> self.entries@ == Map::<
                Seq<u8>,
                Option<Seq<u8>>,
            >::empty(),
            self.entries@.dom().finite(),
            merkled(self.entries@).dom().finite(),
    {
        self.entries.lemma_view();
        lemma_merkled_pairs(self.entries.pairs());
        let m = self.entries@;
        assert forall|n: Seq<u8>| nibble_map(self@).contains_key(n) == merkled(m).contains_key(n)
            && (merkled(m).contains_key(n) ==> nibble_map(self@)[n] == merkled(m)[n]) by {
            if m.contains_key(n) {
                assert(n == nibbles(from_nibbles(n)));
            }
        }
        assert(nibble_map(self@) =~= merkled(m));
        let none = Map::<Seq<u8>, Option<Seq<u8>>>::empty();
        if m == none {
            assert(self@ =~= none);
        }
        if self@ == none {
            assert forall|n: Seq<u8>| !m.contains_key(n) by {
                if m.contains_key(n) {
                    assert(n == nibbles(from_nibbles(n)));
                    assert(self@.contains_key(from_nibbles(n)));
                }
            }
            assert(m =~= none);
        }
    }

    /// A well-formed trie holds finitely many records.
    pub(crate) proof fn lemma_finite(&self)
        requires
            self.wf(),
        ensures
            self@.dom().finite(),
    {
        self.lemma_view();
        let keys = self.entries@.dom();
        let images = keys.map(|n: Seq<u8>| from_nibbles(n));
        keys.lemma_map_finite(|n: Seq<u8>| from_nibbles(n));
        assert forall|k: Seq<u8>| #[trigger] self@.dom().contains(k) implies images.contains(k) by {
            lemma_nibbles(k);
            assert(keys.contains(nibbles(k)));
        }
        vstd::set_lib::lemma_set_subset_finite(images, self@.dom());
    }

    /// A trie without records.
    pub fn new() -> (r: Self)
        ensures
            r.wf(),
            r@ == Map::<Seq<u8>, Option<Seq<u8>>>::empty(),
    {
        let r = IncrementalTrie {
            entries: ByteMap::new(),
            cache: cache_new(),
            dirty: ByteMap::new(),
        };
        proof {
            assert(r@ =~= Map::<Seq<u8>, Option<Seq<u8>>>::empty());
        }
        r
    }

    /// A trie of the given records. Nothing is cached, so the first root hashes all.
    pub fn from_delta(delta: &ByteMap<MptValue>) -> (r: Self)
        requires
            delta.wf(),
        ensures
            r.wf(),
            r@ == delta@,
    {
        let mut entries: ByteMap<MptValue> = ByteMap::new();
        let n: usize = delta.len();
        let mut i: usize = 0;
        proof {
            delta.lemma_view();
        }
        while i < n
            invariant
                i <= n,
                n == delta.pairs().len(),
                delta.wf(),
                entries.wf(),
                nibble_keyed(entries@),
                nibble_image(entries@, delta.pairs(), i as int),
            decreases n - i,
        {
            let ghost before = entries@;
            entries.insert(bytes_to_nibbles(delta.key_at(i).as_slice()), delta.value_at(i).clone());
            proof {
                delta.lemma_view();
                lemma_nibble_image_step(before, entries@, delta.pairs(), i as int);
            }
            i += 1;
        }
        let r = IncrementalTrie { entries, cache: cache_new(), dirty: ByteMap::new() };
        proof {
            delta.lemma_view();
            lemma_nibble_image_view(entries@, delta.pairs());
            assert(r@ =~= delta@);
        }
        r
    }

    /// A trie of the live values of a canonical map.
    pub fn from_snapshot(snapshot: &ByteMap<Box<[u8]>>) -> (r: Self)
        requires
            snapshot.wf(),
        ensures
            r.wf(),
            r@ == all_live(snapshot@),
    {
        let mut entries: ByteMap<MptValue> = ByteMap::new();
        let n: usize = snapshot.len();
        let mut i: usize = 0;
        let ghost s = Seq::new(
            n as nat,
            |i: int| (snapshot.pairs()[i].0, Some(snapshot.pairs()[i].1)),
        );
        proof {
            snapshot.lemma_view();
            assert forall|a: int, b: int| 0 <= a < b < s.len() implies lex_lt(s[a].0, s[b].0) by {
                assert(lex_lt(snapshot.pairs()[a].0, snapshot.pairs()[b].0));
            }
        }
        while i < n
            invariant
                i <= n,
                n == snapshot.pairs().len(),
                s == Seq::new(
                    n as nat,
                    |i: int| (snapshot.pairs()[i].0, Some(snapshot.pairs()[i].1)),
                ),
                keys_sorted(s),
                entries.wf(),
                nibble_keyed(entries@),
                nibble_image(entries@, s, i as int),
            decreases n - i,
        {
            let ghost before = entries@;
            let value = MptValue::Live(to_boxed(&**snapshot.value_at(i)));
            entries.insert(bytes_to_nibbles(snapshot.key_at(i).as_slice()), value);
            proof {
                lemma_nibble_image_step(before, entries@, s, i as int);
            }
            i += 1;
        }
        let r = IncrementalTrie { entries, cache: cache_new(), dirty: ByteMap::new() };
        proof {
            lemma_nibble_image_view(entries@, s);
            lemma_pairs_map(s);
            let want = all_live(snapshot@);
            assert forall|k: Seq<u8>| #[trigger] r@.contains_key(k) == want.contains_key(k) && (
            want.contains_key(k) ==> r@[k] == want[k]) by {
                assert(pairs_map(s).contains_key(k) <==> has_key(s, k));
                if has_key(s, k) {
                    let i = choose|i: int| 0 <= i < s.len() && (#[trigger] s[i]).0 == k;
                    assert(snapshot.pairs()[i].0 == k);
                }
                if has_key(snapshot.pairs(), k) {
                    let i = choose|i: int|
                        0 <= i < snapshot.pairs().len() && (#[trigger] snapshot.pairs()[i]).0 == k;
                    assert(s[i].0 == k);
                    assert(pairs_map(s)[s[i].0] == s[i].1);
                }
            }
            assert(r@ =~= want);
        }
        r
    }

    /// Stores `value` under `key`.
    pub fn insert(&mut self, key: &[u8], value: MptValue)
        requires
            old(self).wf(),
        ensures
            final(self).wf(),
            final(self)@ == old(self)@.insert(key@, value@),
    {
        let n: Vec<u8> = bytes_to_nibbles(key);
        let ghost m0 = self.entries@;
        let ghost d0 = self.dirty@;
        let ghost v = value@;
        proof {
            self.lemma_view();
        }
        self.dirty.insert(n.clone(), ());
        proof {
            assert(n@ == nibbles(key@));
        }
        self.entries.insert(n, value);
        proof {
            lemma_nibbles(key@);
            self.entries.lemma_view();
            lemma_merkled_pairs(self.entries.pairs());
            let m1 = self.entries@;
            lemma_change_keeps_cache(m0, m1, cached(self.cache), d0, nibbles(key@));
            assert forall|k: Seq<u8>| #[trigger] nibbles(k) == nibbles(key@) implies k == key@ by {
                lemma_nibbles(k);
            }
            assert(self@ =~= old(self)@.insert(key@, v));
        }
    }

    /// Removes `key`.
    pub fn remove(&mut self, key: &[u8])
        requires
            old(self).wf(),
        ensures
            final(self).wf(),
            final(self)@ == old(self)@.remove(key@),
    {
        let n: Vec<u8> = bytes_to_nibbles(key);
        let ghost m0 = self.entries@;
        let ghost d0 = self.dirty@;
        proof {
            self.lemma_view();
        }
        self.entries.remove(n.as_slice());
        self.dirty.insert(n, ());
        proof {
            lemma_nibbles(key@);
            self.entries.lemma_view();
            lemma_merkled_pairs(self.entries.pairs());
            let m1 = self.entries@;
            lemma_change_keeps_cache(m0, m1, cached(self.cache), d0, nibbles(key@));
            assert forall|k: Seq<u8>| #[trigger] nibbles(k) == nibbles(key@) implies k == key@ by {
                lemma_nibbles(k);
            }
            assert(self@ =~= old(self)@.remove(key@));
        }
    }

    /// Drops all records, hashes and pending changes.
    pub fn clear(&mut self)
        ensures
            final(self).wf(),
            final(self)@ == Map::<Seq<u8>, Option<Seq<u8>>>::empty(),
    {
        self.entries.clear();
        cache_clear(&mut self.cache);
        self.dirty.clear();
        proof {
            assert(self@ =~= Map::<Seq<u8>, Option<Seq<u8>>>::empty());
        }
    }

    /// The Merkle root of the records. It is the one that hashing everything anew
    /// gives, whatever changes came before.
    pub fn root(&mut self) -> (r: H256)
        requires
            old(self).wf(),
        ensures
            final(self).wf(),
            final(self)@ == old(self)@,
            r@ == layer_root(old(self)@),
    {
        self.root_with_policy(CachePolicy::Full)
    }

    /// The Merkle root of the records; `cache_policy` says which hashes are kept.
    pub fn root_with_policy(&mut self, cache_policy: CachePolicy) -> (r: H256)
        requires
            old(self).wf(),
        ensures
            final(self).wf(),
            final(self)@ == old(self)@,
            r@ == layer_root(old(self)@),
    {
        proof {
            self.lemma_view();
        }
        let ghost m = merkled(self.entries@);
        if self.entries.is_empty() {
            cache_clear(&mut self.cache);
            self.dirty.clear();
            return H256(MERKLE_NULL_NODE);
        }
        self.evict();
        proof {
            self.entries.lemma_view();
            assert(self.entries.pairs().len() > 0);
            assert(m.contains_key(self.entries.pairs()[0].0));
            assert(Seq::<u8>::empty().is_prefix_of(self.entries.pairs()[0].0)) by {
                assert(Seq::<u8>::empty() =~= self.entries.pairs()[0].0.subrange(0, 0));
            }
        }
        if cache_is_empty(&self.cache) && self.entries.len() >= PARALLEL_REBUILD_THRESHOLD {
            self.rebuild(cache_policy)
        } else {
            let top: Vec<u8> = Vec::new();
            memo_node(&self.entries, top.as_slice(), false, &mut self.cache, cache_policy)
        }
    }

    /// Drops the cached hash of every prefix of every changed key.
    fn evict(&mut self)
        requires
            old(self).wf(),
        ensures
            final(self).wf(),
            final(self).entries == old(self).entries,
            final(self).dirty@ == Map::<Seq<u8>, ()>::empty(),
            cache_valid(merkled(final(self).entries@), cached(final(self).cache)),
    {
        let ghost c0 = cached(self.cache);
        let ghost m = merkled(self.entries@);
        let ghost dirty = self.dirty@;
        let n: usize = self.dirty.len();
        let mut i: usize = 0;
        proof {
            self.dirty.lemma_view();
        }
        while i < n
            invariant
                i <= n,
                n == self.dirty.pairs().len(),
                self.dirty.wf(),
                self.dirty == old(self).dirty,
                self.entries == old(self).entries,
                forall|p: Seq<u8>| #[trigger]
                    cached(self.cache).contains_key(p) ==> c0.contains_key(p)
                        && cached(self.cache)[p] == c0[p],
                forall|j: int, p: Seq<u8>|
                    0 <= j < i && #[trigger] p.is_prefix_of((#[trigger] self.dirty.pairs()[j]).0)
                        ==> !cached(self.cache).contains_key(p),
            decreases n - i,
        {
            let key: Vec<u8> = self.dirty.key_at(i).clone();
            proof {
                assert(key@ =~= self.dirty.pairs()[i as int].0);
            }
            let mut len: usize = 0;
            loop
                invariant
                    len <= key@.len(),
                    i < n,
                    n == self.dirty.pairs().len(),
                    self.dirty.wf(),
                    self.dirty == old(self).dirty,
                    self.entries == old(self).entries,
                    key@ == self.dirty.pairs()[i as int].0,
                    forall|p: Seq<u8>| #[trigger]
                        cached(self.cache).contains_key(p) ==> c0.contains_key(p)
                            && cached(self.cache)[p] == c0[p],
                    forall|j: int, p: Seq<u8>|
                        0 <= j < i && #[trigger] p.is_prefix_of(
                            (#[trigger] self.dirty.pairs()[j]).0,
                        ) ==> !cached(self.cache).contains_key(p),
                    forall|p: Seq<u8>|
                        #[trigger] p.is_prefix_of(key@) && p.len() < len ==> !cached(
                            self.cache,
                        ).contains_key(p),
                ensures
                    forall|p: Seq<u8>|
                        #[trigger] p.is_prefix_of(key@) ==> !cached(self.cache).contains_key(p),
                decreases key@.len() - len,
            {
                cache_remove(&mut self.cache, &key[0..len]);
                proof {
                    assert forall|p: Seq<u8>|
                        #[trigger] p.is_prefix_of(key@) && p.len() <= len implies !cached(
                        self.cache,
                    ).contains_key(p) by {
                        if p.len() == len {
                            assert(p == key@.subrange(0, len as int));
                        }
                    }
                }
                if len == key.len() {
                    break;
                }
                len += 1;
            }
            i += 1;
        }
        proof {
            assert forall|p: Seq<u8>| #[trigger]
                cached(self.cache).contains_key(p) implies hash_valid(
                m,
                p,
                cached(self.cache)[p],
            ) by {
                if touched(dirty, p) {
                    let d = choose|d: Seq<u8>| #[trigger]
                        dirty.contains_key(d) && p.is_prefix_of(d);
                    let j = choose|j: int|
                        0 <= j < self.dirty.pairs().len() && (#[trigger] self.dirty.pairs()[j]).0
                            == d;
                    assert(p.is_prefix_of(self.dirty.pairs()[j].0));
                }
                assert(c0.contains_key(p));
            }
        }
        self.dirty.clear();
    }

    /// The root of a non-empty trie with a cold cache, which it fills.
    fn rebuild(&mut self, cache_policy: CachePolicy) -> (r: H256)
        requires
            old(self).wf(),
            old(self).entries@ != Map::<Seq<u8>, Option<Seq<u8>>>::empty(),
            cache_valid(merkled(old(self).entries@), cached(old(self).cache)),
        ensures
            final(self).wf(),
            final(self).entries == old(self).entries,
            r@ == subtree_hash(merkled(old(self).entries@), Seq::empty(), false),
    {
        let ghost s = self.entries.pairs();
        let ghost m = merkled(self.entries@);
        let n: usize = self.entries.len();
        let ghost c0 = cached(self.cache);
        proof {
            self.entries.lemma_view();
            lemma_merkled_pairs(s);
            if s.len() == 0 {
                assert(self.entries@ =~= Map::<Seq<u8>, Option<Seq<u8>>>::empty());
            }
        }
        let rebuilt: (H256, Vec<(Vec<u8>, H256)>);
        {
            let mut entries: Vec<EntryRef<'_>> = Vec::new();
            let mut i: usize = 0;
            while i < n
                invariant
                    i <= n,
                    n == s.len(),
                    s == self.entries.pairs(),
                    entries@.len() == i,
                    forall|j: int|
                        0 <= j < i ==> (#[trigger] entries@[j]).key@ == s[j].0
                            && entries@[j].value@ == s[j].1,
                decreases n - i,
            {
                entries.push(
                    EntryRef {
                        key: self.entries.key_at(i).as_slice(),
                        value: self.entries.value_at(i),
                    },
                );
                i += 1;
            }
            proof {
                assert(entry_pairs(entries@) =~= merkled_pairs(s));
                let t = merkled_pairs(s);
                assert forall|i: int| 0 <= i < t.len() implies is_nibbles((#[trigger] t[i]).0) by {
                    assert(self.entries@.contains_key(s[i].0));
                    lemma_nibbles(from_nibbles(s[i].0));
                }
                assert(block_ok(t, 0));
                assert(entries@[0].key@.take(0) =~= Seq::<u8>::empty());
            }
            let top: Vec<u8> = Vec::new();
            rebuilt =
            memo_node_rebuild(
                entries.as_slice(),
                top.as_slice(),
                false,
                cache_policy,
                PARALLEL_REBUILD_DEPTH,
            );
        }
        let (root, cache_entries): (H256, Vec<(Vec<u8>, H256)>) = rebuilt;
        let mut i: usize = 0;
        while i < cache_entries.len()
            invariant
                i <= cache_entries@.len(),
                self.entries == old(self).entries,
                self.dirty == old(self).dirty,
                m == merkled(self.entries@),
                entries_valid(m, Seq::empty(), cache_entries@),
                cache_valid(m, cached(self.cache)),
            decreases cache_entries@.len() - i,
        {
            proof {
                assert(hash_valid(m, cache_entries@[i as int].0@, cache_entries@[i as int].1@));
            }
            cache_insert(&mut self.cache, to_vec(cache_entries[i].0.as_slice()), cache_entries[i].1);
            i += 1;
        }
        root
    }

    /// The live value stored under `canonical`.
    pub fn snapshot_get(&self, canonical: &[u8]) -> (r: Option<&[u8]>)
        requires
            self.wf(),
        ensures
            match r {
                Some(v) => self@.contains_key(canonical@) && self@[canonical@] == Some(v@),
                None => !self@.contains_key(canonical@) || self@[canonical@] is None,
            },
    {
        let n = bytes_to_nibbles(canonical);
        match self.entries.get(n.as_slice()) {
            Some(v) => v.visible_value(),
            None => None,
        }
    }

    /// The live records whose key starts with `canonical_prefix`, in key order.
    pub fn snapshot_scan_prefix(&self, canonical_prefix: &[u8]) -> (r: Vec<(Vec<u8>, Box<[u8]>)>)
        requires
            self.wf(),
        ensures
            keys_sorted(kv_pairs(r@)),
            pairs_map(kv_pairs(r@)) == live_under(self@, canonical_prefix@),
    {
        let n = bytes_to_nibbles(canonical_prefix);
        let (lo, hi): (usize, usize) = prefix_range(&self.entries, n.as_slice());
        let ghost s = self.entries.pairs();
        let mut out: Vec<(Vec<u8>, Box<[u8]>)> = Vec::new();
        let mut i: usize = lo;
        proof {
            self.entries.lemma_view();
            assert(live_run(s, lo as int, lo as int, kv_pairs(out@)));
        }
        while i < hi
            invariant
                lo <= i <= hi <= s.len(),
                s == self.entries.pairs(),
                self.entries.wf(),
                nibble_keyed(self.entries@),
                live_run(s, lo as int, i as int, kv_pairs(out@)),
            decreases hi - i,
        {
            proof {
                self.entries.lemma_view();
                lemma_nibbles(from_nibbles(s[i as int].0));
            }
            let ghost before = kv_pairs(out@);
            match self.entries.value_at(i).visible_value() {
                Some(v) => {
                    out.push(
                        (nibbles_to_bytes(self.entries.key_at(i).as_slice()), to_boxed(v)),
                    );
                    proof {
                        assert(kv_pairs(out@) =~= before.push((from_nibbles(s[i as int].0), v@)));
                        lemma_live_run_push(s, lo as int, i as int, before, v@);
                    }
                },
                None => {
                    proof {
                        lemma_live_run_skip(s, lo as int, i as int, before);
                    }
                },
            }
            i += 1;
        }
        proof {
            self.entries.lemma_view();
            lemma_live_run_total(
                s,
                lo as int,
                hi as int,
                kv_pairs(out@),
                self@,
                canonical_prefix@,
            );
        }
        out
    }

    /// The live records as a canonical map.
    pub fn to_canonical_map(&self) -> (r: ByteMap<Box<[u8]>>)
        requires
            self.wf(),
        ensures
            r.wf(),
            r@ == live_under(self@, Seq::empty()),
    {
        let all: Vec<u8> = Vec::new();
        let pairs = self.snapshot_scan_prefix(all.as_slice());
        let ghost t = kv_pairs(pairs@);
        let mut out: ByteMap<Box<[u8]>> = ByteMap::new();
        let mut i: usize = 0;
        proof {
            assert(t.take(0) =~= Seq::empty());
        }
        while i < pairs.len()
            invariant
                i <= pairs@.len(),
                t == kv_pairs(pairs@),
                out.wf(),
                out@ == pairs_map(t.take(i as int)),
            decreases pairs@.len() - i,
        {
            out.insert(to_vec(pairs[i].0.as_slice()), to_boxed(&*pairs[i].1));
            i += 1;
            proof {
                assert(t.take(i as int).drop_last() =~= t.take(i - 1));
                assert(t.take(i as int).last() == t[i - 1]);
            }
        }
        proof {
            assert(t.take(i as int) =~= t);
        }
        out
    }

    /// Number of records.
    pub fn len(&self) -> (r: usize)
        requires
            self.wf(),
        ensures
            r == self@.len(),
    {
        proof {
            self.entries.lemma_view();
            let pairs = Seq::new(
                self.entries.pairs().len(),
                |i: int| (from_nibbles(self.entries.pairs()[i].0), self.entries.pairs()[i].1),
            );
            lemma_unnibble_pairs(self.entries.pairs(), pairs, self@);
        }
        self.entries.len()
    }
}

impl Default for IncrementalTrie {
    fn default() -> (r: Self)
        ensures
            r.wf(),
            r@ == Map::<Seq<u8>, Option<Seq<u8>>>::empty(),
    {
        IncrementalTrie::new()
    }
}

/// `pairs` has the byte keys of the records `s`, which the view `m` holds.
proof fn lemma_unnibble_pairs(
    s: Seq<(Seq<u8>, Option<Seq<u8>>)>,
    pairs: Seq<(Seq<u8>, Option<Seq<u8>>)>,
    m: Map<Seq<u8>, Option<Seq<u8>>>,
)
    requires
        keys_sorted(s),
        nibble_keyed(pairs_map(s)),
        pairs =~= Seq::new(s.len(), |i: int| (from_nibbles(s[i].0), s[i].1)),
        m =~= Map::new(
            |k: Seq<u8>| pairs_map(s).contains_key(nibbles(k)),
            |k: Seq<u8>| pairs_map(s)[nibbles(k)],
        ),
    ensures
        keys_sorted(pairs),
        pairs_map(pairs) == m,
        m.len() == s.len(),
{
    lemma_pairs_map(s);
    assert forall|i: int, j: int| 0 <= i < j < pairs.len() implies lex_lt(
        pairs[i].0,
        pairs[j].0,
    ) by {
        assert(pairs_map(s).contains_key(s[i].0) && pairs_map(s).contains_key(s[j].0));
        assert(lex_lt(s[i].0, s[j].0));
        lemma_nibbles_lex_back(pairs[i].0, pairs[j].0);
    }
    lemma_pairs_map(pairs);
    assert forall|k: Seq<u8>| #[trigger] pairs_map(pairs).contains_key(k) == m.contains_key(k) && (
    m.contains_key(k) ==> pairs_map(pairs)[k] == m[k]) by {
        lemma_nibbles(k);
        if has_key(pairs, k) {
            let i = choose|i: int| 0 <= i < pairs.len() && (#[trigger] pairs[i]).0 == k;
            assert(pairs_map(s).contains_key(s[i].0));
            assert(s[i].0 == nibbles(k));
            assert(pairs_map(pairs)[pairs[i].0] == pairs[i].1);
        }
        if m.contains_key(k) {
            let i = choose|i: int| 0 <= i < s.len() && (#[trigger] s[i]).0 == nibbles(k);
            assert(pairs[i].0 == k);
        }
    }
    assert(pairs_map(pairs) =~= m);
}

/// `m` holds the first `n` of `pairs`, by nibble key.
spec fn nibble_image(
    m: Map<Seq<u8>, Option<Seq<u8>>>,
    pairs: Seq<(Seq<u8>, Option<Seq<u8>>)>,
    n: int,
) -> bool {
    &&& forall|j: int|
        0 <= j < n ==> m.contains_key(nibbles((#[trigger] pairs[j]).0)) && m[nibbles(pairs[j].0)]
            == pairs[j].1
    &&& forall|k: Seq<u8>| #[trigger]
        m.contains_key(k) ==> exists|j: int| 0 <= j < n && k == nibbles((#[trigger] pairs[j]).0)
}

proof fn lemma_nibble_image_step(
    before: Map<Seq<u8>, Option<Seq<u8>>>,
    after: Map<Seq<u8>, Option<Seq<u8>>>,
    pairs: Seq<(Seq<u8>, Option<Seq<u8>>)>,
    n: int,
)
    requires
        keys_sorted(pairs),
        0 <= n < pairs.len(),
        nibble_keyed(before),
        nibble_image(before, pairs, n),
        after == before.insert(nibbles(pairs[n].0), pairs[n].1),
    ensures
        nibble_keyed(after),
        nibble_image(after, pairs, n + 1),
{
    lemma_nibbles(pairs[n].0);
    assert forall|j: int| 0 <= j < n + 1 implies after.contains_key(
        nibbles((#[trigger] pairs[j]).0),
    ) && after[nibbles(pairs[j].0)] == pairs[j].1 by {
        if j < n {
            lemma_nibbles(pairs[j].0);
            assert(lex_lt(pairs[j].0, pairs[n].0));
            lemma_lex_irreflexive(pairs[n].0);
        }
    }
    assert forall|k: Seq<u8>| #[trigger] after.contains_key(k) implies exists|j: int|
        0 <= j < n + 1 && k == nibbles((#[trigger] pairs[j]).0) by {
        if k == nibbles(pairs[n].0) {
        } else {
            assert(before.contains_key(k));
            let j = choose|j: int| 0 <= j < n && k == nibbles((#[trigger] pairs[j]).0);
            assert(0 <= j < n + 1 && k == nibbles(pairs[j].0));
        }
    }
}

proof fn lemma_nibble_image_view(
    m: Map<Seq<u8>, Option<Seq<u8>>>,
    pairs: Seq<(Seq<u8>, Option<Seq<u8>>)>,
)
    requires
        keys_sorted(pairs),
        nibble_image(m, pairs, pairs.len() as int),
    ensures
        forall|k: Seq<u8>| #[trigger]
            pairs_map(pairs).contains_key(k) <==> m.contains_key(nibbles(k)),
        forall|k: Seq<u8>| #[trigger]
            pairs_map(pairs).contains_key(k) ==> pairs_map(pairs)[k] == m[nibbles(k)],
{
    lemma_pairs_map(pairs);
    assert forall|k: Seq<u8>| #[trigger] pairs_map(pairs).contains_key(k) <==> m.contains_key(
        nibbles(k),
    ) by {
        if has_key(pairs, k) {
            let i = choose|i: int| 0 <= i < pairs.len() && (#[trigger] pairs[i]).0 == k;
            assert(m.contains_key(nibbles(pairs[i].0)));
        }
        if m.contains_key(nibbles(k)) {
            let j = choose|j: int|
                0 <= j < pairs.len() && nibbles(k) == nibbles((#[trigger] pairs[j]).0);
            lemma_nibbles(k);
            lemma_nibbles(pairs[j].0);
            assert(pairs[j].0 == k);
        }
    }
    assert forall|k: Seq<u8>| #[trigger] pairs_map(pairs).contains_key(k) implies pairs_map(pairs)[k]
        == m[nibbles(k)] by {
        let i = choose|i: int| 0 <= i < pairs.len() && (#[trigger] pairs[i]).0 == k;
        assert(pairs_map(pairs)[pairs[i].0] == pairs[i].1);
    }
}

/// A change of one key leaves valid every cached hash that it does not touch.
proof fn lemma_change_keeps_cache(
    m0: Map<Seq<u8>, Option<Seq<u8>>>,
    m1: Map<Seq<u8>, Option<Seq<u8>>>,
    c: Map<Seq<u8>, Seq<u8>>,
    dirty: Map<Seq<u8>, ()>,
    key: Seq<u8>,
)
    requires
        merkled(m0).dom().finite(),
        merkled(m1).dom().finite(),
        cache_valid_but(merkled(m0), c, dirty),
        forall|k: Seq<u8>|
            k != key ==> (#[trigger] m0.contains_key(k) <==> m1.contains_key(k)) && (
            m0.contains_key(k) ==> m0[k] == m1[k]),
    ensures
        cache_valid_but(merkled(m1), c, dirty.insert(key, ())),
{
    let d1 = dirty.insert(key, ());
    assert forall|p: Seq<u8>| #[trigger] c.contains_key(p) && !touched(d1, p) implies hash_valid(
        merkled(m1),
        p,
        c[p],
    ) by {
        assert(d1.contains_key(key));
        if touched(dirty, p) {
            let d = choose|d: Seq<u8>| #[trigger] dirty.contains_key(d) && p.is_prefix_of(d);
            assert(d1.contains_key(d));
        }
        assert(hash_valid(merkled(m0), p, c[p]));
        assert(same_under(merkled(m0), merkled(m1), p)) by {
            assert forall|k: Seq<u8>| p.is_prefix_of(k) implies (
            #[trigger] merkled(m0).contains_key(k) <==> merkled(m1).contains_key(k)) && (merkled(
                m0,
            ).contains_key(k) ==> merkled(m0)[k] == merkled(m1)[k]) by {
                assert(k != key);
                assert(m0.contains_key(k) <==> m1.contains_key(k));
            }
        }
        lemma_subtree_local(merkled(m0), merkled(m1), p, p.len() > 0);
    }
}

/// `out` holds, by byte key and in order, the live records at positions `lo..i`.
spec fn live_run(
    s: Seq<(Seq<u8>, Option<Seq<u8>>)>,
    lo: int,
    i: int,
    out: Seq<(Seq<u8>, Seq<u8>)>,
) -> bool {
    &&& keys_sorted(out)
    &&& forall|j: int|
        0 <= j < out.len() ==> exists|x: int|
            lo <= x < i && (#[trigger] out[j]).0 == from_nibbles((#[trigger] s[x]).0) && s[x].1
                == Some(out[j].1)
    &&& forall|x: int|
        lo <= x < i && (#[trigger] s[x]).1 is Some ==> exists|j: int|
            0 <= j < out.len() && (#[trigger] out[j]).0 == from_nibbles(s[x].0)
}

proof fn lemma_live_run_push(
    s: Seq<(Seq<u8>, Option<Seq<u8>>)>,
    lo: int,
    i: int,
    out: Seq<(Seq<u8>, Seq<u8>)>,
    v: Seq<u8>,
)
    requires
        keys_sorted(s),
        nibble_keyed(pairs_map(s)),
        0 <= lo <= i < s.len(),
        live_run(s, lo, i, out),
        s[i].1 == Some(v),
    ensures
        live_run(s, lo, i + 1, out.push((from_nibbles(s[i].0), v))),
{
    let after = out.push((from_nibbles(s[i].0), v));
    lemma_pairs_map(s);
    assert forall|a: int, b: int| 0 <= a < b < after.len() implies lex_lt(
        after[a].0,
        after[b].0,
    ) by {
        if b < out.len() {
            assert(lex_lt(out[a].0, out[b].0));
        } else {
            let x = choose|x: int|
                lo <= x < i && out[a].0 == from_nibbles((#[trigger] s[x]).0) && s[x].1 == Some(
                    out[a].1,
                );
            assert(pairs_map(s).contains_key(s[x].0) && pairs_map(s).contains_key(s[i].0));
            assert(lex_lt(s[x].0, s[i].0));
            lemma_nibbles_lex_back(from_nibbles(s[x].0), from_nibbles(s[i].0));
        }
    }
    assert forall|j: int| 0 <= j < after.len() implies exists|x: int|
        lo <= x < i + 1 && (#[trigger] after[j]).0 == from_nibbles((#[trigger] s[x]).0) && s[x].1
            == Some(after[j].1) by {
        if j < out.len() {
            let x = choose|x: int|
                lo <= x < i && out[j].0 == from_nibbles((#[trigger] s[x]).0) && s[x].1 == Some(
                    out[j].1,
                );
            assert(after[j] == out[j]);
            assert(lo <= x < i + 1 && after[j].0 == from_nibbles(s[x].0));
        } else {
            assert(after[j].0 == from_nibbles(s[i].0));
        }
    }
    assert forall|x: int| lo <= x < i + 1 && (#[trigger] s[x]).1 is Some implies exists|j: int|
        0 <= j < after.len() && (#[trigger] after[j]).0 == from_nibbles(s[x].0) by {
        if x < i {
            let j = choose|j: int| 0 <= j < out.len() && (#[trigger] out[j]).0 == from_nibbles(s[x].0);
            assert(after[j] == out[j]);
        } else {
            assert(after[out.len() as int].0 == from_nibbles(s[x].0));
        }
    }
}

proof fn lemma_live_run_skip(
    s: Seq<(Seq<u8>, Option<Seq<u8>>)>,
    lo: int,
    i: int,
    out: Seq<(Seq<u8>, Seq<u8>)>,
)
    requires
        0 <= lo <= i < s.len(),
        live_run(s, lo, i, out),
        s[i].1 is None,
    ensures
        live_run(s, lo, i + 1, out),
{
    assert forall|j: int| 0 <= j < out.len() implies exists|x: int|
        lo <= x < i + 1 && (#[trigger] out[j]).0 == from_nibbles((#[trigger] s[x]).0) && s[x].1
            == Some(out[j].1) by {
        let x = choose|x: int|
            lo <= x < i && out[j].0 == from_nibbles((#[trigger] s[x]).0) && s[x].1 == Some(
                out[j].1,
            );
        assert(lo <= x < i + 1);
    }
}

/// A live record in the run of a prefix is one of the layer.
proof fn lemma_live_run_kept(
    s: Seq<(Seq<u8>, Option<Seq<u8>>)>,
    lo: int,
    hi: int,
    t: Seq<(Seq<u8>, Seq<u8>)>,
    prefix: Seq<u8>,
    k: Seq<u8>,
)
    requires
        keys_sorted(s),
        nibble_keyed(pairs_map(s)),
        0 <= lo <= hi <= s.len(),
        forall|i: int|
            0 <= i < s.len() ==> (lo <= i < hi <==> nibbles(prefix).is_prefix_of(
                (#[trigger] s[i]).0,
            )),
        live_run(s, lo, hi, t),
        pairs_map(t).contains_key(k),
    ensures
        prefix.is_prefix_of(k),
        pairs_map(s).contains_key(nibbles(k)),
        pairs_map(s)[nibbles(k)] == Some(pairs_map(t)[k]),
{
    lemma_pairs_map(s);
    lemma_pairs_map(t);
    lemma_nibbles_prefix(prefix, k);
    let j = choose|j: int| 0 <= j < t.len() && (#[trigger] t[j]).0 == k;
    let x = choose|x: int|
        lo <= x < hi && t[j].0 == from_nibbles((#[trigger] s[x]).0) && s[x].1 == Some(t[j].1);
    assert(pairs_map(s).contains_key(s[x].0));
    assert(s[x].0 == nibbles(k));
    assert(pairs_map(t)[t[j].0] == t[j].1);
    assert(pairs_map(s)[s[x].0] == s[x].1);
}

/// A live record of the layer under a prefix is one of the run.
proof fn lemma_live_run_found(
    s: Seq<(Seq<u8>, Option<Seq<u8>>)>,
    lo: int,
    hi: int,
    t: Seq<(Seq<u8>, Seq<u8>)>,
    prefix: Seq<u8>,
    k: Seq<u8>,
)
    requires
        keys_sorted(s),
        nibble_keyed(pairs_map(s)),
        0 <= lo <= hi <= s.len(),
        forall|i: int|
            0 <= i < s.len() ==> (lo <= i < hi <==> nibbles(prefix).is_prefix_of(
                (#[trigger] s[i]).0,
            )),
        live_run(s, lo, hi, t),
        prefix.is_prefix_of(k),
        pairs_map(s).contains_key(nibbles(k)),
        pairs_map(s)[nibbles(k)] is Some,
    ensures
        pairs_map(t).contains_key(k),
{
    lemma_pairs_map(s);
    lemma_pairs_map(t);
    lemma_nibbles_prefix(prefix, k);
    lemma_nibbles(k);
    let x = choose|x: int| 0 <= x < s.len() && (#[trigger] s[x]).0 == nibbles(k);
    assert(pairs_map(s)[s[x].0] == s[x].1);
    assert(lo <= x < hi);
    let j = choose|j: int| 0 <= j < t.len() && (#[trigger] t[j]).0 == from_nibbles(s[x].0);
    assert(has_key(t, k));
}

/// All live records in the run of a prefix are those that the view holds under it.
proof fn lemma_live_run_total(
    s: Seq<(Seq<u8>, Option<Seq<u8>>)>,
    lo: int,
    hi: int,
    t: Seq<(Seq<u8>, Seq<u8>)>,
    m: Map<Seq<u8>, Option<Seq<u8>>>,
    prefix: Seq<u8>,
)
    requires
        keys_sorted(s),
        nibble_keyed(pairs_map(s)),
        0 <= lo <= hi <= s.len(),
        forall|i: int|
            0 <= i < s.len() ==> (lo <= i < hi <==> nibbles(prefix).is_prefix_of(
                (#[trigger] s[i]).0,
            )),
        live_run(s, lo, hi, t),
        m =~= Map::new(
            |k: Seq<u8>| pairs_map(s).contains_key(nibbles(k)),
            |k: Seq<u8>| pairs_map(s)[nibbles(k)],
        ),
    ensures
        pairs_map(t) == live_under(m, prefix),
{
    let want = live_under(m, prefix);
    assert forall|k: Seq<u8>| #[trigger] pairs_map(t).contains_key(k) implies want.contains_key(k)
        && pairs_map(t)[k] == want[k] by {
        lemma_live_run_kept(s, lo, hi, t, prefix, k);
        assert(m.contains_key(k));
    }
    assert forall|k: Seq<u8>| #[trigger] want.contains_key(k) implies pairs_map(t).contains_key(
        k,
    ) by {
        assert(m.contains_key(k));
        lemma_live_run_found(s, lo, hi, t, prefix, k);
    }
    assert(pairs_map(t) =~= want);
}

} // verus!
