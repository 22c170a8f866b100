//! The hash of one node of a layer whose records lie elsewhere, from what is read for
//! the node: the first and last key below it, its value, and the hashes of its children.
use crate::block::any_child;
use crate::bytes::{agree, bytes_eq, common_len, lcp, lemma_agree_prefix, lemma_lcp, lemma_lcp_at_least, lemma_lex_between, lemma_lex_total, lex_lt, to_vec};
use crate::incremental::CachePolicy;
use crate::trie::{common_path, compute_node_merkle, compute_path_merkle, full_path, has_prefix, hash_bytes, is_nibbles, lemma_node_path_exists, lemma_subtree_unfold, node_merkle, node_path, path_merkle, slot_hash, subtree_hash, value_of};
use crate::types::H256;
use vstd::prelude::*;

verus! {

/// The length of the path to a node: with path compression, all that the first and the
/// last key below it share.
pub fn node_depth(
    depth: usize,
    first_key: &[u8],
    last_key: &[u8],
    allow_path_compression: bool,
) -> (r: usize)
    ensures
        r == (if allow_path_compression {
            lcp(first_key@, last_key@)
        } else {
            depth as nat
        }),
{
    if allow_path_compression {
        common_len(first_key, last_key)
    } else {
        depth
    }
}

/// Whether the hash of a node is kept: the policy may leave out a node with one key below
/// it, whose hash costs little to make again.
pub fn keeps_hash(cache_policy: CachePolicy, first_key: &[u8], last_key: &[u8]) -> (r: bool)
    ensures
        r == (cache_policy == CachePolicy::Full || first_key@ != last_key@),
{
    match cache_policy {
        CachePolicy::Full => true,
        CachePolicy::SkipSingleton => !bytes_eq(first_key, last_key),
    }
}

/// The routing prefixes whose hashes are stale once the record of `key` has changed: all
/// prefixes of the key, from the root down to the key itself.
pub fn stale_prefixes(key: &[u8]) -> (r: Vec<Vec<u8>>)
    ensures
        r@.len() == key@.len() + 1,
        forall|i: int| 0 <= i < r@.len() ==> (#[trigger] r@[i])@ == key@.take(i),
        forall|p: Seq<u8>|
            #![trigger p.is_prefix_of(key@)]
            p.is_prefix_of(key@) <==> exists|i: int|
                0 <= i < r@.len() && (#[trigger] r@[i])@ == p,
{
    let mut out: Vec<Vec<u8>> = Vec::new();
    let mut i: usize = 0;
    while i < key.len()
        invariant
            i <= key@.len(),
            out@.len() == i,
            forall|k: int| 0 <= k < i ==> (#[trigger] out@[k])@ == key@.take(k),
        decreases key@.len() - i,
    {
        let prefix = to_vec(&key[0..i]);
        proof {
            assert(prefix@ =~= key@.take(i as int));
        }
        out.push(prefix);
        i += 1;
    }
    out.push(to_vec(key));
    proof {
        assert(key@.take(key@.len() as int) =~= key@);
    }
    proof {
        assert forall|p: Seq<u8>|
            #![trigger p.is_prefix_of(key@)]
            p.is_prefix_of(key@) <==> exists|i: int|
                0 <= i < out@.len() && (#[trigger] out@[i])@ == p by {
            if p.is_prefix_of(key@) {
                assert(out@[p.len() as int]@ == key@.take(p.len() as int));
                assert(p =~= key@.take(p.len() as int));
            }
            if exists|i: int| 0 <= i < out@.len() && (#[trigger] out@[i])@ == p {
                let i = choose|i: int| 0 <= i < out@.len() && (#[trigger] out@[i])@ == p;
                assert(p =~= key@.subrange(0, p.len() as int));
            }
        }
    }
    out
}

/// The hash of the node that routes at `depth` and whose path is the first `node_depth`
/// nibbles of `first_key`.
pub fn node_hash(
    depth: usize,
    first_key: &[u8],
    node_depth: usize,
    children: &[H256; 16],
    maybe_value: Option<&[u8]>,
) -> (r: H256)
    requires
        is_nibbles(first_key@),
        depth <= node_depth <= first_key@.len(),
    ensures
        r@ == path_merkle(
            first_key@.subrange(depth as int, node_depth as int),
            depth as nat,
            node_merkle(
                hash_bytes(children@),
                match maybe_value {
                    Some(v) => Some(v@),
                    None => None,
                },
            ),
        ),
{
    let has_children: bool = any_child(children);
    let node = compute_node_merkle(
        if has_children {
            Some(children)
        } else {
            None
        },
        maybe_value,
    );
    proof {
        let part = first_key@.subrange(depth as int, node_depth as int);
        assert forall|i: int| 0 <= i < part.len() implies #[trigger] part[i] < 16 by {
            assert(first_key@[depth + i] < 16);
        }
    }
    compute_path_merkle(&first_key[depth..node_depth], depth, node)
}

/// Whether `first` and `last` are the first and the last key of `m` under `rp`.
pub open spec fn bounds(
    m: Map<Seq<u8>, Seq<u8>>,
    rp: Seq<u8>,
    first: Seq<u8>,
    last: Seq<u8>,
) -> bool {
    &&& m.contains_key(first) && rp.is_prefix_of(first)
    &&& m.contains_key(last) && rp.is_prefix_of(last)
    &&& forall|k: Seq<u8>| #[trigger]
        m.contains_key(k) && rp.is_prefix_of(k) ==> !lex_lt(k, first) && !lex_lt(last, k)
}

/// The path that the keys under `rp` share is what the first and the last of them share.
proof fn lemma_shared_path(
    m: Map<Seq<u8>, Seq<u8>>,
    rp: Seq<u8>,
    first: Seq<u8>,
    last: Seq<u8>,
)
    requires
        m.dom().finite(),
        bounds(m, rp, first, last),
    ensures
        rp.len() <= lcp(first, last) <= first.len(),
        node_path(m, rp) == first.take(lcp(first, last) as int),
{
    let l = lcp(first, last);
    lemma_lcp(first, last);
    lemma_agree_prefix(rp, first);
    lemma_agree_prefix(rp, last);
    assert(agree(first, last, rp.len())) by {
        assert(rp =~= first.subrange(0, rp.len() as int));
        assert(rp =~= last.subrange(0, rp.len() as int));
        assert forall|i: int| 0 <= i < rp.len() implies first[i] == last[i] by {
            assert(first.subrange(0, rp.len() as int)[i] == last.subrange(0, rp.len() as int)[i]);
        }
    }
    lemma_lcp_at_least(first, last, rp.len());
    let p = first.take(l as int);
    assert(common_path(m, rp, p)) by {
        assert(rp =~= p.subrange(0, rp.len() as int)) by {
            assert(rp =~= first.subrange(0, rp.len() as int));
        }
        assert forall|k: Seq<u8>| #[trigger] m.contains_key(k) && rp.is_prefix_of(k) implies
            p.is_prefix_of(k) by {
            lemma_lex_total(first, k);
            lemma_lex_total(k, last);
            lemma_lex_between(first, k, last, l);
            assert(p =~= k.subrange(0, p.len() as int));
        }
    }
    assert(has_prefix(m, rp));
    lemma_node_path_exists(m, rp);
    let q = node_path(m, rp);
    assert(q.is_prefix_of(first) && q.is_prefix_of(last));
    assert(agree(first, last, q.len())) by {
        assert(q =~= first.subrange(0, q.len() as int));
        assert(q =~= last.subrange(0, q.len() as int));
        assert forall|i: int| 0 <= i < q.len() implies first[i] == last[i] by {
            assert(first.subrange(0, q.len() as int)[i] == last.subrange(0, q.len() as int)[i]);
        }
    }
    lemma_lcp_at_least(first, last, q.len());
    assert(q =~= first.subrange(0, q.len() as int));
    assert(q =~= p);
}

/// A node's hash follows from the first and the last key below it, its value, and the
/// hashes of its children, and the functions of this module compute it from those.
pub proof fn law_node_step(
    m: Map<Seq<u8>, Seq<u8>>,
    rp: Seq<u8>,
    first: Seq<u8>,
    last: Seq<u8>,
    compress: bool,
)
    requires
        m.dom().finite(),
        bounds(m, rp, first, last),
    ensures
        ({
            let d = if compress {
                lcp(first, last)
            } else {
                rp.len()
            };
            let full = first.take(d as int);
            &&& rp.len() <= d <= first.len()
            &&& full_path(m, rp, compress) == full
            &&& subtree_hash(m, rp, compress) == path_merkle(
                first.subrange(rp.len() as int, d as int),
                rp.len(),
                node_merkle(Seq::new(16, |c: int| slot_hash(m, full, c)), value_of(m, full)),
            )
        }),
{
    lemma_shared_path(m, rp, first, last);
    assert(has_prefix(m, rp));
    lemma_subtree_unfold(m, rp, compress);
    let d = if compress {
        lcp(first, last)
    } else {
        rp.len()
    };
    let full = first.take(d as int);
    assert(rp =~= first.subrange(0, rp.len() as int));
    assert(full_path(m, rp, compress) =~= full);
    assert(full.subrange(rp.len() as int, full.len() as int) =~= first.subrange(
        rp.len() as int,
        d as int,
    ));
}

} // verus!
