//! Merkle hashing of one layer: node hashes, compressed paths, trie roots.
use crate::bytemap::{keys_sorted, lemma_pairs_map, pairs_map, ByteMap};
use crate::bytes::{agree, append_bytes, common_len, lcp, lemma_agree_prefix, lemma_lcp, lemma_lex_lt_intro, lemma_lex_total, lex_lt, to_boxed};
use crate::block::{block_ok, block_slots, child_ranges, any_child, entry_pairs, lemma_block_path, lemma_block_value, lemma_child_block, lemma_longest, longest, range_ok, ranges_ok, EntryRef};
use crate::parallel::par_map;
use crate::types::{H256, MERKLE_NULL_NODE};
use tiny_keccak::Hasher;
use vstd::prelude::*;

verus! {

/// Number of child slots of a node.
pub const CHILDREN: usize = 16;

/// A record of a delta layer: a live value, or the mark of a deletion.
#[derive(Debug)]
pub enum MptValue {
    Live(Box<[u8]>),
    Tombstone,
}

impl View for MptValue {
    type V = Option<Seq<u8>>;

    open spec fn view(&self) -> Option<Seq<u8>> {
        match *self {
            MptValue::Live(v) => Some(v@),
            MptValue::Tombstone => None,
        }
    }
}

impl Clone for MptValue {
    fn clone(&self) -> (r: Self)
        ensures
            r@ == self@,
    {
        match self {
            MptValue::Live(v) => MptValue::Live(to_boxed(&**v)),
            MptValue::Tombstone => MptValue::Tombstone,
        }
    }
}

/// The bytes that a record contributes to its node's hash: none for a tombstone.
pub open spec fn merkle_bytes(v: Option<Seq<u8>>) -> Seq<u8> {
    match v {
        Some(b) => b,
        None => Seq::empty(),
    }
}

impl MptValue {
    /// The live value, or nothing for a tombstone.
    pub fn visible_value(&self) -> (r: Option<&[u8]>)
        ensures
            match r {
                Some(b) => self@ == Some(b@),
                None => self@ == None::<Seq<u8>>,
            },
    {
        match self {
            MptValue::Live(v) => Some(&**v),
            MptValue::Tombstone => None,
        }
    }

    /// The bytes that the record contributes to its node's hash.
    pub(crate) fn merkle_value(&self) -> (r: &[u8])
        ensures
            r@ == merkle_bytes(self@),
    {
        match self {
            MptValue::Live(v) => &**v,
            MptValue::Tombstone => &[],
        }
    }

    /// Whether this is a tombstone.
    pub fn is_tombstone(&self) -> (r: bool)
        ensures
            r == (self@ is None),
    {
        matches!(self, MptValue::Tombstone)
    }
}

/// The Keccak-256 digest of `data`.
pub uninterp spec fn keccak_digest(data: Seq<u8>) -> [u8; 32];

/// The Keccak-256 digest of `data` as a byte string.
pub open spec fn keccak256(data: Seq<u8>) -> Seq<u8> {
    keccak_digest(data)@
}

/// Keccak-256 as `tiny_keccak::Keccak::v256` computes it: one `update` with the
/// data, then `finalize` into 32 bytes. The digest depends on the data alone.
#[verifier::external_body]
pub fn keccak(data: &[u8]) -> (r: H256)
    ensures
        r.0 == keccak_digest(data@),
{
    let mut out = [0u8; 32];
    let mut hasher = tiny_keccak::Keccak::v256();
    hasher.update(data);
    hasher.finalize(&mut out);
    H256(out)
}

/// The hash of an empty trie or an empty child slot.
pub open spec fn null_hash() -> Seq<u8> {
    MERKLE_NULL_NODE@
}

/// Every element is below 16.
pub open spec fn is_nibbles(n: Seq<u8>) -> bool {
    forall|i: int| 0 <= i < n.len() ==> #[trigger] n[i] < 16
}

/// The nibbles of a byte string: of each byte the high half, then the low half.
#[verifier::opaque]
pub open spec fn nibbles(s: Seq<u8>) -> Seq<u8> {
    Seq::new(
        2 * s.len(),
        |i: int|
            if i % 2 == 0 {
                (s[i / 2] / 16) as u8
            } else {
                (s[i / 2] % 16) as u8
            },
    )
}

/// The bytes that pairs of nibbles form; a last unpaired nibble is dropped.
#[verifier::opaque]
pub open spec fn from_nibbles(n: Seq<u8>) -> Seq<u8> {
    Seq::new(n.len() / 2, |i: int| (n[2 * i] * 16 + n[2 * i + 1]) as u8)
}

/// Nibbles packed two to a byte; a last unpaired nibble gets a zero low half.
pub open spec fn pack_nibbles(n: Seq<u8>) -> Seq<u8> {
    Seq::new(
        (n.len() + 1) / 2,
        |i: int|
            (n[2 * i] * 16 + if 2 * i + 1 < n.len() {
                n[2 * i + 1] as int
            } else {
                0int
            }) as u8,
    )
}

/// A compressed path as bytes. A path that starts at an odd depth has its first
/// nibble in a byte of its own.
pub open spec fn compressed(path: Seq<u8>, skip_first: bool) -> Seq<u8> {
    if skip_first {
        seq![path[0]] + pack_nibbles(path.drop_first())
    } else {
        pack_nibbles(path)
    }
}

/// The byte that describes a compressed path of `len` nibbles from depth `start`.
pub open spec fn path_info(len: nat, start: nat) -> u8 {
    (128 + 64 * (start % 2) + len % 63) as u8
}

/// The final hash of a node whose core hash is `core`, reached by `path` from
/// depth `start`.
pub open spec fn path_merkle(path: Seq<u8>, start: nat, core: Seq<u8>) -> Seq<u8> {
    if path.len() == 0 {
        core
    } else {
        keccak256(seq![path_info(path.len(), start)] + compressed(path, start % 2 == 1) + core)
    }
}

/// The parts one after another.
pub open spec fn concat(parts: Seq<Seq<u8>>) -> Seq<u8>
    decreases parts.len(),
{
    if parts.len() == 0 {
        Seq::empty()
    } else {
        concat(parts.drop_last()) + parts.last()
    }
}

/// The core hash of a node: its sixteen child slots, and the value that ends here.
/// A tombstone ends here with no bytes, which is not the same as no value.
pub open spec fn node_merkle(children: Seq<Seq<u8>>, value: Option<Seq<u8>>) -> Seq<u8> {
    keccak256(
        seq![0x6eu8] + concat(children) + match value {
            Some(v) => seq![0x76u8] + v,
            None => Seq::empty(),
        },
    )
}

/// Some key of `m` starts with `p`.
pub open spec fn has_prefix(m: Map<Seq<u8>, Seq<u8>>, p: Seq<u8>) -> bool {
    exists|k: Seq<u8>| #[trigger] m.contains_key(k) && p.is_prefix_of(k)
}

/// `p` extends `rp`, and every key under `rp` starts with `p`.
pub open spec fn common_path(m: Map<Seq<u8>, Seq<u8>>, rp: Seq<u8>, p: Seq<u8>) -> bool {
    &&& rp.is_prefix_of(p)
    &&& forall|k: Seq<u8>| #[trigger] m.contains_key(k) && rp.is_prefix_of(k) ==> p.is_prefix_of(k)
}

/// The longest path that all keys under `rp` share.
pub open spec fn node_path(m: Map<Seq<u8>, Seq<u8>>, rp: Seq<u8>) -> Seq<u8> {
    choose|p: Seq<u8>|
        #[trigger] common_path(m, rp, p) && forall|q: Seq<u8>| #[trigger]
            common_path(m, rp, q) ==> q.len() <= p.len()
}

/// A bound on the length of the keys of `m`.
pub open spec fn key_bound(m: Map<Seq<u8>, Seq<u8>>) -> nat {
    choose|n: nat| keys_within(m, n)
}

pub open spec fn keys_within(m: Map<Seq<u8>, Seq<u8>>, n: nat) -> bool {
    forall|k: Seq<u8>| #[trigger] m.contains_key(k) ==> k.len() <= n
}

/// The path from the root to the node that stands at `rp`: with path compression
/// it takes in every nibble that all keys below share.
pub open spec fn full_path(m: Map<Seq<u8>, Seq<u8>>, rp: Seq<u8>, compress: bool) -> Seq<u8> {
    if compress {
        node_path(m, rp)
    } else {
        rp
    }
}

/// The hash of the node that holds the keys of `m` under `rp`.
///
/// `m` maps nibble strings to the bytes they contribute. The recursion runs over
/// the nibbles, none of which goes beyond the longest key.
pub open spec fn subtree_hash(m: Map<Seq<u8>, Seq<u8>>, rp: Seq<u8>, compress: bool) -> Seq<u8>
    decreases key_bound(m) - rp.len(), 1nat,
{
    let full = full_path(m, rp, compress);
    path_merkle(
        full.subrange(rp.len() as int, full.len() as int),
        rp.len(),
        node_merkle(subtree_slots(m, rp, full), value_of(m, full)),
    )
}

/// The hashes in the child slots of the node at `rp` whose path is `full`.
pub open spec fn subtree_slots(m: Map<Seq<u8>, Seq<u8>>, rp: Seq<u8>, full: Seq<u8>) -> Seq<Seq<u8>>
    decreases key_bound(m) - rp.len(), 0nat,
{
    Seq::new(
        16,
        |c: int|
            if rp.len() <= full.len() < key_bound(m) && has_prefix(m, full.push(c as u8)) {
                subtree_hash(m, full.push(c as u8), true)
            } else {
                null_hash()
            },
    )
}

/// What `m` holds under the key `k`.
pub open spec fn value_of(m: Map<Seq<u8>, Seq<u8>>, k: Seq<u8>) -> Option<Seq<u8>> {
    if m.contains_key(k) {
        Some(m[k])
    } else {
        None
    }
}

/// The hash in child slot `c` of the node whose path is `full`.
pub open spec fn slot_hash(m: Map<Seq<u8>, Seq<u8>>, full: Seq<u8>, c: int) -> Seq<u8> {
    if has_prefix(m, full.push(c as u8)) {
        subtree_hash(m, full.push(c as u8), true)
    } else {
        null_hash()
    }
}

/// The nibble-keyed map of the bytes that the records of a layer contribute.
pub open spec fn nibble_map(m: Map<Seq<u8>, Option<Seq<u8>>>) -> Map<Seq<u8>, Seq<u8>> {
    Map::new(
        |n: Seq<u8>| n == nibbles(from_nibbles(n)) && m.contains_key(from_nibbles(n)),
        |n: Seq<u8>| merkle_bytes(m[from_nibbles(n)]),
    )
}

/// The Merkle root of a layer. The root node has no compressed path.
pub open spec fn layer_root(m: Map<Seq<u8>, Option<Seq<u8>>>) -> Seq<u8> {
    if m == Map::<Seq<u8>, Option<Seq<u8>>>::empty() {
        null_hash()
    } else {
        subtree_hash(nibble_map(m), Seq::empty(), false)
    }
}

pub proof fn lemma_key_bound(m: Map<Seq<u8>, Seq<u8>>)
    requires
        m.dom().finite(),
    ensures
        keys_within(m, key_bound(m)),
{
    lemma_some_bound(m);
}

proof fn lemma_some_bound(m: Map<Seq<u8>, Seq<u8>>)
    requires
        m.dom().finite(),
    ensures
        exists|n: nat| keys_within(m, n),
    decreases m.dom().len(),
{
    if m.dom().len() == 0 {
        assert(keys_within(m, 0));
    } else {
        let k = m.dom().choose();
        assert(m.dom().contains(k));
        let m1 = m.remove(k);
        lemma_some_bound(m1);
        let n = choose|n: nat| keys_within(m1, n);
        let b = if n < k.len() {
            k.len()
        } else {
            n
        };
        assert forall|q: Seq<u8>| #[trigger] m.contains_key(q) implies q.len() <= b by {
            if q != k {
                assert(m1.contains_key(q));
            }
        }
        assert(keys_within(m, b));
    }
}

/// The longest shared path under `rp` exists: it is the common path of maximal length.
pub proof fn lemma_node_path_unique(m: Map<Seq<u8>, Seq<u8>>, rp: Seq<u8>, p: Seq<u8>)
    requires
        has_prefix(m, rp),
        common_path(m, rp, p),
        forall|q: Seq<u8>| #[trigger] common_path(m, rp, q) ==> q.len() <= p.len(),
    ensures
        node_path(m, rp) == p,
{
    let r = node_path(m, rp);
    assert(common_path(m, rp, r));
    let k = choose|k: Seq<u8>| #[trigger] m.contains_key(k) && rp.is_prefix_of(k);
    assert(r.is_prefix_of(k) && p.is_prefix_of(k));
    assert(r.len() == p.len());
    assert(r =~= p);
}

pub proof fn lemma_node_path_exists(m: Map<Seq<u8>, Seq<u8>>, rp: Seq<u8>)
    requires
        has_prefix(m, rp),
    ensures
        common_path(m, rp, node_path(m, rp)),
        forall|q: Seq<u8>| #[trigger]
            common_path(m, rp, q) ==> q.len() <= node_path(m, rp).len(),
{
    let k = choose|k: Seq<u8>| #[trigger] m.contains_key(k) && rp.is_prefix_of(k);
    assert(common_path(m, rp, rp)) by {
        assert(rp =~= rp.subrange(0, rp.len() as int));
    }
    lemma_longest_common_path(m, rp, rp, k);
}

proof fn lemma_longest_common_path(m: Map<Seq<u8>, Seq<u8>>, rp: Seq<u8>, p: Seq<u8>, k: Seq<u8>)
    requires
        m.contains_key(k),
        rp.is_prefix_of(k),
        common_path(m, rp, p),
    ensures
        exists|r: Seq<u8>| #[trigger]
            common_path(m, rp, r) && forall|q: Seq<u8>| #[trigger]
                common_path(m, rp, q) ==> q.len() <= r.len(),
    decreases k.len() - p.len(),
{
    assert(p.is_prefix_of(k));
    if forall|q: Seq<u8>| #[trigger] common_path(m, rp, q) ==> q.len() <= p.len() {
    } else {
        let q = choose|q: Seq<u8>| #[trigger] common_path(m, rp, q) && q.len() > p.len();
        assert(q.is_prefix_of(k));
        lemma_longest_common_path(m, rp, q, k);
    }
}

/// One step of `subtree_hash`, over the slots of the node.
pub proof fn lemma_subtree_unfold(m: Map<Seq<u8>, Seq<u8>>, rp: Seq<u8>, compress: bool)
    requires
        m.dom().finite(),
        has_prefix(m, rp),
    ensures
        ({
            let full = full_path(m, rp, compress);
            &&& rp.is_prefix_of(full)
            &&& full.len() <= key_bound(m)
            &&& subtree_hash(m, rp, compress) == path_merkle(
                full.subrange(rp.len() as int, full.len() as int),
                rp.len(),
                node_merkle(Seq::new(16, |c: int| slot_hash(m, full, c)), value_of(m, full)),
            )
        }),
{
    let full = full_path(m, rp, compress);
    lemma_key_bound(m);
    lemma_node_path_exists(m, rp);
    assert(rp =~= rp.subrange(0, rp.len() as int));
    let k = choose|k: Seq<u8>| #[trigger] m.contains_key(k) && rp.is_prefix_of(k);
    assert(full.is_prefix_of(k));
    let guarded = subtree_slots(m, rp, full);
    assert forall|c: int| 0 <= c < 16 implies #[trigger] guarded[c] == slot_hash(m, full, c) by {
        if has_prefix(m, full.push(c as u8)) {
            let q = choose|q: Seq<u8>| #[trigger]
                m.contains_key(q) && full.push(c as u8).is_prefix_of(q);
            assert(q.len() >= full.len() + 1);
        }
    }
    assert(guarded =~= Seq::new(16, |c: int| slot_hash(m, full, c)));
}

/// `m1` and `m2` hold the same under `rp`.
pub open spec fn same_under(
    m1: Map<Seq<u8>, Seq<u8>>,
    m2: Map<Seq<u8>, Seq<u8>>,
    rp: Seq<u8>,
) -> bool {
    forall|k: Seq<u8>|
        rp.is_prefix_of(k) ==> (#[trigger] m1.contains_key(k) <==> m2.contains_key(k)) && (
        m1.contains_key(k) ==> m1[k] == m2[k])
}

pub proof fn lemma_prefix_trans(a: Seq<u8>, b: Seq<u8>, c: Seq<u8>)
    requires
        a.is_prefix_of(b),
        b.is_prefix_of(c),
    ensures
        a.is_prefix_of(c),
{
    assert(a =~= c.subrange(0, a.len() as int)) by {
        assert forall|i: int| 0 <= i < a.len() implies a[i] == c[i] by {
            assert(a[i] == b.subrange(0, a.len() as int)[i]);
            assert(b[i] == c.subrange(0, b.len() as int)[i]);
        }
    }
}

pub proof fn lemma_same_under_narrow(
    m1: Map<Seq<u8>, Seq<u8>>,
    m2: Map<Seq<u8>, Seq<u8>>,
    rp: Seq<u8>,
    p: Seq<u8>,
)
    requires
        same_under(m1, m2, rp),
        rp.is_prefix_of(p),
    ensures
        same_under(m1, m2, p),
        has_prefix(m1, p) <==> has_prefix(m2, p),
{
    assert forall|k: Seq<u8>| p.is_prefix_of(k) implies (#[trigger] m1.contains_key(k)
        <==> m2.contains_key(k)) && (m1.contains_key(k) ==> m1[k] == m2[k]) by {
        lemma_prefix_trans(rp, p, k);
    }
    if has_prefix(m1, p) {
        let k = choose|k: Seq<u8>| #[trigger] m1.contains_key(k) && p.is_prefix_of(k);
        assert(m2.contains_key(k));
    }
    if has_prefix(m2, p) {
        let k = choose|k: Seq<u8>| #[trigger] m2.contains_key(k) && p.is_prefix_of(k);
        assert(m1.contains_key(k));
    }
}

/// The path of a node depends only on what lies under its routing prefix.
pub proof fn lemma_full_path_local(
    m1: Map<Seq<u8>, Seq<u8>>,
    m2: Map<Seq<u8>, Seq<u8>>,
    rp: Seq<u8>,
    compress: bool,
)
    requires
        has_prefix(m1, rp),
        same_under(m1, m2, rp),
    ensures
        has_prefix(m2, rp),
        full_path(m1, rp, compress) == full_path(m2, rp, compress),
        rp.is_prefix_of(full_path(m1, rp, compress)),
{
    assert(rp.is_prefix_of(rp)) by {
        assert(rp =~= rp.subrange(0, rp.len() as int));
    }
    lemma_same_under_narrow(m1, m2, rp, rp);
    lemma_node_path_exists(m1, rp);
    let p = node_path(m1, rp);
    assert forall|q: Seq<u8>| #[trigger]
        common_path(m2, rp, q) implies common_path(m1, rp, q) by {
        assert forall|k: Seq<u8>| #[trigger] m1.contains_key(k) && rp.is_prefix_of(k) implies
            q.is_prefix_of(k) by {
            assert(m2.contains_key(k));
        }
    }
    assert(common_path(m2, rp, p)) by {
        assert forall|k: Seq<u8>| #[trigger] m2.contains_key(k) && rp.is_prefix_of(k) implies
            p.is_prefix_of(k) by {
            assert(m1.contains_key(k));
        }
    }
    lemma_node_path_unique(m2, rp, p);
}

/// The hash of a subtree depends only on what lies under its routing prefix.
pub proof fn lemma_subtree_local(
    m1: Map<Seq<u8>, Seq<u8>>,
    m2: Map<Seq<u8>, Seq<u8>>,
    rp: Seq<u8>,
    compress: bool,
)
    requires
        m1.dom().finite(),
        m2.dom().finite(),
        has_prefix(m1, rp),
        same_under(m1, m2, rp),
    ensures
        has_prefix(m2, rp),
        subtree_hash(m1, rp, compress) == subtree_hash(m2, rp, compress),
    decreases key_bound(m1) + 1 - rp.len(),
{
    lemma_full_path_local(m1, m2, rp, compress);
    lemma_key_bound(m1);
    let full = full_path(m1, rp, compress);
    assert(full == full_path(m2, rp, compress));
    assert(rp.is_prefix_of(full));
    lemma_subtree_unfold(m1, rp, compress);
    lemma_subtree_unfold(m2, rp, compress);
    let c1 = Seq::new(16, |c: int| slot_hash(m1, full, c));
    let c2 = Seq::new(16, |c: int| slot_hash(m2, full, c));
    assert forall|c: int| 0 <= c < 16 implies #[trigger] c1[c] == c2[c] by {
        let child = full.push(c as u8);
        assert(full.is_prefix_of(child)) by {
            assert(full =~= child.subrange(0, full.len() as int));
        }
        lemma_prefix_trans(rp, full, child);
        lemma_same_under_narrow(m1, m2, rp, child);
        if has_prefix(m1, child) {
            let k = choose|k: Seq<u8>| #[trigger] m1.contains_key(k) && child.is_prefix_of(k);
            assert(k.len() >= child.len());
            lemma_subtree_local(m1, m2, child, true);
        }
    }
    assert(c1 =~= c2);
    assert(value_of(m1, full) == value_of(m2, full));
}

/// The nibbles of a byte string are nibbles, and give the string back.
pub proof fn lemma_nibbles(s: Seq<u8>)
    ensures
        is_nibbles(nibbles(s)),
        from_nibbles(nibbles(s)) == s,
        nibbles(s).len() == 2 * s.len(),
{
    reveal(nibbles);
    reveal(from_nibbles);
    let n = nibbles(s);
    assert forall|i: int| 0 <= i < n.len() implies #[trigger] n[i] < 16 by {
        let b = s[i / 2];
    }
    assert forall|i: int| 0 <= i < s.len() implies from_nibbles(n)[i] == s[i] by {
        assert((2 * i) / 2 == i && (2 * i + 1) / 2 == i && (2 * i) % 2 == 0 && (2 * i + 1) % 2 == 1);
        let b = s[i];
        assert(n[2 * i] == b / 16);
        assert(n[2 * i + 1] == b % 16);
    }
    assert(from_nibbles(n) =~= s);
}

/// Splitting into nibbles keeps common prefixes and their ends.
proof fn lemma_nibbles_agree(a: Seq<u8>, b: Seq<u8>, n: nat)
    requires
        agree(a, b, n),
    ensures
        agree(nibbles(a), nibbles(b), 2 * n),
{
    reveal(nibbles);
    assert forall|i: int| 0 <= i < 2 * n implies nibbles(a)[i] == nibbles(b)[i] by {
        assert(a[i / 2] == b[i / 2]);
    }
}

/// Splitting into nibbles keeps the order.
pub proof fn lemma_nibbles_lex(a: Seq<u8>, b: Seq<u8>)
    requires
        lex_lt(a, b),
    ensures
        lex_lt(nibbles(a), nibbles(b)),
{
    reveal(nibbles);
    lemma_lcp(a, b);
    let l = lcp(a, b);
    lemma_nibbles_agree(a, b, l);
    let na = nibbles(a);
    let nb = nibbles(b);
    if l == a.len() {
        lemma_lex_lt_intro(na, nb, 2 * l);
    } else {
        let x = a[l as int];
        let y = b[l as int];
        assert(na[2 * (l as int)] == x / 16);
        assert(nb[2 * (l as int)] == y / 16);
        assert(na[2 * (l as int) + 1] == x % 16);
        assert(nb[2 * (l as int) + 1] == y % 16);
        if x / 16 < y / 16 {
            lemma_lex_lt_intro(na, nb, 2 * l);
        } else {
            assert(x / 16 == y / 16 && x % 16 < y % 16);
            lemma_lex_lt_intro(na, nb, 2 * l + 1);
        }
    }
}

/// The order of byte strings is that of their nibbles.
pub proof fn lemma_nibbles_lex_back(a: Seq<u8>, b: Seq<u8>)
    requires
        lex_lt(nibbles(a), nibbles(b)),
    ensures
        lex_lt(a, b),
{
    lemma_lex_total(a, b);
    lemma_lex_total(nibbles(a), nibbles(b));
    if lex_lt(b, a) {
        lemma_nibbles_lex(b, a);
    }
}

/// A byte string is a prefix of another exactly where its nibbles are.
pub proof fn lemma_nibbles_prefix(p: Seq<u8>, s: Seq<u8>)
    ensures
        p.is_prefix_of(s) <==> nibbles(p).is_prefix_of(nibbles(s)),
{
    reveal(nibbles);
    reveal(from_nibbles);
    lemma_agree_prefix(p, s);
    lemma_agree_prefix(nibbles(p), nibbles(s));
    if p.is_prefix_of(s) {
        lemma_nibbles_agree(p, s, p.len());
    }
    if agree(nibbles(p), nibbles(s), nibbles(p).len()) {
        lemma_nibbles(p);
        lemma_nibbles(s);
        assert forall|i: int| 0 <= i < p.len() implies p[i] == s[i] by {
            assert(nibbles(p)[2 * i] == nibbles(s)[2 * i]);
            assert(nibbles(p)[2 * i + 1] == nibbles(s)[2 * i + 1]);
            assert(from_nibbles(nibbles(p))[i] == p[i]);
            assert(from_nibbles(nibbles(s))[i] == s[i]);
        }
    }
}

/// The nibbles of `bytes`.
pub fn bytes_to_nibbles(bytes: &[u8]) -> (out: Vec<u8>)
    ensures
        out@ == nibbles(bytes@),
{
    reveal(nibbles);
    let mut out: Vec<u8> = Vec::new();
    let mut i: usize = 0;
    while i < bytes.len()
        invariant
            i <= bytes.len(),
            out@ == nibbles(bytes@.take(i as int)),
        decreases bytes.len() - i,
    {
        let b: u8 = bytes[i];
        proof {
            assert(b >> 4 == b / 16 && b & 0x0f == b % 16) by (bit_vector);
        }
        out.push(b >> 4);
        out.push(b & 0x0f);
        i += 1;
        proof {
            reveal(nibbles);
            assert(out@ =~= nibbles(bytes@.take(i as int)));
        }
    }
    proof {
        assert(bytes@.take(i as int) =~= bytes@);
    }
    out
}

/// The byte whose halves are two nibbles.
fn join_nibbles(hi: u8, lo: u8) -> (r: u8)
    requires
        hi < 16,
        lo < 16,
    ensures
        r == hi * 16 + lo,
{
    proof {
        assert((hi << 4) | lo == hi * 16 + lo) by (bit_vector)
            requires
                hi < 16,
                lo < 16,
        ;
    }
    (hi << 4) | lo
}

/// The bytes that pairs of nibbles form.
pub fn nibbles_to_bytes(n: &[u8]) -> (out: Vec<u8>)
    requires
        is_nibbles(n@),
    ensures
        out@ == from_nibbles(n@),
{
    reveal(from_nibbles);
    let mut out: Vec<u8> = Vec::new();
    let mut i: usize = 0;
    while i < n.len() / 2
        invariant
            i <= n.len() / 2,
            is_nibbles(n@),
            out@ == from_nibbles(n@).take(i as int),
        decreases n.len() / 2 - i,
    {
        out.push(join_nibbles(n[2 * i], n[2 * i + 1]));
        i += 1;
        proof {
            reveal(from_nibbles);
            assert(out@ =~= from_nibbles(n@).take(i as int));
        }
    }
    proof {
        assert(from_nibbles(n@).take(i as int) =~= from_nibbles(n@));
    }
    out
}

fn compress_nibbles(nibbles: &[u8], without_first_nibble: bool) -> (out: Vec<u8>)
    requires
        is_nibbles(nibbles@),
        nibbles.len() > 0,
    ensures
        out@ == compressed(nibbles@, without_first_nibble),
{
    let mut out: Vec<u8> = Vec::new();
    let mut i: usize = 0;
    if without_first_nibble {
        out.push(nibbles[0]);
        i = 1;
    }
    let ghost first: int = i as int;
    let ghost rest = nibbles@.subrange(first, nibbles@.len() as int);
    let ghost head = out@;
    proof {
        assert(head =~= if without_first_nibble { seq![nibbles@[0]] } else { Seq::empty() });
        assert(head + pack_nibbles(rest).take(0) =~= out@);
    }
    while i < nibbles.len()
        invariant
            is_nibbles(nibbles@),
            first == if without_first_nibble { 1int } else { 0 },
            head =~= if without_first_nibble { seq![nibbles@[0]] } else { Seq::empty() },
            first <= i <= nibbles@.len(),
            (i - first) % 2 == 0,
            rest == nibbles@.subrange(first, nibbles@.len() as int),
            (i - first) / 2 <= pack_nibbles(rest).len(),
            out@ == head + pack_nibbles(rest).take((i - first) / 2),
        decreases nibbles.len() + 1 - i,
    {
        let lo: u8 = if i < nibbles.len() - 1 {
            nibbles[i + 1]
        } else {
            0
        };
        let ghost j = (i - first) / 2;
        let b: u8 = join_nibbles(nibbles[i], lo);
        proof {
            assert(rest[2 * j] == nibbles@[i as int]);
            assert(b == pack_nibbles(rest)[j]);
            assert(pack_nibbles(rest).take(j + 1) =~= pack_nibbles(rest).take(j).push(b));
        }
        out.push(b);
        if i < nibbles.len() - 1 {
            i += 2;
        } else {
            proof {
                assert(pack_nibbles(rest).len() == j + 1);
                assert(pack_nibbles(rest).take(j + 1) =~= pack_nibbles(rest));
                assert(rest =~= if without_first_nibble { nibbles@.drop_first() } else { nibbles@ });
                assert(out@ =~= compressed(nibbles@, without_first_nibble));
            }
            return out;
        }
    }
    proof {
        assert(i == nibbles@.len());
        assert(pack_nibbles(rest).take((i - first) / 2) =~= pack_nibbles(rest));
        assert(rest =~= if without_first_nibble { nibbles@.drop_first() } else { nibbles@ });
        assert(out@ =~= compressed(nibbles@, without_first_nibble));
    }
    out
}

/// The bytes of each hash.
pub open spec fn hash_bytes(hashes: Seq<H256>) -> Seq<Seq<u8>> {
    Seq::new(hashes.len(), |i: int| hashes[i]@)
}

/// The hashes of sixteen empty child slots.
pub open spec fn empty_slots() -> Seq<Seq<u8>> {
    Seq::new(16, |i: int| null_hash())
}

/// Sixteen empty child slots.
pub(crate) fn null_slots() -> (r: [H256; 16])
    ensures
        hash_bytes(r@) == empty_slots(),
        forall|c: int| 0 <= c < 16 ==> (#[trigger] r@[c])@ == null_hash(),
{
    let null = H256(MERKLE_NULL_NODE);
    let r: [H256; 16] = [
        null, null, null, null, null, null, null, null, null, null, null, null, null, null, null,
        null,
    ];
    proof {
        assert(hash_bytes(r@) =~= empty_slots());
    }
    r
}

/// The core hash of a node.
pub(crate) fn compute_node_merkle(
    children_merkles: Option<&[H256; 16]>,
    maybe_value: Option<&[u8]>,
) -> (r: H256)
    ensures
        r@ == node_merkle(
            match children_merkles {
                Some(c) => hash_bytes(c@),
                None => empty_slots(),
            },
            match maybe_value {
                Some(v) => Some(v@),
                None => None,
            },
        ),
{
    let empty: [H256; 16] = null_slots();
    let children: &[H256; 16] = match children_merkles {
        Some(c) => c,
        None => &empty,
    };
    let ghost slots = hash_bytes(children@);
    proof {
        if children_merkles is None {
            assert(slots =~= empty_slots());
        }
    }
    let mut buffer: Vec<u8> = Vec::new();
    buffer.push(0x6e);
    let mut i: usize = 0;
    proof {
        assert(slots.take(0) =~= Seq::empty());
        assert(buffer@ =~= seq![0x6eu8] + concat(slots.take(0)));
    }
    while i < 16
        invariant
            i <= 16,
            slots == hash_bytes(children@),
            buffer@ == seq![0x6eu8] + concat(slots.take(i as int)),
        decreases 16 - i,
    {
        append_bytes(&mut buffer, &children[i].0);
        i += 1;
        proof {
            assert(slots.take(i as int).drop_last() =~= slots.take(i - 1));
            assert(slots.take(i as int).last() == children@[i - 1]@);
            assert(buffer@ =~= seq![0x6eu8] + concat(slots.take(i as int)));
        }
    }
    proof {
        assert(slots.take(16) =~= slots);
    }
    match maybe_value {
        Some(value) => {
            buffer.push(0x76);
            append_bytes(&mut buffer, value);
            proof {
                assert(buffer@ =~= seq![0x6eu8] + concat(slots) + (seq![0x76u8] + value@));
            }
        },
        None => {
            proof {
                assert(buffer@ =~= seq![0x6eu8] + concat(slots) + Seq::<u8>::empty());
            }
        },
    }
    keccak(buffer.as_slice())
}

/// The final hash of a node with its compressed path taken in.
pub(crate) fn compute_path_merkle(path_nibbles: &[u8], start_depth: usize, node_merkle: H256) -> (r:
    H256)
    requires
        is_nibbles(path_nibbles@),
    ensures
        r@ == path_merkle(path_nibbles@, start_depth as nat, node_merkle@),
{
    if path_nibbles.len() == 0 {
        return node_merkle;
    }
    let without_first_nibble: bool = start_depth % 2 == 1;
    let compressed_path = compress_nibbles(path_nibbles, without_first_nibble);
    let info: u8 = 128 + (if without_first_nibble {
        64u8
    } else {
        0u8
    }) + (path_nibbles.len() % 63) as u8;
    let mut buffer: Vec<u8> = Vec::new();
    buffer.push(info);
    append_bytes(&mut buffer, compressed_path.as_slice());
    append_bytes(&mut buffer, &node_merkle.0);
    proof {
        assert(info == path_info(path_nibbles@.len(), start_depth as nat));
        assert(buffer@ =~= seq![info] + compressed_path@ + node_merkle@);
    }
    keccak(buffer.as_slice())
}

/// A block of this many entries or more has its children hashed in parallel.
const PARALLEL_HASH_THRESHOLD: usize = 4096;

/// The Merkle root of the records in `kv`.
pub fn trie_root(kv: &ByteMap<MptValue>) -> (r: H256)
    requires
        kv.wf(),
    ensures
        r@ == layer_root(kv@),
{
    proof {
        kv.lemma_view();
    }
    if kv.is_empty() {
        return H256(MERKLE_NULL_NODE);
    }
    let n: usize = kv.len();
    let mut keys: Vec<Vec<u8>> = Vec::new();
    let mut i: usize = 0;
    while i < n
        invariant
            i <= n,
            n == kv.pairs().len(),
            keys@.len() == i,
            forall|j: int| 0 <= j < i ==> (#[trigger] keys@[j])@ == nibbles(kv.pairs()[j].0),
        decreases n - i,
    {
        keys.push(bytes_to_nibbles(kv.key_at(i).as_slice()));
        i += 1;
    }
    let mut entries: Vec<EntryRef<'_>> = Vec::new();
    let mut i: usize = 0;
    while i < n
        invariant
            i <= n,
            n == kv.pairs().len(),
            keys@.len() == n,
            entries@.len() == i,
            forall|j: int| 0 <= j < i ==> (#[trigger] entries@[j]).key@ == keys@[j]@ && entries@[j].value@
                == kv.pairs()[j].1,
        decreases n - i,
    {
        entries.push(EntryRef { key: keys[i].as_slice(), value: kv.value_at(i) });
        i += 1;
    }
    proof {
        let s = entry_pairs(entries@);
        assert(s =~= merkle_pairs(kv.pairs())) by {
            assert forall|j: int| 0 <= j < n implies s[j] == merkle_pairs(kv.pairs())[j] by {
                assert(entries@[j].key@ == keys@[j]@);
                assert(keys@[j]@ == nibbles(kv.pairs()[j].0));
            }
        }
        lemma_merkle_pairs(kv.pairs());
        assert(s[0].0.take(0) =~= Seq::empty());
    }
    root_for_entries(entries.as_slice())
}

/// The nibble keys of a layer's records with the bytes they contribute.
pub open spec fn merkle_pairs(s: Seq<(Seq<u8>, Option<Seq<u8>>)>) -> Seq<(Seq<u8>, Seq<u8>)> {
    Seq::new(s.len(), |i: int| (nibbles(s[i].0), merkle_bytes(s[i].1)))
}

/// The sorted records of a layer make a block whose map is the layer's nibble map.
pub proof fn lemma_merkle_pairs(s: Seq<(Seq<u8>, Option<Seq<u8>>)>)
    requires
        keys_sorted(s),
    ensures
        keys_sorted(merkle_pairs(s)),
        s.len() > 0 ==> block_ok(merkle_pairs(s), 0),
        pairs_map(merkle_pairs(s)) == nibble_map(pairs_map(s)),
        nibble_map(pairs_map(s)).dom().finite(),
{
    let t = merkle_pairs(s);
    assert forall|i: int, j: int| 0 <= i < j < t.len() implies lex_lt(t[i].0, t[j].0) by {
        assert(lex_lt(s[i].0, s[j].0));
        lemma_nibbles_lex(s[i].0, s[j].0);
    }
    assert forall|i: int| 0 <= i < t.len() implies is_nibbles((#[trigger] t[i]).0) by {
        lemma_nibbles(s[i].0);
    }
    lemma_pairs_map(s);
    lemma_pairs_map(t);
    let m = nibble_map(pairs_map(s));
    assert forall|n: Seq<u8>| pairs_map(t).contains_key(n) == m.contains_key(n) by {
        if pairs_map(t).contains_key(n) {
            let i = choose|i: int| 0 <= i < t.len() && (#[trigger] t[i]).0 == n;
            lemma_nibbles(s[i].0);
            assert(pairs_map(s).contains_key(s[i].0));
        }
        if m.contains_key(n) {
            let i = choose|i: int| 0 <= i < s.len() && (#[trigger] s[i]).0 == from_nibbles(n);
            assert(t[i].0 == n);
            assert(pairs_map(t).contains_key(t[i].0));
        }
    }
    assert forall|n: Seq<u8>| #[trigger] pairs_map(t).contains_key(n) implies pairs_map(t)[n]
        == m[n] by {
        let i = choose|i: int| 0 <= i < t.len() && (#[trigger] t[i]).0 == n;
        lemma_nibbles(s[i].0);
        assert(pairs_map(t)[t[i].0] == t[i].1);
        assert(pairs_map(s)[s[i].0] == s[i].1);
    }
    assert(pairs_map(t) =~= m);
}

fn root_for_entries(entries: &[EntryRef<'_>]) -> (r: H256)
    requires
        entries.len() > 0 ==> block_ok(entry_pairs(entries@), 0),
    ensures
        r@ == if entries.len() == 0 {
            null_hash()
        } else {
            subtree_hash(pairs_map(entry_pairs(entries@)), Seq::empty(), false)
        },
{
    if entries.len() == 0 {
        return H256(MERKLE_NULL_NODE);
    }
    proof {
        assert(entry_pairs(entries@)[0].0.take(0) =~= Seq::empty());
    }
    merkle_for_node(entries, 0, entries.len() >= PARALLEL_HASH_THRESHOLD, false)
}

/// The hash of the node of a block whose keys share their first `depth` nibbles.
fn merkle_for_node(
    entries: &[EntryRef<'_>],
    depth: usize,
    parallel: bool,
    allow_path_compression: bool,
) -> (r: H256)
    requires
        block_ok(entry_pairs(entries@), depth as nat),
    ensures
        r@ == subtree_hash(
            pairs_map(entry_pairs(entries@)),
            entries@[0].key@.take(depth as int),
            allow_path_compression,
        ),
    decreases longest(entry_pairs(entries@)) + 1 - depth,
{
    let ghost s = entry_pairs(entries@);
    proof {
        lemma_block_path(s, depth as nat);
        assert(s[0].0 == entries@[0].key@);
        assert(s.last().0 == entries@[entries@.len() - 1].key@);
        lemma_longest(s);
        assert(s[0].0.len() <= longest(s));
    }
    let first_key: &[u8] = entries[0].key;
    let node_depth: usize = if allow_path_compression {
        common_len(first_key, entries[entries.len() - 1].key)
    } else {
        depth
    };
    let ghost d = node_depth as nat;
    let ghost full = s[0].0.take(d as int);
    let maybe_value: Option<&[u8]> = if first_key.len() == node_depth {
        Some(entries[0].value.merkle_value())
    } else {
        None
    };
    let ranges = child_ranges(entries, node_depth);
    let child_hashes: Vec<(usize, H256)> = if parallel && entries.len()
        >= PARALLEL_HASH_THRESHOLD {
        let child_hash = |range: &(usize, usize, usize)| -> (out: (usize, H256))
            requires
                child_run(entry_pairs(entries@), node_depth as nat, *range),
            ensures
                child_run_hash(entry_pairs(entries@), node_depth as nat, *range, out),
            {
                let part: &[EntryRef<'_>] = &entries[range.1..range.2];
                proof {
                    assert(entry_pairs(part@) =~= entry_pairs(entries@).subrange(
                        range.1 as int,
                        range.2 as int,
                    ));
                    assert(agree(part@[0].key@, part@[0].key@, node_depth as nat + 1)) by {
                        assert(entry_pairs(part@)[0].0 == part@[0].key@);
                    }
                    assert(part@[0].key.len() >= node_depth + 1);
                }
                (range.0, merkle_for_node(part, node_depth + 1, true, true))
            };
        proof {
            assert forall|j: int| 0 <= j < ranges@.len() implies call_requires(
                child_hash,
                (&#[trigger] ranges@[j],),
            ) by {
                lemma_child_block(s, d, ranges@, j);
                assert(range_ok(s, d, ranges@[j]));
            }
        }
        let hashes = par_map(&ranges, child_hash);
        proof {
            assert forall|j: int| 0 <= j < ranges@.len() implies (#[trigger] hashes@[j]).0
                == ranges@[j].0 && hashes@[j].1@ == slot_hash(
                pairs_map(s),
                full,
                ranges@[j].0 as int,
            ) by {
                lemma_child_block(s, d, ranges@, j);
                assert(call_ensures(child_hash, (&ranges@[j],), hashes@[j]));
                assert(range_ok(s, d, ranges@[j]));
            }
        }
        hashes
    } else {
        let mut hashes: Vec<(usize, H256)> = Vec::new();
        let mut j: usize = 0;
        while j < ranges.len()
            invariant
                j <= ranges.len(),
                s == entry_pairs(entries@),
                d == node_depth,
                depth <= node_depth,
                full == s[0].0.take(d as int),
                block_ok(s, d),
                ranges_ok(s, d, ranges@, s.len() as int),
                hashes@.len() == j,
                forall|i: int|
                    0 <= i < j ==> (#[trigger] hashes@[i]).0 == ranges@[i].0 && hashes@[i].1@
                        == slot_hash(pairs_map(s), full, ranges@[i].0 as int),
            decreases ranges.len() - j,
        {
            let (child, start, end): (usize, usize, usize) = ranges[j];
            proof {
                lemma_child_block(s, d, ranges@, j as int);
                assert(range_ok(s, d, ranges@[j as int]));
            }
            let part: &[EntryRef<'_>] = &entries[start..end];
            proof {
                assert(entry_pairs(part@) =~= s.subrange(start as int, end as int));
                assert(entry_pairs(part@)[0].0 == part@[0].key@);
                assert(part@[0].key.len() >= node_depth + 1);
            }
            hashes.push((child, merkle_for_node(part, node_depth + 1, false, true)));
            j += 1;
        }
        hashes
    };
    let children = block_slots(Ghost(s), Ghost(d), &ranges, &child_hashes);
    let has_children: bool = any_child(&children);
    let node_hash = compute_node_merkle(
        if has_children {
            Some(&children)
        } else {
            None
        },
        maybe_value,
    );
    proof {
        lemma_block_value(s, d);
        lemma_subtree_unfold(pairs_map(s), s[0].0.take(depth as int), allow_path_compression);
        assert(first_key@.subrange(depth as int, node_depth as int) =~= full.subrange(
            depth as int,
            full.len() as int,
        ));
        assert(is_nibbles(s[0].0));
    }
    compute_path_merkle(&first_key[depth..node_depth], depth, node_hash)
}

/// `range` is a run of a block that shares one nibble more.
pub open spec fn child_run(
    s: Seq<(Seq<u8>, Seq<u8>)>,
    depth: nat,
    range: (usize, usize, usize),
) -> bool {
    let t = s.subrange(range.1 as int, range.2 as int);
    &&& range.1 < range.2 <= s.len()
    &&& block_ok(t, depth + 1)
    &&& depth + 1 <= longest(t) <= longest(s)
}

/// `out` holds the slot and the hash of the run `range`.
pub open spec fn child_run_hash(
    s: Seq<(Seq<u8>, Seq<u8>)>,
    depth: nat,
    range: (usize, usize, usize),
    out: (usize, H256),
) -> bool {
    let t = s.subrange(range.1 as int, range.2 as int);
    &&& out.0 == range.0
    &&& out.1@ == subtree_hash(pairs_map(t), t[0].0.take(depth as int + 1), true)
}

} // verus!
