//! Laws that relate the operations on a state.
use crate::bytemap::{has_key, keys_sorted, lemma_finite_ordered, lemma_pairs_map, lemma_sorted_unique, ordered, outside, pairs_map, under};
use crate::bytes::{agree, lemma_agree_prefix};
use crate::incremental::all_live;
use crate::key_codec::{account_key, canonical, canonical_decode, delta_decode, delta_key, delta_storable, encodable, is_bare, law_canonical_injective, law_canonical_roundtrip, law_delta_injective, law_delta_roundtrip, marker, storable, KeyModel, KeyPart};
use crate::state::model::{address_filter, after_commit, after_delete, after_set, at_boundary, canonical_of, commits, decodes, delta_run, from_snapshot_model, hide_records, hide_snapshot, initial, intermediate_run, is_commit_root, merged, passes, persisted_model, prefix_delete, prefix_read, prefix_values, record, restored, scan_below, scan_snapshot, scan_step, scan_top, snapshot_decodes, snapshot_run, visible, Scan, StateModel};
use crate::store::PersistedModel;
use crate::trie::layer_root;
use crate::types::{lemma_h256_ext, CommitRoot, Space};
use vstd::prelude::*;

verus! {

/// What was written to a key is read back, and an empty write reads as nothing.
pub proof fn law_set_then_get(m: StateModel, k: KeyModel, value: Seq<u8>)
    requires
        encodable(k.key),
    ensures
        visible(after_set(m, k, value), k) == record(value),
        value.len() > 0 ==> visible(after_set(m, k, value), k) == Some(value),
        value.len() == 0 ==> visible(after_set(m, k, value), k) is None,
{
}

/// A write to one key leaves the value of every other key as it was.
pub proof fn law_set_keeps_others(m: StateModel, k: KeyModel, value: Seq<u8>, other: KeyModel)
    requires
        m.delta_padding.len() == 32,
        delta_storable(k),
        delta_storable(other),
        k != other,
    ensures
        visible(after_set(m, k, value), other) == visible(m, other),
{
    if delta_key(k, m.delta_padding) == delta_key(other, m.delta_padding) {
        law_delta_injective(k, other, m.delta_padding);
    }
}

/// Writes to different keys can be made in either order.
pub proof fn law_set_order(
    m: StateModel,
    k1: KeyModel,
    v1: Seq<u8>,
    k2: KeyModel,
    v2: Seq<u8>,
)
    requires
        m.delta_padding.len() == 32,
        delta_storable(k1),
        delta_storable(k2),
        k1 != k2,
    ensures
        after_set(after_set(m, k1, v1), k2, v2) == after_set(after_set(m, k2, v2), k1, v1),
{
    if delta_key(k1, m.delta_padding) == delta_key(k2, m.delta_padding) {
        law_delta_injective(k1, k2, m.delta_padding);
    }
    assert(after_set(after_set(m, k1, v1), k2, v2).delta =~= after_set(
        after_set(m, k2, v2),
        k1,
        v1,
    ).delta);
}

/// The commit root is determined by the state.
pub proof fn law_commit_root_determined(m: StateModel, r1: CommitRoot, r2: CommitRoot)
    requires
        is_commit_root(m, r1),
        is_commit_root(m, r2),
    ensures
        r1 == r2,
{
    lemma_h256_ext(r1.snapshot_root, r2.snapshot_root);
    lemma_h256_ext(r1.intermediate_delta_root, r2.intermediate_delta_root);
    lemma_h256_ext(r1.delta_root, r2.delta_root);
    lemma_h256_ext(r1.state_root_hash, r2.state_root_hash);
    assert(r1.delta_mpt_key_padding =~= r2.delta_mpt_key_padding);
}

/// Within a period, a second commit with nothing written between gives the same root.
pub proof fn law_recommit(m: StateModel, r1: CommitRoot, r2: CommitRoot)
    requires
        !at_boundary(m),
        is_commit_root(m, r1),
        is_commit_root(after_commit(m, r1), r2),
    ensures
        r1 == r2,
{
    law_commit_root_determined(m, r1, r2);
}

/// The roots that the state carries are those of its snapshot and intermediate layer.
pub open spec fn roots_ok(m: StateModel) -> bool {
    &&& m.snapshot_root == layer_root(all_live(m.snapshot))
    &&& m.intermediate_root == layer_root(m.intermediate)
}

/// Every new or restored state carries the roots of its layers, and every write,
/// prefix delete and successful commit keeps it so.
pub proof fn law_roots(
    m: StateModel,
    k: KeyModel,
    value: Seq<u8>,
    root: CommitRoot,
    count: u32,
    snapshot: Map<Seq<u8>, Seq<u8>>,
    p: PersistedModel,
)
    ensures
        roots_ok(initial(count)),
        roots_ok(from_snapshot_model(snapshot)),
        roots_ok(restored(p)),
        roots_ok(m) ==> roots_ok(after_set(m, k, value)),
        roots_ok(m) ==> roots_ok(after_delete(m, k)),
        roots_ok(m) && commits(m) ==> roots_ok(after_commit(m, root)),
{
    assert(all_live(Map::<Seq<u8>, Seq<u8>>::empty()) =~= Map::<
        Seq<u8>,
        Option<Seq<u8>>,
    >::empty());
}

/// A state that is persisted and restored is the state that it was.
pub proof fn law_restore(m: StateModel)
    requires
        roots_ok(m),
        m.snapshot_epoch_count > 0,
    ensures
        restored(persisted_model(m)) == m,
{
}

/// A record's raw key is the delta form of a storable key.
pub open spec fn keyed(raw: Seq<u8>, padding: Seq<u8>) -> bool {
    exists|k: KeyModel| storable(k) && raw == #[trigger] delta_key(k, padding)
}

/// A snapshot key is the canonical form of a storable key.
pub open spec fn canonically_keyed(key: Seq<u8>) -> bool {
    exists|k: KeyModel| storable(k) && key == #[trigger] canonical(k)
}

/// The layers are finite, and hold nothing but storable keys in their own forms.
pub open spec fn layers_ok(m: StateModel) -> bool {
    &&& m.delta_padding.len() == 32
    &&& m.intermediate_padding.len() == 32
    &&& m.snapshot.dom().finite()
    &&& m.intermediate.dom().finite()
    &&& m.delta.dom().finite()
    &&& forall|raw: Seq<u8>| #[trigger] m.delta.contains_key(raw) ==> keyed(raw, m.delta_padding)
    &&& forall|raw: Seq<u8>| #[trigger]
        m.intermediate.contains_key(raw) ==> keyed(raw, m.intermediate_padding)
    &&& forall|key: Seq<u8>| #[trigger] m.snapshot.contains_key(key) ==> canonically_keyed(key)
}

/// The canonical form of a raw key that is the delta form of `k`.
proof fn lemma_canonical_of(k: KeyModel, padding: Seq<u8>)
    requires
        storable(k),
        padding.len() == 32,
    ensures
        canonical_of(delta_key(k, padding)) == Result::<Seq<u8>, Seq<char>>::Ok(canonical(k)),
        delta_decode(delta_key(k, padding)) == Result::<KeyModel, Seq<char>>::Ok(k),
{
    law_delta_roundtrip(k, padding);
}

/// Records of storable keys can all be merged.
pub(crate) proof fn lemma_keyed_decodes(pairs: Seq<(Seq<u8>, Option<Seq<u8>>)>, padding: Seq<u8>)
    requires
        padding.len() == 32,
        forall|i: int| 0 <= i < pairs.len() ==> keyed((#[trigger] pairs[i]).0, padding),
    ensures
        decodes(pairs),
{
    assert forall|i: int| 0 <= i < pairs.len() implies canonical_of(
        (#[trigger] pairs[i]).0,
    ) is Ok by {
        let k = choose|k: KeyModel| storable(k) && pairs[i].0 == #[trigger] delta_key(k, padding);
        lemma_canonical_of(k, padding);
    }
}

/// What merging records of storable keys does to the value of one key.
pub(crate) proof fn lemma_merged(
    snapshot: Map<Seq<u8>, Seq<u8>>,
    pairs: Seq<(Seq<u8>, Option<Seq<u8>>)>,
    padding: Seq<u8>,
    k: KeyModel,
)
    requires
        padding.len() == 32,
        keys_sorted(pairs),
        forall|i: int| 0 <= i < pairs.len() ==> keyed((#[trigger] pairs[i]).0, padding),
        storable(k),
    ensures
        ({
            let raw = delta_key(k, padding);
            let after = merged(snapshot, pairs);
            if pairs_map(pairs).contains_key(raw) {
                match pairs_map(pairs)[raw] {
                    Some(v) => after.contains_key(canonical(k)) && after[canonical(k)] == v,
                    None => !after.contains_key(canonical(k)),
                }
            } else {
                &&& after.contains_key(canonical(k)) == snapshot.contains_key(canonical(k))
                &&& after.contains_key(canonical(k)) ==> after[canonical(k)]
                    == snapshot[canonical(k)]
            }
        }),
    decreases pairs.len(),
{
    if pairs.len() > 0 {
        let t = pairs.drop_last();
        assert(keys_sorted(t)) by {
            assert forall|i: int, j: int| 0 <= i < j < t.len() implies crate::bytes::lex_lt(
                t[i].0,
                t[j].0,
            ) by {
                assert(pairs[i] == t[i] && pairs[j] == t[j]);
            }
        }
        assert forall|i: int| 0 <= i < t.len() implies keyed((#[trigger] t[i]).0, padding) by {
            assert(t[i] == pairs[i]);
        }
        lemma_merged(snapshot, t, padding, k);
        lemma_keyed_decodes(pairs, padding);
        lemma_pairs_map(pairs);
        lemma_pairs_map(t);
        let n = pairs.len() - 1;
        assert(keyed(pairs[n].0, padding));
        let kn = choose|kn: KeyModel|
            storable(kn) && pairs[n].0 == #[trigger] delta_key(kn, padding);
        lemma_canonical_of(kn, padding);
        let raw = delta_key(k, padding);
        if pairs[n].0 == raw {
            law_delta_injective(kn, k, padding);
        } else {
            if canonical(kn) == canonical(k) {
                law_canonical_injective(kn, k);
            }
        }
    }
}

/// Where the layers hold storable keys only, every commit succeeds, and no key
/// changes its value through it.
pub proof fn law_commit_keeps_reads(m: StateModel, root: CommitRoot, k: KeyModel)
    requires
        layers_ok(m),
        m.height < u64::MAX,
        storable(k),
    ensures
        commits(m),
        visible(after_commit(m, root), k) == visible(m, k),
{
    let pairs = ordered(m.intermediate);
    lemma_finite_ordered(m.intermediate);
    lemma_pairs_map(pairs);
    assert forall|i: int| 0 <= i < pairs.len() implies keyed(
        (#[trigger] pairs[i]).0,
        m.intermediate_padding,
    ) by {
        assert(m.intermediate.contains_key(pairs[i].0));
    }
    lemma_keyed_decodes(pairs, m.intermediate_padding);
    lemma_merged(m.snapshot, pairs, m.intermediate_padding, k);
}

/// Merging records of storable keys keeps a snapshot finite and canonically keyed.
proof fn lemma_merged_keyed(
    snapshot: Map<Seq<u8>, Seq<u8>>,
    pairs: Seq<(Seq<u8>, Option<Seq<u8>>)>,
    padding: Seq<u8>,
)
    requires
        padding.len() == 32,
        forall|i: int| 0 <= i < pairs.len() ==> keyed((#[trigger] pairs[i]).0, padding),
        snapshot.dom().finite(),
        forall|key: Seq<u8>| #[trigger] snapshot.contains_key(key) ==> canonically_keyed(key),
    ensures
        merged(snapshot, pairs).dom().finite(),
        forall|key: Seq<u8>| #[trigger]
            merged(snapshot, pairs).contains_key(key) ==> canonically_keyed(key),
    decreases pairs.len(),
{
    if pairs.len() > 0 {
        let t = pairs.drop_last();
        assert forall|i: int| 0 <= i < t.len() implies keyed((#[trigger] t[i]).0, padding) by {
            assert(t[i] == pairs[i]);
        }
        lemma_merged_keyed(snapshot, t, padding);
        let n = pairs.len() - 1;
        assert(keyed(pairs[n].0, padding));
        let kn = choose|kn: KeyModel|
            storable(kn) && pairs[n].0 == #[trigger] delta_key(kn, padding);
        lemma_canonical_of(kn, padding);
        assert(canonically_keyed(canonical(kn)));
    }
}

/// A new state holds storable keys only, and so does one over a snapshot of storable keys;
/// writing a storable key, committing, and persisting and restoring keep it so.
pub proof fn law_layers(
    m: StateModel,
    k: KeyModel,
    value: Seq<u8>,
    root: CommitRoot,
    count: u32,
    snapshot: Map<Seq<u8>, Seq<u8>>,
)
    requires
        m.height < u64::MAX,
    ensures
        layers_ok(initial(count)),
        snapshot.dom().finite() && (forall|key: Seq<u8>| #[trigger]
            snapshot.contains_key(key) ==> canonically_keyed(key)) ==> layers_ok(
            from_snapshot_model(snapshot),
        ),
        layers_ok(m) ==> layers_ok(restored(persisted_model(m))),
        layers_ok(m) && storable(k) ==> layers_ok(after_set(m, k, value)),
        layers_ok(m) ==> layers_ok(after_commit(m, root)),
{
    if layers_ok(m) && storable(k) {
        assert(keyed(delta_key(k, m.delta_padding), m.delta_padding));
    }
    if layers_ok(m) {
        let pairs = ordered(m.intermediate);
        lemma_finite_ordered(m.intermediate);
        lemma_pairs_map(pairs);
        assert forall|i: int| 0 <= i < pairs.len() implies keyed(
            (#[trigger] pairs[i]).0,
            m.intermediate_padding,
        ) by {
            assert(m.intermediate.contains_key(pairs[i].0));
        }
        lemma_keyed_decodes(pairs, m.intermediate_padding);
        lemma_merged_keyed(m.snapshot, pairs, m.intermediate_padding);
    }
}

proof fn lemma_head_prefix(h1: Seq<u8>, r1: Seq<u8>, h2: Seq<u8>, r2: Seq<u8>)
    requires
        h1.len() == h2.len(),
    ensures
        (h1 + r1).is_prefix_of(h2 + r2) <==> h1 == h2 && r1.is_prefix_of(r2),
{
    lemma_agree_prefix(h1 + r1, h2 + r2);
    lemma_agree_prefix(r1, r2);
    let n = h1.len() as int;
    if (h1 + r1).is_prefix_of(h2 + r2) {
        assert forall|i: int| 0 <= i < n implies h1[i] == h2[i] by {
            assert((h1 + r1)[i] == (h2 + r2)[i]);
        }
        assert(h1 =~= h2);
        assert forall|i: int| 0 <= i < r1.len() implies r1[i] == r2[i] by {
            assert((h1 + r1)[n + i] == (h2 + r2)[n + i]);
        }
        assert(agree(r1, r2, r1.len()));
    }
    if h1 == h2 && r1.is_prefix_of(r2) {
        assert(agree(h1 + r1, h2 + r2, (h1 + r1).len()));
    }
}

/// A key that has a full address and does not name a storage slot.
pub open spec fn whole_field(k: KeyPart) -> bool {
    !is_bare(k) && k.address().len() == 20 && !(k is Storage)
}

/// Whether the mark and suffix of `k` lead those of `x` does not depend on the form.
proof fn lemma_tail_prefix(k: KeyModel, x: KeyModel, padding: Seq<u8>)
    requires
        whole_field(k.key),
        storable(x),
    ensures
        (marker(k.space) + k.key.suffix()).is_prefix_of(marker(x.space) + x.key.suffix()) <==> (
        marker(k.space) + k.key.suffix()).is_prefix_of(
            marker(x.space) + x.key.delta_suffix(padding),
        ),
{
    if x.key is Storage {
        let r = marker(k.space) + k.key.suffix();
        let t1 = marker(x.space) + x.key.suffix();
        let t2 = marker(x.space) + x.key.delta_suffix(padding);
        let n = marker(x.space).len() + 4;
        assert forall|i: int| 0 <= i < n implies t1[i] == t2[i] by {}
        lemma_agree_prefix(r, t1);
        lemma_agree_prefix(r, t2);
        if r.len() <= n {
            assert(agree(r, t1, r.len()) ==> agree(r, t2, r.len()));
            assert(agree(r, t2, r.len()) ==> agree(r, t1, r.len()));
        } else if k.space == x.space {
            let o = marker(x.space).len() as int;
            assert(t1[o] == 0x64 && t1[o + 1] == 0x61);
            assert(k.key.suffix().len() > 4);
            assert(r[o] != 0x64 || r[o + 1] != 0x61) by {
                match k.key {
                    KeyPart::Code { code_hash, .. } => {
                        assert(k.key.suffix()[0] == 0x63);
                        assert(r[o] == k.key.suffix()[0]);
                    },
                    KeyPart::DepositList(_) => {
                        assert(k.key.suffix()[1] == 0x65);
                        assert(r[o + 1] == k.key.suffix()[1]);
                    },
                    _ => {},
                }
            }
            assert(t2[o] == t1[o] && t2[o + 1] == t1[o + 1]);
        } else {
            assert(r[0] != t1[0]) by {
                if k.space == Space::Ethereum {
                    assert(r[0] == 0x81);
                    assert(t1[0] == 0x64);
                } else {
                    assert(t1[0] == 0x81);
                    assert(r[0] == k.key.suffix()[0]);
                    assert(r[0] < 0x80);
                }
            }
            assert(t2[0] == t1[0]);
        }
    }
}

/// A prefix that is a whole field reaches the same keys in every form.
proof fn lemma_reach(k: KeyModel, x: KeyModel, padding: Seq<u8>)
    requires
        whole_field(k.key),
        storable(x),
        padding.len() == 32,
    ensures
        delta_key(k, padding).is_prefix_of(delta_key(x, padding)) <==> canonical(k).is_prefix_of(
            canonical(x),
        ),
{
    let rk = marker(k.space) + k.key.suffix();
    let rx = marker(x.space) + x.key.suffix();
    let dx = marker(x.space) + x.key.delta_suffix(padding);
    let ak = account_key(k.key.address(), padding);
    let ax = account_key(x.key.address(), padding);
    assert(canonical(k) =~= k.key.address() + rk);
    assert(canonical(x) =~= x.key.address() + rx);
    assert(delta_key(k, padding) =~= ak + rk);
    assert(delta_key(x, padding) =~= ax + dx);
    lemma_head_prefix(k.key.address(), rk, x.key.address(), rx);
    lemma_head_prefix(ak, rk, ax, dx);
    lemma_tail_prefix(k, x, padding);
    if ak == ax {
        assert(ak.skip(12) =~= k.key.address());
        assert(ax.skip(12) =~= x.key.address());
    }
}

/// What hiding records of storable keys does to the record of one key.
proof fn lemma_hide_records(
    delta: Map<Seq<u8>, Option<Seq<u8>>>,
    pairs: Seq<(Seq<u8>, Option<Seq<u8>>)>,
    filter: Option<Seq<u8>>,
    padding: Seq<u8>,
    lower: Seq<u8>,
    x: KeyModel,
)
    requires
        padding.len() == 32,
        lower.len() == 32,
        keys_sorted(pairs),
        forall|i: int| 0 <= i < pairs.len() ==> keyed((#[trigger] pairs[i]).0, lower),
        storable(x),
    ensures
        ({
            let raw = delta_key(x, padding);
            let below = delta_key(x, lower);
            let after = hide_records(delta, pairs, filter, padding);
            if pairs_map(pairs).contains_key(below) && pairs_map(pairs)[below] is Some && passes(
                filter,
                canonical(x),
            ) {
                after.contains_key(raw) && after[raw] is None
            } else {
                after.contains_key(raw) == delta.contains_key(raw) && (after.contains_key(raw)
                    ==> after[raw] == delta[raw])
            }
        }),
    decreases pairs.len(),
{
    if pairs.len() > 0 {
        let t = pairs.drop_last();
        assert(keys_sorted(t)) by {
            assert forall|i: int, j: int| 0 <= i < j < t.len() implies crate::bytes::lex_lt(
                t[i].0,
                t[j].0,
            ) by {
                assert(pairs[i] == t[i] && pairs[j] == t[j]);
            }
        }
        assert forall|i: int| 0 <= i < t.len() implies keyed((#[trigger] t[i]).0, lower) by {
            assert(t[i] == pairs[i]);
        }
        lemma_hide_records(delta, t, filter, padding, lower, x);
        lemma_keyed_decodes(pairs, lower);
        lemma_pairs_map(pairs);
        lemma_pairs_map(t);
        let n = pairs.len() - 1;
        assert(keyed(pairs[n].0, lower));
        let kn = choose|kn: KeyModel| storable(kn) && pairs[n].0 == #[trigger] delta_key(kn, lower);
        lemma_canonical_of(kn, lower);
        if pairs[n].0 == delta_key(x, lower) {
            law_delta_injective(kn, x, lower);
            assert(!pairs_map(t).contains_key(pairs[n].0)) by {
                if has_key(t, pairs[n].0) {
                    let j = choose|j: int| 0 <= j < t.len() && (#[trigger] t[j]).0 == pairs[n].0;
                    assert(pairs[j] == t[j]);
                    lemma_sorted_unique(pairs, j, n);
                }
            }
        } else if delta_key(kn, padding) == delta_key(x, padding) {
            law_delta_injective(kn, x, padding);
        }
    }
}

/// What hiding snapshot values does to the record of one key.
proof fn lemma_hide_snapshot(
    delta: Map<Seq<u8>, Option<Seq<u8>>>,
    pairs: Seq<(Seq<u8>, Seq<u8>)>,
    padding: Seq<u8>,
    x: KeyModel,
)
    requires
        padding.len() == 32,
        forall|i: int| 0 <= i < pairs.len() ==> canonically_keyed((#[trigger] pairs[i]).0),
        storable(x),
    ensures
        snapshot_decodes(pairs),
        ({
            let raw = delta_key(x, padding);
            let after = hide_snapshot(delta, pairs, padding);
            if has_key(pairs, canonical(x)) {
                after.contains_key(raw) && after[raw] is None
            } else {
                after.contains_key(raw) == delta.contains_key(raw) && (after.contains_key(raw)
                    ==> after[raw] == delta[raw])
            }
        }),
    decreases pairs.len(),
{
    assert forall|i: int| 0 <= i < pairs.len() implies canonical_decode(
        (#[trigger] pairs[i]).0,
    ) is Some by {
        let kn = choose|kn: KeyModel| storable(kn) && pairs[i].0 == #[trigger] canonical(kn);
        law_canonical_roundtrip(kn);
    }
    if pairs.len() > 0 {
        let t = pairs.drop_last();
        assert forall|i: int| 0 <= i < t.len() implies canonically_keyed((#[trigger] t[i]).0) by {
            assert(t[i] == pairs[i]);
        }
        lemma_hide_snapshot(delta, t, padding, x);
        let n = pairs.len() - 1;
        assert(canonically_keyed(pairs[n].0));
        let kn = choose|kn: KeyModel| storable(kn) && pairs[n].0 == #[trigger] canonical(kn);
        law_canonical_roundtrip(kn);
        if has_key(t, canonical(x)) {
            let j = choose|j: int| 0 <= j < t.len() && (#[trigger] t[j]).0 == canonical(x);
            assert(pairs[j].0 == canonical(x));
        }
        if has_key(pairs, canonical(x)) {
            let j = choose|j: int| 0 <= j < pairs.len() && (#[trigger] pairs[j]).0 == canonical(x);
            if j < n {
                assert(t[j].0 == canonical(x));
            }
        }
        if pairs[n].0 == canonical(x) {
            law_canonical_injective(kn, x);
        } else if delta_key(kn, padding) == delta_key(x, padding) {
            law_delta_injective(kn, x, padding);
        }
    }
}

proof fn lemma_under_finite<T>(m: Map<Seq<u8>, T>, p: Seq<u8>)
    requires
        m.dom().finite(),
    ensures
        under(m, p).dom().finite(),
        outside(m, p).dom().finite(),
{
    assert(under(m, p).dom().subset_of(m.dom()));
    assert(outside(m, p).dom().subset_of(m.dom()));
    vstd::set_lib::lemma_set_subset_finite(m.dom(), under(m, p).dom());
    vstd::set_lib::lemma_set_subset_finite(m.dom(), outside(m, p).dom());
}

/// The runs that a prefix reaches in layers of storable keys.
proof fn lemma_runs(m: StateModel, k: KeyModel)
    requires
        layers_ok(m),
        encodable(k.key),
    ensures
        decodes(delta_run(m, k)),
        decodes(intermediate_run(m, k)),
        keys_sorted(intermediate_run(m, k)),
        pairs_map(intermediate_run(m, k)) == under(
            m.intermediate,
            delta_key(k, m.intermediate_padding),
        ),
        forall|i: int|
            0 <= i < intermediate_run(m, k).len() ==> keyed(
                (#[trigger] intermediate_run(m, k)[i]).0,
                m.intermediate_padding,
            ),
        forall|i: int|
            0 <= i < snapshot_run(m, k).len() ==> canonically_keyed(
                (#[trigger] snapshot_run(m, k)[i]).0,
            ),
        forall|c: Seq<u8>|
            #![trigger m.snapshot.contains_key(c)]
            has_key(snapshot_run(m, k), c) <==> m.snapshot.contains_key(c) && canonical(
                k,
            ).is_prefix_of(c),
{
    let d = under(m.delta, delta_key(k, m.delta_padding));
    let j = under(m.intermediate, delta_key(k, m.intermediate_padding));
    let s = under(m.snapshot, canonical(k));
    lemma_under_finite(m.delta, delta_key(k, m.delta_padding));
    lemma_under_finite(m.intermediate, delta_key(k, m.intermediate_padding));
    lemma_under_finite(m.snapshot, canonical(k));
    lemma_finite_ordered(d);
    lemma_finite_ordered(j);
    lemma_finite_ordered(s);
    lemma_pairs_map(ordered(d));
    lemma_pairs_map(ordered(j));
    lemma_pairs_map(ordered(s));
    assert forall|i: int| 0 <= i < ordered(d).len() implies keyed(
        (#[trigger] ordered(d)[i]).0,
        m.delta_padding,
    ) by {
        assert(d.contains_key(ordered(d)[i].0));
        assert(m.delta.contains_key(ordered(d)[i].0));
    }
    lemma_keyed_decodes(ordered(d), m.delta_padding);
    assert forall|i: int| 0 <= i < ordered(j).len() implies keyed(
        (#[trigger] ordered(j)[i]).0,
        m.intermediate_padding,
    ) by {
        assert(j.contains_key(ordered(j)[i].0));
        assert(m.intermediate.contains_key(ordered(j)[i].0));
    }
    lemma_keyed_decodes(ordered(j), m.intermediate_padding);
    assert forall|i: int| 0 <= i < ordered(s).len() implies canonically_keyed(
        (#[trigger] ordered(s)[i]).0,
    ) by {
        assert(s.contains_key(ordered(s)[i].0));
        assert(m.snapshot.contains_key(ordered(s)[i].0));
    }
    assert forall|c: Seq<u8>|
        #![trigger m.snapshot.contains_key(c)]
        has_key(snapshot_run(m, k), c) <==> m.snapshot.contains_key(c) && canonical(
            k,
        ).is_prefix_of(c) by {
        assert(s.contains_key(c) <==> has_key(ordered(s), c));
    }
}

/// The prefix reaches the key `x` in every layer.
pub open spec fn reaches(k: KeyModel, x: KeyModel) -> bool {
    &&& encodable(k.key)
    &&& canonical(k).is_prefix_of(canonical(x))
    &&& k.key is Empty || k.key is AddressPrefix || whole_field(k.key) || k == x
}

/// A prefix delete succeeds where the layers hold storable keys only, and hides
/// every key that the prefix reaches: all under an address or an address prefix,
/// all of one field of an address, or one storage slot.
pub proof fn law_delete_hides(m: StateModel, k: KeyModel, x: KeyModel)
    requires
        layers_ok(m),
        storable(x),
        reaches(k, x),
    ensures
        prefix_delete(m, k) is Ok,
        visible(after_delete(m, k), x) is None,
{
    lemma_runs(m, k);
    let filter = address_filter(k.key);
    let top = delta_key(x, m.delta_padding);
    let middle = delta_key(x, m.intermediate_padding);
    if whole_field(k.key) {
        lemma_reach(k, x, m.delta_padding);
        lemma_reach(k, x, m.intermediate_padding);
    } else if k == x {
        assert(top =~= top.subrange(0, top.len() as int));
        assert(middle =~= middle.subrange(0, middle.len() as int));
    } else {
        assert(delta_key(k, m.delta_padding) =~= top.subrange(0, 0));
        assert(delta_key(k, m.intermediate_padding) =~= middle.subrange(0, 0));
    }
    assert(delta_key(k, m.delta_padding).is_prefix_of(top));
    assert(delta_key(k, m.intermediate_padding).is_prefix_of(middle));
    assert(passes(filter, canonical(x)));
    let cleared = outside(m.delta, delta_key(k, m.delta_padding));
    let run = intermediate_run(m, k);
    lemma_hide_records(cleared, run, filter, m.delta_padding, m.intermediate_padding, x);
    let hidden = hide_records(cleared, run, filter, m.delta_padding);
    lemma_hide_snapshot(hidden, snapshot_run(m, k), m.delta_padding, x);
    assert(m.snapshot.contains_key(canonical(x)) ==> has_key(snapshot_run(m, k), canonical(x)));
}

/// A prefix delete by a whole field leaves the value of every other key as it was.
pub proof fn law_delete_keeps_others(m: StateModel, k: KeyModel, x: KeyModel)
    requires
        layers_ok(m),
        whole_field(k.key),
        storable(x),
        !canonical(k).is_prefix_of(canonical(x)),
    ensures
        visible(after_delete(m, k), x) == visible(m, x),
{
    lemma_runs(m, k);
    let filter = address_filter(k.key);
    lemma_reach(k, x, m.delta_padding);
    lemma_reach(k, x, m.intermediate_padding);
    let cleared = outside(m.delta, delta_key(k, m.delta_padding));
    let run = intermediate_run(m, k);
    lemma_hide_records(cleared, run, filter, m.delta_padding, m.intermediate_padding, x);
    let hidden = hide_records(cleared, run, filter, m.delta_padding);
    lemma_hide_snapshot(hidden, snapshot_run(m, k), m.delta_padding, x);
    assert(m.snapshot.contains_key(canonical(x)) || !m.snapshot.contains_key(canonical(x)));
    assert(!has_key(snapshot_run(m, k), canonical(x)));
}

/// A prefix delete returns what a prefix read would have returned.
pub proof fn law_delete_returns_read(m: StateModel, k: KeyModel)
    ensures
        prefix_delete(m, k) is Ok ==> prefix_delete(m, k) == prefix_read(m, k),
{
}

/// The scan has settled the key `c`, with the value `v` where there is one.
spec fn settled(s: Scan, c: Seq<u8>, record: Option<Option<Seq<u8>>>) -> bool {
    &&& s.seen.contains(c) == (record is Some)
    &&& forall|v: Seq<u8>| #[trigger] s.result.contains((c, v)) <==> record == Some(Some(v))
}

/// One step of a scan settles its own key and no other.
proof fn lemma_scan_step(
    s: Scan,
    filter: Option<Seq<u8>>,
    key: Seq<u8>,
    value: Option<Seq<u8>>,
    c: Seq<u8>,
    before: Option<Option<Seq<u8>>>,
)
    requires
        settled(s, c, before),
    ensures
        c != key || !passes(filter, c) ==> settled(scan_step(s, filter, key, value), c, before),
        c == key && passes(filter, c) && before is None ==> settled(
            scan_step(s, filter, key, value),
            c,
            Some(value),
        ),
{
    let t = scan_step(s, filter, key, value);
    if passes(filter, key) {
        assert forall|v: Seq<u8>| #[trigger] t.result.contains((c, v)) <==> s.result.contains(
            (c, v),
        ) || (c == key && value == Some(v)) by {
            if s.result.contains((c, v)) {
                let i = choose|i: int| 0 <= i < s.result.len() && s.result[i] == (c, v);
                assert(t.result[i] == (c, v));
            }
            if c == key && value == Some(v) {
                assert(t.result[s.result.len() as int] == (c, v));
            }
            if t.result.contains((c, v)) {
                let i = choose|i: int| 0 <= i < t.result.len() && t.result[i] == (c, v);
                if i < s.result.len() {
                    assert(s.result[i] == (c, v));
                }
            }
        }
    }
}

/// What the sorted records of a layer say of the key with the raw form `raw`.
spec fn found(pairs: Seq<(Seq<u8>, Option<Seq<u8>>)>, raw: Seq<u8>) -> Option<Option<Seq<u8>>> {
    if pairs_map(pairs).contains_key(raw) {
        Some(pairs_map(pairs)[raw])
    } else {
        None
    }
}

proof fn lemma_scan_top(
    pairs: Seq<(Seq<u8>, Option<Seq<u8>>)>,
    filter: Option<Seq<u8>>,
    padding: Seq<u8>,
    x: KeyModel,
)
    requires
        padding.len() == 32,
        keys_sorted(pairs),
        forall|i: int| 0 <= i < pairs.len() ==> keyed((#[trigger] pairs[i]).0, padding),
        storable(x),
        passes(filter, canonical(x)),
    ensures
        settled(
            scan_top(pairs, filter),
            canonical(x),
            found(pairs, delta_key(x, padding)),
        ),
    decreases pairs.len(),
{
    let c = canonical(x);
    let raw = delta_key(x, padding);
    if pairs.len() > 0 {
        let t = pairs.drop_last();
        let n = pairs.len() - 1;
        assert(keys_sorted(t)) by {
            assert forall|i: int, j: int| 0 <= i < j < t.len() implies crate::bytes::lex_lt(
                t[i].0,
                t[j].0,
            ) by {
                assert(pairs[i] == t[i] && pairs[j] == t[j]);
            }
        }
        assert forall|i: int| 0 <= i < t.len() implies keyed((#[trigger] t[i]).0, padding) by {
            assert(t[i] == pairs[i]);
        }
        lemma_scan_top(t, filter, padding, x);
        lemma_pairs_map(pairs);
        lemma_pairs_map(t);
        assert(keyed(pairs[n].0, padding));
        let kn = choose|kn: KeyModel|
            storable(kn) && pairs[n].0 == #[trigger] delta_key(kn, padding);
        lemma_canonical_of(kn, padding);
        lemma_scan_step(scan_top(t, filter), filter, canonical(kn), pairs[n].1, c, found(t, raw));
        if pairs[n].0 == raw {
            law_delta_injective(kn, x, padding);
            if has_key(t, raw) {
                let j = choose|j: int| 0 <= j < t.len() && (#[trigger] t[j]).0 == raw;
                assert(pairs[j] == t[j]);
                lemma_sorted_unique(pairs, j, n);
            }
        } else if canonical(kn) == c {
            law_canonical_injective(kn, x);
        }
    }
}

proof fn lemma_scan_below(
    start: Scan,
    pairs: Seq<(Seq<u8>, Option<Seq<u8>>)>,
    filter: Option<Seq<u8>>,
    padding: Seq<u8>,
    x: KeyModel,
    above: Option<Option<Seq<u8>>>,
)
    requires
        padding.len() == 32,
        keys_sorted(pairs),
        forall|i: int| 0 <= i < pairs.len() ==> keyed((#[trigger] pairs[i]).0, padding),
        storable(x),
        passes(filter, canonical(x)),
        settled(start, canonical(x), above),
    ensures
        settled(
            scan_below(start, pairs, filter),
            canonical(x),
            if above is Some {
                above
            } else {
                found(pairs, delta_key(x, padding))
            },
        ),
    decreases pairs.len(),
{
    let c = canonical(x);
    let raw = delta_key(x, padding);
    if pairs.len() > 0 {
        let t = pairs.drop_last();
        let n = pairs.len() - 1;
        assert(keys_sorted(t)) by {
            assert forall|i: int, j: int| 0 <= i < j < t.len() implies crate::bytes::lex_lt(
                t[i].0,
                t[j].0,
            ) by {
                assert(pairs[i] == t[i] && pairs[j] == t[j]);
            }
        }
        assert forall|i: int| 0 <= i < t.len() implies keyed((#[trigger] t[i]).0, padding) by {
            assert(t[i] == pairs[i]);
        }
        lemma_scan_below(start, t, filter, padding, x, above);
        lemma_pairs_map(pairs);
        lemma_pairs_map(t);
        assert(keyed(pairs[n].0, padding));
        let kn = choose|kn: KeyModel|
            storable(kn) && pairs[n].0 == #[trigger] delta_key(kn, padding);
        lemma_canonical_of(kn, padding);
        let before = if above is Some {
            above
        } else {
            found(t, raw)
        };
        lemma_scan_step(
            scan_below(start, t, filter),
            filter,
            canonical(kn),
            pairs[n].1,
            c,
            before,
        );
        if pairs[n].0 == raw {
            law_delta_injective(kn, x, padding);
            if has_key(t, raw) {
                let j = choose|j: int| 0 <= j < t.len() && (#[trigger] t[j]).0 == raw;
                assert(pairs[j] == t[j]);
                lemma_sorted_unique(pairs, j, n);
            }
        } else if canonical(kn) == c {
            law_canonical_injective(kn, x);
        }
    }
}

proof fn lemma_scan_snapshot(
    start: Scan,
    pairs: Seq<(Seq<u8>, Seq<u8>)>,
    c: Seq<u8>,
    above: Option<Option<Seq<u8>>>,
)
    requires
        keys_sorted(pairs),
        settled(start, c, above),
    ensures
        settled(
            scan_snapshot(start, pairs),
            c,
            if above is Some {
                above
            } else if pairs_map(pairs).contains_key(c) {
                Some(Some(pairs_map(pairs)[c]))
            } else {
                None
            },
        ),
    decreases pairs.len(),
{
    if pairs.len() > 0 {
        let t = pairs.drop_last();
        let n = pairs.len() - 1;
        assert(keys_sorted(t)) by {
            assert forall|i: int, j: int| 0 <= i < j < t.len() implies crate::bytes::lex_lt(
                t[i].0,
                t[j].0,
            ) by {
                assert(pairs[i] == t[i] && pairs[j] == t[j]);
            }
        }
        lemma_scan_snapshot(start, t, c, above);
        lemma_pairs_map(pairs);
        lemma_pairs_map(t);
        let before = if above is Some {
            above
        } else if pairs_map(t).contains_key(c) {
            Some(Some(pairs_map(t)[c]))
        } else {
            None
        };
        lemma_scan_step(
            scan_snapshot(start, t),
            None,
            pairs[n].0,
            Some(pairs[n].1),
            c,
            before,
        );
        if pairs[n].0 == c && has_key(t, c) {
            let j = choose|j: int| 0 <= j < t.len() && (#[trigger] t[j]).0 == c;
            assert(pairs[j] == t[j]);
            lemma_sorted_unique(pairs, j, n);
        }
    }
}

/// Where the layers hold storable keys only, a prefix read succeeds and lists a
/// key that the prefix reaches with a value exactly where reading the key gives
/// that value.
pub proof fn law_prefix_read(m: StateModel, k: KeyModel, x: KeyModel, v: Seq<u8>)
    requires
        layers_ok(m),
        storable(x),
        reaches(k, x),
    ensures
        prefix_read(m, k) is Ok,
        prefix_values(m, k).contains((canonical(x), v)) <==> visible(m, x) == Some(v),
{
    lemma_runs(m, k);
    let c = canonical(x);
    let filter = address_filter(k.key);
    let top = delta_key(x, m.delta_padding);
    let middle = delta_key(x, m.intermediate_padding);
    if whole_field(k.key) {
        lemma_reach(k, x, m.delta_padding);
        lemma_reach(k, x, m.intermediate_padding);
    } else if k == x {
        assert(top =~= top.subrange(0, top.len() as int));
        assert(middle =~= middle.subrange(0, middle.len() as int));
    } else {
        assert(delta_key(k, m.delta_padding) =~= top.subrange(0, 0));
        assert(delta_key(k, m.intermediate_padding) =~= middle.subrange(0, 0));
    }
    assert(passes(filter, c));
    let d = under(m.delta, delta_key(k, m.delta_padding));
    let s = under(m.snapshot, canonical(k));
    lemma_under_finite(m.delta, delta_key(k, m.delta_padding));
    lemma_under_finite(m.snapshot, canonical(k));
    lemma_finite_ordered(d);
    lemma_finite_ordered(s);
    lemma_pairs_map(ordered(d));
    assert forall|i: int| 0 <= i < ordered(d).len() implies keyed(
        (#[trigger] ordered(d)[i]).0,
        m.delta_padding,
    ) by {
        assert(d.contains_key(ordered(d)[i].0));
        assert(m.delta.contains_key(ordered(d)[i].0));
    }
    lemma_scan_top(ordered(d), filter, m.delta_padding, x);
    let s0 = scan_top(delta_run(m, k), filter);
    let r0 = found(delta_run(m, k), top);
    lemma_scan_below(s0, intermediate_run(m, k), filter, m.intermediate_padding, x, r0);
    let s1 = scan_below(s0, intermediate_run(m, k), filter);
    let r1 = if r0 is Some {
        r0
    } else {
        found(intermediate_run(m, k), middle)
    };
    lemma_scan_snapshot(s1, snapshot_run(m, k), c, r1);
    assert(under(m.delta, delta_key(k, m.delta_padding)).contains_key(top) == m.delta.contains_key(
        top,
    ));
}

/// The keys that a scan has found are settled, and each is found once.
spec fn found_once(s: Scan) -> bool {
    &&& forall|i: int| 0 <= i < s.result.len() ==> s.seen.contains((#[trigger] s.result[i]).0)
    &&& forall|i: int, j: int|
        0 <= i < j < s.result.len() ==> (#[trigger] s.result[i]).0 != (#[trigger] s.result[j]).0
}

proof fn lemma_step_once(
    s: Scan,
    filter: Option<Seq<u8>>,
    key: Seq<u8>,
    value: Option<Seq<u8>>,
)
    requires
        found_once(s),
        !s.seen.contains(key),
    ensures
        found_once(scan_step(s, filter, key, value)),
{
    let t = scan_step(s, filter, key, value);
    assert forall|i: int| 0 <= i < t.result.len() implies t.seen.contains(
        (#[trigger] t.result[i]).0,
    ) by {
        if i < s.result.len() {
            assert(t.result[i] == s.result[i]);
        }
    }
    assert forall|i: int, j: int| 0 <= i < j < t.result.len() implies (#[trigger] t.result[i]).0
        != (#[trigger] t.result[j]).0 by {
        assert(t.result[i] == s.result[i]);
        if j < s.result.len() {
            assert(t.result[j] == s.result[j]);
        }
    }
}

/// The top layer is scanned without a look at what is settled; its keys differ all the same.
proof fn lemma_top_once(
    pairs: Seq<(Seq<u8>, Option<Seq<u8>>)>,
    filter: Option<Seq<u8>>,
    padding: Seq<u8>,
)
    requires
        padding.len() == 32,
        keys_sorted(pairs),
        forall|i: int| 0 <= i < pairs.len() ==> keyed((#[trigger] pairs[i]).0, padding),
    ensures
        found_once(scan_top(pairs, filter)),
        forall|c: Seq<u8>| #[trigger]
            scan_top(pairs, filter).seen.contains(c) ==> exists|i: int|
                0 <= i < pairs.len() && canonical_of((#[trigger] pairs[i]).0)->Ok_0 == c,
    decreases pairs.len(),
{
    if pairs.len() > 0 {
        let t = pairs.drop_last();
        let n = pairs.len() - 1;
        assert(keys_sorted(t)) by {
            assert forall|i: int, j: int| 0 <= i < j < t.len() implies crate::bytes::lex_lt(
                t[i].0,
                t[j].0,
            ) by {
                assert(pairs[i] == t[i] && pairs[j] == t[j]);
            }
        }
        assert forall|i: int| 0 <= i < t.len() implies keyed((#[trigger] t[i]).0, padding) by {
            assert(t[i] == pairs[i]);
        }
        lemma_top_once(t, filter, padding);
        let before = scan_top(t, filter);
        let key = canonical_of(pairs[n].0)->Ok_0;
        assert(keyed(pairs[n].0, padding));
        let kn = choose|kn: KeyModel|
            storable(kn) && pairs[n].0 == #[trigger] delta_key(kn, padding);
        lemma_canonical_of(kn, padding);
        if before.seen.contains(key) {
            let i = choose|i: int|
                0 <= i < t.len() && canonical_of((#[trigger] t[i]).0)->Ok_0 == key;
            assert(t[i] == pairs[i]);
            assert(keyed(t[i].0, padding));
            let ki = choose|ki: KeyModel|
                storable(ki) && t[i].0 == #[trigger] delta_key(ki, padding);
            lemma_canonical_of(ki, padding);
            law_canonical_injective(ki, kn);
            lemma_sorted_unique(pairs, i, n);
        }
        lemma_step_once(before, filter, key, pairs[n].1);
        assert forall|c: Seq<u8>| #[trigger] scan_top(pairs, filter).seen.contains(c) implies exists|
            i: int,
        |
            0 <= i < pairs.len() && canonical_of((#[trigger] pairs[i]).0)->Ok_0 == c by {
            if before.seen.contains(c) {
                let i = choose|i: int|
                    0 <= i < t.len() && canonical_of((#[trigger] t[i]).0)->Ok_0 == c;
                assert(canonical_of(pairs[i].0)->Ok_0 == c);
            } else {
                assert(canonical_of(pairs[n].0)->Ok_0 == c);
            }
        }
    }
}

proof fn lemma_below_once(
    start: Scan,
    pairs: Seq<(Seq<u8>, Option<Seq<u8>>)>,
    filter: Option<Seq<u8>>,
)
    requires
        found_once(start),
    ensures
        found_once(scan_below(start, pairs, filter)),
    decreases pairs.len(),
{
    if pairs.len() > 0 {
        lemma_below_once(start, pairs.drop_last(), filter);
        let s = scan_below(start, pairs.drop_last(), filter);
        let key = canonical_of(pairs.last().0)->Ok_0;
        if !s.seen.contains(key) {
            lemma_step_once(s, filter, key, pairs.last().1);
        }
    }
}

proof fn lemma_snapshot_once(start: Scan, pairs: Seq<(Seq<u8>, Seq<u8>)>)
    requires
        found_once(start),
    ensures
        found_once(scan_snapshot(start, pairs)),
    decreases pairs.len(),
{
    if pairs.len() > 0 {
        lemma_snapshot_once(start, pairs.drop_last());
        let s = scan_snapshot(start, pairs.drop_last());
        let (key, value) = pairs.last();
        if !s.seen.contains(key) {
            lemma_step_once(s, None, key, Some(value));
        }
    }
}

/// Where the layers hold storable keys only, a prefix read lists every key at most once.
pub proof fn law_prefix_once(m: StateModel, k: KeyModel)
    requires
        layers_ok(m),
    ensures
        forall|i: int, j: int|
            0 <= i < j < prefix_values(m, k).len() ==> (#[trigger] prefix_values(m, k)[i]).0 != (
            #[trigger] prefix_values(m, k)[j]).0,
{
    let dp = delta_key(k, m.delta_padding);
    let d = under(m.delta, dp);
    lemma_under_finite(m.delta, dp);
    lemma_finite_ordered(d);
    lemma_pairs_map(ordered(d));
    let top = delta_run(m, k);
    assert forall|i: int| 0 <= i < top.len() implies keyed((#[trigger] top[i]).0, m.delta_padding) by {
        assert(d.contains_key(top[i].0));
        assert(m.delta.contains_key(top[i].0));
    }
    let filter = address_filter(k.key);
    lemma_top_once(top, filter, m.delta_padding);
    let s0 = scan_top(top, filter);
    lemma_below_once(s0, intermediate_run(m, k), filter);
    lemma_snapshot_once(scan_below(s0, intermediate_run(m, k), filter), snapshot_run(m, k));
}

/// The records of a delta layer are finite and of storable keys.
spec fn delta_keyed(delta: Map<Seq<u8>, Option<Seq<u8>>>, padding: Seq<u8>) -> bool {
    &&& delta.dom().finite()
    &&& forall|raw: Seq<u8>| #[trigger] delta.contains_key(raw) ==> keyed(raw, padding)
}

proof fn lemma_hide_records_keyed(
    delta: Map<Seq<u8>, Option<Seq<u8>>>,
    pairs: Seq<(Seq<u8>, Option<Seq<u8>>)>,
    filter: Option<Seq<u8>>,
    padding: Seq<u8>,
    lower: Seq<u8>,
)
    requires
        lower.len() == 32,
        delta_keyed(delta, padding),
        forall|i: int| 0 <= i < pairs.len() ==> keyed((#[trigger] pairs[i]).0, lower),
    ensures
        delta_keyed(hide_records(delta, pairs, filter, padding), padding),
    decreases pairs.len(),
{
    if pairs.len() > 0 {
        let t = pairs.drop_last();
        assert forall|i: int| 0 <= i < t.len() implies keyed((#[trigger] t[i]).0, lower) by {
            assert(t[i] == pairs[i]);
        }
        lemma_hide_records_keyed(delta, t, filter, padding, lower);
        let n = pairs.len() - 1;
        assert(keyed(pairs[n].0, lower));
        let kn = choose|kn: KeyModel| storable(kn) && pairs[n].0 == #[trigger] delta_key(kn, lower);
        lemma_canonical_of(kn, lower);
        assert(keyed(delta_key(kn, padding), padding));
    }
}

proof fn lemma_hide_snapshot_keyed(
    delta: Map<Seq<u8>, Option<Seq<u8>>>,
    pairs: Seq<(Seq<u8>, Seq<u8>)>,
    padding: Seq<u8>,
)
    requires
        delta_keyed(delta, padding),
        forall|i: int| 0 <= i < pairs.len() ==> canonically_keyed((#[trigger] pairs[i]).0),
    ensures
        delta_keyed(hide_snapshot(delta, pairs, padding), padding),
    decreases pairs.len(),
{
    if pairs.len() > 0 {
        let t = pairs.drop_last();
        assert forall|i: int| 0 <= i < t.len() implies canonically_keyed((#[trigger] t[i]).0) by {
            assert(t[i] == pairs[i]);
        }
        lemma_hide_snapshot_keyed(delta, t, padding);
        let n = pairs.len() - 1;
        assert(canonically_keyed(pairs[n].0));
        let kn = choose|kn: KeyModel| storable(kn) && pairs[n].0 == #[trigger] canonical(kn);
        law_canonical_roundtrip(kn);
        assert(keyed(delta_key(kn, padding), padding));
    }
}

/// A prefix delete leaves layers that hold storable keys only.
pub proof fn law_delete_keeps_layers(m: StateModel, k: KeyModel)
    requires
        layers_ok(m),
    ensures
        layers_ok(after_delete(m, k)),
{
    if encodable(k.key) {
        lemma_runs(m, k);
        let p = delta_key(k, m.delta_padding);
        lemma_under_finite(m.delta, p);
        let cleared = outside(m.delta, p);
        assert(delta_keyed(cleared, m.delta_padding)) by {
            assert forall|raw: Seq<u8>| #[trigger] cleared.contains_key(raw) implies keyed(
                raw,
                m.delta_padding,
            ) by {
                assert(m.delta.contains_key(raw));
            }
        }
        let filter = address_filter(k.key);
        let run = intermediate_run(m, k);
        lemma_hide_records_keyed(cleared, run, filter, m.delta_padding, m.intermediate_padding);
        let hidden = hide_records(cleared, run, filter, m.delta_padding);
        lemma_hide_snapshot_keyed(hidden, snapshot_run(m, k), m.delta_padding);
    }
}

/// A prefix that reaches all its keys in every layer: everything, all under an address
/// prefix, or one whole field of an address.
pub open spec fn whole_prefix(k: KeyPart) -> bool {
    k is Empty || k is AddressPrefix || whole_field(k)
}

/// The canonical form of a storable key under the prefix `k`.
spec fn listed(k: KeyModel, c: Seq<u8>) -> bool {
    exists|x: KeyModel| storable(x) && reaches(k, x) && c == #[trigger] canonical(x)
}

/// Every key that a scan has found is one under the prefix.
spec fn all_listed(s: Scan, k: KeyModel) -> bool {
    forall|i: int| 0 <= i < s.result.len() ==> listed(k, (#[trigger] s.result[i]).0)
}

proof fn lemma_step_listed(
    s: Scan,
    k: KeyModel,
    filter: Option<Seq<u8>>,
    key: Seq<u8>,
    value: Option<Seq<u8>>,
)
    requires
        all_listed(s, k),
        passes(filter, key) ==> listed(k, key),
    ensures
        all_listed(scan_step(s, filter, key, value), k),
{
    let t = scan_step(s, filter, key, value);
    assert forall|i: int| 0 <= i < t.result.len() implies listed(k, (#[trigger] t.result[i]).0) by {
        if i < s.result.len() {
            assert(t.result[i] == s.result[i]);
        }
    }
}

/// A record that the prefix reaches in a layer, and that passes, is under the prefix.
proof fn lemma_record_listed(raw: Seq<u8>, padding: Seq<u8>, k: KeyModel)
    requires
        padding.len() == 32,
        keyed(raw, padding),
        encodable(k.key),
        whole_prefix(k.key),
        delta_key(k, padding).is_prefix_of(raw),
    ensures
        canonical_of(raw) is Ok,
        passes(address_filter(k.key), canonical_of(raw)->Ok_0) ==> listed(
            k,
            canonical_of(raw)->Ok_0,
        ),
{
    let x = choose|x: KeyModel| storable(x) && raw == #[trigger] delta_key(x, padding);
    lemma_canonical_of(x, padding);
    let c = canonical(x);
    if whole_field(k.key) {
        lemma_reach(k, x, padding);
    } else if k.key is Empty {
        assert(canonical(k) =~= c.subrange(0, 0));
    }
    if passes(address_filter(k.key), c) {
        assert(reaches(k, x));
    }
}

proof fn lemma_top_listed(
    pairs: Seq<(Seq<u8>, Option<Seq<u8>>)>,
    padding: Seq<u8>,
    k: KeyModel,
)
    requires
        padding.len() == 32,
        encodable(k.key),
        whole_prefix(k.key),
        forall|i: int|
            0 <= i < pairs.len() ==> keyed((#[trigger] pairs[i]).0, padding) && delta_key(
                k,
                padding,
            ).is_prefix_of(pairs[i].0),
    ensures
        all_listed(scan_top(pairs, address_filter(k.key)), k),
    decreases pairs.len(),
{
    if pairs.len() > 0 {
        let t = pairs.drop_last();
        let n = pairs.len() - 1;
        assert forall|i: int| 0 <= i < t.len() implies keyed((#[trigger] t[i]).0, padding)
            && delta_key(k, padding).is_prefix_of(t[i].0) by {
            assert(t[i] == pairs[i]);
        }
        lemma_top_listed(t, padding, k);
        lemma_record_listed(pairs[n].0, padding, k);
        let filter = address_filter(k.key);
        lemma_step_listed(
            scan_top(t, filter),
            k,
            filter,
            canonical_of(pairs[n].0)->Ok_0,
            pairs[n].1,
        );
    }
}

proof fn lemma_below_listed(
    start: Scan,
    pairs: Seq<(Seq<u8>, Option<Seq<u8>>)>,
    padding: Seq<u8>,
    k: KeyModel,
)
    requires
        all_listed(start, k),
        padding.len() == 32,
        encodable(k.key),
        whole_prefix(k.key),
        forall|i: int|
            0 <= i < pairs.len() ==> keyed((#[trigger] pairs[i]).0, padding) && delta_key(
                k,
                padding,
            ).is_prefix_of(pairs[i].0),
    ensures
        all_listed(scan_below(start, pairs, address_filter(k.key)), k),
    decreases pairs.len(),
{
    if pairs.len() > 0 {
        let t = pairs.drop_last();
        let n = pairs.len() - 1;
        assert forall|i: int| 0 <= i < t.len() implies keyed((#[trigger] t[i]).0, padding)
            && delta_key(k, padding).is_prefix_of(t[i].0) by {
            assert(t[i] == pairs[i]);
        }
        lemma_below_listed(start, t, padding, k);
        lemma_record_listed(pairs[n].0, padding, k);
        let filter = address_filter(k.key);
        lemma_step_listed(
            scan_below(start, t, filter),
            k,
            filter,
            canonical_of(pairs[n].0)->Ok_0,
            pairs[n].1,
        );
    }
}

proof fn lemma_snapshot_listed(start: Scan, pairs: Seq<(Seq<u8>, Seq<u8>)>, k: KeyModel)
    requires
        all_listed(start, k),
        forall|i: int| 0 <= i < pairs.len() ==> listed(k, (#[trigger] pairs[i]).0),
    ensures
        all_listed(scan_snapshot(start, pairs), k),
    decreases pairs.len(),
{
    if pairs.len() > 0 {
        let t = pairs.drop_last();
        let n = pairs.len() - 1;
        assert forall|i: int| 0 <= i < t.len() implies listed(k, (#[trigger] t[i]).0) by {
            assert(t[i] == pairs[i]);
        }
        lemma_snapshot_listed(start, t, k);
        assert(listed(k, pairs[n].0));
        lemma_step_listed(scan_snapshot(start, t), k, None, pairs[n].0, Some(pairs[n].1));
    }
}

/// A prefix read finds storable keys under the prefix only.
proof fn lemma_values_listed(m: StateModel, k: KeyModel)
    requires
        layers_ok(m),
        encodable(k.key),
        whole_prefix(k.key),
    ensures
        forall|i: int|
            0 <= i < prefix_values(m, k).len() ==> listed(k, (#[trigger] prefix_values(m, k)[i]).0),
{
    let dp = delta_key(k, m.delta_padding);
    let ip = delta_key(k, m.intermediate_padding);
    let d = under(m.delta, dp);
    let j = under(m.intermediate, ip);
    let s = under(m.snapshot, canonical(k));
    lemma_under_finite(m.delta, dp);
    lemma_under_finite(m.intermediate, ip);
    lemma_under_finite(m.snapshot, canonical(k));
    lemma_finite_ordered(d);
    lemma_finite_ordered(j);
    lemma_finite_ordered(s);
    lemma_pairs_map(ordered(d));
    lemma_pairs_map(ordered(j));
    lemma_pairs_map(ordered(s));
    let top = delta_run(m, k);
    assert forall|i: int| 0 <= i < top.len() implies keyed((#[trigger] top[i]).0, m.delta_padding)
        && dp.is_prefix_of(top[i].0) by {
        assert(d.contains_key(top[i].0));
        assert(m.delta.contains_key(top[i].0));
    }
    lemma_top_listed(top, m.delta_padding, k);
    let middle = intermediate_run(m, k);
    assert forall|i: int| 0 <= i < middle.len() implies keyed(
        (#[trigger] middle[i]).0,
        m.intermediate_padding,
    ) && ip.is_prefix_of(middle[i].0) by {
        assert(j.contains_key(middle[i].0));
        assert(m.intermediate.contains_key(middle[i].0));
    }
    let filter = address_filter(k.key);
    let s0 = scan_top(top, filter);
    lemma_below_listed(s0, middle, m.intermediate_padding, k);
    let bottom = snapshot_run(m, k);
    assert forall|i: int| 0 <= i < bottom.len() implies listed(k, (#[trigger] bottom[i]).0) by {
        assert(s.contains_key(bottom[i].0));
        assert(m.snapshot.contains_key(bottom[i].0));
        assert(canonically_keyed(bottom[i].0));
        let x = choose|x: KeyModel| storable(x) && bottom[i].0 == #[trigger] canonical(x);
        assert(reaches(k, x));
    }
    lemma_snapshot_listed(scan_below(s0, middle, filter), bottom, k);
}

/// After a prefix delete the same prefix read finds nothing, and every key that was
/// returned reads as absent: nothing comes back from a lower layer.
pub proof fn law_delete_empties(m: StateModel, k: KeyModel)
    requires
        layers_ok(m),
        whole_prefix(k.key),
    ensures
        prefix_delete(m, k) is Ok,
        prefix_read(after_delete(m, k), k) == Ok::<Seq<(Seq<u8>, Seq<u8>)>, Seq<char>>(
            Seq::empty(),
        ),
        forall|i: int|
            #![trigger prefix_values(m, k)[i]]
            0 <= i < prefix_values(m, k).len() ==> canonical_decode(
                prefix_values(m, k)[i].0,
            ) is Some && visible(
                after_delete(m, k),
                canonical_decode(prefix_values(m, k)[i].0)->0,
            ) is None,
{
    let after = after_delete(m, k);
    law_delete_keeps_layers(m, k);
    lemma_runs(m, k);
    lemma_runs(after, k);
    assert(snapshot_decodes(snapshot_run(m, k))) by {
        let pairs = snapshot_run(m, k);
        assert forall|i: int| 0 <= i < pairs.len() implies canonical_decode(
            (#[trigger] pairs[i]).0,
        ) is Some by {
            assert(canonically_keyed(pairs[i].0));
            let x = choose|x: KeyModel| storable(x) && pairs[i].0 == #[trigger] canonical(x);
            law_canonical_roundtrip(x);
        }
    }
    lemma_values_listed(after, k);
    let left = prefix_values(after, k);
    if left.len() > 0 {
        assert(listed(k, left[0].0));
        let x = choose|x: KeyModel|
            storable(x) && reaches(k, x) && left[0].0 == #[trigger] canonical(x);
        law_prefix_read(after, k, x, left[0].1);
        assert(left.contains((canonical(x), left[0].1)));
        law_delete_hides(m, k, x);
        assert(false);
    }
    assert(left =~= Seq::empty());
    lemma_values_listed(m, k);
    let values = prefix_values(m, k);
    assert forall|i: int|
        #![trigger prefix_values(m, k)[i]]
        0 <= i < values.len() implies canonical_decode(values[i].0) is Some && visible(
        after,
        canonical_decode(values[i].0)->0,
    ) is None by {
        assert(listed(k, values[i].0));
        let x = choose|x: KeyModel|
            storable(x) && reaches(k, x) && values[i].0 == #[trigger] canonical(x);
        law_canonical_roundtrip(x);
        law_delete_hides(m, k, x);
    }
}

/// What a prefix delete leaves in the delta layer: a tombstone for each key that has a live
/// record below the prefix in the intermediate layer, or a value in the snapshot; no record of
/// another key below the prefix; and every other record as it was. Nothing else changes.
pub proof fn law_delete_records(m: StateModel, k: KeyModel, x: KeyModel)
    requires
        layers_ok(m),
        encodable(k.key),
        storable(x),
    ensures
        ({
            let n = after_delete(m, k);
            let top = delta_key(x, m.delta_padding);
            let middle = delta_key(x, m.intermediate_padding);
            let named = k.key matches KeyPart::AddressPrefix(p) ==> p.is_prefix_of(canonical(x));
            let hidden = (m.intermediate.contains_key(middle) && m.intermediate[middle] is Some
                && delta_key(k, m.intermediate_padding).is_prefix_of(middle) && named) || (
            m.snapshot.contains_key(canonical(x)) && canonical(k).is_prefix_of(canonical(x)));
            let below = delta_key(k, m.delta_padding).is_prefix_of(top);
            &&& hidden ==> n.delta.contains_key(top) && n.delta[top] is None
            &&& !hidden && below ==> !n.delta.contains_key(top)
            &&& !hidden && !below ==> n.delta.contains_key(top) == m.delta.contains_key(top) && (
            m.delta.contains_key(top) ==> n.delta[top] == m.delta[top])
            &&& n.intermediate == m.intermediate
            &&& n.snapshot == m.snapshot
            &&& n.snapshot_root == m.snapshot_root
            &&& n.intermediate_root == m.intermediate_root
            &&& n.intermediate_padding == m.intermediate_padding
            &&& n.delta_padding == m.delta_padding
            &&& n.height == m.height
            &&& n.snapshot_epoch_count == m.snapshot_epoch_count
            &&& n.last_root == m.last_root
        }),
{
    lemma_runs(m, k);
    let filter = address_filter(k.key);
    let cleared = outside(m.delta, delta_key(k, m.delta_padding));
    let run = intermediate_run(m, k);
    lemma_hide_records(cleared, run, filter, m.delta_padding, m.intermediate_padding, x);
    let hidden = hide_records(cleared, run, filter, m.delta_padding);
    lemma_hide_snapshot(hidden, snapshot_run(m, k), m.delta_padding, x);
    let n = after_delete(m, k);
    let top = delta_key(x, m.delta_padding);
    let middle = delta_key(x, m.intermediate_padding);
    assert(n.delta == hide_snapshot(hidden, snapshot_run(m, k), m.delta_padding));
    let c = canonical(x);
    if m.snapshot.contains_key(c) {
        assert(has_key(snapshot_run(m, k), c) <==> canonical(k).is_prefix_of(c));
    } else {
        assert(!has_key(snapshot_run(m, k), c));
    }
    assert(pairs_map(run).contains_key(middle) <==> m.intermediate.contains_key(middle)
        && delta_key(k, m.intermediate_padding).is_prefix_of(middle));
    assert(cleared.contains_key(top) <==> m.delta.contains_key(top) && !delta_key(
        k,
        m.delta_padding,
    ).is_prefix_of(top));
    match k.key {
        KeyPart::AddressPrefix(p) => {
            assert(passes(filter, canonical(x)) == p.is_prefix_of(canonical(x)));
        },
        _ => {
            assert(passes(filter, canonical(x)));
        },
    }
}

} // verus!
