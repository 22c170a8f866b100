//! What writing, reading, committing and starting again do to the layers of a state.
use crate::bytemap::{lemma_finite_ordered, lemma_pairs_map, ordered};
use crate::incremental::all_live;
use crate::key_codec::{canonical, delta_key, storable, KeyModel};
use crate::key_law::law_padding;
use crate::state::manager::starting_model;
use crate::state::value_view;
use crate::state::laws::{keyed, layers_ok, lemma_keyed_decodes, lemma_merged};
use crate::state::model::{after_commit, after_set, canonical_of, commits, decodes, first_fault, from_snapshot_model, initial, is_commit_root, lemma_fault_at, merged, persisted_model, restored, visible, StateModel};
use crate::store::PersistedModel;
use crate::trie::{keccak_digest, layer_root};
use crate::types::{law_state_root, CommitRoot};
use vstd::prelude::*;

verus! {

/// A write puts one record into the delta layer, under the delta form of its key: the value,
/// or a tombstone for an empty value. Nothing else changes.
pub proof fn law_set_writes(m: StateModel, k: KeyModel, value: Seq<u8>)
    ensures
        ({
            let n = after_set(m, k, value);
            let raw = delta_key(k, m.delta_padding);
            &&& value.len() > 0 ==> n.delta == m.delta.insert(raw, Some(value))
            &&& value.len() == 0 ==> n.delta == m.delta.insert(raw, None)
            &&& n.intermediate == m.intermediate
            &&& n.snapshot == m.snapshot
            &&& n.snapshot_root == m.snapshot_root
            &&& n.intermediate_root == m.intermediate_root
            &&& n.intermediate_padding == m.intermediate_padding
            &&& n.delta_padding == m.delta_padding
            &&& n.height == m.height
            &&& n.snapshot_epoch_count == m.snapshot_epoch_count
            &&& n.last_root == m.last_root
        }),
{
}

/// A read takes the record of the delta layer where there is one, else that of the
/// intermediate layer, else that of the snapshot. A tombstone reads as nothing.
pub proof fn law_read_layers(m: StateModel, k: KeyModel, value: Seq<u8>)
    ensures
        ({
            let top = delta_key(k, m.delta_padding);
            let middle = delta_key(k, m.intermediate_padding);
            &&& m.delta.contains_key(top) && m.delta[top] == Some(value) ==> visible(m, k) == Some(
                value,
            )
            &&& m.delta.contains_key(top) && m.delta[top] is None ==> visible(m, k) is None
            &&& !m.delta.contains_key(top) && m.intermediate.contains_key(middle)
                && m.intermediate[middle] == Some(value) ==> visible(m, k) == Some(value)
            &&& !m.delta.contains_key(top) && m.intermediate.contains_key(middle)
                && m.intermediate[middle] is None ==> visible(m, k) is None
            &&& !m.delta.contains_key(top) && !m.intermediate.contains_key(middle)
                && m.snapshot.contains_key(canonical(k)) && m.snapshot[canonical(k)] == value
                ==> visible(m, k) == Some(value)
            &&& !m.delta.contains_key(top) && !m.intermediate.contains_key(middle)
                && !m.snapshot.contains_key(canonical(k)) ==> visible(m, k) is None
        }),
{
}

/// A commit root holds the roots of the three layers and the padding of the delta layer, and
/// its state root is the digest of the three roots one after the other.
pub proof fn law_commit_root(m: StateModel, root: CommitRoot, pre: Seq<u8>)
    requires
        is_commit_root(m, root),
        m.snapshot_root.len() == 32,
        m.intermediate_root.len() == 32,
        pre.len() == 96,
        pre.subrange(0, 32) == m.snapshot_root,
        pre.subrange(32, 64) == m.intermediate_root,
        pre.subrange(64, 96) == layer_root(m.delta),
    ensures
        root.snapshot_root@ == m.snapshot_root,
        root.intermediate_delta_root@ == m.intermediate_root,
        root.delta_root@ == layer_root(m.delta),
        root.delta_mpt_key_padding@ == m.delta_padding,
        root.state_root_hash@ == keccak_digest(pre)@,
{
    law_state_root(m.snapshot_root, m.intermediate_root, layer_root(m.delta), pre);
}

/// A commit adds one to the height and keeps its root. Where the new height is no multiple of
/// the period, no layer changes.
pub proof fn law_commit_counts(m: StateModel, root: CommitRoot)
    requires
        m.height < u64::MAX,
        m.snapshot_epoch_count > 0,
    ensures
        ({
            let n = after_commit(m, root);
            &&& n.height == m.height + 1
            &&& n.last_root == Some(root)
            &&& n.snapshot_epoch_count == m.snapshot_epoch_count
            &&& n.height % m.snapshot_epoch_count as u64 != 0 ==> {
                &&& commits(m)
                &&& n.delta == m.delta
                &&& n.intermediate == m.intermediate
                &&& n.snapshot == m.snapshot
                &&& n.snapshot_root == m.snapshot_root
                &&& n.intermediate_root == m.intermediate_root
                &&& n.intermediate_padding == m.intermediate_padding
                &&& n.delta_padding == m.delta_padding
            }
        }),
{
}

/// A commit at the end of a period empties the delta layer. What it held is the intermediate
/// layer now, with the padding and the root that the delta layer had. The snapshot has taken
/// the intermediate layer in, and the new padding is the digest of the root of the snapshot
/// followed by that of the intermediate layer.
pub proof fn law_commit_rotates(m: StateModel, root: CommitRoot, k: KeyModel, pre: Seq<u8>)
    requires
        layers_ok(m),
        m.height < u64::MAX,
        m.snapshot_epoch_count > 0,
        (m.height + 1) % m.snapshot_epoch_count as int == 0,
        is_commit_root(m, root),
        storable(k),
        pre.len() == 64,
        pre.subrange(0, 32) == layer_root(all_live(after_commit(m, root).snapshot)),
        pre.subrange(32, 64) == root.delta_root@,
    ensures
        ({
            let n = after_commit(m, root);
            let raw = delta_key(k, m.intermediate_padding);
            &&& n.delta == Map::<Seq<u8>, Option<Seq<u8>>>::empty()
            &&& n.intermediate == m.delta
            &&& n.intermediate_root == root.delta_root@
            &&& n.intermediate_padding == m.delta_padding
            &&& n.snapshot_root == layer_root(all_live(n.snapshot))
            &&& n.delta_padding == keccak_digest(pre)@
            &&& m.intermediate.contains_key(raw) && m.intermediate[raw] is Some ==> {
                &&& n.snapshot.contains_key(canonical(k))
                &&& Some(n.snapshot[canonical(k)]) == m.intermediate[raw]
            }
            &&& m.intermediate.contains_key(raw) && m.intermediate[raw] is None
                ==> !n.snapshot.contains_key(canonical(k))
            &&& !m.intermediate.contains_key(raw) ==> {
                &&& n.snapshot.contains_key(canonical(k)) == m.snapshot.contains_key(canonical(k))
                &&& m.snapshot.contains_key(canonical(k)) ==> n.snapshot[canonical(k)]
                    == m.snapshot[canonical(k)]
            }
        }),
{
    let pairs = ordered(m.intermediate);
    lemma_finite_ordered(m.intermediate);
    lemma_pairs_map(pairs);
    assert forall|i: int| 0 <= i < pairs.len() implies keyed(
        (#[trigger] pairs[i]).0,
        m.intermediate_padding,
    ) by {
        assert(m.intermediate.contains_key(pairs[i].0));
    }
    lemma_keyed_decodes(pairs, m.intermediate_padding);
    lemma_merged(m.snapshot, pairs, m.intermediate_padding, k);
    law_padding(layer_root(all_live(after_commit(m, root).snapshot)), root.delta_root@, pre);
}

/// All records of a snapshot are live.
pub proof fn law_all_live(snapshot: Map<Seq<u8>, Seq<u8>>, key: Seq<u8>)
    ensures
        all_live(snapshot).contains_key(key) <==> snapshot.contains_key(key),
        snapshot.contains_key(key) ==> all_live(snapshot)[key] == Some(snapshot[key]),
{
}

/// A new state has no records, the roots of empty layers, no commits, and for both paddings
/// the digest of the root of an empty layer twice. One over a snapshot has that snapshot and
/// its root, and the padding that follows from it. Its periods have 2000 epochs.
pub proof fn law_new_state(count: u32, snapshot: Map<Seq<u8>, Seq<u8>>, pre: Seq<u8>, next: Seq<u8>)
    requires
        pre.len() == 64,
        pre.subrange(0, 32) == layer_root(Map::empty()),
        pre.subrange(32, 64) == layer_root(Map::empty()),
        next.len() == 64,
        next.subrange(0, 32) == layer_root(all_live(snapshot)),
        next.subrange(32, 64) == layer_root(Map::empty()),
    ensures
        ({
            let m = initial(count);
            &&& m.snapshot == Map::<Seq<u8>, Seq<u8>>::empty()
            &&& m.intermediate == Map::<Seq<u8>, Option<Seq<u8>>>::empty()
            &&& m.delta == Map::<Seq<u8>, Option<Seq<u8>>>::empty()
            &&& m.snapshot_root == layer_root(Map::empty())
            &&& m.intermediate_root == layer_root(Map::empty())
            &&& m.intermediate_padding == keccak_digest(pre)@
            &&& m.delta_padding == keccak_digest(pre)@
            &&& m.height == 0
            &&& m.snapshot_epoch_count == count
            &&& m.last_root is None
        }),
        ({
            let m = from_snapshot_model(snapshot);
            &&& m.snapshot == snapshot
            &&& m.intermediate == Map::<Seq<u8>, Option<Seq<u8>>>::empty()
            &&& m.delta == Map::<Seq<u8>, Option<Seq<u8>>>::empty()
            &&& m.snapshot_root == layer_root(all_live(snapshot))
            &&& m.intermediate_root == layer_root(Map::empty())
            &&& m.intermediate_padding == keccak_digest(pre)@
            &&& m.delta_padding == keccak_digest(next)@
            &&& m.height == 0
            &&& m.snapshot_epoch_count == 2000
            &&& m.last_root is None
        }),
{
    let none = layer_root(Map::empty());
    law_padding(none, none, pre);
    law_padding(layer_root(all_live(snapshot)), none, next);
}

/// A persisted state holds the layers, paddings, height, period and last root of the state.
/// Starting again from it takes them over and computes the roots of the two lower layers. A
/// period of zero epochs stands for one of 2000.
pub proof fn law_persist(m: StateModel, p: PersistedModel)
    ensures
        ({
            let d = persisted_model(m);
            &&& d.snapshot == m.snapshot
            &&& d.intermediate == m.intermediate
            &&& d.delta == m.delta
            &&& d.intermediate_padding == m.intermediate_padding
            &&& d.delta_padding == m.delta_padding
            &&& d.height == m.height
            &&& d.snapshot_epoch_count == m.snapshot_epoch_count
            &&& d.last_root == m.last_root
        }),
        ({
            let r = restored(p);
            &&& r.snapshot == p.snapshot
            &&& r.intermediate == p.intermediate
            &&& r.delta == p.delta
            &&& r.snapshot_root == layer_root(all_live(p.snapshot))
            &&& r.intermediate_root == layer_root(p.intermediate)
            &&& r.intermediate_padding == p.intermediate_padding
            &&& r.delta_padding == p.delta_padding
            &&& r.height == p.height
            &&& p.snapshot_epoch_count > 0 ==> r.snapshot_epoch_count == p.snapshot_epoch_count
            &&& p.snapshot_epoch_count == 0 ==> r.snapshot_epoch_count == 2000
            &&& r.last_root == p.last_root
        }),
{
}

/// A commit at the end of a period fails where a record of the intermediate layer has no
/// canonical form. The first of them tells why. The intermediate layer is dropped, the snapshot
/// has taken in the records before that one, and the delta layer, the roots and the paddings stay.
pub proof fn law_commit_fails(m: StateModel, root: CommitRoot, i: int)
    requires
        m.height < u64::MAX,
        m.snapshot_epoch_count > 0,
        (m.height + 1) % m.snapshot_epoch_count as int == 0,
        0 <= i < ordered(m.intermediate).len(),
        canonical_of(ordered(m.intermediate)[i].0) is Err,
        forall|j: int| 0 <= j < i ==> canonical_of((#[trigger] ordered(m.intermediate)[j]).0) is Ok,
    ensures
        !commits(m),
        ({
            let n = after_commit(m, root);
            let pairs = ordered(m.intermediate);
            &&& first_fault(pairs) == canonical_of(pairs[i].0)->Err_0
            &&& n.intermediate == Map::<Seq<u8>, Option<Seq<u8>>>::empty()
            &&& n.snapshot == merged(m.snapshot, pairs.take(i))
            &&& n.delta == m.delta
            &&& n.snapshot_root == m.snapshot_root
            &&& n.intermediate_root == m.intermediate_root
            &&& n.intermediate_padding == m.intermediate_padding
            &&& n.delta_padding == m.delta_padding
            &&& n.height == m.height + 1
            &&& n.last_root == Some(root)
        }),
{
    let pairs = ordered(m.intermediate);
    assert(decodes(pairs.take(i))) by {
        assert forall|j: int| 0 <= j < pairs.take(i).len() implies canonical_of(
            (#[trigger] pairs.take(i)[j]).0,
        ) is Ok by {
            assert(pairs.take(i)[j] == pairs[j]);
        }
    }
    lemma_fault_at(pairs, i);
    assert(merged(m.snapshot, pairs) == merged(m.snapshot, pairs.take(i)));
}

/// Records are merged into a snapshot one by one: a live one is stored under the canonical form of
/// its key, and a tombstone removes it.
pub proof fn law_merge_one(
    snapshot: Map<Seq<u8>, Seq<u8>>,
    pairs: Seq<(Seq<u8>, Option<Seq<u8>>)>,
    raw: Seq<u8>,
    value: Seq<u8>,
)
    requires
        decodes(pairs),
        canonical_of(raw) is Ok,
    ensures
        merged(snapshot, Seq::empty()) == snapshot,
        merged(snapshot, pairs.push((raw, Some(value)))) == merged(snapshot, pairs).insert(
            canonical_of(raw)->Ok_0,
            value,
        ),
        merged(snapshot, pairs.push((raw, None))) == merged(snapshot, pairs).remove(
            canonical_of(raw)->Ok_0,
        ),
{
    let live = pairs.push((raw, Some(value)));
    let dead = pairs.push((raw, None));
    assert(live.drop_last() =~= pairs);
    assert(dead.drop_last() =~= pairs);
    assert forall|j: int| 0 <= j < live.len() implies canonical_of((#[trigger] live[j]).0) is Ok by {
        if j < pairs.len() {
            assert(live[j] == pairs[j]);
        }
    }
    assert forall|j: int| 0 <= j < dead.len() implies canonical_of((#[trigger] dead[j]).0) is Ok by {
        if j < pairs.len() {
            assert(dead[j] == pairs[j]);
        }
    }
}

/// A manager starts from the state that its store holds, and from an empty one with periods of
/// 2000 epochs where it holds none.
pub proof fn law_starting(p: PersistedModel)
    ensures
        starting_model(Some(p)) == restored(p),
        starting_model(None) == initial(2000),
{
}

/// A read gives the bytes of the value, or nothing.
pub proof fn law_value_view(v: Option<Box<[u8]>>)
    ensures
        v matches Some(b) ==> value_view(v) == Some(b@),
        v is None ==> value_view(v) is None,
{
}

} // verus!
