//! What a state holds and how each operation changes it.
use crate::bytemap::{ordered, outside, under};
use crate::incremental::all_live;
use crate::key_codec::{bad_address, canonical, canonical_decode, delta_decode, delta_key, encodable, padding_of, KeyModel, KeyPart};
use crate::state::DEFAULT_SNAPSHOT_EPOCH_COUNT;
use crate::store::PersistedModel;
use crate::trie::{layer_root, null_hash};
use crate::types::{state_root, CommitRoot, Error};
use vstd::prelude::*;

verus! {

/// The layers of a state, their roots and paddings, and its place in the period.
pub struct StateModel {
    pub snapshot: Map<Seq<u8>, Seq<u8>>,
    pub intermediate: Map<Seq<u8>, Option<Seq<u8>>>,
    pub delta: Map<Seq<u8>, Option<Seq<u8>>>,
    pub snapshot_root: Seq<u8>,
    pub intermediate_root: Seq<u8>,
    pub intermediate_padding: Seq<u8>,
    pub delta_padding: Seq<u8>,
    pub height: u64,
    pub snapshot_epoch_count: u32,
    pub last_root: Option<CommitRoot>,
}

/// `e` is the invalid-key error with the message `why`.
pub open spec fn fault(e: Error, why: Seq<char>) -> bool {
    e is InvalidKey && e->InvalidKey_0@ == why
}

/// A state that nothing was written to.
pub open spec fn initial(snapshot_epoch_count: u32) -> StateModel {
    StateModel {
        snapshot: Map::empty(),
        intermediate: Map::empty(),
        delta: Map::empty(),
        snapshot_root: null_hash(),
        intermediate_root: null_hash(),
        intermediate_padding: padding_of(null_hash(), null_hash()),
        delta_padding: padding_of(null_hash(), null_hash()),
        height: 0,
        snapshot_epoch_count,
        last_root: None,
    }
}

/// The state whose snapshot is `snapshot` and whose other layers are empty.
pub open spec fn from_snapshot_model(snapshot: Map<Seq<u8>, Seq<u8>>) -> StateModel {
    let snapshot_root = layer_root(all_live(snapshot));
    StateModel {
        snapshot,
        snapshot_root,
        delta_padding: padding_of(snapshot_root, null_hash()),
        ..initial(DEFAULT_SNAPSHOT_EPOCH_COUNT)
    }
}

/// The persisted form of a state.
pub open spec fn persisted_model(m: StateModel) -> PersistedModel {
    PersistedModel {
        snapshot: m.snapshot,
        intermediate: m.intermediate,
        delta: m.delta,
        intermediate_padding: m.intermediate_padding,
        delta_padding: m.delta_padding,
        height: m.height,
        snapshot_epoch_count: m.snapshot_epoch_count,
        last_root: m.last_root,
    }
}

/// The state that starts again from a persisted form. Its roots are computed anew.
pub open spec fn restored(p: PersistedModel) -> StateModel {
    StateModel {
        snapshot: p.snapshot,
        intermediate: p.intermediate,
        delta: p.delta,
        snapshot_root: layer_root(all_live(p.snapshot)),
        intermediate_root: layer_root(p.intermediate),
        intermediate_padding: p.intermediate_padding,
        delta_padding: p.delta_padding,
        height: p.height,
        snapshot_epoch_count: if p.snapshot_epoch_count == 0 {
            DEFAULT_SNAPSHOT_EPOCH_COUNT
        } else {
            p.snapshot_epoch_count
        },
        last_root: p.last_root,
    }
}

/// The value of a key: the first layer from the top that has a record of it
/// decides, and a tombstone hides what lies below.
pub open spec fn visible(m: StateModel, k: KeyModel) -> Option<Seq<u8>> {
    let top = delta_key(k, m.delta_padding);
    let middle = delta_key(k, m.intermediate_padding);
    if m.delta.contains_key(top) {
        m.delta[top]
    } else if m.intermediate.contains_key(middle) {
        m.intermediate[middle]
    } else if m.snapshot.contains_key(canonical(k)) {
        Some(m.snapshot[canonical(k)])
    } else {
        None
    }
}

/// The record that a written value makes. Writing nothing deletes.
pub open spec fn record(value: Seq<u8>) -> Option<Seq<u8>> {
    if value.len() == 0 {
        None
    } else {
        Some(value)
    }
}

/// The state after `value` was written to `k`.
pub open spec fn after_set(m: StateModel, k: KeyModel, value: Seq<u8>) -> StateModel {
    StateModel { delta: m.delta.insert(delta_key(k, m.delta_padding), record(value)), ..m }
}

/// The canonical form of the key that a delta key stands for, or why there is none.
pub open spec fn canonical_of(raw: Seq<u8>) -> Result<Seq<u8>, Seq<char>> {
    match delta_decode(raw) {
        Ok(k) => if encodable(k.key) {
            Ok(canonical(k))
        } else {
            Err(bad_address())
        },
        Err(why) => Err(why),
    }
}

/// Every record's key has a canonical form.
pub open spec fn decodes(pairs: Seq<(Seq<u8>, Option<Seq<u8>>)>) -> bool {
    forall|i: int| 0 <= i < pairs.len() ==> canonical_of((#[trigger] pairs[i]).0) is Ok
}

/// Why the first record without a canonical form has none.
pub open spec fn first_fault(pairs: Seq<(Seq<u8>, Option<Seq<u8>>)>) -> Seq<char>
    decreases pairs.len(),
{
    if pairs.len() == 0 {
        Seq::empty()
    } else if decodes(pairs.drop_last()) {
        canonical_of(pairs.last().0)->Err_0
    } else {
        first_fault(pairs.drop_last())
    }
}

/// The snapshot after the records were merged into it one by one, up to the first
/// whose key has no canonical form.
pub open spec fn merged(
    snapshot: Map<Seq<u8>, Seq<u8>>,
    pairs: Seq<(Seq<u8>, Option<Seq<u8>>)>,
) -> Map<Seq<u8>, Seq<u8>>
    decreases pairs.len(),
{
    if pairs.len() == 0 {
        snapshot
    } else {
        let before = merged(snapshot, pairs.drop_last());
        if !decodes(pairs) {
            before
        } else {
            let key = canonical_of(pairs.last().0)->Ok_0;
            match pairs.last().1 {
                Some(value) => before.insert(key, value),
                None => before.remove(key),
            }
        }
    }
}

/// `root` binds the roots of the layers of `m`.
pub open spec fn is_commit_root(m: StateModel, root: CommitRoot) -> bool {
    &&& root.snapshot_root@ == m.snapshot_root
    &&& root.intermediate_delta_root@ == m.intermediate_root
    &&& root.delta_root@ == layer_root(m.delta)
    &&& root.state_root_hash@ == state_root(
        m.snapshot_root,
        m.intermediate_root,
        layer_root(m.delta),
    )
    &&& root.delta_mpt_key_padding@ == m.delta_padding
}

/// The next commit ends a period.
pub open spec fn at_boundary(m: StateModel) -> bool {
    (m.height + 1) % m.snapshot_epoch_count as int == 0
}

/// The next commit succeeds: it does not end a period, or every record of the
/// intermediate layer can be merged.
pub open spec fn commits(m: StateModel) -> bool {
    at_boundary(m) ==> decodes(ordered(m.intermediate))
}

/// The layers after a period has ended: the snapshot takes in the intermediate
/// layer, the delta becomes the intermediate layer, and a new delta starts.
pub open spec fn rotated(m: StateModel) -> StateModel {
    let snapshot = merged(m.snapshot, ordered(m.intermediate));
    let snapshot_root = layer_root(all_live(snapshot));
    let intermediate_root = layer_root(m.delta);
    StateModel {
        snapshot,
        intermediate: m.delta,
        delta: Map::empty(),
        snapshot_root,
        intermediate_root,
        intermediate_padding: m.delta_padding,
        delta_padding: padding_of(snapshot_root, intermediate_root),
        ..m
    }
}

/// The state after a commit with the commit root `root`. A commit that cannot
/// merge the intermediate layer has dropped it and kept what was merged so far.
pub open spec fn after_commit(m: StateModel, root: CommitRoot) -> StateModel {
    let counted = StateModel { height: (m.height + 1) as u64, last_root: Some(root), ..m };
    if !at_boundary(m) {
        counted
    } else if commits(m) {
        rotated(counted)
    } else {
        StateModel {
            snapshot: merged(m.snapshot, ordered(m.intermediate)),
            intermediate: Map::empty(),
            ..counted
        }
    }
}

/// A prefix scan under way: the values found, and the keys that are settled.
pub struct Scan {
    pub result: Seq<(Seq<u8>, Seq<u8>)>,
    pub seen: Set<Seq<u8>>,
}

/// The address prefix that canonical keys must have, where one was asked for.
pub open spec fn address_filter(k: KeyPart) -> Option<Seq<u8>> {
    match k {
        KeyPart::AddressPrefix(p) => Some(p),
        _ => None,
    }
}

pub open spec fn passes(filter: Option<Seq<u8>>, key: Seq<u8>) -> bool {
    match filter {
        Some(p) => p.is_prefix_of(key),
        None => true,
    }
}

/// One record met on a scan.
pub open spec fn scan_step(
    s: Scan,
    filter: Option<Seq<u8>>,
    key: Seq<u8>,
    value: Option<Seq<u8>>,
) -> Scan {
    if passes(filter, key) {
        Scan {
            result: match value {
                Some(v) => s.result.push((key, v)),
                None => s.result,
            },
            seen: s.seen.insert(key),
        }
    } else {
        s
    }
}

/// The scan of the top layer, whose records are all taken.
pub open spec fn scan_top(
    pairs: Seq<(Seq<u8>, Option<Seq<u8>>)>,
    filter: Option<Seq<u8>>,
) -> Scan
    decreases pairs.len(),
{
    if pairs.len() == 0 {
        Scan { result: Seq::empty(), seen: Set::empty() }
    } else {
        scan_step(
            scan_top(pairs.drop_last(), filter),
            filter,
            canonical_of(pairs.last().0)->Ok_0,
            pairs.last().1,
        )
    }
}

/// The scan of a lower layer, in which keys that are settled are passed over.
pub open spec fn scan_below(
    start: Scan,
    pairs: Seq<(Seq<u8>, Option<Seq<u8>>)>,
    filter: Option<Seq<u8>>,
) -> Scan
    decreases pairs.len(),
{
    if pairs.len() == 0 {
        start
    } else {
        let s = scan_below(start, pairs.drop_last(), filter);
        let key = canonical_of(pairs.last().0)->Ok_0;
        if s.seen.contains(key) {
            s
        } else {
            scan_step(s, filter, key, pairs.last().1)
        }
    }
}

/// The scan of the snapshot.
pub open spec fn scan_snapshot(start: Scan, pairs: Seq<(Seq<u8>, Seq<u8>)>) -> Scan
    decreases pairs.len(),
{
    if pairs.len() == 0 {
        start
    } else {
        let s = scan_snapshot(start, pairs.drop_last());
        let (key, value) = pairs.last();
        if s.seen.contains(key) {
            s
        } else {
            scan_step(s, None, key, Some(value))
        }
    }
}

/// The delta records that a prefix reaches, in order.
pub open spec fn delta_run(m: StateModel, k: KeyModel) -> Seq<(Seq<u8>, Option<Seq<u8>>)> {
    ordered(under(m.delta, delta_key(k, m.delta_padding)))
}

/// The intermediate records that a prefix reaches, in order.
pub open spec fn intermediate_run(m: StateModel, k: KeyModel) -> Seq<(Seq<u8>, Option<Seq<u8>>)> {
    ordered(under(m.intermediate, delta_key(k, m.intermediate_padding)))
}

/// The snapshot records that a prefix reaches, in order.
pub open spec fn snapshot_run(m: StateModel, k: KeyModel) -> Seq<(Seq<u8>, Seq<u8>)> {
    ordered(under(m.snapshot, canonical(k)))
}

/// What a prefix read finds: every canonical key where it first occurs from the
/// top, without those that a tombstone hides.
pub open spec fn prefix_values(m: StateModel, k: KeyModel) -> Seq<(Seq<u8>, Seq<u8>)> {
    let filter = address_filter(k.key);
    let top = scan_top(delta_run(m, k), filter);
    let middle = scan_below(top, intermediate_run(m, k), filter);
    scan_snapshot(middle, snapshot_run(m, k)).result
}

/// What a prefix read returns, or why it fails.
pub open spec fn prefix_read(m: StateModel, k: KeyModel) -> Result<
    Seq<(Seq<u8>, Seq<u8>)>,
    Seq<char>,
> {
    if !encodable(k.key) {
        Err(bad_address())
    } else if !decodes(delta_run(m, k)) {
        Err(first_fault(delta_run(m, k)))
    } else if !decodes(intermediate_run(m, k)) {
        Err(first_fault(intermediate_run(m, k)))
    } else {
        Ok(prefix_values(m, k))
    }
}

/// Every snapshot key stands for a logical key.
pub open spec fn snapshot_decodes(pairs: Seq<(Seq<u8>, Seq<u8>)>) -> bool {
    forall|i: int| 0 <= i < pairs.len() ==> canonical_decode((#[trigger] pairs[i]).0) is Some
}

/// What a prefix delete returns, or why it fails.
pub open spec fn prefix_delete(m: StateModel, k: KeyModel) -> Result<
    Seq<(Seq<u8>, Seq<u8>)>,
    Seq<char>,
> {
    match prefix_read(m, k) {
        Ok(values) => if snapshot_decodes(snapshot_run(m, k)) {
            Ok(values)
        } else {
            Err("unknown snapshot key suffix"@)
        },
        Err(why) => Err(why),
    }
}

/// The delta after the live intermediate records that pass were each hidden by a
/// tombstone, up to the first whose key has no canonical form.
pub open spec fn hide_records(
    delta: Map<Seq<u8>, Option<Seq<u8>>>,
    pairs: Seq<(Seq<u8>, Option<Seq<u8>>)>,
    filter: Option<Seq<u8>>,
    padding: Seq<u8>,
) -> Map<Seq<u8>, Option<Seq<u8>>>
    decreases pairs.len(),
{
    if pairs.len() == 0 {
        delta
    } else {
        let before = hide_records(delta, pairs.drop_last(), filter, padding);
        let (raw, value) = pairs.last();
        if decodes(pairs) && passes(filter, canonical_of(raw)->Ok_0) && value is Some {
            before.insert(delta_key(delta_decode(raw)->Ok_0, padding), None)
        } else {
            before
        }
    }
}

/// The delta after the snapshot records were each hidden by a tombstone, up to the
/// first whose key stands for no logical key.
pub open spec fn hide_snapshot(
    delta: Map<Seq<u8>, Option<Seq<u8>>>,
    pairs: Seq<(Seq<u8>, Seq<u8>)>,
    padding: Seq<u8>,
) -> Map<Seq<u8>, Option<Seq<u8>>>
    decreases pairs.len(),
{
    if pairs.len() == 0 {
        delta
    } else {
        let before = hide_snapshot(delta, pairs.drop_last(), padding);
        if snapshot_decodes(pairs) {
            before.insert(
                delta_key(canonical_decode(pairs.last().0)->0, padding),
                None,
            )
        } else {
            before
        }
    }
}

/// The state after a prefix delete. The delta records that the prefix reaches are
/// removed, whatever their address; those below are hidden by tombstones.
pub open spec fn after_delete(m: StateModel, k: KeyModel) -> StateModel {
    if !encodable(k.key) {
        m
    } else {
        let cleared = outside(m.delta, delta_key(k, m.delta_padding));
        let delta = if !decodes(delta_run(m, k)) {
            cleared
        } else {
            let hidden = hide_records(
                cleared,
                intermediate_run(m, k),
                address_filter(k.key),
                m.delta_padding,
            );
            if !decodes(intermediate_run(m, k)) {
                hidden
            } else {
                hide_snapshot(hidden, snapshot_run(m, k), m.delta_padding)
            }
        };
        StateModel { delta, ..m }
    }
}

/// The first record without a canonical form decides the fault, and is where
/// merging and hiding stop.
pub proof fn lemma_fault_at(pairs: Seq<(Seq<u8>, Option<Seq<u8>>)>, i: int)
    requires
        0 <= i < pairs.len(),
        decodes(pairs.take(i)),
        canonical_of(pairs[i].0) is Err,
    ensures
        !decodes(pairs),
        first_fault(pairs) == canonical_of(pairs[i].0)->Err_0,
        forall|s: Map<Seq<u8>, Seq<u8>>| #[trigger] merged(s, pairs) == merged(s, pairs.take(i)),
        forall|d: Map<Seq<u8>, Option<Seq<u8>>>, f: Option<Seq<u8>>, p: Seq<u8>| #[trigger]
            hide_records(d, pairs, f, p) == hide_records(d, pairs.take(i), f, p),
    decreases pairs.len(),
{
    let t = pairs.drop_last();
    if i == pairs.len() - 1 {
        assert(pairs.take(i) =~= t);
    } else {
        assert(t.take(i) =~= pairs.take(i));
        assert(t[i] == pairs[i]);
        lemma_fault_at(t, i);
        assert forall|s: Map<Seq<u8>, Seq<u8>>| #[trigger]
            merged(s, pairs) == merged(s, pairs.take(i)) by {
            assert(merged(s, t) == merged(s, t.take(i)));
        }
        assert forall|d: Map<Seq<u8>, Option<Seq<u8>>>, f: Option<Seq<u8>>, p: Seq<u8>| #[trigger]
            hide_records(d, pairs, f, p) == hide_records(d, pairs.take(i), f, p) by {
            assert(hide_records(d, t, f, p) == hide_records(d, t.take(i), f, p));
        }
    }
}

pub proof fn lemma_decodes_step(pairs: Seq<(Seq<u8>, Option<Seq<u8>>)>, i: int)
    requires
        0 <= i < pairs.len(),
        decodes(pairs.take(i)),
        canonical_of(pairs[i].0) is Ok,
    ensures
        decodes(pairs.take(i + 1)),
        pairs.take(i + 1).drop_last() == pairs.take(i),
        pairs.take(i + 1).last() == pairs[i],
{
    let t = pairs.take(i + 1);
    assert(t.drop_last() =~= pairs.take(i));
    assert forall|j: int| 0 <= j < t.len() implies canonical_of((#[trigger] t[j]).0) is Ok by {
        if j < i {
            assert(pairs.take(i)[j] == t[j]);
        }
    }
}

/// The first snapshot key that stands for no logical key is where hiding stops.
pub proof fn lemma_snapshot_fault_at(pairs: Seq<(Seq<u8>, Seq<u8>)>, i: int)
    requires
        0 <= i < pairs.len(),
        snapshot_decodes(pairs.take(i)),
        canonical_decode(pairs[i].0) is None,
    ensures
        !snapshot_decodes(pairs),
        forall|d: Map<Seq<u8>, Option<Seq<u8>>>, p: Seq<u8>| #[trigger]
            hide_snapshot(d, pairs, p) == hide_snapshot(d, pairs.take(i), p),
    decreases pairs.len(),
{
    let t = pairs.drop_last();
    if i == pairs.len() - 1 {
        assert(pairs.take(i) =~= t);
    } else {
        assert(t.take(i) =~= pairs.take(i));
        assert(t[i] == pairs[i]);
        lemma_snapshot_fault_at(t, i);
        assert forall|d: Map<Seq<u8>, Option<Seq<u8>>>, p: Seq<u8>| #[trigger]
            hide_snapshot(d, pairs, p) == hide_snapshot(d, pairs.take(i), p) by {
            assert(hide_snapshot(d, t, p) == hide_snapshot(d, t.take(i), p));
        }
    }
}

} // verus!
