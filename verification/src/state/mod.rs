//! The three-layer state: snapshot, intermediate and delta.
use crate::bytemap::{ordered, ByteMap};
use crate::bytes::to_boxed;
use crate::incremental::{all_live, kv_pairs, live_under, CachePolicy, IncrementalTrie};
use crate::key_codec::{bad_address, canonical, delta_key, encodable, padding_of, DeltaMptKeyPadding, StorageKeyWithSpace};
use crate::snapshot::SnapshotTrie;
use crate::state::model::{after_commit, after_delete, after_set, commits, fault, first_fault, from_snapshot_model, initial, is_commit_root, persisted_model, prefix_delete, prefix_read, restored, visible, StateModel};
use crate::store::{from_disk, to_disk, PersistedState};
use crate::trie::{layer_root, trie_root, MptValue};
use crate::types::{CommitRoot, MptKeyValue, Result, H256, MERKLE_NULL_NODE};
use vstd::prelude::*;

pub mod commit_law;
pub mod laws;
pub mod manager;
pub mod model;
pub mod order_law;
mod prefix;
mod rotation;

verus! {

/// Number of epochs in a snapshot period, unless another is asked for.
pub const DEFAULT_SNAPSHOT_EPOCH_COUNT: u32 = 2000;

/// The value of a read as a byte string.
pub open spec fn value_view(v: Option<Box<[u8]>>) -> Option<Seq<u8>> {
    match v {
        Some(b) => Some(b@),
        None => None,
    }
}

/// `r` is what a prefix operation with the outcome `want` returns: the values, or
/// nothing where there are none.
pub open spec fn is_prefix_result(
    r: Result<Option<Vec<MptKeyValue>>>,
    want: core::result::Result<Seq<(Seq<u8>, Seq<u8>)>, Seq<char>>,
) -> bool {
    match r {
        Ok(Some(values)) => want is Ok && kv_pairs(values@) == want->Ok_0 && values@.len() > 0,
        Ok(None) => want is Ok && want->Ok_0.len() == 0,
        Err(e) => want is Err && fault(e, want->Err_0),
    }
}

/// Reading, writing and committing a layered state.
pub trait StateTrait {
    /// The state is well formed.
    spec fn valid(&self) -> bool;

    /// What the state holds.
    spec fn model(&self) -> StateModel;

    /// The value of `key`.
    fn get(&self, key: StorageKeyWithSpace) -> (r: Result<Option<Box<[u8]>>>)
        requires
            self.valid(),
        ensures
            match r {
                Ok(v) => encodable(key@.key) && value_view(v) == visible(self.model(), key@),
                Err(e) => !encodable(key@.key) && fault(e, bad_address()),
            },
    ;

    /// Writes `value` to `key`. An empty value deletes the key.
    fn set(&mut self, key: StorageKeyWithSpace, value: Box<[u8]>) -> (r: Result<()>)
        requires
            old(self).valid(),
        ensures
            final(self).valid(),
            match r {
                Ok(_) => encodable(key@.key) && final(self).model() == after_set(
                    old(self).model(),
                    key@,
                    value@,
                ),
                Err(e) => !encodable(key@.key) && fault(e, bad_address()) && final(self).model()
                    == old(self).model(),
            },
    ;

    /// The canonical keys under `prefix` with their values.
    fn get_all_by_prefix(&self, prefix: StorageKeyWithSpace) -> (r: Result<
        Option<Vec<MptKeyValue>>,
    >)
        requires
            self.valid(),
        ensures
            is_prefix_result(r, prefix_read(self.model(), prefix@)),
    ;

    /// Deletes the keys under `prefix` and returns them with their values.
    fn delete_all_by_prefix(&mut self, prefix: StorageKeyWithSpace) -> (r: Result<
        Option<Vec<MptKeyValue>>,
    >)
        requires
            old(self).valid(),
        ensures
            final(self).valid(),
            is_prefix_result(r, prefix_delete(old(self).model(), prefix@)),
            final(self).model() == after_delete(old(self).model(), prefix@),
    ;

    /// Binds the roots of the layers, and at the end of a period rotates them.
    fn commit(&mut self) -> (r: Result<CommitRoot>)
        requires
            old(self).valid(),
            old(self).model().height < u64::MAX,
        ensures
            final(self).valid(),
            final(self).model().last_root is Some,
            is_commit_root(old(self).model(), final(self).model().last_root->0),
            final(self).model() == after_commit(
                old(self).model(),
                final(self).model().last_root->0,
            ),
            r matches Ok(root) ==> commits(old(self).model()) && final(self).model().last_root
                == Some(root),
    ;
}

/// A layered state.
#[derive(Debug)]
pub struct State {
    /// Canonical keys with live values.
    snapshot: SnapshotTrie,
    /// The records of the last period by delta key.
    intermediate: ByteMap<MptValue>,
    /// The records of this period by delta key.
    delta: ByteMap<MptValue>,
    snapshot_root: H256,
    intermediate_root: H256,
    intermediate_padding: DeltaMptKeyPadding,
    delta_padding: DeltaMptKeyPadding,
    height: u64,
    snapshot_epoch_count: u32,
    last_root: Option<CommitRoot>,
    /// The trie of the delta with the hashes that no write has touched.
    delta_inc: IncrementalTrie,
}

/// Every record is live.
pub open spec fn no_tombstone(m: Map<Seq<u8>, Option<Seq<u8>>>) -> bool {
    forall|k: Seq<u8>| #[trigger] m.contains_key(k) ==> m[k] is Some
}

/// The live records by key.
pub open spec fn live_part(m: Map<Seq<u8>, Option<Seq<u8>>>) -> Map<Seq<u8>, Seq<u8>> {
    Map::new(|k: Seq<u8>| m.contains_key(k) && m[k] is Some, |k: Seq<u8>| m[k]->0)
}

pub(crate) proof fn lemma_live_part(m: Map<Seq<u8>, Option<Seq<u8>>>)
    ensures
        no_tombstone(m) ==> all_live(live_part(m)) == m,
        live_under(m, Seq::empty()) == live_part(m),
{
    if no_tombstone(m) {
        assert(all_live(live_part(m)) =~= m);
    }
    assert forall|k: Seq<u8>| #[trigger] Seq::<u8>::empty().is_prefix_of(k) by {
        assert(Seq::<u8>::empty() =~= k.subrange(0, 0));
    }
    assert(live_under(m, Seq::empty()) =~= live_part(m));
}

proof fn lemma_all_live(m: Map<Seq<u8>, Seq<u8>>)
    ensures
        no_tombstone(all_live(m)),
        live_part(all_live(m)) == m,
{
    assert(live_part(all_live(m)) =~= m);
}

impl Default for State {
    fn default() -> (r: Self)
        ensures
            r.valid(),
            r.model() == initial(DEFAULT_SNAPSHOT_EPOCH_COUNT),
    {
        State::new()
    }
}

impl State {
    /// A state that nothing was written to.
    pub fn new() -> (r: Self)
        ensures
            r.valid(),
            r.model() == initial(DEFAULT_SNAPSHOT_EPOCH_COUNT),
    {
        let r = State {
            snapshot: SnapshotTrie::default(),
            intermediate: ByteMap::new(),
            delta: ByteMap::new(),
            snapshot_root: H256(MERKLE_NULL_NODE),
            intermediate_root: H256(MERKLE_NULL_NODE),
            intermediate_padding: DeltaMptKeyPadding::genesis(),
            delta_padding: DeltaMptKeyPadding::genesis(),
            height: 0,
            snapshot_epoch_count: DEFAULT_SNAPSHOT_EPOCH_COUNT,
            last_root: None,
            delta_inc: IncrementalTrie::new(),
        };
        proof {
            assert(live_part(r.snapshot@) =~= Map::empty());
        }
        r
    }

    /// A new state whose periods have `snapshot_epoch_count` epochs, and at least one.
    pub fn with_snapshot_epoch_count(snapshot_epoch_count: u32) -> (r: Self)
        ensures
            r.valid(),
            r.model() == initial(
                if snapshot_epoch_count == 0 {
                    1
                } else {
                    snapshot_epoch_count
                },
            ),
    {
        let mut r = State::new();
        r.set_snapshot_epoch_count(snapshot_epoch_count);
        r
    }

    /// Changes the number of epochs in a snapshot period, to at least one.
    pub(crate) fn set_snapshot_epoch_count(&mut self, snapshot_epoch_count: u32)
        requires
            old(self).valid(),
        ensures
            final(self).valid(),
            final(self).model() == (StateModel {
                snapshot_epoch_count: if snapshot_epoch_count == 0 {
                    1
                } else {
                    snapshot_epoch_count
                },
                ..old(self).model()
            }),
    {
        self.snapshot_epoch_count =
        if snapshot_epoch_count == 0 {
            1
        } else {
            snapshot_epoch_count
        };
    }

    /// A new state over the given snapshot.
    pub fn from_snapshot(snapshot: ByteMap<Box<[u8]>>) -> (r: Self)
        requires
            snapshot.wf(),
        ensures
            r.valid(),
            r.model() == from_snapshot_model(snapshot@),
    {
        let mut trie = SnapshotTrie::from_snapshot(&snapshot);
        let snapshot_root = trie.root_with_policy(CachePolicy::SkipSingleton);
        proof {
            lemma_all_live(snapshot@);
        }
        let mut r = State::new();
        r.delta_padding =
        DeltaMptKeyPadding::from_roots(snapshot_root, H256(MERKLE_NULL_NODE));
        r.snapshot = trie;
        r.snapshot_root = snapshot_root;
        r
    }

    /// The state that starts again from its persisted form.
    pub fn from_persisted(state: PersistedState) -> (r: Self)
        requires
            state.wf(),
        ensures
            r.valid(),
            r.model() == restored(state@),
    {
        let intermediate = from_disk(&state.intermediate);
        let delta = from_disk(&state.delta);
        let mut snapshot = SnapshotTrie::from_snapshot(&state.snapshot);
        let snapshot_root = snapshot.root_with_policy(CachePolicy::SkipSingleton);
        let intermediate_root = trie_root(&intermediate);
        let delta_inc = IncrementalTrie::from_delta(&delta);
        proof {
            lemma_all_live(state.snapshot@);
        }
        State {
            snapshot,
            intermediate,
            delta,
            snapshot_root,
            intermediate_root,
            intermediate_padding: DeltaMptKeyPadding(state.intermediate_mpt_key_padding),
            delta_padding: DeltaMptKeyPadding(state.delta_mpt_key_padding),
            height: state.height,
            snapshot_epoch_count: if state.snapshot_epoch_count == 0 {
                DEFAULT_SNAPSHOT_EPOCH_COUNT
            } else {
                state.snapshot_epoch_count
            },
            last_root: state.last_root,
            delta_inc,
        }
    }

    /// The persisted form of the state.
    pub fn persisted(&self) -> (r: PersistedState)
        requires
            self.valid(),
        ensures
            r.wf(),
            r@ == persisted_model(self.model()),
    {
        proof {
            lemma_live_part(self.snapshot@);
        }
        PersistedState {
            snapshot: self.snapshot.to_canonical_map(),
            intermediate: to_disk(&self.intermediate),
            delta: to_disk(&self.delta),
            intermediate_mpt_key_padding: self.intermediate_padding.0,
            delta_mpt_key_padding: self.delta_padding.0,
            height: self.height,
            snapshot_epoch_count: self.snapshot_epoch_count,
            last_root: self.last_root,
        }
    }

    /// Puts a record into the intermediate layer. The delta padding follows.
    pub fn put_intermediate_raw(&mut self, raw_key: Vec<u8>, value: MptValue)
        requires
            old(self).valid(),
        ensures
            final(self).valid(),
            final(self).model() == ({
                let m = old(self).model();
                let intermediate = m.intermediate.insert(raw_key@, value@);
                let intermediate_root = layer_root(intermediate);
                StateModel {
                    intermediate,
                    intermediate_root,
                    delta_padding: padding_of(m.snapshot_root, intermediate_root),
                    ..m
                }
            }),
    {
        self.intermediate.insert(raw_key, value);
        self.intermediate_root = trie_root(&self.intermediate);
        self.delta_padding =
        DeltaMptKeyPadding::from_roots(self.snapshot_root, self.intermediate_root);
    }

    /// Number of commits so far.
    pub fn height(&self) -> (r: u64)
        ensures
            r == self.model().height,
    {
        self.height
    }

    /// Number of epochs in a snapshot period.
    pub fn snapshot_epoch_count(&self) -> (r: u32)
        ensures
            r == self.model().snapshot_epoch_count,
    {
        self.snapshot_epoch_count
    }
}

impl State {
    /// The layers are well formed, and the incremental trie is that of the delta.
    pub closed spec fn valid(&self) -> bool {
        &&& self.snapshot.wf()
        &&& no_tombstone(self.snapshot@)
        &&& self.intermediate.wf()
        &&& self.delta.wf()
        &&& self.delta_inc.wf()
        &&& self.delta_inc@ == self.delta@
        &&& self.snapshot_epoch_count > 0
    }

    /// What the state holds.
    pub closed spec fn model(&self) -> StateModel {
        StateModel {
            snapshot: live_part(self.snapshot@),
            intermediate: self.intermediate@,
            delta: self.delta@,
            snapshot_root: self.snapshot_root@,
            intermediate_root: self.intermediate_root@,
            intermediate_padding: self.intermediate_padding@,
            delta_padding: self.delta_padding@,
            height: self.height,
            snapshot_epoch_count: self.snapshot_epoch_count,
            last_root: self.last_root,
        }
    }

    /// A valid state has periods of at least one epoch, roots and paddings of their length,
    /// and layers with finitely many records.
    pub proof fn law_valid(&self)
        requires
            self.valid(),
        ensures
            self.model().snapshot_epoch_count > 0,
            self.model().snapshot_root.len() == 32,
            self.model().intermediate_root.len() == 32,
            self.model().intermediate_padding.len() == 32,
            self.model().delta_padding.len() == 32,
            self.model().snapshot.dom().finite(),
            self.model().intermediate.dom().finite(),
            self.model().delta.dom().finite(),
    {
        self.snapshot.lemma_finite();
        self.intermediate.lemma_view();
        self.delta.lemma_view();
        vstd::set_lib::lemma_set_subset_finite(
            self.snapshot@.dom(),
            live_part(self.snapshot@).dom(),
        );
    }

    /// The value of `key`.
    pub fn get(&self, key: StorageKeyWithSpace) -> (r: Result<Option<Box<[u8]>>>)
        requires
            self.valid(),
        ensures
            match r {
                Ok(v) => encodable(key@.key) && value_view(v) == visible(self.model(), key@),
                Err(e) => !encodable(key@.key) && fault(e, bad_address()),
            },
    {
        let delta_key = match key.to_delta_mpt_key_bytes(&self.delta_padding) {
            Ok(k) => k,
            Err(e) => {
                return Err(e);
            },
        };
        match self.delta.get(delta_key.as_slice()) {
            Some(value) => {
                return Ok(
                    match value.visible_value() {
                        Some(v) => Some(to_boxed(v)),
                        None => None,
                    },
                );
            },
            None => {},
        }
        let intermediate_key = match key.to_delta_mpt_key_bytes(&self.intermediate_padding) {
            Ok(k) => k,
            Err(e) => {
                return Err(e);
            },
        };
        match self.intermediate.get(intermediate_key.as_slice()) {
            Some(value) => {
                return Ok(
                    match value.visible_value() {
                        Some(v) => Some(to_boxed(v)),
                        None => None,
                    },
                );
            },
            None => {},
        }
        match key.to_key_bytes() {
            Ok(canonical) => Ok(self.snapshot.snapshot_get_owned(canonical.as_slice())),
            Err(e) => Err(e),
        }
    }

    /// Writes `value` to `key`. An empty value deletes the key.
    pub fn set(&mut self, key: StorageKeyWithSpace, value: Box<[u8]>) -> (r: Result<()>)
        requires
            old(self).valid(),
        ensures
            final(self).valid(),
            match r {
                Ok(_) => encodable(key@.key) && final(self).model() == after_set(
                    old(self).model(),
                    key@,
                    value@,
                ),
                Err(e) => !encodable(key@.key) && fault(e, bad_address()) && final(self).model()
                    == old(self).model(),
            },
    {
        match key.to_delta_mpt_key_bytes(&self.delta_padding) {
            Ok(raw) => {
                let value = if (*value).len() == 0 {
                    MptValue::Tombstone
                } else {
                    MptValue::Live(value)
                };
                self.delta_inc.insert(raw.as_slice(), value.clone());
                self.delta.insert(raw, value);
                Ok(())
            },
            Err(e) => Err(e),
        }
    }

    /// The canonical keys under `prefix` with their values.
    pub fn get_all_by_prefix(&self, prefix: StorageKeyWithSpace) -> (r: Result<
        Option<Vec<MptKeyValue>>,
    >)
        requires
            self.valid(),
        ensures
            is_prefix_result(r, prefix_read(self.model(), prefix@)),
    {
        match self.read_prefix(&prefix) {
            Ok(values) => Ok(
                if values.len() == 0 {
                    None
                } else {
                    Some(values)
                },
            ),
            Err(e) => Err(e),
        }
    }

    /// Deletes the keys under `prefix` and returns them with their values.
    pub fn delete_all_by_prefix(&mut self, prefix: StorageKeyWithSpace) -> (r: Result<
        Option<Vec<MptKeyValue>>,
    >)
        requires
            old(self).valid(),
        ensures
            final(self).valid(),
            is_prefix_result(r, prefix_delete(old(self).model(), prefix@)),
            final(self).model() == after_delete(old(self).model(), prefix@),
    {
        match self.delete_prefix(&prefix) {
            Ok(values) => Ok(
                if values.len() == 0 {
                    None
                } else {
                    Some(values)
                },
            ),
            Err(e) => Err(e),
        }
    }

    /// Binds the roots of the layers, and at the end of a period rotates them.
    pub fn commit(&mut self) -> (r: Result<CommitRoot>)
        requires
            old(self).valid(),
            old(self).model().height < u64::MAX,
        ensures
            final(self).valid(),
            final(self).model().last_root is Some,
            is_commit_root(old(self).model(), final(self).model().last_root->0),
            final(self).model() == after_commit(
                old(self).model(),
                final(self).model().last_root->0,
            ),
            r matches Ok(root) ==> commits(old(self).model()) && final(self).model().last_root
                == Some(root),
            match r {
                Ok(_) => commits(old(self).model()),
                Err(e) => !commits(old(self).model()) && fault(
                    e,
                    first_fault(ordered(old(self).model().intermediate)),
                ),
            },
    {
        let delta_root = self.delta_inc.root();
        let root = CommitRoot::new(
            self.snapshot_root,
            self.intermediate_root,
            delta_root,
            self.delta_padding.0,
        );
        self.last_root = Some(root);
        self.height = self.height + 1;
        match self.advance_after_commit(delta_root) {
            Ok(_) => Ok(root),
            Err(e) => Err(e),
        }
    }
}

impl StateTrait for State {
    open spec fn valid(&self) -> bool {
        State::valid(self)
    }

    open spec fn model(&self) -> StateModel {
        State::model(self)
    }

    fn get(&self, key: StorageKeyWithSpace) -> (r: Result<Option<Box<[u8]>>>) {
        State::get(self, key)
    }

    fn set(&mut self, key: StorageKeyWithSpace, value: Box<[u8]>) -> (r: Result<()>) {
        State::set(self, key, value)
    }

    fn get_all_by_prefix(&self, prefix: StorageKeyWithSpace) -> (r: Result<
        Option<Vec<MptKeyValue>>,
    >) {
        State::get_all_by_prefix(self, prefix)
    }

    fn delete_all_by_prefix(&mut self, prefix: StorageKeyWithSpace) -> (r: Result<
        Option<Vec<MptKeyValue>>,
    >) {
        State::delete_all_by_prefix(self, prefix)
    }

    fn commit(&mut self) -> (r: Result<CommitRoot>)
        ensures
            r matches Err(e) ==> !commits(old(self).model()) && fault(
                e,
                first_fault(ordered(old(self).model().intermediate)),
            ),
    {
        State::commit(self)
    }
}

} // verus!
