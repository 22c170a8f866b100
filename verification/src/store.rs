//! The persisted form of a state, and where it is kept.
use crate::bytemap::ByteMap;
use crate::bytes::to_boxed;
use crate::key_codec::{padding_of, DeltaMptKeyPadding};
use crate::state::DEFAULT_SNAPSHOT_EPOCH_COUNT;
use crate::trie::MptValue;
use crate::types::{CommitRoot, Error, Result, MERKLE_NULL_NODE};
use vstd::prelude::*;

verus! {

/// A record of a delta layer in its persisted form.
#[derive(Debug)]
pub enum MptValueDisk {
    Live(Box<[u8]>),
    Tombstone,
}

impl View for MptValueDisk {
    type V = Option<Seq<u8>>;

    open spec fn view(&self) -> Option<Seq<u8>> {
        match *self {
            MptValueDisk::Live(v) => Some(v@),
            MptValueDisk::Tombstone => None,
        }
    }
}

impl Clone for MptValueDisk {
    fn clone(&self) -> (r: Self)
        ensures
            r@ == self@,
    {
        match self {
            MptValueDisk::Live(v) => MptValueDisk::Live(to_boxed(&**v)),
            MptValueDisk::Tombstone => MptValueDisk::Tombstone,
        }
    }
}

impl MptValueDisk {
    /// The persisted form of a record.
    pub fn from_value(value: &MptValue) -> (r: Self)
        ensures
            r@ == value@,
    {
        match value {
            MptValue::Live(v) => MptValueDisk::Live(to_boxed(&**v)),
            MptValue::Tombstone => MptValueDisk::Tombstone,
        }
    }

    /// The record of a persisted form.
    pub fn to_value(&self) -> (r: MptValue)
        ensures
            r@ == self@,
    {
        match self {
            MptValueDisk::Live(v) => MptValue::Live(to_boxed(&**v)),
            MptValueDisk::Tombstone => MptValue::Tombstone,
        }
    }
}

/// Everything that a state needs to start again from.
#[derive(Debug)]
pub struct PersistedState {
    pub snapshot: ByteMap<Box<[u8]>>,
    pub intermediate: ByteMap<MptValueDisk>,
    pub delta: ByteMap<MptValueDisk>,
    pub intermediate_mpt_key_padding: [u8; 32],
    pub delta_mpt_key_padding: [u8; 32],
    pub height: u64,
    pub snapshot_epoch_count: u32,
    pub last_root: Option<CommitRoot>,
}

/// What a [`PersistedState`] holds.
pub struct PersistedModel {
    pub snapshot: Map<Seq<u8>, Seq<u8>>,
    pub intermediate: Map<Seq<u8>, Option<Seq<u8>>>,
    pub delta: Map<Seq<u8>, Option<Seq<u8>>>,
    pub intermediate_padding: Seq<u8>,
    pub delta_padding: Seq<u8>,
    pub height: u64,
    pub snapshot_epoch_count: u32,
    pub last_root: Option<CommitRoot>,
}

impl View for PersistedState {
    type V = PersistedModel;

    open spec fn view(&self) -> PersistedModel {
        PersistedModel {
            snapshot: self.snapshot@,
            intermediate: self.intermediate@,
            delta: self.delta@,
            intermediate_padding: self.intermediate_mpt_key_padding@,
            delta_padding: self.delta_mpt_key_padding@,
            height: self.height,
            snapshot_epoch_count: self.snapshot_epoch_count,
            last_root: self.last_root,
        }
    }
}

/// A copy of a map of values.
pub fn copy_values(m: &ByteMap<Box<[u8]>>) -> (r: ByteMap<Box<[u8]>>)
    ensures
        m.wf() ==> r.wf() && r@ == m@,
{
    let copy = |v: &Box<[u8]>| -> (w: Box<[u8]>)
        ensures
            w@ == v@,
        {
            to_boxed(&**v)
        };
    let r = m.map_values(copy);
    proof {
        assert(r.pairs() =~= m.pairs());
        if m.wf() {
            m.lemma_view();
            r.lemma_view();
        }
    }
    r
}

/// The persisted form of the records of a layer.
pub fn to_disk(m: &ByteMap<MptValue>) -> (r: ByteMap<MptValueDisk>)
    ensures
        m.wf() ==> r.wf() && r@ == m@,
{
    let copy = |v: &MptValue| -> (w: MptValueDisk)
        ensures
            w@ == v@,
        {
            MptValueDisk::from_value(v)
        };
    let r = m.map_values(copy);
    proof {
        assert(r.pairs() =~= m.pairs());
        if m.wf() {
            m.lemma_view();
            r.lemma_view();
        }
    }
    r
}

/// The records of a persisted layer.
pub fn from_disk(m: &ByteMap<MptValueDisk>) -> (r: ByteMap<MptValue>)
    ensures
        m.wf() ==> r.wf() && r@ == m@,
{
    let copy = |v: &MptValueDisk| -> (w: MptValue)
        ensures
            w@ == v@,
        {
            v.to_value()
        };
    let r = m.map_values(copy);
    proof {
        assert(r.pairs() =~= m.pairs());
        if m.wf() {
            m.lemma_view();
            r.lemma_view();
        }
    }
    r
}

fn copy_disk(m: &ByteMap<MptValueDisk>) -> (r: ByteMap<MptValueDisk>)
    ensures
        m.wf() ==> r.wf() && r@ == m@,
{
    let copy = |v: &MptValueDisk| -> (w: MptValueDisk)
        ensures
            w@ == v@,
        {
            v.clone()
        };
    let r = m.map_values(copy);
    proof {
        assert(r.pairs() =~= m.pairs());
        if m.wf() {
            m.lemma_view();
            r.lemma_view();
        }
    }
    r
}

impl PersistedState {
    /// The three maps are well formed.
    pub open spec fn wf(&self) -> bool {
        self.snapshot.wf() && self.intermediate.wf() && self.delta.wf()
    }
}

impl Clone for PersistedState {
    fn clone(&self) -> (r: Self)
        ensures
            self.wf() ==> r.wf() && r@ == self@,
    {
        PersistedState {
            snapshot: copy_values(&self.snapshot),
            intermediate: copy_disk(&self.intermediate),
            delta: copy_disk(&self.delta),
            intermediate_mpt_key_padding: self.intermediate_mpt_key_padding,
            delta_mpt_key_padding: self.delta_mpt_key_padding,
            height: self.height,
            snapshot_epoch_count: self.snapshot_epoch_count,
            last_root: self.last_root,
        }
    }
}

/// The persisted form of a state that nothing was written to.
pub open spec fn empty_persisted() -> PersistedModel {
    PersistedModel {
        snapshot: Map::empty(),
        intermediate: Map::empty(),
        delta: Map::empty(),
        intermediate_padding: padding_of(MERKLE_NULL_NODE@, MERKLE_NULL_NODE@),
        delta_padding: padding_of(MERKLE_NULL_NODE@, MERKLE_NULL_NODE@),
        height: 0,
        snapshot_epoch_count: DEFAULT_SNAPSHOT_EPOCH_COUNT,
        last_root: None,
    }
}

impl Default for PersistedState {
    fn default() -> (r: Self)
        ensures
            r.wf(),
            r@ == empty_persisted(),
    {
        PersistedState {
            snapshot: ByteMap::new(),
            intermediate: ByteMap::new(),
            delta: ByteMap::new(),
            intermediate_mpt_key_padding: DeltaMptKeyPadding::genesis().0,
            delta_mpt_key_padding: DeltaMptKeyPadding::genesis().0,
            height: 0,
            snapshot_epoch_count: DEFAULT_SNAPSHOT_EPOCH_COUNT,
            last_root: None,
        }
    }
}

/// Where the latest persisted state is kept.
pub trait StateStore {
    /// What the store holds.
    spec fn latest(&self) -> Option<PersistedModel>;

    /// Whether saving `state` may fail with the error `e`.
    spec fn may_refuse(&self, state: PersistedModel, e: Error) -> bool;

    /// The latest state that was saved, if there is one.
    fn load_latest(&self) -> (r: Result<Option<PersistedState>>)
        ensures
            r matches Ok(loaded) ==> match loaded {
                Some(state) => state.wf() && self.latest() == Some(state@),
                None => self.latest() is None,
            },
    ;

    /// Replaces what the store holds.
    fn save_latest(&mut self, state: &PersistedState) -> (r: Result<()>)
        requires
            state.wf(),
        ensures
            r is Ok ==> final(self).latest() == Some(state@),
            r matches Err(e) ==> old(self).may_refuse(state@, e),
    ;
}

/// A store in memory.
pub struct MemoryStore {
    state: Option<PersistedState>,
}

impl Default for MemoryStore {
    fn default() -> (r: Self)
        ensures
            r.latest() is None,
    {
        MemoryStore::new()
    }
}

impl MemoryStore {
    #[verifier::type_invariant]
    closed spec fn inv(&self) -> bool {
        self.state matches Some(state) ==> state.wf()
    }

    /// A store that holds nothing.
    pub fn new() -> (r: Self)
        ensures
            r.latest() is None,
    {
        MemoryStore { state: None }
    }
}

impl StateStore for MemoryStore {
    closed spec fn latest(&self) -> Option<PersistedModel> {
        match self.state {
            Some(state) => Some(state@),
            None => None,
        }
    }

    open spec fn may_refuse(&self, state: PersistedModel, e: Error) -> bool {
        false
    }

    fn load_latest(&self) -> (r: Result<Option<PersistedState>>)
        ensures
            r is Ok,
    {
        proof {
            use_type_invariant(self);
        }
        match &self.state {
            Some(state) => Ok(Some(state.clone())),
            None => Ok(None),
        }
    }

    fn save_latest(&mut self, state: &PersistedState) -> (r: Result<()>)
        ensures
            r is Ok,
    {
        self.state = Some(state.clone());
        Ok(())
    }
}

} // verus!
