//! A state together with the store that keeps its latest version.
use crate::bytemap::ordered;
use crate::key_codec::StorageKeyWithSpace;
use crate::state::model::{after_commit, commits, fault, first_fault, initial, is_commit_root, persisted_model, restored, StateModel};
use crate::state::{State, StateTrait, DEFAULT_SNAPSHOT_EPOCH_COUNT};
use crate::store::{MemoryStore, PersistedModel, PersistedState, StateStore};
use crate::types::{CommitRoot, Error, MptKeyValue, Result};
use vstd::prelude::*;

verus! {

/// The state that a manager starts from, given what its store holds.
pub open spec fn starting_model(latest: Option<PersistedModel>) -> StateModel {
    match latest {
        Some(p) => restored(p),
        None => initial(DEFAULT_SNAPSHOT_EPOCH_COUNT),
    }
}

/// Whether `loaded` is what loading from `store` may give.
pub open spec fn may_load<S: StateStore>(
    store: S,
    loaded: Result<Option<PersistedState>>,
) -> bool {
    call_ensures(S::load_latest, (&store,), loaded)
}

/// A state that is saved on every commit.
pub struct StateManager<S: StateStore> {
    state: State,
    store: S,
}

impl<S: StateStore> StateManager<S> {
    /// The managed state.
    pub closed spec fn inner(&self) -> State {
        self.state
    }

    /// What the store holds.
    pub closed spec fn stored(&self) -> Option<PersistedModel> {
        self.store.latest()
    }

    /// Whether the store may refuse to save `state` with the error `e`.
    pub closed spec fn may_refuse(&self, state: PersistedModel, e: Error) -> bool {
        self.store.may_refuse(state, e)
    }

    /// A manager over `store`, from the state that was loaded from it: the loaded
    /// state where there is one, an empty state otherwise.
    pub fn from_loaded(store: S, loaded: Result<Option<PersistedState>>) -> (r: Result<Self>)
        requires
            loaded matches Ok(Some(state)) ==> state.wf(),
        ensures
            match loaded {
                Ok(found) => r matches Ok(manager) && manager.valid() && manager.stored()
                    == store.latest() && manager.model() == starting_model(
                    match found {
                        Some(state) => Some(state@),
                        None => None,
                    },
                ),
                Err(e) => r matches Err(e2) && e2 == e,
            },
    {
        match loaded {
            Ok(Some(state)) => Ok(StateManager { state: State::from_persisted(state), store }),
            Ok(None) => Ok(StateManager { state: State::new(), store }),
            Err(e) => Err(e),
        }
    }

    /// A manager over what `store` holds. It fails only where loading from the store
    /// does, with the same error.
    pub fn new(store: S) -> (r: Result<Self>)
        ensures
            r matches Ok(manager) ==> manager.valid() && manager.stored() == store.latest()
                && manager.model() == starting_model(store.latest()),
            r matches Err(e) ==> may_load(store, Err(e)),
    {
        let loaded = store.load_latest();
        StateManager::from_loaded(store, loaded)
    }

    /// A manager over what `store` holds, with periods of `snapshot_epoch_count`
    /// epochs, and at least one. It fails only where loading from the store does, with
    /// the same error.
    pub fn with_snapshot_epoch_count(store: S, snapshot_epoch_count: u32) -> (r: Result<Self>)
        ensures
            r matches Ok(manager) ==> manager.valid() && manager.stored() == store.latest()
                && manager.model() == (StateModel {
                snapshot_epoch_count: if snapshot_epoch_count == 0 {
                    1
                } else {
                    snapshot_epoch_count
                },
                ..starting_model(store.latest())
            }),
            r matches Err(e) ==> may_load(store, Err(e)),
    {
        match StateManager::new(store) {
            Ok(manager) => {
                let mut manager = manager;
                manager.state.set_snapshot_epoch_count(snapshot_epoch_count);
                Ok(manager)
            },
            Err(e) => Err(e),
        }
    }

    /// The managed state.
    pub fn state(&self) -> (r: &State)
        ensures
            *r == self.inner(),
    {
        &self.state
    }

    /// The managed state, to be changed in place.
    pub fn state_mut(&mut self) -> (r: &mut State)
        ensures
            *r == old(self).inner(),
            final(self).inner() == *final(r),
            final(self).stored() == old(self).stored(),
    {
        &mut self.state
    }

    /// A valid manager is one whose state is valid, and holds what it holds.
    pub proof fn law_manager_state(&self)
        ensures
            self.valid() == self.inner().valid(),
            self.model() == self.inner().model(),
    {
    }

    /// Commits the state and saves it. A commit that can be made fails only where the
    /// store refuses to save what it gave, with the store's error, and with the state
    /// committed in memory.
    pub fn commit(&mut self) -> (r: Result<CommitRoot>)
        requires
            old(self).valid(),
            old(self).model().height < u64::MAX,
        ensures
            final(self).valid(),
            final(self).model().last_root is Some,
            is_commit_root(old(self).model(), final(self).model().last_root->0),
            final(self).model() == after_commit(
                old(self).model(),
                final(self).model().last_root->0,
            ),
            match r {
                Ok(root) => commits(old(self).model()) && final(self).model().last_root == Some(
                    root,
                ) && final(self).stored() == Some(persisted_model(final(self).model())),
                Err(e) => if commits(old(self).model()) {
                    old(self).may_refuse(persisted_model(final(self).model()), e)
                } else {
                    fault(e, first_fault(ordered(old(self).model().intermediate)))
                        && final(self).stored() == old(self).stored()
                },
            },
    {
        match self.state.commit() {
            Ok(root) => {
                let persisted = self.state.persisted();
                settle_commit(root, self.store.save_latest(&persisted))
            },
            Err(e) => Err(e),
        }
    }
}

impl StateManager<MemoryStore> {
    /// A store in memory refuses nothing, so that over it every commit that can be made
    /// succeeds.
    pub proof fn law_memory_saves(&self, state: PersistedModel, e: Error)
        ensures
            !self.may_refuse(state, e),
    {
    }
}

/// What a commit returns once its state has been handed to the store.
pub fn settle_commit(root: CommitRoot, saved: Result<()>) -> (r: Result<CommitRoot>)
    ensures
        match saved {
            Ok(_) => r matches Ok(root2) && root2 == root,
            Err(e) => r matches Err(e2) && e2 == e,
        },
{
    match saved {
        Ok(_) => Ok(root),
        Err(e) => Err(e),
    }
}

impl<S: StateStore> StateTrait for StateManager<S> {
    closed spec fn valid(&self) -> bool {
        self.state.valid()
    }

    closed spec fn model(&self) -> StateModel {
        self.state.model()
    }

    fn get(&self, key: StorageKeyWithSpace) -> (r: Result<Option<Box<[u8]>>>) {
        State::get(&self.state, key)
    }

    fn set(&mut self, key: StorageKeyWithSpace, value: Box<[u8]>) -> (r: Result<()>) {
        State::set(&mut self.state, key, value)
    }

    fn get_all_by_prefix(&self, prefix: StorageKeyWithSpace) -> (r: Result<
        Option<Vec<MptKeyValue>>,
    >) {
        State::get_all_by_prefix(&self.state, prefix)
    }

    fn delete_all_by_prefix(&mut self, prefix: StorageKeyWithSpace) -> (r: Result<
        Option<Vec<MptKeyValue>>,
    >) {
        State::delete_all_by_prefix(&mut self.state, prefix)
    }

    fn commit(&mut self) -> (r: Result<CommitRoot>)
        ensures
            r matches Err(e) ==> if commits(old(self).model()) {
                old(self).may_refuse(persisted_model(final(self).model()), e)
            } else {
                fault(e, first_fault(ordered(old(self).model().intermediate)))
            },
    {
        StateManager::commit(self)
    }
}

} // verus!
