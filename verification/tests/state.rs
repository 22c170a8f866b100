use cfx_minimal_execution::bytemap::ByteMap;
use cfx_minimal_execution::key_codec::{StorageKey, StorageKeyWithSpace};
use cfx_minimal_execution::state::manager::StateManager;
use cfx_minimal_execution::state::{State, StateTrait};
use cfx_minimal_execution::store::{MemoryStore, PersistedModel, PersistedState, StateStore};
use cfx_minimal_execution::types::{Error, Result, Space, H256};
use std::collections::BTreeMap;

const MERKLE_NULL_NODE: H256 = H256(cfx_minimal_execution::types::MERKLE_NULL_NODE);

fn key(byte: u8) -> StorageKeyWithSpace {
    StorageKeyWithSpace {
        key: StorageKey::Account(vec![byte; 20]),
        space: Space::Native,
    }
}

#[test]
fn get_set_commit() {
    let mut state = State::new();
    state.set(key(1), Box::from([9u8])).unwrap();
    assert_eq!(state.get(key(1)).unwrap().unwrap().as_ref(), &[9u8]);
    let root = state.commit().unwrap();
    assert_ne!(root.delta_root, MERKLE_NULL_NODE);
}

#[test]
fn tombstone_hides_value() {
    let mut snapshot: ByteMap<Box<[u8]>> = ByteMap::new();
    snapshot.insert(key(1).to_key_bytes().unwrap(), Box::from([1u8]));
    let mut state = State::from_snapshot(snapshot);
    assert_eq!(state.get(key(1)).unwrap().unwrap().as_ref(), &[1u8]);
    state.set(key(1), Box::new([])).unwrap();
    assert!(state.get(key(1)).unwrap().is_none());
}

#[test]
fn address_prefix_reads_delta_after_canonical_filter() {
    let mut state = State::new();
    state.set(key(1), Box::from([1u8])).unwrap();
    state.set(key(2), Box::from([2u8])).unwrap();
    let prefix = StorageKeyWithSpace {
        key: StorageKey::AddressPrefix(vec![1]),
        space: Space::Native,
    };
    let values = state.get_all_by_prefix(prefix).unwrap().unwrap();
    assert_eq!(values.len(), 1);
    assert_eq!(values[0].0, key(1).to_key_bytes().unwrap());
}

#[test]
fn address_prefix_delete_removes_unrelated_delta_keys() {
    let mut state = State::new();
    state.set(key(1), Box::from([1u8])).unwrap();
    state.set(key(2), Box::from([2u8])).unwrap();
    let prefix = StorageKeyWithSpace {
        key: StorageKey::AddressPrefix(vec![1]),
        space: Space::Native,
    };
    let values = state.delete_all_by_prefix(prefix).unwrap().unwrap();
    assert_eq!(values.len(), 1);
    assert!(state.get(key(1)).unwrap().is_none());
    assert!(state.get(key(2)).unwrap().is_none());
}

#[test]
fn delete_all_prefix_hides_snapshot_values() {
    let mut snapshot: ByteMap<Box<[u8]>> = ByteMap::new();
    snapshot.insert(key(1).to_key_bytes().unwrap(), Box::from([1u8]));
    let mut state = State::from_snapshot(snapshot);
    let deleted = state
        .delete_all_by_prefix(StorageKeyWithSpace {
            key: StorageKey::AddressPrefix(vec![1]),
            space: Space::Native,
        })
        .unwrap()
        .unwrap();
    assert_eq!(deleted.len(), 1);
    assert!(state.get(key(1)).unwrap().is_none());
}

#[test]
fn memory_store_manager_uses_latest_only() {
    let mut manager = StateManager::new(MemoryStore::new()).unwrap();
    manager.set(key(3), Box::from([8u8])).unwrap();
    let root = manager.commit().unwrap();
    assert_ne!(root.delta_root, MERKLE_NULL_NODE);
}

#[test]
fn deterministic_random_set_get_commit_sequence() {
    let mut rng = Lcg::new(0x13_57_9b_df);
    let mut state = State::new();
    let mut expected = BTreeMap::<u8, Option<Vec<u8>>>::new();

    for i in 0..5_000 {
        let id = (rng.next() % 96) as u8;
        match rng.next() % 5 {
            0 => {
                state.set(key(id), Box::new([])).unwrap();
                expected.insert(id, None);
            }
            1..=3 => {
                let value = vec![id, i as u8, (i >> 8) as u8];
                state
                    .set(key(id), value.clone().into_boxed_slice())
                    .unwrap();
                expected.insert(id, Some(value));
            }
            _ => {
                let actual = state.get(key(id)).unwrap().map(|v| v.to_vec());
                let expected_value = expected.get(&id).cloned().flatten();
                assert_eq!(actual, expected_value, "id={id}, i={i}");
            }
        }
        if i % 97 == 0 {
            let root_a = state.commit().unwrap();
            let root_b = state.commit().unwrap();
            assert_eq!(root_a, root_b);
        }
    }
}

#[derive(Clone)]
struct Lcg(u64);

impl Lcg {
    fn new(seed: u64) -> Self {
        Self(seed)
    }

    fn next(&mut self) -> u64 {
        self.0 = self.0.wrapping_mul(6364136223846793005).wrapping_add(1);
        self.0
    }
}

/// A store that loads nothing and saves nothing.
struct RefusingStore;

impl StateStore for RefusingStore {
    fn latest(&self) -> Option<PersistedModel> {
        None
    }

    fn may_refuse(&self, _state: PersistedModel, _e: Error) -> bool {
        true
    }

    fn load_latest(&self) -> Result<Option<PersistedState>> {
        Ok(None)
    }

    fn save_latest(&mut self, _state: &PersistedState) -> Result<()> {
        Err(Error::Io("refused".to_string()))
    }
}

#[test]
fn a_commit_that_is_not_saved_tells_why() {
    let mut manager = StateManager::new(RefusingStore).unwrap();
    manager.set(key(1), Box::from([9u8])).unwrap();
    match manager.commit() {
        Err(Error::Io(why)) => assert_eq!(why, "refused"),
        _ => panic!("the commit was saved"),
    }
    // The state is committed in memory all the same.
    assert_eq!(manager.state().height(), 1);
    assert_eq!(manager.get(key(1)).unwrap().unwrap().as_ref(), &[9u8]);
}

#[test]
fn nothing_comes_back_after_a_prefix_delete() {
    let mut manager = StateManager::with_snapshot_epoch_count(MemoryStore::new(), 1).unwrap();
    // One value in each layer, under addresses that start alike.
    for id in [1u8, 2, 3] {
        let mut address = vec![7u8; 20];
        address[19] = id;
        let k = StorageKeyWithSpace { key: StorageKey::Account(address), space: Space::Native };
        manager.set(k, Box::from([id])).unwrap();
        if id < 3 {
            manager.commit().unwrap();
        }
    }
    let prefix = || StorageKeyWithSpace {
        key: StorageKey::AddressPrefix(vec![7, 7]),
        space: Space::Native,
    };
    let deleted = manager.delete_all_by_prefix(prefix()).unwrap().unwrap();
    assert_eq!(deleted.len(), 3);
    assert!(manager.get_all_by_prefix(prefix()).unwrap().is_none());
    for (k, _) in deleted {
        let k = StorageKeyWithSpace::from_key_bytes(&k).unwrap();
        assert!(manager.get(k).unwrap().is_none());
    }
}

#[test]
fn a_prefix_read_lists_a_key_once() {
    let mut manager = StateManager::with_snapshot_epoch_count(MemoryStore::new(), 1).unwrap();
    // The key has a record in every layer.
    for value in [1u8, 2, 3] {
        manager.set(key(5), Box::from([value])).unwrap();
        if value < 3 {
            manager.commit().unwrap();
        }
    }
    let prefix = StorageKeyWithSpace { key: StorageKey::Empty, space: Space::Native };
    let values = manager.get_all_by_prefix(prefix).unwrap().unwrap();
    assert_eq!(values.len(), 1);
    assert_eq!(values[0].1.as_ref(), &[3u8]);
}
