//! Random sequences of operations, held against plain models.
use cfx_minimal_execution::bytemap::ByteMap;
use cfx_minimal_execution::incremental::IncrementalTrie;
use cfx_minimal_execution::key_codec::{DeltaMptKeyPadding, StorageKey, StorageKeyWithSpace};
use cfx_minimal_execution::state::State;
use cfx_minimal_execution::store::{MptValueDisk, PersistedState};
use cfx_minimal_execution::trie::{trie_root, MptValue};
use cfx_minimal_execution::types::{MptKeyValue, Space, H256};
use std::collections::{BTreeMap, BTreeSet};

struct Lcg(u64);

impl Lcg {
    fn next(&mut self) -> u64 {
        self.0 = self.0.wrapping_mul(6364136223846793005).wrapping_add(1442695040888963407);
        self.0 >> 33
    }

    fn byte(&mut self) -> u8 {
        self.next() as u8
    }

    fn bytes(&mut self, n: usize) -> Vec<u8> {
        (0..n).map(|_| self.byte()).collect()
    }

    fn key(&mut self) -> KeySeed {
        let suffix_len = (self.next() % 4) as usize;
        KeySeed {
            id: (self.next() % 6) as u8,
            kind: self.byte(),
            space: self.next() % 2 == 0,
            suffix: (0..suffix_len).map(|_| (self.next() % 3) as u8).collect(),
        }
    }

    fn value(&mut self) -> Vec<u8> {
        let n = (self.next() % 6) as usize;
        self.bytes(n)
    }
}

#[derive(Clone, Debug, PartialEq, Eq, PartialOrd, Ord)]
struct KeySeed {
    id: u8,
    kind: u8,
    space: bool,
    suffix: Vec<u8>,
}

#[derive(Clone, Debug)]
struct PrefixSeed {
    key: KeySeed,
    kind: u8,
    len: u8,
    bytes: Vec<u8>,
}

struct Model {
    snapshot: BTreeMap<Vec<u8>, Vec<u8>>,
    intermediate: BTreeMap<Vec<u8>, ModelValue>,
    delta: BTreeMap<Vec<u8>, ModelValue>,
    intermediate_padding: DeltaMptKeyPadding,
    delta_padding: DeltaMptKeyPadding,
    height: u64,
    snapshot_epoch_count: u32,
}

#[derive(Clone)]
struct ModelValue {
    raw_key: Vec<u8>,
    value: Option<Vec<u8>>,
}

fn layered_case(seed: u64) {
    let mut rng = Lcg(seed);
    let snapshot_epoch_count = 1 + (rng.next() % 8) as u32;
    let mut model = Model::new(snapshot_epoch_count);
    let mut persisted = PersistedState::default();
    persisted.intermediate_mpt_key_padding = DeltaMptKeyPadding::genesis().0;
    persisted.delta_mpt_key_padding = DeltaMptKeyPadding::genesis().0;
    persisted.snapshot_epoch_count = snapshot_epoch_count;
    for _ in 0..rng.next() % 24 {
        let key = rng.key().to_storage_key().unwrap();
        let mut value = rng.value();
        value.push(1);
        model.snapshot.insert(key.to_key_bytes().unwrap(), value);
    }
    for (k, v) in model.snapshot.iter() {
        persisted.snapshot.insert(k.clone(), v.clone().into_boxed_slice());
    }
    for _ in 0..rng.next() % 24 {
        let key = rng.key().to_storage_key().unwrap();
        let canonical = key.to_key_bytes().unwrap();
        let raw_key = key.to_delta_mpt_key_bytes(&DeltaMptKeyPadding::genesis()).unwrap();
        let mut value = rng.value();
        value.push(2);
        let value = if rng.next() % 3 == 0 { None } else { Some(value) };
        persisted.intermediate.insert(
            raw_key.clone(),
            match &value {
                Some(v) => MptValueDisk::Live(v.clone().into_boxed_slice()),
                None => MptValueDisk::Tombstone,
            },
        );
        model.intermediate.insert(canonical, ModelValue { raw_key, value });
    }
    let mut state = State::from_persisted(persisted);

    for _ in 0..160 {
        match rng.next() % 12 {
            0..=4 => {
                let key = rng.key().to_storage_key().unwrap();
                let canonical = key.to_key_bytes().unwrap();
                let raw_key = key.to_delta_mpt_key_bytes(&model.delta_padding).unwrap();
                let value = normalize_value(rng.value());
                state.set(key, value.clone().into_boxed_slice()).unwrap();
                model.delta.insert(
                    canonical,
                    ModelValue {
                        raw_key,
                        value: if value.is_empty() { None } else { Some(value) },
                    },
                );
            }
            5 => {
                let key = rng.key().to_storage_key().unwrap();
                let canonical = key.to_key_bytes().unwrap();
                let raw_key = key.to_delta_mpt_key_bytes(&model.delta_padding).unwrap();
                state.set(key, Box::new([])).unwrap();
                model.delta.insert(canonical, ModelValue { raw_key, value: None });
            }
            6 | 7 => {
                let key = rng.key().to_storage_key().unwrap();
                let canonical = key.to_key_bytes().unwrap();
                let actual = state.get(key).unwrap().map(|v| v.to_vec());
                assert_eq!(actual, model.get(&canonical));
            }
            8 => {
                let prefix = rng.prefix().to_storage_key();
                let actual = normalize_kvs(state.get_all_by_prefix(prefix.clone()).unwrap());
                let expected = normalize_kvs(model.prefix_get(&prefix));
                assert_eq!(actual, expected);
            }
            9 => {
                let prefix = rng.prefix().to_storage_key();
                let actual = normalize_kvs(state.delete_all_by_prefix(prefix.clone()).unwrap());
                let expected = normalize_kvs(model.prefix_delete(&prefix));
                assert_eq!(actual, expected);
                assert_model_matches_state(&state, &model);
            }
            10 => {
                let root = state.commit().unwrap();
                model.advance_after_commit(root.delta_root);
                assert_model_matches_state(&state, &model);
            }
            _ => {
                let root = state.commit().unwrap();
                model.advance_after_commit(root.delta_root);
                state = State::from_persisted(state.persisted());
                assert_model_matches_state(&state, &model);
            }
        }
    }
}

impl Lcg {
    fn prefix(&mut self) -> PrefixSeed {
        let n = (self.next() % 3) as usize;
        PrefixSeed {
            key: self.key(),
            kind: self.byte(),
            len: self.byte(),
            bytes: (0..n).map(|_| (self.next() % 6) as u8).collect(),
        }
    }
}

#[test]
fn layered_state_matches_model() {
    for seed in 1..=4u64 {
        layered_case(seed.wrapping_mul(0x9e37_79b9_7f4a_7c15));
    }
}

fn record(byte: u8) -> MptValue {
    if byte % 5 == 0 {
        MptValue::Tombstone
    } else {
        MptValue::Live(Box::from([byte]))
    }
}

#[test]
fn incremental_root_matches_full_root() {
    let mut rng = Lcg(77);
    for _ in 0..2 {
        let mut map: ByteMap<MptValue> = ByteMap::new();
        let mut inc = IncrementalTrie::default();
        for _ in 0..60 {
            let klen = (rng.next() % 6) as usize;
            let key: Vec<u8> = (0..klen).map(|_| (rng.next() % 6) as u8).collect();
            let op = rng.byte();
            if op % 4 == 0 && map.contains_key(&key) {
                map.remove(&key);
                inc.remove(&key);
            } else {
                inc.insert(&key, record(op));
                map.insert(key, record(op));
            }
            if op % 2 == 0 {
                assert_eq!(inc.root(), trie_root(&map));
            }
        }
        assert_eq!(inc.root(), trie_root(&map));
    }
}

#[test]
fn large_state_commits_the_same_root_twice() {
    let mut state = State::new();
    for i in 0..5000usize {
        let mut key = vec![0u8; 32];
        key[24..].copy_from_slice(&(i as u64).to_be_bytes());
        let storage_key = StorageKeyWithSpace {
            key: StorageKey::Storage { address: vec![3; 20], storage_key: key },
            space: Space::Ethereum,
        };
        state.set(storage_key, Box::from([3, i as u8, (i >> 8) as u8, 9])).unwrap();
    }
    let root_a = state.commit().unwrap();
    let root_b = state.commit().unwrap();
    assert_eq!(root_a, root_b);
}

impl Model {
    fn new(snapshot_epoch_count: u32) -> Self {
        Self {
            snapshot: BTreeMap::new(),
            intermediate: BTreeMap::new(),
            delta: BTreeMap::new(),
            intermediate_padding: DeltaMptKeyPadding::genesis(),
            delta_padding: DeltaMptKeyPadding::genesis(),
            height: 0,
            snapshot_epoch_count,
        }
    }

    fn advance_after_commit(&mut self, delta_root: H256) {
        self.height += 1;
        if self.height % self.snapshot_epoch_count as u64 != 0 {
            return;
        }

        for (canonical, value) in std::mem::take(&mut self.intermediate) {
            match value.value {
                Some(value) => {
                    self.snapshot.insert(canonical, value);
                }
                None => {
                    self.snapshot.remove(&canonical);
                }
            }
        }

        let mut records: ByteMap<MptValue> = ByteMap::new();
        for (k, v) in self.snapshot.iter() {
            records.insert(k.clone(), MptValue::Live(v.clone().into_boxed_slice()));
        }
        let snapshot_root = trie_root(&records);
        self.intermediate = std::mem::take(&mut self.delta);
        self.intermediate_padding = self.delta_padding;
        self.delta_padding = DeltaMptKeyPadding::from_roots(snapshot_root, delta_root);
    }

    fn get(&self, canonical: &[u8]) -> Option<Vec<u8>> {
        if let Some(value) = self.delta.get(canonical) {
            return value.value.clone();
        }
        if let Some(value) = self.intermediate.get(canonical) {
            return value.value.clone();
        }
        self.snapshot.get(canonical).cloned()
    }

    fn prefix_get(&self, prefix: &StorageKeyWithSpace) -> Option<Vec<MptKeyValue>> {
        let canonical_prefix = prefix.to_key_bytes().unwrap();
        let delta_prefix = prefix
            .to_delta_mpt_key_bytes(&self.delta_padding)
            .unwrap();
        let intermediate_prefix = prefix
            .to_delta_mpt_key_bytes(&self.intermediate_padding)
            .unwrap();
        let address_prefix = address_prefix(prefix);
        let mut seen = BTreeSet::new();
        let mut out = Vec::new();

        for (key, value) in self.delta.iter() {
            if !value.raw_key.starts_with(&delta_prefix) {
                continue;
            }
            if address_prefix.is_some_and(|prefix| !key.starts_with(prefix)) {
                continue;
            }
            seen.insert(key.clone());
            if let Some(value) = &value.value {
                out.push((key.clone(), value.clone().into_boxed_slice()));
            }
        }
        for (key, value) in self.intermediate.iter() {
            if !value.raw_key.starts_with(&intermediate_prefix) {
                continue;
            }
            if address_prefix.is_some_and(|prefix| !key.starts_with(prefix)) {
                continue;
            }
            if seen.insert(key.clone()) {
                if let Some(value) = &value.value {
                    out.push((key.clone(), value.clone().into_boxed_slice()));
                }
            }
        }
        for (key, value) in self.snapshot.range(canonical_prefix.clone()..) {
            if !key.starts_with(&canonical_prefix) {
                break;
            }
            if seen.insert(key.clone()) {
                out.push((key.clone(), value.clone().into_boxed_slice()));
            }
        }

        (!out.is_empty()).then_some(out)
    }

    fn prefix_delete(&mut self, prefix: &StorageKeyWithSpace) -> Option<Vec<MptKeyValue>> {
        let canonical_prefix = prefix.to_key_bytes().unwrap();
        let delta_prefix = prefix
            .to_delta_mpt_key_bytes(&self.delta_padding)
            .unwrap();
        let intermediate_prefix = prefix
            .to_delta_mpt_key_bytes(&self.intermediate_padding)
            .unwrap();
        let address_prefix = address_prefix(prefix);
        let mut seen = BTreeSet::new();
        let mut out = Vec::new();

        let delta_keys: Vec<_> = self
            .delta
            .iter()
            .filter(|(_, value)| value.raw_key.starts_with(&delta_prefix))
            .map(|(key, _)| key.clone())
            .collect();
        for key in delta_keys {
            let value = self.delta.remove(&key).unwrap();
            if address_prefix.is_some_and(|prefix| !key.starts_with(prefix)) {
                continue;
            }
            seen.insert(key.clone());
            if let Some(value) = value.value {
                out.push((key, value.into_boxed_slice()));
            }
        }

        let intermediate_keys: Vec<_> = self
            .intermediate
            .iter()
            .filter(|(_, value)| value.raw_key.starts_with(&intermediate_prefix))
            .map(|(key, _)| key.clone())
            .collect();
        for key in intermediate_keys {
            let value = self.intermediate.get(&key).cloned().unwrap();
            if address_prefix.is_some_and(|prefix| !key.starts_with(prefix)) {
                continue;
            }
            if value.value.is_some() {
                let storage_key = StorageKeyWithSpace::from_key_bytes(&key).unwrap();
                self.delta.insert(
                    key.clone(),
                    ModelValue {
                        raw_key: storage_key
                            .to_delta_mpt_key_bytes(&self.delta_padding)
                            .unwrap(),
                        value: None,
                    },
                );
            }
            if seen.insert(key.clone()) {
                if let Some(value) = value.value {
                    out.push((key, value.into_boxed_slice()));
                }
            }
        }

        let snapshot_keys: Vec<_> = self
            .snapshot
            .range(canonical_prefix.clone()..)
            .take_while(|(key, _)| key.starts_with(&canonical_prefix))
            .map(|(key, _)| key.clone())
            .collect();
        for key in snapshot_keys {
            let value = self.snapshot.get(&key).cloned().unwrap();
            let storage_key = StorageKeyWithSpace::from_key_bytes(&key).unwrap();
            self.delta.insert(
                key.clone(),
                ModelValue {
                        raw_key: storage_key
                        .to_delta_mpt_key_bytes(&self.delta_padding)
                        .unwrap(),
                    value: None,
                },
            );
            if seen.insert(key.clone()) {
                out.push((key, value.into_boxed_slice()));
            }
        }

        (!out.is_empty()).then_some(out)
    }
}

impl KeySeed {
    fn to_storage_key(&self) -> Result<StorageKeyWithSpace, ()> {
        let address = vec![self.id; 20];
        let key = match self.kind % 7 {
            0 => StorageKey::Account(address),
            1 => StorageKey::StorageRoot(address),
            2 => StorageKey::Storage {
                address,
                storage_key: normalize_suffix(&self.suffix, 32),
            },
            3 => StorageKey::CodeRoot(address),
            4 => StorageKey::Code {
                address,
                code_hash: normalize_suffix(&self.suffix, 32),
            },
            5 => StorageKey::DepositList(address),
            _ => StorageKey::VoteList(address),
        };
        Ok(StorageKeyWithSpace {
            key,
            space: if self.space {
                Space::Ethereum
            } else {
                Space::Native
            },
        })
    }
}

impl PrefixSeed {
    fn to_storage_key(&self) -> StorageKeyWithSpace {
        if self.kind % 4 == 0 {
            let mut prefix = self.bytes.clone();
            if prefix.is_empty() {
                prefix.push(self.key.id);
            }
            prefix.truncate((self.len as usize) % 21);
            return StorageKeyWithSpace {
                key: StorageKey::AddressPrefix(prefix),
                space: if self.key.space {
                    Space::Ethereum
                } else {
                    Space::Native
                },
            };
        }
        if self.kind % 4 == 1 {
            let mut storage_prefix = normalize_suffix(&self.key.suffix, 32);
            storage_prefix.truncate((self.len as usize) % 33);
            return StorageKeyWithSpace {
                key: StorageKey::Storage {
                    address: vec![self.key.id; 20],
                    storage_key: storage_prefix,
                },
                space: if self.key.space {
                    Space::Ethereum
                } else {
                    Space::Native
                },
            };
        }
        self.key.to_storage_key().unwrap()
    }
}

fn assert_model_matches_state(state: &State, model: &Model) {
    let mut keys = BTreeSet::new();
    keys.extend(model.snapshot.keys().cloned());
    keys.extend(model.intermediate.keys().cloned());
    keys.extend(model.delta.keys().cloned());
    for canonical in keys {
        let storage_key = StorageKeyWithSpace::from_key_bytes(&canonical).unwrap();
        let actual = state.get(storage_key).unwrap().map(|v| v.to_vec());
        let expected = model.get(&canonical);
        assert_eq!(
            actual,
            expected,
            "canonical={canonical:?} delta={:?} intermediate={:?} snapshot={:?}",
            model.delta.get(&canonical).map(|v| &v.value),
            model.intermediate.get(&canonical).map(|v| &v.value),
            model.snapshot.get(&canonical),
        );
    }
}

fn address_prefix(prefix: &StorageKeyWithSpace) -> Option<&[u8]> {
    match &prefix.key {
        StorageKey::AddressPrefix(prefix) => Some(prefix),
        _ => None,
    }
}

fn normalize_kvs(values: Option<Vec<MptKeyValue>>) -> Option<Vec<(Vec<u8>, Vec<u8>)>> {
    values.map(|values| {
        let mut values: Vec<_> = values
            .into_iter()
            .map(|(key, value)| (key, value.to_vec()))
            .collect();
        values.sort();
        values
    })
}

fn normalize_value(mut value: Vec<u8>) -> Vec<u8> {
    value.truncate(256);
    value
}

fn normalize_suffix(bytes: &[u8], len: usize) -> Vec<u8> {
    let mut out = vec![0u8; len];
    for (i, b) in bytes.iter().take(len).enumerate() {
        out[i] = *b;
    }
    out
}
