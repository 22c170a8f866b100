use cfx_minimal_execution::bytemap::ByteMap;
use cfx_minimal_execution::incremental::IncrementalTrie;
use cfx_minimal_execution::trie::{trie_root, MptValue};
use cfx_minimal_execution::types::H256;

const MERKLE_NULL_NODE: H256 = H256(cfx_minimal_execution::types::MERKLE_NULL_NODE);



#[test]
fn empty_root_is_null() {
    assert_eq!(trie_root(&ByteMap::new()), MERKLE_NULL_NODE);
}

#[test]
fn root_is_order_independent() {
    let mut a = ByteMap::new();
    a.insert(vec![0x12], MptValue::Live(Box::from([1u8])));
    a.insert(vec![0x13], MptValue::Live(Box::from([2u8])));
    let root_a = trie_root(&a);

    let mut b = ByteMap::new();
    b.insert(vec![0x13], MptValue::Live(Box::from([2u8])));
    b.insert(vec![0x12], MptValue::Live(Box::from([1u8])));
    assert_eq!(root_a, trie_root(&b));
}




fn val(b: u8) -> MptValue {
    if b == 0 {
        MptValue::Tombstone
    } else {
        MptValue::Live(Box::from([b]))
    }
}

/// Drives a map through random operations, and holds the incremental root against the
/// one computed from scratch: often while the trie is small, then now and then, and at
/// the end.
#[test]
fn matches_oracle_under_random_ops() {
    // Small deterministic LCG so the test is reproducible without deps.
    let mut seed: u64 = 0x9e3779b97f4a7c15;
    let mut next = || {
        seed = seed.wrapping_mul(6364136223846793005).wrapping_add(1);
        (seed >> 33) as u32
    };

    let mut map: ByteMap<MptValue> = ByteMap::new();
    let mut inc = IncrementalTrie::default();

    for op_i in 0..4000 {
        // Keys share prefixes to exercise path compression split/merge.
        let klen = 1 + (next() % 4) as usize;
        let mut key = Vec::with_capacity(klen);
        for _ in 0..klen {
            key.push((next() % 6) as u8);
        }
        let v = (next() % 4) as u8;

        let action = if v == 0 && map.contains_key(&key) {
            map.remove(&key);
            inc.remove(&key);
            "remove"
        } else {
            map.insert(key.clone(), val(v));
            inc.insert(&key, val(v));
            "insert"
        };

        // Mostly batch several ops before comparing (exercising multi-dirty
        // commits), but compare often enough to localise any divergence.
        let compare = next() % 3 == 0;
        if compare && (op_i < 300 || op_i % 400 == 0) {
            assert_eq!(
                inc.root(),
                trie_root(&map),
                "diverged at op {op_i}: {action} key={key:?} size {}",
                map.len()
            );
        }
    }
    assert_eq!(inc.root(), trie_root(&map));
}

/// Same, but compare after every op while the trie is small, so that an update that
/// goes wrong cannot hide behind a later full recompute, and now and then after that.
#[test]
fn matches_oracle_every_op() {
    let mut seed: u64 = 0x2545f4914f6cdd1d;
    let mut next = || {
        seed = seed.wrapping_mul(6364136223846793005).wrapping_add(1);
        (seed >> 33) as u32
    };
    let mut map: ByteMap<MptValue> = ByteMap::new();
    let mut inc = IncrementalTrie::default();
    for op_i in 0..4000 {
        let klen = 1 + (next() % 5) as usize;
        let key: Vec<u8> = (0..klen).map(|_| (next() % 6) as u8).collect();
        let v = (next() % 4) as u8;
        if v == 0 && map.contains_key(&key) {
            map.remove(&key);
            inc.remove(&key);
        } else {
            map.insert(key.clone(), val(v));
            inc.insert(&key, val(v));
        }
        if op_i < 100 || op_i % 400 == 0 {
            assert_eq!(
                inc.root(),
                trie_root(&map),
                "diverged at op {op_i} key={key:?}"
            );
        } else if op_i % 4 == 0 {
            inc.root();
        }
    }
}

#[test]
fn empty_after_clear_is_null() {
    let mut inc = IncrementalTrie::default();
    let mut map = ByteMap::new();
    map.insert(vec![1u8], MptValue::Live(Box::from([1u8])));
    inc.insert(&[1u8], MptValue::Live(Box::from([1u8])));
    assert_eq!(inc.root(), trie_root(&map));
    inc.clear();
    assert_eq!(inc.root(), MERKLE_NULL_NODE);
}

/// `from_delta` reproduces the oracle for a preloaded delta.
#[test]
fn from_delta_matches_oracle() {
    let mut map: ByteMap<MptValue> = ByteMap::new();
    for b in 0u8..50 {
        map.insert(vec![b % 7, b % 5, b], val(b | 1));
    }
    let mut inc = IncrementalTrie::from_delta(&map);
    assert_eq!(inc.root(), trie_root(&map));
}

