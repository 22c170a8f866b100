use cfx_minimal_execution::bytemap::ByteMap;
use cfx_minimal_execution::cfxpack::codec::{
    align_to, put_qc5e, put_qc8, put_u32_le, put_u64_le, put_uleb128, qc5e_base_price_enum,
    qc5e_gas_limit_enum, read_qc5e, read_qc8, read_u32_le, read_u64_le, read_uleb128, zigzag_decode,
    zigzag_encode, Qc5e,
};
use cfx_minimal_execution::cfxpack::error::PackError;
use cfx_minimal_execution::cfxpack::types::U256;
use cfx_minimal_execution::incremental::IncrementalTrie;
use cfx_minimal_execution::incremental::CachePolicy;
use cfx_minimal_execution::node_step::{keeps_hash, node_depth, node_hash, stale_prefixes};
use cfx_minimal_execution::trie::{keccak, trie_root, MptValue};
use cfx_minimal_execution::types::H256;

#[test]
fn varints_come_back() {
    let mut out = Vec::new();
    put_uleb128(&mut out, 624_485);
    assert_eq!(out, vec![0xe5, 0x8e, 0x26]);
    for v in [0u64, 127, 128, 16_384, u64::MAX] {
        let mut out = vec![9u8];
        put_uleb128(&mut out, v);
        let mut at = 1;
        assert_eq!(read_uleb128(&out, &mut at), Ok(v));
        assert_eq!(at, out.len());
    }
    let mut at = 0;
    assert_eq!(read_uleb128(&[0x80], &mut at), Err(PackError::Truncated));
    let mut at = 0;
    assert!(read_uleb128(&[0xff; 11], &mut at).is_err());
}

#[test]
fn signed_differences_come_back() {
    assert_eq!(zigzag_encode(0), 0);
    assert_eq!(zigzag_encode(0u64.wrapping_sub(1)), 1);
    assert_eq!(zigzag_encode(1), 2);
    assert_eq!(zigzag_encode(900u64.wrapping_sub(1000)), 199);
    for d in [0u64, 1, 5, u64::MAX, u64::MAX - 99, 1 << 63] {
        assert_eq!(zigzag_decode(zigzag_encode(d)), d);
    }
}

#[test]
fn fixed_numbers_come_back() {
    let mut out = Vec::new();
    put_u32_le(&mut out, 0x0102_0304);
    put_u64_le(&mut out, 0x0506_0708_090a_0b0c);
    assert_eq!(out[..4], [4, 3, 2, 1]);
    assert_eq!(read_u32_le(&out, 0), Ok(0x0102_0304));
    assert_eq!(read_u64_le(&out, 4), Ok(0x0506_0708_090a_0b0c));
    assert_eq!(read_u64_le(&out, 5), Err(PackError::Truncated));
    align_to(&mut out, 8);
    assert_eq!(out.len(), 16);
    align_to(&mut out, 8);
    assert_eq!(out.len(), 16);
}

fn power(bits: usize) -> U256 {
    let mut bytes = [0u8; 32];
    bytes[31 - bits / 8] = 1 << (bits % 8);
    U256(bytes)
}

#[test]
fn rewards_take_eight_to_eleven_bytes() {
    for (w, len) in [
        (U256::zero(), 8),
        (power(61), 8),
        (power(62), 9),
        (power(70), 10),
        (power(85), 11),
    ] {
        let mut out = Vec::new();
        put_qc8(&mut out, &w).unwrap();
        assert_eq!(out.len(), len);
        let mut at = 0;
        assert_eq!(read_qc8(&out, &mut at).unwrap(), w);
        assert_eq!(at, len);
    }
    let mut out = Vec::new();
    assert_eq!(put_qc8(&mut out, &power(86)), Err(PackError::ValueTooLarge));
    let mut at = 0;
    assert_eq!(read_qc8(&[0x40; 8], &mut at).unwrap_err(), PackError::Truncated);
}

#[test]
fn prices_take_one_or_five_to_seven_bytes() {
    assert_eq!(qc5e_gas_limit_enum(&U256::from_u64(30_000_000)), Some(1));
    assert_eq!(qc5e_gas_limit_enum(&U256::from_u64(60_000_000)), Some(2));
    assert_eq!(qc5e_gas_limit_enum(&U256::from_u64(1)), None);
    assert_eq!(qc5e_base_price_enum(&U256::from_u64(1_000_000_000), false), Some(1));
    assert_eq!(qc5e_base_price_enum(&U256::from_u64(20_000_000_000), true), Some(1));
    assert_eq!(qc5e_base_price_enum(&U256::from_u64(20_000_000_000), false), None);
    for (w, listed, len) in [
        (U256::zero(), None, 1),
        (U256::from_u64(30_000_000), Some(1), 1),
        (U256::from_u64(5), None, 5),
        (power(38), None, 6),
        (power(46), None, 7),
    ] {
        let mut out = Vec::new();
        put_qc5e(&mut out, &w, listed).unwrap();
        assert_eq!(out.len(), len);
        let mut at = 0;
        match read_qc5e(&out, &mut at).unwrap() {
            Qc5e::Enumerated(n) => assert_eq!(n, listed.unwrap_or(0)),
            Qc5e::Word(v) => assert_eq!(v, w),
        }
        assert_eq!(at, len);
    }
    let mut out = Vec::new();
    assert_eq!(put_qc5e(&mut out, &power(54), None), Err(PackError::ValueTooLarge));
}

#[test]
fn keccak_of_nothing() {
    assert_eq!(keccak(&[]).0, cfx_minimal_execution::types::MERKLE_NULL_NODE);
    assert_ne!(keccak(&[0]).0, keccak(&[0, 0]).0);
}

#[test]
fn large_layers_hash_the_same_in_parallel() {
    let mut map: ByteMap<MptValue> = ByteMap::new();
    let mut step = IncrementalTrie::default();
    for i in 0..4200u32 {
        let key = vec![(i % 251) as u8, (i / 251) as u8];
        step.insert(&key, MptValue::Live(Box::from([i as u8])));
        map.insert(key, MptValue::Live(Box::from([i as u8])));
        if i == 10 {
            step.root();
        }
    }
    let root = trie_root(&map);
    assert_eq!(step.root(), root);
    assert_eq!(IncrementalTrie::from_delta(&map).root(), root);
}

#[test]
fn nodes_hash_from_what_is_read_for_them() {
    let mut map: ByteMap<MptValue> = ByteMap::new();
    map.insert(vec![0x12], MptValue::Live(Box::from([1u8])));
    map.insert(vec![0x13], MptValue::Live(Box::from([2u8])));
    let null = H256(cfx_minimal_execution::types::MERKLE_NULL_NODE);
    // The root has one child, which lies at 1; below it the keys part at 2 and 3.
    let leaf = |last: u8, value: u8| {
        let key = [1, last];
        let end = node_depth(2, &key, &key, true);
        node_hash(2, &key, end, &[null; 16], Some(&[value]))
    };
    let (first, last) = ([1u8, 2], [1u8, 3]);
    let mut children = [null; 16];
    children[2] = leaf(2, 1);
    children[3] = leaf(3, 2);
    let end = node_depth(1, &first, &last, true);
    assert_eq!(end, 1);
    let child = node_hash(1, &first, end, &children, None);
    let mut top = [null; 16];
    top[1] = child;
    let root = node_hash(0, &first, node_depth(0, &first, &last, false), &top, None);
    assert_eq!(root, trie_root(&map));
}

#[test]
fn cached_hashes_are_kept_and_dropped() {
    assert!(keeps_hash(CachePolicy::Full, &[1, 2], &[1, 2]));
    assert!(keeps_hash(CachePolicy::SkipSingleton, &[1, 2], &[1, 3]));
    assert!(!keeps_hash(CachePolicy::SkipSingleton, &[1, 2], &[1, 2]));
    let stale = stale_prefixes(&[4, 5]);
    assert_eq!(stale, vec![vec![], vec![4], vec![4, 5]]);
    assert_eq!(stale_prefixes(&[]), vec![Vec::<u8>::new()]);
}
