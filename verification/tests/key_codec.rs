use cfx_minimal_execution::key_codec::{DeltaMptKeyPadding, StorageKey, StorageKeyWithSpace, EVM_SPACE_TYPE};



#[test]
fn espace_marker_positions_differ() {
    let key = StorageKeyWithSpace::ethereum(StorageKey::Account(vec![7; 20]));
    assert_eq!(key.to_key_bytes().unwrap()[20], EVM_SPACE_TYPE);
    assert_eq!(
        key.to_delta_mpt_key_bytes(&DeltaMptKeyPadding::genesis())
            .unwrap()[32],
        EVM_SPACE_TYPE
    );
}

#[test]
fn delta_key_roundtrip() {
    let key = StorageKeyWithSpace::ethereum(StorageKey::Storage {
        address: vec![1; 20],
        storage_key: vec![2; 32],
    });
    let raw = key
        .to_delta_mpt_key_bytes(&DeltaMptKeyPadding::genesis())
        .unwrap();
    assert_eq!(StorageKeyWithSpace::from_delta_mpt_key(&raw).unwrap(), key);
}
