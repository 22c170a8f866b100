use cfx_minimal_execution::cfxpack::container::{
    parse_directory, validate_contiguity, write_container, Group, HEADER_LEN, MAGIC,
};
use cfx_minimal_execution::cfxpack::error::PackError;
use cfx_minimal_execution::cfxpack::files::{
    collect_files, collect_sorted_pack_files, order_shards,
};
use cfx_minimal_execution::cfxpack::names::{
    container_name, end_epoch, is_cfxpack, is_compressed, pack_order_key, shard_epoch_range,
    shard_name, start_epoch,
};

fn group(start_epoch: u64, epoch_count: u64, bytes: &[u8]) -> Group {
    Group { start_epoch, epoch_count, bytes: bytes.to_vec() }
}

#[test]
fn container_lists_its_groups() {
    let groups = vec![group(1, 2000, b"first"), group(2001, 2000, b""), group(4001, 7, b"last!!")];
    let data = write_container(&groups, 2000).unwrap();
    assert_eq!(&data[0..8], b"CFXPACK1");
    assert_eq!(&MAGIC, b"CFXPACK1");
    assert_eq!(data[8..12], 1u32.to_le_bytes());
    assert_eq!(data[12..16], 3u32.to_le_bytes());
    assert_eq!(data[16..20], 2000u32.to_le_bytes());
    assert_eq!(data[20..24], [0; 4]);
    let base = HEADER_LEN as usize + 3 * 32;
    let entries = parse_directory(&data).unwrap();
    assert_eq!(
        entries,
        vec![
            (1, 2000, base, 5),
            (2001, 2000, base + 5, 0),
            (4001, 7, base + 5, 6),
        ]
    );
    assert_eq!(&data[base..base + 5], b"first");
    assert_eq!(&data[base + 5..], b"last!!");
    assert_eq!(parse_directory(&write_container(&Vec::new(), 1).unwrap()).unwrap(), Vec::new());
}

#[test]
fn broken_containers_are_refused() {
    let data = write_container(&vec![group(1, 2, b"abc")], 2).unwrap();
    assert_eq!(parse_directory(&data[..20]).unwrap_err(), PackError::NotContainer);
    let mut other = data.clone();
    other[7] = b'2';
    assert_eq!(parse_directory(&other).unwrap_err(), PackError::NotContainer);
    assert_eq!(parse_directory(&data[..40]).unwrap_err(), PackError::TruncatedDirectory);
    let cut = &data[..data.len() - 1];
    assert_eq!(parse_directory(cut).unwrap_err(), PackError::PayloadBounds);
    let mut huge = data.clone();
    for b in huge[40..56].iter_mut() {
        *b = 0xff;
    }
    assert_eq!(parse_directory(&huge).unwrap_err(), PackError::PayloadBounds);
}

#[test]
fn groups_follow_each_other() {
    let mut next = Some(2001);
    assert_eq!(validate_contiguity(2001, &mut next, 0), Ok(()));
    assert_eq!(next, Some(2001));
    assert_eq!(validate_contiguity(2002, &mut next, 2001), Err(PackError::NonContiguous));
    let mut none = None;
    assert_eq!(validate_contiguity(7, &mut none, 0), Ok(()));
    assert_eq!(validate_contiguity(7, &mut none, 6), Ok(()));
    assert_eq!(validate_contiguity(7, &mut none, 7), Err(PackError::ResumeGap));
    assert_eq!(validate_contiguity(0, &mut none, u64::MAX), Err(PackError::ResumeGap));
}

#[test]
fn names_tell_epochs() {
    assert_eq!(container_name("epochs", 1, 2000), "epochs_1_2000.cfxpack");
    for name in ["epochs_1_2000.cfxpack", "epochs_1_2000.cfxpack.zst"] {
        assert!(is_cfxpack(name));
        assert_eq!(start_epoch(name), Some(1));
        assert_eq!(end_epoch(name), Some(2000));
    }
    assert!(!is_compressed("epochs_1_2000.cfxpack"));
    assert!(is_compressed("epochs_1_2000.cfxpack.zst"));
    assert!(!is_cfxpack("epochs_1_2000.cfxpack.tmp"));
    assert_eq!(start_epoch("epochs_1_2000.tmp"), None);
    assert_eq!(start_epoch("2000.cfxpack"), None);
    assert_eq!(end_epoch("2000.cfxpack"), Some(2000));
    assert_eq!(start_epoch("a_b_+7_x.cfxpack"), Some(7));
    assert_eq!(end_epoch("a_b_+7_x.cfxpack"), None);
    assert_eq!(start_epoch("a_18446744073709551616_1.cfxpack"), None);
    assert_eq!(start_epoch("a_18446744073709551615_1.cfxpack"), Some(u64::MAX));
    assert_eq!(start_epoch("_5_6.cfxpack"), Some(5));
    assert_eq!(start_epoch("5_6.cfxpack"), Some(5));
    assert_eq!(pack_order_key("epochs_12_34.cfxpack"), 12);
    assert_eq!(pack_order_key("epochs_12"), 12);
    assert_eq!(pack_order_key("other_12_34.cfxpack"), u64::MAX);
    assert_eq!(shard_name(3, 14), "3-14.cfxpkt");
    assert_eq!(shard_epoch_range("3-14.cfxpkt"), Some((3, 14)));
    assert_eq!(shard_epoch_range("3-14"), Some((3, 14)));
    assert_eq!(shard_epoch_range("3-1-4.cfxpkt"), None);
    assert_eq!(shard_epoch_range("314.cfxpkt"), None);
}

fn names(list: &[&str]) -> Vec<String> {
    list.iter().map(|s| s.to_string()).collect()
}

#[test]
fn compressed_containers_win() {
    let list = names(&[
        "epochs_4001_6000.cfxpack",
        "epochs_1_2000.cfxpack",
        "readme.txt",
        "epochs_1_2000.cfxpack.zst",
        "epochs_2001_4000.cfxpack.zst",
        "epochs_2001_4000.cfxpack",
        "epochs_x_4000.cfxpack",
        "again_4001_5000.cfxpack",
    ]);
    assert_eq!(collect_files(&list).unwrap(), vec![3, 4, 7]);
    assert_eq!(collect_files(&names(&["a.txt"])).unwrap_err(), PackError::NoFiles);
}

#[test]
fn pack_files_are_ordered_by_height() {
    let list = names(&[
        "epochs_10000_12000.cfxpack",
        "epochs_2000_4000.cfxpack",
        "epochs_2000_4000.cfxpack.zst",
        "odd.cfxpack",
        "epochs_1_2000.cfxpack",
        ".cfxpack",
        "epochs_2000_9.cfxpack",
    ]);
    assert_eq!(collect_sorted_pack_files(&list, None, None).unwrap(), vec![4, 1, 6, 0, 3]);
    assert_eq!(
        collect_sorted_pack_files(&list, Some(10000), Some(2000)).unwrap(),
        vec![1, 6]
    );
    assert_eq!(
        collect_sorted_pack_files(&list, Some(1), None).unwrap_err(),
        PackError::NoFiles
    );
}

#[test]
fn shards_are_ordered_and_counted() {
    let list = names(&["2001-4000.cfxpkt", "1-2000.cfxpkt", "notes.md", "4001-4001.cfxpkt"]);
    assert_eq!(order_shards(&list).unwrap(), vec![(1, 2000), (0, 2000), (3, 1)]);
    assert_eq!(order_shards(&names(&["x.cfxpkt"])).unwrap_err(), PackError::ShardName);
    assert_eq!(order_shards(&names(&["9-3.cfxpkt"])).unwrap_err(), PackError::ShardName);
    assert_eq!(order_shards(&Vec::new()).unwrap(), Vec::new());
}
