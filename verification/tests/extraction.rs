use cfx_minimal_execution::bench::{count_packet, DecodeBenchReport};
use cfx_minimal_execution::bytemap::ByteMap;
use cfx_minimal_execution::cfxpack::container::{parse_directory, write_container, Group};
use cfx_minimal_execution::cfxpack::decode::{
    block_flag_sites, decode_packet, decode_packet_ext,
};
use cfx_minimal_execution::cfxpack::encode::encode_packet;
use cfx_minimal_execution::cfxpack::error::PackError;
use cfx_minimal_execution::cfxpack::packet::{
    Action, Packet, PosRewardAccount, PosRewardEntry, SenderBaseNonce, SignedTransaction, TxKind,
    UnlockEntry, FLAG_ADAPTIVE, FLAG_ESPACE, FLAG_PIVOT, FLAG_SKIPPED_EXECUTION,
    FLAG_ZERO_TOTAL_REWARD,
};
use cfx_minimal_execution::cfxpack::types::{Address, U256};
use cfx_minimal_execution::cfxpack::verify::verify_packet;
use cfx_minimal_execution::extract::blocks::{
    block_flags, effective_pos_reference, pivot_hashes, BlockCollector, BlockReward, CommittedBlock, EpochBlocks,
    ExtractError, Header,
};
use cfx_minimal_execution::extract::config::{
    build_pack_tasks, build_shard_tasks, check_run, ChainParams, ExtractConfig, ExtractReport,
    ExtractTiming, PackTask, RunError,
};
use cfx_minimal_execution::extract::db::{
    block_key, epoch_key, parse_block_reward, parse_epoch_hash, parse_epoch_hashes,
    parse_pos_reward, parse_start_block_number, parse_stored_reward, pos_reward_key, BLOCK_REWARD_RESULT_SUFFIX,
    EPOCH_EXECUTED_BLOCK_SET_SUFFIX,
};
use cfx_minimal_execution::extract::flagpatch::{
    apply_zero_flags, find_flag_sites, total_reward_is_zero, FlagPatchSummary,
};
use cfx_minimal_execution::extract::pack::{
    PackWriter, PacketOut, DEFAULT_PACK_TARGET_BYTES,
};
use cfx_minimal_execution::extract::packet::{
    build_packet, extract_packet, unlock_scans, EpochUnlocks, PacketError, PivotRef, PrevBoundary, UnlockScan,
};
use cfx_minimal_execution::extract::reward_json::reward_json;
use cfx_minimal_execution::extract::reward_patch::{inject_reward, POS_REFERENCE_HEIGHT};
use cfx_minimal_execution::extract::shards::{
    ActiveShard, ProgressEvent, ProgressState, ShardTotals,
};
use cfx_minimal_execution::extract::tables::{
    build_address_table, build_difficulty_table, build_gas_price_table,
    build_sender_base_nonce_table,
};
use cfx_minimal_execution::types::H256;

fn addr(v: u64) -> Address {
    Address::from_low_u64_be(v)
}

fn hash(v: u64) -> H256 {
    H256::from_low_u64_be(v)
}

fn header(height: u64, author: u64) -> Header {
    Header {
        height,
        timestamp: 1_700_000_000 + height,
        adaptive: false,
        author: addr(author),
        difficulty: U256::from_u64(1000),
        gas_limit: U256::from_u64(30_000_000),
        base_price: None,
        blame: 0,
        deferred_state_root: hash(1),
        deferred_receipts_root: hash(2),
        deferred_logs_bloom_hash: hash(3),
        pos_reference: None,
    }
}

fn tx(sender: u64, receiver: u64, nonce: u64) -> SignedTransaction {
    SignedTransaction {
        identity: hash(1_000_000 + sender * 1000 + nonce % 1000),
        sender: addr(sender),
        kind: TxKind::Cip155,
        nonce: U256::from_u64(nonce),
        gas_price: U256::from_u64(20),
        max_priority_gas_price: U256::from_u64(20),
        gas: U256::from_u64(21_000),
        action: Action::Call(addr(receiver)),
        value: U256::from_u64(1),
        storage_limit: 0,
        epoch_height: 100,
        data: Vec::new(),
        access_list: Vec::new(),
        authorization_list: Vec::new(),
    }
}

fn paid() -> Option<BlockReward> {
    Some(BlockReward { base_reward: U256::from_u64(5), total_reward: U256::from_u64(6) })
}

fn chain() -> ChainParams {
    ChainParams {
        evm_transaction_block_ratio: 5,
        pos_reference_enable_height: 100,
        cip112_transition_height: u64::MAX,
    }
}

#[test]
fn defaults() {
    let c = ExtractConfig::default();
    assert_eq!(c.data_dir, "data/blockchain_data");
    assert_eq!((c.start_epoch, c.epoch_count), (1, 2));
    assert_eq!(c.chain.evm_transaction_block_ratio, 5);
    assert_eq!(c.chain.pos_reference_enable_height, u64::MAX);
    assert_eq!(DEFAULT_PACK_TARGET_BYTES, 100 * 1024 * 1024);
}

#[test]
fn runs_are_divided_into_groups() {
    let c = ExtractConfig { start_epoch: 11, epoch_count: 4500, ..ExtractConfig::default() };
    let tasks = build_pack_tasks(&c, 2000);
    assert_eq!(
        tasks,
        vec![
            PackTask { group_index: 0, start_epoch: 11, epoch_count: 2000 },
            PackTask { group_index: 1, start_epoch: 2011, epoch_count: 2000 },
            PackTask { group_index: 2, start_epoch: 4011, epoch_count: 500 },
        ]
    );
    let shards = build_shard_tasks(&c, 2000);
    assert_eq!(shards[2].output, "4011-4510.cfxpkt");
    assert_eq!(shards[2].end_epoch(), 4510);
    assert_eq!(build_pack_tasks(&c, 4500).len(), 1);

    assert_eq!(check_run(&c, 2000, 1, None), Ok(()));
    assert_eq!(check_run(&c, 0, 1, None), Err(RunError::NoShardEpochs));
    assert_eq!(check_run(&c, 1, 0, None), Err(RunError::NoJobs));
    assert_eq!(check_run(&c, 1, 1, Some(0)), Err(RunError::NoTarget));
    let none = ExtractConfig { epoch_count: 0, ..ExtractConfig::default() };
    assert_eq!(check_run(&none, 1, 1, None), Err(RunError::NoEpochs));
    let far = ExtractConfig { start_epoch: u64::MAX, ..ExtractConfig::default() };
    assert_eq!(check_run(&far, 1, 1, None), Err(RunError::EpochRange));
}

#[test]
fn flags_follow_the_block() {
    let c = chain();
    let mut h = header(110, 1);
    let reward = paid().unwrap();
    assert_eq!(block_flags(&c, &h, &reward, false, false), 0);
    assert_eq!(block_flags(&c, &h, &reward, true, false), FLAG_PIVOT | FLAG_ESPACE);
    h.height = 111;
    h.adaptive = true;
    assert_eq!(block_flags(&c, &h, &reward, true, false), FLAG_PIVOT | FLAG_ADAPTIVE);
    assert_eq!(
        block_flags(&c, &h, &BlockReward::default(), false, true),
        FLAG_ADAPTIVE | FLAG_SKIPPED_EXECUTION | FLAG_ZERO_TOTAL_REWARD
    );
    h.pos_reference = Some(hash(9));
    assert_eq!(effective_pos_reference(&h, 111), Some(hash(9)));
    assert_eq!(effective_pos_reference(&h, 112), None);
}

fn collected() -> BlockCollector {
    let c = chain();
    let mut all = BlockCollector::new();
    let epoch = EpochBlocks {
        number: 110,
        executed: vec![hash(50), hash(52)],
        skipped: vec![hash(51)],
    };
    assert_eq!(epoch.packet_order().unwrap(), vec![hash(50), hash(51), hash(52)]);
    let mut pivot = header(110, 2);
    pivot.pos_reference = Some(hash(900));
    pivot.base_price = Some((U256::from_u64(20), U256::from_u64(7)));
    let committed = CommittedBlock { view: 40, version: 1000, pivot_height: 60 };
    all.add_block(&c, &epoch, hash(50), header(108, 1), vec![tx(3, 4, 10)], paid(), None).unwrap();
    all.add_block(&c, &epoch, hash(51), header(109, 1), Vec::new(), None, None).unwrap();
    assert_eq!(
        all.add_block(&c, &epoch, hash(52), pivot, Vec::new(), paid(), None),
        Err(ExtractError::MissingCommitted)
    );
    all.add_block(&c, &epoch, hash(52), pivot, vec![tx(3, 5, 11)], paid(), Some(committed)).unwrap();
    let next = EpochBlocks { number: 111, executed: vec![hash(60)], skipped: Vec::new() };
    let mut late = header(111, 1);
    late.pos_reference = Some(hash(901));
    late.difficulty = U256::from_u64(2000);
    let newer = CommittedBlock { view: 43, version: 1010, pivot_height: 200 };
    all.add_block(&c, &next, hash(60), late, vec![tx(3, 4, 12)], None, Some(newer)).unwrap();
    let empty = EpochBlocks { number: 112, executed: Vec::new(), skipped: Vec::new() };
    assert_eq!(empty.packet_order().unwrap_err(), ExtractError::NoPivot);
    assert_eq!(
        all.add_block(&c, &empty, hash(70), late, Vec::new(), None, None),
        Err(ExtractError::NoPivot)
    );
    all
}

fn boundary() -> PrevBoundary {
    PrevBoundary {
        prev_last_hash: hash(7),
        prev_last_deferred_state_root: hash(8),
        first_block_number: 33,
    }
}

fn extracted() -> Packet {
    let mut rewards: ByteMap<PosRewardEntry> = ByteMap::new();
    rewards.insert(
        hash(60).as_bytes().to_vec(),
        PosRewardEntry { account_rewards: Vec::new(), execution_epoch_hash: hash(60) },
    );
    let unlocks = vec![
        EpochUnlocks { epoch: 110, events: vec![UnlockEntry { identifier: hash(5), unlocked: 2 }] },
        EpochUnlocks { epoch: 111, events: Vec::new() },
    ];
    build_packet(&chain(), &boundary(), collected(), &rewards, &unlocks).unwrap()
}

#[test]
fn packets_are_built_from_blocks() {
    let c = collected();
    assert_eq!((c.min_timestamp, c.min_height), (1_700_000_108, 108));
    assert_eq!(c.least_view(), 40);
    assert_eq!(c.blocks[1].flags, FLAG_SKIPPED_EXECUTION | FLAG_ZERO_TOTAL_REWARD);

    let p = extracted();
    assert_eq!(p.first_block_number, 33);
    assert_eq!(p.prev_last_hash, hash(7));
    assert_eq!(p.min_height, 108);
    assert_eq!(p.min_pos_height, 40);
    // Author 1 and sender 3 occur three times, address 4 twice, 2 and 5 once.
    let order: Vec<Address> = [1, 3, 4, 2, 5].iter().map(|v| addr(*v)).collect();
    assert_eq!(p.addresses, order);
    assert_eq!(p.difficulties, vec![U256::from_u64(1000), U256::from_u64(2000)]);
    // 20 occurs seven times; 7 once.
    assert_eq!(p.gas_prices, vec![U256::from_u64(20)]);
    assert_eq!(p.sender_base_nonces, Vec::new());
    assert_eq!(p.pos_entries.len(), 2);
    assert_eq!(p.pos_entries[1].hash, hash(901));
    assert_eq!(p.pos_entries[1].height_offset, 3);
    let flags: Vec<u8> = p.blocks.iter().map(|b| b.flags).collect();
    assert_eq!(
        flags,
        vec![
            0,
            FLAG_SKIPPED_EXECUTION | FLAG_ZERO_TOTAL_REWARD,
            FLAG_PIVOT | FLAG_ESPACE,
            FLAG_PIVOT | FLAG_ZERO_TOTAL_REWARD,
        ]
    );
    assert_eq!(p.blocks[2].finalized_epoch, 50);
    assert_eq!(p.blocks[3].finalized_epoch, 0);
    assert_eq!(p.blocks[2].pos_view, Some(40));
    assert_eq!(p.blocks[0].pos_view, None);
    assert_eq!(p.blocks[2].base_price_core, U256::from_u64(20));
    assert_eq!(p.blocks[0].base_price_core, U256::zero());
    assert_eq!(p.blocks[2].unlock_events.len(), 1);
    assert_eq!(p.blocks[3].unlock_events.len(), 0);
    assert_eq!(p.blocks[3].pos_rewards.len(), 1);
    assert_eq!(p.blocks[2].pos_rewards.len(), 0);
    assert_eq!(p.blocks[3].index, 3);

    let bytes = encode_packet(&p).unwrap();
    let report = verify_packet(&bytes).unwrap();
    assert_eq!((report.block_count, report.transaction_items), (4, 3));
    let back = decode_packet_ext(&bytes, 110).unwrap();
    assert_eq!(back.blocks[2].pos_view, Some(40));
    assert_eq!(encode_packet(&back).unwrap(), bytes);
    assert_eq!(build_address_table(&collected().blocks), order);
    assert_eq!(build_difficulty_table(&collected().blocks).len(), 2);
    assert_eq!(build_gas_price_table(&collected().blocks).len(), 1);
}

#[test]
fn extracted_packets_are_reported() {
    let config = ExtractConfig {
        start_epoch: 110,
        epoch_count: 2,
        chain: chain(),
        ..ExtractConfig::default()
    };
    let none: ByteMap<PosRewardEntry> = ByteMap::new();
    let (bytes, report) =
        extract_packet(&config, &boundary(), collected(), &none, &Vec::new()).unwrap();
    assert_eq!((report.start_epoch, report.epoch_count), (110, 2));
    assert_eq!((report.block_count, report.transaction_count), (4, 3));
    assert_eq!(report.packet_bytes, bytes.len());
    assert_eq!(decode_packet_ext(&bytes, 110).unwrap().blocks.len(), 4);
    let empty = extract_packet(&config, &boundary(), BlockCollector::new(), &none, &Vec::new());
    assert_eq!(empty.map(|r| r.0).unwrap_err(), PacketError::Packet(PackError::NoBlocks));
    let mut lost = collected();
    lost.pos_blocks.remove(hash(901).as_bytes());
    let failed = extract_packet(&config, &boundary(), lost, &none, &Vec::new());
    assert_eq!(
        failed.map(|r| r.0).unwrap_err(),
        PacketError::Extract(ExtractError::MissingCommitted)
    );
}

#[test]
fn pos_lookup_errors() {
    let c = chain();
    let epoch = EpochBlocks { number: 110, executed: vec![hash(50)], skipped: Vec::new() };
    let mut h = header(110, 2);
    h.pos_reference = Some(hash(900));
    let fails = |views: &[u64]| {
        let mut all = BlockCollector::new();
        for (i, view) in views.iter().enumerate() {
            h_with(&mut all, &c, &epoch, h, 900 + i as u64, *view);
        }
        let none: ByteMap<PosRewardEntry> = ByteMap::new();
        build_packet(&c, &boundary(), all, &none, &Vec::new()).map(|p| p.pos_entries.len())
    };
    assert_eq!(fails(&[5, 70_000]), Err(ExtractError::PosOffsetTooLarge));
    assert_eq!(fails(&[5, 65_540]), Ok(2));

    // A later PoS block with another view for the same reference lies below the least.
    let mut all = BlockCollector::new();
    h_with(&mut all, &c, &epoch, h, 900, 9);
    all.min_pos_height = 9;
    all.pos_blocks.remove(hash(900).as_bytes());
    let none: ByteMap<PosRewardEntry> = ByteMap::new();
    assert_eq!(
        build_packet(&c, &boundary(), all, &none, &Vec::new()).map(|p| p.blocks.len()),
        Err(ExtractError::MissingCommitted)
    );
}

fn h_with(
    all: &mut BlockCollector,
    c: &ChainParams,
    epoch: &EpochBlocks,
    mut h: Header,
    reference: u64,
    view: u64,
) {
    h.pos_reference = Some(hash(reference));
    let committed = CommittedBlock { view, version: 1, pivot_height: 1 };
    all.add_block(c, epoch, hash(50), h, Vec::new(), None, Some(committed)).unwrap();
}

#[test]
fn base_nonces_are_kept_where_they_save() {
    let c = chain();
    let epoch = EpochBlocks { number: 110, executed: vec![hash(50)], skipped: Vec::new() };
    let mut all = BlockCollector::new();
    // Each nonce above a billion takes five bytes, and one byte above the base.
    let txs: Vec<SignedTransaction> = (0..4).map(|i| tx(3, 4, 1_000_000_000 + i)).collect();
    all.add_block(&c, &epoch, hash(50), header(108, 1), txs, paid(), None).unwrap();
    let addresses = build_address_table(&all.blocks);
    let table = build_sender_base_nonce_table(&all.blocks, &addresses);
    assert_eq!(addresses[0], addr(3));
    assert_eq!(table, vec![SenderBaseNonce { sender_index: 0, base_nonce: 1_000_000_000 }]);

    let mut fewer = BlockCollector::new();
    let txs: Vec<SignedTransaction> = (0..3).map(|i| tx(3, 4, 1_000_000_000 + i)).collect();
    fewer.add_block(&c, &epoch, hash(50), header(108, 1), txs, paid(), None).unwrap();
    let addresses = build_address_table(&fewer.blocks);
    assert_eq!(build_sender_base_nonce_table(&fewer.blocks, &addresses), Vec::new());
}

#[test]
fn unlock_events_are_read_between_versions() {
    let mut known: ByteMap<CommittedBlock> = ByteMap::new();
    for (h, version) in [(1u64, 10u64), (2, 20), (3, 30)] {
        known.insert(
            hash(h).as_bytes().to_vec(),
            CommittedBlock { view: 0, version, pivot_height: 0 },
        );
    }
    let pivot = |epoch: u64, r: Option<u64>| PivotRef { epoch, pos_ref: r.map(hash) };
    let pivots = vec![
        pivot(100, Some(1)),
        pivot(101, Some(2)),
        pivot(102, Some(2)),
        pivot(103, None),
        pivot(104, Some(2)),
        pivot(105, Some(9)),
        pivot(106, Some(3)),
        pivot(107, Some(1)),
    ];
    let scan = |epoch, from_version, to_version| UnlockScan { epoch, from_version, to_version };
    assert_eq!(
        unlock_scans(Some((hash(77), 5)), &pivots, &known),
        vec![scan(100, 5, 10), scan(101, 10, 20), scan(104, 20, 20), scan(107, 30, 10)]
    );
    assert_eq!(
        unlock_scans(None, &pivots, &known)[0],
        scan(101, 10, 20)
    );
    assert_eq!(unlock_scans(Some((hash(1), 5)), &pivots[..1].to_vec(), &known), Vec::new());
}

fn one_packet(height: u64) -> Vec<u8> {
    let c = chain();
    let epoch = EpochBlocks {
        number: height,
        executed: vec![hash(height), hash(height + 1)],
        skipped: Vec::new(),
    };
    let mut all = BlockCollector::new();
    all.add_block(&c, &epoch, hash(height), header(height, 1), Vec::new(), paid(), None).unwrap();
    all.add_block(&c, &epoch, hash(height + 1), header(height, 1), vec![tx(3, 4, 1)], paid(), None)
        .unwrap();
    let none: ByteMap<PosRewardEntry> = ByteMap::new();
    let p = build_packet(&c, &boundary(), all, &none, &Vec::new()).unwrap();
    encode_packet(&p).unwrap()
}

#[test]
fn zero_reward_flags_are_patched_in_place() {
    let groups = vec![
        Group { start_epoch: 10, epoch_count: 1, bytes: one_packet(10) },
        Group { start_epoch: 20, epoch_count: 1, bytes: one_packet(20) },
    ];
    let data = write_container(&groups, 1).unwrap();
    let sites = find_flag_sites(&data).unwrap();
    let hashes: Vec<H256> = sites.iter().map(|s| s.1).collect();
    assert_eq!(hashes, vec![hash(10), hash(11), hash(20), hash(21)]);

    let mut patched = data.clone();
    let zero = vec![false, true, false, true];
    assert_eq!(apply_zero_flags(&mut patched, &sites, &zero), (2, true));
    assert_eq!(patched.len(), data.len());
    let changed: Vec<usize> = (0..data.len()).filter(|i| data[*i] != patched[*i]).collect();
    assert_eq!(changed, vec![sites[1].0, sites[3].0]);
    let mut again = patched.clone();
    assert_eq!(apply_zero_flags(&mut again, &sites, &zero), (2, false));
    assert_eq!(again, patched);

    // The same bytes as those of packets whose blocks have the flag from the start.
    let entries = parse_directory(&patched).unwrap();
    for ((_, _, offset, length), start) in entries.iter().zip([10u64, 20]) {
        let mut p = decode_packet(&one_packet(start)).unwrap();
        p.blocks[1].flags |= FLAG_ZERO_TOTAL_REWARD;
        assert_eq!(encode_packet(&p).unwrap(), &patched[*offset..offset + length]);
    }

    assert_eq!(find_flag_sites(b"short").unwrap_err(), PackError::NotContainer);
}

/// Patches the files as a run does, and gives its summary.
fn flag_run(files: &mut [(String, Vec<u8>)], dry_run: bool) -> FlagPatchSummary {
    let mut summary = FlagPatchSummary::default();
    for (name, file) in files.iter_mut() {
        let mut data = file.clone();
        let sites = find_flag_sites(&data).unwrap();
        // The blocks with odd hashes have no reward.
        let zero: Vec<bool> = sites
            .iter()
            .map(|s| {
                let found = if s.1 .0[31] % 2 == 1 { None } else { paid() };
                total_reward_is_zero(&found)
            })
            .collect();
        let done = summary.patch_file(name.clone(), &mut data, &sites, &zero, dry_run).unwrap();
        assert_eq!(done.changed, &data != file);
        assert_eq!(done.write, done.changed && !dry_run);
        if done.write {
            *file = data;
        }
    }
    summary.sort_changed();
    summary
}

#[test]
fn flag_runs_agree() {
    let one = |start: u64| {
        let group = Group { start_epoch: start, epoch_count: 1, bytes: one_packet(start) };
        write_container(&vec![group], 1).unwrap()
    };
    let first: Vec<(String, Vec<u8>)> = vec![
        ("epochs_9_9".to_string(), one(9)),
        ("epochs_10_10".to_string(), one(10)),
        ("epochs_".to_string(), write_container(&Vec::new(), 1).unwrap()),
    ];
    let mut files = first.clone();
    let dry = flag_run(&mut files, true);
    assert_eq!(files, first);
    let wet = flag_run(&mut files, false);
    assert_ne!(files, first);
    assert_eq!((dry.files_scanned, dry.files_changed), (3, 2));
    assert_eq!((dry.blocks_total, dry.blocks_flagged, dry.bytes_rewritten), (4, 2, 0));
    assert_eq!((wet.files_scanned, wet.files_changed), (3, 2));
    assert_eq!((wet.blocks_total, wet.blocks_flagged), (4, 2));
    assert_eq!(wet.bytes_rewritten, (first[0].1.len() + first[1].1.len()) as u64);
    assert_eq!(dry.changed_files, wet.changed_files);
    assert_eq!(wet.changed_files, vec!["epochs_10_10".to_string(), "epochs_9_9".to_string()]);

    let patched = files.clone();
    let again = flag_run(&mut files, false);
    assert_eq!(files, patched);
    assert_eq!((again.files_changed, again.bytes_rewritten), (0, 0));
    assert_eq!(again.blocks_flagged, wet.blocks_flagged);
    assert!(again.changed_files.is_empty());

    // What a run cannot count is refused.
    let mut full = FlagPatchSummary { blocks_total: u64::MAX, ..FlagPatchSummary::default() };
    let mut data = one(9);
    let sites = find_flag_sites(&data).unwrap();
    let zero = vec![false; sites.len()];
    let refused = full.patch_file("x".to_string(), &mut data, &sites, &zero, true);
    assert_eq!(refused.unwrap_err(), PackError::ValueTooLarge);
    assert!(total_reward_is_zero(&Some(BlockReward::default())));
}

#[test]
fn flag_sites_hold_the_flags() {
    let data = one_packet(30);
    let read = decode_packet(&data).unwrap();
    let sites = block_flag_sites(&data).unwrap();
    assert_eq!(sites.len(), read.blocks.len());
    for (site, block) in sites.iter().zip(&read.blocks) {
        assert_eq!(site.1, block.hash);
        assert_eq!(data[site.0], block.flags);
    }
    assert_eq!(sites[1].0 - sites[0].0, data[92] as usize);
}

#[test]
fn rewards_are_added_to_containers() {
    assert_eq!(POS_REFERENCE_HEIGHT, 37_400_000);
    let groups = vec![
        Group { start_epoch: 10, epoch_count: 1, bytes: one_packet(10) },
        Group { start_epoch: 20, epoch_count: 1, bytes: one_packet(20) },
    ];
    let data = write_container(&groups, 1).unwrap();
    let reward = PosRewardEntry {
        account_rewards: vec![PosRewardAccount {
            address: addr(1),
            pos_identifier: hash(2),
            reward: U256::from_u64(3),
        }],
        execution_epoch_hash: hash(0),
    };
    let (out, modified) = inject_reward(&data, 20, &reward).unwrap();
    assert!(modified);
    let before = parse_directory(&data).unwrap();
    let after = parse_directory(&out).unwrap();
    assert_eq!(after.len(), 2);
    assert_eq!(after[0], before[0]);
    assert_eq!((after[1].0, after[1].1), (before[1].0, before[1].1));
    assert_eq!(&out[after[0].2..after[0].2 + after[0].3], &groups[0].bytes[..]);
    let p = decode_packet(&out[after[1].2..after[1].2 + after[1].3]).unwrap();
    assert_eq!(p.blocks[1].pos_rewards.len(), 1);
    assert_eq!(p.blocks[1].pos_rewards[0].execution_epoch_hash, hash(21));
    assert_eq!(p.blocks[1].pos_rewards[0].account_rewards[0].reward, U256::from_u64(3));
    assert_eq!(p.blocks[0].pos_rewards.len(), 0);

    let (same, modified) = inject_reward(&data, 30, &reward).unwrap();
    assert!(!modified);
    assert_eq!(same, data);
    assert_eq!(inject_reward(&data[..10], 1, &reward).unwrap_err(), PackError::NotContainer);
}

fn out(group_index: u64, bytes: usize) -> PacketOut {
    PacketOut {
        group_index,
        start_epoch: 1 + group_index * 10,
        epoch_count: 10,
        block_count: 3,
        transaction_count: 2,
        bytes: vec![group_index as u8; bytes],
    }
}

#[test]
fn containers_hold_groups_in_order() {
    let in_order = {
        let mut w = PackWriter::new("epochs", 10, 100);
        let mut files = Vec::new();
        for i in 0..5 {
            files.extend(w.accept(out(i, 60)).unwrap());
        }
        let (last, summary) = w.finish().unwrap();
        files.extend(last);
        (files, summary)
    };
    let names: Vec<&str> = in_order.0.iter().map(|f| f.name.as_str()).collect();
    assert_eq!(
        names,
        vec!["epochs_1_20.cfxpack", "epochs_21_40.cfxpack", "epochs_41_50.cfxpack"]
    );
    let s = &in_order.1;
    assert_eq!((s.file_count, s.group_count, s.epoch_count), (3, 5, 50));
    assert_eq!((s.block_count, s.transaction_count), (15, 10));
    assert_eq!(s.total_bytes, in_order.0.iter().map(|f| f.bytes.len() as u64).sum::<u64>());
    assert_eq!(s.files, names);
    let entries = parse_directory(&in_order.0[1].bytes).unwrap();
    assert_eq!((entries[0].0, entries[1].0), (21, 31));

    let mut w = PackWriter::new("epochs", 10, 100);
    let mut files = Vec::new();
    for i in [3, 1, 0, 4, 2] {
        files.extend(w.accept(out(i, 60)).unwrap());
    }
    files.extend(w.finish().unwrap().0);
    assert_eq!(files.len(), 3);
    for (a, b) in files.iter().zip(in_order.0.iter()) {
        assert_eq!(a.name, b.name);
        assert_eq!(a.bytes, b.bytes);
    }
    let (none, empty) = PackWriter::new("x", 1, 1).finish().unwrap();
    assert!(none.is_none());
    assert_eq!(empty.file_count, 0);
}

#[test]
fn progress_and_totals() {
    let mut p = ProgressState::new(3, 2);
    let active = ActiveShard { start_epoch: 1, end_epoch: 10 };
    p.apply(ProgressEvent::Start { worker_id: 0, active });
    p.apply(ProgressEvent::Start { worker_id: 1, active });
    assert_eq!(p.active_count(), 2);
    p.apply(ProgressEvent::Done { worker_id: 0 });
    p.apply(ProgressEvent::Failed { worker_id: 1 });
    assert_eq!((p.total, p.completed, p.failed, p.active_count()), (3, 1, 1, 0));

    let report = |blocks, ms| ExtractReport {
        start_epoch: 1,
        epoch_count: 1,
        block_count: blocks,
        transaction_count: 2,
        packet_bytes: 100,
        output: String::new(),
        timing: ExtractTiming { encode_ms: ms, ..ExtractTiming::default() },
    };
    let t = ShardTotals::of(&vec![report(3, 10), report(4, 15)]);
    assert_eq!((t.blocks, t.transactions, t.bytes), (7, 4, 200));
    assert_eq!(t.timing.encode_ms, 25);
    assert_eq!(t.average(2).encode_ms, 12);
    assert_eq!(t.average(2).write_ms, 0);

    let packet = one_packet(10);
    assert_eq!(count_packet(&packet), Ok((2, 1)));
    assert_eq!(count_packet(&packet[..10]), Err(PackError::ShortHeader));
    let mut b = DecodeBenchReport {
        jobs: 1,
        packet_count: 0,
        total_epochs: 0,
        total_bytes: 0,
        total_blocks: 0,
        total_transactions: 0,
        load_ms: 0,
        decode_ms: 0,
    };
    b.add_packet(2000, packet.len());
    b.add_counts(2, 1);
    assert_eq!((b.packet_count, b.total_epochs, b.total_blocks), (1, 2000, 2));
    assert_eq!((b.total_bytes, b.total_transactions), (packet.len(), 1));
}

#[test]
fn database_keys_and_values() {
    assert_eq!(
        epoch_key(0x0102, EPOCH_EXECUTED_BLOCK_SET_SUFFIX),
        vec![2, 1, 0, 0, 0, 0, 0, 0, 6]
    );
    assert_eq!(block_key(&hash(1), None), hash(1).as_bytes().to_vec());
    assert_eq!(block_key(&hash(1), Some(BLOCK_REWARD_RESULT_SUFFIX))[32], 8);
    assert_eq!(pos_reward_key(0x0102), vec![0, 0, 0, 0, 0, 0, 1, 2]);

    let mut s = rlp::RlpStream::new_list(2);
    s.append(&hash(4).as_bytes().to_vec());
    s.append(&hash(5).as_bytes().to_vec());
    assert_eq!(parse_epoch_hashes(&s.out()).unwrap(), vec![hash(4), hash(5)]);
    let mut s = rlp::RlpStream::new_list(1);
    s.append(&vec![1u8, 2]);
    assert_eq!(parse_epoch_hashes(&s.out()).unwrap_err(), PackError::Rlp);

    let mut s = rlp::RlpStream::new_list(1);
    s.append(&77u64);
    assert_eq!(parse_start_block_number(&s.out()).unwrap(), 77);
    assert_eq!(parse_start_block_number(&[0x80]).unwrap_err(), PackError::Rlp);

    let mut fields = rlp::RlpStream::new_list(3);
    fields.append(&1000u64);
    fields.append(&600u64);
    fields.append(&400u64);
    let fields = fields.out();
    let mut s = rlp::RlpStream::new_list(2);
    s.append(&hash(9).as_bytes().to_vec());
    s.append_raw(&fields, 1);
    let reward = parse_block_reward(&s.out()).unwrap();
    assert_eq!(reward.total_reward, U256::from_u64(1000));
    assert_eq!(reward.base_reward, U256::from_u64(600));
    let mut s = rlp::RlpStream::new_list(1);
    s.append(&1u8);
    assert_eq!(parse_block_reward(&s.out()).unwrap_err(), PackError::Rlp);

    let mut account = rlp::RlpStream::new_list(3);
    account.append(&addr(1).0.to_vec());
    account.append(&hash(2).as_bytes().to_vec());
    account.append(&5u64);
    let account = account.out();
    let mut accounts = rlp::RlpStream::new_list(1);
    accounts.append_raw(&account, 1);
    let accounts = accounts.out();
    let mut s = rlp::RlpStream::new_list(2);
    s.append_raw(&accounts, 1);
    s.append(&hash(3).as_bytes().to_vec());
    let stored = s.out();
    let entry = parse_pos_reward(&stored).unwrap();
    assert_eq!(entry.execution_epoch_hash, hash(3));
    assert_eq!(entry.account_rewards.len(), 1);
    assert_eq!(entry.account_rewards[0].reward, U256::from_u64(5));
    assert_eq!(entry.account_rewards[0].address, addr(1));
    let as_is = parse_stored_reward(&stored).unwrap();
    assert_eq!(as_is.execution_epoch_hash, hash(3).0.to_vec());
    assert_eq!(as_is.shares[0].address, addr(1).0.to_vec());
    assert_eq!(as_is.shares[0].reward, U256::from_u64(5));
}

#[test]
fn pivots_are_picked_by_their_flag() {
    let mut all = BlockCollector::new();
    let epoch = EpochBlocks { number: 7, executed: vec![hash(1), hash(2)], skipped: vec![hash(3)] };
    for (h, height) in [(3u64, 6u64), (1, 6), (2, 7)] {
        all.add_block(&chain(), &epoch, hash(h), header(height, 1), Vec::new(), paid(), None)
            .unwrap();
    }
    assert_eq!(pivot_hashes(&all.blocks), vec![hash(2)]);
}

#[test]
fn stored_values_end_with_their_payload() {
    // A list of one item, and another list behind it.
    let value = [0xc1, 0x01, 0xc2, 0x05, 0x07];
    assert_eq!(parse_block_reward(&value).unwrap_err(), PackError::Rlp);
    assert_eq!(parse_epoch_hash(&value).unwrap_err(), PackError::Rlp);
    assert_eq!(parse_pos_reward(&value).unwrap_err(), PackError::Rlp);
    assert_eq!(parse_start_block_number(&value).unwrap(), 1);
    // With the second list inside, it is the reward.
    let reward = parse_block_reward(&[0xc4, 0x01, 0xc2, 0x05, 0x07]).unwrap();
    assert_eq!(reward.total_reward, U256::from_u64(5));
    assert_eq!(reward.base_reward, U256::from_u64(7));
}

#[test]
fn stored_rewards_are_told_as_they_stand() {
    // [[[0102, 03, 04]], 05]
    let value = [0xc8, 0xc6, 0xc5, 0x82, 0x01, 0x02, 0x03, 0x04, 0x05];
    assert_eq!(parse_pos_reward(&value).unwrap_err(), PackError::HashLength);
    assert_eq!(parse_epoch_hash(&value).unwrap(), vec![5]);
    let as_is = parse_stored_reward(&value).unwrap();
    let text = reward_json(9, &as_is);
    assert!(text.contains("\"execution_epoch_hash\": \"0x05\",\n"));
    assert!(text.contains(
        "{\"address\": \"0x0102\", \"pos_identifier\": \"0x03\", \"reward\": \"4\"}\n"
    ));
    let long = [&[0xe4, 0xe2, 0xe1, 0x01, 0x02][..], &[0xa1][..]].concat();
    assert_eq!(parse_stored_reward(&long).unwrap_err(), PackError::Rlp);
}

#[test]
fn rewards_are_looked_for_in_packets_inside_the_directory() {
    // The packet starts where its own place stands in the directory, so that the first half
    // of its first hash is that place.
    let mut packet = one_packet(30);
    let length = packet.len() as u64;
    packet[0..8].copy_from_slice(&40u64.to_le_bytes());
    packet[8..16].copy_from_slice(&length.to_le_bytes());
    let groups = vec![Group { start_epoch: 30, epoch_count: 1, bytes: Vec::new() }];
    let mut data = write_container(&groups, 1).unwrap();
    data.truncate(40);
    data.extend_from_slice(&packet);
    let reward = PosRewardEntry { account_rewards: Vec::new(), execution_epoch_hash: hash(0) };
    let (out, found) = inject_reward(&data, 31, &reward).unwrap();
    assert!(!found);
    assert_eq!(out, data);
    let (out, found) = inject_reward(&data, 30, &reward).unwrap();
    assert!(found);
    let entries = parse_directory(&out).unwrap();
    assert_eq!(entries[0].2, 40);
}
