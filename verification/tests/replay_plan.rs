use cfx_minimal_execution::cfxpack::decode::decode_packet;
use cfx_minimal_execution::cfxpack::encode::encode_packet;
use cfx_minimal_execution::cfxpack::packet::{
    Action, Block, Packet, SignedTransaction, TxKind, FLAG_ESPACE, FLAG_HAS_TRANSACTIONS,
    FLAG_PIVOT, FLAG_RESERVED, FLAG_ZERO_TOTAL_REWARD,
};
use cfx_minimal_execution::cfxpack::types::{Address, U256};
use cfx_minimal_execution::cfxpack::verify::verify_packet;
use cfx_minimal_execution::types::H256;
use cfx_minimal_execution::validate::{
    validate_replay_input, validate_replay_packet, ReplayError,
};

fn block(index: usize, height: u64, author: Address, flags: u8) -> Block {
    Block {
        epoch: 45,
        index,
        hash: H256::from_low_u64_be(11 + index as u64),
        deferred_state_root: H256::from_low_u64_be(12),
        deferred_receipts_root: H256::from_low_u64_be(13),
        deferred_logs_bloom_hash: H256::from_low_u64_be(14),
        flags,
        author,
        timestamp: 1_700_000_000,
        difficulty: U256::from_u64(1000),
        gas_limit: U256::from_u64(30_000_000),
        base_price_core: U256::zero(),
        base_price_espace: U256::zero(),
        height,
        blame: 0,
        finalized_epoch: 0,
        base_reward: U256::from_u64(1),
        transactions: Vec::new(),
        transaction_refs: Vec::new(),
        pos_rewards: Vec::new(),
        unlock_events: Vec::new(),
        pos_view: None,
    }
}

fn native_tx(sender: Address, receiver: Address) -> SignedTransaction {
    SignedTransaction {
        identity: H256::from_low_u64_be(0x77),
        sender,
        kind: TxKind::Cip155,
        nonce: U256::from_u64(7),
        gas_price: U256::from_u64(1_000_000_000u64),
        max_priority_gas_price: U256::from_u64(1_000_000_000u64),
        gas: U256::from_u64(21_000),
        action: Action::Call(receiver),
        value: U256::from_u64(42),
        storage_limit: 0,
        epoch_height: 1000,
        data: Vec::new(),
        access_list: Vec::new(),
        authorization_list: Vec::new(),
    }
}

#[test]
fn replay_plan_counts_minimal_blocks() {
    let author = Address::from_low_u64_be(1);
    let raw = Packet {
        prev_last_hash: H256::from_low_u64_be(9),
        prev_last_deferred_state_root: H256::from_low_u64_be(10),
        first_block_number: 100,
        min_timestamp: 1_700_000_000,
        min_height: 42,
        min_pos_height: 0,
        addresses: vec![author],
        pos_entries: Vec::new(),
        difficulties: vec![U256::from_u64(1000)],
        sender_base_nonces: Vec::new(),
        gas_prices: Vec::new(),
        blocks: vec![
            block(0, 42, author, 0),
            block(1, 45, author, FLAG_PIVOT | FLAG_ESPACE),
        ],
    };

    let packet = encode_packet(&raw).expect("encode raw packet");
    let replay = validate_replay_packet(&packet).expect("validate replay plan");
    assert_eq!(replay.epoch_count, 1);
    assert_eq!(replay.block_count, 2);
    assert_eq!(replay.transaction_count, 0);
    assert_eq!(replay.first_block_number, 100);
    assert_eq!(replay.last_block_number, 101);
    assert_eq!(replay.packet_bytes, packet.len());
}

fn tx_packet() -> Packet {
    let author = Address::from_low_u64_be(1);
    let sender = Address::from_low_u64_be(2);
    let receiver = Address::from_low_u64_be(3);
    let tx = native_tx(sender, receiver);

    let mut pivot = block(0, 1000, author, FLAG_PIVOT);
    pivot.epoch = 1000;
    pivot.base_price_core = U256::from_u64(1_000_000_000u64);
    pivot.transactions = vec![tx];

    Packet {
        prev_last_hash: H256::from_low_u64_be(9),
        prev_last_deferred_state_root: H256::from_low_u64_be(10),
        first_block_number: 1000,
        min_timestamp: 1_700_000_000,
        min_height: 1000,
        min_pos_height: 0,
        addresses: vec![author, sender, receiver],
        pos_entries: Vec::new(),
        difficulties: vec![U256::from_u64(1000)],
        sender_base_nonces: Vec::new(),
        gas_prices: vec![U256::from_u64(1_000_000_000u64)],
        blocks: vec![pivot],
    }
}

#[test]
fn replay_plan_counts_native_transaction() {
    let raw = tx_packet();
    let packet = encode_packet(&raw).expect("encode tx packet");
    let replay = validate_replay_packet(&packet).expect("validate tx replay plan");
    assert_eq!(replay.epoch_count, 1);
    assert_eq!(replay.transaction_count, 1);
    assert_eq!(replay.native_transaction_count, 1);
    assert_eq!(replay.espace_transaction_count, 0);
}

#[test]
fn replay_plan_counts_duplicates_and_espace() {
    let mut raw = tx_packet();
    let author = raw.addresses[0];
    let sender = raw.addresses[1];
    let receiver = raw.addresses[2];
    let mut other = native_tx(sender, receiver);
    other.kind = TxKind::Eip1559;
    other.identity = H256::from_low_u64_be(0x78);
    let mut next = block(1, 1001, author, FLAG_PIVOT);
    next.epoch = 1001;
    next.transactions = vec![other, native_tx(sender, receiver)];
    raw.blocks.push(next);
    let packet = encode_packet(&raw).unwrap();
    let replay = validate_replay_packet(&packet).unwrap();
    assert_eq!(replay.epoch_count, 2);
    assert_eq!(replay.transaction_count, 3);
    assert_eq!(replay.native_transaction_count, 2);
    assert_eq!(replay.espace_transaction_count, 1);
    assert_eq!(replay.duplicate_transaction_count, 1);
    let report = verify_packet(&packet).unwrap();
    assert_eq!(report.block_count as usize, replay.block_count);
    assert_eq!(report.transaction_items as usize, replay.transaction_count);
}

#[test]
fn replay_plan_names_what_is_wrong() {
    let bytes = encode_packet(&tx_packet()).unwrap();
    let report = verify_packet(&bytes).unwrap();
    let fresh = || decode_packet(&bytes).unwrap();
    let fails = |p: &Packet| validate_replay_input(p, &report).unwrap_err();

    let mut p = fresh();
    p.blocks.clear();
    assert_eq!(fails(&p), ReplayError::NoBlocks);
    let mut p = fresh();
    let extra = block(1, 45, p.addresses[0], FLAG_PIVOT);
    p.blocks.push(extra);
    assert_eq!(fails(&p), ReplayError::BlockCount);
    let mut p = fresh();
    p.blocks[0].flags = FLAG_HAS_TRANSACTIONS;
    assert_eq!(fails(&p), ReplayError::NoPivot);
    let mut p = fresh();
    p.blocks[0].epoch = 5;
    assert_eq!(fails(&p), ReplayError::PivotEpoch);
    let mut p = fresh();
    p.blocks[0].index = 5;
    assert_eq!(fails(&p), ReplayError::BlockIndex);
    let mut p = fresh();
    p.blocks[0].flags |= FLAG_RESERVED;
    assert_eq!(fails(&p), ReplayError::ReservedFlag);
    let mut p = fresh();
    p.blocks[0].flags = FLAG_PIVOT;
    assert_eq!(fails(&p), ReplayError::TransactionFlag);
    let mut p = fresh();
    p.first_block_number = u64::MAX;
    assert_eq!(fails(&p), ReplayError::BlockNumberRange);
    let mut p = fresh();
    p.blocks[0].transactions.clear();
    assert_eq!(fails(&p), ReplayError::TransactionCount);
    // A block of another epoch before the pivot.
    let mut two = fresh();
    let mut early = block(0, 999, two.addresses[0], 0);
    early.epoch = 999;
    two.blocks.insert(0, early);
    two.blocks[1].index = 1;
    let mut counts = report;
    counts.block_count = 2;
    assert_eq!(validate_replay_input(&two, &counts).unwrap_err(), ReplayError::BlockEpoch);

    // The flag for a total reward of zero is in order.
    let mut p = fresh();
    p.blocks[0].flags |= FLAG_ZERO_TOTAL_REWARD;
    assert!(validate_replay_input(&p, &report).is_ok());
}
