use cfx_minimal_execution::cfxpack::decode::{block_flag_sites, decode_packet, decode_packet_ext};
use cfx_minimal_execution::cfxpack::encode::encode_packet;
use cfx_minimal_execution::cfxpack::error::PackError;
use cfx_minimal_execution::cfxpack::packet::{
    AccessListItem, Action, AuthorizationListItem, Block, Packet, PosRewardAccount, PosRewardEntry,
    SenderBaseNonce, SignedTransaction, TxKind, UnlockEntry, FLAG_ADAPTIVE, FLAG_ESPACE,
    FLAG_HAS_TRANSACTIONS, FLAG_PIVOT, FLAG_RESERVED, FLAG_TX_COMPRESSED,
};
use cfx_minimal_execution::cfxpack::types::{Address, U256};
use cfx_minimal_execution::cfxpack::verify::verify_packet;
use cfx_minimal_execution::raw::{encode_raw_data, first_diff, roundtrip_packet, RoundtripError};
use cfx_minimal_execution::types::H256;

fn native_tx(sender: Address, receiver: Address, nonce: u64) -> SignedTransaction {
    let mut tx = SignedTransaction {
        identity: H256::zero(),
        sender,
        kind: TxKind::Cip155,
        nonce: U256::from_u64(nonce),
        gas_price: U256::from_u64(1_000_000_000),
        max_priority_gas_price: U256::from_u64(1_000_000_000),
        gas: U256::from_u64(21_000),
        action: Action::Call(receiver),
        value: U256::from_u64(42),
        storage_limit: 0,
        epoch_height: 900,
        data: Vec::new(),
        access_list: Vec::new(),
        authorization_list: Vec::new(),
    };
    tx.identity = H256::from_low_u64_be(0x1000 + nonce);
    tx
}

fn block(epoch: u64, index: usize, flags: u8, author: Address) -> Block {
    Block {
        epoch,
        index,
        hash: H256::from_low_u64_be(11 + index as u64),
        deferred_state_root: H256::from_low_u64_be(12),
        deferred_receipts_root: H256::from_low_u64_be(13),
        deferred_logs_bloom_hash: H256::from_low_u64_be(14),
        flags,
        author,
        timestamp: 1_700_000_000,
        difficulty: U256::from_u64(1000),
        gas_limit: U256::from_u64(30_000_000),
        base_price_core: U256::zero(),
        base_price_espace: U256::zero(),
        height: epoch,
        blame: 0,
        finalized_epoch: 0,
        base_reward: U256::from_u64(1),
        transactions: Vec::new(),
        transaction_refs: Vec::new(),
        pos_rewards: Vec::new(),
        unlock_events: Vec::new(),
        pos_view: None,
    }
}

fn packet(first: u64, min_height: u64, addresses: Vec<Address>, blocks: Vec<Block>) -> Packet {
    Packet {
        prev_last_hash: H256::from_low_u64_be(9),
        prev_last_deferred_state_root: H256::from_low_u64_be(10),
        first_block_number: first,
        min_timestamp: 1_700_000_000,
        min_height,
        min_pos_height: 0,
        addresses,
        pos_entries: Vec::new(),
        difficulties: vec![U256::from_u64(1000)],
        sender_base_nonces: Vec::new(),
        gas_prices: Vec::new(),
        blocks,
    }
}

#[test]
fn raw_to_packet_roundtrip_minimal_blocks() {
    let author = Address::from_low_u64_be(1);
    let raw = Packet {
        prev_last_hash: H256::from_low_u64_be(9),
        prev_last_deferred_state_root: H256::from_low_u64_be(10),
        first_block_number: 100,
        min_timestamp: 1_700_000_000,
        min_height: 42,
        min_pos_height: 0,
        addresses: vec![author],
        pos_entries: Vec::new(),
        difficulties: vec![U256::from_u64(1000)],
        sender_base_nonces: Vec::new(),
        gas_prices: Vec::new(),
        blocks: vec![
            Block {
                epoch: 45,
                index: 0,
                hash: H256::from_low_u64_be(11),
                deferred_state_root: H256::from_low_u64_be(12),
                deferred_receipts_root: H256::from_low_u64_be(13),
                deferred_logs_bloom_hash: H256::from_low_u64_be(14),
                flags: FLAG_ADAPTIVE,
                author,
                timestamp: 1_700_000_000,
                difficulty: U256::from_u64(1000),
                gas_limit: U256::from_u64(30_000_000),
                base_price_core: U256::zero(),
                base_price_espace: U256::zero(),
                height: 42,
                blame: 0,
                finalized_epoch: 0,
                base_reward: U256::from_u64(1),
                transactions: Vec::new(),
                transaction_refs: Vec::new(),
                pos_rewards: Vec::new(),
                unlock_events: Vec::new(),
                pos_view: None,
            },
            Block {
                epoch: 45,
                index: 1,
                hash: H256::from_low_u64_be(15),
                deferred_state_root: H256::from_low_u64_be(16),
                deferred_receipts_root: H256::from_low_u64_be(17),
                deferred_logs_bloom_hash: H256::from_low_u64_be(18),
                flags: FLAG_PIVOT | FLAG_ESPACE,
                author,
                timestamp: 1_700_000_005,
                difficulty: U256::from_u64(1000),
                gas_limit: U256::from_u64(60_000_000),
                base_price_core: U256::from_u64(1_000_000_000),
                base_price_espace: U256::from_u64(20_000_000_000u64),
                height: 45,
                blame: 1,
                finalized_epoch: 5,
                base_reward: U256::from_u64(2),
                transactions: Vec::new(),
                transaction_refs: Vec::new(),
                pos_rewards: Vec::new(),
                unlock_events: Vec::new(),
                pos_view: Some(7),
            },
        ],
    };

    let pos_h = 45;
    let packet = encode_packet(&raw).expect("encode raw packet");
    let report = verify_packet(&packet).expect("verify packet");
    assert_eq!(report.block_count, 2);
    assert_eq!(report.transaction_blocks, 0);
    assert_eq!(report.first_block_number, 100);
    assert!(matches!(report.block_prefix_size, 64 | 72 | 80 | 88 | 96));

    let decoded = decode_packet_ext(&packet, pos_h).expect("decode packet");
    assert_eq!(decoded.blocks[0].height, 42);
    assert_eq!(decoded.blocks[0].epoch, 45);
    assert_eq!(decoded.blocks[0].pos_view, None);
    assert_eq!(decoded.blocks[1].height, 45);
    assert_eq!(decoded.blocks[1].epoch, 45);
    assert_eq!(decoded.blocks[1].pos_view, Some(7));
    let reencoded = encode_packet(&decoded).expect("reencode decoded packet");
    assert_eq!(reencoded, packet);
    let reencoded_report = verify_packet(&reencoded).expect("verify reencoded packet");
    assert_eq!(reencoded_report.block_count, report.block_count);
    assert_eq!(reencoded_report.transaction_items, report.transaction_items);
}

#[test]
fn raw_to_packet_roundtrip_with_transaction_payload() {
    let author = Address::from_low_u64_be(1);
    let sender = Address::from_low_u64_be(2);
    let receiver = Address::from_low_u64_be(3);
    // The epoch height lies below the epoch of the block (1000), so that the offset
    // is negative and its sign must survive.
    let tx = native_tx(sender, receiver, 7);
    assert_eq!(tx.epoch_height, 900);

    let raw = Packet {
        prev_last_hash: H256::from_low_u64_be(9),
        prev_last_deferred_state_root: H256::from_low_u64_be(10),
        first_block_number: 1000,
        min_timestamp: 1_700_000_000,
        min_height: 1000,
        min_pos_height: 0,
        addresses: vec![author, sender, receiver],
        pos_entries: Vec::new(),
        difficulties: vec![U256::from_u64(1000)],
        sender_base_nonces: Vec::new(),
        gas_prices: vec![U256::from_u64(1_000_000_000u64)],
        blocks: vec![Block {
            epoch: 1000,
            index: 0,
            hash: H256::from_low_u64_be(11),
            deferred_state_root: H256::from_low_u64_be(12),
            deferred_receipts_root: H256::from_low_u64_be(13),
            deferred_logs_bloom_hash: H256::from_low_u64_be(14),
            flags: FLAG_PIVOT,
            author,
            timestamp: 1_700_000_000,
            difficulty: U256::from_u64(1000),
            gas_limit: U256::from_u64(30_000_000),
            base_price_core: U256::from_u64(1_000_000_000u64),
            base_price_espace: U256::zero(),
            height: 1000,
            blame: 0,
            finalized_epoch: 0,
            base_reward: U256::from_u64(1),
            transactions: vec![tx],
            transaction_refs: Vec::new(),
            pos_rewards: Vec::new(),
            unlock_events: Vec::new(),
            pos_view: None,
        }],
    };

    let packet = encode_packet(&raw).expect("encode tx packet");
    let report = verify_packet(&packet).expect("verify tx packet");
    assert_eq!(report.block_count, 1);
    assert_eq!(report.transaction_blocks, 1);
    assert_eq!(report.transaction_items, 1);

    let decoded = decode_packet(&packet).expect("decode tx packet");
    assert_eq!(decoded.blocks[0].transactions.len(), 1);
    let native = &decoded.blocks[0].transactions[0];
    if native.kind.native() {
        assert_eq!(native.epoch_height, 900);
    } else {
        panic!("expected native tx");
    }
    let reencoded = encode_packet(&decoded).expect("reencode tx packet");
    assert_eq!(reencoded, packet);
    let reencoded_report = verify_packet(&reencoded).expect("verify reencoded tx packet");
    assert_eq!(reencoded_report.transaction_blocks, 1);
    assert_eq!(reencoded_report.transaction_items, 1);
}

#[test]
fn raw_to_packet_roundtrip_with_unlock_events() {
    let author = Address::from_low_u64_be(1);
    let node_id = H256::from_low_u64_be(0xABCD);
    let raw = Packet {
        prev_last_hash: H256::from_low_u64_be(9),
        prev_last_deferred_state_root: H256::from_low_u64_be(10),
        first_block_number: 100,
        min_timestamp: 1_700_000_000,
        min_height: 42,
        min_pos_height: 0,
        addresses: vec![author],
        pos_entries: Vec::new(),
        difficulties: vec![U256::from_u64(1000)],
        sender_base_nonces: Vec::new(),
        gas_prices: Vec::new(),
        blocks: vec![Block {
            epoch: 42,
            index: 0,
            hash: H256::from_low_u64_be(11),
            deferred_state_root: H256::from_low_u64_be(12),
            deferred_receipts_root: H256::from_low_u64_be(13),
            deferred_logs_bloom_hash: H256::from_low_u64_be(14),
            flags: FLAG_PIVOT,
            author,
            timestamp: 1_700_000_000,
            difficulty: U256::from_u64(1000),
            gas_limit: U256::from_u64(30_000_000),
            base_price_core: U256::zero(),
            base_price_espace: U256::zero(),
            height: 42,
            blame: 0,
            finalized_epoch: 0,
            base_reward: U256::from_u64(1),
            transactions: Vec::new(),
            transaction_refs: Vec::new(),
            pos_rewards: Vec::new(),
            unlock_events: vec![
                UnlockEntry { identifier: node_id, unlocked: 100 },
                UnlockEntry { identifier: H256::from_low_u64_be(0xBEEF), unlocked: 50 },
            ],
            pos_view: None,
        }],
    };

    let packet = encode_packet(&raw).expect("encode unlock packet");
    let report = verify_packet(&packet).expect("verify unlock packet");
    assert_eq!(report.block_count, 1);
    assert_eq!(report.transaction_blocks, 1);

    let decoded = decode_packet(&packet).expect("decode unlock packet");
    assert_eq!(decoded.blocks[0].transactions.len(), 0);
    assert_eq!(decoded.blocks[0].unlock_events.len(), 2);
    assert_eq!(decoded.blocks[0].unlock_events[0].identifier, node_id);
    assert_eq!(decoded.blocks[0].unlock_events[0].unlocked, 100);
    assert_eq!(decoded.blocks[0].unlock_events[1].unlocked, 50);

    let reencoded = encode_packet(&decoded).expect("reencode unlock packet");
    assert_eq!(reencoded, packet);
}

fn all_kinds() -> Vec<TxKind> {
    vec![
        TxKind::Cip155,
        TxKind::Cip2930,
        TxKind::Cip1559,
        TxKind::Eip155,
        TxKind::Eip2930,
        TxKind::Eip1559,
        TxKind::Eip7702,
    ]
}

#[test]
fn every_transaction_type_survives() {
    let author = Address::from_low_u64_be(1);
    let sender = Address::from_low_u64_be(2);
    let receiver = Address::from_low_u64_be(3);
    let mut pivot = block(1000, 0, FLAG_PIVOT, author);
    for (i, kind) in all_kinds().into_iter().enumerate() {
        let mut tx = native_tx(sender, receiver, 500 + i as u64);
        tx.kind = kind;
        tx.gas_price = U256::from_u64(77 + i as u64);
        tx.max_priority_gas_price = U256::from_u64(5);
        tx.data = vec![i as u8; i];
        tx.storage_limit = 64;
        if kind.has_access_list() {
            tx.access_list = vec![AccessListItem {
                address: Address::from_low_u64_be(9),
                storage_keys: vec![H256::from_low_u64_be(8), H256::from_low_u64_be(7)],
            }];
        }
        if kind == TxKind::Eip7702 {
            tx.authorization_list = vec![AuthorizationListItem {
                chain_id: U256::from_u64(1030),
                address: Address::from_low_u64_be(6),
                nonce: 3,
                y_parity: 1,
                r: U256::from_u64(4),
                s: U256::from_u64(5),
            }];
        }
        if kind == TxKind::Eip155 {
            tx.action = Action::Create;
        }
        pivot.transactions.push(tx);
    }
    let mut raw = packet(1, 1000, vec![author, sender, receiver], vec![pivot]);
    raw.sender_base_nonces = vec![SenderBaseNonce { sender_index: 1, base_nonce: 500 }];
    raw.gas_prices = vec![U256::from_u64(78)];

    let bytes = encode_packet(&raw).unwrap();
    let back = decode_packet(&bytes).unwrap();
    let txs = &back.blocks[0].transactions;
    assert_eq!(txs.len(), 7);
    for (i, tx) in txs.iter().enumerate() {
        let was = &raw.blocks[0].transactions[i];
        assert_eq!(tx.kind, was.kind);
        assert_eq!(tx.sender.0, sender.0);
        assert_eq!(tx.nonce.0, U256::from_u64(500 + i as u64).0);
        assert_eq!(tx.gas_price.0, was.gas_price.0);
        assert_eq!(tx.gas.0, was.gas.0);
        assert_eq!(tx.value.0, was.value.0);
        assert_eq!(tx.data, was.data);
        assert_eq!(tx.access_list.len(), was.access_list.len());
        assert_eq!(tx.authorization_list.len(), was.authorization_list.len());
        if tx.kind.native() {
            assert_eq!(tx.epoch_height, 900);
            assert_eq!(tx.storage_limit, 64);
        }
        if tx.kind.has_priority_fee() {
            assert_eq!(tx.max_priority_gas_price.0, U256::from_u64(5).0);
        }
    }
    assert!(matches!(txs[3].action, Action::Create));
    match &txs[0].action {
        Action::Call(a) => assert_eq!(a.0, receiver.0),
        Action::Create => panic!("expected a call"),
    }
    assert_eq!(encode_packet(&back).unwrap(), bytes);
    let report = verify_packet(&bytes).unwrap();
    assert_eq!(report.transaction_items, 7);
    assert_eq!(report.packet_bytes, bytes.len());
}

#[test]
fn repeated_transaction_is_written_once() {
    let author = Address::from_low_u64_be(1);
    let sender = Address::from_low_u64_be(2);
    let receiver = Address::from_low_u64_be(3);
    let mut first = block(1000, 0, 0, author);
    first.transactions = vec![native_tx(sender, receiver, 7)];
    let mut second = block(1000, 1, FLAG_PIVOT, author);
    second.transactions = vec![native_tx(sender, receiver, 8), native_tx(sender, receiver, 7)];
    let raw = packet(1, 1000, vec![author, sender, receiver], vec![first, second]);
    let bytes = encode_packet(&raw).unwrap();
    let back = decode_packet(&bytes).unwrap();
    assert_eq!(back.blocks[1].transaction_refs, vec![None, Some((0, 0))]);
    assert_eq!(
        back.blocks[1].transactions[1].identity,
        back.blocks[0].transactions[0].identity
    );
    assert_eq!(encode_packet(&back).unwrap(), bytes);
}

#[test]
fn long_payload_is_compressed() {
    let author = Address::from_low_u64_be(1);
    let sender = Address::from_low_u64_be(2);
    let receiver = Address::from_low_u64_be(3);
    let mut pivot = block(1000, 0, FLAG_PIVOT, author);
    let mut tx = native_tx(sender, receiver, 7);
    tx.data = vec![0x5a; 20_000];
    pivot.transactions = vec![tx];
    let raw = packet(1, 1000, vec![author, sender, receiver], vec![pivot]);
    let bytes = encode_packet(&raw).unwrap();
    assert!(bytes.len() < 10_000);
    let back = decode_packet(&bytes).unwrap();
    assert_eq!(back.blocks[0].transactions[0].data, vec![0x5a; 20_000]);
    assert_eq!(
        back.blocks[0].flags,
        FLAG_PIVOT | FLAG_HAS_TRANSACTIONS | FLAG_TX_COMPRESSED
    );
    assert_eq!(encode_packet(&back).unwrap(), bytes);

    // A payload that is no Snappy stream is refused.
    let mut broken = bytes.clone();
    let n = broken.len();
    for b in broken[n - 40..].iter_mut() {
        *b = 0xff;
    }
    assert_eq!(decode_packet(&broken).unwrap_err(), PackError::Decompress);
}

#[test]
fn pos_rewards_survive() {
    let author = Address::from_low_u64_be(1);
    let mut pivot = block(1000, 0, FLAG_PIVOT, author);
    pivot.pos_rewards = vec![PosRewardEntry {
        account_rewards: vec![
            PosRewardAccount {
                address: Address::from_low_u64_be(5),
                pos_identifier: H256::from_low_u64_be(6),
                reward: U256::from_u64(123_456_789),
            },
            PosRewardAccount {
                address: Address::from_low_u64_be(7),
                pos_identifier: H256::from_low_u64_be(8),
                reward: U256::zero(),
            },
        ],
        execution_epoch_hash: H256::from_low_u64_be(11),
    }];
    let raw = packet(1, 1000, vec![author], vec![pivot]);
    let bytes = encode_packet(&raw).unwrap();
    let report = verify_packet(&bytes).unwrap();
    assert_eq!(report.transaction_blocks, 1);
    assert_eq!(report.transaction_items, 0);
    let back = decode_packet(&bytes).unwrap();
    let rewards = &back.blocks[0].pos_rewards;
    assert_eq!(rewards.len(), 1);
    assert_eq!(rewards[0].execution_epoch_hash, H256::from_low_u64_be(11));
    assert_eq!(rewards[0].account_rewards.len(), 2);
    assert_eq!(rewards[0].account_rewards[0].reward.low_u64(), 123_456_789);
    assert_eq!(rewards[0].account_rewards[1].address.0, Address::from_low_u64_be(7).0);
    assert_eq!(encode_packet(&back).unwrap(), bytes);
}

#[test]
fn encoder_refuses_what_cannot_be_written() {
    let author = Address::from_low_u64_be(1);
    let stranger = Address::from_low_u64_be(99);
    let fails = |blocks: Vec<Block>| encode_packet(&packet(1, 1000, vec![author], blocks)).unwrap_err();

    assert_eq!(fails(Vec::new()), PackError::NoBlocks);
    assert_eq!(fails(vec![block(1000, 0, 0, author)]), PackError::NoPivot);
    assert_eq!(fails(vec![block(1000, 3, FLAG_PIVOT, author)]), PackError::BlockIndex);
    assert_eq!(
        fails(vec![block(1000, 0, FLAG_PIVOT | FLAG_RESERVED, author)]),
        PackError::ReservedFlag
    );
    let mut wrong_epoch = block(1000, 0, FLAG_PIVOT, author);
    wrong_epoch.epoch = 999;
    assert_eq!(fails(vec![wrong_epoch]), PackError::BlockEpoch);
    assert_eq!(
        fails(vec![block(u64::MAX - 1, 0, FLAG_PIVOT, author)]),
        PackError::EpochRange
    );
    assert_eq!(
        fails(vec![block(1000, 0, FLAG_PIVOT, stranger)]),
        PackError::MissingAuthor
    );
    let mut early = block(1000, 0, FLAG_PIVOT, author);
    early.timestamp = 1;
    assert_eq!(fails(vec![early]), PackError::TimestampBelowMin);
    let mut hard = block(1000, 0, FLAG_PIVOT, author);
    hard.difficulty = U256::from_u64(1001);
    assert_eq!(fails(vec![hard]), PackError::MissingDifficulty);
    let low = block(999, 0, FLAG_PIVOT, author);
    assert_eq!(fails(vec![low]), PackError::HeightBelowMin);
    let mut sent = block(1000, 0, FLAG_PIVOT, author);
    sent.transactions = vec![native_tx(stranger, author, 1)];
    assert_eq!(fails(vec![sent]), PackError::MissingSender);
    let mut called = block(1000, 0, FLAG_PIVOT, author);
    called.transactions = vec![native_tx(author, stranger, 1)];
    assert_eq!(fails(vec![called]), PackError::MissingActionAddress);
}

#[test]
fn decoder_refuses_broken_packets() {
    let author = Address::from_low_u64_be(1);
    let raw = packet(1, 1000, vec![author], vec![block(1000, 0, FLAG_PIVOT, author)]);
    let bytes = encode_packet(&raw).unwrap();
    assert_eq!(decode_packet(&bytes[..100]).unwrap_err(), PackError::ShortHeader);
    assert_eq!(verify_packet(&bytes[..100]).unwrap_err(), PackError::ShortHeader);

    let mut prefix = bytes.clone();
    prefix[92] = 65;
    assert_eq!(decode_packet(&prefix).unwrap_err(), PackError::PrefixSize);
    let mut beyond = bytes.clone();
    beyond[93 + 28 + 3] = 0x7f;
    assert_eq!(decode_packet(&beyond).unwrap_err(), PackError::OffsetBeyondEnd);
    let mut order = bytes.clone();
    order[97] = 0;
    assert_eq!(decode_packet(&order).unwrap_err(), PackError::OffsetOrder);
    let mut count = bytes.clone();
    let header = u32::from_le_bytes(bytes[113..117].try_into().unwrap()) as usize;
    count[header] = 200;
    assert!(decode_packet(&count).is_err());

    let mut flags = bytes.clone();
    let (site, hash) = block_flag_sites(&bytes).unwrap()[0];
    assert_eq!(hash, H256::from_low_u64_be(11));
    assert_eq!(flags[site], FLAG_PIVOT);
    flags[site] = 0;
    assert_eq!(decode_packet(&flags).unwrap_err(), PackError::NoFinalPivot);
}

#[test]
fn roundtrip_command_reports_changes() {
    let author = Address::from_low_u64_be(1);
    let raw = packet(1, 1000, vec![author], vec![block(1000, 0, FLAG_PIVOT, author)]);
    let bytes = encode_raw_data(&raw).unwrap();
    let t = roundtrip_packet(&bytes).unwrap();
    assert_eq!(t.reencoded, bytes);
    assert_eq!(t.report.unwrap().block_count, 1);

    let mut longer = bytes.clone();
    longer.push(0);
    let t = roundtrip_packet(&longer).unwrap();
    assert_eq!(
        t.report.unwrap_err(),
        RoundtripError::Changed { reencoded_len: bytes.len(), first_diff: bytes.len() }
    );
    assert_eq!(first_diff(&[1, 2, 3], &[1, 2, 4]), 2);
    assert_eq!(first_diff(&[1, 2], &[1, 2, 4]), 2);
    assert_eq!(first_diff(&[], &[]), 0);
}
