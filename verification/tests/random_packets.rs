//! Packets made from random bytes: what is written is read back, and written again to
//! the same bytes.
use cfx_minimal_execution::cfxpack::decode::decode_packet;
use cfx_minimal_execution::cfxpack::encode::encode_packet;
use cfx_minimal_execution::cfxpack::packet::{
    Action, Block, Packet, SignedTransaction, TxKind, FLAG_ADAPTIVE, FLAG_ESPACE, FLAG_PIVOT,
};
use cfx_minimal_execution::cfxpack::types::{Address, U256};
use cfx_minimal_execution::cfxpack::verify::verify_packet;
use cfx_minimal_execution::raw::encode_raw_data;
use cfx_minimal_execution::trie::keccak;
use cfx_minimal_execution::types::H256;
use cfx_minimal_execution::validate::validate_replay_packet;

fn random_bytes(seed: u64, n: usize) -> Vec<u8> {
    let mut s = seed;
    (0..n)
        .map(|_| {
            s = s.wrapping_mul(6364136223846793005).wrapping_add(1442695040888963407);
            (s >> 40) as u8
        })
        .collect()
}

fn raw_from_bytes(data: &[u8]) -> Option<Packet> {
    if data.len() < 8 {
        return None;
    }
    let block_count = (data[0] as usize % 8) + 1;
    let author_count = ((data[1] as usize % 4) + 3).min(8);
    let mut addresses = Vec::new();
    for i in 0..author_count {
        addresses.push(Address::from_low_u64_be(i as u64 + 1));
    }
    let with_txs = data[2] & 1 == 1;
    let duplicate_txs = data[3] & 1 == 1;

    let mut blocks = Vec::new();
    let mut first_tx: Option<SignedTransaction> = None;
    let mut cursor = 4usize;
    let epoch = 1_000 + block_count as u64 - 1;
    for i in 0..block_count {
        let author = addresses[i % addresses.len()];
        let height = 1_000 + i as u64;
        let timestamp = 1_700_000_000 + next_u16(data, &mut cursor) as u64;
        let mut transactions: Vec<SignedTransaction> = Vec::new();
        let mut block_tx_hashes = std::collections::HashSet::new();
        if with_txs && (data.get(cursor).copied().unwrap_or(0) as usize + i) % 3 != 0 {
            let tx_count = (data.get(cursor).copied().unwrap_or(0) as usize % 3) + 1;
            cursor = cursor.saturating_add(1);
            for tx_index in 0..tx_count {
                if duplicate_txs && i > 0 && tx_index == 0 {
                    if let Some(tx) = &first_tx {
                        if block_tx_hashes.insert(tx.identity.0) {
                            transactions.push(tx.clone());
                        }
                        continue;
                    }
                }
                let tx = make_tx(
                    data,
                    &mut cursor,
                    epoch,
                    addresses[(tx_index + 1) % addresses.len()],
                    addresses[(tx_index + 2) % addresses.len()],
                );
                if first_tx.is_none() {
                    first_tx = Some(tx.clone());
                }
                if block_tx_hashes.insert(tx.identity.0) {
                    transactions.push(tx);
                }
            }
        }
        let difficulty = U256::from_u64((next_u16(data, &mut cursor) as u64) + 1);
        let mark = data.get(cursor).copied().unwrap_or(0);
        blocks.push(Block {
            epoch,
            index: i,
            hash: H256::from_low_u64_be(10_000 + i as u64),
            deferred_state_root: prefixed_hash(20_000 + i as u64),
            deferred_receipts_root: prefixed_hash(30_000 + i as u64),
            deferred_logs_bloom_hash: prefixed_hash(40_000 + i as u64),
            flags: if i + 1 == block_count { FLAG_PIVOT } else { 0 },
            author,
            timestamp,
            difficulty,
            gas_limit: if mark & 1 == 0 {
                U256::from_u64(30_000_000)
            } else {
                U256::from_u64(60_000_000)
            },
            base_price_core: U256::from_u64(1_000_000_000u64),
            base_price_espace: U256::zero(),
            height,
            blame: (mark % 4) as u64,
            finalized_epoch: 0,
            base_reward: U256::from_u64(next_u16(data, &mut cursor) as u64),
            transactions,
            transaction_refs: Vec::new(),
            pos_rewards: Vec::new(),
            unlock_events: Vec::new(),
            pos_view: None,
        });
        cursor = cursor.saturating_add(1);
    }
    let min_timestamp = blocks.iter().map(|b| b.timestamp).min()?;
    let min_height = blocks.iter().map(|b| b.height).min()?;
    let mut difficulties: Vec<U256> = Vec::new();
    for block in &blocks {
        if !difficulties.contains(&block.difficulty) {
            difficulties.push(block.difficulty);
        }
    }
    Some(Packet {
        prev_last_hash: H256::from_low_u64_be(1),
        prev_last_deferred_state_root: H256::from_low_u64_be(2),
        first_block_number: 1_000,
        min_timestamp,
        min_height,
        min_pos_height: 0,
        addresses,
        pos_entries: Vec::new(),
        difficulties,
        sender_base_nonces: Vec::new(),
        gas_prices: vec![U256::from_u64(1_000_000_000u64)],
        blocks,
    })
}

fn make_tx(
    data: &[u8],
    cursor: &mut usize,
    epoch_height: u64,
    sender: Address,
    receiver: Address,
) -> SignedTransaction {
    let nonce = U256::from_u64(next_u16(data, cursor) as u64);
    let gas_price = if data.get(*cursor).copied().unwrap_or(0) & 1 == 0 {
        U256::from_u64(1_000_000_000u64)
    } else {
        U256::from_u64((next_u16(data, cursor) as u64) + 1)
    };
    let gas = U256::from_u64(21_000 + next_u16(data, cursor) as u64);
    let action = if data.get(*cursor).copied().unwrap_or(0) & 1 == 0 {
        Action::Call(receiver)
    } else {
        Action::Create
    };
    *cursor = cursor.saturating_add(1);
    let data_len = (data.get(*cursor).copied().unwrap_or(0) % 24) as usize;
    *cursor = cursor.saturating_add(1);
    let mut payload = Vec::new();
    for _ in 0..data_len {
        payload.push(data.get(*cursor).copied().unwrap_or(0));
        *cursor = cursor.saturating_add(1);
    }
    let kind = match data.get(*cursor).copied().unwrap_or(0) % 3 {
        0 => TxKind::Cip155,
        1 => TxKind::Cip2930,
        _ => TxKind::Cip1559,
    };
    let mut tx = SignedTransaction {
        identity: H256::zero(),
        sender,
        kind,
        nonce,
        gas_price,
        max_priority_gas_price: gas_price,
        gas,
        action,
        value: U256::from_u64(next_u16(data, cursor) as u64),
        storage_limit: next_u16(data, cursor) as u64,
        epoch_height,
        data: payload,
        access_list: Vec::new(),
        authorization_list: Vec::new(),
    };
    tx.identity = keccak(&tx.content());
    tx
}

fn next_u16(data: &[u8], cursor: &mut usize) -> u16 {
    let lo = data.get(*cursor).copied().unwrap_or(0) as u16;
    let hi = data.get(cursor.saturating_add(1)).copied().unwrap_or(0) as u16;
    *cursor = cursor.saturating_add(2);
    lo | (hi << 8)
}

fn prefixed_hash(value: u64) -> H256 {
    let mut bytes = [0u8; 32];
    bytes[..8].copy_from_slice(&value.to_be_bytes());
    H256(bytes)
}

#[test]
fn random_packets_come_back() {
    let mut with_transactions = 0;
    for seed in 0..300u64 {
        let data = random_bytes(seed.wrapping_mul(0x9e37_79b9_7f4a_7c15) ^ 0x55, 400);
        let raw = raw_from_bytes(&data).unwrap();
        let packet = encode_packet(&raw).unwrap();
        let decoded = decode_packet(&packet).unwrap();
        let reencoded = encode_packet(&decoded).unwrap();
        assert_eq!(packet, reencoded);
        let first = verify_packet(&packet).unwrap();
        assert_eq!(first, verify_packet(&reencoded).unwrap());
        let replay = validate_replay_packet(&packet).unwrap();
        assert_eq!(replay, validate_replay_packet(&reencoded).unwrap());
        let txs: usize = raw.blocks.iter().map(|b| b.transactions.len()).sum();
        assert_eq!(replay.transaction_count, txs);
        assert_eq!(first.transaction_items as usize, txs);
        if txs > 0 {
            with_transactions += 1;
        }
        for (a, b) in raw.blocks.iter().zip(decoded.blocks.iter()) {
            assert_eq!(a.timestamp, b.timestamp);
            assert_eq!(a.height, b.height);
            assert_eq!(a.author, b.author);
            assert_eq!(a.difficulty, b.difficulty);
            assert_eq!(a.gas_limit, b.gas_limit);
            assert_eq!(a.base_reward, b.base_reward);
            assert_eq!(a.blame, b.blame);
            assert_eq!(a.hash, b.hash);
            for (s, t) in a.transactions.iter().zip(b.transactions.iter()) {
                assert_eq!(s.nonce, t.nonce);
                assert_eq!(s.gas_price, t.gas_price);
                assert_eq!(s.value, t.value);
                assert_eq!(s.data, t.data);
                assert_eq!(s.sender, t.sender);
            }
        }
    }
    assert!(with_transactions > 50);
}

#[test]
fn small_raw_packets_verify_and_replay() {
    for seed in 0..200u64 {
        let data = random_bytes(seed ^ 0xabcdef, 16);
        let author = Address::from_low_u64_be(u64::from(data[0]) + 1);
        let difficulty = U256::from_u64(u64::from(data[1]) + 1);
        let block_count = usize::from(data[2] % 5) + 1;
        let min_height = u64::from(data[3]);
        let epoch = min_height + block_count as u64 - 1;
        let min_timestamp = 1_700_000_000 + u64::from(data[4]);
        let mut blocks = Vec::with_capacity(block_count);
        for i in 0..block_count {
            let b = data.get(5 + i).copied().unwrap_or(0);
            blocks.push(Block {
                epoch,
                index: i,
                hash: H256::from_low_u64_be(100 + i as u64),
                deferred_state_root: H256::from_low_u64_be(200 + i as u64),
                deferred_receipts_root: H256::from_low_u64_be(300 + i as u64),
                deferred_logs_bloom_hash: H256::from_low_u64_be(400 + i as u64),
                flags: (if b & 1 != 0 { FLAG_ADAPTIVE } else { 0 })
                    | (if i + 1 == block_count { FLAG_PIVOT | FLAG_ESPACE } else { 0 }),
                author,
                timestamp: min_timestamp + i as u64,
                difficulty,
                gas_limit: if b & 2 == 0 {
                    U256::from_u64(30_000_000)
                } else {
                    U256::from_u64(60_000_000)
                },
                base_price_core: if b & 4 == 0 {
                    U256::zero()
                } else {
                    U256::from_u64(1_000_000_000)
                },
                base_price_espace: if b & 8 == 0 {
                    U256::zero()
                } else {
                    U256::from_u64(20_000_000_000u64)
                },
                height: min_height + i as u64,
                blame: u64::from(b >> 4),
                finalized_epoch: u64::from(b % 3),
                base_reward: U256::from_u64(u64::from(b) + 1),
                transactions: Vec::new(),
                transaction_refs: Vec::new(),
                pos_rewards: Vec::new(),
                unlock_events: Vec::new(),
                pos_view: None,
            });
        }
        let raw = Packet {
            prev_last_hash: H256::from_low_u64_be(1),
            prev_last_deferred_state_root: H256::from_low_u64_be(2),
            first_block_number: 1,
            min_timestamp,
            min_height,
            min_pos_height: 0,
            addresses: vec![author],
            pos_entries: Vec::new(),
            difficulties: vec![difficulty],
            sender_base_nonces: Vec::new(),
            gas_prices: Vec::new(),
            blocks,
        };
        let packet = encode_raw_data(&raw).unwrap();
        let verify = verify_packet(&packet).unwrap();
        let replay = validate_replay_packet(&packet).unwrap();
        assert_eq!(verify.block_count as usize, replay.block_count);
        assert_eq!(verify.transaction_items as usize, replay.transaction_count);
    }
}
