use cfx_minimal_execution::cfxpack::codec::uleb128_len;
use cfx_minimal_execution::cfxpack::decimal::{append_decimal, parse_decimal};

use cfx_minimal_execution::cfxpack::types::{Address, U256};
use cfx_minimal_execution::extract::db::{StoredReward, StoredShare};
use cfx_minimal_execution::extract::reward_json::{
    extract_json_string, parse_reward_json, reward_json, RewardTextError,
};
use cfx_minimal_execution::text::{hex, number_text, parse_hex, parse_number, trim};
use cfx_minimal_execution::trace::{
    account_key, format_prefix_result, format_root, short_account, storage_key, trace_id, value_for,
};
use cfx_minimal_execution::key_codec::StorageKey;
use cfx_minimal_execution::state::State;
use cfx_minimal_execution::types::{Error, Space, H256};

fn chars(s: &str) -> Vec<char> {
    s.chars().collect()
}

#[test]
fn numbers_come_back() {
    for v in [0u64, 7, 10, 99, 100, 1_000_000_007, u64::MAX] {
        assert_eq!(number_text(v), v.to_string());
        assert_eq!(parse_number(&chars(&number_text(v))), Some(v));
    }
    assert_eq!(parse_number(&chars("")), None);
    assert_eq!(parse_number(&chars("+")), None);
    assert_eq!(parse_number(&chars("+12")), Some(12));
    assert_eq!(parse_number(&chars("-12")), None);
    assert_eq!(parse_number(&chars("007")), Some(7));
    assert_eq!(parse_number(&chars("18446744073709551616")), None);
    assert_eq!(uleb128_len(127), 1);
    assert_eq!(uleb128_len(128), 2);
}

#[test]
fn hexadecimal_comes_back() {
    assert_eq!(hex(&[0, 0x0f, 0xf0, 0xab]), "000ff0ab");
    assert_eq!(parse_hex(&chars("000fF0aB")), Some(vec![0, 0x0f, 0xf0, 0xab]));
    assert_eq!(parse_hex(&chars("0")), None);
    assert_eq!(parse_hex(&chars("0g")), None);
    assert_eq!(parse_hex(&chars("")), Some(Vec::new()));
}

#[test]
fn words_in_decimal_come_back() {
    for text in [
        "0",
        "9",
        "10",
        "18446744073709551616",
        "115792089237316195423570985008687907853269984665640564039457584007913129639935",
    ] {
        let w = parse_decimal(&chars(text)).unwrap();
        let mut out = String::new();
        append_decimal(&mut out, &w);
        assert_eq!(out, text);
    }
    assert_eq!(parse_decimal(&chars("")).unwrap().0, U256::zero().0);
    assert!(parse_decimal(&chars("1x")).is_none());
    assert!(parse_decimal(&chars(
        "115792089237316195423570985008687907853269984665640564039457584007913129639936"
    ))
    .is_none());
    assert_eq!(trim(&chars(" \t x y\u{a0}\r\n")), chars("x y"));
}

fn reward() -> StoredReward {
    StoredReward {
        shares: vec![
            StoredShare {
                address: Address::from_low_u64_be(0x1234).0.to_vec(),
                pos_identifier: H256::from_low_u64_be(0xabcd).0.to_vec(),
                reward: U256::from_u64(1_000_000_000_000_000_000),
            },
            StoredShare {
                address: Address::from_low_u64_be(5).0.to_vec(),
                pos_identifier: H256::from_low_u64_be(6).0.to_vec(),
                reward: U256::from_u64(0),
            },
        ],
        execution_epoch_hash: H256::from_low_u64_be(77).0.to_vec(),
    }
}

#[test]
fn reward_text_comes_back() {
    let text = reward_json(42, &reward());
    assert!(text.starts_with("{\n  \"pos_epoch\": 42,\n  \"execution_epoch_hash\": \"0x00"));
    assert!(text.contains(
        "    {\"address\": \"0x0000000000000000000000000000000000001234\", \"pos_identifier\": \
         \"0x000000000000000000000000000000000000000000000000000000000000abcd\", \"reward\": \
         \"1000000000000000000\"},\n"
    ));
    assert!(text.ends_with("\"reward\": \"0\"}\n  ]\n}\n"));
    let back = parse_reward_json(&text).unwrap();
    assert_eq!(back.execution_epoch_hash, H256::from_low_u64_be(77));
    assert_eq!(back.account_rewards.len(), 2);
    assert_eq!(back.account_rewards[0].address, Address::from_low_u64_be(0x1234));
    assert_eq!(back.account_rewards[0].pos_identifier, H256::from_low_u64_be(0xabcd));
    assert_eq!(back.account_rewards[0].reward.low_u64(), 1_000_000_000_000_000_000);
    assert_eq!(back.account_rewards[1].reward.0, U256::zero().0);
}

#[test]
fn reward_text_errors() {
    let line = |a: &str, i: &str, r: &str| {
        format!("{{\"address\": \"{a}\", \"pos_identifier\": \"{i}\", \"reward\": \"{r}\"}}")
    };
    let good_address = "0x0000000000000000000000000000000000001234";
    let good_id = "000000000000000000000000000000000000000000000000000000000000abcd";
    assert_eq!(parse_reward_json(&line(good_address, good_id, "5")).unwrap().account_rewards.len(), 1);
    assert_eq!(
        parse_reward_json(&line("0x12", good_id, "5")).unwrap_err(),
        RewardTextError::Address
    );
    assert_eq!(
        parse_reward_json(&line(good_address, "zz", "5")).unwrap_err(),
        RewardTextError::Identifier
    );
    assert_eq!(
        parse_reward_json(&line(good_address, good_id, "5x")).unwrap_err(),
        RewardTextError::Reward
    );
    assert_eq!(
        parse_reward_json("\"execution_epoch_hash\": \"0x12\"").unwrap_err(),
        RewardTextError::EpochHash
    );
    assert_eq!(
        parse_reward_json("\"address\" \"pos_identifier\" \"reward\"").unwrap_err(),
        RewardTextError::MissingAddress
    );
    assert_eq!(
        parse_reward_json("\"address\": \"x\" \"pos_identifier\" \"reward\"").unwrap_err(),
        RewardTextError::MissingIdentifier
    );
    assert_eq!(
        parse_reward_json("\"address\": \"x\" \"pos_identifier\": \"y\" \"reward\"").unwrap_err(),
        RewardTextError::MissingReward
    );
    assert_eq!(parse_reward_json("").unwrap().account_rewards.len(), 0);
    assert_eq!(extract_json_string(&chars("{\"a\":  \"\"v\" }"), "a"), Some(chars("v")));
    assert_eq!(extract_json_string(&chars("{\"a\":  17 }"), "a"), None);
    assert_eq!(extract_json_string(&chars("{\"b\": \"v\"}"), "a"), None);
}

#[test]
fn traces_are_fixed() {
    assert_eq!(trace_id(0), 11);
    assert_eq!(trace_id(1), 48);
    assert_eq!(trace_id(u32::MAX), (u32::MAX.wrapping_mul(37).wrapping_add(11) % 64) as u8);
    assert_eq!(value_for(0, 7), vec![7]);
    assert_eq!(value_for(48, 250), vec![42, 43]);
    assert_eq!(account_key(3).space, Space::Ethereum);
    assert_eq!(account_key(4).space, Space::Native);
    assert_eq!(account_key(4).key, StorageKey::Account(vec![4; 20]));
    assert_eq!(short_account(&[1, 2]).key, StorageKey::Account(vec![1, 2]));
    let mut state = State::new();
    state.set(storage_key(7, vec![2; 32], Space::Native), Box::from([1])).unwrap();
    let root = state.commit().unwrap();
    let text = format_root(&root);
    assert_eq!(text.len(), 4 * 64 + 3);
    assert!(text.ends_with(&hex(root.state_root_hash.as_bytes())));
    assert_eq!(format_prefix_result(&None), "-");
    let pairs: Vec<(Vec<u8>, Box<[u8]>)> = vec![
        (vec![2], Box::from([9])),
        (vec![1, 5], Box::from([8])),
        (vec![1], Box::from([7, 7])),
        (vec![1], Box::from([7])),
    ];
    assert_eq!(format_prefix_result(&Some(pairs)), "01=07,01=0707,0105=08,02=09");
}

#[test]
fn errors_have_texts() {
    assert_eq!(Error::Io("gone".to_string()).to_string(), "io error: gone");
    assert_eq!(Error::Codec("bad".to_string()).to_string(), "codec error: bad");
    assert_eq!(H256::from_low_u64_be(255).to_hex().len(), 66);
    assert!(H256::from_low_u64_be(255).to_hex().ends_with("00ff"));
}
