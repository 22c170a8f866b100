//! The keys and values of a node's databases.
use crate::bytes::to_vec;
use crate::cfxpack::codec::put_u64_le;
use crate::cfxpack::error::PackError;
use crate::cfxpack::packet::{views, PosRewardEntry, RewardAccountModel, RewardModel};
use crate::cfxpack::rlp_form::{byte_views, decode_at, decode_str, decode_u64, list_items, nth_item, str_bytes, str_num};
use crate::cfxpack::txdecode::{bytes_at, decode_reward_accounts, get_bytes, get_hash, get_items, get_short_word, decode_u256_bytes, hashes_of, items_of, lemma_hashes_fault, lenient_items, reward_accounts_of, short_word_at, word_field};
use crate::cfxpack::types::{be8, be_bytes, le_bytes, U256};
use crate::extract::blocks::BlockReward;
use crate::types::H256;
use vstd::prelude::*;

verus! {

/// Ends the key of the blocks of an epoch that were executed.
pub const EPOCH_EXECUTED_BLOCK_SET_SUFFIX: u8 = 0x06;

/// Ends the key of the blocks of an epoch whose execution was skipped.
pub const EPOCH_SKIPPED_BLOCK_SET_SUFFIX: u8 = 0x07;

/// Ends the key of the body of a block.
pub const BLOCK_BODY_SUFFIX: u8 = 0x02;

/// Ends the key of the context in which an epoch was executed.
pub const EPOCH_EXECUTION_CONTEXT_SUFFIX: u8 = 0x04;

/// Ends the key of the reward of a block.
pub const BLOCK_REWARD_RESULT_SUFFIX: u8 = 0x08;

/// The key of what is stored for an epoch.
pub fn epoch_key(epoch: u64, suffix: u8) -> (r: Vec<u8>)
    ensures
        r@ == le_bytes(epoch as nat, 8).push(suffix),
{
    let mut key: Vec<u8> = Vec::new();
    put_u64_le(&mut key, epoch);
    key.push(suffix);
    proof {
        assert(key@ =~= le_bytes(epoch as nat, 8).push(suffix));
    }
    key
}

/// The key of what is stored for a block: its hash and, but for the header, a suffix.
pub fn block_key(hash: &H256, suffix: Option<u8>) -> (r: Vec<u8>)
    ensures
        r@ == (match suffix {
            Some(s) => hash@.push(s),
            None => hash@,
        }),
{
    let mut key = to_vec(&hash.0);
    match suffix {
        Some(s) => {
            key.push(s);
        },
        None => {},
    }
    key
}

/// The key of the PoS reward of a PoS epoch.
pub fn pos_reward_key(pos_epoch: u64) -> (r: Vec<u8>)
    ensures
        r@ == be_bytes(pos_epoch as nat, 8),
{
    let b = be8(pos_epoch);
    to_vec(&b)
}

/// The hashes of a stored list of blocks.
pub open spec fn stored_hashes(value: Seq<u8>) -> Result<Seq<Seq<u8>>, PackError> {
    let items = match list_items(value) {
        Some(items) => items,
        None => Seq::empty(),
    };
    hashes_of(items, items.len() as int)
}

/// Reads a stored list of blocks.
pub fn parse_epoch_hashes(value: &[u8]) -> (r: Result<Vec<H256>, PackError>)
    ensures
        match r {
            Ok(hashes) => stored_hashes(value@) == Ok::<Seq<Seq<u8>>, PackError>(views(hashes@)),
            Err(e) => stored_hashes(value@) == Err::<Seq<Seq<u8>>, PackError>(e),
        },
{
    let items = lenient_items(value);
    let ghost all = byte_views(items@);
    let mut out: Vec<H256> = Vec::new();
    let mut i: usize = 0;
    proof {
        assert(views(out@) =~= Seq::empty());
    }
    while i < items.len()
        invariant
            i <= items@.len(),
            all == byte_views(items@),
            stored_hashes(value@) == hashes_of(all, all.len() as int),
            hashes_of(all, i as int) == Ok::<Seq<Seq<u8>>, PackError>(views(out@)),
        decreases items@.len() - i,
    {
        let ghost done = views(out@);
        match get_hash(&items, i, PackError::Rlp) {
            Ok(h) => {
                out.push(h);
                proof {
                    assert(views(out@) =~= done.push(h@));
                }
            },
            Err(e) => {
                proof {
                    lemma_hashes_fault(all, i + 1, all.len() as int);
                }
                return Err(e);
            },
        }
        i += 1;
    }
    Ok(out)
}

/// Item `i` of a stored list.
pub open spec fn stored_item(value: Seq<u8>, i: int) -> Result<Seq<u8>, PackError> {
    match nth_item(value, i) {
        Some(raw) => Ok(raw),
        None => Err(PackError::Rlp),
    }
}

/// Reads item `i` of a stored list.
fn item_of(value: &[u8], i: usize) -> (r: Result<Vec<u8>, PackError>)
    ensures
        match r {
            Ok(raw) => stored_item(value@, i as int) == Ok::<Seq<u8>, PackError>(raw@),
            Err(e) => stored_item(value@, i as int) == Err::<Seq<u8>, PackError>(e),
        },
{
    match decode_at(value, i) {
        Ok(raw) => Ok(raw),
        Err(_) => Err(PackError::Rlp),
    }
}

/// The number of the first block of an epoch, from the context in which it was executed.
pub open spec fn start_number(value: Seq<u8>) -> Result<nat, PackError> {
    match stored_item(value, 0) {
        Err(e) => Err(e),
        Ok(raw) => match str_num(raw, 8) {
            Some(v) => Ok(v),
            None => Err(PackError::Rlp),
        },
    }
}

/// Reads the number of the first block of an epoch.
pub fn parse_start_block_number(value: &[u8]) -> (r: Result<u64, PackError>)
    ensures
        match r {
            Ok(v) => start_number(value@) == Ok::<nat, PackError>(v as nat),
            Err(e) => start_number(value@) == Err::<nat, PackError>(e),
        },
{
    match item_of(value, 0) {
        Ok(raw) => match decode_u64(raw.as_slice()) {
            Ok(v) => Ok(v),
            Err(_) => Err(PackError::Rlp),
        },
        Err(e) => Err(e),
    }
}

/// The total reward and the base reward of a block, from a stored pair whose second
/// part lists them.
pub open spec fn stored_reward(value: Seq<u8>) -> Result<(Seq<u8>, Seq<u8>), PackError> {
    match stored_item(value, 1) {
        Err(e) => Err(e),
        Ok(raw) => match items_of(raw) {
            Err(e) => Err(e),
            Ok(fields) => match short_word_at(fields, 0) {
                Err(e) => Err(e),
                Ok(total) => match short_word_at(fields, 1) {
                    Err(e) => Err(e),
                    Ok(base) => Ok((total, base)),
                },
            },
        },
    }
}

/// Reads the reward of a block.
pub fn parse_block_reward(value: &[u8]) -> (r: Result<BlockReward, PackError>)
    ensures
        match r {
            Ok(v) => stored_reward(value@) == Ok::<(Seq<u8>, Seq<u8>), PackError>(
                (v.total_reward@, v.base_reward@),
            ),
            Err(e) => stored_reward(value@) == Err::<(Seq<u8>, Seq<u8>), PackError>(e),
        },
{
    let raw = match item_of(value, 1) {
        Ok(v) => v,
        Err(e) => {
            return Err(e);
        },
    };
    let fields = match get_items(raw.as_slice()) {
        Ok(v) => v,
        Err(e) => {
            return Err(e);
        },
    };
    let total_reward = match get_short_word(&fields, 0) {
        Ok(v) => v,
        Err(e) => {
            return Err(e);
        },
    };
    match get_short_word(&fields, 1) {
        Ok(base_reward) => Ok(BlockReward { base_reward, total_reward }),
        Err(e) => Err(e),
    }
}

/// The hash of the block in whose epoch a stored PoS reward was distributed, as it stands.
pub open spec fn stored_epoch_hash(value: Seq<u8>) -> Result<Seq<u8>, PackError> {
    match stored_item(value, 1) {
        Err(e) => Err(e),
        Ok(raw) => match str_bytes(raw) {
            Some(b) => Ok(b),
            None => Err(PackError::Rlp),
        },
    }
}

/// Reads the hash of the block in whose epoch a stored PoS reward was distributed.
pub fn parse_epoch_hash(value: &[u8]) -> (r: Result<Vec<u8>, PackError>)
    ensures
        match r {
            Ok(b) => stored_epoch_hash(value@) == Ok::<Seq<u8>, PackError>(b@),
            Err(e) => stored_epoch_hash(value@) == Err::<Seq<u8>, PackError>(e),
        },
{
    match item_of(value, 1) {
        Ok(raw) => match decode_str(raw.as_slice()) {
            Ok(b) => Ok(b),
            Err(_) => Err(PackError::Rlp),
        },
        Err(e) => Err(e),
    }
}

/// The items of the list at place `i` of a stored list.
pub open spec fn stored_sublist(value: Seq<u8>, i: int) -> Result<Seq<Seq<u8>>, PackError> {
    match stored_item(value, i) {
        Err(e) => Err(e),
        Ok(raw) => items_of(raw),
    }
}

/// Reads the items of the list at place `i` of a stored list.
fn sublist_of(value: &[u8], i: usize) -> (r: Result<Vec<Vec<u8>>, PackError>)
    ensures
        match r {
            Ok(sub) => stored_sublist(value@, i as int) == Ok::<Seq<Seq<u8>>, PackError>(
                byte_views(sub@),
            ),
            Err(e) => stored_sublist(value@, i as int) == Err::<Seq<Seq<u8>>, PackError>(e),
        },
{
    match item_of(value, i) {
        Ok(raw) => get_items(raw.as_slice()),
        Err(e) => Err(e),
    }
}

/// The PoS reward that is stored for a PoS epoch: the accounts, and the hash of the
/// block in whose epoch it was distributed.
pub open spec fn stored_pos_reward(value: Seq<u8>) -> Result<RewardModel, PackError> {
    match stored_epoch_hash(value) {
        Err(e) => Err(e),
        Ok(epoch_hash) => if epoch_hash.len() != 32 {
            Err(PackError::HashLength)
        } else {
            match stored_sublist(value, 0) {
                Err(e) => Err(e),
                Ok(sub) => match reward_accounts_of(sub, sub.len() as int) {
                    Err(e) => Err(e),
                    Ok(accounts) => Ok(RewardModel { accounts, epoch_hash }),
                },
            }
        },
    }
}

/// Reads the PoS reward of a PoS epoch.
pub fn parse_pos_reward(value: &[u8]) -> (r: Result<PosRewardEntry, PackError>)
    ensures
        match r {
            Ok(v) => stored_pos_reward(value@) == Ok::<RewardModel, PackError>(v@),
            Err(e) => stored_pos_reward(value@) == Err::<RewardModel, PackError>(e),
        },
{
    let hash = match parse_epoch_hash(value) {
        Ok(b) => b,
        Err(e) => {
            return Err(e);
        },
    };
    if hash.len() != 32 {
        return Err(PackError::HashLength);
    }
    let execution_epoch_hash = H256::from_slice(hash.as_slice());
    let sub = match sublist_of(value, 0) {
        Ok(v) => v,
        Err(e) => {
            return Err(e);
        },
    };
    match decode_reward_accounts(&sub) {
        Ok(account_rewards) => Ok(PosRewardEntry { account_rewards, execution_epoch_hash }),
        Err(e) => Err(e),
    }
}

/// A share of a stored PoS reward, as it stands: address and identifier may have any length.
#[derive(Debug)]
pub struct StoredShare {
    pub address: Vec<u8>,
    pub pos_identifier: Vec<u8>,
    pub reward: U256,
}

/// A stored PoS reward, as it stands.
#[derive(Debug)]
pub struct StoredReward {
    pub shares: Vec<StoredShare>,
    pub execution_epoch_hash: Vec<u8>,
}

impl View for StoredShare {
    type V = RewardAccountModel;

    open spec fn view(&self) -> RewardAccountModel {
        RewardAccountModel {
            address: self.address@,
            identifier: self.pos_identifier@,
            reward: self.reward@,
        }
    }
}

impl View for StoredReward {
    type V = RewardModel;

    open spec fn view(&self) -> RewardModel {
        RewardModel { accounts: views(self.shares@), epoch_hash: self.execution_epoch_hash@ }
    }
}

/// A share of a stored PoS reward.
pub open spec fn stored_share(raw: Seq<u8>) -> Result<RewardAccountModel, PackError> {
    match items_of(raw) {
        Err(e) => Err(e),
        Ok(items) => match bytes_at(items, 0) {
            Err(e) => Err(e),
            Ok(address) => match bytes_at(items, 1) {
                Err(e) => Err(e),
                Ok(identifier) => match word_field(items, 2) {
                    Err(e) => Err(e),
                    Ok(reward) => Ok(RewardAccountModel { address, identifier, reward }),
                },
            },
        },
    }
}

/// The first `n` shares of a stored PoS reward.
pub open spec fn stored_shares(items: Seq<Seq<u8>>, n: int) -> Result<
    Seq<RewardAccountModel>,
    PackError,
>
    decreases n,
{
    if n <= 0 {
        Ok(Seq::empty())
    } else {
        match stored_shares(items, n - 1) {
            Err(e) => Err(e),
            Ok(done) => match stored_share(items[n - 1]) {
                Err(e) => Err(e),
                Ok(a) => Ok(done.push(a)),
            },
        }
    }
}

proof fn lemma_shares_fault(items: Seq<Seq<u8>>, i: int, n: int)
    requires
        0 <= i <= n,
        stored_shares(items, i) is Err,
    ensures
        stored_shares(items, n) == stored_shares(items, i),
    decreases n,
{
    if i < n {
        lemma_shares_fault(items, i, n - 1);
    }
}

/// Reads a share of a stored PoS reward.
fn parse_share(raw: &[u8]) -> (r: Result<StoredShare, PackError>)
    ensures
        match r {
            Ok(a) => stored_share(raw@) == Ok::<RewardAccountModel, PackError>(a@),
            Err(e) => stored_share(raw@) == Err::<RewardAccountModel, PackError>(e),
        },
{
    let items = match get_items(raw) {
        Ok(v) => v,
        Err(e) => {
            return Err(e);
        },
    };
    let address = match get_bytes(&items, 0) {
        Ok(b) => b,
        Err(e) => {
            return Err(e);
        },
    };
    let pos_identifier = match get_bytes(&items, 1) {
        Ok(b) => b,
        Err(e) => {
            return Err(e);
        },
    };
    match decode_u256_bytes(&items, 2) {
        Ok(reward) => Ok(StoredShare { address, pos_identifier, reward }),
        Err(e) => Err(e),
    }
}

/// A stored PoS reward, as it stands.
pub open spec fn stored_as_is(value: Seq<u8>) -> Result<RewardModel, PackError> {
    match stored_epoch_hash(value) {
        Err(e) => Err(e),
        Ok(epoch_hash) => match stored_sublist(value, 0) {
            Err(e) => Err(e),
            Ok(sub) => match stored_shares(sub, sub.len() as int) {
                Err(e) => Err(e),
                Ok(accounts) => Ok(RewardModel { accounts, epoch_hash }),
            },
        },
    }
}

/// Reads a stored PoS reward as it stands, whatever the lengths of its addresses,
/// identifiers and hash.
pub fn parse_stored_reward(value: &[u8]) -> (r: Result<StoredReward, PackError>)
    ensures
        match r {
            Ok(v) => stored_as_is(value@) == Ok::<RewardModel, PackError>(v@),
            Err(e) => stored_as_is(value@) == Err::<RewardModel, PackError>(e),
        },
{
    let execution_epoch_hash = match parse_epoch_hash(value) {
        Ok(b) => b,
        Err(e) => {
            return Err(e);
        },
    };
    let sub = match sublist_of(value, 0) {
        Ok(v) => v,
        Err(e) => {
            return Err(e);
        },
    };
    let ghost all = byte_views(sub@);
    let mut shares: Vec<StoredShare> = Vec::new();
    let mut i: usize = 0;
    proof {
        assert(views(shares@) =~= Seq::empty());
    }
    while i < sub.len()
        invariant
            i <= sub@.len(),
            all == byte_views(sub@),
            stored_epoch_hash(value@) == Ok::<Seq<u8>, PackError>(execution_epoch_hash@),
            stored_sublist(value@, 0) == Ok::<Seq<Seq<u8>>, PackError>(all),
            stored_shares(all, i as int) == Ok::<Seq<RewardAccountModel>, PackError>(
                views(shares@),
            ),
        decreases sub@.len() - i,
    {
        let ghost done = views(shares@);
        match parse_share(sub[i].as_slice()) {
            Ok(a) => {
                shares.push(a);
                proof {
                    assert(views(shares@) =~= done.push(a@));
                }
            },
            Err(e) => {
                proof {
                    lemma_shares_fault(all, i + 1, all.len() as int);
                }
                return Err(e);
            },
        }
        i += 1;
    }
    Ok(StoredReward { shares, execution_epoch_hash })
}

} // verus!
