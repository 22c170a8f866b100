//! What the models of the crate's types hold of them.
use crate::cfxpack::packet::{Action, Block, Packet, PosRewardEntry, SignedTransaction};
use crate::cfxpack::container::Group;
use crate::cfxpack::types::{Address, U256};
use crate::extract::blocks::RawBlock;
use crate::extract::pack::PacketOut;
use crate::key_codec::{KeyPart, StorageKey, StorageKeyWithSpace};
use crate::store::{MptValueDisk, PersistedState};
use crate::trie::MptValue;
use crate::types::H256;
use vstd::prelude::*;

verus! {

/// Hashes, addresses and words are their bytes.
pub proof fn law_bytes_view(h: H256, a: Address, w: U256)
    ensures
        h@ == h.0@ && h@.len() == 32,
        a@ == a.0@ && a@.len() == 20,
        w@ == w.0@ && w@.len() == 32,
{
}

/// The model of a packet holds each of its parts under its own name.
pub proof fn law_packet_view(p: Packet, i: int)
    ensures
        p@.prev_last_hash == p.prev_last_hash@,
        p@.prev_last_state_root == p.prev_last_deferred_state_root@,
        p@.first_block_number == p.first_block_number,
        p@.min_timestamp == p.min_timestamp,
        p@.min_height == p.min_height,
        p@.min_pos_height == p.min_pos_height,
        p@.addresses.len() == p.addresses@.len(),
        p@.pos_entries.len() == p.pos_entries@.len(),
        p@.difficulties.len() == p.difficulties@.len(),
        p@.base_nonces.len() == p.sender_base_nonces@.len(),
        p@.gas_prices.len() == p.gas_prices@.len(),
        p@.blocks.len() == p.blocks@.len(),
        0 <= i < p.addresses@.len() ==> p@.addresses[i] == p.addresses@[i]@,
        0 <= i < p.pos_entries@.len() ==> p@.pos_entries[i].hash == p.pos_entries@[i].hash@
            && p@.pos_entries[i].height_offset == p.pos_entries@[i].height_offset,
        0 <= i < p.difficulties@.len() ==> p@.difficulties[i] == p.difficulties@[i]@,
        0 <= i < p.sender_base_nonces@.len() ==> p@.base_nonces[i].0
            == p.sender_base_nonces@[i].sender_index && p@.base_nonces[i].1
            == p.sender_base_nonces@[i].base_nonce,
        0 <= i < p.gas_prices@.len() ==> p@.gas_prices[i] == p.gas_prices@[i]@,
        0 <= i < p.blocks@.len() ==> p@.blocks[i] == p.blocks@[i]@,
{
}

/// The model of a block holds each of its parts under its own name.
pub proof fn law_block_view(b: Block, i: int)
    ensures
        b@.epoch == b.epoch,
        b@.index == b.index,
        b@.hash == b.hash@,
        b@.state_root == b.deferred_state_root@,
        b@.receipts_root == b.deferred_receipts_root@,
        b@.logs_bloom == b.deferred_logs_bloom_hash@,
        b@.flags == b.flags,
        b@.author == b.author@,
        b@.timestamp == b.timestamp,
        b@.difficulty == b.difficulty@,
        b@.gas_limit == b.gas_limit@,
        b@.base_price_core == b.base_price_core@,
        b@.base_price_espace == b.base_price_espace@,
        b@.height == b.height,
        b@.blame == b.blame,
        b@.finalized_epoch == b.finalized_epoch,
        b@.base_reward == b.base_reward@,
        b@.pos_view == b.pos_view,
        b@.txs.len() == b.transactions@.len(),
        b@.refs.len() == b.transaction_refs@.len(),
        b@.rewards.len() == b.pos_rewards@.len(),
        b@.unlocks.len() == b.unlock_events@.len(),
        0 <= i < b.transactions@.len() ==> b@.txs[i] == b.transactions@[i]@,
        0 <= i < b.transaction_refs@.len() ==> match b.transaction_refs@[i] {
            Some((k, j)) => b@.refs[i] == Some((k as nat, j as nat)),
            None => b@.refs[i] is None,
        },
        0 <= i < b.pos_rewards@.len() ==> b@.rewards[i].epoch_hash
            == b.pos_rewards@[i].execution_epoch_hash@ && b@.rewards[i].accounts.len()
            == b.pos_rewards@[i].account_rewards@.len(),
        0 <= i < b.unlock_events@.len() ==> b@.unlocks[i].identifier
            == b.unlock_events@[i].identifier@ && b@.unlocks[i].unlocked
            == b.unlock_events@[i].unlocked,
{
}

/// The model of a distribution holds the shares in order, each part under its own name.
pub proof fn law_reward_view(r: PosRewardEntry, i: int)
    requires
        0 <= i < r.account_rewards@.len(),
    ensures
        r@.epoch_hash == r.execution_epoch_hash@,
        r@.accounts.len() == r.account_rewards@.len(),
        r@.accounts[i].address == r.account_rewards@[i].address@,
        r@.accounts[i].identifier == r.account_rewards@[i].pos_identifier@,
        r@.accounts[i].reward == r.account_rewards@[i].reward@,
{
}

/// The model of a transaction holds each of its parts under its own name.
pub proof fn law_tx_view(t: SignedTransaction, i: int)
    ensures
        t@.identity == t.identity@,
        t@.sender == t.sender@,
        t@.kind == t.kind,
        t@.nonce == t.nonce@,
        t@.gas_price == t.gas_price@,
        t@.priority_price == t.max_priority_gas_price@,
        t@.gas == t.gas@,
        t.action is Create ==> t@.action is None,
        t.action matches Action::Call(to) ==> t@.action == Some(to@),
        t@.value == t.value@,
        t@.storage_limit == t.storage_limit,
        t@.epoch_height == t.epoch_height,
        t@.data == t.data@,
        t@.access_list.len() == t.access_list@.len(),
        0 <= i < t.access_list@.len() ==> t@.access_list[i].address == t.access_list@[i].address@
            && t@.access_list[i].keys.len() == t.access_list@[i].storage_keys@.len(),
        t@.authorizations.len() == t.authorization_list@.len(),
        0 <= i < t.authorization_list@.len() ==> {
            let (m, a) = (t@.authorizations[i], t.authorization_list@[i]);
            &&& m.chain_id == a.chain_id@
            &&& m.address == a.address@
            &&& m.nonce == a.nonce
            &&& m.y_parity == a.y_parity
            &&& m.r == a.r@
            &&& m.s == a.s@
        },
{
}

/// The model of a header, and of a block as it was read, hold each part under its own name.
pub proof fn law_raw_view(b: RawBlock, i: int)
    ensures
        b@.epoch == b.epoch,
        b@.hash == b.hash@,
        b@.flags == b.flags,
        b@.base_reward == b.reward.base_reward@,
        b@.total_reward == b.reward.total_reward@,
        b@.txs.len() == b.body@.len(),
        0 <= i < b.body@.len() ==> b@.txs[i] == b.body@[i]@,
        b@.header.height == b.header.height,
        b@.header.timestamp == b.header.timestamp,
        b@.header.adaptive == b.header.adaptive,
        b@.header.author == b.header.author@,
        b@.header.difficulty == b.header.difficulty@,
        b@.header.gas_limit == b.header.gas_limit@,
        b.header.base_price is None ==> b@.header.base_price is None,
        b.header.base_price matches Some((core, espace)) ==> b@.header.base_price == Some(
            (core@, espace@),
        ),
        b@.header.blame == b.header.blame,
        b@.header.state_root == b.header.deferred_state_root@,
        b@.header.receipts_root == b.header.deferred_receipts_root@,
        b@.header.logs_bloom == b.header.deferred_logs_bloom_hash@,
        b.header.pos_reference is None ==> b@.header.pos_reference is None,
        b.header.pos_reference matches Some(h) ==> b@.header.pos_reference == Some(h@),
{
}

/// The model of a key holds its space, its kind and its bytes.
pub proof fn law_key_view(k: StorageKeyWithSpace)
    ensures
        k@.space == k.space,
        k@.key == match k.key {
            StorageKey::Account(a) => KeyPart::Account(a@),
            StorageKey::StorageRoot(a) => KeyPart::StorageRoot(a@),
            StorageKey::Storage { address, storage_key } => KeyPart::Storage {
                address: address@,
                storage_key: storage_key@,
            },
            StorageKey::CodeRoot(a) => KeyPart::CodeRoot(a@),
            StorageKey::Code { address, code_hash } => KeyPart::Code {
                address: address@,
                code_hash: code_hash@,
            },
            StorageKey::DepositList(a) => KeyPart::DepositList(a@),
            StorageKey::VoteList(a) => KeyPart::VoteList(a@),
            StorageKey::Empty => KeyPart::Empty,
            StorageKey::AddressPrefix(p) => KeyPart::AddressPrefix(p@),
        },
{
}

/// A record is its value, or nothing where it is a tombstone, in memory and in a store.
pub proof fn law_record_view(r: MptValue, d: MptValueDisk)
    ensures
        r matches MptValue::Live(v) ==> r@ == Some(v@),
        r is Tombstone ==> r@ is None,
        d matches MptValueDisk::Live(v) ==> d@ == Some(v@),
        d is Tombstone ==> d@ is None,
{
}

/// The models of a persisted state, of a group of a container and of a finished group hold each
/// part under its own name.
pub proof fn law_stored_view(s: PersistedState, g: Group, o: PacketOut)
    ensures
        s@.snapshot == s.snapshot@,
        s@.intermediate == s.intermediate@,
        s@.delta == s.delta@,
        s@.intermediate_padding == s.intermediate_mpt_key_padding@,
        s@.delta_padding == s.delta_mpt_key_padding@,
        s@.height == s.height,
        s@.snapshot_epoch_count == s.snapshot_epoch_count,
        s@.last_root == s.last_root,
        g@.start_epoch == g.start_epoch,
        g@.epoch_count == g.epoch_count,
        g@.bytes == g.bytes@,
        o@.start_epoch == o.start_epoch,
        o@.epoch_count == o.epoch_count,
        o@.block_count == o.block_count,
        o@.transaction_count == o.transaction_count,
        o@.bytes == o.bytes@,
{
}

} // verus!
