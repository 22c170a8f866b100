//! What a packet holds: the blocks of a range of epochs, with their transactions
//! and the tables that these refer to.
use crate::cfxpack::types::{Address, U256};
use crate::types::H256;
use vstd::prelude::*;

verus! {

/// Number of epochs that a packet covers.
pub const PACKET_EPOCHS: u64 = 2000;

/// Length of the fixed fields of the header.
pub const HEADER_FIXED_LEN: usize = 93;

/// Number of offsets in the header.
pub const HEADER_OFFSET_COUNT: usize = 8;

/// Length of the header.
pub const HEADER_LEN: usize = 125;

pub const FLAG_ADAPTIVE: u8 = 1;

pub const FLAG_PIVOT: u8 = 2;

pub const FLAG_ESPACE: u8 = 4;

pub const FLAG_HAS_TRANSACTIONS: u8 = 8;

pub const FLAG_TX_COMPRESSED: u8 = 16;

pub const FLAG_SKIPPED_EXECUTION: u8 = 32;

/// Set when the total reward of the block, which is not its base reward, is zero.
pub const FLAG_ZERO_TOTAL_REWARD: u8 = 64;

/// The one flag bit that must be zero.
pub const FLAG_RESERVED: u8 = 128;

/// The blocks of a range of epochs and the tables that they refer to.
#[derive(Debug)]
pub struct Packet {
    pub prev_last_hash: H256,
    pub prev_last_deferred_state_root: H256,
    pub first_block_number: u64,
    pub min_timestamp: u64,
    pub min_height: u64,
    pub min_pos_height: u64,
    pub addresses: Vec<Address>,
    pub pos_entries: Vec<PosLookupEntry>,
    pub difficulties: Vec<U256>,
    pub sender_base_nonces: Vec<SenderBaseNonce>,
    pub gas_prices: Vec<U256>,
    pub blocks: Vec<Block>,
}

/// A PoS block and its height above the least PoS height of the packet.
#[derive(Clone, Copy, Debug)]
pub struct PosLookupEntry {
    pub hash: H256,
    pub height_offset: u16,
}

/// The nonce that a sender's transactions are counted from.
#[derive(Clone, Copy, Debug, PartialEq, Eq, Structural)]
pub struct SenderBaseNonce {
    pub sender_index: usize,
    pub base_nonce: u64,
}

/// One account's share of a PoS interest distribution.
#[derive(Clone, Copy, Debug)]
pub struct PosRewardAccount {
    pub address: Address,
    pub pos_identifier: H256,
    pub reward: U256,
}

/// A PoS interest distribution, applied when the epoch with the given pivot is settled.
#[derive(Debug)]
pub struct PosRewardEntry {
    pub account_rewards: Vec<PosRewardAccount>,
    pub execution_epoch_hash: H256,
}

/// The unlocking of the stake of a PoS node.
#[derive(Clone, Copy, Debug)]
pub struct UnlockEntry {
    pub identifier: H256,
    pub unlocked: u64,
}

/// What a transaction does: create a contract, or call an address.
#[derive(Clone, Copy, Debug)]
pub enum Action {
    Create,
    Call(Address),
}

/// The transaction types of the two spaces.
#[derive(Clone, Copy, Debug, PartialEq, Eq, Structural)]
pub enum TxKind {
    Cip155,
    Cip2930,
    Cip1559,
    Eip155,
    Eip2930,
    Eip1559,
    Eip7702,
}

/// An address with the storage keys that a transaction declares for it.
#[derive(Debug)]
pub struct AccessListItem {
    pub address: Address,
    pub storage_keys: Vec<H256>,
}

/// A signed delegation of an account to a contract.
#[derive(Clone, Copy, Debug)]
pub struct AuthorizationListItem {
    pub chain_id: U256,
    pub address: Address,
    pub nonce: u64,
    pub y_parity: u8,
    pub r: U256,
    pub s: U256,
}

/// A transaction with its sender.
///
/// `gas_price` is the maximum fee of the fee-market types. Fields that a type does
/// not have are not written to a packet. `identity` tells transactions apart. A node
/// knows a transaction by its hash, which covers the signature. A packet carries neither,
/// and a transaction that was read from one is known by the digest of its content.
#[derive(Debug)]
pub struct SignedTransaction {
    pub identity: H256,
    pub sender: Address,
    pub kind: TxKind,
    pub nonce: U256,
    pub gas_price: U256,
    pub max_priority_gas_price: U256,
    pub gas: U256,
    pub action: Action,
    pub value: U256,
    pub storage_limit: u64,
    pub epoch_height: u64,
    pub data: Vec<u8>,
    pub access_list: Vec<AccessListItem>,
    pub authorization_list: Vec<AuthorizationListItem>,
}

/// A block with its transactions.
///
/// `transaction_refs` says, where it has an entry for every transaction, which of
/// them repeat an earlier one, by block and place. `pos_view` is the height of the
/// PoS block that the block refers to.
#[derive(Debug)]
pub struct Block {
    pub epoch: u64,
    pub index: usize,
    pub hash: H256,
    pub deferred_state_root: H256,
    pub deferred_receipts_root: H256,
    pub deferred_logs_bloom_hash: H256,
    pub flags: u8,
    pub author: Address,
    pub timestamp: u64,
    pub difficulty: U256,
    pub gas_limit: U256,
    pub base_price_core: U256,
    pub base_price_espace: U256,
    pub height: u64,
    pub blame: u64,
    pub finalized_epoch: u64,
    pub base_reward: U256,
    pub transactions: Vec<SignedTransaction>,
    pub transaction_refs: Vec<Option<(usize, usize)>>,
    pub pos_rewards: Vec<PosRewardEntry>,
    pub unlock_events: Vec<UnlockEntry>,
    pub pos_view: Option<u64>,
}

/// What a [`PosLookupEntry`] holds.
pub struct PosLookupModel {
    pub hash: Seq<u8>,
    pub height_offset: u16,
}

/// What a [`PosRewardAccount`] holds.
pub struct RewardAccountModel {
    pub address: Seq<u8>,
    pub identifier: Seq<u8>,
    pub reward: Seq<u8>,
}

/// What a [`PosRewardEntry`] holds.
pub struct RewardModel {
    pub accounts: Seq<RewardAccountModel>,
    pub epoch_hash: Seq<u8>,
}

/// What an [`UnlockEntry`] holds.
pub struct UnlockModel {
    pub identifier: Seq<u8>,
    pub unlocked: u64,
}

/// What an [`AccessListItem`] holds.
pub struct AccessModel {
    pub address: Seq<u8>,
    pub keys: Seq<Seq<u8>>,
}

/// What an [`AuthorizationListItem`] holds.
pub struct AuthorizationModel {
    pub chain_id: Seq<u8>,
    pub address: Seq<u8>,
    pub nonce: u64,
    pub y_parity: u8,
    pub r: Seq<u8>,
    pub s: Seq<u8>,
}

/// What a [`SignedTransaction`] holds. The action is the called address, if any.
pub struct TxModel {
    pub identity: Seq<u8>,
    pub sender: Seq<u8>,
    pub kind: TxKind,
    pub nonce: Seq<u8>,
    pub gas_price: Seq<u8>,
    pub priority_price: Seq<u8>,
    pub gas: Seq<u8>,
    pub action: Option<Seq<u8>>,
    pub value: Seq<u8>,
    pub storage_limit: u64,
    pub epoch_height: u64,
    pub data: Seq<u8>,
    pub access_list: Seq<AccessModel>,
    pub authorizations: Seq<AuthorizationModel>,
}

/// What a [`Block`] holds.
pub struct BlockModel {
    pub epoch: u64,
    pub index: nat,
    pub hash: Seq<u8>,
    pub state_root: Seq<u8>,
    pub receipts_root: Seq<u8>,
    pub logs_bloom: Seq<u8>,
    pub flags: u8,
    pub author: Seq<u8>,
    pub timestamp: u64,
    pub difficulty: Seq<u8>,
    pub gas_limit: Seq<u8>,
    pub base_price_core: Seq<u8>,
    pub base_price_espace: Seq<u8>,
    pub height: u64,
    pub blame: u64,
    pub finalized_epoch: u64,
    pub base_reward: Seq<u8>,
    pub txs: Seq<TxModel>,
    pub refs: Seq<Option<(nat, nat)>>,
    pub rewards: Seq<RewardModel>,
    pub unlocks: Seq<UnlockModel>,
    pub pos_view: Option<u64>,
}

/// What a [`Packet`] holds.
pub struct PacketModel {
    pub prev_last_hash: Seq<u8>,
    pub prev_last_state_root: Seq<u8>,
    pub first_block_number: u64,
    pub min_timestamp: u64,
    pub min_height: u64,
    pub min_pos_height: u64,
    pub addresses: Seq<Seq<u8>>,
    pub pos_entries: Seq<PosLookupModel>,
    pub difficulties: Seq<Seq<u8>>,
    pub base_nonces: Seq<(nat, u64)>,
    pub gas_prices: Seq<Seq<u8>>,
    pub blocks: Seq<BlockModel>,
}

impl View for PosLookupEntry {
    type V = PosLookupModel;

    open spec fn view(&self) -> PosLookupModel {
        PosLookupModel { hash: self.hash@, height_offset: self.height_offset }
    }
}

impl View for SenderBaseNonce {
    type V = (nat, u64);

    open spec fn view(&self) -> (nat, u64) {
        (self.sender_index as nat, self.base_nonce)
    }
}

impl View for PosRewardAccount {
    type V = RewardAccountModel;

    open spec fn view(&self) -> RewardAccountModel {
        RewardAccountModel {
            address: self.address@,
            identifier: self.pos_identifier@,
            reward: self.reward@,
        }
    }
}

impl View for PosRewardEntry {
    type V = RewardModel;

    open spec fn view(&self) -> RewardModel {
        RewardModel {
            accounts: views(self.account_rewards@),
            epoch_hash: self.execution_epoch_hash@,
        }
    }
}

impl View for UnlockEntry {
    type V = UnlockModel;

    open spec fn view(&self) -> UnlockModel {
        UnlockModel { identifier: self.identifier@, unlocked: self.unlocked }
    }
}

impl View for Action {
    type V = Option<Seq<u8>>;

    open spec fn view(&self) -> Option<Seq<u8>> {
        match *self {
            Action::Create => None,
            Action::Call(address) => Some(address@),
        }
    }
}

impl View for AccessListItem {
    type V = AccessModel;

    open spec fn view(&self) -> AccessModel {
        AccessModel { address: self.address@, keys: views(self.storage_keys@) }
    }
}

impl View for AuthorizationListItem {
    type V = AuthorizationModel;

    open spec fn view(&self) -> AuthorizationModel {
        AuthorizationModel {
            chain_id: self.chain_id@,
            address: self.address@,
            nonce: self.nonce,
            y_parity: self.y_parity,
            r: self.r@,
            s: self.s@,
        }
    }
}

/// The views of a list of values.
pub open spec fn views<T: View>(s: Seq<T>) -> Seq<T::V> {
    Seq::new(s.len(), |i: int| s[i]@)
}

impl View for SignedTransaction {
    type V = TxModel;

    open spec fn view(&self) -> TxModel {
        TxModel {
            identity: self.identity@,
            sender: self.sender@,
            kind: self.kind,
            nonce: self.nonce@,
            gas_price: self.gas_price@,
            priority_price: self.max_priority_gas_price@,
            gas: self.gas@,
            action: self.action@,
            value: self.value@,
            storage_limit: self.storage_limit,
            epoch_height: self.epoch_height,
            data: self.data@,
            access_list: views(self.access_list@),
            authorizations: views(self.authorization_list@),
        }
    }
}

/// References to earlier transactions, in numbers.
pub open spec fn ref_views(s: Seq<Option<(usize, usize)>>) -> Seq<Option<(nat, nat)>> {
    Seq::new(
        s.len(),
        |i: int|
            match s[i] {
                Some((b, t)) => Some((b as nat, t as nat)),
                None => None,
            },
    )
}

impl View for Block {
    type V = BlockModel;

    open spec fn view(&self) -> BlockModel {
        BlockModel {
            epoch: self.epoch,
            index: self.index as nat,
            hash: self.hash@,
            state_root: self.deferred_state_root@,
            receipts_root: self.deferred_receipts_root@,
            logs_bloom: self.deferred_logs_bloom_hash@,
            flags: self.flags,
            author: self.author@,
            timestamp: self.timestamp,
            difficulty: self.difficulty@,
            gas_limit: self.gas_limit@,
            base_price_core: self.base_price_core@,
            base_price_espace: self.base_price_espace@,
            height: self.height,
            blame: self.blame,
            finalized_epoch: self.finalized_epoch,
            base_reward: self.base_reward@,
            txs: views(self.transactions@),
            refs: ref_views(self.transaction_refs@),
            rewards: views(self.pos_rewards@),
            unlocks: views(self.unlock_events@),
            pos_view: self.pos_view,
        }
    }
}

impl View for Packet {
    type V = PacketModel;

    open spec fn view(&self) -> PacketModel {
        PacketModel {
            prev_last_hash: self.prev_last_hash@,
            prev_last_state_root: self.prev_last_deferred_state_root@,
            first_block_number: self.first_block_number,
            min_timestamp: self.min_timestamp,
            min_height: self.min_height,
            min_pos_height: self.min_pos_height,
            addresses: views(self.addresses@),
            pos_entries: views(self.pos_entries@),
            difficulties: views(self.difficulties@),
            base_nonces: views(self.sender_base_nonces@),
            gas_prices: views(self.gas_prices@),
            blocks: views(self.blocks@),
        }
    }
}

impl TxKind {
    /// Whether the type belongs to the native space.
    pub open spec fn is_native(self) -> bool {
        self is Cip155 || self is Cip2930 || self is Cip1559
    }

    /// The number of the type in its space.
    pub open spec fn number(self) -> nat {
        match self {
            TxKind::Cip155 => 0,
            TxKind::Cip2930 => 1,
            TxKind::Cip1559 => 2,
            TxKind::Eip155 => 0,
            TxKind::Eip2930 => 1,
            TxKind::Eip1559 => 2,
            TxKind::Eip7702 => 4,
        }
    }

    /// Whether transactions of the type have an access list.
    pub open spec fn lists_access(self) -> bool {
        !(self is Cip155 || self is Eip155)
    }

    /// Whether transactions of the type have a priority fee of their own.
    pub open spec fn has_priority(self) -> bool {
        self is Cip1559 || self is Eip1559 || self is Eip7702
    }

    /// Whether the type belongs to the native space.
    pub fn native(&self) -> (r: bool)
        ensures
            r == self.is_native(),
    {
        matches!(self, TxKind::Cip155 | TxKind::Cip2930 | TxKind::Cip1559)
    }

    /// The number of the type in its space.
    pub fn type_id(&self) -> (r: u64)
        ensures
            r == self.number(),
    {
        match self {
            TxKind::Cip155 => 0,
            TxKind::Cip2930 => 1,
            TxKind::Cip1559 => 2,
            TxKind::Eip155 => 0,
            TxKind::Eip2930 => 1,
            TxKind::Eip1559 => 2,
            TxKind::Eip7702 => 4,
        }
    }

    /// Whether transactions of the type have an access list.
    pub fn has_access_list(&self) -> (r: bool)
        ensures
            r == self.lists_access(),
    {
        !matches!(self, TxKind::Cip155 | TxKind::Eip155)
    }

    /// Whether transactions of the type have a priority fee of their own.
    pub fn has_priority_fee(&self) -> (r: bool)
        ensures
            r == self.has_priority(),
    {
        matches!(self, TxKind::Cip1559 | TxKind::Eip1559 | TxKind::Eip7702)
    }
}

} // verus!
