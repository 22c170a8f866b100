//! The lengths that the types of a packet's parts give them.
use crate::cfxpack::packet::{Block, Packet, SignedTransaction};
use crate::cfxpack::roundtrip::{block_parts_shape, packet_shape};
use crate::cfxpack::roundtrip_tx::{access_shape, authorization_shape, reward_account_shape, reward_shape, tx_shape};
use vstd::prelude::*;

verus! {

/// The types of a transaction give its parts their lengths.
proof fn lemma_tx_types(tx: SignedTransaction)
    requires
        tx.kind is Eip7702 ==> tx@.action is Some,
    ensures
        tx_shape(tx@),
{
    assert forall|i: int| 0 <= i < tx@.access_list.len() implies access_shape(
        #[trigger] tx@.access_list[i],
    ) by {
        let a = tx.access_list@[i];
        assert(tx@.access_list[i] == a@);
        assert forall|j: int| 0 <= j < a@.keys.len() implies (#[trigger] a@.keys[j]).len() == 32 by {
            assert(a@.keys[j] == a.storage_keys@[j]@);
        }
    }
    assert forall|i: int| 0 <= i < tx@.authorizations.len() implies authorization_shape(
        #[trigger] tx@.authorizations[i],
    ) by {
        assert(tx@.authorizations[i] == tx.authorization_list@[i]@);
    }
}

/// The types of a block give its parts their lengths.
proof fn lemma_block_types(b: Block)
    requires
        forall|i: int|
            0 <= i < b.transactions@.len() && (#[trigger] b.transactions@[i]).kind is Eip7702
                ==> b.transactions@[i]@.action is Some,
    ensures
        block_parts_shape(b@),
{
    assert(b.transactions.len() <= u64::MAX);
    assert forall|i: int| 0 <= i < b@.txs.len() implies tx_shape(#[trigger] b@.txs[i]) by {
        assert(b@.txs[i] == b.transactions@[i]@);
        lemma_tx_types(b.transactions@[i]);
    }
    assert forall|i: int| 0 <= i < b@.rewards.len() implies reward_shape(
        #[trigger] b@.rewards[i],
    ) by {
        let r = b.pos_rewards@[i];
        assert(b@.rewards[i] == r@);
        assert forall|j: int| 0 <= j < r@.accounts.len() implies reward_account_shape(
            #[trigger] r@.accounts[j],
        ) by {
            assert(r@.accounts[j] == r.account_rewards@[j]@);
        }
    }
    assert forall|i: int| 0 <= i < b@.unlocks.len() implies (
    #[trigger] b@.unlocks[i]).identifier.len() == 32 by {
        assert(b@.unlocks[i] == b.unlock_events@[i]@);
    }
}

/// Every packet has parts of the right lengths, because of their types. A transaction
/// that delegates accounts must call an address.
pub proof fn law_packet_shape(p: Packet)
    requires
        forall|k: int, i: int|
            #![trigger p.blocks@[k].transactions@[i]]
            0 <= k < p.blocks@.len() && 0 <= i < p.blocks@[k].transactions@.len()
                && p.blocks@[k].transactions@[i].kind is Eip7702
                ==> p.blocks@[k].transactions@[i]@.action is Some,
    ensures
        packet_shape(p@),
{
    assert(p.addresses.len() <= u64::MAX);
    assert(p.difficulties.len() <= u64::MAX);
    assert(p.gas_prices.len() <= u64::MAX);
    assert(p.blocks.len() <= u64::MAX);
    assert forall|i: int| 0 <= i < p@.addresses.len() implies (#[trigger] p@.addresses[i]).len()
        == 20 by {
        assert(p@.addresses[i] == p.addresses@[i]@);
    }
    assert forall|i: int| 0 <= i < p@.difficulties.len() implies (
    #[trigger] p@.difficulties[i]).len() == 32 by {
        assert(p@.difficulties[i] == p.difficulties@[i]@);
    }
    assert forall|i: int| 0 <= i < p@.gas_prices.len() implies (#[trigger] p@.gas_prices[i]).len()
        == 32 by {
        assert(p@.gas_prices[i] == p.gas_prices@[i]@);
    }
    assert forall|i: int| 0 <= i < p@.pos_entries.len() implies (
    #[trigger] p@.pos_entries[i]).hash.len() == 32 by {
        assert(p@.pos_entries[i] == p.pos_entries@[i]@);
    }
    assert forall|i: int| 0 <= i < p@.base_nonces.len() implies (#[trigger] p@.base_nonces[i]).0
        <= usize::MAX && p@.base_nonces[i].0 <= u64::MAX by {
        assert(p@.base_nonces[i] == p.sender_base_nonces@[i]@);
    }
    assert forall|k: int| 0 <= k < p@.blocks.len() implies block_parts_shape(
        #[trigger] p@.blocks[k],
    ) by {
        assert(p@.blocks[k] == p.blocks@[k]@);
        lemma_block_types(p.blocks@[k]);
    }
}

} // verus!
