//! What is read back of a packet that was written, field by field.
use crate::cfxpack::decode::decoded;
use crate::cfxpack::encode::{cleared, encoded, packet_restorable, written_flags};
use crate::cfxpack::packet::{PacketModel, TxKind};
use crate::cfxpack::record::hash_prefix;
use crate::cfxpack::roundtrip::{kept_block, kept_packet, law_packet_roundtrip, lemma_kept_same, load_of, readable, true_refs};
use crate::cfxpack::roundtrip_tx::{kept_nonce, kept_tx};
use crate::cfxpack::table::{last_index, lemma_last_index};
use crate::cfxpack::txform::base_of;
use crate::cfxpack::types::{be_value, lemma_be_value_bound, lemma_pow256, low_u64, word, zeros};
use vstd::prelude::*;

verus! {

/// The boundary, the minimums and the tables of a packet are read back as they were written,
/// the least PoS height in 32 bits, and there are as many blocks as were written.
pub proof fn law_head_read(p: PacketModel, pos_from: Option<u64>)
    requires
        readable(p, pos_from),
        packet_restorable(p),
        encoded(p) is Ok,
        encoded(p)->Ok_0.len() <= u64::MAX,
    ensures
        decoded(encoded(p)->Ok_0, pos_from) matches Ok(q) && {
            &&& q.prev_last_hash == p.prev_last_hash
            &&& q.prev_last_state_root == p.prev_last_state_root
            &&& q.first_block_number == p.first_block_number
            &&& q.min_timestamp == p.min_timestamp
            &&& q.min_height == p.min_height
            &&& q.min_pos_height == p.min_pos_height % 0x1_0000_0000
            &&& q.addresses == p.addresses
            &&& q.pos_entries == p.pos_entries
            &&& q.difficulties == p.difficulties
            &&& q.base_nonces == p.base_nonces
            &&& q.gas_prices == p.gas_prices
            &&& q.blocks.len() == p.blocks.len()
        },
{
    law_packet_roundtrip(p, pos_from);
}

/// A block is read back as it was written, with the first four bytes of its three roots and
/// zeros for the others. Its flags keep the low three bits and the high three.
pub proof fn law_block_read(p: PacketModel, pos_from: Option<u64>, k: int)
    requires
        readable(p, pos_from),
        packet_restorable(p),
        encoded(p) is Ok,
        encoded(p)->Ok_0.len() <= u64::MAX,
        0 <= k < p.blocks.len(),
    ensures
        decoded(encoded(p)->Ok_0, pos_from) matches Ok(q) && q.blocks.len() == p.blocks.len() && {
            let a = p.blocks[k];
            let b = q.blocks[k];
            &&& b.epoch == a.epoch
            &&& b.index == a.index
            &&& b.hash == a.hash
            &&& b.state_root.len() == 32 && b.receipts_root.len() == 32 && b.logs_bloom.len() == 32
            &&& b.state_root.take(4) == a.state_root.take(4)
            &&& b.receipts_root.take(4) == a.receipts_root.take(4)
            &&& b.logs_bloom.take(4) == a.logs_bloom.take(4)
            &&& forall|i: int| 4 <= i < 32 ==> #[trigger] b.state_root[i] == 0
            &&& forall|i: int| 4 <= i < 32 ==> #[trigger] b.receipts_root[i] == 0
            &&& forall|i: int| 4 <= i < 32 ==> #[trigger] b.logs_bloom[i] == 0
            &&& b.flags % 8 == a.flags % 8
            &&& b.flags / 32 == a.flags / 32
            &&& b.author == a.author
            &&& b.timestamp == a.timestamp
            &&& b.difficulty == a.difficulty
            &&& b.gas_limit == a.gas_limit
            &&& b.base_price_core == a.base_price_core
            &&& b.base_price_espace == a.base_price_espace
            &&& b.height == a.height
            &&& b.blame == a.blame
            &&& b.finalized_epoch == a.finalized_epoch
            &&& b.base_reward == a.base_reward
            &&& b.rewards == a.rewards
            &&& b.unlocks == a.unlocks
            &&& b.pos_view == a.pos_view
            &&& b.txs.len() == a.txs.len()
        },
{
    law_packet_roundtrip(p, pos_from);
    let q = kept_packet(p);
    let a = p.blocks[k];
    let b = q.blocks[k];
    assert(b == kept_block(p, k));
    assert(hash_prefix(a.state_root).take(4) =~= a.state_root.take(4));
    assert(hash_prefix(a.receipts_root).take(4) =~= a.receipts_root.take(4));
    assert(hash_prefix(a.logs_bloom).take(4) =~= a.logs_bloom.take(4));
    lemma_kept_flags(a.flags, load_of(p, k));
}

proof fn lemma_kept_flags(flags: u8, load: Seq<u8>)
    ensures
        written_flags(flags, load) % 8 == flags % 8,
        written_flags(flags, load) / 32 == flags / 32,
{
    let low = flags as int % 8;
    let high = flags as int / 32;
    assert(cleared(flags) == 32 * high + low);
}

/// A transaction is read back as it was written: its sender, type, price, call, value and
/// data, what else its type has, and the low 64 bits of its gas and of a nonce that no base
/// nonce of its sender exceeds.
pub proof fn law_tx_read(p: PacketModel, pos_from: Option<u64>, k: int, i: int)
    requires
        readable(p, pos_from),
        packet_restorable(p),
        true_refs(p),
        encoded(p) is Ok,
        encoded(p)->Ok_0.len() <= u64::MAX,
        0 <= k < p.blocks.len(),
        0 <= i < p.blocks[k].txs.len(),
    ensures
        decoded(encoded(p)->Ok_0, pos_from) matches Ok(q) && q.blocks.len() == p.blocks.len()
            && q.blocks[k].txs.len() == p.blocks[k].txs.len() && {
            let a = p.blocks[k].txs[i];
            let b = q.blocks[k].txs[i];
            &&& b.sender == a.sender
            &&& b.kind == a.kind
            &&& b.gas_price == a.gas_price
            &&& a.kind == TxKind::Cip1559 || a.kind == TxKind::Eip1559 || a.kind == TxKind::Eip7702
                ==> b.priority_price == a.priority_price
            &&& a.kind == TxKind::Cip155 || a.kind == TxKind::Cip2930 || a.kind == TxKind::Eip155
                || a.kind == TxKind::Eip2930 ==> b.priority_price == a.gas_price
            &&& b.gas == Seq::new(24, |j: int| 0u8) + a.gas.skip(24)
            &&& b.action == a.action
            &&& b.value == a.value
            &&& b.data == a.data
            &&& a.kind == TxKind::Cip155 || a.kind == TxKind::Cip2930 || a.kind == TxKind::Cip1559
                ==> b.storage_limit == a.storage_limit && b.epoch_height == a.epoch_height
            &&& a.kind == TxKind::Eip155 || a.kind == TxKind::Eip2930 || a.kind == TxKind::Eip1559
                || a.kind == TxKind::Eip7702 ==> b.storage_limit == 0 && b.epoch_height == 0
            &&& a.kind == TxKind::Cip155 || a.kind == TxKind::Eip155 ==> b.access_list.len() == 0
            &&& a.kind != TxKind::Cip155 && a.kind != TxKind::Eip155 ==> b.access_list
                == a.access_list
            &&& a.kind == TxKind::Eip7702 ==> b.authorizations == a.authorizations
            &&& a.kind != TxKind::Eip7702 ==> b.authorizations.len() == 0
            &&& p.addresses.contains(a.sender) && (forall|m: int|
                0 <= m < p.base_nonces.len() && (#[trigger] p.base_nonces[m]).0 < p.addresses.len()
                    && p.addresses[p.base_nonces[m].0 as int] == a.sender ==> p.base_nonces[m].1
                    <= be_value(a.nonce.skip(24))) ==> b.nonce == Seq::new(24, |j: int| 0u8)
                + a.nonce.skip(24)
        },
{
    law_packet_roundtrip(p, pos_from);
    let q = kept_packet(p);
    let a = p.blocks[k].txs[i];
    assert(q.blocks[k] == kept_block(p, k));
    lemma_kept_same(p, k, i);
    let b = q.blocks[k].txs[i];
    assert(b == kept_tx(p, a));
    assert(crate::cfxpack::roundtrip::block_parts_shape(p.blocks[k]));
    assert(crate::cfxpack::roundtrip_tx::tx_shape(a));
    lemma_low_word(a.gas);
    lemma_low_word(a.nonce);
    if p.addresses.contains(a.sender) && forall|m: int|
        0 <= m < p.base_nonces.len() && (#[trigger] p.base_nonces[m]).0 < p.addresses.len()
            && p.addresses[p.base_nonces[m].0 as int] == a.sender ==> p.base_nonces[m].1
            <= be_value(a.nonce.skip(24)) {
        lemma_place(p.addresses, a.sender);
        let s = last_index(p.addresses, a.sender)->0;
        lemma_last_index(p.addresses, a.sender);
        lemma_base_listed(p.base_nonces, s);
        assert(kept_nonce(p.base_nonces, s, low_u64(a.nonce)) == low_u64(a.nonce));
    }
}

proof fn lemma_low_word(w: Seq<u8>)
    requires
        w.len() == 32,
    ensures
        word(low_u64(w)) == Seq::new(24, |j: int| 0u8) + w.skip(24),
        low_u64(w) == be_value(w.skip(24)),
{
    let s = w.skip(24);
    lemma_be_value_bound(s);
    lemma_pow256();
    assert(word(low_u64(w)) =~= Seq::new(24, |j: int| 0u8) + s);
}

proof fn lemma_place(table: Seq<Seq<u8>>, v: Seq<u8>)
    requires
        table.contains(v),
    ensures
        last_index(table, v) is Some,
    decreases table.len(),
{
    if table.len() > 0 && table.last() != v {
        let i = choose|i: int| 0 <= i < table.len() && table[i] == v;
        assert(table.drop_last()[i] == v);
        lemma_place(table.drop_last(), v);
    }
}

proof fn lemma_base_listed(bases: Seq<(nat, u64)>, sender: nat)
    ensures
        base_of(bases, sender) matches Some(v) ==> exists|m: int|
            0 <= m < bases.len() && #[trigger] bases[m] == (sender, v),
    decreases bases.len(),
{
    if bases.len() > 0 {
        if bases.last().0 == sender {
            assert(bases[bases.len() - 1] == (sender, bases.last().1));
        } else {
            lemma_base_listed(bases.drop_last(), sender);
            if let Some(v) = base_of(bases.drop_last(), sender) {
                let m = choose|m: int|
                    0 <= m < bases.drop_last().len() && #[trigger] bases.drop_last()[m] == (
                        sender,
                        v,
                    );
                assert(bases[m] == (sender, v));
            }
        }
    }
}

} // verus!
