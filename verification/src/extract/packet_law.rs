//! What a packet that was extracted holds of the blocks that it was made of.
use crate::cfxpack::packet::{views, RewardModel, TxKind, TxModel};
use crate::extract::blocks::{heights, law_least, least, timestamps, BlockCollector, RawModel};
use crate::extract::frequency::{distinct, ranking};
use crate::extract::packet::{finalized_offset, least_view, packet_fault, packet_of, unlocks_of, EpochUnlocks, PrevBoundary};
use crate::extract::table_law::{law_parties, law_pos_lookup, law_prices};
use crate::extract::tables::{base_table, pos_lookup, price_table};
use vstd::prelude::*;

verus! {

/// A packet has one block for each block that was collected, in the same order, and each
/// carries the fields of its own header: the roots of its state and receipts, the hash of its
/// logs, its author, timestamp, height, blame, difficulty, gas limit and both base prices,
/// which are zero where the header has none. Epoch, hash, flags, base reward and transactions
/// are those that were collected.
pub proof fn law_packet_block(
    enable: u64,
    boundary: PrevBoundary,
    c: BlockCollector,
    rewards: Map<Seq<u8>, RewardModel>,
    unlocks: Seq<EpochUnlocks>,
    i: int,
)
    requires
        0 <= i < c.blocks@.len(),
    ensures
        packet_of(enable, boundary, c, rewards, unlocks).blocks.len() == c.blocks@.len(),
        ({
            let b = packet_of(enable, boundary, c, rewards, unlocks).blocks[i];
            let raw = c.blocks@[i];
            &&& b.state_root == raw.header.deferred_state_root@
            &&& b.receipts_root == raw.header.deferred_receipts_root@
            &&& b.logs_bloom == raw.header.deferred_logs_bloom_hash@
            &&& b.author == raw.header.author@
            &&& b.timestamp == raw.header.timestamp
            &&& b.height == raw.header.height
            &&& b.blame == raw.header.blame
            &&& b.difficulty == raw.header.difficulty@
            &&& b.gas_limit == raw.header.gas_limit@
            &&& match raw.header.base_price {
                Some((core, espace)) => b.base_price_core == core@ && b.base_price_espace
                    == espace@,
                None => {
                    &&& b.base_price_core == Seq::new(32, |k: int| 0u8)
                    &&& b.base_price_espace == Seq::new(32, |k: int| 0u8)
                },
            }
            &&& b.epoch == raw.epoch
            &&& b.index == i
            &&& b.hash == raw.hash@
            &&& b.flags == raw.flags
            &&& b.base_reward == raw.reward.base_reward@
            &&& b.txs.len() == raw.body@.len()
            &&& forall|j: int| 0 <= j < raw.body@.len() ==> #[trigger] b.txs[j] == raw.body@[j]@
            &&& b.refs.len() == 0
        }),
{
    let all = views(c.blocks@);
    assert(all[i] == c.blocks@[i]@);
}

/// A block refers to the PoS block that its header names, from the enabling height on. The
/// view of that PoS block is the block's, and the finalized epoch is as far back as the
/// height of the pivot that was decided on lies below the block's epoch.
pub proof fn law_packet_pos(
    enable: u64,
    boundary: PrevBoundary,
    c: BlockCollector,
    rewards: Map<Seq<u8>, RewardModel>,
    unlocks: Seq<EpochUnlocks>,
    i: int,
)
    requires
        0 <= i < c.blocks@.len(),
        packet_fault(enable, c) is None,
    ensures
        ({
            let b = packet_of(enable, boundary, c, rewards, unlocks).blocks[i];
            let raw = c.blocks@[i];
            match raw.header.pos_reference {
                Some(hash) => if raw.header.height >= enable {
                    &&& c.pos_blocks@.contains_key(hash@)
                    &&& b.pos_view == Some(c.pos_blocks@[hash@].view)
                    &&& raw.epoch >= c.pos_blocks@[hash@].pivot_height ==> b.finalized_epoch
                        + c.pos_blocks@[hash@].pivot_height == raw.epoch
                    &&& raw.epoch < c.pos_blocks@[hash@].pivot_height ==> b.finalized_epoch == 0
                } else {
                    b.pos_view is None && b.finalized_epoch == 0
                },
                None => b.pos_view is None && b.finalized_epoch == 0,
            }
        }),
{
    let all = views(c.blocks@);
    assert(all[i] == c.blocks@[i]@);
    assert(finalized_offset(all[i], c.pos_blocks@, enable) is Ok);
}

/// The list that stands for an epoch is the last one given for it that is not empty.
proof fn lemma_unlocks_of(lists: Seq<EpochUnlocks>, epoch: u64)
    ensures
        match unlocks_of(lists, epoch) {
            Some(events) => exists|k: int|
                {
                    &&& 0 <= k < lists.len()
                    &&& (#[trigger] lists[k]).epoch == epoch
                    &&& lists[k].events@.len() > 0
                    &&& events == views(lists[k].events@)
                    &&& forall|l: int|
                        k < l < lists.len() ==> (#[trigger] lists[l]).epoch != epoch
                            || lists[l].events@.len() == 0
                },
            None => forall|l: int|
                0 <= l < lists.len() ==> (#[trigger] lists[l]).epoch != epoch
                    || lists[l].events@.len() == 0,
        },
    decreases lists.len(),
{
    if lists.len() > 0 {
        let n = lists.len() as int;
        let front = lists.drop_last();
        assert(lists[n - 1] == lists.last());
        if !(lists.last().epoch == epoch && lists.last().events@.len() > 0) {
            lemma_unlocks_of(front, epoch);
            assert forall|l: int| 0 <= l < n - 1 implies front[l] == #[trigger] lists[l] by {}
            if unlocks_of(front, epoch) is Some {
                let k = choose|k: int|
                    {
                        &&& 0 <= k < front.len()
                        &&& (#[trigger] front[k]).epoch == epoch
                        &&& front[k].events@.len() > 0
                        &&& unlocks_of(front, epoch)->0 == views(front[k].events@)
                        &&& forall|l: int|
                            k < l < front.len() ==> (#[trigger] front[l]).epoch != epoch
                                || front[l].events@.len() == 0
                    };
                assert(lists[k] == front[k]);
                assert forall|l: int| k < l < lists.len() implies (#[trigger] lists[l]).epoch
                    != epoch || lists[l].events@.len() == 0 by {
                    if l < n - 1 {
                        assert(front[l] == lists[l]);
                    }
                }
            }
        }
    }
}

/// A block holds the PoS rewards that stand under its own hash, and no others. A pivot block,
/// whose second flag bit is set, holds the unlock events of its epoch: the last list given
/// for the epoch that is not empty. Other blocks hold none.
pub proof fn law_packet_events(
    enable: u64,
    boundary: PrevBoundary,
    c: BlockCollector,
    rewards: Map<Seq<u8>, RewardModel>,
    unlocks: Seq<EpochUnlocks>,
    i: int,
    k: int,
)
    requires
        0 <= i < c.blocks@.len(),
    ensures
        ({
            let b = packet_of(enable, boundary, c, rewards, unlocks).blocks[i];
            let raw = c.blocks@[i];
            let pivot = (raw.flags as int / 2) % 2 == 1;
            &&& rewards.contains_key(raw.hash@) ==> b.rewards == seq![rewards[raw.hash@]]
            &&& !rewards.contains_key(raw.hash@) ==> b.rewards.len() == 0
            &&& !pivot ==> b.unlocks.len() == 0
            &&& pivot && 0 <= k < unlocks.len() && unlocks[k].epoch == raw.epoch
                && unlocks[k].events@.len() > 0 && (forall|l: int|
                k < l < unlocks.len() ==> (#[trigger] unlocks[l]).epoch != raw.epoch
                    || unlocks[l].events@.len() == 0) ==> b.unlocks == views(unlocks[k].events@)
            &&& (forall|l: int|
                0 <= l < unlocks.len() ==> (#[trigger] unlocks[l]).epoch != raw.epoch
                    || unlocks[l].events@.len() == 0) ==> b.unlocks.len() == 0
        }),
{
    let all = views(c.blocks@);
    let raw = c.blocks@[i];
    let b = packet_of(enable, boundary, c, rewards, unlocks).blocks[i];
    assert(all[i] == raw@);
    lemma_unlocks_of(unlocks, raw.epoch);
    if rewards.contains_key(raw.hash@) {
        assert(b.rewards =~= seq![rewards[raw.hash@]]);
    }
    if 0 <= k < unlocks.len() && unlocks[k].epoch == raw.epoch && unlocks[k].events@.len() > 0 && (
    forall|l: int|
        k < l < unlocks.len() ==> (#[trigger] unlocks[l]).epoch != raw.epoch
            || unlocks[l].events@.len() == 0) {
        assert(unlocks_of(unlocks, raw.epoch) is Some);
        let m = choose|m: int|
            {
                &&& 0 <= m < unlocks.len()
                &&& (#[trigger] unlocks[m]).epoch == raw.epoch
                &&& unlocks[m].events@.len() > 0
                &&& unlocks_of(unlocks, raw.epoch)->0 == views(unlocks[m].events@)
                &&& forall|l: int|
                    m < l < unlocks.len() ==> (#[trigger] unlocks[l]).epoch != raw.epoch
                        || unlocks[l].events@.len() == 0
            };
        assert(m == k) by {
            if m < k {
                assert(unlocks[k].epoch != raw.epoch || unlocks[k].events@.len() == 0);
            }
            if k < m {
                assert(unlocks[m].epoch != raw.epoch || unlocks[m].events@.len() == 0);
            }
        }
    }
}

/// A packet opens with what lies before its range. Its least timestamp and height are those
/// of some block, and no block lies below them. Where no PoS block was heard of, its least
/// PoS height is zero; else it is the least view.
pub proof fn law_packet_head(
    enable: u64,
    boundary: PrevBoundary,
    c: BlockCollector,
    rewards: Map<Seq<u8>, RewardModel>,
    unlocks: Seq<EpochUnlocks>,
)
    ensures
        ({
            let p = packet_of(enable, boundary, c, rewards, unlocks);
            &&& p.prev_last_hash == boundary.prev_last_hash@
            &&& p.prev_last_state_root == boundary.prev_last_deferred_state_root@
            &&& p.first_block_number == boundary.first_block_number
            &&& forall|i: int|
                0 <= i < c.blocks@.len() ==> p.min_timestamp <= (
                #[trigger] c.blocks@[i]).header.timestamp && p.min_height
                    <= c.blocks@[i].header.height
            &&& c.blocks@.len() > 0 ==> exists|i: int|
                0 <= i < c.blocks@.len() && (#[trigger] c.blocks@[i]).header.timestamp
                    == p.min_timestamp
            &&& c.blocks@.len() > 0 ==> exists|i: int|
                0 <= i < c.blocks@.len() && (#[trigger] c.blocks@[i]).header.height
                    == p.min_height
            &&& c.blocks@.len() == 0 ==> p.min_timestamp == u64::MAX && p.min_height == u64::MAX
            &&& c.views@.len() == 0 ==> p.min_pos_height == 0
            &&& forall|i: int| 0 <= i < c.views@.len() ==> p.min_pos_height <= #[trigger] c.views@[i]
            &&& (exists|i: int| 0 <= i < c.views@.len() && #[trigger] c.views@[i] < u64::MAX)
                ==> c.views@.contains(p.min_pos_height)
        }),
{
    let all = views(c.blocks@);
    let p = packet_of(enable, boundary, c, rewards, unlocks);
    law_least(timestamps(all));
    law_least(heights(all));
    law_least(c.views@);
    assert forall|i: int| 0 <= i < c.blocks@.len() implies p.min_timestamp <= (
    #[trigger] c.blocks@[i]).header.timestamp && p.min_height <= c.blocks@[i].header.height by {
        assert(all[i] == c.blocks@[i]@);
        assert(timestamps(all)[i] == c.blocks@[i].header.timestamp);
        assert(heights(all)[i] == c.blocks@[i].header.height);
    }
    if c.blocks@.len() > 0 {
        let t = choose|t: int|
            0 <= t < timestamps(all).len() && timestamps(all)[t] == least(timestamps(all));
        assert(all[t] == c.blocks@[t]@);
        assert(c.blocks@[t].header.timestamp == p.min_timestamp);
        let h = choose|h: int| 0 <= h < heights(all).len() && heights(all)[h] == least(heights(all));
        assert(all[h] == c.blocks@[h]@);
        assert(c.blocks@[h].header.height == p.min_height);
    }
}

/// The tables of a packet are those of its own blocks: the addresses that they name by rank, their
/// different difficulties, the frequent ones among the prices that they name, and the base nonces
/// of their senders.
pub proof fn law_packet_tables(
    enable: u64,
    boundary: PrevBoundary,
    c: BlockCollector,
    rewards: Map<Seq<u8>, RewardModel>,
    unlocks: Seq<EpochUnlocks>,
)
    ensures
        ({
            let p = packet_of(enable, boundary, c, rewards, unlocks);
            let all = views(c.blocks@);
            &&& p.addresses == ranking(
                all.map_values(
                    |b: RawModel|
                        seq![b.header.author] + b.txs.map_values(
                            |t: TxModel|
                                match t.action {
                                    Some(a) => seq![t.sender, a],
                                    None => seq![t.sender],
                                },
                        ).flatten(),
                ).flatten(),
            )
            &&& p.difficulties == distinct(all.map_values(|b: RawModel| b.header.difficulty))
            &&& p.gas_prices == price_table(
                all.map_values(
                    |b: RawModel|
                        (match b.header.base_price {
                            Some((core, espace)) => seq![core, espace],
                            None => Seq::empty(),
                        }) + b.txs.map_values(
                            |t: TxModel|
                                match t.kind {
                                    TxKind::Cip1559 => seq![t.gas_price, t.priority_price],
                                    TxKind::Eip1559 => seq![t.gas_price, t.priority_price],
                                    TxKind::Eip7702 => seq![t.gas_price, t.priority_price],
                                    _ => seq![t.gas_price, t.gas_price],
                                },
                        ).flatten(),
                ).flatten(),
            )
            &&& p.base_nonces == base_table(all, p.addresses, p.addresses.len() as int)
        }),
{
    let all = views(c.blocks@);
    law_parties(all);
    law_prices(all);
    assert(crate::extract::tables::difficulties(all) =~= all.map_values(
        |b: RawModel| b.header.difficulty,
    ));
}

/// A packet can be made of the blocks where every PoS block that they refer to, from the enabling
/// height on, is known and has a view that lies at most 65535 above the least.
pub proof fn law_packet_owed(enable: u64, c: BlockCollector)
    ensures
        packet_fault(enable, c) is None <==> forall|i: int|
            0 <= i < c.blocks@.len() && (#[trigger] c.blocks@[i]).header.height >= enable ==> (
            c.blocks@[i].header.pos_reference matches Some(hash) ==> {
                &&& c.pos_blocks@.contains_key(hash@)
                &&& least_view(c.views@) <= c.pos_blocks@[hash@].view <= least_view(c.views@)
                    + 65535
            }),
{
    let all = views(c.blocks@);
    let n = all.len() as int;
    let known = c.pos_blocks@;
    let low = least_view(c.views@);
    law_pos_lookup(all, known, low, enable, n);
    assert forall|i: int| 0 <= i < n implies #[trigger] all[i] == c.blocks@[i]@ by {}
    if packet_fault(enable, c) is None {
        let entries = pos_lookup(all, known, low, enable, n)->Ok_0;
        assert forall|i: int|
            0 <= i < c.blocks@.len() && (#[trigger] c.blocks@[i]).header.height >= enable implies (
        c.blocks@[i].header.pos_reference matches Some(hash) ==> {
            &&& known.contains_key(hash@)
            &&& low <= known[hash@].view <= low + 65535
        }) by {
            if let Some(hash) = c.blocks@[i].header.pos_reference {
                assert(all[i].header.height >= enable);
                assert(all[i].header.pos_reference == Some(hash@));
                let k = choose|k: int| 0 <= k < entries.len() && #[trigger] entries[k].hash == hash@;
                assert(entries[k].height_offset + low == known[entries[k].hash].view);
            }
        }
    }
    if forall|i: int|
        0 <= i < c.blocks@.len() && (#[trigger] c.blocks@[i]).header.height >= enable ==> (
        c.blocks@[i].header.pos_reference matches Some(hash) ==> {
            &&& known.contains_key(hash@)
            &&& low <= known[hash@].view <= low + 65535
        }) {
        if let Err(e) = pos_lookup(all, known, low, enable, n) {
            let i = choose|i: int|
                0 <= i < n && (#[trigger] all[i]).header.height >= enable && (
                all[i].header.pos_reference matches Some(hash) && {
                    ||| e == crate::extract::blocks::ExtractError::MissingCommitted
                        && !known.contains_key(hash)
                    ||| e == crate::extract::blocks::ExtractError::PosViewBelowMin
                        && known.contains_key(hash) && known[hash].view < low
                    ||| e == crate::extract::blocks::ExtractError::PosOffsetTooLarge
                        && known.contains_key(hash) && known[hash].view > low + 65535
                });
            assert(c.blocks@[i].header.height >= enable);
        }
        assert(crate::extract::packet::all_known(all, known, enable)) by {
            assert forall|i: int| 0 <= i < all.len() implies finalized_offset(
                #[trigger] all[i],
                known,
                enable,
            ) is Ok by {
                assert(all[i] == c.blocks@[i]@);
                assert(c.blocks@[i].header.height >= enable || c.blocks@[i].header.height < enable);
            }
        }
    }
}

} // verus!
