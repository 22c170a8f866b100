//! Where the parts of a container stand in its bytes, and which packets and bytes are sound.
use crate::cfxpack::container::{container, contiguous, directory, directory_fault, entry_at, group_offset, header_bytes, law_container_roundtrip, lemma_directory_len, lemma_written_entry, EntryModel, GroupModel};
use crate::cfxpack::decode::decoded;
use crate::cfxpack::encode::{flag, group_fault, groups_fault, input_fault, lemma_next_pivot, next_pivot};
use crate::cfxpack::error::PackError;
use crate::cfxpack::packet::{BlockModel, FLAG_PIVOT, FLAG_RESERVED, PacketModel};
use crate::cfxpack::types::{le_value, lemma_le_value_bound, lemma_pow256};
use crate::cfxpack::verify::{law_readable_verifies, payload_blocks, total_txs, verified};
use crate::plan_law::ends_epoch;
use vstd::prelude::*;

verus! {

/// A container starts with "CFXPACK1", its version 1, the number of its groups, the low 32 bits
/// of its epochs, and zero. An entry of 32 bytes for each group follows: first epoch, number of
/// epochs, place and length of its packet. The packets follow without a gap.
pub proof fn law_container_bytes(groups: Seq<GroupModel>, shard_epochs: u64, i: int)
    requires
        container(groups, shard_epochs) is Ok,
        0 <= i < groups.len(),
    ensures
        ({
            let data = container(groups, shard_epochs)->Ok_0;
            let at = 24 + 32 * i;
            let from = le_value(data.subrange(at + 16, at + 24)) as int;
            let g = groups[i];
            &&& data.subrange(0, 8) == seq![0x43u8, 0x46, 0x58, 0x50, 0x41, 0x43, 0x4b, 0x31]
            &&& le_value(data.subrange(8, 12)) == 1
            &&& le_value(data.subrange(12, 16)) == groups.len()
            &&& le_value(data.subrange(16, 20)) == shard_epochs % 0x1_0000_0000
            &&& le_value(data.subrange(20, 24)) == 0
            &&& le_value(data.subrange(at, at + 8)) == g.start_epoch
            &&& le_value(data.subrange(at + 8, at + 16)) == g.epoch_count
            &&& le_value(data.subrange(at + 24, at + 32)) == g.bytes.len()
            &&& data.subrange(from, from + g.bytes.len()) == g.bytes
            &&& i == 0 ==> from == 24 + 32 * groups.len()
            &&& i + 1 < groups.len() ==> le_value(data.subrange(at + 48, at + 56)) == from
                + g.bytes.len()
            &&& i + 1 == groups.len() ==> data.len() == from + g.bytes.len()
        }),
{
    let data = container(groups, shard_epochs)->Ok_0;
    let n = groups.len() as int;
    law_container_roundtrip(groups, shard_epochs);
    lemma_header_numbers(groups.len(), shard_epochs);
    lemma_directory_len(groups, n);
    let head = header_bytes(groups.len(), shard_epochs);
    assert forall|k: int| 0 <= k < 24 implies data[k] == #[trigger] head[k] by {}
    assert(data.subrange(0, 8) =~= head.subrange(0, 8));
    assert(data.subrange(8, 12) =~= head.subrange(8, 12));
    assert(data.subrange(12, 16) =~= head.subrange(12, 16));
    assert(data.subrange(16, 20) =~= head.subrange(16, 20));
    assert(data.subrange(20, 24) =~= head.subrange(20, 24));
    lemma_written_entry(groups, shard_epochs, i);
    lemma_le_value_bound(data.subrange(24 + 32 * i, 24 + 32 * i + 8));
    lemma_le_value_bound(data.subrange(24 + 32 * i + 8, 24 + 32 * i + 16));
    lemma_pow256();
    let entries = directory(data)->Ok_0;
    assert(entries[i] == entry_at(data, i));
    if i + 1 < n {
        lemma_written_entry(groups, shard_epochs, i + 1);
        assert(entries[i + 1] == entry_at(data, i + 1));
        assert(entry_at(data, i + 1).offset == group_offset(groups, i + 1));
        assert(24 + 32 * (i + 1) + 16 == 24 + 32 * i + 48);
    }
}

proof fn lemma_header_numbers(count: nat, shard_epochs: u64)
    requires
        count <= u32::MAX,
    ensures
        ({
            let head = header_bytes(count, shard_epochs);
            &&& head.len() == 24
            &&& head.subrange(0, 8) == seq![0x43u8, 0x46, 0x58, 0x50, 0x41, 0x43, 0x4b, 0x31]
            &&& le_value(head.subrange(8, 12)) == 1
            &&& le_value(head.subrange(12, 16)) == count
            &&& le_value(head.subrange(16, 20)) == shard_epochs % 0x1_0000_0000
            &&& le_value(head.subrange(20, 24)) == 0
        }),
{
    use_le(1);
    use_le(count);
    use_le(shard_epochs as nat % 0x1_0000_0000);
    use_le(0);
    let head = header_bytes(count, shard_epochs);
    assert(head.subrange(0, 8) =~= seq![0x43u8, 0x46, 0x58, 0x50, 0x41, 0x43, 0x4b, 0x31]);
    assert(head.subrange(8, 12) =~= crate::cfxpack::types::le_bytes(1, 4));
    assert(head.subrange(12, 16) =~= crate::cfxpack::types::le_bytes(count, 4));
    assert(head.subrange(16, 20) =~= crate::cfxpack::types::le_bytes(
        shard_epochs as nat % 0x1_0000_0000,
        4,
    ));
    assert(head.subrange(20, 24) =~= crate::cfxpack::types::le_bytes(0, 4));
}

proof fn use_le(v: nat)
    requires
        v <= u32::MAX,
    ensures
        crate::cfxpack::types::le_bytes(v, 4).len() == 4,
        le_value(crate::cfxpack::types::le_bytes(v, 4)) == v,
{
    lemma_pow256();
    crate::cfxpack::types::lemma_le_bytes(v, 4);
}

/// Bytes have a directory exactly where they are 24 or more, start with "CFXPACK1", hold as
/// many entries as they tell, and every entry leads to bytes that are there.
pub proof fn law_directory(data: Seq<u8>)
    ensures
        ({
            let count = le_value(data.subrange(12, 16)) as int;
            let sound = data.len() >= 24 && data.subrange(0, 8) == seq![
                0x43u8, 0x46, 0x58, 0x50, 0x41, 0x43, 0x4b, 0x31,
            ];
            &&& directory(data) is Ok <==> sound && forall|i: int|
                0 <= i < count ==> #[trigger] entry_fits(data, i)
            &&& directory(data) == Err::<Seq<EntryModel>, PackError>(PackError::NotContainer)
                <==> !sound
            &&& directory(data) matches Ok(entries) ==> entries.len() == count && forall|i: int|
                0 <= i < count ==> {
                    let e = #[trigger] entries[i];
                    let at = 24 + 32 * i;
                    &&& e.start_epoch == le_value(data.subrange(at, at + 8))
                    &&& e.epoch_count == le_value(data.subrange(at + 8, at + 16))
                    &&& e.offset == le_value(data.subrange(at + 16, at + 24))
                    &&& e.length == le_value(data.subrange(at + 24, at + 32))
                }
        }),
{
    let count = le_value(data.subrange(12, 16)) as int;
    assert(data.subrange(0, 8) =~= data.take(8));
    lemma_directory_sound(data, 0, count);
    if let Ok(entries) = directory(data) {
        lemma_pow256();
        assert forall|i: int| 0 <= i < count implies {
            let e = #[trigger] entries[i];
            let at = 24 + 32 * i;
            &&& e.start_epoch == le_value(data.subrange(at, at + 8))
            &&& e.epoch_count == le_value(data.subrange(at + 8, at + 16))
            &&& e.offset == le_value(data.subrange(at + 16, at + 24))
            &&& e.length == le_value(data.subrange(at + 24, at + 32))
        } by {
            let at = 24 + 32 * i;
            assert(entry_fits(data, i));
            lemma_le_value_bound(data.subrange(at, at + 8));
            lemma_le_value_bound(data.subrange(at + 8, at + 16));
        }
    }
}

/// Whether entry `i` is there, and its packet too.
pub open spec fn entry_fits(data: Seq<u8>, i: int) -> bool {
    24 + 32 * i + 32 <= data.len() && le_value(
        data.subrange(24 + 32 * i + 16, 24 + 32 * i + 24),
    ) + le_value(data.subrange(24 + 32 * i + 24, 24 + 32 * i + 32)) <= data.len()
}

proof fn lemma_directory_sound(data: Seq<u8>, i: int, count: int)
    requires
        0 <= i,
    ensures
        directory_fault(data, i, count) is None <==> forall|k: int|
            i <= k < count ==> #[trigger] entry_fits(data, k),
        directory_fault(data, i, count) matches Some(e) ==> e == PackError::TruncatedDirectory || e
            == PackError::PayloadBounds,
    decreases count - i,
{
    if i < count {
        lemma_directory_sound(data, i + 1, count);
        if directory_fault(data, i, count) is None {
            assert forall|k: int| i <= k < count implies #[trigger] entry_fits(data, k) by {
                if k > i {
                    assert(directory_fault(data, i + 1, count) is None);
                }
            }
        }
        if forall|k: int| i <= k < count ==> #[trigger] entry_fits(data, k) {
            assert(entry_fits(data, i));
            assert forall|k: int| i + 1 <= k < count implies #[trigger] entry_fits(data, k) by {
                assert(i <= k < count);
            }
        }
    }
}

/// A group comes next where it starts right behind the one before, or, where there is none,
/// right behind the height that a run resumes at, or anywhere where it does not resume.
pub proof fn law_contiguous(start: u64, expected: u64, resume: u64)
    ensures
        contiguous(start, Some(expected), resume) == (if start == expected {
            Ok::<(), PackError>(())
        } else {
            Err(PackError::NonContiguous)
        }),
        contiguous(start, None, 0) == Ok::<(), PackError>(()),
        resume > 0 ==> contiguous(start, None, resume) == (if start == resume + 1 {
            Ok::<(), PackError>(())
        } else {
            Err(PackError::ResumeGap)
        }),
{
}

/// The blocks of a packet can be written where there are some; the first epoch leaves room for
/// 2000 more; the last is a pivot block; each has its place for its index and no reserved flag;
/// and the epoch of each is the height of the next pivot block.
pub proof fn law_input(p: PacketModel)
    ensures
        input_fault(p) is None <==> {
            &&& p.blocks.len() > 0
            &&& p.blocks[0].epoch + 2000 <= u64::MAX
            &&& (p.blocks.last().flags as int / 2) % 2 == 1
            &&& forall|k: int|
                0 <= k < p.blocks.len() ==> (#[trigger] p.blocks[k]).index == k && p.blocks[k].flags
                    < 128
            &&& forall|k: int, l: int| #[trigger]
                ends_epoch(p.blocks, k, l) ==> p.blocks[k].epoch == p.blocks[l].height
        },
        input_fault(p) == Some(PackError::NoBlocks) <==> p.blocks.len() == 0,
        p.blocks.len() > 0 ==> (input_fault(p) == Some(PackError::EpochRange)
            <==> p.blocks[0].epoch + 2000 > u64::MAX),
{
    lemma_groups_sound(p.blocks, 0);
}

spec fn sound_from(blocks: Seq<BlockModel>, i: int) -> bool {
    &&& i < blocks.len() ==> (blocks.last().flags as int / 2) % 2 == 1
    &&& forall|k: int|
        i <= k < blocks.len() ==> (#[trigger] blocks[k]).index == k && blocks[k].flags < 128
    &&& forall|k: int, l: int|
        i <= k && #[trigger] ends_epoch(blocks, k, l) ==> blocks[k].epoch == blocks[l].height
}

proof fn lemma_group_sound(blocks: Seq<BlockModel>, i: int, last: int, epoch: u64)
    requires
        0 <= i <= last + 1,
        last < blocks.len(),
    ensures
        group_fault(blocks, i, last, epoch) is None <==> forall|k: int|
            i <= k <= last ==> (#[trigger] blocks[k]).index == k && blocks[k].flags < 128
                && blocks[k].epoch == epoch,
        group_fault(blocks, i, last, epoch) matches Some(e) ==> e != PackError::NoBlocks && e
            != PackError::EpochRange,
    decreases last - i + 1,
{
    if i <= last {
        lemma_group_sound(blocks, i + 1, last, epoch);
        assert(flag(blocks[i].flags, FLAG_RESERVED) == (blocks[i].flags >= 128));
    }
}

proof fn lemma_no_pivot(blocks: Seq<BlockModel>, i: int)
    requires
        0 <= i < blocks.len(),
        next_pivot(blocks, i) is None,
    ensures
        (blocks.last().flags as int / 2) % 2 == 0,
    decreases blocks.len() - i,
{
    if i + 1 < blocks.len() {
        lemma_no_pivot(blocks, i + 1);
    }
}

proof fn lemma_groups_sound(blocks: Seq<BlockModel>, i: int)
    requires
        0 <= i <= blocks.len(),
    ensures
        groups_fault(blocks, i) is None <==> sound_from(blocks, i),
        groups_fault(blocks, i) matches Some(e) ==> e != PackError::NoBlocks && e
            != PackError::EpochRange,
    decreases blocks.len() - i,
{
    if i < blocks.len() {
        lemma_next_pivot(blocks, i);
        match next_pivot(blocks, i) {
            None => {
                lemma_no_pivot(blocks, i);
            },
            Some(last) => {
                lemma_groups_sound(blocks, last + 1);
                lemma_group_sound(blocks, i, last, blocks[last].height);
                lemma_sound_step(blocks, i, last);
            },
        }
    }
}

proof fn lemma_sound_step(blocks: Seq<BlockModel>, i: int, last: int)
    requires
        0 <= i <= last < blocks.len(),
        next_pivot(blocks, i) == Some(last),
    ensures
        sound_from(blocks, i) <==> sound_from(blocks, last + 1) && forall|k: int|
            i <= k <= last ==> (#[trigger] blocks[k]).index == k && blocks[k].flags < 128
                && blocks[k].epoch == blocks[last].height,
{
    lemma_next_pivot(blocks, i);
    assert(flag(blocks[last].flags, FLAG_PIVOT));
    assert forall|k: int| i <= k <= last implies #[trigger] ends_epoch(blocks, k, last) by {
        assert forall|m: int| k <= m < last implies ((#[trigger] blocks[m]).flags as int / 2) % 2
            == 0 by {
            assert(!flag(blocks[m].flags, FLAG_PIVOT));
        }
    }
    if sound_from(blocks, i) {
        assert forall|k: int| i <= k <= last implies (#[trigger] blocks[k]).epoch
            == blocks[last].height by {
            assert(ends_epoch(blocks, k, last));
        }
    }
    if sound_from(blocks, last + 1) && forall|k: int|
        i <= k <= last ==> (#[trigger] blocks[k]).index == k && blocks[k].flags < 128
            && blocks[k].epoch == blocks[last].height {
        assert forall|k: int, l: int| i <= k && #[trigger] ends_epoch(blocks, k, l) implies
            blocks[k].epoch == blocks[l].height by {
            if k <= last {
                assert(ends_epoch(blocks, k, last));
                assert(l == last);
            }
        }
        assert(blocks.last() == blocks[blocks.len() - 1]);
    }
}

/// The check of a packet that can be read reports its length, its first block number, how many
/// blocks it has, how many of them have the flag of a payload, how many transactions they have
/// together, and the size of a record prefix.
pub proof fn law_report(data: Seq<u8>, pos_from: Option<u64>)
    requires
        decoded(data, pos_from) is Ok,
        data.len() <= usize::MAX,
        decoded(data, pos_from)->Ok_0.blocks.len() <= u32::MAX,
        decoded(data, pos_from)->Ok_0.blocks.map_values(
            |b: BlockModel| b.txs,
        ).flatten().len() <= u64::MAX,
    ensures
        verified(data) matches Ok(v) && {
            let p = decoded(data, pos_from)->Ok_0;
            &&& v.packet_bytes == data.len()
            &&& v.first_block_number == p.first_block_number
            &&& v.block_count == p.blocks.len()
            &&& v.transaction_blocks == p.blocks.filter(
                |b: BlockModel| (b.flags as int / 8) % 2 == 1,
            ).len()
            &&& v.transaction_items == p.blocks.map_values(
                |b: BlockModel| b.txs,
            ).flatten().len()
            &&& v.block_prefix_size == data[92]
        },
{
    let p = decoded(data, pos_from)->Ok_0;
    let n = p.blocks.len() as int;
    lemma_total(p.blocks, n);
    lemma_payload_blocks(p.blocks, n);
    assert(p.blocks.take(n) =~= p.blocks);
    p.blocks.lemma_filter_len(|b: BlockModel| (b.flags as int / 8) % 2 == 1);
    law_readable_verifies(data, pos_from);
}

pub(crate) proof fn lemma_total(blocks: Seq<BlockModel>, n: int)
    requires
        0 <= n <= blocks.len(),
    ensures
        total_txs(blocks, n) == blocks.take(n).map_values(|b: BlockModel| b.txs).flatten().len(),
    decreases n,
{
    let lists = blocks.take(n).map_values(|b: BlockModel| b.txs);
    lists.lemma_flatten_and_flatten_alt_are_equivalent();
    if n > 0 {
        lemma_total(blocks, n - 1);
        let before = blocks.take(n - 1).map_values(|b: BlockModel| b.txs);
        before.lemma_flatten_and_flatten_alt_are_equivalent();
        assert(lists.drop_last() =~= before);
        assert(lists.last() == blocks[n - 1].txs);
    }
}

proof fn lemma_payload_blocks(blocks: Seq<BlockModel>, n: int)
    requires
        0 <= n <= blocks.len(),
    ensures
        payload_blocks(blocks, n) == blocks.take(n).filter(
            |b: BlockModel| (b.flags as int / 8) % 2 == 1,
        ).len(),
    decreases n,
{
    reveal(Seq::filter);
    if n > 0 {
        lemma_payload_blocks(blocks, n - 1);
        assert(blocks.take(n).drop_last() =~= blocks.take(n - 1));
    }
}

} // verus!
