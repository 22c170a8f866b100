//! Adding a PoS reward to a container that is already written.
use crate::bytes::append_bytes;
use crate::cfxpack::body::prefix_size;
use crate::cfxpack::codec::put_u64_le;
use crate::cfxpack::container::{directory, directory_fault, entry_at, entry_views, parse_directory, EntryModel};
use crate::cfxpack::decode::{decode_packet_ext, decoded};
use crate::cfxpack::encode::{encode_packet, encoded, fixed_fields, flag, has_flag, offset_bytes, offsets, payloads, records, sections};
use crate::cfxpack::error::PackError;
use crate::cfxpack::packet::{views, Block, BlockModel, Packet, PacketModel, PosRewardEntry, RewardAccountModel, RewardModel, FLAG_PIVOT};
use crate::cfxpack::types::{le_bytes, le_value, lemma_le_bytes, lemma_pow256};
use vstd::prelude::*;

verus! {

/// The height from which on blocks refer to PoS blocks.
pub const POS_REFERENCE_HEIGHT: u64 = 37_400_000;

/// The pivot block of an epoch, from block `i` on.
pub open spec fn pivot_of(blocks: Seq<BlockModel>, epoch: u64, i: int) -> Option<int>
    decreases blocks.len() - i,
{
    if i < 0 || i >= blocks.len() {
        None
    } else if blocks[i].epoch == epoch && flag(blocks[i].flags, FLAG_PIVOT) {
        Some(i)
    } else {
        pivot_of(blocks, epoch, i + 1)
    }
}

/// The pivot block of an epoch.
pub fn find_epoch_pivot(blocks: &Vec<Block>, epoch: u64) -> (r: Option<usize>)
    ensures
        match r {
            Some(k) => pivot_of(views(blocks@), epoch, 0) == Some(k as int) && k < blocks@.len(),
            None => pivot_of(views(blocks@), epoch, 0) is None,
        },
{
    let ghost all = views(blocks@);
    let mut i: usize = 0;
    while i < blocks.len()
        invariant
            i <= blocks@.len(),
            all == views(blocks@),
            pivot_of(all, epoch, 0) == pivot_of(all, epoch, i as int),
        decreases blocks@.len() - i,
    {
        if blocks[i].epoch == epoch && has_flag(blocks[i].flags, FLAG_PIVOT) {
            return Some(i);
        }
        i += 1;
    }
    None
}

/// A packet in which the pivot of an epoch has one PoS reward more, which names that
/// block.
pub open spec fn with_reward(p: PacketModel, epoch: u64, accounts: Seq<RewardAccountModel>)
    -> PacketModel {
    match pivot_of(p.blocks, epoch, 0) {
        None => p,
        Some(k) => PacketModel {
            blocks: p.blocks.update(
                k,
                BlockModel {
                    rewards: p.blocks[k].rewards.push(
                        RewardModel { accounts, epoch_hash: p.blocks[k].hash },
                    ),
                    ..p.blocks[k]
                },
            ),
            ..p
        },
    }
}

/// Adds a PoS reward to the pivot of an epoch. Gives whether the packet has that block.
pub fn add_reward(packet: &mut Packet, epoch: u64, reward: &PosRewardEntry) -> (r: bool)
    ensures
        final(packet)@ == with_reward(old(packet)@, epoch, views(reward.account_rewards@)),
        r == (pivot_of(old(packet)@.blocks, epoch, 0) is Some),
{
    match find_epoch_pivot(&packet.blocks, epoch) {
        Some(k) => {
            let ghost before = packet@;
            let mut entry = reward.clone();
            entry.execution_epoch_hash = packet.blocks[k].hash;
            let ghost m = entry@;
            let block: &mut Block = &mut packet.blocks[k];
            block.pos_rewards.push(entry);
            proof {
                assert(packet.blocks@[k as int]@.rewards =~= before.blocks[k as int].rewards.push(
                    m,
                ));
                assert(packet@.blocks =~= with_reward(
                    before,
                    epoch,
                    views(reward.account_rewards@),
                ).blocks);
            }
            true
        },
        None => false,
    }
}

/// Bytes with others in their place from `at` on.
pub open spec fn replaced(data: Seq<u8>, at: int, bytes: Seq<u8>) -> Seq<u8> {
    data.take(at) + bytes + data.skip(at + bytes.len())
}

/// Puts bytes in the place of others.
fn replace_bytes(data: &mut Vec<u8>, at: usize, bytes: &[u8])
    requires
        at + bytes@.len() <= old(data)@.len(),
    ensures
        final(data)@ == replaced(old(data)@, at as int, bytes@),
{
    let mut i: usize = 0;
    while i < bytes.len()
        invariant
            i <= bytes@.len(),
            at + bytes@.len() <= old(data)@.len(),
            data@.len() == old(data)@.len(),
            forall|k: int|
                0 <= k < data@.len() ==> #[trigger] data@[k] == (if at <= k < at + i {
                    bytes@[k - at]
                } else {
                    old(data)@[k]
                }),
        decreases bytes@.len() - i,
    {
        assert(at + i < data.len());
        data[at + i] = bytes[i];
        i += 1;
    }
    proof {
        assert(data@ =~= replaced(old(data)@, at as int, bytes@));
    }
}

/// The container as far as it is rewritten, and whether the block was found.
pub struct Rewrite {
    pub out: Seq<u8>,
    pub modified: bool,
}

/// A packet, from bytes to bytes, in which the pivot of an epoch has one PoS reward more,
/// and whether it has that block.
#[verifier::opaque]
pub open spec fn packet_rewrite(
    bytes: Seq<u8>,
    epoch: u64,
    accounts: Seq<RewardAccountModel>,
) -> Result<(Seq<u8>, bool), PackError> {
    match decoded(bytes, Some(POS_REFERENCE_HEIGHT)) {
        Err(e) => Err(e),
        Ok(p) => match encoded(with_reward(p, epoch, accounts)) {
            Err(e) => Err(e),
            Ok(out) => Ok((out, pivot_of(p.blocks, epoch, 0) is Some)),
        },
    }
}

/// Adds a PoS reward to the pivot of an epoch in a packet.
pub fn rewrite_packet(data: &[u8], to_epoch: u64, reward: &PosRewardEntry) -> (r: Result<
    (Vec<u8>, bool),
    PackError,
>)
    ensures
        ({
            let want = packet_rewrite(data@, to_epoch, views(reward.account_rewards@));
            match r {
                Ok((out, found)) => want == Ok::<(Seq<u8>, bool), PackError>((out@, found)),
                Err(e) => want == Err::<(Seq<u8>, bool), PackError>(e),
            }
        }),
{
    proof {
        reveal(packet_rewrite);
    }
    let mut packet = match decode_packet_ext(data, POS_REFERENCE_HEIGHT) {
        Ok(p) => p,
        Err(e) => {
            return Err(e);
        },
    };
    let found: bool = add_reward(&mut packet, to_epoch, reward);
    match encode_packet(&packet) {
        Ok(b) => Ok((b, found)),
        Err(e) => Err(e),
    }
}

/// A packet that was written holds more than an entry of a directory takes.
proof fn lemma_rewrite_len(bytes: Seq<u8>, epoch: u64, accounts: Seq<RewardAccountModel>)
    requires
        packet_rewrite(bytes, epoch, accounts) is Ok,
    ensures
        packet_rewrite(bytes, epoch, accounts)->Ok_0.0.len() >= 61,
{
    reveal(packet_rewrite);
    let p = with_reward(decoded(bytes, Some(POS_REFERENCE_HEIGHT))->Ok_0, epoch, accounts);
    let n = p.blocks.len() as int;
    let loads = payloads(p, n)->Ok_0.0;
    let recs = records(p, loads, n)->Ok_0;
    let size = prefix_size(recs);
    let offs = offsets(sections(p, recs));
    lemma_le_bytes(p.first_block_number as nat, 8);
    lemma_le_bytes(p.min_timestamp as nat, 8);
    lemma_le_bytes(p.min_height as nat, 8);
    lemma_le_bytes(p.min_pos_height as nat % 0x1_0000_0000, 4);
    assert(fixed_fields(p, size).len() >= 29);
    lemma_offset_bytes_len(offs, 8);
}

proof fn lemma_offset_bytes_len(offs: Seq<nat>, n: int)
    requires
        0 <= n,
    ensures
        offset_bytes(offs, n).len() == 4 * n,
    decreases n,
{
    if n > 0 {
        lemma_le_bytes(offs[n - 1], 4);
        lemma_offset_bytes_len(offs, n - 1);
    }
}

/// The container with the packets of the first `n` entries rewritten behind `head`.
pub open spec fn rewritten(
    data: Seq<u8>,
    entries: Seq<EntryModel>,
    epoch: u64,
    accounts: Seq<RewardAccountModel>,
    head: Seq<u8>,
    n: int,
) -> Result<Rewrite, PackError>
    decreases n,
{
    if n <= 0 {
        Ok(Rewrite { out: head, modified: false })
    } else {
        match rewritten(data, entries, epoch, accounts, head, n - 1) {
            Err(e) => Err(e),
            Ok(done) => {
                let e = entries[n - 1];
                let part = data.subrange(e.offset as int, (e.offset + e.length) as int);
                match packet_rewrite(part, epoch, accounts) {
                    Err(e) => Err(e),
                    Ok((bytes, found)) => Ok(
                        Rewrite {
                            out: replaced(
                                done.out + bytes,
                                24 + 32 * (n - 1) + 16,
                                le_bytes(done.out.len(), 8) + le_bytes(bytes.len(), 8),
                            ),
                            modified: done.modified || found,
                        },
                    ),
                }
            },
        }
    }
}

/// A container in which the pivot of an epoch has one PoS reward more. The packets are
/// written anew behind what stands before the first of them.
pub open spec fn injected(data: Seq<u8>, epoch: u64, accounts: Seq<RewardAccountModel>) -> Result<
    Rewrite,
    PackError,
> {
    match directory(data) {
        Err(e) => Err(e),
        Ok(entries) => {
            let n = entries.len() as int;
            let head = if n > 0 {
                data.take(entries[0].offset as int)
            } else {
                data
            };
            rewritten(data, entries, epoch, accounts, head, n)
        },
    }
}

proof fn lemma_rewritten_fault(
    data: Seq<u8>,
    entries: Seq<EntryModel>,
    epoch: u64,
    accounts: Seq<RewardAccountModel>,
    head: Seq<u8>,
    i: int,
    n: int,
)
    requires
        0 <= i <= n,
        rewritten(data, entries, epoch, accounts, head, i) is Err,
    ensures
        rewritten(data, entries, epoch, accounts, head, n) == rewritten(
            data,
            entries,
            epoch,
            accounts,
            head,
            i,
        ),
    decreases n,
{
    if i < n {
        lemma_rewritten_fault(data, entries, epoch, accounts, head, i, n - 1);
    }
}

/// Adds a PoS reward to the pivot of an epoch in a container. Gives the container and
/// whether the block was found.
pub fn inject_reward(data: &[u8], to_epoch: u64, reward: &PosRewardEntry) -> (r: Result<
    (Vec<u8>, bool),
    PackError,
>)
    ensures
        ({
            let want = injected(data@, to_epoch, views(reward.account_rewards@));
            match r {
                Ok((out, modified)) => want == Ok::<Rewrite, PackError>(
                    Rewrite { out: out@, modified },
                ),
                Err(e) => want == Err::<Rewrite, PackError>(e),
            }
        }),
{
    let entries = match parse_directory(data) {
        Ok(v) => v,
        Err(e) => {
            return Err(e);
        },
    };
    let ghost all = entry_views(entries@);
    let ghost accounts = views(reward.account_rewards@);
    let n: usize = entries.len();
    let ghost count = n as int;
    let head_len: usize = if n > 0 {
        entries[0].2
    } else {
        data.len()
    };
    let mut out: Vec<u8> = Vec::new();
    append_bytes(&mut out, &data[0..head_len]);
    let ghost head = out@;
    proof {
        assert(head =~= if n > 0 {
            data@.take(all[0].offset as int)
        } else {
            data@
        });
    }
    let mut modified: bool = false;
    let mut i: usize = 0;
    while i < n
        invariant
            i <= n,
            n == entries@.len(),
            count == n,
            all == entry_views(entries@),
            accounts == views(reward.account_rewards@),
            forall|k: int|
                0 <= k < entries@.len() ==> (#[trigger] entries@[k]).2 + entries@[k].3
                    <= data@.len(),
            out@.len() >= 61 * i,
            rewritten(data@, all, to_epoch, accounts, head, i as int) == Ok::<Rewrite, PackError>(
                Rewrite { out: out@, modified },
            ),
            injected(data@, to_epoch, accounts) == rewritten(
                data@,
                all,
                to_epoch,
                accounts,
                head,
                count,
            ),
        decreases n - i,
    {
        let (_, _, offset, length): (u64, u64, usize, usize) = entries[i];
        assert(entries@[i as int].2 + entries@[i as int].3 <= data.len());
        let part: &[u8] = &data[offset..offset + length];
        let ghost before = out@;
        proof {
            assert(all[i as int].offset == offset && all[i as int].length == length);
            if rewritten(data@, all, to_epoch, accounts, head, i + 1) is Err {
                lemma_rewritten_fault(data@, all, to_epoch, accounts, head, i + 1, count);
            }
        }
        let (bytes, found): (Vec<u8>, bool) = match rewrite_packet(part, to_epoch, reward) {
            Ok(v) => v,
            Err(e) => {
                return Err(e);
            },
        };
        modified = modified || found;
        let mut place: Vec<u8> = Vec::new();
        put_u64_le(&mut place, out.len() as u64);
        put_u64_le(&mut place, bytes.len() as u64);
        proof {
            lemma_le_bytes(before.len(), 8);
            lemma_le_bytes(bytes@.len(), 8);
            assert(place@ =~= le_bytes(before.len(), 8) + le_bytes(bytes@.len(), 8));
        }
        append_bytes(&mut out, bytes.as_slice());
        proof {
            lemma_rewrite_len(part@, to_epoch, accounts);
        }
        assert(24 + 32 * i + 32 <= out.len());
        replace_bytes(&mut out, 24 + 32 * i + 16, place.as_slice());
        i += 1;
    }
    Ok((out, modified))
}

/// The bytes of an entry's packet.
pub open spec fn part_of(data: Seq<u8>, e: EntryModel) -> Seq<u8> {
    data.subrange(e.offset as int, (e.offset + e.length) as int)
}

/// What is true of a container as far as it is rewritten: the header and the epochs of
/// the entries are as they were, and the first `n` entries lead to the new packets.
spec fn leads_to_new(
    data: Seq<u8>,
    entries: Seq<EntryModel>,
    epoch: u64,
    accounts: Seq<RewardAccountModel>,
    head_len: int,
    n: int,
    out: Seq<u8>,
) -> bool {
    &&& out.len() >= head_len
    &&& out.take(24) == data.take(24)
    &&& forall|k: int|
        0 <= k < entries.len() ==> #[trigger] entry_at(out, k).start_epoch
            == entries[k].start_epoch && entry_at(out, k).epoch_count == entries[k].epoch_count
    &&& forall|k: int|
        0 <= k < n ==> {
            let e = #[trigger] entry_at(out, k);
            &&& e.offset >= head_len
            &&& e.offset + e.length <= out.len()
            &&& packet_rewrite(part_of(data, entries[k]), epoch, accounts) matches Ok((bytes, _))
                && part_of(out, e) == bytes
        }
}

/// Replacing the place of one entry leaves the rest of the directory as it is.
proof fn lemma_replaced_entry(out: Seq<u8>, i: int, k: int, place: Seq<u8>)
    requires
        0 <= i,
        0 <= k,
        place.len() == 16,
        24 + 32 * i + 32 <= out.len(),
        24 + 32 * k + 32 <= out.len(),
    ensures
        ({
            let at = 24 + 32 * i + 16;
            let new = replaced(out, at, place);
            &&& new.len() == out.len()
            &&& entry_at(new, k).start_epoch == entry_at(out, k).start_epoch
            &&& entry_at(new, k).epoch_count == entry_at(out, k).epoch_count
            &&& k != i ==> entry_at(new, k) == entry_at(out, k)
            &&& k == i ==> entry_at(new, k).offset == le_value(place.take(8)) && entry_at(
                new,
                k,
            ).length == le_value(place.skip(8))
        }),
{
    let at = 24 + 32 * i + 16;
    let new = replaced(out, at, place);
    let from = 24 + 32 * k;
    assert(new.subrange(from, from + 8) =~= out.subrange(from, from + 8));
    assert(new.subrange(from + 8, from + 16) =~= out.subrange(from + 8, from + 16));
    if k != i {
        assert(new.subrange(from + 16, from + 24) =~= out.subrange(from + 16, from + 24));
        assert(new.subrange(from + 24, from + 32) =~= out.subrange(from + 24, from + 32));
    } else {
        assert(new.subrange(from + 16, from + 24) =~= place.take(8));
        assert(new.subrange(from + 24, from + 32) =~= place.skip(8));
    }
}

proof fn lemma_rewritten(
    data: Seq<u8>,
    entries: Seq<EntryModel>,
    epoch: u64,
    accounts: Seq<RewardAccountModel>,
    head: Seq<u8>,
    n: int,
)
    requires
        0 <= n <= entries.len(),
        head.len() <= data.len(),
        head == data.take(head.len() as int),
        24 + 32 * entries.len() <= head.len(),
        forall|k: int| 0 <= k < entries.len() ==> #[trigger] entries[k] == entry_at(data, k),
        rewritten(data, entries, epoch, accounts, head, n) is Ok,
        rewritten(data, entries, epoch, accounts, head, n)->Ok_0.out.len() <= u64::MAX,
    ensures
        leads_to_new(
            data,
            entries,
            epoch,
            accounts,
            head.len() as int,
            n,
            rewritten(data, entries, epoch, accounts, head, n)->Ok_0.out,
        ),
    decreases n,
{
    let total = entries.len() as int;
    if n <= 0 {
        assert(head.take(24) =~= data.take(24));
        assert forall|k: int| 0 <= k < total implies #[trigger] entry_at(head, k).start_epoch
            == entries[k].start_epoch && entry_at(head, k).epoch_count
            == entries[k].epoch_count by {
            let from = 24 + 32 * k;
            assert(head.subrange(from, from + 8) =~= data.subrange(from, from + 8));
            assert(head.subrange(from + 8, from + 16) =~= data.subrange(from + 8, from + 16));
        }
    } else {
        let done = rewritten(data, entries, epoch, accounts, head, n - 1)->Ok_0.out;
        let old_part = part_of(data, entries[n - 1]);
        let bytes = packet_rewrite(old_part, epoch, accounts)->Ok_0.0;
        let long = done + bytes;
        let at = 24 + 32 * (n - 1) + 16;
        let place = le_bytes(done.len(), 8) + le_bytes(bytes.len(), 8);
        let out = replaced(long, at, place);
        lemma_le_bytes(done.len(), 8);
        lemma_le_bytes(bytes.len(), 8);
        lemma_rewritten_len(data, entries, epoch, accounts, head, n - 1);
        assert(out.len() == long.len());
        lemma_rewritten(data, entries, epoch, accounts, head, n - 1);
        assert(done.len() >= head.len());
        lemma_pow256();
        assert(place.take(8) =~= le_bytes(done.len(), 8));
        assert(place.skip(8) =~= le_bytes(bytes.len(), 8));
        assert(out.take(24) =~= done.take(24));
        assert forall|k: int| 0 <= k < total implies entry_at(long, k) == #[trigger] entry_at(
            done,
            k,
        ) by {
            let from = 24 + 32 * k;
            assert(long.subrange(from, from + 8) =~= done.subrange(from, from + 8));
            assert(long.subrange(from + 8, from + 16) =~= done.subrange(from + 8, from + 16));
            assert(long.subrange(from + 16, from + 24) =~= done.subrange(from + 16, from + 24));
            assert(long.subrange(from + 24, from + 32) =~= done.subrange(from + 24, from + 32));
        }
        assert forall|k: int| 0 <= k < total implies #[trigger] entry_at(out, k).start_epoch
            == entries[k].start_epoch && entry_at(out, k).epoch_count
            == entries[k].epoch_count by {
            lemma_replaced_entry(long, n - 1, k, place);
            assert(entry_at(done, k).start_epoch == entries[k].start_epoch);
        }
        assert forall|k: int| 0 <= k < n implies {
            let e = #[trigger] entry_at(out, k);
            &&& e.offset >= head.len()
            &&& e.offset + e.length <= out.len()
            &&& packet_rewrite(part_of(data, entries[k]), epoch, accounts) matches Ok((b, _))
                && part_of(out, e) == b
        } by {
            lemma_replaced_entry(long, n - 1, k, place);
            let e = entry_at(out, k);
            if k < n - 1 {
                assert(entry_at(done, k).offset >= head.len());
                assert(part_of(out, e) =~= part_of(done, e));
            } else {
                assert(part_of(out, e) =~= bytes);
            }
        }
    }
}

/// Whether an entry and the packet that it leads to lie within a container.
spec fn entry_fits(data: Seq<u8>, k: int) -> bool {
    &&& 24 + 32 * k + 32 <= data.len()
    &&& entry_at(data, k).offset + entry_at(data, k).length <= data.len()
}

proof fn lemma_rewritten_len(
    data: Seq<u8>,
    entries: Seq<EntryModel>,
    epoch: u64,
    accounts: Seq<RewardAccountModel>,
    head: Seq<u8>,
    n: int,
)
    requires
        n <= entries.len(),
        24 + 32 * entries.len() <= head.len(),
        rewritten(data, entries, epoch, accounts, head, n) is Ok,
    ensures
        rewritten(data, entries, epoch, accounts, head, n)->Ok_0.out.len() >= head.len(),
    decreases n,
{
    if n > 0 {
        lemma_rewritten_len(data, entries, epoch, accounts, head, n - 1);
        let done = rewritten(data, entries, epoch, accounts, head, n - 1)->Ok_0.out;
        let bytes = packet_rewrite(part_of(data, entries[n - 1]), epoch, accounts)->Ok_0.0;
        lemma_le_bytes(done.len(), 8);
        lemma_le_bytes(bytes.len(), 8);
    }
}

proof fn lemma_entries_fit(data: Seq<u8>, i: int, count: int)
    requires
        0 <= i,
        forall|k: int| i <= k < count ==> #[trigger] entry_fits(data, k),
    ensures
        directory_fault(data, i, count) is None,
    decreases count - i,
{
    if i < count {
        assert(entry_fits(data, i));
        lemma_entries_fit(data, i + 1, count);
    }
}

/// A container to which a reward was added has the groups that it had, in the same
/// order, and each entry leads to the packet that was written anew, where the first packet
/// stands behind the directory.
pub proof fn law_injected_directory(
    data: Seq<u8>,
    epoch: u64,
    accounts: Seq<RewardAccountModel>,
)
    requires
        injected(data, epoch, accounts) is Ok,
        injected(data, epoch, accounts)->Ok_0.out.len() <= u64::MAX,
        directory(data)->Ok_0.len() > 0 ==> directory(data)->Ok_0[0].offset >= 24 + 32
            * directory(data)->Ok_0.len(),
    ensures
        ({
            let out = injected(data, epoch, accounts)->Ok_0.out;
            let before = directory(data)->Ok_0;
            directory(out) matches Ok(after) && {
                &&& after.len() == before.len()
                &&& forall|k: int|
                    0 <= k < after.len() ==> {
                        &&& (#[trigger] after[k]).start_epoch == before[k].start_epoch
                        &&& after[k].epoch_count == before[k].epoch_count
                        &&& packet_rewrite(part_of(data, before[k]), epoch, accounts) matches Ok((
                            bytes,
                            _,
                        )) && part_of(out, after[k]) == bytes
                    }
            }
        }),
{
    let entries = directory(data)->Ok_0;
    let n = entries.len() as int;
    let out = injected(data, epoch, accounts)->Ok_0.out;
    if n > 0 {
        let head = data.take(entries[0].offset as int);
        lemma_first_fits(data);
        lemma_rewritten(data, entries, epoch, accounts, head, n);
        assert(out.take(8) =~= out.take(24).take(8));
        assert(data.take(8) =~= data.take(24).take(8));
        assert(out.subrange(12, 16) =~= out.take(24).subrange(12, 16));
        assert(data.subrange(12, 16) =~= data.take(24).subrange(12, 16));
        assert forall|k: int| 0 <= k < n implies #[trigger] entry_fits(out, k) by {
            assert(entry_at(out, k).offset >= head.len());
        }
        lemma_entries_fit(out, 0, n);
        let after = directory(out)->Ok_0;
        assert forall|k: int| 0 <= k < after.len() implies {
            &&& (#[trigger] after[k]).start_epoch == entries[k].start_epoch
            &&& after[k].epoch_count == entries[k].epoch_count
            &&& packet_rewrite(part_of(data, entries[k]), epoch, accounts) matches Ok((bytes, _))
                && part_of(out, after[k]) == bytes
        } by {
            let e = entry_at(out, k);
            assert(after[k] == e);
            assert(e.offset >= head.len());
            assert(e.start_epoch == entries[k].start_epoch);
        }
    }
}

/// The first packet of a container lies within it.
proof fn lemma_first_fits(data: Seq<u8>)
    requires
        directory(data) is Ok,
        directory(data)->Ok_0.len() > 0,
    ensures
        directory(data)->Ok_0[0].offset <= data.len(),
{
}

} // verus!
