//! Writing a packet.
use crate::bytemap::ByteMap;
use crate::bytes::{append_bytes, to_vec};
use crate::cfxpack::body::{bitmap, body_bytes, choose_prefix_size, lemma_fixed_len, pack_block_body, prefix_size};
use crate::cfxpack::codec::{align_to, aligned, pad_from, padded_from, put_u32_le, put_u64_le, put_uleb128, uleb};
use crate::cfxpack::error::PackError;
use crate::cfxpack::packet::{views, Block, BlockModel, Packet, PacketModel, PosLookupModel, RewardModel, UnlockModel, FLAG_HAS_TRANSACTIONS, FLAG_PIVOT, FLAG_RESERVED, FLAG_TX_COMPRESSED, HEADER_LEN, PACKET_EPOCHS};
use crate::cfxpack::record::{encode_block_record, encode_record};
use crate::cfxpack::rlp_form::{byte_views, join};
use crate::cfxpack::snappy::{compress, compressible, snap_compressed, snap_decompressed};
use crate::cfxpack::table::TableIndex;
use crate::cfxpack::txform::{append_tx, fit_list, lemma_join_push, ref_bytes, ref_fields, reward_bytes, reward_item, tx_item, unlock_bytes, unlock_fields, ListBuilder, NonceIndex, TxIndex};
use crate::cfxpack::types::le_bytes;
use vstd::prelude::*;

verus! {

/// Whether a flag bit, given as a power of two, is set.
pub open spec fn flag(flags: u8, bit: u8) -> bool {
    (flags / bit) % 2 == 1
}

/// Whether a flag bit, given as a power of two, is set.
pub fn has_flag(flags: u8, bit: u8) -> (r: bool)
    requires
        bit > 0,
    ensures
        r == flag(flags, bit),
{
    (flags / bit) % 2 == 1
}

/// The first pivot block from `i` on.
pub open spec fn next_pivot(blocks: Seq<BlockModel>, i: int) -> Option<int>
    decreases blocks.len() - i,
{
    if i < 0 || i >= blocks.len() {
        None
    } else if flag(blocks[i].flags, FLAG_PIVOT) {
        Some(i)
    } else {
        next_pivot(blocks, i + 1)
    }
}

/// What is wrong with the blocks `i` to `last` of an epoch, if anything.
pub open spec fn group_fault(blocks: Seq<BlockModel>, i: int, last: int, epoch: u64) -> Option<
    PackError,
>
    decreases last - i + 1,
{
    if i > last {
        None
    } else if blocks[i].index != i {
        Some(PackError::BlockIndex)
    } else if flag(blocks[i].flags, FLAG_RESERVED) {
        Some(PackError::ReservedFlag)
    } else if blocks[i].epoch != epoch {
        Some(PackError::BlockEpoch)
    } else {
        group_fault(blocks, i + 1, last, epoch)
    }
}

/// What is wrong with the epochs from block `i` on, if anything. An epoch ends with
/// its pivot block, whose height is the epoch's number.
pub open spec fn groups_fault(blocks: Seq<BlockModel>, i: int) -> Option<PackError>
    decreases blocks.len() - i,
{
    if i < 0 || i >= blocks.len() {
        None
    } else {
        match next_pivot(blocks, i) {
            None => Some(PackError::NoPivot),
            Some(last) => if i <= last < blocks.len() {
                match group_fault(blocks, i, last, blocks[last].height) {
                    Some(e) => Some(e),
                    None => groups_fault(blocks, last + 1),
                }
            } else {
                None
            },
        }
    }
}

/// What is wrong with the blocks of a packet, if anything.
pub open spec fn input_fault(p: PacketModel) -> Option<PackError> {
    if p.blocks.len() == 0 {
        Some(PackError::NoBlocks)
    } else if p.blocks[0].epoch + PACKET_EPOCHS > u64::MAX {
        Some(PackError::EpochRange)
    } else {
        groups_fault(p.blocks, 0)
    }
}

pub proof fn lemma_next_pivot(blocks: Seq<BlockModel>, i: int)
    requires
        0 <= i,
    ensures
        next_pivot(blocks, i) matches Some(j) ==> i <= j < blocks.len() && flag(
            blocks[j].flags,
            FLAG_PIVOT,
        ) && forall|k: int| i <= k < j ==> !flag((#[trigger] blocks[k]).flags, FLAG_PIVOT),
    decreases blocks.len() - i,
{
    if i < blocks.len() && !flag(blocks[i].flags, FLAG_PIVOT) {
        lemma_next_pivot(blocks, i + 1);
    }
}

/// The first pivot block from `start` on.
pub fn find_pivot(blocks: &Vec<Block>, start: usize) -> (r: Option<usize>)
    requires
        start <= blocks@.len(),
    ensures
        match r {
            Some(j) => next_pivot(views(blocks@), start as int) == Some(j as int) && start <= j
                < blocks@.len(),
            None => next_pivot(views(blocks@), start as int) is None,
        },
{
    let ghost all = views(blocks@);
    let mut i: usize = start;
    while i < blocks.len()
        invariant
            start <= i <= blocks@.len(),
            all == views(blocks@),
            next_pivot(all, start as int) == next_pivot(all, i as int),
        decreases blocks@.len() - i,
    {
        if has_flag(blocks[i].flags, FLAG_PIVOT) {
            return Some(i);
        }
        i += 1;
    }
    None
}

fn validate_input(input: &Packet) -> (r: Result<(), PackError>)
    ensures
        match r {
            Ok(_) => input_fault(input@) is None,
            Err(e) => input_fault(input@) == Some(e),
        },
{
    if input.blocks.len() == 0 {
        return Err(PackError::NoBlocks);
    }
    if input.blocks[0].epoch > u64::MAX - PACKET_EPOCHS {
        return Err(PackError::EpochRange);
    }
    let ghost all = views(input.blocks@);
    let mut start: usize = 0;
    while start < input.blocks.len()
        invariant
            start <= input.blocks@.len(),
            all == views(input.blocks@),
            groups_fault(all, 0) == groups_fault(all, start as int),
            input_fault(input@) == groups_fault(all, 0),
        decreases input.blocks@.len() - start,
    {
        let pivot: usize = match find_pivot(&input.blocks, start) {
            Some(j) => j,
            None => {
                return Err(PackError::NoPivot);
            },
        };
        let epoch: u64 = input.blocks[pivot].height;
        let mut i: usize = start;
        while i <= pivot
            invariant
                start <= i <= pivot + 1,
                pivot < input.blocks@.len(),
                all == views(input.blocks@),
                epoch == all[pivot as int].height,
                next_pivot(all, start as int) == Some(pivot as int),
                groups_fault(all, 0) == groups_fault(all, start as int),
                input_fault(input@) == groups_fault(all, 0),
                group_fault(all, start as int, pivot as int, epoch) == group_fault(
                    all,
                    i as int,
                    pivot as int,
                    epoch,
                ),
            decreases pivot + 1 - i,
        {
            let block: &Block = &input.blocks[i];
            if block.index != i {
                return Err(PackError::BlockIndex);
            }
            if has_flag(block.flags, FLAG_RESERVED) {
                return Err(PackError::ReservedFlag);
            }
            if block.epoch != epoch {
                return Err(PackError::BlockEpoch);
            }
            proof {
                assert(i < input.blocks.len());
            }
            i += 1;
        }
        start = pivot + 1;
    }
    Ok(())
}

/// The earlier transaction that a transaction of a block repeats, if any: the one
/// that is given, or where none are given, the first with the same hash.
pub open spec fn repeated(b: BlockModel, i: int, seen: Map<Seq<u8>, (nat, nat)>) -> Option<
    (nat, nat),
> {
    if b.refs.len() == b.txs.len() {
        b.refs[i]
    } else if seen.contains_key(b.txs[i].identity) {
        Some(seen[b.txs[i].identity])
    } else {
        None
    }
}

/// The first `n` transactions of a block as items, and the identities seen so far.
pub open spec fn tx_items(
    p: PacketModel,
    b: BlockModel,
    seen: Map<Seq<u8>, (nat, nat)>,
    n: int,
) -> Result<(Seq<Seq<u8>>, Map<Seq<u8>, (nat, nat)>), PackError>
    decreases n,
{
    if n <= 0 {
        Ok((Seq::empty(), seen))
    } else {
        match tx_items(p, b, seen, n - 1) {
            Err(e) => Err(e),
            Ok((items, known)) => match repeated(b, n - 1, known) {
                Some((block, place)) => match fit_list(ref_fields(block, place)) {
                    Err(e) => Err(e),
                    Ok(item) => Ok((items.push(item), known)),
                },
                None => match tx_item(p, b.epoch, b.txs[n - 1]) {
                    Err(e) => Err(e),
                    Ok(item) => Ok(
                        (
                            items.push(item),
                            if b.refs.len() == b.txs.len() {
                                known
                            } else {
                                known.insert(b.txs[n - 1].identity, (b.index, (n - 1) as nat))
                            },
                        ),
                    ),
                },
            },
        }
    }
}

/// The first `n` interest distributions as items.
pub open spec fn reward_items(list: Seq<RewardModel>, n: int) -> Result<Seq<Seq<u8>>, PackError>
    decreases n,
{
    if n <= 0 {
        Ok(Seq::empty())
    } else {
        match reward_items(list, n - 1) {
            Err(e) => Err(e),
            Ok(items) => match reward_item(list[n - 1]) {
                Err(e) => Err(e),
                Ok(item) => Ok(items.push(item)),
            },
        }
    }
}

/// The first `n` unlockings as items.
pub open spec fn unlock_items(list: Seq<UnlockModel>, n: int) -> Result<Seq<Seq<u8>>, PackError>
    decreases n,
{
    if n <= 0 {
        Ok(Seq::empty())
    } else {
        match unlock_items(list, n - 1) {
            Err(e) => Err(e),
            Ok(items) => match fit_list(unlock_fields(list[n - 1])) {
                Err(e) => Err(e),
                Ok(item) => Ok(items.push(item)),
            },
        }
    }
}

/// The items of a block: its transactions, then its PoS events.
pub open spec fn payload_items(
    p: PacketModel,
    b: BlockModel,
    seen: Map<Seq<u8>, (nat, nat)>,
) -> Result<(Seq<Seq<u8>>, Map<Seq<u8>, (nat, nat)>), PackError> {
    match tx_items(p, b, seen, b.txs.len() as int) {
        Err(e) => Err(e),
        Ok((txs, known)) => match reward_items(b.rewards, b.rewards.len() as int) {
            Err(e) => Err(e),
            Ok(rewards) => match unlock_items(b.unlocks, b.unlocks.len() as int) {
                Err(e) => Err(e),
                Ok(unlocks) => Ok((txs + rewards + unlocks, known)),
            },
        },
    }
}

/// The payload of a block: nothing, or the list of its items.
pub open spec fn payload(
    p: PacketModel,
    b: BlockModel,
    seen: Map<Seq<u8>, (nat, nat)>,
) -> Result<(Seq<u8>, Map<Seq<u8>, (nat, nat)>), PackError> {
    match payload_items(p, b, seen) {
        Err(e) => Err(e),
        Ok((items, known)) => if items.len() == 0 {
            Ok((Seq::empty(), known))
        } else {
            match fit_list(items) {
                Err(e) => Err(e),
                Ok(bytes) => Ok((bytes, known)),
            }
        },
    }
}

/// The payloads of the first `n` blocks, and the hashes seen so far.
pub open spec fn payloads(p: PacketModel, n: int) -> Result<
    (Seq<Seq<u8>>, Map<Seq<u8>, (nat, nat)>),
    PackError,
>
    decreases n,
{
    if n <= 0 {
        Ok((Seq::empty(), Map::empty()))
    } else {
        match payloads(p, n - 1) {
            Err(e) => Err(e),
            Ok((done, seen)) => match payload(p, p.blocks[n - 1], seen) {
                Err(e) => Err(e),
                Ok((bytes, known)) => Ok((done.push(bytes), known)),
            },
        }
    }
}

/// A payload is compressed where it is longer than this.
pub const COMPRESS_ABOVE: usize = 512;

/// A payload as it is stored.
pub open spec fn stored(payload: Seq<u8>) -> Seq<u8> {
    if payload.len() > COMPRESS_ABOVE {
        snap_compressed(payload)
    } else {
        payload
    }
}

/// The transaction segment of the first `n` payloads: each at a multiple of four
/// bytes, behind its length.
pub open spec fn segment(payloads: Seq<Seq<u8>>, n: int) -> Seq<u8>
    decreases n,
{
    if n <= 0 {
        Seq::empty()
    } else if payloads[n - 1].len() == 0 {
        segment(payloads, n - 1)
    } else {
        let body = stored(payloads[n - 1]);
        aligned(segment(payloads, n - 1), 4) + uleb(body.len()) + body
    }
}

/// The place of a payload in the transaction segment, in units of four bytes.
pub open spec fn tx_place(payloads: Seq<Seq<u8>>, i: int) -> nat {
    if payloads[i].len() == 0 {
        0
    } else {
        aligned(segment(payloads, i), 4).len() / 4
    }
}

/// The flags without those that say how the payload is stored.
pub open spec fn cleared(flags: u8) -> u8 {
    (flags % 8 + flags / 32 * 32) as u8
}

/// The flags that are written, given the payload.
pub open spec fn written_flags(flags: u8, payload: Seq<u8>) -> u8 {
    (cleared(flags) + if payload.len() == 0 {
        0int
    } else if payload.len() > COMPRESS_ABOVE {
        FLAG_HAS_TRANSACTIONS + FLAG_TX_COMPRESSED
    } else {
        FLAG_HAS_TRANSACTIONS as int
    }) as u8
}

/// The records of the first `n` blocks.
pub open spec fn records(p: PacketModel, payloads: Seq<Seq<u8>>, n: int) -> Result<
    Seq<Seq<u8>>,
    PackError,
>
    decreases n,
{
    if n <= 0 {
        Ok(Seq::empty())
    } else {
        match records(p, payloads, n - 1) {
            Err(e) => Err(e),
            Ok(done) => {
                let bytes = payloads[n - 1];
                if bytes.len() > COMPRESS_ABOVE && !compressible(bytes.len()) {
                    Err(PackError::Compress)
                } else {
                    match encode_record(
                        p,
                        p.blocks[n - 1],
                        written_flags(p.blocks[n - 1].flags, bytes),
                        tx_place(payloads, n - 1),
                    ) {
                        Err(e) => Err(e),
                        Ok(record) => Ok(done.push(record)),
                    }
                }
            },
        }
    }
}

/// The PoS table.
pub open spec fn pos_bytes(entries: Seq<PosLookupModel>) -> Seq<u8>
    decreases entries.len(),
{
    if entries.len() == 0 {
        Seq::empty()
    } else {
        pos_bytes(entries.drop_last()) + (entries.last().hash + le_bytes(
            entries.last().height_offset as nat,
            2,
        ))
    }
}

/// The table of base nonces.
pub open spec fn nonce_bytes(entries: Seq<(nat, u64)>) -> Seq<u8>
    decreases entries.len(),
{
    if entries.len() == 0 {
        Seq::empty()
    } else {
        nonce_bytes(entries.drop_last()) + (uleb(entries.last().0) + uleb(
            entries.last().1 as nat,
        ))
    }
}

/// The sections of a packet, each up to its end.
pub struct Sections {
    pub addresses: Seq<u8>,
    pub pos: Seq<u8>,
    pub difficulties: Seq<u8>,
    pub nonces: Seq<u8>,
    pub prices: Seq<u8>,
    pub header: Seq<u8>,
    pub body: Seq<u8>,
}

/// The sections behind the header of a packet, one after another, each up to its end.
#[verifier::opaque]
pub open spec fn sections(p: PacketModel, recs: Seq<Seq<u8>>) -> Sections {
    let n = prefix_size(recs);
    let addresses = join(p.addresses);
    let pos = addresses + pos_bytes(p.pos_entries);
    let difficulties = pos + join(p.difficulties);
    let nonces = difficulties + nonce_bytes(p.base_nonces);
    let prices = padded_from(nonces + join(p.gas_prices), 125, 32);
    let header = padded_from(prices + (le_bytes(recs.len(), 4) + bitmap(recs, n)), 125, 32);
    let body = padded_from(header + body_bytes(recs, n), 125, 64);
    Sections { addresses, pos, difficulties, nonces, prices, header, body }
}

/// The offsets of the sections.
pub open spec fn offsets(s: Sections) -> Seq<nat> {
    seq![
        125,
        125 + s.addresses.len(),
        125 + s.pos.len(),
        125 + s.difficulties.len(),
        125 + s.nonces.len(),
        125 + s.prices.len(),
        125 + s.header.len(),
        125 + s.body.len(),
    ]
}

/// The fixed fields of the header.
pub open spec fn fixed_fields(p: PacketModel, size: nat) -> Seq<u8> {
    p.prev_last_hash + p.prev_last_state_root + le_bytes(p.first_block_number as nat, 8) + le_bytes(
        p.min_timestamp as nat,
        8,
    ) + le_bytes(p.min_height as nat, 8) + le_bytes(p.min_pos_height as nat % 0x1_0000_0000, 4)
        + seq![size as u8]
}

/// The first `n` offsets as they are written.
pub open spec fn offset_bytes(offs: Seq<nat>, n: int) -> Seq<u8>
    decreases n,
{
    if n <= 0 {
        Seq::empty()
    } else {
        offset_bytes(offs, n - 1) + le_bytes(offs[n - 1], 4)
    }
}

/// A packet from its records and its transaction segment.
pub open spec fn assemble(p: PacketModel, recs: Seq<Seq<u8>>, segment: Seq<u8>) -> Result<
    Seq<u8>,
    PackError,
> {
    let s = sections(p, recs);
    let offs = offsets(s);
    if offs[7] > u32::MAX {
        Err(PackError::OffsetTooLarge)
    } else {
        Ok(fixed_fields(p, prefix_size(recs)) + offset_bytes(offs, 8) + (s.body + segment))
    }
}

/// A packet as bytes, or why it cannot be written.
pub open spec fn encoded(p: PacketModel) -> Result<Seq<u8>, PackError> {
    match input_fault(p) {
        Some(e) => Err(e),
        None => match payloads(p, p.blocks.len() as int) {
            Err(e) => Err(e),
            Ok((loads, _)) => match records(p, loads, p.blocks.len() as int) {
                Err(e) => Err(e),
                Ok(recs) => assemble(p, recs, segment(loads, p.blocks.len() as int)),
            },
        },
    }
}

/// Every payload that is compressed decompresses to itself.
pub open spec fn restorable(loads: Seq<Seq<u8>>, n: int) -> bool {
    forall|i: int|
        0 <= i < n && (#[trigger] loads[i]).len() > COMPRESS_ABOVE ==> snap_decompressed(
            snap_compressed(loads[i]),
        ) == Some(loads[i])
}

/// What the compressed payloads of an encoded packet decompress to is known.
pub open spec fn packet_restorable(p: PacketModel) -> bool {
    payloads(p, p.blocks.len() as int) matches Ok((loads, _)) ==> restorable(
        loads,
        p.blocks.len() as int,
    )
}

/// Places of transactions by identity, in numbers.
spec fn seen_view(m: Map<Seq<u8>, (usize, usize)>) -> Map<Seq<u8>, (nat, nat)> {
    Map::new(|k: Seq<u8>| m.contains_key(k), |k: Seq<u8>| (m[k].0 as nat, m[k].1 as nat))
}

proof fn lemma_tx_items_fault(
    p: PacketModel,
    b: BlockModel,
    seen: Map<Seq<u8>, (nat, nat)>,
    i: int,
    n: int,
)
    requires
        0 <= i <= n,
        tx_items(p, b, seen, i) is Err,
    ensures
        tx_items(p, b, seen, n) == tx_items(p, b, seen, i),
    decreases n,
{
    if n > i {
        lemma_tx_items_fault(p, b, seen, i, n - 1);
    }
}

proof fn lemma_reward_items_fault(list: Seq<RewardModel>, i: int, n: int)
    requires
        0 <= i <= n,
        reward_items(list, i) is Err,
    ensures
        reward_items(list, n) == reward_items(list, i),
    decreases n,
{
    if n > i {
        lemma_reward_items_fault(list, i, n - 1);
    }
}

proof fn lemma_unlock_items_fault(list: Seq<UnlockModel>, i: int, n: int)
    requires
        0 <= i <= n,
        unlock_items(list, i) is Err,
    ensures
        unlock_items(list, n) == unlock_items(list, i),
    decreases n,
{
    if n > i {
        lemma_unlock_items_fault(list, i, n - 1);
    }
}

proof fn lemma_payloads_fault(p: PacketModel, i: int, n: int)
    requires
        0 <= i <= n,
        payloads(p, i) is Err,
    ensures
        payloads(p, n) == payloads(p, i),
    decreases n,
{
    if n > i {
        lemma_payloads_fault(p, i, n - 1);
    }
}

proof fn lemma_records_fault(p: PacketModel, loads: Seq<Seq<u8>>, i: int, n: int)
    requires
        0 <= i <= n,
        records(p, loads, i) is Err,
    ensures
        records(p, loads, n) == records(p, loads, i),
    decreases n,
{
    if n > i {
        lemma_records_fault(p, loads, i, n - 1);
    }
}

/// Gathers the transactions of a block.
fn push_txs(
    block: &Block,
    index: &TxIndex<'_>,
    seen: &mut ByteMap<(usize, usize)>,
    list: &mut ListBuilder,
) -> (r: Result<(), PackError>)
    requires
        index.wf(),
        old(seen).wf(),
        old(list).wf(),
        old(list).items().len() == 0,
    ensures
        final(seen).wf(),
        final(list).wf(),
        ({
            let want = tx_items(
                index.packet@,
                block@,
                seen_view(old(seen)@),
                block@.txs.len() as int,
            );
            match r {
                Ok(_) => want == Ok::<(Seq<Seq<u8>>, Map<Seq<u8>, (nat, nat)>), PackError>(
                    (final(list).items(), seen_view(final(seen)@)),
                ),
                Err(e) => want == Err::<(Seq<Seq<u8>>, Map<Seq<u8>, (nat, nat)>), PackError>(e),
            }
        }),
{
    let ghost p = index.packet@;
    let ghost b = block@;
    let ghost s0 = seen_view(seen@);
    let given: bool = block.transaction_refs.len() == block.transactions.len();
    let n: usize = block.transactions.len();
    let mut i: usize = 0;
    proof {
        assert(list.items() =~= Seq::empty());
    }
    while i < n
        invariant
            i <= n,
            n == block.transactions@.len(),
            index.wf(),
            p == index.packet@,
            b == block@,
            s0 == seen_view(old(seen)@),
            given == (block.transaction_refs@.len() == block.transactions@.len()),
            seen.wf(),
            list.wf(),
            tx_items(p, b, s0, i as int) == Ok::<
                (Seq<Seq<u8>>, Map<Seq<u8>, (nat, nat)>),
                PackError,
            >((list.items(), seen_view(seen@))),
        decreases n - i,
    {
        let tx = &block.transactions[i];
        let ghost known = seen_view(seen@);
        let duplicate: Option<(usize, usize)> = if given {
            block.transaction_refs[i]
        } else {
            match seen.get(&tx.identity.0) {
                Some(place) => Some(*place),
                None => None,
            }
        };
        proof {
            assert(b.txs[i as int] == tx@);
            assert(repeated(b, i as int, known) == (match duplicate {
                Some((bi, ti)) => Some((bi as nat, ti as nat)),
                None => None,
            }));
        }
        match duplicate {
            Some((block_index, tx_index)) => match ref_bytes(block_index, tx_index) {
                Ok(item) => list.push(item.as_slice()),
                Err(e) => {
                    proof {
                        lemma_tx_items_fault(p, b, s0, i + 1, n as int);
                    }
                    return Err(e);
                },
            },
            None => match append_tx(index, block.epoch, tx) {
                Ok(item) => {
                    list.push(item.as_slice());
                    if !given {
                        let ghost before = seen@;
                        seen.insert(to_vec(&tx.identity.0), (block.index, i));
                        proof {
                            assert(seen_view(seen@) =~= seen_view(before).insert(
                                tx@.identity,
                                (b.index, i as nat),
                            ));
                        }
                    }
                },
                Err(e) => {
                    proof {
                        lemma_tx_items_fault(p, b, s0, i + 1, n as int);
                    }
                    return Err(e);
                },
            },
        }
        i += 1;
    }
    Ok(())
}

/// Gathers the interest distributions of a block.
fn push_rewards(block: &Block, list: &mut ListBuilder) -> (r: Result<(), PackError>)
    requires
        old(list).wf(),
    ensures
        final(list).wf(),
        match r {
            Ok(_) => reward_items(block@.rewards, block@.rewards.len() as int) matches Ok(items)
                && final(list).items() == old(list).items() + items,
            Err(e) => reward_items(block@.rewards, block@.rewards.len() as int) == Err::<
                Seq<Seq<u8>>,
                PackError,
            >(e),
        },
{
    let ghost all = block@.rewards;
    let ghost before = list.items();
    let n: usize = block.pos_rewards.len();
    let mut i: usize = 0;
    proof {
        assert(before + Seq::<Seq<u8>>::empty() =~= before);
    }
    while i < n
        invariant
            i <= n,
            n == block.pos_rewards@.len(),
            all == block@.rewards,
            list.wf(),
            reward_items(all, i as int) is Ok,
            list.items() == before + reward_items(all, i as int)->Ok_0,
        decreases n - i,
    {
        let ghost done = reward_items(all, i as int)->Ok_0;
        match reward_bytes(&block.pos_rewards[i]) {
            Ok(item) => {
                list.push(item.as_slice());
                proof {
                    assert(list.items() =~= before + done.push(item@));
                }
            },
            Err(e) => {
                proof {
                    lemma_reward_items_fault(all, i + 1, n as int);
                }
                return Err(e);
            },
        }
        i += 1;
    }
    Ok(())
}

/// Gathers the unlockings of a block.
fn push_unlocks(block: &Block, list: &mut ListBuilder) -> (r: Result<(), PackError>)
    requires
        old(list).wf(),
    ensures
        final(list).wf(),
        match r {
            Ok(_) => unlock_items(block@.unlocks, block@.unlocks.len() as int) matches Ok(items)
                && final(list).items() == old(list).items() + items,
            Err(e) => unlock_items(block@.unlocks, block@.unlocks.len() as int) == Err::<
                Seq<Seq<u8>>,
                PackError,
            >(e),
        },
{
    let ghost all = block@.unlocks;
    let ghost before = list.items();
    let n: usize = block.unlock_events.len();
    let mut i: usize = 0;
    proof {
        assert(before + Seq::<Seq<u8>>::empty() =~= before);
    }
    while i < n
        invariant
            i <= n,
            n == block.unlock_events@.len(),
            all == block@.unlocks,
            list.wf(),
            unlock_items(all, i as int) is Ok,
            list.items() == before + unlock_items(all, i as int)->Ok_0,
        decreases n - i,
    {
        let ghost done = unlock_items(all, i as int)->Ok_0;
        match unlock_bytes(&block.unlock_events[i]) {
            Ok(item) => {
                list.push(item.as_slice());
                proof {
                    assert(list.items() =~= before + done.push(item@));
                }
            },
            Err(e) => {
                proof {
                    lemma_unlock_items_fault(all, i + 1, n as int);
                }
                return Err(e);
            },
        }
        i += 1;
    }
    Ok(())
}

/// Writes the payload of a block.
fn encode_tx_payload(block: &Block, index: &TxIndex<'_>, seen: &mut ByteMap<(usize, usize)>) -> (r:
    Result<Vec<u8>, PackError>)
    requires
        index.wf(),
        old(seen).wf(),
    ensures
        final(seen).wf(),
        ({
            let want = payload(index.packet@, block@, seen_view(old(seen)@));
            match r {
                Ok(bytes) => want == Ok::<(Seq<u8>, Map<Seq<u8>, (nat, nat)>), PackError>(
                    (bytes@, seen_view(final(seen)@)),
                ),
                Err(e) => want == Err::<(Seq<u8>, Map<Seq<u8>, (nat, nat)>), PackError>(e),
            }
        }),
{
    let mut list = ListBuilder::new();
    match push_txs(block, index, seen, &mut list) {
        Ok(_) => {},
        Err(e) => {
            return Err(e);
        },
    }
    match push_rewards(block, &mut list) {
        Ok(_) => {},
        Err(e) => {
            return Err(e);
        },
    }
    match push_unlocks(block, &mut list) {
        Ok(_) => {},
        Err(e) => {
            return Err(e);
        },
    }
    if list.is_empty() {
        let none: Vec<u8> = Vec::new();
        proof {
            assert(none@ =~= Seq::empty());
        }
        return Ok(none);
    }
    list.finish()
}

/// Writes the payloads of the blocks.
fn encode_payloads(input: &Packet, index: &TxIndex<'_>) -> (r: Result<Vec<Vec<u8>>, PackError>)
    requires
        index.wf(),
        index.packet@ == input@,
    ensures
        match r {
            Ok(loads) => payloads(input@, input@.blocks.len() as int) matches Ok((want, _)) && want
                == byte_views(loads@),
            Err(e) => payloads(input@, input@.blocks.len() as int) == Err::<
                (Seq<Seq<u8>>, Map<Seq<u8>, (nat, nat)>),
                PackError,
            >(e),
        },
{
    let ghost p = input@;
    let n: usize = input.blocks.len();
    let mut seen: ByteMap<(usize, usize)> = ByteMap::new();
    let mut loads: Vec<Vec<u8>> = Vec::new();
    let mut i: usize = 0;
    proof {
        assert(byte_views(loads@) =~= Seq::empty());
        assert(seen_view(seen@) =~= Map::empty());
    }
    while i < n
        invariant
            i <= n,
            n == input.blocks@.len(),
            p == input@,
            index.wf(),
            index.packet@ == p,
            seen.wf(),
            payloads(p, i as int) == Ok::<(Seq<Seq<u8>>, Map<Seq<u8>, (nat, nat)>), PackError>(
                (byte_views(loads@), seen_view(seen@)),
            ),
        decreases n - i,
    {
        let ghost done = byte_views(loads@);
        proof {
            assert(p.blocks[i as int] == input.blocks@[i as int]@);
        }
        match encode_tx_payload(&input.blocks[i], index, &mut seen) {
            Ok(bytes) => {
                loads.push(bytes);
                proof {
                    assert(byte_views(loads@) =~= done.push(bytes@));
                }
            },
            Err(e) => {
                proof {
                    lemma_payloads_fault(p, i + 1, n as int);
                }
                return Err(e);
            },
        }
        i += 1;
    }
    Ok(loads)
}

/// Appends a payload to the transaction segment, and returns its place there.
fn store_payload(seg: &mut Vec<u8>, load: &Vec<u8>) -> (r: Result<u64, PackError>)
    requires
        load@.len() > 0,
    ensures
        match r {
            Ok(place) => {
                &&& load@.len() > COMPRESS_ABOVE ==> compressible(load@.len()) && snap_decompressed(
                    snap_compressed(load@),
                ) == Some(load@)
                &&& place == aligned(old(seg)@, 4).len() / 4
                &&& final(seg)@ == aligned(old(seg)@, 4) + uleb(stored(load@).len()) + stored(load@)
            },
            Err(e) => load@.len() > COMPRESS_ABOVE && !compressible(load@.len()) && e
                == PackError::Compress,
        },
{
    align_to(seg, 4);
    let place: u64 = (seg.len() / 4) as u64;
    if load.len() > COMPRESS_ABOVE {
        match compress(load.as_slice()) {
            Ok(body) => {
                put_uleb128(seg, body.len() as u64);
                append_bytes(seg, body.as_slice());
            },
            Err(_) => {
                return Err(PackError::Compress);
            },
        }
    } else {
        put_uleb128(seg, load.len() as u64);
        append_bytes(seg, load.as_slice());
    }
    Ok(place)
}

/// The flags that are written, given the length of the payload.
fn flags_for(flags: u8, load_len: usize, Ghost(load): Ghost<Seq<u8>>) -> (r: u8)
    requires
        load_len == load.len(),
    ensures
        r == written_flags(flags, load),
{
    let kept: u8 = flags % 8 + flags / 32 * 32;
    if load_len == 0 {
        kept
    } else if load_len > COMPRESS_ABOVE {
        kept + FLAG_HAS_TRANSACTIONS + FLAG_TX_COMPRESSED
    } else {
        kept + FLAG_HAS_TRANSACTIONS
    }
}

/// Writes the records of the blocks and the transaction segment.
fn encode_blocks(
    input: &Packet,
    address_index: &TableIndex,
    difficulty_index: &TableIndex,
    loads: &Vec<Vec<u8>>,
) -> (r: Result<(Vec<Vec<u8>>, Vec<u8>), PackError>)
    requires
        address_index.is_of(input@.addresses),
        difficulty_index.is_of(input@.difficulties),
        loads@.len() == input@.blocks.len(),
    ensures
        ({
            let want = records(input@, byte_views(loads@), input@.blocks.len() as int);
            match r {
                Ok((recs, seg)) => {
                    &&& want == Ok::<Seq<Seq<u8>>, PackError>(byte_views(recs@))
                    &&& seg@ == segment(byte_views(loads@), input@.blocks.len() as int)
                    &&& restorable(byte_views(loads@), input@.blocks.len() as int)
                },
                Err(e) => want == Err::<Seq<Seq<u8>>, PackError>(e),
            }
        }),
{
    let ghost p = input@;
    let ghost all = byte_views(loads@);
    let n: usize = input.blocks.len();
    let mut recs: Vec<Vec<u8>> = Vec::new();
    let mut seg: Vec<u8> = Vec::new();
    let mut i: usize = 0;
    proof {
        assert(byte_views(recs@) =~= Seq::empty());
        assert(seg@ =~= Seq::empty());
    }
    while i < n
        invariant
            i <= n,
            n == input.blocks@.len(),
            n == loads@.len(),
            p == input@,
            all == byte_views(loads@),
            address_index.is_of(p.addresses),
            difficulty_index.is_of(p.difficulties),
            records(p, all, i as int) == Ok::<Seq<Seq<u8>>, PackError>(byte_views(recs@)),
            seg@ == segment(all, i as int),
            restorable(all, i as int),
        decreases n - i,
    {
        let block: &Block = &input.blocks[i];
        let load: &Vec<u8> = &loads[i];
        let ghost done = byte_views(recs@);
        proof {
            assert(p.blocks[i as int] == block@);
            assert(all[i as int] == load@);
        }
        let flags: u8 = flags_for(block.flags, load.len(), Ghost(load@));
        let mut place: u64 = 0;
        if load.len() > 0 {
            match store_payload(&mut seg, load) {
                Ok(at) => {
                    place = at;
                },
                Err(e) => {
                    proof {
                        lemma_records_fault(p, all, i + 1, n as int);
                    }
                    return Err(e);
                },
            }
        }
        proof {
            assert(place == tx_place(all, i as int));
            assert(seg@ == segment(all, i + 1));
        }
        match encode_block_record(block, flags, place, input, address_index, difficulty_index) {
            Ok(record) => {
                recs.push(record);
                proof {
                    assert(byte_views(recs@) =~= done.push(record@));
                }
            },
            Err(e) => {
                proof {
                    lemma_records_fault(p, all, i + 1, n as int);
                }
                return Err(e);
            },
        }
        i += 1;
    }
    Ok((recs, seg))
}

fn append_addresses(out: &mut Vec<u8>, table: &Vec<crate::cfxpack::types::Address>)
    ensures
        final(out)@ == old(out)@ + join(views(table@)),
{
    let ghost all = views(table@);
    let ghost before = out@;
    let mut i: usize = 0;
    proof {
        assert(all.take(0) =~= Seq::empty());
        assert(before + Seq::<u8>::empty() =~= before);
    }
    while i < table.len()
        invariant
            i <= table@.len(),
            all == views(table@),
            out@ == before + join(all.take(i as int)),
        decreases table@.len() - i,
    {
        append_bytes(out, &table[i].0);
        proof {
            lemma_join_push(all.take(i as int), all[i as int]);
            assert(all.take(i + 1) =~= all.take(i as int).push(all[i as int]));
            assert(out@ =~= before + join(all.take(i + 1)));
        }
        i += 1;
    }
    proof {
        assert(all.take(i as int) =~= all);
    }
}

fn append_words(out: &mut Vec<u8>, table: &Vec<crate::cfxpack::types::U256>)
    ensures
        final(out)@ == old(out)@ + join(views(table@)),
{
    let ghost all = views(table@);
    let ghost before = out@;
    let mut i: usize = 0;
    proof {
        assert(all.take(0) =~= Seq::empty());
        assert(before + Seq::<u8>::empty() =~= before);
    }
    while i < table.len()
        invariant
            i <= table@.len(),
            all == views(table@),
            out@ == before + join(all.take(i as int)),
        decreases table@.len() - i,
    {
        append_bytes(out, &table[i].0);
        proof {
            lemma_join_push(all.take(i as int), all[i as int]);
            assert(all.take(i + 1) =~= all.take(i as int).push(all[i as int]));
            assert(out@ =~= before + join(all.take(i + 1)));
        }
        i += 1;
    }
    proof {
        assert(all.take(i as int) =~= all);
    }
}

fn append_pos_entries(out: &mut Vec<u8>, table: &Vec<crate::cfxpack::packet::PosLookupEntry>)
    ensures
        final(out)@ == old(out)@ + pos_bytes(views(table@)),
{
    let ghost all = views(table@);
    let ghost before = out@;
    let mut i: usize = 0;
    proof {
        assert(all.take(0) =~= Seq::empty());
        assert(before + Seq::<u8>::empty() =~= before);
    }
    while i < table.len()
        invariant
            i <= table@.len(),
            all == views(table@),
            out@ == before + pos_bytes(all.take(i as int)),
        decreases table@.len() - i,
    {
        let height: u16 = table[i].height_offset;
        append_bytes(out, &table[i].hash.0);
        out.push((height % 256) as u8);
        out.push((height / 256) as u8);
        proof {
            reveal_with_fuel(le_bytes, 3);
            let t = all.take(i + 1);
            assert(t.drop_last() =~= all.take(i as int));
            assert(t.last() == all[i as int]);
            assert(out@ =~= before + pos_bytes(t));
        }
        i += 1;
    }
    proof {
        assert(all.take(i as int) =~= all);
    }
}

fn append_nonces(out: &mut Vec<u8>, table: &Vec<crate::cfxpack::packet::SenderBaseNonce>)
    ensures
        final(out)@ == old(out)@ + nonce_bytes(views(table@)),
{
    let ghost all = views(table@);
    let ghost before = out@;
    let mut i: usize = 0;
    proof {
        assert(all.take(0) =~= Seq::empty());
        assert(before + Seq::<u8>::empty() =~= before);
    }
    while i < table.len()
        invariant
            i <= table@.len(),
            all == views(table@),
            out@ == before + nonce_bytes(all.take(i as int)),
        decreases table@.len() - i,
    {
        put_uleb128(out, table[i].sender_index as u64);
        put_uleb128(out, table[i].base_nonce);
        proof {
            let t = all.take(i + 1);
            assert(t.drop_last() =~= all.take(i as int));
            assert(t.last() == all[i as int]);
            assert(out@ =~= before + nonce_bytes(t));
        }
        i += 1;
    }
    proof {
        assert(all.take(i as int) =~= all);
    }
}

/// Appends a header of offsets, each of which fits 32 bits.
fn append_offsets(out: &mut Vec<u8>, offs: &Vec<u32>)
    requires
        offs@.len() == 8,
    ensures
        final(out)@ == old(out)@ + offset_bytes(Seq::new(8, |i: int| offs@[i] as nat), 8),
{
    let ghost all = Seq::new(8, |i: int| offs@[i] as nat);
    let ghost before = out@;
    let mut i: usize = 0;
    proof {
        assert(before + Seq::<u8>::empty() =~= before);
    }
    while i < 8
        invariant
            i <= 8,
            offs@.len() == 8,
            all == Seq::new(8, |i: int| offs@[i] as nat),
            out@ == before + offset_bytes(all, i as int),
        decreases 8 - i,
    {
        put_u32_le(out, offs[i]);
        proof {
            assert(out@ =~= before + offset_bytes(all, i + 1));
        }
        i += 1;
    }
}

/// The 32-bit offset of what follows `rest` behind the header, where it fits.
fn offset_after(rest: &Vec<u8>) -> (r: Option<u32>)
    ensures
        match r {
            Some(o) => o == 125 + rest@.len(),
            None => 125 + rest@.len() > u32::MAX,
        },
{
    let o: u128 = 125 + rest.len() as u128;
    if o > u32::MAX as u128 {
        None
    } else {
        Some(o as u32)
    }
}

/// Whether the sections of a packet, each no longer than the next, have offsets
/// that fit 32 bits.
proof fn lemma_sections_grow(p: PacketModel, recs: Seq<Seq<u8>>)
    ensures
        ({
            let s = sections(p, recs);
            &&& s.addresses.len() <= s.pos.len() <= s.difficulties.len() <= s.nonces.len()
                <= s.prices.len() <= s.header.len() <= s.body.len()
            &&& recs.len() > u32::MAX ==> s.body.len() > u32::MAX
        }),
{
    reveal(sections);
    let n = prefix_size(recs);
    lemma_fixed_len(recs, n);
    assert(recs.len() * n >= recs.len()) by (nonlinear_arith)
        requires
            n >= 1,
    ;
}

/// Writes the header, the tables, the block area and the transaction segment.
fn assemble_packet(input: &Packet, recs: &Vec<Vec<u8>>, seg: &Vec<u8>) -> (r: Result<
    Vec<u8>,
    PackError,
>)
    ensures
        match r {
            Ok(bytes) => assemble(input@, byte_views(recs@), seg@) == Ok::<Seq<u8>, PackError>(
                bytes@,
            ),
            Err(e) => assemble(input@, byte_views(recs@), seg@) == Err::<Seq<u8>, PackError>(e),
        },
{
    let ghost p = input@;
    let ghost all = byte_views(recs@);
    let ghost s = sections(p, all);
    proof {
        reveal(sections);
        lemma_sections_grow(p, all);
    }
    let size: usize = choose_prefix_size(recs);
    let (block_body, extension_bitmap): (Vec<u8>, Vec<u8>) = pack_block_body(recs, size);
    let mut offs: Vec<u32> = Vec::new();
    offs.push(125);
    let mut rest: Vec<u8> = Vec::new();
    append_addresses(&mut rest, &input.addresses);
    proof {
        assert(rest@ =~= s.addresses);
    }
    match offset_after(&rest) {
        Some(o) => offs.push(o),
        None => {
            return Err(PackError::OffsetTooLarge);
        },
    }
    append_pos_entries(&mut rest, &input.pos_entries);
    match offset_after(&rest) {
        Some(o) => offs.push(o),
        None => {
            return Err(PackError::OffsetTooLarge);
        },
    }
    append_words(&mut rest, &input.difficulties);
    match offset_after(&rest) {
        Some(o) => offs.push(o),
        None => {
            return Err(PackError::OffsetTooLarge);
        },
    }
    append_nonces(&mut rest, &input.sender_base_nonces);
    match offset_after(&rest) {
        Some(o) => offs.push(o),
        None => {
            return Err(PackError::OffsetTooLarge);
        },
    }
    append_words(&mut rest, &input.gas_prices);
    pad_from(&mut rest, HEADER_LEN, 32);
    proof {
        assert(rest@ == s.prices);
    }
    match offset_after(&rest) {
        Some(o) => offs.push(o),
        None => {
            return Err(PackError::OffsetTooLarge);
        },
    }
    if recs.len() as u128 > u32::MAX as u128 {
        return Err(PackError::OffsetTooLarge);
    }
    let ghost prices = rest@;
    put_u32_le(&mut rest, recs.len() as u32);
    append_bytes(&mut rest, extension_bitmap.as_slice());
    proof {
        assert(rest@ =~= prices + (le_bytes(all.len(), 4) + bitmap(all, size as nat)));
    }
    pad_from(&mut rest, HEADER_LEN, 32);
    match offset_after(&rest) {
        Some(o) => offs.push(o),
        None => {
            return Err(PackError::OffsetTooLarge);
        },
    }
    append_bytes(&mut rest, block_body.as_slice());
    pad_from(&mut rest, HEADER_LEN, 64);
    match offset_after(&rest) {
        Some(o) => offs.push(o),
        None => {
            return Err(PackError::OffsetTooLarge);
        },
    }
    proof {
        assert(rest@ == s.body);
        assert(Seq::new(8, |i: int| offs@[i] as nat) =~= offsets(s));
    }
    append_bytes(&mut rest, seg.as_slice());
    let mut out: Vec<u8> = to_vec(&input.prev_last_hash.0);
    append_bytes(&mut out, &input.prev_last_deferred_state_root.0);
    put_u64_le(&mut out, input.first_block_number);
    put_u64_le(&mut out, input.min_timestamp);
    put_u64_le(&mut out, input.min_height);
    put_u32_le(&mut out, (input.min_pos_height % 0x1_0000_0000) as u32);
    out.push(size as u8);
    proof {
        assert(out@ =~= fixed_fields(p, prefix_size(all)));
    }
    append_offsets(&mut out, &offs);
    append_bytes(&mut out, rest.as_slice());
    Ok(out)
}

/// Writes a packet.
///
/// The bytes are those of the specified layout; what the compressed payloads in
/// them decompress to is stated beside.
pub fn encode_packet(input: &Packet) -> (r: Result<Vec<u8>, PackError>)
    ensures
        match r {
            Ok(bytes) => encoded(input@) == Ok::<Seq<u8>, PackError>(bytes@) && packet_restorable(
                input@,
            ),
            Err(e) => encoded(input@) == Err::<Seq<u8>, PackError>(e),
        },
{
    match validate_input(input) {
        Ok(_) => {},
        Err(e) => {
            return Err(e);
        },
    }
    let address_index = TableIndex::of_addresses(&input.addresses);
    let difficulty_index = TableIndex::of_words(&input.difficulties);
    let gas_price_index = TableIndex::of_words(&input.gas_prices);
    let nonce_index = NonceIndex::new(&input.sender_base_nonces, input.addresses.len());
    let index = TxIndex {
        packet: input,
        addresses: &address_index,
        gas_prices: &gas_price_index,
        nonces: &nonce_index,
    };
    let loads = match encode_payloads(input, &index) {
        Ok(loads) => loads,
        Err(e) => {
            return Err(e);
        },
    };
    proof {
        lemma_payloads_len(input@, input@.blocks.len() as int);
    }
    match encode_blocks(input, &address_index, &difficulty_index, &loads) {
        Ok((recs, seg)) => assemble_packet(input, &recs, &seg),
        Err(e) => Err(e),
    }
}

pub proof fn lemma_payloads_len(p: PacketModel, n: int)
    requires
        0 <= n,
    ensures
        payloads(p, n) matches Ok((loads, _)) ==> loads.len() == n,
    decreases n,
{
    if n > 0 {
        lemma_payloads_len(p, n - 1);
    }
}

} // verus!
