//! Checking that bytes have the structure of a packet.
use crate::cfxpack::body::{decode_block_records, decode_records, records_from, BodyLayout, DecodedRecord, RecordModel};
use crate::cfxpack::codec::{le_at, read_uleb};
use crate::cfxpack::decode::{bare_blocks, decode_addresses, decode_pos_entries, decode_sender_base_nonces, decode_u256_table, decoded, header_fault, loaded_blocks, number_at, offset_of, read_offsets, tables_of, with_epochs};
use crate::cfxpack::encode::{encoded, flag, has_flag, packet_restorable};
use crate::cfxpack::error::PackError;
use crate::cfxpack::packet::{views, BlockModel, PacketModel, FLAG_HAS_TRANSACTIONS};
use crate::cfxpack::record::RecordContext;
use crate::cfxpack::rlp_form::byte_views;
use crate::cfxpack::roundtrip::{kept_block, kept_packet, law_packet_roundtrip, readable};
use crate::cfxpack::txdecode::{get_items, get_u8, items_of, load_items, load_payload, num_at, payload_at, payload_bytes, txs_before, TxContext};
use crate::cfxpack::types::{le_value, lemma_le_value_bound, lemma_pow256};
use vstd::prelude::*;

verus! {

/// What the check of a packet found.
#[derive(Clone, Copy, Debug, PartialEq, Eq, Structural)]
pub struct VerifyReport {
    pub packet_bytes: usize,
    pub first_block_number: u64,
    pub block_count: u32,
    /// The blocks that have a payload.
    pub transaction_blocks: u32,
    /// The transactions in all payloads.
    pub transaction_items: u64,
    pub block_prefix_size: usize,
}

/// The number of transactions among the first `n` items of a payload. PoS rewards
/// and unlock events are no transactions.
pub open spec fn marked_txs(items: Seq<Seq<u8>>, n: int) -> Result<nat, PackError>
    decreases n,
{
    if n <= 0 {
        Ok(0)
    } else {
        match marked_txs(items, n - 1) {
            Err(e) => Err(e),
            Ok(done) => match items_of(items[n - 1]) {
                Err(e) => Err(e),
                Ok(fields) => match num_at(fields, 0, 1) {
                    Err(e) => Err(e),
                    Ok(marker) => if marker == 3 || marker == 4 {
                        Ok(done)
                    } else {
                        Ok(done + 1)
                    },
                },
            },
        }
    }
}

/// The number of transactions in the payload of a record.
pub open spec fn payload_txs(data: Seq<u8>, rec: RecordModel) -> Result<nat, PackError> {
    match payload_at(data, offset_of(data, 7) as int, rec.offset, rec.bytes[44]) {
        Err(e) => Err(e),
        Ok(bytes) => match items_of(bytes) {
            Err(e) => Err(e),
            Ok(items) => marked_txs(items, items.len() as int),
        },
    }
}

/// The payloads of the first `n` records and the transactions in them.
pub open spec fn tally(data: Seq<u8>, recs: Seq<RecordModel>, n: int) -> Result<
    (nat, nat),
    PackError,
>
    decreases n,
{
    if n <= 0 {
        Ok((0, 0))
    } else {
        match tally(data, recs, n - 1) {
            Err(e) => Err(e),
            Ok((blocks, items)) => if recs[n - 1].bytes.len() < 45 {
                Err(PackError::ShortRecord)
            } else if !flag(recs[n - 1].bytes[44], FLAG_HAS_TRANSACTIONS) {
                Ok((blocks, items))
            } else {
                match payload_txs(data, recs[n - 1]) {
                    Err(e) => Err(e),
                    Ok(count) => if items + count > u64::MAX {
                        Err(PackError::ValueTooLarge)
                    } else {
                        Ok((blocks + 1, items + count))
                    },
                }
            },
        }
    }
}

/// What the check of a packet finds, or why the bytes are no packet.
pub open spec fn verified(data: Seq<u8>) -> Result<VerifyReport, PackError> {
    match header_fault(data) {
        Some(e) => Err(e),
        None => match tables_of(data) {
            Err(e) => Err(e),
            Ok(_) => match decode_records(
                data,
                offset_of(data, 5) as int,
                offset_of(data, 6) as int,
                offset_of(data, 7) as int,
                data[92] as int,
            ) {
                Err(e) => Err(e),
                Ok(recs) => match tally(data, recs, recs.len() as int) {
                    Err(e) => Err(e),
                    Ok((blocks, items)) => Ok(
                        VerifyReport {
                            packet_bytes: data.len() as usize,
                            first_block_number: le_value(data.subrange(64, 72)) as u64,
                            block_count: recs.len() as u32,
                            transaction_blocks: blocks as u32,
                            transaction_items: items as u64,
                            block_prefix_size: data[92] as usize,
                        },
                    ),
                },
            },
        },
    }
}

proof fn lemma_marked_fault(items: Seq<Seq<u8>>, i: int, n: int)
    requires
        0 <= i <= n,
        marked_txs(items, i) is Err,
    ensures
        marked_txs(items, n) == marked_txs(items, i),
    decreases n,
{
    if n > i {
        lemma_marked_fault(items, i, n - 1);
    }
}

proof fn lemma_tally_fault(data: Seq<u8>, recs: Seq<RecordModel>, i: int, n: int)
    requires
        0 <= i <= n,
        tally(data, recs, i) is Err,
    ensures
        tally(data, recs, n) == tally(data, recs, i),
    decreases n,
{
    if n > i {
        lemma_tally_fault(data, recs, i, n - 1);
    }
}

proof fn lemma_record_count(data: Seq<u8>, l: BodyLayout, i: int, at: int)
    requires
        0 <= i <= l.count,
    ensures
        records_from(data, l, i, at) matches Ok(recs) ==> recs.len() == l.count - i,
    decreases l.count - i,
{
    if i < l.count {
        lemma_record_count(data, l, i + 1, at);
        match read_uleb(data.skip(at)) {
            Ok((len, rest)) => {
                lemma_record_count(data, l, i + 1, data.len() - rest.len() + len);
            },
            Err(_) => {},
        }
    }
}

/// A packet has at most as many records as 32 bits can count.
proof fn lemma_few_records(data: Seq<u8>, header: int, body: int, end: int, size: int)
    requires
        0 <= header,
    ensures
        decode_records(data, header, body, end, size) matches Ok(recs) ==> recs.len() <= u32::MAX,
{
    match le_at(data, header, 4) {
        Ok(count) => {
            lemma_le_value_bound(data.subrange(header, header + 4));
            lemma_pow256();
            let l = BodyLayout { bitmap: header + 4, body, end, size, count: count as int };
            lemma_record_count(data, l, 0, body + count * size);
        },
        Err(_) => {},
    }
}

/// Counts the transactions of a payload.
fn count_items(bytes: &[u8]) -> (r: Result<u64, PackError>)
    ensures
        ({
            let want = match items_of(bytes@) {
                Err(e) => Err(e),
                Ok(items) => marked_txs(items, items.len() as int),
            };
            match r {
                Ok(count) => want == Ok::<nat, PackError>(count as nat),
                Err(e) => want == Err::<nat, PackError>(e),
            }
        }),
{
    let items = match get_items(bytes) {
        Ok(items) => items,
        Err(e) => {
            return Err(e);
        },
    };
    let ghost all = byte_views(items@);
    let mut count: u64 = 0;
    let mut i: usize = 0;
    while i < items.len()
        invariant
            i <= items@.len(),
            all == byte_views(items@),
            items_of(bytes@) == Ok::<Seq<Seq<u8>>, PackError>(all),
            count <= i,
            marked_txs(all, i as int) == Ok::<nat, PackError>(count as nat),
        decreases items@.len() - i,
    {
        proof {
            if marked_txs(all, i + 1) is Err {
                lemma_marked_fault(all, i + 1, all.len() as int);
            }
        }
        let fields = match get_items(items[i].as_slice()) {
            Ok(fields) => fields,
            Err(e) => {
                return Err(e);
            },
        };
        let marker: u8 = match get_u8(&fields, 0) {
            Ok(v) => v,
            Err(e) => {
                return Err(e);
            },
        };
        if marker != 3 && marker != 4 {
            count = count + 1;
        }
        i += 1;
    }
    Ok(count)
}

/// Counts the payloads and the transactions in them.
fn count_payloads(data: &[u8], tx_segment_offset: usize, recs: &Vec<DecodedRecord>) -> (r: Result<
    (u32, u64),
    PackError,
>)
    requires
        tx_segment_offset <= data@.len(),
        tx_segment_offset == offset_of(data@, 7),
        recs@.len() <= u32::MAX,
    ensures
        ({
            let want = tally(data@, views(recs@), recs@.len() as int);
            match r {
                Ok((blocks, items)) => want == Ok::<(nat, nat), PackError>(
                    (blocks as nat, items as nat),
                ),
                Err(e) => want == Err::<(nat, nat), PackError>(e),
            }
        }),
{
    let ghost all = views(recs@);
    let mut blocks: u32 = 0;
    let mut items: u64 = 0;
    let mut i: usize = 0;
    while i < recs.len()
        invariant
            i <= recs@.len(),
            recs@.len() <= u32::MAX,
            tx_segment_offset <= data@.len(),
            tx_segment_offset == offset_of(data@, 7),
            all == views(recs@),
            blocks <= i,
            tally(data@, all, i as int) == Ok::<(nat, nat), PackError>(
                (blocks as nat, items as nat),
            ),
        decreases recs@.len() - i,
    {
        proof {
            assert(all[i as int] == recs@[i as int]@);
            if tally(data@, all, i + 1) is Err {
                lemma_tally_fault(data@, all, i + 1, all.len() as int);
            }
        }
        let rec: &DecodedRecord = &recs[i];
        if rec.bytes.len() < 45 {
            return Err(PackError::ShortRecord);
        }
        let flags: u8 = rec.bytes[44];
        if has_flag(flags, FLAG_HAS_TRANSACTIONS) {
            let bytes = match payload_bytes(data, tx_segment_offset, rec.tx_offset_units, flags) {
                Ok(b) => b,
                Err(e) => {
                    return Err(e);
                },
            };
            let count: u64 = match count_items(bytes.as_slice()) {
                Ok(v) => v,
                Err(e) => {
                    return Err(e);
                },
            };
            if count > u64::MAX - items {
                return Err(PackError::ValueTooLarge);
            }
            blocks = blocks + 1;
            items = items + count;
        }
        i += 1;
    }
    Ok((blocks, items))
}

/// Checks that `data` has the structure of a packet, and counts what it holds.
pub fn verify_packet(data: &[u8]) -> (r: Result<VerifyReport, PackError>)
    ensures
        r == verified(data@),
{
    let offs = match read_offsets(data) {
        Ok(offs) => offs,
        Err(e) => {
            return Err(e);
        },
    };
    proof {
        assert(offs@[0] <= offs@[1] && offs@[1] <= offs@[2] && offs@[2] <= offs@[3] && offs@[3]
            <= offs@[4] && offs@[4] <= offs@[5] && offs@[5] <= offs@[6] && offs@[6] <= offs@[7]
            && offs@[7] <= data@.len());
    }
    let first_block_number: u64 = number_at(data, 64);
    let size: usize = data[92] as usize;
    match decode_addresses(&data[offs[0]..offs[1]]) {
        Ok(_) => {},
        Err(e) => {
            return Err(e);
        },
    }
    match decode_pos_entries(&data[offs[1]..offs[2]]) {
        Ok(_) => {},
        Err(e) => {
            return Err(e);
        },
    }
    match decode_u256_table(&data[offs[2]..offs[3]]) {
        Ok(_) => {},
        Err(e) => {
            return Err(e);
        },
    }
    match decode_sender_base_nonces(&data[offs[3]..offs[4]]) {
        Ok(_) => {},
        Err(e) => {
            return Err(e);
        },
    }
    match decode_u256_table(&data[offs[4]..offs[5]]) {
        Ok(_) => {},
        Err(e) => {
            return Err(e);
        },
    }
    let recs = match decode_block_records(data, offs[5], offs[6], offs[7], size) {
        Ok(v) => v,
        Err(e) => {
            return Err(e);
        },
    };
    proof {
        lemma_few_records(
            data@,
            offs@[5] as int,
            offs@[6] as int,
            offs@[7] as int,
            size as int,
        );
    }
    let (transaction_blocks, transaction_items): (u32, u64) = match count_payloads(
        data,
        offs[7],
        &recs,
    ) {
        Ok(v) => v,
        Err(e) => {
            return Err(e);
        },
    };
    Ok(
        VerifyReport {
            packet_bytes: data.len(),
            first_block_number,
            block_count: recs.len() as u32,
            transaction_blocks,
            transaction_items,
            block_prefix_size: size,
        },
    )
}

/// The number of the first `n` blocks that have a payload.
pub open spec fn payload_blocks(blocks: Seq<BlockModel>, n: int) -> nat
    decreases n,
{
    if n <= 0 {
        0
    } else {
        payload_blocks(blocks, n - 1) + if flag(blocks[n - 1].flags, FLAG_HAS_TRANSACTIONS) {
            1nat
        } else {
            0
        }
    }
}

/// The number of transactions in the first `n` blocks.
pub open spec fn total_txs(blocks: Seq<BlockModel>, n: int) -> nat
    decreases n,
{
    if n <= 0 {
        0
    } else {
        total_txs(blocks, n - 1) + blocks[n - 1].txs.len()
    }
}

/// A payload that can be read has as many transactions as the check counts.
proof fn lemma_marked(
    items: Seq<Seq<u8>>,
    n: int,
    epoch: u64,
    c: TxContext,
    previous: Seq<Seq<crate::cfxpack::packet::TxModel>>,
)
    requires
        load_items(items, n, epoch, c, previous) is Ok,
    ensures
        marked_txs(items, n) == Ok::<nat, PackError>(
            load_items(items, n, epoch, c, previous)->Ok_0.txs.len(),
        ),
    decreases n,
{
    if n > 0 {
        lemma_marked(items, n - 1, epoch, c, previous);
    }
}

proof fn lemma_bare_flags(recs: Seq<RecordModel>, c: RecordContext, n: int)
    requires
        0 <= n <= recs.len(),
        bare_blocks(recs, c, n) is Ok,
    ensures
        bare_blocks(recs, c, n)->Ok_0.len() == n,
        forall|i: int|
            0 <= i < n ==> (#[trigger] recs[i]).bytes.len() >= 45 && bare_blocks(
                recs,
                c,
                n,
            )->Ok_0[i].flags == recs[i].bytes[44] && bare_blocks(recs, c, n)->Ok_0[i].txs
                == Seq::<crate::cfxpack::packet::TxModel>::empty(),
    decreases n,
{
    if n > 0 {
        lemma_bare_flags(recs, c, n - 1);
    }
}

/// What stays as it is where blocks get their payloads.
proof fn lemma_loaded_frame(
    data: Seq<u8>,
    blocks: Seq<BlockModel>,
    recs: Seq<RecordModel>,
    c: TxContext,
    n: int,
)
    requires
        0 <= n <= blocks.len(),
        loaded_blocks(data, blocks, recs, c, n) is Ok,
    ensures
        ({
            let done = loaded_blocks(data, blocks, recs, c, n)->Ok_0;
            &&& done.len() == blocks.len()
            &&& forall|i: int|
                0 <= i < done.len() ==> (#[trigger] done[i]).flags == blocks[i].flags
            &&& forall|i: int| n <= i < done.len() ==> #[trigger] done[i] == blocks[i]
        }),
    decreases n,
{
    if n > 0 {
        lemma_loaded_frame(data, blocks, recs, c, n - 1);
    }
}

proof fn lemma_tally(
    data: Seq<u8>,
    blocks: Seq<BlockModel>,
    recs: Seq<RecordModel>,
    c: TxContext,
    n: int,
)
    requires
        0 <= n <= blocks.len(),
        blocks.len() == recs.len(),
        forall|i: int|
            0 <= i < blocks.len() ==> (#[trigger] recs[i]).bytes.len() >= 45 && blocks[i].flags
                == recs[i].bytes[44] && blocks[i].txs
                == Seq::<crate::cfxpack::packet::TxModel>::empty(),
        loaded_blocks(data, blocks, recs, c, n) is Ok,
        total_txs(loaded_blocks(data, blocks, recs, c, n)->Ok_0, n) <= u64::MAX,
    ensures
        ({
            let done = loaded_blocks(data, blocks, recs, c, n)->Ok_0;
            tally(data, recs, n) == Ok::<(nat, nat), PackError>(
                (payload_blocks(done, n), total_txs(done, n)),
            )
        }),
    decreases n,
{
    if n > 0 {
        let before = loaded_blocks(data, blocks, recs, c, n - 1)->Ok_0;
        let done = loaded_blocks(data, blocks, recs, c, n)->Ok_0;
        lemma_loaded_frame(data, blocks, recs, c, n - 1);
        lemma_loaded_frame(data, blocks, recs, c, n);
        assert(forall|i: int| 0 <= i < n - 1 ==> #[trigger] done[i] == before[i]);
        lemma_counts_same(done, before, n - 1);
        lemma_tally(data, blocks, recs, c, n - 1);
        assert(recs[n - 1].bytes.len() >= 45);
        assert(before[n - 1] == blocks[n - 1]);
        if flag(blocks[n - 1].flags, FLAG_HAS_TRANSACTIONS) {
            reveal(load_payload);
            let bytes = payload_at(
                data,
                offset_of(data, 7) as int,
                recs[n - 1].offset,
                blocks[n - 1].flags,
            )->Ok_0;
            let items = items_of(bytes)->Ok_0;
            lemma_marked(
                items,
                items.len() as int,
                before[n - 1].epoch,
                c,
                txs_before(before, n - 1),
            );
        }
    }
}

proof fn lemma_counts_same(a: Seq<BlockModel>, b: Seq<BlockModel>, n: int)
    requires
        forall|i: int| 0 <= i < n ==> #[trigger] a[i] == b[i],
    ensures
        payload_blocks(a, n) == payload_blocks(b, n),
        total_txs(a, n) == total_txs(b, n),
    decreases n,
{
    if n > 0 {
        assert(a[n - 1] == b[n - 1]);
        lemma_counts_same(a, b, n - 1);
    }
}

/// A packet that can be read passes the check, and the check counts what reading it
/// gives.
pub proof fn law_readable_verifies(data: Seq<u8>, pos_from: Option<u64>)
    requires
        decoded(data, pos_from) is Ok,
        total_txs(
            decoded(data, pos_from)->Ok_0.blocks,
            decoded(data, pos_from)->Ok_0.blocks.len() as int,
        ) <= u64::MAX,
    ensures
        ({
            let p = decoded(data, pos_from)->Ok_0;
            let n = p.blocks.len() as int;
            verified(data) == Ok::<VerifyReport, PackError>(
                VerifyReport {
                    packet_bytes: data.len() as usize,
                    first_block_number: p.first_block_number,
                    block_count: n as u32,
                    transaction_blocks: payload_blocks(p.blocks, n) as u32,
                    transaction_items: total_txs(p.blocks, n) as u64,
                    block_prefix_size: data[92] as usize,
                },
            )
        }),
{
    let t = tables_of(data)->Ok_0;
    let c = RecordContext {
        min_timestamp: le_value(data.subrange(72, 80)) as u64,
        min_height: le_value(data.subrange(80, 88)) as u64,
        addresses: t.addresses,
        difficulties: t.difficulties,
        pos_from,
    };
    let txc = TxContext {
        addresses: t.addresses,
        gas_prices: t.gas_prices,
        base_nonces: t.base_nonces,
    };
    let recs = decode_records(
        data,
        offset_of(data, 5) as int,
        offset_of(data, 6) as int,
        offset_of(data, 7) as int,
        data[92] as int,
    )->Ok_0;
    let bare = bare_blocks(recs, c, recs.len() as int)->Ok_0;
    lemma_bare_flags(recs, c, recs.len() as int);
    let blocks = with_epochs(bare)->Ok_0;
    lemma_loaded_frame(data, blocks, recs, txc, blocks.len() as int);
    lemma_tally(data, blocks, recs, txc, blocks.len() as int);
}

pub proof fn lemma_kept_txs(p: PacketModel, n: int)
    requires
        0 <= n <= p.blocks.len(),
    ensures
        total_txs(kept_packet(p).blocks, n) == total_txs(p.blocks, n),
    decreases n,
{
    if n > 0 {
        lemma_kept_txs(p, n - 1);
        assert(kept_packet(p).blocks[n - 1] == kept_block(p, n - 1));
        assert(kept_block(p, n - 1).txs.len() == p.blocks[n - 1].txs.len());
    }
}

/// A packet that was written passes the check, which counts its blocks and its
/// transactions.
pub proof fn law_written_verifies(p: PacketModel, pos_from: Option<u64>)
    requires
        readable(p, pos_from),
        encoded(p) is Ok,
        packet_restorable(p),
        encoded(p)->Ok_0.len() <= u64::MAX,
        total_txs(p.blocks, p.blocks.len() as int) <= u64::MAX,
    ensures
        verified(encoded(p)->Ok_0) matches Ok(report) && {
            &&& report.packet_bytes == encoded(p)->Ok_0.len() as usize
            &&& report.first_block_number == p.first_block_number
            &&& report.block_count == p.blocks.len() as u32
            &&& report.transaction_items == total_txs(p.blocks, p.blocks.len() as int)
        },
{
    law_packet_roundtrip(p, pos_from);
    lemma_kept_txs(p, p.blocks.len() as int);
    law_readable_verifies(encoded(p)->Ok_0, pos_from);
}

} // verus!
