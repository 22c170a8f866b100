//! What the bytes of a packet are read to.
use crate::cfxpack::body::{decode_records, RecordModel};
use crate::cfxpack::decode::{bare_blocks, decoded, header_fault, loaded_blocks, offset_fault, offset_of, section, tables_of, with_epochs};
use crate::cfxpack::encode::{flag, next_pivot};
use crate::cfxpack::error::PackError;
use crate::cfxpack::packet::{BlockModel, FLAG_HAS_TRANSACTIONS, FLAG_PIVOT, TxModel};
use crate::cfxpack::record::{decode_record, read_above, read_entry, RecordContext};
use crate::cfxpack::snappy::snap_decompressed;
use crate::cfxpack::txdecode::{items_of, load_items, load_payload, payload_at, txs_before, TxContext};
use crate::cfxpack::types::{le_value, lemma_le_value_bound, lemma_pow256};
use crate::plan_law::ends_epoch;
use vstd::prelude::*;

verus! {

/// The head of a packet is sound where there are 125 bytes, the size of a record prefix is one of
/// five, and the offsets lie behind the head, in order and within the bytes.
pub proof fn law_header(data: Seq<u8>)
    ensures
        header_fault(data) is None <==> {
            &&& data.len() >= 125
            &&& data[92] == 64 || data[92] == 72 || data[92] == 80 || data[92] == 88 || data[92]
                == 96
            &&& 125 <= offset_of(data, 0)
            &&& offset_of(data, 0) <= offset_of(data, 1)
            &&& offset_of(data, 1) <= offset_of(data, 2)
            &&& offset_of(data, 2) <= offset_of(data, 3)
            &&& offset_of(data, 3) <= offset_of(data, 4)
            &&& offset_of(data, 4) <= offset_of(data, 5)
            &&& offset_of(data, 5) <= offset_of(data, 6)
            &&& offset_of(data, 6) <= offset_of(data, 7)
            &&& offset_of(data, 7) <= data.len()
        },
        header_fault(data) == Some(PackError::ShortHeader) <==> data.len() < 125,
        data.len() >= 125 ==> (header_fault(data) == Some(PackError::PrefixSize) <==> data[92] != 64
            && data[92] != 72 && data[92] != 80 && data[92] != 88 && data[92] != 96),
        data.len() >= 125 ==> offset_of(data, 0) == le_value(data.subrange(93, 97)),
{
    reveal_with_fuel(offset_fault, 9);
}

/// A packet that can be read has its boundary, numbers and tables where they were written:
/// addresses of 20 bytes, PoS blocks of 34, difficulties and prices of 32. Behind the
/// difficulties and the prices only zeros may be left.
pub proof fn law_decoded_head(data: Seq<u8>, pos_from: Option<u64>)
    requires
        decoded(data, pos_from) is Ok,
    ensures
        ({
            let p = decoded(data, pos_from)->Ok_0;
            let off = |i: int| offset_of(data, i) as int;
            &&& header_fault(data) is None
            &&& p.prev_last_hash == data.subrange(0, 32)
            &&& p.prev_last_state_root == data.subrange(32, 64)
            &&& p.first_block_number == le_value(data.subrange(64, 72))
            &&& p.min_timestamp == le_value(data.subrange(72, 80))
            &&& p.min_height == le_value(data.subrange(80, 88))
            &&& p.min_pos_height == le_value(data.subrange(88, 92))
            &&& 20 * p.addresses.len() == off(1) - off(0)
            &&& 34 * p.pos_entries.len() == off(2) - off(1)
            &&& 32 * p.difficulties.len() <= off(3) - off(2) < 32 * p.difficulties.len() + 32
            &&& 32 * p.gas_prices.len() <= off(5) - off(4) < 32 * p.gas_prices.len() + 32
        }),
{
    law_header(data);
    lemma_pow256();
    lemma_le_value_bound(data.subrange(64, 72));
    lemma_le_value_bound(data.subrange(72, 80));
    lemma_le_value_bound(data.subrange(80, 88));
    lemma_le_value_bound(data.subrange(88, 92));
    assert(data.subrange(0, 32) =~= data.take(32));
    let s0 = section(data, 0);
    let s1 = section(data, 1);
    let s2 = section(data, 2);
    let s4 = section(data, 4);
    assert(20 * (s0.len() / 20) == s0.len());
    assert(34 * (s1.len() / 34) == s1.len());
    assert(32 * (s2.len() / 32) <= s2.len() < 32 * (s2.len() / 32) + 32);
    assert(32 * (s4.len() / 32) <= s4.len() < 32 * (s4.len() / 32) + 32);
}

/// The entries of the tables that are read, by their places.
pub proof fn law_decoded_tables(data: Seq<u8>, pos_from: Option<u64>, i: int)
    requires
        decoded(data, pos_from) is Ok,
        0 <= i,
    ensures
        ({
            let p = decoded(data, pos_from)->Ok_0;
            let off = |i: int| offset_of(data, i) as int;
            &&& i < p.addresses.len() ==> p.addresses[i] == data.subrange(
                off(0) + 20 * i,
                off(0) + 20 * i + 20,
            )
            &&& i < p.pos_entries.len() ==> p.pos_entries[i].hash == data.subrange(
                off(1) + 34 * i,
                off(1) + 34 * i + 32,
            ) && p.pos_entries[i].height_offset == le_value(
                data.subrange(off(1) + 34 * i + 32, off(1) + 34 * i + 34),
            )
            &&& i < p.difficulties.len() ==> p.difficulties[i] == data.subrange(
                off(2) + 32 * i,
                off(2) + 32 * i + 32,
            )
            &&& i < p.gas_prices.len() ==> p.gas_prices[i] == data.subrange(
                off(4) + 32 * i,
                off(4) + 32 * i + 32,
            )
        }),
{
    law_header(data);
    law_decoded_head(data, pos_from);
    lemma_pow256();
    let p = decoded(data, pos_from)->Ok_0;
    let s0 = section(data, 0);
    let s1 = section(data, 1);
    let s2 = section(data, 2);
    let s4 = section(data, 4);
    if i < p.addresses.len() {
        assert(20 * i + 20 <= s0.len());
        let at = offset_of(data, 0) as int;
        assert(p.addresses[i] == s0.subrange(i * 20, i * 20 + 20));
        assert(s0.subrange(i * 20, i * 20 + 20) =~= data.subrange(at + 20 * i, at + 20 * i + 20));
    }
    if i < p.pos_entries.len() {
        assert(34 * i + 34 <= s1.len());
        let at = offset_of(data, 1) as int;
        let low = s1.subrange(i * 34 + 32, i * 34 + 34);
        assert(p.pos_entries[i].hash == s1.subrange(i * 34, i * 34 + 32));
        assert(p.pos_entries[i].height_offset == le_value(low) as u16);
        lemma_le_value_bound(low);
        assert(s1.subrange(i * 34, i * 34 + 32) =~= data.subrange(at + 34 * i, at + 34 * i + 32));
        assert(low =~= data.subrange(at + 34 * i + 32, at + 34 * i + 34));
    }
    if i < p.difficulties.len() {
        assert(32 * i + 32 <= s2.len());
        let at = offset_of(data, 2) as int;
        assert(p.difficulties[i] == s2.subrange(i * 32, i * 32 + 32));
        assert(s2.subrange(i * 32, i * 32 + 32) =~= data.subrange(at + 32 * i, at + 32 * i + 32));
    }
    if i < p.gas_prices.len() {
        assert(32 * i + 32 <= s4.len());
        let at = offset_of(data, 4) as int;
        assert(p.gas_prices[i] == s4.subrange(i * 32, i * 32 + 32));
        assert(s4.subrange(i * 32, i * 32 + 32) =~= data.subrange(at + 32 * i, at + 32 * i + 32));
    }
}

/// Whether the references of a block read as the transactions that they point to.
pub open spec fn refs_hold(blocks: Seq<BlockModel>, k: int) -> bool {
    let b = blocks[k];
    &&& b.refs.len() == b.txs.len()
    &&& forall|i: int|
        0 <= i < b.refs.len() ==> (#[trigger] b.refs[i] matches Some((block, place)) ==> block < k
            && place < blocks[block as int].txs.len() && b.txs[i]
            == blocks[block as int].txs[place as int])
}

proof fn lemma_load(
    items: Seq<Seq<u8>>,
    n: int,
    epoch: u64,
    c: TxContext,
    previous: Seq<Seq<TxModel>>,
)
    requires
        0 <= n,
        load_items(items, n, epoch, c, previous) is Ok,
    ensures
        ({
            let l = load_items(items, n, epoch, c, previous)->Ok_0;
            &&& l.refs.len() == l.txs.len()
            &&& forall|i: int|
                0 <= i < l.refs.len() ==> (#[trigger] l.refs[i] matches Some((block, place))
                    ==> block < previous.len() && place < previous[block as int].len() && l.txs[i]
                    == previous[block as int][place as int])
        }),
    decreases n,
{
    if n > 0 {
        lemma_load(items, n - 1, epoch, c, previous);
        let done = load_items(items, n - 1, epoch, c, previous)->Ok_0;
        let l = load_items(items, n, epoch, c, previous)->Ok_0;
        assert forall|i: int| 0 <= i < l.refs.len() implies (#[trigger] l.refs[i] matches Some(
            (block, place),
        ) ==> block < previous.len() && place < previous[block as int].len() && l.txs[i]
            == previous[block as int][place as int]) by {
            if i < done.refs.len() {
                assert(l.refs[i] == done.refs[i]);
                assert(l.txs[i] == done.txs[i]);
            }
        }
    }
}

/// What loading the payloads of the first `n` blocks keeps and gives.
proof fn lemma_loaded(
    data: Seq<u8>,
    blocks: Seq<BlockModel>,
    recs: Seq<RecordModel>,
    c: TxContext,
    n: int,
)
    requires
        0 <= n <= blocks.len(),
        loaded_blocks(data, blocks, recs, c, n) is Ok,
        forall|k: int|
            0 <= k < blocks.len() ==> (#[trigger] blocks[k]).txs.len() == 0 && blocks[k].refs.len()
                == 0 && blocks[k].rewards.len() == 0 && blocks[k].unlocks.len() == 0,
    ensures
        ({
            let done = loaded_blocks(data, blocks, recs, c, n)->Ok_0;
            &&& done.len() == blocks.len()
            &&& forall|k: int|
                0 <= k < blocks.len() ==> {
                    let b = #[trigger] done[k];
                    &&& b.index == blocks[k].index
                    &&& b.epoch == blocks[k].epoch
                    &&& b.height == blocks[k].height
                    &&& b.flags == blocks[k].flags
                    &&& b.hash == blocks[k].hash
                    &&& (b.flags as int / 8) % 2 == 0 ==> b.txs.len() == 0 && b.rewards.len() == 0
                        && b.unlocks.len() == 0
                }
            &&& forall|k: int| 0 <= k < blocks.len() ==> #[trigger] refs_hold(done, k)
            &&& forall|k: int|
                n <= k < blocks.len() ==> (#[trigger] done[k]).txs.len() == 0 && done[k].refs.len()
                    == 0
        }),
    decreases n,
{
    if n > 0 {
        lemma_loaded(data, blocks, recs, c, n - 1);
        let before = loaded_blocks(data, blocks, recs, c, n - 1)->Ok_0;
        let done = loaded_blocks(data, blocks, recs, c, n)->Ok_0;
        let b = before[n - 1];
        assert(b.flags == blocks[n - 1].flags);
        if flag(b.flags, FLAG_HAS_TRANSACTIONS) {
            reveal(load_payload);
            let previous = txs_before(before, n - 1);
            let bytes = payload_at(data, offset_of(data, 7) as int, recs[n - 1].offset, b.flags)->Ok_0;
            let items = items_of(bytes)->Ok_0;
            lemma_load(items, items.len() as int, b.epoch, c, previous);
            assert forall|k: int| 0 <= k < blocks.len() implies #[trigger] refs_hold(done, k) by {
                assert(refs_hold(before, k));
                if k == n - 1 {
                    assert forall|i: int| 0 <= i < done[k].refs.len() implies (
                    #[trigger] done[k].refs[i] matches Some((block, place)) ==> block < k && place
                        < done[block as int].txs.len() && done[k].txs[i]
                        == done[block as int].txs[place as int]) by {}
                } else {
                    assert(done[k] == before[k]);
                    assert forall|i: int| 0 <= i < done[k].refs.len() implies (
                    #[trigger] done[k].refs[i] matches Some((block, place)) ==> block < k && place
                        < done[block as int].txs.len() && done[k].txs[i]
                        == done[block as int].txs[place as int]) by {
                        assert(done[k].refs[i] == before[k].refs[i]);
                        if k >= n - 1 {
                            assert(before[k].refs.len() == 0);
                        }
                    }
                }
            }
        }
    } else {
        assert forall|k: int| 0 <= k < blocks.len() implies #[trigger] refs_hold(blocks, k) by {
            assert(blocks[k].refs.len() == 0);
        }
    }
}

proof fn lemma_bare(recs: Seq<RecordModel>, c: RecordContext, n: int)
    requires
        0 <= n <= recs.len(),
        bare_blocks(recs, c, n) is Ok,
    ensures
        ({
            let blocks = bare_blocks(recs, c, n)->Ok_0;
            &&& blocks.len() == n
            &&& forall|k: int|
                0 <= k < n ==> (#[trigger] blocks[k]).index == k && blocks[k].txs.len() == 0
                    && blocks[k].refs.len() == 0 && blocks[k].rewards.len() == 0
                    && blocks[k].unlocks.len() == 0
        }),
    decreases n,
{
    if n > 0 {
        lemma_bare(recs, c, n - 1);
    }
}

/// In a packet that can be read the last block is a pivot block, every block has its place for
/// its index and the height of the next pivot block for its epoch, and a block without the flag
/// of a payload has none. A transaction that is read from a reference is the one at the place of
/// an earlier block that the reference names.
pub proof fn law_decoded_blocks(data: Seq<u8>, pos_from: Option<u64>, k: int, l: int)
    requires
        decoded(data, pos_from) is Ok,
        0 <= k < decoded(data, pos_from)->Ok_0.blocks.len(),
    ensures
        ({
            let blocks = decoded(data, pos_from)->Ok_0.blocks;
            let b = blocks[k];
            &&& (blocks.last().flags as int / 2) % 2 == 1
            &&& b.index == k
            &&& ends_epoch(blocks, k, l) ==> b.epoch == blocks[l].height
            &&& (b.flags as int / 8) % 2 == 0 ==> b.txs.len() == 0 && b.rewards.len() == 0
                && b.unlocks.len() == 0
            &&& refs_hold(blocks, k)
        }),
{
    let t = tables_of(data)->Ok_0;
    let c = RecordContext {
        min_timestamp: le_value(data.subrange(72, 80)) as u64,
        min_height: le_value(data.subrange(80, 88)) as u64,
        addresses: t.addresses,
        difficulties: t.difficulties,
        pos_from,
    };
    let txc = TxContext {
        addresses: t.addresses,
        gas_prices: t.gas_prices,
        base_nonces: t.base_nonces,
    };
    let recs = decode_records(
        data,
        offset_of(data, 5) as int,
        offset_of(data, 6) as int,
        offset_of(data, 7) as int,
        data[92] as int,
    )->Ok_0;
    let bare = bare_blocks(recs, c, recs.len() as int)->Ok_0;
    lemma_bare(recs, c, recs.len() as int);
    let framed = with_epochs(bare)->Ok_0;
    assert forall|j: int| 0 <= j < framed.len() implies (#[trigger] framed[j]).txs.len() == 0
        && framed[j].refs.len() == 0 && framed[j].rewards.len() == 0 && framed[j].unlocks.len()
        == 0 by {
        assert(bare[j].txs.len() == 0);
    }
    lemma_loaded(data, framed, recs, txc, framed.len() as int);
    let blocks = decoded(data, pos_from)->Ok_0.blocks;
    assert(blocks == loaded_blocks(data, framed, recs, txc, framed.len() as int)->Ok_0);
    assert(blocks[k].index == bare[k].index);
    assert(blocks[blocks.len() - 1].flags == bare[bare.len() - 1].flags);
    assert(flag(bare.last().flags, FLAG_PIVOT));
    if ends_epoch(blocks, k, l) {
        assert(ends_epoch(bare, k, l)) by {
            assert(blocks[l].flags == bare[l].flags);
            assert forall|m: int| k <= m < l implies ((#[trigger] bare[m]).flags as int / 2) % 2
                == 0 by {
                assert(blocks[m].flags == bare[m].flags);
            }
        }
        lemma_is_next(bare, k, l);
        assert(blocks[l].height == bare[l].height);
        assert(blocks[k].epoch == framed[k].epoch);
    }
}

proof fn lemma_is_next(blocks: Seq<BlockModel>, k: int, l: int)
    requires
        ends_epoch(blocks, k, l),
    ensures
        next_pivot(blocks, k) == Some(l),
    decreases l - k,
{
    if k < l {
        assert((blocks[k].flags as int / 2) % 2 == 0);
        lemma_is_next(blocks, k + 1, l);
    }
}

/// A payload stands at four times its place in the transaction segment, behind its length in
/// LEB128. The fifth flag bit tells whether it is compressed.
pub proof fn law_payload_at(
    data: Seq<u8>,
    start: int,
    units: u64,
    flags: u8,
    code: Seq<u8>,
    body: Seq<u8>,
)
    requires
        0 <= start,
        body.len() <= u64::MAX,
        code == crate::cfxpack::codec::uleb(body.len()),
        start + units * 4 + code.len() + body.len() <= data.len(),
        data.subrange(start + units * 4, start + units * 4 + code.len()) == code,
        data.subrange(
            start + units * 4 + code.len(),
            start + units * 4 + code.len() + body.len(),
        ) == body,
    ensures
        (flags as int / 16) % 2 == 0 ==> payload_at(data, start, units, flags) == Ok::<
            Seq<u8>,
            PackError,
        >(body),
        (flags as int / 16) % 2 == 1 ==> (match snap_decompressed(body) {
            Some(d) => payload_at(data, start, units, flags) == Ok::<Seq<u8>, PackError>(d),
            None => payload_at(data, start, units, flags) == Err::<Seq<u8>, PackError>(
                PackError::Decompress,
            ),
        }),
{
    let at = start + units * 4;
    let s = data.skip(at);
    let tail = s.skip(code.len() as int);
    crate::cfxpack::code_law::law_uleb_digits(body.len());
    assert(s =~= code + tail) by {
        assert forall|i: int| 0 <= i < code.len() implies s[i] == code[i] by {
            assert(data.subrange(at, at + code.len())[i] == code[i]);
        }
    }
    crate::cfxpack::codec::law_uleb(body.len() as u64, tail);
    assert(tail.take(body.len() as int) =~= body) by {
        assert forall|i: int| 0 <= i < body.len() implies tail[i] == body[i] by {
            assert(data.subrange(at + code.len(), at + code.len() + body.len())[i] == body[i]);
        }
    }
}

/// A record is read to a block with the hash, the four bytes of each root and the flags that open
/// it. Its author and difficulty are entries of the tables, its time and height are not below the
/// least, and it has a PoS view exactly from the given height on.
pub proof fn law_record_read(record: Seq<u8>, index: nat, c: RecordContext)
    requires
        decode_record(record, index, c) is Ok,
    ensures
        ({
            let b = decode_record(record, index, c)->Ok_0;
            &&& record.len() >= 45
            &&& b.index == index
            &&& b.hash == record.subrange(0, 32)
            &&& b.state_root.subrange(0, 4) == record.subrange(32, 36)
            &&& b.receipts_root.subrange(0, 4) == record.subrange(36, 40)
            &&& b.logs_bloom.subrange(0, 4) == record.subrange(40, 44)
            &&& b.flags == record[44]
            &&& c.addresses.contains(b.author)
            &&& c.difficulties.contains(b.difficulty)
            &&& b.timestamp >= c.min_timestamp
            &&& b.height >= c.min_height
            &&& b.pos_view is Some <==> (c.pos_from matches Some(h) && b.height >= h)
        }),
{
    reveal(read_entry);
    reveal(read_above);
    let b = decode_record(record, index, c)->Ok_0;
    assert(record.subrange(0, 32) =~= record.take(32));
    assert(b.state_root.subrange(0, 4) =~= record.subrange(32, 36));
    assert(b.receipts_root.subrange(0, 4) =~= record.subrange(36, 40));
    assert(b.logs_bloom.subrange(0, 4) =~= record.subrange(40, 44));
}

} // verus!
