//! The flags of the blocks that a packet is read to stand where its flag sites are.
use crate::cfxpack::body::{decode_records, records_from, BodyLayout, RecordModel};
use crate::cfxpack::codec::le_at;
use crate::cfxpack::decode::{bare_blocks, decoded, flag_sites, header_fault, loaded_blocks, offset_fault, offset_of, sites_of, tables_of, with_epochs};
use crate::cfxpack::error::PackError;
use crate::cfxpack::packet::BlockModel;
use crate::cfxpack::record::{decode_record, RecordContext};
use crate::cfxpack::txdecode::TxContext;
use vstd::prelude::*;

verus! {

/// A record whose prefix stands at `at`.
spec fn stands(data: Seq<u8>, r: Seq<u8>, at: int) -> bool {
    r.len() >= 45 && r.take(32) == data.subrange(at, at + 32) && r[44] == data[at + 44]
}

/// A prefix of a record area lies inside it.
proof fn lemma_inside(i: int, count: int, size: int)
    requires
        0 <= i < count,
        size >= 0,
    ensures
        0 <= i * size,
        i * size + size <= count * size,
{
    assert(0 <= i * size && i * size + size <= count * size) by (nonlinear_arith)
        requires
            0 <= i < count,
            size >= 0,
    ;
}

/// The prefixes of records stand one after another.
proof fn lemma_records_stand(data: Seq<u8>, l: BodyLayout, i: int, at: int)
    requires
        0 <= i <= l.count,
        0 <= l.body,
        l.size >= 64,
        l.body + l.count * l.size <= data.len(),
        records_from(data, l, i, at) is Ok,
    ensures
        ({
            let recs = records_from(data, l, i, at)->Ok_0;
            &&& recs.len() == l.count - i
            &&& forall|j: int|
                0 <= j < recs.len() ==> stands(
                    data,
                    (#[trigger] recs[j]).bytes,
                    l.body + (i + j) * l.size,
                )
        }),
    decreases l.count - i,
{
    if i < l.count {
        lemma_inside(i, l.count, l.size);
        let recs = records_from(data, l, i, at)->Ok_0;
        let from = l.body + i * l.size;
        let base = data.subrange(from, from + l.size);
        let next = if crate::cfxpack::body::has_bit(data[l.bitmap + i / 8], i % 8) {
            let (len, rest) = crate::cfxpack::codec::read_uleb(data.skip(at))->Ok_0;
            data.len() - rest.len() + len
        } else {
            at
        };
        let rest = records_from(data, l, i + 1, next)->Ok_0;
        assert(recs =~= seq![recs[0]] + rest);
        lemma_records_stand(data, l, i + 1, next);
        let first = recs[0].bytes;
        assert(first.take(l.size) =~= base);
        assert(first[44] == first.take(l.size)[44]);
        assert(base[44] == data[from + 44]);
        assert(first.take(32) =~= data.subrange(from, from + 32)) by {
            assert forall|o: int| 0 <= o < 32 implies first[o] == data[from + o] by {
                assert(first[o] == first.take(l.size)[o]);
            }
        }
        assert forall|j: int| 0 <= j < recs.len() implies stands(
            data,
            (#[trigger] recs[j]).bytes,
            l.body + (i + j) * l.size,
        ) by {
            if j > 0 {
                assert(recs[j] == rest[j - 1]);
                assert(stands(data, rest[j - 1].bytes, l.body + (i + 1 + (j - 1)) * l.size));
            }
        }
    }
}

/// A block that has the hash and the flags of a record.
spec fn tells(b: BlockModel, r: RecordModel) -> bool {
    r.bytes.len() >= 45 && b.hash == r.bytes.take(32) && b.flags == r.bytes[44]
}

/// The blocks have the hashes and the flags of their records.
spec fn all_tell(blocks: Seq<BlockModel>, recs: Seq<RecordModel>, n: int) -> bool {
    blocks.len() == n && forall|j: int| 0 <= j < n ==> tells(#[trigger] blocks[j], recs[j])
}

proof fn lemma_bare(recs: Seq<RecordModel>, c: RecordContext, n: int)
    requires
        0 <= n <= recs.len(),
        bare_blocks(recs, c, n) is Ok,
    ensures
        all_tell(bare_blocks(recs, c, n)->Ok_0, recs, n),
    decreases n,
{
    if n > 0 {
        lemma_bare(recs, c, n - 1);
        let done = bare_blocks(recs, c, n - 1)->Ok_0;
        let b = decode_record(recs[n - 1].bytes, (n - 1) as nat, c)->Ok_0;
        assert(tells(b, recs[n - 1]));
        let all = bare_blocks(recs, c, n)->Ok_0;
        assert(all == done.push(b));
        assert forall|j: int| 0 <= j < n implies tells(#[trigger] all[j], recs[j]) by {
            if j < n - 1 {
                assert(tells(done[j], recs[j]));
            }
        }
    }
}

proof fn lemma_loaded(
    data: Seq<u8>,
    blocks: Seq<BlockModel>,
    recs: Seq<RecordModel>,
    c: TxContext,
    n: int,
)
    requires
        all_tell(blocks, recs, blocks.len() as int),
        0 <= n <= blocks.len(),
        loaded_blocks(data, blocks, recs, c, n) is Ok,
    ensures
        all_tell(loaded_blocks(data, blocks, recs, c, n)->Ok_0, recs, blocks.len() as int),
    decreases n,
{
    if n > 0 {
        lemma_loaded(data, blocks, recs, c, n - 1);
        let done = loaded_blocks(data, blocks, recs, c, n - 1)->Ok_0;
        let all = loaded_blocks(data, blocks, recs, c, n)->Ok_0;
        assert forall|j: int| 0 <= j < blocks.len() implies tells(#[trigger] all[j], recs[j]) by {
            assert(tells(done[j], recs[j]));
        }
    }
}

/// The offsets of a packet with a sound header lie in it, in order.
proof fn lemma_offsets_inside(data: Seq<u8>)
    requires
        header_fault(data) is None,
    ensures
        offset_of(data, 6) <= offset_of(data, 7) <= data.len(),
        data[92] >= 64,
{
    reveal_with_fuel(offset_fault, 9);
}

/// The flags byte of every block of a packet that can be read stands at the block's flag
/// site, beside the block's hash, and the sites lie one record prefix apart.
pub proof fn law_sites_hold_flags(data: Seq<u8>, pos_from: Option<u64>)
    requires
        decoded(data, pos_from) is Ok,
    ensures
        sites_of(data) matches Ok(sites) && {
            let blocks = decoded(data, pos_from)->Ok_0.blocks;
            &&& sites.len() == blocks.len()
            &&& forall|k: int|
                0 <= k < sites.len() ==> (#[trigger] sites[k]).0 < data.len() && sites[k].1
                    == blocks[k].hash && data[sites[k].0 as int] == blocks[k].flags
            &&& forall|k: int|
                0 < k < sites.len() ==> (#[trigger] sites[k]).0 == sites[k - 1].0 + data[92]
            &&& data[92] > 0
        },
{
    lemma_offsets_inside(data);
    let t = tables_of(data)->Ok_0;
    let c = RecordContext {
        min_timestamp: crate::cfxpack::types::le_value(data.subrange(72, 80)) as u64,
        min_height: crate::cfxpack::types::le_value(data.subrange(80, 88)) as u64,
        addresses: t.addresses,
        difficulties: t.difficulties,
        pos_from,
    };
    let txc = TxContext {
        addresses: t.addresses,
        gas_prices: t.gas_prices,
        base_nonces: t.base_nonces,
    };
    let header = offset_of(data, 5) as int;
    let body = offset_of(data, 6) as int;
    let end = offset_of(data, 7) as int;
    let size = data[92] as int;
    let recs = decode_records(data, header, body, end, size)->Ok_0;
    let count = le_at(data, header, 4)->Ok_0 as int;
    let l = BodyLayout { bitmap: header + 4, body, end, size, count };
    lemma_records_stand(data, l, 0, body + count * size);
    let bare = bare_blocks(recs, c, recs.len() as int)->Ok_0;
    lemma_bare(recs, c, recs.len() as int);
    let framed = with_epochs(bare)->Ok_0;
    assert(all_tell(framed, recs, framed.len() as int)) by {
        assert forall|j: int| 0 <= j < framed.len() implies tells(#[trigger] framed[j], recs[j]) by {
            assert(tells(bare[j], recs[j]));
        }
    }
    lemma_loaded(data, framed, recs, txc, framed.len() as int);
    let blocks = decoded(data, pos_from)->Ok_0.blocks;
    assert(blocks == loaded_blocks(data, framed, recs, txc, framed.len() as int)->Ok_0);
    let sites = flag_sites(data, count as nat);
    assert(sites_of(data) == Ok::<Seq<(nat, Seq<u8>)>, PackError>(sites));
    assert forall|k: int| 0 <= k < sites.len() implies (#[trigger] sites[k]).0 < data.len()
        && sites[k].1 == blocks[k].hash && data[sites[k].0 as int] == blocks[k].flags by {
        lemma_inside(k, count, size);
        assert(tells(blocks[k], recs[k]));
        assert(stands(data, recs[k].bytes, body + (0 + k) * size));
    }
    assert forall|k: int| 0 < k < sites.len() implies (#[trigger] sites[k]).0 == sites[k - 1].0
        + data[92] by {
        lemma_inside(k - 1, count, size);
        lemma_inside(k, count, size);
        assert((k - 1) * size + size == k * size) by (nonlinear_arith);
    }
}

} // verus!
