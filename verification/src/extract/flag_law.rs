//! Setting the flags of blocks in a packet that is already written gives the packet that
//! writing the blocks with those flags would have given.
use crate::cfxpack::body::{bitmap, bitmap_byte, body_bytes, fit_count, fixed_from, lemma_fixed, lemma_fixed_len, over, overflow_from, prefix_part, prefix_size};
use crate::cfxpack::codec::le_at;
use crate::cfxpack::decode::{decoded, flag_sites, offset_of, sites_of};
use crate::cfxpack::encode::{encoded, fixed_fields, flag, input_fault, offset_bytes, offsets, payload, payload_items, payloads, records, sections, segment, tx_items, tx_place, written_flags};
use crate::cfxpack::error::PackError;
use crate::cfxpack::packet::{BlockModel, PacketModel, FLAG_PIVOT, FLAG_RESERVED, FLAG_ZERO_TOTAL_REWARD};
use crate::cfxpack::record::{block_shape, encode_record, record_bytes, record_fault, record_head};
use crate::cfxpack::roundtrip::{block_parts_shape, lemma_count, lemma_same_groups, packet_shape, same_frames};
use crate::cfxpack::roundtrip_tables::{lemma_fixed_fields, lemma_header, lemma_offsets, lemma_section_order, packet_bytes, tables_shape};
use crate::cfxpack::site_law::law_sites_hold_flags;
use crate::cfxpack::txform::{tx_item, tx_parts};
use crate::cfxpack::types::{le_bytes, lemma_le_bytes, lemma_pow256};
use crate::extract::flagpatch::{is_flagged, patched, with_zero_flag};
use vstd::prelude::*;

verus! {

/// A block with the flag for a total reward of zero, where it has none.
pub open spec fn flagged_block(b: BlockModel, zero: bool) -> BlockModel {
    if zero {
        BlockModel { flags: with_zero_flag(b.flags), ..b }
    } else {
        b
    }
}

/// A packet whose blocks have the flag where their total reward is zero.
pub open spec fn flagged_packet(p: PacketModel, zero: Seq<bool>) -> PacketModel {
    PacketModel {
        blocks: Seq::new(p.blocks.len(), |k: int| flagged_block(p.blocks[k], zero[k])),
        ..p
    }
}

/// The record of a block with the flag.
spec fn marked(r: Seq<u8>, zero: bool) -> Seq<u8> {
    if zero {
        r.update(44, with_zero_flag(r[44]))
    } else {
        r
    }
}

proof fn lemma_zero_keeps(flags: u8)
    ensures
        flag(with_zero_flag(flags), FLAG_PIVOT) == flag(flags, FLAG_PIVOT),
        flag(with_zero_flag(flags), FLAG_RESERVED) == flag(flags, FLAG_RESERVED),
{
    let c = flags as int / 128;
    let z = (flags as int / 64) % 2;
    let a = flags as int % 64;
    assert(flags == 128 * c + 64 * z + a);
    if !flag(flags, FLAG_ZERO_TOTAL_REWARD) {
        let w = with_zero_flag(flags);
        assert(z == 0);
        assert(w == 128 * c + 64 + a);
        assert(w / 128 == c);
        assert(w / 2 == 64 * c + 32 + a / 2);
        assert(flags / 2 == 64 * c + a / 2);
    }
}

proof fn lemma_zero_written(flags: u8, load: Seq<u8>)
    ensures
        written_flags(with_zero_flag(flags), load) == with_zero_flag(written_flags(flags, load)),
{
    let c = flags as int / 128;
    let z = (flags as int / 64) % 2;
    let d = (flags as int / 32) % 2;
    let m = (flags as int / 8) % 4;
    let a = flags as int % 8;
    assert(flags == 128 * c + 64 * z + 32 * d + 8 * m + a);
    let x = if load.len() == 0 {
        0int
    } else if load.len() > crate::cfxpack::encode::COMPRESS_ABOVE {
        24
    } else {
        8
    };
    let w = written_flags(flags, load);
    assert(w == 128 * c + 64 * z + 32 * d + x + a);
    assert((w as int / 64) % 2 == z);
    if z == 0 {
        let f = with_zero_flag(flags);
        assert(f == 128 * c + 64 + 32 * d + 8 * m + a);
        assert(f as int % 8 == a);
        assert(f as int / 32 == 4 * c + 2 + d);
        assert(written_flags(f, load) == 128 * c + 64 + 32 * d + x + a);
    }
}

proof fn lemma_items_same(
    p: PacketModel,
    q: PacketModel,
    b: BlockModel,
    c: BlockModel,
    seen: Map<Seq<u8>, (nat, nat)>,
    n: int,
)
    requires
        q.addresses == p.addresses,
        q.gas_prices == p.gas_prices,
        q.base_nonces == p.base_nonces,
        c.txs == b.txs,
        c.refs == b.refs,
        c.epoch == b.epoch,
        c.index == b.index,
    ensures
        tx_items(q, c, seen, n) == tx_items(p, b, seen, n),
    decreases n,
{
    if n > 0 {
        lemma_items_same(p, q, b, c, seen, n - 1);
        let tx = b.txs[n - 1];
        assert(tx_parts(q, tx) == tx_parts(p, tx));
        assert(tx_item(q, b.epoch, tx) == tx_item(p, b.epoch, tx));
    }
}

proof fn lemma_payloads_same(p: PacketModel, zero: Seq<bool>, n: int)
    requires
        0 <= n <= p.blocks.len(),
    ensures
        payloads(flagged_packet(p, zero), n) == payloads(p, n),
    decreases n,
{
    if n > 0 {
        lemma_payloads_same(p, zero, n - 1);
        let q = flagged_packet(p, zero);
        let b = p.blocks[n - 1];
        let c = q.blocks[n - 1];
        assert(c == flagged_block(b, zero[n - 1]));
        if payloads(p, n - 1) is Ok {
            let seen = payloads(p, n - 1)->Ok_0.1;
            lemma_items_same(p, q, b, c, seen, b.txs.len() as int);
            assert(payload_items(q, c, seen) == payload_items(p, b, seen));
            assert(payload(q, c, seen) == payload(p, b, seen));
        }
    }
}

/// The record of a block with the flag differs in the flags alone.
proof fn lemma_record_marked(p: PacketModel, zero: Seq<bool>, k: int, load: Seq<u8>, place: nat)
    requires
        0 <= k < p.blocks.len(),
        block_shape(p.blocks[k]),
        encode_record(p, p.blocks[k], written_flags(p.blocks[k].flags, load), place) is Ok,
    ensures
        ({
            let q = flagged_packet(p, zero);
            let r = encode_record(
                p,
                p.blocks[k],
                written_flags(p.blocks[k].flags, load),
                place,
            )->Ok_0;
            &&& r.len() >= 45
            &&& r.take(32) == p.blocks[k].hash
            &&& encode_record(q, q.blocks[k], written_flags(q.blocks[k].flags, load), place)
                == Ok::<Seq<u8>, PackError>(marked(r, zero[k]))
        }),
{
    reveal(encode_record);
    let q = flagged_packet(p, zero);
    let b = p.blocks[k];
    let c = q.blocks[k];
    assert(c == flagged_block(b, zero[k]));
    lemma_zero_written(b.flags, load);
    let w = written_flags(b.flags, load);
    let v = written_flags(c.flags, load);
    let r = record_bytes(p, b, w, place);
    let s = record_bytes(q, c, v, place);
    assert(record_fault(q, c) == record_fault(p, b));
    let head = record_head(b, w);
    let other = record_head(c, v);
    assert(head.len() == 45 && other.len() == 45);
    assert(head[44] == w && other[44] == v);
    assert(r[44] == w);
    assert(r.take(32) =~= b.hash);
    let tail = r.skip(45);
    assert(r =~= head + tail);
    assert(s =~= other + tail);
    assert(other =~= head.update(44, v));
    assert(s =~= marked(r, zero[k]));
}

/// The records of the blocks with their flags.
spec fn all_marked(recs: Seq<Seq<u8>>, zero: Seq<bool>) -> Seq<Seq<u8>> {
    Seq::new(recs.len(), |k: int| marked(recs[k], zero[k]))
}

proof fn lemma_records_marked(p: PacketModel, zero: Seq<bool>, loads: Seq<Seq<u8>>, n: int)
    requires
        0 <= n <= p.blocks.len(),
        forall|k: int| 0 <= k < p.blocks.len() ==> block_shape(#[trigger] p.blocks[k]),
        records(p, loads, n) is Ok,
    ensures
        ({
            let recs = records(p, loads, n)->Ok_0;
            &&& recs.len() == n
            &&& forall|k: int|
                0 <= k < n ==> (#[trigger] recs[k]).len() >= 45 && recs[k].take(32)
                    == p.blocks[k].hash
            &&& records(flagged_packet(p, zero), loads, n) == Ok::<Seq<Seq<u8>>, PackError>(
                all_marked(recs, zero),
            )
        }),
    decreases n,
{
    let q = flagged_packet(p, zero);
    let recs = records(p, loads, n)->Ok_0;
    if n > 0 {
        lemma_records_marked(p, zero, loads, n - 1);
        let done = records(p, loads, n - 1)->Ok_0;
        assert(block_shape(p.blocks[n - 1]));
        lemma_record_marked(p, zero, n - 1, loads[n - 1], tx_place(loads, n - 1));
        assert(recs.drop_last() =~= done);
        assert(all_marked(recs, zero) =~= all_marked(done, zero).push(
            marked(recs[n - 1], zero[n - 1]),
        ));
        assert forall|k: int| 0 <= k < n implies (#[trigger] recs[k]).len() >= 45
            && recs[k].take(32) == p.blocks[k].hash by {
            if k < n - 1 {
                assert(recs[k] == done[k]);
            }
        }
    } else {
        assert(all_marked(recs, zero) =~= recs);
    }
}

proof fn lemma_fit_same(a: Seq<Seq<u8>>, b: Seq<Seq<u8>>, n: nat)
    requires
        a.len() == b.len(),
        forall|k: int| 0 <= k < a.len() ==> (#[trigger] a[k]).len() == b[k].len(),
    ensures
        fit_count(a, n) == fit_count(b, n),
    decreases a.len(),
{
    if a.len() > 0 {
        assert(a[a.len() - 1].len() == b[b.len() - 1].len());
        assert forall|k: int| 0 <= k < a.len() - 1 implies (#[trigger] a.drop_last()[k]).len()
            == b.drop_last()[k].len() by {
            assert(a[k].len() == b[k].len());
        }
        lemma_fit_same(a.drop_last(), b.drop_last(), n);
    }
}

proof fn lemma_overflow_same(recs: Seq<Seq<u8>>, zero: Seq<bool>, n: nat, i: int)
    requires
        n >= 64,
        0 <= i,
        forall|k: int| 0 <= k < recs.len() ==> (#[trigger] recs[k]).len() >= 45,
    ensures
        overflow_from(all_marked(recs, zero), n, i) == overflow_from(recs, n, i),
    decreases recs.len() - i,
{
    if i < recs.len() {
        lemma_overflow_same(recs, zero, n, i + 1);
        let r = recs[i];
        let m = all_marked(recs, zero)[i];
        assert(r.len() >= 45);
        if r.len() > n {
            assert(m.skip(n as int) =~= r.skip(n as int));
        }
    }
}

/// The layout of the records does not depend on their flags.
proof fn lemma_layout_same(recs: Seq<Seq<u8>>, zero: Seq<bool>)
    requires
        forall|k: int| 0 <= k < recs.len() ==> (#[trigger] recs[k]).len() >= 45,
    ensures
        ({
            let ms = all_marked(recs, zero);
            let n = prefix_size(recs);
            &&& prefix_size(ms) == n
            &&& bitmap(ms, n) == bitmap(recs, n)
            &&& overflow_from(ms, n, 0) == overflow_from(recs, n, 0)
            &&& fixed_from(ms, n, 0).len() == fixed_from(recs, n, 0).len()
        }),
{
    let ms = all_marked(recs, zero);
    let n = prefix_size(recs);
    assert forall|k: int| 0 <= k < ms.len() implies (#[trigger] ms[k]).len() == recs[k].len() by {
        assert(recs[k].len() >= 45);
    }
    lemma_fit_same(ms, recs, 64);
    lemma_fit_same(ms, recs, 72);
    lemma_fit_same(ms, recs, 80);
    lemma_fit_same(ms, recs, 88);
    assert forall|j: int| 0 <= j < bitmap(ms, n).len() implies #[trigger] bitmap(ms, n)[j]
        == bitmap(recs, n)[j] by {
        assert forall|i: int| over(ms, n, i) == over(recs, n, i) by {
            if 0 <= i < recs.len() {
                assert(ms[i].len() == recs[i].len());
            }
        }
        assert(bitmap_byte(ms, n, j) == bitmap_byte(recs, n, j));
    }
    assert(bitmap(ms, n) =~= bitmap(recs, n));
    lemma_overflow_same(recs, zero, n, 0);
    lemma_fixed_len(ms, n);
    lemma_fixed_len(recs, n);
}

/// Where two places in prefixes are the same.
proof fn lemma_same_spot(a: int, x: int, b: int, y: int, n: int)
    requires
        0 <= x < n,
        0 <= y < n,
        a * n + x == b * n + y,
    ensures
        a == b,
        x == y,
{
    assert(a == b) by (nonlinear_arith)
        requires
            0 <= x < n,
            0 <= y < n,
            a * n + x == b * n + y,
    ;
}

/// The byte at place `o` of the prefix of record `k`.
proof fn lemma_prefix_byte(recs: Seq<Seq<u8>>, n: nat, k: int, o: int)
    requires
        0 <= k < recs.len(),
        0 <= o < n,
    ensures
        0 <= k * n + o < fixed_from(recs, n, 0).len(),
        fixed_from(recs, n, 0)[k * n + o] == prefix_part(recs[k], n)[o],
{
    lemma_fixed(recs, n, 0, k);
    let f = fixed_from(recs, n, 0);
    let part = f.subrange((k - 0) * n, (k - 0) * n + n);
    assert(0 <= k * n) by (nonlinear_arith)
        requires
            k >= 0,
            n >= 0,
    ;
    assert(k * n + n <= recs.len() * n) by (nonlinear_arith)
        requires
            k + 1 <= recs.len(),
            n >= 0,
    ;
    assert(part[o] == f[k * n + o]);
}

/// The prefixes of the records with their flags are the prefixes with the flags set.
proof fn lemma_fixed_marked(
    recs: Seq<Seq<u8>>,
    zero: Seq<bool>,
    n: nat,
    sites: Seq<(nat, Seq<u8>)>,
    base: int,
    x: int,
)
    requires
        n >= 64,
        forall|k: int| 0 <= k < recs.len() ==> (#[trigger] recs[k]).len() >= 45,
        sites.len() == recs.len(),
        forall|k: int| 0 <= k < sites.len() ==> (#[trigger] sites[k]).0 == base + k * n + 44,
        0 <= x < recs.len() * n,
    ensures
        ({
            let f = fixed_from(recs, n, 0);
            let g = fixed_from(all_marked(recs, zero), n, 0);
            g[x] == if is_flagged(sites, zero, sites.len() as int, base + x) {
                with_zero_flag(f[x])
            } else {
                f[x]
            }
        }),
{
    let ms = all_marked(recs, zero);
    let k = x / n as int;
    let o = x % n as int;
    assert(x == k * n + o && 0 <= o < n) by (nonlinear_arith)
        requires
            k == x / n as int,
            o == x % n as int,
            n > 0,
            x >= 0,
    ;
    assert(0 <= k < recs.len()) by (nonlinear_arith)
        requires
            x == k * n + o,
            0 <= o < n,
            0 <= x < recs.len() * n,
    ;
    lemma_prefix_byte(recs, n, k, o);
    lemma_prefix_byte(ms, n, k, o);
    let r = recs[k];
    assert(r.len() >= 45);
    assert(ms[k] == marked(r, zero[k]));
    let n_sites = sites.len() as int;
    assert(sites[k].0 == base + k * n + 44);
    if o == 44 && zero[k] {
        assert(is_flagged(sites, zero, n_sites, base + x));
    } else if is_flagged(sites, zero, n_sites, base + x) {
        let j = choose|j: int| 0 <= j < n_sites && #[trigger] sites[j].0 == base + x && zero[j];
        assert(sites[j].0 == base + j * n + 44);
        lemma_same_spot(k, o, j, 44, n as int);
    }
}

/// Two bodies that differ in the prefixes alone make packets that differ there alone.
proof fn lemma_assembled(p: PacketModel, zero: Seq<bool>, recs: Seq<Seq<u8>>, seg: Seq<u8>)
    requires
        tables_shape(p),
        forall|k: int| 0 <= k < recs.len() ==> (#[trigger] recs[k]).len() >= 45,
        offsets(sections(p, recs))[7] <= u32::MAX,
    ensures
        ({
            let q = flagged_packet(p, zero);
            let ms = all_marked(recs, zero);
            let a = packet_bytes(p, recs, seg);
            let b = packet_bytes(q, ms, seg);
            let n = prefix_size(recs);
            let base = offsets(sections(p, recs))[6] as int;
            &&& offsets(sections(q, ms)) == offsets(sections(p, recs))
            &&& b.len() == a.len()
            &&& base + recs.len() * n <= offsets(sections(p, recs))[7] <= a.len()
            &&& forall|x: int|
                0 <= x < a.len() ==> #[trigger] b[x] == (if base <= x < base + recs.len() * n {
                    fixed_from(ms, n, 0)[x - base]
                } else {
                    a[x]
                })
            &&& forall|x: int|
                base <= x < base + recs.len() * n ==> #[trigger] a[x] == fixed_from(
                    recs,
                    n,
                    0,
                )[x - base]
        }),
{
    reveal(sections);
    reveal(packet_bytes);
    let q = flagged_packet(p, zero);
    let ms = all_marked(recs, zero);
    let n = prefix_size(recs);
    lemma_layout_same(recs, zero);
    lemma_fixed_len(recs, n);
    lemma_fixed_fields(p, recs, seg);
    lemma_section_order(p, recs);
    let s = sections(p, recs);
    let t = sections(q, ms);
    let f = fixed_from(recs, n, 0);
    let g = fixed_from(ms, n, 0);
    let over_bytes = overflow_from(recs, n, 0);
    assert(t.header == s.header);
    let pad = crate::cfxpack::types::zeros(
        ((64 - (125 + s.header.len() + f.len() + over_bytes.len()) % 64) % 64) as nat,
    );
    assert(s.body =~= s.header + f + over_bytes + pad) by {
        assert((s.header + body_bytes(recs, n)).len() == s.header.len() + f.len()
            + over_bytes.len());
    }
    assert(t.body =~= s.header + g + over_bytes + pad) by {
        assert((t.header + body_bytes(ms, n)).len() == s.header.len() + g.len()
            + over_bytes.len());
    }
    let a = packet_bytes(p, recs, seg);
    let b = packet_bytes(q, ms, seg);
    let front = fixed_fields(p, n) + offset_bytes(offsets(s), 8);
    assert(offsets(t) =~= offsets(s));
    assert(a =~= front + (s.body + seg));
    assert(b =~= front + (t.body + seg));
    assert(a.skip(125) =~= s.body + seg);
    assert(front.len() == 125) by {
        assert(a.skip(125).len() == a.len() - 125);
    }
    let base = offsets(s)[6] as int;
    assert(base == 125 + s.header.len());
    assert forall|x: int| 0 <= x < a.len() implies #[trigger] b[x] == (if base <= x < base
        + recs.len() * n {
        g[x - base]
    } else {
        a[x]
    }) by {
        if x < 125 {
            assert(b[x] == front[x] && a[x] == front[x]);
        } else if x < base {
            assert(b[x] == s.header[x - 125] && a[x] == s.header[x - 125]);
        }
    }
    assert forall|x: int| base <= x < base + recs.len() * n implies #[trigger] a[x] == f[x
        - base] by {}
}

/// Setting the flags of blocks in the bytes of a packet gives the bytes of the packet
/// whose blocks have those flags: at the places that are found for the blocks, and with
/// nothing else changed.
pub proof fn law_patch_is_encoding(p: PacketModel, zero: Seq<bool>)
    requires
        packet_shape(p),
        encoded(p) is Ok,
        zero.len() == p.blocks.len(),
    ensures
        sites_of(encoded(p)->Ok_0) matches Ok(sites) && {
            &&& sites.len() == p.blocks.len()
            &&& forall|k: int|
                0 <= k < sites.len() ==> (#[trigger] sites[k]).1 == p.blocks[k].hash
            &&& encoded(flagged_packet(p, zero)) == Ok::<Seq<u8>, PackError>(
                patched(encoded(p)->Ok_0, sites, zero, sites.len() as int),
            )
        },
{
    let q = flagged_packet(p, zero);
    let n = p.blocks.len() as int;
    lemma_encoded_parts(p);
    let loads = payloads(p, n)->Ok_0.0;
    let recs = records(p, loads, n)->Ok_0;
    let seg = segment(loads, n);
    lemma_input_same(p, zero);
    lemma_payloads_same(p, zero, n);
    assert forall|k: int| 0 <= k < n implies block_shape(#[trigger] p.blocks[k]) by {
        assert(block_parts_shape(p.blocks[k]));
    }
    lemma_records_marked(p, zero, loads, n);
    lemma_assembled(p, zero, recs, seg);
    lemma_patched(p, zero, recs, seg);
    lemma_encoded_from(q, loads, all_marked(recs, zero));
}

/// In a packet that was written, the flag sites are those of its blocks in order: each
/// has the block's hash, holds the flags that the block is read with, and lies one record
/// prefix behind the one before.
pub proof fn law_written_sites(p: PacketModel, pos_from: Option<u64>)
    requires
        packet_shape(p),
        encoded(p) is Ok,
        decoded(encoded(p)->Ok_0, pos_from) is Ok,
    ensures
        ({
            let data = encoded(p)->Ok_0;
            let read = decoded(data, pos_from)->Ok_0.blocks;
            sites_of(data) matches Ok(sites) && {
                &&& sites.len() == p.blocks.len()
                &&& read.len() == p.blocks.len()
                &&& forall|k: int|
                    0 <= k < sites.len() ==> (#[trigger] sites[k]).1 == p.blocks[k].hash
                        && sites[k].0 < data.len() && data[sites[k].0 as int] == read[k].flags
                &&& forall|k: int|
                    0 < k < sites.len() ==> (#[trigger] sites[k]).0 == sites[k - 1].0 + data[92]
                &&& data[92] > 0
            }
        }),
{
    law_patch_is_encoding(p, Seq::new(p.blocks.len(), |k: int| false));
    law_sites_hold_flags(encoded(p)->Ok_0, pos_from);
}

/// What a packet that can be written is made of.
proof fn lemma_encoded_parts(p: PacketModel)
    requires
        encoded(p) is Ok,
    ensures
        ({
            let n = p.blocks.len() as int;
            let loads = payloads(p, n)->Ok_0.0;
            let recs = records(p, loads, n)->Ok_0;
            &&& input_fault(p) is None
            &&& payloads(p, n) is Ok
            &&& records(p, loads, n) is Ok
            &&& offsets(sections(p, recs))[7] <= u32::MAX
            &&& encoded(p)->Ok_0 == packet_bytes(p, recs, segment(loads, n))
        }),
{
    reveal(packet_bytes);
}

/// What a packet is written to, from what it is made of.
proof fn lemma_encoded_from(p: PacketModel, loads: Seq<Seq<u8>>, recs: Seq<Seq<u8>>)
    requires
        input_fault(p) is None,
        payloads(p, p.blocks.len() as int) is Ok,
        payloads(p, p.blocks.len() as int)->Ok_0.0 == loads,
        records(p, loads, p.blocks.len() as int) == Ok::<Seq<Seq<u8>>, PackError>(recs),
        offsets(sections(p, recs))[7] <= u32::MAX,
    ensures
        encoded(p) == Ok::<Seq<u8>, PackError>(
            packet_bytes(p, recs, segment(loads, p.blocks.len() as int)),
        ),
{
    reveal(packet_bytes);
}

proof fn lemma_input_same(p: PacketModel, zero: Seq<bool>)
    ensures
        input_fault(flagged_packet(p, zero)) == input_fault(p),
{
    let q = flagged_packet(p, zero);
    assert(same_frames(q.blocks, p.blocks)) by {
        assert forall|k: int| 0 <= k < q.blocks.len() implies {
            &&& (#[trigger] q.blocks[k]).index == p.blocks[k].index
            &&& q.blocks[k].epoch == p.blocks[k].epoch
            &&& q.blocks[k].height == p.blocks[k].height
            &&& flag(q.blocks[k].flags, FLAG_PIVOT) == flag(p.blocks[k].flags, FLAG_PIVOT)
            &&& flag(q.blocks[k].flags, FLAG_RESERVED) == flag(p.blocks[k].flags, FLAG_RESERVED)
        } by {
            lemma_zero_keeps(p.blocks[k].flags);
        }
    }
    lemma_same_groups(q.blocks, p.blocks, 0);
    if p.blocks.len() > 0 {
        assert(q.blocks[0].epoch == p.blocks[0].epoch);
    }
}

/// The field that counts the records of a packet that was written.
proof fn lemma_count_field(p: PacketModel, recs: Seq<Seq<u8>>, seg: Seq<u8>)
    requires
        tables_shape(p),
        offsets(sections(p, recs))[7] <= u32::MAX,
    ensures
        le_at(packet_bytes(p, recs, seg), offsets(sections(p, recs))[5] as int, 4) == Ok::<
            nat,
            PackError,
        >(recs.len()),
{
    let data = packet_bytes(p, recs, seg);
    let s = sections(p, recs);
    lemma_fixed_fields(p, recs, seg);
    lemma_section_order(p, recs);
    lemma_count(p, recs);
    lemma_le_bytes(recs.len(), 4);
    lemma_pow256();
    let from = s.prices.len() as int;
    let at = 125 + from;
    let count = le_bytes(recs.len(), 4);
    let rest = data.skip(125);
    assert(rest.len() == data.len() - 125);
    assert(s.header.len() >= from + 4);
    let field = data.subrange(at, at + 4);
    assert forall|i: int| 0 <= i < 4 implies #[trigger] field[i] == count[i] by {
        assert(field[i] == data[at + i]);
        assert(rest[from + i] == data[125 + (from + i)]);
        assert(rest[from + i] == s.body[from + i]);
        assert(s.body[from + i] == s.header[from + i]);
        assert(s.header[from + i] == count[i]);
    }
    assert(field =~= count);
}

/// The places of the flags in a packet that was written.
proof fn lemma_sites(p: PacketModel, recs: Seq<Seq<u8>>, seg: Seq<u8>)
    requires
        tables_shape(p),
        offsets(sections(p, recs))[7] <= u32::MAX,
    ensures
        ({
            let data = packet_bytes(p, recs, seg);
            let s = sections(p, recs);
            &&& offset_of(data, 6) == offsets(s)[6]
            &&& data[92] == prefix_size(recs)
            &&& offsets(s)[6] + recs.len() * prefix_size(recs) <= offsets(s)[7]
            &&& sites_of(data) == Ok::<Seq<(nat, Seq<u8>)>, PackError>(
                flag_sites(data, recs.len()),
            )
        }),
{
    let n = prefix_size(recs);
    lemma_header(p, recs, seg);
    lemma_fixed_fields(p, recs, seg);
    lemma_offsets(p, recs, seg, 5);
    lemma_offsets(p, recs, seg, 6);
    lemma_offsets(p, recs, seg, 7);
    lemma_section_order(p, recs);
    lemma_fixed_len(recs, n);
    lemma_count_field(p, recs, seg);
    let s = sections(p, recs);
    assert(s.body.len() >= s.header.len() + fixed_from(recs, n, 0).len());
}

proof fn lemma_patched(p: PacketModel, zero: Seq<bool>, recs: Seq<Seq<u8>>, seg: Seq<u8>)
    requires
        tables_shape(p),
        recs.len() == p.blocks.len(),
        forall|k: int|
            0 <= k < recs.len() ==> (#[trigger] recs[k]).len() >= 45 && recs[k].take(32)
                == p.blocks[k].hash,
        offsets(sections(p, recs))[7] <= u32::MAX,
    ensures
        ({
            let data = packet_bytes(p, recs, seg);
            let sites = flag_sites(data, recs.len());
            &&& sites_of(data) == Ok::<Seq<(nat, Seq<u8>)>, PackError>(sites)
            &&& forall|k: int|
                0 <= k < sites.len() ==> (#[trigger] sites[k]).1 == p.blocks[k].hash
            &&& packet_bytes(flagged_packet(p, zero), all_marked(recs, zero), seg) == patched(
                data,
                sites,
                zero,
                sites.len() as int,
            )
        }),
{
    let q = flagged_packet(p, zero);
    let ms = all_marked(recs, zero);
    let data = packet_bytes(p, recs, seg);
    let b = packet_bytes(q, ms, seg);
    let n = prefix_size(recs);
    let base = offsets(sections(p, recs))[6] as int;
    let sites = flag_sites(data, recs.len());
    lemma_sites(p, recs, seg);
    lemma_assembled(p, zero, recs, seg);
    let f = fixed_from(recs, n, 0);
    lemma_fixed_len(recs, n);
    assert forall|k: int| 0 <= k < sites.len() implies (#[trigger] sites[k]).0 == base + k * n + 44
        by {}
    assert forall|k: int| 0 <= k < sites.len() implies (#[trigger] sites[k]).1
        == p.blocks[k].hash by {
        lemma_site_hash(recs, n, data, base, k);
        assert(recs[k].take(32) == p.blocks[k].hash);
    }
    let want = patched(data, sites, zero, sites.len() as int);
    assert forall|x: int| 0 <= x < data.len() implies #[trigger] b[x] == want[x] by {
        if base <= x < base + recs.len() * n {
            lemma_fixed_marked(recs, zero, n, sites, base, x - base);
            assert(data[x] == f[x - base]);
        } else {
            assert(!is_flagged(sites, zero, sites.len() as int, x)) by {
                if is_flagged(sites, zero, sites.len() as int, x) {
                    let j = choose|j: int|
                        0 <= j < sites.len() && #[trigger] sites[j].0 == x && zero[j];
                    assert(sites[j].0 == base + j * n + 44);
                    assert(0 <= j * n && j * n + n <= recs.len() * n) by (nonlinear_arith)
                        requires
                            0 <= j,
                            j + 1 <= recs.len(),
                            n >= 0,
                    ;
                }
            }
        }
    }
    assert(b =~= want);
}

/// The hash in the prefix of a record.
proof fn lemma_site_hash(recs: Seq<Seq<u8>>, n: nat, data: Seq<u8>, base: int, k: int)
    requires
        n >= 64,
        0 <= base,
        0 <= k < recs.len(),
        recs[k].len() >= 45,
        base + recs.len() * n <= data.len(),
        forall|x: int|
            base <= x < base + recs.len() * n ==> #[trigger] data[x] == fixed_from(recs, n, 0)[x
                - base],
    ensures
        data.subrange(base + k * n, base + k * n + 32) == recs[k].take(32),
{
    assert(0 <= k * n && k * n + n <= recs.len() * n) by (nonlinear_arith)
        requires
            0 <= k,
            k + 1 <= recs.len(),
            n >= 0,
    ;
    let h = data.subrange(base + k * n, base + k * n + 32);
    assert forall|o: int| 0 <= o < 32 implies #[trigger] h[o] == recs[k].take(32)[o] by {
        lemma_prefix_byte(recs, n, k, o);
        assert(data[base + (k * n + o)] == fixed_from(recs, n, 0)[k * n + o]);
    }
    assert(h =~= recs[k].take(32));
}

} // verus!
