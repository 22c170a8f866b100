//! Where the parts of a packet stand in its bytes.
use crate::cfxpack::body::{bitmap, body_bytes, prefix_size};
use crate::cfxpack::codec::{padded_from, uleb};
use crate::cfxpack::decode::offset_of;
use crate::cfxpack::encode::{encoded, nonce_bytes, offsets, payloads, pos_bytes, records, sections, segment};
use crate::cfxpack::packet::{PacketModel, PosLookupModel};
use crate::cfxpack::rlp_form::join;
use crate::cfxpack::roundtrip::{lemma_count, lemma_records_len};
use crate::cfxpack::roundtrip_tables::{all_len, lemma_block_area, lemma_fixed_fields, lemma_offsets, lemma_section_order, lemma_section_prefixes, packet_bytes, tables_shape, with_zeros};
use crate::cfxpack::types::{le_bytes, le_value, lemma_le_bytes, lemma_pow256, zeros};
use vstd::prelude::*;

verus! {

/// Entries of one length stand one after another.
proof fn lemma_join_at(table: Seq<Seq<u8>>, n: nat)
    requires
        all_len(table, n),
    ensures
        join(table).len() == n * table.len(),
        forall|i: int|
            0 <= i < table.len() ==> join(table).subrange(n * i, n * i + n) == #[trigger] table[i],
    decreases table.len(),
{
    if table.len() > 0 {
        let rest = table.drop_first();
        assert(all_len(rest, n)) by {
            assert forall|i: int| 0 <= i < rest.len() implies (#[trigger] rest[i]).len() == n by {
                assert(rest[i] == table[i + 1]);
            }
        }
        lemma_join_at(rest, n);
        assert(table[0].len() == n);
        let j = join(rest);
        let k = rest.len();
        assert(n * table.len() == n * k + n) by (nonlinear_arith)
            requires
                table.len() == k + 1,
        ;
        assert forall|i: int| 0 <= i < table.len() implies join(table).subrange(n * i, n * i + n)
            == #[trigger] table[i] by {
            if i == 0 {
                assert(n * i == 0) by (nonlinear_arith)
                    requires
                        i == 0,
                ;
                assert(join(table).subrange(0, n as int) =~= table[0]);
            } else {
                assert(rest[i - 1] == table[i]);
                assert(n * i == n * (i - 1) + n) by (nonlinear_arith);
                assert(0 <= n * (i - 1) && n * (i - 1) + n <= n * k) by (nonlinear_arith)
                    requires
                        0 <= i - 1 < k,
                        n >= 0,
                ;
                assert(join(table).subrange(n * i, n * i + n) =~= j.subrange(
                    n * (i - 1),
                    n * (i - 1) + n,
                ));
            }
        }
    } else {
        assert(n * table.len() == 0) by (nonlinear_arith)
            requires
                table.len() == 0,
        ;
    }
}

/// Entries of the PoS table stand one after another.
proof fn lemma_pos_at(entries: Seq<PosLookupModel>)
    requires
        forall|i: int| 0 <= i < entries.len() ==> (#[trigger] entries[i]).hash.len() == 32,
    ensures
        pos_bytes(entries).len() == 34 * entries.len(),
        forall|i: int|
            0 <= i < entries.len() ==> {
                &&& pos_bytes(entries).subrange(34 * i, 34 * i + 32) == (#[trigger] entries[i]).hash
                &&& le_value(pos_bytes(entries).subrange(34 * i + 32, 34 * i + 34))
                    == entries[i].height_offset
            },
    decreases entries.len(),
{
    if entries.len() > 0 {
        let t = entries.drop_last();
        assert forall|i: int| 0 <= i < t.len() implies (#[trigger] t[i]).hash.len() == 32 by {
            assert(t[i] == entries[i]);
        }
        lemma_pos_at(t);
        let last = entries.last();
        assert(entries[entries.len() - 1].hash.len() == 32);
        let low = le_bytes(last.height_offset as nat, 2);
        lemma_pow256();
        lemma_le_bytes(last.height_offset as nat, 2);
        let s = pos_bytes(entries);
        assert forall|i: int| 0 <= i < entries.len() implies {
            &&& s.subrange(34 * i, 34 * i + 32) == (#[trigger] entries[i]).hash
            &&& le_value(s.subrange(34 * i + 32, 34 * i + 34)) == entries[i].height_offset
        } by {
            if i < t.len() {
                assert(t[i] == entries[i]);
                assert(s.subrange(34 * i, 34 * i + 32) =~= pos_bytes(t).subrange(34 * i, 34 * i + 32));
                assert(s.subrange(34 * i + 32, 34 * i + 34) =~= pos_bytes(t).subrange(
                    34 * i + 32,
                    34 * i + 34,
                ));
            } else {
                assert(s.subrange(34 * i, 34 * i + 32) =~= last.hash);
                assert(s.subrange(34 * i + 32, 34 * i + 34) =~= low);
            }
        }
    }
}

proof fn lemma_nonce_list(entries: Seq<(nat, u64)>)
    ensures
        nonce_bytes(entries) == entries.map_values(
            |e: (nat, u64)| uleb(e.0) + uleb(e.1 as nat),
        ).flatten(),
    decreases entries.len(),
{
    let f = |e: (nat, u64)| uleb(e.0) + uleb(e.1 as nat);
    let lists = entries.map_values(f);
    lists.lemma_flatten_and_flatten_alt_are_equivalent();
    if entries.len() > 0 {
        lemma_nonce_list(entries.drop_last());
        let before = entries.drop_last().map_values(f);
        before.lemma_flatten_and_flatten_alt_are_equivalent();
        assert(lists.drop_last() =~= before);
        assert(lists.last() == f(entries.last()));
    }
}

/// The bytes of a packet that can be written.
pub(crate) proof fn lemma_bytes(p: PacketModel)
    requires
        encoded(p) is Ok,
    ensures
        ({
            let n = p.blocks.len() as int;
            let loads = payloads(p, n)->Ok_0.0;
            let recs = records(p, loads, n)->Ok_0;
            &&& payloads(p, n) is Ok
            &&& records(p, loads, n) is Ok
            &&& encoded(p)->Ok_0 == packet_bytes(p, recs, segment(loads, n))
            &&& offsets(sections(p, recs))[7] <= u32::MAX
            &&& recs.len() == n
            &&& recs.len() <= u32::MAX
        }),
{
    reveal(packet_bytes);
    let n = p.blocks.len() as int;
    let loads = payloads(p, n)->Ok_0.0;
    let recs = records(p, loads, n)->Ok_0;
    lemma_records_len(p, loads, n);
    lemma_count(p, recs);
}

/// The head of a packet: the hash and the state root before it, its first block number and its
/// minimums in little-endian order, the size of a record prefix, and eight offsets of four
/// bytes.
pub proof fn law_head_bytes(p: PacketModel)
    requires
        tables_shape(p),
        encoded(p) is Ok,
    ensures
        ({
            let data = encoded(p)->Ok_0;
            &&& data.len() >= 125
            &&& data.subrange(0, 32) == p.prev_last_hash
            &&& data.subrange(32, 64) == p.prev_last_state_root
            &&& le_value(data.subrange(64, 72)) == p.first_block_number
            &&& le_value(data.subrange(72, 80)) == p.min_timestamp
            &&& le_value(data.subrange(80, 88)) == p.min_height
            &&& le_value(data.subrange(88, 92)) == p.min_pos_height % 0x1_0000_0000
            &&& data[92] == 64 || data[92] == 72 || data[92] == 80 || data[92] == 88 || data[92]
                == 96
            &&& forall|i: int|
                0 <= i < 8 ==> #[trigger] offset_of(data, i) == le_value(
                    data.subrange(93 + 4 * i, 97 + 4 * i),
                )
        }),
{
    lemma_bytes(p);
    let n = p.blocks.len() as int;
    let loads = payloads(p, n)->Ok_0.0;
    let recs = records(p, loads, n)->Ok_0;
    lemma_fixed_fields(p, recs, segment(loads, n));
    let data = encoded(p)->Ok_0;
    assert(data.subrange(0, 32) =~= data.take(32));
}

/// Offsets and tables of a packet.
proof fn lemma_tables_at(p: PacketModel)
    requires
        tables_shape(p),
        encoded(p) is Ok,
    ensures
        ({
            let data = encoded(p)->Ok_0;
            let a = join(p.addresses);
            let b = a + pos_bytes(p.pos_entries);
            let c = b + join(p.difficulties);
            let d = c + nonce_bytes(p.base_nonces);
            let e = d + join(p.gas_prices);
            &&& data.len() >= 125 + e.len()
            &&& data.subrange(125, 125 + e.len() as int) == e
            &&& offset_of(data, 0) == 125
            &&& offset_of(data, 1) == 125 + a.len()
            &&& offset_of(data, 2) == 125 + b.len()
            &&& offset_of(data, 3) == 125 + c.len()
            &&& offset_of(data, 4) == 125 + d.len()
            &&& 125 + e.len() <= offset_of(data, 5) < 125 + e.len() + 32
            &&& offset_of(data, 5) <= offset_of(data, 6) <= offset_of(data, 7) <= data.len()
            &&& offset_of(data, 5) % 32 == 0
            &&& offset_of(data, 6) % 32 == 0
            &&& offset_of(data, 7) % 64 == 0
            &&& offset_of(data, 5) + 4 <= data.len()
            &&& le_value(
                data.subrange(offset_of(data, 5) as int, offset_of(data, 5) as int + 4),
            ) == p.blocks.len()
        }),
{
    lemma_bytes(p);
    let n = p.blocks.len() as int;
    let loads = payloads(p, n)->Ok_0.0;
    let recs = records(p, loads, n)->Ok_0;
    let seg = segment(loads, n);
    let data = encoded(p)->Ok_0;
    let s = sections(p, recs);
    let offs = offsets(s);
    lemma_offsets(p, recs, seg, 0);
    lemma_offsets(p, recs, seg, 1);
    lemma_offsets(p, recs, seg, 2);
    lemma_offsets(p, recs, seg, 3);
    lemma_offsets(p, recs, seg, 4);
    lemma_offsets(p, recs, seg, 5);
    lemma_offsets(p, recs, seg, 6);
    lemma_offsets(p, recs, seg, 7);
    lemma_fixed_fields(p, recs, seg);
    lemma_section_order(p, recs);
    lemma_section_prefixes(p, recs);
    lemma_block_area(p, recs, seg);
    lemma_gaps(p, recs);
    let e = s.nonces + join(p.gas_prices);
    let pad = choose|pad: nat| pad < 32 && s.prices == #[trigger] with_zeros(e, pad);
    assert(s.prices == e + zeros(pad));
    let rest = s.body + seg;
    assert(data.skip(125).len() == data.len() - 125);
    assert(data.subrange(125, 125 + e.len() as int) =~= e) by {
        assert forall|i: int| 0 <= i < e.len() implies data[125 + i] == e[i] by {
            assert(data.skip(125)[i] == data[125 + i]);
            assert(s.body.take(s.prices.len() as int)[i] == rest[i]);
            assert(s.prices[i] == e[i]);
        }
    }
}

/// The offsets of a packet: the sections follow its head without a gap. There are 20 bytes for
/// each address, 34 for each PoS block, 32 for each difficulty and 32 for each price. The block
/// header starts at the next multiple of 32 bytes and with the number of blocks; the block area
/// starts at a multiple of 32 and the transactions at one of 64.
pub proof fn law_offsets(p: PacketModel)
    requires
        tables_shape(p),
        encoded(p) is Ok,
    ensures
        ({
            let data = encoded(p)->Ok_0;
            let off = |i: int| offset_of(data, i) as int;
            &&& off(0) == 125
            &&& off(1) == off(0) + 20 * p.addresses.len()
            &&& off(2) == off(1) + 34 * p.pos_entries.len()
            &&& off(3) == off(2) + 32 * p.difficulties.len()
            &&& off(3) <= off(4)
            &&& off(4) + 32 * p.gas_prices.len() <= off(5) < off(4) + 32 * p.gas_prices.len() + 32
            &&& off(5) <= off(6) <= off(7) <= data.len()
            &&& off(5) % 32 == 0
            &&& off(6) % 32 == 0
            &&& off(7) % 64 == 0
            &&& le_value(data.subrange(off(5), off(5) + 4)) == p.blocks.len()
        }),
{
    lemma_tables_at(p);
    lemma_join_at(p.addresses, 20);
    lemma_join_at(p.difficulties, 32);
    lemma_join_at(p.gas_prices, 32);
    lemma_pos_at(p.pos_entries);
}

/// The addresses of a packet stand behind its head, 20 bytes each.
pub proof fn law_address_bytes(p: PacketModel, i: int)
    requires
        tables_shape(p),
        encoded(p) is Ok,
        0 <= i < p.addresses.len(),
    ensures
        encoded(p)->Ok_0.subrange(125 + 20 * i, 145 + 20 * i) == p.addresses[i],
{
    lemma_tables_at(p);
    lemma_join_at(p.addresses, 20);
    let a = join(p.addresses);
    let e = a + pos_bytes(p.pos_entries) + join(p.difficulties) + nonce_bytes(p.base_nonces) + join(
        p.gas_prices,
    );
    lemma_slice(encoded(p)->Ok_0, e, a, 0, 20 * i, 20 * i + 20);
    assert(p.addresses[i] == a.subrange(20 * i, 20 * i + 20));
}

/// The PoS blocks of a packet stand at its second offset: 32 bytes of hash and two of height.
pub proof fn law_pos_bytes(p: PacketModel, i: int)
    requires
        tables_shape(p),
        encoded(p) is Ok,
        0 <= i < p.pos_entries.len(),
    ensures
        ({
            let data = encoded(p)->Ok_0;
            let at = offset_of(data, 1) + 34 * i;
            &&& data.subrange(at, at + 32) == p.pos_entries[i].hash
            &&& le_value(data.subrange(at + 32, at + 34)) == p.pos_entries[i].height_offset
        }),
{
    lemma_tables_at(p);
    lemma_pos_at(p.pos_entries);
    let a = join(p.addresses);
    let b = pos_bytes(p.pos_entries);
    let e = a + b + join(p.difficulties) + nonce_bytes(p.base_nonces) + join(p.gas_prices);
    lemma_slice(encoded(p)->Ok_0, e, b, a.len() as int, 34 * i, 34 * i + 32);
    lemma_slice(encoded(p)->Ok_0, e, b, a.len() as int, 34 * i + 32, 34 * i + 34);
    assert(p.pos_entries[i].hash == b.subrange(34 * i, 34 * i + 32));
}

/// The difficulties of a packet stand at its third offset, 32 bytes each.
pub proof fn law_difficulty_bytes(p: PacketModel, i: int)
    requires
        tables_shape(p),
        encoded(p) is Ok,
        0 <= i < p.difficulties.len(),
    ensures
        ({
            let data = encoded(p)->Ok_0;
            let at = offset_of(data, 2) + 32 * i;
            data.subrange(at, at + 32) == p.difficulties[i]
        }),
{
    lemma_tables_at(p);
    lemma_join_at(p.difficulties, 32);
    let b = join(p.addresses) + pos_bytes(p.pos_entries);
    let c = join(p.difficulties);
    let e = b + c + nonce_bytes(p.base_nonces) + join(p.gas_prices);
    lemma_slice(encoded(p)->Ok_0, e, c, b.len() as int, 32 * i, 32 * i + 32);
    assert(p.difficulties[i] == c.subrange(32 * i, 32 * i + 32));
}

/// The base nonces of a packet stand between its fourth and its fifth offset: of each the place
/// of the sender and the nonce, in LEB128.
pub proof fn law_nonce_bytes(p: PacketModel)
    requires
        tables_shape(p),
        encoded(p) is Ok,
    ensures
        ({
            let data = encoded(p)->Ok_0;
            data.subrange(offset_of(data, 3) as int, offset_of(data, 4) as int)
                == p.base_nonces.map_values(
                |e: (nat, u64)| uleb(e.0) + uleb(e.1 as nat),
            ).flatten()
        }),
{
    lemma_tables_at(p);
    lemma_nonce_list(p.base_nonces);
    let c = join(p.addresses) + pos_bytes(p.pos_entries) + join(p.difficulties);
    let d = nonce_bytes(p.base_nonces);
    let e = c + d + join(p.gas_prices);
    lemma_slice(encoded(p)->Ok_0, e, d, c.len() as int, 0, d.len() as int);
    assert(d.subrange(0, d.len() as int) =~= d);
}

/// The prices of a packet stand at its fifth offset, 32 bytes each.
pub proof fn law_price_bytes(p: PacketModel, i: int)
    requires
        tables_shape(p),
        encoded(p) is Ok,
        0 <= i < p.gas_prices.len(),
    ensures
        ({
            let data = encoded(p)->Ok_0;
            let at = offset_of(data, 4) + 32 * i;
            data.subrange(at, at + 32) == p.gas_prices[i]
        }),
{
    lemma_tables_at(p);
    lemma_join_at(p.gas_prices, 32);
    let d = join(p.addresses) + pos_bytes(p.pos_entries) + join(p.difficulties) + nonce_bytes(
        p.base_nonces,
    );
    let c = join(p.gas_prices);
    lemma_slice(encoded(p)->Ok_0, d + c, c, d.len() as int, 32 * i, 32 * i + 32);
    assert(p.gas_prices[i] == c.subrange(32 * i, 32 * i + 32));
}

/// A slice of a part of what stands behind the head.
proof fn lemma_slice(data: Seq<u8>, whole: Seq<u8>, part: Seq<u8>, at: int, a: int, b: int)
    requires
        0 <= a <= b <= part.len(),
        0 <= at,
        at + part.len() <= whole.len(),
        data.len() >= 125 + whole.len(),
        data.subrange(125, 125 + whole.len() as int) == whole,
        whole.subrange(at, at + part.len()) =~= part,
    ensures
        data.subrange(125 + at + a, 125 + at + b) == part.subrange(a, b),
{
    assert forall|i: int| a <= i < b implies data[125 + at + i] == part[i] by {
        assert(data.subrange(125, 125 + whole.len() as int)[at + i] == whole[at + i]);
        assert(whole[at + i] == whole.subrange(at, at + part.len())[i]);
    }
    assert(data.subrange(125 + at + a, 125 + at + b) =~= part.subrange(a, b));
}

/// Where the gaps of a packet end.
proof fn lemma_gaps(p: PacketModel, recs: Seq<Seq<u8>>)
    ensures
        ({
            let s = sections(p, recs);
            &&& (125 + s.prices.len()) % 32 == 0
            &&& (125 + s.header.len()) % 32 == 0
            &&& (125 + s.body.len()) % 64 == 0
        }),
{
    reveal(sections);
    let s = sections(p, recs);
    let n = prefix_size(recs);
    lemma_padded(s.nonces + join(p.gas_prices), 125, 32);
    lemma_padded(s.prices + (le_bytes(recs.len(), 4) + bitmap(recs, n)), 125, 32);
    lemma_padded(s.header + body_bytes(recs, n), 125, 64);
}

proof fn lemma_padded(s: Seq<u8>, base: nat, n: nat)
    requires
        n == 32 || n == 64 || n == 4,
    ensures
        (base + padded_from(s, base, n).len()) % n == 0,
{
    let x = (base + s.len()) as int;
    if n == 32 {
        assert((x + (32 - x % 32) % 32) % 32 == 0);
    } else if n == 64 {
        assert((x + (64 - x % 64) % 64) % 64 == 0);
    } else {
        assert((x + (4 - x % 4) % 4) % 4 == 0);
    }
}

} // verus!
