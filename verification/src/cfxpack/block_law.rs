//! How the records of blocks and their payloads are laid out.
use crate::cfxpack::body::{bitmap, body_bytes, fit_count, fixed_from, lemma_fixed, lemma_fixed_len, overflow_from, prefix_part, prefix_size};
use crate::cfxpack::codec::{aligned, enumerated_in, known_base_prices, known_gas_limits, qc5e, qc8, uleb};
use crate::cfxpack::decode::offset_of;
use crate::cfxpack::encode::{cleared, encoded, offsets, payloads, records, segment, stored, tx_place, written_flags};
use crate::cfxpack::error::PackError;
use crate::cfxpack::format_law::lemma_bytes;
use crate::cfxpack::packet::{BlockModel, PacketModel};
use crate::cfxpack::record::{encode_record, record_head};
use crate::cfxpack::roundtrip::{lemma_records, packet_shape};
use crate::cfxpack::roundtrip_tables::{lemma_block_area, lemma_fixed_fields};
use crate::cfxpack::snappy::snap_compressed;
use crate::cfxpack::table::last_index;
use crate::cfxpack::types::zeros;
use vstd::prelude::*;

verus! {

proof fn lemma_last_place(table: Seq<Seq<u8>>, v: Seq<u8>, i: int)
    requires
        0 <= i < table.len(),
        table[i] == v,
        forall|j: int| i < j < table.len() ==> #[trigger] table[j] != v,
    ensures
        last_index(table, v) == Some(i as nat),
    decreases table.len(),
{
    if i < table.len() - 1 {
        assert(table[table.len() - 1] != v);
        let front = table.drop_last();
        assert forall|j: int| i < j < front.len() implies #[trigger] front[j] != v by {
            assert(front[j] == table[j]);
        }
        lemma_last_place(front, v, i);
    }
}

/// The record of a block: 32 bytes of hash, four of each of its three roots, its flags, the
/// places of its author and, after its time above the least, of its difficulty, gas limit and
/// base prices, its height above the least, blame, finalized epoch, the place of its payload,
/// its base reward, and its PoS view if it has one.
pub proof fn law_record_bytes(
    p: PacketModel,
    b: BlockModel,
    flags: u8,
    offset: nat,
    author: int,
    difficulty: int,
)
    requires
        b.hash.len() == 32 && b.state_root.len() == 32 && b.receipts_root.len() == 32
            && b.logs_bloom.len() == 32,
        0 <= author < p.addresses.len() && p.addresses[author] == b.author,
        forall|j: int| author < j < p.addresses.len() ==> #[trigger] p.addresses[j] != b.author,
        0 <= difficulty < p.difficulties.len() && p.difficulties[difficulty] == b.difficulty,
        forall|j: int|
            difficulty < j < p.difficulties.len() ==> #[trigger] p.difficulties[j] != b.difficulty,
        encode_record(p, b, flags, offset) is Ok,
    ensures
        ({
            let r = encode_record(p, b, flags, offset)->Ok_0;
            &&& r.len() >= 45
            &&& r.subrange(0, 32) == b.hash
            &&& r.subrange(32, 36) == b.state_root.subrange(0, 4)
            &&& r.subrange(36, 40) == b.receipts_root.subrange(0, 4)
            &&& r.subrange(40, 44) == b.logs_bloom.subrange(0, 4)
            &&& r[44] == flags
            &&& b.timestamp >= p.min_timestamp
            &&& b.height >= p.min_height
            &&& r.skip(45) == seq![
                uleb(author as nat),
                uleb((b.timestamp - p.min_timestamp) as nat),
                uleb(difficulty as nat),
                qc5e(b.gas_limit, enumerated_in(b.gas_limit, known_gas_limits()))->Ok_0,
                qc5e(
                    b.base_price_core,
                    enumerated_in(b.base_price_core, known_base_prices(false)),
                )->Ok_0,
                qc5e(
                    b.base_price_espace,
                    enumerated_in(b.base_price_espace, known_base_prices(true)),
                )->Ok_0,
                uleb((b.height - p.min_height) as nat),
                uleb(b.blame as nat),
                uleb(b.finalized_epoch as nat),
                uleb(offset),
                qc8(b.base_reward)->Ok_0,
                (match b.pos_view {
                    Some(v) => uleb(v as nat),
                    None => Seq::empty(),
                }),
            ].flatten()
        }),
{
    reveal(encode_record);
    lemma_last_place(p.addresses, b.author, author);
    lemma_last_place(p.difficulties, b.difficulty, difficulty);
    let r = encode_record(p, b, flags, offset)->Ok_0;
    let head = record_head(b, flags);
    assert(head.len() == 45);
    assert(r.subrange(0, 32) =~= b.hash);
    assert(r.subrange(32, 36) =~= b.state_root.subrange(0, 4));
    assert(r.subrange(36, 40) =~= b.receipts_root.subrange(0, 4));
    assert(r.subrange(40, 44) =~= b.logs_bloom.subrange(0, 4));
    let parts = seq![
        uleb(author as nat),
        uleb((b.timestamp - p.min_timestamp) as nat),
        uleb(difficulty as nat),
        qc5e(b.gas_limit, enumerated_in(b.gas_limit, known_gas_limits()))->Ok_0,
        qc5e(
            b.base_price_core,
            enumerated_in(b.base_price_core, known_base_prices(false)),
        )->Ok_0,
        qc5e(
            b.base_price_espace,
            enumerated_in(b.base_price_espace, known_base_prices(true)),
        )->Ok_0,
        uleb((b.height - p.min_height) as nat),
        uleb(b.blame as nat),
        uleb(b.finalized_epoch as nat),
        uleb(offset),
        qc8(b.base_reward)->Ok_0,
        (match b.pos_view {
            Some(v) => uleb(v as nat),
            None => Seq::empty(),
        }),
    ];
    lemma_twelve(parts);
    assert(r.skip(45) =~= parts.flatten());
}

proof fn lemma_twelve(s: Seq<Seq<u8>>)
    requires
        s.len() == 12,
    ensures
        s.flatten() == s[0] + (s[1] + (s[2] + (s[3] + (s[4] + (s[5] + (s[6] + (s[7] + (s[8] + (s[9]
            + (s[10] + s[11])))))))))),
{
    lemma_first(s, 0);
    lemma_first(s, 1);
    lemma_first(s, 2);
    lemma_first(s, 3);
    lemma_first(s, 4);
    lemma_first(s, 5);
    lemma_first(s, 6);
    lemma_first(s, 7);
    lemma_first(s, 8);
    lemma_first(s, 9);
    lemma_first(s, 10);
    lemma_first(s, 11);
    assert(s.skip(12).flatten() =~= Seq::empty());
    assert(s.skip(0) =~= s);
    assert(s[11] + Seq::<u8>::empty() =~= s[11]);
}

proof fn lemma_first(s: Seq<Seq<u8>>, i: int)
    requires
        0 <= i < s.len(),
    ensures
        s.skip(i).flatten() == s[i] + s.skip(i + 1).flatten(),
{
    assert(s.skip(i).drop_first() =~= s.skip(i + 1));
    assert(s.skip(i).first() == s[i]);
}

/// The flags that are written keep the low three bits and the high three of a block's flags.
/// The fourth bit tells that there is a payload, and the fifth that it takes more than 512
/// bytes, which is when it is compressed.
pub proof fn law_written_flags(flags: u8, payload: Seq<u8>)
    ensures
        ({
            let w = written_flags(flags, payload) as int;
            &&& w % 8 == flags as int % 8
            &&& w / 32 == flags as int / 32
            &&& (w / 8) % 2 == 1 <==> payload.len() > 0
            &&& (w / 16) % 2 == 1 <==> payload.len() > 512
        }),
        payload.len() > 512 ==> stored(payload) == snap_compressed(payload),
        payload.len() <= 512 ==> stored(payload) == payload,
{
    let low = flags as int % 8;
    let high = flags as int / 32;
    assert(cleared(flags) == 32 * high + low);
}

/// How many records fit a prefix.
proof fn lemma_fit_count(records: Seq<Seq<u8>>, n: nat)
    ensures
        fit_count(records, n) == records.filter(|r: Seq<u8>| r.len() <= n).len(),
    decreases records.len(),
{
    reveal(Seq::filter);
    if records.len() > 0 {
        lemma_fit_count(records.drop_last(), n);
    }
}

/// The size of a record prefix is the least of 64 and 72 bytes that nine records in ten fit,
/// else the least of 80 and 88 that seven in ten fit, else 96.
pub proof fn law_prefix_size(records: Seq<Seq<u8>>)
    ensures
        ({
            let size = prefix_size(records);
            let most = |n: nat, of: nat|
                10 * records.filter(|r: Seq<u8>| r.len() <= n).len() >= of * records.len();
            &&& size == 64 || size == 72 || size == 80 || size == 88 || size == 96
            &&& size == 64 <==> most(64, 9)
            &&& size == 72 <==> most(72, 9) && !most(64, 9)
            &&& size == 80 <==> most(80, 7) && !most(64, 9) && !most(72, 9)
            &&& size == 88 <==> most(88, 7) && !most(80, 7) && !most(64, 9) && !most(72, 9)
        }),
{
    lemma_fit_count(records, 64);
    lemma_fit_count(records, 72);
    lemma_fit_count(records, 80);
    lemma_fit_count(records, 88);
}

/// Bit `i % 8` of byte `i / 8` of the bitmap tells whether record `i` is longer than a prefix.
pub proof fn law_bitmap(records: Seq<Seq<u8>>, n: nat, i: int)
    requires
        0 <= i < records.len(),
    ensures
        bitmap(records, n).len() == (records.len() + 7) / 8,
        ({
            let byte = bitmap(records, n)[i / 8] as int;
            let k = i % 8;
            let set = records[i].len() > n;
            &&& k == 0 ==> (byte % 2 == 1 <==> set)
            &&& k == 1 ==> ((byte / 2) % 2 == 1 <==> set)
            &&& k == 2 ==> ((byte / 4) % 2 == 1 <==> set)
            &&& k == 3 ==> ((byte / 8) % 2 == 1 <==> set)
            &&& k == 4 ==> ((byte / 16) % 2 == 1 <==> set)
            &&& k == 5 ==> ((byte / 32) % 2 == 1 <==> set)
            &&& k == 6 ==> ((byte / 64) % 2 == 1 <==> set)
            &&& k == 7 ==> ((byte / 128) % 2 == 1 <==> set)
        }),
{
    let j = i / 8;
    assert(i == 8 * j + i % 8);
}

/// The block area holds a prefix of each record in turn, filled up with zeros, and then, for
/// each record that is longer, the length of the rest in LEB128 and the rest.
pub proof fn law_body_bytes(records: Seq<Seq<u8>>, n: nat, i: int)
    requires
        0 <= i < records.len(),
    ensures
        ({
            let area = body_bytes(records, n);
            let r = records[i];
            &&& area.len() >= records.len() * n
            &&& 0 <= i * n && i * n + n <= records.len() * n
            &&& r.len() >= n ==> area.subrange(i * n, i * n + n) == r.subrange(0, n as int)
            &&& r.len() < n ==> {
                &&& area.subrange(i * n, i * n + r.len()) == r
                &&& forall|o: int| r.len() <= o < n ==> #[trigger] area[i * n + o] == 0
            }
            &&& area.skip((records.len() * n) as int) == records.filter(
                |r: Seq<u8>| r.len() > n,
            ).map_values(|r: Seq<u8>| uleb((r.len() - n) as nat) + r.skip(n as int)).flatten()
        }),
{
    let area = body_bytes(records, n);
    let r = records[i];
    let fixed = fixed_from(records, n, 0);
    lemma_fixed(records, n, 0, i);
    lemma_fixed_len(records, n);
    assert(0 <= i * n && i * n + n <= records.len() * n) by (nonlinear_arith)
        requires
            0 <= i < records.len(),
            n >= 0,
    ;
    let part = fixed.subrange(i * n, i * n + n);
    assert(part == prefix_part(r, n));
    assert forall|o: int| 0 <= o < n implies area[i * n + o] == #[trigger] part[o] by {}
    if r.len() >= n {
        assert(area.subrange(i * n, i * n + n) =~= r.subrange(0, n as int)) by {
            assert forall|o: int| 0 <= o < n implies area[i * n + o] == r[o] by {
                assert(part[o] == r[o]);
            }
        }
    } else {
        assert(area.subrange(i * n, i * n + r.len()) =~= r) by {
            assert forall|o: int| 0 <= o < r.len() implies area[i * n + o] == r[o] by {
                assert(part[o] == r[o]);
            }
        }
        assert forall|o: int| r.len() <= o < n implies #[trigger] area[i * n + o] == 0 by {
            assert(part[o] == 0);
        }
    }
    assert(area.skip((records.len() * n) as int) =~= overflow_from(records, n, 0));
    lemma_overflow(records, n, 0);
    assert(records.skip(0) =~= records);
}

proof fn lemma_overflow(records: Seq<Seq<u8>>, n: nat, i: int)
    requires
        0 <= i <= records.len(),
    ensures
        overflow_from(records, n, i) == records.skip(i).filter(
            |r: Seq<u8>| r.len() > n,
        ).map_values(|r: Seq<u8>| uleb((r.len() - n) as nat) + r.skip(n as int)).flatten(),
    decreases records.len() - i,
{
    let long = |r: Seq<u8>| r.len() > n;
    let rest = |r: Seq<u8>| uleb((r.len() - n) as nat) + r.skip(n as int);
    if i < records.len() {
        lemma_overflow(records, n, i + 1);
        let r = records[i];
        let tail = records.skip(i + 1);
        assert(records.skip(i) =~= seq![r] + tail);
        Seq::filter_distributes_over_add(seq![r], tail, long);
        reveal_with_fuel(Seq::filter, 2);
        assert(seq![r].drop_last() =~= Seq::empty());
        assert(seq![r].last() == r);
        let kept = tail.filter(long);
        if long(r) {
            assert(seq![r].filter(long) =~= seq![r]);
            let lists = (seq![r] + kept).map_values(rest);
            assert(lists.drop_first() =~= kept.map_values(rest));
            assert(lists.first() == rest(r));
        } else {
            assert(seq![r].filter(long) =~= Seq::empty());
            assert(Seq::<Seq<u8>>::empty() + kept =~= kept);
            assert(Seq::<u8>::empty() + overflow_from(records, n, i + 1) =~= overflow_from(
                records,
                n,
                i + 1,
            ));
        }
    } else {
        reveal(Seq::filter);
        assert(records.skip(i).len() == 0);
        assert(records.skip(i).filter(long).map_values(rest).flatten() =~= Seq::empty());
    }
}

/// A payload that is not empty stands in the transaction segment at four times its place, less
/// than four bytes behind what comes before it: the length of its stored form in LEB128, then
/// that form. An empty payload has place zero and takes no bytes.
pub proof fn law_segment(loads: Seq<Seq<u8>>, i: int, n: int)
    requires
        0 <= i < n <= loads.len(),
    ensures
        loads[i].len() == 0 ==> tx_place(loads, i) == 0 && segment(loads, i + 1) == segment(
            loads,
            i,
        ),
        loads[i].len() > 0 ==> {
            let s = segment(loads, n);
            let at = 4 * tx_place(loads, i);
            let code = uleb(stored(loads[i]).len());
            let end = at + code.len() + stored(loads[i]).len();
            &&& segment(loads, i).len() <= at < segment(loads, i).len() + 4
            &&& end <= s.len()
            &&& s.subrange(at as int, (at + code.len()) as int) == code
            &&& s.subrange((at + code.len()) as int, end as int) == stored(loads[i])
            &&& segment(loads, i + 1).len() == end
        },
        segment(loads, 0).len() == 0,
    decreases n,
{
    if i < n - 1 {
        law_segment(loads, i, n - 1);
        let t = segment(loads, n - 1);
        let s = segment(loads, n);
        if loads[i].len() > 0 {
            let at = 4 * tx_place(loads, i);
            let code = uleb(stored(loads[i]).len());
            let end = at + code.len() + stored(loads[i]).len();
            assert forall|k: int| 0 <= k < t.len() implies s[k] == t[k] by {}
            assert(s.subrange(at as int, (at + code.len()) as int) =~= t.subrange(
                at as int,
                (at + code.len()) as int,
            ));
            assert(s.subrange((at + code.len()) as int, end as int) =~= t.subrange(
                (at + code.len()) as int,
                end as int,
            ));
        }
    } else if loads[i].len() > 0 {
        let before = segment(loads, i);
        let a = aligned(before, 4);
        let x = before.len() as int;
        assert(a.len() == x + (4 - x % 4) % 4);
        assert(a.len() % 4 == 0);
        let s = segment(loads, n);
        let code = uleb(stored(loads[i]).len());
        let at = a.len() as int;
        assert(s == a + code + stored(loads[i]));
        assert(s.subrange(at, at + code.len()) =~= code);
        assert(s.subrange(at + code.len(), at + code.len() + stored(loads[i]).len()) =~= stored(
            loads[i],
        ));
    }
}

/// The block area and the transaction segment of a packet stand at its last two offsets, and
/// the bitmap stands behind the number of blocks. The records are those of the blocks, with
/// their written flags and the places of their payloads.
pub proof fn law_area_bytes(p: PacketModel, k: int)
    requires
        packet_shape(p),
        encoded(p) is Ok,
        0 <= k < p.blocks.len(),
    ensures
        ({
            let data = encoded(p)->Ok_0;
            let n = p.blocks.len() as int;
            let b = p.blocks[k];
            let loads = payloads(p, n)->Ok_0.0;
            let recs = records(p, loads, n)->Ok_0;
            let map = bitmap(recs, prefix_size(recs));
            let area = body_bytes(recs, prefix_size(recs));
            let header = offset_of(data, 5) as int;
            let body = offset_of(data, 6) as int;
            &&& recs.len() == n
            &&& data[92] == prefix_size(recs)
            &&& data.subrange(header + 4, header + 4 + map.len()) == map
            &&& body + area.len() <= data.len()
            &&& data.subrange(body, body + area.len()) == area
            &&& data.skip(offset_of(data, 7) as int) == segment(loads, n)
            &&& encode_record(p, b, written_flags(b.flags, loads[k]), tx_place(loads, k)) == Ok::<
                Seq<u8>,
                PackError,
            >(recs[k])
        }),
{
    reveal(encode_record);
    lemma_bytes(p);
    let n = p.blocks.len() as int;
    let data = encoded(p)->Ok_0;
    let loads = payloads(p, n)->Ok_0.0;
    let recs = records(p, loads, n)->Ok_0;
    let size = prefix_size(recs);
    lemma_fixed_fields(p, recs, segment(loads, n));
    lemma_block_area(p, recs, segment(loads, n));
    lemma_records(p, loads, n, k);
    let area = body_bytes(recs, size);
    let body = offset_of(data, 6) as int;
    let tail = choose|tail: Seq<u8>| #[trigger]
        (area + tail) == data.skip(body) && offset_of(data, 7) >= data.len() - tail.len();
    assert(data.skip(body).len() == data.len() - body);
    assert(data.subrange(body, body + area.len()) =~= area) by {
        assert forall|o: int| 0 <= o < area.len() implies data[body + o] == area[o] by {
            assert(data.skip(body)[o] == (area + tail)[o]);
        }
    }
}

/// The fields of fixed length open a record.
proof fn lemma_head(p: PacketModel, b: BlockModel, flags: u8, offset: nat)
    requires
        b.hash.len() == 32 && b.state_root.len() == 32 && b.receipts_root.len() == 32
            && b.logs_bloom.len() == 32,
        encode_record(p, b, flags, offset) is Ok,
    ensures
        ({
            let r = encode_record(p, b, flags, offset)->Ok_0;
            &&& r.len() >= 45
            &&& r.subrange(0, 32) == b.hash
            &&& r.subrange(32, 36) == b.state_root.subrange(0, 4)
            &&& r.subrange(36, 40) == b.receipts_root.subrange(0, 4)
            &&& r.subrange(40, 44) == b.logs_bloom.subrange(0, 4)
            &&& r[44] == flags
        }),
{
    reveal(encode_record);
    let r = encode_record(p, b, flags, offset)->Ok_0;
    let head = record_head(b, flags);
    assert(head.len() == 45);
    assert(r.subrange(0, 32) =~= b.hash);
    assert(r.subrange(32, 36) =~= b.state_root.subrange(0, 4));
    assert(r.subrange(36, 40) =~= b.receipts_root.subrange(0, 4));
    assert(r.subrange(40, 44) =~= b.logs_bloom.subrange(0, 4));
}

/// The first bytes of a record stand in the block area behind the prefixes before it.
proof fn lemma_in_area(records: Seq<Seq<u8>>, n: nat, i: int)
    requires
        0 <= i < records.len(),
        records[i].len() >= 45,
        n >= 45,
    ensures
        0 <= i * n,
        i * n + 45 <= body_bytes(records, n).len(),
        body_bytes(records, n).subrange(i * n, i * n + 45) == records[i].subrange(0, 45),
{
    law_body_bytes(records, n, i);
    let area = body_bytes(records, n);
    let r = records[i];
    assert(area.subrange(i * n, i * n + 45) =~= r.subrange(0, 45)) by {
        assert forall|o: int| 0 <= o < 45 implies area[i * n + o] == r[o] by {
            if r.len() >= n {
                assert(area.subrange(i * n, i * n + n)[o] == r.subrange(0, n as int)[o]);
            } else {
                assert(area.subrange(i * n, i * n + r.len())[o] == r[o]);
            }
        }
    }
}

/// In the bytes of a packet, record `k` stands in the block area behind `k` prefixes: the hash
/// of the block, four bytes of each of its roots, and its flags, of which the low three and the
/// high three are the block's.
#[verifier::rlimit(40)]
pub proof fn law_block_bytes(p: PacketModel, k: int)
    requires
        packet_shape(p),
        encoded(p) is Ok,
        0 <= k < p.blocks.len(),
    ensures
        ({
            let data = encoded(p)->Ok_0;
            let b = p.blocks[k];
            let at = offset_of(data, 6) + k * data[92];
            &&& data.len() >= at + 45
            &&& data.subrange(at, at + 32) == b.hash
            &&& data.subrange(at + 32, at + 36) == b.state_root.subrange(0, 4)
            &&& data.subrange(at + 36, at + 40) == b.receipts_root.subrange(0, 4)
            &&& data.subrange(at + 40, at + 44) == b.logs_bloom.subrange(0, 4)
            &&& data[at + 44] as int % 8 == b.flags as int % 8
            &&& data[at + 44] as int / 32 == b.flags as int / 32
        }),
{
    let data = encoded(p)->Ok_0;
    let n = p.blocks.len() as int;
    let b = p.blocks[k];
    let loads = payloads(p, n)->Ok_0.0;
    let recs = records(p, loads, n)->Ok_0;
    let flags = written_flags(b.flags, loads[k]);
    assert(crate::cfxpack::roundtrip::block_parts_shape(b));
    law_area_bytes(p, k);
    lemma_head(p, b, flags, tx_place(loads, k));
    law_written_flags(b.flags, loads[k]);
    law_prefix_size(recs);
    lemma_in_area(recs, prefix_size(recs), k);
    let area = body_bytes(recs, prefix_size(recs));
    let body = offset_of(data, 6) as int;
    lemma_fields_at(data, area, body, k * prefix_size(recs), recs[k]);
}

/// The first fields of a record in the bytes around the block area.
proof fn lemma_fields_at(data: Seq<u8>, area: Seq<u8>, body: int, i: int, r: Seq<u8>)
    requires
        0 <= body,
        0 <= i,
        body + area.len() <= data.len(),
        data.subrange(body, body + area.len()) == area,
        i + 45 <= area.len(),
        r.len() >= 45,
        area.subrange(i, i + 45) == r.subrange(0, 45),
    ensures
        ({
            let at = body + i;
            &&& data.subrange(at, at + 32) == r.subrange(0, 32)
            &&& data.subrange(at + 32, at + 36) == r.subrange(32, 36)
            &&& data.subrange(at + 36, at + 40) == r.subrange(36, 40)
            &&& data.subrange(at + 40, at + 44) == r.subrange(40, 44)
            &&& data[at + 44] == r[44]
        }),
{
    let at = body + i;
    assert forall|o: int| 0 <= o < 45 implies data[at + o] == #[trigger] r[o] by {
        let whole = data.subrange(body, body + area.len());
        assert(whole[i + o] == data[body + (i + o)]);
        assert(area.subrange(i, i + 45)[o] == area[i + o]);
        assert(r.subrange(0, 45)[o] == r[o]);
    }
    assert(data.subrange(at, at + 32) =~= r.subrange(0, 32));
    assert(data.subrange(at + 32, at + 36) =~= r.subrange(32, 36));
    assert(data.subrange(at + 36, at + 40) =~= r.subrange(36, 40));
    assert(data.subrange(at + 40, at + 44) =~= r.subrange(40, 44));
    assert(data[at + 44] == r[44]);
}

} // verus!
