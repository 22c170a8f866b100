//! The tables and the header of a packet that was written are read back.
use crate::cfxpack::body::{bitmap, body_bytes, prefix_size};
use crate::cfxpack::codec::{law_uleb, le_at, uleb};
use crate::cfxpack::decode::{address_table, header_fault, nonce_table, offset_fault, offset_of, pieces, pos_table, tables_of, valid_prefix_size, word_table, Tables};
use crate::cfxpack::encode::{fixed_fields, nonce_bytes, offset_bytes, offsets, pos_bytes, sections};
use crate::cfxpack::error::PackError;
use crate::cfxpack::packet::{PacketModel, PosLookupModel};
use crate::cfxpack::record::{lemma_assoc, lemma_skip_head};
use crate::cfxpack::rlp_form::join;
use crate::cfxpack::txform::lemma_join_push;
use crate::cfxpack::types::{le_bytes, le_value, lemma_le_bytes, lemma_pow256, zeros};
use vstd::prelude::*;

verus! {

/// Every entry has the length `n`.
pub open spec fn all_len(table: Seq<Seq<u8>>, n: nat) -> bool {
    forall|i: int| 0 <= i < table.len() ==> (#[trigger] table[i]).len() == n
}

/// The pieces of joined entries of one length are the entries, whatever is shorter
/// than an entry behind them.
proof fn lemma_pieces(table: Seq<Seq<u8>>, n: nat, tail: Seq<u8>)
    requires
        n > 0,
        all_len(table, n),
        tail.len() < n,
    ensures
        join(table).len() == table.len() * n,
        pieces(join(table) + tail, n) == table,
    decreases table.len(),
{
    let s = join(table) + tail;
    if table.len() == 0 {
        assert(table.len() * n == 0) by (nonlinear_arith)
            requires
                table.len() == 0,
        ;
        assert(s.len() / n == 0) by (nonlinear_arith)
            requires
                s.len() < n,
        ;
        assert(pieces(s, n) =~= table);
    } else {
        let t = table.drop_last();
        let last = table.last();
        assert(all_len(t, n)) by {
            assert forall|i: int| 0 <= i < t.len() implies (#[trigger] t[i]).len() == n by {
                assert(t[i] == table[i]);
            }
        }
        assert(table[table.len() - 1].len() == n);
        lemma_pieces(t, n, Seq::empty());
        lemma_join_push(t, last);
        assert(t.push(last) =~= table);
        let j = join(t);
        assert(join(table) == j + last);
        assert(table.len() * n == t.len() * n + n) by (nonlinear_arith)
            requires
                table.len() == t.len() + 1,
        ;
        assert(s.len() / n == table.len()) by (nonlinear_arith)
            requires
                s.len() == table.len() * n + tail.len(),
                tail.len() < n,
        ;
        assert(j + Seq::<u8>::empty() =~= j);
        assert(pieces(j, n) == t);
        assert forall|i: int| 0 <= i < table.len() implies pieces(s, n)[i] == table[i] by {
            if i < t.len() {
                assert(pieces(j, n)[i] == t[i]);
                assert(0 <= i * n && i * n + n <= t.len() * n) by (nonlinear_arith)
                    requires
                        0 <= i,
                        i + 1 <= t.len(),
                ;
                assert(s.subrange(i * n, i * n + n) =~= j.subrange(i * n, i * n + n));
            } else {
                assert(i * n == t.len() * n) by (nonlinear_arith)
                    requires
                        i == t.len(),
                ;
                assert(s.subrange(i * n, i * n + n) =~= last);
            }
        }
        assert(pieces(s, n) =~= table);
    }
}

proof fn lemma_address_table(table: Seq<Seq<u8>>)
    requires
        all_len(table, 20),
    ensures
        address_table(join(table)) == Ok::<Seq<Seq<u8>>, PackError>(table),
{
    lemma_pieces(table, 20, Seq::empty());
    assert(join(table) + Seq::<u8>::empty() =~= join(table));
}

proof fn lemma_word_table(table: Seq<Seq<u8>>, pad: nat)
    requires
        all_len(table, 32),
        pad < 32,
    ensures
        word_table(join(table) + zeros(pad)) == Ok::<Seq<Seq<u8>>, PackError>(table),
{
    lemma_pieces(table, 32, zeros(pad));
}

/// The PoS entries have full hashes.
pub open spec fn pos_shape(entries: Seq<PosLookupModel>) -> bool {
    forall|i: int| 0 <= i < entries.len() ==> (#[trigger] entries[i]).hash.len() == 32
}

proof fn lemma_pos_table(entries: Seq<PosLookupModel>)
    requires
        pos_shape(entries),
    ensures
        pos_bytes(entries).len() == 34 * entries.len(),
        pos_table(pos_bytes(entries)) == Ok::<Seq<PosLookupModel>, PackError>(entries),
    decreases entries.len(),
{
    let s = pos_bytes(entries);
    if entries.len() == 0 {
        assert(pos_table(s)->Ok_0 =~= entries);
    } else {
        let t = entries.drop_last();
        let last = entries.last();
        assert(pos_shape(t)) by {
            assert forall|i: int| 0 <= i < t.len() implies (#[trigger] t[i]).hash.len() == 32 by {
                assert(t[i] == entries[i]);
            }
        }
        assert(entries[entries.len() - 1].hash.len() == 32);
        lemma_pos_table(t);
        lemma_pow256();
        lemma_le_bytes(last.height_offset as nat, 2);
        let low = le_bytes(last.height_offset as nat, 2);
        let j = pos_bytes(t);
        let got = pos_table(s)->Ok_0;
        let n = t.len() as int;
        assert(s == j + (last.hash + low));
        assert forall|i: int| 0 <= i < entries.len() implies got[i] == entries[i] by {
            if i < n {
                assert(pos_table(j)->Ok_0[i] == t[i]);
                assert(s.subrange(i * 34, i * 34 + 32) =~= j.subrange(i * 34, i * 34 + 32));
                assert(s.subrange(i * 34 + 32, i * 34 + 34) =~= j.subrange(
                    i * 34 + 32,
                    i * 34 + 34,
                ));
            } else {
                assert(s.subrange(i * 34, i * 34 + 32) =~= last.hash);
                assert(s.subrange(i * 34 + 32, i * 34 + 34) =~= low);
            }
        }
        assert(got =~= entries);
    }
}

/// The entries of a table of base nonces, from the front.
spec fn nonces_from(entries: Seq<(nat, u64)>) -> Seq<u8>
    decreases entries.len(),
{
    if entries.len() == 0 {
        Seq::empty()
    } else {
        (uleb(entries[0].0) + uleb(entries[0].1 as nat)) + nonces_from(entries.drop_first())
    }
}

proof fn lemma_nonces_push(entries: Seq<(nat, u64)>, x: (nat, u64))
    ensures
        nonces_from(entries.push(x)) == nonces_from(entries) + (uleb(x.0) + uleb(x.1 as nat)),
    decreases entries.len(),
{
    let e = uleb(x.0) + uleb(x.1 as nat);
    if entries.len() == 0 {
        reveal_with_fuel(nonces_from, 2);
        assert(entries.push(x).drop_first() =~= Seq::empty());
        assert(nonces_from(entries.push(x)) =~= e);
        assert(nonces_from(entries) + e =~= e);
    } else {
        let rest = entries.drop_first();
        lemma_nonces_push(rest, x);
        assert(entries.push(x).drop_first() =~= rest.push(x));
        lemma_assoc(uleb(entries[0].0) + uleb(entries[0].1 as nat), nonces_from(rest), e);
    }
}

proof fn lemma_nonces_same(entries: Seq<(nat, u64)>)
    ensures
        nonce_bytes(entries) == nonces_from(entries),
    decreases entries.len(),
{
    if entries.len() > 0 {
        let t = entries.drop_last();
        lemma_nonces_same(t);
        lemma_nonces_push(t, entries.last());
        assert(t.push(entries.last()) =~= entries);
    }
}

/// The senders of a table of base nonces are places.
pub open spec fn nonce_shape(entries: Seq<(nat, u64)>) -> bool {
    forall|i: int|
        0 <= i < entries.len() ==> (#[trigger] entries[i]).0 <= usize::MAX && entries[i].0
            <= u64::MAX
}

proof fn lemma_nonces_table(entries: Seq<(nat, u64)>)
    requires
        nonce_shape(entries),
    ensures
        nonce_table(nonces_from(entries)) == Ok::<Seq<(nat, u64)>, PackError>(entries),
    decreases entries.len(),
{
    let s = nonces_from(entries);
    if entries.len() == 0 {
        assert(entries =~= Seq::empty());
    } else {
        let rest = entries.drop_first();
        assert(nonce_shape(rest)) by {
            assert forall|i: int| 0 <= i < rest.len() implies (#[trigger] rest[i]).0 <= usize::MAX
                && rest[i].0 <= u64::MAX by {
                assert(rest[i] == entries[i + 1]);
            }
        }
        lemma_nonces_table(rest);
        let (sender, base) = entries[0];
        assert(entries[0].0 <= usize::MAX && entries[0].0 <= u64::MAX);
        let tail = nonces_from(rest);
        lemma_assoc(uleb(sender), uleb(base as nat), tail);
        law_uleb(sender as u64, uleb(base as nat) + tail);
        law_uleb(base, tail);
        crate::cfxpack::codec::lemma_uleb_roundtrip(sender, Seq::empty());
        assert(tail.len() < s.len());
        assert(seq![(sender, base)] + rest =~= entries);
    }
}

proof fn lemma_nonce_table(entries: Seq<(nat, u64)>)
    requires
        nonce_shape(entries),
    ensures
        nonce_table(nonce_bytes(entries)) == Ok::<Seq<(nat, u64)>, PackError>(entries),
{
    lemma_nonces_same(entries);
    lemma_nonces_table(entries);
}

/// The tables of a packet have entries of the right lengths.
pub open spec fn tables_shape(p: PacketModel) -> bool {
    &&& p.prev_last_hash.len() == 32
    &&& p.prev_last_state_root.len() == 32
    &&& all_len(p.addresses, 20)
    &&& pos_shape(p.pos_entries)
    &&& all_len(p.difficulties, 32)
    &&& nonce_shape(p.base_nonces)
    &&& all_len(p.gas_prices, 32)
}

/// The bytes of an assembled packet.
#[verifier::opaque]
pub open spec fn packet_bytes(p: PacketModel, recs: Seq<Seq<u8>>, seg: Seq<u8>) -> Seq<u8> {
    let s = sections(p, recs);
    fixed_fields(p, prefix_size(recs)) + offset_bytes(offsets(s), 8) + (s.body + seg)
}

proof fn lemma_offset_bytes(offs: Seq<nat>, n: int, i: int)
    requires
        0 <= i < n,
        offs[i] <= u32::MAX,
    ensures
        offset_bytes(offs, n).len() == 4 * n,
        le_value(offset_bytes(offs, n).subrange(4 * i, 4 * i + 4)) == offs[i],
    decreases n,
{
    let s = offset_bytes(offs, n);
    let t = offset_bytes(offs, n - 1);
    let last = le_bytes(offs[n - 1], 4);
    lemma_le_bytes(offs[n - 1], 4);
    lemma_pow256();
    lemma_offset_bytes_len(offs, n - 1);
    if i == n - 1 {
        assert(s.subrange(4 * i, 4 * i + 4) =~= last);
    } else {
        lemma_offset_bytes(offs, n - 1, i);
        assert(s.subrange(4 * i, 4 * i + 4) =~= t.subrange(4 * i, 4 * i + 4));
    }
}

proof fn lemma_offset_bytes_len(offs: Seq<nat>, n: int)
    requires
        0 <= n,
    ensures
        offset_bytes(offs, n).len() == 4 * n,
    decreases n,
{
    if n > 0 {
        lemma_offset_bytes_len(offs, n - 1);
        lemma_le_bytes(offs[n - 1], 4);
    }
}

/// The fixed fields of the header of a packet that was written.
pub proof fn lemma_fixed_fields(p: PacketModel, recs: Seq<Seq<u8>>, seg: Seq<u8>)
    requires
        tables_shape(p),
    ensures
        ({
            let data = packet_bytes(p, recs, seg);
            &&& data.len() >= 125
            &&& data.skip(125) == sections(p, recs).body + seg
            &&& data.take(32) == p.prev_last_hash
            &&& data.subrange(32, 64) == p.prev_last_state_root
            &&& le_value(data.subrange(64, 72)) == p.first_block_number
            &&& le_value(data.subrange(72, 80)) == p.min_timestamp
            &&& le_value(data.subrange(80, 88)) == p.min_height
            &&& le_value(data.subrange(88, 92)) == p.min_pos_height as nat % 0x1_0000_0000
            &&& data[92] == prefix_size(recs)
            &&& valid_prefix_size(data[92] as int)
            &&& data.subrange(93, 125) == offset_bytes(offsets(sections(p, recs)), 8)
        }),
{
    reveal(packet_bytes);
    let data = packet_bytes(p, recs, seg);
    let n = prefix_size(recs);
    let f = fixed_fields(p, n);
    let o = offset_bytes(offsets(sections(p, recs)), 8);
    let rest = sections(p, recs).body + seg;
    lemma_offset_bytes_len(offsets(sections(p, recs)), 8);
    lemma_pow256();
    lemma_le_bytes(p.first_block_number as nat, 8);
    lemma_le_bytes(p.min_timestamp as nat, 8);
    lemma_le_bytes(p.min_height as nat, 8);
    lemma_le_bytes(p.min_pos_height as nat % 0x1_0000_0000, 4);
    assert(f.len() == 93);
    assert((f + o).len() == 125);
    lemma_skip_head(f + o, rest);
    assert forall|i: int| 0 <= i < 93 implies data[i] == f[i] by {}
    assert(data.take(32) =~= p.prev_last_hash);
    assert(data.subrange(32, 64) =~= p.prev_last_state_root);
    assert(data.subrange(64, 72) =~= le_bytes(p.first_block_number as nat, 8));
    assert(data.subrange(72, 80) =~= le_bytes(p.min_timestamp as nat, 8));
    assert(data.subrange(80, 88) =~= le_bytes(p.min_height as nat, 8));
    assert(data.subrange(88, 92) =~= le_bytes(p.min_pos_height as nat % 0x1_0000_0000, 4));
    assert(data[92] == n as u8);
    assert(data.subrange(93, 125) =~= o);
}

/// The offsets of a packet that was written.
pub proof fn lemma_offsets(p: PacketModel, recs: Seq<Seq<u8>>, seg: Seq<u8>, i: int)
    requires
        tables_shape(p),
        offsets(sections(p, recs))[7] <= u32::MAX,
        0 <= i < 8,
    ensures
        offset_of(packet_bytes(p, recs, seg), i) == offsets(sections(p, recs))[i],
{
    let data = packet_bytes(p, recs, seg);
    let s = sections(p, recs);
    let offs = offsets(s);
    lemma_fixed_fields(p, recs, seg);
    lemma_section_order(p, recs);
    assert(offs[i] <= offs[7]);
    lemma_offset_bytes(offs, 8, i);
    let o = offset_bytes(offs, 8);
    assert(data.subrange(93 + 4 * i, 97 + 4 * i) =~= o.subrange(4 * i, 4 * i + 4)) by {
        assert(data.subrange(93, 125)[4 * i] == data[93 + 4 * i]);
        assert(data.subrange(93, 125)[4 * i + 1] == data[94 + 4 * i]);
        assert(data.subrange(93, 125)[4 * i + 2] == data[95 + 4 * i]);
        assert(data.subrange(93, 125)[4 * i + 3] == data[96 + 4 * i]);
    }
}

/// Each section starts with the one before.
pub proof fn lemma_section_order(p: PacketModel, recs: Seq<Seq<u8>>)
    ensures
        ({
            let s = sections(p, recs);
            let n = prefix_size(recs);
            &&& s.addresses == join(p.addresses)
            &&& s.pos == s.addresses + pos_bytes(p.pos_entries)
            &&& s.difficulties == s.pos + join(p.difficulties)
            &&& s.nonces == s.difficulties + nonce_bytes(p.base_nonces)
            &&& exists|pad: nat|
                pad < 32 && s.prices == #[trigger] with_zeros(s.nonces + join(p.gas_prices), pad)
            &&& exists|pad: nat|
                pad < 32 && s.header == #[trigger] with_zeros(
                    s.prices + (le_bytes(recs.len(), 4) + bitmap(recs, n)),
                    pad,
                )
            &&& exists|pad: nat|
                pad < 64 && s.body == #[trigger] with_zeros(s.header + body_bytes(recs, n), pad)
            &&& s.addresses.len() <= s.pos.len() <= s.difficulties.len() <= s.nonces.len()
                <= s.prices.len() <= s.header.len() <= s.body.len()
        }),
{
    reveal(sections);
    let s = sections(p, recs);
    let n = prefix_size(recs);
    let a = s.nonces + join(p.gas_prices);
    let b = s.prices + (le_bytes(recs.len(), 4) + bitmap(recs, n));
    let c = s.header + body_bytes(recs, n);
    assert(s.prices == with_zeros(a, ((32 - (125 + a.len()) % 32) % 32) as nat));
    assert(s.header == with_zeros(b, ((32 - (125 + b.len()) % 32) % 32) as nat));
    assert(s.body == with_zeros(c, ((64 - (125 + c.len()) % 64) % 64) as nat));
}

/// `s` with `n` zero bytes behind it.
pub open spec fn with_zeros(s: Seq<u8>, n: nat) -> Seq<u8> {
    s + zeros(n)
}

/// The header of a packet that was written is in order.
pub proof fn lemma_header(p: PacketModel, recs: Seq<Seq<u8>>, seg: Seq<u8>)
    requires
        tables_shape(p),
        offsets(sections(p, recs))[7] <= u32::MAX,
    ensures
        header_fault(packet_bytes(p, recs, seg)) is None,
{
    let data = packet_bytes(p, recs, seg);
    let offs = offsets(sections(p, recs));
    lemma_fixed_fields(p, recs, seg);
    lemma_section_order(p, recs);
    assert(data.skip(125).len() == data.len() - 125);
    assert forall|i: int| 0 <= i < 8 implies #[trigger] offset_of(data, i) == offs[i] by {
        lemma_offsets(p, recs, seg, i);
    }
    lemma_no_offset_fault(data, offs, 0, 125);
}

proof fn lemma_no_offset_fault(data: Seq<u8>, offs: Seq<nat>, i: int, previous: int)
    requires
        offs.len() == 8,
        0 <= i <= 8,
        forall|k: int| 0 <= k < 8 ==> #[trigger] offset_of(data, k) == offs[k],
        forall|k: int, j: int|
            #![trigger offs[k], offs[j]]
            0 <= k <= j < 8 ==> offs[k] <= offs[j],
        offs[7] <= data.len(),
        i < 8 ==> previous <= offs[i],
    ensures
        offset_fault(data, i, previous) is None,
    decreases 8 - i,
{
    if i < 8 {
        assert(offset_of(data, i) == offs[i]);
        assert(offs[i] <= offs[7]);
        if i < 7 {
            assert(offs[i] <= offs[i + 1]);
        }
        lemma_no_offset_fault(data, offs, i + 1, offs[i] as int);
    }
}

/// A part of the bytes behind the header.
proof fn lemma_part(data: Seq<u8>, rest: Seq<u8>, a: int, b: int)
    requires
        data.len() >= 125,
        data.skip(125) == rest,
        0 <= a <= b <= rest.len(),
    ensures
        data.subrange(125 + a, 125 + b) == rest.subrange(a, b),
{
    assert(data.subrange(125 + a, 125 + b) =~= rest.subrange(a, b)) by {
        assert forall|i: int| a <= i < b implies data[125 + i] == rest[i] by {
            assert(data.skip(125)[i] == data[125 + i]);
        }
    }
}

/// The tables of a packet that was written are read back.
pub proof fn lemma_tables(p: PacketModel, recs: Seq<Seq<u8>>, seg: Seq<u8>)
    requires
        tables_shape(p),
        offsets(sections(p, recs))[7] <= u32::MAX,
    ensures
        tables_of(packet_bytes(p, recs, seg)) == Ok::<Tables, PackError>(
            Tables {
                addresses: p.addresses,
                pos_entries: p.pos_entries,
                difficulties: p.difficulties,
                base_nonces: p.base_nonces,
                gas_prices: p.gas_prices,
            },
        ),
{
    let data = packet_bytes(p, recs, seg);
    let s = sections(p, recs);
    let n = prefix_size(recs);
    let rest = s.body + seg;
    lemma_fixed_fields(p, recs, seg);
    lemma_section_order(p, recs);
    lemma_offsets(p, recs, seg, 0);
    lemma_offsets(p, recs, seg, 1);
    lemma_offsets(p, recs, seg, 2);
    lemma_offsets(p, recs, seg, 3);
    lemma_offsets(p, recs, seg, 4);
    lemma_offsets(p, recs, seg, 5);
    let pad1 = choose|pad: nat|
        pad < 32 && s.prices == #[trigger] with_zeros(s.nonces + join(p.gas_prices), pad);
    lemma_section_prefixes(p, recs);
    let (a, b, c, d, e) = (
        s.addresses.len() as int,
        s.pos.len() as int,
        s.difficulties.len() as int,
        s.nonces.len() as int,
        s.prices.len() as int,
    );
    lemma_part(data, rest, 0, a);
    lemma_part(data, rest, a, b);
    lemma_part(data, rest, b, c);
    lemma_part(data, rest, c, d);
    lemma_part(data, rest, d, e);
    assert(rest.subrange(0, a) =~= join(p.addresses)) by {
        assert(s.body.take(a) == s.addresses);
        assert(rest.subrange(0, a) =~= s.body.take(a));
    }
    assert(rest.subrange(a, b) =~= pos_bytes(p.pos_entries)) by {
        assert(s.body.take(b) == s.pos);
        assert(rest.subrange(a, b) =~= s.body.take(b).skip(a));
        lemma_skip_head(s.addresses, pos_bytes(p.pos_entries));
    }
    assert(rest.subrange(b, c) =~= join(p.difficulties)) by {
        assert(s.body.take(c) == s.difficulties);
        assert(rest.subrange(b, c) =~= s.body.take(c).skip(b));
        lemma_skip_head(s.pos, join(p.difficulties));
    }
    assert(rest.subrange(c, d) =~= nonce_bytes(p.base_nonces)) by {
        assert(s.body.take(d) == s.nonces);
        assert(rest.subrange(c, d) =~= s.body.take(d).skip(c));
        lemma_skip_head(s.difficulties, nonce_bytes(p.base_nonces));
    }
    assert(rest.subrange(d, e) =~= join(p.gas_prices) + zeros(pad1)) by {
        assert(s.body.take(e) == s.prices);
        assert(rest.subrange(d, e) =~= s.body.take(e).skip(d));
        lemma_assoc(s.nonces, join(p.gas_prices), zeros(pad1));
        lemma_skip_head(s.nonces, join(p.gas_prices) + zeros(pad1));
    }
    lemma_address_table(p.addresses);
    lemma_pos_table(p.pos_entries);
    lemma_word_table(p.difficulties, 0);
    assert(join(p.difficulties) + zeros(0) =~= join(p.difficulties));
    lemma_nonce_table(p.base_nonces);
    lemma_word_table(p.gas_prices, pad1);
}

/// The body section starts with each of the sections before it.
pub proof fn lemma_section_prefixes(p: PacketModel, recs: Seq<Seq<u8>>)
    ensures
        ({
            let s = sections(p, recs);
            &&& s.body.take(s.addresses.len() as int) == s.addresses
            &&& s.body.take(s.pos.len() as int) == s.pos
            &&& s.body.take(s.difficulties.len() as int) == s.difficulties
            &&& s.body.take(s.nonces.len() as int) == s.nonces
            &&& s.body.take(s.prices.len() as int) == s.prices
            &&& s.body.take(s.header.len() as int) == s.header
        }),
{
    let s = sections(p, recs);
    let n = prefix_size(recs);
    lemma_section_order(p, recs);
    let pad1 = choose|pad: nat|
        pad < 32 && s.prices == #[trigger] with_zeros(s.nonces + join(p.gas_prices), pad);
    let pad2 = choose|pad: nat|
        pad < 32 && s.header == #[trigger] with_zeros(
            s.prices + (le_bytes(recs.len(), 4) + bitmap(recs, n)),
            pad,
        );
    let pad3 = choose|pad: nat|
        pad < 64 && s.body == #[trigger] with_zeros(s.header + body_bytes(recs, n), pad);
    lemma_assoc(s.header, body_bytes(recs, n), zeros(pad3));
    lemma_skip_head(s.header, body_bytes(recs, n) + zeros(pad3));
    let block_header = le_bytes(recs.len(), 4) + bitmap(recs, n);
    lemma_assoc(s.prices, block_header, zeros(pad2));
    lemma_skip_head(s.prices, block_header + zeros(pad2));
    assert(s.body.take(s.prices.len() as int) =~= s.body.take(s.header.len() as int).take(
        s.prices.len() as int,
    ));
    lemma_assoc(s.nonces, join(p.gas_prices), zeros(pad1));
    lemma_skip_head(s.nonces, join(p.gas_prices) + zeros(pad1));
    assert(s.body.take(s.nonces.len() as int) =~= s.body.take(s.prices.len() as int).take(
        s.nonces.len() as int,
    ));
    lemma_skip_head(s.difficulties, nonce_bytes(p.base_nonces));
    assert(s.body.take(s.difficulties.len() as int) =~= s.body.take(s.nonces.len() as int).take(
        s.difficulties.len() as int,
    ));
    lemma_skip_head(s.pos, join(p.difficulties));
    assert(s.body.take(s.pos.len() as int) =~= s.body.take(s.difficulties.len() as int).take(
        s.pos.len() as int,
    ));
    lemma_skip_head(s.addresses, pos_bytes(p.pos_entries));
    assert(s.body.take(s.addresses.len() as int) =~= s.body.take(s.pos.len() as int).take(
        s.addresses.len() as int,
    ));
}

/// The block header of a packet that was written.
proof fn lemma_block_header(p: PacketModel, recs: Seq<Seq<u8>>, seg: Seq<u8>)
    requires
        tables_shape(p),
        offsets(sections(p, recs))[7] <= u32::MAX,
        recs.len() <= u32::MAX,
    ensures
        ({
            let data = packet_bytes(p, recs, seg);
            let map = bitmap(recs, prefix_size(recs));
            let header = 125 + sections(p, recs).prices.len() as int;
            &&& le_at(data, header, 4) == Ok::<nat, PackError>(recs.len())
            &&& header + 4 + map.len() <= data.len()
            &&& data.subrange(header + 4, header + 4 + map.len()) == map
        }),
{
    let data = packet_bytes(p, recs, seg);
    let s = sections(p, recs);
    let n = prefix_size(recs);
    let rest = s.body + seg;
    lemma_fixed_fields(p, recs, seg);
    lemma_section_order(p, recs);
    lemma_section_prefixes(p, recs);
    let low = le_bytes(recs.len(), 4);
    let map = bitmap(recs, n);
    let pad2 = choose|pad: nat|
        pad < 32 && s.header == #[trigger] with_zeros(s.prices + (low + map), pad);
    let a = s.prices.len() as int;
    let h = s.header.len() as int;
    lemma_pow256();
    lemma_le_bytes(recs.len(), 4);
    assert(data.skip(125).len() == data.len() - 125);
    lemma_assoc(s.prices, low + map, zeros(pad2));
    lemma_assoc(low, map, zeros(pad2));
    let t = s.body.take(h);
    assert(t == s.prices + (low + (map + zeros(pad2))));
    assert(rest.take(h) =~= t);
    assert(rest.subrange(a, a + 4) =~= low) by {
        assert(rest.subrange(a, a + 4) =~= t.skip(a).take(4));
        lemma_skip_head(s.prices, low + (map + zeros(pad2)));
        lemma_skip_head(low, map + zeros(pad2));
    }
    assert(rest.subrange(a + 4, a + 4 + map.len()) =~= map) by {
        lemma_skip_head(s.prices, low + (map + zeros(pad2)));
        lemma_skip_head(low, map + zeros(pad2));
        lemma_skip_head(map, zeros(pad2));
        assert(rest.subrange(a + 4, a + 4 + map.len()) =~= t.skip(a).skip(4).take(map.len() as int));
    }
    lemma_part(data, rest, a, a + 4);
    lemma_part(data, rest, a + 4, a + 4 + map.len());
}

/// What follows the block header of a packet that was written.
proof fn lemma_block_body(p: PacketModel, recs: Seq<Seq<u8>>, seg: Seq<u8>)
    requires
        tables_shape(p),
    ensures
        ({
            let data = packet_bytes(p, recs, seg);
            let s = sections(p, recs);
            let n = prefix_size(recs);
            let body = 125 + s.header.len() as int;
            let end = 125 + s.body.len() as int;
            &&& body <= end <= data.len()
            &&& exists|tail: Seq<u8>| #[trigger]
                (body_bytes(recs, n) + tail) == data.skip(body) && end >= data.len() - tail.len()
            &&& data.skip(end) == seg
        }),
{
    let data = packet_bytes(p, recs, seg);
    let s = sections(p, recs);
    let n = prefix_size(recs);
    let rest = s.body + seg;
    let area = body_bytes(recs, n);
    lemma_fixed_fields(p, recs, seg);
    lemma_section_order(p, recs);
    let pad3 = choose|pad: nat| pad < 64 && s.body == #[trigger] with_zeros(s.header + area, pad);
    let h = s.header.len() as int;
    assert(data.skip(125).len() == data.len() - 125);
    let tail = zeros(pad3) + seg;
    lemma_assoc(s.header, area, zeros(pad3));
    lemma_assoc(s.header, area + zeros(pad3), seg);
    lemma_assoc(area, zeros(pad3), seg);
    assert(rest == s.header + (area + tail));
    lemma_skip_head(s.header, area + tail);
    assert(data.skip(125 + h) =~= data.skip(125).skip(h));
    assert((area + tail) == data.skip(125 + h));
    lemma_skip_head(s.body, seg);
    assert(data.skip(125 + s.body.len() as int) =~= data.skip(125).skip(s.body.len() as int));
}

/// Where the block area of a packet that was written lies.
pub proof fn lemma_block_area(p: PacketModel, recs: Seq<Seq<u8>>, seg: Seq<u8>)
    requires
        tables_shape(p),
        offsets(sections(p, recs))[7] <= u32::MAX,
        recs.len() <= u32::MAX,
    ensures
        ({
            let data = packet_bytes(p, recs, seg);
            let n = prefix_size(recs);
            let header = offset_of(data, 5) as int;
            let body = offset_of(data, 6) as int;
            let end = offset_of(data, 7) as int;
            &&& le_at(data, header, 4) == Ok::<nat, PackError>(recs.len())
            &&& header + 4 + bitmap(recs, n).len() <= data.len()
            &&& data.subrange(header + 4, header + 4 + bitmap(recs, n).len()) == bitmap(recs, n)
            &&& body <= end <= data.len()
            &&& exists|tail: Seq<u8>| #[trigger]
                (body_bytes(recs, n) + tail) == data.skip(body) && end >= data.len() - tail.len()
            &&& data.skip(end) == seg
        }),
{
    lemma_offsets(p, recs, seg, 5);
    lemma_offsets(p, recs, seg, 6);
    lemma_offsets(p, recs, seg, 7);
    lemma_block_header(p, recs, seg);
    lemma_block_body(p, recs, seg);
}

} // verus!
