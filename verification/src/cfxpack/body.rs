//! The block area of a packet: a fixed-size prefix of every record, then what does
//! not fit.
use crate::bytes::{append_bytes, to_vec};
use crate::cfxpack::codec::{law_uleb, le_at, put_uleb128, read_u32_le, read_uleb, read_uleb128, uleb};
use crate::cfxpack::error::PackError;
use crate::cfxpack::record::{lemma_assoc, lemma_skip_head, peek_tx_offset_units, record_tx_offset};
use crate::cfxpack::rlp_form::byte_views;
use crate::cfxpack::types::zeros;
use vstd::prelude::*;

verus! {

/// How many records are no longer than `n`.
pub open spec fn fit_count(records: Seq<Seq<u8>>, n: nat) -> nat
    decreases records.len(),
{
    if records.len() == 0 {
        0
    } else {
        fit_count(records.drop_last(), n) + if records.last().len() <= n {
            1nat
        } else {
            0nat
        }
    }
}

/// The size of the record prefixes: the least of 64 and 72 that nine records in ten
/// fit, else the least of 80 and 88 that seven in ten fit, else 96.
pub open spec fn prefix_size(records: Seq<Seq<u8>>) -> nat {
    if 10 * fit_count(records, 64) >= 9 * records.len() {
        64
    } else if 10 * fit_count(records, 72) >= 9 * records.len() {
        72
    } else if 10 * fit_count(records, 80) >= 7 * records.len() {
        80
    } else if 10 * fit_count(records, 88) >= 7 * records.len() {
        88
    } else {
        96
    }
}

fn count_fitting(records: &Vec<Vec<u8>>, n: usize) -> (r: usize)
    ensures
        r == fit_count(byte_views(records@), n as nat),
        r <= records@.len(),
{
    let ghost all = byte_views(records@);
    let mut count: usize = 0;
    let mut i: usize = 0;
    proof {
        assert(all.take(0) =~= Seq::empty());
    }
    while i < records.len()
        invariant
            i <= records@.len(),
            all == byte_views(records@),
            count == fit_count(all.take(i as int), n as nat),
            count <= i,
        decreases records@.len() - i,
    {
        proof {
            assert(all.take(i + 1).drop_last() =~= all.take(i as int));
            assert(all.take(i + 1).last() == records@[i as int]@);
        }
        if records[i].len() <= n {
            count += 1;
        }
        i += 1;
    }
    proof {
        assert(all.take(i as int) =~= all);
    }
    count
}

/// The size of the record prefixes.
pub fn choose_prefix_size(records: &Vec<Vec<u8>>) -> (r: usize)
    ensures
        r == prefix_size(byte_views(records@)),
        r == 64 || r == 72 || r == 80 || r == 88 || r == 96,
{
    let total: u128 = records.len() as u128;
    let mut n: usize = 64;
    while n < 96
        invariant
            n == 64 || n == 72 || n == 80 || n == 88 || n == 96,
            total == records@.len(),
            total <= u64::MAX,
            n > 64 ==> 10 * fit_count(byte_views(records@), 64) < 9 * total,
            n > 72 ==> 10 * fit_count(byte_views(records@), 72) < 9 * total,
            n > 80 ==> 10 * fit_count(byte_views(records@), 80) < 7 * total,
            n > 88 ==> 10 * fit_count(byte_views(records@), 88) < 7 * total,
        decreases 96 - n,
    {
        let fit: u128 = count_fitting(records, n) as u128;
        let tenths: u128 = if n < 80 {
            9
        } else {
            7
        };
        if fit * 10 >= tenths * total {
            return n;
        }
        n += 8;
    }
    n
}

/// The record at `i` is longer than a prefix.
pub open spec fn over(records: Seq<Seq<u8>>, n: nat, i: int) -> bool {
    0 <= i < records.len() && records[i].len() > n
}

pub open spec fn bit(b: bool) -> int {
    if b {
        1
    } else {
        0
    }
}

/// Byte `j` of the bitmap of the records that are longer than a prefix.
pub open spec fn bitmap_byte(records: Seq<Seq<u8>>, n: nat, j: int) -> u8 {
    (bit(over(records, n, 8 * j)) + 2 * bit(over(records, n, 8 * j + 1)) + 4 * bit(
        over(records, n, 8 * j + 2),
    ) + 8 * bit(over(records, n, 8 * j + 3)) + 16 * bit(over(records, n, 8 * j + 4)) + 32 * bit(
        over(records, n, 8 * j + 5),
    ) + 64 * bit(over(records, n, 8 * j + 6)) + 128 * bit(over(records, n, 8 * j + 7))) as u8
}

/// The bitmap of the records that are longer than a prefix.
pub open spec fn bitmap(records: Seq<Seq<u8>>, n: nat) -> Seq<u8> {
    Seq::new((records.len() + 7) / 8, |j: int| bitmap_byte(records, n, j))
}

pub open spec fn pow2_of(k: int) -> int {
    if k == 0 {
        1
    } else if k == 1 {
        2
    } else if k == 2 {
        4
    } else if k == 3 {
        8
    } else if k == 4 {
        16
    } else if k == 5 {
        32
    } else if k == 6 {
        64
    } else {
        128
    }
}

/// Bit `k` of a byte.
pub open spec fn has_bit(b: u8, k: int) -> bool {
    (b as int / pow2_of(k)) % 2 == 1
}

proof fn lemma_bitmap_bit(records: Seq<Seq<u8>>, n: nat, i: int)
    requires
        0 <= i < records.len(),
    ensures
        i / 8 < bitmap(records, n).len(),
        has_bit(bitmap(records, n)[i / 8], i % 8) == (records[i].len() > n),
{
    let j = i / 8;
    let k = i % 8;
    assert(i == 8 * j + k);
}

/// The prefix of a record, filled up with zeros.
pub open spec fn prefix_part(r: Seq<u8>, n: nat) -> Seq<u8> {
    if r.len() >= n {
        r.take(n as int)
    } else {
        r + zeros((n - r.len()) as nat)
    }
}

/// The prefixes of the records from `i` on.
pub open spec fn fixed_from(records: Seq<Seq<u8>>, n: nat, i: int) -> Seq<u8>
    decreases records.len() - i,
{
    if i < 0 || i >= records.len() {
        Seq::empty()
    } else {
        prefix_part(records[i], n) + fixed_from(records, n, i + 1)
    }
}

/// What does not fit the prefix of a record, with its length.
pub open spec fn overflow_part(r: Seq<u8>, n: nat) -> Seq<u8> {
    if r.len() > n {
        uleb((r.len() - n) as nat) + r.skip(n as int)
    } else {
        Seq::empty()
    }
}

/// What does not fit the prefixes of the records from `i` on.
pub open spec fn overflow_from(records: Seq<Seq<u8>>, n: nat, i: int) -> Seq<u8>
    decreases records.len() - i,
{
    if i < 0 || i >= records.len() {
        Seq::empty()
    } else {
        overflow_part(records[i], n) + overflow_from(records, n, i + 1)
    }
}

/// The block area: the prefixes, then what does not fit them.
pub open spec fn body_bytes(records: Seq<Seq<u8>>, n: nat) -> Seq<u8> {
    fixed_from(records, n, 0) + overflow_from(records, n, 0)
}

fn record_over(records: &Vec<Vec<u8>>, n: usize, i: usize) -> (r: u8)
    ensures
        r == bit(over(byte_views(records@), n as nat, i as int)),
        r <= 1,
{
    if i < records.len() && records[i].len() > n {
        1
    } else {
        0
    }
}

/// The bitmap of the records that are longer than a prefix.
fn pack_bitmap(records: &Vec<Vec<u8>>, n: usize) -> (r: Vec<u8>)
    ensures
        r@ == bitmap(byte_views(records@), n as nat),
{
    let ghost all = byte_views(records@);
    let mut out: Vec<u8> = Vec::new();
    let bytes: usize = records.len() / 8 + if records.len() % 8 > 0 {
        1usize
    } else {
        0usize
    };
    let mut j: usize = 0;
    while j < bytes
        invariant
            all == byte_views(records@),
            bytes == (records@.len() + 7) / 8,
            j <= bytes,
            out@ == bitmap(all, n as nat).take(j as int),
        decreases bytes - j,
    {
        proof {
            assert(8 * j < records.len());
        }
        let at: usize = 8 * j;
        let mut b: u8 = record_over(records, n, at);
        if records.len() - at > 1 {
            b = b + 2 * record_over(records, n, at + 1);
        }
        if records.len() - at > 2 {
            b = b + 4 * record_over(records, n, at + 2);
        }
        if records.len() - at > 3 {
            b = b + 8 * record_over(records, n, at + 3);
        }
        if records.len() - at > 4 {
            b = b + 16 * record_over(records, n, at + 4);
        }
        if records.len() - at > 5 {
            b = b + 32 * record_over(records, n, at + 5);
        }
        if records.len() - at > 6 {
            b = b + 64 * record_over(records, n, at + 6);
        }
        if records.len() - at > 7 {
            b = b + 128 * record_over(records, n, at + 7);
        }
        proof {
            assert(b == bitmap_byte(all, n as nat, j as int));
            assert(bitmap(all, n as nat).take(j + 1) =~= bitmap(all, n as nat).take(j as int).push(
                b,
            ));
        }
        out.push(b);
        j += 1;
    }
    proof {
        assert(bitmap(all, n as nat).take(j as int) =~= bitmap(all, n as nat));
    }
    out
}

/// Lays the records out in the block area, with the bitmap of those that are
/// longer than a prefix.
pub fn pack_block_body(records: &Vec<Vec<u8>>, n: usize) -> (r: (Vec<u8>, Vec<u8>))
    ensures
        r.0@ == body_bytes(byte_views(records@), n as nat),
        r.1@ == bitmap(byte_views(records@), n as nat),
{
    let ghost all = byte_views(records@);
    let mut body: Vec<u8> = Vec::new();
    let mut overflow: Vec<u8> = Vec::new();
    let mut i: usize = 0;
    proof {
        assert(body@ + fixed_from(all, n as nat, 0) =~= fixed_from(all, n as nat, 0));
        assert(overflow@ + overflow_from(all, n as nat, 0) =~= overflow_from(all, n as nat, 0));
    }
    while i < records.len()
        invariant
            i <= records@.len(),
            all == byte_views(records@),
            body@ + fixed_from(all, n as nat, i as int) == fixed_from(all, n as nat, 0),
            overflow@ + overflow_from(all, n as nat, i as int) == overflow_from(all, n as nat, 0),
        decreases records@.len() - i,
    {
        let record: &Vec<u8> = &records[i];
        let ghost b0 = body@;
        let ghost o0 = overflow@;
        if record.len() >= n {
            append_bytes(&mut body, &record[0..n]);
        } else {
            let mut part: Vec<u8> = to_vec(record.as_slice());
            part.resize(n, 0);
            append_bytes(&mut body, part.as_slice());
            proof {
                assert(part@ =~= prefix_part(record@, n as nat)) by {
                    assert(part@.subrange(0, record@.len() as int) == record@);
                    assert forall|k: int| 0 <= k < record@.len() implies part@[k] == record@[k] by {
                        assert(part@.subrange(0, record@.len() as int)[k] == part@[k]);
                    }
                }
            }
        }
        proof {
            assert(record@.subrange(0, n as int) =~= record@.take(n as int));
            assert(body@ == b0 + prefix_part(record@, n as nat));
            lemma_assoc(b0, prefix_part(record@, n as nat), fixed_from(all, n as nat, i + 1));
        }
        if record.len() > n {
            put_uleb128(&mut overflow, (record.len() - n) as u64);
            append_bytes(&mut overflow, &record[n..record.len()]);
            proof {
                assert(overflow@ =~= o0 + overflow_part(record@, n as nat));
            }
        } else {
            proof {
                assert(overflow@ =~= o0 + overflow_part(record@, n as nat));
            }
        }
        proof {
            lemma_assoc(o0, overflow_part(record@, n as nat), overflow_from(all, n as nat, i + 1));
        }
        i += 1;
    }
    proof {
        assert(body@ + Seq::<u8>::empty() =~= body@);
        assert(overflow@ + Seq::<u8>::empty() =~= overflow@);
    }
    append_bytes(&mut body, overflow.as_slice());
    let map = pack_bitmap(records, n);
    (body, map)
}

/// A record as it is read: its bytes, and its place in the transaction segment.
pub struct RecordModel {
    pub bytes: Seq<u8>,
    pub offset: u64,
}

/// Where the block area of a packet lies.
pub struct BodyLayout {
    pub bitmap: int,
    pub body: int,
    pub end: int,
    pub size: int,
    pub count: int,
}

/// The records from `i` on, with the overflow of the first at `at`.
pub open spec fn records_from(data: Seq<u8>, l: BodyLayout, i: int, at: int) -> Result<
    Seq<RecordModel>,
    PackError,
>
    decreases l.count - i,
{
    if i < 0 || i >= l.count {
        Ok(Seq::empty())
    } else {
        let base = data.subrange(l.body + i * l.size, l.body + i * l.size + l.size);
        if has_bit(data[l.bitmap + i / 8], i % 8) {
            match read_uleb(data.skip(at)) {
                Err(e) => Err(e),
                Ok((len, rest)) => {
                    let start = data.len() - rest.len();
                    if start + len > l.end {
                        Err(PackError::OverflowArea)
                    } else {
                        record_then(
                            base + data.subrange(start, start + len),
                            records_from(data, l, i + 1, start + len),
                        )
                    }
                },
            }
        } else {
            record_then(base, records_from(data, l, i + 1, at))
        }
    }
}

/// A record followed by others.
pub open spec fn record_then(bytes: Seq<u8>, others: Result<Seq<RecordModel>, PackError>) -> Result<
    Seq<RecordModel>,
    PackError,
> {
    match record_tx_offset(bytes) {
        Err(e) => Err(e),
        Ok(offset) => match others {
            Err(e) => Err(e),
            Ok(rest) => Ok(seq![RecordModel { bytes, offset }] + rest),
        },
    }
}

/// The records of the block area between `body` and `end`, behind the block header
/// at `header`.
pub open spec fn decode_records(
    data: Seq<u8>,
    header: int,
    body: int,
    end: int,
    size: int,
) -> Result<Seq<RecordModel>, PackError> {
    match le_at(data, header, 4) {
        Err(e) => Err(e),
        Ok(count) => if header + 4 + (count + 7) / 8 > data.len() {
            Err(PackError::Truncated)
        } else if body + count * size > end {
            Err(PackError::BlockArea)
        } else {
            records_from(
                data,
                BodyLayout { bitmap: header + 4, body, end, size, count: count as int },
                0,
                body + count * size,
            )
        },
    }
}

/// A record as it is read.
pub struct DecodedRecord {
    pub bytes: Vec<u8>,
    pub tx_offset_units: u64,
}

impl View for DecodedRecord {
    type V = RecordModel;

    open spec fn view(&self) -> RecordModel {
        RecordModel { bytes: self.bytes@, offset: self.tx_offset_units }
    }
}

fn byte_bit(b: u8, k: usize) -> (r: bool)
    requires
        k < 8,
    ensures
        r == has_bit(b, k as int),
{
    let p: u8 = if k == 0 {
        1
    } else if k == 1 {
        2
    } else if k == 2 {
        4
    } else if k == 3 {
        8
    } else if k == 4 {
        16
    } else if k == 5 {
        32
    } else if k == 6 {
        64
    } else {
        128
    };
    (b / p) % 2 == 1
}

/// Records already read, in front of the outcome for those that follow.
spec fn prepend(done: Seq<RecordModel>, others: Result<Seq<RecordModel>, PackError>) -> Result<
    Seq<RecordModel>,
    PackError,
> {
    match others {
        Ok(rest) => Ok(done + rest),
        Err(e) => Err(e),
    }
}

/// Reads the records of the block area.
pub fn decode_block_records(
    data: &[u8],
    block_header_offset: usize,
    block_body_offset: usize,
    tx_segment_offset: usize,
    prefix_size: usize,
) -> (r: Result<Vec<DecodedRecord>, PackError>)
    requires
        45 <= prefix_size <= 255,
        block_header_offset <= data@.len(),
        block_body_offset <= tx_segment_offset <= data@.len(),
    ensures
        ({
            let want = decode_records(
                data@,
                block_header_offset as int,
                block_body_offset as int,
                tx_segment_offset as int,
                prefix_size as int,
            );
            match r {
                Ok(records) => want == Ok::<Seq<RecordModel>, PackError>(
                    crate::cfxpack::packet::views(records@),
                ),
                Err(e) => want == Err::<Seq<RecordModel>, PackError>(e),
            }
        }),
{
    let block_count: u32 = match read_u32_le(data, block_header_offset) {
        Ok(v) => v,
        Err(e) => {
            return Err(e);
        },
    };
    let bitmap_len: u64 = (block_count as u64 + 7) / 8;
    proof {
        assert(block_header_offset + 4 <= data.len());
        assert(block_count as u64 * prefix_size as u64 <= 0xffff_ffff * 255) by (nonlinear_arith)
            requires
                block_count <= 0xffff_ffff,
                prefix_size <= 255,
        ;
    }
    let bitmap_offset: usize = block_header_offset + 4;
    if bitmap_len > (data.len() - bitmap_offset) as u64 {
        return Err(PackError::Truncated);
    }
    let prefix_total: u64 = block_count as u64 * prefix_size as u64;
    if prefix_total > (tx_segment_offset - block_body_offset) as u64 {
        return Err(PackError::BlockArea);
    }
    let count: usize = block_count as usize;
    let ghost l = BodyLayout {
        bitmap: bitmap_offset as int,
        body: block_body_offset as int,
        end: tx_segment_offset as int,
        size: prefix_size as int,
        count: count as int,
    };
    let mut overflow_offset: usize = block_body_offset + prefix_total as usize;
    let mut out: Vec<DecodedRecord> = Vec::new();
    let mut index: usize = 0;
    let mut at: usize = block_body_offset;
    let ghost want = decode_records(
        data@,
        block_header_offset as int,
        block_body_offset as int,
        tx_segment_offset as int,
        prefix_size as int,
    );
    proof {
        assert(crate::cfxpack::packet::views(out@) =~= Seq::empty());
        match records_from(data@, l, 0, overflow_offset as int) {
            Ok(rest) => {
                assert(Seq::<RecordModel>::empty() + rest =~= rest);
            },
            Err(_) => {},
        }
    }
    while index < count
        invariant
            index <= count,
            45 <= prefix_size <= 255,
            l.bitmap == bitmap_offset,
            l.body == block_body_offset,
            l.end == tx_segment_offset,
            l.size == prefix_size,
            l.count == count,
            block_body_offset + count * prefix_size <= tx_segment_offset <= data@.len(),
            bitmap_offset + (count + 7) / 8 <= data@.len(),
            at == block_body_offset + index * prefix_size,
            overflow_offset <= data@.len(),
            want == decode_records(
                data@,
                block_header_offset as int,
                block_body_offset as int,
                tx_segment_offset as int,
                prefix_size as int,
            ),
            want == prepend(
                crate::cfxpack::packet::views(out@),
                records_from(data@, l, index as int, overflow_offset as int),
            ),
        decreases count - index,
    {
        proof {
            assert((index + 1) * prefix_size == index * prefix_size + prefix_size)
                by (nonlinear_arith);
            assert((index + 1) * prefix_size <= count * prefix_size) by (nonlinear_arith)
                requires
                    index + 1 <= count,
            ;
        }
        let mut bytes: Vec<u8> = to_vec(&data[at..at + prefix_size]);
        let ghost base = bytes@;
        let ghost done = crate::cfxpack::packet::views(out@);
        let ghost start = overflow_offset as int;
        proof {
            assert(index as int * l.size == index * prefix_size);
            assert(base == data@.subrange(
                l.body + index as int * l.size,
                l.body + index as int * l.size + l.size,
            ));
        }
        proof {
            assert(bitmap_offset + index / 8 < data.len());
        }
        if byte_bit(data[bitmap_offset + index / 8], index % 8) {
            let len: u64 = match read_uleb128(data, &mut overflow_offset) {
                Ok(v) => v,
                Err(e) => {
                    return Err(e);
                },
            };
            proof {
                assert(data@.skip(overflow_offset as int).len() == data@.len() - overflow_offset);
            }
            if overflow_offset > tx_segment_offset || len > (tx_segment_offset
                - overflow_offset) as u64 {
                return Err(PackError::OverflowArea);
            }
            append_bytes(&mut bytes, &data[overflow_offset..overflow_offset + len as usize]);
            overflow_offset = overflow_offset + len as usize;
        }
        proof {
            assert(records_from(data@, l, index as int, start) == record_then(
                bytes@,
                records_from(data@, l, index + 1, overflow_offset as int),
            ));
        }
        let tx_offset_units: u64 = match peek_tx_offset_units(bytes.as_slice()) {
            Ok(v) => v,
            Err(e) => {
                return Err(e);
            },
        };
        let ghost this = RecordModel { bytes: bytes@, offset: tx_offset_units };
        out.push(DecodedRecord { bytes, tx_offset_units });
        proof {
            assert(crate::cfxpack::packet::views(out@) =~= done.push(this));
            let others = records_from(data@, l, index + 1, overflow_offset as int);
            match others {
                Ok(rest) => {
                    assert(done + (seq![this] + rest) =~= done.push(this) + rest);
                },
                Err(_) => {},
            }
        }
        at = at + prefix_size;
        index += 1;
    }
    proof {
        assert(crate::cfxpack::packet::views(out@) + Seq::<RecordModel>::empty()
            =~= crate::cfxpack::packet::views(out@));
    }
    Ok(out)
}

/// A record as it is read back: filled up with zeros to a whole prefix.
pub open spec fn padded(r: Seq<u8>, n: nat) -> Seq<u8> {
    if r.len() > n {
        r
    } else {
        r + zeros((n - r.len()) as nat)
    }
}

pub proof fn lemma_fixed(records: Seq<Seq<u8>>, n: nat, j: int, i: int)
    requires
        0 <= j <= i < records.len(),
    ensures
        fixed_from(records, n, j).len() == (records.len() - j) * n,
        fixed_from(records, n, j).subrange((i - j) * n, (i - j) * n + n) == prefix_part(
            records[i],
            n,
        ),
    decreases records.len() - j,
{
    let part = prefix_part(records[j], n);
    let rest = fixed_from(records, n, j + 1);
    assert(part.len() == n);
    if j + 1 < records.len() {
        lemma_fixed(
            records,
            n,
            j + 1,
            if i > j {
                i
            } else {
                j + 1
            },
        );
    }
    assert((records.len() - j) * n == (records.len() - j - 1) * n + n) by (nonlinear_arith);
    assert(rest.len() == (records.len() - j - 1) * n) by {
        if j + 1 >= records.len() {
            assert((records.len() - j - 1) * n == 0) by (nonlinear_arith)
                requires
                    records.len() - j - 1 == 0,
            ;
        }
    }
    let all = part + rest;
    if i == j {
        assert((i - j) * n == 0) by (nonlinear_arith)
            requires
                i == j,
        ;
        assert(all.subrange(0, n as int) =~= part);
    } else {
        let o = (i - j - 1) * n;
        assert((i - j) * n == o + n) by (nonlinear_arith)
            requires
                o == (i - j - 1) * n,
        ;
        assert(0 <= o && o + n <= rest.len()) by (nonlinear_arith)
            requires
                o == (i - j - 1) * n,
                rest.len() == (records.len() - j - 1) * n,
                0 <= i - j - 1,
                i < records.len(),
        ;
        assert(all.subrange(o + n, o + n + n) =~= rest.subrange(o, o + n));
    }
}

pub proof fn lemma_fixed_len(records: Seq<Seq<u8>>, n: nat)
    ensures
        fixed_from(records, n, 0).len() == records.len() * n,
{
    if records.len() > 0 {
        lemma_fixed(records, n, 0, 0);
    } else {
        assert(records.len() * n == 0) by (nonlinear_arith)
            requires
                records.len() == 0,
        ;
    }
}

/// Records that were laid out, each with its place in the transaction segment.
pub open spec fn laid_out(records: Seq<Seq<u8>>, offsets: Seq<u64>, n: nat, i: int) -> Seq<
    RecordModel,
>
    decreases records.len() - i,
{
    if i < 0 || i >= records.len() {
        Seq::empty()
    } else {
        seq![RecordModel { bytes: padded(records[i], n), offset: offsets[i] }] + laid_out(
            records,
            offsets,
            n,
            i + 1,
        )
    }
}

pub proof fn lemma_laid_out(records: Seq<Seq<u8>>, offsets: Seq<u64>, n: nat, i: int)
    requires
        0 <= i <= records.len(),
    ensures
        laid_out(records, offsets, n, i) == Seq::new(
            (records.len() - i) as nat,
            |k: int| RecordModel { bytes: padded(records[i + k], n), offset: offsets[i + k] },
        ),
    decreases records.len() - i,
{
    if i < records.len() {
        lemma_laid_out(records, offsets, n, i + 1);
    }
    assert(laid_out(records, offsets, n, i) =~= Seq::new(
        (records.len() - i) as nat,
        |k: int| RecordModel { bytes: padded(records[i + k], n), offset: offsets[i + k] },
    ));
}

proof fn lemma_records_from(
    data: Seq<u8>,
    l: BodyLayout,
    records: Seq<Seq<u8>>,
    offsets: Seq<u64>,
    n: nat,
    tail: Seq<u8>,
    i: int,
    at: int,
)
    requires
        l.count == records.len(),
        l.size == n,
        offsets.len() == records.len(),
        forall|k: int|
            0 <= k < records.len() ==> record_tx_offset(padded(#[trigger] records[k], n)) == Ok::<
                u64,
                PackError,
            >(offsets[k]) && records[k].len() <= u64::MAX,
        0 <= l.bitmap,
        l.bitmap + bitmap(records, n).len() <= data.len(),
        data.subrange(l.bitmap, l.bitmap + bitmap(records, n).len()) == bitmap(records, n),
        0 <= l.body <= data.len(),
        data.skip(l.body) == fixed_from(records, n, 0) + (overflow_from(records, n, 0) + tail),
        l.end >= data.len() - tail.len(),
        0 <= i <= records.len(),
        0 <= at <= data.len(),
        data.skip(at) == overflow_from(records, n, i) + tail,
    ensures
        records_from(data, l, i, at) == Ok::<Seq<RecordModel>, PackError>(
            laid_out(records, offsets, n, i),
        ),
    decreases records.len() - i,
{
    if i < records.len() {
        let r = records[i];
        let map = bitmap(records, n);
        lemma_bitmap_bit(records, n, i);
        assert(data[l.bitmap + i / 8] == map[i / 8]) by {
            assert(data.subrange(l.bitmap, l.bitmap + map.len())[i / 8] == data[l.bitmap + i / 8]);
        }
        lemma_fixed(records, n, 0, i);
        lemma_fixed_len(records, n);
        let fixed = fixed_from(records, n, 0);
        let base = data.subrange(l.body + i * l.size, l.body + i * l.size + l.size);
        assert(0 <= i * n && i * n + n <= fixed.len()) by (nonlinear_arith)
            requires
                0 <= i,
                i < records.len(),
                fixed.len() == records.len() * n,
        ;
        assert(i * l.size == i * n);
        assert(data.skip(l.body).len() == data.len() - l.body);
        assert(base =~= prefix_part(r, n)) by {
            let s = data.skip(l.body);
            assert(fixed.subrange(i * n, i * n + n) == prefix_part(r, n));
            assert forall|k: int| 0 <= k < n implies base[k] == prefix_part(r, n)[k] by {
                assert(base[k] == s[i * n + k]);
                assert(s[i * n + k] == fixed[i * n + k]);
                assert(fixed.subrange(i * n, i * n + n)[k] == fixed[i * n + k]);
            }
        }
        if r.len() > n {
            let len = (r.len() - n) as u64;
            let rest = r.skip(n as int) + (overflow_from(records, n, i + 1) + tail);
            let over_rest = overflow_from(records, n, i + 1);
            assert(data.skip(at) == uleb(len as nat) + rest) by {
                lemma_assoc(uleb(len as nat) + r.skip(n as int), over_rest, tail);
                lemma_assoc(uleb(len as nat), r.skip(n as int), over_rest + tail);
            }
            law_uleb(len, rest);
            let start = data.len() - rest.len();
            assert(data.skip(at).len() == data.len() - at);
            let next = start + len;
            assert(data.skip(start) =~= rest) by {
                assert(start == at + uleb(len as nat).len());
                lemma_skip_head(uleb(len as nat), rest);
                assert(data.skip(start) =~= data.skip(at).skip(uleb(len as nat).len() as int));
            }
            assert(data.subrange(start, next) =~= r.skip(n as int)) by {
                assert forall|k: int| 0 <= k < len implies data[start + k] == r.skip(n as int)[k] by {
                    assert(data.skip(start)[k] == rest[k]);
                }
            }
            assert(data.skip(next) =~= over_rest + tail) by {
                lemma_skip_head(r.skip(n as int), over_rest + tail);
                assert(data.skip(next) =~= data.skip(start).skip(len as int));
            }
            assert(next <= l.end) by {
                assert(rest.len() == len + over_rest.len() + tail.len());
            }
            assert(base + data.subrange(start, next) =~= r);
            lemma_records_from(data, l, records, offsets, n, tail, i + 1, next);
        } else {
            assert(overflow_from(records, n, i) =~= overflow_from(records, n, i + 1));
            assert(base =~= padded(r, n));
            lemma_records_from(data, l, records, offsets, n, tail, i + 1, at);
        }
        assert(record_tx_offset(padded(records[i], n)) == Ok::<u64, PackError>(offsets[i]));
    }
}

/// Records that were laid out in a block area are read back, each filled up with
/// zeros to a whole prefix.
pub proof fn law_block_area(
    data: Seq<u8>,
    header: int,
    body: int,
    end: int,
    records: Seq<Seq<u8>>,
    offsets: Seq<u64>,
    n: nat,
    tail: Seq<u8>,
)
    requires
        end >= data.len() - tail.len(),
        offsets.len() == records.len(),
        forall|k: int|
            0 <= k < records.len() ==> record_tx_offset(padded(#[trigger] records[k], n)) == Ok::<
                u64,
                PackError,
            >(offsets[k]) && records[k].len() <= u64::MAX,
        0 <= header,
        le_at(data, header, 4) == Ok::<nat, PackError>(records.len()),
        header + 4 + bitmap(records, n).len() <= data.len(),
        data.subrange(header + 4, header + 4 + bitmap(records, n).len()) == bitmap(records, n),
        0 <= body,
        data.skip(body) == body_bytes(records, n) + tail,
        body <= data.len(),
    ensures
        decode_records(data, header, body, end, n as int) == Ok::<
            Seq<RecordModel>,
            PackError,
        >(laid_out(records, offsets, n, 0)),
{
    let fixed = fixed_from(records, n, 0);
    let over_all = overflow_from(records, n, 0);
    lemma_fixed_len(records, n);
    lemma_assoc(fixed, over_all, tail);
    let l = BodyLayout {
        bitmap: header + 4,
        body,
        end,
        size: n as int,
        count: records.len() as int,
    };
    let at = body + records.len() * n;
    assert(data.skip(body).len() == data.len() - body);
    assert(data.skip(at) =~= over_all + tail) by {
        lemma_skip_head(fixed, over_all + tail);
        assert(data.skip(at) =~= data.skip(body).skip(fixed.len() as int));
    }
    lemma_records_from(data, l, records, offsets, n, tail, 0, at);
}

} // verus!
