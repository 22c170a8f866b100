//! Block records: the header fields of one block.
use crate::bytes::{append_bytes, to_vec};
use crate::cfxpack::codec::{enumerated_in, known_base_prices, known_gas_limits, law_qc5e, law_qc8, law_uleb, put_qc5e, put_qc8, put_uleb128, qc5e, qc5e_base_price_enum, qc5e_gas_limit_enum, qc5e_word, qc8, read_qc5e, read_qc5e_spec, read_qc8, read_qc8_spec, read_uleb, read_uleb128, uleb};
use crate::cfxpack::error::PackError;
use crate::cfxpack::packet::{views, Block, BlockModel, Packet, PacketModel};
use crate::cfxpack::table::{address_at, last_index, lemma_last_index, table_at, word_at, TableIndex};
use crate::cfxpack::types::{zeros, Address, U256};
use crate::types::H256;
use vstd::prelude::*;

verus! {

/// Length of the fields of a record that have a fixed length.
pub const RECORD_FIXED_LEN: usize = 45;

/// The fields of a record that have no fixed length, one after another.
pub open spec fn record_tail(
    author: nat,
    timestamp: nat,
    difficulty: nat,
    gas_limit: Seq<u8>,
    price_core: Seq<u8>,
    price_espace: Seq<u8>,
    height: nat,
    blame: nat,
    finalized: nat,
    offset: nat,
    reward: Seq<u8>,
    view: Seq<u8>,
) -> Seq<u8> {
    uleb(author) + (uleb(timestamp) + (uleb(difficulty) + (gas_limit + (price_core + (price_espace
        + (uleb(height) + (uleb(blame) + (uleb(finalized) + (uleb(offset) + (reward
        + view))))))))))
}

/// The fields of a record that have a fixed length.
pub open spec fn record_head(b: BlockModel, flags: u8) -> Seq<u8> {
    b.hash + b.state_root.take(4) + b.receipts_root.take(4) + b.logs_bloom.take(4) + seq![flags]
}

/// The PoS view as it is written: nothing where there is none.
pub open spec fn view_bytes(view: Option<u64>) -> Seq<u8> {
    match view {
        Some(v) => uleb(v as nat),
        None => Seq::empty(),
    }
}

/// The gas limit of a block as it is written.
pub open spec fn gas_limit_bytes(b: BlockModel) -> Result<Seq<u8>, PackError> {
    qc5e(b.gas_limit, enumerated_in(b.gas_limit, known_gas_limits()))
}

/// A base price of a block as it is written.
pub open spec fn base_price_bytes(price: Seq<u8>, espace: bool) -> Result<Seq<u8>, PackError> {
    qc5e(price, enumerated_in(price, known_base_prices(espace)))
}

/// Why the record of a block cannot be written, if it cannot.
pub open spec fn record_fault(p: PacketModel, b: BlockModel) -> Option<PackError> {
    if last_index(p.addresses, b.author) is None {
        Some(PackError::MissingAuthor)
    } else if b.timestamp < p.min_timestamp {
        Some(PackError::TimestampBelowMin)
    } else if last_index(p.difficulties, b.difficulty) is None {
        Some(PackError::MissingDifficulty)
    } else if gas_limit_bytes(b) is Err {
        Some(PackError::ValueTooLarge)
    } else if base_price_bytes(b.base_price_core, false) is Err {
        Some(PackError::ValueTooLarge)
    } else if base_price_bytes(b.base_price_espace, true) is Err {
        Some(PackError::ValueTooLarge)
    } else if b.height < p.min_height {
        Some(PackError::HeightBelowMin)
    } else if qc8(b.base_reward) is Err {
        Some(PackError::ValueTooLarge)
    } else {
        None
    }
}

/// The record of a block that can be written.
pub open spec fn record_bytes(p: PacketModel, b: BlockModel, flags: u8, offset: nat) -> Seq<u8> {
    record_head(b, flags) + record_tail(
        last_index(p.addresses, b.author)->0,
        (b.timestamp - p.min_timestamp) as nat,
        last_index(p.difficulties, b.difficulty)->0,
        gas_limit_bytes(b)->Ok_0,
        base_price_bytes(b.base_price_core, false)->Ok_0,
        base_price_bytes(b.base_price_espace, true)->Ok_0,
        (b.height - p.min_height) as nat,
        b.blame as nat,
        b.finalized_epoch as nat,
        offset,
        qc8(b.base_reward)->Ok_0,
        view_bytes(b.pos_view),
    )
}

/// The record of a block, or why it cannot be written.
#[verifier::opaque]
pub open spec fn encode_record(p: PacketModel, b: BlockModel, flags: u8, offset: nat) -> Result<
    Seq<u8>,
    PackError,
> {
    match record_fault(p, b) {
        Some(e) => Err(e),
        None => Ok(record_bytes(p, b, flags, offset)),
    }
}

pub proof fn lemma_assoc(a: Seq<u8>, b: Seq<u8>, c: Seq<u8>)
    ensures
        (a + b) + c == a + (b + c),
{
    assert((a + b) + c =~= a + (b + c));
}

/// Writes the record of a block.
pub fn encode_block_record(
    block: &Block,
    flags: u8,
    tx_segment_offset: u64,
    input: &Packet,
    address_index: &TableIndex,
    difficulty_index: &TableIndex,
) -> (r: Result<Vec<u8>, PackError>)
    requires
        address_index.is_of(input@.addresses),
        difficulty_index.is_of(input@.difficulties),
    ensures
        match r {
            Ok(bytes) => encode_record(input@, block@, flags, tx_segment_offset as nat) == Ok::<
                Seq<u8>,
                PackError,
            >(bytes@),
            Err(e) => encode_record(input@, block@, flags, tx_segment_offset as nat) == Err::<
                Seq<u8>,
                PackError,
            >(e),
        },
{
    proof {
        reveal(qc5e);
        reveal(qc8);
        reveal(encode_record);
    }
    let mut out: Vec<u8> = to_vec(&block.hash.0);
    append_bytes(&mut out, &block.deferred_state_root.0[0..4]);
    append_bytes(&mut out, &block.deferred_receipts_root.0[0..4]);
    append_bytes(&mut out, &block.deferred_logs_bloom_hash.0[0..4]);
    out.push(flags);
    let ghost b = block@;
    let ghost p = input@;
    let ghost author_bytes = uleb(last_index(p.addresses, b.author)->0);
    let ghost timestamp_bytes = uleb((b.timestamp - p.min_timestamp) as nat);
    let ghost difficulty_bytes = uleb(last_index(p.difficulties, b.difficulty)->0);
    let ghost gas_bytes = gas_limit_bytes(b)->Ok_0;
    let ghost core_bytes = base_price_bytes(b.base_price_core, false)->Ok_0;
    let ghost espace_bytes = base_price_bytes(b.base_price_espace, true)->Ok_0;
    let ghost height_bytes = uleb((b.height - p.min_height) as nat);
    let ghost r11 = qc8(b.base_reward)->Ok_0 + view_bytes(b.pos_view);
    let ghost r10 = uleb(tx_segment_offset as nat) + r11;
    let ghost r9 = uleb(b.finalized_epoch as nat) + r10;
    let ghost r8 = uleb(b.blame as nat) + r9;
    let ghost r7 = height_bytes + r8;
    let ghost r6 = espace_bytes + r7;
    let ghost r5 = core_bytes + r6;
    let ghost r4 = gas_bytes + r5;
    let ghost r3 = difficulty_bytes + r4;
    let ghost r2 = timestamp_bytes + r3;
    let ghost r1 = author_bytes + r2;
    let ghost target = record_bytes(p, b, flags, tx_segment_offset as nat);
    proof {
        assert(out@ =~= record_head(b, flags));
        assert(out@ + r1 == target);
        lemma_assoc(out@, author_bytes, r2);
    }
    let author: usize = match address_index.get(Ghost(input@.addresses), &block.author.0) {
        Some(i) => i,
        None => {
            return Err(PackError::MissingAuthor);
        },
    };
    put_uleb128(&mut out, author as u64);
    proof {
        lemma_assoc(out@, timestamp_bytes, r3);
    }
    if block.timestamp < input.min_timestamp {
        return Err(PackError::TimestampBelowMin);
    }
    put_uleb128(&mut out, block.timestamp - input.min_timestamp);
    proof {
        assert(out@ + r3 == target);
        lemma_assoc(out@, difficulty_bytes, r4);
    }
    let difficulty: usize = match difficulty_index.get(
        Ghost(input@.difficulties),
        &block.difficulty.0,
    ) {
        Some(i) => i,
        None => {
            return Err(PackError::MissingDifficulty);
        },
    };
    put_uleb128(&mut out, difficulty as u64);
    proof {
        assert(out@ + r4 == target);
        lemma_assoc(out@, gas_bytes, r5);
    }
    match put_qc5e(&mut out, &block.gas_limit, qc5e_gas_limit_enum(&block.gas_limit)) {
        Ok(_) => {},
        Err(e) => {
            return Err(e);
        },
    }
    proof {
        assert(out@ + r5 == target);
        lemma_assoc(out@, core_bytes, r6);
    }
    match put_qc5e(
        &mut out,
        &block.base_price_core,
        qc5e_base_price_enum(&block.base_price_core, false),
    ) {
        Ok(_) => {},
        Err(e) => {
            return Err(e);
        },
    }
    proof {
        assert(out@ + r6 == target);
        lemma_assoc(out@, espace_bytes, r7);
    }
    match put_qc5e(
        &mut out,
        &block.base_price_espace,
        qc5e_base_price_enum(&block.base_price_espace, true),
    ) {
        Ok(_) => {},
        Err(e) => {
            return Err(e);
        },
    }
    proof {
        assert(out@ + r7 == target);
        lemma_assoc(out@, height_bytes, r8);
    }
    if block.height < input.min_height {
        return Err(PackError::HeightBelowMin);
    }
    put_uleb128(&mut out, block.height - input.min_height);
    proof {
        assert(out@ + r8 == target);
        lemma_assoc(out@, uleb(b.blame as nat), r9);
    }
    put_uleb128(&mut out, block.blame);
    proof {
        assert(out@ + r9 == target);
        lemma_assoc(out@, uleb(b.finalized_epoch as nat), r10);
    }
    put_uleb128(&mut out, block.finalized_epoch);
    proof {
        assert(out@ + r10 == target);
        lemma_assoc(out@, uleb(tx_segment_offset as nat), r11);
    }
    put_uleb128(&mut out, tx_segment_offset);
    proof {
        assert(out@ + r11 == target);
        lemma_assoc(out@, qc8(b.base_reward)->Ok_0, view_bytes(b.pos_view));
    }
    match put_qc8(&mut out, &block.base_reward) {
        Ok(_) => {},
        Err(e) => {
            return Err(e);
        },
    }
    match block.pos_view {
        Some(v) => put_uleb128(&mut out, v),
        None => {},
    }
    proof {
        assert(out@ =~= target);
    }
    Ok(out)
}

/// A table entry whose place is read.
#[verifier::opaque]
pub open spec fn read_entry(s: Seq<u8>, table: Seq<Seq<u8>>) -> Result<
    (Seq<u8>, Seq<u8>),
    PackError,
> {
    match read_uleb(s) {
        Err(e) => Err(e),
        Ok((i, rest)) => match table_at(table, i as nat) {
            Err(e) => Err(e),
            Ok(v) => Ok((v, rest)),
        },
    }
}

/// A number that is read as its distance from `base`.
#[verifier::opaque]
pub open spec fn read_above(s: Seq<u8>, base: u64) -> Result<(u64, Seq<u8>), PackError> {
    match read_uleb(s) {
        Err(e) => Err(e),
        Ok((d, rest)) => if base + d <= u64::MAX {
            Ok(((base + d) as u64, rest))
        } else {
            Err(PackError::FieldOverflow)
        },
    }
}

/// A word that is read in QC5E form, in a field that enumerates `known`.
#[verifier::opaque]
pub open spec fn read_known(s: Seq<u8>, known: Seq<u64>) -> Result<(Seq<u8>, Seq<u8>), PackError> {
    match read_qc5e_spec(s) {
        Err(e) => Err(e),
        Ok((q, rest)) => match qc5e_word(q, known) {
            Err(e) => Err(e),
            Ok(w) => Ok((w, rest)),
        },
    }
}

/// The PoS view, which blocks from the height `pos_from` on have.
pub open spec fn read_view(s: Seq<u8>, height: u64, pos_from: Option<u64>) -> Result<
    Option<u64>,
    PackError,
> {
    if pos_from matches Some(h) && height >= h {
        match read_uleb(s) {
            Err(e) => Err(e),
            Ok((v, _)) => Ok(Some(v)),
        }
    } else {
        Ok(None)
    }
}

/// A hash of which only the first four bytes are kept.
pub open spec fn hash_prefix(h: Seq<u8>) -> Seq<u8> {
    h.take(4) + zeros(28)
}

/// What the records of a packet are read against.
pub struct RecordContext {
    pub min_timestamp: u64,
    pub min_height: u64,
    pub addresses: Seq<Seq<u8>>,
    pub difficulties: Seq<Seq<u8>>,
    pub pos_from: Option<u64>,
}

/// The block of a record, without its epoch and its transactions.
pub open spec fn decode_record(record: Seq<u8>, index: nat, c: RecordContext) -> Result<
    BlockModel,
    PackError,
> {
    if record.len() < 45 {
        Err(PackError::ShortRecord)
    } else {
        match read_entry(record.skip(45), c.addresses) {
            Err(e) => Err(e),
            Ok((author, s1)) => match read_above(s1, c.min_timestamp) {
                Err(e) => Err(e),
                Ok((timestamp, s2)) => match read_entry(s2, c.difficulties) {
                    Err(e) => Err(e),
                    Ok((difficulty, s3)) => match read_known(s3, known_gas_limits()) {
                        Err(e) => Err(e),
                        Ok((gas_limit, s4)) => match read_known(s4, known_base_prices(false)) {
                            Err(e) => Err(e),
                            Ok((base_price_core, s5)) => match read_known(
                                s5,
                                known_base_prices(true),
                            ) {
                                Err(e) => Err(e),
                                Ok((base_price_espace, s6)) => match read_above(
                                    s6,
                                    c.min_height,
                                ) {
                                    Err(e) => Err(e),
                                    Ok((height, s7)) => match read_uleb(s7) {
                                        Err(e) => Err(e),
                                        Ok((blame, s8)) => match read_uleb(s8) {
                                            Err(e) => Err(e),
                                            Ok((finalized_epoch, s9)) => match read_uleb(s9) {
                                                Err(e) => Err(e),
                                                Ok((_, s10)) => match read_qc8_spec(s10) {
                                                    Err(e) => Err(e),
                                                    Ok((base_reward, s11)) => match read_view(
                                                        s11,
                                                        height,
                                                        c.pos_from,
                                                    ) {
                                                        Err(e) => Err(e),
                                                        Ok(pos_view) => Ok(
                                                            BlockModel {
                                                                epoch: 0,
                                                                index,
                                                                hash: record.take(32),
                                                                state_root: hash_prefix(
                                                                    record.subrange(32, 36),
                                                                ),
                                                                receipts_root: hash_prefix(
                                                                    record.subrange(36, 40),
                                                                ),
                                                                logs_bloom: hash_prefix(
                                                                    record.subrange(40, 44),
                                                                ),
                                                                flags: record[44],
                                                                author,
                                                                timestamp,
                                                                difficulty,
                                                                gas_limit,
                                                                base_price_core,
                                                                base_price_espace,
                                                                height,
                                                                blame,
                                                                finalized_epoch,
                                                                base_reward,
                                                                txs: Seq::empty(),
                                                                refs: Seq::empty(),
                                                                rewards: Seq::empty(),
                                                                unlocks: Seq::empty(),
                                                                pos_view,
                                                            },
                                                        ),
                                                    },
                                                },
                                            },
                                        },
                                    },
                                },
                            },
                        },
                    },
                },
            },
        }
    }
}

/// The place in the transaction segment that a record gives, in units of four bytes.
pub open spec fn record_tx_offset(record: Seq<u8>) -> Result<u64, PackError> {
    match read_uleb(record.skip(45)) {
        Err(e) => Err(e),
        Ok((_, s1)) => match read_uleb(s1) {
            Err(e) => Err(e),
            Ok((_, s2)) => match read_uleb(s2) {
                Err(e) => Err(e),
                Ok((_, s3)) => match read_qc5e_spec(s3) {
                    Err(e) => Err(e),
                    Ok((_, s4)) => match read_qc5e_spec(s4) {
                        Err(e) => Err(e),
                        Ok((_, s5)) => match read_qc5e_spec(s5) {
                            Err(e) => Err(e),
                            Ok((_, s6)) => match read_uleb(s6) {
                                Err(e) => Err(e),
                                Ok((_, s7)) => match read_uleb(s7) {
                                    Err(e) => Err(e),
                                    Ok((_, s8)) => match read_uleb(s8) {
                                        Err(e) => Err(e),
                                        Ok((_, s9)) => match read_uleb(s9) {
                                            Err(e) => Err(e),
                                            Ok((offset, _)) => Ok(offset),
                                        },
                                    },
                                },
                            },
                        },
                    },
                },
            },
        },
    }
}

/// The place in the transaction segment that a record gives, in units of four bytes.
pub fn peek_tx_offset_units(record: &[u8]) -> (r: Result<u64, PackError>)
    requires
        record@.len() >= 45,
    ensures
        match r {
            Ok(offset) => record_tx_offset(record@) == Ok::<u64, PackError>(offset),
            Err(e) => record_tx_offset(record@) == Err::<u64, PackError>(e),
        },
{
    let mut offset: usize = RECORD_FIXED_LEN;
    let a = read_uleb128(record, &mut offset);
    if a.is_err() {
        return a;
    }
    let a = read_uleb128(record, &mut offset);
    if a.is_err() {
        return a;
    }
    let a = read_uleb128(record, &mut offset);
    if a.is_err() {
        return a;
    }
    match read_qc5e(record, &mut offset) {
        Ok(_) => {},
        Err(e) => {
            return Err(e);
        },
    }
    match read_qc5e(record, &mut offset) {
        Ok(_) => {},
        Err(e) => {
            return Err(e);
        },
    }
    match read_qc5e(record, &mut offset) {
        Ok(_) => {},
        Err(e) => {
            return Err(e);
        },
    }
    let a = read_uleb128(record, &mut offset);
    if a.is_err() {
        return a;
    }
    let a = read_uleb128(record, &mut offset);
    if a.is_err() {
        return a;
    }
    let a = read_uleb128(record, &mut offset);
    if a.is_err() {
        return a;
    }
    read_uleb128(record, &mut offset)
}

fn read_address(record: &[u8], offset: &mut usize, table: &Vec<Address>) -> (r: Result<
    Address,
    PackError,
>)
    requires
        *old(offset) <= record@.len(),
    ensures
        *final(offset) <= record@.len(),
        match r {
            Ok(a) => read_entry(record@.skip(*old(offset) as int), views(table@)) == Ok::<
                (Seq<u8>, Seq<u8>),
                PackError,
            >((a@, record@.skip(*final(offset) as int))),
            Err(e) => read_entry(record@.skip(*old(offset) as int), views(table@)) == Err::<
                (Seq<u8>, Seq<u8>),
                PackError,
            >(e),
        },
{
    proof {
        reveal(read_entry);
    }
    match read_uleb128(record, offset) {
        Ok(i) => address_at(table, i),
        Err(e) => Err(e),
    }
}

fn read_word(record: &[u8], offset: &mut usize, table: &Vec<U256>) -> (r: Result<U256, PackError>)
    requires
        *old(offset) <= record@.len(),
    ensures
        *final(offset) <= record@.len(),
        match r {
            Ok(w) => read_entry(record@.skip(*old(offset) as int), views(table@)) == Ok::<
                (Seq<u8>, Seq<u8>),
                PackError,
            >((w@, record@.skip(*final(offset) as int))),
            Err(e) => read_entry(record@.skip(*old(offset) as int), views(table@)) == Err::<
                (Seq<u8>, Seq<u8>),
                PackError,
            >(e),
        },
{
    proof {
        reveal(read_entry);
    }
    match read_uleb128(record, offset) {
        Ok(i) => word_at(table, i),
        Err(e) => Err(e),
    }
}

fn read_from_base(record: &[u8], offset: &mut usize, base: u64) -> (r: Result<u64, PackError>)
    requires
        *old(offset) <= record@.len(),
    ensures
        *final(offset) <= record@.len(),
        match r {
            Ok(v) => read_above(record@.skip(*old(offset) as int), base) == Ok::<
                (u64, Seq<u8>),
                PackError,
            >((v, record@.skip(*final(offset) as int))),
            Err(e) => read_above(record@.skip(*old(offset) as int), base) == Err::<
                (u64, Seq<u8>),
                PackError,
            >(e),
        },
{
    proof {
        reveal(read_above);
    }
    match read_uleb128(record, offset) {
        Ok(d) => {
            if d <= u64::MAX - base {
                Ok(base + d)
            } else {
                Err(PackError::FieldOverflow)
            }
        },
        Err(e) => Err(e),
    }
}

fn read_gas_limit(record: &[u8], offset: &mut usize) -> (r: Result<U256, PackError>)
    requires
        *old(offset) <= record@.len(),
    ensures
        *final(offset) <= record@.len(),
        match r {
            Ok(w) => read_known(record@.skip(*old(offset) as int), known_gas_limits()) == Ok::<
                (Seq<u8>, Seq<u8>),
                PackError,
            >((w@, record@.skip(*final(offset) as int))),
            Err(e) => read_known(record@.skip(*old(offset) as int), known_gas_limits()) == Err::<
                (Seq<u8>, Seq<u8>),
                PackError,
            >(e),
        },
{
    proof {
        reveal(read_known);
    }
    match read_qc5e(record, offset) {
        Ok(q) => q.gas_limit(),
        Err(e) => Err(e),
    }
}

fn read_base_price(record: &[u8], offset: &mut usize, espace: bool) -> (r: Result<U256, PackError>)
    requires
        *old(offset) <= record@.len(),
    ensures
        *final(offset) <= record@.len(),
        match r {
            Ok(w) => read_known(record@.skip(*old(offset) as int), known_base_prices(espace))
                == Ok::<(Seq<u8>, Seq<u8>), PackError>((w@, record@.skip(*final(offset) as int))),
            Err(e) => read_known(record@.skip(*old(offset) as int), known_base_prices(espace))
                == Err::<(Seq<u8>, Seq<u8>), PackError>(e),
        },
{
    proof {
        reveal(read_known);
    }
    match read_qc5e(record, offset) {
        Ok(q) => q.base_price(espace),
        Err(e) => Err(e),
    }
}

/// The hash whose first four bytes are `prefix` and whose other bytes are zero.
fn h256_prefix(prefix: &[u8]) -> (r: H256)
    requires
        prefix@.len() == 4,
    ensures
        r@ == hash_prefix(prefix@),
{
    let mut bytes: Vec<u8> = to_vec(prefix);
    bytes.resize(32, 0);
    proof {
        assert(bytes@.subrange(0, 4) == prefix@);
        assert forall|i: int| 0 <= i < 4 implies bytes@[i] == prefix@[i] by {
            assert(bytes@.subrange(0, 4)[i] == bytes@[i]);
        }
        assert(bytes@ =~= hash_prefix(prefix@));
    }
    H256::from_slice(bytes.as_slice())
}

/// Reads the record of the block at `index`.
pub fn decode_block_record(
    record: &[u8],
    index: usize,
    min_timestamp: u64,
    min_height: u64,
    addresses: &Vec<Address>,
    difficulties: &Vec<U256>,
    pos_from: Option<u64>,
) -> (r: Result<Block, PackError>)
    ensures
        ({
            let c = RecordContext {
                min_timestamp,
                min_height,
                addresses: views(addresses@),
                difficulties: views(difficulties@),
                pos_from,
            };
            match r {
                Ok(b) => decode_record(record@, index as nat, c) == Ok::<BlockModel, PackError>(
                    b@,
                ),
                Err(e) => decode_record(record@, index as nat, c) == Err::<BlockModel, PackError>(
                    e,
                ),
            }
        }),
{
    if record.len() < RECORD_FIXED_LEN {
        return Err(PackError::ShortRecord);
    }
    let hash = H256::from_slice(&record[0..32]);
    let deferred_state_root = h256_prefix(&record[32..36]);
    let deferred_receipts_root = h256_prefix(&record[36..40]);
    let deferred_logs_bloom_hash = h256_prefix(&record[40..44]);
    let flags: u8 = record[44];
    let mut offset: usize = RECORD_FIXED_LEN;
    let author = match read_address(record, &mut offset, addresses) {
        Ok(v) => v,
        Err(e) => {
            return Err(e);
        },
    };
    let timestamp: u64 = match read_from_base(record, &mut offset, min_timestamp) {
        Ok(v) => v,
        Err(e) => {
            return Err(e);
        },
    };
    let difficulty = match read_word(record, &mut offset, difficulties) {
        Ok(v) => v,
        Err(e) => {
            return Err(e);
        },
    };
    let gas_limit = match read_gas_limit(record, &mut offset) {
        Ok(v) => v,
        Err(e) => {
            return Err(e);
        },
    };
    let base_price_core = match read_base_price(record, &mut offset, false) {
        Ok(v) => v,
        Err(e) => {
            return Err(e);
        },
    };
    let base_price_espace = match read_base_price(record, &mut offset, true) {
        Ok(v) => v,
        Err(e) => {
            return Err(e);
        },
    };
    let height: u64 = match read_from_base(record, &mut offset, min_height) {
        Ok(v) => v,
        Err(e) => {
            return Err(e);
        },
    };
    let blame: u64 = match read_uleb128(record, &mut offset) {
        Ok(v) => v,
        Err(e) => {
            return Err(e);
        },
    };
    let finalized_epoch: u64 = match read_uleb128(record, &mut offset) {
        Ok(v) => v,
        Err(e) => {
            return Err(e);
        },
    };
    match read_uleb128(record, &mut offset) {
        Ok(_) => {},
        Err(e) => {
            return Err(e);
        },
    }
    let base_reward = match read_qc8(record, &mut offset) {
        Ok(v) => v,
        Err(e) => {
            return Err(e);
        },
    };
    let has_view: bool = match pos_from {
        Some(h) => height >= h,
        None => false,
    };
    let pos_view: Option<u64> = if has_view {
        match read_uleb128(record, &mut offset) {
            Ok(v) => Some(v),
            Err(e) => {
                return Err(e);
            },
        }
    } else {
        None
    };
    let block = Block {
        epoch: 0,
        index,
        hash,
        deferred_state_root,
        deferred_receipts_root,
        deferred_logs_bloom_hash,
        flags,
        author,
        timestamp,
        difficulty,
        gas_limit,
        base_price_core,
        base_price_espace,
        height,
        blame,
        finalized_epoch,
        base_reward,
        transactions: Vec::new(),
        transaction_refs: Vec::new(),
        pos_rewards: Vec::new(),
        unlock_events: Vec::new(),
        pos_view,
    };
    proof {
        assert(block@.txs =~= Seq::empty());
        assert(block@.refs =~= Seq::empty());
        assert(block@.rewards =~= Seq::empty());
        assert(block@.unlocks =~= Seq::empty());
        assert(hash@ =~= record@.take(32));
    }
    Ok(block)
}

/// The parts of a block have the lengths that their types give them.
pub open spec fn block_shape(b: BlockModel) -> bool {
    &&& b.hash.len() == 32
    &&& b.state_root.len() == 32
    &&& b.receipts_root.len() == 32
    &&& b.logs_bloom.len() == 32
    &&& b.author.len() == 20
    &&& b.difficulty.len() == 32
    &&& b.gas_limit.len() == 32
    &&& b.base_price_core.len() == 32
    &&& b.base_price_espace.len() == 32
    &&& b.base_reward.len() == 32
}

/// What reading the record of a block gives: the block with shortened roots, the
/// flags that were written, and without its epoch and its transactions.
pub open spec fn record_block(b: BlockModel, flags: u8, index: nat) -> BlockModel {
    BlockModel {
        epoch: 0,
        index,
        state_root: hash_prefix(b.state_root),
        receipts_root: hash_prefix(b.receipts_root),
        logs_bloom: hash_prefix(b.logs_bloom),
        flags,
        txs: Seq::empty(),
        refs: Seq::empty(),
        rewards: Seq::empty(),
        unlocks: Seq::empty(),
        ..b
    }
}

/// A record that was written reads back, whatever follows it.
pub proof fn law_record(
    p: PacketModel,
    b: BlockModel,
    flags: u8,
    offset: u64,
    pad: Seq<u8>,
    index: nat,
    pos_from: Option<u64>,
)
    requires
        block_shape(b),
        record_fault(p, b) is None,
        p.addresses.len() <= u64::MAX,
        p.difficulties.len() <= u64::MAX,
        b.pos_view is Some == (pos_from matches Some(h) && b.height >= h),
    ensures
        ({
            let c = RecordContext {
                min_timestamp: p.min_timestamp,
                min_height: p.min_height,
                addresses: p.addresses,
                difficulties: p.difficulties,
                pos_from,
            };
            let s = record_bytes(p, b, flags, offset as nat) + pad;
            &&& decode_record(s, index, c) == Ok::<BlockModel, PackError>(
                record_block(b, flags, index),
            )
            &&& record_tx_offset(s) == Ok::<u64, PackError>(offset)
        }),
{
    let author = uleb(last_index(p.addresses, b.author)->0);
    let timestamp = uleb((b.timestamp - p.min_timestamp) as nat);
    let difficulty = uleb(last_index(p.difficulties, b.difficulty)->0);
    let gas = gas_limit_bytes(b)->Ok_0;
    let core = base_price_bytes(b.base_price_core, false)->Ok_0;
    let espace = base_price_bytes(b.base_price_espace, true)->Ok_0;
    let height = uleb((b.height - p.min_height) as nat);
    let blame = uleb(b.blame as nat);
    let finalized = uleb(b.finalized_epoch as nat);
    let place = uleb(offset as nat);
    let reward = qc8(b.base_reward)->Ok_0;
    let view = view_bytes(b.pos_view);
    let t11 = view + pad;
    let t10 = reward + t11;
    let t9 = place + t10;
    let t8 = finalized + t9;
    let t7 = blame + t8;
    let t6 = height + t7;
    let t5 = espace + t6;
    let t4 = core + t5;
    let t3 = gas + t4;
    let t2 = difficulty + t3;
    let t1 = timestamp + t2;
    let s = record_bytes(p, b, flags, offset as nat) + pad;
    lemma_record_tail(p, b, flags, offset as nat, pad);
    assert(s.skip(45) == author + t1);
    lemma_record_head(p, b, flags, offset as nat, pad);
    lemma_read_entry(p.addresses, b.author, t1);
    lemma_read_above(b.timestamp, p.min_timestamp, t2);
    lemma_read_entry(p.difficulties, b.difficulty, t3);
    lemma_read_known(b.gas_limit, known_gas_limits(), t4);
    lemma_read_known(b.base_price_core, known_base_prices(false), t5);
    lemma_read_known(b.base_price_espace, known_base_prices(true), t6);
    lemma_read_above(b.height, p.min_height, t7);
    law_uleb(b.blame, t8);
    law_uleb(b.finalized_epoch, t9);
    law_uleb(offset, t10);
    law_qc8(b.base_reward, t11);
    if b.pos_view is Some {
        law_uleb(b.pos_view->0, pad);
    }
    lemma_last_index(p.addresses, b.author);
    lemma_last_index(p.difficulties, b.difficulty);
    law_uleb(last_index(p.addresses, b.author)->0 as u64, t1);
    law_uleb((b.timestamp - p.min_timestamp) as u64, t2);
    law_uleb(last_index(p.difficulties, b.difficulty)->0 as u64, t3);
    law_uleb((b.height - p.min_height) as u64, t7);
}

proof fn lemma_record_tail(
    p: PacketModel,
    b: BlockModel,
    flags: u8,
    offset: nat,
    pad: Seq<u8>,
)
    requires
        block_shape(b),
    ensures
        (record_bytes(p, b, flags, offset) + pad).skip(45) == uleb(
            last_index(p.addresses, b.author)->0,
        ) + (uleb((b.timestamp - p.min_timestamp) as nat) + (uleb(
            last_index(p.difficulties, b.difficulty)->0,
        ) + (gas_limit_bytes(b)->Ok_0 + (base_price_bytes(b.base_price_core, false)->Ok_0 + (
        base_price_bytes(b.base_price_espace, true)->Ok_0 + (uleb((b.height - p.min_height) as nat)
            + (uleb(b.blame as nat) + (uleb(b.finalized_epoch as nat) + (uleb(offset) + (qc8(
            b.base_reward,
        )->Ok_0 + (view_bytes(b.pos_view) + pad))))))))))),
{
    let author = uleb(last_index(p.addresses, b.author)->0);
    let timestamp = uleb((b.timestamp - p.min_timestamp) as nat);
    let difficulty = uleb(last_index(p.difficulties, b.difficulty)->0);
    let gas = gas_limit_bytes(b)->Ok_0;
    let core = base_price_bytes(b.base_price_core, false)->Ok_0;
    let espace = base_price_bytes(b.base_price_espace, true)->Ok_0;
    let height = uleb((b.height - p.min_height) as nat);
    let blame = uleb(b.blame as nat);
    let finalized = uleb(b.finalized_epoch as nat);
    let place = uleb(offset);
    let reward = qc8(b.base_reward)->Ok_0;
    let view = view_bytes(b.pos_view);
    let r11 = reward + view;
    let r10 = place + r11;
    let r9 = finalized + r10;
    let r8 = blame + r9;
    let r7 = height + r8;
    let r6 = espace + r7;
    let r5 = core + r6;
    let r4 = gas + r5;
    let r3 = difficulty + r4;
    let r2 = timestamp + r3;
    let r1 = author + r2;
    let head = record_head(b, flags);
    assert(head.len() == 45);
    assert(record_bytes(p, b, flags, offset) == head + r1);
    lemma_assoc(head, r1, pad);
    lemma_skip_head(head, r1 + pad);
    lemma_assoc(author, r2, pad);
    lemma_assoc(timestamp, r3, pad);
    lemma_assoc(difficulty, r4, pad);
    lemma_assoc(gas, r5, pad);
    lemma_assoc(core, r6, pad);
    lemma_assoc(espace, r7, pad);
    lemma_assoc(height, r8, pad);
    lemma_assoc(blame, r9, pad);
    lemma_assoc(finalized, r10, pad);
    lemma_assoc(place, r11, pad);
    lemma_assoc(reward, view, pad);
}

pub proof fn lemma_skip_head(a: Seq<u8>, b: Seq<u8>)
    ensures
        (a + b).skip(a.len() as int) == b,
        (a + b).take(a.len() as int) == a,
{
    assert((a + b).skip(a.len() as int) =~= b);
    assert((a + b).take(a.len() as int) =~= a);
}

proof fn lemma_record_head(
    p: PacketModel,
    b: BlockModel,
    flags: u8,
    offset: nat,
    pad: Seq<u8>,
)
    requires
        block_shape(b),
    ensures
        ({
            let s = record_bytes(p, b, flags, offset) + pad;
            &&& s.len() >= 45
            &&& s.take(32) == b.hash
            &&& hash_prefix(s.subrange(32, 36)) == hash_prefix(b.state_root)
            &&& hash_prefix(s.subrange(36, 40)) == hash_prefix(b.receipts_root)
            &&& hash_prefix(s.subrange(40, 44)) == hash_prefix(b.logs_bloom)
            &&& s[44] == flags
        }),
{
    let head = record_head(b, flags);
    let s = record_bytes(p, b, flags, offset) + pad;
    assert(head.len() == 45);
    assert forall|i: int| 0 <= i < 45 implies s[i] == head[i] by {}
    assert(s.take(32) =~= b.hash);
    assert(s.subrange(32, 36).take(4) =~= b.state_root.take(4));
    assert(s.subrange(36, 40).take(4) =~= b.receipts_root.take(4));
    assert(s.subrange(40, 44).take(4) =~= b.logs_bloom.take(4));
}

proof fn lemma_read_entry(table: Seq<Seq<u8>>, v: Seq<u8>, rest: Seq<u8>)
    requires
        last_index(table, v) is Some,
        table.len() <= u64::MAX,
    ensures
        read_entry(uleb(last_index(table, v)->0) + rest, table) == Ok::<
            (Seq<u8>, Seq<u8>),
            PackError,
        >((v, rest)),
{
    reveal(read_entry);
    lemma_last_index(table, v);
    law_uleb(last_index(table, v)->0 as u64, rest);
}

proof fn lemma_read_above(v: u64, base: u64, rest: Seq<u8>)
    requires
        base <= v,
    ensures
        read_above(uleb((v - base) as nat) + rest, base) == Ok::<(u64, Seq<u8>), PackError>(
            (v, rest),
        ),
{
    reveal(read_above);
    law_uleb((v - base) as u64, rest);
}

proof fn lemma_read_known(w: Seq<u8>, known: Seq<u64>, rest: Seq<u8>)
    requires
        w.len() == 32,
        known.len() <= 2,
        qc5e(w, enumerated_in(w, known)) is Ok,
    ensures
        read_known(qc5e(w, enumerated_in(w, known))->Ok_0 + rest, known) == Ok::<
            (Seq<u8>, Seq<u8>),
            PackError,
        >((w, rest)),
        read_qc5e_spec(qc5e(w, enumerated_in(w, known))->Ok_0 + rest) matches Ok((_, r))
            && r == rest,
{
    reveal(read_known);
    law_qc5e(w, known, rest);
}

} // verus!
