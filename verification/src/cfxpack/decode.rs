//! Reading a packet.

use crate::cfxpack::body::{decode_block_records, decode_records, DecodedRecord, RecordModel};
use crate::cfxpack::codec::{le_at, read_u32_le, read_u64_le, read_uleb, read_uleb128};
use crate::cfxpack::encode::{find_pivot, flag, has_flag, lemma_next_pivot, next_pivot};
use crate::cfxpack::error::PackError;
use crate::cfxpack::packet::{views, Block, BlockModel, Packet, PacketModel, PosLookupEntry, PosLookupModel, SenderBaseNonce, FLAG_HAS_TRANSACTIONS, FLAG_PIVOT, HEADER_FIXED_LEN, HEADER_LEN};
use crate::cfxpack::record::{decode_block_record, decode_record, RecordContext};
use crate::cfxpack::txdecode::{decode_tx_payload, load_payload, txs_before, LoadModel, TxContext, TxTables};
use crate::cfxpack::types::{le_value, Address, U256};
use crate::types::H256;
use vstd::prelude::*;

verus! {

/// The sizes that record prefixes can have.
pub open spec fn valid_prefix_size(n: int) -> bool {
    n == 64 || n == 72 || n == 80 || n == 88 || n == 96
}

/// The offset of section `i`.
pub open spec fn offset_of(data: Seq<u8>, i: int) -> nat {
    le_value(data.subrange(93 + 4 * i, 97 + 4 * i))
}

/// What is wrong with the offsets from `i` on, of which none may be below `previous`.
pub open spec fn offset_fault(data: Seq<u8>, i: int, previous: int) -> Option<PackError>
    decreases 8 - i,
{
    if i >= 8 {
        None
    } else if offset_of(data, i) < previous {
        Some(PackError::OffsetOrder)
    } else if offset_of(data, i) > data.len() {
        Some(PackError::OffsetBeyondEnd)
    } else {
        offset_fault(data, i + 1, offset_of(data, i) as int)
    }
}

/// What is wrong with the header of a packet, if anything.
pub open spec fn header_fault(data: Seq<u8>) -> Option<PackError> {
    if data.len() < 125 {
        Some(PackError::ShortHeader)
    } else if !valid_prefix_size(data[92] as int) {
        Some(PackError::PrefixSize)
    } else {
        offset_fault(data, 0, 125)
    }
}

/// The pieces of length `n` that a table is made of.
pub open spec fn pieces(s: Seq<u8>, n: nat) -> Seq<Seq<u8>> {
    Seq::new(s.len() / n, |i: int| s.subrange(i * n, i * n + n))
}

/// A table of addresses.
pub open spec fn address_table(s: Seq<u8>) -> Result<Seq<Seq<u8>>, PackError> {
    if s.len() % 20 != 0 {
        Err(PackError::AddressTable)
    } else {
        Ok(pieces(s, 20))
    }
}

/// A table of PoS blocks.
pub open spec fn pos_table(s: Seq<u8>) -> Result<Seq<PosLookupModel>, PackError> {
    if s.len() % 34 != 0 {
        Err(PackError::PosTable)
    } else {
        Ok(
            Seq::new(
                s.len() / 34,
                |i: int|
                    PosLookupModel {
                        hash: s.subrange(i * 34, i * 34 + 32),
                        height_offset: le_value(s.subrange(i * 34 + 32, i * 34 + 34)) as u16,
                    },
            ),
        )
    }
}

/// A table of words, behind which zeros may fill up to the next section.
pub open spec fn word_table(s: Seq<u8>) -> Result<Seq<Seq<u8>>, PackError> {
    let whole = s.len() - s.len() % 32;
    if exists|i: int| whole <= i < s.len() && #[trigger] s[i] != 0 {
        Err(PackError::TablePadding)
    } else {
        Ok(pieces(s, 32))
    }
}

/// A table of base nonces.
pub open spec fn nonce_table(s: Seq<u8>) -> Result<Seq<(nat, u64)>, PackError>
    decreases s.len(),
{
    if s.len() == 0 {
        Ok(Seq::empty())
    } else {
        match read_uleb(s) {
            Err(e) => Err(e),
            Ok((sender, s1)) => if sender > usize::MAX {
                Err(PackError::FieldOverflow)
            } else {
                match read_uleb(s1) {
                    Err(e) => Err(e),
                    Ok((base, s2)) => if s2.len() < s.len() {
                        match nonce_table(s2) {
                            Err(e) => Err(e),
                            Ok(rest) => Ok(seq![(sender as nat, base)] + rest),
                        }
                    } else {
                        Err(PackError::Truncated)
                    },
                }
            },
        }
    }
}

/// The tables of a packet.
pub struct Tables {
    pub addresses: Seq<Seq<u8>>,
    pub pos_entries: Seq<PosLookupModel>,
    pub difficulties: Seq<Seq<u8>>,
    pub base_nonces: Seq<(nat, u64)>,
    pub gas_prices: Seq<Seq<u8>>,
}

/// The section between offsets `i` and `i + 1`.
pub open spec fn section(data: Seq<u8>, i: int) -> Seq<u8> {
    data.subrange(offset_of(data, i) as int, offset_of(data, i + 1) as int)
}

/// The tables of a packet.
pub open spec fn tables_of(data: Seq<u8>) -> Result<Tables, PackError> {
    match address_table(section(data, 0)) {
        Err(e) => Err(e),
        Ok(addresses) => match pos_table(section(data, 1)) {
            Err(e) => Err(e),
            Ok(pos_entries) => match word_table(section(data, 2)) {
                Err(e) => Err(e),
                Ok(difficulties) => match nonce_table(section(data, 3)) {
                    Err(e) => Err(e),
                    Ok(base_nonces) => match word_table(section(data, 4)) {
                        Err(e) => Err(e),
                        Ok(gas_prices) => Ok(
                            Tables {
                                addresses,
                                pos_entries,
                                difficulties,
                                base_nonces,
                                gas_prices,
                            },
                        ),
                    },
                },
            },
        },
    }
}

/// The blocks of the first `n` records, without their epochs and transactions.
pub open spec fn bare_blocks(recs: Seq<RecordModel>, c: RecordContext, n: int) -> Result<
    Seq<BlockModel>,
    PackError,
>
    decreases n,
{
    if n <= 0 {
        Ok(Seq::empty())
    } else {
        match bare_blocks(recs, c, n - 1) {
            Err(e) => Err(e),
            Ok(done) => match decode_record(recs[n - 1].bytes, (n - 1) as nat, c) {
                Err(e) => Err(e),
                Ok(b) => Ok(done.push(b)),
            },
        }
    }
}

/// The blocks with their epochs: the height of the next pivot block.
pub open spec fn with_epochs(blocks: Seq<BlockModel>) -> Result<Seq<BlockModel>, PackError> {
    if blocks.len() > 0 && !flag(blocks.last().flags, FLAG_PIVOT) {
        Err(PackError::NoFinalPivot)
    } else {
        Ok(
            Seq::new(
                blocks.len(),
                |i: int|
                    BlockModel { epoch: blocks[next_pivot(blocks, i)->0].height, ..blocks[i] },
            ),
        )
    }
}

/// A block with what its payload holds.
pub open spec fn with_load(b: BlockModel, l: LoadModel) -> BlockModel {
    BlockModel { txs: l.txs, refs: l.refs, rewards: l.rewards, unlocks: l.unlocks, ..b }
}

/// The blocks, of which the first `n` have what their payloads hold.
pub open spec fn loaded_blocks(
    data: Seq<u8>,
    blocks: Seq<BlockModel>,
    recs: Seq<RecordModel>,
    c: TxContext,
    n: int,
) -> Result<Seq<BlockModel>, PackError>
    decreases n,
{
    if n <= 0 {
        Ok(blocks)
    } else {
        match loaded_blocks(data, blocks, recs, c, n - 1) {
            Err(e) => Err(e),
            Ok(done) => {
                let b = done[n - 1];
                if flag(b.flags, FLAG_HAS_TRANSACTIONS) {
                    match load_payload(
                        data,
                        offset_of(data, 7) as int,
                        recs[n - 1].offset,
                        b.flags,
                        b.epoch,
                        c,
                        txs_before(done, n - 1),
                    ) {
                        Err(e) => Err(e),
                        Ok(l) => Ok(done.update(n - 1, with_load(b, l))),
                    }
                } else {
                    Ok(done)
                }
            },
        }
    }
}

/// The blocks of a packet with the given tables.
pub open spec fn blocks_of(data: Seq<u8>, t: Tables, pos_from: Option<u64>) -> Result<
    Seq<BlockModel>,
    PackError,
> {
    let c = RecordContext {
        min_timestamp: le_value(data.subrange(72, 80)) as u64,
        min_height: le_value(data.subrange(80, 88)) as u64,
        addresses: t.addresses,
        difficulties: t.difficulties,
        pos_from,
    };
    let txc = TxContext {
        addresses: t.addresses,
        gas_prices: t.gas_prices,
        base_nonces: t.base_nonces,
    };
    match decode_records(
        data,
        offset_of(data, 5) as int,
        offset_of(data, 6) as int,
        offset_of(data, 7) as int,
        data[92] as int,
    ) {
        Err(e) => Err(e),
        Ok(recs) => match bare_blocks(recs, c, recs.len() as int) {
            Err(e) => Err(e),
            Ok(bare) => match with_epochs(bare) {
                Err(e) => Err(e),
                Ok(blocks) => loaded_blocks(data, blocks, recs, txc, blocks.len() as int),
            },
        },
    }
}

/// What the bytes of a packet hold, or why they hold none. Blocks from the height
/// `pos_from` on have a PoS view.
pub open spec fn decoded(data: Seq<u8>, pos_from: Option<u64>) -> Result<PacketModel, PackError> {
    match header_fault(data) {
        Some(e) => Err(e),
        None => match tables_of(data) {
            Err(e) => Err(e),
            Ok(t) => match blocks_of(data, t, pos_from) {
                Err(e) => Err(e),
                Ok(blocks) => Ok(
                    PacketModel {
                        prev_last_hash: data.take(32),
                        prev_last_state_root: data.subrange(32, 64),
                        first_block_number: le_value(data.subrange(64, 72)) as u64,
                        min_timestamp: le_value(data.subrange(72, 80)) as u64,
                        min_height: le_value(data.subrange(80, 88)) as u64,
                        min_pos_height: le_value(data.subrange(88, 92)) as u64,
                        addresses: t.addresses,
                        pos_entries: t.pos_entries,
                        difficulties: t.difficulties,
                        base_nonces: t.base_nonces,
                        gas_prices: t.gas_prices,
                        blocks,
                    },
                ),
            },
        },
    }
}

/// The offsets of the sections, as they are read.
pub open spec fn are_offsets(data: Seq<u8>, offs: Seq<usize>) -> bool {
    &&& offs.len() == 8
    &&& forall|i: int| 0 <= i < 8 ==> #[trigger] offs[i] == offset_of(data, i)
    &&& forall|i: int, j: int|
        #![trigger offs[i], offs[j]]
        0 <= i <= j < 8 ==> 125 <= offs[i] <= offs[j] <= data.len()
}

/// Checks the header and reads the offsets.
pub fn read_offsets(data: &[u8]) -> (r: Result<Vec<usize>, PackError>)
    ensures
        match r {
            Ok(offs) => header_fault(data@) is None && are_offsets(data@, offs@) && data@.len()
                >= 125 && valid_prefix_size(data@[92] as int),
            Err(e) => header_fault(data@) == Some(e),
        },
{
    if data.len() < HEADER_LEN {
        return Err(PackError::ShortHeader);
    }
    let size: u8 = data[92];
    if !(size == 64 || size == 72 || size == 80 || size == 88 || size == 96) {
        return Err(PackError::PrefixSize);
    }
    let mut offs: Vec<usize> = Vec::new();
    let mut previous: usize = HEADER_LEN;
    let mut i: usize = 0;
    while i < 8
        invariant
            i <= 8,
            data@.len() >= 125,
            offs@.len() == i,
            125 <= previous <= data@.len(),
            i > 0 ==> previous == offs@[i - 1],
            header_fault(data@) == offset_fault(data@, i as int, previous as int),
            forall|k: int| 0 <= k < i ==> #[trigger] offs@[k] == offset_of(data@, k),
            forall|k: int, j: int|
                #![trigger offs@[k], offs@[j]]
                0 <= k <= j < i ==> 125 <= offs@[k] <= offs@[j] <= data@.len(),
        decreases 8 - i,
    {
        let offset: u32 = match read_u32_le(data, HEADER_FIXED_LEN + i * 4) {
            Ok(v) => v,
            Err(e) => {
                return Err(e);
            },
        };
        proof {
            assert(offset == offset_of(data@, i as int));
        }
        if (offset as u64) < previous as u64 {
            return Err(PackError::OffsetOrder);
        }
        if offset as u64 > data.len() as u64 {
            return Err(PackError::OffsetBeyondEnd);
        }
        let ghost before = offs@;
        offs.push(offset as usize);
        proof {
            assert forall|k: int, j: int|
                #![trigger offs@[k], offs@[j]]
                0 <= k <= j < i + 1 implies 125 <= offs@[k] <= offs@[j]
                <= data@.len() by {
                if j == i && k < i {
                    assert(125 <= before[k] <= before[i - 1] <= data@.len());
                }
            }
        }
        previous = offset as usize;
        i += 1;
    }
    Ok(offs)
}

pub fn decode_addresses(s: &[u8]) -> (r: Result<Vec<Address>, PackError>)
    ensures
        match r {
            Ok(table) => address_table(s@) == Ok::<Seq<Seq<u8>>, PackError>(views(table@)),
            Err(e) => address_table(s@) == Err::<Seq<Seq<u8>>, PackError>(e),
        },
{
    if s.len() % 20 != 0 {
        return Err(PackError::AddressTable);
    }
    let mut out: Vec<Address> = Vec::new();
    let n: usize = s.len() / 20;
    let mut i: usize = 0;
    while i < n
        invariant
            i <= n,
            n == s@.len() / 20,
            views(out@) == pieces(s@, 20).take(i as int),
        decreases n - i,
    {
        let ghost done = views(out@);
        proof {
            assert(i * 20 + 20 <= s.len());
        }
        out.push(Address::from_slice(&s[i * 20..i * 20 + 20]));
        proof {
            assert(pieces(s@, 20).take(i + 1) =~= done.push(pieces(s@, 20)[i as int]));
            assert(views(out@) =~= done.push(pieces(s@, 20)[i as int]));
        }
        i += 1;
    }
    proof {
        assert(pieces(s@, 20).take(i as int) =~= pieces(s@, 20));
    }
    Ok(out)
}

pub fn decode_pos_entries(s: &[u8]) -> (r: Result<Vec<PosLookupEntry>, PackError>)
    ensures
        match r {
            Ok(table) => pos_table(s@) == Ok::<Seq<PosLookupModel>, PackError>(views(table@)),
            Err(e) => pos_table(s@) == Err::<Seq<PosLookupModel>, PackError>(e),
        },
{
    if s.len() % 34 != 0 {
        return Err(PackError::PosTable);
    }
    let mut out: Vec<PosLookupEntry> = Vec::new();
    let n: usize = s.len() / 34;
    let ghost all = pos_table(s@)->Ok_0;
    let mut i: usize = 0;
    proof {
        assert(all.take(0) =~= views(out@));
    }
    while i < n
        invariant
            i <= n,
            n == s@.len() / 34,
            s@.len() % 34 == 0,
            all == pos_table(s@)->Ok_0,
            views(out@) == all.take(i as int),
        decreases n - i,
    {
        let ghost done = views(out@);
        proof {
            assert(i * 34 + 34 <= s.len());
        }
        let at: usize = i * 34;
        let hash = H256::from_slice(&s[at..at + 32]);
        let height_offset: u16 = s[at + 32] as u16 + 256 * (s[at + 33] as u16);
        proof {
            let t = s@.subrange(at + 32, at + 34);
            reveal_with_fuel(le_value, 3);
            assert(t.drop_first()[0] == s@[at + 33]);
            assert(le_value(t) == height_offset);
        }
        out.push(PosLookupEntry { hash, height_offset });
        proof {
            assert(all.take(i + 1) =~= done.push(all[i as int]));
            assert(views(out@) =~= done.push(all[i as int]));
        }
        i += 1;
    }
    proof {
        assert(all.take(i as int) =~= all);
    }
    Ok(out)
}

pub fn decode_u256_table(s: &[u8]) -> (r: Result<Vec<U256>, PackError>)
    ensures
        match r {
            Ok(table) => word_table(s@) == Ok::<Seq<Seq<u8>>, PackError>(views(table@)),
            Err(e) => word_table(s@) == Err::<Seq<Seq<u8>>, PackError>(e),
        },
{
    let whole: usize = s.len() - s.len() % 32;
    let mut k: usize = whole;
    while k < s.len()
        invariant
            whole == s@.len() - s@.len() % 32,
            whole <= k <= s@.len(),
            forall|i: int| whole <= i < k ==> #[trigger] s@[i] == 0,
        decreases s@.len() - k,
    {
        if s[k] != 0 {
            proof {
                assert(s@[k as int] != 0);
            }
            return Err(PackError::TablePadding);
        }
        k += 1;
    }
    let mut out: Vec<U256> = Vec::new();
    let n: usize = s.len() / 32;
    let mut i: usize = 0;
    while i < n
        invariant
            i <= n,
            n == s@.len() / 32,
            views(out@) == pieces(s@, 32).take(i as int),
        decreases n - i,
    {
        let ghost done = views(out@);
        proof {
            assert(i * 32 + 32 <= s.len());
        }
        out.push(U256(crate::cfxpack::types::array32(&s[i * 32..i * 32 + 32])));
        proof {
            assert(pieces(s@, 32).take(i + 1) =~= done.push(pieces(s@, 32)[i as int]));
            assert(views(out@) =~= done.push(pieces(s@, 32)[i as int]));
        }
        i += 1;
    }
    proof {
        assert(pieces(s@, 32).take(i as int) =~= pieces(s@, 32));
    }
    Ok(out)
}

/// Entries already read, in front of the outcome for those that follow.
spec fn prepend_nonces(
    done: Seq<(nat, u64)>,
    others: Result<Seq<(nat, u64)>, PackError>,
) -> Result<Seq<(nat, u64)>, PackError> {
    match others {
        Ok(rest) => Ok(done + rest),
        Err(e) => Err(e),
    }
}

pub fn decode_sender_base_nonces(s: &[u8]) -> (r: Result<Vec<SenderBaseNonce>, PackError>)
    ensures
        match r {
            Ok(table) => nonce_table(s@) == Ok::<Seq<(nat, u64)>, PackError>(views(table@)),
            Err(e) => nonce_table(s@) == Err::<Seq<(nat, u64)>, PackError>(e),
        },
{
    let mut out: Vec<SenderBaseNonce> = Vec::new();
    let mut offset: usize = 0;
    proof {
        assert(s@.skip(0) =~= s@);
        assert(views(out@) =~= Seq::empty());
        match nonce_table(s@) {
            Ok(rest) => {
                assert(Seq::<(nat, u64)>::empty() + rest =~= rest);
            },
            Err(_) => {},
        }
    }
    while offset < s.len()
        invariant
            offset <= s@.len(),
            nonce_table(s@) == prepend_nonces(views(out@), nonce_table(s@.skip(offset as int))),
        decreases s@.len() - offset,
    {
        let ghost done = views(out@);
        let ghost here = s@.skip(offset as int);
        let sender: u64 = match read_uleb128(s, &mut offset) {
            Ok(v) => v,
            Err(e) => {
                return Err(e);
            },
        };
        if sender as u128 > usize::MAX as u128 {
            return Err(PackError::FieldOverflow);
        }
        let base_nonce: u64 = match read_uleb128(s, &mut offset) {
            Ok(v) => v,
            Err(e) => {
                return Err(e);
            },
        };
        let entry = SenderBaseNonce { sender_index: sender as usize, base_nonce };
        out.push(entry);
        proof {
            let rest = s@.skip(offset as int);
            assert(rest.len() < here.len());
            assert(views(out@) =~= done.push(entry@));
            match nonce_table(rest) {
                Ok(others) => {
                    assert(done + (seq![entry@] + others) =~= done.push(entry@) + others);
                },
                Err(_) => {},
            }
        }
    }
    proof {
        assert(s@.skip(offset as int) =~= Seq::empty());
        assert(views(out@) + Seq::<(nat, u64)>::empty() =~= views(out@));
    }
    Ok(out)
}

proof fn lemma_bare_fault(recs: Seq<RecordModel>, c: RecordContext, i: int, n: int)
    requires
        0 <= i <= n,
        bare_blocks(recs, c, i) is Err,
    ensures
        bare_blocks(recs, c, n) == bare_blocks(recs, c, i),
    decreases n,
{
    if n > i {
        lemma_bare_fault(recs, c, i, n - 1);
    }
}

proof fn lemma_loaded_fault(
    data: Seq<u8>,
    blocks: Seq<BlockModel>,
    recs: Seq<RecordModel>,
    c: TxContext,
    i: int,
    n: int,
)
    requires
        0 <= i <= n,
        loaded_blocks(data, blocks, recs, c, i) is Err,
    ensures
        loaded_blocks(data, blocks, recs, c, n) == loaded_blocks(data, blocks, recs, c, i),
    decreases n,
{
    if n > i {
        lemma_loaded_fault(data, blocks, recs, c, i, n - 1);
    }
}

fn decode_bare_blocks(
    recs: &Vec<DecodedRecord>,
    min_timestamp: u64,
    min_height: u64,
    addresses: &Vec<Address>,
    difficulties: &Vec<U256>,
    pos_from: Option<u64>,
) -> (r: Result<Vec<Block>, PackError>)
    ensures
        ({
            let c = RecordContext {
                min_timestamp,
                min_height,
                addresses: views(addresses@),
                difficulties: views(difficulties@),
                pos_from,
            };
            let want = bare_blocks(views(recs@), c, recs@.len() as int);
            match r {
                Ok(blocks) => want == Ok::<Seq<BlockModel>, PackError>(views(blocks@))
                    && blocks@.len() == recs@.len(),
                Err(e) => want == Err::<Seq<BlockModel>, PackError>(e),
            }
        }),
{
    let ghost c = RecordContext {
        min_timestamp,
        min_height,
        addresses: views(addresses@),
        difficulties: views(difficulties@),
        pos_from,
    };
    let ghost all = views(recs@);
    let mut blocks: Vec<Block> = Vec::new();
    let mut i: usize = 0;
    proof {
        assert(views(blocks@) =~= Seq::empty());
    }
    while i < recs.len()
        invariant
            i <= recs@.len(),
            all == views(recs@),
            c == (RecordContext {
                min_timestamp,
                min_height,
                addresses: views(addresses@),
                difficulties: views(difficulties@),
                pos_from,
            }),
            blocks@.len() == i,
            bare_blocks(all, c, i as int) == Ok::<Seq<BlockModel>, PackError>(views(blocks@)),
        decreases recs@.len() - i,
    {
        let ghost done = views(blocks@);
        match decode_block_record(
            recs[i].bytes.as_slice(),
            i,
            min_timestamp,
            min_height,
            addresses,
            difficulties,
            pos_from,
        ) {
            Ok(block) => {
                blocks.push(block);
                proof {
                    assert(views(blocks@) =~= done.push(block@));
                }
            },
            Err(e) => {
                proof {
                    lemma_bare_fault(all, c, i + 1, all.len() as int);
                }
                return Err(e);
            },
        }
        i += 1;
    }
    Ok(blocks)
}

/// Every block up to a pivot block has that as its next.
proof fn lemma_pivot_of_group(blocks: Seq<BlockModel>, start: int, pivot: int, i: int)
    requires
        0 <= start <= i <= pivot,
        next_pivot(blocks, start) == Some(pivot),
    ensures
        next_pivot(blocks, i) == Some(pivot),
    decreases i - start,
{
    lemma_next_pivot(blocks, start);
    if i > start {
        assert(!flag(blocks[start].flags, FLAG_PIVOT));
        lemma_pivot_of_group(blocks, start + 1, pivot, i);
    }
}

/// There is a pivot block ahead of every block exactly where the last is one.
proof fn lemma_last_pivot(blocks: Seq<BlockModel>, i: int)
    requires
        0 <= i < blocks.len(),
    ensures
        flag(blocks.last().flags, FLAG_PIVOT) ==> next_pivot(blocks, i) is Some,
        next_pivot(blocks, i) is None ==> !flag(blocks.last().flags, FLAG_PIVOT),
    decreases blocks.len() - i,
{
    if !flag(blocks[i].flags, FLAG_PIVOT) && i + 1 < blocks.len() {
        lemma_last_pivot(blocks, i + 1);
    }
}

/// Gives every block its epoch.
fn assign_epoch_from_pivots(blocks: &mut Vec<Block>) -> (r: Result<(), PackError>)
    ensures
        final(blocks)@.len() == old(blocks)@.len(),
        match r {
            Ok(_) => with_epochs(views(old(blocks)@)) == Ok::<Seq<BlockModel>, PackError>(
                views(final(blocks)@),
            ),
            Err(e) => with_epochs(views(old(blocks)@)) == Err::<Seq<BlockModel>, PackError>(e),
        },
{
    let ghost bare = views(blocks@);
    let n: usize = blocks.len();
    let mut start: usize = 0;
    while start < n
        invariant
            start <= n,
            n == blocks@.len(),
            n == bare.len(),
            bare == views(old(blocks)@),
            start > 0 ==> flag(bare[start - 1].flags, FLAG_PIVOT),
            forall|i: int|
                0 <= i < start ==> views(blocks@)[i] == (BlockModel {
                    epoch: bare[next_pivot(bare, i)->0].height,
                    ..#[trigger] bare[i]
                }),
            forall|i: int| start <= i < n ==> views(blocks@)[i] == #[trigger] bare[i],
        decreases n - start,
    {
        proof {
            lemma_same_pivots(bare, views(blocks@), start as int);
        }
        let pivot: usize = match find_pivot(blocks, start) {
            Some(j) => j,
            None => {
                proof {
                    lemma_last_pivot(bare, start as int);
                }
                return Err(PackError::NoFinalPivot);
            },
        };
        let epoch: u64 = blocks[pivot].height;
        proof {
            lemma_next_pivot(bare, start as int);
            assert(bare[pivot as int] == views(blocks@)[pivot as int]);
        }
        let mut i: usize = start;
        while i <= pivot
            invariant
                start <= i <= pivot + 1,
                pivot < n,
                n == blocks@.len(),
                n == bare.len(),
                next_pivot(bare, start as int) == Some(pivot as int),
                epoch == bare[pivot as int].height,
                forall|k: int|
                    0 <= k < i ==> views(blocks@)[k] == (BlockModel {
                        epoch: bare[next_pivot(bare, k)->0].height,
                        ..#[trigger] bare[k]
                    }),
                forall|k: int| i <= k < n ==> views(blocks@)[k] == #[trigger] bare[k],
            decreases pivot + 1 - i,
        {
            proof {
                lemma_pivot_of_group(bare, start as int, pivot as int, i as int);
                assert(views(blocks@)[i as int] == bare[i as int]);
            }
            let ghost before = blocks@;
            let block: &mut Block = &mut blocks[i];
            block.epoch = epoch;
            proof {
                assert(blocks@[i as int]@ == (BlockModel { epoch, ..before[i as int]@ }));
                assert forall|k: int| 0 <= k < n && k != i implies blocks@[k] == before[k] by {}
                assert forall|k: int| 0 <= k < i + 1 implies views(blocks@)[k] == (BlockModel {
                    epoch: bare[next_pivot(bare, k)->0].height,
                    ..#[trigger] bare[k]
                }) by {
                    if k < i {
                        assert(views(before)[k] == views(blocks@)[k]);
                    }
                }
                assert forall|k: int| i + 1 <= k < n implies views(blocks@)[k]
                    == #[trigger] bare[k] by {
                    assert(views(before)[k] == views(blocks@)[k]);
                }
            }
            i += 1;
        }
        start = pivot + 1;
    }
    proof {
        assert(views(blocks@) =~= Seq::new(
            bare.len(),
            |i: int| BlockModel { epoch: bare[next_pivot(bare, i)->0].height, ..bare[i] },
        ));
    }
    Ok(())
}

/// Blocks that are equal from `start` on have the same pivot blocks there.
proof fn lemma_same_pivots(a: Seq<BlockModel>, b: Seq<BlockModel>, start: int)
    requires
        a.len() == b.len(),
        0 <= start,
        forall|i: int| start <= i < a.len() ==> b[i] == #[trigger] a[i],
    ensures
        next_pivot(a, start) == next_pivot(b, start),
    decreases a.len() - start,
{
    if start < a.len() {
        assert(b[start] == a[start]);
        lemma_same_pivots(a, b, start + 1);
    }
}

/// Gives every block what its payload holds.
fn load_blocks(
    data: &[u8],
    tx_segment_offset: usize,
    recs: &Vec<DecodedRecord>,
    t: &TxTables<'_>,
    blocks: &mut Vec<Block>,
) -> (r: Result<(), PackError>)
    requires
        tx_segment_offset <= data@.len(),
        tx_segment_offset == offset_of(data@, 7),
        recs@.len() == old(blocks)@.len(),
    ensures
        ({
            let want = loaded_blocks(
                data@,
                views(old(blocks)@),
                views(recs@),
                t.context(),
                old(blocks)@.len() as int,
            );
            match r {
                Ok(_) => want == Ok::<Seq<BlockModel>, PackError>(views(final(blocks)@)),
                Err(e) => want == Err::<Seq<BlockModel>, PackError>(e),
            }
        }),
{
    let ghost bare = views(blocks@);
    let ghost all = views(recs@);
    let ghost c = t.context();
    let n: usize = blocks.len();
    let mut i: usize = 0;
    while i < n
        invariant
            i <= n,
            n == blocks@.len(),
            n == recs@.len(),
            tx_segment_offset <= data@.len(),
            tx_segment_offset == offset_of(data@, 7),
            bare == views(old(blocks)@),
            n == bare.len(),
            all == views(recs@),
            c == t.context(),
            loaded_blocks(data@, bare, all, c, i as int) == Ok::<Seq<BlockModel>, PackError>(
                views(blocks@),
            ),
        decreases n - i,
    {
        let ghost done = views(blocks@);
        if has_flag(blocks[i].flags, FLAG_HAS_TRANSACTIONS) {
            match decode_tx_payload(
                data,
                tx_segment_offset,
                recs[i].tx_offset_units,
                blocks[i].flags,
                blocks[i].epoch,
                t,
                blocks,
                i,
            ) {
                Ok(load) => {
                    let ghost before = blocks@;
                    let ghost l = load@;
                    let block: &mut Block = &mut blocks[i];
                    block.transactions = load.transactions;
                    block.transaction_refs = load.refs;
                    block.pos_rewards = load.pos_rewards;
                    block.unlock_events = load.unlock_events;
                    proof {
                        assert(blocks@[i as int]@ == with_load(before[i as int]@, l));
                        assert(views(blocks@) =~= done.update(
                            i as int,
                            with_load(done[i as int], l),
                        ));
                    }
                },
                Err(e) => {
                    proof {
                        lemma_loaded_fault(data@, bare, all, c, i + 1, n as int);
                    }
                    return Err(e);
                },
            }
        }
        i += 1;
    }
    Ok(())
}

/// The 64-bit number at `at`.
pub fn number_at(data: &[u8], at: usize) -> (r: u64)
    requires
        at + 8 <= data@.len(),
    ensures
        r == le_value(data@.subrange(at as int, at + 8)),
{
    match read_u64_le(data, at) {
        Ok(v) => v,
        Err(_) => 0,
    }
}

/// Reads a packet in which blocks from the height `pos_from` on have a PoS view.
fn decode_with(data: &[u8], pos_from: Option<u64>) -> (r: Result<Packet, PackError>)
    ensures
        match r {
            Ok(p) => decoded(data@, pos_from) == Ok::<PacketModel, PackError>(p@),
            Err(e) => decoded(data@, pos_from) == Err::<PacketModel, PackError>(e),
        },
{
    let offs = match read_offsets(data) {
        Ok(offs) => offs,
        Err(e) => {
            return Err(e);
        },
    };
    proof {
        assert(offs@[0] <= offs@[1] && offs@[1] <= offs@[2] && offs@[2] <= offs@[3] && offs@[3]
            <= offs@[4] && offs@[4] <= offs@[5] && offs@[5] <= offs@[6] && offs@[6] <= offs@[7]
            && offs@[7] <= data@.len());
    }
    let prev_last_hash = H256::from_slice(&data[0..32]);
    let prev_last_deferred_state_root = H256::from_slice(&data[32..64]);
    let first_block_number: u64 = number_at(data, 64);
    let min_timestamp: u64 = number_at(data, 72);
    let min_height: u64 = number_at(data, 80);
    let min_pos_height: u64 = match read_u32_le(data, 88) {
        Ok(v) => v as u64,
        Err(e) => {
            return Err(e);
        },
    };
    let size: usize = data[92] as usize;
    let addresses = match decode_addresses(&data[offs[0]..offs[1]]) {
        Ok(v) => v,
        Err(e) => {
            return Err(e);
        },
    };
    let pos_entries = match decode_pos_entries(&data[offs[1]..offs[2]]) {
        Ok(v) => v,
        Err(e) => {
            return Err(e);
        },
    };
    let difficulties = match decode_u256_table(&data[offs[2]..offs[3]]) {
        Ok(v) => v,
        Err(e) => {
            return Err(e);
        },
    };
    let sender_base_nonces = match decode_sender_base_nonces(&data[offs[3]..offs[4]]) {
        Ok(v) => v,
        Err(e) => {
            return Err(e);
        },
    };
    let gas_prices = match decode_u256_table(&data[offs[4]..offs[5]]) {
        Ok(v) => v,
        Err(e) => {
            return Err(e);
        },
    };
    let recs = match decode_block_records(data, offs[5], offs[6], offs[7], size) {
        Ok(v) => v,
        Err(e) => {
            return Err(e);
        },
    };
    let mut blocks = match decode_bare_blocks(
        &recs,
        min_timestamp,
        min_height,
        &addresses,
        &difficulties,
        pos_from,
    ) {
        Ok(v) => v,
        Err(e) => {
            return Err(e);
        },
    };
    match assign_epoch_from_pivots(&mut blocks) {
        Ok(_) => {},
        Err(e) => {
            return Err(e);
        },
    }
    let t = TxTables {
        addresses: &addresses,
        gas_prices: &gas_prices,
        sender_base_nonces: &sender_base_nonces,
    };
    match load_blocks(data, offs[7], &recs, &t, &mut blocks) {
        Ok(_) => {},
        Err(e) => {
            return Err(e);
        },
    }
    proof {
        assert(prev_last_hash@ =~= data@.take(32));
    }
    Ok(
        Packet {
            prev_last_hash,
            prev_last_deferred_state_root,
            first_block_number,
            min_timestamp,
            min_height,
            min_pos_height,
            addresses,
            pos_entries,
            difficulties,
            sender_base_nonces,
            gas_prices,
            blocks,
        },
    )
}

/// Reads a packet whose blocks have no PoS views.
pub fn decode_packet(data: &[u8]) -> (r: Result<Packet, PackError>)
    ensures
        match r {
            Ok(p) => decoded(data@, None) == Ok::<PacketModel, PackError>(p@),
            Err(e) => decoded(data@, None) == Err::<PacketModel, PackError>(e),
        },
{
    decode_with(data, None)
}

/// Reads a packet in which blocks from the height `pos_reference_enable_height` on
/// have a PoS view.
pub fn decode_packet_ext(data: &[u8], pos_reference_enable_height: u64) -> (r: Result<
    Packet,
    PackError,
>)
    ensures
        match r {
            Ok(p) => decoded(data@, Some(pos_reference_enable_height)) == Ok::<
                PacketModel,
                PackError,
            >(p@),
            Err(e) => decoded(data@, Some(pos_reference_enable_height)) == Err::<
                PacketModel,
                PackError,
            >(e),
        },
{
    decode_with(data, Some(pos_reference_enable_height))
}

/// The place of the flags byte and the hash of each of the first `n` blocks.
pub open spec fn flag_sites(data: Seq<u8>, n: nat) -> Seq<(nat, Seq<u8>)> {
    let body = offset_of(data, 6) as int;
    let size = data[92] as int;
    Seq::new(
        n,
        |i: int|
            ((body + i * size + 44) as nat, data.subrange(body + i * size, body + i * size + 32)),
    )
}

/// The places of the flags of all blocks of a packet, with their hashes.
pub open spec fn sites_of(data: Seq<u8>) -> Result<Seq<(nat, Seq<u8>)>, PackError> {
    match header_fault(data) {
        Some(e) => Err(e),
        None => match le_at(data, offset_of(data, 5) as int, 4) {
            Err(e) => Err(e),
            Ok(count) => if offset_of(data, 6) + count * data[92] > offset_of(data, 7) {
                Err(PackError::BlockArea)
            } else {
                Ok(flag_sites(data, count))
            },
        },
    }
}

/// The places of the flags of all blocks of a packet, with their hashes. Both stand
/// in the prefixes of the records, so that nothing else is read.
pub fn block_flag_sites(data: &[u8]) -> (r: Result<Vec<(usize, H256)>, PackError>)
    ensures
        match r {
            Ok(sites) => sites_of(data@) == Ok::<Seq<(nat, Seq<u8>)>, PackError>(
                Seq::new(sites@.len(), |i: int| (sites@[i].0 as nat, sites@[i].1@)),
            ) && forall|i: int|
                0 <= i < sites@.len() ==> (#[trigger] sites@[i]).0 < data@.len(),
            Err(e) => sites_of(data@) == Err::<Seq<(nat, Seq<u8>)>, PackError>(e),
        },
{
    let offs = match read_offsets(data) {
        Ok(offs) => offs,
        Err(e) => {
            return Err(e);
        },
    };
    proof {
        assert(offs@[5] <= offs@[6] && offs@[6] <= offs@[7] && offs@[7] <= data@.len());
    }
    let size: usize = data[92] as usize;
    let block_count: u32 = match read_u32_le(data, offs[5]) {
        Ok(v) => v,
        Err(e) => {
            return Err(e);
        },
    };
    proof {
        assert(block_count as u64 * size as u64 <= 0xffff_ffff * 255) by (nonlinear_arith)
            requires
                block_count <= 0xffff_ffff,
                size <= 255,
        ;
    }
    let total: u64 = block_count as u64 * size as u64;
    let body: usize = offs[6];
    let end: usize = offs[7];
    if total > (end - body) as u64 {
        return Err(PackError::BlockArea);
    }
    let count: usize = block_count as usize;
    let ghost all = flag_sites(data@, count as nat);
    let mut sites: Vec<(usize, H256)> = Vec::new();
    let mut at: usize = body;
    let mut i: usize = 0;
    while i < count
        invariant
            i <= count,
            64 <= size <= 96,
            size == data@[92],
            body == offset_of(data@, 6),
            body + count * size <= data@.len(),
            at == body + i * size,
            all == flag_sites(data@, count as nat),
            sites@.len() == i,
            forall|k: int|
                0 <= k < i ==> (#[trigger] sites@[k]).0 as nat == all[k].0 && sites@[k].1@
                    == all[k].1 && sites@[k].0 < data@.len(),
        decreases count - i,
    {
        proof {
            assert((i + 1) * size == i * size + size) by (nonlinear_arith);
            assert((i + 1) * size <= count * size) by (nonlinear_arith)
                requires
                    i + 1 <= count,
            ;
            assert(at + size <= data.len());
        }
        let hash = H256::from_slice(&data[at..at + 32]);
        sites.push((at + 44, hash));
        at = at + size;
        i += 1;
    }
    proof {
        assert(Seq::new(sites@.len(), |i: int| (sites@[i].0 as nat, sites@[i].1@)) =~= all);
    }
    Ok(sites)
}

} // verus!
