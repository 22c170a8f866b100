//! The replay plan of a packet: what a replay will execute, and whether the blocks
//! can be executed in the order in which they stand.
use crate::bytemap::ByteMap;
use crate::bytes::to_vec;
use crate::cfxpack::decode::{decode_packet, decoded};
use crate::cfxpack::encode::{encoded, find_pivot, flag, group_fault, groups_fault, has_flag, lemma_next_pivot, next_pivot, packet_restorable, payloads};
use crate::cfxpack::error::PackError;
use crate::cfxpack::packet::{views, Block, BlockModel, Packet, PacketModel, TxKind, TxModel, FLAG_HAS_TRANSACTIONS, FLAG_RESERVED};
use crate::cfxpack::roundtrip::{kept_block, kept_packet, law_packet_roundtrip, lemma_kept_frame, readable, true_refs};
use crate::cfxpack::verify::{law_written_verifies, lemma_kept_txs, total_txs, verified, verify_packet, VerifyReport};
use crate::plan_law::{law_plan_counts, lemma_written_spaces};
use vstd::prelude::*;

verus! {

/// Why a packet cannot be replayed.
#[derive(Clone, Copy, Debug, PartialEq, Eq, Structural)]
pub enum ReplayError {
    Packet(PackError),
    NoBlocks,
    BlockCount,
    NoPivot,
    PivotEpoch,
    BlockIndex,
    ReservedFlag,
    BlockEpoch,
    TransactionFlag,
    BlockNumberRange,
    TransactionCount,
}

/// What a replay of a packet will execute.
#[derive(Clone, Copy, Debug, PartialEq, Eq, Structural)]
pub struct ReplayReport {
    pub packet_bytes: usize,
    pub epoch_count: usize,
    pub block_count: usize,
    pub transaction_count: usize,
    pub duplicate_transaction_count: usize,
    pub native_transaction_count: usize,
    pub espace_transaction_count: usize,
    pub first_block_number: u64,
    pub last_block_number: u64,
}

pub type ReplayValidationReport = ReplayReport;

/// What is wrong with the blocks `i` to `last` of an epoch, if anything.
pub open spec fn plan_fault(blocks: Seq<BlockModel>, i: int, last: int, epoch: u64) -> Option<
    ReplayError,
>
    decreases last - i + 1,
{
    if i > last {
        None
    } else if blocks[i].index != i {
        Some(ReplayError::BlockIndex)
    } else if flag(blocks[i].flags, FLAG_RESERVED) {
        Some(ReplayError::ReservedFlag)
    } else if blocks[i].epoch != epoch {
        Some(ReplayError::BlockEpoch)
    } else if !flag(blocks[i].flags, FLAG_HAS_TRANSACTIONS) && blocks[i].txs.len() > 0 {
        Some(ReplayError::TransactionFlag)
    } else {
        plan_fault(blocks, i + 1, last, epoch)
    }
}

/// One epoch more.
pub open spec fn one_more(n: nat, rest: Result<nat, ReplayError>) -> Result<nat, ReplayError> {
    match rest {
        Err(e) => Err(e),
        Ok(m) => Ok(n + m),
    }
}

/// The number of epochs from block `i` on. An epoch ends with its pivot block, whose
/// height is the epoch's number.
pub open spec fn plan_epochs(blocks: Seq<BlockModel>, i: int) -> Result<nat, ReplayError>
    decreases blocks.len() - i,
{
    if i < 0 || i >= blocks.len() {
        Ok(0)
    } else {
        match next_pivot(blocks, i) {
            None => Err(ReplayError::NoPivot),
            Some(last) => if !(i <= last < blocks.len()) {
                Err(ReplayError::NoPivot)
            } else if blocks[last].epoch != blocks[last].height {
                Err(ReplayError::PivotEpoch)
            } else {
                match plan_fault(blocks, i, last, blocks[last].height) {
                    Some(e) => Err(e),
                    None => one_more(1, plan_epochs(blocks, last + 1)),
                }
            },
        }
    }
}

/// The transactions of the first `n` blocks.
pub open spec fn all_txs(blocks: Seq<BlockModel>, n: int) -> Seq<TxModel>
    decreases n,
{
    if n <= 0 {
        Seq::empty()
    } else {
        all_txs(blocks, n - 1) + blocks[n - 1].txs
    }
}

/// The number of transactions of the native space.
pub open spec fn native_count(txs: Seq<TxModel>) -> nat
    decreases txs.len(),
{
    if txs.len() == 0 {
        0
    } else {
        native_count(txs.drop_last()) + if txs.last().kind.is_native() {
            1nat
        } else {
            0
        }
    }
}

/// Whether one of the transactions has the given identity.
pub open spec fn has_identity(txs: Seq<TxModel>, identity: Seq<u8>) -> bool {
    exists|k: int| 0 <= k < txs.len() && #[trigger] txs[k].identity == identity
}

/// The number of transactions whose identity an earlier one has.
pub open spec fn duplicate_count(txs: Seq<TxModel>) -> nat
    decreases txs.len(),
{
    if txs.len() == 0 {
        0
    } else {
        duplicate_count(txs.drop_last()) + if has_identity(txs.drop_last(), txs.last().identity) {
            1nat
        } else {
            0
        }
    }
}

/// The replay plan of a packet that was checked, or why there is none.
pub open spec fn replay_plan(p: PacketModel, v: VerifyReport) -> Result<ReplayReport, ReplayError> {
    let txs = all_txs(p.blocks, p.blocks.len() as int);
    if p.blocks.len() == 0 {
        Err(ReplayError::NoBlocks)
    } else if p.blocks.len() != v.block_count {
        Err(ReplayError::BlockCount)
    } else {
        match plan_epochs(p.blocks, 0) {
            Err(e) => Err(e),
            Ok(epochs) => if p.first_block_number + p.blocks.len() > u64::MAX {
                Err(ReplayError::BlockNumberRange)
            } else if txs.len() != v.transaction_items || txs.len() > usize::MAX {
                Err(ReplayError::TransactionCount)
            } else {
                Ok(
                    ReplayReport {
                        packet_bytes: v.packet_bytes,
                        epoch_count: epochs as usize,
                        block_count: p.blocks.len() as usize,
                        transaction_count: txs.len() as usize,
                        duplicate_transaction_count: duplicate_count(txs) as usize,
                        native_transaction_count: native_count(txs) as usize,
                        espace_transaction_count: (txs.len() - native_count(txs)) as usize,
                        first_block_number: p.first_block_number,
                        last_block_number: (p.first_block_number + p.blocks.len() - 1) as u64,
                    },
                )
            },
        }
    }
}

/// The replay plan of the bytes of a packet.
pub open spec fn packet_plan(data: Seq<u8>) -> Result<ReplayReport, ReplayError> {
    match verified(data) {
        Err(e) => Err(ReplayError::Packet(e)),
        Ok(v) => match decoded(data, None) {
            Err(e) => Err(ReplayError::Packet(e)),
            Ok(p) => replay_plan(p, v),
        },
    }
}

/// Checks the blocks `start` to `last` of an epoch.
fn check_epoch(blocks: &Vec<Block>, start: usize, last: usize, epoch: u64) -> (r: Option<
    ReplayError,
>)
    requires
        start <= last < blocks@.len(),
    ensures
        r == plan_fault(views(blocks@), start as int, last as int, epoch),
{
    let ghost all = views(blocks@);
    let mut i: usize = start;
    while i <= last
        invariant
            start <= i <= last + 1,
            last < blocks@.len(),
            all == views(blocks@),
            plan_fault(all, start as int, last as int, epoch) == plan_fault(
                all,
                i as int,
                last as int,
                epoch,
            ),
        decreases last + 1 - i,
    {
        assert(last < blocks.len());
        let block: &Block = &blocks[i];
        if block.index != i {
            return Some(ReplayError::BlockIndex);
        }
        if has_flag(block.flags, FLAG_RESERVED) {
            return Some(ReplayError::ReservedFlag);
        }
        if block.epoch != epoch {
            return Some(ReplayError::BlockEpoch);
        }
        if !has_flag(block.flags, FLAG_HAS_TRANSACTIONS) && block.transactions.len() > 0 {
            return Some(ReplayError::TransactionFlag);
        }
        i += 1;
    }
    None
}

/// Checks the epochs and counts them.
fn count_epochs(blocks: &Vec<Block>) -> (r: Result<usize, ReplayError>)
    ensures
        match r {
            Ok(n) => plan_epochs(views(blocks@), 0) == Ok::<nat, ReplayError>(n as nat),
            Err(e) => plan_epochs(views(blocks@), 0) == Err::<nat, ReplayError>(e),
        },
{
    let ghost all = views(blocks@);
    let mut epoch_count: usize = 0;
    let mut group_start: usize = 0;
    while group_start < blocks.len()
        invariant
            group_start <= blocks@.len(),
            epoch_count <= group_start,
            all == views(blocks@),
            plan_epochs(all, 0) == one_more(
                epoch_count as nat,
                plan_epochs(all, group_start as int),
            ),
        decreases blocks@.len() - group_start,
    {
        proof {
            lemma_next_pivot(all, group_start as int);
        }
        let pivot_index: usize = match find_pivot(blocks, group_start) {
            Some(i) => i,
            None => {
                return Err(ReplayError::NoPivot);
            },
        };
        let epoch: u64 = blocks[pivot_index].height;
        if blocks[pivot_index].epoch != epoch {
            return Err(ReplayError::PivotEpoch);
        }
        match check_epoch(blocks, group_start, pivot_index, epoch) {
            Some(e) => {
                return Err(e);
            },
            None => {},
        }
        epoch_count += 1;
        group_start = pivot_index + 1;
    }
    Ok(epoch_count)
}

/// What the transactions of a packet are.
struct TxCounts {
    total: u128,
    native: u128,
    duplicate: u128,
}

/// Adds the transactions of one block to the counts.
fn validate_block_transactions(
    block: &Block,
    counts: &mut TxCounts,
    seen: &mut ByteMap<usize>,
    Ghost(before): Ghost<Seq<TxModel>>,
)
    requires
        old(counts).total == before.len(),
        old(counts).native == native_count(before) <= before.len(),
        old(counts).duplicate == duplicate_count(before) <= before.len(),
        old(counts).total + block.transactions@.len() <= u128::MAX,
        old(seen).wf(),
        forall|h: Seq<u8>| old(seen)@.contains_key(h) <==> has_identity(before, h),
    ensures
        ({
            let after = before + block@.txs;
            &&& final(counts).total == after.len()
            &&& final(counts).native == native_count(after) <= after.len()
            &&& final(counts).duplicate == duplicate_count(after) <= after.len()
            &&& final(seen).wf()
            &&& forall|h: Seq<u8>| final(seen)@.contains_key(h) <==> has_identity(after, h)
        }),
{
    let ghost txs = block@.txs;
    let mut j: usize = 0;
    proof {
        assert(before + txs.take(0) =~= before);
    }
    while j < block.transactions.len()
        invariant
            j <= block.transactions@.len(),
            txs == block@.txs,
            txs.len() == block.transactions@.len(),
            before.len() + block.transactions@.len() <= u128::MAX,
            counts.total == before.len() + j,
            counts.native == native_count(before + txs.take(j as int)) <= before.len() + j,
            counts.duplicate == duplicate_count(before + txs.take(j as int)) <= before.len() + j,
            seen.wf(),
            forall|h: Seq<u8>|
                seen@.contains_key(h) <==> has_identity(before + txs.take(j as int), h),
        decreases block.transactions@.len() - j,
    {
        let ghost flat = before + txs.take(j as int);
        let ghost next = before + txs.take(j + 1);
        let ghost tx = txs[j as int];
        proof {
            assert(next =~= flat.push(tx));
            assert(next.drop_last() =~= flat);
            assert(tx == block.transactions@[j as int]@);
        }
        let identity = block.transactions[j].identity;
        counts.total = counts.total + 1;
        if block.transactions[j].kind.native() {
            counts.native = counts.native + 1;
        }
        if seen.contains_key(identity.as_bytes().as_slice()) {
            counts.duplicate = counts.duplicate + 1;
        }
        let ghost known = seen@;
        seen.insert(to_vec(identity.as_bytes().as_slice()), block.index);
        proof {
            assert forall|h: Seq<u8>| seen@.contains_key(h) <==> has_identity(next, h) by {
                if has_identity(flat, h) {
                    let k = choose|k: int| 0 <= k < flat.len() && #[trigger] flat[k].identity == h;
                    assert(next[k].identity == h);
                }
                if h == tx.identity {
                    assert(next[flat.len() as int].identity == h);
                }
                if has_identity(next, h) {
                    let k = choose|k: int| 0 <= k < next.len() && #[trigger] next[k].identity == h;
                    if k < flat.len() {
                        assert(flat[k].identity == h);
                    }
                }
            }
        }
        j += 1;
    }
    proof {
        assert(txs.take(j as int) =~= txs);
    }
}

proof fn lemma_all_txs(blocks: Seq<BlockModel>, n: int)
    requires
        0 <= n <= blocks.len(),
        forall|i: int| 0 <= i < blocks.len() ==> (#[trigger] blocks[i]).txs.len() <= u64::MAX,
    ensures
        all_txs(blocks, n).len() <= n * u64::MAX,
    decreases n,
{
    if n > 0 {
        lemma_all_txs(blocks, n - 1);
        assert(blocks[n - 1].txs.len() <= u64::MAX);
        assert(n * u64::MAX == (n - 1) * u64::MAX + u64::MAX) by (nonlinear_arith);
    }
}

/// Counts the transactions of all blocks.
fn count_transactions(blocks: &Vec<Block>) -> (r: TxCounts)
    ensures
        ({
            let txs = all_txs(views(blocks@), blocks@.len() as int);
            &&& r.total == txs.len()
            &&& r.native == native_count(txs) <= txs.len()
            &&& r.duplicate == duplicate_count(txs) <= txs.len()
        }),
{
    let ghost all = views(blocks@);
    let mut counts = TxCounts { total: 0, native: 0, duplicate: 0 };
    let mut seen: ByteMap<usize> = ByteMap::new();
    let mut i: usize = 0;
    while i < blocks.len()
        invariant
            i <= blocks@.len(),
            all == views(blocks@),
            counts.total == all_txs(all, i as int).len(),
            counts.native == native_count(all_txs(all, i as int)) <= counts.total,
            counts.duplicate == duplicate_count(all_txs(all, i as int)) <= counts.total,
            seen.wf(),
            forall|h: Seq<u8>|
                seen@.contains_key(h) <==> has_identity(all_txs(all, i as int), h),
        decreases blocks@.len() - i,
    {
        proof {
            assert forall|k: int| 0 <= k < all.len() implies (#[trigger] all[k]).txs.len()
                <= u64::MAX by {
                assert(blocks@[k].transactions.len() <= u64::MAX);
                assert(all[k].txs.len() == blocks@[k].transactions.len());
            }
            lemma_all_txs(all, i as int);
            assert(i * u64::MAX <= (u64::MAX - 1) * u64::MAX) by (nonlinear_arith)
                requires
                    i <= u64::MAX - 1,
            ;
            assert(all[i as int].txs.len() <= u64::MAX);
        }
        validate_block_transactions(
            &blocks[i],
            &mut counts,
            &mut seen,
            Ghost(all_txs(all, i as int)),
        );
        i += 1;
    }
    counts
}

/// The replay plan of a decoded packet that was checked.
pub fn validate_replay_input(input: &Packet, verify: &VerifyReport) -> (r: Result<
    ReplayReport,
    ReplayError,
>)
    ensures
        r == replay_plan(input@, *verify),
{
    if input.blocks.len() == 0 {
        return Err(ReplayError::NoBlocks);
    }
    if input.blocks.len() as u64 != verify.block_count as u64 {
        return Err(ReplayError::BlockCount);
    }
    let epoch_count: usize = match count_epochs(&input.blocks) {
        Ok(n) => n,
        Err(e) => {
            return Err(e);
        },
    };
    let block_count: usize = input.blocks.len();
    if input.first_block_number > u64::MAX - block_count as u64 {
        return Err(ReplayError::BlockNumberRange);
    }
    let counts = count_transactions(&input.blocks);
    if counts.total != verify.transaction_items as u128 || counts.total > usize::MAX as u128 {
        return Err(ReplayError::TransactionCount);
    }
    Ok(
        ReplayReport {
            packet_bytes: verify.packet_bytes,
            epoch_count,
            block_count,
            transaction_count: counts.total as usize,
            duplicate_transaction_count: counts.duplicate as usize,
            native_transaction_count: counts.native as usize,
            espace_transaction_count: (counts.total - counts.native) as usize,
            first_block_number: input.first_block_number,
            last_block_number: input.first_block_number + block_count as u64 - 1,
        },
    )
}

/// Checks a packet, reads it, and gives its replay plan.
pub fn validate_replay_packet(data: &[u8]) -> (r: Result<ReplayReport, ReplayError>)
    ensures
        r == packet_plan(data@),
{
    let verify = match verify_packet(data) {
        Ok(v) => v,
        Err(e) => {
            return Err(ReplayError::Packet(e));
        },
    };
    match decode_packet(data) {
        Ok(input) => validate_replay_input(&input, &verify),
        Err(e) => Err(ReplayError::Packet(e)),
    }
}

/// Blocks that were written can be replayed when they are read back.
proof fn lemma_kept_plan(p: PacketModel, i: int)
    requires
        0 <= i,
        payloads(p, p.blocks.len() as int) is Ok,
        groups_fault(p.blocks, i) is None,
    ensures
        plan_epochs(kept_packet(p).blocks, i) is Ok,
    decreases p.blocks.len() - i,
{
    let q = kept_packet(p);
    if i < p.blocks.len() {
        lemma_next_pivot(p.blocks, i);
        let last = next_pivot(p.blocks, i)->0;
        lemma_kept_group(p, i, last, p.blocks[last].height);
        lemma_last_epoch(p.blocks, i, last, p.blocks[last].height);
        lemma_kept_pivot(p, i);
        assert(q.blocks[last] == kept_block(p, last));
        lemma_kept_plan(p, last + 1);
    }
}

proof fn lemma_kept_pivot(p: PacketModel, i: int)
    requires
        0 <= i,
        payloads(p, p.blocks.len() as int) is Ok,
    ensures
        next_pivot(kept_packet(p).blocks, i) == next_pivot(p.blocks, i),
    decreases p.blocks.len() - i,
{
    if i < p.blocks.len() {
        lemma_kept_frame(p, i);
        assert(kept_packet(p).blocks[i] == kept_block(p, i));
        lemma_kept_pivot(p, i + 1);
    }
}

proof fn lemma_kept_group(p: PacketModel, i: int, last: int, epoch: u64)
    requires
        0 <= i,
        last < p.blocks.len(),
        payloads(p, p.blocks.len() as int) is Ok,
        group_fault(p.blocks, i, last, epoch) is None,
    ensures
        plan_fault(kept_packet(p).blocks, i, last, epoch) is None,
    decreases last - i + 1,
{
    if i <= last {
        lemma_kept_frame(p, i);
        assert(kept_packet(p).blocks[i] == kept_block(p, i));
        lemma_kept_group(p, i + 1, last, epoch);
    }
}

proof fn lemma_last_epoch(blocks: Seq<BlockModel>, i: int, last: int, epoch: u64)
    requires
        0 <= i <= last < blocks.len(),
        group_fault(blocks, i, last, epoch) is None,
    ensures
        blocks[last].epoch == epoch,
    decreases last - i,
{
    if i < last {
        lemma_last_epoch(blocks, i + 1, last, epoch);
    }
}

proof fn lemma_all_txs_len(blocks: Seq<BlockModel>, n: int)
    ensures
        all_txs(blocks, n).len() == total_txs(blocks, n),
    decreases n,
{
    if n > 0 {
        lemma_all_txs_len(blocks, n - 1);
    }
}

/// The plan of a packet that is read to `q` and checked with the report `v`.
proof fn lemma_plan_of(data: Seq<u8>, q: PacketModel, v: VerifyReport)
    requires
        decoded(data, None) == Ok::<PacketModel, PackError>(q),
        verified(data) == Ok::<VerifyReport, PackError>(v),
    ensures
        packet_plan(data) == replay_plan(q, v),
{
}

/// What the plan of blocks that can be replayed counts.
proof fn lemma_plan_counts(q: PacketModel, v: VerifyReport)
    requires
        q.blocks.len() > 0,
        v.block_count == q.blocks.len(),
        plan_epochs(q.blocks, 0) is Ok,
        q.first_block_number + q.blocks.len() <= u64::MAX,
        v.transaction_items == total_txs(q.blocks, q.blocks.len() as int),
        total_txs(q.blocks, q.blocks.len() as int) <= usize::MAX,
        q.blocks.len() <= usize::MAX,
    ensures
        replay_plan(q, v) matches Ok(plan) && {
            &&& plan.block_count == q.blocks.len()
            &&& plan.transaction_count == total_txs(q.blocks, q.blocks.len() as int)
            &&& plan.first_block_number == q.first_block_number
            &&& plan.last_block_number == q.first_block_number + q.blocks.len() - 1
        },
{
    lemma_all_txs_len(q.blocks, q.blocks.len() as int);
}

/// What checking and reading a packet that was written give.
proof fn lemma_written_facts(p: PacketModel)
    requires
        readable(p, None),
        encoded(p) is Ok,
        packet_restorable(p),
        encoded(p)->Ok_0.len() <= u64::MAX,
        p.blocks.len() <= u32::MAX,
        total_txs(p.blocks, p.blocks.len() as int) <= usize::MAX,
    ensures
        decoded(encoded(p)->Ok_0, None) == Ok::<PacketModel, PackError>(kept_packet(p)),
        verified(encoded(p)->Ok_0) matches Ok(v) && v.block_count == p.blocks.len()
            && v.transaction_items == total_txs(p.blocks, p.blocks.len() as int),
{
    law_packet_roundtrip(p, None);
    law_written_verifies(p, None);
}

/// What is kept of a packet that can be written can be replayed.
proof fn lemma_kept_facts(p: PacketModel)
    requires
        encoded(p) is Ok,
    ensures
        plan_epochs(kept_packet(p).blocks, 0) is Ok,
        kept_packet(p).blocks.len() == p.blocks.len(),
        p.blocks.len() > 0,
        kept_packet(p).first_block_number == p.first_block_number,
        total_txs(kept_packet(p).blocks, p.blocks.len() as int) == total_txs(
            p.blocks,
            p.blocks.len() as int,
        ),
{
    lemma_kept_plan(p, 0);
    lemma_kept_txs(p, p.blocks.len() as int);
}

/// A packet that was written without PoS views has a replay plan, which counts its
/// blocks and its transactions as the check does. The transactions of the native types and
/// those of the eSpace types are counted apart, and as many repeat an earlier one as there
/// are more transactions than identities.
pub proof fn law_written_plan(p: PacketModel)
    requires
        readable(p, None),
        encoded(p) is Ok,
        packet_restorable(p),
        encoded(p)->Ok_0.len() <= u64::MAX,
        p.blocks.len() <= u32::MAX,
        total_txs(p.blocks, p.blocks.len() as int) <= usize::MAX,
        p.first_block_number + p.blocks.len() <= u64::MAX,
    ensures
        packet_plan(encoded(p)->Ok_0) matches Ok(plan) && verified(
            encoded(p)->Ok_0,
        ) matches Ok(report) && {
            &&& plan.block_count == p.blocks.len()
            &&& plan.block_count == report.block_count
            &&& plan.transaction_count == total_txs(p.blocks, p.blocks.len() as int)
            &&& plan.transaction_count == report.transaction_items
            &&& plan.first_block_number == p.first_block_number
            &&& plan.last_block_number == p.first_block_number + p.blocks.len() - 1
            &&& plan.packet_bytes == encoded(p)->Ok_0.len() as usize
        },
        decoded(encoded(p)->Ok_0, None) matches Ok(q) && packet_plan(
            encoded(p)->Ok_0,
        ) matches Ok(plan) && {
            let txs = q.blocks.map_values(|b: BlockModel| b.txs).flatten();
            &&& plan.epoch_count == q.blocks.filter(
                |b: BlockModel| (b.flags as int / 2) % 2 == 1,
            ).len()
            &&& plan.transaction_count == txs.len()
            &&& plan.native_transaction_count == txs.filter(
                |t: TxModel|
                    t.kind == TxKind::Cip155 || t.kind == TxKind::Cip2930 || t.kind
                        == TxKind::Cip1559,
            ).len()
            &&& plan.espace_transaction_count == txs.filter(
                |t: TxModel|
                    t.kind == TxKind::Eip155 || t.kind == TxKind::Eip2930 || t.kind
                        == TxKind::Eip1559 || t.kind == TxKind::Eip7702,
            ).len()
            &&& plan.duplicate_transaction_count + txs.map_values(
                |t: TxModel| t.identity,
            ).to_set().len() == txs.len()
        },
        true_refs(p) ==> (packet_plan(encoded(p)->Ok_0) matches Ok(plan) && {
            let txs = p.blocks.map_values(|b: BlockModel| b.txs).flatten();
            &&& plan.transaction_count == txs.len()
            &&& plan.native_transaction_count == txs.filter(
                |t: TxModel|
                    t.kind == TxKind::Cip155 || t.kind == TxKind::Cip2930 || t.kind
                        == TxKind::Cip1559,
            ).len()
            &&& plan.espace_transaction_count == txs.filter(
                |t: TxModel|
                    t.kind == TxKind::Eip155 || t.kind == TxKind::Eip2930 || t.kind
                        == TxKind::Eip1559 || t.kind == TxKind::Eip7702,
            ).len()
        }),
{
    let data = encoded(p)->Ok_0;
    let q = kept_packet(p);
    lemma_written_facts(p);
    lemma_kept_facts(p);
    let v = verified(data)->Ok_0;
    lemma_plan_of(data, q, v);
    lemma_plan_counts(q, v);
    law_plan_counts(q, v);
    if true_refs(p) {
        lemma_written_spaces(p);
    }
}

} // verus!
