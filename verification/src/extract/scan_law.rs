//! What is read for unlock events, what adding a reward changes, and what is reported.
use crate::cfxpack::packet::{BlockModel, PacketModel, RewardAccountModel, RewardModel};
use crate::cfxpack::verify::VerifyReport;
use crate::extract::blocks::CommittedBlock;
use crate::extract::config::{ExtractConfig, ExtractReport};
use crate::extract::packet::{cursor, reports, scan_for, scans, version_of, PivotRef, PosCursor, UnlockScan};
use crate::extract::reward_patch::{pivot_of, replaced, with_reward};
use vstd::prelude::*;

verus! {

/// Whether `at` tells for each scan which pivot it is for: in order, and the pivot refers to a
/// known PoS block, whose version the scan goes up to.
pub open spec fn scanned_at(
    pivots: Seq<PivotRef>,
    known: Map<Seq<u8>, CommittedBlock>,
    found: Seq<UnlockScan>,
    at: Seq<int>,
    n: int,
) -> bool {
    &&& at.len() == found.len()
    &&& forall|j: int|
        0 <= j < at.len() ==> {
            let p = pivots[#[trigger] at[j]];
            &&& 0 <= at[j] < n
            &&& p.pos_ref matches Some(h) && known.contains_key(h@) && found[j].to_version
                == known[h@].version
            &&& found[j].epoch == p.epoch
        }
    &&& forall|i: int, j: int|
        #![trigger at[i], at[j]]
        0 <= i < j < at.len() ==> at[i] < at[j]
}

/// The events that are read lie between the versions of the PoS blocks that pivots refer to, each
/// once and without a gap: the first scan goes from the version before the range, each other from
/// where the one before it went to, and each goes up to the version that its pivot refers to.
pub proof fn law_scans(
    h0: Seq<u8>,
    v0: u64,
    pivots: Seq<PivotRef>,
    known: Map<Seq<u8>, CommittedBlock>,
    n: int,
)
    requires
        0 <= n <= pivots.len(),
        known.contains_key(h0) && known[h0].version == v0,
        forall|i: int|
            0 <= i < pivots.len() ==> ((#[trigger] pivots[i]).pos_ref matches Some(h)
                ==> known.contains_key(h@)),
    ensures
        ({
            let start = PosCursor { last_ref: Some(h0), last_version: Some(v0) };
            let found = scans(start, pivots, known, n);
            let end = if found.len() == 0 {
                v0
            } else {
                found.last().to_version
            };
            &&& found.len() > 0 ==> found[0].from_version == v0
            &&& forall|j: int|
                0 <= j < found.len() - 1 ==> found[j + 1].from_version == (
                #[trigger] found[j]).to_version
            &&& exists|at: Seq<int>| scanned_at(pivots, known, found, at, n)
            &&& n > 0 && pivots[n - 1].pos_ref is Some ==> end == known[(
            pivots[n - 1].pos_ref->0)@].version
            &&& cursor(start, pivots, known, n).last_version == Some(end)
        }),
    decreases n,
{
    let start = PosCursor { last_ref: Some(h0), last_version: Some(v0) };
    let found = scans(start, pivots, known, n);
    if n > 0 {
        law_scans(h0, v0, pivots, known, n - 1);
        let done = scans(start, pivots, known, n - 1);
        let before = cursor(start, pivots, known, n - 1);
        let p = pivots[n - 1];
        let m = n - 1;
        let at = choose|at: Seq<int>| scanned_at(pivots, known, done, at, m);
        lemma_last_ref(start, h0, v0, pivots, known, n - 1);
        if let Some(s) = scan_for(before, p, known) {
            assert(found == done.push(s));
            let more = at.push(n - 1);
            assert(scanned_at(pivots, known, found, more, n)) by {
                assert forall|j: int| 0 <= j < more.len() implies {
                    let q = pivots[#[trigger] more[j]];
                    &&& 0 <= more[j] < n
                    &&& q.pos_ref matches Some(h) && known.contains_key(h@) && found[j].to_version
                        == known[h@].version
                    &&& found[j].epoch == q.epoch
                } by {
                    if j < at.len() {
                        assert(more[j] == at[j]);
                        assert(found[j] == done[j]);
                    }
                }
                assert forall|i: int, j: int|
                    #![trigger more[i], more[j]]
                    0 <= i < j < more.len() implies more[i] < more[j] by {
                    assert(more[i] == at[i]);
                    if j < at.len() {
                        assert(more[j] == at[j]);
                    }
                }
            }
            assert forall|j: int| 0 <= j < found.len() - 1 implies found[j + 1].from_version == (
            #[trigger] found[j]).to_version by {
                assert(found[j] == done[j]);
                if j + 1 < done.len() {
                    assert(done[j + 1].from_version == done[j].to_version);
                }
            }
        } else {
            assert(found == done);
            assert(scanned_at(pivots, known, found, at, n));
        }
    } else {
        assert(scanned_at(pivots, known, found, Seq::empty(), n));
    }
}

/// Where the cursor has a reference, its version is that of the reference.
proof fn lemma_last_ref(
    start: PosCursor,
    h0: Seq<u8>,
    v0: u64,
    pivots: Seq<PivotRef>,
    known: Map<Seq<u8>, CommittedBlock>,
    n: int,
)
    requires
        start.last_ref == Some(h0),
        start.last_version == Some(v0),
        known.contains_key(h0) && known[h0].version == v0,
    ensures
        cursor(start, pivots, known, n).last_ref matches Some(h) ==> cursor(
            start,
            pivots,
            known,
            n,
        ).last_version == version_of(known, h),
    decreases n,
{
    if n > 0 {
        lemma_last_ref(start, h0, v0, pivots, known, n - 1);
    }
}

/// The pivot block of an epoch is the first block of the epoch whose second flag bit is set.
pub proof fn law_pivot_of(blocks: Seq<BlockModel>, epoch: u64, i: int)
    requires
        0 <= i,
    ensures
        match pivot_of(blocks, epoch, i) {
            Some(k) => {
                &&& i <= k < blocks.len()
                &&& blocks[k].epoch == epoch
                &&& (blocks[k].flags as int / 2) % 2 == 1
                &&& forall|j: int|
                    i <= j < k ==> (#[trigger] blocks[j]).epoch != epoch || (blocks[j].flags as int
                        / 2) % 2 == 0
            },
            None => forall|j: int|
                i <= j < blocks.len() ==> (#[trigger] blocks[j]).epoch != epoch || (
                blocks[j].flags as int / 2) % 2 == 0,
        },
    decreases blocks.len() - i,
{
    if i < blocks.len() && !(blocks[i].epoch == epoch && (blocks[i].flags as int / 2) % 2 == 1) {
        law_pivot_of(blocks, epoch, i + 1);
    }
}

/// Adding a reward puts one more behind those of the pivot block of the epoch, with the hash of
/// that block, and changes nothing else. Where the packet has no such block, nothing changes.
pub proof fn law_with_reward(
    p: PacketModel,
    epoch: u64,
    accounts: Seq<RewardAccountModel>,
    k: int,
)
    requires
        0 <= k < p.blocks.len(),
        p.blocks[k].epoch == epoch,
        (p.blocks[k].flags as int / 2) % 2 == 1,
        forall|j: int|
            0 <= j < k ==> (#[trigger] p.blocks[j]).epoch != epoch || (p.blocks[j].flags as int / 2)
                % 2 == 0,
    ensures
        ({
            let q = with_reward(p, epoch, accounts);
            let (a, b) = (p.blocks[k], q.blocks[k]);
            &&& q.blocks.len() == p.blocks.len()
            &&& forall|j: int|
                0 <= j < p.blocks.len() && j != k ==> #[trigger] q.blocks[j] == p.blocks[j]
            &&& b.rewards == a.rewards.push(RewardModel { accounts, epoch_hash: a.hash })
            &&& b == (BlockModel { rewards: b.rewards, ..a })
            &&& q == (PacketModel { blocks: q.blocks, ..p })
        }),
{
    law_pivot_of(p.blocks, epoch, 0);
    let q = with_reward(p, epoch, accounts);
    match pivot_of(p.blocks, epoch, 0) {
        Some(i) => {
            if i < k {
                assert(p.blocks[i].epoch != epoch || (p.blocks[i].flags as int / 2) % 2 == 0);
            }
            if k < i {
                assert(p.blocks[k].epoch != epoch || (p.blocks[k].flags as int / 2) % 2 == 0);
            }
        },
        None => {
            assert(p.blocks[k].epoch != epoch || (p.blocks[k].flags as int / 2) % 2 == 0);
        },
    }
}

/// A packet without a pivot block of the epoch is left as it is.
pub proof fn law_without_pivot(p: PacketModel, epoch: u64, accounts: Seq<RewardAccountModel>)
    requires
        forall|j: int|
            0 <= j < p.blocks.len() ==> (#[trigger] p.blocks[j]).epoch != epoch || (
            p.blocks[j].flags as int / 2) % 2 == 0,
    ensures
        with_reward(p, epoch, accounts) == p,
{
    law_pivot_of(p.blocks, epoch, 0);
    if let Some(i) = pivot_of(p.blocks, epoch, 0) {
        assert(p.blocks[i].epoch != epoch || (p.blocks[i].flags as int / 2) % 2 == 0);
    }
}

/// Bytes that are put in the place of others stand there, and all others stay.
pub proof fn law_replaced(data: Seq<u8>, at: int, bytes: Seq<u8>)
    requires
        0 <= at,
        at + bytes.len() <= data.len(),
    ensures
        replaced(data, at, bytes).len() == data.len(),
        replaced(data, at, bytes).subrange(at, at + bytes.len()) == bytes,
        forall|i: int|
            0 <= i < data.len() && !(at <= i < at + bytes.len()) ==> #[trigger] replaced(
                data,
                at,
                bytes,
            )[i] == data[i],
{
    assert(replaced(data, at, bytes).subrange(at, at + bytes.len()) =~= bytes);
}

/// A report tells the epochs that were asked for, the blocks and transactions that the check
/// found, and the length of the packet. Neither a place nor a time is told yet.
pub proof fn law_reports(r: ExtractReport, config: ExtractConfig, bytes: Seq<u8>, v: VerifyReport)
    requires
        reports(r, config, bytes, v),
        v.transaction_items <= usize::MAX,
    ensures
        r.start_epoch == config.start_epoch,
        r.epoch_count == config.epoch_count,
        r.block_count == v.block_count,
        r.transaction_count == v.transaction_items,
        r.packet_bytes == bytes.len(),
        r.output@.len() == 0,
        r.timing.load_epochs_ms == 0 && r.timing.read_blocks_ms == 0 && r.timing.build_tables_ms
            == 0 && r.timing.build_blocks_ms == 0 && r.timing.encode_ms == 0 && r.timing.verify_ms
            == 0 && r.timing.write_ms == 0,
{
}

} // verus!
