//! What a replay plan counts, and when there is one.
use crate::cfxpack::encode::{flag, lemma_next_pivot, next_pivot};
use crate::cfxpack::packet::{BlockModel, FLAG_PIVOT, FLAG_RESERVED, PacketModel, TxKind, TxModel};
use crate::cfxpack::verify::VerifyReport;
use crate::cfxpack::encode::{groups_fault, payloads};
use crate::cfxpack::roundtrip::{kept_block, kept_packet, lemma_kept_same, refs_back, true_refs};
use crate::validate::{all_txs, duplicate_count, has_identity, native_count, plan_epochs, plan_fault, replay_plan, ReplayError, ReplayReport};
use vstd::prelude::*;

verus! {

/// The transactions of all blocks, one after the other.
proof fn lemma_flat(blocks: Seq<BlockModel>, n: int)
    requires
        0 <= n <= blocks.len(),
    ensures
        all_txs(blocks, n) == blocks.take(n).map_values(|b: BlockModel| b.txs).flatten(),
    decreases n,
{
    let lists = blocks.take(n).map_values(|b: BlockModel| b.txs);
    lists.lemma_flatten_and_flatten_alt_are_equivalent();
    if n > 0 {
        lemma_flat(blocks, n - 1);
        let before = blocks.take(n - 1).map_values(|b: BlockModel| b.txs);
        before.lemma_flatten_and_flatten_alt_are_equivalent();
        assert(lists.drop_last() =~= before);
        assert(lists.last() == blocks[n - 1].txs);
    }
}

/// The transactions of each space.
proof fn lemma_spaces(txs: Seq<TxModel>)
    ensures
        native_count(txs) == txs.filter(
            |t: TxModel|
                t.kind == TxKind::Cip155 || t.kind == TxKind::Cip2930 || t.kind == TxKind::Cip1559,
        ).len(),
        txs.len() - native_count(txs) == txs.filter(
            |t: TxModel|
                t.kind == TxKind::Eip155 || t.kind == TxKind::Eip2930 || t.kind == TxKind::Eip1559
                    || t.kind == TxKind::Eip7702,
        ).len(),
    decreases txs.len(),
{
    reveal(Seq::filter);
    if txs.len() > 0 {
        lemma_spaces(txs.drop_last());
        let kind = txs.last().kind;
        assert(kind is Cip155 || kind is Cip2930 || kind is Cip1559 || kind is Eip155
            || kind is Eip2930 || kind is Eip1559 || kind is Eip7702);
    }
}

/// As many transactions repeat an earlier one as there are more transactions than
/// identities.
proof fn lemma_repeats(txs: Seq<TxModel>)
    ensures
        duplicate_count(txs) + txs.map_values(|t: TxModel| t.identity).to_set().len() == txs.len(),
        txs.map_values(|t: TxModel| t.identity).to_set().finite(),
    decreases txs.len(),
{
    let ids = txs.map_values(|t: TxModel| t.identity);
    if txs.len() > 0 {
        let front = txs.drop_last();
        lemma_repeats(front);
        let before = front.map_values(|t: TxModel| t.identity);
        let id = txs.last().identity;
        assert(ids =~= before.push(id));
        assert(ids.to_set() =~= before.to_set().insert(id)) by {
            assert forall|x: Seq<u8>| ids.to_set().contains(x) <==> before.to_set().insert(
                id,
            ).contains(x) by {
                if before.contains(x) {
                    let k = choose|k: int| 0 <= k < before.len() && before[k] == x;
                    assert(ids[k] == x);
                }
                if x == id {
                    assert(ids[before.len() as int] == x);
                }
                if ids.contains(x) {
                    let k = choose|k: int| 0 <= k < ids.len() && ids[k] == x;
                    if k < before.len() {
                        assert(before[k] == x);
                    }
                }
            }
        }
        assert(has_identity(front, id) == before.to_set().contains(id)) by {
            if has_identity(front, id) {
                let k = choose|k: int| 0 <= k < front.len() && #[trigger] front[k].identity == id;
                assert(before[k] == id);
            }
            if before.contains(id) {
                let k = choose|k: int| 0 <= k < before.len() && before[k] == id;
                assert(front[k].identity == id);
            }
        }
    } else {
        assert(ids.to_set() =~= Set::empty());
    }
}

/// A replay plan counts the bytes, the blocks, the pivot blocks, which are the epochs, and
/// the transactions of a packet: those of the native types, those of the eSpace types, and
/// how many more there are than identities. Blocks are numbered without gaps from the first
/// number on.
pub proof fn law_plan_counts(p: PacketModel, v: VerifyReport)
    requires
        replay_plan(p, v) is Ok,
    ensures
        ({
            let plan = replay_plan(p, v)->Ok_0;
            let txs = p.blocks.map_values(|b: BlockModel| b.txs).flatten();
            &&& plan.packet_bytes == v.packet_bytes
            &&& plan.block_count == p.blocks.len()
            &&& plan.block_count == v.block_count
            &&& plan.epoch_count == p.blocks.filter(
                |b: BlockModel| (b.flags as int / 2) % 2 == 1,
            ).len()
            &&& plan.transaction_count == txs.len()
            &&& plan.transaction_count == v.transaction_items
            &&& plan.native_transaction_count == txs.filter(
                |t: TxModel|
                    t.kind == TxKind::Cip155 || t.kind == TxKind::Cip2930 || t.kind
                        == TxKind::Cip1559,
            ).len()
            &&& plan.espace_transaction_count == txs.filter(
                |t: TxModel|
                    t.kind == TxKind::Eip155 || t.kind == TxKind::Eip2930 || t.kind
                        == TxKind::Eip1559 || t.kind == TxKind::Eip7702,
            ).len()
            &&& plan.duplicate_transaction_count + txs.map_values(
                |t: TxModel| t.identity,
            ).to_set().len() == txs.len()
            &&& plan.first_block_number == p.first_block_number
            &&& plan.last_block_number - plan.first_block_number == p.blocks.len() - 1
        }),
{
    let n = p.blocks.len() as int;
    let txs = all_txs(p.blocks, n);
    lemma_flat(p.blocks, n);
    assert(p.blocks.take(n) =~= p.blocks);
    lemma_spaces(txs);
    lemma_repeats(txs);
    lemma_pivots(p.blocks, 0);
    assert(p.blocks.skip(0) =~= p.blocks);
    p.blocks.lemma_filter_len(|b: BlockModel| (b.flags as int / 2) % 2 == 1);
}

/// The pivot blocks from block `i` on.
proof fn lemma_pivots(blocks: Seq<BlockModel>, i: int)
    requires
        0 <= i <= blocks.len(),
        plan_epochs(blocks, i) is Ok,
    ensures
        plan_epochs(blocks, i)->Ok_0 == blocks.skip(i).filter(
            |b: BlockModel| (b.flags as int / 2) % 2 == 1,
        ).len(),
    decreases blocks.len() - i,
{
    reveal(Seq::filter);
    let pivot = |b: BlockModel| (b.flags as int / 2) % 2 == 1;
    if i < blocks.len() {
        lemma_next_pivot(blocks, i);
        let last = next_pivot(blocks, i)->0;
        lemma_pivots(blocks, last + 1);
        let group = blocks.subrange(i, last + 1);
        assert(blocks.skip(i) =~= group + blocks.skip(last + 1));
        Seq::filter_distributes_over_add(group, blocks.skip(last + 1), pivot);
        assert(group.drop_last() =~= blocks.subrange(i, last));
        assert forall|k: int| 0 <= k < last - i implies !pivot(
            #[trigger] blocks.subrange(i, last)[k],
        ) by {
            assert(!flag(blocks[i + k].flags, FLAG_PIVOT));
        }
        lemma_none(blocks.subrange(i, last), pivot);
        assert(pivot(group.last()));
        assert(group.filter(pivot).len() == 1);
    } else {
        assert(blocks.skip(i).len() == 0);
    }
}

proof fn lemma_none(blocks: Seq<BlockModel>, keep: spec_fn(BlockModel) -> bool)
    requires
        forall|k: int| 0 <= k < blocks.len() ==> !keep(#[trigger] blocks[k]),
    ensures
        blocks.filter(keep).len() == 0,
    decreases blocks.len(),
{
    reveal(Seq::filter);
    if blocks.len() > 0 {
        assert forall|k: int| 0 <= k < blocks.drop_last().len() implies !keep(
            #[trigger] blocks.drop_last()[k],
        ) by {
            assert(!keep(blocks[k]));
        }
        lemma_none(blocks.drop_last(), keep);
        assert(!keep(blocks[blocks.len() - 1]));
    }
}

/// Whether block `l` is the first pivot block from block `k` on.
pub open spec fn ends_epoch(blocks: Seq<BlockModel>, k: int, l: int) -> bool {
    &&& 0 <= k <= l < blocks.len()
    &&& (blocks[l].flags as int / 2) % 2 == 1
    &&& forall|m: int| k <= m < l ==> ((#[trigger] blocks[m]).flags as int / 2) % 2 == 0
}

/// Whether the blocks from `i` on can be executed as they stand.
spec fn sound_from(blocks: Seq<BlockModel>, i: int) -> bool {
    &&& i < blocks.len() ==> (blocks.last().flags as int / 2) % 2 == 1
    &&& forall|k: int|
        i <= k < blocks.len() ==> {
            let b = #[trigger] blocks[k];
            b.index == k && b.flags < 128 && (b.txs.len() > 0 ==> (b.flags as int / 8) % 2 == 1)
        }
    &&& forall|k: int, l: int|
        i <= k && #[trigger] ends_epoch(blocks, k, l) ==> blocks[k].epoch == blocks[l].height
}

proof fn lemma_group_sound(blocks: Seq<BlockModel>, i: int, last: int, epoch: u64)
    requires
        0 <= i <= last + 1,
        last < blocks.len(),
    ensures
        plan_fault(blocks, i, last, epoch) is None <==> forall|k: int|
            i <= k <= last ==> {
                let b = #[trigger] blocks[k];
                b.index == k && b.flags < 128 && b.epoch == epoch && (b.txs.len() > 0 ==> (
                b.flags as int / 8) % 2 == 1)
            },
        match plan_fault(blocks, i, last, epoch) {
            Some(e) => exists|k: int|
                i <= k <= last && {
                    let b = #[trigger] blocks[k];
                    ||| e == ReplayError::BlockIndex && b.index != k
                    ||| e == ReplayError::ReservedFlag && b.flags >= 128
                    ||| e == ReplayError::BlockEpoch && b.epoch != epoch
                    ||| e == ReplayError::TransactionFlag && b.txs.len() > 0 && (b.flags as int
                        / 8) % 2 == 0
                },
            None => true,
        },
    decreases last - i + 1,
{
    if i <= last {
        lemma_group_sound(blocks, i + 1, last, epoch);
        let b = blocks[i];
        assert(flag(b.flags, FLAG_RESERVED) == (b.flags >= 128));
        if plan_fault(blocks, i, last, epoch) is None {
            assert forall|k: int| i <= k <= last implies {
                let b = #[trigger] blocks[k];
                b.index == k && b.flags < 128 && b.epoch == epoch && (b.txs.len() > 0 ==> (
                b.flags as int / 8) % 2 == 1)
            } by {}
        }
    }
}

proof fn lemma_no_pivot(blocks: Seq<BlockModel>, i: int)
    requires
        0 <= i < blocks.len(),
        next_pivot(blocks, i) is None,
    ensures
        (blocks.last().flags as int / 2) % 2 == 0,
    decreases blocks.len() - i,
{
    if i + 1 < blocks.len() {
        lemma_no_pivot(blocks, i + 1);
    }
}

proof fn lemma_sound(blocks: Seq<BlockModel>, i: int)
    requires
        0 <= i <= blocks.len(),
    ensures
        plan_epochs(blocks, i) is Ok <==> sound_from(blocks, i),
        match plan_epochs(blocks, i) {
            Err(e) => {
                ||| e == ReplayError::NoPivot && (blocks.last().flags as int / 2) % 2 == 0
                ||| e == ReplayError::PivotEpoch && exists|l: int|
                    i <= l < blocks.len() && ((#[trigger] blocks[l]).flags as int / 2) % 2 == 1
                        && blocks[l].epoch != blocks[l].height
                ||| e == ReplayError::BlockEpoch
                ||| exists|k: int|
                    i <= k < blocks.len() && {
                        let b = #[trigger] blocks[k];
                        ||| e == ReplayError::BlockIndex && b.index != k
                        ||| e == ReplayError::ReservedFlag && b.flags >= 128
                        ||| e == ReplayError::TransactionFlag && b.txs.len() > 0 && (b.flags as int
                            / 8) % 2 == 0
                    }
            },
            Ok(_) => true,
        },
    decreases blocks.len() - i,
{
    if i < blocks.len() {
        lemma_next_pivot(blocks, i);
        match next_pivot(blocks, i) {
            None => {
                lemma_no_pivot(blocks, i);
            },
            Some(last) => {
                lemma_sound(blocks, last + 1);
                lemma_group_sound(blocks, i, last, blocks[last].height);
                lemma_sound_step(blocks, i, last);
            },
        }
    }
}

/// Soundness from `i` on, where the first epoch ends with block `last`.
proof fn lemma_sound_step(blocks: Seq<BlockModel>, i: int, last: int)
    requires
        0 <= i <= last < blocks.len(),
        next_pivot(blocks, i) == Some(last),
    ensures
        sound_from(blocks, i) <==> sound_from(blocks, last + 1) && forall|k: int|
            i <= k <= last ==> {
                let b = #[trigger] blocks[k];
                b.index == k && b.flags < 128 && b.epoch == blocks[last].height && (b.txs.len() > 0
                    ==> (b.flags as int / 8) % 2 == 1)
            },
{
    lemma_next_pivot(blocks, i);
    assert(flag(blocks[last].flags, FLAG_PIVOT));
    assert forall|k: int| i <= k <= last implies #[trigger] ends_epoch(blocks, k, last) by {
        assert forall|m: int| k <= m < last implies ((#[trigger] blocks[m]).flags as int / 2) % 2
            == 0 by {
            assert(!flag(blocks[m].flags, FLAG_PIVOT));
        }
    }
    if sound_from(blocks, i) {
        assert forall|k: int| i <= k <= last implies (#[trigger] blocks[k]).epoch
            == blocks[last].height by {
            assert(ends_epoch(blocks, k, last));
        }
    }
    if sound_from(blocks, last + 1) && forall|k: int|
        i <= k <= last ==> {
            let b = #[trigger] blocks[k];
            b.index == k && b.flags < 128 && b.epoch == blocks[last].height && (b.txs.len() > 0
                ==> (b.flags as int / 8) % 2 == 1)
        } {
        assert forall|k: int, l: int| i <= k && #[trigger] ends_epoch(blocks, k, l) implies
            blocks[k].epoch == blocks[l].height by {
            if k <= last {
                assert(ends_epoch(blocks, k, last));
                assert(l == last);
            }
        }
        assert(blocks.last() == blocks[blocks.len() - 1]);
    }
}

/// There is a replay plan exactly where there are blocks, as many as the check found; the
/// last is a pivot block; each has its place for its index, no reserved flag, and a flag that
/// says so if it has transactions; the epoch of each is the height of the next pivot block;
/// the block numbers fit in 64 bits; and there are as many transactions as the check found.
pub proof fn law_plan_owed(p: PacketModel, v: VerifyReport)
    ensures
        replay_plan(p, v) is Ok <==> {
            &&& p.blocks.len() > 0
            &&& p.blocks.len() == v.block_count
            &&& (p.blocks.last().flags as int / 2) % 2 == 1
            &&& forall|k: int|
                0 <= k < p.blocks.len() ==> {
                    let b = #[trigger] p.blocks[k];
                    b.index == k && b.flags < 128 && (b.txs.len() > 0 ==> (b.flags as int / 8) % 2
                        == 1)
                }
            &&& forall|k: int, l: int| #[trigger]
                ends_epoch(p.blocks, k, l) ==> p.blocks[k].epoch == p.blocks[l].height
            &&& p.first_block_number + p.blocks.len() <= u64::MAX
            &&& p.blocks.map_values(|b: BlockModel| b.txs).flatten().len() == v.transaction_items
            &&& p.blocks.map_values(|b: BlockModel| b.txs).flatten().len() <= usize::MAX
        },
        replay_plan(p, v) == Err::<ReplayReport, ReplayError>(ReplayError::NoBlocks)
            <==> p.blocks.len() == 0,
        replay_plan(p, v) == Err::<ReplayReport, ReplayError>(ReplayError::BlockCount)
            <==> p.blocks.len() > 0 && p.blocks.len() != v.block_count,
        replay_plan(p, v) == Err::<ReplayReport, ReplayError>(ReplayError::NoPivot)
            ==> (p.blocks.last().flags as int / 2) % 2 == 0,
        replay_plan(p, v) == Err::<ReplayReport, ReplayError>(ReplayError::PivotEpoch)
            ==> exists|l: int|
            0 <= l < p.blocks.len() && ((#[trigger] p.blocks[l]).flags as int / 2) % 2 == 1
                && p.blocks[l].epoch != p.blocks[l].height,
        replay_plan(p, v) == Err::<ReplayReport, ReplayError>(ReplayError::BlockIndex)
            ==> exists|k: int| 0 <= k < p.blocks.len() && (#[trigger] p.blocks[k]).index != k,
        replay_plan(p, v) == Err::<ReplayReport, ReplayError>(ReplayError::ReservedFlag)
            ==> exists|k: int| 0 <= k < p.blocks.len() && (#[trigger] p.blocks[k]).flags >= 128,
        replay_plan(p, v) == Err::<ReplayReport, ReplayError>(ReplayError::TransactionFlag)
            ==> exists|k: int|
            0 <= k < p.blocks.len() && (#[trigger] p.blocks[k]).txs.len() > 0 && (
            p.blocks[k].flags as int / 8) % 2 == 0,
        replay_plan(p, v) == Err::<ReplayReport, ReplayError>(ReplayError::BlockNumberRange)
            ==> p.first_block_number + p.blocks.len() > u64::MAX,
        replay_plan(p, v) == Err::<ReplayReport, ReplayError>(ReplayError::TransactionCount) ==> {
            let n = p.blocks.map_values(|b: BlockModel| b.txs).flatten().len();
            n != v.transaction_items || n > usize::MAX
        },
{
    let n = p.blocks.len() as int;
    lemma_flat(p.blocks, n);
    assert(p.blocks.take(n) =~= p.blocks);
    lemma_sound(p.blocks, 0);
}

/// Transactions of the same types are as many of each space.
proof fn lemma_same_kinds(a: Seq<TxModel>, b: Seq<TxModel>)
    requires
        a.len() == b.len(),
        forall|i: int| 0 <= i < a.len() ==> (#[trigger] a[i]).kind == b[i].kind,
    ensures
        native_count(a) == native_count(b),
    decreases a.len(),
{
    if a.len() > 0 {
        assert(a[a.len() - 1].kind == b[b.len() - 1].kind);
        assert forall|i: int| 0 <= i < a.drop_last().len() implies (
        #[trigger] a.drop_last()[i]).kind == b.drop_last()[i].kind by {
            assert(a[i].kind == b[i].kind);
        }
        lemma_same_kinds(a.drop_last(), b.drop_last());
    }
}

/// What is read back has the types that were written.
proof fn lemma_kept_kinds(p: PacketModel, n: int)
    requires
        true_refs(p),
        groups_fault(p.blocks, 0) is None,
        payloads(p, p.blocks.len() as int) is Ok,
        forall|k: int| #![trigger p.blocks[k]] 0 <= k < p.blocks.len() ==> refs_back(p, k),
        0 <= n <= p.blocks.len(),
    ensures
        all_txs(kept_packet(p).blocks, n).len() == all_txs(p.blocks, n).len(),
        forall|i: int|
            0 <= i < all_txs(p.blocks, n).len() ==> (#[trigger] all_txs(p.blocks, n)[i]).kind
                == all_txs(kept_packet(p).blocks, n)[i].kind,
    decreases n,
{
    if n > 0 {
        lemma_kept_kinds(p, n - 1);
        let q = kept_packet(p);
        assert(q.blocks[n - 1] == kept_block(p, n - 1));
        let m = all_txs(p.blocks, n - 1).len() as int;
        assert forall|i: int| 0 <= i < all_txs(p.blocks, n).len() implies (
        #[trigger] all_txs(p.blocks, n)[i]).kind == all_txs(q.blocks, n)[i].kind by {
            if i < m {
                assert(all_txs(p.blocks, n)[i] == all_txs(p.blocks, n - 1)[i]);
                assert(all_txs(q.blocks, n)[i] == all_txs(q.blocks, n - 1)[i]);
            } else {
                lemma_kept_same(p, n - 1, i - m);
                assert(all_txs(q.blocks, n)[i] == q.blocks[n - 1].txs[i - m]);
                assert(all_txs(p.blocks, n)[i] == p.blocks[n - 1].txs[i - m]);
            }
        }
    }
}

/// What a packet that was written and one that is read back count of each space.
pub(crate) proof fn lemma_written_spaces(p: PacketModel)
    requires
        true_refs(p),
        groups_fault(p.blocks, 0) is None,
        payloads(p, p.blocks.len() as int) is Ok,
        forall|k: int| #![trigger p.blocks[k]] 0 <= k < p.blocks.len() ==> refs_back(p, k),
    ensures
        ({
            let a = p.blocks.map_values(|b: BlockModel| b.txs).flatten();
            let b = kept_packet(p).blocks.map_values(|b: BlockModel| b.txs).flatten();
            &&& a.len() == b.len()
            &&& a.filter(
                |t: TxModel|
                    t.kind == TxKind::Cip155 || t.kind == TxKind::Cip2930 || t.kind
                        == TxKind::Cip1559,
            ).len() == b.filter(
                |t: TxModel|
                    t.kind == TxKind::Cip155 || t.kind == TxKind::Cip2930 || t.kind
                        == TxKind::Cip1559,
            ).len()
            &&& a.filter(
                |t: TxModel|
                    t.kind == TxKind::Eip155 || t.kind == TxKind::Eip2930 || t.kind
                        == TxKind::Eip1559 || t.kind == TxKind::Eip7702,
            ).len() == b.filter(
                |t: TxModel|
                    t.kind == TxKind::Eip155 || t.kind == TxKind::Eip2930 || t.kind
                        == TxKind::Eip1559 || t.kind == TxKind::Eip7702,
            ).len()
        }),
{
    let n = p.blocks.len() as int;
    let q = kept_packet(p);
    lemma_flat(p.blocks, n);
    lemma_flat(q.blocks, n);
    assert(p.blocks.take(n) =~= p.blocks);
    assert(q.blocks.take(n) =~= q.blocks);
    lemma_kept_kinds(p, n);
    lemma_same_kinds(all_txs(p.blocks, n), all_txs(q.blocks, n));
    lemma_spaces(all_txs(p.blocks, n));
    lemma_spaces(all_txs(q.blocks, n));
}

} // verus!
