//! Making the blocks that were collected into a packet.
use crate::bytemap::ByteMap;
use crate::cfxpack::encode::{encode_packet, encoded, flag, has_flag};
use crate::cfxpack::error::PackError;
use crate::cfxpack::packet::{views, Block, BlockModel, Packet, PacketModel, PosLookupModel, PosRewardAccount, PosRewardEntry, RewardModel, UnlockEntry, UnlockModel, FLAG_PIVOT};
use crate::cfxpack::roundtrip::{packet_shape, readable, refs_back};
use crate::cfxpack::roundtrip_tx::one_base;
use crate::cfxpack::table::last_index;
use crate::cfxpack::types::{zeros, U256};
use crate::cfxpack::verify::{verified, verify_packet, VerifyReport};
use crate::extract::blocks::{effective_pos_reference, hash_view, heights, least, pos_ref, timestamps, BlockCollector, CommittedBlock, ExtractError, Header, HeaderModel, RawBlock, RawModel};
use crate::extract::config::{no_time, ChainParams, ExtractConfig, ExtractReport, ExtractTiming};
use crate::extract::frequency::{distinct, is_ranking, ranking};
use crate::extract::packet_law::law_packet_block;
use crate::extract::tables::{base_table, build_tables, difficulties, lemma_places, parties, pos_lookup, price_table, prices, Tables};
use crate::types::H256;
use vstd::prelude::*;

verus! {

impl Clone for PosRewardEntry {
    fn clone(&self) -> (r: Self)
        ensures
            r@ == self@,
    {
        let mut account_rewards: Vec<PosRewardAccount> = Vec::new();
        let mut i: usize = 0;
        while i < self.account_rewards.len()
            invariant
                i <= self.account_rewards@.len(),
                account_rewards@ == self.account_rewards@.take(i as int),
            decreases self.account_rewards@.len() - i,
        {
            account_rewards.push(self.account_rewards[i]);
            i += 1;
            proof {
                assert(account_rewards@ =~= self.account_rewards@.take(i as int));
            }
        }
        proof {
            assert(self.account_rewards@.take(i as int) =~= self.account_rewards@);
        }
        PosRewardEntry { account_rewards, execution_epoch_hash: self.execution_epoch_hash }
    }
}

/// How far back the epoch lies that the PoS chain finalized for a block: its own epoch
/// less the height of the pivot that was decided on.
pub open spec fn finalized_offset(
    block: RawModel,
    known: Map<Seq<u8>, CommittedBlock>,
    enable: u64,
) -> Result<u64, ExtractError> {
    match pos_ref(block.header, enable) {
        None => Ok(0),
        Some(hash) => if !known.contains_key(hash) {
            Err(ExtractError::MissingCommitted)
        } else if block.epoch >= known[hash].pivot_height {
            Ok((block.epoch - known[hash].pivot_height) as u64)
        } else {
            Ok(0)
        },
    }
}

/// How far back the epoch lies that the PoS chain finalized for a block.
pub fn finalized_epoch_offset(
    pos_blocks: &ByteMap<CommittedBlock>,
    block: &RawBlock,
    pos_reference_enable_height: u64,
) -> (r: Result<u64, ExtractError>)
    requires
        pos_blocks.wf(),
    ensures
        r == finalized_offset(block@, pos_blocks@, pos_reference_enable_height),
{
    match effective_pos_reference(&block.header, pos_reference_enable_height) {
        None => Ok(0),
        Some(hash) => {
            match pos_blocks.get(hash.as_bytes().as_slice()) {
                Some(c) => {
                    if block.epoch >= c.pivot_height {
                        Ok(block.epoch - c.pivot_height)
                    } else {
                        Ok(0)
                    }
                },
                None => Err(ExtractError::MissingCommitted),
            }
        },
    }
}

/// The view of the PoS block that a block refers to.
pub open spec fn view_of(
    header: HeaderModel,
    known: Map<Seq<u8>, CommittedBlock>,
    enable: u64,
) -> Option<u64> {
    match pos_ref(header, enable) {
        None => None,
        Some(hash) => if known.contains_key(hash) {
            Some(known[hash].view)
        } else {
            None
        },
    }
}

/// The base prices of a header, which are zero where it has none.
pub open spec fn base_prices(header: HeaderModel) -> (Seq<u8>, Seq<u8>) {
    match header.base_price {
        Some(p) => p,
        None => (zeros(32), zeros(32)),
    }
}

/// A block of a packet, before PoS rewards and unlocks are attached.
pub open spec fn lowered(
    b: RawModel,
    index: nat,
    known: Map<Seq<u8>, CommittedBlock>,
    enable: u64,
) -> BlockModel {
    BlockModel {
        epoch: b.epoch,
        index,
        hash: b.hash,
        state_root: b.header.state_root,
        receipts_root: b.header.receipts_root,
        logs_bloom: b.header.logs_bloom,
        flags: b.flags,
        author: b.header.author,
        timestamp: b.header.timestamp,
        difficulty: b.header.difficulty,
        gas_limit: b.header.gas_limit,
        base_price_core: base_prices(b.header).0,
        base_price_espace: base_prices(b.header).1,
        height: b.header.height,
        blame: b.header.blame as u64,
        finalized_epoch: finalized_offset(b, known, enable)->Ok_0,
        base_reward: b.base_reward,
        txs: b.txs,
        refs: Seq::empty(),
        rewards: Seq::empty(),
        unlocks: Seq::empty(),
        pos_view: view_of(b.header, known, enable),
    }
}

/// Whether every PoS block that a block refers to is known.
pub open spec fn all_known(
    blocks: Seq<RawModel>,
    known: Map<Seq<u8>, CommittedBlock>,
    enable: u64,
) -> bool {
    forall|i: int|
        0 <= i < blocks.len() ==> finalized_offset(#[trigger] blocks[i], known, enable) is Ok
}

/// The blocks of a packet, before PoS rewards and unlocks are attached.
pub open spec fn all_lowered(
    blocks: Seq<RawModel>,
    known: Map<Seq<u8>, CommittedBlock>,
    enable: u64,
) -> Seq<BlockModel> {
    Seq::new(blocks.len(), |i: int| lowered(blocks[i], i as nat, known, enable))
}

/// Makes one block that was read into a block of a packet.
fn build_block_input(
    raw: RawBlock,
    index: usize,
    pos_blocks: &ByteMap<CommittedBlock>,
    enable: u64,
) -> (r: Result<Block, ExtractError>)
    requires
        pos_blocks.wf(),
    ensures
        match r {
            Ok(b) => finalized_offset(raw@, pos_blocks@, enable) is Ok && b@ == lowered(
                raw@,
                index as nat,
                pos_blocks@,
                enable,
            ),
            Err(e) => finalized_offset(raw@, pos_blocks@, enable) == Err::<u64, ExtractError>(e),
        },
{
    let finalized_epoch: u64 = match finalized_epoch_offset(pos_blocks, &raw, enable) {
        Ok(v) => v,
        Err(e) => {
            return Err(e);
        },
    };
    let pos_view: Option<u64> = match effective_pos_reference(&raw.header, enable) {
        Some(hash) => match pos_blocks.get(hash.as_bytes().as_slice()) {
            Some(c) => Some(c.view),
            None => None,
        },
        None => None,
    };
    let (base_price_core, base_price_espace): (U256, U256) = match raw.header.base_price {
        Some((core, espace)) => (core, espace),
        None => (U256::zero(), U256::zero()),
    };
    let ghost m = raw@;
    let header: Header = raw.header;
    let b = Block {
        epoch: raw.epoch,
        index,
        hash: raw.hash,
        deferred_state_root: header.deferred_state_root,
        deferred_receipts_root: header.deferred_receipts_root,
        deferred_logs_bloom_hash: header.deferred_logs_bloom_hash,
        flags: raw.flags,
        author: header.author,
        timestamp: header.timestamp,
        difficulty: header.difficulty,
        gas_limit: header.gas_limit,
        base_price_core,
        base_price_espace,
        height: header.height,
        blame: header.blame as u64,
        finalized_epoch,
        base_reward: raw.reward.base_reward,
        transactions: raw.body,
        transaction_refs: Vec::new(),
        pos_rewards: Vec::new(),
        unlock_events: Vec::new(),
        pos_view,
    };
    proof {
        let want = lowered(m, index as nat, pos_blocks@, enable);
        assert(b@.refs =~= want.refs);
        assert(b@.rewards =~= want.rewards);
        assert(b@.unlocks =~= want.unlocks);
    }
    Ok(b)
}

/// Makes the blocks that were read into blocks of a packet.
pub fn build_block_inputs(
    blocks: Vec<RawBlock>,
    pos_blocks: &ByteMap<CommittedBlock>,
    pos_reference_enable_height: u64,
) -> (r: Result<Vec<Block>, ExtractError>)
    requires
        pos_blocks.wf(),
    ensures
        match r {
            Ok(out) => all_known(views(blocks@), pos_blocks@, pos_reference_enable_height)
                && views(out@) == all_lowered(
                views(blocks@),
                pos_blocks@,
                pos_reference_enable_height,
            ),
            Err(e) => e == ExtractError::MissingCommitted && !all_known(
                views(blocks@),
                pos_blocks@,
                pos_reference_enable_height,
            ),
        },
{
    let ghost all = views(blocks@);
    let ghost known = pos_blocks@;
    let mut rest = blocks;
    let mut reversed: Vec<RawBlock> = Vec::new();
    let n: usize = rest.len();
    while rest.len() > 0
        invariant
            rest@.len() + reversed@.len() == n,
            n == all.len(),
            views(rest@) == all.take(rest@.len() as int),
            forall|k: int|
                0 <= k < reversed@.len() ==> (#[trigger] reversed@[k])@ == all[n - 1 - k],
        decreases rest@.len(),
    {
        let ghost m = rest@.len() as int;
        match rest.pop() {
            Some(b) => {
                proof {
                    assert(all.take(m)[m - 1] == all[m - 1]);
                    assert(b@ == all[m - 1]);
                    assert(views(rest@) =~= all.take(m - 1));
                }
                reversed.push(b);
            },
            None => {},
        }
    }
    let mut out: Vec<Block> = Vec::new();
    while reversed.len() > 0
        invariant
            pos_blocks.wf(),
            known == pos_blocks@,
            all == views(blocks@),
            n == all.len(),
            out@.len() + reversed@.len() == n,
            forall|k: int|
                0 <= k < reversed@.len() ==> (#[trigger] reversed@[k])@ == all[n - 1 - k],
            forall|k: int|
                0 <= k < out@.len() ==> (#[trigger] out@[k])@ == lowered(
                    all[k],
                    k as nat,
                    known,
                    pos_reference_enable_height,
                ) && finalized_offset(all[k], known, pos_reference_enable_height) is Ok,
        decreases reversed@.len(),
    {
        let index: usize = out.len();
        match reversed.pop() {
            Some(raw) => {
                proof {
                    assert(raw@ == all[index as int]);
                }
                match build_block_input(raw, index, pos_blocks, pos_reference_enable_height) {
                    Ok(b) => {
                        out.push(b);
                    },
                    Err(e) => {
                        proof {
                            assert(finalized_offset(
                                all[index as int],
                                known,
                                pos_reference_enable_height,
                            ) is Err);
                        }
                        return Err(e);
                    },
                }
            },
            None => {},
        }
    }
    proof {
        assert(views(out@) =~= all_lowered(all, known, pos_reference_enable_height));
        assert forall|i: int| 0 <= i < all.len() implies finalized_offset(
            #[trigger] all[i],
            known,
            pos_reference_enable_height,
        ) is Ok by {
            assert(out@[i]@ == lowered(all[i], i as nat, known, pos_reference_enable_height));
        }
    }
    Ok(out)
}

/// A block with the PoS rewards that its hash has.
pub open spec fn with_rewards(b: BlockModel, rewards: Map<Seq<u8>, RewardModel>) -> BlockModel {
    if rewards.contains_key(b.hash) {
        BlockModel { rewards: b.rewards.push(rewards[b.hash]), ..b }
    } else {
        b
    }
}

/// Attaches PoS rewards to the blocks in whose epochs they were distributed, which are
/// known by their hashes.
pub fn attach_pos_rewards(blocks: &mut Vec<Block>, pos_rewards: &ByteMap<PosRewardEntry>)
    requires
        pos_rewards.wf(),
    ensures
        final(blocks)@.len() == old(blocks)@.len(),
        forall|i: int|
            0 <= i < final(blocks)@.len() ==> (#[trigger] final(blocks)@[i])@ == with_rewards(
                old(blocks)@[i]@,
                pos_rewards@,
            ),
{
    let n: usize = blocks.len();
    let mut i: usize = 0;
    while i < n
        invariant
            i <= n,
            n == blocks@.len(),
            n == old(blocks)@.len(),
            pos_rewards.wf(),
            forall|k: int|
                0 <= k < i ==> (#[trigger] blocks@[k])@ == with_rewards(
                    old(blocks)@[k]@,
                    pos_rewards@,
                ),
            forall|k: int| i <= k < n ==> #[trigger] blocks@[k] == old(blocks)@[k],
        decreases n - i,
    {
        let ghost before = blocks@[i as int]@;
        let hash: H256 = blocks[i].hash;
        match pos_rewards.get(hash.as_bytes().as_slice()) {
            Some(entry) => {
                let copy = entry.clone();
                let ghost m = copy@;
                let block: &mut Block = &mut blocks[i];
                block.pos_rewards.push(copy);
                proof {
                    assert(blocks@[i as int]@.rewards =~= before.rewards.push(m));
                }
            },
            None => {},
        }
        i += 1;
    }
}

/// Copies unlock events.
fn copy_unlocks(list: &Vec<UnlockEntry>) -> (r: Vec<UnlockEntry>)
    ensures
        r@ == list@,
{
    let mut out: Vec<UnlockEntry> = Vec::new();
    let mut i: usize = 0;
    while i < list.len()
        invariant
            i <= list@.len(),
            out@ == list@.take(i as int),
        decreases list@.len() - i,
    {
        out.push(list[i]);
        i += 1;
        proof {
            assert(out@ =~= list@.take(i as int));
        }
    }
    proof {
        assert(list@.take(i as int) =~= list@);
    }
    out
}

/// The unlock events of an epoch.
#[derive(Debug)]
pub struct EpochUnlocks {
    pub epoch: u64,
    pub events: Vec<UnlockEntry>,
}

/// The unlock events of an epoch, where there are any: the last list given for it.
pub open spec fn unlocks_of(lists: Seq<EpochUnlocks>, epoch: u64) -> Option<Seq<UnlockModel>>
    decreases lists.len(),
{
    if lists.len() == 0 {
        None
    } else if lists.last().epoch == epoch && lists.last().events@.len() > 0 {
        Some(views(lists.last().events@))
    } else {
        unlocks_of(lists.drop_last(), epoch)
    }
}

/// A block with the unlock events of its epoch, where it is the epoch's pivot.
pub open spec fn with_unlocks(b: BlockModel, lists: Seq<EpochUnlocks>) -> BlockModel {
    if flag(b.flags, FLAG_PIVOT) && unlocks_of(lists, b.epoch) is Some {
        BlockModel { unlocks: unlocks_of(lists, b.epoch)->0, ..b }
    } else {
        b
    }
}

/// The unlock events of an epoch.
fn find_unlocks(lists: &Vec<EpochUnlocks>, epoch: u64) -> (r: Option<usize>)
    ensures
        match r {
            Some(i) => i < lists@.len() && unlocks_of(lists@, epoch) == Some(
                views(lists@[i as int].events@),
            ),
            None => unlocks_of(lists@, epoch) is None,
        },
{
    let mut i: usize = lists.len();
    proof {
        assert(lists@.take(i as int) =~= lists@);
    }
    while i > 0
        invariant
            i <= lists@.len(),
            unlocks_of(lists@, epoch) == unlocks_of(lists@.take(i as int), epoch),
        decreases i,
    {
        proof {
            assert(lists@.take(i as int).drop_last() =~= lists@.take(i - 1));
        }
        if lists[i - 1].epoch == epoch && lists[i - 1].events.len() > 0 {
            return Some(i - 1);
        }
        i -= 1;
    }
    None
}

/// Attaches unlock events to the pivot blocks of their epochs.
pub fn attach_unlocks(blocks: &mut Vec<Block>, lists: &Vec<EpochUnlocks>)
    ensures
        final(blocks)@.len() == old(blocks)@.len(),
        forall|i: int|
            0 <= i < final(blocks)@.len() ==> (#[trigger] final(blocks)@[i])@ == with_unlocks(
                old(blocks)@[i]@,
                lists@,
            ),
{
    let n: usize = blocks.len();
    let mut i: usize = 0;
    while i < n
        invariant
            i <= n,
            n == blocks@.len(),
            n == old(blocks)@.len(),
            forall|k: int|
                0 <= k < i ==> (#[trigger] blocks@[k])@ == with_unlocks(
                    old(blocks)@[k]@,
                    lists@,
                ),
            forall|k: int| i <= k < n ==> #[trigger] blocks@[k] == old(blocks)@[k],
        decreases n - i,
    {
        let ghost before = blocks@[i as int]@;
        if has_flag(blocks[i].flags, FLAG_PIVOT) {
            match find_unlocks(lists, blocks[i].epoch) {
                Some(at) => {
                    let copy = copy_unlocks(&lists[at].events);
                    let block: &mut Block = &mut blocks[i];
                    block.unlock_events = copy;
                },
                None => {},
            }
        }
        i += 1;
    }
}

/// The events between two versions of the PoS state, which belong to an epoch.
#[derive(Clone, Copy, Debug, PartialEq, Eq, Structural)]
pub struct UnlockScan {
    pub epoch: u64,
    pub from_version: u64,
    pub to_version: u64,
}

/// The PoS block that the last pivot referred to, and its version, where they are known.
pub struct PosCursor {
    pub last_ref: Option<Seq<u8>>,
    pub last_version: Option<u64>,
}

/// A pivot block: its epoch and the PoS block that it refers to.
#[derive(Clone, Copy, Debug)]
pub struct PivotRef {
    pub epoch: u64,
    pub pos_ref: Option<H256>,
}

/// The version of a PoS block that is known.
pub open spec fn version_of(known: Map<Seq<u8>, CommittedBlock>, hash: Seq<u8>) -> Option<u64> {
    if known.contains_key(hash) {
        Some(known[hash].version)
    } else {
        None
    }
}

/// The cursor behind the first `n` pivots.
pub open spec fn cursor(
    start: PosCursor,
    pivots: Seq<PivotRef>,
    known: Map<Seq<u8>, CommittedBlock>,
    n: int,
) -> PosCursor
    decreases n,
{
    if n <= 0 {
        start
    } else {
        let before = cursor(start, pivots, known, n - 1);
        match pivots[n - 1].pos_ref {
            Some(h) => PosCursor { last_ref: Some(h@), last_version: version_of(known, h@) },
            None => PosCursor { last_ref: None, last_version: before.last_version },
        }
    }
}

/// What is to be read for a pivot: the events since the PoS block that the last pivot
/// referred to, where it is another one.
pub open spec fn scan_for(
    before: PosCursor,
    pivot: PivotRef,
    known: Map<Seq<u8>, CommittedBlock>,
) -> Option<UnlockScan> {
    match (before.last_version, pivot.pos_ref) {
        (Some(from), Some(h)) => if before.last_ref != Some(h@) && known.contains_key(h@) {
            Some(
                UnlockScan {
                    epoch: pivot.epoch,
                    from_version: from,
                    to_version: known[h@].version,
                },
            )
        } else {
            None
        },
        _ => None,
    }
}

/// What is to be read for the first `n` pivots.
pub open spec fn scans(
    start: PosCursor,
    pivots: Seq<PivotRef>,
    known: Map<Seq<u8>, CommittedBlock>,
    n: int,
) -> Seq<UnlockScan>
    decreases n,
{
    if n <= 0 {
        Seq::empty()
    } else {
        let done = scans(start, pivots, known, n - 1);
        match scan_for(cursor(start, pivots, known, n - 1), pivots[n - 1], known) {
            Some(s) => done.push(s),
            None => done,
        }
    }
}

/// What is to be read to find the unlock events of a range of epochs. `start` is the
/// PoS block that the pivot before the range refers to, with its version.
pub fn unlock_scans(
    start: Option<(H256, u64)>,
    pivots: &Vec<PivotRef>,
    pos_blocks: &ByteMap<CommittedBlock>,
) -> (r: Vec<UnlockScan>)
    requires
        pos_blocks.wf(),
    ensures
        r@ == scans(
            match start {
                Some((h, v)) => PosCursor { last_ref: Some(h@), last_version: Some(v) },
                None => PosCursor { last_ref: None, last_version: None },
            },
            pivots@,
            pos_blocks@,
            pivots@.len() as int,
        ),
{
    let ghost from = match start {
        Some((h, v)) => PosCursor { last_ref: Some(h@), last_version: Some(v) },
        None => PosCursor { last_ref: None, last_version: None },
    };
    let ghost known = pos_blocks@;
    let mut last_ref: Option<H256> = None;
    let mut last_version: Option<u64> = None;
    match start {
        Some((h, v)) => {
            last_ref = Some(h);
            last_version = Some(v);
        },
        None => {},
    }
    let mut out: Vec<UnlockScan> = Vec::new();
    let mut i: usize = 0;
    while i < pivots.len()
        invariant
            i <= pivots@.len(),
            pos_blocks.wf(),
            known == pos_blocks@,
            hash_view(last_ref) == cursor(from, pivots@, known, i as int).last_ref,
            last_version == cursor(from, pivots@, known, i as int).last_version,
            out@ == scans(from, pivots@, known, i as int),
        decreases pivots@.len() - i,
    {
        let pivot: PivotRef = pivots[i];
        match pivot.pos_ref {
            Some(h) => {
                let same: bool = match last_ref {
                    Some(l) => crate::bytes::bytes_eq(
                        l.as_bytes().as_slice(),
                        h.as_bytes().as_slice(),
                    ),
                    None => false,
                };
                let version: Option<u64> = match pos_blocks.get(h.as_bytes().as_slice()) {
                    Some(c) => Some(c.version),
                    None => None,
                };
                match (last_version, version) {
                    (Some(a), Some(b)) => {
                        if !same {
                            out.push(
                                UnlockScan {
                                    epoch: pivot.epoch,
                                    from_version: a,
                                    to_version: b,
                                },
                            );
                        }
                    },
                    _ => {},
                }
                last_version = version;
            },
            None => {},
        }
        last_ref = pivot.pos_ref;
        i += 1;
    }
    out
}

/// What lies before a range of epochs: the last block, its deferred state root, and the
/// number that the first block of the range has.
#[derive(Clone, Copy, Debug)]
pub struct PrevBoundary {
    pub prev_last_hash: H256,
    pub prev_last_deferred_state_root: H256,
    pub first_block_number: u64,
}

/// The least PoS view of a packet, which is zero where no PoS block is referred to.
pub open spec fn least_view(views: Seq<u64>) -> u64 {
    if least(views) == u64::MAX {
        0
    } else {
        least(views)
    }
}

/// The blocks of a packet.
pub open spec fn finished_blocks(
    blocks: Seq<RawModel>,
    known: Map<Seq<u8>, CommittedBlock>,
    enable: u64,
    rewards: Map<Seq<u8>, RewardModel>,
    unlocks: Seq<EpochUnlocks>,
) -> Seq<BlockModel> {
    Seq::new(
        blocks.len(),
        |i: int|
            with_unlocks(
                with_rewards(lowered(blocks[i], i as nat, known, enable), rewards),
                unlocks,
            ),
    )
}

/// The packet of the blocks that were collected.
pub open spec fn packet_of(
    enable: u64,
    boundary: PrevBoundary,
    c: BlockCollector,
    rewards: Map<Seq<u8>, RewardModel>,
    unlocks: Seq<EpochUnlocks>,
) -> PacketModel {
    let all = views(c.blocks@);
    let n = all.len() as int;
    let addresses = ranking(parties(all, n));
    PacketModel {
        prev_last_hash: boundary.prev_last_hash@,
        prev_last_state_root: boundary.prev_last_deferred_state_root@,
        first_block_number: boundary.first_block_number,
        min_timestamp: least(timestamps(all)),
        min_height: least(heights(all)),
        min_pos_height: least_view(c.views@),
        addresses,
        pos_entries: pos_lookup(all, c.pos_blocks@, least_view(c.views@), enable, n)->Ok_0,
        difficulties: distinct(difficulties(all)),
        base_nonces: base_table(all, addresses, addresses.len() as int),
        gas_prices: price_table(prices(all, n)),
        blocks: finished_blocks(all, c.pos_blocks@, enable, rewards, unlocks),
    }
}

/// Every address and difficulty of a packet's blocks stands in its tables, and no block
/// lies below the minimums.
pub open spec fn tables_complete(p: PacketModel) -> bool {
    forall|i: int|
        0 <= i < p.blocks.len() ==> {
            let b = #[trigger] p.blocks[i];
            &&& last_index(p.addresses, b.author) is Some
            &&& last_index(p.difficulties, b.difficulty) is Some
            &&& p.min_timestamp <= b.timestamp
            &&& p.min_height <= b.height
            &&& forall|j: int|
                0 <= j < b.txs.len() ==> last_index(p.addresses, (#[trigger] b.txs[j]).sender)
                    is Some && (b.txs[j].action is Some ==> last_index(
                    p.addresses,
                    b.txs[j].action->0,
                ) is Some)
        }
}

/// Why no packet can be made of the blocks, if so.
pub open spec fn packet_fault(enable: u64, c: BlockCollector) -> Option<ExtractError> {
    let all = views(c.blocks@);
    match pos_lookup(all, c.pos_blocks@, least_view(c.views@), enable, all.len() as int) {
        Err(e) => Some(e),
        Ok(_) => if all_known(all, c.pos_blocks@, enable) {
            None
        } else {
            Some(ExtractError::MissingCommitted)
        },
    }
}

/// Whether tables are those of the packet of the blocks that were collected.
pub open spec fn tables_match(t: Tables, c: BlockCollector, enable: u64) -> bool {
    let all = views(c.blocks@);
    let n = all.len() as int;
    let addresses = ranking(parties(all, n));
    &&& views(t.addresses@) == addresses
    &&& is_ranking(parties(all, n), addresses)
    &&& views(t.difficulties@) == distinct(difficulties(all))
    &&& views(t.gas_prices@) == price_table(prices(all, n))
    &&& views(t.sender_base_nonces@) == base_table(all, addresses, addresses.len() as int)
    &&& pos_lookup(all, c.pos_blocks@, least_view(c.views@), enable, n) == Ok::<
        Seq<PosLookupModel>,
        ExtractError,
    >(views(t.pos_entries@))
}

/// Makes the blocks that were collected, and their tables, into a packet.
pub fn assemble_packet(
    chain: &ChainParams,
    boundary: &PrevBoundary,
    collected: BlockCollector,
    tables: Tables,
    pos_rewards: &ByteMap<PosRewardEntry>,
    unlocks: &Vec<EpochUnlocks>,
) -> (r: Result<Packet, ExtractError>)
    requires
        collected.wf(),
        pos_rewards.wf(),
        tables_match(tables, collected, chain.pos_reference_enable_height),
    ensures
        match r {
            Ok(p) => {
                &&& packet_fault(chain.pos_reference_enable_height, collected) is None
                &&& p@ == packet_of(
                    chain.pos_reference_enable_height,
                    *boundary,
                    collected,
                    pos_rewards@,
                    unlocks@,
                )
                &&& tables_complete(p@)
            },
            Err(e) => packet_fault(chain.pos_reference_enable_height, collected) == Some(e),
        },
{
    let enable: u64 = chain.pos_reference_enable_height;
    let ghost all = views(collected.blocks@);
    let ghost known = collected.pos_blocks@;
    let min_pos_height: u64 = collected.least_view();
    let min_timestamp: u64 = collected.min_timestamp;
    let min_height: u64 = collected.min_height;
    let mut blocks = match build_block_inputs(collected.blocks, &collected.pos_blocks, enable) {
        Ok(b) => b,
        Err(e) => {
            return Err(e);
        },
    };
    let ghost bare = blocks@;
    attach_pos_rewards(&mut blocks, pos_rewards);
    let ghost rewarded = blocks@;
    attach_unlocks(&mut blocks, unlocks);
    proof {
        let want = finished_blocks(all, known, enable, pos_rewards@, unlocks@);
        assert(views(bare).len() == all_lowered(all, known, enable).len());
        assert forall|i: int| 0 <= i < all.len() implies #[trigger] views(blocks@)[i] == want[i] by {
            assert(blocks@[i]@ == with_unlocks(rewarded[i]@, unlocks@));
            assert(rewarded[i]@ == with_rewards(bare[i]@, pos_rewards@));
            assert(views(bare)[i] == all_lowered(all, known, enable)[i]);
        }
        assert(views(blocks@) =~= want);
        crate::extract::blocks::law_least(timestamps(all));
        crate::extract::blocks::law_least(heights(all));
    }
    let p = Packet {
        prev_last_hash: boundary.prev_last_hash,
        prev_last_deferred_state_root: boundary.prev_last_deferred_state_root,
        first_block_number: boundary.first_block_number,
        min_timestamp,
        min_height,
        min_pos_height,
        addresses: tables.addresses,
        pos_entries: tables.pos_entries,
        difficulties: tables.difficulties,
        sender_base_nonces: tables.sender_base_nonces,
        gas_prices: tables.gas_prices,
        blocks,
    };
    proof {
        assert forall|i: int| 0 <= i < p@.blocks.len() implies {
            let b = #[trigger] p@.blocks[i];
            &&& last_index(p@.addresses, b.author) is Some
            &&& last_index(p@.difficulties, b.difficulty) is Some
            &&& p@.min_timestamp <= b.timestamp
            &&& p@.min_height <= b.height
            &&& forall|j: int|
                0 <= j < b.txs.len() ==> last_index(p@.addresses, (#[trigger] b.txs[j]).sender)
                    is Some && (b.txs[j].action is Some ==> last_index(
                    p@.addresses,
                    b.txs[j].action->0,
                ) is Some)
        } by {
            lemma_places(all, p@.addresses, i);
            assert(timestamps(all)[i] == all[i].header.timestamp);
            assert(heights(all)[i] == all[i].header.height);
            assert(p@.blocks[i].txs == all[i].txs);
        }
    }
    Ok(p)
}

/// Builds the tables of the packet of the blocks that were collected.
pub fn collected_tables(chain: &ChainParams, collected: &BlockCollector) -> (r: Result<
    Tables,
    ExtractError,
>)
    requires
        collected.wf(),
        parties(views(collected.blocks@), collected.blocks@.len() as int).len() <= u64::MAX,
        prices(views(collected.blocks@), collected.blocks@.len() as int).len() <= u64::MAX,
    ensures
        match r {
            Ok(t) => tables_match(t, *collected, chain.pos_reference_enable_height),
            Err(e) => pos_lookup(
                views(collected.blocks@),
                collected.pos_blocks@,
                least_view(collected.views@),
                chain.pos_reference_enable_height,
                collected.blocks@.len() as int,
            ) == Err::<Seq<PosLookupModel>, ExtractError>(e),
        },
{
    let min_pos_height: u64 = collected.least_view();
    build_tables(
        &collected.blocks,
        &collected.pos_blocks,
        min_pos_height,
        chain.pos_reference_enable_height,
    )
}

/// Makes the blocks that were collected into a packet.
pub fn build_packet(
    chain: &ChainParams,
    boundary: &PrevBoundary,
    collected: BlockCollector,
    pos_rewards: &ByteMap<PosRewardEntry>,
    unlocks: &Vec<EpochUnlocks>,
) -> (r: Result<Packet, ExtractError>)
    requires
        collected.wf(),
        pos_rewards.wf(),
        parties(views(collected.blocks@), collected.blocks@.len() as int).len() <= u64::MAX,
        prices(views(collected.blocks@), collected.blocks@.len() as int).len() <= u64::MAX,
    ensures
        match r {
            Ok(p) => {
                &&& packet_fault(chain.pos_reference_enable_height, collected) is None
                &&& p@ == packet_of(
                    chain.pos_reference_enable_height,
                    *boundary,
                    collected,
                    pos_rewards@,
                    unlocks@,
                )
                &&& tables_complete(p@)
                &&& p.blocks@.len() == collected.blocks@.len()
                &&& forall|i: int|
                    0 <= i < p.blocks@.len() ==> {
                        let b = #[trigger] p.blocks@[i];
                        let header = collected.blocks@[i].header;
                        &&& b.deferred_state_root@ == header.deferred_state_root@
                        &&& b.deferred_receipts_root@ == header.deferred_receipts_root@
                        &&& b.deferred_logs_bloom_hash@ == header.deferred_logs_bloom_hash@
                        &&& b.author@ == header.author@
                        &&& b.timestamp == header.timestamp
                        &&& b.height == header.height
                        &&& b.blame == header.blame
                        &&& b.difficulty@ == header.difficulty@
                        &&& b.gas_limit@ == header.gas_limit@
                        &&& header.base_price matches Some((core, espace)) ==> b.base_price_core@
                            == core@ && b.base_price_espace@ == espace@
                        &&& header.base_price is None ==> b.base_price_core@ == Seq::new(
                            32,
                            |k: int| 0u8,
                        ) && b.base_price_espace@ == Seq::new(32, |k: int| 0u8)
                        &&& b.epoch == collected.blocks@[i].epoch
                        &&& b.index == i
                        &&& b.hash@ == collected.blocks@[i].hash@
                        &&& b.flags == collected.blocks@[i].flags
                        &&& b.base_reward@ == collected.blocks@[i].reward.base_reward@
                        &&& b.transactions@.len() == collected.blocks@[i].body@.len()
                        &&& forall|j: int|
                            0 <= j < b.transactions@.len() ==> (#[trigger] b.transactions@[j])@
                                == collected.blocks@[i].body@[j]@
                    }
                &&& p.prev_last_hash@ == boundary.prev_last_hash@
                &&& p.prev_last_deferred_state_root@ == boundary.prev_last_deferred_state_root@
                &&& p.first_block_number == boundary.first_block_number
                &&& is_ranking(
                    parties(views(collected.blocks@), collected.blocks@.len() as int),
                    p@.addresses,
                )
            },
            Err(e) => packet_fault(chain.pos_reference_enable_height, collected) == Some(e),
        },
{
    let tables = match collected_tables(chain, &collected) {
        Ok(t) => t,
        Err(e) => {
            return Err(e);
        },
    };
    let ghost c = collected;
    let r = assemble_packet(chain, boundary, collected, tables, pos_rewards, unlocks);
    proof {
        if r is Ok {
            let p = r->Ok_0;
            let enable = chain.pos_reference_enable_height;
            let want = packet_of(enable, *boundary, c, pos_rewards@, unlocks@);
            assert forall|i: int| #![trigger p.blocks@[i]] 0 <= i < p.blocks@.len() implies
                p.blocks@[i]@ == want.blocks[i] && views(c.blocks@)[i] == c.blocks@[i]@
                && p.blocks@[i].transactions@.len() == c.blocks@[i].body@.len() by {
                assert(p@.blocks[i] == p.blocks@[i]@);
                law_packet_block(enable, *boundary, c, pos_rewards@, unlocks@, i);
                assert(p.blocks@[i]@.txs.len() == p.blocks@[i].transactions@.len());
            }
            assert forall|i: int, j: int|
                #![trigger p.blocks@[i].transactions@[j]]
                0 <= i < p.blocks@.len() && 0 <= j < p.blocks@[i].transactions@.len() implies
                p.blocks@[i].transactions@[j]@ == c.blocks@[i].body@[j]@ by {
                law_packet_block(enable, *boundary, c, pos_rewards@, unlocks@, i);
                assert(p.blocks@[i]@ == want.blocks[i]);
                assert(want.blocks[i].txs[j] == c.blocks@[i].body@[j]@);
                assert(p.blocks@[i]@.txs[j] == p.blocks@[i].transactions@[j]@);
            }
        }
    }
    r
}

/// Why a packet could not be extracted.
#[derive(Clone, Copy, Debug, PartialEq, Eq, Structural)]
pub enum PacketError {
    Extract(ExtractError),
    Packet(PackError),
}

/// Whether a report tells what was extracted.
pub open spec fn reports(r: ExtractReport, config: ExtractConfig, bytes: Seq<u8>, v: VerifyReport)
    -> bool {
    &&& r.start_epoch == config.start_epoch
    &&& r.epoch_count == config.epoch_count
    &&& r.block_count == v.block_count as usize
    &&& r.transaction_count == v.transaction_items as usize
    &&& r.packet_bytes == bytes.len()
    &&& r.output@.len() == 0
    &&& r.timing == no_time()
}

/// The report on a packet that was checked.
pub fn report_packet(config: &ExtractConfig, bytes: &Vec<u8>, found: &VerifyReport) -> (r:
    ExtractReport)
    ensures
        reports(r, *config, bytes@, *found),
{
    ExtractReport {
        start_epoch: config.start_epoch,
        epoch_count: config.epoch_count,
        block_count: found.block_count as usize,
        transaction_count: found.transaction_items as usize,
        packet_bytes: bytes.len(),
        output: String::new(),
        timing: ExtractTiming::default(),
    }
}

/// Makes the blocks that were collected into the bytes of a packet, checks them, and
/// reports what they hold.
pub fn extract_packet(
    config: &ExtractConfig,
    boundary: &PrevBoundary,
    collected: BlockCollector,
    pos_rewards: &ByteMap<PosRewardEntry>,
    unlocks: &Vec<EpochUnlocks>,
) -> (r: Result<(Vec<u8>, ExtractReport), PacketError>)
    requires
        collected.wf(),
        pos_rewards.wf(),
        parties(views(collected.blocks@), collected.blocks@.len() as int).len() <= u64::MAX,
        prices(views(collected.blocks@), collected.blocks@.len() as int).len() <= u64::MAX,
    ensures
        ({
            let enable = config.chain.pos_reference_enable_height;
            let p = packet_of(enable, *boundary, collected, pos_rewards@, unlocks@);
            match packet_fault(enable, collected) {
                Some(e) => r matches Err(f) && f == PacketError::Extract(e),
                None => match encoded(p) {
                    Err(e) => r matches Err(f) && f == PacketError::Packet(e),
                    Ok(bytes) => match verified(bytes) {
                        Err(e) => r matches Err(f) && f == PacketError::Packet(e),
                        Ok(v) => r matches Ok((out, report)) && out@ == bytes && reports(
                            report,
                            *config,
                            bytes,
                            v,
                        ),
                    },
                },
            }
        }),
{
    let packet = match build_packet(&config.chain, boundary, collected, pos_rewards, unlocks) {
        Ok(p) => p,
        Err(e) => {
            return Err(PacketError::Extract(e));
        },
    };
    let bytes = match encode_packet(&packet) {
        Ok(b) => b,
        Err(e) => {
            return Err(PacketError::Packet(e));
        },
    };
    match verify_packet(bytes.as_slice()) {
        Ok(v) => {
            let report = report_packet(config, &bytes, &v);
            Ok((bytes, report))
        },
        Err(e) => Err(PacketError::Packet(e)),
    }
}

/// The senders of base nonces are listed by increasing places.
proof fn lemma_base_table(blocks: Seq<RawModel>, addresses: Seq<Seq<u8>>, n: int)
    requires
        0 <= n,
    ensures
        forall|i: int|
            0 <= i < base_table(blocks, addresses, n).len() ==> (#[trigger] base_table(
                blocks,
                addresses,
                n,
            )[i]).0 < n,
        forall|i: int, j: int|
            0 <= i < j < base_table(blocks, addresses, n).len() ==> (#[trigger] base_table(
                blocks,
                addresses,
                n,
            )[i]).0 < (#[trigger] base_table(blocks, addresses, n)[j]).0,
    decreases n,
{
    if n > 0 {
        lemma_base_table(blocks, addresses, n - 1);
        let done = base_table(blocks, addresses, n - 1);
        let all = base_table(blocks, addresses, n);
        assert forall|i: int| 0 <= i < all.len() implies (#[trigger] all[i]).0 < n by {
            if i < done.len() {
                assert(all[i] == done[i]);
            }
        }
        assert forall|i: int, j: int| 0 <= i < j < all.len() implies (#[trigger] all[i]).0 < (
        #[trigger] all[j]).0 by {
            assert(all[i] == done[i]);
            if j < done.len() {
                assert(all[j] == done[j]);
            }
        }
    }
}

/// No transaction occurs twice in a block.
pub open spec fn no_repeats(b: RawModel) -> bool {
    forall|i: int, j: int|
        #![trigger b.txs[i], b.txs[j]]
        0 <= i < j < b.txs.len() ==> b.txs[i].identity != b.txs[j].identity
}

/// A packet that was extracted can be read back, where no block holds a transaction
/// twice and exactly the blocks from a height on refer to a PoS block.
pub proof fn law_extracted_readable(
    enable: u64,
    boundary: PrevBoundary,
    c: BlockCollector,
    rewards: Map<Seq<u8>, RewardModel>,
    unlocks: Seq<EpochUnlocks>,
)
    requires
        packet_shape(packet_of(enable, boundary, c, rewards, unlocks)),
        forall|i: int| 0 <= i < c.blocks@.len() ==> no_repeats((#[trigger] c.blocks@[i])@),
        forall|i: int|
            0 <= i < c.blocks@.len() && (#[trigger] c.blocks@[i]).header.height >= enable ==> view_of(
                c.blocks@[i]@.header,
                c.pos_blocks@,
                enable,
            ) is Some,
    ensures
        readable(packet_of(enable, boundary, c, rewards, unlocks), Some(enable)),
{
    let p = packet_of(enable, boundary, c, rewards, unlocks);
    let all = views(c.blocks@);
    lemma_base_table(all, p.addresses, p.addresses.len() as int);
    assert(one_base(p.base_nonces)) by {
        assert forall|i: int, j: int|
            0 <= i < p.base_nonces.len() && 0 <= j < p.base_nonces.len() && i != j implies
            #[trigger] p.base_nonces[i].0 != #[trigger] p.base_nonces[j].0 by {
            if i < j {
                assert(p.base_nonces[i].0 < p.base_nonces[j].0);
            } else {
                assert(p.base_nonces[j].0 < p.base_nonces[i].0);
            }
        }
    }
    assert forall|k: int| #![trigger p.blocks[k]] 0 <= k < p.blocks.len() implies refs_back(
        p,
        k,
    ) by {
        let b = p.blocks[k];
        assert(c.blocks@[k]@ == all[k]);
        assert(no_repeats(c.blocks@[k]@));
        assert(b.txs == all[k].txs);
        assert(b.refs.len() == 0);
    }
    assert forall|k: int| 0 <= k < p.blocks.len() implies (#[trigger] p.blocks[k]).pos_view is Some
        == (p.blocks[k].height >= enable) by {
        assert(c.blocks@[k]@ == all[k]);
        assert(c.blocks@[k].header.height == all[k].header.height);
    }
}

} // verus!
