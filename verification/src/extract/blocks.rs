//! The blocks of a range of epochs as a node stores them, and how they become the
//! blocks of a packet.
use crate::bytemap::ByteMap;
use crate::bytes::to_vec;
use crate::cfxpack::encode::{flag, has_flag};
use crate::cfxpack::packet::{views, SignedTransaction, TxModel, FLAG_ADAPTIVE, FLAG_ESPACE, FLAG_PIVOT, FLAG_SKIPPED_EXECUTION, FLAG_ZERO_TOTAL_REWARD};
use crate::cfxpack::types::{zeros, Address, U256};
use crate::extract::config::ChainParams;
use crate::types::H256;
use vstd::prelude::*;

verus! {

/// Why the data of a node cannot be made into a packet.
#[derive(Clone, Copy, Debug, PartialEq, Eq, Structural)]
pub enum ExtractError {
    NoPivot,
    MissingCommitted,
    PosViewBelowMin,
    PosOffsetTooLarge,
}

/// The header of a block, as far as it is extracted. The base prices are those of the
/// native space and of eSpace.
#[derive(Clone, Copy, Debug)]
pub struct Header {
    pub height: u64,
    pub timestamp: u64,
    pub adaptive: bool,
    pub author: Address,
    pub difficulty: U256,
    pub gas_limit: U256,
    pub base_price: Option<(U256, U256)>,
    pub blame: u32,
    pub deferred_state_root: H256,
    pub deferred_receipts_root: H256,
    pub deferred_logs_bloom_hash: H256,
    pub pos_reference: Option<H256>,
}

/// What a [`Header`] holds.
pub struct HeaderModel {
    pub height: u64,
    pub timestamp: u64,
    pub adaptive: bool,
    pub author: Seq<u8>,
    pub difficulty: Seq<u8>,
    pub gas_limit: Seq<u8>,
    pub base_price: Option<(Seq<u8>, Seq<u8>)>,
    pub blame: u32,
    pub state_root: Seq<u8>,
    pub receipts_root: Seq<u8>,
    pub logs_bloom: Seq<u8>,
    pub pos_reference: Option<Seq<u8>>,
}

/// A hash or nothing.
pub open spec fn hash_view(h: Option<H256>) -> Option<Seq<u8>> {
    match h {
        Some(v) => Some(v@),
        None => None,
    }
}

impl View for Header {
    type V = HeaderModel;

    open spec fn view(&self) -> HeaderModel {
        HeaderModel {
            height: self.height,
            timestamp: self.timestamp,
            adaptive: self.adaptive,
            author: self.author@,
            difficulty: self.difficulty@,
            gas_limit: self.gas_limit@,
            base_price: match self.base_price {
                Some((core, espace)) => Some((core@, espace@)),
                None => None,
            },
            blame: self.blame,
            state_root: self.deferred_state_root@,
            receipts_root: self.deferred_receipts_root@,
            logs_bloom: self.deferred_logs_bloom_hash@,
            pos_reference: hash_view(self.pos_reference),
        }
    }
}

/// The settled reward of a block.
#[derive(Clone, Copy, Debug)]
pub struct BlockReward {
    pub base_reward: U256,
    pub total_reward: U256,
}

impl Default for BlockReward {
    fn default() -> (r: Self)
        ensures
            r.base_reward@ == zeros(32),
            r.total_reward@ == zeros(32),
    {
        BlockReward { base_reward: U256::zero(), total_reward: U256::zero() }
    }
}

/// The blocks of an epoch that were executed, the pivot block last, and those whose
/// execution was skipped.
#[derive(Debug)]
pub struct EpochBlocks {
    pub number: u64,
    pub executed: Vec<H256>,
    pub skipped: Vec<H256>,
}

/// A PoS block: its view, its version, and the height of the block that it decided on
/// as pivot.
#[derive(Clone, Copy, Debug, PartialEq, Eq, Structural)]
pub struct CommittedBlock {
    pub view: u64,
    pub version: u64,
    pub pivot_height: u64,
}

impl View for CommittedBlock {
    type V = CommittedBlock;

    open spec fn view(&self) -> CommittedBlock {
        *self
    }
}

/// A block as it was read, with its flags.
#[derive(Debug)]
pub struct RawBlock {
    pub epoch: u64,
    pub hash: H256,
    pub header: Header,
    pub body: Vec<SignedTransaction>,
    pub reward: BlockReward,
    pub flags: u8,
}

/// What a [`RawBlock`] holds.
pub struct RawModel {
    pub epoch: u64,
    pub hash: Seq<u8>,
    pub header: HeaderModel,
    pub txs: Seq<TxModel>,
    pub base_reward: Seq<u8>,
    pub total_reward: Seq<u8>,
    pub flags: u8,
}

impl View for RawBlock {
    type V = RawModel;

    open spec fn view(&self) -> RawModel {
        RawModel {
            epoch: self.epoch,
            hash: self.hash@,
            header: self.header@,
            txs: views(self.body@),
            base_reward: self.reward.base_reward@,
            total_reward: self.reward.total_reward@,
            flags: self.flags,
        }
    }
}

impl EpochBlocks {
    /// The blocks in the order of a packet: those that were executed but the pivot,
    /// those that were skipped, and the pivot.
    pub fn packet_order(&self) -> (r: Result<Vec<H256>, ExtractError>)
        ensures
            match r {
                Ok(order) => self.executed@.len() > 0 && order@ == self.executed@.drop_last()
                    + self.skipped@.push(self.executed@.last()),
                Err(e) => self.executed@.len() == 0 && e == ExtractError::NoPivot,
            },
    {
        if self.executed.len() == 0 {
            return Err(ExtractError::NoPivot);
        }
        let last: usize = self.executed.len() - 1;
        let mut out: Vec<H256> = Vec::new();
        let mut i: usize = 0;
        while i < last
            invariant
                i <= last,
                last < self.executed@.len(),
                out@ == self.executed@.take(i as int),
            decreases last - i,
        {
            out.push(self.executed[i]);
            i += 1;
            proof {
                assert(out@ =~= self.executed@.take(i as int));
            }
        }
        let ghost head = out@;
        let mut i: usize = 0;
        proof {
            assert(out@ =~= head + self.skipped@.take(0));
        }
        while i < self.skipped.len()
            invariant
                i <= self.skipped@.len(),
                out@ == head + self.skipped@.take(i as int),
            decreases self.skipped@.len() - i,
        {
            out.push(self.skipped[i]);
            i += 1;
            proof {
                assert(out@ =~= head + self.skipped@.take(i as int));
            }
        }
        out.push(self.executed[last]);
        proof {
            assert(out@ =~= self.executed@.drop_last() + self.skipped@.push(
                self.executed@.last(),
            ));
        }
        Ok(out)
    }

    /// Whether the execution of a block was skipped.
    pub fn is_skipped(&self, hash: &H256) -> (r: bool)
        ensures
            r == self.skipped@.contains(*hash),
    {
        let mut i: usize = 0;
        while i < self.skipped.len()
            invariant
                i <= self.skipped@.len(),
                forall|k: int| 0 <= k < i ==> #[trigger] self.skipped@[k] != *hash,
            decreases self.skipped@.len() - i,
        {
            if self.skipped[i] == *hash {
                proof {
                    assert(self.skipped@[i as int] == *hash);
                }
                return true;
            }
            i += 1;
        }
        false
    }

    /// The pivot block: the last that was executed.
    pub fn pivot(&self) -> (r: Result<H256, ExtractError>)
        ensures
            match r {
                Ok(h) => self.executed@.len() > 0 && h == self.executed@.last(),
                Err(e) => self.executed@.len() == 0 && e == ExtractError::NoPivot,
            },
    {
        if self.executed.len() == 0 {
            return Err(ExtractError::NoPivot);
        }
        Ok(self.executed[self.executed.len() - 1])
    }
}

/// The hashes of the pivot blocks, whose PoS rewards are looked for.
pub fn pivot_hashes(blocks: &Vec<RawBlock>) -> (r: Vec<H256>)
    ensures
        forall|h: H256|
            r@.contains(h) <==> exists|i: int|
                0 <= i < blocks@.len() && (#[trigger] blocks@[i]).hash == h && flag(
                    blocks@[i].flags,
                    FLAG_PIVOT,
                ),
{
    let mut out: Vec<H256> = Vec::new();
    let mut n: usize = 0;
    while n < blocks.len()
        invariant
            n <= blocks@.len(),
            forall|h: H256|
                out@.contains(h) <==> exists|i: int|
                    0 <= i < n && (#[trigger] blocks@[i]).hash == h && flag(
                        blocks@[i].flags,
                        FLAG_PIVOT,
                    ),
        decreases blocks@.len() - n,
    {
        let ghost before = out@;
        if has_flag(blocks[n].flags, FLAG_PIVOT) {
            out.push(blocks[n].hash);
            proof {
                assert(out@[before.len() as int] == blocks@[n as int].hash);
            }
        }
        proof {
            assert forall|h: H256|
                out@.contains(h) <==> exists|i: int|
                    0 <= i < n + 1 && (#[trigger] blocks@[i]).hash == h && flag(
                        blocks@[i].flags,
                        FLAG_PIVOT,
                    ) by {
                if before.contains(h) {
                    let k = choose|k: int| 0 <= k < before.len() && before[k] == h;
                    assert(out@[k] == h);
                }
                if out@.contains(h) {
                    let k = choose|k: int| 0 <= k < out@.len() && out@[k] == h;
                    if k < before.len() {
                        assert(before[k] == h);
                    } else {
                        assert(blocks@[n as int].hash == h);
                    }
                }
            }
        }
        n += 1;
    }
    out
}

/// A flag bit where a condition holds.
pub open spec fn bit_if(condition: bool, bit: u8) -> int {
    if condition {
        bit as int
    } else {
        0
    }
}

/// The flags of a block.
pub open spec fn flags_of(
    ratio: u64,
    header: HeaderModel,
    total_reward: Seq<u8>,
    pivot: bool,
    skipped: bool,
) -> u8 {
    (bit_if(header.adaptive, FLAG_ADAPTIVE) + bit_if(pivot, FLAG_PIVOT) + bit_if(
        pivot && header.height % ratio == 0,
        FLAG_ESPACE,
    ) + bit_if(skipped, FLAG_SKIPPED_EXECUTION) + bit_if(
        total_reward == zeros(32),
        FLAG_ZERO_TOTAL_REWARD,
    )) as u8
}

/// The flags of a block.
pub fn block_flags(
    chain: &ChainParams,
    header: &Header,
    reward: &BlockReward,
    pivot: bool,
    skipped: bool,
) -> (r: u8)
    requires
        chain.evm_transaction_block_ratio > 0,
    ensures
        r == flags_of(
            chain.evm_transaction_block_ratio,
            header@,
            reward.total_reward@,
            pivot,
            skipped,
        ),
{
    let mut flags: u8 = 0;
    if header.adaptive {
        flags = flags + FLAG_ADAPTIVE;
    }
    if pivot {
        flags = flags + FLAG_PIVOT;
    }
    if pivot && header.height % chain.evm_transaction_block_ratio == 0 {
        flags = flags + FLAG_ESPACE;
    }
    if skipped {
        flags = flags + FLAG_SKIPPED_EXECUTION;
    }
    if reward.total_reward.same(&U256::zero()) {
        flags = flags + FLAG_ZERO_TOTAL_REWARD;
    }
    flags
}

/// The PoS reference of a block, which counts as absent below a height.
pub open spec fn pos_ref(header: HeaderModel, enable_height: u64) -> Option<Seq<u8>> {
    if header.height < enable_height {
        None
    } else {
        header.pos_reference
    }
}

/// The PoS reference of a block, which counts as absent below a height.
pub fn effective_pos_reference(header: &Header, pos_reference_enable_height: u64) -> (r: Option<
    H256,
>)
    ensures
        hash_view(r) == pos_ref(header@, pos_reference_enable_height),
{
    if header.height < pos_reference_enable_height {
        None
    } else {
        header.pos_reference
    }
}

/// The least of the first `n` numbers, and the greatest 64-bit number where there is
/// none.
pub open spec fn least(s: Seq<u64>) -> u64
    decreases s.len(),
{
    if s.len() == 0 {
        u64::MAX
    } else if s.last() < least(s.drop_last()) {
        s.last()
    } else {
        least(s.drop_last())
    }
}

/// The least number is one of them, and no other is less.
pub proof fn law_least(s: Seq<u64>)
    ensures
        forall|i: int| 0 <= i < s.len() ==> least(s) <= #[trigger] s[i],
        s.len() > 0 ==> s.contains(least(s)),
    decreases s.len(),
{
    if s.len() > 0 {
        let t = s.drop_last();
        law_least(t);
        assert forall|i: int| 0 <= i < s.len() implies least(s) <= #[trigger] s[i] by {
            if i < t.len() {
                assert(t[i] == s[i]);
            }
        }
        assert(s[s.len() - 1] == s.last());
        if t.len() > 0 && least(s) != s.last() {
            let k = choose|k: int| 0 <= k < t.len() && t[k] == least(t);
            assert(s[k] == least(s));
        }
    }
}

/// The timestamps of blocks.
pub open spec fn timestamps(blocks: Seq<RawModel>) -> Seq<u64> {
    Seq::new(blocks.len(), |i: int| blocks[i].header.timestamp)
}

/// The heights of blocks.
pub open spec fn heights(blocks: Seq<RawModel>) -> Seq<u64> {
    Seq::new(blocks.len(), |i: int| blocks[i].header.height)
}

/// The blocks of a range, as they are collected one after the other.
pub struct BlockCollector {
    pub blocks: Vec<RawBlock>,
    pub min_timestamp: u64,
    pub min_height: u64,
    pub min_pos_height: u64,
    pub pos_blocks: ByteMap<CommittedBlock>,
    pub views: Ghost<Seq<u64>>,
}

impl BlockCollector {
    /// The minimums are those of the blocks, and of the PoS blocks that they refer to.
    pub open spec fn wf(&self) -> bool {
        &&& self.pos_blocks.wf()
        &&& self.min_timestamp == least(timestamps(views(self.blocks@)))
        &&& self.min_height == least(heights(views(self.blocks@)))
        &&& self.min_pos_height == least(self.views@)
    }

    /// A collector without blocks.
    pub fn new() -> (r: Self)
        ensures
            r.wf(),
            r.blocks@.len() == 0,
            r.pos_blocks@ == Map::<Seq<u8>, CommittedBlock>::empty(),
            r.views@.len() == 0,
    {
        BlockCollector {
            blocks: Vec::new(),
            min_timestamp: u64::MAX,
            min_height: u64::MAX,
            min_pos_height: u64::MAX,
            pos_blocks: ByteMap::new(),
            views: Ghost(Seq::empty()),
        }
    }

    /// Adds a block of an epoch. Where it has a PoS reference that counts, the PoS block
    /// must be given; a block without a stored reward has none.
    pub fn add_block(
        &mut self,
        chain: &ChainParams,
        epoch: &EpochBlocks,
        hash: H256,
        header: Header,
        body: Vec<SignedTransaction>,
        reward: Option<BlockReward>,
        committed: Option<CommittedBlock>,
    ) -> (r: Result<(), ExtractError>)
        requires
            old(self).wf(),
            chain.evm_transaction_block_ratio > 0,
        ensures
            ({
                let enable = chain.pos_reference_enable_height;
                let known = old(self).pos_blocks@;
                let heard = old(self).views@;
                let total = match reward {
                    Some(v) => v.total_reward@,
                    None => zeros(32),
                };
                &&& match r {
                    Ok(_) => {
                        &&& final(self).wf()
                        &&& epoch.executed@.len() > 0
                        &&& views(final(self).blocks@) == views(old(self).blocks@).push(
                            RawModel {
                                epoch: epoch.number,
                                hash: hash@,
                                header: header@,
                                txs: views(body@),
                                base_reward: match reward {
                                    Some(v) => v.base_reward@,
                                    None => zeros(32),
                                },
                                total_reward: total,
                                flags: flags_of(
                                    chain.evm_transaction_block_ratio,
                                    header@,
                                    total,
                                    hash == epoch.executed@.last(),
                                    epoch.skipped@.contains(hash),
                                ),
                            },
                        )
                        &&& match pos_ref(header@, enable) {
                            Some(at) => {
                                &&& committed is Some
                                &&& final(self).pos_blocks@ == known.insert(at, committed->0)
                                &&& final(self).views@ == heard.push((committed->0).view)
                            },
                            None => {
                                &&& final(self).pos_blocks@ == known
                                &&& final(self).views@ == heard
                            },
                        }
                    },
                    Err(e) => (e == ExtractError::NoPivot && epoch.executed@.len() == 0) || (e
                        == ExtractError::MissingCommitted && epoch.executed@.len() > 0 && pos_ref(
                        header@,
                        enable,
                    ) is Some && committed is None),
                }
            }),
    {
        let ghost before = views(self.blocks@);
        let pivot_hash = match epoch.pivot() {
            Ok(h) => h,
            Err(e) => {
                return Err(e);
            },
        };
        let settled: BlockReward = match reward {
            Some(v) => v,
            None => BlockReward::default(),
        };
        match effective_pos_reference(&header, chain.pos_reference_enable_height) {
            Some(at) => {
                match committed {
                    Some(c) => {
                        if c.view < self.min_pos_height {
                            self.min_pos_height = c.view;
                        }
                        proof {
                            let more = self.views@.push(c.view);
                            assert(more.drop_last() =~= self.views@);
                        }
                        self.views = Ghost(self.views@.push(c.view));
                        self.pos_blocks.insert(to_vec(at.as_bytes().as_slice()), c);
                    },
                    None => {
                        return Err(ExtractError::MissingCommitted);
                    },
                }
            },
            None => {},
        }
        let skipped: bool = epoch.is_skipped(&hash);
        let flags: u8 = block_flags(chain, &header, &settled, hash == pivot_hash, skipped);
        if header.timestamp < self.min_timestamp {
            self.min_timestamp = header.timestamp;
        }
        if header.height < self.min_height {
            self.min_height = header.height;
        }
        let block = RawBlock { epoch: epoch.number, hash, header, body, reward: settled, flags };
        let ghost m = block@;
        self.blocks.push(block);
        proof {
            let after = views(self.blocks@);
            assert(after =~= before.push(m));
            assert(timestamps(after).drop_last() =~= timestamps(before));
            assert(heights(after).drop_last() =~= heights(before));
        }
        Ok(())
    }

    /// The least view of the PoS blocks that are referred to, and zero where there are
    /// none.
    pub fn least_view(&self) -> (r: u64)
        requires
            self.wf(),
        ensures
            r == (if least(self.views@) == u64::MAX {
                0
            } else {
                least(self.views@)
            }),
    {
        if self.min_pos_height == u64::MAX {
            0
        } else {
            self.min_pos_height
        }
    }
}

} // verus!
