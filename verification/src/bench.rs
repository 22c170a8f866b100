//! What decoding packets adds up to.
use crate::cfxpack::decode::{decode_packet, decoded};
use crate::cfxpack::error::PackError;
use crate::cfxpack::packet::{views, Block, BlockModel};
use crate::cfxpack::verify::total_txs;
use vstd::prelude::*;

verus! {

/// What a benchmark of decoding has measured.
#[derive(Clone, Copy, Debug, PartialEq, Eq, Structural)]
pub struct DecodeBenchReport {
    pub jobs: usize,
    pub packet_count: usize,
    pub total_epochs: u64,
    pub total_bytes: usize,
    pub total_blocks: usize,
    pub total_transactions: usize,
    pub load_ms: u128,
    pub decode_ms: u128,
}

proof fn lemma_total_grows(blocks: Seq<BlockModel>, i: int, n: int)
    requires
        0 <= i <= n,
    ensures
        total_txs(blocks, i) <= total_txs(blocks, n),
    decreases n,
{
    if i < n {
        lemma_total_grows(blocks, i, n - 1);
    }
}

/// The blocks and transactions of a packet, or why there are none to count.
pub open spec fn counted(data: Seq<u8>) -> Result<(nat, nat), PackError> {
    match decoded(data, None) {
        Err(e) => Err(e),
        Ok(p) => {
            let n = p.blocks.len() as int;
            if total_txs(p.blocks, n) > usize::MAX {
                Err(PackError::ValueTooLarge)
            } else {
                Ok((n as nat, total_txs(p.blocks, n)))
            }
        },
    }
}

/// Counts the transactions of blocks, where the sum can be held.
fn sum_transactions(blocks: &Vec<Block>) -> (r: Option<usize>)
    ensures
        match r {
            Some(n) => total_txs(views(blocks@), blocks@.len() as int) == n,
            None => total_txs(views(blocks@), blocks@.len() as int) > usize::MAX,
        },
{
    let ghost all = views(blocks@);
    let mut sum: usize = 0;
    let mut i: usize = 0;
    while i < blocks.len()
        invariant
            i <= blocks@.len(),
            all == views(blocks@),
            sum == total_txs(all, i as int),
        decreases blocks@.len() - i,
    {
        let n: usize = blocks[i].transactions.len();
        proof {
            assert(all[i as int].txs.len() == n);
            lemma_total_grows(all, i + 1, all.len() as int);
        }
        if n > usize::MAX - sum {
            return None;
        }
        sum = sum + n;
        i += 1;
    }
    Some(sum)
}

/// Decodes a packet and counts its blocks and transactions.
pub fn count_packet(data: &[u8]) -> (r: Result<(usize, usize), PackError>)
    ensures
        match r {
            Ok((blocks, transactions)) => counted(data@) == Ok::<(nat, nat), PackError>(
                (blocks as nat, transactions as nat),
            ),
            Err(e) => counted(data@) == Err::<(nat, nat), PackError>(e),
        },
{
    let p = match decode_packet(data) {
        Ok(p) => p,
        Err(e) => {
            return Err(e);
        },
    };
    match sum_transactions(&p.blocks) {
        Some(n) => Ok((p.blocks.len(), n)),
        None => Err(PackError::ValueTooLarge),
    }
}

impl DecodeBenchReport {
    /// Adds a packet that was read.
    pub fn add_packet(&mut self, epochs: u64, bytes: usize)
        requires
            old(self).packet_count < usize::MAX,
            old(self).total_epochs + epochs <= u64::MAX,
            old(self).total_bytes + bytes <= usize::MAX,
        ensures
            *final(self) == (DecodeBenchReport {
                packet_count: (old(self).packet_count + 1) as usize,
                total_epochs: (old(self).total_epochs + epochs) as u64,
                total_bytes: (old(self).total_bytes + bytes) as usize,
                ..*old(self)
            }),
    {
        self.packet_count = self.packet_count + 1;
        self.total_epochs = self.total_epochs + epochs;
        self.total_bytes = self.total_bytes + bytes;
    }

    /// Adds what a worker has counted.
    pub fn add_counts(&mut self, blocks: usize, transactions: usize)
        requires
            old(self).total_blocks + blocks <= usize::MAX,
            old(self).total_transactions + transactions <= usize::MAX,
        ensures
            *final(self) == (DecodeBenchReport {
                total_blocks: (old(self).total_blocks + blocks) as usize,
                total_transactions: (old(self).total_transactions + transactions) as usize,
                ..*old(self)
            }),
    {
        self.total_blocks = self.total_blocks + blocks;
        self.total_transactions = self.total_transactions + transactions;
    }
}

} // verus!
