//! What is extracted, and how the epochs are divided.
use crate::cfxpack::names::{shard_name, shard_text};
use vstd::prelude::*;
use vstd::string::StringExecFns;

verus! {

/// Chain parameters that decide how fields are extracted.
#[derive(Clone, Copy, Debug, PartialEq, Eq, Structural)]
pub struct ChainParams {
    /// A pivot block carries eSpace transactions where its height is a multiple of this.
    pub evm_transaction_block_ratio: u64,
    /// Below this height a block's PoS reference counts as absent.
    pub pos_reference_enable_height: u64,
    /// The height from which on the custom field of a header is encoded anew.
    pub cip112_transition_height: u64,
}

impl Default for ChainParams {
    fn default() -> (r: Self)
        ensures
            r.evm_transaction_block_ratio == 5,
            r.pos_reference_enable_height == u64::MAX,
            r.cip112_transition_height == u64::MAX,
    {
        ChainParams {
            evm_transaction_block_ratio: 5,
            pos_reference_enable_height: u64::MAX,
            cip112_transition_height: u64::MAX,
        }
    }
}

/// What is extracted from where.
#[derive(Debug)]
pub struct ExtractConfig {
    pub data_dir: String,
    pub start_epoch: u64,
    pub epoch_count: u64,
    pub chain: ChainParams,
}

impl Default for ExtractConfig {
    fn default() -> (r: Self)
        ensures
            r.data_dir@ == "data/blockchain_data"@,
            r.start_epoch == 1,
            r.epoch_count == 2,
            r.chain.evm_transaction_block_ratio == 5,
            r.chain.pos_reference_enable_height == u64::MAX,
            r.chain.cip112_transition_height == u64::MAX,
    {
        ExtractConfig {
            data_dir: String::from_str("data/blockchain_data"),
            start_epoch: 1,
            epoch_count: 2,
            chain: ChainParams::default(),
        }
    }
}

/// How long the steps of an extraction took, in milliseconds.
#[derive(Clone, Copy, Debug, PartialEq, Eq, Structural)]
pub struct ExtractTiming {
    pub load_epochs_ms: u128,
    pub read_blocks_ms: u128,
    pub build_tables_ms: u128,
    pub build_blocks_ms: u128,
    pub encode_ms: u128,
    pub verify_ms: u128,
    pub write_ms: u128,
}

impl Default for ExtractTiming {
    fn default() -> (r: Self)
        ensures
            r == no_time(),
    {
        ExtractTiming {
            load_epochs_ms: 0,
            read_blocks_ms: 0,
            build_tables_ms: 0,
            build_blocks_ms: 0,
            encode_ms: 0,
            verify_ms: 0,
            write_ms: 0,
        }
    }
}

/// No time at all.
pub open spec fn no_time() -> ExtractTiming {
    ExtractTiming {
        load_epochs_ms: 0,
        read_blocks_ms: 0,
        build_tables_ms: 0,
        build_blocks_ms: 0,
        encode_ms: 0,
        verify_ms: 0,
        write_ms: 0,
    }
}

/// What an extraction has written.
#[derive(Debug)]
pub struct ExtractReport {
    pub start_epoch: u64,
    pub epoch_count: u64,
    pub block_count: usize,
    pub transaction_count: usize,
    pub packet_bytes: usize,
    pub output: String,
    pub timing: ExtractTiming,
}

/// Why a run cannot start.
#[derive(Clone, Copy, Debug, PartialEq, Eq, Structural)]
pub enum RunError {
    NoEpochs,
    NoShardEpochs,
    NoJobs,
    NoTarget,
    EpochRange,
}

/// Why a run with these arguments cannot start, if so. The size that a container
/// should reach is given where containers are written.
pub open spec fn run_fault(
    start_epoch: u64,
    epoch_count: u64,
    shard_epochs: u64,
    jobs: usize,
    target_bytes: Option<u64>,
) -> Option<RunError> {
    if epoch_count == 0 {
        Some(RunError::NoEpochs)
    } else if shard_epochs == 0 {
        Some(RunError::NoShardEpochs)
    } else if jobs == 0 {
        Some(RunError::NoJobs)
    } else if target_bytes == Some(0u64) {
        Some(RunError::NoTarget)
    } else if start_epoch + epoch_count > u64::MAX {
        Some(RunError::EpochRange)
    } else {
        None
    }
}

/// Checks the arguments of a run.
pub fn check_run(
    config: &ExtractConfig,
    shard_epochs: u64,
    jobs: usize,
    target_bytes: Option<u64>,
) -> (r: Result<(), RunError>)
    ensures
        match r {
            Ok(_) => run_fault(
                config.start_epoch,
                config.epoch_count,
                shard_epochs,
                jobs,
                target_bytes,
            ) is None,
            Err(e) => run_fault(
                config.start_epoch,
                config.epoch_count,
                shard_epochs,
                jobs,
                target_bytes,
            ) == Some(e),
        },
{
    if config.epoch_count == 0 {
        return Err(RunError::NoEpochs);
    }
    if shard_epochs == 0 {
        return Err(RunError::NoShardEpochs);
    }
    if jobs == 0 {
        return Err(RunError::NoJobs);
    }
    match target_bytes {
        Some(target) => {
            if target == 0 {
                return Err(RunError::NoTarget);
            }
        },
        None => {},
    }
    if config.start_epoch > u64::MAX - config.epoch_count {
        return Err(RunError::EpochRange);
    }
    Ok(())
}

/// A group of epochs that one worker extracts.
#[derive(Clone, Copy, Debug, PartialEq, Eq, Structural)]
pub struct PackTask {
    pub group_index: u64,
    pub start_epoch: u64,
    pub epoch_count: u64,
}

/// The number of groups of `size` epochs that `count` epochs take.
pub open spec fn group_total(count: u64, size: u64) -> nat {
    ((count + size - 1) / size as int) as nat
}

/// Group `i` of `count` epochs from `start` on, in groups of `size` epochs.
pub open spec fn task_at(start: u64, count: u64, size: u64, i: int) -> PackTask {
    PackTask {
        group_index: i as u64,
        start_epoch: (start + i * size) as u64,
        epoch_count: if count - i * size < size {
            (count - i * size) as u64
        } else {
            size
        },
    }
}

proof fn lemma_group_fits(count: u64, size: u64, i: int)
    requires
        0 < size,
        0 <= i < group_total(count, size),
    ensures
        0 <= i * size < count,
{
    let total = group_total(count, size) as int;
    assert(total * size <= count + size - 1) by (nonlinear_arith)
        requires
            total == (count + size - 1) / size as int,
            size > 0,
            count >= 0,
    ;
    assert(i * size <= (total - 1) * size) by (nonlinear_arith)
        requires
            i <= total - 1,
            size > 0,
    ;
    assert((total - 1) * size == total * size - size) by (nonlinear_arith);
    assert(0 <= i * size) by (nonlinear_arith)
        requires
            i >= 0,
            size > 0,
    ;
}

/// Divides the epochs of a run into groups.
pub fn build_pack_tasks(config: &ExtractConfig, shard_epochs: u64) -> (r: Vec<PackTask>)
    requires
        shard_epochs > 0,
        config.start_epoch + config.epoch_count <= u64::MAX,
    ensures
        r@.len() == group_total(config.epoch_count, shard_epochs),
        forall|i: int|
            0 <= i < r@.len() ==> #[trigger] r@[i] == task_at(
                config.start_epoch,
                config.epoch_count,
                shard_epochs,
                i,
            ),
{
    let count: u64 = config.epoch_count;
    let total: u64 = if count == 0 {
        0
    } else {
        (count - 1) / shard_epochs + 1
    };
    proof {
        if count == 0 {
            assert((shard_epochs - 1) / shard_epochs as int == 0) by (nonlinear_arith)
                requires
                    shard_epochs > 0,
            ;
        } else {
            assert((count + shard_epochs - 1) / shard_epochs as int == (count - 1)
                / shard_epochs as int + 1) by (nonlinear_arith)
                requires
                    shard_epochs > 0,
                    count > 0,
            ;
        }
    }
    let mut out: Vec<PackTask> = Vec::new();
    let mut index: u64 = 0;
    while index < total
        invariant
            index <= total,
            total == group_total(count, shard_epochs),
            shard_epochs > 0,
            count == config.epoch_count,
            config.start_epoch + count <= u64::MAX,
            out@.len() == index,
            forall|i: int|
                0 <= i < index ==> #[trigger] out@[i] == task_at(
                    config.start_epoch,
                    count,
                    shard_epochs,
                    i,
                ),
        decreases total - index,
    {
        proof {
            lemma_group_fits(count, shard_epochs, index as int);
        }
        let skipped: u64 = index * shard_epochs;
        let remaining: u64 = count - skipped;
        let epoch_count: u64 = if remaining < shard_epochs {
            remaining
        } else {
            shard_epochs
        };
        out.push(
            PackTask {
                group_index: index,
                start_epoch: config.start_epoch + skipped,
                epoch_count,
            },
        );
        index += 1;
    }
    out
}

/// Every epoch of a run belongs to exactly one group, and the groups hold no other.
pub proof fn law_groups_partition(start: u64, count: u64, size: u64, epoch: int, i: int)
    requires
        size > 0,
        start + count <= u64::MAX,
        0 <= i < group_total(count, size),
    ensures
        ({
            let t = task_at(start, count, size, i);
            &&& t.group_index == i
            &&& t.epoch_count > 0
            &&& (t.start_epoch <= epoch < t.start_epoch + t.epoch_count <==> start <= epoch < start
                + count && i == (epoch - start) / size as int)
        }),
{
    lemma_group_fits(count, size, i);
    assert(i < count) by (nonlinear_arith)
        requires
            0 <= i,
            i * size < count,
            size > 0,
    ;
    let t = task_at(start, count, size, i);
    if start <= epoch < start + count && i == (epoch - start) / size as int {
        assert(i * size <= epoch - start < i * size + size) by (nonlinear_arith)
            requires
                i == (epoch - start) / size as int,
                epoch >= start,
                size > 0,
        ;
    }
    if t.start_epoch <= epoch < t.start_epoch + t.epoch_count {
        assert((epoch - start) / size as int == i) by (nonlinear_arith)
            requires
                i * size <= epoch - start < i * size + size,
                size > 0,
                i >= 0,
        ;
    }
}

/// The group of every epoch of a run is one of its groups.
pub proof fn law_groups_cover(start: u64, count: u64, size: u64, epoch: int)
    requires
        size > 0,
        start <= epoch < start + count,
    ensures
        0 <= (epoch - start) / (size as int) < group_total(count, size),
{
    assert((epoch - start) / size as int >= 0 && (epoch - start) / size as int <= (count - 1)
        / size as int) by (nonlinear_arith)
        requires
            0 <= epoch - start <= count - 1,
            size > 0,
    ;
    assert((count + size - 1) / size as int == (count - 1) / size as int + 1) by (nonlinear_arith)
        requires
            size > 0,
            count > 0,
    ;
}

/// A group of epochs that is written to a file of its own.
#[derive(Debug)]
pub struct ShardTask {
    pub start_epoch: u64,
    pub epoch_count: u64,
    pub output: String,
}

impl ShardTask {
    /// The last epoch of the shard.
    pub fn end_epoch(&self) -> (r: u64)
        requires
            self.epoch_count > 0,
            self.start_epoch + self.epoch_count - 1 <= u64::MAX,
        ensures
            r == self.start_epoch + self.epoch_count - 1,
    {
        self.start_epoch + (self.epoch_count - 1)
    }
}

/// Divides the epochs of a run into shards.
pub fn build_shard_tasks(config: &ExtractConfig, shard_epochs: u64) -> (r: Vec<ShardTask>)
    requires
        shard_epochs > 0,
        config.start_epoch + config.epoch_count <= u64::MAX,
    ensures
        r@.len() == group_total(config.epoch_count, shard_epochs),
        forall|i: int|
            0 <= i < r@.len() ==> ({
                let t = task_at(config.start_epoch, config.epoch_count, shard_epochs, i);
                &&& (#[trigger] r@[i]).start_epoch == t.start_epoch
                &&& r@[i].epoch_count == t.epoch_count
                &&& r@[i].output@ == shard_text(
                    t.start_epoch,
                    (t.start_epoch + t.epoch_count - 1) as u64,
                )
            }),
{
    let tasks = build_pack_tasks(config, shard_epochs);
    let mut out: Vec<ShardTask> = Vec::new();
    let mut i: usize = 0;
    while i < tasks.len()
        invariant
            i <= tasks@.len(),
            shard_epochs > 0,
            config.start_epoch + config.epoch_count <= u64::MAX,
            tasks@.len() == group_total(config.epoch_count, shard_epochs),
            forall|k: int|
                0 <= k < tasks@.len() ==> #[trigger] tasks@[k] == task_at(
                    config.start_epoch,
                    config.epoch_count,
                    shard_epochs,
                    k,
                ),
            out@.len() == i,
            forall|k: int|
                0 <= k < i ==> ({
                    let t = task_at(config.start_epoch, config.epoch_count, shard_epochs, k);
                    &&& (#[trigger] out@[k]).start_epoch == t.start_epoch
                    &&& out@[k].epoch_count == t.epoch_count
                    &&& out@[k].output@ == shard_text(
                        t.start_epoch,
                        (t.start_epoch + t.epoch_count - 1) as u64,
                    )
                }),
        decreases tasks@.len() - i,
    {
        let t: PackTask = tasks[i];
        proof {
            assert(t == task_at(
                config.start_epoch,
                config.epoch_count,
                shard_epochs,
                i as int,
            ));
            lemma_group_fits(config.epoch_count, shard_epochs, i as int);
        }
        let end_epoch: u64 = t.start_epoch + (t.epoch_count - 1);
        out.push(
            ShardTask {
                start_epoch: t.start_epoch,
                epoch_count: t.epoch_count,
                output: shard_name(t.start_epoch, end_epoch),
            },
        );
        i += 1;
    }
    out
}

} // verus!
