//! How far a run over shards has come, and what it adds up to.
use crate::extract::config::{ExtractReport, ExtractTiming};
use vstd::prelude::*;

verus! {

/// The epochs that a worker is busy with.
#[derive(Clone, Copy, Debug, PartialEq, Eq, Structural)]
pub struct ActiveShard {
    pub start_epoch: u64,
    pub end_epoch: u64,
}

/// What a worker tells.
#[derive(Clone, Copy, Debug, PartialEq, Eq, Structural)]
pub enum ProgressEvent {
    Start { worker_id: usize, active: ActiveShard },
    Done { worker_id: usize },
    Failed { worker_id: usize },
}

impl ProgressEvent {
    /// The worker that tells it.
    pub open spec fn worker(self) -> usize {
        match self {
            ProgressEvent::Start { worker_id, .. } => worker_id,
            ProgressEvent::Done { worker_id } => worker_id,
            ProgressEvent::Failed { worker_id } => worker_id,
        }
    }
}

/// How far a run has come.
#[derive(Debug)]
pub struct ProgressState {
    pub total: usize,
    pub completed: usize,
    pub failed: usize,
    pub active: Vec<Option<ActiveShard>>,
}

impl ProgressState {
    /// A run that has not begun.
    pub fn new(total: usize, worker_count: usize) -> (r: Self)
        ensures
            r.total == total,
            r.completed == 0,
            r.failed == 0,
            r.active@ == Seq::new(worker_count as nat, |i: int| None::<ActiveShard>),
    {
        let mut active: Vec<Option<ActiveShard>> = Vec::new();
        let mut i: usize = 0;
        while i < worker_count
            invariant
                i <= worker_count,
                active@ == Seq::new(i as nat, |k: int| None::<ActiveShard>),
            decreases worker_count - i,
        {
            active.push(None);
            i += 1;
            proof {
                assert(active@ =~= Seq::new(i as nat, |k: int| None::<ActiveShard>));
            }
        }
        proof {
            assert(active@ =~= Seq::new(worker_count as nat, |i: int| None::<ActiveShard>));
        }
        ProgressState { total, completed: 0, failed: 0, active }
    }

    /// Takes note of what a worker tells.
    pub fn apply(&mut self, event: ProgressEvent)
        requires
            event.worker() < old(self).active@.len(),
            old(self).completed < usize::MAX,
            old(self).failed < usize::MAX,
        ensures
            final(self).total == old(self).total,
            final(self).completed == old(self).completed + (if event is Done {
                1int
            } else {
                0
            }),
            final(self).failed == old(self).failed + (if event is Failed {
                1int
            } else {
                0
            }),
            final(self).active@ == old(self).active@.update(
                event.worker() as int,
                match event {
                    ProgressEvent::Start { active, .. } => Some(active),
                    _ => None,
                },
            ),
    {
        match event {
            ProgressEvent::Start { worker_id, active } => {
                self.active[worker_id] = Some(active);
            },
            ProgressEvent::Done { worker_id } => {
                self.completed = self.completed + 1;
                self.active[worker_id] = None;
            },
            ProgressEvent::Failed { worker_id } => {
                self.failed = self.failed + 1;
                self.active[worker_id] = None;
            },
        }
    }

    /// The number of workers that are busy.
    pub fn active_count(&self) -> (r: usize)
        ensures
            r == busy(self.active@, self.active@.len() as int),
    {
        let mut n: usize = 0;
        let mut i: usize = 0;
        while i < self.active.len()
            invariant
                i <= self.active@.len(),
                n <= i,
                n == busy(self.active@, i as int),
            decreases self.active@.len() - i,
        {
            if self.active[i].is_some() {
                n += 1;
            }
            i += 1;
        }
        n
    }
}

/// The number of the first `n` workers that are busy.
pub open spec fn busy(active: Seq<Option<ActiveShard>>, n: int) -> nat
    decreases n,
{
    if n <= 0 {
        0
    } else {
        busy(active, n - 1) + if active[n - 1] is Some {
            1nat
        } else {
            0
        }
    }
}

/// What the reports of a run add up to.
#[derive(Clone, Copy, Debug, PartialEq, Eq, Structural)]
pub struct ShardTotals {
    pub blocks: u128,
    pub transactions: u128,
    pub bytes: u128,
    pub timing: ExtractTiming,
}

/// Sums without bound.
pub struct SumModel {
    pub blocks: nat,
    pub transactions: nat,
    pub bytes: nat,
    pub load_epochs: nat,
    pub read_blocks: nat,
    pub build_tables: nat,
    pub build_blocks: nat,
    pub encode: nat,
    pub verify: nat,
    pub write: nat,
}

/// What the first `n` reports add up to.
pub open spec fn report_sums(reports: Seq<ExtractReport>, n: int) -> SumModel
    decreases n,
{
    if n <= 0 {
        SumModel {
            blocks: 0,
            transactions: 0,
            bytes: 0,
            load_epochs: 0,
            read_blocks: 0,
            build_tables: 0,
            build_blocks: 0,
            encode: 0,
            verify: 0,
            write: 0,
        }
    } else {
        let s = report_sums(reports, n - 1);
        let r = reports[n - 1];
        SumModel {
            blocks: s.blocks + r.block_count as nat,
            transactions: s.transactions + r.transaction_count as nat,
            bytes: s.bytes + r.packet_bytes as nat,
            load_epochs: s.load_epochs + r.timing.load_epochs_ms as nat,
            read_blocks: s.read_blocks + r.timing.read_blocks_ms as nat,
            build_tables: s.build_tables + r.timing.build_tables_ms as nat,
            build_blocks: s.build_blocks + r.timing.build_blocks_ms as nat,
            encode: s.encode + r.timing.encode_ms as nat,
            verify: s.verify + r.timing.verify_ms as nat,
            write: s.write + r.timing.write_ms as nat,
        }
    }
}

/// Whether the sums of times can be held.
pub open spec fn times_fit(s: SumModel) -> bool {
    &&& s.load_epochs <= u128::MAX
    &&& s.read_blocks <= u128::MAX
    &&& s.build_tables <= u128::MAX
    &&& s.build_blocks <= u128::MAX
    &&& s.encode <= u128::MAX
    &&& s.verify <= u128::MAX
    &&& s.write <= u128::MAX
}

proof fn lemma_sums_grow(reports: Seq<ExtractReport>, i: int, n: int)
    requires
        0 <= i <= n,
        times_fit(report_sums(reports, n)),
    ensures
        times_fit(report_sums(reports, i)),
    decreases n,
{
    if i < n {
        lemma_sums_grow(reports, i, n - 1);
    }
}

proof fn lemma_sums_bound(reports: Seq<ExtractReport>, n: int)
    requires
        0 <= n,
    ensures
        report_sums(reports, n).blocks <= n * u64::MAX,
        report_sums(reports, n).transactions <= n * u64::MAX,
        report_sums(reports, n).bytes <= n * u64::MAX,
    decreases n,
{
    if n > 0 {
        lemma_sums_bound(reports, n - 1);
        assert(n * u64::MAX == (n - 1) * u64::MAX + u64::MAX) by (nonlinear_arith);
    }
}

impl ShardTotals {
    /// The sums as numbers.
    pub open spec fn sums(&self) -> SumModel {
        SumModel {
            blocks: self.blocks as nat,
            transactions: self.transactions as nat,
            bytes: self.bytes as nat,
            load_epochs: self.timing.load_epochs_ms as nat,
            read_blocks: self.timing.read_blocks_ms as nat,
            build_tables: self.timing.build_tables_ms as nat,
            build_blocks: self.timing.build_blocks_ms as nat,
            encode: self.timing.encode_ms as nat,
            verify: self.timing.verify_ms as nat,
            write: self.timing.write_ms as nat,
        }
    }

    /// Adds up reports.
    pub fn of(reports: &Vec<ExtractReport>) -> (r: Self)
        requires
            times_fit(report_sums(reports@, reports@.len() as int)),
        ensures
            r.sums() == report_sums(reports@, reports@.len() as int),
    {
        let mut t = ShardTotals {
            blocks: 0,
            transactions: 0,
            bytes: 0,
            timing: ExtractTiming::default(),
        };
        let mut i: usize = 0;
        while i < reports.len()
            invariant
                i <= reports@.len(),
                times_fit(report_sums(reports@, reports@.len() as int)),
                t.sums() == report_sums(reports@, i as int),
            decreases reports@.len() - i,
        {
            proof {
                lemma_sums_grow(reports@, i + 1, reports@.len() as int);
                lemma_sums_bound(reports@, i as int);
                assert(i * u64::MAX <= u64::MAX * u64::MAX) by (nonlinear_arith)
                    requires
                        i <= u64::MAX,
                ;
            }
            let r: &ExtractReport = &reports[i];
            t.blocks = t.blocks + r.block_count as u128;
            t.transactions = t.transactions + r.transaction_count as u128;
            t.bytes = t.bytes + r.packet_bytes as u128;
            t.timing = ExtractTiming {
                load_epochs_ms: t.timing.load_epochs_ms + r.timing.load_epochs_ms,
                read_blocks_ms: t.timing.read_blocks_ms + r.timing.read_blocks_ms,
                build_tables_ms: t.timing.build_tables_ms + r.timing.build_tables_ms,
                build_blocks_ms: t.timing.build_blocks_ms + r.timing.build_blocks_ms,
                encode_ms: t.timing.encode_ms + r.timing.encode_ms,
                verify_ms: t.timing.verify_ms + r.timing.verify_ms,
                write_ms: t.timing.write_ms + r.timing.write_ms,
            };
            i += 1;
        }
        t
    }

    /// The times for one of `count` shards.
    pub fn average(&self, count: u128) -> (r: ExtractTiming)
        requires
            count > 0,
        ensures
            r.load_epochs_ms == self.timing.load_epochs_ms / count,
            r.read_blocks_ms == self.timing.read_blocks_ms / count,
            r.build_tables_ms == self.timing.build_tables_ms / count,
            r.build_blocks_ms == self.timing.build_blocks_ms / count,
            r.encode_ms == self.timing.encode_ms / count,
            r.verify_ms == self.timing.verify_ms / count,
            r.write_ms == self.timing.write_ms / count,
    {
        ExtractTiming {
            load_epochs_ms: self.timing.load_epochs_ms / count,
            read_blocks_ms: self.timing.read_blocks_ms / count,
            build_tables_ms: self.timing.build_tables_ms / count,
            build_blocks_ms: self.timing.build_blocks_ms / count,
            encode_ms: self.timing.encode_ms / count,
            verify_ms: self.timing.verify_ms / count,
            write_ms: self.timing.write_ms / count,
        }
    }
}

} // verus!
