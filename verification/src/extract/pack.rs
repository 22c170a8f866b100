//! Collecting the packets of groups, in whatever order they are finished, into
//! container files that hold the groups in order.
use crate::cfxpack::container::{container, directory, group_offset, law_container_roundtrip, payload_area, write_container, Group, GroupModel};
use crate::cfxpack::error::PackError;
use crate::cfxpack::names::{container_name, pack_name};
use crate::cfxpack::packet::views;
use std::collections::BTreeMap;
use vstd::prelude::*;

verus! {

/// The size that a container should reach: 100 MiB of packets.
pub const DEFAULT_PACK_TARGET_BYTES: u64 = 104_857_600;

/// What a run has written.
#[derive(Debug)]
pub struct PackSummary {
    pub file_count: usize,
    pub group_count: usize,
    pub epoch_count: u64,
    pub block_count: usize,
    pub transaction_count: usize,
    pub total_bytes: u64,
    pub files: Vec<String>,
}

/// A finished group.
#[derive(Debug)]
pub struct PacketOut {
    pub group_index: u64,
    pub start_epoch: u64,
    pub epoch_count: u64,
    pub block_count: usize,
    pub transaction_count: usize,
    pub bytes: Vec<u8>,
}

/// A container file that is to be written.
#[derive(Debug)]
pub struct ContainerFile {
    pub name: String,
    pub bytes: Vec<u8>,
}

/// What a [`PacketOut`] holds.
pub struct OutModel {
    pub start_epoch: u64,
    pub epoch_count: u64,
    pub block_count: usize,
    pub transaction_count: usize,
    pub bytes: Seq<u8>,
}

impl View for PacketOut {
    type V = OutModel;

    open spec fn view(&self) -> OutModel {
        OutModel {
            start_epoch: self.start_epoch,
            epoch_count: self.epoch_count,
            block_count: self.block_count,
            transaction_count: self.transaction_count,
            bytes: self.bytes@,
        }
    }
}

/// The groups that a container holds.
pub open spec fn groups_of(outs: Seq<OutModel>) -> Seq<GroupModel> {
    Seq::new(
        outs.len(),
        |i: int|
            GroupModel {
                start_epoch: outs[i].start_epoch,
                epoch_count: outs[i].epoch_count,
                bytes: outs[i].bytes,
            },
    )
}

/// The bytes of packets.
pub open spec fn packed_bytes(outs: Seq<OutModel>) -> nat
    decreases outs.len(),
{
    if outs.len() == 0 {
        0
    } else {
        packed_bytes(outs.drop_last()) + outs.last().bytes.len()
    }
}

/// The groups of the containers that are full, and those of the container that is not.
pub struct Packing {
    pub closed: Seq<Seq<OutModel>>,
    pub open: Seq<OutModel>,
}

/// How groups, in order, are divided among containers: a container is full once its
/// packets reach the target.
pub open spec fn packing(outs: Seq<OutModel>, target: u64) -> Packing
    decreases outs.len(),
{
    if outs.len() == 0 {
        Packing { closed: Seq::empty(), open: Seq::empty() }
    } else {
        add_out(packing(outs.drop_last(), target), outs.last(), target)
    }
}

/// A division with one group more.
pub open spec fn add_out(p: Packing, out: OutModel, target: u64) -> Packing {
    let open = p.open.push(out);
    if packed_bytes(open) >= target {
        Packing { closed: p.closed.push(open), open: Seq::empty() }
    } else {
        Packing { closed: p.closed, open }
    }
}

/// The last epoch of a group.
pub open spec fn out_end(out: OutModel) -> int {
    out.start_epoch + out.epoch_count - 1
}

/// A group has epochs, and the last of them is a 64-bit number.
pub open spec fn proper(out: OutModel) -> bool {
    out.epoch_count > 0 && out_end(out) <= u64::MAX
}

/// The file name of a container.
pub open spec fn file_name(prefix: Seq<char>, outs: Seq<OutModel>) -> Seq<char> {
    pack_name(prefix, outs[0].start_epoch, out_end(outs.last()) as u64)
}

/// Whether a file is the container of the given groups.
pub open spec fn is_file(
    f: ContainerFile,
    prefix: Seq<char>,
    shard_epochs: u64,
    outs: Seq<OutModel>,
) -> bool {
    &&& f.name@ == file_name(prefix, outs)
    &&& container(groups_of(outs), shard_epochs) == Ok::<Seq<u8>, PackError>(f.bytes@)
}

/// What is summed up over the groups of a file.
pub struct Totals {
    pub files: nat,
    pub groups: nat,
    pub epochs: nat,
    pub blocks: nat,
    pub transactions: nat,
    pub bytes: nat,
}

/// Totals with one group more.
pub open spec fn with_out(t: Totals, out: OutModel) -> Totals {
    Totals {
        groups: t.groups + 1,
        epochs: t.epochs + out.epoch_count as nat,
        blocks: t.blocks + out.block_count as nat,
        transactions: t.transactions + out.transaction_count as nat,
        ..t
    }
}

/// Totals with the first `n` groups of a file more.
pub open spec fn with_outs(t: Totals, outs: Seq<OutModel>, n: int) -> Totals
    decreases n,
{
    if n <= 0 {
        t
    } else {
        with_out(with_outs(t, outs, n - 1), outs[n - 1])
    }
}

/// The length of a container file.
pub open spec fn file_bytes(outs: Seq<OutModel>, shard_epochs: u64) -> nat {
    container(groups_of(outs), shard_epochs)->Ok_0.len()
}

/// Totals with one file more.
pub open spec fn with_file(t: Totals, outs: Seq<OutModel>, shard_epochs: u64) -> Totals {
    let s = with_outs(t, outs, outs.len() as int);
    Totals { files: s.files + 1, bytes: s.bytes + file_bytes(outs, shard_epochs), ..s }
}

/// The totals of the first `n` files.
pub open spec fn totals(closed: Seq<Seq<OutModel>>, shard_epochs: u64, n: int) -> Totals
    decreases n,
{
    if n <= 0 {
        Totals { files: 0, groups: 0, epochs: 0, blocks: 0, transactions: 0, bytes: 0 }
    } else {
        with_file(totals(closed, shard_epochs, n - 1), closed[n - 1], shard_epochs)
    }
}

/// Whether a summary can hold the totals.
pub open spec fn countable(t: Totals) -> bool {
    &&& t.files <= usize::MAX
    &&& t.groups <= usize::MAX
    &&& t.epochs <= u64::MAX
    &&& t.blocks <= usize::MAX
    &&& t.transactions <= usize::MAX
    &&& t.bytes <= u64::MAX
}

/// Whether the first `n` files can be written and summed up.
pub open spec fn writable(closed: Seq<Seq<OutModel>>, shard_epochs: u64, n: int) -> bool {
    &&& forall|i: int|
        0 <= i < n ==> container(groups_of(#[trigger] closed[i]), shard_epochs) is Ok
    &&& countable(totals(closed, shard_epochs, n))
}

impl PackSummary {
    /// The numbers of the summary.
    pub open spec fn totals(&self) -> Totals {
        Totals {
            files: self.file_count as nat,
            groups: self.group_count as nat,
            epochs: self.epoch_count as nat,
            blocks: self.block_count as nat,
            transactions: self.transaction_count as nat,
            bytes: self.total_bytes as nat,
        }
    }
}

impl PackSummary {
    /// Whether the summary is that of the given files.
    pub open spec fn covers(
        &self,
        closed: Seq<Seq<OutModel>>,
        prefix: Seq<char>,
        shard_epochs: u64,
    ) -> bool {
        &&& self.totals() == totals(closed, shard_epochs, closed.len() as int)
        &&& self.files@.len() == closed.len()
        &&& forall|i: int|
            0 <= i < closed.len() ==> (#[trigger] self.files@[i])@ == file_name(prefix, closed[i])
    }
}

impl Default for PackSummary {
    fn default() -> (r: Self)
        ensures
            r.totals() == totals(Seq::empty(), 0, 0),
            r.files@.len() == 0,
    {
        PackSummary {
            file_count: 0,
            group_count: 0,
            epoch_count: 0,
            block_count: 0,
            transaction_count: 0,
            total_bytes: 0,
            files: Vec::new(),
        }
    }
}

proof fn lemma_with_outs_grows(t: Totals, outs: Seq<OutModel>, i: int, n: int)
    requires
        0 <= i <= n,
        countable(with_outs(t, outs, n)),
    ensures
        countable(with_outs(t, outs, i)),
    decreases n,
{
    if i < n {
        lemma_with_outs_grows(t, outs, i, n - 1);
    }
}

proof fn lemma_totals_grow(closed: Seq<Seq<OutModel>>, shard_epochs: u64, i: int, n: int)
    requires
        0 <= i <= n,
        countable(totals(closed, shard_epochs, n)),
    ensures
        countable(totals(closed, shard_epochs, i)),
    decreases n,
{
    if i < n {
        let t = totals(closed, shard_epochs, n - 1);
        let outs = closed[n - 1];
        lemma_with_outs_grows(t, outs, 0, outs.len() as int);
        lemma_totals_grow(closed, shard_epochs, i, n - 1);
    }
}

proof fn lemma_totals_same(
    a: Seq<Seq<OutModel>>,
    b: Seq<Seq<OutModel>>,
    shard_epochs: u64,
    n: int,
)
    requires
        forall|i: int| 0 <= i < n ==> #[trigger] a[i] == b[i],
    ensures
        totals(a, shard_epochs, n) == totals(b, shard_epochs, n),
    decreases n,
{
    if n > 0 {
        assert(a[n - 1] == b[n - 1]);
        lemma_totals_same(a, b, shard_epochs, n - 1);
    }
}

/// The container that is being filled.
#[derive(Debug)]
struct ContainerBuilder {
    groups: Vec<Group>,
    counts: Vec<(usize, usize)>,
    payload_bytes: u128,
}

impl ContainerBuilder {
    /// Whether the builder holds the given groups.
    spec fn holds(&self, outs: Seq<OutModel>) -> bool {
        &&& views(self.groups@) == groups_of(outs)
        &&& self.counts@.len() == outs.len()
        &&& forall|i: int|
            0 <= i < outs.len() ==> (#[trigger] self.counts@[i]).0 == outs[i].block_count
                && self.counts@[i].1 == outs[i].transaction_count
        &&& self.payload_bytes == packed_bytes(outs)
        &&& self.payload_bytes <= outs.len() * u64::MAX
        &&& forall|i: int| 0 <= i < outs.len() ==> proper(#[trigger] outs[i])
    }

    fn new() -> (r: Self)
        ensures
            r.holds(Seq::empty()),
    {
        let r = ContainerBuilder { groups: Vec::new(), counts: Vec::new(), payload_bytes: 0 };
        proof {
            assert(views(r.groups@) =~= groups_of(Seq::empty()));
        }
        r
    }

    fn push(&mut self, packet: PacketOut, Ghost(outs): Ghost<Seq<OutModel>>)
        requires
            old(self).holds(outs),
            proper(packet@),
        ensures
            final(self).holds(outs.push(packet@)),
    {
        let ghost out = packet@;
        let ghost more = outs.push(out);
        let length: usize = packet.bytes.len();
        proof {
            assert(outs.len() == self.counts.len());
            assert(outs.len() * u64::MAX <= u64::MAX * u64::MAX) by (nonlinear_arith)
                requires
                    outs.len() <= u64::MAX,
            ;
            assert((outs.len() + 1) * u64::MAX == outs.len() * u64::MAX + u64::MAX)
                by (nonlinear_arith);
            assert(more.drop_last() =~= outs);
            assert(views(self.groups@).len() == outs.len());
        }
        self.groups.push(
            Group {
                start_epoch: packet.start_epoch,
                epoch_count: packet.epoch_count,
                bytes: packet.bytes,
            },
        );
        self.counts.push((packet.block_count, packet.transaction_count));
        self.payload_bytes = self.payload_bytes + length as u128;
        proof {
            let g = GroupModel {
                start_epoch: out.start_epoch,
                epoch_count: out.epoch_count,
                bytes: out.bytes,
            };
            assert(views(self.groups@) =~= views(old(self).groups@).push(g));
            assert(groups_of(more) =~= groups_of(outs).push(g));
        }
    }
}

/// Adds the groups of a file to a summary. `None` where a sum is too large.
fn add_groups(summary: &mut PackSummary, builder: &ContainerBuilder, Ghost(outs): Ghost<
    Seq<OutModel>,
>) -> (r: Option<()>)
    requires
        builder.holds(outs),
    ensures
        r is Some <==> countable(with_outs(old(summary).totals(), outs, outs.len() as int)),
        r is Some ==> final(summary).totals() == with_outs(
            old(summary).totals(),
            outs,
            outs.len() as int,
        ) && final(summary).files == old(summary).files,
{
    let ghost t = summary.totals();
    let ghost n = outs.len() as int;
    let mut i: usize = 0;
    proof {
        assert(views(builder.groups@).len() == outs.len());
    }
    while i < builder.counts.len()
        invariant
            builder.holds(outs),
            builder.groups@.len() == outs.len(),
            i <= builder.counts@.len(),
            n == outs.len(),
            t == old(summary).totals(),
            summary.totals() == with_outs(t, outs, i as int),
            summary.files == old(summary).files,
        decreases builder.counts@.len() - i,
    {
        proof {
            if countable(with_outs(t, outs, n)) {
                lemma_with_outs_grows(t, outs, i + 1, n);
            }
            assert(views(builder.groups@)[i as int] == groups_of(outs)[i as int]);
        }
        let (blocks, transactions): (usize, usize) = builder.counts[i];
        let epochs: u64 = builder.groups[i].epoch_count;
        if summary.group_count == usize::MAX || epochs > u64::MAX - summary.epoch_count || blocks
            > usize::MAX - summary.block_count || transactions > usize::MAX
            - summary.transaction_count {
            return None;
        }
        summary.group_count = summary.group_count + 1;
        summary.epoch_count = summary.epoch_count + epochs;
        summary.block_count = summary.block_count + blocks;
        summary.transaction_count = summary.transaction_count + transactions;
        i += 1;
    }
    proof {
        assert(countable(summary.totals()));
    }
    Some(())
}

/// Turns the container that is being filled into a file, and starts the next.
fn flush_container(
    builder: &mut ContainerBuilder,
    prefix: &str,
    shard_epochs: u64,
    summary: &mut PackSummary,
    Ghost(outs): Ghost<Seq<OutModel>>,
) -> (r: Result<ContainerFile, PackError>)
    requires
        old(builder).holds(outs),
        outs.len() > 0,
    ensures
        r is Ok <==> container(groups_of(outs), shard_epochs) is Ok && countable(
            with_file(old(summary).totals(), outs, shard_epochs),
        ),
        match r {
            Ok(f) => is_file(f, prefix@, shard_epochs, outs) && final(summary).totals()
                == with_file(old(summary).totals(), outs, shard_epochs)
                && final(summary).files@.len() == old(summary).files@.len() + 1
                && final(summary).files@.last()@ == f.name@ && forall|i: int|
                0 <= i < old(summary).files@.len() ==> #[trigger] final(summary).files@[i]
                    == old(summary).files@[i],
            Err(e) => e == PackError::ContainerTooLarge,
        },
        r is Ok ==> final(builder).holds(Seq::empty()),
{
    proof {
        assert(views(builder.groups@).len() == outs.len());
        assert(views(builder.groups@)[0] == groups_of(outs)[0]);
        assert(views(builder.groups@)[outs.len() - 1] == groups_of(outs)[outs.len() - 1]);
        assert(proper(outs[outs.len() - 1]));
    }
    let last: usize = builder.groups.len() - 1;
    let start_epoch: u64 = builder.groups[0].start_epoch;
    let end_epoch: u64 = builder.groups[last].start_epoch + (builder.groups[last].epoch_count - 1);
    let bytes = match write_container(&builder.groups, shard_epochs) {
        Ok(bytes) => bytes,
        Err(_) => {
            return Err(PackError::ContainerTooLarge);
        },
    };
    match add_groups(summary, builder, Ghost(outs)) {
        Some(_) => {},
        None => {
            return Err(PackError::ContainerTooLarge);
        },
    }
    let file_bytes: u64 = bytes.len() as u64;
    if summary.file_count == usize::MAX || file_bytes > u64::MAX - summary.total_bytes {
        return Err(PackError::ContainerTooLarge);
    }
    let name = container_name(prefix, start_epoch, end_epoch);
    summary.file_count = summary.file_count + 1;
    summary.total_bytes = summary.total_bytes + file_bytes;
    summary.files.push(container_name(prefix, start_epoch, end_epoch));
    *builder = ContainerBuilder::new();
    Ok(ContainerFile { name, bytes })
}

/// The packets that are waiting, from group `next` on, as far as none is missing.
pub open spec fn run_from(pending: Map<u64, PacketOut>, next: u64) -> Seq<OutModel>
    decreases u64::MAX - next,
{
    if next == u64::MAX || !pending.contains_key(next) {
        Seq::empty()
    } else {
        seq![pending[next]@] + run_from(pending, (next + 1) as u64)
    }
}

/// Lets a finished group wait.
fn keep_waiting(pending: &mut BTreeMap<u64, PacketOut>, packet: PacketOut)
    ensures
        final(pending)@ == old(pending)@.insert(packet.group_index, packet),
{
    broadcast use vstd::std_specs::btree::group_btree_axioms;
    broadcast use vstd::laws_cmp::group_laws_cmp;

    pending.insert(packet.group_index, packet);
}

/// Takes a group from those that wait.
fn stop_waiting(pending: &mut BTreeMap<u64, PacketOut>, group_index: u64) -> (r: Option<PacketOut>)
    ensures
        match r {
            Some(p) => old(pending)@.contains_key(group_index) && old(pending)@[group_index] == p,
            None => !old(pending)@.contains_key(group_index),
        },
        final(pending)@ == old(pending)@.remove(group_index),
{
    broadcast use vstd::std_specs::btree::group_btree_axioms;
    broadcast use vstd::laws_cmp::group_laws_cmp;

    pending.remove(&group_index)
}

/// Where a run of finished groups stands: the groups that wait for one before them,
/// the group that comes next, and the groups that were taken.
pub struct Turn {
    pub pending: Map<u64, PacketOut>,
    pub next: u64,
    pub taken: Seq<OutModel>,
}

/// The waiting groups without those from `from` up to `to`.
pub open spec fn without(pending: Map<u64, PacketOut>, from: u64, to: u64) -> Map<
    u64,
    PacketOut,
> {
    Map::new(|k: u64| pending.contains_key(k) && !(from <= k < to), |k: u64| pending[k])
}

/// One finished group more: it is taken, with those that waited for it, as far as none
/// is missing before it.
pub open spec fn arrive(t: Turn, packet: PacketOut) -> Turn {
    let waiting = t.pending.insert(packet.group_index, packet);
    let run = run_from(waiting, t.next);
    let next = (t.next + run.len()) as u64;
    Turn { pending: without(waiting, t.next, next), next, taken: t.taken + run }
}

/// What is true at every turn, where `seen` holds the groups that were finished.
pub open spec fn in_turn(t: Turn, seen: Map<u64, OutModel>) -> bool {
    &&& t.taken.len() == t.next
    &&& !seen.contains_key(u64::MAX)
    &&& !seen.contains_key(t.next)
    &&& forall|k: u64| k < t.next ==> #[trigger] seen.contains_key(k) && t.taken[k as int] == seen[k]
    &&& forall|k: u64|
        #[trigger] t.pending.contains_key(k) <==> seen.contains_key(k) && k >= t.next
    &&& forall|k: u64| #[trigger] t.pending.contains_key(k) ==> t.pending[k]@ == seen[k]
}

/// Whether `run` lists the waiting groups from `next` on until one is missing.
spec fn is_run(pending: Map<u64, PacketOut>, next: u64, run: Seq<OutModel>) -> bool {
    &&& next + run.len() <= u64::MAX
    &&& forall|i: int|
        0 <= i < run.len() ==> #[trigger] run[i] == pending[(next + i) as u64]@
            && pending.contains_key((next + i) as u64)
    &&& next + run.len() == u64::MAX || !pending.contains_key((next + run.len()) as u64)
}

proof fn lemma_run(pending: Map<u64, PacketOut>, next: u64)
    ensures
        is_run(pending, next, run_from(pending, next)),
    decreases u64::MAX - next,
{
    if next < u64::MAX && pending.contains_key(next) {
        lemma_run(pending, (next + 1) as u64);
        let run = run_from(pending, next);
        let rest = run_from(pending, (next + 1) as u64);
        assert forall|i: int| 0 <= i < run.len() implies #[trigger] run[i] == pending[(next
            + i) as u64]@ && pending.contains_key((next + i) as u64) by {
            if i > 0 {
                assert(run[i] == rest[i - 1]);
            }
        }
    }
}

/// A finished group that was not seen before keeps what is true at every turn.
pub proof fn law_arrive(t: Turn, seen: Map<u64, OutModel>, packet: PacketOut)
    requires
        in_turn(t, seen),
        packet.group_index < u64::MAX,
        !seen.contains_key(packet.group_index),
    ensures
        in_turn(arrive(t, packet), seen.insert(packet.group_index, packet@)),
{
    let waiting = t.pending.insert(packet.group_index, packet);
    let more = seen.insert(packet.group_index, packet@);
    let run = run_from(waiting, t.next);
    lemma_run(waiting, t.next);
    let u = arrive(t, packet);
    assert(packet.group_index >= t.next);
    assert(u.next == t.next + run.len());
    assert forall|k: u64| k < u.next implies #[trigger] more.contains_key(k) && u.taken[k as int]
        == more[k] by {
        if k < t.next {
            assert(seen.contains_key(k));
        } else {
            assert(run[k - t.next] == waiting[k]@);
            assert(u.taken[k as int] == run[k - t.next]);
            if k != packet.group_index {
                assert(t.pending.contains_key(k));
            }
        }
    }
    assert(!waiting.contains_key(u64::MAX)) by {
        assert(!t.pending.contains_key(u64::MAX));
    }
    assert(!waiting.contains_key(u.next));
    assert(!more.contains_key(u.next)) by {
        if seen.contains_key(u.next) {
            assert(t.pending.contains_key(u.next));
        }
    }
    assert forall|k: u64| #[trigger] u.pending.contains_key(k) <==> more.contains_key(k) && k
        >= u.next by {
        if more.contains_key(k) && k >= u.next && k != packet.group_index {
            assert(t.pending.contains_key(k));
        }
        if u.pending.contains_key(k) && k != packet.group_index {
            assert(t.pending.contains_key(k));
        }
    }
    assert forall|k: u64| #[trigger] u.pending.contains_key(k) implies u.pending[k]@ == more[k] by {
        if k != packet.group_index {
            assert(t.pending.contains_key(k));
        }
    }
}

/// Once the first `n` groups and no others are finished, in whatever order, all of
/// them are taken, in order.
pub proof fn law_all_taken(t: Turn, seen: Map<u64, OutModel>, n: u64)
    requires
        in_turn(t, seen),
        forall|k: u64| #[trigger] seen.contains_key(k) <==> k < n,
    ensures
        t.next == n,
        t.taken == Seq::new(n as nat, |i: int| seen[i as u64]),
{
    if t.next < n {
        assert(seen.contains_key(t.next));
    }
    if n < t.next {
        assert(seen.contains_key(n));
    }
    assert forall|i: int| 0 <= i < n implies #[trigger] t.taken[i] == seen[i as u64] by {
        assert(seen.contains_key(i as u64));
    }
    assert(t.taken =~= Seq::new(n as nat, |i: int| seen[i as u64]));
}

/// Takes finished groups in any order and gives the container files, which hold the
/// groups in order.
pub struct PackWriter {
    prefix: String,
    shard_epochs: u64,
    target_bytes: u64,
    pending: BTreeMap<u64, PacketOut>,
    next_group: u64,
    builder: ContainerBuilder,
    summary: PackSummary,
    taken: Ghost<Seq<OutModel>>,
}

impl PackWriter {
    /// The groups that are in a container or in the one being filled.
    pub closed spec fn taken(&self) -> Seq<OutModel> {
        self.taken@
    }

    /// The groups that wait for one before them.
    pub closed spec fn pending(&self) -> Map<u64, PacketOut> {
        self.pending@
    }

    /// The group that comes next.
    pub closed spec fn next_group(&self) -> u64 {
        self.next_group
    }

    /// The text that file names start with.
    pub closed spec fn prefix(&self) -> Seq<char> {
        self.prefix@
    }

    /// The number of epochs in a group.
    pub closed spec fn shard_epochs(&self) -> u64 {
        self.shard_epochs
    }

    /// The size that containers should reach.
    pub closed spec fn target(&self) -> u64 {
        self.target_bytes
    }

    /// The division of the groups among containers.
    pub open spec fn packing(&self) -> Packing {
        packing(self.taken(), self.target())
    }

    /// Every group that was taken came in its turn, and what the writer keeps agrees
    /// with their division among containers.
    pub closed spec fn wf(&self) -> bool {
        &&& self.taken@.len() == self.next_group
        &&& !self.pending@.contains_key(self.next_group)
        &&& !self.pending@.contains_key(u64::MAX)
        &&& forall|k: u64| #[trigger] self.pending@.contains_key(k) ==> proper(self.pending@[k]@)
        &&& self.builder.holds(self.packing().open)
        &&& self.summary.covers(self.packing().closed, self.prefix@, self.shard_epochs)
        &&& writable(
            self.packing().closed,
            self.shard_epochs,
            self.packing().closed.len() as int,
        )
    }

    /// Whether the settings are those of `other`.
    pub open spec fn same_settings(&self, other: &PackWriter) -> bool {
        &&& self.prefix() == other.prefix()
        &&& self.shard_epochs() == other.shard_epochs()
        &&& self.target() == other.target()
    }

    /// A writer that has taken nothing.
    pub fn new(prefix: &str, shard_epochs: u64, target_bytes: u64) -> (r: Self)
        ensures
            r.wf(),
            r.taken().len() == 0,
            r.pending() == Map::<u64, PacketOut>::empty(),
            r.next_group() == 0,
            r.prefix() == prefix@,
            r.shard_epochs() == shard_epochs,
            r.target() == target_bytes,
    {
        let r = PackWriter {
            prefix: prefix.to_owned(),
            shard_epochs,
            target_bytes,
            pending: BTreeMap::new(),
            next_group: 0,
            builder: ContainerBuilder::new(),
            summary: PackSummary::default(),
            taken: Ghost(Seq::empty()),
        };
        r
    }

    /// Takes the next group into the container that is being filled.
    fn take_next(&mut self, packet: PacketOut, files: &mut Vec<ContainerFile>) -> (r: Result<
        (),
        PackError,
    >)
        requires
            old(self).next_group < u64::MAX,
            old(self).taken@.len() == old(self).next_group,
            proper(packet@),
            old(self).builder.holds(old(self).packing().open),
            old(self).summary.covers(
                old(self).packing().closed,
                old(self).prefix@,
                old(self).shard_epochs,
            ),
            writable(
                old(self).packing().closed,
                old(self).shard_epochs,
                old(self).packing().closed.len() as int,
            ),
        ensures
            ({
                let before = old(self).packing();
                let after = add_out(before, packet@, old(self).target());
                let n = after.closed.len() as int;
                &&& r is Ok <==> writable(after.closed, old(self).shard_epochs, n)
                &&& match r {
                    Ok(_) => {
                        &&& final(self).same_settings(old(self))
                        &&& final(self).pending@ == old(self).pending@
                        &&& final(self).next_group == old(self).next_group + 1
                        &&& final(self).taken@ == old(self).taken@.push(packet@)
                        &&& final(self).packing() == after
                        &&& final(self).builder.holds(after.open)
                        &&& final(self).summary.covers(
                            after.closed,
                            old(self).prefix@,
                            old(self).shard_epochs,
                        )
                        &&& final(files)@.len() == old(files)@.len() + n - before.closed.len()
                        &&& forall|i: int|
                            0 <= i < old(files)@.len() ==> #[trigger] final(files)@[i] == old(
                                files,
                            )@[i]
                        &&& forall|i: int|
                            old(files)@.len() <= i < final(files)@.len() ==> is_file(
                                #[trigger] final(files)@[i],
                                old(self).prefix@,
                                old(self).shard_epochs,
                                after.closed[before.closed.len() + i - old(files)@.len()],
                            )
                    },
                    Err(e) => e == PackError::ContainerTooLarge,
                }
            }),
    {
        let ghost before = self.packing();
        let ghost out = packet@;
        let ghost open = before.open.push(out);
        let ghost after = add_out(before, out, self.target_bytes);
        proof {
            let t = self.taken@.push(out);
            assert(t.drop_last() =~= self.taken@);
            assert(packing(t, self.target_bytes) == after);
            if packed_bytes(open) >= self.target_bytes {
                assert(forall|i: int|
                    0 <= i < before.closed.len() ==> after.closed[i] == #[trigger] before.closed[i]);
                lemma_totals_same(
                    after.closed,
                    before.closed,
                    self.shard_epochs,
                    before.closed.len() as int,
                );
                assert(after.closed[before.closed.len() as int] == open);
            }
        }
        self.builder.push(packet, Ghost(before.open));
        self.next_group = self.next_group + 1;
        self.taken = Ghost(self.taken@.push(out));
        if self.builder.payload_bytes >= self.target_bytes as u128 {
            match flush_container(
                &mut self.builder,
                self.prefix.as_str(),
                self.shard_epochs,
                &mut self.summary,
                Ghost(open),
            ) {
                Ok(f) => {
                    files.push(f);
                    proof {
                        assert forall|i: int| 0 <= i < after.closed.len() implies container(
                            groups_of(#[trigger] after.closed[i]),
                            self.shard_epochs,
                        ) is Ok by {
                            if i < before.closed.len() {
                                assert(after.closed[i] == before.closed[i]);
                            }
                        }
                    }
                },
                Err(e) => {
                    return Err(e);
                },
            }
        }
        Ok(())
    }

    /// Where the writer stands.
    pub open spec fn turn(&self) -> Turn {
        Turn { pending: self.pending(), next: self.next_group(), taken: self.taken() }
    }

    /// What is true while the groups of `run` are taken.
    spec fn underway(
        &self,
        first: &PackWriter,
        waiting: Map<u64, PacketOut>,
        run: Seq<OutModel>,
        files: Seq<ContainerFile>,
    ) -> bool {
        let done = first.packing().closed.len();
        let closed = self.packing().closed;
        &&& self.same_settings(first)
        &&& run == run_from(waiting, first.next_group)
        &&& forall|k: u64| #[trigger] waiting.contains_key(k) ==> proper(waiting[k]@)
        &&& !waiting.contains_key(u64::MAX)
        &&& first.taken@.len() == first.next_group
        &&& first.next_group <= self.next_group <= first.next_group + run.len()
        &&& self.pending@ == without(waiting, first.next_group, self.next_group)
        &&& self.taken@ == first.taken@ + run.take(self.next_group - first.next_group)
        &&& self.builder.holds(self.packing().open)
        &&& self.summary.covers(closed, self.prefix@, self.shard_epochs)
        &&& writable(closed, self.shard_epochs, closed.len() as int)
        &&& closed.len() == done + files.len()
        &&& forall|i: int|
            0 <= i < files.len() ==> is_file(
                #[trigger] files[i],
                first.prefix@,
                first.shard_epochs,
                closed[done + i],
            )
    }

    /// Takes the next group, if it waits.
    fn advance(
        &mut self,
        files: &mut Vec<ContainerFile>,
        Ghost(first): Ghost<PackWriter>,
        Ghost(waiting): Ghost<Map<u64, PacketOut>>,
        Ghost(run): Ghost<Seq<OutModel>>,
    ) -> (r: Result<bool, PackError>)
        requires
            old(self).underway(&first, waiting, run, old(files)@),
        ensures
            match r {
                Ok(moved) => {
                    &&& final(self).underway(&first, waiting, run, final(files)@)
                    &&& moved ==> final(self).next_group == old(self).next_group + 1
                    &&& !moved ==> final(self).next_group == first.next_group + run.len()
                },
                Err(e) => {
                    let closed = packing(first.taken@ + run, first.target_bytes).closed;
                    &&& e == PackError::ContainerTooLarge
                    &&& !writable(closed, first.shard_epochs, closed.len() as int)
                },
            },
    {
        let next: u64 = self.next_group;
        let ghost at = next - first.next_group;
        let ghost all = first.taken@ + run;
        let ghost before = *self;
        let ghost held = files@;
        proof {
            lemma_run(waiting, first.next_group);
        }
        match stop_waiting(&mut self.pending, next) {
            Some(p) => {
                proof {
                    assert(waiting.contains_key(next) && waiting[next] == p);
                    assert(at < run.len());
                    assert(run[at] == p@);
                    assert(run.take(at + 1) =~= run.take(at).push(p@));
                    assert(all.take(first.taken@.len() as int + at + 1) =~= self.taken@.push(p@));
                    lemma_packing_prefix(
                        all,
                        first.target_bytes,
                        first.taken@.len() as int + at + 1,
                    );
                    lemma_packing_push(self.taken@, p@, first.target_bytes);
                }
                match self.take_next(p, files) {
                    Ok(_) => {
                        proof {
                            assert(self.pending@ =~= without(
                                waiting,
                                first.next_group,
                                self.next_group,
                            ));
                            assert(self.taken@ =~= first.taken@ + run.take(at + 1));
                            lemma_more_files(before, *self, first, held, files@);
                        }
                        Ok(true)
                    },
                    Err(e) => {
                        proof {
                            let closed = packing(all, first.target_bytes).closed;
                            if writable(closed, first.shard_epochs, closed.len() as int) {
                                lemma_writable_prefix(
                                    packing(
                                        all.take(first.taken@.len() as int + at + 1),
                                        first.target_bytes,
                                    ).closed,
                                    closed,
                                    first.shard_epochs,
                                );
                            }
                        }
                        Err(e)
                    },
                }
            },
            None => {
                proof {
                    assert(!waiting.contains_key(next));
                    if at < run.len() {
                        assert(run[at] == waiting[next]@);
                    }
                    assert(self.pending@ =~= before.pending@);
                }
                Ok(false)
            },
        }
    }

    /// Takes a finished group, and gives the container files that became full.
    pub fn accept(&mut self, packet: PacketOut) -> (r: Result<Vec<ContainerFile>, PackError>)
        requires
            old(self).wf(),
            packet.group_index < u64::MAX,
            proper(packet@),
        ensures
            ({
                let after = arrive(old(self).turn(), packet);
                let done = old(self).packing().closed.len();
                let closed = packing(after.taken, old(self).target()).closed;
                &&& r is Ok <==> writable(closed, old(self).shard_epochs(), closed.len() as int)
                &&& match r {
                    Ok(files) => {
                        &&& final(self).wf()
                        &&& final(self).same_settings(old(self))
                        &&& final(self).turn() == after
                        &&& done + files@.len() == closed.len()
                        &&& forall|i: int|
                            0 <= i < files@.len() ==> is_file(
                                #[trigger] files@[i],
                                old(self).prefix(),
                                old(self).shard_epochs(),
                                closed[done + i],
                            )
                    },
                    Err(e) => e == PackError::ContainerTooLarge,
                }
            }),
    {
        let ghost first = *self;
        let ghost waiting = self.pending@.insert(packet.group_index, packet);
        let ghost run = run_from(waiting, self.next_group);
        let ghost all = self.taken@ + run;
        let ghost target = self.target_bytes;
        let ghost done = self.packing().closed.len();
        let mut files: Vec<ContainerFile> = Vec::new();
        keep_waiting(&mut self.pending, packet);
        proof {
            assert(self.pending@ == waiting);
            assert(without(waiting, self.next_group, self.next_group) =~= waiting);
            assert(self.taken@ + run.take(0) =~= self.taken@);
            lemma_run(waiting, self.next_group);
        }
        let mut more: bool = true;
        while more
            invariant
                self.underway(&first, waiting, run, files@),
                first == *old(self),
                waiting == first.pending@.insert(packet.group_index, packet),
                run == run_from(waiting, first.next_group),
                all == first.taken@ + run,
                target == first.target_bytes,
                done == first.packing().closed.len(),
                !more ==> self.next_group == first.next_group + run.len(),
            decreases first.next_group + run.len() - self.next_group, if more {
                    1int
                } else {
                    0
                },
        {
            match self.advance(&mut files, Ghost(first), Ghost(waiting), Ghost(run)) {
                Ok(moved) => {
                    more = moved;
                },
                Err(e) => {
                    return Err(e);
                },
            }
        }
        proof {
            assert(run.take(run.len() as int) =~= run);
            assert(self.pending@ == without(waiting, first.next_group, self.next_group));
        }
        Ok(files)
    }

    /// Ends a run: gives the last container file, where one is being filled, and the
    /// summary of all files.
    pub fn finish(self) -> (r: Result<(Option<ContainerFile>, PackSummary), PackError>)
        requires
            self.wf(),
        ensures
            ({
                let closed = all_files(self.packing());
                &&& r is Ok <==> writable(closed, self.shard_epochs(), closed.len() as int)
                &&& match r {
                    Ok((file, summary)) => {
                        &&& summary.covers(closed, self.prefix(), self.shard_epochs())
                        &&& match file {
                            Some(f) => self.packing().open.len() > 0 && is_file(
                                f,
                                self.prefix(),
                                self.shard_epochs(),
                                self.packing().open,
                            ),
                            None => self.packing().open.len() == 0,
                        }
                    },
                    Err(e) => e == PackError::ContainerTooLarge,
                }
            }),
    {
        let ghost p = self.packing();
        let ghost closed = all_files(p);
        let mut builder = self.builder;
        let mut summary = self.summary;
        if builder.counts.len() == 0 {
            return Ok((None, summary));
        }
        proof {
            assert(forall|i: int|
                0 <= i < p.closed.len() ==> closed[i] == #[trigger] p.closed[i]);
            lemma_totals_same(closed, p.closed, self.shard_epochs, p.closed.len() as int);
            assert(closed[p.closed.len() as int] == p.open);
        }
        match flush_container(
            &mut builder,
            self.prefix.as_str(),
            self.shard_epochs,
            &mut summary,
            Ghost(p.open),
        ) {
            Ok(f) => {
                proof {
                    assert forall|i: int| 0 <= i < closed.len() implies container(
                        groups_of(#[trigger] closed[i]),
                        self.shard_epochs,
                    ) is Ok by {
                        if i < p.closed.len() {
                            assert(closed[i] == p.closed[i]);
                        }
                    }
                    assert forall|i: int| 0 <= i < closed.len() implies (
                    #[trigger] summary.files@[i])@ == file_name(self.prefix@, closed[i]) by {
                        if i < p.closed.len() {
                            assert(closed[i] == p.closed[i]);
                        }
                    }
                }
                Ok((Some(f), summary))
            },
            Err(e) => Err(e),
        }
    }
}

/// The groups of all files of a run: those of the full containers and, where there are
/// more, those of the last.
pub open spec fn all_files(p: Packing) -> Seq<Seq<OutModel>> {
    if p.open.len() == 0 {
        p.closed
    } else {
        p.closed.push(p.open)
    }
}

proof fn lemma_packing_push(taken: Seq<OutModel>, out: OutModel, target: u64)
    ensures
        packing(taken.push(out), target) == add_out(packing(taken, target), out, target),
{
    assert(taken.push(out).drop_last() =~= taken);
}

/// The files that became full before a group was taken are those of the same
/// containers after it.
proof fn lemma_more_files(
    before: PackWriter,
    after: PackWriter,
    first: PackWriter,
    held: Seq<ContainerFile>,
    files: Seq<ContainerFile>,
)
    requires
        before.packing().closed.len() == first.packing().closed.len() + held.len(),
        before.packing().closed.is_prefix_of(after.packing().closed),
        after.packing().closed.len() - before.packing().closed.len() == files.len() - held.len(),
        held.len() <= files.len(),
        forall|i: int| 0 <= i < held.len() ==> #[trigger] files[i] == held[i],
        forall|i: int|
            0 <= i < held.len() ==> is_file(
                #[trigger] held[i],
                first.prefix@,
                first.shard_epochs,
                before.packing().closed[first.packing().closed.len() + i],
            ),
        forall|i: int|
            held.len() <= i < files.len() ==> is_file(
                #[trigger] files[i],
                first.prefix@,
                first.shard_epochs,
                after.packing().closed[before.packing().closed.len() + i - held.len()],
            ),
    ensures
        forall|i: int|
            0 <= i < files.len() ==> is_file(
                #[trigger] files[i],
                first.prefix@,
                first.shard_epochs,
                after.packing().closed[first.packing().closed.len() + i],
            ),
{
    let a = before.packing().closed;
    let b = after.packing().closed;
    let done = first.packing().closed.len();
    assert forall|i: int| 0 <= i < files.len() implies is_file(
        #[trigger] files[i],
        first.prefix@,
        first.shard_epochs,
        b[done + i],
    ) by {
        if i < held.len() {
            assert(files[i] == held[i]);
            assert(a == b.take(a.len() as int));
            assert(b[done + i] == a[done + i]);
        }
    }
}

/// The containers that are full after the first groups are full after all of them.
proof fn lemma_packing_prefix(outs: Seq<OutModel>, target: u64, n: int)
    requires
        0 <= n <= outs.len(),
    ensures
        packing(outs.take(n), target).closed.is_prefix_of(packing(outs, target).closed),
    decreases outs.len() - n,
{
    if n < outs.len() {
        lemma_packing_prefix(outs, target, n + 1);
        let more = outs.take(n + 1);
        assert(more.drop_last() =~= outs.take(n));
        let a = packing(outs.take(n), target).closed;
        let b = packing(more, target).closed;
        let c = packing(outs, target).closed;
        assert(a.is_prefix_of(b));
        assert(a =~= c.take(a.len() as int)) by {
            assert(b == c.take(b.len() as int));
            assert(a =~= b.take(a.len() as int));
        }
    } else {
        assert(outs.take(n) =~= outs);
    }
}

proof fn lemma_writable_prefix(
    part: Seq<Seq<OutModel>>,
    closed: Seq<Seq<OutModel>>,
    shard_epochs: u64,
)
    requires
        part.is_prefix_of(closed),
        writable(closed, shard_epochs, closed.len() as int),
    ensures
        writable(part, shard_epochs, part.len() as int),
{
    assert forall|i: int| 0 <= i < part.len() implies #[trigger] part[i] == closed[i] by {
        assert(part == closed.take(part.len() as int));
    }
    lemma_totals_grow(closed, shard_epochs, part.len() as int, closed.len() as int);
    lemma_totals_same(part, closed, shard_epochs, part.len() as int);
    assert forall|i: int| 0 <= i < part.len() implies container(
        groups_of(#[trigger] part[i]),
        shard_epochs,
    ) is Ok by {
        assert(part[i] == closed[i]);
    }
}

/// The groups of the first `n` files.
pub open spec fn filed(files: Seq<Seq<OutModel>>, n: int) -> Seq<OutModel>
    decreases n,
{
    if n <= 0 {
        Seq::empty()
    } else {
        filed(files, n - 1) + files[n - 1]
    }
}

proof fn lemma_filed_same(a: Seq<Seq<OutModel>>, b: Seq<Seq<OutModel>>, n: int)
    requires
        forall|i: int| 0 <= i < n ==> #[trigger] a[i] == b[i],
    ensures
        filed(a, n) == filed(b, n),
    decreases n,
{
    if n > 0 {
        assert(a[n - 1] == b[n - 1]);
        lemma_filed_same(a, b, n - 1);
    }
}

proof fn lemma_filed(outs: Seq<OutModel>, target: u64)
    ensures
        ({
            let p = packing(outs, target);
            filed(p.closed, p.closed.len() as int) + p.open == outs
        }),
    decreases outs.len(),
{
    if outs.len() > 0 {
        lemma_filed(outs.drop_last(), target);
        let before = packing(outs.drop_last(), target);
        let after = packing(outs, target);
        let n = before.closed.len() as int;
        assert(outs =~= outs.drop_last().push(outs.last()));
        if packed_bytes(before.open.push(outs.last())) >= target {
            assert(forall|i: int| 0 <= i < n ==> after.closed[i] == #[trigger] before.closed[i]);
            lemma_filed_same(after.closed, before.closed, n);
        }
        assert(filed(after.closed, after.closed.len() as int) + after.open =~= outs);
    } else {
        let p = packing(outs, target);
        assert(filed(p.closed, p.closed.len() as int) + p.open =~= outs);
    }
}

/// A container that is full holds a group.
proof fn lemma_closed_hold(outs: Seq<OutModel>, target: u64)
    ensures
        forall|i: int|
            0 <= i < packing(outs, target).closed.len() ==> (#[trigger] packing(
                outs,
                target,
            ).closed[i]).len() > 0,
    decreases outs.len(),
{
    if outs.len() > 0 {
        lemma_closed_hold(outs.drop_last(), target);
        let before = packing(outs.drop_last(), target);
        let after = packing(outs, target);
        assert forall|i: int| 0 <= i < after.closed.len() implies (
        #[trigger] after.closed[i]).len() > 0 by {
            if i < before.closed.len() {
                assert(after.closed[i] == before.closed[i]);
            }
        }
    }
}

/// The files of a run hold all groups, each once and in order, and no file is without a
/// group.
pub proof fn law_files_hold_all(outs: Seq<OutModel>, target: u64)
    ensures
        ({
            let files = all_files(packing(outs, target));
            &&& filed(files, files.len() as int) == outs
            &&& forall|i: int| 0 <= i < files.len() ==> (#[trigger] files[i]).len() > 0
        }),
{
    lemma_closed_hold(outs, target);
    let p = packing(outs, target);
    let files = all_files(p);
    lemma_filed(outs, target);
    if p.open.len() > 0 {
        assert(forall|i: int| 0 <= i < p.closed.len() ==> files[i] == #[trigger] p.closed[i]);
        lemma_filed_same(files, p.closed, p.closed.len() as int);
    } else {
        assert(filed(files, files.len() as int) + p.open =~= filed(files, files.len() as int));
    }
}

/// Totals with the first `n` groups more count `n` groups more, and no file and no bytes.
proof fn lemma_with_outs_counts(t: Totals, outs: Seq<OutModel>, n: int)
    requires
        0 <= n,
    ensures
        with_outs(t, outs, n).groups == t.groups + n,
        with_outs(t, outs, n).files == t.files,
        with_outs(t, outs, n).bytes == t.bytes,
    decreases n,
{
    if n > 0 {
        lemma_with_outs_counts(t, outs, n - 1);
    }
}

/// A container file reads back group for group. Its name tells its first and last epoch,
/// its packets stand one after another behind the directory up to its end, and a summary
/// counts one file, all its groups and all its bytes for it.
pub proof fn law_file_reads_back(
    f: ContainerFile,
    prefix: Seq<char>,
    shard_epochs: u64,
    outs: Seq<OutModel>,
    before: Totals,
)
    requires
        outs.len() > 0,
        is_file(f, prefix, shard_epochs, outs),
    ensures
        f.name@ == pack_name(prefix, outs[0].start_epoch, out_end(outs.last()) as u64),
        directory(f.bytes@) matches Ok(entries) && {
            &&& entries.len() == outs.len()
            &&& forall|i: int|
                0 <= i < entries.len() ==> {
                    &&& (#[trigger] entries[i]).start_epoch == outs[i].start_epoch
                    &&& entries[i].epoch_count == outs[i].epoch_count
                    &&& f.bytes@.subrange(
                        entries[i].offset as int,
                        (entries[i].offset + entries[i].length) as int,
                    ) == outs[i].bytes
                    &&& entries[i].offset == (if i == 0 {
                        24 + 32 * outs.len()
                    } else {
                        entries[i - 1].offset + entries[i - 1].length
                    })
                }
            &&& entries.last().offset + entries.last().length == f.bytes@.len()
        },
        ({
            let after = with_file(before, outs, shard_epochs);
            &&& after.files == before.files + 1
            &&& after.groups == before.groups + outs.len()
            &&& after.bytes == before.bytes + f.bytes@.len()
        }),
{
    let groups = groups_of(outs);
    let n = outs.len() as int;
    law_container_roundtrip(groups, shard_epochs);
    lemma_with_outs_counts(before, outs, n);
    let entries = directory(f.bytes@)->Ok_0;
    assert forall|i: int| 0 <= i < entries.len() implies {
        &&& (#[trigger] entries[i]).start_epoch == outs[i].start_epoch
        &&& entries[i].epoch_count == outs[i].epoch_count
        &&& f.bytes@.subrange(
            entries[i].offset as int,
            (entries[i].offset + entries[i].length) as int,
        ) == outs[i].bytes
        &&& entries[i].offset == (if i == 0 {
            24 + 32 * outs.len()
        } else {
            entries[i - 1].offset + entries[i - 1].length
        })
    } by {
        if i > 0 {
            assert(entries[i - 1].offset == group_offset(groups, i - 1));
            assert(payload_area(groups, i) == payload_area(groups, i - 1) + groups[i - 1].bytes);
        }
    }
    assert(entries[n - 1].offset == group_offset(groups, n - 1));
    assert(payload_area(groups, n) == payload_area(groups, n - 1) + groups[n - 1].bytes);
}

} // verus!
