//! Runs that set the flag of blocks without a reward in many containers.
use crate::cfxpack::codec::le_at;
use crate::cfxpack::container::{container, directory, directory_fault, entry_at, group_offset, law_container_roundtrip, EntryModel, GroupModel};
use crate::cfxpack::decode::{flag_sites, header_fault, offset_fault, offset_of, sites_of};
use crate::cfxpack::error::PackError;
use crate::cfxpack::files::name_views;
use crate::extract::flagpatch::{apply_zero_flags, container_sites, entry_sites, is_flagged, law_patch_twice, patched, shifted, site_views, zero_count, FlagPatchSummary, PatchTotals};
use crate::extract::name_order::{names_sorted, sort_names};
use crate::types::H256;
use vstd::prelude::*;

verus! {

/// What a run has counted, and the names of the files that changed.
pub struct RunModel {
    pub totals: PatchTotals,
    pub names: Seq<Seq<char>>,
}

/// A run that has seen no file.
pub open spec fn run_start() -> RunModel {
    RunModel {
        totals: PatchTotals { scanned: 0, changed: 0, blocks: 0, flagged: 0, rewritten: 0 },
        names: Seq::empty(),
    }
}

/// A run with one file more. The bytes of a file that changed count as rewritten, unless
/// the run is a dry one.
pub open spec fn with_patched(
    r: RunModel,
    name: Seq<char>,
    data: Seq<u8>,
    sites: Seq<(nat, Seq<u8>)>,
    zero: Seq<bool>,
    dry_run: bool,
) -> RunModel {
    let changed = patched(data, sites, zero, sites.len() as int) != data;
    let t = r.totals;
    RunModel {
        totals: PatchTotals {
            scanned: t.scanned + 1,
            changed: t.changed + if changed {
                1nat
            } else {
                0
            },
            blocks: t.blocks + sites.len(),
            flagged: t.flagged + zero_count(zero, zero.len() as int),
            rewritten: t.rewritten + if changed && !dry_run {
                data.len()
            } else {
                0
            },
        },
        names: if changed {
            r.names.push(name)
        } else {
            r.names
        },
    }
}

/// Whether a summary can hold what a run has counted.
pub open spec fn run_counts(t: PatchTotals) -> bool {
    &&& t.scanned <= usize::MAX
    &&& t.changed <= usize::MAX
    &&& t.blocks <= u64::MAX
    &&& t.flagged <= u64::MAX
    &&& t.rewritten <= u64::MAX
}

/// What was done to a file.
#[derive(Clone, Copy, Debug, PartialEq, Eq, Structural)]
pub struct PatchOutcome {
    /// The number of blocks whose total reward is zero.
    pub flagged: u64,
    /// Whether the bytes are others than before.
    pub changed: bool,
    /// Whether the bytes are to be written to the file.
    pub write: bool,
}

impl FlagPatchSummary {
    /// What the summary says.
    pub open spec fn run(&self) -> RunModel {
        RunModel { totals: self.totals(), names: name_views(self.changed_files@) }
    }

    /// Patches a file and counts it. It fails where a sum is too large.
    pub fn patch_file(
        &mut self,
        name: String,
        data: &mut Vec<u8>,
        sites: &Vec<(usize, H256)>,
        zero: &Vec<bool>,
        dry_run: bool,
    ) -> (r: Result<PatchOutcome, PackError>)
        requires
            sites@.len() == zero@.len(),
            forall|i: int| 0 <= i < sites@.len() ==> (#[trigger] sites@[i]).0 < old(data)@.len(),
        ensures
            final(data)@ == patched(
                old(data)@,
                site_views(sites@),
                zero@,
                sites@.len() as int,
            ),
            ({
                let after = with_patched(
                    old(self).run(),
                    name@,
                    old(data)@,
                    site_views(sites@),
                    zero@,
                    dry_run,
                );
                &&& r is Ok <==> run_counts(after.totals)
                &&& match r {
                    Ok(done) => {
                        &&& final(self).run() == after
                        &&& done.flagged == zero_count(zero@, zero@.len() as int)
                        &&& done.changed == (final(data)@ != old(data)@)
                        &&& done.write == (done.changed && !dry_run)
                    },
                    Err(e) => e == PackError::ValueTooLarge && *final(self) == *old(self),
                }
            }),
    {
        let ghost before = self.run();
        let (flagged, changed): (u64, bool) = apply_zero_flags(data, sites, zero);
        let blocks: u64 = sites.len() as u64;
        let write: bool = changed && !dry_run;
        let length: u64 = if write {
            data.len() as u64
        } else {
            0
        };
        if self.files_scanned == usize::MAX || (changed && self.files_changed == usize::MAX)
            || blocks > u64::MAX - self.blocks_total || flagged > u64::MAX - self.blocks_flagged
            || length > u64::MAX - self.bytes_rewritten {
            return Err(PackError::ValueTooLarge);
        }
        self.files_scanned = self.files_scanned + 1;
        self.blocks_total = self.blocks_total + blocks;
        self.blocks_flagged = self.blocks_flagged + flagged;
        self.bytes_rewritten = self.bytes_rewritten + length;
        if changed {
            let ghost text = name@;
            self.files_changed = self.files_changed + 1;
            self.changed_files.push(name);
            proof {
                assert(name_views(self.changed_files@) =~= before.names.push(text));
            }
        }
        Ok(PatchOutcome { flagged, changed, write })
    }

    /// Puts the names of the files that changed in order, once all files are counted.
    pub fn sort_changed(&mut self)
        ensures
            final(self).totals() == old(self).totals(),
            names_sorted(final(self).run().names),
            final(self).run().names.to_multiset() == old(self).run().names.to_multiset(),
    {
        let mut names: Vec<String> = Vec::new();
        std::mem::swap(&mut names, &mut self.changed_files);
        self.changed_files = sort_names(names);
    }
}

/// A container file.
pub struct FileModel {
    pub name: Seq<char>,
    pub data: Seq<u8>,
}

/// Which of the blocks at the sites have a total reward of zero, where `zero_of` tells it
/// by the hash.
pub open spec fn zeros_at(
    sites: Seq<(nat, Seq<u8>)>,
    zero_of: spec_fn(Seq<u8>) -> bool,
) -> Seq<bool> {
    Seq::new(sites.len(), |i: int| zero_of(sites[i].1))
}

/// A container in which all blocks have their flags.
pub open spec fn patched_data(data: Seq<u8>, zero_of: spec_fn(Seq<u8>) -> bool) -> Seq<u8> {
    let sites = container_sites(data)->Ok_0;
    patched(data, sites, zeros_at(sites, zero_of), sites.len() as int)
}

/// What a run over the first `n` files counts.
pub open spec fn run_over(
    files: Seq<FileModel>,
    zero_of: spec_fn(Seq<u8>) -> bool,
    dry_run: bool,
    n: int,
) -> Result<RunModel, PackError>
    decreases n,
{
    if n <= 0 {
        Ok(run_start())
    } else {
        match run_over(files, zero_of, dry_run, n - 1) {
            Err(e) => Err(e),
            Ok(r) => match container_sites(files[n - 1].data) {
                Err(e) => Err(e),
                Ok(sites) => Ok(
                    with_patched(
                        r,
                        files[n - 1].name,
                        files[n - 1].data,
                        sites,
                        zeros_at(sites, zero_of),
                        dry_run,
                    ),
                ),
            },
        }
    }
}

/// The files after a run. A dry run writes none.
pub open spec fn files_after(
    files: Seq<FileModel>,
    zero_of: spec_fn(Seq<u8>) -> bool,
    dry_run: bool,
) -> Seq<FileModel> {
    Seq::new(
        files.len(),
        |i: int|
            if dry_run {
                files[i]
            } else {
                FileModel { name: files[i].name, data: patched_data(files[i].data, zero_of) }
            },
    )
}

/// Whether the byte `y` is one of the hash of block `k`.
pub open spec fn in_hash(body: int, size: int, k: int, y: int) -> bool {
    body + k * size <= y < body + k * size + 32
}

/// Whether finding the flag sites of a packet looks at its byte `y`: one of the header, of
/// the number of blocks, or of a hash.
pub open spec fn packet_looks_at(d: Seq<u8>, y: int) -> bool {
    let count = le_at(d, offset_of(d, 5) as int, 4)->Ok_0;
    let body = offset_of(d, 6) as int;
    let size = d[92] as int;
    ||| 0 <= y < 125
    ||| offset_of(d, 5) <= y < offset_of(d, 5) + 4
    ||| exists|k: int| 0 <= k < count && in_hash(body, size, k, y)
}

/// The packet of an entry.
pub open spec fn packet_of(data: Seq<u8>, e: EntryModel) -> Seq<u8> {
    data.subrange(e.offset as int, (e.offset + e.length) as int)
}

/// Whether finding the flag sites of a container looks at its byte `x`.
pub open spec fn looks_at(data: Seq<u8>, x: int) -> bool {
    let entries = directory(data)->Ok_0;
    ||| 0 <= x < 24 + 32 * entries.len()
    ||| exists|i: int|
        0 <= i < entries.len() && packet_looks_at(
            packet_of(data, #[trigger] entries[i]),
            x - entries[i].offset,
        )
}

/// Whether setting the flags leaves the bytes as they are from which the sites are found.
/// It does where the packets overlap neither one another nor the directory.
pub open spec fn steady(data: Seq<u8>, zero_of: spec_fn(Seq<u8>) -> bool) -> bool {
    forall|x: int|
        0 <= x < data.len() && looks_at(data, x) ==> #[trigger] patched_data(data, zero_of)[x]
            == data[x]
}

/// The header of a packet with the same first bytes says the same.
proof fn lemma_same_header(a: Seq<u8>, b: Seq<u8>)
    requires
        a.len() == b.len(),
        a.len() >= 125,
        forall|y: int| 0 <= y < 125 ==> #[trigger] b[y] == a[y],
    ensures
        header_fault(b) == header_fault(a),
        forall|i: int| 0 <= i < 8 ==> #[trigger] offset_of(b, i) == offset_of(a, i),
{
    assert forall|i: int| 0 <= i < 8 implies #[trigger] offset_of(b, i) == offset_of(a, i) by {
        assert(b.subrange(93 + 4 * i, 97 + 4 * i) =~= a.subrange(93 + 4 * i, 97 + 4 * i));
    }
    lemma_same_faults(a, b, 0, 125);
    assert(b[92] == a[92]);
}

proof fn lemma_same_faults(a: Seq<u8>, b: Seq<u8>, i: int, previous: int)
    requires
        a.len() == b.len(),
        0 <= i,
        forall|i: int| 0 <= i < 8 ==> #[trigger] offset_of(b, i) == offset_of(a, i),
    ensures
        offset_fault(b, i, previous) == offset_fault(a, i, previous),
    decreases 8 - i,
{
    if i < 8 {
        assert(offset_of(b, i) == offset_of(a, i));
        lemma_same_faults(a, b, i + 1, offset_of(a, i) as int);
    }
}

/// The offsets of a packet with a sound header are in order and lie in it.
proof fn lemma_order(d: Seq<u8>)
    requires
        header_fault(d) is None,
    ensures
        125 <= offset_of(d, 5) <= offset_of(d, 6) <= offset_of(d, 7) <= d.len(),
        d[92] >= 64,
{
    reveal_with_fuel(offset_fault, 9);
}

proof fn lemma_spot(k: int, count: int, size: int)
    requires
        0 <= k < count,
        size >= 64,
    ensures
        0 <= k * size,
        k * size + size <= count * size,
{
    assert(0 <= k * size && k * size + size <= count * size) by (nonlinear_arith)
        requires
            0 <= k < count,
            size >= 64,
    ;
}

/// The flag sites of a packet are the same where all that finding them looks at is.
proof fn lemma_same_sites(a: Seq<u8>, b: Seq<u8>)
    requires
        a.len() == b.len(),
        sites_of(a) is Ok,
        forall|y: int| 0 <= y < a.len() && packet_looks_at(a, y) ==> #[trigger] b[y] == a[y],
    ensures
        sites_of(b) == sites_of(a),
{
    assert forall|y: int| 0 <= y < 125 implies #[trigger] b[y] == a[y] by {
        assert(packet_looks_at(a, y));
    }
    lemma_same_header(a, b);
    lemma_order(a);
    assert(offset_of(b, 5) == offset_of(a, 5));
    assert(offset_of(b, 6) == offset_of(a, 6));
    assert(offset_of(b, 7) == offset_of(a, 7));
    assert(b[92] == a[92]);
    let at = offset_of(a, 5) as int;
    assert(b.subrange(at, at + 4) =~= a.subrange(at, at + 4)) by {
        assert forall|o: int| 0 <= o < 4 implies #[trigger] b.subrange(at, at + 4)[o] == a.subrange(
            at,
            at + 4,
        )[o] by {
            assert(packet_looks_at(a, at + o));
            assert(b[at + o] == a[at + o]);
        }
    }
    let count = le_at(a, at, 4)->Ok_0;
    let body = offset_of(a, 6) as int;
    let size = a[92] as int;
    let fa = flag_sites(a, count);
    let fb = flag_sites(b, count);
    assert forall|k: int| 0 <= k < count implies #[trigger] fb[k] == fa[k] by {
        lemma_spot(k, count as int, size);
        let from = body + k * size;
        assert(b.subrange(from, from + 32) =~= a.subrange(from, from + 32)) by {
            assert forall|o: int| 0 <= o < 32 implies #[trigger] b.subrange(from, from + 32)[o]
                == a.subrange(from, from + 32)[o] by {
                assert(in_hash(body, size, k, from + o));
                assert(packet_looks_at(a, from + o));
                assert(b[from + o] == a[from + o]);
            }
        }
    }
    assert(fb =~= fa);
}

/// The directory of a container is the same where its first bytes are.
proof fn lemma_same_directory(a: Seq<u8>, b: Seq<u8>)
    requires
        a.len() == b.len(),
        directory(a) is Ok,
        forall|x: int|
            0 <= x < 24 + 32 * directory(a)->Ok_0.len() && x < a.len() ==> #[trigger] b[x] == a[x],
    ensures
        directory(b) == directory(a),
{
    assert(b.take(8) =~= a.take(8));
    assert(b.subrange(12, 16) =~= a.subrange(12, 16));
    let n = directory(a)->Ok_0.len();
    lemma_directory_fits(a, 0, n as int);
    assert forall|i: int| 0 <= i < n implies #[trigger] entry_at(b, i) == entry_at(a, i) by {
        lemma_directory_fits(a, i, n as int);
        let at = 24 + 32 * i;
        assert(b.subrange(at, at + 8) =~= a.subrange(at, at + 8));
        assert(b.subrange(at + 8, at + 16) =~= a.subrange(at + 8, at + 16));
        assert(b.subrange(at + 16, at + 24) =~= a.subrange(at + 16, at + 24));
        assert(b.subrange(at + 24, at + 32) =~= a.subrange(at + 24, at + 32));
    }
    lemma_same_entries(a, b, 0, n as int);
    assert(directory(b)->Ok_0 =~= directory(a)->Ok_0);
}

/// A directory without a fault is all there, and its entries lead into the container.
proof fn lemma_directory_fits(a: Seq<u8>, i: int, n: int)
    requires
        0 <= i <= n,
        directory_fault(a, 0, n) is None,
    ensures
        directory_fault(a, i, n) is None,
        i < n ==> 24 + 32 * i + 32 <= a.len(),
        i < n ==> entry_at(a, i).offset + entry_at(a, i).length <= a.len(),
    decreases i,
{
    if i > 0 {
        lemma_directory_fits(a, i - 1, n);
    }
}

proof fn lemma_same_entries(a: Seq<u8>, b: Seq<u8>, i: int, n: int)
    requires
        a.len() == b.len(),
        0 <= i <= n,
        forall|i: int| 0 <= i < n ==> #[trigger] entry_at(b, i) == entry_at(a, i),
    ensures
        directory_fault(b, i, n) == directory_fault(a, i, n),
    decreases n - i,
{
    if i < n {
        assert(entry_at(b, i) == entry_at(a, i));
        lemma_same_entries(a, b, i + 1, n);
    }
}

proof fn lemma_same_entry_sites(a: Seq<u8>, b: Seq<u8>, entries: Seq<EntryModel>, n: int)
    requires
        a.len() == b.len(),
        0 <= n <= entries.len(),
        directory(a) == Ok::<Seq<EntryModel>, PackError>(entries),
        entry_sites(a, entries, n) is Ok,
        forall|x: int| 0 <= x < a.len() && looks_at(a, x) ==> #[trigger] b[x] == a[x],
    ensures
        entry_sites(b, entries, n) == entry_sites(a, entries, n),
    decreases n,
{
    if n > 0 {
        lemma_same_entry_sites(a, b, entries, n - 1);
        let e = entries[n - 1];
        lemma_directory_fits(a, n - 1, entries.len() as int);
        assert(e == entry_at(a, n - 1));
        let pa = packet_of(a, e);
        let pb = packet_of(b, e);
        assert forall|y: int| 0 <= y < pa.len() && packet_looks_at(pa, y) implies #[trigger] pb[y]
            == pa[y] by {
            let x = y + e.offset;
            assert(looks_at(a, x)) by {
                assert(packet_looks_at(packet_of(a, entries[n - 1]), x - entries[n - 1].offset));
            }
            assert(b[x] == a[x]);
        }
        lemma_same_sites(pa, pb);
    }
}

/// Setting the flags of a container moves no site and changes no hash, and doing it again
/// changes nothing, where the bytes from which the sites are found stay as they are.
pub proof fn law_patched_again(data: Seq<u8>, zero_of: spec_fn(Seq<u8>) -> bool)
    requires
        container_sites(data) is Ok,
        steady(data, zero_of),
    ensures
        container_sites(patched_data(data, zero_of)) == container_sites(data),
        patched_data(patched_data(data, zero_of), zero_of) == patched_data(data, zero_of),
{
    let after = patched_data(data, zero_of);
    let entries = directory(data)->Ok_0;
    assert forall|x: int| 0 <= x < 24 + 32 * entries.len() && x < data.len() implies
        #[trigger] after[x] == data[x] by {
        assert(looks_at(data, x));
    }
    lemma_same_directory(data, after);
    lemma_same_entry_sites(data, after, entries, entries.len() as int);
    let sites = container_sites(data)->Ok_0;
    law_patch_twice(data, sites, zeros_at(sites, zero_of), sites.len() as int);
}

/// A dry run and a run that writes count the same, but for the bytes.
proof fn lemma_dry(files: Seq<FileModel>, zero_of: spec_fn(Seq<u8>) -> bool, n: int)
    requires
        run_over(files, zero_of, false, n) is Ok,
    ensures
        run_over(files, zero_of, true, n) is Ok,
        ({
            let dry = run_over(files, zero_of, true, n)->Ok_0;
            let wet = run_over(files, zero_of, false, n)->Ok_0;
            &&& dry.totals == PatchTotals { rewritten: 0, ..wet.totals }
            &&& dry.names == wet.names
            &&& wet.totals.changed == wet.names.len()
        }),
    decreases n,
{
    if n > 0 {
        lemma_dry(files, zero_of, n - 1);
    }
}

/// A run over files that were patched finds as many blocks, and changes nothing.
proof fn lemma_again(files: Seq<FileModel>, zero_of: spec_fn(Seq<u8>) -> bool, n: int)
    requires
        0 <= n <= files.len(),
        run_over(files, zero_of, false, n) is Ok,
        forall|i: int| 0 <= i < n ==> steady((#[trigger] files[i]).data, zero_of),
    ensures
        ({
            let after = files_after(files, zero_of, false);
            let wet = run_over(files, zero_of, false, n)->Ok_0;
            run_over(after, zero_of, false, n) == Ok::<RunModel, PackError>(
                RunModel {
                    totals: PatchTotals { changed: 0, rewritten: 0, ..wet.totals },
                    names: Seq::empty(),
                },
            )
        }),
    decreases n,
{
    if n > 0 {
        lemma_again(files, zero_of, n - 1);
        assert(steady(files[n - 1].data, zero_of));
        law_patched_again(files[n - 1].data, zero_of);
    }
}

/// A dry run leaves every file as it is, counts no bytes, and tells of the rest what a run
/// that writes tells. A run counts as many changed files as it names. A run over files that
/// were patched finds as many blocks to flag, changes no file and writes nothing.
pub proof fn law_flag_runs(files: Seq<FileModel>, zero_of: spec_fn(Seq<u8>) -> bool)
    requires
        run_over(files, zero_of, false, files.len() as int) is Ok,
        forall|i: int| 0 <= i < files.len() ==> steady((#[trigger] files[i]).data, zero_of),
    ensures
        ({
            let n = files.len() as int;
            let patched_files = files_after(files, zero_of, false);
            let dry = run_over(files, zero_of, true, n);
            let wet = run_over(files, zero_of, false, n);
            let again = run_over(patched_files, zero_of, false, n);
            &&& files_after(files, zero_of, true) == files
            &&& dry matches Ok(d) && wet matches Ok(w) && {
                &&& d.totals.rewritten == 0
                &&& d.totals.scanned == w.totals.scanned
                &&& d.totals.changed == w.totals.changed
                &&& d.totals.blocks == w.totals.blocks
                &&& d.totals.flagged == w.totals.flagged
                &&& d.names == w.names
                &&& w.totals.changed == w.names.len()
                &&& again matches Ok(x) && {
                    &&& x.totals.changed == 0
                    &&& x.totals.rewritten == 0
                    &&& x.names.len() == 0
                    &&& x.totals.scanned == w.totals.scanned
                    &&& x.totals.blocks == w.totals.blocks
                    &&& x.totals.flagged == w.totals.flagged
                }
            }
            &&& files_after(patched_files, zero_of, false) == patched_files
        }),
{
    let n = files.len() as int;
    lemma_dry(files, zero_of, n);
    lemma_again(files, zero_of, n);
    assert(files_after(files, zero_of, true) =~= files);
    let once = files_after(files, zero_of, false);
    let twice = files_after(once, zero_of, false);
    assert forall|i: int| 0 <= i < n implies #[trigger] twice[i] == once[i] by {
        lemma_all_found(files, zero_of, n, i);
        law_patched_again(files[i].data, zero_of);
    }
    assert(twice =~= once);
}

/// A run that succeeds has found the sites of every file.
proof fn lemma_all_found(
    files: Seq<FileModel>,
    zero_of: spec_fn(Seq<u8>) -> bool,
    n: int,
    i: int,
)
    requires
        0 <= i < n,
        run_over(files, zero_of, false, n) is Ok,
    ensures
        container_sites(files[i].data) is Ok,
    decreases n,
{
    if i < n - 1 {
        lemma_all_found(files, zero_of, n - 1, i);
    }
}

/// Every site of a container is a site of one of its packets.
proof fn lemma_site_home(data: Seq<u8>, entries: Seq<EntryModel>, n: int, k: int) -> (r: (
    int,
    int,
))
    requires
        0 <= n <= entries.len(),
        entry_sites(data, entries, n) is Ok,
        0 <= k < entry_sites(data, entries, n)->Ok_0.len(),
    ensures
        0 <= r.0 < n,
        sites_of(packet_of(data, entries[r.0])) matches Ok(local) && 0 <= r.1 < local.len()
            && entry_sites(data, entries, n)->Ok_0[k].0 == entries[r.0].offset + local[r.1].0,
    decreases n,
{
    if n <= 0 {
        assert(false);
        (0, 0)
    } else {
        let done = entry_sites(data, entries, n - 1)->Ok_0;
        let e = entries[n - 1];
        let local = sites_of(packet_of(data, e))->Ok_0;
        if k < done.len() {
            lemma_site_home(data, entries, n - 1, k)
        } else {
            let m = k - done.len();
            assert(entry_sites(data, entries, n)->Ok_0[k] == shifted(local, e.offset)[m]);
            (n - 1, m)
        }
    }
}

/// The sites of a packet lie in it, and finding them does not look there.
proof fn lemma_own_site(d: Seq<u8>, k: int)
    requires
        sites_of(d) is Ok,
        0 <= k < sites_of(d)->Ok_0.len(),
    ensures
        0 <= sites_of(d)->Ok_0[k].0 < d.len(),
        !packet_looks_at(d, sites_of(d)->Ok_0[k].0 as int),
{
    lemma_order(d);
    let count = le_at(d, offset_of(d, 5) as int, 4)->Ok_0 as int;
    let body = offset_of(d, 6) as int;
    let size = d[92] as int;
    let y = sites_of(d)->Ok_0[k].0 as int;
    lemma_spot(k, count, size);
    assert(y == body + k * size + 44);
    if exists|j: int| 0 <= j < count && in_hash(body, size, j, y) {
        let j = choose|j: int| 0 <= j < count && in_hash(body, size, j, y);
        assert(false) by (nonlinear_arith)
            requires
                j * size <= k * size + 44 < j * size + 32,
                size >= 64,
        ;
    }
}

/// Finding the sites of a packet looks at bytes of the packet only.
proof fn lemma_looks_inside(d: Seq<u8>, y: int)
    requires
        sites_of(d) is Ok,
        packet_looks_at(d, y),
    ensures
        0 <= y < d.len(),
{
    lemma_order(d);
    let count = le_at(d, offset_of(d, 5) as int, 4)->Ok_0 as int;
    let body = offset_of(d, 6) as int;
    let size = d[92] as int;
    if exists|k: int| 0 <= k < count && in_hash(body, size, k, y) {
        let k = choose|k: int| 0 <= k < count && in_hash(body, size, k, y);
        lemma_spot(k, count, size);
    }
}

proof fn lemma_entry_found(data: Seq<u8>, entries: Seq<EntryModel>, n: int, i: int)
    requires
        0 <= i < n,
        entry_sites(data, entries, n) is Ok,
    ensures
        sites_of(packet_of(data, entries[i])) is Ok,
    decreases n,
{
    if i < n - 1 {
        lemma_entry_found(data, entries, n - 1, i);
    }
}

proof fn lemma_offsets_grow(groups: Seq<GroupModel>, i: int, j: int)
    requires
        0 <= i < j <= groups.len(),
    ensures
        group_offset(groups, i) + groups[i].bytes.len() <= group_offset(groups, j),
    decreases j,
{
    if i < j - 1 {
        lemma_offsets_grow(groups, i, j - 1);
    }
}

/// A container that was written keeps the bytes from which its sites are found, whatever
/// flags are set in it.
pub proof fn law_written_steady(
    groups: Seq<GroupModel>,
    shard_epochs: u64,
    zero_of: spec_fn(Seq<u8>) -> bool,
)
    requires
        container(groups, shard_epochs) is Ok,
        container_sites(container(groups, shard_epochs)->Ok_0) is Ok,
    ensures
        steady(container(groups, shard_epochs)->Ok_0, zero_of),
{
    let data = container(groups, shard_epochs)->Ok_0;
    law_container_roundtrip(groups, shard_epochs);
    let entries = directory(data)->Ok_0;
    let n = entries.len() as int;
    let sites = container_sites(data)->Ok_0;
    let zero = zeros_at(sites, zero_of);
    let after = patched_data(data, zero_of);
    assert forall|x: int| 0 <= x < data.len() && looks_at(data, x) implies #[trigger] after[x]
        == data[x] by {
        if is_flagged(sites, zero, sites.len() as int, x) {
            let k = choose|k: int| 0 <= k < sites.len() && #[trigger] sites[k].0 == x && zero[k];
            let (j, m) = lemma_site_home(data, entries, n, k);
            let d = packet_of(data, entries[j]);
            lemma_own_site(d, m);
            assert(entries[j].offset == group_offset(groups, j));
            assert(d.len() == entries[j].length);
            assert(x >= 24 + 32 * n);
            let i = choose|i: int|
                0 <= i < entries.len() && packet_looks_at(
                    packet_of(data, #[trigger] entries[i]),
                    x - entries[i].offset,
                );
            lemma_entry_found(data, entries, n, i);
            lemma_looks_inside(packet_of(data, entries[i]), x - entries[i].offset);
            assert(entries[i].offset == group_offset(groups, i));
            if i < j {
                lemma_offsets_grow(groups, i, j);
            } else if j < i {
                lemma_offsets_grow(groups, j, i);
            }
            assert(false);
        }
    }
}

} // verus!
