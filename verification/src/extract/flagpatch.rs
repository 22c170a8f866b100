//! Setting the flag of blocks whose total reward is zero in containers that are already
//! written. The flags stand at fixed places, so that nothing else changes.
use crate::cfxpack::container::{directory, entry_views, parse_directory, EntryModel};
use crate::cfxpack::decode::{block_flag_sites, sites_of};
use crate::cfxpack::encode::{flag, has_flag};
use crate::cfxpack::error::PackError;
use crate::cfxpack::packet::FLAG_ZERO_TOTAL_REWARD;
use crate::cfxpack::types::{zeros, U256};
use crate::extract::blocks::BlockReward;
use crate::types::H256;
use vstd::prelude::*;

verus! {

/// What a run over the containers of a directory has done.
#[derive(Debug)]
pub struct FlagPatchSummary {
    pub files_scanned: usize,
    pub files_changed: usize,
    pub blocks_total: u64,
    pub blocks_flagged: u64,
    pub bytes_rewritten: u64,
    pub changed_files: Vec<String>,
}

/// Places in a packet as places in the container around it.
pub open spec fn shifted(sites: Seq<(nat, Seq<u8>)>, offset: nat) -> Seq<(nat, Seq<u8>)> {
    Seq::new(sites.len(), |i: int| (offset + sites[i].0, sites[i].1))
}

/// The places of the flags in the packets of the first `n` entries, with the hashes of
/// the blocks.
pub open spec fn entry_sites(data: Seq<u8>, entries: Seq<EntryModel>, n: int) -> Result<
    Seq<(nat, Seq<u8>)>,
    PackError,
>
    decreases n,
{
    if n <= 0 {
        Ok(Seq::empty())
    } else {
        match entry_sites(data, entries, n - 1) {
            Err(e) => Err(e),
            Ok(done) => {
                let e = entries[n - 1];
                match sites_of(data.subrange(e.offset as int, (e.offset + e.length) as int)) {
                    Err(e) => Err(e),
                    Ok(sites) => Ok(done + shifted(sites, e.offset)),
                }
            },
        }
    }
}

/// The places of the flags in a container, with the hashes of the blocks.
pub open spec fn container_sites(data: Seq<u8>) -> Result<Seq<(nat, Seq<u8>)>, PackError> {
    match directory(data) {
        Err(e) => Err(e),
        Ok(entries) => entry_sites(data, entries, entries.len() as int),
    }
}

/// Places and hashes as they are read.
pub open spec fn site_views(sites: Seq<(usize, H256)>) -> Seq<(nat, Seq<u8>)> {
    Seq::new(sites.len(), |i: int| (sites[i].0 as nat, sites[i].1@))
}

proof fn lemma_entry_sites_fault(data: Seq<u8>, entries: Seq<EntryModel>, i: int, n: int)
    requires
        0 <= i <= n,
        entry_sites(data, entries, i) is Err,
    ensures
        entry_sites(data, entries, n) == entry_sites(data, entries, i),
    decreases n,
{
    if i < n {
        lemma_entry_sites_fault(data, entries, i, n - 1);
    }
}

/// Finds the places of the flags in a container, with the hashes of the blocks.
pub fn find_flag_sites(data: &[u8]) -> (r: Result<Vec<(usize, H256)>, PackError>)
    ensures
        match r {
            Ok(sites) => container_sites(data@) == Ok::<Seq<(nat, Seq<u8>)>, PackError>(
                site_views(sites@),
            ) && forall|i: int|
                0 <= i < sites@.len() ==> (#[trigger] sites@[i]).0 < data@.len(),
            Err(e) => container_sites(data@) == Err::<Seq<(nat, Seq<u8>)>, PackError>(e),
        },
{
    let entries = match parse_directory(data) {
        Ok(v) => v,
        Err(e) => {
            return Err(e);
        },
    };
    let ghost all = entry_views(entries@);
    let mut sites: Vec<(usize, H256)> = Vec::new();
    let mut i: usize = 0;
    proof {
        assert(site_views(sites@) =~= Seq::empty());
    }
    while i < entries.len()
        invariant
            i <= entries@.len(),
            all == entry_views(entries@),
            directory(data@) == Ok::<Seq<EntryModel>, PackError>(all),
            forall|k: int|
                0 <= k < entries@.len() ==> (#[trigger] entries@[k]).2 + entries@[k].3
                    <= data@.len(),
            entry_sites(data@, all, i as int) == Ok::<Seq<(nat, Seq<u8>)>, PackError>(
                site_views(sites@),
            ),
            forall|k: int| 0 <= k < sites@.len() ==> (#[trigger] sites@[k]).0 < data@.len(),
        decreases entries@.len() - i,
    {
        let (_, _, offset, length): (u64, u64, usize, usize) = entries[i];
        assert(entries@[i as int].2 + entries@[i as int].3 <= data.len());
        let part: &[u8] = &data[offset..offset + length];
        let ghost done = site_views(sites@);
        proof {
            assert(all[i as int].offset == offset && all[i as int].length == length);
            if entry_sites(data@, all, i + 1) is Err {
                lemma_entry_sites_fault(data@, all, i + 1, all.len() as int);
            }
        }
        let found = match block_flag_sites(part) {
            Ok(v) => v,
            Err(e) => {
                return Err(e);
            },
        };
        let ghost local = site_views(found@);
        let ghost start = sites@;
        let mut j: usize = 0;
        while j < found.len()
            invariant
                j <= found@.len(),
                local == site_views(found@),
                offset + length <= data@.len(),
                part@.len() == length,
                done == site_views(start),
                forall|k: int| 0 <= k < found@.len() ==> (#[trigger] found@[k]).0 < part@.len(),
                sites@.len() == start.len() + j,
                forall|k: int| 0 <= k < start.len() ==> #[trigger] sites@[k] == start[k],
                forall|k: int|
                    0 <= k < j ==> (#[trigger] sites@[start.len() + k]).0 == offset + found@[k].0
                        && sites@[start.len() + k].1 == found@[k].1,
                forall|k: int| 0 <= k < sites@.len() ==> (#[trigger] sites@[k]).0 < data@.len(),
            decreases found@.len() - j,
        {
            let (place, hash): (usize, H256) = found[j];
            assert(offset + place < data.len());
            sites.push((offset + place, hash));
            j += 1;
        }
        proof {
            let want = done + shifted(local, offset as nat);
            assert forall|k: int| 0 <= k < want.len() implies #[trigger] site_views(sites@)[k]
                == want[k] by {
                if k < start.len() {
                    assert(sites@[k] == start[k]);
                } else {
                    let m = k - start.len();
                    assert(sites@[start.len() + m].0 == offset + found@[m].0);
                }
            }
            assert(site_views(sites@) =~= want);
        }
        i += 1;
    }
    Ok(sites)
}

/// Flags with the one for a total reward of zero.
pub open spec fn with_zero_flag(flags: u8) -> u8 {
    if flag(flags, FLAG_ZERO_TOTAL_REWARD) {
        flags
    } else {
        (flags + FLAG_ZERO_TOTAL_REWARD) as u8
    }
}

/// Whether the flags at `at` are those of a block whose total reward is zero.
pub open spec fn is_flagged(sites: Seq<(nat, Seq<u8>)>, zero: Seq<bool>, n: int, at: int) -> bool {
    exists|k: int| 0 <= k < n && #[trigger] sites[k].0 == at && zero[k]
}

/// A container in which the first `n` blocks have their flags.
pub open spec fn patched(data: Seq<u8>, sites: Seq<(nat, Seq<u8>)>, zero: Seq<bool>, n: int) -> Seq<
    u8,
> {
    Seq::new(
        data.len(),
        |i: int|
            if is_flagged(sites, zero, n, i) {
                with_zero_flag(data[i])
            } else {
                data[i]
            },
    )
}

/// The number of blocks whose total reward is zero.
pub open spec fn zero_count(zero: Seq<bool>, n: int) -> nat
    decreases n,
{
    if n <= 0 {
        0
    } else {
        zero_count(zero, n - 1) + if zero[n - 1] {
            1nat
        } else {
            0
        }
    }
}

proof fn lemma_zero_flag(flags: u8)
    ensures
        flag(with_zero_flag(flags), FLAG_ZERO_TOTAL_REWARD),
        !flag(flags, FLAG_ZERO_TOTAL_REWARD) ==> flags + FLAG_ZERO_TOTAL_REWARD <= u8::MAX,
        with_zero_flag(with_zero_flag(flags)) == with_zero_flag(flags),
        with_zero_flag(flags) == flags <==> flag(flags, FLAG_ZERO_TOTAL_REWARD),
{
}

/// Sets the flags of the blocks whose total reward is zero. Gives the number of such
/// blocks, and whether anything changed.
pub fn apply_zero_flags(data: &mut Vec<u8>, sites: &Vec<(usize, H256)>, zero: &Vec<bool>) -> (r: (
    u64,
    bool,
))
    requires
        sites@.len() == zero@.len(),
        forall|i: int| 0 <= i < sites@.len() ==> (#[trigger] sites@[i]).0 < old(data)@.len(),
    ensures
        final(data)@ == patched(
            old(data)@,
            site_views(sites@),
            zero@,
            sites@.len() as int,
        ),
        r.0 == zero_count(zero@, zero@.len() as int),
        r.1 == (final(data)@ != old(data)@),
{
    let ghost all = site_views(sites@);
    let ghost first = data@;
    let mut flagged: u64 = 0;
    let mut changed: bool = false;
    let mut i: usize = 0;
    proof {
        assert(data@ =~= patched(first, all, zero@, 0));
    }
    while i < sites.len()
        invariant
            i <= sites@.len(),
            sites@.len() == zero@.len(),
            all == site_views(sites@),
            first == old(data)@,
            forall|k: int| 0 <= k < sites@.len() ==> (#[trigger] sites@[k]).0 < first.len(),
            data@ == patched(first, all, zero@, i as int),
            flagged == zero_count(zero@, i as int),
            flagged <= i,
            changed == (data@ != first),
        decreases sites@.len() - i,
    {
        let at: usize = sites[i].0;
        let ghost before = data@;
        proof {
            assert(all[i as int].0 == at);
            assert(before.len() == first.len());
        }
        if zero[i] {
            flagged = flagged + 1;
            let flags: u8 = data[at];
            proof {
                lemma_zero_flag(flags);
                lemma_zero_flag(first[at as int]);
            }
            if !has_flag(flags, FLAG_ZERO_TOTAL_REWARD) {
                data[at] = flags + FLAG_ZERO_TOTAL_REWARD;
                changed = true;
            }
            proof {
                let next = patched(first, all, zero@, i + 1);
                assert forall|k: int| 0 <= k < first.len() implies #[trigger] data@[k]
                    == next[k] by {
                    if k == at {
                        assert(all[i as int].0 == k && zero@[i as int]);
                        assert(is_flagged(all, zero@, i + 1, k));
                        assert(data@[k] == with_zero_flag(before[k]));
                    } else {
                        lemma_flagged_step(all, zero@, i as int, k);
                    }
                }
                assert(data@ =~= next);
                if data@ != before {
                    assert(data@[at as int] != first[at as int]) by {
                        if data@[at as int] == first[at as int] {
                            assert(flag(first[at as int], FLAG_ZERO_TOTAL_REWARD));
                        }
                    }
                }
            }
        } else {
            proof {
                let next = patched(first, all, zero@, i + 1);
                assert forall|k: int| 0 <= k < first.len() implies #[trigger] data@[k]
                    == next[k] by {
                    lemma_flagged_step(all, zero@, i as int, k);
                }
                assert(data@ =~= next);
            }
        }
        i += 1;
    }
    (flagged, changed)
}

/// One block more changes nothing elsewhere.
proof fn lemma_flagged_step(sites: Seq<(nat, Seq<u8>)>, zero: Seq<bool>, n: int, at: int)
    requires
        0 <= n,
        sites[n].0 != at || !zero[n],
    ensures
        is_flagged(sites, zero, n + 1, at) == is_flagged(sites, zero, n, at),
{
    if is_flagged(sites, zero, n + 1, at) {
        let k = choose|k: int| 0 <= k < n + 1 && #[trigger] sites[k].0 == at && zero[k];
        assert(k != n);
        assert(sites[k].0 == at && zero[k]);
    }
    if is_flagged(sites, zero, n, at) {
        let k = choose|k: int| 0 <= k < n && #[trigger] sites[k].0 == at && zero[k];
        assert(sites[k].0 == at && zero[k]);
    }
}

/// Setting the flags a second time changes nothing.
pub proof fn law_patch_twice(data: Seq<u8>, sites: Seq<(nat, Seq<u8>)>, zero: Seq<bool>, n: int)
    ensures
        patched(patched(data, sites, zero, n), sites, zero, n) == patched(data, sites, zero, n),
{
    let once = patched(data, sites, zero, n);
    let twice = patched(once, sites, zero, n);
    assert forall|i: int| 0 <= i < data.len() implies #[trigger] twice[i] == once[i] by {
        lemma_zero_flag(data[i]);
    }
    assert(twice =~= once);
}

/// Whether a block gets the flag: it has no reward on record, or one whose total is zero.
pub open spec fn no_reward(reward: Option<BlockReward>) -> bool {
    match reward {
        Some(r) => r.total_reward@ == zeros(32),
        None => true,
    }
}

/// Whether a block gets the flag, by the reward that is on record for it.
pub fn total_reward_is_zero(reward: &Option<BlockReward>) -> (r: bool)
    ensures
        r == no_reward(*reward),
{
    match reward {
        Some(found) => found.total_reward.same(&U256::zero()),
        None => true,
    }
}

/// What a summary says of the files so far.
pub struct PatchTotals {
    pub scanned: nat,
    pub changed: nat,
    pub blocks: nat,
    pub flagged: nat,
    pub rewritten: nat,
}

impl FlagPatchSummary {
    /// The numbers of the summary.
    pub open spec fn totals(&self) -> PatchTotals {
        PatchTotals {
            scanned: self.files_scanned as nat,
            changed: self.files_changed as nat,
            blocks: self.blocks_total as nat,
            flagged: self.blocks_flagged as nat,
            rewritten: self.bytes_rewritten as nat,
        }
    }
}

impl Default for FlagPatchSummary {
    fn default() -> (r: Self)
        ensures
            r.totals() == (PatchTotals {
                scanned: 0,
                changed: 0,
                blocks: 0,
                flagged: 0,
                rewritten: 0,
            }),
            r.changed_files@.len() == 0,
    {
        FlagPatchSummary {
            files_scanned: 0,
            files_changed: 0,
            blocks_total: 0,
            blocks_flagged: 0,
            bytes_rewritten: 0,
            changed_files: Vec::new(),
        }
    }
}

} // verus!
