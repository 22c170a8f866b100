//! Which files of a directory are read, and in what order.
use crate::cfxpack::error::PackError;
use crate::cfxpack::names::{extension, has_extension, is_cfxpack, is_compressed, name_start, names_pack, pack_key, pack_order_key, shard_epoch_range, shard_range, start_epoch};
use crate::order::{comes_before, is_order, order_by_key};
use crate::text::{ends_with, letters};
use vstd::prelude::*;

verus! {

/// The file names as texts.
pub open spec fn name_views(names: Seq<String>) -> Seq<Seq<char>> {
    Seq::new(names.len(), |i: int| names[i]@)
}

/// The first epoch of a file that is a container.
pub open spec fn pack_start(name: Seq<char>) -> Option<u64> {
    if names_pack(name) {
        name_start(name)
    } else {
        None
    }
}

/// Whether file `j` takes the place of file `i`, which starts at the same epoch: a
/// compressed file goes before one that is not, and a later one before an earlier.
pub open spec fn replaces(names: Seq<Seq<char>>, j: int, i: int) -> bool {
    let new = ends_with(names[j], ".cfxpack.zst"@);
    let old = ends_with(names[i], ".cfxpack.zst"@);
    pack_start(names[j]) == pack_start(names[i]) && if new == old {
        j > i
    } else {
        new
    }
}

/// The first epoch of file `i`, where it is the one that is read for that epoch.
pub open spec fn chosen_start(names: Seq<Seq<char>>, i: int) -> Option<u64> {
    if exists|j: int| 0 <= j < names.len() && #[trigger] replaces(names, j, i) {
        None
    } else {
        pack_start(names[i])
    }
}

/// The files that are read, with their first epochs.
pub open spec fn chosen_starts(names: Seq<Seq<char>>) -> Seq<Option<u64>> {
    Seq::new(names.len(), |i: int| chosen_start(names, i))
}

/// The containers among the files of a directory, by their first epochs. Where there
/// is a compressed and an uncompressed file for one epoch, the compressed one is
/// listed.
pub fn collect_files(names: &Vec<String>) -> (r: Result<Vec<usize>, PackError>)
    ensures
        match r {
            Ok(order) => order@.len() > 0 && is_order(chosen_starts(name_views(names@)), order@),
            Err(e) => e == PackError::NoFiles && forall|i: int|
                0 <= i < names@.len() ==> chosen_starts(name_views(names@))[i] is None,
        },
{
    let ghost all = name_views(names@);
    let n: usize = names.len();
    let mut starts: Vec<Option<u64>> = Vec::new();
    let mut zst: Vec<bool> = Vec::new();
    let mut i: usize = 0;
    while i < n
        invariant
            i <= n,
            n == names@.len(),
            all == name_views(names@),
            starts@.len() == i,
            zst@.len() == i,
            forall|k: int| 0 <= k < i ==> #[trigger] starts@[k] == pack_start(all[k]),
            forall|k: int|
                0 <= k < i ==> #[trigger] zst@[k] == ends_with(all[k], ".cfxpack.zst"@),
        decreases n - i,
    {
        let name: &str = names[i].as_str();
        if is_cfxpack(name) {
            starts.push(start_epoch(name));
        } else {
            starts.push(None);
        }
        zst.push(is_compressed(name));
        i += 1;
    }
    let mut keys: Vec<Option<u64>> = Vec::new();
    let mut i: usize = 0;
    while i < n
        invariant
            i <= n,
            n == names@.len(),
            all == name_views(names@),
            starts@.len() == n,
            zst@.len() == n,
            forall|k: int| 0 <= k < n ==> #[trigger] starts@[k] == pack_start(all[k]),
            forall|k: int|
                0 <= k < n ==> #[trigger] zst@[k] == ends_with(all[k], ".cfxpack.zst"@),
            keys@.len() == i,
            forall|k: int| 0 <= k < i ==> #[trigger] keys@[k] == chosen_start(all, k),
        decreases n - i,
    {
        let mut kept: bool = true;
        let mut j: usize = 0;
        while j < n && kept
            invariant
                j <= n,
                i < n,
                n == all.len(),
                starts@.len() == n,
                zst@.len() == n,
                forall|k: int| 0 <= k < n ==> #[trigger] starts@[k] == pack_start(all[k]),
                forall|k: int|
                    0 <= k < n ==> #[trigger] zst@[k] == ends_with(all[k], ".cfxpack.zst"@),
                !kept ==> exists|k: int|
                    0 <= k < all.len() && #[trigger] replaces(all, k, i as int),
                kept ==> forall|k: int| 0 <= k < j ==> !#[trigger] replaces(all, k, i as int),
            decreases n - j, if kept {
                    1int
                } else {
                    0
                },
        {
            let wins: bool = if zst[j] == zst[i] {
                j > i
            } else {
                zst[j]
            };
            let same: bool = match (starts[j], starts[i]) {
                (Some(a), Some(b)) => a == b,
                (None, None) => true,
                _ => false,
            };
            if same && wins {
                proof {
                    assert(replaces(all, j as int, i as int));
                }
                kept = false;
            } else {
                proof {
                    assert(!replaces(all, j as int, i as int));
                }
                j += 1;
            }
        }
        let key: Option<u64> = if kept {
            starts[i]
        } else {
            None
        };
        keys.push(key);
        i += 1;
    }
    proof {
        assert(keys@ =~= chosen_starts(all));
    }
    let order = order_by_key(&keys);
    if order.len() == 0 {
        proof {
            assert forall|i: int| 0 <= i < names@.len() implies chosen_starts(all)[i] is None by {
                if keys@[i] is Some {
                    assert(order@.contains(i as usize));
                }
            }
        }
        return Err(PackError::NoFiles);
    }
    Ok(order)
}

/// No two of the files that are read start at the same epoch, and they are listed by
/// increasing epochs.
pub proof fn law_starts_increase(names: Seq<Seq<char>>, order: Seq<usize>, i: int, j: int)
    requires
        is_order(chosen_starts(names), order),
        0 <= i < j < order.len(),
    ensures
        pack_start(names[order[i] as int])->0 < pack_start(names[order[j] as int])->0,
{
    let a = order[i] as int;
    let b = order[j] as int;
    let keys = chosen_starts(names);
    assert(comes_before(keys, a, b));
    assert(keys[a] is Some && keys[b] is Some);
    if keys[a]->0 == keys[b]->0 {
        assert(replaces(names, a, b) || replaces(names, b, a));
    }
}

/// Every container's first epoch is that of one of the files that are read.
pub proof fn law_starts_kept(names: Seq<Seq<char>>, i: int) -> (k: int)
    requires
        0 <= i < names.len(),
        pack_start(names[i]) is Some,
    ensures
        0 <= k < names.len(),
        chosen_starts(names)[k] == pack_start(names[i]),
    decreases
            (if ends_with(names[i], ".cfxpack.zst"@) {
                0int
            } else {
                1
            }),
            names.len() - i,
{
    if chosen_start(names, i) is Some {
        i
    } else {
        let j = choose|j: int| 0 <= j < names.len() && #[trigger] replaces(names, j, i);
        law_starts_kept(names, j)
    }
}

/// The order key of a container file that is within the bounds.
pub open spec fn bounded_key(
    name: Seq<char>,
    max_epoch: Option<u64>,
    min_epoch: Option<u64>,
) -> Option<u64> {
    let key = pack_key(name);
    if extension(name) != Some("cfxpack"@) {
        None
    } else if max_epoch is Some && key >= max_epoch->0 {
        None
    } else if min_epoch is Some && key < min_epoch->0 {
        None
    } else {
        Some(key)
    }
}

/// The order keys of the container files that are within the bounds.
pub open spec fn bounded_keys(
    names: Seq<Seq<char>>,
    max_epoch: Option<u64>,
    min_epoch: Option<u64>,
) -> Seq<Option<u64>> {
    Seq::new(names.len(), |i: int| bounded_key(names[i], max_epoch, min_epoch))
}

/// The container files in order of their first epochs, limited to those that start
/// at or above `min_epoch` and below `max_epoch`.
pub fn collect_sorted_pack_files(
    names: &Vec<String>,
    max_epoch: Option<u64>,
    min_epoch: Option<u64>,
) -> (r: Result<Vec<usize>, PackError>)
    ensures
        match r {
            Ok(order) => order@.len() > 0 && is_order(
                bounded_keys(name_views(names@), max_epoch, min_epoch),
                order@,
            ),
            Err(e) => e == PackError::NoFiles && forall|i: int|
                0 <= i < names@.len() ==> bounded_keys(
                    name_views(names@),
                    max_epoch,
                    min_epoch,
                )[i] is None,
        },
{
    let ghost all = name_views(names@);
    let mut keys: Vec<Option<u64>> = Vec::new();
    let mut i: usize = 0;
    while i < names.len()
        invariant
            i <= names@.len(),
            all == name_views(names@),
            keys@.len() == i,
            forall|k: int|
                0 <= k < i ==> #[trigger] keys@[k] == bounded_key(all[k], max_epoch, min_epoch),
        decreases names@.len() - i,
    {
        let name: &str = names[i].as_str();
        let chars = letters(name);
        let mut key: Option<u64> = None;
        if has_extension(chars.as_slice(), "cfxpack") {
            let v: u64 = pack_order_key(name);
            let below: bool = match max_epoch {
                Some(limit) => v < limit,
                None => true,
            };
            let above: bool = match min_epoch {
                Some(floor) => v >= floor,
                None => true,
            };
            if below && above {
                key = Some(v);
            }
        }
        keys.push(key);
        i += 1;
    }
    proof {
        assert(keys@ =~= bounded_keys(all, max_epoch, min_epoch));
    }
    let order = order_by_key(&keys);
    if order.len() == 0 {
        proof {
            assert forall|i: int| 0 <= i < names@.len() implies bounded_keys(
                all,
                max_epoch,
                min_epoch,
            )[i] is None by {
                if keys@[i] is Some {
                    assert(order@.contains(i as usize));
                }
            }
        }
        return Err(PackError::NoFiles);
    }
    Ok(order)
}

/// The order key of a shard: its first epoch, and the greatest number where the name
/// tells none.
pub open spec fn shard_key(name: Seq<char>) -> Option<u64> {
    if extension(name) != Some("cfxpkt"@) {
        None
    } else {
        match shard_range(name) {
            Some((start, _)) => Some(start),
            None => Some(u64::MAX),
        }
    }
}

/// The order keys of the shards.
pub open spec fn shard_keys(names: Seq<Seq<char>>) -> Seq<Option<u64>> {
    Seq::new(names.len(), |i: int| shard_key(names[i]))
}

/// The number of epochs of a shard whose name tells a range.
pub open spec fn shard_epochs(name: Seq<char>) -> Option<nat> {
    match shard_range(name) {
        Some((start, end)) => if start <= end && end - start < u64::MAX {
            Some((end - start + 1) as nat)
        } else {
            None
        },
        None => None,
    }
}

/// The shards of a directory in order of their first epochs, with the number of
/// epochs of each. The name of every shard must tell a range of epochs.
pub fn order_shards(names: &Vec<String>) -> (r: Result<Vec<(usize, u64)>, PackError>)
    ensures
        match r {
            Ok(list) => is_order(
                shard_keys(name_views(names@)),
                Seq::new(list@.len(), |i: int| list@[i].0),
            ) && forall|i: int|
                0 <= i < list@.len() ==> shard_epochs(name_views(names@)[list@[i].0 as int])
                    == Some((#[trigger] list@[i]).1 as nat),
            Err(e) => e == PackError::ShardName && exists|i: int|
                0 <= i < names@.len() && shard_key(name_views(names@)[i]) is Some && shard_epochs(
                    #[trigger] name_views(names@)[i],
                ) is None,
        },
{
    let ghost all = name_views(names@);
    let mut keys: Vec<Option<u64>> = Vec::new();
    let mut i: usize = 0;
    while i < names.len()
        invariant
            i <= names@.len(),
            all == name_views(names@),
            keys@.len() == i,
            forall|k: int| 0 <= k < i ==> #[trigger] keys@[k] == shard_key(all[k]),
        decreases names@.len() - i,
    {
        let name: &str = names[i].as_str();
        let chars = letters(name);
        if has_extension(chars.as_slice(), "cfxpkt") {
            match shard_epoch_range(name) {
                Some((start, _)) => {
                    keys.push(Some(start));
                },
                None => {
                    keys.push(Some(u64::MAX));
                },
            }
        } else {
            keys.push(None);
        }
        i += 1;
    }
    proof {
        assert(keys@ =~= shard_keys(all));
    }
    let order = order_by_key(&keys);
    let mut out: Vec<(usize, u64)> = Vec::new();
    let mut i: usize = 0;
    while i < order.len()
        invariant
            i <= order@.len(),
            all == name_views(names@),
            keys@ == shard_keys(all),
            is_order(keys@, order@),
            out@.len() == i,
            forall|k: int|
                0 <= k < i ==> (#[trigger] out@[k]).0 == order@[k] && shard_epochs(
                    all[order@[k] as int],
                ) == Some(out@[k].1 as nat),
        decreases order@.len() - i,
    {
        let at: usize = order[i];
        proof {
            assert(keys@[at as int] is Some);
        }
        match shard_epoch_range(names[at].as_str()) {
            Some((start, end)) => {
                if start > end || end - start == u64::MAX {
                    return Err(PackError::ShardName);
                }
                out.push((at, end - start + 1));
            },
            None => {
                return Err(PackError::ShardName);
            },
        }
        i += 1;
    }
    proof {
        assert(Seq::new(out@.len(), |i: int| out@[i].0) =~= order@);
    }
    Ok(out)
}

} // verus!
