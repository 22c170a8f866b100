//! The file around packets: a header, a directory with an entry for each group of
//! epochs, and the packets of the groups.
use crate::bytes::append_bytes;
use crate::cfxpack::codec::{put_u32_le, put_u64_le, read_u32_le, read_u64_le};
use crate::cfxpack::error::PackError;
use crate::cfxpack::packet::views;
use crate::cfxpack::types::{le_bytes, le_value, lemma_le_bytes, lemma_pow256};
use vstd::prelude::*;

verus! {

/// The bytes that a container starts with: `CFXPACK1`.
pub const MAGIC: [u8; 8] = [67, 70, 88, 80, 65, 67, 75, 49];

pub const FORMAT_VERSION: u32 = 1;

/// Length of the header: the magic, the version, the number of groups, the epochs of
/// a group and four unused bytes.
pub const HEADER_LEN: u64 = 24;

/// Length of an entry of the directory: the first epoch, the number of epochs, and the
/// place and length of the packet.
pub const DIR_ENTRY_LEN: u64 = 32;

/// A group of epochs with its packet.
#[derive(Debug)]
pub struct Group {
    pub start_epoch: u64,
    pub epoch_count: u64,
    pub bytes: Vec<u8>,
}

/// What a [`Group`] holds.
pub struct GroupModel {
    pub start_epoch: u64,
    pub epoch_count: u64,
    pub bytes: Seq<u8>,
}

impl View for Group {
    type V = GroupModel;

    open spec fn view(&self) -> GroupModel {
        GroupModel {
            start_epoch: self.start_epoch,
            epoch_count: self.epoch_count,
            bytes: self.bytes@,
        }
    }
}

/// The bytes that a container starts with.
pub open spec fn magic() -> Seq<u8> {
    seq![67u8, 70, 88, 80, 65, 67, 75, 49]
}

/// An entry of a directory: the first epoch, the number of epochs, and the place and
/// length of the packet.
pub struct EntryModel {
    pub start_epoch: u64,
    pub epoch_count: u64,
    pub offset: nat,
    pub length: nat,
}

/// The 64-bit number at `at`.
pub open spec fn u64_at(data: Seq<u8>, at: int) -> nat {
    le_value(data.subrange(at, at + 8))
}

/// Entry `i` of the directory.
pub open spec fn entry_at(data: Seq<u8>, i: int) -> EntryModel {
    let at = 24 + 32 * i;
    EntryModel {
        start_epoch: u64_at(data, at) as u64,
        epoch_count: u64_at(data, at + 8) as u64,
        offset: u64_at(data, at + 16),
        length: u64_at(data, at + 24),
    }
}

/// What is wrong with the entries from `i` to `count`, if anything.
pub open spec fn directory_fault(data: Seq<u8>, i: int, count: int) -> Option<PackError>
    decreases count - i,
{
    if i >= count {
        None
    } else if 24 + 32 * i + 32 > data.len() {
        Some(PackError::TruncatedDirectory)
    } else if entry_at(data, i).offset + entry_at(data, i).length > data.len() {
        Some(PackError::PayloadBounds)
    } else {
        directory_fault(data, i + 1, count)
    }
}

/// The directory of a container, or why the bytes are none.
pub open spec fn directory(data: Seq<u8>) -> Result<Seq<EntryModel>, PackError> {
    if data.len() < 24 || data.take(8) != magic() {
        Err(PackError::NotContainer)
    } else {
        let count = le_value(data.subrange(12, 16));
        match directory_fault(data, 0, count as int) {
            Some(e) => Err(e),
            None => Ok(Seq::new(count, |i: int| entry_at(data, i))),
        }
    }
}

/// The entries as they are read.
pub open spec fn entry_views(s: Seq<(u64, u64, usize, usize)>) -> Seq<EntryModel> {
    Seq::new(
        s.len(),
        |i: int|
            EntryModel {
                start_epoch: s[i].0,
                epoch_count: s[i].1,
                offset: s[i].2 as nat,
                length: s[i].3 as nat,
            },
    )
}

/// The 64-bit number at `at`.
fn number_at(data: &[u8], at: usize) -> (r: u64)
    requires
        at + 8 <= data@.len(),
    ensures
        r == u64_at(data@, at as int),
{
    match read_u64_le(data, at) {
        Ok(v) => v,
        Err(_) => 0,
    }
}

/// Whether the bytes start as a container does.
fn has_magic(data: &[u8]) -> (r: bool)
    requires
        data@.len() >= 8,
    ensures
        r == (data@.take(8) == magic()),
{
    let r: bool = data[0] == 67 && data[1] == 70 && data[2] == 88 && data[3] == 80 && data[4] == 65
        && data[5] == 67 && data[6] == 75 && data[7] == 49;
    proof {
        let head = data@.take(8);
        if r {
            assert(head =~= magic());
        } else {
            assert(head[0] == data@[0] && head[1] == data@[1] && head[2] == data@[2] && head[3]
                == data@[3] && head[4] == data@[4] && head[5] == data@[5] && head[6] == data@[6]
                && head[7] == data@[7]);
        }
    }
    r
}

/// Reads the directory of a container: for each group its first epoch, its number of
/// epochs, and the place and length of its packet.
pub fn parse_directory(data: &[u8]) -> (r: Result<Vec<(u64, u64, usize, usize)>, PackError>)
    ensures
        match r {
            Ok(entries) => directory(data@) == Ok::<Seq<EntryModel>, PackError>(
                entry_views(entries@),
            ) && forall|i: int|
                0 <= i < entries@.len() ==> (#[trigger] entries@[i]).2 + entries@[i].3
                    <= data@.len(),
            Err(e) => directory(data@) == Err::<Seq<EntryModel>, PackError>(e),
        },
{
    if data.len() < 24 {
        return Err(PackError::NotContainer);
    }
    if !has_magic(data) {
        return Err(PackError::NotContainer);
    }
    let group_count: u32 = match read_u32_le(data, 12) {
        Ok(v) => v,
        Err(e) => {
            return Err(e);
        },
    };
    let ghost all = directory(data@);
    let mut entries: Vec<(u64, u64, usize, usize)> = Vec::new();
    let mut i: u32 = 0;
    let mut pos: usize = 24;
    while i < group_count
        invariant
            i <= group_count,
            group_count == le_value(data@.subrange(12, 16)),
            data@.len() >= 24,
            pos == 24 + 32 * i,
            pos <= data@.len(),
            entries@.len() == i,
            data@.take(8) == magic(),
            directory_fault(data@, 0, group_count as int) == directory_fault(
                data@,
                i as int,
                group_count as int,
            ),
            forall|k: int|
                0 <= k < i ==> {
                    &&& (#[trigger] entries@[k]).0 == entry_at(data@, k).start_epoch
                    &&& entries@[k].1 == entry_at(data@, k).epoch_count
                    &&& entries@[k].2 == entry_at(data@, k).offset
                    &&& entries@[k].3 == entry_at(data@, k).length
                    &&& entries@[k].2 + entries@[k].3 <= data@.len()
                },
        decreases group_count - i,
    {
        if data.len() - pos < 32 {
            return Err(PackError::TruncatedDirectory);
        }
        let start_epoch: u64 = number_at(data, pos);
        let epoch_count: u64 = number_at(data, pos + 8);
        let offset: u64 = number_at(data, pos + 16);
        let length: u64 = number_at(data, pos + 24);
        if offset > data.len() as u64 || length > data.len() as u64 - offset {
            return Err(PackError::PayloadBounds);
        }
        entries.push((start_epoch, epoch_count, offset as usize, length as usize));
        pos = pos + 32;
        i += 1;
    }
    proof {
        assert(entry_views(entries@) =~= Seq::new(
            group_count as nat,
            |i: int| entry_at(data@, i),
        ));
    }
    Ok(entries)
}

/// The packets of the first `n` groups, one after the other.
pub open spec fn payload_area(groups: Seq<GroupModel>, n: int) -> Seq<u8>
    decreases n,
{
    if n <= 0 {
        Seq::empty()
    } else {
        payload_area(groups, n - 1) + groups[n - 1].bytes
    }
}

/// Where the packet of group `i` stands.
pub open spec fn group_offset(groups: Seq<GroupModel>, i: int) -> nat {
    24 + 32 * groups.len() + payload_area(groups, i).len()
}

/// The entry of a group.
pub open spec fn entry_bytes(g: GroupModel, offset: nat) -> Seq<u8> {
    le_bytes(g.start_epoch as nat, 8) + le_bytes(g.epoch_count as nat, 8) + le_bytes(offset, 8)
        + le_bytes(g.bytes.len(), 8)
}

/// The first `n` entries.
pub open spec fn directory_bytes(groups: Seq<GroupModel>, n: int) -> Seq<u8>
    decreases n,
{
    if n <= 0 {
        Seq::empty()
    } else {
        directory_bytes(groups, n - 1) + entry_bytes(groups[n - 1], group_offset(groups, n - 1))
    }
}

/// The header of a container.
pub open spec fn header_bytes(count: nat, shard_epochs: u64) -> Seq<u8> {
    magic() + le_bytes(1, 4) + le_bytes(count, 4) + le_bytes(
        shard_epochs as nat % 0x1_0000_0000,
        4,
    ) + le_bytes(0, 4)
}

/// A container as bytes, or that there is too much for one.
pub open spec fn container(groups: Seq<GroupModel>, shard_epochs: u64) -> Result<
    Seq<u8>,
    PackError,
> {
    let n = groups.len() as int;
    if n > u32::MAX || group_offset(groups, n) > u64::MAX {
        Err(PackError::ContainerTooLarge)
    } else {
        Ok(
            header_bytes(groups.len(), shard_epochs) + directory_bytes(groups, n) + payload_area(
                groups,
                n,
            ),
        )
    }
}

proof fn lemma_area_grows(groups: Seq<GroupModel>, i: int, n: int)
    requires
        0 <= i <= n,
    ensures
        payload_area(groups, i).len() <= payload_area(groups, n).len(),
        payload_area(groups, n).take(payload_area(groups, i).len() as int) == payload_area(
            groups,
            i,
        ),
    decreases n,
{
    if i < n {
        lemma_area_grows(groups, i, n - 1);
        assert(payload_area(groups, n).take(payload_area(groups, i).len() as int)
            =~= payload_area(groups, n - 1).take(payload_area(groups, i).len() as int));
    } else {
        assert(payload_area(groups, n).take(payload_area(groups, i).len() as int)
            =~= payload_area(groups, i));
    }
}

/// Writes a container.
pub fn write_container(groups: &Vec<Group>, shard_epochs: u64) -> (r: Result<Vec<u8>, PackError>)
    ensures
        match r {
            Ok(bytes) => container(views(groups@), shard_epochs) == Ok::<Seq<u8>, PackError>(
                bytes@,
            ),
            Err(e) => container(views(groups@), shard_epochs) == Err::<Seq<u8>, PackError>(e),
        },
{
    let ghost all = views(groups@);
    let n: usize = groups.len();
    if n as u64 > u32::MAX as u64 {
        return Err(PackError::ContainerTooLarge);
    }
    let mut area: Vec<u8> = Vec::new();
    let mut i: usize = 0;
    while i < n
        invariant
            i <= n,
            n == groups@.len(),
            all == views(groups@),
            area@ == payload_area(all, i as int),
        decreases n - i,
    {
        append_bytes(&mut area, groups[i].bytes.as_slice());
        i += 1;
    }
    let base: u64 = 24 + 32 * n as u64;
    let area_len: u64 = area.len() as u64;
    if area_len > u64::MAX - base {
        return Err(PackError::ContainerTooLarge);
    }
    let mut out: Vec<u8> = Vec::new();
    append_bytes(&mut out, MAGIC.as_slice());
    put_u32_le(&mut out, FORMAT_VERSION);
    put_u32_le(&mut out, n as u32);
    put_u32_le(&mut out, (shard_epochs % 0x1_0000_0000) as u32);
    put_u32_le(&mut out, 0);
    proof {
        assert(MAGIC@ =~= magic());
        assert(out@ =~= header_bytes(all.len(), shard_epochs));
    }
    let mut offset: u64 = base;
    let mut i: usize = 0;
    proof {
        assert(out@ =~= header_bytes(all.len(), shard_epochs) + directory_bytes(all, 0));
    }
    while i < n
        invariant
            i <= n,
            n == groups@.len(),
            n <= u32::MAX,
            all == views(groups@),
            base == 24 + 32 * n,
            area@ == payload_area(all, n as int),
            base + area@.len() <= u64::MAX,
            offset == group_offset(all, i as int),
            out@ == header_bytes(all.len(), shard_epochs) + directory_bytes(all, i as int),
        decreases n - i,
    {
        let ghost before = out@;
        let length: u64 = groups[i].bytes.len() as u64;
        proof {
            lemma_area_grows(all, i + 1, n as int);
            assert(all[i as int] == groups@[i as int]@);
        }
        put_u64_le(&mut out, groups[i].start_epoch);
        put_u64_le(&mut out, groups[i].epoch_count);
        put_u64_le(&mut out, offset);
        put_u64_le(&mut out, length);
        proof {
            assert(out@ =~= before + entry_bytes(all[i as int], group_offset(all, i as int)));
            assert(out@ =~= header_bytes(all.len(), shard_epochs) + directory_bytes(all, i + 1));
        }
        offset = offset + length;
        i += 1;
    }
    append_bytes(&mut out, area.as_slice());
    Ok(out)
}

proof fn lemma_entry_fields(g: GroupModel, offset: nat)
    ensures
        entry_bytes(g, offset).len() == 32,
        entry_bytes(g, offset).subrange(0, 8) == le_bytes(g.start_epoch as nat, 8),
        entry_bytes(g, offset).subrange(8, 16) == le_bytes(g.epoch_count as nat, 8),
        entry_bytes(g, offset).subrange(16, 24) == le_bytes(offset, 8),
        entry_bytes(g, offset).subrange(24, 32) == le_bytes(g.bytes.len(), 8),
{
    lemma_le_bytes(g.start_epoch as nat, 8);
    lemma_le_bytes(g.epoch_count as nat, 8);
    lemma_le_bytes(offset, 8);
    lemma_le_bytes(g.bytes.len(), 8);
    let e = entry_bytes(g, offset);
    assert(e.subrange(0, 8) =~= le_bytes(g.start_epoch as nat, 8));
    assert(e.subrange(8, 16) =~= le_bytes(g.epoch_count as nat, 8));
    assert(e.subrange(16, 24) =~= le_bytes(offset, 8));
    assert(e.subrange(24, 32) =~= le_bytes(g.bytes.len(), 8));
}

proof fn lemma_directory_entry(groups: Seq<GroupModel>, i: int, n: int)
    requires
        0 <= i < n,
    ensures
        directory_bytes(groups, n).len() == 32 * n,
        directory_bytes(groups, n).subrange(32 * i, 32 * i + 32) == entry_bytes(
            groups[i],
            group_offset(groups, i),
        ),
    decreases n,
{
    lemma_entry_fields(groups[n - 1], group_offset(groups, n - 1));
    lemma_directory_len(groups, n);
    if i < n - 1 {
        lemma_directory_entry(groups, i, n - 1);
        assert(directory_bytes(groups, n).subrange(32 * i, 32 * i + 32) =~= directory_bytes(
            groups,
            n - 1,
        ).subrange(32 * i, 32 * i + 32));
    } else {
        assert(directory_bytes(groups, n).subrange(32 * i, 32 * i + 32) =~= entry_bytes(
            groups[i],
            group_offset(groups, i),
        ));
    }
}

pub(crate) proof fn lemma_directory_len(groups: Seq<GroupModel>, n: int)
    requires
        0 <= n,
    ensures
        directory_bytes(groups, n).len() == 32 * n,
    decreases n,
{
    if n > 0 {
        lemma_entry_fields(groups[n - 1], group_offset(groups, n - 1));
        lemma_directory_len(groups, n - 1);
    }
}

/// What entry `i` of a written container says.
pub(crate) proof fn lemma_written_entry(groups: Seq<GroupModel>, shard_epochs: u64, i: int)
    requires
        container(groups, shard_epochs) is Ok,
        0 <= i < groups.len(),
    ensures
        ({
            let data = container(groups, shard_epochs)->Ok_0;
            let e = entry_at(data, i);
            &&& data.len() == group_offset(groups, groups.len() as int)
            &&& e.start_epoch == groups[i].start_epoch
            &&& e.epoch_count == groups[i].epoch_count
            &&& e.offset == group_offset(groups, i)
            &&& e.length == groups[i].bytes.len()
            &&& e.offset + e.length <= data.len()
            &&& data.subrange(e.offset as int, (e.offset + e.length) as int) == groups[i].bytes
        }),
{
    let n = groups.len() as int;
    let data = container(groups, shard_epochs)->Ok_0;
    let head = header_bytes(groups.len(), shard_epochs);
    let dir = directory_bytes(groups, n);
    let area = payload_area(groups, n);
    lemma_header(groups.len(), shard_epochs);
    lemma_directory_entry(groups, i, n);
    let entry = entry_bytes(groups[i], group_offset(groups, i));
    lemma_entry_fields(groups[i], group_offset(groups, i));
    lemma_area_grows(groups, i + 1, n);
    let at = 24 + 32 * i;
    assert(data.subrange(at, at + 32) =~= dir.subrange(32 * i, 32 * i + 32));
    assert(data.subrange(at, at + 8) =~= entry.subrange(0, 8));
    assert(data.subrange(at + 8, at + 16) =~= entry.subrange(8, 16));
    assert(data.subrange(at + 16, at + 24) =~= entry.subrange(16, 24));
    assert(data.subrange(at + 24, at + 32) =~= entry.subrange(24, 32));
    lemma_pow256();
    lemma_le_bytes(groups[i].start_epoch as nat, 8);
    lemma_le_bytes(groups[i].epoch_count as nat, 8);
    lemma_le_bytes(group_offset(groups, i), 8);
    lemma_le_bytes(groups[i].bytes.len(), 8);
    let a = payload_area(groups, i).len() as int;
    let b = payload_area(groups, i + 1).len() as int;
    assert(area.take(b) == payload_area(groups, i + 1));
    assert(data.subrange(24 + 32 * n + a, 24 + 32 * n + b) =~= area.subrange(a, b));
    assert(area.subrange(a, b) =~= area.take(b).skip(a));
    assert(area.take(b).skip(a) =~= groups[i].bytes);
}

pub(crate) proof fn lemma_header(count: nat, shard_epochs: u64)
    requires
        count <= u32::MAX,
    ensures
        header_bytes(count, shard_epochs).len() == 24,
        header_bytes(count, shard_epochs).take(8) == magic(),
        header_bytes(count, shard_epochs).subrange(12, 16) == le_bytes(count, 4),
        le_value(le_bytes(count, 4)) == count,
{
    lemma_pow256();
    lemma_le_bytes(1, 4);
    lemma_le_bytes(count, 4);
    lemma_le_bytes(shard_epochs as nat % 0x1_0000_0000, 4);
    lemma_le_bytes(0, 4);
    let h = header_bytes(count, shard_epochs);
    assert(h.take(8) =~= magic());
    assert(h.subrange(12, 16) =~= le_bytes(count, 4));
}

proof fn lemma_no_fault(groups: Seq<GroupModel>, shard_epochs: u64, i: int)
    requires
        container(groups, shard_epochs) is Ok,
        0 <= i <= groups.len(),
    ensures
        directory_fault(container(groups, shard_epochs)->Ok_0, i, groups.len() as int) is None,
    decreases groups.len() - i,
{
    if i < groups.len() {
        lemma_written_entry(groups, shard_epochs, i);
        lemma_no_fault(groups, shard_epochs, i + 1);
    }
}

/// The directory of a container that was written lists the groups in order, and each
/// entry leads to the packet of its group. The packets stand one after another, from the
/// end of the directory to the end of the container.
pub proof fn law_container_roundtrip(groups: Seq<GroupModel>, shard_epochs: u64)
    requires
        container(groups, shard_epochs) is Ok,
    ensures
        directory(container(groups, shard_epochs)->Ok_0) matches Ok(entries) && {
            let data = container(groups, shard_epochs)->Ok_0;
            &&& entries.len() == groups.len()
            &&& data.len() == group_offset(groups, groups.len() as int)
            &&& forall|i: int|
                0 <= i < entries.len() ==> {
                    &&& (#[trigger] entries[i]).start_epoch == groups[i].start_epoch
                    &&& entries[i].epoch_count == groups[i].epoch_count
                    &&& entries[i].offset == group_offset(groups, i)
                    &&& entries[i].length == groups[i].bytes.len()
                    &&& data.subrange(
                        entries[i].offset as int,
                        (entries[i].offset + entries[i].length) as int,
                    ) == groups[i].bytes
                }
        },
{
    let n = groups.len() as int;
    let data = container(groups, shard_epochs)->Ok_0;
    lemma_header(groups.len(), shard_epochs);
    lemma_directory_len(groups, n);
    assert(data.take(8) =~= header_bytes(groups.len(), shard_epochs).take(8));
    assert(data.subrange(12, 16) =~= header_bytes(groups.len(), shard_epochs).subrange(12, 16));
    lemma_no_fault(groups, shard_epochs, 0);
    let entries = directory(data)->Ok_0;
    assert forall|i: int| 0 <= i < entries.len() implies {
        &&& (#[trigger] entries[i]).start_epoch == groups[i].start_epoch
        &&& entries[i].epoch_count == groups[i].epoch_count
        &&& entries[i].offset == group_offset(groups, i)
        &&& entries[i].length == groups[i].bytes.len()
        &&& data.subrange(
            entries[i].offset as int,
            (entries[i].offset + entries[i].length) as int,
        ) == groups[i].bytes
    } by {
        lemma_written_entry(groups, shard_epochs, i);
    }
}

/// Whether a group that starts at `start_epoch` comes next: right behind the one
/// before it or, for the first, behind the height that a run resumes at, if any.
pub open spec fn contiguous(
    start_epoch: u64,
    next_expected: Option<u64>,
    resume_height: u64,
) -> Result<(), PackError> {
    match next_expected {
        Some(expected) => if start_epoch == expected {
            Ok(())
        } else {
            Err(PackError::NonContiguous)
        },
        None => if resume_height == 0 || start_epoch == resume_height + 1 {
            Ok(())
        } else {
            Err(PackError::ResumeGap)
        },
    }
}

/// Checks that a group that starts at `start_epoch` comes next.
pub fn validate_contiguity(
    start_epoch: u64,
    next_expected: &mut Option<u64>,
    resume_height: u64,
) -> (r: Result<(), PackError>)
    ensures
        r == contiguous(start_epoch, *old(next_expected), resume_height),
        *final(next_expected) == *old(next_expected),
{
    match *next_expected {
        Some(expected) => {
            if start_epoch == expected {
                Ok(())
            } else {
                Err(PackError::NonContiguous)
            }
        },
        None => {
            if resume_height == 0 || (start_epoch > 0 && start_epoch - 1 == resume_height) {
                Ok(())
            } else {
                Err(PackError::ResumeGap)
            }
        },
    }
}

} // verus!
