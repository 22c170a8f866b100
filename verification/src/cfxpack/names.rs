//! The names of container and shard files, and the order in which files are read.

use crate::text::{decimal, ends_with, find_first, find_last, first_place, is_at, is_suffix, last_place, law_number_roundtrip, lemma_decimal, lemma_is_last_place, letters, number, number_text, parse_number, part, stands_at};
use vstd::prelude::*;
use vstd::string::StringExecFns;

verus! {

/// Whether a file name is that of a container, compressed or not.
pub open spec fn names_pack(name: Seq<char>) -> bool {
    ends_with(name, ".cfxpack"@) || ends_with(name, ".cfxpack.zst"@)
}

/// Whether a file name is that of a container, compressed or not.
pub fn is_cfxpack(name: &str) -> (r: bool)
    ensures
        r == names_pack(name@),
{
    let s = letters(name);
    let plain = letters(".cfxpack");
    let zst = letters(".cfxpack.zst");
    is_suffix(s.as_slice(), plain.as_slice()) || is_suffix(s.as_slice(), zst.as_slice())
}

/// Whether a file name is that of a compressed container.
pub fn is_compressed(name: &str) -> (r: bool)
    ensures
        r == ends_with(name@, ".cfxpack.zst"@),
{
    let s = letters(name);
    let zst = letters(".cfxpack.zst");
    is_suffix(s.as_slice(), zst.as_slice())
}

/// The name of a container without its ending.
pub open spec fn stem(name: Seq<char>) -> Option<Seq<char>> {
    if ends_with(name, ".cfxpack.zst"@) {
        Some(name.take(name.len() - ".cfxpack.zst"@.len()))
    } else if ends_with(name, ".cfxpack"@) {
        Some(name.take(name.len() - ".cfxpack"@.len()))
    } else {
        None
    }
}

/// The name of a container without its ending.
fn cfxpack_stem(name: &str) -> (r: Option<Vec<char>>)
    ensures
        match r {
            Some(s) => stem(name@) == Some(s@),
            None => stem(name@) is None,
        },
{
    let s = letters(name);
    let plain = letters(".cfxpack");
    let zst = letters(".cfxpack.zst");
    if is_suffix(s.as_slice(), zst.as_slice()) {
        return Some(part(s.as_slice(), 0, s.len() - zst.len()));
    }
    if is_suffix(s.as_slice(), plain.as_slice()) {
        return Some(part(s.as_slice(), 0, s.len() - plain.len()));
    }
    None
}

/// What stands behind the last underscore, or all where there is none.
pub open spec fn last_part(s: Seq<char>) -> Seq<char> {
    match last_place(s, '_') {
        Some(i) => s.skip(i + 1),
        None => s,
    }
}

fn take_last_part(s: &[char]) -> (r: Vec<char>)
    ensures
        r@ == last_part(s@),
{
    match find_last(s, '_') {
        Some(i) => {
            assert(i < s.len());
            part(s, i + 1, s.len())
        },
        None => {
            proof {
                assert(s@.skip(0) =~= s@);
            }
            part(s, 0, s.len())
        },
    }
}

/// The first epoch that the name of a container tells.
pub open spec fn name_start(name: Seq<char>) -> Option<u64> {
    match stem(name) {
        None => None,
        Some(s) => match last_place(s, '_') {
            None => None,
            Some(i) => number(last_part(s.take(i))),
        },
    }
}

/// The last epoch that the name of a container tells.
pub open spec fn name_end(name: Seq<char>) -> Option<u64> {
    match stem(name) {
        None => None,
        Some(s) => number(last_part(s)),
    }
}

/// The first epoch of a container, from a file name `<prefix>_<start>_<end>` with
/// the ending of a container.
pub fn start_epoch(name: &str) -> (r: Option<u64>)
    ensures
        r == name_start(name@),
{
    let s = match cfxpack_stem(name) {
        Some(s) => s,
        None => {
            return None;
        },
    };
    match find_last(s.as_slice(), '_') {
        Some(i) => {
            let head = part(s.as_slice(), 0, i);
            let start = take_last_part(head.as_slice());
            parse_number(start.as_slice())
        },
        None => None,
    }
}

/// The last epoch of a container, from a file name `<prefix>_<start>_<end>` with the
/// ending of a container.
pub fn end_epoch(name: &str) -> (r: Option<u64>)
    ensures
        r == name_end(name@),
{
    match cfxpack_stem(name) {
        Some(s) => {
            let end = take_last_part(s.as_slice());
            parse_number(end.as_slice())
        },
        None => None,
    }
}

/// The file name of a container.
pub open spec fn pack_name(prefix: Seq<char>, start: u64, end: u64) -> Seq<char> {
    prefix + "_"@ + decimal(start as nat) + "_"@ + decimal(end as nat) + ".cfxpack"@
}

/// The file name of a container.
pub fn container_name(prefix: &str, start_epoch: u64, end_epoch: u64) -> (r: String)
    ensures
        r@ == pack_name(prefix@, start_epoch, end_epoch),
{
    let mut out: String = String::from_str(prefix);
    out.append("_");
    out.append(number_text(start_epoch).as_str());
    out.append("_");
    out.append(number_text(end_epoch).as_str());
    out.append(".cfxpack");
    out
}

proof fn lemma_last_underscore(a: Seq<char>, v: u64)
    ensures
        last_place(a + "_"@ + decimal(v as nat), '_') == Some(a.len() as int),
        last_part(a + "_"@ + decimal(v as nat)) == decimal(v as nat),
{
    reveal_strlit("_");
    let d = decimal(v as nat);
    let s = a + "_"@ + d;
    lemma_decimal(v as nat);
    assert forall|j: int| a.len() < j < s.len() implies #[trigger] s[j] != '_' by {
        assert(s[j] == d[j - a.len() - 1]);
    }
    lemma_is_last_place(s, '_', a.len() as int);
    assert(s.skip(a.len() as int + 1) =~= d);
}

/// The name of a container tells its first and last epoch.
pub proof fn law_name_roundtrip(prefix: Seq<char>, start: u64, end: u64)
    ensures
        names_pack(pack_name(prefix, start, end)),
        !ends_with(pack_name(prefix, start, end), ".cfxpack.zst"@),
        name_start(pack_name(prefix, start, end)) == Some(start),
        name_end(pack_name(prefix, start, end)) == Some(end),
{
    reveal_strlit(".cfxpack");
    reveal_strlit(".cfxpack.zst");
    reveal_strlit("_");
    let name = pack_name(prefix, start, end);
    let a = prefix + "_"@ + decimal(start as nat);
    let s = a + "_"@ + decimal(end as nat);
    assert(name =~= s + ".cfxpack"@);
    assert(name.skip(s.len() as int) =~= ".cfxpack"@);
    assert(name.take(s.len() as int) =~= s);
    assert(name.last() == 'k');
    if ends_with(name, ".cfxpack.zst"@) {
        assert(name.skip(name.len() - 12)[11] == 't');
    }
    lemma_last_underscore(a, end);
    lemma_last_underscore(prefix, start);
    assert(s.take(a.len() as int) =~= a);
    law_number_roundtrip(start);
    law_number_roundtrip(end);
}

/// The extension of a file name: what stands behind the last full stop, unless that
/// is where the name starts.
pub open spec fn extension(name: Seq<char>) -> Option<Seq<char>> {
    match last_place(name, '.') {
        Some(i) => if i > 0 {
            Some(name.skip(i + 1))
        } else {
            None
        },
        None => None,
    }
}

/// Whether a file name has the given extension.
pub fn has_extension(name: &[char], ext: &str) -> (r: bool)
    ensures
        r == (extension(name@) == Some(ext@)),
{
    match find_last(name, '.') {
        Some(i) => {
            if i == 0 {
                return false;
            }
            let want = letters(ext);
            assert(i < name.len());
            let from: usize = i + 1;
            let ghost rest = name@.skip(from as int);
            if name.len() - from != want.len() {
                return false;
            }
            proof {
                assert(name@.subrange(from as int, from + want@.len()) =~= rest);
            }
            is_at(name, want.as_slice(), from)
        },
        None => false,
    }
}

/// The order key of a container: the first epoch in a name that starts with
/// `epochs_`, and the greatest number where there is none.
pub open spec fn pack_key(name: Seq<char>) -> u64 {
    if !stands_at(name, "epochs_"@, 0) {
        u64::MAX
    } else {
        let rest = name.skip("epochs_"@.len() as int);
        let head = match first_place(rest, '_', 0) {
            Some(i) => rest.take(i),
            None => rest,
        };
        match number(head) {
            Some(v) => v,
            None => u64::MAX,
        }
    }
}

/// The order key of a container.
pub fn pack_order_key(name: &str) -> (r: u64)
    ensures
        r == pack_key(name@),
{
    let s = letters(name);
    let prefix = letters("epochs_");
    if !is_at(s.as_slice(), prefix.as_slice(), 0) {
        return u64::MAX;
    }
    let rest = part(s.as_slice(), prefix.len(), s.len());
    let head = match find_first(rest.as_slice(), '_', 0) {
        Some(i) => part(rest.as_slice(), 0, i),
        None => {
            proof {
                assert(rest@.take(rest@.len() as int) =~= rest@);
            }
            part(rest.as_slice(), 0, rest.len())
        },
    };
    match parse_number(head.as_slice()) {
        Some(v) => v,
        None => u64::MAX,
    }
}

/// The epochs of a shard, from a file name `<start>-<end>` with any extension.
pub open spec fn shard_range(name: Seq<char>) -> Option<(u64, u64)> {
    let base = match last_place(name, '.') {
        Some(i) => if i > 0 {
            name.take(i)
        } else {
            name
        },
        None => name,
    };
    match first_place(base, '-', 0) {
        None => None,
        Some(i) => match (number(base.take(i)), number(base.skip(i + 1))) {
            (Some(start), Some(end)) => Some((start, end)),
            _ => None,
        },
    }
}

/// The epochs of a shard.
pub fn shard_epoch_range(name: &str) -> (r: Option<(u64, u64)>)
    ensures
        r == shard_range(name@),
{
    let s = letters(name);
    proof {
        assert(s@.take(s@.len() as int) =~= s@);
    }
    let end: usize = match find_last(s.as_slice(), '.') {
        Some(i) => {
            if i > 0 {
                i
            } else {
                s.len()
            }
        },
        None => s.len(),
    };
    let base = part(s.as_slice(), 0, end);
    match find_first(base.as_slice(), '-', 0) {
        Some(i) => {
            let first = part(base.as_slice(), 0, i);
            let second = part(base.as_slice(), i + 1, base.len());
            match (parse_number(first.as_slice()), parse_number(second.as_slice())) {
                (Some(a), Some(b)) => Some((a, b)),
                _ => None,
            }
        },
        None => None,
    }
}

/// The file name of a shard.
pub open spec fn shard_text(start: u64, end: u64) -> Seq<char> {
    decimal(start as nat) + "-"@ + decimal(end as nat) + ".cfxpkt"@
}

/// The file name of a shard.
pub fn shard_name(start_epoch: u64, end_epoch: u64) -> (r: String)
    ensures
        r@ == shard_text(start_epoch, end_epoch),
{
    let mut out: String = number_text(start_epoch);
    out.append("-");
    out.append(number_text(end_epoch).as_str());
    out.append(".cfxpkt");
    out
}

proof fn lemma_first_dash(a: Seq<char>, b: Seq<char>, from: int)
    requires
        0 <= from <= a.len(),
        forall|i: int| 0 <= i < a.len() ==> '0' <= #[trigger] a[i] <= '9',
    ensures
        first_place(a + "-"@ + b, '-', from) == Some(a.len() as int),
    decreases a.len() - from,
{
    reveal_strlit("-");
    let s = a + "-"@ + b;
    if from < a.len() {
        assert(s[from] == a[from]);
        lemma_first_dash(a, b, from + 1);
    } else {
        assert(s[from] == '-');
    }
}

/// The name of a shard tells its first and last epoch.
pub proof fn law_shard_name_roundtrip(start: u64, end: u64)
    ensures
        shard_range(shard_text(start, end)) == Some((start, end)),
        extension(shard_text(start, end)) == Some("cfxpkt"@),
{
    reveal_strlit(".cfxpkt");
    reveal_strlit("cfxpkt");
    reveal_strlit("-");
    let a = decimal(start as nat);
    let b = decimal(end as nat);
    let base = a + "-"@ + b;
    let name = shard_text(start, end);
    lemma_decimal(start as nat);
    lemma_decimal(end as nat);
    assert forall|j: int| base.len() < j < name.len() implies #[trigger] name[j] != '.' by {
        assert(name[j] == ".cfxpkt"@[j - base.len()]);
    }
    lemma_is_last_place(name, '.', base.len() as int);
    assert(name.take(base.len() as int) =~= base);
    assert(name.skip(base.len() as int + 1) =~= "cfxpkt"@);
    lemma_first_dash(a, b, 0);
    assert(base.take(a.len() as int) =~= a);
    assert(base.skip(a.len() as int + 1) =~= b);
    law_number_roundtrip(start);
    law_number_roundtrip(end);
}

} // verus!
