//! Which files are read, and in which order.
use crate::cfxpack::files::{chosen_starts, pack_start, replaces};
use crate::cfxpack::names::{name_start, names_pack};
use crate::order::{comes_before, is_order};
use crate::text::ends_with;
use vstd::prelude::*;

verus! {

/// An order lists every place that has a key, once, and no other: by increasing keys, and by
/// increasing places where keys are equal.
pub proof fn law_order(keys: Seq<Option<u64>>, order: Seq<usize>, i: int, j: int, k: int)
    requires
        is_order(keys, order),
        0 <= i < j < order.len(),
    ensures
        order[i] < keys.len() && order[j] < keys.len(),
        keys[order[i] as int] is Some && keys[order[j] as int] is Some,
        keys[order[i] as int]->0 <= keys[order[j] as int]->0,
        keys[order[i] as int] == keys[order[j] as int] ==> order[i] < order[j],
        order[i] != order[j],
        0 <= k < keys.len() && keys[k] is Some ==> order.contains(k as usize),
{
    assert(comes_before(keys, order[i] as int, order[j] as int));
    assert(order[i] < keys.len() && order[j] < keys.len());
    assert(keys[order[i] as int] is Some && keys[order[j] as int] is Some);
}

/// Of two containers that start at one epoch a compressed one is read rather than one that is
/// not, and of two that are alike the later one. The one that goes before all others is read.
pub proof fn law_chosen(names: Seq<Seq<char>>, i: int, j: int)
    requires
        0 <= i < names.len(),
        0 <= j < names.len(),
        pack_start(names[i]) is Some,
    ensures
        ({
            let zst = |k: int| ends_with(names[k], ".cfxpack.zst"@);
            let rival = |k: int|
                0 <= k < names.len() && k != i && pack_start(names[k]) == pack_start(names[i]);
            &&& rival(j) && zst(j) && !zst(i) ==> chosen_starts(names)[i] is None
            &&& rival(j) && zst(j) == zst(i) && j > i ==> chosen_starts(names)[i] is None
            &&& (forall|k: int| #[trigger] rival(k) ==> if zst(i) {
                !zst(k) || k < i
            } else {
                !zst(k) && k < i
            }) ==> chosen_starts(names)[i] == pack_start(names[i])
        }),
        names_pack(names[i]) ==> pack_start(names[i]) == name_start(names[i]),
        names_pack(names[i]),
{
    let zst = |k: int| ends_with(names[k], ".cfxpack.zst"@);
    let rival = |k: int|
        0 <= k < names.len() && k != i && pack_start(names[k]) == pack_start(names[i]);
    if rival(j) && (zst(j) && !zst(i) || zst(j) == zst(i) && j > i) {
        assert(replaces(names, j, i));
    }
    if forall|k: int| #[trigger] rival(k) ==> if zst(i) {
        !zst(k) || k < i
    } else {
        !zst(k) && k < i
    } {
        assert forall|k: int| 0 <= k < names.len() implies !(#[trigger] replaces(names, k, i)) by {
            if replaces(names, k, i) && k != i {
                assert(rival(k));
            }
        }
    }
}

} // verus!
