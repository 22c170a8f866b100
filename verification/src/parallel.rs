//! Data-parallel work over the items of a vector.
use rayon::prelude::{IntoParallelRefIterator, ParallelIterator};
use vstd::prelude::*;

verus! {

/// `rayon`'s `par_iter().map(f).collect()` on a slice: `f` is applied to every
/// item, on any thread, and the results stand in the order of the items.
#[verifier::external_body]
pub(crate) fn par_map<T: Sync, R: Send, F: Fn(&T) -> R + Sync + Send>(items: &Vec<T>, f: F) -> (out:
    Vec<R>)
    requires
        forall|i: int| 0 <= i < items@.len() ==> call_requires(f, (&#[trigger] items@[i],)),
    ensures
        out@.len() == items@.len(),
        forall|i: int|
            0 <= i < items@.len() ==> call_ensures(f, (&#[trigger] items@[i],), out@[i]),
{
    items.par_iter().map(f).collect()
}

} // verus!
