//! Putting things in order by a key, where what came first stays first among equals.
use vstd::prelude::*;

verus! {

/// Whether the element at `a` comes before that at `b`: by its key, and by its place
/// where the keys are equal.
pub open spec fn comes_before(keys: Seq<Option<u64>>, a: int, b: int) -> bool {
    keys[a]->0 < keys[b]->0 || (keys[a]->0 == keys[b]->0 && a < b)
}

/// Whether every place of the list comes before those behind it.
pub open spec fn is_sorted(keys: Seq<Option<u64>>, order: Seq<usize>) -> bool {
    forall|i: int, j: int|
        0 <= i < j < order.len() ==> comes_before(
            keys,
            #[trigger] order[i] as int,
            #[trigger] order[j] as int,
        )
}

/// Whether `order` lists the places that have a key, by their keys. Where keys are
/// equal, what came first stays first.
pub open spec fn is_order(keys: Seq<Option<u64>>, order: Seq<usize>) -> bool {
    &&& forall|i: int| 0 <= i < order.len() ==> (#[trigger] order[i]) < keys.len()
    &&& forall|i: int| 0 <= i < order.len() ==> keys[(#[trigger] order[i]) as int] is Some
    &&& is_sorted(keys, order)
    &&& forall|k: int|
        0 <= k < keys.len() && (#[trigger] keys[k]) is Some ==> order.contains(k as usize)
}

/// Whether `order` lists the places from `lo` to `hi` that have a key, by their keys.
spec fn orders_range(keys: Seq<Option<u64>>, lo: int, hi: int, order: Seq<usize>) -> bool {
    &&& forall|i: int| 0 <= i < order.len() ==> lo <= (#[trigger] order[i]) < hi
    &&& forall|i: int| 0 <= i < order.len() ==> keys[(#[trigger] order[i]) as int] is Some
    &&& is_sorted(keys, order)
    &&& forall|k: int| lo <= k < hi && (#[trigger] keys[k]) is Some ==> order.contains(k as usize)
}

/// What is true while two lists are merged.
spec fn merging(
    keys: Seq<Option<u64>>,
    a: Seq<usize>,
    b: Seq<usize>,
    i: int,
    j: int,
    out: Seq<usize>,
) -> bool {
    &&& 0 <= i <= a.len()
    &&& 0 <= j <= b.len()
    &&& is_sorted(keys, out)
    &&& forall|x: int, y: int|
        0 <= x < out.len() && i <= y < a.len() ==> comes_before(
            keys,
            #[trigger] out[x] as int,
            #[trigger] a[y] as int,
        )
    &&& forall|x: int, y: int|
        0 <= x < out.len() && j <= y < b.len() ==> comes_before(
            keys,
            #[trigger] out[x] as int,
            #[trigger] b[y] as int,
        )
    &&& forall|x: int|
        0 <= x < out.len() ==> a.contains(#[trigger] out[x]) || b.contains(out[x])
    &&& forall|x: int| 0 <= x < i ==> out.contains(#[trigger] a[x])
    &&& forall|x: int| 0 <= x < j ==> out.contains(#[trigger] b[x])
}

/// One place more keeps what is true while two lists are merged.
proof fn lemma_take_left(
    keys: Seq<Option<u64>>,
    a: Seq<usize>,
    b: Seq<usize>,
    i: int,
    j: int,
    out: Seq<usize>,
)
    requires
        merging(keys, a, b, i, j, out),
        is_sorted(keys, a),
        is_sorted(keys, b),
        i < a.len(),
        j < b.len() ==> comes_before(keys, a[i] as int, b[j] as int),
    ensures
        merging(keys, a, b, i + 1, j, out.push(a[i])),
{
    let more = out.push(a[i]);
    assert forall|x: int, y: int| 0 <= x < more.len() && j <= y < b.len() implies comes_before(
        keys,
        #[trigger] more[x] as int,
        #[trigger] b[y] as int,
    ) by {
        if x == out.len() && y > j {
            assert(comes_before(keys, b[j] as int, b[y] as int));
        }
        if x < out.len() {
            assert(more[x] == out[x]);
        }
    }
    assert forall|x: int, y: int| 0 <= x < more.len() && i + 1 <= y < a.len() implies comes_before(
        keys,
        #[trigger] more[x] as int,
        #[trigger] a[y] as int,
    ) by {
        if x < out.len() {
            assert(more[x] == out[x]);
        }
    }
    assert forall|x: int, y: int| 0 <= x < y < more.len() implies comes_before(
        keys,
        #[trigger] more[x] as int,
        #[trigger] more[y] as int,
    ) by {
        assert(more[x] == out[x]);
        if y < out.len() {
            assert(more[y] == out[y]);
        }
    }
    lemma_pushed(a, b, i, j, out, a[i]);
    assert forall|x: int| 0 <= x < i + 1 implies more.contains(#[trigger] a[x]) by {
        if x == i {
            assert(more[out.len() as int] == a[x]);
        }
    }
}

/// Pushing a place of either list loses none.
proof fn lemma_pushed(
    a: Seq<usize>,
    b: Seq<usize>,
    i: int,
    j: int,
    out: Seq<usize>,
    p: usize,
)
    requires
        a.contains(p) || b.contains(p),
        forall|x: int| 0 <= x < out.len() ==> a.contains(#[trigger] out[x]) || b.contains(out[x]),
        forall|x: int| 0 <= x < i ==> out.contains(#[trigger] a[x]),
        forall|x: int| 0 <= x < j ==> out.contains(#[trigger] b[x]),
    ensures
        forall|x: int|
            0 <= x < out.push(p).len() ==> a.contains(#[trigger] out.push(p)[x]) || b.contains(
                out.push(p)[x],
            ),
        forall|x: int| 0 <= x < i ==> out.push(p).contains(#[trigger] a[x]),
        forall|x: int| 0 <= x < j ==> out.push(p).contains(#[trigger] b[x]),
{
    let more = out.push(p);
    assert forall|x: int| 0 <= x < more.len() implies a.contains(#[trigger] more[x]) || b.contains(
        more[x],
    ) by {
        if x < out.len() {
            assert(more[x] == out[x]);
        }
    }
    assert forall|x: int| 0 <= x < i implies more.contains(#[trigger] a[x]) by {
        let k = choose|k: int| 0 <= k < out.len() && out[k] == a[x];
        assert(more[k] == a[x]);
    }
    assert forall|x: int| 0 <= x < j implies more.contains(#[trigger] b[x]) by {
        let k = choose|k: int| 0 <= k < out.len() && out[k] == b[x];
        assert(more[k] == b[x]);
    }
}

/// The places of two lists in order.
fn merge(keys: &Vec<Option<u64>>, a: &Vec<usize>, b: &Vec<usize>) -> (r: Vec<usize>)
    requires
        forall|i: int| 0 <= i < a@.len() ==> (#[trigger] a@[i]) < keys@.len(),
        forall|i: int| 0 <= i < b@.len() ==> (#[trigger] b@[i]) < keys@.len(),
        forall|i: int| 0 <= i < a@.len() ==> keys@[(#[trigger] a@[i]) as int] is Some,
        forall|i: int| 0 <= i < b@.len() ==> keys@[(#[trigger] b@[i]) as int] is Some,
        forall|i: int, j: int|
            0 <= i < a@.len() && 0 <= j < b@.len() ==> #[trigger] a@[i] < #[trigger] b@[j],
        is_sorted(keys@, a@),
        is_sorted(keys@, b@),
    ensures
        merging(keys@, a@, b@, a@.len() as int, b@.len() as int, r@),
{
    let mut out: Vec<usize> = Vec::new();
    let mut i: usize = 0;
    let mut j: usize = 0;
    while i < a.len() || j < b.len()
        invariant
            forall|i: int| 0 <= i < a@.len() ==> (#[trigger] a@[i]) < keys@.len(),
            forall|i: int| 0 <= i < b@.len() ==> (#[trigger] b@[i]) < keys@.len(),
            forall|i: int| 0 <= i < a@.len() ==> keys@[(#[trigger] a@[i]) as int] is Some,
            forall|i: int| 0 <= i < b@.len() ==> keys@[(#[trigger] b@[i]) as int] is Some,
            forall|i: int, j: int|
                0 <= i < a@.len() && 0 <= j < b@.len() ==> #[trigger] a@[i] < #[trigger] b@[j],
            is_sorted(keys@, a@),
            is_sorted(keys@, b@),
            i <= a@.len(),
            j <= b@.len(),
            merging(keys@, a@, b@, i as int, j as int, out@),
        decreases a@.len() - i + b@.len() - j,
    {
        let left: bool = if i == a.len() {
            false
        } else if j == b.len() {
            true
        } else {
            match (keys[a[i]], keys[b[j]]) {
                (Some(x), Some(y)) => x <= y,
                _ => true,
            }
        };
        if left {
            proof {
                assert(keys@[a@[i as int] as int] is Some);
                if j < b@.len() {
                    assert(keys@[b@[j as int] as int] is Some);
                    assert(a@[i as int] < b@[j as int]);
                }
                lemma_take_left(keys@, a@, b@, i as int, j as int, out@);
            }
            out.push(a[i]);
            i += 1;
        } else {
            proof {
                assert(keys@[b@[j as int] as int] is Some);
                if i < a@.len() {
                    assert(keys@[a@[i as int] as int] is Some);
                }
                lemma_swap(keys@, a@, b@, i as int, j as int, out@);
                lemma_take_left(keys@, b@, a@, j as int, i as int, out@);
                lemma_swap(keys@, b@, a@, j + 1, i as int, out@.push(b@[j as int]));
            }
            out.push(b[j]);
            j += 1;
        }
    }
    out
}

proof fn lemma_swap(
    keys: Seq<Option<u64>>,
    a: Seq<usize>,
    b: Seq<usize>,
    i: int,
    j: int,
    out: Seq<usize>,
)
    requires
        merging(keys, a, b, i, j, out),
    ensures
        merging(keys, b, a, j, i, out),
{
    assert forall|x: int| 0 <= x < out.len() implies b.contains(#[trigger] out[x]) || a.contains(
        out[x],
    ) by {
        assert(a.contains(out[x]) || b.contains(out[x]));
    }
}

/// The places from `lo` to `hi` that have a key, by their keys.
fn order_range(keys: &Vec<Option<u64>>, lo: usize, hi: usize) -> (r: Vec<usize>)
    requires
        lo <= hi <= keys@.len(),
    ensures
        orders_range(keys@, lo as int, hi as int, r@),
    decreases hi - lo,
{
    let mut out: Vec<usize> = Vec::new();
    if lo == hi {
        return out;
    }
    if hi - lo == 1 {
        if keys[lo].is_some() {
            out.push(lo);
            proof {
                assert(out@[0] == lo);
            }
        }
        return out;
    }
    let mid: usize = lo + (hi - lo) / 2;
    let a = order_range(keys, lo, mid);
    let b = order_range(keys, mid, hi);
    let out = merge(keys, &a, &b);
    proof {
        assert forall|i: int| 0 <= i < out@.len() implies lo <= (#[trigger] out@[i]) < hi
            && keys@[out@[i] as int] is Some by {
            if a@.contains(out@[i]) {
                let k = choose|k: int| 0 <= k < a@.len() && a@[k] == out@[i];
                assert(lo <= a@[k] < mid);
            } else {
                let k = choose|k: int| 0 <= k < b@.len() && b@[k] == out@[i];
                assert(mid <= b@[k] < hi);
            }
        }
        assert forall|k: int|
            lo <= k < hi && (#[trigger] keys@[k]) is Some implies out@.contains(k as usize) by {
            if k < mid {
                assert(a@.contains(k as usize));
                let x = choose|x: int| 0 <= x < a@.len() && a@[x] == k as usize;
                assert(out@.contains(a@[x]));
            } else {
                assert(b@.contains(k as usize));
                let x = choose|x: int| 0 <= x < b@.len() && b@[x] == k as usize;
                assert(out@.contains(b@[x]));
            }
        }
    }
    out
}

/// The places that have a key, by their keys. Where keys are equal, what came first
/// stays first.
pub fn order_by_key(keys: &Vec<Option<u64>>) -> (r: Vec<usize>)
    ensures
        is_order(keys@, r@),
{
    order_range(keys, 0, keys.len())
}

} // verus!
