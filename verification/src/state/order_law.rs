//! The order in which a prefix read gives what it finds.
use crate::byte_law::law_ordered;
use crate::bytemap::under;
use crate::key_codec::{canonical, delta_key, encodable, KeyModel};
use crate::state::model::{address_filter, canonical_of, decodes, delta_run, intermediate_run, prefix_read, prefix_values, scan_below, scan_snapshot, scan_top, snapshot_run, Scan, StateModel};
use vstd::prelude::*;

verus! {

/// Whether a layer and a place in it come before others.
pub open spec fn sooner(a: (int, int), b: (int, int)) -> bool {
    a.0 < b.0 || (a.0 == b.0 && a.1 < b.1)
}

/// Whether a value is the one at a place of a layer: of the delta layer (0) or the intermediate
/// layer (1), under the canonical form of its key, or of the snapshot (2).
pub open spec fn stands_in(m: StateModel, k: KeyModel, v: (Seq<u8>, Seq<u8>), at: (int, int)) -> bool {
    if at.0 == 0 {
        let run = delta_run(m, k);
        &&& 0 <= at.1 < run.len()
        &&& canonical_of(run[at.1].0) == Ok::<Seq<u8>, Seq<char>>(v.0)
        &&& run[at.1].1 == Some(v.1)
    } else if at.0 == 1 {
        let run = intermediate_run(m, k);
        &&& 0 <= at.1 < run.len()
        &&& canonical_of(run[at.1].0) == Ok::<Seq<u8>, Seq<char>>(v.0)
        &&& run[at.1].1 == Some(v.1)
    } else {
        let run = snapshot_run(m, k);
        &&& at.0 == 2
        &&& 0 <= at.1 < run.len()
        &&& run[at.1] == v
    }
}

/// Whether values stand in the layers at the given places, which come in order.
pub open spec fn placed(
    m: StateModel,
    k: KeyModel,
    values: Seq<(Seq<u8>, Seq<u8>)>,
    at: Seq<(int, int)>,
) -> bool {
    &&& at.len() == values.len()
    &&& forall|i: int| 0 <= i < at.len() ==> stands_in(m, k, values[i], #[trigger] at[i])
    &&& forall|i: int, j: int|
        #![trigger at[i], at[j]]
        0 <= i < j < at.len() ==> sooner(at[i], at[j])
}

spec fn ends_before(at: Seq<(int, int)>, end: (int, int)) -> bool {
    forall|i: int| 0 <= i < at.len() ==> sooner(#[trigger] at[i], end)
}

proof fn lemma_one_more(
    m: StateModel,
    k: KeyModel,
    values: Seq<(Seq<u8>, Seq<u8>)>,
    at: Seq<(int, int)>,
    v: (Seq<u8>, Seq<u8>),
    end: (int, int),
)
    requires
        placed(m, k, values, at),
        ends_before(at, end),
        stands_in(m, k, v, end),
    ensures
        placed(m, k, values.push(v), at.push(end)),
        ends_before(at.push(end), (end.0, end.1 + 1)),
{
    let more = at.push(end);
    let all = values.push(v);
    assert forall|i: int| 0 <= i < more.len() implies stands_in(m, k, all[i], #[trigger] more[i])
        && sooner(more[i], (end.0, end.1 + 1)) by {
        if i < at.len() {
            assert(more[i] == at[i]);
            assert(all[i] == values[i]);
            assert(sooner(at[i], end));
        }
    }
    assert forall|i: int, j: int|
        #![trigger more[i], more[j]]
        0 <= i < j < more.len() implies sooner(more[i], more[j]) by {
        assert(more[i] == at[i]);
        assert(sooner(at[i], end));
        if j < at.len() {
            assert(more[j] == at[j]);
        }
    }
}

proof fn lemma_later(at: Seq<(int, int)>, end: (int, int), next: (int, int))
    requires
        ends_before(at, end),
        sooner(end, next) || end == next,
    ensures
        ends_before(at, next),
{
    assert forall|i: int| 0 <= i < at.len() implies sooner(#[trigger] at[i], next) by {
        assert(sooner(at[i], end));
    }
}

proof fn lemma_top(m: StateModel, k: KeyModel, n: int) -> (at: Seq<(int, int)>)
    requires
        0 <= n <= delta_run(m, k).len(),
        decodes(delta_run(m, k)),
    ensures
        placed(
            m,
            k,
            scan_top(delta_run(m, k).take(n), address_filter(k.key)).result,
            at,
        ),
        ends_before(at, (0, n)),
    decreases n,
{
    let run = delta_run(m, k);
    let filter = address_filter(k.key);
    if n > 0 {
        let at = lemma_top(m, k, n - 1);
        assert(run.take(n).drop_last() =~= run.take(n - 1));
        assert(run.take(n).last() == run[n - 1]);
        let before = scan_top(run.take(n - 1), filter);
        let after = scan_top(run.take(n), filter);
        assert(canonical_of(run[n - 1].0) is Ok);
        let key = canonical_of(run[n - 1].0)->Ok_0;
        if after.result != before.result {
            let v = (key, run[n - 1].1->0);
            assert(after.result == before.result.push(v));
            lemma_one_more(m, k, before.result, at, v, (0, n - 1));
            at.push((0, n - 1))
        } else {
            lemma_later(at, (0, n - 1), (0, n));
            at
        }
    } else {
        Seq::empty()
    }
}

proof fn lemma_below(
    m: StateModel,
    k: KeyModel,
    start: Scan,
    first: Seq<(int, int)>,
    n: int,
) -> (at: Seq<(int, int)>)
    requires
        0 <= n <= intermediate_run(m, k).len(),
        decodes(intermediate_run(m, k)),
        placed(m, k, start.result, first),
        ends_before(first, (1, 0)),
    ensures
        placed(
            m,
            k,
            scan_below(start, intermediate_run(m, k).take(n), address_filter(k.key)).result,
            at,
        ),
        ends_before(at, (1, n)),
    decreases n,
{
    let run = intermediate_run(m, k);
    let filter = address_filter(k.key);
    if n > 0 {
        let at = lemma_below(m, k, start, first, n - 1);
        assert(run.take(n).drop_last() =~= run.take(n - 1));
        assert(run.take(n).last() == run[n - 1]);
        let before = scan_below(start, run.take(n - 1), filter);
        let after = scan_below(start, run.take(n), filter);
        assert(canonical_of(run[n - 1].0) is Ok);
        let key = canonical_of(run[n - 1].0)->Ok_0;
        if after.result != before.result {
            let v = (key, run[n - 1].1->0);
            assert(after.result == before.result.push(v));
            lemma_one_more(m, k, before.result, at, v, (1, n - 1));
            at.push((1, n - 1))
        } else {
            lemma_later(at, (1, n - 1), (1, n));
            at
        }
    } else {
        assert(scan_below(start, run.take(0), filter) == start);
        first
    }
}

proof fn lemma_bottom(
    m: StateModel,
    k: KeyModel,
    start: Scan,
    first: Seq<(int, int)>,
    n: int,
) -> (at: Seq<(int, int)>)
    requires
        0 <= n <= snapshot_run(m, k).len(),
        placed(m, k, start.result, first),
        ends_before(first, (2, 0)),
    ensures
        placed(m, k, scan_snapshot(start, snapshot_run(m, k).take(n)).result, at),
        ends_before(at, (2, n)),
    decreases n,
{
    let run = snapshot_run(m, k);
    if n > 0 {
        let at = lemma_bottom(m, k, start, first, n - 1);
        assert(run.take(n).drop_last() =~= run.take(n - 1));
        assert(run.take(n).last() == run[n - 1]);
        let before = scan_snapshot(start, run.take(n - 1));
        let after = scan_snapshot(start, run.take(n));
        if after.result != before.result {
            assert(after.result == before.result.push(run[n - 1]));
            lemma_one_more(m, k, before.result, at, run[n - 1], (2, n - 1));
            at.push((2, n - 1))
        } else {
            lemma_later(at, (2, n - 1), (2, n));
            at
        }
    } else {
        assert(scan_snapshot(start, run.take(0)) == start);
        first
    }
}

/// A prefix read gives first what it finds in the delta layer, then what it finds in the
/// intermediate layer, then what it finds in the snapshot, and of each layer in the order of the
/// layer's own keys.
pub proof fn law_prefix_order(m: StateModel, k: KeyModel)
    requires
        prefix_read(m, k) is Ok,
    ensures
        prefix_read(m, k)->Ok_0 == prefix_values(m, k),
        exists|at: Seq<(int, int)>| #[trigger] placed(m, k, prefix_read(m, k)->Ok_0, at),
{
    let filter = address_filter(k.key);
    let (d, i, s) = (delta_run(m, k), intermediate_run(m, k), snapshot_run(m, k));
    let a = lemma_top(m, k, d.len() as int);
    assert(d.take(d.len() as int) =~= d);
    lemma_later(a, (0, d.len() as int), (1, 0));
    let b = lemma_below(m, k, scan_top(d, filter), a, i.len() as int);
    assert(i.take(i.len() as int) =~= i);
    lemma_later(b, (1, i.len() as int), (2, 0));
    let c = lemma_bottom(m, k, scan_below(scan_top(d, filter), i, filter), b, s.len() as int);
    assert(s.take(s.len() as int) =~= s);
    assert(placed(m, k, prefix_read(m, k)->Ok_0, c));
}

/// What a prefix reaches in a layer: the records whose keys start with its form in that layer,
/// and no others, by increasing keys.
pub proof fn law_reached(m: StateModel, k: KeyModel, raw: Seq<u8>)
    requires
        m.delta.dom().finite(),
        m.intermediate.dom().finite(),
        m.snapshot.dom().finite(),
    ensures
        (exists|i: int| 0 <= i < delta_run(m, k).len() && (#[trigger] delta_run(m, k)[i]).0 == raw)
            <==> m.delta.contains_key(raw) && delta_key(k, m.delta_padding).is_prefix_of(raw),
        (exists|i: int|
            0 <= i < intermediate_run(m, k).len() && (#[trigger] intermediate_run(m, k)[i]).0
                == raw) <==> m.intermediate.contains_key(raw) && delta_key(
            k,
            m.intermediate_padding,
        ).is_prefix_of(raw),
        (exists|i: int|
            0 <= i < snapshot_run(m, k).len() && (#[trigger] snapshot_run(m, k)[i]).0 == raw)
            <==> m.snapshot.contains_key(raw) && canonical(k).is_prefix_of(raw),
        forall|i: int|
            0 <= i < delta_run(m, k).len() ==> (#[trigger] delta_run(m, k)[i]).1
                == m.delta[delta_run(m, k)[i].0],
        forall|i: int|
            0 <= i < intermediate_run(m, k).len() ==> (#[trigger] intermediate_run(m, k)[i]).1
                == m.intermediate[intermediate_run(m, k)[i].0],
        forall|i: int|
            0 <= i < snapshot_run(m, k).len() ==> (#[trigger] snapshot_run(m, k)[i]).1
                == m.snapshot[snapshot_run(m, k)[i].0],
        forall|i: int, j: int|
            #![trigger delta_run(m, k)[i], delta_run(m, k)[j]]
            0 <= i < j < delta_run(m, k).len() ==> crate::bytes::lex_lt(
                delta_run(m, k)[i].0,
                delta_run(m, k)[j].0,
            ),
        forall|i: int, j: int|
            #![trigger intermediate_run(m, k)[i], intermediate_run(m, k)[j]]
            0 <= i < j < intermediate_run(m, k).len() ==> crate::bytes::lex_lt(
                intermediate_run(m, k)[i].0,
                intermediate_run(m, k)[j].0,
            ),
        forall|i: int, j: int|
            #![trigger snapshot_run(m, k)[i], snapshot_run(m, k)[j]]
            0 <= i < j < snapshot_run(m, k).len() ==> crate::bytes::lex_lt(
                snapshot_run(m, k)[i].0,
                snapshot_run(m, k)[j].0,
            ),
{
    let (d, i, s) = (delta_run(m, k), intermediate_run(m, k), snapshot_run(m, k));
    let dp = delta_key(k, m.delta_padding);
    let ip = delta_key(k, m.intermediate_padding);
    assert(d == crate::bytemap::ordered(under(m.delta, dp)));
    assert(i == crate::bytemap::ordered(under(m.intermediate, ip)));
    assert(s == crate::bytemap::ordered(under(m.snapshot, canonical(k))));
    lemma_reached(m.delta, dp, raw);
    lemma_reached(m.intermediate, ip, raw);
    lemma_reached(m.snapshot, canonical(k), raw);
    if m.delta.contains_key(raw) && dp.is_prefix_of(raw) {
        let j = choose|j: int| 0 <= j < d.len() && (#[trigger] d[j]).0 == raw;
        assert(delta_run(m, k)[j].0 == raw);
    }
    if m.intermediate.contains_key(raw) && ip.is_prefix_of(raw) {
        let j = choose|j: int| 0 <= j < i.len() && (#[trigger] i[j]).0 == raw;
        assert(intermediate_run(m, k)[j].0 == raw);
    }
}

proof fn lemma_reached<T>(layer: Map<Seq<u8>, T>, p: Seq<u8>, raw: Seq<u8>)
    requires
        layer.dom().finite(),
    ensures
        ({
            let run = crate::bytemap::ordered(under(layer, p));
            &&& (exists|i: int| 0 <= i < run.len() && (#[trigger] run[i]).0 == raw)
                <==> layer.contains_key(raw) && p.is_prefix_of(raw)
            &&& forall|i: int| 0 <= i < run.len() ==> (#[trigger] run[i]).1 == layer[run[i].0]
            &&& forall|i: int, j: int|
                #![trigger run[i], run[j]]
                0 <= i < j < run.len() ==> crate::bytes::lex_lt(run[i].0, run[j].0)
        }),
{
    vstd::set_lib::lemma_set_subset_finite(layer.dom(), under(layer, p).dom());
    law_ordered(under(layer, p), raw);
}

/// A prefix read fails exactly where the prefix has no form, or reaches a record of the delta or
/// the intermediate layer whose key has no canonical form.
pub proof fn law_prefix_fails(m: StateModel, k: KeyModel)
    requires
        m.delta.dom().finite(),
        m.intermediate.dom().finite(),
        m.snapshot.dom().finite(),
    ensures
        prefix_read(m, k) is Err <==> {
            ||| !encodable(k.key)
            ||| exists|raw: Seq<u8>| #[trigger]
                m.delta.contains_key(raw) && delta_key(k, m.delta_padding).is_prefix_of(raw)
                    && canonical_of(raw) is Err
            ||| exists|raw: Seq<u8>| #[trigger]
                m.intermediate.contains_key(raw) && delta_key(
                    k,
                    m.intermediate_padding,
                ).is_prefix_of(raw) && canonical_of(raw) is Err
        },
        !encodable(k.key) ==> prefix_read(m, k) == Err::<Seq<(Seq<u8>, Seq<u8>)>, Seq<char>>(
            "address must be 20 bytes"@,
        ),
{
    lemma_decodes(m.delta, delta_key(k, m.delta_padding));
    lemma_decodes(m.intermediate, delta_key(k, m.intermediate_padding));
}

proof fn lemma_decodes(layer: Map<Seq<u8>, Option<Seq<u8>>>, p: Seq<u8>)
    requires
        layer.dom().finite(),
    ensures
        !decodes(crate::bytemap::ordered(under(layer, p))) <==> exists|raw: Seq<u8>| #[trigger]
            layer.contains_key(raw) && p.is_prefix_of(raw) && canonical_of(raw) is Err,
{
    let run = crate::bytemap::ordered(under(layer, p));
    lemma_reached(layer, p, Seq::empty());
    if !decodes(run) {
        let i = choose|i: int| 0 <= i < run.len() && canonical_of((#[trigger] run[i]).0) is Err;
        lemma_reached(layer, p, run[i].0);
        assert(layer.contains_key(run[i].0));
    }
    if exists|raw: Seq<u8>| #[trigger]
        layer.contains_key(raw) && p.is_prefix_of(raw) && canonical_of(raw) is Err {
        let raw = choose|raw: Seq<u8>| #[trigger]
            layer.contains_key(raw) && p.is_prefix_of(raw) && canonical_of(raw) is Err;
        lemma_reached(layer, p, raw);
        let i = choose|i: int| 0 <= i < run.len() && (#[trigger] run[i]).0 == raw;
        assert(canonical_of(run[i].0) is Err);
    }
}

} // verus!
