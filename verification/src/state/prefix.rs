//! Prefix reads and deletes across the three layers.
//!
//! A prefix query takes each canonical key from the first layer, from the top,
//! that has a record of it. A query by address prefix reaches every delta record,
//! because the delta form of an address prefix is empty; the canonical keys are
//! then filtered.
use crate::bytemap::{has_key, keys_sorted, lemma_ordered, lemma_pairs_map, ordered, outside, pairs_map, under, ByteMap};
use crate::bytes::{lemma_agree_prefix, lemma_lcp_unique, lemma_lex_between, lemma_lex_total, lex_lt, starts_with, to_boxed, to_vec};
use crate::incremental::{kv_pairs, live_under};
use crate::key_codec::{canonical, canonical_decode, encodable, StorageKey, StorageKeyWithSpace};
use crate::state::model::{address_filter, after_delete, decodes, delta_run, fault, first_fault, hide_records, hide_snapshot, intermediate_run, lemma_decodes_step, lemma_fault_at, lemma_snapshot_fault_at, passes, prefix_delete, prefix_read, scan_below, scan_snapshot, scan_top, snapshot_decodes, Scan, StateModel};
use crate::state::rotation::decode_raw;
use crate::state::{live_part, State, StateTrait};
use crate::trie::MptValue;
use crate::types::{MptKeyValue, Result};
use vstd::prelude::*;

verus! {

/// Keys and records of a list of raw pairs.
spec fn raw_pairs(s: Seq<(Vec<u8>, MptValue)>) -> Seq<(Seq<u8>, Option<Seq<u8>>)> {
    Seq::new(s.len(), |i: int| (s[i].0@, s[i].1@))
}

spec fn filter_view(filter: Option<&[u8]>) -> Option<Seq<u8>> {
    match filter {
        Some(p) => Some(p@),
        None => None,
    }
}

/// `result` and `seen` are the scan `s`.
spec fn is_scan(s: Scan, result: Seq<MptKeyValue>, seen: Map<Seq<u8>, ()>) -> bool {
    s.result == kv_pairs(result) && s.seen == seen.dom()
}

/// The entries whose keys start with a prefix stand together in a sorted list.
proof fn lemma_prefix_run<T>(s: Seq<(Seq<u8>, T)>, p: Seq<u8>, lo: int, hi: int)
    requires
        keys_sorted(s),
        0 <= lo <= hi <= s.len(),
        forall|j: int| 0 <= j < lo ==> lex_lt((#[trigger] s[j]).0, p),
        forall|j: int| lo <= j < s.len() ==> !lex_lt((#[trigger] s[j]).0, p),
        forall|j: int| lo <= j < hi ==> p.is_prefix_of((#[trigger] s[j]).0),
        hi < s.len() ==> !p.is_prefix_of(s[hi].0),
    ensures
        s.subrange(lo, hi) == ordered(under(pairs_map(s), p)),
{
    let t = s.subrange(lo, hi);
    lemma_pairs_map(s);
    assert forall|a: int, b: int| 0 <= a < b < t.len() implies lex_lt(t[a].0, t[b].0) by {
        assert(t[a] == s[lo + a] && t[b] == s[lo + b]);
    }
    lemma_pairs_map(t);
    let want = under(pairs_map(s), p);
    assert forall|j: int| 0 <= j < s.len() && p.is_prefix_of((#[trigger] s[j]).0) implies lo <= j
        < hi by {
        lemma_agree_prefix(p, s[j].0);
        if j < lo {
            lemma_lcp_unique(s[j].0, p, p.len());
        }
        if j > hi {
            let mid = s[hi].0;
            lemma_lex_total(mid, p);
            assert(lex_lt(s[hi].0, s[j].0));
            lemma_lex_between(p, mid, s[j].0, p.len());
            lemma_agree_prefix(p, mid);
        }
    }
    assert forall|k: Seq<u8>| #[trigger] pairs_map(t).contains_key(k) implies want.contains_key(k)
        && pairs_map(t)[k] == want[k] by {
        let j = choose|j: int| 0 <= j < t.len() && (#[trigger] t[j]).0 == k;
        assert(t[j] == s[lo + j]);
        assert(pairs_map(t)[t[j].0] == t[j].1);
        assert(pairs_map(s)[s[lo + j].0] == s[lo + j].1);
    }
    assert forall|k: Seq<u8>| #[trigger] want.contains_key(k) implies pairs_map(t).contains_key(
        k,
    ) by {
        let j = choose|j: int| 0 <= j < s.len() && (#[trigger] s[j]).0 == k;
        assert(lo <= j < hi);
        assert(t[j - lo].0 == k);
    }
    assert(pairs_map(t) =~= want);
    lemma_ordered(t);
}

/// The records whose key starts with `prefix`, in key order.
fn scan_prefix(map: &ByteMap<MptValue>, prefix: &[u8]) -> (r: Vec<(Vec<u8>, MptValue)>)
    requires
        map.wf(),
    ensures
        raw_pairs(r@) == ordered(under(map@, prefix@)),
{
    let lo: usize = map.lower_bound(prefix);
    let n: usize = map.len();
    let ghost s = map.pairs();
    let mut out: Vec<(Vec<u8>, MptValue)> = Vec::new();
    let mut i: usize = lo;
    proof {
        map.lemma_view();
        assert(raw_pairs(out@) =~= s.subrange(lo as int, lo as int));
    }
    while i < n && starts_with(map.key_at(i).as_slice(), prefix)
        invariant
            lo <= i <= n,
            n == s.len(),
            s == map.pairs(),
            forall|j: int| lo <= j < i ==> prefix@.is_prefix_of((#[trigger] s[j]).0),
            raw_pairs(out@) == s.subrange(lo as int, i as int),
        decreases n - i,
    {
        let ghost before = raw_pairs(out@);
        out.push((to_vec(map.key_at(i).as_slice()), map.value_at(i).clone()));
        i += 1;
        proof {
            assert(raw_pairs(out@) =~= before.push(s[i - 1]));
            assert(raw_pairs(out@) =~= s.subrange(lo as int, i as int));
        }
    }
    proof {
        lemma_prefix_run(s, prefix@, lo as int, i as int);
    }
    out
}

/// Takes one record that passes into the scan.
fn settle(
    result: &mut Vec<MptKeyValue>,
    seen: &mut ByteMap<()>,
    canonical: Vec<u8>,
    value: &MptValue,
)
    requires
        old(seen).wf(),
    ensures
        final(seen).wf(),
        final(seen)@ == old(seen)@.insert(canonical@, ()),
        kv_pairs(final(result)@) == match value@ {
            Some(v) => kv_pairs(old(result)@).push((canonical@, v)),
            None => kv_pairs(old(result)@),
        },
{
    seen.insert(to_vec(canonical.as_slice()), ());
    match value.visible_value() {
        Some(v) => {
            result.push((canonical, to_boxed(v)));
            proof {
                assert(kv_pairs(result@) =~= kv_pairs(old(result)@).push((canonical@, v@)));
            }
        },
        None => {},
    }
}

fn passes_filter(filter: Option<&[u8]>, canonical: &[u8]) -> (r: bool)
    ensures
        r == passes(filter_view(filter), canonical@),
{
    match filter {
        Some(p) => starts_with(canonical, p),
        None => true,
    }
}

/// The scan of the top layer.
fn collect_top(records: &Vec<(Vec<u8>, MptValue)>, filter: Option<&[u8]>) -> (r: Result<
    (Vec<MptKeyValue>, ByteMap<()>),
>)
    ensures
        match r {
            Ok((result, seen)) => {
                &&& decodes(raw_pairs(records@))
                &&& seen.wf()
                &&& is_scan(scan_top(raw_pairs(records@), filter_view(filter)), result@, seen@)
            },
            Err(e) => !decodes(raw_pairs(records@)) && fault(e, first_fault(raw_pairs(records@))),
        },
{
    let ghost pairs = raw_pairs(records@);
    let ghost f = filter_view(filter);
    let mut result: Vec<MptKeyValue> = Vec::new();
    let mut seen: ByteMap<()> = ByteMap::new();
    let mut i: usize = 0;
    proof {
        assert(pairs.take(0) =~= Seq::empty());
        assert(kv_pairs(result@) =~= Seq::empty());
        assert(seen@.dom() =~= Set::empty());
    }
    while i < records.len()
        invariant
            i <= records@.len(),
            pairs == raw_pairs(records@),
            f == filter_view(filter),
            decodes(pairs.take(i as int)),
            seen.wf(),
            is_scan(scan_top(pairs.take(i as int), f), result@, seen@),
        decreases records@.len() - i,
    {
        match decode_raw(records[i].0.as_slice()) {
            Ok((_, canonical)) => {
                proof {
                    lemma_decodes_step(pairs, i as int);
                }
                let ghost before = seen@;
                let ghost c = canonical@;
                if passes_filter(filter, canonical.as_slice()) {
                    settle(&mut result, &mut seen, canonical, &records[i].1);
                    proof {
                        assert(seen@.dom() =~= before.dom().insert(c));
                    }
                }
            },
            Err(e) => {
                proof {
                    lemma_fault_at(pairs, i as int);
                }
                return Err(e);
            },
        }
        i += 1;
    }
    proof {
        assert(pairs.take(i as int) =~= pairs);
    }
    Ok((result, seen))
}

/// The scan of the intermediate layer.
fn collect_below(
    records: &Vec<(Vec<u8>, MptValue)>,
    filter: Option<&[u8]>,
    result: &mut Vec<MptKeyValue>,
    seen: &mut ByteMap<()>,
    Ghost(start): Ghost<Scan>,
) -> (r: Result<()>)
    requires
        old(seen).wf(),
        is_scan(start, old(result)@, old(seen)@),
    ensures
        final(seen).wf(),
        match r {
            Ok(_) => {
                &&& decodes(raw_pairs(records@))
                &&& is_scan(
                    scan_below(start, raw_pairs(records@), filter_view(filter)),
                    final(result)@,
                    final(seen)@,
                )
            },
            Err(e) => !decodes(raw_pairs(records@)) && fault(e, first_fault(raw_pairs(records@))),
        },
{
    let ghost pairs = raw_pairs(records@);
    let ghost f = filter_view(filter);
    let mut i: usize = 0;
    proof {
        assert(pairs.take(0) =~= Seq::empty());
    }
    while i < records.len()
        invariant
            i <= records@.len(),
            pairs == raw_pairs(records@),
            f == filter_view(filter),
            decodes(pairs.take(i as int)),
            seen.wf(),
            is_scan(scan_below(start, pairs.take(i as int), f), result@, seen@),
        decreases records@.len() - i,
    {
        match decode_raw(records[i].0.as_slice()) {
            Ok((_, canonical)) => {
                proof {
                    lemma_decodes_step(pairs, i as int);
                }
                let ghost before = seen@;
                let ghost c = canonical@;
                if !seen.contains_key(canonical.as_slice()) && passes_filter(
                    filter,
                    canonical.as_slice(),
                ) {
                    settle(result, seen, canonical, &records[i].1);
                    proof {
                        assert(seen@.dom() =~= before.dom().insert(c));
                    }
                }
            },
            Err(e) => {
                proof {
                    lemma_fault_at(pairs, i as int);
                }
                return Err(e);
            },
        }
        i += 1;
    }
    proof {
        assert(pairs.take(i as int) =~= pairs);
    }
    Ok(())
}

/// The scan of the snapshot.
fn collect_snapshot(
    values: &Vec<(Vec<u8>, Box<[u8]>)>,
    result: &mut Vec<MptKeyValue>,
    seen: &mut ByteMap<()>,
    Ghost(start): Ghost<Scan>,
)
    requires
        old(seen).wf(),
        is_scan(start, old(result)@, old(seen)@),
    ensures
        final(seen).wf(),
        is_scan(scan_snapshot(start, kv_pairs(values@)), final(result)@, final(seen)@),
{
    let ghost pairs = kv_pairs(values@);
    let mut i: usize = 0;
    proof {
        assert(pairs.take(0) =~= Seq::empty());
    }
    while i < values.len()
        invariant
            i <= values@.len(),
            pairs == kv_pairs(values@),
            seen.wf(),
            is_scan(scan_snapshot(start, pairs.take(i as int)), result@, seen@),
        decreases values@.len() - i,
    {
        proof {
            assert(pairs.take(i + 1).drop_last() =~= pairs.take(i as int));
            assert(pairs.take(i + 1).last() == pairs[i as int]);
        }
        let ghost before = seen@;
        let ghost c = values@[i as int].0@;
        let ghost v = values@[i as int].1@;
        let ghost r0 = kv_pairs(result@);
        if !seen.contains_key(values[i].0.as_slice()) {
            seen.insert(to_vec(values[i].0.as_slice()), ());
            result.push((to_vec(values[i].0.as_slice()), to_boxed(&*values[i].1)));
            proof {
                assert(seen@.dom() =~= before.dom().insert(c));
                assert(kv_pairs(result@) =~= r0.push((c, v)));
            }
        }
        i += 1;
    }
    proof {
        assert(pairs.take(i as int) =~= pairs);
    }
}

/// The address prefix that canonical keys must have, where `prefix` is one.
fn address_prefix_filter(prefix: &StorageKeyWithSpace) -> (r: Option<&[u8]>)
    ensures
        filter_view(r) == address_filter(prefix@.key),
{
    match &prefix.key {
        StorageKey::AddressPrefix(p) => Some(p.as_slice()),
        _ => None,
    }
}

proof fn lemma_snapshot_values(
    m: Map<Seq<u8>, Option<Seq<u8>>>,
    p: Seq<u8>,
    pairs: Seq<(Seq<u8>, Seq<u8>)>,
)
    requires
        keys_sorted(pairs),
        pairs_map(pairs) == live_under(m, p),
    ensures
        pairs == ordered(under(live_part(m), p)),
{
    assert(live_under(m, p) =~= under(live_part(m), p));
    lemma_ordered(pairs);
}

impl State {
    /// What the layers hold under `prefix`.
    pub(crate) fn read_prefix(&self, prefix: &StorageKeyWithSpace) -> (r: Result<Vec<MptKeyValue>>)
        requires
            self.valid(),
        ensures
            match r {
                Ok(values) => prefix_read(self.model(), prefix@) == core::result::Result::<
                    Seq<(Seq<u8>, Seq<u8>)>,
                    Seq<char>,
                >::Ok(kv_pairs(values@)),
                Err(e) => prefix_read(self.model(), prefix@) is Err && fault(
                    e,
                    prefix_read(self.model(), prefix@)->Err_0,
                ),
            },
    {
        let canonical_prefix = match prefix.to_key_bytes() {
            Ok(k) => k,
            Err(e) => {
                return Err(e);
            },
        };
        let delta_prefix = match prefix.to_delta_mpt_key_bytes(&self.delta_padding) {
            Ok(k) => k,
            Err(e) => {
                return Err(e);
            },
        };
        let intermediate_prefix = match prefix.to_delta_mpt_key_bytes(&self.intermediate_padding) {
            Ok(k) => k,
            Err(e) => {
                return Err(e);
            },
        };
        let filter = address_prefix_filter(prefix);
        let top = scan_prefix(&self.delta, delta_prefix.as_slice());
        let (mut result, mut seen): (Vec<MptKeyValue>, ByteMap<()>) = match collect_top(
            &top,
            filter,
        ) {
            Ok(scan) => scan,
            Err(e) => {
                return Err(e);
            },
        };
        let middle = scan_prefix(&self.intermediate, intermediate_prefix.as_slice());
        let ghost f = address_filter(prefix@.key);
        let ghost s0 = scan_top(delta_run(self.model(), prefix@), f);
        let ghost s1 = scan_below(s0, intermediate_run(self.model(), prefix@), f);
        match collect_below(&middle, filter, &mut result, &mut seen, Ghost(s0)) {
            Ok(_) => {},
            Err(e) => {
                return Err(e);
            },
        }
        let bottom = self.snapshot.snapshot_scan_prefix(canonical_prefix.as_slice());
        proof {
            lemma_snapshot_values(self.snapshot@, canonical(prefix@), kv_pairs(bottom@));
        }
        collect_snapshot(&bottom, &mut result, &mut seen, Ghost(s1));
        Ok(result)
    }

    /// Removes from the delta every record that `records` lists.
    fn remove_from_delta(
        &mut self,
        records: &Vec<(Vec<u8>, MptValue)>,
        Ghost(prefix): Ghost<Seq<u8>>,
    )
        requires
            old(self).valid(),
            raw_pairs(records@) == ordered(under(old(self).model().delta, prefix)),
        ensures
            final(self).valid(),
            final(self).model() == (StateModel {
                delta: outside(old(self).model().delta, prefix),
                ..old(self).model()
            }),
    {
        let ghost pairs = raw_pairs(records@);
        let ghost d0 = self.delta@;
        proof {
            lemma_under_ordered(&self.delta, prefix);
        }
        let mut i: usize = 0;
        while i < records.len()
            invariant
                i <= records@.len(),
                pairs == raw_pairs(records@),
                self.valid(),
                self.model() == (StateModel { delta: self.delta@, ..old(self).model() }),
                forall|k: Seq<u8>| #[trigger]
                    self.delta@.contains_key(k) <==> d0.contains_key(k) && !has_key(
                        pairs.take(i as int),
                        k,
                    ),
                forall|k: Seq<u8>| #[trigger] self.delta@.contains_key(k) ==> self.delta@[k] == d0[k],
            decreases records@.len() - i,
        {
            let ghost before = self.delta@;
            self.delta.remove(records[i].0.as_slice());
            self.delta_inc.remove(records[i].0.as_slice());
            proof {
                let gone = pairs[i as int].0;
                assert forall|k: Seq<u8>| #[trigger] self.delta@.contains_key(k) <==> d0.contains_key(
                    k,
                ) && !has_key(pairs.take(i + 1), k) by {
                    if has_key(pairs.take(i as int), k) {
                        let j = choose|j: int|
                            0 <= j < pairs.take(i as int).len() && (#[trigger] pairs.take(
                                i as int,
                            )[j]).0 == k;
                        assert(pairs.take(i + 1)[j].0 == k);
                    }
                    if has_key(pairs.take(i + 1), k) {
                        let j = choose|j: int|
                            0 <= j < pairs.take(i + 1).len() && (#[trigger] pairs.take(i + 1)[j]).0
                                == k;
                        if j < i {
                            assert(pairs.take(i as int)[j].0 == k);
                        } else {
                            assert(k == gone);
                        }
                    }
                    assert(pairs.take(i + 1)[i as int].0 == gone);
                    assert(before.contains_key(k) <==> d0.contains_key(k) && !has_key(
                        pairs.take(i as int),
                        k,
                    ));
                }
            }
            i += 1;
        }
        proof {
            assert(pairs.take(i as int) =~= pairs);
            assert forall|k: Seq<u8>| #[trigger] self.delta@.contains_key(k) == outside(
                d0,
                prefix,
            ).contains_key(k) by {
                assert(has_key(pairs, k) <==> under(d0, prefix).contains_key(k));
            }
            assert(self.delta@ =~= outside(d0, prefix));
        }
    }

    /// Hides every live record that passes behind a tombstone in the delta.
    fn hide_below(&mut self, records: &Vec<(Vec<u8>, MptValue)>, filter: Option<&[u8]>) -> (r:
        Result<()>)
        requires
            old(self).valid(),
        ensures
            final(self).valid(),
            final(self).model() == (StateModel {
                delta: hide_records(
                    old(self).model().delta,
                    raw_pairs(records@),
                    filter_view(filter),
                    old(self).model().delta_padding,
                ),
                ..old(self).model()
            }),
            match r {
                Ok(_) => decodes(raw_pairs(records@)),
                Err(e) => !decodes(raw_pairs(records@)) && fault(
                    e,
                    first_fault(raw_pairs(records@)),
                ),
            },
    {
        let ghost pairs = raw_pairs(records@);
        let ghost f = filter_view(filter);
        let ghost m = self.model();
        let mut i: usize = 0;
        proof {
            assert(pairs.take(0) =~= Seq::empty());
        }
        while i < records.len()
            invariant
                i <= records@.len(),
                pairs == raw_pairs(records@),
                f == filter_view(filter),
                m == old(self).model(),
                self.valid(),
                decodes(pairs.take(i as int)),
                self.model() == (StateModel {
                    delta: hide_records(m.delta, pairs.take(i as int), f, m.delta_padding),
                    ..m
                }),
            decreases records@.len() - i,
        {
            match decode_raw(records[i].0.as_slice()) {
                Ok((key, canonical)) => {
                    proof {
                        lemma_decodes_step(pairs, i as int);
                    }
                    if passes_filter(filter, canonical.as_slice()) && !records[i].1.is_tombstone() {
                        match self.set(key, crate::bytes::into_boxed(Vec::new())) {
                            Ok(_) => {},
                            Err(e) => {
                                return Err(e);
                            },
                        }
                    }
                },
                Err(e) => {
                    proof {
                        lemma_fault_at(pairs, i as int);
                        assert(hide_records(m.delta, pairs, f, m.delta_padding) == hide_records(
                            m.delta,
                            pairs.take(i as int),
                            f,
                            m.delta_padding,
                        ));
                    }
                    return Err(e);
                },
            }
            i += 1;
        }
        proof {
            assert(pairs.take(i as int) =~= pairs);
        }
        Ok(())
    }

    /// Hides every snapshot value behind a tombstone in the delta.
    fn hide_values(&mut self, values: &Vec<(Vec<u8>, Box<[u8]>)>) -> (r: Result<()>)
        requires
            old(self).valid(),
        ensures
            final(self).valid(),
            final(self).model() == (StateModel {
                delta: hide_snapshot(
                    old(self).model().delta,
                    kv_pairs(values@),
                    old(self).model().delta_padding,
                ),
                ..old(self).model()
            }),
            match r {
                Ok(_) => snapshot_decodes(kv_pairs(values@)),
                Err(e) => !snapshot_decodes(kv_pairs(values@)) && fault(
                    e,
                    "unknown snapshot key suffix"@,
                ),
            },
    {
        let ghost pairs = kv_pairs(values@);
        let ghost m = self.model();
        let mut i: usize = 0;
        proof {
            assert(pairs.take(0) =~= Seq::empty());
        }
        while i < values.len()
            invariant
                i <= values@.len(),
                pairs == kv_pairs(values@),
                m == old(self).model(),
                self.valid(),
                snapshot_decodes(pairs.take(i as int)),
                self.model() == (StateModel {
                    delta: hide_snapshot(m.delta, pairs.take(i as int), m.delta_padding),
                    ..m
                }),
            decreases values@.len() - i,
        {
            match StorageKeyWithSpace::from_key_bytes(values[i].0.as_slice()) {
                Ok(key) => {
                    proof {
                        let t = pairs.take(i + 1);
                        assert(t.drop_last() =~= pairs.take(i as int));
                        assert forall|j: int| 0 <= j < t.len() implies canonical_decode(
                            (#[trigger] t[j]).0,
                        ) is Some by {
                            if j < i {
                                assert(pairs.take(i as int)[j] == t[j]);
                            }
                        }
                        assert(encodable(key@.key));
                    }
                    match self.set(key, crate::bytes::into_boxed(Vec::new())) {
                        Ok(_) => {},
                        Err(e) => {
                            return Err(e);
                        },
                    }
                },
                Err(e) => {
                    proof {
                        lemma_snapshot_fault_at(pairs, i as int);
                        assert(hide_snapshot(m.delta, pairs, m.delta_padding) == hide_snapshot(
                            m.delta,
                            pairs.take(i as int),
                            m.delta_padding,
                        ));
                    }
                    return Err(e);
                },
            }
            i += 1;
        }
        proof {
            assert(pairs.take(i as int) =~= pairs);
        }
        Ok(())
    }

    /// Deletes what the layers hold under `prefix`, and returns it.
    pub(crate) fn delete_prefix(&mut self, prefix: &StorageKeyWithSpace) -> (r: Result<
        Vec<MptKeyValue>,
    >)
        requires
            old(self).valid(),
        ensures
            final(self).valid(),
            final(self).model() == after_delete(old(self).model(), prefix@),
            match r {
                Ok(values) => prefix_delete(old(self).model(), prefix@) == core::result::Result::<
                    Seq<(Seq<u8>, Seq<u8>)>,
                    Seq<char>,
                >::Ok(kv_pairs(values@)),
                Err(e) => prefix_delete(old(self).model(), prefix@) is Err && fault(
                    e,
                    prefix_delete(old(self).model(), prefix@)->Err_0,
                ),
            },
    {
        let canonical_prefix = match prefix.to_key_bytes() {
            Ok(k) => k,
            Err(e) => {
                return Err(e);
            },
        };
        let delta_prefix = match prefix.to_delta_mpt_key_bytes(&self.delta_padding) {
            Ok(k) => k,
            Err(e) => {
                return Err(e);
            },
        };
        let intermediate_prefix = match prefix.to_delta_mpt_key_bytes(&self.intermediate_padding) {
            Ok(k) => k,
            Err(e) => {
                return Err(e);
            },
        };
        let filter = address_prefix_filter(prefix);
        let ghost m = self.model();
        let ghost f = address_filter(prefix@.key);
        let top = scan_prefix(&self.delta, delta_prefix.as_slice());
        let middle = scan_prefix(&self.intermediate, intermediate_prefix.as_slice());
        let bottom = self.snapshot.snapshot_scan_prefix(canonical_prefix.as_slice());
        proof {
            lemma_snapshot_values(self.snapshot@, canonical(prefix@), kv_pairs(bottom@));
        }
        self.remove_from_delta(&top, Ghost(delta_prefix@));
        let (mut result, mut seen): (Vec<MptKeyValue>, ByteMap<()>) = match collect_top(
            &top,
            filter,
        ) {
            Ok(scan) => scan,
            Err(e) => {
                return Err(e);
            },
        };
        match self.hide_below(&middle, filter) {
            Ok(_) => {},
            Err(e) => {
                return Err(e);
            },
        }
        let ghost s0 = scan_top(delta_run(m, prefix@), f);
        let ghost s1 = scan_below(s0, intermediate_run(m, prefix@), f);
        match collect_below(&middle, filter, &mut result, &mut seen, Ghost(s0)) {
            Ok(_) => {},
            Err(e) => {
                return Err(e);
            },
        }
        match self.hide_values(&bottom) {
            Ok(_) => {},
            Err(e) => {
                return Err(e);
            },
        }
        collect_snapshot(&bottom, &mut result, &mut seen, Ghost(s1));
        Ok(result)
    }
}

/// The ordered entries under a prefix have exactly the keys of the map there.
proof fn lemma_under_ordered(map: &ByteMap<MptValue>, p: Seq<u8>)
    requires
        map.wf(),
    ensures
        forall|k: Seq<u8>|
            has_key(ordered(under(map@, p)), k) <==> #[trigger] under(map@, p).contains_key(k),
{
    map.lemma_view();
    let m = under(map@, p);
    let s = map.pairs();
    let t = filtered(s, p);
    lemma_filtered(s, p);
    assert(pairs_map(t) =~= m);
    lemma_ordered(t);
    lemma_pairs_map(t);
}

/// The entries whose key starts with `p`, in order.
spec fn filtered(s: Seq<(Seq<u8>, Option<Seq<u8>>)>, p: Seq<u8>) -> Seq<
    (Seq<u8>, Option<Seq<u8>>),
>
    decreases s.len(),
{
    if s.len() == 0 {
        Seq::empty()
    } else {
        let t = filtered(s.drop_last(), p);
        if p.is_prefix_of(s.last().0) {
            t.push(s.last())
        } else {
            t
        }
    }
}

proof fn lemma_filtered(s: Seq<(Seq<u8>, Option<Seq<u8>>)>, p: Seq<u8>)
    requires
        keys_sorted(s),
    ensures
        keys_sorted(filtered(s, p)),
        pairs_map(filtered(s, p)) == under(pairs_map(s), p),
        forall|i: int|
            0 <= i < filtered(s, p).len() ==> has_key(s, (#[trigger] filtered(s, p)[i]).0),
    decreases s.len(),
{
    let t = filtered(s, p);
    if s.len() == 0 {
        assert(pairs_map(t) =~= under(pairs_map(s), p));
    } else {
        let s1 = s.drop_last();
        let t1 = filtered(s1, p);
        assert(keys_sorted(s1)) by {
            assert forall|i: int, j: int| 0 <= i < j < s1.len() implies lex_lt(s1[i].0, s1[j].0) by {
                assert(s[i] == s1[i] && s[j] == s1[j]);
            }
        }
        lemma_filtered(s1, p);
        assert forall|i: int| 0 <= i < t1.len() implies has_key(s, (#[trigger] t1[i]).0) && lex_lt(
            t1[i].0,
            s.last().0,
        ) by {
            let j = choose|j: int| 0 <= j < s1.len() && (#[trigger] s1[j]).0 == t1[i].0;
            assert(s[j] == s1[j]);
            assert(lex_lt(s[j].0, s[s.len() - 1].0));
        }
        assert(keys_sorted(t)) by {
            assert forall|i: int, j: int| 0 <= i < j < t.len() implies lex_lt(t[i].0, t[j].0) by {
                if j < t1.len() {
                    assert(t[i] == t1[i] && t[j] == t1[j]);
                } else {
                    assert(t[i] == t1[i]);
                }
            }
        }
        assert forall|i: int| 0 <= i < t.len() implies has_key(s, (#[trigger] t[i]).0) by {
            if i < t1.len() {
                assert(t[i] == t1[i]);
            } else {
                assert(s[s.len() - 1].0 == t[i].0);
            }
        }
        if p.is_prefix_of(s.last().0) {
            assert(t.drop_last() =~= t1);
        }
        lemma_pairs_map(s1);
        assert(pairs_map(t) =~= under(pairs_map(s), p)) by {
            if !p.is_prefix_of(s.last().0) {
                assert(under(pairs_map(s), p) =~= under(pairs_map(s1), p));
            }
        }
    }
}

} // verus!
