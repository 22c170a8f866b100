//! The end of a period: the layers move down by one.
use crate::bytemap::{ordered, ByteMap};
use crate::incremental::CachePolicy;
use crate::key_codec::{delta_decode, DeltaMptKeyPadding, StorageKeyWithSpace};
use crate::state::model::{canonical_of, decodes, fault, first_fault, lemma_decodes_step, lemma_fault_at, merged, rotated, StateModel};
use crate::state::{lemma_live_part, live_part, State, StateTrait};
use crate::trie::{layer_root, MptValue};
use crate::types::{Result, H256};
use vstd::prelude::*;

verus! {

/// The key that a delta key stands for, with its canonical form.
pub(crate) fn decode_raw(raw: &[u8]) -> (r: Result<(StorageKeyWithSpace, Vec<u8>)>)
    ensures
        match r {
            Ok((key, canonical)) => canonical_of(raw@) == core::result::Result::<
                Seq<u8>,
                Seq<char>,
            >::Ok(canonical@) && delta_decode(raw@)->Ok_0 == key@,
            Err(e) => canonical_of(raw@) is Err && fault(e, canonical_of(raw@)->Err_0),
        },
{
    match StorageKeyWithSpace::from_delta_mpt_key(raw) {
        Ok(key) => match key.to_key_bytes() {
            Ok(canonical) => Ok((key, canonical)),
            Err(e) => Err(e),
        },
        Err(e) => Err(e),
    }
}

impl State {
    /// Rotates the layers if the commit just made ended a period. Before the first commit
    /// none has.
    pub(crate) fn advance_after_commit(&mut self, delta_root: H256) -> (r: Result<()>)
        requires
            old(self).valid(),
            delta_root@ == layer_root(old(self).model().delta),
        ensures
            final(self).valid(),
            ({
                let m = old(self).model();
                let pairs = ordered(m.intermediate);
                if m.height == 0 || m.height % m.snapshot_epoch_count as u64 != 0 {
                    r is Ok && final(self).model() == m
                } else if decodes(pairs) {
                    r is Ok && final(self).model() == rotated(m)
                } else {
                    &&& r matches Err(e) && fault(e, first_fault(pairs))
                    &&& final(self).model() == StateModel {
                        snapshot: merged(m.snapshot, pairs),
                        intermediate: Map::empty(),
                        ..m
                    }
                }
            }),
    {
        if self.height == 0 || self.height % self.snapshot_epoch_count as u64 != 0 {
            return Ok(());
        }
        let ghost m = self.model();
        let ghost pairs = ordered(m.intermediate);
        let mut records: ByteMap<MptValue> = ByteMap::new();
        std::mem::swap(&mut records, &mut self.intermediate);
        proof {
            records.lemma_view();
            assert(pairs.take(0) =~= Seq::empty());
        }
        let n: usize = records.len();
        let mut i: usize = 0;
        while i < n
            invariant
                i <= n,
                n == records.pairs().len(),
                records.wf(),
                records.pairs() == pairs,
                pairs == ordered(m.intermediate),
                m == old(self).model(),
                m.height > 0,
                m.height % m.snapshot_epoch_count as u64 == 0,
                delta_root@ == layer_root(m.delta),
                self.valid(),
                decodes(pairs.take(i as int)),
                self.model() == (StateModel {
                    snapshot: merged(m.snapshot, pairs.take(i as int)),
                    intermediate: Map::empty(),
                    ..m
                }),
            decreases n - i,
        {
            match decode_raw(records.key_at(i).as_slice()) {
                Ok((_, canonical)) => {
                    let ghost before = self.snapshot@;
                    let ghost c = canonical@;
                    proof {
                        lemma_decodes_step(pairs, i as int);
                    }
                    match records.value_at(i) {
                        MptValue::Live(value) => {
                            let live = records.value_at(i).clone();
                            let ghost v = live@;
                            self.snapshot.insert(canonical.as_slice(), live);
                            proof {
                                assert(live_part(self.snapshot@) =~= live_part(before).insert(
                                    c,
                                    v->0,
                                ));
                            }
                        },
                        MptValue::Tombstone => {
                            self.snapshot.remove(canonical.as_slice());
                            proof {
                                assert(live_part(self.snapshot@) =~= live_part(before).remove(c));
                            }
                        },
                    }
                },
                Err(e) => {
                    proof {
                        lemma_fault_at(pairs, i as int);
                        assert(merged(m.snapshot, pairs) == merged(
                            m.snapshot,
                            pairs.take(i as int),
                        ));
                    }
                    return Err(e);
                },
            }
            i += 1;
        }
        proof {
            assert(pairs.take(n as int) =~= pairs);
            lemma_live_part(self.snapshot@);
        }
        self.snapshot_root = self.snapshot.root_with_policy(CachePolicy::SkipSingleton);
        let mut finished: ByteMap<MptValue> = ByteMap::new();
        std::mem::swap(&mut finished, &mut self.delta);
        self.intermediate = finished;
        self.delta_inc.clear();
        self.intermediate_root = delta_root;
        self.intermediate_padding = self.delta_padding;
        self.delta_padding =
        DeltaMptKeyPadding::from_roots(self.snapshot_root, self.intermediate_root);
        Ok(())
    }
}

} // verus!
