//! The snapshot layer: canonical keys with live values only.
use crate::bytemap::{keys_sorted, pairs_map, ByteMap};
use crate::bytes::to_boxed;
use crate::incremental::{all_live, kv_pairs, live_under, CachePolicy, IncrementalTrie};
use crate::trie::{layer_root, MptValue};
use crate::types::H256;
use vstd::prelude::*;

verus! {

/// The trie of a snapshot.
#[derive(Debug)]
pub struct SnapshotTrie {
    inner: IncrementalTrie,
}

impl View for SnapshotTrie {
    type V = Map<Seq<u8>, Option<Seq<u8>>>;

    closed spec fn view(&self) -> Map<Seq<u8>, Option<Seq<u8>>> {
        self.inner@
    }
}

impl Default for SnapshotTrie {
    fn default() -> (r: Self)
        ensures
            r.wf(),
            r@ == Map::<Seq<u8>, Option<Seq<u8>>>::empty(),
    {
        SnapshotTrie { inner: IncrementalTrie::new() }
    }
}

/// The records after `updates`: a live record is stored, a tombstone removes its key.
pub open spec fn updated(
    m: Map<Seq<u8>, Option<Seq<u8>>>,
    updates: Seq<(Seq<u8>, Option<Seq<u8>>)>,
) -> Map<Seq<u8>, Option<Seq<u8>>>
    decreases updates.len(),
{
    if updates.len() == 0 {
        m
    } else {
        let before = updated(m, updates.drop_last());
        let (key, value) = updates.last();
        if value is Some {
            before.insert(key, value)
        } else {
            before.remove(key)
        }
    }
}

impl SnapshotTrie {
    /// The trie is well formed.
    pub closed spec fn wf(&self) -> bool {
        self.inner.wf()
    }

    /// A well-formed trie holds finitely many records.
    pub(crate) proof fn lemma_finite(&self)
        requires
            self.wf(),
        ensures
            self@.dom().finite(),
    {
        self.inner.lemma_finite();
    }

    /// The trie of a canonical map.
    pub fn from_snapshot(snapshot: &ByteMap<Box<[u8]>>) -> (r: Self)
        requires
            snapshot.wf(),
        ensures
            r.wf(),
            r@ == all_live(snapshot@),
    {
        SnapshotTrie { inner: IncrementalTrie::from_snapshot(snapshot) }
    }

    /// Stores `value` under `key`.
    pub fn insert(&mut self, key: &[u8], value: MptValue)
        requires
            old(self).wf(),
        ensures
            final(self).wf(),
            final(self)@ == old(self)@.insert(key@, value@),
    {
        self.inner.insert(key, value);
    }

    /// Removes `key`.
    pub fn remove(&mut self, key: &[u8])
        requires
            old(self).wf(),
        ensures
            final(self).wf(),
            final(self)@ == old(self)@.remove(key@),
    {
        self.inner.remove(key);
    }

    /// Applies one update: a live record is stored, a tombstone removes its key.
    pub fn apply_update(&mut self, key: &[u8], value: MptValue)
        requires
            old(self).wf(),
        ensures
            final(self).wf(),
            final(self)@ == updated(old(self)@, seq![(key@, value@)]),
    {
        proof {
            reveal_with_fuel(updated, 2);
            assert(seq![(key@, value@)].drop_last() =~= Seq::empty());
        }
        match value {
            MptValue::Live(value) => self.insert(key, MptValue::Live(value)),
            MptValue::Tombstone => self.remove(key),
        }
    }

    /// Applies the updates one after another.
    pub fn apply_updates(&mut self, updates: &Vec<(Vec<u8>, MptValue)>)
        requires
            old(self).wf(),
        ensures
            final(self).wf(),
            final(self)@ == updated(
                old(self)@,
                Seq::new(updates@.len(), |i: int| (updates@[i].0@, updates@[i].1@)),
            ),
    {
        let ghost all = Seq::new(updates@.len(), |i: int| (updates@[i].0@, updates@[i].1@));
        let mut i: usize = 0;
        proof {
            assert(all.take(0) =~= Seq::empty());
        }
        while i < updates.len()
            invariant
                i <= updates@.len(),
                all == Seq::new(updates@.len(), |i: int| (updates@[i].0@, updates@[i].1@)),
                self.wf(),
                self@ == updated(old(self)@, all.take(i as int)),
            decreases updates@.len() - i,
        {
            self.apply_update(updates[i].0.as_slice(), updates[i].1.clone());
            proof {
                reveal_with_fuel(updated, 2);
                assert(seq![all[i as int]].drop_last() =~= Seq::empty());
                assert(all.take(i + 1).drop_last() =~= all.take(i as int));
            }
            i += 1;
        }
        proof {
            assert(all.take(i as int) =~= all);
        }
    }

    /// The Merkle root of the snapshot.
    pub fn root_with_policy(&mut self, cache_policy: CachePolicy) -> (r: H256)
        requires
            old(self).wf(),
        ensures
            final(self).wf(),
            final(self)@ == old(self)@,
            r@ == layer_root(old(self)@),
    {
        self.inner.root_with_policy(cache_policy)
    }

    /// The live value stored under `canonical`.
    pub fn snapshot_get_owned(&self, canonical: &[u8]) -> (r: Option<Box<[u8]>>)
        requires
            self.wf(),
        ensures
            match r {
                Some(v) => self@.contains_key(canonical@) && self@[canonical@] == Some(v@),
                None => !self@.contains_key(canonical@) || self@[canonical@] is None,
            },
    {
        match self.inner.snapshot_get(canonical) {
            Some(v) => Some(to_boxed(v)),
            None => None,
        }
    }

    /// The live records whose key starts with `canonical_prefix`, in key order.
    pub fn snapshot_scan_prefix(&self, canonical_prefix: &[u8]) -> (r: Vec<(Vec<u8>, Box<[u8]>)>)
        requires
            self.wf(),
        ensures
            keys_sorted(kv_pairs(r@)),
            pairs_map(kv_pairs(r@)) == live_under(self@, canonical_prefix@),
    {
        self.inner.snapshot_scan_prefix(canonical_prefix)
    }

    /// The live records as a canonical map.
    pub fn to_canonical_map(&self) -> (r: ByteMap<Box<[u8]>>)
        requires
            self.wf(),
        ensures
            r.wf(),
            r@ == live_under(self@, Seq::empty()),
    {
        self.inner.to_canonical_map()
    }

    /// Number of records.
    pub fn len(&self) -> (r: usize)
        requires
            self.wf(),
        ensures
            r == self@.len(),
    {
        self.inner.len()
    }
}

} // verus!
