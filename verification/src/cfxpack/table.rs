//! Lookup tables: values that blocks and transactions refer to by place.
use crate::bytemap::ByteMap;
use crate::bytes::to_vec;
use crate::cfxpack::error::PackError;
use crate::cfxpack::packet::views;
use crate::cfxpack::types::{Address, U256};
use vstd::prelude::*;

verus! {

/// The last place at which `v` stands in a table.
pub open spec fn last_index(table: Seq<Seq<u8>>, v: Seq<u8>) -> Option<nat>
    decreases table.len(),
{
    if table.len() == 0 {
        None
    } else if table.last() == v {
        Some((table.len() - 1) as nat)
    } else {
        last_index(table.drop_last(), v)
    }
}

pub proof fn lemma_last_index(table: Seq<Seq<u8>>, v: Seq<u8>)
    ensures
        last_index(table, v) matches Some(i) ==> i < table.len() && table[i as int] == v,
    decreases table.len(),
{
    if table.len() > 0 && table.last() != v {
        lemma_last_index(table.drop_last(), v);
    }
}

/// The places of the values of a table.
pub struct TableIndex {
    places: ByteMap<usize>,
}

impl TableIndex {
    /// The index is that of `table`.
    pub closed spec fn is_of(&self, table: Seq<Seq<u8>>) -> bool {
        &&& self.places.wf()
        &&& forall|v: Seq<u8>|
            match #[trigger] last_index(table, v) {
                Some(i) => self.places@.contains_key(v) && self.places@[v] == i,
                None => !self.places@.contains_key(v),
            }
    }

    fn add_value(&mut self, Ghost(table): Ghost<Seq<Seq<u8>>>, v: &[u8], place: usize)
        requires
            old(self).is_of(table),
            place == table.len(),
        ensures
            final(self).is_of(table.push(v@)),
    {
        self.places.insert(to_vec(v), place);
        proof {
            let after = table.push(v@);
            assert(after.drop_last() =~= table);
            assert forall|w: Seq<u8>|
                match #[trigger] last_index(after, w) {
                    Some(i) => self.places@.contains_key(w) && self.places@[w] == i,
                    None => !self.places@.contains_key(w),
                } by {
                assert(match last_index(table, w) {
                    Some(i) => old(self).places@.contains_key(w) && old(self).places@[w] == i,
                    None => !old(self).places@.contains_key(w),
                });
            }
        }
    }

    /// The index of a table of addresses.
    pub fn of_addresses(table: &Vec<Address>) -> (r: Self)
        ensures
            r.is_of(views(table@)),
    {
        let mut r = TableIndex { places: ByteMap::new() };
        let ghost all = views(table@);
        let mut i: usize = 0;
        proof {
            assert(all.take(0) =~= Seq::empty());
        }
        while i < table.len()
            invariant
                i <= table@.len(),
                all == views(table@),
                r.is_of(all.take(i as int)),
            decreases table@.len() - i,
        {
            r.add_value(Ghost(all.take(i as int)), &table[i].0, i);
            proof {
                assert(all.take(i + 1) =~= all.take(i as int).push(table@[i as int]@));
            }
            i += 1;
        }
        proof {
            assert(all.take(i as int) =~= all);
        }
        r
    }

    /// The index of a table of words.
    pub fn of_words(table: &Vec<U256>) -> (r: Self)
        ensures
            r.is_of(views(table@)),
    {
        let mut r = TableIndex { places: ByteMap::new() };
        let ghost all = views(table@);
        let mut i: usize = 0;
        proof {
            assert(all.take(0) =~= Seq::empty());
        }
        while i < table.len()
            invariant
                i <= table@.len(),
                all == views(table@),
                r.is_of(all.take(i as int)),
            decreases table@.len() - i,
        {
            r.add_value(Ghost(all.take(i as int)), &table[i].0, i);
            proof {
                assert(all.take(i + 1) =~= all.take(i as int).push(table@[i as int]@));
            }
            i += 1;
        }
        proof {
            assert(all.take(i as int) =~= all);
        }
        r
    }

    /// The last place of `v` in the table.
    pub fn get(&self, Ghost(table): Ghost<Seq<Seq<u8>>>, v: &[u8]) -> (r: Option<usize>)
        requires
            self.is_of(table),
        ensures
            match r {
                Some(i) => last_index(table, v@) == Some(i as nat),
                None => last_index(table, v@) is None,
            },
    {
        proof {
            assert(match last_index(table, v@) {
                Some(i) => self.places@.contains_key(v@) && self.places@[v@] == i,
                None => !self.places@.contains_key(v@),
            });
        }
        match self.places.get(v) {
            Some(i) => Some(*i),
            None => None,
        }
    }
}

/// The entry of a table at a place.
pub open spec fn table_at(table: Seq<Seq<u8>>, i: nat) -> Result<Seq<u8>, PackError> {
    if i < table.len() {
        Ok(table[i as int])
    } else {
        Err(PackError::TableIndex)
    }
}

/// The address at a place of a table.
pub fn address_at(table: &Vec<Address>, i: u64) -> (r: Result<Address, PackError>)
    ensures
        match r {
            Ok(a) => table_at(views(table@), i as nat) == Ok::<Seq<u8>, PackError>(a@),
            Err(e) => table_at(views(table@), i as nat) == Err::<Seq<u8>, PackError>(e),
        },
{
    if i < table.len() as u64 {
        Ok(table[i as usize])
    } else {
        Err(PackError::TableIndex)
    }
}

/// The word at a place of a table.
pub fn word_at(table: &Vec<U256>, i: u64) -> (r: Result<U256, PackError>)
    ensures
        match r {
            Ok(w) => table_at(views(table@), i as nat) == Ok::<Seq<u8>, PackError>(w@),
            Err(e) => table_at(views(table@), i as nat) == Err::<Seq<u8>, PackError>(e),
        },
{
    if i < table.len() as u64 {
        Ok(table[i as usize])
    } else {
        Err(PackError::TableIndex)
    }
}

} // verus!
