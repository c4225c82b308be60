//! The entry API: a one-shot handle on one key of a table, for "get or insert".
use vstd::prelude::*;

use crate::hasher::SimpleHasher;
use crate::key::TableKey;
use crate::table::HashTable;

verus! {

/// A handle on one key of a table, which it borrows exclusively until the
/// handle is consumed. `Occupied` when the key was present, `Vacant` when not.
pub enum Entry<'a, K, V, H> {
    Occupied { ht: &'a mut HashTable<K, V, H>, k: K },
    Vacant { ht: &'a mut HashTable<K, V, H>, k: K },
}

impl<'a, K: TableKey, V, H: SimpleHasher<K>> Entry<'a, K, V, H> {
    /// The stored value of an occupied entry, `v` ignored; for a vacant one,
    /// stores `v` as a new entry (growing the table as `insert` does) and
    /// returns it. Writes through the result change the stored value.
    pub fn or_insert(self, v: V) -> (r: &'a mut V)
        requires
            match self {
                Entry::Occupied { ht, k } => {
                    &&& ht.wf()
                    &&& ht@.contains_key(k@)
                },
                Entry::Vacant { ht, k } => {
                    &&& ht.wf()
                    &&& !ht@.contains_key(k@)
                    &&& ht.grows_on_insert(k) ==> 2 * ht.capacity() <= usize::MAX
                },
            },
        ensures
            match self {
                Entry::Occupied { ht, k } => {
                    &&& *r == ht@[k@]
                    &&& final(ht).wf()
                    &&& final(ht)@ == ht@.insert(k@, *final(r))
                    &&& final(ht).capacity() == ht.capacity()
                },
                Entry::Vacant { ht, k } => {
                    &&& *r == v
                    &&& final(ht).wf()
                    &&& final(ht)@ == ht@.insert(k@, *final(r))
                    &&& final(ht).capacity() == ht.capacity_after_insert(k)
                },
            },
    {
        match self {
            Entry::Occupied { ht, k } => ht.get_mut(&k).unwrap(),
            Entry::Vacant { ht, k } => {
                let hash = ht.hash_key(&k);
                ht.insert_vacant(k, v, hash)
            },
        }
    }
}

} // verus!
