//! Properties that relate several operations, stated over the tables' views.
use vstd::prelude::*;

use crate::hasher::{ConstantHasher, SimpleHasher};
use crate::key::TableKey;
use crate::table::HashTable;

verus! {

/// Round trip: once `insert(k, v)` has turned `before` into `after`, looking
/// `k` up in `after` finds `v`, whatever the keys, values and hash strategy.
pub proof fn lemma_insert_then_get<K: TableKey, V, H: SimpleHasher<K>>(
    before: HashTable<K, V, H>,
    after: HashTable<K, V, H>,
    k: K,
    v: V,
)
    requires
        before.wf(),
        after@ == before@.insert(k@, v),
    ensures
        after@.contains_key(k@),
        after@[k@] == v,
{
}

/// Overwrite: inserting a key that is already present changes its value
/// alone; the set of keys, and so the number of live entries, stays as it was.
pub proof fn lemma_overwrite_keeps_count<K: TableKey, V, H: SimpleHasher<K>>(
    before: HashTable<K, V, H>,
    after: HashTable<K, V, H>,
    k: K,
    v: V,
)
    requires
        before.wf(),
        before@.contains_key(k@),
        after@ == before@.insert(k@, v),
    ensures
        after@[k@] == v,
        after@.dom() == before@.dom(),
        after@.len() == before@.len(),
{
    assert(after@.dom() =~= before@.dom());
}

/// Forced collision: under a strategy that gives every key the same value,
/// two distinct keys land in the same bucket, and after inserting both each
/// is still found with its own value.
pub proof fn lemma_constant_hash_keeps_keys_apart<K: TableKey, V>(
    t0: HashTable<K, V, ConstantHasher>,
    t1: HashTable<K, V, ConstantHasher>,
    t2: HashTable<K, V, ConstantHasher>,
    k1: K,
    v1: V,
    k2: K,
    v2: V,
)
    requires
        t0.wf(),
        k1@ != k2@,
        t1@ == t0@.insert(k1@, v1),
        t2@ == t1@.insert(k2@, v2),
    ensures
        <ConstantHasher as SimpleHasher<K>>::spec_hash(&t0.spec_hasher(), k1@)
            == <ConstantHasher as SimpleHasher<K>>::spec_hash(&t0.spec_hasher(), k2@),
        t2@.contains_key(k1@),
        t2@[k1@] == v1,
        t2@.contains_key(k2@),
        t2@[k2@] == v2,
{
}

/// Removal: after `remove(k)` the key is gone, so `get(k)` finds nothing; and
/// removing an absent key leaves the contents as they were.
pub proof fn lemma_remove_then_get<K: TableKey, V, H: SimpleHasher<K>>(
    before: HashTable<K, V, H>,
    after: HashTable<K, V, H>,
    k: K,
)
    requires
        before.wf(),
        after@ == before@.remove(k@),
    ensures
        !after@.contains_key(k@),
        !before@.contains_key(k@) ==> after@ == before@,
{
    if !before@.contains_key(k@) {
        assert(after@ =~= before@);
    }
}

} // verus!
