//! A hash table with separate chaining, a pluggable hash strategy, growth by
//! doubling, an entry API, removal and full-table iteration.
mod chains;
mod entry;
mod hasher;
mod iter;
mod key;
mod laws;
mod table;

pub use entry::Entry;
pub use hasher::{
    ConstantHasher, DefaultSimpleHasher, SimpleHasher, default_str_hash, str_hash_writes,
};
pub use iter::{HashTableIterator, Keys};
pub use key::TableKey;
pub use laws::{
    lemma_constant_hash_keeps_keys_apart, lemma_insert_then_get, lemma_overwrite_keeps_count,
    lemma_remove_then_get,
};
pub use table::{DEFAULT_CAPACITY, HashTable, key_views, keys_of};
