//! Hash strategies: what turns a key into the 64-bit seed of its bucket index.
use std::collections::hash_map::DefaultHasher;
use std::hash::Hash;
use std::hash::Hasher;

use vstd::prelude::*;
use vstd::std_specs::hash::DefaultHasherAdditionalSpecFns;

verus! {

/// A hash strategy for keys of type `K`.
///
/// `spec_hash` is the value the strategy gives a key; it is a function of the
/// key's view, so equal keys hash identically, while distinct keys may collide.
pub trait SimpleHasher<K: View> {
    spec fn spec_hash(&self, key: K::V) -> u64;

    fn hash(&self, key: &K) -> (r: u64)
        ensures
            r == self.spec_hash(key@),
    ;
}

/// The strategy a table uses unless it is given another: std's SipHash-based
/// `DefaultHasher`, started afresh for every key.
pub struct DefaultSimpleHasher;

impl DefaultSimpleHasher {
    pub(crate) fn new() -> (r: Self) {
        DefaultSimpleHasher
    }
}

// What `<str as Hash>::hash` writes into a hasher for a string of these characters.
pub uninterp spec fn str_hash_writes(s: Seq<char>) -> Seq<Seq<u8>>;

/// Relies on `<str as Hash>::hash`: the writes it makes depend on the string's
/// characters alone (its UTF-8 bytes and a terminating marker byte).
#[verifier::external_body]
fn write_str_to(s: &str, state: &mut DefaultHasher)
    ensures
        final(state)@ == old(state)@ + str_hash_writes(s@),
{
    s.hash(state)
}

/// The default hash of a string with these characters.
pub open spec fn default_str_hash(s: Seq<char>) -> u64 {
    DefaultHasher::spec_finish(str_hash_writes(s))
}

fn hash_str(s: &str) -> (r: u64)
    ensures
        r == default_str_hash(s@),
{
    let mut state = DefaultHasher::new();
    write_str_to(s, &mut state);
    assert(state@ =~= str_hash_writes(s@));
    state.finish()
}

impl SimpleHasher<String> for DefaultSimpleHasher {
    open spec fn spec_hash(&self, key: Seq<char>) -> u64 {
        default_str_hash(key)
    }

    fn hash(&self, key: &String) -> (r: u64) {
        hash_str(key.as_str())
    }
}

impl<'a> SimpleHasher<&'a str> for DefaultSimpleHasher {
    open spec fn spec_hash(&self, key: Seq<char>) -> u64 {
        default_str_hash(key)
    }

    fn hash(&self, key: &&'a str) -> (r: u64) {
        hash_str(*key)
    }
}

/// A degenerate strategy that gives every key the same value, so that every
/// key collides with every other.
pub struct ConstantHasher {
    pub value: u64,
}

impl ConstantHasher {
    pub fn new(value: u64) -> (r: Self)
        ensures
            r.value == value,
    {
        ConstantHasher { value }
    }
}

impl<K: View> SimpleHasher<K> for ConstantHasher {
    open spec fn spec_hash(&self, key: K::V) -> u64 {
        self.value
    }

    fn hash(&self, key: &K) -> (r: u64) {
        self.value
    }
}

} // verus!
