//! The table engine: a store of chains, a count of live entries and a hash strategy.
use vstd::prelude::*;

use crate::chains::{
    chain_index, contents, distinct_keys, lemma_absent, lemma_flatten_at, lemma_flatten_find,
    lemma_flatten_unique, lemma_found, lemma_one_position, lemma_organised_unique, lemma_push_new,
    lemma_same_contents, lemma_set_value, lemma_stores_push, lemma_swap_remove, organised, placed,
    stores,
};
use crate::entry::Entry;
use crate::hasher::{DefaultSimpleHasher, SimpleHasher};
use crate::iter::{HashTableIterator, Keys};
use crate::key::TableKey;

verus! {

/// The number of buckets a table starts with unless told otherwise.
pub const DEFAULT_CAPACITY: usize = 10;

/// A hash table mapping unique keys to values, with separate chaining.
///
/// Its view is the mapping it holds, from the views of its keys to values.
pub struct HashTable<K, V, H = DefaultSimpleHasher> {
    buckets: Vec<Vec<(K, V)>>,
    total_entries: usize,
    hasher: H,
}

impl<K: View, V, H> View for HashTable<K, V, H> {
    type V = Map<K::V, V>;

    closed spec fn view(&self) -> Map<K::V, V> {
        contents(self.chains())
    }
}

/// The position of `k` in `chain`, if it is there.
fn find_in_chain<K: TableKey, V>(chain: &Vec<(K, V)>, k: &K) -> (r: Option<usize>)
    ensures
        match r {
            Some(i) => i < chain@.len() && chain@[i as int].0@ == k@,
            None => forall|i: int| 0 <= i < chain@.len() ==> chain@[i].0@ != k@,
        },
{
    let mut i: usize = 0;
    while i < chain.len()
        invariant
            i <= chain@.len(),
            forall|j: int| 0 <= j < i ==> chain@[j].0@ != k@,
        decreases chain@.len() - i,
    {
        if chain[i].0.key_eq(k) {
            return Some(i);
        }
        i += 1;
    }
    None
}

/// The views of a sequence of chains.
pub(crate) open spec fn chain_views<K, V>(chains: Seq<Vec<(K, V)>>) -> Seq<Seq<(K, V)>> {
    chains.map_values(|c: Vec<(K, V)>| c@)
}

/// The keys of a sequence of entries, in order.
pub open spec fn keys_of<K, V>(entries: Seq<(K, V)>) -> Seq<K> {
    entries.map_values(|e: (K, V)| e.0)
}

/// The views of the keys of a sequence of entries, in order.
pub open spec fn key_views<K: View, V>(entries: Seq<(K, V)>) -> Seq<K::V> {
    entries.map_values(|e: (K, V)| e.0@)
}

/// `n` empty chains.
fn empty_chains<K, V>(n: usize) -> (r: Vec<Vec<(K, V)>>)
    ensures
        r@.len() == n,
        forall|b: int| 0 <= b < n ==> (#[trigger] r@[b])@.len() == 0,
{
    let mut r: Vec<Vec<(K, V)>> = Vec::new();
    while r.len() < n
        invariant
            r@.len() <= n,
            forall|b: int| 0 <= b < r@.len() ==> (#[trigger] r@[b])@.len() == 0,
        decreases n - r@.len(),
    {
        r.push(Vec::new());
    }
    r
}

impl<K, V, H> HashTable<K, V, H> {
    /// The chains of the bucket store, in store order.
    spec fn chains(&self) -> Seq<Seq<(K, V)>> {
        chain_views(self.buckets@)
    }

    /// The number of buckets.
    pub closed spec fn spec_capacity(&self) -> usize {
        self.buckets@.len() as usize
    }

    /// Every entry, bucket by bucket in store order and in chain order within
    /// a bucket: the order of a full traversal.
    pub closed spec fn entries(&self) -> Seq<(K, V)> {
        self.chains().flatten()
    }

    /// A fresh traversal of every entry, in the order of `entries`.
    pub fn iter(&self) -> (r: HashTableIterator<'_, K, V>)
        ensures
            r.wf(),
            r.remaining() == self.entries(),
    {
        HashTableIterator::over(&self.buckets)
    }

    /// Consumes the table and returns its keys in traversal order.
    pub fn into_keys(self) -> (r: Keys<K>)
        ensures
            r@ == keys_of(self.entries()),
    {
        let ghost c = self.chains();
        let mut keys: Vec<K> = Vec::new();
        for chain in outer: self.buckets.into_iter()
            invariant
                chain_views(outer.seq()) == c,
                keys@ == keys_of(c.subrange(0, outer.index() as int).flatten()),
        {
            let ghost i = outer.index() as int;
            let ghost before = keys@;
            for entry in inner: chain.into_iter()
                invariant
                    0 <= i < c.len(),
                    inner.seq() == c[i],
                    keys@ == before + keys_of(c[i].subrange(0, inner.index() as int)),
            {
                let ghost j = inner.index() as int;
                let (k, _) = entry;
                keys.push(k);
                proof {
                    assert(keys_of(c[i].subrange(0, j + 1)) =~= keys_of(c[i].subrange(0, j)).push(k));
                }
            }
            proof {
                let s = c.subrange(0, i);
                assert(c.subrange(0, i + 1) =~= s.push(c[i]));
                s.lemma_flatten_push(c[i]);
                assert(c[i].subrange(0, c[i].len() as int) =~= c[i]);
                assert(keys_of(s.flatten() + c[i]) =~= keys_of(s.flatten()) + keys_of(c[i]));
            }
        }
        proof {
            assert(c.subrange(0, c.len() as int) =~= c);
        }
        Keys::from_vec(keys)
    }

    /// The current number of buckets.
    #[verifier::when_used_as_spec(spec_capacity)]
    pub fn capacity(&self) -> (r: usize)
        ensures
            r == self.spec_capacity(),
    {
        self.buckets.len()
    }
}

impl<K: TableKey, V, H: SimpleHasher<K>> HashTable<K, V, H> {
    /// The table's invariant: each entry sits in the bucket its key's hash
    /// selects, no key occurs twice, the counter holds the number of entries,
    /// and the load is at most three quarters.
    pub closed spec fn wf(&self) -> bool {
        &&& organised(self.chains(), self.hasher)
        &&& self@.dom().finite()
        &&& self.total_entries == self@.len()
        &&& 4 * self.total_entries <= 3 * self.buckets@.len()
    }

    /// A full traversal meets every entry of the table exactly once: as many
    /// entries as the table maps keys, no key twice, each with its value, and
    /// every key of the table among them.
    pub proof fn lemma_traversal_complete(&self)
        requires
            self.wf(),
        ensures
            self.entries().len() == self@.len(),
            key_views(self.entries()).no_duplicates(),
            forall|j: int|
                0 <= j < self.entries().len() ==> self@.contains_key(
                    (#[trigger] self.entries()[j]).0@,
                ) && self@[self.entries()[j].0@] == self.entries()[j].1,
            forall|k: K::V|
                #[trigger] self@.contains_key(k) ==> exists|j: int|
                    0 <= j < self.entries().len() && (#[trigger] self.entries()[j]).0@ == k,
    {
        let c = self.chains();
        let f = c.flatten();
        let ks = key_views(f);
        lemma_organised_unique(c, self.hasher);
        lemma_flatten_unique(c);
        assert forall|i: int, j: int| 0 <= i < ks.len() && 0 <= j < ks.len() && i != j implies ks[i]
            != ks[j] by {
            if i < j {
                assert(f[i].0@ != f[j].0@);
            } else {
                assert(f[j].0@ != f[i].0@);
            }
        }
        assert forall|j: int| 0 <= j < f.len() implies self@.contains_key((#[trigger] f[j]).0@)
            && self@[f[j].0@] == f[j].1 by {
            let (b, p) = lemma_flatten_at(c, j);
            lemma_found(c, self.hasher, b, p);
        }
        assert forall|k: K::V| #[trigger] self@.contains_key(k) implies exists|j: int|
            0 <= j < f.len() && (#[trigger] f[j]).0@ == k by {
            let v = choose|v: V| stores(c, k, v);
            let (b, p) = choose|b: int, p: int|
                #![trigger c[b][p]]
                0 <= b < c.len() && 0 <= p < c[b].len() && c[b][p].0@ == k && c[b][p].1 == v;
            let j = lemma_flatten_find(c, b, p);
            assert(f[j].0@ == k);
        }
        ks.unique_seq_to_set();
        assert forall|k: K::V| #[trigger] self@.dom().contains(k) <==> ks.to_set().contains(k) by {
            if self@.dom().contains(k) {
                let j = choose|j: int| 0 <= j < f.len() && (#[trigger] f[j]).0@ == k;
                assert(ks[j] == k);
            }
            if ks.to_set().contains(k) {
                let j = choose|j: int| 0 <= j < ks.len() && ks[j] == k;
                assert(f[j].0@ == k);
            }
        }
        assert(self@.dom() =~= ks.to_set());
    }

    /// The hash strategy the table was built with.
    pub closed spec fn spec_hasher(&self) -> H {
        self.hasher
    }

    /// Whether inserting `k` now grows the bucket store: `k` is new and the
    /// load after inserting it, `(len + 1) / capacity`, would exceed 3/4.
    pub open spec fn grows_on_insert(&self, k: K) -> bool {
        !self@.contains_key(k@) && 4 * (self@.len() + 1) > 3 * self.capacity()
    }

    /// The capacity after inserting `k`: doubled when the insertion grows the store.
    pub open spec fn capacity_after_insert(&self, k: K) -> int {
        if self.grows_on_insert(k) {
            2 * self.capacity()
        } else {
            self.capacity() as int
        }
    }

    /// A table with `capacity` empty buckets and the given strategy.
    fn with_capacity_and_hasher(capacity: usize, hasher: H) -> (r: Self)
        requires
            capacity > 0,
        ensures
            r.wf(),
            r@ == Map::<K::V, V>::empty(),
            r.capacity() == capacity,
            r.spec_hasher() == hasher,
    {
        let buckets = empty_chains::<K, V>(capacity);
        let r = HashTable { buckets, total_entries: 0, hasher };
        proof {
            let c = r.chains();
            assert forall|k: K::V| !(#[trigger] r@.contains_key(k)) by {
                if r@.contains_key(k) {
                    let v = choose|v: V| stores(c, k, v);
                    let (b, p) = choose|b: int, p: int|
                        #![trigger c[b][p]]
                        0 <= b < c.len() && 0 <= p < c[b].len() && c[b][p].0@ == k && c[b][p].1 == v;
                    assert(c[b].len() == 0);
                }
            }
            assert(r@ =~= Map::<K::V, V>::empty());
        }
        r
    }

    /// A table with the default number of buckets and the given strategy.
    pub fn with_hasher(hasher: H) -> (r: Self)
        ensures
            r.wf(),
            r@ == Map::<K::V, V>::empty(),
            r.capacity() == DEFAULT_CAPACITY,
            r.spec_hasher() == hasher,
    {
        Self::with_capacity_and_hasher(DEFAULT_CAPACITY, hasher)
    }

    /// The value the table's strategy gives `k`.
    pub(crate) fn hash_key(&self, k: &K) -> (r: u64)
        ensures
            r == self.spec_hasher().spec_hash(k@),
    {
        self.hasher.hash(k)
    }

    /// The bucket that `hash` selects.
    fn bucket_index(&self, hash: u64) -> (r: usize)
        requires
            self.buckets@.len() > 0,
        ensures
            r == chain_index(hash, self.buckets@.len()),
            r < self.buckets@.len(),
    {
        (hash % (self.buckets.len() as u64)) as usize
    }

    /// Doubles the bucket store and moves every entry to the chain its key
    /// selects under the new capacity, keeping the order in which entries are met.
    fn grow(&mut self)
        requires
            old(self).wf(),
            2 * old(self).buckets@.len() <= usize::MAX,
        ensures
            organised(final(self).chains(), final(self).hasher),
            final(self)@ == old(self)@,
            final(self).buckets@.len() == 2 * old(self).buckets@.len(),
            final(self).total_entries == old(self).total_entries,
            final(self).hasher == old(self).hasher,
    {
        let n = self.buckets.len() * 2;
        let mut fresh: Vec<Vec<(K, V)>> = empty_chains(n);
        let mut old_buckets: Vec<Vec<(K, V)>> = Vec::new();
        std::mem::swap(&mut self.buckets, &mut old_buckets);
        let ghost src = chain_views(old_buckets@);
        let ghost h = self.hasher;
        proof {
            assert(src == old(self).chains());
        }
        for chain in outer: old_buckets.into_iter()
            invariant
                fresh@.len() == n,
                n == 2 * src.len(),
                self.hasher == h,
                organised(src, h),
                chain_views(outer.seq()) == src,
                placed(chain_views(fresh@), h),
                distinct_keys(chain_views(fresh@)),
                forall|k: K::V, v: V|
                    #[trigger] stores(chain_views(fresh@), k, v) <==> stores(
                        src.subrange(0, outer.index() as int),
                        k,
                        v,
                    ),
        {
            let ghost i = outer.index() as int;
            for entry in inner: chain.into_iter()
                invariant
                    fresh@.len() == n,
                    n == 2 * src.len(),
                    self.hasher == h,
                    organised(src, h),
                    0 <= i < src.len(),
                    inner.seq() == src[i],
                    placed(chain_views(fresh@), h),
                    distinct_keys(chain_views(fresh@)),
                    forall|k: K::V, v: V|
                        #[trigger] stores(chain_views(fresh@), k, v) <==> (
                        stores(src.subrange(0, i), k, v) || exists|p: int|
                            0 <= p < inner.index() && (#[trigger] src[i][p]).0@ == k && src[i][p].1
                                == v),
            {
                let ghost c = chain_views(fresh@);
                let ghost j = inner.index() as int;
                let (k, v) = entry;
                let hash = self.hasher.hash(&k);
                let b = (hash % (n as u64)) as usize;
                proof {
                    assert((k, v) == src[i][j]);
                    assert forall|q: int| 0 <= q < c[b as int].len() implies (
                    #[trigger] c[b as int][q]).0@ != k@ by {
                        if c[b as int][q].0@ == k@ {
                            let w = c[b as int][q].1;
                            assert(stores(c, k@, w));
                            if stores(src.subrange(0, i), k@, w) {
                                let s = src.subrange(0, i);
                                let (i2, pb) = choose|i2: int, pb: int|
                                    #![trigger s[i2][pb]]
                                    0 <= i2 < s.len() && 0 <= pb < s[i2].len() && s[i2][pb].0@ == k@
                                        && s[i2][pb].1 == w;
                                lemma_one_position(src, h, i2, pb, i, j);
                            } else {
                                let pb = choose|pb: int|
                                    0 <= pb < j && (#[trigger] src[i][pb]).0@ == k@ && src[i][pb].1
                                        == w;
                                lemma_one_position(src, h, i, pb, i, j);
                            }
                        }
                    }
                    lemma_stores_push(c, b as int, (k, v));
                }
                let ghost x = (k, v);
                fresh[b].push((k, v));
                proof {
                    let d = chain_views(fresh@);
                    assert(d =~= c.update(b as int, c[b as int].push(x)));
                    assert forall|k2: K::V, v2: V| #[trigger] stores(d, k2, v2) <==> (stores(
                        src.subrange(0, i),
                        k2,
                        v2,
                    ) || exists|p: int|
                        0 <= p < j + 1 && (#[trigger] src[i][p]).0@ == k2 && src[i][p].1 == v2) by {
                        if exists|p: int|
                            0 <= p < j + 1 && (#[trigger] src[i][p]).0@ == k2 && src[i][p].1 == v2 {
                            let p = choose|p: int|
                                0 <= p < j + 1 && (#[trigger] src[i][p]).0@ == k2 && src[i][p].1
                                    == v2;
                            if p < j {
                                assert(stores(c, k2, v2));
                            }
                        }
                    }
                    assert forall|b2: int, q: int|
                        #![trigger d[b2][q]]
                        0 <= b2 < d.len() && 0 <= q < d[b2].len() implies chain_index(
                        h.spec_hash(d[b2][q].0@),
                        d.len(),
                    ) == b2 by {
                        if b2 != b || q < c[b as int].len() {
                            assert(d[b2][q] == c[b2][q]);
                        }
                    }
                    assert forall|b2: int, q1: int, q2: int|
                        #![trigger d[b2][q1], d[b2][q2]]
                        0 <= b2 < d.len() && 0 <= q1 < d[b2].len() && 0 <= q2 < d[b2].len() && q1
                            != q2 implies d[b2][q1].0@ != d[b2][q2].0@ by {
                        if b2 == b && q1 == c[b as int].len() {
                            assert(d[b2][q2] == c[b2][q2]);
                        } else if b2 == b && q2 == c[b as int].len() {
                            assert(d[b2][q1] == c[b2][q1]);
                        } else {
                            assert(d[b2][q1] == c[b2][q1]);
                            assert(d[b2][q2] == c[b2][q2]);
                        }
                    }
                }
            }
            proof {
                let d = chain_views(fresh@);
                let s1 = src.subrange(0, i + 1);
                assert forall|k: K::V, v: V| #[trigger] stores(d, k, v) <==> stores(s1, k, v) by {
                    if stores(s1, k, v) {
                        let (i2, pb) = choose|i2: int, pb: int|
                            #![trigger s1[i2][pb]]
                            0 <= i2 < s1.len() && 0 <= pb < s1[i2].len() && s1[i2][pb].0@ == k
                                && s1[i2][pb].1 == v;
                        if i2 < i {
                            assert(src.subrange(0, i)[i2][pb] == s1[i2][pb]);
                        } else {
                            assert(src[i][pb] == s1[i2][pb]);
                        }
                    }
                    if stores(src.subrange(0, i), k, v) {
                        let s0 = src.subrange(0, i);
                        let (i2, pb) = choose|i2: int, pb: int|
                            #![trigger s0[i2][pb]]
                            0 <= i2 < s0.len() && 0 <= pb < s0[i2].len() && s0[i2][pb].0@ == k
                                && s0[i2][pb].1 == v;
                        assert(s1[i2][pb] == s0[i2][pb]);
                    }
                    if exists|p: int|
                        0 <= p < src[i].len() && (#[trigger] src[i][p]).0@ == k && src[i][p].1 == v {
                        let p = choose|p: int|
                            0 <= p < src[i].len() && (#[trigger] src[i][p]).0@ == k && src[i][p].1
                                == v;
                        assert(s1[i][p] == src[i][p]);
                    }
                }
            }
        }
        proof {
            let d = chain_views(fresh@);
            assert(src.subrange(0, src.len() as int) =~= src);
            lemma_same_contents(src, h, d, h);
        }
        self.buckets = fresh;
    }

    /// The value stored under `k`, if any.
    pub fn get(&self, k: &K) -> (r: Option<&V>)
        requires
            self.wf(),
        ensures
            r == (if self@.contains_key(k@) {
                Some(&self@[k@])
            } else {
                None
            }),
    {
        let hash = self.hasher.hash(k);
        let b = self.bucket_index(hash);
        match find_in_chain(&self.buckets[b], k) {
            Some(i) => {
                proof {
                    lemma_found(self.chains(), self.hasher, b as int, i as int);
                }
                Some(&self.buckets[b][i].1)
            },
            None => {
                proof {
                    lemma_absent(self.chains(), self.hasher, k@);
                }
                None
            },
        }
    }

    /// Places a new entry, growing the store first when the projected load
    /// `(len + 1) / capacity` exceeds 3/4, and hands back its value's place.
    pub(crate) fn insert_vacant(&mut self, k: K, v: V, hash: u64) -> (r: &mut V)
        requires
            old(self).wf(),
            !old(self)@.contains_key(k@),
            hash == old(self).spec_hasher().spec_hash(k@),
            old(self).grows_on_insert(k) ==> 2 * old(self).capacity() <= usize::MAX,
        ensures
            *r == v,
            final(self).wf(),
            final(self)@ == old(self)@.insert(k@, *final(r)),
            final(self).capacity() == old(self).capacity_after_insert(k),
            final(self).spec_hasher() == old(self).spec_hasher(),
    {
        if (self.total_entries as u128 + 1) * 4 > self.buckets.len() as u128 * 3 {
            self.grow();
        }
        let b = self.bucket_index(hash);
        let ghost c = self.chains();
        let ghost key = k;
        proof {
            lemma_push_new(c, self.hasher, k, v);
        }
        self.buckets[b].push((k, v));
        self.total_entries += 1;
        let ghost d = self.chains();
        proof {
            let last = d[b as int].len() - 1;
            assert(d =~= c.update(b as int, c[b as int].push((key, v))));
            assert(d[b as int][last] == (key, v));
            lemma_set_value(d, self.hasher, b as int, last, d[b as int][last].0);
            assert forall|w: V| #[trigger] contents(d).insert(key@, w) == old(self)@.insert(key@, w) by {
                assert(contents(d).insert(key@, w) =~= old(self)@.insert(key@, w));
            }
        }
        let last = self.buckets[b].len() - 1;
        self.value_mut_at(b, last)
    }

    /// A mutable reference to the value at position `i` of chain `b`.
    fn value_mut_at(&mut self, b: usize, i: usize) -> (r: &mut V)
        requires
            b < old(self).chains().len(),
            i < old(self).chains()[b as int].len(),
        ensures
            *r == old(self).chains()[b as int][i as int].1,
            final(self).chains() == old(self).chains().update(
                b as int,
                old(self).chains()[b as int].update(
                    i as int,
                    (old(self).chains()[b as int][i as int].0, *final(r)),
                ),
            ),
            final(self).total_entries == old(self).total_entries,
            final(self).hasher == old(self).hasher,
    {
        &mut self.buckets[b][i].1
    }

    /// Stores `v` under `k`. Returns the value `k` held before, if any: an
    /// existing key's value is replaced in place and the store never grows for
    /// it; a new key may grow the store first (see `grows_on_insert`).
    pub fn insert(&mut self, k: K, v: V) -> (r: Option<V>)
        requires
            old(self).wf(),
            old(self).grows_on_insert(k) ==> 2 * old(self).capacity() <= usize::MAX,
        ensures
            final(self).wf(),
            final(self)@ == old(self)@.insert(k@, v),
            final(self).capacity() == old(self).capacity_after_insert(k),
            final(self).spec_hasher() == old(self).spec_hasher(),
            r == (if old(self)@.contains_key(k@) {
                Some(old(self)@[k@])
            } else {
                None
            }),
    {
        let hash = self.hasher.hash(&k);
        let b = self.bucket_index(hash);
        match find_in_chain(&self.buckets[b], &k) {
            Some(i) => {
                let ghost c = self.chains();
                proof {
                    lemma_found(c, self.hasher, b as int, i as int);
                    lemma_set_value(c, self.hasher, b as int, i as int, k);
                }
                let mut pair = (k, v);
                std::mem::swap(&mut self.buckets[b][i], &mut pair);
                proof {
                    assert(self.chains() =~= c.update(b as int, c[b as int].update(i as int, (k, v))));
                }
                Some(pair.1)
            },
            None => {
                proof {
                    lemma_absent(self.chains(), self.hasher, k@);
                }
                self.insert_vacant(k, v, hash);
                None
            },
        }
    }

    /// A mutable reference to the value stored under `k`, if any; what is
    /// written through it is what the table then maps `k` to.
    pub fn get_mut(&mut self, k: &K) -> (r: Option<&mut V>)
        requires
            old(self).wf(),
        ensures
            final(self).wf(),
            final(self).capacity() == old(self).capacity(),
            final(self).spec_hasher() == old(self).spec_hasher(),
            match r {
                Some(x) => {
                    &&& old(self)@.contains_key(k@)
                    &&& *x == old(self)@[k@]
                    &&& final(self)@ == old(self)@.insert(k@, *final(x))
                },
                None => !old(self)@.contains_key(k@) && *final(self) == *old(self),
            },
    {
        let hash = self.hasher.hash(k);
        let b = self.bucket_index(hash);
        match find_in_chain(&self.buckets[b], k) {
            Some(i) => {
                let ghost c = self.chains();
                proof {
                    lemma_found(c, self.hasher, b as int, i as int);
                    lemma_set_value(c, self.hasher, b as int, i as int, c[b as int][i as int].0);
                    assert(c[b as int][i as int].0@ == k@);
                    assert forall|w: V| #[trigger] contents(c).insert(k@, w).dom() == contents(c).dom() by {
                        assert(contents(c).insert(k@, w).dom() =~= contents(c).dom());
                    }
                }
                Some(self.value_mut_at(b, i))
            },
            None => {
                proof {
                    lemma_absent(self.chains(), self.hasher, k@);
                }
                None
            },
        }
    }

    /// A one-shot handle on `k`: `Occupied` when the table holds `k`, `Vacant`
    /// when not. The handle borrows the table until it is consumed.
    pub fn entry(&mut self, k: K) -> (r: Entry<'_, K, V, H>)
        requires
            old(self).wf(),
        ensures
            match r {
                Entry::Occupied { ht, k: key } => {
                    &&& key == k
                    &&& *ht == *old(self)
                    &&& old(self)@.contains_key(k@)
                    &&& *final(ht) == *final(self)
                },
                Entry::Vacant { ht, k: key } => {
                    &&& key == k
                    &&& *ht == *old(self)
                    &&& !old(self)@.contains_key(k@)
                    &&& *final(ht) == *final(self)
                },
            },
    {
        if self.get(&k).is_some() {
            Entry::Occupied { ht: self, k }
        } else {
            Entry::Vacant { ht: self, k }
        }
    }

    /// Takes `key` out of the table and returns its value, if it was there;
    /// the table is left unchanged when it was not.
    pub fn remove(&mut self, key: &K) -> (r: Option<V>)
        requires
            old(self).wf(),
        ensures
            final(self).wf(),
            final(self)@ == old(self)@.remove(key@),
            final(self).capacity() == old(self).capacity(),
            final(self).spec_hasher() == old(self).spec_hasher(),
            r == (if old(self)@.contains_key(key@) {
                Some(old(self)@[key@])
            } else {
                None
            }),
            !old(self)@.contains_key(key@) ==> *final(self) == *old(self),
    {
        let hash = self.hasher.hash(key);
        let b = self.bucket_index(hash);
        match find_in_chain(&self.buckets[b], key) {
            Some(i) => {
                let ghost c = self.chains();
                proof {
                    lemma_found(c, self.hasher, b as int, i as int);
                    lemma_swap_remove(c, self.hasher, b as int, i as int);
                }
                let (_, v) = self.buckets[b].swap_remove(i);
                self.total_entries -= 1;
                proof {
                    assert(self.chains() =~= c.update(
                        b as int,
                        c[b as int].update(i as int, c[b as int].last()).drop_last(),
                    ));
                }
                Some(v)
            },
            None => {
                proof {
                    lemma_absent(self.chains(), self.hasher, key@);
                    assert(old(self)@.remove(key@) =~= old(self)@);
                }
                None
            },
        }
    }
}

impl<K: TableKey, V> Default for HashTable<K, V, DefaultSimpleHasher> where
    DefaultSimpleHasher: SimpleHasher<K>,
 {
    fn default() -> (r: Self)
        ensures
            r.wf(),
            r@ == Map::<K::V, V>::empty(),
            r.capacity() == DEFAULT_CAPACITY,
    {
        Self::with_capacity_and_hasher(DEFAULT_CAPACITY, DefaultSimpleHasher::new())
    }
}

impl<K: TableKey, V> HashTable<K, V, DefaultSimpleHasher> where DefaultSimpleHasher: SimpleHasher<K> {
    /// An empty table with the default number of buckets and the default strategy.
    pub fn new() -> (r: Self)
        ensures
            r.wf(),
            r@ == Map::<K::V, V>::empty(),
            r.capacity() == DEFAULT_CAPACITY,
    {
        Self::default()
    }

    /// An empty table with `capacity` buckets and the default strategy.
    pub fn with_capacity(capacity: usize) -> (r: Self)
        requires
            capacity > 0,
        ensures
            r.wf(),
            r@ == Map::<K::V, V>::empty(),
            r.capacity() == capacity,
    {
        Self::with_capacity_and_hasher(capacity, DefaultSimpleHasher::new())
    }
}

} // verus!
