//! Traversal of a table: a cursor over buckets and chain positions, and the
//! key sequence that a consumed table leaves behind.
use vstd::prelude::*;

use vstd::std_specs::iter::IteratorSpec;

use crate::table::chain_views;

verus! {

/// A cursor over a table's entries: it visits the buckets in store order
/// and, within a bucket, the chain in order, skipping exhausted chains.
pub struct HashTableIterator<'a, K, V> {
    buckets: &'a Vec<Vec<(K, V)>>,
    bucket: usize,
    pos: usize,
}

impl<'a, K, V> HashTableIterator<'a, K, V> {
    /// The cursor points into the store: at a bucket and a position of its
    /// chain, or past the last bucket.
    pub closed spec fn wf(&self) -> bool {
        let c = chain_views(self.buckets@);
        &&& self.bucket <= c.len()
        &&& self.bucket < c.len() ==> self.pos <= c[self.bucket as int].len()
    }

    /// The entries still to be visited, in visiting order.
    pub closed spec fn remaining(&self) -> Seq<(K, V)> {
        let c = chain_views(self.buckets@);
        if self.bucket < c.len() {
            c[self.bucket as int].subrange(self.pos as int, c[self.bucket as int].len() as int)
                + c.subrange(self.bucket + 1, c.len() as int).flatten()
        } else {
            Seq::empty()
        }
    }

    /// A cursor at the first position of the first bucket.
    pub(crate) fn over(buckets: &'a Vec<Vec<(K, V)>>) -> (r: Self)
        ensures
            r.wf(),
            r.remaining() == chain_views(buckets@).flatten(),
    {
        let r = HashTableIterator { buckets, bucket: 0, pos: 0 };
        proof {
            let c = chain_views(buckets@);
            if c.len() > 0 {
                assert(c.drop_first() =~= c.subrange(1, c.len() as int));
                assert(c[0].subrange(0, c[0].len() as int) =~= c[0]);
            }
        }
        r
    }

    /// The next entry, if any is left.
    pub fn next(&mut self) -> (r: Option<&'a (K, V)>)
        requires
            old(self).wf(),
        ensures
            final(self).wf(),
            match r {
                Some(e) => {
                    &&& old(self).remaining().len() > 0
                    &&& *e == old(self).remaining()[0]
                    &&& final(self).remaining() == old(self).remaining().drop_first()
                },
                None => {
                    &&& old(self).remaining().len() == 0
                    &&& final(self).remaining() == old(self).remaining()
                },
            },
    {
        let buckets: &'a Vec<Vec<(K, V)>> = self.buckets;
        while self.bucket < buckets.len()
            invariant
                self.buckets == buckets,
                self.wf(),
                self.remaining() == old(self).remaining(),
            decreases buckets@.len() - self.bucket, buckets@[self.bucket as int]@.len() - self.pos,
        {
            let ghost c = chain_views(buckets@);
            let ghost b = self.bucket as int;
            if self.pos < buckets[self.bucket].len() {
                let e = &buckets[self.bucket][self.pos];
                let ghost before = self.remaining();
                self.pos += 1;
                proof {
                    assert(self.remaining() =~= before.drop_first());
                }
                return Some(e);
            }
            self.bucket += 1;
            self.pos = 0;
            proof {
                let s = c.subrange(b + 1, c.len() as int);
                if b + 1 < c.len() {
                    assert(s.drop_first() =~= c.subrange(b + 2, c.len() as int));
                    assert(c[b + 1].subrange(0, c[b + 1].len() as int) =~= c[b + 1]);
                }
                assert(c[b].subrange(c[b].len() as int, c[b].len() as int) =~= Seq::<(K, V)>::empty());
                assert(self.remaining() =~= old(self).remaining());
            }
        }
        None
    }
}

/// The keys of a consumed table, in its traversal order.
pub struct Keys<K> {
    inner: Vec<K>,
}

impl<K> View for Keys<K> {
    type V = Seq<K>;

    closed spec fn view(&self) -> Seq<K> {
        self.inner@
    }
}

impl<K> Keys<K> {
    pub(crate) fn from_vec(inner: Vec<K>) -> (r: Self)
        ensures
            r@ == inner@,
    {
        Keys { inner }
    }
}

impl<K> IntoIterator for Keys<K> {
    type Item = K;

    type IntoIter = std::vec::IntoIter<K>;

    fn into_iter(self) -> (r: std::vec::IntoIter<K>)
        ensures
            r.remaining() == self@,
    {
        self.inner.into_iter()
    }
}

impl<'a, K> IntoIterator for &'a Keys<K> {
    type Item = &'a K;

    type IntoIter = std::slice::Iter<'a, K>;

    fn into_iter(self) -> (r: std::slice::Iter<'a, K>)
        ensures
            r.remaining() == self@.map_values(|k: K| &k),
    {
        self.inner.iter()
    }
}

} // verus!
