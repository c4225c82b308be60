//! The bucket store seen as a sequence of chains, and the facts about it
//! that every table operation relies on. Keys are told apart by their views.
use vstd::prelude::*;

use crate::hasher::SimpleHasher;

verus! {

/// The chain that a hash value selects in a store of `n` chains.
pub open spec fn chain_index(hash: u64, n: nat) -> int
    recommends
        n > 0,
{
    (hash as nat % n) as int
}

/// An entry whose key has view `k` and whose value is `v` sits at some
/// position of the store.
pub open spec fn stores<K: View, V>(c: Seq<Seq<(K, V)>>, k: K::V, v: V) -> bool {
    exists|b: int, p: int|
        #![trigger c[b][p]]
        0 <= b < c.len() && 0 <= p < c[b].len() && c[b][p].0@ == k && c[b][p].1 == v
}

/// The mapping from key views to values that a store holds.
pub open spec fn contents<K: View, V>(c: Seq<Seq<(K, V)>>) -> Map<K::V, V> {
    Map::new(|k: K::V| exists|v: V| stores(c, k, v), |k: K::V| choose|v: V| stores(c, k, v))
}

/// Every entry sits in the chain that its key hashes to.
pub open spec fn placed<K: View, V, H: SimpleHasher<K>>(c: Seq<Seq<(K, V)>>, h: H) -> bool {
    forall|b: int, p: int|
        #![trigger c[b][p]]
        0 <= b < c.len() && 0 <= p < c[b].len() ==> chain_index(h.spec_hash(c[b][p].0@), c.len())
            == b
}

/// No chain holds one key twice.
pub open spec fn distinct_keys<K: View, V>(c: Seq<Seq<(K, V)>>) -> bool {
    forall|b: int, p: int, q: int|
        #![trigger c[b][p], c[b][q]]
        0 <= b < c.len() && 0 <= p < c[b].len() && 0 <= q < c[b].len() && p != q ==> c[b][p].0@
            != c[b][q].0@
}

/// A non-empty store whose entries are placed by `h`, one entry per key.
pub open spec fn organised<K: View, V, H: SimpleHasher<K>>(c: Seq<Seq<(K, V)>>, h: H) -> bool {
    &&& c.len() > 0
    &&& placed(c, h)
    &&& distinct_keys(c)
}

/// In an organised store, two positions that hold one key are the same position.
pub proof fn lemma_one_position<K: View, V, H: SimpleHasher<K>>(
    c: Seq<Seq<(K, V)>>,
    h: H,
    b1: int,
    pa: int,
    b2: int,
    pb: int,
)
    requires
        organised(c, h),
        0 <= b1 < c.len(),
        0 <= pa < c[b1].len(),
        0 <= b2 < c.len(),
        0 <= pb < c[b2].len(),
        c[b1][pa].0@ == c[b2][pb].0@,
    ensures
        b1 == b2,
        pa == pb,
{
    assert(chain_index(h.spec_hash(c[b1][pa].0@), c.len()) == b1);
    assert(chain_index(h.spec_hash(c[b2][pb].0@), c.len()) == b2);
}

/// In an organised store a key is stored with one value at most.
pub proof fn lemma_one_value<K: View, V, H: SimpleHasher<K>>(
    c: Seq<Seq<(K, V)>>,
    h: H,
    k: K::V,
    v1: V,
    v2: V,
)
    requires
        organised(c, h),
        stores(c, k, v1),
        stores(c, k, v2),
    ensures
        v1 == v2,
{
    let (b1, pa) = choose|b: int, p: int|
        #![trigger c[b][p]]
        0 <= b < c.len() && 0 <= p < c[b].len() && c[b][p].0@ == k && c[b][p].1 == v1;
    let (b2, pb) = choose|b: int, p: int|
        #![trigger c[b][p]]
        0 <= b < c.len() && 0 <= p < c[b].len() && c[b][p].0@ == k && c[b][p].1 == v2;
    lemma_one_position(c, h, b1, pa, b2, pb);
}

/// An entry found at a position is what the store maps its key to.
pub proof fn lemma_found<K: View, V, H: SimpleHasher<K>>(c: Seq<Seq<(K, V)>>, h: H, b: int, p: int)
    requires
        organised(c, h),
        0 <= b < c.len(),
        0 <= p < c[b].len(),
    ensures
        contents(c).contains_key(c[b][p].0@),
        contents(c)[c[b][p].0@] == c[b][p].1,
{
    let k = c[b][p].0@;
    let v = c[b][p].1;
    assert(stores(c, k, v));
    let w = choose|w: V| stores(c, k, w);
    lemma_one_value(c, h, k, v, w);
}

/// A key that its own chain lacks is not in the store.
pub proof fn lemma_absent<K: View, V, H: SimpleHasher<K>>(c: Seq<Seq<(K, V)>>, h: H, k: K::V)
    requires
        organised(c, h),
        forall|p: int|
            0 <= p < c[chain_index(h.spec_hash(k), c.len())].len() ==> (#[trigger] c[chain_index(
                h.spec_hash(k),
                c.len(),
            )][p]).0@ != k,
    ensures
        !contents(c).contains_key(k),
{
    if contents(c).contains_key(k) {
        let v = choose|v: V| stores(c, k, v);
        let (b, p) = choose|b: int, p: int|
            #![trigger c[b][p]]
            0 <= b < c.len() && 0 <= p < c[b].len() && c[b][p].0@ == k && c[b][p].1 == v;
        assert(c[b][p].0@ == k);
    }
}

/// Two organised stores that hold the same entries have the same contents.
pub proof fn lemma_same_contents<K: View, V, H: SimpleHasher<K>>(
    c1: Seq<Seq<(K, V)>>,
    h1: H,
    c2: Seq<Seq<(K, V)>>,
    h2: H,
)
    requires
        organised(c1, h1),
        organised(c2, h2),
        forall|k: K::V, v: V| stores(c1, k, v) <==> stores(c2, k, v),
    ensures
        contents(c1) == contents(c2),
{
    assert forall|k: K::V| #[trigger] contents(c1).contains_key(k) implies contents(c1)[k]
        == contents(c2)[k] by {
        let v1 = choose|v: V| stores(c1, k, v);
        let v2 = choose|v: V| stores(c2, k, v);
        lemma_one_value(c1, h1, k, v1, v2);
    }
    assert(contents(c1) =~= contents(c2));
}

/// Contents after one key has been given the value `v` and the rest kept.
pub proof fn lemma_contents_set<K: View, V, H: SimpleHasher<K>>(
    c1: Seq<Seq<(K, V)>>,
    c2: Seq<Seq<(K, V)>>,
    h: H,
    k: K::V,
    v: V,
)
    requires
        organised(c1, h),
        organised(c2, h),
        forall|k2: K::V, v2: V| k2 != k ==> (stores(c2, k2, v2) <==> stores(c1, k2, v2)),
        stores(c2, k, v),
    ensures
        contents(c2) == contents(c1).insert(k, v),
{
    let m = contents(c1).insert(k, v);
    assert forall|k2: K::V| #[trigger] contents(c2).contains_key(k2) <==> m.contains_key(k2) by {
        if k2 != k {
            if contents(c2).contains_key(k2) {
                let w = choose|w: V| stores(c2, k2, w);
                assert(stores(c1, k2, w));
            }
            if contents(c1).contains_key(k2) {
                let w = choose|w: V| stores(c1, k2, w);
                assert(stores(c2, k2, w));
            }
        }
    }
    assert forall|k2: K::V| #[trigger] contents(c2).contains_key(k2) implies contents(c2)[k2]
        == m[k2] by {
        let w = choose|w: V| stores(c2, k2, w);
        if k2 == k {
            lemma_one_value(c2, h, k, v, w);
        } else {
            let u = choose|u: V| stores(c1, k2, u);
            assert(stores(c1, k2, w));
            lemma_one_value(c1, h, k2, u, w);
        }
    }
    assert(contents(c2) =~= m);
}

/// Contents after one key has left and the rest was kept.
pub proof fn lemma_contents_drop<K: View, V, H: SimpleHasher<K>>(
    c1: Seq<Seq<(K, V)>>,
    c2: Seq<Seq<(K, V)>>,
    h: H,
    k: K::V,
)
    requires
        organised(c1, h),
        organised(c2, h),
        forall|k2: K::V, v2: V| (stores(c2, k2, v2) <==> (k2 != k && stores(c1, k2, v2))),
    ensures
        contents(c2) == contents(c1).remove(k),
{
    let m = contents(c1).remove(k);
    assert forall|k2: K::V| #[trigger] contents(c2).contains_key(k2) <==> m.contains_key(k2) by {
        if contents(c2).contains_key(k2) {
            let w = choose|w: V| stores(c2, k2, w);
            assert(stores(c1, k2, w));
        }
        if k2 != k && contents(c1).contains_key(k2) {
            let w = choose|w: V| stores(c1, k2, w);
            assert(stores(c2, k2, w));
        }
    }
    assert forall|k2: K::V| #[trigger] contents(c2).contains_key(k2) implies contents(c2)[k2]
        == m[k2] by {
        let w = choose|w: V| stores(c2, k2, w);
        let u = choose|u: V| stores(c1, k2, u);
        assert(stores(c1, k2, w));
        lemma_one_value(c1, h, k2, u, w);
    }
    assert(contents(c2) =~= m);
}

/// What a store holds once `x` is appended to chain `b`.
pub proof fn lemma_stores_push<K: View, V>(c: Seq<Seq<(K, V)>>, b: int, x: (K, V))
    requires
        0 <= b < c.len(),
    ensures
        forall|k: K::V, v: V|
            #[trigger] stores(c.update(b, c[b].push(x)), k, v) <==> (stores(c, k, v) || (k == x.0@
                && v == x.1)),
{
    let d = c.update(b, c[b].push(x));
    assert forall|k: K::V, v: V| #[trigger] stores(d, k, v) <==> (stores(c, k, v) || (k == x.0@ && v
        == x.1)) by {
        if stores(d, k, v) {
            let (b2, pb) = choose|b2: int, pb: int|
                #![trigger d[b2][pb]]
                0 <= b2 < d.len() && 0 <= pb < d[b2].len() && d[b2][pb].0@ == k && d[b2][pb].1 == v;
            if b2 != b || pb < c[b].len() {
                assert(c[b2][pb] == d[b2][pb]);
            }
        }
        if stores(c, k, v) {
            let (b2, pb) = choose|b2: int, pb: int|
                #![trigger c[b2][pb]]
                0 <= b2 < c.len() && 0 <= pb < c[b2].len() && c[b2][pb].0@ == k && c[b2][pb].1 == v;
            assert(d[b2][pb] == c[b2][pb]);
        }
        if k == x.0@ && v == x.1 {
            assert(d[b][c[b].len() as int] == x);
        }
    }
}

/// Appending an entry whose key is absent to the chain its key hashes to keeps
/// the store organised and adds the entry to its contents.
pub proof fn lemma_push_new<K: View, V, H: SimpleHasher<K>>(c: Seq<Seq<(K, V)>>, h: H, k: K, v: V)
    requires
        organised(c, h),
        !contents(c).contains_key(k@),
    ensures
        ({
            let b = chain_index(h.spec_hash(k@), c.len());
            let d = c.update(b, c[b].push((k, v)));
            organised(d, h) && contents(d) == contents(c).insert(k@, v)
        }),
{
    let b = chain_index(h.spec_hash(k@), c.len());
    let d = c.update(b, c[b].push((k, v)));
    lemma_stores_push(c, b, (k, v));
    assert forall|b2: int, p: int, q: int|
        #![trigger d[b2][p], d[b2][q]]
        0 <= b2 < d.len() && 0 <= p < d[b2].len() && 0 <= q < d[b2].len() && p != q implies d[b2][p].0@
        != d[b2][q].0@ by {
        if b2 == b && (p == c[b].len() || q == c[b].len()) {
            let o = if p == c[b].len() {
                q
            } else {
                p
            };
            if d[b2][o].0@ == k@ {
                assert(stores(c, k@, c[b][o].1));
            }
        }
    }
    assert(placed(d, h));
    assert forall|k2: K::V, v2: V| k2 != k@ implies (stores(d, k2, v2) <==> stores(c, k2, v2)) by {}
    assert(stores(d, k@, v));
    lemma_contents_set(c, d, h, k@, v);
}

/// Putting `(k, v)` at position `p` of chain `b`, where a key with the view
/// of `k` sits, keeps the store organised and changes the contents at that
/// key alone; this holds for every value `v`.
pub proof fn lemma_set_value<K: View, V, H: SimpleHasher<K>>(
    c: Seq<Seq<(K, V)>>,
    h: H,
    b: int,
    p: int,
    k: K,
)
    requires
        organised(c, h),
        0 <= b < c.len(),
        0 <= p < c[b].len(),
        k@ == c[b][p].0@,
    ensures
        forall|v: V|
            {
                let d = #[trigger] c.update(b, c[b].update(p, (k, v)));
                organised(d, h) && contents(d) == contents(c).insert(k@, v)
            },
{
    assert forall|v: V|
        {
            let d = #[trigger] c.update(b, c[b].update(p, (k, v)));
            organised(d, h) && contents(d) == contents(c).insert(k@, v)
        } by {
        let d = c.update(b, c[b].update(p, (k, v)));
        assert forall|b2: int, pb: int| 0 <= b2 < d.len() && 0 <= pb < d[b2].len() implies (
        #[trigger] d[b2][pb]).0@ == c[b2][pb].0@ by {}
        assert(placed(d, h));
        assert(distinct_keys(d));
        assert forall|k2: K::V, v2: V| k2 != k@ implies (stores(d, k2, v2) <==> stores(c, k2, v2)) by {
            if stores(d, k2, v2) {
                let (b2, pb) = choose|b2: int, pb: int|
                    #![trigger d[b2][pb]]
                    0 <= b2 < d.len() && 0 <= pb < d[b2].len() && d[b2][pb].0@ == k2 && d[b2][pb].1
                        == v2;
                assert(c[b2][pb] == d[b2][pb]);
            }
            if stores(c, k2, v2) {
                let (b2, pb) = choose|b2: int, pb: int|
                    #![trigger c[b2][pb]]
                    0 <= b2 < c.len() && 0 <= pb < c[b2].len() && c[b2][pb].0@ == k2 && c[b2][pb].1
                        == v2;
                assert(d[b2][pb] == c[b2][pb]);
            }
        }
        assert(d[b][p] == (k, v));
        lemma_contents_set(c, d, h, k@, v);
    }
}

/// Taking the entry at position `p` of chain `b` out by moving the chain's last
/// entry into its place keeps the store organised and removes its key.
pub proof fn lemma_swap_remove<K: View, V, H: SimpleHasher<K>>(
    c: Seq<Seq<(K, V)>>,
    h: H,
    b: int,
    p: int,
)
    requires
        organised(c, h),
        0 <= b < c.len(),
        0 <= p < c[b].len(),
    ensures
        ({
            let d = c.update(b, c[b].update(p, c[b].last()).drop_last());
            organised(d, h) && contents(d) == contents(c).remove(c[b][p].0@)
        }),
{
    let k = c[b][p].0@;
    let n = c[b].len() - 1;
    let d = c.update(b, c[b].update(p, c[b].last()).drop_last());
    // the position in `c` that each position of `d` was taken from
    let from = |b2: int, q: int|
        if b2 == b && q == p {
            n
        } else {
            q
        };
    assert forall|b2: int, q: int| 0 <= b2 < d.len() && 0 <= q < d[b2].len() implies #[trigger] d[b2][q]
        == c[b2][from(b2, q)] && from(b2, q) < c[b2].len() && (b2 == b ==> from(b2, q) != p) by {}
    assert(placed(d, h));
    assert forall|b2: int, q1: int, q2: int|
        #![trigger d[b2][q1], d[b2][q2]]
        0 <= b2 < d.len() && 0 <= q1 < d[b2].len() && 0 <= q2 < d[b2].len() && q1 != q2 implies d[b2][q1].0@
        != d[b2][q2].0@ by {
        assert(d[b2][q1] == c[b2][from(b2, q1)]);
        assert(d[b2][q2] == c[b2][from(b2, q2)]);
    }
    assert forall|k2: K::V, v2: V| (stores(d, k2, v2) <==> (k2 != k && stores(c, k2, v2))) by {
        if stores(d, k2, v2) {
            let (b2, q) = choose|b2: int, q: int|
                #![trigger d[b2][q]]
                0 <= b2 < d.len() && 0 <= q < d[b2].len() && d[b2][q].0@ == k2 && d[b2][q].1 == v2;
            assert(d[b2][q] == c[b2][from(b2, q)]);
            if k2 == k {
                lemma_one_position(c, h, b, p, b2, from(b2, q));
            }
        }
        if k2 != k && stores(c, k2, v2) {
            let (b2, q) = choose|b2: int, q: int|
                #![trigger c[b2][q]]
                0 <= b2 < c.len() && 0 <= q < c[b2].len() && c[b2][q].0@ == k2 && c[b2][q].1 == v2;
            if b2 == b && q == n {
                assert(d[b][p] == c[b][n]);
            } else {
                assert(d[b2][q] == c[b2][q]);
            }
        }
    }
    lemma_contents_drop(c, d, h, k);
}

/// The position of the store that position `j` of the flattened store comes from.
pub proof fn lemma_flatten_at<T>(c: Seq<Seq<T>>, j: int) -> (bp: (int, int))
    requires
        0 <= j < c.flatten().len(),
    ensures
        0 <= bp.0 < c.len(),
        0 <= bp.1 < c[bp.0].len(),
        c.flatten()[j] == c[bp.0][bp.1],
    decreases c.len(),
{
    let r = c.drop_first();
    assert(c.flatten() == c[0] + r.flatten());
    if j < c[0].len() {
        (0, j)
    } else {
        let (b, p) = lemma_flatten_at(r, j - c[0].len());
        assert(c[b + 1] == r[b]);
        (b + 1, p)
    }
}

/// The position of the flattened store that position `p` of chain `b` reaches.
pub proof fn lemma_flatten_find<T>(c: Seq<Seq<T>>, b: int, p: int) -> (j: int)
    requires
        0 <= b < c.len(),
        0 <= p < c[b].len(),
    ensures
        0 <= j < c.flatten().len(),
        c.flatten()[j] == c[b][p],
    decreases c.len(),
{
    let r = c.drop_first();
    assert(c.flatten() == c[0] + r.flatten());
    if b == 0 {
        p
    } else {
        assert(c[b] == r[b - 1]);
        let j = lemma_flatten_find(r, b - 1, p);
        j + c[0].len()
    }
}

/// No key occurs at two positions of the store.
pub open spec fn unique_keys<K: View, V>(c: Seq<Seq<(K, V)>>) -> bool {
    forall|b1: int, pa: int, b2: int, pb: int|
        #![trigger c[b1][pa], c[b2][pb]]
        0 <= b1 < c.len() && 0 <= pa < c[b1].len() && 0 <= b2 < c.len() && 0 <= pb < c[b2].len()
            && c[b1][pa].0@ == c[b2][pb].0@ ==> b1 == b2 && pa == pb
}

/// When no key occurs at two positions, no key occurs twice in the flattened store.
pub proof fn lemma_flatten_unique<K: View, V>(c: Seq<Seq<(K, V)>>)
    requires
        unique_keys(c),
    ensures
        forall|i: int, j: int|
            0 <= i < j < c.flatten().len() ==> (#[trigger] c.flatten()[i]).0@ != (#[trigger] c.flatten()[j]).0@,
    decreases c.len(),
{
    if c.len() > 0 {
        let r = c.drop_first();
        assert forall|b1: int, pa: int, b2: int, pb: int|
            #![trigger r[b1][pa], r[b2][pb]]
            0 <= b1 < r.len() && 0 <= pa < r[b1].len() && 0 <= b2 < r.len() && 0 <= pb < r[b2].len()
                && r[b1][pa].0@ == r[b2][pb].0@ implies b1 == b2 && pa == pb by {
            assert(c[b1 + 1][pa] == r[b1][pa]);
            assert(c[b2 + 1][pb] == r[b2][pb]);
        }
        lemma_flatten_unique(r);
        let f = c.flatten();
        let n = c[0].len() as int;
        assert(f == c[0] + r.flatten());
        assert forall|i: int, j: int| 0 <= i < j < f.len() implies (#[trigger] f[i]).0@ != (#[trigger] f[j]).0@ by {
            if j < n {
                assert(f[i] == c[0][i] && f[j] == c[0][j]);
            } else if i >= n {
                assert(f[i] == r.flatten()[i - n] && f[j] == r.flatten()[j - n]);
            } else {
                let (b, p) = lemma_flatten_at(r, j - n);
                assert(c[b + 1][p] == r[b][p]);
                assert(f[i] == c[0][i]);
                assert(f[j] == c[b + 1][p]);
            }
        }
    }
}

/// An organised store has no key at two positions.
pub proof fn lemma_organised_unique<K: View, V, H: SimpleHasher<K>>(c: Seq<Seq<(K, V)>>, h: H)
    requires
        organised(c, h),
    ensures
        unique_keys(c),
{
    assert forall|b1: int, pa: int, b2: int, pb: int|
        #![trigger c[b1][pa], c[b2][pb]]
        0 <= b1 < c.len() && 0 <= pa < c[b1].len() && 0 <= b2 < c.len() && 0 <= pb < c[b2].len()
            && c[b1][pa].0@ == c[b2][pb].0@ implies b1 == b2 && pa == pb by {
        lemma_one_position(c, h, b1, pa, b2, pb);
    }
}

} // verus!
