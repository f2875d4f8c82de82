//! Sorting, deduplication and search over values that carry a total order.

use vstd::prelude::*;
use vstd::relations::{sorted_by, total_ordering};
use vstd::seq_lib::{lemma_multiset_commutative, lemma_sorted_unique};

verus! {

/// A type whose values are ranked by a mathematical key under a total order.
pub trait Ordered: Sized {
    /// What a value is ranked by.
    type K;

    /// The key of a value.
    spec fn key(&self) -> Self::K;

    /// Whether key `a` comes no later than key `b`.
    spec fn le(a: Self::K, b: Self::K) -> bool;

    /// Every key comes no later than itself.
    proof fn lemma_le_reflexive(a: Self::K)
        ensures
            Self::le(a, a),
    ;

    /// Two keys that come no later than each other are the same key.
    proof fn lemma_le_antisymmetric(a: Self::K, b: Self::K)
        requires
            Self::le(a, b),
            Self::le(b, a),
        ensures
            a == b,
    ;

    /// What comes no later than a key comes no later than any key after it.
    proof fn lemma_le_transitive(a: Self::K, b: Self::K, c: Self::K)
        requires
            Self::le(a, b),
            Self::le(b, c),
        ensures
            Self::le(a, c),
    ;

    /// Of two keys, one comes no later than the other.
    proof fn lemma_le_connected(a: Self::K, b: Self::K)
        ensures
            Self::le(a, b) || Self::le(b, a),
    ;

    /// Whether `self` comes no later than `other`.
    fn precedes(&self, other: &Self) -> (r: bool)
        ensures
            r == Self::le(self.key(), other.key()),
    ;

    /// A second value with the same key.
    fn duplicate(&self) -> (r: Self)
        ensures
            r.key() == self.key(),
    ;
}

/// The order of `T`'s keys as a relation.
pub open spec fn order_of<T: Ordered>() -> spec_fn(T::K, T::K) -> bool {
    |a: T::K, b: T::K| T::le(a, b)
}

/// The keys of a sequence of values, in the same order.
pub open spec fn keys<T: Ordered>(s: Seq<T>) -> Seq<T::K> {
    Seq::new(s.len(), |i: int| s[i].key())
}

/// Whether each key comes strictly before every later one.
pub open spec fn strictly_sorted<T: Ordered>(s: Seq<T::K>) -> bool {
    forall|i: int, j: int| 0 <= i < j < s.len() ==> T::le(#[trigger] s[i], #[trigger] s[j]) && s[i] != s[j]
}

/// The order of keys is a total order.
pub proof fn lemma_order_total<T: Ordered>()
    ensures
        total_ordering(order_of::<T>()),
{
    let r = order_of::<T>();
    assert forall|a: T::K| #[trigger] r(a, a) by {
        T::lemma_le_reflexive(a);
    }
    assert forall|a: T::K, b: T::K| #[trigger] r(a, b) && #[trigger] r(b, a) implies a == b by {
        T::lemma_le_antisymmetric(a, b);
    }
    assert forall|a: T::K, b: T::K, c: T::K| #[trigger] r(a, b) && #[trigger] r(b, c) implies r(
        a,
        c,
    ) by {
        T::lemma_le_transitive(a, b, c);
    }
    assert forall|a: T::K, b: T::K| #[trigger] r(a, b) || #[trigger] r(b, a) by {
        T::lemma_le_connected(a, b);
    }
}

/// A strictly sorted sequence is fixed by the set of its keys.
pub proof fn lemma_strictly_sorted_unique<T: Ordered>(x: Seq<T::K>, y: Seq<T::K>)
    requires
        strictly_sorted::<T>(x),
        strictly_sorted::<T>(y),
        x.to_set() == y.to_set(),
    ensures
        x == y,
    decreases x.len(),
{
    if x.len() == 0 {
        if y.len() > 0 {
            assert(y.to_set().contains(y[0]));
            assert(x.to_set().contains(y[0]));
        }
        assert(x =~= y);
    } else {
        assert(x.to_set().contains(x[0]));
        assert(y.to_set().contains(x[0]));
        assert(y.len() > 0);
        assert(y.to_set().contains(y[0]));
        assert(x.to_set().contains(y[0]));
        let i = choose|i: int| 0 <= i < y.len() && y[i] == x[0];
        let j = choose|j: int| 0 <= j < x.len() && x[j] == y[0];
        if i != 0 && j != 0 {
            T::lemma_le_antisymmetric(x[0], y[0]);
        }
        assert(x[0] == y[0]);
        let xs = x.drop_first();
        let ys = y.drop_first();
        assert forall|k: T::K| xs.to_set().contains(k) <==> ys.to_set().contains(k) by {
            if xs.to_set().contains(k) {
                let a = choose|a: int| 0 <= a < xs.len() && xs[a] == k;
                assert(x[a + 1] == k);
                assert(x.to_set().contains(k));
                assert(y.to_set().contains(k));
                let b = choose|b: int| 0 <= b < y.len() && y[b] == k;
                assert(b != 0);
                assert(ys[b - 1] == k);
            }
            if ys.to_set().contains(k) {
                let a = choose|a: int| 0 <= a < ys.len() && ys[a] == k;
                assert(y[a + 1] == k);
                assert(y.to_set().contains(k));
                assert(x.to_set().contains(k));
                let b = choose|b: int| 0 <= b < x.len() && x[b] == k;
                assert(b != 0);
                assert(xs[b - 1] == k);
            }
        }
        assert(xs.to_set() =~= ys.to_set());
        assert forall|a: int, b: int| 0 <= a < b < xs.len() implies T::le(
            #[trigger] xs[a],
            #[trigger] xs[b],
        ) && xs[a] != xs[b] by {
            assert(xs[a] == x[a + 1] && xs[b] == x[b + 1]);
        }
        assert forall|a: int, b: int| 0 <= a < b < ys.len() implies T::le(
            #[trigger] ys[a],
            #[trigger] ys[b],
        ) && ys[a] != ys[b] by {
            assert(ys[a] == y[a + 1] && ys[b] == y[b + 1]);
        }
        lemma_strictly_sorted_unique::<T>(xs, ys);
        assert(x =~= seq![x[0]] + xs);
        assert(y =~= seq![y[0]] + ys);
    }
}

/// Merges two sorted vectors into one sorted vector that holds the keys of
/// both, each as often as the two hold it together.
fn merge<T: Ordered>(a: &Vec<T>, b: &Vec<T>) -> (r: Vec<T>)
    requires
        sorted_by(keys(a@), order_of::<T>()),
        sorted_by(keys(b@), order_of::<T>()),
    ensures
        sorted_by(keys(r@), order_of::<T>()),
        keys(r@).to_multiset() == keys(a@).to_multiset().add(keys(b@).to_multiset()),
{
    broadcast use vstd::seq_lib::group_to_multiset_ensures;

    let mut out: Vec<T> = Vec::new();
    let mut i: usize = 0;
    let mut j: usize = 0;
    let ghost ka = keys(a@);
    let ghost kb = keys(b@);
    assert(keys(out@) =~= Seq::<T::K>::empty());
    assert(ka.take(0) =~= Seq::<T::K>::empty());
    assert(kb.take(0) =~= Seq::<T::K>::empty());
    while i < a.len() || j < b.len()
        invariant
            i <= a.len(),
            j <= b.len(),
            ka == keys(a@),
            kb == keys(b@),
            sorted_by(ka, order_of::<T>()),
            sorted_by(kb, order_of::<T>()),
            sorted_by(keys(out@), order_of::<T>()),
            forall|k: int| 0 <= k < out.len() && i < a.len() ==> T::le(#[trigger] keys(out@)[k], ka[i as int]),
            forall|k: int| 0 <= k < out.len() && j < b.len() ==> T::le(#[trigger] keys(out@)[k], kb[j as int]),
            keys(out@).to_multiset() == ka.take(i as int).to_multiset().add(
                kb.take(j as int).to_multiset(),
            ),
        decreases (a.len() - i) + (b.len() - j),
    {
        let ghost prev = keys(out@);
        let from_a = if j >= b.len() {
            true
        } else if i >= a.len() {
            false
        } else {
            a[i].precedes(&b[j])
        };
        if from_a {
            let x = a[i].duplicate();
            out.push(x);
            proof {
                let k = ka[i as int];
                assert(keys(out@) =~= prev.push(k));
                assert(ka.take(i + 1) =~= ka.take(i as int).push(k));
                assert forall|p: int, q: int| 0 <= p < q < keys(out@).len() implies (order_of::<T>())(
                    keys(out@)[p],
                    keys(out@)[q],
                ) by {
                    if q < prev.len() {
                        assert((order_of::<T>())(prev[p], prev[q]));
                    } else {
                        assert(T::le(prev[p], k));
                    }
                }
                assert forall|p: int| 0 <= p < out.len() && i + 1 < a.len() implies T::le(
                    #[trigger] keys(out@)[p],
                    ka[i + 1],
                ) by {
                    assert((order_of::<T>())(ka[i as int], ka[i + 1]));
                    if p < prev.len() {
                        assert(T::le(prev[p], k));
                        T::lemma_le_transitive(prev[p], k, ka[i + 1]);
                    }
                }
                assert forall|p: int| 0 <= p < out.len() && j < b.len() implies T::le(
                    #[trigger] keys(out@)[p],
                    kb[j as int],
                ) by {
                    if p < prev.len() {
                        assert(T::le(prev[p], kb[j as int]));
                    }
                }
                vstd::seq_lib::to_multiset_build(prev, k);
                vstd::seq_lib::to_multiset_build(ka.take(i as int), k);
                assert(keys(out@).to_multiset() =~= ka.take(i + 1).to_multiset().add(
                    kb.take(j as int).to_multiset(),
                ));
            }
            i += 1;
        } else {
            let x = b[j].duplicate();
            out.push(x);
            proof {
                let k = kb[j as int];
                assert(keys(out@) =~= prev.push(k));
                assert(kb.take(j + 1) =~= kb.take(j as int).push(k));
                if i < a.len() {
                    T::lemma_le_connected(ka[i as int], k);
                }
                assert forall|p: int, q: int| 0 <= p < q < keys(out@).len() implies (order_of::<T>())(
                    keys(out@)[p],
                    keys(out@)[q],
                ) by {
                    if q < prev.len() {
                        assert((order_of::<T>())(prev[p], prev[q]));
                    } else {
                        assert(T::le(prev[p], k));
                    }
                }
                assert forall|p: int| 0 <= p < out.len() && j + 1 < b.len() implies T::le(
                    #[trigger] keys(out@)[p],
                    kb[j + 1],
                ) by {
                    assert((order_of::<T>())(kb[j as int], kb[j + 1]));
                    if p < prev.len() {
                        assert(T::le(prev[p], k));
                        T::lemma_le_transitive(prev[p], k, kb[j + 1]);
                    }
                }
                assert forall|p: int| 0 <= p < out.len() && i < a.len() implies T::le(
                    #[trigger] keys(out@)[p],
                    ka[i as int],
                ) by {
                    if p < prev.len() {
                        assert(T::le(prev[p], ka[i as int]));
                    }
                }
                vstd::seq_lib::to_multiset_build(prev, k);
                vstd::seq_lib::to_multiset_build(kb.take(j as int), k);
                assert(keys(out@).to_multiset() =~= ka.take(i as int).to_multiset().add(
                    kb.take(j + 1).to_multiset(),
                ));
            }
            j += 1;
        }
    }
    assert(ka.take(i as int) =~= ka);
    assert(kb.take(j as int) =~= kb);
    out
}

/// Sorts the part of `v` from `lo` up to `hi`.
fn sort_range<T: Ordered>(v: &Vec<T>, lo: usize, hi: usize) -> (r: Vec<T>)
    requires
        lo <= hi <= v.len(),
    ensures
        sorted_by(keys(r@), order_of::<T>()),
        keys(r@).to_multiset() == keys(v@.subrange(lo as int, hi as int)).to_multiset(),
    decreases hi - lo,
{
    let ghost part = v@.subrange(lo as int, hi as int);
    if hi - lo <= 1 {
        let mut out: Vec<T> = Vec::new();
        if hi - lo == 1 {
            out.push(v[lo].duplicate());
        }
        assert(keys(out@) =~= keys(part));
        out
    } else {
        let mid: usize = lo + (hi - lo) / 2;
        let left = sort_range(v, lo, mid);
        let right = sort_range(v, mid, hi);
        let out = merge(&left, &right);
        proof {
            let x = keys(v@.subrange(lo as int, mid as int));
            let y = keys(v@.subrange(mid as int, hi as int));
            assert(keys(part) =~= x + y);
            lemma_multiset_commutative(x, y);
        }
        out
    }
}

/// The values of `v` in ascending order of their keys.
pub fn sort<T: Ordered>(v: &Vec<T>) -> (r: Vec<T>)
    ensures
        keys(r@) == keys(v@).sort_by(order_of::<T>()),
{
    let out = sort_range(v, 0, v.len());
    proof {
        assert(v@.subrange(0, v.len() as int) =~= v@);
        lemma_order_total::<T>();
        keys(v@).lemma_sort_by_ensures(order_of::<T>());
        lemma_sorted_unique(keys(out@), keys(v@).sort_by(order_of::<T>()), order_of::<T>());
    }
    out
}

/// Drops from a sorted vector every value whose key an earlier value has.
pub(crate) fn dedup_sorted<T: Ordered>(v: &Vec<T>) -> (r: Vec<T>)
    requires
        sorted_by(keys(v@), order_of::<T>()),
    ensures
        strictly_sorted::<T>(keys(r@)),
        keys(r@).to_set() == keys(v@).to_set(),
{
    let mut out: Vec<T> = Vec::new();
    let ghost kv = keys(v@);
    let mut i: usize = 0;
    assert(keys(out@).to_set() =~= kv.take(0).to_set());
    while i < v.len()
        invariant
            i <= v.len(),
            kv == keys(v@),
            sorted_by(kv, order_of::<T>()),
            strictly_sorted::<T>(keys(out@)),
            keys(out@).to_set() == kv.take(i as int).to_set(),
            (i == 0) == (out.len() == 0),
            i > 0 ==> keys(out@)[out.len() - 1] == kv[i - 1],
        decreases v.len() - i,
    {
        let ghost prev = keys(out@);
        let ghost k = kv[i as int];
        let fresh = if out.len() == 0 {
            true
        } else {
            !v[i].precedes(&out[out.len() - 1])
        };
        proof {
            assert(kv.take(i + 1) =~= kv.take(i as int).push(k));
            if i > 0 {
                assert((order_of::<T>())(kv[i - 1], kv[i as int]));
                if !fresh {
                    T::lemma_le_antisymmetric(k, kv[i - 1]);
                } else {
                    T::lemma_le_reflexive(k);
                }
            }
        }
        if fresh {
            out.push(v[i].duplicate());
            proof {
                assert(keys(out@) =~= prev.push(k));
                assert forall|p: int, q: int| 0 <= p < q < keys(out@).len() implies T::le(
                    #[trigger] keys(out@)[p],
                    #[trigger] keys(out@)[q],
                ) && keys(out@)[p] != keys(out@)[q] by {
                    if q < prev.len() {
                        assert(T::le(prev[p], prev[q]) && prev[p] != prev[q]);
                    } else {
                        let last = prev[prev.len() - 1];
                        if p < prev.len() - 1 {
                            assert(T::le(prev[p], last) && prev[p] != last);
                            T::lemma_le_transitive(prev[p], last, k);
                            if prev[p] == k {
                                T::lemma_le_antisymmetric(k, last);
                            }
                        }
                    }
                }
                assert(keys(out@).to_set() =~= kv.take(i + 1).to_set()) by {
                    assert forall|x: T::K| keys(out@).to_set().contains(x) <==> kv.take(
                        i + 1,
                    ).to_set().contains(x) by {
                        lemma_push_set(prev, k, x);
                        lemma_push_set(kv.take(i as int), k, x);
                    }
                }
            }
        } else {
            proof {
                assert(kv.take(i + 1).to_set() =~= kv.take(i as int).to_set()) by {
                    assert forall|x: T::K| kv.take(i + 1).to_set().contains(x) <==> kv.take(
                        i as int,
                    ).to_set().contains(x) by {
                        lemma_push_set(kv.take(i as int), k, x);
                        assert(prev.to_set().contains(k)) by {
                            assert(prev[prev.len() - 1] == k);
                        }
                    }
                }
            }
        }
        i += 1;
    }
    assert(kv.take(i as int) =~= kv);
    out
}

/// What a sequence holds once one more value is pushed.
pub proof fn lemma_push_set<A>(s: Seq<A>, a: A, x: A)
    ensures
        s.push(a).to_set().contains(x) <==> (s.to_set().contains(x) || x == a),
{
    if s.push(a).to_set().contains(x) {
        let i = choose|i: int| 0 <= i < s.push(a).len() && s.push(a)[i] == x;
        if i < s.len() {
            assert(s[i] == x);
        }
    }
    if s.to_set().contains(x) {
        let i = choose|i: int| 0 <= i < s.len() && s[i] == x;
        assert(s.push(a)[i] == x);
    }
    if x == a {
        assert(s.push(a)[s.len() as int] == x);
    }
}

/// The values of `v` in strictly ascending order of their keys, one value for
/// each key that `v` holds.
pub fn sorted_set<T: Ordered>(v: &Vec<T>) -> (r: Vec<T>)
    ensures
        strictly_sorted::<T>(keys(r@)),
        keys(r@).to_set() == keys(v@).to_set(),
{
    let ascending = sorted(v);
    dedup_sorted(&ascending)
}

/// Sequences that hold the same values equally often hold the same values.
pub proof fn lemma_same_multiset_same_set<A>(x: Seq<A>, y: Seq<A>)
    requires
        x.to_multiset() == y.to_multiset(),
    ensures
        x.to_set() == y.to_set(),
{
    broadcast use vstd::seq_lib::group_to_multiset_ensures;

    assert forall|a: A| x.to_set().contains(a) <==> y.to_set().contains(a) by {
        assert(x.contains(a) <==> x.to_multiset().count(a) > 0);
        assert(y.contains(a) <==> y.to_multiset().count(a) > 0);
    }
    assert(x.to_set() =~= y.to_set());
}

/// Where in a sorted vector a value with the key of `x` stands, if the vector
/// holds one.
pub(crate) fn find_sorted<T: Ordered>(v: &Vec<T>, x: &T) -> (r: Option<usize>)
    requires
        sorted_by(keys(v@), order_of::<T>()),
    ensures
        match r {
            Some(i) => i < v.len() && keys(v@)[i as int] == x.key(),
            None => !keys(v@).contains(x.key()),
        },
{
    let ghost kv = keys(v@);
    let ghost kx = x.key();
    let mut lo: usize = 0;
    let mut hi: usize = v.len();
    while lo < hi
        invariant
            lo <= hi <= v.len(),
            kv == keys(v@),
            kx == x.key(),
            sorted_by(kv, order_of::<T>()),
            forall|k: int| 0 <= k < lo ==> #[trigger] kv[k] != kx,
            forall|k: int| hi <= k < v.len() ==> #[trigger] kv[k] != kx,
        decreases hi - lo,
    {
        let mid: usize = lo + (hi - lo) / 2;
        if v[mid].precedes(x) {
            if x.precedes(&v[mid]) {
                proof {
                    T::lemma_le_antisymmetric(kx, kv[mid as int]);
                }
                return Some(mid);
            }
            proof {
                assert forall|k: int| 0 <= k < mid + 1 implies #[trigger] kv[k] != kx by {
                    if k < mid && kv[k] == kx {
                        assert((order_of::<T>())(kv[k], kv[mid as int]));
                    }
                }
            }
            lo = mid + 1;
        } else {
            proof {
                assert forall|k: int| mid <= k < v.len() implies #[trigger] kv[k] != kx by {
                    if k > mid && kv[k] == kx {
                        assert((order_of::<T>())(kv[mid as int], kv[k]));
                    }
                    if kv[k] == kx && k == mid {
                        T::lemma_le_reflexive(kx);
                    }
                }
            }
            hi = mid;
        }
    }
    None
}

/// A strictly sorted sequence holds as many keys as the set of its keys.
pub proof fn lemma_strictly_sorted_len<T: Ordered>(s: Seq<T::K>)
    requires
        strictly_sorted::<T>(s),
    ensures
        s.to_set().finite(),
        s.to_set().len() == s.len(),
{
    vstd::seq_lib::seq_to_set_is_finite(s);
    assert(s.no_duplicates());
    s.unique_seq_to_set();
}

/// The values of `v` in ascending order, as a sorted sequence that holds what
/// `v` holds.
pub fn sorted<T: Ordered>(v: &Vec<T>) -> (r: Vec<T>)
    ensures
        sorted_by(keys(r@), order_of::<T>()),
        keys(r@).to_set() == keys(v@).to_set(),
        keys(r@) == keys(v@).sort_by(order_of::<T>()),
{
    let out = sort(v);
    proof {
        lemma_order_total::<T>();
        keys(v@).lemma_sort_by_ensures(order_of::<T>());
        lemma_same_multiset_same_set(keys(out@), keys(v@));
    }
    out
}

/// A value together with the place where it was found.
pub struct Placed<T> {
    pub item: T,
    pub at: usize,
}

/// The order of placed keys: by the key, then by the place.
pub open spec fn placed_le<T: Ordered>(a: (T::K, usize), b: (T::K, usize)) -> bool {
    if a.0 == b.0 {
        a.1 <= b.1
    } else {
        T::le(a.0, b.0)
    }
}

/// Placed values are ranked by the key of the value, then by the place.
impl<T: Ordered> Ordered for Placed<T> {
    type K = (T::K, usize);

    open spec fn key(&self) -> (T::K, usize) {
        (self.item.key(), self.at)
    }

    open spec fn le(a: (T::K, usize), b: (T::K, usize)) -> bool {
        placed_le::<T>(a, b)
    }

    proof fn lemma_le_reflexive(a: (T::K, usize)) {
    }

    proof fn lemma_le_antisymmetric(a: (T::K, usize), b: (T::K, usize)) {
        if a.0 != b.0 {
            T::lemma_le_antisymmetric(a.0, b.0);
        }
    }

    proof fn lemma_le_transitive(a: (T::K, usize), b: (T::K, usize), c: (T::K, usize)) {
        if a.0 != b.0 && b.0 != c.0 {
            T::lemma_le_transitive(a.0, b.0, c.0);
            if a.0 == c.0 {
                T::lemma_le_antisymmetric(a.0, b.0);
            }
        }
    }

    proof fn lemma_le_connected(a: (T::K, usize), b: (T::K, usize)) {
        T::lemma_le_connected(a.0, b.0);
    }

    fn precedes(&self, other: &Self) -> (r: bool) {
        proof {
            if T::le(self.item.key(), other.item.key()) && T::le(other.item.key(), self.item.key()) {
                T::lemma_le_antisymmetric(self.item.key(), other.item.key());
            }
            T::lemma_le_reflexive(self.item.key());
        }
        if self.item.precedes(&other.item) {
            if other.item.precedes(&self.item) {
                self.at <= other.at
            } else {
                true
            }
        } else {
            false
        }
    }

    fn duplicate(&self) -> (r: Self) {
        Placed { item: self.item.duplicate(), at: self.at }
    }
}

/// Whether two values have the same key.
pub fn same_key<T: Ordered>(a: &T, b: &T) -> (r: bool)
    ensures
        r == (a.key() == b.key()),
{
    proof {
        if T::le(a.key(), b.key()) && T::le(b.key(), a.key()) {
            T::lemma_le_antisymmetric(a.key(), b.key());
        }
        T::lemma_le_reflexive(a.key());
    }
    a.precedes(b) && b.precedes(a)
}

/// Of three placed keys in ascending order, the one in the middle has the key
/// that the first and the last share.
pub proof fn lemma_placed_between<T: Ordered>(a: (T::K, usize), b: (T::K, usize), c: (T::K, usize))
    requires
        placed_le::<T>(a, b),
        placed_le::<T>(b, c),
        a.0 == c.0,
    ensures
        b.0 == a.0,
{
    if b.0 != a.0 {
        T::lemma_le_antisymmetric(a.0, b.0);
    }
}

/// Where in a strictly ascending list of placed values those with the key of
/// `x` stand: from the first position returned up to the second.
pub(crate) fn find_run<T: Ordered>(list: &Vec<Placed<T>>, x: &T) -> (r: (usize, usize))
    requires
        strictly_sorted::<Placed<T>>(keys(list@)),
    ensures
        r.0 <= r.1 <= list.len(),
        forall|k: int| r.0 <= k < r.1 ==> (#[trigger] keys(list@)[k]).0 == x.key(),
        forall|k: int|
            0 <= k < list.len() && !(r.0 <= k < r.1) ==> (#[trigger] keys(list@)[k]).0 != x.key(),
{
    let ghost ks = keys(list@);
    let ghost kx = x.key();
    let mut lo: usize = 0;
    let mut hi: usize = list.len();
    let mut middle: Option<usize> = None;
    while lo < hi
        invariant_except_break
            middle is None,
        invariant
            lo <= hi <= list.len(),
            ks == keys(list@),
            kx == x.key(),
            strictly_sorted::<Placed<T>>(ks),
            forall|k: int| 0 <= k < lo ==> (#[trigger] ks[k]).0 != kx,
            forall|k: int| hi <= k < list.len() ==> (#[trigger] ks[k]).0 != kx,
        ensures
            match middle {
                Some(m) => m < list.len() && ks[m as int].0 == kx,
                None => lo >= hi,
            },
        decreases hi - lo,
    {
        let mid: usize = lo + (hi - lo) / 2;
        if list[mid].item.precedes(x) {
            if x.precedes(&list[mid].item) {
                proof {
                    T::lemma_le_antisymmetric(kx, ks[mid as int].0);
                }
                middle = Some(mid);
                break;
            }
            proof {
                assert forall|k: int| 0 <= k < mid + 1 implies (#[trigger] ks[k]).0 != kx by {
                    T::lemma_le_reflexive(kx);
                    if k < mid && ks[k].0 == kx {
                        assert(placed_le::<T>(ks[k], ks[mid as int]));
                    }
                }
            }
            lo = mid + 1;
        } else {
            proof {
                assert forall|k: int| mid <= k < list.len() implies (#[trigger] ks[k]).0 != kx by {
                    T::lemma_le_reflexive(kx);
                    if k > mid && ks[k].0 == kx {
                        assert(placed_le::<T>(ks[mid as int], ks[k]));
                    }
                }
            }
            hi = mid;
        }
    }
    let m = match middle {
        Some(m) => m,
        None => {
            return (0, 0);
        },
    };
    let mut first: usize = m;
    while first > 0 && same_key(&list[first - 1].item, x)
        invariant
            first <= m < list.len(),
            ks == keys(list@),
            kx == x.key(),
            forall|k: int| first <= k <= m ==> (#[trigger] ks[k]).0 == kx,
        decreases first,
    {
        first -= 1;
    }
    let mut end: usize = m + 1;
    while end < list.len() && same_key(&list[end].item, x)
        invariant
            m < end <= list.len(),
            ks == keys(list@),
            kx == x.key(),
            forall|k: int| m <= k < end ==> (#[trigger] ks[k]).0 == kx,
        decreases list.len() - end,
    {
        end += 1;
    }
    proof {
        assert forall|k: int| 0 <= k < list.len() && !(first <= k < end) implies (
        #[trigger] ks[k]).0 != kx by {
            if ks[k].0 == kx {
                if k < first {
                    assert(placed_le::<T>(ks[k], ks[first - 1]));
                    assert(placed_le::<T>(ks[first - 1], ks[m as int]));
                    lemma_placed_between::<T>(ks[k], ks[first - 1], ks[m as int]);
                } else {
                    assert(placed_le::<T>(ks[m as int], ks[end as int]));
                    assert(placed_le::<T>(ks[end as int], ks[k]));
                    lemma_placed_between::<T>(ks[m as int], ks[end as int], ks[k]);
                }
            }
        }
    }
    (first, end)
}

/// Integers are ranked by their size.
impl Ordered for u32 {
    type K = u32;

    open spec fn key(&self) -> u32 {
        *self
    }

    open spec fn le(a: u32, b: u32) -> bool {
        a <= b
    }

    proof fn lemma_le_reflexive(a: u32) {
    }

    proof fn lemma_le_antisymmetric(a: u32, b: u32) {
    }

    proof fn lemma_le_transitive(a: u32, b: u32, c: u32) {
    }

    proof fn lemma_le_connected(a: u32, b: u32) {
    }

    fn precedes(&self, other: &Self) -> (r: bool) {
        *self <= *other
    }

    fn duplicate(&self) -> (r: Self) {
        *self
    }
}

/// Absent or present integers are ranked with the absent one first, then by
/// their size.
impl Ordered for Option<u32> {
    type K = Option<u32>;

    open spec fn key(&self) -> Option<u32> {
        *self
    }

    open spec fn le(a: Option<u32>, b: Option<u32>) -> bool {
        match (a, b) {
            (None, _) => true,
            (Some(_), None) => false,
            (Some(x), Some(y)) => x <= y,
        }
    }

    proof fn lemma_le_reflexive(a: Option<u32>) {
    }

    proof fn lemma_le_antisymmetric(a: Option<u32>, b: Option<u32>) {
    }

    proof fn lemma_le_transitive(a: Option<u32>, b: Option<u32>, c: Option<u32>) {
    }

    proof fn lemma_le_connected(a: Option<u32>, b: Option<u32>) {
    }

    fn precedes(&self, other: &Self) -> (r: bool) {
        match (self, other) {
            (None, _) => true,
            (Some(_), None) => false,
            (Some(x), Some(y)) => *x <= *y,
        }
    }

    fn duplicate(&self) -> (r: Self) {
        *self
    }
}

/// For each key of a list of values, the places at which the list holds it.
/// Its view is the keys of the list, place by place.
pub struct Places<T: Ordered> {
    list: Vec<Placed<T>>,
    source: Ghost<Seq<T::K>>,
}

impl<T: Ordered> View for Places<T> {
    type V = Seq<T::K>;

    closed spec fn view(&self) -> Seq<T::K> {
        self.source@
    }
}

impl<T: Ordered> Places<T> {
    /// The list stands in ascending order and holds each key of the source
    /// once for each place where the source has it.
    #[verifier::type_invariant]
    spec fn wf(&self) -> bool {
        &&& strictly_sorted::<Placed<T>>(keys(self.list@))
        &&& self.source@.len() <= usize::MAX
        &&& forall|p: (T::K, usize)|
            #[trigger] keys(self.list@).contains(p) <==> p.1 < self.source@.len()
                && self.source@[p.1 as int] == p.0
    }

    /// The places of the keys of `items`.
    pub fn of(items: &Vec<T>) -> (r: Self)
        ensures
            r@ == keys(items@),
    {
        let mut found: Vec<Placed<T>> = Vec::new();
        let mut j: usize = 0;
        while j < items.len()
            invariant
                j <= items.len(),
                found.len() == j,
                forall|k: int| 0 <= k < j ==> #[trigger] keys(found@)[k] == (items@[k].key(), k as usize),
            decreases items.len() - j,
        {
            let ghost prev = keys(found@);
            found.push(Placed { item: items[j].duplicate(), at: j });
            assert(keys(found@) =~= prev.push((items@[j as int].key(), j)));
            j += 1;
        }
        let list = sorted_set(&found);
        let ghost source = keys(items@);
        proof {
            assert forall|p: (T::K, usize)| #[trigger]
                keys(list@).contains(p) <==> p.1 < source.len() && source[p.1 as int] == p.0 by {
                assert(keys(list@).contains(p) <==> keys(list@).to_set().contains(p));
                assert(keys(found@).contains(p) <==> keys(found@).to_set().contains(p));
                if keys(found@).contains(p) {
                    let k = choose|k: int| 0 <= k < found.len() && keys(found@)[k] == p;
                    assert(p == (items@[k].key(), k as usize));
                }
                if p.1 < source.len() && source[p.1 as int] == p.0 {
                    assert(keys(found@)[p.1 as int] == p);
                }
            }
        }
        Places { list, source: Ghost(source) }
    }

    /// The places at which the list holds the key of `x`, in ascending order.
    pub fn all(&self, x: &T) -> (r: Vec<usize>)
        ensures
            forall|i: int, j: int| 0 <= i < j < r.len() ==> r[i] < r[j],
            forall|i: int| 0 <= i < r.len() ==> (#[trigger] r[i]) < self@.len() && self@[r[i] as int] == x.key(),
            forall|p: usize| p < self@.len() && #[trigger] self@[p as int] == x.key() ==> r@.contains(p),
    {
        proof {
            use_type_invariant(self);
        }
        let ghost ks = keys(self.list@);
        let (first, end) = find_run(&self.list, x);
        let mut out: Vec<usize> = Vec::new();
        let mut k: usize = first;
        while k < end
            invariant
                first <= k <= end <= self.list.len(),
                ks == keys(self.list@),
                strictly_sorted::<Placed<T>>(ks),
                forall|i: int| first <= i < end ==> (#[trigger] ks[i]).0 == x.key(),
                out.len() == k - first,
                forall|i: int| 0 <= i < out.len() ==> #[trigger] out[i] == ks[first + i].1,
            decreases end - k,
        {
            out.push(self.list[k].at);
            k += 1;
        }
        proof {
            assert forall|i: int, j: int| 0 <= i < j < out.len() implies out[i] < out[j] by {
                assert(placed_le::<T>(ks[first + i], ks[first + j]) && ks[first + i] != ks[first
                    + j]);
            }
            assert forall|i: int| 0 <= i < out.len() implies (#[trigger] out[i]) < self@.len()
                && self@[out[i] as int] == x.key() by {
                assert(ks.contains(ks[first + i]));
            }
            assert forall|p: usize| p < self@.len() && #[trigger] self@[p as int] == x.key() implies out@.contains(
                p,
            ) by {
                let target = (x.key(), p);
                assert(ks.contains(target));
                let i = choose|i: int| 0 <= i < ks.len() && ks[i] == target;
                assert(first <= i < end);
                assert(out[i - first] == p);
            }
        }
        out
    }
}

/// The last place at which a list holds a key.
pub open spec fn last_place<K>(list: Seq<K>, key: K) -> Option<int>
    decreases list.len(),
{
    if list.len() == 0 {
        None
    } else if list.last() == key {
        Some(list.len() - 1)
    } else {
        last_place(list.drop_last(), key)
    }
}

/// The first place at which a list holds a key.
pub open spec fn first_place<K>(list: Seq<K>, key: K) -> Option<int>
    decreases list.len(),
{
    if list.len() == 0 {
        None
    } else {
        match first_place(list.drop_last(), key) {
            Some(p) => Some(p),
            None => if list.last() == key {
                Some(list.len() - 1)
            } else {
                None
            },
        }
    }
}

/// The last place of a key holds the key, and no later place does.
pub proof fn lemma_last_place<K>(list: Seq<K>, key: K)
    ensures
        match last_place(list, key) {
            Some(p) => 0 <= p < list.len() && list[p] == key && forall|q: int|
                p < q < list.len() ==> list[q] != key,
            None => forall|q: int| 0 <= q < list.len() ==> list[q] != key,
        },
    decreases list.len(),
{
    if list.len() > 0 && list.last() != key {
        lemma_last_place(list.drop_last(), key);
        assert forall|q: int| 0 <= q < list.len() - 1 implies list[q] == list.drop_last()[q] by {}
    }
}

/// The first place of a key holds the key, and no earlier place does.
pub proof fn lemma_first_place<K>(list: Seq<K>, key: K)
    ensures
        match first_place(list, key) {
            Some(p) => 0 <= p < list.len() && list[p] == key && forall|q: int|
                0 <= q < p ==> list[q] != key,
            None => forall|q: int| 0 <= q < list.len() ==> list[q] != key,
        },
    decreases list.len(),
{
    if list.len() > 0 {
        lemma_first_place(list.drop_last(), key);
        assert forall|q: int| 0 <= q < list.len() - 1 implies list[q] == list.drop_last()[q] by {}
    }
}

impl<T: Ordered> Places<T> {
    /// The last place at which the list holds the key of `x`.
    pub fn last(&self, x: &T) -> (r: Option<usize>)
        ensures
            match r {
                Some(p) => last_place(self@, x.key()) == Some(p as int),
                None => last_place(self@, x.key()) is None,
            },
    {
        let found = self.all(x);
        proof {
            use_type_invariant(self);
            lemma_last_place(self@, x.key());
            if last_place(self@, x.key()) is Some {
                let q = last_place(self@, x.key()).unwrap() as usize;
                assert(self@[q as int] == x.key());
                assert(found@.contains(q));
            }
        }
        if found.len() == 0 {
            None
        } else {
            let p = found[found.len() - 1];
            proof {
                assert(self@[p as int] == x.key());
                let q = last_place(self@, x.key()).unwrap() as usize;
                let i = choose|i: int| 0 <= i < found.len() && found[i] == q;
                if i < found.len() - 1 {
                    assert(found[i] < found[found.len() - 1]);
                }
            }
            Some(p)
        }
    }

    /// The first place at which the list holds the key of `x`.
    pub fn first(&self, x: &T) -> (r: Option<usize>)
        ensures
            match r {
                Some(p) => first_place(self@, x.key()) == Some(p as int),
                None => first_place(self@, x.key()) is None,
            },
    {
        let found = self.all(x);
        proof {
            use_type_invariant(self);
            lemma_first_place(self@, x.key());
            if first_place(self@, x.key()) is Some {
                let q = first_place(self@, x.key()).unwrap() as usize;
                assert(self@[q as int] == x.key());
                assert(found@.contains(q));
            }
        }
        if found.len() == 0 {
            None
        } else {
            let p = found[0];
            proof {
                assert(self@[p as int] == x.key());
                let q = first_place(self@, x.key()).unwrap() as usize;
                let i = choose|i: int| 0 <= i < found.len() && found[i] == q;
                if i > 0 {
                    assert(found[0] < found[i]);
                }
            }
            Some(p)
        }
    }
}

} // verus!
