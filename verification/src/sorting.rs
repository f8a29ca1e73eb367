//! Sorting numbers by the total order of their bit patterns.

use crate::num::Num;
use vstd::multiset::Multiset;
use vstd::prelude::*;

verus! {

/// Ascending in the total order.
pub open spec fn ascending(s: Seq<Num>) -> bool {
    forall|i: int, j: int| 0 <= i <= j < s.len() ==> s[i].rank() <= s[j].rank()
}

/// `t` holds the elements of `s` in ascending order.
pub open spec fn is_sorting(s: Seq<Num>, t: Seq<Num>) -> bool {
    ascending(t) && t.to_multiset() == s.to_multiset()
}

/// The elements of `s` in ascending order.
pub open spec fn sorted(s: Seq<Num>) -> Seq<Num> {
    choose|t: Seq<Num>| is_sorting(s, t)
}

/// There is only one way to sort: the order tells all bit patterns apart.
pub proof fn lemma_sorted_unique(s: Seq<Num>, a: Seq<Num>, b: Seq<Num>)
    requires
        is_sorting(s, a),
        is_sorting(s, b),
    ensures
        a == b,
    decreases a.len(),
{
    broadcast use vstd::seq_lib::group_to_multiset_ensures;

    a.to_multiset_ensures();
    b.to_multiset_ensures();
    assert(a.len() == b.len());
    if a.len() > 0 {
        let (x, y) = (a.last(), b.last());
        assert(a.to_multiset().count(x) > 0) by {
            assert(a.contains(x));
        }
        assert(b.to_multiset().count(y) > 0) by {
            assert(b.contains(y));
        }
        assert(b.contains(x));
        assert(a.contains(y));
        let i = choose|i: int| 0 <= i < b.len() && b[i] == x;
        let j = choose|j: int| 0 <= j < a.len() && a[j] == y;
        assert(x.rank() <= y.rank()) by {
            assert(b[i].rank() <= b[b.len() - 1].rank());
        }
        assert(y.rank() <= x.rank()) by {
            assert(a[j].rank() <= a[a.len() - 1].rank());
        }
        assert(x == y);
        assert(a =~= a.drop_last().push(x));
        assert(b =~= b.drop_last().push(x));
        assert(a.drop_last().to_multiset() =~= a.to_multiset().remove(x));
        assert(b.drop_last().to_multiset() =~= b.to_multiset().remove(x));
        lemma_sorted_unique(a.drop_last(), a.drop_last(), b.drop_last());
        assert(a =~= b);
    } else {
        assert(a =~= b);
    }
}

/// Every sequence has its sorting.
pub proof fn law_sorted_sorts(s: Seq<Num>)
    ensures
        is_sorting(s, sorted(s)),
        sorted(s).len() == s.len(),
{
    let less = |a: Num, b: Num| a.rank() < b.rank();
    let t = stable_sorted(s, less);
    law_stable_permutes(s, less);
    law_stable_is_ordered(s, less);
    lemma_stable_len(s, less);
    assert(ascending(t)) by {
        assert forall|i: int, j: int| 0 <= i <= j < t.len() implies t[i].rank() <= t[j].rank() by {
            if i < j {
                assert(!less(t[j], t[i]));
            }
        }
    }
    lemma_is_sorted(s, t);
}

/// A sorting is the sorting.
pub proof fn lemma_is_sorted(s: Seq<Num>, t: Seq<Num>)
    requires
        is_sorting(s, t),
    ensures
        sorted(s) == t,
        t.len() == s.len(),
{
    broadcast use vstd::seq_lib::group_to_multiset_ensures;

    s.to_multiset_ensures();
    t.to_multiset_ensures();
    let u = sorted(s);
    assert(is_sorting(s, u));
    lemma_sorted_unique(s, u, t);
}

/// Merges two ascending vectors.
fn merge(a: &Vec<Num>, b: &Vec<Num>) -> (r: Vec<Num>)
    requires
        ascending(a@),
        ascending(b@),
    ensures
        ascending(r@),
        r@.to_multiset() == a@.to_multiset().add(b@.to_multiset()),
{
    broadcast use vstd::seq_lib::group_to_multiset_ensures;

    let mut r: Vec<Num> = Vec::new();
    let mut i: usize = 0;
    let mut j: usize = 0;
    proof {
        assert(a@.take(0) =~= Seq::<Num>::empty());
        assert(b@.take(0) =~= Seq::<Num>::empty());
        assert(r@.to_multiset() =~= a@.take(0).to_multiset().add(b@.take(0).to_multiset()));
    }
    while i < a.len() || j < b.len()
        invariant
            i <= a@.len(),
            j <= b@.len(),
            ascending(a@),
            ascending(b@),
            ascending(r@),
            forall|k: int, m: int|
                0 <= k < r@.len() && i <= m < a@.len() ==> (#[trigger] r@[k]).rank() <= (
                #[trigger] a@[m]).rank(),
            forall|k: int, m: int|
                0 <= k < r@.len() && j <= m < b@.len() ==> (#[trigger] r@[k]).rank() <= (
                #[trigger] b@[m]).rank(),
            r@.to_multiset() == a@.take(i as int).to_multiset().add(
                b@.take(j as int).to_multiset(),
            ),
        decreases a@.len() - i + b@.len() - j,
    {
        let ghost was = r@;
        let ghost (i0, j0) = (i, j);
        let from_b: bool = i >= a.len() || (j < b.len() && b[j].before(a[i]));
        if from_b {
            proof {
                assert(b@.take(j + 1) =~= b@.take(j as int).push(b@[j as int]));
                b@.take(j as int).to_multiset_ensures();
                was.to_multiset_ensures();
            }
            r.push(b[j]);
            j = j + 1;
        } else {
            proof {
                assert(a@.take(i + 1) =~= a@.take(i as int).push(a@[i as int]));
                a@.take(i as int).to_multiset_ensures();
                was.to_multiset_ensures();
            }
            r.push(a[i]);
            i = i + 1;
        }
        proof {
            assert(r@.to_multiset() =~= a@.take(i as int).to_multiset().add(
                b@.take(j as int).to_multiset(),
            ));
        }
    }
    proof {
        assert(a@.take(i as int) =~= a@);
        assert(b@.take(j as int) =~= b@);
    }
    r
}

/// Sorts numbers ascending, by merging.
pub fn sort(v: &Vec<Num>) -> (r: Vec<Num>)
    ensures
        is_sorting(v@, r@),
        r@ == sorted(v@),
        r@.len() == v@.len(),
{
    let r = sort_range(v, 0, v.len());
    proof {
        assert(v@.subrange(0, v@.len() as int) =~= v@);
        lemma_is_sorted(v@, r@);
    }
    r
}

fn sort_range(v: &Vec<Num>, lo: usize, hi: usize) -> (r: Vec<Num>)
    requires
        lo <= hi <= v@.len(),
    ensures
        is_sorting(v@.subrange(lo as int, hi as int), r@),
    decreases hi - lo,
{
    broadcast use vstd::seq_lib::group_to_multiset_ensures;

    let mut r: Vec<Num> = Vec::new();
    if hi - lo == 0 {
        proof {
            assert(v@.subrange(lo as int, hi as int) =~= r@);
        }
        return r;
    }
    if hi - lo == 1 {
        r.push(v[lo]);
        proof {
            assert(v@.subrange(lo as int, hi as int) =~= r@);
        }
        return r;
    }
    let mid: usize = lo + (hi - lo) / 2;
    let a = sort_range(v, lo, mid);
    let b = sort_range(v, mid, hi);
    proof {
        let s = v@.subrange(lo as int, mid as int);
        let t = v@.subrange(mid as int, hi as int);
        assert(v@.subrange(lo as int, hi as int) =~= s + t);
        vstd::seq_lib::lemma_multiset_commutative(s, t);
    }
    merge(&a, &b)
}

/// Each element that differs from the one kept before it.
pub open spec fn deduped(s: Seq<Num>) -> Seq<Num>
    decreases s.len(),
{
    if s.len() == 0 {
        s
    } else {
        let d = deduped(s.drop_last());
        if d.len() > 0 && s.last().feq(d.last()) {
            d
        } else {
            d.push(s.last())
        }
    }
}

/// Drops each element that equals the one kept before it.
pub fn dedup(v: &Vec<Num>) -> (r: Vec<Num>)
    ensures
        r@ == deduped(v@),
{
    let mut r: Vec<Num> = Vec::new();
    let mut i: usize = 0;
    proof {
        assert(v@.take(0) =~= Seq::<Num>::empty());
        assert(r@ =~= deduped(v@.take(0)));
    }
    while i < v.len()
        invariant
            i <= v@.len(),
            r@ == deduped(v@.take(i as int)),
        decreases v@.len() - i,
    {
        proof {
            assert(v@.take(i + 1).drop_last() =~= v@.take(i as int));
        }
        if r.len() > 0 && v[i] == r[r.len() - 1] {
        } else {
            r.push(v[i]);
        }
        i = i + 1;
    }
    proof {
        assert(v@.take(i as int) =~= v@);
    }
    r
}

/// `x` put behind the last element that it is not less than.
pub open spec fn insert_stable<T>(t: Seq<T>, x: T, less: spec_fn(T, T) -> bool) -> Seq<T>
    decreases t.len(),
{
    if t.len() == 0 || !less(x, t.last()) {
        t.push(x)
    } else {
        insert_stable(t.drop_last(), x, less).push(t.last())
    }
}

/// The elements of `s` ordered by `less`, equals in their given order.
pub open spec fn stable_sorted<T>(s: Seq<T>, less: spec_fn(T, T) -> bool) -> Seq<T>
    decreases s.len(),
{
    if s.len() == 0 {
        s
    } else {
        insert_stable(stable_sorted(s.drop_last(), less), s.last(), less)
    }
}

/// Sorting keeps the length.
pub proof fn lemma_stable_len<T>(s: Seq<T>, less: spec_fn(T, T) -> bool)
    ensures
        stable_sorted(s, less).len() == s.len(),
    decreases s.len(),
{
    if s.len() > 0 {
        lemma_stable_len(s.drop_last(), less);
        lemma_insert_len(stable_sorted(s.drop_last(), less), s.last(), less);
    }
}

proof fn lemma_insert_len<T>(t: Seq<T>, x: T, less: spec_fn(T, T) -> bool)
    ensures
        insert_stable(t, x, less).len() == t.len() + 1,
    decreases t.len(),
{
    if t.len() > 0 && less(x, t.last()) {
        lemma_insert_len(t.drop_last(), x, less);
    }
}

/// Sorting neither loses nor invents an element.
pub proof fn law_stable_permutes<T>(s: Seq<T>, less: spec_fn(T, T) -> bool)
    ensures
        stable_sorted(s, less).to_multiset() == s.to_multiset(),
    decreases s.len(),
{
    if s.len() > 0 {
        law_stable_permutes(s.drop_last(), less);
        lemma_insert_multiset(stable_sorted(s.drop_last(), less), s.last(), less);
        assert(s =~= s.drop_last().push(s.last()));
        s.drop_last().to_multiset_ensures();
    }
}

/// Every element of a sorting is one of the sequence.
pub proof fn lemma_stable_member<T>(s: Seq<T>, less: spec_fn(T, T) -> bool, i: int)
    requires
        0 <= i < stable_sorted(s, less).len(),
    ensures
        s.contains(stable_sorted(s, less)[i]),
{
    broadcast use vstd::seq_lib::group_to_multiset_ensures;

    let t = stable_sorted(s, less);
    law_stable_permutes(s, less);
    assert(t.contains(t[i]));
    assert(s.to_multiset().count(t[i]) > 0);
}

proof fn lemma_insert_multiset<T>(t: Seq<T>, x: T, less: spec_fn(T, T) -> bool)
    ensures
        insert_stable(t, x, less).to_multiset() == t.to_multiset().insert(x),
    decreases t.len(),
{
    t.to_multiset_ensures();
    if t.len() > 0 && less(x, t.last()) {
        let r = insert_stable(t.drop_last(), x, less);
        lemma_insert_multiset(t.drop_last(), x, less);
        r.to_multiset_ensures();
        t.drop_last().to_multiset_ensures();
        assert(t =~= t.drop_last().push(t.last()));
        assert(r.push(t.last()).to_multiset() =~= t.to_multiset().insert(x));
    }
}

/// Whether an order suits the elements of a sequence: "not less" is transitive
/// among them, and of two elements not both are less than the other.
pub open spec fn suits<T>(s: Seq<T>, less: spec_fn(T, T) -> bool) -> bool {
    &&& forall|a: T, b: T, c: T| #![trigger less(a, b), less(b, c)]
        s.contains(a) && s.contains(b) && s.contains(c) && !less(a, b) && !less(b, c) ==> !less(a, c)
    &&& forall|a: T, b: T| s.contains(a) && s.contains(b) && #[trigger] less(a, b) ==> !less(b, a)
}

/// Where an order suits the elements, no element of the result is less than
/// one before it.
pub proof fn law_stable_is_ordered<T>(s: Seq<T>, less: spec_fn(T, T) -> bool)
    requires
        suits(s, less),
    ensures
        forall|i: int, j: int|
            0 <= i < j < s.len() ==> !less(
                #[trigger] stable_sorted(s, less)[j],
                #[trigger] stable_sorted(s, less)[i],
            ),
    decreases s.len(),
{
    lemma_stable_len(s, less);
    if s.len() > 0 {
        let r = s.drop_last();
        assert forall|a: T| r.contains(a) implies s.contains(a) by {
            let i = choose|i: int| 0 <= i < r.len() && r[i] == a;
            assert(s[i] == a);
        }
        assert(s[s.len() - 1] == s.last());
        law_stable_is_ordered(r, less);
        lemma_stable_len(r, less);
        let t = stable_sorted(r, less);
        assert forall|i: int| 0 <= i < t.len() implies s.contains(#[trigger] t[i]) by {
            lemma_stable_member(r, less, i);
        }
        lemma_insert_ordered(s, t, s.last(), less);
    }
}

proof fn lemma_insert_ordered<T>(s: Seq<T>, t: Seq<T>, x: T, less: spec_fn(T, T) -> bool)
    requires
        suits(s, less),
        s.contains(x),
        forall|i: int| 0 <= i < t.len() ==> s.contains(#[trigger] t[i]),
        forall|i: int, j: int| 0 <= i < j < t.len() ==> !less(#[trigger] t[j], #[trigger] t[i]),
    ensures
        insert_stable(t, x, less).len() == t.len() + 1,
        forall|i: int, j: int|
            0 <= i < j <= t.len() ==> !less(
                #[trigger] insert_stable(t, x, less)[j],
                #[trigger] insert_stable(t, x, less)[i],
            ),
        forall|k: int|
            0 <= k <= t.len() ==> (#[trigger] insert_stable(t, x, less)[k] == x || exists|m: int|
                0 <= m < t.len() && insert_stable(t, x, less)[k] == t[m]),
    decreases t.len(),
{
    let r = insert_stable(t, x, less);
    if t.len() == 0 || !less(x, t.last()) {
        assert forall|i: int, j: int| 0 <= i < j <= t.len() implies !less(
            #[trigger] r[j],
            #[trigger] r[i],
        ) by {
            if j == t.len() {
                let last = t[t.len() - 1];
                assert(!less(x, last));
                if i < t.len() - 1 {
                    assert(!less(last, t[i]));
                }
            }
        }
    } else {
        let d = t.drop_last();
        lemma_insert_ordered(s, d, x, less);
        let q = insert_stable(d, x, less);
        let last = t.last();
        assert(!less(last, x));
        assert forall|i: int, j: int| 0 <= i < j <= t.len() implies !less(
            #[trigger] r[j],
            #[trigger] r[i],
        ) by {
            if j == t.len() {
                assert(r[i] == q[i]);
                if q[i] != x {
                    let m = choose|m: int| 0 <= m < d.len() && q[i] == d[m];
                    assert(!less(t[t.len() - 1], t[m]));
                }
            } else {
                assert(r[i] == q[i] && r[j] == q[j]);
            }
        }
        assert forall|k: int| 0 <= k <= t.len() implies (#[trigger] r[k] == x || exists|m: int|
            0 <= m < t.len() && r[k] == t[m]) by {
            if k < t.len() {
                assert(r[k] == q[k]);
                if q[k] != x {
                    let m = choose|m: int| 0 <= m < d.len() && q[k] == d[m];
                    assert(r[k] == t[m]);
                }
            } else {
                assert(r[k] == t[t.len() - 1]);
            }
        }
    }
}

/// Sorts by insertion, equals in their given order.
pub fn sort_stable<T: Copy, F: Fn(T, T) -> bool>(
    v: &Vec<T>,
    less: F,
    Ghost(order): Ghost<spec_fn(T, T) -> bool>,
) -> (r: Vec<T>)
    requires
        forall|a: T, b: T| less.requires((a, b)),
        forall|a: T, b: T, c: bool| less.ensures((a, b), c) ==> c == order(a, b),
    ensures
        r@ == stable_sorted(v@, order),
        r@.len() == v@.len(),
{
    let mut r: Vec<T> = Vec::new();
    let mut i: usize = 0;
    proof {
        assert(v@.take(0) =~= Seq::<T>::empty());
        assert(r@ =~= stable_sorted(v@.take(0), order));
    }
    while i < v.len()
        invariant
            i <= v@.len(),
            r@.len() == i,
            r@ == stable_sorted(v@.take(i as int), order),
            forall|a: T, b: T| less.requires((a, b)),
            forall|a: T, b: T, c: bool| less.ensures((a, b), c) ==> c == order(a, b),
        decreases v@.len() - i,
    {
        let x = v[i];
        let ghost t = r@;
        let mut at: usize = r.len();
        proof {
            assert(v@.take(i + 1).drop_last() =~= v@.take(i as int));
            assert(t.take(at as int) =~= t);
            assert(t.skip(at as int) =~= Seq::<T>::empty());
            assert(insert_stable(t, x, order) =~= insert_stable(t.take(at as int), x, order)
                + t.skip(at as int));
        }
        while at > 0 && less(x, r[at - 1])
            invariant
                at <= r@.len(),
                t == r@,
                insert_stable(t, x, order) == insert_stable(t.take(at as int), x, order) + t.skip(
                    at as int,
                ),
                forall|a: T, b: T| less.requires((a, b)),
                forall|a: T, b: T, c: bool| less.ensures((a, b), c) ==> c == order(a, b),
            ensures
                at == 0 || !order(x, t[at - 1]),
            decreases at,
        {
            proof {
                let p = t.take(at as int);
                assert(p.last() == t[at - 1]);
                assert(p.drop_last() =~= t.take(at - 1));
                assert(t.skip(at - 1) =~= seq![t[at - 1]] + t.skip(at as int));
                assert(insert_stable(p, x, order) + t.skip(at as int) =~= insert_stable(
                    t.take(at - 1),
                    x,
                    order,
                ) + t.skip(at - 1));
            }
            at = at - 1;
        }
        proof {
            assert(insert_stable(t.take(at as int), x, order) =~= t.take(at as int).push(x));
            assert(t.insert(at as int, x) =~= t.take(at as int).push(x) + t.skip(at as int));
        }
        r.insert(at, x);
        i = i + 1;
    }
    proof {
        assert(v@.take(i as int) =~= v@);
    }
    r
}

} // verus!
