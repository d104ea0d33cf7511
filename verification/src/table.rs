//! Tables: rows looked up, kept, changed and put in order, as the library's
//! queries need it.

use crate::seqs::views;
use vstd::prelude::*;

verus! {

/// The first row that satisfies `p`, if any does.
pub open spec fn first_where<A>(s: Seq<A>, p: spec_fn(A) -> bool) -> Option<int>
    decreases s.len(),
{
    if s.len() == 0 {
        None
    } else {
        match first_where(s.drop_last(), p) {
            Some(i) => Some(i),
            None => if p(s.last()) {
                Some(s.len() - 1)
            } else {
                None
            },
        }
    }
}

pub(crate) proof fn first_where_is_first<A>(s: Seq<A>, p: spec_fn(A) -> bool)
    ensures
        match first_where(s, p) {
            Some(i) => 0 <= i < s.len() && p(s[i]) && forall|j: int| 0 <= j < i ==> !p(#[trigger] s[j]),
            None => forall|j: int| 0 <= j < s.len() ==> !p(#[trigger] s[j]),
        },
    decreases s.len(),
{
    if s.len() > 0 {
        first_where_is_first(s.drop_last(), p);
        assert forall|j: int| 0 <= j < s.len() - 1 implies s[j] == #[trigger] s.drop_last()[j] by {}
        match first_where(s.drop_last(), p) {
            Some(i) => {
                assert(s[i] == s.drop_last()[i]);
                assert forall|j: int| 0 <= j < i implies !p(#[trigger] s[j]) by {
                    assert(s[j] == s.drop_last()[j]);
                }
            },
            None => {
                assert forall|j: int| 0 <= j < s.len() - 1 implies !p(#[trigger] s[j]) by {
                    assert(s[j] == s.drop_last()[j]);
                }
            },
        }
    }
}

/// A row found with no such row before it is the first one.
pub(crate) proof fn first_where_at<A>(s: Seq<A>, p: spec_fn(A) -> bool, i: int)
    requires
        0 <= i < s.len(),
        p(s[i]),
        forall|j: int| 0 <= j < i ==> !p(#[trigger] s[j]),
    ensures
        first_where(s, p) == Some(i),
{
    first_where_is_first(s, p);
}

pub open spec fn keyed<A, K>(key: spec_fn(A) -> K, k: K) -> spec_fn(A) -> bool {
    |x: A| key(x) == k
}

/// The first row with that key.
pub open spec fn row_with<A, K>(s: Seq<A>, key: spec_fn(A) -> K, k: K) -> Option<A> {
    match first_where(s, keyed(key, k)) {
        Some(i) => Some(s[i]),
        None => None,
    }
}

/// Putting `x` in the place of the first row with its key changes what is found
/// under that key and no other.
pub(crate) proof fn row_with_update<A, K>(s: Seq<A>, key: spec_fn(A) -> K, i: int, x: A, k: K)
    requires
        first_where(s, keyed(key, key(x))) == Some(i),
    ensures
        row_with(s.update(i, x), key, k) == if k == key(x) {
            Some(x)
        } else {
            row_with(s, key, k)
        },
{
    let t = s.update(i, x);
    first_where_is_first(s, keyed(key, key(x)));
    first_where_is_first(s, keyed(key, k));
    first_where_is_first(t, keyed(key, k));
    assert forall|j: int| 0 <= j < s.len() implies key(#[trigger] t[j]) == key(s[j]) by {}
    if k == key(x) {
        assert forall|j: int| 0 <= j < i implies !keyed(key, k)(#[trigger] t[j]) by {
            assert(!keyed(key, k)(s[j]));
        }
        first_where_at(t, keyed(key, k), i);
    } else {
        match first_where(s, keyed(key, k)) {
            Some(m) => {
                assert(m != i);
                assert forall|j: int| 0 <= j < m implies !keyed(key, k)(#[trigger] t[j]) by {
                    assert(!keyed(key, k)(s[j]));
                }
                first_where_at(t, keyed(key, k), m);
            },
            None => {
                assert forall|j: int| 0 <= j < t.len() implies !keyed(key, k)(#[trigger] t[j]) by {
                    assert(!keyed(key, k)(s[j]));
                }
            },
        }
    }
}

/// A row with a new key is found under that key, and changes nothing else.
pub(crate) proof fn row_with_push<A, K>(s: Seq<A>, key: spec_fn(A) -> K, x: A, k: K)
    requires
        first_where(s, keyed(key, key(x))) is None,
    ensures
        row_with(s.push(x), key, k) == if k == key(x) {
            Some(x)
        } else {
            row_with(s, key, k)
        },
{
    assert(s.push(x).drop_last() =~= s);
    assert(s.push(x).last() == x);
    first_where_is_first(s, keyed(key, k));
}

pub(crate) fn find<T: View, F: Fn(&T) -> bool>(
    v: &Vec<T>,
    f: F,
    Ghost(p): Ghost<spec_fn(T::V) -> bool>,
) -> (r: Option<usize>)
    requires
        forall|x: &T| #[trigger] call_requires(f, (x,)),
        forall|x: &T, b: bool| #[trigger] call_ensures(f, (x,), b) ==> b == p(x@),
    ensures
        match r {
            Some(i) => i < v@.len() && p(v@[i as int]@) && first_where(views(v@), p) == Some(i as int),
            None => first_where(views(v@), p) is None,
        },
{
    for i in 0..v.len()
        invariant
            forall|x: &T| #[trigger] call_requires(f, (x,)),
            forall|x: &T, b: bool| #[trigger] call_ensures(f, (x,), b) ==> b == p(x@),
            forall|j: int| 0 <= j < i ==> !p(#[trigger] views(v@)[j]),
    {
        if f(&v[i]) {
            proof {
                first_where_at(views(v@), p, i as int);
            }
            return Some(i);
        }
    }
    proof {
        first_where_is_first(views(v@), p);
    }
    None
}

/// The rows that satisfy `p` stay, in their order.
pub(crate) fn retain<T: View, F: Fn(&T) -> bool>(
    v: &mut Vec<T>,
    f: F,
    Ghost(p): Ghost<spec_fn(T::V) -> bool>,
) -> (removed: usize)
    requires
        forall|x: &T| #[trigger] call_requires(f, (x,)),
        forall|x: &T, b: bool| #[trigger] call_ensures(f, (x,), b) ==> b == p(x@),
    ensures
        views(final(v)@) == views(old(v)@).filter(p),
        removed == old(v)@.len() - final(v)@.len(),
{
    let mut i: usize = 0;
    let n: usize = v.len();
    let mut removed: usize = 0;
    let ghost all = views(v@);
    proof {
        assert(all.take(0) =~= Seq::empty());
        reveal(Seq::filter);
        assert(all.take(0).filter(p) =~= Seq::empty());
        assert(all.skip(0) =~= all);
        assert(views(v@) =~= all.take(0).filter(p) + all.skip(0));
    }
    while i < v.len()
        invariant
            forall|x: &T| #[trigger] call_requires(f, (x,)),
            forall|x: &T, b: bool| #[trigger] call_ensures(f, (x,), b) ==> b == p(x@),
            n == all.len(),
            v@.len() + removed == n,
            i + removed <= n,
            i == all.take(i + removed).filter(p).len(),
            views(v@) == all.take(i + removed).filter(p) + all.skip(i + removed),
        decreases v@.len() - i,
    {
        let ghost k = i + removed;
        let ghost kept = all.take(k).filter(p);
        proof {
            assert(views(v@)[i as int] == all[k]);
            assert(all.take(k + 1).drop_last() =~= all.take(k));
            reveal(Seq::filter);
            assert(all.skip(k) =~= seq![all[k]] + all.skip(k + 1));
        }
        if f(&v[i]) {
            proof {
                assert(p(all[k]));
                assert(kept.push(all[k]) + all.skip(k + 1) =~= views(v@));
            }
            i += 1;
        } else {
            let ghost before = v@;
            v.remove(i);
            proof {
                assert(views(v@) =~= views(before).remove(i as int));
                assert(views(before).remove(i as int) =~= kept + all.skip(k + 1));
            }
            removed += 1;
        }
    }
    proof {
        assert(all.take(n as int) =~= all);
        assert(all.skip(n as int) =~= Seq::empty());
        assert(i + removed == n);
        assert(views(v@) =~= all.filter(p));
    }
    removed
}

/// `x` in its place among the rows of `s`, after those that do not come after it.
pub open spec fn put<A>(s: Seq<A>, x: A, lt: spec_fn(A, A) -> bool) -> Seq<A>
    decreases s.len(),
{
    if s.len() == 0 {
        seq![x]
    } else if lt(x, s.last()) {
        put(s.drop_last(), x, lt).push(s.last())
    } else {
        s.push(x)
    }
}

/// The rows of `s` in the order of `lt`; rows that are equal under it keep the
/// order they had.
pub open spec fn ordered<A>(s: Seq<A>, lt: spec_fn(A, A) -> bool) -> Seq<A>
    decreases s.len(),
{
    if s.len() == 0 {
        Seq::empty()
    } else {
        put(ordered(s.drop_last(), lt), s.last(), lt)
    }
}

/// No row of `s` comes before an earlier one.
pub open spec fn in_order<A>(s: Seq<A>, lt: spec_fn(A, A) -> bool) -> bool {
    forall|i: int, j: int| 0 <= i < j < s.len() ==> !lt(#[trigger] s[j], #[trigger] s[i])
}

/// `lt` is a strict order whose ties form classes.
pub open spec fn weak_order<A>(lt: spec_fn(A, A) -> bool) -> bool {
    &&& forall|a: A, b: A| #[trigger] lt(a, b) ==> !lt(b, a)
    &&& forall|a: A, b: A, c: A| !#[trigger] lt(b, a) && !#[trigger] lt(c, b) ==> !lt(c, a)
}

proof fn put_in_order<A>(s: Seq<A>, x: A, lt: spec_fn(A, A) -> bool)
    requires
        weak_order(lt),
        in_order(s, lt),
    ensures
        in_order(put(s, x, lt), lt),
        put(s, x, lt).len() == s.len() + 1,
        put(s, x, lt).to_multiset() == s.to_multiset().insert(x),
        forall|i: int|
            0 <= i < put(s, x, lt).len() ==> (#[trigger] put(s, x, lt)[i] == x || s.contains(
                put(s, x, lt)[i],
            )),
    decreases s.len(),
{
    broadcast use vstd::seq_lib::group_to_multiset_ensures;

    if s.len() == 0 {
        assert(s =~= Seq::empty());
        assert(seq![x] =~= Seq::empty().push(x));
        assert(seq![x].to_multiset() =~= s.to_multiset().insert(x));
    } else if lt(x, s.last()) {
        let t = s.drop_last();
        assert forall|i: int, j: int| 0 <= i < j < t.len() implies !lt(
            #[trigger] t[j],
            #[trigger] t[i],
        ) by {
            assert(t[i] == s[i] && t[j] == s[j]);
        }
        put_in_order(t, x, lt);
        let q = put(t, x, lt);
        assert forall|i: int| 0 <= i < t.len() implies !lt(s.last(), #[trigger] t[i]) by {
            assert(t[i] == s[i]);
            assert(!lt(s[s.len() - 1], s[i]));
        }
        assert(!lt(s.last(), x));
        assert forall|i: int| 0 <= i < q.len() implies !lt(s.last(), #[trigger] q[i]) by {
            if q[i] != x {
                assert(t.contains(q[i]));
            }
        }
        assert(in_order(q.push(s.last()), lt));
        assert(s =~= t.push(s.last()));
        assert(q.push(s.last()).to_multiset() =~= s.to_multiset().insert(x));
        assert forall|i: int| 0 <= i < put(s, x, lt).len() implies (#[trigger] put(s, x, lt)[i] == x
            || s.contains(put(s, x, lt)[i])) by {
            if i < q.len() {
                assert(put(s, x, lt)[i] == q[i]);
                if q[i] != x {
                    let j = choose|j: int| 0 <= j < t.len() && t[j] == q[i];
                    assert(s[j] == q[i]);
                }
            } else {
                assert(s[s.len() - 1] == put(s, x, lt)[i]);
            }
        }
    } else {
        assert forall|i: int| 0 <= i < s.len() implies !lt(x, #[trigger] s[i]) by {
            if i < s.len() - 1 {
                assert(!lt(s[s.len() - 1], s[i]));
                assert(!lt(x, s.last()));
            }
        }
        assert(in_order(s.push(x), lt));
        assert forall|i: int| 0 <= i < s.push(x).len() implies (#[trigger] s.push(x)[i] == x
            || s.contains(s.push(x)[i])) by {
            if i < s.len() {
                assert(s[i] == s.push(x)[i]);
            }
        }
        assert(s.push(x).to_multiset() =~= s.to_multiset().insert(x));
    }
}

/// Putting rows in order keeps exactly the rows there were, and leaves none
/// before an earlier one.
pub proof fn ordered_is_in_order<A>(s: Seq<A>, lt: spec_fn(A, A) -> bool)
    requires
        weak_order(lt),
    ensures
        in_order(ordered(s, lt), lt),
        ordered(s, lt).to_multiset() == s.to_multiset(),
        ordered(s, lt).len() == s.len(),
    decreases s.len(),
{
    broadcast use vstd::seq_lib::group_to_multiset_ensures;

    if s.len() == 0 {
        assert(s =~= Seq::empty());
    } else {
        ordered_is_in_order(s.drop_last(), lt);
        put_in_order(ordered(s.drop_last(), lt), s.last(), lt);
        assert(s =~= s.drop_last().push(s.last()));
    }
}

proof fn put_split<A>(s: Seq<A>, x: A, lt: spec_fn(A, A) -> bool, k: int)
    requires
        0 < k <= s.len(),
        lt(x, s[k - 1]),
        put(s, x, lt) == put(s.take(k), x, lt) + s.skip(k),
    ensures
        put(s, x, lt) == put(s.take(k - 1), x, lt) + s.skip(k - 1),
{
    assert(s.take(k).drop_last() =~= s.take(k - 1));
    assert(s.take(k).last() == s[k - 1]);
    assert(put(s.take(k - 1), x, lt).push(s[k - 1]) + s.skip(k) =~= put(s.take(k - 1), x, lt) + s.skip(
        k - 1,
    ));
}

/// The rows put in order.
pub(crate) fn sort<T: View, F: Fn(&T, &T) -> bool>(
    v: Vec<T>,
    f: F,
    Ghost(lt): Ghost<spec_fn(T::V, T::V) -> bool>,
) -> (r: Vec<T>)
    requires
        forall|x: &T, y: &T| #[trigger] call_requires(f, (x, y)),
        forall|x: &T, y: &T, b: bool| #[trigger] call_ensures(f, (x, y), b) ==> b == lt(x@, y@),
    ensures
        views(r@) == ordered(views(v@), lt),
{
    let mut r: Vec<T> = Vec::new();
    let ghost all = views(v@);
    proof {
        assert(all.take(0) =~= Seq::empty());
        assert(views(r@) =~= ordered(all.take(0), lt));
    }
    for x in it: v
        invariant
            forall|x: &T, y: &T| #[trigger] call_requires(f, (x, y)),
            forall|x: &T, y: &T, b: bool| #[trigger] call_ensures(f, (x, y), b) ==> b == lt(x@, y@),
            it.seq() == v@,
            all == views(v@),
            views(r@) == ordered(all.take(it.index()), lt),
    {
        let ghost s = views(r@);
        let mut k: usize = r.len();
        proof {
            assert(s.take(k as int) =~= s);
            assert(s.skip(k as int) =~= Seq::empty());
            assert(put(s, x@, lt) =~= put(s.take(k as int), x@, lt) + s.skip(k as int));
        }
        while k > 0 && f(&x, &r[k - 1])
            invariant
                forall|x: &T, y: &T| #[trigger] call_requires(f, (x, y)),
                forall|x: &T, y: &T, b: bool| #[trigger]
                    call_ensures(f, (x, y), b) ==> b == lt(x@, y@),
                k <= r@.len(),
                s == views(r@),
                put(s, x@, lt) == put(s.take(k as int), x@, lt) + s.skip(k as int),
            decreases k,
        {
            proof {
                put_split(s, x@, lt, k as int);
            }
            k -= 1;
        }
        let ghost before = r@;
        let ghost xv = x@;
        r.insert(k, x);
        proof {
            if k > 0 {
                assert(s.take(k as int).last() == s[k - 1]);
            }
            assert(put(s.take(k as int), xv, lt) =~= s.take(k as int).push(xv));
            assert(views(r@) =~= s.take(k as int).push(xv) + s.skip(k as int));
            let n = it.index();
            assert(all.take(n + 1).drop_last() =~= all.take(n));
            assert(all.take(n + 1).last() == xv);
        }
    }
    proof {
        assert(all.take(all.len() as int) =~= all);
    }
    r
}

} // verus!
