//! Ordering and selection over integer keys.
//!
//! A number is ordered by [`Scalar::order_key`] where both zeros are the same
//! number, and by [`Scalar::rank_key`] where every pattern has its own place.

use vstd::prelude::*;

use crate::scalar::Scalar;

verus! {

/// Whether index `a` comes before index `b`: by key, then by position.
pub open spec fn before(keys: Seq<i64>, a: int, b: int) -> bool {
    keys[a] < keys[b] || (keys[a] == keys[b] && a < b)
}

/// Whether `p` lists all indices of `keys`, each once, in stable ascending order.
pub open spec fn sorts(keys: Seq<i64>, p: Seq<usize>) -> bool {
    &&& p.len() == keys.len()
    &&& forall|i: int| 0 <= i < p.len() ==> #[trigger] p[i] < keys.len()
    &&& forall|i: int, j: int|
        0 <= i < j < p.len() ==> before(keys, #[trigger] p[i] as int, #[trigger] p[j] as int)
}

/// The stable ascending order of the keys, as indices.
pub fn stable_order(keys: &[i64]) -> (p: Vec<usize>)
    ensures
        sorts(keys@, p@),
{
    let mut p: Vec<usize> = Vec::new();
    for k in 0..keys.len()
        invariant
            p@.len() == k,
            forall|i: int| 0 <= i < k ==> #[trigger] p@[i] < k,
            forall|i: int, j: int|
                0 <= i < j < k ==> before(
                    keys@,
                    #[trigger] p@[i] as int,
                    #[trigger] p@[j] as int,
                ),
    {
        let mut pos: usize = k;
        while pos > 0 && keys[p[pos - 1]] > keys[k]
            invariant
                pos <= k < keys@.len(),
                p@.len() == k,
                forall|i: int| 0 <= i < k ==> #[trigger] p@[i] < k,
                forall|i: int| pos <= i < k ==> keys@[#[trigger] p@[i] as int] > keys@[k as int],
            decreases pos,
        {
            pos -= 1;
        }
        let ghost old_p = p@;
        p.insert(pos, k);
        assert forall|i: int, j: int| 0 <= i < j < k + 1 implies before(
            keys@,
            #[trigger] p@[i] as int,
            #[trigger] p@[j] as int,
        ) by {
            if j == pos {
                assert(p@[i] == old_p[i]);
                assert(before(keys@, old_p[i] as int, old_p[pos - 1] as int) || i == pos - 1);
            } else if i == pos {
                assert(p@[j] == old_p[j - 1]);
            }
        }
    }
    p
}

/// Every index occurs in a sorted order.
pub proof fn law_order_lists_all(keys: Seq<i64>, p: Seq<usize>, k: usize)
    requires
        sorts(keys, p),
        keys.len() <= usize::MAX,
        k < keys.len(),
    ensures
        p.contains(k),
{
    assert(p.no_duplicates());
    let all = Set::new(|i: usize| i < keys.len());
    lemma_indices_below(keys.len());
    p.unique_seq_to_set();
    assert(p.to_set().subset_of(all));
    vstd::set_lib::lemma_subset_equality(p.to_set(), all);
    assert(all.contains(k));
}

/// There is only one sorted order.
pub proof fn law_order_unique(keys: Seq<i64>, p: Seq<usize>, q: Seq<usize>)
    requires
        sorts(keys, p),
        sorts(keys, q),
        keys.len() <= usize::MAX,
    ensures
        p == q,
{
    lemma_orders_agree(keys, p, q, keys.len() as int);
    assert(p =~= q);
}

proof fn lemma_orders_agree(keys: Seq<i64>, p: Seq<usize>, q: Seq<usize>, n: int)
    requires
        sorts(keys, p),
        sorts(keys, q),
        keys.len() <= usize::MAX,
        0 <= n <= keys.len(),
    ensures
        forall|i: int| 0 <= i < n ==> p[i] == q[i],
    decreases n,
{
    if n > 0 {
        lemma_orders_agree(keys, p, q, n - 1);
        let i = n - 1;
        law_order_lists_all(keys, q, p[i]);
        law_order_lists_all(keys, p, q[i]);
        let j = choose|j: int| 0 <= j < q.len() && q[j] == p[i];
        let k = choose|k: int| 0 <= k < p.len() && p[k] == q[i];
        assert(j >= i) by {
            if j < i {
                assert(before(keys, p[j] as int, p[i] as int));
            }
        }
        assert(k >= i) by {
            if k < i {
                assert(before(keys, q[k] as int, q[i] as int));
            }
        }
    }
}

proof fn lemma_indices_below(n: nat)
    requires
        n <= usize::MAX,
    ensures
        Set::new(|i: usize| i < n).finite(),
        Set::new(|i: usize| i < n).len() == n,
    decreases n,
{
    let s = Set::new(|i: usize| i < n);
    if n == 0 {
        assert(s =~= Set::empty());
    } else {
        let t = Set::new(|i: usize| i < (n - 1) as nat);
        lemma_indices_below((n - 1) as nat);
        assert(s =~= t.insert((n - 1) as usize));
    }
}

/// Whether `k` is the first index with the least key.
pub open spec fn first_least_at(keys: Seq<i64>, k: int) -> bool {
    &&& 0 <= k < keys.len()
    &&& forall|j: int|
        0 <= j < keys.len() ==> keys[k] <= #[trigger] keys[j] && (j < k ==> keys[k] < keys[j])
}

/// The first index with the least key.
pub fn first_least(keys: &[i64]) -> (r: Option<usize>)
    ensures
        match r {
            Some(k) => first_least_at(keys@, k as int),
            None => keys@.len() == 0,
        },
{
    if keys.len() == 0 {
        return None;
    }
    let mut best: usize = 0;
    for k in 1..keys.len()
        invariant
            best < k,
            k <= keys@.len(),
            forall|j: int|
                0 <= j < k ==> keys@[best as int] <= #[trigger] keys@[j] && (j < best
                    ==> keys@[best as int] < keys@[j]),
    {
        if keys[k] < keys[best] {
            best = k;
        }
    }
    Some(best)
}

/// The numeric keys of a list of numbers.
pub open spec fn order_keys_of(xs: Seq<Scalar>) -> Seq<i64> {
    xs.map_values(|x: Scalar| x.key() as i64)
}

/// The total-order keys of a list of numbers.
pub open spec fn rank_keys_of(xs: Seq<Scalar>) -> Seq<i64> {
    xs.map_values(|x: Scalar| x.rank() as i64)
}

pub fn order_keys(xs: &[Scalar]) -> (keys: Vec<i64>)
    ensures
        keys@ == order_keys_of(xs@),
{
    let mut keys: Vec<i64> = Vec::new();
    for k in 0..xs.len()
        invariant
            keys@ == order_keys_of(xs@.take(k as int)),
    {
        keys.push(xs[k].order_key());
        assert(xs@.take(k + 1) == xs@.take(k as int).push(xs@[k as int]));
    }
    assert(xs@.take(xs@.len() as int) == xs@);
    keys
}

pub fn rank_keys(xs: &[Scalar]) -> (keys: Vec<i64>)
    ensures
        keys@ == rank_keys_of(xs@),
{
    let mut keys: Vec<i64> = Vec::new();
    for k in 0..xs.len()
        invariant
            keys@ == rank_keys_of(xs@.take(k as int)),
    {
        keys.push(xs[k].rank_key());
        assert(xs@.take(k + 1) == xs@.take(k as int).push(xs@[k as int]));
    }
    assert(xs@.take(xs@.len() as int) == xs@);
    keys
}

/// The numbers at the listed places.
pub open spec fn picked(xs: Seq<Scalar>, p: Seq<usize>) -> Seq<Scalar> {
    Seq::new(p.len(), |i: int| xs[p[i] as int])
}

/// The numbers in ascending order, equal ones in the order they came in.
pub fn ascending(xs: &[Scalar]) -> (r: Vec<Scalar>)
    ensures
        exists|p: Seq<usize>| #[trigger] sorts(order_keys_of(xs@), p) && r@ == picked(xs@, p),
{
    let keys: Vec<i64> = order_keys(xs);
    let p: Vec<usize> = stable_order(keys.as_slice());
    let mut r: Vec<Scalar> = Vec::new();
    for k in 0..p.len()
        invariant
            p@.len() == xs@.len(),
            forall|i: int| 0 <= i < p@.len() ==> #[trigger] p@[i] < xs@.len(),
            r@ == picked(xs@, p@.take(k as int)),
    {
        r.push(xs[p[k]]);
        assert(p@.take(k + 1) == p@.take(k as int).push(p@[k as int]));
    }
    assert(p@.take(p@.len() as int) == p@);
    r
}

/// The greatest of `start` and the numbers; one that is not a number is passed over.
pub open spec fn greatest_of(xs: Seq<Scalar>, start: Scalar) -> Scalar
    decreases xs.len(),
{
    if xs.len() == 0 {
        start
    } else {
        greatest_of(xs.drop_last(), start).greater_of(xs.last())
    }
}

pub fn greatest(xs: &[Scalar], start: Scalar) -> (r: Scalar)
    ensures
        r == greatest_of(xs@, start),
{
    let mut r: Scalar = start;
    for k in 0..xs.len()
        invariant
            r == greatest_of(xs@.take(k as int), start),
    {
        assert(xs@.take(k + 1).drop_last() =~= xs@.take(k as int));
        r = r.max(xs[k]);
    }
    assert(xs@.take(xs@.len() as int) =~= xs@);
    r
}

/// The least of `start` and the numbers; one that is not a number is passed over.
pub open spec fn least_of(xs: Seq<Scalar>, start: Scalar) -> Scalar
    decreases xs.len(),
{
    if xs.len() == 0 {
        start
    } else {
        least_of(xs.drop_last(), start).lesser_of(xs.last())
    }
}

pub fn least(xs: &[Scalar], start: Scalar) -> (r: Scalar)
    ensures
        r == least_of(xs@, start),
{
    let mut r: Scalar = start;
    for k in 0..xs.len()
        invariant
            r == least_of(xs@.take(k as int), start),
    {
        assert(xs@.take(k + 1).drop_last() =~= xs@.take(k as int));
        r = r.min(xs[k]);
    }
    assert(xs@.take(xs@.len() as int) =~= xs@);
    r
}

/// The greatest is one of the numbers it is taken from, and none is above it.
pub proof fn law_greatest_bounds(xs: Seq<Scalar>, start: Scalar)
    requires
        !start.nan(),
    ensures
        !greatest_of(xs, start).nan(),
        start.at_most(greatest_of(xs, start)),
        forall|k: int|
            0 <= k < xs.len() && !(#[trigger] xs[k]).nan() ==> xs[k].at_most(
                greatest_of(xs, start),
            ),
        greatest_of(xs, start) == start || xs.contains(greatest_of(xs, start)),
    decreases xs.len(),
{
    if xs.len() > 0 {
        let front = xs.drop_last();
        law_greatest_bounds(front, start);
        assert forall|k: int| 0 <= k < xs.len() && !(#[trigger] xs[k]).nan() implies xs[k].at_most(
            greatest_of(xs, start),
        ) by {
            if k < xs.len() - 1 {
                assert(front[k] == xs[k]);
            }
        }
        if front.contains(greatest_of(front, start)) {
            let k = choose|k: int| 0 <= k < front.len() && front[k] == greatest_of(front, start);
            assert(xs[k] == greatest_of(front, start));
        }
        assert(xs[xs.len() - 1] == xs.last());
    }
}

/// The least is one of the numbers it is taken from, and none is below it.
pub proof fn law_least_bounds(xs: Seq<Scalar>, start: Scalar)
    requires
        !start.nan(),
    ensures
        !least_of(xs, start).nan(),
        least_of(xs, start).at_most(start),
        forall|k: int|
            0 <= k < xs.len() && !(#[trigger] xs[k]).nan() ==> least_of(xs, start).at_most(xs[k]),
        least_of(xs, start) == start || xs.contains(least_of(xs, start)),
    decreases xs.len(),
{
    if xs.len() > 0 {
        let front = xs.drop_last();
        law_least_bounds(front, start);
        assert forall|k: int| 0 <= k < xs.len() && !(#[trigger] xs[k]).nan() implies least_of(
            xs,
            start,
        ).at_most(xs[k]) by {
            if k < xs.len() - 1 {
                assert(front[k] == xs[k]);
            }
        }
        if front.contains(least_of(front, start)) {
            let k = choose|k: int| 0 <= k < front.len() && front[k] == least_of(front, start);
            assert(xs[k] == least_of(front, start));
        }
        assert(xs[xs.len() - 1] == xs.last());
    }
}

/// A set of places that grows by place `n`, or does not.
pub proof fn lemma_one_more(s: Set<int>, t: Set<int>, n: int, more: bool)
    requires
        s.finite(),
        !s.contains(n),
        forall|k: int| #[trigger] t.contains(k) <==> s.contains(k) || (k == n && more),
    ensures
        t.finite(),
        t.len() == s.len() + if more {
            1nat
        } else {
            0nat
        },
{
    if more {
        assert(t =~= s.insert(n));
    } else {
        assert(t =~= s);
    }
}

/// Sorting puts the keys in ascending order, and equal keys in the order of their places.
pub proof fn law_order_ascends(keys: Seq<i64>, p: Seq<usize>, i: int, j: int)
    requires
        sorts(keys, p),
        0 <= i < j < p.len(),
    ensures
        keys[p[i] as int] <= keys[p[j] as int],
        keys[p[i] as int] == keys[p[j] as int] ==> p[i] < p[j],
{
    assert(before(keys, p[i] as int, p[j] as int));
}

/// No key is below the one that is picked, and no equal one comes before it.
pub proof fn law_first_least(keys: Seq<i64>, k: int, j: int)
    requires
        first_least_at(keys, k),
        0 <= j < keys.len(),
    ensures
        0 <= k < keys.len(),
        keys[k] <= keys[j],
        j < k ==> keys[k] < keys[j],
{
    assert(keys[k] <= keys[j]);
}

/// Numbers sorted ascend, and none is lost: every number has a place of its own among them.
pub proof fn law_ascending_sorts(xs: Seq<Scalar>, p: Seq<usize>)
    requires
        xs.len() <= usize::MAX,
        sorts(order_keys_of(xs), p),
    ensures
        picked(xs, p).len() == xs.len(),
        p.no_duplicates(),
        forall|k: usize| k < xs.len() ==> #[trigger] p.contains(k),
        forall|i: int| 0 <= i < p.len() ==> #[trigger] picked(xs, p)[i] == xs[p[i] as int],
        forall|i: int, j: int|
            0 <= i < j < xs.len() && !(#[trigger] picked(xs, p)[i]).nan() && !(
            #[trigger] picked(xs, p)[j]).nan() ==> picked(xs, p)[i].at_most(picked(xs, p)[j]),
{
    let keys = order_keys_of(xs);
    let r = picked(xs, p);
    assert forall|i: int, j: int|
        0 <= i < j < xs.len() && !(#[trigger] r[i]).nan() && !(
        #[trigger] r[j]).nan() implies r[i].at_most(r[j]) by {
        law_order_ascends(keys, p, i, j);
    }
    assert forall|k: usize| k < xs.len() implies #[trigger] p.contains(k) by {
        law_order_lists_all(keys, p, k);
    }
}

/// One more place at the end of a list of lesser ones, or not.
pub proof fn lemma_places_step(before: Seq<int>, after: Seq<int>, k: int, more: bool)
    requires
        after == (if more {
            before.push(k)
        } else {
            before
        }),
        forall|j: int| #[trigger] before.contains(j) ==> j < k,
        forall|a: int, b: int|
            0 <= a < b < before.len() ==> (#[trigger] before[a]) < (#[trigger] before[b]),
    ensures
        forall|j: int| #[trigger] after.contains(j) <==> before.contains(j) || (j == k && more),
        forall|a: int, b: int|
            0 <= a < b < after.len() ==> (#[trigger] after[a]) < (#[trigger] after[b]),
{
    assert forall|j: int| #[trigger]
        after.contains(j) <==> before.contains(j) || (j == k && more) by {
        if before.contains(j) {
            let a = choose|a: int| 0 <= a < before.len() && before[a] == j;
            assert(after[a] == j);
        }
        if more {
            assert(after[before.len() as int] == k);
        }
    }
    assert forall|a: int, b: int| 0 <= a < b < after.len() implies (#[trigger] after[a]) < (
    #[trigger] after[b]) by {
        if b == before.len() {
            assert(before.contains(before[a]));
        }
    }
}

} // verus!
