//! Ranking: putting the items of a list in order, best first.
//!
//! A ranking of a list is the sequence of its indices in which an item of
//! higher rank comes before one of lower rank, and of two items of equal rank
//! the one that stood first in the list comes first. Every list has exactly
//! one ranking.

use vstd::prelude::*;

verus! {

/// Values that are ranked against each other. Any two values compare, and
/// the comparison is transitive; two different values may rank equally.
pub trait Order: Sized {
    /// `self` ranks as high as `other`, or higher.
    spec fn no_lower(self, other: Self) -> bool;

    /// Any two values compare.
    proof fn lemma_total(a: Self, b: Self)
        ensures
            a.no_lower(b) || b.no_lower(a),
    ;

    /// The comparison is transitive.
    proof fn lemma_transitive(a: Self, b: Self, c: Self)
        requires
            a.no_lower(b),
            b.no_lower(c),
        ensures
            a.no_lower(c),
    ;
}

/// A type that can be ranked at run time, as its model is ranked.
pub trait Ranked: DeepView where Self::V: Order {
    /// Decides [`Order::no_lower`] on the models of the two values.
    fn ranks_no_lower(&self, other: &Self) -> (r: bool)
        ensures
            r == self.deep_view().no_lower(other.deep_view()),
    ;
}

/// The item at index `a` comes before the item at index `b`: it ranks higher,
/// or they rank equally and `a` is the smaller index.
pub open spec fn precedes<T: Order>(items: Seq<T>, a: int, b: int) -> bool {
    items[a].no_lower(items[b]) && (!items[b].no_lower(items[a]) || a < b)
}

/// The index `k` stands somewhere in `order`.
pub open spec fn occurs(order: Seq<usize>, k: int) -> bool {
    exists|i: int| 0 <= i < order.len() && #[trigger] order[i] == k
}

/// `order` lists each index from `lo` up to `hi` once, each before all those
/// that it precedes.
pub open spec fn ranks_range<T: Order>(items: Seq<T>, order: Seq<usize>, lo: int, hi: int) -> bool {
    &&& order.len() == hi - lo
    &&& forall|i: int| 0 <= i < order.len() ==> lo <= #[trigger] order[i] < hi
    &&& forall|k: int| lo <= k < hi ==> #[trigger] occurs(order, k)
    &&& forall|i: int, j: int|
        0 <= i < j < order.len() ==> precedes(items, #[trigger] order[i] as int, #[trigger] order[j] as int)
}

/// `order` is the ranking of `items`.
pub open spec fn is_ranking<T: Order>(items: Seq<T>, order: Seq<usize>) -> bool {
    ranks_range(items, order, 0, items.len() as int)
}

/// The items in the order that `order` gives.
pub open spec fn arranged<T>(items: Seq<T>, order: Seq<usize>) -> Seq<T> {
    Seq::new(order.len(), |i: int| items[order[i] as int])
}

/// Coming before is transitive.
pub proof fn lemma_precedes_transitive<T: Order>(items: Seq<T>, a: int, b: int, c: int)
    requires
        precedes(items, a, b),
        precedes(items, b, c),
    ensures
        precedes(items, a, c),
{
    T::lemma_transitive(items[a], items[b], items[c]);
    if items[c].no_lower(items[a]) {
        T::lemma_transitive(items[c], items[a], items[b]);
        T::lemma_transitive(items[b], items[c], items[a]);
    }
}

/// Of two different indices, one comes before the other.
pub proof fn lemma_precedes_total<T: Order>(items: Seq<T>, a: int, b: int)
    requires
        a != b,
    ensures
        precedes(items, a, b) || precedes(items, b, a),
{
    T::lemma_total(items[a], items[b]);
}

proof fn lemma_prefixes_agree<T: Order>(items: Seq<T>, r1: Seq<usize>, r2: Seq<usize>, n: int)
    requires
        is_ranking(items, r1),
        is_ranking(items, r2),
        0 <= n <= items.len(),
    ensures
        forall|k: int| 0 <= k < n ==> r1[k] == r2[k],
    decreases n,
{
    if n > 0 {
        lemma_prefixes_agree(items, r1, r2, n - 1);
        let i = n - 1;
        let a = r1[i];
        let b = r2[i];
        if a != b {
            assert(occurs(r2, a as int));
            assert(occurs(r1, b as int));
            let q = choose|q: int| 0 <= q < r2.len() && r2[q] == a as int;
            let p = choose|p: int| 0 <= p < r1.len() && r1[p] == b as int;
            if q < i {
                assert(precedes(items, r1[q] as int, r1[i] as int));
            }
            if p < i {
                assert(precedes(items, r2[p] as int, r2[i] as int));
            }
            assert(precedes(items, r2[i] as int, r2[q] as int));
            assert(precedes(items, r1[i] as int, r1[p] as int));
        }
    }
}

/// A list has one ranking only.
pub proof fn lemma_ranking_unique<T: Order>(items: Seq<T>, r1: Seq<usize>, r2: Seq<usize>)
    requires
        is_ranking(items, r1),
        is_ranking(items, r2),
    ensures
        r1 == r2,
{
    lemma_prefixes_agree(items, r1, r2, items.len() as int);
    assert(r1 =~= r2);
}

/// A ranking names no index twice.
pub proof fn lemma_ranking_injective<T: Order>(items: Seq<T>, order: Seq<usize>, i: int, j: int)
    requires
        is_ranking(items, order),
        0 <= i < order.len(),
        0 <= j < order.len(),
        i != j,
    ensures
        order[i] != order[j],
{
    T::lemma_total(items[order[i] as int], items[order[i] as int]);
    if i < j {
        assert(precedes(items, order[i] as int, order[j] as int));
    } else {
        assert(precedes(items, order[j] as int, order[i] as int));
    }
}

/// How many of the first `m` places of `order` hold an index below `t`.
pub open spec fn below_count(order: Seq<usize>, t: int, m: int) -> nat
    decreases m,
{
    if m <= 0 {
        0
    } else {
        below_count(order, t, m - 1) + if order[m - 1] < t {
            1nat
        } else {
            0nat
        }
    }
}

/// One of the first `m` places of `order` holds the index `t`.
spec fn holds_before(order: Seq<usize>, t: int, m: int) -> bool {
    exists|k: int| 0 <= k < m && #[trigger] order[k] == t
}

proof fn lemma_below_step<T: Order>(items: Seq<T>, order: Seq<usize>, t: int, m: int)
    requires
        is_ranking(items, order),
        0 <= m <= order.len(),
    ensures
        below_count(order, t + 1, m) == below_count(order, t, m) + if holds_before(order, t, m) {
            1nat
        } else {
            0nat
        },
    decreases m,
{
    if m > 0 {
        lemma_below_step(items, order, t, m - 1);
        if order[m - 1] == t {
            if holds_before(order, t, m - 1) {
                let k = choose|k: int| 0 <= k < m - 1 && #[trigger] order[k] == t;
                lemma_ranking_injective(items, order, k, m - 1);
            }
            assert(holds_before(order, t, m));
        } else {
            if holds_before(order, t, m) {
                let k = choose|k: int| 0 <= k < m && #[trigger] order[k] == t;
                assert(k < m - 1);
                assert(holds_before(order, t, m - 1));
            }
            if holds_before(order, t, m - 1) {
                let k = choose|k: int| 0 <= k < m - 1 && #[trigger] order[k] == t;
                assert(order[k] == t);
            }
        }
    }
}

proof fn lemma_below_none(order: Seq<usize>, m: int)
    ensures
        below_count(order, 0, m) == 0,
    decreases m,
{
    if m > 0 {
        lemma_below_none(order, m - 1);
    }
}

/// A ranking holds each index once: exactly `t` of its places hold an
/// index below `t`.
pub proof fn lemma_below_total<T: Order>(items: Seq<T>, order: Seq<usize>, t: int)
    requires
        is_ranking(items, order),
        0 <= t <= items.len(),
    ensures
        below_count(order, t, order.len() as int) == t,
    decreases t,
{
    if t == 0 {
        lemma_below_none(order, order.len() as int);
    } else {
        lemma_below_total(items, order, t - 1);
        lemma_below_step(items, order, t - 1, order.len() as int);
        assert(occurs(order, t - 1));
        let k = choose|k: int| 0 <= k < order.len() && #[trigger] order[k] == t - 1;
        assert(holds_before(order, t - 1, order.len() as int));
    }
}

/// Each item ranks strictly higher than all that follow it.
pub open spec fn strictly_ranked<T: Order>(items: Seq<T>) -> bool {
    forall|i: int, j: int|
        0 <= i < j < items.len() ==> (#[trigger] items[i]).no_lower(#[trigger] items[j]) && !items[j].no_lower(
            items[i],
        )
}

/// Every item of `one` is an item of `other`.
pub open spec fn all_among<T>(one: Seq<T>, other: Seq<T>) -> bool {
    forall|i: int| 0 <= i < one.len() ==> other.contains(#[trigger] one[i])
}

proof fn lemma_strict_prefixes<T: Order>(one: Seq<T>, other: Seq<T>, n: int)
    requires
        strictly_ranked(one),
        strictly_ranked(other),
        all_among(one, other),
        all_among(other, one),
        0 <= n <= one.len(),
        0 <= n <= other.len(),
    ensures
        forall|k: int| 0 <= k < n ==> one[k] == other[k],
    decreases n,
{
    if n > 0 {
        lemma_strict_prefixes(one, other, n - 1);
        let i = n - 1;
        let a = one[i];
        let b = other[i];
        if a != b {
            assert(other.contains(one[i]));
            assert(one.contains(other[i]));
            let q = choose|q: int| 0 <= q < other.len() && other[q] == a;
            let p = choose|p: int| 0 <= p < one.len() && one[p] == b;
            T::lemma_total(a, b);
            T::lemma_total(a, a);
            T::lemma_total(b, b);
            if q < i {
                assert(one[q] == a);
                assert(one[q].no_lower(one[i]) && !one[i].no_lower(one[q]));
            }
            if p < i {
                assert(other[p] == b);
                assert(other[p].no_lower(other[i]) && !other[i].no_lower(other[p]));
            }
            assert(other[i].no_lower(other[q]) && !other[q].no_lower(other[i]));
            assert(one[i].no_lower(one[p]) && !one[p].no_lower(one[i]));
        }
    }
}

proof fn lemma_strict_length<T: Order>(one: Seq<T>, other: Seq<T>)
    requires
        strictly_ranked(one),
        strictly_ranked(other),
        all_among(one, other),
        all_among(other, one),
        one.len() <= other.len(),
    ensures
        one.len() == other.len(),
{
    if one.len() < other.len() {
        let n = one.len() as int;
        lemma_strict_prefixes(one, other, n);
        assert(one.contains(other[n]));
        let p = choose|p: int| 0 <= p < one.len() && one[p] == other[n];
        assert(other[p] == other[n]);
        assert((other[p]).no_lower(other[n]) && !other[n].no_lower(other[p]));
        T::lemma_total(other[n], other[n]);
    }
}

/// Two lists that hold the same items, each in strictly falling rank, are
/// the same list.
pub proof fn lemma_strictly_ranked_unique<T: Order>(one: Seq<T>, other: Seq<T>)
    requires
        strictly_ranked(one),
        strictly_ranked(other),
        all_among(one, other),
        all_among(other, one),
    ensures
        one == other,
{
    if one.len() <= other.len() {
        lemma_strict_length(one, other);
    } else {
        lemma_strict_length(other, one);
    }
    lemma_strict_prefixes(one, other, one.len() as int);
    assert(one =~= other);
}

/// The ranking of `items`.
pub open spec fn ranking<T: Order>(items: Seq<T>) -> Seq<usize> {
    choose|order: Seq<usize>| is_ranking(items, order)
}

/// The items, best first.
pub open spec fn ranked<T: Order>(items: Seq<T>) -> Seq<T> {
    arranged(items, ranking(items))
}

/// Each index of `order` comes before all that follow it.
spec fn in_rank_order<T: Order>(items: Seq<T>, order: Seq<usize>) -> bool {
    forall|i: int, j: int|
        0 <= i < j < order.len() ==> precedes(items, #[trigger] order[i] as int, #[trigger] order[j] as int)
}

/// `order` with the index `x` put where it belongs: behind the last index
/// that comes before it.
spec fn placed<T: Order>(items: Seq<T>, order: Seq<usize>, x: usize) -> Seq<usize>
    decreases order.len(),
{
    if order.len() == 0 {
        seq![x]
    } else if precedes(items, order.last() as int, x as int) {
        order.push(x)
    } else {
        placed(items, order.drop_last(), x).push(order.last())
    }
}

/// The ranking of the first `n` items, built by placing one index after the
/// other.
spec fn built<T: Order>(items: Seq<T>, n: nat) -> Seq<usize>
    decreases n,
{
    if n == 0 {
        Seq::empty()
    } else {
        placed(items, built(items, (n - 1) as nat), (n - 1) as usize)
    }
}

proof fn lemma_placed<T: Order>(items: Seq<T>, order: Seq<usize>, x: usize)
    requires
        in_rank_order(items, order),
        forall|i: int| 0 <= i < order.len() ==> #[trigger] order[i] != x,
    ensures
        in_rank_order(items, placed(items, order, x)),
        placed(items, order, x).len() == order.len() + 1,
        forall|v: int| #[trigger] occurs(placed(items, order, x), v) <==> (occurs(order, v) || v == x),
    decreases order.len(),
{
    let result = placed(items, order, x);
    if order.len() == 0 {
        assert(result[0] == x);
        assert forall|v: int| #[trigger] occurs(result, v) <==> (occurs(order, v) || v == x) by {
            if occurs(result, v) {
                let i = choose|i: int| 0 <= i < result.len() && #[trigger] result[i] == v;
            }
        }
    } else {
        let last = order.last();
        let n = order.len() as int - 1;
        if precedes(items, last as int, x as int) {
            assert forall|i: int, j: int| 0 <= i < j < result.len() implies precedes(
                items,
                #[trigger] result[i] as int,
                #[trigger] result[j] as int,
            ) by {
                if j == n + 1 {
                    if i < n {
                        assert(precedes(items, order[i] as int, order[n] as int));
                        lemma_precedes_transitive(items, order[i] as int, last as int, x as int);
                    }
                } else {
                    assert(precedes(items, order[i] as int, order[j] as int));
                }
            }
            assert forall|v: int| #[trigger] occurs(result, v) <==> (occurs(order, v) || v == x) by {
                if occurs(result, v) {
                    let i = choose|i: int| 0 <= i < result.len() && #[trigger] result[i] == v;
                    if i <= n {
                        assert(order[i] == v);
                    }
                }
                if occurs(order, v) {
                    let i = choose|i: int| 0 <= i < order.len() && #[trigger] order[i] == v;
                    assert(result[i] == v);
                }
                if v == x {
                    assert(result[n + 1] == v);
                }
            }
        } else {
            let front = order.drop_last();
            let inner = placed(items, front, x);
            assert forall|i: int, j: int| 0 <= i < j < front.len() implies precedes(
                items,
                #[trigger] front[i] as int,
                #[trigger] front[j] as int,
            ) by {
                assert(precedes(items, order[i] as int, order[j] as int));
            }
            assert forall|i: int| 0 <= i < front.len() implies #[trigger] front[i] != x by {
                assert(order[i] != x);
            }
            lemma_placed(items, front, x);
            assert(order[n] != x);
            lemma_precedes_total(items, last as int, x as int);
            assert forall|i: int, j: int| 0 <= i < j < result.len() implies precedes(
                items,
                #[trigger] result[i] as int,
                #[trigger] result[j] as int,
            ) by {
                if j == n + 1 {
                    let v = inner[i];
                    assert(occurs(inner, v as int));
                    if v != x {
                        assert(occurs(front, v as int));
                        let k = choose|k: int| 0 <= k < front.len() && #[trigger] front[k] == v;
                        assert(precedes(items, order[k] as int, order[n] as int));
                    }
                } else {
                    assert(precedes(items, inner[i] as int, inner[j] as int));
                }
            }
            assert forall|v: int| #[trigger] occurs(result, v) <==> (occurs(order, v) || v == x) by {
                if occurs(result, v) {
                    let i = choose|i: int| 0 <= i < result.len() && #[trigger] result[i] == v;
                    if i <= n {
                        assert(inner[i] == v);
                        assert(occurs(inner, v));
                        if v != x {
                            assert(occurs(front, v));
                            let k = choose|k: int| 0 <= k < front.len() && #[trigger] front[k] == v;
                            assert(order[k] == v);
                        }
                    } else {
                        assert(order[n] == v);
                    }
                }
                if occurs(order, v) {
                    let i = choose|i: int| 0 <= i < order.len() && #[trigger] order[i] == v;
                    if i < n {
                        assert(front[i] == v);
                        assert(occurs(front, v));
                        assert(occurs(inner, v));
                        let k = choose|k: int| 0 <= k < inner.len() && #[trigger] inner[k] == v;
                        assert(result[k] == v);
                    } else {
                        assert(result[n + 1] == v);
                    }
                }
                if v == x {
                    assert(occurs(inner, v));
                    let k = choose|k: int| 0 <= k < inner.len() && #[trigger] inner[k] == v;
                    assert(result[k] == v);
                }
            }
        }
    }
}

proof fn lemma_built<T: Order>(items: Seq<T>, n: nat)
    requires
        n <= items.len(),
        n <= usize::MAX,
    ensures
        ranks_range(items, built(items, n), 0, n as int),
    decreases n,
{
    if n > 0 {
        let before = built(items, (n - 1) as nat);
        let x = (n - 1) as usize;
        lemma_built(items, (n - 1) as nat);
        lemma_placed(items, before, x);
        let result = built(items, n);
        assert forall|i: int| 0 <= i < result.len() implies 0 <= #[trigger] result[i] < n by {
            assert(occurs(result, result[i] as int));
            if result[i] != x {
                assert(occurs(before, result[i] as int));
                let k = choose|k: int| 0 <= k < before.len() && #[trigger] before[k] == result[i];
            }
        }
        assert forall|k: int| 0 <= k < n implies #[trigger] occurs(result, k) by {
            if k < n - 1 {
                assert(occurs(before, k));
            }
        }
    }
}

/// Every list that a machine can hold has a ranking.
pub proof fn lemma_ranking_exists<T: Order>(items: Seq<T>)
    requires
        items.len() <= usize::MAX,
    ensures
        is_ranking(items, ranking(items)),
{
    lemma_built(items, items.len());
    assert(is_ranking(items, built(items, items.len())));
}

/// Whatever ranks `items` is their ranking.
pub proof fn lemma_ranking_is<T: Order>(items: Seq<T>, order: Seq<usize>)
    requires
        is_ranking(items, order),
    ensures
        order == ranking(items),
        is_ranking(items, ranking(items)),
{
    lemma_ranking_unique(items, order, ranking(items));
}

fn merge<T: Ranked>(
    items: &Vec<T>,
    left: &Vec<usize>,
    right: &Vec<usize>,
    Ghost(lo): Ghost<int>,
    Ghost(mid): Ghost<int>,
    Ghost(hi): Ghost<int>,
) -> (out: Vec<usize>) where T::V: Order
    requires
        0 <= lo <= mid <= hi <= items.len(),
        ranks_range(items.deep_view(), left@, lo, mid),
        ranks_range(items.deep_view(), right@, mid, hi),
    ensures
        ranks_range(items.deep_view(), out@, lo, hi),
{
    let ghost models = items.deep_view();
    let mut out: Vec<usize> = Vec::new();
    let mut i: usize = 0;
    let mut j: usize = 0;
    while i < left.len() || j < right.len()
        invariant
            0 <= lo <= mid <= hi <= items.len(),
            models == items.deep_view(),
            ranks_range(models, left@, lo, mid),
            ranks_range(models, right@, mid, hi),
            i <= left.len(),
            j <= right.len(),
            out.len() == i + j,
            forall|k: int| 0 <= k < out.len() ==> lo <= #[trigger] out[k] < hi,
            forall|p: int| 0 <= p < i ==> occurs(out@, #[trigger] left[p] as int),
            forall|q: int| 0 <= q < j ==> occurs(out@, #[trigger] right[q] as int),
            forall|a: int, b: int|
                0 <= a < b < out.len() ==> precedes(models, #[trigger] out[a] as int, #[trigger] out[b] as int),
            forall|k: int, p: int|
                0 <= k < out.len() && i <= p < left.len() ==> precedes(
                    models,
                    #[trigger] out[k] as int,
                    #[trigger] left[p] as int,
                ),
            forall|k: int, q: int|
                0 <= k < out.len() && j <= q < right.len() ==> precedes(
                    models,
                    #[trigger] out[k] as int,
                    #[trigger] right[q] as int,
                ),
        decreases left.len() - i + (right.len() - j),
    {
        let take_left: bool = if j == right.len() {
            true
        } else if i == left.len() {
            false
        } else {
            items[left[i]].ranks_no_lower(&items[right[j]])
        };
        let ghost before = out@;
        if take_left {
            let a: usize = left[i];
            proof {
                assert forall|q: int| j <= q < right.len() implies precedes(
                    models,
                    a as int,
                    #[trigger] right[q] as int,
                ) by {
                    assert(precedes(models, a as int, right[j as int] as int));
                    if q > j {
                        assert(precedes(models, right[j as int] as int, right[q] as int));
                        lemma_precedes_transitive(models, a as int, right[j as int] as int, right[q] as int);
                    }
                }
                assert forall|p: int| i < p < left.len() implies precedes(
                    models,
                    a as int,
                    #[trigger] left[p] as int,
                ) by {
                    assert(precedes(models, left[i as int] as int, left[p] as int));
                }
            }
            out.push(a);
            i = i + 1;
        } else {
            let b: usize = right[j];
            proof {
                assert forall|p: int| i <= p < left.len() implies precedes(
                    models,
                    b as int,
                    #[trigger] left[p] as int,
                ) by {
                    T::V::lemma_total(models[left[i as int] as int], models[b as int]);
                    assert(precedes(models, b as int, left[i as int] as int));
                    if p > i {
                        assert(precedes(models, left[i as int] as int, left[p] as int));
                        lemma_precedes_transitive(models, b as int, left[i as int] as int, left[p] as int);
                    }
                }
                assert forall|q: int| j < q < right.len() implies precedes(
                    models,
                    b as int,
                    #[trigger] right[q] as int,
                ) by {
                    assert(precedes(models, right[j as int] as int, right[q] as int));
                }
            }
            out.push(b);
            j = j + 1;
        }
        proof {
            let last = out.len() - 1;
            assert(forall|k: int| 0 <= k < before.len() ==> out[k] == before[k]);
            assert forall|p: int| 0 <= p < i implies occurs(out@, #[trigger] left[p] as int) by {
                if take_left && p == i - 1 {
                    assert(out[last] == left[p]);
                } else {
                    assert(occurs(before, left[p] as int));
                    let k = choose|k: int| 0 <= k < before.len() && before[k] == left[p];
                    assert(out[k] == left[p]);
                }
            }
            assert forall|q: int| 0 <= q < j implies occurs(out@, #[trigger] right[q] as int) by {
                if !take_left && q == j - 1 {
                    assert(out[last] == right[q]);
                } else {
                    assert(occurs(before, right[q] as int));
                    let k = choose|k: int| 0 <= k < before.len() && before[k] == right[q];
                    assert(out[k] == right[q]);
                }
            }
        }
    }
    proof {
        assert forall|k: int| lo <= k < hi implies #[trigger] occurs(out@, k) by {
            if k < mid {
                assert(occurs(left@, k));
                let p = choose|p: int| 0 <= p < left.len() && left[p] == k;
                assert(occurs(out@, left[p] as int));
            } else {
                assert(occurs(right@, k));
                let q = choose|q: int| 0 <= q < right.len() && right[q] == k;
                assert(occurs(out@, right[q] as int));
            }
        }
    }
    out
}

fn rank_range<T: Ranked>(items: &Vec<T>, lo: usize, hi: usize) -> (order: Vec<usize>) where T::V: Order
    requires
        lo <= hi <= items.len(),
    ensures
        ranks_range(items.deep_view(), order@, lo as int, hi as int),
    decreases hi - lo,
{
    if hi - lo == 0 {
        Vec::new()
    } else if hi - lo == 1 {
        let mut order: Vec<usize> = Vec::new();
        order.push(lo);
        assert(order[0] == lo);
        assert(occurs(order@, lo as int));
        order
    } else {
        let mid: usize = lo + (hi - lo) / 2;
        let left = rank_range(items, lo, mid);
        let right = rank_range(items, mid, hi);
        merge(items, &left, &right, Ghost(lo as int), Ghost(mid as int), Ghost(hi as int))
    }
}

/// Ranks `items`: the result holds their indices, best first, ties in the
/// order of the list.
pub fn rank<T: Ranked>(items: &Vec<T>) -> (order: Vec<usize>) where T::V: Order
    ensures
        is_ranking(items.deep_view(), order@),
        order@ == ranking(items.deep_view()),
{
    let order = rank_range(items, 0, items.len());
    proof {
        lemma_ranking_is(items.deep_view(), order@);
    }
    order
}

} // verus!
