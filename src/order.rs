//! Mathematical model of order statistics over sequences of `i64`.
use vstd::multiset::*;
use vstd::prelude::*;

verus! {

broadcast use {
    vstd::seq_lib::group_seq_properties,
    Seq::lemma_filter_push,
    Seq::lemma_filter_len,
    Seq::lemma_filter_contains,
    Seq::lemma_filter_contains_rev,
    Seq::filter_distributes_over_add,
    group_multiset_axioms,
};

/// Holds of the values strictly below `v`.
pub open spec fn below(v: i64) -> spec_fn(i64) -> bool {
    |x: i64| x < v
}

/// Holds of the values at most `v`.
pub open spec fn at_most(v: i64) -> spec_fn(i64) -> bool {
    |x: i64| x <= v
}

/// Holds of the values equal to `v`.
pub open spec fn equal_to(v: i64) -> spec_fn(i64) -> bool {
    |x: i64| x == v
}

/// Holds of the values strictly above `v`.
pub open spec fn above(v: i64) -> spec_fn(i64) -> bool {
    |x: i64| x > v
}

/// How many elements of `s` lie strictly below `v`.
pub open spec fn count_below(s: Seq<i64>, v: i64) -> nat {
    s.filter(below(v)).len()
}

/// How many elements of `s` are at most `v`.
pub open spec fn count_at_most(s: Seq<i64>, v: i64) -> nat {
    s.filter(at_most(v)).len()
}

/// `v` is the element of rank `k` (zero-based) of `s` in ascending order:
/// fewer than `k + 1` elements lie below it, and more than `k` are at most it.
pub open spec fn is_kth(s: Seq<i64>, k: int, v: i64) -> bool {
    count_below(s, v) <= k < count_at_most(s, v)
}

/// The element of rank `k` of `s` in ascending order.
pub open spec fn kth(s: Seq<i64>, k: int) -> i64 {
    choose|v: i64| is_kth(s, k, v)
}

/// Ascending order.
pub open spec fn sorted(t: Seq<i64>) -> bool {
    forall|i: int, j: int| 0 <= i <= j < t.len() ==> t[i] <= t[j]
}

/// The mean of two values, divided by two as `i64` divides: rounded toward zero.
pub open spec fn mean_of_two(a: i64, b: i64) -> int {
    let sum = a + b;
    if sum >= 0 {
        sum / 2
    } else {
        -((-sum) / 2)
    }
}

/// The median of `s`: the middle element in ascending order, or for an even
/// length the mean of the two middle ones; none for an empty sequence.
pub open spec fn median(s: Seq<i64>) -> Option<i64> {
    let n = s.len() as int;
    if n == 0 {
        None
    } else if n % 2 == 1 {
        Some(kth(s, n / 2))
    } else {
        Some(mean_of_two(kth(s, n / 2 - 1), kth(s, n / 2)) as i64)
    }
}

/// The median read off an ascending sequence by position.
pub open spec fn middle_of_sorted(t: Seq<i64>) -> Option<i64> {
    let n = t.len() as int;
    if n == 0 {
        None
    } else if n % 2 == 1 {
        Some(t[n / 2])
    } else {
        Some(mean_of_two(t[n / 2 - 1], t[n / 2]) as i64)
    }
}

/// `p` lies between two elements of `s`.
pub open spec fn bracketed(s: Seq<i64>, p: i64) -> bool {
    exists|x: i64, y: i64| s.contains(x) && s.contains(y) && x <= p <= y
}

/// Filtering by `f` and then by `g` is filtering by `h` when `h` is their conjunction.
pub proof fn lemma_filter_twice(
    s: Seq<i64>,
    f: spec_fn(i64) -> bool,
    g: spec_fn(i64) -> bool,
    h: spec_fn(i64) -> bool,
)
    requires
        forall|x: i64| #[trigger] h(x) == (f(x) && g(x)),
    ensures
        s.filter(f).filter(g) == s.filter(h),
    decreases s.len(),
{
    if s.len() > 0 {
        let init = s.drop_last();
        lemma_filter_twice(init, f, g, h);
        assert(init.push(s.last()) == s);
    } else {
        reveal(Seq::filter);
    }
}

/// Filtering by a predicate that is the disjoint union of `f` and `g` keeps as
/// many elements as filtering by each.
pub proof fn lemma_filter_split(
    s: Seq<i64>,
    f: spec_fn(i64) -> bool,
    g: spec_fn(i64) -> bool,
    h: spec_fn(i64) -> bool,
)
    requires
        forall|x: i64| #[trigger] h(x) == (f(x) || g(x)),
        forall|x: i64| !(#[trigger] f(x) && g(x)),
    ensures
        s.filter(h).len() == s.filter(f).len() + s.filter(g).len(),
    decreases s.len(),
{
    if s.len() > 0 {
        let init = s.drop_last();
        lemma_filter_split(init, f, g, h);
        assert(init.push(s.last()) == s);
    } else {
        reveal(Seq::filter);
    }
}

/// A weaker predicate keeps at least as many elements.
pub proof fn lemma_filter_monotone(s: Seq<i64>, f: spec_fn(i64) -> bool, g: spec_fn(i64) -> bool)
    requires
        forall|x: i64| #[trigger] f(x) ==> g(x),
    ensures
        s.filter(f).len() <= s.filter(g).len(),
    decreases s.len(),
{
    if s.len() > 0 {
        let init = s.drop_last();
        lemma_filter_monotone(init, f, g);
        assert(init.push(s.last()) == s);
    } else {
        reveal(Seq::filter);
    }
}

/// A predicate that every element meets keeps them all.
pub proof fn lemma_filter_all(s: Seq<i64>, f: spec_fn(i64) -> bool)
    requires
        forall|i: int| 0 <= i < s.len() ==> #[trigger] f(s[i]),
    ensures
        s.filter(f) == s,
    decreases s.len(),
{
    if s.len() > 0 {
        let init = s.drop_last();
        lemma_filter_all(init, f);
        assert(init.push(s.last()) == s);
    } else {
        reveal(Seq::filter);
    }
}

/// A predicate that no element meets keeps none.
pub proof fn lemma_filter_none(s: Seq<i64>, f: spec_fn(i64) -> bool)
    requires
        forall|i: int| 0 <= i < s.len() ==> !#[trigger] f(s[i]),
    ensures
        s.filter(f).len() == 0,
    decreases s.len(),
{
    if s.len() > 0 {
        let init = s.drop_last();
        lemma_filter_none(init, f);
        assert(init.push(s.last()) == s);
    } else {
        reveal(Seq::filter);
    }
}

/// An element that fails `f` makes the filtered sequence strictly shorter.
pub proof fn lemma_filter_shrinks(s: Seq<i64>, f: spec_fn(i64) -> bool, y: i64)
    requires
        s.contains(y),
        !f(y),
    ensures
        s.filter(f).len() < s.len(),
{
    let g = |x: i64| !f(x);
    let t = |x: i64| true;
    lemma_filter_split(s, f, g, t);
    lemma_filter_all(s, t);
    let i = choose|i: int| 0 <= i < s.len() && s[i] == y;
    assert(s.filter(g).contains(s[i]));
}

/// The length of a filtered sequence depends only on the multiset of its elements.
pub proof fn lemma_filter_len_multiset(s: Seq<i64>, f: spec_fn(i64) -> bool)
    ensures
        s.filter(f).len() == s.to_multiset().filter(f).len(),
    decreases s.len(),
{
    if s.len() == 0 {
        reveal(Seq::filter);
        s.to_multiset_ensures();
        assert(s.to_multiset() =~= Multiset::empty());
        assert(s.to_multiset().filter(f) =~= Multiset::empty());
    } else {
        let init = s.drop_last();
        let x = s.last();
        lemma_filter_len_multiset(init, f);
        assert(init.push(x) == s);
        init.to_multiset_ensures();
        let m = init.to_multiset();
        if f(x) {
            assert(m.insert(x).filter(f) =~= m.filter(f).insert(x));
        } else {
            assert(m.insert(x).filter(f) =~= m.filter(f));
        }
    }
}

/// Sequences that are permutations of each other have equal counts.
pub proof fn lemma_permutation_counts(s: Seq<i64>, t: Seq<i64>, v: i64)
    requires
        s.to_multiset() == t.to_multiset(),
    ensures
        count_below(s, v) == count_below(t, v),
        count_at_most(s, v) == count_at_most(t, v),
        s.len() == t.len(),
{
    lemma_filter_len_multiset(s, below(v));
    lemma_filter_len_multiset(t, below(v));
    lemma_filter_len_multiset(s, at_most(v));
    lemma_filter_len_multiset(t, at_most(v));
    s.to_multiset_ensures();
    t.to_multiset_ensures();
}

/// The elements at most `v` are those below it and those equal to it.
pub proof fn lemma_at_most_split(s: Seq<i64>, v: i64)
    ensures
        count_at_most(s, v) == count_below(s, v) + s.filter(equal_to(v)).len(),
{
    lemma_filter_split(s, below(v), equal_to(v), at_most(v));
}

/// An element of rank `k` occurs in the sequence.
pub proof fn lemma_kth_contained(s: Seq<i64>, k: int, v: i64)
    requires
        is_kth(s, k, v),
    ensures
        s.contains(v),
{
    lemma_at_most_split(s, v);
    let e = s.filter(equal_to(v));
    assert(e.contains(e[0]));
    Seq::lemma_filter_pred(s, equal_to(v), 0);
}

/// There is at most one element of each rank.
pub proof fn lemma_kth_unique(s: Seq<i64>, k: int, v: i64, w: i64)
    requires
        is_kth(s, k, v),
        is_kth(s, k, w),
    ensures
        v == w,
{
    if v < w {
        lemma_filter_monotone(s, at_most(v), below(w));
    } else if w < v {
        lemma_filter_monotone(s, at_most(w), below(v));
    }
}

/// A witness of rank `k` is the element of rank `k`.
pub proof fn lemma_kth_is(s: Seq<i64>, k: int, v: i64)
    requires
        is_kth(s, k, v),
    ensures
        kth(s, k) == v,
{
    lemma_kth_unique(s, k, v, kth(s, k));
}

/// In an ascending sequence the element at position `k` has rank `k`.
pub proof fn lemma_sorted_position_is_kth(t: Seq<i64>, k: int)
    requires
        sorted(t),
        0 <= k < t.len(),
    ensures
        is_kth(t, k, t[k]),
{
    let v = t[k];
    let front = t.take(k);
    let back = t.skip(k);
    assert(front + back == t);
    lemma_filter_none(back, below(v));
    lemma_filter_all(t.take(k + 1), at_most(v));
    let front1 = t.take(k + 1);
    let back1 = t.skip(k + 1);
    assert(front1 + back1 == t);
}

/// The element of rank `k` of a sequence is the one at position `k` of any
/// ascending permutation of it.
pub proof fn lemma_kth_of_sorted(s: Seq<i64>, t: Seq<i64>, k: int)
    requires
        sorted(t),
        t.to_multiset() == s.to_multiset(),
        0 <= k < s.len(),
    ensures
        kth(s, k) == t[k],
        is_kth(s, k, t[k]),
{
    lemma_permutation_counts(s, t, t[k]);
    lemma_sorted_position_is_kth(t, k);
    lemma_kth_is(s, k, t[k]);
}

/// The median of a sequence is the middle of any ascending permutation of it.
pub proof fn lemma_median_of_sorted(s: Seq<i64>, t: Seq<i64>)
    requires
        sorted(t),
        t.to_multiset() == s.to_multiset(),
    ensures
        median(s) == middle_of_sorted(t),
{
    lemma_permutation_counts(s, t, 0);
    let n = s.len() as int;
    if n > 0 {
        lemma_kth_of_sorted(s, t, n / 2);
        if n % 2 == 0 {
            lemma_kth_of_sorted(s, t, n / 2 - 1);
        }
    }
}

/// The truncated mean of two values lies between them.
pub proof fn lemma_mean_between(a: i64, b: i64)
    ensures
        a <= b ==> a <= mean_of_two(a, b) <= b,
        b <= a ==> b <= mean_of_two(a, b) <= a,
{
}

} // verus!
