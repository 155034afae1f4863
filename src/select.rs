//! Quickselect, its pivot strategies, and the medians built on it.
use crate::order::{
    above, at_most, below, bracketed, equal_to, is_kth, kth, lemma_at_most_split, lemma_filter_all,
    lemma_filter_shrinks, lemma_filter_split, lemma_filter_twice, lemma_kth_contained, lemma_kth_is,
    lemma_kth_of_sorted, lemma_mean_between, lemma_median_of_sorted, lemma_permutation_counts,
    lemma_sorted_position_is_kth, mean_of_two, median, sorted,
};
use rand::seq::SliceRandom;
use vstd::prelude::*;

verus! {

broadcast use {
    vstd::seq_lib::group_seq_properties,
    Seq::lemma_filter_push,
    Seq::lemma_filter_len,
    Seq::lemma_filter_contains,
    Seq::lemma_filter_contains_rev,
};

/// The way quickselect picks the pivot of each partition.
#[derive(Clone, Copy, Debug, PartialEq, Eq, Structural)]
pub enum Pivot {
    /// An element drawn uniformly at random.
    Random,
    /// The median of the medians of groups of five.
    MedianOfMedians,
}

/// Relies on rand's `SliceRandom::choose` with `thread_rng`: none for an empty
/// slice, else one of its elements.
#[verifier::external_body]
fn random_element(a: &[i64]) -> (r: Option<i64>)
    ensures
        r is None <==> a@.len() == 0,
        r matches Some(v) ==> a@.contains(v),
{
    a.choose(&mut rand::thread_rng()).copied()
}

/// Relies on std's `slice::sort`: the elements, in ascending order.
#[verifier::external_body]
fn sort_ascending(v: &mut Vec<i64>)
    ensures
        sorted(final(v)@),
        final(v)@.to_multiset() == old(v)@.to_multiset(),
{
    v.sort();
}

/// One element of `a` chosen at random; none when `a` is empty.
pub fn choose_random(a: &[i64]) -> (r: Option<i64>)
    ensures
        r is None <==> a@.len() == 0,
        r matches Some(v) ==> a@.contains(v),
{
    random_element(a)
}

/// The elements of `a` from `start` up to `end`, as a new vector.
fn copy_range(a: &[i64], start: usize, end: usize) -> (r: Vec<i64>)
    requires
        start <= end <= a@.len(),
    ensures
        r@ == a@.subrange(start as int, end as int),
{
    let mut r: Vec<i64> = Vec::new();
    let mut i: usize = start;
    while i < end
        invariant
            start <= i <= end <= a@.len(),
            r@ == a@.subrange(start as int, i as int),
        decreases end - i,
    {
        r.push(a[i]);
        i += 1;
    }
    r
}

/// The mean of two values, rounded toward zero; it cannot overflow.
pub fn mean(a: i64, b: i64) -> (r: i64)
    ensures
        r == mean_of_two(a, b),
{
    let sum: i128 = a as i128 + b as i128;
    if sum >= 0 {
        ((sum as u128) / 2) as i64
    } else {
        let half: u128 = ((-sum) as u128) / 2;
        -(half as i128) as i64
    }
}

/// Splits `a` into the elements below `pivot`, equal to it, and above it,
/// each in their original order.
pub fn partition(a: &[i64], pivot: i64) -> (r: (Vec<i64>, Vec<i64>, Vec<i64>))
    ensures
        r.0@ == a@.filter(below(pivot)),
        r.1@ == a@.filter(equal_to(pivot)),
        r.2@ == a@.filter(above(pivot)),
        r.0@.len() + r.1@.len() + r.2@.len() == a@.len(),
{
    let mut lows: Vec<i64> = Vec::new();
    let mut pivots: Vec<i64> = Vec::new();
    let mut highs: Vec<i64> = Vec::new();
    let mut i: usize = 0;
    while i < a.len()
        invariant
            i <= a@.len(),
            lows@ == a@.take(i as int).filter(below(pivot)),
            pivots@ == a@.take(i as int).filter(equal_to(pivot)),
            highs@ == a@.take(i as int).filter(above(pivot)),
        decreases a@.len() - i,
    {
        let x = a[i];
        assert(a@.take(i as int + 1) == a@.take(i as int).push(x));
        if x < pivot {
            lows.push(x);
        } else if x == pivot {
            pivots.push(x);
        } else {
            highs.push(x);
        }
        i += 1;
    }
    assert(a@.take(a@.len() as int) == a@);
    proof {
        let s = a@;
        let lo_eq = |x: i64| x <= pivot;
        let all = |x: i64| true;
        lemma_filter_split(s, below(pivot), equal_to(pivot), lo_eq);
        lemma_filter_split(s, lo_eq, above(pivot), all);
        lemma_filter_all(s, all);
    }
    (lows, pivots, highs)
}

/// The element of rank `k` (zero-based, ascending) of `a`, or none when `k` is
/// out of range. Which pivots are drawn does not change the result.
pub fn quickselect(a: &[i64], k: usize, pivot_fn: Pivot) -> (r: Option<i64>)
    ensures
        r == (if k < a@.len() { Some(kth(a@, k as int)) } else { None::<i64> }),
        r matches Some(v) ==> is_kth(a@, k as int, v),
    decreases a@.len(), 1nat,
{
    if a.len() == 1 {
        if k == 0 {
            proof {
                lemma_sorted_position_is_kth(a@, 0);
                lemma_kth_is(a@, 0, a@[0]);
            }
            return Some(a[0]);
        } else {
            return None;
        }
    }
    let chosen = match pivot_fn {
        Pivot::Random => {
            let c = choose_random(a);
            proof {
                if let Some(p) = c {
                    assert(a@.contains(p) && p <= p);
                }
            }
            c
        },
        Pivot::MedianOfMedians => pick_pivot(a),
    };
    let pivot = match chosen {
        Some(p) => p,
        None => {
            return None;
        },
    };
    assert(bracketed(a@, pivot));
    let (lows, pivots, highs) = partition(a, pivot);
    let ghost s = a@;
    let nl = lows.len();
    let ne = pivots.len();
    proof {
        let (x, y) = choose|x: i64, y: i64| s.contains(x) && s.contains(y) && x <= pivot <= y;
        lemma_filter_shrinks(s, below(pivot), y);
        lemma_filter_shrinks(s, above(pivot), x);
        lemma_at_most_split(s, pivot);
    }
    if k < nl {
        let r = quickselect(lows.as_slice(), k, pivot_fn);
        proof {
            if let Some(v) = r {
                lemma_kth_contained(lows@, k as int, v);
                assert(v < pivot);
                lemma_filter_twice(s, below(pivot), below(v), below(v));
                lemma_filter_twice(s, below(pivot), at_most(v), at_most(v));
                lemma_kth_is(s, k as int, v);
            }
        }
        r
    } else if k < nl + ne {
        let v = pivots[0];
        proof {
            assert(pivots@.contains(v));
            assert(v == pivot);
            lemma_kth_is(s, k as int, v);
        }
        Some(v)
    } else {
        let r = quickselect(highs.as_slice(), k - nl - ne, pivot_fn);
        proof {
            let k2 = (k - nl - ne) as int;
            if let Some(v) = r {
                lemma_kth_contained(highs@, k2, v);
                assert(v > pivot);
                let mid_lt = |x: i64| pivot < x && x < v;
                let mid_le = |x: i64| pivot < x && x <= v;
                lemma_filter_twice(s, above(pivot), below(v), mid_lt);
                lemma_filter_twice(s, above(pivot), at_most(v), mid_le);
                lemma_filter_split(s, at_most(pivot), mid_lt, below(v));
                lemma_filter_split(s, at_most(pivot), mid_le, at_most(v));
                lemma_kth_is(s, k as int, v);
            }
        }
        r
    }
}

/// The median of `a` computed from a sorted copy: the middle element, or the
/// mean of the two middle ones for an even length; none for an empty slice.
pub fn nlogn_median(a: &[i64]) -> (r: Option<i64>)
    ensures
        r == median(a@),
        r matches Some(v) ==> bracketed(a@, v),
{
    let n = a.len();
    if n == 0 {
        return None;
    }
    let mut t: Vec<i64> = copy_range(a, 0, n);
    assert(t@ == a@);
    sort_ascending(&mut t);
    proof {
        lemma_median_of_sorted(a@, t@);
        lemma_permutation_counts(a@, t@, 0);
        lemma_kth_of_sorted(a@, t@, n as int / 2);
        lemma_kth_contained(a@, n as int / 2, t@[n as int / 2]);
    }
    let mid = n / 2;
    if n % 2 == 0 {
        proof {
            lemma_kth_of_sorted(a@, t@, mid as int - 1);
            lemma_kth_contained(a@, mid as int - 1, t@[mid as int - 1]);
            lemma_mean_between(t@[mid as int - 1], t@[mid as int]);
        }
        Some(mean(t[mid - 1], t[mid]))
    } else {
        proof {
            assert(a@.contains(t@[mid as int]) && t@[mid as int] <= t@[mid as int]);
        }
        Some(t[mid])
    }
}

/// The median of `a` by quickselect with the given pivot strategy: for an odd
/// length the middle rank, for an even length the mean of the two middle
/// ranks; none for an empty slice.
pub fn quickselect_median(a: &[i64], pivot_fn: Pivot) -> (r: Option<i64>)
    ensures
        r == median(a@),
        r matches Some(v) ==> bracketed(a@, v),
    decreases a@.len(), 2nat,
{
    let n = a.len();
    if n == 0 {
        return None;
    }
    if n % 2 == 1 {
        let r = quickselect(a, n / 2, pivot_fn);
        proof {
            let v = r->0;
            lemma_kth_contained(a@, n as int / 2, v);
            assert(a@.contains(v) && v <= v);
        }
        r
    } else {
        let lo = quickselect(a, n / 2 - 1, pivot_fn);
        let hi = quickselect(a, n / 2, pivot_fn);
        match (lo, hi) {
            (Some(x), Some(y)) => {
                proof {
                    lemma_kth_contained(a@, n as int / 2 - 1, x);
                    lemma_kth_contained(a@, n as int / 2, y);
                    lemma_mean_between(x, y);
                }
                Some(mean(x, y))
            },
            _ => None,
        }
    }
}

/// The medians of the consecutive groups of five of `s`, in order; trailing
/// elements that fill no group take no part.
pub open spec fn group_medians(s: Seq<i64>) -> Seq<i64> {
    Seq::new(s.len() / 5, |i: int| kth(s.subrange(5 * i, 5 * i + 5), 2))
}

/// What the median-of-medians strategy picks: none for an empty sequence, the
/// median for fewer than five elements, else the median of the group medians.
pub open spec fn median_of_medians(s: Seq<i64>) -> Option<i64> {
    if s.len() == 0 {
        None
    } else if s.len() < 5 {
        median(s)
    } else {
        median(group_medians(s))
    }
}

/// The median-of-medians pivot of `a`. It depends on `a` alone, and lies
/// between two elements of `a`.
pub fn pick_pivot(a: &[i64]) -> (r: Option<i64>)
    ensures
        r == median_of_medians(a@),
        r is Some <==> a@.len() > 0,
        r matches Some(v) ==> bracketed(a@, v),
    decreases a@.len(), 0nat,
{
    let n = a.len();
    if n == 0 {
        return None;
    } else if n < 5 {
        return nlogn_median(a);
    }
    let groups = n / 5;
    let mut medians: Vec<i64> = Vec::new();
    let mut g: usize = 0;
    while g < groups
        invariant
            n == a@.len(),
            groups == n / 5,
            g <= groups,
            medians@.len() == g,
            forall|j: int|
                0 <= j < g ==> #[trigger] medians@[j] == kth(a@.subrange(5 * j, 5 * j + 5), 2)
                    && a@.contains(medians@[j]),
        decreases groups - g,
    {
        assert(5 * g + 5 <= n) by (nonlinear_arith)
            requires
                g < groups,
                groups == n / 5,
        ;
        let start = 5 * g;
        let mut group: Vec<i64> = copy_range(a, start, start + 5);
        let ghost original = group@;
        sort_ascending(&mut group);
        proof {
            lemma_permutation_counts(original, group@, 0);
        }
        let m = group[2];
        proof {
            assert(original == a@.subrange(5 * g as int, 5 * g as int + 5));
            lemma_kth_of_sorted(original, group@, 2);
            lemma_kth_contained(original, 2, m);
            let i = choose|i: int| 0 <= i < original.len() && original[i] == m;
            assert(a@[5 * g as int + i] == m);
        }
        medians.push(m);
        g += 1;
    }
    assert(medians@ == group_medians(a@));
    let r = quickselect_median(medians.as_slice(), Pivot::MedianOfMedians);
    proof {
        let v = r->0;
        let (x, y) = choose|x: i64, y: i64|
            medians@.contains(x) && medians@.contains(y) && x <= v <= y;
        assert(a@.contains(x) && a@.contains(y));
    }
    r
}

} // verus!
