//! The mathematical model of a sample: how many of its values lie at or below
//! a threshold, and what follows from that count.

use vstd::prelude::*;

verus! {

/// The number of values of `s` that are at most `x`.
pub open spec fn count_le(s: Seq<i64>, x: int) -> nat
    decreases s.len(),
{
    if s.len() == 0 {
        0
    } else {
        count_le(s.drop_last(), x) + if s.last() <= x {
            1nat
        } else {
            0nat
        }
    }
}

/// The number of values of `s` that are strictly below `x`.
pub open spec fn count_lt(s: Seq<i64>, x: int) -> nat {
    count_le(s, x - 1)
}

/// `s` is in ascending order.
pub open spec fn sorted(s: Seq<i64>) -> bool {
    forall|i: int, j: int| 0 <= i <= j < s.len() ==> s[i] <= s[j]
}

/// `v` is a value of `s` that stands at the 1-based position `r` when `s` is
/// put in ascending order: fewer than `r` values lie strictly below it, and at
/// least `r` lie at or below it.
pub open spec fn has_rank(s: Seq<i64>, r: int, v: i64) -> bool {
    s.contains(v) && count_lt(s, v as int) < r <= count_le(s, v as int)
}

/// No more values are counted than the sample holds.
pub proof fn lemma_count_le_bounds(s: Seq<i64>, x: int)
    ensures
        count_le(s, x) <= s.len(),
    decreases s.len(),
{
    if s.len() > 0 {
        lemma_count_le_bounds(s.drop_last(), x);
    }
}

/// The count grows with the threshold.
pub proof fn lemma_count_le_monotone(s: Seq<i64>, x: int, y: int)
    requires
        x <= y,
    ensures
        count_le(s, x) <= count_le(s, y),
    decreases s.len(),
{
    if s.len() > 0 {
        lemma_count_le_monotone(s.drop_last(), x, y);
    }
}

/// Extending a prefix by one value adds that value's contribution.
pub proof fn lemma_count_le_take_step(s: Seq<i64>, i: int, x: int)
    requires
        0 <= i < s.len(),
    ensures
        count_le(s.take(i + 1), x) == count_le(s.take(i), x) + if s[i] <= x {
            1nat
        } else {
            0nat
        },
{
    assert(s.take(i + 1).drop_last() =~= s.take(i));
}

/// Where the first `k` values are all at most `x`, the count is at least `k`.
pub proof fn lemma_count_le_at_least(s: Seq<i64>, k: int, x: int)
    requires
        0 <= k <= s.len(),
        forall|j: int| 0 <= j < k ==> s[j] <= x,
    ensures
        count_le(s, x) >= k,
    decreases s.len(),
{
    if s.len() > 0 {
        if k == s.len() {
            lemma_count_le_at_least(s.drop_last(), k - 1, x);
        } else {
            lemma_count_le_at_least(s.drop_last(), k, x);
        }
    }
}

/// Where every value from position `k` on exceeds `x`, the count is at most `k`.
pub proof fn lemma_count_le_at_most(s: Seq<i64>, k: int, x: int)
    requires
        0 <= k <= s.len(),
        forall|j: int| k <= j < s.len() ==> s[j] > x,
    ensures
        count_le(s, x) <= k,
    decreases s.len(),
{
    if s.len() > 0 {
        if k == s.len() {
            lemma_count_le_bounds(s, x);
        } else {
            lemma_count_le_at_most(s.drop_last(), k, x);
        }
    }
}

/// Where the first `k` values are at most `x` and all later ones exceed it,
/// the count is exactly `k`.
pub proof fn lemma_count_le_split(s: Seq<i64>, k: int, x: int)
    requires
        0 <= k <= s.len(),
        forall|j: int| 0 <= j < k ==> s[j] <= x,
        forall|j: int| k <= j < s.len() ==> s[j] > x,
    ensures
        count_le(s, x) == k,
{
    lemma_count_le_at_least(s, k, x);
    lemma_count_le_at_most(s, k, x);
}

/// Taking one value out lowers the count by that value's contribution.
pub proof fn lemma_count_le_remove(s: Seq<i64>, i: int, x: int)
    requires
        0 <= i < s.len(),
    ensures
        count_le(s, x) == count_le(s.remove(i), x) + if s[i] <= x {
            1nat
        } else {
            0nat
        },
    decreases s.len(),
{
    if i == s.len() - 1 {
        assert(s.remove(i) =~= s.drop_last());
    } else {
        lemma_count_le_remove(s.drop_last(), i, x);
        assert(s.remove(i).drop_last() =~= s.drop_last().remove(i));
        assert(s.remove(i).last() == s.last());
    }
}

/// Two arrangements of the same values have the same counts.
pub proof fn lemma_count_le_permutation(a: Seq<i64>, b: Seq<i64>, x: int)
    requires
        a.to_multiset() == b.to_multiset(),
    ensures
        count_le(a, x) == count_le(b, x),
    decreases a.len(),
{
    broadcast use vstd::multiset::group_multiset_axioms;

    vstd::seq_lib::to_multiset_len(a);
    vstd::seq_lib::to_multiset_len(b);
    if a.len() > 0 {
        let v = a.last();
        let front = a.drop_last();
        assert(a =~= front.push(v));
        vstd::seq_lib::to_multiset_build(front, v);
        assert(b.to_multiset().count(v) > 0);
        vstd::seq_lib::to_multiset_contains(b, v);
        let j = choose|j: int| 0 <= j < b.len() && b[j] == v;
        vstd::seq_lib::to_multiset_remove(b, j);
        assert(front.to_multiset() =~= b.remove(j).to_multiset());
        lemma_count_le_permutation(front, b.remove(j), x);
        lemma_count_le_remove(b, j, x);
    }
}

/// Two arrangements of the same values hold the same values.
pub proof fn lemma_contains_permutation(a: Seq<i64>, b: Seq<i64>, v: i64)
    requires
        a.to_multiset() == b.to_multiset(),
    ensures
        a.contains(v) == b.contains(v),
{
    vstd::seq_lib::to_multiset_contains(a, v);
    vstd::seq_lib::to_multiset_contains(b, v);
}

/// Exchanging two positions rearranges the values without changing them.
pub proof fn lemma_swap_permutation(s: Seq<i64>, i: int, j: int)
    requires
        0 <= i < s.len(),
        0 <= j < s.len(),
    ensures
        s.update(i, s[j]).update(j, s[i]).to_multiset() == s.to_multiset(),
{
    broadcast use vstd::multiset::group_multiset_axioms;

    let mid = s.update(i, s[j]);
    vstd::seq_lib::to_multiset_update(s, i, s[j]);
    vstd::seq_lib::to_multiset_update(mid, j, s[i]);
    vstd::seq_lib::to_multiset_contains(s, s[i]);
    vstd::seq_lib::to_multiset_contains(s, s[j]);
    assert(s.contains(s[i]));
    assert(s.contains(s[j]));
    assert(mid.update(j, s[i]).to_multiset() =~= s.to_multiset());
}

/// At most one value has a given rank.
pub proof fn lemma_rank_unique(s: Seq<i64>, r: int, v: i64, w: i64)
    requires
        has_rank(s, r, v),
        has_rank(s, r, w),
    ensures
        v == w,
{
    if v < w {
        lemma_count_le_monotone(s, v as int, w - 1);
    }
    if w < v {
        lemma_count_le_monotone(s, w as int, v - 1);
    }
}

/// Rank is carried over from one arrangement of the values to another.
pub proof fn lemma_rank_permutation(a: Seq<i64>, b: Seq<i64>, r: int, v: i64)
    requires
        a.to_multiset() == b.to_multiset(),
        has_rank(a, r, v),
    ensures
        has_rank(b, r, v),
{
    lemma_contains_permutation(a, b, v);
    lemma_count_le_permutation(a, b, v as int);
    lemma_count_le_permutation(a, b, v - 1);
}

/// In an ascending sequence the value at index `i` has rank `i + 1`.
pub proof fn lemma_sorted_rank(s: Seq<i64>, i: int)
    requires
        sorted(s),
        0 <= i < s.len(),
    ensures
        has_rank(s, i + 1, s[i]),
{
    lemma_count_le_at_least(s, i + 1, s[i] as int);
    lemma_count_le_at_most(s, i, s[i] - 1);
}

/// A value at or below the threshold makes the count positive.
pub proof fn lemma_count_le_counts(s: Seq<i64>, i: int, x: int)
    requires
        0 <= i < s.len(),
    ensures
        s[i] <= x ==> count_le(s, x) >= 1,
        s[i] > x ==> count_le(s, x) < s.len(),
{
    lemma_count_le_remove(s, i, x);
    lemma_count_le_bounds(s.remove(i), x);
}

/// The count of two samples put together is the sum of their counts.
pub proof fn lemma_count_le_concat(a: Seq<i64>, b: Seq<i64>, x: int)
    ensures
        count_le(a + b, x) == count_le(a, x) + count_le(b, x),
    decreases b.len(),
{
    if b.len() == 0 {
        assert(a + b =~= a);
    } else {
        lemma_count_le_concat(a, b.drop_last(), x);
        assert((a + b).drop_last() =~= a + b.drop_last());
    }
}

/// A sample that is not empty has a least value.
pub proof fn lemma_minimum_exists(s: Seq<i64>) -> (i: int)
    requires
        s.len() > 0,
    ensures
        0 <= i < s.len(),
        forall|j: int| 0 <= j < s.len() ==> s[i] <= s[j],
    decreases s.len(),
{
    if s.len() == 1 {
        0
    } else {
        let k = lemma_minimum_exists(s.drop_last());
        let i = if s.last() < s[k] {
            s.len() - 1
        } else {
            k
        };
        assert forall|j: int| 0 <= j < s.len() implies s[i] <= s[j] by {
            if j < s.len() - 1 {
                assert(s.drop_last()[j] == s[j]);
            }
        }
        i
    }
}

/// A sample that is not empty has a greatest value.
pub proof fn lemma_maximum_exists(s: Seq<i64>) -> (i: int)
    requires
        s.len() > 0,
    ensures
        0 <= i < s.len(),
        forall|j: int| 0 <= j < s.len() ==> s[j] <= s[i],
    decreases s.len(),
{
    if s.len() == 1 {
        0
    } else {
        let k = lemma_maximum_exists(s.drop_last());
        let i = if s.last() > s[k] {
            s.len() - 1
        } else {
            k
        };
        assert forall|j: int| 0 <= j < s.len() implies s[j] <= s[i] by {
            if j < s.len() - 1 {
                assert(s.drop_last()[j] == s[j]);
            }
        }
        i
    }
}

} // verus!
