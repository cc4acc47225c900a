//! What holds of the library's functions taken together, stated over the
//! model that their contracts use.

use crate::counting::{
    count_le, has_rank, lemma_count_le_bounds, lemma_count_le_concat, lemma_count_le_counts,
    lemma_count_le_monotone, lemma_count_le_permutation, lemma_count_le_split,
    lemma_maximum_exists, lemma_minimum_exists,
};
use crate::ecdf::{lemma_nearest_rank, nearest_rank, Ecdf};
use crate::kolmogorov_smirnov::{distance, gap, is_greatest_gap};
use crate::ratio::Ratio;
use vstd::prelude::*;

verus! {

/// The empirical distribution function takes values between zero and one.
pub proof fn ecdf_in_unit_interval(samples: Seq<i64>, x: i64)
    ensures
        0 <= count_le(samples, x as int) <= samples.len(),
{
    lemma_count_le_bounds(samples, x as int);
}

/// A distribution built from a sample gives, at every point, the value that
/// the one-pass computation gives on the sample itself.
pub proof fn distribution_agrees_with_ecdf(samples: Seq<i64>, distribution: Ecdf, x: i64)
    requires
        distribution@.to_multiset() == samples.to_multiset(),
    ensures
        count_le(distribution@, x as int) == count_le(samples, x as int),
        distribution@.len() == samples.len(),
{
    lemma_count_le_permutation(distribution@, samples, x as int);
    vstd::seq_lib::to_multiset_len(distribution@);
    vstd::seq_lib::to_multiset_len(samples);
}

/// A distribution built from a sample gives, at every rank, the value that
/// selection gives on the sample itself.
pub proof fn distribution_agrees_with_rank(
    samples: Seq<i64>,
    distribution: Ecdf,
    position: int,
    selected: i64,
    looked_up: i64,
)
    requires
        distribution@.to_multiset() == samples.to_multiset(),
        has_rank(samples, position, selected),
        has_rank(distribution@, position, looked_up),
    ensures
        selected == looked_up,
{
    crate::counting::lemma_rank_permutation(distribution@, samples, position, looked_up);
    crate::counting::lemma_rank_unique(samples, position, selected, looked_up);
}

/// The empirical distribution function does not fall as its argument grows.
pub proof fn ecdf_is_monotone(samples: Seq<i64>, x: i64, y: i64)
    requires
        x <= y,
    ensures
        count_le(samples, x as int) <= count_le(samples, y as int),
{
    lemma_count_le_monotone(samples, x as int, y as int);
}

/// Below every value of the sample the empirical distribution function is
/// zero.
pub proof fn ecdf_below_minimum_is_zero(samples: Seq<i64>, x: int)
    requires
        forall|i: int| 0 <= i < samples.len() ==> x < samples[i],
    ensures
        count_le(samples, x) == 0,
{
    lemma_count_le_split(samples, 0, x);
}

/// At or above every value of the sample the empirical distribution function
/// is one.
pub proof fn ecdf_at_maximum_is_one(samples: Seq<i64>, x: int)
    requires
        forall|i: int| 0 <= i < samples.len() ==> samples[i] <= x,
    ensures
        count_le(samples, x) == samples.len(),
{
    lemma_count_le_split(samples, samples.len() as int, x);
}

/// A value that has a rank is a value of the sample, so it lies between the
/// sample's least and greatest values.
pub proof fn rank_within_sample(samples: Seq<i64>, position: int, v: i64, least: i64, greatest: i64)
    requires
        has_rank(samples, position, v),
        forall|i: int|
            0 <= i < samples.len() ==> least <= #[trigger] samples[i] && samples[i] <= greatest,
    ensures
        least <= v <= greatest,
{
}

/// The value of rank one is the least value of the sample.
pub proof fn rank_one_is_minimum(samples: Seq<i64>, v: i64)
    requires
        has_rank(samples, 1, v),
    ensures
        forall|i: int| 0 <= i < samples.len() ==> v <= samples[i],
{
    assert forall|i: int| 0 <= i < samples.len() implies v <= samples[i] by {
        lemma_count_le_counts(samples, i, v - 1);
    }
}

/// The value whose rank is the sample's length is the greatest value of the
/// sample.
pub proof fn rank_last_is_maximum(samples: Seq<i64>, v: i64)
    requires
        has_rank(samples, samples.len() as int, v),
    ensures
        forall|i: int| 0 <= i < samples.len() ==> samples[i] <= v,
{
    assert forall|i: int| 0 <= i < samples.len() implies samples[i] <= v by {
        lemma_count_le_counts(samples, i, v as int);
    }
}

/// The value of a rank does not fall as the rank grows.
pub proof fn rank_is_monotone(samples: Seq<i64>, r1: int, v1: i64, r2: int, v2: i64)
    requires
        r1 <= r2,
        has_rank(samples, r1, v1),
        has_rank(samples, r2, v2),
    ensures
        v1 <= v2,
{
    if v2 < v1 {
        lemma_count_le_monotone(samples, v2 as int, v1 - 1);
    }
}

/// At the value of rank `position`, the empirical distribution function is at
/// least `position` over the length of the sample.
pub proof fn ecdf_of_rank_is_at_least(samples: Seq<i64>, position: int, v: i64)
    requires
        has_rank(samples, position, v),
    ensures
        position <= count_le(samples, v as int),
{
}

/// The value whose rank is the number of values at most `x` is itself at
/// most `x`.
pub proof fn rank_of_ecdf_is_at_most(samples: Seq<i64>, x: i64, v: i64)
    requires
        has_rank(samples, count_le(samples, x as int) as int, v),
    ensures
        v <= x,
{
    if x < v {
        lemma_count_le_monotone(samples, x as int, v - 1);
    }
}

/// The Nearest Rank does not fall as the proportion grows.
pub proof fn nearest_rank_is_monotone(a1: int, b1: int, a2: int, b2: int, length: int)
    requires
        0 < a1 <= b1,
        0 < a2 <= b2,
        a1 * b2 <= a2 * b1,
        0 < length,
    ensures
        nearest_rank(a1, b1, length) <= nearest_rank(a2, b2, length),
{
    lemma_nearest_rank(a1, b1, length);
    lemma_nearest_rank(a2, b2, length);
    let r1 = nearest_rank(a1, b1, length);
    let r2 = nearest_rank(a2, b2, length);
    if r2 < r1 {
        assert(r2 * b1 <= (r1 - 1) * b1) by (nonlinear_arith)
            requires
                r2 <= r1 - 1,
                0 < b1,
        ;
        let left = a1 * length;
        let right = a2 * length;
        assert(r2 * b1 < left);
        assert(right <= r2 * b2);
        assert(left * b2 <= right * b1) by (nonlinear_arith)
            requires
                a1 * b2 <= a2 * b1,
                0 < length,
                left == a1 * length,
                right == a2 * length,
        ;
        assert((r2 * b1) * b2 < left * b2) by (nonlinear_arith)
            requires
                r2 * b1 < left,
                0 < b2,
        ;
        assert(right * b1 <= (r2 * b2) * b1) by (nonlinear_arith)
            requires
                right <= r2 * b2,
                0 < b1,
        ;
        assert((r2 * b1) * b2 == (r2 * b2) * b1) by (nonlinear_arith);
    }
}

/// The value at a proportion does not fall as the proportion grows.
pub proof fn p_is_monotone(samples: Seq<i64>, smaller: Ratio, v1: i64, larger: Ratio, v2: i64)
    requires
        samples.len() > 0,
        0 < smaller.num <= smaller.den,
        0 < larger.num <= larger.den,
        smaller.leq(larger),
        has_rank(
            samples,
            nearest_rank(smaller.num as int, smaller.den as int, samples.len() as int),
            v1,
        ),
        has_rank(
            samples,
            nearest_rank(larger.num as int, larger.den as int, samples.len() as int),
            v2,
        ),
    ensures
        v1 <= v2,
{
    nearest_rank_is_monotone(
        smaller.num as int,
        smaller.den as int,
        larger.num as int,
        larger.den as int,
        samples.len() as int,
    );
    rank_is_monotone(
        samples,
        nearest_rank(smaller.num as int, smaller.den as int, samples.len() as int),
        v1,
        nearest_rank(larger.num as int, larger.den as int, samples.len() as int),
        v2,
    );
}

/// The value at proportion one is the greatest value of the sample.
pub proof fn p_one_is_maximum(samples: Seq<i64>, den: int, v: i64)
    requires
        samples.len() > 0,
        den > 0,
        has_rank(samples, nearest_rank(den, den, samples.len() as int), v),
    ensures
        forall|i: int| 0 <= i < samples.len() ==> samples[i] <= v,
{
    let length = samples.len() as int;
    lemma_nearest_rank(den, den, length);
    let r = nearest_rank(den, den, length);
    assert(r == length) by (nonlinear_arith)
        requires
            (r - 1) * den < den * length,
            den * length <= r * den,
            den > 0,
    ;
    rank_last_is_maximum(samples, v);
}

/// The value at a percentile does not fall as the percentile grows.
pub proof fn percentile_is_monotone(
    samples: Seq<i64>,
    smaller: Ratio,
    v1: i64,
    larger: Ratio,
    v2: i64,
)
    requires
        samples.len() > 0,
        0 < smaller.num <= 100 * smaller.den,
        0 < larger.num <= 100 * larger.den,
        smaller.leq(larger),
        has_rank(
            samples,
            nearest_rank(smaller.num as int, 100 * smaller.den, samples.len() as int),
            v1,
        ),
        has_rank(
            samples,
            nearest_rank(larger.num as int, 100 * larger.den, samples.len() as int),
            v2,
        ),
    ensures
        v1 <= v2,
{
    assert(smaller.num * (100 * larger.den) <= larger.num * (100 * smaller.den))
        by (nonlinear_arith)
        requires
            smaller.num * larger.den <= larger.num * smaller.den,
    ;
    nearest_rank_is_monotone(
        smaller.num as int,
        100 * smaller.den,
        larger.num as int,
        100 * larger.den,
        samples.len() as int,
    );
    rank_is_monotone(
        samples,
        nearest_rank(smaller.num as int, 100 * smaller.den, samples.len() as int),
        v1,
        nearest_rank(larger.num as int, 100 * larger.den, samples.len() as int),
        v2,
    );
}

/// The value at percentile one hundred is the greatest value of the sample.
pub proof fn percentile_hundred_is_maximum(samples: Seq<i64>, percent: Ratio, v: i64)
    requires
        samples.len() > 0,
        percent.den > 0,
        percent.num == 100 * percent.den,
        has_rank(
            samples,
            nearest_rank(percent.num as int, 100 * percent.den, samples.len() as int),
            v,
        ),
    ensures
        forall|i: int| 0 <= i < samples.len() ==> samples[i] <= v,
{
    p_one_is_maximum(samples, 100 * percent.den, v);
}

/// At the value found for a proportion, the empirical distribution function
/// is at least that proportion. It can be more, where equal values follow.
pub proof fn ecdf_of_p_is_at_least(samples: Seq<i64>, proportion: Ratio, v: i64)
    requires
        samples.len() > 0,
        0 < proportion.num <= proportion.den,
        has_rank(
            samples,
            nearest_rank(proportion.num as int, proportion.den as int, samples.len() as int),
            v,
        ),
    ensures
        proportion.num * samples.len() <= count_le(samples, v as int) * proportion.den,
{
    let length = samples.len() as int;
    let r = nearest_rank(proportion.num as int, proportion.den as int, length);
    lemma_nearest_rank(proportion.num as int, proportion.den as int, length);
    let c = count_le(samples, v as int) as int;
    assert(r * proportion.den <= c * proportion.den) by (nonlinear_arith)
        requires
            r <= c,
            0 < proportion.den,
    ;
}

/// At the value found for a percentile, the empirical distribution function
/// is at least a hundredth of that percentile.
pub proof fn ecdf_of_percentile_is_at_least(samples: Seq<i64>, percent: Ratio, v: i64)
    requires
        samples.len() > 0,
        0 < percent.num <= 100 * percent.den,
        has_rank(
            samples,
            nearest_rank(percent.num as int, 100 * percent.den, samples.len() as int),
            v,
        ),
    ensures
        percent.num * samples.len() <= count_le(samples, v as int) * (100 * percent.den),
{
    let length = samples.len() as int;
    let r = nearest_rank(percent.num as int, 100 * percent.den, length);
    lemma_nearest_rank(percent.num as int, 100 * percent.den, length);
    let c = count_le(samples, v as int) as int;
    assert(r * (100 * percent.den) <= c * (100 * percent.den)) by (nonlinear_arith)
        requires
            r <= c,
            0 < percent.den,
    ;
}

/// Two samples have one greatest gap only.
pub proof fn statistic_is_unique(xs: Seq<i64>, ys: Seq<i64>, g1: int, g2: int)
    requires
        is_greatest_gap(xs, ys, g1),
        is_greatest_gap(xs, ys, g2),
    ensures
        g1 == g2,
{
    let x1 = choose|x: int| #[trigger] gap(xs, ys, x) == g1;
    let x2 = choose|x: int| #[trigger] gap(xs, ys, x) == g2;
    assert(gap(xs, ys, x1) <= g2);
    assert(gap(xs, ys, x2) <= g1);
}

/// The statistic lies between zero and one: its numerator is at most its
/// denominator, the product of the two lengths.
pub proof fn statistic_in_unit_interval(xs: Seq<i64>, ys: Seq<i64>, g: int)
    requires
        is_greatest_gap(xs, ys, g),
    ensures
        0 <= g <= xs.len() * ys.len(),
{
    let x = choose|x: int| #[trigger] gap(xs, ys, x) == g;
    lemma_gap_bounds(xs, ys, x);
}

/// At every point the gap is at most the product of the two lengths.
pub proof fn lemma_gap_bounds(xs: Seq<i64>, ys: Seq<i64>, x: int)
    ensures
        0 <= gap(xs, ys, x) <= xs.len() * ys.len(),
{
    lemma_count_le_bounds(xs, x);
    lemma_count_le_bounds(ys, x);
    let a = count_le(xs, x) as int;
    let b = count_le(ys, x) as int;
    let n = xs.len() as int;
    let m = ys.len() as int;
    assert(0 <= a * m <= n * m && 0 <= b * n <= n * m) by (nonlinear_arith)
        requires
            0 <= a <= n,
            0 <= b <= m,
    ;
}

/// The statistic of a sample against any arrangement of itself is zero.
pub proof fn statistic_of_permutation_is_zero(xs: Seq<i64>, ys: Seq<i64>, g: int)
    requires
        xs.to_multiset() == ys.to_multiset(),
        is_greatest_gap(xs, ys, g),
    ensures
        g == 0,
{
    crate::kolmogorov_smirnov::lemma_gap_of_permutation(xs, ys, g);
}

/// Where every value of one sample lies below every value of the other, the
/// statistic is one.
pub proof fn statistic_of_separated_samples_is_one(xs: Seq<i64>, ys: Seq<i64>, g: int)
    requires
        xs.len() > 0,
        ys.len() > 0,
        (forall|i: int, j: int| 0 <= i < xs.len() && 0 <= j < ys.len() ==> xs[i] < ys[j]) || (
        forall|i: int, j: int| 0 <= i < xs.len() && 0 <= j < ys.len() ==> ys[j] < xs[i]),
        is_greatest_gap(xs, ys, g),
    ensures
        g == xs.len() * ys.len(),
{
    let n = xs.len() as int;
    let m = ys.len() as int;
    if forall|i: int, j: int| 0 <= i < xs.len() && 0 <= j < ys.len() ==> xs[i] < ys[j] {
        let k = lemma_maximum_exists(xs);
        let x = xs[k] as int;
        lemma_count_le_split(xs, n, x);
        lemma_count_le_split(ys, 0, x);
        assert(0 * n == 0);
        assert(gap(xs, ys, x) == n * m);
    } else {
        let k = lemma_maximum_exists(ys);
        let x = ys[k] as int;
        lemma_count_le_split(ys, m, x);
        lemma_count_le_split(xs, 0, x);
        assert(0 * m == 0);
        assert(m * n == n * m) by (nonlinear_arith);
        assert(gap(xs, ys, x) == n * m);
    }
    statistic_in_unit_interval(xs, ys, g);
}

/// Where the second sample is the first with `k` more values that all lie
/// below every value of the first, the statistic is `k` over the length of
/// the second sample.
pub proof fn statistic_of_added_low_values(xs: Seq<i64>, lows: Seq<i64>, g: int)
    requires
        xs.len() > 0,
        forall|i: int, j: int| 0 <= i < xs.len() && 0 <= j < lows.len() ==> lows[j] < xs[i],
        is_greatest_gap(xs, xs + lows, g),
    ensures
        g == lows.len() * xs.len(),
        g * (xs.len() + lows.len()) == lows.len() * (xs.len() * (xs + lows).len()),
{
    let ys = xs + lows;
    let n = xs.len() as int;
    let k = lows.len() as int;
    assert(ys.len() == n + k);
    assert forall|x: int| #[trigger] gap(xs, ys, x) <= k * n by {
        lemma_added_values_gap(xs, lows, x);
    }
    let least = lemma_minimum_exists(xs);
    let x = xs[least] - 1;
    lemma_count_le_split(xs, 0, x);
    lemma_count_le_split(lows, k, x);
    lemma_added_values_gap(xs, lows, x);
    assert(distance(0 * k, k * n) == k * n) by (nonlinear_arith)
        requires
            0 <= k,
            0 <= n,
    ;
    assert(gap(xs, ys, x) == k * n);
    let reached = choose|x: int| #[trigger] gap(xs, ys, x) == g;
    assert(gap(xs, ys, reached) <= k * n);
    assert((k * n) * (n + k) == k * (n * (n + k))) by (nonlinear_arith);
}

/// Where the second sample is the first with `k` more values that all lie
/// above every value of the first, the statistic is `k` over the length of
/// the second sample.
pub proof fn statistic_of_added_high_values(xs: Seq<i64>, highs: Seq<i64>, g: int)
    requires
        xs.len() > 0,
        forall|i: int, j: int| 0 <= i < xs.len() && 0 <= j < highs.len() ==> xs[i] < highs[j],
        is_greatest_gap(xs, xs + highs, g),
    ensures
        g == highs.len() * xs.len(),
        g * (xs.len() + highs.len()) == highs.len() * (xs.len() * (xs + highs).len()),
{
    let ys = xs + highs;
    let n = xs.len() as int;
    let k = highs.len() as int;
    assert(ys.len() == n + k);
    assert forall|x: int| #[trigger] gap(xs, ys, x) <= k * n by {
        lemma_added_values_gap(xs, highs, x);
    }
    let greatest = lemma_maximum_exists(xs);
    let x = xs[greatest] as int;
    lemma_count_le_split(xs, n, x);
    lemma_count_le_split(highs, 0, x);
    lemma_added_values_gap(xs, highs, x);
    assert(distance(n * k, 0 * n) == k * n) by (nonlinear_arith)
        requires
            0 <= k,
            0 <= n,
    ;
    assert(gap(xs, ys, x) == k * n);
    let reached = choose|x: int| #[trigger] gap(xs, ys, x) == g;
    assert(gap(xs, ys, reached) <= k * n);
    assert((k * n) * (n + k) == k * (n * (n + k))) by (nonlinear_arith);
}

/// The gap between a sample and the same sample with more values added.
pub proof fn lemma_added_values_gap(xs: Seq<i64>, added: Seq<i64>, x: int)
    ensures
        gap(xs, xs + added, x) == distance(
            (count_le(xs, x) * added.len()) as int,
            (count_le(added, x) * xs.len()) as int,
        ),
        gap(xs, xs + added, x) <= added.len() * xs.len(),
{
    let n = xs.len() as int;
    let k = added.len() as int;
    let a = count_le(xs, x) as int;
    let l = count_le(added, x) as int;
    lemma_count_le_concat(xs, added, x);
    lemma_count_le_bounds(xs, x);
    lemma_count_le_bounds(added, x);
    assert((xs + added).len() == n + k);
    assert(a * (n + k) - (a + l) * n == a * k - l * n) by (nonlinear_arith);
    assert(0 <= a * k <= k * n && 0 <= l * n <= k * n) by (nonlinear_arith)
        requires
            0 <= a <= n,
            0 <= l <= k,
    ;
}

} // verus!
