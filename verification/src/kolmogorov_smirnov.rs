//! The two-sample Kolmogorov-Smirnov test.

use crate::counting::{
    count_le, lemma_count_le_at_least, lemma_count_le_bounds, lemma_count_le_permutation,
    lemma_count_le_split, sorted,
};
use crate::error::Error;
use crate::ratio::{widening_product, Ratio};
use crate::sorting::sort_ascending;
use vstd::prelude::*;
use vstd::slice::slice_to_vec;

verus! {

/// A sample has to hold more values than this for the test's asymptotic
/// approximation to apply.
pub const MINIMUM_LENGTH: usize = 7;

/// The number that stands for probability one: probabilities and the terms of
/// the Kolmogorov series are counted in units of one part in this many.
pub const PROBABILITY_SCALE: u64 = 1_000_000_000_000_000_000;

/// The series is summed until a term falls below this many units, which is
/// one part in a hundred million.
pub const TERM_TOLERANCE: u64 = 10_000_000_000;

/// The greatest number of terms of the series that is ever summed: where the
/// last of them is the first one below the tolerance, the series has still
/// converged.
pub const MAX_TERMS: usize = 200;

/// The bisection for the critical value moves on a grid of this many steps
/// across the unit interval: the twenty-seventh power of two.
pub const BISECTION_GRID: u64 = 134_217_728;

/// The bracket of the bisection is narrow enough once this many times its
/// width is within the unit interval.
pub const BRACKET_PRECISION: u64 = 100_000_000;

/// The greatest number of rounds that the bisection may take.
pub const MAX_ROUNDS: usize = 200;

/// A value of the test's statistic: the fraction `num / den`, whose parts can
/// be as large as the product of two sample lengths.
#[derive(Clone, Copy, Debug, PartialEq, Eq, Structural)]
pub struct Statistic {
    pub num: u128,
    pub den: u128,
}

/// What a two-sample test found.
#[derive(Clone, Copy, Debug, PartialEq, Eq, Structural)]
pub struct TestResult {
    /// Whether the samples are taken to come from different distributions.
    pub is_rejected: bool,
    /// The greatest distance between the two empirical distribution functions.
    pub statistic: Statistic,
    /// The probability with which equality of the distributions is rejected.
    pub reject_probability: Ratio,
    /// The statistic from which on the test rejects at this confidence.
    pub critical_value: Statistic,
    /// The confidence level that was asked for.
    pub confidence: Ratio,
}

/// The distance between two whole numbers.
pub open spec fn distance(a: int, b: int) -> int {
    if a >= b {
        a - b
    } else {
        b - a
    }
}

/// The vertical distance between the empirical distribution functions of the
/// two samples at `x`, as a numerator over the denominator
/// `xs.len() * ys.len()`.
pub open spec fn gap(xs: Seq<i64>, ys: Seq<i64>, x: int) -> int {
    distance((count_le(xs, x) * ys.len()) as int, (count_le(ys, x) * xs.len()) as int)
}

/// `g` is the greatest vertical distance between the two empirical
/// distribution functions: it is reached at some point and exceeded at none.
pub open spec fn is_greatest_gap(xs: Seq<i64>, ys: Seq<i64>, g: int) -> bool {
    &&& exists|x: int| #[trigger] gap(xs, ys, x) == g
    &&& forall|x: int| #[trigger] gap(xs, ys, x) <= g
}

/// `x` lies below every value that the sweep has not passed yet.
spec fn below_pending(xs: Seq<i64>, ys: Seq<i64>, passed_xs: int, passed_ys: int, x: int) -> bool {
    &&& passed_xs < xs.len() ==> x < xs[passed_xs]
    &&& passed_ys < ys.len() ==> x < ys[passed_ys]
}

/// The distance between `a * m` and `b * n` for counts within their samples.
fn scaled_distance(a: usize, n: usize, b: usize, m: usize) -> (d: u128)
    requires
        a <= n,
        b <= m,
    ensures
        d == distance((a * m) as int, (b * n) as int),
        d <= n * m,
{
    assert(a * m <= n * m && b * n <= n * m) by (nonlinear_arith)
        requires
            0 <= a <= n,
            0 <= b <= m,
    ;
    let left: u128 = widening_product(a as u64, m as u64);
    let right: u128 = widening_product(b as u64, n as u64);
    if left >= right {
        left - right
    } else {
        right - left
    }
}

/// Walks two ascending samples together, from the least value up, and keeps
/// the greatest distance between their empirical distribution functions.
///
/// The walk ends as soon as one sample is used up: from there on that
/// sample's function stays at one while the other's only rises towards one,
/// so the distance cannot grow any more.
fn sweep(xs: &Vec<i64>, ys: &Vec<i64>) -> (statistic: u128)
    requires
        sorted(xs@),
        sorted(ys@),
        xs@.len() > 0,
        ys@.len() > 0,
    ensures
        is_greatest_gap(xs@, ys@, statistic as int),
        statistic <= xs@.len() * ys@.len(),
{
    let n: usize = xs.len();
    let m: usize = ys.len();

    // `i` and `j` walk through `xs` and `ys`; `passed_xs` and `passed_ys` say
    // how many values of each are at most the point the sweep has reached.
    let mut i: usize = 0;
    let mut j: usize = 0;
    let mut passed_xs: usize = 0;
    let mut passed_ys: usize = 0;
    let mut statistic: u128 = 0;
    let ghost mut reached_at: int = if xs@[0] <= ys@[0] {
        xs@[0] - 1
    } else {
        ys@[0] - 1
    };

    proof {
        lemma_count_le_split(xs@, 0, reached_at);
        lemma_count_le_split(ys@, 0, reached_at);
        assert(0 * m == 0 && 0 * n == 0);
        assert forall|x: int| below_pending(xs@, ys@, 0, 0, x) implies #[trigger] gap(xs@, ys@, x)
            <= 0 by {
            lemma_count_le_split(xs@, 0, x);
            lemma_count_le_split(ys@, 0, x);
        }
    }

    while i < n && j < m
        invariant
            n == xs@.len(),
            m == ys@.len(),
            sorted(xs@),
            sorted(ys@),
            passed_xs <= i <= n,
            passed_ys <= j <= m,
            i < n ==> xs@[passed_xs as int] == xs@[i as int],
            j < m ==> ys@[passed_ys as int] == ys@[j as int],
            i == n ==> passed_xs == n,
            j == m ==> passed_ys == m,
            passed_xs > 0 && passed_ys < m ==> xs@[passed_xs - 1] < ys@[passed_ys as int],
            passed_ys > 0 && passed_xs < n ==> ys@[passed_ys - 1] < xs@[passed_xs as int],
            gap(xs@, ys@, reached_at) == statistic,
            statistic <= n * m,
            distance((passed_xs * m) as int, (passed_ys * n) as int) <= statistic,
            forall|x: int|
                below_pending(xs@, ys@, passed_xs as int, passed_ys as int, x) ==> #[trigger] gap(
                    xs@,
                    ys@,
                    x,
                ) <= statistic,
        decreases (n - i) + (m - j),
    {
        // Step over the values equal to the one at `i`.
        let x_i: i64 = xs[i];
        while i + 1 < n && x_i == xs[i + 1]
            invariant
                n == xs@.len(),
                passed_xs <= i < n,
                xs@[i as int] == x_i,
            decreases n - i,
        {
            i += 1;
        }

        // Step over the values equal to the one at `j`.
        let y_j: i64 = ys[j];
        while j + 1 < m && y_j == ys[j + 1]
            invariant
                m == ys@.len(),
                passed_ys <= j < m,
                ys@[j as int] == y_j,
            decreases m - j,
        {
            j += 1;
        }

        // The next point of the sweep is the lesser of the two values.
        let current: i64 = if x_i <= y_j {
            x_i
        } else {
            y_j
        };
        let ghost old_passed_xs: int = passed_xs as int;
        let ghost old_passed_ys: int = passed_ys as int;
        let ghost old_statistic: int = statistic as int;

        if current == x_i {
            passed_xs = i + 1;
            i += 1;
        }
        if current == y_j {
            passed_ys = j + 1;
            j += 1;
        }

        proof {
            lemma_count_le_split(xs@, passed_xs as int, current as int);
            lemma_count_le_split(ys@, passed_ys as int, current as int);
        }

        let diff: u128 = scaled_distance(passed_xs, n, passed_ys, m);
        if diff > statistic {
            statistic = diff;
            proof {
                reached_at = current as int;
            }
        }

        proof {
            assert(gap(xs@, ys@, current as int) == diff);
            assert forall|x: int|
                below_pending(xs@, ys@, passed_xs as int, passed_ys as int, x) implies #[trigger] gap(
                xs@,
                ys@,
                x,
            ) <= statistic by {
                if x < current {
                    assert(below_pending(xs@, ys@, old_passed_xs, old_passed_ys, x));
                } else {
                    lemma_count_le_split(xs@, passed_xs as int, x);
                    lemma_count_le_split(ys@, passed_ys as int, x);
                }
            }
        }
    }

    proof {
        assert forall|x: int| #[trigger] gap(xs@, ys@, x) <= statistic by {
            if below_pending(xs@, ys@, passed_xs as int, passed_ys as int, x) {
            } else if passed_xs == n {
                lemma_count_le_at_least(xs@, n as int, x);
                lemma_count_le_bounds(xs@, x);
                lemma_count_le_at_least(ys@, passed_ys as int, x);
                lemma_count_le_bounds(ys@, x);
                let c = count_le(ys@, x);
                assert(passed_ys * n <= c * n && c * n <= m * n && n * m == m * n)
                    by (nonlinear_arith)
                    requires
                        passed_ys <= c <= m,
                        0 <= n,
                ;
            } else {
                lemma_count_le_at_least(ys@, m as int, x);
                lemma_count_le_bounds(ys@, x);
                lemma_count_le_at_least(xs@, passed_xs as int, x);
                lemma_count_le_bounds(xs@, x);
                let c = count_le(xs@, x);
                assert(passed_xs * m <= c * m && c * m <= n * m && n * m == m * n)
                    by (nonlinear_arith)
                    requires
                        passed_xs <= c <= n,
                        0 <= m,
                ;
            }
        }
    }
    statistic
}

/// The Kolmogorov-Smirnov statistic of two samples: the greatest vertical
/// distance between their empirical distribution functions, as an exact
/// fraction over the product of the two lengths.
///
pub fn calculate_statistic(xs: &[i64], ys: &[i64]) -> (r: Result<Statistic, Error>)
    ensures
        match r {
            Ok(statistic) => {
                &&& xs@.len() > 0
                &&& ys@.len() > 0
                &&& statistic.den == xs@.len() * ys@.len()
                &&& statistic.num <= statistic.den
                &&& is_greatest_gap(xs@, ys@, statistic.num as int)
            },
            Err(e) => (xs@.len() == 0 || ys@.len() == 0) && e == Error::EmptySample,
        },
{
    let n: usize = xs.len();
    let m: usize = ys.len();
    if n == 0 || m == 0 {
        return Err(Error::EmptySample);
    }
    // Both samples have to be in ascending order for the sweep.

    let mut xs_ascending: Vec<i64> = slice_to_vec(xs);
    let mut ys_ascending: Vec<i64> = slice_to_vec(ys);
    sort_ascending(&mut xs_ascending);
    sort_ascending(&mut ys_ascending);
    proof {
        vstd::seq_lib::to_multiset_len(xs_ascending@);
        vstd::seq_lib::to_multiset_len(xs@);
        vstd::seq_lib::to_multiset_len(ys_ascending@);
        vstd::seq_lib::to_multiset_len(ys@);
    }
    let num: u128 = sweep(&xs_ascending, &ys_ascending);
    proof {
        lemma_gap_permutation(xs_ascending@, ys_ascending@, xs@, ys@);
    }
    let den: u128 = widening_product(n as u64, m as u64);
    Ok(Statistic { num, den })
}

/// The greatest gap does not depend on how the samples are arranged.
pub proof fn lemma_gap_permutation(xs: Seq<i64>, ys: Seq<i64>, us: Seq<i64>, vs: Seq<i64>)
    requires
        xs.to_multiset() == us.to_multiset(),
        ys.to_multiset() == vs.to_multiset(),
    ensures
        forall|x: int| #[trigger] gap(xs, ys, x) == gap(us, vs, x),
        forall|g: int| is_greatest_gap(xs, ys, g) == is_greatest_gap(us, vs, g),
{
    vstd::seq_lib::to_multiset_len(xs);
    vstd::seq_lib::to_multiset_len(us);
    vstd::seq_lib::to_multiset_len(ys);
    vstd::seq_lib::to_multiset_len(vs);
    assert forall|x: int| #[trigger] gap(xs, ys, x) == gap(us, vs, x) by {
        lemma_count_le_permutation(xs, us, x);
        lemma_count_le_permutation(ys, vs, x);
    }
    assert forall|g: int| is_greatest_gap(xs, ys, g) == is_greatest_gap(us, vs, g) by {
        if is_greatest_gap(xs, ys, g) {
            let x = choose|x: int| #[trigger] gap(xs, ys, x) == g;
            assert(gap(us, vs, x) == g);
            assert forall|y: int| #[trigger] gap(us, vs, y) <= g by {
                assert(gap(xs, ys, y) <= g);
            }
        }
        if is_greatest_gap(us, vs, g) {
            let x = choose|x: int| #[trigger] gap(us, vs, x) == g;
            assert(gap(xs, ys, x) == g);
            assert forall|y: int| #[trigger] gap(xs, ys, y) <= g by {
                assert(gap(us, vs, y) <= g);
            }
        }
    }
}


/// The first `k` terms of the series, added with alternating signs that
/// begin with plus.
pub open spec fn alternating_sum(terms: Seq<u64>, k: int) -> int
    decreases k,
{
    if k <= 0 {
        0
    } else if (k - 1) % 2 == 0 {
        alternating_sum(terms, k - 1) + terms[k - 1]
    } else {
        alternating_sum(terms, k - 1) - terms[k - 1]
    }
}

/// The index of the first term from `from` on that is below the tolerance,
/// or the number of terms where there is none.
pub open spec fn first_small(terms: Seq<u64>, from: int) -> int
    decreases terms.len() - from,
{
    if from >= terms.len() {
        terms.len() as int
    } else if terms[from] < TERM_TOLERANCE {
        from
    } else {
        first_small(terms, from + 1)
    }
}

/// No term before the first small one is below the tolerance, and the first
/// small one is.
pub proof fn lemma_first_small(terms: Seq<u64>, from: int)
    requires
        0 <= from <= terms.len(),
    ensures
        from <= first_small(terms, from) <= terms.len(),
        forall|i: int| from <= i < first_small(terms, from) ==> terms[i] >= TERM_TOLERANCE,
        first_small(terms, from) < terms.len() ==> terms[first_small(terms, from)]
            < TERM_TOLERANCE,
    decreases terms.len() - from,
{
    if from < terms.len() && terms[from] >= TERM_TOLERANCE {
        lemma_first_small(terms, from + 1);
    }
}

/// The value of the Kolmogorov series whose terms have the given magnitudes:
/// the sum up to and with the first term below the tolerance, cut off at one.
/// Where none of the first `MAX_TERMS` terms is that small the series has not
/// converged, and a sum below zero is no probability.
pub open spec fn series_value(terms: Seq<u64>) -> Result<u64, Error> {
    let k = first_small(terms, 0);
    if k < terms.len() && k < MAX_TERMS {
        let sum = alternating_sum(terms, k + 1);
        if sum < 0 {
            Err(Error::ProbabilityOutOfRange { sum: sum as i128 })
        } else if sum >= PROBABILITY_SCALE {
            Ok(PROBABILITY_SCALE)
        } else {
            Ok(sum as u64)
        }
    } else {
        Err(
            Error::SeriesNotConverged {
                terms: if terms.len() < MAX_TERMS {
                    terms.len() as usize
                } else {
                    MAX_TERMS
                },
            },
        )
    }
}

/// Sums the Kolmogorov series from the magnitudes of its terms, given in
/// order from the first. The result is in units of `PROBABILITY_SCALE`.
pub fn probability_kolmogorov_smirnov(terms: &[u64]) -> (r: Result<u64, Error>)
    ensures
        r == series_value(terms@),
        r matches Ok(q) ==> q <= PROBABILITY_SCALE,
{
    let mut sum: i128 = 0;
    let mut k: usize = 0;
    while k < terms.len() && k < MAX_TERMS
        invariant
            k <= terms@.len(),
            k <= MAX_TERMS,
            sum == alternating_sum(terms@, k as int),
            -(k * u64::MAX) <= sum <= k * u64::MAX,
            first_small(terms@, 0) == first_small(terms@, k as int),
        decreases terms@.len() - k,
    {
        let magnitude: u64 = terms[k];
        if k % 2 == 0 {
            sum = sum + magnitude as i128;
        } else {
            sum = sum - magnitude as i128;
        }
        if magnitude < TERM_TOLERANCE {
            // A sum above one is cut off at one.
            if sum < 0 {
                return Err(Error::ProbabilityOutOfRange { sum });
            } else if sum >= PROBABILITY_SCALE as i128 {
                return Ok(PROBABILITY_SCALE);
            } else {
                return Ok(sum as u64);
            }
        }
        k += 1;
    }
    proof {
        lemma_first_small(terms@, k as int);
    }
    Err(Error::SeriesNotConverged { terms: k })
}

/// The magnitudes are what `term` returned for the first terms of the series
/// at this statistic and these sample sizes, asked for in order up to the
/// first one below the tolerance, or up to the permitted number of terms.
pub open spec fn is_trace<F: Fn(usize, usize, Statistic, usize) -> u64>(
    term: &F,
    statistic: Statistic,
    n1: usize,
    n2: usize,
    terms: Seq<u64>,
) -> bool {
    &&& 1 <= terms.len() <= MAX_TERMS
    &&& forall|i: int|
        0 <= i < terms.len() ==> call_ensures(
            term,
            (n1, n2, statistic, (i + 1) as usize),
            #[trigger] terms[i],
        )
    &&& forall|i: int| 0 <= i < terms.len() - 1 ==> terms[i] >= TERM_TOLERANCE
    &&& terms.len() < MAX_TERMS ==> terms[terms.len() - 1] < TERM_TOLERANCE
}

/// The probability of rejection that belongs to the magnitudes of the series'
/// terms: one minus the value of the series.
pub open spec fn reject_probability_value(terms: Seq<u64>) -> Result<Ratio, Error> {
    match series_value(terms) {
        Ok(q) => Ok(Ratio { num: (PROBABILITY_SCALE - q) as u64, den: PROBABILITY_SCALE }),
        Err(e) => Err(e),
    }
}

/// What `calculate_reject_probability` may return.
///
/// Samples that are too small are refused. A statistic of zero gives
/// probability zero without the series being summed. Otherwise the result is
/// the one that belongs to the terms that `term` returned.
pub open spec fn reject_probability_outcome<F: Fn(usize, usize, Statistic, usize) -> u64>(
    term: &F,
    statistic: Statistic,
    n1: usize,
    n2: usize,
    r: Result<Ratio, Error>,
) -> bool {
    if n1 <= MINIMUM_LENGTH || n2 <= MINIMUM_LENGTH {
        r == Err::<Ratio, Error>(Error::SampleTooSmall { xs_length: n1, ys_length: n2 })
    } else if statistic.num == 0 {
        r == Ok::<Ratio, Error>(Ratio { num: 0, den: PROBABILITY_SCALE })
    } else {
        exists|terms: Seq<u64>| #[trigger]
            is_trace(term, statistic, n1, n2, terms) && r == reject_probability_value(terms)
    }
}

/// The probability with which the hypothesis that both samples come from one
/// distribution is rejected, for a statistic and the sizes of the samples.
///
/// `term(n1, n2, statistic, j)` is asked for the magnitude of the `j`-th term
/// of the Kolmogorov series, in units of `PROBABILITY_SCALE`.
pub fn calculate_reject_probability<F: Fn(usize, usize, Statistic, usize) -> u64>(
    statistic: Statistic,
    n1: usize,
    n2: usize,
    term: &F,
) -> (r: Result<Ratio, Error>)
    requires
        forall|j: usize| 1 <= j <= MAX_TERMS ==> call_requires(term, (n1, n2, statistic, j)),
    ensures
        reject_probability_outcome(term, statistic, n1, n2, r),
        r matches Ok(probability) ==> probability.den == PROBABILITY_SCALE
            && probability.in_unit_interval(),
{
    // The approximation is only good for samples of more than seven values.
    if n1 <= MINIMUM_LENGTH || n2 <= MINIMUM_LENGTH {
        return Err(Error::SampleTooSmall { xs_length: n1, ys_length: n2 });
    }
    if statistic.num == 0 {
        return Ok(Ratio { num: 0, den: PROBABILITY_SCALE });
    }
    let mut terms: Vec<u64> = Vec::new();
    let mut settled: bool = false;
    while !settled && terms.len() < MAX_TERMS
        invariant
            terms@.len() <= MAX_TERMS,
            forall|j: usize| 1 <= j <= MAX_TERMS ==> call_requires(term, (n1, n2, statistic, j)),
            forall|i: int|
                0 <= i < terms@.len() ==> call_ensures(
                    term,
                    (n1, n2, statistic, (i + 1) as usize),
                    #[trigger] terms@[i],
                ),
            settled ==> terms@.len() >= 1 && terms@[terms@.len() - 1] < TERM_TOLERANCE,
            forall|i: int|
                0 <= i < terms@.len() && !(settled && i == terms@.len() - 1) ==> terms@[i]
                    >= TERM_TOLERANCE,
        decreases MAX_TERMS - terms@.len() + if settled { 0int } else { 1int },
    {
        let j: usize = terms.len() + 1;
        let magnitude: u64 = term(n1, n2, statistic, j);
        terms.push(magnitude);
        settled = magnitude < TERM_TOLERANCE;
    }
    assert(is_trace(term, statistic, n1, n2, terms@));
    match probability_kolmogorov_smirnov(terms.as_slice()) {
        Ok(q) => Ok(Ratio { num: PROBABILITY_SCALE - q, den: PROBABILITY_SCALE }),
        Err(e) => Err(e),
    }
}


/// The point of the bisection grid with the given number.
pub open spec fn grid_point(number: u64) -> Statistic {
    Statistic { num: number as u128, den: BISECTION_GRID as u128 }
}

/// The confidence level lies strictly between zero and one.
pub open spec fn valid_confidence(confidence: Ratio) -> bool {
    0 < confidence.num < confidence.den
}

/// At the grid point with this number a probability of rejection was
/// computed, and whether it exceeds the confidence level is `answer`.
pub open spec fn exceeds_at<F: Fn(usize, usize, Statistic, usize) -> u64>(
    term: &F,
    n1: usize,
    n2: usize,
    confidence: Ratio,
    number: u64,
    answer: bool,
) -> bool {
    exists|probability: Ratio| #[trigger]
        reject_probability_outcome(term, grid_point(number), n1, n2, Ok(probability)) && answer
            == confidence.less(probability)
}

/// What `calculate_critical_value` may return.
///
/// A confidence level outside `(0, 1)` is refused first, samples that are too
/// small next. The critical value is a point of the grid at which the
/// probability of rejection exceeded the confidence level, unless it is the
/// grid's last point, while at the point before it the probability did not,
/// unless that is the grid's first point. An error can only be one that the
/// computation of a probability of rejection gave at a point of the grid: the
/// bisection itself always closes its bracket.
pub open spec fn critical_value_outcome<F: Fn(usize, usize, Statistic, usize) -> u64>(
    term: &F,
    n1: usize,
    n2: usize,
    confidence: Ratio,
    r: Result<Statistic, Error>,
) -> bool {
    match r {
        Ok(critical) => {
            &&& valid_confidence(confidence)
            &&& n1 > MINIMUM_LENGTH && n2 > MINIMUM_LENGTH
            &&& critical.den == BISECTION_GRID
            &&& 1 <= critical.num <= BISECTION_GRID
            &&& critical.num < BISECTION_GRID ==> exceeds_at(
                term,
                n1,
                n2,
                confidence,
                critical.num as u64,
                true,
            )
            &&& critical.num > 1 ==> exceeds_at(
                term,
                n1,
                n2,
                confidence,
                (critical.num - 1) as u64,
                false,
            )
        },
        Err(e) => if !valid_confidence(confidence) {
            e == (Error::ConfidenceOutOfRange { num: confidence.num, den: confidence.den })
        } else if n1 <= MINIMUM_LENGTH || n2 <= MINIMUM_LENGTH {
            e == (Error::SampleTooSmall { xs_length: n1, ys_length: n2 })
        } else {
            exists|number: u64|
                1 <= number < BISECTION_GRID && #[trigger] reject_probability_outcome(
                    term,
                    grid_point(number),
                    n1,
                    n2,
                    Err(e),
                )
        },
    }
}

/// Two to the power `e`.
pub open spec fn power_of_two(e: nat) -> int
    decreases e,
{
    if e == 0 {
        1
    } else {
        2 * power_of_two((e - 1) as nat)
    }
}

/// `term` may be asked for every term of the series at every inner point of
/// the bisection grid.
pub open spec fn answers_on_grid<F: Fn(usize, usize, Statistic, usize) -> u64>(
    term: &F,
    n1: usize,
    n2: usize,
) -> bool {
    forall|point: Statistic, j: usize|
        point.den == BISECTION_GRID && 1 <= point.num < BISECTION_GRID && 1 <= j <= MAX_TERMS
            ==> #[trigger] call_requires(term, (n1, n2, point, j))
}

/// The critical value of the test for two sample sizes and a confidence
/// level: the least statistic on the bisection grid at which the probability
/// of rejection exceeds the confidence level, found by bisection of the unit
/// interval on the assumption that the probability grows with the statistic.
/// The statistic one itself is never tried: it is the result where the
/// probability exceeds the confidence level at no point that was tried.
///
/// `term(n1, n2, statistic, j)` is asked for the magnitude of the `j`-th term
/// of the Kolmogorov series, in units of `PROBABILITY_SCALE`.
pub fn calculate_critical_value<F: Fn(usize, usize, Statistic, usize) -> u64>(
    n1: usize,
    n2: usize,
    confidence: Ratio,
    term: &F,
) -> (r: Result<Statistic, Error>)
    requires
        answers_on_grid(term, n1, n2),
    ensures
        critical_value_outcome(term, n1, n2, confidence, r),
{
    if confidence.num == 0 || confidence.num >= confidence.den {
        return Err(Error::ConfidenceOutOfRange { num: confidence.num, den: confidence.den });
    }
    // The approximation is only good for samples of more than seven values.

    if n1 <= MINIMUM_LENGTH || n2 <= MINIMUM_LENGTH {
        return Err(Error::SampleTooSmall { xs_length: n1, ys_length: n2 });
    }
    // The statistic lies between zero and one, so the search starts from the
    // whole unit interval.

    let mut low: u64 = 0;
    let mut high: u64 = BISECTION_GRID;
    let mut round: usize = 0;
    let ghost mut halvings_left: nat = 27;
    proof {
        reveal_with_fuel(power_of_two, 28);
        assert(power_of_two(27) == BISECTION_GRID);
    }

    while round < MAX_ROUNDS
        invariant
            answers_on_grid(term, n1, n2),
            valid_confidence(confidence),
            n1 > MINIMUM_LENGTH && n2 > MINIMUM_LENGTH,
            0 <= low < high <= BISECTION_GRID,
            high - low == power_of_two(halvings_left),
            halvings_left + round == 27,
            high < BISECTION_GRID ==> exceeds_at(term, n1, n2, confidence, high, true),
            low > 0 ==> exceeds_at(term, n1, n2, confidence, low, false),
        decreases MAX_ROUNDS - round,
    {
        let width: u64 = high - low;
        if width * BRACKET_PRECISION <= BISECTION_GRID {
            proof {
                if halvings_left > 0 {
                    reveal_with_fuel(power_of_two, 2);
                    lemma_power_of_two_positive((halvings_left - 1) as nat);
                }
            }
            return Ok(Statistic { num: high as u128, den: BISECTION_GRID as u128 });
        }
        proof {
            reveal_with_fuel(power_of_two, 2);
            assert(halvings_left > 0);
            lemma_power_of_two_positive((halvings_left - 1) as nat);
        }
        let middle: u64 = low + width / 2;
        assert(grid_point(middle).num == middle);
        let probability: Ratio = match calculate_reject_probability(
            Statistic { num: middle as u128, den: BISECTION_GRID as u128 },
            n1,
            n2,
            term,
        ) {
            Ok(probability) => probability,
            Err(e) => {
                return Err(e);
            },
        };
        if confidence.is_less(&probability) {
            // The probability of rejection at `high` exceeds the confidence.
            high = middle;
        } else {
            // The probability of rejection at `low` does not.
            low = middle;
        }
        proof {
            halvings_left = (halvings_left - 1) as nat;
        }
        round += 1;
    }
    Err(Error::BisectionNotConverged { rounds: round })
}

/// Every power of two is positive.
pub proof fn lemma_power_of_two_positive(e: nat)
    ensures
        power_of_two(e) >= 1,
    decreases e,
{
    if e > 0 {
        lemma_power_of_two_positive((e - 1) as nat);
    }
}


/// `term` may be asked for every term of the series at every statistic that
/// two samples of these sizes can have.
pub open spec fn answers_for_samples<F: Fn(usize, usize, Statistic, usize) -> u64>(
    term: &F,
    n1: usize,
    n2: usize,
) -> bool {
    forall|statistic: Statistic, j: usize|
        statistic.den == n1 * n2 && 1 <= j <= MAX_TERMS ==> #[trigger] call_requires(
            term,
            (n1, n2, statistic, j),
        )
}

/// What `test` may return.
///
/// A confidence level outside `(0, 1)` is refused first, samples of seven
/// values or fewer next. The result holds the exact statistic of the samples,
/// the critical value and the probability of rejection that belong to it, and
/// rejects exactly where that probability exceeds the confidence level. An
/// error can only be one that the computation of the critical value or of the
/// probability of rejection gave.
pub open spec fn test_outcome<F: Fn(usize, usize, Statistic, usize) -> u64>(
    term: &F,
    xs: Seq<i64>,
    ys: Seq<i64>,
    confidence: Ratio,
    r: Result<TestResult, Error>,
) -> bool {
    let n1 = xs.len() as usize;
    let n2 = ys.len() as usize;
    match r {
        Ok(result) => {
            &&& valid_confidence(confidence)
            &&& n1 > MINIMUM_LENGTH && n2 > MINIMUM_LENGTH
            &&& result.confidence == confidence
            &&& result.statistic.den == n1 * n2
            &&& result.statistic.num <= result.statistic.den
            &&& is_greatest_gap(xs, ys, result.statistic.num as int)
            &&& critical_value_outcome(term, n1, n2, confidence, Ok(result.critical_value))
            &&& reject_probability_outcome(
                term,
                result.statistic,
                n1,
                n2,
                Ok(result.reject_probability),
            )
            &&& result.reject_probability.den == PROBABILITY_SCALE
            &&& result.reject_probability.in_unit_interval()
            &&& result.is_rejected == confidence.less(result.reject_probability)
        },
        Err(e) => if !valid_confidence(confidence) {
            e == (Error::ConfidenceOutOfRange { num: confidence.num, den: confidence.den })
        } else if n1 <= MINIMUM_LENGTH || n2 <= MINIMUM_LENGTH {
            e == (Error::SampleTooSmall { xs_length: n1, ys_length: n2 })
        } else {
            ||| critical_value_outcome(term, n1, n2, confidence, Err(e))
            ||| exists|statistic: Statistic|
                {
                    &&& statistic.den == n1 * n2
                    &&& is_greatest_gap(xs, ys, statistic.num as int)
                    &&& #[trigger] reject_probability_outcome(term, statistic, n1, n2, Err(e))
                }
        },
    }
}

/// The two-sample Kolmogorov-Smirnov test of the hypothesis that `xs` and
/// `ys` come from one distribution, at a confidence level strictly between
/// zero and one. Both samples have to hold more than seven values.
///
/// `term(n1, n2, statistic, j)` is asked for the magnitude of the `j`-th term
/// of the Kolmogorov series, in units of `PROBABILITY_SCALE`.
pub fn test<F: Fn(usize, usize, Statistic, usize) -> u64>(
    xs: &[i64],
    ys: &[i64],
    confidence: Ratio,
    term: &F,
) -> (r: Result<TestResult, Error>)
    requires
        answers_on_grid(term, xs@.len() as usize, ys@.len() as usize),
        answers_for_samples(term, xs@.len() as usize, ys@.len() as usize),
    ensures
        test_outcome(term, xs@, ys@, confidence, r),
        xs@.to_multiset() == ys@.to_multiset() ==> (r matches Ok(result) ==> result.statistic.num
            == 0 && result.reject_probability.num == 0 && !result.is_rejected),
{
    if confidence.num == 0 || confidence.num >= confidence.den {
        return Err(Error::ConfidenceOutOfRange { num: confidence.num, den: confidence.den });
    }
    // The approximation is only good for samples of more than seven values.

    let n1: usize = xs.len();
    let n2: usize = ys.len();
    if n1 <= MINIMUM_LENGTH || n2 <= MINIMUM_LENGTH {
        return Err(Error::SampleTooSmall { xs_length: n1, ys_length: n2 });
    }
    let statistic: Statistic = match calculate_statistic(xs, ys) {
        Ok(statistic) => statistic,
        Err(e) => {
            return Err(e);
        },
    };
    let critical_value: Statistic = match calculate_critical_value(n1, n2, confidence, term) {
        Ok(critical_value) => critical_value,
        Err(e) => {
            return Err(e);
        },
    };
    let reject_probability: Ratio = match calculate_reject_probability(statistic, n1, n2, term) {
        Ok(reject_probability) => reject_probability,
        Err(e) => {
            return Err(e);
        },
    };
    let is_rejected: bool = confidence.is_less(&reject_probability);
    proof {
        if xs@.to_multiset() == ys@.to_multiset() {
            lemma_gap_of_permutation(xs@, ys@, statistic.num as int);
            assert(0 * confidence.den == 0);
        }
    }
    Ok(TestResult { is_rejected, statistic, reject_probability, critical_value, confidence })
}

/// Between two arrangements of the same values the greatest gap is zero.
pub proof fn lemma_gap_of_permutation(xs: Seq<i64>, ys: Seq<i64>, g: int)
    requires
        xs.to_multiset() == ys.to_multiset(),
        is_greatest_gap(xs, ys, g),
    ensures
        g == 0,
{
    vstd::seq_lib::to_multiset_len(xs);
    vstd::seq_lib::to_multiset_len(ys);
    let x = choose|x: int| #[trigger] gap(xs, ys, x) == g;
    lemma_count_le_permutation(xs, ys, x);
}

} // verus!
