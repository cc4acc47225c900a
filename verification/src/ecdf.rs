//! Empirical cumulative distribution functions and order statistics.

use crate::counting::{
    count_le, has_rank, lemma_count_le_at_least, lemma_count_le_at_most, lemma_count_le_split,
    lemma_count_le_bounds, lemma_count_le_take_step, lemma_rank_permutation, lemma_sorted_rank,
    lemma_swap_permutation, sorted,
};
use crate::error::Error;
use crate::ratio::{widening_product, Ratio};
use crate::sorting::sort_ascending;
use vstd::prelude::*;
use vstd::slice::slice_to_vec;

verus! {

/// Exchanges the values at two positions of a vector.
fn swap(v: &mut Vec<i64>, i: usize, j: usize)
    requires
        i < old(v).len(),
        j < old(v).len(),
    ensures
        final(v)@ == old(v)@.update(i as int, old(v)@[j as int]).update(j as int, old(v)@[i as int]),
        final(v)@.to_multiset() == old(v)@.to_multiset(),
{
    let a: i64 = v[i];
    let b: i64 = v[j];
    v[i] = b;
    v[j] = a;
    proof {
        lemma_swap_permutation(old(v)@, i as int, j as int);
    }
}

/// The value at 1-based position `position` of the sample in ascending order,
/// found by selection on a private copy, without sorting it.
///
/// An empty sample is refused first, a rank outside `1..=length` next.
pub fn rank(samples: &[i64], position: usize) -> (r: Result<i64, Error>)
    ensures
        match r {
            Ok(v) => 1 <= position <= samples@.len() && has_rank(samples@, position as int, v),
            Err(e) => if samples@.len() == 0 {
                e == Error::EmptySample
            } else {
                !(1 <= position <= samples@.len()) && e == (Error::RankOutOfRange {
                    rank: position,
                    length: samples.len(),
                })
            },
        },
{
    let length: usize = samples.len();
    if length == 0 {
        return Err(Error::EmptySample);
    }
    if position == 0 || position > length {
        return Err(Error::RankOutOfRange { rank: position, length });
    }
    let mut work: Vec<i64> = slice_to_vec(samples);
    let mut low: usize = 0;
    let mut high: usize = length;

    loop
        invariant
            work@.len() == length,
            length == samples@.len(),
            work@.to_multiset() == samples@.to_multiset(),
            low < position <= high <= length,
            forall|i: int, j: int| 0 <= i < low && low <= j < length ==> work@[i] <= work@[j],
            forall|i: int, j: int| 0 <= i < high && high <= j < length ==> work@[i] <= work@[j],
        decreases high - low,
    {
        let pivot: i64 = work[low];

        if low >= high - 1 {
            proof {
                let s = work@;
                assert(s[low as int] == pivot);
                assert(s.contains(pivot));
                lemma_count_le_at_least(s, low + 1, pivot as int);
                lemma_count_le_at_most(s, low as int, pivot - 1);
                lemma_rank_permutation(s, samples@, position as int, pivot);
            }
            return Ok(pivot);
        }
        // First decide whether the wanted value lies below the pivot: bring
        // every value below the pivot to the left of the window.

        let mut bottom: usize = low;
        let mut top: usize = high - 1;

        while bottom < top
            invariant
                work@.len() == length,
                work@.to_multiset() == samples@.to_multiset(),
                low <= bottom <= top < high <= length,
                forall|i: int, j: int| 0 <= i < low && low <= j < length ==> work@[i] <= work@[j],
                forall|i: int, j: int| 0 <= i < high && high <= j < length ==> work@[i] <= work@[j],
                forall|k: int| low <= k < bottom ==> work@[k] < pivot,
                forall|k: int| top < k < high ==> work@[k] >= pivot,
                work@[bottom as int] >= pivot || work@[top as int] >= pivot,
                bottom == low ==> work@[low as int] <= pivot && (work@[low as int] == pivot
                    || bottom < top),
            decreases top - bottom, (if work@[bottom as int] < pivot { 0int } else { 1int }),
        {
            let ghost start: int = bottom as int;
            while bottom < top && work[bottom] < pivot
                invariant
                    work@.len() == length,
                    low <= start <= bottom <= top < high <= length,
                    forall|k: int| low <= k < bottom ==> work@[k] < pivot,
                    bottom == start || work@[start] < pivot,
                decreases top - bottom,
            {
                bottom += 1;
            }
            assert(work@[bottom as int] >= pivot);
            while bottom < top && work[top] >= pivot
                invariant
                    work@.len() == length,
                    bottom <= top < high <= length,
                    forall|k: int| top < k < high ==> work@[k] >= pivot,
                decreases top - bottom,
            {
                top -= 1;
            }

            if bottom < top {
                swap(&mut work, bottom, top);
            }
        }

        if position <= bottom {
            // The wanted value is below the pivot: drop the pivot and all that
            // is at least as large.
            high = bottom;
        } else {
            // The wanted value is the pivot or larger: drop what is smaller.
            let ghost before: int = low as int;
            low = bottom;

            // Next decide whether the pivot itself is wanted: bring every
            // value equal to the pivot to the left of the window.
            let ghost stalled: bool = low == before;
            let mut bottom: usize = low;
            let mut top: usize = high - 1;

            while bottom < top
                invariant
                    work@.len() == length,
                    work@.to_multiset() == samples@.to_multiset(),
                    0 <= before <= low <= bottom <= top < high <= length,
                    forall|i: int, j: int|
                        0 <= i < before && before <= j < length ==> work@[i] <= work@[j],
                    forall|i: int, j: int|
                        0 <= i < high && high <= j < length ==> work@[i] <= work@[j],
                    forall|k: int| before <= k < low ==> work@[k] < pivot,
                    forall|k: int| low <= k < high ==> work@[k] >= pivot,
                    forall|k: int| low <= k < bottom ==> work@[k] == pivot,
                    forall|k: int| top < k < high ==> work@[k] != pivot,
                    stalled ==> bottom > low || (work@[low as int] == pivot && bottom < top),
                decreases top - bottom, (if work@[bottom as int] == pivot { 0int } else { 1int }),
            {
                while bottom < top && work[bottom] == pivot
                    invariant
                        work@.len() == length,
                        low <= bottom <= top < high <= length,
                        forall|k: int| low <= k < bottom ==> work@[k] == pivot,
                        stalled ==> bottom > low || (work@[low as int] == pivot && bottom
                            < top),
                    decreases top - bottom,
                {
                    bottom += 1;
                }
                while bottom < top && work[top] != pivot
                    invariant
                        work@.len() == length,
                        bottom <= top < high <= length,
                        forall|k: int| top < k < high ==> work@[k] != pivot,
                    decreases top - bottom,
                {
                    top -= 1;
                }

                if bottom < top {
                    swap(&mut work, bottom, top);
                }
            }

            if position <= bottom {
                proof {
                    let s = work@;
                    assert(s[position - 1] == pivot);
                    assert(s.contains(pivot));
                    assert(s[low as int] == pivot);
                    assert forall|j: int| 0 <= j < bottom implies s[j] <= pivot by {
                        if j < before {
                            assert(s[j] <= s[low as int]);
                        }
                    }
                    lemma_count_le_at_least(s, bottom as int, pivot as int);
                    assert forall|j: int| low <= j < s.len() implies s[j] > pivot - 1 by {
                        if j >= high {
                            assert(s[low as int] <= s[j]);
                        }
                    }
                    lemma_count_le_at_most(s, low as int, pivot - 1);
                    lemma_rank_permutation(s, samples@, position as int, pivot);
                }
                return Ok(pivot);
            }
            // The wanted value is above the pivot: drop the pivot as well.

            low = bottom;
        }
    }
}

/// The Nearest Rank of the proportion `num / den` in a sample of `length`
/// values: the least whole number that is at least `num * length / den`.
pub open spec fn nearest_rank(num: int, den: int, length: int) -> int {
    if (num * length) % den == 0 {
        (num * length) / den
    } else {
        (num * length) / den + 1
    }
}

/// The Nearest Rank is the least `r` with `num * length <= r * den`, and for
/// a proportion in `(0, 1]` of a sample that is not empty it is a rank of
/// that sample.
pub proof fn lemma_nearest_rank(num: int, den: int, length: int)
    requires
        0 < num <= den,
        0 < length,
    ensures
        1 <= nearest_rank(num, den, length) <= length,
        (nearest_rank(num, den, length) - 1) * den < num * length,
        num * length <= nearest_rank(num, den, length) * den,
{
    let product = num * length;
    let q = product / den;
    let m = product % den;
    vstd::arithmetic::div_mod::lemma_fundamental_div_mod(product, den);
    vstd::arithmetic::div_mod::lemma_mod_bound(product, den);
    assert(product == den * q + m);
    assert(0 < product <= den * length) by (nonlinear_arith)
        requires
            0 < num <= den,
            0 < length,
            product == num * length,
    ;
    let r = nearest_rank(num, den, length);
    assert(r == if m == 0 { q } else { q + 1 });
    assert(r * den == den * q + (if m == 0 { 0 } else { den }) && (r - 1) * den == den * q + (if m
        == 0 { -den } else { 0 })) by (nonlinear_arith)
        requires
            r == if m == 0 { q } else { q + 1 },
    ;
    assert(r >= 1 && r <= length) by (nonlinear_arith)
        requires
            0 < den,
            0 <= m < den,
            0 < den * q + m <= den * length,
            r == if m == 0 { q } else { q + 1 },
    ;
}

/// Computes the Nearest Rank. The denominator is wide enough for a
/// percentile's, which is a hundred times that of its fraction.
fn nearest_rank_of(num: u64, den: u128, length: usize) -> (r: usize)
    requires
        0 < num <= den,
        den <= 100 * u64::MAX,
        0 < length,
    ensures
        r == nearest_rank(num as int, den as int, length as int),
        1 <= r <= length,
{
    proof {
        lemma_nearest_rank(num as int, den as int, length as int);
    }
    let product: u128 = widening_product(num, length as u64);
    let quotient: u128 = product / den;
    let remainder: u128 = product % den;
    if remainder == 0 {
        quotient as usize
    } else {
        (quotient + 1) as usize
    }
}

/// The value of the empirical distribution function of the sample at `x`: the
/// fraction of the sample that is at most `x`, found by one pass over it.
pub fn ecdf(samples: &[i64], x: i64) -> (r: Result<Ratio, Error>)
    ensures
        match r {
            Ok(value) => {
                &&& samples@.len() > 0
                &&& value.num == count_le(samples@, x as int)
                &&& value.den == samples@.len()
                &&& value.in_unit_interval()
            },
            Err(e) => samples@.len() == 0 && e == Error::EmptySample,
        },
{
    let length: usize = samples.len();
    let mut at_most: usize = 0;
    let mut index: usize = 0;
    while index < length
        invariant
            length == samples@.len(),
            index <= length,
            at_most <= index,
            at_most == count_le(samples@.take(index as int), x as int),
        decreases length - index,
    {
        proof {
            lemma_count_le_take_step(samples@, index as int, x as int);
        }
        if samples[index] <= x {
            at_most += 1;
        }
        index += 1;
    }
    if length == 0 {
        return Err(Error::EmptySample);
    }
    assert(samples@.take(length as int) =~= samples@);
    Ok(Ratio { num: at_most as u64, den: length as u64 })
}

/// The value at the Nearest Rank of a proportion: the least value of the
/// sample such that at least that proportion of the sample is at most it.
///
/// A proportion outside `(0, 1]` is refused first, an empty sample next.
pub fn p(samples: &[i64], proportion: Ratio) -> (r: Result<i64, Error>)
    ensures
        match r {
            Ok(v) => 0 < proportion.num <= proportion.den && samples@.len() > 0 && has_rank(
                samples@,
                nearest_rank(proportion.num as int, proportion.den as int, samples@.len() as int),
                v,
            ),
            Err(e) => if 0 < proportion.num <= proportion.den {
                samples@.len() == 0 && e == Error::EmptySample
            } else {
                e == (Error::ProportionOutOfRange { num: proportion.num, den: proportion.den })
            },
        },
{
    if proportion.num == 0 || proportion.num > proportion.den {
        return Err(Error::ProportionOutOfRange { num: proportion.num, den: proportion.den });
    }
    let length: usize = samples.len();
    if length == 0 {
        return Err(Error::EmptySample);
    }
    let position: usize = nearest_rank_of(proportion.num, proportion.den as u128, length);
    rank(samples, position)
}

/// The value at the Nearest Rank of a percentile, which is a hundred times
/// a proportion.
///
/// A percentile outside `(0, 100]` is refused first, an empty sample next.
pub fn percentile(samples: &[i64], percent: Ratio) -> (r: Result<i64, Error>)
    ensures
        match r {
            Ok(v) => 0 < percent.num <= 100 * percent.den && samples@.len() > 0 && has_rank(
                samples@,
                nearest_rank(
                    percent.num as int,
                    100 * percent.den,
                    samples@.len() as int,
                ),
                v,
            ),
            Err(e) => if 0 < percent.num <= 100 * percent.den {
                samples@.len() == 0 && e == Error::EmptySample
            } else {
                e == (Error::PercentileOutOfRange { num: percent.num, den: percent.den })
            },
        },
{
    let scaled: u128 = 100 * (percent.den as u128);
    if percent.num == 0 || percent.num as u128 > scaled {
        return Err(Error::PercentileOutOfRange { num: percent.num, den: percent.den });
    }
    let length: usize = samples.len();
    if length == 0 {
        return Err(Error::EmptySample);
    }
    let position: usize = nearest_rank_of(percent.num, scaled, length);
    rank(samples, position)
}

/// Looks for `x` in an ascending vector by halving. `Ok` carries the index of
/// one occurrence, `Err` the index at which `x` would have to be inserted:
/// all that stands before it is below `x`, all from it on is above.
fn binary_search(values: &Vec<i64>, x: i64) -> (r: Result<usize, usize>)
    requires
        sorted(values@),
    ensures
        match r {
            Ok(found) => found < values@.len() && values@[found as int] == x,
            Err(gap) => {
                &&& gap <= values@.len()
                &&& forall|j: int| 0 <= j < gap ==> values@[j] < x
                &&& forall|j: int| gap <= j < values@.len() ==> values@[j] > x
            },
        },
{
    let mut low: usize = 0;
    let mut high: usize = values.len();
    while low < high
        invariant
            sorted(values@),
            low <= high <= values@.len(),
            forall|j: int| 0 <= j < low ==> values@[j] < x,
            forall|j: int| high <= j < values@.len() ==> values@[j] > x,
        decreases high - low,
    {
        let middle: usize = low + (high - low) / 2;
        let value: i64 = values[middle];
        if value == x {
            return Ok(middle);
        } else if value < x {
            low = middle + 1;
        } else {
            high = middle;
        }
    }
    Err(low)
}

/// The empirical distribution of a sample, kept as an ascending copy of it so
/// that each query costs a search or a lookup.
pub struct Ecdf {
    samples: Vec<i64>,
}

impl Ecdf {
    /// The values of the sample in ascending order.
    pub closed spec fn view(&self) -> Seq<i64> {
        self.samples@
    }

    /// What holds of every distribution: it has a value, and its values are
    /// in ascending order.
    #[verifier::type_invariant]
    pub closed spec fn well_formed(&self) -> bool {
        self.samples@.len() > 0 && sorted(self.samples@)
    }

    /// Builds the distribution of a sample by sorting a copy of it.
    pub fn new(samples: &[i64]) -> (r: Result<Ecdf, Error>)
        ensures
            match r {
                Ok(distribution) => {
                    &&& samples@.len() > 0
                    &&& sorted(distribution@)
                    &&& distribution@.to_multiset() == samples@.to_multiset()
                    &&& distribution@.len() == samples@.len()
                },
                Err(e) => samples@.len() == 0 && e == Error::EmptySample,
            },
    {
        let length: usize = samples.len();
        if length == 0 {
            return Err(Error::EmptySample);
        }
        let mut ascending: Vec<i64> = slice_to_vec(samples);
        sort_ascending(&mut ascending);
        proof {
            vstd::seq_lib::to_multiset_len(ascending@);
            vstd::seq_lib::to_multiset_len(samples@);
        }
        Ok(Ecdf { samples: ascending })
    }

    /// The number of values in the sample.
    pub fn len(&self) -> (length: usize)
        ensures
            length == self@.len(),
            length > 0,
    {
        proof {
            use_type_invariant(self);
        }
        self.samples.len()
    }

    /// The fraction of the sample that is at most `x`.
    pub fn value(&self, x: i64) -> (r: Ratio)
        ensures
            r.num == count_le(self@, x as int),
            r.den == self@.len(),
            r.in_unit_interval(),
    {
        proof {
            use_type_invariant(self);
            lemma_count_le_bounds(self.samples@, x as int);
        }
        let length: usize = self.samples.len();
        let at_most: usize = match binary_search(&self.samples, x) {
            Ok(found) => {
                // One occurrence of `x` is known: walk to the last one.
                let mut index: usize = found;
                while index + 1 < length && self.samples[index + 1] == x
                    invariant
                        length == self.samples@.len(),
                        index < length,
                        self.samples@[index as int] == x,
                    decreases length - index,
                {
                    index += 1;
                }
                proof {
                    lemma_count_le_split(self.samples@, index + 1, x as int);
                }
                index + 1
            },
            Err(gap) => {
                // No value is `x`: what stands before the gap is below it.
                proof {
                    lemma_count_le_split(self.samples@, gap as int, x as int);
                }
                gap
            },
        };
        Ratio { num: at_most as u64, den: length as u64 }
    }

    /// The value at the Nearest Rank of a proportion in `(0, 1]`.
    pub fn p(&self, proportion: Ratio) -> (r: Result<i64, Error>)
        ensures
            match r {
                Ok(v) => 0 < proportion.num <= proportion.den && has_rank(
                    self@,
                    nearest_rank(proportion.num as int, proportion.den as int, self@.len() as int),
                    v,
                ),
                Err(e) => !(0 < proportion.num <= proportion.den) && e
                    == (Error::ProportionOutOfRange { num: proportion.num, den: proportion.den }),
            },
    {
        proof {
            use_type_invariant(self);
        }
        if proportion.num == 0 || proportion.num > proportion.den {
            return Err(Error::ProportionOutOfRange { num: proportion.num, den: proportion.den });
        }
        let length: usize = self.samples.len();
        let position: usize = nearest_rank_of(proportion.num, proportion.den as u128, length);
        proof {
            lemma_sorted_rank(self.samples@, position - 1);
        }
        Ok(self.samples[position - 1])
    }

    /// The value at the Nearest Rank of a percentile in `(0, 100]`.
    pub fn percentile(&self, percent: Ratio) -> (r: Result<i64, Error>)
        ensures
            match r {
                Ok(v) => 0 < percent.num <= 100 * percent.den && has_rank(
                    self@,
                    nearest_rank(percent.num as int, 100 * percent.den, self@.len() as int),
                    v,
                ),
                Err(e) => !(0 < percent.num <= 100 * percent.den) && e
                    == (Error::PercentileOutOfRange { num: percent.num, den: percent.den }),
            },
    {
        proof {
            use_type_invariant(self);
        }
        let scaled: u128 = 100 * (percent.den as u128);
        if percent.num == 0 || percent.num as u128 > scaled {
            return Err(Error::PercentileOutOfRange { num: percent.num, den: percent.den });
        }
        let length: usize = self.samples.len();
        let position: usize = nearest_rank_of(percent.num, scaled, length);
        proof {
            lemma_sorted_rank(self.samples@, position - 1);
        }
        Ok(self.samples[position - 1])
    }

    /// The value at 1-based position `position` of the sample in ascending
    /// order.
    pub fn rank(&self, position: usize) -> (r: Result<i64, Error>)
        ensures
            match r {
                Ok(v) => 1 <= position <= self@.len() && v == self@[position - 1] && has_rank(
                    self@,
                    position as int,
                    v,
                ),
                Err(e) => !(1 <= position <= self@.len()) && e == (Error::RankOutOfRange {
                    rank: position,
                    length: self@.len() as usize,
                }),
            },
    {
        proof {
            use_type_invariant(self);
        }
        let length: usize = self.samples.len();
        if position == 0 || position > length {
            return Err(Error::RankOutOfRange { rank: position, length });
        }
        proof {
            lemma_sorted_rank(self.samples@, position - 1);
        }
        Ok(self.samples[position - 1])
    }

    /// The least value of the sample.
    pub fn min(&self) -> (v: i64)
        ensures
            self@.len() > 0,
            v == self@[0],
            forall|i: int| 0 <= i < self@.len() ==> v <= self@[i],
    {
        proof {
            use_type_invariant(self);
        }
        self.samples[0]
    }

    /// The greatest value of the sample.
    pub fn max(&self) -> (v: i64)
        ensures
            self@.len() > 0,
            v == self@[self@.len() - 1],
            forall|i: int| 0 <= i < self@.len() ==> self@[i] <= v,
    {
        proof {
            use_type_invariant(self);
        }
        let length: usize = self.samples.len();
        self.samples[length - 1]
    }
}

} // verus!
