//! The ways in which a request can be refused.

use vstd::prelude::*;

verus! {

/// Why a computation was refused or abandoned. Each variant carries the
/// values that were observed when the failure was detected.
#[derive(Clone, Copy, Debug, PartialEq, Eq, Structural)]
pub enum Error {
    /// A sample that is treated as a distribution held no value.
    EmptySample,
    /// A rank outside `1..=length`.
    RankOutOfRange { rank: usize, length: usize },
    /// A proportion outside `(0, 1]`, or one with a zero denominator.
    ProportionOutOfRange { num: u64, den: u64 },
    /// A percentile outside `(0, 100]`, or one with a zero denominator.
    PercentileOutOfRange { num: u64, den: u64 },
    /// A confidence level outside the open interval `(0, 1)`, or one with a
    /// zero denominator.
    ConfidenceOutOfRange { num: u64, den: u64 },
    /// A sample with seven values or fewer was handed to the
    /// Kolmogorov-Smirnov test.
    SampleTooSmall { xs_length: usize, ys_length: usize },
    /// The series for the Kolmogorov distribution did not fall below the
    /// tolerance within the permitted number of terms.
    SeriesNotConverged { terms: usize },
    /// The bisection for the critical value did not close its bracket within
    /// the permitted number of rounds.
    BisectionNotConverged { rounds: usize },
    /// The sum of the series came out below zero, so that one minus the sum is
    /// no probability. `sum` is that sum, in the units in which the terms
    /// were given.
    ProbabilityOutOfRange { sum: i128 },
    /// The bits are those of a float that is not a number, which has no place
    /// in the order of a sample.
    NotANumber { bits: u64 },
    /// No float that is a number has this key.
    NotAKey { key: i64 },
}

} // verus!
