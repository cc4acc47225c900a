use kernel_density::ecdf::Ecdf;
use kernel_density::error::Error;
use kernel_density::keys::key_of_float_bits;
use kernel_density::kolmogorov_smirnov as exact;
use kernel_density::kolmogorov_smirnov::Statistic;
use kernel_density::ratio::Ratio;
use quickcheck::{Arbitrary, Gen, QuickCheck, StdGen, Testable};
use rand::Rng;
use std::{cmp, f64};

const EPSILON: f64 = 1e-10;

fn check<A: Testable>(f: A) {
    // Adjust the size of the generator to be larger than the default size of
    // 100. The problem is this restricts generated f64 values to be in the
    // range -100 to 100 where we would like to test a wider space.

    // But increasing the size too high means the generated f64 values are
    // large integers instead of decimals because the closest f64 to most of
    // the available range are floats with large positive exponents, i.e
    // integers. This also causes some tests to break by underflowing.

    let g = StdGen::new(rand::thread_rng(), 1_000_000_000_000);
    QuickCheck::new().gen(g).quickcheck(f);
}

/// Wrapper for generating sample data with QuickCheck.
///
/// Samples must be sequences of f64 values with more than 7 elements.
#[derive(Debug, Clone)]
struct MoreThanSevenSamplesF64 {
    vec: Vec<f64>,
}

impl MoreThanSevenSamplesF64 {
    fn min(&self) -> f64 {
        let mut min = f64::MAX;

        for &x in self.vec.iter() {
            if x < min {
                min = x
            }
        }

        min
    }

    fn max(&self) -> f64 {
        let mut max = f64::MIN;

        for &x in self.vec.iter() {
            if x > max {
                max = x
            }
        }

        max
    }

    fn shuffle(&mut self) {
        let mut rng = rand::thread_rng();
        rng.shuffle(&mut self.vec);
    }
}

impl Arbitrary for MoreThanSevenSamplesF64 {
    fn arbitrary<G: Gen>(g: &mut G) -> MoreThanSevenSamplesF64 {
        // Limit size of generated sample set to 1024
        let max = cmp::min(g.size(), 1024);

        let size = g.gen_range(8, max);
        let vec = (0..size).map(|_| f64::arbitrary(g)).collect();

        MoreThanSevenSamplesF64 { vec: vec }
    }

    fn shrink(&self) -> Box<dyn Iterator<Item = MoreThanSevenSamplesF64>> {
        let vec: Vec<f64> = self.vec.clone();
        let shrunk: Box<dyn Iterator<Item = Vec<f64>>> = vec.shrink();

        Box::new(
            shrunk
                .filter(|v| v.len() > 7)
                .map(|v| MoreThanSevenSamplesF64 { vec: v }),
        )
    }
}

/// The integer that stands for a float in the library: the floats' order is
/// the order of their keys. Both zeros share one key.
fn key(x: f64) -> i64 {
    key_of_float_bits(x.to_bits()).expect("a sample must not hold NaN")
}

fn keys(xs: &[f64]) -> Vec<i64> {
    xs.iter().map(|&x| key(x)).collect()
}

/// The float nearest to an exact fraction.
fn fraction(r: Ratio) -> f64 {
    r.num as f64 / r.den as f64
}

/// The float nearest to an exact value of the statistic.
fn statistic_of(d: Statistic) -> f64 {
    d.num as f64 / d.den as f64
}

/// A confidence level as an exact fraction with 63 binary places, rounded up
/// to the next place where the float has more.
fn confidence_of(c: f64) -> Ratio {
    Ratio { num: (c * 9223372036854775808.0).ceil() as u64, den: 1u64 << 63 }
}

/// The magnitude of the `j`-th term of the Kolmogorov series for a statistic
/// and two sample sizes, in the library's units.
fn kolmogorov_term(n1: usize, n2: usize, statistic: Statistic, j: usize) -> u64 {
    let n1 = n1 as f64;
    let n2 = n2 as f64;

    let factor = ((n1 * n2) / (n1 + n2)).sqrt();
    let lambda = (factor + 0.12 + 0.11 / factor) * statistic_of(statistic);

    let minus_two_lambda_squared = -2.0 * lambda * lambda;
    let j = j as f64;
    let term = 2.0 * (minus_two_lambda_squared * j * j).exp();

    (term * exact::PROBABILITY_SCALE as f64).round() as u64
}

/// Two sample test result, in floats.
struct TestResult {
    is_rejected: bool,
    statistic: f64,
    reject_probability: f64,
    #[allow(dead_code)]
    critical_value: f64,
    #[allow(dead_code)]
    confidence: f64,
}

/// The library's test, asked and answered in floats.
fn test(xs: &[f64], ys: &[f64], confidence: f64) -> TestResult {
    let result = exact::test(&keys(xs), &keys(ys), confidence_of(confidence), &kolmogorov_term)
        .expect("valid input and a series that converges");

    TestResult {
        is_rejected: result.is_rejected,
        statistic: statistic_of(result.statistic),
        reject_probability: fraction(result.reject_probability),
        critical_value: statistic_of(result.critical_value),
        confidence: confidence,
    }
}

fn thirteen() -> Vec<f64> {
    vec![
        0.0, 1.0, 2.0, 3.0, 4.0, 5.0, 6.0, 7.0, 8.0, 9.0, 10.0, 11.0, 12.0,
    ]
}

#[test]
fn test_panics_on_empty_samples_set() {
    let xs: Vec<f64> = vec![];
    let ys: Vec<f64> = vec![
        0.0, 1.0, 2.0, 3.0, 4.0, 5.0, 6.0, 7.0, 8.0, 9.0, 10.0, 11.0, 12.0,
    ];
    assert_eq!(
        exact::test(&keys(&xs), &keys(&ys), confidence_of(0.95), &kolmogorov_term),
        Err(Error::SampleTooSmall { xs_length: 0, ys_length: 13 })
    );
}

#[test]
fn test_panics_on_empty_other_samples_set() {
    let xs: Vec<f64> = vec![
        0.0, 1.0, 2.0, 3.0, 4.0, 5.0, 6.0, 7.0, 8.0, 9.0, 10.0, 11.0, 12.0,
    ];
    let ys: Vec<f64> = vec![];
    assert_eq!(
        exact::test(&keys(&xs), &keys(&ys), confidence_of(0.95), &kolmogorov_term),
        Err(Error::SampleTooSmall { xs_length: 13, ys_length: 0 })
    );
}

#[test]
fn test_panics_on_confidence_leq_zero() {
    let xs: Vec<f64> = thirteen();
    let ys: Vec<f64> = thirteen();
    assert_eq!(
        exact::test(&keys(&xs), &keys(&ys), confidence_of(0.0), &kolmogorov_term),
        Err(Error::ConfidenceOutOfRange { num: 0, den: 1u64 << 63 })
    );
}

#[test]
fn test_panics_on_confidence_geq_one() {
    let xs: Vec<f64> = thirteen();
    let ys: Vec<f64> = thirteen();
    assert_eq!(
        exact::test(&keys(&xs), &keys(&ys), confidence_of(1.0), &kolmogorov_term),
        Err(Error::ConfidenceOutOfRange { num: 1u64 << 63, den: 1u64 << 63 })
    );
}

/// Alternative calculation for the test statistic for the two sample
/// Kolmogorov-Smirnov test. This simple implementation is used as a
/// verification check against actual calculation used.
///
/// The distances are compared as exact fractions over the product of the two
/// lengths.
fn calculate_statistic_alt(xs: &[f64], ys: &[f64]) -> Statistic {
    assert!(xs.len() > 0 && ys.len() > 0);

    let ecdf_xs = Ecdf::new(&keys(xs)).unwrap();
    let ecdf_ys = Ecdf::new(&keys(ys)).unwrap();

    let distance = |value: f64| -> u128 {
        let at_xs = ecdf_xs.value(key(value));
        let at_ys = ecdf_ys.value(key(value));
        let left = at_xs.num as u128 * at_ys.den as u128;
        let right = at_ys.num as u128 * at_xs.den as u128;
        if left >= right { left - right } else { right - left }
    };

    let mut statistic = 0;

    for x in xs.iter() {
        let diff = distance(x.clone());
        if diff > statistic {
            statistic = diff;
        }
    }

    for y in ys.iter() {
        let diff = distance(y.clone());
        if diff > statistic {
            statistic = diff;
        }
    }

    Statistic { num: statistic, den: xs.len() as u128 * ys.len() as u128 }
}

#[test]
fn test_calculate_statistic() {
    fn prop(xs: MoreThanSevenSamplesF64, ys: MoreThanSevenSamplesF64) -> bool {
        let result =
            exact::test(&keys(&xs.vec), &keys(&ys.vec), confidence_of(0.95), &kolmogorov_term)
                .unwrap();
        let actual = result.statistic;
        let expected = calculate_statistic_alt(&xs.vec, &ys.vec);

        actual == expected
    }

    check(prop as fn(MoreThanSevenSamplesF64, MoreThanSevenSamplesF64) -> bool);
}

#[test]
fn test_statistic_is_between_zero_and_one() {
    fn prop(xs: MoreThanSevenSamplesF64, ys: MoreThanSevenSamplesF64) -> bool {
        let result = test(&xs.vec, &ys.vec, 0.95);
        let actual = result.statistic;

        0.0 <= actual && actual <= 1.0
    }

    check(prop as fn(MoreThanSevenSamplesF64, MoreThanSevenSamplesF64) -> bool);
}

#[test]
fn test_statistic_is_zero_for_identical_samples() {
    fn prop(xs: MoreThanSevenSamplesF64) -> bool {
        let ys = xs.clone();

        let result = test(&xs.vec, &ys.vec, 0.95);

        result.statistic == 0.0
    }

    check(prop as fn(MoreThanSevenSamplesF64) -> bool);
}

#[test]
fn test_statistic_is_zero_for_permuted_sample() {
    fn prop(xs: MoreThanSevenSamplesF64) -> bool {
        let mut ys = xs.clone();
        ys.shuffle();

        let result = test(&xs.vec, &ys.vec, 0.95);

        result.statistic == 0.0
    }

    check(prop as fn(MoreThanSevenSamplesF64) -> bool);
}

#[test]
fn test_statistic_is_one_for_samples_with_no_overlap_in_support() {
    fn prop(xs: MoreThanSevenSamplesF64) -> bool {
        let mut ys = xs.clone();

        // Shift ys so that ys.min > xs.max.
        let ys_min = xs.max() + 1.0;
        ys.vec = ys.vec.iter().map(|&y| y.max(ys_min)).collect();

        let result = test(&xs.vec, &ys.vec, 0.95);

        result.statistic == 1.0
    }

    check(prop as fn(MoreThanSevenSamplesF64) -> bool);
}

#[test]
fn test_statistic_is_one_half_for_sample_with_non_overlapping_in_support_replicate_added() {
    fn prop(xs: MoreThanSevenSamplesF64) -> bool {
        let mut ys = xs.clone();

        // Shift ys so that ys.min > xs.max.
        let ys_min = xs.max() + 1.0;
        ys.vec = ys.vec.iter().map(|&y| y.max(ys_min)).collect();

        // Add all the original items back too.
        for &x in xs.vec.iter() {
            ys.vec.push(x);
        }

        let result = test(&xs.vec, &ys.vec, 0.95);

        result.statistic == 0.5
    }

    check(prop as fn(MoreThanSevenSamplesF64) -> bool);
}

#[test]
fn test_statistic_is_one_div_length_for_sample_with_additional_low_value() {
    fn prop(xs: MoreThanSevenSamplesF64) -> bool {
        // Add a extra sample of early weight to ys.
        let min = xs.min();
        let mut ys = xs.clone();
        ys.vec.push(min - 1.0);

        let result = test(&xs.vec, &ys.vec, 0.95);
        let expected = 1.0 / ys.vec.len() as f64;

        result.statistic == expected
    }

    check(prop as fn(MoreThanSevenSamplesF64) -> bool);
}

#[test]
fn test_statistic_is_one_div_length_for_sample_with_additional_high_value() {
    fn prop(xs: MoreThanSevenSamplesF64) -> bool {
        // Add a extra sample of late weight to ys.
        let max = xs.max();
        let mut ys = xs.clone();
        ys.vec.push(max + 1.0);

        let result = test(&xs.vec, &ys.vec, 0.95);
        let expected = 1.0 / ys.vec.len() as f64;

        (result.statistic - expected).abs() < EPSILON
    }

    check(prop as fn(MoreThanSevenSamplesF64) -> bool);
}

#[test]
fn test_statistic_is_one_div_length_for_sample_with_additional_low_and_high_values() {
    fn prop(xs: MoreThanSevenSamplesF64) -> bool {
        // Add a extra sample of late weight to ys.
        let min = xs.min();
        let max = xs.max();

        let mut ys = xs.clone();

        ys.vec.push(min - 1.0);
        ys.vec.push(max + 1.0);

        let result = test(&xs.vec, &ys.vec, 0.95);
        let expected = 1.0 / ys.vec.len() as f64;

        (result.statistic - expected).abs() < EPSILON
    }

    check(prop as fn(MoreThanSevenSamplesF64) -> bool);
}

#[test]
fn test_statistic_is_n_div_length_for_sample_with_additional_n_low_values() {
    fn prop(xs: MoreThanSevenSamplesF64, n: u8) -> bool {
        // Add extra sample of early weight to ys.
        let min = xs.min();
        let mut ys = xs.clone();
        for j in 0..n {
            ys.vec.push(min - (j as f64) - 1.0);
        }

        let result = test(&xs.vec, &ys.vec, 0.95);
        let expected = n as f64 / ys.vec.len() as f64;

        result.statistic == expected
    }

    check(prop as fn(MoreThanSevenSamplesF64, u8) -> bool);
}

#[test]
fn test_statistic_is_n_div_length_for_sample_with_additional_n_high_values() {
    fn prop(xs: MoreThanSevenSamplesF64, n: u8) -> bool {
        // Add extra sample of early weight to ys.
        let max = xs.max();
        let mut ys = xs.clone();
        for j in 0..n {
            ys.vec.push(max + (j as f64) + 1.0);
        }

        let result = test(&xs.vec, &ys.vec, 0.95);
        let expected = n as f64 / ys.vec.len() as f64;

        (result.statistic - expected).abs() < EPSILON
    }

    check(prop as fn(MoreThanSevenSamplesF64, u8) -> bool);
}

#[test]
fn test_statistic_is_n_div_length_for_sample_with_additional_n_low_and_high_values() {
    fn prop(xs: MoreThanSevenSamplesF64, n: u8) -> bool {
        // Add extra sample of early weight to ys.
        let min = xs.min();
        let max = xs.max();
        let mut ys = xs.clone();
        for j in 0..n {
            ys.vec.push(min - (j as f64) - 1.0);
            ys.vec.push(max + (j as f64) + 1.0);
        }

        let result = test(&xs.vec, &ys.vec, 0.95);
        let expected = n as f64 / ys.vec.len() as f64;

        (result.statistic - expected).abs() < EPSILON
    }

    check(prop as fn(MoreThanSevenSamplesF64, u8) -> bool);
}

#[test]
fn test_statistic_is_n_or_m_div_length_for_sample_with_additional_n_low_and_m_high_values() {
    fn prop(xs: MoreThanSevenSamplesF64, n: u8, m: u8) -> bool {
        // Add extra sample of early weight to ys.
        let min = xs.min();
        let max = xs.max();
        let mut ys = xs.clone();
        for j in 0..n {
            ys.vec.push(min - (j as f64) - 1.0);
        }

        for j in 0..m {
            ys.vec.push(max + (j as f64) + 1.0);
        }

        let result = test(&xs.vec, &ys.vec, 0.95);
        let expected = cmp::max(n, m) as f64 / ys.vec.len() as f64;

        (result.statistic - expected).abs() < EPSILON
    }

    check(prop as fn(MoreThanSevenSamplesF64, u8, u8) -> bool);
}

#[test]
fn test_is_rejected_if_reject_probability_greater_than_confidence() {
    fn prop(xs: MoreThanSevenSamplesF64, ys: MoreThanSevenSamplesF64) -> bool {
        let result = test(&xs.vec, &ys.vec, 0.95);

        if result.is_rejected {
            result.reject_probability > 0.95
        } else {
            result.reject_probability <= 0.95
        }
    }

    check(prop as fn(MoreThanSevenSamplesF64, MoreThanSevenSamplesF64) -> bool);
}

#[test]
fn test_reject_probability_is_zero_for_identical_samples() {
    fn prop(xs: MoreThanSevenSamplesF64) -> bool {
        let ys = xs.clone();

        let result = test(&xs.vec, &ys.vec, 0.95);

        result.reject_probability == 0.0
    }

    check(prop as fn(MoreThanSevenSamplesF64) -> bool);
}

#[test]
fn test_reject_probability_is_zero_for_permuted_sample() {
    fn prop(xs: MoreThanSevenSamplesF64) -> bool {
        let mut ys = xs.clone();
        ys.shuffle();

        let result = test(&xs.vec, &ys.vec, 0.95);

        result.reject_probability == 0.0
    }

    check(prop as fn(MoreThanSevenSamplesF64) -> bool);
}
