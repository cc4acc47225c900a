//! Nonparametric statistics over finite samples, in exact arithmetic.
//!
//! A sample is a slice of integer keys. The library answers questions about
//! its empirical distribution function and its order statistics, and
//! compares two samples with the Kolmogorov-Smirnov test. Fractions are kept
//! as pairs of integers, so that every answer is exact and every contract
//! states it exactly.
//!
//! - `counting` is the model that the contracts speak of.
//! - `ecdf` holds the queries on one sample, as single calls and on a
//!   distribution that is sorted once.
//! - `kolmogorov_smirnov` holds the two-sample test.
//! - `keys` turns the bits of floats into keys and back.
//! - `laws` states what holds of these functions taken together.
//!
//! Exponentials and square roots are no part of the library: the test takes
//! the function that supplies the terms of the Kolmogorov series from its
//! caller, and is verified for whatever that function returns.

pub mod counting;
pub mod ecdf;
pub mod error;
pub mod keys;
pub mod kolmogorov_smirnov;
pub mod laws;
pub mod ratio;
mod sorting;
