//! Exact fractions of two machine integers.

use vstd::prelude::*;

verus! {

/// The fraction `num / den`. The fields are public: a value is built and read
/// directly. A fraction is meaningful where `den` is positive.
#[derive(Clone, Copy, Debug, PartialEq, Eq, Structural)]
pub struct Ratio {
    pub num: u64,
    pub den: u64,
}

impl Ratio {
    /// `self <= other` as rational numbers, for positive denominators.
    pub open spec fn leq(self, other: Ratio) -> bool {
        self.num * other.den <= other.num * self.den
    }

    /// `self < other` as rational numbers, for positive denominators.
    pub open spec fn less(self, other: Ratio) -> bool {
        self.num * other.den < other.num * self.den
    }

    /// `self == other` as rational numbers, for positive denominators.
    pub open spec fn equiv(self, other: Ratio) -> bool {
        self.num * other.den == other.num * self.den
    }

    /// The fraction lies in the closed unit interval.
    pub open spec fn in_unit_interval(self) -> bool {
        self.den > 0 && self.num <= self.den
    }

    pub fn new(num: u64, den: u64) -> (r: Ratio)
        ensures
            r.num == num,
            r.den == den,
    {
        Ratio { num, den }
    }

    /// Decides `self <= other` by cross-multiplication.
    pub fn is_leq(&self, other: &Ratio) -> (b: bool)
        ensures
            b == self.leq(*other),
    {
        let left: u128 = widening_product(self.num, other.den);
        let right: u128 = widening_product(other.num, self.den);
        left <= right
    }

    /// Decides `self < other` by cross-multiplication.
    pub fn is_less(&self, other: &Ratio) -> (b: bool)
        ensures
            b == self.less(*other),
    {
        let left: u128 = widening_product(self.num, other.den);
        let right: u128 = widening_product(other.num, self.den);
        left < right
    }

    /// Decides whether the two fractions denote the same number.
    pub fn is_equiv(&self, other: &Ratio) -> (b: bool)
        ensures
            b == self.equiv(*other),
    {
        let left: u128 = widening_product(self.num, other.den);
        let right: u128 = widening_product(other.num, self.den);
        left == right
    }
}

/// The product of two 64-bit values, which always fits in 128 bits.
pub fn widening_product(a: u64, b: u64) -> (p: u128)
    ensures
        p == a * b,
{
    assert(a * b <= 0xffff_ffff_ffff_ffff * 0xffff_ffff_ffff_ffff) by (nonlinear_arith)
        requires
            0 <= a <= 0xffff_ffff_ffff_ffff,
            0 <= b <= 0xffff_ffff_ffff_ffff,
    ;
    (a as u128) * (b as u128)
}

} // verus!
