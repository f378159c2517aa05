//! Exact ratios of counts.

use vstd::prelude::*;

verus! {

/// A ratio of two counts. The value is `numerator / denominator`; a
/// well-formed fraction has a positive denominator.
#[derive(Debug, Clone, Copy, PartialEq, Eq, Structural)]
pub struct Fraction {
    pub numerator: u128,
    pub denominator: u128,
}

impl Fraction {
    /// The denominator is positive.
    pub open spec fn well_formed(&self) -> bool {
        self.denominator > 0
    }

    /// The value lies between zero and one, both included.
    pub open spec fn is_probability(&self) -> bool {
        self.well_formed() && self.numerator <= self.denominator
    }

    /// The value zero.
    pub fn zero() -> (f: Fraction)
        ensures
            f == (Fraction { numerator: 0, denominator: 1 }),
    {
        Fraction { numerator: 0, denominator: 1 }
    }

    /// The value one.
    pub fn one() -> (f: Fraction)
        ensures
            f == (Fraction { numerator: 1, denominator: 1 }),
    {
        Fraction { numerator: 1, denominator: 1 }
    }

    /// The share `part / whole` of a count in a larger count.
    pub fn share(part: usize, whole: usize) -> (f: Fraction)
        requires
            whole > 0,
        ensures
            f == (Fraction { numerator: part as u128, denominator: whole as u128 }),
    {
        Fraction { numerator: part as u128, denominator: whole as u128 }
    }
}

/// The product of two sizes fits into 128 bits.
pub proof fn lemma_product_fits(a: usize, b: usize)
    ensures
        0 <= a * b <= u128::MAX,
{
    assert(0 <= a * b <= 0xffff_ffff_ffff_ffff * 0xffff_ffff_ffff_ffff) by (nonlinear_arith)
        requires
            0 <= a <= 0xffff_ffff_ffff_ffff,
            0 <= b <= 0xffff_ffff_ffff_ffff,
    ;
}

} // verus!
