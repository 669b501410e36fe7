//! Exact rational numbers in the unit interval.
//!
//! Similarity scores and distances are ratios of set cardinalities, so they
//! are represented exactly as a numerator over a positive denominator instead
//! of being rounded to a machine float. Comparisons cross-multiply in a wide
//! integer type, so they are exact as well.

use vstd::prelude::*;

verus! {

/// A rational number `num / den`. The intended values lie in `[0, 1]`,
/// captured by [`Ratio::wf`].
#[derive(Clone, Copy, Debug, PartialEq, Eq, Structural)]
pub struct Ratio {
    pub num: u64,
    pub den: u64,
}

/// The product of two `u64` values fits in a `u128`.
proof fn lemma_mul_fits_u128(a: u64, b: u64)
    ensures
        0 <= (a as int) * (b as int) <= u128::MAX,
{
    assert(0 <= (a as int) * (b as int) <= 0xffffffffffffffffint * 0xffffffffffffffffint)
        by (nonlinear_arith)
        requires
            0 <= a as int <= 0xffffffffffffffffint,
            0 <= b as int <= 0xffffffffffffffffint,
    ;
}

impl Ratio {
    /// Well-formed: a value in `[0, 1]` with a positive denominator.
    pub open spec fn wf(self) -> bool {
        0 < self.den && self.num <= self.den
    }

    /// `self <= other` as rational values.
    pub open spec fn spec_le(self, other: Ratio) -> bool {
        self.num * other.den <= other.num * self.den
    }

    /// `self < other` as rational values.
    pub open spec fn spec_lt(self, other: Ratio) -> bool {
        self.num * other.den < other.num * self.den
    }

    /// `self == other` as rational values (representations may differ).
    pub open spec fn spec_eq_value(self, other: Ratio) -> bool {
        self.num * other.den == other.num * self.den
    }

    /// The smaller of `self` and `other`, keeping `self` on value ties.
    pub open spec fn spec_min(self, other: Ratio) -> Ratio {
        if other.spec_lt(self) {
            other
        } else {
            self
        }
    }

    /// `self < other` as rational values.
    pub fn lt(self, other: Ratio) -> (r: bool)
        ensures
            r == self.spec_lt(other),
    {
        proof {
            lemma_mul_fits_u128(self.num, other.den);
            lemma_mul_fits_u128(other.num, self.den);
        }
        (self.num as u128) * (other.den as u128) < (other.num as u128) * (self.den as u128)
    }

    /// `self <= other` as rational values.
    pub fn le(self, other: Ratio) -> (r: bool)
        ensures
            r == self.spec_le(other),
    {
        proof {
            lemma_mul_fits_u128(self.num, other.den);
            lemma_mul_fits_u128(other.num, self.den);
        }
        (self.num as u128) * (other.den as u128) <= (other.num as u128) * (self.den as u128)
    }

    /// `self == other` as rational values.
    pub fn eq_value(self, other: Ratio) -> (r: bool)
        ensures
            r == self.spec_eq_value(other),
    {
        proof {
            lemma_mul_fits_u128(self.num, other.den);
            lemma_mul_fits_u128(other.num, self.den);
        }
        (self.num as u128) * (other.den as u128) == (other.num as u128) * (self.den as u128)
    }

    /// The smaller of `self` and `other`, keeping `self` on value ties.
    pub fn min_with(self, other: Ratio) -> (r: Ratio)
        ensures
            r == self.spec_min(other),
    {
        if other.lt(self) {
            other
        } else {
            self
        }
    }

    /// `1 - self`: turns a similarity into a distance.
    pub fn one_minus(self) -> (r: Ratio)
        requires
            self.wf(),
        ensures
            r.wf(),
            r.num == self.den - self.num,
            r.den == self.den,
    {
        Ratio { num: self.den - self.num, den: self.den }
    }
}

} // verus!
