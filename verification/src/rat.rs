//! Exact rational numbers backed by `i128` numerator and denominator.
//!
//! A `Rat` is well formed when its denominator is at least 1. Equality and
//! order of values are stated by cross multiplication, so contracts can
//! speak about the value a `Rat` denotes independently of the particular
//! representative.

use vstd::prelude::*;

verus! {

/// A rational number `num / den`. Well-formed values keep `den >= 1`.
#[derive(Clone, Copy, Debug, PartialEq, Eq, Structural)]
pub struct Rat {
    pub num: i128,
    pub den: i128,
}

/// The two rationals denote the same value: `a.num/a.den == b.num/b.den`
/// by cross multiplication.
pub open spec fn rat_eq(a: Rat, b: Rat) -> bool {
    a.num * b.den == b.num * a.den
}

/// The rational `a` denotes the value `num / den` given by the two integers.
pub open spec fn rat_is(a: Rat, num: int, den: int) -> bool {
    a.num * den == num * a.den
}

/// The value of `a` is at most the value of `b`; meaningful for
/// well-formed operands, whose denominators are positive.
pub open spec fn rat_le(a: Rat, b: Rat) -> bool {
    a.num * b.den <= b.num * a.den
}

/// The magnitude of numerator and denominator is at most `b`.
pub open spec fn rat_bounded(a: Rat, b: int) -> bool {
    -b <= a.num <= b && 1 <= a.den <= b
}

impl Rat {
    /// The representation is well formed: the denominator is positive.
    pub open spec fn wf(self) -> bool {
        self.den >= 1
    }

    /// Builds the rational `num / den`.
    pub fn new(num: i128, den: i128) -> (r: Rat)
        requires
            den >= 1,
        ensures
            r.num == num,
            r.den == den,
            r.wf(),
    {
        Rat { num, den }
    }

    /// Decides whether `self` and `other` denote the same value.
    pub fn eqv(&self, other: &Rat) -> (r: bool)
        requires
            self.wf(),
            other.wf(),
            rat_bounded(*self, 1_000_000_000_000_000_000),
            rat_bounded(*other, 1_000_000_000_000_000_000),
        ensures
            r == rat_eq(*self, *other),
    {
        proof {
            lemma_cross_products_fit(*self, *other);
        }
        self.num * other.den == other.num * self.den
    }

    /// Decides whether the value of `self` is at most the value of `other`.
    pub fn le(&self, other: &Rat) -> (r: bool)
        requires
            self.wf(),
            other.wf(),
            rat_bounded(*self, 1_000_000_000_000_000_000),
            rat_bounded(*other, 1_000_000_000_000_000_000),
        ensures
            r == rat_le(*self, *other),
    {
        proof {
            lemma_cross_products_fit(*self, *other);
        }
        self.num * other.den <= other.num * self.den
    }
}

proof fn lemma_cross_products_fit(a: Rat, b: Rat)
    by (nonlinear_arith)
    requires
        rat_bounded(a, 1_000_000_000_000_000_000),
        rat_bounded(b, 1_000_000_000_000_000_000),
    ensures
        -(1_000_000_000_000_000_000_000_000_000_000_000_000int) <= a.num * b.den
            <= 1_000_000_000_000_000_000_000_000_000_000_000_000int,
        -(1_000_000_000_000_000_000_000_000_000_000_000_000int) <= b.num * a.den
            <= 1_000_000_000_000_000_000_000_000_000_000_000_000int,
{
}

} // verus!
