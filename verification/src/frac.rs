//! Exact rational values.
//!
//! The fit transform divides, scales and translates two-dimensional sizes.
//! Those quantities are kept as exact fractions of 128-bit integers, so every
//! contract about the transform can state the result precisely. The
//! mathematical model of a fraction is a [`Ratio`], a pair of unbounded
//! integers; every executable operation states its result over that model.
//! Callers keep inputs within `FRAC_MAG` so the products formed along the
//! transform pipeline stay inside `i128`.

use vstd::prelude::*;

verus! {

/// Magnitude bound that pipeline inputs are held to (2^20).
pub const FRAC_MAG: i128 = 0x100000;

/// An exact fraction `num / den` with `den > 0`.
#[derive(Clone, Copy, Debug, PartialEq, Eq, Structural)]
pub struct Frac {
    pub num: i128,
    pub den: i128,
}

/// The mathematical value of a fraction: a pair of unbounded integers.
pub ghost struct Ratio {
    pub num: int,
    pub den: int,
}

/// `a <= b` as rational values (for positive denominators).
pub open spec fn ratio_le(a: Ratio, b: Ratio) -> bool {
    a.num * b.den <= b.num * a.den
}

/// `a < b` as rational values (for positive denominators).
pub open spec fn ratio_lt(a: Ratio, b: Ratio) -> bool {
    a.num * b.den < b.num * a.den
}

/// `a == b` as rational values (the representations may differ).
pub open spec fn ratio_eq(a: Ratio, b: Ratio) -> bool {
    a.num * b.den == b.num * a.den
}

/// The smaller of two ratios; ties keep the left representation.
pub open spec fn spec_min(a: Ratio, b: Ratio) -> Ratio {
    if ratio_le(a, b) {
        a
    } else {
        b
    }
}

/// The larger of two ratios; ties keep the left representation.
pub open spec fn spec_max(a: Ratio, b: Ratio) -> Ratio {
    if ratio_lt(a, b) {
        b
    } else {
        a
    }
}

/// Product, formed field-wise without reduction.
pub open spec fn spec_times(a: Ratio, b: Ratio) -> Ratio {
    Ratio { num: a.num * b.num, den: a.den * b.den }
}

/// Quotient `a / b`, defined for `b.num > 0`.
pub open spec fn spec_over(a: Ratio, b: Ratio) -> Ratio {
    Ratio { num: a.num * b.den, den: a.den * b.num }
}

/// Sum, formed over the common denominator without reduction.
pub open spec fn spec_plus(a: Ratio, b: Ratio) -> Ratio {
    Ratio { num: a.num * b.den + b.num * a.den, den: a.den * b.den }
}

/// Negation.
pub open spec fn spec_neg(a: Ratio) -> Ratio {
    Ratio { num: -a.num, den: a.den }
}

/// Both components of a ratio bounded by `m` in magnitude, denominator positive.
pub open spec fn ratio_mag_le(a: Ratio, m: int) -> bool {
    -m <= a.num <= m && 0 < a.den <= m
}

impl Frac {
    /// The mathematical value of this fraction.
    pub open spec fn r(self) -> Ratio {
        Ratio { num: self.num as int, den: self.den as int }
    }

    /// Well-formed: the denominator is positive.
    pub open spec fn wf(self) -> bool {
        self.den > 0
    }

    /// Both fields bounded by `m` in magnitude (and the denominator positive).
    pub open spec fn mag_le(self, m: int) -> bool {
        ratio_mag_le(self.r(), m)
    }

    /// The fraction `n / 1`.
    pub fn from_int(n: i64) -> (r: Frac)
        ensures
            r.num == n,
            r.den == 1,
            r.wf(),
    {
        Frac { num: n as i128, den: 1 }
    }

    /// The fraction `num / den` for a positive denominator.
    pub fn new(num: i64, den: i64) -> (r: Frac)
        requires
            den > 0,
        ensures
            r.num == num,
            r.den == den,
            r.wf(),
    {
        Frac { num: num as i128, den: den as i128 }
    }

    /// Exact product.
    pub fn times(self, other: Frac) -> (r: Frac)
        requires
            self.wf(),
            other.wf(),
            i128::MIN <= self.num * other.num <= i128::MAX,
            self.den * other.den <= i128::MAX,
        ensures
            r.r() == spec_times(self.r(), other.r()),
            r.wf(),
    {
        proof {
            assert(self.den * other.den > 0) by (nonlinear_arith)
                requires
                    self.den > 0,
                    other.den > 0,
            ;
        }
        Frac { num: self.num * other.num, den: self.den * other.den }
    }

    /// Exact quotient; the divisor must be a positive value.
    pub fn over(self, other: Frac) -> (r: Frac)
        requires
            self.wf(),
            other.wf(),
            other.num > 0,
            i128::MIN <= self.num * other.den <= i128::MAX,
            self.den * other.num <= i128::MAX,
        ensures
            r.r() == spec_over(self.r(), other.r()),
            r.wf(),
    {
        proof {
            assert(self.den * other.num > 0) by (nonlinear_arith)
                requires
                    self.den > 0,
                    other.num > 0,
            ;
        }
        Frac { num: self.num * other.den, den: self.den * other.num }
    }

    /// Exact sum.
    pub fn plus(self, other: Frac) -> (r: Frac)
        requires
            self.wf(),
            other.wf(),
            i128::MIN <= self.num * other.den <= i128::MAX,
            i128::MIN <= other.num * self.den <= i128::MAX,
            i128::MIN <= self.num * other.den + other.num * self.den <= i128::MAX,
            self.den * other.den <= i128::MAX,
        ensures
            r.r() == spec_plus(self.r(), other.r()),
            r.wf(),
    {
        proof {
            assert(self.den * other.den > 0) by (nonlinear_arith)
                requires
                    self.den > 0,
                    other.den > 0,
            ;
        }
        Frac { num: self.num * other.den + other.num * self.den, den: self.den * other.den }
    }

    /// Exact negation.
    pub fn negate(self) -> (r: Frac)
        requires
            self.num > i128::MIN,
        ensures
            r.r() == spec_neg(self.r()),
            r.den == self.den,
    {
        Frac { num: -self.num, den: self.den }
    }

    /// The smaller value of the two; ties keep `self`.
    pub fn min_of(self, other: Frac) -> (r: Frac)
        requires
            self.wf(),
            other.wf(),
            i128::MIN <= self.num * other.den <= i128::MAX,
            i128::MIN <= other.num * self.den <= i128::MAX,
        ensures
            r.r() == spec_min(self.r(), other.r()),
            r == self || r == other,
    {
        if self.num * other.den <= other.num * self.den {
            self
        } else {
            other
        }
    }

    /// The larger value of the two; ties keep `self`.
    pub fn max_of(self, other: Frac) -> (r: Frac)
        requires
            self.wf(),
            other.wf(),
            i128::MIN <= self.num * other.den <= i128::MAX,
            i128::MIN <= other.num * self.den <= i128::MAX,
        ensures
            r.r() == spec_max(self.r(), other.r()),
            r == self || r == other,
    {
        if self.num * other.den < other.num * self.den {
            other
        } else {
            self
        }
    }

    /// Value equality of two fractions, whatever their representations.
    pub fn eqv(self, other: Frac) -> (r: bool)
        requires
            self.wf(),
            other.wf(),
            i128::MIN <= self.num * other.den <= i128::MAX,
            i128::MIN <= other.num * self.den <= i128::MAX,
        ensures
            r == ratio_eq(self.r(), other.r()),
    {
        self.num * other.den == other.num * self.den
    }
}

/// Products of ratio components bounded by `ma` and `mb` stay within `ma * mb`.
pub proof fn lemma_times_bound(a: Ratio, b: Ratio, ma: int, mb: int)
    requires
        ratio_mag_le(a, ma),
        ratio_mag_le(b, mb),
    ensures
        -(ma * mb) <= a.num * b.num <= ma * mb,
        -(ma * mb) <= a.num * b.den <= ma * mb,
        -(ma * mb) <= a.den * b.num <= ma * mb,
        0 < a.den * b.den <= ma * mb,
{
    assert(-(ma * mb) <= a.num * b.num <= ma * mb) by (nonlinear_arith)
        requires
            -ma <= a.num <= ma,
            -mb <= b.num <= mb,
    ;
    assert(-(ma * mb) <= a.num * b.den <= ma * mb) by (nonlinear_arith)
        requires
            -ma <= a.num <= ma,
            0 < b.den <= mb,
    ;
    assert(-(ma * mb) <= a.den * b.num <= ma * mb) by (nonlinear_arith)
        requires
            0 < a.den <= ma,
            -mb <= b.num <= mb,
    ;
    assert(0 < a.den * b.den <= ma * mb) by (nonlinear_arith)
        requires
            0 < a.den <= ma,
            0 < b.den <= mb,
    ;
}

/// A product of bounded ratios is itself bounded by the product bound.
pub proof fn lemma_times_mag(a: Ratio, b: Ratio, ma: int, mb: int)
    requires
        ratio_mag_le(a, ma),
        ratio_mag_le(b, mb),
    ensures
        ratio_mag_le(spec_times(a, b), ma * mb),
{
    lemma_times_bound(a, b, ma, mb);
}

/// A quotient of bounded ratios (positive divisor) is bounded likewise.
pub proof fn lemma_over_mag(a: Ratio, b: Ratio, ma: int, mb: int)
    requires
        ratio_mag_le(a, ma),
        ratio_mag_le(b, mb),
        b.num > 0,
    ensures
        ratio_mag_le(spec_over(a, b), ma * mb),
{
    lemma_times_bound(a, b, ma, mb);
    assert(a.den * b.num > 0) by (nonlinear_arith)
        requires
            a.den > 0,
            b.num > 0,
    ;
}

/// A sum of bounded ratios is bounded by twice the product bound.
pub proof fn lemma_plus_mag(a: Ratio, b: Ratio, ma: int, mb: int)
    requires
        ratio_mag_le(a, ma),
        ratio_mag_le(b, mb),
    ensures
        ratio_mag_le(spec_plus(a, b), 2 * (ma * mb)),
{
    lemma_times_bound(a, b, ma, mb);
    lemma_times_bound(b, a, mb, ma);
    assert(b.num * a.den == a.den * b.num);
}

} // verus!
