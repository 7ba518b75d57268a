use vstd::prelude::*;

verus! {

/// The largest absolute numerator and denominator of a ray parameter.
pub const PARAM_LIMIT: i64 = 4611686018427387904;

/// An exact rational ray parameter `num / den`.
///
/// Values are compared by cross-multiplication, so two fractions with
/// different representations may denote the same parameter.
#[derive(Clone, Copy, Debug, PartialEq, Eq, Structural)]
pub struct Fraction {
    pub num: i64,
    pub den: i64,
}

/// A positive denominator and both parts within `PARAM_LIMIT`.
pub open spec fn frac_wf(f: Fraction) -> bool {
    &&& -PARAM_LIMIT <= f.num <= PARAM_LIMIT
    &&& 0 < f.den <= PARAM_LIMIT
}

/// `a <= b` as rational numbers.
pub open spec fn frac_le(a: Fraction, b: Fraction) -> bool {
    a.num * b.den <= b.num * a.den
}

/// `a < b` as rational numbers.
pub open spec fn frac_lt(a: Fraction, b: Fraction) -> bool {
    a.num * b.den < b.num * a.den
}

/// `a` and `b` denote the same rational number.
pub open spec fn frac_eq(a: Fraction, b: Fraction) -> bool {
    a.num * b.den == b.num * a.den
}

proof fn lemma_cross_products_fit(a: Fraction, b: Fraction)
    requires
        frac_wf(a),
        frac_wf(b),
    ensures
        -0x1000_0000_0000_0000_0000_0000_0000_0000 <= a.num * b.den <= 0x1000_0000_0000_0000_0000_0000_0000_0000,
        -0x1000_0000_0000_0000_0000_0000_0000_0000 <= b.num * a.den <= 0x1000_0000_0000_0000_0000_0000_0000_0000,
{
    let l = PARAM_LIMIT as int;
    assert(l * l == 0x1000_0000_0000_0000_0000_0000_0000_0000);
    assert(-(l * l) <= a.num * b.den <= l * l) by (nonlinear_arith)
        requires
            -l <= a.num <= l,
            0 < b.den <= l,
    ;
    assert(-(l * l) <= b.num * a.den <= l * l) by (nonlinear_arith)
        requires
            -l <= b.num <= l,
            0 < a.den <= l,
    ;
}

/// The order on fractions is transitive.
pub proof fn lemma_le_trans(a: Fraction, b: Fraction, c: Fraction)
    requires
        a.den > 0,
        b.den > 0,
        c.den > 0,
        frac_le(a, b),
        frac_le(b, c),
    ensures
        frac_le(a, c),
{
    assert(a.num * c.den * b.den <= c.num * a.den * b.den) by (nonlinear_arith)
        requires
            a.den > 0,
            b.den > 0,
            c.den > 0,
            a.num * b.den <= b.num * a.den,
            b.num * c.den <= c.num * b.den,
    ;
    assert(a.num * c.den <= c.num * a.den) by (nonlinear_arith)
        requires
            b.den > 0,
            a.num * c.den * b.den <= c.num * a.den * b.den,
    ;
}

/// Any two fractions are ordered one way or the other.
pub proof fn lemma_le_total(a: Fraction, b: Fraction)
    ensures
        frac_le(a, b) || frac_le(b, a),
        frac_lt(a, b) == !frac_le(b, a),
{
}

/// Fractions that are each at most the other denote the same number.
pub proof fn lemma_le_antisym(a: Fraction, b: Fraction)
    requires
        frac_le(a, b),
        frac_le(b, a),
    ensures
        frac_eq(a, b),
{
}

impl Fraction {
    pub fn new(num: i64, den: i64) -> (r: Fraction)
        requires
            -PARAM_LIMIT <= num <= PARAM_LIMIT,
            0 < den <= PARAM_LIMIT,
        ensures
            r == (Fraction { num, den }),
            frac_wf(r),
    {
        Fraction { num, den }
    }

    /// The whole number `n`.
    pub fn from_integer(n: i64) -> (r: Fraction)
        requires
            -PARAM_LIMIT <= n <= PARAM_LIMIT,
        ensures
            r == (Fraction { num: n, den: 1 }),
            frac_wf(r),
    {
        Fraction { num: n, den: 1 }
    }

    /// Whether `self <= other` as rational numbers.
    pub fn at_most(&self, other: &Fraction) -> (r: bool)
        requires
            frac_wf(*self),
            frac_wf(*other),
        ensures
            r == frac_le(*self, *other),
    {
        proof {
            lemma_cross_products_fit(*self, *other);
        }
        (self.num as i128) * (other.den as i128) <= (other.num as i128) * (self.den as i128)
    }

    /// Whether `self < other` as rational numbers.
    pub fn less_than(&self, other: &Fraction) -> (r: bool)
        requires
            frac_wf(*self),
            frac_wf(*other),
        ensures
            r == frac_lt(*self, *other),
    {
        proof {
            lemma_cross_products_fit(*self, *other);
        }
        (self.num as i128) * (other.den as i128) < (other.num as i128) * (self.den as i128)
    }
}

} // verus!
