//! Machine-word fractions for Lagrange coefficients; reduction and
//! multiplication are delegated to `num_rational`.

use num_rational::Ratio;
use vstd::arithmetic::div_mod::{lemma_fundamental_div_mod, lemma_mod_multiples_basic};
use vstd::prelude::*;

verus! {

pub open spec fn iabs(v: int) -> int {
    if v < 0 {
        -v
    } else {
        v
    }
}

/// A fraction `numer / denom` of machine integers.
#[derive(Clone, Copy, Debug, PartialEq, Eq, Structural)]
pub struct Fraction {
    pub numer: i64,
    pub denom: i64,
}

impl Fraction {
    /// The form in which `num_rational` hands fractions out.
    pub open spec fn wf(&self) -> bool {
        self.denom > 0 && self.numer > i64::MIN
    }

    /// In lowest terms: no common divisor above one, so zero is `0 / 1`.
    pub open spec fn lowest(&self) -> bool {
        forall|k: int| k > 1 ==> !(#[trigger] (self.numer as int % k) == 0 && self.denom as int % k == 0)
    }

    /// `self` denotes the same rational number as `n / d`.
    pub open spec fn denotes(&self, n: int, d: int) -> bool {
        self.numer * d == n * self.denom
    }
}

/// Relies on `num_rational::Ratio::<i64>::new`, which divides both parts by
/// their gcd and makes the denominator positive; it panics on a zero
/// denominator.
#[verifier::external_body]
pub(crate) fn ratio_new(numer: i64, denom: i64) -> (r: Fraction)
    requires
        denom != 0,
        numer > i64::MIN,
        denom > i64::MIN,
    ensures
        r.wf(),
        r.lowest(),
        r.denotes(numer as int, denom as int),
        iabs(r.numer as int) <= iabs(numer as int),
        r.denom <= iabs(denom as int),
{
    let q = Ratio::new(numer, denom);
    Fraction { numer: *q.numer(), denom: *q.denom() }
}

/// Relies on `Mul for num_rational::Ratio<i64>`, which cancels cross gcds,
/// multiplies and reduces. The bounds on the products keep its machine
/// arithmetic from overflowing.
#[verifier::external_body]
pub(crate) fn ratio_mul(a: Fraction, b: Fraction) -> (r: Fraction)
    requires
        a.wf(),
        b.wf(),
        iabs(a.numer * b.numer) <= i64::MAX,
        a.denom * b.denom <= i64::MAX,
    ensures
        r.wf(),
        r.lowest(),
        r.denotes(a.numer * b.numer, a.denom * b.denom),
        iabs(r.numer as int) <= iabs(a.numer * b.numer),
        r.denom <= a.denom * b.denom,
{
    let q = Ratio::new_raw(a.numer, a.denom) * Ratio::new_raw(b.numer, b.denom);
    Fraction { numer: *q.numer(), denom: *q.denom() }
}

/// A common divisor `g` of `a` and `b` with `a * x + b * y == g`.
proof fn lemma_bezout(a: int, b: int) -> (r: (int, int, int))
    requires
        a >= 0,
        b > 0,
    ensures
        r.0 > 0,
        a % r.0 == 0,
        b % r.0 == 0,
        a * r.1 + b * r.2 == r.0,
    decreases b,
{
    lemma_fundamental_div_mod(a, b);
    let q = a / b;
    let rm = a % b;
    if rm == 0 {
        lemma_mod_multiples_basic(1, b);
        assert(b % b == 0);
        (b, 0, 1)
    } else {
        let (g, x, y) = lemma_bezout(b, rm);
        lemma_fundamental_div_mod(b, g);
        lemma_fundamental_div_mod(rm, g);
        let kb = b / g;
        let kr = rm / g;
        assert(a == g * (q * kb + kr)) by (nonlinear_arith)
            requires
                a == b * q + rm,
                b == g * kb + 0,
                rm == g * kr + 0,
        ;
        lemma_mod_multiples_basic(q * kb + kr, g);
        assert(a % g == 0);
        assert(a * y + b * (x - q * y) == g) by (nonlinear_arith)
            requires
                b * x + rm * y == g,
                a == b * q + rm,
        ;
        (g, y, x - q * y)
    }
}

/// `n / d` in lowest terms gives `n * x + d * y == 1` for some `x`, `y`.
proof fn lemma_lowest_bezout(n: int, d: int) -> (r: (int, int))
    requires
        d > 0,
        forall|k: int| k > 1 ==> !(#[trigger] (n % k) == 0 && d % k == 0),
    ensures
        n * r.0 + d * r.1 == 1,
{
    let a = if n < 0 { -n } else { n };
    let (g, x, y) = lemma_bezout(a, d);
    lemma_fundamental_div_mod(a, g);
    let t = a / g;
    if n < 0 {
        assert(n == g * (-t)) by (nonlinear_arith)
            requires
                a == -n,
                a == g * t + 0,
        ;
        lemma_mod_multiples_basic(-t, g);
    } else {
        assert(n == g * t);
        lemma_mod_multiples_basic(t, g);
    }
    assert(n % g == 0);
    assert(!(g > 1));
    assert(g == 1);
    if n < 0 {
        assert(n * (-x) + d * y == 1) by (nonlinear_arith)
            requires
                a * x + d * y == 1,
                a == -n,
        ;
        (-x, y)
    } else {
        (x, y)
    }
}

/// A rational number has one form in lowest terms with a positive
/// denominator.
pub proof fn lemma_lowest_unique(f1: Fraction, f2: Fraction)
    requires
        f1.wf(),
        f2.wf(),
        f1.lowest(),
        f2.lowest(),
        f1.denotes(f2.numer as int, f2.denom as int),
    ensures
        f1 == f2,
{
    let (n1, d1, n2, d2) = (f1.numer as int, f1.denom as int, f2.numer as int, f2.denom as int);
    let (x1, y1) = lemma_lowest_bezout(n1, d1);
    let (x2, y2) = lemma_lowest_bezout(n2, d2);
    let k1 = x1 * n2 + d2 * y1;
    let k2 = x2 * n1 + d1 * y2;
    assert(d2 == d1 * k1) by (nonlinear_arith)
        requires
            n1 * x1 + d1 * y1 == 1,
            n1 * d2 == n2 * d1,
            k1 == x1 * n2 + d2 * y1,
    ;
    assert(d1 == d2 * k2) by (nonlinear_arith)
        requires
            n2 * x2 + d2 * y2 == 1,
            n1 * d2 == n2 * d1,
            k2 == x2 * n1 + d1 * y2,
    ;
    assert(k1 > 0 && k2 > 0) by (nonlinear_arith)
        requires
            d2 == d1 * k1,
            d1 == d2 * k2,
            d1 > 0,
            d2 > 0,
    ;
    assert(d1 == d2) by (nonlinear_arith)
        requires
            d2 == d1 * k1,
            d1 == d2 * k2,
            k1 > 0,
            k2 > 0,
            d1 > 0,
    ;
    assert(n1 == n2) by (nonlinear_arith)
        requires
            n1 * d2 == n2 * d1,
            d1 == d2,
            d1 > 0,
    ;
}

} // verus!
