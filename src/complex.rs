use vstd::prelude::*;

use crate::field::{Conjugate, Equals, Field};
use crate::rational::{lemma_arithmetic_exact, lemma_make_sign, lemma_make_zero, make_spec, Rational};

verus! {

/// A complex number with exact rational real and imaginary parts.
///
/// Complex numbers have no order; pivoting compares the squared modulus
/// `re² + im²`, which orders magnitudes as the modulus does.
#[derive(Clone, Copy, Debug)]
pub struct Complex {
    pub re: Rational,
    pub im: Rational,
}

/// The squared modulus `re² + im²`.
pub open spec fn norm_sqr_spec(z: Complex) -> Rational {
    z.re.mul_spec(z.re).add_spec(z.im.mul_spec(z.im))
}

/// The square of a defined fraction is non-negative, and positive when the
/// fraction is not zero.
proof fn lemma_square_sign(x: Rational)
    requires
        x.is_defined_spec(),
        x.mul_spec(x).is_defined_spec(),
    ensures
        x.mul_spec(x).num >= 0,
        x.num != 0 ==> x.mul_spec(x).num > 0,
{
    assert(x.num * x.num >= 0 && (x.num != 0 ==> x.num * x.num > 0)) by (nonlinear_arith);
    assert(x.den * x.den > 0) by (nonlinear_arith)
        requires
            x.den > 0,
    ;
    lemma_make_sign(x.num * x.num, x.den * x.den);
}

/// The squared modulus of zero is zero; that of a non-zero number is
/// undefined or positive.
proof fn lemma_norm_sqr(z: Complex)
    ensures
        z.is_zero_spec() ==> norm_sqr_spec(z) == Rational::zero_spec(),
        !z.is_zero_spec() ==> !norm_sqr_spec(z).is_zero_spec(),
{
    let a = z.re.mul_spec(z.re);
    let b = z.im.mul_spec(z.im);
    if z.re.is_defined_spec() && z.im.is_defined_spec() {
        if a.is_defined_spec() {
            lemma_square_sign(z.re);
        }
        if b.is_defined_spec() {
            lemma_square_sign(z.im);
        }
        if a.is_defined_spec() && b.is_defined_spec() {
            let n = a.num * b.den + b.num * a.den;
            assert(n >= 0 && (a.num > 0 || b.num > 0 ==> n > 0)) by (nonlinear_arith)
                requires
                    a.num >= 0,
                    b.num >= 0,
                    a.den > 0,
                    b.den > 0,
                    n == a.num * b.den + b.num * a.den,
            ;
            assert(a.den * b.den > 0) by (nonlinear_arith)
                requires
                    a.den > 0,
                    b.den > 0,
            ;
            if norm_sqr_spec(z).is_defined_spec() {
                lemma_make_sign(n, a.den * b.den);
            }
        }
        if z.is_zero_spec() {
            assert(z.re.num * z.re.num == 0);
            assert(z.im.num * z.im.num == 0);
            assert(z.re.den * z.re.den > 0) by (nonlinear_arith)
                requires
                    z.re.den > 0,
            ;
            assert(z.im.den * z.im.den > 0) by (nonlinear_arith)
                requires
                    z.im.den > 0,
            ;
            lemma_make_zero(z.re.den * z.re.den);
            lemma_make_zero(z.im.den * z.im.den);
            lemma_make_zero(1);
            assert(a == Rational::zero_spec());
            assert(b == Rational::zero_spec());
            assert(norm_sqr_spec(z) == make_spec(0, 1));
        }
    }
}

/// `x - y` is zero only for defined `x`, `y` of equal value; `x + y` only for
/// defined opposite values.
proof fn lemma_sum_zero(x: Rational, y: Rational)
    ensures
        x.sub_spec(y).is_zero_spec() ==> x.is_defined_spec() && y.is_defined_spec() && x.num * y.den
            == y.num * x.den,
        x.add_spec(y).is_zero_spec() ==> x.is_defined_spec() && y.is_defined_spec() && x.num * y.den
            == -(y.num * x.den),
{
    if x.is_defined_spec() && y.is_defined_spec() {
        lemma_arithmetic_exact(x, y);
        let d = x.sub_spec(y);
        if d.is_zero_spec() {
            assert(x.num * y.den - y.num * x.den == 0) by (nonlinear_arith)
                requires
                    d.num * (x.den * y.den) == (x.num * y.den - y.num * x.den) * d.den,
                    d.num == 0,
                    d.den > 0,
            ;
        }
        let t = x.add_spec(y);
        if t.is_zero_spec() {
            assert(x.num * y.den + y.num * x.den == 0) by (nonlinear_arith)
                requires
                    t.num * (x.den * y.den) == (x.num * y.den + y.num * x.den) * t.den,
                    t.num == 0,
                    t.den > 0,
            ;
        }
    }
}

/// The products `x·y` and `u·v`, when defined, compare as `x·y` and `u·v` do.
proof fn lemma_products_compare(x: Rational, y: Rational, u: Rational, v: Rational, sign: int)
    requires
        x.is_defined_spec(),
        y.is_defined_spec(),
        u.is_defined_spec(),
        v.is_defined_spec(),
        x.mul_spec(y).is_defined_spec(),
        u.mul_spec(v).is_defined_spec(),
        x.mul_spec(y).num * u.mul_spec(v).den == sign * (u.mul_spec(v).num * x.mul_spec(y).den),
    ensures
        x.num * y.num * (u.den * v.den) == sign * (u.num * v.num * (x.den * y.den)),
{
    lemma_arithmetic_exact(x, y);
    lemma_arithmetic_exact(u, v);
    let p = x.mul_spec(y);
    let q = u.mul_spec(v);
    let dxy = x.den * y.den;
    let duv = u.den * v.den;
    let nxy = x.num * y.num;
    let nuv = u.num * v.num;
    let pd = p.den as int;
    let qd = q.den as int;
    let pn = p.num as int;
    let qn = q.num as int;
    assert((nxy * pd) * (duv * qd) == (pn * dxy) * (duv * qd)) by (nonlinear_arith)
        requires
            nxy * pd == pn * dxy,
    ;
    assert((nuv * qd) * (dxy * pd) == (qn * duv) * (dxy * pd)) by (nonlinear_arith)
        requires
            nuv * qd == qn * duv,
    ;
    assert((pn * qd) * (dxy * duv) == (sign * (qn * pd)) * (dxy * duv)) by (nonlinear_arith)
        requires
            pn * qd == sign * (qn * pd),
    ;
    assert((pn * dxy) * (duv * qd) == (pn * qd) * (dxy * duv)) by (nonlinear_arith);
    assert((sign * (qn * pd)) * (dxy * duv) == sign * ((qn * duv) * (dxy * pd))) by (nonlinear_arith);
    assert(nxy * duv * (pd * qd) == (nxy * pd) * (duv * qd)) by (nonlinear_arith);
    assert(sign * (nuv * dxy) * (pd * qd) == sign * ((nuv * qd) * (dxy * pd))) by (nonlinear_arith);
    assert(nxy * duv * (p.den * q.den) == sign * (nuv * dxy) * (p.den * q.den));
    assert(p.den * q.den > 0) by (nonlinear_arith)
        requires
            p.den > 0,
            q.den > 0,
    ;
    assert(nxy * duv == sign * (nuv * dxy)) by (nonlinear_arith)
        requires
            nxy * duv * (p.den * q.den) == sign * (nuv * dxy) * (p.den * q.den),
            p.den * q.den > 0,
    ;
}

/// Over the rationals, `(a + bi)(c + di)` is zero only when a factor is zero.
proof fn lemma_complex_no_zero_divisors(z: Complex, w: Complex)
    requires
        z.mul_spec(w).is_zero_spec(),
    ensures
        z.is_zero_spec() || w.is_zero_spec(),
{
    let a = z.re;
    let b = z.im;
    let c = w.re;
    let d = w.im;
    lemma_sum_zero(a.mul_spec(c), b.mul_spec(d));
    lemma_sum_zero(a.mul_spec(d), b.mul_spec(c));
    if a.is_defined_spec() && b.is_defined_spec() && c.is_defined_spec() && d.is_defined_spec() {
        lemma_products_compare(a, c, b, d, 1);
        lemma_products_compare(a, d, b, c, -1);
        let ca = a.num * b.den;
        let cb = b.num * a.den;
        let cc = c.num * d.den;
        let cd = d.num * c.den;
        assert(ca * cc == cb * cd) by (nonlinear_arith)
            requires
                a.num * c.num * (b.den * d.den) == 1 * (b.num * d.num * (a.den * c.den)),
                ca == a.num * b.den,
                cb == b.num * a.den,
                cc == c.num * d.den,
                cd == d.num * c.den,
        ;
        assert(ca * cd == a.num * d.num * (b.den * c.den)) by (nonlinear_arith)
            requires
                ca == a.num * b.den,
                cd == d.num * c.den,
        ;
        assert(cb * cc == b.num * c.num * (a.den * d.den)) by (nonlinear_arith)
            requires
                cb == b.num * a.den,
                cc == c.num * d.den,
        ;
        assert(ca * cd + cb * cc == 0);
        assert((ca * ca + cb * cb) * (cc * cc + cd * cd) == 0) by (nonlinear_arith)
            requires
                ca * cc == cb * cd,
                ca * cd + cb * cc == 0,
        ;
        assert(ca * ca + cb * cb == 0 || cc * cc + cd * cd == 0) by (nonlinear_arith)
            requires
                (ca * ca + cb * cb) * (cc * cc + cd * cd) == 0,
        ;
        assert(ca * ca + cb * cb == 0 ==> ca == 0 && cb == 0) by (nonlinear_arith);
        assert(cc * cc + cd * cd == 0 ==> cc == 0 && cd == 0) by (nonlinear_arith);
        assert(ca == 0 ==> a.num == 0) by (nonlinear_arith)
            requires
                ca == a.num * b.den,
                b.den > 0,
        ;
        assert(cb == 0 ==> b.num == 0) by (nonlinear_arith)
            requires
                cb == b.num * a.den,
                a.den > 0,
        ;
        assert(cc == 0 ==> c.num == 0) by (nonlinear_arith)
            requires
                cc == c.num * d.den,
                d.den > 0,
        ;
        assert(cd == 0 ==> d.num == 0) by (nonlinear_arith)
            requires
                cd == d.num * c.den,
                c.den > 0,
        ;
    }
}

impl Complex {
    pub fn new(re: Rational, im: Rational) -> (r: Complex)
        ensures
            r.re == re,
            r.im == im,
    {
        Complex { re, im }
    }

    /// The complex number with real part `x` and imaginary part zero.
    pub fn from_real(x: Rational) -> (r: Complex)
        ensures
            r.re == x,
            r.im == Rational::zero_spec(),
    {
        Complex { re: x, im: Rational::zero() }
    }

    /// The squared modulus `re² + im²`.
    pub fn norm_sqr(&self) -> (r: Rational)
        ensures
            r == norm_sqr_spec(*self),
    {
        self.re.mul(&self.re).add(&self.im.mul(&self.im))
    }
}

impl Field for Complex {
    open spec fn zero_spec() -> Self {
        Complex { re: Rational::zero_spec(), im: Rational::zero_spec() }
    }

    open spec fn one_spec() -> Self {
        Complex { re: Rational::one_spec(), im: Rational::zero_spec() }
    }

    open spec fn add_spec(self, b: Self) -> Self {
        Complex { re: self.re.add_spec(b.re), im: self.im.add_spec(b.im) }
    }

    open spec fn sub_spec(self, b: Self) -> Self {
        Complex { re: self.re.sub_spec(b.re), im: self.im.sub_spec(b.im) }
    }

    /// `(a + bi)(c + di) = (ac - bd) + (ad + bc)i`
    open spec fn mul_spec(self, b: Self) -> Self {
        Complex {
            re: self.re.mul_spec(b.re).sub_spec(self.im.mul_spec(b.im)),
            im: self.re.mul_spec(b.im).add_spec(self.im.mul_spec(b.re)),
        }
    }

    /// `(a + bi)/(c + di) = ((ac + bd) + (bc - ad)i) / (c² + d²)`
    open spec fn div_spec(self, b: Self) -> Self {
        let n = norm_sqr_spec(b);
        Complex {
            re: self.re.mul_spec(b.re).add_spec(self.im.mul_spec(b.im)).div_spec(n),
            im: self.im.mul_spec(b.re).sub_spec(self.re.mul_spec(b.im)).div_spec(n),
        }
    }

    open spec fn neg_spec(self) -> Self {
        Complex { re: self.re.neg_spec(), im: self.im.neg_spec() }
    }

    open spec fn is_zero_spec(self) -> bool {
        self.re.is_zero_spec() && self.im.is_zero_spec()
    }

    open spec fn mag_gt_spec(self, b: Self) -> bool {
        norm_sqr_spec(self).mag_gt_spec(norm_sqr_spec(b))
    }

    proof fn lemma_identities() {
    }

    proof fn lemma_zero_least(a: Self, b: Self) {
        lemma_norm_sqr(a);
        lemma_norm_sqr(b);
        Rational::lemma_zero_least(norm_sqr_spec(a), norm_sqr_spec(b));
    }

    proof fn lemma_mag_order(a: Self, b: Self, c: Self) {
        Rational::lemma_mag_order(norm_sqr_spec(a), norm_sqr_spec(b), norm_sqr_spec(c));
    }

    proof fn lemma_no_zero_divisors(a: Self, b: Self) {
        if !a.is_zero_spec() && !b.is_zero_spec() && a.mul_spec(b).is_zero_spec() {
            lemma_complex_no_zero_divisors(a, b);
        }
        Rational::lemma_no_zero_divisors(a.re, a.re);
        Rational::lemma_no_zero_divisors(a.im, a.im);
    }

    fn zero() -> (r: Self) {
        Complex { re: Rational::zero(), im: Rational::zero() }
    }

    fn one() -> (r: Self) {
        Complex { re: Rational::one(), im: Rational::zero() }
    }

    fn add(&self, b: &Self) -> (r: Self) {
        Complex { re: self.re.add(&b.re), im: self.im.add(&b.im) }
    }

    fn sub(&self, b: &Self) -> (r: Self) {
        Complex { re: self.re.sub(&b.re), im: self.im.sub(&b.im) }
    }

    fn mul(&self, b: &Self) -> (r: Self) {
        Complex {
            re: self.re.mul(&b.re).sub(&self.im.mul(&b.im)),
            im: self.re.mul(&b.im).add(&self.im.mul(&b.re)),
        }
    }

    fn div(&self, b: &Self) -> (r: Self) {
        let n = b.norm_sqr();
        Complex {
            re: self.re.mul(&b.re).add(&self.im.mul(&b.im)).div(&n),
            im: self.im.mul(&b.re).sub(&self.re.mul(&b.im)).div(&n),
        }
    }

    fn neg(&self) -> (r: Self) {
        Complex { re: self.re.neg(), im: self.im.neg() }
    }

    fn is_zero(&self) -> (r: bool) {
        self.re.is_zero() && self.im.is_zero()
    }

    fn mag_gt(&self, b: &Self) -> (r: bool) {
        self.norm_sqr().mag_gt(&b.norm_sqr())
    }
}

impl Equals for Complex {
    /// Both parts are equal as fractions.
    open spec fn equals_spec(self, v: Self) -> bool {
        self.re.equals_spec(v.re) && self.im.equals_spec(v.im)
    }

    fn equals(&self, v: &Self) -> (r: bool) {
        self.re.equals(&v.re) && self.im.equals(&v.im)
    }
}

impl Conjugate for Complex {
    /// `a + bi ↦ a - bi`
    open spec fn conjugate_spec(self) -> Self {
        Complex { re: self.re, im: self.im.neg_spec() }
    }

    fn conjugate(&self) -> (r: Self) {
        Complex { re: self.re, im: self.im.neg() }
    }
}

} // verus!
