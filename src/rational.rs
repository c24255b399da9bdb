use vstd::prelude::*;

use crate::field::{Conjugate, Equals, Field};

verus! {

/// Greatest common divisor, by Euclid's algorithm.
pub open spec fn gcd(a: nat, b: nat) -> nat
    decreases b,
{
    if b == 0 {
        a
    } else {
        gcd(b, a % b)
    }
}

pub open spec fn abs(x: int) -> nat {
    if x < 0 {
        (-x) as nat
    } else {
        x as nat
    }
}

pub open spec fn fits_i64(x: int) -> bool {
    i64::MIN <= x <= i64::MAX
}

/// An exact fraction `num / den` of 64-bit integers.
///
/// A value with a positive denominator is defined. Results whose reduced
/// terms do not fit in 64 bits, and quotients by zero, are undefined; like a
/// floating-point NaN, an undefined operand makes every result undefined.
#[derive(Clone, Copy, Debug)]
pub struct Rational {
    pub num: i64,
    pub den: i64,
}

/// The undefined value.
pub open spec fn undefined() -> Rational {
    Rational { num: 0, den: 0 }
}

/// `n / d` in lowest terms with a positive denominator, or undefined when `d`
/// is zero or the reduced terms do not fit.
pub open spec fn make_spec(n: int, d: int) -> Rational {
    if d == 0 {
        undefined()
    } else {
        let sn = if d < 0 {
            -n
        } else {
            n
        };
        let g = gcd(abs(sn), abs(d));
        let rn: int = if sn < 0 {
            -(abs(sn) / g)
        } else {
            (abs(sn) / g) as int
        };
        let rd = abs(d) / g;
        if fits_i64(rn) && rd <= i64::MAX {
            Rational { num: rn as i64, den: rd as i64 }
        } else {
            undefined()
        }
    }
}

proof fn lemma_gcd_positive(a: nat, b: nat)
    requires
        b > 0,
    ensures
        gcd(a, b) > 0,
    decreases b,
{
    reveal_with_fuel(gcd, 2);
    if a % b > 0 {
        lemma_gcd_positive(b, a % b);
    }
}

/// The greatest common divisor divides both arguments.
proof fn lemma_gcd_divides(a: nat, b: nat)
    requires
        b > 0,
    ensures
        a == gcd(a, b) * (a / gcd(a, b)),
        b == gcd(a, b) * (b / gcd(a, b)),
    decreases b,
{
    reveal_with_fuel(gcd, 2);
    lemma_gcd_positive(a, b);
    let g = gcd(a, b);
    let r = a % b;
    vstd::arithmetic::div_mod::lemma_fundamental_div_mod(a as int, b as int);
    if r == 0 {
        assert(g == b);
        vstd::arithmetic::div_mod::lemma_div_by_self(b as int);
        assert(a == b * (a / b));
        assert(b == g * (b / g));
    } else {
        lemma_gcd_divides(b, r);
        assert(g == gcd(b, r));
        assert(b == g * (b / g));
        assert(r == g * (r / g));
        let kb = b / g;
        let kr = r / g;
        let qa = a / b;
        assert(a == g * (kb * qa + kr)) by (nonlinear_arith)
            requires
                a == b * qa + r,
                b == g * kb,
                r == g * kr,
        ;
        vstd::arithmetic::div_mod::lemma_div_multiples_vanish((kb * qa + kr) as int, g as int);
    }
}

/// A defined result of `make_spec(n, d)` is the fraction `n / d`.
pub proof fn lemma_make_value(n: int, d: int)
    requires
        make_spec(n, d).is_defined_spec(),
    ensures
        make_spec(n, d).num * d == n * make_spec(n, d).den,
{
    let sn = if d < 0 {
        -n
    } else {
        n
    };
    let g = gcd(abs(sn), abs(d));
    lemma_gcd_positive(abs(sn), abs(d));
    lemma_gcd_divides(abs(sn), abs(d));
    let r = make_spec(n, d);
    let a = abs(sn) / g;
    let e = abs(d) / g;
    assert(r.den == e);
    assert(sn == g * r.num) by (nonlinear_arith)
        requires
            abs(sn) == g * a,
            r.num == (if sn < 0 {
                -a
            } else {
                a as int
            }),
            abs(sn) == (if sn < 0 {
                -sn
            } else {
                sn
            }),
    ;
    assert(r.num * abs(d) == sn * r.den) by (nonlinear_arith)
        requires
            sn == g * r.num,
            abs(d) == g * e,
            r.den == e,
    ;
    assert(r.num * d == n * r.den) by (nonlinear_arith)
        requires
            r.num * abs(d) == sn * r.den,
            abs(d) == (if d < 0 {
                -d
            } else {
                d
            }),
            sn == (if d < 0 {
                -n
            } else {
                n
            }),
    ;
}

/// A defined result of `make_spec(n, d)` with `d > 0` has the sign of `n`.
pub proof fn lemma_make_sign(n: int, d: int)
    requires
        d > 0,
        make_spec(n, d).is_defined_spec(),
    ensures
        n > 0 ==> make_spec(n, d).num > 0,
        n >= 0 ==> make_spec(n, d).num >= 0,
{
    lemma_make_value(n, d);
    let r = make_spec(n, d);
    assert(n > 0 ==> r.num > 0) by (nonlinear_arith)
        requires
            r.num * d == n * r.den,
            d > 0,
            r.den > 0,
    ;
    assert(n >= 0 ==> r.num >= 0) by (nonlinear_arith)
        requires
            r.num * d == n * r.den,
            d > 0,
            r.den > 0,
    ;
}

/// Zero over a positive denominator is zero.
pub proof fn lemma_make_zero(d: int)
    requires
        d > 0,
    ensures
        make_spec(0, d) == Rational::zero_spec(),
{
    reveal_with_fuel(gcd, 2);
    assert(gcd(0, abs(d)) == abs(d));
    vstd::arithmetic::div_mod::lemma_div_by_self(d);
}

/// Defined results of the arithmetic on defined fractions are exact.
pub proof fn lemma_arithmetic_exact(a: Rational, b: Rational)
    requires
        a.is_defined_spec(),
        b.is_defined_spec(),
    ensures
        a.add_spec(b).is_defined_spec() ==> a.add_spec(b).num * (a.den * b.den) == (a.num * b.den
            + b.num * a.den) * a.add_spec(b).den,
        a.sub_spec(b).is_defined_spec() ==> a.sub_spec(b).num * (a.den * b.den) == (a.num * b.den
            - b.num * a.den) * a.sub_spec(b).den,
        a.mul_spec(b).is_defined_spec() ==> a.mul_spec(b).num * (a.den * b.den) == (a.num * b.num)
            * a.mul_spec(b).den,
        a.div_spec(b).is_defined_spec() ==> a.div_spec(b).num * (a.den * b.num) == (a.num * b.den)
            * a.div_spec(b).den,
        a.neg_spec().is_defined_spec() ==> a.neg_spec().num * a.den == -a.num * a.neg_spec().den,
{
    if a.add_spec(b).is_defined_spec() {
        lemma_make_value(a.num * b.den + b.num * a.den, a.den * b.den);
    }
    if a.sub_spec(b).is_defined_spec() {
        lemma_make_value(a.num * b.den - b.num * a.den, a.den * b.den);
    }
    if a.mul_spec(b).is_defined_spec() {
        lemma_make_value(a.num * b.num, a.den * b.den);
    }
    if a.div_spec(b).is_defined_spec() {
        lemma_make_value(a.num * b.den, a.den * b.num);
    }
    if a.neg_spec().is_defined_spec() {
        lemma_make_value(-a.num, a.den as int);
    }
}

proof fn lemma_mul_bound_den(x: int, y: int)
    requires
        -0x8000_0000_0000_0000 <= x <= 0x8000_0000_0000_0000,
        -0x7fff_ffff_ffff_ffff <= y <= 0x7fff_ffff_ffff_ffff,
    ensures
        -0x3fff_ffff_ffff_ffff_8000_0000_0000_0000 <= x * y <= 0x3fff_ffff_ffff_ffff_8000_0000_0000_0000,
{
    assert(-0x3fff_ffff_ffff_ffff_8000_0000_0000_0000 <= x * y <= 0x3fff_ffff_ffff_ffff_8000_0000_0000_0000)
        by (nonlinear_arith)
        requires
            -0x8000_0000_0000_0000 <= x <= 0x8000_0000_0000_0000,
            -0x7fff_ffff_ffff_ffff <= y <= 0x7fff_ffff_ffff_ffff,
    ;
}

proof fn lemma_mul_bound(x: int, y: int)
    requires
        -0x8000_0000_0000_0000 <= x <= 0x8000_0000_0000_0000,
        -0x8000_0000_0000_0000 <= y <= 0x8000_0000_0000_0000,
    ensures
        -0x4000_0000_0000_0000_0000_0000_0000_0000 <= x * y <= 0x4000_0000_0000_0000_0000_0000_0000_0000,
{
    assert(-0x4000_0000_0000_0000_0000_0000_0000_0000 <= x * y <= 0x4000_0000_0000_0000_0000_0000_0000_0000)
        by (nonlinear_arith)
        requires
            -0x8000_0000_0000_0000 <= x <= 0x8000_0000_0000_0000,
            -0x8000_0000_0000_0000 <= y <= 0x8000_0000_0000_0000,
    ;
}

fn gcd_exec(a: u128, b: u128) -> (g: u128)
    ensures
        g == gcd(a as nat, b as nat),
{
    let mut x = a;
    let mut y = b;
    while y != 0
        invariant
            gcd(x as nat, y as nat) == gcd(a as nat, b as nat),
        decreases y,
    {
        let t = x % y;
        x = y;
        y = t;
    }
    x
}

/// Builds `n / d` in lowest terms.
fn make(n: i128, d: i128) -> (r: Rational)
    requires
        n > i128::MIN,
        d > i128::MIN,
    ensures
        r == make_spec(n as int, d as int),
{
    if d == 0 {
        return Rational { num: 0, den: 0 };
    }
    let sn: i128 = if d < 0 {
        -n
    } else {
        n
    };
    let ad: u128 = if d < 0 {
        (-d) as u128
    } else {
        d as u128
    };
    let an: u128 = if sn < 0 {
        (-sn) as u128
    } else {
        sn as u128
    };
    let g = gcd_exec(an, ad);
    proof {
        lemma_gcd_positive(an as nat, ad as nat);
    }
    let qn = an / g;
    let qd = ad / g;
    if qd > i64::MAX as u128 {
        return Rational { num: 0, den: 0 };
    }
    if sn < 0 {
        if qn > 0x8000_0000_0000_0000u128 {
            return Rational { num: 0, den: 0 };
        }
        Rational { num: (-(qn as i128)) as i64, den: qd as i64 }
    } else {
        if qn > i64::MAX as u128 {
            return Rational { num: 0, den: 0 };
        }
        Rational { num: qn as i64, den: qd as i64 }
    }
}

impl Rational {
    /// The value is defined: its denominator is positive.
    pub open spec fn is_defined_spec(self) -> bool {
        self.den > 0
    }

    /// `num / den` in lowest terms; undefined when `den` is zero.
    pub fn new(num: i64, den: i64) -> (r: Rational)
        ensures
            r == make_spec(num as int, den as int),
    {
        make(num as i128, den as i128)
    }

    pub fn from_int(n: i64) -> (r: Rational)
        ensures
            r.num == n,
            r.den == 1,
    {
        Rational { num: n, den: 1 }
    }

    pub fn is_defined(&self) -> (r: bool)
        ensures
            r == self.is_defined_spec(),
    {
        self.den > 0
    }
}

impl Field for Rational {
    open spec fn zero_spec() -> Self {
        Rational { num: 0, den: 1 }
    }

    open spec fn one_spec() -> Self {
        Rational { num: 1, den: 1 }
    }

    open spec fn add_spec(self, b: Self) -> Self {
        if self.is_defined_spec() && b.is_defined_spec() {
            make_spec(self.num * b.den + b.num * self.den, self.den * b.den)
        } else {
            undefined()
        }
    }

    open spec fn sub_spec(self, b: Self) -> Self {
        if self.is_defined_spec() && b.is_defined_spec() {
            make_spec(self.num * b.den - b.num * self.den, self.den * b.den)
        } else {
            undefined()
        }
    }

    open spec fn mul_spec(self, b: Self) -> Self {
        if self.is_defined_spec() && b.is_defined_spec() {
            make_spec(self.num * b.num, self.den * b.den)
        } else {
            undefined()
        }
    }

    open spec fn div_spec(self, b: Self) -> Self {
        if self.is_defined_spec() && b.is_defined_spec() {
            make_spec(self.num * b.den, self.den * b.num)
        } else {
            undefined()
        }
    }

    open spec fn neg_spec(self) -> Self {
        if self.is_defined_spec() {
            make_spec(-self.num, self.den as int)
        } else {
            undefined()
        }
    }

    open spec fn is_zero_spec(self) -> bool {
        self.is_defined_spec() && self.num == 0
    }

    /// Compares `|num_a| / den_a` with `|num_b| / den_b`; an undefined value
    /// is larger in magnitude than every defined one.
    open spec fn mag_gt_spec(self, b: Self) -> bool {
        if !self.is_defined_spec() {
            b.is_defined_spec()
        } else if !b.is_defined_spec() {
            false
        } else {
            abs(self.num as int) * b.den > abs(b.num as int) * self.den
        }
    }

    proof fn lemma_identities() {
    }

    proof fn lemma_zero_least(a: Self, b: Self) {
        if a.is_defined_spec() && b.is_defined_spec() {
            let x = abs(a.num as int);
            let y = abs(b.num as int);
            assert(x * b.den >= 0 && y * a.den >= 0) by (nonlinear_arith)
                requires
                    x >= 0,
                    y >= 0,
                    a.den > 0,
                    b.den > 0,
            ;
            assert(x > 0 ==> x * b.den > 0) by (nonlinear_arith)
                requires
                    b.den > 0,
            ;
            assert(x == 0 ==> x * b.den == 0) by (nonlinear_arith);
            assert(y == 0 ==> y * a.den == 0) by (nonlinear_arith);
        }
    }

    proof fn lemma_mag_order(a: Self, b: Self, c: Self) {
        if a.is_defined_spec() && b.is_defined_spec() && c.is_defined_spec() {
            let xa = abs(a.num as int) as int;
            let xb = abs(b.num as int) as int;
            let xc = abs(c.num as int) as int;
            let da = a.den as int;
            let db = b.den as int;
            let dc = c.den as int;
            assert(xa * db > xb * da && xb * dc > xc * db ==> xa * dc > xc * da) by (nonlinear_arith)
                requires
                    da > 0,
                    db > 0,
                    dc > 0,
                    xb >= 0,
            ;
            assert(xa * dc > xc * da ==> xa * db > xb * da || xb * dc > xc * db) by (nonlinear_arith)
                requires
                    da > 0,
                    db > 0,
                    dc > 0,
            ;
        }
    }

    proof fn lemma_no_zero_divisors(a: Self, b: Self) {
        if a.is_defined_spec() && b.is_defined_spec() {
            lemma_arithmetic_exact(a, b);
            let m = a.mul_spec(b);
            if m.is_defined_spec() && a.num != 0 && b.num != 0 {
                assert(m.num != 0) by (nonlinear_arith)
                    requires
                        m.num * (a.den * b.den) == (a.num * b.num) * m.den,
                        a.num != 0,
                        b.num != 0,
                        m.den > 0,
                ;
            }
        }
        if a.is_defined_spec() {
            lemma_arithmetic_exact(a, a);
            let g = a.neg_spec();
            if g.is_defined_spec() && a.num != 0 {
                assert(g.num != 0) by (nonlinear_arith)
                    requires
                        g.num * a.den == -a.num * g.den,
                        a.num != 0,
                        g.den > 0,
                ;
            }
        }
    }

    fn zero() -> (r: Self) {
        Rational { num: 0, den: 1 }
    }

    fn one() -> (r: Self) {
        Rational { num: 1, den: 1 }
    }

    fn add(&self, b: &Self) -> (r: Self) {
        if self.den <= 0 || b.den <= 0 {
            return Rational { num: 0, den: 0 };
        }
        proof {
            lemma_mul_bound_den(self.num as int, b.den as int);
            lemma_mul_bound_den(b.num as int, self.den as int);
            lemma_mul_bound_den(self.den as int, b.den as int);
        }
        make(
            self.num as i128 * b.den as i128 + b.num as i128 * self.den as i128,
            self.den as i128 * b.den as i128,
        )
    }

    fn sub(&self, b: &Self) -> (r: Self) {
        if self.den <= 0 || b.den <= 0 {
            return Rational { num: 0, den: 0 };
        }
        proof {
            lemma_mul_bound_den(self.num as int, b.den as int);
            lemma_mul_bound_den(b.num as int, self.den as int);
            lemma_mul_bound_den(self.den as int, b.den as int);
        }
        make(
            self.num as i128 * b.den as i128 - b.num as i128 * self.den as i128,
            self.den as i128 * b.den as i128,
        )
    }

    fn mul(&self, b: &Self) -> (r: Self) {
        if self.den <= 0 || b.den <= 0 {
            return Rational { num: 0, den: 0 };
        }
        proof {
            lemma_mul_bound(self.num as int, b.num as int);
            lemma_mul_bound(self.den as int, b.den as int);
        }
        make(self.num as i128 * b.num as i128, self.den as i128 * b.den as i128)
    }

    fn div(&self, b: &Self) -> (r: Self) {
        if self.den <= 0 || b.den <= 0 {
            return Rational { num: 0, den: 0 };
        }
        proof {
            lemma_mul_bound(self.num as int, b.den as int);
            lemma_mul_bound(self.den as int, b.num as int);
        }
        make(self.num as i128 * b.den as i128, self.den as i128 * b.num as i128)
    }

    fn neg(&self) -> (r: Self) {
        if self.den <= 0 {
            return Rational { num: 0, den: 0 };
        }
        make(-(self.num as i128), self.den as i128)
    }

    fn is_zero(&self) -> (r: bool) {
        self.den > 0 && self.num == 0
    }

    fn mag_gt(&self, b: &Self) -> (r: bool) {
        if self.den <= 0 {
            return b.den > 0;
        }
        if b.den <= 0 {
            return false;
        }
        let x: i128 = if self.num < 0 {
            -(self.num as i128)
        } else {
            self.num as i128
        };
        let y: i128 = if b.num < 0 {
            -(b.num as i128)
        } else {
            b.num as i128
        };
        proof {
            lemma_mul_bound(x as int, b.den as int);
            lemma_mul_bound(y as int, self.den as int);
        }
        x * b.den as i128 > y * self.den as i128
    }
}

impl Equals for Rational {
    /// Both values are defined and equal as fractions.
    open spec fn equals_spec(self, v: Self) -> bool {
        self.is_defined_spec() && v.is_defined_spec() && self.num * v.den == v.num * self.den
    }

    fn equals(&self, v: &Self) -> (r: bool) {
        if self.den <= 0 || v.den <= 0 {
            return false;
        }
        proof {
            lemma_mul_bound(self.num as int, v.den as int);
            lemma_mul_bound(v.num as int, self.den as int);
        }
        self.num as i128 * v.den as i128 == v.num as i128 * self.den as i128
    }
}

impl Conjugate for Rational {
    open spec fn conjugate_spec(self) -> Self {
        self
    }

    fn conjugate(&self) -> (r: Self) {
        *self
    }
}

} // verus!
