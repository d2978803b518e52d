//! Exact decimal numbers, held as a fraction of two 64-bit integers.
use vstd::prelude::*;

use crate::definition::ExpressionError;

verus! {

/// A decimal number `numerator / denominator`, held exactly.
///
/// Well-formed values have a positive denominator; every operation of the
/// library that builds a `Decimal` keeps it so. A number read from text keeps
/// its places (`4.50` is `450 / 100`); the results of arithmetic are in lowest
/// terms. Two decimals are equal when they denote the same number.
#[derive(Debug, Clone, Copy)]
pub struct Decimal {
    pub numerator: i64,
    pub denominator: i64,
}

pub open spec fn fits_i64(x: int) -> bool {
    i64::MIN <= x <= i64::MAX
}

/// The sign of `a - b` for the numbers two decimals denote: -1, 0 or 1.
pub open spec fn compare_spec(a: Decimal, b: Decimal) -> int {
    let l = a.numerator * b.denominator;
    let r = b.numerator * a.denominator;
    if l < r { -1 } else if l == r { 0 } else { 1 }
}

/// The absolute value of `x`.
pub open spec fn magnitude(x: int) -> int {
    if x < 0 {
        -x
    } else {
        x
    }
}

/// Greatest common divisor, by Euclid's algorithm.
pub open spec fn gcd(a: nat, b: nat) -> nat
    decreases b,
{
    if b == 0 {
        a
    } else {
        gcd(b, a % b)
    }
}

/// The fraction `n / d` in lowest terms, or `Overflow` when a part of it
/// leaves the 64-bit range.
pub open spec fn fraction(n: int, d: int) -> Result<Decimal, ExpressionError> {
    let g = gcd(magnitude(n) as nat, magnitude(d) as nat) as int;
    let rn = if g == 0 {
        n
    } else {
        n / g
    };
    let rd = if g == 0 {
        d
    } else {
        d / g
    };
    if fits_i64(rn) && fits_i64(rd) {
        Ok(Decimal { numerator: rn as i64, denominator: rd as i64 })
    } else {
        Err(ExpressionError::Overflow)
    }
}

/// The greatest common divisor divides both numbers, and is positive unless
/// both are zero.
proof fn lemma_gcd_divides(a: nat, b: nat)
    ensures
        (a > 0 || b > 0) ==> gcd(a, b) > 0,
        gcd(a, b) > 0 ==> a == gcd(a, b) * (a / gcd(a, b)) && b == gcd(a, b) * (b / gcd(a, b)),
    decreases b,
{
    if b == 0 {
        if a > 0 {
            vstd::arithmetic::div_mod::lemma_div_multiples_vanish(1, a as int);
            vstd::arithmetic::div_mod::lemma_div_multiples_vanish(0, a as int);
        }
    } else {
        let r = a % b;
        lemma_gcd_divides(b, r);
        let g = gcd(a, b) as int;
        assert(g == gcd(b, r));
        vstd::arithmetic::div_mod::lemma_fundamental_div_mod(a as int, b as int);
        let q = a as int / b as int;
        let kb = b as int / g;
        let kr = r as int / g;
        assert(a == g * (kb * q + kr)) by (nonlinear_arith)
            requires
                a == b * q + r,
                b == g * kb,
                r == g * kr,
        ;
        vstd::arithmetic::div_mod::lemma_div_multiples_vanish(kb * q + kr, g);
    }
}

/// A fraction in lowest terms denotes the number of its parts.
proof fn lemma_fraction_value(n: int, d: int)
    ensures
        fraction(n, d) is Ok ==> fraction(n, d)->Ok_0.numerator * d == n * fraction(
            n,
            d,
        )->Ok_0.denominator,
        fraction(n, d) is Ok && d > 0 ==> fraction(n, d)->Ok_0.denominator > 0,
{
    let g = gcd(magnitude(n) as nat, magnitude(d) as nat) as int;
    lemma_gcd_divides(magnitude(n) as nat, magnitude(d) as nat);
    if g > 0 {
        lemma_signed_quotient(n, g);
        lemma_signed_quotient(d, g);
        let qn = n / g;
        let qd = d / g;
        assert(n == g * qn);
        assert(d == g * qd);
        assert(qn * d == n * qd) by (nonlinear_arith)
            requires
                n == g * qn,
                d == g * qd,
        ;
        assert(d > 0 ==> qd > 0) by (nonlinear_arith)
            requires
                d == g * qd,
                g > 0,
        ;
    }
}

/// Dividing an exact multiple of `g` keeps the sign: `x / g` is
/// `magnitude(x) / g` with the sign of `x`.
proof fn lemma_signed_quotient(x: int, g: int)
    requires
        g > 0,
        magnitude(x) == g * (magnitude(x) / g),
    ensures
        x == g * (x / g),
        x / g == if x < 0 {
            -(magnitude(x) / g)
        } else {
            magnitude(x) / g
        },
{
    let k = magnitude(x) / g;
    if x < 0 {
        assert(x == g * -k) by (nonlinear_arith)
            requires
                x == -magnitude(x),
                magnitude(x) == g * k,
        ;
        vstd::arithmetic::div_mod::lemma_div_multiples_vanish(-k, g);
    } else {
        vstd::arithmetic::div_mod::lemma_div_multiples_vanish(k, g);
    }
}

fn gcd_of(a: u128, b: u128) -> (g: u128)
    ensures
        g == gcd(a as nat, b as nat),
{
    let mut x = a;
    let mut y = b;
    while y != 0
        invariant
            gcd(x as nat, y as nat) == gcd(a as nat, b as nat),
        decreases y,
    {
        let t = x % y;
        x = y;
        y = t;
    }
    x
}

/// The magnitude of `x`.
fn magnitude_of(x: i128) -> (r: u128)
    ensures
        r == magnitude(x as int),
{
    if x < 0 {
        (-(x + 1)) as u128 + 1
    } else {
        x as u128
    }
}

/// `q` with the sign that `negative` gives, if it fits in 64 bits.
fn signed_part(q: u128, negative: bool) -> (r: Option<i64>)
    ensures
        match r {
            Some(v) => v == (if negative {
                -(q as int)
            } else {
                q as int
            }),
            None => !fits_i64(
                if negative {
                    -(q as int)
                } else {
                    q as int
                },
            ),
        },
{
    if negative {
        if q > 0x8000_0000_0000_0000 {
            None
        } else if q == 0x8000_0000_0000_0000 {
            Some(i64::MIN)
        } else {
            Some(-(q as i64))
        }
    } else {
        if q > 0x7fff_ffff_ffff_ffff {
            None
        } else {
            Some(q as i64)
        }
    }
}

pub open spec fn fits_i128(x: int) -> bool {
    i128::MIN <= x <= i128::MAX
}

/// The sum in lowest terms. The unreduced numerator always fits in 128 bits
/// when both denominators are positive; where it does not, the sum overflows.
pub open spec fn add_spec(a: Decimal, b: Decimal) -> Result<Decimal, ExpressionError> {
    let n = a.numerator * b.denominator + b.numerator * a.denominator;
    if fits_i128(n) {
        fraction(n, a.denominator * b.denominator)
    } else {
        Err(ExpressionError::Overflow)
    }
}

/// The difference in lowest terms, as for the sum.
pub open spec fn sub_spec(a: Decimal, b: Decimal) -> Result<Decimal, ExpressionError> {
    let n = a.numerator * b.denominator - b.numerator * a.denominator;
    if fits_i128(n) {
        fraction(n, a.denominator * b.denominator)
    } else {
        Err(ExpressionError::Overflow)
    }
}

pub open spec fn mul_spec(a: Decimal, b: Decimal) -> Result<Decimal, ExpressionError> {
    fraction(a.numerator * b.numerator, a.denominator * b.denominator)
}

/// Division keeps the denominator positive by moving the divisor's sign to
/// the numerator.
pub open spec fn div_spec(a: Decimal, b: Decimal) -> Result<Decimal, ExpressionError> {
    if b.numerator == 0 {
        Err(ExpressionError::DivisionByZero)
    } else if b.numerator > 0 {
        fraction(a.numerator * b.denominator, a.denominator * b.numerator)
    } else {
        fraction(-(a.numerator * b.denominator), -(a.denominator * b.numerator))
    }
}

impl Decimal {
    pub open spec fn wf(self) -> bool {
        self.denominator > 0
    }

    /// The decimal `numerator / denominator`.
    pub fn new(numerator: i64, denominator: i64) -> (r: Decimal)
        requires
            denominator > 0,
        ensures
            r.numerator == numerator,
            r.denominator == denominator,
            r.wf(),
    {
        Decimal { numerator, denominator }
    }

    /// The integer `value` as a decimal.
    pub fn from_integer(value: i64) -> (r: Decimal)
        ensures
            r == (Decimal { numerator: value, denominator: 1 }),
            r.wf(),
    {
        Decimal { numerator: value, denominator: 1 }
    }

    fn from_wide(n: i128, d: i128) -> (r: Result<Decimal, ExpressionError>)
        ensures
            r == fraction(n as int, d as int),
            r is Ok ==> r->Ok_0.numerator * d == n * r->Ok_0.denominator,
            r is Ok && d > 0 ==> r->Ok_0.wf(),
    {
        proof { lemma_fraction_value(n as int, d as int) }
        let un = magnitude_of(n);
        let ud = magnitude_of(d);
        let g = gcd_of(un, ud);
        proof { lemma_gcd_divides(un as nat, ud as nat) }
        if g == 0 {
            return Ok(Decimal { numerator: 0, denominator: 0 });
        }
        proof {
            lemma_signed_quotient(n as int, g as int);
            lemma_signed_quotient(d as int, g as int);
        }
        let rn = signed_part(un / g, n < 0);
        let rd = signed_part(ud / g, d < 0);
        match (rn, rd) {
            (Some(x), Some(y)) => Ok(Decimal { numerator: x, denominator: y }),
            _ => Err(ExpressionError::Overflow),
        }
    }

    pub fn add(self, other: Decimal) -> (r: Result<Decimal, ExpressionError>)
        ensures
            r == add_spec(self, other),
            r is Ok ==> r->Ok_0.numerator * (self.denominator * other.denominator) == (
            self.numerator * other.denominator + other.numerator * self.denominator)
                * r->Ok_0.denominator,
            self.wf() && other.wf() && r is Ok ==> r->Ok_0.wf(),
    {
        let an = self.numerator as i128;
        let ad = self.denominator as i128;
        let bn = other.numerator as i128;
        let bd = other.denominator as i128;
        proof {
            lemma_wide_products(an as int, ad as int, bn as int, bd as int);
            lemma_positive_product(ad as int, bd as int);
        }
        match (an * bd).checked_add(bn * ad) {
            Some(n) => Decimal::from_wide(n, ad * bd),
            None => Err(ExpressionError::Overflow),
        }
    }

    pub fn sub(self, other: Decimal) -> (r: Result<Decimal, ExpressionError>)
        ensures
            r == sub_spec(self, other),
            r is Ok ==> r->Ok_0.numerator * (self.denominator * other.denominator) == (
            self.numerator * other.denominator - other.numerator * self.denominator)
                * r->Ok_0.denominator,
            self.wf() && other.wf() && r is Ok ==> r->Ok_0.wf(),
    {
        let an = self.numerator as i128;
        let ad = self.denominator as i128;
        let bn = other.numerator as i128;
        let bd = other.denominator as i128;
        proof {
            lemma_wide_products(an as int, ad as int, bn as int, bd as int);
            lemma_positive_product(ad as int, bd as int);
        }
        match (an * bd).checked_sub(bn * ad) {
            Some(n) => Decimal::from_wide(n, ad * bd),
            None => Err(ExpressionError::Overflow),
        }
    }

    pub fn mul(self, other: Decimal) -> (r: Result<Decimal, ExpressionError>)
        ensures
            r == mul_spec(self, other),
            r is Ok ==> r->Ok_0.numerator * (self.denominator * other.denominator) == (
            self.numerator * other.numerator) * r->Ok_0.denominator,
            self.wf() && other.wf() && r is Ok ==> r->Ok_0.wf(),
    {
        let an = self.numerator as i128;
        let ad = self.denominator as i128;
        let bn = other.numerator as i128;
        let bd = other.denominator as i128;
        proof {
            lemma_wide_products(an as int, ad as int, bn as int, bd as int);
            lemma_positive_product(ad as int, bd as int);
        }
        Decimal::from_wide(an * bn, ad * bd)
    }

    pub fn div(self, other: Decimal) -> (r: Result<Decimal, ExpressionError>)
        ensures
            r == div_spec(self, other),
            r is Ok ==> r->Ok_0.numerator * (self.denominator * other.numerator) == (
            self.numerator * other.denominator) * r->Ok_0.denominator,
            self.wf() && r is Ok ==> r->Ok_0.wf(),
    {
        let an = self.numerator as i128;
        let ad = self.denominator as i128;
        let bn = other.numerator as i128;
        let bd = other.denominator as i128;
        proof { lemma_wide_products(an as int, ad as int, bn as int, bd as int) }
        if bn == 0 {
            Err(ExpressionError::DivisionByZero)
        } else if bn > 0 {
            proof {
                lemma_positive_product(ad as int, bn as int);
                lemma_product_bound(ad as int, bn as int);
            }
            Decimal::from_wide(an * bd, ad * bn)
        } else {
            proof {
                lemma_positive_product(ad as int, -bn);
                lemma_product_bound(ad as int, bn as int);
            }
            let r = Decimal::from_wide(-(an * bd), -(ad * bn));
            proof {
                if r is Ok {
                    let x = r->Ok_0.numerator as int;
                    let y = r->Ok_0.denominator as int;
                    let p = (an * bd) as int;
                    let q = (ad * bn) as int;
                    assert(x * q == p * y) by (nonlinear_arith)
                        requires
                            x * -q == -p * y,
                    ;
                }
            }
            r
        }
    }

    /// Compares the numbers two decimals denote: -1, 0 or 1 as `self` is
    /// less than, equal to or greater than `other`.
    pub fn compare(self, other: Decimal) -> (r: i8)
        ensures
            r as int == compare_spec(self, other),
    {
        let an = self.numerator as i128;
        let ad = self.denominator as i128;
        let bn = other.numerator as i128;
        let bd = other.denominator as i128;
        proof { lemma_wide_products(an as int, ad as int, bn as int, bd as int) }
        let l = an * bd;
        let r = bn * ad;
        if l < r {
            -1
        } else if l == r {
            0
        } else {
            1
        }
    }
}

/// Products of two 64-bit values, and sums or differences of two such
/// products, stay well inside the 128-bit range.
proof fn lemma_wide_products(an: int, ad: int, bn: int, bd: int)
    requires
        fits_i64(an),
        fits_i64(ad),
        fits_i64(bn),
        fits_i64(bd),
    ensures
        -0x4000_0000_0000_0000_0000_0000_0000_0000 <= an * bd
            <= 0x4000_0000_0000_0000_0000_0000_0000_0000,
        -0x4000_0000_0000_0000_0000_0000_0000_0000 <= bn * ad
            <= 0x4000_0000_0000_0000_0000_0000_0000_0000,
        -0x4000_0000_0000_0000_0000_0000_0000_0000 <= an * bn
            <= 0x4000_0000_0000_0000_0000_0000_0000_0000,
        -0x4000_0000_0000_0000_0000_0000_0000_0000 <= ad * bd
            <= 0x4000_0000_0000_0000_0000_0000_0000_0000,
{
    lemma_product_bound(an, bd);
    lemma_product_bound(bn, ad);
    lemma_product_bound(an, bn);
    lemma_product_bound(ad, bd);
}

proof fn lemma_positive_product(x: int, y: int)
    ensures
        x > 0 && y > 0 ==> x * y > 0,
        x > 0 && y > 0 ==> x * -y == -(x * y),
{
    assert(x > 0 && y > 0 ==> x * y > 0) by (nonlinear_arith);
    assert(x * -y == -(x * y)) by (nonlinear_arith);
}

proof fn lemma_product_bound(x: int, y: int)
    requires
        fits_i64(x),
        fits_i64(y),
    ensures
        -0x4000_0000_0000_0000_0000_0000_0000_0000 <= x * y
            <= 0x4000_0000_0000_0000_0000_0000_0000_0000,
{
    assert(-0x8000_0000_0000_0000 <= x <= 0x8000_0000_0000_0000);
    assert(-0x8000_0000_0000_0000 <= y <= 0x8000_0000_0000_0000);
    assert(-0x4000_0000_0000_0000_0000_0000_0000_0000 <= x * y
        <= 0x4000_0000_0000_0000_0000_0000_0000_0000) by (nonlinear_arith)
        requires
            -0x8000_0000_0000_0000 <= x <= 0x8000_0000_0000_0000,
            -0x8000_0000_0000_0000 <= y <= 0x8000_0000_0000_0000,
    ;
}

impl PartialEq for Decimal {
    fn eq(&self, other: &Decimal) -> (r: bool) {
        self.compare(*other) == 0
    }
}

impl vstd::std_specs::cmp::PartialEqSpecImpl for Decimal {
    open spec fn obeys_eq_spec() -> bool {
        true
    }

    open spec fn eq_spec(&self, other: &Decimal) -> bool {
        compare_spec(*self, *other) == 0
    }
}

} // verus!
