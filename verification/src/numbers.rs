//! Rational and arbitrary-precision numbers.
//!
//! A [`Rat`] is a fraction in lowest terms with machine-size parts; its
//! arithmetic is that of `num_rational::Ratio<i64>`, checked for overflow.  A
//! [`BigNum`] is an integer of any size in base 2^32, the digit format of
//! `num_bigint`.

use num_bigint::{BigInt, Sign};
use num_rational::Ratio;
use num_traits::{CheckedAdd, CheckedMul, ToPrimitive};
use vstd::arithmetic::div_mod::lemma_fundamental_div_mod;
use vstd::arithmetic::power2::{lemma_pow2_pos, pow2};
use crate::text::{decimal, digit_char};
use vstd::prelude::*;

verus! {

/// Greatest common divisor.
pub open spec fn gcd(a: nat, b: nat) -> nat
    decreases b,
{
    if b == 0 {
        a
    } else {
        gcd(b, a % b)
    }
}

/// Absolute value.
pub open spec fn magnitude(i: int) -> nat {
    if i < 0 {
        (-i) as nat
    } else {
        i as nat
    }
}

/// The integers that a 64-bit signed word holds.
pub open spec fn fits(i: int) -> bool {
    i64::MIN <= i <= i64::MAX
}

/// The numerator and the denominator of `n/d` in lowest terms are in the
/// 64-bit range.
pub open spec fn reduced_fits(n: int, d: int) -> bool {
    let g = gcd(magnitude(n), d as nat) as int;
    fits(n / g) && fits(d / g)
}

/// No step of adding `an/ad` and `bn/bd` over their least common denominator
/// leaves the 64-bit range, nor does the result.
pub open spec fn sum_fits(an: int, ad: int, bn: int, bd: int) -> bool {
    let lcm = (ad / gcd(ad as nat, bd as nat) as int) * bd;
    &&& reduced_fits(an * bd + bn * ad, ad * bd)
    &&& fits(lcm)
    &&& fits((lcm / ad) * an)
    &&& fits((lcm / bd) * bn)
    &&& fits((lcm / ad) * an + (lcm / bd) * bn)
}

/// No step of multiplying `an/ad` by `bn/bd`, after cancelling across, leaves
/// the 64-bit range, nor does the result.
pub open spec fn product_fits(an: int, ad: int, bn: int, bd: int) -> bool {
    let g = gcd(magnitude(an), bd as nat) as int;
    let h = gcd(ad as nat, magnitude(bn)) as int;
    &&& reduced_fits(an * bn, ad * bd)
    &&& fits((an / g) * (bn / h))
    &&& fits((ad / h) * (bd / g))
}

/// Numerator and denominator of a fraction in lowest terms.
pub open spec fn lowest_terms(n: int, d: int) -> bool {
    d > 0 && gcd(magnitude(n), d as nat) == 1
}

/// The fraction `n/d` in lowest terms.
pub open spec fn reduced(n: int, d: int) -> Rat {
    let g = gcd(magnitude(n), d as nat) as int;
    Rat { num: (n / g) as i64, den: (d / g) as i64 }
}

/// The sum of two fractions, where no step of computing it overflows.
pub open spec fn rat_add(a: Rat, b: Rat) -> Option<Rat> {
    if sum_fits(a.num as int, a.den as int, b.num as int, b.den as int) {
        Some(reduced(a.num * b.den + b.num * a.den, a.den * b.den))
    } else {
        None
    }
}

/// The product of two fractions, where no step of computing it overflows.
pub open spec fn rat_mul(a: Rat, b: Rat) -> Option<Rat> {
    if product_fits(a.num as int, a.den as int, b.num as int, b.den as int) {
        Some(reduced(a.num * b.num, a.den * b.den))
    } else {
        None
    }
}

/// The opposite of a fraction, where it does not overflow.
pub open spec fn rat_neg(a: Rat) -> Option<Rat> {
    if a.num == i64::MIN {
        None
    } else {
        Some(Rat { num: (-a.num) as i64, den: a.den })
    }
}

/// The reciprocal of a fraction, where there is one that does not overflow.
pub open spec fn rat_recip(a: Rat) -> Option<Rat> {
    if a.num == 0 || a.num == i64::MIN {
        None
    } else if a.num > 0 {
        Some(Rat { num: a.den, den: a.num })
    } else {
        Some(Rat { num: (-a.den) as i64, den: (-a.num) as i64 })
    }
}

/// The quotient of two fractions, where no step of computing it overflows.
pub open spec fn rat_div(a: Rat, b: Rat) -> Option<Rat> {
    match rat_recip(b) {
        Some(r) => rat_mul(a, r),
        None => None,
    }
}

/// The difference of two fractions, where no step of computing it overflows.
pub open spec fn rat_sub(a: Rat, b: Rat) -> Option<Rat> {
    match rat_neg(b) {
        Some(n) => rat_add(a, n),
        None => None,
    }
}

/// `CheckedAdd::checked_add` of `num_traits` on `num_rational::Ratio<i64>`:
/// the exact sum in lowest terms, or nothing when a step of the computation
/// over the least common denominator overflows.
#[verifier::external_body]
fn ratio_checked_add(an: i64, ad: i64, bn: i64, bd: i64) -> (sum: Option<(i64, i64)>)
    requires
        ad > 0,
        bd > 0,
    ensures
        sum is Some <==> sum_fits(an as int, ad as int, bn as int, bd as int),
        sum matches Some((n, d)) ==> lowest_terms(n as int, d as int)
            && n * (ad * bd) == (an * bd + bn * ad) * d
            && (Rat { num: n, den: d }) == reduced(an * bd + bn * ad, ad * bd),
{
    let sum = Ratio::new_raw(an, ad).checked_add(&Ratio::new_raw(bn, bd))?;
    Some(sum.into_raw())
}

/// `CheckedMul::checked_mul` of `num_traits` on `num_rational::Ratio<i64>`:
/// the exact product in lowest terms, or nothing when a step of the
/// computation overflows after the common factors have been cancelled.
#[verifier::external_body]
fn ratio_checked_mul(an: i64, ad: i64, bn: i64, bd: i64) -> (product: Option<(i64, i64)>)
    requires
        ad > 0,
        bd > 0,
    ensures
        product is Some <==> product_fits(an as int, ad as int, bn as int, bd as int),
        product matches Some((n, d)) ==> lowest_terms(n as int, d as int)
            && n * (ad * bd) == (an * bn) * d
            && (Rat { num: n, den: d }) == reduced(an * bn, ad * bd),
{
    let product = Ratio::new_raw(an, ad).checked_mul(&Ratio::new_raw(bn, bd))?;
    Some(product.into_raw())
}

/// A rational number in lowest terms.
#[derive(Clone, Copy, PartialEq, Eq, Debug, Structural)]
pub struct Rat {
    pub num: i64,
    pub den: i64,
}

impl Rat {
    /// The denominator is positive and shares no factor with the numerator.
    pub open spec fn wf(self) -> bool {
        lowest_terms(self.num as int, self.den as int)
    }

    /// The number that the fraction stands for.
    pub open spec fn value(self) -> real {
        self.num as real / self.den as real
    }

    pub fn zero() -> (r: Rat)
        ensures
            r.wf(),
            r == (Rat { num: 0, den: 1 }),
            r.value() == 0real,
    {
        proof {
            lemma_gcd_one(0);
            lemma_whole(0);
        }
        Rat { num: 0, den: 1 }
    }

    pub fn one() -> (r: Rat)
        ensures
            r.wf(),
            r == (Rat { num: 1, den: 1 }),
            r.value() == 1real,
    {
        proof {
            lemma_gcd_one(1);
            lemma_whole(1);
        }
        Rat { num: 1, den: 1 }
    }

    pub fn from_integer(n: i64) -> (r: Rat)
        ensures
            r.wf(),
            r == (Rat { num: n, den: 1 }),
            r.value() == n as real,
    {
        proof {
            lemma_gcd_one(magnitude(n as int));
            lemma_whole(n as int);
        }
        Rat { num: n, den: 1 }
    }

    pub fn is_zero(self) -> (b: bool)
        requires
            self.wf(),
        ensures
            b == (self.value() == 0real),
            b == (self.num == 0),
    {
        proof {
            lemma_sign(self.num as int, self.den as int);
        }
        self.num == 0
    }

    pub fn is_integer(self) -> (b: bool)
        requires
            self.wf(),
        ensures
            b == (self.den == 1),
            b ==> self.value() == self.num as real,
    {
        proof {
            lemma_whole(self.num as int);
        }
        self.den == 1
    }

    /// The opposite number; nothing for the one numerator whose opposite
    /// overflows.
    pub fn checked_neg(self) -> (r: Option<Rat>)
        requires
            self.wf(),
        ensures
            r == rat_neg(self),
            r matches Some(n) ==> n.wf() && n.value() == -self.value(),
    {
        if self.num == i64::MIN {
            return None;
        }
        proof {
            lemma_rat_neg(self);
        }
        Some(Rat { num: -self.num, den: self.den })
    }

    pub fn checked_add(self, other: Rat) -> (r: Option<Rat>)
        requires
            self.wf(),
            other.wf(),
        ensures
            r == rat_add(self, other),
            r matches Some(s) ==> s.wf() && s.value() == self.value() + other.value(),
    {
        let (n, d) = ratio_checked_add(self.num, self.den, other.num, other.den)?;
        proof {
            lemma_sum_value(
                self.num as int,
                self.den as int,
                other.num as int,
                other.den as int,
                n as int,
                d as int,
            );
        }
        Some(Rat { num: n, den: d })
    }

    pub fn checked_mul(self, other: Rat) -> (r: Option<Rat>)
        requires
            self.wf(),
            other.wf(),
        ensures
            r == rat_mul(self, other),
            r matches Some(p) ==> p.wf() && p.value() == self.value() * other.value(),
    {
        let (n, d) = ratio_checked_mul(self.num, self.den, other.num, other.den)?;
        proof {
            lemma_product_value(
                self.num as int,
                self.den as int,
                other.num as int,
                other.den as int,
                n as int,
                d as int,
            );
        }
        Some(Rat { num: n, den: d })
    }

    /// One divided by the number; `None` for 0, and where it does not fit.
    pub fn checked_recip(self) -> (r: Option<Rat>)
        requires
            self.wf(),
        ensures
            r == rat_recip(self),
            r matches Some(q) ==> q.wf() && self.value() != 0real && q.value() * self.value() == 1real,
    {
        if self.num == 0 || self.num == i64::MIN {
            return None;
        }
        proof {
            lemma_gcd_swap(magnitude(self.num as int), self.den as nat);
        }
        let r = if self.num > 0 {
            Rat { num: self.den, den: self.num }
        } else {
            Rat { num: -self.den, den: -self.num }
        };
        proof {
            let (n, d) = (self.num as real, self.den as real);
            assert(n / d != 0real && (d / n) * (n / d) == 1real) by (nonlinear_arith)
                requires
                    n != 0real,
                    d > 0real,
            ;
            assert((-d) / (-n) == d / n) by (nonlinear_arith)
                requires
                    n != 0real,
            ;
        }
        Some(r)
    }

    pub fn checked_div(self, other: Rat) -> (r: Option<Rat>)
        requires
            self.wf(),
            other.wf(),
        ensures
            r == rat_div(self, other),
            r matches Some(q) ==> q.wf() && other.value() != 0real && q.value() * other.value()
                == self.value(),
    {
        let recip = other.checked_recip()?;
        let q = self.checked_mul(recip)?;
        proof {
            let (a, b, c) = (self.value(), recip.value(), other.value());
            assert((a * b) * c == a * (b * c)) by (nonlinear_arith);
            assert(a * 1real == a);
        }
        Some(q)
    }

    pub fn checked_sub(self, other: Rat) -> (r: Option<Rat>)
        requires
            self.wf(),
            other.wf(),
        ensures
            r == rat_sub(self, other),
            r matches Some(d) ==> d.wf() && d.value() == self.value() - other.value(),
    {
        let opposite = other.checked_neg()?;
        self.checked_add(opposite)
    }

    /// Order of the two numbers.
    pub fn lt(self, other: Rat) -> (b: bool)
        requires
            self.wf(),
            other.wf(),
        ensures
            b == (self.value() < other.value()),
    {
        let l: i128 = self.num as i128;
        let m: i128 = other.num as i128;
        let d: i128 = self.den as i128;
        let e: i128 = other.den as i128;
        proof {
            let p = l as int;
            let q = m as int;
            assert(-0x8000_0000_0000_0000_0000_0000_0000_0000 <= p * e
                <= 0x7fff_ffff_ffff_ffff_ffff_ffff_ffff_ffff) by (nonlinear_arith)
                requires
                    -0x8000_0000_0000_0000 <= p <= 0x7fff_ffff_ffff_ffff,
                    0 < e <= 0x7fff_ffff_ffff_ffff,
            ;
            assert(-0x8000_0000_0000_0000_0000_0000_0000_0000 <= q * d
                <= 0x7fff_ffff_ffff_ffff_ffff_ffff_ffff_ffff) by (nonlinear_arith)
                requires
                    -0x8000_0000_0000_0000 <= q <= 0x7fff_ffff_ffff_ffff,
                    0 < d <= 0x7fff_ffff_ffff_ffff,
            ;
            lemma_order(p, d as int, q, e as int);
        }
        l * e < m * d
    }
}

/// The greatest common divisor divides both numbers.
proof fn lemma_gcd_divides(a: nat, b: nat)
    requires
        a > 0 || b > 0,
    ensures
        gcd(a, b) > 0,
        a % gcd(a, b) == 0,
        b % gcd(a, b) == 0,
    decreases b,
{
    if b == 0 {
        assert(a % a == 0) by (nonlinear_arith)
            requires
                a > 0,
        ;
    } else {
        let r = a % b;
        lemma_gcd_divides(b, r);
        let g = gcd(b, r);
        let q = a / b;
        let bq = b / g;
        let rq = r / g;
        lemma_fundamental_div_mod(a as int, b as int);
        lemma_fundamental_div_mod(b as int, g as int);
        lemma_fundamental_div_mod(r as int, g as int);
        assert(a == g * (bq * q + rq)) by (nonlinear_arith)
            requires
                a == b * q + r,
                b == g * bq,
                r == g * rq,
        ;
        assert((g * (bq * q + rq)) % g == 0) by (nonlinear_arith)
            requires
                g > 0,
        ;
    }
}

/// A fraction in lowest terms has the value of the fraction it came from.
proof fn lemma_reduced(n: int, d: int)
    requires
        d > 0,
        reduced_fits(n, d),
    ensures
        reduced(n, d).den > 0,
        reduced(n, d).num * d == n * reduced(n, d).den,
{
    let g = gcd(magnitude(n), d as nat) as int;
    lemma_gcd_divides(magnitude(n), d as nat);
    let p = n / g;
    let q = d / g;
    lemma_fundamental_div_mod(d, g);
    lemma_fundamental_div_mod(magnitude(n) as int, g);
    assert(n == g * p) by {
        if n < 0 {
            let m = (-n) / g;
            assert(-n == g * m);
            assert((g * (-m)) / g == -m) by (nonlinear_arith)
                requires
                    g > 0,
            ;
            assert(g * (-m) == n) by (nonlinear_arith)
                requires
                    -n == g * m,
            ;
        }
    }
    assert(d == g * q);
    assert(q > 0) by (nonlinear_arith)
        requires
            d == g * q,
            d > 0,
            g > 0,
    ;
    assert(p * d == n * q) by (nonlinear_arith)
        requires
            n == g * p,
            d == g * q,
    ;
}

/// The value of a sum.
pub proof fn lemma_rat_add(a: Rat, b: Rat)
    requires
        a.den > 0,
        b.den > 0,
        rat_add(a, b) is Some,
    ensures
        rat_add(a, b)->0.den > 0,
        rat_add(a, b)->0.value() == a.value() + b.value(),
{
    let c = rat_add(a, b)->0;
    assert(a.den * b.den > 0) by (nonlinear_arith)
        requires
            a.den > 0,
            b.den > 0,
    ;
    lemma_reduced(a.num * b.den + b.num * a.den, a.den * b.den);
    lemma_sum_value(
        a.num as int,
        a.den as int,
        b.num as int,
        b.den as int,
        c.num as int,
        c.den as int,
    );
}

/// The value of a product.
pub proof fn lemma_rat_mul(a: Rat, b: Rat)
    requires
        a.den > 0,
        b.den > 0,
        rat_mul(a, b) is Some,
    ensures
        rat_mul(a, b)->0.den > 0,
        rat_mul(a, b)->0.value() == a.value() * b.value(),
{
    let c = rat_mul(a, b)->0;
    assert(a.den * b.den > 0) by (nonlinear_arith)
        requires
            a.den > 0,
            b.den > 0,
    ;
    lemma_reduced(a.num * b.num, a.den * b.den);
    lemma_product_value(
        a.num as int,
        a.den as int,
        b.num as int,
        b.den as int,
        c.num as int,
        c.den as int,
    );
}

/// The value of an opposite.
pub proof fn lemma_rat_neg(a: Rat)
    requires
        a.den > 0,
        rat_neg(a) is Some,
    ensures
        rat_neg(a)->0.den > 0,
        rat_neg(a)->0.value() == -a.value(),
{
    let (n, d) = (a.num as real, a.den as real);
    assert((-n) / d == -(n / d)) by (nonlinear_arith)
        requires
            d > 0real,
    ;
}

proof fn lemma_gcd_one(a: nat)
    ensures
        gcd(a, 1) == 1,
{
    reveal_with_fuel(gcd, 3);
}

proof fn lemma_one_gcd(b: nat)
    ensures
        gcd(1, b) == 1,
{
    reveal_with_fuel(gcd, 4);
    if b > 1 {
        vstd::arithmetic::div_mod::lemma_small_mod(1, b);
    }
}

/// Whole numbers are added as such.
pub proof fn lemma_whole_sum(a: i64, b: i64)
    requires
        fits(a + b),
    ensures
        rat_add(Rat { num: a, den: 1 }, Rat { num: b, den: 1 }) == Some(
            Rat { num: (a + b) as i64, den: 1 },
        ),
{
    lemma_gcd_one(1);
    lemma_gcd_one(magnitude(a + b));
    let (x, y) = (a as int, b as int);
    assert(x * 1 + y * 1 == x + y);
    assert(1int * 1int == 1int);
    assert((x + y) / 1 == x + y);
    assert((1int / 1int) * 1int == 1int);
    assert((1int / 1int) * x == x && (1int / 1int) * y == y);
    assert(reduced_fits(x * 1 + y * 1, 1int * 1int));
    assert(sum_fits(x, 1, y, 1));
}

/// Whole numbers are multiplied as such.
pub proof fn lemma_whole_product(a: i64, b: i64)
    requires
        fits(a * b),
    ensures
        rat_mul(Rat { num: a, den: 1 }, Rat { num: b, den: 1 }) == Some(
            Rat { num: (a * b) as i64, den: 1 },
        ),
{
    lemma_gcd_one(magnitude(a as int));
    lemma_one_gcd(magnitude(b as int));
    lemma_gcd_one(magnitude(a * b));
    let (x, y) = (a as int, b as int);
    assert((x * y) / 1 == x * y);
    assert(x / 1 == x && y / 1 == y);
    assert(1int * 1int == 1int);
    assert(reduced_fits(x * y, 1int * 1int));
    assert(fits((x / 1) * (y / 1)));
    assert((1int / 1int) * (1int / 1int) == 1int);
    assert(product_fits(x, 1, y, 1));
}

/// A whole number is divided by one that divides it.
pub proof fn lemma_whole_quotient(m: i64, k: i64)
    requires
        k != 0 && k != i64::MIN,
        fits(k * m),
    ensures
        rat_div(Rat { num: (k * m) as i64, den: 1 }, Rat { num: k, den: 1 }) == Some(
            Rat { num: m, den: 1 },
        ),
{
    let j: int = if k < 0 {
        -k
    } else {
        k as int
    };
    let g: int = if k < 0 {
        -1
    } else {
        1
    };
    let x: int = m as int;
    let n: int = k * m;
    assert(n == j * (g * x)) by (nonlinear_arith)
        requires
            n == (j * g) * x,
    ;
    assert(j * g == k);
    assert(n * g == j * x) by (nonlinear_arith)
        requires
            n == j * (g * x),
            g == 1 || g == -1,
    ;
    assert(n / j == g * x) by (nonlinear_arith)
        requires
            n == j * (g * x),
            j > 0,
    ;
    assert((j * x) / j == x) by (nonlinear_arith)
        requires
            j > 0,
    ;
    assert(magnitude(n) == j * magnitude(x)) by (nonlinear_arith)
        requires
            n == j * (g * x),
            j > 0,
            g == 1 || g == -1,
    ;
    assert(magnitude(j * x) == magnitude(n)) by (nonlinear_arith)
        requires
            n * g == j * x,
            g == 1 || g == -1,
    ;
    assert((j * magnitude(x)) % j == 0) by (nonlinear_arith)
        requires
            j > 0,
    ;
    reveal_with_fuel(gcd, 3);
    assert(gcd(magnitude(n), j as nat) == j);
    lemma_gcd_one(1);
    assert(j / j == 1) by (nonlinear_arith)
        requires
            j > 0,
    ;
    assert(1int * j == j && 1int / 1int == 1 && g / 1 == g);
    assert((g * x) * g == x) by (nonlinear_arith)
        requires
            g == 1 || g == -1,
    ;
    assert(magnitude(g) == 1);
    assert(product_fits(n, 1, g, j));
}

proof fn lemma_whole(n: int)
    ensures
        n as real / 1int as real == n as real,
{
    let x = n as real;
    assert(x / 1real == x) by (nonlinear_arith);
}

proof fn lemma_sign(n: int, d: int)
    requires
        d > 0,
    ensures
        n as real / d as real == 0real <==> n == 0,
        (n as real / d as real > 0real) <==> n > 0,
{
    let (x, y) = (n as real, d as real);
    assert((x / y == 0real <==> x == 0real) && (x / y > 0real <==> x > 0real)) by (nonlinear_arith)
        requires
            y > 0real,
    ;
}

proof fn lemma_order(n: int, d: int, m: int, e: int)
    requires
        d > 0,
        e > 0,
    ensures
        ((n as real / d as real) < (m as real / e as real)) <==> n * e < m * d,
{
    lemma_real_product(n, e);
    lemma_real_product(m, d);
    let (rn, rd, rm, re) = (n as real, d as real, m as real, e as real);
    assert((rn / rd < rm / re) <==> rn * re < rm * rd) by (nonlinear_arith)
        requires
            rd > 0real,
            re > 0real,
    ;
}

/// Products of integers are products of real numbers.
pub proof fn lemma_real_product(a: int, b: int)
    ensures
        (a * b) as real == (a as real) * (b as real),
{
    let p: int = a * b;
    let x: real = a as real;
    let y: real = b as real;
    assert(p as real == x * y) by (nonlinear_arith)
        requires
            p == a * b,
            x == a as real,
            y == b as real,
    ;
}

/// Fractions with equal cross products have equal values.
proof fn lemma_cross(n: int, d: int, m: int, e: int)
    requires
        d > 0,
        e > 0,
        n * e == m * d,
    ensures
        n as real / d as real == m as real / e as real,
{
    lemma_real_product(n, e);
    lemma_real_product(m, d);
    let (rn, rd, rm, re) = (n as real, d as real, m as real, e as real);
    assert(rn / rd == rm / re) by (nonlinear_arith)
        requires
            rn * re == rm * rd,
            rd > 0real,
            re > 0real,
    ;
}

proof fn lemma_sum_value(an: int, ad: int, bn: int, bd: int, n: int, d: int)
    requires
        ad > 0,
        bd > 0,
        d > 0,
        n * (ad * bd) == (an * bd + bn * ad) * d,
    ensures
        n as real / d as real == an as real / ad as real + bn as real / bd as real,
{
    assert(ad * bd > 0) by (nonlinear_arith)
        requires
            ad > 0,
            bd > 0,
    ;
    lemma_cross(n, d, an * bd + bn * ad, ad * bd);
    lemma_real_product(ad, bd);
    lemma_real_product(an, bd);
    lemma_real_product(bn, ad);
    let (ran, rad, rbn, rbd) = (an as real, ad as real, bn as real, bd as real);
    assert((ran * rbd + rbn * rad) / (rad * rbd) == ran / rad + rbn / rbd) by (nonlinear_arith)
        requires
            rad > 0real,
            rbd > 0real,
    ;
}

proof fn lemma_product_value(an: int, ad: int, bn: int, bd: int, n: int, d: int)
    requires
        ad > 0,
        bd > 0,
        d > 0,
        n * (ad * bd) == (an * bn) * d,
    ensures
        n as real / d as real == (an as real / ad as real) * (bn as real / bd as real),
{
    assert(ad * bd > 0) by (nonlinear_arith)
        requires
            ad > 0,
            bd > 0,
    ;
    lemma_cross(n, d, an * bn, ad * bd);
    lemma_real_product(ad, bd);
    lemma_real_product(an, bn);
    let (ran, rad, rbn, rbd) = (an as real, ad as real, bn as real, bd as real);
    assert((ran * rbn) / (rad * rbd) == (ran / rad) * (rbn / rbd)) by (nonlinear_arith)
        requires
            rad > 0real,
            rbd > 0real,
    ;
}

/// The number whose base-2^32 digits, least significant first, are `d`.
pub open spec fn digits_value(d: Seq<u32>) -> nat
    decreases d.len(),
{
    if d.len() == 0 {
        0
    } else {
        d[0] as nat + 0x1_0000_0000 * digits_value(d.drop_first())
    }
}

/// The base-2^32 digits of a number below 2^64, without leading zeros.
pub open spec fn word_digits(m: nat) -> Seq<u32> {
    if m == 0 {
        Seq::empty()
    } else if m < 0x1_0000_0000 {
        seq![m as u32]
    } else {
        seq![(m % 0x1_0000_0000) as u32, (m / 0x1_0000_0000) as u32]
    }
}

/// The integer with the given sign and digits.
pub open spec fn signed_value(negative: bool, digits: Seq<u32>) -> int {
    if negative {
        -(digits_value(digits) as int)
    } else {
        digits_value(digits) as int
    }
}

/// `BigInt::new` of `num_bigint`, then `ToPrimitive::to_i64`: the integer that
/// the digits spell, where it fits in 64 bits, and nothing where it does not.
#[verifier::external_body]
fn bigint_to_i64(negative: bool, digits: &Vec<u32>) -> (word: Option<i64>)
    ensures
        match word {
            Some(w) => w == signed_value(negative, digits@),
            None => !fits(signed_value(negative, digits@)),
        },
{
    let sign = if negative { Sign::Minus } else { Sign::Plus };
    BigInt::new(sign, digits.clone()).to_i64()
}

/// `BigInt::new` of `num_bigint`, then `ToPrimitive::to_u64`: the integer that
/// the digits spell, where it fits in 64 bits without a sign, and nothing where
/// it does not.
#[verifier::external_body]
fn bigint_to_u64(negative: bool, digits: &Vec<u32>) -> (word: Option<u64>)
    ensures
        match word {
            Some(w) => w == signed_value(negative, digits@),
            None => !(0 <= signed_value(negative, digits@) <= u64::MAX),
        },
{
    let sign = if negative { Sign::Minus } else { Sign::Plus };
    BigInt::new(sign, digits.clone()).to_u64()
}

/// `BigInt::from` of `num_bigint`, then `BigInt::to_u32_digits`: whether the
/// sign is minus, and the digits of the magnitude.
#[verifier::external_body]
fn bigint_from_i64(word: i64) -> (r: (bool, Vec<u32>))
    ensures
        r.0 == (word < 0),
        r.1@ == word_digits(magnitude(word as int)),
{
    let (sign, digits) = BigInt::from(word).to_u32_digits();
    (sign == Sign::Minus, digits)
}

/// The remainder of division towards zero: it has the sign of the dividend.
pub open spec fn trunc_rem(a: int, b: int) -> int {
    if a >= 0 {
        a % magnitude(b) as int
    } else {
        -((-a) % magnitude(b) as int)
    }
}

/// The quotient of division towards zero.
pub open spec fn trunc_quot(a: int, b: int) -> int {
    let q = magnitude(a) as int / magnitude(b) as int;
    if (a >= 0) == (b >= 0) {
        q
    } else {
        -q
    }
}

/// `Rem` of `num_bigint::BigInt`: the remainder of division towards zero.
#[verifier::external_body]
fn bigint_rem(a: &BigNum, b: &BigNum) -> (r: BigNum)
    requires
        b.value() != 0,
    ensures
        r.value() == trunc_rem(a.value(), b.value()),
{
    let x = BigInt::new(if a.negative { Sign::Minus } else { Sign::Plus }, a.digits.clone());
    let y = BigInt::new(if b.negative { Sign::Minus } else { Sign::Plus }, b.digits.clone());
    let (sign, digits) = (x % y).to_u32_digits();
    BigNum { negative: sign == Sign::Minus, digits }
}

/// `Div` of `num_bigint::BigInt`: the quotient of division towards zero.
#[verifier::external_body]
fn bigint_quot(a: &BigNum, b: &BigNum) -> (r: BigNum)
    requires
        b.value() != 0,
    ensures
        r.value() == trunc_quot(a.value(), b.value()),
{
    let x = BigInt::new(if a.negative { Sign::Minus } else { Sign::Plus }, a.digits.clone());
    let y = BigInt::new(if b.negative { Sign::Minus } else { Sign::Plus }, b.digits.clone());
    let (sign, digits) = (x / y).to_u32_digits();
    BigNum { negative: sign == Sign::Minus, digits }
}

/// `Add` of `num_bigint::BigInt`: the sum.
#[verifier::external_body]
fn bigint_sum(a: &BigNum, b: &BigNum) -> (r: BigNum)
    ensures
        r.value() == a.value() + b.value(),
{
    let x = BigInt::new(if a.negative { Sign::Minus } else { Sign::Plus }, a.digits.clone());
    let y = BigInt::new(if b.negative { Sign::Minus } else { Sign::Plus }, b.digits.clone());
    let (sign, digits) = (x + y).to_u32_digits();
    BigNum { negative: sign == Sign::Minus, digits }
}

/// `Shl<usize>` of `num_bigint::BigInt` on 1: the power of two.
#[verifier::external_body]
fn bigint_power_of_two(width: u32) -> (r: BigNum)
    ensures
        r.value() == pow2(width as nat),
{
    let (sign, digits) = (BigInt::from(1) << width as usize).to_u32_digits();
    BigNum { negative: sign == Sign::Minus, digits }
}

/// An integer of any size.
#[derive(Debug)]
pub struct BigNum {
    pub negative: bool,
    pub digits: Vec<u32>,
}

impl BigNum {
    pub open spec fn value(self) -> int {
        signed_value(self.negative, self.digits@)
    }

    pub fn from_i64(word: i64) -> (r: BigNum)
        ensures
            r.negative == (word < 0),
            r.digits@ == word_digits(magnitude(word as int)),
            r.value() == word,
    {
        let (negative, digits) = bigint_from_i64(word);
        proof {
            lemma_word_digits(magnitude(word as int));
        }
        BigNum { negative, digits }
    }

    /// The representative of the value modulo a power of two that is not
    /// negative.
    pub fn low_bits(&self, width: u32) -> (r: BigNum)
        ensures
            r.value() == self.value() % pow2(width as nat) as int,
    {
        let modulus = bigint_power_of_two(width);
        proof {
            lemma_pow2_pos(width as nat);
        }
        let rest = bigint_rem(self, &modulus);
        let ghost m = pow2(width as nat) as int;
        let ghost v = self.value();
        if rest.is_negative() {
            let r = bigint_sum(&rest, &modulus);
            proof {
                assert(((-v) % m) > 0);
                lemma_fundamental_div_mod(-v, m);
                let q = (-v) / m;
                let p = (-v) % m;
                assert(v == -q * m - p) by (nonlinear_arith)
                    requires
                        -v == m * q + p,
                ;
                assert(v == (-q - 1) * m + (m - p)) by (nonlinear_arith)
                    requires
                        v == -q * m - p,
                ;
                vstd::arithmetic::div_mod::lemma_fundamental_div_mod_converse(
                    v,
                    m,
                    -q - 1,
                    m - p,
                );
            }
            r
        } else {
            proof {
                if v < 0 {
                    lemma_fundamental_div_mod(-v, m);
                    let q = (-v) / m;
                    assert((-v) % m == 0);
                    assert(v == (-q) * m + 0) by (nonlinear_arith)
                        requires
                            -v == m * q + 0,
                    ;
                    vstd::arithmetic::div_mod::lemma_fundamental_div_mod_converse(v, m, -q, 0);
                }
            }
            rest
        }
    }

    pub fn is_negative(&self) -> (b: bool)
        ensures
            b == (self.value() < 0),
    {
        self.negative && self.has_digit()
    }

    fn has_digit(&self) -> (b: bool)
        ensures
            b == (digits_value(self.digits@) != 0),
    {
        let mut k: usize = 0;
        assert(self.digits@.skip(0) =~= self.digits@);
        while k < self.digits.len()
            invariant
                k <= self.digits.len(),
                digits_value(self.digits@) != 0 <==> digits_value(self.digits@.skip(k as int)) != 0,
            decreases self.digits.len() - k,
        {
            let ghost rest = self.digits@.skip(k as int);
            assert(rest.drop_first() =~= self.digits@.skip(k + 1));
            assert(rest[0] == self.digits@[k as int]);
            if self.digits[k] != 0 {
                return true;
            }
            k = k + 1;
        }
        false
    }

    /// The quotient of division towards zero.
    pub fn quotient(&self, other: &BigNum) -> (r: BigNum)
        requires
            other.value() != 0,
        ensures
            r.value() == trunc_quot(self.value(), other.value()),
    {
        bigint_quot(self, other)
    }

    /// The greatest integer that is at most the quotient.
    pub fn floor_quotient(&self, other: &BigNum) -> (r: BigNum)
        requires
            other.value() > 0,
        ensures
            r.value() == self.value() / other.value(),
    {
        let q = bigint_quot(self, other);
        let rest = bigint_rem(self, other);
        proof {
            lemma_floor_of_trunc(self.value(), other.value());
        }
        if rest.is_negative() {
            bigint_sum(&q, &BigNum::from_i64(-1))
        } else {
            q
        }
    }

    /// The value as a machine word, where it fits.
    pub fn to_i64(&self) -> (word: Option<i64>)
        ensures
            match word {
                Some(w) => w == self.value(),
                None => !fits(self.value()),
            },
    {
        bigint_to_i64(self.negative, &self.digits)
    }

    /// Whether the value fits in 64 bits without a sign.
    pub fn fits_u64(&self) -> (b: bool)
        ensures
            b == (0 <= self.value() <= u64::MAX),
    {
        bigint_to_u64(self.negative, &self.digits).is_some()
    }

    pub fn duplicate(&self) -> (r: BigNum)
        ensures
            r.negative == self.negative,
            r.digits@ == self.digits@,
    {
        BigNum { negative: self.negative, digits: crate::collections::copy_words(&self.digits) }
    }

    /// Same sign and same digits.
    pub fn same(&self, other: &BigNum) -> (b: bool)
        ensures
            b == (self.negative == other.negative && self.digits@ == other.digits@),
    {
        self.negative == other.negative && crate::collections::same_words(
            &self.digits,
            &other.digits,
        )
    }
}

/// The digits of a machine word spell it.
pub proof fn lemma_word_digits(m: nat)
    requires
        m < 0x1_0000_0000_0000_0000,
    ensures
        digits_value(word_digits(m)) == m,
{
    let d = word_digits(m);
    reveal_with_fuel(digits_value, 3);
    if m > 0 && m < 0x1_0000_0000 {
        assert(d.drop_first() =~= Seq::<u32>::empty());
    } else if m > 0 {
        assert(d.drop_first() =~= seq![(m / 0x1_0000_0000) as u32]);
        assert(d.drop_first().drop_first() =~= Seq::<u32>::empty());
        assert(m == m % 0x1_0000_0000 + 0x1_0000_0000 * (m / 0x1_0000_0000));
    }
}

/// The order of the two numbers does not matter.
proof fn lemma_gcd_swap(a: nat, b: nat)
    requires
        a > 0,
        b > 0,
    ensures
        gcd(a, b) == gcd(b, a),
{
    if a < b {
        assert(a % b == a) by (nonlinear_arith)
            requires
                0 <= a < b,
        ;
    } else if b < a {
        assert(b % a == b) by (nonlinear_arith)
            requires
                0 <= b < a,
        ;
    }
}

/// A number in binary.
pub open spec fn binary(n: nat) -> Seq<char>
    decreases n,
{
    if n < 2 {
        seq![digit_char(n)]
    } else {
        binary(n / 2).push(digit_char(n % 2))
    }
}

/// An integer in decimal, with its sign where it is negative.
pub open spec fn signed_decimal(v: int) -> Seq<char> {
    if v < 0 {
        "-"@ + decimal((-v) as nat)
    } else {
        decimal(v as nat)
    }
}

/// An integer in binary, with its sign where it is negative.
pub open spec fn signed_binary(v: int) -> Seq<char> {
    if v < 0 {
        "-"@ + binary((-v) as nat)
    } else {
        binary(v as nat)
    }
}

/// `BigInt::new` of `num_bigint`, then its `Display`: the integer that the digits
/// spell, in decimal without leading zeros, after `-` where it is negative.
#[verifier::external_body]
fn bigint_decimal(negative: bool, digits: &Vec<u32>) -> (text: String)
    ensures
        text@ == signed_decimal(signed_value(negative, digits@)),
{
    let sign = if negative { Sign::Minus } else { Sign::Plus };
    format!("{}", BigInt::new(sign, digits.clone()))
}

/// `BigInt::new` of `num_bigint`, then its `Binary`: the integer that the digits
/// spell, in binary without leading zeros, after `-` where it is negative.
#[verifier::external_body]
fn bigint_binary(negative: bool, digits: &Vec<u32>) -> (text: String)
    ensures
        text@ == signed_binary(signed_value(negative, digits@)),
{
    let sign = if negative { Sign::Minus } else { Sign::Plus };
    format!("{:b}", BigInt::new(sign, digits.clone()))
}

impl BigNum {
    /// The number in decimal.
    pub fn decimal_text(&self) -> (text: String)
        ensures
            text@ == signed_decimal(self.value()),
    {
        bigint_decimal(self.negative, &self.digits)
    }

    /// The number in binary.
    pub fn binary_text(&self) -> (text: String)
        ensures
            text@ == signed_binary(self.value()),
    {
        bigint_binary(self.negative, &self.digits)
    }
}

/// Division towards zero and division towards minus infinity differ where the
/// remainder is negative.
proof fn lemma_floor_of_trunc(a: int, b: int)
    requires
        b > 0,
    ensures
        a / b == trunc_quot(a, b) - (if trunc_rem(a, b) < 0 {
            1int
        } else {
            0int
        }),
{
    if a < 0 {
        let m = -a;
        let q = m / b;
        let r = m % b;
        lemma_fundamental_div_mod(m, b);
        assert(m == b * q + r && 0 <= r < b);
        if r == 0 {
            assert(a == b * (-q)) by (nonlinear_arith)
                requires
                    a == -(b * q),
            ;
            assert(a / b == -q) by (nonlinear_arith)
                requires
                    a == b * (-q),
                    b > 0,
            ;
        } else {
            assert(a == b * (-q - 1) + (b - r)) by (nonlinear_arith)
                requires
                    a == -(b * q + r),
            ;
            assert(a / b == -q - 1) by (nonlinear_arith)
                requires
                    a == b * (-q - 1) + (b - r),
                    0 < b - r < b,
            ;
        }
    }
}

} // verus!
