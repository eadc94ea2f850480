//! Exact rational coefficients.
//!
//! A `Rational` is always held in lowest terms with a positive denominator,
//! so two rationals are equal exactly when their fields are equal.  The
//! arithmetic itself is done by `num::rational::Ratio<i64>`.
use vstd::prelude::*;

use num::rational::Ratio;
use num::traits::{CheckedAdd, CheckedDiv, CheckedMul};

verus! {

/// Greatest common divisor (Euclid), with `gcd(a, 0) == a`.
pub open spec fn gcd(a: nat, b: nat) -> nat
    decreases b,
{
    if b == 0 {
        a
    } else {
        gcd(b, a % b)
    }
}

pub open spec fn abs(x: int) -> nat {
    if x < 0 {
        (-x) as nat
    } else {
        x as nat
    }
}

/// The lowest-terms form, with positive denominator, of the fraction `n / d`.
pub open spec fn reduced(n: int, d: int) -> (int, int) {
    let g = gcd(abs(n), abs(d)) as int;
    if d < 0 {
        (-(n / g), -(d / g))
    } else {
        (n / g, d / g)
    }
}

/// `(n, d)` is a fraction in lowest terms with positive denominator, both in `i64`.
pub open spec fn canonical(n: int, d: int) -> bool {
    &&& i64::MIN <= n <= i64::MAX
    &&& 0 < d <= i64::MAX
    &&& gcd(abs(n), d as nat) == 1
}

/// A rational number `numer / denom` in lowest terms.
#[derive(Clone, Copy, PartialEq, Eq, Structural, Hash, Debug)]
pub struct Rational {
    numer: i64,
    denom: i64,
}

impl Rational {
    #[verifier::type_invariant]
    spec fn is_canonical(self) -> bool {
        canonical(self.numer as int, self.denom as int)
    }

    /// The numerator of the lowest-terms form.
    pub closed spec fn num(self) -> int {
        self.numer as int
    }

    /// The (positive) denominator of the lowest-terms form.
    pub closed spec fn den(self) -> int {
        self.denom as int
    }

    /// The value as a (numerator, denominator) pair.
    pub open spec fn pair(self) -> (int, int) {
        (self.num(), self.den())
    }

    /// A rational is determined by its two components.
    pub proof fn lemma_eq_from_pair(a: Rational, b: Rational)
        requires
            a.pair() == b.pair(),
        ensures
            a == b,
    {
    }

    pub fn numer(&self) -> (r: i64)
        ensures
            r == self.num(),
            canonical(self.num(), self.den()),
    {
        proof {
            use_type_invariant(self);
        }
        self.numer
    }

    pub fn denom(&self) -> (r: i64)
        ensures
            r == self.den(),
            r > 0,
    {
        proof {
            use_type_invariant(self);
        }
        self.denom
    }

    /// The integer `n` as the rational `n / 1`.
    pub fn from_integer(n: i64) -> (r: Rational)
        ensures
            r.num() == n,
            r.den() == 1,
    {
        proof {
            reveal_with_fuel(gcd, 3);
            assert(gcd(abs(n as int), 1) == 1);
        }
        Rational { numer: n, denom: 1 }
    }

    pub fn zero() -> (r: Rational)
        ensures
            r.num() == 0,
            r.den() == 1,
    {
        Rational::from_integer(0)
    }

    pub fn one() -> (r: Rational)
        ensures
            r.num() == 1,
            r.den() == 1,
    {
        Rational::from_integer(1)
    }

    /// The negation `-self`.
    pub fn neg(&self) -> (r: Rational)
        requires
            self.num() > i64::MIN,
        ensures
            r.num() == -self.num(),
            r.den() == self.den(),
    {
        proof {
            use_type_invariant(self);
            assert(abs(-self.numer as int) == abs(self.numer as int));
        }
        Rational { numer: -self.numer, denom: self.denom }
    }

    /// Whether `self` is the integer one.
    pub fn is_one(&self) -> (r: bool)
        ensures
            r == (self.num() == 1 && self.den() == 1),
    {
        self.numer == 1 && self.denom == 1
    }

    /// Whether `self` is zero.
    pub fn is_zero(&self) -> (r: bool)
        ensures
            r == (self.num() == 0),
    {
        self.numer == 0
    }

    /// Structural (and, since both are in lowest terms, value) equality.
    pub fn equals(&self, other: &Rational) -> (r: bool)
        ensures
            r == (self.pair() == other.pair()),
            r == (*self == *other),
    {
        self.numer == other.numer && self.denom == other.denom
    }

    /// The reduced fraction `n / d`, computed by `num::rational::Ratio::new`.
    pub fn new(n: i64, d: i64) -> (r: Rational)
        requires
            d != 0,
            d < 0 ==> n > i64::MIN && d > i64::MIN,
        ensures
            r.pair() == reduced(n as int, d as int),
    {
        ratio_new(n, d)
    }
}

/// `num::rational::Ratio::new(n, d)`: the fraction `n / d` reduced to lowest
/// terms with a positive denominator. It panics on a zero denominator and
/// when the sign fix-up would negate `i64::MIN`; `requires` leaves both out.
#[verifier::external_body]
fn ratio_new(n: i64, d: i64) -> (r: Rational)
    requires
        d != 0,
        d < 0 ==> n > i64::MIN && d > i64::MIN,
    ensures
        r.pair() == reduced(n as int, d as int),
{
    let z = Ratio::new(n, d);
    Rational { numer: *z.numer(), denom: *z.denom() }
}

/// The sum condition under which `Ratio::checked_add` cannot overflow.
pub open spec fn fits_add(a: Rational, b: Rational) -> bool {
    &&& abs(a.num()) * b.den() + abs(b.num()) * a.den() <= i64::MAX
    &&& a.den() * b.den() <= i64::MAX
}

/// The product condition under which `Ratio::checked_mul` cannot overflow.
pub open spec fn fits_mul(a: Rational, b: Rational) -> bool {
    &&& abs(a.num()) * abs(b.num()) <= i64::MAX
    &&& a.den() * b.den() <= i64::MAX
}

/// The quotient condition under which `Ratio::checked_div` cannot overflow.
pub open spec fn fits_div(a: Rational, b: Rational) -> bool {
    &&& b.num() != 0
    &&& abs(a.num()) * b.den() <= i64::MAX
    &&& a.den() * abs(b.num()) <= i64::MAX
}

/// The value `a + b` in lowest terms.
pub open spec fn add_pair(a: Rational, b: Rational) -> (int, int) {
    reduced(a.num() * b.den() + b.num() * a.den(), a.den() * b.den())
}

/// The value `a * b` in lowest terms.
pub open spec fn mul_pair(a: Rational, b: Rational) -> (int, int) {
    reduced(a.num() * b.num(), a.den() * b.den())
}

/// The value `a / b` in lowest terms.
pub open spec fn div_pair(a: Rational, b: Rational) -> (int, int) {
    reduced(a.num() * b.den(), a.den() * b.num())
}

/// `Ratio::checked_add`: `Some` of the exact sum in lowest terms, or `None`
/// when an intermediate product overflows `i64`, which cannot happen under
/// `fits_add`.
#[verifier::external_body]
pub fn checked_add(a: &Rational, b: &Rational) -> (r: Option<Rational>)
    ensures
        r matches Some(x) ==> x.pair() == add_pair(*a, *b),
        fits_add(*a, *b) ==> r is Some,
{
    let x = Ratio::new_raw(a.numer, a.denom);
    let y = Ratio::new_raw(b.numer, b.denom);
    match x.checked_add(&y) {
        Some(z) => Some(Rational { numer: *z.numer(), denom: *z.denom() }),
        None => None,
    }
}

/// `Ratio::checked_mul`: `Some` of the exact product in lowest terms, or
/// `None` on an intermediate overflow, which cannot happen under `fits_mul`.
#[verifier::external_body]
pub fn checked_mul(a: &Rational, b: &Rational) -> (r: Option<Rational>)
    ensures
        r matches Some(x) ==> x.pair() == mul_pair(*a, *b),
        fits_mul(*a, *b) ==> r is Some,
{
    let x = Ratio::new_raw(a.numer, a.denom);
    let y = Ratio::new_raw(b.numer, b.denom);
    match x.checked_mul(&y) {
        Some(z) => Some(Rational { numer: *z.numer(), denom: *z.denom() }),
        None => None,
    }
}

/// `Ratio::checked_div`: `Some` of the exact quotient in lowest terms, or
/// `None` when the divisor is zero or an intermediate overflows, which cannot
/// happen under `fits_div`. A zero dividend over a divisor with numerator
/// `i64::MIN` is left out: there the crate takes `0.gcd(&i64::MIN)`, which
/// negates `i64::MIN` and panics in a debug build.
#[verifier::external_body]
pub fn checked_div(a: &Rational, b: &Rational) -> (r: Option<Rational>)
    requires
        !(a.num() == 0 && b.num() == i64::MIN as int),
    ensures
        r matches Some(x) ==> b.num() != 0 && x.pair() == div_pair(*a, *b),
        fits_div(*a, *b) ==> r is Some,
{
    let x = Ratio::new_raw(a.numer, a.denom);
    let y = Ratio::new_raw(b.numer, b.denom);
    match x.checked_div(&y) {
        Some(z) => Some(Rational { numer: *z.numer(), denom: *z.denom() }),
        None => None,
    }
}

proof fn lemma_i64_product_fits(x: int, y: int)
    requires
        i64::MIN <= x <= i64::MAX,
        i64::MIN <= y <= i64::MAX,
    ensures
        i128::MIN <= x * y <= i128::MAX,
{
    assert(-0x8000_0000_0000_0000 <= x <= 0x7fff_ffff_ffff_ffff);
    assert(x * y <= 0x4000_0000_0000_0000_0000_0000_0000_0000) by (nonlinear_arith)
        requires
            -0x8000_0000_0000_0000 <= x <= 0x7fff_ffff_ffff_ffff,
            -0x8000_0000_0000_0000 <= y <= 0x7fff_ffff_ffff_ffff,
    ;
    assert(x * y >= -0x4000_0000_0000_0000_0000_0000_0000_0000) by (nonlinear_arith)
        requires
            -0x8000_0000_0000_0000 <= x <= 0x7fff_ffff_ffff_ffff,
            -0x8000_0000_0000_0000 <= y <= 0x7fff_ffff_ffff_ffff,
    ;
}

/// `a < b` as rationals, by cross multiplication in `i128`.
pub fn rational_lt(a: &Rational, b: &Rational) -> (r: bool)
    ensures
        r == (a.num() * b.den() < b.num() * a.den()),
{
    let an = a.numer() as i128;
    let bd = b.denom() as i128;
    let bn = b.numer() as i128;
    let ad = a.denom() as i128;
    proof {
        lemma_i64_product_fits(an as int, bd as int);
        lemma_i64_product_fits(bn as int, ad as int);
    }
    let lhs = an * bd;
    let rhs = bn * ad;
    lhs < rhs
}

/// `gcd(a, b)` divides `a` and `b`, and is positive unless both are zero.
pub proof fn lemma_gcd_divides(a: nat, b: nat)
    ensures
        (a > 0 || b > 0) ==> gcd(a, b) > 0,
        gcd(a, b) > 0 ==> a % gcd(a, b) == 0 && b % gcd(a, b) == 0,
    decreases b,
{
    if b == 0 {
        if a > 0 {
            vstd::arithmetic::div_mod::lemma_mod_self_0(a as int);
        }
    } else {
        let r = a % b;
        lemma_gcd_divides(b, r);
        let g = gcd(b, r);
        assert(g == gcd(a, b));
        vstd::arithmetic::div_mod::lemma_fundamental_div_mod(a as int, b as int);
        vstd::arithmetic::div_mod::lemma_fundamental_div_mod(b as int, g as int);
        vstd::arithmetic::div_mod::lemma_fundamental_div_mod(r as int, g as int);
        let qb = b as int / g as int;
        let qr = r as int / g as int;
        let qa = a as int / b as int;
        assert(b as int == g * qb);
        assert(r as int == g * qr);
        assert(a as int == b * qa + r);
        let k = qb * qa + qr;
        assert(a as int == k * g) by (nonlinear_arith)
            requires
                b as int == g * qb,
                r as int == g * qr,
                a as int == b * qa + r,
                k == qb * qa + qr,
        ;
        vstd::arithmetic::div_mod::lemma_mod_multiples_basic(k, g as int);
    }
}

/// The lowest-terms form of `n / d` has the same value: cross products agree.
pub proof fn lemma_reduced_value(n: int, d: int)
    requires
        d != 0,
    ensures
        reduced(n, d).0 * d == n * reduced(n, d).1,
        reduced(n, d).1 != 0,
{
    let g = gcd(abs(n), abs(d));
    lemma_gcd_divides(abs(n), abs(d));
    assert(g > 0);
    let gi = g as int;
    vstd::arithmetic::div_mod::lemma_fundamental_div_mod(n, gi);
    vstd::arithmetic::div_mod::lemma_fundamental_div_mod(d, gi);
    assert(n % gi == 0) by {
        if n < 0 {
            vstd::arithmetic::div_mod::lemma_fundamental_div_mod(-n, gi);
            let q = (-n) / gi;
            assert(-n == gi * q);
            assert(n == (-q) * gi) by (nonlinear_arith)
                requires
                    -n == gi * q,
            ;
            vstd::arithmetic::div_mod::lemma_mod_multiples_basic(-q, gi);
        }
    }
    assert(d % gi == 0) by {
        if d < 0 {
            vstd::arithmetic::div_mod::lemma_fundamental_div_mod(-d, gi);
            let q = (-d) / gi;
            assert(-d == gi * q);
            assert(d == (-q) * gi) by (nonlinear_arith)
                requires
                    -d == gi * q,
            ;
            vstd::arithmetic::div_mod::lemma_mod_multiples_basic(-q, gi);
        }
    }
    let a = n / gi;
    let b = d / gi;
    assert(n == gi * a);
    assert(d == gi * b);
    assert(a * d == n * b) by (nonlinear_arith)
        requires
            n == gi * a,
            d == gi * b,
    ;
    assert(b != 0) by (nonlinear_arith)
        requires
            d == gi * b,
            d != 0,
    ;
    if d < 0 {
        assert((-a) * d == n * (-b)) by (nonlinear_arith)
            requires
                a * d == n * b,
        ;
    }
}

/// `x` is (as a value) the product `a * c`.
pub open spec fn is_product(x: Rational, a: Rational, c: Rational) -> bool {
    x.num() * a.den() * c.den() == a.num() * c.num() * x.den()
}

/// The product relation does not depend on the order of the factors.
pub proof fn lemma_is_product_comm(x: Rational, a: Rational, c: Rational)
    ensures
        is_product(x, a, c) == is_product(x, c, a),
{
    assert(x.num() * a.den() * c.den() == x.num() * c.den() * a.den()) by (nonlinear_arith);
    assert(a.num() * c.num() * x.den() == c.num() * a.num() * x.den()) by (nonlinear_arith);
}

/// A quotient times its divisor is the dividend.
pub proof fn lemma_div_pair_product(e: Rational, q: Rational, d: Rational)
    requires
        e.den() > 0,
        q.num() != 0,
        d.pair() == div_pair(e, q),
    ensures
        is_product(e, q, d),
{
    let n = e.num() * q.den();
    let m = e.den() * q.num();
    assert(m != 0) by (nonlinear_arith)
        requires
            e.den() > 0,
            q.num() != 0,
            m == e.den() * q.num(),
    ;
    lemma_reduced_value(n, m);
    assert(d.num() * m == n * d.den());
    assert(e.num() * q.den() * d.den() == q.num() * d.num() * e.den()) by (nonlinear_arith)
        requires
            d.num() * m == n * d.den(),
            n == e.num() * q.den(),
            m == e.den() * q.num(),
    ;
}

/// The quotient `a / b` in lowest terms, when it fits (as `checked_div`),
/// with the fact that it times `b` is `a`.
pub fn divide(a: &Rational, b: &Rational) -> (r: Option<Rational>)
    ensures
        r matches Some(x) ==> b.num() != 0 && x.pair() == div_pair(*a, *b) && is_product(*a, *b, x),
        fits_div(*a, *b) ==> r is Some,
{
    proof {
        use_type_invariant(a);
        use_type_invariant(b);
    }
    if a.numer() == 0 && b.numer() == i64::MIN {
        let z = Rational::zero();
        proof {
            let g = gcd(abs(a.num() * b.den()), abs(a.den() * b.num()));
            assert(a.den() == 1) by {
                assert(gcd(0, a.den() as nat) == a.den()) by {
                    assert(gcd(0, a.den() as nat) == gcd(a.den() as nat, 0));
                }
            }
            assert(a.num() * b.den() == 0);
            assert(a.den() * b.num() == i64::MIN as int);
            let m = abs(i64::MIN as int);
            assert(gcd(0, m) == gcd(m, 0));
            assert(g == m);
            assert(div_pair(*a, *b) == (0int, 1int));
            lemma_div_pair_product(*a, *b, z);
        }
        return Some(z);
    }
    let r = checked_div(a, b);
    proof {
        if let Some(x) = r {
            lemma_div_pair_product(*a, *b, x);
        }
    }
    r
}
/// The product `a * b` in lowest terms, when it fits (as `checked_mul`), with
/// the fact that it is (as a value) `a` times `b`.
pub fn multiply(a: &Rational, b: &Rational) -> (r: Option<Rational>)
    ensures
        r matches Some(x) ==> x.pair() == mul_pair(*a, *b) && is_product(x, *a, *b) && x.den() > 0,
        fits_mul(*a, *b) ==> r is Some,
{
    proof {
        use_type_invariant(a);
        use_type_invariant(b);
    }
    let r = checked_mul(a, b);
    match &r {
        Some(x) => {
            proof {
                use_type_invariant(x);
                let n = a.num() * b.num();
                let d = a.den() * b.den();
                assert(d > 0) by (nonlinear_arith)
                    requires
                        a.den() > 0,
                        b.den() > 0,
                        d == a.den() * b.den(),
                ;
                lemma_reduced_value(n, d);
                assert(x.num() * a.den() * b.den() == a.num() * b.num() * x.den()) by (nonlinear_arith)
                    requires
                        x.num() * d == n * x.den(),
                        n == a.num() * b.num(),
                        d == a.den() * b.den(),
                ;
            }
        },
        None => {},
    }
    r
}

/// Cross products compose: from `x = l * a` and `y = x * b` (as values,
/// with `x`'s denominator non-zero), `y = l * a * b`.
pub proof fn lemma_cross_chain(yn: int, yd: int, xn: int, xd: int, ln: int, ld: int, an: int, ad: int, bn: int, bd: int)
    requires
        xn * ld * ad == ln * an * xd,
        yn * xd * bd == xn * bn * yd,
        xd != 0,
    ensures
        yn * ld * ad * bd == ln * an * bn * yd,
{
    let lhs = yn * ld * ad * bd;
    let rhs = ln * an * bn * yd;
    assert(lhs * xd == (yn * xd * bd) * (ld * ad)) by (nonlinear_arith)
        requires
            lhs == yn * ld * ad * bd,
    ;
    assert((yn * xd * bd) * (ld * ad) == (xn * bn * yd) * (ld * ad));
    assert((xn * bn * yd) * (ld * ad) == (xn * ld * ad) * (bn * yd)) by (nonlinear_arith);
    assert((xn * ld * ad) * (bn * yd) == (ln * an * xd) * (bn * yd));
    assert((ln * an * xd) * (bn * yd) == rhs * xd) by (nonlinear_arith)
        requires
            rhs == ln * an * bn * yd,
    ;
    assert(xd * lhs == xd * rhs) by (nonlinear_arith)
        requires
            lhs * xd == rhs * xd,
    ;
    vstd::arithmetic::mul::lemma_mul_equality_converse(xd, lhs, rhs);
}
} // verus!