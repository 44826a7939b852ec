//! Exact rational exponents.
//!
//! A [`Rational`] is a fraction of two 128-bit integers in lowest terms. Its
//! view is the real number it denotes; contracts speak of that number. The
//! arithmetic itself is done by `num_rational`, whose results are taken on
//! trust. Every operation that could leave the 128-bit range asks for a bound
//! on the [`cost`](Rational::cost) of its operands, a count of bits.

use num_rational::Ratio;
use vstd::arithmetic::power2::{lemma2_to64, lemma_pow2_adds, lemma_pow2_strictly_increases, pow2};
use vstd::prelude::*;

verus! {

/// The number of binary digits of `n`; zero for `n <= 0`.
pub open spec fn bit_length(n: int) -> nat
    decreases n,
{
    if n <= 0 {
        0
    } else {
        1 + bit_length(n / 2)
    }
}

/// The largest total cost of operands for which an operation stays in range.
pub const COST_LIMIT: usize = 127;

/// A number is below two to the power of its bit length.
pub proof fn lemma_bit_length_bounds(n: int)
    requires
        0 <= n,
    ensures
        n < pow2(bit_length(n)),
    decreases n,
{
    if n == 0 {
        lemma2_to64();
    } else {
        lemma_bit_length_bounds(n / 2);
        vstd::arithmetic::power2::lemma_pow2_unfold(bit_length(n));
    }
}

/// A number below `2^k` has at most `k` binary digits.
pub proof fn lemma_bit_length_fits(n: int, k: nat)
    requires
        n < pow2(k),
    ensures
        bit_length(n) <= k,
    decreases k,
{
    if n > 0 {
        if k == 0 {
            lemma2_to64();
        } else {
            vstd::arithmetic::power2::lemma_pow2_unfold(k);
            lemma_bit_length_fits(n / 2, (k - 1) as nat);
        }
    }
}

/// Bit lengths grow with the number.
pub proof fn lemma_bit_length_monotonic(m: int, n: int)
    requires
        m <= n,
    ensures
        bit_length(m) <= bit_length(n),
{
    if n >= 0 {
        lemma_bit_length_bounds(n);
        lemma_bit_length_fits(m, bit_length(n));
    }
}

/// The product of two numbers has at most as many digits as both together.
pub proof fn lemma_bit_length_product(m: int, n: int)
    requires
        0 <= m,
        0 <= n,
    ensures
        m * n < pow2(bit_length(m) + bit_length(n)),
        bit_length(m * n) <= bit_length(m) + bit_length(n),
{
    lemma_bit_length_bounds(m);
    lemma_bit_length_bounds(n);
    lemma_pow2_adds(bit_length(m), bit_length(n));
    let pm = pow2(bit_length(m)) as int;
    let pn = pow2(bit_length(n)) as int;
    assert(m * n < pm * pn) by (nonlinear_arith)
        requires
            0 <= m < pm,
            0 <= n < pn,
    ;
    lemma_bit_length_fits(m * n, bit_length(m) + bit_length(n));
}

/// Whatever has at most 127 binary digits is a positive `i128`.
pub proof fn lemma_cost_limit(n: int, k: nat)
    requires
        n < pow2(k),
        k <= COST_LIMIT,
    ensures
        n <= i128::MAX,
{
    lemma2_to64();
    vstd::arithmetic::power2::lemma2_to64_rest();
    lemma_pow2_adds(64, 63);
    assert(pow2(127) == 0x1_0000_0000_0000_0000int * 0x8000_0000_0000_0000int);
    if k < 127 {
        lemma_pow2_strictly_increases(k, 127);
    }
}

/// The greatest common divisor, by Euclid's algorithm.
pub open spec fn gcd(a: nat, b: nat) -> nat
    decreases b,
{
    if b == 0 {
        a
    } else {
        gcd(b, a % b)
    }
}

/// The absolute value of an integer.
pub open spec fn abs(n: int) -> nat {
    if n < 0 {
        (-n) as nat
    } else {
        n as nat
    }
}

/// The real number `n / d`.
pub open spec fn quotient(n: int, d: int) -> real {
    (n as real) / (d as real)
}

/// A fraction in lowest terms with a positive denominator.
#[derive(Debug, Clone, Copy, PartialEq, Eq)]
pub struct Rational {
    numer: i128,
    denom: i128,
}

/// The exponent of a factor in a product.
pub type Exponent = Rational;

impl View for Rational {
    type V = real;

    open spec fn view(&self) -> real {
        quotient(self.spec_numer(), self.spec_denom())
    }
}

impl Rational {
    /// The numerator.
    pub closed spec fn spec_numer(&self) -> int {
        self.numer as int
    }

    /// The denominator.
    pub closed spec fn spec_denom(&self) -> int {
        self.denom as int
    }

    /// Lowest terms, positive denominator, and a numerator that can be negated.
    pub open spec fn wf(&self) -> bool {
        &&& self.spec_denom() > 0
        &&& i128::MIN < self.spec_numer() <= i128::MAX
        &&& self.spec_denom() <= i128::MAX
        &&& gcd(abs(self.spec_numer()), abs(self.spec_denom())) == 1
    }

    /// The size of the fraction: the numerator's magnitude plus the denominator.
    pub open spec fn height(&self) -> int {
        abs(self.spec_numer()) + self.spec_denom()
    }

    /// The number of binary digits of the height.
    pub open spec fn cost(&self) -> nat {
        bit_length(self.height())
    }

    /// The numerator.
    pub fn numer(&self) -> (n: i128)
        ensures
            n == self.spec_numer(),
    {
        self.numer
    }

    /// The denominator.
    pub fn denom(&self) -> (d: i128)
        ensures
            d == self.spec_denom(),
    {
        self.denom
    }

    /// The fraction `numer / denom`, reduced.
    pub fn new(numer: i128, denom: i128) -> (r: Self)
        requires
            denom != 0,
            numer > i128::MIN,
            denom > i128::MIN,
        ensures
            r.wf(),
            r@ == quotient(numer as int, denom as int),
            r.height() <= abs(numer as int) + abs(denom as int),
    {
        ratio_new(numer, denom)
    }

    /// The integer `n` as a fraction.
    pub fn from_integer(n: i128) -> (r: Self)
        requires
            n > i128::MIN,
        ensures
            r.wf(),
            r@ == n as real,
            r.spec_numer() == n,
            r.spec_denom() == 1,
    {
        let r = Rational { numer: n, denom: 1 };
        proof {
            lemma_quotient_by_one(n as int);
            assert(gcd(abs(n as int), 1) == 1) by {
                reveal_with_fuel(gcd, 3);
            }
        }
        r
    }

    /// Zero.
    pub fn zero() -> (r: Self)
        ensures
            r.wf(),
            r@ == 0real,
            r.cost() == 1,
    {
        let r = Self::from_integer(0);
        proof {
            reveal_with_fuel(bit_length, 3);
        }
        r
    }

    /// Whether the fraction is zero.
    pub fn is_zero(&self) -> (z: bool)
        requires
            self.wf(),
        ensures
            z == (self@ == 0real),
    {
        proof {
            lemma_quotient_sign(self.numer as int, self.denom as int);
        }
        self.numer == 0
    }

    /// Whether the fraction is above zero.
    pub fn is_positive(&self) -> (p: bool)
        requires
            self.wf(),
        ensures
            p == (self@ > 0real),
    {
        proof {
            lemma_quotient_sign(self.numer as int, self.denom as int);
        }
        self.numer > 0
    }

    /// Whether the fraction is below zero.
    pub fn is_negative(&self) -> (n: bool)
        requires
            self.wf(),
        ensures
            n == (self@ < 0real),
    {
        proof {
            lemma_quotient_sign(self.numer as int, self.denom as int);
        }
        self.numer < 0
    }

    /// Whether the fraction is a whole number.
    pub fn is_integer(&self) -> (i: bool)
        ensures
            i == (self.spec_denom() == 1),
    {
        self.denom == 1
    }

    /// The fraction with its sign turned.
    pub fn neg(&self) -> (r: Self)
        requires
            self.wf(),
        ensures
            r.wf(),
            r@ == -self@,
            r.height() == self.height(),
            r.spec_denom() == self.spec_denom(),
            r.spec_numer() == -self.spec_numer(),
    {
        proof {
            lemma_quotient_negated(self.numer as int, self.denom as int);
        }
        Rational { numer: -self.numer, denom: self.denom }
    }

    /// The sum of two fractions.
    pub fn add(&self, other: &Self) -> (r: Self)
        requires
            self.wf(),
            other.wf(),
            self.cost() + other.cost() <= COST_LIMIT,
        ensures
            r.wf(),
            r@ == self@ + other@,
            r.cost() <= self.cost() + other.cost(),
    {
        proof {
            lemma_heights_fit(*self, *other);
        }
        let r = ratio_add(self, other);
        proof {
            lemma_bit_length_product(self.height(), other.height());
            lemma_bit_length_monotonic(r.height(), self.height() * other.height());
        }
        r
    }

    /// The product of two fractions.
    pub fn mul(&self, other: &Self) -> (r: Self)
        requires
            self.wf(),
            other.wf(),
            self.cost() + other.cost() <= COST_LIMIT,
        ensures
            r.wf(),
            r@ == self@ * other@,
            r.cost() <= self.cost() + other.cost(),
    {
        proof {
            lemma_heights_fit(*self, *other);
        }
        let r = ratio_mul(self, other);
        proof {
            lemma_bit_length_product(self.height(), other.height());
            lemma_bit_length_monotonic(r.height(), self.height() * other.height());
        }
        r
    }

    /// The quotient of two fractions.
    pub fn div(&self, other: &Self) -> (r: Self)
        requires
            self.wf(),
            other.wf(),
            other@ != 0real,
            self.cost() + other.cost() <= COST_LIMIT,
        ensures
            r.wf(),
            r@ == self@ / other@,
            r.cost() <= self.cost() + other.cost(),
    {
        proof {
            lemma_heights_fit(*self, *other);
            lemma_quotient_sign(other.numer as int, other.denom as int);
        }
        let r = ratio_div(self, other);
        proof {
            lemma_bit_length_product(self.height(), other.height());
            lemma_bit_length_monotonic(r.height(), self.height() * other.height());
        }
        r
    }

    /// Whether `self` denotes a smaller number than `other`.
    pub fn lt(&self, other: &Self) -> (r: bool)
        requires
            self.wf(),
            other.wf(),
        ensures
            r == (self@ < other@),
    {
        ratio_lt(self, other)
    }

    /// Whether both denote the same number.
    pub fn same(&self, other: &Self) -> (r: bool)
        requires
            self.wf(),
            other.wf(),
        ensures
            r == (self@ == other@),
    {
        ratio_eq(self, other)
    }

    /// The smaller of two fractions; the first if they are equal.
    pub fn min(self, other: Self) -> (r: Self)
        requires
            self.wf(),
            other.wf(),
        ensures
            r == if other@ < self@ { other } else { self },
    {
        if other.lt(&self) {
            other
        } else {
            self
        }
    }

    /// The larger of two fractions; the second if they are equal.
    pub fn max(self, other: Self) -> (r: Self)
        requires
            self.wf(),
            other.wf(),
        ensures
            r == if other@ < self@ { self } else { other },
    {
        if other.lt(&self) {
            self
        } else {
            other
        }
    }
}

/// Heights of operands within the cost limit multiply without overflow.
pub proof fn lemma_heights_fit(a: Rational, b: Rational)
    requires
        a.wf(),
        b.wf(),
        a.cost() + b.cost() <= COST_LIMIT,
    ensures
        a.height() * b.height() <= i128::MAX,
{
    lemma_bit_length_product(a.height(), b.height());
    lemma_cost_limit(a.height() * b.height(), a.cost() + b.cost());
}

/// `n / 1` is `n`.
pub proof fn lemma_quotient_by_one(n: int)
    ensures
        quotient(n, 1) == n as real,
{
    assert(quotient(n, 1) == n as real) by (nonlinear_arith);
}

/// With a positive denominator the sign of a quotient is that of its numerator.
pub proof fn lemma_quotient_sign(n: int, d: int)
    requires
        d > 0,
    ensures
        quotient(n, d) == 0real <==> n == 0,
        quotient(n, d) < 0real <==> n < 0,
        quotient(n, d) > 0real <==> n > 0,
{
    assert((quotient(n, d) == 0real <==> n == 0) && (quotient(n, d) < 0real <==> n < 0) && (
    quotient(n, d) > 0real <==> n > 0)) by (nonlinear_arith)
        requires
            d > 0,
    ;
}

/// Negating the numerator negates the quotient.
pub proof fn lemma_quotient_negated(n: int, d: int)
    requires
        d > 0,
    ensures
        quotient(-n, d) == -quotient(n, d),
{
    assert(quotient(-n, d) == -quotient(n, d)) by (nonlinear_arith)
        requires
            d > 0,
    ;
}

/// Integers `x` and `y` with `x a + y b = gcd(a, b)`.
pub proof fn lemma_bezout(a: nat, b: nat) -> (c: (int, int))
    ensures
        c.0 * a + c.1 * b == gcd(a, b),
    decreases b,
{
    if b == 0 {
        (1, 0)
    } else {
        let (x, y) = lemma_bezout(b, a % b);
        let q = (a / b) as int;
        let r = (a % b) as int;
        vstd::arithmetic::div_mod::lemma_fundamental_div_mod(a as int, b as int);
        assert(y * a + (x - q * y) * b == x * b + y * r) by (nonlinear_arith)
            requires
                a == b * q + r,
        ;
        (y, x - q * y)
    }
}

/// Of two equal fractions in lowest terms the first has no larger a denominator.
proof fn lemma_lowest_denominator(n1: int, d1: int, n2: int, d2: int)
    requires
        d1 > 0,
        d2 > 0,
        gcd(abs(n1), abs(d1)) == 1,
        n1 * d2 == n2 * d1,
    ensures
        d1 <= d2,
{
    let (x, y) = lemma_bezout(abs(n1), abs(d1));
    let a1 = abs(n1) as int;
    let a2 = abs(n2) as int;
    assert(a1 * d2 == a2 * d1) by (nonlinear_arith)
        requires
            n1 * d2 == n2 * d1,
            d1 > 0,
            d2 > 0,
            a1 == if n1 < 0 {
                -n1
            } else {
                n1
            },
            a2 == if n2 < 0 {
                -n2
            } else {
                n2
            },
    ;
    let k = x * a2 + y * d2;
    assert(d2 == d1 * k) by (nonlinear_arith)
        requires
            x * a1 + y * d1 == 1,
            a1 * d2 == a2 * d1,
            k == x * a2 + y * d2,
    ;
    assert(d1 <= d2) by (nonlinear_arith)
        requires
            d2 == d1 * k,
            d1 > 0,
            d2 > 0,
    ;
}

/// Two fractions in lowest terms that denote the same number are the same.
pub proof fn lemma_lowest_terms_unique(n1: int, d1: int, n2: int, d2: int)
    requires
        d1 > 0,
        d2 > 0,
        gcd(abs(n1), abs(d1)) == 1,
        gcd(abs(n2), abs(d2)) == 1,
        quotient(n1, d1) == quotient(n2, d2),
    ensures
        n1 == n2,
        d1 == d2,
{
    assert(n1 * d2 == n2 * d1) by (nonlinear_arith)
        requires
            d1 > 0,
            d2 > 0,
            quotient(n1, d1) == quotient(n2, d2),
    ;
    lemma_lowest_denominator(n1, d1, n2, d2);
    lemma_lowest_denominator(n2, d2, n1, d1);
    assert(n1 == n2) by (nonlinear_arith)
        requires
            n1 * d2 == n2 * d1,
            d1 == d2,
            d1 > 0,
    ;
}

/// Whether `p` is the fraction in lowest terms that denotes `x`.
pub open spec fn is_lowest_terms(x: real, p: (int, int)) -> bool {
    p.1 > 0 && gcd(abs(p.0), abs(p.1)) == 1 && x == quotient(p.0, p.1)
}

/// The fraction in lowest terms that denotes `x`, where `x` is rational.
pub open spec fn lowest_terms(x: real) -> (int, int) {
    choose|p: (int, int)| is_lowest_terms(x, p)
}

/// The numerator of a rational number in lowest terms.
pub open spec fn numerator(x: real) -> int {
    lowest_terms(x).0
}

/// The denominator of a rational number in lowest terms.
pub open spec fn denominator(x: real) -> int {
    lowest_terms(x).1
}

/// A well-formed fraction is the lowest terms of the number it denotes.
pub proof fn lemma_lowest_terms(r: Rational)
    requires
        r.wf(),
    ensures
        numerator(r@) == r.spec_numer(),
        denominator(r@) == r.spec_denom(),
{
    let p = (r.spec_numer(), r.spec_denom());
    assert(is_lowest_terms(r@, p));
    let q = lowest_terms(r@);
    lemma_lowest_terms_unique(p.0, p.1, q.0, q.1);
}

/// The cost of the fraction in lowest terms that denotes `x`.
pub open spec fn cost_of(x: real) -> nat {
    bit_length(abs(numerator(x)) + denominator(x))
}

/// The cost of a well-formed fraction is the cost of the number it denotes.
pub proof fn lemma_cost_of(r: Rational)
    requires
        r.wf(),
    ensures
        r.cost() == cost_of(r@),
{
    lemma_lowest_terms(r);
}

/// Well-formed fractions that denote the same number are the same.
pub proof fn lemma_same_number(a: Rational, b: Rational)
    requires
        a.wf(),
        b.wf(),
        a@ == b@,
    ensures
        a == b,
{
    lemma_lowest_terms(a);
    lemma_lowest_terms(b);
}

/// Calls `Integer::gcd`, which gives the greatest common divisor of the two
/// magnitudes, never a negative number.
#[verifier::external_body]
pub(crate) fn integer_gcd(a: i128, b: i128) -> (g: i128)
    requires
        a > i128::MIN,
        b > i128::MIN,
    ensures
        g == gcd(abs(a as int), abs(b as int)),
{
    num_integer::Integer::gcd(&a, &b)
}

/// Calls `Ratio::new`, which reduces `numer / denom` to lowest terms with a
/// positive denominator. Both parts of the result are the given ones divided
/// by their common divisor, so neither grows in magnitude.
#[verifier::external_body]
fn ratio_new(numer: i128, denom: i128) -> (r: Rational)
    requires
        denom != 0,
        numer > i128::MIN,
        denom > i128::MIN,
    ensures
        r.wf(),
        r@ == quotient(numer as int, denom as int),
        r.height() <= abs(numer as int) + abs(denom as int),
{
    let ratio = Ratio::new(numer, denom);
    Rational { numer: *ratio.numer(), denom: *ratio.denom() }
}

/// Calls `Ratio`'s `+`, which brings both operands over the least common
/// multiple of the denominators, adds and reduces. No intermediate value
/// exceeds the product of the operands' heights, nor does the result's height.
#[verifier::external_body]
fn ratio_add(a: &Rational, b: &Rational) -> (r: Rational)
    requires
        a.wf(),
        b.wf(),
        a.height() * b.height() <= i128::MAX,
    ensures
        r.wf(),
        r@ == a@ + b@,
        r.height() <= a.height() * b.height(),
{
    let sum = Ratio::new_raw(a.numer, a.denom) + Ratio::new_raw(b.numer, b.denom);
    Rational { numer: *sum.numer(), denom: *sum.denom() }
}

/// Calls `Ratio`'s `*`, which cancels common divisors crosswise, multiplies
/// numerators and denominators and reduces. No intermediate value exceeds the
/// product of the operands' heights, nor does the result's height.
#[verifier::external_body]
fn ratio_mul(a: &Rational, b: &Rational) -> (r: Rational)
    requires
        a.wf(),
        b.wf(),
        a.height() * b.height() <= i128::MAX,
    ensures
        r.wf(),
        r@ == a@ * b@,
        r.height() <= a.height() * b.height(),
{
    let product = Ratio::new_raw(a.numer, a.denom) * Ratio::new_raw(b.numer, b.denom);
    Rational { numer: *product.numer(), denom: *product.denom() }
}

/// Calls `Ratio`'s `/`, which cancels common divisors, multiplies each
/// numerator with the other denominator and reduces; it panics on a zero
/// divisor. No intermediate value exceeds the product of the operands'
/// heights, nor does the result's height.
#[verifier::external_body]
fn ratio_div(a: &Rational, b: &Rational) -> (r: Rational)
    requires
        a.wf(),
        b.wf(),
        b.spec_numer() != 0,
        a.height() * b.height() <= i128::MAX,
    ensures
        r.wf(),
        r@ == a@ / b@,
        r.height() <= a.height() * b.height(),
{
    let quotient = Ratio::new_raw(a.numer, a.denom) / Ratio::new_raw(b.numer, b.denom);
    Rational { numer: *quotient.numer(), denom: *quotient.denom() }
}

/// Calls `Ratio`'s `<`, which orders fractions by the numbers they denote.
#[verifier::external_body]
fn ratio_lt(a: &Rational, b: &Rational) -> (r: bool)
    requires
        a.wf(),
        b.wf(),
    ensures
        r == (a@ < b@),
{
    Ratio::new_raw(a.numer, a.denom) < Ratio::new_raw(b.numer, b.denom)
}

/// Calls `Ratio`'s `==`, which holds of fractions that denote the same number.
#[verifier::external_body]
fn ratio_eq(a: &Rational, b: &Rational) -> (r: bool)
    requires
        a.wf(),
        b.wf(),
    ensures
        r == (a@ == b@),
{
    Ratio::new_raw(a.numer, a.denom) == Ratio::new_raw(b.numer, b.denom)
}

} // verus!
