//! Scalars in exact, unevaluated form.
//!
//! The library computes units exactly and leaves the arithmetic on magnitudes
//! to its caller: a [`Number`] records which value is meant, as a term over
//! given double-precision values, prefix scales and exponents. Evaluating the
//! term in double precision, innermost first, gives the magnitude.

use crate::arithmetic::Rational;
use crate::prefix::Prefix;
use vstd::prelude::*;

verus! {

/// A binary operation on scalars.
#[derive(Debug, Clone, Copy, PartialEq, Eq, Structural)]
pub enum Operation {
    Add,
    Sub,
    Mul,
    Div,
    /// The first operand raised to the power of the second.
    Pow,
}

/// A scalar term.
#[derive(Debug)]
pub enum Number {
    /// A double-precision value, by its IEEE 754 bit pattern.
    Literal(u64),
    /// The scale of a prefix: `10^n` or `2^(10 n)`.
    PrefixFactor(Prefix),
    /// An exponent taken as a scalar.
    Fraction(Rational),
    Negated(Box<Number>),
    Combined(Operation, Box<Number>, Box<Number>),
}

/// What a [`Number`] denotes, with exponents as real numbers.
pub enum NumberView {
    Literal(u64),
    PrefixFactor(Prefix),
    Fraction(real),
    Negated(Box<NumberView>),
    Combined(Operation, Box<NumberView>, Box<NumberView>),
}

/// The bit pattern of the double-precision value one.
pub const ONE_BITS: u64 = 0x3FF0_0000_0000_0000;

/// The bit pattern of negative zero; positive zero is all zeros.
pub const NEGATIVE_ZERO_BITS: u64 = 0x8000_0000_0000_0000;

/// The view of a term: the same term over the views of its exponents.
pub open spec fn number_view(n: Number) -> NumberView
    decreases n,
{
    match n {
        Number::Literal(bits) => NumberView::Literal(bits),
        Number::PrefixFactor(prefix) => NumberView::PrefixFactor(prefix),
        Number::Fraction(exponent) => NumberView::Fraction(exponent@),
        Number::Negated(inner) => NumberView::Negated(Box::new(number_view(*inner))),
        Number::Combined(op, left, right) => NumberView::Combined(
            op,
            Box::new(number_view(*left)),
            Box::new(number_view(*right)),
        ),
    }
}

/// Whether every exponent in the term is well formed.
pub open spec fn number_wf(n: Number) -> bool
    decreases n,
{
    match n {
        Number::Literal(_) => true,
        Number::PrefixFactor(_) => true,
        Number::Fraction(exponent) => exponent.wf(),
        Number::Negated(inner) => number_wf(*inner),
        Number::Combined(_, left, right) => number_wf(*left) && number_wf(*right),
    }
}

impl Clone for Number {
    fn clone(&self) -> (n: Self)
        ensures
            n == *self,
    {
        self.duplicate()
    }
}

impl View for Number {
    type V = NumberView;

    open spec fn view(&self) -> NumberView {
        number_view(*self)
    }
}

impl NumberView {
    /// The product term `self * other`.
    pub open spec fn times(self, other: NumberView) -> NumberView {
        NumberView::Combined(Operation::Mul, Box::new(self), Box::new(other))
    }

    /// The quotient term `self / other`.
    pub open spec fn over(self, other: NumberView) -> NumberView {
        NumberView::Combined(Operation::Div, Box::new(self), Box::new(other))
    }

    /// The power term `self ^ other`.
    pub open spec fn raised(self, other: NumberView) -> NumberView {
        NumberView::Combined(Operation::Pow, Box::new(self), Box::new(other))
    }

    /// The sum term `self + other`.
    pub open spec fn plus(self, other: NumberView) -> NumberView {
        NumberView::Combined(Operation::Add, Box::new(self), Box::new(other))
    }

    /// The difference term `self - other`.
    pub open spec fn minus(self, other: NumberView) -> NumberView {
        NumberView::Combined(Operation::Sub, Box::new(self), Box::new(other))
    }

    /// The literal one.
    pub open spec fn one() -> NumberView {
        NumberView::Literal(ONE_BITS)
    }

    /// Whether the term is a literal zero, of either sign.
    pub open spec fn is_zero(self) -> bool {
        self matches NumberView::Literal(bits) && (bits == 0 || bits == NEGATIVE_ZERO_BITS)
    }
}

impl Number {
    /// Every exponent in the term is well formed.
    pub open spec fn wf(&self) -> bool {
        number_wf(*self)
    }

    /// The double-precision value with the given bit pattern.
    pub fn from_bits(bits: u64) -> (n: Self)
        ensures
            n@ == NumberView::Literal(bits),
            n.wf(),
    {
        Number::Literal(bits)
    }

    /// The value one.
    pub fn one() -> (n: Self)
        ensures
            n@ == NumberView::one(),
            n.wf(),
    {
        Number::Literal(ONE_BITS)
    }

    /// An exponent as a scalar.
    pub fn from_rational(exponent: Rational) -> (n: Self)
        requires
            exponent.wf(),
        ensures
            n@ == NumberView::Fraction(exponent@),
            n.wf(),
    {
        Number::Fraction(exponent)
    }

    /// Whether the term is a literal zero. A term that is not a literal is
    /// not looked into: it counts as not zero.
    pub fn is_zero(&self) -> (z: bool)
        ensures
            z == self@.is_zero(),
    {
        match self {
            Number::Literal(bits) => *bits == 0 || *bits == NEGATIVE_ZERO_BITS,
            _ => false,
        }
    }

    /// A copy of the term.
    pub fn duplicate(&self) -> (n: Self)
        ensures
            n == *self,
        decreases *self,
    {
        match self {
            Number::Literal(bits) => Number::Literal(*bits),
            Number::PrefixFactor(prefix) => Number::PrefixFactor(*prefix),
            Number::Fraction(exponent) => Number::Fraction(*exponent),
            Number::Negated(inner) => Number::Negated(Box::new(inner.duplicate())),
            Number::Combined(op, left, right) => Number::Combined(
                *op,
                Box::new(left.duplicate()),
                Box::new(right.duplicate()),
            ),
        }
    }

    /// Whether two terms are the same term: the same shape, the same bit
    /// patterns and prefixes, and exponents that denote the same number.
    pub fn same(&self, other: &Number) -> (r: bool)
        requires
            self.wf(),
            other.wf(),
        ensures
            r == (self@ == other@),
        decreases *self,
    {
        match (self, other) {
            (Number::Literal(a), Number::Literal(b)) => *a == *b,
            (Number::PrefixFactor(a), Number::PrefixFactor(b)) => *a == *b,
            (Number::Fraction(a), Number::Fraction(b)) => a.same(b),
            (Number::Negated(a), Number::Negated(b)) => a.same(b),
            (Number::Combined(op, a1, a2), Number::Combined(other_op, b1, b2)) => {
                *op == *other_op && a1.same(b1) && a2.same(b2)
            },
            _ => false,
        }
    }

    fn combined(op: Operation, left: Number, right: Number) -> (n: Self)
        ensures
            n@ == NumberView::Combined(op, Box::new(left@), Box::new(right@)),
            left.wf() && right.wf() ==> n.wf(),
    {
        Number::Combined(op, Box::new(left), Box::new(right))
    }

    /// The term `self + other`.
    pub fn plus(self, other: Number) -> (n: Self)
        ensures
            n@ == self@.plus(other@),
            self.wf() && other.wf() ==> n.wf(),
    {
        Self::combined(Operation::Add, self, other)
    }

    /// The term `self - other`.
    pub fn minus(self, other: Number) -> (n: Self)
        ensures
            n@ == self@.minus(other@),
            self.wf() && other.wf() ==> n.wf(),
    {
        Self::combined(Operation::Sub, self, other)
    }

    /// The term `self * other`.
    pub fn times(self, other: Number) -> (n: Self)
        ensures
            n@ == self@.times(other@),
            self.wf() && other.wf() ==> n.wf(),
    {
        Self::combined(Operation::Mul, self, other)
    }

    /// The term `self / other`.
    pub fn over(self, other: Number) -> (n: Self)
        ensures
            n@ == self@.over(other@),
            self.wf() && other.wf() ==> n.wf(),
    {
        Self::combined(Operation::Div, self, other)
    }

    /// The term `self ^ other`.
    pub fn pow(self, other: Number) -> (n: Self)
        ensures
            n@ == self@.raised(other@),
            self.wf() && other.wf() ==> n.wf(),
    {
        Self::combined(Operation::Pow, self, other)
    }

    /// The term `-self`.
    pub fn negated(self) -> (n: Self)
        ensures
            n@ == NumberView::Negated(Box::new(self@)),
            self.wf() ==> n.wf(),
    {
        Number::Negated(Box::new(self))
    }
}

} // verus!
