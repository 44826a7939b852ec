//! Units and quantities as text.
//!
//! A unit is written as a numerator over a denominator: the factors with a
//! positive exponent, joined by a centred dot, then a solidus and the other
//! factors with their exponents negated, in parentheses if there are several.
//! A unit without factors of positive exponent is written as it is. Small
//! whole exponents are written as superscripts.

use crate::arithmetic::{denominator, lemma_lowest_terms, numerator, Exponent};
use crate::order::text_same;
use crate::quantity::Quantity;
use crate::unit::{inverted, FactorView, Unit, UnitFactor};
use vstd::prelude::*;

verus! {

/// One decimal digit.
pub open spec fn digit_text(d: int) -> Seq<char> {
    if d == 0 {
        "0"@
    } else if d == 1 {
        "1"@
    } else if d == 2 {
        "2"@
    } else if d == 3 {
        "3"@
    } else if d == 4 {
        "4"@
    } else if d == 5 {
        "5"@
    } else if d == 6 {
        "6"@
    } else if d == 7 {
        "7"@
    } else if d == 8 {
        "8"@
    } else {
        "9"@
    }
}

/// A natural number in decimal digits.
pub open spec fn decimal(n: int) -> Seq<char>
    decreases n,
{
    if n < 10 {
        digit_text(n)
    } else {
        decimal(n / 10) + digit_text(n % 10)
    }
}

/// An integer in decimal digits, with a minus sign if it is negative.
pub open spec fn integer_text(n: int) -> Seq<char> {
    if n < 0 {
        "-"@ + decimal(-n)
    } else {
        decimal(n)
    }
}

/// A fraction: its numerator, and unless it is one, a solidus and its
/// denominator.
pub open spec fn fraction_text(n: int, d: int) -> Seq<char> {
    if d == 1 {
        integer_text(n)
    } else {
        integer_text(n) + "/"@ + decimal(d)
    }
}

/// A whole exponent from -5 to 5 as a superscript; nothing for one.
pub open spec fn superscript(n: int) -> Seq<char> {
    if n == 5 {
        "⁵"@
    } else if n == 4 {
        "⁴"@
    } else if n == 3 {
        "³"@
    } else if n == 2 {
        "²"@
    } else if n == 1 {
        ""@
    } else if n == 0 {
        "⁰"@
    } else if n == -1 {
        "⁻¹"@
    } else if n == -2 {
        "⁻²"@
    } else if n == -3 {
        "⁻³"@
    } else if n == -4 {
        "⁻⁴"@
    } else {
        "⁻⁵"@
    }
}

/// An exponent: a superscript where there is one, else a caret and the
/// fraction, in parentheses unless it is positive.
pub open spec fn exponent_text(x: real) -> Seq<char> {
    let (n, d) = (numerator(x), denominator(x));
    if d == 1 && -5 <= n <= 5 {
        superscript(n)
    } else if n > 0 {
        "^"@ + fraction_text(n, d)
    } else {
        "^("@ + fraction_text(n, d) + ")"@
    }
}

/// A factor: prefix symbol, unit symbol, exponent.
pub open spec fn factor_text(f: FactorView) -> Seq<char> {
    f.prefix.symbol() + f.unit_id.canonical_name + exponent_text(f.exponent)
}

/// The factors' texts with `separator` between them.
pub open spec fn joined(s: Seq<FactorView>, separator: Seq<char>) -> Seq<char>
    decreases s.len(),
{
    if s.len() == 0 {
        Seq::empty()
    } else if s.len() == 1 {
        factor_text(s[0])
    } else {
        joined(s.drop_last(), separator) + separator + factor_text(s.last())
    }
}

/// The factors with a positive exponent.
pub open spec fn numerator_part(s: Seq<FactorView>) -> Seq<FactorView>
    decreases s.len(),
{
    if s.len() == 0 {
        s
    } else if s.last().exponent > 0real {
        numerator_part(s.drop_last()).push(s.last())
    } else {
        numerator_part(s.drop_last())
    }
}

/// The factors with an exponent that is not positive.
pub open spec fn denominator_part(s: Seq<FactorView>) -> Seq<FactorView>
    decreases s.len(),
{
    if s.len() == 0 {
        s
    } else if s.last().exponent > 0real {
        denominator_part(s.drop_last())
    } else {
        denominator_part(s.drop_last()).push(s.last())
    }
}

/// A unit as text.
pub open spec fn unit_text(s: Seq<FactorView>, times: Seq<char>, over: Seq<char>) -> Seq<char> {
    let above = numerator_part(s);
    let below = denominator_part(s);
    if above.len() == 0 {
        joined(below, times)
    } else if below.len() == 0 {
        joined(above, times)
    } else if below.len() == 1 {
        joined(above, times) + over + joined(inverted(below), times)
    } else {
        joined(above, times) + over + "("@ + joined(inverted(below), times) + ")"@
    }
}

/// A quantity as text: the number, a space unless the unit is written as
/// the degree sign alone, and the unit.
pub open spec fn quantity_text(number: Seq<char>, unit: Seq<char>) -> Seq<char> {
    if unit == "°"@ {
        number + unit
    } else {
        number + " "@ + unit
    }
}

fn digit_str(d: u128) -> (s: &'static str)
    requires
        d < 10,
    ensures
        s@ == digit_text(d as int),
{
    if d == 0 {
        "0"
    } else if d == 1 {
        "1"
    } else if d == 2 {
        "2"
    } else if d == 3 {
        "3"
    } else if d == 4 {
        "4"
    } else if d == 5 {
        "5"
    } else if d == 6 {
        "6"
    } else if d == 7 {
        "7"
    } else if d == 8 {
        "8"
    } else {
        "9"
    }
}

/// A natural number in decimal digits.
pub fn decimal_string(n: u128) -> (s: String)
    ensures
        s@ == decimal(n as int),
    decreases n,
{
    if n < 10 {
        String::from_str(digit_str(n))
    } else {
        let mut s = decimal_string(n / 10);
        s.append(digit_str(n % 10));
        s
    }
}

fn integer_string(n: i128) -> (s: String)
    requires
        n > i128::MIN,
    ensures
        s@ == integer_text(n as int),
{
    if n < 0 {
        let mut s = String::from_str("-");
        s.append(decimal_string((-n) as u128).as_str());
        s
    } else {
        decimal_string(n as u128)
    }
}

fn superscript_str(n: i128) -> (s: &'static str)
    requires
        -5 <= n <= 5,
    ensures
        s@ == superscript(n as int),
{
    if n == 5 {
        "⁵"
    } else if n == 4 {
        "⁴"
    } else if n == 3 {
        "³"
    } else if n == 2 {
        "²"
    } else if n == 1 {
        ""
    } else if n == 0 {
        "⁰"
    } else if n == -1 {
        "⁻¹"
    } else if n == -2 {
        "⁻²"
    } else if n == -3 {
        "⁻³"
    } else if n == -4 {
        "⁻⁴"
    } else {
        "⁻⁵"
    }
}

/// An exponent as text behind a unit's symbol.
pub fn pretty_exponent(e: &Exponent) -> (s: String)
    requires
        e.wf(),
    ensures
        s@ == exponent_text(e@),
{
    proof {
        lemma_lowest_terms(*e);
    }
    let n = e.numer();
    let d = e.denom();
    if d == 1 && -5 <= n && n <= 5 {
        return String::from_str(superscript_str(n));
    }
    let mut fraction = integer_string(n);
    if d != 1 {
        fraction.append("/");
        fraction.append(decimal_string(d as u128).as_str());
    }
    if n > 0 {
        let mut s = String::from_str("^");
        s.append(fraction.as_str());
        s
    } else {
        let mut s = String::from_str("^(");
        s.append(fraction.as_str());
        s.append(")");
        s
    }
}

impl UnitFactor {
    /// The factor as text: prefix symbol, unit symbol, exponent.
    pub fn to_string(&self) -> (s: String)
        requires
            self.wf(),
        ensures
            s@ == factor_text(self@),
    {
        let mut s = self.prefix.as_string_short();
        s.append(self.unit_id.canonical_name.as_str());
        s.append(pretty_exponent(&self.exponent).as_str());
        s
    }

    /// The factor with its exponent negated, as text.
    fn inverted_to_string(&self) -> (s: String)
        requires
            self.wf(),
        ensures
            s@ == factor_text(
                FactorView {
                    unit_id: self@.unit_id,
                    prefix: self@.prefix,
                    exponent: -self@.exponent,
                },
            ),
    {
        let mut s = self.prefix.as_string_short();
        s.append(self.unit_id.canonical_name.as_str());
        s.append(pretty_exponent(&self.exponent.neg()).as_str());
        s
    }
}

/// Appends one more factor's text to a joined text.
fn append_joined(text: &mut String, count: usize, piece: &str, separator: &str)
    ensures
        final(text)@ == if count == 0 {
            old(text)@ + piece@
        } else {
            old(text)@ + separator@ + piece@
        },
{
    if count > 0 {
        text.append(separator);
    }
    text.append(piece);
}

/// The texts of a product with one more factor, joined.
proof fn lemma_joined_push(s: Seq<FactorView>, f: FactorView, separator: Seq<char>)
    ensures
        joined(s.push(f), separator) == if s.len() == 0 {
            factor_text(f)
        } else {
            joined(s, separator) + separator + factor_text(f)
        },
{
    assert(s.push(f).drop_last() =~= s);
}

/// Negating the exponents of a product with one more factor.
proof fn lemma_inverted_push(s: Seq<FactorView>, f: FactorView)
    ensures
        inverted(s.push(f)) == inverted(s).push(
            FactorView { unit_id: f.unit_id, prefix: f.prefix, exponent: -f.exponent },
        ),
{
    assert(inverted(s.push(f)) =~= inverted(s).push(
        FactorView { unit_id: f.unit_id, prefix: f.prefix, exponent: -f.exponent },
    ));
}

impl Unit {
    /// The unit as text, with the given signs for "times" and "over".
    #[verifier::rlimit(40)]
    pub fn as_string(&self, times_separator: &str, over_separator: &str) -> (s: String)
        requires
            self.wf(),
        ensures
            s@ == unit_text(self@, times_separator@, over_separator@),
    {
        let ghost times = times_separator@;
        let mut above = String::from_str("");
        let mut below = String::from_str("");
        let mut flipped = String::from_str("");
        let mut above_count: usize = 0;
        let mut below_count: usize = 0;
        let mut i: usize = 0;
        assert(self@.len() == self.factors@.len());
        proof {
            assert(self@.take(0) =~= Seq::empty());
            assert(inverted(Seq::<FactorView>::empty()) =~= Seq::empty());
            assert(""@ =~= Seq::<char>::empty()) by {
                reveal_strlit("");
            }
        }
        while i < self.factors.len()
            invariant
                i <= self.factors.len(),
                self@.len() == self.factors@.len(),
                self.wf(),
                times == times_separator@,
                above_count <= i,
                below_count <= i,
                above_count == numerator_part(self@.take(i as int)).len(),
                below_count == denominator_part(self@.take(i as int)).len(),
                above@ == joined(numerator_part(self@.take(i as int)), times),
                below@ == joined(denominator_part(self@.take(i as int)), times),
                flipped@ == joined(inverted(denominator_part(self@.take(i as int))), times),
            decreases self.factors.len() - i,
        {
            let ghost seen = self@.take(i as int);
            proof {
                assert(self@.take(i + 1).drop_last() =~= seen);
                assert(self@.take(i + 1).last() == self@[i as int]);
                assert(self.model()[i as int].wf());
                assert(self@[i as int] == self.model()[i as int].view());
                lemma_joined_push(numerator_part(seen), self@[i as int], times);
                lemma_joined_push(denominator_part(seen), self@[i as int], times);
                lemma_inverted_push(denominator_part(seen), self@[i as int]);
                lemma_joined_push(
                    inverted(denominator_part(seen)),
                    FactorView {
                        unit_id: self@[i as int].unit_id,
                        prefix: self@[i as int].prefix,
                        exponent: -self@[i as int].exponent,
                    },
                    times,
                );
                assert(inverted(denominator_part(seen)).len() == denominator_part(seen).len());
            }
            let factor = &self.factors[i];
            if factor.exponent.is_positive() {
                append_joined(
                    &mut above,
                    above_count,
                    factor.to_string().as_str(),
                    times_separator,
                );
                above_count += 1;
            } else {
                append_joined(
                    &mut below,
                    below_count,
                    factor.to_string().as_str(),
                    times_separator,
                );
                append_joined(
                    &mut flipped,
                    below_count,
                    factor.inverted_to_string().as_str(),
                    times_separator,
                );
                below_count += 1;
            }
            i += 1;
        }
        assert(self@.take(self.factors.len() as int) =~= self@);
        if above_count == 0 {
            below
        } else if below_count == 0 {
            above
        } else if below_count == 1 {
            above.append(over_separator);
            above.append(flipped.as_str());
            above
        } else {
            above.append(over_separator);
            above.append("(");
            above.append(flipped.as_str());
            above.append(")");
            above
        }
    }

    /// The unit as text, with a centred dot for "times" and a solidus for
    /// "over".
    pub fn to_string(&self) -> (s: String)
        requires
            self.wf(),
        ensures
            s@ == unit_text(self@, "·"@, "/"@),
    {
        self.as_string("·", "/")
    }
}

impl Quantity {
    /// The quantity as text, where `number` is its value as text.
    pub fn to_string(&self, number: &str) -> (s: String)
        requires
            self.wf(),
        ensures
            s@ == quantity_text(number@, unit_text(self@.unit, "·"@, "/"@)),
    {
        let unit = self.unit().to_string();
        let mut s = String::from_str(number);
        if !text_same(unit.as_str(), "°") {
            s.append(" ");
        }
        s.append(unit.as_str());
        s
    }
}

} // verus!
