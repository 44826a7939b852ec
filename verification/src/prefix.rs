//! Metric and binary prefixes.

use crate::number::Number;
use vstd::prelude::*;

verus! {

/// A scale attached to a unit: `Metric(n)` stands for ten to the power of `n`,
/// `Binary(n)` for two to the power of `10 n`. Exponent zero is no prefix.
#[derive(Debug, Clone, Copy, PartialEq, Eq, Structural, Hash)]
pub enum Prefix {
    Metric(i8),
    Binary(i8),
}

impl Prefix {
    /// The symbol of a prefix; empty for one that has no symbol.
    pub open spec fn symbol(self) -> Seq<char> {
        match self {
            Prefix::Metric(-30) => "q"@,
            Prefix::Metric(-27) => "r"@,
            Prefix::Metric(-24) => "y"@,
            Prefix::Metric(-21) => "z"@,
            Prefix::Metric(-18) => "a"@,
            Prefix::Metric(-15) => "f"@,
            Prefix::Metric(-12) => "p"@,
            Prefix::Metric(-9) => "n"@,
            Prefix::Metric(-6) => "µ"@,
            Prefix::Metric(-3) => "m"@,
            Prefix::Metric(-2) => "c"@,
            Prefix::Metric(-1) => "d"@,
            Prefix::Metric(1) => "da"@,
            Prefix::Metric(2) => "h"@,
            Prefix::Metric(3) => "k"@,
            Prefix::Metric(6) => "M"@,
            Prefix::Metric(9) => "G"@,
            Prefix::Metric(12) => "T"@,
            Prefix::Metric(15) => "P"@,
            Prefix::Metric(18) => "E"@,
            Prefix::Metric(21) => "Z"@,
            Prefix::Metric(24) => "Y"@,
            Prefix::Metric(27) => "R"@,
            Prefix::Metric(30) => "Q"@,
            Prefix::Binary(1) => "Ki"@,
            Prefix::Binary(2) => "Mi"@,
            Prefix::Binary(3) => "Gi"@,
            Prefix::Binary(4) => "Ti"@,
            Prefix::Binary(5) => "Pi"@,
            Prefix::Binary(6) => "Ei"@,
            Prefix::Binary(7) => "Zi"@,
            Prefix::Binary(8) => "Yi"@,
            _ => ""@,
        }
    }

    /// The name of a prefix; empty for one that has no name.
    pub open spec fn long_name(self) -> Seq<char> {
        match self {
            Prefix::Metric(-30) => "quecto"@,
            Prefix::Metric(-27) => "ronto"@,
            Prefix::Metric(-24) => "yocto"@,
            Prefix::Metric(-21) => "zepto"@,
            Prefix::Metric(-18) => "atto"@,
            Prefix::Metric(-15) => "femto"@,
            Prefix::Metric(-12) => "pico"@,
            Prefix::Metric(-9) => "nano"@,
            Prefix::Metric(-6) => "micro"@,
            Prefix::Metric(-3) => "milli"@,
            Prefix::Metric(-2) => "centi"@,
            Prefix::Metric(-1) => "deci"@,
            Prefix::Metric(1) => "deca"@,
            Prefix::Metric(2) => "hecto"@,
            Prefix::Metric(3) => "kilo"@,
            Prefix::Metric(6) => "mega"@,
            Prefix::Metric(9) => "giga"@,
            Prefix::Metric(12) => "tera"@,
            Prefix::Metric(15) => "peta"@,
            Prefix::Metric(18) => "exa"@,
            Prefix::Metric(21) => "zetta"@,
            Prefix::Metric(24) => "yotta"@,
            Prefix::Metric(27) => "ronna"@,
            Prefix::Metric(30) => "quetta"@,
            Prefix::Binary(1) => "kibi"@,
            Prefix::Binary(2) => "mebi"@,
            Prefix::Binary(3) => "gibi"@,
            Prefix::Binary(4) => "tebi"@,
            Prefix::Binary(5) => "pebi"@,
            Prefix::Binary(6) => "exbi"@,
            Prefix::Binary(7) => "zebi"@,
            Prefix::Binary(8) => "yobi"@,
            _ => ""@,
        }
    }

    /// Prefixes ordered by kind, metric first, then by exponent.
    pub open spec fn precedes(self, other: Prefix) -> bool {
        match (self, other) {
            (Prefix::Metric(a), Prefix::Metric(b)) => a < b,
            (Prefix::Metric(_), Prefix::Binary(_)) => true,
            (Prefix::Binary(_), Prefix::Metric(_)) => false,
            (Prefix::Binary(a), Prefix::Binary(b)) => a < b,
        }
    }

    /// No prefix.
    pub fn none() -> (p: Self)
        ensures
            p == Prefix::Metric(0),
    {
        Prefix::Metric(0)
    }

    /// Whether `self` comes before `other`.
    pub fn lt(&self, other: &Prefix) -> (r: bool)
        ensures
            r == self.precedes(*other),
    {
        match (*self, *other) {
            (Prefix::Metric(a), Prefix::Metric(b)) => a < b,
            (Prefix::Metric(_), Prefix::Binary(_)) => true,
            (Prefix::Binary(_), Prefix::Metric(_)) => false,
            (Prefix::Binary(a), Prefix::Binary(b)) => a < b,
        }
    }

    /// The scale as a number.
    pub fn factor(&self) -> (f: Number)
        ensures
            f == Number::PrefixFactor(*self),
            f.wf(),
    {
        Number::PrefixFactor(*self)
    }

    /// The symbol written in front of a unit's own.
    pub fn as_string_short(&self) -> (s: String)
        ensures
            s@ == self.symbol(),
    {
        match *self {
            Prefix::Metric(-30) => String::from_str("q"),
            Prefix::Metric(-27) => String::from_str("r"),
            Prefix::Metric(-24) => String::from_str("y"),
            Prefix::Metric(-21) => String::from_str("z"),
            Prefix::Metric(-18) => String::from_str("a"),
            Prefix::Metric(-15) => String::from_str("f"),
            Prefix::Metric(-12) => String::from_str("p"),
            Prefix::Metric(-9) => String::from_str("n"),
            Prefix::Metric(-6) => String::from_str("µ"),
            Prefix::Metric(-3) => String::from_str("m"),
            Prefix::Metric(-2) => String::from_str("c"),
            Prefix::Metric(-1) => String::from_str("d"),
            Prefix::Metric(1) => String::from_str("da"),
            Prefix::Metric(2) => String::from_str("h"),
            Prefix::Metric(3) => String::from_str("k"),
            Prefix::Metric(6) => String::from_str("M"),
            Prefix::Metric(9) => String::from_str("G"),
            Prefix::Metric(12) => String::from_str("T"),
            Prefix::Metric(15) => String::from_str("P"),
            Prefix::Metric(18) => String::from_str("E"),
            Prefix::Metric(21) => String::from_str("Z"),
            Prefix::Metric(24) => String::from_str("Y"),
            Prefix::Metric(27) => String::from_str("R"),
            Prefix::Metric(30) => String::from_str("Q"),
            Prefix::Binary(1) => String::from_str("Ki"),
            Prefix::Binary(2) => String::from_str("Mi"),
            Prefix::Binary(3) => String::from_str("Gi"),
            Prefix::Binary(4) => String::from_str("Ti"),
            Prefix::Binary(5) => String::from_str("Pi"),
            Prefix::Binary(6) => String::from_str("Ei"),
            Prefix::Binary(7) => String::from_str("Zi"),
            Prefix::Binary(8) => String::from_str("Yi"),
            _ => String::from_str(""),
        }
    }

    /// The name written in front of a unit's own.
    pub fn as_string_long(&self) -> (s: String)
        ensures
            s@ == self.long_name(),
    {
        match *self {
            Prefix::Metric(-30) => String::from_str("quecto"),
            Prefix::Metric(-27) => String::from_str("ronto"),
            Prefix::Metric(-24) => String::from_str("yocto"),
            Prefix::Metric(-21) => String::from_str("zepto"),
            Prefix::Metric(-18) => String::from_str("atto"),
            Prefix::Metric(-15) => String::from_str("femto"),
            Prefix::Metric(-12) => String::from_str("pico"),
            Prefix::Metric(-9) => String::from_str("nano"),
            Prefix::Metric(-6) => String::from_str("micro"),
            Prefix::Metric(-3) => String::from_str("milli"),
            Prefix::Metric(-2) => String::from_str("centi"),
            Prefix::Metric(-1) => String::from_str("deci"),
            Prefix::Metric(1) => String::from_str("deca"),
            Prefix::Metric(2) => String::from_str("hecto"),
            Prefix::Metric(3) => String::from_str("kilo"),
            Prefix::Metric(6) => String::from_str("mega"),
            Prefix::Metric(9) => String::from_str("giga"),
            Prefix::Metric(12) => String::from_str("tera"),
            Prefix::Metric(15) => String::from_str("peta"),
            Prefix::Metric(18) => String::from_str("exa"),
            Prefix::Metric(21) => String::from_str("zetta"),
            Prefix::Metric(24) => String::from_str("yotta"),
            Prefix::Metric(27) => String::from_str("ronna"),
            Prefix::Metric(30) => String::from_str("quetta"),
            Prefix::Binary(1) => String::from_str("kibi"),
            Prefix::Binary(2) => String::from_str("mebi"),
            Prefix::Binary(3) => String::from_str("gibi"),
            Prefix::Binary(4) => String::from_str("tebi"),
            Prefix::Binary(5) => String::from_str("pebi"),
            Prefix::Binary(6) => String::from_str("exbi"),
            Prefix::Binary(7) => String::from_str("zebi"),
            Prefix::Binary(8) => String::from_str("yobi"),
            _ => String::from_str(""),
        }
    }

    /// Ten to the power of -30.
    pub fn quecto() -> (p: Self)
        ensures
            p matches Prefix::Metric(n) && n == -30,
    {
        Prefix::Metric(-30)
    }

    /// Ten to the power of -27.
    pub fn ronto() -> (p: Self)
        ensures
            p matches Prefix::Metric(n) && n == -27,
    {
        Prefix::Metric(-27)
    }

    /// Ten to the power of -24.
    pub fn yocto() -> (p: Self)
        ensures
            p matches Prefix::Metric(n) && n == -24,
    {
        Prefix::Metric(-24)
    }

    /// Ten to the power of -21.
    pub fn zepto() -> (p: Self)
        ensures
            p matches Prefix::Metric(n) && n == -21,
    {
        Prefix::Metric(-21)
    }

    /// Ten to the power of -18.
    pub fn atto() -> (p: Self)
        ensures
            p matches Prefix::Metric(n) && n == -18,
    {
        Prefix::Metric(-18)
    }

    /// Ten to the power of -15.
    pub fn femto() -> (p: Self)
        ensures
            p matches Prefix::Metric(n) && n == -15,
    {
        Prefix::Metric(-15)
    }

    /// Ten to the power of -12.
    pub fn pico() -> (p: Self)
        ensures
            p matches Prefix::Metric(n) && n == -12,
    {
        Prefix::Metric(-12)
    }

    /// Ten to the power of -9.
    pub fn nano() -> (p: Self)
        ensures
            p matches Prefix::Metric(n) && n == -9,
    {
        Prefix::Metric(-9)
    }

    /// Ten to the power of -6.
    pub fn micro() -> (p: Self)
        ensures
            p matches Prefix::Metric(n) && n == -6,
    {
        Prefix::Metric(-6)
    }

    /// Ten to the power of -3.
    pub fn milli() -> (p: Self)
        ensures
            p matches Prefix::Metric(n) && n == -3,
    {
        Prefix::Metric(-3)
    }

    /// Ten to the power of -2.
    pub fn centi() -> (p: Self)
        ensures
            p matches Prefix::Metric(n) && n == -2,
    {
        Prefix::Metric(-2)
    }

    /// Ten to the power of -1.
    pub fn deci() -> (p: Self)
        ensures
            p matches Prefix::Metric(n) && n == -1,
    {
        Prefix::Metric(-1)
    }

    /// Ten to the power of 1.
    pub fn deca() -> (p: Self)
        ensures
            p == Prefix::Metric(1),
    {
        Prefix::Metric(1)
    }

    /// Ten to the power of 2.
    pub fn hecto() -> (p: Self)
        ensures
            p == Prefix::Metric(2),
    {
        Prefix::Metric(2)
    }

    /// Ten to the power of 3.
    pub fn kilo() -> (p: Self)
        ensures
            p == Prefix::Metric(3),
    {
        Prefix::Metric(3)
    }

    /// Ten to the power of 6.
    pub fn mega() -> (p: Self)
        ensures
            p == Prefix::Metric(6),
    {
        Prefix::Metric(6)
    }

    /// Ten to the power of 9.
    pub fn giga() -> (p: Self)
        ensures
            p == Prefix::Metric(9),
    {
        Prefix::Metric(9)
    }

    /// Ten to the power of 12.
    pub fn tera() -> (p: Self)
        ensures
            p == Prefix::Metric(12),
    {
        Prefix::Metric(12)
    }

    /// Ten to the power of 15.
    pub fn peta() -> (p: Self)
        ensures
            p == Prefix::Metric(15),
    {
        Prefix::Metric(15)
    }

    /// Ten to the power of 18.
    pub fn exa() -> (p: Self)
        ensures
            p == Prefix::Metric(18),
    {
        Prefix::Metric(18)
    }

    /// Ten to the power of 21.
    pub fn zetta() -> (p: Self)
        ensures
            p == Prefix::Metric(21),
    {
        Prefix::Metric(21)
    }

    /// Ten to the power of 24.
    pub fn yotta() -> (p: Self)
        ensures
            p == Prefix::Metric(24),
    {
        Prefix::Metric(24)
    }

    /// Ten to the power of 27.
    pub fn ronna() -> (p: Self)
        ensures
            p == Prefix::Metric(27),
    {
        Prefix::Metric(27)
    }

    /// Ten to the power of 30.
    pub fn quetta() -> (p: Self)
        ensures
            p == Prefix::Metric(30),
    {
        Prefix::Metric(30)
    }

    /// Two to the power of 10.
    pub fn kibi() -> (p: Self)
        ensures
            p == Prefix::Binary(1),
    {
        Prefix::Binary(1)
    }

    /// Two to the power of 20.
    pub fn mebi() -> (p: Self)
        ensures
            p == Prefix::Binary(2),
    {
        Prefix::Binary(2)
    }

    /// Two to the power of 30.
    pub fn gibi() -> (p: Self)
        ensures
            p == Prefix::Binary(3),
    {
        Prefix::Binary(3)
    }

    /// Two to the power of 40.
    pub fn tebi() -> (p: Self)
        ensures
            p == Prefix::Binary(4),
    {
        Prefix::Binary(4)
    }

    /// Two to the power of 50.
    pub fn pebi() -> (p: Self)
        ensures
            p == Prefix::Binary(5),
    {
        Prefix::Binary(5)
    }

    /// Two to the power of 60.
    pub fn exbi() -> (p: Self)
        ensures
            p == Prefix::Binary(6),
    {
        Prefix::Binary(6)
    }

    /// Two to the power of 70.
    pub fn zebi() -> (p: Self)
        ensures
            p == Prefix::Binary(7),
    {
        Prefix::Binary(7)
    }

    /// Two to the power of 80.
    pub fn yobi() -> (p: Self)
        ensures
            p == Prefix::Binary(8),
    {
        Prefix::Binary(8)
    }
}

} // verus!
