//! A few units of everyday use.

use crate::arithmetic::bit_length;
use crate::number::{Number, NumberView};
use crate::prefix::Prefix;
use crate::unit::{
    base_factors_wf, inverted, prefixed, raised, weight, FactorModel, FactorView, IdView,
    KindView, Measure, Unit,
};
use vstd::prelude::*;

verus! {

/// The fundamental unit of the given name and symbol.
pub open spec fn base_unit(name: Seq<char>, symbol: Seq<char>) -> Seq<FactorView> {
    seq![
        FactorView {
            unit_id: IdView { name, canonical_name: symbol, kind: KindView::Base },
            prefix: Prefix::Metric(0),
            exponent: 1real,
        },
    ]
}

/// The unit of the given name and symbol that is `bits`, read as a
/// double-precision value, times the product `base` of fundamental units.
pub open spec fn derived_unit(
    name: Seq<char>,
    symbol: Seq<char>,
    bits: u64,
    base: Seq<FactorView>,
) -> Seq<FactorView> {
    seq![
        FactorView {
            unit_id: IdView {
                name,
                canonical_name: symbol,
                kind: KindView::Derived(NumberView::Literal(bits), base),
            },
            prefix: Prefix::Metric(0),
            exponent: 1real,
        },
    ]
}

/// A product of one factor weighs what the factor counts for.
pub proof fn lemma_single_weight(m: Measure, s: Seq<FactorModel>)
    requires
        s.len() == 1,
    ensures
        weight(m, s) == s[0].load(m),
{
    reveal_with_fuel(weight, 2);
}

/// A well-formed product whose factors all denote powers of base units is
/// a product of well-formed powers of base units.
pub proof fn lemma_base_only(unit: Unit)
    requires
        unit.wf(),
        forall|i: int| 0 <= i < unit@.len() ==> (#[trigger] unit@[i]).unit_id.kind is Base,
    ensures
        base_factors_wf(unit.model()),
{
    assert forall|i: int| 0 <= i < unit.model().len() implies (
    #[trigger] unit.model()[i]).exponent.wf() && unit.model()[i].unit_id.kind is Base by {
        assert(unit.model()[i].wf());
        assert(unit@[i] == unit.model()[i].view());
    }
}

impl Unit {
    /// The meter.
    pub fn meter() -> (unit: Unit)
        ensures
            unit@ == base_unit("meter"@, "m"@),
            unit.wf(),
            unit.weight() == 2,
            unit.base_weight() == 4,
    {
        Unit::new_base("meter", "m")
    }

    /// A hundredth of a meter.
    pub fn centimeter() -> (unit: Unit)
        ensures
            unit@ == prefixed(base_unit("meter"@, "m"@), Prefix::Metric((-2) as i8)),
            unit.wf(),
            unit.weight() == 2,
            unit.base_weight() == 4,
    {
        Unit::new_base("meter", "m").with_prefix(Prefix::centi())
    }

    /// A thousandth of a meter.
    pub fn millimeter() -> (unit: Unit)
        ensures
            unit@ == prefixed(base_unit("meter"@, "m"@), Prefix::Metric((-3) as i8)),
            unit.wf(),
            unit.weight() == 2,
            unit.base_weight() == 4,
    {
        Unit::new_base("meter", "m").with_prefix(Prefix::milli())
    }

    /// A thousand meters.
    pub fn kilometer() -> (unit: Unit)
        ensures
            unit@ == prefixed(base_unit("meter"@, "m"@), Prefix::Metric(3)),
            unit.wf(),
            unit.weight() == 2,
            unit.base_weight() == 4,
    {
        Unit::new_base("meter", "m").with_prefix(Prefix::kilo())
    }

    /// The second.
    pub fn second() -> (unit: Unit)
        ensures
            unit@ == base_unit("second"@, "s"@),
            unit.wf(),
            unit.weight() == 2,
            unit.base_weight() == 4,
    {
        Unit::new_base("second", "s")
    }

    /// The gram.
    pub fn gram() -> (unit: Unit)
        ensures
            unit@ == base_unit("gram"@, "g"@),
            unit.wf(),
            unit.weight() == 2,
            unit.base_weight() == 4,
    {
        Unit::new_base("gram", "g")
    }

    /// A thousand grams.
    pub fn kilogram() -> (unit: Unit)
        ensures
            unit@ == prefixed(base_unit("gram"@, "g"@), Prefix::Metric(3)),
            unit.wf(),
            unit.weight() == 2,
            unit.base_weight() == 4,
    {
        Self::gram().with_prefix(Prefix::kilo())
    }

    /// The kelvin.
    pub fn kelvin() -> (unit: Unit)
        ensures
            unit@ == base_unit("kelvin"@, "K"@),
            unit.wf(),
            unit.weight() == 2,
            unit.base_weight() == 4,
    {
        Unit::new_base("kelvin", "K")
    }

    /// The radian.
    pub fn radian() -> (unit: Unit)
        ensures
            unit@ == base_unit("radian"@, "rad"@),
            unit.wf(),
            unit.weight() == 2,
            unit.base_weight() == 4,
    {
        Unit::new_base("radian", "rad")
    }

    /// A degree of arc: pi over 180 radians.
    pub fn degree() -> (unit: Unit)
        ensures
            unit@ == derived_unit(
                "degree"@,
                "°"@,
                0x3F91_DF46_A252_9D39,
                base_unit("radian"@, "rad"@),
            ),
            unit.wf(),
            unit.weight() == 2,
            unit.base_weight() == 4,
    {
        let base = Self::radian();
        proof {
            lemma_base_only(base);
        }
        Unit::new_derived("degree", "°", Number::from_bits(0x3F91_DF46_A252_9D39), base)
    }

    /// One per second.
    pub fn hertz() -> (unit: Unit)
        ensures
            unit@ == derived_unit(
                "hertz"@,
                "Hz"@,
                0x3FF0_0000_0000_0000,
                raised(base_unit("second"@, "s"@), (-1) as real),
            ),
            unit.wf(),
            unit.weight() == 2,
            unit.base_weight() <= 6,
    {
        let second = Self::second();
        proof {
            reveal_with_fuel(bit_length, 3);
            assert(second.model().len() == second@.len());
            lemma_single_weight(Measure::Cost, second.model());
        }
        let base = second.powi(-1);
        proof {
            lemma_base_only(base);
            lemma_single_weight(Measure::Cost, base.model());
        }
        Unit::new_derived("hertz", "Hz", Number::from_bits(0x3FF0_0000_0000_0000), base)
    }

    /// A thousand gram meters per second squared.
    pub fn newton() -> (unit: Unit)
        ensures
            unit@ == derived_unit(
                "newton"@,
                "N"@,
                0x408F_4000_0000_0000,
                base_unit("gram"@, "g"@) + base_unit("meter"@, "m"@) + inverted(
                    raised(base_unit("second"@, "s"@), 2real),
                ),
            ),
            unit.wf(),
            unit.weight() == 2,
            unit.base_weight() <= 14,
    {
        let second = Self::second();
        proof {
            reveal_with_fuel(bit_length, 3);
            assert(second.model().len() == second@.len());
            lemma_single_weight(Measure::Cost, second.model());
        }
        let squared = second.powi(2);
        proof {
            lemma_single_weight(Measure::Cost, squared.model());
        }
        let base = Self::gram() * Self::meter() / squared;
        proof {
            lemma_base_only(base);
        }
        Unit::new_derived("newton", "N", Number::from_bits(0x408F_4000_0000_0000), base)
    }

    /// 3600 seconds.
    pub fn hour() -> (unit: Unit)
        ensures
            unit@ == derived_unit(
                "hour"@,
                "h"@,
                0x40AC_2000_0000_0000,
                base_unit("second"@, "s"@),
            ),
            unit.wf(),
            unit.weight() == 2,
            unit.base_weight() == 4,
    {
        let base = Self::second();
        proof {
            lemma_base_only(base);
        }
        Unit::new_derived("hour", "h", Number::from_bits(0x40AC_2000_0000_0000), base)
    }

    /// A kilometer per hour: one over 3.6 meters per second.
    pub fn kph() -> (unit: Unit)
        ensures
            unit@ == derived_unit(
                "kilometer_per_hour"@,
                "kph"@,
                0x3FD1_C71C_71C7_1C72,
                base_unit("meter"@, "m"@) + inverted(base_unit("second"@, "s"@)),
            ),
            unit.wf(),
            unit.weight() == 2,
            unit.base_weight() == 8,
    {
        let base = Unit::new_base("meter", "m") / Self::second();
        proof {
            lemma_base_only(base);
        }
        Unit::new_derived(
            "kilometer_per_hour",
            "kph",
            Number::from_bits(0x3FD1_C71C_71C7_1C72),
            base,
        )
    }

    /// 1609.344 meters.
    pub fn mile() -> (unit: Unit)
        ensures
            unit@ == derived_unit(
                "mile"@,
                "mi"@,
                0x4099_2560_4189_374C,
                base_unit("meter"@, "m"@),
            ),
            unit.wf(),
            unit.weight() == 2,
            unit.base_weight() == 4,
    {
        let base = Self::meter();
        proof {
            lemma_base_only(base);
        }
        Unit::new_derived("mile", "mi", Number::from_bits(0x4099_2560_4189_374C), base)
    }

    /// The bit.
    pub fn bit() -> (unit: Unit)
        ensures
            unit@ == base_unit("bit"@, "B"@),
            unit.wf(),
            unit.weight() == 2,
            unit.base_weight() == 4,
    {
        Unit::new_base("bit", "B")
    }

    /// Eight bits.
    pub fn byte() -> (unit: Unit)
        ensures
            unit@ == derived_unit("byte"@, "B"@, 0x4020_0000_0000_0000, base_unit("bit"@, "B"@)),
            unit.wf(),
            unit.weight() == 2,
            unit.base_weight() == 4,
    {
        let base = Self::bit();
        proof {
            lemma_base_only(base);
        }
        Unit::new_derived("byte", "B", Number::from_bits(0x4020_0000_0000_0000), base)
    }
}

} // verus!
