use num_rational::Ratio;
use num_traits::{FromPrimitive, ToPrimitive};
use numbat::arithmetic::Rational;
use numbat::number::{Number, Operation};
use numbat::prefix::Prefix;
use numbat::quantity::{Quantity, QuantityError};
use numbat::unit::Unit;

fn value_of(number: &Number) -> f64 {
    match number {
        Number::Literal(bits) => f64::from_bits(*bits),
        Number::PrefixFactor(Prefix::Metric(exponent)) => 10.0f64.powi(*exponent as i32),
        Number::PrefixFactor(Prefix::Binary(exponent)) => 2.0f64.powi(10 * (*exponent as i32)),
        Number::Fraction(exponent) => Ratio::new(exponent.numer(), exponent.denom())
            .to_f64()
            .unwrap(),
        Number::Negated(inner) => -value_of(inner),
        Number::Combined(operation, left, right) => {
            let (left, right) = (value_of(left), value_of(right));
            match operation {
                Operation::Add => left + right,
                Operation::Sub => left - right,
                Operation::Mul => left * right,
                Operation::Div => left / right,
                Operation::Pow => left.powf(right),
            }
        }
    }
}

fn new_f64(value: f64, unit: Unit) -> Quantity {
    Quantity::new(Number::from_bits(value.to_bits()), unit)
}

fn from_scalar(value: f64) -> Quantity {
    new_f64(value, Unit::scalar())
}

fn rational(value: f64) -> Option<Rational> {
    Ratio::<i128>::from_f64(value).map(|ratio| Rational::new(*ratio.numer(), *ratio.denom()))
}

fn assert_relative(actual: f64, expected: f64, epsilon: f64) {
    let difference = (actual - expected).abs();
    let largest = actual.abs().max(expected.abs());
    assert!(
        difference <= epsilon || difference <= largest * f64::EPSILON,
        "{} is not close to {}",
        actual,
        expected
    );
}

fn assert_same(actual: Quantity, expected: Quantity) {
    assert_eq!(
        value_of(actual.unsafe_value()),
        value_of(expected.unsafe_value())
    );
    assert_eq!(actual.unit(), expected.unit());
}

#[test]
fn conversion_trivial() {
    let meter = Unit::meter();
    let second = Unit::second();

    let length = new_f64(2.0, meter.clone());

    assert!(length.convert_to(&meter).is_ok());

    assert!(length.convert_to(&second).is_err());
    assert!(length.convert_to(&Unit::scalar()).is_err());
}

#[test]
fn conversion_basic() {
    let meter = Unit::meter();
    let foot = Unit::new_derived(
        "foot",
        "ft",
        Number::from_bits(0.3048f64.to_bits()),
        meter.clone(),
    );

    let length = new_f64(2.0, meter.clone());

    let length_in_foot = length.convert_to(&foot).expect("conversion succeeds");
    assert_eq!(value_of(length_in_foot.unsafe_value()), 2.0 / 0.3048);

    let length_converted_back_to_meter = length_in_foot
        .convert_to(&meter)
        .expect("conversion succeeds");
    assert_relative(
        value_of(length_converted_back_to_meter.unsafe_value()),
        2.0,
        1e-6,
    );
}

#[test]
fn prefixes() {
    let meter = Unit::meter();
    let centimeter = Unit::meter().with_prefix(Prefix::centi());

    let length = new_f64(2.5, meter.clone());
    {
        let length_in_centimeter = length.convert_to(&centimeter).expect("conversion succeeds");
        assert_relative(value_of(length_in_centimeter.unsafe_value()), 250.0, 1e-6);

        let length_converted_back_to_meter = length_in_centimeter
            .convert_to(&meter)
            .expect("conversion succeeds");
        assert_relative(
            value_of(length_converted_back_to_meter.unsafe_value()),
            2.5,
            1e-6,
        );
    }
    {
        let exponent = from_scalar(3.0);
        let exponent_as_scalar = value_of(&exponent.as_scalar().expect("exponent is scalar"));
        let volume = length
            .power(exponent, rational(exponent_as_scalar))
            .expect("exponent is scalar");

        let volume_in_centimeter3 = volume
            .convert_to(&centimeter.powi(3))
            .expect("conversion succeeds");
        assert_relative(
            value_of(volume_in_centimeter3.unsafe_value()),
            15_625_000.0,
            1e-6,
        );
    }
}

#[test]
fn full_simplify_basic() {
    let q = new_f64(2.0, Unit::meter() / Unit::second());
    assert_same(q.full_simplify(), q);
}

#[test]
fn full_simplify_convertible_to_scalar() {
    {
        let q = new_f64(2.0, Unit::meter() / Unit::millimeter());
        assert_same(q.full_simplify(), from_scalar(2000.0));
    }
    {
        let q = new_f64(2.0, Unit::kilometer() / Unit::millimeter());
        assert_same(q.full_simplify(), from_scalar(2000000.0));
    }
    {
        let q = new_f64(2.0, Unit::meter() / Unit::centimeter() * Unit::second());
        assert_same(q.full_simplify(), new_f64(2.0 * 100.0, Unit::second()));
    }
    {
        let q = new_f64(1.0, Unit::kph() / (Unit::kilometer() / Unit::hour()));
        assert_same(q.full_simplify(), from_scalar(1.0));
    }
}

#[test]
fn full_simplify_unit_rearrangements() {
    {
        let q = new_f64(2.0, Unit::meter() * Unit::second() * Unit::meter());
        let expected = new_f64(2.0, Unit::meter().powi(2) * Unit::second());
        assert_same(q.full_simplify(), expected);
    }
    {
        let q = new_f64(2.0, Unit::kilometer() / Unit::millimeter());
        assert_same(q.full_simplify(), from_scalar(2000000.0));
    }
    {
        let q = new_f64(1.0, Unit::meter() * Unit::gram() / Unit::centimeter());
        assert_same(q.full_simplify(), new_f64(100.0, Unit::gram()));
    }
}

#[test]
fn full_simplify_complex() {
    {
        let q = new_f64(5.0, Unit::second() * Unit::millimeter() / Unit::meter());
        let expected = new_f64(0.005, Unit::second());
        assert_same(q.full_simplify(), expected);
    }
    {
        let q = new_f64(
            5.0,
            Unit::bit().with_prefix(Prefix::mega()) / Unit::second() * Unit::hour(),
        );
        let expected = new_f64(18000.0, Unit::bit().with_prefix(Prefix::mega()));
        assert_same(q.full_simplify(), expected);
    }
    {
        let q = new_f64(5.0, Unit::centimeter() * Unit::meter());
        let expected = new_f64(0.05, Unit::meter().powi(2));
        assert_same(q.full_simplify(), expected);
    }
    {
        let q = new_f64(5.0, Unit::meter() * Unit::centimeter());
        let expected = new_f64(0.05, Unit::meter().powi(2));
        assert_same(q.full_simplify(), expected);
    }
    {
        let q = new_f64(1.0, Unit::hertz() / Unit::second());
        let expected = new_f64(1.0, Unit::second().powi(-2));
        assert_same(q.full_simplify(), expected);
    }
}

#[test]
fn si_compliant_pretty_printing() {
    // The value of a quantity is written as a number followed by a space
    // and a unit symbol.
    assert_eq!(
        new_f64(2.21, Unit::kilogram()).to_string(&format!("{}", 2.21)),
        "2.21 kg"
    );
    assert_eq!(
        new_f64(22.0, Unit::kelvin()).to_string(&format!("{}", 22.0)),
        "22 K"
    );

    // The symbol for degrees of arc is placed immediately after the number
    // with no intervening space.
    assert_eq!(
        new_f64(90.0, Unit::degree()).to_string(&format!("{}", 90.0)),
        "90°"
    );

    // A prefix is part of the unit, and its symbol is prepended to the unit
    // symbol without a separator.
    assert_eq!(
        new_f64(1.0, Unit::hertz().with_prefix(Prefix::giga())).to_string(&format!("{}", 1.0)),
        "1 GHz"
    );

    // Symbols for derived units formed by multiplication are joined with a
    // centre dot.
    assert_eq!(
        new_f64(1.0, Unit::newton() * Unit::meter()).to_string(&format!("{}", 1.0)),
        "1 N·m"
    );

    // Symbols for derived units formed by division are joined with a
    // solidus. Only one solidus is used.
    assert_eq!(
        new_f64(1.0, Unit::meter() / Unit::meter()).to_string(&format!("{}", 1.0)),
        "1 m/m"
    );
    assert_eq!(
        new_f64(
            1.0,
            Unit::kilogram() / (Unit::meter() * Unit::second().powi(2))
        )
        .to_string(&format!("{}", 1.0)),
        "1 kg/(m·s²)"
    );
}

#[test]
fn incompatible_conversion_carries_both_units() {
    let length = new_f64(2.0, Unit::meter());
    match length.convert_to(&Unit::second()) {
        Err(QuantityError::IncompatibleUnits(own, target)) => {
            assert!(own.same_factors(&Unit::meter()));
            assert!(target.same_factors(&Unit::second()));
        }
        other => panic!("unexpected result {:?}", other),
    }
}

#[test]
fn zero_converts_to_any_unit() {
    let nothing = new_f64(0.0, Unit::meter());
    let converted = nothing.convert_to(&Unit::second()).expect("zero converts");
    assert_eq!(value_of(converted.unsafe_value()), 0.0);
    assert!(converted.unit().same_factors(&Unit::second()));

    let negative_zero = new_f64(-0.0, Unit::meter());
    assert!(negative_zero.is_zero());
    assert!(negative_zero.convert_to(&Unit::kelvin()).is_ok());
    assert!(!new_f64(1.0e-300, Unit::meter()).is_zero());
}

#[test]
fn conversion_to_an_equal_unit_keeps_the_value() {
    let speed = new_f64(7.5, Unit::meter() / Unit::second());
    let target = Unit::second().powi(-1) * Unit::meter();
    let converted = speed.convert_to(&target).expect("units are equal");
    assert!(matches!(converted.unsafe_value(), Number::Literal(bits) if *bits == 7.5f64.to_bits()));
    assert!(converted.unit().same_factors(&target));
}

#[test]
fn conversion_cancels_common_factors() {
    // The hour is common to both units and takes no part in the conversion.
    let speed = new_f64(1.0, Unit::kilometer() / Unit::hour());
    let converted = speed
        .convert_to(&(Unit::mile() / Unit::hour()))
        .expect("conversion succeeds");
    assert_eq!(
        value_of(converted.unsafe_value()),
        (1.0 / 1.0 * (1.0 * (1000.0f64 * 1.0).powf(1.0))) / (1.0 * (1.0f64 * 1609.344).powf(1.0))
    );
}

#[test]
fn power_without_a_rational_exponent() {
    let length = new_f64(2.0, Unit::meter());
    let result = length.power(from_scalar(f64::NAN), rational(f64::NAN));
    assert!(matches!(result, Err(QuantityError::NonRationalExponent)));
}

#[test]
fn power_with_an_exponent_that_has_a_unit() {
    let length = new_f64(2.0, Unit::meter());
    let result = length.power(new_f64(2.0, Unit::second()), rational(2.0));
    assert!(matches!(
        result,
        Err(QuantityError::IncompatibleUnits(_, _))
    ));
}

#[test]
fn power_raises_value_and_unit() {
    let area = new_f64(3.0, Unit::meter())
        .power(from_scalar(2.0), rational(2.0))
        .expect("exponent is scalar");
    assert_eq!(value_of(area.unsafe_value()), 9.0);
    assert!(area.unit().same_factors(&Unit::meter().powi(2)));
}

#[test]
fn sums_and_differences_are_taken_in_the_first_unit() {
    let meter = new_f64(1.0, Unit::meter());
    let centimeter = new_f64(50.0, Unit::centimeter());
    let sum = (&meter + &centimeter).expect("units are compatible");
    assert_relative(value_of(sum.unsafe_value()), 1.5, 1e-12);
    assert!(sum.unit().same_factors(&Unit::meter()));
    let difference = (&meter - &centimeter).expect("units are compatible");
    assert_relative(value_of(difference.unsafe_value()), 0.5, 1e-12);
    assert!((&meter + &new_f64(1.0, Unit::second())).is_err());
}

#[test]
fn products_and_quotients_combine_values_and_units() {
    let distance = new_f64(6.0, Unit::meter());
    let time = new_f64(2.0, Unit::second());
    let speed = (distance / time).expect("division succeeds");
    assert_eq!(value_of(speed.unsafe_value()), 3.0);
    assert!(speed.unit().same_factors(&(Unit::meter() / Unit::second())));
    let doubled = (speed * from_scalar(2.0)).expect("multiplication succeeds");
    assert_eq!(value_of(doubled.unsafe_value()), 6.0);
    assert_eq!(value_of((-doubled).unsafe_value()), -6.0);
}

#[test]
fn quantity_in_base_units() {
    let distance = new_f64(2.0, Unit::mile()).to_base_unit_representation();
    assert_eq!(value_of(distance.unsafe_value()), 2.0 * 1609.344);
    assert!(distance.unit().same_factors(&Unit::meter()));
}

#[test]
fn full_simplify_picks_the_base_unit_of_a_run() {
    // The run of meter and mile is replaced by the base unit meter.
    let q = new_f64(1.0, Unit::mile() * Unit::meter());
    let simplified = q.full_simplify();
    assert!(simplified.unit().same_factors(&Unit::meter().powi(2)));
    assert_relative(value_of(simplified.unsafe_value()), 1609.344, 1e-9);
}

#[test]
fn full_simplify_twice_gives_the_same_unit() {
    let q = new_f64(1.0, Unit::meter() * Unit::gram() / Unit::centimeter());
    let once = q.full_simplify();
    let once = new_f64(value_of(once.unsafe_value()), once.unit().clone());
    let twice = once.full_simplify();
    assert_same(twice, once);
}

#[test]
fn conversion_is_refused_beyond_the_range_of_the_exponents() {
    let heavy = Unit::meter().power(Rational::new(i128::MAX / 4, 3));
    let quantity = new_f64(1.0, heavy);
    assert!(quantity.try_convert_to(&Unit::second()).is_none());
    let light = new_f64(1.0, Unit::kilometer());
    let converted = light
        .try_convert_to(&Unit::meter())
        .expect("the conversion stays in range")
        .expect("units are compatible");
    assert_eq!(value_of(converted.unsafe_value()), 1000.0);
    assert!(matches!(
        light.try_convert_to(&Unit::second()),
        Some(Err(QuantityError::IncompatibleUnits(_, _)))
    ));
}
