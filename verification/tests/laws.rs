use num_rational::Ratio;
use num_traits::ToPrimitive;
use numbat::number::{Number, Operation};
use numbat::prefix::Prefix;
use numbat::quantity::Quantity;
use numbat::unit::Unit;

fn number(term: &Number) -> f64 {
    match term {
        Number::Literal(bits) => f64::from_bits(*bits),
        Number::PrefixFactor(Prefix::Metric(exponent)) => 10.0f64.powi(*exponent as i32),
        Number::PrefixFactor(Prefix::Binary(exponent)) => 2.0f64.powi(10 * (*exponent as i32)),
        Number::Fraction(exponent) => Ratio::new(exponent.numer(), exponent.denom())
            .to_f64()
            .unwrap(),
        Number::Negated(inner) => -number(inner),
        Number::Combined(operation, left, right) => {
            let (left, right) = (number(left), number(right));
            match operation {
                Operation::Add => left + right,
                Operation::Sub => left - right,
                Operation::Mul => left * right,
                Operation::Div => left / right,
                Operation::Pow => left.powf(right),
            }
        }
    }
}

fn speed() -> Unit {
    Unit::kilometer() / Unit::hour()
}

fn force() -> Unit {
    Unit::kilogram() * Unit::meter() / Unit::second().powi(2)
}

#[test]
fn multiplication_is_commutative_up_to_canonical_form() {
    assert_eq!(speed() * force(), force() * speed());
    assert!(!(speed() * force()).same_factors(&(force() * speed())));
}

#[test]
fn multiplication_is_associative() {
    let left = (speed() * force()) * Unit::kelvin();
    let right = speed() * (force() * Unit::kelvin());
    assert!(left.same_factors(&right));
    assert_eq!(left, right);
}

#[test]
fn units_with_one_sort_key_do_not_commute() {
    // Meter and mile have the same sort key, so the order in which they
    // are given decides the order in the canonical form.
    let one = Unit::meter() * Unit::mile();
    let other = Unit::mile() * Unit::meter();
    assert_ne!(one, other);
    let quotient = one.clone() / one;
    assert!(!quotient.equals(&Unit::scalar()));
}

#[test]
fn scalar_is_neutral_and_a_unit_divides_itself_to_scalar() {
    assert!((force() * Unit::scalar()).same_factors(&force()));
    assert!((Unit::scalar() * force()).same_factors(&force()));
    assert_eq!(force() / force(), Unit::scalar());
    assert!((force() / force()).canonicalized().same_factors(&Unit::scalar()));
}

#[test]
fn power_of_a_power_multiplies_the_exponents() {
    let twice = force().powi(2).powi(-3);
    let once = force().powi(-6);
    assert!(twice.same_factors(&once));
    assert_eq!(twice, once);
}

#[test]
fn canonical_form_is_idempotent_and_independent_of_order() {
    let unit = Unit::second() * Unit::meter() * Unit::gram() / Unit::meter().powi(3);
    let canonical = unit.canonicalized();
    assert!(canonical.canonicalized().same_factors(&canonical));
    let reordered = Unit::meter().powi(-3) * Unit::gram() * Unit::meter() * Unit::second();
    assert!(reordered.canonicalized().same_factors(&canonical));
    assert_eq!(canonical.to_string(), "g·s/m²");
}

#[test]
fn base_representation_does_not_depend_on_the_order_of_factors() {
    let one = Unit::mile() * Unit::newton() / Unit::hour();
    let other = Unit::hour().powi(-1) * Unit::mile() * Unit::newton();
    let (base_one, factor_one) = one.to_base_unit_representation();
    let (base_other, factor_other) = other.to_base_unit_representation();
    assert!(base_one.same_factors(&base_other));
    assert_eq!(base_one.to_string(), "g·m²/s³");
    let (a, b) = (number(&factor_one), number(&factor_other));
    assert!((a - b).abs() <= 1e-9 * a.abs());
}

#[test]
fn conversion_round_trip_gives_the_value_back() {
    let value = 12.5;
    let quantity = Quantity::new(Number::from_bits(f64::to_bits(value)), speed());
    let target = Unit::mile() / Unit::second();
    let there = quantity.convert_to(&target).expect("units are compatible");
    let there = Quantity::new(
        Number::from_bits(number(there.unsafe_value()).to_bits()),
        target,
    );
    let back = there.convert_to(&speed()).expect("units are compatible");
    assert!((number(back.unsafe_value()) - value).abs() <= 1e-9);
}

#[test]
fn simplified_quantity_converts_back_to_its_unit() {
    let unit = Unit::meter() * Unit::gram() / Unit::centimeter();
    let quantity = Quantity::new(Number::from_bits(3.0f64.to_bits()), unit.clone());
    let simplified = quantity.full_simplify();
    let simplified = Quantity::new(
        Number::from_bits(number(simplified.unsafe_value()).to_bits()),
        simplified.unit().clone(),
    );
    let back = simplified.convert_to(&unit).expect("units are compatible");
    assert!((number(back.unsafe_value()) - 3.0).abs() <= 1e-9);
}

#[test]
fn simplification_is_refused_where_a_run_does_not_convert() {
    // Two base units of one name are one run, and do not convert.
    let unit = Unit::new_base("meter", "m") * Unit::new_base("meter", "M").powi(-2);
    let quantity = Quantity::new(Number::one(), unit);
    assert!(quantity.is_valid());
    assert!(quantity.try_full_simplify().is_none());
    let fine = Quantity::new(Number::one(), speed());
    assert!(fine.try_full_simplify().is_some());
}

#[test]
fn simplification_takes_runs_of_one_sort_key() {
    // Three runs: gram, meter with mile and millimeter, second with hour.
    let unit =
        Unit::hour() * Unit::millimeter() * Unit::gram() * Unit::mile() / Unit::second().powi(3)
            * Unit::meter();
    let quantity = Quantity::new(Number::one(), unit);
    let simplified = quantity.full_simplify();
    let expected = Unit::gram() * Unit::meter().powi(3) * Unit::second().powi(-2);
    assert!(simplified.unit().equals(&expected));
    let value = number(simplified.unsafe_value());
    assert!((value - 3600.0 * 1.609344).abs() <= 1e-9 * value);
}
