use num_rational::Ratio;
use num_traits::ToPrimitive;
use numbat::arithmetic::Rational;
use numbat::number::{Number, Operation};
use numbat::prefix::Prefix;
use numbat::unit::{Unit, UnitFactor, UnitIdentifier, UnitKind};

fn evaluate(number: &Number) -> f64 {
    match number {
        Number::Literal(bits) => f64::from_bits(*bits),
        Number::PrefixFactor(Prefix::Metric(exponent)) => 10.0f64.powi(*exponent as i32),
        Number::PrefixFactor(Prefix::Binary(exponent)) => 2.0f64.powi(10 * (*exponent as i32)),
        Number::Fraction(exponent) => Ratio::new(exponent.numer(), exponent.denom())
            .to_f64()
            .unwrap(),
        Number::Negated(inner) => -evaluate(inner),
        Number::Combined(operation, left, right) => {
            let (left, right) = (evaluate(left), evaluate(right));
            match operation {
                Operation::Add => left + right,
                Operation::Sub => left - right,
                Operation::Mul => left * right,
                Operation::Div => left / right,
                Operation::Pow => left.powf(right),
            }
        }
    }
}

fn assert_close(actual: f64, expected: f64, epsilon: f64) {
    let difference = (actual - expected).abs();
    let largest = actual.abs().max(expected.abs());
    assert!(
        difference <= epsilon || difference <= largest * f64::EPSILON,
        "{} is not close to {}",
        actual,
        expected
    );
}

#[test]
fn division() {
    let meter_per_second = Unit::from_factors(vec![
        UnitFactor {
            prefix: Prefix::none(),
            unit_id: UnitIdentifier {
                name: "meter".into(),
                canonical_name: "m".into(),
                kind: UnitKind::Base,
            },
            exponent: Rational::from_integer(1),
        },
        UnitFactor {
            prefix: Prefix::none(),
            unit_id: UnitIdentifier {
                name: "second".into(),
                canonical_name: "s".into(),
                kind: UnitKind::Base,
            },
            exponent: Rational::from_integer(-1),
        },
    ]);

    assert_eq!(Unit::meter() / Unit::second(), meter_per_second);
}

#[test]
fn canonicalization() {
    let assert_same_representation = |lhs: Unit, rhs: Unit| {
        // The factors are compared one by one, in their order: equality of
        // units would bring both sides into canonical form first.
        assert_eq!(lhs.into_factors(), rhs.into_factors());
    };

    {
        let unit = Unit::meter() * Unit::second() * Unit::meter() * Unit::second().powi(2);
        assert_same_representation(
            unit.canonicalized(),
            Unit::meter().powi(2) * Unit::second().powi(3),
        );
    }
    {
        let unit = Unit::meter() * Unit::second() * Unit::meter() * Unit::hertz();
        assert_same_representation(
            unit.canonicalized(),
            Unit::meter().powi(2) * Unit::second() * Unit::hertz(),
        );
    }
    {
        let unit = Unit::meter() * Unit::second() * Unit::millimeter();
        assert_same_representation(
            unit.canonicalized(),
            Unit::millimeter() * Unit::meter() * Unit::second(),
        );
    }
    {
        let unit = Unit::meter() * Unit::second() * Unit::meter() * Unit::second().powi(-1);
        assert_same_representation(unit.canonicalized(), Unit::meter().powi(2));
    }
    {
        let unit =
            Unit::meter().powi(-1) * Unit::second() * Unit::meter() * Unit::second().powi(-1);
        assert_same_representation(unit.canonicalized(), Unit::scalar());
    }
}

#[test]
fn with_prefix() {
    let millimeter = Unit::meter().with_prefix(Prefix::milli());
    assert_eq!(
        millimeter,
        Unit::from_factors(vec![UnitFactor {
            prefix: Prefix::Metric(-3),
            unit_id: UnitIdentifier {
                name: "meter".into(),
                canonical_name: "m".into(),
                kind: UnitKind::Base,
            },
            exponent: Rational::from_integer(1),
        }])
    );
}

#[test]
fn to_base_unit_representation() {
    let mile_per_hour = Unit::mile() / Unit::hour();
    let (base_unit_representation, conversion_factor) =
        mile_per_hour.to_base_unit_representation();
    assert_eq!(base_unit_representation, Unit::meter() / Unit::second());
    assert_close(evaluate(&conversion_factor), 1609.344 / 3600.0, 1e-6);
}

#[test]
fn to_string() {
    assert_eq!(Unit::meter().to_string(), "m");
    assert_eq!(Unit::meter().powi(2).to_string(), "m²");
    assert_eq!(Unit::meter().powi(3).to_string(), "m³");
    assert_eq!(Unit::meter().powi(4).to_string(), "m⁴");
    assert_eq!(Unit::meter().powi(8).to_string(), "m^8");

    assert_eq!(Unit::meter().powi(-1).to_string(), "m⁻¹");
    assert_eq!(Unit::meter().powi(-4).to_string(), "m⁻⁴");
    assert_eq!(Unit::meter().powi(-8).to_string(), "m^(-8)");

    assert_eq!(
        (Unit::meter() * Unit::meter() * Unit::second())
            .canonicalized()
            .to_string(),
        "m²·s"
    );
    assert_eq!(
        (Unit::meter() * Unit::second() * Unit::second())
            .canonicalized()
            .to_string(),
        "m·s²"
    );

    assert_eq!(
        (Unit::meter() / Unit::second()).canonicalized().to_string(),
        "m/s"
    );
    assert_eq!(
        (Unit::meter() / (Unit::second() * Unit::second()))
            .canonicalized()
            .to_string(),
        "m/s²"
    );

    assert_eq!(
        (Unit::kilometer() * Unit::second() * Unit::second())
            .canonicalized()
            .to_string(),
        "km·s²"
    );
    assert_eq!(
        (Unit::meter() / (Unit::second() * Unit::second() * Unit::kilogram()))
            .canonicalized()
            .to_string(),
        "m/(kg·s²)"
    );
    assert_eq!(
        (Unit::meter() * Unit::second().with_prefix(Prefix::milli()) * Unit::second())
            .canonicalized()
            .to_string(),
        "m·ms·s"
    );

    assert_eq!(Unit::meter().with_prefix(Prefix::micro()).to_string(), "µm");
    assert_eq!(Unit::meter().with_prefix(Prefix::milli()).to_string(), "mm");
    assert_eq!(Unit::meter().with_prefix(Prefix::centi()).to_string(), "cm");
    assert_eq!(Unit::meter().with_prefix(Prefix::deci()).to_string(), "dm");
    assert_eq!(Unit::meter().with_prefix(Prefix::hecto()).to_string(), "hm");
    assert_eq!(Unit::meter().with_prefix(Prefix::kilo()).to_string(), "km");
    assert_eq!(Unit::second().with_prefix(Prefix::mega()).to_string(), "Ms");
    assert_eq!(Unit::second().with_prefix(Prefix::giga()).to_string(), "Gs");
    assert_eq!(Unit::second().with_prefix(Prefix::tera()).to_string(), "Ts");
    assert_eq!(
        Unit::second()
            .with_prefix(Prefix::tera())
            .powi(2)
            .to_string(),
        "Ts²"
    );
    assert_eq!(Unit::byte().with_prefix(Prefix::kibi()).to_string(), "KiB");
    assert_eq!(Unit::byte().with_prefix(Prefix::mebi()).to_string(), "MiB");
    assert_eq!(Unit::byte().with_prefix(Prefix::gibi()).to_string(), "GiB");
    assert_eq!(
        Unit::byte().with_prefix(Prefix::gibi()).powi(2).to_string(),
        "GiB²"
    );
}
