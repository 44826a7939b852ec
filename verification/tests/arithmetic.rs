use numbat::arithmetic::Rational;
use numbat::format::{decimal_string, pretty_exponent};
use numbat::number::Number;
use numbat::order::{key_precedes, key_same, text_precedes, text_same};
use numbat::prefix::Prefix;
use numbat::unit::{Measure, Unit};

fn parts(r: Rational) -> (i128, i128) {
    (r.numer(), r.denom())
}

#[test]
fn fractions_are_reduced() {
    assert_eq!(parts(Rational::new(2, 4)), (1, 2));
    assert_eq!(parts(Rational::new(3, -6)), (-1, 2));
    assert_eq!(parts(Rational::new(0, 5)), (0, 1));
    assert_eq!(parts(Rational::from_integer(7)), (7, 1));
    assert_eq!(parts(Rational::zero()), (0, 1));
}

#[test]
fn fractions_add_multiply_and_divide() {
    let half = Rational::new(1, 2);
    let third = Rational::new(1, 3);
    assert_eq!(parts(half.add(&third)), (5, 6));
    assert_eq!(parts(Rational::new(2, 3).mul(&Rational::new(3, 4))), (1, 2));
    assert_eq!(parts(half.div(&Rational::new(1, 4))), (2, 1));
    assert_eq!(parts(half.div(&Rational::new(-1, 4))), (-2, 1));
    assert_eq!(parts(half.neg()), (-1, 2));
}

#[test]
fn fractions_are_ordered_by_value() {
    let half = Rational::new(1, 2);
    let third = Rational::new(1, 3);
    assert!(third.lt(&half));
    assert!(!half.lt(&third));
    assert!(!half.lt(&half));
    assert!(half.same(&Rational::new(2, 4)));
    assert!(!half.same(&third));
    assert_eq!(parts(half.min(third)), (1, 3));
    assert_eq!(parts(half.max(third)), (1, 2));
    assert!(Rational::new(-1, 2).is_negative());
    assert!(half.is_positive());
    assert!(Rational::zero().is_zero());
    assert!(Rational::from_integer(3).is_integer());
    assert!(!half.is_integer());
}

#[test]
fn cost_counts_the_digits_of_the_height() {
    assert_eq!(Rational::zero().bits(), 1);
    assert_eq!(Rational::from_integer(1).bits(), 2);
    assert_eq!(Rational::from_integer(-2).bits(), 2);
    assert_eq!(Rational::new(1, 3).bits(), 3);
    assert_eq!(Rational::from_integer(i128::MAX - 1).bits(), 127);
    assert!(Rational::new(6, 4).is_valid());
}

#[test]
fn text_is_ordered_by_code_point() {
    assert!(text_precedes("gram", "meter"));
    assert!(!text_precedes("meter", "gram"));
    assert!(text_precedes("met", "meter"));
    assert!(!text_precedes("meter", "meter"));
    assert!(text_precedes("Z", "a"));
    assert!(text_precedes("z", "µ"));
    assert!(text_same("°", "°"));
    assert!(!text_same("m", "mm"));
}

#[test]
fn keys_are_ordered_entry_by_entry() {
    let meter = vec![("meter".to_string(), Rational::from_integer(1))];
    let square = vec![("meter".to_string(), Rational::from_integer(2))];
    let speed = vec![
        ("meter".to_string(), Rational::from_integer(1)),
        ("second".to_string(), Rational::from_integer(-1)),
    ];
    assert!(key_precedes(&meter, &square));
    assert!(key_precedes(&meter, &speed));
    assert!(key_precedes(&speed, &square));
    assert!(!key_precedes(&speed, &meter));
    assert!(key_precedes(&vec![], &meter));
    assert!(key_same(&speed, &speed));
    assert!(!key_same(&meter, &square));
}

#[test]
fn sort_key_of_a_base_unit_is_its_name() {
    let meter = Unit::meter().into_factors();
    let key = meter[0].unit_id.sort_key();
    assert_eq!(key.len(), 1);
    assert_eq!(key[0].0, "meter");
    assert_eq!(parts(key[0].1), (1, 1));
}

#[test]
fn sort_key_has_a_positive_first_exponent() {
    let hertz = Unit::hertz().into_factors();
    let key = hertz[0].unit_id.sort_key();
    assert_eq!(key.len(), 1);
    assert_eq!(key[0].0, "second");
    assert_eq!(parts(key[0].1), (1, 1));
}

#[test]
fn sort_key_lists_base_units_in_canonical_order() {
    let newton = Unit::newton().into_factors();
    let key = newton[0].unit_id.sort_key();
    let names: Vec<&str> = key.iter().map(|entry| entry.0.as_str()).collect();
    let exponents: Vec<(i128, i128)> = key.iter().map(|entry| parts(entry.1)).collect();
    assert_eq!(names, vec!["gram", "meter", "second"]);
    assert_eq!(exponents, vec![(1, 1), (1, 1), (-2, 1)]);
}

#[test]
fn sort_key_is_free_of_common_divisors() {
    let base = Unit::meter().powi(4) * Unit::gram().powi(2);
    let unit = Unit::new_derived("x", "x", Number::one(), base).into_factors();
    let key = unit[0].unit_id.sort_key();
    let exponents: Vec<(i128, i128)> = key.iter().map(|entry| parts(entry.1)).collect();
    assert_eq!(key[0].0, "gram");
    assert_eq!(key[1].0, "meter");
    assert_eq!(exponents, vec![(1, 1), (2, 1)]);
}

#[test]
fn sort_key_has_whole_exponents() {
    let base = Unit::meter().power(Rational::new(1, 2)) * Unit::second().power(Rational::new(-1, 3));
    let unit = Unit::new_derived("y", "y", Number::one(), base).into_factors();
    let key = unit[0].unit_id.sort_key();
    let exponents: Vec<(i128, i128)> = key.iter().map(|entry| parts(entry.1)).collect();
    assert_eq!(exponents, vec![(3, 1), (-2, 1)]);
}

#[test]
fn sort_key_of_a_unit_without_base_units_is_empty() {
    let unit = Unit::new_derived("percent", "%", Number::one(), Unit::scalar()).into_factors();
    assert!(unit[0].unit_id.sort_key().is_empty());
}

#[test]
fn exponents_are_written_as_superscripts_or_with_a_caret() {
    assert_eq!(pretty_exponent(&Rational::from_integer(1)), "");
    assert_eq!(pretty_exponent(&Rational::from_integer(0)), "⁰");
    assert_eq!(pretty_exponent(&Rational::from_integer(5)), "⁵");
    assert_eq!(pretty_exponent(&Rational::from_integer(-5)), "⁻⁵");
    assert_eq!(pretty_exponent(&Rational::from_integer(6)), "^6");
    assert_eq!(pretty_exponent(&Rational::from_integer(-6)), "^(-6)");
    assert_eq!(pretty_exponent(&Rational::from_integer(120)), "^120");
    assert_eq!(pretty_exponent(&Rational::new(1, 2)), "^1/2");
    assert_eq!(pretty_exponent(&Rational::new(-3, 2)), "^(-3/2)");
    assert_eq!(decimal_string(0), "0");
    assert_eq!(decimal_string(9075), "9075");
}

#[test]
fn prefixes_have_symbols_and_an_order() {
    assert_eq!(Prefix::none().as_string_short(), "");
    assert_eq!(Prefix::kilo().as_string_short(), "k");
    assert_eq!(Prefix::micro().as_string_short(), "µ");
    assert_eq!(Prefix::deca().as_string_short(), "da");
    assert_eq!(Prefix::kibi().as_string_short(), "Ki");
    assert_eq!(Prefix::yobi().as_string_short(), "Yi");
    assert_eq!(Prefix::Metric(4).as_string_short(), "");
    assert_eq!(Prefix::none().as_string_long(), "");
    assert_eq!(Prefix::milli().as_string_long(), "milli");
    assert_eq!(Prefix::gibi().as_string_long(), "gibi");
    assert!(Prefix::milli().lt(&Prefix::none()));
    assert!(Prefix::kilo().lt(&Prefix::kibi()));
    assert!(!Prefix::kibi().lt(&Prefix::yotta()));
    assert!(matches!(Prefix::kilo().factor(), Number::PrefixFactor(Prefix::Metric(3))));
}

#[test]
fn units_are_weighed_by_cost_and_by_base_units() {
    let force = Unit::kilogram() * Unit::meter() / Unit::second().powi(2);
    assert!(force.is_valid());
    assert_eq!(force.capped_weight(Measure::Cost), 6);
    assert_eq!(force.capped_weight(Measure::Base), 12);
    assert_eq!(Unit::newton().capped_weight(Measure::Cost), 2);
    assert_eq!(Unit::newton().capped_weight(Measure::Base), 12);
    assert!(force.weighs_at_most(Measure::Cost, 6));
    assert!(!force.weighs_at_most(Measure::Cost, 5));
    assert!((Unit::gram() * Unit::meter()).is_base_expression());
    assert!(!Unit::newton().is_base_expression());
    assert!(force.can_be_raised(&Rational::from_integer(3)));
    let heavy = Unit::meter().power(Rational::new(i128::MAX / 4, 3));
    assert_eq!(heavy.capped_weight(Measure::Cost), 126);
    assert!(!heavy.can_be_raised(&Rational::from_integer(3)));
}

#[test]
fn units_that_are_powers_of_one_another_share_a_sort_key() {
    let key_of = |base: Unit| {
        let unit = Unit::new_derived("u", "u", Number::one(), base).into_factors();
        unit[0].unit_id.sort_key()
    };
    let one = key_of(Unit::gram() * Unit::meter().powi(2));
    let squared = key_of(Unit::gram().powi(2) * Unit::meter().powi(4));
    let other = key_of(Unit::gram() * Unit::meter().powi(3));
    let inverse = key_of(Unit::gram().powi(-1) * Unit::meter().powi(-2));
    assert!(key_same(&one, &squared));
    assert!(key_same(&one, &inverse));
    assert!(!key_same(&one, &other));
    assert!(key_precedes(&one, &other));
}
