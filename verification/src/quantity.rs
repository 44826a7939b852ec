//! Quantities: a scalar magnitude paired with a unit.

use crate::arithmetic::{Exponent, COST_LIMIT};
use crate::canonical::{base_representation, conversion_product};
use crate::key::sort_keys;
use crate::number::{Number, NumberView};
use crate::product::{canonical_form, same_merge_key};
use crate::unit::{
    can_raise, inverted, lemma_view_weight, raised, view_weight, FactorView, Measure, Unit,
    UnitFactor,
};
use vstd::prelude::*;

verus! {

/// Why an operation on quantities failed.
#[derive(Debug)]
pub enum QuantityError {
    /// The first unit cannot be converted to the second.
    IncompatibleUnits(Unit, Unit),
    /// An exponent is not a ratio of integers.
    NonRationalExponent,
}

/// A magnitude with its unit.
#[derive(Debug)]
pub struct Quantity {
    value: Number,
    unit: Unit,
}

/// What a [`Quantity`] denotes.
pub struct QuantityView {
    pub value: NumberView,
    pub unit: Seq<FactorView>,
}

impl Clone for QuantityError {
    fn clone(&self) -> (error: Self)
        ensures
            match (*self, error) {
                (
                    QuantityError::IncompatibleUnits(own, target),
                    QuantityError::IncompatibleUnits(other_own, other_target),
                ) => other_own.model() == own.model() && other_target.model() == target.model(),
                (QuantityError::NonRationalExponent, QuantityError::NonRationalExponent) => true,
                _ => false,
            },
    {
        match self {
            QuantityError::IncompatibleUnits(own, target) => QuantityError::IncompatibleUnits(
                own.duplicate(),
                target.duplicate(),
            ),
            QuantityError::NonRationalExponent => QuantityError::NonRationalExponent,
        }
    }
}

impl Clone for Quantity {
    fn clone(&self) -> (q: Self)
        ensures
            q@ == self@,
            q.spec_value() == self.spec_value(),
            q.spec_unit().model() == self.spec_unit().model(),
    {
        Quantity { value: self.value.duplicate(), unit: self.unit.duplicate() }
    }
}

impl View for Quantity {
    type V = QuantityView;

    closed spec fn view(&self) -> QuantityView {
        QuantityView { value: self.value@, unit: self.unit@ }
    }
}

/// The first factor of `s` with the merge key of `f`.
pub open spec fn find_same_key(s: Seq<FactorView>, f: FactorView) -> Option<FactorView>
    decreases s.len(),
{
    if s.len() == 0 {
        None
    } else if same_merge_key(s.first(), f) {
        Some(s.first())
    } else {
        find_same_key(s.drop_first(), f)
    }
}

/// The factor `f` with the given exponent.
pub open spec fn with_exponent(f: FactorView, exponent: real) -> FactorView {
    FactorView { unit_id: f.unit_id, prefix: f.prefix, exponent }
}

/// What `f` and the factor of `target` with its merge key have in common:
/// where both exponents have the same sign, the one nearer to zero.
pub open spec fn common_part(f: FactorView, target: Seq<FactorView>) -> Option<FactorView> {
    match find_same_key(target, f) {
        Some(other) => if f.exponent > 0real && other.exponent > 0real {
            Some(
                with_exponent(
                    f,
                    if other.exponent < f.exponent {
                        other.exponent
                    } else {
                        f.exponent
                    },
                ),
            )
        } else if f.exponent < 0real && other.exponent < 0real {
            Some(
                with_exponent(
                    f,
                    if other.exponent < f.exponent {
                        f.exponent
                    } else {
                        other.exponent
                    },
                ),
            )
        } else {
            None
        },
        None => None,
    }
}

/// The factors that two units in canonical form have in common.
pub open spec fn common_factors(own: Seq<FactorView>, target: Seq<FactorView>) -> Seq<FactorView>
    decreases own.len(),
{
    if own.len() == 0 {
        own
    } else {
        match common_part(own.last(), target) {
            Some(part) => common_factors(own.drop_last(), target).push(part),
            None => common_factors(own.drop_last(), target),
        }
    }
}

/// The canonical form of a unit, with identifiers ordered by their sort keys.
pub open spec fn canonical(s: Seq<FactorView>) -> Seq<FactorView> {
    canonical_form(sort_keys(), s)
}

/// The factors that two units have in common, once both are canonical.
pub open spec fn shared(own: Seq<FactorView>, target: Seq<FactorView>) -> Seq<FactorView> {
    common_factors(canonical(own), canonical(target))
}

/// The unit without what it has in common with the other, in canonical form.
pub open spec fn reduced(unit: Seq<FactorView>, common: Seq<FactorView>) -> Seq<FactorView> {
    canonical(unit + inverted(common))
}

/// Whether a quantity in unit `own` can be expressed in unit `target`: the
/// units are the same up to canonical form, or the value is a literal zero,
/// or both units, without what they have in common, are the same in base
/// units up to canonical form.
pub open spec fn convertible(
    value: NumberView,
    own: Seq<FactorView>,
    target: Seq<FactorView>,
) -> bool {
    ||| canonical(own) == canonical(target)
    ||| value.is_zero()
    ||| canonical(base_representation(reduced(own, shared(own, target)))) == canonical(
        base_representation(reduced(target, shared(own, target))),
    )
}

/// The value of a quantity in unit `own` expressed in unit `target`: the
/// value itself where the units are the same or it is zero; else the value
/// over one, times what one of the reduced own unit is in base units, over
/// what one of the reduced target unit is.
pub open spec fn converted_value(
    value: NumberView,
    own: Seq<FactorView>,
    target: Seq<FactorView>,
) -> NumberView {
    if canonical(own) == canonical(target) || value.is_zero() {
        value
    } else {
        value.over(NumberView::one()).times(
            conversion_product(reduced(own, shared(own, target))),
        ).over(conversion_product(reduced(target, shared(own, target))))
    }
}

/// Whether, by the measure `m`, each of the units together with what both
/// have in common weighs at most the limit.
pub open spec fn reduction_fits(m: Measure, own: Seq<FactorView>, target: Seq<FactorView>) -> bool {
    &&& view_weight(m, own) + view_weight(m, shared(own, target)) <= COST_LIMIT
    &&& view_weight(m, target) + view_weight(m, shared(own, target)) <= COST_LIMIT
}

/// Whether a conversion stays within the range of the exponents' integers:
/// both units are light enough to be brought into canonical form, and
/// unless that settles the conversion, each unit together with what both
/// have in common is light enough to be reduced and written in base units.
pub open spec fn conversion_fits(
    value: NumberView,
    own: Seq<FactorView>,
    target: Seq<FactorView>,
) -> bool {
    &&& view_weight(Measure::Cost, own) <= COST_LIMIT
    &&& view_weight(Measure::Cost, target) <= COST_LIMIT
    &&& !(canonical(own) == canonical(target) || value.is_zero()) ==> {
        &&& reduction_fits(Measure::Cost, own, target)
        &&& reduction_fits(Measure::Base, own, target)
    }
}

/// What a conversion gives: the quantity in the target unit where the
/// units are compatible, else the error with both units.
pub open spec fn is_conversion(
    result: Result<Quantity, QuantityError>,
    q: QuantityView,
    target: Seq<FactorView>,
) -> bool {
    &&& result is Ok <==> convertible(q.value, q.unit, target)
    &&& match result {
        Ok(converted) => converted@ == (QuantityView {
            value: converted_value(q.value, q.unit, target),
            unit: target,
        }) && converted.wf(),
        Err(QuantityError::IncompatibleUnits(own, other)) => own@ == q.unit && other@ == target,
        Err(QuantityError::NonRationalExponent) => false,
    }
}

/// The place of the first factor of `unit` with the merge key of `f`.
fn find_factor(unit: &Unit, f: &UnitFactor) -> (r: Option<usize>)
    requires
        unit.wf(),
        f.wf(),
    ensures
        match r {
            Some(j) => j < unit@.len() && find_same_key(unit@, f@) == Some(unit@[j as int])
                && same_merge_key(unit@[j as int], f@),
            None => find_same_key(unit@, f@) is None,
        },
{
    let mut j: usize = 0;
    assert(unit@.skip(0) =~= unit@);
    while j < unit.factors.len()
        invariant
            j <= unit.factors.len(),
            unit.wf(),
            f.wf(),
            find_same_key(unit@, f@) == find_same_key(unit@.skip(j as int), f@),
        decreases unit.factors.len() - j,
    {
        let ghost rest = unit@.skip(j as int);
        assert(rest.first() == unit@[j as int]);
        assert(rest.drop_first() =~= unit@.skip(j + 1));
        assert(unit.model()[j as int].wf());
        let other = &unit.factors[j];
        if f.prefix == other.prefix && other.unit_id.same(&f.unit_id) {
            return Some(j);
        }
        j += 1;
    }
    None
}

/// The factors that two units in canonical form have in common.
#[verifier::rlimit(40)]
fn common_unit_factors(own: &Unit, target: &Unit) -> (common: Unit)
    requires
        own.wf(),
        target.wf(),
    ensures
        common@ == common_factors(own@, target@),
        common.wf(),
{
    let mut common = Unit::unity();
    let mut i: usize = 0;
    assert(own@.take(0) =~= Seq::empty());
    while i < own.factors.len()
        invariant
            i <= own.factors.len(),
            own.wf(),
            target.wf(),
            common.wf(),
            common@ == common_factors(own@.take(i as int), target@),
        decreases own.factors.len() - i,
    {
        proof {
            assert(own.model()[i as int].wf());
            assert(own@.take(i + 1).drop_last() =~= own@.take(i as int));
            assert(own@.take(i + 1).last() == own@[i as int]);
        }
        let factor = &own.factors[i];
        let mut part: Option<Exponent> = None;
        if let Some(j) = find_factor(target, factor) {
            assert(target.model()[j as int].wf());
            let other = &target.factors[j];
            if factor.exponent.is_positive() && other.exponent.is_positive() {
                part = Some(factor.exponent.min(other.exponent));
            } else if factor.exponent.is_negative() && other.exponent.is_negative() {
                part = Some(factor.exponent.max(other.exponent));
            }
        }
        if let Some(exponent) = part {
            let shared = UnitFactor {
                unit_id: factor.unit_id.duplicate(),
                prefix: factor.prefix,
                exponent,
            };
            proof {
                assert(shared@ == with_exponent(own@[i as int], exponent@));
                assert(common@ + seq![shared@] =~= common@.push(shared@));
            }
            common = common.multiply(Unit::from_factor(shared));
        }
        i += 1;
    }
    assert(own@.take(own.factors.len() as int) =~= own@);
    common
}

impl Quantity {
    /// The unit.
    pub closed spec fn spec_unit(&self) -> Unit {
        self.unit
    }

    /// The value.
    pub closed spec fn spec_value(&self) -> Number {
        self.value
    }

    /// Value and unit are well formed.
    pub open spec fn wf(&self) -> bool {
        self.spec_value().wf() && self.spec_unit().wf()
    }

    /// The quantity of the given value and unit.
    pub fn new(value: Number, unit: Unit) -> (q: Self)
        ensures
            q@ == (QuantityView { value: value@, unit: unit@ }),
            q.spec_value() == value,
            q.spec_unit() == unit,
    {
        Quantity { value, unit }
    }

    /// One of the given unit.
    pub fn from_unit(unit: Unit) -> (q: Self)
        ensures
            q@ == (QuantityView { value: NumberView::one(), unit: unit@ }),
            q.spec_unit() == unit,
            q.spec_value().wf(),
    {
        Quantity { value: Number::one(), unit }
    }

    /// The unit.
    pub fn unit(&self) -> (unit: &Unit)
        ensures
            *unit == self.spec_unit(),
            unit@ == self@.unit,
    {
        &self.unit
    }

    /// The value, whatever the unit.
    pub fn unsafe_value(&self) -> (value: &Number)
        ensures
            *value == self.spec_value(),
            value@ == self@.value,
    {
        &self.value
    }

    /// Whether the value is a literal zero.
    pub fn is_zero(&self) -> (z: bool)
        ensures
            z == self@.value.is_zero(),
    {
        self.value.is_zero()
    }

    /// The quantity in base units.
    pub fn to_base_unit_representation(&self) -> (q: Quantity)
        requires
            self.wf(),
            self.spec_unit().base_weight() <= COST_LIMIT,
        ensures
            q@ == (QuantityView {
                value: self@.value.times(conversion_product(self@.unit)),
                unit: base_representation(self@.unit),
            }),
            q.wf(),
    {
        let (unit, factor) = self.unit.to_base_unit_representation();
        Quantity::new(self.value.duplicate().times(factor), unit)
    }

    /// The quantity expressed in `target_unit`, or the error that the units
    /// are incompatible; `None` if quantity or unit is not valid or the
    /// conversion would leave the range of the exponents' integers.
    #[verifier::rlimit(40)]
    pub fn try_convert_to(&self, target_unit: &Unit) -> (r: Option<
        Result<Quantity, QuantityError>,
    >)
        ensures
            r is Some <==> self.wf() && target_unit.wf() && conversion_fits(
                self@.value,
                self@.unit,
                target_unit@,
            ),
            r matches Some(result) ==> is_conversion(result, self@, target_unit@),
    {
        if !self.is_valid() || !target_unit.is_valid() {
            return None;
        }
        proof {
            lemma_view_weight(Measure::Cost, self.unit.model());
            lemma_view_weight(Measure::Cost, target_unit.model());
            lemma_view_weight(Measure::Base, self.unit.model());
            lemma_view_weight(Measure::Base, target_unit.model());
        }
        if !self.unit.weighs_at_most(Measure::Cost, COST_LIMIT) || !target_unit.weighs_at_most(
            Measure::Cost,
            COST_LIMIT,
        ) {
            return None;
        }
        let own = self.unit.canonicalized();
        let target = target_unit.canonicalized();
        if own.same_factors(&target) || self.is_zero() {
            return Some(Ok(Quantity::new(self.value.duplicate(), target_unit.duplicate())));
        }
        let common = common_unit_factors(&own, &target);
        proof {
            lemma_view_weight(Measure::Cost, common.model());
            lemma_view_weight(Measure::Base, common.model());
        }
        let common_cost = common.capped_weight(Measure::Cost);
        let common_base = common.capped_weight(Measure::Base);
        if self.unit.capped_weight(Measure::Cost) + common_cost > COST_LIMIT
            || target_unit.capped_weight(Measure::Cost) + common_cost > COST_LIMIT
            || self.unit.capped_weight(Measure::Base) + common_base > COST_LIMIT
            || target_unit.capped_weight(Measure::Base) + common_base > COST_LIMIT {
            return None;
        }
        let target_reduced = target_unit.duplicate().divide(common.duplicate()).canonicalized();
        let own_reduced = self.unit.duplicate().divide(common).canonicalized();
        let (target_base, target_factor) = target_reduced.to_base_unit_representation();
        let (own_base, own_factor) = own_reduced.to_base_unit_representation();
        if own_base.equals(&target_base) {
            Some(
                Ok(
                    Quantity::new(
                        self.value.duplicate().over(Number::one()).times(own_factor).over(
                            target_factor,
                        ),
                        target_unit.duplicate(),
                    ),
                ),
            )
        } else {
            Some(
                Err(
                    QuantityError::IncompatibleUnits(
                        self.unit.duplicate(),
                        target_unit.duplicate(),
                    ),
                ),
            )
        }
    }

    /// The quantity expressed in `target_unit`, or the error that the units
    /// are incompatible.
    pub fn convert_to(&self, target_unit: &Unit) -> (r: Result<Quantity, QuantityError>)
        requires
            self.wf(),
            target_unit.wf(),
            conversion_fits(self@.value, self@.unit, target_unit@),
        ensures
            is_conversion(r, self@, target_unit@),
    {
        match self.try_convert_to(target_unit) {
            Some(result) => result,
            None => vstd::pervasive::unreached(),
        }
    }

    /// The value as a plain number, or the error that the unit is not the
    /// scalar unit.
    pub fn as_scalar(&self) -> (r: Result<Number, QuantityError>)
        requires
            self.wf(),
            conversion_fits(self@.value, self@.unit, Seq::<FactorView>::empty()),
        ensures
            r is Ok <==> convertible(self@.value, self@.unit, Seq::<FactorView>::empty()),
            match r {
                Ok(value) => value@ == converted_value(
                    self@.value,
                    self@.unit,
                    Seq::<FactorView>::empty(),
                ) && value.wf(),
                Err(QuantityError::IncompatibleUnits(own, target)) => own@ == self@.unit
                    && target@ == Seq::<FactorView>::empty(),
                Err(QuantityError::NonRationalExponent) => false,
            },
    {
        match self.convert_to(&Unit::scalar()) {
            Ok(plain) => Ok(plain.value),
            Err(error) => Err(error),
        }
    }

    /// The quantity raised to the power `exp`, a quantity that converts to a
    /// plain number. The unit is raised to `exponent`: the exact fraction
    /// that the plain number is, or `None` if it is not a fraction.
    pub fn power(self, exp: Quantity, exponent: Option<Exponent>) -> (r: Result<
        Quantity,
        QuantityError,
    >)
        requires
            self.wf(),
            exp.wf(),
            conversion_fits(exp@.value, exp@.unit, Seq::<FactorView>::empty()),
            exponent is Some ==> exponent->Some_0.wf() && can_raise(
                self.spec_unit().model(),
                exponent->Some_0.cost(),
            ),
        ensures
            match r {
                Ok(q) => {
                    &&& convertible(exp@.value, exp@.unit, Seq::<FactorView>::empty())
                    &&& exponent is Some
                    &&& q@ == (QuantityView {
                        value: self@.value.raised(
                            converted_value(exp@.value, exp@.unit, Seq::<FactorView>::empty()),
                        ),
                        unit: raised(self@.unit, exponent->Some_0@),
                    })
                    &&& q.wf()
                },
                Err(QuantityError::IncompatibleUnits(own, target)) => !convertible(
                    exp@.value,
                    exp@.unit,
                    Seq::<FactorView>::empty(),
                ) && own@ == exp@.unit && target@ == Seq::<FactorView>::empty(),
                Err(QuantityError::NonRationalExponent) => convertible(
                    exp@.value,
                    exp@.unit,
                    Seq::<FactorView>::empty(),
                ) && exponent is None,
            },
    {
        let scalar = match exp.as_scalar() {
            Ok(scalar) => scalar,
            Err(error) => {
                return Err(error);
            },
        };
        match exponent {
            Some(e) => Ok(Quantity::new(self.value.pow(scalar), self.unit.power(e))),
            None => Err(QuantityError::NonRationalExponent),
        }
    }
}

impl<'a> vstd::std_specs::ops::AddSpecImpl for &'a Quantity {
    open spec fn obeys_add_spec() -> bool {
        false
    }

    open spec fn add_req(self, rhs: &'a Quantity) -> bool {
        self.wf() && rhs.wf() && conversion_fits(rhs@.value, rhs@.unit, self@.unit)
    }

    open spec fn add_spec(self, rhs: &'a Quantity) -> Result<Quantity, QuantityError> {
        arbitrary()
    }
}

impl<'a> core::ops::Add for &'a Quantity {
    type Output = Result<Quantity, QuantityError>;

    /// The sum of both quantities in the unit of the first, or the error
    /// that the second does not convert to it.
    fn add(self, rhs: &'a Quantity) -> (r: Result<Quantity, QuantityError>)
        ensures
            r is Ok <==> convertible(rhs@.value, rhs@.unit, self@.unit),
            match r {
                Ok(q) => q@ == (QuantityView {
                    value: self@.value.plus(converted_value(rhs@.value, rhs@.unit, self@.unit)),
                    unit: self@.unit,
                }) && q.wf(),
                Err(QuantityError::IncompatibleUnits(own, target)) => own@ == rhs@.unit
                    && target@ == self@.unit,
                Err(QuantityError::NonRationalExponent) => false,
            },
    {
        match rhs.convert_to(&self.unit) {
            Ok(converted) => Ok(
                Quantity::new(self.value.duplicate().plus(converted.value), self.unit.duplicate()),
            ),
            Err(error) => Err(error),
        }
    }
}

impl<'a> vstd::std_specs::ops::SubSpecImpl for &'a Quantity {
    open spec fn obeys_sub_spec() -> bool {
        false
    }

    open spec fn sub_req(self, rhs: &'a Quantity) -> bool {
        self.wf() && rhs.wf() && conversion_fits(rhs@.value, rhs@.unit, self@.unit)
    }

    open spec fn sub_spec(self, rhs: &'a Quantity) -> Result<Quantity, QuantityError> {
        arbitrary()
    }
}

impl<'a> core::ops::Sub for &'a Quantity {
    type Output = Result<Quantity, QuantityError>;

    /// The difference of both quantities in the unit of the first, or the
    /// error that the second does not convert to it.
    fn sub(self, rhs: &'a Quantity) -> (r: Result<Quantity, QuantityError>)
        ensures
            r is Ok <==> convertible(rhs@.value, rhs@.unit, self@.unit),
            match r {
                Ok(q) => q@ == (QuantityView {
                    value: self@.value.minus(converted_value(rhs@.value, rhs@.unit, self@.unit)),
                    unit: self@.unit,
                }) && q.wf(),
                Err(QuantityError::IncompatibleUnits(own, target)) => own@ == rhs@.unit
                    && target@ == self@.unit,
                Err(QuantityError::NonRationalExponent) => false,
            },
    {
        match rhs.convert_to(&self.unit) {
            Ok(converted) => Ok(
                Quantity::new(
                    self.value.duplicate().minus(converted.value),
                    self.unit.duplicate(),
                ),
            ),
            Err(error) => Err(error),
        }
    }
}

impl vstd::std_specs::ops::MulSpecImpl for Quantity {
    open spec fn obeys_mul_spec() -> bool {
        false
    }

    open spec fn mul_req(self, rhs: Quantity) -> bool {
        true
    }

    open spec fn mul_spec(self, rhs: Quantity) -> Result<Quantity, QuantityError> {
        arbitrary()
    }
}

impl core::ops::Mul for Quantity {
    type Output = Result<Quantity, QuantityError>;

    /// The product of both quantities: the values multiplied, in the product
    /// of the units.
    fn mul(self, rhs: Quantity) -> (r: Result<Quantity, QuantityError>)
        ensures
            r matches Ok(q) && q@ == (QuantityView {
                value: self@.value.times(rhs@.value),
                unit: self@.unit + rhs@.unit,
            }),
            self.wf() && rhs.wf() ==> r->Ok_0.wf(),
    {
        Ok(Quantity::new(self.value.times(rhs.value), self.unit.multiply(rhs.unit)))
    }
}

impl vstd::std_specs::ops::DivSpecImpl for Quantity {
    open spec fn obeys_div_spec() -> bool {
        false
    }

    open spec fn div_req(self, rhs: Quantity) -> bool {
        rhs.wf()
    }

    open spec fn div_spec(self, rhs: Quantity) -> Result<Quantity, QuantityError> {
        arbitrary()
    }
}

impl core::ops::Div for Quantity {
    type Output = Result<Quantity, QuantityError>;

    /// The quotient of both quantities: the values divided, in the quotient
    /// of the units.
    fn div(self, rhs: Quantity) -> (r: Result<Quantity, QuantityError>)
        ensures
            r matches Ok(q) && q@ == (QuantityView {
                value: self@.value.over(rhs@.value),
                unit: self@.unit + inverted(rhs@.unit),
            }),
            self.wf() ==> r->Ok_0.wf(),
    {
        Ok(Quantity::new(self.value.over(rhs.value), self.unit.divide(rhs.unit)))
    }
}

impl vstd::std_specs::ops::NegSpecImpl for Quantity {
    open spec fn obeys_neg_spec() -> bool {
        false
    }

    open spec fn neg_req(self) -> bool {
        true
    }

    open spec fn neg_spec(self) -> Quantity {
        arbitrary()
    }
}

impl core::ops::Neg for Quantity {
    type Output = Quantity;

    /// The quantity with its value negated.
    fn neg(self) -> (q: Quantity)
        ensures
            q@ == (QuantityView {
                value: NumberView::Negated(Box::new(self@.value)),
                unit: self@.unit,
            }),
            self.wf() ==> q.wf(),
    {
        Quantity::new(self.value.negated(), self.unit)
    }
}

} // verus!
