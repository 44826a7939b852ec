//! Canonical forms of units, equality of units, and units in base units.

use crate::arithmetic::COST_LIMIT;
use crate::key::{sort_key, sort_keys};
use crate::number::{Number, NumberView};
use crate::prefix::Prefix;
use crate::product::{all_agree, canonical_form, canonicalize_keyed, keyed_model, Keyed};
use crate::unit::{
    base_factors_wf, cost_sum, lemma_cost_sum, lemma_weight_index, raised, weight,
    ConversionFactor, FactorModel, FactorView, IdView, KindView, Measure, Unit, UnitIdentifier,
    UnitKind,
};
use vstd::prelude::*;

verus! {

/// A unit in base units: a base unit is itself, a derived unit is what it
/// was defined as.
pub open spec fn base_expression(id: IdView) -> Seq<FactorView> {
    match id.kind {
        KindView::Base => seq![
            FactorView { unit_id: id, prefix: Prefix::Metric(0), exponent: 1real },
        ],
        KindView::Derived(_, base) => base,
    }
}

/// The number of base units that one unit is: one for a base unit.
pub open spec fn conversion_factor(id: IdView) -> NumberView {
    match id.kind {
        KindView::Base => NumberView::one(),
        KindView::Derived(factor, _) => factor,
    }
}

/// Every factor replaced by its expression in base units, raised to the
/// factor's exponent.
pub open spec fn expanded(s: Seq<FactorView>) -> Seq<FactorView>
    decreases s.len(),
{
    if s.len() == 0 {
        s
    } else {
        expanded(s.drop_last()) + raised(base_expression(s.last().unit_id), s.last().exponent)
    }
}

/// The unit in base units, in canonical form.
pub open spec fn base_representation(s: Seq<FactorView>) -> Seq<FactorView> {
    canonical_form(sort_keys(), expanded(s))
}

/// What one factor contributes to the conversion into base units: its
/// prefix's scale times its unit's conversion factor, raised to its exponent.
pub open spec fn factor_term(f: FactorView) -> NumberView {
    NumberView::PrefixFactor(f.prefix).times(conversion_factor(f.unit_id)).raised(
        NumberView::Fraction(f.exponent),
    )
}

/// The number of base units that one of the given unit is: the product of
/// the factors' terms, from one on, in their order.
pub open spec fn conversion_product(s: Seq<FactorView>) -> NumberView
    decreases s.len(),
{
    if s.len() == 0 {
        NumberView::one()
    } else {
        conversion_product(s.drop_last()).times(factor_term(s.last()))
    }
}

/// The weight of a product whose exponents each cost at most `c` more than
/// those of another.
proof fn lemma_weight_raised(base: Seq<FactorModel>, r: Seq<FactorModel>, c: nat)
    requires
        r.len() == base.len(),
        forall|i: int|
            0 <= i < base.len() ==> (#[trigger] r[i]).exponent.cost() <= base[i].exponent.cost()
                + c,
    ensures
        weight(Measure::Cost, r) <= cost_sum(base) + base.len() * c,
    decreases base.len(),
{
    if base.len() > 0 {
        assert forall|i: int| 0 <= i < base.drop_last().len() implies (
        #[trigger] r.drop_last()[i]).exponent.cost() <= base.drop_last()[i].exponent.cost()
            + c by {
            assert(r.drop_last()[i] == r[i]);
        }
        lemma_weight_raised(base.drop_last(), r.drop_last(), c);
        assert(r.last() == r[r.len() - 1]);
        assert(base.len() * c == (base.len() - 1) * c + c) by (nonlinear_arith);
    }
}

/// The cost of an exponent of a product is at most the sum of all costs.
proof fn lemma_cost_sum_index(s: Seq<FactorModel>, i: int)
    requires
        0 <= i < s.len(),
    ensures
        s[i].exponent.cost() <= cost_sum(s),
{
    lemma_cost_sum(s);
    lemma_weight_index(Measure::Cost, s, i);
}

impl UnitIdentifier {
    /// The unit written in base units.
    pub fn corresponding_base_unit(&self) -> (unit: Unit)
        requires
            self.wf(),
        ensures
            unit@ == base_expression(self@),
            unit.wf(),
            base_factors_wf(unit.model()),
            unit.model().len() == self.model().base_len(),
            cost_sum(unit.model()) == self.model().base_cost(),
    {
        match &self.kind {
            UnitKind::Base => {
                let unit = Unit::new_base(self.name.as_str(), self.canonical_name.as_str());
                proof {
                    lemma_cost_sum(unit.model());
                    assert(unit@.len() == unit.model().len());
                    assert(unit@[0] == unit.model()[0].view());
                }
                unit
            },
            UnitKind::Derived(_, base) => {
                let unit = base.duplicate();
                proof {
                    assert forall|i: int| 0 <= i < unit.model().len() implies (
                    #[trigger] unit.model()[i]).wf() by {}
                }
                unit
            },
        }
    }

    /// The number of base units that one of this unit is.
    pub fn conversion_factor(&self) -> (factor: ConversionFactor)
        requires
            self.wf(),
        ensures
            factor@ == conversion_factor(self@),
            factor.wf(),
    {
        match &self.kind {
            UnitKind::Base => Number::one(),
            UnitKind::Derived(factor, _) => factor.duplicate(),
        }
    }
}

/// The factors of a unit, each with its sort key.
fn keyed_factors(unit: &Unit) -> (items: Vec<Keyed>)
    requires
        unit.wf(),
    ensures
        all_agree(items@, sort_keys()),
        keyed_model(items@) == unit.model(),
{
    let mut items: Vec<Keyed> = Vec::new();
    let mut i: usize = 0;
    while i < unit.factors.len()
        invariant
            i <= unit.factors.len(),
            unit.wf(),
            items@.len() == i,
            all_agree(items@, sort_keys()),
            forall|k: int| 0 <= k < i ==> (#[trigger] items@[k]).factor.model() == unit.model()[k],
        decreases unit.factors.len() - i,
    {
        assert(unit.model()[i as int].wf());
        let factor = unit.factors[i].duplicate();
        let key = factor.unit_id.sort_key();
        items.push(Keyed { key, factor });
        i += 1;
    }
    assert(keyed_model(items@) =~= unit.model());
    items
}

impl Unit {
    /// The unit in canonical form.
    pub fn canonicalized(&self) -> (unit: Unit)
        requires
            self.wf(),
            self.weight() <= COST_LIMIT,
        ensures
            unit@ == canonical_form(sort_keys(), self@),
            unit.wf(),
            unit.weight() <= self.weight(),
            unit.base_weight() <= self.base_weight(),
    {
        let items = keyed_factors(self);
        let factors = canonicalize_keyed(items, Ghost(sort_keys()));
        Unit { factors }
    }

    /// Brings the unit into canonical form.
    pub fn canonicalize(&mut self)
        requires
            old(self).wf(),
            old(self).weight() <= COST_LIMIT,
        ensures
            final(self)@ == canonical_form(sort_keys(), old(self)@),
            final(self).wf(),
            final(self).weight() <= old(self).weight(),
            final(self).base_weight() <= old(self).base_weight(),
    {
        let unit = self.canonicalized();
        *self = unit;
    }

    /// Whether both units have the same canonical form.
    pub fn equals(&self, other: &Unit) -> (r: bool)
        requires
            self.wf(),
            other.wf(),
            self.weight() <= COST_LIMIT,
            other.weight() <= COST_LIMIT,
        ensures
            r == (canonical_form(sort_keys(), self@) == canonical_form(sort_keys(), other@)),
    {
        let a = self.canonicalized();
        let b = other.canonicalized();
        a.same_factors(&b)
    }

    /// The factors written in base units, one after the other.
    #[verifier::rlimit(40)]
    fn expand(&self) -> (unit: Unit)
        requires
            self.wf(),
            self.base_weight() <= COST_LIMIT,
        ensures
            unit@ == expanded(self@),
            unit.wf(),
            unit.weight() <= self.base_weight(),
    {
        let mut unit = Unit::unity();
        let mut i: usize = 0;
        assert(self@.take(0) =~= Seq::empty());
        assert(self.model().take(0) =~= Seq::empty());
        while i < self.factors.len()
            invariant
                i <= self.factors.len(),
                self.wf(),
                self.base_weight() <= COST_LIMIT,
                unit.wf(),
                unit@ == expanded(self@.take(i as int)),
                unit.weight() <= weight(Measure::Base, self.model().take(i as int)),
            decreases self.factors.len() - i,
        {
            let ghost model = self.model()[i as int];
            assert(model.wf());
            let base = self.factors[i].unit_id.corresponding_base_unit();
            let ghost base_model = base.model();
            proof {
                lemma_weight_index(Measure::Base, self.model(), i as int);
                assert forall|k: int| 0 <= k < base_model.len() implies (
                #[trigger] base_model[k]).exponent.cost() + model.exponent.cost()
                    <= COST_LIMIT by {
                    lemma_cost_sum_index(base_model, k);
                    assert(model.exponent.cost() <= model.exponent.cost() * base_model.len())
                        by (nonlinear_arith)
                        requires
                            base_model.len() >= 1,
                    ;
                }
            }
            let part = base.power(self.factors[i].exponent);
            proof {
                lemma_weight_raised(base_model, part.model(), model.exponent.cost());
                assert(self@.take(i + 1).drop_last() =~= self@.take(i as int));
                assert(self@.take(i + 1).last() == self@[i as int]);
                assert(self.model().take(i + 1).drop_last() =~= self.model().take(i as int));
                assert(self.model().take(i + 1).last() == model);
                assert(base_model.len() * model.exponent.cost() == model.exponent.cost()
                    * base_model.len()) by (nonlinear_arith);
            }
            unit = unit.multiply(part);
            i += 1;
        }
        assert(self@.take(self.factors.len() as int) =~= self@);
        assert(self.model().take(self.factors.len() as int) =~= self.model());
        unit
    }

    /// The product of the factors' conversion terms.
    fn conversion(&self) -> (factor: ConversionFactor)
        requires
            self.wf(),
        ensures
            factor@ == conversion_product(self@),
            factor.wf(),
    {
        let mut factor = Number::one();
        let mut i: usize = 0;
        assert(self@.take(0) =~= Seq::empty());
        while i < self.factors.len()
            invariant
                i <= self.factors.len(),
                self.wf(),
                factor.wf(),
                factor@ == conversion_product(self@.take(i as int)),
            decreases self.factors.len() - i,
        {
            assert(self.model()[i as int].wf());
            let f = &self.factors[i];
            let term = f.prefix.factor().times(f.unit_id.conversion_factor()).pow(
                Number::from_rational(f.exponent),
            );
            proof {
                assert(self@.take(i + 1).drop_last() =~= self@.take(i as int));
                assert(self@.take(i + 1).last() == self@[i as int]);
                assert(term@ == factor_term(self@[i as int]));
            }
            factor = factor.times(term);
            i += 1;
        }
        assert(self@.take(self.factors.len() as int) =~= self@);
        factor
    }

    /// The unit in base units, in canonical form, and the number of those
    /// that one of this unit is.
    pub fn to_base_unit_representation(&self) -> (r: (Unit, ConversionFactor))
        requires
            self.wf(),
            self.base_weight() <= COST_LIMIT,
        ensures
            r.0@ == base_representation(self@),
            r.1@ == conversion_product(self@),
            r.0.wf(),
            r.0.weight() <= self.base_weight(),
            r.1.wf(),
    {
        let base = self.expand().canonicalized();
        let factor = self.conversion();
        (base, factor)
    }
}

} // verus!
