//! Units: products of prefixed unit identifiers with rational exponents.
//!
//! Each type here has a *model*, which replaces vectors and strings by
//! sequences and keeps exponents as fractions, and a *view*, in which an
//! exponent is the real number it denotes. Validity and cost are stated of
//! models, meaning of views.

use crate::arithmetic::{abs, bit_length, cost_of, Exponent, Rational, COST_LIMIT};
use crate::number::{Number, NumberView};
use crate::prefix::Prefix;
use vstd::prelude::*;

verus! {

/// The factor by which a derived unit exceeds its expression in base units.
pub type ConversionFactor = Number;

/// A unit is either fundamental or defined as a multiple of a product of
/// fundamental units.
#[derive(Debug)]
pub enum UnitKind {
    Base,
    Derived(ConversionFactor, Unit),
}

/// The identity of a unit: its name, its symbol and how it is defined.
#[derive(Debug)]
pub struct UnitIdentifier {
    pub name: String,
    pub canonical_name: String,
    pub kind: UnitKind,
}

/// One factor of a unit: a prefixed identifier raised to a power.
#[derive(Debug)]
pub struct UnitFactor {
    pub unit_id: UnitIdentifier,
    pub prefix: Prefix,
    pub exponent: Exponent,
}

/// A product of factors. The empty product is the scalar unit.
#[derive(Debug)]
pub struct Unit {
    pub factors: Vec<UnitFactor>,
}

/// The model of a [`UnitKind`].
pub enum KindModel {
    Base,
    Derived(Number, Seq<FactorModel>),
}

/// The model of a [`UnitIdentifier`].
pub struct IdModel {
    pub name: Seq<char>,
    pub canonical_name: Seq<char>,
    pub kind: KindModel,
}

/// The model of a [`UnitFactor`].
pub struct FactorModel {
    pub unit_id: IdModel,
    pub prefix: Prefix,
    pub exponent: Rational,
}

/// What a [`UnitKind`] denotes.
pub enum KindView {
    Base,
    Derived(NumberView, Seq<FactorView>),
}

/// What a [`UnitIdentifier`] denotes.
pub struct IdView {
    pub name: Seq<char>,
    pub canonical_name: Seq<char>,
    pub kind: KindView,
}

/// What a [`UnitFactor`] denotes: its exponent is a real number.
pub struct FactorView {
    pub unit_id: IdView,
    pub prefix: Prefix,
    pub exponent: real,
}

/// The model of a kind.
pub open spec fn kind_model(kind: UnitKind) -> KindModel
    decreases kind,
{
    match kind {
        UnitKind::Base => KindModel::Base,
        UnitKind::Derived(factor, unit) => KindModel::Derived(factor, factors_model(unit.factors@)),
    }
}

/// The model of an identifier.
pub open spec fn id_model(id: UnitIdentifier) -> IdModel
    decreases id,
{
    IdModel { name: id.name@, canonical_name: id.canonical_name@, kind: kind_model(id.kind) }
}

/// The model of a factor.
pub open spec fn factor_model(factor: UnitFactor) -> FactorModel
    decreases factor,
{
    FactorModel {
        unit_id: id_model(factor.unit_id),
        prefix: factor.prefix,
        exponent: factor.exponent,
    }
}

/// The models of the factors of a product.
pub open spec fn factors_model(factors: Seq<UnitFactor>) -> Seq<FactorModel>
    decreases factors,
{
    Seq::new(
        factors.len(),
        |i: int|
            if 0 <= i < factors.len() {
                factor_model(factors[i])
            } else {
                arbitrary()
            },
    )
}

/// What a kind denotes.
pub open spec fn kind_view(kind: KindModel) -> KindView
    decreases kind,
{
    match kind {
        KindModel::Base => KindView::Base,
        KindModel::Derived(factor, base) => KindView::Derived(factor@, factors_view(base)),
    }
}

/// What an identifier denotes.
pub open spec fn id_view(id: IdModel) -> IdView
    decreases id,
{
    IdView { name: id.name, canonical_name: id.canonical_name, kind: kind_view(id.kind) }
}

/// What a factor denotes.
pub open spec fn factor_view(factor: FactorModel) -> FactorView
    decreases factor,
{
    FactorView {
        unit_id: id_view(factor.unit_id),
        prefix: factor.prefix,
        exponent: factor.exponent@,
    }
}

/// What the factors of a product denote.
pub open spec fn factors_view(factors: Seq<FactorModel>) -> Seq<FactorView>
    decreases factors,
{
    Seq::new(
        factors.len(),
        |i: int|
            if 0 <= i < factors.len() {
                factor_view(factors[i])
            } else {
                arbitrary()
            },
    )
}

/// What is counted for a factor when a product is weighed.
#[derive(Debug, Clone, Copy, PartialEq, Eq, Structural)]
pub enum Measure {
    /// The cost of the factor's exponent.
    Cost,
    /// The costs of the exponents that the factor gives rise to when it is
    /// written in base units.
    Base,
}

/// The sum of the costs of the exponents of a product.
pub open spec fn cost_sum(factors: Seq<FactorModel>) -> nat
    decreases factors.len(),
{
    if factors.len() == 0 {
        0
    } else {
        cost_sum(factors.drop_last()) + factors.last().exponent.cost()
    }
}

/// The sum of the loads of the factors of a product.
pub open spec fn weight(measure: Measure, factors: Seq<FactorModel>) -> nat
    decreases factors.len(),
{
    if factors.len() == 0 {
        0
    } else {
        weight(measure, factors.drop_last()) + factors.last().load(measure)
    }
}

/// The largest weight of a derived unit's expression in base units.
pub const BASE_WEIGHT_LIMIT: usize = 31;

/// Whether every factor is a well-formed power of a base unit.
pub open spec fn base_factors_wf(factors: Seq<FactorModel>) -> bool {
    forall|i: int|
        0 <= i < factors.len() ==> (#[trigger] factors[i]).exponent.wf()
            && factors[i].unit_id.kind is Base
}

impl IdModel {
    /// A derived unit is defined in base units only, by well-formed numbers
    /// whose weight is within [`BASE_WEIGHT_LIMIT`].
    pub open spec fn wf(self) -> bool {
        match self.kind {
            KindModel::Base => true,
            KindModel::Derived(factor, base) => {
                &&& factor.wf()
                &&& base_factors_wf(base)
                &&& weight(Measure::Cost, base) <= BASE_WEIGHT_LIMIT
            },
        }
    }

    /// The number of factors of the unit written in base units.
    pub open spec fn base_len(self) -> nat {
        match self.kind {
            KindModel::Base => 1,
            KindModel::Derived(_, base) => base.len(),
        }
    }

    /// The weight of the unit written in base units.
    pub open spec fn base_cost(self) -> nat {
        match self.kind {
            KindModel::Base => 2,
            KindModel::Derived(_, base) => cost_sum(base),
        }
    }

    /// What the identifier denotes.
    pub open spec fn view(self) -> IdView {
        id_view(self)
    }
}

impl FactorModel {
    /// Exponent and identifier are well formed.
    pub open spec fn wf(self) -> bool {
        self.exponent.wf() && self.unit_id.wf()
    }

    /// What the factor counts for in a weight.
    pub open spec fn load(self, measure: Measure) -> nat {
        match measure {
            Measure::Cost => self.exponent.cost(),
            Measure::Base => self.exponent.cost() * self.unit_id.base_len()
                + self.unit_id.base_cost(),
        }
    }

    /// What the factor denotes.
    pub open spec fn view(self) -> FactorView {
        factor_view(self)
    }
}

/// Whether every factor of a product is well formed.
pub open spec fn factors_wf(factors: Seq<FactorModel>) -> bool {
    forall|i: int| 0 <= i < factors.len() ==> (#[trigger] factors[i]).wf()
}

impl View for UnitIdentifier {
    type V = IdView;

    open spec fn view(&self) -> IdView {
        id_view(id_model(*self))
    }
}

impl View for UnitFactor {
    type V = FactorView;

    open spec fn view(&self) -> FactorView {
        factor_view(factor_model(*self))
    }
}

impl View for Unit {
    type V = Seq<FactorView>;

    open spec fn view(&self) -> Seq<FactorView> {
        factors_view(self.model())
    }
}

impl UnitIdentifier {
    /// The model of the identifier.
    pub open spec fn model(&self) -> IdModel {
        id_model(*self)
    }

    /// The identifier is well formed.
    pub open spec fn wf(&self) -> bool {
        self.model().wf()
    }

    /// Whether the unit is fundamental.
    pub fn is_base(&self) -> (b: bool)
        ensures
            b == (self.model().kind is Base),
            b == (self@.kind is Base),
    {
        match self.kind {
            UnitKind::Base => true,
            UnitKind::Derived(_, _) => false,
        }
    }

    /// Whether both identifiers are the same: the same names and the same
    /// definition, factor by factor.
    pub fn same(&self, other: &UnitIdentifier) -> (r: bool)
        requires
            self.wf(),
            other.wf(),
        ensures
            r == (self@ == other@),
        decreases *self,
    {
        if self.name != other.name || self.canonical_name != other.canonical_name {
            return false;
        }
        match (&self.kind, &other.kind) {
            (UnitKind::Base, UnitKind::Base) => true,
            (UnitKind::Derived(factor, unit), UnitKind::Derived(other_factor, other_unit)) => {
                factor.same(other_factor) && unit.same_factors(other_unit)
            },
            _ => false,
        }
    }

    /// A copy of the identifier.
    pub fn duplicate(&self) -> (id: Self)
        ensures
            id.model() == self.model(),
        decreases *self,
    {
        let kind = match &self.kind {
            UnitKind::Base => UnitKind::Base,
            UnitKind::Derived(factor, unit) => UnitKind::Derived(
                factor.duplicate(),
                unit.duplicate(),
            ),
        };
        UnitIdentifier {
            name: self.name.clone(),
            canonical_name: self.canonical_name.clone(),
            kind,
        }
    }
}

impl UnitFactor {
    /// The model of the factor.
    pub open spec fn model(&self) -> FactorModel {
        factor_model(*self)
    }

    pub open spec fn wf(&self) -> bool {
        self.model().wf()
    }

    /// Whether both factors are the same: the same prefix and identifier and
    /// exponents that denote the same number.
    pub fn same(&self, other: &UnitFactor) -> (r: bool)
        requires
            self.wf(),
            other.wf(),
        ensures
            r == (self@ == other@),
        decreases *self,
    {
        self.prefix == other.prefix && self.exponent.same(&other.exponent) && self.unit_id.same(
            &other.unit_id,
        )
    }

    /// What factors must have in common to be merged: prefix and identifier.
    pub fn merge_key(&self) -> (key: (Prefix, UnitIdentifier))
        ensures
            key.0 == self.prefix,
            key.1.model() == self.model().unit_id,
    {
        (self.prefix, self.unit_id.duplicate())
    }

    /// The factor with the exponent of `other`, a factor with the same
    /// merge key, added to its own.
    pub fn merge(self, other: UnitFactor) -> (factor: Self)
        requires
            self.wf(),
            other.wf(),
            self.model().exponent.cost() + other.model().exponent.cost() <= COST_LIMIT,
        ensures
            factor.wf(),
            factor.model().unit_id == self.model().unit_id,
            factor.model().prefix == self.model().prefix,
            factor.model().exponent@ == self.model().exponent@ + other.model().exponent@,
            factor.model().exponent.cost() <= self.model().exponent.cost()
                + other.model().exponent.cost(),
    {
        UnitFactor {
            unit_id: self.unit_id,
            prefix: self.prefix,
            exponent: self.exponent.add(&other.exponent),
        }
    }

    /// Whether the factor has exponent zero.
    pub fn is_trivial(&self) -> (trivial: bool)
        requires
            self.wf(),
        ensures
            trivial == (self@.exponent == 0real),
    {
        self.exponent.is_zero()
    }

    /// The factor with its exponent multiplied by `e`.
    pub fn power(self, e: Exponent) -> (factor: Self)
        requires
            self.wf(),
            e.wf(),
            self.model().exponent.cost() + e.cost() <= COST_LIMIT,
        ensures
            factor.wf(),
            factor.model().unit_id == self.model().unit_id,
            factor.model().prefix == self.model().prefix,
            factor.model().exponent@ == self.model().exponent@ * e@,
            factor.model().exponent.cost() <= self.model().exponent.cost() + e.cost(),
    {
        UnitFactor {
            unit_id: self.unit_id,
            prefix: self.prefix,
            exponent: self.exponent.mul(&e),
        }
    }

    /// A copy of the factor.
    pub fn duplicate(&self) -> (factor: Self)
        ensures
            factor.model() == self.model(),
        decreases *self,
    {
        UnitFactor {
            unit_id: self.unit_id.duplicate(),
            prefix: self.prefix,
            exponent: self.exponent,
        }
    }
}

impl Unit {
    /// The models of the factors.
    pub open spec fn model(&self) -> Seq<FactorModel> {
        factors_model(self.factors@)
    }

    /// Every factor is well formed.
    pub open spec fn wf(&self) -> bool {
        factors_wf(self.model())
    }

    /// The sum of the costs of the exponents.
    pub open spec fn weight(&self) -> nat {
        weight(Measure::Cost, self.model())
    }

    /// The sum of the costs of the exponents that come up when every factor
    /// is written in base units.
    pub open spec fn base_weight(&self) -> nat {
        weight(Measure::Base, self.model())
    }

    /// Whether both units have the same factors in the same order.
    pub fn same_factors(&self, other: &Unit) -> (r: bool)
        requires
            self.wf(),
            other.wf(),
        ensures
            r == (self@ == other@),
        decreases *self,
    {
        if self.factors.len() != other.factors.len() {
            return false;
        }
        let mut i: usize = 0;
        while i < self.factors.len()
            invariant
                self.wf(),
                other.wf(),
                self.factors.len() == other.factors.len(),
                i <= self.factors.len(),
                self@.take(i as int) == other@.take(i as int),
            decreases self.factors.len() - i,
        {
            assert(self.model()[i as int].wf() && other.model()[i as int].wf());
            if !self.factors[i].same(&other.factors[i]) {
                assert(self@[i as int] != other@[i as int]);
                return false;
            }
            assert(self@.take(i + 1) =~= self@.take(i as int).push(self@[i as int]));
            assert(other@.take(i + 1) =~= other@.take(i as int).push(other@[i as int]));
            i += 1;
        }
        assert(self@.take(self.factors.len() as int) =~= self@);
        assert(other@.take(self.factors.len() as int) =~= other@);
        true
    }

    /// A copy of the unit.
    pub fn duplicate(&self) -> (unit: Self)
        ensures
            unit.model() == self.model(),
        decreases *self,
    {
        let mut factors: Vec<UnitFactor> = Vec::new();
        let mut i: usize = 0;
        while i < self.factors.len()
            invariant
                i <= self.factors.len(),
                factors@.len() == i,
                forall|k: int|
                    0 <= k < i ==> factor_model(#[trigger] factors@[k]) == factor_model(
                        self.factors@[k],
                    ),
            decreases self.factors.len() - i,
        {
            factors.push(self.factors[i].duplicate());
            i += 1;
        }
        let unit = Unit { factors };
        assert(unit.model() =~= self.model());
        unit
    }
}

impl Clone for UnitKind {
    fn clone(&self) -> (kind: Self)
        ensures
            kind_model(kind) == kind_model(*self),
    {
        match self {
            UnitKind::Base => UnitKind::Base,
            UnitKind::Derived(factor, unit) => UnitKind::Derived(
                factor.duplicate(),
                unit.duplicate(),
            ),
        }
    }
}

impl Clone for UnitIdentifier {
    fn clone(&self) -> (id: Self)
        ensures
            id.model() == self.model(),
    {
        self.duplicate()
    }
}

impl Clone for UnitFactor {
    fn clone(&self) -> (factor: Self)
        ensures
            factor.model() == self.model(),
    {
        self.duplicate()
    }
}

impl Clone for Unit {
    fn clone(&self) -> (unit: Self)
        ensures
            unit.model() == self.model(),
    {
        self.duplicate()
    }
}

/// The views of a product put together from two.
pub proof fn lemma_view_concat(a: Seq<FactorModel>, b: Seq<FactorModel>)
    ensures
        factors_view(a + b) == factors_view(a) + factors_view(b),
{
    assert(factors_view(a + b) =~= factors_view(a) + factors_view(b));
}

/// The weight of a product put together from two.
pub proof fn lemma_weight_concat(m: Measure, a: Seq<FactorModel>, b: Seq<FactorModel>)
    ensures
        weight(m, a + b) == weight(m, a) + weight(m, b),
    decreases b.len(),
{
    if b.len() == 0 {
        assert(a + b =~= a);
    } else {
        assert((a + b).drop_last() =~= a + b.drop_last());
        lemma_weight_concat(m, a, b.drop_last());
    }
}

/// The load of one factor is at most the weight of the product.
pub proof fn lemma_weight_index(m: Measure, s: Seq<FactorModel>, i: int)
    requires
        0 <= i < s.len(),
    ensures
        s[i].load(m) <= weight(m, s),
    decreases s.len(),
{
    if i < s.len() - 1 {
        lemma_weight_index(m, s.drop_last(), i);
    }
}

/// Weighed by cost, a product weighs the sum of its costs.
pub proof fn lemma_cost_sum(s: Seq<FactorModel>)
    ensures
        weight(Measure::Cost, s) == cost_sum(s),
    decreases s.len(),
{
    if s.len() > 0 {
        lemma_cost_sum(s.drop_last());
    }
}

/// Identifiers that denote the same unit have as many base factors.
pub proof fn lemma_same_view_same_base(a: IdModel, b: IdModel)
    requires
        a.view() == b.view(),
    ensures
        a.base_len() == b.base_len(),
{
    match (a.kind, b.kind) {
        (KindModel::Derived(_, x), KindModel::Derived(_, y)) => {
            assert(factors_view(x).len() == x.len());
            assert(factors_view(y).len() == y.len());
        },
        _ => {},
    }
}

/// Products whose factors have the same loads weigh the same.
pub proof fn lemma_weight_same_loads(m: Measure, a: Seq<FactorModel>, b: Seq<FactorModel>)
    requires
        a.len() == b.len(),
        forall|i: int| 0 <= i < a.len() ==> (#[trigger] a[i]).load(m) == b[i].load(m),
    ensures
        weight(m, a) == weight(m, b),
    decreases a.len(),
{
    if a.len() > 0 {
        assert(a.last().load(m) == a[a.len() - 1].load(m));
        assert forall|i: int| 0 <= i < a.drop_last().len() implies (
        #[trigger] a.drop_last()[i]).load(m) == b.drop_last()[i].load(m) by {
            assert(a.drop_last()[i] == a[i]);
        }
        lemma_weight_same_loads(m, a.drop_last(), b.drop_last());
    }
}

/// Every exponent of the product negated.
pub open spec fn inverted(s: Seq<FactorView>) -> Seq<FactorView> {
    s.map_values(
        |f: FactorView| FactorView { unit_id: f.unit_id, prefix: f.prefix, exponent: -f.exponent },
    )
}

/// Every exponent of the product multiplied by `e`.
pub open spec fn raised(s: Seq<FactorView>, e: real) -> Seq<FactorView> {
    s.map_values(
        |f: FactorView|
            FactorView { unit_id: f.unit_id, prefix: f.prefix, exponent: f.exponent * e },
    )
}

/// Whether every exponent of the product can be multiplied by one of cost `c`.
pub open spec fn can_raise(s: Seq<FactorModel>, c: nat) -> bool {
    forall|i: int| 0 <= i < s.len() ==> (#[trigger] s[i]).exponent.cost() + c <= COST_LIMIT
}

/// The product with the prefix of its first factor replaced.
pub open spec fn prefixed(s: Seq<FactorView>, prefix: Prefix) -> Seq<FactorView> {
    s.update(0, FactorView { unit_id: s[0].unit_id, prefix: prefix, exponent: s[0].exponent })
}

impl Unit {
    /// The empty product.
    pub fn unity() -> (unit: Self)
        ensures
            unit@ == Seq::<FactorView>::empty(),
            unit.model() == Seq::<FactorModel>::empty(),
            unit.wf(),
            unit.weight() == 0,
    {
        let unit = Unit { factors: Vec::new() };
        assert(unit.model() =~= Seq::empty());
        assert(unit@ =~= Seq::empty());
        unit
    }

    /// The unit of plain numbers: the empty product.
    pub fn scalar() -> (unit: Self)
        ensures
            unit@ == Seq::<FactorView>::empty(),
            unit.model() == Seq::<FactorModel>::empty(),
            unit.wf(),
            unit.weight() == 0,
    {
        Self::unity()
    }

    /// The product of one factor.
    pub fn from_factor(factor: UnitFactor) -> (unit: Self)
        ensures
            unit.model() == seq![factor.model()],
            unit@ == seq![factor@],
    {
        let ghost model = factor.model();
        let mut factors: Vec<UnitFactor> = Vec::new();
        factors.push(factor);
        let unit = Unit { factors };
        assert(unit.model() =~= seq![model]);
        assert(unit@ =~= seq![model.view()]);
        unit
    }

    /// The product of the given factors, in their order.
    pub fn from_factors(factors: Vec<UnitFactor>) -> (unit: Self)
        ensures
            unit.model() == factors_model(factors@),
            unit@ == factors_view(factors_model(factors@)),
    {
        Unit { factors }
    }

    /// The factors, in their order.
    pub fn into_factors(self) -> (factors: Vec<UnitFactor>)
        ensures
            factors_model(factors@) == self.model(),
    {
        self.factors
    }

    /// The number of factors.
    pub fn len(&self) -> (n: usize)
        ensures
            n == self@.len(),
    {
        self.factors.len()
    }

    /// A fundamental unit with the given name and symbol.
    pub fn new_base(name: &str, canonical_name: &str) -> (unit: Self)
        ensures
            unit@ == seq![
                FactorView {
                    unit_id: IdView {
                        name: name@,
                        canonical_name: canonical_name@,
                        kind: KindView::Base,
                    },
                    prefix: Prefix::Metric(0),
                    exponent: 1real,
                },
            ],
            unit.wf(),
            unit.weight() == 2,
            unit.base_weight() == 4,
    {
        let unit = Unit::from_factor(
            UnitFactor {
                unit_id: UnitIdentifier {
                    name: String::from_str(name),
                    canonical_name: String::from_str(canonical_name),
                    kind: UnitKind::Base,
                },
                prefix: Prefix::none(),
                exponent: Rational::from_integer(1),
            },
        );
        proof {
            reveal_with_fuel(weight, 2);
            reveal_with_fuel(crate::arithmetic::bit_length, 3);
            assert(unit.model()[0].exponent.height() == 2);
        }
        unit
    }

    /// A unit defined as `factor` times the product `base_unit` of
    /// fundamental units.
    pub fn new_derived(
        name: &str,
        canonical_name: &str,
        factor: ConversionFactor,
        base_unit: Unit,
    ) -> (unit: Self)
        requires
            factor.wf(),
            base_factors_wf(base_unit.model()),
            base_unit.weight() <= BASE_WEIGHT_LIMIT,
        ensures
            unit@ == seq![
                FactorView {
                    unit_id: IdView {
                        name: name@,
                        canonical_name: canonical_name@,
                        kind: KindView::Derived(factor@, base_unit@),
                    },
                    prefix: Prefix::Metric(0),
                    exponent: 1real,
                },
            ],
            unit.wf(),
            unit.weight() == 2,
            unit.base_weight() == 2 * base_unit@.len() + base_unit.weight(),
    {
        let ghost base_model = base_unit.model();
        let unit = Unit::from_factor(
            UnitFactor {
                unit_id: UnitIdentifier {
                    name: String::from_str(name),
                    canonical_name: String::from_str(canonical_name),
                    kind: UnitKind::Derived(factor, base_unit),
                },
                prefix: Prefix::none(),
                exponent: Rational::from_integer(1),
            },
        );
        proof {
            reveal_with_fuel(weight, 2);
            reveal_with_fuel(crate::arithmetic::bit_length, 3);
            assert(unit.model()[0].exponent.height() == 2);
            lemma_cost_sum(base_model);
            assert(unit.model()[0].unit_id.base_len() == base_model.len());
            assert(factors_view(base_model).len() == base_model.len());
        }
        unit
    }

    /// The unit with `prefix` attached to its first factor, which must not
    /// bear one yet.
    pub fn with_prefix(self, prefix: Prefix) -> (unit: Self)
        requires
            self@.len() > 0,
            self@[0].prefix == Prefix::Metric(0),
        ensures
            unit@ == prefixed(self@, prefix),
            self.wf() ==> unit.wf(),
            unit.weight() == self.weight(),
            unit.base_weight() == self.base_weight(),
    {
        let ghost given = self.model();
        let mut factors = self.factors;
        let mut first = factors.remove(0);
        first.prefix = prefix;
        factors.insert(0, first);
        let unit = Unit { factors };
        proof {
            assert(unit.model() =~= given.update(
                0,
                FactorModel {
                    unit_id: given[0].unit_id,
                    prefix: prefix,
                    exponent: given[0].exponent,
                },
            ));
            assert(unit@ =~= prefixed(factors_view(given), prefix));
            lemma_weight_same_loads(Measure::Cost, unit.model(), given);
            lemma_weight_same_loads(Measure::Base, unit.model(), given);
            if factors_wf(given) {
                assert forall|i: int| 0 <= i < unit.model().len() implies (
                #[trigger] unit.model()[i]).wf() by {
                    assert(given[i].wf());
                }
            }
        }
        unit
    }

    /// The product of both units: the factors of the first, then those of
    /// the second.
    pub fn multiply(self, other: Unit) -> (unit: Self)
        ensures
            unit@ == self@ + other@,
            unit.model() == self.model() + other.model(),
            self.wf() && other.wf() ==> unit.wf(),
            unit.weight() == self.weight() + other.weight(),
            unit.base_weight() == self.base_weight() + other.base_weight(),
    {
        let ghost left = self.model();
        let ghost right = other.model();
        let mut factors = self.factors;
        let mut rest = other.factors;
        factors.append(&mut rest);
        let unit = Unit { factors };
        proof {
            assert(unit.model() =~= left + right);
            lemma_view_concat(left, right);
            lemma_weight_concat(Measure::Cost, left, right);
            lemma_weight_concat(Measure::Base, left, right);
        }
        unit
    }

    /// The unit with every exponent negated.
    #[verifier::rlimit(40)]
    pub fn invert(self) -> (unit: Self)
        requires
            self.wf(),
        ensures
            unit@ == inverted(self@),
            unit.wf(),
            unit.weight() == self.weight(),
            unit.base_weight() == self.base_weight(),
    {
        let ghost given = self.model();
        let mut factors = self.factors;
        let mut i: usize = 0;
        while i < factors.len()
            invariant
                i <= factors.len(),
                factors@.len() == given.len(),
                factors_wf(given),
                forall|k: int|
                    0 <= k < i ==> (#[trigger] factors_model(factors@)[k]) == (FactorModel {
                        unit_id: given[k].unit_id,
                        prefix: given[k].prefix,
                        exponent: factors_model(factors@)[k].exponent,
                    }) && factors_model(factors@)[k].exponent.wf() && factors_model(
                        factors@,
                    )[k].exponent@ == -given[k].exponent@ && factors_model(
                        factors@,
                    )[k].exponent.height() == given[k].exponent.height(),
                forall|k: int|
                    i <= k < factors.len() ==> #[trigger] factors_model(factors@)[k] == given[k],
            decreases factors.len() - i,
        {
            let ghost before = factors_model(factors@);
            assert(before[i as int] == given[i as int] && given[i as int].wf());
            let mut factor = factors.remove(i);
            factor.exponent = factor.exponent.neg();
            factors.insert(i, factor);
            proof {
                let after = factors_model(factors@);
                assert forall|k: int| 0 <= k < i + 1 implies (#[trigger] after[k]) == (
                FactorModel {
                    unit_id: given[k].unit_id,
                    prefix: given[k].prefix,
                    exponent: after[k].exponent,
                }) && after[k].exponent.wf() && after[k].exponent@ == -given[k].exponent@
                    && after[k].exponent.height() == given[k].exponent.height() by {
                    if k < i {
                        assert(after[k] == before[k]);
                    }
                }
                assert forall|k: int| i + 1 <= k < factors.len() implies #[trigger] after[k]
                    == given[k] by {
                    assert(after[k] == before[k]);
                }
            }
            i += 1;
        }
        let unit = Unit { factors };
        proof {
            assert(unit@ =~= inverted(factors_view(given)));
            assert forall|k: int| 0 <= k < unit.model().len() implies (
            #[trigger] unit.model()[k]).wf() by {
                assert(given[k].wf());
            }
            lemma_weight_same_loads(Measure::Cost, unit.model(), given);
            lemma_weight_same_loads(Measure::Base, unit.model(), given);
        }
        unit
    }

    /// The quotient of both units: the factors of the first, then those of
    /// the second with their exponents negated.
    pub fn divide(self, other: Unit) -> (unit: Self)
        requires
            other.wf(),
        ensures
            unit@ == self@ + inverted(other@),
            self.wf() ==> unit.wf(),
            unit.weight() == self.weight() + other.weight(),
            unit.base_weight() == self.base_weight() + other.base_weight(),
    {
        self.multiply(other.invert())
    }

    /// The unit raised to the power `e`: every exponent is multiplied by `e`.
    #[verifier::rlimit(40)]
    pub fn power(self, e: Exponent) -> (unit: Self)
        requires
            self.wf(),
            e.wf(),
            can_raise(self.model(), e.cost()),
        ensures
            unit@ == raised(self@, e@),
            unit.wf(),
            unit.model().len() == self.model().len(),
            forall|i: int|
                0 <= i < self.model().len() ==> (#[trigger] unit.model()[i]).unit_id
                    == self.model()[i].unit_id && unit.model()[i].exponent.cost()
                    <= self.model()[i].exponent.cost() + e.cost(),
    {
        let ghost given = self.model();
        let mut factors = self.factors;
        let mut i: usize = 0;
        while i < factors.len()
            invariant
                i <= factors.len(),
                factors@.len() == given.len(),
                factors_wf(given),
                e.wf(),
                can_raise(given, e.cost()),
                forall|k: int|
                    0 <= k < i ==> (#[trigger] factors_model(factors@)[k]) == (FactorModel {
                        unit_id: given[k].unit_id,
                        prefix: given[k].prefix,
                        exponent: factors_model(factors@)[k].exponent,
                    }) && factors_model(factors@)[k].exponent.wf() && factors_model(
                        factors@,
                    )[k].exponent@ == given[k].exponent@ * e@ && factors_model(
                        factors@,
                    )[k].exponent.cost() <= given[k].exponent.cost() + e.cost(),
                forall|k: int|
                    i <= k < factors.len() ==> #[trigger] factors_model(factors@)[k] == given[k],
            decreases factors.len() - i,
        {
            let ghost before = factors_model(factors@);
            assert(before[i as int] == given[i as int] && given[i as int].wf());
            let factor = factors.remove(i).power(e);
            factors.insert(i, factor);
            proof {
                let after = factors_model(factors@);
                assert forall|k: int| 0 <= k < i + 1 implies (#[trigger] after[k]) == (
                FactorModel {
                    unit_id: given[k].unit_id,
                    prefix: given[k].prefix,
                    exponent: after[k].exponent,
                }) && after[k].exponent.wf() && after[k].exponent@ == given[k].exponent@ * e@
                    && after[k].exponent.cost() <= given[k].exponent.cost() + e.cost() by {
                    if k < i {
                        assert(after[k] == before[k]);
                    }
                }
                assert forall|k: int| i + 1 <= k < factors.len() implies #[trigger] after[k]
                    == given[k] by {
                    assert(after[k] == before[k]);
                }
            }
            i += 1;
        }
        let unit = Unit { factors };
        proof {
            assert(unit@ =~= raised(factors_view(given), e@));
            assert forall|k: int| 0 <= k < unit.model().len() implies (
            #[trigger] unit.model()[k]).wf() by {
                assert(given[k].wf());
            }
        }
        unit
    }

    /// The unit raised to a whole power.
    pub fn powi(self, n: i32) -> (unit: Self)
        requires
            self.wf(),
            can_raise(self.model(), bit_length(abs(n as int) as int + 1)),
        ensures
            unit@ == raised(self@, n as real),
            unit.wf(),
            unit.model().len() == self.model().len(),
            forall|i: int|
                0 <= i < self.model().len() ==> (#[trigger] unit.model()[i]).unit_id
                    == self.model()[i].unit_id && unit.model()[i].exponent.cost()
                    <= self.model()[i].exponent.cost() + bit_length(abs(n as int) as int + 1),
    {
        let e = Rational::from_integer(n as i128);
        self.power(e)
    }
}

impl vstd::std_specs::ops::MulSpecImpl for Unit {
    open spec fn obeys_mul_spec() -> bool {
        false
    }

    open spec fn mul_req(self, rhs: Unit) -> bool {
        true
    }

    open spec fn mul_spec(self, rhs: Unit) -> Unit {
        arbitrary()
    }
}

impl core::ops::Mul for Unit {
    type Output = Unit;

    /// The product of both units: the factors of the first, then those of
    /// the second.
    fn mul(self, rhs: Unit) -> (unit: Unit)
        ensures
            unit@ == self@ + rhs@,
            unit.model() == self.model() + rhs.model(),
            self.wf() && rhs.wf() ==> unit.wf(),
            unit.weight() == self.weight() + rhs.weight(),
            unit.base_weight() == self.base_weight() + rhs.base_weight(),
    {
        self.multiply(rhs)
    }
}

impl vstd::std_specs::ops::DivSpecImpl for Unit {
    open spec fn obeys_div_spec() -> bool {
        false
    }

    open spec fn div_req(self, rhs: Unit) -> bool {
        rhs.wf()
    }

    open spec fn div_spec(self, rhs: Unit) -> Unit {
        arbitrary()
    }
}

impl core::ops::Div for Unit {
    type Output = Unit;

    /// The quotient of both units: the factors of the first, then those of
    /// the second with their exponents negated.
    fn div(self, rhs: Unit) -> (unit: Unit)
        ensures
            unit@ == self@ + inverted(rhs@),
            self.wf() ==> unit.wf(),
            unit.weight() == self.weight() + rhs.weight(),
            unit.base_weight() == self.base_weight() + rhs.base_weight(),
    {
        self.divide(rhs)
    }
}

/// The sum of the costs of the exponents of a product, by what they denote.
pub open spec fn view_cost_sum(s: Seq<FactorView>) -> nat
    decreases s.len(),
{
    if s.len() == 0 {
        0
    } else {
        view_cost_sum(s.drop_last()) + cost_of(s.last().exponent)
    }
}

/// What a factor counts for in a weight, by what it denotes.
pub open spec fn view_load(m: Measure, f: FactorView) -> nat {
    match m {
        Measure::Cost => cost_of(f.exponent),
        Measure::Base => match f.unit_id.kind {
            KindView::Base => cost_of(f.exponent) + 2,
            KindView::Derived(_, base) => cost_of(f.exponent) * base.len() + view_cost_sum(base),
        },
    }
}

/// The weight of a product, by what it denotes.
pub open spec fn view_weight(m: Measure, s: Seq<FactorView>) -> nat
    decreases s.len(),
{
    if s.len() == 0 {
        0
    } else {
        view_weight(m, s.drop_last()) + view_load(m, s.last())
    }
}

/// The costs of well-formed exponents add up to the costs of what they denote.
pub proof fn lemma_view_cost_sum(s: Seq<FactorModel>)
    requires
        forall|i: int| 0 <= i < s.len() ==> (#[trigger] s[i]).exponent.wf(),
    ensures
        cost_sum(s) == view_cost_sum(factors_view(s)),
    decreases s.len(),
{
    if s.len() > 0 {
        assert(factors_view(s).drop_last() =~= factors_view(s.drop_last()));
        assert(s.last() == s[s.len() - 1]);
        assert forall|i: int| 0 <= i < s.drop_last().len() implies (
        #[trigger] s.drop_last()[i]).exponent.wf() by {
            assert(s.drop_last()[i] == s[i]);
        }
        lemma_view_cost_sum(s.drop_last());
        crate::arithmetic::lemma_cost_of(s.last().exponent);
    }
}

/// The load of a well-formed factor is the load of what it denotes.
pub proof fn lemma_view_load(m: Measure, f: FactorModel)
    requires
        f.wf(),
    ensures
        f.load(m) == view_load(m, f.view()),
{
    crate::arithmetic::lemma_cost_of(f.exponent);
    match f.unit_id.kind {
        KindModel::Base => {
            assert(f.exponent.cost() * 1 == f.exponent.cost()) by (nonlinear_arith);
        },
        KindModel::Derived(_, base) => {
            assert(factors_view(base).len() == base.len());
            lemma_view_cost_sum(base);
        },
    }
}

/// The weight of a well-formed product is the weight of what it denotes.
pub proof fn lemma_view_weight(m: Measure, s: Seq<FactorModel>)
    requires
        factors_wf(s),
    ensures
        weight(m, s) == view_weight(m, factors_view(s)),
    decreases s.len(),
{
    if s.len() > 0 {
        assert(factors_view(s).drop_last() =~= factors_view(s.drop_last()));
        assert(s.last() == s[s.len() - 1]);
        assert forall|i: int| 0 <= i < s.drop_last().len() implies (
        #[trigger] s.drop_last()[i]).wf() by {
            assert(s.drop_last()[i] == s[i]);
        }
        lemma_view_weight(m, s.drop_last());
        lemma_view_load(m, s.last());
    }
}

} // verus!
