//! Tests of validity and of the limits within which operations stay in
//! range, for callers that cannot establish them by proof.

use crate::arithmetic::{bit_length, integer_gcd, Rational, COST_LIMIT};
use crate::number::Number;
use crate::quantity::Quantity;
use crate::unit::{
    base_factors_wf, cost_sum, lemma_cost_sum, weight, FactorModel, Measure, Unit, UnitFactor,
    UnitIdentifier, UnitKind, BASE_WEIGHT_LIMIT,
};
use vstd::prelude::*;

verus! {

/// A weight as far as it matters: itself up to the limit, which stands for
/// every larger weight.
pub open spec fn capped(weight: nat, limit: nat) -> nat {
    if weight <= limit {
        weight
    } else {
        limit
    }
}

/// The number of binary digits of `n`.
fn count_bits(n: u128) -> (bits: usize)
    ensures
        bits == bit_length(n as int),
        bits <= 128,
{
    let mut rest = n;
    let mut bits: usize = 0;
    proof {
        vstd::arithmetic::power2::lemma2_to64();
        vstd::arithmetic::power2::lemma_pow2_adds(64, 64);
        crate::arithmetic::lemma_bit_length_fits(n as int, 128);
    }
    while rest > 0
        invariant
            bit_length(n as int) == bits + bit_length(rest as int),
            bits + bit_length(rest as int) <= 128,
        decreases rest,
    {
        rest = rest / 2;
        bits += 1;
    }
    bits
}

impl Rational {
    /// Whether the fraction is in lowest terms with a positive denominator.
    pub fn is_valid(&self) -> (valid: bool)
        ensures
            valid == self.wf(),
    {
        let n = self.numer();
        let d = self.denom();
        d > 0 && n > i128::MIN && integer_gcd(n, d) == 1
    }

    /// The cost of the fraction: the number of binary digits of its height.
    pub fn bits(&self) -> (bits: usize)
        requires
            self.wf(),
        ensures
            bits == self.cost(),
            bits <= 128,
    {
        let n = self.numer();
        let magnitude: u128 = if n < 0 {
            (-n) as u128
        } else {
            n as u128
        };
        count_bits(magnitude + self.denom() as u128)
    }
}

impl Number {
    /// Whether every exponent in the term is valid.
    pub fn is_valid(&self) -> (valid: bool)
        ensures
            valid == self.wf(),
        decreases *self,
    {
        match self {
            Number::Literal(_) => true,
            Number::PrefixFactor(_) => true,
            Number::Fraction(exponent) => exponent.is_valid(),
            Number::Negated(inner) => inner.is_valid(),
            Number::Combined(_, left, right) => left.is_valid() && right.is_valid(),
        }
    }
}

/// The sum of the costs of the exponents, as far as it stays within `limit`.
fn capped_cost_sum(factors: &Vec<UnitFactor>, limit: usize) -> (sum: usize)
    requires
        forall|i: int|
            0 <= i < factors@.len() ==> (#[trigger] crate::unit::factors_model(
                factors@,
            )[i]).exponent.wf(),
        limit < usize::MAX - 128,
    ensures
        sum == capped(cost_sum(crate::unit::factors_model(factors@)), (limit + 1) as nat),
{
    let ghost model = crate::unit::factors_model(factors@);
    let mut sum: usize = 0;
    let mut i: usize = 0;
    assert(model.take(0) =~= Seq::empty());
    while i < factors.len()
        invariant
            i <= factors.len(),
            model == crate::unit::factors_model(factors@),
            forall|k: int| 0 <= k < model.len() ==> (#[trigger] model[k]).exponent.wf(),
            limit < usize::MAX - 128,
            sum <= limit,
            sum == cost_sum(model.take(i as int)),
        decreases factors.len() - i,
    {
        proof {
            assert(model.take(i + 1).drop_last() =~= model.take(i as int));
            assert(model.take(i + 1).last() == model[i as int]);
            assert(model[i as int].exponent.wf());
            lemma_cost_sum_monotonic(model, i + 1);
        }
        sum = sum + factors[i].exponent.bits();
        if sum > limit {
            return limit + 1;
        }
        i += 1;
    }
    assert(model.take(factors.len() as int) =~= model);
    sum
}

/// The costs of a part of a product sum to no more than those of the whole.
proof fn lemma_cost_sum_monotonic(s: Seq<FactorModel>, n: int)
    requires
        0 <= n <= s.len(),
    ensures
        cost_sum(s.take(n)) <= cost_sum(s),
    decreases s.len(),
{
    if n == s.len() {
        assert(s.take(n) =~= s);
    } else {
        assert(s.drop_last().take(n) =~= s.take(n));
        lemma_cost_sum_monotonic(s.drop_last(), n);
    }
}

/// A part of a product weighs no more than the whole.
proof fn lemma_weight_monotonic(m: Measure, s: Seq<FactorModel>, n: int)
    requires
        0 <= n <= s.len(),
    ensures
        weight(m, s.take(n)) <= weight(m, s),
    decreases s.len(),
{
    if n == s.len() {
        assert(s.take(n) =~= s);
    } else {
        assert(s.drop_last().take(n) =~= s.take(n));
        lemma_weight_monotonic(m, s.drop_last(), n);
    }
}

impl UnitIdentifier {
    /// Whether the identifier is valid: a derived unit is defined by valid
    /// numbers, in base units only, within the weight limit.
    pub fn is_valid(&self) -> (valid: bool)
        ensures
            valid == self.wf(),
    {
        match &self.kind {
            UnitKind::Base => true,
            UnitKind::Derived(factor, base) => {
                if !factor.is_valid() {
                    return false;
                }
                let ghost model = base.model();
                let mut i: usize = 0;
                while i < base.factors.len()
                    invariant
                        i <= base.factors.len(),
                        model == base.model(),
                        self.model().kind == crate::unit::KindModel::Derived(*factor, model),
                        forall|k: int|
                            0 <= k < i ==> (#[trigger] model[k]).exponent.wf()
                                && model[k].unit_id.kind is Base,
                    decreases base.factors.len() - i,
                {
                    let f = &base.factors[i];
                    assert(model[i as int] == f.model());
                    if !f.exponent.is_valid() || !f.unit_id.is_base() {
                        assert(!(model[i as int].exponent.wf() && model[i as int].unit_id.kind
                            is Base));
                        assert(!base_factors_wf(model));
                        assert(self.model().kind == crate::unit::KindModel::Derived(
                            *factor,
                            model,
                        ));
                        return false;
                    }
                    i += 1;
                }
                proof {
                    lemma_cost_sum(model);
                }
                capped_cost_sum(&base.factors, BASE_WEIGHT_LIMIT) <= BASE_WEIGHT_LIMIT
            },
        }
    }

    /// The number of factors of the unit written in base units.
    fn base_length(&self) -> (n: usize)
        ensures
            n == self.model().base_len(),
    {
        match &self.kind {
            UnitKind::Base => 1,
            UnitKind::Derived(_, base) => base.factors.len(),
        }
    }

    /// The weight of the unit written in base units, as far as it stays
    /// within the limit.
    fn capped_base_cost(&self) -> (cost: usize)
        requires
            self.wf(),
        ensures
            cost == capped(self.model().base_cost(), (COST_LIMIT + 1) as nat),
    {
        match &self.kind {
            UnitKind::Base => 2,
            UnitKind::Derived(_, base) => capped_cost_sum(&base.factors, COST_LIMIT),
        }
    }
}

impl UnitFactor {
    /// Whether exponent and identifier are valid.
    pub fn is_valid(&self) -> (valid: bool)
        ensures
            valid == self.wf(),
    {
        self.exponent.is_valid() && self.unit_id.is_valid()
    }

    /// What the factor counts for in a weight, as far as it stays within
    /// the limit.
    fn capped_load(&self, m: Measure) -> (load: usize)
        requires
            self.wf(),
        ensures
            load == capped(self.model().load(m), (COST_LIMIT + 1) as nat),
    {
        let cost = self.exponent.bits();
        match m {
            Measure::Cost => {
                if cost > COST_LIMIT {
                    COST_LIMIT + 1
                } else {
                    cost
                }
            },
            Measure::Base => {
                let length = self.unit_id.base_length();
                let base = self.unit_id.capped_base_cost();
                if base > COST_LIMIT {
                    return COST_LIMIT + 1;
                }
                if length > COST_LIMIT {
                    assert(cost * length >= length) by (nonlinear_arith)
                        requires
                            cost >= 1,
                            length >= 0,
                    ;
                    return COST_LIMIT + 1;
                }
                assert(cost * length <= 128 * 127) by (nonlinear_arith)
                    requires
                        cost <= 128,
                        length <= 127,
                ;
                let load = cost * length + base;
                if load > COST_LIMIT {
                    COST_LIMIT + 1
                } else {
                    load
                }
            },
        }
    }
}

impl Unit {
    /// Whether every factor is valid.
    pub fn is_valid(&self) -> (valid: bool)
        ensures
            valid == self.wf(),
    {
        let mut i: usize = 0;
        while i < self.factors.len()
            invariant
                i <= self.factors.len(),
                forall|k: int| 0 <= k < i ==> (#[trigger] self.model()[k]).wf(),
            decreases self.factors.len() - i,
        {
            if !self.factors[i].is_valid() {
                assert(!self.model()[i as int].wf());
                return false;
            }
            i += 1;
        }
        true
    }

    /// Whether the unit can define a derived unit: every factor is a valid
    /// power of a base unit, and the unit weighs at most the limit for such
    /// definitions.
    pub fn is_base_expression(&self) -> (r: bool)
        ensures
            r == (base_factors_wf(self.model()) && self.weight() <= BASE_WEIGHT_LIMIT),
    {
        let ghost model = self.model();
        let mut i: usize = 0;
        while i < self.factors.len()
            invariant
                i <= self.factors.len(),
                model == self.model(),
                forall|k: int|
                    0 <= k < i ==> (#[trigger] model[k]).exponent.wf()
                        && model[k].unit_id.kind is Base,
            decreases self.factors.len() - i,
        {
            let f = &self.factors[i];
            assert(model[i as int] == f.model());
            if !f.exponent.is_valid() || !f.unit_id.is_base() {
                assert(!(model[i as int].exponent.wf() && model[i as int].unit_id.kind is Base));
                return false;
            }
            i += 1;
        }
        proof {
            lemma_cost_sum(model);
        }
        capped_cost_sum(&self.factors, BASE_WEIGHT_LIMIT) <= BASE_WEIGHT_LIMIT
    }

    /// Whether every exponent of the unit can be multiplied by `e` within
    /// the range of the exponents' integers.
    pub fn can_be_raised(&self, e: &Rational) -> (r: bool)
        requires
            self.wf(),
            e.wf(),
        ensures
            r == crate::unit::can_raise(self.model(), e.cost()),
    {
        let cost = e.bits();
        let mut i: usize = 0;
        while i < self.factors.len()
            invariant
                i <= self.factors.len(),
                self.wf(),
                cost == e.cost(),
                cost <= 128,
                forall|k: int|
                    0 <= k < i ==> (#[trigger] self.model()[k]).exponent.cost() + cost
                        <= COST_LIMIT,
            decreases self.factors.len() - i,
        {
            assert(self.model()[i as int].wf());
            if self.factors[i].exponent.bits() + cost > COST_LIMIT {
                assert(self.model()[i as int].exponent.cost() + cost > COST_LIMIT);
                return false;
            }
            i += 1;
        }
        true
    }

    /// The weight of the unit by the given measure, as far as it stays
    /// within the limit: one more than the limit stands for every larger
    /// weight.
    pub fn capped_weight(&self, m: Measure) -> (w: usize)
        requires
            self.wf(),
        ensures
            w == capped(weight(m, self.model()), (COST_LIMIT + 1) as nat),
    {
        let ghost model = self.model();
        let mut sum: usize = 0;
        let mut i: usize = 0;
        assert(model.take(0) =~= Seq::empty());
        while i < self.factors.len()
            invariant
                i <= self.factors.len(),
                model == self.model(),
                self.wf(),
                sum <= COST_LIMIT,
                sum == weight(m, model.take(i as int)),
            decreases self.factors.len() - i,
        {
            proof {
                assert(model.take(i + 1).drop_last() =~= model.take(i as int));
                assert(model.take(i + 1).last() == model[i as int]);
                assert(model[i as int].wf());
                lemma_weight_monotonic(m, model, i + 1);
            }
            sum = sum + self.factors[i].capped_load(m);
            if sum > COST_LIMIT {
                return COST_LIMIT + 1;
            }
            i += 1;
        }
        assert(model.take(self.factors.len() as int) =~= model);
        sum
    }

    /// Whether the unit weighs at most `limit` by the measure `m`.
    pub fn weighs_at_most(&self, m: Measure, limit: usize) -> (r: bool)
        requires
            self.wf(),
            limit <= COST_LIMIT,
        ensures
            r == (weight(m, self.model()) <= limit),
    {
        self.capped_weight(m) <= limit
    }
}

impl Quantity {
    /// Whether value and unit are valid.
    pub fn is_valid(&self) -> (valid: bool)
        ensures
            valid == self.wf(),
    {
        self.unsafe_value().is_valid() && self.unit().is_valid()
    }
}

} // verus!
