//! The sort key of a unit identifier.
//!
//! A base unit is keyed by its name with exponent one. A derived unit is
//! keyed by the names and exponents of the base units it is made of, in
//! canonical order, with the exponents scaled to whole numbers without a
//! common divisor, the first of them positive. Units whose expressions in
//! base units are powers of one another so share a key.

use crate::arithmetic::{
    abs, denominator, gcd, integer_gcd, lemma_bit_length_bounds, lemma_cost_limit,
    lemma_lowest_terms, numerator, quotient, Exponent, Rational,
};
use crate::order::{key_view, key_wf, KeyView, SortKey};
use crate::product::{all_agree, canonical_form, canonicalize_keyed, KeyFn, Keyed};
use crate::unit::{
    base_factors_wf, factors_model, factors_view, factors_wf, weight, FactorView, IdView,
    KindView, Measure, UnitFactor, UnitIdentifier, UnitKind, BASE_WEIGHT_LIMIT,
};
use vstd::arithmetic::power2::{lemma_pow2_adds, pow2};
use vstd::prelude::*;

verus! {

/// The key of a base unit: its name with exponent one.
pub open spec fn shallow_key(id: IdView) -> KeyView {
    seq![(id.name, 1real)]
}

/// Keys every identifier by its name alone.
pub open spec fn shallow_keys() -> KeyFn {
    |id: IdView| shallow_key(id)
}

/// Keys every identifier by its sort key.
pub open spec fn sort_keys() -> KeyFn {
    |id: IdView| sort_key(id)
}

/// The names and exponents of a product of base units.
pub open spec fn raw_key(s: Seq<FactorView>) -> KeyView {
    s.map_values(|f: FactorView| (f.unit_id.name, f.exponent))
}

/// The key with every exponent negated if the first one is negative.
pub open spec fn signed_key(k: KeyView) -> KeyView {
    if k.len() > 0 && k[0].1 < 0real {
        k.map_values(|e: (Seq<char>, real)| (e.0, -e.1))
    } else {
        k
    }
}

/// The product of the denominators of the exponents.
pub open spec fn denominators_product(k: KeyView) -> int
    decreases k.len(),
{
    if k.len() == 0 {
        1
    } else {
        denominators_product(k.drop_last()) * denominator(k.last().1)
    }
}

/// The exponent `e` times `d`, a whole number where `d` is a multiple of the
/// denominator.
pub open spec fn scaled(e: real, d: int) -> int {
    numerator(e) * (d / denominator(e))
}

/// The greatest common divisor of the scaled exponents.
pub open spec fn common_divisor(k: KeyView, d: int) -> nat
    decreases k.len(),
{
    if k.len() == 0 {
        0
    } else {
        gcd(common_divisor(k.drop_last(), d), abs(scaled(k.last().1, d)))
    }
}

/// One exponent scaled by `d` and divided by `g`.
pub open spec fn reduced_exponent(e: real, d: int, g: int) -> real {
    if g == 0 {
        scaled(e, d) as real
    } else {
        quotient(scaled(e, d), g)
    }
}

/// The key with its exponents made positive in front, whole, and free of a
/// common divisor.
pub open spec fn normalized_key(k: KeyView) -> KeyView {
    let signed = signed_key(k);
    let d = denominators_product(signed);
    let g = common_divisor(signed, d) as int;
    signed.map_values(|e: (Seq<char>, real)| (e.0, reduced_exponent(e.1, d, g)))
}

/// The sort key of an identifier.
pub open spec fn sort_key(id: IdView) -> KeyView {
    match id.kind {
        KindView::Base => shallow_key(id),
        KindView::Derived(_, base) => normalized_key(
            raw_key(canonical_form(shallow_keys(), base)),
        ),
    }
}

/// The exponents of a key are within `bits` binary digits in all.
spec fn key_weight(key: Seq<(String, Exponent)>) -> nat
    decreases key.len(),
{
    if key.len() == 0 {
        0
    } else {
        key_weight(key.drop_last()) + key.last().1.cost()
    }
}

proof fn lemma_product_bound(d: int, w: nat, h: int, c: nat)
    requires
        0 <= d <= pow2(w),
        0 <= h < pow2(c),
    ensures
        d * h < pow2(w + c),
{
    lemma_pow2_adds(w, c);
    vstd::arithmetic::power2::lemma_pow2_pos(w);
    let pw = pow2(w) as int;
    let pc = pow2(c) as int;
    assert(d * h < pw * pc) by (nonlinear_arith)
        requires
            0 <= d <= pw,
            0 < pw,
            0 <= h < pc,
    ;
}

/// The names and exponents of canonical base factors, negated throughout if
/// the first exponent is negative.
fn signed_entries(factors: &Vec<UnitFactor>) -> (key: SortKey)
    requires
        factors_wf(factors_model(factors@)),
    ensures
        key_wf(key@),
        key_view(key@) == signed_key(raw_key(factors_view(factors_model(factors@)))),
        key_weight(key@) == weight(Measure::Cost, factors_model(factors@)),
{
    let ghost model = factors_model(factors@);
    let ghost raw = raw_key(factors_view(model));
    let mut key: SortKey = Vec::new();
    if factors.len() == 0 {
        assert(key_view(key@) =~= raw);
        return key;
    }
    assert(model[0].wf());
    let negative = factors[0].exponent.is_negative();
    let mut i: usize = 0;
    while i < factors.len()
        invariant
            i <= factors.len(),
            model == factors_model(factors@),
            raw == raw_key(factors_view(model)),
            factors_wf(model),
            negative == (raw[0].1 < 0real),
            factors.len() > 0,
            key@.len() == i,
            key_wf(key@),
            key_view(key@) =~= signed_key(raw).take(i as int),
            key_weight(key@) == weight(Measure::Cost, model.take(i as int)),
        decreases factors.len() - i,
    {
        assert(model[i as int].wf());
        let exponent = if negative {
            factors[i].exponent.neg()
        } else {
            factors[i].exponent
        };
        let ghost before = key@;
        key.push((factors[i].unit_id.name.clone(), exponent));
        proof {
            assert(key@.drop_last() =~= before);
            assert(model.take(i + 1).drop_last() =~= model.take(i as int));
        }
        i += 1;
    }
    assert(model.take(factors.len() as int) =~= model);
    assert(signed_key(raw).take(factors.len() as int) =~= signed_key(raw));
    key
}

/// The product of the denominators of a key.
fn product_of_denominators(key: &SortKey) -> (d: i128)
    requires
        key_wf(key@),
        key_weight(key@) <= BASE_WEIGHT_LIMIT,
    ensures
        d == denominators_product(key_view(key@)),
        1 <= d <= pow2(key_weight(key@)),
{
    let ghost view = key_view(key@);
    let mut d: i128 = 1;
    let mut i: usize = 0;
    proof {
        vstd::arithmetic::power2::lemma2_to64();
        assert(view.take(0) =~= Seq::empty());
        assert(key@.take(0) =~= Seq::empty());
    }
    while i < key.len()
        invariant
            i <= key.len(),
            view == key_view(key@),
            key_wf(key@),
            key_weight(key@) <= BASE_WEIGHT_LIMIT,
            d == denominators_product(view.take(i as int)),
            1 <= d <= pow2(key_weight(key@.take(i as int))),
            key_weight(key@.take(i as int)) <= key_weight(key@),
        decreases key.len() - i,
    {
        let e = key[i].1;
        proof {
            assert(view.take(i + 1).drop_last() =~= view.take(i as int));
            assert(key@.take(i + 1).drop_last() =~= key@.take(i as int));
            assert(view.take(i + 1).last() == view[i as int]);
            lemma_lowest_terms(e);
            lemma_bit_length_bounds(e.height());
            lemma_product_bound(
                d as int,
                key_weight(key@.take(i as int)),
                e.spec_denom(),
                e.cost(),
            );
            lemma_key_weight_take(key@, i + 1);
            lemma_cost_limit(d * e.spec_denom(), key_weight(key@.take(i + 1)));
            assert(d * e.spec_denom() >= 1) by (nonlinear_arith)
                requires
                    d >= 1,
                    e.spec_denom() >= 1,
            ;
        }
        d = d * e.denom();
        i += 1;
    }
    assert(view.take(key.len() as int) =~= view);
    assert(key@.take(key.len() as int) =~= key@);
    d
}

/// The weight of a part of a key is at most that of the whole.
proof fn lemma_key_weight_take(key: Seq<(String, Exponent)>, n: int)
    requires
        0 <= n <= key.len(),
    ensures
        key_weight(key.take(n)) <= key_weight(key),
    decreases key.len(),
{
    if n == key.len() {
        assert(key.take(n) =~= key);
    } else {
        assert(key.drop_last().take(n) =~= key.take(n));
        lemma_key_weight_take(key.drop_last(), n);
    }
}

/// The cost of one exponent is at most the weight of the key.
proof fn lemma_key_weight_index(key: Seq<(String, Exponent)>, i: int)
    requires
        0 <= i < key.len(),
    ensures
        key[i].1.cost() <= key_weight(key),
    decreases key.len(),
{
    if i < key.len() - 1 {
        lemma_key_weight_index(key.drop_last(), i);
    }
}

/// One exponent of a key times the product of all denominators.
fn scale_exponent(key: &SortKey, i: usize, d: i128) -> (s: i128)
    requires
        key_wf(key@),
        key_weight(key@) <= BASE_WEIGHT_LIMIT,
        i < key.len(),
        1 <= d <= pow2(key_weight(key@)),
    ensures
        s == scaled(key_view(key@)[i as int].1, d as int),
        s > i128::MIN,
{
    let e = key[i].1;
    proof {
        lemma_lowest_terms(e);
        lemma_bit_length_bounds(e.height());
        lemma_key_weight_index(key@, i as int);
        let q = d as int / e.spec_denom();
        assert(0 <= q <= d) by (nonlinear_arith)
            requires
                q == d as int / e.spec_denom(),
                d >= 1,
                e.spec_denom() >= 1,
        ;
        let m = abs(e.spec_numer()) as int;
        lemma_product_bound(q, key_weight(key@), m, e.cost());
        lemma_cost_limit(q * m, key_weight(key@) + e.cost());
        assert(q * m == m * q) by (nonlinear_arith);
        assert(-(m * q) <= e.spec_numer() * q <= m * q) by (nonlinear_arith)
            requires
                m == if e.spec_numer() < 0 {
                    -e.spec_numer()
                } else {
                    e.spec_numer()
                },
                q >= 0,
        ;
    }
    e.numer() * (d / e.denom())
}

/// The greatest common divisor of all exponents of a key, scaled by `d`.
fn divisor_of_scaled(key: &SortKey, d: i128) -> (g: i128)
    requires
        key_wf(key@),
        key_weight(key@) <= BASE_WEIGHT_LIMIT,
        1 <= d <= pow2(key_weight(key@)),
    ensures
        g == common_divisor(key_view(key@), d as int),
        g >= 0,
{
    let ghost view = key_view(key@);
    let mut g: i128 = 0;
    let mut i: usize = 0;
    assert(view.take(0) =~= Seq::empty());
    while i < key.len()
        invariant
            i <= key.len(),
            view == key_view(key@),
            key_wf(key@),
            key_weight(key@) <= BASE_WEIGHT_LIMIT,
            1 <= d <= pow2(key_weight(key@)),
            g == common_divisor(view.take(i as int), d as int),
            g >= 0,
        decreases key.len() - i,
    {
        let s = scale_exponent(key, i, d);
        proof {
            assert(view.take(i + 1).drop_last() =~= view.take(i as int));
            assert(view.take(i + 1).last() == view[i as int]);
        }
        g = integer_gcd(g, s);
        i += 1;
    }
    assert(view.take(key.len() as int) =~= view);
    g
}

impl UnitIdentifier {
    /// The key by which the identifier is ordered and grouped.
    #[verifier::rlimit(40)]
    pub fn sort_key(&self) -> (key: SortKey)
        requires
            self.wf(),
        ensures
            key_wf(key@),
            key_view(key@) == sort_key(self@),
    {
        match &self.kind {
            UnitKind::Base => {
                let mut key: SortKey = Vec::new();
                key.push((self.name.clone(), Rational::from_integer(1)));
                assert(key_view(key@) =~= shallow_key(self@));
                key
            },
            UnitKind::Derived(_, base) => {
                let ghost model = base.model();
                assert(base_factors_wf(model) && weight(Measure::Cost, model) <= BASE_WEIGHT_LIMIT);
                let mut items: Vec<Keyed> = Vec::new();
                let mut i: usize = 0;
                while i < base.factors.len()
                    invariant
                        i <= base.factors.len(),
                        model == base.model(),
                        base_factors_wf(model),
                        items@.len() == i,
                        all_agree(items@, shallow_keys()),
                        forall|k: int|
                            0 <= k < i ==> (#[trigger] items@[k]).factor.model() == model[k],
                    decreases base.factors.len() - i,
                {
                    assert(model[i as int].exponent.wf() && model[i as int].unit_id.kind is Base);
                    let factor = base.factors[i].duplicate();
                    let mut key: SortKey = Vec::new();
                    key.push((factor.unit_id.name.clone(), Rational::from_integer(1)));
                    assert(key_view(key@) =~= shallow_key(factor@.unit_id));
                    items.push(Keyed { key, factor });
                    i += 1;
                }
                assert(crate::product::keyed_model(items@) =~= model);
                let canonical = canonicalize_keyed(items, Ghost(shallow_keys()));
                let signed = signed_entries(&canonical);
                let d = product_of_denominators(&signed);
                let g = divisor_of_scaled(&signed, d);
                let ghost view = key_view(signed@);
                let mut key: SortKey = Vec::new();
                let mut j: usize = 0;
                while j < signed.len()
                    invariant
                        j <= signed.len(),
                        view == key_view(signed@),
                        key_wf(signed@),
                        key_weight(signed@) <= BASE_WEIGHT_LIMIT,
                        1 <= d <= pow2(key_weight(signed@)),
                        g >= 0,
                        key_wf(key@),
                        key@.len() == j,
                        forall|k: int|
                            0 <= k < j ==> (#[trigger] key_view(key@)[k]) == (
                                view[k].0,
                                reduced_exponent(view[k].1, d as int, g as int),
                            ),
                    decreases signed.len() - j,
                {
                    let s = scale_exponent(&signed, j, d);
                    let exponent = if g == 0 {
                        Rational::from_integer(s)
                    } else {
                        Rational::new(s, g)
                    };
                    let ghost before = key@;
                    key.push((signed[j].0.clone(), exponent));
                    proof {
                        assert forall|k: int| 0 <= k < j + 1 implies (#[trigger] key_view(
                            key@,
                        )[k]) == (view[k].0, reduced_exponent(view[k].1, d as int, g as int)) by {
                            if k < j {
                                assert(key_view(key@)[k] == key_view(before)[k]);
                            }
                        }
                    }
                    j += 1;
                }
                assert(key_view(key@) =~= normalized_key(
                    raw_key(canonical_form(shallow_keys(), self@.kind->Derived_1)),
                ));
                key
            },
        }
    }
}

} // verus!
