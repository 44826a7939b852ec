//! What holds of units and quantities.
//!
//! Multiplication, division and powers of units obey the laws of a
//! commutative group up to canonical form, for factors that the sort key
//! tells apart. Canonical forms are sorted, free of exponent zero, and
//! hold each prefix and identifier once. Conversion to an equal unit is
//! the identity, and zero converts to every unit.

use crate::canonical::{base_representation, expanded};
use crate::idempotence::{lemma_simplified_not_plain, lemma_simplified_unit_shape};
use crate::key::sort_keys;
use crate::number::NumberView;
use crate::prefix::Prefix;
use crate::product::{drop_trivial, factor_lt, merge_runs, same_merge_key, stable_sort, Layout};
use crate::quantity::{canonical, converted_value, convertible, QuantityView};
use crate::simplify::{simplification_fits, simplified};
use crate::theory::{
    distinct_keys, every, expanded_factor, exponent_sum, identifiers, lemma_all_stable_sort,
    lemma_canonical_by_sums, lemma_canonical_empty, lemma_canonical_same_sums,
    lemma_canonical_within, lemma_distinct_keys, lemma_drop_trivial_nowhere_zero,
    lemma_drop_trivial_strict, lemma_every_stable_sort, lemma_expanded_part_within,
    lemma_expanded_sums_by_factors, lemma_expanded_within, lemma_merge_runs_strict,
    lemma_merged_stable_sort, lemma_pair_lt_irreflexive, lemma_stable_sort_sorted,
    lemma_sum_concat, lemma_sum_inverted, lemma_sums_by_factors, lemma_within_by_factors,
    lemma_within_pairs, merged_throughout, nowhere_zero, sorted, within,
};
use crate::unit::{inverted, raised, FactorView, IdView};
use vstd::prelude::*;

verus! {

/// Multiplication of units is commutative up to canonical form, for
/// factors that the sort key tells apart.
pub proof fn law_product_commutative(a: Seq<FactorView>, b: Seq<FactorView>)
    requires
        distinct_keys(a + b),
    ensures
        canonical(a + b) == canonical(b + a),
{
    let s = a + b;
    let dom = identifiers(s);
    lemma_distinct_keys(s);
    assert(within(b + a, dom)) by {
        assert forall|i: int| 0 <= i < (b + a).len() implies dom.contains(
            (#[trigger] (b + a)[i]).unit_id,
        ) by {
            if i < b.len() {
                assert((b + a)[i] == s[a.len() + i]);
            } else {
                assert((b + a)[i] == s[i - b.len()]);
            }
        }
    }
    assert forall|p: Prefix, id: IdView| #[trigger]
        exponent_sum(a + b, p, id) == exponent_sum(b + a, p, id) by {
        lemma_sum_concat(a, b, p, id);
        lemma_sum_concat(b, a, p, id);
    }
    lemma_canonical_by_sums(sort_keys(), dom, a + b, b + a);
}

/// Multiplication of units is associative.
pub proof fn law_product_associative(a: Seq<FactorView>, b: Seq<FactorView>, c: Seq<FactorView>)
    ensures
        (a + b) + c == a + (b + c),
        canonical((a + b) + c) == canonical(a + (b + c)),
{
    assert((a + b) + c =~= a + (b + c));
}

/// The scalar unit is neutral in multiplication.
pub proof fn law_scalar_is_neutral(u: Seq<FactorView>)
    ensures
        u + Seq::<FactorView>::empty() == u,
        Seq::<FactorView>::empty() + u == u,
{
    assert(u + Seq::<FactorView>::empty() =~= u);
    assert(Seq::<FactorView>::empty() + u =~= u);
}

/// A unit divided by itself is the scalar unit up to canonical form, for
/// factors that the sort key tells apart.
pub proof fn law_self_quotient_is_scalar(u: Seq<FactorView>)
    requires
        distinct_keys(u),
    ensures
        canonical(u + inverted(u)) == Seq::<FactorView>::empty(),
{
    let dom = identifiers(u);
    let none = Seq::<FactorView>::empty();
    let quotient = u + inverted(u);
    lemma_distinct_keys(u);
    assert(within(quotient, dom)) by {
        assert forall|i: int| 0 <= i < quotient.len() implies dom.contains(
            (#[trigger] quotient[i]).unit_id,
        ) by {
            if i >= u.len() {
                assert(quotient[i].unit_id == u[i - u.len()].unit_id);
            }
        }
    }
    assert forall|p: Prefix, id: IdView| #[trigger]
        exponent_sum(quotient, p, id) == exponent_sum(none, p, id) by {
        lemma_sum_concat(u, inverted(u), p, id);
        lemma_sum_inverted(u, p, id);
    }
    lemma_canonical_by_sums(sort_keys(), dom, quotient, none);
    lemma_canonical_empty(sort_keys());
}

/// A power of a power is the power by the product of the exponents.
pub proof fn law_power_of_power(u: Seq<FactorView>, n: int, m: int)
    ensures
        raised(raised(u, n as real), m as real) == raised(u, (n * m) as real),
        canonical(raised(raised(u, n as real), m as real)) == canonical(
            raised(u, (n * m) as real),
        ),
{
    let twice = raised(raised(u, n as real), m as real);
    let once = raised(u, (n * m) as real);
    assert forall|i: int| 0 <= i < u.len() implies #[trigger] twice[i] == once[i] by {
        let e = u[i].exponent;
        assert((e * (n as real)) * (m as real) == e * ((n * m) as real)) by (nonlinear_arith);
    }
    assert(twice =~= once);
}

/// Bringing a canonical form into canonical form changes nothing, for
/// factors that the sort key tells apart.
pub proof fn law_canonical_idempotent(s: Seq<FactorView>)
    requires
        distinct_keys(s),
    ensures
        canonical(canonical(s)) == canonical(s),
{
    let key = sort_keys();
    let dom = identifiers(s);
    lemma_distinct_keys(s);
    lemma_canonical_within(key, s, dom);
    lemma_canonical_same_sums(key, s);
    lemma_canonical_by_sums(key, dom, canonical(s), s);
}

/// A canonical form holds no factor of exponent zero, and lists its
/// factors by sort key, then by prefix, then by exponent.
pub proof fn law_canonical_is_sorted(s: Seq<FactorView>)
    ensures
        nowhere_zero(canonical(s)),
        sorted(Layout::Natural, sort_keys(), canonical(s)),
{
    let key = sort_keys();
    let kept = drop_trivial(merge_runs(stable_sort(Layout::MergeKey, key, s)));
    lemma_drop_trivial_nowhere_zero(merge_runs(stable_sort(Layout::MergeKey, key, s)));
    let holds = |f: FactorView| f.exponent != 0real;
    assert(every(kept, holds));
    lemma_every_stable_sort(Layout::Natural, key, kept, holds);
    assert forall|i: int| 0 <= i < canonical(s).len() implies (#[trigger] canonical(s)[i]).exponent
        != 0real by {
        assert(holds(canonical(s)[i]));
    }
    lemma_stable_sort_sorted(Layout::Natural, key, kept);
}

/// A canonical form holds at most one factor of each prefix and
/// identifier, for factors that the sort key tells apart.
pub proof fn law_canonical_is_merged(s: Seq<FactorView>)
    requires
        distinct_keys(s),
    ensures
        merged_throughout(canonical(s)),
{
    let key = sort_keys();
    let dom = identifiers(s);
    let holds = |p: Prefix, id: IdView| dom.contains(id);
    lemma_distinct_keys(s);
    let sorted_s = stable_sort(Layout::MergeKey, key, s);
    lemma_within_pairs(s, dom);
    lemma_all_stable_sort(Layout::MergeKey, key, s, holds);
    lemma_within_pairs(sorted_s, dom);
    lemma_stable_sort_sorted(Layout::MergeKey, key, s);
    lemma_merge_runs_strict(key, dom, sorted_s);
    lemma_drop_trivial_strict(key, merge_runs(sorted_s));
    let kept = drop_trivial(merge_runs(sorted_s));
    assert forall|i: int, j: int| 0 <= i < j < kept.len() implies !same_merge_key(
        #[trigger] kept[i],
        #[trigger] kept[j],
    ) by {
        assert(factor_lt(Layout::MergeKey, key, kept[i], kept[j]));
        if same_merge_key(kept[i], kept[j]) {
            lemma_pair_lt_irreflexive(key, kept[i], kept[j]);
        }
    }
    lemma_merged_stable_sort(Layout::Natural, key, kept);
}

/// The canonical form does not depend on the order of the factors:
/// products with the same factors, each as often, have the same canonical
/// form, for factors that the sort key tells apart.
pub proof fn law_canonical_order(a: Seq<FactorView>, b: Seq<FactorView>)
    requires
        a.to_multiset() == b.to_multiset(),
        distinct_keys(a),
    ensures
        canonical(a) == canonical(b),
{
    lemma_distinct_keys(a);
    lemma_within_by_factors(a, b);
    lemma_sums_by_factors(a, b);
    lemma_canonical_by_sums(sort_keys(), identifiers(a), a, b);
}

/// A unit in base units does not depend on the order of its factors:
/// units with the same factors, each as often, are the same in base units,
/// for base units that the sort key tells apart.
pub proof fn law_base_representation_order(a: Seq<FactorView>, b: Seq<FactorView>)
    requires
        a.to_multiset() == b.to_multiset(),
        distinct_keys(expanded(a)),
    ensures
        base_representation(a) == base_representation(b),
{
    let dom = identifiers(expanded(a));
    lemma_distinct_keys(expanded(a));
    lemma_expanded_sums_by_factors(a, b);
    a.to_multiset_ensures();
    b.to_multiset_ensures();
    assert forall|i: int| 0 <= i < b.len() implies within(
        expanded_factor(#[trigger] b[i]),
        dom,
    ) by {
        assert(b.contains(b[i]));
        assert(a.to_multiset().count(b[i]) > 0);
        assert(a.contains(b[i]));
        let k = choose|k: int| 0 <= k < a.len() && a[k] == b[i];
        lemma_expanded_part_within(a, k);
    }
    lemma_expanded_within(b, dom);
    lemma_canonical_by_sums(sort_keys(), dom, expanded(a), expanded(b));
}

/// Converting to a unit that is the same up to canonical form succeeds
/// and keeps the value.
pub proof fn law_conversion_to_equal_unit(
    value: NumberView,
    own: Seq<FactorView>,
    target: Seq<FactorView>,
)
    requires
        canonical(own) == canonical(target),
    ensures
        convertible(value, own, target),
        converted_value(value, own, target) == value,
{
}

/// A literal zero converts to every unit and stays as it is.
pub proof fn law_zero_converts(value: NumberView, own: Seq<FactorView>, target: Seq<FactorView>)
    requires
        value.is_zero(),
    ensures
        convertible(value, own, target),
        converted_value(value, own, target) == value,
{
}

/// Simplifying once more changes nothing, for a quantity that converts to
/// a plain number.
pub proof fn law_simplified_plain_number(q: QuantityView)
    requires
        convertible(q.value, q.unit, Seq::<FactorView>::empty()),
    ensures
        simplified(simplified(q)) == simplified(q),
{
}

/// Simplifying a simplified quantity leaves its unit as it is, for a
/// quantity that can be simplified and whose base units the sort key
/// tells apart.
pub proof fn law_simplified_unit_is_fixed(q: QuantityView)
    requires
        simplification_fits(q),
        distinct_keys(expanded(q.unit)),
    ensures
        simplified(simplified(q)).unit == simplified(q).unit,
{
    let none = Seq::<FactorView>::empty();
    if !convertible(q.value, q.unit, none) {
        lemma_simplified_unit_shape(q);
        if simplified(q).unit.len() == 0 {
            assert(simplified(q).unit =~= none);
        } else {
            lemma_simplified_not_plain(q);
        }
    }
}

} // verus!
