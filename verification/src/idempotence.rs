//! Why simplification reaches a fixed point.
//!
//! In base units a simplified quantity is what the quantity was, and the
//! factors of its unit have sort keys that differ from one another. So
//! each factor is a run of its own and its own target, and simplifying
//! once more changes nothing.

use crate::canonical::{base_representation, expanded};
use crate::key::{sort_key, sort_keys};
use crate::laws::{law_canonical_idempotent, law_canonical_is_sorted};
use crate::number::NumberView;
use crate::order::key_lt;
use crate::prefix::Prefix;
use crate::product::{
    canonical_form, drop_trivial, factor_lt, insert_sorted, merge_runs, merged, same_merge_key,
    stable_sort, KeyFn, Layout,
};
use crate::quantity::{canonical, common_factors, convertible, shared, QuantityView};
use crate::simplify::{
    combined_exponent, lemma_runs_last, removed_exponent, representative, run_fits, run_target,
    run_targets, runs, runs_fit, simplification_fits, simplified,
};
use crate::theory::{
    all_pairs, contribution, distinct_keys, every, expanded_factor, exponent_sum, identifiers,
    lemma_all_drop_trivial, lemma_canonical_by_sums, lemma_canonical_empty,
    lemma_canonical_same_sums, lemma_canonical_within, lemma_distinct_keys,
    lemma_every_insert_sorted, lemma_every_stable_sort, lemma_expanded_concat,
    lemma_expanded_part_within, lemma_expanded_sums_by_factors, lemma_expanded_within,
    lemma_sum_concat, same_sums, sorted, within,
};
use crate::unit::{inverted, raised, FactorView, IdView};
use vstd::prelude::*;

verus! {

/// Putting a factor in its place adds that factor and nothing else.
proof fn lemma_insert_sorted_same_factors(
    layout: Layout,
    key: KeyFn,
    s: Seq<FactorView>,
    x: FactorView,
)
    ensures
        insert_sorted(layout, key, s, x).to_multiset() == s.to_multiset().insert(x),
    decreases s.len(),
{
    if s.len() > 0 && factor_lt(layout, key, x, s.last()) {
        let rest = s.drop_last();
        let shorter = insert_sorted(layout, key, rest, x);
        lemma_insert_sorted_same_factors(layout, key, rest, x);
        vstd::seq_lib::to_multiset_build(shorter, s.last());
        vstd::seq_lib::to_multiset_build(rest, s.last());
        assert(rest.push(s.last()) =~= s);
        assert(shorter.push(s.last()).to_multiset() =~= s.to_multiset().insert(x));
    } else {
        vstd::seq_lib::to_multiset_build(s, x);
    }
}

/// Sorting keeps the factors, each as often.
pub proof fn lemma_stable_sort_same_factors(layout: Layout, key: KeyFn, s: Seq<FactorView>)
    ensures
        stable_sort(layout, key, s).to_multiset() == s.to_multiset(),
    decreases s.len(),
{
    if s.len() > 0 {
        let rest = s.drop_last();
        lemma_stable_sort_same_factors(layout, key, rest);
        lemma_insert_sorted_same_factors(layout, key, stable_sort(layout, key, rest), s.last());
        vstd::seq_lib::to_multiset_build(rest, s.last());
        assert(rest.push(s.last()) =~= s);
    }
}

/// Multiplying every exponent by `e` multiplies the exponent sums by `e`.
pub proof fn lemma_sum_raised(s: Seq<FactorView>, e: real, p: Prefix, id: IdView)
    ensures
        exponent_sum(raised(s, e), p, id) == exponent_sum(s, p, id) * e,
    decreases s.len(),
{
    if s.len() == 0 {
        assert(0real * e == 0real) by (nonlinear_arith);
    } else {
        assert(raised(s, e).drop_last() =~= raised(s.drop_last(), e));
        lemma_sum_raised(s.drop_last(), e, p, id);
        let rest = exponent_sum(s.drop_last(), p, id);
        let last = contribution(s.last(), p, id);
        assert(contribution(raised(s, e).last(), p, id) == last * e) by {
            assert(0real * e == 0real) by (nonlinear_arith);
        }
        assert((rest + last) * e == rest * e + last * e) by (nonlinear_arith);
    }
}

/// What a product with one more factor is in base units.
proof fn lemma_expanded_push(s: Seq<FactorView>, f: FactorView, p: Prefix, id: IdView)
    ensures
        exponent_sum(expanded(s.push(f)), p, id) == exponent_sum(expanded(s), p, id)
            + exponent_sum(expanded_factor(f), p, id),
{
    assert(s.push(f).drop_last() =~= s);
    lemma_sum_concat(expanded(s), expanded_factor(f), p, id);
}

/// Folding runs does not change what a product is in base units.
proof fn lemma_expanded_merge_runs(s: Seq<FactorView>, p: Prefix, id: IdView)
    ensures
        exponent_sum(expanded(merge_runs(s)), p, id) == exponent_sum(expanded(s), p, id),
    decreases s.len(),
{
    if s.len() > 0 {
        let rest = s.drop_last();
        let x = s.last();
        lemma_expanded_merge_runs(rest, p, id);
        let front = merge_runs(rest);
        assert(s =~= rest.push(x));
        lemma_expanded_push(rest, x, p, id);
        if front.len() > 0 && same_merge_key(front.last(), x) {
            let last = front.last();
            let sum = merged(last, x);
            assert(front =~= front.drop_last().push(last));
            lemma_expanded_push(front.drop_last(), last, p, id);
            lemma_expanded_push(front.drop_last(), sum, p, id);
            let base = crate::canonical::base_expression(last.unit_id);
            lemma_sum_raised(base, last.exponent, p, id);
            lemma_sum_raised(base, x.exponent, p, id);
            lemma_sum_raised(base, sum.exponent, p, id);
            let c = exponent_sum(base, p, id);
            assert(c * (last.exponent + x.exponent) == c * last.exponent + c * x.exponent)
                by (nonlinear_arith);
        } else {
            lemma_expanded_push(front, x, p, id);
        }
    }
}

/// Dropping the factors of exponent zero does not change what a product
/// is in base units.
proof fn lemma_expanded_drop_trivial(s: Seq<FactorView>, p: Prefix, id: IdView)
    ensures
        exponent_sum(expanded(drop_trivial(s)), p, id) == exponent_sum(expanded(s), p, id),
    decreases s.len(),
{
    if s.len() > 0 {
        let rest = s.drop_last();
        let x = s.last();
        lemma_expanded_drop_trivial(rest, p, id);
        assert(s =~= rest.push(x));
        lemma_expanded_push(rest, x, p, id);
        if x.exponent == 0real {
            let base = crate::canonical::base_expression(x.unit_id);
            lemma_sum_raised(base, x.exponent, p, id);
            assert(exponent_sum(base, p, id) * 0real == 0real) by (nonlinear_arith);
        } else {
            lemma_expanded_push(drop_trivial(rest), x, p, id);
        }
    }
}

/// A canonical form is in base units what the product is.
pub proof fn lemma_expanded_canonical(key: KeyFn, s: Seq<FactorView>)
    ensures
        same_sums(expanded(canonical_form(key, s)), expanded(s)),
{
    let sorted = stable_sort(Layout::MergeKey, key, s);
    let folded = merge_runs(sorted);
    let kept = drop_trivial(folded);
    lemma_stable_sort_same_factors(Layout::MergeKey, key, s);
    lemma_expanded_sums_by_factors(sorted, s);
    lemma_stable_sort_same_factors(Layout::Natural, key, kept);
    lemma_expanded_sums_by_factors(canonical_form(key, s), kept);
    assert forall|p: Prefix, id: IdView| #[trigger]
        exponent_sum(expanded(canonical_form(key, s)), p, id) == exponent_sum(
            expanded(s),
            p,
            id,
        ) by {
        lemma_expanded_merge_runs(sorted, p, id);
        lemma_expanded_drop_trivial(folded, p, id);
        assert(exponent_sum(expanded(sorted), p, id) == exponent_sum(expanded(s), p, id));
        assert(exponent_sum(expanded(canonical_form(key, s)), p, id) == exponent_sum(
            expanded(kept),
            p,
            id,
        ));
    }
}

/// The runs put together again, in their order.
pub open spec fn concat_all(runs: Seq<Seq<FactorView>>) -> Seq<FactorView>
    decreases runs.len(),
{
    if runs.len() == 0 {
        Seq::empty()
    } else {
        concat_all(runs.drop_last()) + runs.last()
    }
}

/// The runs of a product, put together again, are the product.
proof fn lemma_runs_concat(s: Seq<FactorView>)
    ensures
        concat_all(runs(s)) == s,
    decreases s.len(),
{
    if s.len() == 0 {
        assert(concat_all(runs(s)) =~= s);
    } else {
        let rest = s.drop_last();
        let x = s.last();
        lemma_runs_concat(rest);
        let front = runs(rest);
        if front.len() > 0 && front.last().len() > 0 && sort_key(front.last().last().unit_id)
            == sort_key(x.unit_id) {
            let longer = front.drop_last().push(front.last().push(x));
            assert(longer.drop_last() =~= front.drop_last());
            assert(concat_all(front.drop_last()) + front.last().push(x) =~= (concat_all(
                front.drop_last(),
            ) + front.last()).push(x));
            assert(rest.push(x) =~= s);
        } else {
            assert(front.push(seq![x]).drop_last() =~= front);
            assert(concat_all(front) + seq![x] =~= rest.push(x));
            assert(rest.push(x) =~= s);
        }
    }
}

/// One factor written in base units.
proof fn lemma_expanded_single(f: FactorView)
    ensures
        expanded(seq![f]) == expanded_factor(f),
{
    assert(seq![f].drop_last() =~= Seq::<FactorView>::empty());
    assert(expanded(Seq::<FactorView>::empty()) =~= Seq::<FactorView>::empty());
    assert(expanded(seq![f]) =~= expanded_factor(f));
}

/// If every run is in base units what its target is, the product of the
/// targets is in base units what the runs are together.
proof fn lemma_targets_sums(rs: Seq<Seq<FactorView>>)
    requires
        forall|k: int|
            0 <= k < rs.len() ==> same_sums(
                expanded(#[trigger] rs[k]),
                expanded(seq![run_target(rs[k])]),
            ),
    ensures
        same_sums(expanded(concat_all(rs)), expanded(run_targets(rs))),
    decreases rs.len(),
{
    if rs.len() == 0 {
        assert(run_targets(rs) =~= Seq::<FactorView>::empty());
    } else {
        let rest = rs.drop_last();
        let last = rs.last();
        assert(last == rs[rs.len() - 1]);
        assert forall|k: int| 0 <= k < rest.len() implies same_sums(
            expanded(#[trigger] rest[k]),
            expanded(seq![run_target(rest[k])]),
        ) by {
            assert(rest[k] == rs[k]);
        }
        lemma_targets_sums(rest);
        lemma_expanded_concat(concat_all(rest), last);
        assert(run_targets(rs) =~= run_targets(rest).push(run_target(last)));
        lemma_expanded_single(run_target(last));
        assert forall|p: Prefix, id: IdView| #[trigger]
            exponent_sum(expanded(concat_all(rs)), p, id) == exponent_sum(
                expanded(run_targets(rs)),
                p,
                id,
            ) by {
            lemma_sum_concat(expanded(concat_all(rest)), expanded(last), p, id);
            lemma_expanded_push(run_targets(rest), run_target(last), p, id);
            assert(exponent_sum(expanded(concat_all(rest)), p, id) == exponent_sum(
                expanded(run_targets(rest)),
                p,
                id,
            ));
            assert(exponent_sum(expanded(last), p, id) == exponent_sum(
                expanded(seq![run_target(last)]),
                p,
                id,
            ));
        }
    }
}

/// A product that converts to another is in base units what the other is.
#[verifier::rlimit(40)]
proof fn lemma_conversion_sums(own: Seq<FactorView>, target: Seq<FactorView>)
    requires
        convertible(NumberView::one(), own, target),
    ensures
        same_sums(expanded(own), expanded(target)),
{
    let key = sort_keys();
    if canonical(own) == canonical(target) {
        lemma_expanded_canonical(key, own);
        lemma_expanded_canonical(key, target);
        assert forall|p: Prefix, id: IdView| #[trigger]
            exponent_sum(expanded(own), p, id) == exponent_sum(expanded(target), p, id) by {
            assert(exponent_sum(expanded(canonical(own)), p, id) == exponent_sum(
                expanded(own),
                p,
                id,
            ));
            assert(exponent_sum(expanded(canonical(target)), p, id) == exponent_sum(
                expanded(target),
                p,
                id,
            ));
        }
    } else {
        let common = shared(own, target);
        let a = own + inverted(common);
        let b = target + inverted(common);
        lemma_reduced_sums(a);
        lemma_reduced_sums(b);
        lemma_expanded_concat(own, inverted(common));
        lemma_expanded_concat(target, inverted(common));
        assert forall|p: Prefix, id: IdView| #[trigger]
            exponent_sum(expanded(own), p, id) == exponent_sum(expanded(target), p, id) by {
            lemma_sum_concat(expanded(own), expanded(inverted(common)), p, id);
            lemma_sum_concat(expanded(target), expanded(inverted(common)), p, id);
            assert(exponent_sum(canonical(base_representation(canonical(a))), p, id)
                == exponent_sum(expanded(a), p, id));
            assert(exponent_sum(canonical(base_representation(canonical(b))), p, id)
                == exponent_sum(expanded(b), p, id));
        }
    }
}

/// The canonical form of what a canonical form is in base units holds as
/// much of every pair as the product written in base units.
proof fn lemma_reduced_sums(s: Seq<FactorView>)
    ensures
        same_sums(canonical(base_representation(canonical(s))), expanded(s)),
{
    let key = sort_keys();
    let c = canonical(s);
    lemma_expanded_canonical(key, s);
    lemma_canonical_same_sums(key, expanded(c));
    lemma_canonical_same_sums(key, base_representation(c));
    assert forall|p: Prefix, id: IdView| #[trigger]
        exponent_sum(canonical(base_representation(c)), p, id) == exponent_sum(
            expanded(s),
            p,
            id,
        ) by {
        assert(exponent_sum(canonical(base_representation(c)), p, id) == exponent_sum(
            base_representation(c),
            p,
            id,
        ));
        assert(exponent_sum(base_representation(c), p, id) == exponent_sum(expanded(c), p, id));
        assert(exponent_sum(expanded(c), p, id) == exponent_sum(expanded(s), p, id));
    }
}

/// Whether all factors of a run have the sort key of its first factor.
pub open spec fn one_key(run: Seq<FactorView>) -> bool {
    forall|j: int|
        0 <= j < run.len() ==> sort_key((#[trigger] run[j]).unit_id) == sort_key(run[0].unit_id)
}

/// Whether the sort keys of the first factors of the runs grow from run to
/// run.
pub open spec fn keys_grow(rs: Seq<Seq<FactorView>>) -> bool {
    forall|i: int, j: int|
        0 <= i < j < rs.len() ==> key_lt(
            sort_key((#[trigger] rs[i])[0].unit_id),
            sort_key((#[trigger] rs[j])[0].unit_id),
        )
}

/// The runs of a product in natural order: none is empty, each has one
/// sort key, and the keys grow from run to run.
#[verifier::rlimit(40)]
proof fn lemma_runs_of_sorted(s: Seq<FactorView>)
    requires
        sorted(Layout::Natural, sort_keys(), s),
    ensures
        forall|k: int| 0 <= k < runs(s).len() ==> (#[trigger] runs(s)[k]).len() > 0 && one_key(
            runs(s)[k],
        ),
        keys_grow(runs(s)),
    decreases s.len(),
{
    if s.len() > 0 {
        let rest = s.drop_last();
        let x = s.last();
        assert(x == s[s.len() - 1]);
        assert(sorted(Layout::Natural, sort_keys(), rest)) by {
            assert forall|i: int, j: int| 0 <= i < j < rest.len() implies !factor_lt(
                Layout::Natural,
                sort_keys(),
                #[trigger] rest[j],
                #[trigger] rest[i],
            ) by {
                assert(rest[i] == s[i] && rest[j] == s[j]);
            }
        }
        lemma_runs_of_sorted(rest);
        let front = runs(rest);
        let result = runs(s);
        if rest.len() > 0 {
            lemma_runs_last(rest);
            assert(rest.last() == s[s.len() - 2]);
        }
        if front.len() > 0 && front.last().len() > 0 && sort_key(front.last().last().unit_id)
            == sort_key(x.unit_id) {
            let last = front.last();
            assert(last == front[front.len() - 1]);
            assert(last.last() == last[last.len() - 1]);
            assert forall|k: int| 0 <= k < result.len() implies (#[trigger] result[k]).len() > 0
                && one_key(result[k]) by {
                if k < front.len() - 1 {
                    assert(result[k] == front[k]);
                } else {
                    assert(result[k] == last.push(x));
                    assert forall|j: int| 0 <= j < result[k].len() implies sort_key(
                        (#[trigger] result[k][j]).unit_id,
                    ) == sort_key(result[k][0].unit_id) by {
                        if j < last.len() {
                            assert(result[k][j] == last[j]);
                        }
                        assert(result[k][0] == last[0]);
                    }
                }
            }
            assert forall|i: int, j: int| 0 <= i < j < result.len() implies key_lt(
                sort_key((#[trigger] result[i])[0].unit_id),
                sort_key((#[trigger] result[j])[0].unit_id),
            ) by {
                assert(result[i] == front[i]);
                assert(result[j][0] == front[j][0]);
            }
        } else {
            assert forall|k: int| 0 <= k < result.len() implies (#[trigger] result[k]).len() > 0
                && one_key(result[k]) by {
                if k < front.len() {
                    assert(result[k] == front[k]);
                }
            }
            assert forall|i: int, j: int| 0 <= i < j < result.len() implies key_lt(
                sort_key((#[trigger] result[i])[0].unit_id),
                sort_key((#[trigger] result[j])[0].unit_id),
            ) by {
                assert(result[i] == front[i]);
                if j < front.len() {
                    assert(result[j] == front[j]);
                } else {
                    // a new run: its key lies behind that of the last run
                    let last = front.last();
                    assert(last == front[front.len() - 1]);
                    assert(last.last() == last[last.len() - 1]);
                    let before = sort_key(last[0].unit_id);
                    let behind = sort_key(x.unit_id);
                    assert(!factor_lt(Layout::Natural, sort_keys(), x, rest.last()));
                    assert(before == sort_key(rest.last().unit_id));
                    crate::order::lemma_key_lt_connected(before, behind);
                    if i < front.len() - 1 {
                        crate::order::lemma_key_lt_transitive(
                            sort_key(front[i][0].unit_id),
                            before,
                            behind,
                        );
                    }
                }
            }
        }
    }
}

/// The representative of a run with one sort key has that key.
proof fn lemma_representative_key(run: Seq<FactorView>)
    requires
        run.len() > 0,
        one_key(run),
    ensures
        sort_key(representative(run).unit_id) == sort_key(run[0].unit_id),
        exists|i: int| 0 <= i < run.len() && representative(run) == #[trigger] run[i],
    decreases run.len(),
{
    if run.len() > 1 {
        let rest = run.drop_last();
        assert(one_key(rest)) by {
            assert forall|j: int| 0 <= j < rest.len() implies sort_key(
                (#[trigger] rest[j]).unit_id,
            ) == sort_key(rest[0].unit_id) by {
                assert(rest[j] == run[j] && rest[0] == run[0]);
            }
        }
        lemma_representative_key(rest);
        let i = choose|i: int| 0 <= i < rest.len() && representative(rest) == #[trigger] rest[i];
        assert(rest[i] == run[i]);
        assert(rest[0] == run[0]);
        assert(run.last() == run[run.len() - 1]);
    } else {
        assert(representative(run) == run[0]);
    }
}

/// Whether the sort keys of the factors grow from factor to factor.
pub open spec fn keys_increase(s: Seq<FactorView>) -> bool {
    forall|i: int, j: int|
        0 <= i < j < s.len() ==> key_lt(
            sort_key((#[trigger] s[i]).unit_id),
            sort_key((#[trigger] s[j]).unit_id),
        )
}

/// The targets of the runs of a product in natural order have growing
/// sort keys.
proof fn lemma_targets_increase(s: Seq<FactorView>)
    requires
        sorted(Layout::Natural, sort_keys(), s),
    ensures
        keys_increase(run_targets(runs(s))),
        forall|k: int|
            0 <= k < runs(s).len() ==> (#[trigger] run_targets(runs(s))[k]).unit_id
                == representative(runs(s)[k]).unit_id,
{
    lemma_runs_of_sorted(s);
    let rs = runs(s);
    let ts = run_targets(rs);
    assert forall|i: int, j: int| 0 <= i < j < ts.len() implies key_lt(
        sort_key((#[trigger] ts[i]).unit_id),
        sort_key((#[trigger] ts[j]).unit_id),
    ) by {
        assert(rs[i].len() > 0 && one_key(rs[i]));
        assert(rs[j].len() > 0 && one_key(rs[j]));
        lemma_representative_key(rs[i]);
        lemma_representative_key(rs[j]);
        assert(key_lt(sort_key(rs[i][0].unit_id), sort_key(rs[j][0].unit_id)));
    }
}

/// Whether no two factors of the product have the same sort key.
pub open spec fn distinct_sort_keys(s: Seq<FactorView>) -> bool {
    forall|i: int, j: int|
        0 <= i < j < s.len() ==> sort_key((#[trigger] s[i]).unit_id) != sort_key(
            (#[trigger] s[j]).unit_id,
        )
}

/// Factors with growing sort keys have different sort keys.
proof fn lemma_increase_distinct(s: Seq<FactorView>)
    requires
        keys_increase(s),
    ensures
        distinct_sort_keys(s),
{
    assert forall|i: int, j: int| 0 <= i < j < s.len() implies sort_key(
        (#[trigger] s[i]).unit_id,
    ) != sort_key((#[trigger] s[j]).unit_id) by {
        crate::order::lemma_key_lt_irreflexive(sort_key(s[i].unit_id));
    }
}

/// Putting a factor in its place among factors of other sort keys, all
/// different, leaves factors of different sort keys.
#[verifier::rlimit(40)]
proof fn lemma_distinct_insert_sorted(
    layout: Layout,
    key: KeyFn,
    s: Seq<FactorView>,
    x: FactorView,
)
    requires
        distinct_sort_keys(s),
        forall|i: int|
            0 <= i < s.len() ==> sort_key((#[trigger] s[i]).unit_id) != sort_key(x.unit_id),
    ensures
        distinct_sort_keys(insert_sorted(layout, key, s, x)),
    decreases s.len(),
{
    let result = insert_sorted(layout, key, s, x);
    if s.len() > 0 && factor_lt(layout, key, x, s.last()) {
        let last = s.last();
        let rest = s.drop_last();
        let shorter = insert_sorted(layout, key, rest, x);
        assert(last == s[s.len() - 1]);
        assert(distinct_sort_keys(rest)) by {
            assert forall|i: int, j: int| 0 <= i < j < rest.len() implies sort_key(
                (#[trigger] rest[i]).unit_id,
            ) != sort_key((#[trigger] rest[j]).unit_id) by {
                assert(rest[i] == s[i] && rest[j] == s[j]);
            }
        }
        assert forall|i: int| 0 <= i < rest.len() implies sort_key(
            (#[trigger] rest[i]).unit_id,
        ) != sort_key(x.unit_id) by {
            assert(rest[i] == s[i]);
        }
        lemma_distinct_insert_sorted(layout, key, rest, x);
        let holds = |f: FactorView| sort_key(f.unit_id) != sort_key(last.unit_id);
        assert(every(rest, holds)) by {
            assert forall|i: int| 0 <= i < rest.len() implies holds(#[trigger] rest[i]) by {
                assert(rest[i] == s[i]);
            }
        }
        lemma_every_insert_sorted(layout, key, rest, x, holds);
        assert forall|i: int, j: int| 0 <= i < j < result.len() implies sort_key(
            (#[trigger] result[i]).unit_id,
        ) != sort_key((#[trigger] result[j]).unit_id) by {
            assert(result[i] == shorter[i]);
            if j < shorter.len() {
                assert(result[j] == shorter[j]);
            } else {
                assert(holds(shorter[i]));
            }
        }
    } else {
        assert forall|i: int, j: int| 0 <= i < j < result.len() implies sort_key(
            (#[trigger] result[i]).unit_id,
        ) != sort_key((#[trigger] result[j]).unit_id) by {
            assert(result[i] == s[i]);
            if j < s.len() {
                assert(result[j] == s[j]);
            }
        }
    }
}

/// Sorting factors of different sort keys leaves factors of different
/// sort keys.
proof fn lemma_distinct_stable_sort(layout: Layout, key: KeyFn, s: Seq<FactorView>)
    requires
        distinct_sort_keys(s),
    ensures
        distinct_sort_keys(stable_sort(layout, key, s)),
    decreases s.len(),
{
    if s.len() > 0 {
        let rest = s.drop_last();
        let last = s.last();
        assert(last == s[s.len() - 1]);
        assert(distinct_sort_keys(rest)) by {
            assert forall|i: int, j: int| 0 <= i < j < rest.len() implies sort_key(
                (#[trigger] rest[i]).unit_id,
            ) != sort_key((#[trigger] rest[j]).unit_id) by {
                assert(rest[i] == s[i] && rest[j] == s[j]);
            }
        }
        lemma_distinct_stable_sort(layout, key, rest);
        let holds = |f: FactorView| sort_key(f.unit_id) != sort_key(last.unit_id);
        assert(every(rest, holds)) by {
            assert forall|i: int| 0 <= i < rest.len() implies holds(#[trigger] rest[i]) by {
                assert(rest[i] == s[i]);
            }
        }
        lemma_every_stable_sort(layout, key, rest, holds);
        let sorted_rest = stable_sort(layout, key, rest);
        assert forall|i: int| 0 <= i < sorted_rest.len() implies sort_key(
            (#[trigger] sorted_rest[i]).unit_id,
        ) != sort_key(last.unit_id) by {
            assert(holds(sorted_rest[i]));
        }
        lemma_distinct_insert_sorted(layout, key, sorted_rest, last);
    }
}

/// Among factors of different sort keys there are no runs to fold.
proof fn lemma_distinct_merge_runs(s: Seq<FactorView>)
    requires
        distinct_sort_keys(s),
    ensures
        merge_runs(s) == s,
    decreases s.len(),
{
    if s.len() > 0 {
        let rest = s.drop_last();
        assert(distinct_sort_keys(rest)) by {
            assert forall|i: int, j: int| 0 <= i < j < rest.len() implies sort_key(
                (#[trigger] rest[i]).unit_id,
            ) != sort_key((#[trigger] rest[j]).unit_id) by {
                assert(rest[i] == s[i] && rest[j] == s[j]);
            }
        }
        lemma_distinct_merge_runs(rest);
        if rest.len() > 0 {
            assert(rest.last() == s[s.len() - 2]);
            assert(s.last() == s[s.len() - 1]);
        }
        assert(rest.push(s.last()) =~= s);
    }
}

/// Dropping factors from factors of different sort keys leaves factors of
/// different sort keys.
proof fn lemma_distinct_drop_trivial(s: Seq<FactorView>)
    requires
        distinct_sort_keys(s),
    ensures
        distinct_sort_keys(drop_trivial(s)),
    decreases s.len(),
{
    if s.len() > 0 {
        let rest = s.drop_last();
        let x = s.last();
        assert(x == s[s.len() - 1]);
        assert(distinct_sort_keys(rest)) by {
            assert forall|i: int, j: int| 0 <= i < j < rest.len() implies sort_key(
                (#[trigger] rest[i]).unit_id,
            ) != sort_key((#[trigger] rest[j]).unit_id) by {
                assert(rest[i] == s[i] && rest[j] == s[j]);
            }
        }
        lemma_distinct_drop_trivial(rest);
        let holds = |p: Prefix, id: IdView| sort_key(id) != sort_key(x.unit_id);
        assert(all_pairs(rest, holds)) by {
            assert forall|i: int| 0 <= i < rest.len() implies holds(
                (#[trigger] rest[i]).prefix,
                rest[i].unit_id,
            ) by {
                assert(rest[i] == s[i]);
            }
        }
        lemma_all_drop_trivial(rest, holds);
        let kept = drop_trivial(rest);
        if x.exponent != 0real {
            let result = drop_trivial(s);
            assert forall|i: int, j: int| 0 <= i < j < result.len() implies sort_key(
                (#[trigger] result[i]).unit_id,
            ) != sort_key((#[trigger] result[j]).unit_id) by {
                assert(result[i] == kept[i]);
                if j < kept.len() {
                    assert(result[j] == kept[j]);
                } else {
                    assert(holds(kept[i].prefix, kept[i].unit_id));
                }
            }
        }
    }
}

/// The canonical form of factors of different sort keys has factors of
/// different sort keys.
proof fn lemma_distinct_canonical(s: Seq<FactorView>)
    requires
        distinct_sort_keys(s),
    ensures
        distinct_sort_keys(canonical(s)),
{
    let key = sort_keys();
    let sorted_s = stable_sort(Layout::MergeKey, key, s);
    lemma_distinct_stable_sort(Layout::MergeKey, key, s);
    lemma_distinct_merge_runs(sorted_s);
    lemma_distinct_drop_trivial(sorted_s);
    lemma_distinct_stable_sort(Layout::Natural, key, drop_trivial(sorted_s));
}

/// Among factors of different sort keys every factor is a run of its own.
proof fn lemma_runs_singletons(s: Seq<FactorView>)
    requires
        distinct_sort_keys(s),
    ensures
        runs(s) == s.map_values(|f: FactorView| seq![f]),
    decreases s.len(),
{
    let singles = s.map_values(|f: FactorView| seq![f]);
    if s.len() == 0 {
        assert(runs(s) =~= singles);
    } else {
        let rest = s.drop_last();
        assert(distinct_sort_keys(rest)) by {
            assert forall|i: int, j: int| 0 <= i < j < rest.len() implies sort_key(
                (#[trigger] rest[i]).unit_id,
            ) != sort_key((#[trigger] rest[j]).unit_id) by {
                assert(rest[i] == s[i] && rest[j] == s[j]);
            }
        }
        lemma_runs_singletons(rest);
        let front = runs(rest);
        if rest.len() > 0 {
            assert(front.last() == seq![rest.last()]);
            assert(front.last().last() == rest.last());
            assert(rest.last() == s[s.len() - 2]);
            assert(s.last() == s[s.len() - 1]);
        }
        assert(runs(s) == front.push(seq![s.last()]));
        assert(runs(s) =~= singles);
    }
}

/// A run of one factor is replaced by that factor, if the first base
/// exponent of its unit is not zero.
proof fn lemma_single_run_target(f: FactorView)
    requires
        removed_exponent(f) != 0real,
    ensures
        run_target(seq![f]) == f,
{
    let run = seq![f];
    assert(representative(run) == f);
    assert(run.drop_last() =~= Seq::<FactorView>::empty());
    assert(combined_exponent(run.drop_last(), f) == 0real);
    let r = removed_exponent(f);
    assert(f.exponent * r / r == f.exponent) by (nonlinear_arith)
        requires
            r != 0real,
    ;
}

/// A product has nothing in common with the empty product.
proof fn lemma_nothing_in_common(own: Seq<FactorView>)
    ensures
        common_factors(own, Seq::<FactorView>::empty()) == Seq::<FactorView>::empty(),
    decreases own.len(),
{
    if own.len() > 0 {
        lemma_nothing_in_common(own.drop_last());
    }
}

/// A quantity converts to a plain number if its unit is empty in canonical
/// form, or its value is a literal zero, or its unit is empty in base units.
proof fn lemma_plain_number(value: NumberView, unit: Seq<FactorView>)
    ensures
        convertible(value, unit, Seq::<FactorView>::empty()) <==> (canonical(unit)
            == Seq::<FactorView>::empty() || value.is_zero() || canonical(
            base_representation(canonical(unit)),
        ) == Seq::<FactorView>::empty()),
{
    let none = Seq::<FactorView>::empty();
    lemma_canonical_empty(sort_keys());
    lemma_nothing_in_common(canonical(unit));
    assert(shared(unit, none) == none);
    assert(inverted(none) =~= none);
    assert(unit + none =~= unit);
    assert(none + none =~= none);
    assert(expanded(none) == none);
    assert(base_representation(none) == none);
}

/// What a factor is in base units has the same identifiers whatever the
/// factor's exponent.
proof fn lemma_expanded_factor_within(f: FactorView, g: FactorView, dom: Set<IdView>)
    requires
        f.unit_id == g.unit_id,
        within(expanded_factor(g), dom),
    ensures
        within(expanded_factor(f), dom),
{
    let a = expanded_factor(f);
    let b = expanded_factor(g);
    assert forall|i: int| 0 <= i < a.len() implies dom.contains((#[trigger] a[i]).unit_id) by {
        assert(a[i].unit_id == b[i].unit_id);
    }
}

/// The unit of a simplified quantity that is no plain number is in
/// canonical form, and each of its factors is a run that is its own target.
#[verifier::rlimit(40)]
pub proof fn lemma_simplified_unit_shape(q: QuantityView)
    requires
        simplification_fits(q),
        !convertible(q.value, q.unit, Seq::<FactorView>::empty()),
    ensures
        canonical(simplified(q).unit) == simplified(q).unit,
        run_targets(runs(simplified(q).unit)) == simplified(q).unit,
{
    let key = sort_keys();
    let c = canonical(q.unit);
    let rs = runs(c);
    let ts = run_targets(rs);
    let u = canonical(ts);
    assert(simplified(q).unit == u);
    law_canonical_is_sorted(q.unit);
    lemma_targets_increase(c);
    lemma_increase_distinct(ts);
    lemma_distinct_canonical(ts);
    assert(distinct_keys(ts)) by {
        assert forall|i: int, j: int|
            0 <= i < ts.len() && 0 <= j < ts.len() && sort_key((#[trigger] ts[i]).unit_id)
                == sort_key((#[trigger] ts[j]).unit_id) implies ts[i].unit_id
            == ts[j].unit_id by {
            if i < j {
                assert(sort_key(ts[i].unit_id) != sort_key(ts[j].unit_id));
            } else if j < i {
                assert(sort_key(ts[j].unit_id) != sort_key(ts[i].unit_id));
            }
        }
    }
    law_canonical_idempotent(ts);
    lemma_runs_singletons(u);
    lemma_distinct_keys_of(ts);
    lemma_canonical_within(key, ts, identifiers(ts));
    assert forall|i: int| 0 <= i < u.len() implies run_targets(runs(u))[i] == u[i] by {
        assert(identifiers(ts).contains(u[i].unit_id));
        let k = choose|k: int| 0 <= k < ts.len() && (#[trigger] ts[k]).unit_id == u[i].unit_id;
        assert(runs_fit(c));
        assert(run_fits(rs[k]));
        assert(ts[k].unit_id == representative(rs[k]).unit_id);
        lemma_single_run_target(u[i]);
    }
    assert(run_targets(runs(u)) =~= u);
}

/// A simplified quantity is in base units what the quantity is.
proof fn lemma_simplified_sums(q: QuantityView)
    requires
        simplification_fits(q),
        !convertible(q.value, q.unit, Seq::<FactorView>::empty()),
    ensures
        same_sums(expanded(simplified(q).unit), expanded(canonical(q.unit))),
{
    let key = sort_keys();
    let c = canonical(q.unit);
    let rs = runs(c);
    let ts = run_targets(rs);
    let u = canonical(ts);
    assert(simplified(q).unit == u);
    lemma_expanded_canonical(key, ts);
    assert forall|k: int| 0 <= k < rs.len() implies same_sums(
        expanded(#[trigger] rs[k]),
        expanded(seq![run_target(rs[k])]),
    ) by {
        assert(runs_fit(c));
        assert(run_fits(rs[k]));
        lemma_conversion_sums(rs[k], seq![run_target(rs[k])]);
    }
    lemma_targets_sums(rs);
    lemma_runs_concat(c);
    assert forall|p: Prefix, id: IdView| #[trigger]
        exponent_sum(expanded(u), p, id) == exponent_sum(expanded(c), p, id) by {
        assert(exponent_sum(expanded(u), p, id) == exponent_sum(expanded(ts), p, id));
        assert(exponent_sum(expanded(concat_all(rs)), p, id) == exponent_sum(
            expanded(ts),
            p,
            id,
        ));
    }
}

/// What a canonical form is in base units lies within the identifiers of
/// what the product is in base units.
proof fn lemma_expanded_canonical_within(s: Seq<FactorView>)
    ensures
        within(expanded(canonical(s)), identifiers(expanded(s))),
{
    let c = canonical(s);
    let dom = identifiers(expanded(s));
    lemma_distinct_keys_of(s);
    lemma_canonical_within(sort_keys(), s, identifiers(s));
    assert forall|i: int| 0 <= i < c.len() implies within(
        expanded_factor(#[trigger] c[i]),
        dom,
    ) by {
        assert(identifiers(s).contains(c[i].unit_id));
        let k = choose|k: int| 0 <= k < s.len() && (#[trigger] s[k]).unit_id == c[i].unit_id;
        lemma_expanded_part_within(s, k);
        lemma_expanded_factor_within(c[i], s[k], dom);
    }
    lemma_expanded_within(c, dom);
}

/// A simplified quantity with a unit converts to a plain number no more
/// than the quantity does, if the sort key tells its base units apart.
#[verifier::rlimit(40)]
pub proof fn lemma_simplified_not_plain(q: QuantityView)
    requires
        simplification_fits(q),
        distinct_keys(expanded(q.unit)),
        !convertible(q.value, q.unit, Seq::<FactorView>::empty()),
        simplified(q).unit.len() > 0,
    ensures
        !convertible(simplified(q).value, simplified(q).unit, Seq::<FactorView>::empty()),
{
    let none = Seq::<FactorView>::empty();
    let key = sort_keys();
    let c = canonical(q.unit);
    let once = simplified(q);
    let u = once.unit;
    lemma_simplified_unit_shape(q);
    lemma_plain_number(once.value, u);
    lemma_plain_number(q.value, q.unit);
    if canonical(base_representation(canonical(u))) == none {
        lemma_reduced_sums(u);
        lemma_simplified_sums(q);
        let dom = identifiers(expanded(q.unit));
        lemma_distinct_keys(expanded(q.unit));
        lemma_expanded_canonical_within(q.unit);
        assert forall|p: Prefix, id: IdView| #[trigger]
            exponent_sum(expanded(c), p, id) == exponent_sum(none, p, id) by {
            assert(exponent_sum(canonical(base_representation(canonical(u))), p, id)
                == exponent_sum(expanded(u), p, id));
            assert(exponent_sum(expanded(u), p, id) == exponent_sum(expanded(c), p, id));
        }
        lemma_canonical_by_sums(key, dom, expanded(c), none);
        lemma_canonical_empty(key);
        assert(base_representation(c) == none);
    }
}

/// Every identifier of a product is one of its identifiers.
proof fn lemma_distinct_keys_of(s: Seq<FactorView>)
    ensures
        within(s, identifiers(s)),
{
}

} // verus!
