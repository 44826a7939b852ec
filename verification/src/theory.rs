//! Why the canonical form of a product is what it is.
//!
//! The canonical form of a product depends only on how much of each
//! (prefix, identifier) pair the product holds, provided the sort key tells
//! the identifiers of the product apart: two products that hold as much of
//! every pair are brought to the same sequence of factors, each before all
//! later ones in the order of merge keys, whatever order they came in.

use crate::canonical::{base_expression, expanded};
use crate::key::{sort_key, sort_keys};
use crate::order::{
    key_lt, lemma_key_lt_connected, lemma_key_lt_irreflexive, lemma_key_lt_transitive,
};
use crate::prefix::Prefix;
use crate::product::{
    canonical_form, drop_trivial, factor_lt, insert_sorted, merge_runs, merged, same_merge_key,
    stable_sort, KeyFn, Layout,
};
use crate::unit::{inverted, raised, FactorView, IdView};
use vstd::prelude::*;

verus! {

/// What a factor adds to the exponent of the pair `(p, id)`.
pub open spec fn contribution(f: FactorView, p: Prefix, id: IdView) -> real {
    if f.prefix == p && f.unit_id == id {
        f.exponent
    } else {
        0real
    }
}

/// The sum of the exponents of the factors of `s` with prefix `p` and
/// identifier `id`.
pub open spec fn exponent_sum(s: Seq<FactorView>, p: Prefix, id: IdView) -> real
    decreases s.len(),
{
    if s.len() == 0 {
        0real
    } else {
        exponent_sum(s.drop_last(), p, id) + contribution(s.last(), p, id)
    }
}

/// Whether both products hold as much of every (prefix, identifier) pair.
pub open spec fn same_sums(a: Seq<FactorView>, b: Seq<FactorView>) -> bool {
    forall|p: Prefix, id: IdView| #[trigger] exponent_sum(a, p, id) == exponent_sum(b, p, id)
}

/// Whether `key` gives different identifiers of `dom` different keys.
pub open spec fn tells_apart(key: KeyFn, dom: Set<IdView>) -> bool {
    forall|a: IdView, b: IdView|
        dom.contains(a) && dom.contains(b) && #[trigger] key(a) == #[trigger] key(b) ==> a == b
}

/// Whether every identifier of the product is in `dom`.
pub open spec fn within(s: Seq<FactorView>, dom: Set<IdView>) -> bool {
    forall|i: int| 0 <= i < s.len() ==> dom.contains((#[trigger] s[i]).unit_id)
}

/// The identifiers of a product.
pub open spec fn identifiers(s: Seq<FactorView>) -> Set<IdView> {
    Set::new(|id: IdView| exists|i: int| 0 <= i < s.len() && (#[trigger] s[i]).unit_id == id)
}

/// Whether the sort key tells the identifiers of the product apart: factors
/// with the same sort key have the same identifier.
pub open spec fn distinct_keys(s: Seq<FactorView>) -> bool {
    forall|i: int, j: int|
        0 <= i < s.len() && 0 <= j < s.len() && sort_key((#[trigger] s[i]).unit_id) == sort_key(
            (#[trigger] s[j]).unit_id,
        ) ==> s[i].unit_id == s[j].unit_id
}

/// The exponent sums of a product with one more factor.
pub proof fn lemma_sum_push(s: Seq<FactorView>, f: FactorView, p: Prefix, id: IdView)
    ensures
        exponent_sum(s.push(f), p, id) == exponent_sum(s, p, id) + contribution(f, p, id),
{
    assert(s.push(f).drop_last() =~= s);
}

/// The exponent sums of a product put together from two.
pub proof fn lemma_sum_concat(a: Seq<FactorView>, b: Seq<FactorView>, p: Prefix, id: IdView)
    ensures
        exponent_sum(a + b, p, id) == exponent_sum(a, p, id) + exponent_sum(b, p, id),
    decreases b.len(),
{
    if b.len() == 0 {
        assert(a + b =~= a);
    } else {
        assert((a + b).drop_last() =~= a + b.drop_last());
        lemma_sum_concat(a, b.drop_last(), p, id);
    }
}

/// Negating every exponent negates the exponent sums.
pub proof fn lemma_sum_inverted(s: Seq<FactorView>, p: Prefix, id: IdView)
    ensures
        exponent_sum(inverted(s), p, id) == -exponent_sum(s, p, id),
    decreases s.len(),
{
    if s.len() > 0 {
        assert(inverted(s).drop_last() =~= inverted(s.drop_last()));
        lemma_sum_inverted(s.drop_last(), p, id);
    }
}

/// Putting a factor in its place adds its contribution.
pub proof fn lemma_sum_insert_sorted(
    layout: Layout,
    key: KeyFn,
    s: Seq<FactorView>,
    x: FactorView,
    p: Prefix,
    id: IdView,
)
    ensures
        exponent_sum(insert_sorted(layout, key, s, x), p, id) == exponent_sum(s, p, id)
            + contribution(x, p, id),
    decreases s.len(),
{
    if s.len() > 0 && factor_lt(layout, key, x, s.last()) {
        lemma_sum_insert_sorted(layout, key, s.drop_last(), x, p, id);
        lemma_sum_push(insert_sorted(layout, key, s.drop_last(), x), s.last(), p, id);
    } else {
        lemma_sum_push(s, x, p, id);
    }
}

/// Sorting keeps the exponent sums.
pub proof fn lemma_sum_stable_sort(
    layout: Layout,
    key: KeyFn,
    s: Seq<FactorView>,
    p: Prefix,
    id: IdView,
)
    ensures
        exponent_sum(stable_sort(layout, key, s), p, id) == exponent_sum(s, p, id),
    decreases s.len(),
{
    if s.len() > 0 {
        lemma_sum_stable_sort(layout, key, s.drop_last(), p, id);
        lemma_sum_insert_sorted(
            layout,
            key,
            stable_sort(layout, key, s.drop_last()),
            s.last(),
            p,
            id,
        );
    }
}

/// Folding runs keeps the exponent sums.
pub proof fn lemma_sum_merge_runs(s: Seq<FactorView>, p: Prefix, id: IdView)
    ensures
        exponent_sum(merge_runs(s), p, id) == exponent_sum(s, p, id),
    decreases s.len(),
{
    if s.len() > 0 {
        lemma_sum_merge_runs(s.drop_last(), p, id);
        let front = merge_runs(s.drop_last());
        if front.len() > 0 && same_merge_key(front.last(), s.last()) {
            lemma_sum_push(front.drop_last(), merged(front.last(), s.last()), p, id);
        } else {
            lemma_sum_push(front, s.last(), p, id);
        }
    }
}

/// Dropping the factors with exponent zero keeps the exponent sums.
pub proof fn lemma_sum_drop_trivial(s: Seq<FactorView>, p: Prefix, id: IdView)
    ensures
        exponent_sum(drop_trivial(s), p, id) == exponent_sum(s, p, id),
    decreases s.len(),
{
    if s.len() > 0 {
        lemma_sum_drop_trivial(s.drop_last(), p, id);
        if s.last().exponent != 0real {
            lemma_sum_push(drop_trivial(s.drop_last()), s.last(), p, id);
        }
    }
}

/// The canonical form holds as much of every pair as the product.
pub proof fn lemma_canonical_same_sums(key: KeyFn, s: Seq<FactorView>)
    ensures
        same_sums(canonical_form(key, s), s),
{
    let sorted = stable_sort(Layout::MergeKey, key, s);
    let kept = drop_trivial(merge_runs(sorted));
    assert forall|p: Prefix, id: IdView| #[trigger]
        exponent_sum(canonical_form(key, s), p, id) == exponent_sum(s, p, id) by {
        lemma_sum_stable_sort(Layout::MergeKey, key, s, p, id);
        lemma_sum_merge_runs(sorted, p, id);
        lemma_sum_drop_trivial(merge_runs(sorted), p, id);
        lemma_sum_stable_sort(Layout::Natural, key, kept, p, id);
    }
}

/// Whether every factor of the product has a prefix and an identifier of
/// which `holds` is true.
pub open spec fn all_pairs(s: Seq<FactorView>, holds: spec_fn(Prefix, IdView) -> bool) -> bool {
    forall|i: int| 0 <= i < s.len() ==> holds((#[trigger] s[i]).prefix, s[i].unit_id)
}

/// What holds of the pairs of a product and of a factor holds of the pairs
/// of the product with the factor put in its place.
pub proof fn lemma_all_insert_sorted(
    layout: Layout,
    key: KeyFn,
    s: Seq<FactorView>,
    x: FactorView,
    holds: spec_fn(Prefix, IdView) -> bool,
)
    requires
        all_pairs(s, holds),
        holds(x.prefix, x.unit_id),
    ensures
        all_pairs(insert_sorted(layout, key, s, x), holds),
    decreases s.len(),
{
    if s.len() > 0 && factor_lt(layout, key, x, s.last()) {
        assert forall|i: int| 0 <= i < s.drop_last().len() implies holds(
            (#[trigger] s.drop_last()[i]).prefix,
            s.drop_last()[i].unit_id,
        ) by {
            assert(s.drop_last()[i] == s[i]);
        }
        lemma_all_insert_sorted(layout, key, s.drop_last(), x, holds);
        assert(holds(s.last().prefix, s.last().unit_id)) by {
            assert(s.last() == s[s.len() - 1]);
        }
    }
}

/// What holds of the pairs of a product holds of the pairs of the sorted
/// product.
pub proof fn lemma_all_stable_sort(
    layout: Layout,
    key: KeyFn,
    s: Seq<FactorView>,
    holds: spec_fn(Prefix, IdView) -> bool,
)
    requires
        all_pairs(s, holds),
    ensures
        all_pairs(stable_sort(layout, key, s), holds),
    decreases s.len(),
{
    if s.len() > 0 {
        assert forall|i: int| 0 <= i < s.drop_last().len() implies holds(
            (#[trigger] s.drop_last()[i]).prefix,
            s.drop_last()[i].unit_id,
        ) by {
            assert(s.drop_last()[i] == s[i]);
        }
        lemma_all_stable_sort(layout, key, s.drop_last(), holds);
        assert(s.last() == s[s.len() - 1]);
        lemma_all_insert_sorted(
            layout,
            key,
            stable_sort(layout, key, s.drop_last()),
            s.last(),
            holds,
        );
    }
}

/// What holds of the pairs of a product holds of the pairs of the product
/// with its runs folded.
pub proof fn lemma_all_merge_runs(s: Seq<FactorView>, holds: spec_fn(Prefix, IdView) -> bool)
    requires
        all_pairs(s, holds),
    ensures
        all_pairs(merge_runs(s), holds),
    decreases s.len(),
{
    if s.len() > 0 {
        assert forall|i: int| 0 <= i < s.drop_last().len() implies holds(
            (#[trigger] s.drop_last()[i]).prefix,
            s.drop_last()[i].unit_id,
        ) by {
            assert(s.drop_last()[i] == s[i]);
        }
        lemma_all_merge_runs(s.drop_last(), holds);
        assert(s.last() == s[s.len() - 1]);
        let front = merge_runs(s.drop_last());
        if front.len() > 0 && same_merge_key(front.last(), s.last()) {
            assert forall|i: int| 0 <= i < merge_runs(s).len() implies holds(
                (#[trigger] merge_runs(s)[i]).prefix,
                merge_runs(s)[i].unit_id,
            ) by {
                if i < front.len() - 1 {
                    assert(merge_runs(s)[i] == front[i]);
                } else {
                    assert(front.last() == front[front.len() - 1]);
                }
            }
        }
    }
}

/// What holds of the pairs of a product holds of the pairs of the product
/// without its factors of exponent zero.
pub proof fn lemma_all_drop_trivial(s: Seq<FactorView>, holds: spec_fn(Prefix, IdView) -> bool)
    requires
        all_pairs(s, holds),
    ensures
        all_pairs(drop_trivial(s), holds),
    decreases s.len(),
{
    if s.len() > 0 {
        assert forall|i: int| 0 <= i < s.drop_last().len() implies holds(
            (#[trigger] s.drop_last()[i]).prefix,
            s.drop_last()[i].unit_id,
        ) by {
            assert(s.drop_last()[i] == s[i]);
        }
        lemma_all_drop_trivial(s.drop_last(), holds);
        assert(s.last() == s[s.len() - 1]);
    }
}

/// Whether the pair of `prefix` and `id` comes before the pair of
/// `other_prefix` and `other_id` in the order of merge keys.
pub open spec fn pair_lt(
    key: KeyFn,
    prefix: Prefix,
    id: IdView,
    other_prefix: Prefix,
    other_id: IdView,
) -> bool {
    prefix.precedes(other_prefix) || (prefix == other_prefix && key_lt(key(id), key(other_id)))
}

/// Whether no factor of the product comes before an earlier one, in the
/// given order.
pub open spec fn sorted(layout: Layout, key: KeyFn, s: Seq<FactorView>) -> bool {
    forall|i: int, j: int|
        0 <= i < j < s.len() ==> !factor_lt(layout, key, #[trigger] s[j], #[trigger] s[i])
}

/// Whether `holds` is true of every factor of the product.
pub open spec fn every(s: Seq<FactorView>, holds: spec_fn(FactorView) -> bool) -> bool {
    forall|i: int| 0 <= i < s.len() ==> holds(#[trigger] s[i])
}

/// Whether every factor of the product comes before all later ones.
pub open spec fn strictly_sorted(key: KeyFn, s: Seq<FactorView>) -> bool {
    forall|i: int, j: int|
        0 <= i < j < s.len() ==> factor_lt(Layout::MergeKey, key, #[trigger] s[i], #[trigger] s[j])
}

/// Whether no factor has exponent zero.
pub open spec fn nowhere_zero(s: Seq<FactorView>) -> bool {
    forall|i: int| 0 <= i < s.len() ==> (#[trigger] s[i]).exponent != 0real
}

/// The order of merge keys is transitive.
pub proof fn lemma_pair_lt_transitive(
    key: KeyFn,
    a: FactorView,
    b: FactorView,
    c: FactorView,
)
    requires
        factor_lt(Layout::MergeKey, key, a, b),
        factor_lt(Layout::MergeKey, key, b, c),
    ensures
        factor_lt(Layout::MergeKey, key, a, c),
{
    if a.prefix == b.prefix && b.prefix == c.prefix {
        lemma_key_lt_transitive(key(a.unit_id), key(b.unit_id), key(c.unit_id));
    }
}

/// No factor comes before a factor with its prefix and sort key.
pub proof fn lemma_pair_lt_irreflexive(key: KeyFn, a: FactorView, b: FactorView)
    requires
        a.prefix == b.prefix,
        key(a.unit_id) == key(b.unit_id),
    ensures
        !factor_lt(Layout::MergeKey, key, a, b),
{
    lemma_key_lt_irreflexive(key(a.unit_id));
}

/// Of two factors neither of which comes before the other, both have the
/// same prefix and sort key.
pub proof fn lemma_pair_lt_connected(key: KeyFn, a: FactorView, b: FactorView)
    requires
        !factor_lt(Layout::MergeKey, key, a, b),
        !factor_lt(Layout::MergeKey, key, b, a),
    ensures
        a.prefix == b.prefix,
        key(a.unit_id) == key(b.unit_id),
{
    if a.prefix == b.prefix && key(a.unit_id) != key(b.unit_id) {
        lemma_key_lt_connected(key(a.unit_id), key(b.unit_id));
    }
}

/// If `a` does not come before `b`, nor `b` before `c`, then `a` does not
/// come before `c`.
pub proof fn lemma_pair_not_lt_transitive(key: KeyFn, a: FactorView, b: FactorView, c: FactorView)
    requires
        !factor_lt(Layout::MergeKey, key, a, b),
        !factor_lt(Layout::MergeKey, key, b, c),
    ensures
        !factor_lt(Layout::MergeKey, key, a, c),
{
    if factor_lt(Layout::MergeKey, key, a, c) {
        if factor_lt(Layout::MergeKey, key, b, a) {
            lemma_pair_lt_transitive(key, b, a, c);
        } else {
            lemma_pair_lt_connected(key, a, b);
        }
    }
}

/// The natural order of factors is transitive.
pub proof fn lemma_natural_lt_transitive(key: KeyFn, a: FactorView, b: FactorView, c: FactorView)
    requires
        factor_lt(Layout::Natural, key, a, b),
        factor_lt(Layout::Natural, key, b, c),
    ensures
        factor_lt(Layout::Natural, key, a, c),
{
    let (ka, kb, kc) = (key(a.unit_id), key(b.unit_id), key(c.unit_id));
    if key_lt(ka, kb) && key_lt(kb, kc) {
        lemma_key_lt_transitive(ka, kb, kc);
    }
}

/// In the natural order no factor comes before itself.
pub proof fn lemma_natural_lt_irreflexive(key: KeyFn, a: FactorView)
    ensures
        !factor_lt(Layout::Natural, key, a, a),
{
    lemma_key_lt_irreflexive(key(a.unit_id));
}

/// In the natural order, if `a` does not come before `b`, nor `b` before
/// `c`, then `a` does not come before `c`.
pub proof fn lemma_natural_not_lt_transitive(
    key: KeyFn,
    a: FactorView,
    b: FactorView,
    c: FactorView,
)
    requires
        !factor_lt(Layout::Natural, key, a, b),
        !factor_lt(Layout::Natural, key, b, c),
    ensures
        !factor_lt(Layout::Natural, key, a, c),
{
    let (ka, kb, kc) = (key(a.unit_id), key(b.unit_id), key(c.unit_id));
    if ka != kb {
        lemma_key_lt_connected(ka, kb);
    }
    if kb != kc {
        lemma_key_lt_connected(kb, kc);
    }
    if ka != kb && kb != kc {
        lemma_key_lt_transitive(kc, kb, ka);
    }
    if key_lt(kc, ka) {
        // the keys alone put `c` before `a`
        if key_lt(ka, kc) {
            lemma_key_lt_transitive(ka, kc, ka);
        }
        lemma_key_lt_irreflexive(ka);
    }
}

/// Either order of factors is transitive.
pub proof fn lemma_lt_transitive(
    layout: Layout,
    key: KeyFn,
    a: FactorView,
    b: FactorView,
    c: FactorView,
)
    requires
        factor_lt(layout, key, a, b),
        factor_lt(layout, key, b, c),
    ensures
        factor_lt(layout, key, a, c),
{
    match layout {
        Layout::MergeKey => lemma_pair_lt_transitive(key, a, b, c),
        Layout::Natural => lemma_natural_lt_transitive(key, a, b, c),
    }
}

/// In either order no factor comes before itself.
pub proof fn lemma_lt_irreflexive(layout: Layout, key: KeyFn, a: FactorView)
    ensures
        !factor_lt(layout, key, a, a),
{
    match layout {
        Layout::MergeKey => lemma_pair_lt_irreflexive(key, a, a),
        Layout::Natural => lemma_natural_lt_irreflexive(key, a),
    }
}

/// In either order, if `a` does not come before `b`, nor `b` before `c`,
/// then `a` does not come before `c`.
pub proof fn lemma_not_lt_transitive(
    layout: Layout,
    key: KeyFn,
    a: FactorView,
    b: FactorView,
    c: FactorView,
)
    requires
        !factor_lt(layout, key, a, b),
        !factor_lt(layout, key, b, c),
    ensures
        !factor_lt(layout, key, a, c),
{
    match layout {
        Layout::MergeKey => lemma_pair_not_lt_transitive(key, a, b, c),
        Layout::Natural => lemma_natural_not_lt_transitive(key, a, b, c),
    }
}

/// What holds of every factor of a product and of one more factor holds of
/// every factor of the product with that factor put in its place.
pub proof fn lemma_every_insert_sorted(
    layout: Layout,
    key: KeyFn,
    s: Seq<FactorView>,
    x: FactorView,
    holds: spec_fn(FactorView) -> bool,
)
    requires
        every(s, holds),
        holds(x),
    ensures
        every(insert_sorted(layout, key, s, x), holds),
    decreases s.len(),
{
    if s.len() > 0 && factor_lt(layout, key, x, s.last()) {
        assert forall|i: int| 0 <= i < s.drop_last().len() implies holds(
            #[trigger] s.drop_last()[i],
        ) by {
            assert(s.drop_last()[i] == s[i]);
        }
        lemma_every_insert_sorted(layout, key, s.drop_last(), x, holds);
        assert(holds(s.last())) by {
            assert(s.last() == s[s.len() - 1]);
        }
    }
}

/// What holds of every factor of a product holds of every factor of the
/// sorted product.
pub proof fn lemma_every_stable_sort(
    layout: Layout,
    key: KeyFn,
    s: Seq<FactorView>,
    holds: spec_fn(FactorView) -> bool,
)
    requires
        every(s, holds),
    ensures
        every(stable_sort(layout, key, s), holds),
    decreases s.len(),
{
    if s.len() > 0 {
        assert forall|i: int| 0 <= i < s.drop_last().len() implies holds(
            #[trigger] s.drop_last()[i],
        ) by {
            assert(s.drop_last()[i] == s[i]);
        }
        lemma_every_stable_sort(layout, key, s.drop_last(), holds);
        assert(s.last() == s[s.len() - 1]);
        lemma_every_insert_sorted(
            layout,
            key,
            stable_sort(layout, key, s.drop_last()),
            s.last(),
            holds,
        );
    }
}

/// A sorted product with a factor put in its place is sorted.
#[verifier::rlimit(40)]
pub proof fn lemma_insert_sorted_sorted(
    layout: Layout,
    key: KeyFn,
    s: Seq<FactorView>,
    x: FactorView,
)
    requires
        sorted(layout, key, s),
    ensures
        sorted(layout, key, insert_sorted(layout, key, s, x)),
    decreases s.len(),
{
    let result = insert_sorted(layout, key, s, x);
    if s.len() > 0 && factor_lt(layout, key, x, s.last()) {
        let last = s.last();
        let shorter = insert_sorted(layout, key, s.drop_last(), x);
        assert(sorted(layout, key, s.drop_last())) by {
            assert forall|i: int, j: int| 0 <= i < j < s.drop_last().len() implies !factor_lt(
                layout,
                key,
                #[trigger] s.drop_last()[j],
                #[trigger] s.drop_last()[i],
            ) by {
                assert(s.drop_last()[i] == s[i] && s.drop_last()[j] == s[j]);
            }
        }
        lemma_insert_sorted_sorted(layout, key, s.drop_last(), x);
        let holds = |f: FactorView| !factor_lt(layout, key, last, f);
        assert(every(s.drop_last(), holds)) by {
            assert forall|i: int| 0 <= i < s.drop_last().len() implies holds(
                #[trigger] s.drop_last()[i],
            ) by {
                assert(s.drop_last()[i] == s[i]);
                assert(last == s[s.len() - 1]);
            }
        }
        assert(holds(x)) by {
            if factor_lt(layout, key, last, x) {
                lemma_lt_transitive(layout, key, x, last, x);
                lemma_lt_irreflexive(layout, key, x);
            }
        }
        lemma_every_insert_sorted(layout, key, s.drop_last(), x, holds);
        assert forall|i: int, j: int| 0 <= i < j < result.len() implies !factor_lt(
            layout,
            key,
            #[trigger] result[j],
            #[trigger] result[i],
        ) by {
            if j < shorter.len() {
                assert(result[i] == shorter[i] && result[j] == shorter[j]);
            } else {
                assert(result[i] == shorter[i]);
                assert(holds(shorter[i]));
            }
        }
    } else {
        assert forall|i: int, j: int| 0 <= i < j < result.len() implies !factor_lt(
            layout,
            key,
            #[trigger] result[j],
            #[trigger] result[i],
        ) by {
            if j < s.len() {
                assert(result[i] == s[i] && result[j] == s[j]);
            } else {
                assert(result[i] == s[i]);
                assert(s.last() == s[s.len() - 1]);
                if i < s.len() - 1 {
                    lemma_not_lt_transitive(layout, key, x, s.last(), s[i]);
                }
            }
        }
    }
}

/// A sorted product is sorted.
pub proof fn lemma_stable_sort_sorted(layout: Layout, key: KeyFn, s: Seq<FactorView>)
    ensures
        sorted(layout, key, stable_sort(layout, key, s)),
    decreases s.len(),
{
    if s.len() > 0 {
        lemma_stable_sort_sorted(layout, key, s.drop_last());
        lemma_insert_sorted_sorted(
            layout,
            key,
            stable_sort(layout, key, s.drop_last()),
            s.last(),
        );
    }
}

/// The identifiers of a product are within a set if it is true of all its
/// pairs that the identifier is in the set.
pub proof fn lemma_within_pairs(s: Seq<FactorView>, dom: Set<IdView>)
    ensures
        within(s, dom) <==> all_pairs(s, |p: Prefix, id: IdView| dom.contains(id)),
{
    let holds = |p: Prefix, id: IdView| dom.contains(id);
    if within(s, dom) {
        assert forall|i: int| 0 <= i < s.len() implies holds(
            (#[trigger] s[i]).prefix,
            s[i].unit_id,
        ) by {}
    }
    if all_pairs(s, holds) {
        assert forall|i: int| 0 <= i < s.len() implies dom.contains((#[trigger] s[i]).unit_id) by {
            assert(holds(s[i].prefix, s[i].unit_id));
        }
    }
}

/// Folding the runs of a sorted product, whose identifiers the key tells
/// apart, leaves every factor before all later ones.
#[verifier::rlimit(40)]
pub proof fn lemma_merge_runs_strict(key: KeyFn, dom: Set<IdView>, s: Seq<FactorView>)
    requires
        sorted(Layout::MergeKey, key, s),
        within(s, dom),
        tells_apart(key, dom),
    ensures
        strictly_sorted(key, merge_runs(s)),
        within(merge_runs(s), dom),
        s.len() > 0 ==> merge_runs(s).len() > 0 && same_merge_key(merge_runs(s).last(), s.last()),
    decreases s.len(),
{
    let holds = |p: Prefix, id: IdView| dom.contains(id);
    lemma_within_pairs(s, dom);
    lemma_all_merge_runs(s, holds);
    lemma_within_pairs(merge_runs(s), dom);
    if s.len() > 0 {
        let rest = s.drop_last();
        let x = s.last();
        assert(x == s[s.len() - 1]);
        assert(sorted(Layout::MergeKey, key, rest) && within(rest, dom)) by {
            assert forall|i: int, j: int| 0 <= i < j < rest.len() implies !factor_lt(
                Layout::MergeKey,
                key,
                #[trigger] rest[j],
                #[trigger] rest[i],
            ) by {
                assert(rest[i] == s[i] && rest[j] == s[j]);
            }
            assert forall|i: int| 0 <= i < rest.len() implies dom.contains(
                (#[trigger] rest[i]).unit_id,
            ) by {
                assert(rest[i] == s[i]);
            }
        }
        lemma_merge_runs_strict(key, dom, rest);
        let front = merge_runs(rest);
        let result = merge_runs(s);
        if front.len() > 0 && same_merge_key(front.last(), x) {
            let sum = merged(front.last(), x);
            assert forall|i: int, j: int| 0 <= i < j < result.len() implies factor_lt(
                Layout::MergeKey,
                key,
                #[trigger] result[i],
                #[trigger] result[j],
            ) by {
                assert(result[i] == front[i]);
                if j < front.len() - 1 {
                    assert(result[j] == front[j]);
                } else {
                    assert(factor_lt(Layout::MergeKey, key, front[i], front[front.len() - 1]));
                }
            }
        } else {
            assert forall|i: int, j: int| 0 <= i < j < result.len() implies factor_lt(
                Layout::MergeKey,
                key,
                #[trigger] result[i],
                #[trigger] result[j],
            ) by {
                assert(result[i] == front[i]);
                if j < front.len() {
                    assert(result[j] == front[j]);
                } else {
                    // the last factor folded so far comes before the new one
                    let before = front.last();
                    assert(before == front[front.len() - 1]);
                    assert(rest.len() > 0);
                    assert(rest.last() == s[s.len() - 2]);
                    assert(!factor_lt(Layout::MergeKey, key, x, rest.last()));
                    assert(!factor_lt(Layout::MergeKey, key, x, before));
                    if !factor_lt(Layout::MergeKey, key, before, x) {
                        lemma_pair_lt_connected(key, before, x);
                        assert(dom.contains(before.unit_id));
                        assert(dom.contains(x.unit_id));
                    }
                    if i < front.len() - 1 {
                        lemma_pair_lt_transitive(key, front[i], before, x);
                    }
                }
            }
        }
    }
}

/// Dropping factors of exponent zero from a product whose factors each
/// come before all later ones leaves such a product, without exponent zero.
#[verifier::rlimit(40)]
pub proof fn lemma_drop_trivial_strict(key: KeyFn, s: Seq<FactorView>)
    requires
        strictly_sorted(key, s),
    ensures
        strictly_sorted(key, drop_trivial(s)),
        nowhere_zero(drop_trivial(s)),
    decreases s.len(),
{
    if s.len() > 0 {
        let rest = s.drop_last();
        let x = s.last();
        assert(x == s[s.len() - 1]);
        assert(strictly_sorted(key, rest)) by {
            assert forall|i: int, j: int| 0 <= i < j < rest.len() implies factor_lt(
                Layout::MergeKey,
                key,
                #[trigger] rest[i],
                #[trigger] rest[j],
            ) by {
                assert(rest[i] == s[i] && rest[j] == s[j]);
            }
        }
        lemma_drop_trivial_strict(key, rest);
        let holds = |p: Prefix, id: IdView| pair_lt(key, p, id, x.prefix, x.unit_id);
        assert(all_pairs(rest, holds)) by {
            assert forall|i: int| 0 <= i < rest.len() implies holds(
                (#[trigger] rest[i]).prefix,
                rest[i].unit_id,
            ) by {
                assert(rest[i] == s[i]);
            }
        }
        lemma_all_drop_trivial(rest, holds);
        let kept = drop_trivial(rest);
        let result = drop_trivial(s);
        if x.exponent != 0real {
            assert forall|i: int, j: int| 0 <= i < j < result.len() implies factor_lt(
                Layout::MergeKey,
                key,
                #[trigger] result[i],
                #[trigger] result[j],
            ) by {
                assert(result[i] == kept[i]);
                if j < kept.len() {
                    assert(result[j] == kept[j]);
                } else {
                    assert(holds(kept[i].prefix, kept[i].unit_id));
                }
            }
            assert forall|i: int| 0 <= i < result.len() implies (#[trigger] result[i]).exponent
                != 0real by {
                if i < kept.len() {
                    assert(result[i] == kept[i]);
                }
            }
        }
    }
}

/// A product that holds no factor of a pair holds nothing of it.
pub proof fn lemma_sum_absent(s: Seq<FactorView>, p: Prefix, id: IdView)
    requires
        forall|i: int| 0 <= i < s.len() ==> !((#[trigger] s[i]).prefix == p && s[i].unit_id == id),
    ensures
        exponent_sum(s, p, id) == 0real,
    decreases s.len(),
{
    if s.len() > 0 {
        assert forall|i: int| 0 <= i < s.drop_last().len() implies !((
        #[trigger] s.drop_last()[i]).prefix == p && s.drop_last()[i].unit_id == id) by {
            assert(s.drop_last()[i] == s[i]);
        }
        lemma_sum_absent(s.drop_last(), p, id);
        assert(s.last() == s[s.len() - 1]);
    }
}

/// A product whose factors each come before all later ones holds of the
/// pair of each factor what the factor's exponent says.
pub proof fn lemma_sum_strict(key: KeyFn, s: Seq<FactorView>, i: int)
    requires
        strictly_sorted(key, s),
        0 <= i < s.len(),
    ensures
        exponent_sum(s, s[i].prefix, s[i].unit_id) == s[i].exponent,
    decreases s.len(),
{
    let rest = s.drop_last();
    let last = s.len() - 1;
    assert(s.last() == s[last]);
    if i == last {
        assert forall|j: int| 0 <= j < rest.len() implies !((#[trigger] rest[j]).prefix
            == s[i].prefix && rest[j].unit_id == s[i].unit_id) by {
            assert(rest[j] == s[j]);
            assert(factor_lt(Layout::MergeKey, key, s[j], s[i]));
            if s[j].prefix == s[i].prefix && s[j].unit_id == s[i].unit_id {
                lemma_pair_lt_irreflexive(key, s[j], s[i]);
            }
        }
        lemma_sum_absent(rest, s[i].prefix, s[i].unit_id);
    } else {
        assert(strictly_sorted(key, rest)) by {
            assert forall|a: int, b: int| 0 <= a < b < rest.len() implies factor_lt(
                Layout::MergeKey,
                key,
                #[trigger] rest[a],
                #[trigger] rest[b],
            ) by {
                assert(rest[a] == s[a] && rest[b] == s[b]);
            }
        }
        assert(rest[i] == s[i]);
        lemma_sum_strict(key, rest, i);
        assert(factor_lt(Layout::MergeKey, key, s[i], s[last]));
        if s[last].prefix == s[i].prefix && s[last].unit_id == s[i].unit_id {
            lemma_pair_lt_irreflexive(key, s[i], s[last]);
        }
    }
}

/// In a product whose factors each come before all later ones, a factor
/// that comes behind the last one has a pair of which the product holds
/// nothing.
pub proof fn lemma_sum_beyond(key: KeyFn, s: Seq<FactorView>, y: FactorView)
    requires
        strictly_sorted(key, s),
        s.len() > 0,
        factor_lt(Layout::MergeKey, key, s.last(), y),
    ensures
        exponent_sum(s, y.prefix, y.unit_id) == 0real,
{
    let last = s.len() - 1;
    assert(s.last() == s[last]);
    assert forall|j: int| 0 <= j < s.len() implies !((#[trigger] s[j]).prefix == y.prefix
        && s[j].unit_id == y.unit_id) by {
        if j < last {
            assert(factor_lt(Layout::MergeKey, key, s[j], s[last]));
            lemma_pair_lt_transitive(key, s[j], s[last], y);
        }
        if s[j].prefix == y.prefix && s[j].unit_id == y.unit_id {
            lemma_pair_lt_irreflexive(key, s[j], y);
        }
    }
    lemma_sum_absent(s, y.prefix, y.unit_id);
}

/// Two products without exponent zero, each with every factor before all
/// later ones, that hold as much of every pair, are the same.
#[verifier::rlimit(40)]
pub proof fn lemma_strict_unique(
    key: KeyFn,
    dom: Set<IdView>,
    x: Seq<FactorView>,
    y: Seq<FactorView>,
)
    requires
        strictly_sorted(key, x),
        strictly_sorted(key, y),
        nowhere_zero(x),
        nowhere_zero(y),
        within(x, dom),
        within(y, dom),
        tells_apart(key, dom),
        same_sums(x, y),
    ensures
        x == y,
    decreases x.len() + y.len(),
{
    if x.len() == 0 && y.len() == 0 {
        assert(x =~= y);
    } else if x.len() == 0 {
        let f = y[y.len() - 1];
        lemma_sum_strict(key, y, y.len() - 1);
        assert(exponent_sum(x, f.prefix, f.unit_id) == exponent_sum(y, f.prefix, f.unit_id));
    } else if y.len() == 0 {
        let f = x[x.len() - 1];
        lemma_sum_strict(key, x, x.len() - 1);
        assert(exponent_sum(x, f.prefix, f.unit_id) == exponent_sum(y, f.prefix, f.unit_id));
    } else {
        let f = x[x.len() - 1];
        let g = y[y.len() - 1];
        assert(x.last() == f && y.last() == g);
        lemma_sum_strict(key, x, x.len() - 1);
        lemma_sum_strict(key, y, y.len() - 1);
        assert(exponent_sum(x, f.prefix, f.unit_id) == exponent_sum(y, f.prefix, f.unit_id));
        assert(exponent_sum(x, g.prefix, g.unit_id) == exponent_sum(y, g.prefix, g.unit_id));
        if factor_lt(Layout::MergeKey, key, f, g) {
            lemma_sum_beyond(key, x, g);
        } else if factor_lt(Layout::MergeKey, key, g, f) {
            lemma_sum_beyond(key, y, f);
        } else {
            lemma_pair_lt_connected(key, f, g);
            assert(dom.contains(f.unit_id) && dom.contains(g.unit_id));
            assert(f.unit_id == g.unit_id);
            assert(f == g);
            let (xs, ys) = (x.drop_last(), y.drop_last());
            assert forall|i: int, j: int| 0 <= i < j < xs.len() implies factor_lt(
                Layout::MergeKey,
                key,
                #[trigger] xs[i],
                #[trigger] xs[j],
            ) by {
                assert(xs[i] == x[i] && xs[j] == x[j]);
            }
            assert forall|i: int, j: int| 0 <= i < j < ys.len() implies factor_lt(
                Layout::MergeKey,
                key,
                #[trigger] ys[i],
                #[trigger] ys[j],
            ) by {
                assert(ys[i] == y[i] && ys[j] == y[j]);
            }
            assert forall|i: int| 0 <= i < xs.len() implies (#[trigger] xs[i]).exponent != 0real
                && dom.contains(xs[i].unit_id) by {
                assert(xs[i] == x[i]);
            }
            assert forall|i: int| 0 <= i < ys.len() implies (#[trigger] ys[i]).exponent != 0real
                && dom.contains(ys[i].unit_id) by {
                assert(ys[i] == y[i]);
            }
            assert forall|p: Prefix, id: IdView| #[trigger]
                exponent_sum(xs, p, id) == exponent_sum(ys, p, id) by {
                assert(exponent_sum(x, p, id) == exponent_sum(y, p, id));
            }
            lemma_strict_unique(key, dom, xs, ys);
            assert(x =~= xs.push(f));
            assert(y =~= ys.push(g));
        }
    }
}

/// Products that hold as much of every (prefix, identifier) pair have the
/// same canonical form, provided the key tells their identifiers apart.
pub proof fn lemma_canonical_by_sums(
    key: KeyFn,
    dom: Set<IdView>,
    a: Seq<FactorView>,
    b: Seq<FactorView>,
)
    requires
        tells_apart(key, dom),
        within(a, dom),
        within(b, dom),
        same_sums(a, b),
    ensures
        canonical_form(key, a) == canonical_form(key, b),
{
    let holds = |p: Prefix, id: IdView| dom.contains(id);
    let sorted_a = stable_sort(Layout::MergeKey, key, a);
    let sorted_b = stable_sort(Layout::MergeKey, key, b);
    lemma_within_pairs(a, dom);
    lemma_within_pairs(b, dom);
    lemma_all_stable_sort(Layout::MergeKey, key, a, holds);
    lemma_all_stable_sort(Layout::MergeKey, key, b, holds);
    lemma_within_pairs(sorted_a, dom);
    lemma_within_pairs(sorted_b, dom);
    lemma_stable_sort_sorted(Layout::MergeKey, key, a);
    lemma_stable_sort_sorted(Layout::MergeKey, key, b);
    lemma_merge_runs_strict(key, dom, sorted_a);
    lemma_merge_runs_strict(key, dom, sorted_b);
    let merged_a = merge_runs(sorted_a);
    let merged_b = merge_runs(sorted_b);
    lemma_drop_trivial_strict(key, merged_a);
    lemma_drop_trivial_strict(key, merged_b);
    lemma_within_pairs(merged_a, dom);
    lemma_within_pairs(merged_b, dom);
    lemma_all_drop_trivial(merged_a, holds);
    lemma_all_drop_trivial(merged_b, holds);
    let kept_a = drop_trivial(merged_a);
    let kept_b = drop_trivial(merged_b);
    lemma_within_pairs(kept_a, dom);
    lemma_within_pairs(kept_b, dom);
    assert forall|p: Prefix, id: IdView| #[trigger]
        exponent_sum(kept_a, p, id) == exponent_sum(kept_b, p, id) by {
        lemma_sum_stable_sort(Layout::MergeKey, key, a, p, id);
        lemma_sum_stable_sort(Layout::MergeKey, key, b, p, id);
        lemma_sum_merge_runs(sorted_a, p, id);
        lemma_sum_merge_runs(sorted_b, p, id);
        lemma_sum_drop_trivial(merged_a, p, id);
        lemma_sum_drop_trivial(merged_b, p, id);
        assert(exponent_sum(a, p, id) == exponent_sum(b, p, id));
    }
    lemma_strict_unique(key, dom, kept_a, kept_b);
}

/// A product with distinct keys lies within its identifiers, which the
/// sort key tells apart.
pub proof fn lemma_distinct_keys(s: Seq<FactorView>)
    requires
        distinct_keys(s),
    ensures
        tells_apart(sort_keys(), identifiers(s)),
        within(s, identifiers(s)),
{
    let dom = identifiers(s);
    let key = sort_keys();
    assert forall|a: IdView, b: IdView|
        dom.contains(a) && dom.contains(b) && #[trigger] key(a) == #[trigger] key(b) implies a
        == b by {
        let i = choose|i: int| 0 <= i < s.len() && (#[trigger] s[i]).unit_id == a;
        let j = choose|j: int| 0 <= j < s.len() && (#[trigger] s[j]).unit_id == b;
        assert(sort_key(s[i].unit_id) == sort_key(s[j].unit_id));
    }
}

/// The canonical form of the empty product is empty.
pub proof fn lemma_canonical_empty(key: KeyFn)
    ensures
        canonical_form(key, Seq::<FactorView>::empty()) == Seq::<FactorView>::empty(),
{
    let none = Seq::<FactorView>::empty();
    assert(stable_sort(Layout::MergeKey, key, none) == none);
    assert(merge_runs(none) == none);
    assert(drop_trivial(none) == none);
    assert(stable_sort(Layout::Natural, key, none) == none);
}

/// The identifiers of a canonical form are identifiers of the product.
pub proof fn lemma_canonical_within(key: KeyFn, s: Seq<FactorView>, dom: Set<IdView>)
    requires
        within(s, dom),
    ensures
        within(canonical_form(key, s), dom),
{
    let holds = |p: Prefix, id: IdView| dom.contains(id);
    lemma_within_pairs(s, dom);
    let sorted_s = stable_sort(Layout::MergeKey, key, s);
    lemma_all_stable_sort(Layout::MergeKey, key, s, holds);
    lemma_all_merge_runs(sorted_s, holds);
    lemma_all_drop_trivial(merge_runs(sorted_s), holds);
    lemma_all_stable_sort(Layout::Natural, key, drop_trivial(merge_runs(sorted_s)), holds);
    lemma_within_pairs(canonical_form(key, s), dom);
}

/// Whether no two factors of the product have the same prefix and
/// identifier.
pub open spec fn merged_throughout(s: Seq<FactorView>) -> bool {
    forall|i: int, j: int|
        0 <= i < j < s.len() ==> !same_merge_key(#[trigger] s[i], #[trigger] s[j])
}

/// What is left when the factors of exponent zero are dropped has no
/// exponent zero.
pub proof fn lemma_drop_trivial_nowhere_zero(s: Seq<FactorView>)
    ensures
        nowhere_zero(drop_trivial(s)),
    decreases s.len(),
{
    if s.len() > 0 {
        lemma_drop_trivial_nowhere_zero(s.drop_last());
        let kept = drop_trivial(s.drop_last());
        if s.last().exponent != 0real {
            assert forall|i: int| 0 <= i < drop_trivial(s).len() implies (
            #[trigger] drop_trivial(s)[i]).exponent != 0real by {
                if i < kept.len() {
                    assert(drop_trivial(s)[i] == kept[i]);
                }
            }
        }
    }
}

/// Putting a factor in its place among factors that all differ from it,
/// and from one another, in prefix or identifier, leaves such a product.
#[verifier::rlimit(40)]
pub proof fn lemma_merged_insert_sorted(
    layout: Layout,
    key: KeyFn,
    s: Seq<FactorView>,
    x: FactorView,
)
    requires
        merged_throughout(s),
        forall|i: int| 0 <= i < s.len() ==> !same_merge_key(#[trigger] s[i], x),
    ensures
        merged_throughout(insert_sorted(layout, key, s, x)),
    decreases s.len(),
{
    let result = insert_sorted(layout, key, s, x);
    if s.len() > 0 && factor_lt(layout, key, x, s.last()) {
        let last = s.last();
        let rest = s.drop_last();
        let shorter = insert_sorted(layout, key, rest, x);
        assert(last == s[s.len() - 1]);
        assert(merged_throughout(rest)) by {
            assert forall|i: int, j: int| 0 <= i < j < rest.len() implies !same_merge_key(
                #[trigger] rest[i],
                #[trigger] rest[j],
            ) by {
                assert(rest[i] == s[i] && rest[j] == s[j]);
            }
        }
        assert forall|i: int| 0 <= i < rest.len() implies !same_merge_key(
            #[trigger] rest[i],
            x,
        ) by {
            assert(rest[i] == s[i]);
        }
        lemma_merged_insert_sorted(layout, key, rest, x);
        let holds = |f: FactorView| !same_merge_key(f, last);
        assert(every(rest, holds)) by {
            assert forall|i: int| 0 <= i < rest.len() implies holds(#[trigger] rest[i]) by {
                assert(rest[i] == s[i]);
            }
        }
        lemma_every_insert_sorted(layout, key, rest, x, holds);
        assert forall|i: int, j: int| 0 <= i < j < result.len() implies !same_merge_key(
            #[trigger] result[i],
            #[trigger] result[j],
        ) by {
            assert(result[i] == shorter[i]);
            if j < shorter.len() {
                assert(result[j] == shorter[j]);
            } else {
                assert(holds(shorter[i]));
            }
        }
    } else {
        assert forall|i: int, j: int| 0 <= i < j < result.len() implies !same_merge_key(
            #[trigger] result[i],
            #[trigger] result[j],
        ) by {
            assert(result[i] == s[i]);
            if j < s.len() {
                assert(result[j] == s[j]);
            }
        }
    }
}

/// Sorting factors that all differ from one another in prefix or
/// identifier leaves such a product.
pub proof fn lemma_merged_stable_sort(layout: Layout, key: KeyFn, s: Seq<FactorView>)
    requires
        merged_throughout(s),
    ensures
        merged_throughout(stable_sort(layout, key, s)),
    decreases s.len(),
{
    if s.len() > 0 {
        let rest = s.drop_last();
        let last = s.last();
        assert(last == s[s.len() - 1]);
        assert(merged_throughout(rest)) by {
            assert forall|i: int, j: int| 0 <= i < j < rest.len() implies !same_merge_key(
                #[trigger] rest[i],
                #[trigger] rest[j],
            ) by {
                assert(rest[i] == s[i] && rest[j] == s[j]);
            }
        }
        lemma_merged_stable_sort(layout, key, rest);
        let holds = |f: FactorView| !same_merge_key(f, last);
        assert(every(rest, holds)) by {
            assert forall|i: int| 0 <= i < rest.len() implies holds(#[trigger] rest[i]) by {
                assert(rest[i] == s[i]);
            }
        }
        lemma_every_stable_sort(layout, key, rest, holds);
        let sorted_rest = stable_sort(layout, key, rest);
        assert forall|i: int| 0 <= i < sorted_rest.len() implies !same_merge_key(
            #[trigger] sorted_rest[i],
            last,
        ) by {
            assert(holds(sorted_rest[i]));
        }
        lemma_merged_insert_sorted(layout, key, sorted_rest, last);
    }
}

/// The exponent sums of a product with the factor at `at` taken out.
pub proof fn lemma_sum_remove(s: Seq<FactorView>, at: int, p: Prefix, id: IdView)
    requires
        0 <= at < s.len(),
    ensures
        exponent_sum(s, p, id) == exponent_sum(s.remove(at), p, id) + contribution(s[at], p, id),
    decreases s.len(),
{
    if at == s.len() - 1 {
        assert(s.remove(at) =~= s.drop_last());
    } else {
        assert(s.remove(at).drop_last() =~= s.drop_last().remove(at));
        assert(s.remove(at).last() == s.last());
        lemma_sum_remove(s.drop_last(), at, p, id);
    }
}

/// Products with the same factors, in whatever order, hold as much of
/// every pair.
pub proof fn lemma_sums_by_factors(a: Seq<FactorView>, b: Seq<FactorView>)
    requires
        a.to_multiset() == b.to_multiset(),
    ensures
        same_sums(a, b),
    decreases a.len(),
{
    a.to_multiset_ensures();
    b.to_multiset_ensures();
    if a.len() == 0 {
        assert(b.len() == 0);
    } else {
        let x = a.last();
        let rest = a.drop_last();
        assert(a =~= rest.push(x));
        rest.to_multiset_ensures();
        assert(a.to_multiset() =~= rest.to_multiset().insert(x));
        assert(b.to_multiset().count(x) > 0);
        assert(b.contains(x));
        let j = choose|j: int| 0 <= j < b.len() && b[j] == x;
        let others = b.remove(j);
        assert(others.to_multiset() =~= b.to_multiset().remove(x));
        assert(rest.to_multiset() =~= others.to_multiset());
        lemma_sums_by_factors(rest, others);
        assert forall|p: Prefix, id: IdView| #[trigger]
            exponent_sum(a, p, id) == exponent_sum(b, p, id) by {
            lemma_sum_remove(b, j, p, id);
            assert(exponent_sum(rest, p, id) == exponent_sum(others, p, id));
        }
    }
}

/// Products with the same factors, in whatever order, have the same
/// identifiers.
pub proof fn lemma_within_by_factors(a: Seq<FactorView>, b: Seq<FactorView>)
    requires
        a.to_multiset() == b.to_multiset(),
    ensures
        within(b, identifiers(a)),
{
    a.to_multiset_ensures();
    b.to_multiset_ensures();
    assert forall|i: int| 0 <= i < b.len() implies identifiers(a).contains(
        (#[trigger] b[i]).unit_id,
    ) by {
        assert(b.contains(b[i]));
        assert(a.to_multiset().count(b[i]) > 0);
        assert(a.contains(b[i]));
        let k = choose|k: int| 0 <= k < a.len() && a[k] == b[i];
        assert(a[k].unit_id == b[i].unit_id);
    }
}

/// Writing a product in base units goes factor by factor.
pub proof fn lemma_expanded_concat(a: Seq<FactorView>, b: Seq<FactorView>)
    ensures
        expanded(a + b) == expanded(a) + expanded(b),
    decreases b.len(),
{
    if b.len() == 0 {
        assert(a + b =~= a);
        assert(expanded(a) + expanded(b) =~= expanded(a));
    } else {
        assert((a + b).drop_last() =~= a + b.drop_last());
        lemma_expanded_concat(a, b.drop_last());
        let part = raised(base_expression(b.last().unit_id), b.last().exponent);
        assert((expanded(a) + expanded(b.drop_last())) + part =~= expanded(a) + (expanded(
            b.drop_last(),
        ) + part));
    }
}

/// One factor written in base units.
pub open spec fn expanded_factor(f: FactorView) -> Seq<FactorView> {
    raised(base_expression(f.unit_id), f.exponent)
}

/// A product written in base units without the factor at `at` lacks what
/// that factor is in base units.
pub proof fn lemma_expanded_remove(s: Seq<FactorView>, at: int, p: Prefix, id: IdView)
    requires
        0 <= at < s.len(),
    ensures
        exponent_sum(expanded(s), p, id) == exponent_sum(expanded(s.remove(at)), p, id)
            + exponent_sum(expanded_factor(s[at]), p, id),
{
    let front = s.take(at);
    let back = s.skip(at + 1);
    let one = seq![s[at]];
    assert(s =~= front + one + back);
    assert(s.remove(at) =~= front + back);
    lemma_expanded_concat(front + one, back);
    lemma_expanded_concat(front, one);
    lemma_expanded_concat(front, back);
    assert(expanded(one) =~= expanded_factor(s[at])) by {
        assert(one.drop_last() =~= Seq::<FactorView>::empty());
        assert(expanded(Seq::<FactorView>::empty()) =~= Seq::<FactorView>::empty());
    }
    lemma_sum_concat(expanded(front) + expanded(one), expanded(back), p, id);
    lemma_sum_concat(expanded(front), expanded(one), p, id);
    lemma_sum_concat(expanded(front), expanded(back), p, id);
}

/// Products with the same factors, in whatever order, hold as much of
/// every pair when written in base units.
pub proof fn lemma_expanded_sums_by_factors(a: Seq<FactorView>, b: Seq<FactorView>)
    requires
        a.to_multiset() == b.to_multiset(),
    ensures
        same_sums(expanded(a), expanded(b)),
    decreases a.len(),
{
    a.to_multiset_ensures();
    b.to_multiset_ensures();
    if a.len() == 0 {
        assert(b.len() == 0);
        assert(a =~= b);
    } else {
        let x = a.last();
        let rest = a.drop_last();
        assert(a =~= rest.push(x));
        rest.to_multiset_ensures();
        assert(a.to_multiset() =~= rest.to_multiset().insert(x));
        assert(b.to_multiset().count(x) > 0);
        assert(b.contains(x));
        let j = choose|j: int| 0 <= j < b.len() && b[j] == x;
        let others = b.remove(j);
        assert(others.to_multiset() =~= b.to_multiset().remove(x));
        assert(rest.to_multiset() =~= others.to_multiset());
        lemma_expanded_sums_by_factors(rest, others);
        assert(a.remove(a.len() - 1) =~= rest);
        assert forall|p: Prefix, id: IdView| #[trigger]
            exponent_sum(expanded(a), p, id) == exponent_sum(expanded(b), p, id) by {
            lemma_expanded_remove(b, j, p, id);
            lemma_expanded_remove(a, a.len() - 1, p, id);
            assert(exponent_sum(expanded(rest), p, id) == exponent_sum(expanded(others), p, id));
        }
    }
}

/// What a factor of a product is in base units lies within the
/// identifiers of the product written in base units.
pub proof fn lemma_expanded_part_within(s: Seq<FactorView>, at: int)
    requires
        0 <= at < s.len(),
    ensures
        within(expanded_factor(s[at]), identifiers(expanded(s))),
{
    let front = s.take(at);
    let back = s.skip(at + 1);
    let one = seq![s[at]];
    let part = expanded_factor(s[at]);
    assert(s =~= front + one + back);
    lemma_expanded_concat(front + one, back);
    lemma_expanded_concat(front, one);
    assert(expanded(one) =~= part) by {
        assert(one.drop_last() =~= Seq::<FactorView>::empty());
        assert(expanded(Seq::<FactorView>::empty()) =~= Seq::<FactorView>::empty());
    }
    let whole = expanded(s);
    assert(whole =~= expanded(front) + part + expanded(back));
    assert forall|i: int| 0 <= i < part.len() implies identifiers(whole).contains(
        (#[trigger] part[i]).unit_id,
    ) by {
        assert(whole[expanded(front).len() + i] == part[i]);
    }
}

/// A product written in base units lies within a set of identifiers if
/// what each of its factors is in base units does.
pub proof fn lemma_expanded_within(s: Seq<FactorView>, dom: Set<IdView>)
    requires
        forall|i: int| 0 <= i < s.len() ==> within(expanded_factor(#[trigger] s[i]), dom),
    ensures
        within(expanded(s), dom),
    decreases s.len(),
{
    if s.len() > 0 {
        assert forall|i: int| 0 <= i < s.drop_last().len() implies within(
            expanded_factor(#[trigger] s.drop_last()[i]),
            dom,
        ) by {
            assert(s.drop_last()[i] == s[i]);
        }
        lemma_expanded_within(s.drop_last(), dom);
        assert(s.last() == s[s.len() - 1]);
        let front = expanded(s.drop_last());
        let part = expanded_factor(s.last());
        assert forall|i: int| 0 <= i < expanded(s).len() implies dom.contains(
            (#[trigger] expanded(s)[i]).unit_id,
        ) by {
            if i < front.len() {
                assert(expanded(s)[i] == front[i]);
            } else {
                assert(expanded(s)[i] == part[i - front.len()]);
            }
        }
    }
}

} // verus!
