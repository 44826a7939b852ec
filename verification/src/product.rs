//! The canonical form of a product of factors.
//!
//! A product is brought into canonical form in four steps: a stable sort by
//! merge key (prefix, then identifier), folding each run of factors with the
//! same merge key into one factor whose exponent is their sum, dropping the
//! factors whose exponent is zero, and a stable sort by the natural order of
//! factors (identifier, then prefix, then exponent). Identifiers are compared
//! by a sort key, which the caller supplies.

use crate::arithmetic::COST_LIMIT;
use crate::order::{key_lt, key_precedes, key_same, key_view, key_wf, KeyView, SortKey};
use crate::unit::{
    factors_model, factors_view, factors_wf, lemma_same_view_same_base, weight, FactorModel,
    FactorView, IdView, Measure, UnitFactor,
};
use vstd::prelude::*;

verus! {

/// Assigns each identifier its sort key.
pub type KeyFn = spec_fn(IdView) -> KeyView;

/// One of the two orders used by the canonical form.
#[derive(Debug, Clone, Copy, PartialEq, Eq, Structural)]
pub enum Layout {
    /// By prefix, then by the identifier's sort key.
    MergeKey,
    /// By the identifier's sort key, then by prefix, then by exponent.
    Natural,
}

/// Whether `a` comes strictly before `b` in the given order.
pub open spec fn factor_lt(layout: Layout, key: KeyFn, a: FactorView, b: FactorView) -> bool {
    match layout {
        Layout::MergeKey => a.prefix.precedes(b.prefix) || (a.prefix == b.prefix && key_lt(
            key(a.unit_id),
            key(b.unit_id),
        )),
        Layout::Natural => key_lt(key(a.unit_id), key(b.unit_id)) || (key(a.unit_id) == key(
            b.unit_id,
        ) && (a.prefix.precedes(b.prefix) || (a.prefix == b.prefix && a.exponent
            < b.exponent))),
    }
}

/// `sorted` with `x` placed behind the last factor that does not come after it.
pub open spec fn insert_sorted(
    layout: Layout,
    key: KeyFn,
    sorted: Seq<FactorView>,
    x: FactorView,
) -> Seq<FactorView>
    decreases sorted.len(),
{
    if sorted.len() > 0 && factor_lt(layout, key, x, sorted.last()) {
        insert_sorted(layout, key, sorted.drop_last(), x).push(sorted.last())
    } else {
        sorted.push(x)
    }
}

/// The factors in the given order; factors that the order does not tell
/// apart keep their places relative to each other.
pub open spec fn stable_sort(layout: Layout, key: KeyFn, s: Seq<FactorView>) -> Seq<FactorView>
    decreases s.len(),
{
    if s.len() == 0 {
        s
    } else {
        insert_sorted(layout, key, stable_sort(layout, key, s.drop_last()), s.last())
    }
}

/// Whether two factors have the same prefix and identifier.
pub open spec fn same_merge_key(a: FactorView, b: FactorView) -> bool {
    a.prefix == b.prefix && a.unit_id == b.unit_id
}

/// The first factor with the exponents of both added up.
pub open spec fn merged(a: FactorView, b: FactorView) -> FactorView {
    FactorView { unit_id: a.unit_id, prefix: a.prefix, exponent: a.exponent + b.exponent }
}

/// Every run of neighbours with the same merge key folded into one factor.
pub open spec fn merge_runs(s: Seq<FactorView>) -> Seq<FactorView>
    decreases s.len(),
{
    if s.len() == 0 {
        s
    } else {
        let front = merge_runs(s.drop_last());
        if front.len() > 0 && same_merge_key(front.last(), s.last()) {
            front.drop_last().push(merged(front.last(), s.last()))
        } else {
            front.push(s.last())
        }
    }
}

/// The factors whose exponent is not zero.
pub open spec fn drop_trivial(s: Seq<FactorView>) -> Seq<FactorView>
    decreases s.len(),
{
    if s.len() == 0 {
        s
    } else if s.last().exponent == 0real {
        drop_trivial(s.drop_last())
    } else {
        drop_trivial(s.drop_last()).push(s.last())
    }
}

/// The canonical form of a product, with identifiers ordered by `key`.
pub open spec fn canonical_form(key: KeyFn, s: Seq<FactorView>) -> Seq<FactorView> {
    stable_sort(
        Layout::Natural,
        key,
        drop_trivial(merge_runs(stable_sort(Layout::MergeKey, key, s))),
    )
}

/// The weight of a product with one more factor.
pub proof fn lemma_weight_push(m: Measure, s: Seq<FactorModel>, x: FactorModel)
    ensures
        weight(m, s.push(x)) == weight(m, s) + x.load(m),
{
    assert(s.push(x).drop_last() =~= s);
}

/// The weight of a product with a factor put in at `at`.
pub proof fn lemma_weight_insert(m: Measure, s: Seq<FactorModel>, at: int, x: FactorModel)
    requires
        0 <= at <= s.len(),
    ensures
        weight(m, s.insert(at, x)) == weight(m, s) + x.load(m),
    decreases s.len(),
{
    if at == s.len() {
        assert(s.insert(at, x) =~= s.push(x));
        lemma_weight_push(m, s, x);
    } else {
        assert(s.insert(at, x).drop_last() =~= s.drop_last().insert(at, x));
        assert(s.insert(at, x).last() == s.last());
        lemma_weight_insert(m, s.drop_last(), at, x);
    }
}

/// The weight of a product with the factor at `at` taken out.
pub proof fn lemma_weight_remove(m: Measure, s: Seq<FactorModel>, at: int)
    requires
        0 <= at < s.len(),
    ensures
        weight(m, s) == weight(m, s.remove(at)) + s[at].load(m),
{
    assert(s.remove(at).insert(at, s[at]) =~= s);
    lemma_weight_insert(m, s.remove(at), at, s[at]);
}

/// A factor whose exponent costs no more than those of two factors of the
/// same unit together has no more load than the two together.
pub proof fn lemma_load_merged(m: Measure, a: FactorModel, b: FactorModel, sum: FactorModel)
    requires
        sum.unit_id == a.unit_id,
        b.unit_id.base_len() == a.unit_id.base_len(),
        sum.exponent.cost() <= a.exponent.cost() + b.exponent.cost(),
    ensures
        sum.load(m) <= a.load(m) + b.load(m),
{
    let n = a.unit_id.base_len() as int;
    let (x, y, z) = (
        a.exponent.cost() as int,
        b.exponent.cost() as int,
        sum.exponent.cost() as int,
    );
    assert(z * n <= x * n + y * n) by (nonlinear_arith)
        requires
            z <= x + y,
            n >= 0,
    ;
}

/// A factor with the order key of its identifier at hand.
#[derive(Debug)]
pub(crate) struct Keyed {
    pub key: SortKey,
    pub factor: UnitFactor,
}

impl Keyed {
    /// The key is well formed and is the one that `key` gives the identifier.
    pub(crate) open spec fn agrees(&self, key: KeyFn) -> bool {
        &&& key_wf(self.key@)
        &&& key_view(self.key@) == key(self.factor@.unit_id)
        &&& self.factor.wf()
    }
}

/// The models of the factors of a keyed list.
pub(crate) open spec fn keyed_model(items: Seq<Keyed>) -> Seq<FactorModel> {
    items.map_values(|item: Keyed| item.factor.model())
}

/// The views of the factors of a keyed list.
pub(crate) open spec fn keyed_view(items: Seq<Keyed>) -> Seq<FactorView> {
    factors_view(keyed_model(items))
}

/// Whether every item carries the key that `key` gives it.
pub(crate) open spec fn all_agree(items: Seq<Keyed>, key: KeyFn) -> bool {
    forall|i: int| 0 <= i < items.len() ==> (#[trigger] items[i]).agrees(key)
}

fn keyed_lt(layout: Layout, a: &Keyed, b: &Keyed, Ghost(key): Ghost<KeyFn>) -> (r: bool)
    requires
        a.agrees(key),
        b.agrees(key),
    ensures
        r == factor_lt(layout, key, a.factor@, b.factor@),
{
    match layout {
        Layout::MergeKey => {
            a.factor.prefix.lt(&b.factor.prefix) || (a.factor.prefix == b.factor.prefix
                && key_precedes(&a.key, &b.key))
        },
        Layout::Natural => {
            if key_precedes(&a.key, &b.key) {
                true
            } else if key_same(&a.key, &b.key) {
                a.factor.prefix.lt(&b.factor.prefix) || (a.factor.prefix == b.factor.prefix
                    && a.factor.exponent.lt(&b.factor.exponent))
            } else {
                false
            }
        },
    }
}

/// Moves the item at `i` to its place among the items before it.
#[verifier::rlimit(40)]
fn place_keyed(items: &mut Vec<Keyed>, i: usize, layout: Layout, Ghost(key): Ghost<KeyFn>)
    requires
        i < old(items)@.len(),
        all_agree(old(items)@, key),
    ensures
        all_agree(final(items)@, key),
        final(items)@.len() == old(items)@.len(),
        keyed_view(final(items)@).take(i + 1) == insert_sorted(
            layout,
            key,
            keyed_view(old(items)@).take(i as int),
            old(items)@[i as int].factor@,
        ),
        final(items)@.skip(i + 1) == old(items)@.skip(i + 1),
        forall|m: Measure|
            weight(m, keyed_model(final(items)@)) == weight(m, keyed_model(old(items)@)),
{
    let ghost before = items@;
    let ghost sorted = keyed_view(before).take(i as int);
    let x = items.remove(i);
    let ghost rest = items@;
    let mut j: usize = i;
    assert(sorted.take(j as int) =~= sorted);
    assert(sorted.skip(j as int) =~= Seq::empty());
    assert(all_agree(rest, key)) by {
        assert forall|k: int| 0 <= k < rest.len() implies (#[trigger] rest[k]).agrees(key) by {
            if k < i {
                assert(rest[k] == before[k]);
            } else {
                assert(rest[k] == before[k + 1]);
            }
        }
    }
    while j > 0 && keyed_lt(layout, &x, &items[j - 1], Ghost(key))
        invariant
            j <= i,
            i < before.len(),
            items@ == rest,
            rest.len() == before.len() - 1,
            rest == before.remove(i as int),
            sorted == keyed_view(before).take(i as int),
            all_agree(rest, key),
            x.agrees(key),
            insert_sorted(layout, key, sorted, x.factor@) == insert_sorted(
                layout,
                key,
                sorted.take(j as int),
                x.factor@,
            ) + sorted.skip(j as int),
        decreases j,
    {
        let ghost head = sorted.take(j as int);
        let ghost shorter = insert_sorted(layout, key, head.drop_last(), x.factor@);
        assert(head.last() == sorted[j - 1]);
        assert(sorted[j - 1] == rest[j - 1].factor@);
        assert(head.drop_last() =~= sorted.take(j - 1));
        assert(insert_sorted(layout, key, head, x.factor@) == shorter.push(head.last()));
        assert(shorter.push(head.last()) + sorted.skip(j as int) =~= shorter + sorted.skip(
            j - 1,
        ));
        j -= 1;
    }
    proof {
        let head = sorted.take(j as int);
        if j > 0 {
            assert(head.last() == sorted[j - 1]);
            assert(sorted[j - 1] == rest[j - 1].factor@);
        }
        assert(insert_sorted(layout, key, head, x.factor@) == head.push(x.factor@));
        assert(keyed_model(before).remove(i as int) =~= keyed_model(rest));
        assert(keyed_model(rest).insert(j as int, x.factor.model()) =~= keyed_model(
            rest.insert(j as int, x),
        ));
        assert forall|m: Measure|
            weight(m, keyed_model(rest.insert(j as int, x))) == weight(
                m,
                keyed_model(before),
            ) by {
            lemma_weight_remove(m, keyed_model(before), i as int);
            lemma_weight_insert(m, keyed_model(rest), j as int, x.factor.model());
        }
    }
    items.insert(j, x);
    proof {
        let after = items@;
        assert forall|k: int| 0 <= k < after.len() implies (#[trigger] after[k]).agrees(key) by {
            if k < j {
                assert(after[k] == rest[k]);
            } else if k == j {
            } else {
                assert(after[k] == rest[k - 1]);
            }
        }
        assert(keyed_view(after).take(i + 1) =~= sorted.take(j as int).push(x.factor@)
            + sorted.skip(j as int));
        assert(after.skip(i + 1) =~= before.skip(i + 1));
    }
}

/// Sorts in place, stably, by insertion.
#[verifier::rlimit(40)]
fn sort_keyed(items: &mut Vec<Keyed>, layout: Layout, Ghost(key): Ghost<KeyFn>)
    requires
        all_agree(old(items)@, key),
    ensures
        all_agree(final(items)@, key),
        keyed_view(final(items)@) == stable_sort(layout, key, keyed_view(old(items)@)),
        forall|m: Measure|
            weight(m, keyed_model(final(items)@)) == weight(m, keyed_model(old(items)@)),
        final(items)@.len() == old(items)@.len(),
{
    let ghost given = items@;
    let n = items.len();
    let mut i: usize = 0;
    assert(keyed_view(items@).take(0) =~= Seq::empty());
    assert(keyed_view(given).take(0) =~= Seq::empty());
    while i < n
        invariant
            n == given.len(),
            items@.len() == n,
            i <= n,
            all_agree(items@, key),
            keyed_view(items@).take(i as int) == stable_sort(
                layout,
                key,
                keyed_view(given).take(i as int),
            ),
            items@.skip(i as int) == given.skip(i as int),
            forall|m: Measure| weight(m, keyed_model(items@)) == weight(m, keyed_model(given)),
        decreases n - i,
    {
        proof {
            assert(items@[i as int] == items@.skip(i as int)[0]);
            assert(given[i as int] == given.skip(i as int)[0]);
            assert(keyed_view(given).take(i + 1).drop_last() =~= keyed_view(given).take(
                i as int,
            ));
            assert(keyed_view(given).take(i + 1).last() == given[i as int].factor@);
            assert(items@.skip(i as int).skip(1) =~= items@.skip(i + 1));
            assert(given.skip(i as int).skip(1) =~= given.skip(i + 1));
        }
        place_keyed(items, i, layout, Ghost(key));
        i += 1;
    }
    assert(keyed_view(items@).take(n as int) =~= keyed_view(items@));
    assert(keyed_view(given).take(n as int) =~= keyed_view(given));
}

/// Folds each run of neighbours with the same merge key into one item.
#[verifier::rlimit(40)]
fn merge_keyed(items: Vec<Keyed>, Ghost(key): Ghost<KeyFn>) -> (out: Vec<Keyed>)
    requires
        all_agree(items@, key),
        weight(Measure::Cost, keyed_model(items@)) <= COST_LIMIT,
    ensures
        all_agree(out@, key),
        keyed_view(out@) == merge_runs(keyed_view(items@)),
        forall|m: Measure| weight(m, keyed_model(out@)) <= weight(m, keyed_model(items@)),
{
    let ghost given = items@;
    let mut items = items;
    let mut out: Vec<Keyed> = Vec::new();
    let ghost mut i: int = 0;
    assert(keyed_view(given).take(0) =~= Seq::empty());
    assert(given.skip(0) =~= given);
    assert(keyed_model(out@) =~= Seq::empty());
    while items.len() > 0
        invariant
            0 <= i <= given.len(),
            items@ == given.skip(i),
            all_agree(given, key),
            all_agree(out@, key),
            keyed_view(out@) == merge_runs(keyed_view(given).take(i)),
            forall|m: Measure|
                weight(m, keyed_model(out@)) + weight(m, keyed_model(items@)) <= weight(
                    m,
                    keyed_model(given),
                ),
            weight(Measure::Cost, keyed_model(given)) <= COST_LIMIT,
        decreases items.len(),
    {
        let ghost rest = items@;
        let ghost front = out@;
        proof {
            assert(rest[0] == given[i]);
            assert(keyed_model(rest).remove(0) =~= keyed_model(rest.remove(0)));
            assert forall|m: Measure|
                weight(m, keyed_model(rest)) == weight(m, keyed_model(rest.remove(0)))
                    + rest[0].factor.model().load(m) by {
                lemma_weight_remove(m, keyed_model(rest), 0);
            }
            assert(keyed_view(given).take(i + 1).drop_last() =~= keyed_view(given).take(i));
            assert(keyed_view(given).take(i + 1).last() == given[i].factor@);
            assert(rest.remove(0) =~= given.skip(i + 1));
        }
        let x = items.remove(0);
        let n = out.len();
        if n > 0 && out[n - 1].factor.prefix == x.factor.prefix && out[n - 1].factor.unit_id.same(
            &x.factor.unit_id,
        ) {
            proof {
                assert(keyed_model(front).drop_last() =~= keyed_model(front.drop_last()));
                assert(keyed_view(front).last() == front[n - 1].factor@);
                assert(keyed_model(front).last() == front[n - 1].factor.model());
            }
            let Keyed { key: last_key, factor: last_factor } = out.pop().unwrap();
            let last = Keyed { key: last_key, factor: last_factor.merge(x.factor) };
            out.push(last);
            proof {
                assert(out@ == front.drop_last().push(last));
                assert(keyed_model(out@) =~= keyed_model(front.drop_last()).push(
                    last.factor.model(),
                ));
                assert(front[n - 1].factor@.unit_id == x.factor@.unit_id);
                lemma_same_view_same_base(
                    front[n - 1].factor.model().unit_id,
                    x.factor.model().unit_id,
                );
                assert forall|m: Measure|
                    weight(m, keyed_model(out@)) <= weight(m, keyed_model(front))
                        + x.factor.model().load(m) by {
                    lemma_weight_push(m, keyed_model(front.drop_last()), last.factor.model());
                    lemma_load_merged(
                        m,
                        front[n - 1].factor.model(),
                        x.factor.model(),
                        last.factor.model(),
                    );
                }
                assert(last.factor@ == merged(front[n - 1].factor@, x.factor@));
                assert(keyed_view(out@) =~= keyed_view(front).drop_last().push(last.factor@));
                assert forall|k: int| 0 <= k < out@.len() implies (#[trigger] out@[k]).agrees(
                    key,
                ) by {
                    if k < n - 1 {
                        assert(out@[k] == front[k]);
                    }
                }
            }
        } else {
            proof {
                if n > 0 {
                    assert(keyed_view(front).last() == front[n - 1].factor@);
                }
                assert(keyed_model(front.push(x)) =~= keyed_model(front).push(x.factor.model()));
                assert(keyed_view(front.push(x)) =~= keyed_view(front).push(x.factor@));
                assert forall|m: Measure|
                    weight(m, keyed_model(front.push(x))) == weight(m, keyed_model(front))
                        + x.factor.model().load(m) by {
                    lemma_weight_push(m, keyed_model(front), x.factor.model());
                }
            }
            out.push(x);
        }
        proof {
            i = i + 1;
        }
    }
    assert(keyed_view(given).take(i) =~= keyed_view(given));
    assert(keyed_model(items@) =~= Seq::empty());
    out
}

/// Hands back the factors without their keys.
fn strip_keyed(items: Vec<Keyed>, Ghost(key): Ghost<KeyFn>) -> (out: Vec<UnitFactor>)
    requires
        all_agree(items@, key),
    ensures
        factors_wf(factors_model(out@)),
        factors_view(factors_model(out@)) == keyed_view(items@),
        factors_model(out@) == keyed_model(items@),
{
    let ghost given = items@;
    let mut items = items;
    let mut out: Vec<UnitFactor> = Vec::new();
    let ghost mut i: int = 0;
    assert(given.skip(0) =~= given);
    while items.len() > 0
        invariant
            0 <= i <= given.len(),
            items@ == given.skip(i),
            all_agree(given, key),
            factors_model(out@) =~= keyed_model(given).take(i),
        decreases items.len(),
    {
        proof {
            assert(items@[0] == given[i]);
            assert(items@.remove(0) =~= given.skip(i + 1));
        }
        let ghost front = out@;
        let x = items.remove(0);
        let ghost model = x.factor.model();
        out.push(x.factor);
        proof {
            assert(model == keyed_model(given)[i]);
            assert(factors_model(out@) =~= factors_model(front).push(model));
            assert(keyed_model(given).take(i + 1) =~= keyed_model(given).take(i).push(model));
            i = i + 1;
        }
    }
    assert(keyed_model(given).take(i) =~= keyed_model(given));
    out
}

/// Drops the items whose exponent is zero.
#[verifier::rlimit(40)]
fn drop_trivial_keyed(items: Vec<Keyed>, Ghost(key): Ghost<KeyFn>) -> (out: Vec<Keyed>)
    requires
        all_agree(items@, key),
    ensures
        all_agree(out@, key),
        keyed_view(out@) == drop_trivial(keyed_view(items@)),
        forall|m: Measure| weight(m, keyed_model(out@)) <= weight(m, keyed_model(items@)),
{
    let ghost given = items@;
    let mut items = items;
    let mut out: Vec<Keyed> = Vec::new();
    let ghost mut i: int = 0;
    assert(keyed_view(given).take(0) =~= Seq::empty());
    assert(given.skip(0) =~= given);
    assert(keyed_model(out@) =~= Seq::empty());
    while items.len() > 0
        invariant
            0 <= i <= given.len(),
            items@ == given.skip(i),
            all_agree(given, key),
            all_agree(out@, key),
            keyed_view(out@) == drop_trivial(keyed_view(given).take(i)),
            forall|m: Measure|
                weight(m, keyed_model(out@)) + weight(m, keyed_model(items@)) <= weight(
                    m,
                    keyed_model(given),
                ),
        decreases items.len(),
    {
        let ghost rest = items@;
        let ghost front = out@;
        proof {
            assert(rest[0] == given[i]);
            assert(keyed_model(rest).remove(0) =~= keyed_model(rest.remove(0)));
            assert forall|m: Measure|
                weight(m, keyed_model(rest)) == weight(m, keyed_model(rest.remove(0)))
                    + rest[0].factor.model().load(m) by {
                lemma_weight_remove(m, keyed_model(rest), 0);
            }
            assert(keyed_view(given).take(i + 1).drop_last() =~= keyed_view(given).take(i));
            assert(keyed_view(given).take(i + 1).last() == given[i].factor@);
            assert(rest.remove(0) =~= given.skip(i + 1));
        }
        let x = items.remove(0);
        if !x.factor.is_trivial() {
            proof {
                assert(keyed_model(front.push(x)) =~= keyed_model(front).push(x.factor.model()));
                assert(keyed_view(front.push(x)) =~= keyed_view(front).push(x.factor@));
                assert forall|m: Measure|
                    weight(m, keyed_model(front.push(x))) == weight(m, keyed_model(front))
                        + x.factor.model().load(m) by {
                    lemma_weight_push(m, keyed_model(front), x.factor.model());
                }
            }
            out.push(x);
        }
        proof {
            i = i + 1;
        }
    }
    assert(keyed_view(given).take(i) =~= keyed_view(given));
    assert(keyed_model(items@) =~= Seq::empty());
    out
}

/// Brings keyed factors into canonical form.
pub(crate) fn canonicalize_keyed(items: Vec<Keyed>, Ghost(key): Ghost<KeyFn>) -> (out: Vec<
    UnitFactor,
>)
    requires
        all_agree(items@, key),
        weight(Measure::Cost, keyed_model(items@)) <= COST_LIMIT,
    ensures
        factors_wf(factors_model(out@)),
        factors_view(factors_model(out@)) == canonical_form(key, keyed_view(items@)),
        forall|m: Measure| weight(m, factors_model(out@)) <= weight(m, keyed_model(items@)),
{
    let mut items = items;
    sort_keyed(&mut items, Layout::MergeKey, Ghost(key));
    let merged = merge_keyed(items, Ghost(key));
    let mut kept = drop_trivial_keyed(merged, Ghost(key));
    sort_keyed(&mut kept, Layout::Natural, Ghost(key));
    strip_keyed(kept, Ghost(key))
}

} // verus!
