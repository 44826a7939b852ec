//! Simplification of a quantity's unit.
//!
//! The factors of the canonical unit are taken in runs of equal sort key.
//! Each run is replaced by one factor: its representative, raised to the
//! power that the run amounts to, with the conversion between the two
//! multiplied into the value.

use crate::arithmetic::{cost_of, lemma_same_number, Exponent, Rational, COST_LIMIT};
use crate::canonical::base_expression;
use crate::key::sort_key;
use crate::number::{Number, NumberView};
use crate::order::{key_view, key_wf, SortKey};
use crate::quantity::{
    canonical, conversion_fits, converted_value, convertible, with_exponent, Quantity,
    QuantityView,
};
use crate::unit::{
    lemma_view_weight, view_weight, FactorView, Measure, Unit, UnitFactor, UnitKind,
};
use itertools::Itertools;
use vstd::prelude::*;

verus! {

/// The factors in runs of neighbours with the same sort key.
pub open spec fn runs(s: Seq<FactorView>) -> Seq<Seq<FactorView>>
    decreases s.len(),
{
    if s.len() == 0 {
        Seq::empty()
    } else {
        let front = runs(s.drop_last());
        if front.len() > 0 && front.last().len() > 0 && sort_key(front.last().last().unit_id)
            == sort_key(s.last().unit_id) {
            front.drop_last().push(front.last().push(s.last()))
        } else {
            front.push(seq![s.last()])
        }
    }
}

/// Whether `a` ranks below `b` as a representative: derived units below
/// base units, then the smaller exponent below the larger.
pub open spec fn ranks_below(a: FactorView, b: FactorView) -> bool {
    let (base_a, base_b) = (a.unit_id.kind is Base, b.unit_id.kind is Base);
    (!base_a && base_b) || (base_a == base_b && a.exponent < b.exponent)
}

/// The factor of highest rank; of several, the last.
pub open spec fn representative(run: Seq<FactorView>) -> FactorView
    recommends
        run.len() > 0,
    decreases run.len(),
{
    if run.len() <= 1 {
        run[0]
    } else {
        let best = representative(run.drop_last());
        if ranks_below(run.last(), best) {
            best
        } else {
            run.last()
        }
    }
}

/// The exponent of the first factor of the factor's unit written in base
/// units; one if there is none.
pub open spec fn removed_exponent(f: FactorView) -> real {
    let base = base_expression(f.unit_id);
    if base.len() > 0 {
        base[0].exponent
    } else {
        1real
    }
}

/// What one factor of a run amounts to as a power of the representative.
pub open spec fn exponent_term(f: FactorView, rep: FactorView) -> real {
    f.exponent * removed_exponent(f) / removed_exponent(rep)
}

/// What a run amounts to as a power of the representative: the sum of its
/// factors' terms, from zero on.
pub open spec fn combined_exponent(run: Seq<FactorView>, rep: FactorView) -> real
    decreases run.len(),
{
    if run.len() == 0 {
        0real
    } else {
        combined_exponent(run.drop_last(), rep) + exponent_term(run.last(), rep)
    }
}

/// The factor that replaces a run.
pub open spec fn run_target(run: Seq<FactorView>) -> FactorView {
    with_exponent(representative(run), combined_exponent(run, representative(run)))
}

/// The factors that replace the runs, in their order.
pub open spec fn run_targets(runs: Seq<Seq<FactorView>>) -> Seq<FactorView> {
    runs.map_values(|run: Seq<FactorView>| run_target(run))
}

/// The number of its target that one of a run is.
pub open spec fn run_factor(run: Seq<FactorView>) -> NumberView {
    converted_value(NumberView::one(), run, seq![run_target(run)])
}

/// The product of the runs' factors, from one on, in their order.
pub open spec fn runs_factor(runs: Seq<Seq<FactorView>>) -> NumberView
    decreases runs.len(),
{
    if runs.len() == 0 {
        NumberView::one()
    } else {
        runs_factor(runs.drop_last()).times(run_factor(runs.last()))
    }
}

/// The simplified quantity: the plain number, where the quantity converts
/// to one; else the value times the runs' factors, in the canonical product
/// of the runs' targets.
pub open spec fn simplified(q: QuantityView) -> QuantityView {
    let scalar = Seq::<FactorView>::empty();
    if convertible(q.value, q.unit, scalar) {
        QuantityView { value: converted_value(q.value, q.unit, scalar), unit: scalar }
    } else {
        let runs = runs(canonical(q.unit));
        QuantityView {
            value: q.value.times(runs_factor(runs)),
            unit: canonical(run_targets(runs)),
        }
    }
}

/// The model of a sort key: its names as sequences, its exponents as they are.
pub open spec fn key_model(key: SortKey) -> Seq<(Seq<char>, Exponent)> {
    key@.map_values(|e: (String, Exponent)| (e.0@, e.1))
}

/// Whether `groups` lists the places `0..keys.len()` in runs of neighbours
/// with equal keys: every group is a row of successive places, the groups
/// follow one another without a gap, keys within a group are equal, and the
/// keys on both sides of a boundary differ.
#[verifier::opaque]
pub open spec fn is_run_grouping(
    keys: Seq<Seq<(Seq<char>, Exponent)>>,
    groups: Seq<Seq<usize>>,
) -> bool {
    &&& forall|k: int| 0 <= k < groups.len() ==> (#[trigger] groups[k]).len() > 0
    &&& forall|k: int, j: int|
        0 <= k < groups.len() && 0 <= j < groups[k].len() ==> (#[trigger] groups[k][j])
            == groups[k][0] + j
    &&& forall|k: int|
        0 <= k < groups.len() - 1 ==> (#[trigger] groups[k + 1])[0] == groups[k].last() + 1
    &&& keys.len() == 0 ==> groups.len() == 0
    &&& keys.len() > 0 ==> groups.len() > 0 && groups[0][0] == 0 && groups.last().last()
        == keys.len() - 1
    &&& forall|k: int, j: int|
        0 <= k < groups.len() && 0 <= j < groups[k].len() ==> keys[(#[trigger] groups[k][j]) as int]
            == keys[groups[k][0] as int]
    &&& forall|k: int|
        0 <= k < groups.len() - 1 ==> keys[(#[trigger] groups[k + 1])[0] as int]
            != keys[groups[k].last() as int]
}

/// Calls `Itertools::group_by` on the places `0..keys.len()`, keyed by the
/// key at each place. It hands out one group for every run of successive
/// places whose keys are equal; each group is collected as it comes.
#[verifier::external_body]
fn group_places(keys: &Vec<SortKey>) -> (groups: Vec<Vec<usize>>)
    ensures
        is_run_grouping(keys@.map_values(|key: SortKey| key_model(key)), groups.deep_view()),
{
    let grouped = (0..keys.len()).group_by(|place| &keys[*place]);
    let mut groups = Vec::new();
    for (_, group) in &grouped {
        groups.push(group.collect());
    }
    groups
}

/// Whether the arithmetic on one factor's term stays in range.
pub open spec fn term_fits(f: FactorView, rep: FactorView) -> bool {
    &&& cost_of(f.exponent) + cost_of(removed_exponent(f)) <= COST_LIMIT
    &&& cost_of(f.exponent * removed_exponent(f)) + cost_of(removed_exponent(rep)) <= COST_LIMIT
}

/// Whether adding up the terms of a run stays in range.
pub open spec fn sum_fits(run: Seq<FactorView>, rep: FactorView) -> bool
    decreases run.len(),
{
    run.len() == 0 || {
        &&& sum_fits(run.drop_last(), rep)
        &&& term_fits(run.last(), rep)
        &&& cost_of(combined_exponent(run.drop_last(), rep)) + cost_of(
            exponent_term(run.last(), rep),
        ) <= COST_LIMIT
    }
}

/// Whether a run can be replaced by its target: the representative's unit
/// has a first base exponent other than zero, the arithmetic stays in
/// range, and the run converts to the target.
pub open spec fn run_fits(run: Seq<FactorView>) -> bool {
    let rep = representative(run);
    let target = seq![run_target(run)];
    &&& removed_exponent(rep) != 0real
    &&& sum_fits(run, rep)
    &&& conversion_fits(NumberView::one(), run, target)
    &&& convertible(NumberView::one(), run, target)
}

/// Whether a quantity can be simplified: the conversion to a plain number
/// stays in range, and unless the quantity converts to one, every run of
/// its canonical unit can be replaced by its target, and the targets
/// together weigh at most the limit.
pub open spec fn simplification_fits(q: QuantityView) -> bool {
    &&& conversion_fits(q.value, q.unit, Seq::<FactorView>::empty())
    &&& !convertible(q.value, q.unit, Seq::<FactorView>::empty()) ==> {
        &&& runs_fit(canonical(q.unit))
        &&& view_weight(Measure::Cost, run_targets(runs(canonical(q.unit)))) <= COST_LIMIT
    }
}

/// The last run of a product ends with the product's last factor.
pub proof fn lemma_runs_last(s: Seq<FactorView>)
    requires
        s.len() > 0,
    ensures
        runs(s).len() > 0,
        runs(s).last().len() > 0,
        runs(s).last().last() == s.last(),
    decreases s.len(),
{
    if s.len() > 1 {
        lemma_runs_last(s.drop_last());
    }
}

/// A row of factors with one sort key, which is not that of the factor in
/// front of the row, is one run.
#[verifier::rlimit(40)]
proof fn lemma_runs_extend(s: Seq<FactorView>, first: int, last: int)
    requires
        0 <= first <= last < s.len(),
        forall|j: int|
            first <= j <= last ==> sort_key((#[trigger] s[j]).unit_id) == sort_key(
                s[first].unit_id,
            ),
        first > 0 ==> sort_key(s[first - 1].unit_id) != sort_key(s[first].unit_id),
    ensures
        runs(s.take(last + 1)) == runs(s.take(first)).push(s.subrange(first, last + 1)),
    decreases last - first,
{
    let whole = s.take(last + 1);
    assert(whole.drop_last() =~= s.take(last));
    assert(whole.last() == s[last]);
    if first == last {
        if first > 0 {
            lemma_runs_last(s.take(first));
            assert(s.take(first).last() == s[first - 1]);
        }
        assert(s.subrange(first, last + 1) =~= seq![s[last]]);
    } else {
        lemma_runs_extend(s, first, last - 1);
        let front = runs(s.take(last));
        assert(front.last() == s.subrange(first, last));
        assert(front.last().last() == s[last - 1]);
        assert(front.drop_last() =~= runs(s.take(first)));
        assert(s.subrange(first, last).push(s[last]) =~= s.subrange(first, last + 1));
    }
}

/// Adding up the terms of a part of a run stays in range if the whole does.
proof fn lemma_sum_fits_take(run: Seq<FactorView>, rep: FactorView, n: int)
    requires
        0 <= n <= run.len(),
        sum_fits(run, rep),
    ensures
        sum_fits(run.take(n), rep),
    decreases run.len(),
{
    if n == run.len() {
        assert(run.take(n) =~= run);
    } else {
        assert(run.drop_last().take(n) =~= run.take(n));
        lemma_sum_fits_take(run.drop_last(), rep, n);
    }
}

/// Well-formed keys with the same model denote the same key, and conversely.
proof fn lemma_key_model(a: SortKey, b: SortKey)
    requires
        key_wf(a@),
        key_wf(b@),
    ensures
        (key_model(a) == key_model(b)) <==> (key_view(a@) == key_view(b@)),
{
    if key_model(a) == key_model(b) {
        assert(a@.len() == key_model(a).len());
        assert(b@.len() == key_model(b).len());
        assert forall|i: int| 0 <= i < a@.len() implies key_view(a@)[i] == key_view(b@)[i] by {
            assert(key_model(a)[i] == key_model(b)[i]);
        }
        assert(key_view(a@) =~= key_view(b@));
    }
    if key_view(a@) == key_view(b@) {
        assert(a@.len() == key_view(a@).len());
        assert(b@.len() == key_view(b@).len());
        assert forall|i: int| 0 <= i < a@.len() implies key_model(a)[i] == key_model(b)[i] by {
            assert(key_view(a@)[i] == key_view(b@)[i]);
            lemma_same_number(a@[i].1, b@[i].1);
            assert(a@[i].1 == b@[i].1);
        }
        assert(key_model(a) =~= key_model(b));
    }
}

/// The exponent of the first factor of the factor's unit written in base
/// units; one if there is none.
fn removed(f: &UnitFactor) -> (r: Exponent)
    requires
        f.wf(),
    ensures
        r@ == removed_exponent(f@),
        r.wf(),
{
    match &f.unit_id.kind {
        UnitKind::Base => Rational::from_integer(1),
        UnitKind::Derived(_, base) => {
            if base.factors.len() > 0 {
                assert(base.model()[0].exponent.wf());
                assert(base@[0] == base.model()[0].view());
                base.factors[0].exponent
            } else {
                assert(base@.len() == 0);
                Rational::from_integer(1)
            }
        },
    }
}

/// The factors of `unit` from `first` to `last`, as a unit of their own.
fn run_of(unit: &Unit, first: usize, last: usize) -> (run: Unit)
    requires
        first <= last < unit@.len(),
        unit.wf(),
    ensures
        run@ == unit@.subrange(first as int, last + 1),
        run.model() == unit.model().subrange(first as int, last + 1),
        run.wf(),
{
    let mut factors: Vec<UnitFactor> = Vec::new();
    let mut i: usize = first;
    let n = unit.factors.len();
    assert(unit@.len() == unit.factors@.len());
    while i <= last
        invariant
            first <= i <= last + 1,
            last < n,
            n == unit.factors@.len(),
            factors@.len() == i - first,
            forall|k: int|
                0 <= k < i - first ==> (#[trigger] factors@[k]).model() == unit.model()[first + k],
        decreases last + 1 - i,
    {
        factors.push(unit.factors[i].duplicate());
        i += 1;
    }
    let run = Unit { factors };
    proof {
        assert(run.model() =~= unit.model().subrange(first as int, last + 1));
        assert(run@ =~= unit@.subrange(first as int, last + 1));
        assert forall|k: int| 0 <= k < run.model().len() implies (
        #[trigger] run.model()[k]).wf() by {
            assert(unit.model()[first + k].wf());
        }
    }
    run
}

/// The place of the representative of a run.
fn pick_representative(run: &Unit) -> (place: usize)
    requires
        run@.len() > 0,
        run.wf(),
    ensures
        place < run@.len(),
        run@[place as int] == representative(run@),
{
    let mut place: usize = 0;
    let mut i: usize = 1;
    assert(run@.len() == run.factors@.len());
    assert(run@.take(1).len() == 1);
    while i < run.factors.len()
        invariant
            1 <= i <= run.factors.len(),
            run@.len() == run.factors@.len(),
            run.wf(),
            place < i,
            run@[place as int] == representative(run@.take(i as int)),
        decreases run.factors.len() - i,
    {
        proof {
            assert(run@.take(i + 1).drop_last() =~= run@.take(i as int));
            assert(run@.take(i + 1).last() == run@[i as int]);
            assert(run.model()[i as int].wf() && run.model()[place as int].wf());
            assert(run@[i as int] == run.model()[i as int].view());
            assert(run@[place as int] == run.model()[place as int].view());
        }
        let candidate = &run.factors[i];
        let best = &run.factors[place];
        let candidate_base = candidate.unit_id.is_base();
        let best_base = best.unit_id.is_base();
        let below = (!candidate_base && best_base) || (candidate_base == best_base
            && candidate.exponent.lt(&best.exponent));
        if !below {
            place = i;
        }
        i += 1;
    }
    assert(run@.take(run.factors.len() as int) =~= run@);
    place
}

/// What a run amounts to as a power of its factor at `place`, unless the
/// arithmetic leaves the range.
#[verifier::rlimit(40)]
fn combine_exponents(run: &Unit, place: usize) -> (r: Option<Exponent>)
    requires
        run.wf(),
        place < run@.len(),
        removed_exponent(run@[place as int]) != 0real,
    ensures
        r is Some <==> sum_fits(run@, run@[place as int]),
        r matches Some(sum) ==> sum@ == combined_exponent(run@, run@[place as int]) && sum.wf(),
{
    let ghost rep = run@[place as int];
    assert(run@.len() == run.factors@.len());
    assert(run.model()[place as int].wf());
    assert(run@[place as int] == run.model()[place as int].view());
    let divisor = removed(&run.factors[place]);
    let mut sum = Rational::zero();
    let mut i: usize = 0;
    assert(run@.take(0) =~= Seq::empty());
    while i < run.factors.len()
        invariant
            i <= run.factors.len(),
            run@.len() == run.factors@.len(),
            run.wf(),
            rep == run@[place as int],
            divisor.wf(),
            divisor@ == removed_exponent(rep),
            divisor@ != 0real,
            sum_fits(run@.take(i as int), rep),
            sum.wf(),
            sum@ == combined_exponent(run@.take(i as int), rep),
        decreases run.factors.len() - i,
    {
        proof {
            assert(run@.take(i + 1).drop_last() =~= run@.take(i as int));
            assert(run@.take(i + 1).last() == run@[i as int]);
            assert(run.model()[i as int].wf());
            assert(run@[i as int] == run.model()[i as int].view());
            if sum_fits(run@, rep) {
                lemma_sum_fits_take(run@, rep, i + 1);
            }
        }
        let f = &run.factors[i];
        let own = removed(f);
        proof {
            crate::arithmetic::lemma_cost_of(f.exponent);
            crate::arithmetic::lemma_cost_of(own);
            crate::arithmetic::lemma_cost_of(divisor);
            crate::arithmetic::lemma_cost_of(sum);
        }
        if f.exponent.bits() + own.bits() > COST_LIMIT {
            return None;
        }
        let scaled = f.exponent.mul(&own);
        proof {
            crate::arithmetic::lemma_cost_of(scaled);
        }
        if scaled.bits() + divisor.bits() > COST_LIMIT {
            return None;
        }
        let term = scaled.div(&divisor);
        proof {
            crate::arithmetic::lemma_cost_of(term);
        }
        if sum.bits() + term.bits() > COST_LIMIT {
            return None;
        }
        sum = sum.add(&term);
        i += 1;
    }
    assert(run@.take(run.factors.len() as int) =~= run@);
    Some(sum)
}

/// Replaces one run by its target, if that can be done: hands back the
/// target as a unit and the number of its target that one of the run is.
#[verifier::rlimit(40)]
fn simplify_run(run: Unit) -> (r: Option<(Unit, Number)>)
    requires
        run@.len() > 0,
        run.wf(),
    ensures
        r is Some <==> run_fits(run@),
        r matches Some(pair) ==> pair.0@ == seq![run_target(run@)] && pair.0.wf() && pair.1@
            == run_factor(run@) && pair.1.wf(),
{
    let place = pick_representative(&run);
    assert(run@.len() == run.factors@.len());
    assert(run.model()[place as int].wf());
    assert(run@[place as int] == run.model()[place as int].view());
    if removed(&run.factors[place]).is_zero() {
        return None;
    }
    let exponent = match combine_exponents(&run, place) {
        Some(exponent) => exponent,
        None => {
            return None;
        },
    };
    let rep = &run.factors[place];
    let target = Unit::from_factor(
        UnitFactor { unit_id: rep.unit_id.duplicate(), prefix: rep.prefix, exponent },
    );
    proof {
        assert(target@ =~= seq![run_target(run@)]);
        assert(target.model()[0].wf());
    }
    let one = Quantity::from_unit(run);
    match one.try_convert_to(&target) {
        Some(Ok(converted)) => Some((target, converted.unsafe_value().duplicate())),
        _ => None,
    }
}

/// Whether every run of the product can be replaced by its target.
pub open spec fn runs_fit(s: Seq<FactorView>) -> bool {
    forall|k: int| 0 <= k < runs(s).len() ==> run_fits(#[trigger] runs(s)[k])
}

/// Replacing one more run extends the targets and the factor.
proof fn lemma_runs_step(
    before: Seq<Seq<FactorView>>,
    after: Seq<Seq<FactorView>>,
    run: Seq<FactorView>,
)
    requires
        after == before.push(run),
    ensures
        run_targets(after) == run_targets(before).push(run_target(run)),
        runs_factor(after) == runs_factor(before).times(run_factor(run)),
{
    assert(after.drop_last() =~= before);
    assert(run_targets(after) =~= run_targets(before).push(run_target(run)));
}

/// The sort keys of the factors of a unit.
fn keys_of(unit: &Unit) -> (keys: Vec<SortKey>)
    requires
        unit.wf(),
    ensures
        keys@.len() == unit@.len(),
        forall|k: int|
            0 <= k < keys@.len() ==> key_wf((#[trigger] keys@[k])@) && key_view(keys@[k]@)
                == sort_key(unit@[k].unit_id),
{
    let n = unit.factors.len();
    assert(unit@.len() == n);
    let mut keys: Vec<SortKey> = Vec::new();
    let mut i: usize = 0;
    while i < n
        invariant
            i <= n,
            n == unit.factors@.len(),
            n == unit@.len(),
            unit.wf(),
            keys@.len() == i,
            forall|k: int|
                0 <= k < i ==> key_wf((#[trigger] keys@[k])@) && key_view(keys@[k]@) == sort_key(
                    unit@[k].unit_id,
                ),
        decreases n - i,
    {
        assert(unit.model()[i as int].wf());
        assert(unit@[i as int] == unit.model()[i as int].view());
        keys.push(unit.factors[i].unit_id.sort_key());
        i += 1;
    }
    keys
}

/// Replaces every run of a unit by its target, if that can be done: hands
/// back the product of the targets and the product of the runs' factors.
#[verifier::rlimit(40)]
fn simplify_runs(unit: &Unit) -> (r: Option<(Unit, Number)>)
    requires
        unit.wf(),
    ensures
        r is Some <==> runs_fit(unit@),
        r matches Some(pair) ==> pair.0@ == run_targets(runs(unit@)) && pair.0.wf() && pair.1@
            == runs_factor(runs(unit@)) && pair.1.wf(),
{
    let keys = keys_of(unit);
    let groups = group_places(&keys);
    let ghost places = groups.deep_view();
    let ghost s = unit@;
    let mut factor = Number::one();
    let mut product = Unit::unity();
    let mut k: usize = 0;
    let ghost mut done: int = 0;
    proof {
        assert(s.take(0) =~= Seq::empty());
        assert(run_targets(Seq::<Seq<FactorView>>::empty()) =~= Seq::empty());
        assert(groups@.len() == places.len());
        if groups@.len() > 0 {
            lemma_grouping_within(keys@.map_values(|key: SortKey| key_model(key)), places, 0);
        } else {
            lemma_grouping_empty(keys@.map_values(|key: SortKey| key_model(key)), places);
        }
    }
    while k < groups.len()
        invariant
            k <= groups.len(),
            s == unit@,
            keys@.len() == s.len(),
            unit.wf(),
            places == groups.deep_view(),
            places.len() == groups@.len(),
            is_run_grouping(keys@.map_values(|key: SortKey| key_model(key)), places),
            forall|j: int|
                0 <= j < s.len() ==> key_wf((#[trigger] keys@[j])@) && key_view(keys@[j]@)
                    == sort_key(s[j].unit_id),
            0 <= done <= s.len(),
            k < groups.len() ==> done == places[k as int][0],
            k == groups.len() ==> done == s.len(),
            runs(s.take(done)).len() == k,
            forall|j: int| 0 <= j < k ==> j < runs(s).len() && run_fits(#[trigger] runs(s)[j]),
            product.wf(),
            product@ == run_targets(runs(s.take(done))),
            factor.wf(),
            factor@ == runs_factor(runs(s.take(done))),
        decreases groups.len() - k,
    {
        let group = &groups[k];
        let ghost place_row = places[k as int];
        proof {
            assert(place_row == group.deep_view());
            assert(group@.len() == place_row.len());
            lemma_group_run(s, keys@, places, k as int);
        }
        let first = group[0];
        let last = group[group.len() - 1];
        proof {
            assert(place_row[0] == first);
            assert(place_row.last() == last);
        }
        let run = run_of(unit, first, last);
        let ghost run_view = run@;
        let (target, number) = match simplify_run(run) {
            Some(pair) => pair,
            None => {
                assert(!run_fits(runs(s)[k as int]));
                return None;
            },
        };
        proof {
            lemma_runs_step(runs(s.take(done)), runs(s.take(last + 1)), run_view);
            assert(product@ + target@ =~= run_targets(runs(s.take(last + 1))));
            done = last + 1;
        }
        product = product.multiply(target);
        factor = factor.times(number);
        k += 1;
    }
    proof {
        assert(s.take(done) =~= s);
    }
    Some((product, factor))
}

impl Quantity {
    /// The quantity with its unit simplified, or `None` if it is not valid
    /// or cannot be simplified within the range of the exponents' integers.
    #[verifier::rlimit(40)]
    pub fn try_full_simplify(&self) -> (r: Option<Quantity>)
        ensures
            r is Some <==> self.wf() && simplification_fits(self@),
            r matches Some(q) ==> q@ == simplified(self@) && q.wf(),
    {
        if !self.is_valid() {
            return None;
        }
        let scalar = Unit::scalar();
        let unit = self.unit();
        proof {
            assert(unit@ == self@.unit);
            lemma_view_weight(Measure::Cost, unit.model());
        }
        match self.try_convert_to(&scalar) {
            None => {
                return None;
            },
            Some(Ok(plain)) => {
                return Some(plain);
            },
            Some(Err(_)) => {},
        }
        let canonical_unit = unit.canonicalized();
        let (mut simplified_unit, factor) = match simplify_runs(&canonical_unit) {
            Some(pair) => pair,
            None => {
                return None;
            },
        };
        proof {
            lemma_view_weight(Measure::Cost, simplified_unit.model());
        }
        if !simplified_unit.weighs_at_most(Measure::Cost, COST_LIMIT) {
            return None;
        }
        simplified_unit.canonicalize();
        Some(Quantity::new(self.unsafe_value().duplicate().times(factor), simplified_unit))
    }

    /// The quantity with its unit simplified: as a plain number, where it
    /// converts to one; else with every run of factors of one sort key in
    /// its canonical unit replaced by one factor.
    pub fn full_simplify(&self) -> (q: Quantity)
        requires
            self.wf(),
            simplification_fits(self@),
        ensures
            q@ == simplified(self@),
            q.wf(),
    {
        match self.try_full_simplify() {
            Some(q) => q,
            None => vstd::pervasive::unreached(),
        }
    }
}

/// A grouping without groups is one of no places.
proof fn lemma_grouping_empty(keys: Seq<Seq<(Seq<char>, Exponent)>>, groups: Seq<Seq<usize>>)
    requires
        is_run_grouping(keys, groups),
        groups.len() == 0,
    ensures
        keys.len() == 0,
{
    reveal(is_run_grouping);
}

/// Every place of a group lies in range.
proof fn lemma_grouping_within(
    keys: Seq<Seq<(Seq<char>, Exponent)>>,
    groups: Seq<Seq<usize>>,
    k: int,
)
    requires
        is_run_grouping(keys, groups),
        0 <= k < groups.len(),
    ensures
        groups[k].len() > 0,
        groups[k].last() < keys.len(),
        groups[k][0] <= groups[k].last(),
        k == 0 ==> groups[k][0] == 0,
        k > 0 ==> groups[k][0] > 0,
    decreases groups.len() - k,
{
    reveal(is_run_grouping);
    let row = groups[k];
    assert(row[row.len() - 1] == row[0] + (row.len() - 1));
    if k + 1 < groups.len() {
        lemma_grouping_within(keys, groups, k + 1);
        assert(groups[k + 1][0] == row.last() + 1);
    } else {
        assert(groups.last() == row);
    }
    if k > 0 {
        assert(groups[k - 1 + 1][0] == groups[k - 1].last() + 1);
    }
}

/// The runs of a part of a product that ends where a run ends are the first
/// runs of the whole product.
proof fn lemma_runs_prefix(s: Seq<FactorView>, n: int)
    requires
        0 < n <= s.len(),
        n < s.len() ==> sort_key(s[n - 1].unit_id) != sort_key(s[n].unit_id),
    ensures
        runs(s.take(n)).len() <= runs(s).len(),
        forall|j: int| 0 <= j < runs(s.take(n)).len() ==> runs(s)[j] == runs(s.take(n))[j],
    decreases s.len() - n,
{
    if n == s.len() {
        assert(s.take(n) =~= s);
    } else {
        let last = choose_run_end(s, n);
        lemma_run_end(s, n);
        lemma_runs_extend(s, n, last);
        lemma_runs_prefix(s, last + 1);
        let shorter = runs(s.take(n));
        let longer = runs(s.take(last + 1));
        assert(longer == shorter.push(s.subrange(n, last + 1)));
        assert forall|j: int| 0 <= j < shorter.len() implies runs(s)[j] == shorter[j] by {
            assert(longer[j] == shorter[j]);
        }
    }
}

/// The group at `k` of a run grouping is the run at `k` of the product.
#[verifier::rlimit(40)]
proof fn lemma_group_run(s: Seq<FactorView>, keys: Seq<SortKey>, places: Seq<Seq<usize>>, k: int)
    requires
        keys.len() == s.len(),
        forall|j: int|
            0 <= j < s.len() ==> key_wf((#[trigger] keys[j])@) && key_view(keys[j]@) == sort_key(
                s[j].unit_id,
            ),
        is_run_grouping(keys.map_values(|key: SortKey| key_model(key)), places),
        0 <= k < places.len(),
        runs(s.take(places[k][0] as int)).len() == k,
    ensures
        places[k].len() > 0,
        0 <= places[k][0] <= places[k].last() < s.len(),
        runs(s.take(places[k].last() + 1)) == runs(s.take(places[k][0] as int)).push(
            s.subrange(places[k][0] as int, places[k].last() + 1),
        ),
        k < runs(s).len(),
        runs(s)[k] == s.subrange(places[k][0] as int, places[k].last() + 1),
        k + 1 < places.len() ==> places[k + 1][0] == places[k].last() + 1,
        k + 1 == places.len() ==> places[k].last() + 1 == s.len(),
{
    reveal(is_run_grouping);
    let models = keys.map_values(|key: SortKey| key_model(key));
    let row = places[k];
    let first = row[0] as int;
    let last = row.last() as int;
    lemma_grouping_within(models, places, k);
    assert forall|j: int| first <= j <= last implies sort_key((#[trigger] s[j]).unit_id)
        == sort_key(s[first].unit_id) by {
        assert(row[j - first] == first + (j - first));
        assert(models[row[j - first] as int] == models[row[0] as int]);
        lemma_key_model(keys[j], keys[first]);
    }
    if first > 0 {
        let before = places[k - 1];
        assert(places[k - 1 + 1][0] == before.last() + 1);
        assert(models[places[k - 1 + 1][0] as int] != models[before.last() as int]);
        lemma_key_model(keys[first - 1], keys[first]);
    }
    lemma_runs_extend(s, first, last);
    if k + 1 < places.len() {
        let next = places[k + 1];
        assert(next[0] == row.last() + 1);
        lemma_grouping_within(models, places, k + 1);
        assert(models[next[0] as int] != models[row.last() as int]);
        lemma_key_model(keys[last], keys[last + 1]);
    } else {
        assert(places.last() == row);
    }
    lemma_runs_prefix(s, last + 1);
    let upto = runs(s.take(last + 1));
    assert(upto[k] == s.subrange(first, last + 1));
}

/// The last place of the run that begins at `first`.
spec fn choose_run_end(s: Seq<FactorView>, first: int) -> int
    decreases s.len() - first,
{
    if first + 1 < s.len() && sort_key(s[first + 1].unit_id) == sort_key(s[first].unit_id) {
        choose_run_end(s, first + 1)
    } else {
        first
    }
}

/// The run that begins at `first` reaches to [`choose_run_end`] and no further.
proof fn lemma_run_end(s: Seq<FactorView>, first: int)
    requires
        0 <= first < s.len(),
    ensures
        first <= choose_run_end(s, first) < s.len(),
        forall|j: int|
            first <= j <= choose_run_end(s, first) ==> sort_key((#[trigger] s[j]).unit_id)
                == sort_key(s[first].unit_id),
        choose_run_end(s, first) + 1 < s.len() ==> sort_key(
            s[choose_run_end(s, first)].unit_id,
        ) != sort_key(s[choose_run_end(s, first) + 1].unit_id),
    decreases s.len() - first,
{
    if first + 1 < s.len() && sort_key(s[first + 1].unit_id) == sort_key(s[first].unit_id) {
        lemma_run_end(s, first + 1);
    }
}

} // verus!
