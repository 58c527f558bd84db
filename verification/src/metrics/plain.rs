//! Where the bounds of the metrics hold: selections of which the weight is the weight of their
//! candidates.
use vstd::prelude::*;
use crate::bnb::BnbMetric;
use crate::coin_selector::{lemma_sum_monotonic, spec_sum, Candidate, Measure, SelectorView};
use crate::drain::{ChangePolicy, Drain};
use crate::exhaustive::lemma_available_is_listed;
use crate::feerate::{lemma_div_ceil_is_least, spec_div_ceil, FeeRate};
use crate::metrics::changeless::Changeless;
use crate::metrics::{spec_in_negative_tail, spec_select_negative_tail};
use crate::score::FIXED_ONE;
use crate::target::Target;

verus! {

/// Whether the selections that add to `selection` weigh what their candidates weigh: every
/// candidate has a segwit spend, all of them together have no more than 252 inputs, and a
/// candidate is selected, so that neither the varint of the input count nor the witness header
/// nor a legacy input adds weight when a candidate is selected.
pub open spec fn spec_plain(selection: SelectorView) -> bool {
    &&& forall|i: int|
        0 <= i < selection.candidates.len() ==> (#[trigger] selection.candidates[i]).is_segwit
    &&& spec_sum(
        selection.candidates,
        Set::<usize>::full(),
        Measure::InputCount,
        selection.candidates.len() as int,
    ) <= 0xfc
    &&& selection.is_segwit_tx()
}

/// Whether the unselected candidates of negative effective value at `feerate` stand last among
/// the unselected, as they do where the candidates are ordered by descending value per weight
/// unit.
pub open spec fn spec_negatives_last(selection: SelectorView, feerate: FeeRate) -> bool {
    forall|k: int, l: int|
        0 <= k < l < selection.unselected_indices().len() && selection.candidates[(
        #[trigger] selection.unselected_indices()[k]) as int].spec_effective_value(feerate) < 0
            ==> selection.candidates[(#[trigger] selection.unselected_indices()[l]) as int].spec_effective_value(
            feerate,
        ) < 0
}

/// Whether `larger` adds candidates to `selection`: it selects from the same candidates what
/// `selection` selects and, beyond that, only what can still be selected in `selection`.
pub open spec fn spec_adds_to(selection: SelectorView, larger: SelectorView) -> bool {
    &&& larger.candidates == selection.candidates
    &&& selection.selected.subset_of(larger.selected)
    &&& forall|i: usize|
        larger.selected.contains(i) && !selection.selected.contains(i) ==> selection.available(i)
}

/// Candidates that all have a segwit spend count no legacy input.
pub proof fn lemma_no_legacy(candidates: Seq<Candidate>, selected: Set<usize>, k: int)
    requires
        forall|i: int| 0 <= i < candidates.len() ==> (#[trigger] candidates[i]).is_segwit,
        k <= candidates.len(),
    ensures
        spec_sum(candidates, selected, Measure::Legacy, k) == 0,
    decreases k,
{
    if k > 0 {
        lemma_no_legacy(candidates, selected, k - 1);
        assert(candidates[k - 1].is_segwit);
    }
}

/// A selection that adds to a plain one weighs six units and what its candidates weigh.
pub proof fn lemma_plain_input_weight(selection: SelectorView, larger: SelectorView)
    requires
        spec_plain(selection),
        larger.candidates == selection.candidates,
        selection.selected.subset_of(larger.selected),
    ensures
        larger.input_weight() == 6 + larger.sum(Measure::Weight),
        0 <= larger.sum(Measure::Weight),
{
    let n = selection.candidates.len() as int;
    let all = Set::<usize>::full();
    lemma_no_legacy(larger.candidates, larger.selected, n);
    lemma_sum_monotonic(larger.candidates, larger.selected, all, Measure::InputCount, n, n);
    lemma_sum_monotonic(
        larger.candidates,
        selection.selected,
        larger.selected,
        Measure::Segwit,
        n,
        n,
    );
    lemma_sum_monotonic(larger.candidates, larger.selected, all, Measure::Weight, n, n);
}

/// The effective value of what is selected, in units of 2^-32: where one selection has, beyond
/// another, only candidates of which the value is not below the fee for their weight, and
/// lacks of the other only candidates of which the value is not above it, its value less the
/// fee for its weight is not below that of the other.
pub proof fn lemma_effective_sums(
    candidates: Seq<Candidate>,
    more: Set<usize>,
    less: Set<usize>,
    raw: int,
    k: int,
)
    requires
        k <= candidates.len() <= usize::MAX,
        forall|i: usize|
            i < k && more.contains(i) && !less.contains(i) ==> (#[trigger] candidates[i as int]).value
                * FIXED_ONE - candidates[i as int].weight * raw >= 0,
        forall|i: usize|
            i < k && less.contains(i) && !more.contains(i) ==> (#[trigger] candidates[i as int]).value
                * FIXED_ONE - candidates[i as int].weight * raw <= 0,
    ensures
        spec_sum(candidates, more, Measure::Value, k) * FIXED_ONE - spec_sum(
            candidates,
            more,
            Measure::Weight,
            k,
        ) * raw >= spec_sum(candidates, less, Measure::Value, k) * FIXED_ONE - spec_sum(
            candidates,
            less,
            Measure::Weight,
            k,
        ) * raw,
    decreases k,
{
    if k > 0 {
        lemma_effective_sums(candidates, more, less, raw, k - 1);
        let i = (k - 1) as usize;
        let value = candidates[k - 1].value as int;
        let weight = candidates[k - 1].weight as int;
        let (more_value, more_weight) = (
            spec_sum(candidates, more, Measure::Value, k - 1),
            spec_sum(candidates, more, Measure::Weight, k - 1),
        );
        let (less_value, less_weight) = (
            spec_sum(candidates, less, Measure::Value, k - 1),
            spec_sum(candidates, less, Measure::Weight, k - 1),
        );
        let one = FIXED_ONE as int;
        assert(candidates[i as int].value == value);
        assert((more_value + value) * one - (more_weight + weight) * raw == more_value * one
            - more_weight * raw + (value * one - weight * raw)) by (nonlinear_arith);
        assert((less_value + value) * one - (less_weight + weight) * raw == less_value * one
            - less_weight * raw + (value * one - weight * raw)) by (nonlinear_arith);
    }
}

/// A fee grows by no more than a whole number that covers what the weight adds at the rate.
pub proof fn lemma_fee_grows_by(heavier: int, lighter: int, by: int, raw: int)
    requires
        0 <= heavier,
        0 <= lighter,
        0 <= raw,
        by * FIXED_ONE >= heavier * raw - lighter * raw,
    ensures
        spec_div_ceil(heavier * raw, FIXED_ONE as int) - spec_div_ceil(
            lighter * raw,
            FIXED_ONE as int,
        ) <= by,
{
    let one = FIXED_ONE as int;
    let x = heavier * raw;
    let y = lighter * raw;
    assert(0 <= x && 0 <= y) by (nonlinear_arith)
        requires
            x == heavier * raw,
            y == lighter * raw,
            0 <= heavier,
            0 <= lighter,
            0 <= raw,
    ;
    let q = (y + one - 1) / one;
    let r = (y + one - 1) % one;
    vstd::arithmetic::div_mod::lemma_fundamental_div_mod(y + one - 1, one);
    vstd::arithmetic::div_mod::lemma_mod_bound(y + one - 1, one);
    // y + by * one rounds up to q + by
    assert(y + by * one + one - 1 == (q + by) * one + r) by (nonlinear_arith)
        requires
            y + one - 1 == one * q + r,
    ;
    vstd::arithmetic::div_mod::lemma_fundamental_div_mod_converse(
        y + by * one + one - 1,
        one,
        q + by,
        r,
    );
    vstd::arithmetic::div_mod::lemma_div_is_ordered(x + one - 1, y + by * one + one - 1, one);
}

/// The least excess: with no replacement asked for, a selection that adds to a plain one of
/// which the unselected candidates of negative effective value stand last has no less excess
/// than the one that adds exactly those candidates.
pub proof fn lemma_least_excess(
    selection: SelectorView,
    larger: SelectorView,
    target: Target,
    drain: Drain,
)
    requires
        selection.wf(),
        spec_plain(selection),
        spec_negatives_last(selection, target.fee.rate),
        spec_adds_to(selection, larger),
        target.fee.replace is None,
    ensures
        larger.excess(target, drain) >= spec_select_negative_tail(selection, target.fee.rate).excess(
            target,
            drain,
        ),
{
    let rate = target.fee.rate;
    let raw = rate.raw as int;
    let least = spec_select_negative_tail(selection, rate);
    let unselected = selection.unselected_indices();
    let n = selection.candidates.len() as int;
    lemma_plain_input_weight(selection, larger);
    lemma_plain_input_weight(selection, least);
    assert forall|i: usize|
        i < n && larger.selected.contains(i) && !least.selected.contains(i) implies (
    #[trigger] selection.candidates[i as int]).value * FIXED_ONE - selection.candidates[i as int].weight
        * raw >= 0 by {
        assert(selection.available(i));
        assert(selection.order.contains(i));
        let p = choose|p: int| 0 <= p < selection.order.len() && selection.order[p] == i;
        lemma_available_is_listed(selection, p, selection.order.len() as int);
        let k = choose|k: int| 0 <= k < unselected.len() && unselected[k] == i;
        if selection.candidates[i as int].spec_effective_value(rate) < 0 {
            assert forall|r: int| k <= r < unselected.len() implies selection.candidates[(
            #[trigger] unselected[r]) as int].spec_effective_value(rate) < 0 by {
                if r > k {
                    assert(selection.candidates[unselected[k] as int].spec_effective_value(rate)
                        < 0);
                }
            }
            assert(spec_in_negative_tail(selection, rate, k) && unselected[k] == i);
        }
    }
    assert forall|i: usize|
        i < n && least.selected.contains(i) && !larger.selected.contains(i) implies (
    #[trigger] selection.candidates[i as int]).value * FIXED_ONE - selection.candidates[i as int].weight
        * raw <= 0 by {
        let k = choose|k: int|
            spec_in_negative_tail(selection, rate, k) && #[trigger] selection.unselected_indices()[k]
                == i;
        assert(selection.candidates[unselected[k] as int].spec_effective_value(rate) < 0);
    }
    lemma_effective_sums(selection.candidates, larger.selected, least.selected, raw, n);
    let outputs = 32 + 6 + target.outputs.spec_output_weight_with_drain(drain.weights);
    let heavier = larger.weight(target.outputs, drain.weights);
    let lighter = least.weight(target.outputs, drain.weights);
    let by = larger.selected_value() - least.selected_value();
    crate::lemma_varint_size_monotonic(0, drain.weights.n_outputs + target.outputs.n_outputs);
    assert(heavier == outputs + larger.sum(Measure::Weight));
    assert(lighter == outputs + least.sum(Measure::Weight));
    assert(by * FIXED_ONE >= heavier * raw - lighter * raw) by (nonlinear_arith)
        requires
            larger.selected_value() * FIXED_ONE - larger.sum(Measure::Weight) * raw
                >= least.selected_value() * FIXED_ONE - least.sum(Measure::Weight) * raw,
            by == larger.selected_value() - least.selected_value(),
            heavier == outputs + larger.sum(Measure::Weight),
            lighter == outputs + least.sum(Measure::Weight),
    ;
    lemma_fee_grows_by(heavier, lighter, by, raw);
    assert(0 <= heavier * raw && 0 <= lighter * raw) by (nonlinear_arith)
        requires
            0 <= heavier,
            0 <= lighter,
            0 <= raw,
    ;
    lemma_div_ceil_is_least(heavier * raw, FIXED_ONE as int);
    lemma_div_ceil_is_least(lighter * raw, FIXED_ONE as int);
}

/// The bound of the changeless metric is admissible on plain selections: with no replacement
/// asked for, where a selection that adds to a plain one of which the unselected candidates of
/// negative effective value stand last has a score, the plain one has a bound, and one that is
/// not above that score.
pub proof fn lemma_changeless_bound_admissible(
    metric: Changeless,
    selection: SelectorView,
    larger: SelectorView,
)
    requires
        selection.wf(),
        spec_plain(selection),
        spec_negatives_last(selection, metric.target.fee.rate),
        spec_adds_to(selection, larger),
        metric.target.fee.replace is None,
        metric.score_of(larger) is Some,
    ensures
        metric.bound_of(selection) is Some,
        metric.bound_of(selection)->0.raw <= metric.score_of(larger)->0.raw,
{
    let without = Drain { weights: metric.change_policy.drain_weights, value: 0 };
    lemma_least_excess(selection, larger, metric.target, without);
}

/// Every unselected candidate up to the place `k` of the order stands at a place before `k`.
pub proof fn lemma_unselected_place(selection: SelectorView, k: int, a: int)
    requires
        k <= selection.order.len(),
        0 <= a < selection.unselected_upto(k).len(),
    ensures
        exists|p: int| 0 <= p < k && selection.order[p] == selection.unselected_upto(k)[a],
    decreases k,
{
    if k > 0 {
        let before = selection.unselected_upto(k - 1);
        if a < before.len() {
            lemma_unselected_place(selection, k - 1, a);
            let p = choose|p: int| 0 <= p < k - 1 && selection.order[p] == before[a];
            assert(selection.order[p] == selection.unselected_upto(k)[a]);
        } else {
            assert(selection.order[k - 1] == selection.unselected_upto(k)[a]);
        }
    }
}

/// The unselected candidates stand in the order of the candidates: of two of them, the one
/// that comes first among the unselected stands at the earlier place.
pub proof fn lemma_unselected_places(selection: SelectorView, k: int, a: int, b: int)
    requires
        k <= selection.order.len(),
        0 <= a < b < selection.unselected_upto(k).len(),
    ensures
        exists|p: int, q: int|
            0 <= p < q < k && selection.order[p] == selection.unselected_upto(k)[a]
                && selection.order[q] == selection.unselected_upto(k)[b],
    decreases k,
{
    if k > 0 {
        let before = selection.unselected_upto(k - 1);
        if b < before.len() {
            lemma_unselected_places(selection, k - 1, a, b);
            let (p, q) = choose|p: int, q: int|
                0 <= p < q < k - 1 && selection.order[p] == before[a] && selection.order[q]
                    == before[b];
            assert(selection.order[p] == selection.unselected_upto(k)[a] && selection.order[q]
                == selection.unselected_upto(k)[b]);
        } else {
            lemma_unselected_place(selection, k - 1, a);
            let p = choose|p: int| 0 <= p < k - 1 && selection.order[p] == before[a];
            assert(selection.order[p] == selection.unselected_upto(k)[a] && selection.order[k - 1]
                == selection.unselected_upto(k)[b]);
        }
    }
}

/// A candidate that does not stand before one of negative effective value, by descending value
/// per weight unit, has a negative effective value too.
pub proof fn lemma_not_before_negative(earlier: Candidate, later: Candidate, feerate: FeeRate)
    requires
        !crate::sorting::spec_precedes(later, earlier),
        earlier.spec_effective_value(feerate) < 0,
    ensures
        later.spec_effective_value(feerate) < 0,
{
    let one = FIXED_ONE as int;
    let raw = feerate.raw as int;
    let (v, w) = (earlier.value as int, earlier.weight as int);
    let (x, y) = (later.value as int, later.weight as int);
    assert(w > 0) by (nonlinear_arith)
        requires
            v * one - w * raw < 0,
            0 <= v,
            0 <= w,
            0 <= raw,
            one > 0,
    ;
    assert(y > 0 && x * w <= v * y);
    assert(x * one - y * raw < 0) by (nonlinear_arith)
        requires
            v * one - w * raw < 0,
            x * w <= v * y,
            w > 0,
            y > 0,
            0 <= x,
            0 <= v,
            0 <= raw,
            one > 0,
    ;
}

/// Where the candidates are ordered by descending value per weight unit, the unselected
/// candidates of negative effective value stand last.
pub proof fn lemma_sorted_negatives_last(selection: SelectorView, feerate: FeeRate)
    requires
        selection.wf(),
        crate::sorting::spec_sorted(selection.candidates, selection.order),
    ensures
        spec_negatives_last(selection, feerate),
{
    let unselected = selection.unselected_indices();
    assert forall|k: int, l: int|
        0 <= k < l < unselected.len() && selection.candidates[(
        #[trigger] unselected[k]) as int].spec_effective_value(feerate)
            < 0 implies selection.candidates[(#[trigger] unselected[l]) as int].spec_effective_value(
        feerate,
    ) < 0 by {
        lemma_unselected_places(selection, selection.order.len() as int, k, l);
        let (p, q) = choose|p: int, q: int|
            0 <= p < q < selection.order.len() && selection.order[p] == unselected[k]
                && selection.order[q] == unselected[l];
        assert(!crate::sorting::spec_precedes(
            selection.candidates[selection.order[q] as int],
            selection.candidates[selection.order[p] as int],
        ));
        lemma_not_before_negative(
            selection.candidates[unselected[k] as int],
            selection.candidates[unselected[l] as int],
            feerate,
        );
    }
}

} // verus!
