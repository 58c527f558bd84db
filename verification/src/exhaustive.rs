//! What a finished search has found among all the selections that could be made.
use vstd::prelude::*;
use crate::bnb::{
    spec_exclusion_child, spec_in_leading_run, spec_inclusion_child, spec_same_value_and_weight,
    BnbIter, BnbMetric,
};
use crate::coin_selector::{
    lemma_indices_below_finite, lemma_select_grows, lemma_sum_exchange, lemma_unselected_in_range,
    Measure, SelectorView,
};
use crate::drain::{ChangePolicy, Drain};
use crate::feerate::FeeRate;
use crate::score::Score;
use crate::target::Target;
use crate::search_tree::{
    lemma_search_over, spec_admissible, spec_branch_in, spec_has_children, spec_optimal,
};

verus! {

/// Whether every index of `picked` is that of a candidate that can still be selected.
pub open spec fn spec_pickable(selection: SelectorView, picked: Set<usize>) -> bool {
    forall|i: usize| picked.contains(i) ==> selection.available(i)
}

/// The selection with the candidates of `picked` selected as well.
pub open spec fn spec_with(selection: SelectorView, picked: Set<usize>) -> SelectorView {
    SelectorView { selected: selection.selected.union(picked), ..selection }
}

/// Whether the metric scores a selection by what is selected alone: two selections from the
/// same candidates that select the same have the same score, whatever is banned in them and
/// whatever the order of the candidates.
pub open spec fn spec_scores_by_selection<M: BnbMetric>(metric: M) -> bool {
    forall|a: SelectorView, b: SelectorView|
        a.candidates == b.candidates && a.selected == b.selected ==> #[trigger] metric.score_of(a)
            == #[trigger] metric.score_of(b)
}

/// A candidate that can still be selected and stands before the place `k` of the order is
/// among the unselected candidates up to `k`.
pub proof fn lemma_available_is_listed(selection: SelectorView, p: int, k: int)
    requires
        0 <= p < k <= selection.order.len(),
        selection.available(selection.order[p]),
    ensures
        selection.unselected_upto(k).contains(selection.order[p]),
    decreases k,
{
    let listed = selection.unselected_upto(k);
    if p == k - 1 {
        assert(listed.last() == selection.order[p]);
    } else {
        lemma_available_is_listed(selection, p, k - 1);
        let before = selection.unselected_upto(k - 1);
        let at = choose|at: int| 0 <= at < before.len() && before[at] == selection.order[p];
        assert(listed[at] == selection.order[p]);
    }
}

/// Where a candidate can still be selected, the search branches, and it branches at a
/// candidate that can still be selected.
pub proof fn lemma_available_gives_children(selection: SelectorView, index: usize)
    requires
        selection.wf(),
        selection.available(index),
    ensures
        spec_has_children(selection),
        selection.available(selection.unselected_indices()[0]),
{
    assert(selection.order.contains(index));
    let p = choose|p: int| 0 <= p < selection.order.len() && selection.order[p] == index;
    lemma_available_is_listed(selection, p, selection.order.len() as int);
    lemma_unselected_in_range(selection, selection.order.len() as int);
}

/// The two selections that follow from a selection keep its invariant. In the one that
/// includes, the candidates that can still be selected are those of the selection but for the
/// first; in the one that excludes, they are those of the selection but for the first and for
/// some that have its value and weight.
pub proof fn lemma_children_available(selection: SelectorView)
    requires
        selection.wf(),
        spec_has_children(selection),
    ensures
        spec_inclusion_child(selection).wf(),
        spec_exclusion_child(selection).wf(),
        selection.available(selection.unselected_indices()[0]),
        forall|i: usize|
            spec_inclusion_child(selection).available(i) <==> selection.available(i) && i
                != selection.unselected_indices()[0],
        forall|i: usize|
            spec_exclusion_child(selection).available(i) ==> selection.available(i) && i
                != selection.unselected_indices()[0],
        forall|i: usize|
            selection.available(i) && !spec_exclusion_child(selection).available(i)
                ==> spec_same_value_and_weight(
                selection.candidates[i as int],
                selection.candidates[selection.unselected_indices()[0] as int],
            ),
{
    let unselected = selection.unselected_indices();
    let first = unselected[0];
    let n = selection.candidates.len();
    lemma_unselected_in_range(selection, selection.order.len() as int);
    assert(selection.available(first));
    lemma_select_grows(selection, first);
    let excluded = spec_exclusion_child(selection);
    assert(spec_in_leading_run(selection, 0) && unselected[0] == first);
    assert(excluded.banned.contains(first));
    assert forall|i: usize| excluded.banned.contains(i) && !selection.banned.contains(i) implies i
        < n && selection.available(i) && spec_same_value_and_weight(
        selection.candidates[i as int],
        selection.candidates[first as int],
    ) by {
        let k = choose|k: int|
            spec_in_leading_run(selection, k) && #[trigger] selection.unselected_indices()[k] == i;
        assert(selection.available(unselected[k]));
        assert(spec_same_value_and_weight(
            selection.candidates[unselected[k] as int],
            selection.candidates[first as int],
        ));
    }
    lemma_indices_below_finite(n);
    assert(excluded.banned.subset_of(Set::new(|i: usize| i < n)));
    vstd::set_lib::lemma_len_subset(excluded.banned, Set::new(|i: usize| i < n));
}

/// Whether no two candidates that can still be selected have the same value and weight.
pub open spec fn spec_distinct(selection: SelectorView) -> bool {
    forall|i: usize, j: usize|
        #![trigger selection.available(i), selection.available(j)]
        selection.available(i) && selection.available(j) && spec_same_value_and_weight(
            selection.candidates[i as int],
            selection.candidates[j as int],
        ) ==> i == j
}

/// The selection with the candidate `out` no longer selected and the candidate `into` selected
/// in its place.
pub open spec fn spec_exchanged(selection: SelectorView, out: usize, into: usize) -> SelectorView {
    SelectorView { selected: selection.selected.remove(out).insert(into), ..selection }
}

/// Whether the metric scores a selection by the fields of the selected candidates: the score
/// stays the same where a selected candidate is exchanged for one that is not selected and is
/// equal to it in every field.
pub open spec fn spec_scores_by_fields<M: BnbMetric>(metric: M) -> bool {
    forall|selection: SelectorView, out: usize, into: usize|
        selection.candidates.len() <= usize::MAX && out < selection.candidates.len() && into
            < selection.candidates.len() && selection.selected.contains(out)
            && !selection.selected.contains(into)
            && selection.candidates[out as int] == selection.candidates[into as int]
            ==> metric.score_of(selection) == #[trigger] metric.score_of(
            spec_exchanged(selection, out, into),
        )
}

/// Whether the search may exclude twins together: where two candidates that can still be
/// selected have the same value and weight, they are equal in every field, and the metric
/// scores by the fields of the selected candidates.
pub open spec fn spec_twins_exchangeable<M: BnbMetric>(metric: M, selection: SelectorView) -> bool {
    forall|i: usize, j: usize|
        #![trigger selection.available(i), selection.available(j)]
        selection.available(i) && selection.available(j) && i != j && spec_same_value_and_weight(
            selection.candidates[i as int],
            selection.candidates[j as int],
        ) ==> selection.candidates[i as int] == selection.candidates[j as int]
            && spec_scores_by_fields(metric)
}

/// A selection without twins has no twins to exchange.
pub proof fn lemma_distinct_is_exchangeable<M: BnbMetric>(metric: M, selection: SelectorView)
    requires
        spec_distinct(selection),
    ensures
        spec_twins_exchangeable(metric, selection),
{
}

/// Every selection that adds candidates to the selection `from` has the score of one that the
/// search from an including branch comes to by including a candidate, or of the branch's own
/// selection, where the search may exclude twins together. The search from an excluding branch
/// comes to one for those that add a candidate at least.
pub proof fn lemma_search_reaches<M: BnbMetric>(
    metric: M,
    from: SelectorView,
    from_exclusion: bool,
    picked: Set<usize>,
    pool: Set<usize>,
)
    requires
        from.wf(),
        spec_scores_by_selection(metric),
        spec_twins_exchangeable(metric, from),
        spec_pickable(from, picked),
        pool.finite(),
        forall|i: usize| from.available(i) ==> pool.contains(i),
        from_exclusion ==> exists|i: usize| picked.contains(i),
    ensures
        exists|reached: SelectorView, steps: nat|
            {
                &&& #[trigger] spec_branch_in(from, from_exclusion, reached, false, steps)
                &&& metric.score_of(reached) == metric.score_of(spec_with(from, picked))
            },
    decreases pool.len(),
{
    let aim = spec_with(from, picked);
    if forall|i: usize| !picked.contains(i) {
        assert(from.selected.union(picked) =~= from.selected);
        assert(aim == from);
        assert(spec_branch_in(from, from_exclusion, from, false, 0));
    } else {
        let some = choose|i: usize| picked.contains(i);
        lemma_available_gives_children(from, some);
        lemma_children_available(from);
        let first = from.unselected_indices()[0];
        let fewer = pool.remove(first);
        assert(pool.contains(first));
        let included = spec_inclusion_child(from);
        let excluded = spec_exclusion_child(from);
        if picked.contains(first) {
            let rest = picked.remove(first);
            lemma_exchangeable_in_child(metric, from, included);
            lemma_search_reaches(metric, included, false, rest, fewer);
            let (reached, steps) = choose|reached: SelectorView, steps: nat|
                {
                    &&& #[trigger] spec_branch_in(included, false, reached, false, steps)
                    &&& metric.score_of(reached) == metric.score_of(spec_with(included, rest))
                };
            assert(spec_with(included, rest).selected =~= aim.selected);
            assert(spec_with(included, rest) == aim);
            assert(spec_branch_in(from, from_exclusion, reached, false, steps + 1));
        } else if exists|twin: usize|
            picked.contains(twin) && spec_same_value_and_weight(
                from.candidates[twin as int],
                from.candidates[first as int],
            ) {
            let twin = choose|twin: usize|
                picked.contains(twin) && spec_same_value_and_weight(
                    from.candidates[twin as int],
                    from.candidates[first as int],
                );
            assert(from.available(twin) && from.available(first));
            let rest = picked.remove(twin);
            let exchanged = spec_exchanged(aim, twin, first);
            assert(metric.score_of(aim) == metric.score_of(exchanged));
            lemma_exchangeable_in_child(metric, from, included);
            lemma_search_reaches(metric, included, false, rest, fewer);
            let (reached, steps) = choose|reached: SelectorView, steps: nat|
                {
                    &&& #[trigger] spec_branch_in(included, false, reached, false, steps)
                    &&& metric.score_of(reached) == metric.score_of(spec_with(included, rest))
                };
            assert(spec_with(included, rest).selected =~= exchanged.selected);
            assert(spec_with(included, rest) == exchanged);
            assert(spec_branch_in(from, from_exclusion, reached, false, steps + 1));
        } else {
            lemma_exchangeable_in_child(metric, from, excluded);
            assert forall|i: usize| picked.contains(i) implies excluded.available(i) by {
                if !excluded.available(i) {
                    assert(from.available(i));
                    assert(spec_same_value_and_weight(
                        from.candidates[i as int],
                        from.candidates[first as int],
                    ));
                }
            }
            lemma_search_reaches(metric, excluded, true, picked, fewer);
            let (reached, steps) = choose|reached: SelectorView, steps: nat|
                {
                    &&& #[trigger] spec_branch_in(excluded, true, reached, false, steps)
                    &&& metric.score_of(reached) == metric.score_of(spec_with(excluded, picked))
                };
            assert(metric.score_of(spec_with(excluded, picked)) == metric.score_of(aim));
            assert(spec_branch_in(from, from_exclusion, reached, false, steps + 1));
        }
    }
}

/// Where the search may exclude twins together at a selection, it may do so at a selection
/// that follows from it, in which no other candidates can be selected.
proof fn lemma_exchangeable_in_child<M: BnbMetric>(metric: M, from: SelectorView, child: SelectorView)
    requires
        spec_twins_exchangeable(metric, from),
        child.candidates == from.candidates,
        forall|i: usize| child.available(i) ==> from.available(i),
    ensures
        spec_twins_exchangeable(metric, child),
{
    assert forall|i: usize, j: usize|
        #![trigger child.available(i), child.available(j)]
        child.available(i) && child.available(j) && i != j && spec_same_value_and_weight(
            child.candidates[i as int],
            child.candidates[j as int],
        ) implies child.candidates[i as int] == child.candidates[j as int]
        && spec_scores_by_fields(metric) by {
        assert(from.available(i) && from.available(j));
    }
}

/// Every selection that the search comes to adds candidates to the selection that it started
/// from, and only such as could be selected there.
pub proof fn lemma_search_only_adds(
    from: SelectorView,
    from_exclusion: bool,
    to: SelectorView,
    to_exclusion: bool,
    steps: nat,
)
    requires
        from.wf(),
        spec_branch_in(from, from_exclusion, to, to_exclusion, steps),
    ensures
        to.wf(),
        to.candidates == from.candidates,
        from.selected.subset_of(to.selected),
        from.banned.subset_of(to.banned),
        forall|i: usize| to.selected.contains(i) && !from.selected.contains(i) ==> from.available(i),
    decreases steps,
{
    if !(from == to && from_exclusion == to_exclusion) {
        let first = from.unselected_indices()[0];
        lemma_unselected_in_range(from, from.order.len() as int);
        assert(from.available(first));
        lemma_select_grows(from, first);
        if spec_branch_in(spec_inclusion_child(from), false, to, to_exclusion, (steps - 1) as nat) {
            let child = spec_inclusion_child(from);
            lemma_search_only_adds(child, false, to, to_exclusion, (steps - 1) as nat);
            assert forall|i: usize|
                to.selected.contains(i) && !from.selected.contains(i) implies from.available(i) by {
                if !child.selected.contains(i) {
                    assert(child.available(i));
                }
            }
        } else {
            let child = spec_exclusion_child(from);
            let n = from.candidates.len();
            assert forall|i: usize| child.banned.contains(i) implies i < n by {
                if !from.banned.contains(i) {
                    let k = choose|k: int|
                        spec_in_leading_run(from, k) && #[trigger] from.unselected_indices()[k] == i;
                    assert(from.available(from.unselected_indices()[k]));
                }
            }
            lemma_indices_below_finite(n);
            assert(child.banned.subset_of(Set::new(|i: usize| i < n)));
            vstd::set_lib::lemma_len_subset(child.banned, Set::new(|i: usize| i < n));
            lemma_search_only_adds(child, true, to, to_exclusion, (steps - 1) as nat);
            assert forall|i: usize|
                to.selected.contains(i) && !from.selected.contains(i) implies from.available(i) by {
                assert(child.available(i));
            }
        }
    }
}

/// A finished search with an admissible metric has found the least score among all the
/// selections that add candidates to the one that it started from, where the metric scores by
/// what is selected alone and the search may exclude twins together: where no two candidates
/// that could be selected have the same value and weight, or where those that have are equal in
/// every field and the metric scores by the fields of the selected candidates. No such
/// selection has a lower score than the best, and where one has a score, the best is the score
/// of one of them.
pub proof fn lemma_search_finds_least_of_all<M: BnbMetric>(
    metric: M,
    root: SelectorView,
    best: Option<Score>,
)
    requires
        root.wf(),
        spec_scores_by_selection(metric),
        spec_twins_exchangeable(metric, root),
        spec_optimal(metric, root, best),
    ensures
        forall|picked: Set<usize>|
            spec_pickable(root, picked) && (#[trigger] metric.score_of(spec_with(root, picked))) is Some
                ==> best is Some && best->0.raw <= metric.score_of(spec_with(root, picked))->0.raw,
        best is Some ==> exists|picked: Set<usize>|
            spec_pickable(root, picked) && #[trigger] metric.score_of(spec_with(root, picked))
                == best,
{
    let n = root.candidates.len();
    let pool = Set::new(|i: usize| i < n);
    lemma_indices_below_finite(n);
    assert forall|picked: Set<usize>|
        spec_pickable(root, picked) && (#[trigger] metric.score_of(spec_with(root, picked))) is Some implies best is Some
        && best->0.raw <= metric.score_of(spec_with(root, picked))->0.raw by {
        lemma_search_reaches(metric, root, false, picked, pool);
        let (reached, steps) = choose|reached: SelectorView, steps: nat|
            {
                &&& #[trigger] spec_branch_in(root, false, reached, false, steps)
                &&& metric.score_of(reached) == metric.score_of(spec_with(root, picked))
            };
    }
    if best is Some {
        let (scored, steps) = choose|scored: SelectorView, steps: nat|
            #[trigger] spec_branch_in(root, false, scored, false, steps) && metric.score_of(scored)
                == best;
        lemma_search_only_adds(root, false, scored, false, steps);
        let picked = scored.selected.difference(root.selected);
        assert(root.selected.union(picked) =~= scored.selected);
        assert(spec_pickable(root, picked));
        assert(metric.score_of(spec_with(root, picked)) == metric.score_of(scored));
    }
}

/// A search with an admissible metric that is over has found the least score among all the
/// selections that add candidates to the one that it started from, where the metric scores by
/// what is selected alone and the search may exclude twins together. A search is over where a
/// round hands out `None`.
pub proof fn lemma_finished_search_is_optimal<'a, M: BnbMetric>(
    search: BnbIter<'a, M>,
    after: BnbIter<'a, M>,
)
    requires
        search.inv(),
        BnbIter::spec_round(search, None, after),
        search.root().wf(),
        spec_admissible(search.metric(), search.root()),
        spec_scores_by_selection(search.metric()),
        spec_twins_exchangeable(search.metric(), search.root()),
    ensures
        after.best() == search.best(),
        forall|picked: Set<usize>|
            spec_pickable(search.root(), picked) && (#[trigger] search.metric().score_of(
                spec_with(search.root(), picked),
            )) is Some ==> search.best() is Some && search.best()->0.raw
                <= search.metric().score_of(spec_with(search.root(), picked))->0.raw,
        search.best() is Some ==> exists|picked: Set<usize>|
            spec_pickable(search.root(), picked) && #[trigger] search.metric().score_of(
                spec_with(search.root(), picked),
            ) == search.best(),
{
    lemma_search_over(search.metric(), search.root(), search.best(), search.queue());
    lemma_search_finds_least_of_all(search.metric(), search.root(), search.best());
}

/// Two selections from the same candidates whose sums are the same have the same value,
/// weight, fees and excess, and so the same change output.
pub proof fn lemma_figures_by_sums(a: SelectorView, b: SelectorView)
    requires
        a.candidates == b.candidates,
        forall|measure: Measure| #[trigger] a.sum(measure) == b.sum(measure),
    ensures
        a.selected_value() == b.selected_value(),
        a.input_weight() == b.input_weight(),
        forall|target: Target, drain: Drain| #[trigger]
            a.excess(target, drain) == b.excess(target, drain),
        forall|target: Target, drain: Drain| #[trigger]
            a.rate_excess(target, drain) == b.rate_excess(target, drain),
        forall|target: Target, change_policy: ChangePolicy| #[trigger]
            a.drain(target, change_policy) == b.drain(target, change_policy),
        forall|target: Target, long_term_feerate: FeeRate, drain: Drain, discount: Score| #[trigger]
            a.waste(target, long_term_feerate, drain, discount) == b.waste(
                target,
                long_term_feerate,
                drain,
                discount,
            ),
{
    assert(a.sum(Measure::Value) == b.sum(Measure::Value));
    assert(a.sum(Measure::Weight) == b.sum(Measure::Weight));
    assert(a.sum(Measure::InputCount) == b.sum(Measure::InputCount));
    assert(a.sum(Measure::Legacy) == b.sum(Measure::Legacy));
    assert(a.sum(Measure::Segwit) == b.sum(Measure::Segwit));
}

/// Two selections from the same candidates that select the same have the same value, weight,
/// fees and excess, and so the same change output.
pub proof fn lemma_figures_by_selection(a: SelectorView, b: SelectorView)
    requires
        a.candidates == b.candidates,
        a.selected == b.selected,
    ensures
        a.selected_value() == b.selected_value(),
        a.input_weight() == b.input_weight(),
        forall|target: Target, drain: Drain| #[trigger]
            a.excess(target, drain) == b.excess(target, drain),
        forall|target: Target, drain: Drain| #[trigger]
            a.rate_excess(target, drain) == b.rate_excess(target, drain),
        forall|target: Target, change_policy: ChangePolicy| #[trigger]
            a.drain(target, change_policy) == b.drain(target, change_policy),
        forall|target: Target, long_term_feerate: FeeRate, drain: Drain, discount: Score| #[trigger]
            a.waste(target, long_term_feerate, drain, discount) == b.waste(
                target,
                long_term_feerate,
                drain,
                discount,
            ),
{
    lemma_figures_by_sums(a, b);
}

/// Exchanging a selected candidate for one that is not selected and is equal to it in every
/// field changes neither value, weight, fees nor excess, and so not the change output.
pub proof fn lemma_figures_by_fields(selection: SelectorView, out: usize, into: usize)
    requires
        selection.candidates.len() <= usize::MAX,
        out < selection.candidates.len(),
        into < selection.candidates.len(),
        selection.selected.contains(out),
        !selection.selected.contains(into),
        selection.candidates[out as int] == selection.candidates[into as int],
    ensures
        forall|target: Target, drain: Drain| #[trigger]
            selection.excess(target, drain) == spec_exchanged(selection, out, into).excess(
                target,
                drain,
            ),
        forall|target: Target, change_policy: ChangePolicy| #[trigger]
            selection.drain(target, change_policy) == spec_exchanged(selection, out, into).drain(
                target,
                change_policy,
            ),
        forall|target: Target, long_term_feerate: FeeRate, drain: Drain, discount: Score| #[trigger]
            selection.waste(target, long_term_feerate, drain, discount) == spec_exchanged(
                selection,
                out,
                into,
            ).waste(target, long_term_feerate, drain, discount),
        selection.selected_value() == spec_exchanged(selection, out, into).selected_value(),
        selection.input_weight() == spec_exchanged(selection, out, into).input_weight(),
{
    let exchanged = spec_exchanged(selection, out, into);
    assert forall|measure: Measure| #[trigger] selection.sum(measure) == exchanged.sum(measure) by {
        lemma_sum_exchange(selection.candidates, selection.selected, measure, out, into);
    }
    lemma_figures_by_sums(selection, exchanged);
}

/// Where no candidate can be selected, none is listed as unselected.
pub proof fn lemma_none_available_none_listed(selection: SelectorView, k: int)
    requires
        forall|i: usize| !selection.available(i),
    ensures
        selection.unselected_upto(k).len() == 0,
    decreases k,
{
    if k > 0 {
        lemma_none_available_none_listed(selection, k - 1);
    }
}

/// Excluding one of identical candidates excludes them all: where all the candidates that can
/// still be selected have the same value and weight, the selection that excludes the first of
/// them has none left to select, so that the search does not branch there.
pub proof fn lemma_excluding_identical_excludes_all(selection: SelectorView)
    requires
        selection.wf(),
        spec_has_children(selection),
        forall|i: usize, j: usize|
            #![trigger selection.available(i), selection.available(j)]
            selection.available(i) && selection.available(j) ==> spec_same_value_and_weight(
                selection.candidates[i as int],
                selection.candidates[j as int],
            ),
    ensures
        !spec_has_children(spec_exclusion_child(selection)),
{
    let unselected = selection.unselected_indices();
    let excluded = spec_exclusion_child(selection);
    lemma_unselected_in_range(selection, selection.order.len() as int);
    assert forall|i: usize| !excluded.available(i) by {
        if selection.available(i) {
            assert(selection.order.contains(i));
            let p = choose|p: int| 0 <= p < selection.order.len() && selection.order[p] == i;
            lemma_available_is_listed(selection, p, selection.order.len() as int);
            let k = choose|k: int| 0 <= k < unselected.len() && unselected[k] == i;
            assert forall|r: int| 0 <= r <= k implies spec_same_value_and_weight(
                selection.candidates[#[trigger] unselected[r] as int],
                selection.candidates[unselected[0] as int],
            ) by {
                assert(selection.available(unselected[r]) && selection.available(unselected[0]));
            }
            assert(spec_in_leading_run(selection, k) && selection.unselected_indices()[k] == i);
            assert(excluded.banned.contains(i));
        }
    }
    lemma_none_available_none_listed(excluded, excluded.order.len() as int);
}

} // verus!
