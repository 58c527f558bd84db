//! The tree of selections that branch and bound goes through, and what a finished search has
//! found in it.
use vstd::prelude::*;
use crate::bnb::{
    lemma_heap_root_first, spec_exclusion_child, spec_heap, spec_inclusion_child, spec_pushed,
    spec_same_metric, BnbMetric, Branch,
};
use crate::coin_selector::SelectorView;
use crate::score::Score;

verus! {

/// Whether branch and bound branches at `selection`: a candidate is left to select.
pub open spec fn spec_has_children(selection: SelectorView) -> bool {
    selection.unselected_indices().len() > 0
}

/// Whether branch and bound, started from the branch `from`, comes to the branch `to` within
/// `steps` branchings. A branch is a selection together with whether it was made by excluding a
/// candidate; from a branch that has a candidate left the search comes to the branch that
/// includes its first unselected candidate and to the one that excludes it.
pub open spec fn spec_branch_in(
    from: SelectorView,
    from_exclusion: bool,
    to: SelectorView,
    to_exclusion: bool,
    steps: nat,
) -> bool
    decreases steps,
{
    (from == to && from_exclusion == to_exclusion) || (steps > 0 && spec_has_children(from) && (
    spec_branch_in(spec_inclusion_child(from), false, to, to_exclusion, (steps - 1) as nat)
        || spec_branch_in(spec_exclusion_child(from), true, to, to_exclusion, (steps - 1) as nat)))
}

/// Whether `root` is the selection from which the search for `start` starts: it is `start` with
/// the candidates in their order or, where `sorted` says so, ordered by descending value per
/// weight unit, ties broken by descending value and then by their order in `start`.
pub open spec fn spec_search_root(start: SelectorView, sorted: bool, root: SelectorView) -> bool {
    &&& root.wf()
    &&& root.candidates == start.candidates
    &&& root.selected == start.selected
    &&& root.banned == start.banned
    &&& if sorted {
        &&& root.order.len() == start.order.len()
        &&& root.order.to_multiset() == start.order.to_multiset()
        &&& crate::sorting::spec_sorted(start.candidates, root.order)
        &&& crate::sorting::spec_stable(start.candidates, start.order, root.order)
    } else {
        root.order == start.order
    }
}

/// Whether the bound of `metric` is admissible in the search from `root`: on every branch that
/// the search comes to, the metric gives a bound, and one that is not above the score, wherever
/// from that branch the search comes to a selection by including a candidate (or the branch is
/// itself one) to which the metric gives a score.
pub open spec fn spec_admissible<M: BnbMetric>(metric: M, root: SelectorView) -> bool {
    forall|branch: SelectorView, exclusion: bool, scored: SelectorView, before: nat, after: nat|
        #[trigger] spec_branch_in(root, false, branch, exclusion, before) && #[trigger] spec_branch_in(
            branch,
            exclusion,
            scored,
            false,
            after,
        ) && metric.score_of(scored) is Some ==> metric.bound_of(branch) is Some
            && metric.bound_of(branch)->0.raw <= metric.score_of(scored)->0.raw
}

/// Whether `best` is the least score in the search from `root`: the metric gives no lower
/// score to a selection that the search comes to by including a candidate, nor to the root, and
/// where it gives any of them a score, `best` is the score of one of them.
pub open spec fn spec_optimal<M: BnbMetric>(metric: M, root: SelectorView, best: Option<Score>) -> bool {
    &&& forall|scored: SelectorView, steps: nat|
        #[trigger] spec_branch_in(root, false, scored, false, steps) && metric.score_of(scored) is Some
            ==> best is Some && best->0.raw <= metric.score_of(scored)->0.raw
    &&& spec_attained(metric, root, best)
}

/// Whether `best`, where it is a score, is the score of a selection that the search from `root`
/// comes to by including a candidate, or of the root.
pub open spec fn spec_attained<M: BnbMetric>(metric: M, root: SelectorView, best: Option<Score>) -> bool {
    best is Some ==> exists|scored: SelectorView, steps: nat|
        #[trigger] spec_branch_in(root, false, scored, false, steps) && metric.score_of(scored) == best
}

/// Whether the search has dealt with the selection `scored`: the best score is not above its
/// score, or the search comes to it from a branch in the queue.
pub open spec fn spec_settled<'a, M: BnbMetric>(
    metric: M,
    best: Option<Score>,
    queue: Seq<Branch<'a>>,
    scored: SelectorView,
) -> bool {
    ||| best is Some && best->0.raw <= metric.score_of(scored)->0.raw
    ||| exists|branch: Branch<'a>, steps: nat|
        queue.contains(branch) && #[trigger] spec_branch_in(
            branch.selection(),
            branch.is_exclusion(),
            scored,
            false,
            steps,
        )
}

/// Whether the search has dealt with every selection that it comes to from `root` by including
/// a candidate, and with the root, as far as the metric gives them a score.
pub open spec fn spec_complete<'a, M: BnbMetric>(
    metric: M,
    root: SelectorView,
    best: Option<Score>,
    queue: Seq<Branch<'a>>,
) -> bool {
    forall|scored: SelectorView, steps: nat|
        #[trigger] spec_branch_in(root, false, scored, false, steps) && metric.score_of(scored) is Some
            ==> spec_settled(metric, best, queue, scored)
}

/// Whether every branch in the queue is one that the search from `root` comes to, and holds
/// the bound that the metric gives its selection.
pub open spec fn spec_grounded<'a, M: BnbMetric>(metric: M, root: SelectorView, queue: Seq<Branch<'a>>) -> bool {
    forall|branch: Branch<'a>| #[trigger]
        queue.contains(branch) ==> {
            &&& metric.bound_of(branch.selection()) == Some(branch.lower_bound())
            &&& exists|steps: nat| #[trigger]
                spec_branch_in(root, false, branch.selection(), branch.is_exclusion(), steps)
        }
}

/// What the search comes to within some branchings, it comes to within more.
pub proof fn lemma_branch_in_more_steps(
    from: SelectorView,
    from_exclusion: bool,
    to: SelectorView,
    to_exclusion: bool,
    steps: nat,
    more: nat,
)
    requires
        spec_branch_in(from, from_exclusion, to, to_exclusion, steps),
        steps <= more,
    ensures
        spec_branch_in(from, from_exclusion, to, to_exclusion, more),
    decreases steps,
{
    if !(from == to && from_exclusion == to_exclusion) {
        if spec_branch_in(spec_inclusion_child(from), false, to, to_exclusion, (steps - 1) as nat) {
            lemma_branch_in_more_steps(
                spec_inclusion_child(from),
                false,
                to,
                to_exclusion,
                (steps - 1) as nat,
                (more - 1) as nat,
            );
        } else {
            lemma_branch_in_more_steps(
                spec_exclusion_child(from),
                true,
                to,
                to_exclusion,
                (steps - 1) as nat,
                (more - 1) as nat,
            );
        }
    }
}

/// Where the search comes from a first branch to a second and from the second to a third, it
/// comes from the first to the third.
pub proof fn lemma_branch_in_transitive(
    first: SelectorView,
    first_exclusion: bool,
    second: SelectorView,
    second_exclusion: bool,
    third: SelectorView,
    third_exclusion: bool,
    before: nat,
    after: nat,
)
    requires
        spec_branch_in(first, first_exclusion, second, second_exclusion, before),
        spec_branch_in(second, second_exclusion, third, third_exclusion, after),
    ensures
        spec_branch_in(first, first_exclusion, third, third_exclusion, before + after),
    decreases before,
{
    if first == second && first_exclusion == second_exclusion {
        lemma_branch_in_more_steps(
            second,
            second_exclusion,
            third,
            third_exclusion,
            after,
            before + after,
        );
    } else {
        if spec_branch_in(
            spec_inclusion_child(first),
            false,
            second,
            second_exclusion,
            (before - 1) as nat,
        ) {
            lemma_branch_in_transitive(
                spec_inclusion_child(first),
                false,
                second,
                second_exclusion,
                third,
                third_exclusion,
                (before - 1) as nat,
                after,
            );
        } else {
            lemma_branch_in_transitive(
                spec_exclusion_child(first),
                true,
                second,
                second_exclusion,
                third,
                third_exclusion,
                (before - 1) as nat,
                after,
            );
        }
    }
}

/// Where the search comes to a branch that has a candidate left, it comes to the two branches
/// that follow from it.
pub proof fn lemma_branch_in_children(
    from: SelectorView,
    from_exclusion: bool,
    to: SelectorView,
    to_exclusion: bool,
    steps: nat,
)
    requires
        spec_branch_in(from, from_exclusion, to, to_exclusion, steps),
        spec_has_children(to),
    ensures
        spec_branch_in(from, from_exclusion, spec_inclusion_child(to), false, steps + 1),
        spec_branch_in(from, from_exclusion, spec_exclusion_child(to), true, steps + 1),
{
    assert(spec_branch_in(spec_inclusion_child(to), false, spec_inclusion_child(to), false, 0));
    assert(spec_branch_in(spec_exclusion_child(to), true, spec_exclusion_child(to), true, 0));
    assert(spec_branch_in(to, to_exclusion, spec_inclusion_child(to), false, 1));
    assert(spec_branch_in(to, to_exclusion, spec_exclusion_child(to), true, 1));
    lemma_branch_in_transitive(
        from,
        from_exclusion,
        to,
        to_exclusion,
        spec_inclusion_child(to),
        false,
        steps,
        1,
    );
    lemma_branch_in_transitive(
        from,
        from_exclusion,
        to,
        to_exclusion,
        spec_exclusion_child(to),
        true,
        steps,
        1,
    );
}

/// The best score after the selection of a branch has been scored: the score, where the branch
/// includes and its score is below the best score so far, and else the best score so far.
pub open spec fn spec_best_after(best: Option<Score>, is_exclusion: bool, score: Option<Score>) -> Option<Score> {
    if !is_exclusion && score is Some && (best is None || score->0.raw < best->0.raw) {
        score
    } else {
        best
    }
}

/// Whether a branch with the bound `bound` is worth going through: there is no best score yet,
/// or the bound is below it.
pub open spec fn spec_worth(best: Option<Score>, bound: Option<Score>) -> bool {
    match bound {
        Some(bound) => match best {
            Some(best) => best.raw > bound.raw,
            None => true,
        },
        None => false,
    }
}

/// Whether `branch` is the branch that the search makes of `selection`.
pub open spec fn spec_is_branch_of<'a, M: BnbMetric>(
    metric: M,
    branch: Branch<'a>,
    selection: SelectorView,
    is_exclusion: bool,
) -> bool {
    &&& branch.selection() == selection
    &&& branch.is_exclusion() == is_exclusion
    &&& Some(branch.lower_bound()) == metric.bound_of(selection)
}

/// How the queue changes when `selection` is offered to it: where its bound makes it worth
/// going through, the branch of the selection joins the queue, else the queue stays as it is.
pub open spec fn spec_offer<'a, M: BnbMetric>(
    metric: M,
    best: Option<Score>,
    before: Seq<Branch<'a>>,
    selection: SelectorView,
    is_exclusion: bool,
    after: Seq<Branch<'a>>,
) -> bool {
    if spec_worth(best, metric.bound_of(selection)) {
        exists|branch: Branch<'a>|
            {
                &&& after == #[trigger] spec_pushed(before, branch)
                &&& branch.wf()
                &&& spec_is_branch_of(metric, branch, selection, is_exclusion)
            }
    } else {
        after == before
    }
}

/// How the queue changes when the search branches at `selection`: where a candidate is left to
/// select, first the selection that includes it is offered to the queue and then the one that
/// excludes it; else the queue stays as it is.
pub open spec fn spec_branched<'a, M: BnbMetric>(
    metric: M,
    best: Option<Score>,
    before: Seq<Branch<'a>>,
    selection: SelectorView,
    after: Seq<Branch<'a>>,
) -> bool {
    if spec_has_children(selection) {
        exists|between: Seq<Branch<'a>>|
            {
                &&& #[trigger] spec_offer(
                    metric,
                    best,
                    before,
                    spec_inclusion_child(selection),
                    false,
                    between,
                )
                &&& spec_offer(metric, best, between, spec_exclusion_child(selection), true, after)
            }
    } else {
        after == before
    }
}

/// Where the queue is empty, or the best score is not above the bound of the branch at the head
/// of the queue, an admissible metric gives no selection of the search a score below the best
/// score.
pub proof fn lemma_search_over<'a, M: BnbMetric>(
    metric: M,
    root: SelectorView,
    best: Option<Score>,
    queue: Seq<Branch<'a>>,
)
    requires
        spec_admissible(metric, root),
        spec_complete(metric, root, best, queue),
        spec_grounded(metric, root, queue),
        spec_attained(metric, root, best),
        spec_heap(queue),
        queue.len() > 0 ==> best is Some && best->0.raw <= queue[0].lower_bound().raw,
    ensures
        spec_optimal(metric, root, best),
{
    assert forall|scored: SelectorView, steps: nat|
        #[trigger] spec_branch_in(root, false, scored, false, steps) && metric.score_of(scored) is Some implies best is Some
        && best->0.raw <= metric.score_of(scored)->0.raw by {
        assert(spec_settled(metric, best, queue, scored));
        if !(best is Some && best->0.raw <= metric.score_of(scored)->0.raw) {
            let (branch, after) = choose|branch: Branch<'a>, after: nat|
                queue.contains(branch) && #[trigger] spec_branch_in(
                    branch.selection(),
                    branch.is_exclusion(),
                    scored,
                    false,
                    after,
                );
            assert(queue.contains(branch));
            let before = choose|before: nat| #[trigger]
                spec_branch_in(root, false, branch.selection(), branch.is_exclusion(), before);
            assert(spec_branch_in(root, false, branch.selection(), branch.is_exclusion(), before)
                && spec_branch_in(branch.selection(), branch.is_exclusion(), scored, false, after));
            let i = choose|i: int| 0 <= i < queue.len() && queue[i] == branch;
            lemma_heap_root_first(queue, i);
        }
    }
}

/// One round keeps the search complete: after the branch `popped` has left the queue, its
/// selection has been scored and the two branches that follow from it have been offered to the
/// queue, the search has still dealt with every selection, every branch in the queue is still
/// one of the search, and the best score is still the score of a selection of the search.
pub proof fn lemma_round_keeps_complete<'a, M: BnbMetric>(
    metric: M,
    root: SelectorView,
    best: Option<Score>,
    queue: Seq<Branch<'a>>,
    popped: Branch<'a>,
    rest: Seq<Branch<'a>>,
    after: Seq<Branch<'a>>,
)
    requires
        spec_admissible(metric, root) ==> spec_complete(metric, root, best, queue),
        spec_grounded(metric, root, queue),
        spec_attained(metric, root, best),
        forall|x: Branch<'a>| queue.contains(x) <==> rest.contains(x) || x == popped,
        forall|x: Branch<'a>| rest.contains(x) ==> after.contains(x),
        forall|x: Branch<'a>| #[trigger]
            after.contains(x) ==> rest.contains(x) || (spec_has_children(popped.selection()) && (
            spec_is_branch_of(metric, x, spec_inclusion_child(popped.selection()), false)
                || spec_is_branch_of(metric, x, spec_exclusion_child(popped.selection()), true))),
        spec_has_children(popped.selection()) && spec_worth(
            spec_best_after(best, popped.is_exclusion(), metric.score_of(popped.selection())),
            metric.bound_of(spec_inclusion_child(popped.selection())),
        ) ==> exists|x: Branch<'a>|
            after.contains(x) && #[trigger] spec_is_branch_of(
                metric,
                x,
                spec_inclusion_child(popped.selection()),
                false,
            ),
        spec_has_children(popped.selection()) && spec_worth(
            spec_best_after(best, popped.is_exclusion(), metric.score_of(popped.selection())),
            metric.bound_of(spec_exclusion_child(popped.selection())),
        ) ==> exists|x: Branch<'a>|
            after.contains(x) && #[trigger] spec_is_branch_of(
                metric,
                x,
                spec_exclusion_child(popped.selection()),
                true,
            ),
    ensures
        spec_admissible(metric, root) ==> spec_complete(
            metric,
            root,
            spec_best_after(best, popped.is_exclusion(), metric.score_of(popped.selection())),
            after,
        ),
        spec_grounded(metric, root, after),
        spec_attained(
            metric,
            root,
            spec_best_after(best, popped.is_exclusion(), metric.score_of(popped.selection())),
        ),
{
    let node = popped.selection();
    let best_after = spec_best_after(best, popped.is_exclusion(), metric.score_of(node));
    let inclusion = spec_inclusion_child(node);
    let exclusion = spec_exclusion_child(node);
    assert(queue.contains(popped));
    let depth = choose|depth: nat| #[trigger]
        spec_branch_in(root, false, node, popped.is_exclusion(), depth);
    assert(spec_branch_in(root, false, node, popped.is_exclusion(), depth));
    if spec_has_children(node) {
        lemma_branch_in_children(root, false, node, popped.is_exclusion(), depth);
    }
    // every branch in the queue is one of the search
    assert forall|x: Branch<'a>| #[trigger] after.contains(x) implies {
        &&& metric.bound_of(x.selection()) == Some(x.lower_bound())
        &&& exists|steps: nat| #[trigger]
            spec_branch_in(root, false, x.selection(), x.is_exclusion(), steps)
    } by {
        if rest.contains(x) {
            assert(queue.contains(x));
        } else {
            assert(spec_branch_in(root, false, x.selection(), x.is_exclusion(), depth + 1));
        }
    }
    // the best score is the score of a selection of the search
    if best_after is Some {
        if best_after == best {
        } else {
            assert(spec_branch_in(root, false, node, false, depth) && metric.score_of(node)
                == best_after);
        }
    }
    // the search has dealt with every selection
    if spec_admissible(metric, root) {
        assert forall|scored: SelectorView, steps: nat|
            #[trigger] spec_branch_in(root, false, scored, false, steps) && metric.score_of(scored) is Some implies spec_settled(
            metric,
            best_after,
            after,
            scored,
        ) by {
            let score = metric.score_of(scored)->0;
            assert(spec_settled(metric, best, queue, scored));
            if best is Some && best->0.raw <= score.raw {
            } else {
                let (branch, below) = choose|branch: Branch<'a>, below: nat|
                    queue.contains(branch) && #[trigger] spec_branch_in(
                        branch.selection(),
                        branch.is_exclusion(),
                        scored,
                        false,
                        below,
                    );
                if branch != popped {
                    assert(after.contains(branch));
                } else if node == scored && !popped.is_exclusion() {
                } else {
                    let via_inclusion = spec_branch_in(
                        inclusion,
                        false,
                        scored,
                        false,
                        (below - 1) as nat,
                    );
                    let child = if via_inclusion {
                        inclusion
                    } else {
                        exclusion
                    };
                    let child_exclusion = !via_inclusion;
                    assert(spec_branch_in(child, child_exclusion, scored, false, (below - 1) as nat));
                    assert(spec_branch_in(root, false, child, child_exclusion, depth + 1));
                    assert(metric.bound_of(child) is Some && metric.bound_of(child)->0.raw
                        <= score.raw);
                    if spec_worth(best_after, metric.bound_of(child)) {
                        let x = choose|x: Branch<'a>|
                            after.contains(x) && #[trigger] spec_is_branch_of(
                                metric,
                                x,
                                child,
                                child_exclusion,
                            );
                        assert(after.contains(x) && spec_branch_in(
                            x.selection(),
                            x.is_exclusion(),
                            scored,
                            false,
                            (below - 1) as nat,
                        ));
                    }
                }
            }
        }
    }
}

/// A metric that scores and bounds as another does is admissible where the other is, and
/// leaves the search as complete as the other does.
pub proof fn lemma_same_metric_transfers<'a, M: BnbMetric>(
    metric: M,
    other: M,
    root: SelectorView,
    best: Option<Score>,
    queue: Seq<Branch<'a>>,
)
    requires
        spec_same_metric(metric, other),
    ensures
        spec_admissible(metric, root) == spec_admissible(other, root),
        spec_complete(metric, root, best, queue) == spec_complete(other, root, best, queue),
        spec_grounded(metric, root, queue) == spec_grounded(other, root, queue),
        spec_attained(metric, root, best) == spec_attained(other, root, best),
        spec_optimal(metric, root, best) == spec_optimal(other, root, best),
{
    assert forall|selection: SelectorView|
        metric.score_of(selection) == other.score_of(selection) && metric.bound_of(selection)
            == other.bound_of(selection) by {}
    lemma_same_metric_one_way(metric, other, root, best, queue);
    lemma_same_metric_one_way(other, metric, root, best, queue);
}

/// What holds of a metric in the search holds of one that scores and bounds as it does.
proof fn lemma_same_metric_one_way<'a, M: BnbMetric>(
    metric: M,
    other: M,
    root: SelectorView,
    best: Option<Score>,
    queue: Seq<Branch<'a>>,
)
    requires
        forall|selection: SelectorView|
            #![trigger metric.score_of(selection)]
            #![trigger other.score_of(selection)]
            metric.score_of(selection) == other.score_of(selection),
        forall|selection: SelectorView|
            #![trigger metric.bound_of(selection)]
            #![trigger other.bound_of(selection)]
            metric.bound_of(selection) == other.bound_of(selection),
    ensures
        spec_admissible(metric, root) ==> spec_admissible(other, root),
        spec_complete(metric, root, best, queue) ==> spec_complete(other, root, best, queue),
        spec_grounded(metric, root, queue) ==> spec_grounded(other, root, queue),
        spec_attained(metric, root, best) ==> spec_attained(other, root, best),
        spec_optimal(metric, root, best) ==> spec_optimal(other, root, best),
{
    if spec_complete(metric, root, best, queue) {
        assert forall|scored: SelectorView, steps: nat|
            #[trigger] spec_branch_in(root, false, scored, false, steps) && other.score_of(scored) is Some implies spec_settled(
            other,
            best,
            queue,
            scored,
        ) by {
            assert(spec_settled(metric, best, queue, scored));
        }
    }
    if spec_attained(metric, root, best) && best is Some {
        let (scored, steps) = choose|scored: SelectorView, steps: nat|
            #[trigger] spec_branch_in(root, false, scored, false, steps) && metric.score_of(scored)
                == best;
        assert(spec_branch_in(root, false, scored, false, steps) && other.score_of(scored) == best);
    }
}

/// What is offered to the queue with a metric is offered as well with one that bounds as it
/// does.
pub proof fn lemma_offer_same_metric<'a, M: BnbMetric>(
    metric: M,
    other: M,
    best: Option<Score>,
    before: Seq<Branch<'a>>,
    selection: SelectorView,
    is_exclusion: bool,
    after: Seq<Branch<'a>>,
)
    requires
        spec_same_metric(metric, other),
        spec_offer(metric, best, before, selection, is_exclusion, after),
    ensures
        spec_offer(other, best, before, selection, is_exclusion, after),
{
    assert(metric.bound_of(selection) == other.bound_of(selection));
    if spec_worth(best, metric.bound_of(selection)) {
        let branch = choose|branch: Branch<'a>|
            {
                &&& after == #[trigger] spec_pushed(before, branch)
                &&& branch.wf()
                &&& spec_is_branch_of(metric, branch, selection, is_exclusion)
            };
        assert(after == spec_pushed(before, branch) && spec_is_branch_of(
            other,
            branch,
            selection,
            is_exclusion,
        ));
    }
}

/// How a round changes the best score: a round that finds a selection makes its score the
/// best, and finds no score that is not below the best so far; a round that finds none leaves
/// the best score as it is.
pub open spec fn spec_improves(before: Option<Score>, found: Option<Score>, after: Option<Score>) -> bool {
    match found {
        Some(score) => after == Some(score) && (before is Some ==> score.raw < before->0.raw),
        None => after == before,
    }
}

/// The scores that successive rounds find are strictly decreasing: of two rounds that find a
/// selection, the later finds the lower score. `bests` holds the best score before each round
/// and after the last, `found` the score that each round finds.
pub proof fn lemma_improvements_decrease(
    bests: Seq<Option<Score>>,
    found: Seq<Option<Score>>,
    earlier: int,
    later: int,
)
    requires
        bests.len() == found.len() + 1,
        forall|round: int|
            0 <= round < found.len() ==> spec_improves(
                bests[round],
                #[trigger] found[round],
                bests[round + 1],
            ),
        0 <= earlier < later < found.len(),
        found[earlier] is Some,
        found[later] is Some,
    ensures
        found[later]->0.raw < found[earlier]->0.raw,
{
    lemma_best_stays_below(bests, found, earlier, later);
    assert(spec_improves(bests[later], found[later], bests[later + 1]));
}

/// After a round that finds a selection, the best score stays at or below the score of that
/// selection.
proof fn lemma_best_stays_below(
    bests: Seq<Option<Score>>,
    found: Seq<Option<Score>>,
    earlier: int,
    later: int,
)
    requires
        bests.len() == found.len() + 1,
        forall|round: int|
            0 <= round < found.len() ==> spec_improves(
                bests[round],
                #[trigger] found[round],
                bests[round + 1],
            ),
        0 <= earlier < later <= found.len(),
        found[earlier] is Some,
    ensures
        bests[later] is Some,
        bests[later]->0.raw <= found[earlier]->0.raw,
    decreases later - earlier,
{
    assert(spec_improves(bests[earlier], found[earlier], bests[earlier + 1]));
    if later > earlier + 1 {
        lemma_best_stays_below(bests, found, earlier, later - 1);
        assert(spec_improves(bests[later - 1], found[later - 1], bests[later]));
    }
}

} // verus!
