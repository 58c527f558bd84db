//! Branch and bound over the selections of a [`CoinSelector`].
use vstd::prelude::*;
use crate::coin_selector::{lemma_unselected_in_range, Candidate, CoinSelector, NoBnbSolution, SelectorView};
use crate::score::Score;
use crate::search_tree::{
    lemma_offer_same_metric, lemma_round_keeps_complete, lemma_same_metric_transfers,
    lemma_search_over, spec_admissible, spec_improves, spec_attained, spec_best_after, spec_branch_in,
    spec_branched, spec_complete, spec_grounded, spec_has_children, spec_is_branch_of, spec_offer,
    spec_optimal, spec_search_root, spec_settled, spec_worth,
};

verus! {

/// A branch and bound metric where we minimize the [`Score`].
///
/// This is to be used as input for [`CoinSelector::run_bnb`] or
/// [`CoinSelector::bnb_solutions`].
pub trait BnbMetric: Sized {
    /// The score of a selection, `None` where the selection is invalid. A metric that does not
    /// say what it is still gives every selection one score, whenever it is asked.
    open spec fn score_of(&self, selection: SelectorView) -> Option<Score> {
        arbitrary()
    }

    /// The lower bound on the scores of a selection and of all that branch and bound reaches
    /// from it, `None` where none of them is valid. A metric that does not say what it is still
    /// gives every selection one bound, whenever it is asked.
    open spec fn bound_of(&self, selection: SelectorView) -> Option<Score> {
        arbitrary()
    }

    /// Get the score of a given selection.
    ///
    /// If this returns `None`, the selection is invalid.
    fn score(&mut self, cs: &CoinSelector<'_>) -> (score: Option<Score>)
        requires
            cs.wf(),
        ensures
            score == old(self).score_of(cs@),
            forall|selection: SelectorView| #[trigger]
                final(self).score_of(selection) == old(self).score_of(selection),
            forall|selection: SelectorView| #[trigger]
                final(self).bound_of(selection) == old(self).bound_of(selection),
    ;

    /// Get the lower bound score using a heuristic.
    ///
    /// This represents the best possible score of all descendant branches (according to the
    /// heuristic).
    ///
    /// If this returns `None`, the current branch and all descendant branches will not have
    /// valid solutions.
    fn bound(&mut self, cs: &CoinSelector<'_>) -> (bound: Option<Score>)
        requires
            cs.wf(),
        ensures
            bound == old(self).bound_of(cs@),
            forall|selection: SelectorView| #[trigger]
                final(self).score_of(selection) == old(self).score_of(selection),
            forall|selection: SelectorView| #[trigger]
                final(self).bound_of(selection) == old(self).bound_of(selection),
    ;

    /// Whether the metric wants the candidates ordered by descending value per weight unit. A
    /// metric that does not say so still wants the one or the other, whenever it is asked.
    open spec fn orders_by_descending_value_pwu(&self) -> bool {
        arbitrary()
    }

    /// Returns whether the metric requires we order candidates by descending value per weight
    /// unit.
    fn requires_ordering_by_descending_value_pwu(&self) -> (required: bool)
        ensures
            required == self.orders_by_descending_value_pwu(),
    ;

}

/// Whether the metric `a` scores and bounds every selection as `b` does.
pub open spec fn spec_same_metric<M: BnbMetric>(a: M, b: M) -> bool {
    &&& forall|selection: SelectorView| #[trigger] a.score_of(selection) == b.score_of(selection)
    &&& forall|selection: SelectorView| #[trigger] a.bound_of(selection) == b.bound_of(selection)
}

/// Whether two candidates have the same value and the same weight.
pub open spec fn spec_same_value_and_weight(a: Candidate, b: Candidate) -> bool {
    a.value == b.value && a.weight == b.weight
}

/// The selection that branch and bound reaches from `selection` by including its first
/// unselected candidate.
pub open spec fn spec_inclusion_child(selection: SelectorView) -> SelectorView {
    selection.select(selection.unselected_indices()[0])
}

/// Whether the `k`th unselected candidate is banned where the first one is excluded: it and all
/// the unselected candidates before it have the first one's value and weight.
pub open spec fn spec_in_leading_run(selection: SelectorView, k: int) -> bool {
    let unselected = selection.unselected_indices();
    &&& 0 <= k < unselected.len()
    &&& forall|r: int|
        0 <= r <= k ==> spec_same_value_and_weight(
            selection.candidates[#[trigger] unselected[r] as int],
            selection.candidates[unselected[0] as int],
        )
}

/// The selection that branch and bound reaches from `selection` by excluding its first
/// unselected candidate: that candidate is banned, and with it those that directly follow it
/// among the unselected candidates and have its value and weight.
pub open spec fn spec_exclusion_child(selection: SelectorView) -> SelectorView {
    SelectorView {
        banned: Set::new(
            |i: usize|
                selection.banned.contains(i) || exists|k: int|
                    spec_in_leading_run(selection, k) && #[trigger] selection.unselected_indices()[k]
                        == i,
        ),
        ..selection
    }
}

/// A selection that waits in the queue of branch and bound.
pub struct Branch<'a> {
    lower_bound: Score,
    selector: CoinSelector<'a>,
    is_exclusion: bool,
}

impl<'a> Branch<'a> {
    /// The bound of the metric on the branch's selection.
    pub closed spec fn lower_bound(&self) -> Score {
        self.lower_bound
    }

    /// The branch's selection.
    pub closed spec fn selection(&self) -> SelectorView {
        self.selector@
    }

    /// Whether the branch was made by excluding a candidate.
    pub closed spec fn is_exclusion(&self) -> bool {
        self.is_exclusion
    }

    /// Whether the branch's selection keeps its invariant.
    pub closed spec fn wf(&self) -> bool {
        self.selector.wf()
    }

    /// Whether `other` is to be taken from the queue no later than this branch: it has the
    /// lower bound or, with the same bound, `other` includes or this branch excludes.
    pub open spec fn spec_not_before(&self, other: &Branch<'a>) -> bool {
        self.lower_bound().raw > other.lower_bound().raw || (self.lower_bound().raw
            == other.lower_bound().raw && (self.is_exclusion() || !other.is_exclusion()))
    }

    /// Whether `other` is to be taken from the queue no later than this branch.
    fn not_before(&self, other: &Branch<'a>) -> (after: bool)
        ensures
            after == self.spec_not_before(other),
    {
        self.lower_bound.raw > other.lower_bound.raw || (self.lower_bound.raw
            == other.lower_bound.raw && (self.is_exclusion || !other.is_exclusion))
    }
}

/// Exchanges the branches at `i` and `j`.
fn swap_branches<'a>(queue: &mut Vec<Branch<'a>>, i: usize, j: usize)
    requires
        i < j < old(queue)@.len(),
    ensures
        final(queue)@ == old(queue)@.update(i as int, old(queue)@[j as int]).update(
            j as int,
            old(queue)@[i as int],
        ),
{
    let last: usize = queue.len() - 1;
    let mut held: Branch<'a> = queue.swap_remove(j);
    queue.set_and_swap(i, &mut held);
    queue.push(held);
    if j < last {
        let moved: Branch<'a> = queue.swap_remove(j);
        queue.push(moved);
    }
    proof {
        assert(queue@ =~= old(queue)@.update(i as int, old(queue)@[j as int]).update(
            j as int,
            old(queue)@[i as int],
        ));
    }
}

/// The place of the parent of the place `i` in the queue.
pub open spec fn spec_parent(i: int) -> int {
    (i - 1) / 2
}

/// Whether the queue is a heap but for the place `hole`: but for the branch at `hole`, no
/// branch is to be taken before the one at its parent.
pub open spec fn spec_heap_except<'a>(queue: Seq<Branch<'a>>, hole: int) -> bool {
    forall|i: int|
        1 <= i < queue.len() && i != hole && spec_parent(i) != hole ==> (#[trigger] queue[i]).spec_not_before(
            &queue[spec_parent(i)],
        )
}

/// Whether no branch at a child of `hole` is to be taken before the one at the parent of
/// `hole`.
pub open spec fn spec_heap_around<'a>(queue: Seq<Branch<'a>>, hole: int) -> bool {
    forall|i: int|
        1 <= i < queue.len() && spec_parent(i) == hole && hole > 0 ==> (#[trigger] queue[i]).spec_not_before(
            &queue[spec_parent(hole)],
        )
}

/// Whether the queue is a heap: no branch is to be taken before the one at its parent.
pub open spec fn spec_heap<'a>(queue: Seq<Branch<'a>>) -> bool {
    forall|i: int|
        1 <= i < queue.len() ==> (#[trigger] queue[i]).spec_not_before(&queue[spec_parent(i)])
}

/// Whether every branch of the queue keeps the invariant of its selection.
pub open spec fn spec_branches_wf<'a>(queue: Seq<Branch<'a>>) -> bool {
    forall|i: int| 0 <= i < queue.len() ==> (#[trigger] queue[i]).wf()
}

/// The queue with the branches at `i` and `j` exchanged.
pub open spec fn spec_swapped<'a>(queue: Seq<Branch<'a>>, i: int, j: int) -> Seq<Branch<'a>> {
    queue.update(i, queue[j]).update(j, queue[i])
}

/// The queue after the branch at `pos` has been moved up: as long as it is to be taken before
/// the branch at its parent, the two are exchanged.
pub open spec fn spec_sifted_up<'a>(queue: Seq<Branch<'a>>, pos: int) -> Seq<Branch<'a>>
    decreases pos,
{
    if 0 < pos < queue.len() && !queue[pos].spec_not_before(&queue[spec_parent(pos)]) {
        spec_sifted_up(spec_swapped(queue, spec_parent(pos), pos), spec_parent(pos))
    } else {
        queue
    }
}

/// The queue after the branch at `pos` has been moved down to the bottom and up again: as long
/// as it has children, it is exchanged with the one that is to be taken first (the right one
/// where both are to be taken together); from the bottom it is moved up to its place.
pub open spec fn spec_sifted_down<'a>(queue: Seq<Branch<'a>>, pos: int) -> Seq<Branch<'a>>
    decreases queue.len() - pos,
{
    let left = 2 * pos + 1;
    if 0 <= pos && left + 1 < queue.len() {
        let child = if queue[left].spec_not_before(&queue[left + 1]) {
            left + 1
        } else {
            left
        };
        spec_sifted_down(spec_swapped(queue, pos, child), child)
    } else if 0 <= pos && left + 1 == queue.len() {
        spec_sifted_up(spec_swapped(queue, pos, left), left)
    } else {
        spec_sifted_up(queue, pos)
    }
}

/// The queue after `branch` has been put in it: the branch is added at the end and moved up.
pub open spec fn spec_pushed<'a>(queue: Seq<Branch<'a>>, branch: Branch<'a>) -> Seq<Branch<'a>> {
    spec_sifted_up(queue.push(branch), queue.len() as int)
}

/// The queue after the branch at its head has been taken from it: the last branch takes the
/// place of the head and is moved down.
pub open spec fn spec_popped<'a>(queue: Seq<Branch<'a>>) -> Seq<Branch<'a>> {
    if queue.len() <= 1 {
        Seq::empty()
    } else {
        spec_sifted_down(queue.drop_last().update(0, queue.last()), 0)
    }
}

/// In a heap no branch is to be taken before the one at the root.
pub proof fn lemma_heap_root_first<'a>(queue: Seq<Branch<'a>>, i: int)
    requires
        spec_heap(queue),
        0 <= i < queue.len(),
    ensures
        queue[i].spec_not_before(&queue[0]),
    decreases i,
{
    if i > 0 {
        lemma_heap_root_first(queue, spec_parent(i));
        assert(queue[i].spec_not_before(&queue[spec_parent(i)]));
    }
}

/// Moves the branch at `pos` up to where no branch above it is to be taken after it.
fn sift_up<'a>(queue: &mut Vec<Branch<'a>>, pos: usize)
    requires
        pos < old(queue)@.len(),
        spec_branches_wf(old(queue)@),
        forall|i: int|
            1 <= i < old(queue)@.len() && i != pos ==> (#[trigger] old(queue)@[i]).spec_not_before(
                &old(queue)@[spec_parent(i)],
            ),
        spec_heap_around(old(queue)@, pos as int),
    ensures
        final(queue)@.len() == old(queue)@.len(),
        final(queue)@.to_multiset() == old(queue)@.to_multiset(),
        final(queue)@ == spec_sifted_up(old(queue)@, pos as int),
        spec_branches_wf(final(queue)@),
        spec_heap(final(queue)@),
{
    let ghost start = pos;
    let mut pos: usize = pos;
    while pos > 0
        invariant
            pos < queue@.len(),
            spec_sifted_up(queue@, pos as int) == spec_sifted_up(old(queue)@, start as int),
            queue@.len() == old(queue)@.len(),
            queue@.to_multiset() == old(queue)@.to_multiset(),
            spec_branches_wf(queue@),
            forall|i: int|
                1 <= i < queue@.len() && i != pos ==> (#[trigger] queue@[i]).spec_not_before(
                    &queue@[spec_parent(i)],
                ),
            spec_heap_around(queue@, pos as int),
        ensures
            queue@.len() == old(queue)@.len(),
            queue@.to_multiset() == old(queue)@.to_multiset(),
            queue@ == spec_sifted_up(old(queue)@, start as int),
            spec_branches_wf(queue@),
            spec_heap(queue@),
        decreases pos,
    {
        let parent: usize = (pos - 1) / 2;
        if queue[pos].not_before(&queue[parent]) {
            break ;
        }
        let ghost before = queue@;
        proof {
            lemma_swap_keeps_branches(queue@, parent as int, pos as int);
        }
        swap_branches(queue, parent, pos);
        proof {
            assert forall|i: int| 1 <= i < queue@.len() && i != parent implies (#[trigger] queue@[i]).spec_not_before(
                &queue@[spec_parent(i)],
            ) by {
                if i == pos {
                } else if spec_parent(i) == pos {
                    assert(before[i].spec_not_before(&before[spec_parent(pos as int)]));
                } else if spec_parent(i) == parent {
                    assert(before[i].spec_not_before(&before[parent as int]));
                } else {
                    assert(before[i].spec_not_before(&before[spec_parent(i)]));
                }
            }
            assert forall|i: int|
                1 <= i < queue@.len() && spec_parent(i) == parent && parent > 0 implies (#[trigger] queue@[i]).spec_not_before(
                &queue@[spec_parent(parent as int)],
            ) by {
                assert(before[parent as int].spec_not_before(&before[spec_parent(parent as int)]));
                if i != pos {
                    assert(before[i].spec_not_before(&before[parent as int]));
                }
            }
        }
        pos = parent;
    }
}

/// Moves the branch at the root down to the bottom, always to the child that is to be taken
/// first (the right one where both are to be taken together), and then up again to its place.
fn sift_down_to_bottom<'a>(queue: &mut Vec<Branch<'a>>)
    requires
        old(queue)@.len() > 0,
        spec_branches_wf(old(queue)@),
        spec_heap_except(old(queue)@, 0),
    ensures
        final(queue)@.len() == old(queue)@.len(),
        final(queue)@.to_multiset() == old(queue)@.to_multiset(),
        final(queue)@ == spec_sifted_down(old(queue)@, 0),
        spec_branches_wf(final(queue)@),
        spec_heap(final(queue)@),
{
    let end: usize = queue.len();
    let mut pos: usize = 0;
    while pos < (end - 1) / 2
        invariant
            end == queue@.len(),
            spec_sifted_down(queue@, pos as int) == spec_sifted_down(old(queue)@, 0),
            end > 0,
            pos < end,
            queue@.len() == old(queue)@.len(),
            queue@.to_multiset() == old(queue)@.to_multiset(),
            spec_branches_wf(queue@),
            spec_heap_except(queue@, pos as int),
            spec_heap_around(queue@, pos as int),
        decreases end - pos,
    {
        let left: usize = 2 * pos + 1;
        let child: usize = if queue[left].not_before(&queue[left + 1]) {
            left + 1
        } else {
            left
        };
        let ghost before = queue@;
        proof {
            lemma_swap_keeps_branches(queue@, pos as int, child as int);
            assert forall|i: int|
                1 <= i < before.len() && spec_parent(i) == pos implies (#[trigger] before[i]).spec_not_before(
                &before[child as int],
            ) by {
                assert(i == left || i == left + 1);
            }
        }
        swap_branches(queue, pos, child);
        proof {
            lemma_sift_down_step(before, queue@, pos as int, child as int);
        }
        pos = child;
    }
    if end >= 2 && pos == (end - 2) / 2 && 2 * pos + 1 == end - 1 {
        let child: usize = end - 1;
        let ghost before = queue@;
        proof {
            lemma_swap_keeps_branches(queue@, pos as int, child as int);
            assert forall|i: int|
                1 <= i < before.len() && spec_parent(i) == pos implies (#[trigger] before[i]).spec_not_before(
                &before[child as int],
            ) by {
                assert(i == child);
            }
        }
        swap_branches(queue, pos, child);
        proof {
            lemma_sift_down_step(before, queue@, pos as int, child as int);
        }
        pos = child;
    }
    sift_up(queue, pos);
}

/// Exchanging the branch at the hole with the one at its child that is to be taken first moves
/// the hole to that child.
proof fn lemma_sift_down_step<'a>(before: Seq<Branch<'a>>, after: Seq<Branch<'a>>, pos: int, child: int)
    requires
        0 <= pos < child < before.len(),
        spec_parent(child) == pos,
        after == before.update(pos, before[child]).update(child, before[pos]),
        spec_heap_except(before, pos),
        spec_heap_around(before, pos),
        forall|i: int|
            1 <= i < before.len() && spec_parent(i) == pos ==> (#[trigger] before[i]).spec_not_before(
                &before[child],
            ),
    ensures
        spec_heap_except(after, child),
        spec_heap_around(after, child),
{
    assert forall|i: int|
        1 <= i < after.len() && i != child && spec_parent(i) != child implies (#[trigger] after[i]).spec_not_before(
        &after[spec_parent(i)],
    ) by {
        if i == pos {
            assert(before[child].spec_not_before(&before[spec_parent(pos)]));
        } else if spec_parent(i) == pos {
            assert(before[i].spec_not_before(&before[child]));
        } else {
            assert(before[i].spec_not_before(&before[spec_parent(i)]));
        }
    }
    assert forall|i: int|
        1 <= i < after.len() && spec_parent(i) == child && child > 0 implies (#[trigger] after[i]).spec_not_before(
        &after[spec_parent(child)],
    ) by {
        assert(before[i].spec_not_before(&before[spec_parent(i)]));
    }
}

/// Puts `branch` in the queue.
fn push_branch<'a>(queue: &mut Vec<Branch<'a>>, branch: Branch<'a>)
    requires
        branch.wf(),
        spec_branches_wf(old(queue)@),
        spec_heap(old(queue)@),
    ensures
        final(queue)@ == spec_pushed(old(queue)@, branch),
        final(queue)@.to_multiset() == old(queue)@.to_multiset().insert(branch),
        forall|x: Branch<'a>| final(queue)@.contains(x) <==> old(queue)@.contains(x) || x == branch,
        spec_branches_wf(final(queue)@),
        spec_heap(final(queue)@),
{
    proof {
        lemma_contains_after_insert(old(queue)@, branch);
    }
    let old_len: usize = queue.len();
    proof {
        broadcast use vstd::seq_lib::group_to_multiset_ensures;

    }
    queue.push(branch);
    proof {
        assert forall|i: int| 0 <= i < queue@.len() implies (#[trigger] queue@[i]).wf() by {
            if i < old_len {
                assert(queue@[i] == old(queue)@[i]);
            }
        }
        assert forall|i: int| 1 <= i < queue@.len() && i != old_len implies (#[trigger] queue@[i]).spec_not_before(
            &queue@[spec_parent(i)],
        ) by {
            assert(old(queue)@[i].spec_not_before(&old(queue)@[spec_parent(i)]));
        }
    }
    sift_up(queue, old_len);
}

/// Takes the branch from the queue that is to be gone through first.
fn pop_branch<'a>(queue: &mut Vec<Branch<'a>>) -> (branch: Option<Branch<'a>>)
    requires
        spec_branches_wf(old(queue)@),
        spec_heap(old(queue)@),
    ensures
        spec_branches_wf(final(queue)@),
        spec_heap(final(queue)@),
        final(queue)@ == spec_popped(old(queue)@),
        match branch {
            Some(branch) => {
                &&& branch.wf()
                &&& old(queue)@.len() > 0
                &&& branch == old(queue)@[0]
                &&& old(queue)@.to_multiset() == final(queue)@.to_multiset().insert(branch)
                &&& forall|x: Branch<'a>|
                    old(queue)@.contains(x) <==> final(queue)@.contains(x) || x == branch
            },
            None => old(queue)@.len() == 0 && final(queue)@.len() == 0,
        },
{
    proof {
        lemma_contains_after_insert(old(queue)@, old(queue)@[0]);
    }
    match queue.pop() {
        Some(last) => {
            let mut item: Branch<'a> = last;
            proof {
                broadcast use vstd::seq_lib::group_to_multiset_ensures;
                broadcast use vstd::multiset::group_multiset_axioms;

                assert(old(queue)@ =~= queue@.push(item));
                assert forall|i: int| 0 <= i < queue@.len() implies (#[trigger] queue@[i]).wf() by {
                    assert(queue@[i] == old(queue)@[i]);
                }
                assert(old(queue)@[old(queue)@.len() - 1].wf());
            }
            if queue.len() > 0 {
                let ghost shorter = queue@;
                proof {
                    vstd::seq_lib::to_multiset_update(queue@, 0, item);
                    vstd::seq_lib::to_multiset_contains(queue@, queue@[0]);
                    assert(queue@.contains(queue@[0]));
                }
                queue.set_and_swap(0, &mut item);
                proof {
                    assert(queue@ =~= old(queue)@.drop_last().update(0, old(queue)@.last()));
                    assert(old(queue)@.to_multiset() =~= queue@.to_multiset().insert(item));
                    assert forall|i: int| 0 <= i < queue@.len() implies (#[trigger] queue@[i]).wf() by {
                        if i > 0 {
                            assert(queue@[i] == shorter[i]);
                        }
                    }
                    assert forall|i: int|
                        1 <= i < queue@.len() && i != 0 && spec_parent(i) != 0 implies (#[trigger] queue@[i]).spec_not_before(
                        &queue@[spec_parent(i)],
                    ) by {
                        assert(old(queue)@[i].spec_not_before(&old(queue)@[spec_parent(i)]));
                    }
                }
                sift_down_to_bottom(queue);
            } else {
                proof {
                    assert(old(queue)@.to_multiset() =~= queue@.to_multiset().insert(item));
                    assert(queue@ =~= Seq::<Branch<'a>>::empty());
                }
            }
            Some(item)
        },
        None => None,
    }
}

/// A queue that holds what another holds and one branch more contains that branch and what the
/// other contains.
pub proof fn lemma_contains_after_insert<'a>(before: Seq<Branch<'a>>, branch: Branch<'a>)
    ensures
        forall|after: Seq<Branch<'a>>, x: Branch<'a>|
            #![trigger after.to_multiset(), before.contains(x)]
            #![trigger after.contains(x), before.to_multiset()]
            after.to_multiset() == before.to_multiset().insert(branch) ==> (after.contains(x) <==> (
            before.contains(x) || x == branch)),
        forall|after: Seq<Branch<'a>>, x: Branch<'a>|
            #![trigger after.to_multiset(), before.contains(x)]
            #![trigger after.contains(x), before.to_multiset()]
            before.to_multiset() == after.to_multiset().insert(branch) ==> (before.contains(x) <==> (
            after.contains(x) || x == branch)),
{
    broadcast use vstd::multiset::group_multiset_axioms;

    assert forall|after: Seq<Branch<'a>>, x: Branch<'a>|
        after.to_multiset() == before.to_multiset().insert(branch) implies (after.contains(x) <==> (
    before.contains(x) || x == branch)) by {
        vstd::seq_lib::to_multiset_contains(after, x);
        vstd::seq_lib::to_multiset_contains(before, x);
    }
    assert forall|after: Seq<Branch<'a>>, x: Branch<'a>|
        before.to_multiset() == after.to_multiset().insert(branch) implies (before.contains(x) <==> (
    after.contains(x) || x == branch)) by {
        vstd::seq_lib::to_multiset_contains(after, x);
        vstd::seq_lib::to_multiset_contains(before, x);
    }
}

/// An [`Iterator`]-like search that goes through rounds of branch and bound to minimize the
/// score of the provided [`BnbMetric`]: [`next`](BnbIter::next) runs one round.
pub struct BnbIter<'a, M: BnbMetric> {
    queue: Vec<Branch<'a>>,
    best: Option<Score>,
    /// The `BnbMetric` that will score each selection.
    metric: M,
    /// The selection that the search started from.
    root: Ghost<SelectorView>,
}

impl<'a, M: BnbMetric> BnbIter<'a, M> {
    /// The branches that wait to be gone through.
    pub closed spec fn queue(&self) -> Seq<Branch<'a>> {
        self.queue@
    }

    /// The best score that a round has found so far.
    pub closed spec fn best(&self) -> Option<Score> {
        self.best
    }

    /// The metric that scores and bounds the selections.
    pub closed spec fn metric(&self) -> M {
        self.metric
    }

    /// The selection that the search started from, with its candidates in the order in which
    /// the search goes through them.
    pub closed spec fn root(&self) -> SelectorView {
        self.root@
    }

    /// Whether the queue is in order: every branch in it holds a selection that keeps its own
    /// invariant, and the queue is a heap.
    pub open spec fn wf(&self) -> bool {
        &&& spec_branches_wf(self.queue())
        &&& spec_heap(self.queue())
    }

    /// The invariant of the search. The queue is in order, its branches are branches of the
    /// search from the root with the bounds that the metric gives them, and the best score is
    /// the score of a selection of the search. With an admissible metric the search has dealt
    /// with every selection that it comes to: the best score is not above the selection's
    /// score, or the search comes to the selection from a branch that is still in the queue.
    pub open spec fn inv(&self) -> bool {
        &&& self.wf()
        &&& spec_grounded(self.metric(), self.root(), self.queue())
        &&& spec_attained(self.metric(), self.root(), self.best())
        &&& spec_admissible(self.metric(), self.root()) ==> spec_complete(
            self.metric(),
            self.root(),
            self.best(),
            self.queue(),
        )
    }

    /// What a round hands out, with the selection as its model.
    pub open spec fn spec_item(item: Option<Option<(CoinSelector<'a>, Score)>>) -> Option<
        Option<(SelectorView, Score)>,
    > {
        match item {
            Some(Some((selector, score))) => Some(Some((selector@, score))),
            Some(None) => Some(None),
            None => None,
        }
    }

    /// Whether a search has just been started from `root` with `metric`: there is no best score
    /// yet, and the root has been offered to the queue.
    pub open spec fn spec_started(&self, metric: M, root: SelectorView) -> bool {
        &&& self.root() == root
        &&& self.best() is None
        &&& spec_same_metric(self.metric(), metric)
        &&& spec_offer(metric, None, Seq::<Branch<'a>>::empty(), root, false, self.queue())
    }

    /// What one round does to the search `before`, which leaves it as `after` and hands out
    /// `item`.
    ///
    /// With an empty queue the round hands out `None`. Else the branch at the head of the queue
    /// leaves the queue; no branch of the queue is to be taken before it. Where the best score
    /// is not above the bound of that branch the search is over, and the round hands out `None`.
    /// Else the selection of the branch is scored if the branch includes, which makes its score
    /// the best where it is below the best so far; the round then hands out the selection with
    /// that score, and nothing where the best score stays. Last the search branches at the
    /// selection.
    pub open spec fn spec_round(
        before: Self,
        item: Option<Option<(SelectorView, Score)>>,
        after: Self,
    ) -> bool {
        let popped = before.queue()[0];
        let rest = spec_popped(before.queue());
        let over = before.best() is Some && before.best()->0.raw <= popped.lower_bound().raw;
        let best = spec_best_after(
            before.best(),
            popped.is_exclusion(),
            before.metric().score_of(popped.selection()),
        );
        &&& after.root() == before.root()
        &&& spec_same_metric(after.metric(), before.metric())
        &&& forall|i: int|
            0 <= i < before.queue().len() ==> (#[trigger] before.queue()[i]).spec_not_before(&popped)
        &&& if before.queue().len() == 0 {
            &&& item is None
            &&& after.best() == before.best()
            &&& after.queue().len() == 0
        } else if over {
            &&& item is None
            &&& after.best() == before.best()
            &&& after.queue() == rest
        } else {
            &&& item == Some(
                if best != before.best() {
                    Some((popped.selection(), best->0))
                } else {
                    None
                },
            )
            &&& after.best() == best
            &&& spec_branched(before.metric(), best, rest, popped.selection(), after.queue())
        }
    }

    /// Whether `states` and `found` tell of a run of rounds: `states` holds the search before
    /// each round and after the last, `found` what each round handed out. The run goes on
    /// until a round would hand out `None`, but for no more than `max_rounds` rounds.
    pub open spec fn spec_ran(
        states: Seq<Self>,
        found: Seq<Option<(SelectorView, Score)>>,
        max_rounds: usize,
    ) -> bool {
        &&& states.len() == found.len() + 1
        &&& found.len() <= max_rounds
        &&& forall|round: int|
            0 <= round < found.len() ==> Self::spec_round(
                states[round],
                Some(#[trigger] found[round]),
                states[round + 1],
            )
        &&& found.len() < max_rounds ==> exists|after: Self| #[trigger]
            Self::spec_round(states.last(), None, after)
    }

    /// Starts a search from `selector`. Where the metric asks for it, the candidates are first
    /// ordered by descending value per weight unit.
    pub fn new(selector: CoinSelector<'a>, metric: M) -> (iter: Self)
        requires
            selector.wf(),
        ensures
            iter.inv(),
            iter.spec_started(metric, iter.root()),
            spec_search_root(selector@, metric.orders_by_descending_value_pwu(), iter.root()),
    {
        let mut selector: CoinSelector<'a> = selector;
        let mut metric: M = metric;
        let ghost given = metric;
        if metric.requires_ordering_by_descending_value_pwu() {
            selector.sort_candidates_by_descending_value_pwu();
        }
        let ghost root = selector@;
        let bound: Option<Score> = metric.bound(&selector);
        let mut iter = BnbIter { queue: Vec::new(), best: None, metric, root: Ghost(root) };
        proof {
            assert(spec_branch_in(root, false, root, false, 0));
        }
        if let Some(bound) = bound {
            let branch = Branch { lower_bound: bound, selector, is_exclusion: false };
            let ghost pushed = branch;
            push_branch(&mut iter.queue, branch);
            proof {
                assert(iter.queue() == spec_pushed(Seq::<Branch<'a>>::empty(), pushed) && pushed.wf()
                    && spec_is_branch_of(given, pushed, root, false));
                assert forall|x: Branch<'a>| #[trigger] iter.queue().contains(x) implies x == pushed
                    && spec_branch_in(root, false, x.selection(), x.is_exclusion(), 0) by {
                    assert(!Seq::<Branch<'a>>::empty().contains(x));
                }
                if spec_admissible(iter.metric(), root) {
                    assert forall|scored: SelectorView, steps: nat|
                        #[trigger] spec_branch_in(root, false, scored, false, steps)
                            && iter.metric().score_of(scored) is Some implies spec_settled(
                        iter.metric(),
                        iter.best(),
                        iter.queue(),
                        scored,
                    ) by {
                        assert(iter.queue().contains(pushed) && spec_branch_in(
                            pushed.selection(),
                            pushed.is_exclusion(),
                            scored,
                            false,
                            steps,
                        ));
                    }
                }
            }
        } else {
            proof {
                assert forall|x: Branch<'a>| !iter.queue().contains(x) by {}
                if spec_admissible(iter.metric(), root) {
                    assert forall|scored: SelectorView, steps: nat|
                        #[trigger] spec_branch_in(root, false, scored, false, steps)
                            && iter.metric().score_of(scored) is Some implies spec_settled(
                        iter.metric(),
                        iter.best(),
                        iter.queue(),
                        scored,
                    ) by {
                        assert(spec_branch_in(root, false, root, false, 0) && spec_branch_in(
                            root,
                            false,
                            scored,
                            false,
                            steps,
                        ));
                    }
                }
            }
        }
        iter
    }

    /// Puts the selection `cs` in the queue where the metric gives it a bound and that bound is
    /// below the best score so far.
    fn consider_adding_to_queue(&mut self, cs: &CoinSelector<'a>, is_exclusion: bool)
        requires
            cs.wf(),
            old(self).wf(),
        ensures
            final(self).wf(),
            final(self).best() == old(self).best(),
            final(self).root() == old(self).root(),
            spec_same_metric(final(self).metric(), old(self).metric()),
            forall|x: Branch<'a>| old(self).queue().contains(x) ==> final(self).queue().contains(x),
            forall|x: Branch<'a>| #[trigger]
                final(self).queue().contains(x) ==> old(self).queue().contains(x)
                    || spec_is_branch_of(old(self).metric(), x, cs@, is_exclusion),
            spec_worth(old(self).best(), old(self).metric().bound_of(cs@)) ==> exists|x: Branch<'a>|
                final(self).queue().contains(x) && #[trigger] spec_is_branch_of(
                    old(self).metric(),
                    x,
                    cs@,
                    is_exclusion,
                ),
            spec_offer(
                old(self).metric(),
                old(self).best(),
                old(self).queue(),
                cs@,
                is_exclusion,
                final(self).queue(),
            ),
    {
        let bound: Option<Score> = self.metric.bound(cs);
        assert(self.queue() == old(self).queue());
        if let Some(bound) = bound {
            let is_good_enough: bool = match self.best {
                Some(best) => best.raw > bound.raw,
                None => true,
            };
            if is_good_enough {
                let branch = Branch { lower_bound: bound, selector: cs.clone(), is_exclusion };
                let ghost pushed = branch;
                push_branch(&mut self.queue, branch);
                proof {
                    assert(self.queue().contains(pushed) && spec_is_branch_of(
                        old(self).metric(),
                        pushed,
                        cs@,
                        is_exclusion,
                    ));
                    assert(self.queue() == spec_pushed(old(self).queue(), pushed) && pushed.wf());
                }
            }
        }
    }

    /// Offers the two selections to the queue that follow from `cs`: the one that includes its
    /// first unselected candidate, and the one that excludes it, together with those that
    /// directly follow it and have its value and weight.
    fn insert_new_branches(&mut self, cs: &CoinSelector<'a>)
        requires
            cs.wf(),
            old(self).wf(),
        ensures
            final(self).wf(),
            final(self).best() == old(self).best(),
            final(self).root() == old(self).root(),
            spec_same_metric(final(self).metric(), old(self).metric()),
            forall|x: Branch<'a>| old(self).queue().contains(x) ==> final(self).queue().contains(x),
            forall|x: Branch<'a>| #[trigger]
                final(self).queue().contains(x) ==> old(self).queue().contains(x) || (
                spec_has_children(cs@) && (spec_is_branch_of(
                    old(self).metric(),
                    x,
                    spec_inclusion_child(cs@),
                    false,
                ) || spec_is_branch_of(old(self).metric(), x, spec_exclusion_child(cs@), true))),
            spec_has_children(cs@) && spec_worth(
                old(self).best(),
                old(self).metric().bound_of(spec_inclusion_child(cs@)),
            ) ==> exists|x: Branch<'a>|
                final(self).queue().contains(x) && #[trigger] spec_is_branch_of(
                    old(self).metric(),
                    x,
                    spec_inclusion_child(cs@),
                    false,
                ),
            spec_has_children(cs@) && spec_worth(
                old(self).best(),
                old(self).metric().bound_of(spec_exclusion_child(cs@)),
            ) ==> exists|x: Branch<'a>|
                final(self).queue().contains(x) && #[trigger] spec_is_branch_of(
                    old(self).metric(),
                    x,
                    spec_exclusion_child(cs@),
                    true,
                ),
            spec_branched(
                old(self).metric(),
                old(self).best(),
                old(self).queue(),
                cs@,
                final(self).queue(),
            ),
    {
        let unselected: Vec<(usize, Candidate)> = cs.unselected();
        if unselected.len() == 0 {
            // exhausted
            return ;
        }
        let ghost indices = cs@.unselected_indices();
        proof {
            lemma_unselected_in_range(cs@, cs@.order.len() as int);
        }
        let (next_index, next): (usize, Candidate) = unselected[0];
        assert(next_index == indices[0] && next == cs@.candidates[indices[0] as int]);

        let mut inclusion_cs: CoinSelector<'a> = cs.clone();
        inclusion_cs.select(next_index);
        self.consider_adding_to_queue(&inclusion_cs, false);
        let ghost between = self.queue();
        let ghost metric_between = self.metric();

        // for the exclusion branch, we keep banning if candidates have the same weight and value
        let mut exclusion_cs: CoinSelector<'a> = cs.clone();
        let mut k: usize = 0;
        while k < unselected.len()
            invariant
                k <= unselected@.len(),
                cs.wf(),
                exclusion_cs.wf(),
                indices == cs@.unselected_indices(),
                unselected@ == cs@.with_candidates(indices),
                next == cs@.candidates[indices[0] as int],
                forall|j: int| 0 <= j < indices.len() ==> cs@.available(#[trigger] indices[j]),
                forall|r: int|
                    0 <= r < k ==> spec_same_value_and_weight(
                        cs@.candidates[#[trigger] indices[r] as int],
                        cs@.candidates[indices[0] as int],
                    ),
                exclusion_cs@.candidates == cs@.candidates,
                exclusion_cs@.selected == cs@.selected,
                exclusion_cs@.order == cs@.order,
                forall|i: usize|
                    exclusion_cs@.banned.contains(i) <==> (cs@.banned.contains(i) || exists|r: int|
                        0 <= r < k && #[trigger] indices[r] == i),
            ensures
                k <= unselected@.len(),
                k < unselected@.len() ==> !spec_same_value_and_weight(
                    cs@.candidates[indices[k as int] as int],
                    cs@.candidates[indices[0] as int],
                ),
            decreases unselected@.len() - k,
        {
            let (index, candidate): (usize, Candidate) = unselected[k];
            assert(index == indices[k as int] && candidate == cs@.candidates[indices[k as int] as int]);
            if candidate.value != next.value || candidate.weight != next.weight {
                break ;
            }
            assert(cs@.available(indices[k as int]));
            exclusion_cs.ban(index);
            proof {
                assert forall|i: usize|
                    exclusion_cs@.banned.contains(i) <==> (cs@.banned.contains(i) || exists|r: int|
                        0 <= r < k + 1 && #[trigger] indices[r] == i) by {
                    if i == index {
                        assert(indices[k as int] == i);
                    }
                }
            }
            k += 1;
        }
        proof {
            let child = spec_exclusion_child(cs@);
            assert forall|i: usize| exclusion_cs@.banned.contains(i) == child.banned.contains(i) by {
                if exclusion_cs@.banned.contains(i) && !cs@.banned.contains(i) {
                    let r = choose|r: int| 0 <= r < k && #[trigger] indices[r] == i;
                    assert(spec_in_leading_run(cs@, r));
                }
                if child.banned.contains(i) && !cs@.banned.contains(i) {
                    let r = choose|r: int| spec_in_leading_run(cs@, r) && #[trigger] indices[r] == i;
                    if r >= k {
                        assert(spec_same_value_and_weight(
                            cs@.candidates[indices[k as int] as int],
                            cs@.candidates[indices[0] as int],
                        ));
                    }
                    assert(0 <= r < k && indices[r] == i);
                }
            }
            assert(exclusion_cs@.banned =~= child.banned);
            assert(exclusion_cs@ == child);
        }
        self.consider_adding_to_queue(&exclusion_cs, true);
        proof {
            let metric = old(self).metric();
            assert forall|selection: SelectorView|
                metric_between.bound_of(selection) == metric.bound_of(selection) by {}
            assert(spec_offer(
                metric,
                old(self).best(),
                old(self).queue(),
                spec_inclusion_child(cs@),
                false,
                between,
            ));
            assert(spec_offer(
                metric,
                old(self).best(),
                between,
                spec_exclusion_child(cs@),
                true,
                self.queue(),
            )) by {
                if spec_worth(old(self).best(), metric.bound_of(spec_exclusion_child(cs@))) {
                    let branch = choose|branch: Branch<'a>|
                        {
                            &&& self.queue() == #[trigger] spec_pushed(between, branch)
                            &&& branch.wf()
                            &&& spec_is_branch_of(
                                metric_between,
                                branch,
                                spec_exclusion_child(cs@),
                                true,
                            )
                        };
                    assert(spec_is_branch_of(metric, branch, spec_exclusion_child(cs@), true));
                }
            }
            if spec_worth(old(self).best(), metric.bound_of(spec_inclusion_child(cs@))) {
                let x = choose|x: Branch<'a>|
                    between.contains(x) && #[trigger] spec_is_branch_of(
                        metric,
                        x,
                        spec_inclusion_child(cs@),
                        false,
                    );
                assert(self.queue().contains(x) && spec_is_branch_of(
                    metric,
                    x,
                    spec_inclusion_child(cs@),
                    false,
                ));
            }
            if spec_worth(old(self).best(), metric.bound_of(spec_exclusion_child(cs@))) {
                let x = choose|x: Branch<'a>|
                    self.queue().contains(x) && #[trigger] spec_is_branch_of(
                        metric_between,
                        x,
                        spec_exclusion_child(cs@),
                        true,
                    );
                assert(self.queue().contains(x) && spec_is_branch_of(
                    metric,
                    x,
                    spec_exclusion_child(cs@),
                    true,
                ));
            }
            assert forall|x: Branch<'a>| #[trigger] self.queue().contains(x) implies old(
                self,
            ).queue().contains(x) || (spec_has_children(cs@) && (spec_is_branch_of(
                metric,
                x,
                spec_inclusion_child(cs@),
                false,
            ) || spec_is_branch_of(metric, x, spec_exclusion_child(cs@), true))) by {
                if !between.contains(x) {
                    assert(spec_is_branch_of(metric_between, x, spec_exclusion_child(cs@), true));
                }
            }
        }
    }

    /// Runs one round of branch and bound.
    ///
    /// Returns `None` where the search has ended: the queue is empty, or the best score so far
    /// is not above the bound of any branch in it. With an admissible metric the best score is
    /// then the least score that the metric gives to a selection of the search. Returns
    /// `Some(None)` for a round that found no better selection, and `Some(Some(..))` with the
    /// selection and its score for a round that found one with a score below every score found
    /// before.
    #[verifier::rlimit(30)]
    pub fn next(&mut self) -> (item: Option<Option<(CoinSelector<'a>, Score)>>)
        requires
            old(self).inv(),
        ensures
            final(self).inv(),
            Self::spec_round(*old(self), Self::spec_item(item), *final(self)),
            match item {
                Some(Some((selector, score))) => {
                    &&& selector.wf()
                    &&& old(self).metric().score_of(selector@) == Some(score)
                    &&& spec_improves(old(self).best(), Some(score), final(self).best())
                    &&& exists|steps: nat| #[trigger]
                        spec_branch_in(old(self).root(), false, selector@, false, steps)
                },
                Some(None) => spec_improves(old(self).best(), None, final(self).best()),
                None => spec_admissible(old(self).metric(), old(self).root()) ==> spec_optimal(
                    old(self).metric(),
                    old(self).root(),
                    final(self).best(),
                ),
            },
    {
        let ghost root = self.root();
        let ghost metric = self.metric();
        let ghost queue = self.queue();
        let ghost best = self.best();
        proof {
            assert forall|i: int| 0 <= i < queue.len() implies (#[trigger] queue[i]).spec_not_before(
                &queue[0],
            ) by {
                lemma_heap_root_first(queue, i);
            }
        }
        let branch: Branch<'a> = match pop_branch(&mut self.queue) {
            Some(branch) => branch,
            None => {
                proof {
                    if spec_admissible(metric, root) {
                        lemma_search_over(metric, root, best, queue);
                    }
                }
                return None;
            },
        };
        let ghost rest = self.queue();

        if let Some(best_score) = self.best {
            // If the next thing in queue is not better than our best we're done.
            if best_score.raw <= branch.lower_bound.raw {
                proof {
                    assert forall|x: Branch<'a>| #[trigger] rest.contains(x) implies queue.contains(x) by {}
                    if spec_admissible(metric, root) {
                        lemma_search_over(metric, root, best, queue);
                        assert forall|scored: SelectorView, steps: nat|
                            #[trigger] spec_branch_in(root, false, scored, false, steps)
                                && metric.score_of(scored) is Some implies spec_settled(
                            metric,
                            best,
                            rest,
                            scored,
                        ) by {}
                    }
                }
                return None;
            }
        }
        let ghost popped = branch;
        let selector: CoinSelector<'a> = branch.selector;
        let mut found: Option<Score> = None;
        if !branch.is_exclusion {
            if let Some(score) = self.metric.score(&selector) {
                let better: bool = match self.best {
                    Some(best_score) => score.raw < best_score.raw,
                    None => true,
                };
                if better {
                    self.best = Some(score);
                    found = Some(score);
                }
            }
        }
        assert(self.queue() == rest);
        let ghost scored_metric = self.metric();
        let ghost best_after = self.best();
        assert(best_after == spec_best_after(best, popped.is_exclusion(), metric.score_of(popped.selection())));
        assert(spec_improves(best, found, best_after));
        assert(found is Some <==> best_after != best);
        assert(found is Some ==> metric.score_of(selector@) == found);
        self.insert_new_branches(&selector);
        proof {
            assert forall|selection: SelectorView|
                scored_metric.bound_of(selection) == metric.bound_of(selection)
                    && scored_metric.score_of(selection) == metric.score_of(selection) by {}
            let after = self.queue();
            let node = popped.selection();
            assert forall|x: Branch<'a>| #[trigger] after.contains(x) implies rest.contains(x) || (
            spec_has_children(node) && (spec_is_branch_of(
                metric,
                x,
                spec_inclusion_child(node),
                false,
            ) || spec_is_branch_of(metric, x, spec_exclusion_child(node), true))) by {
                if !rest.contains(x) {
                    assert(spec_is_branch_of(scored_metric, x, spec_inclusion_child(node), false)
                        || spec_is_branch_of(scored_metric, x, spec_exclusion_child(node), true));
                }
            }
            if spec_has_children(node) && spec_worth(
                best_after,
                metric.bound_of(spec_inclusion_child(node)),
            ) {
                let x = choose|x: Branch<'a>|
                    after.contains(x) && #[trigger] spec_is_branch_of(
                        scored_metric,
                        x,
                        spec_inclusion_child(node),
                        false,
                    );
                assert(after.contains(x) && spec_is_branch_of(
                    metric,
                    x,
                    spec_inclusion_child(node),
                    false,
                ));
            }
            if spec_has_children(node) && spec_worth(
                best_after,
                metric.bound_of(spec_exclusion_child(node)),
            ) {
                let x = choose|x: Branch<'a>|
                    after.contains(x) && #[trigger] spec_is_branch_of(
                        scored_metric,
                        x,
                        spec_exclusion_child(node),
                        true,
                    );
                assert(after.contains(x) && spec_is_branch_of(
                    metric,
                    x,
                    spec_exclusion_child(node),
                    true,
                ));
            }
            assert(spec_branched(metric, best_after, rest, node, after)) by {
                if spec_has_children(node) {
                    let between = choose|between: Seq<Branch<'a>>|
                        {
                            &&& #[trigger] spec_offer(
                                scored_metric,
                                best_after,
                                rest,
                                spec_inclusion_child(node),
                                false,
                                between,
                            )
                            &&& spec_offer(
                                scored_metric,
                                best_after,
                                between,
                                spec_exclusion_child(node),
                                true,
                                after,
                            )
                        };
                    lemma_offer_same_metric(
                        scored_metric,
                        metric,
                        best_after,
                        rest,
                        spec_inclusion_child(node),
                        false,
                        between,
                    );
                    lemma_offer_same_metric(
                        scored_metric,
                        metric,
                        best_after,
                        between,
                        spec_exclusion_child(node),
                        true,
                        after,
                    );
                }
            }
            lemma_round_keeps_complete(metric, root, best, queue, popped, rest, after);
            lemma_same_metric_transfers(self.metric(), metric, root, self.best(), after);
            if found is Some {
                assert(queue.contains(popped));
                let depth = choose|depth: nat| #[trigger]
                    spec_branch_in(root, false, popped.selection(), popped.is_exclusion(), depth);
                assert(spec_branch_in(root, false, selector@, false, depth));
            }
        }
        match found {
            Some(score) => Some(Some((selector, score))),
            None => Some(None),
        }
    }
}

impl<'a> CoinSelector<'a> {
    /// Starts rounds of branch and bound to minimize the score of the provided [`BnbMetric`].
    ///
    /// Not every round will return a solution. If a solution is found, we return the selection
    /// and score. Each subsequent solution of the search has a lower score than the last.
    ///
    /// Most of the time, you would want to use [`CoinSelector::run_bnb`] instead.
    pub fn bnb_solutions<M: BnbMetric>(&self, metric: M) -> (iter: BnbIter<'a, M>)
        requires
            self.wf(),
        ensures
            iter.inv(),
            iter.spec_started(metric, iter.root()),
            spec_search_root(self@, metric.orders_by_descending_value_pwu(), iter.root()),
    {
        BnbIter::new(self.clone(), metric)
    }

    /// Run branch and bound to minimize the score of the provided [`BnbMetric`].
    ///
    /// The method keeps trying until no better solution can be found, or we reach `max_rounds`.
    /// If a solution is found, the selection is replaced by the last that a round has found,
    /// and its score is returned. Otherwise, we error with [`NoBnbSolution`] and the number of
    /// rounds that were run, and the selection stays as it is. Where the search ended before
    /// `max_rounds` without a solution, an admissible metric gives no selection of the search a
    /// score.
    ///
    /// Use [`CoinSelector::bnb_solutions`] to access the branch and bound search directly.
    pub fn run_bnb<M: BnbMetric>(&mut self, metric: M, max_rounds: usize) -> (result: Result<
        Score,
        NoBnbSolution,
    >)
        requires
            old(self).wf(),
        ensures
            final(self).wf(),
            exists|states: Seq<BnbIter<'a, M>>, found: Seq<Option<(SelectorView, Score)>>|
                {
                    &&& #[trigger] BnbIter::spec_ran(states, found, max_rounds)
                    &&& states[0].inv()
                    &&& states[0].spec_started(metric, states[0].root())
                    &&& spec_search_root(
                        old(self)@,
                        metric.orders_by_descending_value_pwu(),
                        states[0].root(),
                    )
                    &&& match result {
                        Ok(score) => {
                            &&& metric.score_of(final(self)@) == Some(score)
                            &&& exists|last: int|
                                {
                                    &&& 0 <= last < found.len()
                                    &&& #[trigger] found[last] == Some((final(self)@, score))
                                    &&& forall|later: int|
                                        last < later < found.len() ==> (#[trigger] found[later]) is None
                                }
                        },
                        Err(error) => {
                            &&& final(self)@ == old(self)@
                            &&& error.max_rounds == max_rounds
                            &&& error.rounds == found.len()
                            &&& forall|round: int|
                                0 <= round < found.len() ==> (#[trigger] found[round]) is None
                            &&& error.rounds < max_rounds && spec_admissible(metric, states[0].root())
                                ==> spec_optimal(metric, states[0].root(), None)
                        },
                    }
                },
    {
        let mut rounds: usize = 0;
        let mut iter: BnbIter<'a, M> = self.bnb_solutions(metric);
        let mut solution: Option<(CoinSelector<'a>, Score)> = None;
        let ghost root = iter.root();
        let ghost mut states: Seq<BnbIter<'a, M>> = seq![iter];
        let ghost mut found: Seq<Option<(SelectorView, Score)>> = Seq::empty();
        let ghost mut last: int = -1;
        while rounds < max_rounds
            invariant_except_break
                found.len() == rounds,
                states.last() == iter,
            invariant
                rounds <= max_rounds,
                iter.inv(),
                iter.root() == root,
                spec_same_metric(iter.metric(), metric),
                solution is None == iter.best() is None,
                states.len() == found.len() + 1,
                states[0].inv(),
                states[0].root() == root,
                states[0].spec_started(metric, root),
                found.len() <= rounds,
                forall|round: int|
                    0 <= round < found.len() ==> BnbIter::spec_round(
                        states[round],
                        Some(#[trigger] found[round]),
                        states[round + 1],
                    ),
                -1 <= last < found.len(),
                forall|later: int| last < later < found.len() ==> (#[trigger] found[later]) is None,
                match solution {
                    Some((selector, score)) => {
                        &&& selector.wf()
                        &&& metric.score_of(selector@) == Some(score)
                        &&& 0 <= last
                        &&& found[last] == Some((selector@, score))
                    },
                    None => last == -1,
                },
            ensures
                rounds <= max_rounds,
                rounds == found.len(),
                BnbIter::spec_ran(states, found, max_rounds),
                states[0].inv(),
                states[0].root() == root,
                states[0].spec_started(metric, root),
                -1 <= last < found.len(),
                forall|later: int| last < later < found.len() ==> (#[trigger] found[later]) is None,
                rounds < max_rounds && solution is None && spec_admissible(metric, root)
                    ==> spec_optimal(metric, root, None),
                match solution {
                    Some((selector, score)) => {
                        &&& selector.wf()
                        &&& metric.score_of(selector@) == Some(score)
                        &&& 0 <= last
                        &&& found[last] == Some((selector@, score))
                    },
                    None => last == -1,
                },
            decreases max_rounds - rounds,
        {
            let ghost before = iter;
            match iter.next() {
                Some(item) => {
                    proof {
                        let handed = if item is Some {
                            let solved = item->Some_0;
                            Some((solved.0@, solved.1))
                        } else {
                            None
                        };
                        assert(BnbIter::spec_round(before, Some(handed), iter));
                        states = states.push(iter);
                        found = found.push(handed);
                        if item is Some {
                            last = found.len() - 1;
                        }
                    }
                    rounds += 1;
                    if let Some(solved) = item {
                        solution = Some(solved);
                    }
                },
                None => {
                    proof {
                        lemma_same_metric_transfers(
                            before.metric(),
                            metric,
                            root,
                            iter.best(),
                            iter.queue(),
                        );
                        assert(BnbIter::spec_round(states.last(), None, iter));
                    }
                    break ;
                },
            }
        }
        match solution {
            Some((selector, score)) => {
                *self = selector;
                Ok(score)
            },
            None => Err(NoBnbSolution { max_rounds, rounds }),
        }
    }
}

/// Exchanging two branches of the queue keeps what it holds.
pub proof fn lemma_swap_keeps_branches<'a>(s: Seq<Branch<'a>>, i: int, j: int)
    requires
        0 <= i < s.len(),
        0 <= j < s.len(),
    ensures
        s.update(i, s[j]).update(j, s[i]).to_multiset() == s.to_multiset(),
{
    broadcast use vstd::multiset::group_multiset_axioms;

    let first = s.update(i, s[j]);
    let second = first.update(j, s[i]);
    vstd::seq_lib::to_multiset_update(s, i, s[j]);
    vstd::seq_lib::to_multiset_update(first, j, s[i]);
    let m = s.to_multiset();
    vstd::seq_lib::to_multiset_contains(s, s[i]);
    vstd::seq_lib::to_multiset_contains(s, s[j]);
    assert(s.contains(s[i]) && s.contains(s[j]));
    assert(first[j] == s[j]);
    assert forall|x: Branch<'a>| second.to_multiset().count(x) == m.count(x) by {
        assert(m.insert(s[j]).count(x) == m.count(x) + if x == s[j] {
            1int
        } else {
            0int
        });
        assert(m.insert(s[j]).remove(s[i]).count(x) == m.insert(s[j]).count(x) - if x == s[i] {
            1int
        } else {
            0int
        });
    }
    assert(second.to_multiset() =~= m);
}

} // verus!
