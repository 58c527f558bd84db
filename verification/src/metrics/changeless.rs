//! The metric that looks for selections without change.
use vstd::prelude::*;
use crate::bnb::BnbMetric;
use crate::coin_selector::{CoinSelector, SelectorView};
use crate::drain::{ChangePolicy, Drain};
use crate::metrics::{change_lower_bound, spec_change_lower_bound};
use crate::score::Score;
use crate::target::Target;

verus! {

/// Metric for finding changeless solutions only.
#[derive(Clone, Copy, Debug)]
pub struct Changeless {
    /// The target parameters for the resultant selection.
    pub target: Target,
    /// Policy to determine whether a selection requires a change output.
    pub change_policy: ChangePolicy,
}

impl BnbMetric for Changeless {
    /// Zero for a selection that meets the target and has no change, `None` for every other.
    open spec fn score_of(&self, selection: SelectorView) -> Option<Score> {
        if selection.is_target_met(self.target) && selection.drain_value(
            self.target,
            self.change_policy,
        ) is None {
            Some(Score::spec_zero())
        } else {
            None
        }
    }

    /// `None` where the selection and, by the heuristic, all that follow from it have change,
    /// zero else.
    open spec fn bound_of(&self, selection: SelectorView) -> Option<Score> {
        if spec_change_lower_bound(selection, self.target, self.change_policy)
            != Drain::spec_none() {
            None
        } else {
            Some(Score::spec_zero())
        }
    }

    /// The metric wants the candidates ordered by descending value per weight unit.
    open spec fn orders_by_descending_value_pwu(&self) -> bool {
        true
    }

    fn score(&mut self, cs: &CoinSelector<'_>) -> (score: Option<Score>) {
        if cs.is_target_met(self.target) && cs.drain_value(self.target, self.change_policy).is_none() {
            Some(Score::zero())
        } else {
            None
        }
    }

    fn bound(&mut self, cs: &CoinSelector<'_>) -> (bound: Option<Score>) {
        if change_lower_bound(cs, self.target, self.change_policy).is_some() {
            None
        } else {
            Some(Score::zero())
        }
    }

    fn requires_ordering_by_descending_value_pwu(&self) -> (required: bool) {
        true
    }
}

/// The metric scores a selection by what is selected alone, whatever is banned and whatever
/// the order of the candidates.
pub proof fn lemma_changeless_scores_by_selection(metric: Changeless)
    ensures
        crate::exhaustive::spec_scores_by_selection(metric),
{
    assert forall|a: SelectorView, b: SelectorView|
        a.candidates == b.candidates && a.selected == b.selected implies #[trigger] metric.score_of(a)
        == #[trigger] metric.score_of(b) by {
        crate::exhaustive::lemma_figures_by_selection(a, b);
    }
}

/// The bound of a selection is not above the selection's own score.
pub proof fn lemma_changeless_bound_not_above_own_score(metric: Changeless, selection: SelectorView)
    requires
        metric.score_of(selection) is Some,
    ensures
        metric.bound_of(selection) is Some,
        metric.bound_of(selection)->0.raw <= metric.score_of(selection)->0.raw,
{
}

/// The metric scores a selection by the fields of the selected candidates: the score stays the
/// same where a selected candidate is exchanged for one that is not selected and is equal to it
/// in every field.
pub proof fn lemma_changeless_scores_by_fields(metric: Changeless)
    ensures
        crate::exhaustive::spec_scores_by_fields(metric),
{
    assert forall|selection: SelectorView, out: usize, into: usize|
        selection.candidates.len() <= usize::MAX && out < selection.candidates.len() && into
            < selection.candidates.len() && selection.selected.contains(out)
            && !selection.selected.contains(into) && selection.candidates[out as int]
            == selection.candidates[into as int] implies metric.score_of(selection)
        == #[trigger] metric.score_of(crate::exhaustive::spec_exchanged(selection, out, into)) by {
        crate::exhaustive::lemma_figures_by_fields(selection, out, into);
    }
}

} // verus!
