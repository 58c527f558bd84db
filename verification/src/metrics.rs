//! Branch and bound metrics that can be passed to [`CoinSelector::bnb_solutions`] or
//! [`CoinSelector::run_bnb`].
//!
//! [`CoinSelector::bnb_solutions`]: crate::CoinSelector::bnb_solutions
//! [`CoinSelector::run_bnb`]: crate::CoinSelector::run_bnb
use vstd::prelude::*;
use crate::coin_selector::{lemma_unselected_in_range, Candidate, CoinSelector, SelectorView};
use crate::drain::{ChangePolicy, Drain};
use crate::feerate::FeeRate;
use crate::bnb::BnbMetric;
use crate::score::Score;
use crate::target::Target;

pub mod changeless;
pub mod lowest_fee;
pub mod plain;
pub mod waste;

pub use changeless::Changeless;
pub use lowest_fee::LowestFee;
pub use waste::Waste;



verus! {

broadcast use vstd::std_specs::btree::group_btree_axioms;

/// Whether the unselected candidates from the `k`th on all have a negative effective value at
/// `feerate`.
pub open spec fn spec_in_negative_tail(selection: SelectorView, feerate: FeeRate, k: int) -> bool {
    let unselected = selection.unselected_indices();
    &&& 0 <= k < unselected.len()
    &&& forall|r: int|
        k <= r < unselected.len() ==> selection.candidates[#[trigger] unselected[r] as int].spec_effective_value(
            feerate,
        ) < 0
}

/// The selection with those unselected candidates selected that stand last in the order and
/// have a negative effective value at `feerate`, up to the last one that has none.
pub open spec fn spec_select_negative_tail(selection: SelectorView, feerate: FeeRate) -> SelectorView {
    SelectorView {
        selected: Set::new(
            |i: usize|
                selection.selected.contains(i) || exists|k: int|
                    spec_in_negative_tail(selection, feerate, k)
                        && #[trigger] selection.unselected_indices()[k] == i,
        ),
        ..selection
    }
}

/// The change output that the selection and, by the heuristic, every selection that follows
/// from it has: the none drain where the selection has no change, else the change of the
/// selection with the least excess, which holds every unselected candidate at the end of the
/// order that has a negative effective value.
pub open spec fn spec_change_lower_bound(
    selection: SelectorView,
    target: Target,
    change_policy: ChangePolicy,
) -> Drain {
    if selection.drain_value(target, change_policy) is Some {
        spec_select_negative_tail(selection, target.fee.rate).drain(target, change_policy)
    } else {
        Drain::spec_none()
    }
}

/// Returns a drain if the current selection and every possible future selection would have a
/// change output (otherwise the none drain) by using the heuristic that if it has change with
/// the current selection and it has one when we select every negative effective value candidate
/// then it will always have change. We are essentially assuming that the change policy is
/// monotone with respect to the excess of the selection.
pub fn change_lower_bound(cs: &CoinSelector<'_>, target: Target, change_policy: ChangePolicy) -> (drain: Drain)
    requires
        cs.wf(),
    ensures
        drain == spec_change_lower_bound(cs@, target, change_policy),
{
    let has_change_now: bool = cs.drain_value(target, change_policy).is_some();
    if has_change_now {
        let mut least_excess = cs.clone();
        let unselected: Vec<(usize, Candidate)> = cs.unselected();
        let ghost indices = cs@.unselected_indices();
        proof {
            lemma_unselected_in_range(cs@, cs@.order.len() as int);
        }
        let mut k: usize = unselected.len();
        while k > 0
            invariant
                k <= unselected@.len(),
                cs.wf(),
                least_excess.wf(),
                indices == cs@.unselected_indices(),
                unselected@ == cs@.with_candidates(indices),
                forall|j: int| 0 <= j < indices.len() ==> cs@.available(#[trigger] indices[j]),
                forall|r: int|
                    k <= r < indices.len() ==> cs@.candidates[#[trigger] indices[r] as int].spec_effective_value(
                        target.fee.rate,
                    ) < 0,
                least_excess@.candidates == cs@.candidates,
                least_excess@.banned == cs@.banned,
                least_excess@.order == cs@.order,
                forall|i: usize|
                    least_excess@.selected.contains(i) <==> (cs@.selected.contains(i) || exists|r: int|
                        k <= r < indices.len() && #[trigger] indices[r] == i),
            ensures
                k <= unselected@.len(),
                k > 0 ==> cs@.candidates[indices[k - 1] as int].spec_effective_value(target.fee.rate)
                    >= 0,
            decreases k,
        {
            let (index, candidate): (usize, Candidate) = unselected[k - 1];
            assert(index == indices[k - 1] && candidate == cs@.candidates[indices[k - 1] as int]);
            if candidate.effective_value(target.fee.rate).raw >= 0 {
                break ;
            }
            assert(cs@.available(indices[k - 1]));
            least_excess.select(index);
            proof {
                assert forall|i: usize|
                    least_excess@.selected.contains(i) <==> (cs@.selected.contains(i) || exists|r: int|
                        k - 1 <= r < indices.len() && #[trigger] indices[r] == i) by {
                    if i == index {
                        assert(indices[k - 1] == i);
                    }
                }
            }
            k -= 1;
        }
        proof {
            let tail = spec_select_negative_tail(cs@, target.fee.rate);
            assert forall|i: usize| least_excess@.selected.contains(i) == tail.selected.contains(i) by {
                if least_excess@.selected.contains(i) && !cs@.selected.contains(i) {
                    let r = choose|r: int| k <= r < indices.len() && #[trigger] indices[r] == i;
                    assert(spec_in_negative_tail(cs@, target.fee.rate, r));
                }
                if tail.selected.contains(i) && !cs@.selected.contains(i) {
                    let r = choose|r: int|
                        spec_in_negative_tail(cs@, target.fee.rate, r) && #[trigger] indices[r] == i;
                    if r < k {
                        assert(cs@.candidates[indices[k - 1] as int].spec_effective_value(
                            target.fee.rate,
                        ) < 0);
                    }
                }
            }
            assert(least_excess@.selected =~= tail.selected);
            assert(least_excess@ == tail);
        }
        least_excess.drain(target, change_policy)
    } else {
        Drain::none()
    }
}

/// Whether `position` is the first in the order up to which the candidates have to be selected
/// for the target to be met with the change output `drain`.
pub open spec fn spec_is_first_met(
    selection: SelectorView,
    target: Target,
    drain: Drain,
    position: int,
) -> bool {
    &&& 0 <= position <= selection.order.len()
    &&& selection.select_upto(position).is_target_met_with_drain(target, drain)
    &&& forall|q: int|
        0 <= q < position ==> !(#[trigger] selection.select_upto(q)).is_target_met_with_drain(
            target,
            drain,
        )
}

/// The first position in the order up to which the candidates have to be selected for the
/// target to be met with the change output `drain`, `None` where all of them do not meet it.
pub open spec fn spec_first_met(selection: SelectorView, target: Target, drain: Drain) -> Option<int> {
    if exists|p: int| spec_is_first_met(selection, target, drain, p) {
        Some(choose|p: int| spec_is_first_met(selection, target, drain, p))
    } else {
        None
    }
}

/// There is at most one first position.
pub proof fn lemma_first_met_unique(selection: SelectorView, target: Target, drain: Drain, p: int)
    requires
        spec_is_first_met(selection, target, drain, p),
    ensures
        spec_first_met(selection, target, drain) == Some(p),
{
    let other = choose|p: int| spec_is_first_met(selection, target, drain, p);
    if other < p {
        assert(!selection.select_upto(other).is_target_met_with_drain(target, drain));
    }
    if p < other {
        assert(!selection.select_upto(p).is_target_met_with_drain(target, drain));
    }
}

/// Selects candidates in order until the one that has the target met with the change output
/// `drain`. Returns the selection before that candidate was selected and the candidate's
/// index, or `None` where the target is not met with every candidate selected.
pub fn resize_point<'a>(cs: &CoinSelector<'a>, target: Target, drain: Drain) -> (point: Option<
    (CoinSelector<'a>, usize),
>)
    requires
        cs.wf(),
        !cs@.is_target_met_with_drain(target, drain),
    ensures
        match point {
            Some((before, index)) => {
                &&& spec_first_met(cs@, target, drain) is Some
                &&& spec_first_met(cs@, target, drain)->0 >= 1
                &&& before.wf()
                &&& before@ == cs@.select_upto(spec_first_met(cs@, target, drain)->0 - 1)
                &&& index == cs@.order[spec_first_met(cs@, target, drain)->0 - 1]
                &&& index < cs@.candidates.len()
            },
            None => spec_first_met(cs@, target, drain) is None,
        },
{
    let order: Vec<(usize, Candidate)> = cs.candidates();
    let n: usize = order.len();
    let mut current: CoinSelector<'a> = cs.clone();
    let mut p: usize = 0;
    proof {
        assert(cs@.select_upto(0).selected =~= cs@.selected);
    }
    while p < n
        invariant
            p <= n,
            n == cs@.order.len(),
            cs.wf(),
            current.wf(),
            order@ == cs@.with_candidates(cs@.order),
            current@ == cs@.select_upto(p as int),
            forall|q: int|
                0 <= q <= p ==> !(#[trigger] cs@.select_upto(q)).is_target_met_with_drain(
                    target,
                    drain,
                ),
        decreases n - p,
    {
        let (index, _candidate): (usize, Candidate) = order[p];
        assert(index == cs@.order[p as int]);
        proof {
            crate::coin_selector::lemma_select_upto_step(cs@, p as int);
        }
        if !current.is_selected(index) && !current.banned().contains(&index) {
            let mut next: CoinSelector<'a> = current.clone();
            next.select(index);
            if next.is_target_met_with_drain(target, drain) {
                proof {
                    assert(spec_is_first_met(cs@, target, drain, p + 1));
                    lemma_first_met_unique(cs@, target, drain, p + 1);
                }
                return Some((current, index));
            }
            current = next;
        } else {
            proof {
                assert(current@.selected.insert(index) =~= current@.selected || current@.banned.contains(
                    index,
                ));
            }
        }
        p += 1;
    }
    proof {
        if exists|p: int| spec_is_first_met(cs@, target, drain, p) {
            let p = choose|p: int| spec_is_first_met(cs@, target, drain, p);
            assert(!cs@.select_upto(p).is_target_met_with_drain(target, drain));
        }
    }
    None
}

/// The score `score` weighted by `weight`, or the largest or the least score where the product
/// is beyond them.
pub open spec fn spec_weighted(score: Score, weight: u32) -> Score {
    Score::spec_saturating(score.raw * weight)
}

/// The sum of two scores, or the largest or the least score where the sum is beyond them.
pub open spec fn spec_score_sum(a: Score, b: Score) -> Score {
    Score::spec_saturating(a.raw + b.raw)
}

/// The weighted sum of two scores, `None` where one of them is `None`.
pub open spec fn spec_combined(
    first: Option<Score>,
    first_weight: u32,
    second: Option<Score>,
    second_weight: u32,
) -> Option<Score> {
    match (first, second) {
        (Some(a), Some(b)) => Some(
            spec_score_sum(spec_weighted(a, first_weight), spec_weighted(b, second_weight)),
        ),
        _ => None,
    }
}

/// The score `score` weighted by `weight`.
fn weighted(score: Score, weight: u32) -> (product: Score)
    ensures
        product == spec_weighted(score, weight),
{
    assert((score.raw > 0 ==> score.raw * weight >= 0) && (score.raw <= 0 ==> score.raw * weight
        <= 0)) by (nonlinear_arith)
        requires
            weight >= 0,
    ;
    match score.raw.checked_mul(weight as i128) {
        Some(raw) => Score { raw },
        None => if score.raw > 0 {
            Score { raw: i128::MAX }
        } else {
            Score { raw: i128::MIN }
        },
    }
}

/// The sum of two scores.
fn score_sum(a: Score, b: Score) -> (sum: Score)
    ensures
        sum == spec_score_sum(a, b),
{
    match a.raw.checked_add(b.raw) {
        Some(raw) => Score { raw },
        None => if a.raw > 0 {
            Score { raw: i128::MAX }
        } else {
            Score { raw: i128::MIN }
        },
    }
}

/// Two metrics, each with a weight, are a metric: it scores and bounds a selection by the
/// weighted sum of what the two give, and gives `None` where one of them does.
impl<A: BnbMetric, B: BnbMetric> BnbMetric for ((A, u32), (B, u32)) {
    open spec fn score_of(&self, selection: SelectorView) -> Option<Score> {
        spec_combined(
            self.0.0.score_of(selection),
            self.0.1,
            self.1.0.score_of(selection),
            self.1.1,
        )
    }

    open spec fn bound_of(&self, selection: SelectorView) -> Option<Score> {
        spec_combined(
            self.0.0.bound_of(selection),
            self.0.1,
            self.1.0.bound_of(selection),
            self.1.1,
        )
    }

    /// The candidates are to be ordered by descending value per weight unit where both metrics
    /// want it.
    open spec fn orders_by_descending_value_pwu(&self) -> bool {
        self.0.0.orders_by_descending_value_pwu() && self.1.0.orders_by_descending_value_pwu()
    }

    fn score(&mut self, cs: &CoinSelector<'_>) -> (score: Option<Score>) {
        let first: Option<Score> = self.0.0.score(cs);
        let first: Score = match first {
            Some(first) => first,
            None => {
                return None;
            },
        };
        let second: Option<Score> = self.1.0.score(cs);
        match second {
            Some(second) => Some(score_sum(weighted(first, self.0.1), weighted(second, self.1.1))),
            None => None,
        }
    }

    fn bound(&mut self, cs: &CoinSelector<'_>) -> (bound: Option<Score>) {
        let first: Option<Score> = self.0.0.bound(cs);
        let first: Score = match first {
            Some(first) => first,
            None => {
                return None;
            },
        };
        let second: Option<Score> = self.1.0.bound(cs);
        match second {
            Some(second) => Some(score_sum(weighted(first, self.0.1), weighted(second, self.1.1))),
            None => None,
        }
    }

    fn requires_ordering_by_descending_value_pwu(&self) -> (required: bool) {
        let first: bool = self.0.0.requires_ordering_by_descending_value_pwu();
        let second: bool = self.1.0.requires_ordering_by_descending_value_pwu();
        first && second
    }
}

} // verus!
