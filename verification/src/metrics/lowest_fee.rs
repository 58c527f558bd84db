//! The metric that minimises the fees paid now and later.
use vstd::prelude::*;
use crate::bnb::BnbMetric;
use crate::coin_selector::{lemma_unselected_in_range, Candidate, CoinSelector, SelectorView};
use crate::drain::{ChangePolicy, Drain};
use crate::feerate::FeeRate;
use crate::metrics::{resize_point, spec_first_met};
use crate::score::{scaled_quotient, spec_scaled_quotient, Score, FIXED_ONE, QUOTIENT_LIMIT};
use crate::target::Target;

verus! {

/// Metric that aims to minimize transaction fees. The future fee for spending the change output
/// is included in this calculation.
///
/// The fee is simply:
///
/// > `inputs - outputs` where `outputs = target.value + change_value`
///
/// But the total value includes the cost of spending the change output if it exists:
///
/// > `change_spend_weight * long_term_feerate`
///
/// The `change_spend_weight` and `change_value` are determined by the `change_policy`.
#[derive(Clone, Copy, Debug)]
pub struct LowestFee {
    /// The target parameters for the resultant selection.
    pub target: Target,
    /// The estimated feerate needed to spend our change output later.
    pub long_term_feerate: FeeRate,
    /// Policy to determine the change output (if any) of a given selection.
    pub change_policy: ChangePolicy,
}

/// The value that a candidate like `resizer`, scaled to have exactly the effective value
/// `deficit` at `rate`, would have, rounded down: `deficit * value / effective value`. `None`
/// where the candidate's effective value is not positive, so that no scale of it makes up for a
/// deficit. Where the quotient is beyond 2^126 or its numerator beyond `u128`, `deficit` stands
/// for it, which it never exceeds.
pub open spec fn spec_resize_term(deficit: int, resizer: Candidate, rate: FeeRate) -> Option<int> {
    let effective_value = resizer.spec_effective_value(rate);
    let quotient = spec_scaled_quotient(deficit * resizer.value, effective_value);
    if effective_value <= 0 {
        None
    } else if deficit * resizer.value <= u128::MAX && quotient < QUOTIENT_LIMIT {
        Some(quotient)
    } else {
        Some(deficit)
    }
}

/// The value that a candidate like `resizer`, scaled to have exactly the effective value
/// `deficit` at `rate`, would have.
fn resize_term(deficit: u128, resizer: Candidate, rate: FeeRate) -> (term: Option<u128>)
    requires
        deficit <= 0x8_0000_0000_0000_0000_0000_0000,
    ensures
        term is Some == spec_resize_term(deficit as int, resizer, rate) is Some,
        term is Some ==> term->0 == spec_resize_term(deficit as int, resizer, rate)->0,
        term is Some ==> term->0 <= QUOTIENT_LIMIT,
{
    let effective_value: i128 = resizer.effective_value(rate).raw;
    if effective_value <= 0 {
        return None;
    }
    let value: u64 = resizer.value;
    assert(effective_value <= 0xffff_ffff_ffff_ffff * 0x1_0000_0000) by (nonlinear_arith)
        requires
            effective_value == value * 0x1_0000_0000 - resizer.weight * rate.raw,
            0 <= value <= 0xffff_ffff_ffff_ffff,
            0 <= resizer.weight,
            0 <= rate.raw,
    ;
    match deficit.checked_mul(value as u128) {
        Some(numerator) => match scaled_quotient(numerator, effective_value as u128) {
            Some(quotient) => Some(quotient),
            None => Some(deficit),
        },
        None => Some(deficit),
    }
}

impl LowestFee {
    /// The fee of the transaction and the fee for spending its change later, in satoshis.
    pub open spec fn spec_long_term_fee(&self, selection: SelectorView) -> int {
        let drain = selection.drain(self.target, self.change_policy);
        selection.fee(self.target.outputs.value_sum as int, drain.value as int)
            + self.long_term_feerate.spec_fee_for(drain.weights.spend_weight as int)
    }

    /// What the change output of the policy costs, in the raw units of a score: the fee for its
    /// weight now and the fee for spending it later.
    pub open spec fn spec_change_cost(&self) -> int {
        self.change_policy.drain_weights.spec_waste(
            self.target.fee.rate,
            self.long_term_feerate,
            self.target.outputs.n_outputs as int,
        )
    }

    /// The bound, in the raw units of a score, on a selection that meets the target. It is the
    /// selection's own score, unless having change or not having it could be changed for the
    /// better:
    ///
    /// - with change, the last unselected candidate, if its effective value is negative, is
    ///   imagined scaled so as to bring the excess down to the policy's threshold; the score
    ///   then grows by the value so added and by the change that goes to fees, and shrinks by
    ///   the cost of the change output;
    /// - without change, the excess is imagined turned into change at the cost of the change
    ///   output.
    pub open spec fn spec_bound_when_met(&self, selection: SelectorView) -> int {
        let current = self.spec_long_term_fee(selection) * FIXED_ONE;
        let unselected = selection.unselected_indices();
        match selection.drain_value(self.target, self.change_policy) {
            Some(drain_value) => {
                let lowest = selection.candidates[unselected.last() as int];
                let effective_value = lowest.spec_effective_value(self.target.fee.rate);
                let extra = spec_scaled_quotient(
                    (drain_value - self.change_policy.min_value) * lowest.value,
                    -effective_value,
                );
                let without_change = current + (extra + drain_value) * FIXED_ONE
                    - self.spec_change_cost();
                if unselected.len() > 0 && effective_value < 0 && without_change < current {
                    without_change
                } else {
                    current
                }
            },
            None => {
                let with_change = current - selection.excess(self.target, Drain::spec_none())
                    * FIXED_ONE + self.spec_change_cost();
                if with_change < current {
                    with_change
                } else {
                    current
                }
            },
        }
    }

    /// The bound, in satoshis, on a selection that does not meet the target: the fee of the
    /// selection that holds the candidates up to the one that has the target met, with that
    /// one scaled so that the target is just met. `None` where no selection that follows
    /// meets the target, or where no scale of the candidate does.
    pub open spec fn spec_bound_when_not_met(&self, selection: SelectorView) -> Option<int> {
        match spec_first_met(selection, self.target, Drain::spec_none()) {
            Some(position) => {
                let before = selection.select_upto(position - 1);
                let resizer = selection.candidates[selection.order[position - 1] as int];
                let rate_deficit = -before.rate_excess(self.target, Drain::spec_none());
                let replacement_deficit = -before.replacement_excess(self.target, Drain::spec_none());
                let for_rate = if rate_deficit > 0 {
                    spec_resize_term(rate_deficit, resizer, self.target.fee.rate)
                } else {
                    Some(0int)
                };
                let for_replacement = match self.target.fee.replace {
                    Some(replace) => if replacement_deficit > 0 {
                        spec_resize_term(
                            replacement_deficit,
                            resizer,
                            replace.incremental_relay_feerate,
                        )
                    } else {
                        Some(0int)
                    },
                    None => Some(0int),
                };
                if for_rate is Some && for_replacement is Some {
                    let scaled_value = if for_rate->0 > for_replacement->0 {
                        for_rate->0
                    } else {
                        for_replacement->0
                    };
                    Some(scaled_value + before.selected_value() - self.target.outputs.value_sum)
                } else {
                    None
                }
            },
            None => None,
        }
    }

    /// The fee of the transaction and the fee for spending its change later, in satoshis.
    fn long_term_fee(&self, cs: &CoinSelector<'_>) -> (fee: i128)
        requires
            cs.wf(),
        ensures
            fee == self.spec_long_term_fee(cs@),
            -0x2_0000_0000_0000_0000 <= fee <= 0x2_0000_0000_0000_0000,
    {
        let drain: Drain = cs.drain(self.target, self.change_policy);
        let fee_for_the_tx: i128 = cs.selected_value() as i128 - self.target.value() as i128
            - drain.value as i128;
        // `spend_fee` rounds up here: the extra satoshi is the penalty for having a change
        // output.
        let fee_for_spending_drain: u64 = drain.weights.spend_fee(self.long_term_feerate);
        fee_for_the_tx + fee_for_spending_drain as i128
    }

    /// The bound on a selection that meets the target.
    fn bound_when_met(&self, cs: &CoinSelector<'_>) -> (bound: Score)
        requires
            cs.wf(),
            cs@.is_target_met(self.target),
        ensures
            bound == Score::spec_saturating(self.spec_bound_when_met(cs@)),
    {
        let whole: i128 = self.long_term_fee(cs);
        assert(-0x2_0000_0000_0000_0000 * 0x1_0000_0000 <= whole * 0x1_0000_0000
            <= 0x2_0000_0000_0000_0000 * 0x1_0000_0000) by (nonlinear_arith)
            requires
                -0x2_0000_0000_0000_0000 <= whole <= 0x2_0000_0000_0000_0000,
        ;
        let current: i128 = whole * (FIXED_ONE as i128);
        let change_cost: i128 = self.change_policy.drain_weights.waste(
            self.target.fee.rate,
            self.long_term_feerate,
            self.target.outputs.n_outputs,
        ).raw;
        match cs.drain_value(self.target, self.change_policy) {
            Some(drain_value) => {
                // it's possible that adding another input might reduce your long term fee if it
                // gets rid of an expensive change output. Our strategy is to take the lowest
                // value per weight candidate we have and use it as a benchmark. We imagine it has
                // the perfect value (but the same value per weight unit) to get rid of the change
                // output by adding negative effective value (i.e. perfectly reducing excess to
                // the point where change wouldn't be added according to the policy).
                let amount_above_change_threshold: u64 = drain_value - self.change_policy.min_value;
                let unselected: Vec<(usize, Candidate)> = cs.unselected();
                if unselected.len() == 0 {
                    return Score { raw: current };
                }
                let (_, lowest): (usize, Candidate) = unselected[unselected.len() - 1];
                proof {
                    lemma_unselected_in_range(cs@, cs@.order.len() as int);
                    assert(lowest == cs@.candidates[cs@.unselected_indices().last() as int]);
                }
                let effective_value: i128 = lowest.effective_value(self.target.fee.rate).raw;
                // we can only reduce excess if the effective value is negative
                if effective_value >= 0 {
                    return Score { raw: current };
                }
                let value: u64 = lowest.value;
                assert(0 <= amount_above_change_threshold * value <= u128::MAX) by (nonlinear_arith)
                    requires
                        0 <= amount_above_change_threshold <= 0xffff_ffff_ffff_ffff,
                        0 <= value <= 0xffff_ffff_ffff_ffff,
                ;
                assert(-effective_value <= 0xffff_ffff * 0xffff_ffff_ffff_ffff) by (nonlinear_arith)
                    requires
                        effective_value == value * 0x1_0000_0000 - lowest.weight * self.target.fee.rate.raw,
                        0 <= value,
                        0 <= lowest.weight <= 0xffff_ffff,
                        0 <= self.target.fee.rate.raw <= 0xffff_ffff_ffff_ffff,
                ;
                // this is how much absolute value we have to add to cancel out the excess
                let extra: Option<u128> = scaled_quotient(
                    (amount_above_change_threshold as u128) * (value as u128),
                    (-effective_value) as u128,
                );
                let ghost exact = spec_scaled_quotient(
                    (drain_value - self.change_policy.min_value) * lowest.value,
                    -effective_value as int,
                );
                match extra {
                    Some(extra) => {
                        if extra >= 0x1_0000_0000_0000_0000_0000 {
                            assert((exact + drain_value) * 0x1_0000_0000 > change_cost)
                                by (nonlinear_arith)
                                requires
                                    exact >= 0x1_0000_0000_0000_0000_0000,
                                    drain_value >= 0,
                                    change_cost <= 0x3_0000_0000_0000_0000_0000_0000,
                            ;
                            return Score { raw: current };
                        }
                        // NOTE: the drain value goes to fees if we get rid of it so it's part of
                        // the cost of removing the change output
                        assert(0 <= (extra + drain_value) * 0x1_0000_0000
                            <= 0x1_0001_0000_0000_0000_0000 * 0x1_0000_0000) by (nonlinear_arith)
                            requires
                                0 <= extra < 0x1_0000_0000_0000_0000_0000,
                                0 <= drain_value <= 0xffff_ffff_ffff_ffff,
                        ;
                        let cost_of_getting_rid_of_change: i128 = (extra as i128 + drain_value as i128)
                            * (FIXED_ONE as i128);
                        let best_score_without_change: i128 = current + cost_of_getting_rid_of_change
                            - change_cost;
                        if best_score_without_change < current {
                            Score { raw: best_score_without_change }
                        } else {
                            Score { raw: current }
                        }
                    },
                    None => {
                        assert((exact + drain_value) * 0x1_0000_0000 > change_cost)
                            by (nonlinear_arith)
                            requires
                                exact >= 0x1_0000_0000_0000_0000_0000,
                                drain_value >= 0,
                                change_cost <= 0x3_0000_0000_0000_0000_0000_0000,
                        ;
                        Score { raw: current }
                    },
                }
            },
            None => {
                // Ok but maybe adding change could improve the metric?
                let cost_of_no_change: i128 = cs.wide_excess(self.target, Drain::none());
                assert(0 <= cost_of_no_change * 0x1_0000_0000 <= 0xffff_ffff_ffff_ffff
                    * 0x1_0000_0000) by (nonlinear_arith)
                    requires
                        0 <= cost_of_no_change <= 0xffff_ffff_ffff_ffff,
                ;
                let best_score_with_change: i128 = current - cost_of_no_change * (FIXED_ONE as i128)
                    + change_cost;
                if best_score_with_change < current {
                    Score { raw: best_score_with_change }
                } else {
                    Score { raw: current }
                }
            },
        }
    }

    /// The bound on a selection that does not meet the target.
    fn bound_when_not_met(&self, cs: &CoinSelector<'_>) -> (bound: Option<Score>)
        requires
            cs.wf(),
            !cs@.is_target_met(self.target),
        ensures
            bound == match self.spec_bound_when_not_met(cs@) {
                Some(whole) => Some(Score::spec_saturating(whole * FIXED_ONE)),
                None => None,
            },
    {
        // Step 1: select everything up until the input that hits the target.
        let (before, resize_index): (CoinSelector<'_>, usize) = match resize_point(
            cs,
            self.target,
            Drain::none(),
        ) {
            Some(point) => point,
            None => {
                return None;
            },
        };
        let to_resize: Candidate = before.candidate(resize_index);

        // We need to find the minimum fee we'd pay if we satisfy the feerate constraint. We do
        // this by imagining we had a perfect input that perfectly hit the target. The value per
        // weight unit of this perfect input is that of the one at `resize_index`, but we'll do
        // a scaled resize of it to fit perfectly:
        //
        // scale = remaining_value_to_reach_feerate / effective_value_of_resized_input
        let rate_excess: i128 = before.wide_rate_excess(self.target, Drain::none());
        let mut scaled_value: u128 = 0;
        if rate_excess < 0 {
            match resize_term((-rate_excess) as u128, to_resize, self.target.fee.rate) {
                Some(term) => {
                    scaled_value = term;
                },
                None => {
                    // we can never satisfy the constraint
                    return None;
                },
            }
        }
        // We can use the same approach for replacement we just have to use the
        // incremental relay feerate.
        if let Some(replace) = self.target.fee.replace {
            let replace_excess: i128 = before.wide_replacement_excess(self.target, Drain::none());
            if replace_excess < 0 {
                match resize_term((-replace_excess) as u128, to_resize, replace.incremental_relay_feerate) {
                    Some(term) => {
                        if term > scaled_value {
                            scaled_value = term;
                        }
                    },
                    None => {
                        // we can never satisfy the constraint
                        return None;
                    },
                }
            }
        }
        let ideal_fee: i128 = scaled_value as i128 + before.selected_value() as i128
            - self.target.value() as i128;
        Some(Score::from_whole_saturating(ideal_fee))
    }
}

impl BnbMetric for LowestFee {
    /// The fee of the transaction and the fee for spending its change later, for a selection
    /// that meets the target; `None` for one that does not.
    open spec fn score_of(&self, selection: SelectorView) -> Option<Score> {
        if selection.is_target_met(self.target) {
            Some(Score::spec_saturating(self.spec_long_term_fee(selection) * FIXED_ONE))
        } else {
            None
        }
    }

    /// The bound of [`spec_bound_when_met`](LowestFee::spec_bound_when_met) for a selection
    /// that meets the target, that of
    /// [`spec_bound_when_not_met`](LowestFee::spec_bound_when_not_met) for one that does not.
    open spec fn bound_of(&self, selection: SelectorView) -> Option<Score> {
        if selection.is_target_met(self.target) {
            Some(Score::spec_saturating(self.spec_bound_when_met(selection)))
        } else {
            match self.spec_bound_when_not_met(selection) {
                Some(whole) => Some(Score::spec_saturating(whole * FIXED_ONE)),
                None => None,
            }
        }
    }

    /// The metric wants the candidates ordered by descending value per weight unit.
    open spec fn orders_by_descending_value_pwu(&self) -> bool {
        true
    }

    fn score(&mut self, cs: &CoinSelector<'_>) -> (score: Option<Score>) {
        if !cs.is_target_met(self.target) {
            return None;
        }
        Some(Score::from_whole_saturating(self.long_term_fee(cs)))
    }

    fn bound(&mut self, cs: &CoinSelector<'_>) -> (bound: Option<Score>) {
        if cs.is_target_met(self.target) {
            Some(self.bound_when_met(cs))
        } else {
            self.bound_when_not_met(cs)
        }
    }

    fn requires_ordering_by_descending_value_pwu(&self) -> (required: bool) {
        true
    }
}

/// The metric scores a selection by what is selected alone, whatever is banned and whatever
/// the order of the candidates.
pub proof fn lemma_lowest_fee_scores_by_selection(metric: LowestFee)
    ensures
        crate::exhaustive::spec_scores_by_selection(metric),
{
    assert forall|a: SelectorView, b: SelectorView|
        a.candidates == b.candidates && a.selected == b.selected implies #[trigger] metric.score_of(a)
        == #[trigger] metric.score_of(b) by {
        crate::exhaustive::lemma_figures_by_selection(a, b);
    }
}

/// The bound of a selection is not above the selection's own score.
pub proof fn lemma_lowest_fee_bound_not_above_own_score(metric: LowestFee, selection: SelectorView)
    requires
        metric.score_of(selection) is Some,
    ensures
        metric.bound_of(selection) is Some,
        metric.bound_of(selection)->0.raw <= metric.score_of(selection)->0.raw,
{
}

/// The metric scores a selection by the fields of the selected candidates: the score stays the
/// same where a selected candidate is exchanged for one that is not selected and is equal to it
/// in every field.
pub proof fn lemma_lowest_fee_scores_by_fields(metric: LowestFee)
    ensures
        crate::exhaustive::spec_scores_by_fields(metric),
{
    assert forall|selection: SelectorView, out: usize, into: usize|
        selection.candidates.len() <= usize::MAX && out < selection.candidates.len() && into
            < selection.candidates.len() && selection.selected.contains(out)
            && !selection.selected.contains(into) && selection.candidates[out as int]
            == selection.candidates[into as int] implies metric.score_of(selection)
        == #[trigger] metric.score_of(crate::exhaustive::spec_exchanged(selection, out, into)) by {
        crate::exhaustive::lemma_figures_by_fields(selection, out, into);
    }
}

} // verus!
