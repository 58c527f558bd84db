//! The waste metric.
use vstd::prelude::*;
use crate::bnb::BnbMetric;
use crate::coin_selector::{lemma_unselected_in_range, Candidate, CoinSelector, SelectorView};
use crate::drain::{ChangePolicy, Drain};
use crate::feerate::FeeRate;
use crate::metrics::{change_lower_bound, resize_point, spec_change_lower_bound, spec_first_met};
use crate::score::{
    saturating_add, saturating_mul, scaled_quotient_ceil, spec_clamp, spec_scaled_quotient_ceil,
    Score, FIXED_ONE, QUOTIENT_LIMIT,
};
use crate::target::Target;

verus! {

/// The "waste" metric used by bitcoin core.
///
/// The waste of a selection is what the weight of its inputs costs now beyond what it would
/// cost at the long term feerate, plus the cost of the change output where there is one and the
/// excess where there is none.
///
/// ## WARNING: Waste metric considered wasteful
///
/// Note that bitcoin core at the time of writing uses the waste metric to
///
/// 1. minimise the waste while searching for changeless solutions.
/// 2. It tiebreaks multiple valid selections from different algorithms (which do not try and
///    minimise waste) with waste.
///
/// This is **very** different from minimising waste in general which is what this metric will
/// do when used in [`CoinSelector::bnb_solutions`]. The waste metric tends to over consolidate
/// funds. If the `long_term_feerate` is even slightly higher than the current feerate
/// (specified in `target`) it will select all your coins!
#[derive(Clone, Copy, Debug)]
pub struct Waste {
    /// The target parameters of the resultant selection.
    pub target: Target,
    /// The longterm feerate as part of the waste metric.
    pub long_term_feerate: FeeRate,
    /// Policy to determine the change output (if any) of a given selection.
    pub change_policy: ChangePolicy,
}

/// The discount that counts the whole excess as waste.
pub open spec fn spec_include_excess() -> Score {
    Score { raw: FIXED_ONE as i128 }
}

/// The discount that counts none of the excess as waste.
pub open spec fn spec_ignore_excess() -> Score {
    Score { raw: 0 }
}

/// The selection with the last `count` of its unselected candidates selected.
pub open spec fn spec_select_last(selection: SelectorView, count: int) -> SelectorView {
    let unselected = selection.unselected_indices();
    SelectorView {
        selected: Set::new(
            |i: usize|
                selection.selected.contains(i) || exists|k: int|
                    unselected.len() - count <= k < unselected.len() && 0 <= k
                        && #[trigger] unselected[k] == i,
        ),
        ..selection
    }
}

/// The weight that a candidate like `candidate` would need to bring in the value
/// `value_to_slurp` at `feerate` with its own value per weight unit, rounded down; never above
/// zero. A weight of no value stands for minus 2^126, as one beyond that does.
pub open spec fn spec_slurp(candidate: Candidate, value_to_slurp: int, feerate: FeeRate) -> int {
    let effective_value = candidate.spec_effective_value(feerate);
    let size = if value_to_slurp < 0 {
        -value_to_slurp
    } else {
        value_to_slurp
    };
    let effective_size = if effective_value < 0 {
        -effective_value
    } else {
        effective_value
    };
    if value_to_slurp == 0 || (value_to_slurp > 0) == (effective_value > 0) {
        0
    } else if effective_value == 0 {
        if value_to_slurp < 0 {
            -QUOTIENT_LIMIT
        } else {
            0
        }
    } else if size * candidate.weight <= u128::MAX && spec_scaled_quotient_ceil(
        size * candidate.weight,
        effective_size,
    ) < QUOTIENT_LIMIT {
        -spec_scaled_quotient_ceil(size * candidate.weight, effective_size)
    } else {
        -QUOTIENT_LIMIT
    }
}

/// The weight that a candidate like `candidate` would need to bring in the value `size` with
/// its own value per weight unit, negated and rounded down. A weight of no value stands for
/// minus 2^126, as one beyond that does.
pub open spec fn spec_weight_for_value(candidate: Candidate, size: int) -> int {
    let weight = (size * candidate.weight + candidate.value - 1) / (candidate.value as int);
    if size == 0 {
        0
    } else if candidate.value == 0 {
        -QUOTIENT_LIMIT
    } else if size * candidate.weight <= u128::MAX && weight < QUOTIENT_LIMIT {
        -weight
    } else {
        -QUOTIENT_LIMIT
    }
}

/// Returns the "perfect weight" for this candidate to slurp up a given value with `feerate`
/// while not changing the candidate's value/weight ratio, where that weight is negative, and
/// zero where it is not.
///
/// Used to pretend that a candidate had precisely `value_to_slurp` + fee needed to include it.
/// It tells you how much weight such a perfect candidate would have if it had the same value
/// per weight unit as `candidate`.
fn slurp_wv(candidate: Candidate, value_to_slurp: i128, feerate: FeeRate) -> (weight: i128)
    requires
        -0x8_0000_0000_0000_0000_0000_0000 <= value_to_slurp <= 0x8_0000_0000_0000_0000_0000_0000,
    ensures
        weight == spec_slurp(candidate, value_to_slurp as int, feerate),
        -QUOTIENT_LIMIT <= weight <= 0,
{
    let effective_value: i128 = candidate.effective_value(feerate).raw;
    assert(-0xffff_ffff * 0xffff_ffff_ffff_ffff <= effective_value <= 0xffff_ffff_ffff_ffff
        * 0x1_0000_0000) by (nonlinear_arith)
        requires
            effective_value == candidate.value * 0x1_0000_0000 - candidate.weight * feerate.raw,
            0 <= candidate.value <= 0xffff_ffff_ffff_ffff,
            0 <= candidate.weight <= 0xffff_ffff,
            0 <= feerate.raw <= 0xffff_ffff_ffff_ffff,
    ;
    if value_to_slurp == 0 || (value_to_slurp > 0) == (effective_value > 0) {
        return 0;
    }
    if effective_value == 0 {
        return if value_to_slurp < 0 {
            -(QUOTIENT_LIMIT as i128)
        } else {
            0
        };
    }
    let size: u128 = if value_to_slurp < 0 {
        (-value_to_slurp) as u128
    } else {
        value_to_slurp as u128
    };
    let effective_size: u128 = if effective_value < 0 {
        (-effective_value) as u128
    } else {
        effective_value as u128
    };
    match size.checked_mul(candidate.weight as u128) {
        Some(numerator) => match scaled_quotient_ceil(numerator, effective_size) {
            Some(quotient) => -(quotient as i128),
            None => -(QUOTIENT_LIMIT as i128),
        },
        None => -(QUOTIENT_LIMIT as i128),
    }
}

/// The weight that a candidate like `candidate` would need to bring in the value `size` with
/// its own value per weight unit, negated.
fn weight_for_value(candidate: Candidate, size: u128) -> (weight: i128)
    ensures
        weight == spec_weight_for_value(candidate, size as int),
        -QUOTIENT_LIMIT <= weight <= 0,
{
    if size == 0 {
        return 0;
    }
    if candidate.value == 0 {
        return -(QUOTIENT_LIMIT as i128);
    }
    let value: u128 = candidate.value as u128;
    match size.checked_mul(candidate.weight as u128) {
        Some(numerator) => {
            let q: u128 = numerator / value;
            let r: u128 = numerator % value;
            proof {
                let (x, d) = (numerator as int, value as int);
                vstd::arithmetic::div_mod::lemma_fundamental_div_mod(x, d);
                if r > 0 {
                    assert(x + d - 1 == (q + 1) * d + (r - 1)) by (nonlinear_arith)
                        requires
                            x == d * q + r,
                    ;
                    vstd::arithmetic::div_mod::lemma_fundamental_div_mod_converse(
                        x + d - 1,
                        d,
                        q + 1,
                        r - 1,
                    );
                } else {
                    assert(x + d - 1 == q * d + (d - 1)) by (nonlinear_arith)
                        requires
                            x == d * q + r,
                            r == 0,
                    ;
                    vstd::arithmetic::div_mod::lemma_fundamental_div_mod_converse(
                        x + d - 1,
                        d,
                        q as int,
                        d - 1,
                    );
                }
            }
            if q >= QUOTIENT_LIMIT - 1 {
                if q == QUOTIENT_LIMIT - 1 && r == 0 {
                    -(q as i128)
                } else {
                    -(QUOTIENT_LIMIT as i128)
                }
            } else if r > 0 {
                -((q + 1) as i128)
            } else {
                -(q as i128)
            }
        },
        None => -(QUOTIENT_LIMIT as i128),
    }
}

impl Waste {
    /// How far the feerate of the target is above the long term feerate, in the raw units of a
    /// fee rate.
    pub open spec fn spec_rate_diff(&self) -> int {
        self.target.fee.rate.raw - self.long_term_feerate.raw
    }

    /// Whether selecting goes on with the `count`th unselected candidate from the back. Where
    /// a selection without change is looked for, it does while the candidate has a negative
    /// effective value or the selection with it has no change; else it does while the
    /// candidate has a negative effective value and the selection with it meets the target.
    pub open spec fn spec_keeps(&self, selection: SelectorView, count: int, changeless: bool) -> bool {
        let unselected = selection.unselected_indices();
        let candidate = selection.candidates[unselected[unselected.len() - count] as int];
        let with = spec_select_last(selection, count);
        let negative = candidate.spec_effective_value(self.target.fee.rate) < 0;
        if changeless {
            negative || with.drain_value(self.target, self.change_policy) is None
        } else {
            negative && with.is_target_met(self.target)
        }
    }

    /// How many unselected candidates are selected from the back when selecting starts after
    /// `count` of them and goes on as long as [`spec_keeps`](Waste::spec_keeps) says.
    pub open spec fn spec_run(&self, selection: SelectorView, count: int, changeless: bool) -> int
        decreases selection.unselected_indices().len() - count,
    {
        if 0 <= count < selection.unselected_indices().len() && self.spec_keeps(
            selection,
            count + 1,
            changeless,
        ) {
            self.spec_run(selection, count + 1, changeless)
        } else {
            count
        }
    }

    /// The waste of a selection that meets the target with the drain that it is bound to have,
    /// where the feerate is not below the long term feerate: the waste of the selection as it
    /// is or, where that is less and change is not bound to come, the waste without the excess
    /// of the selection that also holds the unselected candidates of negative effective value
    /// that leave the target met (with the excess where every unselected candidate is one of
    /// them).
    pub open spec fn spec_bound_met(&self, selection: SelectorView) -> int {
        let change_bound = spec_change_lower_bound(selection, self.target, self.change_policy);
        let current = selection.waste(
            self.target,
            self.long_term_feerate,
            selection.drain(self.target, self.change_policy),
            spec_include_excess(),
        );
        let run = self.spec_run(selection, 0, false);
        let least = spec_select_last(selection, run);
        let rest = least.unselected_indices();
        let finishing = least.candidates[rest.last() as int];
        let without_change = if rest.len() > 0 && finishing.spec_effective_value(
            self.target.fee.rate,
        ) < 0 {
            spec_clamp(
                least.waste(
                    self.target,
                    self.long_term_feerate,
                    Drain::spec_none(),
                    spec_ignore_excess(),
                ) + spec_clamp(
                    spec_slurp(
                        finishing,
                        -least.rate_excess(self.target, Drain::spec_none()),
                        self.target.fee.rate,
                    ) * self.spec_rate_diff(),
                ),
            ) as int
        } else {
            least.waste(
                self.target,
                self.long_term_feerate,
                Drain::spec_none(),
                spec_include_excess(),
            )
        };
        if change_bound == Drain::spec_none() && run > 0 && without_change < current {
            without_change
        } else {
            current
        }
    }

    /// The waste of the lightest inputs that could meet the target with the drain that the
    /// selection is bound to have, where the feerate is not below the long term feerate: the
    /// candidates are selected up to the one that has the target met, and that one is resized
    /// by its value per weight unit to just meet it. `None` where no selection that follows
    /// meets the target.
    pub open spec fn spec_bound_not_met(&self, selection: SelectorView) -> Option<int> {
        let change_bound = spec_change_lower_bound(selection, self.target, self.change_policy);
        match spec_first_met(selection, self.target, change_bound) {
            Some(position) => {
                let before = selection.select_upto(position - 1);
                let to_slurp = selection.candidates[selection.order[position - 1] as int];
                let remaining_rate = before.rate_excess(self.target, change_bound);
                let remaining_abs = before.replacement_excess(self.target, change_bound);
                let for_abs = spec_weight_for_value(
                    to_slurp,
                    if remaining_abs < 0 {
                        -remaining_abs
                    } else {
                        0
                    },
                );
                let for_rate = spec_slurp(
                    to_slurp,
                    if remaining_rate < 0 {
                        remaining_rate
                    } else {
                        0
                    },
                    self.target.fee.rate,
                );
                let ideal_next_weight = if for_abs > for_rate {
                    for_abs
                } else {
                    for_rate
                };
                let weight_lower_bound = before.input_weight() + ideal_next_weight;
                Some(
                    spec_clamp(
                        spec_clamp(weight_lower_bound * self.spec_rate_diff())
                            + change_bound.weights.spec_waste(
                            self.target.fee.rate,
                            self.long_term_feerate,
                            self.target.outputs.n_outputs as int,
                        ),
                    ) as int,
                )
            },
            None => None,
        }
    }

    /// The bound where the feerate is below the long term feerate, so that each input by
    /// itself has negative waste: the waste, without the excess, of every candidate selected
    /// with the change of the selection that holds every effective one or, where that is less
    /// and change is not bound to come, of the heaviest selection without change. `None` where
    /// the selection of every effective candidate does not meet the target.
    pub open spec fn spec_bound_consolidating(&self, selection: SelectorView) -> Option<int> {
        let change_bound = spec_change_lower_bound(selection, self.target, self.change_policy);
        let effective = selection.select_all_effective(self.target.fee.rate);
        let everything = effective.select_all().waste(
            self.target,
            self.long_term_feerate,
            effective.drain(self.target, self.change_policy),
            spec_ignore_excess(),
        );
        let run = self.spec_run(selection, 0, true);
        let no_change = spec_select_last(selection, run).waste(
            self.target,
            self.long_term_feerate,
            Drain::spec_none(),
            spec_ignore_excess(),
        );
        if !effective.is_target_met(self.target) {
            None
        } else if change_bound == Drain::spec_none() && run > 0 && no_change < everything {
            Some(no_change)
        } else {
            Some(everything)
        }
    }

    /// Selects unselected candidates from the back of the order as long as
    /// [`spec_keeps`](Waste::spec_keeps) says, and returns the selection with them, `None`
    /// where there is none of them.
    fn select_from_back<'a>(&self, cs: &CoinSelector<'a>, changeless: bool) -> (selection: Option<
        CoinSelector<'a>,
    >)
        requires
            cs.wf(),
        ensures
            match selection {
                Some(selection) => {
                    &&& self.spec_run(cs@, 0, changeless) > 0
                    &&& selection.wf()
                    &&& selection@ == spec_select_last(cs@, self.spec_run(cs@, 0, changeless))
                },
                None => self.spec_run(cs@, 0, changeless) == 0,
            },
    {
        let unselected: Vec<(usize, Candidate)> = cs.unselected();
        let ghost indices = cs@.unselected_indices();
        proof {
            lemma_unselected_in_range(cs@, cs@.order.len() as int);
            assert(spec_select_last(cs@, 0).selected =~= cs@.selected);
        }
        let n: usize = unselected.len();
        let mut current: CoinSelector<'a> = cs.clone();
        let mut count: usize = 0;
        while count < n
            invariant
                count <= n,
                n == indices.len(),
                cs.wf(),
                current.wf(),
                indices == cs@.unselected_indices(),
                unselected@ == cs@.with_candidates(indices),
                forall|j: int| 0 <= j < indices.len() ==> cs@.available(#[trigger] indices[j]),
                current@ == spec_select_last(cs@, count as int),
                self.spec_run(cs@, 0, changeless) == self.spec_run(cs@, count as int, changeless),
            ensures
                count <= n,
                current.wf(),
                current@ == spec_select_last(cs@, count as int),
                self.spec_run(cs@, 0, changeless) == count,
            decreases n - count,
        {
            let (index, candidate): (usize, Candidate) = unselected[n - 1 - count];
            assert(index == indices[n - 1 - count] && candidate == cs@.candidates[indices[n - 1
                - count] as int]);
            assert(cs@.available(indices[n - 1 - count]));
            let mut with: CoinSelector<'a> = current.clone();
            with.select(index);
            proof {
                let next = spec_select_last(cs@, count + 1);
                assert forall|i: usize| with@.selected.contains(i) == next.selected.contains(i) by {
                    if i == index {
                        assert(indices[n - 1 - count] == i);
                    }
                }
                assert(with@.selected =~= next.selected);
            }
            let negative: bool = candidate.effective_value(self.target.fee.rate).raw < 0;
            let keep: bool = if changeless {
                negative || with.drain_value(self.target, self.change_policy).is_none()
            } else {
                negative && with.is_target_met(self.target)
            };
            if !keep {
                break ;
            }
            current = with;
            count += 1;
        }
        if count == 0 {
            None
        } else {
            Some(current)
        }
    }

    /// The bound on a selection that meets the target with the drain that it is bound to have,
    /// where the feerate is not below the long term feerate.
    fn bound_met(&self, cs: &CoinSelector<'_>, change_bound: Drain) -> (bound: Score)
        requires
            cs.wf(),
            change_bound == spec_change_lower_bound(cs@, self.target, self.change_policy),
        ensures
            bound.raw == self.spec_bound_met(cs@),
    {
        let rate_diff: i128 = self.target.fee.rate.raw as i128 - self.long_term_feerate.raw as i128;
        let current_change: Drain = cs.drain(self.target, self.change_policy);
        // first lower bound candidate is just the selection itself
        let mut lower_bound: i128 = cs.waste(
            self.target,
            self.long_term_feerate,
            current_change,
            Score { raw: FIXED_ONE as i128 },
        ).raw;
        // But don't stop there we might be able to select negative value inputs which might
        // lower excess and reduce waste either by:
        // - removing the need for a change output
        // - reducing the excess if the current selection is changeless (only possible when
        //   rate_diff is small).
        if change_bound.is_none() {
            if let Some(least) = self.select_from_back(cs, false) {
                let rest: Vec<(usize, Candidate)> = least.unselected();
                proof {
                    lemma_unselected_in_range(least@, least@.order.len() as int);
                }
                let finishing: Option<Candidate> = if rest.len() > 0 {
                    let (_, candidate): (usize, Candidate) = rest[rest.len() - 1];
                    assert(candidate == least@.candidates[least@.unselected_indices().last() as int]);
                    if candidate.effective_value(self.target.fee.rate).raw < 0 {
                        Some(candidate)
                    } else {
                        None
                    }
                } else {
                    None
                };
                let lower_bound_without_change: i128 = match finishing {
                    Some(finishing_input) => {
                        // NOTE we are slurping negative value here to try and reduce excess in
                        // the hopes of getting rid of the change output
                        let value_to_slurp: i128 = -least.wide_rate_excess(self.target, Drain::none());
                        let weight_to_extinguish_excess: i128 = slurp_wv(
                            finishing_input,
                            value_to_slurp,
                            self.target.fee.rate,
                        );
                        let waste_to_extinguish_excess: i128 = saturating_mul(
                            weight_to_extinguish_excess,
                            rate_diff,
                        );
                        // return: waste after excess reduction
                        saturating_add(
                            least.waste(
                                self.target,
                                self.long_term_feerate,
                                Drain::none(),
                                Score { raw: 0 },
                            ).raw,
                            waste_to_extinguish_excess,
                        )
                    },
                    None => least.waste(
                        self.target,
                        self.long_term_feerate,
                        Drain::none(),
                        Score { raw: FIXED_ONE as i128 },
                    ).raw,
                };
                if lower_bound_without_change < lower_bound {
                    lower_bound = lower_bound_without_change;
                }
            }
        }
        Score { raw: lower_bound }
    }

    /// The bound on a selection that does not meet the target with the drain that it is bound
    /// to have, where the feerate is not below the long term feerate.
    fn bound_not_met(&self, cs: &CoinSelector<'_>, change_bound: Drain) -> (bound: Option<Score>)
        requires
            cs.wf(),
            change_bound == spec_change_lower_bound(cs@, self.target, self.change_policy),
            !cs@.is_target_met_with_drain(self.target, change_bound),
        ensures
            bound == match self.spec_bound_not_met(cs@) {
                Some(raw) => Some(Score { raw: raw as i128 }),
                None => None,
            },
    {
        let rate_diff: i128 = self.target.fee.rate.raw as i128 - self.long_term_feerate.raw as i128;
        // If feerate >= long_term_feerate, you *might* think that the waste lower bound here is
        // just the fewest number of inputs we need to meet the target but **no**. Consider if
        // there is 1 sat remaining to reach target. Should you add all the weight of the next
        // input for the waste calculation? *No* this leads to a pessimistic lower bound even if
        // we ignore the excess because it adds too much weight.
        //
        // Step 1: select everything up until the input that hits the target.
        let (before, slurp_index): (CoinSelector<'_>, usize) = match resize_point(
            cs,
            self.target,
            change_bound,
        ) {
            Some(point) => point,
            None => {
                return None;
            },
        };
        let to_slurp: Candidate = before.candidate(slurp_index);
        // Step 2: We pretend that the final input exactly cancels out the remaining excess by
        // taking whatever value we want from it but at the value per weight of the real input.
        //
        // satisfying absolute and feerate constraints requires different calculations so we do
        // them both independently and find which requires the most weight of the next input.
        let remaining_rate: i128 = before.wide_rate_excess(self.target, change_bound);
        let remaining_abs: i128 = before.wide_replacement_excess(self.target, change_bound);
        let weight_to_satisfy_abs: i128 = weight_for_value(
            to_slurp,
            if remaining_abs < 0 {
                (-remaining_abs) as u128
            } else {
                0
            },
        );
        let weight_to_satisfy_rate: i128 = slurp_wv(
            to_slurp,
            if remaining_rate < 0 {
                remaining_rate
            } else {
                0
            },
            self.target.fee.rate,
        );
        let ideal_next_weight: i128 = if weight_to_satisfy_abs > weight_to_satisfy_rate {
            weight_to_satisfy_abs
        } else {
            weight_to_satisfy_rate
        };
        let weight_lower_bound: i128 = before.input_weight() as i128 + ideal_next_weight;
        let waste: i128 = saturating_add(
            saturating_mul(weight_lower_bound, rate_diff),
            change_bound.weights.waste(
                self.target.fee.rate,
                self.long_term_feerate,
                self.target.outputs.n_outputs,
            ).raw,
        );
        Some(Score { raw: waste })
    }

    /// The bound where the feerate is below the long term feerate.
    fn bound_consolidating(&self, cs: &CoinSelector<'_>, change_bound: Drain) -> (bound: Option<Score>)
        requires
            cs.wf(),
            change_bound == spec_change_lower_bound(cs@, self.target, self.change_policy),
        ensures
            bound == match self.spec_bound_consolidating(cs@) {
                Some(raw) => Some(Score { raw: raw as i128 }),
                None => None,
            },
    {
        // When long_term_feerate > current feerate each input by itself has negative waste.
        // This doesn't mean that waste monotonically decreases as you add inputs because
        // somewhere along the line adding an input might cause the change policy to add a
        // change output which could increase waste.
        //
        // So we have to try two things and see which one is best to find the lower bound:
        // 1. try selecting everything regardless of change
        let mut all: CoinSelector<'_> = cs.clone();
        // ... but first check that by selecting all effective we can actually reach target
        all.select_all_effective(self.target.fee.rate);
        if !all.is_target_met(self.target) {
            return None;
        }
        let change_at_value_optimum: Drain = all.drain(self.target, self.change_policy);
        all.select_all();
        // NOTE: we use the change from our "all effective" selection for min waste since
        // selecting all might not have change but in that case we'll catch it below.
        let mut lower_bound: i128 = all.waste(
            self.target,
            self.long_term_feerate,
            change_at_value_optimum,
            Score { raw: 0 },
        ).raw;
        if change_bound.is_none() {
            // 2. select the highest weight solution with no change
            if let Some(heaviest) = self.select_from_back(cs, true) {
                let no_change_waste: i128 = heaviest.waste(
                    self.target,
                    self.long_term_feerate,
                    Drain::none(),
                    Score { raw: 0 },
                ).raw;
                if no_change_waste < lower_bound {
                    lower_bound = no_change_waste;
                }
            }
        }
        Some(Score { raw: lower_bound })
    }
}

impl BnbMetric for Waste {
    /// The waste of a selection that meets the target with the change output that the policy
    /// gives it, with the whole excess counted; `None` for one that does not.
    open spec fn score_of(&self, selection: SelectorView) -> Option<Score> {
        let drain = selection.drain(self.target, self.change_policy);
        if selection.is_target_met_with_drain(self.target, drain) {
            Some(
                Score {
                    raw: selection.waste(
                        self.target,
                        self.long_term_feerate,
                        drain,
                        spec_include_excess(),
                    ) as i128,
                },
            )
        } else {
            None
        }
    }

    /// Where the feerate is below the long term feerate, the bound of
    /// [`spec_bound_consolidating`](Waste::spec_bound_consolidating). Else that of
    /// [`spec_bound_met`](Waste::spec_bound_met) for a selection that meets the target with
    /// the drain that it is bound to have, and that of
    /// [`spec_bound_not_met`](Waste::spec_bound_not_met) for one that does not.
    open spec fn bound_of(&self, selection: SelectorView) -> Option<Score> {
        let change_bound = spec_change_lower_bound(selection, self.target, self.change_policy);
        if self.spec_rate_diff() < 0 {
            match self.spec_bound_consolidating(selection) {
                Some(raw) => Some(Score { raw: raw as i128 }),
                None => None,
            }
        } else if selection.is_target_met_with_drain(self.target, change_bound) {
            Some(Score { raw: self.spec_bound_met(selection) as i128 })
        } else {
            match self.spec_bound_not_met(selection) {
                Some(raw) => Some(Score { raw: raw as i128 }),
                None => None,
            }
        }
    }

    /// The metric wants the candidates ordered by descending value per weight unit.
    open spec fn orders_by_descending_value_pwu(&self) -> bool {
        true
    }

    fn score(&mut self, cs: &CoinSelector<'_>) -> (score: Option<Score>) {
        let drain: Drain = cs.drain(self.target, self.change_policy);
        if !cs.is_target_met_with_drain(self.target, drain) {
            return None;
        }
        Some(cs.waste(self.target, self.long_term_feerate, drain, Score { raw: FIXED_ONE as i128 }))
    }

    fn bound(&mut self, cs: &CoinSelector<'_>) -> (bound: Option<Score>) {
        // whether from this coin selection it's possible to avoid change
        let change_bound: Drain = change_lower_bound(cs, self.target, self.change_policy);
        if self.target.fee.rate.raw >= self.long_term_feerate.raw {
            // Our lower bound algorithms differ depending on whether we have already met the
            // target or not.
            if cs.is_target_met_with_drain(self.target, change_bound) {
                Some(self.bound_met(cs, change_bound))
            } else {
                self.bound_not_met(cs, change_bound)
            }
        } else {
            self.bound_consolidating(cs, change_bound)
        }
    }

    fn requires_ordering_by_descending_value_pwu(&self) -> (required: bool) {
        true
    }
}

/// The metric scores a selection by what is selected alone, whatever is banned and whatever
/// the order of the candidates.
pub proof fn lemma_waste_scores_by_selection(metric: Waste)
    ensures
        crate::exhaustive::spec_scores_by_selection(metric),
{
    assert forall|a: SelectorView, b: SelectorView|
        a.candidates == b.candidates && a.selected == b.selected implies #[trigger] metric.score_of(a)
        == #[trigger] metric.score_of(b) by {
        crate::exhaustive::lemma_figures_by_selection(a, b);
    }
}

/// The metric scores a selection by the fields of the selected candidates: the score stays the
/// same where a selected candidate is exchanged for one that is not selected and is equal to it
/// in every field.
pub proof fn lemma_waste_scores_by_fields(metric: Waste)
    ensures
        crate::exhaustive::spec_scores_by_fields(metric),
{
    assert forall|selection: SelectorView, out: usize, into: usize|
        selection.candidates.len() <= usize::MAX && out < selection.candidates.len() && into
            < selection.candidates.len() && selection.selected.contains(out)
            && !selection.selected.contains(into) && selection.candidates[out as int]
            == selection.candidates[into as int] implies metric.score_of(selection)
        == #[trigger] metric.score_of(crate::exhaustive::spec_exchanged(selection, out, into)) by {
        crate::exhaustive::lemma_figures_by_fields(selection, out, into);
    }
}

} // verus!
