//! The selection state and the arithmetic on it.
use vstd::prelude::*;
use std::collections::BTreeSet;
use crate::drain::{ChangePolicy, Drain, DrainWeights};
use crate::feerate::FeeRate;
use crate::score::{Score, FIXED_ONE};
use crate::target::{Target, TargetOutputs};
use crate::{spec_varint_size, varint_size};
use crate::{TR_KEYSPEND_SATISFACTION_WEIGHT, TXIN_BASE_WEIGHT, TX_FIXED_FIELD_WEIGHT};

verus! {

broadcast use vstd::std_specs::btree::group_btree_axioms;

/// A `Candidate` represents an input candidate for [`CoinSelector`].
///
/// This can either be a single UTXO, or a group of UTXOs that should be spent together.
#[derive(Debug, Clone, Copy, PartialEq, Eq)]
pub struct Candidate {
    /// Total value of the UTXO(s) that this [`Candidate`] represents.
    pub value: u64,
    /// Total weight of including this/these UTXO(s).
    /// `txin` fields: `prevout`, `nSequence`, `scriptSigLen`, `scriptSig`, `scriptWitnessLen`,
    /// `scriptWitness` should all be included.
    pub weight: u32,
    /// Total number of inputs; so we can calculate extra `varint` weight due to `vin` len
    /// changes.
    pub input_count: usize,
    /// Whether this [`Candidate`] contains at least one segwit spend.
    pub is_segwit: bool,
}

impl Candidate {
    /// The effective value of this candidate in the raw units of a [`Score`]: its value minus
    /// the fee for its weight at `feerate`, not rounded.
    pub open spec fn spec_effective_value(&self, feerate: FeeRate) -> int {
        self.value * FIXED_ONE - self.weight * feerate.raw
    }

    /// Create a [`Candidate`] input that spends a single taproot keyspend output.
    pub fn new_tr_keyspend(value: u64) -> (candidate: Candidate)
        ensures
            candidate == (Candidate {
                value,
                weight: (TXIN_BASE_WEIGHT + TR_KEYSPEND_SATISFACTION_WEIGHT) as u32,
                input_count: 1,
                is_segwit: true,
            }),
    {
        let weight: u32 = TXIN_BASE_WEIGHT + TR_KEYSPEND_SATISFACTION_WEIGHT;
        Candidate { value, weight, input_count: 1, is_segwit: true }
    }

    /// Create a new [`Candidate`] that represents a single input.
    ///
    /// `satisfaction_weight` is the weight of `scriptSigLen + scriptSig + scriptWitnessLen +
    /// scriptWitness`.
    pub fn new(value: u64, satisfaction_weight: u32, is_segwit: bool) -> (candidate: Candidate)
        requires
            TXIN_BASE_WEIGHT + satisfaction_weight <= u32::MAX,
        ensures
            candidate == (Candidate {
                value,
                weight: (TXIN_BASE_WEIGHT + satisfaction_weight) as u32,
                input_count: 1,
                is_segwit,
            }),
    {
        let weight: u32 = TXIN_BASE_WEIGHT + satisfaction_weight;
        Candidate { value, weight, input_count: 1, is_segwit }
    }

    /// Effective value of this input candidate: `actual_value - input_weight * feerate`.
    pub fn effective_value(&self, feerate: FeeRate) -> (value: Score)
        ensures
            value.raw == self.spec_effective_value(feerate),
    {
        let own: u64 = self.value;
        let weight: u32 = self.weight;
        let rate: u64 = feerate.raw;
        assert(0 <= own * 0x1_0000_0000 <= 0xffff_ffff_ffff_ffff * 0x1_0000_0000
            && 0 <= weight * rate <= 0xffff_ffff * 0xffff_ffff_ffff_ffff) by (nonlinear_arith)
            requires
                0 <= own <= 0xffff_ffff_ffff_ffff,
                0 <= weight <= 0xffff_ffff,
                0 <= rate <= 0xffff_ffff_ffff_ffff,
        ;
        Score { raw: (own as i128) * (FIXED_ONE as i128) - (weight as i128) * (rate as i128) }
    }

    /// Value per weight unit, rounded down to a multiple of 2^-32.
    pub fn value_pwu(&self) -> (value_pwu: Score)
        requires
            self.weight > 0,
        ensures
            value_pwu.raw == (self.value * FIXED_ONE) / (self.weight as int),
    {
        let own: u64 = self.value;
        assert(0 <= own * 0x1_0000_0000 <= 0xffff_ffff_ffff_ffff * 0x1_0000_0000) by (nonlinear_arith)
            requires
                0 <= own <= 0xffff_ffff_ffff_ffff,
        ;
        let scaled: u128 = (own as u128) * (FIXED_ONE as u128);
        Score { raw: (scaled / (self.weight as u128)) as i128 }
    }

    /// The amount of *effective value* you receive per weight unit from adding this candidate
    /// as an input: its value per weight unit, rounded down, minus `feerate`.
    pub fn effective_value_pwu(&self, feerate: FeeRate) -> (value_pwu: Score)
        requires
            self.weight > 0,
        ensures
            value_pwu.raw == (self.value * FIXED_ONE) / (self.weight as int) - feerate.raw,
    {
        Score { raw: self.value_pwu().raw - feerate.raw as i128 }
    }

    /// The amount of fee you have to pay per satoshi of value you add from this input, rounded
    /// down to a multiple of 2^-32.
    ///
    /// The value is never negative but values above one mean the input has negative
    /// [*effective value*](Self::effective_value) at this `feerate`.
    pub fn fee_per_value(&self, feerate: FeeRate) -> (fee: Score)
        requires
            self.value > 0,
        ensures
            fee.raw == (self.weight * feerate.raw) / (self.value as int),
    {
        let implied: i128 = self.implied_fee(feerate).raw;
        Score { raw: ((implied as u128) / (self.value as u128)) as i128 }
    }

    /// The (minimum) fee you'd have to pay to add this input to a transaction as implied by the
    /// `feerate`, not rounded.
    pub fn implied_fee(&self, feerate: FeeRate) -> (fee: Score)
        ensures
            fee.raw == self.weight * feerate.raw,
            0 <= fee.raw,
    {
        let weight: u32 = self.weight;
        let rate: u64 = feerate.raw;
        assert(0 <= weight * rate <= 0xffff_ffff * 0xffff_ffff_ffff_ffff) by (nonlinear_arith)
            requires
                0 <= weight <= 0xffff_ffff,
                0 <= rate <= 0xffff_ffff_ffff_ffff,
        ;
        Score { raw: (weight as i128) * (rate as i128) }
    }
}

/// What is added up over the selected candidates.
#[derive(Debug, Clone, Copy, PartialEq, Eq)]
pub enum Measure {
    /// The candidate's value.
    Value,
    /// The candidate's weight.
    Weight,
    /// The candidate's number of inputs.
    InputCount,
    /// One for a candidate without a segwit spend, zero for one with.
    Legacy,
    /// One for a candidate with a segwit spend, zero for one without.
    Segwit,
}

impl Measure {
    /// What `candidate` contributes to a sum of this measure.
    pub open spec fn of(self, candidate: Candidate) -> int {
        match self {
            Measure::Value => candidate.value as int,
            Measure::Weight => candidate.weight as int,
            Measure::InputCount => candidate.input_count as int,
            Measure::Legacy => if candidate.is_segwit {
                0
            } else {
                1
            },
            Measure::Segwit => if candidate.is_segwit {
                1
            } else {
                0
            },
        }
    }
}

/// The sum of `measure` over those of the first `k` candidates whose index is in `selected`.
pub open spec fn spec_sum(
    candidates: Seq<Candidate>,
    selected: Set<usize>,
    measure: Measure,
    k: int,
) -> int
    decreases k,
{
    if k <= 0 {
        0
    } else {
        spec_sum(candidates, selected, measure, k - 1) + if selected.contains((k - 1) as usize) {
            measure.of(candidates[k - 1])
        } else {
            0
        }
    }
}

/// A sum grows with the prefix and with the set: over a subset and a shorter prefix it is never
/// larger, and it is never negative.
pub proof fn lemma_sum_monotonic(
    candidates: Seq<Candidate>,
    smaller: Set<usize>,
    larger: Set<usize>,
    measure: Measure,
    i: int,
    j: int,
)
    requires
        smaller.subset_of(larger),
        i <= j,
    ensures
        0 <= spec_sum(candidates, smaller, measure, i) <= spec_sum(candidates, larger, measure, j),
    decreases j,
{
    if j > 0 {
        if i < j {
            lemma_sum_monotonic(candidates, smaller, larger, measure, i, j - 1);
        } else {
            lemma_sum_monotonic(candidates, smaller, larger, measure, i - 1, j - 1);
        }
    }
}

/// Adding the index `index` to the set adds that candidate's measure to every sum over a
/// prefix that holds it, and nothing to the others.
pub proof fn lemma_sum_insert(
    candidates: Seq<Candidate>,
    selected: Set<usize>,
    measure: Measure,
    index: usize,
    k: int,
)
    requires
        !selected.contains(index),
        k <= usize::MAX,
    ensures
        spec_sum(candidates, selected.insert(index), measure, k) == spec_sum(
            candidates,
            selected,
            measure,
            k,
        ) + if index < k {
            measure.of(candidates[index as int])
        } else {
            0
        },
    decreases k,
{
    if k > 0 {
        lemma_sum_insert(candidates, selected, measure, index, k - 1);
    }
}

/// Exchanging a selected candidate for one that is not selected and is equal to it in every
/// field changes no sum.
pub proof fn lemma_sum_exchange(
    candidates: Seq<Candidate>,
    selected: Set<usize>,
    measure: Measure,
    out: usize,
    into: usize,
)
    requires
        candidates.len() <= usize::MAX,
        out < candidates.len(),
        into < candidates.len(),
        selected.contains(out),
        !selected.contains(into),
        candidates[out as int] == candidates[into as int],
    ensures
        spec_sum(candidates, selected.remove(out).insert(into), measure, candidates.len() as int)
            == spec_sum(candidates, selected, measure, candidates.len() as int),
{
    let rest = selected.remove(out);
    let n = candidates.len() as int;
    assert(rest.insert(out) =~= selected);
    lemma_sum_insert(candidates, rest, measure, out, n);
    lemma_sum_insert(candidates, rest, measure, into, n);
}

/// The sum of a count over a prefix is never above the length of the prefix.
pub proof fn lemma_count_bounded(
    candidates: Seq<Candidate>,
    selected: Set<usize>,
    measure: Measure,
    k: int,
)
    requires
        measure == Measure::Legacy || measure == Measure::Segwit,
        0 <= k,
    ensures
        spec_sum(candidates, selected, measure, k) <= k,
    decreases k,
{
    if k > 0 {
        lemma_count_bounded(candidates, selected, measure, k - 1);
    }
}

/// The mathematical model of a [`CoinSelector`]: the candidates it selects from, the indices
/// that are selected and banned, and the order in which the candidates are gone through.
pub struct SelectorView {
    /// The candidates, each at its index.
    pub candidates: Seq<Candidate>,
    /// The indices of the selected candidates.
    pub selected: Set<usize>,
    /// The indices of the banned candidates.
    pub banned: Set<usize>,
    /// The indices of the candidates in the order in which they are gone through.
    pub order: Seq<usize>,
}

impl SelectorView {
    /// Whether a selection of all of `candidates` can be described: its value fits in `u64`,
    /// its number of inputs in `usize` and its input weight in `u32`.
    pub open spec fn fits(candidates: Seq<Candidate>) -> bool {
        let n = candidates.len() as int;
        let all = Set::<usize>::full();
        &&& spec_sum(candidates, all, Measure::Value, n) <= u64::MAX
        &&& spec_sum(candidates, all, Measure::InputCount, n) <= usize::MAX
        &&& spec_sum(candidates, all, Measure::Weight, n) + spec_sum(
            candidates,
            all,
            Measure::Legacy,
            n,
        ) + 38 <= u32::MAX
    }

    /// The invariant of a selector: the candidates can be counted in `usize`, `order` is a
    /// permutation of their indices, only indices of candidates are selected or banned, and the
    /// candidates fit.
    pub open spec fn wf(self) -> bool {
        &&& self.candidates.len() <= usize::MAX
        &&& self.order.len() == self.candidates.len()
        &&& self.order.no_duplicates()
        &&& forall|p: int| 0 <= p < self.order.len() ==> #[trigger] self.order[p] < self.candidates.len()
        &&& forall|i: usize| i < self.candidates.len() ==> self.order.contains(i)
        &&& forall|i: usize| self.selected.contains(i) ==> i < self.candidates.len()
        &&& forall|i: usize| self.banned.contains(i) ==> i < self.candidates.len()
        &&& self.selected.finite()
        &&& self.banned.finite()
        &&& SelectorView::fits(self.candidates)
    }

    /// The sum of `measure` over the selected candidates.
    pub open spec fn sum(self, measure: Measure) -> int {
        spec_sum(self.candidates, self.selected, measure, self.candidates.len() as int)
    }

    /// Absolute value sum of all selected inputs.
    pub open spec fn selected_value(self) -> int {
        self.sum(Measure::Value)
    }

    /// Whether a selected candidate has a segwit spend, so that the transaction is a segwit
    /// transaction.
    pub open spec fn is_segwit_tx(self) -> bool {
        self.sum(Measure::Segwit) > 0
    }

    /// The weight of the inputs: the varint of their count, the weight of each selected
    /// candidate and, in a segwit transaction, one unit for each selected candidate without a
    /// segwit spend and two for the witness header.
    pub open spec fn input_weight(self) -> int {
        spec_varint_size(self.sum(Measure::InputCount)) * 4 + self.sum(Measure::Weight)
            + if self.is_segwit_tx() {
            self.sum(Measure::Legacy) + 2
        } else {
            0
        }
    }

    /// The weight of the transaction that the selection implies.
    pub open spec fn weight(self, target_outputs: TargetOutputs, drain_weights: DrainWeights) -> int {
        TX_FIXED_FIELD_WEIGHT + self.input_weight() + target_outputs.spec_output_weight_with_drain(
            drain_weights,
        )
    }

    /// The fee that the target's feerate asks of the transaction: its weight at that rate,
    /// rounded up.
    pub open spec fn implied_fee_from_feerate(self, target: Target, drain_weights: DrainWeights) -> int {
        target.fee.rate.spec_fee_for(self.weight(target.outputs, drain_weights))
    }

    /// The fee that replacing asks of the transaction, zero where nothing is replaced.
    pub open spec fn replacement_fee(self, target: Target, drain_weights: DrainWeights) -> int {
        target.fee.spec_replacement_fee(self.weight(target.outputs, drain_weights))
    }

    /// The fee that the selection has to pay: the larger of what the feerate and what replacing
    /// ask.
    pub open spec fn implied_fee(self, target: Target, drain_weights: DrainWeights) -> int {
        let from_rate = self.implied_fee_from_feerate(target, drain_weights);
        let from_replace = self.replacement_fee(target, drain_weights);
        if from_replace > from_rate {
            from_replace
        } else {
            from_rate
        }
    }

    /// The fee that the selection pays with outputs of `target_value` and a change output of
    /// `drain_value`. Negative where the outputs exceed the inputs.
    pub open spec fn fee(self, target_value: int, drain_value: int) -> int {
        self.selected_value() - target_value - drain_value
    }

    /// How much the selection overshoots the target's value and feerate.
    pub open spec fn rate_excess(self, target: Target, drain: Drain) -> int {
        self.selected_value() - target.outputs.value_sum - drain.value
            - self.implied_fee_from_feerate(target, drain.weights)
    }

    /// How much the selection overshoots what replacing asks.
    pub open spec fn replacement_excess(self, target: Target, drain: Drain) -> int {
        self.selected_value() - target.outputs.value_sum - drain.value - self.replacement_fee(
            target,
            drain.weights,
        )
    }

    /// How much the selection overshoots the target: the smaller of the two excesses.
    pub open spec fn excess(self, target: Target, drain: Drain) -> int {
        let rate = self.rate_excess(target, drain);
        let replacement = self.replacement_excess(target, drain);
        if rate < replacement {
            rate
        } else {
            replacement
        }
    }

    /// How much value is missing to reach the target.
    pub open spec fn missing(self, target: Target) -> int {
        let excess = self.excess(target, Drain::spec_none());
        if excess < 0 {
            -excess
        } else {
            0
        }
    }

    /// Whether the target is met with the change output `drain`.
    pub open spec fn is_target_met_with_drain(self, target: Target, drain: Drain) -> bool {
        self.excess(target, drain) >= 0
    }

    /// Whether the target is met without a change output.
    pub open spec fn is_target_met(self, target: Target) -> bool {
        self.is_target_met_with_drain(target, Drain::spec_none())
    }

    /// The value of the selected inputs minus the fee for their weight at `feerate`.
    pub open spec fn effective_value(self, feerate: FeeRate) -> int {
        self.selected_value() - feerate.spec_fee_for(self.input_weight())
    }

    /// The waste of the selected inputs, in the raw units of a [`Score`]: what their weight
    /// costs now beyond what it would cost at the long term feerate.
    pub open spec fn input_waste(self, feerate: FeeRate, long_term_feerate: FeeRate) -> int {
        self.input_weight() * (feerate.raw - long_term_feerate.raw)
    }

    /// The waste of the selection, in the raw units of a [`Score`]: the waste of the inputs
    /// and, with a change output, the waste of that output, without one, the excess as far as
    /// `excess_discount` counts it (a discount below zero counts as zero, one above one as one).
    pub open spec fn waste(
        self,
        target: Target,
        long_term_feerate: FeeRate,
        drain: Drain,
        excess_discount: Score,
    ) -> int {
        let excess = self.excess(target, drain);
        let counted = if excess_discount.raw < 0 {
            0
        } else if excess_discount.raw > FIXED_ONE {
            FIXED_ONE as int
        } else {
            excess_discount.raw as int
        };
        self.input_waste(target.fee.rate, long_term_feerate) + if drain == Drain::spec_none() {
            if excess > 0 {
                excess * counted
            } else {
                0
            }
        } else {
            drain.weights.spec_waste(
                target.fee.rate,
                long_term_feerate,
                target.outputs.n_outputs as int,
            )
        }
    }

    /// The excess that a change output of the policy would have to take up.
    pub open spec fn drain_excess(self, target: Target, change_policy: ChangePolicy) -> int {
        self.excess(target, Drain { weights: change_policy.drain_weights, value: 0 })
    }

    /// The value of the change output under `change_policy`, if there is to be one: the
    /// excess with the change output's weight, where that is above the policy's minimum.
    pub open spec fn drain_value(self, target: Target, change_policy: ChangePolicy) -> Option<int> {
        let excess = self.drain_excess(target, change_policy);
        if excess > change_policy.min_value {
            Some(excess)
        } else {
            None
        }
    }

    /// The change output under `change_policy`, the none drain if there is to be none.
    pub open spec fn drain(self, target: Target, change_policy: ChangePolicy) -> Drain {
        match self.drain_value(target, change_policy) {
            Some(value) => Drain { weights: change_policy.drain_weights, value: value as u64 },
            None => Drain::spec_none(),
        }
    }

    /// Whether the candidate at `index` can still be selected: it is neither selected nor
    /// banned.
    pub open spec fn available(self, index: usize) -> bool {
        &&& index < self.candidates.len()
        &&& !self.selected.contains(index)
        &&& !self.banned.contains(index)
    }

    /// Whether `position` is the first place of `order` that holds an available candidate.
    pub open spec fn is_next(self, position: int) -> bool {
        &&& 0 <= position < self.order.len()
        &&& self.available(self.order[position])
        &&& forall|q: int| 0 <= q < position ==> !self.available(#[trigger] self.order[q])
    }

    /// Whether no candidate is left to select.
    pub open spec fn is_exhausted(self) -> bool {
        forall|q: int| 0 <= q < self.order.len() ==> !self.available(#[trigger] self.order[q])
    }

    /// This selection with the candidate at `index` selected.
    pub open spec fn select(self, index: usize) -> SelectorView {
        SelectorView { selected: self.selected.insert(index), ..self }
    }

    /// This selection with the candidate at `index` not selected.
    pub open spec fn deselect(self, index: usize) -> SelectorView {
        SelectorView { selected: self.selected.remove(index), ..self }
    }

    /// This selection with the candidate at `index` banned.
    pub open spec fn ban(self, index: usize) -> SelectorView {
        SelectorView { banned: self.banned.insert(index), ..self }
    }

    /// The indices of the candidates that can still be selected, among the first `k` places of
    /// `order` and in that order.
    pub open spec fn unselected_upto(self, k: int) -> Seq<usize>
        decreases k,
    {
        if k <= 0 {
            Seq::empty()
        } else {
            let before = self.unselected_upto(k - 1);
            if self.available(self.order[k - 1]) {
                before.push(self.order[k - 1])
            } else {
                before
            }
        }
    }

    /// The indices of the candidates that can still be selected, in the order in which they are
    /// gone through.
    pub open spec fn unselected_indices(self) -> Seq<usize> {
        self.unselected_upto(self.order.len() as int)
    }

    /// The indices of the selected candidates among the first `k` places of `order`, in that
    /// order.
    pub open spec fn selected_upto(self, k: int) -> Seq<usize>
        decreases k,
    {
        if k <= 0 {
            Seq::empty()
        } else {
            let before = self.selected_upto(k - 1);
            if self.selected.contains(self.order[k - 1]) {
                before.push(self.order[k - 1])
            } else {
                before
            }
        }
    }

    /// The indices of the selected candidates, in the order in which the candidates are gone
    /// through.
    pub open spec fn selected_in_order(self) -> Seq<usize> {
        self.selected_upto(self.order.len() as int)
    }

    /// The selected indices below `k`, ascending.
    pub open spec fn selected_below(self, k: int) -> Seq<usize>
        decreases k,
    {
        if k <= 0 {
            Seq::empty()
        } else {
            let before = self.selected_below(k - 1);
            if self.selected.contains((k - 1) as usize) {
                before.push((k - 1) as usize)
            } else {
                before
            }
        }
    }

    /// The selected indices, ascending.
    pub open spec fn selected_indices(self) -> Seq<usize> {
        self.selected_below(self.candidates.len() as int)
    }

    /// Each index of `indices` with the candidate that has it.
    pub open spec fn with_candidates(self, indices: Seq<usize>) -> Seq<(usize, Candidate)> {
        Seq::new(indices.len(), |k: int| (indices[k], self.candidates[indices[k] as int]))
    }

    /// This selection with every candidate selected that is not banned and has a positive
    /// effective value at `feerate`.
    pub open spec fn select_all_effective(self, feerate: FeeRate) -> SelectorView {
        SelectorView {
            selected: Set::new(
                |i: usize|
                    self.selected.contains(i) || (i < self.candidates.len() && !self.banned.contains(
                        i,
                    ) && self.candidates[i as int].spec_effective_value(feerate) > 0),
            ),
            ..self
        }
    }

    /// This selection with every candidate selected that is not banned.
    pub open spec fn select_all(self) -> SelectorView {
        self.select_upto(self.order.len() as int)
    }

    /// This selection with every candidate selected that is not banned and stands before
    /// `position` in `order`.
    pub open spec fn select_upto(self, position: int) -> SelectorView {
        SelectorView {
            selected: Set::new(
                |i: usize|
                    self.selected.contains(i) || (exists|q: int|
                        0 <= q < position && q < self.order.len() && #[trigger] self.order[q] == i
                            && !self.banned.contains(i)),
            ),
            ..self
        }
    }
}

/// [`CoinSelector`] selects/deselects coins from a set of candidate coins.
///
/// You can manually select coins using methods like [`select`], or automatically with methods
/// such as [`bnb_solutions`].
///
/// [`select`]: CoinSelector::select
/// [`bnb_solutions`]: CoinSelector::bnb_solutions
#[derive(Debug)]
pub struct CoinSelector<'a> {
    candidates: &'a [Candidate],
    selected: BTreeSet<usize>,
    banned: BTreeSet<usize>,
    candidate_order: Vec<usize>,
}

impl<'a> View for CoinSelector<'a> {
    type V = SelectorView;

    closed spec fn view(&self) -> SelectorView {
        SelectorView {
            candidates: self.candidates@,
            selected: self.selected@,
            banned: self.banned@,
            order: self.candidate_order@,
        }
    }
}

impl<'a> Clone for CoinSelector<'a> {
    fn clone(&self) -> (copy: Self)
        ensures
            copy@ == self@,
    {
        CoinSelector {
            candidates: self.candidates,
            selected: self.selected.clone(),
            banned: self.banned.clone(),
            candidate_order: self.candidate_order.clone(),
        }
    }
}

impl<'a> CoinSelector<'a> {
    /// The invariant of a selector, which every constructor establishes and every method keeps.
    pub open spec fn wf(&self) -> bool {
        self@.wf()
    }

    /// Whether a selector can be made of `candidates`: whether a selection of all of them has a
    /// value that fits in `u64`, a number of inputs that fits in `usize` and an input weight
    /// that fits in `u32`.
    pub fn fits(candidates: &[Candidate]) -> (fits: bool)
        ensures
            fits == SelectorView::fits(candidates@),
    {
        let n: usize = candidates.len();
        let ghost all = Set::<usize>::full();
        let mut value: u64 = 0;
        let mut count: usize = 0;
        let mut weight: u64 = 0;
        let mut i: usize = 0;
        while i < n
            invariant
                i <= n,
                n == candidates@.len(),
                all == Set::<usize>::full(),
                value == spec_sum(candidates@, all, Measure::Value, i as int),
                count == spec_sum(candidates@, all, Measure::InputCount, i as int),
                weight == spec_sum(candidates@, all, Measure::Weight, i as int) + spec_sum(
                    candidates@,
                    all,
                    Measure::Legacy,
                    i as int,
                ),
                weight + 38 <= u32::MAX,
            decreases n - i,
        {
            let candidate: Candidate = candidates[i];
            let legacy: u64 = if candidate.is_segwit {
                0
            } else {
                1
            };
            proof {
                lemma_sum_monotonic(candidates@, all, all, Measure::Value, i + 1, n as int);
                lemma_sum_monotonic(candidates@, all, all, Measure::InputCount, i + 1, n as int);
                lemma_sum_monotonic(candidates@, all, all, Measure::Weight, i + 1, n as int);
                lemma_sum_monotonic(candidates@, all, all, Measure::Legacy, i + 1, n as int);
            }
            let new_value: Option<u64> = value.checked_add(candidate.value);
            let new_count: Option<usize> = count.checked_add(candidate.input_count);
            let new_weight: u64 = weight + candidate.weight as u64 + legacy;
            if new_value.is_none() || new_count.is_none() || new_weight > 0xffff_ffff - 38 {
                return false;
            }
            value = new_value.unwrap();
            count = new_count.unwrap();
            weight = new_weight;
            i += 1;
        }
        true
    }

    /// Creates a new coin selector from some candidate inputs.
    ///
    /// Note that methods in `CoinSelector` will refer to inputs by the index in the `candidates`
    /// slice you pass in.
    pub fn new(candidates: &'a [Candidate]) -> (selector: Self)
        requires
            SelectorView::fits(candidates@),
        ensures
            selector.wf(),
            selector@.candidates == candidates@,
            selector@.selected == Set::<usize>::empty(),
            selector@.banned == Set::<usize>::empty(),
            selector@.order.len() == candidates@.len(),
            forall|p: int| 0 <= p < candidates@.len() ==> selector@.order[p] == p,
    {
        let n: usize = candidates.len();
        let mut candidate_order: Vec<usize> = Vec::new();
        let mut i: usize = 0;
        while i < n
            invariant
                i <= n,
                candidate_order@.len() == i,
                forall|p: int| 0 <= p < i ==> candidate_order@[p] == p,
            decreases n - i,
        {
            candidate_order.push(i);
            i += 1;
        }
        let selector = CoinSelector {
            candidates,
            selected: BTreeSet::new(),
            banned: BTreeSet::new(),
            candidate_order,
        };
        proof {
            assert forall|i: usize| i < n implies selector@.order.contains(i) by {
                assert(selector@.order[i as int] == i);
            }
        }
        selector
    }

    /// Get the candidate at `index`. `index` refers to its position in the
    /// `candidates` slice passed into [`CoinSelector::new`].
    pub fn candidate(&self, index: usize) -> (candidate: Candidate)
        requires
            index < self@.candidates.len(),
        ensures
            candidate == self@.candidates[index as int],
    {
        self.candidates[index]
    }

    /// Deselect a candidate at `index`. `index` refers to its position in the
    /// `candidates` slice passed into [`CoinSelector::new`].
    pub fn deselect(&mut self, index: usize) -> (was_selected: bool)
        requires
            old(self).wf(),
        ensures
            final(self).wf(),
            final(self)@ == old(self)@.deselect(index),
            was_selected == old(self)@.selected.contains(index),
    {
        self.selected.remove(&index)
    }

    /// Select the input at `index`. `index` refers to its position in the
    /// `candidates` slice passed into [`CoinSelector::new`].
    pub fn select(&mut self, index: usize) -> (newly_selected: bool)
        requires
            old(self).wf(),
            index < old(self)@.candidates.len(),
        ensures
            final(self).wf(),
            final(self)@ == old(self)@.select(index),
            newly_selected == !old(self)@.selected.contains(index),
            final(self)@.input_weight() >= old(self)@.input_weight(),
            final(self)@.selected_value() >= old(self)@.selected_value(),
    {
        proof {
            lemma_select_grows(self@, index);
        }
        self.selected.insert(index)
    }

    /// Ban an input from being selected. Banning the input means it won't show up in
    /// [`unselected`] or [`unselected_indices`]. Note it can still be manually selected.
    ///
    /// `index` refers to its position in the `candidates` slice passed into
    /// [`CoinSelector::new`]; an index that no candidate has is ignored.
    ///
    /// [`unselected`]: Self::unselected
    /// [`unselected_indices`]: Self::unselected_indices
    pub fn ban(&mut self, index: usize)
        requires
            old(self).wf(),
        ensures
            final(self).wf(),
            final(self)@ == if index < old(self)@.candidates.len() {
                old(self)@.ban(index)
            } else {
                old(self)@
            },
    {
        if index < self.candidates.len() {
            self.banned.insert(index);
        }
    }

    /// Gets the list of inputs that have been banned by [`ban`].
    ///
    /// [`ban`]: Self::ban
    pub fn banned(&self) -> (banned: &BTreeSet<usize>)
        ensures
            banned@ == self@.banned,
    {
        &self.banned
    }

    /// The indices of the selected candidates.
    pub fn selected_indices(&self) -> (selected: &BTreeSet<usize>)
        ensures
            selected@ == self@.selected,
    {
        &self.selected
    }

    /// Is the input at `index` selected. `index` refers to its position in the
    /// `candidates` slice passed into [`CoinSelector::new`].
    pub fn is_selected(&self, index: usize) -> (selected: bool)
        ensures
            selected == self@.selected.contains(index),
    {
        self.selected.contains(&index)
    }

    /// Returns true if no candidates have been selected.
    pub fn is_empty(&self) -> (empty: bool)
        ensures
            empty == self@.selected.is_empty(),
    {
        self.selected.is_empty()
    }

    /// The sum of `measure` over the selected candidates.
    fn sum_selected(&self, measure: Measure) -> (total: u64)
        requires
            self.wf(),
        ensures
            total == self@.sum(measure),
    {
        let n: usize = self.candidates.len();
        let mut total: u64 = 0;
        let mut i: usize = 0;
        while i < n
            invariant
                i <= n,
                n == self@.candidates.len(),
                self.wf(),
                total == spec_sum(self@.candidates, self@.selected, measure, i as int),
            decreases n - i,
        {
            if self.selected.contains(&i) {
                let candidate: Candidate = self.candidates[i];
                let part: u64 = match measure {
                    Measure::Value => candidate.value,
                    Measure::Weight => candidate.weight as u64,
                    Measure::InputCount => candidate.input_count as u64,
                    Measure::Legacy => if candidate.is_segwit {
                        0
                    } else {
                        1
                    },
                    Measure::Segwit => if candidate.is_segwit {
                        1
                    } else {
                        0
                    },
                };
                proof {
                    let all = Set::<usize>::full();
                    lemma_sum_monotonic(
                        self@.candidates,
                        self@.selected,
                        all,
                        measure,
                        i + 1,
                        n as int,
                    );
                    lemma_sum_monotonic(self@.candidates, all, all, Measure::Weight, n as int, n as int);
                    lemma_sum_monotonic(self@.candidates, all, all, Measure::Legacy, n as int, n as int);
                    lemma_count_bounded(self@.candidates, all, Measure::Segwit, n as int);
                    assert(spec_sum(self@.candidates, self@.selected, measure, i + 1) == total
                        + part);
                }
                total = total + part;
            }
            i += 1;
        }
        total
    }

    /// The weight of the inputs including the witness header and the varint for the number of
    /// inputs.
    pub fn input_weight(&self) -> (weight: u32)
        requires
            self.wf(),
        ensures
            weight == self@.input_weight(),
    {
        let is_segwit_tx: bool = self.sum_selected(Measure::Segwit) > 0;
        let input_count: u64 = self.sum_selected(Measure::InputCount);
        let input_varint_weight: u32 = varint_size(input_count as usize) * 4;
        let selected_weight: u64 = self.sum_selected(Measure::Weight);
        let legacy: u64 = self.sum_selected(Measure::Legacy);
        proof {
            let all = Set::<usize>::full();
            let n = self@.candidates.len() as int;
            lemma_sum_monotonic(self@.candidates, self@.selected, all, Measure::InputCount, n, n);
            lemma_sum_monotonic(self@.candidates, self@.selected, all, Measure::Weight, n, n);
            lemma_sum_monotonic(self@.candidates, self@.selected, all, Measure::Legacy, n, n);
        }
        let extra: u64 = if is_segwit_tx {
            // candidates without a segwit spend do not have the witness length field included
            // in their weight, so each adds 1 in a segwit transaction; the header adds 2.
            legacy + 2
        } else {
            0
        };
        (input_varint_weight as u64 + selected_weight + extra) as u32
    }

    /// Absolute value sum of all selected inputs.
    pub fn selected_value(&self) -> (value: u64)
        requires
            self.wf(),
        ensures
            value == self@.selected_value(),
    {
        self.sum_selected(Measure::Value)
    }
}

/// Selecting one more candidate never makes the inputs lighter and never lowers their value.
pub proof fn lemma_select_grows(view: SelectorView, index: usize)
    requires
        view.wf(),
        index < view.candidates.len(),
    ensures
        view.select(index).input_weight() >= view.input_weight(),
        view.select(index).selected_value() >= view.selected_value(),
        view.select(index).wf(),
{
    let n = view.candidates.len() as int;
    let after = view.select(index);
    lemma_sum_monotonic(view.candidates, view.selected, after.selected, Measure::Value, n, n);
    lemma_sum_monotonic(view.candidates, view.selected, after.selected, Measure::Weight, n, n);
    lemma_sum_monotonic(view.candidates, view.selected, after.selected, Measure::InputCount, n, n);
    lemma_sum_monotonic(view.candidates, view.selected, after.selected, Measure::Legacy, n, n);
    lemma_sum_monotonic(view.candidates, view.selected, after.selected, Measure::Segwit, n, n);
    crate::lemma_varint_size_monotonic(
        view.sum(Measure::InputCount),
        after.sum(Measure::InputCount),
    );
}

/// A selection that holds all of another's candidates weighs at least as much and is worth at
/// least as much.
pub proof fn lemma_superset_grows(smaller: SelectorView, larger: SelectorView)
    requires
        smaller.candidates == larger.candidates,
        smaller.selected.subset_of(larger.selected),
    ensures
        0 <= smaller.input_weight() <= larger.input_weight(),
        0 <= smaller.selected_value() <= larger.selected_value(),
{
    let n = smaller.candidates.len() as int;
    lemma_sum_monotonic(smaller.candidates, smaller.selected, larger.selected, Measure::Value, n, n);
    lemma_sum_monotonic(smaller.candidates, smaller.selected, larger.selected, Measure::Weight, n, n);
    lemma_sum_monotonic(
        smaller.candidates,
        smaller.selected,
        larger.selected,
        Measure::InputCount,
        n,
        n,
    );
    lemma_sum_monotonic(smaller.candidates, smaller.selected, larger.selected, Measure::Legacy, n, n);
    lemma_sum_monotonic(smaller.candidates, smaller.selected, larger.selected, Measure::Segwit, n, n);
    crate::lemma_varint_size_monotonic(
        smaller.sum(Measure::InputCount),
        larger.sum(Measure::InputCount),
    );
}

/// The fee for a weight never shrinks when the weight grows.
pub proof fn lemma_fee_for_monotonic(rate: FeeRate, lighter: int, heavier: int)
    requires
        0 <= lighter <= heavier,
    ensures
        0 <= rate.spec_fee_for(lighter) <= rate.spec_fee_for(heavier),
{
    let raw = rate.raw as int;
    assert(0 <= lighter * raw <= heavier * raw) by (nonlinear_arith)
        requires
            0 <= lighter <= heavier,
            0 <= raw,
    ;
    crate::feerate::lemma_div_ceil_monotonic(lighter * raw, heavier * raw, FIXED_ONE as int);
    crate::feerate::lemma_div_ceil_is_least(lighter * raw, FIXED_ONE as int);
}

/// A change output never makes the transaction lighter, so it never raises the excess.
pub proof fn lemma_drain_lowers_excess(view: SelectorView, target: Target, drain: Drain)
    requires
        view.wf(),
    ensures
        view.weight(target.outputs, DrainWeights::spec_none()) <= view.weight(
            target.outputs,
            drain.weights,
        ),
        view.excess(target, drain) + drain.value <= view.excess(target, Drain::spec_none()),
{
    let none = DrainWeights::spec_none();
    let empty = SelectorView { selected: Set::<usize>::empty(), ..view };
    lemma_superset_grows(empty, view);
    crate::lemma_varint_size_monotonic(
        target.outputs.n_outputs as int,
        drain.weights.n_outputs + target.outputs.n_outputs,
    );
    crate::lemma_varint_size_monotonic(0, target.outputs.n_outputs as int);
    let lighter = view.weight(target.outputs, none);
    let heavier = view.weight(target.outputs, drain.weights);
    lemma_fee_for_monotonic(target.fee.rate, lighter, heavier);
    match target.fee.replace {
        Some(replace) => {
            lemma_fee_for_monotonic(replace.incremental_relay_feerate, lighter, heavier);
        },
        None => {},
    }
}

/// Where the policy asks for a change output, the target is met with that output and without
/// it: the change takes up exactly the excess.
pub proof fn lemma_drain_conserves_target(
    view: SelectorView,
    target: Target,
    change_policy: ChangePolicy,
)
    requires
        view.wf(),
        view.drain_value(target, change_policy) is Some,
    ensures
        0 < view.drain_value(target, change_policy)->0 <= u64::MAX,
        view.excess(target, view.drain(target, change_policy)) == 0,
        view.is_target_met_with_drain(target, view.drain(target, change_policy)),
        view.is_target_met_with_drain(target, view.drain(target, change_policy))
            == view.is_target_met(target),
{
    let value = view.drain_value(target, change_policy)->0;
    let without = Drain { weights: change_policy.drain_weights, value: 0 };
    lemma_drain_lowers_excess(view, target, without);
    let n = view.candidates.len() as int;
    lemma_sum_monotonic(
        view.candidates,
        view.selected,
        Set::<usize>::full(),
        Measure::Value,
        n,
        n,
    );
    let empty = SelectorView { selected: Set::<usize>::empty(), ..view };
    lemma_superset_grows(empty, view);
    crate::lemma_varint_size_monotonic(
        0,
        change_policy.drain_weights.n_outputs + target.outputs.n_outputs,
    );
    lemma_fee_for_monotonic(
        target.fee.rate,
        0,
        view.weight(target.outputs, change_policy.drain_weights),
    );
}

impl<'a> CoinSelector<'a> {
    /// The weight of the transaction, for every target and drain.
    pub fn wide_weight(&self, target_outputs: TargetOutputs, drain_weights: DrainWeights) -> (weight: u64)
        requires
            self.wf(),
        ensures
            weight == self@.weight(target_outputs, drain_weights),
            weight <= 0x4_0000_0000,
    {
        TX_FIXED_FIELD_WEIGHT as u64 + self.input_weight() as u64
            + target_outputs.wide_output_weight_with_drain(drain_weights)
    }

    /// Current weight of transaction implied by the selection.
    ///
    /// If you don't have any drain outputs (only target outputs) just set drain_weights to
    /// [`DrainWeights::none`].
    pub fn weight(&self, target_outputs: TargetOutputs, drain_weights: DrainWeights) -> (weight: u32)
        requires
            self.wf(),
            self@.weight(target_outputs, drain_weights) <= u32::MAX,
        ensures
            weight == self@.weight(target_outputs, drain_weights),
    {
        self.wide_weight(target_outputs, drain_weights) as u32
    }

    /// The fee that the target's feerate asks of the transaction, for every target and drain.
    pub fn wide_implied_fee_from_feerate(&self, target: Target, drain_weights: DrainWeights) -> (fee: u128)
        requires
            self.wf(),
        ensures
            fee == self@.implied_fee_from_feerate(target, drain_weights),
            fee <= 0x4_0000_0000_0000_0000,
    {
        let weight: u64 = self.wide_weight(target.outputs, drain_weights);
        assert(weight * 0x1_0000_0000 <= 0x4_0000_0000 * 0x1_0000_0000) by (nonlinear_arith)
            requires
                weight <= 0x4_0000_0000,
        ;
        target.fee.rate.fee_for(weight)
    }

    /// The fee that replacing asks of the transaction, zero where nothing is replaced, for
    /// every target and drain.
    pub fn wide_replacement_fee(&self, target: Target, drain_weights: DrainWeights) -> (fee: u128)
        requires
            self.wf(),
        ensures
            fee == self@.replacement_fee(target, drain_weights),
            fee <= 0x4_0000_0001_0000_0000_0000_0000,
    {
        match target.fee.replace {
            Some(replace) => replace.wide_min_fee_to_do_replacement(
                self.wide_weight(target.outputs, drain_weights),
            ),
            None => 0,
        }
    }

    /// The fee the current selection and `drain_weight` should pay to satisfy `target_fee`.
    ///
    /// This compares the fee calculated from the target feerate with the fee calculated from
    /// the [`Replace`] constraints and returns the larger of the two.
    ///
    /// `drain_weight` can be [`DrainWeights::none`] to indicate no draining output.
    ///
    /// [`Replace`]: crate::Replace
    pub fn implied_fee(&self, target: Target, drain_weights: DrainWeights) -> (fee: u64)
        requires
            self.wf(),
            self@.implied_fee(target, drain_weights) <= u64::MAX,
        ensures
            fee == self@.implied_fee(target, drain_weights),
    {
        let from_rate: u128 = self.wide_implied_fee_from_feerate(target, drain_weights);
        let from_replace: u128 = self.wide_replacement_fee(target, drain_weights);
        if from_replace > from_rate {
            from_replace as u64
        } else {
            from_rate as u64
        }
    }

    /// The fee that the target's feerate asks of the transaction with this selection and
    /// `drain_weights`.
    pub fn implied_fee_from_feerate(&self, target: Target, drain_weights: DrainWeights) -> (fee: u64)
        requires
            self.wf(),
            self@.implied_fee_from_feerate(target, drain_weights) <= u64::MAX,
        ensures
            fee == self@.implied_fee_from_feerate(target, drain_weights),
    {
        self.wide_implied_fee_from_feerate(target, drain_weights) as u64
    }

    /// The actual fee the selection would pay if it was used in a transaction that had
    /// `target_value` value for outputs and change output of `drain_value`.
    ///
    /// This can be negative when the selection is invalid (outputs are greater than inputs).
    pub fn fee(&self, target_value: u64, drain_value: u64) -> (fee: i64)
        requires
            self.wf(),
            i64::MIN <= self@.fee(target_value as int, drain_value as int) <= i64::MAX,
        ensures
            fee == self@.fee(target_value as int, drain_value as int),
    {
        (self.selected_value() as i128 - target_value as i128 - drain_value as i128) as i64
    }

    /// How much the current selection overshoots the value need to satisfy `target.fee.rate`
    /// and `target.value`, for every target and drain.
    pub fn wide_rate_excess(&self, target: Target, drain: Drain) -> (excess: i128)
        requires
            self.wf(),
        ensures
            excess == self@.rate_excess(target, drain),
            -0x4_0000_0004_0000_0000_0000_0000 <= excess <= u64::MAX,
    {
        self.selected_value() as i128 - target.value() as i128 - drain.value as i128
            - self.wide_implied_fee_from_feerate(target, drain.weights) as i128
    }

    /// How much the current selection overshoots the value needed to satisfy RBF's rule 4, for
    /// every target and drain.
    pub fn wide_replacement_excess(&self, target: Target, drain: Drain) -> (excess: i128)
        requires
            self.wf(),
        ensures
            excess == self@.replacement_excess(target, drain),
            -0x4_0000_0004_0000_0000_0000_0000 <= excess <= u64::MAX,
    {
        self.selected_value() as i128 - target.value() as i128 - drain.value as i128
            - self.wide_replacement_fee(target, drain.weights) as i128
    }

    /// How much the current selection overshoots the value needed to achieve `target`, for
    /// every target and drain.
    pub fn wide_excess(&self, target: Target, drain: Drain) -> (excess: i128)
        requires
            self.wf(),
        ensures
            excess == self@.excess(target, drain),
            -0x4_0000_0004_0000_0000_0000_0000 <= excess <= u64::MAX,
    {
        let rate: i128 = self.wide_rate_excess(target, drain);
        let replacement: i128 = self.wide_replacement_excess(target, drain);
        if rate < replacement {
            rate
        } else {
            replacement
        }
    }

    /// How much the current selection overshoots the value need to satisfy `target.fee.rate`
    /// and `target.value` (while ignoring the replacement).
    pub fn rate_excess(&self, target: Target, drain: Drain) -> (excess: i64)
        requires
            self.wf(),
            i64::MIN <= self@.rate_excess(target, drain) <= i64::MAX,
        ensures
            excess == self@.rate_excess(target, drain),
    {
        self.wide_rate_excess(target, drain) as i64
    }

    /// How much the current selection overshoots the value needed to satisfy RBF's rule 4.
    pub fn replacement_excess(&self, target: Target, drain: Drain) -> (excess: i64)
        requires
            self.wf(),
            i64::MIN <= self@.replacement_excess(target, drain) <= i64::MAX,
        ensures
            excess == self@.replacement_excess(target, drain),
    {
        self.wide_replacement_excess(target, drain) as i64
    }

    /// How much the current selection overshoots the value needed to achieve `target`.
    ///
    /// In order for the resulting transaction to be valid this must be 0 or above. If it's
    /// above 0 this means the transaction will overpay for what it needs to reach `target`.
    pub fn excess(&self, target: Target, drain: Drain) -> (excess: i64)
        requires
            self.wf(),
            i64::MIN <= self@.excess(target, drain) <= i64::MAX,
        ensures
            excess == self@.excess(target, drain),
    {
        self.wide_excess(target, drain) as i64
    }

    /// How much extra value needs to be selected to reach the target.
    pub fn missing(&self, target: Target) -> (missing: u64)
        requires
            self.wf(),
            self@.missing(target) <= u64::MAX,
        ensures
            missing == self@.missing(target),
    {
        let excess: i128 = self.wide_excess(target, Drain::none());
        if excess < 0 {
            (-excess) as u64
        } else {
            0
        }
    }

    /// The feerate the transaction would have if we were to use this selection of inputs to
    /// achieve the `target`'s value and weight. It is essentially telling you what target
    /// feerate you currently have, rounded down to a multiple of 2^-32.
    ///
    /// Returns `None` if the feerate would be negative.
    pub fn implied_feerate(&self, target_outputs: TargetOutputs, drain: Drain) -> (rate: Option<FeeRate>)
        requires
            self.wf(),
            self@.fee(target_outputs.value_sum as int, drain.value as int) * FIXED_ONE
                / self@.weight(target_outputs, drain.weights) <= u64::MAX,
        ensures
            self@.weight(target_outputs, drain.weights) > 0,
            rate == if self@.fee(target_outputs.value_sum as int, drain.value as int) < 0 {
                None
            } else {
                Some(
                    FeeRate {
                        raw: (self@.fee(target_outputs.value_sum as int, drain.value as int)
                            * FIXED_ONE / self@.weight(target_outputs, drain.weights)) as u64,
                    },
                )
            },
    {
        let numerator: i128 = self.selected_value() as i128 - target_outputs.value_sum as i128
            - drain.value as i128;
        let denom: u64 = self.wide_weight(target_outputs, drain.weights);
        proof {
            let empty = SelectorView { selected: Set::<usize>::empty(), ..self@ };
            lemma_superset_grows(empty, self@);
            crate::lemma_varint_size_monotonic(
                0,
                drain.weights.n_outputs + target_outputs.n_outputs,
            );
        }
        if numerator < 0 {
            return None;
        }
        assert(0 <= numerator * 0x1_0000_0000 <= 0xffff_ffff_ffff_ffff * 0x1_0000_0000)
            by (nonlinear_arith)
            requires
                0 <= numerator <= 0xffff_ffff_ffff_ffff,
        ;
        let scaled: u128 = (numerator as u128) * (FIXED_ONE as u128);
        Some(FeeRate { raw: (scaled / (denom as u128)) as u64 })
    }

    /// The value of the current selected inputs minus the fee needed to pay for the selected
    /// inputs, for every selection and every fee rate.
    pub fn wide_effective_value(&self, feerate: FeeRate) -> (value: i128)
        requires
            self.wf(),
        ensures
            value == self@.selected_value() - feerate.spec_fee_for(self@.input_weight()),
            value == self@.effective_value(feerate),
    {
        let input_weight: u32 = self.input_weight();
        assert(input_weight * 0x1_0000_0000 <= 0xffff_ffff * 0x1_0000_0000) by (nonlinear_arith)
            requires
                input_weight <= 0xffff_ffff,
        ;
        self.selected_value() as i128 - feerate.fee_for(input_weight as u64) as i128
    }

    /// The value of the current selected inputs minus the fee needed to pay for the selected
    /// inputs.
    pub fn effective_value(&self, feerate: FeeRate) -> (value: i64)
        requires
            self.wf(),
            i64::MIN <= self@.effective_value(feerate) <= i64::MAX,
        ensures
            value == self@.selected_value() - feerate.spec_fee_for(self@.input_weight()),
    {
        self.wide_effective_value(feerate) as i64
    }

    /// Whether the constraints of `Target` have been met if we include a specific `drain`
    /// output.
    ///
    /// Note if [`is_target_met`] is true and the `drain` is produced from the [`drain`] method
    /// then this method will also always be true.
    ///
    /// [`is_target_met`]: Self::is_target_met
    /// [`drain`]: Self::drain
    pub fn is_target_met_with_drain(&self, target: Target, drain: Drain) -> (met: bool)
        requires
            self.wf(),
        ensures
            met == (self@.excess(target, drain) >= 0),
    {
        self.wide_excess(target, drain) >= 0
    }

    /// Whether the constraints of `Target` have been met.
    pub fn is_target_met(&self, target: Target) -> (met: bool)
        requires
            self.wf(),
        ensures
            met == (self@.excess(target, Drain::spec_none()) >= 0),
            met == self@.is_target_met(target),
    {
        self.is_target_met_with_drain(target, Drain::none())
    }

    /// The value of the change output should have to drain the excess value while maintaining
    /// the constraints of `target` and respecting `change_policy`.
    ///
    /// If no change output should be added according to policy then it will return `None`.
    pub fn drain_value(&self, target: Target, change_policy: ChangePolicy) -> (value: Option<u64>)
        requires
            self.wf(),
        ensures
            value is Some == self@.drain_value(target, change_policy) is Some,
            value is Some ==> value->0 == self@.drain_value(target, change_policy)->0,
            value is Some ==> value->0 == self@.drain_excess(target, change_policy)
                && value->0 > change_policy.min_value,
            value is None ==> self@.drain_excess(target, change_policy) <= change_policy.min_value,
            value is Some ==> self@.is_target_met(target) && self@.is_target_met_with_drain(
                target,
                Drain { weights: change_policy.drain_weights, value: value->0 },
            ),
    {
        let excess: i128 = self.wide_excess(
            target,
            Drain { weights: change_policy.drain_weights, value: 0 },
        );
        if excess > change_policy.min_value as i128 {
            proof {
                lemma_drain_conserves_target(self@, target, change_policy);
            }
            Some(excess as u64)
        } else {
            None
        }
    }

    /// Figures out whether the current selection should have a change output given the
    /// `change_policy`. If it should not, then it will return [`Drain::none`]. The value of the
    /// `Drain` will be the same as [`drain_value`].
    ///
    /// If [`is_target_met`] returns true for this selection then [`is_target_met_with_drain`]
    /// will also be true if you pass in the drain returned from this method.
    ///
    /// [`drain_value`]: Self::drain_value
    /// [`is_target_met_with_drain`]: Self::is_target_met_with_drain
    /// [`is_target_met`]: Self::is_target_met
    #[must_use]
    pub fn drain(&self, target: Target, change_policy: ChangePolicy) -> (drain: Drain)
        requires
            self.wf(),
        ensures
            drain == self@.drain(target, change_policy),
            drain != Drain::spec_none() ==> self@.is_target_met(target) && self@.excess(target, drain)
                == 0,
            self@.is_target_met_with_drain(target, drain) == self@.is_target_met(target),
    {
        proof {
            if self@.drain_value(target, change_policy) is Some {
                lemma_drain_conserves_target(self@, target, change_policy);
            }
        }
        match self.drain_value(target, change_policy) {
            Some(value) => Drain { weights: change_policy.drain_weights, value },
            None => Drain::none(),
        }
    }
}

/// Selecting up to a position and then the candidate at it, unless that one is banned, is
/// selecting up to the next position. Selecting up to the first position changes nothing.
pub proof fn lemma_select_upto_step(view: SelectorView, position: int)
    requires
        view.wf(),
        0 <= position < view.order.len(),
    ensures
        view.select_upto(0) == view,
        view.select_upto(position).wf(),
        view.select_upto(position + 1) == if view.banned.contains(view.order[position]) {
            view.select_upto(position)
        } else {
            view.select_upto(position).select(view.order[position])
        },
{
    assert(view.select_upto(0).selected =~= view.selected);
    let before = view.select_upto(position);
    let after = view.select_upto(position + 1);
    let index = view.order[position];
    lemma_select_upto_wf(view, position);
    if view.banned.contains(index) {
        assert(after.selected =~= before.selected);
    } else {
        assert forall|i: usize| after.selected.contains(i) == before.selected.insert(index).contains(
            i,
        ) by {
            if i == index {
                assert(view.order[position] == i);
            }
        }
        assert(after.selected =~= before.selected.insert(index));
    }
}

/// Selecting up to a position keeps the invariant.
pub proof fn lemma_select_upto_wf(view: SelectorView, position: int)
    requires
        view.wf(),
    ensures
        view.select_upto(position).wf(),
        view.selected.subset_of(view.select_upto(position).selected),
{
    let after = view.select_upto(position);
    let n = view.candidates.len();
    let below = Set::new(|i: usize| i < n);
    assert(below.finite()) by {
        lemma_indices_below_finite(n);
    }
    assert(after.selected.subset_of(below));
    vstd::set_lib::lemma_len_subset(after.selected, below);
}

/// The indices below `n` are finitely many.
pub proof fn lemma_indices_below_finite(n: nat)
    ensures
        Set::new(|i: usize| i < n).finite(),
    decreases n,
{
    let below = Set::new(|i: usize| i < n);
    if n == 0 {
        assert(below =~= Set::<usize>::empty());
    } else if n > usize::MAX {
        lemma_indices_below_finite((n - 1) as nat);
        let fewer = Set::new(|i: usize| i < (n - 1) as nat);
        assert(below =~= fewer.insert(usize::MAX)) by {
            assert forall|i: usize| below.contains(i) == fewer.insert(usize::MAX).contains(i) by {}
        }
    } else {
        lemma_indices_below_finite((n - 1) as nat);
        let fewer = Set::new(|i: usize| i < (n - 1) as nat);
        assert(below =~= fewer.insert((n - 1) as usize));
    }
}

/// Error type that occurs when the target amount cannot be met.
#[derive(Clone, Debug, Copy, PartialEq, Eq)]
pub struct InsufficientFunds {
    /// The missing amount in satoshis.
    pub missing: u64,
}

/// Error type for when a solution cannot be found by branch-and-bound.
#[derive(Debug, Clone, Copy, PartialEq, Eq)]
pub struct NoBnbSolution {
    /// Maximum rounds set by the caller.
    pub max_rounds: usize,
    /// Number of branch-and-bound rounds performed.
    pub rounds: usize,
}

impl<'a> CoinSelector<'a> {
    /// The first place in the order that holds a candidate that can still be selected.
    fn next_position(&self) -> (position: Option<usize>)
        requires
            self.wf(),
        ensures
            match position {
                Some(p) => self@.is_next(p as int),
                None => self@.is_exhausted(),
            },
    {
        let n: usize = self.candidate_order.len();
        let mut p: usize = 0;
        while p < n
            invariant
                p <= n,
                n == self@.order.len(),
                self.wf(),
                forall|q: int| 0 <= q < p ==> !self@.available(#[trigger] self@.order[q]),
            decreases n - p,
        {
            let index: usize = self.candidate_order[p];
            if !self.selected.contains(&index) && !self.banned.contains(&index) {
                return Some(p);
            }
            p += 1;
        }
        None
    }

    /// The last place in the order that holds a candidate that can still be selected.
    fn last_position(&self) -> (position: Option<usize>)
        requires
            self.wf(),
        ensures
            match position {
                Some(p) => {
                    &&& p < self@.order.len()
                    &&& self@.available(self@.order[p as int])
                    &&& forall|q: int|
                        p < q < self@.order.len() ==> !self@.available(#[trigger] self@.order[q])
                },
                None => self@.is_exhausted(),
            },
    {
        let n: usize = self.candidate_order.len();
        let mut p: usize = n;
        while p > 0
            invariant
                p <= n,
                n == self@.order.len(),
                self.wf(),
                forall|q: int| p <= q < n ==> !self@.available(#[trigger] self@.order[q]),
            decreases p,
        {
            p -= 1;
            let index: usize = self.candidate_order[p];
            if !self.selected.contains(&index) && !self.banned.contains(&index) {
                return Some(p);
            }
        }
        None
    }

    /// Select the next unselected candidate in the sorted order of the candidates.
    pub fn select_next(&mut self) -> (selected: bool)
        requires
            old(self).wf(),
        ensures
            final(self).wf(),
            selected == !old(self)@.is_exhausted(),
            selected ==> exists|p: int|
                old(self)@.is_next(p) && final(self)@ == old(self)@.select(old(self)@.order[p]),
            !selected ==> final(self)@ == old(self)@,
    {
        match self.next_position() {
            Some(p) => {
                let index: usize = self.candidate_order[p];
                self.select(index);
                proof {
                    assert(old(self)@.is_next(p as int));
                    assert(old(self)@.available(old(self)@.order[p as int]));
                }
                true
            },
            None => false,
        }
    }

    /// Whether there are any unselected candidates left.
    pub fn is_exhausted(&self) -> (exhausted: bool)
        requires
            self.wf(),
        ensures
            exhausted == self@.is_exhausted(),
    {
        match self.next_position() {
            Some(p) => {
                proof {
                    assert(self@.available(self@.order[p as int]));
                }
                false
            },
            None => true,
        }
    }

    /// Select all unselected candidates.
    pub fn select_all(&mut self)
        requires
            old(self).wf(),
        ensures
            final(self).wf(),
            final(self)@ == old(self)@.select_all(),
            final(self)@.is_exhausted(),
    {
        let n: usize = self.candidate_order.len();
        let mut p: usize = 0;
        proof {
            if n > 0 {
                lemma_select_upto_step(old(self)@, 0);
            } else {
                assert(old(self)@.select_upto(0).selected =~= old(self)@.selected);
            }
        }
        while p < n
            invariant
                p <= n,
                n == old(self)@.order.len(),
                old(self).wf(),
                self.wf(),
                self@ == old(self)@.select_upto(p as int),
            decreases n - p,
        {
            let index: usize = self.candidate_order[p];
            proof {
                lemma_select_upto_step(old(self)@, p as int);
            }
            if !self.banned.contains(&index) {
                self.select(index);
            }
            p += 1;
        }
        proof {
            assert forall|q: int| 0 <= q < n implies !self@.available(#[trigger] self@.order[q]) by {
                let i = self@.order[q];
                if !self@.banned.contains(i) {
                    assert(old(self)@.order[q] == i);
                }
            }
        }
    }

    /// Select all candidates with an *effective value* greater than 0 at the provided
    /// `feerate`.
    ///
    /// A candidate is effective if it provides more value than it takes to pay for at
    /// `feerate`.
    pub fn select_all_effective(&mut self, feerate: FeeRate)
        requires
            old(self).wf(),
        ensures
            final(self).wf(),
            final(self)@ == old(self)@.select_all_effective(feerate),
    {
        let n: usize = self.candidates.len();
        let mut i: usize = 0;
        let ghost start = self@;
        while i < n
            invariant
                i <= n,
                n == start.candidates.len(),
                start.wf(),
                self.wf(),
                self@.candidates == start.candidates,
                self@.banned == start.banned,
                self@.order == start.order,
                forall|j: usize|
                    self@.selected.contains(j) <==> (start.selected.contains(j) || (j < i
                        && !start.banned.contains(j) && start.candidates[j as int].spec_effective_value(
                        feerate,
                    ) > 0)),
            decreases n - i,
        {
            if !self.selected.contains(&i) && !self.banned.contains(&i)
                && self.candidates[i].effective_value(feerate).raw > 0 {
                self.select(i);
            }
            i += 1;
        }
        proof {
            assert(self@.selected =~= start.select_all_effective(feerate).selected);
        }
    }

    /// Is meeting this `target` possible with the current selection. Note this will respect
    /// [`ban`]ned candidates.
    ///
    /// This simply selects all effective inputs at the target's feerate and checks whether we
    /// have enough value.
    ///
    /// [`ban`]: Self::ban
    pub fn is_selection_possible(&self, target: Target) -> (possible: bool)
        requires
            self.wf(),
        ensures
            possible == self@.select_all_effective(target.fee.rate).is_target_met(target),
    {
        let mut test: CoinSelector<'a> = self.clone();
        test.select_all_effective(target.fee.rate);
        test.is_target_met(target)
    }

    /// Select candidates until `target` has been met.
    ///
    /// Returns an error if the target was unable to be met: then every candidate that is not
    /// banned has been selected.
    pub fn select_until_target_met(&mut self, target: Target) -> (result: Result<
        (),
        InsufficientFunds,
    >)
        requires
            old(self).wf(),
            old(self)@.select_all().missing(target) <= u64::MAX,
        ensures
            final(self).wf(),
            match result {
                Ok(()) => exists|p: int|
                    {
                        &&& 0 <= p <= old(self)@.order.len()
                        &&& final(self)@ == #[trigger] old(self)@.select_upto(p)
                        &&& final(self)@.is_target_met(target)
                        &&& forall|q: int|
                            0 <= q < p ==> !(#[trigger] old(self)@.select_upto(q)).is_target_met(
                                target,
                            )
                    },
                Err(error) => {
                    &&& final(self)@ == old(self)@.select_all()
                    &&& !final(self)@.is_target_met(target)
                    &&& error.missing == final(self)@.missing(target)
                    &&& error.missing > 0
                    &&& forall|q: int|
                        0 <= q <= old(self)@.order.len() ==> !(#[trigger] old(self)@.select_upto(
                            q,
                        )).is_target_met(target)
                },
            },
    {
        let n: usize = self.candidate_order.len();
        let mut p: usize = 0;
        proof {
            assert(old(self)@.select_upto(0).selected =~= old(self)@.selected);
        }
        loop
            invariant
                p <= n,
                n == old(self)@.order.len(),
                old(self).wf(),
                old(self)@.select_all().missing(target) <= u64::MAX,
                self.wf(),
                self@ == old(self)@.select_upto(p as int),
                forall|q: int|
                    0 <= q < p ==> !(#[trigger] old(self)@.select_upto(q)).is_target_met(target),
            decreases n - p,
        {
            if self.is_target_met(target) {
                return Ok(());
            }
            if p == n {
                return Err(InsufficientFunds { missing: self.missing(target) });
            }
            let index: usize = self.candidate_order[p];
            proof {
                lemma_select_upto_step(old(self)@, p as int);
            }
            if !self.banned.contains(&index) {
                self.select(index);
            }
            p += 1;
        }
    }
}

/// The `SelectIter` allows you to select candidates one by one, from the front of the order
/// with [`next`](SelectIter::next) and from its back with [`next_back`](SelectIter::next_back).
///
/// Each item is a tuple of `(selector, last_selected_index, last_selected_candidate)`.
pub struct SelectIter<'a> {
    cs: CoinSelector<'a>,
}

impl<'a> View for SelectIter<'a> {
    type V = SelectorView;

    closed spec fn view(&self) -> SelectorView {
        self.cs@
    }
}

impl<'a> SelectIter<'a> {
    /// The invariant of the selector that the iterator holds.
    pub open spec fn wf(&self) -> bool {
        self@.wf()
    }

    /// Selects the first candidate that can still be selected, and hands out the selection
    /// with it.
    pub fn next(&mut self) -> (item: Option<(CoinSelector<'a>, usize, Candidate)>)
        requires
            old(self).wf(),
        ensures
            final(self).wf(),
            match item {
                Some((selector, index, candidate)) => {
                    &&& exists|p: int| old(self)@.is_next(p) && old(self)@.order[p] == index
                    &&& candidate == old(self)@.candidates[index as int]
                    &&& selector@ == old(self)@.select(index)
                    &&& selector.wf()
                    &&& final(self)@ == selector@
                },
                None => old(self)@.is_exhausted() && final(self)@ == old(self)@,
            },
    {
        match self.cs.next_position() {
            Some(p) => {
                let index: usize = self.cs.candidate_order[p];
                let candidate: Candidate = self.cs.candidates[index];
                self.cs.select(index);
                Some((self.cs.clone(), index, candidate))
            },
            None => None,
        }
    }

    /// Selects the last candidate that can still be selected, and hands out the selection with
    /// it.
    pub fn next_back(&mut self) -> (item: Option<(CoinSelector<'a>, usize, Candidate)>)
        requires
            old(self).wf(),
        ensures
            final(self).wf(),
            match item {
                Some((selector, index, candidate)) => {
                    &&& exists|p: int|
                        {
                            &&& 0 <= p < old(self)@.order.len()
                            &&& #[trigger] old(self)@.order[p] == index
                            &&& old(self)@.available(index)
                            &&& forall|q: int|
                                p < q < old(self)@.order.len() ==> !old(self)@.available(
                                    #[trigger] old(self)@.order[q],
                                )
                        }
                    &&& candidate == old(self)@.candidates[index as int]
                    &&& selector@ == old(self)@.select(index)
                    &&& selector.wf()
                    &&& final(self)@ == selector@
                },
                None => old(self)@.is_exhausted() && final(self)@ == old(self)@,
            },
    {
        match self.cs.last_position() {
            Some(p) => {
                let index: usize = self.cs.candidate_order[p];
                let candidate: Candidate = self.cs.candidates[index];
                self.cs.select(index);
                Some((self.cs.clone(), index, candidate))
            },
            None => None,
        }
    }
}

impl<'a> CoinSelector<'a> {
    /// All the candidates in their currently sorted order. Each item has the index with the
    /// candidate.
    pub fn candidates(&self) -> (candidates: Vec<(usize, Candidate)>)
        requires
            self.wf(),
        ensures
            candidates@ == self@.with_candidates(self@.order),
    {
        let n: usize = self.candidate_order.len();
        let mut listed: Vec<(usize, Candidate)> = Vec::new();
        let mut p: usize = 0;
        while p < n
            invariant
                p <= n,
                n == self@.order.len(),
                self.wf(),
                listed@ == self@.with_candidates(self@.order.take(p as int)),
            decreases n - p,
        {
            let index: usize = self.candidate_order[p];
            listed.push((index, self.candidates[index]));
            p += 1;
            proof {
                assert(listed@ =~= self@.with_candidates(self@.order.take(p as int)));
            }
        }
        proof {
            assert(self@.order.take(n as int) =~= self@.order);
        }
        listed
    }

    /// The indices of the unselected candidates, in sorted order.
    ///
    /// This excludes candidates that have been selected or [`banned`].
    ///
    /// [`banned`]: Self::ban
    pub fn unselected_indices(&self) -> (indices: Vec<usize>)
        requires
            self.wf(),
        ensures
            indices@ == self@.unselected_indices(),
    {
        let n: usize = self.candidate_order.len();
        let mut listed: Vec<usize> = Vec::new();
        let mut p: usize = 0;
        while p < n
            invariant
                p <= n,
                n == self@.order.len(),
                self.wf(),
                listed@ == self@.unselected_upto(p as int),
            decreases n - p,
        {
            let index: usize = self.candidate_order[p];
            if !self.selected.contains(&index) && !self.banned.contains(&index) {
                listed.push(index);
            }
            p += 1;
        }
        listed
    }

    /// The unselected candidates with their index.
    ///
    /// The candidates are returned in sorted order. See [`sort_candidates_by`].
    ///
    /// [`sort_candidates_by`]: Self::sort_candidates_by
    pub fn unselected(&self) -> (unselected: Vec<(usize, Candidate)>)
        requires
            self.wf(),
        ensures
            unselected@ == self@.with_candidates(self@.unselected_indices()),
    {
        let indices: Vec<usize> = self.unselected_indices();
        proof {
            lemma_unselected_in_range(self@, self@.order.len() as int);
        }
        self.pair_up(&indices)
    }

    /// The selected candidates with their index.
    ///
    /// The candidates are returned in sorted order. See [`sort_candidates_by`].
    ///
    /// [`sort_candidates_by`]: Self::sort_candidates_by
    pub fn selected(&self) -> (selected: Vec<(usize, Candidate)>)
        requires
            self.wf(),
        ensures
            selected@ == self@.with_candidates(self@.selected_in_order()),
    {
        let n: usize = self.candidate_order.len();
        let mut listed: Vec<usize> = Vec::new();
        let mut p: usize = 0;
        while p < n
            invariant
                p <= n,
                n == self@.order.len(),
                self.wf(),
                listed@ == self@.selected_upto(p as int),
                forall|k: int| 0 <= k < listed@.len() ==> listed@[k] < self@.candidates.len(),
            decreases n - p,
        {
            let index: usize = self.candidate_order[p];
            if self.selected.contains(&index) {
                listed.push(index);
            }
            p += 1;
        }
        self.pair_up(&listed)
    }

    /// Each index of `indices` with the candidate that has it.
    fn pair_up(&self, indices: &Vec<usize>) -> (pairs: Vec<(usize, Candidate)>)
        requires
            forall|k: int| 0 <= k < indices@.len() ==> indices@[k] < self@.candidates.len(),
        ensures
            pairs@ == self@.with_candidates(indices@),
    {
        let n: usize = indices.len();
        let mut pairs: Vec<(usize, Candidate)> = Vec::new();
        let mut k: usize = 0;
        while k < n
            invariant
                k <= n,
                n == indices@.len(),
                forall|k: int| 0 <= k < indices@.len() ==> indices@[k] < self@.candidates.len(),
                pairs@ == self@.with_candidates(indices@.take(k as int)),
            decreases n - k,
        {
            let index: usize = indices[k];
            pairs.push((index, self.candidates[index]));
            k += 1;
            proof {
                assert(pairs@ =~= self@.with_candidates(indices@.take(k as int)));
            }
        }
        proof {
            assert(indices@.take(n as int) =~= indices@);
        }
        pairs
    }

    /// Convenience method to pick elements of a slice by the indexes that are currently
    /// selected, by ascending index. Obviously the slice must represent the inputs ordered in
    /// the same way as when they were passed to [`CoinSelector::new`].
    pub fn apply_selection<T>(&self, candidates: &'a [T]) -> (picked: Vec<&'a T>)
        requires
            forall|i: usize| self@.selected.contains(i) ==> i < candidates@.len(),
        ensures
            picked@.len() == self@.selected_indices().len(),
            forall|k: int|
                0 <= k < picked@.len() ==> *(#[trigger] picked@[k]) == candidates@[self@.selected_indices()[k] as int],
    {
        let n: usize = self.candidates.len();
        let mut picked: Vec<&'a T> = Vec::new();
        let mut i: usize = 0;
        while i < n
            invariant
                i <= n,
                n == self@.candidates.len(),
                forall|i: usize| self@.selected.contains(i) ==> i < candidates@.len(),
                picked@.len() == self@.selected_below(i as int).len(),
                forall|k: int|
                    0 <= k < picked@.len() ==> *(#[trigger] picked@[k]) == candidates@[self@.selected_below(
                        i as int,
                    )[k] as int],
            decreases n - i,
        {
            if self.selected.contains(&i) {
                picked.push(&candidates[i]);
            }
            i += 1;
        }
        picked
    }

    /// Select candidates until some predicate has been satisfied. The predicate is asked of the
    /// selection as it is and then after each candidate that is selected.
    #[must_use]
    pub fn select_until<F: Fn(&CoinSelector<'a>) -> bool>(&mut self, predicate: F) -> (result: Option<()>)
        requires
            old(self).wf(),
            forall|selector: &CoinSelector<'a>| selector.wf() ==> call_requires(predicate, (selector,)),
        ensures
            final(self).wf(),
            match result {
                Some(()) => {
                    &&& exists|p: int|
                        {
                            &&& 0 <= p <= old(self)@.order.len()
                            &&& final(self)@ == #[trigger] old(self)@.select_upto(p)
                            &&& forall|q: int|
                                0 <= q < p ==> spec_refuses(
                                    predicate,
                                    #[trigger] old(self)@.select_upto(q),
                                )
                        }
                    &&& call_ensures(predicate, (final(self),), true)
                },
                None => {
                    &&& final(self)@ == old(self)@.select_all()
                    &&& call_ensures(predicate, (final(self),), false)
                    &&& forall|q: int|
                        0 <= q <= old(self)@.order.len() ==> spec_refuses(
                            predicate,
                            #[trigger] old(self)@.select_upto(q),
                        )
                },
            },
    {
        let n: usize = self.candidate_order.len();
        let mut p: usize = 0;
        proof {
            assert(old(self)@.select_upto(0).selected =~= old(self)@.selected);
        }
        if predicate(&*self) {
            return Some(());
        }
        while p < n
            invariant
                p <= n,
                n == old(self)@.order.len(),
                old(self).wf(),
                self.wf(),
                self@ == old(self)@.select_upto(p as int),
                call_ensures(predicate, (&*self,), false),
                forall|selector: &CoinSelector<'a>| selector.wf() ==> call_requires(predicate, (selector,)),
                forall|q: int|
                    0 <= q < p ==> spec_refuses(predicate, #[trigger] old(self)@.select_upto(q)),
            decreases n - p,
        {
            proof {
                assert(spec_refuses(predicate, old(self)@.select_upto(p as int))) by {
                    let witness = *self;
                    assert(witness@ == old(self)@.select_upto(p as int) && call_ensures(
                        predicate,
                        (&witness,),
                        false,
                    ));
                }
            }
            let index: usize = self.candidate_order[p];
            proof {
                lemma_select_upto_step(old(self)@, p as int);
            }
            if !self.selected.contains(&index) && !self.banned.contains(&index) {
                self.select(index);
                p += 1;
                if predicate(&*self) {
                    return Some(());
                }
            } else {
                proof {
                    assert(self@.selected.insert(index) =~= self@.selected || self@.banned.contains(
                        index,
                    ));
                }
                p += 1;
            }
        }
        proof {
            assert(spec_refuses(predicate, old(self)@.select_upto(n as int))) by {
                let witness = *self;
                assert(witness@ == old(self)@.select_upto(n as int) && call_ensures(
                    predicate,
                    (&witness,),
                    false,
                ));
            }
        }
        None
    }

    /// Return an iterator that can be used to select candidates.
    pub fn select_iter(self) -> (iter: SelectIter<'a>)
        requires
            self.wf(),
        ensures
            iter.wf(),
            iter@ == self@,
    {
        SelectIter { cs: self }
    }
}

/// Whether `predicate` has said no to the selection `selection`.
pub open spec fn spec_refuses<'a, F: Fn(&CoinSelector<'a>) -> bool>(
    predicate: F,
    selection: SelectorView,
) -> bool {
    exists|selector: CoinSelector<'a>|
        #[trigger] selector@ == selection && call_ensures(predicate, (&selector,), false)
}

/// Every index that can still be selected is the index of a candidate.
pub proof fn lemma_unselected_in_range(view: SelectorView, k: int)
    requires
        view.wf(),
        k <= view.order.len(),
    ensures
        forall|j: int|
            0 <= j < view.unselected_upto(k).len() ==> view.available(
                #[trigger] view.unselected_upto(k)[j],
            ),
        view.unselected_upto(k).len() <= if k < 0 {
            0
        } else {
            k
        },
    decreases k,
{
    if k > 0 {
        lemma_unselected_in_range(view, k - 1);
    }
}

/// An order that holds what a permutation of the candidates' indices holds is one too.
pub proof fn lemma_reordered_wf(view: SelectorView, order: Seq<usize>)
    requires
        view.wf(),
        order.len() == view.order.len(),
        order.to_multiset() == view.order.to_multiset(),
    ensures
        (SelectorView { order, ..view }).wf(),
{
    broadcast use vstd::multiset::group_multiset_axioms;

    view.order.lemma_multiset_has_no_duplicates();
    order.lemma_multiset_has_no_duplicates_conv();
    assert forall|p: int| 0 <= p < order.len() implies #[trigger] order[p] < view.candidates.len() by {
        vstd::seq_lib::to_multiset_contains(order, order[p]);
        vstd::seq_lib::to_multiset_contains(view.order, order[p]);
        assert(order.contains(order[p]));
        let q = choose|q: int| 0 <= q < view.order.len() && view.order[q] == order[p];
        assert(view.order[q] < view.candidates.len());
    }
    assert forall|i: usize| i < view.candidates.len() implies order.contains(i) by {
        vstd::seq_lib::to_multiset_contains(order, i);
        vstd::seq_lib::to_multiset_contains(view.order, i);
    }
}

impl<'a> CoinSelector<'a> {
    /// The order in which the candidates are gone through.
    pub(crate) fn order(&self) -> (order: Vec<usize>)
        ensures
            order@ == self@.order,
    {
        self.candidate_order.clone()
    }

    /// The candidates that the selector selects from.
    pub(crate) fn candidate_list(&self) -> (candidates: &'a [Candidate])
        ensures
            candidates@ == self@.candidates,
    {
        self.candidates
    }

    /// Goes through the candidates in the order `order` from now on.
    pub(crate) fn reorder(&mut self, order: Vec<usize>)
        requires
            old(self).wf(),
            order@.len() == old(self)@.order.len(),
            order@.to_multiset() == old(self)@.order.to_multiset(),
        ensures
            final(self).wf(),
            final(self)@ == (SelectorView { order: order@, ..old(self)@ }),
    {
        proof {
            lemma_reordered_wf(self@, order@);
        }
        self.candidate_order = order;
    }
}

impl<'a> CoinSelector<'a> {
    /// The waste created by the current selection as measured by the waste metric.
    ///
    /// You can pass in an `excess_discount` which must be between zero and one. Passing in one
    /// (a score with `raw == 1 << 32`) gives you no discount.
    pub fn waste(
        &self,
        target: Target,
        long_term_feerate: FeeRate,
        drain: Drain,
        excess_discount: Score,
    ) -> (waste: Score)
        requires
            self.wf(),
        ensures
            waste.raw == self@.waste(target, long_term_feerate, drain, excess_discount),
            -0x1_0000_0000_0000_0000_0000_0000 <= waste.raw <= 0x5_0000_0000_0000_0000_0000_0000,
    {
        let input_weight: u32 = self.input_weight();
        let rate_diff: i128 = target.fee.rate.raw as i128 - long_term_feerate.raw as i128;
        assert(-0xffff_ffff * 0xffff_ffff_ffff_ffff <= input_weight * rate_diff <= 0xffff_ffff
            * 0xffff_ffff_ffff_ffff) by (nonlinear_arith)
            requires
                0 <= input_weight <= 0xffff_ffff,
                -0xffff_ffff_ffff_ffff <= rate_diff <= 0xffff_ffff_ffff_ffff,
        ;
        let mut waste: i128 = (input_weight as i128) * rate_diff;
        if drain.is_none() {
            // We don't allow negative excess waste since negative excess just means you haven't
            // satisfied target yet in which case you probably shouldn't be calling this
            // function.
            let excess: i128 = self.wide_excess(target, drain);
            // we allow caller to discount this waste depending on how wasteful excess actually
            // is to them.
            let counted: i128 = if excess_discount.raw < 0 {
                0
            } else if excess_discount.raw > FIXED_ONE as i128 {
                FIXED_ONE as i128
            } else {
                excess_discount.raw
            };
            if excess > 0 {
                assert(0 <= excess * counted <= 0xffff_ffff_ffff_ffff * 0x1_0000_0000)
                    by (nonlinear_arith)
                    requires
                        0 <= excess <= 0xffff_ffff_ffff_ffff,
                        0 <= counted <= 0x1_0000_0000,
                ;
                waste = waste + excess * counted;
            }
        } else {
            waste = waste + drain.weights.waste(
                target.fee.rate,
                long_term_feerate,
                target.outputs.n_outputs,
            ).raw;
        }
        Score { raw: waste }
    }
}

} // verus!
