//! What a selection has to fund and the fee constraints it has to meet.
use vstd::prelude::*;
use crate::drain::DrainWeights;
use crate::feerate::FeeRate;
use crate::{spec_varint_size, varint_size};

verus! {

/// A target value to select for along with feerate constraints.
#[derive(Debug, Clone, Copy, PartialEq, Eq, Ord, PartialOrd)]
pub struct Target {
    /// The fee constraints that must be satisfied by the selection.
    pub fee: TargetFee,
    /// The aggregate properties of outputs you're trying to fund.
    pub outputs: TargetOutputs,
}

impl Target {
    /// The value target that we are trying to fund.
    pub fn value(&self) -> (value: u64)
        ensures
            value == self.outputs.value_sum,
    {
        self.outputs.value_sum
    }
}

/// Information about the outputs we're trying to fund. Note the fields are total values since we
/// don't care about the weights or the values of individual outputs for the purposes of coin
/// selection.
#[derive(Debug, Clone, Copy, PartialEq, Eq, Ord, PartialOrd)]
pub struct TargetOutputs {
    /// The sum of the values of the individual `TxOuts`s.
    pub value_sum: u64,
    /// The sum of the weights of the individual `TxOut`s.
    pub weight_sum: u32,
    /// The total number of outputs.
    pub n_outputs: usize,
}

/// The sum of the weights of the first `n` `(weight, value)` pairs of `outputs`.
pub open spec fn spec_weight_sum(outputs: Seq<(u32, u64)>, n: int) -> int
    decreases n,
{
    if n <= 0 {
        0
    } else {
        spec_weight_sum(outputs, n - 1) + outputs[n - 1].0
    }
}

/// The sum of the values of the first `n` `(weight, value)` pairs of `outputs`.
pub open spec fn spec_value_sum(outputs: Seq<(u32, u64)>, n: int) -> int
    decreases n,
{
    if n <= 0 {
        0
    } else {
        spec_value_sum(outputs, n - 1) + outputs[n - 1].1
    }
}

/// The sums over a prefix are never negative and never shrink when the prefix grows.
pub proof fn lemma_output_sums_monotonic(outputs: Seq<(u32, u64)>, i: int, j: int)
    requires
        0 <= i <= j,
    ensures
        0 <= spec_weight_sum(outputs, i) <= spec_weight_sum(outputs, j),
        0 <= spec_value_sum(outputs, i) <= spec_value_sum(outputs, j),
    decreases j,
{
    if j > 0 {
        if i < j {
            lemma_output_sums_monotonic(outputs, i, j - 1);
        } else {
            lemma_output_sums_monotonic(outputs, i - 1, j - 1);
        }
    }
}

impl TargetOutputs {
    /// The output weight of the outputs we're trying to fund: their weights and the varint of
    /// their count.
    pub open spec fn spec_output_weight(&self) -> int {
        self.weight_sum + spec_varint_size(self.n_outputs as int) * 4
    }

    /// The output weight of the target's outputs combined with the drain outputs defined by
    /// `drain_weight`. The varint is that of the combined output count.
    pub open spec fn spec_output_weight_with_drain(&self, drain_weight: DrainWeights) -> int {
        spec_varint_size(drain_weight.n_outputs + self.n_outputs) * 4 + drain_weight.output_weight
            + self.weight_sum
    }

    /// The output weight of the outputs we're trying to fund.
    pub fn output_weight(&self) -> (weight: u32)
        requires
            self.spec_output_weight() <= u32::MAX,
        ensures
            weight == self.spec_output_weight(),
    {
        self.weight_sum + varint_size(self.n_outputs) * 4
    }

    /// The output weight of the target's outputs combined with the drain outputs, in a width
    /// that holds it for every target and every drain.
    pub fn wide_output_weight_with_drain(&self, drain_weight: DrainWeights) -> (weight: u64)
        ensures
            weight == self.spec_output_weight_with_drain(drain_weight),
            weight <= 0x2_0000_0022,
    {
        let varint: u32 = match drain_weight.n_outputs.checked_add(self.n_outputs) {
            Some(n_outputs) => varint_size(n_outputs),
            None => 9,
        };
        (varint * 4) as u64 + drain_weight.output_weight as u64 + self.weight_sum as u64
    }

    /// The output weight of the target's outputs combined with the drain outputs defined by
    /// `drain_weight`.
    ///
    /// This is not a simple addition of the `drain_weight` and [`output_weight`] because of how
    /// adding the drain weights might add an extra vbyte for the length of the varint.
    ///
    /// [`output_weight`]: Self::output_weight
    pub fn output_weight_with_drain(&self, drain_weight: DrainWeights) -> (weight: u32)
        requires
            self.spec_output_weight_with_drain(drain_weight) <= u32::MAX,
        ensures
            weight == self.spec_output_weight_with_drain(drain_weight),
    {
        self.wide_output_weight_with_drain(drain_weight) as u32
    }

    /// Creates a `TargetOutputs` from a list of outputs represented as `(weight, value)` pairs.
    pub fn fund_outputs(outputs: &[(u32, u64)]) -> (target: TargetOutputs)
        requires
            spec_weight_sum(outputs@, outputs@.len() as int) <= u32::MAX,
            spec_value_sum(outputs@, outputs@.len() as int) <= u64::MAX,
        ensures
            target.n_outputs == outputs@.len(),
            target.weight_sum == spec_weight_sum(outputs@, outputs@.len() as int),
            target.value_sum == spec_value_sum(outputs@, outputs@.len() as int),
    {
        let mut n_outputs: usize = 0;
        let mut weight_sum: u32 = 0;
        let mut value_sum: u64 = 0;
        while n_outputs < outputs.len()
            invariant
                n_outputs <= outputs@.len(),
                weight_sum == spec_weight_sum(outputs@, n_outputs as int),
                value_sum == spec_value_sum(outputs@, n_outputs as int),
                spec_weight_sum(outputs@, outputs@.len() as int) <= u32::MAX,
                spec_value_sum(outputs@, outputs@.len() as int) <= u64::MAX,
            decreases outputs@.len() - n_outputs,
        {
            let (weight, value): (u32, u64) = outputs[n_outputs];
            proof {
                lemma_output_sums_monotonic(outputs@, n_outputs + 1, outputs@.len() as int);
            }
            n_outputs += 1;
            weight_sum += weight;
            value_sum += value;
        }
        TargetOutputs { n_outputs, weight_sum, value_sum }
    }
}

/// The fee constraints of a coin selection.
///
/// There are two orthogonal constraints:
///
/// - `rate`: The feerate of the transaction must at least be this high. You set this to control
///   how quickly your transaction is confirmed. Typically a coin selection will try and hit this
///   target exactly but it might go over if the `replace` constraint takes precedence or if the
///   [`ChangePolicy`] determines that the excess value should just be given to miners (rather
///   than create a change output).
/// - `replace`: The selection must have a high enough fee to satisfy RBF rule 4.
///
/// [`ChangePolicy`]: crate::ChangePolicy
#[derive(Debug, Clone, Copy, PartialEq, Eq, Ord, PartialOrd)]
pub struct TargetFee {
    /// The feerate the transaction must have.
    pub rate: FeeRate,
    /// The fee must be enough to replace this.
    pub replace: Option<Replace>,
}

impl Default for TargetFee {
    /// The default feerate is [`FeeRate::default_min_relay`] and doesn't replace anything.
    fn default() -> (fee: TargetFee)
        ensures
            fee == (TargetFee { rate: FeeRate::spec_default_min_relay(), replace: None }),
    {
        TargetFee { rate: FeeRate::default_min_relay(), replace: None }
    }
}

impl TargetFee {
    /// A target fee of 0 sats per vbyte (and no replacement).
    pub fn zero() -> (fee: TargetFee)
        ensures
            fee == (TargetFee { rate: FeeRate::spec_zero(), replace: None }),
    {
        TargetFee { rate: FeeRate::zero(), replace: None }
    }

    /// Creates a target fee from a feerate. The target won't include a replacement.
    pub fn from_feerate(feerate: FeeRate) -> (fee: TargetFee)
        ensures
            fee == (TargetFee { rate: feerate, replace: None }),
    {
        TargetFee { rate: feerate, replace: None }
    }

    /// The least fee that a replacement of weight `weight` has to pay: that of [`Replace`], or
    /// zero where nothing is replaced.
    pub open spec fn spec_replacement_fee(&self, weight: int) -> int {
        match self.replace {
            Some(replace) => replace.spec_min_fee_to_do_replacement(weight),
            None => 0,
        }
    }
}

/// The weight transaction(s) that this new transaction is replacing including the feerate.
#[derive(Debug, Clone, Copy, PartialEq, Eq, Ord, PartialOrd)]
pub struct Replace {
    /// The fee of the transaction being replaced paid.
    pub fee: u64,
    /// The incremental relay feerate (by default 1 sat per vbyte).
    pub incremental_relay_feerate: FeeRate,
}

impl Replace {
    /// The minimum fee of a replacement with weight `replacing_tx_weight`: the replaced fee plus
    /// the replacement's weight at the incremental relay feerate, rounded up.
    pub open spec fn spec_min_fee_to_do_replacement(&self, replacing_tx_weight: int) -> int {
        self.fee + self.incremental_relay_feerate.spec_fee_for(replacing_tx_weight)
    }

    /// Replace transaction(s) that paid `tx_fee` in fees assuming the default *incremental relay
    /// feerate*.
    pub fn new(tx_fee: u64) -> (replace: Replace)
        ensures
            replace == (Replace {
                fee: tx_fee,
                incremental_relay_feerate: FeeRate::spec_default_min_relay(),
            }),
    {
        Replace { fee: tx_fee, incremental_relay_feerate: FeeRate::default_rbf_incremental_relay() }
    }

    /// The minimum fee of a replacement, in a width that holds it for every weight of up to
    /// 2^34 and every fee rate.
    pub fn wide_min_fee_to_do_replacement(&self, replacing_tx_weight: u64) -> (min_fee: u128)
        requires
            replacing_tx_weight <= 0x4_0000_0000,
        ensures
            min_fee == self.spec_min_fee_to_do_replacement(replacing_tx_weight as int),
            min_fee <= 0x4_0000_0001_0000_0000_0000_0000,
    {
        let increment: u128 = self.incremental_relay_feerate.fee_for(replacing_tx_weight);
        assert(replacing_tx_weight * 0x1_0000_0000 <= 0x4_0000_0000 * 0x1_0000_0000)
            by (nonlinear_arith)
            requires
                replacing_tx_weight <= 0x4_0000_0000,
        ;
        self.fee as u128 + increment
    }

    /// The minimum fee for the transaction with weight `replacing_tx_weight` that wants to do the
    /// replacement. This is defined by RBF rule 4.
    pub fn min_fee_to_do_replacement(&self, replacing_tx_weight: u32) -> (min_fee: u64)
        requires
            self.spec_min_fee_to_do_replacement(replacing_tx_weight as int) <= u64::MAX,
        ensures
            min_fee == self.fee + self.incremental_relay_feerate.spec_fee_for(
                replacing_tx_weight as int,
            ),
    {
        self.wide_min_fee_to_do_replacement(replacing_tx_weight as u64) as u64
    }
}

} // verus!
