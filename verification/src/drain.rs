//! Change outputs and the policy that decides when to add one.
use vstd::prelude::*;
use crate::feerate::{spec_div_ceil, FeeRate};
use crate::score::{Score, FIXED_ONE};
use crate::{spec_varint_size, varint_size, TR_KEYSPEND_TXIN_WEIGHT, TR_SPK_WEIGHT, TXOUT_BASE_WEIGHT};

verus! {

/// Represents the weight costs of a drain (a.k.a. change) output.
///
/// May also represent multiple outputs.
#[derive(Default, Debug, Clone, Copy, Hash, PartialEq, Eq)]
pub struct DrainWeights {
    /// The weight of including this drain output.
    ///
    /// This must take into account the weight change from varint output count.
    pub output_weight: u32,
    /// The weight of spending this drain output (in the future).
    pub spend_weight: u32,
    /// The total number of outputs that the drain will use.
    pub n_outputs: usize,
}

impl DrainWeights {
    /// `DrainWeights` for no drain at all.
    pub open spec fn spec_none() -> DrainWeights {
        DrainWeights { output_weight: 0, spend_weight: 0, n_outputs: 0 }
    }

    /// The weight that the drain adds to a transaction with `n_target_outputs` other outputs:
    /// its own output weight and what it adds to the output count's varint.
    pub open spec fn spec_extra_output_weight(&self, n_target_outputs: int) -> int {
        self.output_weight + 4 * (spec_varint_size(n_target_outputs + self.n_outputs)
            - spec_varint_size(n_target_outputs))
    }

    /// The waste of adding this drain, in the raw units of a [`Score`]: the fee for its extra
    /// output weight now, plus the fee for spending it later (neither rounded).
    pub open spec fn spec_waste(
        &self,
        feerate: FeeRate,
        long_term_feerate: FeeRate,
        n_target_outputs: int,
    ) -> int {
        self.spec_extra_output_weight(n_target_outputs) * feerate.raw + self.spend_weight
            * long_term_feerate.raw
    }

    /// `DrainWeights` for an output that will be spent with a taproot keyspend.
    pub fn tr_keyspend() -> (weights: DrainWeights)
        ensures
            weights == (DrainWeights {
                output_weight: (TXOUT_BASE_WEIGHT + TR_SPK_WEIGHT) as u32,
                spend_weight: TR_KEYSPEND_TXIN_WEIGHT,
                n_outputs: 1,
            }),
    {
        DrainWeights {
            output_weight: TXOUT_BASE_WEIGHT + TR_SPK_WEIGHT,
            spend_weight: TR_KEYSPEND_TXIN_WEIGHT,
            n_outputs: 1,
        }
    }

    /// `DrainWeights` for no drain at all.
    pub fn none() -> (weights: DrainWeights)
        ensures
            weights == DrainWeights::spec_none(),
    {
        DrainWeights { output_weight: 0, spend_weight: 0, n_outputs: 0 }
    }

    /// The waste of adding this drain to a transaction according to the waste metric.
    ///
    /// To get the precise answer you need to pass in the number of non-drain outputs
    /// (`n_target_outputs`) that you're adding to the transaction so we can include the cost of
    /// increasing the varint size of the output length.
    pub fn waste(
        &self,
        feerate: FeeRate,
        long_term_feerate: FeeRate,
        n_target_outputs: usize,
    ) -> (waste: Score)
        ensures
            waste.raw == self.spec_waste(feerate, long_term_feerate, n_target_outputs as int),
            0 <= waste.raw <= 0x3_0000_0000_0000_0000_0000_0000,
    {
        let with_drain: u32 = match n_target_outputs.checked_add(self.n_outputs) {
            Some(n) => varint_size(n),
            None => 9,
        };
        let extra_varint_weight: u32 = (with_drain - varint_size(n_target_outputs)) * 4;
        let extra_output_weight: u64 = self.output_weight as u64 + extra_varint_weight as u64;
        let rate: u64 = feerate.raw;
        let long_term_rate: u64 = long_term_feerate.raw;
        let spend_weight: u32 = self.spend_weight;
        assert(0 <= extra_output_weight * rate <= 0x2_0000_0000 * 0x1_0000_0000_0000_0000)
            by (nonlinear_arith)
            requires
                0 <= extra_output_weight <= 0x2_0000_0000,
                0 <= rate <= 0xffff_ffff_ffff_ffff,
        ;
        assert(0 <= spend_weight * long_term_rate <= 0x1_0000_0000 * 0x1_0000_0000_0000_0000)
            by (nonlinear_arith)
            requires
                0 <= spend_weight <= 0xffff_ffff,
                0 <= long_term_rate <= 0xffff_ffff_ffff_ffff,
        ;
        let now: i128 = (extra_output_weight as i128) * (rate as i128);
        let later: i128 = (spend_weight as i128) * (long_term_rate as i128);
        Score { raw: now + later }
    }

    /// The fee you will pay to spend these change output(s) in the future.
    pub fn spend_fee(&self, long_term_feerate: FeeRate) -> (fee: u64)
        ensures
            fee == long_term_feerate.spec_fee_for(self.spend_weight as int),
    {
        let fee: u128 = long_term_feerate.fee_for(self.spend_weight as u64);
        let spend_weight: u32 = self.spend_weight;
        let rate: u64 = long_term_feerate.raw;
        assert((spend_weight * rate + 0xffff_ffff) / 0x1_0000_0000 <= 0xffff_ffff_ffff_ffff) by {
            assert(spend_weight * rate <= 0xffff_ffff * 0xffff_ffff_ffff_ffff) by (nonlinear_arith)
                requires
                    0 <= spend_weight <= 0xffff_ffff,
                    0 <= rate <= 0xffff_ffff_ffff_ffff,
            ;
        }
        fee as u64
    }
}

/// A drain (A.K.A. change) output.
/// Technically it could represent multiple outputs.
///
/// This is returned from [`CoinSelector::drain`]. Note if `drain` returns a drain where
/// `is_none()` returns true then **no change should be added** to the transaction.
///
/// [`CoinSelector::drain`]: crate::CoinSelector::drain
#[derive(Clone, Copy, Debug, PartialEq, Eq, Hash, Default)]
pub struct Drain {
    /// Weight of adding drain output and spending the drain output.
    pub weights: DrainWeights,
    /// The value that should be assigned to the drain.
    pub value: u64,
}

impl Drain {
    /// The drain which represents no drain at all: every field is zero.
    pub open spec fn spec_none() -> Drain {
        Drain { weights: DrainWeights::spec_none(), value: 0 }
    }

    /// The drain which represents no drain at all. We could but don't use `Option` because this
    /// causes friction internally, instead we just use a `Drain` with all 0 values.
    pub fn none() -> (drain: Drain)
        ensures
            drain == Drain::spec_none(),
    {
        Drain { weights: DrainWeights::none(), value: 0 }
    }

    /// Is the "none" drain.
    pub fn is_none(&self) -> (none: bool)
        ensures
            none == (*self == Drain::spec_none()),
    {
        self.value == 0 && self.weights.output_weight == 0 && self.weights.spend_weight == 0
            && self.weights.n_outputs == 0
    }

    /// Is not the "none" drain.
    pub fn is_some(&self) -> (some: bool)
        ensures
            some == (*self != Drain::spec_none()),
    {
        !self.is_none()
    }
}

/// Describes when a change output (although it could represent several) should be added that
/// drains the excess in the coin selection. It includes the `drain_weights` to account for the
/// cost of adding this output(s).
#[derive(Clone, Copy, Debug, PartialEq, Eq)]
pub struct ChangePolicy {
    /// The minimum amount of excess there needs to be to add a change output.
    pub min_value: u64,
    /// The weights of the drain that would be added according to the policy.
    pub drain_weights: DrainWeights,
}

impl ChangePolicy {
    /// The satoshis that the waste of adding `drain_weights` amounts to, rounded up, when the
    /// varint of the output count is ignored.
    pub open spec fn spec_waste_threshold(
        drain_weights: DrainWeights,
        target_feerate: FeeRate,
        long_term_feerate: FeeRate,
    ) -> int {
        spec_div_ceil(
            drain_weights.spec_waste(target_feerate, long_term_feerate, 0),
            FIXED_ONE as int,
        )
    }

    /// Construct a change policy that creates change when the change value is greater than
    /// `min_value`.
    pub fn min_value(drain_weights: DrainWeights, min_value: u64) -> (policy: ChangePolicy)
        ensures
            policy == (ChangePolicy { min_value, drain_weights }),
    {
        ChangePolicy { drain_weights, min_value }
    }

    /// Construct a change policy that creates change when it would reduce the transaction waste
    /// given that `min_value` is respected.
    pub fn min_value_and_waste(
        drain_weights: DrainWeights,
        min_value: u64,
        target_feerate: FeeRate,
        long_term_feerate: FeeRate,
    ) -> (policy: ChangePolicy)
        requires
            ChangePolicy::spec_waste_threshold(drain_weights, target_feerate, long_term_feerate)
                <= u64::MAX,
        ensures
            policy.drain_weights == drain_weights,
            policy.min_value == if ChangePolicy::spec_waste_threshold(
                drain_weights,
                target_feerate,
                long_term_feerate,
            ) > min_value {
                ChangePolicy::spec_waste_threshold(drain_weights, target_feerate, long_term_feerate)
            } else {
                min_value as int
            },
    {
        // The output waste of a changeless solution is the excess.
        let waste: Score = drain_weights.waste(target_feerate, long_term_feerate, 0);
        assert(waste.raw <= 0x3_0000_0000 * 0x1_0000_0000_0000_0000) by (nonlinear_arith)
            requires
                waste.raw == (drain_weights.output_weight + 4 * (spec_varint_size(
                    0 + drain_weights.n_outputs,
                ) - spec_varint_size(0))) * target_feerate.raw + drain_weights.spend_weight
                    * long_term_feerate.raw,
                0 <= drain_weights.output_weight <= 0xffff_ffff,
                0 <= drain_weights.spend_weight <= 0xffff_ffff,
                0 <= target_feerate.raw <= 0xffff_ffff_ffff_ffff,
                0 <= long_term_feerate.raw <= 0xffff_ffff_ffff_ffff,
                0 <= spec_varint_size(0 + drain_weights.n_outputs) - spec_varint_size(0) <= 8,
        ;
        let waste_with_change: u64 = ((waste.raw + (FIXED_ONE - 1) as i128) / (FIXED_ONE as i128)) as u64;
        ChangePolicy {
            drain_weights,
            min_value: if waste_with_change > min_value {
                waste_with_change
            } else {
                min_value
            },
        }
    }
}

} // verus!
