//! Coin selection for Bitcoin transactions.
//!
//! A [`CoinSelector`] chooses which candidate inputs fund a [`Target`]. Inputs can be selected by
//! hand, greedily, or by a branch and bound search that minimises a [`BnbMetric`]; the change
//! output that takes up the excess is then given by a [`ChangePolicy`].
//!
//! Fee rates and scores are fixed-point numbers with 32 fractional bits, so every fee, excess and
//! score in this crate is an exact integer computation, and every fee is rounded up.
//!
//! The contracts speak of a selector through its [`SelectorView`](coin_selector::SelectorView):
//! the candidates, the sets of selected and banned indices and the order of the candidates. What
//! the search of [`BnbIter`] finds is stated in [`search_tree`] and [`exhaustive`].
use vstd::prelude::*;

pub mod bnb;
pub mod coin_selector;
pub mod display;
pub mod drain;
pub mod exhaustive;
pub mod feerate;
pub mod metrics;
pub mod score;
pub mod search_tree;
pub mod sorting;
pub mod target;

pub use bnb::{BnbIter, BnbMetric};
pub use coin_selector::{Candidate, CoinSelector, InsufficientFunds, NoBnbSolution, SelectIter};
pub use drain::{ChangePolicy, Drain, DrainWeights};
pub use feerate::FeeRate;
pub use score::Score;
pub use target::{Replace, Target, TargetFee, TargetOutputs};

verus! {

/// Txin "base" fields include `outpoint` (32+4) and `nSequence` (4) and 1 byte for the scriptSig
/// length.
pub const TXIN_BASE_WEIGHT: u32 = (32 + 4 + 4 + 1) * 4;

/// The weight of a TXOUT with a zero length `scriptPubKey`: the value and the script length.
pub const TXOUT_BASE_WEIGHT: u32 = 4 * 8 + 4 * 1;

/// The weight of the `nVersion` and `nLockTime` transaction fields.
pub const TX_FIXED_FIELD_WEIGHT: u32 = (4 + 4) * 4;

/// The weight of a taproot keyspend witness: witness length, item length and signature.
pub const TR_KEYSPEND_SATISFACTION_WEIGHT: u32 = 1 + 1 + 64;

/// The weight of a segwit `v1` (taproot) script pubkey in an output. This does not include the
/// weight of the `TxOut` itself or the script pubkey length field.
pub const TR_SPK_WEIGHT: u32 = (1 + 1 + 32) * 4;

/// The weight of a taproot TxIn with witness.
pub const TR_KEYSPEND_TXIN_WEIGHT: u32 = TXIN_BASE_WEIGHT + TR_KEYSPEND_SATISFACTION_WEIGHT;

/// The minimum value a taproot output can have to be relayed with Bitcoin core's default dust
/// relay fee.
pub const TR_DUST_RELAY_MIN_VALUE: u64 = 330;

/// The number of bytes that the variable-length integer encoding of `v` takes.
pub open spec fn spec_varint_size(v: int) -> int {
    if v <= 0xfc {
        1
    } else if v <= 0xffff {
        3
    } else if v <= 0xffff_ffff {
        5
    } else {
        9
    }
}

/// Helper to calculate varint size. `v` is the value the varint represents.
pub fn varint_size(v: usize) -> (size: u32)
    ensures
        size == spec_varint_size(v as int),
{
    if v <= 0xfc {
        1
    } else if v <= 0xffff {
        3
    } else if v <= 0xffff_ffff {
        5
    } else {
        9
    }
}

/// The size of a varint never shrinks when the value it encodes grows.
pub proof fn lemma_varint_size_monotonic(a: int, b: int)
    requires
        a <= b,
    ensures
        1 <= spec_varint_size(a) <= spec_varint_size(b) <= 9,
{
}

/// The weight of an output whose `scriptPubKey` is `spk_len` bytes long.
pub fn txout_weight_from_spk_len(spk_len: usize) -> (weight: u32)
    requires
        (TXOUT_BASE_WEIGHT + spec_varint_size(spk_len as int) + spk_len) * 4 <= u32::MAX,
    ensures
        weight == (TXOUT_BASE_WEIGHT + spec_varint_size(spk_len as int) + spk_len) * 4,
{
    (TXOUT_BASE_WEIGHT + varint_size(spk_len) + (spk_len as u32)) * 4
}

} // verus!
