//! Fee rates in satoshis per weight unit.
use vstd::prelude::*;
use crate::score::FIXED_ONE;

verus! {

/// A fee rate: a non-negative number of satoshis per weight unit.
///
/// The rate is a fixed-point number with 32 fractional bits: `raw` counts units of 2^-32
/// satoshis per weight unit, so one satoshi per weight unit is `raw == 1 << 32` and one satoshi
/// per virtual byte is `raw == 1 << 30`. Fee rates are ordered and compared by `raw`.
#[derive(Debug, Clone, Copy, PartialEq, Eq, PartialOrd, Ord, Hash)]
pub struct FeeRate {
    /// The rate in units of 2^-32 satoshis per weight unit.
    pub raw: u64,
}

/// `numerator / denominator` rounded up, for a non-negative numerator and a positive
/// denominator.
pub open spec fn spec_div_ceil(numerator: int, denominator: int) -> int {
    (numerator + denominator - 1) / denominator
}

/// Rounding up gives the least whole number that is not below the quotient.
pub proof fn lemma_div_ceil_is_least(numerator: int, denominator: int)
    requires
        0 <= numerator,
        0 < denominator,
    ensures
        0 <= spec_div_ceil(numerator, denominator),
        numerator <= spec_div_ceil(numerator, denominator) * denominator,
        (spec_div_ceil(numerator, denominator) - 1) * denominator < numerator || numerator == 0,
        numerator == 0 ==> spec_div_ceil(numerator, denominator) == 0,
{
    let q = (numerator + denominator - 1) / denominator;
    let r = (numerator + denominator - 1) % denominator;
    assert(numerator + denominator - 1 == q * denominator + r && 0 <= r < denominator) by {
        vstd::arithmetic::div_mod::lemma_fundamental_div_mod(
            numerator + denominator - 1,
            denominator,
        );
        vstd::arithmetic::div_mod::lemma_mod_bound(numerator + denominator - 1, denominator);
        assert(q * denominator == denominator * q) by (nonlinear_arith);
    }
    assert((q - 1) * denominator == q * denominator - denominator) by (nonlinear_arith);
    if q < 0 {
        assert(q * denominator <= -denominator) by (nonlinear_arith)
            requires
                q <= -1,
                0 < denominator,
        ;
    }
    if numerator == 0 && q != 0 {
        assert(q * denominator >= denominator) by (nonlinear_arith)
            requires
                q >= 1,
                0 < denominator,
        ;
    }
}

/// Rounding up is monotonic in the numerator.
pub proof fn lemma_div_ceil_monotonic(a: int, b: int, denominator: int)
    requires
        0 <= a <= b,
        0 < denominator,
    ensures
        spec_div_ceil(a, denominator) <= spec_div_ceil(b, denominator),
{
    vstd::arithmetic::div_mod::lemma_div_is_ordered(
        a + denominator - 1,
        b + denominator - 1,
        denominator,
    );
}

impl FeeRate {
    /// A feerate of zero.
    pub open spec fn spec_zero() -> FeeRate {
        FeeRate { raw: 0 }
    }

    /// Bitcoin core's default minimum relay feerate: one satoshi per virtual byte.
    pub open spec fn spec_default_min_relay() -> FeeRate {
        FeeRate { raw: 0x4000_0000 }
    }

    /// The fee that `weight` weight units pay at this rate: `weight * rate`, rounded up.
    pub open spec fn spec_fee_for(&self, weight: int) -> int {
        spec_div_ceil(weight * self.raw, FIXED_ONE as int)
    }

    /// The fee that a transaction of `tx_weight` pays when the rate is applied to its virtual
    /// bytes, which are its weight units divided by four and rounded up.
    pub open spec fn spec_fee_for_vbytes_of(&self, tx_weight: int) -> int {
        self.spec_fee_for(4 * spec_div_ceil(tx_weight, 4))
    }

    /// A feerate of zero.
    pub fn zero() -> (rate: FeeRate)
        ensures
            rate == FeeRate::spec_zero(),
    {
        FeeRate { raw: 0 }
    }

    /// The default minimum relay fee that bitcoin core uses (1 sat per vbyte). The feerate your
    /// transaction has must be at least this to be forwarded by most nodes on the network.
    pub fn default_min_relay() -> (rate: FeeRate)
        ensures
            rate == FeeRate::spec_default_min_relay(),
    {
        FeeRate { raw: 0x4000_0000 }
    }

    /// The default incremental relay fee that bitcoin core uses (1 sat per vbyte). You must pay
    /// this fee over the fee of the transaction(s) you are replacing through the replace-by-fee
    /// mechanism. This feerate is applied to the transaction that is replacing the old
    /// transactions.
    pub fn default_rbf_incremental_relay() -> (rate: FeeRate)
        ensures
            rate == FeeRate::spec_default_min_relay(),
    {
        FeeRate { raw: 0x4000_0000 }
    }

    /// Create a new [`FeeRate`] with the default min relay fee value.
    pub fn default_min_relay_fee() -> (rate: FeeRate)
        ensures
            rate == FeeRate::spec_default_min_relay(),
    {
        FeeRate { raw: 0x4000_0000 }
    }

    /// Calculate fee rate from `fee` and weight units (`wu`): `fee / wu` satoshis per weight
    /// unit, rounded down to a multiple of 2^-32.
    pub fn from_wu(fee: u64, wu: usize) -> (rate: FeeRate)
        requires
            wu > 0,
            (fee * FIXED_ONE) / (wu as int) <= u64::MAX,
        ensures
            rate.raw == (fee * FIXED_ONE) / (wu as int),
    {
        assert(fee * 0x1_0000_0000 <= u128::MAX) by (nonlinear_arith)
            requires
                0 <= fee <= u64::MAX,
        ;
        let scaled: u128 = (fee as u128) * (FIXED_ONE as u128);
        FeeRate { raw: (scaled / (wu as u128)) as u64 }
    }

    /// Calculate fee rate from `fee` and `vbytes`: `fee / (4 * vbytes)` satoshis per weight
    /// unit, rounded down to a multiple of 2^-32.
    pub fn from_vb(fee: u64, vbytes: usize) -> (rate: FeeRate)
        requires
            vbytes > 0,
            (fee * FIXED_ONE) / (4 * vbytes) <= u64::MAX,
        ensures
            rate.raw == (fee * FIXED_ONE) / (4 * vbytes),
    {
        assert(fee * 0x1_0000_0000 <= u128::MAX) by (nonlinear_arith)
            requires
                0 <= fee <= u64::MAX,
        ;
        let scaled: u128 = (fee as u128) * (FIXED_ONE as u128);
        let weight: u128 = 4 * (vbytes as u128);
        FeeRate { raw: (scaled / weight) as u64 }
    }

    /// The fee for `weight` weight units at this rate, in a width that holds it for every
    /// weight and every rate.
    pub fn fee_for(&self, weight: u64) -> (fee: u128)
        ensures
            fee == self.spec_fee_for(weight as int),
            fee <= weight * FIXED_ONE,
    {
        let raw: u64 = self.raw;
        assert(weight * raw + 0xffff_ffff <= u128::MAX && 0 <= weight * raw) by (nonlinear_arith)
            requires
                0 <= weight <= u64::MAX,
                0 <= raw <= u64::MAX,
        ;
        let product: u128 = (weight as u128) * (raw as u128);
        assert(product <= weight * 0x1_0000_0000 * 0x1_0000_0000 - weight) by (nonlinear_arith)
            requires
                product == weight * raw,
                0 <= weight,
                0 <= raw <= 0xffff_ffff_ffff_ffff,
        ;
        (product + (FIXED_ONE - 1) as u128) / (FIXED_ONE as u128)
    }

    /// The fee that the transaction with weight `tx_weight` should pay in order to satisfy the
    /// fee rate given by `self`, where the fee rate is applied to the rounded-up vbytes obtained
    /// from `tx_weight`.
    pub fn implied_fee(&self, tx_weight: u64) -> (fee: u64)
        requires
            tx_weight <= u64::MAX - 3,
            self.spec_fee_for_vbytes_of(tx_weight as int) <= u64::MAX,
        ensures
            fee == self.spec_fee_for_vbytes_of(tx_weight as int),
    {
        let vbytes: u64 = (tx_weight + 3) / 4;
        self.fee_for(vbytes * 4) as u64
    }

    /// Same as [implied_fee](Self::implied_fee) except the fee rate given by `self` is applied to
    /// `tx_weight` directly.
    pub fn implied_fee_wu(&self, tx_weight: u64) -> (fee: u64)
        requires
            self.spec_fee_for(tx_weight as int) <= u64::MAX,
        ensures
            fee == self.spec_fee_for(tx_weight as int),
    {
        self.fee_for(tx_weight) as u64
    }

    /// The sum of two fee rates, or `None` where it is above the largest fee rate.
    pub fn checked_add(self, rhs: FeeRate) -> (sum: Option<FeeRate>)
        ensures
            sum == if self.raw + rhs.raw <= u64::MAX {
                Some(FeeRate { raw: (self.raw + rhs.raw) as u64 })
            } else {
                None
            },
    {
        match self.raw.checked_add(rhs.raw) {
            Some(raw) => Some(FeeRate { raw }),
            None => None,
        }
    }

    /// The difference of two fee rates, or `None` where it would be negative.
    pub fn checked_sub(self, rhs: FeeRate) -> (difference: Option<FeeRate>)
        ensures
            difference == if self.raw >= rhs.raw {
                Some(FeeRate { raw: (self.raw - rhs.raw) as u64 })
            } else {
                None
            },
    {
        match self.raw.checked_sub(rhs.raw) {
            Some(raw) => Some(FeeRate { raw }),
            None => None,
        }
    }
}

impl core::ops::Add<FeeRate> for FeeRate {
    type Output = FeeRate;

    /// The sum of two fee rates.
    fn add(self, rhs: FeeRate) -> (sum: FeeRate) {
        FeeRate { raw: self.raw + rhs.raw }
    }
}

impl vstd::std_specs::ops::AddSpecImpl<FeeRate> for FeeRate {
    open spec fn obeys_add_spec() -> bool {
        true
    }

    open spec fn add_req(self, rhs: FeeRate) -> bool {
        self.raw + rhs.raw <= u64::MAX
    }

    open spec fn add_spec(self, rhs: FeeRate) -> FeeRate {
        FeeRate { raw: (self.raw + rhs.raw) as u64 }
    }
}

impl core::ops::Sub<FeeRate> for FeeRate {
    type Output = FeeRate;

    /// The difference of two fee rates, of which the second is not above the first.
    fn sub(self, rhs: FeeRate) -> (difference: FeeRate) {
        FeeRate { raw: self.raw - rhs.raw }
    }
}

impl vstd::std_specs::ops::SubSpecImpl<FeeRate> for FeeRate {
    open spec fn obeys_sub_spec() -> bool {
        true
    }

    open spec fn sub_req(self, rhs: FeeRate) -> bool {
        self.raw >= rhs.raw
    }

    open spec fn sub_spec(self, rhs: FeeRate) -> FeeRate {
        FeeRate { raw: (self.raw - rhs.raw) as u64 }
    }
}

} // verus!
