//! The score that branch and bound minimises.
use vstd::prelude::*;

verus! {

/// One satoshi in the raw units of a [`Score`] and of a [`FeeRate`](crate::FeeRate).
pub const FIXED_ONE: u64 = 0x1_0000_0000;

/// A totally ordered score: a signed fixed-point number with 32 fractional bits.
///
/// `raw` counts units of 2^-32. Scores are ordered and compared by `raw`, so there is exactly
/// one zero and no value that is unordered.
#[derive(Debug, Clone, Copy, PartialEq, Eq, PartialOrd, Ord, Hash)]
pub struct Score {
    /// The score in units of 2^-32.
    pub raw: i128,
}

impl Score {
    /// The score zero.
    pub open spec fn spec_zero() -> Score {
        Score { raw: 0 }
    }

    /// The score that stands for the whole number `whole`.
    pub open spec fn spec_from_whole(whole: int) -> Score
        recommends
            i128::MIN <= whole * FIXED_ONE <= i128::MAX,
    {
        Score { raw: (whole * FIXED_ONE) as i128 }
    }

    /// The score zero.
    pub fn zero() -> (score: Score)
        ensures
            score == Score::spec_zero(),
    {
        Score { raw: 0 }
    }

    /// The score that stands for the whole number `whole`.
    pub fn from_whole(whole: i64) -> (score: Score)
        ensures
            score == Score::spec_from_whole(whole as int),
            score.raw == whole * FIXED_ONE,
    {
        assert(i128::MIN <= whole * 0x1_0000_0000 <= i128::MAX) by (nonlinear_arith)
            requires
                i64::MIN <= whole <= i64::MAX,
        ;
        Score { raw: (whole as i128) * (FIXED_ONE as i128) }
    }

    /// The largest whole number that is not above this score.
    pub fn floor(&self) -> (whole: i128)
        ensures
            whole * FIXED_ONE <= self.raw < (whole + 1) * FIXED_ONE,
    {
        let q: i128 = self.raw / (FIXED_ONE as i128);
        let r: i128 = self.raw % (FIXED_ONE as i128);
        if r < 0 {
            q - 1
        } else {
            q
        }
    }

    /// Whether this score is strictly below `other`.
    pub fn lt(&self, other: &Score) -> (below: bool)
        ensures
            below == (self.raw < other.raw),
    {
        self.raw < other.raw
    }
}

/// `x / d` in the raw units of a [`Score`], rounded down: `x * 2^32 / d`.
pub open spec fn spec_scaled_quotient(x: int, d: int) -> int {
    (x * FIXED_ONE) / d
}

/// The bound that [`scaled_quotient`] keeps its quotients below: 2^126.
pub const QUOTIENT_LIMIT: u128 = 0x4000_0000_0000_0000_0000_0000_0000_0000;

/// `x * 2^32 / d`, rounded down, or `None` where that is 2^126 or more.
pub fn scaled_quotient(x: u128, d: u128) -> (quotient: Option<u128>)
    requires
        0 < d <= 0x1_0000_0000_0000_0000_0000_0000,
    ensures
        quotient == if spec_scaled_quotient(x as int, d as int) < QUOTIENT_LIMIT {
            Some(spec_scaled_quotient(x as int, d as int) as u128)
        } else {
            None
        },
{
    let q: u128 = x / d;
    let r: u128 = x % d;
    assert(r * 0x1_0000_0000 <= u128::MAX) by (nonlinear_arith)
        requires
            0 <= r < 0x1_0000_0000_0000_0000_0000_0000,
    ;
    let low: u128 = (r * (FIXED_ONE as u128)) / d;
    proof {
        let (xi, di, qi, ri) = (x as int, d as int, q as int, r as int);
        let scale = FIXED_ONE as int;
        let rest = (ri * scale) % di;
        vstd::arithmetic::div_mod::lemma_fundamental_div_mod(xi, di);
        vstd::arithmetic::div_mod::lemma_fundamental_div_mod(ri * scale, di);
        vstd::arithmetic::div_mod::lemma_mod_bound(ri * scale, di);
        assert(xi * scale == (qi * scale + low) * di + rest) by (nonlinear_arith)
            requires
                xi == di * qi + ri,
                ri * scale == di * low + rest,
        ;
        vstd::arithmetic::div_mod::lemma_fundamental_div_mod_converse(
            xi * scale,
            di,
            qi * scale + low,
            rest,
        );
        assert(low < scale) by {
            if low >= scale {
                assert(di * low >= di * scale) by (nonlinear_arith)
                    requires
                        low >= scale,
                        di > 0,
                ;
                assert(ri * scale < di * scale) by (nonlinear_arith)
                    requires
                        ri < di,
                        scale > 0,
                ;
            }
        }
        assert(qi >= 0x4000_0000_0000_0000_0000_0000 ==> qi * scale >= 0x4000_0000_0000_0000_0000_0000
            * 0x1_0000_0000) by (nonlinear_arith)
            requires
                scale == 0x1_0000_0000,
        ;
        assert(qi < 0x4000_0000_0000_0000_0000_0000 ==> qi * scale + low
            < 0x4000_0000_0000_0000_0000_0000 * 0x1_0000_0000) by (nonlinear_arith)
            requires
                scale == 0x1_0000_0000,
                0 <= low < scale,
        ;
    }
    if q >= 0x4000_0000_0000_0000_0000_0000 {
        None
    } else {
        Some(q * (FIXED_ONE as u128) + low)
    }
}

impl Score {
    /// The score with `raw` units of 2^-32, or the largest or the least score where `raw` is
    /// beyond them.
    pub open spec fn spec_saturating(raw: int) -> Score {
        Score {
            raw: if raw > i128::MAX {
                i128::MAX
            } else if raw < i128::MIN {
                i128::MIN
            } else {
                raw as i128
            },
        }
    }

    /// The score that stands for the whole number `whole`, or the largest or the least score
    /// where `whole` is beyond them.
    pub fn from_whole_saturating(whole: i128) -> (score: Score)
        ensures
            score == Score::spec_saturating(whole * FIXED_ONE),
    {
        assert(whole >= 0x8000_0000_0000_0000_0000_0000 ==> whole * 0x1_0000_0000 > i128::MAX)
            by (nonlinear_arith);
        assert(whole < -0x8000_0000_0000_0000_0000_0000 ==> whole * 0x1_0000_0000 < i128::MIN)
            by (nonlinear_arith);
        assert(-0x8000_0000_0000_0000_0000_0000 <= whole < 0x8000_0000_0000_0000_0000_0000
            ==> i128::MIN <= whole * 0x1_0000_0000 <= i128::MAX) by (nonlinear_arith);
        if whole >= 0x8000_0000_0000_0000_0000_0000 {
            Score { raw: i128::MAX }
        } else if whole < -0x8000_0000_0000_0000_0000_0000 {
            Score { raw: i128::MIN }
        } else {
            Score { raw: whole * (FIXED_ONE as i128) }
        }
    }
}

/// `x * 2^32 / d`, rounded up.
pub open spec fn spec_scaled_quotient_ceil(x: int, d: int) -> int {
    (x * FIXED_ONE + d - 1) / d
}

/// `x * 2^32 / d`, rounded up, or `None` where that is 2^126 or more.
pub fn scaled_quotient_ceil(x: u128, d: u128) -> (quotient: Option<u128>)
    requires
        0 < d <= 0x1_0000_0000_0000_0000_0000_0000,
    ensures
        quotient == if spec_scaled_quotient_ceil(x as int, d as int) < QUOTIENT_LIMIT {
            Some(spec_scaled_quotient_ceil(x as int, d as int) as u128)
        } else {
            None
        },
        spec_scaled_quotient(x as int, d as int) <= spec_scaled_quotient_ceil(x as int, d as int)
            <= spec_scaled_quotient(x as int, d as int) + 1,
{
    let q: u128 = x / d;
    let r: u128 = x % d;
    assert(r * 0x1_0000_0000 <= u128::MAX) by (nonlinear_arith)
        requires
            0 <= r < 0x1_0000_0000_0000_0000_0000_0000,
    ;
    let low: u128 = (r * (FIXED_ONE as u128)) / d;
    let rest: u128 = (r * (FIXED_ONE as u128)) % d;
    let up: u128 = if rest > 0 {
        1
    } else {
        0
    };
    proof {
        let (xi, di, qi, ri) = (x as int, d as int, q as int, r as int);
        let scale = FIXED_ONE as int;
        vstd::arithmetic::div_mod::lemma_fundamental_div_mod(xi, di);
        vstd::arithmetic::div_mod::lemma_fundamental_div_mod(ri * scale, di);
        vstd::arithmetic::div_mod::lemma_mod_bound(ri * scale, di);
        assert(xi * scale == (qi * scale + low) * di + rest) by (nonlinear_arith)
            requires
                xi == di * qi + ri,
                ri * scale == di * low + rest,
        ;
        vstd::arithmetic::div_mod::lemma_fundamental_div_mod_converse(
            xi * scale,
            di,
            qi * scale + low,
            rest as int,
        );
        if rest > 0 {
            assert(xi * scale + di - 1 == (qi * scale + low + 1) * di + (rest - 1)) by (nonlinear_arith)
                requires
                    xi * scale == (qi * scale + low) * di + rest,
            ;
            vstd::arithmetic::div_mod::lemma_fundamental_div_mod_converse(
                xi * scale + di - 1,
                di,
                qi * scale + low + 1,
                rest - 1,
            );
        } else {
            assert(xi * scale + di - 1 == (qi * scale + low) * di + (di - 1)) by (nonlinear_arith)
                requires
                    xi * scale == (qi * scale + low) * di + rest,
                    rest == 0,
            ;
            vstd::arithmetic::div_mod::lemma_fundamental_div_mod_converse(
                xi * scale + di - 1,
                di,
                qi * scale + low,
                di - 1,
            );
        }
        assert(low < scale) by {
            if low >= scale {
                assert(di * low >= di * scale) by (nonlinear_arith)
                    requires
                        low >= scale,
                        di > 0,
                ;
                assert(ri * scale < di * scale) by (nonlinear_arith)
                    requires
                        ri < di,
                        scale > 0,
                ;
            }
        }
        assert(qi >= 0x4000_0000_0000_0000_0000_0000 ==> qi * scale >= 0x4000_0000_0000_0000_0000_0000
            * 0x1_0000_0000) by (nonlinear_arith)
            requires
                scale == 0x1_0000_0000,
        ;
        assert(qi < 0x4000_0000_0000_0000_0000_0000 ==> qi * scale + low + 1
            <= 0x4000_0000_0000_0000_0000_0000 * 0x1_0000_0000) by (nonlinear_arith)
            requires
                scale == 0x1_0000_0000,
                0 <= low < scale,
        ;
    }
    if q >= 0x4000_0000_0000_0000_0000_0000 {
        None
    } else {
        let total: u128 = q * (FIXED_ONE as u128) + low + up;
        if total >= QUOTIENT_LIMIT {
            None
        } else {
            Some(total)
        }
    }
}

/// `raw` as a score's units, or the largest or the least number of them where `raw` is beyond
/// them.
pub open spec fn spec_clamp(raw: int) -> i128 {
    if raw > i128::MAX {
        i128::MAX
    } else if raw < i128::MIN {
        i128::MIN
    } else {
        raw as i128
    }
}

/// The product of `a` and `b`, or the largest or the least `i128` where it is beyond them.
pub fn saturating_mul(a: i128, b: i128) -> (product: i128)
    ensures
        product == spec_clamp(a * b),
{
    assert(((a > 0 && b > 0) || (a < 0 && b < 0) ==> a * b > 0) && ((a > 0 && b < 0) || (a < 0
        && b > 0) ==> a * b < 0) && (a == 0 || b == 0 ==> a * b == 0)) by (nonlinear_arith);
    match a.checked_mul(b) {
        Some(product) => product,
        None => if (a > 0) == (b > 0) {
            i128::MAX
        } else {
            i128::MIN
        },
    }
}

/// The sum of `a` and `b`, or the largest or the least `i128` where it is beyond them.
pub fn saturating_add(a: i128, b: i128) -> (sum: i128)
    ensures
        sum == spec_clamp(a + b),
{
    match a.checked_add(b) {
        Some(sum) => sum,
        None => if a > 0 {
            i128::MAX
        } else {
            i128::MIN
        },
    }
}

} // verus!
