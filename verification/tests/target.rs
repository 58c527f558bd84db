use bdk_coin_select::{
    txout_weight_from_spk_len, varint_size, ChangePolicy, Drain, DrainWeights, FeeRate, Replace,
    Score, Target, TargetFee, TargetOutputs, TR_DUST_RELAY_MIN_VALUE, TR_KEYSPEND_SATISFACTION_WEIGHT,
    TR_SPK_WEIGHT, TXOUT_BASE_WEIGHT, TX_FIXED_FIELD_WEIGHT,
};

const ONE: i128 = 1 << 32;

#[test]
fn weight_constants_have_their_values() {
    assert_eq!(TXOUT_BASE_WEIGHT, 36);
    assert_eq!(TX_FIXED_FIELD_WEIGHT, 32);
    assert_eq!(TR_KEYSPEND_SATISFACTION_WEIGHT, 66);
    assert_eq!(TR_SPK_WEIGHT, 136);
    assert_eq!(TR_DUST_RELAY_MIN_VALUE, 330);
}

#[test]
fn varint_size_steps_at_the_encoding_limits() {
    assert_eq!(varint_size(0), 1);
    assert_eq!(varint_size(0xfc), 1);
    assert_eq!(varint_size(0xfd), 3);
    assert_eq!(varint_size(0xffff), 3);
    assert_eq!(varint_size(0x1_0000), 5);
    assert_eq!(varint_size(0xffff_ffff), 5);
    assert_eq!(varint_size(0x1_0000_0000), 9);
    assert_eq!(varint_size(usize::MAX), 9);
}

#[test]
fn txout_weight_counts_the_script_and_its_length() {
    assert_eq!(txout_weight_from_spk_len(0), 37 * 4);
    assert_eq!(txout_weight_from_spk_len(34), (36 + 1 + 34) * 4);
    assert_eq!(txout_weight_from_spk_len(253), (36 + 3 + 253) * 4);
}

#[test]
fn feerates_are_ordered_by_their_value() {
    let quarter = FeeRate::default_min_relay();
    assert_eq!(quarter, FeeRate::default_rbf_incremental_relay());
    assert_eq!(quarter, FeeRate::from_wu(1, 4));
    assert_eq!(quarter, FeeRate::from_wu(250, 1_000));
    assert!(FeeRate::zero() < quarter);
    assert!(quarter < FeeRate::from_wu(1, 3));
    assert!(FeeRate::from_wu(1, 3) < FeeRate::from_vb(2, 1));
    assert_eq!(FeeRate::from_vb(2, 1), FeeRate::from_wu(1, 2));
    assert_eq!(FeeRate::from_vb(7, 2).raw, 7 << 29);
    assert_eq!(FeeRate::from_wu(0, 9), FeeRate::zero());
    assert_eq!(FeeRate::from_wu(u32::MAX as u64, 1).raw, (u32::MAX as u64) << 32);
}

#[test]
fn feerates_add_and_subtract() {
    let quarter = FeeRate::default_min_relay();
    let half = FeeRate::from_wu(1, 2);
    assert_eq!(quarter + quarter, half);
    assert_eq!(half - quarter, quarter);
    assert_eq!(half - half, FeeRate::zero());
    assert_eq!(quarter.checked_add(half), Some(FeeRate::from_wu(3, 4)));
    assert_eq!(FeeRate { raw: u64::MAX }.checked_add(FeeRate { raw: 1 }), None);
    assert_eq!(half.checked_sub(quarter), Some(quarter));
    assert_eq!(quarter.checked_sub(half), None);
}

#[test]
fn the_fee_for_a_weight_rounds_up() {
    let third = FeeRate::from_wu(1, 3);
    assert_eq!(third.fee_for(0), 0);
    assert_eq!(third.fee_for(1), 1);
    assert_eq!(third.fee_for(3), 1);
    assert_eq!(third.fee_for(4), 2);
    assert_eq!(FeeRate::from_wu(3, 1).fee_for(7), 21);
    assert_eq!(FeeRate { raw: 1 }.fee_for(1), 1);
    assert_eq!(FeeRate { raw: 1 }.fee_for(u64::MAX), 1 << 32);
    assert_eq!(
        FeeRate { raw: u64::MAX }.fee_for(u64::MAX),
        (u64::MAX as u128 * u64::MAX as u128 + u32::MAX as u128) >> 32
    );
    assert_eq!(FeeRate::from_wu(1, 1).implied_fee(5), 8);
    assert_eq!(FeeRate::from_wu(1, 1).implied_fee_wu(5), 5);
}

#[test]
fn scores_are_ordered_fixed_point_numbers() {
    assert_eq!(Score::zero(), Score { raw: 0 });
    assert_eq!(Score::from_whole(3).raw, 3 * ONE);
    assert_eq!(Score::from_whole(-3).raw, -3 * ONE);
    assert!(Score::from_whole(-1) < Score::zero());
    assert!(Score::zero() < Score { raw: 1 });
    assert!(Score { raw: 1 } < Score::from_whole(1));
    assert!(Score::zero().lt(&Score { raw: 1 }));
    assert!(!Score::zero().lt(&Score::zero()));
    assert_eq!(Score { raw: 5 * ONE / 2 }.floor(), 2);
    assert_eq!(Score { raw: -5 * ONE / 2 }.floor(), -3);
    assert_eq!(Score::from_whole(-4).floor(), -4);
    assert_eq!(Score::from_whole(i64::MIN).floor(), i64::MIN as i128);
    assert_eq!(Score::from_whole_saturating(7), Score::from_whole(7));
    assert_eq!(Score::from_whole_saturating((1 << 95) - 1).raw, i128::MAX - (ONE - 1));
    assert_eq!(Score::from_whole_saturating(1 << 95).raw, i128::MAX);
    assert_eq!(Score::from_whole_saturating(-(1 << 95)).raw, i128::MIN);
    assert_eq!(Score::from_whole_saturating(i128::MIN).raw, i128::MIN);
}

#[test]
fn output_weight_counts_the_varint_of_the_combined_output_count() {
    let outputs = TargetOutputs {
        value_sum: 9,
        weight_sum: 100,
        n_outputs: 1,
    };
    assert_eq!(outputs.output_weight(), 104);
    assert_eq!(outputs.output_weight_with_drain(DrainWeights::none()), 104);
    let drain = DrainWeights {
        output_weight: 50,
        spend_weight: 70,
        n_outputs: 2,
    };
    assert_eq!(outputs.output_weight_with_drain(drain), 154);
    let many = TargetOutputs {
        n_outputs: 0xfb,
        ..outputs
    };
    assert_eq!(many.output_weight(), 104);
    assert_eq!(many.output_weight_with_drain(drain), 162);
    let very_many = TargetOutputs {
        n_outputs: 0xfd,
        ..outputs
    };
    assert_eq!(very_many.output_weight(), 112);
    assert_eq!(very_many.output_weight_with_drain(drain), 162);
    assert_eq!(
        very_many.wide_output_weight_with_drain(DrainWeights {
            output_weight: u32::MAX,
            spend_weight: 0,
            n_outputs: usize::MAX
        }),
        36 + u32::MAX as u64 + 100
    );
}

#[test]
fn fund_outputs_adds_up_weights_and_values() {
    assert_eq!(
        TargetOutputs::fund_outputs(&[]),
        TargetOutputs {
            value_sum: 0,
            weight_sum: 0,
            n_outputs: 0
        }
    );
    assert_eq!(
        TargetOutputs::fund_outputs(&[(10, 100), (20, 200), (0, 7)]),
        TargetOutputs {
            value_sum: 307,
            weight_sum: 30,
            n_outputs: 3
        }
    );
}

#[test]
fn target_fees_are_made_from_a_feerate() {
    assert_eq!(
        TargetFee::default(),
        TargetFee {
            rate: FeeRate::default_min_relay(),
            replace: None
        }
    );
    assert_eq!(
        TargetFee::zero(),
        TargetFee {
            rate: FeeRate::zero(),
            replace: None
        }
    );
    assert_eq!(
        TargetFee::from_feerate(FeeRate::from_wu(3, 1)),
        TargetFee {
            rate: FeeRate::from_wu(3, 1),
            replace: None
        }
    );
    let target = Target {
        fee: TargetFee::zero(),
        outputs: TargetOutputs {
            value_sum: 77,
            weight_sum: 1,
            n_outputs: 1,
        },
    };
    assert_eq!(target.value(), 77);
    assert_eq!(
        Replace::new(5),
        Replace {
            fee: 5,
            incremental_relay_feerate: FeeRate::default_rbf_incremental_relay()
        }
    );
    assert_eq!(Replace::new(5).wide_min_fee_to_do_replacement(1 << 34), 5 + (1 << 32));
}

#[test]
fn drain_weights_cost_their_output_now_and_their_spend_later() {
    let weights = DrainWeights {
        output_weight: 50,
        spend_weight: 70,
        n_outputs: 1,
    };
    let one = FeeRate::from_wu(1, 1);
    let quarter = FeeRate::default_min_relay();
    // 50 + 17.5
    assert_eq!(weights.waste(one, quarter, 1).raw, 135 * ONE / 2);
    // the change output is the 253rd: 8 more weight units for the varint
    assert_eq!(weights.waste(one, quarter, 0xfc).raw, 151 * ONE / 2);
    assert_eq!(weights.waste(quarter, one, 1).raw, 165 * ONE / 2);
    assert_eq!(weights.waste(FeeRate::zero(), FeeRate::zero(), 1).raw, 0);
    assert_eq!(DrainWeights::none().waste(one, one, 7).raw, 0);
    assert_eq!(weights.spend_fee(quarter), 18);
    assert_eq!(weights.spend_fee(one), 70);
    assert_eq!(weights.spend_fee(FeeRate::zero()), 0);
    assert_eq!(
        DrainWeights {
            output_weight: 0,
            spend_weight: u32::MAX,
            n_outputs: 0
        }
        .spend_fee(FeeRate { raw: u64::MAX }),
        u64::MAX - u32::MAX as u64
    );
    assert_eq!(
        DrainWeights::tr_keyspend(),
        DrainWeights {
            output_weight: 172,
            spend_weight: 230,
            n_outputs: 1
        }
    );
    assert_eq!(DrainWeights::none(), DrainWeights::default());
}

#[test]
fn the_none_drain_is_all_zero() {
    assert!(Drain::none().is_none());
    assert!(!Drain::none().is_some());
    assert_eq!(Drain::none(), Drain::default());
    assert_eq!(Drain::none().value, 0);
    assert_eq!(Drain::none().weights, DrainWeights::none());
    for drain in [
        Drain {
            value: 1,
            ..Drain::none()
        },
        Drain {
            weights: DrainWeights {
                output_weight: 1,
                ..DrainWeights::none()
            },
            value: 0,
        },
        Drain {
            weights: DrainWeights {
                spend_weight: 1,
                ..DrainWeights::none()
            },
            value: 0,
        },
        Drain {
            weights: DrainWeights {
                n_outputs: 1,
                ..DrainWeights::none()
            },
            value: 0,
        },
    ] {
        assert!(drain.is_some());
        assert!(!drain.is_none());
    }
}

#[test]
fn change_policies_set_the_threshold() {
    let weights = DrainWeights {
        output_weight: 50,
        spend_weight: 70,
        n_outputs: 1,
    };
    assert_eq!(
        ChangePolicy::min_value(weights, 330),
        ChangePolicy {
            min_value: 330,
            drain_weights: weights
        }
    );
    let one = FeeRate::from_wu(1, 1);
    let quarter = FeeRate::default_min_relay();
    // the waste of the change output is 67.5
    assert_eq!(
        ChangePolicy::min_value_and_waste(weights, 50, one, quarter),
        ChangePolicy {
            min_value: 68,
            drain_weights: weights
        }
    );
    assert_eq!(
        ChangePolicy::min_value_and_waste(weights, 68, one, quarter).min_value,
        68
    );
    assert_eq!(
        ChangePolicy::min_value_and_waste(weights, 100, one, quarter).min_value,
        100
    );
    // the waste is 120: a whole number is not rounded up
    assert_eq!(
        ChangePolicy::min_value_and_waste(weights, 0, one, one).min_value,
        120
    );
    // 300 change outputs take a varint of three bytes, two more than no output
    let many = DrainWeights {
        n_outputs: 300,
        ..weights
    };
    assert_eq!(
        ChangePolicy::min_value_and_waste(many, 0, one, one).min_value,
        128
    );
}
