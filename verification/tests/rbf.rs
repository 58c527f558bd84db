use bdk_coin_select::{FeeRate, Replace};

#[test]
fn run_bitcoin_core_rbf_tests() {
    const CENT: u64 = 1_000_000;
    let low_fee = CENT / 100;
    let _normal_fee = CENT / 10;
    let high_fee = CENT;
    let incremental_relay_feerate = FeeRate::default_rbf_incremental_relay();
    // 2 sat/vb
    let higher_relay_feerate = FeeRate::from_vb(2, 1);

    assert!(pays_for_rbf(high_fee, high_fee, 4, FeeRate::zero()));
    assert!(!pays_for_rbf(high_fee, high_fee - 1, 4, FeeRate::zero()));
    assert!(!pays_for_rbf(high_fee + 1, high_fee, 4, FeeRate::zero()));
    assert!(!pays_for_rbf(
        high_fee,
        high_fee + 1,
        8,
        incremental_relay_feerate
    ));
    assert!(pays_for_rbf(
        high_fee,
        high_fee + 2,
        8,
        incremental_relay_feerate
    ));
    assert!(!pays_for_rbf(
        high_fee,
        high_fee + 2,
        8,
        higher_relay_feerate
    ));
    assert!(pays_for_rbf(
        high_fee,
        high_fee + 4,
        8,
        higher_relay_feerate
    ));
    assert!(!pays_for_rbf(
        low_fee,
        high_fee,
        99999999 * 4,
        incremental_relay_feerate
    ));
    assert!(pays_for_rbf(
        low_fee,
        high_fee + 99999999,
        99999999 * 4,
        incremental_relay_feerate
    ));
}

fn pays_for_rbf(
    replaced_fees: u64,
    replacement_fees: u64,
    replacement_weight: u32,
    relay_fee: FeeRate,
) -> bool {
    let min_fee = Replace {
        fee: replaced_fees,
        incremental_relay_feerate: relay_fee,
    }
    .min_fee_to_do_replacement(replacement_weight);

    replacement_fees >= min_fee
}

#[test]
fn replacement_fee_adds_the_weight_at_the_incremental_rate() {
    let replace = Replace {
        fee: 100_000,
        incremental_relay_feerate: FeeRate { raw: 1 << 30 },
    };
    assert_eq!(replace.min_fee_to_do_replacement(4), 100_001);
    assert_eq!(replace.min_fee_to_do_replacement(8), 100_002);
    assert_eq!(replace.min_fee_to_do_replacement(9), 100_003);
    assert_eq!(Replace::new(7).min_fee_to_do_replacement(0), 7);
    assert_eq!(Replace::new(7).incremental_relay_feerate, FeeRate::default_rbf_incremental_relay());
}

#[test]
fn implied_fee_rounds_up() {
    let one_sat_per_vb = FeeRate::from_vb(1, 1);
    assert_eq!(one_sat_per_vb, FeeRate::default_min_relay());
    assert_eq!(one_sat_per_vb.raw, 1 << 30);
    assert_eq!(one_sat_per_vb.implied_fee_wu(1), 1);
    assert_eq!(one_sat_per_vb.implied_fee(1), 1);
    assert_eq!(one_sat_per_vb.implied_fee_wu(4), 1);
    assert_eq!(one_sat_per_vb.implied_fee_wu(5), 2);
    assert_eq!(one_sat_per_vb.implied_fee(5), 2);
    assert_eq!(one_sat_per_vb.implied_fee(8), 2);
    assert_eq!(one_sat_per_vb.implied_fee(9), 3);
    assert_eq!(FeeRate::zero().implied_fee_wu(1_000), 0);
    assert_eq!(FeeRate::from_wu(3, 2).implied_fee_wu(3), 5);
    assert_eq!(FeeRate::from_wu(1, 3).raw, (1u64 << 32) / 3);
    assert_eq!(FeeRate::from_wu(1, 3).implied_fee_wu(3), 1);
    assert_eq!(FeeRate::default_min_relay_fee(), FeeRate::default_min_relay());
}
