use bdk_coin_select::{
    Candidate, ChangePolicy, CoinSelector, Drain, DrainWeights, FeeRate, InsufficientFunds,
    Replace, Target, TargetFee, TargetOutputs, TR_KEYSPEND_TXIN_WEIGHT, TXIN_BASE_WEIGHT,
};
use std::cmp::Ordering;
use std::collections::BTreeSet;

/// One satoshi per weight unit.
fn one_sat_per_wu() -> FeeRate {
    FeeRate::from_wu(1, 1)
}

fn candidate(value: u64, weight: u32, is_segwit: bool) -> Candidate {
    Candidate {
        value,
        weight,
        input_count: 1,
        is_segwit,
    }
}

fn three_candidates() -> Vec<Candidate> {
    vec![
        candidate(1_000, 100, false),
        candidate(2_000, 200, true),
        candidate(50, 100, true),
    ]
}

fn target(value_sum: u64, rate: FeeRate, replace: Option<Replace>) -> Target {
    Target {
        fee: TargetFee { rate, replace },
        outputs: TargetOutputs {
            value_sum,
            weight_sum: 100,
            n_outputs: 1,
        },
    }
}

fn indices(of: &[usize]) -> BTreeSet<usize> {
    of.iter().copied().collect()
}

#[test]
fn a_new_selector_selects_nothing() {
    let candidates = three_candidates();
    assert!(CoinSelector::fits(&candidates));
    let cs = CoinSelector::new(&candidates);
    assert!(cs.is_empty());
    assert!(!cs.is_exhausted());
    assert_eq!(cs.selected_value(), 0);
    assert_eq!(cs.selected_indices(), &indices(&[]));
    assert_eq!(cs.banned(), &indices(&[]));
    assert_eq!(cs.unselected_indices(), vec![0, 1, 2]);
    assert_eq!(cs.candidate(1), candidates[1]);
    assert_eq!(
        cs.candidates(),
        vec![(0, candidates[0]), (1, candidates[1]), (2, candidates[2])]
    );
    // only the varint of the input count
    assert_eq!(cs.input_weight(), 4);
}

#[test]
fn candidates_whose_sums_overflow_do_not_fit() {
    let too_valuable = vec![candidate(u64::MAX, 100, true), candidate(1, 100, true)];
    assert!(!CoinSelector::fits(&too_valuable));
    let too_heavy = vec![candidate(1, u32::MAX - 50, true), candidate(1, 20, false)];
    assert!(!CoinSelector::fits(&too_heavy));
    let heavy = vec![candidate(1, u32::MAX - 50, true), candidate(1, 11, false)];
    assert!(CoinSelector::fits(&heavy));
    let too_many_inputs = vec![
        Candidate {
            value: 1,
            weight: 1,
            input_count: usize::MAX,
            is_segwit: true,
        },
        candidate(1, 1, true),
    ];
    assert!(!CoinSelector::fits(&too_many_inputs));
    assert!(CoinSelector::fits(&[]));
}

#[test]
fn select_deselect_and_ban_change_membership() {
    let candidates = three_candidates();
    let mut cs = CoinSelector::new(&candidates);
    assert!(cs.select(1));
    assert!(!cs.select(1));
    assert!(cs.is_selected(1));
    assert!(!cs.is_selected(0));
    assert!(!cs.is_empty());
    assert_eq!(cs.selected_value(), 2_000);
    cs.ban(0);
    assert_eq!(cs.banned(), &indices(&[0]));
    assert_eq!(cs.unselected_indices(), vec![2]);
    // a banned candidate can still be selected by hand
    assert!(cs.select(0));
    assert_eq!(cs.selected_indices(), &indices(&[0, 1]));
    assert_eq!(cs.selected_value(), 3_000);
    assert!(cs.deselect(1));
    assert!(!cs.deselect(1));
    assert_eq!(cs.selected_indices(), &indices(&[0]));
    assert_eq!(
        cs.selected(),
        vec![(0, candidates[0])]
    );
    assert_eq!(cs.unselected(), vec![(1, candidates[1]), (2, candidates[2])]);
}

#[test]
fn deselect_and_ban_ignore_an_index_without_candidate() {
    let candidates = three_candidates();
    let mut cs = CoinSelector::new(&candidates);
    assert!(!cs.deselect(7));
    cs.ban(7);
    assert_eq!(cs.banned(), &indices(&[]));
    assert_eq!(cs.unselected_indices(), vec![0, 1, 2]);
}

#[test]
fn select_next_takes_the_first_unselected_unbanned_candidate() {
    let candidates = three_candidates();
    let mut cs = CoinSelector::new(&candidates);
    cs.ban(0);
    assert!(cs.select_next());
    assert_eq!(cs.selected_indices(), &indices(&[1]));
    assert!(cs.select_next());
    assert_eq!(cs.selected_indices(), &indices(&[1, 2]));
    assert!(cs.is_exhausted());
    assert!(!cs.select_next());
    assert_eq!(cs.selected_indices(), &indices(&[1, 2]));
}

#[test]
fn select_all_leaves_out_the_banned() {
    let candidates = three_candidates();
    let mut cs = CoinSelector::new(&candidates);
    cs.ban(1);
    cs.select_all();
    assert_eq!(cs.selected_indices(), &indices(&[0, 2]));
    assert!(cs.is_exhausted());
    assert_eq!(cs.selected_value(), 1_050);
}

#[test]
fn input_weight_counts_the_varint_the_witness_header_and_legacy_inputs() {
    let candidates = three_candidates();
    let mut cs = CoinSelector::new(&candidates);
    cs.select(0);
    // no segwit input: varint + weight
    assert_eq!(cs.input_weight(), 4 + 100);
    cs.select(1);
    // a segwit transaction: varint + weights + 1 for the legacy input + 2 for the header
    assert_eq!(cs.input_weight(), 4 + 300 + 1 + 2);
    cs.deselect(0);
    assert_eq!(cs.input_weight(), 4 + 200 + 2);
    cs.select(2);
    assert_eq!(cs.input_weight(), 4 + 300 + 2);
}

#[test]
fn input_weight_widens_the_varint_with_the_number_of_inputs() {
    let candidates = vec![
        Candidate {
            value: 10,
            weight: 1_000,
            input_count: 0xfc,
            is_segwit: true,
        },
        candidate(10, 100, true),
    ];
    let mut cs = CoinSelector::new(&candidates);
    cs.select(0);
    assert_eq!(cs.input_weight(), 4 + 1_000 + 2);
    cs.select(1);
    // 253 inputs take a varint of three bytes
    assert_eq!(cs.input_weight(), 12 + 1_100 + 2);
}

#[test]
fn selecting_never_decreases_the_input_weight() {
    let candidates = vec![
        candidate(1_000, 100, false),
        candidate(0, 0, true),
        candidate(50, 7, false),
        Candidate {
            value: 3,
            weight: 9,
            input_count: 300,
            is_segwit: true,
        },
    ];
    for order in [[0, 1, 2, 3], [3, 2, 1, 0], [1, 0, 3, 2], [2, 3, 0, 1]] {
        let mut cs = CoinSelector::new(&candidates);
        let mut weight = cs.input_weight();
        let mut value = cs.selected_value();
        for index in order {
            cs.select(index);
            assert!(cs.input_weight() >= weight);
            assert!(cs.selected_value() >= value);
            weight = cs.input_weight();
            value = cs.selected_value();
        }
        assert_eq!(weight, 12 + 116 + 2 + 2);
    }
}

#[test]
fn weight_adds_the_fixed_fields_the_inputs_and_the_outputs() {
    let candidates = three_candidates();
    let mut cs = CoinSelector::new(&candidates);
    cs.select(1);
    let outputs = TargetOutputs {
        value_sum: 0,
        weight_sum: 100,
        n_outputs: 1,
    };
    assert_eq!(cs.weight(outputs, DrainWeights::none()), 32 + 206 + 104);
    let drain_weights = DrainWeights {
        output_weight: 50,
        spend_weight: 70,
        n_outputs: 1,
    };
    assert_eq!(cs.weight(outputs, drain_weights), 32 + 206 + 154);
    let many_outputs = TargetOutputs {
        value_sum: 0,
        weight_sum: 100,
        n_outputs: 0xfc,
    };
    assert_eq!(cs.weight(many_outputs, DrainWeights::none()), 32 + 206 + 104);
    // the change output is the 253rd, so that the varint of the output count widens
    assert_eq!(cs.weight(many_outputs, drain_weights), 32 + 206 + 162);
}

#[test]
fn excess_is_the_smaller_of_the_rate_and_the_replacement_excess() {
    let candidates = three_candidates();
    let mut cs = CoinSelector::new(&candidates);
    cs.select(1);
    // weight 342, fee 342 at one satoshi per weight unit
    let plain = target(1_000, one_sat_per_wu(), None);
    assert_eq!(cs.implied_fee_from_feerate(plain, DrainWeights::none()), 342);
    assert_eq!(cs.implied_fee(plain, DrainWeights::none()), 342);
    assert_eq!(cs.rate_excess(plain, Drain::none()), 2_000 - 1_000 - 342);
    assert_eq!(cs.replacement_excess(plain, Drain::none()), 1_000);
    assert_eq!(cs.excess(plain, Drain::none()), 658);
    assert_eq!(cs.fee(1_000, 0), 1_000);
    assert_eq!(cs.fee(1_000, 1_500), -500);

    // replacing a transaction that paid 700: at least 700 + ceil(342 / 4) = 786
    let replacing = target(1_000, one_sat_per_wu(), Some(Replace::new(700)));
    assert_eq!(cs.implied_fee(replacing, DrainWeights::none()), 786);
    assert_eq!(cs.implied_fee_from_feerate(replacing, DrainWeights::none()), 342);
    assert_eq!(cs.replacement_excess(replacing, Drain::none()), 1_000 - 786);
    assert_eq!(cs.rate_excess(replacing, Drain::none()), 658);
    assert_eq!(cs.excess(replacing, Drain::none()), 214);

    let drain = Drain {
        weights: DrainWeights {
            output_weight: 50,
            spend_weight: 70,
            n_outputs: 1,
        },
        value: 100,
    };
    // weight 392 with the change output
    assert_eq!(cs.rate_excess(plain, drain), 2_000 - 1_000 - 100 - 392);
    assert_eq!(cs.replacement_excess(replacing, drain), 2_000 - 1_000 - 100 - 700 - 98);
    assert_eq!(cs.excess(replacing, drain), 102);
}

#[test]
fn the_target_is_met_exactly_when_the_excess_is_not_negative() {
    let candidates = three_candidates();
    for value_sum in [0, 1_657, 1_658, 1_659, 5_000] {
        for replace in [None, Some(Replace::new(10)), Some(Replace::new(1_000))] {
            let target = target(value_sum, one_sat_per_wu(), replace);
            let mut cs = CoinSelector::new(&candidates);
            for index in 0..3 {
                assert_eq!(
                    cs.is_target_met(target),
                    cs.excess(target, Drain::none()) >= 0
                );
                let drain = Drain {
                    weights: DrainWeights::tr_keyspend(),
                    value: 300,
                };
                assert_eq!(
                    cs.is_target_met_with_drain(target, drain),
                    cs.excess(target, drain) >= 0
                );
                cs.select(index);
            }
        }
    }
    let mut cs = CoinSelector::new(&candidates);
    cs.select(1);
    assert!(cs.is_target_met(target(1_658, one_sat_per_wu(), None)));
    assert!(!cs.is_target_met(target(1_659, one_sat_per_wu(), None)));
}

#[test]
fn missing_is_the_shortfall() {
    let candidates = three_candidates();
    let mut cs = CoinSelector::new(&candidates);
    cs.select(1);
    assert_eq!(cs.missing(target(1_658, one_sat_per_wu(), None)), 0);
    assert_eq!(cs.missing(target(1_000, one_sat_per_wu(), None)), 0);
    assert_eq!(cs.missing(target(1_700, one_sat_per_wu(), None)), 42);
    let empty = CoinSelector::new(&candidates);
    // weight 32 + 4 + 104
    assert_eq!(empty.missing(target(1_000, one_sat_per_wu(), None)), 1_140);
}

#[test]
fn effective_value_is_the_value_minus_the_fee_for_the_inputs() {
    let candidates = three_candidates();
    let mut cs = CoinSelector::new(&candidates);
    let third = FeeRate::from_wu(1, 3);
    assert_eq!(cs.effective_value(one_sat_per_wu()), -4);
    cs.select(0);
    cs.select(1);
    assert_eq!(cs.input_weight(), 307);
    for rate in [FeeRate::zero(), FeeRate::default_min_relay(), third, one_sat_per_wu()] {
        assert_eq!(
            cs.effective_value(rate),
            cs.selected_value() as i64 - rate.implied_fee_wu(cs.input_weight() as u64) as i64
        );
    }
    assert_eq!(cs.effective_value(FeeRate::zero()), 3_000);
    // ceil(307 / 4) = 77
    assert_eq!(cs.effective_value(FeeRate::default_min_relay()), 3_000 - 77);
    // a third of a satoshi per weight unit, rounded down to 2^-32: ceil(307 / 3) = 103
    assert_eq!(cs.effective_value(third), 3_000 - 103);
    assert_eq!(cs.effective_value(one_sat_per_wu()), 3_000 - 307);
}

#[test]
fn implied_feerate_is_the_fee_per_weight() {
    let candidates = three_candidates();
    let mut cs = CoinSelector::new(&candidates);
    cs.select(1);
    let outputs = TargetOutputs {
        value_sum: 1_316,
        weight_sum: 100,
        n_outputs: 1,
    };
    // a fee of 684 for a weight of 342
    assert_eq!(
        cs.implied_feerate(outputs, Drain::none()),
        Some(FeeRate::from_wu(2, 1))
    );
    let more = TargetOutputs {
        value_sum: 2_001,
        ..outputs
    };
    assert_eq!(cs.implied_feerate(more, Drain::none()), None);
    let all = TargetOutputs {
        value_sum: 2_000,
        ..outputs
    };
    assert_eq!(cs.implied_feerate(all, Drain::none()), Some(FeeRate::zero()));
    let drain = Drain {
        weights: DrainWeights {
            output_weight: 50,
            spend_weight: 0,
            n_outputs: 0,
        },
        value: 292,
    };
    // a fee of 392 for a weight of 392
    assert_eq!(cs.implied_feerate(outputs, drain), Some(one_sat_per_wu()));
}

#[test]
fn change_takes_up_the_excess() {
    let candidates = three_candidates();
    let mut cs = CoinSelector::new(&candidates);
    cs.select(1);
    let target = target(1_000, one_sat_per_wu(), None);
    let drain_weights = DrainWeights {
        output_weight: 50,
        spend_weight: 70,
        n_outputs: 1,
    };
    // the excess with the change output's weight is 2000 - 1000 - 392 = 608
    let policy = ChangePolicy::min_value(drain_weights, 607);
    assert_eq!(cs.drain_value(target, policy), Some(608));
    let drain = cs.drain(target, policy);
    assert_eq!(
        drain,
        Drain {
            weights: drain_weights,
            value: 608
        }
    );
    assert!(drain.is_some());
    assert_eq!(cs.excess(target, drain), 0);
    assert_eq!(
        cs.is_target_met_with_drain(target, drain),
        cs.is_target_met(target)
    );
    assert!(cs.is_target_met(target));

    let policy = ChangePolicy::min_value(drain_weights, 608);
    assert_eq!(cs.drain_value(target, policy), None);
    assert_eq!(cs.drain(target, policy), Drain::none());
    assert!(cs.drain(target, policy).is_none());
}

#[test]
fn change_conserves_the_verdict_on_the_target() {
    let candidates = three_candidates();
    let drain_weights = DrainWeights {
        output_weight: 50,
        spend_weight: 70,
        n_outputs: 0xfd,
    };
    for value_sum in [0, 500, 1_000, 1_600, 3_000] {
        for min_value in [0, 1, 100, 600, 5_000] {
            for replace in [None, Some(Replace::new(300))] {
                let target = target(value_sum, FeeRate::from_wu(1, 3), replace);
                let policy = ChangePolicy::min_value(drain_weights, min_value);
                let mut cs = CoinSelector::new(&candidates);
                for index in 0..3 {
                    cs.select(index);
                    if let Some(value) = cs.drain_value(target, policy) {
                        assert!(value > min_value);
                        let drain = Drain {
                            weights: drain_weights,
                            value,
                        };
                        assert_eq!(
                            cs.is_target_met_with_drain(target, drain),
                            cs.is_target_met(target)
                        );
                        assert_eq!(cs.excess(target, drain), 0);
                    }
                }
            }
        }
    }
}

#[test]
fn select_all_effective_takes_what_pays_for_itself() {
    let candidates = three_candidates();
    let mut cs = CoinSelector::new(&candidates);
    // the third candidate is worth 50 and costs 100
    cs.select_all_effective(one_sat_per_wu());
    assert_eq!(cs.selected_indices(), &indices(&[0, 1]));
    let mut cs = CoinSelector::new(&candidates);
    cs.ban(0);
    cs.select(2);
    cs.select_all_effective(FeeRate::from_wu(10, 1));
    assert_eq!(cs.selected_indices(), &indices(&[2]));
    cs.select_all_effective(FeeRate::from_wu(9, 1));
    assert_eq!(cs.selected_indices(), &indices(&[1, 2]));
    // a candidate that is worth exactly what it costs is not effective
    let mut cs = CoinSelector::new(&candidates);
    cs.select_all_effective(FeeRate::from_wu(1, 2));
    assert_eq!(cs.selected_indices(), &indices(&[0, 1]));
}

#[test]
fn selection_is_possible_where_the_effective_candidates_meet_the_target() {
    let candidates = three_candidates();
    let mut cs = CoinSelector::new(&candidates);
    // all effective: value 3000, weight 32 + 307 + 104 = 443
    assert!(cs.is_selection_possible(target(2_557, one_sat_per_wu(), None)));
    assert!(!cs.is_selection_possible(target(2_558, one_sat_per_wu(), None)));
    cs.ban(1);
    assert!(!cs.is_selection_possible(target(1_000, one_sat_per_wu(), None)));
    // weight 32 + 104 + 104
    assert!(cs.is_selection_possible(target(760, one_sat_per_wu(), None)));
    assert!(cs.is_empty());
}

#[test]
fn select_until_target_met_stops_at_the_first_selection_that_meets_it() {
    let candidates = three_candidates();
    let mut cs = CoinSelector::new(&candidates);
    assert_eq!(
        cs.select_until_target_met(target(1_000, one_sat_per_wu(), None)),
        Ok(())
    );
    assert_eq!(cs.selected_indices(), &indices(&[0, 1]));
    let mut cs = CoinSelector::new(&candidates);
    assert_eq!(
        cs.select_until_target_met(target(700, one_sat_per_wu(), None)),
        Ok(())
    );
    assert_eq!(cs.selected_indices(), &indices(&[0]));
    let mut cs = CoinSelector::new(&candidates);
    cs.select(1);
    assert_eq!(
        cs.select_until_target_met(target(700, one_sat_per_wu(), None)),
        Ok(())
    );
    assert_eq!(cs.selected_indices(), &indices(&[1]));
}

#[test]
fn select_until_target_met_reports_what_is_missing() {
    let candidates = three_candidates();
    let mut cs = CoinSelector::new(&candidates);
    // everything selected: value 3050, weight 32 + 407 + 104 = 543
    let target = target(3_000, one_sat_per_wu(), None);
    assert_eq!(
        cs.select_until_target_met(target),
        Err(InsufficientFunds { missing: 493 })
    );
    assert_eq!(cs.selected_indices(), &indices(&[0, 1, 2]));
    assert_eq!(cs.missing(target), 493);
    assert_eq!(cs.excess(target, Drain::none()), -493);

    let mut cs = CoinSelector::new(&candidates);
    cs.ban(1);
    assert_eq!(
        cs.select_until_target_met(target),
        Err(InsufficientFunds {
            // the inputs weigh 4 + 200 + 1 + 2
            missing: 3_000 + 32 + 207 + 104 - 1_050
        })
    );
    assert_eq!(cs.selected_indices(), &indices(&[0, 2]));
    assert_eq!(
        InsufficientFunds { missing: 493 }.to_string(),
        "Insufficient funds. Missing 493 sats."
    );
}

#[test]
fn select_until_asks_the_predicate_after_each_selection() {
    let candidates = three_candidates();
    let mut cs = CoinSelector::new(&candidates);
    assert_eq!(cs.select_until(|cs| cs.selected_value() >= 2_500), Some(()));
    assert_eq!(cs.selected_indices(), &indices(&[0, 1]));
    assert_eq!(cs.select_until(|cs| cs.selected_value() >= 2_500), Some(()));
    assert_eq!(cs.selected_indices(), &indices(&[0, 1]));
    assert_eq!(cs.select_until(|cs| cs.selected_value() >= 5_000), None);
    assert_eq!(cs.selected_indices(), &indices(&[0, 1, 2]));
    let mut cs = CoinSelector::new(&candidates);
    assert_eq!(cs.select_until(|cs| cs.is_empty()), Some(()));
    assert!(cs.is_empty());
}

#[test]
fn select_iter_selects_from_both_ends() {
    let candidates = three_candidates();
    let mut cs = CoinSelector::new(&candidates);
    cs.sort_candidates_by_descending_value_pwu();
    let mut iter = cs.select_iter();
    // both of the first two are worth 10 per weight unit; the second is worth more
    let (selection, index, picked) = iter.next().expect("a candidate is left");
    assert_eq!((index, picked), (1, candidates[1]));
    assert_eq!(selection.selected_indices(), &indices(&[1]));
    let (selection, index, picked) = iter.next_back().expect("a candidate is left");
    assert_eq!((index, picked), (2, candidates[2]));
    assert_eq!(selection.selected_indices(), &indices(&[1, 2]));
    let (selection, index, _) = iter.next_back().expect("a candidate is left");
    assert_eq!(index, 0);
    assert!(selection.is_exhausted());
    assert!(iter.next().is_none());
    assert!(iter.next_back().is_none());
}

#[test]
fn sorting_by_value_per_weight_unit_is_descending_and_stable() {
    let candidates = vec![
        candidate(100, 100, true),  // 1 per weight unit
        candidate(300, 100, true),  // 3
        candidate(600, 200, true),  // 3, the higher value
        candidate(0, 0, true),      // no weight: before all that have weight
        candidate(300, 100, false), // 3, ties with the second candidate
        candidate(7, 0, true),      // no weight, the higher value
        candidate(1, 3, true),      // a third
        candidate(1_000_000_000_000, 3_000_000_000, true),
    ];
    let mut cs = CoinSelector::new(&candidates);
    cs.select(4);
    cs.ban(2);
    cs.sort_candidates_by_descending_value_pwu();
    assert_eq!(
        cs.candidates().iter().map(|(i, _)| *i).collect::<Vec<_>>(),
        vec![5, 3, 7, 2, 1, 4, 0, 6]
    );
    assert_eq!(cs.selected_indices(), &indices(&[4]));
    assert_eq!(cs.banned(), &indices(&[2]));
    assert_eq!(cs.unselected_indices(), vec![5, 3, 7, 1, 0, 6]);
    // sorting what is sorted changes nothing
    cs.sort_candidates_by_descending_value_pwu();
    assert_eq!(cs.unselected_indices(), vec![5, 3, 7, 1, 0, 6]);
}

#[test]
fn sorting_by_key_is_ascending_and_stable() {
    let candidates = three_candidates();
    let mut cs = CoinSelector::new(&candidates);
    cs.sort_candidates_by_key(|(_, candidate)| -(candidate.value as i128));
    assert_eq!(cs.unselected_indices(), vec![1, 0, 2]);
    cs.sort_candidates_by_key(|(_, candidate)| candidate.weight as i128);
    assert_eq!(cs.unselected_indices(), vec![0, 2, 1]);
    cs.sort_candidates_by_key(|(index, _)| index as i128);
    assert_eq!(cs.unselected_indices(), vec![0, 1, 2]);
    cs.sort_candidates_by_key(|_| 0);
    assert_eq!(cs.unselected_indices(), vec![0, 1, 2]);
}

#[test]
fn sorting_by_comparison_orders_the_candidates() {
    let candidates = three_candidates();
    let mut cs = CoinSelector::new(&candidates);
    cs.select(2);
    cs.sort_candidates_by(|(_, a), (_, b)| b.value.cmp(&a.value));
    assert_eq!(
        cs.candidates().iter().map(|(i, _)| *i).collect::<Vec<_>>(),
        vec![1, 0, 2]
    );
    assert_eq!(cs.selected_indices(), &indices(&[2]));
    cs.sort_candidates_by(|(a, _), (b, _)| a.cmp(&b));
    assert_eq!(cs.unselected_indices(), vec![0, 1]);
    cs.sort_candidates_by(|(_, a), (_, b)| a.weight.cmp(&b.weight));
    assert_eq!(
        cs.candidates().iter().map(|(i, _)| *i).collect::<Vec<_>>(),
        vec![0, 2, 1]
    );
    cs.sort_candidates_by(|_, _| Ordering::Equal);
    assert_eq!(
        cs.candidates().iter().map(|(i, _)| *i).collect::<Vec<_>>(),
        vec![0, 2, 1]
    );
}

#[test]
fn apply_selection_picks_by_the_selected_indices() {
    let candidates = three_candidates();
    let names = ["first", "second", "third"];
    let mut cs = CoinSelector::new(&candidates);
    cs.select(2);
    cs.select(0);
    assert_eq!(cs.apply_selection(&names), vec![&"first", &"third"]);
    cs.deselect(0);
    assert_eq!(cs.apply_selection(&names), vec![&"third"]);
}

#[test]
fn a_selection_reads_as_its_candidates_with_their_marks() {
    let candidates = three_candidates();
    let mut cs = CoinSelector::new(&candidates);
    assert_eq!(cs.to_string(), "[0☐, 1☐, 2☐]");
    cs.select(0);
    cs.ban(2);
    assert_eq!(cs.to_string(), "[0✔, 1☐, 2✘]");
    cs.ban(0);
    cs.sort_candidates_by_key(|(_, candidate)| -(candidate.value as i128));
    assert_eq!(cs.to_string(), "[1☐, 0✔, 2✘]");
    let none: Vec<Candidate> = vec![];
    assert_eq!(CoinSelector::new(&none).to_string(), "[]");
    let many = vec![candidate(1, 1, true); 12];
    let mut cs = CoinSelector::new(&many);
    cs.select(10);
    assert_eq!(
        cs.to_string(),
        "[0☐, 1☐, 2☐, 3☐, 4☐, 5☐, 6☐, 7☐, 8☐, 9☐, 10✔, 11☐]"
    );
}

#[test]
fn candidates_are_made_with_the_base_weight_of_an_input() {
    assert_eq!(TXIN_BASE_WEIGHT, 164);
    assert_eq!(TR_KEYSPEND_TXIN_WEIGHT, 230);
    assert_eq!(
        Candidate::new(5, 10, false),
        Candidate {
            value: 5,
            weight: 174,
            input_count: 1,
            is_segwit: false
        }
    );
    assert_eq!(
        Candidate::new_tr_keyspend(7),
        Candidate {
            value: 7,
            weight: 230,
            input_count: 1,
            is_segwit: true
        }
    );
}

#[test]
fn candidate_figures_are_exact_fixed_point_numbers() {
    let one: i128 = 1 << 32;
    let coin = candidate(1_000, 300, true);
    let quarter = FeeRate::default_min_relay();
    assert_eq!(coin.effective_value(quarter).raw, 925 * one);
    assert_eq!(coin.effective_value(FeeRate::from_wu(4, 1)).raw, -200 * one);
    assert_eq!(coin.effective_value(FeeRate::from_wu(1, 3)).raw, 1_000 * one - 300 * (one / 3));
    assert_eq!(coin.implied_fee(quarter).raw, 75 * one);
    assert_eq!(coin.value_pwu().raw, 1_000 * one / 300);
    assert_eq!(candidate(600, 200, true).value_pwu().raw, 3 * one);
    assert_eq!(candidate(600, 200, true).effective_value_pwu(quarter).raw, 3 * one - one / 4);
    assert_eq!(coin.fee_per_value(FeeRate::from_wu(10, 1)).raw, 3 * one);
    assert_eq!(coin.fee_per_value(quarter).raw, 75 * one / 1_000);
}

#[test]
fn selected_candidates_come_in_the_current_order() {
    let candidates = three_candidates();
    let mut cs = CoinSelector::new(&candidates);
    cs.select(2);
    cs.select(0);
    cs.select(1);
    assert_eq!(
        cs.selected(),
        vec![(0, candidates[0]), (1, candidates[1]), (2, candidates[2])]
    );
    cs.sort_candidates_by_key(|(_, candidate)| -(candidate.value as i128));
    assert_eq!(
        cs.selected(),
        vec![(1, candidates[1]), (0, candidates[0]), (2, candidates[2])]
    );
    cs.deselect(0);
    cs.ban(1);
    assert_eq!(
        cs.selected(),
        vec![(1, candidates[1]), (2, candidates[2])]
    );
    // the indices themselves are kept by ascending index
    assert_eq!(cs.selected_indices(), &indices(&[1, 2]));
}

#[test]
fn sorting_by_comparison_keeps_the_order_of_equal_candidates() {
    let candidates = vec![
        candidate(5, 200, true),
        candidate(1, 100, true),
        candidate(2, 200, true),
        candidate(3, 100, true),
        candidate(4, 200, true),
        candidate(6, 100, true),
    ];
    let mut cs = CoinSelector::new(&candidates);
    cs.sort_candidates_by(|(_, a), (_, b)| a.weight.cmp(&b.weight));
    assert_eq!(cs.unselected_indices(), vec![1, 3, 5, 0, 2, 4]);
    cs.sort_candidates_by(|(_, a), (_, b)| b.weight.cmp(&a.weight));
    assert_eq!(cs.unselected_indices(), vec![0, 2, 4, 1, 3, 5]);
    cs.sort_candidates_by(|(_, a), (_, b)| (a.value % 2).cmp(&(b.value % 2)));
    assert_eq!(cs.unselected_indices(), vec![2, 4, 5, 0, 1, 3]);
    cs.sort_candidates_by(|_, _| Ordering::Greater);
    assert_eq!(cs.unselected_indices(), vec![2, 4, 5, 0, 1, 3]);
}

#[test]
fn effective_value_is_exact_beyond_sixty_four_bits() {
    let candidates = vec![candidate(u64::MAX, 100, true)];
    let mut cs = CoinSelector::new(&candidates);
    cs.select(0);
    assert_eq!(cs.wide_effective_value(FeeRate::zero()), u64::MAX as i128);
    assert_eq!(
        cs.wide_effective_value(FeeRate { raw: u64::MAX }),
        u64::MAX as i128 - ((106 * u64::MAX as i128 + u32::MAX as i128) >> 32)
    );
    let one = vec![candidate(100_000, 100, true)];
    let mut cs = CoinSelector::new(&one);
    cs.select(0);
    // ceil(106 / 4) = 27
    assert_eq!(cs.wide_effective_value(FeeRate::default_min_relay()), 99_973);
    assert_eq!(cs.effective_value(FeeRate::default_min_relay()), 99_973);
}
