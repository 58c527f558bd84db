use bdk_coin_select::metrics::{change_lower_bound, Changeless, LowestFee, Waste};
use bdk_coin_select::{
    BnbMetric, Candidate, ChangePolicy, CoinSelector, Drain, DrainWeights, FeeRate, NoBnbSolution,
    Replace, Score, Target, TargetFee, TargetOutputs,
};
use proptest::test_runner::{RngAlgorithm, TestRng};
use rand::Rng;
use std::collections::BTreeSet;

const ONE: i128 = 1 << 32;

fn one_sat_per_wu() -> FeeRate {
    FeeRate::from_wu(1, 1)
}

fn candidate(value: u64, weight: u32, is_segwit: bool) -> Candidate {
    Candidate {
        value,
        weight,
        input_count: 1,
        is_segwit,
    }
}

fn three_candidates() -> Vec<Candidate> {
    vec![
        candidate(1_000, 100, false),
        candidate(2_000, 200, true),
        candidate(50, 100, true),
    ]
}

fn target(value_sum: u64, rate: FeeRate) -> Target {
    Target {
        fee: TargetFee {
            rate,
            replace: None,
        },
        outputs: TargetOutputs {
            value_sum,
            weight_sum: 100,
            n_outputs: 1,
        },
    }
}

fn drain_weights() -> DrainWeights {
    DrainWeights {
        output_weight: 50,
        spend_weight: 70,
        n_outputs: 1,
    }
}

fn indices(of: &[usize]) -> BTreeSet<usize> {
    of.iter().copied().collect()
}

fn gen_candidates(n: usize) -> Vec<Candidate> {
    let mut rng = TestRng::deterministic_rng(RngAlgorithm::ChaCha);
    core::iter::repeat_with(move || {
        let value = rng.gen_range(1..500_001);
        let weight = rng.gen_range(1..2001);
        let input_count = rng.gen_range(1..3);
        let is_segwit = rng.gen_bool(0.01);

        Candidate {
            value,
            weight,
            input_count,
            is_segwit,
        }
    })
    .take(n)
    .collect()
}

/// The least score that `metric` gives to a selection of unbanned candidates on top of `cs`.
fn least_score<M: BnbMetric>(cs: &CoinSelector<'_>, metric: &mut M) -> Option<Score> {
    let free = cs.unselected_indices();
    let mut least = None;
    for subset in 0..(1_u32 << free.len()) {
        let mut selection = cs.clone();
        for (bit, index) in free.iter().enumerate() {
            if subset & (1 << bit) != 0 {
                selection.select(*index);
            }
        }
        if let Some(score) = metric.score(&selection) {
            if least.map_or(true, |least| score < least) {
                least = Some(score);
            }
        }
    }
    least
}

/// Runs branch and bound to its end; returns the scores that it found and the rounds.
fn search<M: BnbMetric>(cs: &CoinSelector<'_>, metric: M) -> (Vec<Score>, usize) {
    let mut solutions = cs.bnb_solutions(metric);
    let mut scores = vec![];
    let mut rounds = 0;
    while let Some(item) = solutions.next() {
        rounds += 1;
        if let Some((_, score)) = item {
            scores.push(score);
        }
    }
    (scores, rounds)
}

#[test]
fn changeless_scores_zero_without_change_only() {
    let candidates = three_candidates();
    let mut cs = CoinSelector::new(&candidates);
    let target = target(1_000, one_sat_per_wu());
    let mut with_change = Changeless {
        target,
        change_policy: ChangePolicy::min_value(drain_weights(), 607),
    };
    let mut without_change = Changeless {
        target,
        change_policy: ChangePolicy::min_value(drain_weights(), 608),
    };
    // the target is not met
    assert_eq!(with_change.score(&cs), None);
    assert_eq!(without_change.score(&cs), None);
    cs.select(1);
    // the excess with a change output is 608
    assert_eq!(with_change.score(&cs), None);
    assert_eq!(without_change.score(&cs), Some(Score::zero()));
    assert!(with_change.requires_ordering_by_descending_value_pwu());
}

#[test]
fn changeless_bounds_by_the_least_excess() {
    let candidates = three_candidates();
    let mut cs = CoinSelector::new(&candidates);
    let target = target(1_000, one_sat_per_wu());
    cs.select(1);
    // with the third candidate, which costs more than it is worth, the excess with a change
    // output is 2050 - 1000 - 492 = 558
    let policy = ChangePolicy::min_value(drain_weights(), 558);
    assert_eq!(change_lower_bound(&cs, target, policy), Drain::none());
    assert_eq!(
        Changeless {
            target,
            change_policy: policy
        }
        .bound(&cs),
        Some(Score::zero())
    );
    let policy = ChangePolicy::min_value(drain_weights(), 557);
    assert_eq!(
        change_lower_bound(&cs, target, policy),
        Drain {
            weights: drain_weights(),
            value: 558
        }
    );
    assert_eq!(
        Changeless {
            target,
            change_policy: policy
        }
        .bound(&cs),
        None
    );
    // without change now there is no change to come
    let empty = CoinSelector::new(&candidates);
    assert_eq!(change_lower_bound(&empty, target, policy), Drain::none());
}

#[test]
fn the_changeless_bound_is_a_heuristic() {
    // a segwit input of positive effective value that costs a legacy selection more than it
    // brings: its weight, one unit for the legacy input and two for the witness header
    let candidates = vec![candidate(1_000, 100, false), candidate(101, 100, true)];
    let target = target(500, one_sat_per_wu());
    let weights = DrainWeights {
        output_weight: 0,
        spend_weight: 0,
        n_outputs: 1,
    };
    let mut cs = CoinSelector::new(&candidates);
    cs.sort_candidates_by_descending_value_pwu();
    cs.select(0);
    let excess = cs.excess(
        target,
        Drain {
            weights,
            value: 0,
        },
    );
    assert_eq!(excess, 1_000 - 500 - 240);
    let mut metric = Changeless {
        target,
        change_policy: ChangePolicy::min_value(weights, excess as u64 - 1),
    };
    assert_eq!(metric.bound(&cs), None);
    cs.select(1);
    assert_eq!(
        cs.excess(
            target,
            Drain {
                weights,
                value: 0
            }
        ),
        excess - 2
    );
    assert_eq!(metric.score(&cs), Some(Score::zero()));
}

#[test]
fn lowest_fee_scores_the_fee_and_the_cost_of_spending_the_change() {
    let candidates = three_candidates();
    let mut cs = CoinSelector::new(&candidates);
    let target = target(1_000, one_sat_per_wu());
    let mut with_change = LowestFee {
        target,
        long_term_feerate: FeeRate::default_min_relay(),
        change_policy: ChangePolicy::min_value(drain_weights(), 607),
    };
    let mut without_change = LowestFee {
        change_policy: ChangePolicy::min_value(drain_weights(), 608),
        ..with_change
    };
    assert_eq!(with_change.score(&cs), None);
    cs.select(1);
    // a fee of 2000 - 1000 - 608 and ceil(70 / 4) for spending the change
    assert_eq!(with_change.score(&cs), Some(Score::from_whole(392 + 18)));
    assert_eq!(without_change.score(&cs), Some(Score::from_whole(1_000)));
    assert!(with_change.requires_ordering_by_descending_value_pwu());
}

#[test]
fn lowest_fee_scores_a_selection_that_pays_no_fee() {
    let candidates = vec![candidate(1_000, 100, true)];
    let mut cs = CoinSelector::new(&candidates);
    cs.select(0);
    let mut metric = LowestFee {
        target: target(1_000, FeeRate::zero()),
        long_term_feerate: FeeRate::zero(),
        change_policy: ChangePolicy::min_value(drain_weights(), 0),
    };
    assert_eq!(metric.score(&cs), Some(Score::zero()));
    assert_eq!(metric.bound(&cs), Some(Score::zero()));
}

#[test]
fn lowest_fee_bounds_a_selection_that_meets_the_target() {
    let candidates = three_candidates();
    let mut cs = CoinSelector::new(&candidates);
    let target = target(1_000, one_sat_per_wu());
    cs.select(1);
    let mut without_change = LowestFee {
        target,
        long_term_feerate: FeeRate::default_min_relay(),
        change_policy: ChangePolicy::min_value(drain_weights(), 608),
    };
    // with change the excess of 658 would be saved at a cost of 50 + 17.5
    assert_eq!(
        without_change.bound(&cs),
        Some(Score {
            raw: (2 * (1_000 - 658) + 135) * ONE / 2
        })
    );
    let mut with_change = LowestFee {
        change_policy: ChangePolicy::min_value(drain_weights(), 607),
        ..without_change
    };
    // to get rid of the change costs the change and more than one satoshi: no gain
    assert_eq!(with_change.bound(&cs), Some(Score::from_whole(410)));
    let mut costly_change = LowestFee {
        target,
        long_term_feerate: FeeRate::from_wu(20, 1),
        change_policy: ChangePolicy::min_value(drain_weights(), 607),
    };
    // the change costs 50 now and 1400 later; without it the fee grows by 1 + 608
    assert_eq!(
        costly_change.score(&cs),
        Some(Score::from_whole(392 + 1_400))
    );
    assert_eq!(
        costly_change.bound(&cs),
        Some(Score::from_whole(392 + 1_400 + 609 - 1_450))
    );
    // no candidate is left that would take up the excess
    cs.select(0);
    cs.select(2);
    let score = costly_change.score(&cs);
    assert_eq!(costly_change.bound(&cs), score);
}

#[test]
fn lowest_fee_bounds_a_selection_that_does_not_meet_the_target() {
    let candidates = three_candidates();
    let cs = CoinSelector::new(&candidates);
    let mut metric = LowestFee {
        target: target(1_000, one_sat_per_wu()),
        long_term_feerate: FeeRate::default_min_relay(),
        change_policy: ChangePolicy::min_value(drain_weights(), 607),
    };
    // the first candidate leaves 240 to pay; the second brings 1800 with its 2000
    assert_eq!(metric.bound(&cs), Some(Score::from_whole(240 * 2_000 / 1_800)));
    // nothing meets a target of 3000
    metric.target = target(3_000, one_sat_per_wu());
    assert_eq!(metric.bound(&cs), None);
    // what replacing asks can ask for more of the candidate
    metric.target = Target {
        fee: TargetFee {
            rate: one_sat_per_wu(),
            replace: Some(Replace {
                fee: 500,
                incremental_relay_feerate: FeeRate::from_wu(2, 1),
            }),
        },
        ..target(1_000, one_sat_per_wu())
    };
    // the first candidate leaves 500 + 480 to pay; the second brings 1600 at the relay feerate
    assert_eq!(metric.bound(&cs), Some(Score::from_whole(980 * 2_000 / 1_600)));
}

#[test]
fn waste_scores_the_inputs_and_the_change_or_the_excess() {
    let candidates = three_candidates();
    let mut cs = CoinSelector::new(&candidates);
    let target = target(1_000, one_sat_per_wu());
    let quarter = FeeRate::default_min_relay();
    let mut with_change = Waste {
        target,
        long_term_feerate: quarter,
        change_policy: ChangePolicy::min_value(drain_weights(), 607),
    };
    let mut without_change = Waste {
        change_policy: ChangePolicy::min_value(drain_weights(), 608),
        ..with_change
    };
    assert_eq!(with_change.score(&cs), None);
    cs.select(1);
    // the inputs weigh 206 and cost 0.75 each beyond the long term; the change costs 67.5
    assert_eq!(with_change.score(&cs), Some(Score::from_whole(222)));
    // without change the excess of 658 is wasted
    assert_eq!(
        without_change.score(&cs),
        Some(Score {
            raw: 1_625 * ONE / 2
        })
    );
    assert_eq!(
        cs.waste(target, quarter, Drain::none(), Score::from_whole(1)),
        Score {
            raw: 1_625 * ONE / 2
        }
    );
    assert_eq!(
        cs.waste(target, quarter, Drain::none(), Score::zero()),
        Score { raw: 309 * ONE / 2 }
    );
    assert_eq!(
        cs.waste(target, quarter, Drain::none(), Score { raw: ONE / 2 }),
        Score {
            raw: (309 + 658) * ONE / 2
        }
    );
    // a discount beyond one counts as one, one below zero as zero
    assert_eq!(
        cs.waste(target, quarter, Drain::none(), Score::from_whole(3)),
        Score {
            raw: 1_625 * ONE / 2
        }
    );
    assert_eq!(
        cs.waste(target, quarter, Drain::none(), Score::from_whole(-3)),
        Score { raw: 309 * ONE / 2 }
    );
    // a long term feerate above the feerate makes the inputs a gain
    assert_eq!(
        cs.waste(target, FeeRate::from_wu(2, 1), Drain::none(), Score::zero()),
        Score::from_whole(-206)
    );
    assert!(with_change.requires_ordering_by_descending_value_pwu());
}

#[test]
fn waste_bounds_by_consolidating_where_the_long_term_feerate_is_higher() {
    let candidates = three_candidates();
    let cs = CoinSelector::new(&candidates);
    let mut metric = Waste {
        target: target(1_000, one_sat_per_wu()),
        long_term_feerate: FeeRate::from_wu(2, 1),
        change_policy: ChangePolicy::min_value(drain_weights(), 607),
    };
    // everything selected weighs 407 and has a change output that costs 50 + 140;
    // the two last candidates have no change and weigh 306
    assert_eq!(metric.bound(&cs), Some(Score::from_whole(-306)));
    metric.change_policy = ChangePolicy::min_value(drain_weights(), 0);
    // with the last candidate alone nothing is left without change
    assert_eq!(metric.bound(&cs), Some(Score::from_whole(-407 + 190)));
    metric.target = target(2_558, one_sat_per_wu());
    assert_eq!(metric.bound(&cs), None);
}

#[test]
fn waste_bounds_by_the_lightest_inputs_where_the_feerate_is_higher() {
    let candidates = three_candidates();
    let mut cs = CoinSelector::new(&candidates);
    let quarter = FeeRate::default_min_relay();
    let mut metric = Waste {
        target: target(1_000, one_sat_per_wu()),
        long_term_feerate: quarter,
        change_policy: ChangePolicy::min_value(drain_weights(), 607),
    };
    // the first candidate has the value of the target; the second, which has the target met,
    // is resized to no weight beside the 104 of the first
    assert_eq!(metric.bound(&cs), Some(Score::from_whole(78)));
    // the first candidate leaves 500 of the value and 740 with the fee to pay; the second is
    // resized by -ceil(500 * 200 / 2000) = -50, which is above -ceil(740 * 200 / 1800) = -83
    metric.target = target(1_500, one_sat_per_wu());
    assert_eq!(
        metric.bound(&cs),
        Some(Score {
            raw: (104 - 50) * 3 * ONE / 4
        })
    );
    metric.target = target(3_000, one_sat_per_wu());
    assert_eq!(metric.bound(&cs), None);
    metric.target = target(1_000, one_sat_per_wu());
    cs.select(1);
    // with change the waste is 222; change is not bound to come, since with the last
    // candidate the excess falls to 558, but that selection wastes 306 * 0.75 + 608
    assert_eq!(metric.bound(&cs), Some(Score::from_whole(222)));
    metric.change_policy = ChangePolicy::min_value(drain_weights(), 608);
    // without change the waste is 154.5 + 658; with the last candidate, which leaves no
    // candidate of negative effective value, it is 229.5 + 608
    assert_eq!(
        metric.bound(&cs),
        Some(Score {
            raw: 1_625 * ONE / 2
        })
    );
}

#[test]
fn run_bnb_replaces_the_selection_by_the_best() {
    let candidates = three_candidates();
    let mut cs = CoinSelector::new(&candidates);
    let metric = LowestFee {
        target: target(1_000, one_sat_per_wu()),
        long_term_feerate: FeeRate::default_min_relay(),
        change_policy: ChangePolicy::min_value(drain_weights(), 100),
    };
    let score = cs.run_bnb(metric, 1_000).expect("a selection meets the target");
    // the second candidate with a change of 608: a fee of 392 and 18 for spending the change
    assert_eq!(cs.selected_indices(), &indices(&[1]));
    assert_eq!(score, Score::from_whole(410));
    assert_eq!(metric.clone().score(&cs), Some(score));
    let mut all = CoinSelector::new(&candidates);
    assert_eq!(least_score(&all, &mut metric.clone()), Some(score));
    all.select_all();
    assert!(metric.clone().score(&all).expect("meets the target") > score);
}

#[test]
fn run_bnb_fails_without_a_solution() {
    let candidates = three_candidates();
    let mut cs = CoinSelector::new(&candidates);
    cs.select(2);
    let metric = LowestFee {
        target: target(3_000, one_sat_per_wu()),
        long_term_feerate: FeeRate::default_min_relay(),
        change_policy: ChangePolicy::min_value(drain_weights(), 100),
    };
    assert_eq!(
        cs.run_bnb(metric, 1_000),
        Err(NoBnbSolution {
            max_rounds: 1_000,
            rounds: 0
        })
    );
    assert_eq!(cs.selected_indices(), &indices(&[2]));
    let possible = LowestFee {
        target: target(1_000, one_sat_per_wu()),
        ..metric
    };
    assert_eq!(
        cs.run_bnb(possible, 0),
        Err(NoBnbSolution {
            max_rounds: 0,
            rounds: 0
        })
    );
    assert_eq!(
        cs.run_bnb(possible, 1),
        Err(NoBnbSolution {
            max_rounds: 1,
            rounds: 1
        })
    );
    assert_eq!(cs.selected_indices(), &indices(&[2]));
    assert_eq!(
        NoBnbSolution {
            max_rounds: 1_000,
            rounds: 12
        }
        .to_string(),
        "No bnb solution found after 12 rounds (max rounds is 1000)."
    );
}

#[test]
fn bnb_scores_improve_strictly() {
    let candidates = gen_candidates(12);
    let cs = CoinSelector::new(&candidates);
    for value_sum in [1_000, 50_000, 400_000, 1_500_000] {
        for min_value in [0, 500, 100_000] {
            let metric = LowestFee {
                target: target(value_sum, FeeRate::from_wu(5, 4)),
                long_term_feerate: FeeRate::default_min_relay(),
                change_policy: ChangePolicy::min_value(drain_weights(), min_value),
            };
            let (scores, rounds) = search(&cs, metric);
            assert!(rounds >= scores.len());
            assert!(!scores.is_empty());
            for pair in scores.windows(2) {
                assert!(pair[1] < pair[0]);
            }
        }
    }
}

#[test]
fn bnb_finds_the_least_score() {
    let candidates = gen_candidates(10);
    let cs = CoinSelector::new(&candidates);
    for value_sum in [500, 30_000, 250_000, 900_000, 4_000_000] {
        for (rate, long_term) in [(5, 1), (20, 30), (1, 1)] {
            for replace in [None, Some(Replace::new(5_000))] {
                let target = Target {
                    fee: TargetFee {
                        rate: FeeRate::from_vb(rate, 1),
                        replace,
                    },
                    outputs: TargetOutputs {
                        value_sum,
                        weight_sum: 400,
                        n_outputs: 2,
                    },
                };
                let change_policy = ChangePolicy::min_value(
                    DrainWeights {
                        output_weight: 172,
                        spend_weight: 230,
                        n_outputs: 1,
                    },
                    330,
                );
                let mut metric = LowestFee {
                    target,
                    long_term_feerate: FeeRate::from_vb(long_term, 1),
                    change_policy,
                };
                let (scores, _) = search(&cs, metric);
                let mut sorted = cs.clone();
                sorted.sort_candidates_by_descending_value_pwu();
                assert_eq!(scores.last().copied(), least_score(&sorted, &mut metric));

                let mut changeless = Changeless {
                    target,
                    change_policy,
                };
                let (scores, _) = search(&cs, changeless);
                assert_eq!(scores.last().copied(), least_score(&sorted, &mut changeless));
            }
        }
    }
}

#[test]
fn bnb_goes_through_identical_candidates_once() {
    for n in [1, 2, 30, 100] {
        let candidates = vec![candidate(20_000, 260, true); n];
        let cs = CoinSelector::new(&candidates);
        for value_sum in [50_000, 123_456, 500_000] {
            for replace in [None, Some(Replace::new(7_000))] {
                let target = Target {
                    fee: TargetFee {
                        rate: FeeRate::from_vb(3, 1),
                        replace,
                    },
                    outputs: TargetOutputs {
                        value_sum,
                        weight_sum: 1_000,
                        n_outputs: 3,
                    },
                };
                let metric = LowestFee {
                    target,
                    long_term_feerate: FeeRate::from_vb(10, 1),
                    change_policy: ChangePolicy::min_value(drain_weights(), 500),
                };
                let (scores, rounds) = search(&cs, metric);
                assert!(rounds <= n + 1, "rounds={} n={}", rounds, n);
                assert_eq!(scores.is_empty(), !cs.is_selection_possible(target));
            }
        }
    }
}

#[test]
fn weighted_metrics_add_up() {
    let candidates = three_candidates();
    let mut cs = CoinSelector::new(&candidates);
    let target = target(1_000, one_sat_per_wu());
    let change_policy = ChangePolicy::min_value(drain_weights(), 608);
    let lowest_fee = LowestFee {
        target,
        long_term_feerate: FeeRate::default_min_relay(),
        change_policy,
    };
    let changeless = Changeless {
        target,
        change_policy,
    };
    let waste = Waste {
        target,
        long_term_feerate: FeeRate::default_min_relay(),
        change_policy,
    };
    assert_eq!(((lowest_fee, 2), (changeless, 5)).score(&cs), None);
    assert_eq!(((lowest_fee, 2), (changeless, 5)).bound(&cs), Some(Score::from_whole(532)));
    cs.select(1);
    assert_eq!(
        ((lowest_fee, 2), (changeless, 5)).score(&cs),
        Some(Score::from_whole(2_000))
    );
    assert_eq!(
        ((lowest_fee, 3), (waste, 2)).score(&cs),
        Some(Score::from_whole(3_000 + 1_625))
    );
    assert_eq!(
        ((lowest_fee, 0), (waste, 0)).score(&cs),
        Some(Score::zero())
    );
    // a selection with change has no changeless score, and so none together
    let with_change = Changeless {
        target,
        change_policy: ChangePolicy::min_value(drain_weights(), 0),
    };
    assert_eq!(((lowest_fee, 1), (with_change, 1)).score(&cs), None);
    assert_eq!(((with_change, 1), (lowest_fee, 1)).bound(&cs), None);
    assert!(((lowest_fee, 1), (changeless, 1)).requires_ordering_by_descending_value_pwu());
}

#[test]
fn a_search_that_is_over_stays_over() {
    let candidates = gen_candidates(8);
    let cs = CoinSelector::new(&candidates);
    let metric = LowestFee {
        target: target(100_000, FeeRate::default_min_relay()),
        long_term_feerate: FeeRate::default_min_relay(),
        change_policy: ChangePolicy::min_value(drain_weights(), 330),
    };
    let mut solutions = cs.bnb_solutions(metric);
    let mut best = None;
    while let Some(item) = solutions.next() {
        if let Some((selection, score)) = item {
            assert_eq!(metric.clone().score(&selection), Some(score));
            best = Some(score);
        }
    }
    assert!(best.is_some());
    for _ in 0..100 {
        assert!(solutions.next().is_none());
    }
}

#[test]
fn a_search_starts_from_what_is_selected_and_leaves_out_what_is_banned() {
    let candidates = three_candidates();
    let mut cs = CoinSelector::new(&candidates);
    cs.select(2);
    cs.ban(1);
    let metric = LowestFee {
        target: target(500, one_sat_per_wu()),
        long_term_feerate: FeeRate::default_min_relay(),
        change_policy: ChangePolicy::min_value(drain_weights(), 10_000),
    };
    let score = cs.run_bnb(metric, 100).expect("the first candidate meets the target");
    assert_eq!(cs.selected_indices(), &indices(&[0, 2]));
    assert_eq!(cs.banned(), &indices(&[1]));
    // the fee is all that is not paid out
    assert_eq!(score, Score::from_whole(550));
}

#[test]
fn excluding_a_candidate_excludes_its_twins() {
    // two candidates of the same value and weight, of which the second makes the lighter
    // transaction: the search excludes both together and never comes to the second alone
    let candidates = vec![candidate(1_000, 100, true), candidate(1_000, 100, false)];
    let mut cs = CoinSelector::new(&candidates);
    let mut metric = LowestFee {
        target: target(500, one_sat_per_wu()),
        long_term_feerate: one_sat_per_wu(),
        change_policy: ChangePolicy::min_value(drain_weights(), 0),
    };
    let mut second = cs.clone();
    second.select(1);
    let mut first = cs.clone();
    first.select(0);
    let score_of_first = metric.score(&first).expect("meets the target");
    let score_of_second = metric.score(&second).expect("meets the target");
    assert!(score_of_second < score_of_first);
    assert_eq!(least_score(&cs, &mut metric), Some(score_of_second));
    assert_eq!(cs.run_bnb(metric, 100), Ok(score_of_first));
    assert_eq!(cs.selected_indices(), &indices(&[0]));
}

#[test]
fn bnb_finds_the_least_score_among_twins() {
    // candidates that are equal in every field wherever they have the same value and weight
    let candidates = vec![
        candidate(40_000, 400, true),
        candidate(9_000, 300, false),
        candidate(40_000, 400, true),
        candidate(9_000, 300, false),
        candidate(700, 150, true),
        candidate(9_000, 300, false),
        candidate(40_000, 400, true),
        candidate(700, 150, true),
        candidate(120_000, 90, false),
    ];
    let cs = CoinSelector::new(&candidates);
    for value_sum in [500, 9_000, 48_000, 95_000, 130_000, 250_000, 400_000] {
        for (rate, long_term) in [(5, 1), (20, 30), (1, 1)] {
            let target = Target {
                fee: TargetFee {
                    rate: FeeRate::from_vb(rate, 1),
                    replace: None,
                },
                outputs: TargetOutputs {
                    value_sum,
                    weight_sum: 400,
                    n_outputs: 2,
                },
            };
            let change_policy = ChangePolicy::min_value(drain_weights(), 330);
            let mut metric = LowestFee {
                target,
                long_term_feerate: FeeRate::from_vb(long_term, 1),
                change_policy,
            };
            let (scores, _) = search(&cs, metric);
            assert_eq!(scores.last().copied(), least_score(&cs, &mut metric));
        }
    }
}

#[test]
fn the_waste_bound_is_a_heuristic() {
    // a segwit input of positive effective value that costs a legacy selection more than it
    // brings: with it the target is no longer met
    let candidates = vec![candidate(1_000, 100, false), candidate(101, 100, true)];
    let mut cs = CoinSelector::new(&candidates);
    cs.sort_candidates_by_descending_value_pwu();
    cs.select(0);
    let mut metric = Waste {
        target: target(760, one_sat_per_wu()),
        long_term_feerate: FeeRate::from_wu(2, 1),
        change_policy: ChangePolicy::min_value(drain_weights(), 1_000),
    };
    assert_eq!(cs.excess(metric.target, Drain::none()), 0);
    assert_eq!(metric.score(&cs), Some(Score::from_whole(-104)));
    assert_eq!(metric.bound(&cs), None);
}

#[test]
fn identical_candidates_can_take_more_rounds_than_there_are_candidates() {
    // with so much excess that change would pay, and a policy that gives none, the selection
    // of the first candidate and the one that excludes the second are both gone through
    let candidates = vec![candidate(20_000, 260, true); 2];
    let cs = CoinSelector::new(&candidates);
    let metric = LowestFee {
        target: target(1_000, FeeRate::default_min_relay()),
        long_term_feerate: FeeRate::default_min_relay(),
        change_policy: ChangePolicy::min_value(drain_weights(), 100_000),
    };
    let (scores, rounds) = search(&cs, metric);
    assert_eq!(scores, vec![Score::from_whole(19_000)]);
    assert_eq!(rounds, 4);
}

#[test]
fn the_lowest_fee_bound_is_a_heuristic() {
    // a segwit input of positive effective value that costs a legacy selection more than it
    // brings: with it the excess falls to the threshold of the policy, and the change output,
    // which is expensive to spend, goes
    let candidates = vec![candidate(1_000, 100, false), candidate(101, 100, true)];
    let mut cs = CoinSelector::new(&candidates);
    cs.sort_candidates_by_descending_value_pwu();
    cs.select(0);
    let weights = DrainWeights {
        output_weight: 0,
        spend_weight: 1_000,
        n_outputs: 1,
    };
    let mut metric = LowestFee {
        target: target(750, one_sat_per_wu()),
        long_term_feerate: one_sat_per_wu(),
        change_policy: ChangePolicy::min_value(weights, 9),
    };
    assert_eq!(cs.drain_value(metric.target, metric.change_policy), Some(10));
    assert_eq!(metric.score(&cs), Some(Score::from_whole(1_240)));
    assert_eq!(metric.bound(&cs), Some(Score::from_whole(1_240)));
    cs.select(1);
    assert_eq!(cs.drain_value(metric.target, metric.change_policy), None);
    assert_eq!(metric.score(&cs), Some(Score::from_whole(351)));
}

#[test]
fn the_changeless_bound_holds_for_segwit_candidates() {
    // every candidate has a segwit spend, a candidate is selected, the candidates are ordered
    // by descending value per weight unit and nothing is replaced
    let candidates = vec![
        candidate(1_000, 100, true),
        candidate(101, 100, true),
        candidate(260, 250, true),
        candidate(99, 100, true),
        candidate(40, 90, true),
        candidate(3_000, 2_000, true),
    ];
    let mut sorted = CoinSelector::new(&candidates);
    sorted.sort_candidates_by_descending_value_pwu();
    for value_sum in [0, 300, 700, 1_000, 2_500] {
        for min_value in [0, 5, 50, 400] {
            let mut metric = Changeless {
                target: target(value_sum, one_sat_per_wu()),
                change_policy: ChangePolicy::min_value(drain_weights(), min_value),
            };
            for selected in 1..(1_u32 << candidates.len()) {
                let mut node = sorted.clone();
                for index in 0..candidates.len() {
                    if selected & (1 << index) != 0 {
                        node.select(index);
                    }
                }
                if least_score(&node, &mut metric).is_some() {
                    assert_eq!(metric.bound(&node), Some(Score::zero()));
                }
            }
        }
    }
}
