use bdk_coin_select::metrics::{Changeless, LowestFee};
use bdk_coin_select::{
    BnbMetric, Candidate, ChangePolicy, CoinSelector, Drain, DrainWeights, FeeRate, NoBnbSolution,
    Replace, Score, Target, TargetFee, TargetOutputs, TX_FIXED_FIELD_WEIGHT,
};
use proptest::test_runner::{RngAlgorithm, TestRng};
use rand::Rng;

/// The fee rate of `sat_per_vb` satoshis per virtual byte.
fn feerate_from_sat_per_vb(sat_per_vb: f32) -> FeeRate {
    FeeRate {
        raw: (sat_per_vb as f64 / 4.0 * 4294967296.0) as u64,
    }
}

struct StrategyParams {
    n_candidates: usize,
    target_value: u64,
    n_target_outputs: usize,
    target_weight: u32,
    replace: Option<Replace>,
    feerate: f32,
    feerate_lt_diff: f32,
    drain_weight: u32,
    drain_spend_weight: u32,
    drain_dust: u64,
    n_drain_outputs: usize,
}

impl StrategyParams {
    fn target(&self) -> Target {
        Target {
            fee: TargetFee {
                rate: feerate_from_sat_per_vb(self.feerate),
                replace: self.replace,
            },
            outputs: TargetOutputs {
                n_outputs: self.n_target_outputs,
                value_sum: self.target_value,
                weight_sum: self.target_weight,
            },
        }
    }

    fn long_term_feerate(&self) -> FeeRate {
        feerate_from_sat_per_vb((self.feerate + self.feerate_lt_diff).max(1.0))
    }

    fn drain_weights(&self) -> DrainWeights {
        DrainWeights {
            output_weight: self.drain_weight,
            spend_weight: self.drain_spend_weight,
            n_outputs: self.n_drain_outputs,
        }
    }
}

fn gen_candidates(n: usize) -> Vec<Candidate> {
    let mut rng = TestRng::deterministic_rng(RngAlgorithm::ChaCha);
    core::iter::repeat_with(move || {
        let value = rng.gen_range(1..500_001);
        let weight = rng.gen_range(1..2001);
        let input_count = rng.gen_range(1..3);
        let is_segwit = rng.gen_bool(0.01);

        Candidate {
            value,
            weight,
            input_count,
            is_segwit,
        }
    })
    .take(n)
    .collect()
}

fn bnb_search<M>(
    cs: &mut CoinSelector,
    metric: M,
    max_rounds: usize,
) -> Result<(Score, usize), NoBnbSolution>
where
    M: BnbMetric,
{
    let mut rounds = 0_usize;
    let mut solutions = cs.bnb_solutions(metric);
    let mut last = None;
    while rounds < max_rounds {
        match solutions.next() {
            Some(item) => {
                rounds += 1;
                if let Some(solution) = item {
                    last = Some(solution);
                }
            }
            None => break,
        }
    }
    let (selection, score) = last.ok_or(NoBnbSolution { max_rounds, rounds })?;
    println!("\t\tscore={:?}", score);
    *cs = selection;

    Ok((score, rounds))
}

/// We combine the `LowestFee` and `Changeless` metrics to derive a `ChangelessLowestFee` metric.
#[test]
fn combined_changeless_metric() {
    let params = StrategyParams {
        n_candidates: 100,
        target_value: 100_000,
        target_weight: 1000 - TX_FIXED_FIELD_WEIGHT - 1,
        replace: None,
        feerate: 5.0,
        feerate_lt_diff: -4.0,
        drain_weight: 200,
        drain_spend_weight: 600,
        drain_dust: 200,
        n_target_outputs: 1,
        n_drain_outputs: 1,
    };

    let candidates = gen_candidates(params.n_candidates);
    let mut cs_a = CoinSelector::new(&candidates);
    let mut cs_b = CoinSelector::new(&candidates);

    let change_policy = ChangePolicy::min_value(params.drain_weights(), params.drain_dust);

    let metric_lowest_fee = LowestFee {
        target: params.target(),
        long_term_feerate: params.long_term_feerate(),
        change_policy,
    };

    let metric_changeless = Changeless {
        target: params.target(),
        change_policy,
    };

    let metric_combined = ((metric_lowest_fee, 1_u32), (metric_changeless, 0_u32));

    // cs_a uses the non-combined metric
    let (score, rounds) =
        bnb_search(&mut cs_a, metric_lowest_fee, usize::MAX).expect("must find solution");
    println!("score={:?} rounds={}", score, rounds);

    // cs_b uses the combined metric
    let (combined_score, combined_rounds) =
        bnb_search(&mut cs_b, metric_combined, usize::MAX).expect("must find solution");
    println!("score={:?} rounds={}", combined_score, combined_rounds);

    assert!(combined_rounds >= rounds);
}

/// This test considers the case where you could actually lower your long term fee by adding another input.
#[test]
fn adding_another_input_to_remove_change() {
    let target = Target {
        fee: TargetFee::default(),
        outputs: TargetOutputs {
            value_sum: 99_870,
            weight_sum: 200 - TX_FIXED_FIELD_WEIGHT - 1,
            n_outputs: 1,
        },
    };

    let candidates = vec![
        Candidate {
            value: 100_000,
            weight: 100,
            input_count: 1,
            is_segwit: true,
        },
        Candidate {
            value: 50_000,
            weight: 100,
            input_count: 1,
            is_segwit: true,
        },
        // NOTE: this input has negative effective value
        Candidate {
            value: 10,
            weight: 100,
            input_count: 1,
            is_segwit: true,
        },
    ];

    let mut cs = CoinSelector::new(&candidates);

    let best_solution = {
        let mut cs = cs.clone();
        cs.select(0);
        cs.select(2);
        cs.excess(target, Drain::none());
        assert!(cs.is_target_met(target));
        cs
    };

    let drain_weights = DrainWeights {
        output_weight: 100,
        spend_weight: 1_000,
        n_outputs: 1,
    };

    let excess_to_make_first_candidate_satisfy_but_have_change = {
        let mut cs = cs.clone();
        cs.select(0);
        assert!(cs.is_target_met(target));
        let with_change_excess = cs.excess(
            target,
            Drain {
                value: 0,
                weights: drain_weights,
            },
        );
        assert!(with_change_excess > 0);
        with_change_excess as u64
    };

    let change_policy = ChangePolicy {
        min_value: excess_to_make_first_candidate_satisfy_but_have_change - 10,
        drain_weights,
    };

    let mut metric = LowestFee {
        target,
        long_term_feerate: feerate_from_sat_per_vb(1.0),
        change_policy,
    };

    let (score, _) = bnb_search(&mut cs, metric, 10).expect("finds solution");
    let best_solution_score = metric.score(&best_solution).expect("must be a solution");

    assert_eq!(best_solution.drain(target, change_policy), Drain::none());

    assert!(score <= best_solution_score);
    assert_eq!(cs.selected_indices(), best_solution.selected_indices());
}
