use bdk_coin_select::{
    BnbMetric, Candidate, CoinSelector, Drain, Score, Target, TargetFee, TargetOutputs,
};
use proptest::test_runner::{RngAlgorithm, TestRng};
use rand::{Rng, RngCore};

fn test_wv(mut rng: impl RngCore) -> impl Iterator<Item = Candidate> {
    core::iter::repeat_with(move || {
        let value = rng.gen_range(0..1_000);
        let mut candidate = Candidate {
            value,
            weight: 100,
            input_count: rng.gen_range(1..2),
            is_segwit: rng.gen_bool(0.5),
        };
        // set is_segwit = true for all these tests because you can't actually lower bound
        // things easily with how segwit inputs interfere with their weights. We can't modify the
        // above since that would change what we pull from rng.
        candidate.is_segwit = true;
        candidate
    })
}

/// This is just an exhaustive search
struct MinExcessThenWeight {
    target: Target,
}

/// Assumes tx weight is less than 1MB.
const EXCESS_RATIO: f32 = 1_000_000_f32;

/// The score that stands for a float that holds a whole number.
fn whole_score(value: f32) -> Score {
    assert_eq!(value, value.trunc());
    Score::from_whole(value as i64)
}

impl BnbMetric for MinExcessThenWeight {
    fn score(&mut self, cs: &CoinSelector<'_>) -> Option<Score> {
        let excess = cs.excess(self.target, Drain::none());
        if excess < 0 {
            None
        } else {
            Some(whole_score(
                excess as f32 * EXCESS_RATIO + cs.input_weight() as f32,
            ))
        }
    }

    fn bound(&mut self, cs: &CoinSelector<'_>) -> Option<Score> {
        let mut cs = cs.clone();
        cs.select_until_target_met(self.target).ok()?;
        Some(whole_score(cs.input_weight() as f32))
    }

    fn requires_ordering_by_descending_value_pwu(&self) -> bool {
        false
    }
}

#[test]
/// Detect regressions/improvements by making sure it always finds the solution in the same
/// number of iterations.
fn bnb_finds_an_exact_solution_in_n_iter() {
    let solution_len = 6;
    let num_additional_canidates = 12;

    let mut rng = TestRng::deterministic_rng(RngAlgorithm::ChaCha);
    let mut wv = test_wv(&mut rng).map(|mut candidate| {
        candidate.is_segwit = true;
        candidate
    });

    let solution: Vec<Candidate> = (0..solution_len).map(|_| wv.next().unwrap()).collect();
    let solution_weight = {
        let mut cs = CoinSelector::new(&solution);
        cs.select_all();
        cs.input_weight()
    };

    let target_value = solution.iter().map(|c| c.value).sum();

    let mut candidates = solution;
    candidates.extend(wv.take(num_additional_canidates));
    candidates.sort_unstable_by_key(|wv| core::cmp::Reverse(wv.value));

    let cs = CoinSelector::new(&candidates);

    let target = Target {
        outputs: TargetOutputs {
            value_sum: target_value,
            weight_sum: 0,
            n_outputs: 1,
        },
        // we're trying to find an exact selection value so set fees to 0
        fee: TargetFee::zero(),
    };

    let mut solutions = cs.bnb_solutions(MinExcessThenWeight { target });

    let mut rounds = 0;
    let mut last = None;
    while let Some(item) = solutions.next() {
        rounds += 1;
        if let Some(solution) = item {
            last = Some(solution);
        }
    }
    let (best, score) = last.expect("it found a solution");

    assert_eq!(rounds, 3005);
    assert_eq!(best.input_weight(), solution_weight);
    assert_eq!(best.selected_value(), target_value, "score={:?}", score);
}

#[test]
fn bnb_finds_solution_if_possible_in_n_iter() {
    let num_inputs = 18;
    let target_value = 8_314;
    let mut rng = TestRng::deterministic_rng(RngAlgorithm::ChaCha);
    let wv = test_wv(&mut rng);
    let candidates = wv.take(num_inputs).collect::<Vec<_>>();

    let cs = CoinSelector::new(&candidates);

    let target = Target {
        outputs: TargetOutputs {
            value_sum: target_value,
            weight_sum: 0,
            n_outputs: 1,
        },
        fee: TargetFee::default(),
    };

    let mut solutions = cs.bnb_solutions(MinExcessThenWeight { target });

    let mut rounds = 0;
    let mut last = None;
    while let Some(item) = solutions.next() {
        rounds += 1;
        if let Some(solution) = item {
            last = Some(solution);
        }
    }
    let (sol, _score) = last.expect("found a solution");

    assert_eq!(rounds, 193);
    let excess = sol.excess(target, Drain::none());
    assert_eq!(excess, 1);
}
