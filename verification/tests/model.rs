use bpr::distributions::{WeightedDistribution, PROB_SCALE};
use bpr::model::{BipartiteRegulatorProbing, ProbeMax};
use bpr::helper::boolean_combination;
use std::str::FromStr;

const S: u64 = PROB_SCALE;

fn fp(x: f64) -> u64 {
    (x * S as f64).round() as u64
}

/// A point-mass edge whose pre-drawn samples all realize `value`.
fn point_edge(support: usize, value: usize, trials: usize) -> WeightedDistribution {
    let mut probs = vec![0u64; support];
    probs[value] = S;
    WeightedDistribution::new_without_rng(&probs, vec![value; trials]).unwrap()
}

/// A model whose single trial realizes exactly the given 0/1 matrix.
fn zero_one_model(matrix: &[&[usize]]) -> BipartiteRegulatorProbing {
    let na = matrix.len();
    let nb = matrix[0].len();
    let edges: Vec<Vec<WeightedDistribution>> = matrix
        .iter()
        .map(|row| row.iter().map(|&v| point_edge(2, v, 1)).collect())
        .collect();
    BipartiteRegulatorProbing::new(na, nb, 2, edges)
}

#[test]
fn coverage_greedy_matches_brute_force_on_zero_one_matrix() {
    let matrix: &[&[usize]] = &[
        &[1, 1, 1, 0, 0, 0, 0],
        &[0, 0, 0, 1, 1, 0, 0],
        &[0, 0, 0, 0, 0, 1, 0],
        &[0, 0, 0, 0, 0, 0, 1],
    ];
    let bpr = zero_one_model(matrix);
    let ins = bpr.create_instance(0);
    for l in 1..=4usize {
        // brute force over all subsets of exactly l regulators
        let mut best = 0usize;
        for subset in boolean_combination(4) {
            let chosen: Vec<usize> =
                (0..4).filter(|&a| subset[a]).collect();
            if chosen.len() != l {
                continue;
            }
            let value = ins.eval_policy(&chosen, l);
            if value > best {
                best = value;
            }
        }
        assert_eq!(ins.get_opt_cov_value(l), best);
    }
}

#[test]
fn instance_realizations_come_from_the_pre_drawn_streams() {
    let matrix: &[&[usize]] = &[&[1, 0], &[0, 1]];
    let bpr = zero_one_model(matrix);
    let ins = bpr.create_instance(0);
    assert_eq!(ins.get_realization(0, 0), 1);
    assert_eq!(ins.get_realization(0, 1), 0);
    assert_eq!(ins.get_realization(1, 0), 0);
    assert_eq!(ins.get_realization(1, 1), 1);
}

#[test]
fn eval_policy_scores_the_union_of_position_maxima() {
    let matrix: &[&[usize]] = &[&[1, 1, 0], &[0, 1, 1], &[1, 0, 0]];
    let bpr = zero_one_model(matrix);
    let ins = bpr.create_instance(0);
    // exactly l regulators: the union value
    assert_eq!(ins.eval_policy(&vec![0, 1], 2), 3);
    assert_eq!(ins.eval_policy(&vec![0, 2], 2), 2);
    // more than l: greedy over the subset
    assert_eq!(ins.eval_policy(&vec![0, 1, 2], 2), 3);
}

#[test]
fn policy_cache_is_keyed_and_reused_verbatim() {
    let matrix: &[&[usize]] = &[&[1, 0], &[0, 1]];
    let mut bpr = zero_one_model(matrix);
    assert!(!bpr.has_policy(2, 1));
    assert!(bpr.get_policy(2, 1).is_none());
    bpr.add_policy(2, 1, vec![1, 0], 77);
    assert!(bpr.has_policy(2, 1));
    assert_eq!(bpr.get_policy(2, 1).unwrap().clone(), vec![1, 0]);
    assert_eq!(bpr.get_policy_time(2, 1).unwrap(), 77);
    assert!(!bpr.has_policy(1, 1));
    // the first entry under a key wins
    bpr.add_policy(2, 1, vec![0, 1], 99);
    assert_eq!(bpr.get_policy(2, 1).unwrap().clone(), vec![1, 0]);
    assert_eq!(bpr.get_policy_time(2, 1).unwrap(), 77);
}

#[test]
fn l_policy_prefers_an_entry_with_enough_choosable_regulators() {
    let matrix: &[&[usize]] = &[&[1, 0], &[0, 1], &[1, 1]];
    let mut bpr = zero_one_model(matrix);
    assert_eq!(bpr.get_l_policy(1).0.len(), 0);
    bpr.add_policy(2, 1, vec![2, 0], 5);
    bpr.add_policy(3, 2, vec![1, 2, 0], 9);
    // first entry with its own l >= 2 is (3, 2): take the first 2 probes
    let (p, t) = bpr.get_l_policy(2);
    assert_eq!(p, vec![1, 2]);
    assert_eq!(t, 9);
    // no entry has l >= 3: fall back to the largest l, truncated to it
    let (p3, t3) = bpr.get_l_policy(3);
    assert_eq!(p3, vec![1, 2]);
    assert_eq!(t3, 9);
}

#[test]
fn namp_ranking_orders_by_expectation_with_index_ties() {
    // expectations 1.0, 2.0, 2.0, 0.0 -> ranking 1, 2, 0, 3
    let mk = |probs: &[u64]| {
        WeightedDistribution::new_without_rng(&probs.to_vec(), vec![0; 2]).unwrap()
    };
    let boxes = vec![
        mk(&[0, S, 0]),
        mk(&[0, 0, S]),
        mk(&[0, 0, S]),
        mk(&[S, 0, 0]),
    ];
    let (policy, _time) = ProbeMax::compute_namp_policy(&boxes);
    assert_eq!(policy, vec![1, 2, 0, 3]);
}

#[test]
fn probemax_reductions_and_offline_optimum() {
    // two regulators, two positions, deterministic edges
    let matrix: &[&[usize]] = &[&[1, 0], &[1, 1]];
    let bpr = zero_one_model(matrix);
    let pm_max = ProbeMax::from_bpr_max(&bpr);
    assert_eq!(pm_max.get_n(), 2);
    assert_eq!(pm_max.get_v(), 2);
    // max reduction of (1, 0) is a point mass at 1
    assert_eq!(pm_max.get_box(0).prob_equal(1), S);
    let pm_sum = ProbeMax::from_bpr_sum(&bpr);
    // sum reduction support: (2-1)*2 + 1 = 3; regulator 1 sums to 2
    assert_eq!(pm_sum.get_v(), 3);
    assert_eq!(pm_sum.get_box(1).prob_equal(2), S);
    let ins = pm_sum.create_instance(0);
    assert_eq!(ins.get_realization(0), 1);
    assert_eq!(ins.get_realization(1), 2);
    assert_eq!(ins.get_optimal_value(1), 2);
    assert_eq!(ins.get_optimal_value(2), 3);
    let (namp_value, _t) = ins.get_non_adap_value(&pm_sum, 1, 1);
    // ranking puts regulator 1 (expectation 2) first
    assert_eq!(namp_value, 2);
}

#[test]
fn adaptive_policy_probes_by_expected_improvement() {
    let mk = |probs: &[u64], sample: usize| {
        WeightedDistribution::new_without_rng(&probs.to_vec(), vec![sample]).unwrap()
    };
    // regulator expectations 2.0, 1.0, 0.5; realizations 2, 1, 1
    let boxes = vec![
        mk(&[0, 0, S], 2),
        mk(&[0, S, 0], 1),
        mk(&[fp(0.5), fp(0.5), 0], 1),
    ];
    let pm = ProbeMax {
        n: 3,
        v: 3,
        non_adaptive_policy: ProbeMax::compute_namp_policy(&boxes),
        boxes,
    };
    let ins = pm.create_instance(0);
    // k = l = 1: probe the top-ranked box and keep its realization
    let (v1, _) = ins.adaptive_policy(&pm, 1, 1);
    assert_eq!(v1, 2);
    // k = 2, l = 1: after realizing 2 the water-mark tops out; value stays 2
    let (v2, _) = ins.adaptive_policy(&pm, 2, 1);
    assert_eq!(v2, 2);
    // k = 2, l = 2 probes the two top-ranked boxes
    let (v3, _) = ins.adaptive_policy(&pm, 2, 2);
    assert_eq!(v3, 3);
}

#[test]
fn coverage_adaptive_policy_probes_and_scores() {
    // regulator 0 dominates position 0, regulator 1 dominates position 1,
    // regulator 2 covers nothing
    let matrix: &[&[usize]] = &[&[1, 0, 0], &[0, 1, 1], &[0, 0, 0]];
    let bpr = zero_one_model(matrix);
    let ins = bpr.create_instance(0);
    // k = l = 2: two greedy rounds by expected improvement probe 1 then 0
    let (v, _t) = ins.adaptive_policy(&bpr, 2, 2);
    assert_eq!(v, 3);
    // k = 3, l = 2: the look-ahead padding round cannot beat the union
    let (v2, _t2) = ins.adaptive_policy(&bpr, 3, 2);
    assert_eq!(v2, 3);
    // k = l = 1 takes the single best regulator
    let (v3, _t3) = ins.adaptive_policy(&bpr, 1, 1);
    assert_eq!(v3, 2);
}

#[test]
fn helper_budget_tables() {
    let ls = bpr::compute_opt_l_values(16);
    assert_eq!(ls, [1, 2, 3, 4, 6, 8, 9, 12]);
    let pairs = bpr::compute_k_l_pairs(16);
    assert_eq!(pairs[0], (4, 1));
    assert_eq!(pairs[7], (8, 8));
    assert_eq!(pairs[11], (12, 12));
}

#[test]
fn goal_and_algorithm_names_parse() {
    assert_eq!(bpr::GoalFunction::from_str("MAX").unwrap(), bpr::GoalFunction::MAX);
    assert_eq!(bpr::GoalFunction::from_str("COV").unwrap(), bpr::GoalFunction::COV);
    assert!(bpr::GoalFunction::from_str("max").is_err());
    assert_eq!(bpr::Algorithm::from_str("AMP").unwrap(), bpr::Algorithm::AMP);
    assert_eq!(bpr::Algorithm::from_str("ALL").unwrap(), bpr::Algorithm::ALL);
    assert!(bpr::Algorithm::from_str("OPTIMAL").is_err());
}

#[test]
fn combinations_count_in_base_order() {
    let all = bpr::helper::combinations(3, 2);
    assert_eq!(all.len(), 8);
    assert_eq!(all[0], vec![0, 0, 0]);
    assert_eq!(all[5], vec![1, 0, 1]);
    assert_eq!(all[7], vec![1, 1, 1]);
    let bits = boolean_combination(3);
    assert_eq!(bits.len(), 8);
    // entry j holds the little-endian bits of j
    assert_eq!(bits[5], vec![true, false, true]);
    assert_eq!(bpr::helper::boolean_array_to_usize(&bits[5]), 5);
    for (j, b) in bits.iter().enumerate() {
        assert_eq!(bpr::helper::boolean_array_to_usize(b), j);
    }
}

#[test]
fn radix_encoding_round_trips() {
    for x in 0..36usize {
        let digits = bpr::helper::usize_to_usize_array(x, 4, 6);
        assert_eq!(bpr::helper::usize_array_to_usize(&digits, 6), x);
    }
}
