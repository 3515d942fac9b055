use bpr::distributions::{WeightedDistribution, PROB_SCALE};
use bpr::model::BipartiteRegulatorProbing;
use bpr::mdp::{ProbemaxMDP, index_of_state};
use bpr::{BprError, GoalFunction};

const S: u64 = PROB_SCALE;

fn fp(x: f64) -> u64 {
    (x * S as f64).round() as u64
}

fn scenario_model() -> BipartiteRegulatorProbing {
    // 3 regulators, 1 position, support size 6
    let d1 = WeightedDistribution::new_without_rng(
        &vec![fp(0.8), 0, 0, 0, 0, fp(0.2)],
        Vec::new(),
    )
    .unwrap();
    let d2 = WeightedDistribution::new_without_rng(
        &vec![fp(0.5), 0, 0, 0, fp(0.5), 0],
        Vec::new(),
    )
    .unwrap();
    let d3 = WeightedDistribution::new_without_rng(&vec![0, 0, S, 0, 0, 0], Vec::new()).unwrap();
    BipartiteRegulatorProbing::new(3, 1, 6, vec![vec![d1], vec![d2], vec![d3]])
}

#[test]
fn example_probemax_mdp() {
    let bpr = scenario_model();
    let probemax_mdp = ProbemaxMDP::init(&bpr, GoalFunction::MAX, 2, 1).unwrap();

    let entries_to_check: Vec<(usize, (Vec<bool>, Vec<usize>), Option<(usize, u64)>)> = vec![
        (
            2,
            (vec![false, false, false], vec![0, 0, 0]),
            Some((1, fp(3.1))),
        ),
        (1, (vec![true, false, false], vec![0, 0, 0]), Some((1, fp(2.0)))),
        (1, (vec![true, false, false], vec![5, 0, 0]), Some((1, fp(0.0)))),
        (1, (vec![false, true, false], vec![0, 0, 0]), Some((2, fp(2.0)))),
        (1, (vec![false, true, false], vec![0, 4, 0]), Some((0, fp(0.2)))),
        // the layered solver fills every state, so this entry, which a lazy
        // memoization would have left empty, holds the greedy continuation
        (1, (vec![false, false, true], vec![0, 0, 0]), Some((1, fp(2.0)))),
        (1, (vec![false, false, true], vec![0, 0, 2]), Some((1, fp(1.0)))),
    ];
    for entry in &entries_to_check {
        let proposed = probemax_mdp.optimal_table[entry.0][index_of_state(&entry.1, 5)];
        assert!(
            (entry.2.is_none() && proposed.is_none())
                || (entry.2.is_some() && proposed.is_some())
        );
        if let Some((action, reward)) = proposed {
            let (want_action, want_reward) = entry.2.unwrap();
            assert_eq!(action, want_action);
            // exact fixed-point arithmetic: within one part in PROB_SCALE
            assert!((reward as i64 - want_reward as i64).abs() <= 1);
        }
    }
}

#[test]
fn single_probe_solver_degenerates_to_greedy_by_expectation() {
    let bpr = scenario_model();
    // expectations: 1.0, 2.0, 2.0 -> argmax is regulator 1 (lowest on tie)
    let mdp = ProbemaxMDP::init(&bpr, GoalFunction::MAX, 1, 1).unwrap();
    let root = (vec![false, false, false], vec![0, 0, 0]);
    let (action, reward) = mdp.optimal_table[1][index_of_state(&root, 5)].unwrap();
    assert_eq!(action, 1);
    assert_eq!(reward, fp(2.0));
}

#[test]
fn coverage_goal_is_a_configuration_error() {
    let bpr = scenario_model();
    assert_eq!(
        ProbemaxMDP::init(&bpr, GoalFunction::COV, 2, 1).err().unwrap(),
        BprError::ConfigurationError
    );
}

#[test]
fn impossible_budgets_are_constraint_violations() {
    let bpr = scenario_model();
    // l > k
    assert_eq!(
        ProbemaxMDP::init(&bpr, GoalFunction::MAX, 1, 2).err().unwrap(),
        BprError::ConstraintViolation
    );
    // k > na
    assert_eq!(
        ProbemaxMDP::init(&bpr, GoalFunction::MAX, 4, 1).err().unwrap(),
        BprError::ConstraintViolation
    );
    // l = 0
    assert_eq!(
        ProbemaxMDP::init(&bpr, GoalFunction::MAX, 2, 0).err().unwrap(),
        BprError::ConstraintViolation
    );
}

#[test]
fn policy_extraction_follows_the_table_on_the_trial() {
    // one trial: regulator 1 realizes 0, regulator 2 realizes 0, regulator 3
    // realizes 2
    let d1 = WeightedDistribution::new_without_rng(
        &vec![fp(0.8), 0, 0, 0, 0, fp(0.2)],
        vec![0],
    )
    .unwrap();
    let d2 = WeightedDistribution::new_without_rng(
        &vec![fp(0.5), 0, 0, 0, fp(0.5), 0],
        vec![0],
    )
    .unwrap();
    let d3 = WeightedDistribution::new_without_rng(&vec![0, 0, S, 0, 0, 0], vec![2]).unwrap();
    let bpr = BipartiteRegulatorProbing::new(3, 1, 6, vec![vec![d1], vec![d2], vec![d3]]);
    let mdp = ProbemaxMDP::init(&bpr, GoalFunction::MAX, 2, 1).unwrap();
    let pm = bpr::model::ProbeMax::from_bpr_max(&bpr);
    let ins = pm.create_instance(0);
    let (probes, value) = mdp.extract_policy(&ins);
    // first probe regulator 1 (realizing 0), then the table sends the run
    // to regulator 2, which realizes 2
    assert_eq!(probes, vec![1, 2]);
    assert_eq!(value, 2);
}

#[test]
fn state_encoding_round_trips() {
    let state = (vec![true, false, true], vec![3, 0, 5]);
    let idx = index_of_state(&state, 5);
    // subset bits 101 -> 5; values in base 6 little-endian: 3 + 0*6 + 5*36
    assert_eq!(idx, 5 * 216 + (3 + 5 * 36));
    let other = (vec![true, false, true], vec![3, 0, 4]);
    assert_ne!(index_of_state(&other, 5), idx);
}
