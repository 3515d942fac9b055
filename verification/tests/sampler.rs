use bpr::distributions::{WeightedDistribution, PROB_SCALE};
use bpr::model::{BipartiteRegulatorProbing, ProbeMax};
use bpr::mdp::{ProbemaxMDP, index_of_state};
use bpr::sampling::AliasSampler;
use bpr::GoalFunction;
use rand::SeedableRng;

const S: u64 = PROB_SCALE;

fn fp(x: f64) -> u64 {
    (x * S as f64).round() as u64
}

fn chi_squared(weights: &[u64], seed: u64) -> f64 {
    let sampler = AliasSampler::build(&weights.to_vec()).unwrap();
    let mut rng = rand::rngs::StdRng::seed_from_u64(seed);
    let draws = 100_000usize;
    let mut counts = vec![0usize; weights.len()];
    for _ in 0..draws {
        counts[sampler.sample(&mut rng)] += 1;
    }
    let mut chi = 0.0f64;
    for i in 0..weights.len() {
        let expect = weights[i] as f64 / S as f64 * draws as f64;
        if expect > 0.0 {
            let diff = counts[i] as f64 - expect;
            chi += diff * diff / expect;
        } else {
            assert_eq!(counts[i], 0);
        }
    }
    chi
}

#[test]
fn alias_sampler_matches_weights_within_chi_squared_tolerance() {
    // three distinct weight vectors, each over 10^5 draws
    assert!(chi_squared(&[fp(0.5), fp(0.5)], 11) < 30.0);
    assert!(chi_squared(&[fp(0.8), 0, 0, 0, 0, fp(0.2)], 12) < 30.0);
    assert!(chi_squared(&[fp(0.1), fp(0.2), fp(0.3), fp(0.4)], 13) < 30.0);
}

#[test]
fn alias_sampler_rejects_bad_weights() {
    assert!(AliasSampler::build(&vec![fp(0.5), fp(0.6)]).is_err());
    assert!(AliasSampler::build(&Vec::new()).is_err());
}

#[test]
fn point_mass_always_samples_its_point() {
    let sampler = AliasSampler::build(&vec![0, 0, S, 0]).unwrap();
    let mut rng = rand::rngs::StdRng::seed_from_u64(7);
    for _ in 0..1000 {
        assert_eq!(sampler.sample(&mut rng), 2);
    }
}

#[test]
fn pre_drawn_streams_make_trials_repeatable() {
    let mut rng = rand::rngs::StdRng::seed_from_u64(42);
    let weights = vec![fp(0.3), fp(0.7)];
    let d = WeightedDistribution::new(&mut rng, &weights, 50).unwrap();
    assert_eq!(d.num_samples(), 50);
    for i in 0..50 {
        assert!(d.get_sample(i) < 2);
    }
    // the same trial index always denotes the same realization
    let once = d.get_sample(3);
    assert_eq!(d.get_sample(3), once);
}

/// Averaged over many pre-drawn trials, the exact adaptive optimum is at
/// least the adaptive myopic value, which is at least the non-adaptive one.
#[test]
fn policy_values_order_on_average() {
    let mut rng = rand::rngs::StdRng::seed_from_u64(2024);
    let trials = 400usize;
    let mk = |probs: &[u64], rng: &mut rand::rngs::StdRng| {
        WeightedDistribution::new(rng, &probs.to_vec(), trials).unwrap()
    };
    // support 4: expectations 1.5, 2.0, 1.0
    let e00 = mk(&[fp(0.5), 0, 0, fp(0.5)], &mut rng);
    let e10 = mk(&[0, 0, S, 0], &mut rng);
    let e20 = mk(&[0, S, 0, 0], &mut rng);
    let bpr = BipartiteRegulatorProbing::new(3, 1, 4, vec![vec![e00], vec![e10], vec![e20]]);
    let pm = ProbeMax::from_bpr_max(&bpr);
    let mdp = ProbemaxMDP::init(&bpr, GoalFunction::MAX, 2, 1).unwrap();
    let root = (vec![false, false, false], vec![0, 0, 0]);
    let (_, mdp_value) = mdp.optimal_table[2][index_of_state(&root, 3)].unwrap();
    let mdp_avg = mdp_value as f64 / S as f64;
    let mut amp_total = 0usize;
    let mut namp_total = 0usize;
    for i in 0..trials {
        let ins = pm.create_instance(i);
        amp_total += ins.adaptive_policy(&pm, 2, 1).0;
        namp_total += ins.get_non_adap_value(&pm, 2, 1).0;
    }
    let amp_avg = amp_total as f64 / trials as f64;
    let namp_avg = namp_total as f64 / trials as f64;
    let tol = 0.1;
    assert!(mdp_avg + tol >= amp_avg, "mdp {mdp_avg} amp {amp_avg}");
    assert!(amp_avg + tol >= namp_avg, "amp {amp_avg} namp {namp_avg}");
}

#[test]
fn coverage_policy_cache_fills_once() {
    let mut rng = rand::rngs::StdRng::seed_from_u64(5);
    let trials = 3usize;
    let mk = |probs: &[u64], rng: &mut rand::rngs::StdRng| {
        WeightedDistribution::new(rng, &probs.to_vec(), trials).unwrap()
    };
    let edges: Vec<Vec<WeightedDistribution>> = (0..3)
        .map(|a| {
            (0..2)
                .map(|b| {
                    if (a + b) % 2 == 0 {
                        mk(&[fp(0.5), fp(0.5)], &mut rng)
                    } else {
                        mk(&[0, S], &mut rng)
                    }
                })
                .collect()
        })
        .collect();
    let mut bpr = BipartiteRegulatorProbing::new(3, 2, 2, edges);
    bpr.compute_namp_cov_policy(2, 1);
    assert!(bpr.has_policy(2, 1));
    let first = bpr.get_policy(2, 1).unwrap().clone();
    assert_eq!(first.len(), 2);
    assert!(first[0] < 3 && first[1] < 3 && first[0] != first[1]);
    let first_time = bpr.get_policy_time(2, 1).unwrap();
    // a second call reuses the cached result verbatim
    bpr.compute_namp_cov_policy(2, 1);
    assert_eq!(bpr.get_policy(2, 1).unwrap().clone(), first);
    assert_eq!(bpr.get_policy_time(2, 1).unwrap(), first_time);
    // the extended variant computes the l = k policy
    bpr.compute_namp_ext_cov_policy(3);
    assert!(bpr.has_policy(3, 3));
}
