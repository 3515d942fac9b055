use bpr::distributions::{WeightedDistribution, PROB_SCALE};

const S: u64 = PROB_SCALE;

fn dist(probs: &[u64]) -> WeightedDistribution {
    WeightedDistribution::new_without_rng(&probs.to_vec(), Vec::new()).unwrap()
}

fn fp(x: f64) -> u64 {
    (x * S as f64).round() as u64
}

#[test]
fn probabilities_sum_to_one() {
    let d = dist(&[fp(0.8), 0, 0, 0, 0, fp(0.2)]);
    let mut total: u64 = 0;
    for i in 0..d.size() {
        total += d.prob_equal(i);
    }
    assert_eq!(total, S);
}

#[test]
fn less_and_greater_or_equal_partition_the_mass() {
    let d = dist(&[fp(0.5), 0, fp(0.25), fp(0.25)]);
    // P[X < i] + P[X >= i] = 1, where P[X >= i] = P[X > i-1]
    for i in 0..=d.size() + 2 {
        let less = d.prob_less(i);
        let greater_or_equal = if i == 0 { S } else { d.prob_greater(i - 1) };
        assert_eq!(less + greater_or_equal, S);
    }
}

#[test]
fn expected_greater_or_equal_at_zero_is_expected_value() {
    let d = dist(&[fp(0.5), 0, 0, 0, fp(0.5), 0]);
    // E[X * 1{X >= 1}] = E[X]: the zero term adds nothing, and
    // expected_greater(0) is exactly E[X * 1{X >= 1}]
    assert_eq!(d.expected_greater(0), d.expected_value());
    assert_eq!(d.expected_value(), 2 * S);
}

#[test]
fn expected_greater_or_equal_vanishes_at_support_size() {
    let d = dist(&[fp(0.25), fp(0.25), fp(0.25), fp(0.25)]);
    // E[X * 1{X >= v}] = 0 for support size v
    assert_eq!(d.expected_greater(d.size() - 1), 0);
}

#[test]
fn rejects_weights_that_miss_total_mass() {
    let bad = vec![fp(0.5), fp(0.4)];
    assert!(WeightedDistribution::new_without_rng(&bad, Vec::new()).is_err());
    let overfull = vec![fp(0.7), fp(0.7)];
    assert!(WeightedDistribution::new_without_rng(&overfull, Vec::new()).is_err());
    let empty: Vec<u64> = Vec::new();
    assert!(WeightedDistribution::new_without_rng(&empty, Vec::new()).is_err());
}

#[test]
fn rejects_samples_outside_the_support() {
    let probs = vec![fp(0.5), fp(0.5)];
    assert!(WeightedDistribution::new_without_rng(&probs, vec![0, 1, 2]).is_err());
    assert!(WeightedDistribution::new_without_rng(&probs, vec![0, 1, 1]).is_ok());
}

#[test]
fn max_distribution_cdf_is_product_of_cdfs() {
    // brute force over <= 3 distributions of size <= 8
    let ds = vec![
        dist(&[fp(0.8), 0, 0, 0, 0, fp(0.2)]),
        dist(&[fp(0.5), 0, 0, 0, fp(0.5), 0]),
        dist(&[0, 0, S, 0, 0, 0]),
    ];
    let m = WeightedDistribution::max_distribution(&ds);
    assert_eq!(m.size(), 6);
    let n = m.size();
    for i in 0..n {
        // fixed-point product of the input CDFs at i+1
        let mut prod: u64 = S;
        for d in &ds {
            prod = (prod as u128 * d.prob_less(i + 1) as u128 / S as u128) as u64;
        }
        let expect = if i == n - 1 { S } else { prod };
        assert_eq!(m.prob_less(i + 1), expect);
        // and the float brute force agrees within the tolerance
        let mut fprod = 1.0f64;
        for d in &ds {
            fprod *= d.prob_less(i + 1) as f64 / S as f64;
        }
        assert!((m.prob_less(i + 1) as f64 / S as f64 - fprod).abs() < 1e-6);
    }
    let mut total: u64 = 0;
    for i in 0..n {
        total += m.prob_equal(i);
    }
    assert_eq!(total, S);
}

#[test]
fn max_distribution_reduces_samples_pointwise() {
    let ds = vec![
        WeightedDistribution::new_without_rng(&vec![fp(0.5), fp(0.5)], vec![0, 1, 0]).unwrap(),
        WeightedDistribution::new_without_rng(&vec![fp(0.5), fp(0.5)], vec![1, 0, 0]).unwrap(),
    ];
    let m = WeightedDistribution::max_distribution(&ds);
    assert_eq!(m.num_samples(), 3);
    assert_eq!(m.get_sample(0), 1);
    assert_eq!(m.get_sample(1), 1);
    assert_eq!(m.get_sample(2), 0);
}

#[test]
fn sum_distribution_mass_is_the_convolution() {
    let d1 = dist(&[fp(0.5), fp(0.5)]);
    let d2 = dist(&[fp(0.25), fp(0.75)]);
    let s = WeightedDistribution::sum_distribution(&vec![d1.clone(), d2.clone()]);
    assert_eq!(s.size(), 3);
    for i in 0..3usize {
        let mut conv: u128 = 0;
        for j in 0..=i {
            if j < d1.size() && i - j < d2.size() {
                conv += d1.prob_equal(j) as u128 * d2.prob_equal(i - j) as u128;
            }
        }
        assert_eq!(s.prob_equal(i) as u128, conv / S as u128);
    }
    assert_eq!(s.prob_equal(0), fp(0.125));
    assert_eq!(s.prob_equal(1), fp(0.5));
    assert_eq!(s.prob_equal(2), fp(0.375));
}

#[test]
fn sum_distribution_support_and_samples() {
    let ds = vec![
        WeightedDistribution::new_without_rng(&vec![fp(0.5), fp(0.5)], vec![1, 0]).unwrap(),
        WeightedDistribution::new_without_rng(&vec![fp(0.5), fp(0.5)], vec![1, 1]).unwrap(),
        WeightedDistribution::new_without_rng(&vec![S, 0], vec![0, 0]).unwrap(),
    ];
    let s = WeightedDistribution::sum_distribution(&ds);
    // support of a sum of three two-point supports
    assert_eq!(s.size(), 4);
    assert_eq!(s.get_sample(0), 2);
    assert_eq!(s.get_sample(1), 1);
}

#[test]
fn sum_distribution_pairing_order_within_tolerance() {
    let a = dist(&[fp(0.2), fp(0.3), fp(0.5)]);
    let b = dist(&[fp(0.6), fp(0.4)]);
    let c = dist(&[fp(0.1), fp(0.9)]);
    let s1 = WeightedDistribution::sum_distribution(&vec![a.clone(), b.clone(), c.clone()]);
    let s2 = WeightedDistribution::sum_distribution(&vec![c, a, b]);
    assert_eq!(s1.size(), s2.size());
    for i in 0..s1.size() {
        let p1 = s1.prob_equal(i) as f64 / S as f64;
        let p2 = s2.prob_equal(i) as f64 / S as f64;
        assert!((p1 - p2).abs() < 1e-8);
    }
}
