use vstd::prelude::*;

pub mod algorithms;
pub mod bits;
pub mod distributions;
pub mod helper;
pub mod mdp;
pub mod model;
pub mod random;
pub mod ranking;
pub mod sampling;
pub mod sums;
pub mod time;

use core::str::FromStr;

verus! {

/// Scoring objective for a probing run: reduce each regulator's edge
/// distributions by MAX or by SUM, or score covered positions (COV).
#[derive(Debug, Clone, PartialEq, Eq, Structural)]
pub enum GoalFunction {
    /// Probe-max scoring over per-regulator MAX reductions.
    MAX,
    /// Probe-max scoring over per-regulator SUM reductions.
    SUM,
    /// Maximum-coverage scoring over positions.
    COV,
}

/// Probing policy selector.
#[derive(Debug, Clone, PartialEq, Eq, Structural)]
pub enum Algorithm {
    /// Adaptive myopic policy.
    AMP,
    /// Non-adaptive myopic policy.
    NAMP,
    /// Offline optimal baseline.
    OPT,
    /// Every algorithm above.
    ALL,
}

/// Validation failures raised at model-construction and policy-invocation
/// boundaries; once a trial runs, no further errors arise.
#[derive(Debug, Clone, PartialEq, Eq, Structural)]
pub enum BprError {
    /// An objective/algorithm pairing that makes no sense (e.g. a coverage
    /// reduction where only probe-max is valid).
    ConfigurationError,
    /// A budget pair with l > k, or k or l exceeding the number of regulators.
    ConstraintViolation,
    /// A probability vector failing the sum-to-one or range checks.
    MalformedDistribution,
}

impl FromStr for GoalFunction {
    type Err = &'static str;

    fn from_str(goal: &str) -> (r: Result<Self, Self::Err>) {
        if goal.to_owned() == ("MAX").to_owned() {
            Ok(GoalFunction::MAX)
        } else if goal.to_owned() == ("SUM").to_owned() {
            Ok(GoalFunction::SUM)
        } else if goal.to_owned() == ("COV").to_owned() {
            Ok(GoalFunction::COV)
        } else {
            Err("Could not parse GoalFunction!")
        }
    }
}

impl FromStr for Algorithm {
    type Err = &'static str;

    fn from_str(algorithm: &str) -> (r: Result<Self, Self::Err>) {
        if algorithm.to_owned() == ("AMP").to_owned() {
            Ok(Algorithm::AMP)
        } else if algorithm.to_owned() == ("NAMP").to_owned() {
            Ok(Algorithm::NAMP)
        } else if algorithm.to_owned() == ("OPT").to_owned() {
            Ok(Algorithm::OPT)
        } else if algorithm.to_owned() == ("ALL").to_owned() {
            Ok(Algorithm::ALL)
        } else {
            Err("Could not parse Algorithm!")
        }
    }
}

/// The eight `l` budgets, as sixteenths of `n`, that the offline-optimal
/// baseline is evaluated at.
pub fn compute_opt_l_values(n: usize) -> (r: [usize; 8])
    ensures
        r@.len() == 8,
        r@[0] == n / 16,
        r@[1] == (n / 16) * 2,
        r@[2] == (n / 16) * 3,
        r@[3] == (n / 16) * 4,
        r@[4] == (n / 16) * 6,
        r@[5] == (n / 16) * 8,
        r@[6] == (n / 16) * 9,
        r@[7] == (n / 16) * 12,
{
    let n16 = n / 16;
    proof {
        assert(n16 * 16 <= n) by (nonlinear_arith)
            requires n16 == n / 16,
        ;
    }
    [n16, n16 * 2, n16 * 3, n16 * 4, n16 * 6, n16 * 8, n16 * 9, n16 * 12]
}

/// The twelve `(k, l)` budget pairs, as quarters and sixteenths of `n`, that
/// the probing policies are evaluated at.
pub fn compute_k_l_pairs(n: usize) -> (r: [(usize, usize); 12])
    ensures
        r@.len() == 12,
        forall|j: int| 0 <= j < 4 ==> (#[trigger] r@[j]).0 == n / 4,
        forall|j: int| 4 <= j < 8 ==> (#[trigger] r@[j]).0 == (n / 4) * 2,
        forall|j: int| 8 <= j < 12 ==> (#[trigger] r@[j]).0 == (n / 4) * 3,
        r@[0].1 == n / 16,
        r@[1].1 == (n / 16) * 2,
        r@[2].1 == (n / 16) * 3,
        r@[3].1 == n / 4,
        r@[4].1 == (n / 16) * 2,
        r@[5].1 == n / 4,
        r@[6].1 == (n / 16) * 6,
        r@[7].1 == (n / 4) * 2,
        r@[8].1 == (n / 16) * 3,
        r@[9].1 == (n / 16) * 6,
        r@[10].1 == (n / 16) * 9,
        r@[11].1 == (n / 4) * 3,
{
    let n4 = n / 4;
    let n16 = n / 16;
    proof {
        assert(n4 * 4 <= n && n16 * 16 <= n) by (nonlinear_arith)
            requires n4 == n / 4, n16 == n / 16,
        ;
    }
    [
        (n4, n16),
        (n4, n16 * 2),
        (n4, n16 * 3),
        (n4, n4),
        (n4 * 2, n16 * 2),
        (n4 * 2, n4),
        (n4 * 2, n16 * 6),
        (n4 * 2, n4 * 2),
        (n4 * 3, n16 * 3),
        (n4 * 3, n16 * 6),
        (n4 * 3, n16 * 9),
        (n4 * 3, n4 * 3),
    ]
}

} // verus!
