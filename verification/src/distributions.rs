//! Discrete reward distributions over `{0, .., v-1}` with constant-time
//! probability and partial-expectation queries.
//!
//! Probabilities are held in fixed-point form: the unit of mass is
//! `1 / PROB_SCALE`, so a vector that sums to `PROB_SCALE` carries total
//! probability one. The construction-time tolerance of one part in
//! `PROB_SCALE` therefore reads as an exact sum check.

use vstd::prelude::*;

use crate::BprError;
use crate::sums::{
    nonneg, mass_below, weighted_mass_below, dist_total, dist_expectation,
    lemma_mass_below_mono, lemma_mass_below_nonneg, lemma_entry_le_total,
    lemma_weighted_mass_below_mono, lemma_weighted_mass_below_nonneg,
    lemma_weighted_mass_below_bound, conv_term, conv_full, conv_prefix,
    lemma_conv_term_nonneg, lemma_conv_term_bound, lemma_conv_prefix_nonneg,
    lemma_conv_prefix_exchange, lemma_div_sum_ge,
};

verus! {

/// Fixed-point representation of probability one.
pub const PROB_SCALE: u64 = 1_000_000_000;

/// Largest accepted support size; keeps every cumulative expectation within
/// a machine word.
pub const MAX_SUPPORT: usize = 0x1000_0000;

/// A fixed-point weight vector as mathematical integers.
pub open spec fn pmf_of(probs: Seq<u64>) -> Seq<int> {
    probs.map_values(|x: u64| x as int)
}

/// A probability vector the constructors accept: non-empty, not oversized,
/// and summing to exactly one (the strict `1e-9` tolerance at this
/// resolution).
pub open spec fn valid_probability_vector(p: Seq<int>) -> bool {
    &&& 1 <= p.len() <= MAX_SUPPORT
    &&& dist_total(p) == PROB_SCALE
}

/// `P[X = i]`, zero outside the support.
pub open spec fn p_equal(p: Seq<int>, i: int) -> int {
    if 0 <= i < p.len() {
        p[i]
    } else {
        0
    }
}

/// `P[X < i]`, clamped to the total mass outside the support.
pub open spec fn p_less(p: Seq<int>, i: int) -> int {
    if i <= 0 {
        0
    } else if i >= p.len() {
        dist_total(p)
    } else {
        mass_below(p, i)
    }
}

/// `P[X > i]`.
pub open spec fn p_greater(p: Seq<int>, i: int) -> int {
    dist_total(p) - p_less(p, i + 1)
}

/// `i * P[X = i]`.
pub open spec fn e_equal(p: Seq<int>, i: int) -> int {
    if 0 <= i < p.len() {
        i * p[i]
    } else {
        0
    }
}

/// `E[X * 1{X < i}]`, clamped to the full expectation outside the support.
pub open spec fn e_less(p: Seq<int>, i: int) -> int {
    if i <= 0 {
        0
    } else if i >= p.len() {
        dist_expectation(p)
    } else {
        weighted_mass_below(p, i)
    }
}

/// `E[X * 1{X > i}]`.
pub open spec fn e_greater(p: Seq<int>, i: int) -> int {
    dist_expectation(p) - e_less(p, i + 1)
}

/// `P[X < i]` and `P[X >= i]` partition the whole mass, for every index.
pub proof fn lemma_less_greater_partition(p: Seq<int>, i: int)
    ensures
        p_less(p, i) + p_greater(p, i - 1) == dist_total(p),
{
}

/// `E[X * 1{X >= 0}]` is the full expectation: the zero term adds nothing.
pub proof fn lemma_expected_greater_or_equal_full(p: Seq<int>)
    requires
        p.len() >= 1,
    ensures
        e_greater(p, -1) == dist_expectation(p),
        e_greater(p, 0) == dist_expectation(p),
{
    assert(weighted_mass_below(p, 0) == 0);
    assert(weighted_mass_below(p, 1) == weighted_mass_below(p, 0) + 0 * p[0]);
    assert(0 * p[0] == 0) by (nonlinear_arith);
}

/// `E[X * 1{X >= v}]` vanishes at the top of a size-`v` support.
pub proof fn lemma_expected_greater_or_equal_top(p: Seq<int>)
    requires
        p.len() >= 1,
    ensures
        e_greater(p, p.len() - 1) == 0,
{
}

/// The fixed-point product of the CDFs at `i` of the first `k` vectors,
/// folded left with a floor division after every factor.
pub open spec fn prod_less_upto(ds: Seq<Seq<int>>, i: int, k: int) -> int
    decreases k,
{
    if k <= 0 {
        PROB_SCALE as int
    } else {
        prod_less_upto(ds, i, k - 1) * p_less(ds[k - 1], i) / (PROB_SCALE as int)
    }
}

/// The fixed-point product of all the CDFs at `i`.
pub open spec fn prod_less(ds: Seq<Seq<int>>, i: int) -> int {
    prod_less_upto(ds, i, ds.len() as int)
}

/// The CDF that the max reduction realizes: the product of the per-vector
/// CDFs for interior indices, pinned to probability one at the top.
pub open spec fn max_cdf(ds: Seq<Seq<int>>, n: int, i: int) -> int {
    if i >= n {
        PROB_SCALE as int
    } else {
        prod_less(ds, i)
    }
}

/// The largest `j`-th pre-drawn sample among the first `k` distributions,
/// zero when there are none.
pub open spec fn max_sample_upto(dist: Seq<WeightedDistribution>, j: int, k: int) -> int
    decreases k,
{
    if k <= 0 {
        0
    } else {
        let m = max_sample_upto(dist, j, k - 1);
        let s = dist[k - 1].samples@[j] as int;
        if s > m {
            s
        } else {
            m
        }
    }
}

/// `P[X < i]` grows with `i`.
pub proof fn lemma_p_less_mono(p: Seq<int>, i: int, j: int)
    requires
        nonneg(p),
        i <= j,
    ensures
        p_less(p, i) <= p_less(p, j),
{
    lemma_mass_below_nonneg(p, p.len() as int);
    if 0 < i < p.len() {
        lemma_mass_below_nonneg(p, i);
        lemma_mass_below_mono(p, i, p.len() as int);
    }
    if 0 < j < p.len() {
        lemma_mass_below_nonneg(p, j);
        lemma_mass_below_mono(p, j, p.len() as int);
    }
    if 0 < i && 0 < j && i < p.len() && j < p.len() {
        lemma_mass_below_mono(p, i, j);
    }
}

/// `P[X < i]` lies between zero and the total mass.
pub proof fn lemma_p_less_range(p: Seq<int>, i: int)
    requires
        nonneg(p),
    ensures
        0 <= p_less(p, i) <= dist_total(p),
{
    lemma_mass_below_nonneg(p, p.len() as int);
    if 0 < i < p.len() {
        lemma_mass_below_nonneg(p, i);
        lemma_mass_below_mono(p, i, p.len() as int);
    }
}

/// Whether a weight vector is a valid fixed-point probability vector.
pub(crate) fn check_weights(weights: &Vec<u64>) -> (r: bool)
    ensures
        r == valid_probability_vector(pmf_of(weights@)),
{
    let ghost p = pmf_of(weights@);
    proof {
        assert(nonneg(p));
    }
    if weights.len() < 1 || weights.len() > MAX_SUPPORT {
        return false;
    }
    let mut acc: u64 = 0;
    let mut i: usize = 0;
    while i < weights.len()
        invariant
            i <= weights@.len(),
            p == pmf_of(weights@),
            nonneg(p),
            acc as int == mass_below(p, i as int),
            acc <= PROB_SCALE,
        decreases weights@.len() - i,
    {
        let w = weights[i];
        if w > PROB_SCALE || acc + w > PROB_SCALE {
            proof {
                lemma_mass_below_nonneg(p, i as int);
                lemma_mass_below_mono(p, i as int + 1, p.len() as int);
            }
            return false;
        }
        acc = acc + w;
        i += 1;
    }
    acc == PROB_SCALE
}

/// Fixed-point probability product, rounding down.
fn mul_prob(a: u64, b: u64) -> (r: u64)
    requires
        a <= PROB_SCALE,
        b <= PROB_SCALE,
    ensures
        r as int == (a as int) * (b as int) / (PROB_SCALE as int),
        r <= a,
        r <= b,
{
    proof {
        let s = PROB_SCALE as int;
        assert((a as int) * (b as int) <= s * s) by (nonlinear_arith)
            requires 0 <= a as int <= s, 0 <= b as int <= s,
        ;
        assert((a as int) * (b as int) >= 0) by (nonlinear_arith)
            requires 0 <= a as int, 0 <= b as int,
        ;
        assert((a as int) * (b as int) <= (a as int) * s) by (nonlinear_arith)
            requires 0 <= a as int, 0 <= b as int <= s,
        ;
        vstd::arithmetic::div_mod::lemma_div_is_ordered((a as int) * (b as int), (a as int) * s, s);
        vstd::arithmetic::div_mod::lemma_div_by_multiple(a as int, s);
        assert((a as int) * (b as int) <= (b as int) * s) by (nonlinear_arith)
            requires 0 <= a as int <= s, 0 <= b as int,
        ;
        vstd::arithmetic::div_mod::lemma_div_is_ordered((a as int) * (b as int), (b as int) * s, s);
        vstd::arithmetic::div_mod::lemma_div_by_multiple(b as int, s);
    }
    (a * b) / PROB_SCALE
}

/// A discrete distribution over `{0, .., v-1}`: exact fixed-point
/// probability vector, cumulative probabilities, cumulative expectations,
/// and an optional pre-drawn stream of realizations so that trial `i`
/// always means the `i`-th sample.
#[derive(Debug, Clone)]
pub struct WeightedDistribution {
    /// Fixed-point probability of each value.
    pub probs: Vec<u64>,
    /// `cum_prob[i]` is the mass of values `<= i`.
    pub cum_prob: Vec<u64>,
    /// `cum_expe[i]` is the expectation contribution of values `<= i`.
    pub cum_expe: Vec<u64>,
    /// Pre-drawn realizations.
    pub samples: Vec<usize>,
}

impl WeightedDistribution {
    /// The probability vector, as mathematical integers.
    pub open spec fn pmf(&self) -> Seq<int> {
        pmf_of(self.probs@)
    }

    /// Structural invariant: cumulative arrays are exact prefix sums and the
    /// total mass never exceeds one.
    pub open spec fn wf(&self) -> bool {
        &&& 1 <= self.probs@.len() <= MAX_SUPPORT
        &&& self.cum_prob@.len() == self.probs@.len()
        &&& self.cum_expe@.len() == self.probs@.len()
        &&& dist_total(self.pmf()) <= PROB_SCALE
        &&& forall|i: int| 0 <= i < self.probs@.len() ==>
            (#[trigger] self.cum_prob@[i]) as int == mass_below(self.pmf(), i + 1)
        &&& forall|i: int| 0 <= i < self.probs@.len() ==>
            (#[trigger] self.cum_expe@[i]) as int == weighted_mass_below(self.pmf(), i + 1)
        &&& forall|j: int| 0 <= j < self.samples@.len() ==>
            (#[trigger] self.samples@[j]) < self.probs@.len()
    }

    /// Builds the cumulative arrays for an already-validated weight vector.
    pub(crate) fn from_pmf(probs: Vec<u64>, samples: Vec<usize>) -> (r: WeightedDistribution)
        requires
            1 <= probs@.len() <= MAX_SUPPORT,
            dist_total(pmf_of(probs@)) <= PROB_SCALE,
            forall|j: int| 0 <= j < samples@.len() ==> (#[trigger] samples@[j]) < probs@.len(),
        ensures
            r.wf(),
            r.probs@ == probs@,
            r.samples@ == samples@,
    {
        let ghost p = pmf_of(probs@);
        proof {
            assert(nonneg(p));
        }
        let mut cum_prob: Vec<u64> = Vec::new();
        let mut cum_expe: Vec<u64> = Vec::new();
        let mut acc_p: u64 = 0;
        let mut acc_e: u64 = 0;
        let mut i: usize = 0;
        while i < probs.len()
            invariant
                i <= probs@.len(),
                1 <= probs@.len() <= MAX_SUPPORT,
                p == pmf_of(probs@),
                nonneg(p),
                dist_total(p) <= PROB_SCALE,
                acc_p as int == mass_below(p, i as int),
                acc_e as int == weighted_mass_below(p, i as int),
                cum_prob@.len() == i,
                cum_expe@.len() == i,
                forall|q: int| 0 <= q < i ==>
                    (#[trigger] cum_prob@[q]) as int == mass_below(p, q + 1),
                forall|q: int| 0 <= q < i ==>
                    (#[trigger] cum_expe@[q]) as int == weighted_mass_below(p, q + 1),
            decreases probs@.len() - i,
        {
            proof {
                lemma_mass_below_mono(p, i as int + 1, p.len() as int);
                lemma_mass_below_nonneg(p, i as int);
                lemma_weighted_mass_below_bound(p, i as int + 1);
                lemma_weighted_mass_below_mono(p, i as int, i as int + 1);
                lemma_weighted_mass_below_nonneg(p, i as int);
                assert((p.len() - 1) * dist_total(p) <= 0xFFF_FFFF * 1_000_000_000int)
                    by (nonlinear_arith)
                    requires
                        p.len() <= 0x1000_0000,
                        0 <= dist_total(p) <= 1_000_000_000,
                ;
                assert(weighted_mass_below(p, i as int + 1)
                    == weighted_mass_below(p, i as int) + (i as int) * p[i as int]);
            }
            acc_p = acc_p + probs[i];
            acc_e = acc_e + (i as u64) * probs[i];
            cum_prob.push(acc_p);
            cum_expe.push(acc_e);
            i += 1;
        }
        WeightedDistribution { probs, cum_prob, cum_expe, samples }
    }

    /// Validates a fixed-point probability vector and a pre-drawn sample
    /// stream, and builds the distribution; a vector that misses total mass
    /// one, or a sample outside the support, is rejected.
    pub fn new_without_rng(weights: &Vec<u64>, samples: Vec<usize>) -> (r: Result<
        WeightedDistribution,
        BprError,
    >)
        ensures
            match r {
                Ok(d) => {
                    &&& valid_probability_vector(pmf_of(weights@))
                    &&& forall|j: int| 0 <= j < samples@.len() ==>
                        (#[trigger] samples@[j]) < weights@.len()
                    &&& d.wf()
                    &&& d.pmf() == pmf_of(weights@)
                    &&& d.probs@ == weights@
                    &&& d.samples@ == samples@
                    &&& dist_total(d.pmf()) == PROB_SCALE
                },
                Err(e) => {
                    &&& e == BprError::MalformedDistribution
                    &&& !(valid_probability_vector(pmf_of(weights@))
                        && (forall|j: int| 0 <= j < samples@.len() ==>
                            (#[trigger] samples@[j]) < weights@.len()))
                },
            },
    {
        let ghost p = pmf_of(weights@);
        proof {
            assert(nonneg(p));
        }
        if weights.len() < 1 || weights.len() > MAX_SUPPORT {
            return Err(BprError::MalformedDistribution);
        }
        let mut acc: u64 = 0;
        let mut i: usize = 0;
        while i < weights.len()
            invariant
                i <= weights@.len(),
                p == pmf_of(weights@),
                nonneg(p),
                acc as int == mass_below(p, i as int),
                acc <= PROB_SCALE,
            decreases weights@.len() - i,
        {
            let w = weights[i];
            if w > PROB_SCALE || acc + w > PROB_SCALE {
                proof {
                    lemma_mass_below_nonneg(p, i as int);
                    lemma_mass_below_mono(p, i as int + 1, p.len() as int);
                }
                return Err(BprError::MalformedDistribution);
            }
            acc = acc + w;
            i += 1;
        }
        if acc != PROB_SCALE {
            return Err(BprError::MalformedDistribution);
        }
        let mut j: usize = 0;
        while j < samples.len()
            invariant
                j <= samples@.len(),
                forall|q: int| 0 <= q < j ==> (#[trigger] samples@[q]) < weights@.len(),
            decreases samples@.len() - j,
        {
            if samples[j] >= weights.len() {
                return Err(BprError::MalformedDistribution);
            }
            j += 1;
        }
        let mut probs: Vec<u64> = Vec::new();
        let mut q: usize = 0;
        while q < weights.len()
            invariant
                q <= weights@.len(),
                probs@.len() == q,
                forall|t: int| 0 <= t < q ==> (#[trigger] probs@[t]) == weights@[t],
            decreases weights@.len() - q,
        {
            probs.push(weights[q]);
            q += 1;
        }
        proof {
            assert(probs@ =~= weights@);
        }
        Ok(Self::from_pmf(probs, samples))
    }

    /// Validates the weights, builds an alias table from them, pre-draws
    /// `num_samples` realizations through it, and stores the stream with the
    /// distribution.
    pub fn new(rng: &mut rand::rngs::StdRng, weights: &Vec<u64>, num_samples: usize) -> (r:
        Result<WeightedDistribution, BprError>)
        ensures
            match r {
                Ok(d) => {
                    &&& valid_probability_vector(pmf_of(weights@))
                    &&& d.wf()
                    &&& d.pmf() == pmf_of(weights@)
                    &&& d.probs@ == weights@
                    &&& d.samples@.len() == num_samples
                    &&& dist_total(d.pmf()) == PROB_SCALE
                },
                Err(e) => {
                    &&& e == BprError::MalformedDistribution
                    &&& !valid_probability_vector(pmf_of(weights@))
                },
            },
    {
        let sampler = match crate::sampling::AliasSampler::build(weights) {
            Ok(s) => s,
            Err(e) => {
                return Err(e);
            },
        };
        let samples = sampler.pre_draw(rng, num_samples);
        Self::new_without_rng(weights, samples)
    }

    /// The probability vector.
    pub fn get_probs(&self) -> (r: Vec<u64>)
        requires
            self.wf(),
        ensures
            r@ == self.probs@,
    {
        let mut r: Vec<u64> = Vec::new();
        let mut i: usize = 0;
        while i < self.probs.len()
            invariant
                i <= self.probs@.len(),
                r@.len() == i,
                forall|q: int| 0 <= q < i ==> (#[trigger] r@[q]) == self.probs@[q],
            decreases self.probs@.len() - i,
        {
            r.push(self.probs[i]);
            i += 1;
        }
        proof {
            assert(r@ =~= self.probs@);
        }
        r
    }

    /// The size of the support.
    #[inline]
    pub fn size(&self) -> (r: usize)
        ensures
            r == self.probs@.len(),
    {
        self.probs.len()
    }

    /// The `i`-th pre-drawn realization.
    #[inline]
    pub fn get_sample(&self, i: usize) -> (r: usize)
        requires
            self.wf(),
            i < self.samples@.len(),
        ensures
            r == self.samples@[i as int],
            r < self.probs@.len(),
    {
        self.samples[i]
    }

    /// How many realizations were pre-drawn.
    #[inline]
    pub fn num_samples(&self) -> (r: usize)
        ensures
            r == self.samples@.len(),
    {
        self.samples.len()
    }

    /// `P[X = i]`.
    #[inline]
    pub fn prob_equal(&self, i: usize) -> (r: u64)
        requires
            self.wf(),
        ensures
            r as int == p_equal(self.pmf(), i as int),
    {
        if i < self.probs.len() {
            self.probs[i]
        } else {
            0
        }
    }

    /// `P[X < i]`.
    #[inline]
    pub fn prob_less(&self, i: usize) -> (r: u64)
        requires
            self.wf(),
        ensures
            r as int == p_less(self.pmf(), i as int),
    {
        if i == 0 {
            0
        } else if i <= self.probs.len() {
            self.cum_prob[i - 1]
        } else {
            self.cum_prob[self.cum_prob.len() - 1]
        }
    }

    /// `P[X > i]`.
    #[inline]
    pub fn prob_greater(&self, i: usize) -> (r: u64)
        requires
            self.wf(),
        ensures
            r as int == p_greater(self.pmf(), i as int),
    {
        let n = self.probs.len();
        let ghost p = self.pmf();
        if i >= n - 1 {
            proof {
                lemma_mass_below_mono(p, 0, p.len() as int);
            }
            0
        } else {
            proof {
                lemma_mass_below_mono(p, i as int + 1, p.len() as int);
                lemma_mass_below_nonneg(p, i as int + 1);
            }
            self.cum_prob[n - 1] - self.cum_prob[i]
        }
    }

    /// `i * P[X = i]`.
    #[inline]
    pub fn expected_equal(&self, i: usize) -> (r: u64)
        requires
            self.wf(),
        ensures
            r as int == e_equal(self.pmf(), i as int),
    {
        let ghost p = self.pmf();
        if i == 0 || i >= self.probs.len() {
            proof {
                if i == 0 && i < self.probs@.len() {
                    assert(e_equal(p, 0) == 0 * p[0]);
                    assert(0 * p[0] == 0) by (nonlinear_arith);
                }
            }
            0
        } else {
            proof {
                assert(weighted_mass_below(p, i + 1)
                    == weighted_mass_below(p, i as int) + (i as int) * p[i as int]);
                lemma_weighted_mass_below_nonneg(p, i as int);
            }
            self.cum_expe[i] - self.cum_expe[i - 1]
        }
    }

    /// `E[X * 1{X < i}]`.
    #[inline]
    pub fn expected_less(&self, i: usize) -> (r: u64)
        requires
            self.wf(),
        ensures
            r as int == e_less(self.pmf(), i as int),
    {
        let ghost p = self.pmf();
        if i == 0 {
            0
        } else if i <= self.probs.len() {
            self.cum_expe[i - 1]
        } else {
            self.cum_expe[self.cum_expe.len() - 1]
        }
    }

    /// `E[X * 1{X > i}]`.
    #[inline]
    pub fn expected_greater(&self, i: usize) -> (r: u64)
        requires
            self.wf(),
        ensures
            r as int == e_greater(self.pmf(), i as int),
    {
        let n = self.probs.len();
        let ghost p = self.pmf();
        if i >= n - 1 {
            proof {
                lemma_weighted_mass_below_mono(p, 0, p.len() as int);
            }
            0
        } else {
            proof {
                lemma_weighted_mass_below_mono(p, i as int + 1, p.len() as int);
                lemma_weighted_mass_below_nonneg(p, i as int + 1);
            }
            self.cum_expe[n - 1] - self.cum_expe[i]
        }
    }

    /// `E[X]`.
    #[inline]
    pub fn expected_value(&self) -> (r: u64)
        requires
            self.wf(),
        ensures
            r as int == dist_expectation(self.pmf()),
    {
        self.cum_expe[self.cum_expe.len() - 1]
    }

    /// The distribution of the maximum of independent draws, one from each
    /// input: mass at `i` is the difference of the CDF products at `i+1` and
    /// at `i`, with the top CDF pinned to one. Pre-drawn samples reduce
    /// pointwise by maximum.
    pub fn max_distribution(dist: &Vec<WeightedDistribution>) -> (r: WeightedDistribution)
        requires
            dist@.len() >= 1,
            forall|d: int| 0 <= d < dist@.len() ==> (#[trigger] dist@[d]).wf(),
            forall|d: int| 0 <= d < dist@.len() ==>
                (#[trigger] dist@[d]).probs@.len() == dist@[0].probs@.len(),
            forall|d: int| 0 <= d < dist@.len() ==>
                (#[trigger] dist@[d]).samples@.len() == dist@[0].samples@.len(),
        ensures
            r.wf(),
            r.probs@.len() == dist@[0].probs@.len(),
            forall|i: int| 0 <= i < r.probs@.len() ==> #[trigger] r.pmf()[i]
                == max_cdf(
                    dist@.map_values(|d: WeightedDistribution| d.pmf()),
                    dist@[0].probs@.len() as int,
                    i + 1,
                ) - max_cdf(
                    dist@.map_values(|d: WeightedDistribution| d.pmf()),
                    dist@[0].probs@.len() as int,
                    i,
                ),
            dist_total(r.pmf()) == PROB_SCALE,
            r.samples@.len() == dist@[0].samples@.len(),
            forall|j: int| 0 <= j < r.samples@.len() ==> (#[trigger] r.samples@[j]) as int
                == max_sample_upto(dist@, j, dist@.len() as int),
    {
        let n = dist[0].size();
        let nd = dist.len();
        let ghost ds = dist@.map_values(|d: WeightedDistribution| d.pmf());
        proof {
            assert(forall|d: int| 0 <= d < ds.len() ==> #[trigger] ds[d] == dist@[d].pmf());
            assert(forall|d: int| 0 <= d < ds.len() ==> nonneg(#[trigger] ds[d]));
        }
        let mut weights: Vec<u64> = Vec::new();
        let mut i: usize = 0;
        while i < n
            invariant
                i <= n,
                n == dist@[0].probs@.len(),
                n >= 1,
                nd == dist@.len(),
                dist@.len() >= 1,
                forall|d: int| 0 <= d < dist@.len() ==> (#[trigger] dist@[d]).wf(),
                forall|d: int| 0 <= d < dist@.len() ==>
                    (#[trigger] dist@[d]).probs@.len() == n,
                ds == dist@.map_values(|d: WeightedDistribution| d.pmf()),
                forall|d: int| 0 <= d < ds.len() ==> #[trigger] ds[d] == dist@[d].pmf(),
                weights@.len() == i,
                forall|q: int| 0 <= q < i ==> (#[trigger] weights@[q]) as int
                    == max_cdf(ds, n as int, q + 1) - max_cdf(ds, n as int, q),
                mass_below(pmf_of(weights@), i as int) == max_cdf(ds, n as int, i as int)
                    - max_cdf(ds, n as int, 0),
                max_cdf(ds, n as int, i as int) <= PROB_SCALE,
                max_cdf(ds, n as int, 0) >= 0,
            decreases n - i,
        {
            let mut inc: u64 = PROB_SCALE;
            let mut out: u64 = PROB_SCALE;
            let mut d_idx: usize = 0;
            while d_idx < nd
                invariant
                    d_idx <= nd,
                    nd == dist@.len(),
                    n == dist@[0].probs@.len(),
                    n >= 1,
                    i < n,
                    forall|d: int| 0 <= d < dist@.len() ==> (#[trigger] dist@[d]).wf(),
                    forall|d: int| 0 <= d < dist@.len() ==>
                        (#[trigger] dist@[d]).probs@.len() == n,
                    forall|d: int| 0 <= d < ds.len() ==> #[trigger] ds[d] == dist@[d].pmf(),
                    ds.len() == dist@.len(),
                    inc as int == if i < n - 1 {
                        prod_less_upto(ds, i as int + 1, d_idx as int)
                    } else {
                        PROB_SCALE as int
                    },
                    out as int == prod_less_upto(ds, i as int, d_idx as int),
                    out <= inc,
                    inc <= PROB_SCALE,
                decreases nd - d_idx,
            {
                let d = &dist[d_idx];
                let ghost p = d.pmf();
                proof {
                    assert(ds[d_idx as int] == p);
                    lemma_p_less_range(p, i as int);
                    lemma_p_less_range(p, i as int + 1);
                    lemma_p_less_mono(p, i as int, i as int + 1);
                }
                let less_i = d.prob_less(i);
                let new_out = mul_prob(out, less_i);
                proof {
                    if i < n - 1 {
                        // both products shrink together: inc * less(i+1) >= out * less(i)
                        assert((inc as int) * (p_less(p, i as int + 1))
                            >= (out as int) * (p_less(p, i as int))) by (nonlinear_arith)
                            requires
                                0 <= out as int <= inc as int,
                                0 <= p_less(p, i as int) <= p_less(p, i as int + 1),
                        ;
                    } else {
                        assert((inc as int) * (PROB_SCALE as int)
                            >= (out as int) * (p_less(p, i as int))) by (nonlinear_arith)
                            requires
                                0 <= out as int <= inc as int,
                                0 <= p_less(p, i as int) <= PROB_SCALE,
                        ;
                    }
                }
                if i < n - 1 {
                    let less_i1 = d.prob_less(i + 1);
                    let new_inc = mul_prob(inc, less_i1);
                    proof {
                        vstd::arithmetic::div_mod::lemma_div_is_ordered(
                            (out as int) * (p_less(p, i as int)),
                            (inc as int) * (p_less(p, i as int + 1)),
                            PROB_SCALE as int,
                        );
                    }
                    inc = new_inc;
                } else {
                    proof {
                        vstd::arithmetic::div_mod::lemma_div_is_ordered(
                            (out as int) * (p_less(p, i as int)),
                            (inc as int) * (PROB_SCALE as int),
                            PROB_SCALE as int,
                        );
                        vstd::arithmetic::div_mod::lemma_div_by_multiple(
                            inc as int, PROB_SCALE as int);
                    }
                }
                out = new_out;
                d_idx += 1;
            }
            // inc now carries max_cdf at i+1, out the one at i
            proof {
                if i < n - 1 {
                    assert(inc as int == max_cdf(ds, n as int, i as int + 1));
                } else {
                    assert(max_cdf(ds, n as int, i as int + 1) == PROB_SCALE as int);
                }
                assert(out as int == max_cdf(ds, n as int, i as int));
                let ghost oldw = pmf_of(weights@);
                assert(mass_below(pmf_of(weights@.push((inc - out) as u64)), i as int + 1)
                    == mass_below(oldw, i as int) + (inc - out)) by {
                    lemma_mass_prefix_push(weights@, (inc - out) as u64);
                }
            }
            weights.push(inc - out);
            i += 1;
        }
        proof {
            assert(prod_less_upto(ds, 0, 1)
                == prod_less_upto(ds, 0, 0) * p_less(ds[0], 0) / (PROB_SCALE as int));
            lemma_prod_less_upto_zero(ds, ds.len() as int);
            assert(max_cdf(ds, n as int, 0) == 0);
            assert(max_cdf(ds, n as int, n as int) == PROB_SCALE);
            assert(dist_total(pmf_of(weights@)) == PROB_SCALE);
        }
        let ns = dist[0].num_samples();
        let mut samples: Vec<usize> = Vec::new();
        let mut j: usize = 0;
        while j < ns
            invariant
                j <= ns,
                nd == dist@.len(),
                dist@.len() >= 1,
                n == dist@[0].probs@.len(),
                forall|d: int| 0 <= d < dist@.len() ==> (#[trigger] dist@[d]).wf(),
                forall|d: int| 0 <= d < dist@.len() ==>
                    (#[trigger] dist@[d]).probs@.len() == n,
                forall|d: int| 0 <= d < dist@.len() ==>
                    (#[trigger] dist@[d]).samples@.len() == ns,
                samples@.len() == j,
                forall|q: int| 0 <= q < j ==> (#[trigger] samples@[q]) as int
                    == max_sample_upto(dist@, q, dist@.len() as int),
                forall|q: int| 0 <= q < j ==> (#[trigger] samples@[q]) < n,
            decreases ns - j,
        {
            let mut m: usize = 0;
            let mut d_idx: usize = 0;
            while d_idx < nd
                invariant
                    d_idx <= nd,
                    nd == dist@.len(),
                    n == dist@[0].probs@.len(),
                    j < ns,
                    forall|d: int| 0 <= d < dist@.len() ==> (#[trigger] dist@[d]).wf(),
                    forall|d: int| 0 <= d < dist@.len() ==>
                        (#[trigger] dist@[d]).probs@.len() == n,
                    forall|d: int| 0 <= d < dist@.len() ==>
                        (#[trigger] dist@[d]).samples@.len() == ns,
                    m as int == max_sample_upto(dist@, j as int, d_idx as int),
                    d_idx >= 1 ==> m < n,
                    d_idx == 0 ==> m == 0,
                decreases nd - d_idx,
            {
                let s = dist[d_idx].get_sample(j);
                if s > m {
                    m = s;
                }
                d_idx += 1;
            }
            proof {
                if n >= 1 && nd >= 1 {
                }
            }
            samples.push(m);
            j += 1;
        }
        Self::from_pmf(weights, samples)
    }

    /// The distribution of the sum of independent draws, one from each
    /// input, convolved pairwise in balanced rounds; pre-drawn samples
    /// reduce pointwise by addition.
    pub fn sum_distribution(dist: &Vec<WeightedDistribution>) -> (r: WeightedDistribution)
        requires
            dist@.len() >= 1,
            forall|d: int| 0 <= d < dist@.len() ==> (#[trigger] dist@[d]).wf(),
            forall|d: int| 0 <= d < dist@.len() ==>
                (#[trigger] dist@[d]).samples@.len() == dist@[0].samples@.len(),
            lens_upto(dist@, dist@.len() as int) - (dist@.len() - 1) <= MAX_SUPPORT,
        ensures
            r.wf(),
            r.pmf() == pair_reduce(dist@.map_values(|d: WeightedDistribution| d.pmf())),
            r.probs@.len() == lens_upto(dist@, dist@.len() as int) - (dist@.len() - 1),
            r.samples@.len() == dist@[0].samples@.len(),
            forall|j: int| 0 <= j < r.samples@.len() ==> (#[trigger] r.samples@[j]) as int
                == sum_sample_upto(dist@, j, dist@.len() as int),
    {
        let ghost ds0 = dist@.map_values(|d: WeightedDistribution| d.pmf());
        let ghost target: int = lens_upto(dist@, dist@.len() as int) - (dist@.len() - 1);
        let nd = dist.len();
        let mut all_weights: Vec<Vec<u64>> = Vec::new();
        let mut d_idx: usize = 0;
        while d_idx < nd
            invariant
                d_idx <= nd,
                nd == dist@.len(),
                forall|d: int| 0 <= d < dist@.len() ==> (#[trigger] dist@[d]).wf(),
                all_weights@.len() == d_idx,
                forall|q: int| 0 <= q < d_idx ==>
                    pmf_of((#[trigger] all_weights@[q])@) == dist@[q].pmf(),
            decreases nd - d_idx,
        {
            all_weights.push(dist[d_idx].get_probs());
            d_idx += 1;
        }
        proof {
            assert(forall|q: int| 0 <= q < ds0.len() ==> #[trigger] ds0[q] == dist@[q].pmf());
            assert(weights_view(all_weights@) =~= ds0);
            lemma_lens_upto_map(dist@, dist@.len() as int);
            assert(ds0.take(dist@.len() as int) =~= ds0);
            lemma_lens_upto_min(dist@, dist@.len() as int);
            assert(forall|q: int| 0 <= q < all_weights@.len() ==>
                dist_total(pmf_of((#[trigger] all_weights@[q])@)) <= PROB_SCALE);
            assert(forall|q: int| 0 <= q < all_weights@.len() ==>
                1 <= (#[trigger] all_weights@[q])@.len());
        }
        while all_weights.len() > 1
            invariant
                all_weights@.len() >= 1,
                pair_reduce(weights_view(all_weights@)) == pair_reduce(ds0),
                forall|q: int| 0 <= q < all_weights@.len() ==>
                    1 <= (#[trigger] all_weights@[q])@.len(),
                forall|q: int| 0 <= q < all_weights@.len() ==>
                    dist_total(pmf_of((#[trigger] all_weights@[q])@)) <= PROB_SCALE,
                lens_total(weights_view(all_weights@)) - (all_weights@.len() - 1) == target,
                1 <= target <= MAX_SUPPORT,
            decreases all_weights@.len(),
        {
            let ghost round_input = weights_view(all_weights@);
            let ghost round_count = all_weights@.len() as int;
            let mut new_weights: Vec<Vec<u64>> = Vec::new();
            while all_weights.len() > 1
                invariant
                    pair_round(round_input) == weights_view(new_weights@)
                        + pair_round(weights_view(all_weights@)),
                    forall|q: int| 0 <= q < all_weights@.len() ==>
                        1 <= (#[trigger] all_weights@[q])@.len(),
                    forall|q: int| 0 <= q < all_weights@.len() ==>
                        dist_total(pmf_of((#[trigger] all_weights@[q])@)) <= PROB_SCALE,
                    forall|q: int| 0 <= q < new_weights@.len() ==>
                        1 <= (#[trigger] new_weights@[q])@.len(),
                    forall|q: int| 0 <= q < new_weights@.len() ==>
                        dist_total(pmf_of((#[trigger] new_weights@[q])@)) <= PROB_SCALE,
                    lens_total(weights_view(new_weights@))
                        + lens_total(weights_view(all_weights@))
                        - (new_weights@.len() + all_weights@.len() - 1) == target,
                    1 <= target <= MAX_SUPPORT,
                decreases all_weights@.len(),
            {
                let ghost rem = all_weights@;
                let ghost remv = weights_view(rem);
                let a = all_weights.pop().unwrap();
                let b = all_weights.pop().unwrap();
                proof {
                    assert(all_weights@ =~= rem.take(rem.len() - 2));
                    assert(weights_view(all_weights@) =~= remv.take(rem.len() - 2));
                    assert(pmf_of(a@) == remv[rem.len() - 1]);
                    assert(pmf_of(b@) == remv[rem.len() - 2]);
                    // peel the two rear lengths off the list total
                    assert(remv.drop_last() =~= weights_view(rem.drop_last()));
                    assert(remv.drop_last().drop_last() =~= weights_view(all_weights@));
                    assert(lens_total(remv) == lens_total(remv.drop_last()) + pmf_of(a@).len());
                    assert(lens_total(remv.drop_last())
                        == lens_total(remv.drop_last().drop_last()) + pmf_of(b@).len());
                    // the pair fits the support budget
                    lemma_lens_total_min(weights_view(all_weights@));
                    lemma_lens_total_min(weights_view(new_weights@));
                }
                let c = two_sum(&a, &b);
                let ghost prev_new = new_weights@;
                new_weights.push(c);
                proof {
                    assert(pair_round(remv) == seq![conv_pmf(remv[remv.len() - 1], remv[remv.len() - 2])]
                        + pair_round(remv.take(remv.len() - 2)));
                    assert(remv.take(remv.len() - 2) =~= weights_view(all_weights@));
                    assert(weights_view(new_weights@) =~= weights_view(prev_new)
                        + seq![pmf_of(c@)]);
                    assert(pmf_of(c@) == conv_pmf(remv[remv.len() - 1], remv[remv.len() - 2]));
                    assert((weights_view(prev_new) + seq![pmf_of(c@)])
                        + pair_round(weights_view(all_weights@))
                        =~= weights_view(prev_new) + (seq![pmf_of(c@)]
                            + pair_round(weights_view(all_weights@))));
                    // list-total bookkeeping for the push
                    assert(weights_view(new_weights@).drop_last() =~= weights_view(prev_new));
                    assert(lens_total(weights_view(new_weights@))
                        == lens_total(weights_view(prev_new)) + pmf_of(c@).len());
                }
            }
            if all_weights.len() == 1 {
                let ghost rem = all_weights@;
                let w = all_weights.pop().unwrap();
                let ghost prev_new = new_weights@;
                new_weights.push(w);
                proof {
                    assert(pair_round(weights_view(rem)) == weights_view(rem));
                    assert(weights_view(rem) =~= seq![pmf_of(w@)]);
                    assert(weights_view(new_weights@) =~= weights_view(prev_new)
                        + seq![pmf_of(w@)]);
                    assert(pair_round(round_input) =~= weights_view(new_weights@));
                    assert(weights_view(new_weights@).drop_last() =~= weights_view(prev_new));
                    assert(lens_total(weights_view(new_weights@))
                        == lens_total(weights_view(prev_new)) + pmf_of(w@).len());
                    assert(weights_view(rem).drop_last() =~= Seq::<Seq<int>>::empty());
                    assert(lens_total(Seq::<Seq<int>>::empty()) == 0);
                    assert(weights_view(rem).last() == pmf_of(w@));
                    assert(lens_total(weights_view(rem)) == pmf_of(w@).len());
                    assert(all_weights@ =~= rem.take(0));
                    assert(weights_view(all_weights@) =~= Seq::<Seq<int>>::empty());
                    assert(lens_total(weights_view(all_weights@)) == 0);
                }
            } else {
                proof {
                    assert(all_weights@.len() == 0);
                    assert(weights_view(all_weights@) =~= Seq::<Seq<int>>::empty());
                    assert(pair_round(weights_view(all_weights@))
                        =~= Seq::<Seq<int>>::empty());
                    assert(weights_view(new_weights@) + Seq::<Seq<int>>::empty()
                        =~= weights_view(new_weights@));
                    assert(pair_round(round_input) =~= weights_view(new_weights@));
                    assert(lens_total(Seq::<Seq<int>>::empty()) == 0);
                    assert(lens_total(weights_view(all_weights@)) == 0);
                }
            }
            proof {
                assert(round_count >= 2);
                assert(pair_reduce(round_input) == pair_reduce(pair_round(round_input)));
                lemma_pair_round_shrinks(round_input);
                assert(weights_view(new_weights@).len() == new_weights@.len());
                assert(pair_round(round_input).len() < round_count);
            }
            all_weights = new_weights;
        }
        let ghost last_list = all_weights@;
        let final_probs = all_weights.pop().unwrap();
        let ghost fp = pmf_of(final_probs@);
        proof {
            assert(last_list.len() == 1);
            let wv1 = weights_view(last_list);
            assert(wv1.len() == 1);
            assert(wv1[0] == fp);
            assert(pair_reduce(wv1) == wv1[0]);
            assert(fp == pair_reduce(ds0));
            assert(wv1.drop_last() =~= Seq::<Seq<int>>::empty());
            assert(lens_total(Seq::<Seq<int>>::empty()) == 0);
            assert(wv1.last() == fp);
            assert(lens_total(wv1) == fp.len());
            assert(fp.len() == target);
            assert(dist_total(fp) <= PROB_SCALE);
        }
        // realized sums, one per pre-drawn trial
        let ns = dist[0].num_samples();
        let mut samples: Vec<usize> = Vec::new();
        let mut j: usize = 0;
        while j < ns
            invariant
                j <= ns,
                nd == dist@.len(),
                dist@.len() >= 1,
                forall|d: int| 0 <= d < dist@.len() ==> (#[trigger] dist@[d]).wf(),
                forall|d: int| 0 <= d < dist@.len() ==>
                    (#[trigger] dist@[d]).samples@.len() == ns,
                lens_upto(dist@, dist@.len() as int) - (dist@.len() - 1) <= MAX_SUPPORT,
                samples@.len() == j,
                forall|q: int| 0 <= q < j ==> (#[trigger] samples@[q]) as int
                    == sum_sample_upto(dist@, q, dist@.len() as int),
                forall|q: int| 0 <= q < j ==> (#[trigger] samples@[q]) as int
                    <= lens_upto(dist@, dist@.len() as int) - dist@.len(),
            decreases ns - j,
        {
            let mut acc: usize = 0;
            let mut d_idx: usize = 0;
            while d_idx < nd
                invariant
                    d_idx <= nd,
                    nd == dist@.len(),
                    j < ns,
                    forall|d: int| 0 <= d < dist@.len() ==> (#[trigger] dist@[d]).wf(),
                    forall|d: int| 0 <= d < dist@.len() ==>
                        (#[trigger] dist@[d]).samples@.len() == ns,
                    lens_upto(dist@, dist@.len() as int) - (dist@.len() - 1) <= MAX_SUPPORT,
                    acc as int == sum_sample_upto(dist@, j as int, d_idx as int),
                    acc as int <= lens_upto(dist@, d_idx as int) - d_idx,
                decreases nd - d_idx,
            {
                proof {
                    lemma_lens_upto_mono(dist@, d_idx as int + 1, dist@.len() as int);
                    lemma_lens_upto_min_partial(dist@, d_idx as int + 1, dist@.len() as int);
                }
                let s = dist[d_idx].get_sample(j);
                acc = acc + s;
                d_idx += 1;
            }
            samples.push(acc);
            j += 1;
        }
        proof {
            assert(forall|q: int| 0 <= q < samples@.len() ==>
                (#[trigger] samples@[q]) as int <= target - 1);
        }
        Self::from_pmf(final_probs, samples)
    }
}

/// Sum of the point masses `P[X = i]` over `i < m`.
pub open spec fn equal_mass_upto(p: Seq<int>, m: int) -> int
    decreases m,
{
    if m <= 0 {
        0
    } else {
        equal_mass_upto(p, m - 1) + p_equal(p, m - 1)
    }
}

/// The point masses that `equal` reports sum to the distribution's total;
/// for a distribution built from validated weights that total is exactly
/// probability one.
pub proof fn lemma_equal_sums_to_total(p: Seq<int>, m: int)
    requires
        0 <= m <= p.len(),
    ensures
        equal_mass_upto(p, m) == mass_below(p, m),
    decreases m,
{
    if m > 0 {
        lemma_equal_sums_to_total(p, m - 1);
    }
}

proof fn lemma_max_mass_telescopes(rp: Seq<int>, ds: Seq<Seq<int>>, n: int, m: int)
    requires
        rp.len() == n,
        n >= 1,
        0 <= m <= n,
        forall|q: int| 0 <= q < n ==> #[trigger] rp[q]
            == max_cdf(ds, n, q + 1) - max_cdf(ds, n, q),
    ensures
        mass_below(rp, m) == max_cdf(ds, n, m) - max_cdf(ds, n, 0),
    decreases m,
{
    if m > 0 {
        lemma_max_mass_telescopes(rp, ds, n, m - 1);
    }
}

/// The CDF of the max reduction is the product of the input CDFs: for every
/// interior index the cumulative mass below `i + 1` equals the fixed-point
/// product of the per-input masses below `i + 1`, and at the top it is
/// probability one.
pub proof fn lemma_max_cdf_product(rp: Seq<int>, ds: Seq<Seq<int>>, n: int, i: int)
    requires
        ds.len() >= 1,
        rp.len() == n,
        n >= 1,
        0 <= i < n,
        forall|q: int| 0 <= q < n ==> #[trigger] rp[q]
            == max_cdf(ds, n, q + 1) - max_cdf(ds, n, q),
    ensures
        p_less(rp, i + 1) == max_cdf(ds, n, i + 1),
        i < n - 1 ==> p_less(rp, i + 1) == prod_less(ds, i + 1),
        i == n - 1 ==> p_less(rp, i + 1) == PROB_SCALE,
{
    lemma_prod_less_upto_zero(ds, ds.len() as int);
    assert(max_cdf(ds, n, 0) == 0);
    lemma_max_mass_telescopes(rp, ds, n, i + 1);
}

/// For exactly two inputs, the SUM reduction is one convolution: its mass at
/// `i` is the scaled sum of the products of the two point masses that split
/// `i`.
pub proof fn lemma_sum_mass_two(ds: Seq<Seq<int>>)
    requires
        ds.len() == 2,
    ensures
        pair_reduce(ds) == conv_pmf(ds[1], ds[0]),
        forall|i: int| 0 <= i < conv_pmf(ds[1], ds[0]).len() ==>
            #[trigger] pair_reduce(ds)[i] == conv_full(ds[1], ds[0], i) / (PROB_SCALE as int),
{
    let single = seq![conv_pmf(ds[1], ds[0])];
    assert(pair_round(ds) == single + pair_round(ds.take(0)));
    assert(ds.take(0) =~= Seq::<Seq<int>>::empty());
    assert(pair_round(Seq::<Seq<int>>::empty()) =~= Seq::<Seq<int>>::empty());
    assert(pair_round(ds) =~= single);
    assert(pair_reduce(ds) == pair_reduce(single));
    assert(pair_reduce(single) == single[0]);
}

/// Remaining supports keep the prefix total within the full total.
proof fn lemma_lens_upto_min_partial(dist: Seq<WeightedDistribution>, i: int, j: int)
    requires
        0 <= i <= j <= dist.len(),
        forall|d: int| 0 <= d < dist.len() ==> (#[trigger] dist[d]).probs@.len() >= 1,
    ensures
        lens_upto(dist, i) + (j - i) <= lens_upto(dist, j),
    decreases j - i,
{
    if i < j {
        lemma_lens_upto_min_partial(dist, i, j - 1);
    }
}

/// The fixed-point convolution of two probability vectors: mass at `i` is
/// `sum_j a[j] * b[i-j]`, scaled back down by one probability unit.
pub open spec fn conv_pmf(a: Seq<int>, b: Seq<int>) -> Seq<int> {
    Seq::new((a.len() + b.len() - 1) as nat, |i: int| conv_full(a, b, i) / (PROB_SCALE as int))
}

/// One pass of balanced pairing: repeatedly take the two rear vectors and
/// replace them by their convolution; a leftover front vector closes the
/// round.
pub open spec fn pair_round(ws: Seq<Seq<int>>) -> Seq<Seq<int>>
    decreases ws.len(),
{
    if ws.len() <= 1 {
        ws
    } else {
        seq![conv_pmf(ws[ws.len() - 1], ws[ws.len() - 2])]
            + pair_round(ws.take(ws.len() - 2))
    }
}

proof fn lemma_pair_round_shrinks(ws: Seq<Seq<int>>)
    requires
        ws.len() >= 2,
    ensures
        pair_round(ws).len() < ws.len(),
    decreases ws.len(),
{
    let rest = ws.take(ws.len() - 2);
    assert(rest.len() == ws.len() - 2);
    assert(pair_round(ws) == seq![conv_pmf(ws[ws.len() - 1], ws[ws.len() - 2])]
        + pair_round(rest));
    if rest.len() >= 2 {
        lemma_pair_round_shrinks(rest);
    } else {
        assert(pair_round(rest) == rest);
    }
}

/// Convolution rounds, repeated until a single vector remains.
pub open spec fn pair_reduce(ws: Seq<Seq<int>>) -> Seq<int>
    decreases ws.len(),
    via pair_reduce_decreases
{
    if ws.len() <= 1 {
        if ws.len() == 1 {
            ws[0]
        } else {
            Seq::empty()
        }
    } else {
        pair_reduce(pair_round(ws))
    }
}

#[via_fn]
proof fn pair_reduce_decreases(ws: Seq<Seq<int>>) {
    if ws.len() >= 2 {
        lemma_pair_round_shrinks(ws);
    }
}

/// Total length of a list of vectors.
pub open spec fn lens_total(ws: Seq<Seq<int>>) -> int
    decreases ws.len(),
{
    if ws.len() == 0 {
        0
    } else {
        lens_total(ws.drop_last()) + ws.last().len()
    }
}

/// Total support size of the first `k` distributions.
pub open spec fn lens_upto(dist: Seq<WeightedDistribution>, k: int) -> int
    decreases k,
{
    if k <= 0 {
        0
    } else {
        lens_upto(dist, k - 1) + dist[k - 1].probs@.len()
    }
}

/// The sum of the `j`-th pre-drawn samples of the first `k` distributions.
pub open spec fn sum_sample_upto(dist: Seq<WeightedDistribution>, j: int, k: int) -> int
    decreases k,
{
    if k <= 0 {
        0
    } else {
        sum_sample_upto(dist, j, k - 1) + dist[k - 1].samples@[j] as int
    }
}

/// A list of probability vectors, as their mathematical views.
pub open spec fn weights_view(ws: Seq<Vec<u64>>) -> Seq<Seq<int>> {
    ws.map_values(|v: Vec<u64>| pmf_of(v@))
}

/// The mapped support sizes of a prefix of distributions match the list-level
/// length total.
proof fn lemma_lens_upto_map(dist: Seq<WeightedDistribution>, k: int)
    requires
        0 <= k <= dist.len(),
    ensures
        lens_total(dist.map_values(|d: WeightedDistribution| d.pmf()).take(k))
            == lens_upto(dist, k),
    decreases k,
{
    let m = dist.map_values(|d: WeightedDistribution| d.pmf());
    if k == 0 {
        assert(m.take(0).len() == 0);
    } else {
        lemma_lens_upto_map(dist, k - 1);
        assert(m.take(k).drop_last() =~= m.take(k - 1));
        assert(m.take(k).last() == dist[k - 1].pmf());
        assert(dist[k - 1].pmf().len() == dist[k - 1].probs@.len());
    }
}

/// Prefix support-size totals grow with the cut-off.
proof fn lemma_lens_upto_mono(dist: Seq<WeightedDistribution>, i: int, j: int)
    requires
        0 <= i <= j <= dist.len(),
    ensures
        lens_upto(dist, i) <= lens_upto(dist, j),
    decreases j - i,
{
    if i < j {
        lemma_lens_upto_mono(dist, i, j - 1);
    }
}

/// With non-empty supports, the first `k` sizes total at least `k`.
proof fn lemma_lens_upto_min(dist: Seq<WeightedDistribution>, k: int)
    requires
        k <= dist.len(),
        forall|d: int| 0 <= d < dist.len() ==> (#[trigger] dist[d]).probs@.len() >= 1,
    ensures
        lens_upto(dist, k) >= k,
    decreases k,
{
    if k > 0 {
        lemma_lens_upto_min(dist, k - 1);
    }
}

proof fn lemma_lens_total_min(ws: Seq<Seq<int>>)
    requires
        forall|d: int| 0 <= d < ws.len() ==> (#[trigger] ws[d]).len() >= 1,
    ensures
        lens_total(ws) >= ws.len(),
    decreases ws.len(),
{
    if ws.len() > 0 {
        lemma_lens_total_min(ws.drop_last());
    }
}

/// One convolution step of the pairwise SUM reduction: the fixed-point mass
/// at `i` is the scaled-down sum of products `a[j] * b[i-j]`.
fn two_sum(a: &Vec<u64>, b: &Vec<u64>) -> (r: Vec<u64>)
    requires
        a@.len() >= 1,
        b@.len() >= 1,
        a@.len() + b@.len() - 1 <= MAX_SUPPORT,
        dist_total(pmf_of(a@)) <= PROB_SCALE,
        dist_total(pmf_of(b@)) <= PROB_SCALE,
    ensures
        r@.len() == a@.len() + b@.len() - 1,
        pmf_of(r@) == conv_pmf(pmf_of(a@), pmf_of(b@)),
        dist_total(pmf_of(r@)) <= PROB_SCALE,
{
    let ghost pa = pmf_of(a@);
    let ghost pb = pmf_of(b@);
    let ghost s = PROB_SCALE as int;
    proof {
        assert(nonneg(pa));
        assert(nonneg(pb));
    }
    let n = a.len() + b.len() - 1;
    let mut r: Vec<u64> = Vec::new();
    let mut i: usize = 0;
    while i < n
        invariant
            i <= n,
            n == pa.len() + pb.len() - 1,
            s == PROB_SCALE as int,
            pa == pmf_of(a@),
            pb == pmf_of(b@),
            nonneg(pa),
            nonneg(pb),
            pa.len() >= 1,
            pb.len() >= 1,
            dist_total(pa) <= PROB_SCALE,
            dist_total(pb) <= PROB_SCALE,
            r@.len() == i,
            forall|q: int| 0 <= q < i ==> (#[trigger] r@[q]) as int == conv_full(pa, pb, q) / s,
            mass_below(pmf_of(r@), i as int)
                <= conv_prefix(pa, pb, pa.len() as int, i as int) / s,
        decreases n - i,
    {
        let mut acc: u64 = 0;
        let mut jj: usize = 0;
        while jj < a.len()
            invariant
                jj <= pa.len(),
                s == PROB_SCALE as int,
                pa == pmf_of(a@),
                pb == pmf_of(b@),
                nonneg(pa),
                nonneg(pb),
                dist_total(pa) <= PROB_SCALE,
                dist_total(pb) <= PROB_SCALE,
                acc as int == conv_term(pa, pb, i as int, jj as int),
            decreases pa.len() - jj,
        {
            proof {
                lemma_conv_term_nonneg(pa, pb, i as int, jj as int);
                lemma_conv_term_bound(pa, pb, i as int, jj as int + 1);
                lemma_mass_below_nonneg(pa, jj as int + 1);
                lemma_mass_below_mono(pa, jj as int + 1, pa.len() as int);
                lemma_mass_below_nonneg(pb, pb.len() as int);
                assert(mass_below(pa, jj as int + 1) * dist_total(pb) <= s * s)
                    by (nonlinear_arith)
                    requires
                        0 <= mass_below(pa, jj as int + 1) <= s,
                        0 <= dist_total(pb) <= s,
                ;
                if jj <= i && i - jj < b.len() {
                    lemma_entry_le_total(pa, jj as int);
                    lemma_entry_le_total(pb, i as int - jj as int);
                    assert(pa[jj as int] * pb[i as int - jj as int] <= s * s)
                        by (nonlinear_arith)
                        requires
                            0 <= pa[jj as int] <= s,
                            0 <= pb[i as int - jj as int] <= s,
                    ;
                }
            }
            if jj <= i && i - jj < b.len() {
                acc = acc + a[jj] * b[i - jj];
            }
            jj += 1;
        }
        proof {
            lemma_conv_term_nonneg(pa, pb, i as int, pa.len() as int);
            lemma_conv_prefix_nonneg(pa, pb, pa.len() as int, i as int);
            lemma_div_sum_ge(
                conv_prefix(pa, pb, pa.len() as int, i as int),
                conv_full(pa, pb, i as int),
                s,
            );
            lemma_mass_prefix_push(r@, (acc / PROB_SCALE) as u64);
        }
        r.push(acc / PROB_SCALE);
        i += 1;
    }
    proof {
        lemma_conv_prefix_exchange(pa, pb, pa.len() as int, n as int);
        lemma_mass_below_nonneg(pa, pa.len() as int);
        lemma_mass_below_nonneg(pb, pb.len() as int);
        assert(dist_total(pa) * dist_total(pb) <= s * s) by (nonlinear_arith)
            requires
                0 <= dist_total(pa) <= s,
                0 <= dist_total(pb) <= s,
        ;
        assert(dist_total(pa) * dist_total(pb) >= 0) by (nonlinear_arith)
            requires 0 <= dist_total(pa), 0 <= dist_total(pb),
        ;
        vstd::arithmetic::div_mod::lemma_div_is_ordered(
            dist_total(pa) * dist_total(pb), s * s, s);
        vstd::arithmetic::div_mod::lemma_div_by_multiple(s, s);
        assert(pmf_of(r@) =~= conv_pmf(pa, pb));
    }
    r
}

/// Folding in a CDF at position zero annihilates the product.
proof fn lemma_prod_less_upto_zero(ds: Seq<Seq<int>>, k: int)
    requires
        1 <= k <= ds.len(),
    ensures
        prod_less_upto(ds, 0, k) == 0,
    decreases k,
{
    assert(p_less(ds[k - 1], 0) == 0);
    if k > 1 {
        lemma_prod_less_upto_zero(ds, k - 1);
    }
}

/// Pushing one more weight extends the prefix mass by exactly that weight.
proof fn lemma_mass_prefix_push(w: Seq<u64>, x: u64)
    ensures
        mass_below(pmf_of(w.push(x)), w.len() as int + 1)
            == mass_below(pmf_of(w), w.len() as int) + x,
{
    let a = pmf_of(w);
    let b = pmf_of(w.push(x));
    assert(b.len() == w.len() + 1);
    assert(b[w.len() as int] == x);
    lemma_mass_prefix_agree(a, b, w.len() as int);
}

/// Two vectors that agree below a cut have the same prefix mass there.
proof fn lemma_mass_prefix_agree(a: Seq<int>, b: Seq<int>, i: int)
    requires
        i <= a.len(),
        i <= b.len(),
        forall|q: int| 0 <= q < i ==> a[q] == #[trigger] b[q],
    ensures
        mass_below(a, i) == mass_below(b, i),
    decreases i,
{
    if i > 0 {
        lemma_mass_prefix_agree(a, b, i - 1);
    }
}

} // verus!
