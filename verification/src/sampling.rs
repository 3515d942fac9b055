//! Walker's alias method: constant-time weighted sampling from one row draw
//! and one coin draw, built once from a validated weight vector.

use vstd::prelude::*;

use crate::BprError;
use crate::distributions::{PROB_SCALE, MAX_SUPPORT, pmf_of, valid_probability_vector, check_weights};
use crate::random::rng_below;

verus! {

/// An alias table: each row holds an acceptance threshold and an alias row
/// that receives the rejected coin flips.
#[derive(Debug, Clone)]
pub struct AliasSampler {
    /// Fixed-point acceptance threshold of each row.
    pub accept: Vec<u64>,
    /// The row that takes over when the coin rejects.
    pub alias: Vec<usize>,
}

impl AliasSampler {
    /// Structural invariant: thresholds are probabilities, aliases are rows.
    pub open spec fn wf(&self) -> bool {
        &&& 1 <= self.accept@.len()
        &&& self.alias@.len() == self.accept@.len()
        &&& forall|i: int| 0 <= i < self.accept@.len() ==>
            (#[trigger] self.accept@[i]) <= PROB_SCALE
        &&& forall|i: int| 0 <= i < self.alias@.len() ==>
            (#[trigger] self.alias@[i]) < self.accept@.len()
    }

    /// The number of rows.
    pub fn size(&self) -> (r: usize)
        ensures
            r == self.accept@.len(),
    {
        self.accept.len()
    }

    /// Partitions the rows into light and heavy by their scaled weight,
    /// then repeatedly lets a heavy row donate mass to fill one light row,
    /// requeueing the heavy row's remainder; leftovers accept outright.
    pub fn build(weights: &Vec<u64>) -> (r: Result<AliasSampler, BprError>)
        ensures
            match r {
                Ok(t) => {
                    &&& valid_probability_vector(pmf_of(weights@))
                    &&& t.wf()
                    &&& t.accept@.len() == weights@.len()
                },
                Err(e) => {
                    &&& e == BprError::MalformedDistribution
                    &&& !valid_probability_vector(pmf_of(weights@))
                },
            },
    {
        if !check_weights(weights) {
            return Err(BprError::MalformedDistribution);
        }
        proof {
            let p = pmf_of(weights@);
            assert(crate::sums::nonneg(p));
            assert forall|q: int| 0 <= q < weights@.len() implies
                (#[trigger] weights@[q]) <= PROB_SCALE by {
                crate::sums::lemma_entry_le_total(p, q);
            }
        }
        let n = weights.len();
        let mut scaled: Vec<u64> = Vec::new();
        let mut i: usize = 0;
        while i < n
            invariant
                i <= n,
                n == weights@.len(),
                1 <= n <= MAX_SUPPORT,
                forall|q: int| 0 <= q < n ==> (#[trigger] weights@[q]) <= PROB_SCALE,
                scaled@.len() == i,
            decreases n - i,
        {
            proof {
                assert((weights@[i as int] as int) * (n as int)
                    <= (PROB_SCALE as int) * (MAX_SUPPORT as int)) by (nonlinear_arith)
                    requires
                        0 <= weights@[i as int] as int <= PROB_SCALE as int,
                        0 <= n as int <= MAX_SUPPORT as int,
                ;
            }
            scaled.push(weights[i] * (n as u64));
            i += 1;
        }
        let mut light: Vec<usize> = Vec::new();
        let mut heavy: Vec<usize> = Vec::new();
        let mut accept: Vec<u64> = Vec::new();
        let mut alias: Vec<usize> = Vec::new();
        let mut i: usize = 0;
        while i < n
            invariant
                i <= n,
                n == weights@.len(),
                scaled@.len() == n,
                accept@.len() == i,
                alias@.len() == i,
                forall|q: int| 0 <= q < i ==> (#[trigger] accept@[q]) == PROB_SCALE,
                forall|q: int| 0 <= q < i ==> (#[trigger] alias@[q]) == q,
                forall|q: int| 0 <= q < light@.len() ==> (#[trigger] light@[q]) < i,
                forall|q: int| 0 <= q < heavy@.len() ==> (#[trigger] heavy@[q]) < i,
                forall|q: int| 0 <= q < light@.len() ==>
                    scaled@[(#[trigger] light@[q]) as int] < PROB_SCALE,
                forall|q: int| 0 <= q < heavy@.len() ==>
                    scaled@[(#[trigger] heavy@[q]) as int] >= PROB_SCALE,
                forall|q1: int, q2: int| 0 <= q1 < q2 < light@.len() ==>
                    #[trigger] light@[q1] < #[trigger] light@[q2],
                forall|q1: int, q2: int| 0 <= q1 < q2 < heavy@.len() ==>
                    #[trigger] heavy@[q1] < #[trigger] heavy@[q2],
                forall|q1: int, q2: int|
                    0 <= q1 < light@.len() && 0 <= q2 < heavy@.len() ==>
                        #[trigger] light@[q1] != #[trigger] heavy@[q2],
            decreases n - i,
        {
            if scaled[i] < PROB_SCALE {
                light.push(i);
            } else {
                heavy.push(i);
            }
            accept.push(PROB_SCALE);
            alias.push(i);
            i += 1;
        }
        while light.len() > 0 && heavy.len() > 0
            invariant
                n == weights@.len(),
                n >= 1,
                scaled@.len() == n,
                accept@.len() == n,
                alias@.len() == n,
                forall|q: int| 0 <= q < n ==> (#[trigger] accept@[q]) <= PROB_SCALE,
                forall|q: int| 0 <= q < n ==> (#[trigger] alias@[q]) < n,
                forall|q: int| 0 <= q < light@.len() ==> (#[trigger] light@[q]) < n,
                forall|q: int| 0 <= q < heavy@.len() ==> (#[trigger] heavy@[q]) < n,
                forall|q: int| 0 <= q < light@.len() ==>
                    scaled@[(#[trigger] light@[q]) as int] < PROB_SCALE,
                forall|q: int| 0 <= q < heavy@.len() ==>
                    scaled@[(#[trigger] heavy@[q]) as int] >= PROB_SCALE,
                forall|q1: int, q2: int| 0 <= q1 < light@.len() && 0 <= q2 < light@.len()
                    && q1 != q2 ==> #[trigger] light@[q1] != #[trigger] light@[q2],
                forall|q1: int, q2: int| 0 <= q1 < heavy@.len() && 0 <= q2 < heavy@.len()
                    && q1 != q2 ==> #[trigger] heavy@[q1] != #[trigger] heavy@[q2],
                forall|q1: int, q2: int|
                    0 <= q1 < light@.len() && 0 <= q2 < heavy@.len() ==>
                        #[trigger] light@[q1] != #[trigger] heavy@[q2],
            decreases light@.len() + heavy@.len(),
        {
            let l = light.pop().unwrap();
            let h = heavy.pop().unwrap();
            let donated = PROB_SCALE - scaled[l];
            accept.set(l, scaled[l]);
            alias.set(l, h);
            let rem = scaled[h] - donated;
            scaled.set(h, rem);
            if rem < PROB_SCALE {
                light.push(h);
            } else {
                heavy.push(h);
            }
        }
        Ok(AliasSampler { accept, alias })
    }

    /// One sample from a uniform row draw and a uniform fixed-point coin:
    /// the row itself if the coin accepts, else its alias.
    pub fn sample_with(&self, row: usize, coin: u64) -> (r: usize)
        requires
            self.wf(),
            row < self.accept@.len(),
        ensures
            r < self.accept@.len(),
            r == if coin < self.accept@[row as int] {
                row as int
            } else {
                self.alias@[row as int] as int
            },
    {
        if coin < self.accept[row] {
            row
        } else {
            self.alias[row]
        }
    }

    /// One sample from a generator: one row word and one coin word.
    pub fn sample(&self, rng: &mut rand::rngs::StdRng) -> (r: usize)
        requires
            self.wf(),
        ensures
            r < self.accept@.len(),
    {
        let row = rng_below(rng, self.accept.len() as u64) as usize;
        let coin = rng_below(rng, PROB_SCALE);
        self.sample_with(row, coin)
    }

    /// A pre-drawn stream of samples, so that a trial index always denotes
    /// the same realization.
    pub fn pre_draw(&self, rng: &mut rand::rngs::StdRng, count: usize) -> (r: Vec<usize>)
        requires
            self.wf(),
        ensures
            r@.len() == count,
            forall|j: int| 0 <= j < count ==> (#[trigger] r@[j]) < self.accept@.len(),
    {
        let mut r: Vec<usize> = Vec::new();
        let mut j: usize = 0;
        while j < count
            invariant
                j <= count,
                self.wf(),
                r@.len() == j,
                forall|q: int| 0 <= q < j ==> (#[trigger] r@[q]) < self.accept@.len(),
            decreases count - j,
        {
            r.push(self.sample(rng));
            j += 1;
        }
        r
    }
}

} // verus!
