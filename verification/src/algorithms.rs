//! The probing policies: the non-adaptive expectation ranking and the
//! adaptive myopic policies for probe-max and coverage scoring.

use vstd::prelude::*;

use crate::distributions::WeightedDistribution;
use crate::sums::{dist_expectation, mass_below};
use crate::ranking::{
    sort_pairs_by_rank, sort_desc_usize, rank_leq, top_sum, lemma_sort_desc_ensures,
    lemma_map_preserves_multiset, lth_largest,
};
use crate::model::{
    ProbeMax, ProbeMaxInstance, BipartiteRegulatorProbing, Instance, MODEL_LIMIT,
    ranked_by_expectation, identity_seq, find_policy,
};
use crate::helper::as_ints;
use crate::time::{instant_now, instant_elapsed, duration_nanos};
use vstd::seq_lib::{to_multiset_contains, to_multiset_len};

verus! {

broadcast use vstd::multiset::group_multiset_axioms;

impl ProbeMax {
    /// The canonical non-adaptive ranking: every box, ordered by weakly
    /// descending expected value with ties toward the smaller index, and
    /// the nanoseconds the ranking took.
    pub fn compute_namp_policy(boxes: &Vec<WeightedDistribution>) -> (r: (Vec<usize>, u64))
        requires
            1 <= boxes@.len() <= MODEL_LIMIT,
            forall|a: int| 0 <= a < boxes@.len() ==> (#[trigger] boxes@[a]).wf(),
        ensures
            ranked_by_expectation(boxes@, r.0@),
    {
        let timer = instant_now();
        let n = boxes.len();
        let mut pairs: Vec<(usize, u64)> = Vec::new();
        let mut i: usize = 0;
        while i < n
            invariant
                i <= n,
                n == boxes@.len(),
                forall|a: int| 0 <= a < boxes@.len() ==> (#[trigger] boxes@[a]).wf(),
                pairs@.len() == i,
                forall|q: int| 0 <= q < i ==> (#[trigger] pairs@[q]).0 == q,
                forall|q: int| 0 <= q < i ==> (#[trigger] pairs@[q]).1 as int
                    == dist_expectation(boxes@[q].pmf()),
            decreases n - i,
        {
            pairs.push((i, boxes[i].expected_value()));
            i += 1;
        }
        let sorted = sort_pairs_by_rank(&pairs);
        let mut policy: Vec<usize> = Vec::new();
        let mut q: usize = 0;
        while q < sorted.len()
            invariant
                q <= sorted@.len(),
                policy@.len() == q,
                forall|t: int| 0 <= t < q ==> (#[trigger] policy@[t]) == sorted@[t].0,
            decreases sorted@.len() - q,
        {
            policy.push(sorted[q].0);
            q += 1;
        }
        proof {
            // every sorted pair is one of the original (index, expectation) pairs
            assert forall|t: int| 0 <= t < sorted@.len() implies {
                &&& (#[trigger] sorted@[t]).0 < n
                &&& sorted@[t].1 as int == dist_expectation(boxes@[sorted@[t].0 as int].pmf())
            } by {
                assert(sorted@.contains(sorted@[t]));
                to_multiset_contains(sorted@, sorted@[t]);
                to_multiset_contains(pairs@, sorted@[t]);
                assert(pairs@.contains(sorted@[t]));
                let u = choose|u: int| 0 <= u < pairs@.len() && pairs@[u] == sorted@[t];
                assert(pairs@[u].0 == u);
            }
            // the picked indices are a permutation of all indices
            lemma_map_preserves_multiset(sorted@, pairs@, |pr: (usize, u64)| pr.0);
            assert(policy@ =~= sorted@.map_values(|pr: (usize, u64)| pr.0));
            assert(pairs@.map_values(|pr: (usize, u64)| pr.0) =~= identity_seq(n as int));
            // the ranking order carries over from the pair order
            assert forall|a: int, b: int| 0 <= a < b < policy@.len() implies {
                let ea = dist_expectation(boxes@[#[trigger] policy@[a] as int].pmf());
                let eb = dist_expectation(boxes@[#[trigger] policy@[b] as int].pmf());
                ea > eb || (ea == eb && policy@[a] <= policy@[b])
            } by {
                assert(rank_leq(sorted@[a], sorted@[b]));
            }
        }
        (policy, duration_nanos(&instant_elapsed(&timer)))
    }
}

/// The indices a probe list has already taken.
pub open spec fn probed_set(picks: Seq<usize>) -> Set<int> {
    Set::new(|i: int| exists|q: int| 0 <= q < picks.len() && picks[q] == i)
}

/// The argmax the adaptive myopic policy scans for: the available box with
/// the largest expected value above the water-mark, a later box winning
/// ties; `(0, -1)` when none is available.
pub open spec fn amp_argmax(
    boxes: Seq<WeightedDistribution>,
    avail: Set<int>,
    lval: int,
    k: int,
) -> (int, int)
    decreases k,
{
    if k <= 0 {
        (0, -1)
    } else {
        let prev = amp_argmax(boxes, avail, lval, k - 1);
        if avail.contains(k - 1) && (prev.1 == -1
            || crate::distributions::e_greater(boxes[k - 1].pmf(), lval) >= prev.0) {
            (crate::distributions::e_greater(boxes[k - 1].pmf(), lval), k - 1)
        } else {
            prev
        }
    }
}

/// The adaptive myopic probing state after `t` extra probes: the boxes
/// still unprobed and the realized values taken so far, in probe order.
pub open spec fn amp_state(
    boxes: Seq<WeightedDistribution>,
    reals: Seq<int>,
    avail0: Set<int>,
    taken0: Seq<int>,
    l: int,
    t: int,
) -> (Set<int>, Seq<int>)
    decreases t,
{
    if t <= 0 {
        (avail0, taken0)
    } else {
        let s = amp_state(boxes, reals, avail0, taken0, l, t - 1);
        let lval = lth_largest(s.1, l);
        let pick = amp_argmax(boxes, s.0, lval, boxes.len() as int);
        if pick.1 == -1 {
            s
        } else {
            (s.0.remove(pick.1), s.1.push(reals[pick.1]))
        }
    }
}

/// What the myopic scan returns: a pick is available, in range, and scores
/// itself; and some pick is made whenever a box is available.
pub proof fn lemma_amp_argmax_found(
    boxes: Seq<WeightedDistribution>,
    avail: Set<int>,
    lval: int,
    k: int,
)
    requires
        k >= 0,
    ensures
        amp_argmax(boxes, avail, lval, k).1 != -1 ==> {
            let pick = amp_argmax(boxes, avail, lval, k);
            &&& 0 <= pick.1 < k
            &&& avail.contains(pick.1)
            &&& pick.0 == crate::distributions::e_greater(boxes[pick.1].pmf(), lval)
        },
        (exists|a: int| 0 <= a < k && avail.contains(a)) ==> amp_argmax(
            boxes, avail, lval, k).1 != -1,
    decreases k,
{
    if k > 0 {
        lemma_amp_argmax_found(boxes, avail, lval, k - 1);
        if exists|a: int| 0 <= a < k && avail.contains(a) {
            let a0 = choose|a: int| 0 <= a < k && avail.contains(a);
            if a0 < k - 1 {
                assert(exists|a: int| 0 <= a < k - 1 && avail.contains(a));
            }
        }
    }
}

/// Through every myopic round the unprobed set stays a finite subset of the
/// box range and shrinks by exactly one box per round.
pub proof fn lemma_amp_avail_card(
    boxes: Seq<WeightedDistribution>,
    reals: Seq<int>,
    avail0: Set<int>,
    taken0: Seq<int>,
    l: int,
    t: int,
)
    requires
        0 <= t,
        avail0.finite(),
        t <= avail0.len(),
        forall|a: int| avail0.contains(a) ==> 0 <= a < boxes.len(),
    ensures
        amp_state(boxes, reals, avail0, taken0, l, t).0.finite(),
        amp_state(boxes, reals, avail0, taken0, l, t).0.len() == avail0.len() - t,
        forall|a: int| amp_state(boxes, reals, avail0, taken0, l, t).0.contains(a)
            ==> 0 <= a < boxes.len(),
        amp_state(boxes, reals, avail0, taken0, l, t).1.len() == taken0.len() + t,
    decreases t,
{
    if t > 0 {
        lemma_amp_avail_card(boxes, reals, avail0, taken0, l, t - 1);
        let s = amp_state(boxes, reals, avail0, taken0, l, t - 1);
        let lval = lth_largest(s.1, l);
        lemma_amp_argmax_found(boxes, s.0, lval, boxes.len() as int);
        assert(s.0.len() > 0);
        assert(s.0.contains(s.0.choose()));
        assert(exists|a: int| 0 <= a < boxes.len() && s.0.contains(a));
        let pick = amp_argmax(boxes, s.0, lval, boxes.len() as int);
        assert(pick.1 != -1);
        assert(s.0.remove(pick.1).len() == s.0.len() - 1);
    }
}

/// A list of distinct indices below `n` covers as many set members as it
/// has entries.
pub proof fn lemma_probed_set_card(picks: Seq<usize>, m: int)
    requires
        0 <= m <= picks.len(),
        forall|q1: int, q2: int| 0 <= q1 < q2 < picks.len() ==>
            (#[trigger] picks[q1]) != (#[trigger] picks[q2]),
    ensures
        probed_set(picks.take(m)).finite(),
        probed_set(picks.take(m)).len() == m,
    decreases m,
{
    if m == 0 {
        assert(probed_set(picks.take(0)) =~= Set::<int>::empty());
    } else {
        lemma_probed_set_card(picks, m - 1);
        let prev = probed_set(picks.take(m - 1));
        let cur = probed_set(picks.take(m));
        assert(cur =~= prev.insert(picks[m - 1] as int)) by {
            assert forall|i: int| cur.contains(i) implies
                prev.insert(picks[m - 1] as int).contains(i) by {
                let q = choose|q: int| 0 <= q < picks.take(m).len()
                    && (#[trigger] picks.take(m)[q]) == i;
                if q < m - 1 {
                    assert(picks.take(m - 1)[q] == i);
                }
            }
            assert forall|i: int| prev.insert(picks[m - 1] as int).contains(i) implies
                cur.contains(i) by {
                if prev.contains(i) {
                    let q = choose|q: int| 0 <= q < picks.take(m - 1).len()
                        && (#[trigger] picks.take(m - 1)[q]) == i;
                    assert(picks.take(m)[q] == i);
                } else {
                    assert(picks.take(m)[m - 1] == i);
                }
            }
        }
        assert(!prev.contains(picks[m - 1] as int)) by {
            if prev.contains(picks[m - 1] as int) {
                let q = choose|q: int| 0 <= q < picks.take(m - 1).len()
                    && (#[trigger] picks.take(m - 1)[q]) == picks[m - 1] as int;
                assert(picks[q] == picks[m - 1]);
            }
        }
    }
}

/// A permutation's entries are pairwise distinct.
pub proof fn lemma_ranking_distinct(boxes: Seq<WeightedDistribution>, p: Seq<usize>)
    requires
        ranked_by_expectation(boxes, p),
        boxes.len() <= usize::MAX,
    ensures
        forall|q1: int, q2: int| 0 <= q1 < q2 < p.len() ==>
            (#[trigger] p[q1]) != (#[trigger] p[q2]),
{
    assert forall|q1: int, q2: int| 0 <= q1 < q2 < p.len() implies
        (#[trigger] p[q1]) != (#[trigger] p[q2]) by {
        if p[q1] == p[q2] {
            crate::ranking::lemma_dup_count(p, q1, q2);
            let idm = identity_seq(boxes.len() as int);
            assert forall|t1: int, t2: int| 0 <= t1 < t2 < idm.len() implies
                idm[t1] != idm[t2] by {
                assert(idm[t1] == t1 as usize);
                assert(idm[t2] == t2 as usize);
            }
            crate::ranking::lemma_distinct_seq_count(idm, p[q1]);
        }
    }
}

impl ProbeMaxInstance {
    /// The adaptive myopic policy: probe the `l` top-ranked boxes, then for
    /// each remaining probe the unprobed box with the largest expected
    /// value above the running water-mark; score the `l` largest realized
    /// values. Reports the ranking's one-time cost plus this run's own.
    pub fn adaptive_policy(&self, pm: &ProbeMax, k: usize, l: usize) -> (r: (usize, u64))
        requires
            self.wf(),
            pm.wf(),
            self.n == pm.n,
            self.v == pm.v,
            1 <= l <= k,
            k <= self.n,
        ensures
            k == l ==> r.0 as int == mass_below(
                as_ints(pm.non_adaptive_policy.0@.take(l as int).map_values(
                    |i: usize| self.realizations@[i as int])),
                l as int,
            ),
            k > l ==> r.0 as int == top_sum(
                amp_state(
                    pm.boxes@,
                    as_ints(self.realizations@),
                    Set::new(|i: int| 0 <= i < self.n
                        && !probed_set(pm.non_adaptive_policy.0@.take(l as int)).contains(i)),
                    as_ints(pm.non_adaptive_policy.0@.take(l as int).map_values(
                        |i: usize| self.realizations@[i as int])),
                    l as int,
                    k as int - l as int,
                ).1,
                l as int,
            ),
    {
        let timer = instant_now();
        let n = pm.get_n();
        let ghost picks = pm.non_adaptive_policy.0@.take(l as int);
        let ghost reals = as_ints(self.realizations@);
        let mut probed_vals: Vec<usize> = Vec::new();
        let mut avail = crate::bits::bitset_new_all_set(n);
        let mut q: usize = 0;
        while q < l
            invariant
                q <= l,
                l <= k <= n,
                n == pm.n,
                self.wf(),
                pm.wf(),
                self.n == pm.n,
                self.v == pm.v,
                picks == pm.non_adaptive_policy.0@.take(l as int),
                probed_vals@.len() == q,
                forall|t: int| 0 <= t < q ==> (#[trigger] probed_vals@[t])
                    == self.realizations@[pm.non_adaptive_policy.0@[t] as int],
                forall|t: int| 0 <= t < q ==> (#[trigger] probed_vals@[t]) < self.v,
                crate::bits::bitset_size(avail) == n,
                crate::bits::bitset_contents(avail) == Set::new(|i: int| 0 <= i < n
                    && !probed_set(pm.non_adaptive_policy.0@.take(q as int)).contains(i)),
            decreases l - q,
        {
            let idx = pm.get_policy()[q];
            proof {
                assert(pm.non_adaptive_policy.0@[q as int] < pm.n);
            }
            probed_vals.push(self.realizations[idx]);
            let ghost before = crate::bits::bitset_contents(avail);
            let _ = crate::bits::bitset_unset_bit(&mut avail, idx);
            proof {
                assert(crate::bits::bitset_contents(avail) =~= Set::new(|i: int| 0 <= i < n
                    && !probed_set(pm.non_adaptive_policy.0@.take(q as int + 1)).contains(i)))
                    by {
                    assert forall|i: int| #[trigger] probed_set(
                        pm.non_adaptive_policy.0@.take(q as int + 1)).contains(i)
                        <==> probed_set(pm.non_adaptive_policy.0@.take(q as int)).contains(i)
                            || i == idx as int by {
                        let pk1 = pm.non_adaptive_policy.0@.take(q as int + 1);
                        let pk0 = pm.non_adaptive_policy.0@.take(q as int);
                        if probed_set(pk1).contains(i) {
                            let t = choose|t: int| 0 <= t < pk1.len()
                                && (#[trigger] pk1[t]) == i;
                            if t < q {
                                assert(pk0[t] == i);
                            }
                        }
                        if probed_set(pk0).contains(i) {
                            let t = choose|t: int| 0 <= t < pk0.len()
                                && (#[trigger] pk0[t]) == i;
                            assert(pk1[t] == i);
                        }
                        if i == idx as int {
                            assert(pk1[q as int] == i);
                        }
                    }
                }
            }
            q += 1;
        }
        proof {
            assert(as_ints(probed_vals@) =~= as_ints(picks.map_values(
                |i: usize| self.realizations@[i as int])));
        }
        if k == l {
            let mut value: usize = 0;
            let mut t: usize = 0;
            while t < l
                invariant
                    t <= l,
                    l <= probed_vals@.len(),
                    probed_vals@.len() <= MODEL_LIMIT,
                    1 <= self.v <= MODEL_LIMIT * MODEL_LIMIT,
                    forall|u: int| 0 <= u < probed_vals@.len() ==>
                        (#[trigger] probed_vals@[u]) < self.v,
                    value as int == mass_below(as_ints(probed_vals@), t as int),
                    value as int <= t * (self.v - 1),
                decreases l - t,
            {
                proof {
                    assert((t + 1) * (self.v - 1) == t * (self.v - 1) + (self.v - 1))
                        by (nonlinear_arith);
                    assert((t + 1) * (self.v - 1) <= MODEL_LIMIT * (MODEL_LIMIT * MODEL_LIMIT))
                        by (nonlinear_arith)
                        requires t + 1 <= MODEL_LIMIT, 1 <= self.v <= MODEL_LIMIT * MODEL_LIMIT,
                    ;
                }
                value = value + probed_vals[t];
                t += 1;
            }
            let elapsed = duration_nanos(&instant_elapsed(&timer));
            let base = pm.get_policy_time();
            let total_time = if base <= u64::MAX - elapsed {
                base + elapsed
            } else {
                u64::MAX
            };
            return (value, total_time);
        }
        let ghost avail0 = crate::bits::bitset_contents(avail);
        let ghost taken0 = as_ints(probed_vals@);
        proof {
            lemma_ranking_distinct(pm.boxes@, pm.non_adaptive_policy.0@);
            lemma_probed_set_card(pm.non_adaptive_policy.0@, l as int);
            crate::model::lemma_int_range_set(n as int);
            let rng = Set::new(|i: int| 0 <= i < n);
            assert(avail0 =~= rng.difference(probed_set(picks)));
            vstd::set_lib::lemma_len_union(rng.difference(probed_set(picks)),
                probed_set(picks));
            assert(rng.subset_of(rng.difference(probed_set(picks)).union(probed_set(picks))));
            vstd::set_lib::lemma_len_subset(rng,
                rng.difference(probed_set(picks)).union(probed_set(picks)));
            vstd::set_lib::lemma_len_subset(rng.difference(probed_set(picks)), rng);
            assert(rng.difference(probed_set(picks)).subset_of(rng));
        }
        let mut t: usize = 0;
        while t < k - l
            invariant
                t <= k - l,
                1 <= l <= k,
                k <= n,
                n == pm.n,
                self.wf(),
                pm.wf(),
                self.n == pm.n,
                self.v == pm.v,
                reals == as_ints(self.realizations@),
                crate::bits::bitset_size(avail) == n,
                avail0.finite(),
                avail0.len() >= n - l,
                n - l >= k - l,
                forall|i: int| avail0.contains(i) ==> 0 <= i < n,
                (crate::bits::bitset_contents(avail), as_ints(probed_vals@))
                    == amp_state(pm.boxes@, reals, avail0, taken0, l as int, t as int),
                probed_vals@.len() == l + t,
                forall|u: int| 0 <= u < probed_vals@.len() ==>
                    (#[trigger] probed_vals@[u]) < self.v,
            decreases k - l - t,
        {
            let sorted = sort_desc_usize(&probed_vals);
            let lval = sorted[l - 1];
            proof {
                lemma_sort_desc_ensures(as_ints(probed_vals@));
                assert(as_ints(sorted@)[l as int - 1] == sorted@[l as int - 1] as int);
                assert(lval as int == lth_largest(as_ints(probed_vals@), l as int));
            }
            let ghost cur_avail = crate::bits::bitset_contents(avail);
            let mut best_score: u64 = 0;
            let mut best_a: usize = 0;
            let mut found = false;
            let mut a: usize = 0;
            while a < n
                invariant
                    a <= n,
                    n == pm.n,
                    pm.wf(),
                    crate::bits::bitset_size(avail) == n,
                    cur_avail == crate::bits::bitset_contents(avail),
                    if found {
                        amp_argmax(pm.boxes@, cur_avail, lval as int, a as int)
                            == (best_score as int, best_a as int)
                    } else {
                        amp_argmax(pm.boxes@, cur_avail, lval as int, a as int) == (0int, -1int)
                    },
                    best_a < n || !found,
                decreases n - a,
            {
                if crate::bits::bitset_at(&avail, a) {
                    let sc = pm.get_box(a).expected_greater(lval);
                    if !found || sc >= best_score {
                        best_score = sc;
                        best_a = a;
                        found = true;
                    }
                }
                a += 1;
            }
            proof {
                lemma_amp_avail_card(pm.boxes@, reals, avail0, taken0, l as int, t as int);
                assert(cur_avail.len() == avail0.len() - t > 0);
                assert(cur_avail.contains(cur_avail.choose()));
                assert(exists|i: int| 0 <= i < n && cur_avail.contains(i));
                lemma_amp_argmax_found(pm.boxes@, cur_avail, lval as int, n as int);
                assert(found);
            }
            probed_vals.push(self.realizations[best_a]);
            let _ = crate::bits::bitset_unset_bit(&mut avail, best_a);
            proof {
                assert(as_ints(probed_vals@) =~= amp_state(pm.boxes@, reals, avail0, taken0,
                    l as int, t as int + 1).1);
            }
            t += 1;
        }
        let sorted = sort_desc_usize(&probed_vals);
        proof {
            lemma_sort_desc_ensures(as_ints(probed_vals@));
            assert forall|u: int| 0 <= u < sorted@.len() implies
                (#[trigger] sorted@[u]) < self.v by {
                crate::model::lemma_sorted_entry_bounded(as_ints(probed_vals@),
                    as_ints(sorted@), u, self.v as int);
            }
        }
        let mut value: usize = 0;
        let mut u: usize = 0;
        while u < l
            invariant
                u <= l,
                l <= MODEL_LIMIT,
                l <= sorted@.len(),
                sorted@.len() <= 2 * MODEL_LIMIT,
                1 <= self.v <= MODEL_LIMIT * MODEL_LIMIT,
                forall|w: int| 0 <= w < sorted@.len() ==> (#[trigger] sorted@[w]) < self.v,
                value as int == mass_below(as_ints(sorted@), u as int),
                value as int <= u * (self.v - 1),
            decreases l - u,
        {
            proof {
                assert((u + 1) * (self.v - 1) == u * (self.v - 1) + (self.v - 1))
                    by (nonlinear_arith);
                assert((u + 1) * (self.v - 1) <= MODEL_LIMIT * (MODEL_LIMIT * MODEL_LIMIT))
                    by (nonlinear_arith)
                    requires u + 1 <= MODEL_LIMIT, 1 <= self.v <= MODEL_LIMIT * MODEL_LIMIT,
                ;
            }
            value = value + sorted[u];
            u += 1;
        }
        let elapsed = duration_nanos(&instant_elapsed(&timer));
        let base = pm.get_policy_time();
        let total_time = if base <= u64::MAX - elapsed {
            base + elapsed
        } else {
            u64::MAX
        };
        (value, total_time)
    }
}

impl BipartiteRegulatorProbing {
    /// The expectation of edge `(a, b)`.
    pub open spec fn edge_exp(self, a: int, b: int) -> int {
        dist_expectation(self.edges@[a]@[b].pmf())
    }

    /// The largest expectation among the first `m` probed regulators'
    /// edges at position `b`, zero with none probed.
    pub open spec fn exp_water(self, probed: Seq<usize>, b: int, m: int) -> int
        decreases m,
    {
        if m <= 0 {
            0
        } else {
            let p = self.exp_water(probed, b, m - 1);
            let e = self.edge_exp(probed[m - 1] as int, b);
            if e > p {
                e
            } else {
                p
            }
        }
    }

    /// A regulator's score while filling the first `l` probes: the expected
    /// mass of its edges above the per-position expectation water-marks
    /// (compared at whole reward units).
    pub open spec fn cov_fill_score(self, pv: Seq<int>, a: int, m: int) -> int
        decreases m,
    {
        if m <= 0 {
            0
        } else {
            self.cov_fill_score(pv, a, m - 1) + crate::distributions::e_greater(
                self.edges@[a]@[m - 1].pmf(),
                pv[m - 1] / (crate::distributions::PROB_SCALE as int),
            )
        }
    }

    /// A regulator's score in the padding phase: its total edge expectation.
    pub open spec fn cov_pad_score(self, a: int, m: int) -> int
        decreases m,
    {
        if m <= 0 {
            0
        } else {
            self.cov_pad_score(a, m - 1) + self.edge_exp(a, m - 1)
        }
    }

    /// The scanning argmax by fill score, a later regulator winning ties.
    pub open spec fn cov_fill_argmax(self, pv: Seq<int>, avail: Set<int>, k: int) -> (int, int)
        decreases k,
    {
        if k <= 0 {
            (0, -1)
        } else {
            let prev = self.cov_fill_argmax(pv, avail, k - 1);
            if avail.contains(k - 1) && (prev.1 == -1
                || self.cov_fill_score(pv, k - 1, self.nb as int) >= prev.0) {
                (self.cov_fill_score(pv, k - 1, self.nb as int), k - 1)
            } else {
                prev
            }
        }
    }

    /// The scanning argmax by padding score, a later regulator winning ties.
    pub open spec fn cov_pad_argmax(self, avail: Set<int>, k: int) -> (int, int)
        decreases k,
    {
        if k <= 0 {
            (0, -1)
        } else {
            let prev = self.cov_pad_argmax(avail, k - 1);
            if avail.contains(k - 1) && (prev.1 == -1
                || self.cov_pad_score(k - 1, self.nb as int) >= prev.0) {
                (self.cov_pad_score(k - 1, self.nb as int), k - 1)
            } else {
                prev
            }
        }
    }

    /// The per-position expectation water-marks after folding in one
    /// regulator.
    pub open spec fn exp_update(self, pv: Seq<int>, a: int) -> Seq<int> {
        Seq::new(pv.len(), |b: int| if self.edge_exp(a, b) > pv[b] {
            self.edge_exp(a, b)
        } else {
            pv[b]
        })
    }

    /// The filling phase after `t` rounds: probed regulators, the still
    /// unprobed set, and the expectation water-marks.
    pub open spec fn cov_fill_state(
        self,
        probed0: Seq<usize>,
        avail0: Set<int>,
        pv0: Seq<int>,
        t: int,
    ) -> (Seq<usize>, Set<int>, Seq<int>)
        decreases t,
    {
        if t <= 0 {
            (probed0, avail0, pv0)
        } else {
            let s = self.cov_fill_state(probed0, avail0, pv0, t - 1);
            let pick = self.cov_fill_argmax(s.2, s.1, self.na as int);
            if pick.1 == -1 {
                s
            } else {
                (s.0.push(pick.1 as usize), s.1.remove(pick.1), self.exp_update(s.2, pick.1))
            }
        }
    }

    /// The padding phase after `t` rounds: probed regulators and the still
    /// unprobed set.
    pub open spec fn cov_pad_state(
        self,
        probed1: Seq<usize>,
        avail1: Set<int>,
        t: int,
    ) -> (Seq<usize>, Set<int>)
        decreases t,
    {
        if t <= 0 {
            (probed1, avail1)
        } else {
            let s = self.cov_pad_state(probed1, avail1, t - 1);
            let pick = self.cov_pad_argmax(s.1, self.na as int);
            if pick.1 == -1 {
                s
            } else {
                (s.0.push(pick.1 as usize), s.1.remove(pick.1))
            }
        }
    }
}

proof fn lemma_cov_fill_argmax_found(bpr: BipartiteRegulatorProbing, pv: Seq<int>, avail: Set<
    int,
>, k: int)
    requires
        k >= 0,
    ensures
        bpr.cov_fill_argmax(pv, avail, k).1 != -1 ==> {
            let pick = bpr.cov_fill_argmax(pv, avail, k);
            &&& 0 <= pick.1 < k
            &&& avail.contains(pick.1)
            &&& pick.0 == bpr.cov_fill_score(pv, pick.1, bpr.nb as int)
        },
        (exists|a: int| 0 <= a < k && avail.contains(a)) ==> bpr.cov_fill_argmax(
            pv, avail, k).1 != -1,
    decreases k,
{
    if k > 0 {
        lemma_cov_fill_argmax_found(bpr, pv, avail, k - 1);
        if exists|a: int| 0 <= a < k && avail.contains(a) {
            let a0 = choose|a: int| 0 <= a < k && avail.contains(a);
            if a0 < k - 1 {
                assert(exists|a: int| 0 <= a < k - 1 && avail.contains(a));
            }
        }
    }
}

proof fn lemma_cov_pad_argmax_found(bpr: BipartiteRegulatorProbing, avail: Set<int>, k: int)
    requires
        k >= 0,
    ensures
        bpr.cov_pad_argmax(avail, k).1 != -1 ==> {
            let pick = bpr.cov_pad_argmax(avail, k);
            &&& 0 <= pick.1 < k
            &&& avail.contains(pick.1)
            &&& pick.0 == bpr.cov_pad_score(pick.1, bpr.nb as int)
        },
        (exists|a: int| 0 <= a < k && avail.contains(a)) ==> bpr.cov_pad_argmax(
            avail, k).1 != -1,
    decreases k,
{
    if k > 0 {
        lemma_cov_pad_argmax_found(bpr, avail, k - 1);
        if exists|a: int| 0 <= a < k && avail.contains(a) {
            let a0 = choose|a: int| 0 <= a < k && avail.contains(a);
            if a0 < k - 1 {
                assert(exists|a: int| 0 <= a < k - 1 && avail.contains(a));
            }
        }
    }
}

proof fn lemma_cov_fill_card(
    bpr: BipartiteRegulatorProbing,
    probed0: Seq<usize>,
    avail0: Set<int>,
    pv0: Seq<int>,
    t: int,
)
    requires
        0 <= t <= avail0.len(),
        avail0.finite(),
        forall|a: int| avail0.contains(a) ==> 0 <= a < bpr.na,
    ensures
        bpr.cov_fill_state(probed0, avail0, pv0, t).1.finite(),
        bpr.cov_fill_state(probed0, avail0, pv0, t).1.len() == avail0.len() - t,
        forall|a: int| bpr.cov_fill_state(probed0, avail0, pv0, t).1.contains(a)
            ==> 0 <= a < bpr.na,
        bpr.cov_fill_state(probed0, avail0, pv0, t).0.len() == probed0.len() + t,
        bpr.cov_fill_state(probed0, avail0, pv0, t).2.len() == pv0.len(),
    decreases t,
{
    if t > 0 {
        lemma_cov_fill_card(bpr, probed0, avail0, pv0, t - 1);
        let s = bpr.cov_fill_state(probed0, avail0, pv0, t - 1);
        lemma_cov_fill_argmax_found(bpr, s.2, s.1, bpr.na as int);
        assert(s.1.len() > 0);
        assert(s.1.contains(s.1.choose()));
        assert(exists|a: int| 0 <= a < bpr.na && s.1.contains(a));
        let pick = bpr.cov_fill_argmax(s.2, s.1, bpr.na as int);
        assert(pick.1 != -1);
        assert(s.1.remove(pick.1).len() == s.1.len() - 1);
    }
}

proof fn lemma_cov_pad_card(
    bpr: BipartiteRegulatorProbing,
    probed1: Seq<usize>,
    avail1: Set<int>,
    t: int,
)
    requires
        0 <= t <= avail1.len(),
        avail1.finite(),
        forall|a: int| avail1.contains(a) ==> 0 <= a < bpr.na,
    ensures
        bpr.cov_pad_state(probed1, avail1, t).1.finite(),
        bpr.cov_pad_state(probed1, avail1, t).1.len() == avail1.len() - t,
        forall|a: int| bpr.cov_pad_state(probed1, avail1, t).1.contains(a)
            ==> 0 <= a < bpr.na,
        bpr.cov_pad_state(probed1, avail1, t).0.len() == probed1.len() + t,
    decreases t,
{
    if t > 0 {
        lemma_cov_pad_card(bpr, probed1, avail1, t - 1);
        let s = bpr.cov_pad_state(probed1, avail1, t - 1);
        lemma_cov_pad_argmax_found(bpr, s.1, bpr.na as int);
        assert(s.1.len() > 0);
        assert(s.1.contains(s.1.choose()));
        assert(exists|a: int| 0 <= a < bpr.na && s.1.contains(a));
        let pick = bpr.cov_pad_argmax(s.1, bpr.na as int);
        assert(pick.1 != -1);
        assert(s.1.remove(pick.1).len() == s.1.len() - 1);
    }
}

/// Pushing a pick extends the probed index set by exactly that pick.
proof fn lemma_probed_set_push(picks: Seq<usize>, x: usize)
    ensures
        probed_set(picks.push(x)) == probed_set(picks).insert(x as int),
{
    assert(probed_set(picks.push(x)) =~= probed_set(picks).insert(x as int)) by {
        assert forall|i: int| probed_set(picks.push(x)).contains(i) implies
            probed_set(picks).insert(x as int).contains(i) by {
            let q = choose|q: int| 0 <= q < picks.push(x).len()
                && (#[trigger] picks.push(x)[q]) == i;
            if q < picks.len() {
                assert(picks[q] == i);
            }
        }
        assert forall|i: int| probed_set(picks).insert(x as int).contains(i) implies
            probed_set(picks.push(x)).contains(i) by {
            if probed_set(picks).contains(i) {
                let q = choose|q: int| 0 <= q < picks.len() && (#[trigger] picks[q]) == i;
                assert(picks.push(x)[q] == i);
            } else {
                assert(picks.push(x)[picks.len() as int] == i);
            }
        }
    }
}

proof fn lemma_cov_fill_distinct(
    bpr: BipartiteRegulatorProbing,
    probed0: Seq<usize>,
    avail0: Set<int>,
    pv0: Seq<int>,
    t: int,
)
    requires
        0 <= t <= avail0.len(),
        avail0.finite(),
        forall|a: int| avail0.contains(a) ==> 0 <= a < bpr.na,
        forall|q1: int, q2: int| 0 <= q1 < q2 < probed0.len() ==>
            (#[trigger] probed0[q1]) != (#[trigger] probed0[q2]),
        forall|q: int| 0 <= q < probed0.len() ==> (#[trigger] probed0[q]) < bpr.na,
        forall|a: int| avail0.contains(a) ==> !probed_set(probed0).contains(a),
    ensures
        ({
            let s = bpr.cov_fill_state(probed0, avail0, pv0, t);
            &&& forall|q1: int, q2: int| 0 <= q1 < q2 < s.0.len() ==>
                (#[trigger] s.0[q1]) != (#[trigger] s.0[q2])
            &&& forall|q: int| 0 <= q < s.0.len() ==> (#[trigger] s.0[q]) < bpr.na
            &&& forall|a: int| s.1.contains(a) ==> !probed_set(s.0).contains(a)
        }),
    decreases t,
{
    if t > 0 {
        lemma_cov_fill_distinct(bpr, probed0, avail0, pv0, t - 1);
        lemma_cov_fill_card(bpr, probed0, avail0, pv0, t - 1);
        let s = bpr.cov_fill_state(probed0, avail0, pv0, t - 1);
        lemma_cov_fill_argmax_found(bpr, s.2, s.1, bpr.na as int);
        assert(s.1.len() > 0);
        assert(s.1.contains(s.1.choose()));
        assert(exists|a: int| 0 <= a < bpr.na && s.1.contains(a));
        let pick = bpr.cov_fill_argmax(s.2, s.1, bpr.na as int);
        assert(pick.1 != -1);
        lemma_probed_set_push(s.0, pick.1 as usize);
        assert forall|q1: int, q2: int| 0 <= q1 < q2 < s.0.push(pick.1 as usize).len() implies
            (#[trigger] s.0.push(pick.1 as usize)[q1])
                != (#[trigger] s.0.push(pick.1 as usize)[q2]) by {
            if q2 == s.0.len() {
                assert(s.0[q1] == s.0.push(pick.1 as usize)[q1]);
                if s.0[q1] == pick.1 as usize {
                    assert(probed_set(s.0).contains(pick.1));
                }
            }
        }
    }
}

proof fn lemma_cov_pad_distinct(
    bpr: BipartiteRegulatorProbing,
    probed1: Seq<usize>,
    avail1: Set<int>,
    t: int,
)
    requires
        0 <= t <= avail1.len(),
        avail1.finite(),
        forall|a: int| avail1.contains(a) ==> 0 <= a < bpr.na,
        forall|q1: int, q2: int| 0 <= q1 < q2 < probed1.len() ==>
            (#[trigger] probed1[q1]) != (#[trigger] probed1[q2]),
        forall|q: int| 0 <= q < probed1.len() ==> (#[trigger] probed1[q]) < bpr.na,
        forall|a: int| avail1.contains(a) ==> !probed_set(probed1).contains(a),
    ensures
        ({
            let s = bpr.cov_pad_state(probed1, avail1, t);
            &&& forall|q1: int, q2: int| 0 <= q1 < q2 < s.0.len() ==>
                (#[trigger] s.0[q1]) != (#[trigger] s.0[q2])
            &&& forall|q: int| 0 <= q < s.0.len() ==> (#[trigger] s.0[q]) < bpr.na
            &&& forall|a: int| s.1.contains(a) ==> !probed_set(s.0).contains(a)
        }),
    decreases t,
{
    if t > 0 {
        lemma_cov_pad_distinct(bpr, probed1, avail1, t - 1);
        lemma_cov_pad_card(bpr, probed1, avail1, t - 1);
        let s = bpr.cov_pad_state(probed1, avail1, t - 1);
        lemma_cov_pad_argmax_found(bpr, s.1, bpr.na as int);
        assert(s.1.len() > 0);
        assert(s.1.contains(s.1.choose()));
        assert(exists|a: int| 0 <= a < bpr.na && s.1.contains(a));
        let pick = bpr.cov_pad_argmax(s.1, bpr.na as int);
        assert(pick.1 != -1);
        lemma_probed_set_push(s.0, pick.1 as usize);
        assert forall|q1: int, q2: int| 0 <= q1 < q2 < s.0.push(pick.1 as usize).len() implies
            (#[trigger] s.0.push(pick.1 as usize)[q1])
                != (#[trigger] s.0.push(pick.1 as usize)[q2]) by {
            if q2 == s.0.len() {
                assert(s.0[q1] == s.0.push(pick.1 as usize)[q1]);
                if s.0[q1] == pick.1 as usize {
                    assert(probed_set(s.0).contains(pick.1));
                }
            }
        }
    }
}

impl BipartiteRegulatorProbing {
    /// Computes and caches the non-adaptive coverage policy for `(k, l)`:
    /// bootstrap from the best cached prefix, fill up to `l` probes
    /// greedily by expected mass above the per-position expectation
    /// water-marks, pad up to `k` probes by plain expected mass, and store
    /// the result with its compute cost. A second call with the same key
    /// leaves the cache untouched.
    pub fn compute_namp_cov_policy(&mut self, k: usize, l: usize)
        requires
            old(self).wf(),
            1 <= l <= k,
            k <= old(self).na,
        ensures
            final(self).wf(),
            final(self).na == old(self).na,
            final(self).nb == old(self).nb,
            final(self).vs == old(self).vs,
            final(self).edges@ == old(self).edges@,
            find_policy(old(self).non_adaptive_cov_policies@, k as int, l as int).is_some()
                ==> *final(self) == *old(self),
            find_policy(old(self).non_adaptive_cov_policies@, k as int, l as int).is_none()
                ==> ({
                let probed0 = old(self).l_policy_spec(l as int);
                let avail0 = Set::new(|i: int| 0 <= i < old(self).na
                    && !probed_set(probed0).contains(i));
                let pv0 = Seq::new(old(self).nb as nat, |b: int|
                    old(self).exp_water(probed0, b, probed0.len() as int));
                let s1 = old(self).cov_fill_state(probed0, avail0, pv0,
                    l - probed0.len());
                let s2 = old(self).cov_pad_state(s1.0, s1.1, k as int - l as int);
                &&& final(self).non_adaptive_cov_policies@.len()
                    == old(self).non_adaptive_cov_policies@.len() + 1
                &&& forall|q: int| 0 <= q < old(self).non_adaptive_cov_policies@.len() ==>
                    (#[trigger] final(self).non_adaptive_cov_policies@[q])
                        == old(self).non_adaptive_cov_policies@[q]
                &&& final(self).non_adaptive_cov_policies@.last().0 == k
                &&& final(self).non_adaptive_cov_policies@.last().1 == l
                &&& final(self).non_adaptive_cov_policies@.last().2@ == s2.0
            }),
    {
        if self.has_policy(k, l) {
            return;
        }
        let timer = instant_now();
        let ghost model = *self;
        let na = self.get_na();
        let nb = self.get_nb();
        let vs = self.get_vs();
        let lp = self.get_l_policy(l);
        let mut probed_subset = lp.0;
        let l_time = lp.1;
        let ghost probed0 = probed_subset@;
        let mut probed_values: Vec<u64> = Vec::new();
        let mut b: usize = 0;
        while b < nb
            invariant
                b <= nb,
                model == *self,
                self.wf(),
                na == self.na,
                nb == self.nb,
                vs == self.vs,
                probed0 == probed_subset@,
                probed_subset@.len() <= self.na,
                forall|q: int| 0 <= q < probed_subset@.len() ==>
                    (#[trigger] probed_subset@[q]) < self.na,
                probed_values@.len() == b,
                forall|c: int| 0 <= c < b ==> (#[trigger] probed_values@[c]) as int
                    == model.exp_water(probed0, c, probed0.len() as int),
                forall|c: int| 0 <= c < b ==> (#[trigger] probed_values@[c]) as int
                    <= (self.vs - 1) * (crate::distributions::PROB_SCALE as int),
            decreases nb - b,
        {
            let mut m: u64 = 0;
            let mut q: usize = 0;
            while q < probed_subset.len()
                invariant
                    q <= probed_subset@.len(),
                    b < nb,
                    model == *self,
                    self.wf(),
                    nb == self.nb,
                    probed0 == probed_subset@,
                    probed_subset@.len() <= self.na,
                    forall|c: int| 0 <= c < probed_subset@.len() ==>
                        (#[trigger] probed_subset@[c]) < self.na,
                    m as int == model.exp_water(probed0, b as int, q as int),
                    m as int <= (self.vs - 1) * (crate::distributions::PROB_SCALE as int),
                decreases probed_subset@.len() - q,
            {
                let e = self.get_edge(probed_subset[q], b).expected_value();
                proof {
                    lemma_edge_exp_bound(*self, probed_subset@[q as int] as int, b as int);
                }
                if e > m {
                    m = e;
                }
                q += 1;
            }
            probed_values.push(m);
            b += 1;
        }
        let mut avail = crate::bits::bitset_new_all_set(na);
        let mut q: usize = 0;
        while q < probed_subset.len()
            invariant
                q <= probed_subset@.len(),
                model == *self,
                self.wf(),
                na == self.na,
                probed0 == probed_subset@,
                probed_subset@.len() <= self.na,
                forall|c: int| 0 <= c < probed_subset@.len() ==>
                    (#[trigger] probed_subset@[c]) < self.na,
                crate::bits::bitset_size(avail) == na,
                crate::bits::bitset_contents(avail) == Set::new(|i: int| 0 <= i < na
                    && !probed_set(probed0.take(q as int)).contains(i)),
            decreases probed_subset@.len() - q,
        {
            let idx = probed_subset[q];
            let _ = crate::bits::bitset_unset_bit(&mut avail, idx);
            proof {
                assert(probed0.take(q as int).push(probed0[q as int])
                    =~= probed0.take(q as int + 1));
                lemma_probed_set_push(probed0.take(q as int), probed0[q as int]);
                assert(crate::bits::bitset_contents(avail) =~= Set::new(|i: int| 0 <= i < na
                    && !probed_set(probed0.take(q as int + 1)).contains(i)));
            }
            q += 1;
        }
        let ghost avail0 = crate::bits::bitset_contents(avail);
        let ghost pv0 = Seq::new(nb as nat, |c: int|
            model.exp_water(probed0, c, probed0.len() as int));
        proof {
            assert(probed0.take(probed0.len() as int) =~= probed0);
            assert(as_u64_ints(probed_values@) =~= pv0);
            lemma_probed_set_card(probed0, probed0.len() as int);
            crate::model::lemma_int_range_set(na as int);
            let rng = Set::new(|i: int| 0 <= i < na);
            assert(avail0 =~= rng.difference(probed_set(probed0)));
            vstd::set_lib::lemma_len_union(rng.difference(probed_set(probed0)),
                probed_set(probed0));
            assert(rng.subset_of(rng.difference(probed_set(probed0)).union(
                probed_set(probed0))));
            vstd::set_lib::lemma_len_subset(rng,
                rng.difference(probed_set(probed0)).union(probed_set(probed0)));
            vstd::set_lib::lemma_len_subset(rng.difference(probed_set(probed0)), rng);
            assert(avail0.len() >= na - probed0.len());
            assert forall|a: int| avail0.contains(a) implies
                !probed_set(probed0).contains(a) by {}
        }
        let ghost p0len = probed0.len() as int;
        let mut t: usize = 0;
        let fill_rounds = l - probed_subset.len();
        while t < fill_rounds
            invariant
                t <= fill_rounds,
                fill_rounds == l - p0len,
                0 <= p0len <= l,
                1 <= l <= k,
                k <= na,
                model == *self,
                self.wf(),
                na == self.na,
                nb == self.nb,
                vs == self.vs,
                avail0.finite(),
                avail0.len() >= na - p0len,
                forall|i: int| avail0.contains(i) ==> 0 <= i < na,
                forall|i: int| avail0.contains(i) ==> !probed_set(probed0).contains(i),
                forall|q1: int, q2: int| 0 <= q1 < q2 < probed0.len() ==>
                    (#[trigger] probed0[q1]) != (#[trigger] probed0[q2]),
                forall|c: int| 0 <= c < probed0.len() ==> (#[trigger] probed0[c]) < na,
                pv0.len() == nb,
                crate::bits::bitset_size(avail) == na,
                probed_values@.len() == nb,
                ({
                    let s = model.cov_fill_state(probed0, avail0, pv0, t as int);
                    &&& probed_subset@ == s.0
                    &&& crate::bits::bitset_contents(avail) == s.1
                    &&& as_u64_ints(probed_values@) == s.2
                }),
                probed_subset@.len() == p0len + t,
                forall|c: int| 0 <= c < probed_values@.len() ==>
                    (#[trigger] probed_values@[c]) as int
                        <= (vs - 1) * (crate::distributions::PROB_SCALE as int),
            decreases fill_rounds - t,
        {
            let ghost cur = model.cov_fill_state(probed0, avail0, pv0, t as int);
            let ghost pv_g = as_u64_ints(probed_values@);
            let mut best_score: u64 = 0;
            let mut best_a: usize = 0;
            let mut found = false;
            let mut a: usize = 0;
            while a < na
                invariant
                    a <= na,
                    model == *self,
                    self.wf(),
                    na == self.na,
                    nb == self.nb,
                    vs == self.vs,
                    crate::bits::bitset_size(avail) == na,
                    cur.1 == crate::bits::bitset_contents(avail),
                    cur.2 == as_u64_ints(probed_values@),
                    pv_g == as_u64_ints(probed_values@),
                    probed_values@.len() == nb,
                    forall|c: int| 0 <= c < probed_values@.len() ==>
                        (#[trigger] probed_values@[c]) as int
                            <= (vs - 1) * (crate::distributions::PROB_SCALE as int),
                    if found {
                        model.cov_fill_argmax(pv_g, cur.1, a as int)
                            == (best_score as int, best_a as int)
                    } else {
                        model.cov_fill_argmax(pv_g, cur.1, a as int) == (0int, -1int)
                    },
                    best_a < na || !found,
                decreases na - a,
            {
                if crate::bits::bitset_at(&avail, a) {
                    let mut sc: u64 = 0;
                    let mut c: usize = 0;
                    while c < nb
                        invariant
                            c <= nb,
                            a < na,
                            model == *self,
                            self.wf(),
                            na == self.na,
                            nb == self.nb,
                            vs == self.vs,
                            pv_g == as_u64_ints(probed_values@),
                            probed_values@.len() == nb,
                            forall|d: int| 0 <= d < probed_values@.len() ==>
                                (#[trigger] probed_values@[d]) as int
                                    <= (vs - 1) * (crate::distributions::PROB_SCALE as int),
                            sc as int == model.cov_fill_score(pv_g, a as int, c as int),
                            sc as int <= c * ((vs as int)
                                * (crate::distributions::PROB_SCALE as int)),
                        decreases nb - c,
                    {
                        proof {
                            lemma_fill_score_step(*self, pv_g, a as int, c as int, vs as int);
                            assert((c + 1) * ((vs as int)
                                * (crate::distributions::PROB_SCALE as int))
                                <= 1024 * (1024 * 1_000_000_000int)) by (nonlinear_arith)
                                requires c + 1 <= 1024, 1 <= vs as int <= 1024,
                            ;
                        }
                        let wm = (probed_values[c] / crate::distributions::PROB_SCALE) as usize;
                        let e = self.get_edge(a, c).expected_greater(wm);
                        sc = sc + e;
                        c += 1;
                    }
                    proof {
                        assert(sc as int == model.cov_fill_score(pv_g, a as int, nb as int));
                        assert(nb * ((vs as int) * (crate::distributions::PROB_SCALE as int))
                            <= 1024 * (1024 * 1_000_000_000int)) by (nonlinear_arith)
                            requires 1 <= nb <= 1024, 1 <= vs as int <= 1024,
                        ;
                    }
                    if !found || sc >= best_score {
                        best_score = sc;
                        best_a = a;
                        found = true;
                    }
                }
                a += 1;
            }
            proof {
                lemma_cov_fill_card(model, probed0, avail0, pv0, t as int);
                assert(cur.1.len() == avail0.len() - t > 0);
                assert(cur.1.contains(cur.1.choose()));
                assert(exists|i: int| 0 <= i < na && cur.1.contains(i));
                lemma_cov_fill_argmax_found(model, pv_g, cur.1, na as int);
                assert(found);
            }
            probed_subset.push(best_a);
            let _ = crate::bits::bitset_unset_bit(&mut avail, best_a);
            let mut c: usize = 0;
            while c < nb
                invariant
                    c <= nb,
                    model == *self,
                    self.wf(),
                    na == self.na,
                    nb == self.nb,
                    vs == self.vs,
                    best_a < na,
                    probed_values@.len() == nb,
                    pv_g.len() == nb,
                    forall|d: int| 0 <= d < c ==> (#[trigger] probed_values@[d]) as int
                        == model.exp_update(pv_g, best_a as int)[d],
                    forall|d: int| c <= d < nb ==> (#[trigger] probed_values@[d]) as int
                        == pv_g[d],
                    forall|d: int| 0 <= d < probed_values@.len() ==>
                        (#[trigger] probed_values@[d]) as int
                            <= (vs - 1) * (crate::distributions::PROB_SCALE as int),
                decreases nb - c,
            {
                let e = self.get_edge(best_a, c).expected_value();
                proof {
                    lemma_edge_exp_bound(*self, best_a as int, c as int);
                }
                if e > probed_values[c] {
                    probed_values.set(c, e);
                }
                c += 1;
            }
            proof {
                assert(as_u64_ints(probed_values@) =~= model.exp_update(pv_g, best_a as int));
            }
            t += 1;
        }
        let ghost s1 = model.cov_fill_state(probed0, avail0, pv0, l as int - p0len);
        proof {
            lemma_cov_fill_card(model, probed0, avail0, pv0, l as int - p0len);
            lemma_cov_fill_distinct(model, probed0, avail0, pv0, l as int - p0len);
        }
        let mut t2: usize = 0;
        while t2 < k - l
            invariant
                t2 <= k - l,
                1 <= l <= k,
                k <= na,
                model == *self,
                self.wf(),
                na == self.na,
                nb == self.nb,
                vs == self.vs,
                s1 == model.cov_fill_state(probed0, avail0, pv0, l as int - p0len),
                s1.1.finite(),
                s1.1.len() >= na - l,
                forall|i: int| s1.1.contains(i) ==> 0 <= i < na,
                crate::bits::bitset_size(avail) == na,
                ({
                    let s = model.cov_pad_state(s1.0, s1.1, t2 as int);
                    &&& probed_subset@ == s.0
                    &&& crate::bits::bitset_contents(avail) == s.1
                }),
                probed_subset@.len() == l + t2,
            decreases k - l - t2,
        {
            let ghost cur = model.cov_pad_state(s1.0, s1.1, t2 as int);
            let mut best_score: u64 = 0;
            let mut best_a: usize = 0;
            let mut found = false;
            let mut a: usize = 0;
            while a < na
                invariant
                    a <= na,
                    model == *self,
                    self.wf(),
                    na == self.na,
                    nb == self.nb,
                    vs == self.vs,
                    crate::bits::bitset_size(avail) == na,
                    cur.1 == crate::bits::bitset_contents(avail),
                    if found {
                        model.cov_pad_argmax(cur.1, a as int)
                            == (best_score as int, best_a as int)
                    } else {
                        model.cov_pad_argmax(cur.1, a as int) == (0int, -1int)
                    },
                    best_a < na || !found,
                decreases na - a,
            {
                if crate::bits::bitset_at(&avail, a) {
                    let mut sc: u64 = 0;
                    let mut c: usize = 0;
                    while c < nb
                        invariant
                            c <= nb,
                            a < na,
                            model == *self,
                            self.wf(),
                            na == self.na,
                            nb == self.nb,
                            vs == self.vs,
                            sc as int == model.cov_pad_score(a as int, c as int),
                            sc as int <= c * ((vs as int)
                                * (crate::distributions::PROB_SCALE as int)),
                        decreases nb - c,
                    {
                        proof {
                            lemma_pad_score_step(*self, a as int, c as int, vs as int);
                            assert((c + 1) * ((vs as int)
                                * (crate::distributions::PROB_SCALE as int))
                                <= 1024 * (1024 * 1_000_000_000int)) by (nonlinear_arith)
                                requires c + 1 <= 1024, 1 <= vs as int <= 1024,
                            ;
                        }
                        let e = self.get_edge(a, c).expected_value();
                        sc = sc + e;
                        c += 1;
                    }
                    proof {
                        assert(nb * ((vs as int) * (crate::distributions::PROB_SCALE as int))
                            <= 1024 * (1024 * 1_000_000_000int)) by (nonlinear_arith)
                            requires 1 <= nb <= 1024, 1 <= vs as int <= 1024,
                        ;
                    }
                    if !found || sc >= best_score {
                        best_score = sc;
                        best_a = a;
                        found = true;
                    }
                }
                a += 1;
            }
            proof {
                lemma_cov_pad_card(model, s1.0, s1.1, t2 as int);
                assert(cur.1.len() == s1.1.len() - t2 > 0);
                assert(cur.1.contains(cur.1.choose()));
                assert(exists|i: int| 0 <= i < na && cur.1.contains(i));
                lemma_cov_pad_argmax_found(model, cur.1, na as int);
                assert(found);
            }
            probed_subset.push(best_a);
            let _ = crate::bits::bitset_unset_bit(&mut avail, best_a);
            t2 += 1;
        }
        proof {
            lemma_cov_pad_card(model, s1.0, s1.1, k as int - l as int);
            lemma_cov_pad_distinct(model, s1.0, s1.1, k as int - l as int);
        }
        let elapsed = duration_nanos(&instant_elapsed(&timer));
        let total_time = if l_time <= u64::MAX - elapsed {
            l_time + elapsed
        } else {
            u64::MAX
        };
        self.add_policy(k, l, probed_subset, total_time);
    }

    /// Computes the `l = k` policy, whose greedy prefixes approximate every
    /// smaller budget.
    #[inline]
    pub fn compute_namp_ext_cov_policy(&mut self, k: usize)
        requires
            old(self).wf(),
            1 <= k,
            k <= old(self).na,
        ensures
            final(self).wf(),
            final(self).na == old(self).na,
            final(self).nb == old(self).nb,
            final(self).vs == old(self).vs,
            final(self).edges@ == old(self).edges@,
    {
        self.compute_namp_cov_policy(k, k);
    }
}

/// An edge expectation fits below `vs` whole reward units.
proof fn lemma_edge_exp_bound(bpr: BipartiteRegulatorProbing, a: int, b: int)
    requires
        bpr.wf(),
        0 <= a < bpr.na,
        0 <= b < bpr.nb,
    ensures
        0 <= bpr.edge_exp(a, b) <= (bpr.vs - 1) * (crate::distributions::PROB_SCALE as int),
{
    let p = bpr.edges@[a]@[b].pmf();
    crate::sums::lemma_weighted_mass_below_bound(p, p.len() as int);
    crate::sums::lemma_weighted_mass_below_nonneg(p, p.len() as int);
    crate::sums::lemma_mass_below_nonneg(p, p.len() as int);
    assert((p.len() - 1) * crate::sums::dist_total(p)
        <= (bpr.vs - 1) * (crate::distributions::PROB_SCALE as int)) by (nonlinear_arith)
        requires
            p.len() == bpr.vs,
            crate::sums::dist_total(p) == crate::distributions::PROB_SCALE as int,
            bpr.vs >= 1,
    ;
}

/// One more position's score term stays within its unit bound.
proof fn lemma_fill_score_step(bpr: BipartiteRegulatorProbing, pv: Seq<int>, a: int, c: int,
    vs: int)
    requires
        bpr.wf(),
        0 <= a < bpr.na,
        0 <= c < bpr.nb,
        vs == bpr.vs,
    ensures
        0 <= crate::distributions::e_greater(bpr.edges@[a]@[c].pmf(),
            pv[c] / (crate::distributions::PROB_SCALE as int))
            <= (vs as int) * (crate::distributions::PROB_SCALE as int),
        (c + 1) * ((vs as int) * (crate::distributions::PROB_SCALE as int))
            == c * ((vs as int) * (crate::distributions::PROB_SCALE as int))
            + (vs as int) * (crate::distributions::PROB_SCALE as int),
{
    let p = bpr.edges@[a]@[c].pmf();
    crate::mdp::lemma_e_greater_range(p, pv[c] / (crate::distributions::PROB_SCALE as int));
    lemma_edge_exp_bound(bpr, a, c);
    assert((vs - 1) * (crate::distributions::PROB_SCALE as int)
        <= vs * (crate::distributions::PROB_SCALE as int)) by (nonlinear_arith)
        requires vs >= 1,
    ;
    assert((c + 1) * ((vs as int) * (crate::distributions::PROB_SCALE as int))
        == c * ((vs as int) * (crate::distributions::PROB_SCALE as int))
        + (vs as int) * (crate::distributions::PROB_SCALE as int)) by (nonlinear_arith);
}

/// One more position's padding term stays within its unit bound.
proof fn lemma_pad_score_step(bpr: BipartiteRegulatorProbing, a: int, c: int, vs: int)
    requires
        bpr.wf(),
        0 <= a < bpr.na,
        0 <= c < bpr.nb,
        vs == bpr.vs,
    ensures
        0 <= bpr.edge_exp(a, c) <= (vs as int) * (crate::distributions::PROB_SCALE as int),
        (c + 1) * ((vs as int) * (crate::distributions::PROB_SCALE as int))
            == c * ((vs as int) * (crate::distributions::PROB_SCALE as int))
            + (vs as int) * (crate::distributions::PROB_SCALE as int),
{
    lemma_edge_exp_bound(bpr, a, c);
    assert((vs - 1) * (crate::distributions::PROB_SCALE as int)
        <= vs * (crate::distributions::PROB_SCALE as int)) by (nonlinear_arith)
        requires vs >= 1,
    ;
    assert((c + 1) * ((vs as int) * (crate::distributions::PROB_SCALE as int))
        == c * ((vs as int) * (crate::distributions::PROB_SCALE as int))
        + (vs as int) * (crate::distributions::PROB_SCALE as int)) by (nonlinear_arith);
}

/// A vector of fixed-point masses as mathematical integers.
pub open spec fn as_u64_ints(s: Seq<u64>) -> Seq<int> {
    s.map_values(|x: u64| x as int)
}

impl Instance {
    /// A regulator's score while filling the first `l` probes: the expected
    /// mass of its edges above the realized per-position maxima.
    pub open spec fn areg_gain(
        self,
        bpr: BipartiteRegulatorProbing,
        cv: Seq<int>,
        a: int,
        m: int,
    ) -> int
        decreases m,
    {
        if m <= 0 {
            0
        } else {
            self.areg_gain(bpr, cv, a, m - 1) + crate::distributions::e_greater(
                bpr.edges@[a]@[m - 1].pmf(),
                cv[m - 1],
            )
        }
    }

    /// The filling-phase argmax, a later regulator winning ties.
    pub open spec fn areg_argmax(
        self,
        bpr: BipartiteRegulatorProbing,
        cv: Seq<int>,
        avail: Set<int>,
        k: int,
    ) -> (int, int)
        decreases k,
    {
        if k <= 0 {
            (0, -1)
        } else {
            let prev = self.areg_argmax(bpr, cv, avail, k - 1);
            if avail.contains(k - 1) && (prev.1 == -1
                || self.areg_gain(bpr, cv, k - 1, bpr.nb as int) >= prev.0) {
                (self.areg_gain(bpr, cv, k - 1, bpr.nb as int), k - 1)
            } else {
                prev
            }
        }
    }

    /// The realized per-position maxima after probing one more regulator.
    pub open spec fn areg_update(self, cv: Seq<int>, a: int) -> Seq<int> {
        Seq::new(cv.len(), |b: int| if self.real_mat()[a][b] > cv[b] {
            self.real_mat()[a][b]
        } else {
            cv[b]
        })
    }

    /// The filling phase after `t` rounds: probed regulators, the unprobed
    /// set, and the realized per-position maxima.
    pub open spec fn areg_fill_state(
        self,
        bpr: BipartiteRegulatorProbing,
        t: int,
    ) -> (Seq<usize>, Set<int>, Seq<int>)
        decreases t,
    {
        if t <= 0 {
            (
                Seq::empty(),
                Set::new(|i: int| 0 <= i < bpr.na),
                Seq::new(bpr.nb as nat, |b: int| 0),
            )
        } else {
            let s = self.areg_fill_state(bpr, t - 1);
            let pick = self.areg_argmax(bpr, s.2, s.1, bpr.na as int);
            if pick.1 == -1 {
                s
            } else {
                (s.0.push(pick.1 as usize), s.1.remove(pick.1), self.areg_update(s.2, pick.1))
            }
        }
    }

    /// The value a look-ahead round credits a probed regulator with at one
    /// position: the candidate itself counts its expectation, every other
    /// probed regulator its realized value, both in fixed-point units.
    pub open spec fn sim_val(
        self,
        bpr: BipartiteRegulatorProbing,
        cand: int,
        ta: int,
        b: int,
    ) -> int {
        if ta == cand {
            bpr.edge_exp(ta, b)
        } else {
            self.real_mat()[ta][b] * (crate::distributions::PROB_SCALE as int)
        }
    }

    /// A probed regulator's look-ahead gain over the running totals.
    pub open spec fn sim_gain(
        self,
        bpr: BipartiteRegulatorProbing,
        cand: int,
        ta: int,
        tv: Seq<int>,
        m: int,
    ) -> int
        decreases m,
    {
        if m <= 0 {
            0
        } else {
            self.sim_gain(bpr, cand, ta, tv, m - 1) + (if self.sim_val(bpr, cand, ta, m - 1)
                > tv[m - 1] {
                self.sim_val(bpr, cand, ta, m - 1) - tv[m - 1]
            } else {
                0
            })
        }
    }

    /// The look-ahead argmax, a later regulator winning ties.
    pub open spec fn sim_argmax(
        self,
        bpr: BipartiteRegulatorProbing,
        cand: int,
        tsub: Set<int>,
        tv: Seq<int>,
        k: int,
    ) -> (int, int)
        decreases k,
    {
        if k <= 0 {
            (0, -1)
        } else {
            let prev = self.sim_argmax(bpr, cand, tsub, tv, k - 1);
            if tsub.contains(k - 1) && (prev.1 == -1
                || self.sim_gain(bpr, cand, k - 1, tv, bpr.nb as int) >= prev.0) {
                (self.sim_gain(bpr, cand, k - 1, tv, bpr.nb as int), k - 1)
            } else {
                prev
            }
        }
    }

    /// The running look-ahead totals after folding in one regulator: where
    /// it improves on a position, the total flips to its surplus there.
    pub open spec fn sim_update(
        self,
        bpr: BipartiteRegulatorProbing,
        cand: int,
        ta: int,
        tv: Seq<int>,
    ) -> Seq<int> {
        Seq::new(tv.len(), |b: int| if self.sim_val(bpr, cand, ta, b) > tv[b] {
            self.sim_val(bpr, cand, ta, b) - tv[b]
        } else {
            tv[b]
        })
    }

    /// The look-ahead state for one candidate after `t` rounds.
    pub open spec fn sim_state(
        self,
        bpr: BipartiteRegulatorProbing,
        cand: int,
        tsub0: Set<int>,
        t: int,
    ) -> (Set<int>, Seq<int>)
        decreases t,
    {
        if t <= 0 {
            (tsub0, Seq::new(bpr.nb as nat, |b: int| 0))
        } else {
            let s = self.sim_state(bpr, cand, tsub0, t - 1);
            let pick = self.sim_argmax(bpr, cand, s.0, s.1, bpr.na as int);
            if pick.1 == -1 {
                s
            } else {
                (s.0.remove(pick.1), self.sim_update(bpr, cand, pick.1, s.1))
            }
        }
    }

    /// A candidate's padding score: the total of its look-ahead run.
    pub open spec fn sim_score(
        self,
        bpr: BipartiteRegulatorProbing,
        cand: int,
        probed: Seq<usize>,
        l: int,
    ) -> int {
        mass_below(self.sim_state(bpr, cand, probed_set(probed).insert(cand), l).1, bpr.nb as int)
    }

    /// The padding-phase argmax over the unprobed candidates, a later one
    /// winning ties.
    pub open spec fn areg_pad_argmax(
        self,
        bpr: BipartiteRegulatorProbing,
        probed: Seq<usize>,
        avail: Set<int>,
        l: int,
        k: int,
    ) -> (int, int)
        decreases k,
    {
        if k <= 0 {
            (0, -1)
        } else {
            let prev = self.areg_pad_argmax(bpr, probed, avail, l, k - 1);
            if avail.contains(k - 1) && (prev.1 == -1
                || self.sim_score(bpr, k - 1, probed, l) >= prev.0) {
                (self.sim_score(bpr, k - 1, probed, l), k - 1)
            } else {
                prev
            }
        }
    }

    /// The padding phase after `t` rounds: probed regulators and the
    /// unprobed set.
    pub open spec fn areg_pad_state(
        self,
        bpr: BipartiteRegulatorProbing,
        probed1: Seq<usize>,
        avail1: Set<int>,
        l: int,
        t: int,
    ) -> (Seq<usize>, Set<int>)
        decreases t,
    {
        if t <= 0 {
            (probed1, avail1)
        } else {
            let s = self.areg_pad_state(bpr, probed1, avail1, l, t - 1);
            let pick = self.areg_pad_argmax(bpr, s.0, s.1, l, bpr.na as int);
            if pick.1 == -1 {
                s
            } else {
                (s.0.push(pick.1 as usize), s.1.remove(pick.1))
            }
        }
    }
}

proof fn lemma_areg_argmax_found(
    ins: Instance,
    bpr: BipartiteRegulatorProbing,
    cv: Seq<int>,
    avail: Set<int>,
    k: int,
)
    requires
        k >= 0,
    ensures
        ins.areg_argmax(bpr, cv, avail, k).1 != -1 ==> {
            let pick = ins.areg_argmax(bpr, cv, avail, k);
            &&& 0 <= pick.1 < k
            &&& avail.contains(pick.1)
            &&& pick.0 == ins.areg_gain(bpr, cv, pick.1, bpr.nb as int)
        },
        (exists|a: int| 0 <= a < k && avail.contains(a)) ==> ins.areg_argmax(
            bpr, cv, avail, k).1 != -1,
    decreases k,
{
    if k > 0 {
        lemma_areg_argmax_found(ins, bpr, cv, avail, k - 1);
        if exists|a: int| 0 <= a < k && avail.contains(a) {
            let a0 = choose|a: int| 0 <= a < k && avail.contains(a);
            if a0 < k - 1 {
                assert(exists|a: int| 0 <= a < k - 1 && avail.contains(a));
            }
        }
    }
}

proof fn lemma_sim_argmax_found(
    ins: Instance,
    bpr: BipartiteRegulatorProbing,
    cand: int,
    tsub: Set<int>,
    tv: Seq<int>,
    k: int,
)
    requires
        k >= 0,
    ensures
        ins.sim_argmax(bpr, cand, tsub, tv, k).1 != -1 ==> {
            let pick = ins.sim_argmax(bpr, cand, tsub, tv, k);
            &&& 0 <= pick.1 < k
            &&& tsub.contains(pick.1)
            &&& pick.0 == ins.sim_gain(bpr, cand, pick.1, tv, bpr.nb as int)
        },
        (exists|a: int| 0 <= a < k && tsub.contains(a)) ==> ins.sim_argmax(
            bpr, cand, tsub, tv, k).1 != -1,
    decreases k,
{
    if k > 0 {
        lemma_sim_argmax_found(ins, bpr, cand, tsub, tv, k - 1);
        if exists|a: int| 0 <= a < k && tsub.contains(a) {
            let a0 = choose|a: int| 0 <= a < k && tsub.contains(a);
            if a0 < k - 1 {
                assert(exists|a: int| 0 <= a < k - 1 && tsub.contains(a));
            }
        }
    }
}

proof fn lemma_areg_pad_argmax_found(
    ins: Instance,
    bpr: BipartiteRegulatorProbing,
    probed: Seq<usize>,
    avail: Set<int>,
    l: int,
    k: int,
)
    requires
        k >= 0,
    ensures
        ins.areg_pad_argmax(bpr, probed, avail, l, k).1 != -1 ==> {
            let pick = ins.areg_pad_argmax(bpr, probed, avail, l, k);
            &&& 0 <= pick.1 < k
            &&& avail.contains(pick.1)
            &&& pick.0 == ins.sim_score(bpr, pick.1, probed, l)
        },
        (exists|a: int| 0 <= a < k && avail.contains(a)) ==> ins.areg_pad_argmax(
            bpr, probed, avail, l, k).1 != -1,
    decreases k,
{
    if k > 0 {
        lemma_areg_pad_argmax_found(ins, bpr, probed, avail, l, k - 1);
        if exists|a: int| 0 <= a < k && avail.contains(a) {
            let a0 = choose|a: int| 0 <= a < k && avail.contains(a);
            if a0 < k - 1 {
                assert(exists|a: int| 0 <= a < k - 1 && avail.contains(a));
            }
        }
    }
}

proof fn lemma_areg_fill_card(ins: Instance, bpr: BipartiteRegulatorProbing, t: int)
    requires
        0 <= t <= bpr.na,
        bpr.na >= 1,
    ensures
        ({
            let s = ins.areg_fill_state(bpr, t);
            &&& s.1.finite()
            &&& s.1.len() == bpr.na - t
            &&& forall|a: int| s.1.contains(a) ==> 0 <= a < bpr.na
            &&& s.0.len() == t
            &&& s.2.len() == bpr.nb
            &&& forall|q: int| 0 <= q < s.0.len() ==> (#[trigger] s.0[q]) < bpr.na
            &&& forall|q1: int, q2: int| 0 <= q1 < q2 < s.0.len() ==>
                (#[trigger] s.0[q1]) != (#[trigger] s.0[q2])
            &&& forall|a: int| s.1.contains(a) ==> !probed_set(s.0).contains(a)
        }),
    decreases t,
{
    if t == 0 {
        crate::model::lemma_int_range_set(bpr.na as int);
        assert forall|i: int| probed_set(Seq::<usize>::empty()).contains(i) implies false by {
            let q = choose|q: int| 0 <= q < Seq::<usize>::empty().len()
                && (#[trigger] Seq::<usize>::empty()[q]) == i;
        }
    } else {
        lemma_areg_fill_card(ins, bpr, t - 1);
        let s = ins.areg_fill_state(bpr, t - 1);
        lemma_areg_argmax_found(ins, bpr, s.2, s.1, bpr.na as int);
        assert(s.1.len() > 0);
        assert(s.1.contains(s.1.choose()));
        assert(exists|a: int| 0 <= a < bpr.na && s.1.contains(a));
        let pick = ins.areg_argmax(bpr, s.2, s.1, bpr.na as int);
        assert(pick.1 != -1);
        assert(s.1.remove(pick.1).len() == s.1.len() - 1);
        lemma_probed_set_push(s.0, pick.1 as usize);
        assert forall|q1: int, q2: int| 0 <= q1 < q2 < s.0.push(pick.1 as usize).len() implies
            (#[trigger] s.0.push(pick.1 as usize)[q1])
                != (#[trigger] s.0.push(pick.1 as usize)[q2]) by {
            if q2 == s.0.len() {
                assert(s.0[q1] == s.0.push(pick.1 as usize)[q1]);
                if s.0[q1] == pick.1 as usize {
                    assert(probed_set(s.0).contains(pick.1));
                }
            }
        }
    }
}

proof fn lemma_sim_card(
    ins: Instance,
    bpr: BipartiteRegulatorProbing,
    cand: int,
    tsub0: Set<int>,
    t: int,
)
    requires
        0 <= t <= tsub0.len(),
        tsub0.finite(),
        forall|a: int| tsub0.contains(a) ==> 0 <= a < bpr.na,
    ensures
        ({
            let s = ins.sim_state(bpr, cand, tsub0, t);
            &&& s.0.finite()
            &&& s.0.len() == tsub0.len() - t
            &&& forall|a: int| s.0.contains(a) ==> 0 <= a < bpr.na
            &&& s.1.len() == bpr.nb
        }),
    decreases t,
{
    if t > 0 {
        lemma_sim_card(ins, bpr, cand, tsub0, t - 1);
        let s = ins.sim_state(bpr, cand, tsub0, t - 1);
        lemma_sim_argmax_found(ins, bpr, cand, s.0, s.1, bpr.na as int);
        assert(s.0.len() > 0);
        assert(s.0.contains(s.0.choose()));
        assert(exists|a: int| 0 <= a < bpr.na && s.0.contains(a));
        let pick = ins.sim_argmax(bpr, cand, s.0, s.1, bpr.na as int);
        assert(pick.1 != -1);
        assert(s.0.remove(pick.1).len() == s.0.len() - 1);
    }
}

proof fn lemma_areg_pad_card(
    ins: Instance,
    bpr: BipartiteRegulatorProbing,
    probed1: Seq<usize>,
    avail1: Set<int>,
    l: int,
    t: int,
)
    requires
        0 <= t <= avail1.len(),
        avail1.finite(),
        forall|a: int| avail1.contains(a) ==> 0 <= a < bpr.na,
        forall|q: int| 0 <= q < probed1.len() ==> (#[trigger] probed1[q]) < bpr.na,
        forall|q1: int, q2: int| 0 <= q1 < q2 < probed1.len() ==>
            (#[trigger] probed1[q1]) != (#[trigger] probed1[q2]),
        forall|a: int| avail1.contains(a) ==> !probed_set(probed1).contains(a),
    ensures
        ({
            let s = ins.areg_pad_state(bpr, probed1, avail1, l, t);
            &&& s.1.finite()
            &&& s.1.len() == avail1.len() - t
            &&& forall|a: int| s.1.contains(a) ==> 0 <= a < bpr.na
            &&& s.0.len() == probed1.len() + t
            &&& forall|q: int| 0 <= q < s.0.len() ==> (#[trigger] s.0[q]) < bpr.na
            &&& forall|q1: int, q2: int| 0 <= q1 < q2 < s.0.len() ==>
                (#[trigger] s.0[q1]) != (#[trigger] s.0[q2])
            &&& forall|a: int| s.1.contains(a) ==> !probed_set(s.0).contains(a)
        }),
    decreases t,
{
    if t > 0 {
        lemma_areg_pad_card(ins, bpr, probed1, avail1, l, t - 1);
        let s = ins.areg_pad_state(bpr, probed1, avail1, l, t - 1);
        lemma_areg_pad_argmax_found(ins, bpr, s.0, s.1, l, bpr.na as int);
        assert(s.1.len() > 0);
        assert(s.1.contains(s.1.choose()));
        assert(exists|a: int| 0 <= a < bpr.na && s.1.contains(a));
        let pick = ins.areg_pad_argmax(bpr, s.0, s.1, l, bpr.na as int);
        assert(pick.1 != -1);
        assert(s.1.remove(pick.1).len() == s.1.len() - 1);
        lemma_probed_set_push(s.0, pick.1 as usize);
        assert forall|q1: int, q2: int| 0 <= q1 < q2 < s.0.push(pick.1 as usize).len() implies
            (#[trigger] s.0.push(pick.1 as usize)[q1])
                != (#[trigger] s.0.push(pick.1 as usize)[q2]) by {
            if q2 == s.0.len() {
                assert(s.0[q1] == s.0.push(pick.1 as usize)[q1]);
                if s.0[q1] == pick.1 as usize {
                    assert(probed_set(s.0).contains(pick.1));
                }
            }
        }
    }
}

/// A look-ahead value at one position fits below `vs` whole reward units.
proof fn lemma_sim_val_bound(
    ins: Instance,
    bpr: BipartiteRegulatorProbing,
    cand: int,
    ta: int,
    b: int,
)
    requires
        bpr.wf(),
        ins.wf(),
        ins.na == bpr.na,
        ins.nb == bpr.nb,
        ins.vs == bpr.vs,
        0 <= ta < bpr.na,
        0 <= b < bpr.nb,
    ensures
        0 <= ins.sim_val(bpr, cand, ta, b)
            <= (bpr.vs as int) * (crate::distributions::PROB_SCALE as int),
{
    if ta == cand {
        lemma_edge_exp_bound(bpr, ta, b);
        assert((bpr.vs - 1) * (crate::distributions::PROB_SCALE as int)
            <= (bpr.vs as int) * (crate::distributions::PROB_SCALE as int)) by (nonlinear_arith)
            requires bpr.vs >= 1,
        ;
    } else {
        assert(ins.real_mat()[ta][b] == ins.realizations@[ta]@[b] as int);
        assert(0 <= ins.real_mat()[ta][b] * (crate::distributions::PROB_SCALE as int)
            && ins.real_mat()[ta][b] * (crate::distributions::PROB_SCALE as int)
            <= (bpr.vs as int) * (crate::distributions::PROB_SCALE as int)) by (nonlinear_arith)
            requires 0 <= ins.real_mat()[ta][b] < bpr.vs as int,
        ;
    }
}

impl Instance {
    /// The probe order of the adaptive coverage policy: `l` greedy rounds
    /// by expected mass above the realized per-position maxima, then
    /// `k - l` rounds picking the candidate whose look-ahead replay of the
    /// probed set scores highest.
    pub fn adaptive_policy_regulators(
        &self,
        bpr: &BipartiteRegulatorProbing,
        k: usize,
        l: usize,
    ) -> (r: Vec<usize>)
        requires
            self.wf(),
            bpr.wf(),
            self.na == bpr.na,
            self.nb == bpr.nb,
            self.vs == bpr.vs,
            1 <= l <= k,
            k <= self.na,
        ensures
            r@.len() == k,
            forall|q: int| 0 <= q < r@.len() ==> (#[trigger] r@[q]) < self.na,
            forall|q1: int, q2: int| 0 <= q1 < q2 < r@.len() ==>
                (#[trigger] r@[q1]) != (#[trigger] r@[q2]),
            r@ == self.areg_pad_state(*bpr, self.areg_fill_state(*bpr, l as int).0,
                self.areg_fill_state(*bpr, l as int).1, l as int, k as int - l as int).0,
    {
        let na = bpr.get_na();
        let nb = bpr.get_nb();
        let vs = bpr.get_vs();
        let ghost s_scale = crate::distributions::PROB_SCALE as int;
        let mut probed: Vec<usize> = Vec::new();
        let mut avail = crate::bits::bitset_new_all_set(na);
        let mut cv: Vec<usize> = Vec::new();
        let mut b0: usize = 0;
        while b0 < nb
            invariant
                b0 <= nb,
                cv@.len() == b0,
                forall|q: int| 0 <= q < b0 ==> (#[trigger] cv@[q]) == 0,
            decreases nb - b0,
        {
            cv.push(0);
            b0 += 1;
        }
        proof {
            assert(as_ints(cv@) =~= self.areg_fill_state(*bpr, 0).2);
            assert(crate::bits::bitset_contents(avail) =~= self.areg_fill_state(*bpr, 0).1);
            assert(probed@ =~= self.areg_fill_state(*bpr, 0).0);
        }
        let mut t: usize = 0;
        while t < l
            invariant
                t <= l,
                1 <= l <= k,
                k <= na,
                self.wf(),
                bpr.wf(),
                self.na == bpr.na,
                self.nb == bpr.nb,
                self.vs == bpr.vs,
                na == bpr.na,
                nb == bpr.nb,
                vs == bpr.vs,
                crate::bits::bitset_size(avail) == na,
                cv@.len() == nb,
                ({
                    let s = self.areg_fill_state(*bpr, t as int);
                    &&& probed@ == s.0
                    &&& crate::bits::bitset_contents(avail) == s.1
                    &&& as_ints(cv@) == s.2
                }),
                forall|q: int| 0 <= q < cv@.len() ==> (#[trigger] cv@[q]) < vs,
            decreases l - t,
        {
            let ghost cur = self.areg_fill_state(*bpr, t as int);
            let ghost cv_g = as_ints(cv@);
            let mut best_score: u64 = 0;
            let mut best_a: usize = 0;
            let mut found = false;
            let mut a: usize = 0;
            while a < na
                invariant
                    a <= na,
                    self.wf(),
                    bpr.wf(),
                    self.na == bpr.na,
                    self.nb == bpr.nb,
                    self.vs == bpr.vs,
                    na == bpr.na,
                    nb == bpr.nb,
                    vs == bpr.vs,
                    crate::bits::bitset_size(avail) == na,
                    cur.1 == crate::bits::bitset_contents(avail),
                    cv_g == as_ints(cv@),
                    cv@.len() == nb,
                    forall|q: int| 0 <= q < cv@.len() ==> (#[trigger] cv@[q]) < vs,
                    if found {
                        self.areg_argmax(*bpr, cv_g, cur.1, a as int)
                            == (best_score as int, best_a as int)
                    } else {
                        self.areg_argmax(*bpr, cv_g, cur.1, a as int) == (0int, -1int)
                    },
                    best_a < na || !found,
                decreases na - a,
            {
                if crate::bits::bitset_at(&avail, a) {
                    let mut sc: u64 = 0;
                    let mut c: usize = 0;
                    while c < nb
                        invariant
                            c <= nb,
                            a < na,
                            self.wf(),
                            bpr.wf(),
                            self.na == bpr.na,
                            self.nb == bpr.nb,
                            self.vs == bpr.vs,
                            na == bpr.na,
                            nb == bpr.nb,
                            vs == bpr.vs,
                            cv_g == as_ints(cv@),
                            cv@.len() == nb,
                            sc as int == self.areg_gain(*bpr, cv_g, a as int, c as int),
                            sc as int <= c * ((vs as int)
                                * (crate::distributions::PROB_SCALE as int)),
                        decreases nb - c,
                    {
                        proof {
                            crate::mdp::lemma_e_greater_range(
                                bpr.edges@[a as int]@[c as int].pmf(), cv_g[c as int]);
                            lemma_edge_exp_bound(*bpr, a as int, c as int);
                            assert((vs - 1) * (crate::distributions::PROB_SCALE as int)
                                <= vs * (crate::distributions::PROB_SCALE as int))
                                by (nonlinear_arith)
                                requires vs >= 1,
                            ;
                            assert((c + 1) * ((vs as int)
                                * (crate::distributions::PROB_SCALE as int))
                                == c * ((vs as int) * (crate::distributions::PROB_SCALE as int))
                                + (vs as int) * (crate::distributions::PROB_SCALE as int))
                                by (nonlinear_arith);
                            assert((c + 1) * ((vs as int)
                                * (crate::distributions::PROB_SCALE as int))
                                <= 1024 * (1024 * 1_000_000_000int)) by (nonlinear_arith)
                                requires c + 1 <= 1024, 1 <= vs as int <= 1024,
                            ;
                        }
                        let e = bpr.get_edge(a, c).expected_greater(cv[c]);
                        sc = sc + e;
                        c += 1;
                    }
                    if !found || sc >= best_score {
                        best_score = sc;
                        best_a = a;
                        found = true;
                    }
                }
                a += 1;
            }
            proof {
                lemma_areg_fill_card(*self, *bpr, t as int);
                assert(cur.1.len() == na - t > 0);
                assert(cur.1.contains(cur.1.choose()));
                assert(exists|i: int| 0 <= i < na && cur.1.contains(i));
                lemma_areg_argmax_found(*self, *bpr, cv_g, cur.1, na as int);
                assert(found);
            }
            probed.push(best_a);
            let _ = crate::bits::bitset_unset_bit(&mut avail, best_a);
            let mut c: usize = 0;
            while c < nb
                invariant
                    c <= nb,
                    self.wf(),
                    self.na == bpr.na,
                    self.nb == bpr.nb,
                    self.vs == bpr.vs,
                    nb == bpr.nb,
                    vs == bpr.vs,
                    best_a < na,
                    na == bpr.na,
                    cv@.len() == nb,
                    cv_g.len() == nb,
                    forall|d: int| 0 <= d < c ==> (#[trigger] cv@[d]) as int
                        == self.areg_update(cv_g, best_a as int)[d],
                    forall|d: int| c <= d < nb ==> (#[trigger] cv@[d]) as int == cv_g[d],
                    forall|d: int| 0 <= d < cv@.len() ==> (#[trigger] cv@[d]) < vs,
                decreases nb - c,
            {
                let x = self.realizations[best_a][c];
                if x > cv[c] {
                    cv.set(c, x);
                }
                c += 1;
            }
            proof {
                assert(as_ints(cv@) =~= self.areg_update(cv_g, best_a as int));
            }
            t += 1;
        }
        let ghost s1 = self.areg_fill_state(*bpr, l as int);
        proof {
            lemma_areg_fill_card(*self, *bpr, l as int);
        }
        let mut t2: usize = 0;
        while t2 < k - l
            invariant
                t2 <= k - l,
                1 <= l <= k,
                k <= na,
                self.wf(),
                bpr.wf(),
                self.na == bpr.na,
                self.nb == bpr.nb,
                self.vs == bpr.vs,
                na == bpr.na,
                nb == bpr.nb,
                vs == bpr.vs,
                s1 == self.areg_fill_state(*bpr, l as int),
                s1.1.finite(),
                s1.1.len() == na - l,
                s1.0.len() == l,
                forall|i: int| s1.1.contains(i) ==> 0 <= i < na,
                forall|q: int| 0 <= q < s1.0.len() ==> (#[trigger] s1.0[q]) < na,
                forall|q1: int, q2: int| 0 <= q1 < q2 < s1.0.len() ==>
                    (#[trigger] s1.0[q1]) != (#[trigger] s1.0[q2]),
                forall|i: int| s1.1.contains(i) ==> !probed_set(s1.0).contains(i),
                crate::bits::bitset_size(avail) == na,
                ({
                    let s = self.areg_pad_state(*bpr, s1.0, s1.1, l as int, t2 as int);
                    &&& probed@ == s.0
                    &&& crate::bits::bitset_contents(avail) == s.1
                }),
                probed@.len() == l + t2,
                forall|q: int| 0 <= q < probed@.len() ==> (#[trigger] probed@[q]) < na,
            decreases k - l - t2,
        {
            let ghost cur = self.areg_pad_state(*bpr, s1.0, s1.1, l as int, t2 as int);
            proof {
                lemma_areg_pad_card(*self, *bpr, s1.0, s1.1, l as int, t2 as int);
            }
            let mut best_score: u64 = 0;
            let mut best_a: usize = 0;
            let mut found = false;
            let mut a: usize = 0;
            while a < na
                invariant
                    a <= na,
                    self.wf(),
                    bpr.wf(),
                    self.na == bpr.na,
                    self.nb == bpr.nb,
                    self.vs == bpr.vs,
                    na == bpr.na,
                    nb == bpr.nb,
                    vs == bpr.vs,
                    1 <= l <= k <= na,
                    crate::bits::bitset_size(avail) == na,
                    cur.0 == probed@,
                    cur.1 == crate::bits::bitset_contents(avail),
                    probed@.len() == l + t2,
                    t2 < k - l,
                    forall|q: int| 0 <= q < probed@.len() ==> (#[trigger] probed@[q]) < na,
                    forall|q1: int, q2: int| 0 <= q1 < q2 < probed@.len() ==>
                        (#[trigger] probed@[q1]) != (#[trigger] probed@[q2]),
                    forall|i: int| cur.1.contains(i) ==> !probed_set(probed@).contains(i),
                    if found {
                        self.areg_pad_argmax(*bpr, cur.0, cur.1, l as int, a as int)
                            == (best_score as int, best_a as int)
                    } else {
                        self.areg_pad_argmax(*bpr, cur.0, cur.1, l as int, a as int)
                            == (0int, -1int)
                    },
                    best_a < na || !found,
                decreases na - a,
            {
                if crate::bits::bitset_at(&avail, a) {
                    let sc = self.lookahead_score(bpr, &probed, a, l);
                    if !found || sc >= best_score {
                        best_score = sc;
                        best_a = a;
                        found = true;
                    }
                }
                a += 1;
            }
            proof {
                lemma_areg_pad_card(*self, *bpr, s1.0, s1.1, l as int, t2 as int);
                assert(cur.1.len() == s1.1.len() - t2);
                assert(s1.1.len() == na - l);
                assert(cur.1.len() > 0);
                assert(cur.1.contains(cur.1.choose()));
                assert(exists|i: int| 0 <= i < na && cur.1.contains(i));
                lemma_areg_pad_argmax_found(*self, *bpr, cur.0, cur.1, l as int, na as int);
                assert(found);
            }
            probed.push(best_a);
            let _ = crate::bits::bitset_unset_bit(&mut avail, best_a);
            t2 += 1;
        }
        proof {
            lemma_areg_pad_card(*self, *bpr, s1.0, s1.1, l as int, k as int - l as int);
        }
        probed
    }

    /// One candidate's look-ahead score: replay `l` greedy rounds over the
    /// probed regulators and the candidate, crediting the candidate its
    /// expectations and the others their realizations.
    fn lookahead_score(
        &self,
        bpr: &BipartiteRegulatorProbing,
        probed: &Vec<usize>,
        cand: usize,
        l: usize,
    ) -> (r: u64)
        requires
            self.wf(),
            bpr.wf(),
            self.na == bpr.na,
            self.nb == bpr.nb,
            self.vs == bpr.vs,
            cand < bpr.na,
            l >= 1,
            probed@.len() >= l,
            probed@.len() < bpr.na,
            forall|q: int| 0 <= q < probed@.len() ==> (#[trigger] probed@[q]) < bpr.na,
            forall|q1: int, q2: int| 0 <= q1 < q2 < probed@.len() ==>
                (#[trigger] probed@[q1]) != (#[trigger] probed@[q2]),
            !probed_set(probed@).contains(cand as int),
        ensures
            r as int == self.sim_score(*bpr, cand as int, probed@, l as int),
    {
        let na = bpr.get_na();
        let nb = bpr.get_nb();
        let vs = bpr.get_vs();
        let ghost tsub0 = probed_set(probed@).insert(cand as int);
        let mut tsub = crate::bits::bitset_new(na);
        let mut q: usize = 0;
        while q < probed.len()
            invariant
                q <= probed@.len(),
                na == bpr.na,
                forall|c: int| 0 <= c < probed@.len() ==> (#[trigger] probed@[c]) < na,
                crate::bits::bitset_size(tsub) == na,
                crate::bits::bitset_contents(tsub) == probed_set(probed@.take(q as int)),
            decreases probed@.len() - q,
        {
            let _ = crate::bits::bitset_set_bit(&mut tsub, probed[q]);
            proof {
                assert(probed@.take(q as int).push(probed@[q as int])
                    =~= probed@.take(q as int + 1));
                lemma_probed_set_push(probed@.take(q as int), probed@[q as int]);
            }
            q += 1;
        }
        let _ = crate::bits::bitset_set_bit(&mut tsub, cand);
        proof {
            assert(probed@.take(probed@.len() as int) =~= probed@);
            assert(crate::bits::bitset_contents(tsub) == tsub0);
            lemma_probed_set_card(probed@, probed@.len() as int);
            assert(tsub0.len() == probed@.len() + 1);
            assert forall|i: int| tsub0.contains(i) implies 0 <= i < na by {
                if i != cand as int {
                    let c = choose|c: int| 0 <= c < probed@.len()
                        && (#[trigger] probed@[c]) == i;
                }
            }
        }
        let mut tv: Vec<u64> = Vec::new();
        let mut b0: usize = 0;
        while b0 < nb
            invariant
                b0 <= nb,
                tv@.len() == b0,
                forall|c: int| 0 <= c < b0 ==> (#[trigger] tv@[c]) == 0,
            decreases nb - b0,
        {
            tv.push(0);
            b0 += 1;
        }
        proof {
            assert(as_u64_ints(tv@) =~= self.sim_state(*bpr, cand as int, tsub0, 0).1);
        }
        let mut t: usize = 0;
        while t < l
            invariant
                t <= l,
                l <= probed@.len(),
                probed@.len() + 1 <= na,
                na == bpr.na,
                nb == bpr.nb,
                vs == bpr.vs,
                self.wf(),
                bpr.wf(),
                self.na == bpr.na,
                self.nb == bpr.nb,
                self.vs == bpr.vs,
                cand < na,
                tsub0.finite(),
                tsub0.len() == probed@.len() + 1,
                forall|i: int| tsub0.contains(i) ==> 0 <= i < na,
                crate::bits::bitset_size(tsub) == na,
                tv@.len() == nb,
                ({
                    let s = self.sim_state(*bpr, cand as int, tsub0, t as int);
                    &&& crate::bits::bitset_contents(tsub) == s.0
                    &&& as_u64_ints(tv@) == s.1
                }),
                forall|c: int| 0 <= c < tv@.len() ==> (#[trigger] tv@[c]) as int
                    <= (vs as int) * (crate::distributions::PROB_SCALE as int),
            decreases l - t,
        {
            let ghost cur = self.sim_state(*bpr, cand as int, tsub0, t as int);
            let ghost tv_g = as_u64_ints(tv@);
            let mut best_score: u64 = 0;
            let mut best_a: usize = 0;
            let mut found = false;
            let mut a: usize = 0;
            while a < na
                invariant
                    a <= na,
                    na == bpr.na,
                    nb == bpr.nb,
                    vs == bpr.vs,
                    self.wf(),
                    bpr.wf(),
                    self.na == bpr.na,
                    self.nb == bpr.nb,
                    self.vs == bpr.vs,
                    cand < na,
                    crate::bits::bitset_size(tsub) == na,
                    cur.0 == crate::bits::bitset_contents(tsub),
                    tv_g == as_u64_ints(tv@),
                    tv@.len() == nb,
                    forall|c: int| 0 <= c < tv@.len() ==> (#[trigger] tv@[c]) as int
                        <= (vs as int) * (crate::distributions::PROB_SCALE as int),
                    if found {
                        self.sim_argmax(*bpr, cand as int, cur.0, tv_g, a as int)
                            == (best_score as int, best_a as int)
                    } else {
                        self.sim_argmax(*bpr, cand as int, cur.0, tv_g, a as int)
                            == (0int, -1int)
                    },
                    best_a < na || !found,
                decreases na - a,
            {
                if crate::bits::bitset_at(&tsub, a) {
                    let mut sc: u64 = 0;
                    let mut c: usize = 0;
                    while c < nb
                        invariant
                            c <= nb,
                            a < na,
                            na == bpr.na,
                            nb == bpr.nb,
                            vs == bpr.vs,
                            self.wf(),
                            bpr.wf(),
                            self.na == bpr.na,
                            self.nb == bpr.nb,
                            self.vs == bpr.vs,
                            cand < na,
                            tv_g == as_u64_ints(tv@),
                            tv@.len() == nb,
                            forall|d: int| 0 <= d < tv@.len() ==> (#[trigger] tv@[d]) as int
                                <= (vs as int) * (crate::distributions::PROB_SCALE as int),
                            sc as int == self.sim_gain(*bpr, cand as int, a as int, tv_g,
                                c as int),
                            sc as int <= c * ((vs as int)
                                * (crate::distributions::PROB_SCALE as int)),
                        decreases nb - c,
                    {
                        proof {
                            lemma_sim_val_bound(*self, *bpr, cand as int, a as int, c as int);
                            assert((c + 1) * ((vs as int)
                                * (crate::distributions::PROB_SCALE as int))
                                == c * ((vs as int) * (crate::distributions::PROB_SCALE as int))
                                + (vs as int) * (crate::distributions::PROB_SCALE as int))
                                by (nonlinear_arith);
                            assert((c + 1) * ((vs as int)
                                * (crate::distributions::PROB_SCALE as int))
                                <= 1024 * (1024 * 1_000_000_000int)) by (nonlinear_arith)
                                requires c + 1 <= 1024, 1 <= vs as int <= 1024,
                            ;
                        }
                        let val: u64 = if a == cand {
                            bpr.get_edge(a, c).expected_value()
                        } else {
                            proof {
                                assert((self.realizations@[a as int]@[c as int] as int)
                                    * (crate::distributions::PROB_SCALE as int)
                                    <= 1024 * 1_000_000_000int) by (nonlinear_arith)
                                    requires
                                        0 <= (self.realizations@[a as int]@[c as int] as int),
                                        (self.realizations@[a as int]@[c as int] as int) < 1024,
                                ;
                            }
                            self.realizations[a][c] as u64 * crate::distributions::PROB_SCALE
                        };
                        proof {
                            assert(val as int == self.sim_val(*bpr, cand as int, a as int,
                                c as int));
                        }
                        if val > tv[c] {
                            sc = sc + (val - tv[c]);
                        }
                        c += 1;
                    }
                    if !found || sc >= best_score {
                        best_score = sc;
                        best_a = a;
                        found = true;
                    }
                }
                a += 1;
            }
            proof {
                lemma_sim_card(*self, *bpr, cand as int, tsub0, t as int);
                assert(cur.0.len() == tsub0.len() - t > 0);
                assert(cur.0.contains(cur.0.choose()));
                assert(exists|i: int| 0 <= i < na && cur.0.contains(i));
                lemma_sim_argmax_found(*self, *bpr, cand as int, cur.0, tv_g, na as int);
                assert(found);
            }
            let _ = crate::bits::bitset_unset_bit(&mut tsub, best_a);
            let mut c: usize = 0;
            while c < nb
                invariant
                    c <= nb,
                    na == bpr.na,
                    nb == bpr.nb,
                    vs == bpr.vs,
                    self.wf(),
                    bpr.wf(),
                    self.na == bpr.na,
                    self.nb == bpr.nb,
                    self.vs == bpr.vs,
                    cand < na,
                    best_a < na,
                    tv@.len() == nb,
                    tv_g.len() == nb,
                    forall|d: int| 0 <= d < c ==> (#[trigger] tv@[d]) as int
                        == self.sim_update(*bpr, cand as int, best_a as int, tv_g)[d],
                    forall|d: int| c <= d < nb ==> (#[trigger] tv@[d]) as int == tv_g[d],
                    forall|d: int| 0 <= d < tv@.len() ==> (#[trigger] tv@[d]) as int
                        <= (vs as int) * (crate::distributions::PROB_SCALE as int),
                decreases nb - c,
            {
                proof {
                    lemma_sim_val_bound(*self, *bpr, cand as int, best_a as int, c as int);
                }
                let val: u64 = if best_a == cand {
                    bpr.get_edge(best_a, c).expected_value()
                } else {
                    proof {
                        assert((self.realizations@[best_a as int]@[c as int] as int)
                            * (crate::distributions::PROB_SCALE as int)
                            <= 1024 * 1_000_000_000int) by (nonlinear_arith)
                            requires
                                0 <= (self.realizations@[best_a as int]@[c as int] as int),
                                (self.realizations@[best_a as int]@[c as int] as int) < 1024,
                        ;
                    }
                    self.realizations[best_a][c] as u64 * crate::distributions::PROB_SCALE
                };
                proof {
                    assert(val as int == self.sim_val(*bpr, cand as int, best_a as int,
                        c as int));
                }
                if val > tv[c] {
                    tv.set(c, val - tv[c]);
                }
                c += 1;
            }
            proof {
                assert(as_u64_ints(tv@) =~= self.sim_update(*bpr, cand as int, best_a as int,
                    tv_g));
            }
            t += 1;
        }
        let mut total: u64 = 0;
        let mut c: usize = 0;
        while c < nb
            invariant
                c <= nb,
                nb <= 1024,
                vs <= 1024,
                vs >= 1,
                tv@.len() == nb,
                forall|d: int| 0 <= d < tv@.len() ==> (#[trigger] tv@[d]) as int
                    <= (vs as int) * (crate::distributions::PROB_SCALE as int),
                total as int == mass_below(as_u64_ints(tv@), c as int),
                total as int <= c * ((vs as int) * (crate::distributions::PROB_SCALE as int)),
            decreases nb - c,
        {
            proof {
                assert((c + 1) * ((vs as int) * (crate::distributions::PROB_SCALE as int))
                    == c * ((vs as int) * (crate::distributions::PROB_SCALE as int))
                    + (vs as int) * (crate::distributions::PROB_SCALE as int))
                    by (nonlinear_arith);
                assert((c + 1) * ((vs as int) * (crate::distributions::PROB_SCALE as int))
                    <= 1024 * (1024 * 1_000_000_000int)) by (nonlinear_arith)
                    requires c + 1 <= 1024, 1 <= vs as int <= 1024,
                ;
            }
            total = total + tv[c];
            c += 1;
        }
        total
    }

    /// The adaptive coverage policy: pick `k` regulators adaptively and
    /// score the subset with `l` greedy coverage rounds. Reports this run's
    /// own elapsed time.
    pub fn adaptive_policy(&self, bpr: &BipartiteRegulatorProbing, k: usize, l: usize) -> (r: (
        usize,
        u64,
    ))
        requires
            self.wf(),
            bpr.wf(),
            self.na == bpr.na,
            self.nb == bpr.nb,
            self.vs == bpr.vs,
            1 <= l <= k,
            k <= self.na,
        ensures
            ({
                let probes = self.areg_pad_state(*bpr, self.areg_fill_state(*bpr, l as int).0,
                    self.areg_fill_state(*bpr, l as int).1, l as int, k as int - l as int).0;
                if k == l {
                    r.0 as int == crate::model::cols_max_sum(
                        self.picked_rows(probes), self.nb as int)
                } else {
                    r.0 as int == crate::model::greedy_cov_value(
                        self.picked_rows(probes), self.nb as int, l as int)
                }
            }),
    {
        let timer = instant_now();
        let probed_regulators = self.adaptive_policy_regulators(bpr, k, l);
        let value = self.eval_policy(&probed_regulators, l);
        let elapsed = duration_nanos(&instant_elapsed(&timer));
        (value, elapsed)
    }
}

} // verus!
