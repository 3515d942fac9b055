//! The probing model: a bipartite graph of regulators and positions whose
//! edges carry discrete reward distributions, sampled realizations of it,
//! and the greedy maximum-coverage evaluation both share.

use vstd::prelude::*;

use crate::distributions::{WeightedDistribution, PROB_SCALE, max_cdf, max_sample_upto};
use crate::sums::{
    dist_total, dist_expectation, mass_below, lemma_mass_below_entry_bound,
};
use crate::bits::{
    bitset_contents, bitset_size, bitset_new_all_set, bitset_at, bitset_unset_bit,
};
use crate::helper::as_ints;

verus! {

/// Upper bound on the model dimensions (regulators, positions, support
/// size): keeps every realized score within a machine word.
pub const MODEL_LIMIT: usize = 1024;

/// Sum over the first `m` positions of how much `row` improves on the
/// running maxima `cur`.
pub open spec fn cov_gain(row: Seq<int>, cur: Seq<int>, m: int) -> int
    decreases m,
{
    if m <= 0 {
        0
    } else {
        cov_gain(row, cur, m - 1) + if row[m - 1] > cur[m - 1] {
            row[m - 1] - cur[m - 1]
        } else {
            0
        }
    }
}

/// The row that the greedy scan over the first `k` rows picks: largest gain,
/// a later row winning ties; `(0, -1)` when no row is available.
pub open spec fn cov_argmax(reals: Seq<Seq<int>>, cur: Seq<int>, avail: Set<int>, k: int) -> (
    int,
    int,
)
    decreases k,
{
    if k <= 0 {
        (0, -1)
    } else {
        let prev = cov_argmax(reals, cur, avail, k - 1);
        if avail.contains(k - 1) && (prev.1 == -1 || cov_gain(reals[k - 1], cur, cur.len() as int)
            >= prev.0) {
            (cov_gain(reals[k - 1], cur, cur.len() as int), k - 1)
        } else {
            prev
        }
    }
}

/// Pointwise maximum of a row and the running maxima.
pub open spec fn cov_update(row: Seq<int>, cur: Seq<int>) -> Seq<int> {
    Seq::new(cur.len(), |b: int| if row[b] > cur[b] { row[b] } else { cur[b] })
}

/// The greedy coverage state after `t` rounds: running per-position maxima,
/// still-available rows, and the accumulated value.
pub open spec fn greedy_cov_state(reals: Seq<Seq<int>>, nb: int, t: int) -> (Seq<int>, Set<
    int,
>, int)
    decreases t,
{
    if t <= 0 {
        (Seq::new(nb as nat, |b: int| 0), Set::new(|i: int| 0 <= i < reals.len()), 0)
    } else {
        let (cur, avail, val) = greedy_cov_state(reals, nb, t - 1);
        let pick = cov_argmax(reals, cur, avail, reals.len() as int);
        if pick.1 == -1 {
            (cur, avail, val)
        } else {
            (cov_update(reals[pick.1], cur), avail.remove(pick.1), val + pick.0)
        }
    }
}

/// The greedy coverage value after `t` rounds.
pub open spec fn greedy_cov_value(reals: Seq<Seq<int>>, nb: int, t: int) -> int {
    greedy_cov_state(reals, nb, t).2
}

/// Gains are non-negative and bounded by `m` times the largest row entry.
pub proof fn lemma_cov_gain_bounds(row: Seq<int>, cur: Seq<int>, m: int, c: int)
    requires
        0 <= m <= row.len(),
        m <= cur.len(),
        forall|b: int| 0 <= b < row.len() ==> #[trigger] row[b] < c,
        forall|b: int| 0 <= b < cur.len() ==> #[trigger] cur[b] >= 0,
        c >= 1,
    ensures
        0 <= cov_gain(row, cur, m) <= m * (c - 1),
    decreases m,
{
    if m > 0 {
        lemma_cov_gain_bounds(row, cur, m - 1, c);
        assert((m - 1) * (c - 1) + (c - 1) == m * (c - 1)) by (nonlinear_arith);
    } else {
        assert(m * (c - 1) == 0) by (nonlinear_arith)
            requires m == 0,
        ;
    }
}

/// Folding a row into the running maxima raises their sum by exactly the
/// row's gain.
pub proof fn lemma_cov_update_mass(row: Seq<int>, cur: Seq<int>, m: int)
    requires
        0 <= m <= cur.len(),
        m <= row.len(),
    ensures
        mass_below(cov_update(row, cur), m) == mass_below(cur, m) + cov_gain(row, cur, m),
    decreases m,
{
    if m > 0 {
        lemma_cov_update_mass(row, cur, m - 1);
    }
}

/// What the greedy scan returns: a pick is available, in range, and carries
/// its own gain; and some pick is made whenever a row is available.
pub proof fn lemma_cov_argmax_found(reals: Seq<Seq<int>>, cur: Seq<int>, avail: Set<int>, k: int)
    requires
        k >= 0,
    ensures
        cov_argmax(reals, cur, avail, k).1 != -1 ==> {
            let pick = cov_argmax(reals, cur, avail, k);
            &&& 0 <= pick.1 < k
            &&& avail.contains(pick.1)
            &&& pick.0 == cov_gain(reals[pick.1], cur, cur.len() as int)
        },
        (exists|a: int| 0 <= a < k && avail.contains(a)) ==> cov_argmax(
            reals,
            cur,
            avail,
            k,
        ).1 != -1,
    decreases k,
{
    if k > 0 {
        lemma_cov_argmax_found(reals, cur, avail, k - 1);
        if exists|a: int| 0 <= a < k && avail.contains(a) {
            let a0 = choose|a: int| 0 <= a < k && avail.contains(a);
            if a0 < k - 1 {
                assert(exists|a: int| 0 <= a < k - 1 && avail.contains(a));
            }
        }
    }
}

/// Through every greedy round the available set stays a finite subset of
/// the row range and shrinks by exactly one row per round.
pub proof fn lemma_greedy_avail_card(reals: Seq<Seq<int>>, nb: int, t: int)
    requires
        0 <= t <= reals.len(),
    ensures
        greedy_cov_state(reals, nb, t).1.finite(),
        greedy_cov_state(reals, nb, t).1.len() == reals.len() - t,
        forall|a: int| greedy_cov_state(reals, nb, t).1.contains(a) ==> 0 <= a < reals.len(),
    decreases t,
{
    let full = Set::new(|i: int| 0 <= i < reals.len());
    if t == 0 {
        assert(full.finite() && full.len() == reals.len()) by {
            lemma_int_range_set(reals.len() as int);
        }
    } else {
        lemma_greedy_avail_card(reals, nb, t - 1);
        let (cur, avail, val) = greedy_cov_state(reals, nb, t - 1);
        lemma_cov_argmax_found(reals, cur, avail, reals.len() as int);
        assert(avail.len() > 0);
        assert(exists|a: int| avail.contains(a)) by {
            assert(avail.contains(avail.choose()));
        }
        let pick = cov_argmax(reals, cur, avail, reals.len() as int);
        assert(pick.1 != -1);
        assert(avail.remove(pick.1).len() == avail.len() - 1);
    }
}

/// The integer interval `[0, n)` as a set is finite with `n` members.
pub proof fn lemma_int_range_set(n: int)
    requires
        n >= 0,
    ensures
        Set::new(|i: int| 0 <= i < n).finite(),
        Set::new(|i: int| 0 <= i < n).len() == n,
    decreases n,
{
    let s = Set::new(|i: int| 0 <= i < n);
    if n == 0 {
        assert(s =~= Set::<int>::empty());
    } else {
        lemma_int_range_set(n - 1);
        let s0 = Set::new(|i: int| 0 <= i < n - 1);
        assert(s =~= s0.insert(n - 1));
    }
}

/// Runs the greedy coverage for the given number of rounds and reports the
/// accumulated value after every round.
pub fn greedy_cover_rounds(rows: &Vec<Vec<usize>>, nb: usize, vs: usize, steps: usize) -> (trace:
    Vec<usize>)
    requires
        rows@.len() <= MODEL_LIMIT,
        1 <= nb <= MODEL_LIMIT,
        1 <= vs <= MODEL_LIMIT,
        steps <= rows@.len(),
        forall|a: int| 0 <= a < rows@.len() ==> (#[trigger] rows@[a])@.len() == nb,
        forall|a: int, b: int| 0 <= a < rows@.len() && 0 <= b < nb ==>
            (#[trigger] rows@[a]@[b]) < vs,
    ensures
        trace@.len() == steps + 1,
        forall|t: int| 0 <= t <= steps ==> (#[trigger] trace@[t]) as int
            == greedy_cov_value(rows@.map_values(|r: Vec<usize>| as_ints(r@)), nb as int, t),
{
    let ghost mat = rows@.map_values(|r: Vec<usize>| as_ints(r@));
    proof {
        assert(forall|a: int| 0 <= a < mat.len() ==> #[trigger] mat[a] == as_ints(rows@[a]@));
    }
    let n = rows.len();
    let mut cur: Vec<usize> = Vec::new();
    let mut b0: usize = 0;
    while b0 < nb
        invariant
            b0 <= nb,
            cur@.len() == b0,
            forall|q: int| 0 <= q < b0 ==> (#[trigger] cur@[q]) == 0,
        decreases nb - b0,
    {
        cur.push(0);
        b0 += 1;
    }
    let mut avail = bitset_new_all_set(n);
    let mut value: usize = 0;
    let mut trace: Vec<usize> = Vec::new();
    trace.push(0);
    proof {
        assert(as_ints(cur@) =~= greedy_cov_state(mat, nb as int, 0).0);
        assert(bitset_contents(avail) =~= greedy_cov_state(mat, nb as int, 0).1);
        assert(mass_below(as_ints(cur@), nb as int) == 0) by {
            lemma_zero_mass(as_ints(cur@), nb as int);
        }
    }
    let mut t: usize = 0;
    while t < steps
        invariant
            t <= steps,
            steps <= n,
            n == rows@.len(),
            n == mat.len(),
            n <= MODEL_LIMIT,
            1 <= nb <= MODEL_LIMIT,
            1 <= vs <= MODEL_LIMIT,
            mat == rows@.map_values(|r: Vec<usize>| as_ints(r@)),
            forall|a: int| 0 <= a < mat.len() ==> #[trigger] mat[a] == as_ints(rows@[a]@),
            forall|a: int| 0 <= a < rows@.len() ==> (#[trigger] rows@[a])@.len() == nb,
            forall|a: int, b: int| 0 <= a < rows@.len() && 0 <= b < nb ==>
                (#[trigger] rows@[a]@[b]) < vs,
            cur@.len() == nb,
            as_ints(cur@) == greedy_cov_state(mat, nb as int, t as int).0,
            bitset_contents(avail) == greedy_cov_state(mat, nb as int, t as int).1,
            bitset_size(avail) == n,
            value as int == greedy_cov_state(mat, nb as int, t as int).2,
            value as int == mass_below(as_ints(cur@), nb as int),
            forall|b: int| 0 <= b < nb ==> (#[trigger] cur@[b]) < vs,
            trace@.len() == t + 1,
            forall|q: int| 0 <= q <= t ==> (#[trigger] trace@[q]) as int
                == greedy_cov_value(mat, nb as int, q),
        decreases steps - t,
    {
        let ghost cur_g = as_ints(cur@);
        let ghost avail_g = bitset_contents(avail);
        let mut best_g: usize = 0;
        let mut best_a: usize = 0;
        let mut found = false;
        let mut a: usize = 0;
        while a < n
            invariant
                a <= n,
                n == rows@.len(),
                n == mat.len(),
                1 <= nb <= MODEL_LIMIT,
                1 <= vs <= MODEL_LIMIT,
                n <= MODEL_LIMIT,
                forall|q: int| 0 <= q < mat.len() ==> #[trigger] mat[q] == as_ints(rows@[q]@),
                forall|q: int| 0 <= q < rows@.len() ==> (#[trigger] rows@[q])@.len() == nb,
                forall|q: int, b: int| 0 <= q < rows@.len() && 0 <= b < nb ==>
                    (#[trigger] rows@[q]@[b]) < vs,
                cur@.len() == nb,
                cur_g == as_ints(cur@),
                avail_g == bitset_contents(avail),
                bitset_size(avail) == n,
                forall|b: int| 0 <= b < nb ==> (#[trigger] cur@[b]) < vs,
                if found {
                    cov_argmax(mat, cur_g, avail_g, a as int) == (best_g as int, best_a as int)
                } else {
                    cov_argmax(mat, cur_g, avail_g, a as int) == (0int, -1int)
                },
                best_g <= nb * (vs - 1),
                best_a < n || !found,
            decreases n - a,
        {
            if bitset_at(&avail, a) {
                let row = &rows[a];
                let mut g: usize = 0;
                let mut b: usize = 0;
                while b < nb
                    invariant
                        b <= nb,
                        nb == row@.len(),
                        cur@.len() == nb,
                        1 <= vs <= MODEL_LIMIT,
                        nb <= MODEL_LIMIT,
                        forall|q: int| 0 <= q < nb ==> (#[trigger] row@[q]) < vs,
                        forall|q: int| 0 <= q < nb ==> (#[trigger] cur@[q]) < vs,
                        g as int == cov_gain(as_ints(row@), as_ints(cur@), b as int),
                        g <= b * (vs - 1),
                    decreases nb - b,
                {
                    proof {
                        assert((b + 1) * (vs - 1) == b * (vs - 1) + (vs - 1)) by (nonlinear_arith);
                        assert((b + 1) * (vs - 1) <= MODEL_LIMIT * MODEL_LIMIT)
                            by (nonlinear_arith)
                            requires b + 1 <= MODEL_LIMIT, 1 <= vs <= MODEL_LIMIT,
                        ;
                    }
                    if row[b] > cur[b] {
                        g = g + (row[b] - cur[b]);
                    }
                    b += 1;
                }
                proof {
                    assert(as_ints(row@) == mat[a as int]);
                    assert(nb * (vs - 1) >= b * (vs - 1)) by (nonlinear_arith)
                        requires b <= nb, vs >= 1,
                    ;
                }
                if !found || g >= best_g {
                    best_g = g;
                    best_a = a;
                    found = true;
                }
            }
            a += 1;
        }
        proof {
            lemma_greedy_avail_card(mat, nb as int, t as int);
            assert(avail_g.len() == n - t > 0);
            assert(avail_g.contains(avail_g.choose()));
            assert(exists|q: int| 0 <= q < n && avail_g.contains(q));
            lemma_cov_argmax_found(mat, cur_g, avail_g, n as int);
            assert(found);
            // the accumulated value stays the sum of the running maxima
            lemma_cov_update_mass(mat[best_a as int], cur_g, nb as int);
            lemma_cov_gain_bounds(mat[best_a as int], cur_g, nb as int, vs as int);
            lemma_mass_below_entry_bound(cur_g, nb as int, vs as int - 1);
            assert(nb * (vs - 1) + nb * (vs - 1) <= 2 * MODEL_LIMIT * MODEL_LIMIT)
                by (nonlinear_arith)
                requires 1 <= nb <= MODEL_LIMIT, 1 <= vs <= MODEL_LIMIT,
            ;
        }
        value = value + best_g;
        let _ = bitset_unset_bit(&mut avail, best_a);
        let row = &rows[best_a];
        let mut b: usize = 0;
        while b < nb
            invariant
                b <= nb,
                nb == row@.len(),
                cur@.len() == nb,
                cur_g.len() == nb,
                forall|q: int| 0 <= q < nb ==> (#[trigger] row@[q]) < vs,
                forall|q: int| 0 <= q < nb ==> (#[trigger] cur@[q]) < vs,
                forall|q: int| 0 <= q < b ==> (#[trigger] cur@[q]) as int
                    == cov_update(as_ints(row@), cur_g)[q],
                forall|q: int| b <= q < nb ==> (#[trigger] cur@[q]) as int == cur_g[q],
            decreases nb - b,
        {
            if row[b] > cur[b] {
                cur.set(b, row[b]);
            }
            b += 1;
        }
        proof {
            assert(as_ints(cur@) =~= cov_update(as_ints(row@), cur_g));
            assert(as_ints(row@) == mat[best_a as int]);
            assert(greedy_cov_state(mat, nb as int, t as int + 1)
                == (cov_update(mat[best_a as int], cur_g), avail_g.remove(best_a as int),
                    greedy_cov_state(mat, nb as int, t as int).2 + best_g as int));
        }
        trace.push(value);
        t += 1;
    }
    trace
}

/// The first cached non-adaptive coverage policy under a `(k, l)` key, with
/// its one-time compute cost in nanoseconds.
pub open spec fn find_policy(ps: Seq<(usize, usize, Vec<usize>, u64)>, k: int, l: int) -> Option<
    (Seq<usize>, u64),
>
    decreases ps.len(),
{
    if ps.len() == 0 {
        None
    } else if ps[0].0 == k && ps[0].1 == l {
        Some((ps[0].2@, ps[0].3))
    } else {
        find_policy(ps.drop_first(), k, l)
    }
}

/// The first cached entry whose own `l` is at least the asked one.
pub open spec fn find_l_entry(ps: Seq<(usize, usize, Vec<usize>, u64)>, l: int) -> Option<(
    usize,
    usize,
    Vec<usize>,
    u64,
)>
    decreases ps.len(),
{
    if ps.len() == 0 {
        None
    } else if ps[0].1 >= l {
        Some(ps[0])
    } else {
        find_l_entry(ps.drop_first(), l)
    }
}

/// The position of the cached entry with the largest own `l`, the last such
/// entry winning ties.
pub open spec fn best_l_entry(ps: Seq<(usize, usize, Vec<usize>, u64)>) -> int
    decreases ps.len(),
{
    if ps.len() <= 1 {
        0
    } else {
        let b = best_l_entry(ps.drop_last());
        if ps.last().1 >= ps[b].1 {
            ps.len() - 1
        } else {
            b
        }
    }
}

proof fn lemma_best_l_entry_in_range(ps: Seq<(usize, usize, Vec<usize>, u64)>)
    requires
        ps.len() >= 1,
    ensures
        0 <= best_l_entry(ps) < ps.len(),
    decreases ps.len(),
{
    if ps.len() > 1 {
        lemma_best_l_entry_in_range(ps.drop_last());
    }
}

/// Entries that a failed `find_l_entry` scan passed over all have a
/// smaller own `l` than asked.
pub proof fn lemma_find_l_entry_none(ps: Seq<(usize, usize, Vec<usize>, u64)>, l: int)
    requires
        find_l_entry(ps, l).is_none(),
    ensures
        forall|q: int| 0 <= q < ps.len() ==> (#[trigger] ps[q]).1 < l,
    decreases ps.len(),
{
    if ps.len() > 0 {
        lemma_find_l_entry_none(ps.drop_first(), l);
        assert(forall|q: int| 0 <= q < ps.len() - 1 ==>
            ps.drop_first()[q] == #[trigger] ps[q + 1]);
        assert forall|q: int| 0 <= q < ps.len() implies (#[trigger] ps[q]).1 < l by {
            if q > 0 {
                assert(ps.drop_first()[q - 1] == ps[q]);
            }
        }
    }
}

/// The probing model: `na` regulators, `nb` positions, edge distributions
/// over `{0, .., vs-1}`, and a cache of solved non-adaptive coverage
/// policies keyed by `(k, l)`.
#[derive(Debug, Clone)]
pub struct BipartiteRegulatorProbing {
    /// Number of regulators.
    pub na: usize,
    /// Number of positions.
    pub nb: usize,
    /// Size of the support of every edge distribution.
    pub vs: usize,
    /// Edge distributions, one per (regulator, position) pair.
    pub edges: Vec<Vec<WeightedDistribution>>,
    /// Cached `(k, l, policy, nanoseconds)` coverage policies.
    pub non_adaptive_cov_policies: Vec<(usize, usize, Vec<usize>, u64)>,
}

impl BipartiteRegulatorProbing {
    /// Structural invariant: dimensions in range, a well-formed validated
    /// distribution with full mass on every edge, matching pre-drawn sample
    /// streams, and cached policies that index real regulators.
    pub open spec fn wf(&self) -> bool {
        &&& 1 <= self.na <= MODEL_LIMIT
        &&& 1 <= self.nb <= MODEL_LIMIT
        &&& 1 <= self.vs <= MODEL_LIMIT
        &&& self.edges@.len() == self.na
        &&& forall|a: int| 0 <= a < self.na ==> (#[trigger] self.edges@[a])@.len() == self.nb
        &&& forall|a: int, b: int| 0 <= a < self.na && 0 <= b < self.nb ==>
            (#[trigger] self.edges@[a]@[b]).wf()
        &&& forall|a: int, b: int| 0 <= a < self.na && 0 <= b < self.nb ==>
            (#[trigger] self.edges@[a]@[b]).probs@.len() == self.vs
        &&& forall|a: int, b: int| 0 <= a < self.na && 0 <= b < self.nb ==>
            dist_total((#[trigger] self.edges@[a]@[b]).pmf()) == PROB_SCALE
        &&& forall|a: int, b: int| 0 <= a < self.na && 0 <= b < self.nb ==>
            (#[trigger] self.edges@[a]@[b]).samples@.len() == self.spec_num_samples()
        &&& forall|q: int| 0 <= q < self.non_adaptive_cov_policies@.len() ==> {
            let e = #[trigger] self.non_adaptive_cov_policies@[q];
            &&& e.2@.len() == e.0
            &&& e.0 <= self.na
            &&& forall|t: int| 0 <= t < e.2@.len() ==> (#[trigger] e.2@[t]) < self.na
            &&& forall|t1: int, t2: int| 0 <= t1 < t2 < e.2@.len() ==>
                (#[trigger] e.2@[t1]) != (#[trigger] e.2@[t2])
        }
    }

    /// How many realizations were pre-drawn per edge.
    pub open spec fn spec_num_samples(&self) -> int {
        self.edges@[0]@[0].samples@.len() as int
    }

    /// The probability vectors of one regulator's edges.
    pub open spec fn regulator_pmfs(&self, a: int) -> Seq<Seq<int>> {
        self.edges@[a]@.map_values(|d: WeightedDistribution| d.pmf())
    }

    /// Builds a model from already-validated edge distributions.
    pub fn new(na: usize, nb: usize, vs: usize, edges: Vec<Vec<WeightedDistribution>>) -> (r:
        BipartiteRegulatorProbing)
        requires
            1 <= na <= MODEL_LIMIT,
            1 <= nb <= MODEL_LIMIT,
            1 <= vs <= MODEL_LIMIT,
            edges@.len() == na,
            forall|a: int| 0 <= a < na ==> (#[trigger] edges@[a])@.len() == nb,
            forall|a: int, b: int| 0 <= a < na && 0 <= b < nb ==>
                (#[trigger] edges@[a]@[b]).wf(),
            forall|a: int, b: int| 0 <= a < na && 0 <= b < nb ==>
                (#[trigger] edges@[a]@[b]).probs@.len() == vs,
            forall|a: int, b: int| 0 <= a < na && 0 <= b < nb ==>
                dist_total((#[trigger] edges@[a]@[b]).pmf()) == PROB_SCALE,
            forall|a: int, b: int| 0 <= a < na && 0 <= b < nb ==>
                (#[trigger] edges@[a]@[b]).samples@.len() == edges@[0]@[0].samples@.len(),
        ensures
            r.wf(),
            r.na == na,
            r.nb == nb,
            r.vs == vs,
            r.edges@ == edges@,
            r.non_adaptive_cov_policies@.len() == 0,
    {
        BipartiteRegulatorProbing { na, nb, vs, edges, non_adaptive_cov_policies: Vec::new() }
    }

    /// Number of regulators.
    #[inline]
    pub fn get_na(&self) -> (r: usize)
        ensures
            r == self.na,
    {
        self.na
    }

    /// Number of positions.
    #[inline]
    pub fn get_nb(&self) -> (r: usize)
        ensures
            r == self.nb,
    {
        self.nb
    }

    /// Size of the support.
    #[inline]
    pub fn get_vs(&self) -> (r: usize)
        ensures
            r == self.vs,
    {
        self.vs
    }

    /// The distributions of all edges incident to regulator `a`.
    #[inline]
    pub fn get_regulator(&self, a: usize) -> (r: &Vec<WeightedDistribution>)
        requires
            self.wf(),
            a < self.na,
        ensures
            r@ == self.edges@[a as int]@,
    {
        &self.edges[a]
    }

    /// The distribution of edge `(a, b)`.
    #[inline]
    pub fn get_edge(&self, a: usize, b: usize) -> (r: &WeightedDistribution)
        requires
            self.wf(),
            a < self.na,
            b < self.nb,
        ensures
            *r == self.edges@[a as int]@[b as int],
    {
        &self.edges[a][b]
    }

    /// Whether a policy is cached under `(k, l)`.
    #[inline]
    pub fn has_policy(&self, k: usize, l: usize) -> (r: bool)
        ensures
            r == find_policy(self.non_adaptive_cov_policies@, k as int, l as int).is_some(),
    {
        let ps = &self.non_adaptive_cov_policies;
        let ghost whole = ps@;
        proof {
            assert(whole.skip(0) =~= whole);
        }
        let mut i: usize = 0;
        while i < ps.len()
            invariant
                i <= ps@.len(),
                ps@ == whole,
                whole == self.non_adaptive_cov_policies@,
                find_policy(whole, k as int, l as int)
                    == find_policy(whole.skip(i as int), k as int, l as int),
            decreases ps@.len() - i,
        {
            let e = &ps[i];
            proof {
                assert(whole.skip(i as int)[0] == whole[i as int]);
                assert(whole.skip(i as int).drop_first() =~= whole.skip(i as int + 1));
                if whole[i as int].0 == k && whole[i as int].1 == l {
                    assert(find_policy(whole.skip(i as int), k as int, l as int)
                        == Some((whole[i as int].2@, whole[i as int].3)));
                }
            }
            if e.0 == k && e.1 == l {
                return true;
            }
            i += 1;
        }
        proof {
            assert(whole.skip(i as int).len() == 0);
        }
        false
    }

    /// The cached policy under `(k, l)`, if any: the first caller's result,
    /// reused verbatim.
    #[inline]
    pub fn get_policy(&self, k: usize, l: usize) -> (r: Option<&Vec<usize>>)
        ensures
            match r {
                Some(p) => {
                    &&& find_policy(self.non_adaptive_cov_policies@, k as int, l as int).is_some()
                    &&& p@ == find_policy(
                        self.non_adaptive_cov_policies@, k as int, l as int).unwrap().0
                },
                None => find_policy(
                    self.non_adaptive_cov_policies@, k as int, l as int).is_none(),
            },
    {
        let ps = &self.non_adaptive_cov_policies;
        let ghost whole = ps@;
        proof {
            assert(whole.skip(0) =~= whole);
        }
        let mut i: usize = 0;
        while i < ps.len()
            invariant
                i <= ps@.len(),
                ps@ == whole,
                whole == self.non_adaptive_cov_policies@,
                find_policy(whole, k as int, l as int)
                    == find_policy(whole.skip(i as int), k as int, l as int),
            decreases ps@.len() - i,
        {
            let e = &ps[i];
            proof {
                assert(whole.skip(i as int)[0] == whole[i as int]);
                assert(whole.skip(i as int).drop_first() =~= whole.skip(i as int + 1));
                if whole[i as int].0 == k && whole[i as int].1 == l {
                    assert(find_policy(whole.skip(i as int), k as int, l as int)
                        == Some((whole[i as int].2@, whole[i as int].3)));
                }
            }
            if e.0 == k && e.1 == l {
                return Some(&e.2);
            }
            i += 1;
        }
        proof {
            assert(whole.skip(i as int).len() == 0);
        }
        None
    }

    /// The one-time compute cost of the cached policy under `(k, l)`.
    #[inline]
    pub fn get_policy_time(&self, k: usize, l: usize) -> (r: Option<u64>)
        ensures
            match r {
                Some(t) => {
                    &&& find_policy(self.non_adaptive_cov_policies@, k as int, l as int).is_some()
                    &&& t == find_policy(
                        self.non_adaptive_cov_policies@, k as int, l as int).unwrap().1
                },
                None => find_policy(
                    self.non_adaptive_cov_policies@, k as int, l as int).is_none(),
            },
    {
        let ps = &self.non_adaptive_cov_policies;
        let ghost whole = ps@;
        proof {
            assert(whole.skip(0) =~= whole);
        }
        let mut i: usize = 0;
        while i < ps.len()
            invariant
                i <= ps@.len(),
                ps@ == whole,
                whole == self.non_adaptive_cov_policies@,
                find_policy(whole, k as int, l as int)
                    == find_policy(whole.skip(i as int), k as int, l as int),
            decreases ps@.len() - i,
        {
            let e = &ps[i];
            proof {
                assert(whole.skip(i as int)[0] == whole[i as int]);
                assert(whole.skip(i as int).drop_first() =~= whole.skip(i as int + 1));
                if whole[i as int].0 == k && whole[i as int].1 == l {
                    assert(find_policy(whole.skip(i as int), k as int, l as int)
                        == Some((whole[i as int].2@, whole[i as int].3)));
                }
            }
            if e.0 == k && e.1 == l {
                return Some(e.3);
            }
            i += 1;
        }
        proof {
            assert(whole.skip(i as int).len() == 0);
        }
        None
    }

    /// The probe list `get_l_policy` hands back: the first `l` probes of the
    /// first cached policy with at least `l` choosable regulators; failing
    /// that, the longest cached policy truncated to its own `l`; with an
    /// empty cache, nothing.
    pub open spec fn l_policy_spec(&self, l: int) -> Seq<usize> {
        let ps = self.non_adaptive_cov_policies@;
        if ps.len() == 0 {
            Seq::empty()
        } else {
            match find_l_entry(ps, l) {
                Some(e) => e.2@.take(if l <= e.2@.len() { l } else { e.2@.len() as int }),
                None => {
                    let e = ps[best_l_entry(ps)];
                    e.2@.take(if e.1 <= e.2@.len() { e.1 as int } else { e.2@.len() as int })
                },
            }
        }
    }

    /// The first `l` probes of a cached policy with at least `l` choosable
    /// regulators; failing that, the longest cached policy truncated to its
    /// own `l`; with an empty cache, nothing.
    pub fn get_l_policy(&self, l: usize) -> (r: (Vec<usize>, u64))
        requires
            self.wf(),
        ensures
            r.0@.len() <= self.na,
            forall|t: int| 0 <= t < r.0@.len() ==> (#[trigger] r.0@[t]) < self.na,
            self.non_adaptive_cov_policies@.len() == 0 ==> r.0@.len() == 0 && r.1 == 0,
            r.0@ == self.l_policy_spec(l as int),
            forall|t1: int, t2: int| 0 <= t1 < t2 < r.0@.len() ==>
                (#[trigger] r.0@[t1]) != (#[trigger] r.0@[t2]),
            l <= self.na ==> r.0@.len() <= l,
    {
        let ps = &self.non_adaptive_cov_policies;
        let ghost whole = ps@;
        if ps.len() == 0 {
            return (Vec::new(), 0);
        }
        proof {
            assert(whole.skip(0) =~= whole);
        }
        let mut i: usize = 0;
        while i < ps.len()
            invariant
                i <= ps@.len(),
                ps@ == whole,
                self.wf(),
                self.non_adaptive_cov_policies@ == whole,
                find_l_entry(whole, l as int) == find_l_entry(whole.skip(i as int), l as int),
            decreases ps@.len() - i,
        {
            let e = &ps[i];
            proof {
                assert(whole.skip(i as int)[0] == whole[i as int]);
                assert(whole.skip(i as int).drop_first() =~= whole.skip(i as int + 1));
            }
            if e.1 >= l {
                proof {
                    assert(self.non_adaptive_cov_policies@[i as int] == whole[i as int]);
                    assert(find_l_entry(whole.skip(i as int), l as int)
                        == Some(whole[i as int]));
                }
                let cut = if l <= e.2.len() { l } else { e.2.len() };
                let p = copy_prefix(&e.2, cut);
                proof {
                    assert(forall|t: int| 0 <= t < p@.len() ==> (#[trigger] p@[t]) == e.2@[t]);
                }
                return (p, e.3);
            }
            i += 1;
        }
        proof {
            assert(whole.skip(i as int).len() == 0);
            lemma_best_l_entry_in_range(whole);
        }
        let mut b: usize = 0;
        let mut q: usize = 1;
        while q < ps.len()
            invariant
                1 <= q <= ps@.len(),
                b < q,
                ps@ == whole,
                b as int == best_l_entry(whole.take(q as int)),
            decreases ps@.len() - q,
        {
            proof {
                assert(whole.take(q as int + 1).drop_last() =~= whole.take(q as int));
                assert(whole.take(q as int + 1).last() == whole[q as int]);
            }
            if ps[q].1 >= ps[b].1 {
                b = q;
            }
            q += 1;
        }
        proof {
            assert(whole.take(ps@.len() as int) =~= whole);
        }
        let e = &ps[b];
        proof {
            assert(self.non_adaptive_cov_policies@[b as int] == whole[b as int]);
            lemma_find_l_entry_none(whole, l as int);
        }
        let cut = if e.1 <= e.2.len() { e.1 } else { e.2.len() };
        let p = copy_prefix(&e.2, cut);
        proof {
            assert(forall|t: int| 0 <= t < p@.len() ==> (#[trigger] p@[t]) == e.2@[t]);
        }
        (p, e.3)
    }

    /// Caches a solved policy for a `(k, l)` pair, with its compute cost.
    #[inline]
    pub fn add_policy(&mut self, k: usize, l: usize, policy: Vec<usize>, time: u64)
        requires
            old(self).wf(),
            policy@.len() == k,
            k <= old(self).na,
            forall|t: int| 0 <= t < policy@.len() ==> (#[trigger] policy@[t]) < old(self).na,
            forall|t1: int, t2: int| 0 <= t1 < t2 < policy@.len() ==>
                (#[trigger] policy@[t1]) != (#[trigger] policy@[t2]),
        ensures
            final(self).wf(),
            final(self).na == old(self).na,
            final(self).nb == old(self).nb,
            final(self).vs == old(self).vs,
            final(self).edges@ == old(self).edges@,
            final(self).non_adaptive_cov_policies@
                == old(self).non_adaptive_cov_policies@.push((k, l, policy, time)),
    {
        self.non_adaptive_cov_policies.push((k, l, policy, time));
    }

    /// One sampled realization of the whole model, by trial index.
    pub fn create_instance(&self, instance_index: usize) -> (r: Instance)
        requires
            self.wf(),
            instance_index < self.spec_num_samples(),
        ensures
            r.wf(),
            r.na == self.na,
            r.nb == self.nb,
            r.vs == self.vs,
            forall|a: int, b: int| 0 <= a < self.na && 0 <= b < self.nb ==>
                (#[trigger] r.realizations@[a]@[b])
                    == self.edges@[a]@[b].samples@[instance_index as int],
    {
        Instance::new(self, instance_index)
    }
}

/// The first `cut` entries of a vector, copied.
fn copy_prefix(v: &Vec<usize>, cut: usize) -> (r: Vec<usize>)
    requires
        cut <= v@.len(),
    ensures
        r@ == v@.take(cut as int),
{
    let mut r: Vec<usize> = Vec::new();
    let mut i: usize = 0;
    while i < cut
        invariant
            i <= cut <= v@.len(),
            r@.len() == i,
            forall|t: int| 0 <= t < i ==> (#[trigger] r@[t]) == v@[t],
        decreases cut - i,
    {
        r.push(v[i]);
        i += 1;
    }
    proof {
        assert(r@ =~= v@.take(cut as int));
    }
    r
}

/// One sampled realization of a probing model: a realized value for every
/// edge, and the greedy coverage value after every number of rounds.
#[derive(Debug, Clone)]
pub struct Instance {
    /// Number of regulators.
    pub na: usize,
    /// Number of positions.
    pub nb: usize,
    /// Size of the support.
    pub vs: usize,
    /// Realized value of each edge.
    pub realizations: Vec<Vec<usize>>,
    /// Greedy coverage value after `t` rounds, for `t` in `0..=na`.
    pub greedy_cov_values: Vec<usize>,
}

impl Instance {
    /// The realization matrix, as mathematical integers.
    pub open spec fn real_mat(&self) -> Seq<Seq<int>> {
        self.realizations@.map_values(|r: Vec<usize>| as_ints(r@))
    }

    /// Structural invariant: a full matrix of in-range realized values and a
    /// correct greedy coverage trace.
    pub open spec fn wf(&self) -> bool {
        &&& 1 <= self.na <= MODEL_LIMIT
        &&& 1 <= self.nb <= MODEL_LIMIT
        &&& 1 <= self.vs <= MODEL_LIMIT
        &&& self.realizations@.len() == self.na
        &&& forall|a: int| 0 <= a < self.na ==> (#[trigger] self.realizations@[a])@.len() == self.nb
        &&& forall|a: int, b: int| 0 <= a < self.na && 0 <= b < self.nb ==>
            (#[trigger] self.realizations@[a]@[b]) < self.vs
        &&& self.greedy_cov_values@.len() == self.na + 1
        &&& forall|t: int| 0 <= t <= self.na ==> (#[trigger] self.greedy_cov_values@[t]) as int
            == greedy_cov_value(self.real_mat(), self.nb as int, t)
    }

    /// Draws the trial's realization of every edge and computes the greedy
    /// coverage value of every prefix of rounds.
    pub fn new(bpr: &BipartiteRegulatorProbing, instance_index: usize) -> (r: Instance)
        requires
            bpr.wf(),
            instance_index < bpr.spec_num_samples(),
        ensures
            r.wf(),
            r.na == bpr.na,
            r.nb == bpr.nb,
            r.vs == bpr.vs,
            forall|a: int, b: int| 0 <= a < bpr.na && 0 <= b < bpr.nb ==>
                (#[trigger] r.realizations@[a]@[b])
                    == bpr.edges@[a]@[b].samples@[instance_index as int],
    {
        let na = bpr.get_na();
        let nb = bpr.get_nb();
        let mut realizations: Vec<Vec<usize>> = Vec::new();
        let mut a: usize = 0;
        while a < na
            invariant
                a <= na,
                na == bpr.na,
                nb == bpr.nb,
                bpr.wf(),
                instance_index < bpr.spec_num_samples(),
                realizations@.len() == a,
                forall|q: int| 0 <= q < a ==> (#[trigger] realizations@[q])@.len() == nb,
                forall|q: int, b: int| 0 <= q < a && 0 <= b < nb ==>
                    (#[trigger] realizations@[q]@[b])
                        == bpr.edges@[q]@[b].samples@[instance_index as int],
                forall|q: int, b: int| 0 <= q < a && 0 <= b < nb ==>
                    (#[trigger] realizations@[q]@[b]) < bpr.vs,
            decreases na - a,
        {
            let mut row: Vec<usize> = Vec::new();
            let mut b: usize = 0;
            while b < nb
                invariant
                    b <= nb,
                    a < na,
                    na == bpr.na,
                    nb == bpr.nb,
                    bpr.wf(),
                    instance_index < bpr.spec_num_samples(),
                    row@.len() == b,
                    forall|q: int| 0 <= q < b ==> (#[trigger] row@[q])
                        == bpr.edges@[a as int]@[q].samples@[instance_index as int],
                    forall|q: int| 0 <= q < b ==> (#[trigger] row@[q]) < bpr.vs,
                decreases nb - b,
            {
                row.push(bpr.get_edge(a, b).get_sample(instance_index));
                b += 1;
            }
            realizations.push(row);
            a += 1;
        }
        let greedy_cov_values = greedy_cover_rounds(&realizations, nb, bpr.get_vs(), na);
        Instance { na, nb, vs: bpr.vs, realizations, greedy_cov_values }
    }

    /// The realized value of edge `(a, b)`.
    #[inline]
    pub fn get_realization(&self, a: usize, b: usize) -> (r: usize)
        requires
            self.wf(),
            a < self.na,
            b < self.nb,
        ensures
            r as int == self.real_mat()[a as int][b as int],
            r < self.vs,
    {
        self.realizations[a][b]
    }

    /// The greedy coverage value of `l` rounds over the whole model: the
    /// full-information offline baseline.
    #[inline]
    pub fn get_opt_cov_value(&self, l: usize) -> (r: usize)
        requires
            self.wf(),
            l <= self.na,
        ensures
            r as int == greedy_cov_value(self.real_mat(), self.nb as int, l as int),
    {
        self.greedy_cov_values[l]
    }
}

/// The largest value of column `b` among the first `k` rows, zero when
/// there are none.
pub open spec fn col_max(mat: Seq<Seq<int>>, b: int, k: int) -> int
    decreases k,
{
    if k <= 0 {
        0
    } else {
        let m = col_max(mat, b, k - 1);
        if mat[k - 1][b] > m {
            mat[k - 1][b]
        } else {
            m
        }
    }
}

/// Sum over the first `m` columns of the per-column maxima.
pub open spec fn cols_max_sum(mat: Seq<Seq<int>>, m: int) -> int
    decreases m,
{
    if m <= 0 {
        0
    } else {
        cols_max_sum(mat, m - 1) + col_max(mat, m - 1, mat.len() as int)
    }
}

impl Instance {
    /// The realization rows of the given regulators, in policy order.
    pub open spec fn picked_rows(&self, policy: Seq<usize>) -> Seq<Seq<int>> {
        policy.map_values(|a: usize| self.real_mat()[a as int])
    }

    /// Scores a probed subset: with exactly `l` regulators, the union of
    /// per-position maxima; with more, the value that `l` greedy coverage
    /// rounds over the subset reach.
    pub fn eval_policy(&self, policy: &Vec<usize>, l: usize) -> (r: usize)
        requires
            self.wf(),
            l <= policy@.len(),
            policy@.len() <= self.na,
            forall|q: int| 0 <= q < policy@.len() ==> (#[trigger] policy@[q]) < self.na,
        ensures
            policy@.len() == l ==> r as int == cols_max_sum(
                self.picked_rows(policy@), self.nb as int),
            policy@.len() != l ==> r as int == greedy_cov_value(
                self.picked_rows(policy@), self.nb as int, l as int),
    {
        let ghost mat = self.picked_rows(policy@);
        proof {
            assert(forall|q: int| 0 <= q < policy@.len() ==> #[trigger] mat[q]
                == as_ints(self.realizations@[policy@[q] as int]@));
        }
        if policy.len() == l {
            let mut total: usize = 0;
            let mut b: usize = 0;
            while b < self.nb
                invariant
                    b <= self.nb,
                    self.wf(),
                    l <= policy@.len() <= self.na,
                    forall|q: int| 0 <= q < policy@.len() ==> (#[trigger] policy@[q]) < self.na,
                    mat == self.picked_rows(policy@),
                    forall|q: int| 0 <= q < policy@.len() ==> #[trigger] mat[q]
                        == as_ints(self.realizations@[policy@[q] as int]@),
                    total as int == cols_max_sum(mat, b as int),
                    total <= b * (self.vs - 1),
                decreases self.nb - b,
            {
                let mut m: usize = 0;
                let mut q: usize = 0;
                while q < policy.len()
                    invariant
                        q <= policy@.len(),
                        b < self.nb,
                        self.wf(),
                        policy@.len() <= self.na,
                        forall|t: int| 0 <= t < policy@.len() ==>
                            (#[trigger] policy@[t]) < self.na,
                        mat == self.picked_rows(policy@),
                        forall|t: int| 0 <= t < policy@.len() ==> #[trigger] mat[t]
                            == as_ints(self.realizations@[policy@[t] as int]@),
                        m as int == col_max(mat, b as int, q as int),
                        m < self.vs,
                    decreases policy@.len() - q,
                {
                    let x = self.realizations[policy[q]][b];
                    if x > m {
                        m = x;
                    }
                    q += 1;
                }
                proof {
                    assert((b + 1) * (self.vs - 1) == b * (self.vs - 1) + (self.vs - 1))
                        by (nonlinear_arith);
                    assert(b * (self.vs - 1) <= MODEL_LIMIT * MODEL_LIMIT) by (nonlinear_arith)
                        requires b <= MODEL_LIMIT, 1 <= self.vs <= MODEL_LIMIT,
                    ;
                }
                total = total + m;
                b += 1;
            }
            total
        } else {
            let mut rows: Vec<Vec<usize>> = Vec::new();
            let mut q: usize = 0;
            while q < policy.len()
                invariant
                    q <= policy@.len(),
                    self.wf(),
                    policy@.len() <= self.na,
                    forall|t: int| 0 <= t < policy@.len() ==>
                        (#[trigger] policy@[t]) < self.na,
                    rows@.len() == q,
                    forall|t: int| 0 <= t < q ==> (#[trigger] rows@[t])@
                        == self.realizations@[policy@[t] as int]@,
                decreases policy@.len() - q,
            {
                let row = copy_prefix(&self.realizations[policy[q]], self.realizations[policy[q]].len());
                proof {
                    assert(self.realizations@[policy@[q as int] as int]@.take(
                        self.realizations@[policy@[q as int] as int]@.len() as int)
                        =~= self.realizations@[policy@[q as int] as int]@);
                }
                rows.push(row);
                q += 1;
            }
            let trace = greedy_cover_rounds(&rows, self.nb, self.vs, l);
            proof {
                assert(rows@.map_values(|r: Vec<usize>| as_ints(r@)) =~= mat);
            }
            trace[l]
        }
    }
}

/// Every index drawn in order: the identity ranking.
pub open spec fn identity_seq(n: int) -> Seq<usize> {
    Seq::new(n as nat, |i: int| i as usize)
}

/// The canonical non-adaptive ranking over a list of reduced distributions:
/// indices ordered by weakly descending expectation with ties toward the
/// smaller index, each index appearing exactly once.
pub open spec fn ranked_by_expectation(boxes: Seq<WeightedDistribution>, p: Seq<usize>) -> bool {
    &&& p.len() == boxes.len()
    &&& forall|q: int| 0 <= q < p.len() ==> (#[trigger] p[q]) < boxes.len()
    &&& forall|i: int, j: int| 0 <= i < j < p.len() ==> {
        let ei = dist_expectation(boxes[#[trigger] p[i] as int].pmf());
        let ej = dist_expectation(boxes[#[trigger] p[j] as int].pmf());
        ei > ej || (ei == ej && p[i] <= p[j])
    }
    &&& p.to_multiset() == identity_seq(boxes.len() as int).to_multiset()
}

/// A probe-max problem: one reduced distribution per regulator, and the
/// canonical non-adaptive ranking with its compute cost.
pub struct ProbeMax {
    /// Number of boxes (regulators).
    pub n: usize,
    /// Size of the reduced support.
    pub v: usize,
    /// Reduced distribution of each box.
    pub boxes: Vec<WeightedDistribution>,
    /// The expectation ranking and the nanoseconds it took to compute.
    pub non_adaptive_policy: (Vec<usize>, u64),
}

impl ProbeMax {
    /// Structural invariant.
    pub open spec fn wf(&self) -> bool {
        &&& 1 <= self.n <= MODEL_LIMIT
        &&& 1 <= self.v <= MODEL_LIMIT * MODEL_LIMIT
        &&& self.boxes@.len() == self.n
        &&& forall|a: int| 0 <= a < self.n ==> (#[trigger] self.boxes@[a]).wf()
        &&& forall|a: int| 0 <= a < self.n ==>
            (#[trigger] self.boxes@[a]).probs@.len() == self.v
        &&& forall|a: int| 0 <= a < self.n ==>
            (#[trigger] self.boxes@[a]).samples@.len() == self.boxes@[0].samples@.len()
        &&& ranked_by_expectation(self.boxes@, self.non_adaptive_policy.0@)
    }

    /// How many realizations were pre-drawn per box.
    pub open spec fn spec_num_samples(&self) -> int {
        self.boxes@[0].samples@.len() as int
    }

    /// Number of boxes.
    #[inline]
    pub fn get_n(&self) -> (r: usize)
        ensures
            r == self.n,
    {
        self.n
    }

    /// Size of the reduced support.
    #[inline]
    pub fn get_v(&self) -> (r: usize)
        ensures
            r == self.v,
    {
        self.v
    }

    /// All boxes.
    #[inline]
    pub fn get_boxes(&self) -> (r: &Vec<WeightedDistribution>)
        ensures
            r@ == self.boxes@,
    {
        &self.boxes
    }

    /// One box.
    #[inline]
    pub fn get_box(&self, i: usize) -> (r: &WeightedDistribution)
        requires
            self.wf(),
            i < self.n,
        ensures
            *r == self.boxes@[i as int],
    {
        &self.boxes[i]
    }

    /// The non-adaptive expectation ranking.
    #[inline]
    pub fn get_policy(&self) -> (r: &Vec<usize>)
        ensures
            r@ == self.non_adaptive_policy.0@,
    {
        &self.non_adaptive_policy.0
    }

    /// The one-time cost of computing the ranking, in nanoseconds.
    #[inline]
    pub fn get_policy_time(&self) -> (r: u64)
        ensures
            r == self.non_adaptive_policy.1,
    {
        self.non_adaptive_policy.1
    }

    /// Reduces every regulator's edge distributions by MAX.
    pub fn from_bpr_max(bpr: &BipartiteRegulatorProbing) -> (r: ProbeMax)
        requires
            bpr.wf(),
        ensures
            r.wf(),
            r.n == bpr.na,
            r.v == bpr.vs,
            r.spec_num_samples() == bpr.spec_num_samples(),
            forall|a: int, i: int| 0 <= a < bpr.na && 0 <= i < bpr.vs ==>
                (#[trigger] r.boxes@[a].pmf()[i])
                    == max_cdf(bpr.regulator_pmfs(a), bpr.vs as int, i + 1)
                    - max_cdf(bpr.regulator_pmfs(a), bpr.vs as int, i),
            forall|a: int, j: int| 0 <= a < bpr.na && 0 <= j < bpr.spec_num_samples() ==>
                (#[trigger] r.boxes@[a].samples@[j]) as int
                    == max_sample_upto(bpr.edges@[a]@, j, bpr.nb as int),
    {
        let n = bpr.get_na();
        let v = bpr.get_vs();
        let mut boxes: Vec<WeightedDistribution> = Vec::new();
        let mut a: usize = 0;
        while a < n
            invariant
                a <= n,
                n == bpr.na,
                v == bpr.vs,
                bpr.wf(),
                boxes@.len() == a,
                forall|q: int| 0 <= q < a ==> (#[trigger] boxes@[q]).wf(),
                forall|q: int| 0 <= q < a ==> (#[trigger] boxes@[q]).probs@.len() == v,
                forall|q: int| 0 <= q < a ==>
                    (#[trigger] boxes@[q]).samples@.len() == bpr.spec_num_samples(),
                forall|q: int, i: int| 0 <= q < a && 0 <= i < v ==>
                    (#[trigger] boxes@[q].pmf()[i])
                        == max_cdf(bpr.regulator_pmfs(q), v as int, i + 1)
                        - max_cdf(bpr.regulator_pmfs(q), v as int, i),
                forall|q: int, j: int| 0 <= q < a && 0 <= j < bpr.spec_num_samples() ==>
                    (#[trigger] boxes@[q].samples@[j]) as int
                        == max_sample_upto(bpr.edges@[q]@, j, bpr.nb as int),
            decreases n - a,
        {
            let row = bpr.get_regulator(a);
            let d = WeightedDistribution::max_distribution(row);
            proof {
                assert(row@.map_values(|x: WeightedDistribution| x.pmf())
                    =~= bpr.regulator_pmfs(a as int));
            }
            boxes.push(d);
            a += 1;
        }
        let non_adaptive_policy = ProbeMax::compute_namp_policy(&boxes);
        ProbeMax { n, v, boxes, non_adaptive_policy }
    }

    /// Reduces every regulator's edge distributions by SUM.
    pub fn from_bpr_sum(bpr: &BipartiteRegulatorProbing) -> (r: ProbeMax)
        requires
            bpr.wf(),
        ensures
            r.wf(),
            r.n == bpr.na,
            r.v == (bpr.vs - 1) * bpr.nb + 1,
            r.spec_num_samples() == bpr.spec_num_samples(),
            forall|a: int| 0 <= a < bpr.na ==> (#[trigger] r.boxes@[a]).pmf()
                == crate::distributions::pair_reduce(bpr.regulator_pmfs(a)),
            forall|a: int, j: int| 0 <= a < bpr.na && 0 <= j < bpr.spec_num_samples() ==>
                (#[trigger] r.boxes@[a].samples@[j]) as int
                    == crate::distributions::sum_sample_upto(bpr.edges@[a]@, j, bpr.nb as int),
    {
        let n = bpr.get_na();
        proof {
            assert(((bpr.vs - 1) * bpr.nb + 1) <= MODEL_LIMIT * MODEL_LIMIT) by (nonlinear_arith)
                requires 1 <= bpr.vs <= MODEL_LIMIT, 1 <= bpr.nb <= MODEL_LIMIT,
            ;
            assert(1 <= (bpr.vs - 1) * bpr.nb + 1) by (nonlinear_arith)
                requires 1 <= bpr.vs, 1 <= bpr.nb,
            ;
        }
        let v = (bpr.get_vs() - 1) * bpr.get_nb() + 1;
        let mut boxes: Vec<WeightedDistribution> = Vec::new();
        let mut a: usize = 0;
        while a < n
            invariant
                a <= n,
                n == bpr.na,
                v == (bpr.vs - 1) * bpr.nb + 1,
                v <= MODEL_LIMIT * MODEL_LIMIT,
                v >= 1,
                bpr.wf(),
                boxes@.len() == a,
                forall|q: int| 0 <= q < a ==> (#[trigger] boxes@[q]).wf(),
                forall|q: int| 0 <= q < a ==> (#[trigger] boxes@[q]).probs@.len() == v,
                forall|q: int| 0 <= q < a ==>
                    (#[trigger] boxes@[q]).samples@.len() == bpr.spec_num_samples(),
                forall|q: int| 0 <= q < a ==> (#[trigger] boxes@[q]).pmf()
                    == crate::distributions::pair_reduce(bpr.regulator_pmfs(q)),
                forall|q: int, j: int| 0 <= q < a && 0 <= j < bpr.spec_num_samples() ==>
                    (#[trigger] boxes@[q].samples@[j]) as int
                        == crate::distributions::sum_sample_upto(bpr.edges@[q]@, j, bpr.nb as int),
            decreases n - a,
        {
            let row = bpr.get_regulator(a);
            proof {
                lemma_uniform_lens_upto(row@, bpr.nb as int, bpr.vs as int);
                assert(crate::distributions::lens_upto(row@, bpr.nb as int)
                    == bpr.nb * bpr.vs);
                assert(bpr.nb * bpr.vs - (bpr.nb - 1) == (bpr.vs - 1) * bpr.nb + 1)
                    by (nonlinear_arith);
                assert(bpr.nb * bpr.vs - (bpr.nb - 1) <= crate::distributions::MAX_SUPPORT)
                    by (nonlinear_arith)
                    requires 1 <= bpr.vs <= MODEL_LIMIT, 1 <= bpr.nb <= MODEL_LIMIT,
                ;
            }
            let d = WeightedDistribution::sum_distribution(row);
            proof {
                assert(row@.map_values(|x: WeightedDistribution| x.pmf())
                    =~= bpr.regulator_pmfs(a as int));
            }
            boxes.push(d);
            a += 1;
        }
        let non_adaptive_policy = ProbeMax::compute_namp_policy(&boxes);
        ProbeMax { n, v, boxes, non_adaptive_policy }
    }

    /// One sampled realization of every box, by trial index.
    pub fn create_instance(&self, instance_index: usize) -> (r: ProbeMaxInstance)
        requires
            self.wf(),
            instance_index < self.spec_num_samples(),
        ensures
            r.wf(),
            r.n == self.n,
            r.v == self.v,
            forall|a: int| 0 <= a < self.n ==> (#[trigger] r.realizations@[a])
                == self.boxes@[a].samples@[instance_index as int],
    {
        ProbeMaxInstance::new(self, instance_index)
    }
}

/// With every support the same size, the first `k` sizes total `k * vs`.
proof fn lemma_uniform_lens_upto(dist: Seq<WeightedDistribution>, k: int, vs: int)
    requires
        0 <= k <= dist.len(),
        forall|d: int| 0 <= d < dist.len() ==> (#[trigger] dist[d]).probs@.len() == vs,
    ensures
        crate::distributions::lens_upto(dist, k) == k * vs,
    decreases k,
{
    if k > 0 {
        lemma_uniform_lens_upto(dist, k - 1, vs);
        assert((k - 1) * vs + vs == k * vs) by (nonlinear_arith);
    } else {
        assert(k * vs == 0) by (nonlinear_arith)
            requires k == 0,
        ;
    }
}

/// One sampled realization of a probe-max problem: a realized reduced value
/// per box, with the cumulative sums of the sorted realizations.
#[derive(Debug, Clone)]
pub struct ProbeMaxInstance {
    /// Number of boxes.
    pub n: usize,
    /// Size of the reduced support.
    pub v: usize,
    /// Realized value of each box.
    pub realizations: Vec<usize>,
    /// `cum_opt_realizations[q]` is the sum of the `q + 1` largest realized
    /// values: the offline optimum for budget `q + 1`.
    pub cum_opt_realizations: Vec<usize>,
}

impl ProbeMaxInstance {
    /// Structural invariant.
    pub open spec fn wf(&self) -> bool {
        &&& 1 <= self.n <= MODEL_LIMIT
        &&& 1 <= self.v <= MODEL_LIMIT * MODEL_LIMIT
        &&& self.realizations@.len() == self.n
        &&& forall|a: int| 0 <= a < self.n ==> (#[trigger] self.realizations@[a]) < self.v
        &&& self.cum_opt_realizations@.len() == self.n
        &&& forall|q: int| 0 <= q < self.n ==>
            (#[trigger] self.cum_opt_realizations@[q]) as int
                == crate::ranking::top_sum(as_ints(self.realizations@), q + 1)
    }

    /// Draws the trial's realization of every box and computes every
    /// offline optimum.
    pub fn new(pm: &ProbeMax, instance_index: usize) -> (r: ProbeMaxInstance)
        requires
            pm.wf(),
            instance_index < pm.spec_num_samples(),
        ensures
            r.wf(),
            r.n == pm.n,
            r.v == pm.v,
            forall|a: int| 0 <= a < pm.n ==> (#[trigger] r.realizations@[a])
                == pm.boxes@[a].samples@[instance_index as int],
    {
        let n = pm.get_n();
        let mut realizations: Vec<usize> = Vec::new();
        let mut a: usize = 0;
        while a < n
            invariant
                a <= n,
                n == pm.n,
                pm.wf(),
                instance_index < pm.spec_num_samples(),
                realizations@.len() == a,
                forall|q: int| 0 <= q < a ==> (#[trigger] realizations@[q])
                    == pm.boxes@[q].samples@[instance_index as int],
                forall|q: int| 0 <= q < a ==> (#[trigger] realizations@[q]) < pm.v,
            decreases n - a,
        {
            realizations.push(pm.get_box(a).get_sample(instance_index));
            a += 1;
        }
        let sorted = crate::ranking::sort_desc_usize(&realizations);
        let ghost sreals = as_ints(realizations@);
        proof {
            crate::ranking::lemma_sort_desc_ensures(sreals);
            assert(forall|q: int| 0 <= q < sorted@.len() ==>
                (#[trigger] sorted@[q]) < pm.v) by {
                assert forall|q: int| 0 <= q < sorted@.len() implies
                    (#[trigger] sorted@[q]) < pm.v by {
                    lemma_sorted_entry_bounded(sreals, as_ints(sorted@), q, pm.v as int);
                }
            }
        }
        let mut cum: Vec<usize> = Vec::new();
        let mut acc: usize = 0;
        let mut q: usize = 0;
        while q < n
            invariant
                q <= n,
                n == pm.n,
                1 <= n <= MODEL_LIMIT,
                1 <= pm.v <= MODEL_LIMIT * MODEL_LIMIT,
                sorted@.len() == n,
                sreals == as_ints(realizations@),
                as_ints(sorted@) == crate::ranking::sort_desc(sreals),
                forall|t: int| 0 <= t < sorted@.len() ==> (#[trigger] sorted@[t]) < pm.v,
                cum@.len() == q,
                acc as int == mass_below(as_ints(sorted@), q as int),
                acc as int <= q * (pm.v - 1),
                forall|t: int| 0 <= t < q ==> (#[trigger] cum@[t]) as int
                    == mass_below(as_ints(sorted@), t + 1),
            decreases n - q,
        {
            proof {
                assert((q + 1) * (pm.v - 1) == q * (pm.v - 1) + (pm.v - 1)) by (nonlinear_arith);
                assert((q + 1) * (pm.v - 1) <= MODEL_LIMIT * (MODEL_LIMIT * MODEL_LIMIT))
                    by (nonlinear_arith)
                    requires q + 1 <= MODEL_LIMIT, 1 <= pm.v <= MODEL_LIMIT * MODEL_LIMIT,
                ;
            }
            acc = acc + sorted[q];
            cum.push(acc);
            q += 1;
        }
        ProbeMaxInstance { n, v: pm.v, realizations, cum_opt_realizations: cum }
    }

    /// The realized value of one box.
    #[inline]
    pub fn get_realization(&self, i: usize) -> (r: usize)
        requires
            self.wf(),
            i < self.n,
        ensures
            r == self.realizations@[i as int],
            r < self.v,
    {
        self.realizations[i]
    }

    /// The sum of the `l` largest realized values: the offline optimum for
    /// budget `l`.
    #[inline]
    pub fn get_optimal_value(&self, l: usize) -> (r: usize)
        requires
            self.wf(),
            1 <= l <= self.n,
        ensures
            r as int == crate::ranking::top_sum(as_ints(self.realizations@), l as int),
    {
        self.cum_opt_realizations[l - 1]
    }

    /// Scores the non-adaptive policy: probe the `k` highest-ranked boxes,
    /// keep the `l` largest realized values. Reports the ranking's one-time
    /// compute cost plus this evaluation's own.
    pub fn get_non_adap_value(&self, pm: &ProbeMax, k: usize, l: usize) -> (r: (usize, u64))
        requires
            self.wf(),
            pm.wf(),
            self.n == pm.n,
            self.v == pm.v,
            1 <= l <= k,
            k <= self.n,
        ensures
            r.0 as int == crate::ranking::top_sum(
                as_ints(pm.non_adaptive_policy.0@.take(k as int).map_values(
                    |i: usize| self.realizations@[i as int])),
                l as int,
            ),
    {
        let timer = crate::time::instant_now();
        let mut picked: Vec<usize> = Vec::new();
        let mut q: usize = 0;
        while q < k
            invariant
                q <= k,
                k <= self.n,
                self.wf(),
                pm.wf(),
                self.n == pm.n,
                self.v == pm.v,
                picked@.len() == q,
                forall|t: int| 0 <= t < q ==> (#[trigger] picked@[t])
                    == self.realizations@[pm.non_adaptive_policy.0@[t] as int],
                forall|t: int| 0 <= t < q ==> (#[trigger] picked@[t]) < self.v,
            decreases k - q,
        {
            let idx = pm.get_policy()[q];
            proof {
                assert(pm.non_adaptive_policy.0@[q as int] < pm.n);
            }
            picked.push(self.realizations[idx]);
            q += 1;
        }
        let sorted = crate::ranking::sort_desc_usize(&picked);
        proof {
            crate::ranking::lemma_sort_desc_ensures(as_ints(picked@));
            assert forall|t: int| 0 <= t < sorted@.len() implies
                (#[trigger] sorted@[t]) < self.v by {
                lemma_sorted_entry_bounded(as_ints(picked@), as_ints(sorted@), t, self.v as int);
            }
            assert(as_ints(picked@) =~= as_ints(pm.non_adaptive_policy.0@.take(k as int)
                .map_values(|i: usize| self.realizations@[i as int])));
        }
        let mut value: usize = 0;
        let mut t: usize = 0;
        while t < l
            invariant
                t <= l,
                l <= sorted@.len(),
                1 <= self.v <= MODEL_LIMIT * MODEL_LIMIT,
                sorted@.len() <= MODEL_LIMIT,
                forall|u: int| 0 <= u < sorted@.len() ==> (#[trigger] sorted@[u]) < self.v,
                value as int == mass_below(as_ints(sorted@), t as int),
                value as int <= t * (self.v - 1),
            decreases l - t,
        {
            proof {
                assert((t + 1) * (self.v - 1) == t * (self.v - 1) + (self.v - 1))
                    by (nonlinear_arith);
                assert((t + 1) * (self.v - 1) <= MODEL_LIMIT * (MODEL_LIMIT * MODEL_LIMIT))
                    by (nonlinear_arith)
                    requires t + 1 <= MODEL_LIMIT, 1 <= self.v <= MODEL_LIMIT * MODEL_LIMIT,
                ;
            }
            value = value + sorted[t];
            t += 1;
        }
        let elapsed = crate::time::duration_nanos(&crate::time::instant_elapsed(&timer));
        let base = pm.get_policy_time();
        let total_time = if base <= u64::MAX - elapsed {
            base + elapsed
        } else {
            u64::MAX
        };
        (value, total_time)
    }
}

/// Entries of the descending rearrangement come from the original entries,
/// so they respect the original bound.
pub proof fn lemma_sorted_entry_bounded(orig: Seq<int>, sorted: Seq<int>, q: int, c: int)
    requires
        sorted == crate::ranking::sort_desc(orig),
        0 <= q < sorted.len(),
        forall|t: int| 0 <= t < orig.len() ==> 0 <= #[trigger] orig[t] < c,
    ensures
        0 <= sorted[q] < c,
{
    crate::ranking::lemma_sort_desc_ensures(orig);
    assert(sorted.contains(sorted[q]));
    vstd::seq_lib::to_multiset_contains(sorted, sorted[q]);
    vstd::seq_lib::to_multiset_contains(orig, sorted[q]);
    assert(orig.contains(sorted[q]));
    let t = choose|t: int| 0 <= t < orig.len() && orig[t] == sorted[q];
    assert(0 <= orig[t] < c);
}

/// A vector of zeroes has zero mass.
proof fn lemma_zero_mass(p: Seq<int>, m: int)
    requires
        0 <= m <= p.len(),
        forall|q: int| 0 <= q < p.len() ==> #[trigger] p[q] == 0,
    ensures
        mass_below(p, m) == 0,
    decreases m,
{
    if m > 0 {
        lemma_zero_mass(p, m - 1);
    }
}

} // verus!
