//! The exact optimal adaptive policy for probe-max scoring, solved as a
//! finite-horizon Markov decision process by layer-by-layer backward
//! induction over a dense state encoding.

use vstd::prelude::*;
use vstd::arithmetic::power::pow;

use crate::distributions::{
    WeightedDistribution, PROB_SCALE, p_equal, p_greater, e_greater,
};
use crate::sums::{
    dist_total, dist_expectation, mass_below, lemma_mass_below_nonneg, lemma_mass_below_mono,
    lemma_weighted_mass_below_bound, lemma_weighted_mass_below_mono,
    lemma_weighted_mass_below_nonneg, nonneg,
};
use crate::ranking::{lth_largest, sort_desc, lemma_sort_desc_ensures, sort_desc_usize};
use crate::helper::{
    bits_value, bits_as_ints, radix_value, as_ints, radix_value_from, lemma_radix_value_from_bound,
    lemma_radix_digit_extract, pow_usize, boolean_array_to_usize, usize_array_to_usize,
    usize_to_usize_array,
};
use crate::model::{
    BipartiteRegulatorProbing, ProbeMax, ProbeMaxInstance, MODEL_LIMIT,
    lemma_sorted_entry_bounded,
};
use crate::{GoalFunction, BprError};

verus! {

/// A solver state: which regulators are probed, and the realized reduced
/// value of each probed one (zero where unprobed).
pub type ProbemaxState = (Vec<bool>, Vec<usize>);

/// Largest number of states a solve accepts.
pub const MDP_STATE_LIMIT: usize = 1048576;

/// Shape of a state: `na` flags and `na` values, each value at most `vs`.
pub open spec fn state_shaped(subset: Seq<bool>, values: Seq<int>, na: int, vs: int) -> bool {
    &&& subset.len() == na
    &&& values.len() == na
    &&& forall|i: int| 0 <= i < na ==> 0 <= #[trigger] values[i] <= vs
}

/// The dense index of a state: the subset bits above a mixed-radix
/// encoding of the value vector in base `vs + 1`.
pub open spec fn spec_state_index(subset: Seq<bool>, values: Seq<int>, vs: int) -> int {
    bits_value(subset) * pow(vs + 1, subset.len() as nat) + radix_value(values, vs + 1)
}

/// The reduced distributions a solve works over: one well-formed
/// distribution per regulator, all with support `{0, .., vs}`.
pub open spec fn boxes_ok(boxes: Seq<WeightedDistribution>, vs: int) -> bool {
    forall|a: int| 0 <= a < boxes.len() ==> (#[trigger] boxes[a]).wf()
        && boxes[a].probs@.len() == vs + 1
}

/// The immediate expected marginal reward of probing `a`: the expected
/// value above the current water-mark (the `l`-th largest realized value),
/// scaled by the probability of clearing the water-mark when it is
/// positive; zero when the water-mark already sits at the top value.
pub open spec fn mdp_immediate(
    boxes: Seq<WeightedDistribution>,
    values: Seq<int>,
    l: int,
    vs: int,
    a: int,
) -> int {
    let minv = lth_largest(values, l);
    let p = boxes[a].pmf();
    if minv == vs {
        0
    } else if minv == 0 {
        e_greater(p, 0)
    } else {
        e_greater(p, minv) * p_greater(p, minv) / (PROB_SCALE as int)
    }
}

/// The optimal expected reward from a state with `t` probes left; zero when
/// no probe is possible.
pub open spec fn mdp_value(
    boxes: Seq<WeightedDistribution>,
    subset: Seq<bool>,
    values: Seq<int>,
    l: int,
    vs: int,
    t: int,
) -> int
    decreases t, 4int, 0int,
{
    if t <= 0 {
        0
    } else {
        let best = mdp_best(boxes, subset, values, l, vs, t);
        if best.0 == -1 {
            0
        } else {
            best.1
        }
    }
}

/// The optimal action and its expected reward, or `(-1, 0)` when no action
/// remains; ties break toward the lowest action index.
pub open spec fn mdp_best(
    boxes: Seq<WeightedDistribution>,
    subset: Seq<bool>,
    values: Seq<int>,
    l: int,
    vs: int,
    t: int,
) -> (int, int)
    decreases t, 3int, 0int,
{
    if t <= 0 {
        (-1, 0)
    } else {
        mdp_scan(boxes, subset, values, l, vs, t, subset.len() as int)
    }
}

/// The scanning argmax over the unprobed actions below `k`: only a strictly
/// larger expected reward displaces an earlier action.
pub open spec fn mdp_scan(
    boxes: Seq<WeightedDistribution>,
    subset: Seq<bool>,
    values: Seq<int>,
    l: int,
    vs: int,
    t: int,
    k: int,
) -> (int, int)
    decreases t, 2int, k,
{
    if t <= 0 || k <= 0 {
        (-1, 0)
    } else {
        let prev = mdp_scan(boxes, subset, values, l, vs, t, k - 1);
        if !subset[k - 1] {
            let q = mdp_q(boxes, subset, values, l, vs, t, k - 1);
            if prev.0 == -1 || q > prev.1 {
                (k - 1, q)
            } else {
                prev
            }
        } else {
            prev
        }
    }
}

/// The expected reward of probing `a` now: the immediate reward plus the
/// probability-weighted optimal continuation, scaled back down once.
pub open spec fn mdp_q(
    boxes: Seq<WeightedDistribution>,
    subset: Seq<bool>,
    values: Seq<int>,
    l: int,
    vs: int,
    t: int,
    a: int,
) -> int
    decreases t, 1int, vs + 2,
{
    mdp_immediate(boxes, values, l, vs, a) + (if vs + 1 > 0 {
        mdp_cont(boxes, subset, values, l, vs, t, a, vs + 1)
    } else {
        0
    }) / (PROB_SCALE as int)
}

/// The continuation sum over the realized values below `x` of probing `a`:
/// each outcome's probability times the optimal value of the successor
/// state with one probe fewer.
pub open spec fn mdp_cont(
    boxes: Seq<WeightedDistribution>,
    subset: Seq<bool>,
    values: Seq<int>,
    l: int,
    vs: int,
    t: int,
    a: int,
    x: int,
) -> int
    decreases t, 1int, x,
{
    if t <= 0 || x <= 0 {
        0
    } else {
        mdp_cont(boxes, subset, values, l, vs, t, a, x - 1) + p_equal(boxes[a].pmf(), x - 1)
            * mdp_value(boxes, subset.update(a, true), values.update(a, x - 1), l, vs, t - 1)
    }
}

/// The memo-table entry a state deserves: none when no action remains.
pub open spec fn table_entry(
    boxes: Seq<WeightedDistribution>,
    subset: Seq<bool>,
    values: Seq<int>,
    l: int,
    vs: int,
    t: int,
) -> Option<(usize, u64)> {
    let best = mdp_best(boxes, subset, values, l, vs, t);
    if best.0 == -1 {
        None
    } else {
        Some((best.0 as usize, best.1 as u64))
    }
}

proof fn lemma_cont_zero_horizon(
    boxes: Seq<WeightedDistribution>,
    subset: Seq<bool>,
    values: Seq<int>,
    l: int,
    vs: int,
    a: int,
    x: int,
)
    ensures
        mdp_cont(boxes, subset, values, l, vs, 1, a, x) == 0,
    decreases x,
{
    if x > 0 {
        lemma_cont_zero_horizon(boxes, subset, values, l, vs, a, x - 1);
        let w = mdp_value(boxes, subset.update(a, true), values.update(a, x - 1), l, vs, 0);
        assert(w == 0);
        assert(p_equal(boxes[a].pmf(), x - 1) * 0 == 0) by (nonlinear_arith);
    }
}

proof fn lemma_zero_watermark(values: Seq<int>)
    requires
        values.len() >= 1,
        forall|i: int| 0 <= i < values.len() ==> #[trigger] values[i] == 0,
    ensures
        lth_largest(values, 1) == 0,
{
    lemma_sort_desc_ensures(values);
    lemma_sorted_entry_bounded(values, sort_desc(values), 0, 1);
}

/// With a single probe and a single kept value, one probe's expected
/// reward is exactly its box's expected value.
proof fn lemma_single_probe_q(
    boxes: Seq<WeightedDistribution>,
    subset: Seq<bool>,
    values: Seq<int>,
    vs: int,
    a: int,
)
    requires
        boxes_ok(boxes, vs),
        vs >= 0,
        subset.len() == boxes.len(),
        values.len() == boxes.len(),
        boxes.len() >= 1,
        forall|i: int| 0 <= i < values.len() ==> #[trigger] values[i] == 0,
        0 <= a < boxes.len(),
    ensures
        mdp_q(boxes, subset, values, 1, vs, 1, a) == dist_expectation(boxes[a].pmf()),
{
    let s = PROB_SCALE as int;
    let p = boxes[a].pmf();
    lemma_zero_watermark(values);
    lemma_cont_zero_horizon(boxes, subset, values, 1, vs, a, vs + 1);
    assert(0int / s == 0) by {
        vstd::arithmetic::div_mod::lemma_div_basics(s);
    }
    assert(crate::sums::weighted_mass_below(p, 0) == 0);
    assert(crate::sums::weighted_mass_below(p, 1)
        == crate::sums::weighted_mass_below(p, 0) + 0 * p[0]);
    assert(0 * p[0] == 0) by (nonlinear_arith);
    if vs == 0 {
        // a one-point support at zero has zero expectation
        assert(dist_expectation(p) == crate::sums::weighted_mass_below(p, 1));
    } else {
        // the water-mark is zero, so the reward is the full expectation
        assert(crate::distributions::e_less(p, 1) == 0);
    }
}

proof fn lemma_single_probe_scan(
    boxes: Seq<WeightedDistribution>,
    subset: Seq<bool>,
    values: Seq<int>,
    vs: int,
    k: int,
)
    requires
        boxes_ok(boxes, vs),
        vs >= 0,
        subset.len() == boxes.len(),
        values.len() == boxes.len(),
        boxes.len() >= 1,
        forall|i: int| 0 <= i < subset.len() ==> !(#[trigger] subset[i]),
        forall|i: int| 0 <= i < values.len() ==> #[trigger] values[i] == 0,
        1 <= k <= boxes.len(),
    ensures
        ({
            let sc = mdp_scan(boxes, subset, values, 1, vs, 1, k);
            &&& 0 <= sc.0 < k
            &&& sc.1 == dist_expectation(boxes[sc.0].pmf())
            &&& forall|a: int| 0 <= a < k ==>
                dist_expectation(#[trigger] boxes[a].pmf()) <= sc.1
            &&& forall|a: int| 0 <= a < k
                && dist_expectation(#[trigger] boxes[a].pmf()) == sc.1 ==> sc.0 <= a
        }),
    decreases k,
{
    lemma_single_probe_q(boxes, subset, values, vs, k - 1);
    assert(!subset[k - 1]);
    let prev = mdp_scan(boxes, subset, values, 1, vs, 1, k - 1);
    let q = mdp_q(boxes, subset, values, 1, vs, 1, k - 1);
    assert(mdp_scan(boxes, subset, values, 1, vs, 1, k) == if prev.0 == -1 || q > prev.1 {
        (k - 1, q)
    } else {
        prev
    });
    if k == 1 {
        assert(prev == (-1int, 0int));
    } else {
        lemma_single_probe_scan(boxes, subset, values, vs, k - 1);
    }
}

/// A solver run with one probe and one kept value degenerates to greedy by
/// expectation: from the empty state the optimal single action is the box
/// of largest expected value, the lowest index winning ties, and its
/// expected reward is exactly that expectation.
pub proof fn lemma_single_probe_greedy(
    boxes: Seq<WeightedDistribution>,
    subset: Seq<bool>,
    values: Seq<int>,
    vs: int,
)
    requires
        boxes_ok(boxes, vs),
        vs >= 0,
        boxes.len() >= 1,
        subset.len() == boxes.len(),
        values.len() == boxes.len(),
        forall|i: int| 0 <= i < subset.len() ==> !(#[trigger] subset[i]),
        forall|i: int| 0 <= i < values.len() ==> #[trigger] values[i] == 0,
    ensures
        ({
            let best = mdp_best(boxes, subset, values, 1, vs, 1);
            &&& 0 <= best.0 < boxes.len()
            &&& best.1 == dist_expectation(boxes[best.0].pmf())
            &&& forall|a: int| 0 <= a < boxes.len() ==>
                dist_expectation(#[trigger] boxes[a].pmf()) <= best.1
            &&& forall|a: int| 0 <= a < boxes.len()
                && dist_expectation(#[trigger] boxes[a].pmf()) == best.1 ==> best.0 <= a
        }),
{
    lemma_single_probe_scan(boxes, subset, values, vs, boxes.len() as int);
}

/// The dense index of a shaped state stays below the state count.
pub proof fn lemma_state_index_range(subset: Seq<bool>, values: Seq<int>, na: int, vs: int)
    requires
        state_shaped(subset, values, na, vs),
        vs >= 0,
        na >= 0,
    ensures
        0 <= spec_state_index(subset, values, vs)
            < pow(2, na as nat) * pow(vs + 1, na as nat),
{
    let base = vs + 1;
    let p = pow(base, na as nat);
    let bi = bits_as_ints(subset);
    assert(forall|i: int| 0 <= i < bi.len() ==> 0 <= #[trigger] bi[i] < 2);
    assert(forall|i: int| 0 <= i < values.len() ==> 0 <= #[trigger] values[i] < base);
    lemma_radix_value_from_bound(bi, 2, 0);
    lemma_radix_value_from_bound(values, base, 0);
    vstd::arithmetic::power::lemma_pow_positive(base, na as nat);
    vstd::arithmetic::power::lemma_pow_positive(2, na as nat);
    let b = bits_value(subset);
    let r = radix_value(values, base);
    assert(0 <= b * p) by (nonlinear_arith)
        requires b >= 0, p >= 1,
    ;
    assert(b * p + r < pow(2, na as nat) * p) by (nonlinear_arith)
        requires
            0 <= b,
            b < pow(2, na as nat),
            0 <= r < p,
            p >= 1,
    ;
}

/// Distinct shaped states get distinct dense indices.
pub proof fn lemma_state_index_injective(
    b1: Seq<bool>,
    v1: Seq<int>,
    b2: Seq<bool>,
    v2: Seq<int>,
    na: int,
    vs: int,
)
    requires
        state_shaped(b1, v1, na, vs),
        state_shaped(b2, v2, na, vs),
        vs >= 0,
        na >= 0,
        spec_state_index(b1, v1, vs) == spec_state_index(b2, v2, vs),
    ensures
        b1 == b2,
        v1 == v2,
{
    let base = vs + 1;
    let p = pow(base, na as nat);
    vstd::arithmetic::power::lemma_pow_positive(base, na as nat);
    let i1 = bits_as_ints(b1);
    let i2 = bits_as_ints(b2);
    assert(forall|i: int| 0 <= i < i1.len() ==> 0 <= #[trigger] i1[i] < 2);
    assert(forall|i: int| 0 <= i < i2.len() ==> 0 <= #[trigger] i2[i] < 2);
    assert(forall|i: int| 0 <= i < v1.len() ==> 0 <= #[trigger] v1[i] < base);
    assert(forall|i: int| 0 <= i < v2.len() ==> 0 <= #[trigger] v2[i] < base);
    lemma_radix_value_from_bound(i1, 2, 0);
    lemma_radix_value_from_bound(i2, 2, 0);
    lemma_radix_value_from_bound(v1, base, 0);
    lemma_radix_value_from_bound(v2, base, 0);
    let x = spec_state_index(b1, v1, vs);
    vstd::arithmetic::div_mod::lemma_fundamental_div_mod_converse_div(
        x, p, bits_value(b1), radix_value(v1, base));
    vstd::arithmetic::div_mod::lemma_fundamental_div_mod_converse_div(
        x, p, bits_value(b2), radix_value(v2, base));
    vstd::arithmetic::div_mod::lemma_fundamental_div_mod_converse_mod(
        x, p, bits_value(b1), radix_value(v1, base));
    vstd::arithmetic::div_mod::lemma_fundamental_div_mod_converse_mod(
        x, p, bits_value(b2), radix_value(v2, base));
    assert(bits_value(b1) == bits_value(b2));
    assert(radix_value(v1, base) == radix_value(v2, base));
    assert(b1 =~= b2) by {
        assert forall|i: int| 0 <= i < na implies b1[i] == b2[i] by {
            lemma_radix_digit_extract(i1, 2, i);
            lemma_radix_digit_extract(i2, 2, i);
            assert(i1[i] == i2[i]);
        }
    }
    assert(v1 =~= v2) by {
        assert forall|i: int| 0 <= i < na implies v1[i] == v2[i] by {
            if vs == 0 {
                assert(v1[i] == 0 && v2[i] == 0);
            } else {
                lemma_radix_digit_extract(v1, base, i);
                lemma_radix_digit_extract(v2, base, i);
            }
        }
    }
}

/// The water-mark of a value vector lies within the value range.
pub proof fn lemma_watermark_range(values: Seq<int>, l: int, vs: int)
    requires
        1 <= l <= values.len(),
        forall|i: int| 0 <= i < values.len() ==> 0 <= #[trigger] values[i] <= vs,
    ensures
        0 <= lth_largest(values, l) <= vs,
{
    lemma_sort_desc_ensures(values);
    lemma_sorted_entry_bounded(values, sort_desc(values), l - 1, vs + 1);
}

/// The immediate reward is non-negative and at most `vs` units of value.
pub proof fn lemma_immediate_bound(
    boxes: Seq<WeightedDistribution>,
    values: Seq<int>,
    l: int,
    vs: int,
    a: int,
)
    requires
        boxes_ok(boxes, vs),
        0 <= a < boxes.len(),
        vs >= 0,
        1 <= l <= values.len(),
        forall|i: int| 0 <= i < values.len() ==> 0 <= #[trigger] values[i] <= vs,
    ensures
        0 <= mdp_immediate(boxes, values, l, vs, a) <= vs * (PROB_SCALE as int),
{
    let s = PROB_SCALE as int;
    let p = boxes[a].pmf();
    let minv = lth_largest(values, l);
    lemma_watermark_range(values, l, vs);
    assert(nonneg(p));
    lemma_weighted_mass_below_bound(p, p.len() as int);
    lemma_weighted_mass_below_nonneg(p, p.len() as int);
    lemma_mass_below_nonneg(p, p.len() as int);
    // dist_expectation(p) <= vs * total <= vs * PROB_SCALE
    assert((p.len() - 1) * dist_total(p) <= vs * s) by (nonlinear_arith)
        requires p.len() == vs + 1, 0 <= dist_total(p) <= s, vs >= 0,
    ;
    if minv == vs {
    } else {
        // e_greater is a tail of the expectation: between 0 and the whole
        lemma_e_greater_range(p, minv);
        if minv == 0 {
        } else {
            let eg = e_greater(p, minv);
            let pg = p_greater(p, minv);
            lemma_p_greater_range(p, minv);
            assert(0 <= eg * pg <= (vs * s) * s) by (nonlinear_arith)
                requires 0 <= eg <= vs * s, 0 <= pg <= s,
            ;
            vstd::arithmetic::div_mod::lemma_div_pos_is_pos(eg * pg, s);
            vstd::arithmetic::div_mod::lemma_div_is_ordered(eg * pg, (vs * s) * s, s);
            vstd::arithmetic::div_mod::lemma_div_by_multiple(vs * s, s);
        }
    }
}

/// `E[X * 1{X > i}]` lies between zero and the whole expectation.
pub proof fn lemma_e_greater_range(p: Seq<int>, i: int)
    requires
        nonneg(p),
    ensures
        0 <= e_greater(p, i) <= dist_expectation(p),
{
    lemma_weighted_mass_below_nonneg(p, p.len() as int);
    if 0 < i + 1 < p.len() {
        lemma_weighted_mass_below_nonneg(p, i + 1);
        lemma_weighted_mass_below_mono(p, i + 1, p.len() as int);
    }
}

/// `P[X > i]` lies between zero and one.
pub proof fn lemma_p_greater_range(p: Seq<int>, i: int)
    requires
        nonneg(p),
        dist_total(p) <= PROB_SCALE,
    ensures
        0 <= p_greater(p, i) <= PROB_SCALE,
{
    lemma_mass_below_nonneg(p, p.len() as int);
    if 0 < i + 1 < p.len() {
        lemma_mass_below_nonneg(p, i + 1);
        lemma_mass_below_mono(p, i + 1, p.len() as int);
    }
}

/// The optimal value with `t` probes left is between zero and `t * vs`
/// units of value.
pub proof fn lemma_value_bound(
    boxes: Seq<WeightedDistribution>,
    subset: Seq<bool>,
    values: Seq<int>,
    l: int,
    vs: int,
    t: int,
)
    requires
        boxes_ok(boxes, vs),
        subset.len() == boxes.len(),
        values.len() == boxes.len(),
        vs >= 0,
        1 <= l <= values.len(),
        forall|i: int| 0 <= i < values.len() ==> 0 <= #[trigger] values[i] <= vs,
        t >= 0,
    ensures
        0 <= mdp_value(boxes, subset, values, l, vs, t) <= t * vs * (PROB_SCALE as int),
    decreases t, 4int, 0int,
{
    if t <= 0 {
    } else {
        lemma_best_bound(boxes, subset, values, l, vs, t);
        assert(t * vs * (PROB_SCALE as int) >= 0) by (nonlinear_arith)
            requires t >= 0, vs >= 0, PROB_SCALE as int > 0,
        ;
    }
}

/// The best entry is either empty or an unprobed in-range action carrying
/// its own bounded expected reward.
pub proof fn lemma_best_bound(
    boxes: Seq<WeightedDistribution>,
    subset: Seq<bool>,
    values: Seq<int>,
    l: int,
    vs: int,
    t: int,
)
    requires
        boxes_ok(boxes, vs),
        subset.len() == boxes.len(),
        values.len() == boxes.len(),
        vs >= 0,
        1 <= l <= values.len(),
        forall|i: int| 0 <= i < values.len() ==> 0 <= #[trigger] values[i] <= vs,
        t >= 1,
    ensures
        ({
            let best = mdp_best(boxes, subset, values, l, vs, t);
            best.0 == -1 || {
                &&& 0 <= best.0 < boxes.len()
                &&& !subset[best.0]
                &&& best.1 == mdp_q(boxes, subset, values, l, vs, t, best.0)
                &&& 0 <= best.1 <= t * vs * (PROB_SCALE as int)
            }
        }),
        (exists|a: int| 0 <= a < subset.len() && !subset[a]) <==> mdp_best(
            boxes, subset, values, l, vs, t).0 != -1,
    decreases t, 3int, 0int,
{
    lemma_scan_bound(boxes, subset, values, l, vs, t, subset.len() as int);
}

/// The scanning argmax below `k`: empty exactly when no action below `k` is
/// unprobed, otherwise an unprobed action with its own bounded reward.
pub proof fn lemma_scan_bound(
    boxes: Seq<WeightedDistribution>,
    subset: Seq<bool>,
    values: Seq<int>,
    l: int,
    vs: int,
    t: int,
    k: int,
)
    requires
        boxes_ok(boxes, vs),
        subset.len() == boxes.len(),
        values.len() == boxes.len(),
        vs >= 0,
        1 <= l <= values.len(),
        forall|i: int| 0 <= i < values.len() ==> 0 <= #[trigger] values[i] <= vs,
        t >= 1,
        0 <= k <= subset.len(),
    ensures
        ({
            let sc = mdp_scan(boxes, subset, values, l, vs, t, k);
            sc.0 == -1 || {
                &&& 0 <= sc.0 < k
                &&& !subset[sc.0]
                &&& sc.1 == mdp_q(boxes, subset, values, l, vs, t, sc.0)
                &&& 0 <= sc.1 <= t * vs * (PROB_SCALE as int)
            }
        }),
        (exists|a: int| 0 <= a < k && !subset[a]) <==> mdp_scan(
            boxes, subset, values, l, vs, t, k).0 != -1,
    decreases t, 2int, k,
{
    if k <= 0 {
    } else {
        lemma_scan_bound(boxes, subset, values, l, vs, t, k - 1);
        if !subset[k - 1] {
            lemma_q_bound(boxes, subset, values, l, vs, t, k - 1);
        }
        if exists|a: int| 0 <= a < k && !subset[a] {
            let a0 = choose|a: int| 0 <= a < k && !subset[a];
            if a0 < k - 1 {
                assert(exists|a: int| 0 <= a < k - 1 && !subset[a]);
            }
        }
    }
}

/// One action's expected reward is between zero and `t * vs` units.
pub proof fn lemma_q_bound(
    boxes: Seq<WeightedDistribution>,
    subset: Seq<bool>,
    values: Seq<int>,
    l: int,
    vs: int,
    t: int,
    a: int,
)
    requires
        boxes_ok(boxes, vs),
        subset.len() == boxes.len(),
        values.len() == boxes.len(),
        vs >= 0,
        1 <= l <= values.len(),
        forall|i: int| 0 <= i < values.len() ==> 0 <= #[trigger] values[i] <= vs,
        t >= 1,
        0 <= a < boxes.len(),
    ensures
        0 <= mdp_q(boxes, subset, values, l, vs, t, a) <= t * vs * (PROB_SCALE as int),
    decreases t, 1int, vs + 2,
{
    let s = PROB_SCALE as int;
    lemma_immediate_bound(boxes, values, l, vs, a);
    lemma_cont_bound(boxes, subset, values, l, vs, t, a, vs + 1);
    let c = mdp_cont(boxes, subset, values, l, vs, t, a, vs + 1);
    assert(0 <= c <= s * ((t - 1) * vs * s));
    vstd::arithmetic::div_mod::lemma_div_pos_is_pos(c, s);
    vstd::arithmetic::div_mod::lemma_div_is_ordered(c, s * ((t - 1) * vs * s), s);
    assert(s * ((t - 1) * vs * s) == ((t - 1) * vs * s) * s) by (nonlinear_arith);
    vstd::arithmetic::div_mod::lemma_div_by_multiple((t - 1) * vs * s, s);
    assert(vs * s + (t - 1) * vs * s == t * vs * s) by (nonlinear_arith);
}

/// An all-zero digit vector reads back as zero in any base.
proof fn lemma_radix_zeros(s: Seq<int>, base: int, k: int)
    requires
        forall|q: int| 0 <= q < s.len() ==> #[trigger] s[q] == 0,
    ensures
        radix_value_from(s, base, k) == 0,
    decreases s.len() - k,
{
    if 0 <= k < s.len() {
        lemma_radix_zeros(s, base, k + 1);
    }
}

/// The dense index of a state, from its parts.
pub(crate) fn index_of_parts(subset: &Vec<bool>, values: &Vec<usize>, vs: usize) -> (r: usize)
    requires
        subset@.len() == values@.len(),
        forall|i: int| 0 <= i < values@.len() ==> (#[trigger] values@[i]) <= vs,
        vs < usize::MAX,
        pow(2, subset@.len() as nat) * pow(vs as int + 1, subset@.len() as nat)
            <= usize::MAX,
    ensures
        r as int == spec_state_index(subset@, as_ints(values@), vs as int),
        (r as int) < pow(2, subset@.len() as nat) * pow(vs as int + 1, subset@.len() as nat),
{
    let n = subset.len();
    let ghost base = vs as int + 1;
    let ghost p2 = pow(2, n as nat);
    let ghost pp = pow(base, n as nat);
    proof {
        lemma_state_index_range(subset@, as_ints(values@), n as int, vs as int);
        vstd::arithmetic::power::lemma_pow_positive(base, n as nat);
        vstd::arithmetic::power::lemma_pow_positive(2, n as nat);
        assert(p2 <= p2 * pp) by (nonlinear_arith)
            requires p2 >= 1, pp >= 1,
        ;
        assert(pp <= p2 * pp) by (nonlinear_arith)
            requires p2 >= 1, pp >= 1,
        ;
        let bi = bits_as_ints(subset@);
        assert(forall|i: int| 0 <= i < bi.len() ==> 0 <= #[trigger] bi[i] < 2);
        lemma_radix_value_from_bound(bi, 2, 0);
        assert(forall|i: int| 0 <= i < values@.len() ==>
            0 <= #[trigger] as_ints(values@)[i] < base);
        lemma_radix_value_from_bound(as_ints(values@), base, 0);
    }
    let p = pow_usize(vs + 1, n);
    let subset_index = boolean_array_to_usize(subset);
    let values_index = usize_array_to_usize(values, vs + 1);
    subset_index * p + values_index
}

/// The dense index of a state: its subset bits above a mixed-radix
/// encoding, base `vs + 1`, of its value vector.
pub fn index_of_state(state: &ProbemaxState, vs: usize) -> (r: usize)
    requires
        state.0@.len() == state.1@.len(),
        forall|i: int| 0 <= i < state.1@.len() ==> (#[trigger] state.1@[i]) <= vs,
        vs < usize::MAX,
        pow(2, state.0@.len() as nat) * pow(vs as int + 1, state.0@.len() as nat)
            <= usize::MAX,
    ensures
        r as int == spec_state_index(state.0@, as_ints(state.1@), vs as int),
{
    index_of_parts(&state.0, &state.1, vs)
}

/// The state with the given dense index: the inverse of `index_of_state`.
pub fn state_of_index(idx: usize, na: usize, vs: usize) -> (r: ProbemaxState)
    requires
        vs < usize::MAX,
        pow(2, na as nat) * pow(vs as int + 1, na as nat) <= usize::MAX,
        (idx as int) < pow(2, na as nat) * pow(vs as int + 1, na as nat),
    ensures
        state_shaped(r.0@, as_ints(r.1@), na as int, vs as int),
        spec_state_index(r.0@, as_ints(r.1@), vs as int) == idx,
{
    let ghost base = vs as int + 1;
    let ghost p2 = pow(2, na as nat);
    let ghost pp = pow(base, na as nat);
    proof {
        vstd::arithmetic::power::lemma_pow_positive(base, na as nat);
        vstd::arithmetic::power::lemma_pow_positive(2, na as nat);
        assert(pp <= p2 * pp) by (nonlinear_arith)
            requires p2 >= 1, pp >= 1,
        ;
    }
    let p = pow_usize(vs + 1, na);
    let b = idx / p;
    let rm = idx % p;
    proof {
        assert(pp * p2 == p2 * pp) by (nonlinear_arith);
        vstd::arithmetic::div_mod::lemma_multiply_divide_lt(idx as int, pp, p2);
        vstd::arithmetic::div_mod::lemma_mod_division_less_than_divisor(idx as int, pp);
        vstd::arithmetic::div_mod::lemma_div_pos_is_pos(idx as int, pp);
    }
    let bits = usize_to_usize_array(b, na, 2);
    let values = if vs >= 1 {
        usize_to_usize_array(rm, na, vs + 1)
    } else {
        let mut zeros: Vec<usize> = Vec::new();
        let mut z: usize = 0;
        while z < na
            invariant
                z <= na,
                zeros@.len() == z,
                forall|q: int| 0 <= q < z ==> (#[trigger] zeros@[q]) == 0,
            decreases na - z,
        {
            zeros.push(0);
            z += 1;
        }
        proof {
            lemma_radix_zeros(as_ints(zeros@), vs as int + 1, 0);
            assert(vstd::arithmetic::power::pow(1, na as nat) == 1) by {
                vstd::arithmetic::power::lemma1_pow(na as nat);
            }
            assert(rm == 0);
        }
        zeros
    };
    let mut subset: Vec<bool> = Vec::new();
    let mut i: usize = 0;
    while i < na
        invariant
            i <= na,
            bits@.len() == na,
            subset@.len() == i,
            forall|q: int| 0 <= q < na ==> (#[trigger] bits@[q]) < 2,
            forall|q: int| 0 <= q < i ==> (#[trigger] subset@[q]) == (bits@[q] == 1),
        decreases na - i,
    {
        subset.push(bits[i] == 1);
        i += 1;
    }
    proof {
        assert(bits_as_ints(subset@) =~= as_ints(bits@));
        assert(bits_value(subset@) == b);
        vstd::arithmetic::div_mod::lemma_fundamental_div_mod(idx as int, pp);
        assert(spec_state_index(subset@, as_ints(values@), vs as int)
            == b * pp + rm);
        assert(pp * (b as int) == (b as int) * pp) by (nonlinear_arith);
    }
    (subset, values)
}

/// The exact optimal adaptive probe-max solver: reduced distributions, a
/// probing budget `k`, a scoring budget `l`, and the solved backward
/// induction table over every horizon and dense state index.
pub struct ProbemaxMDP {
    /// Number of regulators.
    pub na: usize,
    /// Largest realizable reduced value (the support size minus one).
    pub vs: usize,
    /// Probing budget.
    pub k: usize,
    /// Scoring budget: the number of top values kept.
    pub l: usize,
    /// Reduced distribution of each regulator.
    pub boxes: Vec<WeightedDistribution>,
    /// `optimal_table[t][index]` is the optimal action and expected reward
    /// with `t` probes left in the state with that dense index.
    pub optimal_table: Vec<Vec<Option<(usize, u64)>>>,
}

impl ProbemaxMDP {
    /// The number of dense state indices.
    pub open spec fn spec_num_states(&self) -> int {
        pow(2, self.na as nat) * pow(self.vs as int + 1, self.na as nat)
    }

    /// Structural invariant: the solved table matches the backward
    /// induction equations at every horizon and state.
    pub open spec fn wf(&self) -> bool {
        &&& 1 <= self.na <= MODEL_LIMIT
        &&& self.vs as int + 1 <= MODEL_LIMIT * MODEL_LIMIT
        &&& 1 <= self.l <= self.k <= self.na
        &&& self.boxes@.len() == self.na
        &&& boxes_ok(self.boxes@, self.vs as int)
        &&& self.spec_num_states() <= MDP_STATE_LIMIT
        &&& self.optimal_table@.len() == self.k + 1
        &&& forall|t: int| 0 <= t <= self.k ==>
            (#[trigger] self.optimal_table@[t])@.len() == self.spec_num_states()
        &&& forall|t: int, subset: Seq<bool>, values: Seq<int>|
            0 <= t <= self.k && state_shaped(subset, values, self.na as int, self.vs as int)
            ==> #[trigger] self.optimal_table@[t]@[spec_state_index(subset, values, self.vs as int)]
                == table_entry(self.boxes@, subset, values, self.l as int, self.vs as int, t)
    }

    /// The solved table.
    pub fn get_table(&self) -> (r: &Vec<Vec<Option<(usize, u64)>>>)
        ensures
            r@ == self.optimal_table@,
    {
        &self.optimal_table
    }

    /// The optimal action and its expected reward in a state with `t`
    /// probes left, or nothing when no action remains.
    pub fn get_best_action(&self, state: &ProbemaxState, t: usize) -> (r: Option<(usize, u64)>)
        requires
            self.wf(),
            t <= self.k,
            state_shaped(state.0@, as_ints(state.1@), self.na as int, self.vs as int),
        ensures
            r == table_entry(self.boxes@, state.0@, as_ints(state.1@), self.l as int,
                self.vs as int, t as int),
    {
        proof {
            lemma_state_index_range(state.0@, as_ints(state.1@), self.na as int, self.vs as int);
            assert(MDP_STATE_LIMIT <= usize::MAX);
            assert forall|i: int| 0 <= i < state.1@.len() implies
                (#[trigger] state.1@[i]) <= self.vs by {
                assert(as_ints(state.1@)[i] == state.1@[i] as int);
            }
        }
        let idx = index_of_state(state, self.vs);
        self.optimal_table[t][idx]
    }
}

/// The support size of the reduction a goal asks for.
pub open spec fn mdp_support(model: &BipartiteRegulatorProbing, goal: GoalFunction) -> int {
    if goal == GoalFunction::MAX {
        model.vs as int
    } else {
        (model.vs - 1) * model.nb + 1
    }
}

/// One action's expected reward, evaluated against the previous horizon's
/// solved layer.
fn q_value(
    boxes: &Vec<WeightedDistribution>,
    subset: &Vec<bool>,
    values: &Vec<usize>,
    l: usize,
    vs: usize,
    t: usize,
    a: usize,
    prev: &Vec<Option<(usize, u64)>>,
) -> (r: u64)
    requires
        boxes_ok(boxes@, vs as int),
        1 <= boxes@.len() <= MODEL_LIMIT,
        (vs as int) + 1 <= MODEL_LIMIT * MODEL_LIMIT,
        state_shaped(subset@, as_ints(values@), boxes@.len() as int, vs as int),
        1 <= l <= boxes@.len(),
        1 <= t <= MODEL_LIMIT,
        a < boxes@.len(),
        pow(2, boxes@.len() as nat) * pow(vs as int + 1, boxes@.len() as nat) <= usize::MAX,
        prev@.len() as int == pow(2, boxes@.len() as nat) * pow(vs as int + 1, boxes@.len() as nat),
        forall|sub2: Seq<bool>, vals2: Seq<int>|
            state_shaped(sub2, vals2, boxes@.len() as int, vs as int) ==>
                #[trigger] prev@[spec_state_index(sub2, vals2, vs as int)]
                    == table_entry(boxes@, sub2, vals2, l as int, vs as int, t as int - 1),
    ensures
        r as int == mdp_q(boxes@, subset@, as_ints(values@), l as int, vs as int, t as int,
            a as int),
        r as int <= (t as int) * (vs as int) * (PROB_SCALE as int),
{
    let na = boxes.len();
    let ghost vals_g = as_ints(values@);
    let ghost s = PROB_SCALE as int;
    proof {
        assert forall|i: int| 0 <= i < values@.len() implies
            (#[trigger] values@[i]) <= vs by {
            assert(vals_g[i] == values@[i] as int);
        }
    }
    let sorted = sort_desc_usize(values);
    let minv = sorted[l - 1];
    proof {
        lemma_watermark_range(vals_g, l as int, vs as int);
        assert(as_ints(sorted@)[l as int - 1] == sorted@[l as int - 1] as int);
        assert(minv as int == lth_largest(vals_g, l as int));
    }
    let dist = &boxes[a];
    let ghost p = dist.pmf();
    proof {
        assert(nonneg(p));
        lemma_immediate_bound(boxes@, vals_g, l as int, vs as int, a as int);
    }
    let imm: u64 = if minv == vs {
        0
    } else if minv == 0 {
        dist.expected_greater(0)
    } else {
        let eg = dist.expected_greater(minv);
        let pg = dist.prob_greater(minv);
        proof {
            lemma_e_greater_range(p, minv as int);
            lemma_p_greater_range(p, minv as int);
            lemma_weighted_mass_below_bound(p, p.len() as int);
            lemma_mass_below_nonneg(p, p.len() as int);
            assert((p.len() - 1) * dist_total(p) <= (vs as int) * s) by (nonlinear_arith)
                requires p.len() == vs + 1, 0 <= dist_total(p) <= s, vs >= 0,
            ;
            assert((eg as int) * (pg as int) <= ((vs as int) * s) * s) by (nonlinear_arith)
                requires 0 <= eg as int <= (vs as int) * s, 0 <= pg as int <= s,
            ;
            assert((eg as int) * (pg as int) >= 0) by (nonlinear_arith)
                requires 0 <= eg as int, 0 <= pg as int,
            ;
            vstd::arithmetic::div_mod::lemma_div_pos_is_pos((eg as int) * (pg as int), s);
            vstd::arithmetic::div_mod::lemma_div_is_ordered(
                (eg as int) * (pg as int), ((vs as int) * s) * s, s);
            vstd::arithmetic::div_mod::lemma_div_by_multiple((vs as int) * s, s);
        }
        (((eg as u128) * (pg as u128)) / (PROB_SCALE as u128)) as u64
    };
    let mut nsub: Vec<bool> = Vec::new();
    let mut ci: usize = 0;
    while ci < na
        invariant
            ci <= na,
            subset@.len() == na,
            nsub@.len() == ci,
            forall|q: int| 0 <= q < ci ==> (#[trigger] nsub@[q]) == subset@[q],
        decreases na - ci,
    {
        nsub.push(subset[ci]);
        ci += 1;
    }
    nsub.set(a, true);
    proof {
        assert(nsub@ =~= subset@.update(a as int, true));
    }
    let mut nvals: Vec<usize> = Vec::new();
    let mut cj: usize = 0;
    while cj < na
        invariant
            cj <= na,
            values@.len() == na,
            nvals@.len() == cj,
            forall|q: int| 0 <= q < cj ==> (#[trigger] nvals@[q]) == values@[q],
        decreases na - cj,
    {
        nvals.push(values[cj]);
        cj += 1;
    }
    let ghost vb = (t as int - 1) * (vs as int) * s;
    let mut cont: u128 = 0;
    let mut x: usize = 0;
    while x < vs + 1
        invariant
            x <= vs + 1,
            na == boxes@.len(),
            1 <= na <= MODEL_LIMIT,
            (vs as int) + 1 <= MODEL_LIMIT * MODEL_LIMIT,
            boxes_ok(boxes@, vs as int),
            state_shaped(subset@, vals_g, na as int, vs as int),
            vals_g == as_ints(values@),
            1 <= l <= na,
            1 <= t <= MODEL_LIMIT,
            a < na,
            s == PROB_SCALE as int,
            vb == (t as int - 1) * (vs as int) * s,
            p == boxes@[a as int].pmf(),
            nsub@ == subset@.update(a as int, true),
            nvals@.len() == na,
            values@.len() == na,
            forall|q: int| 0 <= q < na && q != a ==>
                (#[trigger] nvals@[q]) == values@[q],
            forall|q: int| 0 <= q < na ==> (#[trigger] nvals@[q]) <= vs,
            pow(2, na as nat) * pow(vs as int + 1, na as nat) <= usize::MAX,
            prev@.len() as int == pow(2, na as nat) * pow(vs as int + 1, na as nat),
            forall|sub2: Seq<bool>, vals2: Seq<int>|
                state_shaped(sub2, vals2, na as int, vs as int) ==>
                    #[trigger] prev@[spec_state_index(sub2, vals2, vs as int)]
                        == table_entry(boxes@, sub2, vals2, l as int, vs as int, t as int - 1),
            cont as int == mdp_cont(boxes@, subset@, vals_g, l as int, vs as int, t as int,
                a as int, x as int),
        decreases vs + 1 - x,
    {
        nvals.set(a, x);
        let ghost nvals_g = as_ints(nvals@);
        proof {
            assert(boxes@[a as int].wf());
            assert(nvals_g =~= vals_g.update(a as int, x as int));
            assert forall|i: int| 0 <= i < nvals_g.len() implies
                0 <= #[trigger] nvals_g[i] <= vs by {
                assert(nvals_g[i] == nvals@[i] as int);
            }
            assert(state_shaped(nsub@, nvals_g, na as int, vs as int));
            lemma_state_index_range(nsub@, nvals_g, na as int, vs as int);
        }
        let nidx = index_of_parts(&nsub, &nvals, vs);
        let e = prev[nidx];
        let w: u64 = match e {
            Some(pair) => pair.1,
            None => 0,
        };
        proof {
            assert(prev@[nidx as int]
                == table_entry(boxes@, nsub@, nvals_g, l as int, vs as int, t as int - 1));
            lemma_value_bound(boxes@, nsub@, nvals_g, l as int, vs as int, t as int - 1);
            if t as int - 1 >= 1 {
                lemma_best_bound(boxes@, nsub@, nvals_g, l as int, vs as int, t as int - 1);
            }
            assert((t as int - 1) * (vs as int) * s <= 2_000_000_000_000_000_000int)
                by (nonlinear_arith)
                requires 0 <= t as int - 1 <= 1024, 0 <= vs as int <= 1048576,
                    s == 1_000_000_000,
            ;
            assert(w as int == mdp_value(boxes@, nsub@, nvals_g, l as int, vs as int,
                t as int - 1));
            assert(0 <= w as int <= vb) by {
                assert((t as int - 1) * (vs as int) * s == vb);
            }
            lemma_cont_bound(boxes@, subset@, vals_g, l as int, vs as int, t as int, a as int,
                x as int + 1);
            lemma_cont_bound(boxes@, subset@, vals_g, l as int, vs as int, t as int, a as int,
                x as int);
            crate::sums::lemma_entry_le_total(p, x as int);
            assert(0 <= p_equal(p, x as int) * (w as int) && p_equal(p, x as int) * (w as int)
                <= s * vb) by (nonlinear_arith)
                requires
                    0 <= p_equal(p, x as int) <= s,
                    0 <= w as int <= vb,
            ;
            assert(s * vb <= 1_000_000_000_000_000_000_000_000_000_000int) by (nonlinear_arith)
                requires
                    s == 1_000_000_000,
                    vb == (t as int - 1) * (vs as int) * s,
                    0 <= t as int - 1 <= 1024,
                    0 <= vs as int <= 1048576,
            ;
            assert(mass_below(p, x as int + 1) * vb <= s * vb);
            assert(p_equal(p, x as int) == p[x as int]);
        }
        cont = cont + (boxes[a].prob_equal(x) as u128) * (w as u128);
        x += 1;
    }
    proof {
        lemma_cont_bound(boxes@, subset@, vals_g, l as int, vs as int, t as int, a as int,
            (vs as int) + 1);
        let c = mdp_cont(boxes@, subset@, vals_g, l as int, vs as int, t as int, a as int,
            (vs as int) + 1);
        vstd::arithmetic::div_mod::lemma_div_pos_is_pos(c, s);
        vstd::arithmetic::div_mod::lemma_div_is_ordered(c, s * vb, s);
        assert(s * vb == vb * s) by (nonlinear_arith);
        assert(vb >= 0) by (nonlinear_arith)
            requires vb == (t as int - 1) * (vs as int) * s, t >= 1, vs >= 0, s > 0,
        ;
        vstd::arithmetic::div_mod::lemma_div_by_multiple(vb, s);
        assert((vs as int) * s + vb == (t as int) * (vs as int) * s) by (nonlinear_arith)
            requires vb == (t as int - 1) * (vs as int) * s,
        ;
        assert((t as int) * (vs as int) * s <= 2_000_000_000_000_000_000int) by (nonlinear_arith)
            requires 1 <= t as int <= 1024, 0 <= vs as int <= 1048576, s == 1_000_000_000,
        ;
    }
    imm + ((cont / (PROB_SCALE as u128)) as u64)
}

impl ProbemaxMDP {
    /// Builds and solves the adaptive probe-max process for the asked goal
    /// and budgets: rejects a coverage goal, budgets outside
    /// `1 <= l <= k <= na`, and a state space beyond the memory budget;
    /// otherwise fills the whole backward-induction table layer by layer.
    pub fn init(model: &BipartiteRegulatorProbing, goal: GoalFunction, k: usize, l: usize) -> (r:
        Result<ProbemaxMDP, BprError>)
        requires
            model.wf(),
        ensures
            match r {
                Err(e) => {
                    ||| (goal == GoalFunction::COV && e == BprError::ConfigurationError)
                    ||| (goal != GoalFunction::COV && !(1 <= l && l <= k && k <= model.na)
                        && e == BprError::ConstraintViolation)
                    ||| (goal != GoalFunction::COV && 1 <= l && l <= k && k <= model.na
                        && pow(2, model.na as nat) * pow(mdp_support(model, goal),
                            model.na as nat) > MDP_STATE_LIMIT
                        && e == BprError::ConstraintViolation)
                },
                Ok(m) => {
                    &&& goal != GoalFunction::COV
                    &&& 1 <= l <= k <= model.na
                    &&& m.wf()
                    &&& m.na == model.na
                    &&& m.k == k
                    &&& m.l == l
                    &&& m.vs as int + 1 == mdp_support(model, goal)
                    &&& (goal == GoalFunction::MAX ==> forall|a: int, i: int|
                        0 <= a < model.na && 0 <= i < model.vs ==>
                            (#[trigger] m.boxes@[a].pmf()[i])
                                == crate::distributions::max_cdf(
                                    model.regulator_pmfs(a), model.vs as int, i + 1)
                                - crate::distributions::max_cdf(
                                    model.regulator_pmfs(a), model.vs as int, i))
                    &&& (goal == GoalFunction::SUM ==> forall|a: int|
                        0 <= a < model.na ==> (#[trigger] m.boxes@[a]).pmf()
                            == crate::distributions::pair_reduce(model.regulator_pmfs(a)))
                },
            },
    {
        if goal == GoalFunction::COV {
            return Err(BprError::ConfigurationError);
        }
        let na = model.get_na();
        if l < 1 || l > k || k > na {
            return Err(BprError::ConstraintViolation);
        }
        let pm = if goal == GoalFunction::MAX {
            ProbeMax::from_bpr_max(model)
        } else {
            ProbeMax::from_bpr_sum(model)
        };
        let v = pm.get_v();
        proof {
            assert(v as int == mdp_support(model, goal));
            assert(2 * v as int >= 1);
        }
        let mut ns: u64 = 1;
        let mut i: usize = 0;
        proof {
            vstd::arithmetic::power::lemma_pow0(2 * v as int);
        }
        while i < na
            invariant
                i <= na,
                1 <= v <= MODEL_LIMIT * MODEL_LIMIT,
                ns as int == pow(2 * v as int, i as nat),
                ns <= MDP_STATE_LIMIT as u64,
                v as int == mdp_support(model, goal),
                goal != GoalFunction::COV,
                na == model.na,
                1 <= l && l <= k && k <= na,
            decreases na - i,
        {
            proof {
                crate::helper::lemma_pow_unfold(2 * v as int, (i + 1) as nat);
                assert((2 * v as int) * pow(2 * v as int, i as nat)
                    == pow(2 * v as int, i as nat) * (2 * v as int)) by (nonlinear_arith);
                assert(ns as int * (2 * v as int) <= 1048576int * (2 * 1048576int))
                    by (nonlinear_arith)
                    requires 0 <= ns as int <= 1048576, 1 <= v as int <= 1048576,
                ;
            }
            let next = ns * (2 * (v as u64));
            if next > MDP_STATE_LIMIT as u64 {
                proof {
                    assert(next as int == pow(2 * v as int, (i + 1) as nat));
                    vstd::arithmetic::power::lemma_pow_increases(
                        (2 * v) as nat, (i + 1) as nat, na as nat);
                    assert(pow(2 * v as int, na as nat) >= next as int);
                    vstd::arithmetic::power::lemma_pow_distributes(2, v as int, na as nat);
                    assert(pow(2, na as nat) * pow(v as int, na as nat)
                        == pow(2 * v as int, na as nat));
                    assert(pow(2, na as nat) * pow(mdp_support(model, goal), na as nat)
                        > MDP_STATE_LIMIT);
                }
                return Err(BprError::ConstraintViolation);
            }
            ns = next;
            i += 1;
        }
        proof {
            vstd::arithmetic::power::lemma_pow_distributes(2, v as int, na as nat);
        }
        let num_states = ns as usize;
        let vs = v - 1;
        let ghost nss = pow(2, na as nat) * pow(vs as int + 1, na as nat);
        proof {
            assert(nss == ns as int);
            assert(MDP_STATE_LIMIT <= usize::MAX);
        }
        let mut table: Vec<Vec<Option<(usize, u64)>>> = Vec::new();
        let mut layer0: Vec<Option<(usize, u64)>> = Vec::new();
        let mut z: usize = 0;
        while z < num_states
            invariant
                z <= num_states,
                layer0@.len() == z,
                forall|q: int| 0 <= q < z ==> (#[trigger] layer0@[q]) is None,
            decreases num_states - z,
        {
            layer0.push(None);
            z += 1;
        }
        table.push(layer0);
        proof {
            assert forall|sub2: Seq<bool>, vals2: Seq<int>|
                state_shaped(sub2, vals2, na as int, vs as int) implies
                #[trigger] table@[0]@[spec_state_index(sub2, vals2, vs as int)]
                    == table_entry(pm.boxes@, sub2, vals2, l as int, vs as int, 0) by {
                lemma_state_index_range(sub2, vals2, na as int, vs as int);
                assert(mdp_best(pm.boxes@, sub2, vals2, l as int, vs as int, 0) == (-1int, 0int));
            }
        }
        let mut t: usize = 1;
        while t <= k
            invariant
                1 <= t <= k + 1,
                k <= na,
                na == model.na,
                1 <= na <= MODEL_LIMIT,
                1 <= l <= k,
                1 <= v,
                (vs as int) + 1 == v,
                v <= MODEL_LIMIT * MODEL_LIMIT,
                pm.wf(),
                pm.n == na,
                pm.v == v,
                nss == pow(2, na as nat) * pow(vs as int + 1, na as nat),
                nss == num_states,
                num_states <= MDP_STATE_LIMIT,
                table@.len() == t,
                forall|tq: int| 0 <= tq < t ==> (#[trigger] table@[tq])@.len() == num_states,
                forall|tq: int, sub2: Seq<bool>, vals2: Seq<int>|
                    0 <= tq < t && state_shaped(sub2, vals2, na as int, vs as int) ==>
                        #[trigger] table@[tq]@[spec_state_index(sub2, vals2, vs as int)]
                            == table_entry(pm.boxes@, sub2, vals2, l as int, vs as int, tq),
            decreases k + 1 - t,
        {
            let mut layer: Vec<Option<(usize, u64)>> = Vec::new();
            let prev = &table[t - 1];
            proof {
                assert forall|sub2: Seq<bool>, vals2: Seq<int>|
                    state_shaped(sub2, vals2, na as int, vs as int) implies
                    #[trigger] prev@[spec_state_index(sub2, vals2, vs as int)]
                        == table_entry(pm.boxes@, sub2, vals2, l as int, vs as int,
                            t as int - 1) by {
                    assert(table@[t as int - 1]@[spec_state_index(sub2, vals2, vs as int)]
                        == table_entry(pm.boxes@, sub2, vals2, l as int, vs as int,
                            t as int - 1));
                }
            }
            let mut idx: usize = 0;
            while idx < num_states
                invariant
                    idx <= num_states,
                    1 <= t <= k,
                    k <= na,
                    1 <= na <= MODEL_LIMIT,
                    1 <= l <= k,
                    (vs as int) + 1 == v,
                    1 <= v <= MODEL_LIMIT * MODEL_LIMIT,
                    pm.wf(),
                    pm.n == na,
                    pm.v == v,
                    nss == pow(2, na as nat) * pow(vs as int + 1, na as nat),
                    nss == num_states,
                    num_states <= MDP_STATE_LIMIT,
                    prev@.len() == num_states,
                    forall|sub2: Seq<bool>, vals2: Seq<int>|
                        state_shaped(sub2, vals2, na as int, vs as int) ==>
                            #[trigger] prev@[spec_state_index(sub2, vals2, vs as int)]
                                == table_entry(pm.boxes@, sub2, vals2, l as int, vs as int,
                                    t as int - 1),
                    layer@.len() == idx,
                    forall|sub2: Seq<bool>, vals2: Seq<int>|
                        state_shaped(sub2, vals2, na as int, vs as int)
                        && 0 <= spec_state_index(sub2, vals2, vs as int) < idx ==>
                            #[trigger] layer@[spec_state_index(sub2, vals2, vs as int)]
                                == table_entry(pm.boxes@, sub2, vals2, l as int, vs as int,
                                    t as int),
                decreases num_states - idx,
            {
                proof {
                    assert(boxes_ok(pm.boxes@, vs as int));
                }
                let st = state_of_index(idx, na, vs);
                let mut best: Option<(usize, u64)> = None;
                let mut a: usize = 0;
                while a < na
                    invariant
                        a <= na,
                        1 <= t <= k,
                        k <= na,
                        1 <= na <= MODEL_LIMIT,
                        1 <= l <= k,
                        (vs as int) + 1 == v,
                        1 <= v <= MODEL_LIMIT * MODEL_LIMIT,
                        pm.wf(),
                        pm.n == na,
                        pm.v == v,
                        nss == pow(2, na as nat) * pow(vs as int + 1, na as nat),
                        nss == num_states,
                        num_states <= MDP_STATE_LIMIT,
                        prev@.len() == num_states,
                        forall|sub2: Seq<bool>, vals2: Seq<int>|
                            state_shaped(sub2, vals2, na as int, vs as int) ==>
                                #[trigger] prev@[spec_state_index(sub2, vals2, vs as int)]
                                    == table_entry(pm.boxes@, sub2, vals2, l as int, vs as int,
                                        t as int - 1),
                        state_shaped(st.0@, as_ints(st.1@), na as int, vs as int),
                        spec_state_index(st.0@, as_ints(st.1@), vs as int) == idx,
                        ({
                            let sc = mdp_scan(pm.boxes@, st.0@, as_ints(st.1@), l as int,
                                vs as int, t as int, a as int);
                            match best {
                                None => sc.0 == -1,
                                Some(pair) => sc.0 == pair.0 && sc.1 == pair.1
                                    && 0 <= sc.1 <= (t as int) * (vs as int) * (PROB_SCALE as int),
                            }
                        }),
                    decreases na - a,
                {
                    if !st.0[a] {
                        let q = q_value(&pm.boxes, &st.0, &st.1, l, vs, t, a, prev);
                        best = match best {
                            None => Some((a, q)),
                            Some(pair) => {
                                if q > pair.1 {
                                    Some((a, q))
                                } else {
                                    Some(pair)
                                }
                            },
                        };
                        proof {
                            lemma_q_bound(pm.boxes@, st.0@, as_ints(st.1@), l as int, vs as int,
                                t as int, a as int);
                        }
                    }
                    a += 1;
                }
                proof {
                    assert(mdp_best(pm.boxes@, st.0@, as_ints(st.1@), l as int, vs as int,
                        t as int)
                        == mdp_scan(pm.boxes@, st.0@, as_ints(st.1@), l as int, vs as int,
                            t as int, na as int));
                }
                let ghost old_layer = layer@;
                layer.push(best);
                proof {
                    assert forall|sub2: Seq<bool>, vals2: Seq<int>|
                        state_shaped(sub2, vals2, na as int, vs as int)
                        && 0 <= spec_state_index(sub2, vals2, vs as int) < idx + 1 implies
                        #[trigger] layer@[spec_state_index(sub2, vals2, vs as int)]
                            == table_entry(pm.boxes@, sub2, vals2, l as int, vs as int,
                                t as int) by {
                        lemma_state_index_range(sub2, vals2, na as int, vs as int);
                        if spec_state_index(sub2, vals2, vs as int) == idx {
                            lemma_state_index_injective(sub2, vals2, st.0@, as_ints(st.1@),
                                na as int, vs as int);
                            assert(layer@[idx as int] == best);
                        } else {
                            assert(layer@[spec_state_index(sub2, vals2, vs as int)]
                                == old_layer[spec_state_index(sub2, vals2, vs as int)]);
                        }
                    }
                }
                idx += 1;
            }
            proof {
                assert forall|sub2: Seq<bool>, vals2: Seq<int>|
                    state_shaped(sub2, vals2, na as int, vs as int) implies
                    #[trigger] layer@[spec_state_index(sub2, vals2, vs as int)]
                        == table_entry(pm.boxes@, sub2, vals2, l as int, vs as int,
                            t as int) by {
                    lemma_state_index_range(sub2, vals2, na as int, vs as int);
                }
            }
            table.push(layer);
            t += 1;
        }
        let boxes = pm.boxes;
        Ok(ProbemaxMDP { na, vs, k, l, boxes, optimal_table: table })
    }
}

/// The table-directed probing run after `s` probes on one trial's realized
/// values: probed flags, realized state values, the probe order, and
/// whether the run stopped early.
pub open spec fn extract_rec(
    boxes: Seq<WeightedDistribution>,
    reals: Seq<int>,
    l: int,
    vs: int,
    k: int,
    s: int,
) -> (Seq<bool>, Seq<int>, Seq<usize>, bool)
    decreases s,
{
    if s <= 0 {
        (
            Seq::new(boxes.len(), |i: int| false),
            Seq::new(boxes.len(), |i: int| 0),
            Seq::empty(),
            false,
        )
    } else {
        let prev = extract_rec(boxes, reals, l, vs, k, s - 1);
        if prev.3 {
            prev
        } else {
            let entry = table_entry(boxes, prev.0, prev.1, l, vs, k - (s - 1));
            match entry {
                None => (prev.0, prev.1, prev.2, true),
                Some(pair) => (
                    prev.0.update(pair.0 as int, true),
                    prev.1.update(pair.0 as int, reals[pair.0 as int]),
                    prev.2.push(pair.0),
                    false,
                ),
            }
        }
    }
}

impl ProbemaxMDP {
    /// Runs the solved policy on one trial: from the empty state, probe the
    /// table's action at each remaining horizon, updating the state with
    /// the trial's realized value, stopping early if the table holds no
    /// action; score the `l` largest realized values among the probes.
    pub fn extract_policy(&self, ins: &ProbeMaxInstance) -> (r: (Vec<usize>, usize))
        requires
            self.wf(),
            ins.wf(),
            ins.n == self.na,
            ins.v == self.vs + 1,
        ensures
            r.0@ == extract_rec(self.boxes@, as_ints(ins.realizations@), self.l as int,
                self.vs as int, self.k as int, self.k as int).2,
            r.0@.len() >= self.l ==> r.1 as int == crate::ranking::top_sum(
                as_ints(r.0@.map_values(|i: usize| ins.realizations@[i as int])),
                self.l as int,
            ),
    {
        let na = self.na;
        let mut subset: Vec<bool> = Vec::new();
        let mut values: Vec<usize> = Vec::new();
        let mut i: usize = 0;
        while i < na
            invariant
                i <= na,
                subset@.len() == i,
                values@.len() == i,
                forall|q: int| 0 <= q < i ==> !(#[trigger] subset@[q]),
                forall|q: int| 0 <= q < i ==> (#[trigger] values@[q]) == 0,
            decreases na - i,
        {
            subset.push(false);
            values.push(0);
            i += 1;
        }
        let ghost reals = as_ints(ins.realizations@);
        proof {
            assert(subset@ =~= extract_rec(self.boxes@, reals, self.l as int, self.vs as int,
                self.k as int, 0).0);
            assert(as_ints(values@) =~= extract_rec(self.boxes@, reals, self.l as int,
                self.vs as int, self.k as int, 0).1);
            assert(extract_rec(self.boxes@, reals, self.l as int, self.vs as int,
                self.k as int, 0).2 =~= Seq::<usize>::empty());
        }
        let mut probes: Vec<usize> = Vec::new();
        let mut stopped = false;
        let mut s: usize = 0;
        while s < self.k
            invariant
                s <= self.k,
                self.wf(),
                ins.wf(),
                ins.n == self.na,
                ins.v == self.vs + 1,
                na == self.na,
                reals == as_ints(ins.realizations@),
                subset@.len() == na,
                values@.len() == na,
                ({
                    let st = extract_rec(self.boxes@, reals, self.l as int, self.vs as int,
                        self.k as int, s as int);
                    &&& subset@ == st.0
                    &&& as_ints(values@) == st.1
                    &&& probes@ == st.2
                    &&& stopped == st.3
                }),
                forall|q: int| 0 <= q < values@.len() ==> (#[trigger] values@[q]) <= self.vs,
                probes@.len() <= s,
                forall|q: int| 0 <= q < probes@.len() ==>
                    (#[trigger] probes@[q]) < self.na,
            decreases self.k - s,
        {
            if !stopped {
                proof {
                    assert forall|q: int| 0 <= q < values@.len() implies
                        0 <= #[trigger] as_ints(values@)[q] <= self.vs by {
                        assert(as_ints(values@)[q] == values@[q] as int);
                    }
                }
                let state = (subset, values);
                let entry = self.get_best_action(&state, self.k - s);
                let (sub_back, vals_back) = state;
                subset = sub_back;
                values = vals_back;
                match entry {
                    None => {
                        stopped = true;
                    },
                    Some(pair) => {
                        proof {
                            lemma_best_bound(self.boxes@, subset@, as_ints(values@),
                                self.l as int, self.vs as int, self.k as int - s as int);
                        }
                        let a = pair.0;
                        let x = ins.get_realization(a);
                        subset.set(a, true);
                        values.set(a, x);
                        probes.push(a);
                        proof {
                            assert(as_ints(values@) =~= extract_rec(self.boxes@, reals,
                                self.l as int, self.vs as int, self.k as int,
                                s as int + 1).1);
                        }
                    },
                }
            }
            s += 1;
        }
        if probes.len() < self.l {
            return (probes, 0);
        }
        let mut picked: Vec<usize> = Vec::new();
        let mut q: usize = 0;
        while q < probes.len()
            invariant
                q <= probes@.len(),
                ins.wf(),
                ins.n == self.na,
                forall|t: int| 0 <= t < probes@.len() ==> (#[trigger] probes@[t]) < ins.n,
                picked@.len() == q,
                forall|t: int| 0 <= t < q ==> (#[trigger] picked@[t])
                    == ins.realizations@[probes@[t] as int],
                forall|t: int| 0 <= t < q ==> (#[trigger] picked@[t]) < ins.v,
            decreases probes@.len() - q,
        {
            picked.push(ins.get_realization(probes[q]));
            q += 1;
        }
        let sorted = crate::ranking::sort_desc_usize(&picked);
        proof {
            crate::ranking::lemma_sort_desc_ensures(as_ints(picked@));
            assert forall|t: int| 0 <= t < sorted@.len() implies
                (#[trigger] sorted@[t]) < ins.v by {
                crate::model::lemma_sorted_entry_bounded(as_ints(picked@), as_ints(sorted@), t,
                    ins.v as int);
            }
            assert(as_ints(picked@) =~= as_ints(probes@.map_values(
                |i: usize| ins.realizations@[i as int])));
        }
        let mut value: usize = 0;
        let mut t: usize = 0;
        while t < self.l
            invariant
                t <= self.l,
                self.l <= sorted@.len(),
                self.l <= MODEL_LIMIT,
                1 <= ins.v <= MODEL_LIMIT * MODEL_LIMIT,
                forall|u: int| 0 <= u < sorted@.len() ==> (#[trigger] sorted@[u]) < ins.v,
                value as int == mass_below(as_ints(sorted@), t as int),
                value as int <= t * (ins.v - 1),
            decreases self.l - t,
        {
            proof {
                assert((t + 1) * (ins.v - 1) == t * (ins.v - 1) + (ins.v - 1))
                    by (nonlinear_arith);
                assert((t + 1) * (ins.v - 1) <= MODEL_LIMIT * (MODEL_LIMIT * MODEL_LIMIT))
                    by (nonlinear_arith)
                    requires t + 1 <= MODEL_LIMIT, 1 <= ins.v <= MODEL_LIMIT * MODEL_LIMIT,
                ;
            }
            value = value + sorted[t];
            t += 1;
        }
        (probes, value)
    }
}

/// The continuation sum over outcomes below `x` is between zero and the
/// mass below `x` times the bound on the successor values.
pub proof fn lemma_cont_bound(
    boxes: Seq<WeightedDistribution>,
    subset: Seq<bool>,
    values: Seq<int>,
    l: int,
    vs: int,
    t: int,
    a: int,
    x: int,
)
    requires
        boxes_ok(boxes, vs),
        subset.len() == boxes.len(),
        values.len() == boxes.len(),
        vs >= 0,
        1 <= l <= values.len(),
        forall|i: int| 0 <= i < values.len() ==> 0 <= #[trigger] values[i] <= vs,
        t >= 1,
        0 <= a < boxes.len(),
        0 <= x <= vs + 1,
    ensures
        0 <= mdp_cont(boxes, subset, values, l, vs, t, a, x)
            <= mass_below(boxes[a].pmf(), x) * ((t - 1) * vs * (PROB_SCALE as int)),
        mass_below(boxes[a].pmf(), x) * ((t - 1) * vs * (PROB_SCALE as int))
            <= (PROB_SCALE as int) * ((t - 1) * vs * (PROB_SCALE as int)),
    decreases t, 1int, x,
{
    let s = PROB_SCALE as int;
    let p = boxes[a].pmf();
    assert(nonneg(p));
    let vb = (t - 1) * vs * s;
    assert(vb >= 0) by (nonlinear_arith)
        requires t >= 1, vs >= 0, s > 0, vb == (t - 1) * vs * s,
    ;
    lemma_mass_below_nonneg(p, x);
    lemma_mass_below_mono(p, x, p.len() as int);
    assert(mass_below(p, x) * vb <= s * vb) by (nonlinear_arith)
        requires 0 <= mass_below(p, x) <= s, vb >= 0,
    ;
    if x <= 0 {
        assert(mass_below(p, x) * vb >= 0) by (nonlinear_arith)
            requires mass_below(p, x) >= 0, vb >= 0,
        ;
    } else {
        lemma_cont_bound(boxes, subset, values, l, vs, t, a, x - 1);
        let nsub = subset.update(a, true);
        let nvals = values.update(a, x - 1);
        assert forall|i: int| 0 <= i < nvals.len() implies 0 <= #[trigger] nvals[i] <= vs by {
            if i != a {
                assert(nvals[i] == values[i]);
            }
        }
        lemma_value_bound(boxes, nsub, nvals, l, vs, t - 1);
        let w = mdp_value(boxes, nsub, nvals, l, vs, t - 1);
        assert(0 <= p_equal(p, x - 1) * w <= p[x - 1] * vb) by (nonlinear_arith)
            requires
                0 <= w <= vb,
                0 <= x - 1 < p.len() ==> p_equal(p, x - 1) == p[x - 1] && p[x - 1] >= 0,
                !(0 <= x - 1 < p.len()) ==> p_equal(p, x - 1) == 0,
                0 <= x - 1 < p.len(),
        ;
        assert(mass_below(p, x - 1) * vb + p[x - 1] * vb == mass_below(p, x) * vb)
            by (nonlinear_arith)
            requires mass_below(p, x) == mass_below(p, x - 1) + p[x - 1],
        ;
    }
}

} // verus!
