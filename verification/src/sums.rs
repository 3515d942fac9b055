use vstd::prelude::*;
use vstd::arithmetic::div_mod::{
    lemma_fundamental_div_mod, lemma_div_is_ordered, lemma_div_pos_is_pos,
    lemma_div_by_multiple, lemma_fundamental_div_mod_converse_div,
};
use vstd::arithmetic::mul::{lemma_mul_inequality, lemma_mul_is_distributive_add_other_way};

verus! {

/// Every entry of the sequence is non-negative.
pub open spec fn nonneg(p: Seq<int>) -> bool {
    forall|i: int| 0 <= i < p.len() ==> 0 <= #[trigger] p[i]
}

/// Sum of the first `i` entries of `p`.
pub open spec fn mass_below(p: Seq<int>, i: int) -> int
    decreases i,
{
    if i <= 0 {
        0
    } else {
        mass_below(p, i - 1) + p[i - 1]
    }
}

/// Sum of `j * p[j]` over the first `i` entries of `p`.
pub open spec fn weighted_mass_below(p: Seq<int>, i: int) -> int
    decreases i,
{
    if i <= 0 {
        0
    } else {
        weighted_mass_below(p, i - 1) + (i - 1) * p[i - 1]
    }
}

/// The total mass of a probability vector.
pub open spec fn dist_total(p: Seq<int>) -> int {
    mass_below(p, p.len() as int)
}

/// The full expectation of a probability vector over `{0, .., len-1}`.
pub open spec fn dist_expectation(p: Seq<int>) -> int {
    weighted_mass_below(p, p.len() as int)
}

/// Partial sums of non-negative entries grow with the cut-off.
pub proof fn lemma_mass_below_mono(p: Seq<int>, i: int, j: int)
    requires
        nonneg(p),
        i <= j <= p.len(),
    ensures
        mass_below(p, i) <= mass_below(p, j),
    decreases j - i,
{
    if i < j {
        lemma_mass_below_mono(p, i, j - 1);
    }
}

/// Partial sums of non-negative entries are non-negative.
pub proof fn lemma_mass_below_nonneg(p: Seq<int>, i: int)
    requires
        nonneg(p),
        i <= p.len(),
    ensures
        0 <= mass_below(p, i),
    decreases i,
{
    if i > 0 {
        lemma_mass_below_nonneg(p, i - 1);
    }
}

/// Each entry is at most the total mass.
pub proof fn lemma_entry_le_total(p: Seq<int>, i: int)
    requires
        nonneg(p),
        0 <= i < p.len(),
    ensures
        p[i] <= dist_total(p),
{
    lemma_mass_below_nonneg(p, i);
    lemma_mass_below_mono(p, i + 1, p.len() as int);
}

/// Partial weighted sums grow with the cut-off.
pub proof fn lemma_weighted_mass_below_mono(p: Seq<int>, i: int, j: int)
    requires
        nonneg(p),
        0 <= i <= j <= p.len(),
    ensures
        weighted_mass_below(p, i) <= weighted_mass_below(p, j),
    decreases j - i,
{
    if i < j {
        lemma_weighted_mass_below_mono(p, i, j - 1);
        assert((j - 1) * p[j - 1] >= 0) by (nonlinear_arith)
            requires j >= 1, p[j - 1] >= 0,
        ;
    }
}

/// Partial weighted sums are non-negative.
pub proof fn lemma_weighted_mass_below_nonneg(p: Seq<int>, i: int)
    requires
        nonneg(p),
        i <= p.len(),
    ensures
        0 <= weighted_mass_below(p, i),
{
    if i <= 0 {
    } else {
        lemma_weighted_mass_below_mono(p, 0, i);
    }
}

/// A partial weighted sum is at most `(i - 1)` times the matching mass.
pub proof fn lemma_weighted_mass_below_bound(p: Seq<int>, i: int)
    requires
        nonneg(p),
        0 <= i <= p.len(),
    ensures
        weighted_mass_below(p, i) <= (i - 1) * mass_below(p, i),
        (i - 1) * mass_below(p, i) <= (p.len() - 1) * mass_below(p, p.len() as int),
    decreases i,
{
    lemma_mass_below_nonneg(p, i);
    lemma_mass_below_mono(p, i, p.len() as int);
    lemma_mass_below_nonneg(p, p.len() as int);
    if i == 0 {
        assert((i - 1) * mass_below(p, i) == 0) by (nonlinear_arith)
            requires mass_below(p, i) == 0,
        ;
    } else {
        lemma_weighted_mass_below_bound(p, i - 1);
        lemma_mass_below_nonneg(p, i - 1);
        assert(weighted_mass_below(p, i) <= (i - 1) * mass_below(p, i)) by (nonlinear_arith)
            requires
                weighted_mass_below(p, i) == weighted_mass_below(p, i - 1) + (i - 1) * p[i - 1],
                weighted_mass_below(p, i - 1) <= (i - 2) * mass_below(p, i - 1),
                mass_below(p, i) == mass_below(p, i - 1) + p[i - 1],
                mass_below(p, i - 1) >= 0,
                p[i - 1] >= 0,
                i >= 1,
        ;
    }
    assert((i - 1) * mass_below(p, i) <= (p.len() - 1) * mass_below(p, p.len() as int))
        by (nonlinear_arith)
        requires
            i <= p.len(),
            0 <= mass_below(p, i),
            mass_below(p, i) <= mass_below(p, p.len() as int),
    ;
}

/// A sum of entries bounded by `c` is bounded by `m * c`.
pub proof fn lemma_mass_below_entry_bound(p: Seq<int>, m: int, c: int)
    requires
        0 <= m <= p.len(),
        forall|i: int| 0 <= i < p.len() ==> #[trigger] p[i] <= c,
        c >= 0,
    ensures
        mass_below(p, m) <= m * c,
    decreases m,
{
    if m > 0 {
        lemma_mass_below_entry_bound(p, m - 1, c);
        assert((m - 1) * c + c == m * c) by (nonlinear_arith);
    } else {
        assert(m * c == 0) by (nonlinear_arith)
            requires m == 0,
        ;
    }
}

/// The convolution sum `sum_{j < k} a[j] * b[i - j]`, with out-of-range
/// factors reading as zero.
pub open spec fn conv_term(a: Seq<int>, b: Seq<int>, i: int, k: int) -> int
    decreases k,
{
    if k <= 0 {
        0
    } else {
        conv_term(a, b, i, k - 1) + if 0 <= i - (k - 1) < b.len() {
            a[k - 1] * b[i - (k - 1)]
        } else {
            0
        }
    }
}

/// The full convolution sum at position `i`.
pub open spec fn conv_full(a: Seq<int>, b: Seq<int>, i: int) -> int {
    conv_term(a, b, i, a.len() as int)
}

/// Convolution sums of non-negative vectors are non-negative.
pub proof fn lemma_conv_term_nonneg(a: Seq<int>, b: Seq<int>, i: int, k: int)
    requires
        nonneg(a),
        nonneg(b),
        k <= a.len(),
    ensures
        0 <= conv_term(a, b, i, k),
    decreases k,
{
    if k > 0 {
        lemma_conv_term_nonneg(a, b, i, k - 1);
        if 0 <= i - (k - 1) < b.len() {
            assert(a[k - 1] * b[i - (k - 1)] >= 0) by (nonlinear_arith)
                requires a[k - 1] >= 0, b[i - (k - 1)] >= 0,
            ;
        }
    }
}

/// A convolution sum is bounded by the mass of `a` times the total of `b`.
pub proof fn lemma_conv_term_bound(a: Seq<int>, b: Seq<int>, i: int, k: int)
    requires
        nonneg(a),
        nonneg(b),
        0 <= k <= a.len(),
    ensures
        conv_term(a, b, i, k) <= mass_below(a, k) * dist_total(b),
    decreases k,
{
    lemma_mass_below_nonneg(b, b.len() as int);
    if k == 0 {
        assert(mass_below(a, 0) * dist_total(b) == 0) by (nonlinear_arith)
            requires mass_below(a, 0) == 0,
        ;
    } else {
        lemma_conv_term_bound(a, b, i, k - 1);
        let t = dist_total(b);
        if 0 <= i - (k - 1) < b.len() {
            lemma_entry_le_total(b, i - (k - 1));
            lemma_mul_inequality(b[i - (k - 1)], t, a[k - 1]);
            assert(a[k - 1] * b[i - (k - 1)] == b[i - (k - 1)] * a[k - 1]) by (nonlinear_arith);
            assert(t * a[k - 1] == a[k - 1] * t) by (nonlinear_arith);
        } else {
            assert(a[k - 1] * t >= 0) by (nonlinear_arith)
                requires a[k - 1] >= 0, t >= 0,
            ;
        }
        lemma_mul_is_distributive_add_other_way(t, mass_below(a, k - 1), a[k - 1]);
        assert((mass_below(a, k - 1) + a[k - 1]) * t == mass_below(a, k) * t);
        assert(mass_below(a, k) * t == t * mass_below(a, k)
            && (mass_below(a, k - 1) + a[k - 1]) * t == t * (mass_below(a, k - 1) + a[k - 1])
            && mass_below(a, k - 1) * t == t * mass_below(a, k - 1)
            && a[k - 1] * t == t * a[k - 1]) by (nonlinear_arith);
    }
}

/// Sum of the convolution sums at positions `0, .., m-1`, each cut at `k`.
pub open spec fn conv_prefix(a: Seq<int>, b: Seq<int>, k: int, m: int) -> int
    decreases m,
{
    if m <= 0 {
        0
    } else {
        conv_prefix(a, b, k, m - 1) + conv_term(a, b, m - 1, k)
    }
}

/// Prefixes of convolution sums of non-negative vectors are non-negative.
pub proof fn lemma_conv_prefix_nonneg(a: Seq<int>, b: Seq<int>, k: int, m: int)
    requires
        nonneg(a),
        nonneg(b),
        k <= a.len(),
    ensures
        0 <= conv_prefix(a, b, k, m),
    decreases m,
{
    if m > 0 {
        lemma_conv_prefix_nonneg(a, b, k, m - 1);
        lemma_conv_term_nonneg(a, b, m - 1, k);
    }
}

proof fn lemma_conv_prefix_zero(a: Seq<int>, b: Seq<int>, m: int)
    ensures
        conv_prefix(a, b, 0, m) == 0,
    decreases m,
{
    if m > 0 {
        lemma_conv_prefix_zero(a, b, m - 1);
    }
}

/// The sum `sum_{i < m} c * b[i - sh]` over in-range positions, equal to `c`
/// times the mass of `b` up to the window the range covers.
pub open spec fn shift_sum(c: int, b: Seq<int>, sh: int, m: int) -> int
    decreases m,
{
    if m <= 0 {
        0
    } else {
        shift_sum(c, b, sh, m - 1) + if 0 <= (m - 1) - sh < b.len() {
            c * b[(m - 1) - sh]
        } else {
            0
        }
    }
}

proof fn lemma_shift_sum_value(c: int, b: Seq<int>, sh: int, m: int)
    requires
        sh >= 0,
    ensures
        shift_sum(c, b, sh, m) == c * mass_below(
            b,
            if m - sh < 0 { 0 } else if m - sh > b.len() { b.len() as int } else { m - sh },
        ),
    decreases m,
{
    let cut = if m - sh < 0 { 0int } else if m - sh > b.len() { b.len() as int } else { m - sh };
    if m <= 0 {
        assert(cut == 0);
        assert(c * mass_below(b, 0) == 0) by (nonlinear_arith)
            requires mass_below(b, 0int) == 0,
        ;
    } else {
        lemma_shift_sum_value(c, b, sh, m - 1);
        let pcut = if m - 1 - sh < 0 { 0int } else if m - 1 - sh > b.len() { b.len() as int } else {
            m - 1 - sh
        };
        if 0 <= (m - 1) - sh < b.len() {
            assert(pcut == m - 1 - sh && cut == m - sh);
            assert(mass_below(b, cut) == mass_below(b, pcut) + b[m - 1 - sh]);
            assert(c * (mass_below(b, pcut) + b[m - 1 - sh])
                == c * mass_below(b, pcut) + c * b[m - 1 - sh]) by (nonlinear_arith);
        } else {
            assert(pcut == cut);
        }
    }
}

proof fn lemma_conv_prefix_split(a: Seq<int>, b: Seq<int>, k: int, m: int)
    requires
        k >= 1,
    ensures
        conv_prefix(a, b, k, m) == conv_prefix(a, b, k - 1, m) + shift_sum(a[k - 1], b, k - 1, m),
    decreases m,
{
    if m > 0 {
        lemma_conv_prefix_split(a, b, k, m - 1);
    }
}

/// Exchanging the order of summation: the convolution sums over all
/// positions add up to the product of the two masses.
pub proof fn lemma_conv_prefix_exchange(a: Seq<int>, b: Seq<int>, k: int, m: int)
    requires
        nonneg(a),
        nonneg(b),
        0 <= k <= a.len(),
        m >= k + b.len() - 1,
        m >= 0,
    ensures
        conv_prefix(a, b, k, m) == mass_below(a, k) * dist_total(b),
    decreases k,
{
    if k == 0 {
        lemma_conv_prefix_zero(a, b, m);
        assert(mass_below(a, 0) * dist_total(b) == 0) by (nonlinear_arith)
            requires mass_below(a, 0int) == 0,
        ;
    } else {
        lemma_conv_prefix_exchange(a, b, k - 1, m);
        lemma_conv_prefix_split(a, b, k, m);
        lemma_shift_sum_value(a[k - 1], b, k - 1, m);
        let cut = if m - (k - 1) < 0 { 0int } else if m - (k - 1) > b.len() { b.len() as int } else {
            m - (k - 1)
        };
        assert(cut == b.len() as int);
        assert(shift_sum(a[k - 1], b, k - 1, m) == a[k - 1] * dist_total(b));
        lemma_mul_is_distributive_add_other_way(dist_total(b), mass_below(a, k - 1), a[k - 1]);
        assert((mass_below(a, k - 1) + a[k - 1]) * dist_total(b)
            == mass_below(a, k - 1) * dist_total(b) + a[k - 1] * dist_total(b));
        assert(mass_below(a, k) * dist_total(b)
            == (mass_below(a, k - 1) + a[k - 1]) * dist_total(b));
    }
}

/// Floor division distributes sub-additively over sums of non-negatives:
/// `x/d + y/d <= (x+y)/d`.
pub proof fn lemma_div_sum_ge(x: int, y: int, d: int)
    requires
        x >= 0,
        y >= 0,
        d > 0,
    ensures
        x / d + y / d <= (x + y) / d,
        (x + y) / d <= x / d + y / d + 1,
{
    lemma_fundamental_div_mod(x, d);
    lemma_fundamental_div_mod(y, d);
    lemma_fundamental_div_mod(x + y, d);
    let q1 = x / d;
    let r1 = x % d;
    let q2 = y / d;
    let r2 = y % d;
    assert(x + y == d * (q1 + q2) + (r1 + r2)) by (nonlinear_arith)
        requires x == d * q1 + r1, y == d * q2 + r2,
    ;
    if r1 + r2 < d {
        lemma_fundamental_div_mod_converse_div(x + y, d, q1 + q2, r1 + r2);
    } else {
        assert(x + y == d * (q1 + q2 + 1) + (r1 + r2 - d)) by (nonlinear_arith)
            requires x + y == d * (q1 + q2) + (r1 + r2),
        ;
        lemma_fundamental_div_mod_converse_div(x + y, d, q1 + q2 + 1, r1 + r2 - d);
    }
}

} // verus!
