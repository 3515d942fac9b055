use vstd::prelude::*;
use vstd::arithmetic::power::pow;
use vstd::arithmetic::div_mod::{
    lemma_fundamental_div_mod_converse_div, lemma_fundamental_div_mod_converse_mod,
    lemma_mod_multiples_vanish, lemma_small_mod, lemma_hoist_over_denominator,
};
use vstd::arithmetic::power::{lemma_pow_adds, lemma_pow_positive, lemma_pow0, lemma_pow1};

verus! {

/// One unfolding of `pow`: `base^e == base * base^(e-1)` for positive `e`.
pub proof fn lemma_pow_unfold(b: int, e: nat)
    requires
        e >= 1,
    ensures
        pow(b, e) == b * pow(b, (e - 1) as nat),
{
    lemma_pow1(b);
    lemma_pow_adds(b, 1, (e - 1) as nat);
}

/// The digits of a little-endian positional numeral, read back as a number:
/// `s[k] + base * (s[k+1] + base * ...)`, starting at digit `k`.
pub open spec fn radix_value_from(s: Seq<int>, base: int, k: int) -> int
    decreases s.len() - k,
{
    if k < 0 || k >= s.len() {
        0
    } else {
        s[k] + base * radix_value_from(s, base, k + 1)
    }
}

/// The number whose little-endian digits in the given base are `s`.
pub open spec fn radix_value(s: Seq<int>, base: int) -> int {
    radix_value_from(s, base, 0)
}

/// A sequence of machine words, as mathematical integers.
pub open spec fn as_ints(s: Seq<usize>) -> Seq<int> {
    s.map_values(|x: usize| x as int)
}

/// A sequence of bits, as 0/1 integers.
pub open spec fn bits_as_ints(s: Seq<bool>) -> Seq<int> {
    s.map_values(|b: bool| if b { 1int } else { 0int })
}

/// The number whose little-endian binary digits are `s`.
pub open spec fn bits_value(s: Seq<bool>) -> int {
    radix_value(bits_as_ints(s), 2)
}

/// Every partial radix value of non-negative digits is non-negative.
pub proof fn lemma_radix_value_from_nonneg(s: Seq<int>, base: int, k: int)
    requires
        base >= 1,
        forall|i: int| 0 <= i < s.len() ==> 0 <= #[trigger] s[i],
    ensures
        0 <= radix_value_from(s, base, k),
    decreases s.len() - k,
{
    if 0 <= k < s.len() {
        lemma_radix_value_from_nonneg(s, base, k + 1);
        assert(base * radix_value_from(s, base, k + 1) >= 0) by (nonlinear_arith)
            requires base >= 1, radix_value_from(s, base, k + 1) >= 0,
        ;
    }
}

/// A numeral of `len - k` digits below the base stays below `base^(len - k)`.
pub proof fn lemma_radix_value_from_bound(s: Seq<int>, base: int, k: int)
    requires
        base >= 1,
        0 <= k <= s.len(),
        forall|i: int| 0 <= i < s.len() ==> 0 <= #[trigger] s[i] < base,
    ensures
        0 <= radix_value_from(s, base, k) < pow(base, (s.len() - k) as nat),
    decreases s.len() - k,
{
    if k == s.len() {
        lemma_pow0(base);
    } else {
        lemma_radix_value_from_bound(s, base, k + 1);
        let rest = radix_value_from(s, base, k + 1);
        let p = pow(base, (s.len() - k - 1) as nat);
        lemma_pow_unfold(base, (s.len() - k) as nat);
        assert(pow(base, (s.len() - k) as nat) == base * p);
        assert(s[k] + base * rest < base * p) by (nonlinear_arith)
            requires 0 <= s[k] < base, 0 <= rest, rest < p, base >= 1,
        ;
        lemma_radix_value_from_nonneg(s, base, k);
    }
}

/// Each digit can be read back from the value: digit `i` is
/// `value / base^i % base`.
pub proof fn lemma_radix_digit_extract(s: Seq<int>, base: int, i: int)
    requires
        base >= 2,
        0 <= i < s.len(),
        forall|j: int| 0 <= j < s.len() ==> 0 <= #[trigger] s[j] < base,
    ensures
        radix_value(s, base) / pow(base, i as nat) % base == s[i],
    decreases i,
{
    lemma_radix_value_from_bound(s, base, 0);
    let v = radix_value(s, base);
    let rest = radix_value_from(s, base, 1);
    lemma_radix_value_from_nonneg(s, base, 1);
    if i == 0 {
        lemma_pow0(base);
        assert(v == base * rest + s[0]);
        lemma_mod_multiples_vanish(rest, s[0], base);
        lemma_small_mod(s[0] as nat, base as nat);
        assert(v / 1int == v) by (nonlinear_arith);
    } else {
        // v / base == rest, and the digits of rest are s shifted by one.
        assert(v == base * rest + s[0]);
        lemma_fundamental_div_mod_converse_div(v, base, rest, s[0]);
        let tail = s.subrange(1, s.len() as int);
        assert(forall|k: int| 0 <= k < s.len() - 1 ==>
            radix_value_from(tail, base, k) == radix_value_from(s, base, k + 1)) by {
            lemma_radix_value_from_shift(s, base, 1);
        }
        assert(radix_value(tail, base) == rest);
        lemma_radix_digit_extract(tail, base, i - 1);
        assert(rest / pow(base, (i - 1) as nat) % base == tail[i - 1]);
        assert(tail[i - 1] == s[i]);
        // v / pow(base, i) == (v / base) / pow(base, i - 1)
        lemma_pow_positive(base, (i - 1) as nat);
        vstd::arithmetic::div_mod::lemma_div_denominator(v, base, pow(base, (i - 1) as nat));
        lemma_pow_unfold(base, i as nat);
        assert(pow(base, i as nat) == base * pow(base, (i - 1) as nat));
        assert(v / pow(base, i as nat) == rest / pow(base, (i - 1) as nat));
    }
}

/// Dropping the first `d` digits shifts every partial value.
pub proof fn lemma_radix_value_from_shift(s: Seq<int>, base: int, d: int)
    requires
        0 <= d <= s.len(),
    ensures
        forall|k: int| 0 <= k <= s.len() - d ==>
            radix_value_from(s.subrange(d, s.len() as int), base, k)
                == radix_value_from(s, base, k + d),
{
    let tail = s.subrange(d, s.len() as int);
    assert forall|k: int| 0 <= k <= s.len() - d implies
        radix_value_from(tail, base, k) == radix_value_from(s, base, k + d) by {
        lemma_radix_value_from_shift_one(s, base, d, k);
    }
}

proof fn lemma_radix_value_from_shift_one(s: Seq<int>, base: int, d: int, k: int)
    requires
        0 <= d <= s.len(),
        0 <= k <= s.len() - d,
    ensures
        radix_value_from(s.subrange(d, s.len() as int), base, k)
            == radix_value_from(s, base, k + d),
    decreases s.len() - d - k,
{
    let tail = s.subrange(d, s.len() as int);
    if k < s.len() - d {
        lemma_radix_value_from_shift_one(s, base, d, k + 1);
        assert(tail[k] == s[k + d]);
    }
}

/// The numeral with digits `x / base^i % base` reads back to `x` itself.
pub proof fn lemma_radix_value_of_digits(s: Seq<int>, base: int, x: int)
    requires
        base >= 2,
        0 <= x < pow(base, s.len() as nat),
        forall|i: int| 0 <= i < s.len() ==> #[trigger] s[i] == x / pow(base, i as nat) % base,
    ensures
        radix_value(s, base) == x,
    decreases s.len(),
{
    if s.len() == 0 {
        lemma_pow0(base);
    } else {
        let q = x / base;
        let r = x % base;
        vstd::arithmetic::div_mod::lemma_fundamental_div_mod(x, base);
        vstd::arithmetic::div_mod::lemma_div_pos_is_pos(x, base);
        vstd::arithmetic::div_mod::lemma_mod_division_less_than_divisor(x, base);
        lemma_pow0(base);
        assert(s[0] == x / 1int % base);
        assert(x / 1int == x) by (nonlinear_arith);
        assert(s[0] == r);
        let tail = s.subrange(1, s.len() as int);
        // q < pow(base, len - 1)
        lemma_pow_unfold(base, s.len() as nat);
        assert(pow(base, s.len() as nat) == base * pow(base, (s.len() - 1) as nat));
        lemma_pow_positive(base, (s.len() - 1) as nat);
        assert(q < pow(base, (s.len() - 1) as nat)) by (nonlinear_arith)
            requires
                x < base * pow(base, (s.len() - 1) as nat),
                q == x / base,
                base >= 2,
                x >= 0,
                q * base + r == x,
                0 <= r < base,
                pow(base, (s.len() - 1) as nat) >= 1,
        ;
        assert forall|i: int| 0 <= i < tail.len() implies
            #[trigger] tail[i] == q / pow(base, i as nat) % base by {
            assert(tail[i] == s[i + 1]);
            assert(s[i + 1] == x / pow(base, (i + 1) as nat) % base);
            lemma_pow_positive(base, i as nat);
            vstd::arithmetic::div_mod::lemma_div_denominator(x, base, pow(base, i as nat));
            lemma_pow_unfold(base, (i + 1) as nat);
            assert(pow(base, (i + 1) as nat) == base * pow(base, i as nat));
            assert(x / pow(base, (i + 1) as nat) == q / pow(base, i as nat));
        }
        lemma_radix_value_of_digits(tail, base, q);
        lemma_radix_value_from_shift(s, base, 1);
        assert(radix_value_from(s, base, 1) == radix_value(tail, base));
        assert(radix_value(s, base) == s[0] + base * q);
        assert(s[0] + base * q == x) by (nonlinear_arith)
            requires s[0] == r, q * base + r == x,
        ;
    }
}

/// Later partial values never exceed the full value (digits are non-negative).
pub proof fn lemma_radix_value_from_le(s: Seq<int>, base: int, k: int)
    requires
        base >= 1,
        0 <= k,
        forall|i: int| 0 <= i < s.len() ==> 0 <= #[trigger] s[i],
    ensures
        radix_value_from(s, base, k) <= radix_value(s, base),
    decreases k,
{
    if k > 0 {
        lemma_radix_value_from_le(s, base, k - 1);
        if 0 <= k - 1 < s.len() {
            let rest = radix_value_from(s, base, k);
            lemma_radix_value_from_nonneg(s, base, k);
            assert(rest <= s[k - 1] + base * rest) by (nonlinear_arith)
                requires base >= 1, rest >= 0, s[k - 1] >= 0,
            ;
        }
    }
}

/// Digit `i`, reading the digits of `j` most-significant first, of the
/// `n`-digit numeral for `j` in the given base.
pub open spec fn be_digit(j: int, n: int, base: int, i: int) -> int {
    j / pow(base, (n - 1 - i) as nat) % base
}

/// Every vector of length `n` over `{0, .., values-1}`, ordered as counting:
/// entry `j` holds the big-endian digits of `j`.
pub fn combinations(n: usize, values: usize) -> (r: Vec<Vec<usize>>)
    ensures
        r@.len() == pow(values as int, n as nat),
        forall|j: int| 0 <= j < r@.len() ==> (#[trigger] r@[j])@.len() == n,
        forall|j: int, i: int| 0 <= j < r@.len() && 0 <= i < n ==>
            (#[trigger] r@[j]@[i]) as int == be_digit(j, n as int, values as int, i),
    decreases n,
{
    if n == 0 {
        let mut r: Vec<Vec<usize>> = Vec::new();
        r.push(Vec::new());
        proof {
            lemma_pow0(values as int);
        }
        return r;
    }
    let sub = combinations(n - 1, values);
    let ghost gl: int = sub@.len() as int;
    proof {
        lemma_pow_unfold(values as int, n as nat);
        assert(pow(values as int, n as nat) == (values as int) * gl);
    }
    let mut val: Vec<Vec<usize>> = Vec::new();
    let mut v: usize = 0;
    while v < values
        invariant
            v <= values,
            sub@.len() == pow(values as int, (n - 1) as nat),
            forall|j: int| 0 <= j < sub@.len() ==> (#[trigger] sub@[j])@.len() == n - 1,
            forall|j: int, i: int| 0 <= j < sub@.len() && 0 <= i < n - 1 ==>
                (#[trigger] sub@[j]@[i]) as int == be_digit(j, n as int - 1, values as int, i),
            val@.len() == v * gl,
            gl == sub@.len() as int,
            n >= 1,
            forall|j: int| 0 <= j < val@.len() ==> (#[trigger] val@[j])@.len() == n,
            forall|j: int, i: int| 0 <= j < val@.len() && 0 <= i < n ==>
                (#[trigger] val@[j]@[i]) as int == be_digit(j, n as int, values as int, i),
        decreases values - v,
    {
        proof {
            assert((v + 1) * gl == v * gl + gl) by (nonlinear_arith);
            assert(v * gl >= 0) by (nonlinear_arith) requires v >= 0, gl >= 0;
        }
        let mut widx: usize = 0;
        while widx < sub.len()
            invariant
                widx <= sub@.len(),
                sub@.len() == pow(values as int, (n - 1) as nat),
                forall|j: int| 0 <= j < sub@.len() ==> (#[trigger] sub@[j])@.len() == n - 1,
                forall|j: int, i: int| 0 <= j < sub@.len() && 0 <= i < n - 1 ==>
                    (#[trigger] sub@[j]@[i]) as int == be_digit(j, n as int - 1, values as int, i),
                val@.len() == v * gl + widx,
                gl == sub@.len() as int,
                n >= 1,
                v < values,
                forall|j: int| 0 <= j < val@.len() ==> (#[trigger] val@[j])@.len() == n,
                forall|j: int, i: int| 0 <= j < val@.len() && 0 <= i < n ==>
                    (#[trigger] val@[j]@[i]) as int == be_digit(j, n as int, values as int, i),
            decreases sub@.len() - widx,
        {
            let w = &sub[widx];
            let mut x: Vec<usize> = Vec::new();
            x.push(v);
            let mut z: usize = 0;
            while z < w.len()
                invariant
                    z <= w@.len(),
                    x@.len() == z + 1,
                    x@[0] == v,
                    w@.len() == n - 1,
                    forall|i: int| 0 <= i < z ==> #[trigger] x@[i + 1] == w@[i],
                decreases w@.len() - z,
            {
                x.push(w[z]);
                z += 1;
            }
            proof {
                lemma_combination_entry(n as int, values as int, gl, v as int, widx as int,
                    x@.map_values(|u: usize| u as int),
                    w@.map_values(|u: usize| u as int));
                assert forall|i: int| 0 <= i < n implies
                    (#[trigger] x@[i]) as int == be_digit(v * gl + widx, n as int, values as int, i) by {
                    assert(x@.map_values(|u: usize| u as int)[i] == x@[i] as int);
                }
            }
            let ghost prev = val@;
            val.push(x);
            proof {
                assert forall|j: int, i: int| 0 <= j < val@.len() && 0 <= i < n implies
                    (#[trigger] val@[j]@[i]) as int == be_digit(j, n as int, values as int, i) by {
                    if j < prev.len() {
                        assert(val@[j] == prev[j]);
                    } else {
                        assert(val@[j] == x);
                        assert(j == v * gl + widx);
                    }
                }
            }
            widx += 1;
        }
        v += 1;
    }
    proof {
        lemma_pow_unfold(values as int, n as nat);
    }
    val
}

/// The entry at position `v * gl + widx` of the combination list carries the
/// big-endian digits of its own position.
proof fn lemma_combination_entry(n: int, base: int, gl: int, v: int, widx: int, x: Seq<int>, w: Seq<int>)
    requires
        n >= 1,
        base >= 1,
        gl == pow(base, (n - 1) as nat),
        0 <= v < base,
        0 <= widx < gl,
        x.len() == n,
        x[0] == v,
        forall|i: int| 0 <= i < n - 1 ==> #[trigger] x[i + 1] == w[i],
        w.len() == n - 1,
        forall|i: int| 0 <= i < n - 1 ==> #[trigger] w[i] == be_digit(widx, n - 1, base, i),
    ensures
        forall|i: int| 0 <= i < n ==> #[trigger] x[i] == be_digit(v * gl + widx, n, base, i),
{
    let j = v * gl + widx;
    lemma_pow_positive(base, (n - 1) as nat);
    assert forall|i: int| 0 <= i < n implies #[trigger] x[i] == be_digit(j, n, base, i) by {
        if i == 0 {
            // j / gl == v, and v % base == v.
            lemma_fundamental_div_mod_converse_div(j, gl, v, widx);
            lemma_small_mod(v as nat, base as nat);
            assert(be_digit(j, n, base, 0) == j / pow(base, (n - 1) as nat) % base);
        } else {
            // j / base^(n-1-i) == v * base^(i-1) * base + widx / base^(n-1-i)
            let p = pow(base, (n - 1 - i) as nat);
            lemma_pow_positive(base, (n - 1 - i) as nat);
            lemma_pow_adds(base, (i - 1) as nat, (n - 1 - i) as nat);
            lemma_pow_positive(base, (i - 1) as nat);
            let q = pow(base, (i - 1) as nat);
            // gl == q * p * base
            assert(gl == q * p * base) by {
                lemma_pow_adds(base, ((n - 2) as nat), 1);
                lemma_pow1(base);
                assert(pow(base, (n - 1) as nat) == pow(base, (n - 2) as nat) * base);
                assert(((i - 1) + (n - 1 - i)) as nat == (n - 2) as nat);
                assert(pow(base, (n - 2) as nat) == q * p);
            }
            lemma_hoist_over_denominator(widx, v * q * base, p as nat);
            assert(widx / p + v * q * base == (widx + v * q * base * p) / p);
            assert(v * gl == v * q * base * p || v * (q * p * base) == v * q * base * p) by (nonlinear_arith);
            assert(v * gl == v * q * base * p) by (nonlinear_arith)
                requires gl == q * p * base,
            ;
            assert(j / p == widx / p + v * q * base);
            // take mod base: the multiple of base vanishes
            lemma_mod_multiples_vanish(v * q, widx / p, base);
            assert(base * (v * q) + widx / p == widx / p + v * q * base) by (nonlinear_arith);
            assert(j / p % base == widx / p % base);
            assert(x[(i - 1) + 1] == w[i - 1]);
            assert(x[i] == w[i - 1]);
            assert(w[i - 1] == be_digit(widx, n - 1, base, i - 1));
            assert(be_digit(widx, n - 1, base, i - 1) == widx / pow(base, (n - 1 - i) as nat) % base);
        }
    }
}

/// Every true/false vector of length `n`, ordered as counting with the least
/// significant bit last in `combinations` order but reversed per entry, so
/// that entry `j` holds the little-endian bits of `j`. For `n == 0` the list
/// is empty.
pub fn boolean_combination(n: usize) -> (r: Vec<Vec<bool>>)
    ensures
        n == 0 ==> r@.len() == 0,
        n >= 1 ==> r@.len() == pow(2, n as nat),
        forall|j: int| 0 <= j < r@.len() ==> (#[trigger] r@[j])@.len() == n,
        forall|j: int, i: int| 0 <= j < r@.len() && 0 <= i < n ==>
            (#[trigger] r@[j]@[i]) == (j / pow(2, i as nat) % 2 == 1),
{
    if n == 0 {
        return Vec::new();
    }
    let combs = combinations(n, 2);
    let mut r: Vec<Vec<bool>> = Vec::new();
    let mut j: usize = 0;
    while j < combs.len()
        invariant
            j <= combs@.len(),
            combs@.len() == pow(2, n as nat),
            forall|q: int| 0 <= q < combs@.len() ==> (#[trigger] combs@[q])@.len() == n,
            forall|q: int, i: int| 0 <= q < combs@.len() && 0 <= i < n ==>
                (#[trigger] combs@[q]@[i]) as int == be_digit(q, n as int, 2, i),
            r@.len() == j,
            forall|q: int| 0 <= q < r@.len() ==> (#[trigger] r@[q])@.len() == n,
            forall|q: int, i: int| 0 <= q < r@.len() && 0 <= i < n ==>
                (#[trigger] r@[q]@[i]) == (q / pow(2, i as nat) % 2 == 1),
        decreases combs@.len() - j,
    {
        let w = &combs[j];
        let mut x: Vec<bool> = Vec::new();
        let mut i: usize = 0;
        while i < w.len()
            invariant
                i <= w@.len(),
                w@.len() == n,
                x@.len() == i,
                forall|q: int| 0 <= q < i ==> #[trigger] x@[q] == (w@[n - 1 - q] == 1),
            decreases w@.len() - i,
        {
            x.push(w[w.len() - 1 - i] == 1);
            i += 1;
        }
        proof {
            assert forall|i2: int| 0 <= i2 < n implies
                #[trigger] x@[i2] == (j as int / pow(2, i2 as nat) % 2 == 1) by {
                assert(x@[i2] == (w@[n - 1 - i2] == 1));
                assert(w@[n - 1 - i2] as int == be_digit(j as int, n as int, 2, n - 1 - i2));
                assert(be_digit(j as int, n as int, 2, n - 1 - i2)
                    == j as int / pow(2, i2 as nat) % 2);
                assert(0 <= j as int / pow(2, i2 as nat) % 2 < 2) by {
                    vstd::arithmetic::div_mod::lemma_mod_division_less_than_divisor(
                        j as int / pow(2, i2 as nat), 2);
                }
            }
        }
        r.push(x);
        j += 1;
    }
    r
}

/// The number whose little-endian binary representation the vector is.
pub fn boolean_array_to_usize(arr: &Vec<bool>) -> (val: usize)
    requires
        bits_value(arr@) <= usize::MAX,
    ensures
        val as int == bits_value(arr@),
{
    let ghost s = bits_as_ints(arr@);
    let mut val: usize = 0;
    let mut k: usize = arr.len();
    proof {
        assert(radix_value_from(s, 2, arr@.len() as int) == 0);
    }
    while k > 0
        invariant
            k <= arr@.len(),
            s == bits_as_ints(arr@),
            s.len() == arr@.len(),
            val as int == radix_value_from(s, 2, k as int),
            radix_value(s, 2) <= usize::MAX,
        decreases k,
    {
        k -= 1;
        proof {
            assert(forall|i: int| 0 <= i < s.len() ==> 0 <= #[trigger] s[i]);
            lemma_radix_value_from_le(s, 2, k as int);
            lemma_radix_value_from_nonneg(s, 2, k as int);
            assert(radix_value_from(s, 2, k as int)
                == s[k as int] + 2 * radix_value_from(s, 2, k as int + 1));
        }
        let bit: usize = if arr[k] { 1 } else { 0 };
        val = 2 * val + bit;
    }
    val
}

/// The number whose little-endian digits, in base `base`, the vector is.
pub fn usize_array_to_usize(arr: &Vec<usize>, base: usize) -> (val: usize)
    requires
        base >= 1,
        radix_value(as_ints(arr@), base as int) <= usize::MAX,
    ensures
        val as int == radix_value(as_ints(arr@), base as int),
{
    let ghost s = as_ints(arr@);
    let mut val: usize = 0;
    let mut k: usize = arr.len();
    proof {
        assert(radix_value_from(s, base as int, arr@.len() as int) == 0);
    }
    while k > 0
        invariant
            k <= arr@.len(),
            base >= 1,
            s == as_ints(arr@),
            s.len() == arr@.len(),
            val as int == radix_value_from(s, base as int, k as int),
            radix_value(s, base as int) <= usize::MAX,
        decreases k,
    {
        k -= 1;
        proof {
            assert(forall|i: int| 0 <= i < s.len() ==> 0 <= #[trigger] s[i]);
            lemma_radix_value_from_le(s, base as int, k as int);
            lemma_radix_value_from_nonneg(s, base as int, k as int + 1);
            assert(radix_value_from(s, base as int, k as int)
                == s[k as int] + base * radix_value_from(s, base as int, k as int + 1));
            assert(base * (val as int) == (val as int) * base) by (nonlinear_arith);
        }
        val = val * base + arr[k];
    }
    val
}

/// `base` to the power `exp`, for results that fit a machine word.
pub fn pow_usize(base: usize, exp: usize) -> (r: usize)
    requires
        base >= 1,
        pow(base as int, exp as nat) <= usize::MAX,
    ensures
        r as int == pow(base as int, exp as nat),
        r >= 1,
{
    let mut acc: usize = 1;
    let mut i: usize = 0;
    proof {
        lemma_pow0(base as int);
    }
    while i < exp
        invariant
            i <= exp,
            base >= 1,
            pow(base as int, exp as nat) <= usize::MAX,
            acc as int == pow(base as int, i as nat),
            acc >= 1,
        decreases exp - i,
    {
        proof {
            lemma_pow_unfold(base as int, (i + 1) as nat);
            vstd::arithmetic::power::lemma_pow_increases(
                base as nat, (i + 1) as nat, exp as nat);
            lemma_pow_positive(base as int, (i + 1) as nat);
            assert(base * acc == acc * base) by (nonlinear_arith);
        }
        acc = acc * base;
        i += 1;
    }
    acc
}

/// The little-endian digits, in base `base`, of a number below `base^n`.
pub fn usize_to_usize_array(x: usize, n: usize, base: usize) -> (arr: Vec<usize>)
    requires
        base >= 2,
        x < pow(base as int, n as nat),
    ensures
        arr@.len() == n,
        forall|i: int| 0 <= i < n ==>
            (#[trigger] arr@[i]) as int == x as int / pow(base as int, i as nat) % base as int,
        forall|i: int| 0 <= i < n ==> (#[trigger] arr@[i]) < base,
        radix_value(as_ints(arr@), base as int) == x,
{
    let mut arr: Vec<usize> = Vec::new();
    let mut cur: usize = x;
    let mut i: usize = 0;
    proof {
        lemma_pow0(base as int);
        assert(x as int / 1int == x as int) by (nonlinear_arith);
    }
    while i < n
        invariant
            i <= n,
            base >= 2,
            x < pow(base as int, n as nat),
            cur as int == x as int / pow(base as int, i as nat),
            arr@.len() == i,
            forall|q: int| 0 <= q < i ==>
                (#[trigger] arr@[q]) as int == x as int / pow(base as int, q as nat) % base as int,
            forall|q: int| 0 <= q < i ==> (#[trigger] arr@[q]) < base,
        decreases n - i,
    {
        let d = cur % base;
        proof {
            vstd::arithmetic::div_mod::lemma_mod_division_less_than_divisor(cur as int, base as int);
            lemma_pow_positive(base as int, i as nat);
            vstd::arithmetic::div_mod::lemma_div_denominator(
                x as int, pow(base as int, i as nat), base as int);
            lemma_pow_unfold(base as int, (i + 1) as nat);
            assert(pow(base as int, (i + 1) as nat) == base as int * pow(base as int, i as nat));
            assert(pow(base as int, i as nat) * base as int
                == base as int * pow(base as int, i as nat)) by (nonlinear_arith);
        }
        arr.push(d);
        cur = cur / base;
        i += 1;
    }
    proof {
        lemma_radix_value_of_digits(as_ints(arr@), base as int, x as int);
    }
    arr
}

} // verus!
