//! Descending order statistics: sorting realized values, the l-th largest
//! value (the scoring water-mark), and top-l sums.

use vstd::prelude::*;
use vstd::multiset::Multiset;
use vstd::relations::total_ordering;
use vstd::seq_lib::{to_multiset_build, to_multiset_remove, to_multiset_len, to_multiset_contains};

use crate::helper::as_ints;
use crate::sums::mass_below;

verus! {

broadcast use vstd::multiset::group_multiset_axioms;

/// A sequence without entries carries the empty multiset.
proof fn lemma_empty_seq_multiset<A>(s: Seq<A>)
    requires
        s.len() == 0,
    ensures
        s.to_multiset() == Multiset::<A>::empty(),
{
    to_multiset_len(s);
    assert(s.to_multiset() =~= Multiset::<A>::empty());
}

/// Moving one value from the pending pile to the sorted pile keeps the two
/// piles a partition of the whole.
proof fn lemma_multiset_transfer<A>(r0: Multiset<A>, rem0: Multiset<A>, v: Multiset<A>, x: A)
    requires
        r0.add(rem0) == v,
        rem0.count(x) > 0,
    ensures
        r0.insert(x).add(rem0.remove(x)) == v,
{
    assert(r0.insert(x).add(rem0.remove(x)) =~= v);
}

/// Mapping a function over two sequences with the same multiset of entries
/// gives two sequences with the same multiset of images.
pub proof fn lemma_map_preserves_multiset<A, B>(a: Seq<A>, b: Seq<A>, f: spec_fn(A) -> B)
    requires
        a.to_multiset() == b.to_multiset(),
    ensures
        a.map_values(f).to_multiset() == b.map_values(f).to_multiset(),
    decreases a.len(),
{
    to_multiset_len(a);
    to_multiset_len(b);
    if a.len() == 0 {
        lemma_empty_seq_multiset(a.map_values(f));
        lemma_empty_seq_multiset(b.map_values(f));
    } else {
        to_multiset_contains(a, a[0]);
        to_multiset_contains(b, a[0]);
        assert(a.contains(a[0]));
        assert(b.contains(a[0]));
        let i = choose|i: int| 0 <= i < b.len() && b[i] == a[0];
        let a1 = a.remove(0);
        let b1 = b.remove(i);
        to_multiset_remove(a, 0);
        to_multiset_remove(b, i);
        assert(a1.to_multiset() == b1.to_multiset());
        lemma_map_preserves_multiset(a1, b1, f);
        assert(a.map_values(f).remove(0) =~= a1.map_values(f));
        assert(b.map_values(f).remove(i) =~= b1.map_values(f));
        to_multiset_remove(a.map_values(f), 0);
        to_multiset_remove(b.map_values(f), i);
        assert(a.map_values(f)[0] == f(a[0]));
        assert(b.map_values(f)[i] == f(b[i]));
        assert(a.map_values(f).contains(f(a[0])));
        assert(b.map_values(f).contains(f(a[0])));
        to_multiset_contains(a.map_values(f), f(a[0]));
        to_multiset_contains(b.map_values(f), f(a[0]));
        let ma = a.map_values(f).to_multiset();
        let mb = b.map_values(f).to_multiset();
        assert forall|k: B| ma.count(k) == mb.count(k) by {
            assert(ma.remove(f(a[0])).count(k) == mb.remove(f(a[0])).count(k));
        }
        assert(ma =~= mb);
    }
}

/// Two positions holding the same value put at least two copies of it in
/// the multiset.
pub proof fn lemma_dup_count<A>(s: Seq<A>, i: int, j: int)
    requires
        0 <= i < j < s.len(),
        s[i] == s[j],
    ensures
        s.to_multiset().count(s[i]) >= 2,
{
    to_multiset_remove(s, i);
    let s1 = s.remove(i);
    assert(s1[j - 1] == s[j]);
    assert(s1.contains(s[i]));
    to_multiset_contains(s1, s[i]);
}

/// A sequence of pairwise-distinct entries counts no value twice.
pub proof fn lemma_distinct_seq_count<A>(s: Seq<A>, x: A)
    requires
        forall|q1: int, q2: int| 0 <= q1 < q2 < s.len() ==>
            s[q1] != s[q2],
    ensures
        s.to_multiset().count(x) <= 1,
{
    if s.to_multiset().count(x) >= 2 {
        to_multiset_contains(s, x);
        assert(s.contains(x));
        let i = choose|i: int| 0 <= i < s.len() && s[i] == x;
        to_multiset_remove(s, i);
        let s1 = s.remove(i);
        to_multiset_contains(s1, x);
        assert(s1.contains(x));
        let j = choose|j: int| 0 <= j < s1.len() && s1[j] == x;
        if j < i {
            assert(s[j] == x);
        } else {
            assert(s[j + 1] == x);
        }
    }
}

/// Every multiset member of a sequence stands at some position.
pub proof fn lemma_count_to_index<A>(s: Seq<A>, x: A)
    requires
        s.to_multiset().count(x) > 0,
    ensures
        exists|i: int| 0 <= i < s.len() && s[i] == x,
{
    to_multiset_contains(s, x);
    assert(s.contains(x));
}

/// Weakly descending.
pub open spec fn sorted_desc(s: Seq<int>) -> bool {
    forall|i: int, j: int| 0 <= i <= j < s.len() ==> #[trigger] s[i] >= #[trigger] s[j]
}

/// The descending rearrangement of a sequence.
pub open spec fn sort_desc(s: Seq<int>) -> Seq<int> {
    s.sort_by(|x: int, y: int| x >= y)
}

/// The `l`-th largest entry (1-indexed).
pub open spec fn lth_largest(s: Seq<int>, l: int) -> int {
    sort_desc(s)[l - 1]
}

/// The sum of the `l` largest entries.
pub open spec fn top_sum(s: Seq<int>, l: int) -> int {
    mass_below(sort_desc(s), l)
}

/// What vstd's closed sort guarantees, phrased for descending order.
pub proof fn lemma_sort_desc_ensures(s: Seq<int>)
    ensures
        sort_desc(s).len() == s.len(),
        sort_desc(s).to_multiset() == s.to_multiset(),
        sorted_desc(sort_desc(s)),
{
    let leq = |x: int, y: int| x >= y;
    assert(total_ordering(leq));
    s.lemma_sort_by_ensures(leq);
    to_multiset_len(s);
    to_multiset_len(sort_desc(s));
    assert(s.to_multiset() =~= sort_desc(s).to_multiset());
    let r = sort_desc(s);
    assert forall|i: int, j: int| 0 <= i <= j < r.len() implies
        #[trigger] r[i] >= #[trigger] r[j] by {
        if i < j {
            assert(leq(r[i], r[j]));
        }
    }
}

/// Two weakly descending sequences holding the same multiset of values are
/// the same sequence: the descending rearrangement is unique.
pub proof fn lemma_sorted_desc_unique(a: Seq<int>, b: Seq<int>)
    requires
        sorted_desc(a),
        sorted_desc(b),
        a.to_multiset() == b.to_multiset(),
    ensures
        a == b,
    decreases a.len(),
{
    to_multiset_len(a);
    to_multiset_len(b);
    if a.len() == 0 {
        assert(a =~= b);
    } else {
        to_multiset_contains(a, a[0]);
        to_multiset_contains(b, a[0]);
        to_multiset_contains(a, b[0]);
        to_multiset_contains(b, b[0]);
        assert(a.contains(a[0]));
        assert(b.contains(a[0]));
        let ia = choose|i: int| 0 <= i < b.len() && b[i] == a[0];
        assert(b[0] >= b[ia]);
        assert(a.contains(b[0]));
        let ib = choose|i: int| 0 <= i < a.len() && a[i] == b[0];
        assert(a[0] >= a[ib]);
        assert(a[0] == b[0]);
        let a1 = a.remove(0);
        let b1 = b.remove(0);
        to_multiset_remove(a, 0);
        to_multiset_remove(b, 0);
        assert(a1.to_multiset() == b1.to_multiset());
        assert(sorted_desc(a1)) by {
            assert(forall|i: int| 0 <= i < a1.len() ==> #[trigger] a1[i] == a[i + 1]);
        }
        assert(sorted_desc(b1)) by {
            assert(forall|i: int| 0 <= i < b1.len() ==> #[trigger] b1[i] == b[i + 1]);
        }
        lemma_sorted_desc_unique(a1, b1);
        assert(a =~= b) by {
            assert(forall|i: int| 1 <= i < a.len() ==> #[trigger] a[i] == a1[i - 1]);
            assert(forall|i: int| 1 <= i < b.len() ==> #[trigger] b[i] == b1[i - 1]);
        }
    }
}

/// Sorts machine-word values into weakly descending order; the result is
/// exactly the descending rearrangement of the input.
pub fn sort_desc_usize(v: &Vec<usize>) -> (r: Vec<usize>)
    ensures
        r@.len() == v@.len(),
        as_ints(r@) == sort_desc(as_ints(v@)),
        forall|i: int, j: int| 0 <= i <= j < r@.len() ==>
            (#[trigger] r@[i]) >= (#[trigger] r@[j]),
{
    let mut rem: Vec<usize> = Vec::new();
    let mut q: usize = 0;
    while q < v.len()
        invariant
            q <= v@.len(),
            rem@.len() == q,
            forall|t: int| 0 <= t < q ==> (#[trigger] rem@[t]) == v@[t],
        decreases v@.len() - q,
    {
        rem.push(v[q]);
        q += 1;
    }
    proof {
        assert(rem@ =~= v@);
    }
    let mut r: Vec<usize> = Vec::new();
    proof {
        lemma_empty_seq_multiset(as_ints(r@));
        assert(as_ints(r@).to_multiset().add(as_ints(rem@).to_multiset())
            =~= as_ints(v@).to_multiset());
    }
    while rem.len() > 0
        invariant
            r@.len() + rem@.len() == v@.len(),
            as_ints(r@).to_multiset().add(as_ints(rem@).to_multiset())
                == as_ints(v@).to_multiset(),
            sorted_desc(as_ints(r@)),
            forall|i: int, j: int| 0 <= i < r@.len() && 0 <= j < rem@.len() ==>
                (#[trigger] r@[i]) >= (#[trigger] rem@[j]),
        decreases rem@.len(),
    {
        let mut m: usize = 0;
        let mut t: usize = 1;
        while t < rem.len()
            invariant
                m < rem@.len(),
                t <= rem@.len(),
                forall|u: int| 0 <= u < t ==> (#[trigger] rem@[u]) <= rem@[m as int],
            decreases rem@.len() - t,
        {
            if rem[t] > rem[m] {
                m = t;
            }
            t += 1;
        }
        let ghost old_rem = rem@;
        let ghost old_r = r@;
        let x = rem.remove(m);
        r.push(x);
        proof {
            assert(as_ints(old_rem.remove(m as int)) =~= as_ints(old_rem).remove(m as int));
            to_multiset_remove(as_ints(old_rem), m as int);
            assert(as_ints(old_r.push(x)) =~= as_ints(old_r).push(x as int));
            to_multiset_build(as_ints(old_r), x as int);
            assert(as_ints(old_rem)[m as int] == x as int);
            assert(as_ints(old_rem).contains(x as int));
            to_multiset_contains(as_ints(old_rem), x as int);
            lemma_multiset_transfer(
                as_ints(old_r).to_multiset(),
                as_ints(old_rem).to_multiset(),
                as_ints(v@).to_multiset(),
                x as int,
            );
            assert(as_ints(r@).to_multiset().add(as_ints(rem@).to_multiset())
                == as_ints(v@).to_multiset());
            assert(forall|i: int| 0 <= i < old_r.len() ==> #[trigger] r@[i] == old_r[i]);
            assert(r@[old_r.len() as int] == x);
            assert(forall|j: int| 0 <= j < rem@.len() ==>
                (#[trigger] rem@[j]) == old_rem[j] || rem@[j] == old_rem[j + 1]);
        }
    }
    proof {
        lemma_empty_seq_multiset(as_ints(rem@));
        assert(as_ints(r@).to_multiset() =~= as_ints(v@).to_multiset());
        lemma_sort_desc_ensures(as_ints(v@));
        lemma_sorted_desc_unique(as_ints(r@), sort_desc(as_ints(v@)));
        assert(forall|i: int| 0 <= i < r@.len() ==> (#[trigger] r@[i]) as int == as_ints(r@)[i]);
    }
    r
}

/// The ranking order of the non-adaptive policy: larger expectation first,
/// ties resolved toward the smaller index.
pub open spec fn rank_leq(a: (usize, u64), b: (usize, u64)) -> bool {
    a.1 > b.1 || (a.1 == b.1 && a.0 <= b.0)
}

/// Sorts `(index, key)` pairs by descending key, ties by ascending index.
pub fn sort_pairs_by_rank(v: &Vec<(usize, u64)>) -> (r: Vec<(usize, u64)>)
    ensures
        r@.len() == v@.len(),
        r@.to_multiset() == v@.to_multiset(),
        forall|i: int, j: int| 0 <= i <= j < r@.len() ==>
            rank_leq(#[trigger] r@[i], #[trigger] r@[j]),
{
    let mut rem: Vec<(usize, u64)> = Vec::new();
    let mut q: usize = 0;
    while q < v.len()
        invariant
            q <= v@.len(),
            rem@.len() == q,
            forall|t: int| 0 <= t < q ==> (#[trigger] rem@[t]) == v@[t],
        decreases v@.len() - q,
    {
        rem.push(v[q]);
        q += 1;
    }
    proof {
        assert(rem@ =~= v@);
    }
    let mut r: Vec<(usize, u64)> = Vec::new();
    proof {
        lemma_empty_seq_multiset(r@);
        assert(r@.to_multiset().add(rem@.to_multiset()) =~= v@.to_multiset());
    }
    while rem.len() > 0
        invariant
            r@.len() + rem@.len() == v@.len(),
            r@.to_multiset().add(rem@.to_multiset()) == v@.to_multiset(),
            forall|i: int, j: int| 0 <= i <= j < r@.len() ==>
                rank_leq(#[trigger] r@[i], #[trigger] r@[j]),
            forall|i: int, j: int| 0 <= i < r@.len() && 0 <= j < rem@.len() ==>
                rank_leq(#[trigger] r@[i], #[trigger] rem@[j]),
        decreases rem@.len(),
    {
        let mut m: usize = 0;
        let mut t: usize = 1;
        while t < rem.len()
            invariant
                m < rem@.len(),
                t <= rem@.len(),
                forall|u: int| 0 <= u < t ==> rank_leq(rem@[m as int], #[trigger] rem@[u]),
            decreases rem@.len() - t,
        {
            let (mi, mk) = rem[m];
            let (ti, tk) = rem[t];
            if tk > mk || (tk == mk && ti < mi) {
                m = t;
            }
            t += 1;
        }
        let ghost old_rem = rem@;
        let ghost old_r = r@;
        let x = rem.remove(m);
        r.push(x);
        proof {
            to_multiset_remove(old_rem, m as int);
            to_multiset_build(old_r, x);
            assert(old_rem.contains(x));
            to_multiset_contains(old_rem, x);
            lemma_multiset_transfer(
                old_r.to_multiset(),
                old_rem.to_multiset(),
                v@.to_multiset(),
                x,
            );
            assert(r@.to_multiset().add(rem@.to_multiset()) == v@.to_multiset());
            assert(forall|i: int| 0 <= i < old_r.len() ==> #[trigger] r@[i] == old_r[i]);
            assert(r@[old_r.len() as int] == x);
            assert(forall|j: int| 0 <= j < rem@.len() ==>
                (#[trigger] rem@[j]) == old_rem[j] || rem@[j] == old_rem[j + 1]);
        }
    }
    proof {
        lemma_empty_seq_multiset(rem@);
        assert(r@.to_multiset() =~= v@.to_multiset());
    }
    r
}

} // verus!
