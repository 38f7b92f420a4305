//! Index lists: membership, distinctness and permutations.

use vstd::prelude::*;

verus! {

/// `r` occurs in the list.
pub open spec fn occurs(rows: Seq<usize>, r: int) -> bool {
    exists|q: int| 0 <= q < rows.len() && #[trigger] rows[q] == r
}

/// No index occurs twice.
pub open spec fn distinct(rows: Seq<usize>) -> bool {
    forall|q1: int, q2: int| 0 <= q1 < q2 < rows.len() ==> #[trigger] rows[q1] != #[trigger] rows[q2]
}

/// Every index is below `m`.
pub open spec fn below(rows: Seq<usize>, m: int) -> bool {
    forall|q: int| 0 <= q < rows.len() ==> #[trigger] rows[q] < m
}

/// A list of `m` distinct indices below `m`.
pub open spec fn is_permutation(p: Seq<usize>, m: int) -> bool {
    p.len() == m && below(p, m) && distinct(p)
}

/// `inv` undoes `p`: position `p[k]` of `inv` holds `k`.
pub open spec fn inverse_of(inv: Seq<usize>, p: Seq<usize>) -> bool {
    inv.len() == p.len() && forall|k: int|
        0 <= k < p.len() ==> 0 <= #[trigger] p[k] < inv.len() && inv[p[k] as int] == k
}

/// Distinct indices below `m` number at most `m`.
pub proof fn distinct_below_len(rows: Seq<usize>, m: int)
    requires
        0 <= m,
        distinct(rows),
        below(rows, m),
    ensures
        rows.len() <= m,
    decreases m,
{
    if rows.len() == 0 {
    } else if m == 0 {
        assert(rows[0] < 0);
    } else if occurs(rows, m - 1) {
        let q = choose|q: int| 0 <= q < rows.len() && #[trigger] rows[q] == m - 1;
        let rest = rows.remove(q);
        assert forall|i: int| 0 <= i < rest.len() implies #[trigger] rest[i] < m - 1 by {
            let src = if i < q { i } else { i + 1 };
            assert(rest[i] == rows[src]);
            assert(rows[src] < m);
            if src < q {
                assert(rows[src] != rows[q]);
            } else {
                assert(rows[q] != rows[src]);
            }
        }
        assert forall|i: int, j: int| 0 <= i < j < rest.len() implies #[trigger] rest[i] != #[trigger] rest[j] by {
            let si = if i < q { i } else { i + 1 };
            let sj = if j < q { j } else { j + 1 };
            assert(rest[i] == rows[si] && rest[j] == rows[sj]);
            assert(rows[si] != rows[sj]);
        }
        distinct_below_len(rest, m - 1);
    } else {
        assert forall|i: int| 0 <= i < rows.len() implies #[trigger] rows[i] < m - 1 by {
            assert(rows[i] < m);
        }
        distinct_below_len(rows, m - 1);
    }
}

/// A permutation reaches every index.
pub proof fn permutation_is_onto(p: Seq<usize>, m: int, r: int)
    requires
        is_permutation(p, m),
        0 <= r < m,
    ensures
        occurs(p, r),
{
    if !occurs(p, r) {
        // Swap the missing index with the largest one and count.
        let s = Seq::new(p.len(), |q: int| if p[q] == m - 1 { r as usize } else { p[q] });
        assert forall|q: int| 0 <= q < s.len() implies #[trigger] s[q] < m - 1 by {
            assert(p[q] < m);
            assert(p[q] != r);
        }
        assert forall|q1: int, q2: int| 0 <= q1 < q2 < s.len() implies #[trigger] s[q1] != #[trigger] s[q2] by {
            assert(p[q1] != p[q2]);
            assert(p[q1] != r && p[q2] != r);
        }
        distinct_below_len(s, m - 1);
    }
}

/// Strictly ascending.
pub open spec fn ascending(rows: Seq<usize>) -> bool {
    forall|q1: int, q2: int| 0 <= q1 < q2 < rows.len() ==> #[trigger] rows[q1] < #[trigger] rows[q2]
}

pub proof fn ascending_is_distinct(rows: Seq<usize>)
    requires
        ascending(rows),
    ensures
        distinct(rows),
{
    assert forall|q1: int, q2: int| 0 <= q1 < q2 < rows.len() implies #[trigger] rows[q1]
        != #[trigger] rows[q2] by {
        assert(rows[q1] < rows[q2]);
    }
}

/// Never descending.
pub open spec fn nondecreasing(p: Seq<usize>) -> bool {
    forall|q1: int, q2: int| 0 <= q1 <= q2 < p.len() ==> #[trigger] p[q1] <= #[trigger] p[q2]
}

/// Two ascending lists with the same members are equal.
pub proof fn ascending_unique(a: Seq<usize>, b: Seq<usize>)
    requires
        ascending(a),
        ascending(b),
        forall|r: int| #[trigger] occurs(a, r) <==> occurs(b, r),
    ensures
        a == b,
    decreases a.len(),
{
    if a.len() == 0 {
        if b.len() > 0 {
            assert(occurs(b, b[0] as int));
            assert(!occurs(a, b[0] as int));
        }
        assert(a =~= b);
    } else {
        assert(occurs(a, a.last() as int)) by {
            assert(a[a.len() - 1] == a.last());
        }
        assert(occurs(b, a.last() as int));
        let q = choose|q: int| 0 <= q < b.len() && #[trigger] b[q] == a.last();
        assert(occurs(b, b.last() as int)) by {
            assert(b[b.len() - 1] == b.last());
        }
        assert(occurs(a, b.last() as int));
        let q2 = choose|q2: int| 0 <= q2 < a.len() && #[trigger] a[q2] == b.last();
        if q2 < a.len() - 1 {
            assert(a[q2] < a[a.len() - 1]);
        }
        if q < b.len() - 1 {
            assert(b[q] < b[b.len() - 1]);
        }
        assert(a.last() == b.last());
        let a1 = a.drop_last();
        let b1 = b.drop_last();
        assert forall|r: int| #[trigger] occurs(a1, r) <==> occurs(b1, r) by {
            if occurs(a1, r) {
                let i = choose|i: int| 0 <= i < a1.len() && #[trigger] a1[i] == r;
                assert(a[i] == r && a[i] < a[a.len() - 1]);
                assert(occurs(a, r));
                assert(occurs(b, r));
                let j = choose|j: int| 0 <= j < b.len() && #[trigger] b[j] == r;
                assert(b1[j] == r);
            }
            if occurs(b1, r) {
                let i = choose|i: int| 0 <= i < b1.len() && #[trigger] b1[i] == r;
                assert(b[i] == r && b[i] < b[b.len() - 1]);
                assert(occurs(b, r));
                assert(occurs(a, r));
                let j = choose|j: int| 0 <= j < a.len() && #[trigger] a[j] == r;
                assert(a1[j] == r);
            }
        }
        ascending_unique(a1, b1);
        assert(a =~= a1.push(a.last()));
        assert(b =~= b1.push(b.last()));
    }
}

/// The numbers below `k` that satisfy `p`, in ascending order.
pub open spec fn listed(k: int, p: spec_fn(int) -> bool) -> Seq<usize>
    decreases k,
{
    if k <= 0 {
        Seq::empty()
    } else if p(k - 1) {
        listed(k - 1, p).push((k - 1) as usize)
    } else {
        listed(k - 1, p)
    }
}

/// An ascending list of the numbers below `k` that satisfy `p`.
pub proof fn ascending_is_listed(s: Seq<usize>, k: int, p: spec_fn(int) -> bool)
    requires
        0 <= k <= usize::MAX,
        ascending(s),
        below(s, k),
        forall|i: int| 0 <= i < k ==> (#[trigger] occurs(s, i) <==> p(i)),
    ensures
        s == listed(k, p),
    decreases k,
{
    if k == 0 {
        if s.len() > 0 {
            assert(s[0] < 0);
        }
        assert(s =~= Seq::<usize>::empty());
    } else if p(k - 1) {
        assert(occurs(s, k - 1));
        let q = choose|q: int| 0 <= q < s.len() && #[trigger] s[q] == k - 1;
        if q < s.len() - 1 {
            assert(s[q] < s[s.len() - 1]);
        }
        let t = s.drop_last();
        assert forall|i: int| 0 <= i < t.len() implies #[trigger] t[i] < k - 1 by {
            assert(s[i] < s[q]);
        }
        assert forall|i: int| 0 <= i < k - 1 implies (#[trigger] occurs(t, i) <==> p(i)) by {
            if occurs(t, i) {
                let x = choose|x: int| 0 <= x < t.len() && #[trigger] t[x] == i;
                assert(s[x] == i);
                assert(occurs(s, i));
            }
            if p(i) {
                assert(occurs(s, i));
                let x = choose|x: int| 0 <= x < s.len() && #[trigger] s[x] == i;
                assert(t[x] == i);
            }
        }
        ascending_is_listed(t, k - 1, p);
        assert(s =~= t.push((k - 1) as usize));
    } else {
        assert forall|i: int| 0 <= i < s.len() implies #[trigger] s[i] < k - 1 by {
            assert(s[i] < k);
            if s[i] == k - 1 {
                assert(occurs(s, k - 1));
            }
        }
        ascending_is_listed(s, k - 1, p);
    }
}

/// `0, 1, ..`, `m` numbers.
pub open spec fn counting(m: int) -> Seq<usize> {
    Seq::new(m as nat, |i: int| i as usize)
}

/// The first `m` numbers in order.
pub fn count_up(m: usize) -> (p: Vec<usize>)
    ensures
        p@ == counting(m as int),
        is_permutation(p@, m as int),
        forall|k: int| 0 <= k < m ==> #[trigger] p@[k] == k,
{
    let mut p: Vec<usize> = Vec::new();
    let mut i: usize = 0;
    while i < m
        invariant
            i <= m,
            p@.len() == i,
            forall|k: int| 0 <= k < i ==> #[trigger] p@[k] == k,
        decreases m - i,
    {
        p.push(i);
        i = i + 1;
    }
    assert(p@ =~= counting(m as int));
    p
}

/// A copy of a list.
pub fn copied<A: Copy>(x: &Vec<A>) -> (r: Vec<A>)
    ensures
        r@ == x@,
{
    let mut r: Vec<A> = Vec::new();
    let mut k: usize = 0;
    while k < x.len()
        invariant
            k <= x@.len(),
            r@ == x@.take(k as int),
        decreases x@.len() - k,
    {
        r.push(x[k]);
        k = k + 1;
        assert(r@ =~= x@.take(k as int));
    }
    assert(x@.take(x@.len() as int) =~= x@);
    r
}

} // verus!
