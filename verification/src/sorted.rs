//! Ascending lists: merging and sorting.

use crate::seqs::{ascending, occurs};
use crate::sparse::position;
use vstd::prelude::*;

verus! {

/// The two ascending lists merged, without repetition.
pub fn merge(x: &Vec<usize>, y: &Vec<usize>) -> (r: Vec<usize>)
    requires
        ascending(x@),
        ascending(y@),
    ensures
        ascending(r@),
        forall|i: int| #[trigger] occurs(r@, i) <==> occurs(x@, i) || occurs(y@, i),
{
    let mut r: Vec<usize> = Vec::new();
    let mut p: usize = 0;
    let mut q: usize = 0;
    while p < x.len() || q < y.len()
        invariant
            p <= x@.len(),
            q <= y@.len(),
            ascending(x@),
            ascending(y@),
            ascending(r@),
            forall|i: int| #[trigger]
                occurs(r@, i) <==> occurs(x@.take(p as int), i) || occurs(y@.take(q as int), i),
            forall|k: int, u: int|
                0 <= k < r@.len() && p <= u < x@.len() ==> #[trigger] r@[k] < #[trigger] x@[u],
            forall|k: int, u: int|
                0 <= k < r@.len() && q <= u < y@.len() ==> #[trigger] r@[k] < #[trigger] y@[u],
        decreases x@.len() - p + y@.len() - q,
    {
        let ghost r0 = r@;
        let ghost p0 = p as int;
        let ghost q0 = q as int;
        let take_x = p < x.len() && (q >= y.len() || x[p] <= y[q]);
        let take_y = q < y.len() && (p >= x.len() || y[q] <= x[p]);
        let v: usize = if take_x {
            x[p]
        } else {
            y[q]
        };
        r.push(v);
        if take_x {
            p = p + 1;
        }
        if take_y {
            q = q + 1;
        }
        proof {
            grown(x@, p0, p as int);
            grown(y@, q0, q as int);
            let t = r@;
            assert forall|i: int| #[trigger] occurs(t, i) <==> i == v || occurs(r0, i) by {
                if i == v {
                    assert(t[r0.len() as int] == i);
                }
                if occurs(r0, i) {
                    assert(t[position(r0, i)] == i);
                }
                if occurs(t, i) {
                    let k = position(t, i);
                    if k < r0.len() {
                        assert(r0[k] == i);
                    }
                }
            }
            assert forall|k: int, u: int| 0 <= k < t.len() && p <= u < x@.len() implies #[trigger] t[k]
                < #[trigger] x@[u] by {
                if k == r0.len() && u > p0 {
                    assert(x@[p0] < x@[u]);
                }
            }
            assert forall|k: int, u: int| 0 <= k < t.len() && q <= u < y@.len() implies #[trigger] t[k]
                < #[trigger] y@[u] by {
                if k == r0.len() && u > q0 {
                    assert(y@[q0] < y@[u]);
                }
            }
        }
    }
    assert(x@.take(x@.len() as int) =~= x@);
    assert(y@.take(y@.len() as int) =~= y@);
    r
}

/// One more element adds itself to what occurs.
pub proof fn grown(s: Seq<usize>, k: int, k2: int)
    requires
        0 <= k <= k2 <= s.len(),
        k2 <= k + 1,
    ensures
        forall|i: int| #[trigger]
            occurs(s.take(k2), i) <==> occurs(s.take(k), i) || (k2 == k + 1 && i == s[k]),
{
    assert forall|i: int| #[trigger] occurs(s.take(k2), i) <==> occurs(s.take(k), i) || (k2 == k + 1 && i
        == s[k]) by {
        if occurs(s.take(k2), i) {
            let x = position(s.take(k2), i);
            assert(s[x] == i);
            if x < k {
                assert(s.take(k)[x] == i);
            }
        }
        if occurs(s.take(k), i) {
            let x = position(s.take(k), i);
            assert(s.take(k2)[x] == i);
        }
        if k2 == k + 1 && i == s[k] {
            assert(s.take(k2)[k] == i);
        }
    }
}

/// The members of a list in ascending order, each once.
pub fn sorted_set(v: &[usize], lo: usize, hi: usize) -> (r: Vec<usize>)
    requires
        lo <= hi <= v@.len(),
    ensures
        ascending(r@),
        forall|i: int| #[trigger]
            occurs(r@, i) <==> occurs(v@.subrange(lo as int, hi as int), i),
    decreases hi - lo,
{
    let ghost run = v@.subrange(lo as int, hi as int);
    if hi - lo == 0 {
        return Vec::new();
    }
    if hi - lo == 1 {
        let mut r: Vec<usize> = Vec::new();
        r.push(v[lo]);
        assert(r@ =~= run);
        return r;
    }
    let mid: usize = lo + (hi - lo) / 2;
    let x = sorted_set(v, lo, mid);
    let y = sorted_set(v, mid, hi);
    let r = merge(&x, &y);
    proof {
        let a = v@.subrange(lo as int, mid as int);
        let b = v@.subrange(mid as int, hi as int);
        assert forall|i: int| #[trigger] occurs(r@, i) <==> occurs(run, i) by {
            if occurs(a, i) {
                assert(run[position(a, i)] == i);
            }
            if occurs(b, i) {
                assert(run[mid - lo + position(b, i)] == i);
            }
            if occurs(run, i) {
                let k = position(run, i);
                if k < mid - lo {
                    assert(a[k] == i);
                } else {
                    assert(b[k - (mid - lo)] == i);
                }
            }
        }
    }
    r
}

} // verus!
