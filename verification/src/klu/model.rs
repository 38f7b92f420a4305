//! What a factored block is.
//!
//! A block is an `m` by `m` sparse matrix. Step `c` of the elimination takes
//! column `c`, subtracts the earlier columns of `L` in the order `u_rows[c]`,
//! picks the pivot row `piv[c]` and divides the rest by the pivot. Rows keep
//! their numbers; `fin` maps a row to the step at which it became the pivot.

use crate::reach::finished_in_order;
use crate::scalar::{neg, Real, Scalar};
use crate::seqs::{below, distinct, occurs};
use crate::sparse::{col_map, dense, SparseColumn};
use vstd::prelude::*;

verus! {

/// `w + s * c`, by one fused step in each row of `c`.
pub open spec fn axpy<T: Scalar>(w: Seq<T>, s: T, c: Map<int, T>) -> Seq<T> {
    Seq::new(
        w.len(),
        |r: int|
            if c.contains_key(r) {
                s.fmadd_spec(c[r], w[r])
            } else {
                w[r]
            },
    )
}

/// The work vector after the first `t` columns of `order` are subtracted.
pub open spec fn elim<T: Scalar>(
    w: Seq<T>,
    piv: Seq<usize>,
    lm: Seq<Map<int, T>>,
    order: Seq<usize>,
    t: int,
) -> Seq<T>
    decreases t,
{
    if t <= 0 {
        w
    } else {
        let v = elim(w, piv, lm, order, t - 1);
        let p = order[t - 1] as int;
        let r = piv[p] as int;
        axpy(v.update(r, T::zero_spec()), neg(v[r]), lm[p])
    }
}

/// The first `k` pivots: `piv` and `fin` invert each other, and `fin` is `m`
/// for a row that is not pivotal.
pub open spec fn pivots_ok(m: int, k: int, piv: Seq<usize>, fin: Seq<usize>) -> bool {
    &&& 0 <= k <= m
    &&& piv.len() == k
    &&& fin.len() == m
    &&& forall|p: int| 0 <= p < k ==> #[trigger] piv[p] < m && fin[piv[p] as int] == p
    &&& forall|r: int|
        0 <= r < m ==> (#[trigger] fin[r] == m || (fin[r] < k && piv[fin[r] as int] == r))
}

/// The columns of `L`: distinct rows that become pivotal after their column.
pub open spec fn lower_ok(m: int, k: int, fin: Seq<usize>, lr: Seq<Vec<usize>>) -> bool {
    &&& lr.len() == k
    &&& forall|p: int| 0 <= p < k ==> distinct(#[trigger] lr[p]@)
    &&& forall|p: int, r: int|
        0 <= p < k && #[trigger] occurs(lr[p]@, r) ==> 0 <= r < m && fin[r] > p
}

/// The columns of `U`: distinct earlier steps.
pub open spec fn upper_ok(k: int, ur: Seq<Vec<usize>>) -> bool {
    &&& ur.len() == k
    &&& forall|c: int| 0 <= c < k ==> distinct(#[trigger] ur[c]@)
    &&& forall|c: int| 0 <= c < k ==> below(#[trigger] ur[c]@, c)
}

/// Column `c` takes up all the fill that its updates produce: an updated row
/// is eliminated later in the same column, is the pivot, or is stored in `L`.
pub open spec fn fill_ok(c: int, fin: Seq<usize>, lr: Seq<Vec<usize>>, order: Seq<usize>) -> bool {
    forall|t: int, r: int|
        0 <= t < order.len() && #[trigger] occurs(lr[order[t] as int]@, r) ==> {
            &&& fin[r] < c ==> occurs(order.skip(t + 1), fin[r] as int)
            &&& fin[r] > c ==> occurs(lr[c]@, r)
        }
}

/// Column `c` takes up every row of the input column.
pub open spec fn covers(
    c: int,
    fin: Seq<usize>,
    lr: Seq<Vec<usize>>,
    order: Seq<usize>,
    rows: Seq<usize>,
) -> bool {
    forall|r: int| #[trigger]
        occurs(rows, r) ==> {
            &&& fin[r] < c ==> occurs(order, fin[r] as int)
            &&& fin[r] > c ==> occurs(lr[c]@, r)
        }
}

/// The stored pattern of the first `k` columns.
pub open spec fn structure_ok<T>(
    m: int,
    k: int,
    cols: Seq<SparseColumn<T>>,
    piv: Seq<usize>,
    fin: Seq<usize>,
    lr: Seq<Vec<usize>>,
    ur: Seq<Vec<usize>>,
) -> bool {
    &&& pivots_ok(m, k, piv, fin)
    &&& lower_ok(m, k, fin, lr)
    &&& upper_ok(k, ur)
    &&& forall|c: int| 0 <= c < k ==> fill_ok(c, fin, lr, #[trigger] ur[c]@)
    &&& forall|c: int| 0 <= c < k ==> covers(c, fin, lr, #[trigger] ur[c]@, cols[c].rows@)
}

/// The values of column `c`: each `U` entry is what the work vector holds when
/// its turn comes, the pivot and the rest of the column are what is left, and
/// nothing else is left.
pub open spec fn column_ok<T: Scalar>(
    m: int,
    c: int,
    col: Map<int, T>,
    piv: Seq<usize>,
    lm: Seq<Map<int, T>>,
    order: Seq<usize>,
    uv: Seq<T>,
    d: T,
) -> bool {
    let w0 = dense(m, col);
    let w = elim(w0, piv, lm, order, order.len() as int);
    &&& uv.len() == order.len()
    &&& forall|t: int|
        0 <= t < order.len() ==> #[trigger] uv[t] == elim(w0, piv, lm, order, t)[piv[order[t] as int] as int]
    &&& d == w[piv[c] as int]
    &&& forall|r: int| #[trigger] lm[c].contains_key(r) ==> lm[c][r] == w[r].over_spec(d)
    &&& forall|r: int|
        0 <= r < m && r != piv[c] && !lm[c].contains_key(r) ==> #[trigger] w[r] == T::zero_spec()
}

/// The rows and columns that are still each other's diagonal after the first
/// `k` pivots: a pivot that takes the row of another column hands its own
/// diagonal row to that column.
pub open spec fn diag_state(m: int, piv: Seq<usize>, k: int) -> (Seq<int>, Seq<int>)
    decreases k,
{
    if k <= 0 {
        (Seq::new(m as nat, |i: int| i), Seq::new(m as nat, |i: int| i))
    } else {
        let (dr, dc) = diag_state(m, piv, k - 1);
        let d = dr[k - 1];
        let v = piv[k - 1] as int;
        if v == d {
            (dr, dc)
        } else if dc[v] < m {
            (dr.update(dc[v], d), dc.update(d, dc[v]).update(v, m))
        } else {
            (dr, dc.update(v, m))
        }
    }
}

/// `big` is a candidate of positive magnitude that no candidate exceeds.
pub open spec fn is_largest<T: Scalar>(w: Seq<T>, cands: Set<int>, big: int) -> bool {
    &&& cands.contains(big)
    &&& w[big].magnitude_spec().gt_spec(<T::Real as Real>::zero_spec())
    &&& forall|r: int| #[trigger]
        cands.contains(r) ==> !w[r].magnitude_spec().gt_spec(w[big].magnitude_spec())
}

/// The diagonal row qualifies against the largest magnitude.
pub open spec fn prefers_diagonal<T: Scalar>(
    w: Seq<T>,
    cands: Set<int>,
    big: int,
    diag: int,
    threshold: T::Real,
) -> bool {
    &&& cands.contains(diag)
    &&& w[diag].magnitude_spec().gt_spec(<T::Real as Real>::zero_spec())
    &&& w[diag].magnitude_spec().ge_spec(threshold.times_spec(w[big].magnitude_spec()))
}

/// Threshold pivoting: a largest candidate, unless the diagonal qualifies.
pub open spec fn pivot_rule<T: Scalar>(
    w: Seq<T>,
    cands: Set<int>,
    diag: int,
    threshold: T::Real,
    pivot: int,
) -> bool {
    exists|big: int|
        #![trigger is_largest(w, cands, big)]
        is_largest(w, cands, big) && w[big].magnitude_spec().is_finite_spec() && pivot == (
        if prefers_diagonal(w, cands, big, diag, threshold) {
            diag
        } else {
            big
        })
}

/// No candidate may serve as the pivot: none has positive magnitude, or a
/// largest one is not finite.
pub open spec fn no_pivot<T: Scalar>(w: Seq<T>, cands: Set<int>) -> bool {
    ||| forall|r: int| #[trigger]
        cands.contains(r) ==> !w[r].magnitude_spec().gt_spec(<T::Real as Real>::zero_spec())
    ||| exists|big: int|
        #![trigger is_largest(w, cands, big)]
        is_largest(w, cands, big) && !w[big].magnitude_spec().is_finite_spec()
}

/// The candidates for the pivot of a finished column.
pub open spec fn candidates(pivot: int, rows: Seq<usize>) -> Set<int> {
    Set::new(|r: int| r == pivot || occurs(rows, r))
}

/// The `L` columns by row.
pub open spec fn lower_maps<T>(lr: Seq<Vec<usize>>, lv: Seq<Vec<T>>) -> Seq<Map<int, T>> {
    Seq::new(lr.len(), |p: int| col_map(lr[p]@, lv[p]@))
}

/// The pivot of column `c` was chosen by threshold pivoting.
pub open spec fn pivot_ok<T: Scalar>(
    m: int,
    c: int,
    col: Map<int, T>,
    piv: Seq<usize>,
    lm: Seq<Map<int, T>>,
    order: Seq<usize>,
    rows: Seq<usize>,
    threshold: T::Real,
) -> bool {
    pivot_rule(
        elim(dense(m, col), piv, lm, order, order.len() as int),
        candidates(piv[c] as int, rows),
        diag_state(m, piv, c).0[c],
        threshold,
        piv[c] as int,
    )
}

// ---------------------------------------------------------------------------
// Frames
// ---------------------------------------------------------------------------
/// The elimination reads only the pivots and columns named in `order`.
pub proof fn elim_frame<T: Scalar>(
    w: Seq<T>,
    piv1: Seq<usize>,
    lm1: Seq<Map<int, T>>,
    piv2: Seq<usize>,
    lm2: Seq<Map<int, T>>,
    order: Seq<usize>,
    t: int,
    k: int,
)
    requires
        below(order, k),
        t <= order.len(),
        forall|p: int| 0 <= p < k ==> #[trigger] piv1[p] == piv2[p],
        forall|p: int| 0 <= p < k ==> #[trigger] lm1[p] == lm2[p],
    ensures
        elim(w, piv1, lm1, order, t) == elim(w, piv2, lm2, order, t),
    decreases t,
{
    if t > 0 {
        elim_frame(w, piv1, lm1, piv2, lm2, order, t - 1, k);
        let p = order[t - 1] as int;
        assert(order[t - 1] < k);
        assert(piv1[p] == piv2[p]);
        assert(lm1[p] == lm2[p]);
    }
}

/// The elimination keeps the length of the work vector.
pub proof fn elim_len<T: Scalar>(
    w: Seq<T>,
    piv: Seq<usize>,
    lm: Seq<Map<int, T>>,
    order: Seq<usize>,
    t: int,
)
    requires
        t <= order.len(),
        forall|i: int| 0 <= i < order.len() ==> 0 <= piv[#[trigger] order[i] as int] < w.len(),
    ensures
        elim(w, piv, lm, order, t).len() == w.len(),
    decreases t,
{
    if t > 0 {
        elim_len(w, piv, lm, order, t - 1);
        assert(0 <= piv[order[t - 1] as int] < w.len());
    }
}

/// The elimination reads only the leading part of the order.
pub proof fn elim_prefix<T: Scalar>(
    w: Seq<T>,
    piv: Seq<usize>,
    lm: Seq<Map<int, T>>,
    order1: Seq<usize>,
    order2: Seq<usize>,
    t: int,
)
    requires
        t <= order1.len(),
        t <= order2.len(),
        forall|i: int| 0 <= i < t ==> #[trigger] order1[i] == order2[i],
    ensures
        elim(w, piv, lm, order1, t) == elim(w, piv, lm, order2, t),
    decreases t,
{
    if t > 0 {
        elim_prefix(w, piv, lm, order1, order2, t - 1);
        assert(order1[t - 1] == order2[t - 1]);
    }
}

/// The diagonal bookkeeping reads only the first `k` pivots.
pub proof fn diag_frame(m: int, piv1: Seq<usize>, piv2: Seq<usize>, k: int)
    requires
        forall|p: int| 0 <= p < k ==> #[trigger] piv1[p] == piv2[p],
    ensures
        diag_state(m, piv1, k) == diag_state(m, piv2, k),
    decreases k,
{
    if k > 0 {
        diag_frame(m, piv1, piv2, k - 1);
        assert(piv1[k - 1] == piv2[k - 1]);
    }
}

/// A fixed pivot and pattern leave nothing outside the stored rows.
///
/// While column `c` is eliminated, the work vector is zero in every row that
/// is pivotal but not still to be eliminated, and in every later row that is
/// not stored in `L`.
pub proof fn elim_confined<T: Scalar>(
    m: int,
    c: int,
    col: Map<int, T>,
    rows: Seq<usize>,
    piv: Seq<usize>,
    fin: Seq<usize>,
    lr: Seq<Vec<usize>>,
    lm: Seq<Map<int, T>>,
    order: Seq<usize>,
    t: int,
    r: int,
)
    requires
        0 <= c < m,
        fin.len() == m,
        0 <= t <= order.len(),
        below(order, c),
        forall|p: int| 0 <= p < c ==> #[trigger] piv[p] < m && fin[piv[p] as int] == p,
        forall|p: int, r2: int|
            0 <= p < c && #[trigger] occurs(lr[p]@, r2) ==> 0 <= r2 < m && fin[r2] > p,
        forall|r2: int| 0 <= r2 < m && #[trigger] fin[r2] < c ==> piv[fin[r2] as int] == r2,
        forall|p: int, r2: int|
            0 <= p < c ==> (#[trigger] lm[p].contains_key(r2) <==> occurs(lr[p]@, r2)),
        forall|r2: int| #[trigger] col.contains_key(r2) <==> occurs(rows, r2),
        fill_ok(c, fin, lr, order),
        covers(c, fin, lr, order, rows),
        0 <= r < m,
        fin[r] != c,
        fin[r] < c ==> !occurs(order.skip(t), fin[r] as int),
        fin[r] > c ==> !occurs(lr[c]@, r),
    ensures
        elim(dense(m, col), piv, lm, order, t)[r] == T::zero_spec(),
    decreases t,
{
    let w0 = dense(m, col);
    elim_len(w0, piv, lm, order, t);
    if t == 0 {
        if col.contains_key(r) {
            assert(occurs(rows, r));
            assert(order.skip(0) =~= order);
            assert(false);
        }
    } else {
        elim_len(w0, piv, lm, order, t - 1);
        let p = order[t - 1] as int;
        assert(order[t - 1] < c);
        let pr = piv[p] as int;
        let v = elim(w0, piv, lm, order, t - 1);
        assert(fin[pr] == p);
        // Row `r` is not updated by column `p`.
        if lm[p].contains_key(r) {
            assert(occurs(lr[order[t - 1] as int]@, r));
            if fin[r] < c {
                assert(order.skip(t - 1 + 1) =~= order.skip(t));
            }
            assert(false);
        }
        if r == pr {
        } else {
            if fin[r] < c && occurs(order.skip(t - 1), fin[r] as int) {
                let s = order.skip(t - 1);
                let q = choose|q: int| 0 <= q < s.len() && #[trigger] s[q] == fin[r] as int;
                if q == 0 {
                    assert(s[0] == order[t - 1]);
                    assert(piv[fin[r] as int] == r);
                    assert(false);
                } else {
                    assert(order.skip(t)[q - 1] == s[q]);
                    assert(false);
                }
            }
            elim_confined(m, c, col, rows, piv, fin, lr, lm, order, t - 1, r);
        }
    }
}

// ---------------------------------------------------------------------------
// Pruning
// ---------------------------------------------------------------------------
/// The search of column `s` may stop at position `e`: one of the rows before
/// is the pivot of a later column that holds all the rows from there on.
pub open spec fn pruned_column(k: int, piv: Seq<usize>, lr: Seq<Vec<usize>>, s: int, e: int) -> bool {
    exists|kk: int|
        #![trigger piv[kk]]
        s < kk < k && occurs(lr[s]@.take(e), piv[kk] as int) && forall|q: int|
            e <= q < lr[s]@.len() ==> occurs(lr[kk]@, #[trigger] lr[s]@[q] as int)
}

/// The search takes the leading `ends[s]` rows of column `s`, which are all of
/// them unless the column is pruned.
pub open spec fn prune_ok(
    k: int,
    piv: Seq<usize>,
    lr: Seq<Vec<usize>>,
    ends: Seq<usize>,
) -> bool {
    &&& ends.len() == k
    &&& forall|s: int| 0 <= s < k ==> #[trigger] ends[s] <= lr[s]@.len()
    &&& forall|s: int|
        0 <= s < k && #[trigger] ends[s] < lr[s]@.len() ==> pruned_column(
            k,
            piv,
            lr,
            s,
            ends[s] as int,
        )
}

/// The children left out by pruning are found all the same, and in order.
pub proof fn pruned_reach(
    m: int,
    k: int,
    piv: Seq<usize>,
    fin: Seq<usize>,
    lr: Seq<Vec<usize>>,
    ends: Seq<usize>,
    mark: Seq<usize>,
    stamp: usize,
    topo: Seq<usize>,
    i: int,
    r: int,
)
    requires
        pivots_ok(m, k, piv, fin),
        lower_ok(m, k, fin, lr),
        prune_ok(k, piv, lr, ends),
        finished_in_order(lr, ends, fin, m, mark, stamp, topo),
        below(topo, m),
        forall|j: int| 0 <= j < topo.len() ==> fin[#[trigger] topo[j] as int] < m,
        0 <= i < topo.len(),
        occurs(lr[fin[topo[i] as int] as int]@, r),
    ensures
        mark[r] == stamp,
        fin[r] < m ==> occurs(topo.take(i), r),
    decreases k - fin[topo[i] as int],
{
    assert(topo[i] < m);
    let p = fin[topo[i] as int] as int;
    assert(p < k);
    let rows = lr[p]@;
    let q = choose|q: int| 0 <= q < rows.len() && #[trigger] rows[q] == r;
    if q < ends[p] {
        assert(lr[fin[topo[i] as int] as int]@[q] == r);
    } else {
        assert(ends[p] < lr[p]@.len());
        assert(pruned_column(k, piv, lr, p, ends[p] as int));
        let kk = choose|kk: int|
            #![trigger piv[kk]]
            p < kk < k && occurs(lr[p]@.take(ends[p] as int), piv[kk] as int) && forall|q: int|
                ends[p] <= q < lr[p]@.len() ==> occurs(lr[kk]@, #[trigger] lr[p]@[q] as int);
        let head = rows.take(ends[p] as int);
        let v = piv[kk] as int;
        let q0 = choose|q0: int| 0 <= q0 < head.len() && #[trigger] head[q0] == v;
        assert(lr[fin[topo[i] as int] as int]@[q0] == v);
        assert(fin[v] == kk);
        assert(occurs(topo.take(i), v));
        let before = topo.take(i);
        let i2 = choose|i2: int| 0 <= i2 < before.len() && #[trigger] before[i2] == v;
        assert(topo[i2] == v);
        assert(occurs(lr[kk]@, lr[p]@[q] as int));
        pruned_reach(m, k, piv, fin, lr, ends, mark, stamp, topo, i2, r);
        if fin[r] < m {
            let b2 = topo.take(i2);
            let j = choose|j: int| 0 <= j < b2.len() && #[trigger] b2[j] == r;
            assert(before[j] == r);
        }
    }
}

// ---------------------------------------------------------------------------
// Failure
// ---------------------------------------------------------------------------
/// `order` and `rows` are what the start rows reach: the pivotal rows in an
/// order of elimination, by step, and the rows that are not pivotal yet.
pub open spec fn searched(
    m: int,
    k: int,
    fin: Seq<usize>,
    lr: Seq<Vec<usize>>,
    start: Seq<usize>,
    order: Seq<usize>,
    rows: Seq<usize>,
) -> bool {
    &&& below(order, k)
    &&& distinct(order)
    &&& forall|r: int| #[trigger] occurs(rows, r) ==> 0 <= r < m && fin[r] == m
    &&& forall|t: int, r: int|
        0 <= t < order.len() && #[trigger] occurs(lr[order[t] as int]@, r) ==> {
            &&& fin[r] < m ==> occurs(order.skip(t + 1), fin[r] as int)
            &&& fin[r] == m ==> occurs(rows, r)
        }
    &&& forall|r: int| #[trigger]
        occurs(start, r) ==> {
            &&& fin[r] < m ==> occurs(order, fin[r] as int)
            &&& fin[r] == m ==> occurs(rows, r)
        }
}

/// The set holds the start rows and, with the pivot row of a column before `c`,
/// the rows of that column.
pub open spec fn spans(
    c: int,
    piv: Seq<usize>,
    lr: Seq<Vec<usize>>,
    start: Seq<usize>,
    s: Set<int>,
) -> bool {
    &&& forall|r: int| #[trigger] occurs(start, r) ==> s.contains(r)
    &&& forall|p: int, r: int|
        0 <= p < c && s.contains(piv[p] as int) && #[trigger] occurs(lr[p]@, r) ==> s.contains(r)
}

/// Column `c` stores no row that its entries do not lead to.
pub open spec fn tight(
    c: int,
    piv: Seq<usize>,
    lr: Seq<Vec<usize>>,
    order: Seq<usize>,
    start: Seq<usize>,
) -> bool {
    forall|s: Set<int>| #[trigger]
        spans(c, piv, lr, start, s) ==> {
            &&& s.contains(piv[c] as int)
            &&& forall|r: int| #[trigger] occurs(lr[c]@, r) ==> s.contains(r)
            &&& forall|t: int| 0 <= t < order.len() ==> s.contains(piv[#[trigger] order[t] as int] as int)
        }
}

/// Only the pivots up to `c` and the members of the columns up to `c` count.
pub proof fn tight_frame(
    c: int,
    piv1: Seq<usize>,
    lr1: Seq<Vec<usize>>,
    piv2: Seq<usize>,
    lr2: Seq<Vec<usize>>,
    order: Seq<usize>,
    start: Seq<usize>,
)
    requires
        0 <= c,
        tight(c, piv1, lr1, order, start),
        below(order, c),
        forall|p: int| 0 <= p <= c ==> #[trigger] piv1[p] == piv2[p],
        forall|p: int, r: int|
            0 <= p <= c ==> (#[trigger] occurs(lr2[p]@, r) <==> occurs(lr1[p]@, r)),
    ensures
        tight(c, piv2, lr2, order, start),
{
    assert forall|s: Set<int>| #[trigger] spans(c, piv2, lr2, start, s) implies {
        &&& s.contains(piv2[c] as int)
        &&& forall|r: int| #[trigger] occurs(lr2[c]@, r) ==> s.contains(r)
        &&& forall|t: int| 0 <= t < order.len() ==> s.contains(piv2[#[trigger] order[t] as int] as int)
    } by {
        assert(spans(c, piv1, lr1, start, s)) by {
            assert forall|p: int, r: int|
                0 <= p < c && s.contains(piv1[p] as int) && #[trigger] occurs(lr1[p]@, r) implies s.contains(
            r) by {
                assert(piv1[p] == piv2[p]);
                assert(occurs(lr2[p]@, r));
            }
        }
        assert forall|t: int| 0 <= t < order.len() implies s.contains(
            piv2[#[trigger] order[t] as int] as int,
        ) by {
            assert(order[t] < c);
            assert(piv1[order[t] as int] == piv2[order[t] as int]);
        }
        assert(piv1[c] == piv2[c]);
    }
}

} // verus!
