//! The Gilbert-Peierls factorization of one diagonal block.

use crate::klu::model::{
    axpy, candidates, column_ok, covers, diag_frame, diag_state, elim, elim_confined, elim_frame,
    elim_prefix, fill_ok, is_largest, lower_maps, lower_ok, no_pivot, pivot_ok, pivot_rule,
    pivots_ok, prefers_diagonal, prune_ok, pruned_column, pruned_reach, searched, spans,
    structure_ok, tight, tight_frame, upper_ok,
};
use crate::klu::trace::{
    chosen_pivot, divided_is, elimination_order, first_largest, found_is, parted, pruned, sweep,
    sweep_fails, without, Sweep,
};
use crate::reach::{closed, finished_in_order, graph_ok, lists_of, lists_ok, reach, reached};
use crate::scalar::{Real, Scalar};
use crate::seqs::{below, copied, distinct, occurs};
use crate::sparse::{col_map, col_map_at, col_map_same, dense, position, SparseColumn};
use vstd::prelude::*;

verus! {

/// A factored block (see [`crate::klu::model`]).
#[derive(Debug, Clone)]
pub struct BlockLu<T> {
    /// Pivot row of every step.
    pub piv: Vec<usize>,
    /// Step of every row.
    pub fin: Vec<usize>,
    /// Rows of the strictly lower entries of every column.
    pub l_rows: Vec<Vec<usize>>,
    pub l_vals: Vec<Vec<T>>,
    /// Steps of the strictly upper entries of every column, in elimination
    /// order.
    pub u_rows: Vec<Vec<usize>>,
    pub u_vals: Vec<Vec<T>>,
    /// The pivots.
    pub d: Vec<T>,
}

impl<T: Scalar> BlockLu<T> {
    /// The `L` columns by row.
    pub open spec fn lm(&self) -> Seq<Map<int, T>> {
        lower_maps(self.l_rows@, self.l_vals@)
    }

    /// Every pattern entry has a value.
    pub open spec fn shaped(&self, k: int) -> bool {
        &&& self.l_rows@.len() == k
        &&& self.l_vals@.len() == k
        &&& self.u_rows@.len() == k
        &&& self.u_vals@.len() == k
        &&& self.d@.len() == k
        &&& forall|c: int| 0 <= c < k ==> #[trigger] self.l_vals@[c]@.len() == self.l_rows@[c]@.len()
        &&& forall|c: int| 0 <= c < k ==> #[trigger] self.u_vals@[c]@.len() == self.u_rows@[c]@.len()
    }

    /// The first `k` columns of the pattern are complete.
    pub open spec fn structured(&self, m: int, k: int, cols: Seq<SparseColumn<T>>) -> bool {
        &&& self.shaped(k)
        &&& structure_ok(m, k, cols, self.piv@, self.fin@, self.l_rows@, self.u_rows@)
    }

    /// The values of the first `k` columns are those of the elimination.
    pub open spec fn valued(&self, m: int, k: int, cols: Seq<SparseColumn<T>>) -> bool {
        forall|c: int|
            0 <= c < k ==> column_ok(
                m,
                c,
                #[trigger] cols[c]@,
                self.piv@,
                self.lm(),
                self.u_rows@[c]@,
                self.u_vals@[c]@,
                self.d@[c],
            )
    }

    /// The first `k` pivots were chosen by threshold pivoting.
    pub open spec fn pivoted(
        &self,
        m: int,
        k: int,
        cols: Seq<SparseColumn<T>>,
        threshold: T::Real,
    ) -> bool {
        forall|c: int|
            0 <= c < k ==> pivot_ok(
                m,
                c,
                #[trigger] cols[c]@,
                self.piv@,
                self.lm(),
                self.u_rows@[c]@,
                self.l_rows@[c]@,
                threshold,
            )
    }

    /// The first `k` columns store no row that their entries do not lead to.
    pub open spec fn tight(&self, k: int, cols: Seq<SparseColumn<T>>) -> bool {
        forall|c: int|
            0 <= c < k ==> tight(
                c,
                self.piv@,
                self.l_rows@,
                #[trigger] self.u_rows@[c]@,
                cols[c].rows@,
            )
    }

    /// The first `k` columns are factored.
    pub open spec fn partial(
        &self,
        m: int,
        k: int,
        cols: Seq<SparseColumn<T>>,
        threshold: T::Real,
    ) -> bool {
        &&& self.structured(m, k, cols)
        &&& self.valued(m, k, cols)
        &&& self.pivoted(m, k, cols, threshold)
    }
}

/// `m` columns of an `m` by `m` block.
pub open spec fn columns_wf<T>(m: int, cols: Seq<SparseColumn<T>>) -> bool {
    &&& cols.len() == m
    &&& forall|c: int| 0 <= c < m ==> (#[trigger] cols[c]).wf(m)
}

/// `x + s * (rows, vals)` in place.
pub fn apply_column<T: Scalar>(x: &mut Vec<T>, s: T, rows: &Vec<usize>, vals: &Vec<T>)
    requires
        rows@.len() == vals@.len(),
        distinct(rows@),
        below(rows@, old(x)@.len() as int),
    ensures
        final(x)@ == axpy(old(x)@, s, col_map(rows@, vals@)),
{
    let ghost w = x@;
    let mut q: usize = 0;
    while q < rows.len()
        invariant
            q <= rows@.len(),
            rows@.len() == vals@.len(),
            distinct(rows@),
            below(rows@, w.len() as int),
            x@.len() == w.len(),
            forall|r: int|
                0 <= r < w.len() ==> #[trigger] x@[r] == (if occurs(rows@.take(q as int), r) {
                    s.fmadd_spec(col_map(rows@, vals@)[r], w[r])
                } else {
                    w[r]
                }),
        decreases rows@.len() - q,
    {
        let r: usize = rows[q];
        let ghost x0 = x@;
        proof {
            col_map_at(rows@, vals@, q as int);
            if occurs(rows@.take(q as int), r as int) {
                let head = rows@.take(q as int);
                let q2 = choose|q2: int| 0 <= q2 < head.len() && #[trigger] head[q2] == r as int;
                assert(rows@[q2] != rows@[q as int]);
            }
        }
        let y = s.fmadd(vals[q], x[r]);
        x.set(r, y);
        q = q + 1;
        proof {
            let h1 = rows@.take(q - 1);
            let h2 = rows@.take(q as int);
            assert forall|r2: int| 0 <= r2 < w.len() implies #[trigger] x@[r2] == (if occurs(h2, r2) {
                s.fmadd_spec(col_map(rows@, vals@)[r2], w[r2])
            } else {
                w[r2]
            }) by {
                if r2 == r {
                    assert(h2[q - 1] == r);
                } else {
                    assert(x@[r2] == x0[r2]);
                    if occurs(h1, r2) {
                        let q2 = choose|q2: int| 0 <= q2 < h1.len() && #[trigger] h1[q2] == r2;
                        assert(h2[q2] == r2);
                    }
                    if occurs(h2, r2) {
                        let q2 = choose|q2: int| 0 <= q2 < h2.len() && #[trigger] h2[q2] == r2;
                        assert(h1[q2] == r2);
                    }
                }
            }
        }
    }
    assert(rows@.take(rows@.len() as int) =~= rows@);
    assert(x@ =~= axpy(w, s, col_map(rows@, vals@)));
}

/// Subtract the columns of `topo`, last finished first, from `x`.
fn eliminate<T: Scalar>(
    m: usize,
    topo: &Vec<usize>,
    piv: &Vec<usize>,
    fin: &Vec<usize>,
    l_rows: &Vec<Vec<usize>>,
    l_vals: &Vec<Vec<T>>,
    x: &mut Vec<T>,
) -> (r: (Vec<usize>, Vec<T>))
    requires
        pivots_ok(m as int, l_rows@.len() as int, piv@, fin@),
        lower_ok(m as int, l_rows@.len() as int, fin@, l_rows@),
        l_vals@.len() == l_rows@.len(),
        forall|p: int|
            0 <= p < l_rows@.len() ==> #[trigger] l_vals@[p]@.len() == l_rows@[p]@.len(),
        below(topo@, m as int),
        forall|i: int| 0 <= i < topo@.len() ==> fin@[#[trigger] topo@[i] as int] < m,
        old(x)@.len() == m,
    ensures
        r.0@.len() == topo@.len(),
        r.1@.len() == topo@.len(),
        forall|t: int|
            0 <= t < topo@.len() ==> #[trigger] r.0@[t] == fin@[topo@[topo@.len() - 1 - t] as int],
        forall|t: int|
            0 <= t < topo@.len() ==> #[trigger] r.1@[t] == elim(
                old(x)@,
                piv@,
                lower_maps(l_rows@, l_vals@),
                r.0@,
                t,
            )[piv@[r.0@[t] as int] as int],
        final(x)@ == elim(
            old(x)@,
            piv@,
            lower_maps(l_rows@, l_vals@),
            r.0@,
            topo@.len() as int,
        ),
        final(x)@.len() == m,
{
    let ghost w0 = x@;
    let ghost lm = lower_maps(l_rows@, l_vals@);
    let mut order: Vec<usize> = Vec::new();
    let mut uv: Vec<T> = Vec::new();
    let mut i: usize = topo.len();
    while i > 0
        invariant
            i <= topo@.len(),
            pivots_ok(m as int, l_rows@.len() as int, piv@, fin@),
            lower_ok(m as int, l_rows@.len() as int, fin@, l_rows@),
            l_vals@.len() == l_rows@.len(),
            forall|p: int|
                0 <= p < l_rows@.len() ==> #[trigger] l_vals@[p]@.len() == l_rows@[p]@.len(),
            below(topo@, m as int),
            forall|j: int| 0 <= j < topo@.len() ==> fin@[#[trigger] topo@[j] as int] < m,
            w0.len() == m,
            x@.len() == m,
            lm == lower_maps(l_rows@, l_vals@),
            order@.len() == topo@.len() - i,
            uv@.len() == order@.len(),
            forall|t: int|
                0 <= t < order@.len() ==> #[trigger] order@[t] == fin@[topo@[topo@.len() - 1 - t] as int],
            forall|t: int|
                0 <= t < order@.len() ==> #[trigger] uv@[t] == elim(w0, piv@, lm, order@, t)[piv@[order@[t] as int] as int],
            x@ == elim(w0, piv@, lm, order@, order@.len() as int),
        decreases i,
    {
        i = i - 1;
        let u: usize = topo[i];
        let p: usize = fin[u];
        assert(p < l_rows@.len() && piv@[p as int] == u);
        let ghost order0 = order@;
        let ghost x0 = x@;
        let xu = x[u];
        x.set(u, T::zero());
        order.push(p);
        uv.push(xu);
        let nxu = T::zero().minus(xu);
        proof {
            assert forall|q: int| 0 <= q < l_rows@[p as int]@.len() implies #[trigger] l_rows@[p as int]@[q] < m by {
                assert(occurs(l_rows@[p as int]@, l_rows@[p as int]@[q] as int));
            }
            assert(distinct(l_rows@[p as int]@));
            assert(l_vals@[p as int]@.len() == l_rows@[p as int]@.len());
        }
        apply_column(x, nxu, &l_rows[p], &l_vals[p]);
        proof {
            elim_prefix(w0, piv@, lm, order0, order@, order0.len() as int);
            assert forall|t: int| 0 <= t < order@.len() implies #[trigger] uv@[t] == elim(
                w0,
                piv@,
                lm,
                order@,
                t,
            )[piv@[order@[t] as int] as int] by {
                elim_prefix(w0, piv@, lm, order0, order@, t);
            }
            assert(lm[p as int] == col_map(l_rows@[p as int]@, l_vals@[p as int]@));
            assert(x@ == elim(w0, piv@, lm, order@, order@.len() as int));
        }
    }
    (order, uv)
}

/// The pivot among the candidates, if any may serve.
fn choose_pivot<T: Scalar>(
    x: &Vec<T>,
    nonpiv: &Vec<usize>,
    diag: usize,
    diag_found: bool,
    threshold: T::Real,
) -> (r: Option<usize>)
    requires
        below(nonpiv@, x@.len() as int),
        diag_found <==> occurs(nonpiv@, diag as int),
    ensures
        match r {
            Some(v) => occurs(nonpiv@, v as int) && pivot_rule(
                x@,
                Set::new(|r: int| occurs(nonpiv@, r)),
                diag as int,
                threshold,
                v as int,
            ),
            None => no_pivot(x@, Set::new(|r: int| occurs(nonpiv@, r))),
        },
        r == chosen_pivot(x@, nonpiv@, diag, threshold),
{
    let ghost cands = Set::new(|r: int| occurs(nonpiv@, r));
    let zero: T::Real = <T::Real as Real>::zero();
    let mut best: Option<usize> = None;
    let mut maxmag: T::Real = zero;
    let mut q: usize = 0;
    while q < nonpiv.len()
        invariant
            q <= nonpiv@.len(),
            below(nonpiv@, x@.len() as int),
            zero == <T::Real as Real>::zero_spec(),
            best == first_largest(x@, nonpiv@, q as int),
            match best {
                Some(b) => {
                    &&& occurs(nonpiv@, b as int)
                    &&& b < x@.len()
                    &&& maxmag == x@[b as int].magnitude_spec()
                    &&& maxmag.gt_spec(zero)
                },
                None => maxmag == zero,
            },
            forall|i: int|
                0 <= i < q ==> !x@[#[trigger] nonpiv@[i] as int].magnitude_spec().gt_spec(maxmag),
        decreases nonpiv@.len() - q,
    {
        let r: usize = nonpiv[q];
        let mag = x[r].magnitude();
        if mag.gt(maxmag) {
            proof {
                assert forall|i: int| 0 <= i < q + 1 implies !x@[#[trigger] nonpiv@[i] as int].magnitude_spec().gt_spec(
                mag) by {
                    if x@[nonpiv@[i] as int].magnitude_spec().gt_spec(mag) {
                        if i < q {
                            <T::Real as Real>::gt_transitive(
                                x@[nonpiv@[i] as int].magnitude_spec(),
                                mag,
                                maxmag,
                            );
                        } else {
                            <T::Real as Real>::gt_irreflexive(mag);
                        }
                    }
                }
                if best is Some {
                    <T::Real as Real>::gt_transitive(mag, maxmag, zero);
                }
                assert(occurs(nonpiv@, r as int));
            }
            maxmag = mag;
            best = Some(r);
        }
        q = q + 1;
    }
    proof {
        assert forall|r: int| #[trigger] cands.contains(r) implies !x@[r].magnitude_spec().gt_spec(maxmag) by {
            let i = choose|i: int| 0 <= i < nonpiv@.len() && #[trigger] nonpiv@[i] == r;
            assert(!x@[nonpiv@[i] as int].magnitude_spec().gt_spec(maxmag));
        }
    }
    match best {
        None => None,
        Some(b) => {
            proof {
                assert(is_largest(x@, cands, b as int));
            }
            if !maxmag.is_finite() {
                return None;
            }
            if diag_found {
                proof {
                    let i = choose|i: int| 0 <= i < nonpiv@.len() && #[trigger] nonpiv@[i] == diag as int;
                    assert(nonpiv@[i] < x@.len());
                    assert(cands.contains(diag as int));
                }
                let dm = x[diag].magnitude();
                if dm.gt(zero) && dm.ge(threshold.times(maxmag)) {
                    assert(prefers_diagonal(x@, cands, b as int, diag as int, threshold));
                    return Some(diag);
                }
            } else {
                assert(!cands.contains(diag as int));
            }
            assert(!prefers_diagonal(x@, cands, b as int, diag as int, threshold));
            Some(b)
        },
    }
}

/// The column of `L`: every candidate but the pivot, divided by the pivot. The
/// work vector is cleared.
fn emit_column<T: Scalar>(x: &mut Vec<T>, nonpiv: &Vec<usize>, v: usize, dval: T) -> (r: (
    Vec<usize>,
    Vec<T>,
))
    requires
        below(nonpiv@, old(x)@.len() as int),
        distinct(nonpiv@),
        v < old(x)@.len(),
    ensures
        r.0@.len() == r.1@.len(),
        r.0@ == without(nonpiv@, v, nonpiv@.len() as int),
        distinct(r.0@),
        forall|i: int| #[trigger] occurs(r.0@, i) <==> occurs(nonpiv@, i) && i != v,
        forall|q: int|
            0 <= q < r.0@.len() ==> #[trigger] r.1@[q] == old(x)@[r.0@[q] as int].over_spec(dval),
        final(x)@.len() == old(x)@.len(),
        forall|i: int|
            0 <= i < old(x)@.len() ==> #[trigger] final(x)@[i] == (if i == v || occurs(nonpiv@, i) {
                T::zero_spec()
            } else {
                old(x)@[i]
            }),
{
    let ghost w = x@;
    x.set(v, T::zero());
    let mut rows: Vec<usize> = Vec::new();
    let mut vals: Vec<T> = Vec::new();
    let mut q: usize = 0;
    while q < nonpiv.len()
        invariant
            q <= nonpiv@.len(),
            below(nonpiv@, w.len() as int),
            distinct(nonpiv@),
            v < w.len(),
            x@.len() == w.len(),
            rows@.len() == vals@.len(),
            rows@ == without(nonpiv@, v, q as int),
            distinct(rows@),
            forall|i: int|
                #[trigger] occurs(rows@, i) <==> occurs(nonpiv@.take(q as int), i) && i != v,
            forall|j: int|
                0 <= j < rows@.len() ==> #[trigger] vals@[j] == w[rows@[j] as int].over_spec(dval),
            forall|i: int|
                0 <= i < w.len() ==> #[trigger] x@[i] == (if i == v || occurs(
                    nonpiv@.take(q as int),
                    i,
                ) {
                    T::zero_spec()
                } else {
                    w[i]
                }),
        decreases nonpiv@.len() - q,
    {
        let r: usize = nonpiv[q];
        let ghost rows0 = rows@;
        let ghost x0 = x@;
        let ghost h1 = nonpiv@.take(q as int);
        let ghost h2 = nonpiv@.take(q + 1);
        proof {
            if occurs(h1, r as int) {
                let q2 = choose|q2: int| 0 <= q2 < h1.len() && #[trigger] h1[q2] == r as int;
                assert(nonpiv@[q2] != nonpiv@[q as int]);
            }
            assert(h2[q as int] == r);
            assert forall|i: int| i != r implies (#[trigger] occurs(h2, i) <==> occurs(h1, i)) by {
                if occurs(h1, i) {
                    let q2 = choose|q2: int| 0 <= q2 < h1.len() && #[trigger] h1[q2] == i;
                    assert(h2[q2] == i);
                }
                if occurs(h2, i) {
                    let q2 = choose|q2: int| 0 <= q2 < h2.len() && #[trigger] h2[q2] == i;
                    assert(h1[q2] == i);
                }
            }
        }
        if r != v {
            rows.push(r);
            vals.push(x[r].over(dval));
            x.set(r, T::zero());
            proof {
                assert(rows@[rows0.len() as int] == r);
                assert forall|i: int| #[trigger] occurs(rows@, i) <==> occurs(h2, i) && i != v by {
                    if occurs(rows0, i) {
                        let j = choose|j: int| 0 <= j < rows0.len() && #[trigger] rows0[j] == i;
                        assert(rows@[j] == i);
                    }
                    if occurs(rows@, i) && i != r {
                        let j = choose|j: int| 0 <= j < rows@.len() && #[trigger] rows@[j] == i;
                        assert(rows0[j] == i);
                    }
                }
                assert forall|j1: int, j2: int| 0 <= j1 < j2 < rows@.len() implies #[trigger] rows@[j1]
                    != #[trigger] rows@[j2] by {
                    if j2 == rows0.len() {
                        assert(occurs(rows0, rows0[j1] as int));
                    }
                }
            }
        }
        q = q + 1;
    }
    assert(nonpiv@.take(nonpiv@.len() as int) =~= nonpiv@);
    (rows, vals)
}

proof fn swap_keeps_column<T>(
    rows: Seq<usize>,
    vals: Seq<T>,
    a: int,
    b: int,
)
    requires
        rows.len() == vals.len(),
        distinct(rows),
        0 <= a <= b < rows.len(),
    ensures
        ({
            let rows2 = rows.update(a, rows[b]).update(b, rows[a]);
            let vals2 = vals.update(a, vals[b]).update(b, vals[a]);
            &&& distinct(rows2)
            &&& col_map(rows2, vals2) == col_map(rows, vals)
            &&& forall|r: int| #[trigger] occurs(rows2, r) <==> occurs(rows, r)
        }),
{
    let rows2 = rows.update(a, rows[b]).update(b, rows[a]);
    let vals2 = vals.update(a, vals[b]).update(b, vals[a]);
    let sw = |q: int| if q == a { b } else if q == b { a } else { q };
    assert forall|q1: int, q2: int| 0 <= q1 < q2 < rows2.len() implies #[trigger] rows2[q1] != #[trigger] rows2[q2] by {
        assert(rows2[q1] == rows[sw(q1)]);
        assert(rows2[q2] == rows[sw(q2)]);
        if sw(q1) < sw(q2) {
            assert(rows[sw(q1)] != rows[sw(q2)]);
        } else {
            assert(rows[sw(q2)] != rows[sw(q1)]);
        }
    }
    col_map_same(rows2, vals2, rows, vals, sw, sw);
    assert forall|r: int| #[trigger] occurs(rows2, r) <==> occurs(rows, r) by {
        if occurs(rows2, r) {
            let q = position(rows2, r);
            assert(rows[sw(q)] == r);
        }
        if occurs(rows, r) {
            let q = position(rows, r);
            assert(rows2[sw(q)] == r);
        }
    }
}

/// Reorder a column so that its pivotal rows come first; how many there are.
fn partition<T: Scalar>(m: usize, fin: &Vec<usize>, rows: &mut Vec<usize>, vals: &mut Vec<T>) -> (head: usize)
    requires
        fin@.len() == m,
        old(rows)@.len() == old(vals)@.len(),
        distinct(old(rows)@),
        below(old(rows)@, m as int),
    ensures
        final(rows)@.len() == old(rows)@.len(),
        final(vals)@.len() == old(rows)@.len(),
        distinct(final(rows)@),
        col_map(final(rows)@, final(vals)@) == col_map(old(rows)@, old(vals)@),
        forall|r: int| #[trigger] occurs(final(rows)@, r) <==> occurs(old(rows)@, r),
        head <= final(rows)@.len(),
        (head as int, final(rows)@) == parted(m as int, fin@, old(rows)@, old(rows)@.len() as int),
        forall|q: int| 0 <= q < head ==> fin@[#[trigger] final(rows)@[q] as int] != m,
        forall|q: int| head <= q < final(rows)@.len() ==> fin@[#[trigger] final(rows)@[q] as int] == m,
{
    let ghost rows0 = rows@;
    let mut head: usize = 0;
    let mut q: usize = 0;
    while q < rows.len()
        invariant
            fin@.len() == m,
            rows@.len() == rows0.len(),
            vals@.len() == rows0.len(),
            distinct(rows@),
            below(rows@, m as int),
            col_map(rows@, vals@) == col_map(rows0, old(vals)@),
            forall|r: int| #[trigger] occurs(rows@, r) <==> occurs(rows0, r),
            head <= q <= rows@.len(),
            (head as int, rows@) == parted(m as int, fin@, rows0, q as int),
            forall|i: int| 0 <= i < head ==> fin@[#[trigger] rows@[i] as int] != m,
            forall|i: int| head <= i < q ==> fin@[#[trigger] rows@[i] as int] == m,
        decreases rows@.len() - q,
    {
        let r: usize = rows[q];
        if fin[r] != m {
            let r2: usize = rows[head];
            let v = vals[q];
            let v2 = vals[head];
            proof {
                swap_keeps_column(rows@, vals@, head as int, q as int);
            }
            rows.set(head, r);
            rows.set(q, r2);
            vals.set(head, v);
            vals.set(q, v2);
            head = head + 1;
        }
        q = q + 1;
    }
    head
}

/// A column that has been searched and pivoted extends the pattern.
proof fn grow_structure<T>(
    m: int,
    k: int,
    cols: Seq<SparseColumn<T>>,
    piv: Seq<usize>,
    fin: Seq<usize>,
    lr: Seq<Vec<usize>>,
    ur: Seq<Vec<usize>>,
    ends: Seq<usize>,
    mark: Seq<usize>,
    stamp: usize,
    topo: Seq<usize>,
    nonpiv: Seq<usize>,
    v: usize,
    newrows: Vec<usize>,
    order: Vec<usize>,
)
    requires
        0 <= k < m,
        k <= usize::MAX,
        columns_wf(m, cols),
        structure_ok(m, k, cols, piv, fin, lr, ur),
        prune_ok(k, piv, lr, ends),
        lists_ok(m, fin, mark, stamp, topo, nonpiv, Seq::empty()),
        finished_in_order(lr, ends, fin, m, mark, stamp, topo),
        forall|q: int|
            0 <= q < cols[k].rows@.len() ==> mark[#[trigger] cols[k].rows@[q] as int] == stamp,
        occurs(nonpiv, v as int),
        distinct(newrows@),
        forall|i: int| #[trigger] occurs(newrows@, i) <==> occurs(nonpiv, i) && i != v,
        order@.len() == topo.len(),
        forall|t: int|
            0 <= t < topo.len() ==> #[trigger] order@[t] == fin[topo[topo.len() - 1 - t] as int],
    ensures
        structure_ok(
            m,
            k + 1,
            cols,
            piv.push(v),
            fin.update(v as int, k as usize),
            lr.push(newrows),
            ur.push(order),
        ),
{
    let piv2 = piv.push(v);
    let fin2 = fin.update(v as int, k as usize);
    let lr2 = lr.push(newrows);
    let ur2 = ur.push(order);
    let len = topo.len() as int;
    let all = topo + nonpiv + Seq::<usize>::empty();
    assert forall|i: int| 0 <= i < topo.len() implies all[i] == #[trigger] topo[i] by {}
    assert forall|i: int| 0 <= i < nonpiv.len() implies all[len + i] == #[trigger] nonpiv[i] by {}
    let qv = position(nonpiv, v as int);
    assert(nonpiv[qv] == v);
    assert(fin[nonpiv[qv] as int] == m);
    // A stamped row that is pivotal is in `topo`, any other in `nonpiv`.
    assert forall|r: int| 0 <= r < m && mark[r] == stamp && fin[r] < m implies #[trigger] occurs(topo, r) by {
        if occurs(nonpiv, r) {
            let q = position(nonpiv, r);
            assert(fin[nonpiv[q] as int] == m);
        }
    }
    assert forall|r: int| 0 <= r < m && mark[r] == stamp && fin[r] == m implies #[trigger] occurs(nonpiv, r) by {
        if occurs(topo, r) {
            let q = position(topo, r);
            assert(fin[topo[q] as int] < m);
        }
    }
    assert forall|r: int| #[trigger] occurs(nonpiv, r) implies 0 <= r < m && fin[r] == m by {
        let q = position(nonpiv, r);
        assert(nonpiv[q] < m);
        assert(fin[nonpiv[q] as int] == m);
    }
    // Pivots.
    assert(pivots_ok(m, k + 1, piv2, fin2)) by {
        assert forall|p: int| 0 <= p < k + 1 implies #[trigger] piv2[p] < m && fin2[piv2[p] as int] == p by {
            if p < k {
                assert(piv[p] < m && fin[piv[p] as int] == p);
            }
        }
        assert forall|r: int| 0 <= r < m implies (#[trigger] fin2[r] == m || (fin2[r] < k + 1 && piv2[fin2[r] as int]
            == r)) by {
            assert(fin[r] == m || (fin[r] < k && piv[fin[r] as int] == r));
        }
    }
    // L.
    assert(lower_ok(m, k + 1, fin2, lr2)) by {
        assert forall|p: int| 0 <= p < k + 1 implies distinct(#[trigger] lr2[p]@) by {
            if p < k {
                assert(distinct(lr[p]@));
            }
        }
        assert forall|p: int, r: int| 0 <= p < k + 1 && #[trigger] occurs(lr2[p]@, r) implies 0 <= r < m
            && fin2[r] > p by {
            if p < k {
                assert(occurs(lr[p]@, r));
            } else {
                assert(occurs(newrows@, r));
            }
        }
    }
    // U.
    assert(upper_ok(k + 1, ur2)) by {
        assert forall|c: int| 0 <= c < k + 1 implies distinct(#[trigger] ur2[c]@) by {
            if c < k {
                assert(distinct(ur[c]@));
            } else {
                assert forall|t1: int, t2: int| 0 <= t1 < t2 < order@.len() implies #[trigger] order@[t1]
                    != #[trigger] order@[t2] by {
                    let a = topo[len - 1 - t1] as int;
                    let b = topo[len - 1 - t2] as int;
                    assert(all[len - 1 - t2] != all[len - 1 - t1]);
                    assert(topo[len - 1 - t1] < m && topo[len - 1 - t2] < m);
                    assert(piv[fin[a] as int] == a);
                    assert(piv[fin[b] as int] == b);
                }
            }
        }
        assert forall|c: int| 0 <= c < k + 1 implies below(#[trigger] ur2[c]@, c) by {
            if c < k {
                assert(below(ur[c]@, c));
            } else {
                assert forall|t: int| 0 <= t < order@.len() implies #[trigger] order@[t] < k by {
                    assert(topo[len - 1 - t] < m);
                    assert(fin[topo[len - 1 - t] as int] < m);
                }
            }
        }
    }
    // Fill and coverage of the earlier columns are untouched.
    assert forall|c: int| 0 <= c < k + 1 implies fill_ok(c, fin2, lr2, #[trigger] ur2[c]@) by {
        if c < k {
            let o = ur[c]@;
            assert(fill_ok(c, fin, lr, o));
            assert(below(o, c));
            assert forall|t: int, r: int| 0 <= t < o.len() && #[trigger] occurs(lr2[o[t] as int]@, r) implies {
                &&& fin2[r] < c ==> occurs(o.skip(t + 1), fin2[r] as int)
                &&& fin2[r] > c ==> occurs(lr2[c]@, r)
            } by {
                assert(o[t] < c);
                assert(occurs(lr[o[t] as int]@, r));
                assert(0 <= r < m);
            }
        } else {
            let o = order@;
            assert forall|t: int, r: int| 0 <= t < o.len() && #[trigger] occurs(lr2[o[t] as int]@, r) implies {
                &&& fin2[r] < k ==> occurs(o.skip(t + 1), fin2[r] as int)
                &&& fin2[r] > k ==> occurs(lr2[k]@, r)
            } by {
                let i = len - 1 - t;
                assert(topo[i] < m);
                assert(fin[topo[i] as int] < m);
                assert(o[t] == fin[topo[i] as int]);
                assert(o[t] < k);
                assert(occurs(lr[fin[topo[i] as int] as int]@, r));
                assert(0 <= r < m);
                pruned_reach(m, k, piv, fin, lr, ends, mark, stamp, topo, i, r);
                if fin2[r] < k {
                    let before = topo.take(i);
                    let i2 = position(before, r);
                    assert(before[i2] == r);
                    let t2 = len - 1 - i2;
                    assert(o[t2] == fin[r]);
                    assert(o.skip(t + 1)[t2 - t - 1] == fin[r]);
                }
                if fin2[r] > k {
                    assert(fin[r] == m);
                    assert(occurs(nonpiv, r));
                    assert(occurs(newrows@, r));
                }
            }
        }
    }
    assert forall|c: int| 0 <= c < k + 1 implies covers(c, fin2, lr2, #[trigger] ur2[c]@, cols[c].rows@) by {
        assert(cols[c].wf(m));
        if c < k {
            let o = ur[c]@;
            assert(covers(c, fin, lr, o, cols[c].rows@));
            assert forall|r: int| #[trigger] occurs(cols[c].rows@, r) implies {
                &&& fin2[r] < c ==> occurs(o, fin2[r] as int)
                &&& fin2[r] > c ==> occurs(lr2[c]@, r)
            } by {
                let q = position(cols[c].rows@, r);
                assert(cols[c].rows@[q] < m);
            }
        } else {
            let o = order@;
            assert forall|r: int| #[trigger] occurs(cols[k].rows@, r) implies {
                &&& fin2[r] < k ==> occurs(o, fin2[r] as int)
                &&& fin2[r] > k ==> occurs(lr2[k]@, r)
            } by {
                let q = position(cols[k].rows@, r);
                assert(cols[k].rows@[q] < m);
                assert(mark[cols[k].rows@[q] as int] == stamp);
                if fin2[r] < k {
                    assert(occurs(topo, r));
                    let i = position(topo, r);
                    assert(o[len - 1 - i] == fin[r]);
                }
                if fin2[r] > k {
                    assert(occurs(nonpiv, r));
                    assert(occurs(newrows@, r));
                }
            }
        }
    }
}

/// Reordering the rows inside the columns of `L` keeps the pattern.
proof fn permuted_structure<T>(
    m: int,
    k: int,
    cols: Seq<SparseColumn<T>>,
    piv: Seq<usize>,
    fin: Seq<usize>,
    lr: Seq<Vec<usize>>,
    lr2: Seq<Vec<usize>>,
    ur: Seq<Vec<usize>>,
)
    requires
        structure_ok(m, k, cols, piv, fin, lr, ur),
        lr2.len() == k,
        forall|p: int| 0 <= p < k ==> distinct(#[trigger] lr2[p]@),
        forall|p: int, r: int|
            0 <= p < k ==> (#[trigger] occurs(lr2[p]@, r) <==> occurs(lr[p]@, r)),
    ensures
        structure_ok(m, k, cols, piv, fin, lr2, ur),
{
    assert forall|c: int| 0 <= c < k implies fill_ok(c, fin, lr2, #[trigger] ur[c]@) by {
        let o = ur[c]@;
        assert(fill_ok(c, fin, lr, o));
        assert(below(o, c));
        assert forall|t: int, r: int| 0 <= t < o.len() && #[trigger] occurs(lr2[o[t] as int]@, r) implies {
            &&& fin[r] < c ==> occurs(o.skip(t + 1), fin[r] as int)
            &&& fin[r] > c ==> occurs(lr2[c]@, r)
        } by {
            assert(o[t] < c);
            assert(occurs(lr[o[t] as int]@, r));
            assert(fin[r] > c ==> occurs(lr[c]@, r));
        }
    }
    assert forall|c: int| 0 <= c < k implies covers(c, fin, lr2, #[trigger] ur[c]@, cols[c].rows@) by {
        assert(covers(c, fin, lr, ur[c]@, cols[c].rows@));
        assert forall|r: int| #[trigger] occurs(cols[c].rows@, r) implies {
            &&& fin[r] < c ==> occurs(ur[c]@, fin[r] as int)
            &&& fin[r] > c ==> occurs(lr2[c]@, r)
        } by {
            assert(fin[r] > c ==> occurs(lr[c]@, r));
        }
    }
    assert forall|p: int, r: int| 0 <= p < k && #[trigger] occurs(lr2[p]@, r) implies 0 <= r < m && fin[r]
        > p by {
        assert(occurs(lr[p]@, r));
    }
}

/// The search graph of the first `k` columns.
proof fn factor_graph(
    m: int,
    k: int,
    piv: Seq<usize>,
    fin: Seq<usize>,
    lr: Seq<Vec<usize>>,
    ends: Seq<usize>,
)
    requires
        pivots_ok(m, k, piv, fin),
        lower_ok(m, k, fin, lr),
        prune_ok(k, piv, lr, ends),
    ensures
        graph_ok(m, k, lr, ends, fin),
{
    assert forall|p: int, q: int| 0 <= p < k && 0 <= q < lr[p]@.len() implies {
        let c = #[trigger] lr[p]@[q];
        c < m && fin[c as int] > p
    } by {
        assert(occurs(lr[p]@, lr[p]@[q] as int));
    }
}

/// Finished columns are read from their own data alone.
proof fn column_frame<T: Scalar>(
    m: int,
    c: int,
    k: int,
    col: Map<int, T>,
    piv1: Seq<usize>,
    lm1: Seq<Map<int, T>>,
    piv2: Seq<usize>,
    lm2: Seq<Map<int, T>>,
    order: Seq<usize>,
    uv: Seq<T>,
    d: T,
    rows: Seq<usize>,
    rows2: Seq<usize>,
    threshold: T::Real,
)
    requires
        0 <= c < k,
        below(order, c),
        forall|p: int| 0 <= p < k ==> #[trigger] piv1[p] == piv2[p],
        forall|p: int| 0 <= p < k ==> #[trigger] lm1[p] == lm2[p],
        forall|r: int| #[trigger] occurs(rows2, r) <==> occurs(rows, r),
    ensures
        column_ok(m, c, col, piv1, lm1, order, uv, d) ==> column_ok(
            m,
            c,
            col,
            piv2,
            lm2,
            order,
            uv,
            d,
        ),
        pivot_ok(m, c, col, piv1, lm1, order, rows, threshold) ==> pivot_ok(
            m,
            c,
            col,
            piv2,
            lm2,
            order,
            rows2,
            threshold,
        ),
{
    let w0 = dense(m, col);
    assert(piv1[c] == piv2[c]);
    assert(lm1[c] == lm2[c]);
    elim_frame(w0, piv1, lm1, piv2, lm2, order, order.len() as int, k);
    diag_frame(m, piv1, piv2, c);
    assert(candidates(piv1[c] as int, rows) =~= candidates(piv2[c] as int, rows2));
    if column_ok(m, c, col, piv1, lm1, order, uv, d) {
        assert forall|t: int| 0 <= t < order.len() implies #[trigger] uv[t] == elim(
            w0,
            piv2,
            lm2,
            order,
            t,
        )[piv2[order[t] as int] as int] by {
            elim_frame(w0, piv1, lm1, piv2, lm2, order, t, k);
            assert(order[t] < c);
            assert(piv1[order[t] as int] == piv2[order[t] as int]);
        }
    }
}

/// The bookkeeping of diagonals stays in range.
proof fn diag_bounds(m: int, piv: Seq<usize>, k: int)
    requires
        0 <= k <= m,
        forall|p: int| 0 <= p < k ==> #[trigger] piv[p] < m,
    ensures
        diag_state(m, piv, k).0.len() == m,
        diag_state(m, piv, k).1.len() == m,
        forall|i: int| 0 <= i < m ==> 0 <= #[trigger] diag_state(m, piv, k).0[i] < m,
        forall|i: int| 0 <= i < m ==> 0 <= #[trigger] diag_state(m, piv, k).1[i] <= m,
    decreases k,
{
    if k > 0 {
        diag_bounds(m, piv, k - 1);
        let (dr, dc) = diag_state(m, piv, k - 1);
        let d = dr[k - 1];
        assert(piv[k - 1] < m);
        assert(0 <= d < m);
        assert(0 <= dc[piv[k - 1] as int] <= m);
    }
}

/// Hand the diagonal row of column `k` to the column whose row was taken.
fn reassign_diagonal(
    m: usize,
    k: usize,
    v: usize,
    Ghost(piv): Ghost<Seq<usize>>,
    diag_row: &mut Vec<usize>,
    diag_col: &mut Vec<usize>,
)
    requires
        k < m,
        v < m,
        piv.len() == k,
        forall|p: int| 0 <= p < k ==> #[trigger] piv[p] < m,
        old(diag_row)@.len() == m,
        old(diag_col)@.len() == m,
        forall|i: int| 0 <= i < m ==> #[trigger] old(diag_row)@[i] == diag_state(m as int, piv, k as int).0[i],
        forall|i: int| 0 <= i < m ==> #[trigger] old(diag_col)@[i] == diag_state(m as int, piv, k as int).1[i],
    ensures
        final(diag_row)@.len() == m,
        final(diag_col)@.len() == m,
        forall|i: int| 0 <= i < m ==> #[trigger] final(diag_row)@[i] == diag_state(m as int, piv.push(v), k + 1).0[i],
        forall|i: int| 0 <= i < m ==> #[trigger] final(diag_col)@[i] == diag_state(m as int, piv.push(v), k + 1).1[i],
{
    proof {
        diag_bounds(m as int, piv, k as int);
        diag_frame(m as int, piv, piv.push(v), k as int);
        assert(diag_row@[k as int] == diag_state(m as int, piv, k as int).0[k as int]);
        assert(diag_col@[v as int] == diag_state(m as int, piv, k as int).1[v as int]);
    }
    let d: usize = diag_row[k];
    if v != d {
        let k2: usize = diag_col[v];
        if k2 != m {
            diag_row.set(k2, d);
            diag_col.set(d, k2);
        }
        diag_col.set(v, m);
    }
}

/// Is `v` in the list?
pub fn contains_row(rows: &Vec<usize>, v: usize) -> (b: bool)
    ensures
        b <==> occurs(rows@, v as int),
{
    let mut q: usize = 0;
    while q < rows.len()
        invariant
            q <= rows@.len(),
            forall|i: int| 0 <= i < q ==> #[trigger] rows@[i] != v,
        decreases rows@.len() - q,
    {
        if rows[q] == v {
            assert(rows@[q as int] == v);
            return true;
        }
        q = q + 1;
    }
    false
}

/// Bound the search of every column that column `k` is symmetric with.
fn prune_columns<T: Scalar>(
    m: usize,
    k: usize,
    v: usize,
    order: &Vec<usize>,
    Ghost(cols): Ghost<Seq<SparseColumn<T>>>,
    Ghost(piv): Ghost<Seq<usize>>,
    Ghost(ur): Ghost<Seq<Vec<usize>>>,
    fin: &Vec<usize>,
    l_rows: &mut Vec<Vec<usize>>,
    l_vals: &mut Vec<Vec<T>>,
    ends: &mut Vec<usize>,
)
    requires
        k < m,
        structure_ok(m as int, k + 1, cols, piv, fin@, old(l_rows)@, ur),
        ur[k as int]@ == order@,
        piv[k as int] == v,
        prune_ok(k + 1, piv, old(l_rows)@, old(ends)@),
        old(l_vals)@.len() == k + 1,
        forall|p: int|
            0 <= p < k + 1 ==> #[trigger] old(l_vals)@[p]@.len() == old(l_rows)@[p]@.len(),
    ensures
        structure_ok(m as int, k + 1, cols, piv, fin@, final(l_rows)@, ur),
        prune_ok(k + 1, piv, final(l_rows)@, final(ends)@),
        final(l_vals)@.len() == k + 1,
        forall|p: int|
            0 <= p < k + 1 ==> #[trigger] final(l_vals)@[p]@.len() == final(l_rows)@[p]@.len(),
        lower_maps(final(l_rows)@, final(l_vals)@) == lower_maps(old(l_rows)@, old(l_vals)@),
        forall|p: int, r: int|
            0 <= p < k + 1 ==> (#[trigger] occurs(final(l_rows)@[p]@, r) <==> occurs(
                old(l_rows)@[p]@,
                r,
            )),
        (lists_of(final(l_rows)@), final(ends)@) == pruned(
            m as int,
            fin@,
            v,
            order@,
            lists_of(old(l_rows)@),
            old(ends)@,
            order@.len() as int,
        ),
{
    let ghost lm = lower_maps(l_rows@, l_vals@);
    let ghost lr0 = l_rows@;
    let ghost e0 = ends@;
    let mut t: usize = 0;
    while t < order.len()
        invariant
            k < m,
            t <= order@.len(),
            structure_ok(m as int, k + 1, cols, piv, fin@, l_rows@, ur),
            ur[k as int]@ == order@,
            piv[k as int] == v,
            prune_ok(k + 1, piv, l_rows@, ends@),
            l_vals@.len() == k + 1,
            forall|p: int|
                0 <= p < k + 1 ==> #[trigger] l_vals@[p]@.len() == l_rows@[p]@.len(),
            lower_maps(l_rows@, l_vals@) == lm,
            forall|p: int, r: int|
                0 <= p < k + 1 ==> (#[trigger] occurs(l_rows@[p]@, r) <==> occurs(lr0[p]@, r)),
            (lists_of(l_rows@), ends@) == pruned(
                m as int,
                fin@,
                v,
                order@,
                lists_of(lr0),
                e0,
                t as int,
            ),
        decreases order@.len() - t,
    {
        let s: usize = order[t];
        assert(lists_of(l_rows@)[s as int] == l_rows@[s as int]@) by {
            assert(below(ur[k as int]@, k as int));
            assert(order@[t as int] < k);
        }
        proof {
            assert(below(ur[k as int]@, k as int));
            assert(order@[t as int] < k);
            assert(ends@[s as int] <= l_rows@[s as int]@.len());
        }
        if ends[s] == l_rows[s].len() {
            let found: bool = contains_row(&l_rows[s], v);
            if found {
                let ghost lr1 = l_rows@;
                let ghost lv1 = l_vals@;
                let ghost ends1 = ends@;
                proof {
                    assert(distinct(l_rows@[s as int]@));
                    assert forall|q: int| 0 <= q < lr1[s as int]@.len() implies #[trigger] lr1[s as int]@[q] < m by {
                        assert(occurs(lr1[s as int]@, lr1[s as int]@[q] as int));
                    }
                }
                let head: usize = partition(m, fin, &mut l_rows[s], &mut l_vals[s]);
                ends.set(s, head);
                proof {
                    assert(lists_of(l_rows@) =~= lists_of(lr1).update(s as int, l_rows@[s as int]@));
                    assert forall|p: int, r: int| 0 <= p < k + 1 implies (#[trigger] occurs(l_rows@[p]@, r)
                        <==> occurs(lr1[p]@, r)) by {}
                    assert forall|p: int| 0 <= p < k + 1 implies distinct(#[trigger] l_rows@[p]@) by {
                        assert(distinct(lr1[p]@));
                    }
                    permuted_structure(m as int, k + 1, cols, piv, fin@, lr1, l_rows@, ur);
                    assert(lower_maps(l_rows@, l_vals@) =~= lower_maps(lr1, lv1));
                    assert(pruned_column(k + 1, piv, l_rows@, s as int, head as int)) by {
                        let rows = l_rows@[s as int]@;
                        assert(occurs(lr1[s as int]@, v as int));
                        assert(occurs(rows, v as int));
                        let qv = position(rows, v as int);
                        assert(rows[qv] == v);
                        assert(fin@[v as int] == k) by {
                            assert(piv[k as int] < m && fin@[piv[k as int] as int] == k);
                        }
                        assert(qv < head) by {
                            if qv >= head {
                                assert(fin@[rows[qv] as int] == m);
                            }
                        }
                        assert(rows.take(head as int)[qv] == v);
                        assert forall|q: int| head <= q < rows.len() implies occurs(l_rows@[k as int]@, #[trigger] rows[q] as int) by {
                            assert(fin@[rows[q] as int] == m);
                            assert(occurs(rows, rows[q] as int));
                            assert(fill_ok(k as int, fin@, l_rows@, ur[k as int]@));
                            assert(occurs(l_rows@[order@[t as int] as int]@, rows[q] as int));
                        }
                        assert(s < piv.len() && k < piv.len());
                        assert(piv[k as int] == v);
                    }
                    assert forall|s2: int| 0 <= s2 < k + 1 && #[trigger] ends@[s2] < l_rows@[s2]@.len() implies pruned_column(
                        k + 1,
                        piv,
                        l_rows@,
                        s2,
                        ends@[s2] as int,
                    ) by {
                        if s2 != s {
                            assert(ends1[s2] < lr1[s2]@.len());
                            let kk = choose|kk: int|
                                #![trigger piv[kk]]
                                s2 < kk < k + 1 && occurs(
                                    lr1[s2]@.take(ends1[s2] as int),
                                    piv[kk] as int,
                                ) && forall|q: int|
                                    ends1[s2] <= q < lr1[s2]@.len() ==> occurs(
                                        lr1[kk]@,
                                        #[trigger] lr1[s2]@[q] as int,
                                    );
                            assert(l_rows@[s2] == lr1[s2]);
                            assert forall|q: int| ends1[s2] <= q < l_rows@[s2]@.len() implies occurs(
                                l_rows@[kk]@,
                                #[trigger] l_rows@[s2]@[q] as int,
                            ) by {
                                assert(occurs(lr1[kk]@, lr1[s2]@[q] as int));
                            }
                            assert(piv[kk] == piv[kk]);
                        }
                    }
                    assert(prune_ok(k + 1, piv, l_rows@, ends@)) by {
                        assert forall|s2: int| 0 <= s2 < k + 1 implies #[trigger] ends@[s2] <= l_rows@[s2]@.len() by {
                            assert(ends1[s2] <= lr1[s2]@.len());
                        }
                    }
                }
            }
        }
        t = t + 1;
    }
}

/// What the search found, as an elimination order and candidates.
proof fn search_result(
    m: int,
    k: int,
    piv: Seq<usize>,
    fin: Seq<usize>,
    lr: Seq<Vec<usize>>,
    ends: Seq<usize>,
    start: Seq<usize>,
    mark: Seq<usize>,
    stamp: usize,
    topo: Seq<usize>,
    nonpiv: Seq<usize>,
    order: Seq<usize>,
)
    requires
        pivots_ok(m, k, piv, fin),
        lower_ok(m, k, fin, lr),
        prune_ok(k, piv, lr, ends),
        below(start, m),
        lists_ok(m, fin, mark, stamp, topo, nonpiv, Seq::empty()),
        finished_in_order(lr, ends, fin, m, mark, stamp, topo),
        forall|q: int| 0 <= q < start.len() ==> mark[#[trigger] start[q] as int] == stamp,
        order.len() == topo.len(),
        forall|t: int|
            0 <= t < topo.len() ==> #[trigger] order[t] == fin[topo[topo.len() - 1 - t] as int],
    ensures
        searched(m, k, fin, lr, start, order, nonpiv),
        distinct(nonpiv),
{
    let len = topo.len() as int;
    let all = topo + nonpiv + Seq::<usize>::empty();
    assert forall|i: int| 0 <= i < topo.len() implies all[i] == #[trigger] topo[i] by {}
    assert forall|i: int| 0 <= i < nonpiv.len() implies all[len + i] == #[trigger] nonpiv[i] by {}
    assert forall|q1: int, q2: int| 0 <= q1 < q2 < nonpiv.len() implies #[trigger] nonpiv[q1]
        != #[trigger] nonpiv[q2] by {
        assert(all[len + q1] != all[len + q2]);
    }
    assert forall|r: int| 0 <= r < m && mark[r] == stamp && fin[r] < m implies #[trigger] occurs(topo, r) by {
        if occurs(nonpiv, r) {
            let q = position(nonpiv, r);
            assert(fin[nonpiv[q] as int] == m);
        }
    }
    assert forall|r: int| 0 <= r < m && mark[r] == stamp && fin[r] == m implies #[trigger] occurs(nonpiv, r) by {
        if occurs(topo, r) {
            let q = position(topo, r);
            assert(fin[topo[q] as int] < m);
        }
    }
    assert forall|r: int| #[trigger] occurs(nonpiv, r) implies 0 <= r < m && fin[r] == m by {
        let q = position(nonpiv, r);
        assert(nonpiv[q] < m);
        assert(fin[nonpiv[q] as int] == m);
    }
    assert forall|t: int| 0 <= t < order.len() implies #[trigger] order[t] < k by {
        assert(topo[len - 1 - t] < m);
        assert(fin[topo[len - 1 - t] as int] < m);
    }
    assert forall|t1: int, t2: int| 0 <= t1 < t2 < order.len() implies #[trigger] order[t1] != #[trigger] order[t2] by {
        let a = topo[len - 1 - t1] as int;
        let b = topo[len - 1 - t2] as int;
        assert(all[len - 1 - t2] != all[len - 1 - t1]);
        assert(topo[len - 1 - t1] < m && topo[len - 1 - t2] < m);
        assert(piv[fin[a] as int] == a);
        assert(piv[fin[b] as int] == b);
    }
    assert forall|t: int, r: int| 0 <= t < order.len() && #[trigger] occurs(lr[order[t] as int]@, r) implies {
        &&& fin[r] < m ==> occurs(order.skip(t + 1), fin[r] as int)
        &&& fin[r] == m ==> occurs(nonpiv, r)
    } by {
        let i = len - 1 - t;
        assert(topo[i] < m);
        assert(fin[topo[i] as int] < m);
        assert(order[t] < k);
        assert(occurs(lr[fin[topo[i] as int] as int]@, r));
        assert(0 <= r < m);
        pruned_reach(m, k, piv, fin, lr, ends, mark, stamp, topo, i, r);
        if fin[r] < m {
            let before = topo.take(i);
            let i2 = position(before, r);
            assert(before[i2] == r);
            let t2 = len - 1 - i2;
            assert(order[t2] == fin[r]);
            assert(order.skip(t + 1)[t2 - t - 1] == fin[r]);
        }
    }
    assert forall|r: int| #[trigger] occurs(start, r) implies {
        &&& fin[r] < m ==> occurs(order, fin[r] as int)
        &&& fin[r] == m ==> occurs(nonpiv, r)
    } by {
        let q = position(start, r);
        assert(start[q] < m);
        assert(mark[start[q] as int] == stamp);
        if fin[r] < m {
            assert(occurs(topo, r));
            let i = position(topo, r);
            assert(order[len - 1 - i] == fin[r]);
        }
    }
}

/// What the search found is what the entries of the column lead to.
proof fn search_is_tight(
    m: int,
    k: int,
    piv: Seq<usize>,
    fin: Seq<usize>,
    lr: Seq<Vec<usize>>,
    ends: Seq<usize>,
    start: Seq<usize>,
    mark: Seq<usize>,
    stamp: usize,
    topo: Seq<usize>,
    nonpiv: Seq<usize>,
    v: usize,
    rows: Vec<usize>,
    order: Seq<usize>,
)
    requires
        pivots_ok(m, k, piv, fin),
        lower_ok(m, k, fin, lr),
        prune_ok(k, piv, lr, ends),
        below(start, m),
        lists_ok(m, fin, mark, stamp, topo, nonpiv, Seq::empty()),
        forall|r: int|
            0 <= r < m && #[trigger] mark[r] == stamp ==> reached(m, lr, ends, fin, start, r),
        order == elimination_order(fin, topo),
        occurs(nonpiv, v as int),
        forall|i: int| #[trigger] occurs(rows@, i) ==> occurs(nonpiv, i),
    ensures
        tight(k, piv.push(v), lr.push(rows), order, start),
{
    let piv2 = piv.push(v);
    let lr2 = lr.push(rows);
    assert forall|s: Set<int>| #[trigger] spans(k, piv2, lr2, start, s) implies {
        &&& s.contains(piv2[k] as int)
        &&& forall|r: int| #[trigger] occurs(lr2[k]@, r) ==> s.contains(r)
        &&& forall|t: int| 0 <= t < order.len() ==> s.contains(piv2[#[trigger] order[t] as int] as int)
    } by {
        assert(closed(m, lr, ends, fin, s)) by {
            assert forall|u: int, q: int|
                0 <= u < m && s.contains(u) && fin[u] < m && 0 <= q < ends[fin[u] as int] implies s.contains(
                #[trigger] lr[fin[u] as int]@[q] as int,
            ) by {
                let p = fin[u] as int;
                assert(fin[u] < k && piv[p] == u);
                assert(ends[p] <= lr[p]@.len());
                assert(lr2[p] == lr[p]);
                assert(occurs(lr2[p]@, lr[p]@[q] as int));
                assert(piv2[p] == u);
            }
        }
        assert forall|q: int| 0 <= q < start.len() implies s.contains(#[trigger] start[q] as int) by {
            assert(occurs(start, start[q] as int));
        }
        assert forall|r: int| 0 <= r < m && #[trigger] mark[r] == stamp implies s.contains(r) by {
            assert(reached(m, lr, ends, fin, start, r));
        }
        assert forall|r: int| #[trigger] occurs(nonpiv, r) implies s.contains(r) by {
            let q = position(nonpiv, r);
            assert(nonpiv[q] < m);
            assert(mark[r] == stamp);
        }
        assert forall|t: int| 0 <= t < order.len() implies s.contains(
            piv2[#[trigger] order[t] as int] as int,
        ) by {
            let u = topo[topo.len() - 1 - t] as int;
            assert(topo[topo.len() - 1 - t] < m);
            assert(fin[topo[topo.len() - 1 - t] as int] < m);
            assert(fin[u] < k && piv[fin[u] as int] == u);
            assert(occurs(topo, u));
            assert(mark[u] == stamp);
            assert(piv2[order[t] as int] == u);
        }
    }
}

/// The first `k` columns were factored, and column `k` has no pivot.
pub open spec fn stuck<T: Scalar>(
    lu: BlockLu<T>,
    m: int,
    k: int,
    cols: Seq<SparseColumn<T>>,
    threshold: T::Real,
) -> bool {
    &&& lu.partial(m, k, cols, threshold)
    &&& exists|order: Seq<usize>, rows: Seq<usize>|
        #![trigger searched(m, k, lu.fin@, lu.l_rows@, cols[k].rows@, order, rows)]
        searched(m, k, lu.fin@, lu.l_rows@, cols[k].rows@, order, rows) && no_pivot(
            elim(dense(m, cols[k]@), lu.piv@, lu.lm(), order, order.len() as int),
            Set::new(|r: int| occurs(rows, r)),
        )
}

/// Threshold pivoting can get through the first `k` columns and then find no
/// pivot in column `k`.
pub open spec fn has_no_pivot<T: Scalar>(
    m: int,
    k: int,
    cols: Seq<SparseColumn<T>>,
    threshold: T::Real,
) -> bool {
    exists|lu: BlockLu<T>| #[trigger] stuck(lu, m, k, cols, threshold)
}

proof fn stuck_is_stuck<T: Scalar>(
    lu: BlockLu<T>,
    m: int,
    k: int,
    cols: Seq<SparseColumn<T>>,
    threshold: T::Real,
)
    requires
        stuck(lu, m, k, cols, threshold),
    ensures
        has_no_pivot(m, k, cols, threshold),
{
}

/// Write a sparse column into a work vector that is zero.
pub fn scatter<T: Scalar>(x: &mut Vec<T>, col: &SparseColumn<T>)
    requires
        col.wf(old(x)@.len() as int),
        forall|r: int| 0 <= r < old(x)@.len() ==> #[trigger] old(x)@[r] == T::zero_spec(),
    ensures
        final(x)@ == dense(old(x)@.len() as int, col@),
{
    let ghost m = x@.len() as int;
    let mut q: usize = 0;
    while q < col.rows.len()
        invariant
            col.wf(m),
            m == x@.len(),
            q <= col.rows@.len(),
            forall|r: int|
                0 <= r < m ==> #[trigger] x@[r] == (if occurs(col.rows@.take(q as int), r) {
                    col@[r]
                } else {
                    T::zero_spec()
                }),
        decreases col.rows@.len() - q,
    {
        let r: usize = col.rows[q];
        let ghost x0 = x@;
        proof {
            col_map_at(col.rows@, col.vals@, q as int);
        }
        x.set(r, col.vals[q]);
        q = q + 1;
        proof {
            let h1 = col.rows@.take(q - 1);
            let h2 = col.rows@.take(q as int);
            assert forall|r2: int| 0 <= r2 < m implies #[trigger] x@[r2] == (if occurs(h2, r2) {
                col@[r2]
            } else {
                T::zero_spec()
            }) by {
                if r2 == r {
                    assert(h2[q - 1] == r);
                } else {
                    assert(x@[r2] == x0[r2]);
                    if occurs(h1, r2) {
                        let q2 = position(h1, r2);
                        assert(h2[q2] == r2);
                    }
                    if occurs(h2, r2) {
                        let q2 = position(h2, r2);
                        assert(h1[q2] == r2);
                    }
                }
            }
        }
    }
    assert(col.rows@.take(col.rows@.len() as int) =~= col.rows@);
    assert(x@ =~= dense(m, col@));
}

/// Factor an `m` by `m` block, or report the column that has no pivot.
pub fn factor_block<T: Scalar>(
    m: usize,
    cols: &Vec<SparseColumn<T>>,
    threshold: T::Real,
) -> (r: Result<BlockLu<T>, usize>)
    requires
        columns_wf(m as int, cols@),
        m < usize::MAX,
    ensures
        r matches Ok(lu) ==> lu.partial(m as int, m as int, cols@, threshold),
        r matches Err(k) ==> k < m,
        r matches Err(k) ==> has_no_pivot(m as int, k as int, cols@, threshold),
        r matches Ok(lu) ==> lu.swept(m as int, cols@, threshold),
        r matches Ok(lu) ==> lu.tight(m as int, cols@),
        r matches Err(k) ==> sweep_fails(m as int, cols@, threshold, k as int),
{
    let mut lu: BlockLu<T> = BlockLu {
        piv: Vec::new(),
        fin: Vec::new(),
        l_rows: Vec::new(),
        l_vals: Vec::new(),
        u_rows: Vec::new(),
        u_vals: Vec::new(),
        d: Vec::new(),
    };
    let mut x: Vec<T> = Vec::new();
    let mut mark: Vec<usize> = Vec::new();
    let mut diag_row: Vec<usize> = Vec::new();
    let mut diag_col: Vec<usize> = Vec::new();
    let mut ends: Vec<usize> = Vec::new();
    let mut topo: Vec<usize> = Vec::new();
    let mut nonpiv: Vec<usize> = Vec::new();
    let mut i: usize = 0;
    while i < m
        invariant
            i <= m,
            x@.len() == i,
            mark@.len() == i,
            diag_row@.len() == i,
            diag_col@.len() == i,
            lu.fin@.len() == i,
            lu.piv@.len() == 0,
            lu.l_rows@.len() == 0,
            lu.l_vals@.len() == 0,
            lu.u_rows@.len() == 0,
            lu.u_vals@.len() == 0,
            lu.d@.len() == 0,
            forall|r: int| 0 <= r < i ==> #[trigger] x@[r] == T::zero_spec(),
            forall|r: int| 0 <= r < i ==> #[trigger] mark@[r] == 0,
            forall|r: int| 0 <= r < i ==> #[trigger] diag_row@[r] == r,
            forall|r: int| 0 <= r < i ==> #[trigger] diag_col@[r] == r,
            forall|r: int| 0 <= r < i ==> #[trigger] lu.fin@[r] == m,
        decreases m - i,
    {
        x.push(T::zero());
        mark.push(0);
        diag_row.push(i);
        diag_col.push(i);
        lu.fin.push(m);
        i = i + 1;
    }
    proof {
        let s = Sweep::<T>::fresh(m as int);
        assert(lu.fin@ =~= s.fin);
        assert(lists_of(lu.l_rows@) =~= s.l_rows);
        assert(lists_of(lu.u_rows@) =~= s.u_rows);
        assert(ends@ =~= s.ends);
        assert(lu.piv@ =~= s.piv);
        assert(lu.lm() =~= s.lm);
    }
    let mut k: usize = 0;
    while k < m
        invariant
            k <= m,
            m < usize::MAX,
            columns_wf(m as int, cols@),
            sweep(m as int, cols@, threshold, k as int) == Some(lu.moment(ends@)),
            lu.tight(k as int, cols@),
            lu.partial(m as int, k as int, cols@, threshold),
            prune_ok(k as int, lu.piv@, lu.l_rows@, ends@),
            x@.len() == m,
            mark@.len() == m,
            diag_row@.len() == m,
            diag_col@.len() == m,
            forall|r: int| 0 <= r < m ==> #[trigger] x@[r] == T::zero_spec(),
            forall|r: int| 0 <= r < m ==> #[trigger] mark@[r] <= k,
            forall|r: int|
                0 <= r < m ==> #[trigger] diag_row@[r] == diag_state(m as int, lu.piv@, k as int).0[r],
            forall|r: int|
                0 <= r < m ==> #[trigger] diag_col@[r] == diag_state(m as int, lu.piv@, k as int).1[r],
        decreases m - k,
    {
        let ghost lu0 = lu;
        let ghost ends0 = ends@;
        assert(cols@[k as int].wf(m as int));
        proof {
            factor_graph(m as int, k as int, lu.piv@, lu.fin@, lu.l_rows@, ends@);
        }
        let stamp: usize = k + 1;
        reach(
            m,
            &cols[k].rows,
            &lu.l_rows,
            &ends,
            &lu.fin,
            stamp,
            &mut mark,
            &mut topo,
            &mut nonpiv,
        );
        scatter(&mut x, &cols[k]);
        let (order, uv) = eliminate(m, &topo, &lu.piv, &lu.fin, &lu.l_rows, &lu.l_vals, &mut x);
        proof {
            search_result(
                m as int,
                k as int,
                lu.piv@,
                lu.fin@,
                lu.l_rows@,
                ends@,
                cols@[k as int].rows@,
                mark@,
                stamp,
                topo@,
                nonpiv@,
                order@,
            );
            found_is(lu.moment(ends@), m as int, cols@[k as int].rows@, topo@, nonpiv@);
            assert(order@ =~= elimination_order(lu.fin@, topo@));
            diag_bounds(m as int, lu.piv@, k as int);
            assert(diag_row@[k as int] == diag_state(m as int, lu.piv@, k as int).0[k as int]);
        }
        let diag: usize = diag_row[k];
        let diag_found: bool = mark[diag] == stamp && lu.fin[diag] == m;
        assert(diag == lu.moment(ends@).diagonal(m as int));
        proof {
            if diag_found {
                if occurs(topo@, diag as int) {
                    let q = position(topo@, diag as int);
                    assert(lu.fin@[topo@[q] as int] < m);
                }
                assert(occurs(nonpiv@, diag as int));
            }
        }
        match choose_pivot(&x, &nonpiv, diag, diag_found, threshold) {
            None => {
                proof {
                    let o = order@;
                    let np = nonpiv@;
                    assert(searched(
                        m as int,
                        k as int,
                        lu.fin@,
                        lu.l_rows@,
                        cols@[k as int].rows@,
                        o,
                        np,
                    ));
                    stuck_is_stuck(lu, m as int, k as int, cols@, threshold);
                    assert(sweep(m as int, cols@, threshold, k + 1) is None);
                }
                return Err(k);
            },
            Some(v) => {
                let ghost w = x@;
                let dval = x[v];
                let (rows, vals) = emit_column(&mut x, &nonpiv, v, dval);
                reassign_diagonal(m, k, v, Ghost(lu.piv@), &mut diag_row, &mut diag_col);
                proof {
                    grow_structure(
                        m as int,
                        k as int,
                        cols@,
                        lu.piv@,
                        lu.fin@,
                        lu.l_rows@,
                        lu.u_rows@,
                        ends@,
                        mark@,
                        stamp,
                        topo@,
                        nonpiv@,
                        v,
                        rows,
                        order,
                    );
                }
                let rows_len: usize = rows.len();
                let order2: Vec<usize> = copied(&order);
                lu.piv.push(v);
                lu.fin.set(v, k);
                lu.l_rows.push(rows);
                lu.l_vals.push(vals);
                lu.u_rows.push(order);
                lu.u_vals.push(uv);
                lu.d.push(dval);
                ends.push(rows_len);
                let ghost lu1 = lu;
                proof {
                    assert(order2@ == lu.u_rows@[k as int]@);
                    assert(lu1.piv@.drop_last() =~= lu0.piv@);
                    assert(lu1.l_rows@.drop_last() =~= lu0.l_rows@);
                    assert(lu1.l_vals@.drop_last() =~= lu0.l_vals@);
                    assert(lu1.u_rows@.drop_last() =~= lu0.u_rows@);
                    assert(lu1.u_vals@.drop_last() =~= lu0.u_vals@);
                    assert(lu1.d@.drop_last() =~= lu0.d@);
                    grow_values(lu0, lu1, m as int, k as int, cols@, threshold, w, nonpiv@);
                    grow_prune(k as int, lu0.piv@, lu0.l_rows@, ends0, v, rows, rows_len);
                    divided_is(w, rows@, vals@, dval);
                    search_is_tight(
                        m as int,
                        k as int,
                        lu0.piv@,
                        lu0.fin@,
                        lu0.l_rows@,
                        ends0,
                        cols@[k as int].rows@,
                        mark@,
                        stamp,
                        topo@,
                        nonpiv@,
                        v,
                        rows,
                        order2@,
                    );
                    assert(lists_of(lu1.l_rows@) =~= lists_of(lu0.l_rows@).push(rows@));
                    assert(lists_of(lu1.u_rows@) =~= lists_of(lu0.u_rows@).push(order2@));
                    assert(lu1.lm() =~= lu0.lm().push(col_map(rows@, vals@)));
                    assert forall|r: int| 0 <= r < m implies #[trigger] x@[r] == T::zero_spec() by {
                        if r != v && !occurs(nonpiv@, r) {
                            assert(w[r] == T::zero_spec());
                        }
                    }
                }
                prune_columns(
                    m,
                    k,
                    v,
                    &order2,
                    Ghost(cols@),
                    Ghost(lu.piv@),
                    Ghost(lu.u_rows@),
                    &lu.fin,
                    &mut lu.l_rows,
                    &mut lu.l_vals,
                    &mut ends,
                );
                proof {
                    assert forall|c: int| 0 <= c < k + 1 implies {
                        &&& column_ok(m as int, c, #[trigger] cols@[c]@, lu.piv@, lu.lm(), lu.u_rows@[c]@, lu.u_vals@[c]@, lu.d@[c])
                        &&& pivot_ok(m as int, c, cols@[c]@, lu.piv@, lu.lm(), lu.u_rows@[c]@, lu.l_rows@[c]@, threshold)
                    } by {
                        assert(below(lu.u_rows@[c]@, c));
                        column_frame(
                            m as int,
                            c,
                            k + 1,
                            cols@[c]@,
                            lu1.piv@,
                            lu1.lm(),
                            lu.piv@,
                            lu.lm(),
                            lu.u_rows@[c]@,
                            lu.u_vals@[c]@,
                            lu.d@[c],
                            lu1.l_rows@[c]@,
                            lu.l_rows@[c]@,
                            threshold,
                        );
                        assert(column_ok(m as int, c, cols@[c]@, lu1.piv@, lu1.lm(), lu1.u_rows@[c]@, lu1.u_vals@[c]@, lu1.d@[c]));
                    }
                    assert(lu.partial(m as int, k + 1, cols@, threshold));
                    assert forall|c: int| 0 <= c < k + 1 implies tight(
                        c,
                        lu.piv@,
                        lu.l_rows@,
                        #[trigger] lu.u_rows@[c]@,
                        cols@[c].rows@,
                    ) by {
                        assert(below(lu.u_rows@[c]@, c));
                        if c < k {
                            assert(lu0.u_rows@[c]@ == lu.u_rows@[c]@);
                            tight_frame(
                                c,
                                lu0.piv@,
                                lu0.l_rows@,
                                lu.piv@,
                                lu.l_rows@,
                                lu.u_rows@[c]@,
                                cols@[c].rows@,
                            );
                        } else {
                            tight_frame(
                                c,
                                lu1.piv@,
                                lu1.l_rows@,
                                lu.piv@,
                                lu.l_rows@,
                                lu.u_rows@[c]@,
                                cols@[c].rows@,
                            );
                        }
                    }
                    let s = lu0.moment(ends0);
                    assert(s.next(m as int, cols@[k as int].rows@, cols@[k as int]@, threshold) == Some(
                        s.pivoted_on(m as int, w, order2@, nonpiv@, v),
                    ));
                    assert(s.pivoted_on(m as int, w, order2@, nonpiv@, v) == lu.moment(ends@));
                }
            },
        }
        k = k + 1;
    }
    Ok(lu)
}

/// A fresh column is not pruned.
proof fn grow_prune(
    k: int,
    piv: Seq<usize>,
    lr: Seq<Vec<usize>>,
    ends: Seq<usize>,
    v: usize,
    rows: Vec<usize>,
    len: usize,
)
    requires
        prune_ok(k, piv, lr, ends),
        piv.len() == k,
        lr.len() == k,
        0 <= k,
        len == rows@.len(),
    ensures
        prune_ok(k + 1, piv.push(v), lr.push(rows), ends.push(len)),
{
    let piv2 = piv.push(v);
    let lr2 = lr.push(rows);
    let ends2 = ends.push(len);
    assert forall|s: int| 0 <= s < k + 1 implies #[trigger] ends2[s] <= lr2[s]@.len() by {
        if s < k {
            assert(ends[s] <= lr[s]@.len());
        }
    }
    assert forall|s: int| 0 <= s < k + 1 && #[trigger] ends2[s] < lr2[s]@.len() implies pruned_column(
        k + 1,
        piv2,
        lr2,
        s,
        ends2[s] as int,
    ) by {
        assert(s < k);
        assert(ends[s] < lr[s]@.len());
        let kk = choose|kk: int|
            #![trigger piv[kk]]
            s < kk < k && occurs(lr[s]@.take(ends[s] as int), piv[kk] as int) && forall|q: int|
                ends[s] <= q < lr[s]@.len() ==> occurs(lr[kk]@, #[trigger] lr[s]@[q] as int);
        assert(piv2[kk] == piv[kk]);
        assert(lr2[kk] == lr[kk] && lr2[s] == lr[s]);
        assert forall|q: int| ends2[s] <= q < lr2[s]@.len() implies occurs(lr2[kk]@, #[trigger] lr2[s]@[q] as int) by {
            assert(occurs(lr[kk]@, lr[s]@[q] as int));
        }
    }
}

/// The values of a fresh column are those of the elimination, and it leaves
/// nothing else in the work vector.
proof fn grow_values<T: Scalar>(
    lu0: BlockLu<T>,
    lu1: BlockLu<T>,
    m: int,
    k: int,
    cols: Seq<SparseColumn<T>>,
    threshold: T::Real,
    w: Seq<T>,
    nonpiv: Seq<usize>,
)
    requires
        0 <= k < m,
        columns_wf(m, cols),
        lu0.partial(m, k, cols, threshold),
        lu1.shaped(k + 1),
        structure_ok(m, k + 1, cols, lu1.piv@, lu1.fin@, lu1.l_rows@, lu1.u_rows@),
        lu1.piv@.drop_last() == lu0.piv@,
        lu1.l_rows@.drop_last() == lu0.l_rows@,
        lu1.l_vals@.drop_last() == lu0.l_vals@,
        lu1.u_rows@.drop_last() == lu0.u_rows@,
        lu1.u_vals@.drop_last() == lu0.u_vals@,
        lu1.d@.drop_last() == lu0.d@,
        ({
            let order = lu1.u_rows@[k]@;
            let w0 = dense(m, cols[k]@);
            &&& w == elim(w0, lu0.piv@, lu0.lm(), order, order.len() as int)
            &&& forall|t: int|
                0 <= t < order.len() ==> #[trigger] lu1.u_vals@[k]@[t] == elim(
                    w0,
                    lu0.piv@,
                    lu0.lm(),
                    order,
                    t,
                )[lu0.piv@[order[t] as int] as int]
        }),
        lu1.d@[k] == w[lu1.piv@[k] as int],
        forall|i: int|
            #[trigger] occurs(lu1.l_rows@[k]@, i) <==> occurs(nonpiv, i) && i != lu1.piv@[k],
        occurs(nonpiv, lu1.piv@[k] as int),
        forall|q: int|
            0 <= q < lu1.l_rows@[k]@.len() ==> #[trigger] lu1.l_vals@[k]@[q] == w[lu1.l_rows@[k]@[q] as int].over_spec(
                lu1.d@[k],
            ),
        pivot_rule(
            w,
            Set::new(|r: int| occurs(nonpiv, r)),
            diag_state(m, lu0.piv@, k).0[k],
            threshold,
            lu1.piv@[k] as int,
        ),
    ensures
        lu1.valued(m, k + 1, cols),
        lu1.pivoted(m, k + 1, cols, threshold),
        forall|r: int|
            0 <= r < m && r != lu1.piv@[k] && !occurs(nonpiv, r) ==> #[trigger] w[r] == T::zero_spec(),
{
    let piv0 = lu0.piv@;
    let piv1 = lu1.piv@;
    let lm0 = lu0.lm();
    let lm1 = lu1.lm();
    let order = lu1.u_rows@[k]@;
    let w0 = dense(m, cols[k]@);
    let fin1 = lu1.fin@;
    let lr1 = lu1.l_rows@;
    assert forall|p: int| 0 <= p < k implies #[trigger] piv0[p] == piv1[p] by {
        assert(piv1.drop_last()[p] == piv1[p]);
    }
    assert forall|p: int| 0 <= p < k implies #[trigger] lm0[p] == lm1[p] by {
        assert(lu1.l_rows@.drop_last()[p] == lu1.l_rows@[p]);
        assert(lu1.l_vals@.drop_last()[p] == lu1.l_vals@[p]);
    }
    assert(below(lu1.u_rows@[k]@, k));
    // Earlier columns.
    assert forall|c: int| 0 <= c < k implies {
        &&& column_ok(m, c, #[trigger] cols[c]@, piv1, lm1, lu1.u_rows@[c]@, lu1.u_vals@[c]@, lu1.d@[c])
        &&& pivot_ok(m, c, cols[c]@, piv1, lm1, lu1.u_rows@[c]@, lu1.l_rows@[c]@, threshold)
    } by {
        assert(below(lu1.u_rows@[c]@, c));
        assert(lu1.u_rows@.drop_last()[c] == lu1.u_rows@[c]);
        assert(lu1.u_vals@.drop_last()[c] == lu1.u_vals@[c]);
        assert(lu1.l_rows@.drop_last()[c] == lu1.l_rows@[c]);
        assert(lu1.d@.drop_last()[c] == lu1.d@[c]);
        assert(column_ok(m, c, cols[c]@, piv0, lm0, lu0.u_rows@[c]@, lu0.u_vals@[c]@, lu0.d@[c]));
        column_frame(
            m,
            c,
            k,
            cols[c]@,
            piv0,
            lm0,
            piv1,
            lm1,
            lu1.u_rows@[c]@,
            lu1.u_vals@[c]@,
            lu1.d@[c],
            lu1.l_rows@[c]@,
            lu1.l_rows@[c]@,
            threshold,
        );
    }
    // The new column.
    elim_frame(w0, piv0, lm0, piv1, lm1, order, order.len() as int, k);
    diag_frame(m, piv0, piv1, k);
    assert(lm1[k] == col_map(lr1[k]@, lu1.l_vals@[k]@));
    assert(distinct(lr1[k]@));
    let v = piv1[k] as int;
    assert(cols[k].wf(m));
    assert(fill_ok(k, fin1, lr1, lu1.u_rows@[k]@));
    assert(covers(k, fin1, lr1, lu1.u_rows@[k]@, cols[k].rows@));
    assert forall|r: int| 0 <= r < m && r != v && !occurs(nonpiv, r) implies #[trigger] w[r] == T::zero_spec() by {
        assert(fin1[v] == k);
        assert(fin1[r] == m || (fin1[r] < k + 1 && piv1[fin1[r] as int] == r));
        assert(order.skip(order.len() as int) =~= Seq::<usize>::empty());
        elim_confined(
            m,
            k,
            cols[k]@,
            cols[k].rows@,
            piv1,
            fin1,
            lr1,
            lm1,
            order,
            order.len() as int,
            r,
        );
    }
    assert(column_ok(m, k, cols[k]@, piv1, lm1, order, lu1.u_vals@[k]@, lu1.d@[k])) by {
        assert forall|t: int| 0 <= t < order.len() implies #[trigger] lu1.u_vals@[k]@[t] == elim(
            w0,
            piv1,
            lm1,
            order,
            t,
        )[piv1[order[t] as int] as int] by {
            elim_frame(w0, piv0, lm0, piv1, lm1, order, t, k);
            assert(order[t] < k);
            assert(piv0[order[t] as int] == piv1[order[t] as int]);
        }
        assert forall|r: int| #[trigger] lm1[k].contains_key(r) implies lm1[k][r] == w[r].over_spec(
            lu1.d@[k],
        ) by {
            let q = position(lr1[k]@, r);
            col_map_at(lr1[k]@, lu1.l_vals@[k]@, q);
        }
    }
    assert(candidates(v, lr1[k]@) =~= Set::new(|r: int| occurs(nonpiv, r)));
    assert(pivot_ok(m, k, cols[k]@, piv1, lm1, order, lr1[k]@, threshold));
}

} // verus!
