//! The dense path for small matrices: one front with all rows.

use crate::error::RslabError;
use crate::flat::{column_bounds, column_start};
use crate::multifrontal::assembly::{cells_from_front, front_from_cells, lower_matrix, zero_front};
use crate::multifrontal::factors::SparseFactors;
use crate::multifrontal::factorize::FactorWorkspace;
use crate::multifrontal::kernel::{
    cell, cell_inside, cell_unique, DiagonalKernel, FrontKernel, FrontalFactors, Inertia,
};
use crate::multifrontal::node::NodeFactors;
use crate::multifrontal::order::{elim_of, eliminated};
use crate::multifrontal::params::{
    apply_post_scaling_overrides, dense_sums, most, overridden, scaled_matrix_infnorm_dense,
    NumericParams,
};
use crate::multifrontal::permute::is_lower;
use crate::scalar::Scalar;
use crate::seqs::{below, count_up, counting, distinct, occurs};
use crate::sorted::grown;
use crate::sparse::{col_map, col_map_at, column_range, GeneralCsc};
use vstd::prelude::*;

verus! {

/// Entry `(i, j)` of the scaled matrix.
pub open spec fn scaled_at<T: Scalar>(a: GeneralCsc<T>, scaling: Seq<T>, i: int, j: int) -> T {
    a.at(i, j).times_spec(scaling[i].times_spec(scaling[j]))
}

/// The scaled matrix as one front.
pub open spec fn dense_front<T: Scalar>(a: GeneralCsc<T>, scaling: Seq<T>) -> Seq<T> {
    lower_matrix(a.n as int, |i: int, j: int| scaled_at(a, scaling, i, j))
}

/// Write a lower triangular matrix out densely.
fn densify<T: Scalar>(a: &GeneralCsc<T>) -> (r: Option<Vec<T>>)
    requires
        a.wf(),
        is_lower(*a),
    ensures
        r is Some <==> a.n * a.n <= usize::MAX,
        r matches Some(f) ==> f@ == lower_matrix(a.n as int, |i: int, j: int| a.at(i, j)),
{
    let n: usize = a.n;
    let ghost m = n as int;
    let mut f: Vec<T> = match zero_front(n) {
        Some(v) => v,
        None => {
            return None;
        },
    };
    let size: usize = f.len();
    proof {
        assert forall|i: int, j: int|
            #![trigger cell(m, i, j)]
            0 <= j <= i < m implies f@[cell(m, i, j)] == T::zero_spec() by {
            cell_inside(m, i, j);
        }
    }
    let mut j: usize = 0;
    while j < n
        invariant
            j <= n,
            n == a.n,
            m == n,
            a.wf(),
            is_lower(*a),
            size == m * m,
            f@.len() == size,
            forall|i2: int, j2: int|
                #![trigger cell(m, i2, j2)]
                0 <= j2 <= i2 < m ==> f@[cell(m, i2, j2)] == (if j2 < j {
                    a.at(i2, j2)
                } else {
                    T::zero_spec()
                }),
            forall|p: int|
                0 <= p < size && (forall|i2: int, j2: int|
                    #![trigger cell(m, i2, j2)]
                    0 <= j2 <= i2 < m ==> p != cell(m, i2, j2)) ==> #[trigger] f@[p] == T::zero_spec(),
        decreases n - j,
    {
        proof {
            column_range(*a, j as int);
            column_bounds(m, j as int, m);
        }
        let ghost f0 = f@;
        let ghost rows = a.rows_of(j as int);
        let ghost vals = a.vals_of(j as int);
        let ghost col = a.col(j as int);
        let base: usize = n * j;
        let lo: usize = a.col_ptr[j];
        let hi: usize = a.col_ptr[j + 1];
        let mut k: usize = lo;
        while k < hi
            invariant
                lo <= k <= hi <= a.row_idx@.len(),
                a.values@.len() == a.row_idx@.len(),
                j < n,
                m == n,
                size == m * m,
                f@.len() == size,
                f0.len() == size,
                base == column_start(m, j as int),
                base + n <= size,
                rows.len() == hi - lo,
                vals.len() == hi - lo,
                distinct(rows),
                below(rows, m),
                col == col_map(rows, vals),
                forall|q: int| 0 <= q < rows.len() ==> #[trigger] rows[q] == a.row_idx@[lo + q],
                forall|q: int| 0 <= q < rows.len() ==> #[trigger] vals[q] == a.values@[lo + q],
                forall|q: int| 0 <= q < rows.len() ==> #[trigger] rows[q] >= j,
                forall|i2: int, j2: int|
                    #![trigger cell(m, i2, j2)]
                    0 <= j2 <= i2 < m ==> f@[cell(m, i2, j2)] == (if j2 == j && occurs(
                        rows.take(k - lo),
                        i2,
                    ) {
                        col[i2]
                    } else {
                        f0[cell(m, i2, j2)]
                    }),
                forall|p: int|
                    0 <= p < size && (forall|i2: int, j2: int|
                        #![trigger cell(m, i2, j2)]
                        0 <= j2 <= i2 < m ==> p != cell(m, i2, j2)) ==> #[trigger] f@[p]
                        == T::zero_spec(),
            decreases hi - k,
        {
            let i: usize = a.row_idx[k];
            let ghost fb = f@;
            proof {
                assert(rows[k - lo] == i);
                assert(vals[k - lo] == a.values@[k as int]);
                grown(rows, k - lo, k - lo + 1);
                col_map_at(rows, vals, k - lo);
                cell_inside(m, i as int, j as int);
            }
            f.set(base + i, a.values[k]);
            proof {
                assert(base + i == cell(m, i as int, j as int));
                assert forall|i2: int, j2: int|
                    #![trigger cell(m, i2, j2)]
                    0 <= j2 <= i2 < m implies f@[cell(m, i2, j2)] == (if j2 == j && occurs(
                    rows.take(k - lo + 1),
                    i2,
                ) {
                    col[i2]
                } else {
                    f0[cell(m, i2, j2)]
                }) by {
                    cell_inside(m, i2, j2);
                    if cell(m, i2, j2) == base + i {
                        cell_unique(m, i2, j2, i as int, j as int);
                    } else {
                        assert(f@[cell(m, i2, j2)] == fb[cell(m, i2, j2)]);
                    }
                }
                assert forall|p: int|
                    0 <= p < size && (forall|i2: int, j2: int|
                        #![trigger cell(m, i2, j2)]
                        0 <= j2 <= i2 < m ==> p != cell(m, i2, j2)) implies #[trigger] f@[p]
                    == T::zero_spec() by {
                    assert(p != cell(m, i as int, j as int));
                    assert(f@[p] == fb[p]);
                }
            }
            k = k + 1;
        }
        proof {
            assert(rows.take(hi - lo) =~= rows);
            assert forall|i2: int, j2: int|
                #![trigger cell(m, i2, j2)]
                0 <= j2 <= i2 < m implies f@[cell(m, i2, j2)] == (if j2 < j + 1 {
                a.at(i2, j2)
            } else {
                T::zero_spec()
            }) by {
                assert(f0[cell(m, i2, j2)] == (if j2 < j {
                    a.at(i2, j2)
                } else {
                    T::zero_spec()
                }));
            }
        }
        j = j + 1;
    }
    proof {
        front_from_cells(f@, m, |i: int, j: int| a.at(i, j));
    }
    Some(f)
}

/// Scale the lower triangle.
fn scale_lower<T: Scalar>(f: &mut Vec<T>, a: &GeneralCsc<T>, scaling: &[T])
    requires
        scaling@.len() == a.n,
        old(f)@ == lower_matrix(a.n as int, |i: int, j: int| a.at(i, j)),
    ensures
        final(f)@ == dense_front(*a, scaling@),
{
    let n: usize = a.n;
    let ghost m = n as int;
    proof {
        cells_from_front(m, |i: int, j: int| a.at(i, j));
    }
    let size: usize = f.len();
    let mut j: usize = 0;
    while j < n
        invariant
            j <= n,
            n == a.n,
            m == n,
            scaling@.len() == n,
            size == m * m,
            f@.len() == size,
            forall|i2: int, j2: int|
                #![trigger cell(m, i2, j2)]
                0 <= j2 <= i2 < m ==> f@[cell(m, i2, j2)] == (if j2 < j {
                    scaled_at(*a, scaling@, i2, j2)
                } else {
                    a.at(i2, j2)
                }),
            forall|p: int|
                0 <= p < size && (forall|i2: int, j2: int|
                    #![trigger cell(m, i2, j2)]
                    0 <= j2 <= i2 < m ==> p != cell(m, i2, j2)) ==> #[trigger] f@[p] == T::zero_spec(),
        decreases n - j,
    {
        proof {
            column_bounds(m, j as int, m);
        }
        let base: usize = n * j;
        let sj = scaling[j];
        let mut i: usize = j;
        while i < n
            invariant
                j <= i <= n,
                j < n,
                m == n,
                n == a.n,
                scaling@.len() == n,
                sj == scaling@[j as int],
                size == m * m,
                f@.len() == size,
                base == column_start(m, j as int),
                base + n <= size,
                forall|i2: int, j2: int|
                    #![trigger cell(m, i2, j2)]
                    0 <= j2 <= i2 < m ==> f@[cell(m, i2, j2)] == (if j2 < j || (j2 == j && i2 < i) {
                        scaled_at(*a, scaling@, i2, j2)
                    } else {
                        a.at(i2, j2)
                    }),
                forall|p: int|
                    0 <= p < size && (forall|i2: int, j2: int|
                        #![trigger cell(m, i2, j2)]
                        0 <= j2 <= i2 < m ==> p != cell(m, i2, j2)) ==> #[trigger] f@[p]
                        == T::zero_spec(),
            decreases n - i,
        {
            let ghost fb = f@;
            assert(cell(m, i as int, j as int) == base + i);
            let v = f[base + i].times(scaling[i].times(sj));
            f.set(base + i, v);
            proof {
                assert forall|i2: int, j2: int|
                    #![trigger cell(m, i2, j2)]
                    0 <= j2 <= i2 < m implies f@[cell(m, i2, j2)] == (if j2 < j || (j2 == j && i2
                    < i + 1) {
                    scaled_at(*a, scaling@, i2, j2)
                } else {
                    a.at(i2, j2)
                }) by {
                    cell_inside(m, i2, j2);
                    if cell(m, i2, j2) == base + i {
                        cell_unique(m, i2, j2, i as int, j as int);
                    } else {
                        assert(f@[cell(m, i2, j2)] == fb[cell(m, i2, j2)]);
                    }
                }
                assert forall|p: int|
                    0 <= p < size && (forall|i2: int, j2: int|
                        #![trigger cell(m, i2, j2)]
                        0 <= j2 <= i2 < m ==> p != cell(m, i2, j2)) implies #[trigger] f@[p]
                    == T::zero_spec() by {
                    assert(p != cell(m, i as int, j as int));
                    assert(f@[p] == fb[p]);
                }
            }
            i = i + 1;
        }
        j = j + 1;
    }
    proof {
        front_from_cells(f@, m, |i: int, j: int| scaled_at(*a, scaling@, i, j));
        assert(f@ =~= dense_front(*a, scaling@));
    }
}

/// The settings after the norm of the dense front is known.
pub open spec fn dense_settled<T: Scalar>(
    params: NumericParams<T::Real>,
    front: Seq<T>,
    n: int,
) -> NumericParams<T::Real> {
    overridden(params, most(dense_sums(front, n, n - 1, n), n), n as u64)
}

/// The kernel in charge makes this of the dense front.
pub open spec fn dense_made<T: Scalar, K: FrontKernel<T>>(
    a: GeneralCsc<T>,
    scaling: Seq<T>,
    params: NumericParams<T::Real>,
    kernel: K,
    ff: FrontalFactors<T>,
) -> bool {
    let n = a.n as int;
    let front = dense_front(a, scaling);
    let p = dense_settled(params, front, n);
    &&& n > 0
    &&& n * n <= usize::MAX
    &&& ff.shaped(n, n)
    &&& ff.n_delayed == 0
    &&& if p.sqd_mode {
        DiagonalKernel.eliminates(front, n, n, false, p.bk, ff)
    } else {
        kernel.eliminates(front, n, n, false, p.bk, ff)
    }
}

/// Why the dense path fails: there is nothing to factor, the matrix has more
/// cells than can be counted, or the kernel gives up.
pub open spec fn dense_refused<T: Scalar, K: FrontKernel<T>>(
    a: GeneralCsc<T>,
    scaling: Seq<T>,
    params: NumericParams<T::Real>,
    kernel: K,
    e: RslabError,
) -> bool {
    let n = a.n as int;
    let front = dense_front(a, scaling);
    let p = dense_settled(params, front, n);
    if n == 0 || n * n > usize::MAX {
        e is InvalidInput
    } else if p.sqd_mode {
        DiagonalKernel.refuses(front, n, n, false, p.bk, e)
    } else {
        kernel.refuses(front, n, n, false, p.bk, e)
    }
}

/// The factors of the dense path: a single node with all rows, in their own
/// order.
pub open spec fn dense_wraps<T: Scalar>(
    n: int,
    scaling: Seq<T>,
    ff: FrontalFactors<T>,
    f: SparseFactors<T>,
    i: Inertia,
) -> bool {
    let node = f.node_factors@[0];
    &&& f.n == n
    &&& f.perm@ == counting(n)
    &&& f.perm_inv@ == counting(n)
    &&& f.scaling@ == scaling
    &&& f.needs_refinement == ff.needs_refinement
    &&& i == ff.inertia
    &&& f.node_factors@.len() == 1
    &&& node.first_col == 0
    &&& node.ncol == n
    &&& node.nelim == ff.nelim
    &&& node.n_delayed_in == 0
    &&& node.nrow == n
    &&& node.row_indices@ == counting(n)
    &&& node.frontal_factors == ff
    &&& node.inertia == ff.inertia
}

/// The outcome of the dense path.
pub open spec fn is_dense_factorization<T: Scalar, K: FrontKernel<T>>(
    a: GeneralCsc<T>,
    scaling: Seq<T>,
    params: NumericParams<T::Real>,
    kernel: K,
    f: SparseFactors<T>,
    i: Inertia,
) -> bool {
    &&& f.node_factors@.len() == 1
    &&& dense_made(a, scaling, params, kernel, f.node_factors@[0].frontal_factors)
    &&& dense_wraps(a.n as int, scaling, f.node_factors@[0].frontal_factors, f, i)
}

/// Factor a small symmetric matrix, given by its lower triangle, as one dense
/// front. The workspace is left alone: the kernel owns the front.
pub fn dense_fast_factor_with_workspace<T: Scalar, K: FrontKernel<T>>(
    matrix: &GeneralCsc<T>,
    scaling: &[T],
    params: &NumericParams<T::Real>,
    kernel: &K,
    ws: &mut FactorWorkspace,
) -> (r: Result<(SparseFactors<T>, Inertia), RslabError>)
    requires
        matrix.wf(),
        is_lower(*matrix),
        scaling@.len() == matrix.n,
    ensures
        *final(ws) == *old(ws),
        r matches Ok(x) ==> x.0.wf() && x.0.complete() && is_dense_factorization(
            *matrix,
            scaling@,
            *params,
            *kernel,
            x.0,
            x.1,
        ),
        r matches Err(e) ==> dense_refused(*matrix, scaling@, *params, *kernel, e),
{
    let n: usize = matrix.n;
    if n == 0 {
        return Err(RslabError::InvalidInput("dense factorization: matrix dimension is zero"));
    }
    let mut front = match densify(matrix) {
        Some(f) => f,
        None => {
            return Err(RslabError::InvalidInput("dense factorization: matrix too large"));
        },
    };
    scale_lower(&mut front, matrix, scaling);
    let norm = scaled_matrix_infnorm_dense(front.as_slice(), n);
    let p = match apply_post_scaling_overrides(params, norm, n) {
        Some(p) => p,
        None => *params,
    };
    let result = if p.sqd_mode {
        DiagonalKernel.factor_front(front, n, n, false, &p.bk)
    } else {
        kernel.factor_front(front, n, n, false, &p.bk)
    };
    let ff = match result {
        Ok(ff) => ff,
        Err(e) => {
            return Err(e);
        },
    };
    let inertia = ff.inertia;
    let refine = ff.needs_refinement;
    let node = NodeFactors {
        first_col: 0,
        ncol: n,
        nelim: ff.nelim,
        n_delayed_in: 0,
        nrow: n,
        row_indices: count_up(n),
        frontal_factors: ff,
        inertia,
    };
    let ghost made = node;
    let mut nodes: Vec<NodeFactors<T>> = Vec::new();
    nodes.push(node);
    let s = crate::flat::part_of(scaling, 0, scaling.len());
    let f = SparseFactors {
        n,
        perm: count_up(n),
        perm_inv: count_up(n),
        node_factors: nodes,
        needs_refinement: refine,
        scaling: s,
    };
    proof {
        assert(s@ =~= scaling@);
        let e = f.pivots();
        let nf = f.node_factors@;
        assert(eliminated(nf, 0) =~= Seq::<usize>::empty());
        assert(eliminated(nf, 1) == eliminated(nf, 0) + elim_of(nf[0]));
        assert(e =~= made.frontal_factors.perm@);
    }
    Ok((f, inertia))
}

/// As [`dense_fast_factor_with_workspace`], with a workspace of its own.
pub fn dense_fast_factor<T: Scalar, K: FrontKernel<T>>(
    matrix: &GeneralCsc<T>,
    scaling: &[T],
    params: &NumericParams<T::Real>,
    kernel: &K,
) -> (r: Result<(SparseFactors<T>, Inertia), RslabError>)
    requires
        matrix.wf(),
        is_lower(*matrix),
        scaling@.len() == matrix.n,
    ensures
        r matches Ok(x) ==> x.0.wf() && x.0.complete() && is_dense_factorization(
            *matrix,
            scaling@,
            *params,
            *kernel,
            x.0,
            x.1,
        ),
        r matches Err(e) ==> dense_refused(*matrix, scaling@, *params, *kernel, e),
{
    let mut ws = FactorWorkspace::new();
    dense_fast_factor_with_workspace(matrix, scaling, params, kernel, &mut ws)
}

} // verus!
