//! The dense factorization of one front.

use crate::algebra::sum;
use crate::error::RslabError;
use crate::flat::{column_bounds, column_start, position_splits};
use crate::scalar::{Real, Scalar};
use crate::seqs::{count_up, is_permutation};
use vstd::prelude::*;

verus! {

/// How many eliminated pivots are positive, negative and zero.
#[derive(Debug, Clone, Copy, PartialEq, Eq, Structural)]
pub struct Inertia {
    pub positive: usize,
    pub negative: usize,
    pub zero: usize,
}

impl Inertia {
    pub fn new(positive: usize, negative: usize, zero: usize) -> (r: Self)
        ensures
            r == (Inertia { positive, negative, zero }),
    {
        Inertia { positive, negative, zero }
    }

    /// All pivots.
    pub open spec fn count(&self) -> int {
        self.positive + self.negative + self.zero
    }
}

/// What becomes of a pivot that is too small.
#[derive(Debug, Clone, Copy)]
pub enum ZeroPivotAction<R> {
    /// The factorization is abandoned.
    Fail,
    /// The pivot is used as it is and counted as zero.
    ForceAccept,
    /// The pivot is moved away from zero, to this magnitude at least.
    PerturbToEps { abs_floor: R },
}

/// Settings of the pivot search in a front.
#[derive(Debug, Clone, Copy)]
pub struct BunchKaufmanParams<R> {
    pub pivot_threshold: R,
    pub on_zero_pivot: ZeroPivotAction<R>,
    pub zero_tol: R,
    pub zero_tol_2x2: R,
    pub null_pivot_tol: R,
    pub null_pivot_tol_2x2: R,
    pub static_pivot_floor: R,
    pub intrafront_parallel: bool,
}

/// The partial factorization of a front: with the rows in the order `perm`, the
/// front is `L D L^T` on the eliminated columns, plus the contribution on the
/// rest.
#[derive(Clone)]
pub struct FrontalFactors<T: Scalar> {
    pub nrow: usize,
    /// Columns that were to be eliminated.
    pub ncol: usize,
    /// Columns that were.
    pub nelim: usize,
    /// Columns of `L`, `nrow` entries each; the unit diagonal and what is above
    /// it are not read.
    pub l: Vec<T>,
    /// Diagonal of `D`.
    pub d_diag: Vec<T>,
    /// Entry below the diagonal of `D`; nonzero at the head of a 2 by 2 pivot.
    pub d_subdiag: Vec<T>,
    pub perm: Vec<usize>,
    pub perm_inv: Vec<usize>,
    /// The rest, `contrib_dim` squared, the lower triangle by columns.
    pub trailing: Vec<T>,
    pub contrib_dim: usize,
    /// Columns left for the parent.
    pub n_delayed: usize,
    pub inertia: Inertia,
    pub needs_refinement: bool,
    pub n_rook_rescues: usize,
    /// Pivots moved away from zero.
    pub n_tiny: usize,
    pub zero_tol: T::Real,
    pub zero_tol_2x2: T::Real,
}

/// Where entry `(i, j)` of a symmetric matrix is stored.
pub open spec fn cell(m: int, i: int, j: int) -> int {
    if i >= j {
        column_start(m, j) + i
    } else {
        column_start(m, i) + j
    }
}

/// The cells of an `m` by `m` matrix are inside it.
pub proof fn cell_inside(m: int, i: int, j: int)
    requires
        0 <= i < m,
        0 <= j < m,
    ensures
        0 <= cell(m, i, j) < m * m,
{
    column_bounds(m, i, m);
    column_bounds(m, j, m);
}

/// Cells of the lower triangle are apart.
pub proof fn cell_unique(m: int, i: int, j: int, i2: int, j2: int)
    requires
        0 <= j <= i < m,
        0 <= j2 <= i2 < m,
        cell(m, i, j) == cell(m, i2, j2),
    ensures
        i == i2,
        j == j2,
{
    position_splits(m, i, j);
    position_splits(m, i2, j2);
}

impl<T: Scalar> FrontalFactors<T> {
    /// The parts have the sizes of a front of `nrow` rows and `ncol` fully
    /// summed columns; only those columns are reordered.
    pub open spec fn shaped(&self, nrow: int, ncol: int) -> bool {
        &&& self.nrow == nrow
        &&& self.ncol == ncol
        &&& self.nelim + self.n_delayed == ncol
        &&& ncol <= nrow
        &&& self.l@.len() == nrow * self.nelim
        &&& self.d_diag@.len() == self.nelim
        &&& self.d_subdiag@.len() == self.nelim
        &&& is_permutation(self.perm@, nrow)
        &&& forall|k: int| ncol <= k < nrow ==> #[trigger] self.perm@[k] == k
        &&& self.contrib_dim == nrow - self.nelim
        &&& self.trailing@.len() == self.contrib_dim * self.contrib_dim
        &&& self.inertia.count() == self.nelim
    }

    /// Entry of `L` in row `i` and column `e`, rows in pivot order.
    pub open spec fn l_at(&self, i: int, e: int) -> T {
        if i == e {
            T::one_spec()
        } else if i > e {
            self.l@[column_start(self.nrow as int, e) + i]
        } else {
            T::zero_spec()
        }
    }

    /// Entry of `D`.
    pub open spec fn d_at(&self, e: int, f: int) -> T {
        if e == f {
            self.d_diag@[e]
        } else if f == e + 1 {
            self.d_subdiag@[e]
        } else if e == f + 1 {
            self.d_subdiag@[f]
        } else {
            T::zero_spec()
        }
    }

    /// Entry `(i, j)` of `L D L^T`, rows in pivot order.
    pub open spec fn product_at(&self, i: int, j: int) -> T {
        sum(
            self.nelim as nat,
            |e: int|
                sum(
                    self.nelim as nat,
                    |f: int|
                        self.l_at(i, e).times_spec(self.d_at(e, f)).times_spec(self.l_at(j, f)),
                ),
        )
    }

    /// Entry `(i, j)` of the contribution, rows in pivot order; zero on the
    /// eliminated ones.
    pub open spec fn rest_at(&self, i: int, j: int) -> T {
        if i >= self.nelim && j >= self.nelim {
            self.trailing@[cell(self.contrib_dim as int, i - self.nelim, j - self.nelim)]
        } else {
            T::zero_spec()
        }
    }

    /// The front is the product plus the contribution.
    pub open spec fn splits(&self, front: Seq<T>) -> bool {
        forall|i: int, j: int|
            #![trigger self.product_at(i, j)]
            0 <= j <= i < self.nrow ==> front[cell(
                self.nrow as int,
                self.perm@[i] as int,
                self.perm@[j] as int,
            )] == self.product_at(i, j).plus_spec(self.rest_at(i, j))
    }
}

/// A dense factorization of fronts.
pub trait FrontKernel<T: Scalar> {
    /// What the kernel makes of a front.
    spec fn eliminates(
        &self,
        front: Seq<T>,
        nrow: int,
        ncol: int,
        may_delay: bool,
        bk: BunchKaufmanParams<T::Real>,
        ff: FrontalFactors<T>,
    ) -> bool;

    /// Why the kernel gives up on a front.
    spec fn refuses(
        &self,
        front: Seq<T>,
        nrow: int,
        ncol: int,
        may_delay: bool,
        bk: BunchKaufmanParams<T::Real>,
        e: RslabError,
    ) -> bool;

    /// Eliminate the first `ncol` columns of a front of `nrow` rows, given by
    /// the lower triangle, column by column. Only with `may_delay` are columns
    /// left over.
    fn factor_front(
        &self,
        front: Vec<T>,
        nrow: usize,
        ncol: usize,
        may_delay: bool,
        bk: &BunchKaufmanParams<T::Real>,
    ) -> (r: Result<FrontalFactors<T>, RslabError>)
        requires
            front@.len() == nrow * nrow,
            ncol <= nrow,
        ensures
            r matches Ok(ff) ==> ff.shaped(nrow as int, ncol as int) && (!may_delay ==> ff.n_delayed
                == 0) && self.eliminates(
                front@,
                nrow as int,
                ncol as int,
                may_delay,
                *bk,
                ff,
            ),
            r matches Err(e) ==> self.refuses(
                front@,
                nrow as int,
                ncol as int,
                may_delay,
                *bk,
                e,
            ),
    ;
}

/// The kernel for quasi-definite matrices: every pivot is the next diagonal
/// entry.
#[derive(Debug, Clone, Copy)]
pub struct DiagonalKernel;

/// Entry `(i, j)` of the front after `k` eliminations.
pub open spec fn after<T: Scalar>(front: Seq<T>, m: int, k: int, i: int, j: int) -> T
    decreases k,
{
    if k <= 0 {
        front[cell(m, i, j)]
    } else {
        after(front, m, k - 1, i, j).minus_spec(
            after(front, m, k - 1, i, k - 1).over_spec(
                after(front, m, k - 1, k - 1, k - 1),
            ).times_spec(after(front, m, k - 1, j, k - 1)),
        )
    }
}

/// Pivot `k`.
pub open spec fn diagonal_pivot<T: Scalar>(front: Seq<T>, m: int, k: int) -> T {
    after(front, m, k, k, k)
}

/// The pivot can be divided by.
pub open spec fn usable<T: Scalar>(d: T) -> bool {
    !d.is_zero_spec() && d.is_finite_spec()
}

/// The sign of a pivot: 1, -1, or 0.
pub open spec fn sign_of<T: Scalar>(d: T) -> int {
    if d.real_part_spec().gt_spec(<T::Real as Real>::zero_spec()) {
        1
    } else if <T::Real as Real>::zero_spec().gt_spec(d.real_part_spec()) {
        -1
    } else {
        0
    }
}

/// How many of the first `k` pivots have this sign.
pub open spec fn sign_count<T: Scalar>(front: Seq<T>, m: int, sign: int, k: int) -> int
    decreases k,
{
    if k <= 0 {
        0
    } else {
        sign_count(front, m, sign, k - 1) + (if sign_of(diagonal_pivot(front, m, k - 1)) == sign {
            1int
        } else {
            0int
        })
    }
}

/// The columns of `L` and the diagonal of `D` for the first `k` pivots.
pub open spec fn diagonal_columns<T: Scalar>(
    front: Seq<T>,
    m: int,
    l: Seq<T>,
    d: Seq<T>,
    k: int,
) -> bool {
    &&& forall|e: int| 0 <= e < k ==> #[trigger] d[e] == diagonal_pivot(front, m, e)
    &&& forall|e: int| 0 <= e < k ==> usable(#[trigger] d[e])
    &&& forall|e: int, i: int|
        #![trigger after(front, m, e, i, e)]
        0 <= e < k && e < i < m ==> l[column_start(m, e) + i] == after(front, m, e, i, e).over_spec(
            diagonal_pivot(front, m, e),
        )
}

/// What the diagonal kernel makes of a front.
pub open spec fn diagonally_eliminated<T: Scalar>(
    front: Seq<T>,
    m: int,
    ncol: int,
    ff: FrontalFactors<T>,
) -> bool {
    &&& ff.nelim == ncol
    &&& diagonal_columns(front, m, ff.l@, ff.d_diag@, ncol)
    &&& forall|e: int| 0 <= e < ncol ==> #[trigger] ff.d_subdiag@[e] == T::zero_spec()
    &&& forall|k: int| 0 <= k < m ==> #[trigger] ff.perm@[k] == k
    &&& ff.perm_inv@ == ff.perm@
    &&& forall|i: int, j: int|
        #![trigger after(front, m, ncol, ncol + i, ncol + j)]
        0 <= j <= i < m - ncol ==> ff.trailing@[cell(m - ncol, i, j)] == after(
            front,
            m,
            ncol,
            ncol + i,
            ncol + j,
        )
    &&& ff.inertia.positive == sign_count(front, m, 1, ncol)
    &&& ff.inertia.negative == sign_count(front, m, -1, ncol)
    &&& ff.inertia.zero == sign_count(front, m, 0, ncol)
    &&& !ff.needs_refinement
    &&& ff.n_rook_rescues == 0
    &&& ff.n_tiny == 0
}

/// The first unusable pivot is among the first `ncol`.
pub open spec fn diagonal_breaks<T: Scalar>(front: Seq<T>, m: int, ncol: int) -> bool {
    exists|k: int|
        0 <= k < ncol && !usable(#[trigger] diagonal_pivot(front, m, k)) && forall|e: int|
            0 <= e < k ==> usable(#[trigger] diagonal_pivot(front, m, e))
}

/// One elimination step on the lower triangle.
fn eliminate_step<T: Scalar>(
    f: &mut Vec<T>,
    m: usize,
    k: usize,
    l: &mut Vec<T>,
    Ghost(front): Ghost<Seq<T>>,
)
    requires
        k < m,
        old(f)@.len() == m * m,
        front.len() == m * m,
        old(l)@.len() == column_start(m as int, k as int),
        usable(diagonal_pivot(front, m as int, k as int)),
        forall|i: int, j: int|
            #![trigger after(front, m as int, k as int, i, j)]
            k <= j <= i < m ==> old(f)@[cell(m as int, i, j)] == after(
                front,
                m as int,
                k as int,
                i,
                j,
            ),
    ensures
        final(f)@.len() == m * m,
        forall|i: int, j: int|
            #![trigger after(front, m as int, k + 1, i, j)]
            k < j <= i < m ==> final(f)@[cell(m as int, i, j)] == after(
                front,
                m as int,
                k + 1,
                i,
                j,
            ),
        final(l)@.len() == column_start(m as int, k + 1),
        forall|p: int|
            0 <= p < column_start(m as int, k as int) ==> #[trigger] final(l)@[p] == old(l)@[p],
        forall|i: int|
            #![trigger after(front, m as int, k as int, i, k as int)]
            k < i < m ==> final(l)@[column_start(m as int, k as int) + i] == after(
                front,
                m as int,
                k as int,
                i,
                k as int,
            ).over_spec(diagonal_pivot(front, m as int, k as int)),
{
    let ghost mm = m as int;
    let ghost kk = k as int;
    let ghost l0 = l@;
    let ghost f0 = f@;
    let size: usize = f.len();
    proof {
        column_bounds(mm, kk, mm);
        assert(after(front, mm, kk, kk, kk) == f0[cell(mm, kk, kk)]);
    }
    let base: usize = m * k;
    let d = f[base + k];
    let mut i: usize = 0;
    while i < m
        invariant
            i <= m,
            k < m,
            mm == m,
            kk == k,
            base == column_start(mm, kk),
            size == f@.len(),
            base + m <= size,
            d == diagonal_pivot(front, mm, kk),
            f@ == f0,
            forall|i2: int, j2: int|
                #![trigger after(front, mm, kk, i2, j2)]
                kk <= j2 <= i2 < mm ==> f0[cell(mm, i2, j2)] == after(front, mm, kk, i2, j2),
            l0.len() == base,
            l@.len() == base + i,
            forall|p: int| 0 <= p < base ==> #[trigger] l@[p] == l0[p],
            forall|q: int|
                #![trigger after(front, mm, kk, q, kk)]
                kk < q < i ==> l@[base + q] == after(front, mm, kk, q, kk).over_spec(d),
        decreases m - i,
    {
        let ghost lb = l@;
        if i > k {
            assert(f0[cell(mm, i as int, kk)] == after(front, mm, kk, i as int, kk));
            l.push(f[base + i].over(d));
        } else if i == k {
            l.push(T::one());
        } else {
            l.push(T::zero());
        }
        proof {
            assert forall|q: int|
                #![trigger after(front, mm, kk, q, kk)]
                kk < q < i + 1 implies l@[base + q] == after(front, mm, kk, q, kk).over_spec(d) by {
                if q < i {
                    assert(l@[base + q] == lb[base + q]);
                }
            }
        }
        i = i + 1;
    }
    let mut j: usize = k + 1;
    while j < m
        invariant
            k < j <= m,
            mm == m,
            kk == k,
            size == f@.len(),
            size == mm * mm,
            base == column_start(mm, kk),
            base + m <= size,
            l@.len() == base + m,
            d == diagonal_pivot(front, mm, kk),
            forall|q: int|
                #![trigger after(front, mm, kk, q, kk)]
                kk < q < mm ==> l@[base + q] == after(front, mm, kk, q, kk).over_spec(d),
            forall|i2: int, j2: int|
                #![trigger after(front, mm, kk, i2, j2)]
                kk <= j2 <= i2 < mm && (j2 >= j || j2 == kk) ==> f@[cell(mm, i2, j2)] == after(
                    front,
                    mm,
                    kk,
                    i2,
                    j2,
                ),
            forall|i2: int, j2: int|
                #![trigger after(front, mm, kk + 1, i2, j2)]
                kk < j2 < j && j2 <= i2 < mm ==> f@[cell(mm, i2, j2)] == after(
                    front,
                    mm,
                    kk + 1,
                    i2,
                    j2,
                ),
        decreases m - j,
    {
        proof {
            column_bounds(mm, j as int, mm);
            assert(after(front, mm, kk, j as int, kk) == f@[cell(mm, j as int, kk)]);
        }
        let cj: usize = m * j;
        let w = f[base + j];
        let mut i: usize = j;
        while i < m
            invariant
                k < j <= i <= m,
                j < m,
                mm == m,
                kk == k,
                size == f@.len(),
                size == mm * mm,
                base == column_start(mm, kk),
                base + m <= size,
                cj == column_start(mm, j as int),
                cj + m <= size,
                l@.len() == base + m,
                d == diagonal_pivot(front, mm, kk),
                w == after(front, mm, kk, j as int, kk),
                forall|q: int|
                    #![trigger after(front, mm, kk, q, kk)]
                    kk < q < mm ==> l@[base + q] == after(front, mm, kk, q, kk).over_spec(d),
                forall|i2: int, j2: int|
                    #![trigger after(front, mm, kk, i2, j2)]
                    kk <= j2 <= i2 < mm && (j2 > j || j2 == kk || (j2 == j && i2 >= i))
                        ==> f@[cell(mm, i2, j2)] == after(front, mm, kk, i2, j2),
                forall|i2: int, j2: int|
                    #![trigger after(front, mm, kk + 1, i2, j2)]
                    kk < j2 <= j && j2 <= i2 < mm && (j2 < j || i2 < i) ==> f@[cell(mm, i2, j2)]
                        == after(front, mm, kk + 1, i2, j2),
            decreases m - i,
        {
            let ghost fb = f@;
            proof {
                assert(after(front, mm, kk, i as int, j as int) == f@[cell(mm, i as int, j as int)]);
                assert(l@[base + i] == after(front, mm, kk, i as int, kk).over_spec(d));
            }
            let v = f[cj + i].minus(l[base + i].times(w));
            f.set(cj + i, v);
            proof {
                assert(v == after(front, mm, kk + 1, i as int, j as int));
                assert forall|i2: int, j2: int|
                    #![trigger after(front, mm, kk, i2, j2)]
                    kk <= j2 <= i2 < mm && (j2 > j || j2 == kk || (j2 == j && i2 >= i + 1)) implies f@[cell(
                    mm,
                    i2,
                    j2,
                )] == after(front, mm, kk, i2, j2) by {
                    cell_inside(mm, i2, j2);
                    if cell(mm, i2, j2) == cj + i {
                        cell_unique(mm, i2, j2, i as int, j as int);
                    }
                    assert(f@[cell(mm, i2, j2)] == fb[cell(mm, i2, j2)]);
                }
                assert forall|i2: int, j2: int|
                    #![trigger after(front, mm, kk + 1, i2, j2)]
                    kk < j2 <= j && j2 <= i2 < mm && (j2 < j || i2 < i + 1) implies f@[cell(
                    mm,
                    i2,
                    j2,
                )] == after(front, mm, kk + 1, i2, j2) by {
                    cell_inside(mm, i2, j2);
                    if cell(mm, i2, j2) == cj + i {
                        cell_unique(mm, i2, j2, i as int, j as int);
                    } else {
                        assert(f@[cell(mm, i2, j2)] == fb[cell(mm, i2, j2)]);
                    }
                }
            }
            i = i + 1;
        }
        j = j + 1;
    }
}

/// The lower triangle from row and column `k` on, as a matrix of its own.
fn trailing_block<T: Scalar>(f: &Vec<T>, m: usize, k: usize) -> (r: Vec<T>)
    requires
        k <= m,
        f@.len() == m * m,
    ensures
        r@.len() == (m - k) * (m - k),
        forall|i: int, j: int|
            #![trigger cell(m - k, i, j)]
            0 <= j <= i < m - k ==> r@[cell(m - k, i, j)] == f@[cell(m as int, k + i, k + j)],
{
    let size: usize = f.len();
    let c: usize = m - k;
    let ghost cc = c as int;
    let mut r: Vec<T> = Vec::new();
    proof {
        assert(cc * 0 == 0);
    }
    let mut j: usize = 0;
    while j < c
        invariant
            j <= c,
            c == m - k,
            cc == c,
            k <= m,
            size == f@.len(),
            size == m * m,
            r@.len() == column_start(cc, j as int),
            forall|i2: int, j2: int|
                #![trigger cell(cc, i2, j2)]
                0 <= j2 < j && j2 <= i2 < cc ==> r@[cell(cc, i2, j2)] == f@[cell(
                    m as int,
                    k + i2,
                    k + j2,
                )],
        decreases c - j,
    {
        proof {
            column_bounds(m as int, k + j, m as int);
            column_bounds(cc, j as int, cc);
        }
        let from: usize = m * (k + j) + k;
        let ghost r0 = r@;
        let mut i: usize = 0;
        while i < c
            invariant
                i <= c,
                j < c,
                c == m - k,
                cc == c,
                size == f@.len(),
                from == column_start(m as int, k + j) + k,
                from + c <= size,
                r0.len() == column_start(cc, j as int),
                r@.len() == r0.len() + i,
                forall|p: int| 0 <= p < r0.len() ==> #[trigger] r@[p] == r0[p],
                forall|i2: int|
                    j <= i2 < i ==> #[trigger] r@[r0.len() + i2] == f@[cell(
                        m as int,
                        k + i2,
                        k + j,
                    )],
            decreases c - i,
        {
            r.push(f[from + i]);
            i = i + 1;
        }
        proof {
            assert forall|i2: int, j2: int|
                #![trigger cell(cc, i2, j2)]
                0 <= j2 < j + 1 && j2 <= i2 < cc implies r@[cell(cc, i2, j2)] == f@[cell(
                m as int,
                k + i2,
                k + j2,
            )] by {
                if j2 < j {
                    column_bounds(cc, j2, j as int);
                    assert(r@[cell(cc, i2, j2)] == r0[cell(cc, i2, j2)]);
                } else {
                    assert(r@[r0.len() + i2] == f@[cell(m as int, k + i2, k + j)]);
                }
            }
        }
        j = j + 1;
    }
    r
}

impl<T: Scalar> FrontKernel<T> for DiagonalKernel {
    open spec fn eliminates(
        &self,
        front: Seq<T>,
        nrow: int,
        ncol: int,
        may_delay: bool,
        bk: BunchKaufmanParams<T::Real>,
        ff: FrontalFactors<T>,
    ) -> bool {
        &&& diagonally_eliminated(front, nrow, ncol, ff)
        &&& ff.zero_tol == bk.zero_tol
        &&& ff.zero_tol_2x2 == bk.zero_tol_2x2
    }

    open spec fn refuses(
        &self,
        front: Seq<T>,
        nrow: int,
        ncol: int,
        may_delay: bool,
        bk: BunchKaufmanParams<T::Real>,
        e: RslabError,
    ) -> bool {
        e == RslabError::SqdContractViolated && diagonal_breaks(front, nrow, ncol)
    }

    fn factor_front(
        &self,
        front: Vec<T>,
        nrow: usize,
        ncol: usize,
        may_delay: bool,
        bk: &BunchKaufmanParams<T::Real>,
    ) -> (r: Result<FrontalFactors<T>, RslabError>) {
        let ghost f0 = front@;
        let ghost m = nrow as int;
        let size: usize = front.len();
        let mut f = front;
        let mut l: Vec<T> = Vec::new();
        let mut d_diag: Vec<T> = Vec::new();
        let mut d_subdiag: Vec<T> = Vec::new();
        let mut positive: usize = 0;
        let mut negative: usize = 0;
        let mut zero: usize = 0;
        proof {
            assert(m * 0 == 0);
        }
        let mut k: usize = 0;
        while k < ncol
            invariant
                k <= ncol <= nrow,
                m == nrow,
                size == m * m,
                f0 == front@,
                f0.len() == size,
                f@.len() == size,
                forall|i: int, j: int|
                    #![trigger after(f0, m, k as int, i, j)]
                    k <= j <= i < m ==> f@[cell(m, i, j)] == after(f0, m, k as int, i, j),
                l@.len() == column_start(m, k as int),
                d_diag@.len() == k,
                d_subdiag@.len() == k,
                diagonal_columns(f0, m, l@, d_diag@, k as int),
                forall|e: int| 0 <= e < k ==> #[trigger] d_subdiag@[e] == T::zero_spec(),
                positive == sign_count(f0, m, 1, k as int),
                negative == sign_count(f0, m, -1, k as int),
                zero == sign_count(f0, m, 0, k as int),
                positive + negative + zero == k,
            decreases ncol - k,
        {
            proof {
                column_bounds(m, k as int, m);
                assert(after(f0, m, k as int, k as int, k as int) == f@[cell(
                    m,
                    k as int,
                    k as int,
                )]);
            }
            let d = f[nrow * k + k];
            assert(d == diagonal_pivot(f0, m, k as int));
            if d.is_zero() || !d.is_finite() {
                proof {
                    assert forall|e: int| 0 <= e < k implies usable(
                        #[trigger] diagonal_pivot(f0, m, e),
                    ) by {
                        assert(d_diag@[e] == diagonal_pivot(f0, m, e));
                    }
                    assert(!usable(diagonal_pivot(f0, m, k as int)));
                }
                return Err(RslabError::SqdContractViolated);
            }
            let ghost l0 = l@;
            let ghost dd0 = d_diag@;
            eliminate_step(&mut f, nrow, k, &mut l, Ghost(f0));
            d_diag.push(d);
            d_subdiag.push(T::zero());
            let re = d.real_part();
            if re.gt(<T::Real as Real>::zero()) {
                positive = positive + 1;
            } else if <T::Real as Real>::zero().gt(re) {
                negative = negative + 1;
            } else {
                zero = zero + 1;
            }
            proof {
                assert forall|e: int, i: int|
                    #![trigger after(f0, m, e, i, e)]
                    0 <= e < k + 1 && e < i < m implies l@[column_start(m, e) + i] == after(
                    f0,
                    m,
                    e,
                    i,
                    e,
                ).over_spec(diagonal_pivot(f0, m, e)) by {
                    if e < k {
                        column_bounds(m, e, k as int);
                        assert(l@[column_start(m, e) + i] == l0[column_start(m, e) + i]);
                    }
                }
                assert forall|e: int| 0 <= e < k + 1 implies #[trigger] d_diag@[e]
                    == diagonal_pivot(f0, m, e) && usable(d_diag@[e]) by {
                    if e < k {
                        assert(d_diag@[e] == dd0[e]);
                    }
                }
            }
            k = k + 1;
        }
        let trailing = trailing_block(&f, nrow, ncol);
        let ff = FrontalFactors {
            nrow,
            ncol,
            nelim: ncol,
            l,
            d_diag,
            d_subdiag,
            perm: count_up(nrow),
            perm_inv: count_up(nrow),
            trailing,
            contrib_dim: nrow - ncol,
            n_delayed: 0,
            inertia: Inertia::new(positive, negative, zero),
            needs_refinement: false,
            n_rook_rescues: 0,
            n_tiny: 0,
            zero_tol: bk.zero_tol,
            zero_tol_2x2: bk.zero_tol_2x2,
        };
        proof {
            assert forall|i: int, j: int|
                #![trigger after(f0, m, ncol as int, ncol + i, ncol + j)]
                0 <= j <= i < m - ncol implies ff.trailing@[cell(m - ncol, i, j)] == after(
                f0,
                m,
                ncol as int,
                ncol + i,
                ncol + j,
            ) by {
                assert(ff.trailing@[cell(m - ncol, i, j)] == f@[cell(m, ncol + i, ncol + j)]);
            }
        }
        Ok(ff)
    }
}

} // verus!
