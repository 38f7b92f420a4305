//! Operators, preconditioners and how a panel of vectors goes through them.

use crate::counts::saturated;
use crate::error::RslabError;
use crate::flat::{column_bounds, column_start, part_of};
use crate::klu::solver::{rhs_expected, KluSolver};
use crate::matrix_ops::{product, zero_vector, zeros};
use crate::scalar::Scalar;
use crate::sparse::{column_range, GeneralCsc};
use vstd::prelude::*;

verus! {

/// Column `c` of a panel with `n` rows.
pub open spec fn panel_column<T>(x: Seq<T>, n: int, c: int) -> Seq<T> {
    x.subrange(column_start(n, c), column_start(n, c + 1))
}

/// Write a column into a panel.
pub fn put_column<T: Copy>(x: &mut Vec<T>, n: usize, c: usize, v: &[T], Ghost(s): Ghost<int>)
    requires
        old(x)@.len() == n * s,
        v@.len() == n,
        c < s,
    ensures
        final(x)@.len() == old(x)@.len(),
        panel_column(final(x)@, n as int, c as int) == v@,
        forall|d: int|
            0 <= d < s && d != c ==> #[trigger] panel_column(final(x)@, n as int, d)
                == panel_column(old(x)@, n as int, d),
{
    let ghost x0 = x@;
    proof {
        column_bounds(n as int, c as int, s);
    }
    let len: usize = x.len();
    let at: usize = n * c;
    let mut k: usize = 0;
    while k < n
        invariant
            k <= n,
            v@.len() == n,
            at == column_start(n as int, c as int),
            at + n <= x0.len(),
            len == x0.len(),
            x@.len() == x0.len(),
            forall|p: int|
                0 <= p < x0.len() ==> #[trigger] x@[p] == (if at <= p < at + k {
                    v@[p - at]
                } else {
                    x0[p]
                }),
        decreases n - k,
    {
        x.set(at + k, v[k]);
        k = k + 1;
    }
    proof {
        assert(panel_column(x@, n as int, c as int) =~= v@);
        assert forall|d: int| 0 <= d < s && d != c implies #[trigger] panel_column(x@, n as int, d)
            == panel_column(x0, n as int, d) by {
            column_bounds(n as int, d, s);
            if d < c {
                column_bounds(n as int, d, c as int);
            } else {
                column_bounds(n as int, c as int, d);
            }
            assert(panel_column(x@, n as int, d) =~= panel_column(x0, n as int, d));
        }
    }
}

/// A linear operator: an explicit matrix, or a matrix-free product.
pub trait LinearOperator<T: Scalar> {
    /// The operator can be applied.
    spec fn ready(&self) -> bool;

    spec fn dim_spec(&self) -> int;

    /// `A x`.
    spec fn image(&self, x: Seq<T>) -> Seq<T>;

    /// The system dimension.
    fn n(&self) -> (r: usize)
        requires
            self.ready(),
        ensures
            r == self.dim_spec(),
    ;

    /// Write `y = A x`.
    fn apply(&self, x: &[T], y: &mut Vec<T>)
        requires
            self.ready(),
            x@.len() == self.dim_spec(),
            old(y)@.len() == self.dim_spec(),
        ensures
            final(y)@ == self.image(x@),
            final(y)@.len() == self.dim_spec(),
    ;

    /// Write `Y = A X` for `s` columns.
    fn apply_block(&self, x: &[T], y: &mut Vec<T>, s: usize)
        requires
            self.ready(),
            x@.len() == self.dim_spec() * s,
            old(y)@.len() == self.dim_spec() * s,
        ensures
            final(y)@.len() == self.dim_spec() * s,
            forall|c: int|
                0 <= c < s ==> #[trigger] panel_column(final(y)@, self.dim_spec(), c) == self.image(
                    panel_column(x@, self.dim_spec(), c),
                ),
    {
        let n: usize = self.n();
        let len: usize = x.len();
        let mut c: usize = 0;
        let mut at: usize = 0;
        while c < s
            invariant
                c <= s,
                self.ready(),
                n == self.dim_spec(),
                x@.len() == n * s,
                len == x@.len(),
                y@.len() == n * s,
                at == column_start(n as int, c as int),
                forall|d: int|
                    0 <= d < c ==> #[trigger] panel_column(y@, n as int, d) == self.image(
                        panel_column(x@, n as int, d),
                    ),
            decreases s - c,
        {
            proof {
                column_bounds(n as int, c as int, s as int);
            }
            let part = part_of(x, at, at + n);
            let mut out = zero_vector::<T>(n);
            self.apply(part.as_slice(), &mut out);
            put_column(y, n, c, out.as_slice(), Ghost(s as int));
            at = at + n;
            c = c + 1;
        }
    }
}

impl<T: Scalar> LinearOperator<T> for GeneralCsc<T> {
    open spec fn ready(&self) -> bool {
        self.wf()
    }

    open spec fn dim_spec(&self) -> int {
        self.n as int
    }

    open spec fn image(&self, x: Seq<T>) -> Seq<T> {
        product(*self, x)
    }

    fn n(&self) -> (r: usize) {
        self.n
    }

    fn apply(&self, x: &[T], y: &mut Vec<T>) {
        self.matvec(x, y);
    }
}

/// A symmetric matrix by its lower triangle.
pub struct SymmetricCsc<T> {
    pub lower: GeneralCsc<T>,
}

/// The product with one stored entry added, on both sides of the diagonal.
pub open spec fn with_entry<T: Scalar>(y: Seq<T>, i: int, j: int, v: T, x: Seq<T>) -> Seq<T> {
    let z = y.update(i, y[i].plus_spec(v.times_spec(x[j])));
    if i != j {
        z.update(j, z[j].plus_spec(v.times_spec(x[i])))
    } else {
        z
    }
}

/// The product with the first `q` entries of column `j` added.
pub open spec fn with_entries<T: Scalar>(
    y: Seq<T>,
    rows: Seq<usize>,
    vals: Seq<T>,
    j: int,
    x: Seq<T>,
    q: int,
) -> Seq<T>
    decreases q,
{
    if q <= 0 {
        y
    } else {
        with_entry(with_entries(y, rows, vals, j, x, q - 1), rows[q - 1] as int, j, vals[q - 1], x)
    }
}

/// The symmetric product over the first `j` columns of the lower triangle.
pub open spec fn symmetric_upto<T: Scalar>(a: GeneralCsc<T>, x: Seq<T>, j: int) -> Seq<T>
    decreases j,
{
    if j <= 0 {
        zeros(a.n as int)
    } else {
        let rows = a.rows_of(j - 1);
        with_entries(
            symmetric_upto(a, x, j - 1),
            rows,
            a.vals_of(j - 1),
            j - 1,
            x,
            rows.len() as int,
        )
    }
}

impl<T: Scalar> SymmetricCsc<T> {
    /// `y = A x` with the triangle read once.
    pub fn symv(&self, x: &[T], y: &mut Vec<T>)
        requires
            self.lower.wf(),
            x@.len() == self.lower.n,
            old(y)@.len() == self.lower.n,
        ensures
            final(y)@ == symmetric_upto(self.lower, x@, self.lower.n as int),
            final(y)@.len() == self.lower.n,
    {
        let n: usize = self.lower.n;
        let mut i: usize = 0;
        while i < n
            invariant
                i <= n,
                y@.len() == n,
                forall|q: int| 0 <= q < i ==> #[trigger] y@[q] == T::zero_spec(),
            decreases n - i,
        {
            y.set(i, T::zero());
            i = i + 1;
        }
        assert(y@ =~= symmetric_upto(self.lower, x@, 0));
        let mut j: usize = 0;
        while j < n
            invariant
                j <= n,
                n == self.lower.n,
                self.lower.wf(),
                x@.len() == n,
                y@.len() == n,
                y@ == symmetric_upto(self.lower, x@, j as int),
            decreases n - j,
        {
            let ghost y0 = y@;
            let ghost rows = self.lower.rows_of(j as int);
            let ghost vals = self.lower.vals_of(j as int);
            proof {
                column_range(self.lower, j as int);
            }
            let lo: usize = self.lower.col_ptr[j];
            let hi: usize = self.lower.col_ptr[j + 1];
            let mut k: usize = lo;
            while k < hi
                invariant
                    lo <= k <= hi <= self.lower.row_idx@.len(),
                    self.lower.values@.len() == self.lower.row_idx@.len(),
                    j < n,
                    x@.len() == n,
                    y@.len() == n,
                    rows.len() == hi - lo,
                    forall|q: int| 0 <= q < rows.len() ==> #[trigger] rows[q] < n,
                    forall|q: int|
                        0 <= q < rows.len() ==> #[trigger] rows[q] == self.lower.row_idx@[lo + q],
                    forall|q: int|
                        0 <= q < rows.len() ==> #[trigger] vals[q] == self.lower.values@[lo + q],
                    y@ == with_entries(y0, rows, vals, j as int, x@, k - lo),
                decreases hi - k,
            {
                assert(rows[k - lo] < n);
                assert(vals[k - lo] == self.lower.values@[k as int]);
                let i: usize = self.lower.row_idx[k];
                let v: T = self.lower.values[k];
                let yi = y[i].plus(v.times(x[j]));
                y.set(i, yi);
                if i != j {
                    let yj = y[j].plus(v.times(x[i]));
                    y.set(j, yj);
                }
                k = k + 1;
            }
            j = j + 1;
        }
    }
}

impl<T: Scalar> LinearOperator<T> for SymmetricCsc<T> {
    open spec fn ready(&self) -> bool {
        self.lower.wf()
    }

    open spec fn dim_spec(&self) -> int {
        self.lower.n as int
    }

    open spec fn image(&self, x: Seq<T>) -> Seq<T> {
        symmetric_upto(self.lower, x, self.lower.n as int)
    }

    fn n(&self) -> (r: usize) {
        self.lower.n
    }

    fn apply(&self, x: &[T], y: &mut Vec<T>) {
        self.symv(x, y);
    }
}

/// A preconditioner `M`: applies `z = M^-1 r`. It may vary from call to call.
pub trait Preconditioner<T: Scalar> {
    /// The preconditioner can be applied.
    spec fn ready(&self) -> bool;

    /// An answer that may come back for `r`.
    spec fn gives(&self, r: Seq<T>, z: Result<Seq<T>, RslabError>) -> bool;

    /// Write `z = M^-1 r`.
    fn apply(&self, r: &[T], z: &mut Vec<T>) -> (res: Result<(), RslabError>)
        requires
            self.ready(),
            old(z)@.len() == r@.len(),
        ensures
            final(z)@.len() == r@.len(),
            res is Ok ==> self.gives(r@, Ok(final(z)@)),
            res matches Err(e) ==> self.gives(r@, Err(e)),
    ;

    /// Write `Z = M^-1 R` for `s` columns of length `n`.
    fn apply_block(&self, r: &[T], z: &mut Vec<T>, s: usize, n: usize) -> (res: Result<
        (),
        RslabError,
    >)
        requires
            self.ready(),
            s > 0,
            r@.len() == n * s,
            old(z)@.len() == n * s,
        ensures
            final(z)@.len() == n * s,
            res is Ok ==> forall|c: int|
                0 <= c < s ==> self.gives(
                    panel_column(r@, n as int, c),
                    Ok(#[trigger] panel_column(final(z)@, n as int, c)),
                ),
            res matches Err(e) ==> exists|c: int|
                0 <= c < s && self.gives(#[trigger] panel_column(r@, n as int, c), Err(e)),
    {
        let len: usize = r.len();
        let mut c: usize = 0;
        let mut at: usize = 0;
        while c < s
            invariant
                c <= s,
                self.ready(),
                r@.len() == n * s,
                len == r@.len(),
                z@.len() == n * s,
                at == column_start(n as int, c as int),
                forall|d: int|
                    0 <= d < c ==> self.gives(
                        panel_column(r@, n as int, d),
                        Ok(#[trigger] panel_column(z@, n as int, d)),
                    ),
            decreases s - c,
        {
            proof {
                column_bounds(n as int, c as int, s as int);
            }
            let part = part_of(r, at, at + n);
            assert(part@ == panel_column(r@, n as int, c as int));
            let mut out = zero_vector::<T>(n);
            match self.apply(part.as_slice(), &mut out) {
                Ok(()) => {},
                Err(e) => {
                    return Err(e);
                },
            }
            put_column(z, n, c, out.as_slice(), Ghost(s as int));
            at = at + n;
            c = c + 1;
        }
        Ok(())
    }
}

/// The identity: an unpreconditioned iteration.
#[derive(Debug, Clone, Copy)]
pub struct NoPreconditioner;

impl<T: Scalar> Preconditioner<T> for NoPreconditioner {
    open spec fn ready(&self) -> bool {
        true
    }

    open spec fn gives(&self, r: Seq<T>, z: Result<Seq<T>, RslabError>) -> bool {
        z == Ok::<Seq<T>, RslabError>(r)
    }

    fn apply(&self, r: &[T], z: &mut Vec<T>) -> (res: Result<(), RslabError>) {
        *z = part_of(r, 0, r.len());
        assert(z@ =~= r@);
        Ok(())
    }
}

/// What factors of order `n` say of `s` vectors of length `len` that they do not
/// fit: both lengths are those of the panel.
pub open spec fn misfit(n: usize, len: nat, s: usize) -> RslabError {
    RslabError::DimensionMismatch { expected: rhs_expected(n, s), got: (len * s) as usize }
}

/// A factored matrix is a preconditioner: one solve per vector, a panel in one
/// sweep. A vector that does not fit is refused, alone or within its panel.
impl<T: Scalar> Preconditioner<T> for KluSolver<T> {
    open spec fn ready(&self) -> bool {
        self.wf()
    }

    open spec fn gives(&self, r: Seq<T>, z: Result<Seq<T>, RslabError>) -> bool {
        if r.len() == self.factors.n {
            z == Ok::<Seq<T>, RslabError>(self.factors.solution(r))
        } else {
            exists|s: usize|
                s > 0 && z == Err::<Seq<T>, RslabError>(
                    #[trigger] misfit(self.factors.n, r.len(), s),
                )
        }
    }

    fn apply(&self, r: &[T], z: &mut Vec<T>) -> (res: Result<(), RslabError>)
        ensures
            res is Ok <==> r@.len() == self.factors.n,
            res matches Err(e) ==> e == misfit(self.factors.n, r@.len(), 1),
    {
        assert(r@.len() != self.factors.n ==> misfit(self.factors.n, r@.len(), 1) == (
        RslabError::DimensionMismatch { expected: self.factors.n, got: r@.len() as usize }));
        match self.solve(r) {
            Ok(x) => {
                *z = x;
                Ok(())
            },
            Err(e) => Err(e),
        }
    }

    fn apply_block(&self, r: &[T], z: &mut Vec<T>, s: usize, n: usize) -> (res: Result<
        (),
        RslabError,
    >)
        ensures
            res is Ok <==> n == self.factors.n,
            res matches Err(e) ==> e == misfit(self.factors.n, n as nat, s),
    {
        match self.solve_many(r, s) {
            Ok(x) => {
                proof {
                    assert(n == self.factors.n) by (nonlinear_arith)
                        requires
                            n * s == self.factors.n * s,
                            s > 0,
                    ;
                    assert forall|c: int| 0 <= c < s implies self.gives(
                        panel_column(r@, n as int, c),
                        Ok(#[trigger] panel_column(x@, n as int, c)),
                    ) by {
                        column_bounds(n as int, c, s as int);
                        let want = self.factors.solved_column(r@, c);
                        assert(want.len() == n);
                        assert(panel_column(x@, n as int, c) =~= want) by {
                            assert forall|i: int| 0 <= i < n implies #[trigger] panel_column(
                                x@,
                                n as int,
                                c,
                            )[i] == want[i] by {}
                        }
                    }
                }
                *z = x;
                Ok(())
            },
            Err(e) => {
                proof {
                    assert(n != self.factors.n);
                    column_bounds(n as int, 0, s as int);
                    assert(self.gives(panel_column(r@, n as int, 0), Err(e)));
                }
                Err(e)
            },
        }
    }
}

/// A factorization that serves as a direct solver and as a preconditioner.
pub trait Factorization<T: Scalar>: Preconditioner<T> {
    /// Stored entries of the factors.
    spec fn stored(&self) -> u64;

    /// Pivots that were moved away from zero.
    spec fn perturbed(&self) -> usize;

    /// Solve `A x = b` from the stored factors.
    fn solve(&self, b: &[T]) -> (r: Result<Vec<T>, RslabError>)
        requires
            self.ready(),
        ensures
            match r {
                Ok(x) => self.gives(b@, Ok(x@)),
                Err(e) => self.gives(b@, Err(e)),
            },
    ;

    /// Stored fill.
    fn factor_nnz(&self) -> (r: u64)
        requires
            self.ready(),
        ensures
            r == self.stored(),
    ;

    /// Number of perturbed pivots, zero for an exact factorization.
    fn n_perturbed(&self) -> (r: usize)
        requires
            self.ready(),
        ensures
            r == self.perturbed(),
    ;
}

impl<T: Scalar> Factorization<T> for KluSolver<T> {
    open spec fn stored(&self) -> u64 {
        saturated(self.factors.stored_entries())
    }

    open spec fn perturbed(&self) -> usize {
        0
    }

    fn solve(&self, b: &[T]) -> (r: Result<Vec<T>, RslabError>) {
        assert(b@.len() != self.factors.n ==> misfit(self.factors.n, b@.len(), 1) == (
        RslabError::DimensionMismatch { expected: self.factors.n, got: b@.len() as usize }));
        KluSolver::solve(self, b)
    }

    fn factor_nnz(&self) -> (r: u64) {
        KluSolver::factor_nnz(self)
    }

    fn n_perturbed(&self) -> (r: usize) {
        KluSolver::n_perturbed(self)
    }
}

} // verus!
