//! The solver handle: factor, solve, refactor, and read the factors.

use crate::counts::{product_of, saturated};
use crate::diagnostics::{Diagnostics, Stage};
use crate::error::RslabError;
use crate::flat::{column_bounds, column_start, part_of};
use crate::klu::analyze::{analyzes, arranged, too_large};
use crate::klu::factor::{
    factor_impl, factor_refused, factor_stopped, lacks_pivot, misfit, KluFactors,
};
use crate::klu::form::block_range;
use crate::klu::matching::has_transversal;
use crate::klu::ordering::DegreeOrder;
use crate::klu::refactor::{refactor_refused, refactor_stopped, same_frame};
use crate::klu::settings::{stays_raised, was_raised, KluSettings};
use crate::klu::symbolic::KluSymbolic;
use crate::scalar::{Real, Scalar};
use crate::seqs::is_permutation;
use crate::sparse::GeneralCsc;
use vstd::prelude::*;

verus! {

/// The length of a list of lists, up to list `k`.
pub open spec fn lengths<A>(lists: Seq<Vec<A>>, k: int) -> int
    decreases k,
{
    if k <= 0 {
        0
    } else {
        lengths(lists, k - 1) + lists[k - 1]@.len()
    }
}

/// The length of a list of lists.
fn count_lists<A>(lists: &Vec<Vec<A>>) -> (r: u64)
    ensures
        r == saturated(lengths(lists@, lists@.len() as int)),
        0 <= lengths(lists@, lists@.len() as int),
{
    let mut r: u64 = 0;
    let mut k: usize = 0;
    while k < lists.len()
        invariant
            k <= lists@.len(),
            0 <= lengths(lists@, k as int),
            r == saturated(lengths(lists@, k as int)),
        decreases lists@.len() - k,
    {
        r = r.saturating_add(lists[k].len() as u64);
        k = k + 1;
    }
    r
}

impl<T: Scalar> KluFactors<T> {
    /// The entries of `L` and `U` with the diagonal, in the first `k` blocks.
    pub open spec fn block_entries(&self, k: int) -> int
        decreases k,
    {
        if k <= 0 {
            0
        } else {
            let lu = self.blocks@[k - 1];
            self.block_entries(k - 1) + lengths(lu.l_rows@, lu.l_rows@.len() as int) + lengths(
                lu.u_rows@,
                lu.u_rows@.len() as int,
            ) + lu.d@.len()
        }
    }

    /// The entries above the blocks, in the first `k` columns.
    pub open spec fn off_entries(&self, k: int) -> int
        decreases k,
    {
        if k <= 0 {
            0
        } else {
            self.off_entries(k - 1) + self.off@[k - 1].rows@.len()
        }
    }

    /// All stored factor entries.
    pub open spec fn stored_entries(&self) -> int {
        self.block_entries(self.nb()) + self.off_entries(self.n as int)
    }

    /// Stored factor entries: `L`, `U`, diagonal and entries above the blocks.
    pub fn count_entries(&self) -> (r: u64)
        requires
            self.wf(),
        ensures
            r == saturated(self.stored_entries()),
    {
        let mut r: u64 = 0;
        let mut b: usize = 0;
        while b < self.blocks.len()
            invariant
                b <= self.blocks@.len(),
                0 <= self.block_entries(b as int),
                r == saturated(self.block_entries(b as int)),
            decreases self.blocks@.len() - b,
        {
            r = r.saturating_add(count_lists(&self.blocks[b].l_rows)).saturating_add(
                count_lists(&self.blocks[b].u_rows),
            ).saturating_add(self.blocks[b].d.len() as u64);
            b = b + 1;
        }
        let mut j: usize = 0;
        while j < self.n
            invariant
                j <= self.n,
                self.off@.len() == self.n,
                0 <= self.block_entries(self.nb()),
                0 <= self.off_entries(j as int),
                r == saturated(self.block_entries(self.nb()) + self.off_entries(j as int)),
            decreases self.n - j,
        {
            r = r.saturating_add(self.off[j].rows.len() as u64);
            j = j + 1;
        }
        r
    }
}

/// KLU solver handle: factor (or analyze and factor), then solve or refactor.
#[derive(Clone)]
pub struct KluSolver<T: Scalar> {
    pub factors: KluFactors<T>,
    pub diagnostics: Diagnostics,
}

/// Bytes of `nnz` factor entries with indices of 32 bits.
pub open spec fn entry_bytes<T>(nnz: u64) -> u64 {
    saturated(
        nnz * saturated(
            vstd::layout::size_of::<T>() as int + vstd::layout::size_of::<u32>() as int,
        ),
    )
}

fn bytes_of<T>(nnz: u64) -> (r: u64)
    ensures
        r == entry_bytes::<T>(nnz),
{
    let entry: u64 = (core::mem::size_of::<T>() as u64).saturating_add(
        core::mem::size_of::<u32>() as u64,
    );
    product_of(nnz, entry)
}

/// What the diagnostics of a fresh factorization say.
pub open spec fn factor_reported<T: Scalar>(
    sym: KluSymbolic,
    a: GeneralCsc<T>,
    btf: bool,
    s: KluSolver<T>,
) -> bool {
    let d = s.diagnostics;
    &&& d.threads == 1
    &&& d.n == a.n
    &&& d.nnz_a == saturated(a.row_idx@.len() as int)
    &&& d.factor_nnz == saturated(s.factors.stored_entries())
    &&& d.estimate == (match sym.fill {
        Some(_) => Some(
            sym.estimate(
                vstd::layout::size_of::<T>() as int,
                vstd::layout::size_of::<usize>() as int,
            ),
        ),
        None => None,
    })
    &&& d.btf_blocks == (if btf {
        sym.block_ptr@.len() - 1
    } else {
        0
    })
    &&& d.stages@ == seq![
        Stage {
            name: "klu-factor",
            flops: d.flops_spec(),
            bytes: entry_bytes::<T>(d.factor_nnz),
        },
    ]
}

/// What a refactorization does to the diagnostics: one more stage, and nothing
/// else.
pub open spec fn refactor_reported<T>(before: Diagnostics, after: Diagnostics) -> bool {
    after.records(
        before,
        Stage {
            name: "klu-refactor",
            flops: before.flops_spec(),
            bytes: entry_bytes::<T>(before.factor_nnz),
        },
    )
}

impl KluSymbolic {
    /// Numeric factorization of `a`, which must share the analyzed pattern. The
    /// estimate goes into the diagnostics where
    /// [`KluSymbolic::estimate_memory`] computed it.
    pub fn factor<T: Scalar>(&self, a: &GeneralCsc<T>, settings: &KluSettings<T::Real>) -> (r: Result<
        KluSolver<T>,
        RslabError,
    >)
        requires
            self.wf(),
        ensures
            r matches Ok(s) ==> s.factors.factors(*self, *a, *settings) && !misfit(*self, *a)
                && !lacks_pivot(*self, *a, *settings)
                && a.row_idx@.len() == self.nnz,
            r matches Ok(s) ==> factor_reported(*self, *a, settings.btf, s),
            r matches Err(e) ==> factor_refused(*self, *a, *settings, e),
            factor_stopped(*self, *a, *settings) ==> r is Err && r->Err_0 == RslabError::Interrupted,
    {
        match factor_impl(self, a, settings) {
            Ok(f) => Ok(self.solver_of(a, settings.btf, f)),
            Err(e) => Err(e),
        }
    }

    /// The solver handle of a factorization under this analysis, with its
    /// diagnostics.
    pub fn solver_of<T: Scalar>(
        &self,
        a: &GeneralCsc<T>,
        btf: bool,
        factors: KluFactors<T>,
    ) -> (s: KluSolver<T>)
        requires
            self.wf(),
            factors.wf(),
        ensures
            s.factors == factors,
            factor_reported(*self, *a, btf, s),
    {
        let known = self.fill;
        let estimate = match known {
            Some(fill) => Some(self.estimate_of::<T>(fill)),
            None => None,
        };
        let nnz: u64 = factors.count_entries();
        let mut diagnostics = Diagnostics {
            threads: 1,
            n: a.n,
            nnz_a: a.row_idx.len() as u64,
            factor_nnz: nnz,
            estimate,
            btf_blocks: if btf {
                self.n_blocks()
            } else {
                0
            },
            stages: Vec::new(),
        };
        let flops: u64 = diagnostics.flops();
        diagnostics.push("klu-factor", flops, bytes_of::<T>(nnz));
        assert(diagnostics.stages@ =~= seq![
            Stage { name: "klu-factor", flops, bytes: entry_bytes::<T>(nnz) },
        ]);
        KluSolver { factors, diagnostics }
    }
}

impl<T: Scalar> KluFactors<T> {
    /// The solution for column `c` of a block of right-hand sides.
    pub open spec fn solved_column(&self, b: Seq<T>, c: int) -> Seq<T> {
        self.solution(
            b.subrange(column_start(self.n as int, c), column_start(self.n as int, c + 1)),
        )
    }

    /// The columns of `x` are the solutions for those of `b`.
    pub open spec fn solves_columns(&self, b: Seq<T>, nrhs: int, x: Seq<T>) -> bool {
        &&& x.len() == b.len()
        &&& forall|c: int, i: int|
            0 <= c < nrhs && 0 <= i < self.n ==> x[column_start(self.n as int, c) + i]
                == #[trigger] self.solved_column(b, c)[i]
    }
}

/// How many entries `nrhs` right-hand sides should have, at least one of them,
/// as far as that can be said.
pub open spec fn rhs_expected(n: usize, nrhs: usize) -> usize {
    (if nrhs == 0 {
        n as int
    } else if n * nrhs <= usize::MAX {
        n * nrhs
    } else {
        usize::MAX as int
    }) as usize
}

/// The shape of a block of right-hand sides: `Ok` iff there is at least one and
/// the length is right.
pub fn check_rhs(n: usize, len: usize, nrhs: usize) -> (r: Result<(), RslabError>)
    ensures
        r is Ok <==> nrhs > 0 && len == n * nrhs,
        r matches Err(e) ==> e == (RslabError::DimensionMismatch {
            expected: rhs_expected(n, nrhs),
            got: len,
        }),
{
    if nrhs == 0 {
        return Err(RslabError::DimensionMismatch { expected: n, got: len });
    }
    match n.checked_mul(nrhs) {
        Some(total) => {
            if len != total {
                Err(RslabError::DimensionMismatch { expected: total, got: len })
            } else {
                Ok(())
            }
        },
        None => Err(RslabError::DimensionMismatch { expected: usize::MAX, got: len }),
    }
}

/// The outcome of a one-shot factorization: some analysis of the matrix leads to
/// the factors, or to the vanishing pivot; the other errors come from the input.
pub open spec fn factor_outcome<T: Scalar>(
    a: GeneralCsc<T>,
    settings: KluSettings<T::Real>,
    r: Result<KluSolver<T>, RslabError>,
) -> bool {
    match r {
        Ok(s) => exists|sym: KluSymbolic| #[trigger]
            analyzes(sym, a, settings) && arranged(sym, a, settings, DegreeOrder)
                && s.factors.factors(sym, a, settings) && sym.fill is None && factor_reported(
                sym,
                a,
                settings.btf,
                s,
            ),
        Err(e) => match e {
            RslabError::InvalidInput(_) => !a.wf() || too_large(a),
            RslabError::StructurallySingular => a.wf() && !too_large(a) && settings.btf
                && !has_transversal(a),
            RslabError::SingularBasis { column } => exists|sym: KluSymbolic| #[trigger]
                analyzes(sym, a, settings) && arranged(sym, a, settings, DegreeOrder)
                    && factor_refused(sym, a, settings, e),
            RslabError::Interrupted => a.wf() && !too_large(a) && was_raised(settings.interrupt),
            _ => false,
        },
    }
}

impl<T: Scalar> KluSolver<T> {
    /// The factors are complete.
    pub open spec fn wf(&self) -> bool {
        self.factors.wf()
    }

    /// One-shot analysis and factorization, without an estimate.
    pub fn factor(a: &GeneralCsc<T>, settings: &KluSettings<T::Real>) -> (r: Result<Self, RslabError>)
        ensures
            factor_outcome(*a, *settings, r),
            stays_raised(settings.interrupt) && a.wf() && !too_large(*a) && a.n > 0 && (settings.btf
                ==> has_transversal(*a)) ==> r is Err && r->Err_0 == RslabError::Interrupted,
    {
        match KluSymbolic::analyze(a, settings) {
            Ok(sym) => {
                proof {
                    analyzed_fits(sym, *a, *settings);
                }
                sym.factor(a, settings)
            },
            Err(e) => Err(e),
        }
    }

    /// Everything that this factorization can tell about itself.
    pub fn diagnostics(&self) -> (r: &Diagnostics)
        ensures
            *r == self.diagnostics,
    {
        &self.diagnostics
    }

    /// Pivots lifted by a static regularization: always zero, a vanishing pivot
    /// is an error instead.
    pub fn n_perturbed(&self) -> (r: usize)
        ensures
            r == 0,
    {
        0
    }

    /// Matrix dimension.
    pub fn n(&self) -> (r: usize)
        ensures
            r == self.factors.n,
    {
        self.factors.n
    }

    /// Number of diagonal blocks.
    pub fn n_blocks(&self) -> (r: usize)
        requires
            self.wf(),
        ensures
            r == self.factors.block_ptr@.len() - 1,
    {
        self.factors.block_ptr.len() - 1
    }

    /// Stored factor entries: `L`, `U`, diagonal and entries above the blocks.
    pub fn factor_nnz(&self) -> (r: u64)
        requires
            self.wf(),
        ensures
            r == saturated(self.factors.stored_entries()),
    {
        self.factors.count_entries()
    }

    /// The unit lower factor `L`, diagonal included. With the row scaling
    /// `R = diag(row_scale)` and the permutations `P_r` (row `k` is row
    /// `row_perm[k]`) and `P_c` (column `k` is column `col_perm[k]`),
    /// `P_r R A P_c = L U + F`, with `L` and `U` block diagonal over the blocks
    /// and `F` the entries above them.
    pub fn l_matrix(&self) -> (a: GeneralCsc<T>)
        requires
            self.wf(),
        ensures
            a.wf(),
            a.n == self.factors.n,
            forall|j: int|
                0 <= j < self.factors.n ==> #[trigger] a.col(j) == self.factors.lower_column(j),
    {
        self.factors.l_matrix()
    }

    /// The upper factor `U`, pivots on the diagonal.
    pub fn u_matrix(&self) -> (a: GeneralCsc<T>)
        requires
            self.wf(),
        ensures
            a.wf(),
            a.n == self.factors.n,
            forall|j: int|
                0 <= j < self.factors.n ==> #[trigger] a.col(j) == self.factors.upper_column(j),
    {
        self.factors.u_matrix()
    }

    /// The entries `F` above the diagonal blocks.
    pub fn f_matrix(&self) -> (a: GeneralCsc<T>)
        requires
            self.wf(),
        ensures
            a.wf(),
            a.n == self.factors.n,
            forall|j: int|
                0 <= j < self.factors.n ==> #[trigger] a.col(j) == self.factors.above_column(j),
    {
        self.factors.f_matrix()
    }

    /// The row permutation: row `k` of the factored matrix is this row of `A`.
    pub fn row_perm(&self) -> (r: Vec<usize>)
        requires
            self.wf(),
        ensures
            is_permutation(r@, self.factors.n as int),
            forall|k: int|
                0 <= k < self.factors.n ==> #[trigger] r@[k] == self.factors.final_row(k),
    {
        self.factors.row_perm()
    }

    /// The column permutation: column `k` of the factored matrix is this column
    /// of `A`.
    pub fn col_perm(&self) -> (r: &Vec<usize>)
        ensures
            r@ == self.factors.col_perm@,
    {
        &self.factors.col_perm
    }

    /// Boundaries of the diagonal blocks.
    pub fn block_ptr(&self) -> (r: &Vec<usize>)
        ensures
            r@ == self.factors.block_ptr@,
    {
        &self.factors.block_ptr
    }

    /// The row scaling: row `i` of `A` is multiplied by entry `i` before the
    /// factorization (all ones without scaling).
    pub fn row_scale(&self) -> (r: &Vec<T::Real>)
        ensures
            r@ == self.factors.rs_inv@,
    {
        &self.factors.rs_inv
    }

    /// Solve `A x = b`.
    pub fn solve(&self, b: &[T]) -> (r: Result<Vec<T>, RslabError>)
        requires
            self.wf(),
        ensures
            r is Ok <==> b@.len() == self.factors.n,
            r matches Ok(x) ==> x@ == self.factors.solution(b@),
            r matches Err(e) ==> e == (RslabError::DimensionMismatch {
                expected: self.factors.n,
                got: b@.len() as usize,
            }),
    {
        if b.len() != self.factors.n {
            return Err(RslabError::DimensionMismatch { expected: self.factors.n, got: b.len() });
        }
        Ok(self.factors.solve_one(b))
    }

    /// Solve `A^T x = b` on the same factors (the plain transpose; for the
    /// adjoint conjugate `b` before and `x` after).
    pub fn solve_transpose(&self, b: &[T]) -> (r: Result<Vec<T>, RslabError>)
        requires
            self.wf(),
        ensures
            r is Ok <==> b@.len() == self.factors.n,
            r matches Ok(x) ==> x@ == self.factors.transposed_solution(b@),
            r matches Err(e) ==> e == (RslabError::DimensionMismatch {
                expected: self.factors.n,
                got: b@.len() as usize,
            }),
    {
        if b.len() != self.factors.n {
            return Err(RslabError::DimensionMismatch { expected: self.factors.n, got: b.len() });
        }
        Ok(self.factors.solve_transpose_one(b))
    }

    /// Solve `A X = B` for a column-major `n` by `nrhs` block (`b[c * n + i]` is
    /// row `i` of column `c`); every column is solved as [`KluSolver::solve`] does.
    pub fn solve_many(&self, b: &[T], nrhs: usize) -> (r: Result<Vec<T>, RslabError>)
        requires
            self.wf(),
        ensures
            r is Ok <==> nrhs > 0 && b@.len() == self.factors.n * nrhs,
            r matches Ok(x) ==> self.factors.solves_columns(b@, nrhs as int, x@),
            r matches Err(e) ==> e == (RslabError::DimensionMismatch {
                expected: rhs_expected(self.factors.n, nrhs),
                got: b@.len() as usize,
            }),
    {
        let n: usize = self.factors.n;
        let len: usize = b.len();
        match check_rhs(n, len, nrhs) {
            Err(e) => {
                return Err(e);
            },
            Ok(()) => {},
        }
        let mut x: Vec<T> = Vec::new();
        let mut c: usize = 0;
        let mut at: usize = 0;
        while c < nrhs
            invariant
                c <= nrhs,
                n == self.factors.n,
                self.wf(),
                b@.len() == n * nrhs,
                len == b@.len(),
                at == column_start(n as int, c as int),
                x@.len() == at,
                forall|c2: int, i: int|
                    0 <= c2 < c && 0 <= i < n ==> x@[column_start(n as int, c2) + i]
                        == #[trigger] self.factors.solved_column(b@, c2)[i],
            decreases nrhs - c,
        {
            proof {
                column_bounds(n as int, c as int, nrhs as int);
            }
            let part = part_of(b, at, at + n);
            let ghost x0 = x@;
            let mut xc = self.factors.solve_one(part.as_slice());
            let ghost xs = xc@;
            x.append(&mut xc);
            at = at + n;
            c = c + 1;
            proof {
                assert(x@ == x0 + xs);
                assert forall|c2: int, i: int| 0 <= c2 < c && 0 <= i < n implies x@[column_start(n as int, c2) + i]
                    == #[trigger] self.factors.solved_column(b@, c2)[i] by {
                    column_bounds(n as int, c2, nrhs as int);
                    if c2 < c - 1 {
                        column_bounds(n as int, c2, c - 1);
                    }
                }
            }
        }
        proof {
            assert(column_start(n as int, nrhs as int) == n * nrhs);
        }
        Ok(x)
    }

    /// Numeric-only refactorization: replay the stored pattern and pivot
    /// sequence on new values with the same pattern. A changed pattern is an
    /// error, and so is a frozen pivot that became zero
    /// ([`RslabError::SingularBasis`]: factor again with pivoting).
    pub fn refactor(&mut self, a: &GeneralCsc<T>) -> (r: Result<(), RslabError>)
        requires
            old(self).wf(),
        ensures
            final(self).wf(),
            same_frame(final(self).factors, old(self).factors),
            r is Ok ==> a.wf() && old(self).factors.fits(*a) && final(self).factors.fits(*a)
                && final(self).factors.holds(*a),
            r is Ok ==> forall|b: int|
                0 <= b < final(self).factors.blocks@.len() ==> #[trigger] final(self).factors.block_usable(b),
            r is Ok ==> refactor_reported::<T>(old(self).diagnostics, final(self).diagnostics),
            r matches Err(e) ==> refactor_refused(old(self).factors, *a, final(self).factors, e)
                && final(self).diagnostics == old(self).diagnostics,
            refactor_stopped(old(self).factors, *a) ==> r == Err::<(), RslabError>(
                RslabError::Interrupted,
            ),
    {
        match self.factors.refactor(a) {
            Ok(()) => {
                self.record_refactor();
                Ok(())
            },
            Err(e) => Err(e),
        }
    }

    /// Enter a refactorization into the diagnostics.
    pub fn record_refactor(&mut self)
        ensures
            final(self).factors == old(self).factors,
            refactor_reported::<T>(old(self).diagnostics, final(self).diagnostics),
    {
        let flops: u64 = self.diagnostics.flops();
        let bytes: u64 = bytes_of::<T>(self.diagnostics.factor_nnz);
        self.diagnostics.push("klu-refactor", flops, bytes);
    }
}

/// A matrix fits its own analysis.
pub proof fn analyzed_fits<T, R>(sym: KluSymbolic, a: GeneralCsc<T>, settings: KluSettings<R>)
    requires
        a.wf(),
        analyzes(sym, a, settings),
    ensures
        !misfit(sym, a),
{
    if misfit(sym, a) {
        let (b, j) = choose|b: int, j: int| #[trigger]
            crate::klu::form::in_block(sym.block_ptr@, b, j) && crate::klu::gather::reaches_below(
                a,
                sym.pinv_pre@,
                sym.col_perm@[j] as int,
                sym.block_ptr@[b + 1] as int,
            );
        block_range(sym.n as int, sym.block_ptr@, b);
        let c = sym.col_perm@[j] as int;
        let q = choose|q: int|
            0 <= q < a.rows_of(c).len() && sym.pinv_pre@[#[trigger] a.rows_of(c)[q] as int]
                >= sym.block_ptr@[b + 1];
        assert(sym.pattern(j).len() == a.rows_of(c).len());
        assert(sym.pattern(j)[q] == sym.pinv_pre@[a.rows_of(c)[q] as int]);
        assert(crate::seqs::below(sym.pattern(j), sym.block_ptr@[b + 1] as int));
    }
}

} // verus!
