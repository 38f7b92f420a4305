//! A preconditioner that is factored and applied in a narrower scalar than the
//! iteration around it.

use crate::counts::saturated;
use crate::error::RslabError;
use crate::flat::part_of;
use crate::klu::settings::KluSettings;
use crate::klu::solver::{factor_outcome, KluSolver};
use crate::krylov::operator::Preconditioner;
use crate::scalar::Scalar;
use crate::sparse::GeneralCsc;
use vstd::prelude::*;

verus! {

/// Scalars that can be rounded to `L` and read back from it.
pub trait Rounds<L: Scalar>: Scalar {
    spec fn rounded(self) -> L;

    spec fn widened(low: L) -> Self;

    /// The nearest narrow value.
    fn round(self) -> (r: L)
        ensures
            r == self.rounded(),
    ;

    /// A narrow value as it is.
    fn widen(low: L) -> (r: Self)
        ensures
            r == Self::widened(low),
    ;
}

/// Nothing is lost in the scalar itself.
impl<T: Scalar> Rounds<T> for T {
    open spec fn rounded(self) -> T {
        self
    }

    open spec fn widened(low: T) -> T {
        low
    }

    fn round(self) -> (r: T) {
        self
    }

    fn widen(low: T) -> (r: T) {
        low
    }
}

/// Every entry rounded.
pub open spec fn rounded_all<L: Scalar, T: Rounds<L>>(x: Seq<T>) -> Seq<L> {
    Seq::new(x.len(), |i: int| x[i].rounded())
}

/// Every entry read back.
pub open spec fn widened_all<L: Scalar, T: Rounds<L>>(x: Seq<L>) -> Seq<T> {
    Seq::new(x.len(), |i: int| T::widened(x[i]))
}

fn round_all<L: Scalar, T: Rounds<L>>(x: &[T]) -> (r: Vec<L>)
    ensures
        r@ == rounded_all::<L, T>(x@),
{
    let mut r: Vec<L> = Vec::new();
    let mut k: usize = 0;
    while k < x.len()
        invariant
            k <= x@.len(),
            r@.len() == k,
            forall|i: int| 0 <= i < k ==> #[trigger] r@[i] == x@[i].rounded(),
        decreases x@.len() - k,
    {
        r.push(x[k].round());
        k = k + 1;
    }
    assert(r@ =~= rounded_all::<L, T>(x@));
    r
}

fn widen_all<L: Scalar, T: Rounds<L>>(x: &[L]) -> (r: Vec<T>)
    ensures
        r@ == widened_all::<L, T>(x@),
{
    let mut r: Vec<T> = Vec::new();
    let mut k: usize = 0;
    while k < x.len()
        invariant
            k <= x@.len(),
            r@.len() == k,
            forall|i: int| 0 <= i < k ==> #[trigger] r@[i] == T::widened(x@[i]),
        decreases x@.len() - k,
    {
        r.push(T::widen(x[k]));
        k = k + 1;
    }
    assert(r@ =~= widened_all::<L, T>(x@));
    r
}

/// `m` is `a` with every value rounded.
pub open spec fn is_rounded<L: Scalar, T: Rounds<L>>(m: GeneralCsc<L>, a: GeneralCsc<T>) -> bool {
    &&& m.n == a.n
    &&& m.col_ptr@ == a.col_ptr@
    &&& m.row_idx@ == a.row_idx@
    &&& m.values@ == rounded_all::<L, T>(a.values@)
}

/// A general matrix factored in the narrow scalar `L`: half the memory, as a
/// preconditioner of an iteration that keeps its own accuracy.
pub struct LowPrecisionLu<L: Scalar> {
    pub inner: KluSolver<L>,
}

impl<L: Scalar> LowPrecisionLu<L> {
    pub open spec fn wf(&self) -> bool {
        self.inner.wf()
    }

    /// Round the matrix and factor it.
    pub fn factor<T: Rounds<L>>(a: &GeneralCsc<T>, settings: &KluSettings<L::Real>) -> (r: Result<
        Self,
        RslabError,
    >)
        ensures
            exists|m: GeneralCsc<L>| #[trigger]
                is_rounded(m, *a) && factor_outcome(
                    m,
                    *settings,
                    (match r {
                        Ok(p) => Ok(p.inner),
                        Err(e) => Err(e),
                    }),
                ),
    {
        let col_ptr = part_of(a.col_ptr.as_slice(), 0, a.col_ptr.len());
        let row_idx = part_of(a.row_idx.as_slice(), 0, a.row_idx.len());
        let values = round_all::<L, T>(a.values.as_slice());
        assert(col_ptr@ =~= a.col_ptr@);
        assert(row_idx@ =~= a.row_idx@);
        let m = GeneralCsc { n: a.n, col_ptr, row_idx, values };
        assert(is_rounded(m, *a));
        match KluSolver::factor(&m, settings) {
            Ok(inner) => Ok(LowPrecisionLu { inner }),
            Err(e) => Err(e),
        }
    }

    /// Stored fill, in narrow entries.
    pub fn factor_nnz(&self) -> (r: u64)
        requires
            self.wf(),
        ensures
            r == saturated(self.inner.factors.stored_entries()),
    {
        self.inner.factor_nnz()
    }

    /// Number of perturbed pivots: none.
    pub fn n_perturbed(&self) -> (r: usize)
        ensures
            r == 0,
    {
        self.inner.n_perturbed()
    }
}

impl<L: Scalar, T: Rounds<L>> Preconditioner<T> for LowPrecisionLu<L> {
    open spec fn ready(&self) -> bool {
        self.wf()
    }

    open spec fn gives(&self, r: Seq<T>, z: Result<Seq<T>, RslabError>) -> bool {
        if r.len() == self.inner.factors.n {
            z == Ok::<Seq<T>, RslabError>(
                widened_all::<L, T>(self.inner.factors.solution(rounded_all::<L, T>(r))),
            )
        } else {
            z == Err::<Seq<T>, RslabError>(
                RslabError::DimensionMismatch {
                    expected: self.inner.factors.n,
                    got: r.len() as usize,
                },
            )
        }
    }

    fn apply(&self, r: &[T], z: &mut Vec<T>) -> (res: Result<(), RslabError>) {
        let low = round_all::<L, T>(r);
        match self.inner.solve(low.as_slice()) {
            Ok(x) => {
                *z = widen_all::<L, T>(x.as_slice());
                Ok(())
            },
            Err(e) => Err(e),
        }
    }
}

} // verus!
