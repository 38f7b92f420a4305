//! Iterative refinement of a solve.

use crate::error::RslabError;
use crate::klu::factor::KluFactors;
use crate::klu::solver::KluSolver;
use crate::krylov::vectors::{add_vector, difference, minus_vector, plus_vector};
use crate::matrix_ops::{product, zero_vector};
use crate::multifrontal::stats::unbounded;
use crate::scalar::{Real, Scalar};
use crate::sparse::GeneralCsc;
use vstd::prelude::*;

verus! {

/// The largest magnitude among the first `k` entries.
pub open spec fn peak_upto<T: Scalar>(r: Seq<T>, k: int) -> T::Real
    decreases k,
{
    if k <= 0 {
        <T::Real as Real>::zero_spec()
    } else {
        peak_upto(r, k - 1).maximum_spec(r[k - 1].magnitude_spec())
    }
}

/// The max-norm of `b - A x`.
pub open spec fn miss<T: Scalar>(a: GeneralCsc<T>, b: Seq<T>, x: Seq<T>) -> T::Real {
    peak_upto(minus_vector(b, product(a, x)), b.len() as int)
}

fn peak<T: Scalar>(r: &Vec<T>) -> (p: T::Real)
    ensures
        p == peak_upto(r@, r@.len() as int),
{
    let mut p: T::Real = <T::Real as Real>::zero();
    let mut k: usize = 0;
    while k < r.len()
        invariant
            k <= r@.len(),
            p == peak_upto(r@, k as int),
        decreases r@.len() - k,
    {
        p = p.maximum(r[k].magnitude());
        k = k + 1;
    }
    p
}

/// Iterate `k` of the refinement: the plain solution, then one correction after
/// the other.
pub open spec fn refined_iterate<T: Scalar>(
    f: KluFactors<T>,
    a: GeneralCsc<T>,
    b: Seq<T>,
    k: int,
) -> Seq<T>
    decreases k,
{
    if k <= 0 {
        f.solution(b)
    } else {
        let x = refined_iterate(f, a, b, k - 1);
        plus_vector(x, f.solution(minus_vector(b, product(a, x))))
    }
}

/// The best of the first `k + 1` iterates, with what it misses by.
pub open spec fn best_upto<T: Scalar>(
    f: KluFactors<T>,
    a: GeneralCsc<T>,
    b: Seq<T>,
    k: int,
) -> (Seq<T>, T::Real)
    decreases k + 1,
{
    if k < 0 {
        (f.solution(b), unbounded())
    } else {
        let (x, res) = best_upto(f, a, b, k - 1);
        let y = refined_iterate(f, a, b, k);
        if res.gt_spec(miss(a, b, y)) {
            (y, miss(a, b, y))
        } else {
            (x, res)
        }
    }
}

/// The refinement ends at iterate `k`: it misses by nothing, or the limit is
/// reached.
pub open spec fn refinement_ends<T: Scalar>(
    f: KluFactors<T>,
    a: GeneralCsc<T>,
    b: Seq<T>,
    max_iter: int,
    k: int,
) -> bool {
    &&& 0 <= k <= max_iter
    &&& k == max_iter || miss(a, b, refined_iterate(f, a, b, k)).is_zero_spec()
    &&& forall|q: int|
        0 <= q < k ==> !miss(a, b, #[trigger] refined_iterate(f, a, b, q)).is_zero_spec()
}

/// The solution that a refinement returns.
pub open spec fn is_refined<T: Scalar>(
    f: KluFactors<T>,
    a: GeneralCsc<T>,
    b: Seq<T>,
    max_iter: int,
    x: Seq<T>,
) -> bool {
    exists|k: int| #[trigger]
        refinement_ends(f, a, b, max_iter, k) && x == best_upto(f, a, b, k).0
}

impl<T: Scalar> KluSolver<T> {
    /// Solve with iterative refinement against `a`, the matrix that was factored:
    /// up to `max_iter` corrections, keeping the iterate with the smallest
    /// residual.
    pub fn solve_refined(&self, a: &GeneralCsc<T>, b: &[T], max_iter: usize) -> (r: Result<
        Vec<T>,
        RslabError,
    >)
        requires
            self.wf(),
            a.wf(),
        ensures
            r is Ok <==> a.n == self.factors.n && b@.len() == self.factors.n,
            r matches Ok(x) ==> is_refined(self.factors, *a, b@, max_iter as int, x@),
            r matches Err(e) ==> e == (RslabError::DimensionMismatch {
                expected: self.factors.n,
                got: b@.len() as usize,
            }),
    {
        let n: usize = self.factors.n;
        if a.n != n || b.len() != n {
            return Err(RslabError::DimensionMismatch { expected: n, got: b.len() });
        }
        let ghost f = self.factors;
        let mut x = self.factors.solve_one(b);
        let mut best = self.factors.solve_one(b);
        let mut best_res: T::Real = <T::Real as Real>::one().over(<T::Real as Real>::zero());
        let mut ax = zero_vector::<T>(n);
        let mut it: usize = 0;
        loop
            invariant
                self.wf(),
                a.wf(),
                f == self.factors,
                n == f.n,
                a.n == n,
                b@.len() == n,
                x@.len() == n,
                ax@.len() == n,
                it <= max_iter,
                x@ == refined_iterate(f, *a, b@, it as int),
                (best@, best_res) == best_upto(f, *a, b@, it - 1),
                forall|q: int|
                    0 <= q < it ==> !miss(
                        *a,
                        b@,
                        #[trigger] refined_iterate(f, *a, b@, q),
                    ).is_zero_spec(),
            decreases max_iter - it,
        {
            a.matvec(x.as_slice(), &mut ax);
            let r = difference(b, ax.as_slice());
            let res = peak(&r);
            assert(res == miss(*a, b@, x@));
            if best_res.gt(res) {
                best_res = res;
                best = crate::flat::part_of(x.as_slice(), 0, n);
                assert(best@ =~= x@);
            }
            if res.is_zero() || it == max_iter {
                assert(refinement_ends(f, *a, b@, max_iter as int, it as int));
                return Ok(best);
            }
            let dx = self.factors.solve_one(r.as_slice());
            add_vector(&mut x, dx.as_slice());
            it = it + 1;
        }
    }
}

/// No iterate that was looked at misses by less than the one returned.
pub proof fn refinement_keeps_the_best<T: Scalar>(
    f: KluFactors<T>,
    a: GeneralCsc<T>,
    b: Seq<T>,
    k: int,
    q: int,
)
    requires
        0 <= q <= k,
    ensures
        !best_upto(f, a, b, k).1.gt_spec(miss(a, b, refined_iterate(f, a, b, q))),
    decreases k,
{
    let (x, res) = best_upto(f, a, b, k - 1);
    let now = miss(a, b, refined_iterate(f, a, b, k));
    let then = miss(a, b, refined_iterate(f, a, b, q));
    <T::Real as Real>::gt_irreflexive(now);
    if q < k {
        refinement_keeps_the_best(f, a, b, k - 1, q);
        if res.gt_spec(now) && now.gt_spec(then) {
            <T::Real as Real>::gt_transitive(res, now, then);
        }
    }
}

/// One of the iterates is the best of them.
proof fn best_is_an_iterate<T: Scalar>(
    f: KluFactors<T>,
    a: GeneralCsc<T>,
    b: Seq<T>,
    k: int,
) -> (q: int)
    requires
        0 <= k,
    ensures
        0 <= q <= k,
        best_upto(f, a, b, k).0 == refined_iterate(f, a, b, q),
    decreases k,
{
    if best_upto(f, a, b, k).0 == refined_iterate(f, a, b, k) {
        k
    } else if k == 0 {
        assert(best_upto(f, a, b, -1).0 == f.solution(b));
        0
    } else {
        best_is_an_iterate(f, a, b, k - 1)
    }
}

/// Refinement uses its budget: `k` corrections are made, all of `max_iter` unless
/// nothing is left of the residual, and what is returned is one of the iterates
/// up to there.
pub proof fn refinement_uses_its_budget<T: Scalar>(
    f: KluFactors<T>,
    a: GeneralCsc<T>,
    b: Seq<T>,
    max_iter: int,
    x: Seq<T>,
) -> (steps: (int, int))
    requires
        is_refined(f, a, b, max_iter, x),
    ensures
        ({
            let (k, q) = steps;
            &&& 0 <= q <= k <= max_iter
            &&& x == refined_iterate(f, a, b, q)
            &&& k < max_iter ==> peak_upto(
                minus_vector(b, product(a, refined_iterate(f, a, b, k))),
                b.len() as int,
            ).is_zero_spec()
        }),
{
    let k = choose|k: int| #[trigger]
        refinement_ends(f, a, b, max_iter, k) && x == best_upto(f, a, b, k).0;
    let q = best_is_an_iterate(f, a, b, k);
    (k, q)
}

} // verus!
