//! One-norm condition estimation.
//!
//! The estimator is the power iteration of Hager and Higham on the unit 1-ball:
//! each step is one solve with the matrix and one with its conjugate transpose,
//! at most five steps, and one refinement with a right-hand side of alternating
//! signs. Every probe has one-norm one, so what the iteration returns never
//! exceeds the norm of the inverse by more than rounding.

use crate::error::RslabError;
use crate::klu::solver::KluSolver;
use crate::matrix_ops::{magnitude_sum, one_norm_upto, zero_vector, zeros};
use crate::scalar::{Real, Scalar};
use crate::seqs::copied;
use crate::sparse::GeneralCsc;
use vstd::prelude::*;

verus! {

/// The two solves that one step of the iteration needs.
pub trait ConditionOperator<T: Scalar> {
    /// The operator is ready to be applied.
    spec fn ready(&self) -> bool;

    spec fn dim_spec(&self) -> int;

    /// What [`ConditionOperator::apply_inverse`] makes of a vector.
    spec fn inverse(&self, rhs: Seq<T>) -> Result<Seq<T>, RslabError>;

    /// What [`ConditionOperator::apply_inverse_adjoint`] makes of a vector.
    spec fn inverse_adjoint(&self, rhs: Seq<T>) -> Result<Seq<T>, RslabError>;

    fn dim(&self) -> (r: usize)
        requires
            self.ready(),
        ensures
            r == self.dim_spec(),
    ;

    /// Replace `rhs` by the solution of `A x = rhs`.
    fn apply_inverse(&self, rhs: &mut Vec<T>) -> (r: Result<(), RslabError>)
        requires
            self.ready(),
            old(rhs)@.len() == self.dim_spec(),
        ensures
            match self.inverse(old(rhs)@) {
                Ok(x) => r is Ok && final(rhs)@ == x && x.len() == self.dim_spec(),
                Err(e) => r == Err::<(), RslabError>(e),
            },
    ;

    /// Replace `rhs` by the solution of `A^H x = rhs`, with the conjugate
    /// transpose of `A`.
    fn apply_inverse_adjoint(&self, rhs: &mut Vec<T>) -> (r: Result<(), RslabError>)
        requires
            self.ready(),
            old(rhs)@.len() == self.dim_spec(),
        ensures
            match self.inverse_adjoint(old(rhs)@) {
                Ok(x) => r is Ok && final(rhs)@ == x && x.len() == self.dim_spec(),
                Err(e) => r == Err::<(), RslabError>(e),
            },
    ;
}

/// The iteration cap; the estimate mostly settles after two or three steps.
pub const HAGER_MAX_ITER: usize = 5;

/// The sum of the magnitudes.
pub open spec fn vector_norm<T: Scalar>(v: Seq<T>) -> T::Real {
    magnitude_sum(v, v.len() as int)
}

/// The first probe: every entry `1 / n`.
pub open spec fn uniform<T: Scalar>(n: int) -> Seq<T> {
    Seq::new(
        n as nat,
        |i: int|
            T::from_real_spec(
                <T::Real as Real>::one_spec().over_spec(
                    <T::Real as Real>::from_count_spec(n as u64),
                ),
            ),
    )
}

/// The unit vector `j`.
pub open spec fn unit<T: Scalar>(n: int, j: int) -> Seq<T> {
    zeros::<T>(n).update(j, T::one_spec())
}

/// The entry divided by its magnitude, one at zero.
pub open spec fn phase<T: Scalar>(v: T) -> T {
    if v.magnitude_spec().is_zero_spec() {
        T::one_spec()
    } else {
        v.times_spec(
            T::from_real_spec(<T::Real as Real>::one_spec().over_spec(v.magnitude_spec())),
        )
    }
}

/// The phase of every entry.
pub open spec fn phases<T: Scalar>(y: Seq<T>) -> Seq<T> {
    Seq::new(y.len(), |i: int| phase(y[i]))
}

/// The real part of the inner product of the first `k` entries.
pub open spec fn real_product<T: Scalar>(z: Seq<T>, x: Seq<T>, k: int) -> T::Real
    decreases k,
{
    if k <= 0 {
        <T::Real as Real>::zero_spec()
    } else {
        real_product(z, x, k - 1).plus_spec(
            z[k - 1].conj_spec().times_spec(x[k - 1]).real_part_spec(),
        )
    }
}

/// Minus one.
pub open spec fn minus_one<R: Real>() -> R {
    R::zero_spec().minus_spec(R::one_spec())
}

/// The first entry of largest magnitude among the first `k`, and that magnitude.
pub open spec fn peak<T: Scalar>(z: Seq<T>, k: int) -> (int, T::Real)
    decreases k,
{
    if k <= 0 {
        (0, minus_one())
    } else {
        let before = peak(z, k - 1);
        let m = z[k - 1].magnitude_spec();
        if m.gt_spec(before.1) {
            (k - 1, m)
        } else {
            before
        }
    }
}

/// The power iteration from the probe `x` on, at step `iter`, with the estimate
/// so far and the unit vector that was tried last.
pub open spec fn power_iteration<T: Scalar, O: ConditionOperator<T>>(
    op: O,
    x: Seq<T>,
    est: T::Real,
    last: Option<int>,
    iter: int,
) -> Result<T::Real, RslabError>
    decreases HAGER_MAX_ITER - iter,
{
    if iter >= HAGER_MAX_ITER {
        Ok(est)
    } else {
        match op.inverse(x) {
            Err(e) => Err(e),
            Ok(y) => {
                let e = vector_norm(y);
                if iter > 0 && est.ge_spec(e) {
                    Ok(est)
                } else {
                    match op.inverse_adjoint(phases(y)) {
                        Err(f) => Err(f),
                        Ok(z) => {
                            let n = op.dim_spec();
                            let (j, m) = peak(z, n);
                            if real_product(z, x, n).ge_spec(m) || last == Some(j) {
                                Ok(e)
                            } else {
                                power_iteration(op, unit::<T>(n, j), e, Some(j), iter + 1)
                            }
                        },
                    }
                }
            },
        }
    }
}

/// Entry `i` of the refinement's right-hand side: alternating signs, magnitudes
/// from one to two.
pub open spec fn alternating_entry<T: Scalar>(n: int, i: int) -> T {
    let denom: int = (if n >= 2 {
        n
    } else {
        2
    }) - 1;
    let sign: T::Real = if i % 2 == 0 {
        <T::Real as Real>::one_spec()
    } else {
        minus_one()
    };
    T::from_real_spec(
        sign.times_spec(
            <T::Real as Real>::one_spec().plus_spec(
                <T::Real as Real>::from_count_spec(i as u64).over_spec(
                    <T::Real as Real>::from_count_spec(denom as u64),
                ),
            ),
        ),
    )
}

/// The refinement's right-hand side.
pub open spec fn alternating<T: Scalar>(n: int) -> Seq<T> {
    Seq::new(n as nat, |i: int| alternating_entry::<T>(n, i))
}

/// `2 s / 3 n`.
pub open spec fn refined<R: Real>(n: int, s: R) -> R {
    R::from_count_spec(2).times_spec(s).over_spec(
        R::from_count_spec(3).times_spec(R::from_count_spec(n as u64)),
    )
}

/// The estimate of the one-norm of the inverse.
pub open spec fn estimate<T: Scalar, O: ConditionOperator<T>>(op: O) -> Result<
    T::Real,
    RslabError,
> {
    let n = op.dim_spec();
    if n == 0 {
        Ok(<T::Real as Real>::zero_spec())
    } else {
        match power_iteration(
            op,
            uniform::<T>(n),
            <T::Real as Real>::zero_spec(),
            None::<int>,
            0,
        ) {
            Err(e) => Err(e),
            Ok(est) => match op.inverse(alternating::<T>(n)) {
                Err(e) => Err(e),
                Ok(y) => Ok(est.maximum_spec(refined(n, vector_norm(y)))),
            },
        }
    }
}

/// The sum of the magnitudes.
fn vector_norm_of<T: Scalar>(v: &Vec<T>) -> (r: T::Real)
    ensures
        r == vector_norm(v@),
{
    let mut s: T::Real = <T::Real as Real>::zero();
    let mut k: usize = 0;
    while k < v.len()
        invariant
            k <= v@.len(),
            s == magnitude_sum(v@, k as int),
        decreases v@.len() - k,
    {
        s = s.plus(v[k].magnitude());
        k = k + 1;
    }
    s
}

fn phases_of<T: Scalar>(y: &Vec<T>) -> (z: Vec<T>)
    ensures
        z@ == phases(y@),
{
    let mut z: Vec<T> = Vec::new();
    let mut k: usize = 0;
    while k < y.len()
        invariant
            k <= y@.len(),
            z@.len() == k,
            forall|i: int| 0 <= i < k ==> #[trigger] z@[i] == phase(y@[i]),
        decreases y@.len() - k,
    {
        let m = y[k].magnitude();
        if m.is_zero() {
            z.push(T::one());
        } else {
            z.push(y[k].times(T::from_real(<T::Real as Real>::one().over(m))));
        }
        k = k + 1;
    }
    assert(z@ =~= phases(y@));
    z
}

fn real_product_of<T: Scalar>(z: &Vec<T>, x: &Vec<T>) -> (r: T::Real)
    requires
        z@.len() == x@.len(),
    ensures
        r == real_product(z@, x@, x@.len() as int),
{
    let mut s: T::Real = <T::Real as Real>::zero();
    let mut k: usize = 0;
    while k < x.len()
        invariant
            k <= x@.len(),
            z@.len() == x@.len(),
            s == real_product(z@, x@, k as int),
        decreases x@.len() - k,
    {
        s = s.plus(z[k].conj().times(x[k]).real_part());
        k = k + 1;
    }
    s
}

fn peak_of<T: Scalar>(z: &Vec<T>) -> (r: (usize, T::Real))
    ensures
        (r.0 as int, r.1) == peak(z@, z@.len() as int),
        z@.len() > 0 ==> r.0 < z@.len(),
{
    let mut at: usize = 0;
    let mut m: T::Real = <T::Real as Real>::zero().minus(<T::Real as Real>::one());
    let mut k: usize = 0;
    while k < z.len()
        invariant
            k <= z@.len(),
            (at as int, m) == peak(z@, k as int),
            z@.len() > 0 ==> at < z@.len(),
        decreases z@.len() - k,
    {
        let mk = z[k].magnitude();
        if mk.gt(m) {
            m = mk;
            at = k;
        }
        k = k + 1;
    }
    (at, m)
}

fn filled<T: Scalar>(n: usize, v: T) -> (r: Vec<T>)
    ensures
        r@ == Seq::new(n as nat, |i: int| v),
{
    let mut r: Vec<T> = Vec::new();
    let mut k: usize = 0;
    while k < n
        invariant
            k <= n,
            r@.len() == k,
            forall|i: int| 0 <= i < k ==> #[trigger] r@[i] == v,
        decreases n - k,
    {
        r.push(v);
        k = k + 1;
    }
    assert(r@ =~= Seq::new(n as nat, |i: int| v));
    r
}

fn alternating_of<T: Scalar>(n: usize) -> (b: Vec<T>)
    ensures
        b@ == alternating::<T>(n as int),
{
    let denom: usize = if n >= 2 {
        n - 1
    } else {
        1
    };
    let one = <T::Real as Real>::one();
    let below = <T::Real as Real>::from_count(denom as u64);
    let mut b: Vec<T> = Vec::new();
    let mut k: usize = 0;
    while k < n
        invariant
            k <= n,
            denom == (if n >= 2 {
                n as int
            } else {
                2
            }) - 1,
            one == <T::Real as Real>::one_spec(),
            below == <T::Real as Real>::from_count_spec(denom as u64),
            b@.len() == k,
            forall|i: int| 0 <= i < k ==> #[trigger] b@[i] == alternating_entry::<T>(n as int, i),
        decreases n - k,
    {
        let sign = if k % 2 == 0 {
            one
        } else {
            <T::Real as Real>::zero().minus(one)
        };
        let size = one.plus(<T::Real as Real>::from_count(k as u64).over(below));
        b.push(T::from_real(sign.times(size)));
        k = k + 1;
    }
    assert(b@ =~= alternating::<T>(n as int));
    b
}

/// Estimate the one-norm of `A^-1`, driving all solves through `op`. Zero for an
/// empty operator; an error of `op` is passed on.
///
/// For complex scalars the sign of an entry becomes its phase.
pub fn hager_higham_inverse_norm_1<T: Scalar, O: ConditionOperator<T>>(op: &O) -> (r: Result<
    T::Real,
    RslabError,
>)
    requires
        op.ready(),
    ensures
        r == estimate::<T, O>(*op),
{
    let n: usize = op.dim();
    let zero = <T::Real as Real>::zero();
    if n == 0 {
        return Ok(zero);
    }
    let share = <T::Real as Real>::one().over(<T::Real as Real>::from_count(n as u64));
    let mut x: Vec<T> = filled(n, T::from_real(share));
    assert(x@ =~= uniform::<T>(n as int));
    let mut est: T::Real = zero;
    let mut last: Option<usize> = None;
    let ghost goal = power_iteration(
        *op,
        uniform::<T>(n as int),
        <T::Real as Real>::zero_spec(),
        None::<int>,
        0,
    );
    let mut iter: usize = 0;
    while iter < HAGER_MAX_ITER
        invariant_except_break
            iter <= HAGER_MAX_ITER,
            n > 0,
            n == op.dim_spec(),
            op.ready(),
            x@.len() == n,
            goal == power_iteration(
                *op,
                x@,
                est,
                match last {
                    Some(j) => Some(j as int),
                    None => None,
                },
                iter as int,
            ),
            n > 0 ==> estimate::<T, O>(*op) == (match goal {
                Err(e) => Err(e),
                Ok(est0) => match op.inverse(alternating::<T>(n as int)) {
                    Err(e) => Err(e),
                    Ok(y) => Ok(est0.maximum_spec(refined(n as int, vector_norm(y)))),
                },
            }),
        ensures
            goal == Ok::<T::Real, RslabError>(est),
        decreases HAGER_MAX_ITER - iter,
    {
        let mut y = copied(&x);
        match op.apply_inverse(&mut y) {
            Err(e) => {
                return Err(e);
            },
            Ok(()) => {},
        }
        let e = vector_norm_of(&y);
        if iter > 0 && est.ge(e) {
            break;
        }
        let mut z = phases_of(&y);
        match op.apply_inverse_adjoint(&mut z) {
            Err(f) => {
                return Err(f);
            },
            Ok(()) => {},
        }
        let zx = real_product_of(&z, &x);
        let (j, m) = peak_of(&z);
        let again = match last {
            Some(p) => p == j,
            None => false,
        };
        est = e;
        if zx.ge(m) || again {
            break;
        }
        last = Some(j);
        x = zero_vector(n);
        x.set(j, T::one());
        assert(x@ =~= unit::<T>(n as int, j as int));
        iter = iter + 1;
    }
    let mut b: Vec<T> = alternating_of(n);
    match op.apply_inverse(&mut b) {
        Err(e) => {
            return Err(e);
        },
        Ok(()) => {},
    }
    let s = vector_norm_of(&b);
    let alt = <T::Real as Real>::from_count(2).times(s).over(
        <T::Real as Real>::from_count(3).times(<T::Real as Real>::from_count(n as u64)),
    );
    Ok(est.maximum(alt))
}

/// A probe of the iteration: the uniform vector or a unit vector.
pub open spec fn is_probe<T: Scalar>(n: int, x: Seq<T>) -> bool {
    x == uniform::<T>(n) || exists|j: int| 0 <= j < n && x == #[trigger] unit::<T>(n, j)
}

/// The norm of the solution for one probe.
pub open spec fn attained<T: Scalar, O: ConditionOperator<T>>(op: O, x: Seq<T>, v: T::Real) -> bool {
    &&& is_probe(op.dim_spec(), x)
    &&& op.inverse(x) is Ok
    &&& v == vector_norm(op.inverse(x)->Ok_0)
}

proof fn peak_inside<T: Scalar>(z: Seq<T>, k: int, n: int)
    requires
        0 <= k <= n,
        0 < n,
    ensures
        0 <= peak(z, k).0 < n,
    decreases k,
{
    if k > 0 {
        peak_inside(z, k - 1, n);
    }
}

proof fn iteration_attains<T: Scalar, O: ConditionOperator<T>>(
    op: O,
    x: Seq<T>,
    est: T::Real,
    last: Option<int>,
    iter: int,
    seen: Seq<T>,
) -> (w: Seq<T>)
    requires
        0 < op.dim_spec(),
        0 <= iter,
        is_probe(op.dim_spec(), x),
        iter > 0 ==> attained(op, seen, est),
        power_iteration(op, x, est, last, iter) is Ok,
    ensures
        iter < HAGER_MAX_ITER || iter > 0 ==> attained(
            op,
            w,
            power_iteration(op, x, est, last, iter)->Ok_0,
        ),
    decreases HAGER_MAX_ITER - iter,
{
    if iter >= HAGER_MAX_ITER {
        seen
    } else {
        let n = op.dim_spec();
        let y = op.inverse(x)->Ok_0;
        let e = vector_norm(y);
        if iter > 0 && est.ge_spec(e) {
            seen
        } else {
            let z = op.inverse_adjoint(phases(y))->Ok_0;
            let (j, m) = peak(z, n);
            if real_product(z, x, n).ge_spec(m) || last == Some(j) {
                x
            } else {
                peak_inside(z, n, n);
                iteration_attains(op, unit::<T>(n, j), e, Some(j), iter + 1, x)
            }
        }
    }
}

/// The estimate is attained: it is the larger of the solution norm of a probe of
/// one-norm one (the uniform vector or a unit vector) and the refinement, two
/// thirds of the mean magnitude that the alternating right-hand side is solved
/// to. That is why it is a lower bound on the norm of the inverse.
pub proof fn estimate_is_attained<T: Scalar, O: ConditionOperator<T>>(op: O) -> (r: (
    Seq<T>,
    T::Real,
))
    requires
        0 < op.dim_spec(),
        estimate::<T, O>(op) is Ok,
    ensures
        attained(op, r.0, r.1),
        op.inverse(alternating::<T>(op.dim_spec())) is Ok,
        estimate::<T, O>(op)->Ok_0 == r.1.maximum_spec(
            refined(
                op.dim_spec(),
                vector_norm(op.inverse(alternating::<T>(op.dim_spec()))->Ok_0),
            ),
        ),
{
    let n = op.dim_spec();
    let x = uniform::<T>(n);
    let zero = <T::Real as Real>::zero_spec();
    let w = iteration_attains(op, x, zero, None::<int>, 0, x);
    (w, power_iteration(op, x, zero, None::<int>, 0)->Ok_0)
}

/// The condition operator of a factored matrix: plain solves, and transposed
/// solves with the conjugation on both sides.
pub struct KluConditionOp<'a, T: Scalar> {
    pub solver: &'a KluSolver<T>,
}

/// The conjugate of every entry.
pub open spec fn conjugated<T: Scalar>(x: Seq<T>) -> Seq<T> {
    Seq::new(x.len(), |i: int| x[i].conj_spec())
}

fn conjugate<T: Scalar>(x: &mut Vec<T>)
    ensures
        final(x)@ == conjugated(old(x)@),
{
    let ghost x0 = x@;
    let n: usize = x.len();
    let mut k: usize = 0;
    while k < n
        invariant
            k <= n,
            x@.len() == n,
            x0.len() == n,
            forall|i: int| 0 <= i < k ==> #[trigger] x@[i] == x0[i].conj_spec(),
            forall|i: int| k <= i < n ==> #[trigger] x@[i] == x0[i],
        decreases n - k,
    {
        let v = x[k].conj();
        x.set(k, v);
        k = k + 1;
    }
    assert(x@ =~= conjugated(x0));
}

impl<'a, T: Scalar> ConditionOperator<T> for KluConditionOp<'a, T> {
    open spec fn ready(&self) -> bool {
        self.solver.wf()
    }

    open spec fn dim_spec(&self) -> int {
        self.solver.factors.n as int
    }

    open spec fn inverse(&self, rhs: Seq<T>) -> Result<Seq<T>, RslabError> {
        Ok(self.solver.factors.solution(rhs))
    }

    open spec fn inverse_adjoint(&self, rhs: Seq<T>) -> Result<Seq<T>, RslabError> {
        Ok(conjugated(self.solver.factors.transposed_solution(conjugated(rhs))))
    }

    fn dim(&self) -> (r: usize) {
        self.solver.n()
    }

    fn apply_inverse(&self, rhs: &mut Vec<T>) -> (r: Result<(), RslabError>) {
        let x = self.solver.factors.solve_one(rhs.as_slice());
        *rhs = x;
        Ok(())
    }

    fn apply_inverse_adjoint(&self, rhs: &mut Vec<T>) -> (r: Result<(), RslabError>) {
        conjugate(rhs);
        let mut x = self.solver.factors.solve_transpose_one(rhs.as_slice());
        conjugate(&mut x);
        *rhs = x;
        Ok(())
    }
}

/// Estimate the one-norm condition number of `a`: its one-norm times the
/// estimated norm of its inverse. `op` must solve with `a`.
pub fn condest_1<T: Scalar, O: ConditionOperator<T>>(op: &O, a: &GeneralCsc<T>) -> (r: Result<
    T::Real,
    RslabError,
>)
    requires
        op.ready(),
        a.wf(),
    ensures
        a.n != op.dim_spec() ==> r == Err::<T::Real, RslabError>(
            RslabError::DimensionMismatch { expected: op.dim_spec() as usize, got: a.n },
        ),
        a.n == op.dim_spec() ==> r == (match estimate::<T, O>(*op) {
            Ok(v) => Ok::<T::Real, RslabError>(one_norm_upto(*a, a.n as int).times_spec(v)),
            Err(e) => Err(e),
        }),
{
    let n: usize = op.dim();
    if a.n != n {
        return Err(RslabError::DimensionMismatch { expected: n, got: a.n });
    }
    match hager_higham_inverse_norm_1(op) {
        Ok(v) => Ok(a.one_norm().times(v)),
        Err(e) => Err(e),
    }
}

/// The largest of the first `k` scaled magnitudes of a column, and of `before`.
pub open spec fn largest_scaled<T: Scalar>(
    rows: Seq<usize>,
    vals: Seq<T>,
    d_row: Seq<T::Real>,
    dc: T::Real,
    before: T::Real,
    k: int,
) -> T::Real
    decreases k,
{
    if k <= 0 {
        before
    } else {
        let m0 = largest_scaled(rows, vals, d_row, dc, before, k - 1);
        let m = vals[k - 1].magnitude_spec().times_spec(d_row[rows[k - 1] as int]).times_spec(dc);
        if m.gt_spec(m0) {
            m
        } else {
            m0
        }
    }
}

/// The largest scaled magnitude in the first `j` columns.
pub open spec fn largest_equilibrated<T: Scalar>(
    a: GeneralCsc<T>,
    d_row: Seq<T::Real>,
    d_col: Seq<T::Real>,
    j: int,
) -> T::Real
    decreases j,
{
    if j <= 0 {
        <T::Real as Real>::zero_spec()
    } else {
        largest_scaled(
            a.rows_of(j - 1),
            a.vals_of(j - 1),
            d_row,
            d_col[j - 1],
            largest_equilibrated(a, d_row, d_col, j - 1),
            a.rows_of(j - 1).len() as int,
        )
    }
}

/// The largest of the first `k` magnitudes, at least zero.
pub open spec fn largest_magnitude<T: Scalar>(u: Seq<T>, k: int) -> T::Real
    decreases k,
{
    if k <= 0 {
        <T::Real as Real>::zero_spec()
    } else {
        largest_magnitude(u, k - 1).maximum_spec(u[k - 1].magnitude_spec())
    }
}

/// The element-growth factor of a factorization with unit lower factor: the
/// largest magnitude in the upper factor over the largest in the equilibrated
/// matrix `diag(d_row) A diag(d_col)` that was factored. Zero for an empty or
/// zero matrix. `n` is the dimension of the factorization.
pub fn element_growth<T: Scalar>(
    a: &GeneralCsc<T>,
    n: usize,
    d_row: &[T::Real],
    d_col: &[T::Real],
    u_values: &[T],
) -> (r: Result<T::Real, RslabError>)
    requires
        a.wf(),
        d_row@.len() == n,
        d_col@.len() == n,
    ensures
        a.n != n ==> r == Err::<T::Real, RslabError>(
            RslabError::DimensionMismatch { expected: n, got: a.n },
        ),
        a.n == n ==> r == Ok::<T::Real, RslabError>(
            {
                let m = largest_equilibrated(*a, d_row@, d_col@, n as int);
                if m.is_zero_spec() {
                    <T::Real as Real>::zero_spec()
                } else {
                    largest_magnitude(u_values@, u_values@.len() as int).over_spec(m)
                }
            },
        ),
{
    if a.n != n {
        return Err(RslabError::DimensionMismatch { expected: n, got: a.n });
    }
    let zero = <T::Real as Real>::zero();
    let mut most: T::Real = zero;
    let mut j: usize = 0;
    while j < n
        invariant
            j <= n,
            n == a.n,
            a.wf(),
            d_row@.len() == n,
            d_col@.len() == n,
            most == largest_equilibrated(*a, d_row@, d_col@, j as int),
        decreases n - j,
    {
        proof {
            crate::sparse::column_range(*a, j as int);
        }
        let lo: usize = a.col_ptr[j];
        let hi: usize = a.col_ptr[j + 1];
        let ghost rows = a.rows_of(j as int);
        let ghost vals = a.vals_of(j as int);
        let ghost before = most;
        let dc = d_col[j];
        let mut k: usize = lo;
        while k < hi
            invariant
                lo <= k <= hi <= a.row_idx@.len(),
                a.values@.len() == a.row_idx@.len(),
                rows.len() == hi - lo,
                vals.len() == hi - lo,
                d_row@.len() == n,
                crate::seqs::below(rows, n as int),
                forall|q: int| 0 <= q < rows.len() ==> #[trigger] rows[q] == a.row_idx@[lo + q],
                forall|q: int| 0 <= q < rows.len() ==> #[trigger] vals[q] == a.values@[lo + q],
                most == largest_scaled(rows, vals, d_row@, dc, before, k - lo),
            decreases hi - k,
        {
            proof {
                assert(rows[k - lo] == a.row_idx@[k as int]);
                assert(vals[k - lo] == a.values@[k as int]);
            }
            let m = a.values[k].magnitude().times(d_row[a.row_idx[k]]).times(dc);
            if m.gt(most) {
                most = m;
            }
            k = k + 1;
        }
        j = j + 1;
    }
    if most.is_zero() {
        return Ok(zero);
    }
    let mut u: T::Real = zero;
    let mut k: usize = 0;
    while k < u_values.len()
        invariant
            k <= u_values@.len(),
            u == largest_magnitude(u_values@, k as int),
        decreases u_values@.len() - k,
    {
        u = u.maximum(u_values[k].magnitude());
        k = k + 1;
    }
    Ok(u.over(most))
}

} // verus!
