//! Conjugate-gradient iterations in the bilinear product, for operators that are
//! their own transpose.
//!
//! What an iteration does is fixed by the operator, the right-hand side and the
//! answers of the preconditioner; the contracts name those answers.

use crate::error::RslabError;
use crate::flat::{norm2, norm_of, part_of};
use crate::krylov::operator::{LinearOperator, Preconditioner};
use crate::krylov::vectors::{
    add_multiple, dotu, dotu_of, minus_multiple, plus_multiple, subtract_multiple, sum_multiple,
};
use crate::matrix_ops::{zero_vector, zeros};
use crate::scalar::{Real, Scalar};
use vstd::prelude::*;

verus! {

/// Outcome of a Krylov solve.
#[derive(Clone)]
pub struct KrylovResult<T: Scalar> {
    /// The computed solution.
    pub x: Vec<T>,
    /// Number of iterations performed.
    pub iters: usize,
    /// Whether the relative residual reached the tolerance.
    pub converged: bool,
    /// Final relative residual.
    pub final_res: T::Real,
}

/// An outcome as a value: solution, iterations, convergence, relative residual.
pub struct Outcome<T: Scalar> {
    pub x: Seq<T>,
    pub iters: int,
    pub converged: bool,
    pub final_res: T::Real,
}

impl<T: Scalar> KrylovResult<T> {
    pub open spec fn outcome(&self) -> Outcome<T> {
        Outcome {
            x: self.x@,
            iters: self.iters as int,
            converged: self.converged,
            final_res: self.final_res,
        }
    }
}

/// The outcome for a zero right-hand side.
pub open spec fn solved_at_once<T: Scalar>(n: int) -> Outcome<T> {
    Outcome {
        x: zeros(n),
        iters: 0,
        converged: true,
        final_res: <T::Real as Real>::zero_spec(),
    }
}

/// `‖r‖ / ‖b‖`.
pub open spec fn relative<T: Scalar>(r: Seq<T>, b: Seq<T>) -> T::Real {
    norm_of(r).over_spec(norm_of(b))
}

/// The state of the conjugate-gradient recurrence.
pub struct CgState<T: Scalar> {
    pub x: Seq<T>,
    pub r: Seq<T>,
    pub p: Seq<T>,
    pub rho: T,
}

/// The state before the first step; `z` answers the right-hand side.
pub open spec fn cg_start<T: Scalar>(n: int, b: Seq<T>, z: Seq<T>) -> CgState<T> {
    CgState { x: zeros(n), r: b, p: z, rho: dotu_of(b, z) }
}

/// `p^T A p`.
pub open spec fn cg_curvature<T: Scalar, A: LinearOperator<T>>(op: A, s: CgState<T>) -> T {
    dotu_of(s.p, op.image(s.p))
}

/// One step along the direction.
pub open spec fn cg_forward<T: Scalar, A: LinearOperator<T>>(op: A, s: CgState<T>) -> CgState<T> {
    let alpha = s.rho.times_spec(cg_curvature(op, s).recip_spec());
    CgState {
        x: plus_multiple(s.x, alpha, s.p),
        r: minus_multiple(s.r, alpha, op.image(s.p)),
        p: s.p,
        rho: s.rho,
    }
}

/// The next direction; `z` answers the residual.
pub open spec fn cg_turn<T: Scalar>(s: CgState<T>, z: Seq<T>) -> CgState<T> {
    let rho = dotu_of(s.r, z);
    CgState {
        x: s.x,
        r: s.r,
        p: plus_multiple(z, rho.times_spec(s.rho.recip_spec()), s.p),
        rho,
    }
}

/// The state after `k` steps, with the answers of the preconditioner.
pub open spec fn cg_state<T: Scalar, A: LinearOperator<T>>(
    op: A,
    b: Seq<T>,
    zs: Seq<Seq<T>>,
    k: int,
) -> CgState<T>
    decreases k,
{
    if k <= 0 {
        cg_start(op.dim_spec(), b, zs[0])
    } else {
        cg_turn(cg_forward(op, cg_state(op, b, zs, k - 1)), zs[k])
    }
}

/// The vector that answer `k` is for.
pub open spec fn cg_asked<T: Scalar, A: LinearOperator<T>>(
    op: A,
    b: Seq<T>,
    zs: Seq<Seq<T>>,
    k: int,
) -> Seq<T> {
    if k <= 0 {
        b
    } else {
        cg_forward(op, cg_state(op, b, zs, k - 1)).r
    }
}

/// Step `k` is made: there is room, and the curvature is not zero.
pub open spec fn cg_steps<T: Scalar, A: LinearOperator<T>>(
    op: A,
    b: Seq<T>,
    max_iter: int,
    zs: Seq<Seq<T>>,
    k: int,
) -> bool {
    k < max_iter && !cg_curvature(op, cg_state(op, b, zs, k)).is_zero_spec()
}

/// Step `k` is made, and its residual is not yet small.
pub open spec fn cg_asks<T: Scalar, A: LinearOperator<T>>(
    op: A,
    b: Seq<T>,
    tol: T::Real,
    max_iter: int,
    zs: Seq<Seq<T>>,
    k: int,
) -> bool {
    cg_steps(op, b, max_iter, zs, k) && !tol.ge_spec(
        relative(cg_forward(op, cg_state(op, b, zs, k)).r, b),
    )
}

/// Step `k` is made and the iteration goes on.
pub open spec fn cg_goes_on<T: Scalar, A: LinearOperator<T>>(
    op: A,
    b: Seq<T>,
    tol: T::Real,
    max_iter: int,
    zs: Seq<Seq<T>>,
    k: int,
) -> bool {
    cg_asks(op, b, tol, max_iter, zs, k) && !cg_state(op, b, zs, k).rho.is_zero_spec()
}

/// Every answer is one that may come back for its question.
#[verifier::opaque]
pub open spec fn cg_replies<T: Scalar, A: LinearOperator<T>, M: Preconditioner<T>>(
    op: A,
    m: M,
    b: Seq<T>,
    zs: Seq<Seq<T>>,
) -> bool {
    forall|k: int| 0 <= k < zs.len() ==> m.gives(cg_asked(op, b, zs, k), Ok(#[trigger] zs[k]))
}

/// The preconditioner answered so, and the iteration has gone through every step
/// before the last answer.
pub open spec fn cg_trace<T: Scalar, A: LinearOperator<T>, M: Preconditioner<T>>(
    op: A,
    m: M,
    b: Seq<T>,
    tol: T::Real,
    max_iter: int,
    zs: Seq<Seq<T>>,
) -> bool {
    &&& cg_replies(op, m, b, zs)
    &&& forall|k: int| 0 <= k < zs.len() ==> (#[trigger] zs[k]).len() == op.dim_spec()
    &&& forall|k: int| 0 <= k < zs.len() - 1 ==> #[trigger] cg_goes_on(op, b, tol, max_iter, zs, k)
}

/// What the iteration returns when it ends at step `k`.
pub open spec fn cg_outcome<T: Scalar, A: LinearOperator<T>>(
    op: A,
    b: Seq<T>,
    tol: T::Real,
    max_iter: int,
    zs: Seq<Seq<T>>,
    k: int,
) -> Outcome<T> {
    let s = cg_state(op, b, zs, k);
    if !cg_steps(op, b, max_iter, zs, k) {
        let res = relative(s.r, b);
        Outcome { x: s.x, iters: k, converged: tol.ge_spec(res), final_res: res }
    } else {
        let f = cg_forward(op, s);
        let res = relative(f.r, b);
        Outcome { x: f.x, iters: k + 1, converged: tol.ge_spec(res), final_res: res }
    }
}

/// The iteration with these answers ends in `out`.
pub open spec fn cg_ends<T: Scalar, A: LinearOperator<T>, M: Preconditioner<T>>(
    op: A,
    m: M,
    b: Seq<T>,
    tol: T::Real,
    max_iter: int,
    zs: Seq<Seq<T>>,
    out: Outcome<T>,
) -> bool {
    let k = zs.len() - 1;
    &&& zs.len() > 0
    &&& cg_trace(op, m, b, tol, max_iter, zs)
    &&& !cg_goes_on(op, b, tol, max_iter, zs, k)
    &&& out == cg_outcome(op, b, tol, max_iter, zs, k)
}

/// Some run of the iteration ends in `out`.
pub open spec fn cocg_made<T: Scalar, A: LinearOperator<T>, M: Preconditioner<T>>(
    op: A,
    m: M,
    b: Seq<T>,
    tol: T::Real,
    max_iter: int,
    out: Outcome<T>,
) -> bool {
    exists|zs: Seq<Seq<T>>| #[trigger] cg_ends(op, m, b, tol, max_iter, zs, out)
}

/// After these answers the preconditioner is asked again and refuses with `e`.
pub open spec fn cg_refused<T: Scalar, A: LinearOperator<T>, M: Preconditioner<T>>(
    op: A,
    m: M,
    b: Seq<T>,
    tol: T::Real,
    max_iter: int,
    zs: Seq<Seq<T>>,
    e: RslabError,
) -> bool {
    &&& cg_trace(op, m, b, tol, max_iter, zs)
    &&& zs.len() > 0 ==> cg_asks(op, b, tol, max_iter, zs, zs.len() - 1)
    &&& m.gives(cg_asked(op, b, zs, zs.len() as int), Err(e))
}

/// The preconditioner refuses with `e` in some run.
pub open spec fn cocg_refused<T: Scalar, A: LinearOperator<T>, M: Preconditioner<T>>(
    op: A,
    m: M,
    b: Seq<T>,
    tol: T::Real,
    max_iter: int,
    e: RslabError,
) -> bool {
    exists|zs: Seq<Seq<T>>| #[trigger] cg_refused(op, m, b, tol, max_iter, zs, e)
}

proof fn cg_state_kept<T: Scalar, A: LinearOperator<T>>(
    op: A,
    b: Seq<T>,
    zs: Seq<Seq<T>>,
    z: Seq<T>,
    k: int,
)
    requires
        0 <= k < zs.len(),
    ensures
        cg_state(op, b, zs.push(z), k) == cg_state(op, b, zs, k),
    decreases k,
{
    if k > 0 {
        cg_state_kept(op, b, zs, z, k - 1);
    }
}

/// One more answer extends the trace.
proof fn cg_trace_grows<T: Scalar, A: LinearOperator<T>, M: Preconditioner<T>>(
    op: A,
    m: M,
    b: Seq<T>,
    tol: T::Real,
    max_iter: int,
    zs: Seq<Seq<T>>,
    z: Seq<T>,
)
    requires
        zs.len() > 0,
        cg_trace(op, m, b, tol, max_iter, zs),
        cg_goes_on(op, b, tol, max_iter, zs, zs.len() - 1),
        m.gives(cg_asked(op, b, zs, zs.len() as int), Ok(z)),
        z.len() == op.dim_spec(),
    ensures
        cg_trace(op, m, b, tol, max_iter, zs.push(z)),
        cg_state(op, b, zs.push(z), zs.len() as int) == cg_turn(
            cg_forward(op, cg_state(op, b, zs, zs.len() - 1)),
            z,
        ),
{
    reveal(cg_replies);
    let ws = zs.push(z);
    assert forall|k: int| 0 <= k < zs.len() implies #[trigger] cg_state(op, b, ws, k) == cg_state(
        op,
        b,
        zs,
        k,
    ) by {
        cg_state_kept(op, b, zs, z, k);
    }
    assert forall|k: int| 0 <= k < ws.len() implies m.gives(
        cg_asked(op, b, ws, k),
        Ok(#[trigger] ws[k]),
    ) by {
        if k > 0 {
            assert(cg_state(op, b, ws, k - 1) == cg_state(op, b, zs, k - 1));
        }
        assert(cg_asked(op, b, ws, k) == cg_asked(op, b, zs, k));
        if k < zs.len() {
            assert(ws[k] == zs[k]);
        }
    }
    assert forall|k: int| 0 <= k < ws.len() - 1 implies #[trigger] cg_goes_on(
        op,
        b,
        tol,
        max_iter,
        ws,
        k,
    ) by {
        assert(cg_state(op, b, ws, k) == cg_state(op, b, zs, k));
        assert(cg_goes_on(op, b, tol, max_iter, zs, k));
    }
    assert(cg_state(op, b, ws, zs.len() - 1) == cg_state(op, b, zs, zs.len() - 1));
}

/// Preconditioned conjugate orthogonal conjugate gradients from `x = 0`, for an
/// operator that is its own transpose. A zero denominator ends the iteration
/// with the best iterate. Converged is what reached the tolerance, the start
/// vector included.
pub fn cocg<T: Scalar, A: LinearOperator<T>, M: Preconditioner<T>>(
    op: &A,
    b: &[T],
    precond: &M,
    tol: T::Real,
    max_iter: usize,
) -> (r: Result<KrylovResult<T>, RslabError>)
    requires
        op.ready(),
        precond.ready(),
    ensures
        b@.len() != op.dim_spec() ==> r == Err::<KrylovResult<T>, RslabError>(
            RslabError::DimensionMismatch {
                expected: op.dim_spec() as usize,
                got: b@.len() as usize,
            },
        ),
        b@.len() == op.dim_spec() && norm_of(b@).is_zero_spec() ==> r is Ok && r->Ok_0.outcome()
            == solved_at_once::<T>(op.dim_spec()),
        b@.len() == op.dim_spec() && !norm_of(b@).is_zero_spec() ==> match r {
            Ok(k) => cocg_made(*op, *precond, b@, tol, max_iter as int, k.outcome()),
            Err(e) => cocg_refused(*op, *precond, b@, tol, max_iter as int, e),
        },
{
    proof {
        reveal(cg_replies);
    }
    let n: usize = op.n();
    if b.len() != n {
        return Err(RslabError::DimensionMismatch { expected: n, got: b.len() });
    }
    let mut x = zero_vector::<T>(n);
    let mut r: Vec<T> = part_of(b, 0, n);
    assert(r@ =~= b@);
    let bnorm = norm2(b);
    if bnorm.is_zero() {
        return Ok(
            KrylovResult {
                x,
                iters: 0,
                converged: true,
                final_res: <T::Real as Real>::zero(),
            },
        );
    }
    let mut z = zero_vector::<T>(n);
    match precond.apply(r.as_slice(), &mut z) {
        Ok(()) => {},
        Err(e) => {
            assert(cg_refused(*op, *precond, b@, tol, max_iter as int, Seq::empty(), e));
            return Err(e);
        },
    }
    let ghost mut zs: Seq<Seq<T>> = seq![z@];
    let mut p: Vec<T> = part_of(z.as_slice(), 0, n);
    assert(p@ =~= z@);
    let mut rho = dotu(r.as_slice(), z.as_slice());
    let mut q = zero_vector::<T>(n);
    let mut final_res = norm2(r.as_slice()).over(bnorm);
    let mut converged = tol.ge(final_res);
    let mut iters: usize = 0;
    while iters < max_iter
        invariant_except_break
            zs.len() == iters + 1,
            cg_trace(*op, *precond, b@, tol, max_iter as int, zs),
            cg_state(*op, b@, zs, iters as int) == (CgState { x: x@, r: r@, p: p@, rho }),
            final_res == relative(r@, b@),
            converged == tol.ge_spec(final_res),
        invariant
            op.ready(),
            precond.ready(),
            n == op.dim_spec(),
            b@.len() == n,
            x@.len() == n,
            r@.len() == n,
            p@.len() == n,
            q@.len() == n,
            z@.len() == n,
            bnorm == norm_of(b@),
            !bnorm.is_zero_spec(),
            iters <= max_iter,
        ensures
            cg_ends(
                *op,
                *precond,
                b@,
                tol,
                max_iter as int,
                zs,
                Outcome {
                    x: x@,
                    iters: iters as int,
                    converged,
                    final_res,
                },
            ),
        decreases max_iter - iters,
    {
        let ghost s0 = cg_state(*op, b@, zs, iters as int);
        op.apply(p.as_slice(), &mut q);
        let pq = dotu(p.as_slice(), q.as_slice());
        assert(pq == cg_curvature(*op, s0));
        if pq.is_zero() {
            break ;
        }
        let alpha = rho.times(pq.recip());
        add_multiple(&mut x, alpha, p.as_slice());
        subtract_multiple(&mut r, alpha, q.as_slice());
        assert(cg_forward(*op, s0) == (CgState { x: x@, r: r@, p: p@, rho }));
        iters = iters + 1;
        final_res = norm2(r.as_slice()).over(bnorm);
        converged = tol.ge(final_res);
        if converged {
            break ;
        }
        match precond.apply(r.as_slice(), &mut z) {
            Ok(()) => {},
            Err(e) => {
                assert(cg_refused(*op, *precond, b@, tol, max_iter as int, zs, e));
                return Err(e);
            },
        }
        let rho_new = dotu(r.as_slice(), z.as_slice());
        if rho.is_zero() {
            break ;
        }
        let beta = rho_new.times(rho.recip());
        p = sum_multiple(z.as_slice(), beta, p.as_slice());
        rho = rho_new;
        proof {
            cg_trace_grows(*op, *precond, b@, tol, max_iter as int, zs, z@);
            zs = zs.push(z@);
        }
    }
    Ok(KrylovResult { x, iters, converged, final_res })
}

} // verus!
