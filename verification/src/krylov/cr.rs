//! Conjugate-residual iteration in the bilinear product.

use crate::error::RslabError;
use crate::flat::{norm2, norm_of, part_of};
use crate::krylov::cg::{relative, solved_at_once, KrylovResult, Outcome};
use crate::krylov::operator::{LinearOperator, Preconditioner};
use crate::krylov::vectors::{
    add_multiple, dotu, dotu_of, minus_multiple, plus_multiple, subtract_multiple, sum_multiple,
};
use crate::matrix_ops::{zero_vector, zeros};
use crate::scalar::{Real, Scalar};
use vstd::prelude::*;

verus! {

/// The state of the conjugate-residual recurrence.
pub struct CrState<T: Scalar> {
    pub x: Seq<T>,
    pub r: Seq<T>,
    pub z: Seq<T>,
    pub p: Seq<T>,
    pub ap: Seq<T>,
    pub az: Seq<T>,
    pub gamma: T,
}

/// The state before the first step; `z` answers the right-hand side.
pub open spec fn cr_start<T: Scalar, A: LinearOperator<T>>(op: A, b: Seq<T>, z: Seq<T>) -> CrState<
    T,
> {
    CrState {
        x: zeros(op.dim_spec()),
        r: b,
        z,
        p: z,
        ap: op.image(z),
        az: op.image(z),
        gamma: dotu_of(z, op.image(z)),
    }
}

/// One step; `w` answers `A p`.
pub open spec fn cr_forward<T: Scalar, A: LinearOperator<T>>(
    op: A,
    s: CrState<T>,
    w: Seq<T>,
) -> CrState<T> {
    let alpha = s.gamma.times_spec(dotu_of(s.ap, w).recip_spec());
    CrState {
        x: plus_multiple(s.x, alpha, s.p),
        r: minus_multiple(s.r, alpha, s.ap),
        z: minus_multiple(s.z, alpha, w),
        p: s.p,
        ap: s.ap,
        az: minus_multiple(s.az, alpha, op.image(w)),
        gamma: s.gamma,
    }
}

/// The next direction.
pub open spec fn cr_turn<T: Scalar>(s: CrState<T>) -> CrState<T> {
    let gamma = dotu_of(s.z, s.az);
    let beta = gamma.times_spec(s.gamma.recip_spec());
    CrState {
        x: s.x,
        r: s.r,
        z: s.z,
        p: plus_multiple(s.z, beta, s.p),
        ap: plus_multiple(s.az, beta, s.ap),
        az: s.az,
        gamma,
    }
}

/// The state after `k` steps, with the answers of the preconditioner: the first
/// for the right-hand side, then one for each step.
pub open spec fn cr_state<T: Scalar, A: LinearOperator<T>>(
    op: A,
    b: Seq<T>,
    zs: Seq<Seq<T>>,
    k: int,
) -> CrState<T>
    decreases k,
{
    if k <= 0 {
        cr_start(op, b, zs[0])
    } else {
        cr_turn(cr_forward(op, cr_state(op, b, zs, k - 1), zs[k]))
    }
}

/// The vector that answer `k` is for.
pub open spec fn cr_asked<T: Scalar, A: LinearOperator<T>>(
    op: A,
    b: Seq<T>,
    zs: Seq<Seq<T>>,
    k: int,
) -> Seq<T> {
    if k <= 0 {
        b
    } else {
        cr_state(op, b, zs, k - 1).ap
    }
}

/// The denominator of step `k` is not zero.
pub open spec fn cr_steps<T: Scalar, A: LinearOperator<T>>(
    op: A,
    b: Seq<T>,
    zs: Seq<Seq<T>>,
    k: int,
) -> bool {
    !dotu_of(cr_state(op, b, zs, k).ap, zs[k + 1]).is_zero_spec()
}

/// Step `k` is made and the iteration goes on.
pub open spec fn cr_goes_on<T: Scalar, A: LinearOperator<T>>(
    op: A,
    b: Seq<T>,
    tol: T::Real,
    zs: Seq<Seq<T>>,
    k: int,
) -> bool {
    let s = cr_state(op, b, zs, k);
    cr_steps(op, b, zs, k) && !tol.ge_spec(relative(cr_forward(op, s, zs[k + 1]).r, b))
        && !s.gamma.is_zero_spec()
}

/// Every answer is one that may come back for its question.
#[verifier::opaque]
pub open spec fn cr_replies<T: Scalar, A: LinearOperator<T>, M: Preconditioner<T>>(
    op: A,
    m: M,
    b: Seq<T>,
    zs: Seq<Seq<T>>,
) -> bool {
    forall|k: int| 0 <= k < zs.len() ==> m.gives(cr_asked(op, b, zs, k), Ok(#[trigger] zs[k]))
}

/// The preconditioner answered so, each step had room, and every step but the
/// last went on.
pub open spec fn cr_trace<T: Scalar, A: LinearOperator<T>, M: Preconditioner<T>>(
    op: A,
    m: M,
    b: Seq<T>,
    tol: T::Real,
    max_iter: int,
    zs: Seq<Seq<T>>,
) -> bool {
    &&& cr_replies(op, m, b, zs)
    &&& forall|k: int| 0 <= k < zs.len() ==> (#[trigger] zs[k]).len() == op.dim_spec()
    &&& forall|k: int| 0 <= k < zs.len() - 2 ==> #[trigger] cr_goes_on(op, b, tol, zs, k)
    &&& zs.len() - 1 <= max_iter || zs.len() == 0
}

/// Every step of the trace went on.
pub open spec fn cr_running<T: Scalar, A: LinearOperator<T>>(
    op: A,
    b: Seq<T>,
    tol: T::Real,
    zs: Seq<Seq<T>>,
) -> bool {
    zs.len() >= 2 ==> cr_goes_on(op, b, tol, zs, zs.len() - 2)
}

/// What the iteration returns with these answers.
pub open spec fn cr_outcome<T: Scalar, A: LinearOperator<T>>(
    op: A,
    b: Seq<T>,
    tol: T::Real,
    zs: Seq<Seq<T>>,
) -> Outcome<T> {
    let k = zs.len() - 1;
    if cr_running(op, b, tol, zs) {
        let s = cr_state(op, b, zs, k);
        let res = relative(s.r, b);
        Outcome { x: s.x, iters: k, converged: tol.ge_spec(res), final_res: res }
    } else if !cr_steps(op, b, zs, k - 1) {
        let s = cr_state(op, b, zs, k - 1);
        let res = relative(s.r, b);
        Outcome { x: s.x, iters: k - 1, converged: tol.ge_spec(res), final_res: res }
    } else {
        let f = cr_forward(op, cr_state(op, b, zs, k - 1), zs[k]);
        let res = relative(f.r, b);
        Outcome { x: f.x, iters: k, converged: tol.ge_spec(res), final_res: res }
    }
}

/// The iteration with these answers ends in `out`.
pub open spec fn cr_ends<T: Scalar, A: LinearOperator<T>, M: Preconditioner<T>>(
    op: A,
    m: M,
    b: Seq<T>,
    tol: T::Real,
    max_iter: int,
    zs: Seq<Seq<T>>,
    out: Outcome<T>,
) -> bool {
    &&& zs.len() > 0
    &&& cr_trace(op, m, b, tol, max_iter, zs)
    &&& cr_running(op, b, tol, zs) ==> zs.len() - 1 == max_iter
    &&& out == cr_outcome(op, b, tol, zs)
}

/// Some run of the iteration ends in `out`.
pub open spec fn cocr_made<T: Scalar, A: LinearOperator<T>, M: Preconditioner<T>>(
    op: A,
    m: M,
    b: Seq<T>,
    tol: T::Real,
    max_iter: int,
    out: Outcome<T>,
) -> bool {
    exists|zs: Seq<Seq<T>>| #[trigger] cr_ends(op, m, b, tol, max_iter, zs, out)
}

/// After these answers the preconditioner is asked again and refuses with `e`.
pub open spec fn cr_refused<T: Scalar, A: LinearOperator<T>, M: Preconditioner<T>>(
    op: A,
    m: M,
    b: Seq<T>,
    tol: T::Real,
    max_iter: int,
    zs: Seq<Seq<T>>,
    e: RslabError,
) -> bool {
    &&& cr_trace(op, m, b, tol, max_iter, zs)
    &&& zs.len() > 0 ==> cr_running(op, b, tol, zs) && zs.len() - 1 < max_iter
    &&& m.gives(cr_asked(op, b, zs, zs.len() as int), Err(e))
}

/// The preconditioner refuses with `e` in some run.
pub open spec fn cocr_refused<T: Scalar, A: LinearOperator<T>, M: Preconditioner<T>>(
    op: A,
    m: M,
    b: Seq<T>,
    tol: T::Real,
    max_iter: int,
    e: RslabError,
) -> bool {
    exists|zs: Seq<Seq<T>>| #[trigger] cr_refused(op, m, b, tol, max_iter, zs, e)
}

proof fn cr_state_kept<T: Scalar, A: LinearOperator<T>>(
    op: A,
    b: Seq<T>,
    zs: Seq<Seq<T>>,
    z: Seq<T>,
    k: int,
)
    requires
        0 <= k < zs.len(),
    ensures
        cr_state(op, b, zs.push(z), k) == cr_state(op, b, zs, k),
    decreases k,
{
    if k > 0 {
        cr_state_kept(op, b, zs, z, k - 1);
    }
}

/// One more answer extends the trace.
proof fn cr_trace_grows<T: Scalar, A: LinearOperator<T>, M: Preconditioner<T>>(
    op: A,
    m: M,
    b: Seq<T>,
    tol: T::Real,
    max_iter: int,
    zs: Seq<Seq<T>>,
    z: Seq<T>,
)
    requires
        zs.len() > 0,
        cr_trace(op, m, b, tol, max_iter, zs),
        cr_running(op, b, tol, zs),
        zs.len() - 1 < max_iter,
        m.gives(cr_asked(op, b, zs, zs.len() as int), Ok(z)),
        z.len() == op.dim_spec(),
    ensures
        cr_trace(op, m, b, tol, max_iter, zs.push(z)),
        cr_state(op, b, zs.push(z), zs.len() - 1) == cr_state(op, b, zs, zs.len() - 1),
        cr_state(op, b, zs.push(z), zs.len() as int) == cr_turn(
            cr_forward(op, cr_state(op, b, zs, zs.len() - 1), z),
        ),
{
    reveal(cr_replies);
    let ws = zs.push(z);
    assert forall|k: int| 0 <= k < zs.len() implies #[trigger] cr_state(op, b, ws, k) == cr_state(
        op,
        b,
        zs,
        k,
    ) by {
        cr_state_kept(op, b, zs, z, k);
    }
    assert forall|k: int| 0 <= k < ws.len() implies m.gives(
        cr_asked(op, b, ws, k),
        Ok(#[trigger] ws[k]),
    ) by {
        if k > 0 {
            assert(cr_state(op, b, ws, k - 1) == cr_state(op, b, zs, k - 1));
        }
        assert(cr_asked(op, b, ws, k) == cr_asked(op, b, zs, k));
        if k < zs.len() {
            assert(ws[k] == zs[k]);
        }
    }
    assert forall|k: int| 0 <= k < ws.len() - 2 implies #[trigger] cr_goes_on(op, b, tol, ws, k) by {
        assert(cr_state(op, b, ws, k) == cr_state(op, b, zs, k));
        assert(cr_goes_on(op, b, tol, zs, k));
        assert(ws[k + 1] == zs[k + 1]);
    }
    assert(cr_state(op, b, ws, zs.len() - 1) == cr_state(op, b, zs, zs.len() - 1));
}

/// Preconditioned conjugate orthogonal conjugate residuals from `x = 0`: the
/// smoother sibling of the conjugate-gradient iteration on indefinite operators.
/// Converged is what reached the tolerance, the start vector included.
#[verifier::rlimit(40)]
pub fn cocr<T: Scalar, A: LinearOperator<T>, M: Preconditioner<T>>(
    op: &A,
    b: &[T],
    precond: &M,
    tol: T::Real,
    max_iter: usize,
) -> (res: Result<KrylovResult<T>, RslabError>)
    requires
        op.ready(),
        precond.ready(),
    ensures
        b@.len() != op.dim_spec() ==> res == Err::<KrylovResult<T>, RslabError>(
            RslabError::DimensionMismatch {
                expected: op.dim_spec() as usize,
                got: b@.len() as usize,
            },
        ),
        b@.len() == op.dim_spec() && norm_of(b@).is_zero_spec() ==> res is Ok
            && res->Ok_0.outcome() == solved_at_once::<T>(op.dim_spec()),
        b@.len() == op.dim_spec() && !norm_of(b@).is_zero_spec() ==> match res {
            Ok(k) => cocr_made(*op, *precond, b@, tol, max_iter as int, k.outcome()),
            Err(e) => cocr_refused(*op, *precond, b@, tol, max_iter as int, e),
        },
{
    proof {
        reveal(cr_replies);
    }
    let n: usize = op.n();
    if b.len() != n {
        return Err(RslabError::DimensionMismatch { expected: n, got: b.len() });
    }
    let mut x = zero_vector::<T>(n);
    let mut r: Vec<T> = part_of(b, 0, n);
    assert(r@ =~= b@);
    let bnorm = norm2(b);
    if bnorm.is_zero() {
        return Ok(
            KrylovResult {
                x,
                iters: 0,
                converged: true,
                final_res: <T::Real as Real>::zero(),
            },
        );
    }
    let mut z = zero_vector::<T>(n);
    match precond.apply(r.as_slice(), &mut z) {
        Ok(()) => {},
        Err(e) => {
            assert(cr_refused(*op, *precond, b@, tol, max_iter as int, Seq::empty(), e));
            return Err(e);
        },
    }
    let ghost mut zs: Seq<Seq<T>> = seq![z@];
    let mut p: Vec<T> = part_of(z.as_slice(), 0, n);
    assert(p@ =~= z@);
    let mut ap = zero_vector::<T>(n);
    op.apply(p.as_slice(), &mut ap);
    let mut az: Vec<T> = part_of(ap.as_slice(), 0, n);
    assert(az@ =~= ap@);
    let mut gamma = dotu(z.as_slice(), az.as_slice());
    let mut w = zero_vector::<T>(n);
    let mut aw = zero_vector::<T>(n);
    let mut final_res = norm2(r.as_slice()).over(bnorm);
    let mut converged = tol.ge(final_res);
    let mut iters: usize = 0;
    while iters < max_iter
        invariant_except_break
            zs.len() == iters + 1,
            cr_trace(*op, *precond, b@, tol, max_iter as int, zs),
            cr_running(*op, b@, tol, zs),
            cr_state(*op, b@, zs, iters as int) == (CrState {
                x: x@,
                r: r@,
                z: z@,
                p: p@,
                ap: ap@,
                az: az@,
                gamma,
            }),
            final_res == relative(r@, b@),
            converged == tol.ge_spec(final_res),
        invariant
            op.ready(),
            precond.ready(),
            n == op.dim_spec(),
            b@.len() == n,
            x@.len() == n,
            r@.len() == n,
            z@.len() == n,
            p@.len() == n,
            ap@.len() == n,
            az@.len() == n,
            w@.len() == n,
            aw@.len() == n,
            bnorm == norm_of(b@),
            !bnorm.is_zero_spec(),
            iters <= max_iter,
        ensures
            cr_ends(
                *op,
                *precond,
                b@,
                tol,
                max_iter as int,
                zs,
                Outcome { x: x@, iters: iters as int, converged, final_res },
            ),
        decreases max_iter - iters,
    {
        let ghost s0 = cr_state(*op, b@, zs, iters as int);
        match precond.apply(ap.as_slice(), &mut w) {
            Ok(()) => {},
            Err(e) => {
                assert(cr_refused(*op, *precond, b@, tol, max_iter as int, zs, e));
                return Err(e);
            },
        }
        proof {
            cr_trace_grows(*op, *precond, b@, tol, max_iter as int, zs, w@);
            zs = zs.push(w@);
        }
        op.apply(w.as_slice(), &mut aw);
        let denom = dotu(ap.as_slice(), w.as_slice());
        if denom.is_zero() {
            break ;
        }
        let alpha = gamma.times(denom.recip());
        add_multiple(&mut x, alpha, p.as_slice());
        subtract_multiple(&mut r, alpha, ap.as_slice());
        subtract_multiple(&mut z, alpha, w.as_slice());
        subtract_multiple(&mut az, alpha, aw.as_slice());
        assert(cr_forward(*op, s0, w@) == (CrState {
            x: x@,
            r: r@,
            z: z@,
            p: p@,
            ap: ap@,
            az: az@,
            gamma,
        }));
        iters = iters + 1;
        final_res = norm2(r.as_slice()).over(bnorm);
        converged = tol.ge(final_res);
        if converged {
            break ;
        }
        let gamma_new = dotu(z.as_slice(), az.as_slice());
        if gamma.is_zero() {
            break ;
        }
        let beta = gamma_new.times(gamma.recip());
        p = sum_multiple(z.as_slice(), beta, p.as_slice());
        ap = sum_multiple(az.as_slice(), beta, ap.as_slice());
        gamma = gamma_new;
    }
    Ok(KrylovResult { x, iters, converged, final_res })
}

} // verus!
