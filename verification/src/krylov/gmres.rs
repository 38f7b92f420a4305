//! Flexible restarted minimal residuals for one right-hand side.

use crate::error::RslabError;
use crate::flat::{norm2, norm_of, part_of};
use crate::krylov::cg::{relative, solved_at_once, KrylovResult, Outcome};
use crate::krylov::operator::{LinearOperator, Preconditioner};
use crate::krylov::sweep::{
    combine, combined, grown, least_squares, opened, promised, views, Arnoldi, Sweep,
};
use crate::krylov::vectors::{difference, minus_vector};
use crate::matrix_ops::{zero_vector, zeros};
use crate::scalar::{Real, Scalar};
use vstd::prelude::*;

verus! {

/// `b - A x`.
pub open spec fn residual<T: Scalar, A: LinearOperator<T>>(op: A, b: Seq<T>, x: Seq<T>) -> Seq<T> {
    minus_vector(b, op.image(x))
}

/// The true residual is small enough.
pub open spec fn is_solved<T: Scalar, A: LinearOperator<T>>(
    op: A,
    b: Seq<T>,
    tol: T::Real,
    x: Seq<T>,
) -> bool {
    tol.ge_spec(relative(residual(op, b, x), b))
}

/// The promised residual is small enough.
pub open spec fn looks_solved<T: Scalar>(b: Seq<T>, tol: T::Real, s: Sweep<T>) -> bool {
    tol.ge_spec(promised(s).over_spec(norm_of(b)))
}

/// The sweep from `x` after `j` steps, with the answers of the preconditioner.
pub open spec fn sweep_at<T: Scalar, A: LinearOperator<T>>(
    op: A,
    b: Seq<T>,
    x: Seq<T>,
    zs: Seq<Seq<T>>,
    j: int,
) -> Sweep<T>
    decreases j,
{
    if j <= 0 {
        let r = residual(op, b, x);
        opened(r, norm_of(r))
    } else {
        grown(sweep_at(op, b, x, zs, j - 1), op.image(zs[j - 1]))
    }
}

/// Answer `j` may come back for basis vector `j`.
pub open spec fn answered<T: Scalar, A: LinearOperator<T>, M: Preconditioner<T>>(
    op: A,
    m: M,
    b: Seq<T>,
    x: Seq<T>,
    zs: Seq<Seq<T>>,
    j: int,
) -> bool {
    m.gives(sweep_at(op, b, x, zs, j).v[j], Ok(zs[j]))
}

/// The preconditioner answered so, and no step before the last looked solved.
pub open spec fn cycle_trace<T: Scalar, A: LinearOperator<T>, M: Preconditioner<T>>(
    op: A,
    m: M,
    b: Seq<T>,
    tol: T::Real,
    limit: int,
    x: Seq<T>,
    zs: Seq<Seq<T>>,
) -> bool {
    &&& zs.len() <= limit
    &&& forall|j: int| 0 <= j < zs.len() ==> #[trigger] answered(op, m, b, x, zs, j)
    &&& forall|j: int|
        0 < j < zs.len() ==> !looks_solved(b, tol, #[trigger] sweep_at(op, b, x, zs, j))
}

/// A whole cycle from `x`: it ends where it looks solved, or at the limit.
#[verifier::opaque]
pub open spec fn cycle_ends<T: Scalar, A: LinearOperator<T>, M: Preconditioner<T>>(
    op: A,
    m: M,
    b: Seq<T>,
    tol: T::Real,
    limit: int,
    x: Seq<T>,
    zs: Seq<Seq<T>>,
) -> bool {
    &&& zs.len() > 0
    &&& cycle_trace(op, m, b, tol, limit, x, zs)
    &&& zs.len() == limit || looks_solved(b, tol, sweep_at(op, b, x, zs, zs.len() as int))
}

/// A cycle from `x` in which the next question is refused with `e`.
pub open spec fn cycle_stops<T: Scalar, A: LinearOperator<T>, M: Preconditioner<T>>(
    op: A,
    m: M,
    b: Seq<T>,
    tol: T::Real,
    limit: int,
    x: Seq<T>,
    zs: Seq<Seq<T>>,
    e: RslabError,
) -> bool {
    let j = zs.len() as int;
    &&& j < limit
    &&& cycle_trace(op, m, b, tol, limit, x, zs)
    &&& j > 0 ==> !looks_solved(b, tol, sweep_at(op, b, x, zs, j))
    &&& m.gives(sweep_at(op, b, x, zs, j).v[j], Err(e))
}

/// The iterate after a cycle: the answers combined by the least-squares solution.
pub open spec fn cycle_result<T: Scalar, A: LinearOperator<T>>(
    op: A,
    b: Seq<T>,
    x: Seq<T>,
    zs: Seq<Seq<T>>,
) -> Seq<T> {
    let y = least_squares(sweep_at(op, b, x, zs, zs.len() as int));
    combined(x, zs, y, y.len() as int)
}

/// The iterate after the first `i` cycles.
pub open spec fn iterate<T: Scalar, A: LinearOperator<T>>(
    op: A,
    b: Seq<T>,
    x0: Seq<T>,
    runs: Seq<Seq<Seq<T>>>,
    i: int,
) -> Seq<T>
    decreases i,
{
    if i <= 0 {
        x0
    } else {
        cycle_result(op, b, iterate(op, b, x0, runs, i - 1), runs[i - 1])
    }
}

/// Steps of the first `i` cycles.
pub open spec fn steps_upto<T>(runs: Seq<Seq<Seq<T>>>, i: int) -> int
    decreases i,
{
    if i <= 0 {
        0
    } else {
        steps_upto(runs, i - 1) + runs[i - 1].len()
    }
}

/// Steps that a cycle may take: the restart length, at least one, and what is
/// left of the budget.
pub open spec fn cycle_limit(restart: int, room: int) -> int {
    let m = if restart < 1 {
        1
    } else {
        restart
    };
    if m < room {
        m
    } else {
        room
    }
}

/// Cycle `i` is begun: there is room, and the iterate does not solve yet.
pub open spec fn cycle_begins<T: Scalar, A: LinearOperator<T>>(
    op: A,
    b: Seq<T>,
    tol: T::Real,
    max_iter: int,
    x0: Seq<T>,
    runs: Seq<Seq<Seq<T>>>,
    i: int,
) -> bool {
    steps_upto(runs, i) < max_iter && !is_solved(op, b, tol, iterate(op, b, x0, runs, i))
}

/// Cycle `i` is begun and goes to its end.
pub open spec fn cycle_fits<T: Scalar, A: LinearOperator<T>, M: Preconditioner<T>>(
    op: A,
    m: M,
    b: Seq<T>,
    tol: T::Real,
    max_iter: int,
    restart: int,
    x0: Seq<T>,
    runs: Seq<Seq<Seq<T>>>,
    i: int,
) -> bool {
    cycle_begins(op, b, tol, max_iter, x0, runs, i) && cycle_ends(
        op,
        m,
        b,
        tol,
        cycle_limit(restart, max_iter - steps_upto(runs, i)),
        iterate(op, b, x0, runs, i),
        runs[i],
    )
}

/// The cycles of a run.
pub open spec fn run_trace<T: Scalar, A: LinearOperator<T>, M: Preconditioner<T>>(
    op: A,
    m: M,
    b: Seq<T>,
    tol: T::Real,
    max_iter: int,
    restart: int,
    x0: Seq<T>,
    runs: Seq<Seq<Seq<T>>>,
) -> bool {
    forall|i: int|
        0 <= i < runs.len() ==> #[trigger] cycle_fits(
            op,
            m,
            b,
            tol,
            max_iter,
            restart,
            x0,
            runs,
            i,
        )
}

/// The run ends in `out`; the residual that is reported is the true one.
pub open spec fn run_ends<T: Scalar, A: LinearOperator<T>, M: Preconditioner<T>>(
    op: A,
    m: M,
    b: Seq<T>,
    tol: T::Real,
    max_iter: int,
    restart: int,
    x0: Seq<T>,
    runs: Seq<Seq<Seq<T>>>,
    out: Outcome<T>,
) -> bool {
    let k = runs.len() as int;
    let x = iterate(op, b, x0, runs, k);
    &&& run_trace(op, m, b, tol, max_iter, restart, x0, runs)
    &&& !cycle_begins(op, b, tol, max_iter, x0, runs, k)
    &&& out == (Outcome {
        x,
        iters: steps_upto(runs, k),
        converged: is_solved(op, b, tol, x),
        final_res: relative(residual(op, b, x), b),
    })
}

/// Some run ends in `out`.
pub open spec fn gmres_made<T: Scalar, A: LinearOperator<T>, M: Preconditioner<T>>(
    op: A,
    m: M,
    b: Seq<T>,
    tol: T::Real,
    max_iter: int,
    restart: int,
    x0: Seq<T>,
    out: Outcome<T>,
) -> bool {
    exists|runs: Seq<Seq<Seq<T>>>| #[trigger]
        run_ends(op, m, b, tol, max_iter, restart, x0, runs, out)
}

/// After these cycles and answers the preconditioner refuses with `e`.
pub open spec fn run_stops<T: Scalar, A: LinearOperator<T>, M: Preconditioner<T>>(
    op: A,
    m: M,
    b: Seq<T>,
    tol: T::Real,
    max_iter: int,
    restart: int,
    x0: Seq<T>,
    runs: Seq<Seq<Seq<T>>>,
    zs: Seq<Seq<T>>,
    e: RslabError,
) -> bool {
    let k = runs.len() as int;
    &&& run_trace(op, m, b, tol, max_iter, restart, x0, runs)
    &&& cycle_begins(op, b, tol, max_iter, x0, runs, k)
    &&& cycle_stops(
        op,
        m,
        b,
        tol,
        cycle_limit(restart, max_iter - steps_upto(runs, k)),
        iterate(op, b, x0, runs, k),
        zs,
        e,
    )
}

/// The preconditioner refuses with `e` in some run.
pub open spec fn gmres_refused<T: Scalar, A: LinearOperator<T>, M: Preconditioner<T>>(
    op: A,
    m: M,
    b: Seq<T>,
    tol: T::Real,
    max_iter: int,
    restart: int,
    x0: Seq<T>,
    e: RslabError,
) -> bool {
    exists|runs: Seq<Seq<Seq<T>>>, zs: Seq<Seq<T>>| #[trigger]
        run_stops(op, m, b, tol, max_iter, restart, x0, runs, zs, e)
}

/// The first iterate: the guess, or zero.
pub open spec fn first_iterate<T: Scalar>(x0: Option<&[T]>, n: int) -> Seq<T> {
    match x0 {
        Some(g) => g@,
        None => zeros(n),
    }
}

proof fn sweep_kept<T: Scalar, A: LinearOperator<T>>(
    op: A,
    b: Seq<T>,
    x: Seq<T>,
    zs: Seq<Seq<T>>,
    z: Seq<T>,
    j: int,
)
    requires
        j <= zs.len(),
    ensures
        sweep_at(op, b, x, zs.push(z), j) == sweep_at(op, b, x, zs, j),
    decreases j,
{
    if j > 0 {
        sweep_kept(op, b, x, zs, z, j - 1);
    }
}

proof fn trace_grows<T: Scalar, A: LinearOperator<T>, M: Preconditioner<T>>(
    op: A,
    m: M,
    b: Seq<T>,
    tol: T::Real,
    limit: int,
    x: Seq<T>,
    zs: Seq<Seq<T>>,
    z: Seq<T>,
)
    requires
        zs.len() < limit,
        cycle_trace(op, m, b, tol, limit, x, zs),
        zs.len() > 0 ==> !looks_solved(b, tol, sweep_at(op, b, x, zs, zs.len() as int)),
        m.gives(sweep_at(op, b, x, zs, zs.len() as int).v[zs.len() as int], Ok(z)),
    ensures
        cycle_trace(op, m, b, tol, limit, x, zs.push(z)),
        sweep_at(op, b, x, zs.push(z), (zs.len() + 1) as int) == grown(
            sweep_at(op, b, x, zs, zs.len() as int),
            op.image(z),
        ),
{
    let ws = zs.push(z);
    assert forall|j: int| 0 <= j < ws.len() implies #[trigger] answered(op, m, b, x, ws, j) by {
        sweep_kept(op, b, x, zs, z, j);
        if j < zs.len() {
            assert(answered(op, m, b, x, zs, j));
            assert(ws[j] == zs[j]);
        }
    }
    assert forall|j: int| 0 < j < ws.len() implies !looks_solved(
        b,
        tol,
        #[trigger] sweep_at(op, b, x, ws, j),
    ) by {
        sweep_kept(op, b, x, zs, z, j);
    }
    sweep_kept(op, b, x, zs, z, zs.len() as int);
}

proof fn run_kept<T: Scalar, A: LinearOperator<T>>(
    op: A,
    b: Seq<T>,
    x0: Seq<T>,
    runs: Seq<Seq<Seq<T>>>,
    zs: Seq<Seq<T>>,
    i: int,
)
    requires
        i <= runs.len(),
    ensures
        iterate(op, b, x0, runs.push(zs), i) == iterate(op, b, x0, runs, i),
        steps_upto(runs.push(zs), i) == steps_upto(runs, i),
    decreases i,
{
    if i > 0 {
        run_kept(op, b, x0, runs, zs, i - 1);
    }
}

proof fn run_grows<T: Scalar, A: LinearOperator<T>, M: Preconditioner<T>>(
    op: A,
    m: M,
    b: Seq<T>,
    tol: T::Real,
    max_iter: int,
    restart: int,
    x0: Seq<T>,
    runs: Seq<Seq<Seq<T>>>,
    zs: Seq<Seq<T>>,
)
    requires
        run_trace(op, m, b, tol, max_iter, restart, x0, runs),
        cycle_begins(op, b, tol, max_iter, x0, runs, runs.len() as int),
        cycle_ends(
            op,
            m,
            b,
            tol,
            cycle_limit(restart, max_iter - steps_upto(runs, runs.len() as int)),
            iterate(op, b, x0, runs, runs.len() as int),
            zs,
        ),
    ensures
        run_trace(op, m, b, tol, max_iter, restart, x0, runs.push(zs)),
        iterate(op, b, x0, runs.push(zs), (runs.len() + 1) as int) == cycle_result(
            op,
            b,
            iterate(op, b, x0, runs, runs.len() as int),
            zs,
        ),
        steps_upto(runs.push(zs), (runs.len() + 1) as int) == steps_upto(runs, runs.len() as int)
            + zs.len(),
{
    let ws = runs.push(zs);
    assert forall|i: int| 0 <= i < ws.len() implies #[trigger] cycle_fits(
        op,
        m,
        b,
        tol,
        max_iter,
        restart,
        x0,
        ws,
        i,
    ) by {
        run_kept(op, b, x0, runs, zs, i);
        if i < runs.len() {
            assert(cycle_fits(op, m, b, tol, max_iter, restart, x0, runs, i));
            assert(ws[i] == runs[i]);
        }
    }
    run_kept(op, b, x0, runs, zs, runs.len() as int);
}

/// One cycle from `x`, whose residual is `r`.
fn cycle<T: Scalar, A: LinearOperator<T>, M: Preconditioner<T>>(
    op: &A,
    b: &[T],
    precond: &M,
    tol: T::Real,
    limit: usize,
    x: &mut Vec<T>,
    r: Vec<T>,
) -> (res: Result<(usize, Ghost<Seq<Seq<T>>>), RslabError>)
    requires
        op.ready(),
        precond.ready(),
        limit > 0,
        b@.len() == op.dim_spec(),
        old(x)@.len() == op.dim_spec(),
        r@ == residual(*op, b@, old(x)@),
    ensures
        final(x)@.len() == op.dim_spec(),
        match res {
            Ok(k) => cycle_ends(*op, *precond, b@, tol, limit as int, old(x)@, k.1@) && k.0
                == k.1@.len() && 0 < k.0 <= limit && final(x)@ == cycle_result(*op, b@, old(x)@, k.1@),
            Err(e) => exists|zs: Seq<Seq<T>>| #[trigger]
                cycle_stops(*op, *precond, b@, tol, limit as int, old(x)@, zs, e),
        },
{
    let ghost x0 = x@;
    let n: usize = x.len();
    let bnorm = norm2(b);
    let beta = norm2(r.as_slice());
    let mut s = Arnoldi::start(r.as_slice(), beta);
    let mut zb: Vec<Vec<T>> = Vec::new();
    assert(views(zb@) =~= Seq::<Seq<T>>::empty());
    let mut j: usize = 0;
    let mut done = false;
    while j < limit && !done
        invariant
            op.ready(),
            precond.ready(),
            n == op.dim_spec(),
            b@.len() == n,
            bnorm == norm_of(b@),
            x@ == x0,
            x@ == old(x)@,
            x@.len() == n,
            j <= limit,
            limit > 0,
            done ==> j > 0,
            zb@.len() == j,
            forall|i: int| 0 <= i < j ==> (#[trigger] zb@[i])@.len() == n,
            s.wf(n as int),
            s.h@.len() == j,
            cycle_trace(*op, *precond, b@, tol, limit as int, x0, views(zb@)),
            s@ == sweep_at(*op, b@, x0, views(zb@), j as int),
            j > 0 ==> done == looks_solved(b@, tol, s@),
        decreases limit - j,
    {
        let ghost zs = views(zb@);
        let mut z = zero_vector::<T>(n);
        assert(s@.v[j as int] == s.v@[j as int]@);
        match precond.apply(s.v[j].as_slice(), &mut z) {
            Ok(()) => {},
            Err(e) => {
                assert(cycle_stops(*op, *precond, b@, tol, limit as int, x0, zs, e));
                return Err(e);
            },
        }
        let mut w = zero_vector::<T>(n);
        op.apply(z.as_slice(), &mut w);
        s.grow(w);
        proof {
            trace_grows(*op, *precond, b@, tol, limit as int, x0, zs, z@);
        }
        let ghost za = z@;
        zb.push(z);
        assert(views(zb@) =~= zs.push(za));
        j = j + 1;
        done = tol.ge(s.estimate().over(bnorm));
    }
    proof {
        reveal(cycle_ends);
    }
    let y = s.solve(Ghost(n as int));
    combine(x, &zb, &y);
    Ok((j, Ghost(views(zb@))))
}

/// Flexible right-preconditioned restarted minimal residuals from the guess
/// `x0`, or from zero. The preconditioner may vary between steps: the update is
/// built from its own answers. Convergence is decided by the true residual.
pub fn gmres<T: Scalar, A: LinearOperator<T>, M: Preconditioner<T>>(
    op: &A,
    b: &[T],
    precond: &M,
    tol: T::Real,
    max_iter: usize,
    restart: usize,
    x0: Option<&[T]>,
) -> (res: Result<KrylovResult<T>, RslabError>)
    requires
        op.ready(),
        precond.ready(),
    ensures
        b@.len() != op.dim_spec() ==> res == Err::<KrylovResult<T>, RslabError>(
            RslabError::DimensionMismatch {
                expected: op.dim_spec() as usize,
                got: b@.len() as usize,
            },
        ),
        b@.len() == op.dim_spec() && x0 is Some && x0->0@.len() != op.dim_spec() ==> res == Err::<
            KrylovResult<T>,
            RslabError,
        >(
            RslabError::DimensionMismatch {
                expected: op.dim_spec() as usize,
                got: x0->0@.len() as usize,
            },
        ),
        b@.len() == op.dim_spec() && first_iterate(x0, op.dim_spec()).len() == op.dim_spec()
            && norm_of(b@).is_zero_spec() ==> res is Ok && res->Ok_0.outcome() == solved_at_once::<
            T,
        >(op.dim_spec()),
        b@.len() == op.dim_spec() && first_iterate(x0, op.dim_spec()).len() == op.dim_spec()
            && !norm_of(b@).is_zero_spec() ==> match res {
            Ok(k) => gmres_made(
                *op,
                *precond,
                b@,
                tol,
                max_iter as int,
                restart as int,
                first_iterate(x0, op.dim_spec()),
                k.outcome(),
            ),
            Err(e) => gmres_refused(
                *op,
                *precond,
                b@,
                tol,
                max_iter as int,
                restart as int,
                first_iterate(x0, op.dim_spec()),
                e,
            ),
        },
{
    let n: usize = op.n();
    if b.len() != n {
        return Err(RslabError::DimensionMismatch { expected: n, got: b.len() });
    }
    let m: usize = if restart < 1 {
        1
    } else {
        restart
    };
    let bnorm = norm2(b);
    let mut x: Vec<T> = match x0 {
        Some(g) => {
            if g.len() != n {
                return Err(RslabError::DimensionMismatch { expected: n, got: g.len() });
            }
            part_of(g, 0, n)
        },
        None => zero_vector::<T>(n),
    };
    let ghost start = first_iterate(x0, n as int);
    assert(x@ =~= start);
    if bnorm.is_zero() {
        return Ok(
            KrylovResult {
                x: zero_vector::<T>(n),
                iters: 0,
                converged: true,
                final_res: <T::Real as Real>::zero(),
            },
        );
    }
    let mut total: usize = 0;
    let mut ax = zero_vector::<T>(n);
    let ghost mut runs: Seq<Seq<Seq<T>>> = Seq::empty();
    while total < max_iter
        invariant_except_break
            run_trace(*op, *precond, b@, tol, max_iter as int, restart as int, start, runs),
        invariant
            op.ready(),
            precond.ready(),
            n == op.dim_spec(),
            b@.len() == n,
            x@.len() == n,
            ax@.len() == n,
            bnorm == norm_of(b@),
            !bnorm.is_zero_spec(),
            start == first_iterate(x0, n as int),
            start.len() == n,
            m == (if restart < 1 {
                1
            } else {
                restart
            }),
            total <= max_iter,
            x@ == iterate(*op, b@, start, runs, runs.len() as int),
            total == steps_upto(runs, runs.len() as int),
        ensures
            run_trace(*op, *precond, b@, tol, max_iter as int, restart as int, start, runs),
            !cycle_begins(*op, b@, tol, max_iter as int, start, runs, runs.len() as int),
        decreases max_iter - total,
    {
        op.apply(x.as_slice(), &mut ax);
        let r = difference(b, ax.as_slice());
        let beta = norm2(r.as_slice());
        if tol.ge(beta.over(bnorm)) {
            break ;
        }
        let limit: usize = if m < max_iter - total {
            m
        } else {
            max_iter - total
        };
        let ghost xs = x@;
        match cycle(op, b, precond, tol, limit, &mut x, r) {
            Ok((steps, got)) => {
                proof {
                    run_grows(
                        *op,
                        *precond,
                        b@,
                        tol,
                        max_iter as int,
                        restart as int,
                        start,
                        runs,
                        got@,
                    );
                    runs = runs.push(got@);
                }
                total = total + steps;
            },
            Err(e) => {
                proof {
                    let zs = choose|zs: Seq<Seq<T>>| #[trigger]
                        cycle_stops(*op, *precond, b@, tol, limit as int, xs, zs, e);
                    assert(run_stops(
                        *op,
                        *precond,
                        b@,
                        tol,
                        max_iter as int,
                        restart as int,
                        start,
                        runs,
                        zs,
                        e,
                    ));
                }
                return Err(e);
            },
        }
    }
    op.apply(x.as_slice(), &mut ax);
    let r = difference(b, ax.as_slice());
    let final_res = norm2(r.as_slice()).over(bnorm);
    let converged = tol.ge(final_res);
    let out = KrylovResult { x, iters: total, converged, final_res };
    assert(run_ends(
        *op,
        *precond,
        b@,
        tol,
        max_iter as int,
        restart as int,
        start,
        runs,
        out.outcome(),
    ));
    Ok(out)
}

} // verus!
