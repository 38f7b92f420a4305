//! What the iterations promise.

use crate::algebra::{cancel, neg_plus, neg_times, sum_plus, sum_scale, sum_zero, times_zero};
use crate::flat::norm_of;
use crate::klu::solver::KluSolver;
use crate::krylov::cg::{
    cg_asked, cg_ends, cg_forward, cg_goes_on, cg_replies, cg_state, cg_trace, cocg_made, relative, Outcome,
};
use crate::krylov::cr::{
    cocr_made, cr_asked, cr_ends, cr_forward, cr_goes_on, cr_replies, cr_state, cr_trace,
};
use crate::krylov::gmres::{
    cycle_ends, cycle_fits, cycle_limit, cycle_trace, gmres_made, is_solved, iterate, looks_solved,
    residual, run_ends, run_trace, steps_upto, sweep_at,
};
use crate::krylov::operator::{LinearOperator, NoPreconditioner, Preconditioner};
use crate::krylov::sweep::{grown, rotation};
use crate::krylov::vectors::{dotu_of, minus_multiple, plus_multiple};
use crate::matrix_ops::{product_is_sum, product_len, zeros};
use crate::scalar::{neg, Field, Real, Scalar};
use crate::sparse::GeneralCsc;
use vstd::prelude::*;

verus! {

/// The operator is linear.
pub open spec fn linear<T: Scalar, A: LinearOperator<T>>(op: A) -> bool {
    &&& forall|x: Seq<T>|
        x.len() == op.dim_spec() ==> (#[trigger] op.image(x)).len() == op.dim_spec()
    &&& op.image(zeros(op.dim_spec())) == zeros::<T>(op.dim_spec())
    &&& forall|x: Seq<T>, a: T, y: Seq<T>|
        x.len() == op.dim_spec() && y.len() == op.dim_spec() ==> #[trigger] op.image(
            plus_multiple(x, a, y),
        ) == plus_multiple(op.image(x), a, op.image(y))
}

/// `a - b` is `a + (0 - b)`.
pub(crate) proof fn minus_as_sum<T: Field>(a: T, b: T)
    ensures
        a.minus_spec(b) == a.plus_spec(neg(b)),
{
    T::minus_plus(a, b);
    T::plus_assoc(a, neg(b), b);
    neg_plus(b);
    T::plus_zero(a);
    cancel(a.minus_spec(b), a.plus_spec(neg(b)), b);
}

/// `b - (c + d)` is `(b - c) - d`.
pub(crate) proof fn minus_sum<T: Field>(b: T, c: T, d: T)
    ensures
        b.minus_spec(c.plus_spec(d)) == b.minus_spec(c).minus_spec(d),
{
    let x = b.minus_spec(c).minus_spec(d);
    let y = b.minus_spec(c.plus_spec(d));
    T::plus_comm(c, d);
    T::plus_assoc(x, d, c);
    T::minus_plus(b.minus_spec(c), d);
    T::minus_plus(b, c);
    T::minus_plus(b, c.plus_spec(d));
    cancel(y, x, c.plus_spec(d));
}

/// `(0 - a) * y` is `0 - a * y`.
proof fn neg_product<T: Field>(a: T, y: T)
    ensures
        neg(a).times_spec(y) == neg(a.times_spec(y)),
{
    neg_times(a, y);
    neg_plus(a.times_spec(y));
    cancel(neg(a).times_spec(y), neg(a.times_spec(y)), a.times_spec(y));
}

/// `x - a y` is `x + (0 - a) y`.
pub(crate) proof fn minus_is_plus<T: Field>(x: Seq<T>, a: T, y: Seq<T>)
    ensures
        minus_multiple(x, a, y) == plus_multiple(x, neg(a), y),
{
    assert forall|i: int| 0 <= i < x.len() implies #[trigger] minus_multiple(x, a, y)[i]
        == plus_multiple(x, neg(a), y)[i] by {
        neg_product(a, y[i]);
        minus_as_sum(x[i], a.times_spec(y[i]));
    }
    assert(minus_multiple(x, a, y) =~= plus_multiple(x, neg(a), y));
}

/// A step along `p` takes its image off the residual.
proof fn residual_step<T: Field, A: LinearOperator<T>>(
    op: A,
    b: Seq<T>,
    x: Seq<T>,
    alpha: T,
    p: Seq<T>,
)
    requires
        linear(op),
        b.len() == op.dim_spec(),
        x.len() == op.dim_spec(),
        p.len() == op.dim_spec(),
    ensures
        residual(op, b, plus_multiple(x, alpha, p)) == minus_multiple(
            residual(op, b, x),
            alpha,
            op.image(p),
        ),
{
    let r = residual(op, b, x);
    let q = op.image(p);
    assert(op.image(plus_multiple(x, alpha, p)) == plus_multiple(op.image(x), alpha, q));
    assert forall|i: int| 0 <= i < b.len() implies #[trigger] residual(
        op,
        b,
        plus_multiple(x, alpha, p),
    )[i] == minus_multiple(r, alpha, q)[i] by {
        minus_sum(b[i], op.image(x)[i], alpha.times_spec(q[i]));
    }
    assert(residual(op, b, plus_multiple(x, alpha, p)) =~= minus_multiple(r, alpha, q));
}

/// Before the first step the residual is the right-hand side.
pub(crate) proof fn residual_of_zero<T: Field, A: LinearOperator<T>>(op: A, b: Seq<T>)
    requires
        linear(op),
        b.len() == op.dim_spec(),
        op.dim_spec() >= 0,
    ensures
        residual(op, b, zeros::<T>(op.dim_spec())) == b,
{
    assert forall|i: int| 0 <= i < b.len() implies #[trigger] residual(
        op,
        b,
        zeros::<T>(op.dim_spec()),
    )[i] == b[i] by {
        minus_as_sum(b[i], T::zero_spec());
        neg_plus(T::zero_spec());
        T::plus_zero(neg(T::zero_spec()));
        T::plus_zero(b[i]);
    }
    assert(residual(op, b, zeros::<T>(op.dim_spec())) =~= b);
}

/// The residual of the conjugate-gradient recurrence is the true one.
pub(crate) proof fn cg_residual<T: Field, A: LinearOperator<T>>(op: A, b: Seq<T>, zs: Seq<Seq<T>>, k: int)
    requires
        linear(op),
        op.dim_spec() >= 0,
        b.len() == op.dim_spec(),
        0 <= k < zs.len(),
        forall|j: int| 0 <= j < zs.len() ==> (#[trigger] zs[j]).len() == op.dim_spec(),
    ensures
        cg_state(op, b, zs, k).x.len() == op.dim_spec(),
        cg_state(op, b, zs, k).p.len() == op.dim_spec(),
        cg_state(op, b, zs, k).r == residual(op, b, cg_state(op, b, zs, k).x),
        cg_forward(op, cg_state(op, b, zs, k)).r == residual(
            op,
            b,
            cg_forward(op, cg_state(op, b, zs, k)).x,
        ),
    decreases k,
{
    let s = cg_state(op, b, zs, k);
    assert(zs[k].len() == op.dim_spec());
    if k == 0 {
        residual_of_zero(op, b);
    } else {
        cg_residual(op, b, zs, k - 1);
    }
    let alpha = s.rho.times_spec(crate::krylov::cg::cg_curvature(op, s).recip_spec());
    residual_step(op, b, s.x, alpha, s.p);
}

/// The conjugate-gradient iteration is converged exactly where the residual
/// that it reports reaches the tolerance, and keeps to its budget.
pub proof fn cocg_converges_by_residual<T: Scalar, A: LinearOperator<T>, M: Preconditioner<T>>(
    op: A,
    m: M,
    b: Seq<T>,
    tol: T::Real,
    max_iter: int,
    out: Outcome<T>,
)
    requires
        max_iter >= 0,
        cocg_made(op, m, b, tol, max_iter, out),
    ensures
        out.converged == tol.ge_spec(out.final_res),
        0 <= out.iters <= max_iter,
{
    let zs = choose|zs: Seq<Seq<T>>| #[trigger] cg_ends(op, m, b, tol, max_iter, zs, out);
    if zs.len() > 1 {
        assert(cg_goes_on(op, b, tol, max_iter, zs, zs.len() - 2));
    }
}

/// The conjugate-gradient iteration stops short of its budget and its tolerance
/// only where it cannot go on: the direction `p` has no curvature `p^T A p`, or the
/// residual has no product with its answer.
pub proof fn cocg_stops_for_a_reason<T: Scalar, A: LinearOperator<T>, M: Preconditioner<T>>(
    op: A,
    m: M,
    b: Seq<T>,
    tol: T::Real,
    max_iter: int,
    out: Outcome<T>,
) -> (zs: Seq<Seq<T>>)
    requires
        max_iter >= 0,
        cocg_made(op, m, b, tol, max_iter, out),
    ensures
        cg_ends(op, m, b, tol, max_iter, zs, out),
        zs.len() - 1 <= out.iters <= zs.len(),
        out.iters < max_iter && !tol.ge_spec(out.final_res) ==> {
            let s = cg_state(op, b, zs, zs.len() - 1);
            ||| dotu_of(s.p, op.image(s.p)).is_zero_spec()
            ||| dotu_of(s.r, zs[zs.len() - 1]).is_zero_spec()
        },
{
    let zs = choose|zs: Seq<Seq<T>>| #[trigger] cg_ends(op, m, b, tol, max_iter, zs, out);
    let k = zs.len() - 1;
    assert(cg_state(op, b, zs, k).rho == dotu_of(cg_state(op, b, zs, k).r, zs[k]));
    if k > 0 {
        assert(cg_goes_on(op, b, tol, max_iter, zs, k - 1));
    }
    zs
}

/// In exact arithmetic the residual that the conjugate-gradient iteration
/// reports is the true one.
pub proof fn cocg_reports_true_residual<T: Field, A: LinearOperator<T>, M: Preconditioner<T>>(
    op: A,
    m: M,
    b: Seq<T>,
    tol: T::Real,
    max_iter: int,
    out: Outcome<T>,
)
    requires
        linear(op),
        b.len() == op.dim_spec(),
        cocg_made(op, m, b, tol, max_iter, out),
    ensures
        out.final_res == relative(residual(op, b, out.x), b),
        out.final_res == norm_of(residual(op, b, out.x)).over_spec(norm_of(b)),
{
    let zs = choose|zs: Seq<Seq<T>>| #[trigger] cg_ends(op, m, b, tol, max_iter, zs, out);
    cg_residual(op, b, zs, zs.len() - 1);
}

/// The vectors of the conjugate-residual recurrence belong together.
pub(crate) proof fn cr_residual<T: Field, A: LinearOperator<T>>(op: A, b: Seq<T>, zs: Seq<Seq<T>>, k: int)
    requires
        linear(op),
        op.dim_spec() >= 0,
        b.len() == op.dim_spec(),
        0 <= k < zs.len(),
        forall|j: int| 0 <= j < zs.len() ==> (#[trigger] zs[j]).len() == op.dim_spec(),
    ensures
        ({
            let s = cr_state(op, b, zs, k);
            &&& s.x.len() == op.dim_spec()
            &&& s.z.len() == op.dim_spec()
            &&& s.p.len() == op.dim_spec()
            &&& s.ap == op.image(s.p)
            &&& s.az == op.image(s.z)
            &&& s.r == residual(op, b, s.x)
        }),
        k + 1 < zs.len() ==> {
            let f = cr_forward(op, cr_state(op, b, zs, k), zs[k + 1]);
            &&& f.r == residual(op, b, f.x)
            &&& f.x.len() == op.dim_spec()
            &&& f.z.len() == op.dim_spec()
            &&& f.az == op.image(f.z)
        },
    decreases k,
{
    let s = cr_state(op, b, zs, k);
    assert(zs[k].len() == op.dim_spec());
    if k == 0 {
        residual_of_zero(op, b);
    } else {
        cr_residual(op, b, zs, k - 1);
        let f = cr_forward(op, cr_state(op, b, zs, k - 1), zs[k]);
        assert(s == crate::krylov::cr::cr_turn(f));
        let gamma = crate::krylov::vectors::dotu_of(f.z, f.az);
        let beta = gamma.times_spec(f.gamma.recip_spec());
        assert(op.image(plus_multiple(f.z, beta, f.p)) == plus_multiple(
            op.image(f.z),
            beta,
            op.image(f.p),
        ));
    }
    if k + 1 < zs.len() {
        let w = zs[k + 1];
        assert(w.len() == op.dim_spec());
        let alpha = s.gamma.times_spec(
            crate::krylov::vectors::dotu_of(s.ap, w).recip_spec(),
        );
        residual_step(op, b, s.x, alpha, s.p);
        minus_is_plus(s.z, alpha, w);
        minus_is_plus(s.az, alpha, op.image(w));
        assert(op.image(plus_multiple(s.z, neg(alpha), w)) == plus_multiple(
            op.image(s.z),
            neg(alpha),
            op.image(w),
        ));
    }
}

/// The conjugate-residual iteration is converged exactly where the residual
/// that it reports reaches the tolerance, and keeps to its budget.
pub proof fn cocr_converges_by_residual<T: Scalar, A: LinearOperator<T>, M: Preconditioner<T>>(
    op: A,
    m: M,
    b: Seq<T>,
    tol: T::Real,
    max_iter: int,
    out: Outcome<T>,
)
    requires
        max_iter >= 0,
        cocr_made(op, m, b, tol, max_iter, out),
    ensures
        out.converged == tol.ge_spec(out.final_res),
        0 <= out.iters <= max_iter,
{
    let zs = choose|zs: Seq<Seq<T>>| #[trigger] cr_ends(op, m, b, tol, max_iter, zs, out);
}

/// The conjugate-residual iteration stops short of its budget and its tolerance
/// only where it cannot go on: `A p` has no product with its answer, or the answer
/// `z` of the residual none with its image.
pub proof fn cocr_stops_for_a_reason<T: Scalar, A: LinearOperator<T>, M: Preconditioner<T>>(
    op: A,
    m: M,
    b: Seq<T>,
    tol: T::Real,
    max_iter: int,
    out: Outcome<T>,
) -> (zs: Seq<Seq<T>>)
    requires
        max_iter >= 0,
        cocr_made(op, m, b, tol, max_iter, out),
    ensures
        cr_ends(op, m, b, tol, max_iter, zs, out),
        zs.len() - 2 <= out.iters <= zs.len() - 1,
        out.iters < max_iter && !tol.ge_spec(out.final_res) ==> {
            let k = zs.len() - 2;
            let s = cr_state(op, b, zs, k);
            ||| k >= 0 && dotu_of(s.ap, zs[k + 1]).is_zero_spec()
            ||| k >= 0 && dotu_of(s.z, s.az).is_zero_spec()
        },
{
    let zs = choose|zs: Seq<Seq<T>>| #[trigger] cr_ends(op, m, b, tol, max_iter, zs, out);
    let k = zs.len() - 2;
    if k >= 0 {
        assert(cr_state(op, b, zs, k).gamma == dotu_of(
            cr_state(op, b, zs, k).z,
            cr_state(op, b, zs, k).az,
        ));
    }
    zs
}

/// In exact arithmetic the residual that the conjugate-residual iteration
/// reports is the true one.
pub proof fn cocr_reports_true_residual<T: Field, A: LinearOperator<T>, M: Preconditioner<T>>(
    op: A,
    m: M,
    b: Seq<T>,
    tol: T::Real,
    max_iter: int,
    out: Outcome<T>,
)
    requires
        linear(op),
        b.len() == op.dim_spec(),
        cocr_made(op, m, b, tol, max_iter, out),
    ensures
        out.final_res == relative(residual(op, b, out.x), b),
        out.final_res == norm_of(residual(op, b, out.x)).over_spec(norm_of(b)),
{
    let zs = choose|zs: Seq<Seq<T>>| #[trigger] cr_ends(op, m, b, tol, max_iter, zs, out);
    cr_residual(op, b, zs, zs.len() - 1);
    if zs.len() >= 2 {
        cr_residual(op, b, zs, zs.len() - 2);
    }
}

/// The steps of a run stay within the budget.
proof fn steps_bounded<T: Scalar, A: LinearOperator<T>, M: Preconditioner<T>>(
    op: A,
    m: M,
    b: Seq<T>,
    tol: T::Real,
    max_iter: int,
    restart: int,
    x0: Seq<T>,
    runs: Seq<Seq<Seq<T>>>,
    k: int,
)
    requires
        run_trace(op, m, b, tol, max_iter, restart, x0, runs),
        0 <= k <= runs.len(),
        max_iter >= 0,
    ensures
        0 <= steps_upto(runs, k) <= max_iter,
    decreases k,
{
    if k > 0 {
        steps_bounded(op, m, b, tol, max_iter, restart, x0, runs, k - 1);
        assert(cycle_fits(op, m, b, tol, max_iter, restart, x0, runs, k - 1));
        reveal(cycle_ends);
    }
}

/// A minimal-residual iteration reports the true residual in any arithmetic, is
/// converged exactly where that is small enough, keeps to its budget, and stops
/// early only there.
pub proof fn gmres_reports_true_residual<T: Scalar, A: LinearOperator<T>, M: Preconditioner<T>>(
    op: A,
    m: M,
    b: Seq<T>,
    tol: T::Real,
    max_iter: int,
    restart: int,
    x0: Seq<T>,
    out: Outcome<T>,
)
    requires
        max_iter >= 0,
        gmres_made(op, m, b, tol, max_iter, restart, x0, out),
    ensures
        out.final_res == relative(residual(op, b, out.x), b),
        out.final_res == norm_of(residual(op, b, out.x)).over_spec(norm_of(b)),
        out.converged == tol.ge_spec(out.final_res),
        0 <= out.iters <= max_iter,
        out.iters < max_iter ==> out.converged,
{
    let runs = choose|runs: Seq<Seq<Seq<T>>>| #[trigger]
        run_ends(op, m, b, tol, max_iter, restart, x0, runs, out);
    steps_bounded(op, m, b, tol, max_iter, restart, x0, runs, runs.len() as int);
}

/// A cycle of the minimal-residual iteration is as long as it was asked to be:
/// it takes no more than `restart` steps (one at least) and no more than are left
/// of `max_iter`, and if it takes fewer than both, the residual that it promises
/// then meets the tolerance.
pub proof fn gmres_cycles_run_their_length<
    T: Scalar,
    A: LinearOperator<T>,
    M: Preconditioner<T>,
>(
    op: A,
    m: M,
    b: Seq<T>,
    tol: T::Real,
    max_iter: int,
    restart: int,
    x0: Seq<T>,
    out: Outcome<T>,
) -> (runs: Seq<Seq<Seq<T>>>)
    requires
        max_iter >= 0,
        gmres_made(op, m, b, tol, max_iter, restart, x0, out),
    ensures
        run_ends(op, m, b, tol, max_iter, restart, x0, runs, out),
        out.iters == steps_upto(runs, runs.len() as int),
        forall|i: int|
            0 <= i < runs.len() ==> {
                let k = (#[trigger] runs[i]).len() as int;
                let left = max_iter - steps_upto(runs, i);
                let s = sweep_at(op, b, iterate(op, b, x0, runs, i), runs[i], k);
                &&& 1 <= k <= left
                &&& k <= restart || k == 1
                &&& k < restart && k < left ==> tol.ge_spec(
                    s.g[k].magnitude_spec().over_spec(norm_of(b)),
                )
            },
{
    let runs = choose|runs: Seq<Seq<Seq<T>>>| #[trigger]
        run_ends(op, m, b, tol, max_iter, restart, x0, runs, out);
    assert forall|i: int| 0 <= i < runs.len() implies {
        let k = (#[trigger] runs[i]).len() as int;
        let left = max_iter - steps_upto(runs, i);
        let s = sweep_at(op, b, iterate(op, b, x0, runs, i), runs[i], k);
        &&& 1 <= k <= left
        &&& k <= restart || k == 1
        &&& k < restart && k < left ==> tol.ge_spec(
            s.g[k].magnitude_spec().over_spec(norm_of(b)),
        )
    } by {
        assert(cycle_fits(op, m, b, tol, max_iter, restart, x0, runs, i));
        reveal(cycle_ends);
        sweep_sizes(op, b, iterate(op, b, x0, runs, i), runs[i], runs[i].len() as int);
    }
    runs
}

/// A sweep has one rotated right-hand side more than steps.
pub(crate) proof fn sweep_sizes<T: Scalar, A: LinearOperator<T>>(
    op: A,
    b: Seq<T>,
    x: Seq<T>,
    zs: Seq<Seq<T>>,
    k: int,
)
    requires
        0 <= k,
    ensures
        ({
            let s = sweep_at(op, b, x, zs, k);
            &&& s.v.len() == k + 1 && s.h.len() == k && s.g.len() == k + 1
            &&& s.cs.len() == k && s.sn.len() == k
        }),
    decreases k,
{
    if k > 0 {
        sweep_sizes(op, b, x, zs, k - 1);
        reveal(grown);
    }
}

/// A guess that already solves is returned without a step.
pub proof fn gmres_keeps_a_solution<T: Scalar, A: LinearOperator<T>, M: Preconditioner<T>>(
    op: A,
    m: M,
    b: Seq<T>,
    tol: T::Real,
    max_iter: int,
    restart: int,
    x0: Seq<T>,
    out: Outcome<T>,
)
    requires
        gmres_made(op, m, b, tol, max_iter, restart, x0, out),
        is_solved(op, b, tol, x0),
    ensures
        out.x == x0,
        out.iters == 0,
        out.converged,
{
    let runs = choose|runs: Seq<Seq<Seq<T>>>| #[trigger]
        run_ends(op, m, b, tol, max_iter, restart, x0, runs, out);
    if runs.len() > 0 {
        assert(cycle_fits(op, m, b, tol, max_iter, restart, x0, runs, 0));
        assert(iterate(op, b, x0, runs, 0) == x0);
    }
}

/// The preconditioner answers every question in one way.
pub open spec fn single_valued<T: Scalar, M: Preconditioner<T>>(m: M) -> bool {
    forall|r: Seq<T>, y: Seq<T>, z: Seq<T>|
        #![trigger m.gives(r, Ok(y)), m.gives(r, Ok(z))]
        m.gives(r, Ok(y)) && m.gives(r, Ok(z)) ==> y == z
}

/// A factored matrix answers every question in one way, and so does no
/// preconditioner at all.
pub proof fn direct_solves_are_single_valued<T: Scalar>(s: KluSolver<T>)
    ensures
        single_valued::<T, KluSolver<T>>(s),
        single_valued::<T, NoPreconditioner>(NoPreconditioner),
{
}

/// The answers decide the sweep.
proof fn sweep_agrees<T: Scalar, A: LinearOperator<T>>(
    op: A,
    b: Seq<T>,
    x: Seq<T>,
    ys: Seq<Seq<T>>,
    zs: Seq<Seq<T>>,
    j: int,
)
    requires
        forall|i: int| 0 <= i < j ==> #[trigger] ys[i] == zs[i],
    ensures
        sweep_at(op, b, x, ys, j) == sweep_at(op, b, x, zs, j),
    decreases j,
{
    if j > 0 {
        sweep_agrees(op, b, x, ys, zs, j - 1);
        assert(ys[j - 1] == zs[j - 1]);
    }
}

/// Two cycles from the same iterate get the same answers.
proof fn answers_agree<T: Scalar, A: LinearOperator<T>, M: Preconditioner<T>>(
    op: A,
    m: M,
    b: Seq<T>,
    tol: T::Real,
    limit: int,
    x: Seq<T>,
    ys: Seq<Seq<T>>,
    zs: Seq<Seq<T>>,
    j: int,
)
    requires
        single_valued::<T, M>(m),
        cycle_trace(op, m, b, tol, limit, x, ys),
        cycle_trace(op, m, b, tol, limit, x, zs),
        0 <= j <= ys.len(),
        j <= zs.len(),
    ensures
        forall|i: int| 0 <= i < j ==> #[trigger] ys[i] == zs[i],
    decreases j,
{
    if j > 0 {
        answers_agree(op, m, b, tol, limit, x, ys, zs, j - 1);
        sweep_agrees(op, b, x, ys, zs, j - 1);
        assert(crate::krylov::gmres::answered(op, m, b, x, ys, j - 1));
        assert(crate::krylov::gmres::answered(op, m, b, x, zs, j - 1));
        assert(ys[j - 1] == zs[j - 1]);
    }
}

/// Two whole cycles from the same iterate are the same.
proof fn cycles_agree<T: Scalar, A: LinearOperator<T>, M: Preconditioner<T>>(
    op: A,
    m: M,
    b: Seq<T>,
    tol: T::Real,
    limit: int,
    x: Seq<T>,
    ys: Seq<Seq<T>>,
    zs: Seq<Seq<T>>,
)
    requires
        single_valued::<T, M>(m),
        cycle_ends(op, m, b, tol, limit, x, ys),
        cycle_ends(op, m, b, tol, limit, x, zs),
    ensures
        ys == zs,
{
    reveal(cycle_ends);
    let k = if ys.len() < zs.len() {
        ys.len() as int
    } else {
        zs.len() as int
    };
    answers_agree(op, m, b, tol, limit, x, ys, zs, k);
    sweep_agrees(op, b, x, ys, zs, k);
    if ys.len() < zs.len() {
        assert(looks_solved(b, tol, sweep_at(op, b, x, ys, k)));
        assert(!looks_solved(b, tol, sweep_at(op, b, x, zs, k)));
    } else if zs.len() < ys.len() {
        assert(looks_solved(b, tol, sweep_at(op, b, x, zs, k)));
        assert(!looks_solved(b, tol, sweep_at(op, b, x, ys, k)));
    }
    assert(ys =~= zs);
}

/// Two runs agree as long as both go on.
proof fn runs_agree<T: Scalar, A: LinearOperator<T>, M: Preconditioner<T>>(
    op: A,
    m: M,
    b: Seq<T>,
    tol: T::Real,
    max_iter: int,
    restart: int,
    x0: Seq<T>,
    ys: Seq<Seq<Seq<T>>>,
    zs: Seq<Seq<Seq<T>>>,
    k: int,
)
    requires
        single_valued::<T, M>(m),
        run_trace(op, m, b, tol, max_iter, restart, x0, ys),
        run_trace(op, m, b, tol, max_iter, restart, x0, zs),
        0 <= k <= ys.len(),
        k <= zs.len(),
    ensures
        iterate(op, b, x0, ys, k) == iterate(op, b, x0, zs, k),
        steps_upto(ys, k) == steps_upto(zs, k),
    decreases k,
{
    if k > 0 {
        runs_agree(op, m, b, tol, max_iter, restart, x0, ys, zs, k - 1);
        assert(cycle_fits(op, m, b, tol, max_iter, restart, x0, ys, k - 1));
        assert(cycle_fits(op, m, b, tol, max_iter, restart, x0, zs, k - 1));
        cycles_agree(
            op,
            m,
            b,
            tol,
            cycle_limit(restart, max_iter - steps_upto(ys, k - 1)),
            iterate(op, b, x0, ys, k - 1),
            ys[k - 1],
            zs[k - 1],
        );
    }
}

/// With a preconditioner that always answers alike, the minimal-residual
/// iteration has one outcome.
pub proof fn gmres_is_determined<T: Scalar, A: LinearOperator<T>, M: Preconditioner<T>>(
    op: A,
    m: M,
    b: Seq<T>,
    tol: T::Real,
    max_iter: int,
    restart: int,
    x0: Seq<T>,
    out1: Outcome<T>,
    out2: Outcome<T>,
)
    requires
        single_valued::<T, M>(m),
        gmres_made(op, m, b, tol, max_iter, restart, x0, out1),
        gmres_made(op, m, b, tol, max_iter, restart, x0, out2),
    ensures
        out1 == out2,
{
    let ys = choose|ys: Seq<Seq<Seq<T>>>| #[trigger]
        run_ends(op, m, b, tol, max_iter, restart, x0, ys, out1);
    let zs = choose|zs: Seq<Seq<Seq<T>>>| #[trigger]
        run_ends(op, m, b, tol, max_iter, restart, x0, zs, out2);
    let k = if ys.len() < zs.len() {
        ys.len() as int
    } else {
        zs.len() as int
    };
    runs_agree(op, m, b, tol, max_iter, restart, x0, ys, zs, k);
    if ys.len() < zs.len() {
        assert(cycle_fits(op, m, b, tol, max_iter, restart, x0, zs, k));
    } else if zs.len() < ys.len() {
        assert(cycle_fits(op, m, b, tol, max_iter, restart, x0, ys, k));
    }
}

/// The first `k` answers and the states that they lead to are the same.
proof fn cg_runs_agree<T: Scalar, A: LinearOperator<T>, M: Preconditioner<T>>(
    op: A,
    m: M,
    b: Seq<T>,
    tol: T::Real,
    max_iter: int,
    ys: Seq<Seq<T>>,
    zs: Seq<Seq<T>>,
    k: int,
)
    requires
        single_valued::<T, M>(m),
        cg_trace(op, m, b, tol, max_iter, ys),
        cg_trace(op, m, b, tol, max_iter, zs),
        0 <= k <= ys.len(),
        k <= zs.len(),
    ensures
        forall|i: int| 0 <= i < k ==> #[trigger] ys[i] == zs[i],
        forall|i: int| 0 <= i < k ==> #[trigger] cg_state(op, b, ys, i) == cg_state(op, b, zs, i),
    decreases k,
{
    if k > 0 {
        let j = k - 1;
        cg_runs_agree(op, m, b, tol, max_iter, ys, zs, j);
        if j > 0 {
            assert(cg_state(op, b, ys, j - 1) == cg_state(op, b, zs, j - 1));
        }
        assert(cg_asked(op, b, ys, j) == cg_asked(op, b, zs, j));
        reveal(cg_replies);
        assert(m.gives(cg_asked(op, b, ys, j), Ok(ys[j])));
        assert(m.gives(cg_asked(op, b, zs, j), Ok(zs[j])));
        assert(ys[j] == zs[j]);
        assert(cg_state(op, b, ys, j) == cg_state(op, b, zs, j));
    }
}

/// With a preconditioner that always answers alike, the conjugate-gradient
/// iteration has one outcome.
pub proof fn cocg_is_determined<T: Scalar, A: LinearOperator<T>, M: Preconditioner<T>>(
    op: A,
    m: M,
    b: Seq<T>,
    tol: T::Real,
    max_iter: int,
    out1: Outcome<T>,
    out2: Outcome<T>,
)
    requires
        single_valued::<T, M>(m),
        cocg_made(op, m, b, tol, max_iter, out1),
        cocg_made(op, m, b, tol, max_iter, out2),
    ensures
        out1 == out2,
{
    let ys = choose|ys: Seq<Seq<T>>| #[trigger] cg_ends(op, m, b, tol, max_iter, ys, out1);
    let zs = choose|zs: Seq<Seq<T>>| #[trigger] cg_ends(op, m, b, tol, max_iter, zs, out2);
    let k = if ys.len() < zs.len() {
        ys.len() as int
    } else {
        zs.len() as int
    };
    cg_runs_agree(op, m, b, tol, max_iter, ys, zs, k);
    assert(cg_state(op, b, ys, k - 1) == cg_state(op, b, zs, k - 1));
    if ys.len() < zs.len() {
        assert(cg_goes_on(op, b, tol, max_iter, zs, k - 1));
    } else if zs.len() < ys.len() {
        assert(cg_goes_on(op, b, tol, max_iter, ys, k - 1));
    }
}

/// The first `k` answers and the states that they lead to are the same.
proof fn cr_runs_agree<T: Scalar, A: LinearOperator<T>, M: Preconditioner<T>>(
    op: A,
    m: M,
    b: Seq<T>,
    tol: T::Real,
    max_iter: int,
    ys: Seq<Seq<T>>,
    zs: Seq<Seq<T>>,
    k: int,
)
    requires
        single_valued::<T, M>(m),
        cr_trace(op, m, b, tol, max_iter, ys),
        cr_trace(op, m, b, tol, max_iter, zs),
        0 <= k <= ys.len(),
        k <= zs.len(),
    ensures
        forall|i: int| 0 <= i < k ==> #[trigger] ys[i] == zs[i],
        forall|i: int| 0 <= i < k ==> #[trigger] cr_state(op, b, ys, i) == cr_state(op, b, zs, i),
    decreases k,
{
    if k > 0 {
        let j = k - 1;
        cr_runs_agree(op, m, b, tol, max_iter, ys, zs, j);
        if j > 0 {
            assert(cr_state(op, b, ys, j - 1) == cr_state(op, b, zs, j - 1));
        }
        assert(cr_asked(op, b, ys, j) == cr_asked(op, b, zs, j));
        reveal(cr_replies);
        assert(m.gives(cr_asked(op, b, ys, j), Ok(ys[j])));
        assert(m.gives(cr_asked(op, b, zs, j), Ok(zs[j])));
        assert(ys[j] == zs[j]);
        assert(cr_state(op, b, ys, j) == cr_state(op, b, zs, j));
    }
}

/// With a preconditioner that always answers alike, the conjugate-residual
/// iteration has one outcome.
pub proof fn cocr_is_determined<T: Scalar, A: LinearOperator<T>, M: Preconditioner<T>>(
    op: A,
    m: M,
    b: Seq<T>,
    tol: T::Real,
    max_iter: int,
    out1: Outcome<T>,
    out2: Outcome<T>,
)
    requires
        single_valued::<T, M>(m),
        cocr_made(op, m, b, tol, max_iter, out1),
        cocr_made(op, m, b, tol, max_iter, out2),
    ensures
        out1 == out2,
{
    let ys = choose|ys: Seq<Seq<T>>| #[trigger] cr_ends(op, m, b, tol, max_iter, ys, out1);
    let zs = choose|zs: Seq<Seq<T>>| #[trigger] cr_ends(op, m, b, tol, max_iter, zs, out2);
    let k = if ys.len() < zs.len() {
        ys.len() as int
    } else {
        zs.len() as int
    };
    cr_runs_agree(op, m, b, tol, max_iter, ys, zs, k);
    assert(cr_state(op, b, ys, k - 1) == cr_state(op, b, zs, k - 1));
    assert(ys[k - 1] == zs[k - 1]);
    if k >= 2 {
        assert(cr_state(op, b, ys, k - 2) == cr_state(op, b, zs, k - 2));
    }
    if ys.len() < zs.len() {
        if k >= 2 {
            assert(cr_goes_on(op, b, tol, zs, k - 2));
        }
    } else if zs.len() < ys.len() {
        if k >= 2 {
            assert(cr_goes_on(op, b, tol, ys, k - 2));
        }
    }
}

/// An explicit matrix is a linear operator in exact arithmetic.
pub proof fn matrices_are_linear<T: Field>(a: GeneralCsc<T>)
    ensures
        linear::<T, GeneralCsc<T>>(a),
{
    let n = a.n as int;
    assert forall|x: Seq<T>| x.len() == n implies (#[trigger] a.image(x)).len() == n by {
        product_len(a, x, n);
    }
    let z = zeros::<T>(n);
    product_len(a, z, n);
    assert(a.image(z) =~= z) by {
        assert forall|i: int| 0 <= i < n implies #[trigger] a.image(z)[i] == z[i] by {
            product_is_sum(a, z, i, n);
            let f = |c: int| a.at(i, c).times_spec(z[c]);
            assert forall|c: int| 0 <= c < n implies #[trigger] f(c) == T::zero_spec() by {
                times_zero(a.at(i, c));
            }
            sum_zero(n as nat, f);
        }
    }
    assert forall|x: Seq<T>, t: T, y: Seq<T>|
        x.len() == n && y.len() == n implies #[trigger] a.image(plus_multiple(x, t, y))
        == plus_multiple(a.image(x), t, a.image(y)) by {
        let w = plus_multiple(x, t, y);
        product_len(a, x, n);
        product_len(a, y, n);
        product_len(a, w, n);
        assert forall|i: int| 0 <= i < n implies #[trigger] a.image(w)[i] == plus_multiple(
            a.image(x),
            t,
            a.image(y),
        )[i] by {
            product_is_sum(a, x, i, n);
            product_is_sum(a, y, i, n);
            product_is_sum(a, w, i, n);
            let fx = |c: int| a.at(i, c).times_spec(x[c]);
            let fy = |c: int| a.at(i, c).times_spec(y[c]);
            let ft = |c: int| t.times_spec(fy(c));
            let fw = |c: int| a.at(i, c).times_spec(w[c]);
            assert forall|c: int| 0 <= c < n implies #[trigger] fw(c) == fx(c).plus_spec(
                ft(c),
            ) by {
                let v = a.at(i, c);
                T::distributes(v, x[c], t.times_spec(y[c]));
                T::times_assoc(v, t, y[c]);
                T::times_comm(v, t);
                T::times_assoc(t, v, y[c]);
            }
            sum_plus(n as nat, fx, ft, fw);
            sum_scale(n as nat, t, fy, ft);
        }
        assert(a.image(w) =~= plus_multiple(a.image(x), t, a.image(y)));
    }
}

/// A rotation `(c, s)` clears the lower entry: `-s f + c g = 0`.
pub proof fn rotation_clears<T: Field>(f: T, g: T)
    ensures
        ({
            let (c, s) = rotation(f, g);
            s.negate_spec().times_spec(f).plus_spec(c.times_spec(g)) == T::zero_spec()
        }),
{
    let (c, s) = rotation(f, g);
    let inv = T::from_real_spec(
        <T::Real as Real>::one_spec().over_spec(
            f.magnitude_sq_spec().plus_spec(g.magnitude_sq_spec()).sqrt_spec(),
        ),
    );
    T::negate_exact(s);
    neg_times(s, f);
    assert(s.times_spec(f) == c.times_spec(g)) by {
        T::zero_test(f);
        T::zero_test(g);
        if g.is_zero_spec() {
            T::times_comm(s, f);
            times_zero(f);
            times_zero(c);
        } else if f.is_zero_spec() {
            times_zero(s);
            T::times_comm(c, g);
            times_zero(g);
        } else {
            T::times_assoc(g, inv, f);
            T::times_comm(inv, f);
            T::times_comm(g, f.times_spec(inv));
        }
    }
    neg_plus(s.times_spec(f));
}

} // verus!
