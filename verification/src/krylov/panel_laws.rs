//! What the panel iteration promises.

use crate::flat::norm_of;
use crate::krylov::gmres::{cycle_limit, looks_solved, residual};
use crate::krylov::laws::single_valued;
use crate::krylov::operator::{LinearOperator, Preconditioner};
use crate::krylov::panel::{
    all_solved, any_in_play, column_residual, column_solved, gmres_block_made, in_play,
    longest_upto, panel_answered, panel_fits, panel_iterate, panel_run, panel_run_ends, panel_steps,
    panel_sweep, panel_trace, visit_ends, visit_result, visits_end, visits_result, PanelOutcome,
    Visit,
};
use crate::krylov::sweep::panel_grown;
use crate::scalar::{Real, Scalar};
use vstd::prelude::*;

verus! {

proof fn longest_bounded<T: Scalar, A: LinearOperator<T>, M: Preconditioner<T>>(
    op: A,
    m: M,
    bs: Seq<Seq<T>>,
    tol: T::Real,
    limit: int,
    xs: Seq<Seq<T>>,
    vs: Seq<Visit<T>>,
    k: int,
)
    requires
        visits_end(op, m, bs, tol, limit, xs, vs),
        0 <= k <= bs.len(),
        0 <= limit,
    ensures
        0 <= longest_upto(op, bs, tol, xs, vs, k) <= limit,
    decreases k,
{
    if k > 0 {
        longest_bounded(op, m, bs, tol, limit, xs, vs, k - 1);
        if in_play(op, bs, tol, xs, k - 1) {
            reveal(visit_ends);
            assert(visit_ends(op, m, bs[k - 1], tol, limit, xs[k - 1], vs[k - 1]));
        }
    }
}

proof fn panel_steps_bounded<T: Scalar, A: LinearOperator<T>, M: Preconditioner<T>>(
    op: A,
    m: M,
    bs: Seq<Seq<T>>,
    tol: T::Real,
    max_iter: int,
    restart: int,
    xs0: Seq<Seq<T>>,
    cycles: Seq<Seq<Visit<T>>>,
    k: int,
)
    requires
        panel_run(op, m, bs, tol, max_iter, restart, xs0, cycles),
        0 <= k <= cycles.len(),
        max_iter >= 0,
    ensures
        0 <= panel_steps(op, bs, tol, xs0, cycles, k) <= max_iter,
    decreases k,
{
    if k > 0 {
        panel_steps_bounded(op, m, bs, tol, max_iter, restart, xs0, cycles, k - 1);
        assert(panel_fits(op, m, bs, tol, max_iter, restart, xs0, cycles, k - 1));
        longest_bounded(
            op,
            m,
            bs,
            tol,
            cycle_limit(
                restart,
                max_iter - panel_steps(op, bs, tol, xs0, cycles, k - 1),
            ),
            panel_iterate(op, bs, tol, xs0, cycles, k - 1),
            cycles[k - 1],
            bs.len() as int,
        );
    }
}

/// The panel iteration reports the true residual of every column in any
/// arithmetic, is converged exactly where all of them are small enough, keeps to
/// its budget, and stops early only there.
pub proof fn gmres_block_reports_true_residuals<
    T: Scalar,
    A: LinearOperator<T>,
    M: Preconditioner<T>,
>(
    op: A,
    m: M,
    bs: Seq<Seq<T>>,
    tol: T::Real,
    max_iter: int,
    restart: int,
    xs0: Seq<Seq<T>>,
    out: PanelOutcome<T>,
)
    requires
        max_iter >= 0,
        gmres_block_made(op, m, bs, tol, max_iter, restart, xs0, out),
    ensures
        out.final_res.len() == bs.len(),
        forall|c: int|
            0 <= c < bs.len() ==> #[trigger] out.final_res[c] == column_residual(
                op,
                bs,
                out.xs,
                c,
            ),
        forall|c: int|
            0 <= c < bs.len() && !norm_of(bs[c]).is_zero_spec() ==> #[trigger] out.final_res[c]
                == norm_of(residual(op, bs[c], out.xs[c])).over_spec(norm_of(bs[c])),
        out.converged == all_solved(op, bs, tol, out.xs),
        0 <= out.iters <= max_iter,
        out.iters < max_iter ==> out.converged,
{
    let cycles = choose|cycles: Seq<Seq<Visit<T>>>| #[trigger]
        panel_run_ends(op, m, bs, tol, max_iter, restart, xs0, cycles, out);
    let k = cycles.len() as int;
    panel_steps_bounded(op, m, bs, tol, max_iter, restart, xs0, cycles, k);
    if out.iters < max_iter {
        let xs = panel_iterate(op, bs, tol, xs0, cycles, k);
        assert(!any_in_play(op, bs, tol, xs));
        assert forall|c: int| 0 <= c < bs.len() implies #[trigger] column_solved(
            op,
            bs,
            tol,
            xs,
            c,
        ) by {
            assert(!in_play(op, bs, tol, xs, c));
        }
    }
}

/// A cycle of the panel is as long for each column as it was asked to be: no more
/// than `restart` steps (one at least), no more than are left of `max_iter`, and
/// fewer than both only where the residual that the column is then promised meets
/// the tolerance.
pub proof fn gmres_block_cycles_run_their_length<
    T: Scalar,
    A: LinearOperator<T>,
    M: Preconditioner<T>,
>(
    op: A,
    m: M,
    bs: Seq<Seq<T>>,
    tol: T::Real,
    max_iter: int,
    restart: int,
    xs0: Seq<Seq<T>>,
    out: PanelOutcome<T>,
) -> (cycles: Seq<Seq<Visit<T>>>)
    requires
        max_iter >= 0,
        gmres_block_made(op, m, bs, tol, max_iter, restart, xs0, out),
    ensures
        panel_run_ends(op, m, bs, tol, max_iter, restart, xs0, cycles, out),
        forall|i: int, c: int|
            #![trigger cycles[i][c]]
            0 <= i < cycles.len() && in_play(
                op,
                bs,
                tol,
                panel_iterate(op, bs, tol, xs0, cycles, i),
                c,
            ) ==> {
                let xs = panel_iterate(op, bs, tol, xs0, cycles, i);
                let zs = cycles[i][c].zs;
                let k = zs.len() as int;
                let left = max_iter - panel_steps(op, bs, tol, xs0, cycles, i);
                &&& 1 <= k <= left
                &&& k <= restart || k == 1
                &&& k < restart && k < left ==> tol.ge_spec(
                    panel_sweep(op, bs[c], xs[c], zs, k).g[k].magnitude_spec().over_spec(
                        norm_of(bs[c]),
                    ),
                )
            },
{
    let cycles = choose|cycles: Seq<Seq<Visit<T>>>| #[trigger]
        panel_run_ends(op, m, bs, tol, max_iter, restart, xs0, cycles, out);
    assert forall|i: int, c: int|
        #![trigger cycles[i][c]]
        0 <= i < cycles.len() && in_play(
            op,
            bs,
            tol,
            panel_iterate(op, bs, tol, xs0, cycles, i),
            c,
        ) implies {
        let xs = panel_iterate(op, bs, tol, xs0, cycles, i);
        let zs = cycles[i][c].zs;
        let k = zs.len() as int;
        let left = max_iter - panel_steps(op, bs, tol, xs0, cycles, i);
        &&& 1 <= k <= left
        &&& k <= restart || k == 1
        &&& k < restart && k < left ==> tol.ge_spec(
            panel_sweep(op, bs[c], xs[c], zs, k).g[k].magnitude_spec().over_spec(norm_of(bs[c])),
        )
    } by {
        let xs = panel_iterate(op, bs, tol, xs0, cycles, i);
        let zs = cycles[i][c].zs;
        assert(panel_fits(op, m, bs, tol, max_iter, restart, xs0, cycles, i));
        reveal(visit_ends);
        panel_sweep_sizes(op, bs[c], xs[c], zs, zs.len() as int);
    }
    cycles
}

/// A sweep has one rotated right-hand side more than steps.
proof fn panel_sweep_sizes<T: Scalar, A: LinearOperator<T>>(
    op: A,
    b: Seq<T>,
    x: Seq<T>,
    zs: Seq<Seq<T>>,
    k: int,
)
    requires
        0 <= k,
    ensures
        panel_sweep(op, b, x, zs, k).h.len() == k,
        panel_sweep(op, b, x, zs, k).g.len() == k + 1,
    decreases k,
{
    if k > 0 {
        panel_sweep_sizes(op, b, x, zs, k - 1);
        reveal(panel_grown);
    }
}

proof fn panel_sweep_agrees<T: Scalar, A: LinearOperator<T>>(
    op: A,
    b: Seq<T>,
    x: Seq<T>,
    ys: Seq<Seq<T>>,
    zs: Seq<Seq<T>>,
    j: int,
)
    requires
        forall|i: int| 0 <= i < j ==> #[trigger] ys[i] == zs[i],
    ensures
        panel_sweep(op, b, x, ys, j) == panel_sweep(op, b, x, zs, j),
    decreases j,
{
    if j > 0 {
        panel_sweep_agrees(op, b, x, ys, zs, j - 1);
        assert(ys[j - 1] == zs[j - 1]);
    }
}

proof fn panel_answers_agree<T: Scalar, A: LinearOperator<T>, M: Preconditioner<T>>(
    op: A,
    m: M,
    b: Seq<T>,
    tol: T::Real,
    limit: int,
    x: Seq<T>,
    ys: Seq<Seq<T>>,
    zs: Seq<Seq<T>>,
    j: int,
)
    requires
        single_valued::<T, M>(m),
        panel_trace(op, m, b, tol, limit, x, ys),
        panel_trace(op, m, b, tol, limit, x, zs),
        0 <= j <= ys.len(),
        j <= zs.len(),
    ensures
        forall|i: int| 0 <= i < j ==> #[trigger] ys[i] == zs[i],
    decreases j,
{
    if j > 0 {
        panel_answers_agree(op, m, b, tol, limit, x, ys, zs, j - 1);
        panel_sweep_agrees(op, b, x, ys, zs, j - 1);
        assert(panel_answered(op, m, b, x, ys, j - 1));
        assert(panel_answered(op, m, b, x, zs, j - 1));
        assert(ys[j - 1] == zs[j - 1]);
    }
}

/// Two cycles of a column from the same iterate take the same steps to the same
/// result.
proof fn visits_agree<T: Scalar, A: LinearOperator<T>, M: Preconditioner<T>>(
    op: A,
    m: M,
    b: Seq<T>,
    tol: T::Real,
    limit: int,
    x: Seq<T>,
    u: Visit<T>,
    v: Visit<T>,
)
    requires
        single_valued::<T, M>(m),
        visit_ends(op, m, b, tol, limit, x, u),
        visit_ends(op, m, b, tol, limit, x, v),
    ensures
        u.zs == v.zs,
        visit_result(op, b, tol, x, u) == visit_result(op, b, tol, x, v),
{
    reveal(visit_ends);
    let k = if u.zs.len() < v.zs.len() {
        u.zs.len() as int
    } else {
        v.zs.len() as int
    };
    panel_answers_agree(op, m, b, tol, limit, x, u.zs, v.zs, k);
    panel_sweep_agrees(op, b, x, u.zs, v.zs, k);
    if u.zs.len() < v.zs.len() {
        assert(looks_solved(b, tol, panel_sweep(op, b, x, u.zs, k)));
        assert(!looks_solved(b, tol, panel_sweep(op, b, x, v.zs, k)));
    } else if v.zs.len() < u.zs.len() {
        assert(looks_solved(b, tol, panel_sweep(op, b, x, v.zs, k)));
        assert(!looks_solved(b, tol, panel_sweep(op, b, x, u.zs, k)));
    }
    assert(u.zs =~= v.zs);
}

proof fn longest_agrees<T: Scalar, A: LinearOperator<T>>(
    op: A,
    bs: Seq<Seq<T>>,
    tol: T::Real,
    xs: Seq<Seq<T>>,
    us: Seq<Visit<T>>,
    vs: Seq<Visit<T>>,
    k: int,
)
    requires
        forall|c: int| #[trigger] in_play(op, bs, tol, xs, c) ==> us[c].zs == vs[c].zs,
    ensures
        longest_upto(op, bs, tol, xs, us, k) == longest_upto(op, bs, tol, xs, vs, k),
    decreases k,
{
    if k > 0 {
        longest_agrees(op, bs, tol, xs, us, vs, k - 1);
    }
}

proof fn panel_runs_agree<T: Scalar, A: LinearOperator<T>, M: Preconditioner<T>>(
    op: A,
    m: M,
    bs: Seq<Seq<T>>,
    tol: T::Real,
    max_iter: int,
    restart: int,
    xs0: Seq<Seq<T>>,
    us: Seq<Seq<Visit<T>>>,
    vs: Seq<Seq<Visit<T>>>,
    k: int,
)
    requires
        single_valued::<T, M>(m),
        panel_run(op, m, bs, tol, max_iter, restart, xs0, us),
        panel_run(op, m, bs, tol, max_iter, restart, xs0, vs),
        0 <= k <= us.len(),
        k <= vs.len(),
    ensures
        panel_iterate(op, bs, tol, xs0, us, k) == panel_iterate(op, bs, tol, xs0, vs, k),
        panel_steps(op, bs, tol, xs0, us, k) == panel_steps(op, bs, tol, xs0, vs, k),
    decreases k,
{
    if k > 0 {
        panel_runs_agree(op, m, bs, tol, max_iter, restart, xs0, us, vs, k - 1);
        assert(panel_fits(op, m, bs, tol, max_iter, restart, xs0, us, k - 1));
        assert(panel_fits(op, m, bs, tol, max_iter, restart, xs0, vs, k - 1));
        let xs = panel_iterate(op, bs, tol, xs0, us, k - 1);
        let limit = cycle_limit(
            restart,
            max_iter - panel_steps(op, bs, tol, xs0, us, k - 1),
        );
        let u = us[k - 1];
        let v = vs[k - 1];
        assert forall|c: int| #[trigger] in_play(op, bs, tol, xs, c) implies u[c].zs == v[c].zs
            && visit_result(op, bs[c], tol, xs[c], u[c]) == visit_result(
            op,
            bs[c],
            tol,
            xs[c],
            v[c],
        ) by {
            visits_agree(op, m, bs[c], tol, limit, xs[c], u[c], v[c]);
        }
        longest_agrees(op, bs, tol, xs, u, v, bs.len() as int);
        assert(visits_result(op, bs, tol, xs, u) =~= visits_result(op, bs, tol, xs, v));
    }
}

/// With a preconditioner that always answers alike, the panel iteration has one
/// outcome, however the work on the columns is ordered.
pub proof fn gmres_block_is_determined<T: Scalar, A: LinearOperator<T>, M: Preconditioner<T>>(
    op: A,
    m: M,
    bs: Seq<Seq<T>>,
    tol: T::Real,
    max_iter: int,
    restart: int,
    xs0: Seq<Seq<T>>,
    out1: PanelOutcome<T>,
    out2: PanelOutcome<T>,
)
    requires
        single_valued::<T, M>(m),
        gmres_block_made(op, m, bs, tol, max_iter, restart, xs0, out1),
        gmres_block_made(op, m, bs, tol, max_iter, restart, xs0, out2),
    ensures
        out1 == out2,
{
    let us = choose|us: Seq<Seq<Visit<T>>>| #[trigger]
        panel_run_ends(op, m, bs, tol, max_iter, restart, xs0, us, out1);
    let vs = choose|vs: Seq<Seq<Visit<T>>>| #[trigger]
        panel_run_ends(op, m, bs, tol, max_iter, restart, xs0, vs, out2);
    let k = if us.len() < vs.len() {
        us.len() as int
    } else {
        vs.len() as int
    };
    panel_runs_agree(op, m, bs, tol, max_iter, restart, xs0, us, vs, k);
    if us.len() < vs.len() {
        assert(panel_fits(op, m, bs, tol, max_iter, restart, xs0, vs, k));
    } else if vs.len() < us.len() {
        assert(panel_fits(op, m, bs, tol, max_iter, restart, xs0, us, k));
    }
}

} // verus!
