//! What a panel iteration does to each of its columns.
//!
//! The columns share only the batched products and preconditioner calls, so the
//! iteration is described column by column.

use crate::error::RslabError;
use crate::flat::norm_of;
use crate::krylov::cg::relative;
use crate::krylov::gmres::{cycle_limit, is_solved, looks_solved, residual};
use crate::krylov::operator::{panel_column, LinearOperator, Preconditioner};
use crate::krylov::sweep::{combined, least_squares, opened, panel_grown, Sweep};
use crate::krylov::vectors::plus_vector;
use crate::matrix_ops::zeros;
use crate::scalar::{Real, Scalar};
use vstd::prelude::*;

verus! {

/// The sweep of a column from `x` after `j` steps, with the answers of the
/// preconditioner.
pub open spec fn panel_sweep<T: Scalar, A: LinearOperator<T>>(
    op: A,
    b: Seq<T>,
    x: Seq<T>,
    zs: Seq<Seq<T>>,
    j: int,
) -> Sweep<T>
    decreases j,
{
    if j <= 0 {
        let r = residual(op, b, x);
        opened(r, norm_of(r))
    } else {
        panel_grown(panel_sweep(op, b, x, zs, j - 1), op.image(zs[j - 1]))
    }
}

/// Answer `j` may come back for basis vector `j`.
pub open spec fn panel_answered<T: Scalar, A: LinearOperator<T>, M: Preconditioner<T>>(
    op: A,
    m: M,
    b: Seq<T>,
    x: Seq<T>,
    zs: Seq<Seq<T>>,
    j: int,
) -> bool {
    m.gives(panel_sweep(op, b, x, zs, j).v[j], Ok(zs[j]))
}

/// The preconditioner answered so, and no step before the last looked solved.
pub open spec fn panel_trace<T: Scalar, A: LinearOperator<T>, M: Preconditioner<T>>(
    op: A,
    m: M,
    b: Seq<T>,
    tol: T::Real,
    limit: int,
    x: Seq<T>,
    zs: Seq<Seq<T>>,
) -> bool {
    &&& zs.len() <= limit
    &&& forall|j: int| 0 <= j < zs.len() ==> #[trigger] panel_answered(op, m, b, x, zs, j)
    &&& forall|j: int|
        0 < j < zs.len() ==> !looks_solved(b, tol, #[trigger] panel_sweep(op, b, x, zs, j))
}

/// The answers that one column got in a cycle: one for each step, and one for
/// the update.
#[verifier::ext_equal]
pub struct Visit<T> {
    pub zs: Seq<Seq<T>>,
    pub last: Seq<T>,
}

/// The combination of basis vectors that a sweep arrives at.
pub open spec fn correction<T: Scalar>(s: Sweep<T>, n: int) -> Seq<T> {
    let y = least_squares(s);
    combined(zeros(n), s.v, y, y.len() as int)
}

/// A column that looks solved and has nothing to solve with is left alone.
pub open spec fn left_alone<T: Scalar>(b: Seq<T>, tol: T::Real, s: Sweep<T>) -> bool {
    looks_solved(b, tol, s) && least_squares(s).len() == 0
}

/// A whole cycle of a column: it ends where it looks solved, or at the limit, and
/// the update is asked for.
#[verifier::opaque]
pub open spec fn visit_ends<T: Scalar, A: LinearOperator<T>, M: Preconditioner<T>>(
    op: A,
    m: M,
    b: Seq<T>,
    tol: T::Real,
    limit: int,
    x: Seq<T>,
    v: Visit<T>,
) -> bool {
    let s = panel_sweep(op, b, x, v.zs, v.zs.len() as int);
    &&& v.zs.len() > 0
    &&& panel_trace(op, m, b, tol, limit, x, v.zs)
    &&& v.zs.len() == limit || looks_solved(b, tol, s)
    &&& left_alone(b, tol, s) || m.gives(correction(s, op.dim_spec()), Ok(v.last))
}

/// The column after the cycle.
pub open spec fn visit_result<T: Scalar, A: LinearOperator<T>>(
    op: A,
    b: Seq<T>,
    tol: T::Real,
    x: Seq<T>,
    v: Visit<T>,
) -> Seq<T> {
    if left_alone(b, tol, panel_sweep(op, b, x, v.zs, v.zs.len() as int)) {
        x
    } else {
        plus_vector(x, v.last)
    }
}

/// A cycle of a column in which a question is refused with `e`: the next step, or
/// the update.
pub open spec fn visit_stops<T: Scalar, A: LinearOperator<T>, M: Preconditioner<T>>(
    op: A,
    m: M,
    b: Seq<T>,
    tol: T::Real,
    limit: int,
    x: Seq<T>,
    zs: Seq<Seq<T>>,
    e: RslabError,
) -> bool {
    let j = zs.len() as int;
    let s = panel_sweep(op, b, x, zs, j);
    &&& panel_trace(op, m, b, tol, limit, x, zs)
    &&& {
        ||| j < limit && (j > 0 ==> !looks_solved(b, tol, s)) && m.gives(s.v[j], Err(e))
        ||| j > 0 && (j == limit || looks_solved(b, tol, s)) && !left_alone(b, tol, s) && m.gives(
            correction(s, op.dim_spec()),
            Err(e),
        )
    }
}

/// Some cycle of the column is refused with `e`.
pub open spec fn visit_refused<T: Scalar, A: LinearOperator<T>, M: Preconditioner<T>>(
    op: A,
    m: M,
    b: Seq<T>,
    tol: T::Real,
    limit: int,
    x: Seq<T>,
    e: RslabError,
) -> bool {
    exists|zs: Seq<Seq<T>>| #[trigger] visit_stops(op, m, b, tol, limit, x, zs, e)
}

/// Column `c` takes part in a cycle from `xs`.
pub open spec fn in_play<T: Scalar, A: LinearOperator<T>>(
    op: A,
    bs: Seq<Seq<T>>,
    tol: T::Real,
    xs: Seq<Seq<T>>,
    c: int,
) -> bool {
    0 <= c < bs.len() && !norm_of(bs[c]).is_zero_spec() && !is_solved(op, bs[c], tol, xs[c])
}

/// Some column takes part.
pub open spec fn any_in_play<T: Scalar, A: LinearOperator<T>>(
    op: A,
    bs: Seq<Seq<T>>,
    tol: T::Real,
    xs: Seq<Seq<T>>,
) -> bool {
    exists|c: int| #[trigger] in_play(op, bs, tol, xs, c)
}

/// Every column that takes part goes through its cycle.
pub open spec fn visits_end<T: Scalar, A: LinearOperator<T>, M: Preconditioner<T>>(
    op: A,
    m: M,
    bs: Seq<Seq<T>>,
    tol: T::Real,
    limit: int,
    xs: Seq<Seq<T>>,
    vs: Seq<Visit<T>>,
) -> bool {
    forall|c: int| #[trigger]
        in_play(op, bs, tol, xs, c) ==> visit_ends(op, m, bs[c], tol, limit, xs[c], vs[c])
}

/// The columns after a cycle.
pub open spec fn visits_result<T: Scalar, A: LinearOperator<T>>(
    op: A,
    bs: Seq<Seq<T>>,
    tol: T::Real,
    xs: Seq<Seq<T>>,
    vs: Seq<Visit<T>>,
) -> Seq<Seq<T>> {
    Seq::new(
        xs.len(),
        |c: int|
            if in_play(op, bs, tol, xs, c) {
                visit_result(op, bs[c], tol, xs[c], vs[c])
            } else {
                xs[c]
            },
    )
}

/// The most steps that one of the first `k` columns takes.
pub open spec fn longest_upto<T: Scalar, A: LinearOperator<T>>(
    op: A,
    bs: Seq<Seq<T>>,
    tol: T::Real,
    xs: Seq<Seq<T>>,
    vs: Seq<Visit<T>>,
    k: int,
) -> int
    decreases k,
{
    if k <= 0 {
        0
    } else {
        let rest = longest_upto(op, bs, tol, xs, vs, k - 1);
        if in_play(op, bs, tol, xs, k - 1) && vs[k - 1].zs.len() > rest {
            vs[k - 1].zs.len() as int
        } else {
            rest
        }
    }
}

/// The steps that the panel takes in a cycle: as many as its slowest column.
pub open spec fn longest<T: Scalar, A: LinearOperator<T>>(
    op: A,
    bs: Seq<Seq<T>>,
    tol: T::Real,
    xs: Seq<Seq<T>>,
    vs: Seq<Visit<T>>,
) -> int {
    longest_upto(op, bs, tol, xs, vs, bs.len() as int)
}

/// No column takes more than `k` steps, and one takes just as many.
pub proof fn longest_is<T: Scalar, A: LinearOperator<T>>(
    op: A,
    bs: Seq<Seq<T>>,
    tol: T::Real,
    xs: Seq<Seq<T>>,
    vs: Seq<Visit<T>>,
    k: int,
    c: int,
)
    requires
        forall|d: int| #[trigger] in_play(op, bs, tol, xs, d) ==> vs[d].zs.len() <= k,
        in_play(op, bs, tol, xs, c),
        vs[c].zs.len() == k,
    ensures
        longest(op, bs, tol, xs, vs) == k,
{
    longest_bounds(op, bs, tol, xs, vs, k, c, bs.len() as int);
}

proof fn longest_bounds<T: Scalar, A: LinearOperator<T>>(
    op: A,
    bs: Seq<Seq<T>>,
    tol: T::Real,
    xs: Seq<Seq<T>>,
    vs: Seq<Visit<T>>,
    k: int,
    c: int,
    q: int,
)
    requires
        forall|d: int| #[trigger] in_play(op, bs, tol, xs, d) ==> vs[d].zs.len() <= k,
        in_play(op, bs, tol, xs, c),
        vs[c].zs.len() == k,
        0 <= q <= bs.len(),
    ensures
        0 <= longest_upto(op, bs, tol, xs, vs, q) <= k,
        c < q ==> longest_upto(op, bs, tol, xs, vs, q) == k,
    decreases q,
{
    if q > 0 {
        longest_bounds(op, bs, tol, xs, vs, k, c, q - 1);
    }
}

/// The columns of a panel.
pub open spec fn columns_of<T>(x: Seq<T>, n: int, s: int) -> Seq<Seq<T>> {
    Seq::new(s as nat, |c: int| panel_column(x, n, c))
}

/// Where the iteration starts: at the guess, or at zero; at zero for a column
/// whose right-hand side is zero.
pub open spec fn first_panel<T: Scalar>(
    x0: Option<&[T]>,
    bs: Seq<Seq<T>>,
    n: int,
) -> Seq<Seq<T>> {
    Seq::new(
        bs.len(),
        |c: int|
            if norm_of(bs[c]).is_zero_spec() {
                zeros(n)
            } else {
                match x0 {
                    Some(g) => panel_column(g@, n, c),
                    None => zeros(n),
                }
            },
    )
}

/// The columns after the first `i` cycles.
pub open spec fn panel_iterate<T: Scalar, A: LinearOperator<T>>(
    op: A,
    bs: Seq<Seq<T>>,
    tol: T::Real,
    xs0: Seq<Seq<T>>,
    cycles: Seq<Seq<Visit<T>>>,
    i: int,
) -> Seq<Seq<T>>
    decreases i,
{
    if i <= 0 {
        xs0
    } else {
        visits_result(op, bs, tol, panel_iterate(op, bs, tol, xs0, cycles, i - 1), cycles[i - 1])
    }
}

/// Steps of the first `i` cycles.
pub open spec fn panel_steps<T: Scalar, A: LinearOperator<T>>(
    op: A,
    bs: Seq<Seq<T>>,
    tol: T::Real,
    xs0: Seq<Seq<T>>,
    cycles: Seq<Seq<Visit<T>>>,
    i: int,
) -> int
    decreases i,
{
    if i <= 0 {
        0
    } else {
        panel_steps(op, bs, tol, xs0, cycles, i - 1) + longest(
            op,
            bs,
            tol,
            panel_iterate(op, bs, tol, xs0, cycles, i - 1),
            cycles[i - 1],
        )
    }
}

/// Cycle `i` is begun: there is room, and some column takes part.
pub open spec fn panel_begins<T: Scalar, A: LinearOperator<T>>(
    op: A,
    bs: Seq<Seq<T>>,
    tol: T::Real,
    max_iter: int,
    xs0: Seq<Seq<T>>,
    cycles: Seq<Seq<Visit<T>>>,
    i: int,
) -> bool {
    panel_steps(op, bs, tol, xs0, cycles, i) < max_iter && any_in_play(
        op,
        bs,
        tol,
        panel_iterate(op, bs, tol, xs0, cycles, i),
    )
}

/// Cycle `i` is begun and every column in it goes to its end.
pub open spec fn panel_fits<T: Scalar, A: LinearOperator<T>, M: Preconditioner<T>>(
    op: A,
    m: M,
    bs: Seq<Seq<T>>,
    tol: T::Real,
    max_iter: int,
    restart: int,
    xs0: Seq<Seq<T>>,
    cycles: Seq<Seq<Visit<T>>>,
    i: int,
) -> bool {
    panel_begins(op, bs, tol, max_iter, xs0, cycles, i) && visits_end(
        op,
        m,
        bs,
        tol,
        cycle_limit(restart, max_iter - panel_steps(op, bs, tol, xs0, cycles, i)),
        panel_iterate(op, bs, tol, xs0, cycles, i),
        cycles[i],
    )
}

/// The cycles of a run.
pub open spec fn panel_run<T: Scalar, A: LinearOperator<T>, M: Preconditioner<T>>(
    op: A,
    m: M,
    bs: Seq<Seq<T>>,
    tol: T::Real,
    max_iter: int,
    restart: int,
    xs0: Seq<Seq<T>>,
    cycles: Seq<Seq<Visit<T>>>,
) -> bool {
    forall|i: int|
        0 <= i < cycles.len() ==> #[trigger] panel_fits(
            op,
            m,
            bs,
            tol,
            max_iter,
            restart,
            xs0,
            cycles,
            i,
        )
}

/// The true relative residual of column `c`, zero for a zero right-hand side.
pub open spec fn column_residual<T: Scalar, A: LinearOperator<T>>(
    op: A,
    bs: Seq<Seq<T>>,
    xs: Seq<Seq<T>>,
    c: int,
) -> T::Real {
    if norm_of(bs[c]).is_zero_spec() {
        <T::Real as Real>::zero_spec()
    } else {
        relative(residual(op, bs[c], xs[c]), bs[c])
    }
}

/// Column `c` has reached the tolerance.
pub open spec fn column_solved<T: Scalar, A: LinearOperator<T>>(
    op: A,
    bs: Seq<Seq<T>>,
    tol: T::Real,
    xs: Seq<Seq<T>>,
    c: int,
) -> bool {
    norm_of(bs[c]).is_zero_spec() || is_solved(op, bs[c], tol, xs[c])
}

/// Every column has reached the tolerance.
pub open spec fn all_solved<T: Scalar, A: LinearOperator<T>>(
    op: A,
    bs: Seq<Seq<T>>,
    tol: T::Real,
    xs: Seq<Seq<T>>,
) -> bool {
    forall|c: int| 0 <= c < bs.len() ==> #[trigger] column_solved(op, bs, tol, xs, c)
}

/// The outcome of a panel solve as a value.
#[verifier::ext_equal]
pub struct PanelOutcome<T: Scalar> {
    pub xs: Seq<Seq<T>>,
    pub iters: int,
    pub converged: bool,
    pub final_res: Seq<T::Real>,
}

/// What is reported of the columns `xs` after `iters` steps.
pub open spec fn panel_report<T: Scalar, A: LinearOperator<T>>(
    op: A,
    bs: Seq<Seq<T>>,
    tol: T::Real,
    xs: Seq<Seq<T>>,
    iters: int,
) -> PanelOutcome<T> {
    PanelOutcome {
        xs,
        iters,
        converged: all_solved(op, bs, tol, xs),
        final_res: Seq::new(bs.len(), |c: int| column_residual(op, bs, xs, c)),
    }
}

/// The run ends in `out`.
pub open spec fn panel_run_ends<T: Scalar, A: LinearOperator<T>, M: Preconditioner<T>>(
    op: A,
    m: M,
    bs: Seq<Seq<T>>,
    tol: T::Real,
    max_iter: int,
    restart: int,
    xs0: Seq<Seq<T>>,
    cycles: Seq<Seq<Visit<T>>>,
    out: PanelOutcome<T>,
) -> bool {
    let k = cycles.len() as int;
    &&& panel_run(op, m, bs, tol, max_iter, restart, xs0, cycles)
    &&& !panel_begins(op, bs, tol, max_iter, xs0, cycles, k)
    &&& out == panel_report(
        op,
        bs,
        tol,
        panel_iterate(op, bs, tol, xs0, cycles, k),
        panel_steps(op, bs, tol, xs0, cycles, k),
    )
}

/// Some run ends in `out`.
pub open spec fn gmres_block_made<T: Scalar, A: LinearOperator<T>, M: Preconditioner<T>>(
    op: A,
    m: M,
    bs: Seq<Seq<T>>,
    tol: T::Real,
    max_iter: int,
    restart: int,
    xs0: Seq<Seq<T>>,
    out: PanelOutcome<T>,
) -> bool {
    exists|cycles: Seq<Seq<Visit<T>>>| #[trigger]
        panel_run_ends(op, m, bs, tol, max_iter, restart, xs0, cycles, out)
}

/// After these cycles the preconditioner refuses column `c` with `e`.
pub open spec fn panel_run_stops<T: Scalar, A: LinearOperator<T>, M: Preconditioner<T>>(
    op: A,
    m: M,
    bs: Seq<Seq<T>>,
    tol: T::Real,
    max_iter: int,
    restart: int,
    xs0: Seq<Seq<T>>,
    cycles: Seq<Seq<Visit<T>>>,
    c: int,
    e: RslabError,
) -> bool {
    let k = cycles.len() as int;
    let xs = panel_iterate(op, bs, tol, xs0, cycles, k);
    &&& panel_run(op, m, bs, tol, max_iter, restart, xs0, cycles)
    &&& panel_begins(op, bs, tol, max_iter, xs0, cycles, k)
    &&& in_play(op, bs, tol, xs, c)
    &&& visit_refused(
        op,
        m,
        bs[c],
        tol,
        cycle_limit(restart, max_iter - panel_steps(op, bs, tol, xs0, cycles, k)),
        xs[c],
        e,
    )
}

/// The preconditioner refuses with `e` in some run.
pub open spec fn gmres_block_refused<T: Scalar, A: LinearOperator<T>, M: Preconditioner<T>>(
    op: A,
    m: M,
    bs: Seq<Seq<T>>,
    tol: T::Real,
    max_iter: int,
    restart: int,
    xs0: Seq<Seq<T>>,
    e: RslabError,
) -> bool {
    exists|cycles: Seq<Seq<Visit<T>>>, c: int| #[trigger]
        panel_run_stops(op, m, bs, tol, max_iter, restart, xs0, cycles, c, e)
}

pub proof fn panel_sweep_kept<T: Scalar, A: LinearOperator<T>>(
    op: A,
    b: Seq<T>,
    x: Seq<T>,
    zs: Seq<Seq<T>>,
    z: Seq<T>,
    j: int,
)
    requires
        j <= zs.len(),
    ensures
        panel_sweep(op, b, x, zs.push(z), j) == panel_sweep(op, b, x, zs, j),
    decreases j,
{
    if j > 0 {
        panel_sweep_kept(op, b, x, zs, z, j - 1);
    }
}

/// One more answer extends the trace of a column.
pub proof fn panel_trace_grows<T: Scalar, A: LinearOperator<T>, M: Preconditioner<T>>(
    op: A,
    m: M,
    b: Seq<T>,
    tol: T::Real,
    limit: int,
    x: Seq<T>,
    zs: Seq<Seq<T>>,
    z: Seq<T>,
)
    requires
        zs.len() < limit,
        panel_trace(op, m, b, tol, limit, x, zs),
        zs.len() > 0 ==> !looks_solved(b, tol, panel_sweep(op, b, x, zs, zs.len() as int)),
        m.gives(panel_sweep(op, b, x, zs, zs.len() as int).v[zs.len() as int], Ok(z)),
    ensures
        panel_trace(op, m, b, tol, limit, x, zs.push(z)),
        panel_sweep(op, b, x, zs.push(z), (zs.len() + 1) as int) == panel_grown(
            panel_sweep(op, b, x, zs, zs.len() as int),
            op.image(z),
        ),
{
    let ws = zs.push(z);
    assert forall|j: int| 0 <= j < ws.len() implies #[trigger] panel_answered(
        op,
        m,
        b,
        x,
        ws,
        j,
    ) by {
        panel_sweep_kept(op, b, x, zs, z, j);
        if j < zs.len() {
            assert(panel_answered(op, m, b, x, zs, j));
            assert(ws[j] == zs[j]);
        }
    }
    assert forall|j: int| 0 < j < ws.len() implies !looks_solved(
        b,
        tol,
        #[trigger] panel_sweep(op, b, x, ws, j),
    ) by {
        panel_sweep_kept(op, b, x, zs, z, j);
    }
    panel_sweep_kept(op, b, x, zs, z, zs.len() as int);
}

pub proof fn panel_kept<T: Scalar, A: LinearOperator<T>>(
    op: A,
    bs: Seq<Seq<T>>,
    tol: T::Real,
    xs0: Seq<Seq<T>>,
    cycles: Seq<Seq<Visit<T>>>,
    vs: Seq<Visit<T>>,
    i: int,
)
    requires
        i <= cycles.len(),
    ensures
        panel_iterate(op, bs, tol, xs0, cycles.push(vs), i) == panel_iterate(
            op,
            bs,
            tol,
            xs0,
            cycles,
            i,
        ),
        panel_steps(op, bs, tol, xs0, cycles.push(vs), i) == panel_steps(
            op,
            bs,
            tol,
            xs0,
            cycles,
            i,
        ),
    decreases i,
{
    if i > 0 {
        panel_kept(op, bs, tol, xs0, cycles, vs, i - 1);
    }
}

/// One more cycle extends the run.
pub proof fn panel_run_grows<T: Scalar, A: LinearOperator<T>, M: Preconditioner<T>>(
    op: A,
    m: M,
    bs: Seq<Seq<T>>,
    tol: T::Real,
    max_iter: int,
    restart: int,
    xs0: Seq<Seq<T>>,
    cycles: Seq<Seq<Visit<T>>>,
    vs: Seq<Visit<T>>,
)
    requires
        panel_run(op, m, bs, tol, max_iter, restart, xs0, cycles),
        panel_begins(op, bs, tol, max_iter, xs0, cycles, cycles.len() as int),
        visits_end(
            op,
            m,
            bs,
            tol,
            cycle_limit(
                restart,
                max_iter - panel_steps(op, bs, tol, xs0, cycles, cycles.len() as int),
            ),
            panel_iterate(op, bs, tol, xs0, cycles, cycles.len() as int),
            vs,
        ),
    ensures
        panel_run(op, m, bs, tol, max_iter, restart, xs0, cycles.push(vs)),
        panel_iterate(op, bs, tol, xs0, cycles.push(vs), (cycles.len() + 1) as int)
            == visits_result(
            op,
            bs,
            tol,
            panel_iterate(op, bs, tol, xs0, cycles, cycles.len() as int),
            vs,
        ),
        panel_steps(op, bs, tol, xs0, cycles.push(vs), (cycles.len() + 1) as int) == panel_steps(
            op,
            bs,
            tol,
            xs0,
            cycles,
            cycles.len() as int,
        ) + longest(
            op,
            bs,
            tol,
            panel_iterate(op, bs, tol, xs0, cycles, cycles.len() as int),
            vs,
        ),
{
    let ws = cycles.push(vs);
    assert forall|i: int| 0 <= i < ws.len() implies #[trigger] panel_fits(
        op,
        m,
        bs,
        tol,
        max_iter,
        restart,
        xs0,
        ws,
        i,
    ) by {
        panel_kept(op, bs, tol, xs0, cycles, vs, i);
        if i < cycles.len() {
            assert(panel_fits(op, m, bs, tol, max_iter, restart, xs0, cycles, i));
            assert(ws[i] == cycles[i]);
        }
    }
    panel_kept(op, bs, tol, xs0, cycles, vs, cycles.len() as int);
}

} // verus!
