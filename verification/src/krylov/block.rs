//! Restarted minimal residuals for a panel of right-hand sides.

use crate::error::RslabError;
use crate::flat::{column_bounds, column_start, norm2, norm_of, part_of};
use crate::krylov::cg::relative;
use crate::krylov::gmres::{is_solved, looks_solved, residual};
use crate::krylov::operator::{panel_column, put_column, LinearOperator, Preconditioner};
use crate::krylov::panel::{
    any_in_play, column_residual, column_solved, columns_of, correction, first_panel,
    gmres_block_made, gmres_block_refused, in_play, longest, longest_is, panel_begins,
    panel_iterate, panel_report, panel_run, panel_run_ends, panel_run_grows, panel_run_stops,
    panel_steps, panel_sweep, panel_trace, panel_trace_grows, visit_ends, visit_refused,
    visit_result, visit_stops, visits_end, visits_result, PanelOutcome, Visit,
};
use crate::krylov::sweep::{combine, least_squares, views, Arnoldi};
use crate::krylov::vectors::{add_vector, difference, plus_vector};
use crate::matrix_ops::zero_vector;
use crate::scalar::{Real, Scalar};
use crate::seqs::{copied, occurs};
use vstd::prelude::*;

verus! {

/// Outcome of a panel solve.
#[derive(Clone)]
pub struct BlockKrylovResult<T: Scalar> {
    /// Solutions, one column for each right-hand side.
    pub x: Vec<T>,
    /// Steps performed; the columns advance together.
    pub iters: usize,
    /// Whether every column reached the tolerance.
    pub converged: bool,
    /// Final relative residual of each column.
    pub final_res: Vec<T::Real>,
}

impl<T: Scalar> BlockKrylovResult<T> {
    pub open spec fn outcome(&self, n: int, s: int) -> PanelOutcome<T> {
        PanelOutcome {
            xs: columns_of(self.x@, n, s),
            iters: self.iters as int,
            converged: self.converged,
            final_res: self.final_res@,
        }
    }
}

/// A column of the panel that is still at work.
pub struct PanelColumn<T: Scalar> {
    pub c: usize,
    pub sweep: Arnoldi<T>,
    pub answers: Ghost<Seq<Seq<T>>>,
}

/// A column after `j` steps of its cycle.
pub open spec fn at_step<T: Scalar, A: LinearOperator<T>, M: Preconditioner<T>>(
    op: A,
    m: M,
    bs: Seq<Seq<T>>,
    tol: T::Real,
    limit: int,
    xs0: Seq<Seq<T>>,
    col: PanelColumn<T>,
    j: int,
) -> bool {
    let c = col.c as int;
    &&& in_play(op, bs, tol, xs0, c)
    &&& col.sweep.wf(op.dim_spec())
    &&& col.sweep.h@.len() == j
    &&& col.answers@.len() == j
    &&& panel_trace(op, m, bs[c], tol, limit, xs0[c], col.answers@)
    &&& col.sweep@ == panel_sweep(op, bs[c], xs0[c], col.answers@, j)
    &&& j > 0 ==> !looks_solved(bs[c], tol, col.sweep@)
}

/// Column `c` is among those at work.
pub open spec fn sits<T: Scalar>(cols: Seq<PanelColumn<T>>, c: int) -> bool {
    exists|p: int| 0 <= p < cols.len() && (#[trigger] cols[p]).c == c
}

/// Column `c` has been through its cycle of at most `j` steps.
pub open spec fn is_through<T: Scalar, A: LinearOperator<T>, M: Preconditioner<T>>(
    op: A,
    m: M,
    bs: Seq<Seq<T>>,
    tol: T::Real,
    limit: int,
    xs0: Seq<Seq<T>>,
    xs: Seq<Seq<T>>,
    vs: Seq<Visit<T>>,
    j: int,
    c: int,
) -> bool {
    &&& visit_ends(op, m, bs[c], tol, limit, xs0[c], vs[c])
    &&& xs[c] == visit_result(op, bs[c], tol, xs0[c], vs[c])
    &&& vs[c].zs.len() <= j
}

/// Every column is at work, through, or not in play.
pub open spec fn accounted<T: Scalar, A: LinearOperator<T>, M: Preconditioner<T>>(
    op: A,
    m: M,
    bs: Seq<Seq<T>>,
    tol: T::Real,
    limit: int,
    xs0: Seq<Seq<T>>,
    xs: Seq<Seq<T>>,
    vs: Seq<Visit<T>>,
    cols: Seq<PanelColumn<T>>,
    j: int,
) -> bool {
    &&& xs0.len() == bs.len()
    &&& xs.len() == bs.len()
    &&& vs.len() == bs.len()
    &&& cols.len() <= bs.len()
    &&& forall|c: int|
        0 <= c < bs.len() ==> (#[trigger] xs[c]).len() == op.dim_spec() && bs[c].len()
            == op.dim_spec()
    &&& forall|p: int|
        0 <= p < cols.len() ==> (#[trigger] cols[p]).c < bs.len() && xs[cols[p].c as int]
            == xs0[cols[p].c as int]
    &&& forall|p: int, q: int|
        0 <= p < q < cols.len() ==> (#[trigger] cols[p]).c != (#[trigger] cols[q]).c
    &&& forall|c: int| #[trigger]
        in_play(op, bs, tol, xs0, c) && !sits(cols, c) ==> is_through(
            op,
            m,
            bs,
            tol,
            limit,
            xs0,
            xs,
            vs,
            j,
            c,
        )
    &&& forall|c: int|
        0 <= c < bs.len() && !in_play(op, bs, tol, xs0, c) ==> #[trigger] xs[c] == xs0[c]
}

/// Every column at work has made `j` steps.
pub open spec fn all_at<T: Scalar, A: LinearOperator<T>, M: Preconditioner<T>>(
    op: A,
    m: M,
    bs: Seq<Seq<T>>,
    tol: T::Real,
    limit: int,
    xs0: Seq<Seq<T>>,
    cols: Seq<PanelColumn<T>>,
    j: int,
) -> bool {
    forall|p: int|
        0 <= p < cols.len() ==> #[trigger] at_step(op, m, bs, tol, limit, xs0, cols[p], j)
}

/// The columns of a panel.
pub fn split_panel<T: Scalar>(b: &[T], n: usize, s: usize) -> (r: Vec<Vec<T>>)
    requires
        b@.len() == n * s,
    ensures
        views(r@) == columns_of(b@, n as int, s as int),
        r@.len() == s,
        forall|c: int| 0 <= c < s ==> (#[trigger] r@[c])@.len() == n,
{
    let len: usize = b.len();
    let mut r: Vec<Vec<T>> = Vec::new();
    let mut c: usize = 0;
    let mut at: usize = 0;
    while c < s
        invariant
            c <= s,
            b@.len() == n * s,
            len == b@.len(),
            at == column_start(n as int, c as int),
            r@.len() == c,
            forall|d: int|
                0 <= d < c ==> (#[trigger] r@[d])@ == panel_column(b@, n as int, d)
                    && r@[d]@.len() == n,
        decreases s - c,
    {
        proof {
            column_bounds(n as int, c as int, s as int);
        }
        r.push(part_of(b, at, at + n));
        at = at + n;
        c = c + 1;
    }
    assert(views(r@) =~= columns_of(b@, n as int, s as int));
    r
}

/// The panel of some columns.
pub fn join_panel<T: Scalar>(xs: &Vec<Vec<T>>, n: usize, total: usize) -> (r: Vec<T>)
    requires
        total == n * xs@.len(),
        forall|c: int| 0 <= c < xs@.len() ==> (#[trigger] xs@[c])@.len() == n,
    ensures
        r@.len() == total,
        columns_of(r@, n as int, xs@.len() as int) == views(xs@),
{
    let mut r = zero_vector::<T>(total);
    let mut c: usize = 0;
    while c < xs.len()
        invariant
            c <= xs@.len(),
            total == n * xs@.len(),
            forall|d: int| 0 <= d < xs@.len() ==> (#[trigger] xs@[d])@.len() == n,
            r@.len() == total,
            forall|d: int| 0 <= d < c ==> #[trigger] panel_column(r@, n as int, d) == xs@[d]@,
        decreases xs@.len() - c,
    {
        put_column(&mut r, n, c, xs[c].as_slice(), Ghost(xs@.len() as int));
        c = c + 1;
    }
    assert(columns_of(r@, n as int, xs@.len() as int) =~= views(xs@));
    r
}

/// The basis vectors that the columns at work ask about next.
fn gather<T: Scalar>(cols: &Vec<PanelColumn<T>>, j: usize, n: usize, total: usize) -> (r: Vec<T>)
    requires
        total == n * cols@.len(),
        forall|p: int|
            0 <= p < cols@.len() ==> (#[trigger] cols@[p]).sweep.wf(n as int)
                && cols@[p].sweep.h@.len() == j,
    ensures
        r@.len() == total,
        forall|p: int|
            0 <= p < cols@.len() ==> #[trigger] panel_column(r@, n as int, p)
                == cols@[p].sweep@.v[j as int],
{
    let mut r = zero_vector::<T>(total);
    let mut p: usize = 0;
    while p < cols.len()
        invariant
            p <= cols@.len(),
            total == n * cols@.len(),
            forall|q: int|
                0 <= q < cols@.len() ==> (#[trigger] cols@[q]).sweep.wf(n as int)
                    && cols@[q].sweep.h@.len() == j,
            r@.len() == total,
            forall|q: int|
                0 <= q < p ==> #[trigger] panel_column(r@, n as int, q)
                    == cols@[q].sweep@.v[j as int],
        decreases cols@.len() - p,
    {
        assert(cols@[p as int].sweep.wf(n as int));
        put_column(&mut r, n, p, cols[p].sweep.v[j].as_slice(), Ghost(cols@.len() as int));
        p = p + 1;
    }
    r
}

/// The combination of basis vectors that a sweep arrives at, and how many of them
/// it takes.
fn sum_up<T: Scalar>(s: &Arnoldi<T>, n: usize) -> (r: (Vec<T>, usize))
    requires
        s.wf(n as int),
    ensures
        r.0@ == correction(s@, n as int),
        r.0@.len() == n,
        r.1 == least_squares(s@).len(),
{
    let y = s.solve(Ghost(n as int));
    let mut vy = zero_vector::<T>(n);
    combine(&mut vy, &s.v, &y);
    (vy, y.len())
}

/// Which columns are at work is all that counts.
proof fn accounted_same<T: Scalar, A: LinearOperator<T>, M: Preconditioner<T>>(
    op: A,
    m: M,
    bs: Seq<Seq<T>>,
    tol: T::Real,
    limit: int,
    xs0: Seq<Seq<T>>,
    xs: Seq<Seq<T>>,
    vs: Seq<Visit<T>>,
    l1: Seq<PanelColumn<T>>,
    l2: Seq<PanelColumn<T>>,
    j: int,
    k: int,
)
    requires
        accounted(op, m, bs, tol, limit, xs0, xs, vs, l1, j),
        j <= k,
        l1.len() == l2.len(),
        forall|p: int| 0 <= p < l1.len() ==> (#[trigger] l1[p]).c == l2[p].c,
    ensures
        accounted(op, m, bs, tol, limit, xs0, xs, vs, l2, k),
{
    assert forall|p: int| 0 <= p < l2.len() implies (#[trigger] l2[p]).c < bs.len()
        && xs[l2[p].c as int] == xs0[l2[p].c as int] by {
        assert(l1[p].c == l2[p].c);
    }
    assert forall|p: int, q: int| 0 <= p < q < l2.len() implies (#[trigger] l2[p]).c != (
    #[trigger] l2[q]).c by {
        assert(l1[p].c != l1[q].c);
    }
    assert forall|c: int| #[trigger]
        in_play(op, bs, tol, xs0, c) && !sits(l2, c) implies is_through(
        op,
        m,
        bs,
        tol,
        limit,
        xs0,
        xs,
        vs,
        k,
        c,
    ) by {
        if sits(l1, c) {
            let p = choose|p: int| 0 <= p < l1.len() && (#[trigger] l1[p]).c == c;
            assert(l2[p].c == c);
        }
    }
}

/// A column that is through leaves the list.
proof fn accounted_out<T: Scalar, A: LinearOperator<T>, M: Preconditioner<T>>(
    op: A,
    m: M,
    bs: Seq<Seq<T>>,
    tol: T::Real,
    limit: int,
    xs0: Seq<Seq<T>>,
    xs: Seq<Seq<T>>,
    vs: Seq<Visit<T>>,
    list: Seq<PanelColumn<T>>,
    j: int,
    p: int,
    x: Seq<T>,
    v: Visit<T>,
)
    requires
        accounted(op, m, bs, tol, limit, xs0, xs, vs, list, j),
        0 <= p < list.len(),
        in_play(op, bs, tol, xs0, list[p].c as int),
        x.len() == op.dim_spec(),
        is_through(
            op,
            m,
            bs,
            tol,
            limit,
            xs0,
            xs.update(list[p].c as int, x),
            vs.update(list[p].c as int, v),
            j,
            list[p].c as int,
        ),
    ensures
        accounted(
            op,
            m,
            bs,
            tol,
            limit,
            xs0,
            xs.update(list[p].c as int, x),
            vs.update(list[p].c as int, v),
            list.remove(p),
            j,
        ),
{
    let c0 = list[p].c as int;
    let xs2 = xs.update(c0, x);
    let vs2 = vs.update(c0, v);
    let rest = list.remove(p);
    assert forall|q: int| 0 <= q < rest.len() implies (#[trigger] rest[q]).c < bs.len()
        && xs2[rest[q].c as int] == xs0[rest[q].c as int] by {
        let q2 = if q < p {
            q
        } else {
            q + 1
        };
        assert(rest[q] == list[q2]);
        assert(list[q2].c != list[p].c);
    }
    assert forall|q: int, r: int| 0 <= q < r < rest.len() implies (#[trigger] rest[q]).c != (
    #[trigger] rest[r]).c by {
        let q2 = if q < p {
            q
        } else {
            q + 1
        };
        let r2 = if r < p {
            r
        } else {
            r + 1
        };
        assert(rest[q] == list[q2] && rest[r] == list[r2]);
    }
    assert forall|c: int| #[trigger]
        in_play(op, bs, tol, xs0, c) && !sits(rest, c) implies is_through(
        op,
        m,
        bs,
        tol,
        limit,
        xs0,
        xs2,
        vs2,
        j,
        c,
    ) by {
        if c != c0 {
            if sits(list, c) {
                let q = choose|q: int| 0 <= q < list.len() && (#[trigger] list[q]).c == c;
                let q2 = if q < p {
                    q
                } else {
                    q - 1
                };
                assert(rest[q2] == list[q]);
            }
            assert(is_through(op, m, bs, tol, limit, xs0, xs, vs, j, c));
        }
    }
    assert forall|c: int|
        0 <= c < bs.len() && !in_play(op, bs, tol, xs0, c) implies #[trigger] xs2[c] == xs0[c] by {
        assert(xs[c] == xs0[c]);
    }
    assert forall|c: int| 0 <= c < bs.len() implies (#[trigger] xs2[c]).len() == op.dim_spec()
        && bs[c].len() == op.dim_spec() by {
        assert(xs[c].len() == op.dim_spec());
    }
}

/// One step of a column with its answer `z` and the image `w` of it.
fn advance<T: Scalar, A: LinearOperator<T>, M: Preconditioner<T>>(
    op: &A,
    precond: &M,
    col: PanelColumn<T>,
    w: Vec<T>,
    Ghost(z): Ghost<Seq<T>>,
    Ghost(bs): Ghost<Seq<Seq<T>>>,
    Ghost(tol): Ghost<T::Real>,
    Ghost(limit): Ghost<int>,
    Ghost(xs0): Ghost<Seq<Seq<T>>>,
    Ghost(j): Ghost<int>,
) -> (r: PanelColumn<T>)
    requires
        at_step(*op, *precond, bs, tol, limit, xs0, col, j),
        0 <= j < limit,
        w@ == op.image(z),
        w@.len() == op.dim_spec(),
        precond.gives(col.sweep@.v[j], Ok(z)),
    ensures
        r.c == col.c,
        r.sweep.wf(op.dim_spec()),
        r.sweep.h@.len() == j + 1,
        r.answers@ == col.answers@.push(z),
        panel_trace(*op, *precond, bs[r.c as int], tol, limit, xs0[r.c as int], r.answers@),
        r.sweep@ == panel_sweep(
            *op,
            bs[r.c as int],
            xs0[r.c as int],
            r.answers@,
            j + 1,
        ),
{
    let ghost c = col.c as int;
    proof {
        panel_trace_grows(*op, *precond, bs[c], tol, limit, xs0[c], col.answers@, z);
    }
    let mut sweep = col.sweep;
    sweep.panel_grow(w);
    PanelColumn { c: col.c, sweep, answers: Ghost(col.answers@.push(z)) }
}

/// The panel of `k` columns fits.
proof fn panel_fits_in(n: int, k: int, s: int)
    requires
        0 <= n,
        0 <= k <= s,
    ensures
        0 <= n * k <= n * s,
{
    assert(0 <= n * k <= n * s) by (nonlinear_arith)
        requires
            0 <= n,
            0 <= k <= s,
    ;
}

/// The first of the waiting columns joins the others.
proof fn list_moved<T: Scalar>(
    rest: Seq<PanelColumn<T>>,
    cols: Seq<PanelColumn<T>>,
    col: PanelColumn<T>,
)
    requires
        cols.len() > 0,
        col.c == cols[0].c,
    ensures
        ({
            let l1 = rest + cols;
            let l2 = rest.push(col) + cols.remove(0);
            l1.len() == l2.len() && forall|p: int|
                0 <= p < l1.len() ==> (#[trigger] l1[p]).c == l2[p].c
        }),
{
}

/// The first of the waiting columns is taken out.
proof fn list_shrunk<T: Scalar>(rest: Seq<PanelColumn<T>>, cols: Seq<PanelColumn<T>>)
    requires
        cols.len() > 0,
    ensures
        (rest + cols).remove(rest.len() as int) == rest + cols.remove(0),
        (rest + cols)[rest.len() as int] == cols[0],
{
    assert((rest + cols).remove(rest.len() as int) =~= rest + cols.remove(0));
}

/// Add the update of a column that looks solved, if it has one.
fn settle_column<T: Scalar, A: LinearOperator<T>, M: Preconditioner<T>>(
    op: &A,
    precond: &M,
    col: &PanelColumn<T>,
    xs: &mut Vec<Vec<T>>,
    n: usize,
    Ghost(b): Ghost<Seq<T>>,
    Ghost(tol): Ghost<T::Real>,
    Ghost(limit): Ghost<int>,
) -> (r: Result<Ghost<Visit<T>>, RslabError>)
    requires
        precond.ready(),
        n == op.dim_spec(),
        col.c < old(xs)@.len(),
        old(xs)@[col.c as int]@.len() == n,
        col.sweep.wf(n as int),
        col.sweep.h@.len() == col.answers@.len(),
        col.answers@.len() > 0,
        panel_trace(*op, *precond, b, tol, limit, old(xs)@[col.c as int]@, col.answers@),
        col.sweep@ == panel_sweep(
            *op,
            b,
            old(xs)@[col.c as int]@,
            col.answers@,
            col.answers@.len() as int,
        ),
        looks_solved(b, tol, col.sweep@),
    ensures
        match r {
            Ok(v) => {
                &&& v@.zs == col.answers@
                &&& visit_ends(*op, *precond, b, tol, limit, old(xs)@[col.c as int]@, v@)
                &&& final(xs)@.len() == old(xs)@.len()
                &&& final(xs)@[col.c as int]@.len() == n
                &&& views(final(xs)@) == views(old(xs)@).update(
                    col.c as int,
                    visit_result(*op, b, tol, old(xs)@[col.c as int]@, v@),
                )
            },
            Err(e) => visit_refused(*op, *precond, b, tol, limit, old(xs)@[col.c as int]@, e),
        },
{
    proof {
        reveal(visit_ends);
    }
    let c: usize = col.c;
    let ghost x = xs@[c as int]@;
    let ghost all = xs@;
    let (vy, d) = sum_up(&col.sweep, n);
    if d == 0 {
        let ghost v: Visit<T> = Visit { zs: col.answers@, last: Seq::empty() };
        assert(views(xs@) =~= views(all).update(c as int, x));
        return Ok(Ghost(v));
    }
    let mut z = zero_vector::<T>(n);
    match precond.apply(vy.as_slice(), &mut z) {
        Ok(()) => {},
        Err(e) => {
            assert(visit_stops(*op, *precond, b, tol, limit, x, col.answers@, e));
            return Err(e);
        },
    }
    let mut xc = copied(&xs[c]);
    add_vector(&mut xc, z.as_slice());
    let ghost v: Visit<T> = Visit { zs: col.answers@, last: z@ };
    xs.set(c, xc);
    assert(views(xs@) =~= views(all).update(c as int, plus_vector(x, z@)));
    Ok(Ghost(v))
}

/// One step of every column at work. Those that then look solved are updated and
/// leave the panel.
#[verifier::rlimit(60)]
fn step_panel<T: Scalar, A: LinearOperator<T>, M: Preconditioner<T>>(
    op: &A,
    bnorm: &Vec<T::Real>,
    precond: &M,
    tol: T::Real,
    j: usize,
    xs: &mut Vec<Vec<T>>,
    cols: Vec<PanelColumn<T>>,
    n: usize,
    Ghost(bs): Ghost<Seq<Seq<T>>>,
    Ghost(limit): Ghost<int>,
    Ghost(xs0): Ghost<Seq<Seq<T>>>,
    Ghost(vs0): Ghost<Seq<Visit<T>>>,
) -> (r: Result<(Vec<PanelColumn<T>>, Ghost<Seq<Visit<T>>>), RslabError>)
    requires
        op.ready(),
        precond.ready(),
        n == op.dim_spec(),
        n * bs.len() <= usize::MAX,
        bnorm@.len() == bs.len(),
        forall|c: int| 0 <= c < bs.len() ==> #[trigger] bnorm@[c] == norm_of(bs[c]),
        j < limit,
        cols@.len() > 0,
        accounted(*op, *precond, bs, tol, limit, xs0, views(old(xs)@), vs0, cols@, j as int),
        all_at(*op, *precond, bs, tol, limit, xs0, cols@, j as int),
    ensures
        match r {
            Ok(k) => {
                &&& accounted(
                    *op,
                    *precond,
                    bs,
                    tol,
                    limit,
                    xs0,
                    views(final(xs)@),
                    k.1@,
                    k.0@,
                    j + 1,
                )
                &&& all_at(*op, *precond, bs, tol, limit, xs0, k.0@, j + 1)
                &&& sits(k.0@, cols@[0].c as int) || k.1@[cols@[0].c as int].zs.len() == j + 1
                &&& in_play(*op, bs, tol, xs0, cols@[0].c as int)
            },
            Err(e) => exists|c: int| #[trigger]
                in_play(*op, bs, tol, xs0, c) && visit_refused(
                    *op,
                    *precond,
                    bs[c],
                    tol,
                    limit,
                    xs0[c],
                    e,
                ),
        },
{
    let ghost all = cols@;
    let sa: usize = cols.len();
    proof {
        panel_fits_in(n as int, sa as int, bs.len() as int);
        assert forall|p: int| 0 <= p < all.len() implies (#[trigger] all[p]).sweep.wf(n as int)
            && all[p].sweep.h@.len() == j by {
            assert(at_step(*op, *precond, bs, tol, limit, xs0, all[p], j as int));
        }
        assert(at_step(*op, *precond, bs, tol, limit, xs0, all[0], j as int));
    }
    let total: usize = n * sa;
    let panel = gather(&cols, j, n, total);
    let mut z = zero_vector::<T>(total);
    match precond.apply_block(panel.as_slice(), &mut z, sa, n) {
        Ok(()) => {},
        Err(e) => {
            proof {
                let p = choose|p: int|
                    0 <= p < sa && precond.gives(
                        #[trigger] panel_column(panel@, n as int, p),
                        Err(e),
                    );
                let col = all[p];
                assert(at_step(*op, *precond, bs, tol, limit, xs0, col, j as int));
                let c = col.c as int;
                assert(visit_stops(*op, *precond, bs[c], tol, limit, xs0[c], col.answers@, e));
                assert(in_play(*op, bs, tol, xs0, c));
            }
            return Err(e);
        },
    }
    let mut w = zero_vector::<T>(total);
    op.apply_block(z.as_slice(), &mut w, sa);
    let mut cols = cols;
    let mut rest: Vec<PanelColumn<T>> = Vec::new();
    let ghost mut vs = vs0;
    let mut k: usize = 0;
    let mut at: usize = 0;
    proof {
        assert(rest@ + cols@ =~= all);
        accounted_same(
            *op,
            *precond,
            bs,
            tol,
            limit,
            xs0,
            views(xs@),
            vs0,
            all,
            all,
            j as int,
            j + 1,
        );
    }
    while k < sa
        invariant
            op.ready(),
            precond.ready(),
            n == op.dim_spec(),
            bnorm@.len() == bs.len(),
            forall|c: int| 0 <= c < bs.len() ==> #[trigger] bnorm@[c] == norm_of(bs[c]),
            j < limit,
            k <= sa,
            sa == all.len(),
            total == n * sa,
            at == column_start(n as int, k as int),
            z@.len() == total,
            w@.len() == total,
            all_at(*op, *precond, bs, tol, limit, xs0, all, j as int),
            forall|p: int|
                0 <= p < sa ==> #[trigger] panel_column(panel@, n as int, p)
                    == all[p].sweep@.v[j as int],
            forall|p: int|
                0 <= p < sa ==> precond.gives(
                    panel_column(panel@, n as int, p),
                    Ok(#[trigger] panel_column(z@, n as int, p)),
                ),
            forall|p: int|
                0 <= p < sa ==> #[trigger] panel_column(w@, n as int, p) == op.image(
                    panel_column(z@, n as int, p),
                ),
            cols@ == all.subrange(k as int, sa as int),
            accounted(
                *op,
                *precond,
                bs,
                tol,
                limit,
                xs0,
                views(xs@),
                vs,
                rest@ + cols@,
                j + 1,
            ),
            all_at(*op, *precond, bs, tol, limit, xs0, rest@, j + 1),
            all.len() > 0,
            in_play(*op, bs, tol, xs0, all[0].c as int),
            k > 0 ==> sits(rest@, all[0].c as int) || vs[all[0].c as int].zs.len() == j + 1,
            forall|p: int, q: int|
                0 <= p < q < all.len() ==> (#[trigger] all[p]).c != (#[trigger] all[q]).c,
        decreases sa - k,
    {
        let ghost list = rest@ + cols@;
        let ghost waiting = cols@;
        let ghost going = rest@;
        let ghost xs1 = views(xs@);
        let ghost vs1 = vs;
        proof {
            column_bounds(n as int, k as int, sa as int);
            assert(waiting[0] == all[k as int]);
            assert(at_step(*op, *precond, bs, tol, limit, xs0, all[k as int], j as int));
            assert(panel_column(w@, n as int, k as int) == op.image(
                panel_column(z@, n as int, k as int),
            ));
            assert(panel_column(panel@, n as int, k as int) == all[k as int].sweep@.v[j as int]);
            list_shrunk(going, waiting);
            assert(list[going.len() as int] == all[k as int]);
        }
        let ghost zk = panel_column(z@, n as int, k as int);
        let wk = part_of(w.as_slice(), at, at + n);
        assert(wk@ == panel_column(w@, n as int, k as int));
        let col0 = cols.remove(0);
        assert(cols@ =~= all.subrange(k + 1, sa as int));
        let col = advance(
            op,
            precond,
            col0,
            wk,
            Ghost(zk),
            Ghost(bs),
            Ghost(tol),
            Ghost(limit),
            Ghost(xs0),
            Ghost(j as int),
        );
        let c: usize = col.c;
        let done = tol.ge(col.sweep.estimate().over(bnorm[c]));
        assert(done == looks_solved(bs[c as int], tol, col.sweep@));
        assert(xs1[c as int] == xs0[c as int]);
        assert(xs1[c as int] == xs@[c as int]@);
        assert(xs1[c as int].len() == n);
        if done {
            match settle_column(
                op,
                precond,
                &col,
                xs,
                n,
                Ghost(bs[c as int]),
                Ghost(tol),
                Ghost(limit),
            ) {
                Ok(v) => {
                    proof {
                        let x2 = visit_result(*op, bs[c as int], tol, xs0[c as int], v@);
                        vs = vs.update(c as int, v@);
                        assert(views(xs@) == xs1.update(c as int, x2));
                        assert(views(xs@)[c as int] == x2);
                        assert(is_through(
                            *op,
                            *precond,
                            bs,
                            tol,
                            limit,
                            xs0,
                            xs1.update(c as int, x2),
                            vs1.update(c as int, v@),
                            j + 1,
                            c as int,
                        ));
                        accounted_out(
                            *op,
                            *precond,
                            bs,
                            tol,
                            limit,
                            xs0,
                            xs1,
                            vs1,
                            list,
                            j + 1,
                            going.len() as int,
                            x2,
                            v@,
                        );
                        if k > 0 {
                            assert(all[0].c != all[k as int].c);
                        }
                    }
                },
                Err(e) => {
                    assert(in_play(*op, bs, tol, xs0, c as int));
                    return Err(e);
                },
            }
        } else {
            proof {
                assert(at_step(*op, *precond, bs, tol, limit, xs0, col, j + 1));
                list_moved(going, waiting, col);
            }
            rest.push(col);
            proof {
                accounted_same(
                    *op,
                    *precond,
                    bs,
                    tol,
                    limit,
                    xs0,
                    views(xs@),
                    vs,
                    list,
                    rest@ + cols@,
                    j + 1,
                    j + 1,
                );
                assert(all_at(*op, *precond, bs, tol, limit, xs0, rest@, j + 1));
                let c0 = all[0].c as int;
                if k > 0 {
                    if sits(going, c0) {
                        let p = choose|p: int|
                            0 <= p < going.len() && (#[trigger] going[p]).c == c0;
                        assert(rest@[p].c == c0);
                    }
                } else {
                    assert(rest@[going.len() as int].c == c0);
                }
            }
        }
        at = at + n;
        k = k + 1;
    }
    assert(rest@ + cols@ =~= rest@);
    Ok((rest, Ghost(vs)))
}

/// Add the updates of the columns that are still at work at the end of a cycle.
#[verifier::rlimit(60)]
fn close_panel<T: Scalar, A: LinearOperator<T>, M: Preconditioner<T>>(
    op: &A,
    precond: &M,
    xs: &mut Vec<Vec<T>>,
    cols: Vec<PanelColumn<T>>,
    n: usize,
    Ghost(tol): Ghost<T::Real>,
    Ghost(bs): Ghost<Seq<Seq<T>>>,
    Ghost(limit): Ghost<int>,
    Ghost(xs0): Ghost<Seq<Seq<T>>>,
    Ghost(vs0): Ghost<Seq<Visit<T>>>,
) -> (r: Result<Ghost<Seq<Visit<T>>>, RslabError>)
    requires
        op.ready(),
        precond.ready(),
        n == op.dim_spec(),
        n * bs.len() <= usize::MAX,
        limit > 0,
        cols@.len() > 0,
        accounted(*op, *precond, bs, tol, limit, xs0, views(old(xs)@), vs0, cols@, limit),
        all_at(*op, *precond, bs, tol, limit, xs0, cols@, limit),
    ensures
        match r {
            Ok(vs) => {
                &&& accounted(
                    *op,
                    *precond,
                    bs,
                    tol,
                    limit,
                    xs0,
                    views(final(xs)@),
                    vs@,
                    Seq::empty(),
                    limit,
                )
                &&& vs@[cols@[0].c as int].zs.len() == limit
                &&& in_play(*op, bs, tol, xs0, cols@[0].c as int)
            },
            Err(e) => exists|c: int| #[trigger]
                in_play(*op, bs, tol, xs0, c) && visit_refused(
                    *op,
                    *precond,
                    bs[c],
                    tol,
                    limit,
                    xs0[c],
                    e,
                ),
        },
{
    let ghost all = cols@;
    let sa: usize = cols.len();
    proof {
        panel_fits_in(n as int, sa as int, bs.len() as int);
        assert(at_step(*op, *precond, bs, tol, limit, xs0, all[0], limit));
    }
    let total: usize = n * sa;
    let mut panel = zero_vector::<T>(total);
    let mut p: usize = 0;
    while p < sa
        invariant
            p <= sa,
            sa == cols@.len(),
            cols@ == all,
            n == op.dim_spec(),
            total == n * sa,
            panel@.len() == total,
            all_at(*op, *precond, bs, tol, limit, xs0, all, limit),
            forall|q: int|
                0 <= q < p ==> #[trigger] panel_column(panel@, n as int, q) == correction(
                    all[q].sweep@,
                    n as int,
                ),
        decreases sa - p,
    {
        assert(at_step(*op, *precond, bs, tol, limit, xs0, all[p as int], limit));
        let (vy, d) = sum_up(&cols[p].sweep, n);
        put_column(&mut panel, n, p, vy.as_slice(), Ghost(sa as int));
        p = p + 1;
    }
    let mut z = zero_vector::<T>(total);
    match precond.apply_block(panel.as_slice(), &mut z, sa, n) {
        Ok(()) => {},
        Err(e) => {
            proof {
                let q = choose|q: int|
                    0 <= q < sa && precond.gives(
                        #[trigger] panel_column(panel@, n as int, q),
                        Err(e),
                    );
                let col = all[q];
                assert(at_step(*op, *precond, bs, tol, limit, xs0, col, limit));
                let c = col.c as int;
                assert(visit_stops(*op, *precond, bs[c], tol, limit, xs0[c], col.answers@, e));
                assert(in_play(*op, bs, tol, xs0, c));
            }
            return Err(e);
        },
    }
    let mut cols = cols;
    let ghost mut vs = vs0;
    let mut k: usize = 0;
    let mut at: usize = 0;
    assert(cols@ =~= all.subrange(0, sa as int));
    while k < sa
        invariant
            n == op.dim_spec(),
            limit > 0,
            k <= sa,
            sa == all.len(),
            total == n * sa,
            at == column_start(n as int, k as int),
            z@.len() == total,
            all_at(*op, *precond, bs, tol, limit, xs0, all, limit),
            forall|q: int|
                0 <= q < sa ==> #[trigger] panel_column(panel@, n as int, q) == correction(
                    all[q].sweep@,
                    n as int,
                ),
            forall|q: int|
                0 <= q < sa ==> precond.gives(
                    panel_column(panel@, n as int, q),
                    Ok(#[trigger] panel_column(z@, n as int, q)),
                ),
            cols@ == all.subrange(k as int, sa as int),
            accounted(*op, *precond, bs, tol, limit, xs0, views(xs@), vs, cols@, limit),
            all.len() > 0,
            in_play(*op, bs, tol, xs0, all[0].c as int),
            k > 0 ==> vs[all[0].c as int].zs.len() == limit,
            forall|q: int, r: int|
                0 <= q < r < all.len() ==> (#[trigger] all[q]).c != (#[trigger] all[r]).c,
        decreases sa - k,
    {
        let ghost list = cols@;
        let ghost xs1 = views(xs@);
        let ghost vs1 = vs;
        let ghost old_xs = xs@;
        proof {
            column_bounds(n as int, k as int, sa as int);
            assert(list[0] == all[k as int]);
            assert(at_step(*op, *precond, bs, tol, limit, xs0, all[k as int], limit));
            assert(panel_column(panel@, n as int, k as int) == correction(
                all[k as int].sweep@,
                n as int,
            ));
            assert(panel_column(z@, n as int, k as int).len() == n);
            assert(precond.gives(
                panel_column(panel@, n as int, k as int),
                Ok(panel_column(z@, n as int, k as int)),
            ));
        }
        let zk = part_of(z.as_slice(), at, at + n);
        assert(zk@ == panel_column(z@, n as int, k as int));
        let col = cols.remove(0);
        assert(cols@ =~= all.subrange(k + 1, sa as int));
        let c: usize = col.c;
        assert(xs1[c as int] == xs0[c as int]);
        assert(xs1[c as int] == xs@[c as int]@);
        let mut xc = copied(&xs[c]);
        add_vector(&mut xc, zk.as_slice());
        let ghost x2 = xc@;
        xs.set(c, xc);
        proof {
            reveal(visit_ends);
            let v: Visit<T> = Visit { zs: col.answers@, last: zk@ };
            assert(views(xs@) =~= xs1.update(c as int, x2));
            assert(x2 == visit_result(*op, bs[c as int], tol, xs0[c as int], v));
            vs = vs.update(c as int, v);
            accounted_out(
                *op,
                *precond,
                bs,
                tol,
                limit,
                xs0,
                xs1,
                vs1,
                list,
                limit,
                0,
                x2,
                v,
            );
            assert(list.remove(0) =~= cols@);
            if k > 0 {
                assert(all[0].c != all[k as int].c);
            }
        }
        at = at + n;
        k = k + 1;
    }
    assert(cols@ =~= Seq::<PanelColumn<T>>::empty());
    Ok(Ghost(vs))
}

/// One cycle of the panel.
#[verifier::rlimit(40)]
fn cycle_panel<T: Scalar, A: LinearOperator<T>, M: Preconditioner<T>>(
    op: &A,
    bnorm: &Vec<T::Real>,
    precond: &M,
    tol: T::Real,
    limit: usize,
    xs: &mut Vec<Vec<T>>,
    cols: Vec<PanelColumn<T>>,
    n: usize,
    Ghost(bs): Ghost<Seq<Seq<T>>>,
    Ghost(vs0): Ghost<Seq<Visit<T>>>,
) -> (r: Result<(usize, Ghost<Seq<Visit<T>>>), RslabError>)
    requires
        op.ready(),
        precond.ready(),
        n == op.dim_spec(),
        n * bs.len() <= usize::MAX,
        bnorm@.len() == bs.len(),
        forall|c: int| 0 <= c < bs.len() ==> #[trigger] bnorm@[c] == norm_of(bs[c]),
        limit > 0,
        cols@.len() > 0,
        accounted(
            *op,
            *precond,
            bs,
            tol,
            limit as int,
            views(old(xs)@),
            views(old(xs)@),
            vs0,
            cols@,
            0,
        ),
        all_at(*op, *precond, bs, tol, limit as int, views(old(xs)@), cols@, 0),
    ensures
        match r {
            Ok(k) => {
                &&& 0 < k.0 <= limit
                &&& visits_end(*op, *precond, bs, tol, limit as int, views(old(xs)@), k.1@)
                &&& views(final(xs)@) == visits_result(*op, bs, tol, views(old(xs)@), k.1@)
                &&& k.0 == longest(*op, bs, tol, views(old(xs)@), k.1@)
                &&& final(xs)@.len() == bs.len()
                &&& forall|c: int|
                    0 <= c < bs.len() ==> (#[trigger] final(xs)@[c])@.len() == n
            },
            Err(e) => exists|c: int| #[trigger]
                in_play(*op, bs, tol, views(old(xs)@), c) && visit_refused(
                    *op,
                    *precond,
                    bs[c],
                    tol,
                    limit as int,
                    views(old(xs)@)[c],
                    e,
                ),
        },
{
    let ghost xs0 = views(xs@);
    let ghost first = cols@[0].c as int;
    assert(at_step(*op, *precond, bs, tol, limit as int, xs0, cols@[0], 0));
    let mut cols = cols;
    let ghost mut vs = vs0;
    let ghost mut c0: int = first;
    let mut j: usize = 0;
    while j < limit && cols.len() > 0
        invariant
            op.ready(),
            precond.ready(),
            n == op.dim_spec(),
            n * bs.len() <= usize::MAX,
            bnorm@.len() == bs.len(),
            forall|c: int| 0 <= c < bs.len() ==> #[trigger] bnorm@[c] == norm_of(bs[c]),
            limit > 0,
            j <= limit,
            xs0 == views(old(xs)@),
            accounted(
                *op,
                *precond,
                bs,
                tol,
                limit as int,
                xs0,
                views(xs@),
                vs,
                cols@,
                j as int,
            ),
            all_at(*op, *precond, bs, tol, limit as int, xs0, cols@, j as int),
            in_play(*op, bs, tol, xs0, c0),
            j == 0 ==> cols@.len() > 0,
            j > 0 ==> sits(cols@, c0) || vs[c0].zs.len() == j,
        decreases limit - j,
    {
        let ghost head = cols@[0].c as int;
        match step_panel(
            op,
            bnorm,
            precond,
            tol,
            j,
            xs,
            cols,
            n,
            Ghost(bs),
            Ghost(limit as int),
            Ghost(xs0),
            Ghost(vs),
        ) {
            Ok((rest, got)) => {
                cols = rest;
                proof {
                    vs = got@;
                    c0 = head;
                }
            },
            Err(e) => {
                return Err(e);
            },
        }
        j = j + 1;
    }
    if cols.len() > 0 {
        let ghost head = cols@[0].c as int;
        match close_panel(
            op,
            precond,
            xs,
            cols,
            n,
            Ghost(tol),
            Ghost(bs),
            Ghost(limit as int),
            Ghost(xs0),
            Ghost(vs),
        ) {
            Ok(got) => {
                proof {
                    vs = got@;
                    cycle_over(
                        *op,
                        *precond,
                        bs,
                        tol,
                        limit as int,
                        xs0,
                        views(xs@),
                        vs,
                        Seq::empty(),
                        j as int,
                        head,
                    );
                    assert forall|c: int| 0 <= c < bs.len() implies (#[trigger] xs@[c])@.len()
                        == n by {
                        assert(views(xs@)[c].len() == n);
                    }
                }
                Ok((j, Ghost(vs)))
            },
            Err(e) => Err(e),
        }
    } else {
        proof {
            cycle_over(
                *op,
                *precond,
                bs,
                tol,
                limit as int,
                xs0,
                views(xs@),
                vs,
                cols@,
                j as int,
                c0,
            );
            assert forall|c: int| 0 <= c < bs.len() implies (#[trigger] xs@[c])@.len() == n by {
                assert(views(xs@)[c].len() == n);
            }
        }
        Ok((j, Ghost(vs)))
    }
}

/// With no column left at work, the cycle is over.
proof fn cycle_over<T: Scalar, A: LinearOperator<T>, M: Preconditioner<T>>(
    op: A,
    m: M,
    bs: Seq<Seq<T>>,
    tol: T::Real,
    limit: int,
    xs0: Seq<Seq<T>>,
    xs: Seq<Seq<T>>,
    vs: Seq<Visit<T>>,
    cols: Seq<PanelColumn<T>>,
    j: int,
    c0: int,
)
    requires
        accounted(op, m, bs, tol, limit, xs0, xs, vs, cols, j),
        cols.len() == 0,
        in_play(op, bs, tol, xs0, c0),
        vs[c0].zs.len() == j,
    ensures
        visits_end(op, m, bs, tol, limit, xs0, vs),
        xs == visits_result(op, bs, tol, xs0, vs),
        longest(op, bs, tol, xs0, vs) == j,
{
    assert forall|c: int| #[trigger] in_play(op, bs, tol, xs0, c) implies is_through(
        op,
        m,
        bs,
        tol,
        limit,
        xs0,
        xs,
        vs,
        j,
        c,
    ) by {
        assert(!sits(cols, c));
    }
    assert forall|c: int| 0 <= c < xs.len() implies #[trigger] xs[c] == visits_result(
        op,
        bs,
        tol,
        xs0,
        vs,
    )[c] by {
        if in_play(op, bs, tol, xs0, c) {
            assert(is_through(op, m, bs, tol, limit, xs0, xs, vs, j, c));
        }
    }
    assert(xs =~= visits_result(op, bs, tol, xs0, vs));
    longest_is(op, bs, tol, xs0, vs, j, c0);
}

/// The unsettled columns.
fn list_live(settled: &Vec<bool>) -> (r: Vec<usize>)
    ensures
        r@.len() <= settled@.len(),
        forall|a: int|
            0 <= a < r@.len() ==> (#[trigger] r@[a]) < settled@.len() && !settled@[r@[a] as int],
        forall|a: int, b: int| 0 <= a < b < r@.len() ==> #[trigger] r@[a] < #[trigger] r@[b],
        forall|c: int| 0 <= c < settled@.len() && !(#[trigger] settled@[c]) ==> occurs(r@, c),
{
    let mut r: Vec<usize> = Vec::new();
    let mut i: usize = 0;
    while i < settled.len()
        invariant
            i <= settled@.len(),
            r@.len() <= i,
            forall|a: int|
                0 <= a < r@.len() ==> (#[trigger] r@[a]) < i && !settled@[r@[a] as int],
            forall|a: int, b: int| 0 <= a < b < r@.len() ==> #[trigger] r@[a] < #[trigger] r@[b],
            forall|c: int| 0 <= c < i && !(#[trigger] settled@[c]) ==> occurs(r@, c),
        decreases settled@.len() - i,
    {
        let ghost r0 = r@;
        if !settled[i] {
            r.push(i);
            assert(r@[r0.len() as int] == i);
        }
        assert forall|c: int| 0 <= c < i + 1 && !(#[trigger] settled@[c]) implies occurs(
            r@,
            c,
        ) by {
            if c < i {
                assert(occurs(r0, c));
                let q = choose|q: int| 0 <= q < r0.len() && r0[q] == c;
                assert(r@[q] == c);
            }
        }
        i = i + 1;
    }
    r
}

/// Begin a cycle: the columns whose true residual is still too large, each with
/// the sweep that starts from it.
#[verifier::rlimit(60)]
fn open_panel<T: Scalar, A: LinearOperator<T>, M: Preconditioner<T>>(
    op: &A,
    bs: &Vec<Vec<T>>,
    bnorm: &Vec<T::Real>,
    precond: &M,
    tol: T::Real,
    xs: &Vec<Vec<T>>,
    settled: &mut Vec<bool>,
    n: usize,
    Ghost(limit): Ghost<int>,
    Ghost(vs0): Ghost<Seq<Visit<T>>>,
) -> (cols: Vec<PanelColumn<T>>)
    requires
        op.ready(),
        n == op.dim_spec(),
        n * bs@.len() <= usize::MAX,
        bnorm@.len() == bs@.len(),
        xs@.len() == bs@.len(),
        vs0.len() == bs@.len(),
        old(settled)@.len() == bs@.len(),
        limit >= 0,
        forall|c: int| 0 <= c < bs@.len() ==> #[trigger] bnorm@[c] == norm_of(bs@[c]@),
        forall|c: int| 0 <= c < bs@.len() ==> (#[trigger] bs@[c])@.len() == n,
        forall|c: int| 0 <= c < bs@.len() ==> (#[trigger] xs@[c])@.len() == n,
        forall|c: int|
            0 <= c < bs@.len() && norm_of((#[trigger] bs@[c])@).is_zero_spec() ==> old(settled)@[c],
        forall|c: int|
            0 <= c < bs@.len() && #[trigger] old(settled)@[c] ==> !in_play(
                *op,
                views(bs@),
                tol,
                views(xs@),
                c,
            ),
    ensures
        final(settled)@.len() == bs@.len(),
        forall|c: int|
            0 <= c < bs@.len() && norm_of((#[trigger] bs@[c])@).is_zero_spec()
                ==> final(settled)@[c],
        forall|c: int|
            0 <= c < bs@.len() && #[trigger] final(settled)@[c] ==> !in_play(
                *op,
                views(bs@),
                tol,
                views(xs@),
                c,
            ),
        accounted(
            *op,
            *precond,
            views(bs@),
            tol,
            limit,
            views(xs@),
            views(xs@),
            vs0,
            cols@,
            0,
        ),
        all_at(*op, *precond, views(bs@), tol, limit, views(xs@), cols@, 0),
        cols@.len() > 0 <==> any_in_play(*op, views(bs@), tol, views(xs@)),
{
    let ghost bv = views(bs@);
    let ghost xv = views(xs@);
    let ghost settled0 = settled@;
    let live = list_live(settled);
    let lw: usize = live.len();
    proof {
        panel_fits_in(n as int, lw as int, bs@.len() as int);
    }
    let total: usize = n * lw;
    let mut xc = zero_vector::<T>(total);
    let mut a: usize = 0;
    while a < lw
        invariant
            a <= lw,
            lw == live@.len(),
            total == n * lw,
            xc@.len() == total,
            forall|d: int| 0 <= d < lw ==> (#[trigger] live@[d]) < xs@.len(),
            forall|c: int| 0 <= c < xs@.len() ==> (#[trigger] xs@[c])@.len() == n,
            forall|d: int|
                0 <= d < a ==> #[trigger] panel_column(xc@, n as int, d)
                    == xs@[live@[d] as int]@,
        decreases lw - a,
    {
        put_column(&mut xc, n, a, xs[live[a]].as_slice(), Ghost(lw as int));
        a = a + 1;
    }
    let mut ax = zero_vector::<T>(total);
    op.apply_block(xc.as_slice(), &mut ax, lw);
    let mut cols: Vec<PanelColumn<T>> = Vec::new();
    let mut k: usize = 0;
    let mut at: usize = 0;
    while k < lw
        invariant
            n == op.dim_spec(),
            k <= lw,
            lw == live@.len(),
            total == n * lw,
            at == column_start(n as int, k as int),
            ax@.len() == total,
            limit >= 0,
            bv == views(bs@),
            xv == views(xs@),
            bnorm@.len() == bs@.len(),
            xs@.len() == bs@.len(),
            settled@.len() == bs@.len(),
            settled0.len() == bs@.len(),
            forall|c: int| 0 <= c < bs@.len() ==> #[trigger] bnorm@[c] == norm_of(bs@[c]@),
            forall|c: int| 0 <= c < bs@.len() ==> (#[trigger] bs@[c])@.len() == n,
            forall|c: int| 0 <= c < bs@.len() ==> (#[trigger] xs@[c])@.len() == n,
            forall|c: int|
                0 <= c < bs@.len() && norm_of((#[trigger] bs@[c])@).is_zero_spec() ==> settled0[c],
            forall|c: int| 0 <= c < bs@.len() && #[trigger] settled0[c] ==> settled@[c],
            forall|d: int|
                0 <= d < lw ==> (#[trigger] live@[d]) < bs@.len() && !settled0[live@[d] as int],
            forall|d: int, e: int|
                0 <= d < e < lw ==> #[trigger] live@[d] < #[trigger] live@[e],
            forall|d: int|
                0 <= d < lw ==> #[trigger] panel_column(xc@, n as int, d)
                    == xs@[live@[d] as int]@,
            forall|d: int|
                0 <= d < lw ==> #[trigger] panel_column(ax@, n as int, d) == op.image(
                    panel_column(xc@, n as int, d),
                ),
            forall|c: int|
                0 <= c < bs@.len() && #[trigger] settled@[c] ==> !in_play(*op, bv, tol, xv, c),
            cols@.len() <= k,
            forall|p: int|
                0 <= p < cols@.len() ==> (#[trigger] cols@[p]).c < bs@.len() && (k < lw
                    ==> cols@[p].c < live@[k as int]),
            forall|p: int, q: int|
                0 <= p < q < cols@.len() ==> (#[trigger] cols@[p]).c != (#[trigger] cols@[q]).c,
            forall|d: int|
                0 <= d < k && in_play(*op, bv, tol, xv, (#[trigger] live@[d]) as int) ==> sits(
                    cols@,
                    live@[d] as int,
                ),
            all_at(*op, *precond, bv, tol, limit, xv, cols@, 0),
        decreases lw - k,
    {
        let ghost cols0 = cols@;
        proof {
            column_bounds(n as int, k as int, lw as int);
            assert(panel_column(ax@, n as int, k as int) == op.image(
                panel_column(xc@, n as int, k as int),
            ));
            if k + 1 < lw {
                assert(live@[k as int] < live@[k + 1]);
            }
        }
        let c: usize = live[k];
        let axc = part_of(ax.as_slice(), at, at + n);
        assert(axc@ == panel_column(ax@, n as int, k as int));
        assert(bv[c as int] == bs@[c as int]@);
        assert(xv[c as int] == xs@[c as int]@);
        assert(panel_column(xc@, n as int, k as int) == xs@[live@[k as int] as int]@);
        let r = difference(bs[c].as_slice(), axc.as_slice());
        assert(r@ == residual(*op, bv[c as int], xv[c as int]));
        let beta = norm2(r.as_slice());
        let solved = tol.ge(beta.over(bnorm[c]));
        assert(solved == is_solved(*op, bv[c as int], tol, xv[c as int]));
        if solved {
            settled.set(c, true);
        } else {
            let sweep = Arnoldi::start(r.as_slice(), beta);
            let col = PanelColumn { c, sweep, answers: Ghost(Seq::empty()) };
            assert(in_play(*op, bv, tol, xv, c as int)) by {
                assert(!settled0[live@[k as int] as int]);
                assert(norm_of((bs@[c as int])@).is_zero_spec() ==> settled0[c as int]);
            }
            assert(at_step(*op, *precond, bv, tol, limit, xv, col, 0));
            cols.push(col);
            assert(cols@[cols0.len() as int].c == c);
        }
        proof {
            assert forall|d: int|
                0 <= d < k + 1 && in_play(
                    *op,
                    bv,
                    tol,
                    xv,
                    (#[trigger] live@[d]) as int,
                ) implies sits(cols@, live@[d] as int) by {
                if d < k {
                    assert(sits(cols0, live@[d] as int));
                    let p = choose|p: int|
                        0 <= p < cols0.len() && (#[trigger] cols0[p]).c == live@[d];
                    assert(cols@[p].c == live@[d]);
                }
            }
            assert forall|p: int| 0 <= p < cols@.len() implies (#[trigger] cols@[p]).c < bs@.len()
                && (k + 1 < lw ==> cols@[p].c < live@[k + 1]) by {
                if p < cols0.len() {
                    assert(cols@[p] == cols0[p]);
                }
            }
            assert forall|p: int, q: int| 0 <= p < q < cols@.len() implies (#[trigger] cols@[p]).c
                != (#[trigger] cols@[q]).c by {
                assert(cols@[p] == cols0[p]);
                if q < cols0.len() {
                    assert(cols@[q] == cols0[q]);
                } else {
                    assert(cols0[p].c < live@[k as int]);
                }
            }
            assert forall|p: int| 0 <= p < cols@.len() implies #[trigger] at_step(
                *op,
                *precond,
                bv,
                tol,
                limit,
                xv,
                cols@[p],
                0,
            ) by {
                if p < cols0.len() {
                    assert(at_step(*op, *precond, bv, tol, limit, xv, cols0[p], 0));
                }
            }
        }
        at = at + n;
        k = k + 1;
    }
    proof {
        assert forall|c: int| #[trigger] in_play(*op, bv, tol, xv, c) implies sits(cols@, c) by {
            assert(!settled0[c]);
            assert(occurs(live@, c));
            let d = choose|d: int| 0 <= d < live@.len() && live@[d] == c;
            assert(in_play(*op, bv, tol, xv, live@[d] as int));
        }
        if cols@.len() > 0 {
            assert(at_step(*op, *precond, bv, tol, limit, xv, cols@[0], 0));
            assert(in_play(*op, bv, tol, xv, cols@[0].c as int));
        }
    }
    cols
}

/// The first iterate of every column.
fn first_columns<T: Scalar>(
    x0: Option<&[T]>,
    bnorm: &Vec<T::Real>,
    n: usize,
    s: usize,
    Ghost(bs): Ghost<Seq<Seq<T>>>,
) -> (r: (Vec<Vec<T>>, Vec<bool>))
    requires
        bs.len() == s,
        bnorm@.len() == s,
        forall|c: int| 0 <= c < s ==> #[trigger] bnorm@[c] == norm_of(bs[c]),
        x0 matches Some(g) ==> g@.len() == n * s,
    ensures
        r.0@.len() == s,
        r.1@.len() == s,
        views(r.0@) == first_panel(x0, bs, n as int),
        forall|c: int| 0 <= c < s ==> (#[trigger] r.0@[c])@.len() == n,
        forall|c: int| 0 <= c < s ==> #[trigger] r.1@[c] == norm_of(bs[c]).is_zero_spec(),
{
    let mut xs: Vec<Vec<T>> = Vec::new();
    let mut settled: Vec<bool> = Vec::new();
    let len: usize = match x0 {
        Some(g) => g.len(),
        None => 0,
    };
    let mut c: usize = 0;
    let mut at: usize = 0;
    while c < s
        invariant
            c <= s,
            bs.len() == s,
            bnorm@.len() == s,
            forall|d: int| 0 <= d < s ==> #[trigger] bnorm@[d] == norm_of(bs[d]),
            x0 matches Some(g) ==> g@.len() == n * s && len == g@.len(),
            x0 is Some ==> at == column_start(n as int, c as int),
            xs@.len() == c,
            settled@.len() == c,
            forall|d: int|
                0 <= d < c ==> (#[trigger] xs@[d])@ == first_panel(x0, bs, n as int)[d]
                    && xs@[d]@.len() == n,
            forall|d: int| 0 <= d < c ==> #[trigger] settled@[d] == norm_of(bs[d]).is_zero_spec(),
        decreases s - c,
    {
        proof {
            if x0 is Some {
                column_bounds(n as int, c as int, s as int);
            }
        }
        let zero_rhs = bnorm[c].is_zero();
        let x: Vec<T> = match x0 {
            Some(g) => {
                let part = part_of(g, at, at + n);
                at = at + n;
                if zero_rhs {
                    zero_vector::<T>(n)
                } else {
                    part
                }
            },
            None => zero_vector::<T>(n),
        };
        assert(x@ == first_panel(x0, bs, n as int)[c as int]);
        xs.push(x);
        settled.push(zero_rhs);
        c = c + 1;
    }
    assert(views(xs@) =~= first_panel(x0, bs, n as int));
    (xs, settled)
}

/// The norm of every column.
fn norms<T: Scalar>(bs: &Vec<Vec<T>>) -> (r: Vec<T::Real>)
    ensures
        r@.len() == bs@.len(),
        forall|c: int| 0 <= c < bs@.len() ==> #[trigger] r@[c] == norm_of(bs@[c]@),
{
    let mut r: Vec<T::Real> = Vec::new();
    let mut c: usize = 0;
    while c < bs.len()
        invariant
            c <= bs@.len(),
            r@.len() == c,
            forall|d: int| 0 <= d < c ==> #[trigger] r@[d] == norm_of(bs@[d]@),
        decreases bs@.len() - c,
    {
        r.push(norm2(bs[c].as_slice()));
        c = c + 1;
    }
    r
}

/// What is reported of the final columns.
fn report<T: Scalar, A: LinearOperator<T>>(
    op: &A,
    bs: &Vec<Vec<T>>,
    bnorm: &Vec<T::Real>,
    tol: T::Real,
    xs: &Vec<Vec<T>>,
    iters: usize,
    n: usize,
    total: usize,
) -> (r: BlockKrylovResult<T>)
    requires
        op.ready(),
        n == op.dim_spec(),
        total == n * bs@.len(),
        bnorm@.len() == bs@.len(),
        xs@.len() == bs@.len(),
        forall|c: int| 0 <= c < bs@.len() ==> #[trigger] bnorm@[c] == norm_of(bs@[c]@),
        forall|c: int| 0 <= c < bs@.len() ==> (#[trigger] bs@[c])@.len() == n,
        forall|c: int| 0 <= c < bs@.len() ==> (#[trigger] xs@[c])@.len() == n,
    ensures
        r.x@.len() == total,
        r.outcome(n as int, bs@.len() as int) == panel_report(
            *op,
            views(bs@),
            tol,
            views(xs@),
            iters as int,
        ),
{
    let ghost bv = views(bs@);
    let ghost xv = views(xs@);
    let s: usize = bs.len();
    let x = join_panel(xs, n, total);
    let mut ax = zero_vector::<T>(total);
    op.apply_block(x.as_slice(), &mut ax, s);
    let mut final_res: Vec<T::Real> = Vec::new();
    let mut converged = true;
    let mut c: usize = 0;
    let mut at: usize = 0;
    while c < s
        invariant
            n == op.dim_spec(),
            c <= s,
            s == bs@.len(),
            total == n * s,
            at == column_start(n as int, c as int),
            ax@.len() == total,
            bv == views(bs@),
            xv == views(xs@),
            bnorm@.len() == s,
            xs@.len() == s,
            forall|d: int| 0 <= d < s ==> #[trigger] bnorm@[d] == norm_of(bs@[d]@),
            forall|d: int| 0 <= d < s ==> (#[trigger] bs@[d])@.len() == n,
            columns_of(x@, n as int, s as int) == xv,
            forall|d: int|
                0 <= d < s ==> #[trigger] panel_column(ax@, n as int, d) == op.image(
                    panel_column(x@, n as int, d),
                ),
            final_res@.len() == c,
            forall|d: int|
                0 <= d < c ==> #[trigger] final_res@[d] == column_residual(*op, bv, xv, d),
            converged == (forall|d: int|
                0 <= d < c ==> #[trigger] column_solved(*op, bv, tol, xv, d)),
        decreases s - c,
    {
        proof {
            column_bounds(n as int, c as int, s as int);
            assert(panel_column(ax@, n as int, c as int) == op.image(
                panel_column(x@, n as int, c as int),
            ));
            assert(columns_of(x@, n as int, s as int)[c as int] == panel_column(
                x@,
                n as int,
                c as int,
            ));
            assert(bv[c as int] == bs@[c as int]@);
        }
        let axc = part_of(ax.as_slice(), at, at + n);
        assert(axc@ == panel_column(ax@, n as int, c as int));
        if bnorm[c].is_zero() {
            assert(column_solved(*op, bv, tol, xv, c as int));
            final_res.push(<T::Real as Real>::zero());
        } else {
            let r = difference(bs[c].as_slice(), axc.as_slice());
            let res = norm2(r.as_slice()).over(bnorm[c]);
            assert(r@ == residual(*op, bv[c as int], xv[c as int]));
            assert(res == relative(residual(*op, bv[c as int], xv[c as int]), bv[c as int]));
            if !tol.ge(res) {
                assert(!column_solved(*op, bv, tol, xv, c as int));
                converged = false;
            } else {
                assert(column_solved(*op, bv, tol, xv, c as int));
            }
            final_res.push(res);
        }
        at = at + n;
        c = c + 1;
    }
    let r = BlockKrylovResult { x, iters, converged, final_res };
    assert(r.outcome(n as int, s as int) =~= panel_report(*op, bv, tol, xv, iters as int));
    r
}

/// Right-preconditioned restarted minimal residuals for `s` right-hand sides, a
/// column-major panel, from the guess `x0`, or from zero. The columns share the
/// batched products and preconditioner calls; a column that has converged leaves
/// the panel, in the middle of a cycle where its own estimate says so.
/// Convergence is decided by the true residuals.
#[verifier::rlimit(40)]
pub fn gmres_block<T: Scalar, A: LinearOperator<T>, M: Preconditioner<T>>(
    op: &A,
    b: &[T],
    s: usize,
    precond: &M,
    tol: T::Real,
    max_iter: usize,
    restart: usize,
    x0: Option<&[T]>,
) -> (res: Result<BlockKrylovResult<T>, RslabError>)
    requires
        op.ready(),
        precond.ready(),
        op.dim_spec() * s <= usize::MAX,
    ensures
        s == 0 || b@.len() != op.dim_spec() * s ==> res == Err::<BlockKrylovResult<T>, RslabError>(
            RslabError::DimensionMismatch {
                expected: (op.dim_spec() * s) as usize,
                got: b@.len() as usize,
            },
        ),
        s > 0 && b@.len() == op.dim_spec() * s && x0 is Some && x0->0@.len() != op.dim_spec() * s
            ==> res == Err::<BlockKrylovResult<T>, RslabError>(
            RslabError::DimensionMismatch {
                expected: (op.dim_spec() * s) as usize,
                got: x0->0@.len() as usize,
            },
        ),
        s > 0 && b@.len() == op.dim_spec() * s && (x0 is Some ==> x0->0@.len() == op.dim_spec()
            * s) ==> match res {
            Ok(k) => k.x@.len() == op.dim_spec() * s && gmres_block_made(
                *op,
                *precond,
                columns_of(b@, op.dim_spec(), s as int),
                tol,
                max_iter as int,
                restart as int,
                first_panel(x0, columns_of(b@, op.dim_spec(), s as int), op.dim_spec()),
                k.outcome(op.dim_spec(), s as int),
            ),
            Err(e) => gmres_block_refused(
                *op,
                *precond,
                columns_of(b@, op.dim_spec(), s as int),
                tol,
                max_iter as int,
                restart as int,
                first_panel(x0, columns_of(b@, op.dim_spec(), s as int), op.dim_spec()),
                e,
            ),
        },
{
    let n: usize = op.n();
    proof {
        panel_fits_in(n as int, s as int, s as int);
    }
    let total: usize = n * s;
    if s == 0 || b.len() != total {
        return Err(RslabError::DimensionMismatch { expected: total, got: b.len() });
    }
    match x0 {
        Some(g) => {
            if g.len() != total {
                return Err(RslabError::DimensionMismatch { expected: total, got: g.len() });
            }
        },
        None => {},
    }
    let m: usize = if restart < 1 {
        1
    } else {
        restart
    };
    let bs = split_panel(b, n, s);
    let ghost bv = views(bs@);
    assert(bv == columns_of(b@, n as int, s as int));
    let bnorm = norms(&bs);
    assert forall|c: int| 0 <= c < s implies #[trigger] bnorm@[c] == norm_of(bv[c]) by {
        assert(bv[c] == bs@[c]@);
    }
    let (first, flags) = first_columns(x0, &bnorm, n, s, Ghost(bv));
    let mut xs = first;
    let mut settled = flags;
    let ghost start = first_panel(x0, bv, n as int);
    let ghost blank: Seq<Visit<T>> = Seq::new(
        s as nat,
        |c: int| Visit { zs: Seq::empty(), last: Seq::empty() },
    );
    let ghost mut cycles: Seq<Seq<Visit<T>>> = Seq::empty();
    let mut done: usize = 0;
    proof {
        assert forall|c: int| 0 <= c < s && #[trigger] settled@[c] implies !in_play(
            *op,
            bv,
            tol,
            views(xs@),
            c,
        ) by {}
        assert forall|c: int|
            0 <= c < s && norm_of((#[trigger] bs@[c])@).is_zero_spec() implies settled@[c] by {
            assert(bv[c] == bs@[c]@);
        }
    }
    while done < max_iter
        invariant_except_break
            panel_run(*op, *precond, bv, tol, max_iter as int, restart as int, start, cycles),
        invariant
            op.ready(),
            precond.ready(),
            n == op.dim_spec(),
            s > 0,
            total == n * s,
            bs@.len() == s,
            bv == views(bs@),
            bv == columns_of(b@, n as int, s as int),
            start == first_panel(x0, bv, n as int),
            b@.len() == n * s,
            x0 is Some ==> x0->0@.len() == n * s,
            bnorm@.len() == s,
            blank.len() == s,
            xs@.len() == s,
            settled@.len() == s,
            forall|c: int| 0 <= c < s ==> #[trigger] bnorm@[c] == norm_of(bv[c]),
            forall|c: int| 0 <= c < s ==> #[trigger] bnorm@[c] == norm_of(bs@[c]@),
            forall|c: int| 0 <= c < s ==> (#[trigger] bs@[c])@.len() == n,
            forall|c: int| 0 <= c < s ==> (#[trigger] xs@[c])@.len() == n,
            forall|c: int|
                0 <= c < s && norm_of((#[trigger] bs@[c])@).is_zero_spec() ==> settled@[c],
            forall|c: int|
                0 <= c < s && #[trigger] settled@[c] ==> !in_play(*op, bv, tol, views(xs@), c),
            m == (if restart < 1 {
                1
            } else {
                restart
            }),
            done <= max_iter,
            views(xs@) == panel_iterate(*op, bv, tol, start, cycles, cycles.len() as int),
            done == panel_steps(*op, bv, tol, start, cycles, cycles.len() as int),
        ensures
            panel_run(*op, *precond, bv, tol, max_iter as int, restart as int, start, cycles),
            !panel_begins(
                *op,
                bv,
                tol,
                max_iter as int,
                start,
                cycles,
                cycles.len() as int,
            ),
        decreases max_iter - done,
    {
        let limit: usize = if m < max_iter - done {
            m
        } else {
            max_iter - done
        };
        let cols = open_panel(
            op,
            &bs,
            &bnorm,
            precond,
            tol,
            &xs,
            &mut settled,
            n,
            Ghost(limit as int),
            Ghost(blank),
        );
        if cols.len() == 0 {
            break ;
        }
        let ghost xv = views(xs@);
        match cycle_panel(
            op,
            &bnorm,
            precond,
            tol,
            limit,
            &mut xs,
            cols,
            n,
            Ghost(bv),
            Ghost(blank),
        ) {
            Ok((steps, got)) => {
                proof {
                    panel_run_grows(
                        *op,
                        *precond,
                        bv,
                        tol,
                        max_iter as int,
                        restart as int,
                        start,
                        cycles,
                        got@,
                    );
                    cycles = cycles.push(got@);
                    assert forall|c: int| 0 <= c < s && #[trigger] settled@[c] implies !in_play(
                        *op,
                        bv,
                        tol,
                        views(xs@),
                        c,
                    ) by {
                        assert(!in_play(*op, bv, tol, xv, c));
                        assert(views(xs@)[c] == xv[c]);
                    }
                }
                done = done + steps;
            },
            Err(e) => {
                proof {
                    let c = choose|c: int| #[trigger]
                        in_play(*op, bv, tol, xv, c) && visit_refused(
                            *op,
                            *precond,
                            bv[c],
                            tol,
                            limit as int,
                            xv[c],
                            e,
                        );
                    assert(panel_run_stops(
                        *op,
                        *precond,
                        bv,
                        tol,
                        max_iter as int,
                        restart as int,
                        start,
                        cycles,
                        c,
                        e,
                    ));
                }
                return Err(e);
            },
        }
    }
    let out = report(op, &bs, &bnorm, tol, &xs, done, n, total);
    assert(panel_run_ends(
        *op,
        *precond,
        bv,
        tol,
        max_iter as int,
        restart as int,
        start,
        cycles,
        out.outcome(n as int, s as int),
    ));
    Ok(out)
}

} // verus!
