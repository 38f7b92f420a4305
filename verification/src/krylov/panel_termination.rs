//! Why the panel iteration ends: what holds of one sweep in exact arithmetic holds
//! of the sweep of every column.

use crate::blr_laws::{norm_of_zeros, norm_scales, times_all};
use crate::exact::{exact_complex, faithful, order_scales, product_sign, reorders, roots_agree};
use crate::flat::norm_of;
use crate::krylov::arnoldi::{
    back_substitution_solves, classical_gram_schmidt_splits, orthonormal_are_few, regular,
};
use crate::krylov::gmres::{cycle_limit, is_solved, looks_solved, residual};
use crate::krylov::hermitian::norm_is_product;
use crate::krylov::laws::linear;
use crate::krylov::operator::{LinearOperator, Preconditioner};
use crate::krylov::panel::{
    any_in_play, column_solved, correction, gmres_block_made, in_play, left_alone, longest,
    longest_upto, panel_answered, panel_fits, panel_iterate, panel_run_ends, panel_steps,
    panel_sweep, panel_trace, visit_ends, visit_result, PanelOutcome, Visit,
};
use crate::krylov::sweep::{
    cgs_orthogonal, closed_with, combined, least_squares, panel_grown, promised,
};
use crate::krylov::termination::{
    all_columns_sound, answers_fit, column_is_new, combination_taken_back, images,
    magnitude_of_zero, nothing_is_enough, one_to_one, opening_stands, split_turns, taken_back,
    turned, update_leaves, upright,
};
use crate::krylov::vectors::plus_vector;
use crate::matrix_ops::zeros;
use crate::scalar::{Field, Real, Scalar};
use vstd::prelude::*;

verus! {

/// No two answers are taken back to the same question.
pub open spec fn told_apart<T: Scalar>(back: spec_fn(Seq<T>) -> Seq<T>, n: int) -> bool {
    forall|x: Seq<T>, y: Seq<T>|
        #![trigger back(x), back(y)]
        x.len() == n && y.len() == n && back(x) == back(y) ==> x == y
}

proof fn panel_sweep_turns<T: Field, A: LinearOperator<T>>(
    val: spec_fn(T::Real) -> real,
    re: spec_fn(T) -> real,
    im: spec_fn(T) -> real,
    op: A,
    b: Seq<T>,
    x: Seq<T>,
    zs: Seq<Seq<T>>,
    j: int,
    q: Seq<Seq<T>>,
    p: Seq<T>,
) -> (turned_basis: (Seq<Seq<T>>, Seq<T>))
    requires
        exact_complex(val, re, im),
        faithful(re, im),
        linear(op),
        0 <= j < zs.len(),
        zs[j].len() == op.dim_spec(),
        panel_sweep(op, b, x, zs, j).h.len() == j,
        turned(
            panel_sweep(op, b, x, zs, j),
            images(op, zs),
            residual(op, b, x),
            q,
            p,
            op.dim_spec(),
        ),
        upright(panel_sweep(op, b, x, zs, j), p, op.dim_spec()),
    ensures
        ({
            let n = op.dim_spec();
            let s = panel_sweep(op, b, x, zs, j);
            let s2 = panel_sweep(op, b, x, zs, j + 1);
            let (q2, p2) = turned_basis;
            &&& s2.h.len() == j + 1
            &&& s2.v.drop_last() == s.v
            &&& s2.h.drop_last() == s.h
            &&& turned(s2, images(op, zs), residual(op, b, x), q2, p2, n)
            &&& upright(s2, p2, n) || s2.g[j + 1] == T::zero_spec()
        }),
{
    let az = images(op, zs);
    let s = panel_sweep(op, b, x, zs, j);
    let w = op.image(zs[j]);
    assert(az[j] == w);
    assert(w.len() == op.dim_spec());
    classical_gram_schmidt_splits(s.v, w);
    let (hs, u) = cgs_orthogonal(s.v, w);
    assert(panel_sweep(op, b, x, zs, j + 1) == closed_with(s, hs, u, norm_of(u))) by {
        reveal(panel_grown);
    }
    split_turns(val, re, im, s, hs, u, az, residual(op, b, x), q, p, op.dim_spec())
}

/// Before its last step a column has found a new direction in every step.
proof fn panel_sweep_stands<T: Field, A: LinearOperator<T>, M: Preconditioner<T>>(
    val: spec_fn(T::Real) -> real,
    re: spec_fn(T) -> real,
    im: spec_fn(T) -> real,
    op: A,
    m: M,
    back: spec_fn(Seq<T>) -> Seq<T>,
    b: Seq<T>,
    tol: T::Real,
    limit: int,
    x: Seq<T>,
    zs: Seq<Seq<T>>,
    j: int,
) -> (turned_basis: (Seq<Seq<T>>, Seq<T>))
    requires
        exact_complex(val, re, im),
        faithful(re, im),
        linear(op),
        taken_back(m, back, op.dim_spec()),
        b.len() == op.dim_spec(),
        val(norm_of(b)) > 0 as real,
        val(tol) >= 0 as real,
        val(norm_of(residual(op, b, x))) > 0 as real,
        panel_trace(op, m, b, tol, limit, x, zs),
        0 <= j < zs.len(),
    ensures
        ({
            let s = panel_sweep(op, b, x, zs, j);
            let n = op.dim_spec();
            let (q, p) = turned_basis;
            &&& s.h.len() == j
            &&& turned(s, images(op, zs), residual(op, b, x), q, p, n)
            &&& upright(s, p, n)
            &&& answers_fit(back, zs, s.v, n, j + 1)
        }),
    decreases j,
{
    let n = op.dim_spec();
    let s = panel_sweep(op, b, x, zs, j);
    let r0 = residual(op, b, x);
    assert(panel_answered(op, m, b, x, zs, j));
    if j == 0 {
        opening_stands(val, re, im, r0, images(op, zs));
        assert(s.v[0].len() == n);
        (Seq::empty(), s.v[0])
    } else {
        let (q, p) = panel_sweep_stands(val, re, im, op, m, back, b, tol, limit, x, zs, j - 1);
        let s0 = panel_sweep(op, b, x, zs, j - 1);
        assert(zs[j - 1].len() == n);
        let (q2, p2) = panel_sweep_turns(val, re, im, op, b, x, zs, j - 1, q, p);
        if s.g[j] == T::zero_spec() {
            magnitude_of_zero::<T>(val, re, im);
            nothing_is_enough(val, re, im, b, tol, s.g[j].magnitude_spec());
            assert(looks_solved(b, tol, s));
        }
        assert(s.v[j].len() == n);
        assert forall|i: int| 0 <= i < j + 1 implies (#[trigger] zs[i]).len() == n && back(zs[i])
            == s.v[i] by {
            if i < j {
                assert(s.v.drop_last()[i] == s0.v[i]);
            }
        }
        (q2, p2)
    }
}

/// Adding a combination is combining from there.
proof fn combined_from<T: Field>(x: Seq<T>, zs: Seq<Seq<T>>, y: Seq<T>, k: int)
    requires
        0 <= k,
    ensures
        combined(x, zs, y, k).len() == x.len(),
        plus_vector(x, combined(zeros(x.len() as int), zs, y, k)) == combined(x, zs, y, k),
    decreases k,
{
    let n = x.len() as int;
    let c = combined(x, zs, y, k);
    let d = combined(zeros(n), zs, y, k);
    if k == 0 {
        assert forall|r: int| 0 <= r < n implies plus_vector(x, d)[r] == c[r] by {
            T::plus_zero(x[r]);
        }
    } else {
        combined_from(x, zs, y, k - 1);
        combined_from(zeros(n), zs, y, k - 1);
        let c0 = combined(x, zs, y, k - 1);
        let d0 = combined(zeros(n), zs, y, k - 1);
        assert forall|r: int| 0 <= r < n implies plus_vector(x, d)[r] == c[r] by {
            assert(plus_vector(x, d0)[r] == c0[r]);
            T::plus_assoc(x[r], d0[r], zs[k - 1][r].times_spec(y[k - 1]));
        }
    }
    assert(plus_vector(x, d) =~= c);
}

/// The answer to the update of a column is the combination of its answers.
proof fn update_is_combination<T: Field, M: Preconditioner<T>>(
    m: M,
    back: spec_fn(Seq<T>) -> Seq<T>,
    n: int,
    x: Seq<T>,
    zs: Seq<Seq<T>>,
    vs: Seq<Seq<T>>,
    y: Seq<T>,
    last: Seq<T>,
)
    requires
        0 <= n,
        taken_back(m, back, n),
        told_apart(back, n),
        x.len() == n,
        answers_fit(back, zs, vs, n, zs.len() as int),
        m.gives(combined(zeros(n), vs, y, zs.len() as int), Ok(last)),
    ensures
        plus_vector(x, last) == combined(x, zs, y, zs.len() as int),
{
    let k = zs.len() as int;
    combination_taken_back(back, n, zs, vs, y, k);
    let c = combined(zeros(n), zs, y, k);
    combined_from(zeros::<T>(n), vs, y, k);
    assert(zeros::<T>(n).len() == n);
    assert(last.len() == n && back(last) == back(c));
    assert(last == c);
    combined_from(x, zs, y, k);
}

/// In exact arithmetic a column keeps the promise of its cycle: the residual of
/// its update has the norm that the rotated right-hand side ends in. It takes no
/// more steps than there are dimensions, and if it takes as many, the residual is
/// small enough.
pub proof fn visit_keeps_its_promise<T: Field, A: LinearOperator<T>, M: Preconditioner<T>>(
    val: spec_fn(T::Real) -> real,
    re: spec_fn(T) -> real,
    im: spec_fn(T) -> real,
    op: A,
    m: M,
    back: spec_fn(Seq<T>) -> Seq<T>,
    b: Seq<T>,
    tol: T::Real,
    limit: int,
    x: Seq<T>,
    v: Visit<T>,
)
    requires
        exact_complex(val, re, im),
        faithful(re, im),
        linear(op),
        one_to_one(op),
        taken_back(m, back, op.dim_spec()),
        told_apart(back, op.dim_spec()),
        b.len() == op.dim_spec(),
        x.len() == op.dim_spec(),
        val(norm_of(b)) > 0 as real,
        val(tol) >= 0 as real,
        val(norm_of(residual(op, b, x))) > 0 as real,
        visit_ends(op, m, b, tol, limit, x, v),
    ensures
        val(norm_of(residual(op, b, visit_result(op, b, tol, x, v)))) == val(
            promised(panel_sweep(op, b, x, v.zs, v.zs.len() as int)),
        ),
        visit_result(op, b, tol, x, v).len() == op.dim_spec(),
        v.zs.len() <= op.dim_spec(),
        v.zs.len() == op.dim_spec() ==> looks_solved(
            b,
            tol,
            panel_sweep(op, b, x, v.zs, v.zs.len() as int),
        ),
{
    reveal(visit_ends);
    let n = op.dim_spec();
    let zs = v.zs;
    let k = zs.len() as int;
    let r0 = residual(op, b, x);
    let s0 = panel_sweep(op, b, x, zs, k - 1);
    let s = panel_sweep(op, b, x, zs, k);
    let (q0, p0) = panel_sweep_stands(val, re, im, op, m, back, b, tol, limit, x, zs, k - 1);
    assert(zs[k - 1].len() == n);
    let (q, p) = panel_sweep_turns(val, re, im, op, b, x, zs, k - 1, q0, p0);
    assert(T::one_spec() != T::zero_spec()) by {
        assert(re(T::one_spec()) != re(T::zero_spec()));
    }
    orthonormal_are_few(s0.v, n);
    magnitude_of_zero::<T>(val, re, im);
    if upright(s, p, n) {
        orthonormal_are_few(s.v, n);
    } else {
        nothing_is_enough(val, re, im, b, tol, promised(s));
        assert(regular(s.h, k - 1)) by {
            assert forall|i: int| 0 <= i < k - 1 implies (#[trigger] s.h[i]).len() == i + 1
                && s.h[i][i] != T::zero_spec() by {
                assert(s.h.drop_last()[i] == s0.h[i]);
            }
        }
        column_is_new(op, back, s, zs, s0.v, r0, q, p, n);
        assert(regular(s.h, k));
    }
    update_leaves(val, re, im, op, b, x, zs, s, q, p);
    all_columns_sound(val, re, im, s.h);
    back_substitution_solves(s.h, s.g, k);
    let y = least_squares(s);
    assert(y.len() == k);
    assert(!left_alone(b, tol, s));
    assert(answers_fit(back, zs, s.v, n, k)) by {
        assert forall|i: int| 0 <= i < k implies (#[trigger] zs[i]).len() == n && back(zs[i])
            == s.v[i] by {
            assert(s.v.drop_last()[i] == s0.v[i]);
        }
    }
    assert(correction(s, n) == combined(zeros(n), s.v, y, k));
    update_is_combination(m, back, n, x, zs, s.v, y, v.last);
    let left = residual(op, b, visit_result(op, b, tol, x, v));
    assert(left =~= times_all(s.g[k], p));
    norm_scales(val, re, im, s.g[k], p);
    if upright(s, p, n) {
        norm_is_product(val, re, im, p);
        let e = val(norm_of(p));
        assert(e * e == 1 as real);
        assert((1 as real) * (1 as real) == 1 as real);
        roots_agree(e, 1 as real);
    } else {
        product_sign(0 as real, val(norm_of(p)));
    }
}

proof fn longest_at_most<T: Scalar, A: LinearOperator<T>>(
    op: A,
    bs: Seq<Seq<T>>,
    tol: T::Real,
    xs: Seq<Seq<T>>,
    vs: Seq<Visit<T>>,
    k: int,
    most: int,
)
    requires
        0 <= most,
        forall|c: int| #[trigger] in_play(op, bs, tol, xs, c) ==> vs[c].zs.len() <= most,
    ensures
        longest_upto(op, bs, tol, xs, vs, k) <= most,
    decreases k,
{
    if k > 0 {
        longest_at_most(op, bs, tol, xs, vs, k - 1, most);
    }
}

/// What the first cycle of a panel does to a column that takes part.
proof fn column_ends<T: Field, A: LinearOperator<T>, M: Preconditioner<T>>(
    val: spec_fn(T::Real) -> real,
    re: spec_fn(T) -> real,
    im: spec_fn(T) -> real,
    op: A,
    m: M,
    back: spec_fn(Seq<T>) -> Seq<T>,
    b: Seq<T>,
    tol: T::Real,
    limit: int,
    x: Seq<T>,
    v: Visit<T>,
)
    requires
        exact_complex(val, re, im),
        faithful(re, im),
        linear(op),
        one_to_one(op),
        taken_back(m, back, op.dim_spec()),
        told_apart(back, op.dim_spec()),
        b.len() == op.dim_spec(),
        x.len() == op.dim_spec(),
        !norm_of(b).is_zero_spec(),
        val(tol) >= 0 as real,
        !is_solved(op, b, tol, x),
        op.dim_spec() <= limit,
        visit_ends(op, m, b, tol, limit, x, v),
    ensures
        is_solved(op, b, tol, visit_result(op, b, tol, x, v)),
        v.zs.len() <= op.dim_spec(),
{
    norm_is_product(val, re, im, b);
    let r0 = residual(op, b, x);
    norm_is_product(val, re, im, r0);
    if val(norm_of(r0)) == 0 as real {
        nothing_is_enough(val, re, im, b, tol, norm_of(r0));
    }
    visit_keeps_its_promise(val, re, im, op, m, back, b, tol, limit, x, v);
    let s = panel_sweep(op, b, x, v.zs, v.zs.len() as int);
    assert(looks_solved(b, tol, s)) by {
        reveal(visit_ends);
    }
    let x1 = visit_result(op, b, tol, x, v);
    let (e, f) = (norm_of(residual(op, b, x1)), promised(s));
    let (u, w) = (val(e.over_spec(norm_of(b))), val(f.over_spec(norm_of(b))));
    reorders(u, val(norm_of(b)), 1 as real);
    reorders(w, val(norm_of(b)), 1 as real);
    order_scales(val(norm_of(b)), w, u);
}

/// The panel iteration ends within the dimension: in exact arithmetic, with a
/// linear operator that is one-to-one, a preconditioner whose answers can be taken
/// back and told apart, and cycles and a budget of at least as many steps as there
/// are dimensions, all columns converge after no more steps than dimensions.
pub proof fn gmres_block_ends_within_the_dimension<
    T: Field,
    A: LinearOperator<T>,
    M: Preconditioner<T>,
>(
    val: spec_fn(T::Real) -> real,
    re: spec_fn(T) -> real,
    im: spec_fn(T) -> real,
    op: A,
    m: M,
    back: spec_fn(Seq<T>) -> Seq<T>,
    bs: Seq<Seq<T>>,
    tol: T::Real,
    max_iter: int,
    restart: int,
    xs0: Seq<Seq<T>>,
    out: PanelOutcome<T>,
)
    requires
        exact_complex(val, re, im),
        faithful(re, im),
        linear(op),
        one_to_one(op),
        taken_back(m, back, op.dim_spec()),
        told_apart(back, op.dim_spec()),
        0 <= op.dim_spec(),
        xs0.len() == bs.len(),
        forall|c: int| 0 <= c < bs.len() ==> (#[trigger] bs[c]).len() == op.dim_spec(),
        forall|c: int| 0 <= c < bs.len() ==> (#[trigger] xs0[c]).len() == op.dim_spec(),
        val(tol) >= 0 as real,
        op.dim_spec() <= restart,
        op.dim_spec() <= max_iter,
        gmres_block_made(op, m, bs, tol, max_iter, restart, xs0, out),
    ensures
        out.converged,
        out.iters <= op.dim_spec(),
        forall|c: int|
            0 <= c < bs.len() ==> #[trigger] norm_of(bs[c]).is_zero_spec() || tol.ge_spec(
                norm_of(residual(op, bs[c], out.xs[c])).over_spec(norm_of(bs[c])),
            ),
{
    let n = op.dim_spec();
    let cycles = choose|cycles: Seq<Seq<Visit<T>>>| #[trigger]
        panel_run_ends(op, m, bs, tol, max_iter, restart, xs0, cycles, out);
    assert(panel_iterate(op, bs, tol, xs0, cycles, 0) == xs0);
    assert(panel_steps(op, bs, tol, xs0, cycles, 0) == 0);
    if n == 0 {
        assert forall|c: int| !(#[trigger] in_play(op, bs, tol, xs0, c)) by {
            if 0 <= c < bs.len() {
                norm_of_zeros(val, re, im, bs[c]);
            }
        }
        assert(!any_in_play(op, bs, tol, xs0));
    }
    if cycles.len() > 0 {
        assert(panel_fits(op, m, bs, tol, max_iter, restart, xs0, cycles, 0));
        let limit = cycle_limit(restart, max_iter);
        let vs = cycles[0];
        let xs1 = panel_iterate(op, bs, tol, xs0, cycles, 1);
        assert forall|c: int| #[trigger] in_play(op, bs, tol, xs0, c) implies vs[c].zs.len() <= n
            && is_solved(op, bs[c], tol, visit_result(op, bs[c], tol, xs0[c], vs[c])) by {
            column_ends(val, re, im, op, m, back, bs[c], tol, limit, xs0[c], vs[c]);
        }
        assert forall|c: int| !(#[trigger] in_play(op, bs, tol, xs1, c)) by {
            if 0 <= c < bs.len() {
                if in_play(op, bs, tol, xs0, c) {
                    assert(xs1[c] == visit_result(op, bs[c], tol, xs0[c], vs[c]));
                } else {
                    assert(xs1[c] == xs0[c]);
                }
            }
        }
        assert(!any_in_play(op, bs, tol, xs1));
        if cycles.len() > 1 {
            assert(panel_fits(op, m, bs, tol, max_iter, restart, xs0, cycles, 1));
        }
        longest_at_most(op, bs, tol, xs0, vs, bs.len() as int, n);
        assert(panel_steps(op, bs, tol, xs0, cycles, 1) == longest(op, bs, tol, xs0, vs));
    }
    let k = cycles.len() as int;
    let xs = panel_iterate(op, bs, tol, xs0, cycles, k);
    assert(!any_in_play(op, bs, tol, xs));
    assert forall|c: int| 0 <= c < bs.len() implies #[trigger] column_solved(
        op,
        bs,
        tol,
        xs,
        c,
    ) by {
        assert(!in_play(op, bs, tol, xs, c));
    }
    assert forall|c: int| 0 <= c < bs.len() implies #[trigger] norm_of(bs[c]).is_zero_spec()
        || tol.ge_spec(
        norm_of(residual(op, bs[c], out.xs[c])).over_spec(norm_of(bs[c])),
    ) by {
        assert(column_solved(op, bs, tol, xs, c));
    }
}

} // verus!
