//! Why the conjugate iterations end: in exact arithmetic, with an operator and a
//! preconditioner that are their own transposes, every step adds a dimension.

use crate::algebra::{cancel, neg_plus, plus_shuffle, times_zero, zero_plus};
use crate::blr_laws::{norm_is_positive, norm_of_zeros};
use crate::exact::exact_complex;
use crate::flat::norm_of;
use crate::independence::{factor_is_zero, neg_moves, paired, partners_are_few, partners_span};
use crate::krylov::cg::{
    cg_asked, cg_curvature, cg_ends, cg_forward, cg_goes_on, cg_replies, cg_state, cg_steps, cg_trace, cg_turn,
    cocg_made, Outcome,
};
use crate::krylov::cr::{
    cocr_made, cr_asked, cr_ends, cr_forward, cr_goes_on, cr_replies, cr_state, cr_steps, cr_trace,
    cr_turn,
};
use crate::krylov::gmres::residual;
use crate::krylov::hermitian::dotu_of_zeros;
use crate::krylov::laws::{
    cg_residual, cocg_converges_by_residual, cocg_reports_true_residual, cocg_stops_for_a_reason,
    cocr_converges_by_residual, cocr_reports_true_residual, cocr_stops_for_a_reason, cr_residual,
    linear, minus_as_sum, minus_is_plus,
};
use crate::krylov::operator::{LinearOperator, NoPreconditioner, Preconditioner};
use crate::krylov::termination::nothing_is_enough;
use crate::krylov::vectors::{dotu_of, dotu_upto, minus_multiple, plus_multiple};
use crate::matrix_ops::zeros;
use crate::scalar::{neg, Field, Real, Scalar};
use vstd::prelude::*;

verus! {

/// The operator is its own transpose.
pub open spec fn self_transposed<T: Scalar, A: LinearOperator<T>>(op: A) -> bool {
    forall|x: Seq<T>, y: Seq<T>|
        #![trigger op.image(x), op.image(y)]
        x.len() == op.dim_spec() && y.len() == op.dim_spec() ==> dotu_of(op.image(x), y) == dotu_of(
            x,
            op.image(y),
        )
}

/// So is what the preconditioner answers.
pub open spec fn answers_alike_both_ways<T: Scalar, M: Preconditioner<T>>(m: M, n: int) -> bool {
    forall|r: Seq<T>, z: Seq<T>, s: Seq<T>, w: Seq<T>|
        #![trigger m.gives(r, Ok(z)), m.gives(s, Ok(w))]
        m.gives(r, Ok(z)) && m.gives(s, Ok(w)) && r.len() == n && z.len() == n && s.len() == n
            && w.len() == n ==> dotu_of(z, s) == dotu_of(r, w)
}

proof fn dotu_comm_upto<T: Field>(x: Seq<T>, y: Seq<T>, k: int)
    ensures
        dotu_upto(x, y, k) == dotu_upto(y, x, k),
    decreases k,
{
    if k > 0 {
        dotu_comm_upto(x, y, k - 1);
        T::times_comm(x[k - 1], y[k - 1]);
    }
}

/// The bilinear product does not care for the order.
pub proof fn dotu_comm<T: Field>(x: Seq<T>, y: Seq<T>)
    requires
        x.len() == y.len(),
    ensures
        dotu_of(x, y) == dotu_of(y, x),
{
    dotu_comm_upto(x, y, x.len() as int);
}

proof fn dotu_plus_upto<T: Field>(x: Seq<T>, a: T, p: Seq<T>, y: Seq<T>, k: int)
    requires
        0 <= k <= x.len(),
    ensures
        dotu_upto(plus_multiple(x, a, p), y, k) == dotu_upto(x, y, k).plus_spec(
            a.times_spec(dotu_upto(p, y, k)),
        ),
    decreases k,
{
    if k == 0 {
        times_zero(a);
        T::plus_zero(T::zero_spec());
    } else {
        dotu_plus_upto(x, a, p, y, k - 1);
        let i = k - 1;
        let (u, v, w) = (x[i], p[i], y[i]);
        T::times_comm(u.plus_spec(a.times_spec(v)), w);
        T::distributes(w, u, a.times_spec(v));
        T::times_comm(w, u);
        T::times_comm(w, a.times_spec(v));
        T::times_assoc(a, v, w);
        let (d, e) = (dotu_upto(x, y, i), dotu_upto(p, y, i));
        T::distributes(a, e, v.times_spec(w));
        plus_shuffle(d, a.times_spec(e), u.times_spec(w), a.times_spec(v.times_spec(w)));
    }
}

/// `(x + a p)^T y` is `x^T y + a p^T y`.
pub proof fn dotu_plus<T: Field>(x: Seq<T>, a: T, p: Seq<T>, y: Seq<T>)
    requires
        x.len() == p.len(),
        x.len() == y.len(),
    ensures
        dotu_of(plus_multiple(x, a, p), y) == dotu_of(x, y).plus_spec(
            a.times_spec(dotu_of(p, y)),
        ),
{
    dotu_plus_upto(x, a, p, y, x.len() as int);
}

/// `(x - a p)^T y` is `x^T y - a p^T y`, and what that comes to in two cases.
pub(crate) proof fn dotu_minus<T: Field>(x: Seq<T>, a: T, p: Seq<T>, y: Seq<T>)
    requires
        x.len() == p.len(),
        x.len() == y.len(),
    ensures
        dotu_of(minus_multiple(x, a, p), y) == dotu_of(x, y).minus_spec(
            a.times_spec(dotu_of(p, y)),
        ),
        dotu_of(x, y) == a.times_spec(dotu_of(p, y)) ==> dotu_of(minus_multiple(x, a, p), y)
            == T::zero_spec(),
        dotu_of(p, y) == T::zero_spec() ==> dotu_of(minus_multiple(x, a, p), y) == dotu_of(x, y),
{
    minus_is_plus(x, a, p);
    dotu_plus(x, neg(a), p, y);
    let d = dotu_of(p, y);
    neg_moves(a, d);
    minus_as_sum(dotu_of(x, y), a.times_spec(d));
    neg_plus(a.times_spec(d));
    if d == T::zero_spec() {
        times_zero(neg(a));
        T::plus_zero(dotu_of(x, y));
    }
}

/// A step of length `g / d` uses up the product `g`.
proof fn step_uses_up<T: Field>(g: T, d: T)
    requires
        d != T::zero_spec(),
    ensures
        g.times_spec(d.recip_spec()).times_spec(d) == g,
        g != T::zero_spec() ==> g.times_spec(d.recip_spec()) != T::zero_spec(),
{
    T::times_assoc(g, d.recip_spec(), d);
    T::times_comm(d.recip_spec(), d);
    T::recip_inverts(d);
    T::times_one(g);
    times_zero(d);
}

/// `u - v` with `u` zero, scaled: where `a w = u - v`, the next direction has no
/// product with the last. `g2` is `v`, and the direction is turned by `g2 / g`.
proof fn turn_is_right<T: Field>(g: T, d: T, g2: T, w: T)
    requires
        d != T::zero_spec(),
        g != T::zero_spec(),
        g.times_spec(d.recip_spec()).times_spec(w) == neg(g2),
    ensures
        w.plus_spec(g2.times_spec(g.recip_spec()).times_spec(d)) == T::zero_spec(),
{
    let a = g.times_spec(d.recip_spec());
    let beta = g2.times_spec(g.recip_spec());
    step_uses_up(g, d);
    step_uses_up(g2, g);
    // a (w + beta d) == -g2 + beta g == 0
    let t = beta.times_spec(d);
    T::distributes(a, w, t);
    T::times_comm(a, t);
    T::times_assoc(beta, d, a);
    T::times_comm(d, a);
    assert(a.times_spec(t) == beta.times_spec(g));
    neg_plus(g2);
    factor_is_zero(a, w.plus_spec(t));
}

// ---------------------------------------------------------------------------
// Conjugate residuals
// ---------------------------------------------------------------------------
/// What holds after `k` steps that all went on.
spec fn cr_conjugate<T: Scalar, A: LinearOperator<T>>(
    op: A,
    b: Seq<T>,
    zs: Seq<Seq<T>>,
    k: int,
) -> bool {
    let s = cr_state(op, b, zs, k);
    let zero = T::zero_spec();
    &&& forall|j: int| 0 < j <= k ==> dotu_of(s.r, #[trigger] zs[j]) == zero
    &&& forall|j: int| 0 < j <= k ==> dotu_of(s.ap, #[trigger] zs[j]) == zero
    &&& s.gamma == dotu_of(s.z, s.az)
    &&& dotu_of(s.z, s.ap) == s.gamma
}

/// The preconditioned residual answers the residual, tested with any other
/// question.
spec fn cr_answers<T: Scalar, M: Preconditioner<T>>(m: M, n: int, r: Seq<T>, z: Seq<T>) -> bool {
    forall|s: Seq<T>, w: Seq<T>| #[trigger]
        m.gives(s, Ok(w)) && s.len() == n && w.len() == n ==> dotu_of(z, s) == dotu_of(r, w)
}

/// The hypotheses of the laws of this iteration.
spec fn cr_setting<T: Field, A: LinearOperator<T>, M: Preconditioner<T>>(
    op: A,
    m: M,
    b: Seq<T>,
    zs: Seq<Seq<T>>,
) -> bool {
    &&& linear(op)
    &&& self_transposed(op)
    &&& answers_alike_both_ways(m, op.dim_spec())
    &&& op.dim_spec() >= 0
    &&& b.len() == op.dim_spec()
    &&& forall|j: int| 0 <= j < zs.len() ==> (#[trigger] zs[j]).len() == op.dim_spec()
    &&& cr_replies(op, m, b, zs)
}

proof fn cr_answer<T: Field, A: LinearOperator<T>, M: Preconditioner<T>>(
    op: A,
    m: M,
    b: Seq<T>,
    zs: Seq<Seq<T>>,
    j: int,
)
    requires
        cr_replies(op, m, b, zs),
        0 < j < zs.len(),
    ensures
        m.gives(cr_state(op, b, zs, j - 1).ap, Ok(zs[j])),
{
    reveal(cr_replies);
    assert(m.gives(cr_asked(op, b, zs, j), Ok(zs[j])));
}

proof fn cr_lengths<T: Field, A: LinearOperator<T>, M: Preconditioner<T>>(
    op: A,
    m: M,
    b: Seq<T>,
    zs: Seq<Seq<T>>,
    k: int,
)
    requires
        cr_setting(op, m, b, zs),
        0 <= k < zs.len(),
    ensures
        ({
            let s = cr_state(op, b, zs, k);
            let n = op.dim_spec();
            &&& s.x.len() == n && s.r.len() == n && s.z.len() == n && s.p.len() == n
            &&& s.ap.len() == n && s.az.len() == n
            &&& s.ap == op.image(s.p) && s.az == op.image(s.z)
            &&& cr_asked(op, b, zs, k).len() == n
        }),
{
    cr_residual(op, b, zs, k);
    if k > 0 {
        cr_residual(op, b, zs, k - 1);
    }
}

proof fn cr_answers_hold<T: Field, A: LinearOperator<T>, M: Preconditioner<T>>(
    op: A,
    m: M,
    b: Seq<T>,
    zs: Seq<Seq<T>>,
    k: int,
)
    requires
        cr_setting(op, m, b, zs),
        0 <= k < zs.len(),
    ensures
        cr_answers(m, op.dim_spec(), cr_state(op, b, zs, k).r, cr_state(op, b, zs, k).z),
    decreases k,
{
    let n = op.dim_spec();
    cr_lengths(op, m, b, zs, k);
    if k == 0 {
        reveal(cr_replies);
        assert(m.gives(cr_asked(op, b, zs, 0), Ok(zs[0])));
    } else {
        cr_answers_hold(op, m, b, zs, k - 1);
        cr_forward_answers(op, m, b, zs, k - 1);
        let f = cr_forward(op, cr_state(op, b, zs, k - 1), zs[k]);
        assert(cr_state(op, b, zs, k) == cr_turn(f));
    }
}

proof fn cr_forward_answers<T: Field, A: LinearOperator<T>, M: Preconditioner<T>>(
    op: A,
    m: M,
    b: Seq<T>,
    zs: Seq<Seq<T>>,
    k: int,
)
    requires
        cr_setting(op, m, b, zs),
        0 <= k < zs.len() - 1,
        cr_answers(m, op.dim_spec(), cr_state(op, b, zs, k).r, cr_state(op, b, zs, k).z),
    ensures
        ({
            let f = cr_forward(op, cr_state(op, b, zs, k), zs[k + 1]);
            cr_answers(m, op.dim_spec(), f.r, f.z)
        }),
{
    let n = op.dim_spec();
    let s = cr_state(op, b, zs, k);
    let w = zs[k + 1];
    let f = cr_forward(op, s, w);
    cr_lengths(op, m, b, zs, k);
    cr_lengths(op, m, b, zs, k + 1);
    let alpha = s.gamma.times_spec(dotu_of(s.ap, w).recip_spec());
    cr_answer(op, m, b, zs, k + 1);
    assert forall|q: Seq<T>, v: Seq<T>| #[trigger]
        m.gives(q, Ok(v)) && q.len() == n && v.len() == n implies dotu_of(f.z, q) == dotu_of(
        f.r,
        v,
    ) by {
        dotu_minus(s.z, alpha, w, q);
        dotu_minus(s.r, alpha, s.ap, v);
        assert(dotu_of(w, q) == dotu_of(s.ap, v));
    }
}

/// After a step the residual has no product with any of the answers.
proof fn cr_forward_clears<T: Field, A: LinearOperator<T>, M: Preconditioner<T>>(
    op: A,
    m: M,
    b: Seq<T>,
    zs: Seq<Seq<T>>,
    k: int,
)
    requires
        cr_setting(op, m, b, zs),
        0 <= k < zs.len() - 1,
        cr_conjugate(op, b, zs, k),
        cr_steps(op, b, zs, k),
    ensures
        ({
            let f = cr_forward(op, cr_state(op, b, zs, k), zs[k + 1]);
            &&& f.r.len() == op.dim_spec()
            &&& forall|j: int| 0 < j <= k + 1 ==> dotu_of(f.r, #[trigger] zs[j]) == T::zero_spec()
        }),
{
    let s = cr_state(op, b, zs, k);
    let w = zs[k + 1];
    cr_lengths(op, m, b, zs, k);
    cr_answers_hold(op, m, b, zs, k);
    let d = dotu_of(s.ap, w);
    T::zero_test(d);
    step_uses_up(s.gamma, d);
    let alpha = s.gamma.times_spec(d.recip_spec());
    cr_answer(op, m, b, zs, k + 1);
    assert(dotu_of(s.z, s.ap) == dotu_of(s.r, w));
    let f = cr_forward(op, s, w);
    assert forall|j: int| 0 < j <= k + 1 implies dotu_of(f.r, #[trigger] zs[j])
        == T::zero_spec() by {
        assert(zs[j].len() == op.dim_spec());
        dotu_minus(s.r, alpha, s.ap, zs[j]);
    }
}

/// The product of the new preconditioned residual with an image of a direction.
proof fn cr_new_residual<T: Field, A: LinearOperator<T>, M: Preconditioner<T>>(
    op: A,
    m: M,
    b: Seq<T>,
    zs: Seq<Seq<T>>,
    k: int,
    j: int,
)
    requires
        cr_setting(op, m, b, zs),
        0 <= j <= k < zs.len() - 1,
        cr_conjugate(op, b, zs, k),
        cr_steps(op, b, zs, k),
    ensures
        ({
            let f = cr_forward(op, cr_state(op, b, zs, k), zs[k + 1]);
            dotu_of(f.z, cr_state(op, b, zs, j).ap) == T::zero_spec()
        }),
{
    cr_forward_clears(op, m, b, zs, k);
    cr_answers_hold(op, m, b, zs, k);
    cr_forward_answers(op, m, b, zs, k);
    cr_lengths(op, m, b, zs, j);
    cr_answer(op, m, b, zs, j + 1);
    assert(dotu_of(
        cr_forward(op, cr_state(op, b, zs, k), zs[k + 1]).r,
        zs[j + 1],
    ) == T::zero_spec());
}

/// The new preconditioned residual is conjugate to the ones before.
proof fn cr_residuals_conjugate<T: Field, A: LinearOperator<T>, M: Preconditioner<T>>(
    op: A,
    m: M,
    b: Seq<T>,
    zs: Seq<Seq<T>>,
    k: int,
    j: int,
)
    requires
        cr_setting(op, m, b, zs),
        0 <= j <= k < zs.len() - 1,
        cr_conjugate(op, b, zs, k),
        cr_steps(op, b, zs, k),
    ensures
        ({
            let f = cr_forward(op, cr_state(op, b, zs, k), zs[k + 1]);
            dotu_of(f.z, cr_state(op, b, zs, j).az) == T::zero_spec()
        }),
{
    let f = cr_forward(op, cr_state(op, b, zs, k), zs[k + 1]);
    let s = cr_state(op, b, zs, j);
    cr_lengths(op, m, b, zs, k);
    cr_residual(op, b, zs, k);
    cr_new_residual(op, m, b, zs, k, j);
    if j > 0 {
        let e = cr_forward(op, cr_state(op, b, zs, j - 1), zs[j]);
        assert(s == cr_turn(e));
        cr_lengths(op, m, b, zs, j);
        cr_lengths(op, m, b, zs, j - 1);
        cr_new_residual(op, m, b, zs, k, j - 1);
        let beta = s.gamma.times_spec(e.gamma.recip_spec());
        // ap_j == az_j + beta ap_{j-1}
        dotu_plus(s.az, beta, e.ap, f.z);
        dotu_comm(s.ap, f.z);
        dotu_comm(s.az, f.z);
        dotu_comm(e.ap, f.z);
        times_zero(beta);
        T::plus_zero(dotu_of(s.az, f.z));
    }
}

/// The image of the new preconditioned residual against an answer.
proof fn cr_image_product<T: Field, A: LinearOperator<T>, M: Preconditioner<T>>(
    op: A,
    m: M,
    b: Seq<T>,
    zs: Seq<Seq<T>>,
    k: int,
    j: int,
)
    requires
        cr_setting(op, m, b, zs),
        0 <= j <= k < zs.len() - 1,
        cr_conjugate(op, b, zs, k),
        cr_steps(op, b, zs, k),
    ensures
        ({
            let f = cr_forward(op, cr_state(op, b, zs, k), zs[k + 1]);
            let s = cr_state(op, b, zs, j);
            let alpha = s.gamma.times_spec(dotu_of(s.ap, zs[j + 1]).recip_spec());
            alpha.times_spec(dotu_of(f.az, zs[j + 1])) == (if j < k {
                T::zero_spec()
            } else {
                neg(dotu_of(f.z, f.az))
            })
        }),
{
    let f = cr_forward(op, cr_state(op, b, zs, k), zs[k + 1]);
    let s = cr_state(op, b, zs, j);
    let w = zs[j + 1];
    let alpha = s.gamma.times_spec(dotu_of(s.ap, w).recip_spec());
    let zero = T::zero_spec();
    cr_lengths(op, m, b, zs, k);
    cr_lengths(op, m, b, zs, j);
    cr_residual(op, b, zs, k);
    // z_{j+1} == z_j - alpha w
    let next = cr_forward(op, s, w).z;
    cr_residuals_conjugate(op, m, b, zs, k, j);
    assert(dotu_of(op.image(f.z), s.z) == dotu_of(f.z, op.image(s.z)));
    assert(dotu_of(f.az, s.z) == zero);
    dotu_comm(f.az, s.z);
    dotu_comm(f.az, w);
    dotu_minus(s.z, alpha, w, f.az);
    let t = alpha.times_spec(dotu_of(w, f.az));
    assert(dotu_of(next, f.az) == zero.minus_spec(t));
    if j < k {
        assert(cr_state(op, b, zs, j + 1) == cr_turn(cr_forward(op, s, w)));
        let s2 = cr_state(op, b, zs, j + 1);
        assert(s2.z == next);
        cr_lengths(op, m, b, zs, j + 1);
        cr_residuals_conjugate(op, m, b, zs, k, j + 1);
        assert(dotu_of(op.image(f.z), s2.z) == dotu_of(f.z, op.image(s2.z)));
        dotu_comm(f.az, s2.z);
        T::minus_plus(zero, t);
        zero_plus(t);
    } else {
        assert(next == f.z);
        let g = dotu_of(f.z, f.az);
        // 0 - t == g, so t == 0 - g
        T::minus_plus(zero, t);
        neg_plus(g);
        T::plus_comm(g, t);
        cancel(t, neg(g), g);
    }
}

/// The next direction is conjugate to direction `j`.
proof fn cr_next_direction<T: Field, A: LinearOperator<T>, M: Preconditioner<T>>(
    op: A,
    m: M,
    b: Seq<T>,
    zs: Seq<Seq<T>>,
    i: int,
    j: int,
)
    requires
        cr_setting(op, m, b, zs),
        0 <= j <= i < zs.len() - 1,
        cr_conjugate(op, b, zs, i),
        cr_steps(op, b, zs, i),
        cr_steps(op, b, zs, j),
        !cr_state(op, b, zs, j).gamma.is_zero_spec(),
    ensures
        dotu_of(cr_state(op, b, zs, i + 1).ap, zs[j + 1]) == T::zero_spec(),
{
    let s = cr_state(op, b, zs, i);
    let f = cr_forward(op, s, zs[i + 1]);
    let t = cr_state(op, b, zs, i + 1);
    assert(t == cr_turn(f));
    cr_lengths(op, m, b, zs, i);
    cr_lengths(op, m, b, zs, i + 1);
    let zero = T::zero_spec();
    let beta = t.gamma.times_spec(s.gamma.recip_spec());
    let sj = cr_state(op, b, zs, j);
    let wj = zs[j + 1];
    T::zero_test(sj.gamma);
    let d = dotu_of(sj.ap, wj);
    T::zero_test(d);
    cr_image_product(op, m, b, zs, i, j);
    dotu_plus(f.az, beta, s.ap, wj);
    step_uses_up(sj.gamma, d);
    if j < i {
        factor_is_zero(sj.gamma.times_spec(d.recip_spec()), dotu_of(f.az, wj));
        assert(dotu_of(s.ap, zs[j + 1]) == zero);
        times_zero(beta);
        T::plus_zero(zero);
    } else {
        turn_is_right(s.gamma, d, t.gamma, dotu_of(f.az, wj));
    }
}

/// Every step that goes on keeps the directions conjugate.
proof fn cr_conjugacy<T: Field, A: LinearOperator<T>, M: Preconditioner<T>>(
    op: A,
    m: M,
    b: Seq<T>,
    tol: T::Real,
    zs: Seq<Seq<T>>,
    k: int,
)
    requires
        cr_setting(op, m, b, zs),
        0 <= k < zs.len(),
        forall|j: int| 0 <= j < k ==> #[trigger] cr_goes_on(op, b, tol, zs, j),
    ensures
        cr_conjugate(op, b, zs, k),
    decreases k,
{
    if k > 0 {
        let i = k - 1;
        cr_conjugacy(op, m, b, tol, zs, i);
        assert(cr_goes_on(op, b, tol, zs, i));
        let s = cr_state(op, b, zs, i);
        let w = zs[k];
        let f = cr_forward(op, s, w);
        let t = cr_state(op, b, zs, k);
        assert(t == cr_turn(f));
        cr_lengths(op, m, b, zs, i);
        cr_lengths(op, m, b, zs, k);
        cr_forward_clears(op, m, b, zs, i);
        let zero = T::zero_spec();
        let beta = t.gamma.times_spec(s.gamma.recip_spec());
        assert forall|j: int| 0 < j <= k implies dotu_of(t.ap, #[trigger] zs[j]) == zero by {
            assert(cr_goes_on(op, b, tol, zs, j - 1));
            cr_next_direction(op, m, b, zs, i, j - 1);
        }
        // z^T (az + beta ap) == gamma
        cr_new_residual(op, m, b, zs, i, i);
        dotu_plus(f.az, beta, s.ap, f.z);
        dotu_comm(t.ap, f.z);
        dotu_comm(f.az, f.z);
        dotu_comm(s.ap, f.z);
        times_zero(beta);
        T::plus_zero(dotu_of(f.az, f.z));
    }
}

/// The images of the directions and their answers belong together, the last one
/// included if a step is made along it.
proof fn cr_pairs<T: Field, A: LinearOperator<T>, M: Preconditioner<T>>(
    op: A,
    m: M,
    b: Seq<T>,
    tol: T::Real,
    zs: Seq<Seq<T>>,
    k: int,
) -> (r: (Seq<Seq<T>>, Seq<Seq<T>>))
    requires
        cr_setting(op, m, b, zs),
        0 <= k < zs.len(),
        forall|j: int| 0 <= j < k - 1 ==> #[trigger] cr_goes_on(op, b, tol, zs, j),
        forall|j: int| 0 <= j < k ==> #[trigger] cr_steps(op, b, zs, j),
    ensures
        paired(r.0, r.1, op.dim_spec()),
        r.0.len() == k,
        r.1 == Seq::new(k as nat, |j: int| zs[j + 1]),
{
    let vs = Seq::new(k as nat, |j: int| cr_state(op, b, zs, j).ap);
    let ds = Seq::new(k as nat, |j: int| zs[j + 1]);
    let n = op.dim_spec();
    assert forall|i: int| 0 <= i < k implies (#[trigger] vs[i]).len() == n by {
        cr_lengths(op, m, b, zs, i);
    }
    assert forall|i: int| 0 <= i < k implies (#[trigger] ds[i]).len() == n by {
        assert(zs[i + 1].len() == n);
    }
    assert forall|i: int, j: int| 0 <= i < k && 0 <= j < k implies (dotu_of(
        #[trigger] vs[i],
        #[trigger] ds[j],
    ) == T::zero_spec() <==> i != j) by {
        cr_lengths(op, m, b, zs, i);
        cr_lengths(op, m, b, zs, j);
        if i == j {
            assert(cr_steps(op, b, zs, i));
            T::zero_test(dotu_of(vs[i], ds[i]));
        } else if i > j {
            cr_conjugacy(op, m, b, tol, zs, i);
            assert(dotu_of(cr_state(op, b, zs, i).ap, zs[j + 1]) == T::zero_spec());
        } else {
            cr_conjugacy(op, m, b, tol, zs, j);
            assert(dotu_of(cr_state(op, b, zs, j).ap, zs[i + 1]) == T::zero_spec());
            cr_answer(op, m, b, zs, i + 1);
            cr_answer(op, m, b, zs, j + 1);
            dotu_comm(zs[i + 1], vs[j]);
        }
    }
    (vs, ds)
}

/// The conjugate-residual iteration takes at most as many steps as the system
/// has dimensions, and where it takes that many, its result solves the system
/// exactly. This is exact arithmetic, for an operator and a preconditioner that
/// are their own transposes; what the tolerance asks for plays no part.
pub proof fn cocr_ends_within_the_dimension<
    T: Field,
    A: LinearOperator<T>,
    M: Preconditioner<T>,
>(
    op: A,
    m: M,
    b: Seq<T>,
    tol: T::Real,
    max_iter: int,
    out: Outcome<T>,
)
    requires
        linear(op),
        self_transposed(op),
        answers_alike_both_ways(m, op.dim_spec()),
        b.len() == op.dim_spec(),
        max_iter >= 0,
        cocr_made(op, m, b, tol, max_iter, out),
    ensures
        out.iters <= op.dim_spec(),
        out.iters == op.dim_spec() ==> op.image(out.x) == b,
{
    let n = op.dim_spec();
    let zs = cr_unpacked(op, m, b, tol, max_iter, out);
    let steps = out.iters;
    let (vs, ds) = cr_pairs(op, m, b, tol, zs, steps);
    partners_are_few(vs, ds, n);
    if steps == n {
        // The residual has no product with any of the answers.
        let r = residual(op, b, out.x);
        if out.x == cr_state(op, b, zs, steps).x && cr_went_on(op, b, tol, zs, steps) {
            reveal(cr_went_on);
            cr_residual(op, b, zs, steps);
            cr_conjugacy(op, m, b, tol, zs, steps);
        } else {
            cr_residual(op, b, zs, steps - 1);
            cr_conjugacy(op, m, b, tol, zs, steps - 1);
            cr_forward_clears(op, m, b, zs, steps - 1);
        }
        assert forall|j: int| 0 <= j < n implies dotu_of(r, #[trigger] ds[j]) == T::zero_spec() by {
            assert(ds[j] == zs[j + 1]);
        }
        partners_span(vs, ds, n, r);
        nothing_remains(op, b, out.x);
    }
}

/// The first `k` steps all went on.
#[verifier::opaque]
spec fn cr_went_on<T: Scalar, A: LinearOperator<T>>(
    op: A,
    b: Seq<T>,
    tol: T::Real,
    zs: Seq<Seq<T>>,
    k: int,
) -> bool {
    forall|j: int| 0 <= j < k ==> #[trigger] cr_goes_on(op, b, tol, zs, j)
}

/// The answers behind an outcome, and where in the recurrence it stands.
proof fn cr_unpacked<T: Field, A: LinearOperator<T>, M: Preconditioner<T>>(
    op: A,
    m: M,
    b: Seq<T>,
    tol: T::Real,
    max_iter: int,
    out: Outcome<T>,
) -> (zs: Seq<Seq<T>>)
    requires
        linear(op),
        self_transposed(op),
        answers_alike_both_ways(m, op.dim_spec()),
        b.len() == op.dim_spec(),
        max_iter >= 0,
        cocr_made(op, m, b, tol, max_iter, out),
    ensures
        cr_setting(op, m, b, zs),
        0 <= out.iters < zs.len(),
        forall|j: int| 0 <= j < out.iters - 1 ==> #[trigger] cr_goes_on(op, b, tol, zs, j),
        forall|j: int| 0 <= j < out.iters ==> #[trigger] cr_steps(op, b, zs, j),
        (out.x == cr_state(op, b, zs, out.iters).x && cr_went_on(op, b, tol, zs, out.iters)) || (
        out.iters > 0 && out.x == cr_forward(
            op,
            cr_state(op, b, zs, out.iters - 1),
            zs[out.iters],
        ).x),
{
    let zs = choose|zs: Seq<Seq<T>>| #[trigger] cr_ends(op, m, b, tol, max_iter, zs, out);
    reveal(cr_went_on);
    assert(cr_trace(op, m, b, tol, max_iter, zs));
    assert forall|j: int| 0 <= j < out.iters implies #[trigger] cr_steps(op, b, zs, j) by {
        if j < zs.len() - 2 {
            assert(cr_goes_on(op, b, tol, zs, j));
        }
    }
    zs
}

/// A residual of zeros means a solution.
proof fn nothing_remains<T: Field, A: LinearOperator<T>>(op: A, b: Seq<T>, x: Seq<T>)
    requires
        linear(op),
        b.len() == op.dim_spec(),
        x.len() == op.dim_spec(),
        forall|i: int|
            0 <= i < op.dim_spec() ==> #[trigger] residual(op, b, x)[i] == T::zero_spec(),
    ensures
        op.image(x) == b,
{
    let y = op.image(x);
    assert forall|i: int| 0 <= i < b.len() implies y[i] == b[i] by {
        assert(residual(op, b, x)[i] == T::zero_spec());
        T::minus_plus(b[i], y[i]);
        zero_plus(y[i]);
    }
    assert(y =~= b);
}

/// No preconditioner at all answers alike both ways.
pub proof fn identity_answers_alike<T: Scalar>(n: int)
    ensures
        answers_alike_both_ways::<T, NoPreconditioner>(NoPreconditioner, n),
{
}

// ---------------------------------------------------------------------------
// Conjugate gradients
// ---------------------------------------------------------------------------
/// What holds after `k` steps that all went on.
spec fn cg_conjugate<T: Scalar, A: LinearOperator<T>>(
    op: A,
    b: Seq<T>,
    zs: Seq<Seq<T>>,
    k: int,
) -> bool {
    let s = cg_state(op, b, zs, k);
    let zero = T::zero_spec();
    &&& forall|j: int|
        0 <= j < k ==> dotu_of(s.r, (#[trigger] cg_state(op, b, zs, j)).p) == zero
    &&& forall|j: int|
        0 <= j < k ==> dotu_of(op.image(s.p), (#[trigger] cg_state(op, b, zs, j)).p) == zero
    &&& dotu_of(s.r, s.p) == s.rho
    &&& dotu_of(s.r, zs[k]) == s.rho
}

/// The hypotheses of the laws of this iteration.
spec fn cg_setting<T: Field, A: LinearOperator<T>, M: Preconditioner<T>>(
    op: A,
    m: M,
    b: Seq<T>,
    zs: Seq<Seq<T>>,
) -> bool {
    &&& linear(op)
    &&& self_transposed(op)
    &&& answers_alike_both_ways(m, op.dim_spec())
    &&& op.dim_spec() >= 0
    &&& b.len() == op.dim_spec()
    &&& forall|j: int| 0 <= j < zs.len() ==> (#[trigger] zs[j]).len() == op.dim_spec()
    &&& cg_replies(op, m, b, zs)
}

proof fn cg_answer<T: Field, A: LinearOperator<T>, M: Preconditioner<T>>(
    op: A,
    m: M,
    b: Seq<T>,
    zs: Seq<Seq<T>>,
    j: int,
)
    requires
        cg_replies(op, m, b, zs),
        0 <= j < zs.len(),
    ensures
        m.gives(cg_state(op, b, zs, j).r, Ok(zs[j])),
{
    reveal(cg_replies);
    assert(m.gives(cg_asked(op, b, zs, j), Ok(zs[j])));
    if j > 0 {
        assert(cg_state(op, b, zs, j) == cg_turn(cg_forward(op, cg_state(op, b, zs, j - 1)), zs[j]));
    }
}

proof fn cg_lengths<T: Field, A: LinearOperator<T>, M: Preconditioner<T>>(
    op: A,
    m: M,
    b: Seq<T>,
    zs: Seq<Seq<T>>,
    k: int,
)
    requires
        cg_setting(op, m, b, zs),
        0 <= k < zs.len(),
    ensures
        ({
            let s = cg_state(op, b, zs, k);
            let n = op.dim_spec();
            &&& s.x.len() == n && s.r.len() == n && s.p.len() == n
            &&& op.image(s.p).len() == n
            &&& zs[k].len() == n
        }),
{
    cg_residual(op, b, zs, k);
    assert(zs[k].len() == op.dim_spec());
}

/// After a step the residual has no product with any direction so far.
proof fn cg_forward_clears<T: Field, A: LinearOperator<T>, M: Preconditioner<T>>(
    op: A,
    m: M,
    b: Seq<T>,
    zs: Seq<Seq<T>>,
    k: int,
)
    requires
        cg_setting(op, m, b, zs),
        0 <= k < zs.len(),
        cg_conjugate(op, b, zs, k),
        !cg_curvature(op, cg_state(op, b, zs, k)).is_zero_spec(),
    ensures
        ({
            let f = cg_forward(op, cg_state(op, b, zs, k));
            &&& f.r.len() == op.dim_spec()
            &&& forall|j: int|
                0 <= j <= k ==> dotu_of(f.r, (#[trigger] cg_state(op, b, zs, j)).p)
                    == T::zero_spec()
        }),
{
    let s = cg_state(op, b, zs, k);
    let f = cg_forward(op, s);
    let ap = op.image(s.p);
    cg_lengths(op, m, b, zs, k);
    let d = cg_curvature(op, s);
    T::zero_test(d);
    step_uses_up(s.rho, d);
    let alpha = s.rho.times_spec(d.recip_spec());
    assert forall|j: int| 0 <= j <= k implies dotu_of(f.r, (#[trigger] cg_state(op, b, zs, j)).p)
        == T::zero_spec() by {
        let p = cg_state(op, b, zs, j).p;
        cg_lengths(op, m, b, zs, j);
        dotu_minus(s.r, alpha, ap, p);
        dotu_comm(s.p, ap);
    }
}

/// The new residual has no product with the answers before.
proof fn cg_new_residual<T: Field, A: LinearOperator<T>, M: Preconditioner<T>>(
    op: A,
    m: M,
    b: Seq<T>,
    zs: Seq<Seq<T>>,
    k: int,
    j: int,
)
    requires
        cg_setting(op, m, b, zs),
        0 <= j <= k < zs.len(),
        cg_conjugate(op, b, zs, k),
        !cg_curvature(op, cg_state(op, b, zs, k)).is_zero_spec(),
    ensures
        dotu_of(cg_forward(op, cg_state(op, b, zs, k)).r, zs[j]) == T::zero_spec(),
{
    let f = cg_forward(op, cg_state(op, b, zs, k));
    let s = cg_state(op, b, zs, j);
    cg_lengths(op, m, b, zs, k);
    cg_lengths(op, m, b, zs, j);
    cg_forward_clears(op, m, b, zs, k);
    assert(dotu_of(f.r, s.p) == T::zero_spec());
    if j > 0 {
        let e = cg_forward(op, cg_state(op, b, zs, j - 1));
        assert(s == cg_turn(e, zs[j]));
        cg_lengths(op, m, b, zs, j - 1);
        assert(dotu_of(f.r, cg_state(op, b, zs, j - 1).p) == T::zero_spec());
        let beta = s.rho.times_spec(e.rho.recip_spec());
        dotu_plus(zs[j], beta, e.p, f.r);
        dotu_comm(s.p, f.r);
        dotu_comm(zs[j], f.r);
        dotu_comm(e.p, f.r);
        times_zero(beta);
        T::plus_zero(dotu_of(zs[j], f.r));
    }
}

/// The image of direction `j` against the answer to the new residual.
proof fn cg_image_product<T: Field, A: LinearOperator<T>, M: Preconditioner<T>>(
    op: A,
    m: M,
    b: Seq<T>,
    zs: Seq<Seq<T>>,
    k: int,
    j: int,
)
    requires
        cg_setting(op, m, b, zs),
        0 <= j <= k < zs.len() - 1,
        cg_conjugate(op, b, zs, k),
        !cg_curvature(op, cg_state(op, b, zs, k)).is_zero_spec(),
    ensures
        ({
            let s = cg_state(op, b, zs, j);
            let alpha = s.rho.times_spec(cg_curvature(op, s).recip_spec());
            alpha.times_spec(dotu_of(op.image(s.p), zs[k + 1])) == (if j < k {
                T::zero_spec()
            } else {
                neg(cg_state(op, b, zs, k + 1).rho)
            })
        }),
{
    let zero = T::zero_spec();
    let f = cg_forward(op, cg_state(op, b, zs, k));
    let s = cg_state(op, b, zs, j);
    let t = cg_state(op, b, zs, k + 1);
    let z = zs[k + 1];
    let ap = op.image(s.p);
    let alpha = s.rho.times_spec(cg_curvature(op, s).recip_spec());
    assert(t == cg_turn(f, z));
    cg_lengths(op, m, b, zs, k);
    cg_lengths(op, m, b, zs, k + 1);
    cg_lengths(op, m, b, zs, j);
    cg_answer(op, m, b, zs, k + 1);
    cg_answer(op, m, b, zs, j);
    // r_j and r_{j+1} against the new answer
    cg_new_residual(op, m, b, zs, k, j);
    assert(dotu_of(z, s.r) == dotu_of(t.r, zs[j]));
    dotu_comm(s.r, z);
    let next = cg_forward(op, s).r;
    dotu_minus(s.r, alpha, ap, z);
    let p = alpha.times_spec(dotu_of(ap, z));
    assert(dotu_of(next, z) == zero.minus_spec(p));
    if j < k {
        let s2 = cg_state(op, b, zs, j + 1);
        assert(s2 == cg_turn(cg_forward(op, s), zs[j + 1]));
        cg_lengths(op, m, b, zs, j + 1);
        cg_answer(op, m, b, zs, j + 1);
        cg_new_residual(op, m, b, zs, k, j + 1);
        assert(dotu_of(z, s2.r) == dotu_of(t.r, zs[j + 1]));
        dotu_comm(s2.r, z);
        T::minus_plus(zero, p);
        zero_plus(p);
    } else {
        let g = t.rho;
        assert(dotu_of(next, z) == g);
        T::minus_plus(zero, p);
        neg_plus(g);
        T::plus_comm(g, p);
        cancel(p, neg(g), g);
    }
}

/// The next direction is conjugate to direction `j`.
proof fn cg_next_direction<T: Field, A: LinearOperator<T>, M: Preconditioner<T>>(
    op: A,
    m: M,
    b: Seq<T>,
    zs: Seq<Seq<T>>,
    i: int,
    j: int,
)
    requires
        cg_setting(op, m, b, zs),
        0 <= j <= i < zs.len() - 1,
        cg_conjugate(op, b, zs, i),
        !cg_curvature(op, cg_state(op, b, zs, i)).is_zero_spec(),
        !cg_curvature(op, cg_state(op, b, zs, j)).is_zero_spec(),
        !cg_state(op, b, zs, j).rho.is_zero_spec(),
    ensures
        dotu_of(op.image(cg_state(op, b, zs, i + 1).p), cg_state(op, b, zs, j).p)
            == T::zero_spec(),
{
    let zero = T::zero_spec();
    let s = cg_state(op, b, zs, i);
    let sj = cg_state(op, b, zs, j);
    let t = cg_state(op, b, zs, i + 1);
    let z = zs[i + 1];
    assert(t == cg_turn(cg_forward(op, s), z));
    cg_lengths(op, m, b, zs, i);
    cg_lengths(op, m, b, zs, i + 1);
    cg_lengths(op, m, b, zs, j);
    let beta = t.rho.times_spec(s.rho.recip_spec());
    let d = cg_curvature(op, sj);
    T::zero_test(sj.rho);
    T::zero_test(d);
    step_uses_up(sj.rho, d);
    cg_image_product(op, m, b, zs, i, j);
    // (A p')^T p_j == p'^T A p_j == z^T A p_j + beta p^T A p_j
    let aj = op.image(sj.p);
    assert(dotu_of(op.image(t.p), sj.p) == dotu_of(t.p, op.image(sj.p)));
    dotu_plus(z, beta, s.p, aj);
    dotu_comm(z, aj);
    assert(dotu_of(op.image(s.p), sj.p) == dotu_of(s.p, op.image(sj.p)));
    if j < i {
        factor_is_zero(sj.rho.times_spec(d.recip_spec()), dotu_of(aj, z));
        times_zero(beta);
        T::plus_zero(zero);
    } else {
        turn_is_right(s.rho, d, t.rho, dotu_of(aj, z));
    }
}

/// Every step that goes on keeps the directions conjugate.
proof fn cg_conjugacy<T: Field, A: LinearOperator<T>, M: Preconditioner<T>>(
    op: A,
    m: M,
    b: Seq<T>,
    tol: T::Real,
    max_iter: int,
    zs: Seq<Seq<T>>,
    k: int,
)
    requires
        cg_setting(op, m, b, zs),
        0 <= k < zs.len(),
        forall|j: int| 0 <= j < k ==> #[trigger] cg_goes_on(op, b, tol, max_iter, zs, j),
    ensures
        cg_conjugate(op, b, zs, k),
    decreases k,
{
    cg_lengths(op, m, b, zs, k);
    if k > 0 {
        let i = k - 1;
        cg_conjugacy(op, m, b, tol, max_iter, zs, i);
        assert(cg_goes_on(op, b, tol, max_iter, zs, i));
        let s = cg_state(op, b, zs, i);
        let f = cg_forward(op, s);
        let t = cg_state(op, b, zs, k);
        assert(t == cg_turn(f, zs[k]));
        cg_lengths(op, m, b, zs, i);
        cg_forward_clears(op, m, b, zs, i);
        let beta = t.rho.times_spec(s.rho.recip_spec());
        assert forall|j: int| 0 <= j < k implies dotu_of(
            op.image(t.p),
            (#[trigger] cg_state(op, b, zs, j)).p,
        ) == T::zero_spec() by {
            assert(cg_goes_on(op, b, tol, max_iter, zs, j));
            cg_next_direction(op, m, b, zs, i, j);
        }
        // r^T (z + beta p) == rho
        dotu_plus(zs[k], beta, s.p, f.r);
        dotu_comm(t.p, f.r);
        dotu_comm(zs[k], f.r);
        dotu_comm(s.p, f.r);
        times_zero(beta);
        T::plus_zero(dotu_of(zs[k], f.r));
    }
}

/// The images of the directions and the directions belong together.
proof fn cg_pairs<T: Field, A: LinearOperator<T>, M: Preconditioner<T>>(
    op: A,
    m: M,
    b: Seq<T>,
    tol: T::Real,
    max_iter: int,
    zs: Seq<Seq<T>>,
    k: int,
) -> (r: (Seq<Seq<T>>, Seq<Seq<T>>))
    requires
        cg_setting(op, m, b, zs),
        0 <= k <= zs.len(),
        forall|j: int| 0 <= j < k - 1 ==> #[trigger] cg_goes_on(op, b, tol, max_iter, zs, j),
        forall|j: int| 0 <= j < k ==> #[trigger] cg_steps(op, b, max_iter, zs, j),
    ensures
        paired(r.0, r.1, op.dim_spec()),
        r.0.len() == k,
        r.1 == Seq::new(k as nat, |j: int| cg_state(op, b, zs, j).p),
{
    let vs = Seq::new(k as nat, |j: int| op.image(cg_state(op, b, zs, j).p));
    let ds = Seq::new(k as nat, |j: int| cg_state(op, b, zs, j).p);
    let n = op.dim_spec();
    assert forall|i: int| 0 <= i < k implies (#[trigger] vs[i]).len() == n by {
        cg_lengths(op, m, b, zs, i);
    }
    assert forall|i: int| 0 <= i < k implies (#[trigger] ds[i]).len() == n by {
        cg_lengths(op, m, b, zs, i);
    }
    assert forall|i: int, j: int| 0 <= i < k && 0 <= j < k implies (dotu_of(
        #[trigger] vs[i],
        #[trigger] ds[j],
    ) == T::zero_spec() <==> i != j) by {
        cg_lengths(op, m, b, zs, i);
        cg_lengths(op, m, b, zs, j);
        if i == j {
            assert(cg_steps(op, b, max_iter, zs, i));
            dotu_comm(vs[i], ds[i]);
            T::zero_test(dotu_of(vs[i], ds[i]));
        } else if i > j {
            cg_conjugacy(op, m, b, tol, max_iter, zs, i);
        } else {
            cg_conjugacy(op, m, b, tol, max_iter, zs, j);
            assert(dotu_of(op.image(ds[i]), ds[j]) == dotu_of(ds[i], op.image(ds[j])));
            dotu_comm(ds[i], vs[j]);
        }
    }
    (vs, ds)
}

/// The first `k` steps all went on.
#[verifier::opaque]
spec fn cg_went_on<T: Scalar, A: LinearOperator<T>>(
    op: A,
    b: Seq<T>,
    tol: T::Real,
    max_iter: int,
    zs: Seq<Seq<T>>,
    k: int,
) -> bool {
    forall|j: int| 0 <= j < k ==> #[trigger] cg_goes_on(op, b, tol, max_iter, zs, j)
}

/// The answers behind an outcome, and where in the recurrence it stands.
proof fn cg_unpacked<T: Field, A: LinearOperator<T>, M: Preconditioner<T>>(
    op: A,
    m: M,
    b: Seq<T>,
    tol: T::Real,
    max_iter: int,
    out: Outcome<T>,
) -> (zs: Seq<Seq<T>>)
    requires
        linear(op),
        self_transposed(op),
        answers_alike_both_ways(m, op.dim_spec()),
        b.len() == op.dim_spec(),
        max_iter >= 0,
        cocg_made(op, m, b, tol, max_iter, out),
    ensures
        cg_setting(op, m, b, zs),
        0 <= out.iters <= zs.len(),
        forall|j: int|
            0 <= j < out.iters - 1 ==> #[trigger] cg_goes_on(op, b, tol, max_iter, zs, j),
        forall|j: int| 0 <= j < out.iters ==> #[trigger] cg_steps(op, b, max_iter, zs, j),
        (out.iters < zs.len() && out.x == cg_state(op, b, zs, out.iters).x && cg_went_on(
            op,
            b,
            tol,
            max_iter,
            zs,
            out.iters,
        )) || (out.iters > 0 && out.x == cg_forward(op, cg_state(op, b, zs, out.iters - 1)).x),
{
    let zs = choose|zs: Seq<Seq<T>>| #[trigger] cg_ends(op, m, b, tol, max_iter, zs, out);
    reveal(cg_went_on);
    assert(cg_trace(op, m, b, tol, max_iter, zs));
    assert forall|j: int| 0 <= j < out.iters implies #[trigger] cg_steps(
        op,
        b,
        max_iter,
        zs,
        j,
    ) by {
        if j < zs.len() - 1 {
            assert(cg_goes_on(op, b, tol, max_iter, zs, j));
        }
    }
    zs
}

/// The conjugate-gradient iteration takes at most as many steps as the system
/// has dimensions, and where it takes that many, its result solves the system
/// exactly. This is exact arithmetic, for an operator and a preconditioner that
/// are their own transposes; what the tolerance asks for plays no part.
pub proof fn cocg_ends_within_the_dimension<
    T: Field,
    A: LinearOperator<T>,
    M: Preconditioner<T>,
>(
    op: A,
    m: M,
    b: Seq<T>,
    tol: T::Real,
    max_iter: int,
    out: Outcome<T>,
)
    requires
        linear(op),
        self_transposed(op),
        answers_alike_both_ways(m, op.dim_spec()),
        b.len() == op.dim_spec(),
        max_iter >= 0,
        cocg_made(op, m, b, tol, max_iter, out),
    ensures
        out.iters <= op.dim_spec(),
        out.iters == op.dim_spec() ==> op.image(out.x) == b,
{
    let n = op.dim_spec();
    let zs = cg_unpacked(op, m, b, tol, max_iter, out);
    let steps = out.iters;
    let (vs, ds) = cg_pairs(op, m, b, tol, max_iter, zs, steps);
    partners_are_few(vs, ds, n);
    if steps == n {
        let r = residual(op, b, out.x);
        if steps < zs.len() && out.x == cg_state(op, b, zs, steps).x && cg_went_on(
            op,
            b,
            tol,
            max_iter,
            zs,
            steps,
        ) {
            reveal(cg_went_on);
            cg_residual(op, b, zs, steps);
            cg_conjugacy(op, m, b, tol, max_iter, zs, steps);
        } else {
            cg_residual(op, b, zs, steps - 1);
            cg_conjugacy(op, m, b, tol, max_iter, zs, steps - 1);
            assert(cg_steps(op, b, max_iter, zs, steps - 1));
            cg_forward_clears(op, m, b, zs, steps - 1);
        }
        assert forall|j: int| 0 <= j < n implies dotu_of(r, #[trigger] ds[j]) == T::zero_spec() by {
            assert(ds[j] == cg_state(op, b, zs, j).p);
        }
        partners_span(vs, ds, n, r);
        nothing_remains(op, b, out.x);
    }
}

/// No vector but zero has no curvature.
pub open spec fn definite<T: Scalar, A: LinearOperator<T>>(op: A) -> bool {
    forall|p: Seq<T>|
        p.len() == op.dim_spec() && dotu_of(p, #[trigger] op.image(p)) == T::zero_spec() ==> p
            == zeros::<T>(op.dim_spec())
}

/// No vector but zero gets an answer with which it has no product.
pub open spec fn answers_definitely<T: Scalar, M: Preconditioner<T>>(m: M, n: int) -> bool {
    forall|r: Seq<T>, z: Seq<T>|
        r.len() == n && #[trigger] m.gives(r, Ok(z)) && dotu_of(r, z) == T::zero_spec() ==> r
            == zeros::<T>(n)
}

/// A residual of zeros is small enough for every tolerance.
proof fn zeros_are_enough<T: Scalar>(
    val: spec_fn(T::Real) -> real,
    re: spec_fn(T) -> real,
    im: spec_fn(T) -> real,
    r: Seq<T>,
    b: Seq<T>,
    tol: T::Real,
)
    requires
        exact_complex(val, re, im),
        !norm_of(b).is_zero_spec(),
        val(tol) >= 0 as real,
        forall|i: int| 0 <= i < r.len() ==> #[trigger] r[i] == T::zero_spec(),
    ensures
        tol.ge_spec(norm_of(r).over_spec(norm_of(b))),
{
    norm_of_zeros(val, re, im, r);
    norm_is_positive(val, re, im, b);
    nothing_is_enough(val, re, im, b, tol, norm_of(r));
}

/// The conjugate-gradient iteration solves definite systems: in exact arithmetic,
/// with an operator and a preconditioner that are their own transposes and
/// definite, and a budget of at least as many steps as there are dimensions, it
/// converges after no more steps than dimensions.
pub proof fn cocg_solves_definite_systems<
    T: Field,
    A: LinearOperator<T>,
    M: Preconditioner<T>,
>(
    val: spec_fn(T::Real) -> real,
    re: spec_fn(T) -> real,
    im: spec_fn(T) -> real,
    op: A,
    m: M,
    b: Seq<T>,
    tol: T::Real,
    max_iter: int,
    out: Outcome<T>,
)
    requires
        exact_complex(val, re, im),
        linear(op),
        self_transposed(op),
        definite(op),
        answers_alike_both_ways(m, op.dim_spec()),
        answers_definitely(m, op.dim_spec()),
        b.len() == op.dim_spec(),
        !norm_of(b).is_zero_spec(),
        val(tol) >= 0 as real,
        max_iter >= op.dim_spec(),
        cocg_made(op, m, b, tol, max_iter, out),
    ensures
        out.converged,
        out.iters <= op.dim_spec(),
        tol.ge_spec(norm_of(residual(op, b, out.x)).over_spec(norm_of(b))),
{
    let n = op.dim_spec();
    let zero = T::zero_spec();
    cocg_ends_within_the_dimension(op, m, b, tol, max_iter, out);
    cocg_reports_true_residual(op, m, b, tol, max_iter, out);
    cocg_converges_by_residual(op, m, b, tol, max_iter, out);
    let zs = cocg_stops_for_a_reason(op, m, b, tol, max_iter, out);
    if out.iters == n {
        let r = residual(op, b, out.x);
        assert forall|i: int| 0 <= i < r.len() implies #[trigger] r[i] == zero by {
            minus_as_sum(b[i], b[i]);
            neg_plus(b[i]);
        }
        zeros_are_enough(val, re, im, r, b, tol);
    } else if !out.converged {
        let k = zs.len() - 1;
        let s = cg_state(op, b, zs, k);
        assert(cg_trace(op, m, b, tol, max_iter, zs));
        assert(cg_setting(op, m, b, zs));
        cg_conjugacy(op, m, b, tol, max_iter, zs, k);
        cg_lengths(op, m, b, zs, k);
        cg_answer(op, m, b, zs, k);
        T::zero_test(dotu_of(s.p, op.image(s.p)));
        T::zero_test(dotu_of(s.r, zs[k]));
        if dotu_of(s.r, zs[k]) != zero {
            assert(s.p == zeros::<T>(n));
            dotu_comm(s.r, s.p);
            dotu_of_zeros(n, s.r);
        }
        assert(s.r == zeros::<T>(n));
        let f = cg_forward(op, s);
        assert forall|i: int| 0 <= i < f.r.len() implies #[trigger] f.r[i] == zero by {
            times_zero(cg_curvature(op, s).recip_spec());
            times_zero(op.image(s.p)[i]);
            minus_as_sum(zero, zero);
            neg_plus(zero);
        }
        zeros_are_enough(val, re, im, s.r, b, tol);
        zeros_are_enough(val, re, im, f.r, b, tol);
    }
}

/// No vector but zero is without a product with any answer.
pub open spec fn answers_reach_everything<T: Scalar, M: Preconditioner<T>>(
    m: M,
    n: int,
) -> bool {
    forall|r: Seq<T>|
        r.len() == n && (forall|s: Seq<T>, w: Seq<T>| #[trigger]
            m.gives(s, Ok(w)) && s.len() == n && w.len() == n ==> dotu_of(r, w) == T::zero_spec())
            ==> r == #[trigger] zeros_like(r)
}

/// As many zeros.
pub open spec fn zeros_like<T: Scalar>(r: Seq<T>) -> Seq<T> {
    zeros::<T>(r.len() as int)
}

/// The conjugate-residual iteration solves definite systems: in exact arithmetic,
/// with an operator and a preconditioner that are their own transposes and
/// definite, and a budget of at least as many steps as there are dimensions, it
/// converges after no more steps than dimensions.
pub proof fn cocr_solves_definite_systems<
    T: Field,
    A: LinearOperator<T>,
    M: Preconditioner<T>,
>(
    val: spec_fn(T::Real) -> real,
    re: spec_fn(T) -> real,
    im: spec_fn(T) -> real,
    op: A,
    m: M,
    b: Seq<T>,
    tol: T::Real,
    max_iter: int,
    out: Outcome<T>,
)
    requires
        exact_complex(val, re, im),
        linear(op),
        self_transposed(op),
        definite(op),
        answers_alike_both_ways(m, op.dim_spec()),
        answers_definitely(m, op.dim_spec()),
        answers_reach_everything(m, op.dim_spec()),
        b.len() == op.dim_spec(),
        !norm_of(b).is_zero_spec(),
        val(tol) >= 0 as real,
        max_iter >= op.dim_spec(),
        cocr_made(op, m, b, tol, max_iter, out),
    ensures
        out.converged,
        out.iters <= op.dim_spec(),
        tol.ge_spec(norm_of(residual(op, b, out.x)).over_spec(norm_of(b))),
{
    let n = op.dim_spec();
    let zero = T::zero_spec();
    cocr_ends_within_the_dimension(op, m, b, tol, max_iter, out);
    cocr_reports_true_residual(op, m, b, tol, max_iter, out);
    cocr_converges_by_residual(op, m, b, tol, max_iter, out);
    let zs = cocr_stops_for_a_reason(op, m, b, tol, max_iter, out);
    if out.iters == n {
        let r = residual(op, b, out.x);
        assert forall|i: int| 0 <= i < r.len() implies #[trigger] r[i] == zero by {
            minus_as_sum(b[i], b[i]);
            neg_plus(b[i]);
        }
        zeros_are_enough(val, re, im, r, b, tol);
    } else if !out.converged {
        let k = zs.len() - 2;
        let s = cr_state(op, b, zs, k);
        let w = zs[k + 1];
        assert(cr_trace(op, m, b, tol, max_iter, zs));
        assert(cr_setting(op, m, b, zs));
        cr_conjugacy(op, m, b, tol, zs, k);
        cr_lengths(op, m, b, zs, k);
        cr_answer(op, m, b, zs, k + 1);
        cr_answers_hold(op, m, b, zs, k);
        T::zero_test(dotu_of(s.ap, w));
        T::zero_test(dotu_of(s.z, s.az));
        if s.gamma != zero {
            assert(s.ap == zeros::<T>(n));
            dotu_comm(s.z, s.ap);
            dotu_of_zeros(n, s.z);
        }
        assert(s.z == zeros::<T>(n));
        assert forall|q: Seq<T>, y: Seq<T>| #[trigger]
            m.gives(q, Ok(y)) && q.len() == n && y.len() == n implies dotu_of(s.r, y) == zero by {
            dotu_of_zeros(n, q);
        }
        assert(s.r == zeros_like(s.r));
        let f = cr_forward(op, s, w);
        assert forall|i: int| 0 <= i < f.r.len() implies #[trigger] f.r[i] == zero by {
            times_zero(dotu_of(s.ap, w).recip_spec());
            times_zero(s.ap[i]);
            minus_as_sum(zero, zero);
            neg_plus(zero);
        }
        zeros_are_enough(val, re, im, s.r, b, tol);
        zeros_are_enough(val, re, im, f.r, b, tol);
    }
}

} // verus!
