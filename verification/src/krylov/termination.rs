//! Why the minimal-residual iteration ends: in exact arithmetic the residual that
//! a sweep promises is the one that its update leaves, and no sweep has more steps
//! than there are dimensions.

use crate::algebra::{cancel, times_zero, zero_plus};
use crate::blr_laws::{norm_of_zeros, norm_scales, times_all};
use crate::exact::{
    exact_complex, faithful, order_scales, product_sign, reorders, roots_agree, square_sign,
};
use crate::flat::{norm_of, square_sum};
use crate::krylov::arnoldi::{
    back_substitution_solves, combination_is_orthogonal, combo, combo_ext, gram_schmidt_splits,
    orthogonal_to, orthonormal, orthonormal_are_few, regular, rotated_ext, rotated_tail, scaled_is_multiple, splits,
    triangular_combination,
};
use crate::krylov::cg::Outcome;
use crate::krylov::gmres::{
    answered, cycle_ends, cycle_fits, cycle_limit, cycle_result, cycle_trace, gmres_made, is_solved,
    iterate, looks_solved, residual, run_ends, steps_upto, sweep_at,
};
use crate::krylov::hermitian::{
    complex_conjugation, dotc_turns, left_over, mixed, mixture, norm_is_product, normalized,
    rotation_is_unitary, turning_keeps,
};
use crate::krylov::laws::{linear, minus_sum, rotation_clears};
use crate::krylov::operator::{LinearOperator, NoPreconditioner, Preconditioner};
use crate::krylov::sweep::{
    back_from, closed_with, combined, diagonal_max, direction, grown, least_squares,
    mgs_orthogonal, opened, promised, rotated, rotation, sound_dim, sound_from, Sweep,
};
use crate::krylov::vectors::{dotc_of, plus_multiple};
use crate::matrix_ops::zeros;
use crate::scalar::{neg, Field, Real, Scalar};
use vstd::prelude::*;

verus! {

/// Coordinates in the basis of a sweep, turned by its rotations, are coordinates
/// in the turned basis `q`, `p`.
pub open spec fn same_vector<T: Scalar>(
    s: Sweep<T>,
    q: Seq<Seq<T>>,
    p: Seq<T>,
    t: Seq<T>,
    r: int,
) -> bool {
    let k = s.h.len() as int;
    let c = rotated(t, s.cs, s.sn, k);
    combo(s.v, t, k + 1, r) == combo(q, c, k, r).plus_spec(c[k].times_spec(p[r]))
}

/// The parts of a sweep fit, for vectors of length `n`.
pub open spec fn shaped<T: Scalar>(s: Sweep<T>, q: Seq<Seq<T>>, p: Seq<T>, n: int) -> bool {
    let k = s.h.len() as int;
    &&& s.v.len() == k + 1
    &&& s.cs.len() == k
    &&& s.sn.len() == k
    &&& s.g.len() == k + 1
    &&& q.len() == k
    &&& p.len() == n
    &&& forall|i: int| 0 <= i <= k ==> (#[trigger] s.v[i]).len() == n
    &&& forall|j: int| 0 <= j < k ==> (#[trigger] s.h[j]).len() == j + 1
}

/// The rotations of the sweep turn its basis into `q` and `p`; the images `az` are
/// triangular combinations of `q`, and the first residual `r0` is a combination of
/// `q` and `p` with the rotated right-hand side as coefficients.
pub open spec fn turned<T: Scalar>(
    s: Sweep<T>,
    az: Seq<Seq<T>>,
    r0: Seq<T>,
    q: Seq<Seq<T>>,
    p: Seq<T>,
    n: int,
) -> bool {
    let k = s.h.len() as int;
    &&& shaped(s, q, p, n)
    &&& forall|t: Seq<T>, r: int|
        t.len() > k && 0 <= r < n ==> #[trigger] same_vector(s, q, p, t, r)
    &&& forall|j: int, r: int|
        0 <= j < k && 0 <= r < n ==> #[trigger] az[j][r] == combo(q, s.h[j], j + 1, r)
    &&& forall|r: int|
        0 <= r < n ==> #[trigger] r0[r] == combo(q, s.g, k, r).plus_spec(s.g[k].times_spec(p[r]))
}

proof fn squares_grow<T: Scalar>(
    val: spec_fn(T::Real) -> real,
    re: spec_fn(T) -> real,
    im: spec_fn(T) -> real,
    u: Seq<T>,
    k: int,
    i: int,
)
    requires
        exact_complex(val, re, im),
        0 <= k <= u.len(),
    ensures
        val(square_sum(u, k)) >= 0 as real,
        0 <= i < k ==> val(square_sum(u, k)) >= val(u[i].magnitude_sq_spec()),
    decreases k,
{
    if k > 0 {
        squares_grow(val, re, im, u, k - 1, i);
        let (x, y) = (re(u[k - 1]), im(u[k - 1]));
        square_sign(x);
        square_sign(y);
        assert(val(u[k - 1].magnitude_sq_spec()) == x * x + y * y);
    }
}

/// A vector of norm zero has no entries other than zero.
pub proof fn norm_vanishes<T: Scalar>(
    val: spec_fn(T::Real) -> real,
    re: spec_fn(T) -> real,
    im: spec_fn(T) -> real,
    u: Seq<T>,
)
    requires
        exact_complex(val, re, im),
        faithful(re, im),
        val(norm_of(u)) == 0 as real,
    ensures
        forall|i: int| 0 <= i < u.len() ==> #[trigger] u[i] == T::zero_spec(),
{
    crate::blr_laws::norm_is_positive(val, re, im, u);
    crate::exact::product_sign(0 as real, 0 as real);
    assert forall|i: int| 0 <= i < u.len() implies #[trigger] u[i] == T::zero_spec() by {
        squares_grow(val, re, im, u, u.len() as int, i);
        let (x, y) = (re(u[i]), im(u[i]));
        square_sign(x);
        square_sign(y);
        assert(val(u[i].magnitude_sq_spec()) == x * x + y * y);
        assert(x == 0 as real && y == 0 as real);
        assert(re(u[i]) == re(T::zero_spec()) && im(u[i]) == im(T::zero_spec()));
    }
}

/// A vector is its norm times its direction.
proof fn along_direction<T: Field>(
    val: spec_fn(T::Real) -> real,
    re: spec_fn(T) -> real,
    im: spec_fn(T) -> real,
    u: Seq<T>,
)
    requires
        exact_complex(val, re, im),
        faithful(re, im),
    ensures
        direction(u, norm_of(u)).len() == u.len(),
        forall|r: int|
            0 <= r < u.len() ==> #[trigger] u[r] == T::from_real_spec(norm_of(u)).times_spec(
                direction(u, norm_of(u))[r],
            ),
        val(norm_of(u)) >= 0 as real,
        val(norm_of(u)) == 0 as real <==> T::from_real_spec(norm_of(u)) == T::zero_spec(),
{
    let h = norm_of(u);
    let big = T::from_real_spec(h);
    norm_is_product(val, re, im, u);
    assert(val(h) == 0 as real <==> big == T::zero_spec()) by {
        assert(re(big) == val(h) && im(big) == 0 as real);
        assert(re(T::zero_spec()) == 0 as real && im(T::zero_spec()) == 0 as real);
    }
    if val(h) > 0 as real {
        normalized(val, re, im, u);
    } else {
        norm_vanishes(val, re, im, u);
        times_zero(big);
    }
}

/// One more rotation turns one more coordinate.
proof fn turns_one_more<T: Field>(
    s: Sweep<T>,
    s2: Sweep<T>,
    q: Seq<Seq<T>>,
    p: Seq<T>,
    n: int,
    t: Seq<T>,
    r: int,
)
    requires
        conjugation_of_pair(s2),
        shaped(s, q, p, n),
        s2.h.len() == s.h.len() + 1,
        s2.v.len() == s.v.len() + 1,
        s2.v.drop_last() == s.v,
        s2.v.last().len() == n,
        s2.cs.len() == s2.h.len(),
        s2.sn.len() == s2.h.len(),
        s2.cs.drop_last() == s.cs,
        s2.sn.drop_last() == s.sn,
        t.len() > s2.h.len(),
        0 <= r < n,
        same_vector(s, q, p, t, r),
    ensures
        ({
            let (c, w, v) = (s2.cs.last(), s2.sn.last(), s2.v.last());
            same_vector(
                s2,
                q.push(mixed(c, p, w, v)),
                mixed(neg(w.conj_spec()), p, c.conj_spec(), v),
                t,
                r,
            )
        }),
{
    let k = s.h.len() as int;
    let (c, w, v) = (s2.cs.last(), s2.sn.last(), s2.v.last());
    let (cb, wb) = (c.conj_spec(), w.conj_spec());
    let q2 = q.push(mixed(c, p, w, v));
    let p2 = mixed(neg(wb), p, cb, v);
    mixture(c, p, w, v);
    mixture(neg(wb), p, cb, v);
    assert forall|i: int| 0 <= i < k implies #[trigger] s2.cs[i] == s.cs[i] by {
        assert(s2.cs.drop_last()[i] == s.cs[i]);
    }
    assert forall|i: int| 0 <= i < k implies #[trigger] s2.sn[i] == s.sn[i] by {
        assert(s2.sn.drop_last()[i] == s.sn[i]);
    }
    assert forall|i: int| 0 <= i < k + 1 implies #[trigger] s2.v[i] == s.v[i] by {
        assert(s2.v.drop_last()[i] == s.v[i]);
    }
    rotated_ext(t, s2.cs, s2.sn, s.cs, s.sn, k);
    rotated_tail(t, s.cs, s.sn, k);
    rotated_tail(t, s2.cs, s2.sn, k + 1);
    let old_c = rotated(t, s.cs, s.sn, k);
    let new_c = rotated(t, s2.cs, s2.sn, k + 1);
    let (f, g) = (old_c[k], t[k + 1]);
    assert(old_c[k + 1] == g);
    let up = cb.times_spec(f).plus_spec(wb.times_spec(g));
    let low = neg(w).times_spec(f).plus_spec(c.times_spec(g));
    T::negate_exact(w);
    assert(new_c[k] == up && new_c[k + 1] == low);
    combo_ext(s2.v, s.v, t, t, k + 1, r);
    combo_ext(q2, q, new_c, old_c, k, r);
    let base = combo(q, old_c, k, r);
    assert(combo(s2.v, t, k + 2, r) == base.plus_spec(f.times_spec(p[r])).plus_spec(
        g.times_spec(v[r]),
    ));
    T::plus_assoc(base, f.times_spec(p[r]), g.times_spec(v[r]));
    turning_keeps(c, cb, w, wb, f, g, p[r], v[r]);
    T::plus_assoc(base, up.times_spec(q2[k][r]), low.times_spec(p2[r]));
    assert(combo(q2, new_c, k + 1, r) == base.plus_spec(up.times_spec(q2[k][r])));
}

/// The last rotation of the sweep keeps lengths.
pub open spec fn conjugation_of_pair<T: Scalar>(s: Sweep<T>) -> bool {
    let (c, w) = (s.cs.last(), s.sn.last());
    &&& crate::krylov::hermitian::conjugation::<T>()
    &&& c.times_spec(c.conj_spec()).plus_spec(w.times_spec(w.conj_spec())) == T::one_spec()
}

/// One more step of a sweep turns with it.
proof fn step_turns<T: Field>(
    val: spec_fn(T::Real) -> real,
    re: spec_fn(T) -> real,
    im: spec_fn(T) -> real,
    s: Sweep<T>,
    hs: Seq<T>,
    u: Seq<T>,
    az: Seq<Seq<T>>,
    r0: Seq<T>,
    q: Seq<Seq<T>>,
    p: Seq<T>,
    n: int,
) -> (turned_basis: (Seq<Seq<T>>, Seq<T>))
    requires
        exact_complex(val, re, im),
        faithful(re, im),
        turned(s, az, r0, q, p, n),
        u.len() == n,
        az[s.h.len() as int].len() == n,
        splits(s.v, hs, u, az[s.h.len() as int]),
    ensures
        ({
            let k = s.h.len() as int;
            let s2 = closed_with(s, hs, u, norm_of(u));
            let (c, w) = (s2.cs[k], s2.sn[k]);
            &&& turned(s2, az, r0, turned_basis.0, turned_basis.1, n)
            &&& conjugation_of_pair(s2)
            &&& turned_basis.1 == mixed(
                neg(w.conj_spec()),
                p,
                c.conj_spec(),
                direction(u, norm_of(u)),
            )
            &&& val(norm_of(u)) > 0 as real ==> s2.h[k][k] != T::zero_spec()
            &&& val(norm_of(u)) == 0 as real ==> s2.g[k + 1] == T::zero_spec()
        }),
{
    let k = s.h.len() as int;
    let hn = norm_of(u);
    let big = T::from_real_spec(hn);
    let v = direction(u, hn);
    let s2 = closed_with(s, hs, u, hn);
    let zero = T::zero_spec();
    complex_conjugation(val, re, im);
    along_direction(val, re, im, u);
    let t = hs.push(big);
    let col = rotated(t, s.cs, s.sn, k);
    rotated_tail(t, s.cs, s.sn, k);
    assert(col[k + 1] == big);
    let (c, w) = rotation(col[k], col[k + 1]);
    rotation_is_unitary(val, re, im, col[k], big);
    rotation_clears(col[k], big);
    let (cb, wb) = (c.conj_spec(), w.conj_spec());
    assert(s2.cs.last() == c && s2.sn.last() == w && s2.v.last() == v);
    assert(s2.cs.drop_last() =~= s.cs);
    assert(s2.sn.drop_last() =~= s.sn);
    assert(s2.v.drop_last() =~= s.v);
    let q2 = q.push(mixed(c, p, w, v));
    let p2 = mixed(neg(wb), p, cb, v);
    mixture(c, p, w, v);
    mixture(neg(wb), p, cb, v);
    assert(s2.h[k].len() == k + 1);
    assert(shaped(s2, q2, p2, n));
    assert forall|x: Seq<T>, r: int| x.len() > k + 1 && 0 <= r < n implies #[trigger] same_vector(
        s2,
        q2,
        p2,
        x,
        r,
    ) by {
        assert(same_vector(s, q, p, x, r));
        turns_one_more(s, s2, q, p, n, x, r);
    }
    T::negate_exact(w);
    assert forall|j: int, r: int| 0 <= j < k + 1 && 0 <= r < n implies #[trigger] az[j][r] == combo(
        q2,
        s2.h[j],
        j + 1,
        r,
    ) by {
        if j < k {
            assert(s2.h[j] == s.h[j]);
            combo_ext(q2, q, s.h[j], s.h[j], j + 1, r);
        } else {
            assert(same_vector(s2, q2, p2, t, r));
            let new_c = rotated(t, s2.cs, s2.sn, k + 1);
            rotated_ext(t, s2.cs, s2.sn, s.cs, s.sn, k);
            assert(new_c[k + 1] == zero);
            times_zero(p2[r]);
            T::plus_zero(combo(q2, new_c, k + 1, r));
            assert forall|i: int| 0 <= i < k + 1 implies #[trigger] new_c[i] == s2.h[k][i] by {}
            combo_ext(q2, q2, new_c, s2.h[k], k + 1, r);
            combo_ext(s2.v, s.v, t, hs, k + 1, r);
            assert(combo(s2.v, t, k + 2, r) == combo(s.v, hs, k + 1, r).plus_spec(
                big.times_spec(v[r]),
            ));
            assert(u[r] == big.times_spec(v[r]));
            assert(az[k][r] == combo(s.v, hs, k + 1, r).plus_spec(u[r]));
        }
    }
    assert forall|r: int| 0 <= r < n implies #[trigger] r0[r] == combo(
        q2,
        s2.g,
        k + 1,
        r,
    ).plus_spec(s2.g[k + 1].times_spec(p2[r])) by {
        let f = s.g[k];
        turning_keeps(c, cb, w, wb, f, zero, p[r], v[r]);
        times_zero(v[r]);
        times_zero(wb);
        times_zero(c);
        T::plus_zero(f.times_spec(p[r]));
        T::plus_zero(cb.times_spec(f));
        T::plus_zero(neg(w).times_spec(f));
        assert(s2.g[k] == cb.times_spec(f));
        assert(s2.g[k + 1] == neg(w).times_spec(f));
        combo_ext(q2, q, s2.g, s.g, k, r);
        let base = combo(q, s.g, k, r);
        T::plus_assoc(base, s2.g[k].times_spec(q2[k][r]), s2.g[k + 1].times_spec(p2[r]));
    }
    if val(hn) == 0 as real {
        assert(w == zero);
        crate::algebra::neg_plus(zero);
        T::plus_zero(neg(zero));
        times_zero(s.g[k]);
    }
    (q2, p2)
}

/// The basis is orthonormal, the vector left over is a unit vector among its
/// combinations, and the triangle has no zero on its diagonal.
pub open spec fn upright<T: Scalar>(s: Sweep<T>, p: Seq<T>, n: int) -> bool {
    &&& orthonormal(s.v, n)
    &&& dotc_of(p, p) == T::one_spec()
    &&& forall|d: Seq<T>|
        d.len() == n && orthogonal_to(s.v, d) ==> #[trigger] dotc_of(p, d) == T::zero_spec()
    &&& regular(s.h, s.h.len() as int)
}

/// A step that finds a new direction keeps the sweep upright.
proof fn step_stands<T: Field>(
    val: spec_fn(T::Real) -> real,
    re: spec_fn(T) -> real,
    im: spec_fn(T) -> real,
    s: Sweep<T>,
    s2: Sweep<T>,
    u: Seq<T>,
    p: Seq<T>,
    p2: Seq<T>,
    n: int,
)
    requires
        exact_complex(val, re, im),
        faithful(re, im),
        val(norm_of(u)) > 0 as real,
        u.len() == n,
        p.len() == n,
        s.v.len() == s.h.len() + 1,
        upright(s, p, n),
        orthogonal_to(s.v, u),
        s2.v == s.v.push(direction(u, norm_of(u))),
        s2.h.len() == s.h.len() + 1,
        s2.h.drop_last() == s.h,
        s2.h.last().len() == s.h.len() + 1,
        s2.h.last()[s.h.len() as int] != T::zero_spec(),
        conjugation_of_pair(s2),
        p2 == mixed(
            neg(s2.sn.last().conj_spec()),
            p,
            s2.cs.last().conj_spec(),
            direction(u, norm_of(u)),
        ),
    ensures
        upright(s2, p2, n),
{
    let v = direction(u, norm_of(u));
    let k = s.h.len() as int;
    let zero = T::zero_spec();
    complex_conjugation(val, re, im);
    normalized(val, re, im, u);
    assert(v.len() == n);
    assert forall|i: int| 0 <= i < s.v.len() implies dotc_of(#[trigger] s.v[i], v) == zero
        && dotc_of(v, s.v[i]) == zero by {
        assert(dotc_of(s.v[i], u) == zero);
        dotc_turns(s.v[i], v);
    }
    assert(orthonormal(s2.v, n)) by {
        assert forall|i: int, j: int|
            0 <= i < s2.v.len() && 0 <= j < s2.v.len() && i != j implies dotc_of(
            #[trigger] s2.v[i],
            #[trigger] s2.v[j],
        ) == zero by {
            if i <= k && j <= k {
                assert(s2.v[i] == s.v[i] && s2.v[j] == s.v[j]);
            } else if i <= k {
                assert(dotc_of(s.v[i], v) == zero);
            } else {
                assert(dotc_of(s.v[j], v) == zero);
            }
        }
    }
    assert(orthogonal_to(s.v, v));
    assert(dotc_of(p, v) == zero);
    left_over(s2.cs.last(), s2.sn.last(), p, v);
    assert forall|d: Seq<T>| d.len() == n && orthogonal_to(s2.v, d) implies #[trigger] dotc_of(
        p2,
        d,
    ) == zero by {
        assert forall|i: int| 0 <= i < s.v.len() implies dotc_of(#[trigger] s.v[i], d) == zero by {
            assert(s2.v[i] == s.v[i]);
        }
        assert(dotc_of(p, d) == zero);
        assert(s2.v[k + 1] == v);
        assert(dotc_of(v, d) == zero);
    }
    assert forall|j: int| 0 <= j < k + 1 implies (#[trigger] s2.h[j]).len() == j + 1 && s2.h[j][j]
        != zero by {
        if j < k {
            assert(s2.h.drop_last()[j] == s.h[j]);
        }
    }
}

/// No two vectors have the same image.
pub open spec fn one_to_one<T: Scalar, A: LinearOperator<T>>(op: A) -> bool {
    forall|x: Seq<T>, y: Seq<T>|
        #![trigger op.image(x), op.image(y)]
        x.len() == op.dim_spec() && y.len() == op.dim_spec() && op.image(x) == op.image(y) ==> x
            == y
}

/// The linear map `back` takes every answer of the preconditioner back to its
/// question.
pub open spec fn taken_back<T: Scalar, M: Preconditioner<T>>(
    m: M,
    back: spec_fn(Seq<T>) -> Seq<T>,
    n: int,
) -> bool {
    &&& back(zeros(n)) == zeros::<T>(n)
    &&& forall|x: Seq<T>, a: T, y: Seq<T>|
        x.len() == n && y.len() == n ==> #[trigger] back(plus_multiple(x, a, y)) == plus_multiple(
            back(x),
            a,
            back(y),
        )
    &&& forall|r: Seq<T>, z: Seq<T>|
        r.len() == n && #[trigger] m.gives(r, Ok(z)) ==> z.len() == n && back(z) == r
}

/// The images of the answers.
pub open spec fn images<T: Scalar, A: LinearOperator<T>>(op: A, zs: Seq<Seq<T>>) -> Seq<Seq<T>> {
    Seq::new(zs.len(), |j: int| op.image(zs[j]))
}

/// The image of a combination is the combination of the images.
proof fn image_of_combination<T: Field, A: LinearOperator<T>>(
    op: A,
    x: Seq<T>,
    zs: Seq<Seq<T>>,
    y: Seq<T>,
    k: int,
)
    requires
        linear(op),
        x.len() == op.dim_spec(),
        0 <= k <= zs.len(),
        forall|j: int| 0 <= j < k ==> (#[trigger] zs[j]).len() == op.dim_spec(),
    ensures
        combined(x, zs, y, k).len() == x.len(),
        op.image(combined(x, zs, y, k)).len() == x.len(),
        forall|r: int|
            0 <= r < x.len() ==> #[trigger] op.image(combined(x, zs, y, k))[r] == op.image(
                x,
            )[r].plus_spec(combo(images(op, zs), y, k, r)),
    decreases k,
{
    let c = combined(x, zs, y, k);
    let az = images(op, zs);
    if k == 0 {
        assert forall|r: int| 0 <= r < x.len() implies #[trigger] op.image(c)[r] == op.image(
            x,
        )[r].plus_spec(combo(az, y, k, r)) by {
            T::plus_zero(op.image(x)[r]);
        }
    } else {
        image_of_combination(op, x, zs, y, k - 1);
        let b = combined(x, zs, y, k - 1);
        let z = zs[k - 1];
        scaled_is_multiple(b, z, y[k - 1]);
        assert(op.image(c) == plus_multiple(op.image(b), y[k - 1], op.image(z)));
        assert forall|r: int| 0 <= r < x.len() implies #[trigger] op.image(c)[r] == op.image(
            x,
        )[r].plus_spec(combo(az, y, k, r)) by {
            assert(op.image(b)[r] == op.image(x)[r].plus_spec(combo(az, y, k - 1, r)));
            T::plus_assoc(
                op.image(x)[r],
                combo(az, y, k - 1, r),
                y[k - 1].times_spec(op.image(z)[r]),
            );
        }
    }
}

pub(crate) proof fn combination_taken_back<T: Field>(
    back: spec_fn(Seq<T>) -> Seq<T>,
    n: int,
    zs: Seq<Seq<T>>,
    vs: Seq<Seq<T>>,
    y: Seq<T>,
    k: int,
)
    requires
        0 <= k,
        0 <= n,
        back(zeros(n)) == zeros::<T>(n),
        forall|x: Seq<T>, a: T, w: Seq<T>|
            x.len() == n && w.len() == n ==> #[trigger] back(plus_multiple(x, a, w))
                == plus_multiple(back(x), a, back(w)),
        forall|j: int|
            0 <= j < k ==> (#[trigger] zs[j]).len() == n && back(zs[j]) == vs[j],
    ensures
        combined(zeros(n), zs, y, k).len() == n,
        back(combined(zeros(n), zs, y, k)) == combined(zeros(n), vs, y, k),
    decreases k,
{
    if k > 0 {
        combination_taken_back(back, n, zs, vs, y, k - 1);
        assert(zs[k - 1].len() == n && back(zs[k - 1]) == vs[k - 1]);
        scaled_is_multiple(combined(zeros(n), zs, y, k - 1), zs[k - 1], y[k - 1]);
        scaled_is_multiple(combined(zeros(n), vs, y, k - 1), vs[k - 1], y[k - 1]);
    }
}

/// Where the operator is one-to-one, a column is not a combination of the columns
/// before it: its diagonal is not zero.
pub(crate) proof fn column_is_new<T: Field, A: LinearOperator<T>>(
    op: A,
    back: spec_fn(Seq<T>) -> Seq<T>,
    s: Sweep<T>,
    zs: Seq<Seq<T>>,
    vs: Seq<Seq<T>>,
    r0: Seq<T>,
    q: Seq<Seq<T>>,
    p: Seq<T>,
    n: int,
)
    requires
        linear(op),
        one_to_one(op),
        n == op.dim_spec(),
        0 <= n,
        T::one_spec() != T::zero_spec(),
        s.h.len() == zs.len(),
        zs.len() > 0,
        turned(s, images(op, zs), r0, q, p, n),
        regular(s.h, s.h.len() - 1),
        vs.len() == zs.len(),
        orthonormal(vs, n),
        back(zeros(n)) == zeros::<T>(n),
        forall|x: Seq<T>, a: T, w: Seq<T>|
            x.len() == n && w.len() == n ==> #[trigger] back(plus_multiple(x, a, w))
                == plus_multiple(back(x), a, back(w)),
        forall|j: int|
            0 <= j < zs.len() ==> (#[trigger] zs[j]).len() == n && back(zs[j]) == vs[j],
    ensures
        s.h.last()[s.h.len() - 1] != T::zero_spec(),
{
    let k = s.h.len() - 1;
    let az = images(op, zs);
    let h = s.h[k];
    let zero = T::zero_spec();
    if h[k] == zero {
        let y = back_from(s.h, h, k, 0);
        back_substitution_solves(s.h, h, k);
        let d = combined(zeros(n), zs, y, k);
        image_of_combination(op, zeros(n), zs, y, k);
        assert(op.image(zs[k]).len() == n);
        assert forall|r: int| 0 <= r < n implies op.image(d)[r] == op.image(zs[k])[r] by {
            assert forall|j: int| 0 <= j < k implies (#[trigger] az[j])[r] == combo(
                q,
                s.h[j],
                j + 1,
                r,
            ) by {}
            triangular_combination(az, q, s.h, y, h, k, r);
            assert(az[k][r] == combo(q, h, k + 1, r));
            times_zero(q[k][r]);
            T::plus_zero(combo(q, h, k, r));
            zero_plus(combo(az, y, k, r));
        }
        assert(op.image(d) =~= op.image(zs[k]));
        assert(d == zs[k]);
        combination_taken_back(back, n, zs, vs, y, k);
        assert(vs[k].len() == n);
        combination_is_orthogonal(vs[k], vs, y, k);
        assert(dotc_of(vs[k], vs[k]) == zero);
    }
}

/// The update of a sweep leaves the vector left over, by the last entry of the
/// rotated right-hand side.
pub(crate) proof fn update_leaves<T: Field, A: LinearOperator<T>>(
    val: spec_fn(T::Real) -> real,
    re: spec_fn(T) -> real,
    im: spec_fn(T) -> real,
    op: A,
    b: Seq<T>,
    x: Seq<T>,
    zs: Seq<Seq<T>>,
    s: Sweep<T>,
    q: Seq<Seq<T>>,
    p: Seq<T>,
)
    requires
        exact_complex(val, re, im),
        faithful(re, im),
        linear(op),
        b.len() == op.dim_spec(),
        x.len() == op.dim_spec(),
        s.h.len() == zs.len(),
        forall|j: int| 0 <= j < zs.len() ==> (#[trigger] zs[j]).len() == op.dim_spec(),
        turned(s, images(op, zs), residual(op, b, x), q, p, op.dim_spec()),
        regular(s.h, s.h.len() as int),
    ensures
        ({
            let y = least_squares(s);
            let x2 = combined(x, zs, y, y.len() as int);
            &&& x2.len() == op.dim_spec()
            &&& residual(op, b, x2).len() == op.dim_spec()
            &&& forall|r: int|
                0 <= r < op.dim_spec() ==> #[trigger] residual(op, b, x2)[r]
                    == s.g[s.h.len() as int].times_spec(p[r])
        }),
{
    let n = op.dim_spec();
    let k = s.h.len() as int;
    let az = images(op, zs);
    all_columns_sound(val, re, im, s.h);
    let y = least_squares(s);
    back_substitution_solves(s.h, s.g, k);
    assert(y == back_from(s.h, s.g, k, 0));
    let x2 = combined(x, zs, y, k);
    image_of_combination(op, x, zs, y, k);
    let r0 = residual(op, b, x);
    assert forall|r: int| 0 <= r < n implies #[trigger] residual(op, b, x2)[r]
        == s.g[k].times_spec(p[r]) by {
        assert forall|j: int| 0 <= j < k implies (#[trigger] az[j])[r] == combo(
            q,
            s.h[j],
            j + 1,
            r,
        ) by {}
        triangular_combination(az, q, s.h, y, s.g, k, r);
        let c = combo(q, s.g, k, r);
        let e = s.g[k].times_spec(p[r]);
        assert(op.image(x2)[r] == op.image(x)[r].plus_spec(c));
        minus_sum(b[r], op.image(x)[r], c);
        assert(r0[r] == c.plus_spec(e));
        assert(residual(op, b, x2)[r] == c.plus_spec(e).minus_spec(c));
        T::plus_comm(c, e);
        T::minus_plus(e.plus_spec(c), c);
        cancel(e.plus_spec(c).minus_spec(c), e, c);
    }
}

/// A triangle without a zero on the diagonal is solved with as a whole.
pub(crate) proof fn all_columns_sound<T: Field>(
    val: spec_fn(T::Real) -> real,
    re: spec_fn(T) -> real,
    im: spec_fn(T) -> real,
    h: Seq<Seq<T>>,
)
    requires
        exact_complex(val, re, im),
        faithful(re, im),
        regular(h, h.len() as int),
    ensures
        sound_dim(h) == h.len(),
{
    let k = h.len() as int;
    let thresh = <T::Real as Real>::epsilon_spec().times_spec(diagonal_max(h, k));
    product_sign(0 as real, val(diagonal_max(h, k)));
    assert(val(thresh) == 0 as real);
    all_sound(val, re, im, h, thresh, 0);
}

/// No column of a triangle without a zero on the diagonal is given up.
proof fn all_sound<T: Field>(
    val: spec_fn(T::Real) -> real,
    re: spec_fn(T) -> real,
    im: spec_fn(T) -> real,
    h: Seq<Seq<T>>,
    thresh: T::Real,
    i: int,
)
    requires
        exact_complex(val, re, im),
        faithful(re, im),
        val(thresh) == 0 as real,
        regular(h, h.len() as int),
        0 <= i <= h.len(),
    ensures
        sound_from(h, thresh, i) == h.len(),
    decreases h.len() - i,
{
    if i < h.len() {
        all_sound(val, re, im, h, thresh, i + 1);
        assert(h[i][i] != T::zero_spec());
        let a = h[i][i];
        let m = val(a.magnitude_spec());
        if m == 0 as real {
            square_sign(re(a));
            square_sign(im(a));
            product_sign(0 as real, 0 as real);
            assert(re(a) == re(T::zero_spec()) && im(a) == im(T::zero_spec()));
        }
    }
}

/// A promise of zero meets every tolerance.
pub(crate) proof fn nothing_is_enough<T: Scalar>(
    val: spec_fn(T::Real) -> real,
    re: spec_fn(T) -> real,
    im: spec_fn(T) -> real,
    b: Seq<T>,
    tol: T::Real,
    x: T::Real,
)
    requires
        exact_complex(val, re, im),
        val(x) == 0 as real,
        val(norm_of(b)) > 0 as real,
        val(tol) >= 0 as real,
    ensures
        tol.ge_spec(x.over_spec(norm_of(b))),
{
    let e = val(x.over_spec(norm_of(b)));
    order_scales(val(norm_of(b)), e, e);
    reorders(e, val(norm_of(b)), 1 as real);
}

/// The magnitude of zero is zero.
pub(crate) proof fn magnitude_of_zero<T: Scalar>(
    val: spec_fn(T::Real) -> real,
    re: spec_fn(T) -> real,
    im: spec_fn(T) -> real,
)
    requires
        exact_complex(val, re, im),
    ensures
        val(T::zero_spec().magnitude_spec()) == 0 as real,
{
    product_sign(0 as real, 0 as real);
    square_sign(val(T::zero_spec().magnitude_spec()));
}

/// A residual over its norm starts a sweep that stands.
pub(crate) proof fn opening_stands<T: Field>(
    val: spec_fn(T::Real) -> real,
    re: spec_fn(T) -> real,
    im: spec_fn(T) -> real,
    r0: Seq<T>,
    az: Seq<Seq<T>>,
)
    requires
        exact_complex(val, re, im),
        faithful(re, im),
        val(norm_of(r0)) > 0 as real,
    ensures
        ({
            let s = opened(r0, norm_of(r0));
            let n = r0.len() as int;
            turned(s, az, r0, Seq::empty(), s.v[0], n) && upright(s, s.v[0], n)
        }),
{
    let s = opened(r0, norm_of(r0));
    let n = r0.len() as int;
    let q = Seq::<Seq<T>>::empty();
    let p = s.v[0];
    normalized(val, re, im, r0);
    assert(p.len() == n);
    assert forall|t: Seq<T>, r: int| t.len() > 0 && 0 <= r < n implies #[trigger] same_vector(
        s,
        q,
        p,
        t,
        r,
    ) by {
        assert(combo(s.v, t, 0, r) == T::zero_spec());
        assert(combo(s.v, t, 1, r) == T::zero_spec().plus_spec(t[0].times_spec(p[r])));
    }
    assert forall|r: int| 0 <= r < n implies #[trigger] r0[r] == combo(q, s.g, 0, r).plus_spec(
        s.g[0].times_spec(p[r]),
    ) by {
        zero_plus(s.g[0].times_spec(p[r]));
    }
    assert forall|d: Seq<T>| d.len() == n && orthogonal_to(s.v, d) implies #[trigger] dotc_of(p, d)
        == T::zero_spec() by {
        assert(dotc_of(s.v[0], d) == T::zero_spec());
    }
}

/// A step that splits its image in the basis turns with the sweep, and keeps it
/// upright unless nothing is left over.
pub(crate) proof fn split_turns<T: Field>(
    val: spec_fn(T::Real) -> real,
    re: spec_fn(T) -> real,
    im: spec_fn(T) -> real,
    s: Sweep<T>,
    hs: Seq<T>,
    u: Seq<T>,
    az: Seq<Seq<T>>,
    r0: Seq<T>,
    q: Seq<Seq<T>>,
    p: Seq<T>,
    n: int,
) -> (turned_basis: (Seq<Seq<T>>, Seq<T>))
    requires
        exact_complex(val, re, im),
        faithful(re, im),
        turned(s, az, r0, q, p, n),
        upright(s, p, n),
        az[s.h.len() as int].len() == n,
        splits(s.v, hs, u, az[s.h.len() as int]),
        orthogonal_to(s.v, u),
    ensures
        ({
            let k = s.h.len() as int;
            let s2 = closed_with(s, hs, u, norm_of(u));
            let (q2, p2) = turned_basis;
            &&& s2.h.len() == k + 1
            &&& s2.v.drop_last() == s.v
            &&& s2.h.drop_last() == s.h
            &&& turned(s2, az, r0, q2, p2, n)
            &&& upright(s2, p2, n) || s2.g[k + 1] == T::zero_spec()
        }),
{
    let s2 = closed_with(s, hs, u, norm_of(u));
    let (q2, p2) = step_turns(val, re, im, s, hs, u, az, r0, q, p, n);
    norm_is_product(val, re, im, u);
    assert(s2.v.drop_last() =~= s.v);
    assert(s2.h.drop_last() =~= s.h);
    if val(norm_of(u)) > 0 as real {
        step_stands(val, re, im, s, s2, u, p, p2, n);
    }
    (q2, p2)
}

/// The step that a sweep takes.
proof fn sweep_turns<T: Field, A: LinearOperator<T>>(
    val: spec_fn(T::Real) -> real,
    re: spec_fn(T) -> real,
    im: spec_fn(T) -> real,
    op: A,
    b: Seq<T>,
    x: Seq<T>,
    zs: Seq<Seq<T>>,
    j: int,
    q: Seq<Seq<T>>,
    p: Seq<T>,
) -> (turned_basis: (Seq<Seq<T>>, Seq<T>))
    requires
        exact_complex(val, re, im),
        faithful(re, im),
        linear(op),
        b.len() == op.dim_spec(),
        0 <= j < zs.len(),
        zs[j].len() == op.dim_spec(),
        sweep_at(op, b, x, zs, j).h.len() == j,
        turned(
            sweep_at(op, b, x, zs, j),
            images(op, zs),
            residual(op, b, x),
            q,
            p,
            op.dim_spec(),
        ),
        upright(sweep_at(op, b, x, zs, j), p, op.dim_spec()),
    ensures
        ({
            let n = op.dim_spec();
            let s = sweep_at(op, b, x, zs, j);
            let s2 = sweep_at(op, b, x, zs, j + 1);
            let (q2, p2) = turned_basis;
            &&& s2.h.len() == j + 1
            &&& s2.v.drop_last() == s.v
            &&& s2.h.drop_last() == s.h
            &&& turned(s2, images(op, zs), residual(op, b, x), q2, p2, n)
            &&& upright(s2, p2, n) || s2.g[j + 1] == T::zero_spec()
        }),
{
    let n = op.dim_spec();
    let az = images(op, zs);
    let s = sweep_at(op, b, x, zs, j);
    let w = op.image(zs[j]);
    assert(az[j] == w);
    assert(w.len() == n);
    gram_schmidt_splits(s.v, w);
    let (hs, u) = mgs_orthogonal(s.v, w);
    let s2 = closed_with(s, hs, u, norm_of(u));
    assert(sweep_at(op, b, x, zs, j + 1) == s2) by {
        reveal(grown);
    }
    split_turns(val, re, im, s, hs, u, az, residual(op, b, x), q, p, n)
}

/// The answers so far belong to the basis of the sweep.
pub open spec fn answers_fit<T: Scalar>(
    back: spec_fn(Seq<T>) -> Seq<T>,
    zs: Seq<Seq<T>>,
    v: Seq<Seq<T>>,
    n: int,
    k: int,
) -> bool {
    forall|i: int| 0 <= i < k ==> (#[trigger] zs[i]).len() == n && back(zs[i]) == v[i]
}

/// Before its last step a cycle has found a new direction in every step.
proof fn sweep_stands<T: Field, A: LinearOperator<T>, M: Preconditioner<T>>(
    val: spec_fn(T::Real) -> real,
    re: spec_fn(T) -> real,
    im: spec_fn(T) -> real,
    op: A,
    m: M,
    back: spec_fn(Seq<T>) -> Seq<T>,
    b: Seq<T>,
    tol: T::Real,
    limit: int,
    x: Seq<T>,
    zs: Seq<Seq<T>>,
    j: int,
) -> (turned_basis: (Seq<Seq<T>>, Seq<T>))
    requires
        exact_complex(val, re, im),
        faithful(re, im),
        linear(op),
        taken_back(m, back, op.dim_spec()),
        b.len() == op.dim_spec(),
        val(norm_of(b)) > 0 as real,
        val(tol) >= 0 as real,
        val(norm_of(residual(op, b, x))) > 0 as real,
        cycle_trace(op, m, b, tol, limit, x, zs),
        0 <= j < zs.len(),
    ensures
        ({
            let s = sweep_at(op, b, x, zs, j);
            let n = op.dim_spec();
            let (q, p) = turned_basis;
            &&& s.h.len() == j
            &&& turned(s, images(op, zs), residual(op, b, x), q, p, n)
            &&& upright(s, p, n)
            &&& answers_fit(back, zs, s.v, n, j + 1)
        }),
    decreases j,
{
    let n = op.dim_spec();
    let s = sweep_at(op, b, x, zs, j);
    let r0 = residual(op, b, x);
    let az = images(op, zs);
    assert(answered(op, m, b, x, zs, j));
    if j == 0 {
        opening_stands(val, re, im, r0, az);
        assert(s.v[0].len() == n);
        (Seq::empty(), s.v[0])
    } else {
        let (q, p) = sweep_stands(val, re, im, op, m, back, b, tol, limit, x, zs, j - 1);
        let s0 = sweep_at(op, b, x, zs, j - 1);
        assert(zs[j - 1].len() == n);
        let (q2, p2) = sweep_turns(val, re, im, op, b, x, zs, j - 1, q, p);
        if s.g[j] == T::zero_spec() {
            magnitude_of_zero::<T>(val, re, im);
            nothing_is_enough(val, re, im, b, tol, s.g[j].magnitude_spec());
            assert(looks_solved(b, tol, s));
        }
        assert(s.v[j].len() == n);
        assert forall|i: int| 0 <= i < j + 1 implies (#[trigger] zs[i]).len() == n && back(zs[i])
            == s.v[i] by {
            if i < j {
                assert(s.v.drop_last()[i] == s0.v[i]);
            }
        }
        (q2, p2)
    }
}

/// In exact arithmetic a cycle keeps its promise: the residual of its update has
/// the norm that the rotated right-hand side ends in. It takes no more steps than
/// there are dimensions, and if it takes as many, the residual is small enough.
pub proof fn cycle_keeps_its_promise<T: Field, A: LinearOperator<T>, M: Preconditioner<T>>(
    val: spec_fn(T::Real) -> real,
    re: spec_fn(T) -> real,
    im: spec_fn(T) -> real,
    op: A,
    m: M,
    back: spec_fn(Seq<T>) -> Seq<T>,
    b: Seq<T>,
    tol: T::Real,
    limit: int,
    x: Seq<T>,
    zs: Seq<Seq<T>>,
)
    requires
        exact_complex(val, re, im),
        faithful(re, im),
        linear(op),
        one_to_one(op),
        taken_back(m, back, op.dim_spec()),
        b.len() == op.dim_spec(),
        x.len() == op.dim_spec(),
        val(norm_of(b)) > 0 as real,
        val(tol) >= 0 as real,
        val(norm_of(residual(op, b, x))) > 0 as real,
        cycle_ends(op, m, b, tol, limit, x, zs),
    ensures
        val(norm_of(residual(op, b, cycle_result(op, b, x, zs)))) == val(
            promised(sweep_at(op, b, x, zs, zs.len() as int)),
        ),
        zs.len() <= op.dim_spec(),
        zs.len() == op.dim_spec() ==> looks_solved(
            b,
            tol,
            sweep_at(op, b, x, zs, zs.len() as int),
        ),
{
    reveal(cycle_ends);
    let n = op.dim_spec();
    let k = zs.len() as int;
    let az = images(op, zs);
    let r0 = residual(op, b, x);
    let s0 = sweep_at(op, b, x, zs, k - 1);
    let s = sweep_at(op, b, x, zs, k);
    let (q0, p0) = sweep_stands(val, re, im, op, m, back, b, tol, limit, x, zs, k - 1);
    assert(zs[k - 1].len() == n);
    let (q, p) = sweep_turns(val, re, im, op, b, x, zs, k - 1, q0, p0);
    assert(T::one_spec() != T::zero_spec()) by {
        assert(re(T::one_spec()) != re(T::zero_spec()));
    }
    orthonormal_are_few(s0.v, n);
    magnitude_of_zero::<T>(val, re, im);
    if upright(s, p, n) {
        orthonormal_are_few(s.v, n);
    } else {
        nothing_is_enough(val, re, im, b, tol, promised(s));
        assert(regular(s.h, k - 1)) by {
            assert forall|i: int| 0 <= i < k - 1 implies (#[trigger] s.h[i]).len() == i + 1
                && s.h[i][i] != T::zero_spec() by {
                assert(s.h.drop_last()[i] == s0.h[i]);
            }
        }
        column_is_new(op, back, s, zs, s0.v, r0, q, p, n);
        assert(regular(s.h, k));
    }
    update_leaves(val, re, im, op, b, x, zs, s, q, p);
    let left = residual(op, b, cycle_result(op, b, x, zs));
    assert(left =~= times_all(s.g[k], p));
    norm_scales(val, re, im, s.g[k], p);
    if upright(s, p, n) {
        norm_is_product(val, re, im, p);
        let y = val(norm_of(p));
        assert(y * y == 1 as real);
        assert((1 as real) * (1 as real) == 1 as real);
        roots_agree(y, 1 as real);
    } else {
        product_sign(0 as real, val(norm_of(p)));
    }
}

/// The minimal-residual iteration ends within the dimension: in exact arithmetic,
/// with a linear operator that is one-to-one, a preconditioner whose answers can be
/// taken back, and cycles and a budget of at least as many steps as there are
/// dimensions, the run converges after no more steps than dimensions.
pub proof fn gmres_ends_within_the_dimension<
    T: Field,
    A: LinearOperator<T>,
    M: Preconditioner<T>,
>(
    val: spec_fn(T::Real) -> real,
    re: spec_fn(T) -> real,
    im: spec_fn(T) -> real,
    op: A,
    m: M,
    back: spec_fn(Seq<T>) -> Seq<T>,
    b: Seq<T>,
    tol: T::Real,
    max_iter: int,
    restart: int,
    x0: Seq<T>,
    out: Outcome<T>,
)
    requires
        exact_complex(val, re, im),
        faithful(re, im),
        linear(op),
        one_to_one(op),
        taken_back(m, back, op.dim_spec()),
        b.len() == op.dim_spec(),
        x0.len() == op.dim_spec(),
        !norm_of(b).is_zero_spec(),
        val(tol) >= 0 as real,
        op.dim_spec() <= restart,
        op.dim_spec() <= max_iter,
        gmres_made(op, m, b, tol, max_iter, restart, x0, out),
    ensures
        out.converged,
        out.iters <= op.dim_spec(),
        tol.ge_spec(norm_of(residual(op, b, out.x)).over_spec(norm_of(b))),
{
    let n = op.dim_spec();
    norm_is_product(val, re, im, b);
    let runs = choose|runs: Seq<Seq<Seq<T>>>| #[trigger]
        run_ends(op, m, b, tol, max_iter, restart, x0, runs, out);
    if n == 0 {
        norm_of_zeros(val, re, im, b);
    }
    assert(iterate(op, b, x0, runs, 0) == x0);
    if runs.len() > 0 {
        assert(cycle_fits(op, m, b, tol, max_iter, restart, x0, runs, 0));
        let r0 = residual(op, b, x0);
        norm_is_product(val, re, im, r0);
        if val(norm_of(r0)) == 0 as real {
            nothing_is_enough(val, re, im, b, tol, norm_of(r0));
        }
        let limit = cycle_limit(restart, max_iter);
        let zs = runs[0];
        let x1 = cycle_result(op, b, x0, zs);
        let s = sweep_at(op, b, x0, zs, zs.len() as int);
        cycle_keeps_its_promise(val, re, im, op, m, back, b, tol, limit, x0, zs);
        assert(looks_solved(b, tol, s)) by {
            reveal(cycle_ends);
        }
        assert(is_solved(op, b, tol, x1)) by {
            let (e, f) = (norm_of(residual(op, b, x1)), promised(s));
            let (u, v) = (val(e.over_spec(norm_of(b))), val(f.over_spec(norm_of(b))));
            reorders(u, val(norm_of(b)), 1 as real);
            reorders(v, val(norm_of(b)), 1 as real);
            order_scales(val(norm_of(b)), v, u);
        }
        assert(iterate(op, b, x0, runs, 1) == x1);
        if runs.len() > 1 {
            assert(cycle_fits(op, m, b, tol, max_iter, restart, x0, runs, 1));
        }
        assert(steps_upto(runs, 0) == 0);
    }
}

/// Without a preconditioner every answer is its own question.
pub proof fn identity_is_taken_back<T: Scalar>(n: int)
    ensures
        taken_back::<T, NoPreconditioner>(NoPreconditioner, |z: Seq<T>| z, n),
{
}

} // verus!
