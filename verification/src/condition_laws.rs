//! What the condition estimate is good for, in exact arithmetic.

use crate::blr_laws::magnitude_of_product;
use crate::condition::{
    estimate, peak, phase, phases, power_iteration, real_product, uniform, unit, vector_norm,
    ConditionOperator,
};
use crate::exact::{
    exact_complex, multiplies_out, product_sign, reorders, roots_agree,
    square_of_product, square_sign, squares_multiply,
};
use crate::krylov::vectors::{dotc_between, dotc_of};
use crate::matrix_ops::magnitude_sum;
use crate::scalar::{Real, Scalar};
use vstd::prelude::*;

verus! {

/// `u` is dual to `y`: every entry has magnitude one, and turns the entry of `y`
/// into its magnitude.
pub open spec fn is_dual<T: Scalar>(
    val: spec_fn(T::Real) -> real,
    re: spec_fn(T) -> real,
    im: spec_fn(T) -> real,
    u: Seq<T>,
    y: Seq<T>,
) -> bool {
    &&& u.len() == y.len()
    &&& forall|i: int|
        0 <= i < y.len() ==> {
            &&& val((#[trigger] u[i]).magnitude_spec()) == 1 as real
            &&& re(u[i].conj_spec().times_spec(y[i])) == val(y[i].magnitude_spec())
            &&& im(u[i].conj_spec().times_spec(y[i])) == 0 as real
        }
}

/// The inverse and its adjoint belong together.
pub open spec fn adjoint<T: Scalar, O: ConditionOperator<T>>(op: O) -> bool {
    &&& forall|x: Seq<T>|
        x.len() == op.dim_spec() ==> ((#[trigger] op.inverse(x)) matches Ok(y) ==> y.len()
            == op.dim_spec())
    &&& forall|u: Seq<T>|
        u.len() == op.dim_spec() ==> ((#[trigger] op.inverse_adjoint(u)) matches Ok(z) ==> z.len()
            == op.dim_spec())
    &&& forall|x: Seq<T>, u: Seq<T>|
        #![trigger op.inverse(x), op.inverse_adjoint(u)]
        x.len() == op.dim_spec() && u.len() == op.dim_spec() && op.inverse(x) is Ok
            && op.inverse_adjoint(u) is Ok ==> dotc_of(op.inverse_adjoint(u)->Ok_0, x) == dotc_of(
            u,
            op.inverse(x)->Ok_0,
        )
}

/// The phase of an entry has magnitude one and turns the entry into its
/// magnitude.
proof fn phase_is_dual<T: Scalar>(
    val: spec_fn(T::Real) -> real,
    re: spec_fn(T) -> real,
    im: spec_fn(T) -> real,
    v: T,
)
    requires
        exact_complex(val, re, im),
    ensures
        val(phase(v).magnitude_spec()) == 1 as real,
        re(phase(v).conj_spec().times_spec(v)) == val(v.magnitude_spec()),
        im(phase(v).conj_spec().times_spec(v)) == 0 as real,
{
    let (a, b) = (re(v), im(v));
    let r = val(v.magnitude_spec());
    let u = phase(v);
    if v.magnitude_spec().is_zero_spec() {
        product_sign(r, r);
        square_sign(a);
        square_sign(b);
        assert(a == 0 as real && b == 0 as real);
        let one = T::one_spec();
        let m = val(one.magnitude_spec());
        assert((1 as real) * (1 as real) == 1 as real);
        product_sign(0 as real, 0 as real);
        roots_agree(m, 1 as real);
        let c = one.conj_spec();
        product_sign(re(c), 0 as real);
        product_sign(im(c), 0 as real);
    } else {
        let q = <T::Real as Real>::one_spec().over_spec(v.magnitude_spec());
        let s = T::from_real_spec(q);
        let t = val(q);
        assert(t * r == 1 as real);
        product_sign(b, 0 as real);
        product_sign(a, 0 as real);
        assert(re(u) == a * t && im(u) == b * t);
        // |u| == |v| t
        magnitude_of_product(val, re, im, v, s);
        let ms = val(s.magnitude_spec());
        product_sign(0 as real, 0 as real);
        assert(ms * ms == t * t);
        assert(r > 0 as real);
        if t < 0 as real {
            product_sign(-t, r);
            multiplies_out(r, 0 as real, t);
            reorders(-t, r, r);
            reorders(t, r, r);
        }
        roots_agree(ms, t);
        reorders(t, r, r);
        // the product with the conjugate
        let c = u.conj_spec();
        assert(re(c) == a * t && im(c) == -(b * t));
        let (x, y) = (a * t, b * t);
        assert((-y) * b == -(y * b)) by (nonlinear_arith);
        assert((-y) * a == -(y * a)) by (nonlinear_arith);
        reorders(t, a, a);
        reorders(t, b, b);
        reorders(t, a, b);
        reorders(t, b, a);
        reorders(a, t, a);
        reorders(b, t, b);
        reorders(a, b, t);
        multiplies_out(t, a * a, b * b);
        reorders(t, r, r);
        assert(x * a == t * (a * a));
        assert(y * b == t * (b * b));
        assert(x * b == t * (a * b));
        assert(y * a == t * (b * a));
    }
}

/// What is handed to the adjoint solve is dual to the solution before it.
pub proof fn phases_are_dual<T: Scalar>(
    val: spec_fn(T::Real) -> real,
    re: spec_fn(T) -> real,
    im: spec_fn(T) -> real,
    y: Seq<T>,
)
    requires
        exact_complex(val, re, im),
    ensures
        is_dual(val, re, im, phases(y), y),
{
    assert forall|i: int| 0 <= i < y.len() implies {
        &&& val((#[trigger] phases(y)[i]).magnitude_spec()) == 1 as real
        &&& re(phases(y)[i].conj_spec().times_spec(y[i])) == val(y[i].magnitude_spec())
        &&& im(phases(y)[i].conj_spec().times_spec(y[i])) == 0 as real
    } by {
        phase_is_dual(val, re, im, y[i]);
    }
}

/// The product with a dual vector is the one-norm.
proof fn dual_product_is_norm<T: Scalar>(
    val: spec_fn(T::Real) -> real,
    re: spec_fn(T) -> real,
    im: spec_fn(T) -> real,
    u: Seq<T>,
    y: Seq<T>,
    k: int,
)
    requires
        exact_complex(val, re, im),
        is_dual(val, re, im, u, y),
        0 <= k <= y.len(),
    ensures
        re(dotc_between(u, y, 0, k)) == val(magnitude_sum(y, k)),
    decreases k,
{
    if k > 0 {
        dual_product_is_norm(val, re, im, u, y, k - 1);
        assert(val(u[k - 1].magnitude_spec()) == 1 as real);
    }
}

/// The real part of the product, summed entry by entry.
proof fn real_product_is_part<T: Scalar>(
    val: spec_fn(T::Real) -> real,
    re: spec_fn(T) -> real,
    im: spec_fn(T) -> real,
    z: Seq<T>,
    x: Seq<T>,
    k: int,
)
    requires
        exact_complex(val, re, im),
        0 <= k,
    ensures
        val(real_product(z, x, k)) == re(dotc_between(z, x, 0, k)),
    decreases k,
{
    if k > 0 {
        real_product_is_part(val, re, im, z, x, k - 1);
    }
}

/// The triangle inequality.
proof fn triangle<T: Scalar>(
    val: spec_fn(T::Real) -> real,
    re: spec_fn(T) -> real,
    im: spec_fn(T) -> real,
    a: T,
    b: T,
)
    requires
        exact_complex(val, re, im),
    ensures
        val(a.plus_spec(b).magnitude_spec()) <= val(a.magnitude_spec()) + val(b.magnitude_spec()),
{
    let (p, q, u, v) = (re(a), im(a), re(b), im(b));
    let s = val(a.magnitude_spec());
    let t = val(b.magnitude_spec());
    let m = val(a.plus_spec(b).magnitude_spec());
    let d = p * u + q * v;
    // (p u + q v)^2 + (p v - q u)^2 == s^2 t^2
    squares_multiply(p, -q, u, v);
    assert(p * u - (-q) * v == d) by {
        assert((-q) * v == -(q * v)) by (nonlinear_arith);
    }
    assert((-q) * (-q) == q * q) by (nonlinear_arith);
    let e = p * v + (-q) * u;
    square_sign(e);
    square_of_product(s, t);
    product_sign(s, t);
    assert(d * d <= (s * t) * (s * t));
    if d > s * t {
        product_sign(d - s * t, d + s * t);
        let w = s * t;
        assert((d - w) * (d + w) == d * d - w * w) by (nonlinear_arith);
    }
    assert(d <= s * t);
    assert((p + u) * (p + u) == p * p + (p * u + p * u) + u * u) by (nonlinear_arith);
    assert((q + v) * (q + v) == q * q + (q * v + q * v) + v * v) by (nonlinear_arith);
    assert((s + t) * (s + t) == s * s + (s * t + s * t) + t * t) by (nonlinear_arith);
    assert(m * m <= (s + t) * (s + t));
    if m > s + t {
        product_sign(m - (s + t), m + (s + t));
        let w = s + t;
        assert((m - w) * (m + w) == m * m - w * w) by (nonlinear_arith);
    }
}

proof fn zero_has_no_magnitude<T: Scalar>(
    val: spec_fn(T::Real) -> real,
    re: spec_fn(T) -> real,
    im: spec_fn(T) -> real,
)
    requires
        exact_complex(val, re, im),
    ensures
        val(T::zero_spec().magnitude_spec()) == 0 as real,
{
    product_sign(0 as real, 0 as real);
    square_sign(val(T::zero_spec().magnitude_spec()));
}

proof fn conjugate_keeps_magnitude<T: Scalar>(
    val: spec_fn(T::Real) -> real,
    re: spec_fn(T) -> real,
    im: spec_fn(T) -> real,
    a: T,
)
    requires
        exact_complex(val, re, im),
    ensures
        val(a.conj_spec().magnitude_spec()) == val(a.magnitude_spec()),
{
    let b = im(a);
    assert((-b) * (-b) == b * b) by (nonlinear_arith);
    roots_agree(val(a.conj_spec().magnitude_spec()), val(a.magnitude_spec()));
}

/// A product with entries of magnitude one is at most the one-norm.
proof fn product_is_bounded<T: Scalar>(
    val: spec_fn(T::Real) -> real,
    re: spec_fn(T) -> real,
    im: spec_fn(T) -> real,
    u: Seq<T>,
    w: Seq<T>,
    k: int,
)
    requires
        exact_complex(val, re, im),
        0 <= k <= u.len(),
        u.len() == w.len(),
        forall|i: int| 0 <= i < u.len() ==> val((#[trigger] u[i]).magnitude_spec()) == 1 as real,
    ensures
        val(dotc_between(u, w, 0, k).magnitude_spec()) <= val(magnitude_sum(w, k)),
    decreases k,
{
    if k == 0 {
        zero_has_no_magnitude(val, re, im);
    } else {
        product_is_bounded(val, re, im, u, w, k - 1);
        let c = u[k - 1].conj_spec();
        conjugate_keeps_magnitude(val, re, im, u[k - 1]);
        magnitude_of_product(val, re, im, c, w[k - 1]);
        triangle(val, re, im, dotc_between(u, w, 0, k - 1), c.times_spec(w[k - 1]));
        let t = val(w[k - 1].magnitude_spec());
        assert((1 as real) * t == t) by (nonlinear_arith);
    }
}

/// The product with a unit vector picks one conjugate entry.
proof fn unit_product<T: Scalar>(
    val: spec_fn(T::Real) -> real,
    re: spec_fn(T) -> real,
    im: spec_fn(T) -> real,
    z: Seq<T>,
    n: int,
    j: int,
    k: int,
)
    requires
        exact_complex(val, re, im),
        0 <= j < n,
        0 <= k <= n,
    ensures
        re(dotc_between(z, unit::<T>(n, j), 0, k)) == (if j < k {
            re(z[j])
        } else {
            0 as real
        }),
        im(dotc_between(z, unit::<T>(n, j), 0, k)) == (if j < k {
            -im(z[j])
        } else {
            0 as real
        }),
    decreases k,
{
    if k > 0 {
        unit_product(val, re, im, z, n, j, k - 1);
        let e = unit::<T>(n, j)[k - 1];
        let c = z[k - 1].conj_spec();
        let (a, b) = (re(c), im(c));
        product_sign(a, 0 as real);
        product_sign(b, 0 as real);
        assert(a * (1 as real) == a) by (nonlinear_arith);
        assert(b * (1 as real) == b) by (nonlinear_arith);
        if k - 1 == j {
            assert(e == T::one_spec());
        } else {
            assert(e == T::zero_spec());
        }
    }
}

/// The peak is the largest magnitude, and it is attained where it says.
proof fn peak_is_largest<T: Scalar>(
    val: spec_fn(T::Real) -> real,
    re: spec_fn(T) -> real,
    im: spec_fn(T) -> real,
    z: Seq<T>,
    k: int,
)
    requires
        exact_complex(val, re, im),
        0 <= k <= z.len(),
    ensures
        k == 0 ==> val(peak(z, k).1) < 0 as real,
        k > 0 ==> 0 <= peak(z, k).0 < k && peak(z, k).1 == z[peak(z, k).0].magnitude_spec(),
        forall|i: int|
            0 <= i < k ==> val((#[trigger] z[i]).magnitude_spec()) <= val(peak(z, k).1),
    decreases k,
{
    if k > 0 {
        peak_is_largest(val, re, im, z, k - 1);
        assert(val(z[k - 1].magnitude_spec()) >= 0 as real);
    }
}

/// From probe `x` the largest entry of the adjoint solve for a dual vector points
/// to unit vector `j`, and that one is better.
pub open spec fn points_to<T: Scalar, O: ConditionOperator<T>>(
    val: spec_fn(T::Real) -> real,
    re: spec_fn(T) -> real,
    im: spec_fn(T) -> real,
    op: O,
    x: Seq<T>,
    j: int,
) -> bool {
    &&& 0 <= j < op.dim_spec()
    &&& op.inverse(x) is Ok
    &&& op.inverse(unit::<T>(op.dim_spec(), j)) is Ok
    &&& val(vector_norm(op.inverse(unit::<T>(op.dim_spec(), j))->Ok_0)) > val(
        vector_norm(op.inverse(x)->Ok_0),
    )
    &&& exists|u: Seq<T>| #[trigger]
        is_dual(val, re, im, u, op.inverse(x)->Ok_0) && (op.inverse_adjoint(u) matches Ok(z)
            && forall|i: int|
            0 <= i < op.dim_spec() ==> val((#[trigger] z[i]).magnitude_spec()) <= val(
                z[j].magnitude_spec(),
            ))
}

/// No unit vector promises more than probe `x` gives: the adjoint solve for a
/// dual vector has no entry above the norm that is attained.
pub open spec fn is_summit<T: Scalar, O: ConditionOperator<T>>(
    val: spec_fn(T::Real) -> real,
    re: spec_fn(T) -> real,
    im: spec_fn(T) -> real,
    op: O,
    x: Seq<T>,
) -> bool {
    &&& op.inverse(x) is Ok
    &&& exists|u: Seq<T>| #[trigger]
        is_dual(val, re, im, u, op.inverse(x)->Ok_0) && (op.inverse_adjoint(u) matches Ok(z)
            && forall|i: int|
            0 <= i < op.dim_spec() ==> val((#[trigger] z[i]).magnitude_spec()) <= val(
                vector_norm(op.inverse(x)->Ok_0),
            ))
}

/// Probes that lead from one to the next, each better than the one before.
pub open spec fn climbs<T: Scalar, O: ConditionOperator<T>>(
    val: spec_fn(T::Real) -> real,
    re: spec_fn(T) -> real,
    im: spec_fn(T) -> real,
    op: O,
    xs: Seq<Seq<T>>,
) -> bool {
    &&& xs.len() > 0
    &&& forall|k: int| 0 <= k < xs.len() ==> (#[trigger] xs[k]).len() == op.dim_spec()
    &&& forall|k: int|
        #![trigger xs[k]]
        0 < k < xs.len() ==> exists|j: int|
            xs[k] == unit::<T>(op.dim_spec(), j) && #[trigger] points_to(
                val,
                re,
                im,
                op,
                xs[k - 1],
                j,
            )
}

/// What one step of the iteration knows: the adjoint solve gives back the norm,
/// and a unit vector never gives less than it promises.
proof fn step_facts<T: Scalar, O: ConditionOperator<T>>(
    val: spec_fn(T::Real) -> real,
    re: spec_fn(T) -> real,
    im: spec_fn(T) -> real,
    op: O,
    x: Seq<T>,
    j: int,
)
    requires
        exact_complex(val, re, im),
        adjoint(op),
        x.len() == op.dim_spec(),
        0 <= j < op.dim_spec(),
        op.inverse(x) is Ok,
        op.inverse_adjoint(phases(op.inverse(x)->Ok_0)) is Ok,
    ensures
        ({
            let y = op.inverse(x)->Ok_0;
            let z = op.inverse_adjoint(phases(y))->Ok_0;
            &&& y.len() == op.dim_spec()
            &&& z.len() == op.dim_spec()
            &&& val(real_product(z, x, op.dim_spec())) == val(vector_norm(y))
            &&& op.inverse(unit::<T>(op.dim_spec(), j)) matches Ok(w) ==> val(
                z[j].magnitude_spec(),
            ) <= val(vector_norm(w))
        }),
{
    let n = op.dim_spec();
    let y = op.inverse(x)->Ok_0;
    let u = phases(y);
    let z = op.inverse_adjoint(u)->Ok_0;
    phases_are_dual(val, re, im, y);
    real_product_is_part(val, re, im, z, x, n);
    dual_product_is_norm(val, re, im, u, y, n);
    let e = unit::<T>(n, j);
    if let Ok(w) = op.inverse(e) {
        assert(op.inverse(e)->Ok_0 == w);
        assert(dotc_of(z, e) == dotc_of(u, w));
        unit_product(val, re, im, z, n, j, n);
        product_is_bounded(val, re, im, u, w, n);
        let d = dotc_of(z, e);
        let b = im(z[j]);
        assert((-b) * (-b) == b * b) by (nonlinear_arith);
        roots_agree(val(d.magnitude_spec()), val(z[j].magnitude_spec()));
    }
}

proof fn iteration_climbs<T: Scalar, O: ConditionOperator<T>>(
    val: spec_fn(T::Real) -> real,
    re: spec_fn(T) -> real,
    im: spec_fn(T) -> real,
    op: O,
    xs: Seq<Seq<T>>,
    est: T::Real,
    last: Option<int>,
    iter: int,
) -> (r: Seq<Seq<T>>)
    requires
        exact_complex(val, re, im),
        adjoint(op),
        0 < op.dim_spec(),
        0 <= iter < 5,
        xs.len() == iter + 1,
        xs[0].len() == op.dim_spec(),
        iter > 0 ==> climbs(val, re, im, op, xs.drop_last()),
        iter > 0 ==> op.inverse(xs[iter - 1]) is Ok && est == vector_norm(
            op.inverse(xs[iter - 1])->Ok_0,
        ),
        iter > 0 ==> (last matches Some(j) && xs[iter] == unit::<T>(op.dim_spec(), j)),
        iter > 0 ==> last_points(val, re, im, op, xs[iter - 1], last->0),
        iter == 0 ==> last is None,
        power_iteration(op, xs[iter], est, last, iter) is Ok,
    ensures
        climbs(val, re, im, op, r),
        r[0] == xs[0],
        r.len() <= 5,
        op.inverse(r.last()) is Ok,
        power_iteration(op, xs[iter], est, last, iter)->Ok_0 == vector_norm(
            op.inverse(r.last())->Ok_0,
        ),
        r.len() == 5 || is_summit(val, re, im, op, r.last()),
    decreases 5 - iter,
{
    let n = op.dim_spec();
    let x = xs[iter];
    let y = op.inverse(x)->Ok_0;
    let e = vector_norm(y);
    assert(x.len() == n);
    if iter > 0 {
        // The new probe is better, so the iteration does not stop here.
        let j0 = last->0;
        let x0 = xs[iter - 1];
        let y0 = op.inverse(x0)->Ok_0;
        step_facts(val, re, im, op, x0, j0);
        assert(val(e) > val(est));
        assert(points_to(val, re, im, op, x0, j0)) by {
            phases_are_dual(val, re, im, y0);
        }
    }
    assert(climbs(val, re, im, op, xs)) by {
        assert forall|k: int| 0 <= k < xs.len() implies (#[trigger] xs[k]).len() == n by {
            if k < iter {
                assert(xs.drop_last()[k] == xs[k]);
            }
        }
        assert forall|k: int|
            #![trigger xs[k]]
            0 < k < xs.len() implies exists|j: int|
            xs[k] == unit::<T>(n, j) && #[trigger] points_to(val, re, im, op, xs[k - 1], j) by {
            if k < iter {
                assert(xs.drop_last()[k] == xs[k]);
                assert(xs.drop_last()[k - 1] == xs[k - 1]);
            } else {
                assert(points_to(val, re, im, op, xs[k - 1], last->0));
            }
        }
    }
    let u = phases(y);
    let z = op.inverse_adjoint(u)->Ok_0;
    let (j, m) = peak(z, n);
    step_facts(val, re, im, op, x, 0);
    phases_are_dual(val, re, im, y);
    peak_is_largest(val, re, im, z, n);
    if real_product(z, x, n).ge_spec(m) || last == Some(j) {
        if !real_product(z, x, n).ge_spec(m) {
            // The same unit vector again: its product is the entry it points to.
            step_facts(val, re, im, op, x, j);
        }
        assert(is_summit(val, re, im, op, x));
        assert(xs.last() == x);
        xs
    } else if iter == 4 {
        reveal_with_fuel(power_iteration, 2);
        assert(xs.last() == x);
        xs
    } else {
        let ys = xs.push(unit::<T>(n, j));
        assert(ys.drop_last() =~= xs);
        assert(last_points(val, re, im, op, x, j));
        iteration_climbs(val, re, im, op, ys, e, Some(j), iter + 1)
    }
}

/// The largest entry of the adjoint solve from `x` stands at `j`, and is above
/// the norm.
spec fn last_points<T: Scalar, O: ConditionOperator<T>>(
    val: spec_fn(T::Real) -> real,
    re: spec_fn(T) -> real,
    im: spec_fn(T) -> real,
    op: O,
    x: Seq<T>,
    j: int,
) -> bool {
    &&& 0 <= j < op.dim_spec()
    &&& x.len() == op.dim_spec()
    &&& op.inverse(x) is Ok
    &&& op.inverse_adjoint(phases(op.inverse(x)->Ok_0)) matches Ok(z) && val(
        z[j].magnitude_spec(),
    ) > val(vector_norm(op.inverse(x)->Ok_0)) && forall|i: int|
        0 <= i < op.dim_spec() ==> val((#[trigger] z[i]).magnitude_spec()) <= val(
            z[j].magnitude_spec(),
        )
}

/// Where the power iteration ends up, in exact arithmetic and for an operator
/// whose two solves are adjoint: it starts at the uniform probe and climbs from
/// one unit vector to the next, always to the one that the adjoint solve for a
/// dual vector points to; each is better than the one before; and it stops only
/// where no unit vector promises more, or at the fifth probe. The estimate is at
/// least what the last probe attains.
pub proof fn estimate_climbs_to_a_summit<T: Scalar, O: ConditionOperator<T>>(
    val: spec_fn(T::Real) -> real,
    re: spec_fn(T) -> real,
    im: spec_fn(T) -> real,
    op: O,
) -> (xs: Seq<Seq<T>>)
    requires
        exact_complex(val, re, im),
        adjoint(op),
        0 < op.dim_spec() <= u64::MAX,
        estimate::<T, O>(op) is Ok,
    ensures
        climbs(val, re, im, op, xs),
        xs[0] == uniform::<T>(op.dim_spec()),
        xs.len() <= 5,
        xs.len() == 5 || is_summit(val, re, im, op, xs.last()),
        op.inverse(xs.last()) is Ok,
        val(estimate::<T, O>(op)->Ok_0) >= val(vector_norm(op.inverse(xs.last())->Ok_0)),
{
    let n = op.dim_spec();
    let x = uniform::<T>(n);
    let zero = <T::Real as Real>::zero_spec();
    iteration_climbs(val, re, im, op, seq![x], zero, None::<int>, 0)
}

/// The uniform probe has one-norm one.
pub proof fn probes_have_norm_one<T: Scalar>(
    val: spec_fn(T::Real) -> real,
    re: spec_fn(T) -> real,
    im: spec_fn(T) -> real,
    n: int,
    j: int,
)
    requires
        exact_complex(val, re, im),
        0 < n <= u64::MAX,
        0 <= j < n,
    ensures
        val(vector_norm(uniform::<T>(n))) == 1 as real,
        val(vector_norm(unit::<T>(n, j))) == 1 as real,
{
    shares_add_up(val, re, im, n, n);
    unit_adds_up(val, re, im, n, j, n);
    let q = <T::Real as Real>::one_spec().over_spec(<T::Real as Real>::from_count_spec(n as u64));
    reorders(val(q), n as real, 0 as real);
}

proof fn shares_add_up<T: Scalar>(
    val: spec_fn(T::Real) -> real,
    re: spec_fn(T) -> real,
    im: spec_fn(T) -> real,
    n: int,
    k: int,
)
    requires
        exact_complex(val, re, im),
        0 < n <= u64::MAX,
        0 <= k <= n,
    ensures
        val(magnitude_sum(uniform::<T>(n), k)) == (k as real) * val(
            <T::Real as Real>::one_spec().over_spec(<T::Real as Real>::from_count_spec(n as u64)),
        ),
    decreases k,
{
    let q = <T::Real as Real>::one_spec().over_spec(<T::Real as Real>::from_count_spec(n as u64));
    let t = val(q);
    let c = n as real;
    if k == 0 {
        product_sign(0 as real, t);
    } else {
        shares_add_up(val, re, im, n, k - 1);
        let v = T::from_real_spec(q);
        assert(uniform::<T>(n)[k - 1] == v);
        assert(t * c == 1 as real);
        if t < 0 as real {
            product_sign(-t, c);
            assert((-t) * c == -(t * c)) by (nonlinear_arith);
        }
        product_sign(0 as real, 0 as real);
        roots_agree(val(v.magnitude_spec()), t);
        let d = (k - 1) as real;
        assert((d + 1 as real) * t == d * t + t) by (nonlinear_arith);
        assert(k as real == d + 1 as real);
    }
}

proof fn unit_adds_up<T: Scalar>(
    val: spec_fn(T::Real) -> real,
    re: spec_fn(T) -> real,
    im: spec_fn(T) -> real,
    n: int,
    j: int,
    k: int,
)
    requires
        exact_complex(val, re, im),
        0 <= j < n,
        0 <= k <= n,
    ensures
        val(magnitude_sum(unit::<T>(n, j), k)) == (if j < k {
            1 as real
        } else {
            0 as real
        }),
    decreases k,
{
    if k > 0 {
        unit_adds_up(val, re, im, n, j, k - 1);
        if k - 1 == j {
            assert(unit::<T>(n, j)[k - 1] == T::one_spec());
            product_sign(0 as real, 0 as real);
            assert((1 as real) * (1 as real) == 1 as real);
            roots_agree(val(T::one_spec().magnitude_spec()), 1 as real);
        } else {
            assert(unit::<T>(n, j)[k - 1] == T::zero_spec());
            zero_has_no_magnitude(val, re, im);
        }
    }
}

} // verus!
