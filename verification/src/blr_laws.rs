//! What the compression of a block is good for, in exact arithmetic.

use crate::algebra::{sum, zero_plus};
use crate::blr::{
    compresses, cross_u, cross_v, crosses, crosses_and_residual_add_up, largest, peeled, residual,
    LowRank,
};
use crate::exact::{
    exact_complex, exact_real, multiplies_out, order_scales, product_sign, reorders, roots_agree,
    square_of_product, square_sign, squares_multiply,
};
use crate::flat::{column_bounds, column_start, norm_of, position_joins, position_splits, square_sum};
use crate::krylov::vectors::minus_vector;
use crate::scalar::{Field, Real, Scalar};
use vstd::prelude::*;

verus! {

/// The product of the first `k` columns of `U` and of `V`, column-major.
pub open spec fn outer<T: Scalar>(lr: LowRank<T>, k: int) -> Seq<T> {
    Seq::new(
        (lr.m * lr.n) as nat,
        |p: int|
            sum(
                k as nat,
                |c: int| lr.u_at(p % lr.m as int, c).times_spec(lr.v_at(p / lr.m as int, c)),
            ),
    )
}

/// What the first `k` crosses leave of the block.
pub open spec fn error_after<T: Scalar>(lr: LowRank<T>, b: Seq<T>, k: int) -> Seq<T> {
    minus_vector(b, outer(lr, k))
}

/// The dense form of a compressed block is the product `U V^T`.
pub proof fn dense_is_the_product<T: Field>(lr: LowRank<T>, k: int)
    requires
        0 <= k,
    ensures
        lr.dense(k) == outer(lr, k),
{
    assert forall|p: int| 0 <= p < lr.m * lr.n implies lr.dense(k)[p] == outer(lr, k)[p] by {
        approx_is_sum(lr, p % lr.m as int, p / lr.m as int, k);
    }
    assert(lr.dense(k) =~= outer(lr, k));
}

proof fn approx_is_sum<T: Field>(lr: LowRank<T>, i: int, j: int, k: int)
    requires
        0 <= k,
    ensures
        lr.approx(i, j, k) == sum(k as nat, |c: int| lr.u_at(i, c).times_spec(lr.v_at(j, c))),
    decreases k,
{
    if k > 0 {
        approx_is_sum(lr, i, j, k - 1);
        let f = |c: int| lr.u_at(i, c).times_spec(lr.v_at(j, c));
        let vj = lr.v_at(j, k - 1);
        assert(sum(k as nat, f) == sum((k - 1) as nat, f).plus_spec(f(k - 1)));
        if vj.is_zero_spec() {
            T::zero_test(vj);
            crate::algebra::times_zero(lr.u_at(i, k - 1));
            T::plus_zero(sum((k - 1) as nat, f));
        }
    }
}

/// The error after `k` crosses is the residual that the crosses were taken from.
proof fn error_is_residual<T: Field>(lr: LowRank<T>, b: Seq<T>, k: int)
    requires
        lr.wf(),
        b.len() == lr.m * lr.n,
        0 <= k,
        crosses(lr, b, k),
    ensures
        error_after(lr, b, k) == residual(b, lr.m as int, k),
{
    let r = residual(b, lr.m as int, k);
    residual_len(b, lr.m as int, k);
    dense_is_the_product(lr, k);
    assert forall|x: int| 0 <= x < b.len() implies error_after(lr, b, k)[x] == r[x] by {
        crosses_and_residual_add_up(lr, b, k, x);
        let d = outer(lr, k)[x];
        T::plus_comm(d, r[x]);
        T::minus_plus(b[x], d);
        crate::algebra::cancel(b[x].minus_spec(d), r[x], d);
    }
    assert(error_after(lr, b, k) =~= r);
}

proof fn residual_len<T: Scalar>(b: Seq<T>, m: int, k: int)
    ensures
        residual(b, m, k).len() == b.len(),
    decreases k,
{
    if k > 0 {
        residual_len(b, m, k - 1);
    }
}

proof fn squares_of_zeros<T: Scalar>(
    val: spec_fn(T::Real) -> real,
    re: spec_fn(T) -> real,
    im: spec_fn(T) -> real,
    a: Seq<T>,
    k: int,
)
    requires
        exact_complex(val, re, im),
        0 <= k <= a.len(),
        forall|i: int| 0 <= i < a.len() ==> #[trigger] a[i] == T::zero_spec(),
    ensures
        val(square_sum(a, k)) == 0 as real,
    decreases k,
{
    if k > 0 {
        squares_of_zeros(val, re, im, a, k - 1);
        assert(a[k - 1] == T::zero_spec());
        assert(val(a[k - 1].magnitude_sq_spec()) == 0 as real);
    }
}

/// A vector of zeros has norm zero.
pub proof fn norm_of_zeros<T: Scalar>(
    val: spec_fn(T::Real) -> real,
    re: spec_fn(T) -> real,
    im: spec_fn(T) -> real,
    a: Seq<T>,
)
    requires
        exact_complex(val, re, im),
        forall|i: int| 0 <= i < a.len() ==> #[trigger] a[i] == T::zero_spec(),
    ensures
        val(norm_of(a)) == 0 as real,
{
    squares_of_zeros(val, re, im, a, a.len() as int);
    let s = square_sum(a, a.len() as int);
    let x = val(s.sqrt_spec());
    assert(x * x == 0 as real);
    square_sign(x);
}

/// A block that is compressed with room to spare keeps the tolerance that was
/// asked for: the Frobenius norm of `B - U V^T` is at most `eps` times that of
/// `B`. And no cross is taken that was not needed: with fewer of them, but at
/// least one, the tolerance is missed.
pub proof fn compression_keeps_the_tolerance<T: Field>(
    val: spec_fn(T::Real) -> real,
    re: spec_fn(T) -> real,
    im: spec_fn(T) -> real,
    lr: LowRank<T>,
    b: Seq<T>,
    m: int,
    n: int,
    eps: T::Real,
    max_rank: int,
)
    requires
        exact_complex(val, re, im),
        val(eps) >= 0 as real,
        0 <= max_rank,
        b.len() == m * n,
        compresses(lr, b, m, n, eps, max_rank),
    ensures
        lr.rank < max_rank && lr.rank < m && lr.rank < n ==> val(
            norm_of(minus_vector(b, outer(lr, lr.rank as int))),
        ) <= val(eps) * val(norm_of(b)),
        forall|k: int|
            0 < k < lr.rank ==> val(norm_of(minus_vector(b, #[trigger] outer(lr, k)))) > val(eps)
                * val(norm_of(b)),
{
    let rank = lr.rank as int;
    error_is_residual(lr, b, rank);
    let r = residual(b, m, rank);
    residual_len(b, m, rank);
    if rank < max_rank && rank < m && rank < n {
        if norm_of(b).is_zero_spec() {
            assert(r == b);
            let e = val(eps);
            let z = val(norm_of(b));
            product_sign(e, z);
        } else if largest(r, r.len() as int) < 0 {
            assert forall|x: int| 0 <= x < r.len() implies #[trigger] r[x] == T::zero_spec() by {
                nothing_left(r, r.len() as int, x);
                T::zero_test(r[x]);
            }
            norm_of_zeros(val, re, im, r);
            norm_is_positive(val, re, im, b);
            let e = val(eps);
            let z = val(norm_of(b));
            product_sign(e, z);
        }
    }
    assert forall|k: int| 0 < k < lr.rank implies val(
        norm_of(minus_vector(b, #[trigger] outer(lr, k))),
    ) > val(eps) * val(norm_of(b)) by {
        error_is_residual(lr, b, k);
        assert(error_after(lr, b, k) == residual(b, m, k));
    }
}

proof fn nothing_left<T: Scalar>(r: Seq<T>, q: int, x: int)
    requires
        largest(r, q) < 0,
        0 <= x < q,
    ensures
        !r[x].magnitude_spec().gt_spec(<T::Real as Real>::zero_spec()),
    decreases q,
{
    if x < q - 1 {
        nothing_left(r, q - 1, x);
    }
}

proof fn squares_are_positive<T: Scalar>(
    val: spec_fn(T::Real) -> real,
    re: spec_fn(T) -> real,
    im: spec_fn(T) -> real,
    a: Seq<T>,
    k: int,
)
    requires
        exact_complex(val, re, im),
        0 <= k <= a.len(),
    ensures
        val(square_sum(a, k)) >= 0 as real,
    decreases k,
{
    if k > 0 {
        squares_are_positive(val, re, im, a, k - 1);
        let x = re(a[k - 1]);
        let y = im(a[k - 1]);
        square_sign(x);
        square_sign(y);
        assert(val(a[k - 1].magnitude_sq_spec()) == x * x + y * y);
    }
}

/// No norm is negative, and its square is the sum of the squares.
pub proof fn norm_is_positive<T: Scalar>(
    val: spec_fn(T::Real) -> real,
    re: spec_fn(T) -> real,
    im: spec_fn(T) -> real,
    a: Seq<T>,
)
    requires
        exact_complex(val, re, im),
    ensures
        val(norm_of(a)) >= 0 as real,
        val(norm_of(a)) * val(norm_of(a)) == val(square_sum(a, a.len() as int)),
{
    squares_are_positive(val, re, im, a, a.len() as int);
}

/// The entry that [`largest`] finds is not exceeded by any other.
proof fn largest_is_largest<T: Scalar>(
    val: spec_fn(T::Real) -> real,
    r: Seq<T>,
    q: int,
    x: int,
)
    requires
        exact_real(val),
        0 <= x < q,
        forall|i: int| 0 <= i < q ==> val((#[trigger] r[i]).magnitude_spec()) >= 0 as real,
    ensures
        -1 <= largest(r, q) < q,
        largest(r, q) >= 0 ==> val(r[x].magnitude_spec()) <= val(r[largest(r, q)].magnitude_spec()),
        largest(r, q) >= 0 ==> val(r[largest(r, q)].magnitude_spec()) > 0 as real,
        largest(r, q) < 0 ==> val(r[x].magnitude_spec()) == 0 as real,
    decreases q,
{
    if q == 1 {
        assert(largest(r, 0) == -1);
    } else if x < q - 1 {
        largest_is_largest(val, r, q - 1, x);
    } else {
        largest_is_largest(val, r, q - 1, 0);
    }
    assert(val(r[q - 1].magnitude_spec()) >= 0 as real);
}

/// The remainder vanishes in these rows and columns.
spec fn cleared<T: Scalar>(r: Seq<T>, m: int, n: int, i: int, j: int) -> bool {
    &&& forall|c: int| 0 <= c < n ==> r[#[trigger] column_start(m, c) + i] == T::zero_spec()
    &&& forall|q: int| 0 <= q < m ==> #[trigger] r[column_start(m, j) + q] == T::zero_spec()
}

/// A cross clears the row and the column through its pivot.
proof fn cross_clears<T: Field>(r: Seq<T>, m: int, n: int, p: int)
    requires
        0 <= p < m * n,
        0 <= m,
        r.len() == m * n,
        r[p] != T::zero_spec(),
    ensures
        cleared(peeled(r, m, p), m, n, p % m, p / m),
{
    position_joins(m, n, p);
    let (i, j) = (p % m, p / m);
    let one = T::one_spec();
    T::recip_inverts(r[p]);
    assert forall|c: int| 0 <= c < n implies peeled(r, m, p)[#[trigger] column_start(m, c) + i]
        == T::zero_spec() by {
        let x = column_start(m, c) + i;
        column_bounds(m, c, n);
        position_splits(m, i, c);
        assert(x < r.len());
        let vj = cross_v(r, m, p, c);
        let t = r[x];
        assert(cross_u(r, m, p, i) == r[p]);
        assert(vj == t.times_spec(r[p].recip_spec()));
        if vj.is_zero_spec() {
            T::zero_test(vj);
            T::times_assoc(t, r[p].recip_spec(), r[p]);
            T::times_comm(r[p].recip_spec(), r[p]);
            T::times_one(t);
            crate::algebra::times_zero(r[p]);
        } else {
            T::times_comm(t, r[p].recip_spec());
            T::times_assoc(r[p], r[p].recip_spec(), t);
            T::times_comm(one, t);
            T::times_one(t);
            self_minus(t);
        }
    }
    assert forall|q: int| 0 <= q < m implies #[trigger] peeled(r, m, p)[column_start(m, j) + q]
        == T::zero_spec() by {
        let x = column_start(m, j) + q;
        column_bounds(m, j, n);
        position_splits(m, q, j);
        let vj = cross_v(r, m, p, j);
        let t = r[x];
        assert(cross_u(r, m, p, q) == t);
        assert(vj == r[p].times_spec(r[p].recip_spec()));
        assert(vj == one);
        T::times_one(t);
        if vj.is_zero_spec() {
            T::zero_test(vj);
            crate::algebra::times_zero(t);
        } else {
            self_minus(t);
        }
    }
}

proof fn self_minus<T: Field>(a: T)
    ensures
        a.minus_spec(a) == T::zero_spec(),
{
    T::minus_plus(a, a);
    zero_plus(a);
    crate::algebra::cancel(a.minus_spec(a), T::zero_spec(), a);
}

/// What is clear stays clear.
proof fn cleared_stays<T: Field>(r: Seq<T>, m: int, n: int, p: int, i: int, j: int)
    requires
        0 <= p < m * n,
        0 <= i < m,
        0 <= j < n,
        r.len() == m * n,
        cleared(r, m, n, i, j),
    ensures
        cleared(peeled(r, m, p), m, n, i, j),
{
    position_joins(m, n, p);
    let zero = T::zero_spec();
    self_minus(zero);
    assert forall|c: int| 0 <= c < n implies peeled(r, m, p)[#[trigger] column_start(m, c) + i]
        == zero by {
        let x = column_start(m, c) + i;
        column_bounds(m, c, n);
        position_splits(m, i, c);
        assert(r[column_start(m, c) + i] == zero);
        assert(r[column_start(m, p / m) + i] == zero);
        assert(cross_u(r, m, p, i) == zero);
        crate::algebra::times_zero(cross_v(r, m, p, c));
    }
    assert forall|q: int| 0 <= q < m implies #[trigger] peeled(r, m, p)[column_start(m, j) + q]
        == zero by {
        let x = column_start(m, j) + q;
        column_bounds(m, j, n);
        position_splits(m, q, j);
        assert(r[column_start(m, j) + q] == zero);
        assert(r[column_start(m, j) + p % m] == zero);
        crate::algebra::times_zero(r[p].recip_spec());
        crate::algebra::times_zero(cross_u(r, m, p, q));
        T::zero_test(zero);
    }
}

/// Entry `p` is an entry of largest magnitude, and not zero.
pub open spec fn dominates<T: Scalar>(val: spec_fn(T::Real) -> real, r: Seq<T>, p: int) -> bool {
    &&& 0 <= p < r.len()
    &&& r[p] != T::zero_spec()
    &&& forall|x: int|
        0 <= x < r.len() ==> val((#[trigger] r[x]).magnitude_spec()) <= val(r[p].magnitude_spec())
}

/// The first `k` crosses of a compressed block each go through an entry of
/// largest magnitude of what the crosses before it leave, and from then on
/// `U V^T` agrees with the block on the whole row and the whole column of that
/// entry.
pub proof fn crosses_interpolate<T: Field>(
    val: spec_fn(T::Real) -> real,
    re: spec_fn(T) -> real,
    im: spec_fn(T) -> real,
    lr: LowRank<T>,
    b: Seq<T>,
    m: int,
    n: int,
    eps: T::Real,
    max_rank: int,
    c: int,
    k: int,
) -> (p: int)
    requires
        exact_complex(val, re, im),
        b.len() == m * n,
        compresses(lr, b, m, n, eps, max_rank),
        0 <= c < k <= lr.rank,
    ensures
        dominates(val, minus_vector(b, outer(lr, c)), p),
        forall|j: int|
            0 <= j < n ==> outer(lr, k)[#[trigger] column_start(m, j) + p % m] == b[column_start(
                m,
                j,
            ) + p % m],
        forall|i: int|
            0 <= i < m ==> #[trigger] outer(lr, k)[column_start(m, p / m) + i] == b[column_start(
                m,
                p / m,
            ) + i],
    decreases k,
{
    let r = residual(b, m, c);
    let p = largest(r, r.len() as int);
    residual_len(b, m, c);
    error_is_residual(lr, b, c);
    assert(p >= 0);
    if r.len() > 0 {
        largest_is_largest(val, r, r.len() as int, 0);
    } else {
        assert(largest(r, 0) == -1);
    }
    T::zero_test(r[p]);
    assert forall|x: int| 0 <= x < r.len() implies val((#[trigger] r[x]).magnitude_spec()) <= val(
        r[p].magnitude_spec(),
    ) by {
        largest_is_largest(val, r, r.len() as int, x);
    }
    position_joins(m, n, p);
    clear_from(lr, b, m, n, c, k);
    error_is_residual(lr, b, k);
    let e = residual(b, m, k);
    residual_len(b, m, k);
    assert forall|j: int| 0 <= j < n implies outer(lr, k)[#[trigger] column_start(m, j) + p % m]
        == b[column_start(m, j) + p % m] by {
        column_bounds(m, j, n);
        let x = column_start(m, j) + p % m;
        assert(error_after(lr, b, k)[x] == e[x]);
        no_difference(b[x], outer(lr, k)[x]);
    }
    assert forall|i: int| 0 <= i < m implies #[trigger] outer(lr, k)[column_start(m, p / m) + i]
        == b[column_start(m, p / m) + i] by {
        column_bounds(m, p / m, n);
        let x = column_start(m, p / m) + i;
        assert(error_after(lr, b, k)[x] == e[x]);
        assert(e[column_start(m, p / m) + i] == T::zero_spec());
        no_difference(b[x], outer(lr, k)[x]);
    }
    p
}

proof fn no_difference<T: Field>(a: T, b: T)
    requires
        a.minus_spec(b) == T::zero_spec(),
    ensures
        a == b,
{
    T::minus_plus(a, b);
    zero_plus(b);
}

proof fn clear_from<T: Field>(lr: LowRank<T>, b: Seq<T>, m: int, n: int, c: int, k: int)
    requires
        lr.m == m,
        lr.n == n,
        b.len() == m * n,
        crosses(lr, b, k),
        0 <= c < k,
    ensures
        ({
            let r = residual(b, m, c);
            let p = largest(r, r.len() as int);
            0 <= p < m * n && cleared(residual(b, m, k), m, n, p % m, p / m)
        }),
    decreases k,
{
    let r = residual(b, m, c);
    let p = largest(r, r.len() as int);
    residual_len(b, m, c);
    assert(p >= 0);
    pivot_range(r, r.len() as int);
    position_joins(m, n, p);
    if k == c + 1 {
        T::zero_test(r[p]);
        cross_clears(r, m, n, p);
    } else {
        clear_from(lr, b, m, n, c, k - 1);
        let q = residual(b, m, k - 1);
        residual_len(b, m, k - 1);
        let p2 = largest(q, q.len() as int);
        assert(p2 >= 0);
        pivot_range(q, q.len() as int);
        cleared_stays(q, m, n, p2, p % m, p / m);
    }
}

proof fn pivot_range<T: Scalar>(r: Seq<T>, q: int)
    requires
        0 <= q,
    ensures
        -1 <= largest(r, q) < q,
        largest(r, q) >= 0 ==> r[largest(r, q)].magnitude_spec().gt_spec(
            <T::Real as Real>::zero_spec(),
        ),
    decreases q,
{
    if q > 0 {
        pivot_range(r, q - 1);
        if largest(r, q) == q - 1 && largest(r, q - 1) >= 0 {
            <T::Real as Real>::gt_transitive(
                r[q - 1].magnitude_spec(),
                r[largest(r, q - 1)].magnitude_spec(),
                <T::Real as Real>::zero_spec(),
            );
        }
    }
}

/// The magnitude of a product is the product of the magnitudes.
pub proof fn magnitude_of_product<T: Scalar>(
    val: spec_fn(T::Real) -> real,
    re: spec_fn(T) -> real,
    im: spec_fn(T) -> real,
    a: T,
    b: T,
)
    requires
        exact_complex(val, re, im),
    ensures
        val(a.times_spec(b).magnitude_spec()) == val(a.magnitude_spec()) * val(b.magnitude_spec()),
        val(a.times_spec(b).magnitude_sq_spec()) == val(a.magnitude_sq_spec()) * val(
            b.magnitude_sq_spec(),
        ),
{
    let (p, q, u, v) = (re(a), im(a), re(b), im(b));
    let x = val(a.magnitude_spec());
    let y = val(b.magnitude_spec());
    let z = val(a.times_spec(b).magnitude_spec());
    squares_multiply(p, q, u, v);
    assert(z * z == (x * x) * (y * y));
    square_of_product(x, y);
    product_sign(x, y);
    roots_agree(z, x * y);
}

/// Every entry times `s`.
pub open spec fn times_all<T: Scalar>(s: T, b: Seq<T>) -> Seq<T> {
    Seq::new(b.len(), |i: int| s.times_spec(b[i]))
}

proof fn squares_scale<T: Scalar>(
    val: spec_fn(T::Real) -> real,
    re: spec_fn(T) -> real,
    im: spec_fn(T) -> real,
    s: T,
    b: Seq<T>,
    k: int,
)
    requires
        exact_complex(val, re, im),
        0 <= k <= b.len(),
    ensures
        val(square_sum(times_all(s, b), k)) == val(s.magnitude_sq_spec()) * val(square_sum(b, k)),
    decreases k,
{
    let c = val(s.magnitude_sq_spec());
    if k > 0 {
        squares_scale(val, re, im, s, b, k - 1);
        magnitude_of_product(val, re, im, s, b[k - 1]);
        let x = val(square_sum(b, k - 1));
        let y = val(b[k - 1].magnitude_sq_spec());
        multiplies_out(c, x, y);
    } else {
        product_sign(c, 0 as real);
    }
}

/// The norm of a multiple is the multiple of the norm.
pub proof fn norm_scales<T: Scalar>(
    val: spec_fn(T::Real) -> real,
    re: spec_fn(T) -> real,
    im: spec_fn(T) -> real,
    s: T,
    b: Seq<T>,
)
    requires
        exact_complex(val, re, im),
    ensures
        val(norm_of(times_all(s, b))) == val(s.magnitude_spec()) * val(norm_of(b)),
{
    let sb = times_all(s, b);
    squares_scale(val, re, im, s, b, b.len() as int);
    norm_is_positive(val, re, im, b);
    norm_is_positive(val, re, im, sb);
    let x = val(s.magnitude_spec());
    let y = val(norm_of(b));
    let z = val(norm_of(sb));
    assert(val(s.magnitude_sq_spec()) == x * x);
    square_of_product(x, y);
    product_sign(x, y);
    roots_agree(z, x * y);
}

proof fn largest_scales<T: Field>(
    val: spec_fn(T::Real) -> real,
    re: spec_fn(T) -> real,
    im: spec_fn(T) -> real,
    s: T,
    r: Seq<T>,
    q: int,
)
    requires
        exact_complex(val, re, im),
        s != T::zero_spec(),
        0 <= q <= r.len(),
    ensures
        largest(times_all(s, r), q) == largest(r, q),
        -1 <= largest(r, q) < q,
    decreases q,
{
    if q > 0 {
        largest_scales(val, re, im, s, r, q - 1);
        let best = largest(r, q - 1);
        T::zero_test(s);
        let c = val(s.magnitude_spec());
        assert(c > 0 as real);
        magnitude_of_product(val, re, im, s, r[q - 1]);
        let x = val(r[q - 1].magnitude_spec());
        let y = if best < 0 {
            0 as real
        } else {
            val(r[best].magnitude_spec())
        };
        if best >= 0 {
            magnitude_of_product(val, re, im, s, r[best]);
        }
        product_sign(c, 0 as real);
        order_scales(c, x, y);
    }
}

/// The cross of a multiple is the multiple of the cross.
proof fn peeling_scales<T: Field>(s: T, r: Seq<T>, m: int, n: int, p: int)
    requires
        s != T::zero_spec(),
        0 <= p < m * n,
        r.len() == m * n,
        0 <= m,
        r[p] != T::zero_spec(),
    ensures
        peeled(times_all(s, r), m, p) == times_all(s, peeled(r, m, p)),
        forall|i: int|
            0 <= i < m ==> #[trigger] cross_u(times_all(s, r), m, p, i) == s.times_spec(
                cross_u(r, m, p, i),
            ),
        forall|j: int| 0 <= j < n ==> #[trigger] cross_v(times_all(s, r), m, p, j) == cross_v(r, m, p, j),
{
    let sr = times_all(s, r);
    position_joins(m, n, p);
    column_bounds(m, p / m, n);
    assert forall|i: int| 0 <= i < m implies #[trigger] cross_u(sr, m, p, i) == s.times_spec(
        cross_u(r, m, p, i),
    ) by {}
    assert forall|j: int| 0 <= j < n implies #[trigger] cross_v(sr, m, p, j) == cross_v(r, m, p, j) by {
        column_bounds(m, j, n);
        let x = r[column_start(m, j) + p % m];
        ratio_scales(s, x, r[p]);
    }
    assert forall|x: int| 0 <= x < r.len() implies #[trigger] peeled(sr, m, p)[x] == times_all(
        s,
        peeled(r, m, p),
    )[x] by {
        position_joins(m, n, x);
        let vj = cross_v(r, m, p, x / m);
        assert(cross_v(sr, m, p, x / m) == vj);
        if !vj.is_zero_spec() {
            let u = cross_u(r, m, p, x % m);
            assert(cross_u(sr, m, p, x % m) == s.times_spec(u));
            T::times_assoc(s, u, vj);
            minus_scales(s, r[x], u.times_spec(vj));
        }
    }
    assert(peeled(sr, m, p) =~= times_all(s, peeled(r, m, p)));
}

/// `s a - s b` is `s (a - b)`.
proof fn minus_scales<T: Field>(s: T, a: T, b: T)
    ensures
        s.times_spec(a).minus_spec(s.times_spec(b)) == s.times_spec(a.minus_spec(b)),
{
    let d = a.minus_spec(b);
    T::minus_plus(a, b);
    T::distributes(s, d, b);
    T::minus_plus(s.times_spec(a), s.times_spec(b));
    crate::algebra::cancel(
        s.times_spec(a).minus_spec(s.times_spec(b)),
        s.times_spec(d),
        s.times_spec(b),
    );
}

/// `(s x) / (s y)` is `x / y`.
proof fn ratio_scales<T: Field>(s: T, x: T, y: T)
    requires
        s != T::zero_spec(),
        y != T::zero_spec(),
    ensures
        s.times_spec(x).times_spec(s.times_spec(y).recip_spec()) == x.times_spec(y.recip_spec()),
{
    let sy = s.times_spec(y);
    let one = T::one_spec();
    if sy == T::zero_spec() {
        // `y` would vanish with it.
        T::recip_inverts(s);
        T::times_comm(s, y);
        T::times_assoc(y, s, s.recip_spec());
        T::times_one(y);
        crate::algebra::times_zero(s.recip_spec());
        assert(false);
    }
    T::recip_inverts(sy);
    T::recip_inverts(y);
    let u = sy.recip_spec();
    let w = y.recip_spec();
    // s u == w, since s y u == 1.
    T::times_comm(s, y);
    T::times_assoc(y, s, u);
    let su = s.times_spec(u);
    assert(y.times_spec(su) == one);
    T::times_assoc(w, y, su);
    T::times_comm(w, y);
    T::times_comm(one, su);
    T::times_one(su);
    T::times_one(w);
    assert(su == w);
    T::times_comm(s, x);
    T::times_assoc(x, s, u);
}

proof fn residual_scales<T: Field>(
    val: spec_fn(T::Real) -> real,
    re: spec_fn(T) -> real,
    im: spec_fn(T) -> real,
    s: T,
    b: Seq<T>,
    m: int,
    n: int,
    k: int,
)
    requires
        exact_complex(val, re, im),
        s != T::zero_spec(),
        b.len() == m * n,
        0 <= m,
        0 <= k,
        forall|c: int|
            #![trigger residual(b, m, c)]
            0 <= c < k ==> largest(residual(b, m, c), b.len() as int) >= 0,
    ensures
        residual(times_all(s, b), m, k) == times_all(s, residual(b, m, k)),
        residual(b, m, k).len() == b.len(),
    decreases k,
{
    residual_len(b, m, k);
    if k > 0 {
        residual_scales(val, re, im, s, b, m, n, k - 1);
        let r = residual(b, m, k - 1);
        largest_scales(val, re, im, s, r, r.len() as int);
        pivot_range(r, r.len() as int);
        let p = largest(r, r.len() as int);
        T::zero_test(r[p]);
        peeling_scales(s, r, m, n, p);
    }
}

/// How far a block is compressed does not depend on its units: a multiple of a
/// block gets the same rank, and its compressed form is that multiple of the
/// compressed form of the block.
pub proof fn compression_ignores_scale<T: Field>(
    val: spec_fn(T::Real) -> real,
    re: spec_fn(T) -> real,
    im: spec_fn(T) -> real,
    s: T,
    b: Seq<T>,
    m: int,
    n: int,
    eps: T::Real,
    max_rank: int,
    one: LowRank<T>,
    other: LowRank<T>,
)
    requires
        exact_complex(val, re, im),
        s != T::zero_spec(),
        b.len() == m * n,
        0 <= max_rank,
        compresses(one, b, m, n, eps, max_rank),
        compresses(other, times_all(s, b), m, n, eps, max_rank),
    ensures
        other.rank == one.rank,
        forall|i: int, c: int|
            #![trigger other.u_at(i, c)]
            0 <= i < m && 0 <= c < one.rank ==> other.u_at(i, c) == s.times_spec(one.u_at(i, c)),
        forall|j: int, c: int|
            #![trigger other.v_at(j, c)]
            0 <= j < n && 0 <= c < one.rank ==> other.v_at(j, c) == one.v_at(j, c),
{
    let sb = times_all(s, b);
    let (r1, r2) = (one.rank as int, other.rank as int);
    let low = if r1 < r2 {
        r1
    } else {
        r2
    };
    norm_scales(val, re, im, s, b);
    T::zero_test(s);
    let c0 = val(s.magnitude_spec());
    let nb = val(norm_of(b));
    order_scales(c0, nb, nb);
    assert forall|c: int|
        #![trigger residual(b, m, c)]
        0 <= c < low implies largest(residual(b, m, c), b.len() as int) >= 0 by {
        residual_len(b, m, c);
    }
    assert forall|k: int| 0 <= k <= low implies #[trigger] residual(sb, m, k) == times_all(
        s,
        residual(b, m, k),
    ) && residual(b, m, k).len() == b.len() by {
        residual_scales(val, re, im, s, b, m, n, k);
    }
    // Both stop at the same cross.
    let r = residual(b, m, low);
    assert(residual(sb, m, low) == times_all(s, r));
    largest_scales(val, re, im, s, r, r.len() as int);
    norm_scales(val, re, im, s, r);
    let e = val(eps);
    let nr = val(norm_of(r));
    reorders(e, c0, nb);
    reorders(c0, e, nb);
    order_scales(c0, e * nb, nr);
    if r1 < r2 {
        residual_len(sb, m, r1);
        assert(largest(residual(sb, m, r1), sb.len() as int) >= 0);
    } else if r2 < r1 {
        residual_len(b, m, r2);
        assert(largest(residual(b, m, r2), b.len() as int) >= 0);
    }
    assert forall|i: int, c: int|
        #![trigger other.u_at(i, c)]
        0 <= i < m && 0 <= c < one.rank implies other.u_at(i, c) == s.times_spec(
        one.u_at(i, c),
    ) by {
        crosses_scale(val, re, im, s, b, m, n, one, other, c);
    }
    assert forall|j: int, c: int|
        #![trigger other.v_at(j, c)]
        0 <= j < n && 0 <= c < one.rank implies other.v_at(j, c) == one.v_at(j, c) by {
        crosses_scale(val, re, im, s, b, m, n, one, other, c);
    }
}

proof fn crosses_scale<T: Field>(
    val: spec_fn(T::Real) -> real,
    re: spec_fn(T) -> real,
    im: spec_fn(T) -> real,
    s: T,
    b: Seq<T>,
    m: int,
    n: int,
    one: LowRank<T>,
    other: LowRank<T>,
    c: int,
)
    requires
        exact_complex(val, re, im),
        s != T::zero_spec(),
        b.len() == m * n,
        one.m == m,
        one.n == n,
        other.m == m,
        other.n == n,
        one.rank == other.rank,
        0 <= c < one.rank,
        crosses(one, b, one.rank as int),
        crosses(other, times_all(s, b), one.rank as int),
    ensures
        forall|i: int| 0 <= i < m ==> #[trigger] other.u_at(i, c) == s.times_spec(one.u_at(i, c)),
        forall|j: int| 0 <= j < n ==> #[trigger] other.v_at(j, c) == one.v_at(j, c),
{
    let sb = times_all(s, b);
    assert forall|d: int|
        #![trigger residual(b, m, d)]
        0 <= d < c implies largest(residual(b, m, d), b.len() as int) >= 0 by {
        residual_len(b, m, d);
    }
    residual_scales(val, re, im, s, b, m, n, c);
    let r = residual(b, m, c);
    assert(residual(sb, m, c) == times_all(s, r));
    largest_scales(val, re, im, s, r, r.len() as int);
    let p = largest(r, r.len() as int);
    assert(p >= 0);
    pivot_range(r, r.len() as int);
    T::zero_test(r[p]);
    peeling_scales(s, r, m, n, p);
    assert forall|i: int| 0 <= i < m implies #[trigger] other.u_at(i, c) == s.times_spec(
        one.u_at(i, c),
    ) by {
        assert(one.u_at(i, c) == cross_u(r, m, p, i));
        assert(other.u_at(i, c) == cross_u(times_all(s, r), m, p, i));
    }
    assert forall|j: int| 0 <= j < n implies #[trigger] other.v_at(j, c) == one.v_at(j, c) by {
        assert(one.v_at(j, c) == cross_v(r, m, p, j));
        assert(other.v_at(j, c) == cross_v(times_all(s, r), m, p, j));
    }
}

} // verus!
