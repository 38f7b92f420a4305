//! The Hermitian product in exact arithmetic: conjugation, orthonormal vectors,
//! and rotations that keep lengths.

use crate::algebra::{cancel, neg_plus, plus_shuffle, times_zero, zero_plus};
use crate::blr_laws::norm_is_positive;
use crate::exact::{
    exact_complex, faithful, product_sign, reorders, square_sign,
};
use crate::flat::{norm_of, square_sum};
use crate::independence::neg_moves;
use crate::krylov::conjugacy::{dotu_comm, dotu_plus};
use crate::krylov::sweep::rotation;
use crate::krylov::vectors::{dotc_between, dotc_of, dotu_of, dotu_upto, plus_multiple, scaled};
use crate::matrix_ops::zeros;
use crate::scalar::{neg, Field, Real, Scalar};
use vstd::prelude::*;

verus! {

/// Conjugation respects sums and products and undoes itself.
pub open spec fn conjugation<T: Scalar>() -> bool {
    &&& T::zero_spec().conj_spec() == T::zero_spec()
    &&& T::one_spec().conj_spec() == T::one_spec()
    &&& forall|a: T, b: T|
        (#[trigger] a.plus_spec(b)).conj_spec() == a.conj_spec().plus_spec(b.conj_spec())
    &&& forall|a: T, b: T|
        (#[trigger] a.times_spec(b)).conj_spec() == a.conj_spec().times_spec(b.conj_spec())
    &&& forall|a: T| (#[trigger] a.conj_spec()).conj_spec() == a
}

/// So does it for complex numbers.
pub proof fn complex_conjugation<T: Scalar>(
    val: spec_fn(T::Real) -> real,
    re: spec_fn(T) -> real,
    im: spec_fn(T) -> real,
)
    requires
        exact_complex(val, re, im),
        faithful(re, im),
    ensures
        conjugation::<T>(),
{
    assert forall|a: T, b: T|
        (#[trigger] a.plus_spec(b)).conj_spec() == a.conj_spec().plus_spec(b.conj_spec()) by {
        let (x, y) = (a.plus_spec(b).conj_spec(), a.conj_spec().plus_spec(b.conj_spec()));
        assert(re(x) == re(y) && im(x) == im(y));
    }
    assert forall|a: T, b: T|
        (#[trigger] a.times_spec(b)).conj_spec() == a.conj_spec().times_spec(b.conj_spec()) by {
        let (x, y) = (a.times_spec(b).conj_spec(), a.conj_spec().times_spec(b.conj_spec()));
        let (p, q, u, v) = (re(a), im(a), re(b), im(b));
        assert(p * u - (-q) * (-v) == p * u - q * v) by (nonlinear_arith);
        assert(p * (-v) + (-q) * u == -(p * v + q * u)) by (nonlinear_arith);
        assert(re(x) == re(y) && im(x) == im(y));
    }
    assert forall|a: T| (#[trigger] a.conj_spec()).conj_spec() == a by {
        let x = a.conj_spec().conj_spec();
        assert(re(x) == re(a) && im(x) == im(a));
    }
    assert(T::zero_spec().conj_spec() == T::zero_spec()) by {
        let x = T::zero_spec().conj_spec();
        assert(re(x) == re(T::zero_spec()) && im(x) == im(T::zero_spec()));
    }
    assert(T::one_spec().conj_spec() == T::one_spec()) by {
        let x = T::one_spec().conj_spec();
        assert(re(x) == re(T::one_spec()) && im(x) == im(T::one_spec()));
    }
}

/// The conjugate of a negative is the negative of the conjugate.
pub proof fn conj_neg<T: Field>(a: T)
    requires
        conjugation::<T>(),
    ensures
        neg(a).conj_spec() == neg(a.conj_spec()),
{
    neg_plus(a);
    neg_plus(a.conj_spec());
    cancel(neg(a).conj_spec(), neg(a.conj_spec()), a.conj_spec());
}

/// The conjugates of a vector.
pub open spec fn conj_all<T: Scalar>(x: Seq<T>) -> Seq<T> {
    Seq::new(x.len(), |i: int| x[i].conj_spec())
}

proof fn dotc_is_dotu_upto<T: Field>(x: Seq<T>, y: Seq<T>, k: int)
    requires
        0 <= k <= x.len(),
    ensures
        dotc_between(x, y, 0, k) == dotu_upto(y, conj_all(x), k),
    decreases k,
{
    if k > 0 {
        dotc_is_dotu_upto(x, y, k - 1);
        T::times_comm(y[k - 1], x[k - 1].conj_spec());
    }
}

/// The Hermitian product is the bilinear one with a conjugated factor.
pub proof fn dotc_is_dotu<T: Field>(x: Seq<T>, y: Seq<T>)
    requires
        x.len() == y.len(),
    ensures
        dotc_of(x, y) == dotu_of(y, conj_all(x)),
        dotc_of(x, y) == dotu_of(conj_all(x), y),
{
    dotc_is_dotu_upto(x, y, x.len() as int);
    dotu_comm(y, conj_all(x));
}

proof fn dotc_turns_upto<T: Field>(x: Seq<T>, y: Seq<T>, k: int)
    requires
        conjugation::<T>(),
    ensures
        dotc_between(y, x, 0, k) == dotc_between(x, y, 0, k).conj_spec(),
    decreases k,
{
    if k > 0 {
        dotc_turns_upto(x, y, k - 1);
        let (a, b) = (x[k - 1], y[k - 1]);
        T::times_comm(b.conj_spec(), a);
        assert(a.conj_spec().conj_spec() == a);
    }
}

/// The product of `y` and `x` is the conjugate of that of `x` and `y`.
pub proof fn dotc_turns<T: Field>(x: Seq<T>, y: Seq<T>)
    requires
        conjugation::<T>(),
        x.len() == y.len(),
    ensures
        dotc_of(y, x) == dotc_of(x, y).conj_spec(),
        dotc_of(x, y) == T::zero_spec() ==> dotc_of(y, x) == T::zero_spec(),
{
    dotc_turns_upto(x, y, x.len() as int);
}

proof fn dotu_of_zeros_upto<T: Field>(n: int, y: Seq<T>, k: int)
    requires
        0 <= k <= n,
    ensures
        dotu_upto(zeros(n), y, k) == T::zero_spec(),
    decreases k,
{
    if k > 0 {
        dotu_of_zeros_upto(n, y, k - 1);
        times_zero(y[k - 1]);
        T::plus_zero(T::zero_spec());
    }
}

/// Zeros have no product with anything.
pub proof fn dotu_of_zeros<T: Field>(n: int, y: Seq<T>)
    requires
        0 <= n,
    ensures
        dotu_of(zeros(n), y) == T::zero_spec(),
{
    dotu_of_zeros_upto(n, y, n);
}

/// `a p + b v`.
pub open spec fn mixed<T: Scalar>(a: T, p: Seq<T>, b: T, v: Seq<T>) -> Seq<T> {
    plus_multiple(plus_multiple(zeros(p.len() as int), a, p), b, v)
}

/// What a mixture is, entry by entry, in a product, and conjugated.
pub proof fn mixture<T: Field>(a: T, p: Seq<T>, b: T, v: Seq<T>)
    requires
        conjugation::<T>(),
        p.len() == v.len(),
    ensures
        mixed(a, p, b, v).len() == p.len(),
        forall|r: int|
            0 <= r < p.len() ==> #[trigger] mixed(a, p, b, v)[r] == a.times_spec(p[r]).plus_spec(
                b.times_spec(v[r]),
            ),
        forall|y: Seq<T>|
            y.len() == p.len() ==> #[trigger] dotu_of(mixed(a, p, b, v), y) == a.times_spec(
                dotu_of(p, y),
            ).plus_spec(b.times_spec(dotu_of(v, y))),
        conj_all(mixed(a, p, b, v)) == mixed(
            a.conj_spec(),
            conj_all(p),
            b.conj_spec(),
            conj_all(v),
        ),
{
    let n = p.len() as int;
    let z = zeros::<T>(n);
    let first = plus_multiple(z, a, p);
    assert forall|r: int| 0 <= r < p.len() implies #[trigger] mixed(a, p, b, v)[r] == a.times_spec(
        p[r],
    ).plus_spec(b.times_spec(v[r])) by {
        zero_plus(a.times_spec(p[r]));
    }
    assert forall|y: Seq<T>| y.len() == p.len() implies #[trigger] dotu_of(mixed(a, p, b, v), y)
        == a.times_spec(dotu_of(p, y)).plus_spec(b.times_spec(dotu_of(v, y))) by {
        dotu_plus(first, b, v, y);
        dotu_plus(z, a, p, y);
        dotu_of_zeros_upto(n, y, n);
        zero_plus(a.times_spec(dotu_of(p, y)));
    }
    let m = mixed(a.conj_spec(), conj_all(p), b.conj_spec(), conj_all(v));
    assert forall|r: int| 0 <= r < n implies conj_all(mixed(a, p, b, v))[r] == m[r] by {
        zero_plus(a.times_spec(p[r]));
        zero_plus(a.conj_spec().times_spec(p[r].conj_spec()));
    }
    assert(conj_all(mixed(a, p, b, v)) =~= m);
}

proof fn norm_is_product_upto<T: Scalar>(
    val: spec_fn(T::Real) -> real,
    re: spec_fn(T) -> real,
    im: spec_fn(T) -> real,
    x: Seq<T>,
    k: int,
)
    requires
        exact_complex(val, re, im),
        0 <= k <= x.len(),
    ensures
        re(dotc_between(x, x, 0, k)) == val(square_sum(x, k)),
        im(dotc_between(x, x, 0, k)) == 0 as real,
    decreases k,
{
    if k > 0 {
        norm_is_product_upto(val, re, im, x, k - 1);
        let t = x[k - 1];
        let (p, q) = (re(t), im(t));
        assert(p * p - (-q) * q == p * p + q * q) by (nonlinear_arith);
        assert(p * q + (-q) * p == 0 as real) by (nonlinear_arith);
        let s = t.conj_spec().times_spec(t);
        assert(re(s) == p * p + q * q && im(s) == 0 as real);
    }
}

/// The product of a vector with itself is the square of its norm.
pub proof fn norm_is_product<T: Scalar>(
    val: spec_fn(T::Real) -> real,
    re: spec_fn(T) -> real,
    im: spec_fn(T) -> real,
    x: Seq<T>,
)
    requires
        exact_complex(val, re, im),
    ensures
        re(dotc_of(x, x)) == val(norm_of(x)) * val(norm_of(x)),
        im(dotc_of(x, x)) == 0 as real,
        val(norm_of(x)) >= 0 as real,
{
    norm_is_product_upto(val, re, im, x, x.len() as int);
    norm_is_positive(val, re, im, x);
}

/// A vector over its norm has length one, and is the vector again when it is
/// multiplied with the norm.
pub proof fn normalized<T: Field>(
    val: spec_fn(T::Real) -> real,
    re: spec_fn(T) -> real,
    im: spec_fn(T) -> real,
    u: Seq<T>,
)
    requires
        exact_complex(val, re, im),
        faithful(re, im),
        val(norm_of(u)) > 0 as real,
    ensures
        ({
            let a = T::from_real_spec(<T::Real as Real>::one_spec().over_spec(norm_of(u)));
            let v = scaled(u, a);
            &&& dotc_of(v, v) == T::one_spec()
            &&& forall|r: int|
                0 <= r < u.len() ==> #[trigger] u[r] == T::from_real_spec(norm_of(u)).times_spec(
                    v[r],
                )
            &&& forall|d: Seq<T>|
                d.len() == u.len() && dotc_of(d, u) == T::zero_spec() ==> #[trigger] dotc_of(d, v)
                    == T::zero_spec()
        }),
{
    complex_conjugation(val, re, im);
    let h = norm_of(u);
    let inv = <T::Real as Real>::one_spec().over_spec(h);
    let a = T::from_real_spec(inv);
    let big = T::from_real_spec(h);
    let v = scaled(u, a);
    let zero = T::zero_spec();
    assert(val(inv) * val(h) == 1 as real);
    assert(big.times_spec(a) == T::one_spec()) by {
        reorders(val(h), val(inv), 1 as real);
        product_sign(val(h), val(inv));
        product_sign(val(inv), val(h));
        let x = big.times_spec(a);
        assert(re(x) == re(T::one_spec()) && im(x) == im(T::one_spec()));
    }
    assert forall|r: int| 0 <= r < u.len() implies #[trigger] u[r] == big.times_spec(v[r]) by {
        T::times_comm(u[r], a);
        T::times_assoc(big, a, u[r]);
        T::times_comm(T::one_spec(), u[r]);
        T::times_one(u[r]);
    }
    let z = zeros::<T>(u.len() as int);
    mixture(a, u, zero, u);
    assert(v =~= mixed(a, u, zero, u)) by {
        assert forall|r: int| 0 <= r < u.len() implies v[r] == mixed(a, u, zero, u)[r] by {
            T::times_comm(u[r], a);
            times_zero(u[r]);
            T::plus_zero(a.times_spec(u[r]));
        }
    }
    assert forall|d: Seq<T>| d.len() == u.len() implies #[trigger] dotc_of(d, v) == a.times_spec(
        dotc_of(d, u),
    ) by {
        dotc_is_dotu(d, v);
        dotc_is_dotu(d, u);
        times_zero(dotu_of(u, conj_all(d)));
        T::plus_zero(a.times_spec(dotc_of(d, u)));
    }
    assert forall|d: Seq<T>| d.len() == u.len() && dotc_of(d, u) == zero implies #[trigger] dotc_of(
        d,
        v,
    ) == zero by {
        times_zero(a);
    }
    // v.v = a (v.u) = a conj(u.v) = a conj(a (u.u))
    let uu = dotc_of(u, u);
    norm_is_product(val, re, im, u);
    dotc_turns(u, v);
    let vv = dotc_of(v, v);
    assert(dotc_of(v, u) == a.times_spec(uu).conj_spec());
    assert(vv == a.times_spec(a.times_spec(uu).conj_spec()));
    let (i, n) = (val(inv), val(h));
    product_sign(0 as real, n * n);
    product_sign(i, i);
    assert(re(a.times_spec(uu)) == i * (n * n)) by {
        product_sign(0 as real, 0 as real);
    }
    assert(im(a.times_spec(uu)) == 0 as real);
    let w = a.times_spec(uu).conj_spec();
    assert(re(w) == i * (n * n) && im(w) == 0 as real);
    assert(re(vv) == i * (i * (n * n)) && im(vv) == 0 as real) by {
        product_sign(0 as real, i * (n * n));
        product_sign(0 as real, 0 as real);
    }
    assert(i * (i * (n * n)) == (i * n) * (i * n)) by (nonlinear_arith);
    assert((i * n) * (i * n) == 1 as real);
    assert(re(vv) == re(T::one_spec()) && im(vv) == im(T::one_spec()));
}

/// A rotation keeps lengths, and what it leaves of a pair is not zero unless the
/// pair is.
pub proof fn rotation_is_unitary<T: Field>(
    val: spec_fn(T::Real) -> real,
    re: spec_fn(T) -> real,
    im: spec_fn(T) -> real,
    f: T,
    g: T,
)
    requires
        exact_complex(val, re, im),
        faithful(re, im),
    ensures
        ({
            let (c, t) = rotation(f, g);
            let top = c.conj_spec().times_spec(f).plus_spec(t.conj_spec().times_spec(g));
            &&& c.times_spec(c.conj_spec()).plus_spec(t.times_spec(t.conj_spec())) == T::one_spec()
            &&& g != T::zero_spec() ==> top != T::zero_spec()
            &&& g == T::zero_spec() ==> t == T::zero_spec() && top == f
        }),
{
    complex_conjugation(val, re, im);
    let (c, t) = rotation(f, g);
    let (one, zero) = (T::one_spec(), T::zero_spec());
    let top = c.conj_spec().times_spec(f).plus_spec(t.conj_spec().times_spec(g));
    T::zero_test(f);
    T::zero_test(g);
    times_zero(one);
    times_zero(zero);
    T::times_one(one);
    T::plus_zero(one);
    zero_plus(one);
    if g == zero {
        T::times_comm(one, f);
        T::times_one(f);
        T::plus_zero(f);
    } else if f == zero {
        T::times_comm(one, g);
        T::times_one(g);
        zero_plus(g);
    } else {
        let sum = f.magnitude_sq_spec().plus_spec(g.magnitude_sq_spec());
        let r = sum.sqrt_spec();
        let inv = <T::Real as Real>::one_spec().over_spec(r);
        let a = T::from_real_spec(inv);
        let ff = f.times_spec(f.conj_spec());
        let gg = g.times_spec(g.conj_spec());
        let (p, q, u, v) = (re(f), im(f), re(g), im(g));
        square_sign(p);
        square_sign(q);
        square_sign(u);
        square_sign(v);
        let total = val(sum);
        assert(total == p * p + q * q + (u * u + v * v));
        assert(total > 0 as real);
        assert(val(r) * val(r) == total);
        let (i, n) = (val(inv), val(r));
        product_sign(n, 0 as real);
        assert(n != 0 as real);
        assert(i * n == 1 as real);
        assert(p * p - q * (-q) == p * p + q * q) by (nonlinear_arith);
        assert(p * (-q) + q * p == 0 as real) by (nonlinear_arith);
        assert(u * u - v * (-v) == u * u + v * v) by (nonlinear_arith);
        assert(u * (-v) + v * u == 0 as real) by (nonlinear_arith);
        assert(re(ff) == p * p + q * q && im(ff) == 0 as real);
        assert(re(gg) == u * u + v * v && im(gg) == 0 as real);
        let both = ff.plus_spec(gg);
        assert(re(both) == total && im(both) == 0 as real);
        assert(a.conj_spec() == a) by {
            assert(re(a.conj_spec()) == re(a) && im(a.conj_spec()) == im(a));
        }
        // c conj(c) = (f a)(conj(f) a) = (a a) (f conj(f))
        let aa = a.times_spec(a);
        pairs_swap(f, a, f.conj_spec(), a);
        pairs_swap(g, a, g.conj_spec(), a);
        T::times_comm(ff, aa);
        T::times_comm(gg, aa);
        T::distributes(aa, ff, gg);
        let whole = aa.times_spec(both);
        assert(c.times_spec(c.conj_spec()).plus_spec(t.times_spec(t.conj_spec())) == whole);
        product_sign(0 as real, 0 as real);
        product_sign(i, 0 as real);
        product_sign(0 as real, i);
        assert(re(aa) == i * i && im(aa) == 0 as real);
        product_sign(0 as real, total);
        product_sign(i * i, 0 as real);
        assert(re(whole) == (i * i) * total && im(whole) == 0 as real);
        assert((i * i) * (n * n) == (i * n) * (i * n)) by (nonlinear_arith);
        assert((i * n) * (i * n) == 1 as real);
        assert(re(whole) == re(one) && im(whole) == im(one));
        // top = (conj(f) a) f + (conj(g) a) g = a (f conj(f) + g conj(g))
        T::times_comm(f.conj_spec().times_spec(a), f);
        T::times_assoc(f, f.conj_spec(), a);
        T::times_comm(g.conj_spec().times_spec(a), g);
        T::times_assoc(g, g.conj_spec(), a);
        T::times_comm(ff, a);
        T::times_comm(gg, a);
        T::distributes(a, ff, gg);
        assert(top == a.times_spec(both));
        if top == zero {
            assert(re(a.times_spec(both)) == i * total - 0 as real * 0 as real);
            assert(i * total == 0 as real);
            reorders(i, n, n);
            reorders(i, total, 1 as real);
            product_sign(i, n);
            assert(i * (n * n) == (i * n) * n) by (nonlinear_arith);
            assert(n == 0 as real);
        }
    }
}

/// `(a b)(c d)` is `(a c)(b d)`.
pub proof fn pairs_swap<T: Field>(a: T, b: T, c: T, d: T)
    ensures
        a.times_spec(b).times_spec(c.times_spec(d)) == a.times_spec(c).times_spec(b.times_spec(d)),
{
    T::times_assoc(a, b, c.times_spec(d));
    T::times_assoc(b, c, d);
    T::times_comm(b, c);
    T::times_assoc(c, b, d);
    T::times_assoc(a, c, b.times_spec(d));
}

/// `(a + b)(x + y)` multiplied out.
proof fn product_of_sums<T: Field>(a: T, b: T, x: T, y: T)
    ensures
        a.plus_spec(b).times_spec(x.plus_spec(y)) == a.times_spec(x).plus_spec(
            a.times_spec(y),
        ).plus_spec(b.times_spec(x).plus_spec(b.times_spec(y))),
{
    let s = x.plus_spec(y);
    T::times_comm(a.plus_spec(b), s);
    T::distributes(s, a, b);
    T::times_comm(s, a);
    T::times_comm(s, b);
    T::distributes(a, x, y);
    T::distributes(b, x, y);
}

/// Two factors that are negative.
pub proof fn negs_cancel<T: Field>(a: T, b: T)
    ensures
        neg(a).times_spec(neg(b)) == a.times_spec(b),
        a.times_spec(neg(b)) == neg(a.times_spec(b)),
{
    neg_moves(b, a);
    T::times_comm(neg(b), a);
    T::times_comm(b, a);
    neg_moves(a, neg(b));
    let x = a.times_spec(b);
    neg_plus(x);
    neg_plus(neg(x));
    T::plus_comm(x, neg(x));
    cancel(neg(neg(x)), x, neg(x));
}

/// A pair of coordinates turned along with its pair of vectors stands for the
/// same vector.
pub proof fn turning_keeps<T: Field>(c: T, cb: T, t: T, tb: T, f: T, g: T, p: T, v: T)
    requires
        c.times_spec(cb).plus_spec(t.times_spec(tb)) == T::one_spec(),
    ensures
        f.times_spec(p).plus_spec(g.times_spec(v)) == cb.times_spec(f).plus_spec(
            tb.times_spec(g),
        ).times_spec(c.times_spec(p).plus_spec(t.times_spec(v))).plus_spec(
            neg(t).times_spec(f).plus_spec(c.times_spec(g)).times_spec(
                neg(tb).times_spec(p).plus_spec(cb.times_spec(v)),
            ),
        ),
{
    let (a, b) = (cb.times_spec(f), tb.times_spec(g));
    let (x, y) = (c.times_spec(p), t.times_spec(v));
    let (d, e) = (neg(t).times_spec(f), c.times_spec(g));
    let (u, w) = (neg(tb).times_spec(p), cb.times_spec(v));
    let (fp, fv, gp, gv) = (f.times_spec(p), f.times_spec(v), g.times_spec(p), g.times_spec(v));
    product_of_sums(a, b, x, y);
    product_of_sums(d, e, u, w);
    let one = T::one_spec();
    let zero = T::zero_spec();
    let (ccb, ttb) = (c.times_spec(cb), t.times_spec(tb));
    // a x + d u = (c cb + t tb) f p
    assert(a.times_spec(x).plus_spec(d.times_spec(u)) == fp) by {
        pairs_swap(cb, f, c, p);
        T::times_comm(cb, c);
        pairs_swap(neg(t), f, neg(tb), p);
        negs_cancel(t, tb);
        weights_add(ccb, ttb, fp);
    }
    // b y + e w = (t tb + c cb) g v
    assert(b.times_spec(y).plus_spec(e.times_spec(w)) == gv) by {
        pairs_swap(tb, g, t, v);
        T::times_comm(tb, t);
        pairs_swap(c, g, cb, v);
        T::plus_comm(ccb, ttb);
        weights_add(ttb, ccb, gv);
    }
    // a y + d w = 0
    assert(a.times_spec(y).plus_spec(d.times_spec(w)) == zero) by {
        pairs_swap(cb, f, t, v);
        T::times_comm(cb, t);
        pairs_swap(neg(t), f, cb, v);
        neg_moves(t, cb);
        neg_moves(t.times_spec(cb), fv);
        neg_plus(t.times_spec(cb).times_spec(fv));
    }
    // b x + e u = 0
    assert(b.times_spec(x).plus_spec(e.times_spec(u)) == zero) by {
        pairs_swap(tb, g, c, p);
        T::times_comm(tb, c);
        pairs_swap(c, g, neg(tb), p);
        negs_cancel(c, tb);
        neg_moves(c.times_spec(tb), gp);
        neg_plus(c.times_spec(tb).times_spec(gp));
    }
    let (ax, ay, bx, by) = (a.times_spec(x), a.times_spec(y), b.times_spec(x), b.times_spec(y));
    let (du, dw, eu, ew) = (d.times_spec(u), d.times_spec(w), e.times_spec(u), e.times_spec(w));
    plus_shuffle(ax.plus_spec(ay), bx.plus_spec(by), du.plus_spec(dw), eu.plus_spec(ew));
    plus_shuffle(ax, ay, du, dw);
    plus_shuffle(bx, by, eu, ew);
    T::plus_zero(fp);
    zero_plus(gv);
}

proof fn weights_add<T: Field>(a: T, b: T, x: T)
    requires
        a.plus_spec(b) == T::one_spec(),
    ensures
        a.times_spec(x).plus_spec(b.times_spec(x)) == x,
{
    T::distributes(x, a, b);
    T::times_comm(x, a);
    T::times_comm(x, b);
    T::times_one(x);
}

/// The vector that a rotation leaves over has length one if the pair had, and is
/// orthogonal to whatever the pair is.
pub proof fn left_over<T: Field>(c: T, t: T, p: Seq<T>, v: Seq<T>)
    requires
        conjugation::<T>(),
        c.times_spec(c.conj_spec()).plus_spec(t.times_spec(t.conj_spec())) == T::one_spec(),
        p.len() == v.len(),
    ensures
        ({
            let w = mixed(neg(t.conj_spec()), p, c.conj_spec(), v);
            &&& w.len() == p.len()
            &&& dotc_of(p, p) == T::one_spec() && dotc_of(v, v) == T::one_spec() && dotc_of(p, v)
                == T::zero_spec() ==> dotc_of(w, w) == T::one_spec()
            &&& forall|d: Seq<T>|
                d.len() == p.len() && dotc_of(p, d) == T::zero_spec() && dotc_of(v, d)
                    == T::zero_spec() ==> #[trigger] dotc_of(w, d) == T::zero_spec()
        }),
{
    let (one, zero) = (T::one_spec(), T::zero_spec());
    let (cb, tb) = (c.conj_spec(), t.conj_spec());
    let w = mixed(neg(tb), p, cb, v);
    mixture(neg(tb), p, cb, v);
    conj_neg(tb);
    let (cp, cv, cw) = (conj_all(p), conj_all(v), conj_all(w));
    assert(cw == mixed(neg(t), cp, c, cv));
    mixture(neg(t), cp, c, cv);
    times_zero(neg(t));
    times_zero(c);
    T::plus_zero(zero);
    assert forall|d: Seq<T>|
        d.len() == p.len() && dotc_of(p, d) == zero && dotc_of(v, d)
            == zero implies #[trigger] dotc_of(w, d) == zero by {
        dotc_is_dotu(w, d);
        dotc_is_dotu(p, d);
        dotc_is_dotu(v, d);
    }
    if dotc_of(p, p) == one && dotc_of(v, v) == one && dotc_of(p, v) == zero {
        dotc_turns(p, v);
        dotc_is_dotu(w, w);
        dotc_is_dotu(p, p);
        dotc_is_dotu(v, v);
        dotc_is_dotu(p, v);
        dotc_is_dotu(v, p);
        dotu_comm(p, cw);
        dotu_comm(v, cw);
        T::times_one(neg(t));
        T::times_one(c);
        T::plus_zero(neg(t));
        zero_plus(c);
        assert(dotu_of(p, cw) == neg(t));
        assert(dotu_of(v, cw) == c);
        negs_cancel(tb, t);
        T::times_comm(tb, t);
        T::times_comm(cb, c);
        T::plus_comm(t.times_spec(tb), c.times_spec(cb));
    }
}

} // verus!
