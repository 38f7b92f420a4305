//! What the parts of a sweep do in exact arithmetic: Gram-Schmidt splits a vector
//! into a combination of the basis and a rest orthogonal to it, and back
//! substitution solves the triangular system.

use crate::algebra::{
    cancel, plus_shuffle, sum, sum_exchange, sum_ext, sum_scale, sum_tail, times_zero, zero_plus,
};
use crate::blr_laws::norm_is_positive;
use crate::exact::{
    exact_complex, exact_real, multiplies_out, product_sign, reorders, square_of_product,
};
use crate::flat::norm_of;
use crate::independence::partners_are_few;
use crate::krylov::hermitian::{conj_all, dotc_is_dotu};
use crate::krylov::conjugacy::{dotu_minus, dotu_plus};
use crate::krylov::sweep::{
    back_from, back_row, cgs_orthogonal, collapsed, combined, diagonal_max, mgs, mgs_orthogonal,
    projections, reorth_eta, rotated, sound_dim, sound_from, summed, without,
};
use crate::krylov::vectors::{
    chunked_of, chunked_upto, dotc_between, dotc_of, dotu_of, minus_multiple, plus_multiple,
    plus_scaled, ORTHO_CHUNK,
};
use crate::matrix_ops::zeros;
use crate::scalar::{Field, Real, Scalar};
use vstd::prelude::*;

verus! {

/// Entry `r` of `t_0 q_0 + ... + t_(k-1) q_(k-1)`.
pub open spec fn combo<T: Scalar>(q: Seq<Seq<T>>, t: Seq<T>, k: int, r: int) -> T
    decreases k,
{
    if k <= 0 {
        T::zero_spec()
    } else {
        combo(q, t, k - 1, r).plus_spec(t[k - 1].times_spec(q[k - 1][r]))
    }
}

/// Only the first `k` vectors and coefficients count.
pub proof fn combo_ext<T: Scalar>(
    q: Seq<Seq<T>>,
    p: Seq<Seq<T>>,
    t: Seq<T>,
    u: Seq<T>,
    k: int,
    r: int,
)
    requires
        forall|i: int| 0 <= i < k ==> #[trigger] q[i] == p[i],
        forall|i: int| 0 <= i < k ==> #[trigger] t[i] == u[i],
    ensures
        combo(q, t, k, r) == combo(p, u, k, r),
    decreases k,
{
    if k > 0 {
        combo_ext(q, p, t, u, k - 1, r);
        assert(q[k - 1] == p[k - 1] && t[k - 1] == u[k - 1]);
    }
}

proof fn combo_is_sum<T: Scalar>(q: Seq<Seq<T>>, t: Seq<T>, k: int, r: int)
    requires
        0 <= k,
    ensures
        combo(q, t, k, r) == sum(k as nat, |i: int| t[i].times_spec(q[i][r])),
    decreases k,
{
    if k > 0 {
        combo_is_sum(q, t, k - 1, r);
        let f = |i: int| t[i].times_spec(q[i][r]);
        assert(sum(k as nat, f) == sum((k - 1) as nat, f).plus_spec(f(k - 1)));
    }
}

/// The coefficients of two combinations add up.
pub proof fn combo_adds<T: Field>(q: Seq<Seq<T>>, t: Seq<T>, u: Seq<T>, k: int, r: int)
    requires
        0 <= k <= t.len(),
        t.len() == u.len(),
    ensures
        combo(q, summed(t, u), k, r) == combo(q, t, k, r).plus_spec(combo(q, u, k, r)),
    decreases k,
{
    if k == 0 {
        T::plus_zero(T::zero_spec());
    } else {
        combo_adds(q, t, u, k - 1, r);
        let (a, b, x) = (t[k - 1], u[k - 1], q[k - 1][r]);
        T::times_comm(a.plus_spec(b), x);
        T::distributes(x, a, b);
        T::times_comm(x, a);
        T::times_comm(x, b);
        plus_shuffle(
            combo(q, t, k - 1, r),
            combo(q, u, k - 1, r),
            a.times_spec(x),
            b.times_spec(x),
        );
    }
}

/// The vectors are orthonormal and of length `n`.
pub open spec fn orthonormal<T: Scalar>(vs: Seq<Seq<T>>, n: int) -> bool {
    &&& forall|i: int| 0 <= i < vs.len() ==> (#[trigger] vs[i]).len() == n
    &&& forall|i: int| 0 <= i < vs.len() ==> dotc_of(#[trigger] vs[i], vs[i]) == T::one_spec()
    &&& forall|i: int, j: int|
        0 <= i < vs.len() && 0 <= j < vs.len() && i != j ==> dotc_of(
            #[trigger] vs[i],
            #[trigger] vs[j],
        ) == T::zero_spec()
}

/// `w` is split into a combination of the vectors with the coefficients `hs` and
/// the rest `u`.
pub open spec fn splits<T: Scalar>(vs: Seq<Seq<T>>, hs: Seq<T>, u: Seq<T>, w: Seq<T>) -> bool {
    &&& hs.len() == vs.len()
    &&& u.len() == w.len()
    &&& forall|r: int|
        0 <= r < w.len() ==> #[trigger] w[r] == combo(vs, hs, vs.len() as int, r).plus_spec(u[r])
}

/// `u` has no product with any of the vectors.
pub open spec fn orthogonal_to<T: Scalar>(vs: Seq<Seq<T>>, u: Seq<T>) -> bool {
    forall|i: int| 0 <= i < vs.len() ==> dotc_of(#[trigger] vs[i], u) == T::zero_spec()
}

/// A product with a vector from which a multiple was taken.
proof fn product_without<T: Field>(d: Seq<T>, u: Seq<T>, h: T, v: Seq<T>)
    requires
        d.len() == u.len(),
        v.len() == u.len(),
    ensures
        dotc_of(d, v) == T::zero_spec() ==> dotc_of(d, minus_multiple(u, h, v)) == dotc_of(d, u),
        dotc_of(d, v) == T::one_spec() && h == dotc_of(d, u) ==> dotc_of(
            d,
            minus_multiple(u, h, v),
        ) == T::zero_spec(),
{
    dotu_minus(u, h, v, conj_all(d));
    dotc_is_dotu(d, u);
    dotc_is_dotu(d, v);
    dotc_is_dotu(d, minus_multiple(u, h, v));
    T::times_one(h);
}

/// `u = h v + (u - h v)`.
proof fn taken_off<T: Field>(c: T, u: T, h: T, v: T)
    ensures
        c.plus_spec(u) == c.plus_spec(h.times_spec(v)).plus_spec(u.minus_spec(h.times_spec(v))),
{
    let x = h.times_spec(v);
    let rest = u.minus_spec(x);
    T::minus_plus(u, x);
    T::plus_comm(rest, x);
    T::plus_assoc(c, x, rest);
}

proof fn mgs_splits_upto<T: Field>(vs: Seq<Seq<T>>, w: Seq<T>, k: int)
    requires
        orthonormal(vs, w.len() as int),
        0 <= k <= vs.len(),
    ensures
        mgs(vs, w, k).0.len() == w.len(),
        mgs(vs, w, k).1.len() == k,
        forall|r: int|
            0 <= r < w.len() ==> #[trigger] w[r] == combo(vs, mgs(vs, w, k).1, k, r).plus_spec(
                mgs(vs, w, k).0[r],
            ),
        forall|i: int|
            0 <= i < k ==> dotc_of(#[trigger] vs[i], mgs(vs, w, k).0) == T::zero_spec(),
    decreases k,
{
    let (u, hs) = mgs(vs, w, k);
    if k == 0 {
        assert forall|r: int| 0 <= r < w.len() implies #[trigger] w[r] == combo(
            vs,
            hs,
            k,
            r,
        ).plus_spec(u[r]) by {
            zero_plus(w[r]);
        }
    } else {
        mgs_splits_upto(vs, w, k - 1);
        let (u0, hs0) = mgs(vs, w, k - 1);
        let v = vs[k - 1];
        let h = dotc_of(v, u0);
        assert(v.len() == w.len());
        assert forall|r: int| 0 <= r < w.len() implies #[trigger] w[r] == combo(
            vs,
            hs,
            k,
            r,
        ).plus_spec(u[r]) by {
            combo_ext(vs, vs, hs, hs0, k - 1, r);
            taken_off(combo(vs, hs0, k - 1, r), u0[r], h, v[r]);
        }
        assert forall|i: int| 0 <= i < k implies dotc_of(#[trigger] vs[i], u)
            == T::zero_spec() by {
            product_without(vs[i], u0, h, v);
        }
    }
}

/// One pass of modified Gram-Schmidt splits off the projections on an orthonormal
/// basis.
proof fn mgs_splits<T: Field>(vs: Seq<Seq<T>>, w: Seq<T>)
    requires
        orthonormal(vs, w.len() as int),
    ensures
        ({
            let (u, hs) = mgs(vs, w, vs.len() as int);
            splits(vs, hs, u, w) && orthogonal_to(vs, u)
        }),
{
    mgs_splits_upto(vs, w, vs.len() as int);
}

/// Two splits one after the other.
proof fn splits_add<T: Field>(
    vs: Seq<Seq<T>>,
    w: Seq<T>,
    hs: Seq<T>,
    u: Seq<T>,
    hs2: Seq<T>,
    u2: Seq<T>,
)
    requires
        splits(vs, hs, u, w),
        splits(vs, hs2, u2, u),
    ensures
        splits(vs, summed(hs, hs2), u2, w),
{
    let k = vs.len() as int;
    assert forall|r: int| 0 <= r < w.len() implies #[trigger] w[r] == combo(
        vs,
        summed(hs, hs2),
        k,
        r,
    ).plus_spec(u2[r]) by {
        combo_adds(vs, hs, hs2, k, r);
        T::plus_assoc(combo(vs, hs, k, r), combo(vs, hs2, k, r), u2[r]);
        assert(u[r] == combo(vs, hs2, k, r).plus_spec(u2[r]));
    }
}

/// Modified Gram-Schmidt, repeated or not, splits a vector into a combination of
/// an orthonormal basis and a rest that is orthogonal to it.
pub proof fn gram_schmidt_splits<T: Field>(vs: Seq<Seq<T>>, w: Seq<T>)
    requires
        orthonormal(vs, w.len() as int),
    ensures
        ({
            let (hs, u) = mgs_orthogonal(vs, w);
            splits(vs, hs, u, w) && orthogonal_to(vs, u)
        }),
{
    let k = vs.len() as int;
    let (u, hs) = mgs(vs, w, k);
    let (u2, hs2) = mgs(vs, u, k);
    mgs_splits(vs, w);
    mgs_splits(vs, u);
    splits_add(vs, w, hs, u, hs2, u2);
}

proof fn products_join<T: Field>(x: Seq<T>, y: Seq<T>, lo: int, hi: int)
    requires
        0 <= lo <= hi,
    ensures
        dotc_between(x, y, 0, lo).plus_spec(dotc_between(x, y, lo, hi)) == dotc_between(
            x,
            y,
            0,
            hi,
        ),
    decreases hi - lo,
{
    if lo == hi {
        T::plus_zero(dotc_between(x, y, 0, lo));
    } else {
        products_join(x, y, lo, hi - 1);
        T::plus_assoc(
            dotc_between(x, y, 0, lo),
            dotc_between(x, y, lo, hi - 1),
            x[hi - 1].conj_spec().times_spec(y[hi - 1]),
        );
    }
}

proof fn chunks_join<T: Field>(x: Seq<T>, y: Seq<T>, k: int)
    requires
        0 <= k,
        0 < k ==> (k - 1) * ORTHO_CHUNK <= x.len(),
    ensures
        chunked_upto(x, y, k) == dotc_between(
            x,
            y,
            0,
            if k * ORTHO_CHUNK <= x.len() {
                k * ORTHO_CHUNK
            } else {
                x.len() as int
            },
        ),
    decreases k,
{
    if k > 0 {
        chunks_join(x, y, k - 1);
        let lo = (k - 1) * ORTHO_CHUNK;
        let hi = if k * ORTHO_CHUNK <= x.len() {
            k * ORTHO_CHUNK
        } else {
            x.len() as int
        };
        products_join(x, y, lo, hi);
    }
}

/// In exact arithmetic the product in chunks is the product.
pub proof fn chunks_make_the_product<T: Field>(x: Seq<T>, y: Seq<T>)
    ensures
        chunked_of(x, y) == dotc_of(x, y),
{
    let k = (x.len() + ORTHO_CHUNK - 1) / ORTHO_CHUNK as int;
    assert(k * ORTHO_CHUNK >= x.len() && (k > 0 ==> (k - 1) * ORTHO_CHUNK <= x.len()) && k >= 0);
    chunks_join(x, y, k);
}

proof fn without_splits_upto<T: Field>(
    vs: Seq<Seq<T>>,
    w: Seq<T>,
    hs: Seq<T>,
    k: int,
)
    requires
        orthonormal(vs, w.len() as int),
        hs.len() == vs.len(),
        forall|i: int| 0 <= i < vs.len() ==> #[trigger] hs[i] == dotc_of(vs[i], w),
        0 <= k <= vs.len(),
    ensures
        without(vs, w, hs, k).len() == w.len(),
        forall|r: int|
            0 <= r < w.len() ==> #[trigger] w[r] == combo(vs, hs, k, r).plus_spec(
                without(vs, w, hs, k)[r],
            ),
        forall|i: int|
            0 <= i < vs.len() ==> dotc_of(#[trigger] vs[i], without(vs, w, hs, k)) == (if i < k {
                T::zero_spec()
            } else {
                hs[i]
            }),
    decreases k,
{
    let u = without(vs, w, hs, k);
    if k == 0 {
        assert forall|r: int| 0 <= r < w.len() implies #[trigger] w[r] == combo(
            vs,
            hs,
            k,
            r,
        ).plus_spec(u[r]) by {
            zero_plus(w[r]);
        }
        assert forall|i: int| 0 <= i < vs.len() implies dotc_of(#[trigger] vs[i], u) == hs[i] by {}
    } else {
        without_splits_upto(vs, w, hs, k - 1);
        let u0 = without(vs, w, hs, k - 1);
        let v = vs[k - 1];
        let h = hs[k - 1];
        T::zero_test(h);
        assert(v.len() == w.len());
        assert(dotc_of(v, u0) == h);
        assert forall|r: int| 0 <= r < w.len() implies #[trigger] w[r] == combo(
            vs,
            hs,
            k,
            r,
        ).plus_spec(u[r]) by {
            if h.is_zero_spec() {
                times_zero(v[r]);
                T::plus_zero(combo(vs, hs, k - 1, r));
            } else {
                taken_off(combo(vs, hs, k - 1, r), u0[r], h, v[r]);
            }
        }
        assert forall|i: int| 0 <= i < vs.len() implies dotc_of(#[trigger] vs[i], u) == (if i < k {
            T::zero_spec()
        } else {
            hs[i]
        }) by {
            if !h.is_zero_spec() {
                product_without(vs[i], u0, h, v);
            }
        }
    }
}

/// One pass of classical Gram-Schmidt does as one of modified Gram-Schmidt does.
proof fn without_splits<T: Field>(vs: Seq<Seq<T>>, w: Seq<T>)
    requires
        orthonormal(vs, w.len() as int),
    ensures
        ({
            let hs = projections(vs, w);
            let u = without(vs, w, hs, vs.len() as int);
            splits(vs, hs, u, w) && orthogonal_to(vs, u)
        }),
{
    let hs = projections(vs, w);
    assert forall|i: int| 0 <= i < vs.len() implies #[trigger] hs[i] == dotc_of(vs[i], w) by {
        chunks_make_the_product(vs[i], w);
    }
    without_splits_upto(vs, w, hs, vs.len() as int);
}

/// So does classical Gram-Schmidt, repeated or not.
pub proof fn classical_gram_schmidt_splits<T: Field>(vs: Seq<Seq<T>>, w: Seq<T>)
    requires
        orthonormal(vs, w.len() as int),
    ensures
        ({
            let (hs, u) = cgs_orthogonal(vs, w);
            splits(vs, hs, u, w) && orthogonal_to(vs, u)
        }),
{
    let k = vs.len() as int;
    let hs = projections(vs, w);
    let u = without(vs, w, hs, k);
    let hs2 = projections(vs, u);
    let u2 = without(vs, u, hs2, k);
    without_splits(vs, w);
    without_splits(vs, u);
    splits_add(vs, w, hs, u, hs2, u2);
}

/// The entries from `i + 1` on are left alone by the rotations before `i`.
pub proof fn rotated_tail<T: Scalar>(col: Seq<T>, cs: Seq<T>, sn: Seq<T>, k: int)
    requires
        0 <= k < col.len(),
    ensures
        rotated(col, cs, sn, k).len() == col.len(),
        forall|i: int|
            k < i < col.len() ==> #[trigger] rotated(col, cs, sn, k)[i] == col[i],
    decreases k,
{
    if k > 0 {
        rotated_tail(col, cs, sn, k - 1);
    }
}

/// Later rotations and later entries do not matter.
pub proof fn rotated_ext<T: Scalar>(
    col: Seq<T>,
    cs: Seq<T>,
    sn: Seq<T>,
    ds: Seq<T>,
    tn: Seq<T>,
    k: int,
)
    requires
        0 <= k,
        forall|i: int| 0 <= i < k ==> #[trigger] cs[i] == ds[i],
        forall|i: int| 0 <= i < k ==> #[trigger] sn[i] == tn[i],
    ensures
        rotated(col, cs, sn, k) == rotated(col, ds, tn, k),
    decreases k,
{
    if k > 0 {
        rotated_ext(col, cs, sn, ds, tn, k - 1);
        assert(cs[k - 1] == ds[k - 1] && sn[k - 1] == tn[k - 1]);
    }
}

/// The columns of a triangular matrix have no zero on the diagonal.
pub open spec fn regular<T: Scalar>(h: Seq<Seq<T>>, d: int) -> bool {
    &&& forall|j: int| 0 <= j < d ==> (#[trigger] h[j]).len() == j + 1
    &&& forall|j: int| 0 <= j < d ==> (#[trigger] h[j])[j] != T::zero_spec()
}

/// Entry `i` of the product of the columns with `y`.
pub open spec fn row_product<T: Scalar>(h: Seq<Seq<T>>, y: Seq<T>, i: int, d: int) -> T
    decreases d - i,
{
    if d <= i {
        T::zero_spec()
    } else {
        row_product(h, y, i, d - 1).plus_spec(h[d - 1][i].times_spec(y[d - 1]))
    }
}

proof fn back_row_ext<T: Scalar>(
    h: Seq<Seq<T>>,
    g: Seq<T>,
    i: int,
    y: Seq<T>,
    z: Seq<T>,
    k: int,
)
    requires
        forall|l: int| i < l < k ==> #[trigger] y[l] == z[l],
    ensures
        back_row(h, g, i, y, k) == back_row(h, g, i, z, k),
    decreases k - i,
{
    if k > i + 1 {
        back_row_ext(h, g, i, y, z, k - 1);
        assert(y[k - 1] == z[k - 1]);
    }
}

proof fn back_from_solves<T: Field>(h: Seq<Seq<T>>, g: Seq<T>, d: int, m: int)
    requires
        regular(h, d),
        0 <= m <= d,
    ensures
        back_from(h, g, d, m).len() == d,
        forall|i: int|
            m <= i < d ==> h[i][i].times_spec(#[trigger] back_from(h, g, d, m)[i]) == back_row(
                h,
                g,
                i,
                back_from(h, g, d, m),
                d,
            ),
    decreases d - m,
{
    if m < d {
        back_from_solves(h, g, d, m + 1);
        let z = back_from(h, g, d, m + 1);
        let y = back_from(h, g, d, m);
        assert forall|i: int| m <= i < d implies h[i][i].times_spec(#[trigger] y[i]) == back_row(
            h,
            g,
            i,
            y,
            d,
        ) by {
            back_row_ext(h, g, i, y, z, d);
            if i == m {
                let b = back_row(h, g, i, z, d);
                let a = h[i][i];
                T::recip_inverts(a);
                T::times_comm(b, a.recip_spec());
                T::times_assoc(a, a.recip_spec(), b);
                T::times_comm(T::one_spec(), b);
                T::times_one(b);
            } else {
                assert(y[i] == z[i]);
            }
        }
    }
}

proof fn rows_balance<T: Field>(h: Seq<Seq<T>>, g: Seq<T>, i: int, y: Seq<T>, k: int)
    requires
        0 <= i < k,
    ensures
        row_product(h, y, i, k).plus_spec(back_row(h, g, i, y, k)) == g[i].plus_spec(
            h[i][i].times_spec(y[i]),
        ),
    decreases k - i,
{
    if k == i + 1 {
        assert(row_product(h, y, i, i) == T::zero_spec());
        zero_plus(h[i][i].times_spec(y[i]));
        T::plus_comm(g[i], h[i][i].times_spec(y[i]));
    } else {
        rows_balance(h, g, i, y, k - 1);
        let x = h[k - 1][i].times_spec(y[k - 1]);
        let (p, b) = (row_product(h, y, i, k - 1), back_row(h, g, i, y, k - 1));
        // (p + x) + (b - x) == p + b
        T::minus_plus(b, x);
        T::plus_comm(b.minus_spec(x), x);
        T::plus_assoc(p, x, b.minus_spec(x));
    }
}

/// Back substitution solves a triangular system without a zero on the diagonal.
pub proof fn back_substitution_solves<T: Field>(h: Seq<Seq<T>>, g: Seq<T>, d: int)
    requires
        regular(h, d),
        0 <= d,
    ensures
        back_from(h, g, d, 0).len() == d,
        forall|i: int|
            0 <= i < d ==> #[trigger] row_product(h, back_from(h, g, d, 0), i, d) == g[i],
{
    let y = back_from(h, g, d, 0);
    back_from_solves(h, g, d, 0);
    assert forall|i: int| 0 <= i < d implies #[trigger] row_product(h, y, i, d) == g[i] by {
        rows_balance(h, g, i, y, d);
        assert(h[i][i].times_spec(y[i]) == back_row(h, g, i, y, d));
        cancel(row_product(h, y, i, d), g[i], back_row(h, g, i, y, d));
    }
}

proof fn row_product_is_sum<T: Field>(h: Seq<Seq<T>>, y: Seq<T>, i: int, d: int, k: int)
    requires
        0 <= i,
        0 <= k <= d,
    ensures
        row_product(h, y, i, k) == sum(
            k as nat,
            |j: int| if i <= j { h[j][i].times_spec(y[j]) } else { T::zero_spec() },
        ),
    decreases k,
{
    let f = |j: int| if i <= j { h[j][i].times_spec(y[j]) } else { T::zero_spec() };
    if k > 0 {
        row_product_is_sum(h, y, i, d, k - 1);
        assert(sum(k as nat, f) == sum((k - 1) as nat, f).plus_spec(f(k - 1)));
        if k <= i {
            T::plus_zero(T::zero_spec());
            assert(row_product(h, y, i, k - 1) == T::zero_spec());
        }
    }
}

/// Vectors that are triangular combinations of `q`, combined with coefficients
/// that solve the triangular system, give the right-hand side as a combination of
/// `q`.
pub proof fn triangular_combination<T: Field>(
    az: Seq<Seq<T>>,
    q: Seq<Seq<T>>,
    h: Seq<Seq<T>>,
    y: Seq<T>,
    g: Seq<T>,
    d: int,
    r: int,
)
    requires
        0 <= d,
        forall|j: int| 0 <= j < d ==> (#[trigger] az[j])[r] == combo(q, h[j], j + 1, r),
        forall|i: int| 0 <= i < d ==> #[trigger] row_product(h, y, i, d) == g[i],
    ensures
        combo(az, y, d, r) == combo(q, g, d, r),
{
    let zero = T::zero_spec();
    let n = d as nat;
    let f = |j: int, i: int|
        if i <= j {
            y[j].times_spec(h[j][i].times_spec(q[i][r]))
        } else {
            zero
        };
    let rows = |j: int| y[j].times_spec(az[j][r]);
    let cols = |i: int| g[i].times_spec(q[i][r]);
    assert forall|j: int| 0 <= j < n implies #[trigger] rows(j) == sum(n, |i: int| f(j, i)) by {
        let fj = |i: int| f(j, i);
        let e = |i: int| h[j][i].times_spec(q[i][r]);
        assert(az[j][r] == combo(q, h[j], j + 1, r));
        combo_is_sum(q, h[j], j + 1, r);
        sum_ext((j + 1) as nat, e, |i: int| h[j][i].times_spec(q[i][r]));
        sum_scale((j + 1) as nat, y[j], e, fj);
        sum_tail(n, (j + 1) as nat, fj);
    }
    assert forall|i: int| 0 <= i < n implies #[trigger] cols(i) == sum(n, |j: int| f(j, i)) by {
        let fi = |j: int| f(j, i);
        let e = |j: int| if i <= j { h[j][i].times_spec(y[j]) } else { zero };
        let x = q[i][r];
        assert forall|j: int| 0 <= j < n implies #[trigger] fi(j) == x.times_spec(e(j)) by {
            if i <= j {
                let (a, b) = (h[j][i], y[j]);
                T::times_comm(b, a.times_spec(x));
                T::times_assoc(a, x, b);
                T::times_comm(x, b);
                T::times_assoc(a, b, x);
                T::times_comm(a.times_spec(b), x);
            } else {
                times_zero(x);
            }
        }
        sum_scale(n, x, e, fi);
        row_product_is_sum(h, y, i, d, d);
        sum_ext(n, e, |j: int| if i <= j { h[j][i].times_spec(y[j]) } else { T::zero_spec() });
        assert(row_product(h, y, i, d) == g[i]);
        T::times_comm(x, g[i]);
    }
    sum_exchange(n, n, f, rows, cols);
    combo_is_sum(az, y, d, r);
    combo_is_sum(q, g, d, r);
    sum_ext(n, rows, |i: int| y[i].times_spec(az[i][r]));
    sum_ext(n, cols, |i: int| g[i].times_spec(q[i][r]));
}

/// Adding a multiple, with the factor on either side.
pub proof fn scaled_is_multiple<T: Field>(x: Seq<T>, p: Seq<T>, a: T)
    ensures
        plus_scaled(x, p, a) == plus_multiple(x, a, p),
{
    assert forall|i: int| 0 <= i < x.len() implies plus_scaled(x, p, a)[i] == plus_multiple(
        x,
        a,
        p,
    )[i] by {
        T::times_comm(p[i], a);
    }
    assert(plus_scaled(x, p, a) =~= plus_multiple(x, a, p));
}

/// A combination of vectors orthogonal to `d` is orthogonal to it.
pub proof fn combination_is_orthogonal<T: Field>(
    d: Seq<T>,
    vs: Seq<Seq<T>>,
    y: Seq<T>,
    k: int,
)
    requires
        0 <= k,
        forall|i: int| 0 <= i < k ==> (#[trigger] vs[i]).len() == d.len(),
        forall|i: int| 0 <= i < k ==> dotc_of(d, #[trigger] vs[i]) == T::zero_spec(),
    ensures
        combined(zeros(d.len() as int), vs, y, k).len() == d.len(),
        dotc_of(d, combined(zeros(d.len() as int), vs, y, k)) == T::zero_spec(),
    decreases k,
{
    let n = d.len() as int;
    let c = combined(zeros(n), vs, y, k);
    if k == 0 {
        dotc_is_dotu(d, c);
        crate::krylov::hermitian::dotu_of_zeros(n, conj_all(d));
    } else {
        combination_is_orthogonal(d, vs, y, k - 1);
        let b = combined(zeros(n), vs, y, k - 1);
        let v = vs[k - 1];
        scaled_is_multiple(b, v, y[k - 1]);
        dotu_plus(b, y[k - 1], v, conj_all(d));
        dotc_is_dotu(d, b);
        dotc_is_dotu(d, v);
        dotc_is_dotu(d, c);
        times_zero(y[k - 1]);
        T::plus_zero(T::zero_spec());
    }
}

/// There are no more orthonormal vectors than dimensions.
pub proof fn orthonormal_are_few<T: Field>(vs: Seq<Seq<T>>, n: int)
    requires
        orthonormal(vs, n),
        0 <= n,
        T::one_spec() != T::zero_spec(),
    ensures
        vs.len() <= n,
{
    let ds = Seq::new(vs.len(), |i: int| conj_all(vs[i]));
    assert forall|i: int, j: int| 0 <= i < vs.len() && 0 <= j < ds.len() implies (dotu_of(
        #[trigger] vs[i],
        #[trigger] ds[j],
    ) == T::zero_spec() <==> i != j) by {
        dotc_is_dotu(vs[j], vs[i]);
        if i == j {
            assert(dotc_of(vs[i], vs[i]) == T::one_spec());
        } else {
            assert(dotc_of(vs[j], vs[i]) == T::zero_spec());
        }
    }
    partners_are_few(vs, ds, n);
}

proof fn sound_from_stops<T: Scalar>(h: Seq<Seq<T>>, thresh: T::Real, i: int)
    requires
        0 <= i <= h.len(),
    ensures
        i <= sound_from(h, thresh, i) <= h.len(),
        forall|j: int|
            i <= j < sound_from(h, thresh, i) ==> !thresh.ge_spec((#[trigger] h[j])[j].magnitude_spec()),
        sound_from(h, thresh, i) < h.len() ==> thresh.ge_spec(
            h[sound_from(h, thresh, i)][sound_from(h, thresh, i)].magnitude_spec(),
        ),
    decreases h.len() - i,
{
    if i < h.len() && !thresh.ge_spec(h[i][i].magnitude_spec()) {
        sound_from_stops(h, thresh, i + 1);
    }
}

/// The columns that are solved with are those before the first whose diagonal is
/// no larger than rounding makes of the largest one.
pub proof fn negligible_columns_are_given_up<T: Scalar>(h: Seq<Seq<T>>)
    ensures
        ({
            let d = sound_dim(h);
            let thresh = <T::Real as Real>::epsilon_spec().times_spec(
                diagonal_max(h, h.len() as int),
            );
            &&& 0 <= d <= h.len()
            &&& forall|j: int|
                0 <= j < d ==> !thresh.ge_spec((#[trigger] h[j])[j].magnitude_spec())
            &&& d < h.len() ==> thresh.ge_spec(h[d][d].magnitude_spec())
        }),
{
    let thresh = <T::Real as Real>::epsilon_spec().times_spec(diagonal_max(h, h.len() as int));
    sound_from_stops(h, thresh, 0);
}

/// The largest diagonal magnitude is that: none is larger, and one is as large
/// unless it is zero.
pub proof fn largest_diagonal<T: Scalar>(
    val: spec_fn(T::Real) -> real,
    h: Seq<Seq<T>>,
    k: int,
)
    requires
        exact_real(val),
        0 <= k,
    ensures
        forall|j: int|
            0 <= j < k ==> val((#[trigger] h[j])[j].magnitude_spec()) <= val(diagonal_max(h, k)),
        val(diagonal_max(h, k)) == 0 as real || exists|j: int|
            0 <= j < k && val((#[trigger] h[j])[j].magnitude_spec()) == val(diagonal_max(h, k)),
    decreases k,
{
    if k > 0 {
        largest_diagonal(val, h, k - 1);
        let m = val(diagonal_max(h, k));
        if m == val(h[k - 1][k - 1].magnitude_spec()) {
        } else if m != 0 as real {
            let j = choose|j: int|
                0 <= j < k - 1 && val((#[trigger] h[j])[j].magnitude_spec()) == val(
                    diagonal_max(h, k - 1),
                );
            assert(val(h[j][j].magnitude_spec()) == m);
        }
    }
}

/// A pass of Gram-Schmidt is repeated exactly where it leaves less than half of the
/// square of the norm.
pub proof fn passes_that_cancel_are_repeated<T: Scalar>(
    val: spec_fn(T::Real) -> real,
    re: spec_fn(T) -> real,
    im: spec_fn(T) -> real,
    before: Seq<T>,
    after: Seq<T>,
)
    requires
        exact_complex(val, re, im),
    ensures
        ({
            let (x, y) = (val(norm_of(before)), val(norm_of(after)));
            collapsed(before, after) <==> x * x > y * y + y * y
        }),
{
    let (x, y) = (val(norm_of(before)), val(norm_of(after)));
    norm_is_positive(val, re, im, before);
    norm_is_positive(val, re, im, after);
    let half = <T::Real as Real>::one_spec().over_spec(<T::Real as Real>::from_count_spec(2));
    let h = val(half);
    assert(h * (2 as real) == 1 as real);
    assert(h * (2 as real) == h + h) by (nonlinear_arith);
    let e = val(reorth_eta::<T::Real>());
    assert(e >= 0 as real && e * e == h);
    product_sign(e, x);
    let z = e * x;
    square_of_product(e, x);
    // z z == h x x
    let s = x * x;
    assert(z * z == h * s);
    multiplies_out(s, h, h);
    reorders(s, h, 1 as real);
    assert(s * (1 as real) == s) by (nonlinear_arith);
    assert(z * z + z * z == s);
    assert((z - y) * (z + y) == z * z - y * y) by (nonlinear_arith);
    assert((y - z) * (y + z) == y * y - z * z) by (nonlinear_arith);
    product_sign(z - y, z + y);
    product_sign(y - z, y + z);
}

} // verus!
