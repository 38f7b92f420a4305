//! A Schur complement times its solution is the right-hand side.

use crate::algebra::{
    cancel, sum, sum_bump, sum_exchange, sum_ext, sum_permuted, sum_scale, sum_single, sum_tail,
    sum_zero, times_zero,
};
use crate::flat::{column_bounds, column_start, position_splits};
use crate::multifrontal::factorize::Trail;
use crate::multifrontal::factors::SparseFactors;
use crate::multifrontal::fronts::{
    diagonal_kernel_is_exact, exact_kernel, is_exact, product_symmetric,
};
use crate::multifrontal::kernel::{
    cell, usable, BunchKaufmanParams, DiagonalKernel, FrontKernel, FrontalFactors, Inertia,
};
use crate::multifrontal::params::NumericParams;
use crate::multifrontal::schur::{
    block_product, is_partial_factorization, partly_factored, SchurBlock,
};
use crate::multifrontal::tree::SymbolicFactorization;
use crate::scalar::{Field, Scalar};
use crate::seqs::permutation_is_onto;
use crate::sparse::GeneralCsc;
use vstd::prelude::*;

verus! {

/// What the first `k` columns of `L` took away, with what is left, is the
/// right-hand side.
proof fn lowered_adds_up<T: Field>(ff: FrontalFactors<T>, b: Seq<T>, i: int, k: int)
    requires
        0 <= k <= i < ff.nelim,
    ensures
        ff.lowered(b, i, k).plus_spec(
            sum(k as nat, |e: int| ff.l_at(i, e).times_spec(ff.forward(b)[e])),
        ) == b[ff.perm@[i] as int],
    decreases k,
{
    let g = |e: int| ff.l_at(i, e).times_spec(ff.forward(b)[e]);
    if k == 0 {
        T::plus_zero(ff.lowered(b, i, 0));
    } else {
        lowered_adds_up(ff, b, i, k - 1);
        let before = ff.lowered(b, i, k - 1);
        let t = ff.l_at(i, k - 1).times_spec(ff.lowered(b, k - 1, k - 1));
        let s = sum((k - 1) as nat, g);
        assert(g(k - 1) == t);
        T::plus_comm(s, t);
        T::plus_assoc(before.minus_spec(t), t, s);
        T::minus_plus(before, t);
    }
}

/// `L y = P b`.
proof fn lower_solved<T: Field>(ff: FrontalFactors<T>, b: Seq<T>, i: int)
    requires
        0 <= i < ff.nelim,
    ensures
        sum(ff.nelim as nat, |e: int| ff.l_at(i, e).times_spec(ff.forward(b)[e]))
            == b[ff.perm@[i] as int],
{
    let y = ff.forward(b);
    let g = |e: int| ff.l_at(i, e).times_spec(y[e]);
    let n = ff.nelim as nat;
    assert forall|e: int| i + 1 <= e < n implies #[trigger] g(e) == T::zero_spec() by {
        times_zero(y[e]);
    }
    sum_tail(n, (i + 1) as nat, g);
    lowered_adds_up(ff, b, i, i);
    sum_ext(i as nat, g, |e: int| ff.l_at(i, e).times_spec(ff.forward(b)[e]));
    let s = sum(i as nat, g);
    T::times_comm(T::one_spec(), y[i]);
    T::times_one(y[i]);
    assert(g(i) == y[i]);
    T::plus_comm(s, y[i]);
    sum_ext(n, g, |e: int| ff.l_at(i, e).times_spec(ff.forward(b)[e]));
}

/// What rows `e + 1..k` of `L^T` took away, with what is left, is `z`.
proof fn raised_adds_up<T: Field>(ff: FrontalFactors<T>, z: Seq<T>, e: int, k: int)
    requires
        0 <= e < k <= ff.nelim,
    ensures
        ff.raised(z, e, k).plus_spec(
            sum(
                k as nat,
                |j: int|
                    if j <= e {
                        T::zero_spec()
                    } else {
                        ff.l_at(j, e).times_spec(ff.backward(z)[j])
                    },
            ),
        ) == z[e],
    decreases k,
{
    let g = |j: int|
        if j <= e {
            T::zero_spec()
        } else {
            ff.l_at(j, e).times_spec(ff.backward(z)[j])
        };
    if k == e + 1 {
        sum_zero(k as nat, g);
        T::plus_zero(z[e]);
    } else {
        raised_adds_up(ff, z, e, k - 1);
        let before = ff.raised(z, e, k - 1);
        let t = ff.l_at(k - 1, e).times_spec(ff.raised(z, k - 1, ff.nelim as int));
        let s = sum((k - 1) as nat, g);
        assert(g(k - 1) == t);
        T::plus_comm(s, t);
        T::plus_assoc(before.minus_spec(t), t, s);
        T::minus_plus(before, t);
    }
}

/// `L^T w = z`.
proof fn upper_solved<T: Field>(ff: FrontalFactors<T>, z: Seq<T>, e: int)
    requires
        0 <= e < ff.nelim,
    ensures
        sum(ff.nelim as nat, |j: int| ff.l_at(j, e).times_spec(ff.backward(z)[j])) == z[e],
{
    let n = ff.nelim as nat;
    let w = ff.backward(z);
    let g = |j: int| ff.l_at(j, e).times_spec(ff.backward(z)[j]);
    let h = |j: int|
        if j <= e {
            T::zero_spec()
        } else {
            ff.l_at(j, e).times_spec(ff.backward(z)[j])
        };
    raised_adds_up(ff, z, e, n as int);
    assert forall|j: int| 0 <= j < n && j != e implies #[trigger] g(j) == h(j) by {
        if j < e {
            times_zero(w[j]);
        }
    }
    sum_bump(n, e, h, g);
    T::times_comm(T::one_spec(), w[e]);
    T::times_one(w[e]);
    assert(g(e) == w[e]);
    T::plus_comm(sum(n, h), w[e]);
}

/// Equal products with a nonzero factor have equal other factors.
proof fn cancel_factor<T: Field>(a: T, b: T, c: T)
    requires
        a.times_spec(c) == b.times_spec(c),
        c != T::zero_spec(),
    ensures
        a == b,
{
    T::recip_inverts(c);
    T::times_assoc(a, c, c.recip_spec());
    T::times_assoc(b, c, c.recip_spec());
    T::times_one(a);
    T::times_one(b);
}

/// `a (b - c) = a b - a c`.
proof fn times_minus<T: Field>(a: T, b: T, c: T)
    ensures
        a.times_spec(b.minus_spec(c)) == a.times_spec(b).minus_spec(a.times_spec(c)),
{
    let p = a.times_spec(b.minus_spec(c));
    let q = a.times_spec(b).minus_spec(a.times_spec(c));
    T::distributes(a, b.minus_spec(c), c);
    T::minus_plus(b, c);
    T::minus_plus(a.times_spec(b), a.times_spec(c));
    cancel(p, q, a.times_spec(c));
}

/// `(u - t) + (t - v) = u - v`.
proof fn telescopes<T: Field>(u: T, t: T, v: T)
    ensures
        u.minus_spec(t).plus_spec(t.minus_spec(v)) == u.minus_spec(v),
{
    let x = u.minus_spec(t).plus_spec(t.minus_spec(v));
    T::plus_assoc(u.minus_spec(t), t.minus_spec(v), v);
    T::minus_plus(t, v);
    T::minus_plus(u, t);
    T::minus_plus(u, v);
    cancel(x, u.minus_spec(v), v);
}

/// `a (b c) = (a b) c`, with the factors of the left side swapped.
proof fn regroup<T: Field>(a: T, b: T, c: T)
    ensures
        a.times_spec(b.times_spec(c)) == c.times_spec(a.times_spec(b)),
        a.times_spec(b.times_spec(c)) == b.times_spec(a.times_spec(c)),
{
    T::times_assoc(a, b, c);
    T::times_comm(a.times_spec(b), c);
    T::times_comm(a, b);
    T::times_assoc(b, a, c);
}

/// The first row of a solved 2 by 2 pivot.
proof fn pair_solved<T: Field>(d0: T, d1: T, s: T, y0: T, y1: T, det: T)
    requires
        det == d0.times_spec(d1).minus_spec(s.times_spec(s)),
        det != T::zero_spec(),
    ensures
        ({
            let z0 = d1.times_spec(y0).minus_spec(s.times_spec(y1)).over_spec(det);
            let z1 = d0.times_spec(y1).minus_spec(s.times_spec(y0)).over_spec(det);
            d0.times_spec(z0).plus_spec(s.times_spec(z1)) == y0
        }),
{
    let p = d1.times_spec(y0).minus_spec(s.times_spec(y1));
    let q = d0.times_spec(y1).minus_spec(s.times_spec(y0));
    let z0 = p.over_spec(det);
    let z1 = q.over_spec(det);
    let a = d0.times_spec(z0);
    let b = s.times_spec(z1);
    let u = d0.times_spec(d1.times_spec(y0));
    let t = d0.times_spec(s.times_spec(y1));
    let v = s.times_spec(s.times_spec(y0));
    assert(a.times_spec(det) == u.minus_spec(t)) by {
        T::times_assoc(d0, z0, det);
        T::over_times(p, det);
        times_minus(d0, d1.times_spec(y0), s.times_spec(y1));
    }
    assert(b.times_spec(det) == t.minus_spec(v)) by {
        T::times_assoc(s, z1, det);
        T::over_times(q, det);
        times_minus(s, d0.times_spec(y1), s.times_spec(y0));
        regroup(d0, s, y1);
    }
    assert(a.plus_spec(b).times_spec(det) == u.minus_spec(v)) by {
        T::times_comm(a.plus_spec(b), det);
        T::distributes(det, a, b);
        T::times_comm(det, a);
        T::times_comm(det, b);
        telescopes(u, t, v);
    }
    assert(y0.times_spec(det) == u.minus_spec(v)) by {
        times_minus(y0, d0.times_spec(d1), s.times_spec(s));
        regroup(d0, d1, y0);
        regroup(s, s, y0);
    }
    cancel_factor(a.plus_spec(b), y0, det);
}

/// A sum with two neighbouring summands that may differ from zero.
proof fn sum_pair<T: Field>(n: nat, k: int, f: spec_fn(int) -> T)
    requires
        0 <= k,
        k + 1 < n,
        forall|i: int| 0 <= i < n && i != k && i != k + 1 ==> #[trigger] f(i) == T::zero_spec(),
    ensures
        sum(n, f) == f(k).plus_spec(f(k + 1)),
{
    let h = |i: int|
        if i == k + 1 {
            T::zero_spec()
        } else {
            f(i)
        };
    sum_single(n, k, h);
    sum_bump(n, k + 1, h, f);
}

/// Every pivot can be divided by, and 2 by 2 pivots do not overlap.
pub open spec fn sound_pivots<T: Scalar>(ff: FrontalFactors<T>) -> bool {
    &&& forall|e: int|
        0 <= e < ff.nelim && #[trigger] ff.d_subdiag@[e] != T::zero_spec() ==> e + 1 < ff.nelim
            && ff.d_subdiag@[e + 1] == T::zero_spec() && ff.determinant(e) != T::zero_spec()
    &&& forall|e: int|
        0 <= e < ff.nelim && ff.d_subdiag@[e] == T::zero_spec() && (e > 0 ==> ff.d_subdiag@[e - 1]
            == T::zero_spec()) ==> #[trigger] ff.d_diag@[e] != T::zero_spec()
}

/// `D z = y`.
proof fn pivots_solved<T: Field>(ff: FrontalFactors<T>, y: Seq<T>, e: int)
    requires
        0 <= e < ff.nelim,
        y.len() == ff.nelim,
        sound_pivots(ff),
    ensures
        sum(ff.nelim as nat, |f: int| ff.d_at(e, f).times_spec(ff.divided(y)[f])) == y[e],
{
    let n = ff.nelim as nat;
    let z = ff.divided(y);
    let g = |f: int| ff.d_at(e, f).times_spec(ff.divided(y)[f]);
    let d = ff.d_diag@;
    let sub = ff.d_subdiag@;
    T::zero_test(sub[e]);
    if e > 0 {
        T::zero_test(sub[e - 1]);
    }
    if ff.is_second(e) {
        let k = e - 1;
        assert(sub[k] != T::zero_spec());
        assert(sub[k + 1] == T::zero_spec());
        assert forall|f: int| 0 <= f < n && f != k && f != k + 1 implies #[trigger] g(f)
            == T::zero_spec() by {
            assert(ff.d_at(e, f) == T::zero_spec());
            times_zero(z[f]);
        }
        sum_pair(n, k, g);
        assert(!ff.is_second(k)) by {
            if k > 0 {
                T::zero_test(sub[k - 1]);
                if sub[k - 1] != T::zero_spec() {
                    assert(sub[k] == T::zero_spec());
                }
            }
        }
        assert(ff.is_first(k));
        T::times_comm(d[k], d[e]);
        pair_solved(d[e], d[k], sub[k], y[e], y[k], ff.determinant(k));
        assert(g(k) == sub[k].times_spec(z[k]));
        assert(g(e) == d[e].times_spec(z[e]));
        T::plus_comm(g(k), g(e));
    } else if ff.is_first(e) {
        assert(sub[e + 1] == T::zero_spec());
        assert forall|f: int| 0 <= f < n && f != e && f != e + 1 implies #[trigger] g(f)
            == T::zero_spec() by {
            assert(ff.d_at(e, f) == T::zero_spec());
            times_zero(z[f]);
        }
        sum_pair(n, e, g);
        assert(ff.is_second(e + 1));
        pair_solved(d[e], d[e + 1], sub[e], y[e], y[e + 1], ff.determinant(e));
        assert(g(e) == d[e].times_spec(z[e]));
        assert(g(e + 1) == sub[e].times_spec(z[e + 1]));
    } else {
        assert(sub[e] == T::zero_spec());
        assert(d[e] != T::zero_spec());
        assert forall|f: int| 0 <= f < n && f != e implies #[trigger] g(f) == T::zero_spec() by {
            assert(ff.d_at(e, f) == T::zero_spec());
            times_zero(z[f]);
        }
        sum_single(n, e, g);
        T::over_times(y[e], d[e]);
        T::times_comm(d[e], z[e]);
    }
}

/// Entry `f` of `L^T w`.
spec fn turned<T: Scalar>(ff: FrontalFactors<T>, w: Seq<T>, f: int) -> T {
    sum(ff.nelim as nat, |j: int| ff.l_at(j, f).times_spec(w[j]))
}

/// Entry `e` of `D v`.
spec fn weighted<T: Scalar>(ff: FrontalFactors<T>, v: spec_fn(int) -> T, e: int) -> T {
    sum(ff.nelim as nat, |f: int| ff.d_at(e, f).times_spec(v(f)))
}

/// `sum_j (sum_f l d L(j, f)) w_j = l (sum_f d (L^T w)_f)` for one row and one pivot.
proof fn pivot_applies<T: Field>(ff: FrontalFactors<T>, w: Seq<T>, i: int, e: int)
    requires
        w.len() == ff.nelim,
    ensures
        sum(
            ff.nelim as nat,
            |j: int|
                sum(
                    ff.nelim as nat,
                    |f: int|
                        ff.l_at(i, e).times_spec(ff.d_at(e, f)).times_spec(ff.l_at(j, f)),
                ).times_spec(w[j]),
        ) == ff.l_at(i, e).times_spec(weighted(ff, |f: int| turned(ff, w, f), e)),
{
    let n = ff.nelim as nat;
    let l = ff.l_at(i, e);
    let at = |j: int, f: int| l.times_spec(ff.d_at(e, f)).times_spec(ff.l_at(j, f)).times_spec(w[j]);
    let rows = |j: int|
        sum(
            n,
            |f: int| ff.l_at(i, e).times_spec(ff.d_at(e, f)).times_spec(ff.l_at(j, f)),
        ).times_spec(w[j]);
    assert forall|j: int| 0 <= j < n implies #[trigger] rows(j) == sum(n, |f: int| at(j, f)) by {
        let inner = |f: int| ff.l_at(i, e).times_spec(ff.d_at(e, f)).times_spec(ff.l_at(j, f));
        let h = |f: int| at(j, f);
        assert forall|f: int| 0 <= f < n implies #[trigger] h(f) == w[j].times_spec(inner(f)) by {
            T::times_comm(inner(f), w[j]);
        }
        sum_scale(n, w[j], inner, h);
        T::times_comm(w[j], sum(n, inner));
    }
    let cols = |f: int| l.times_spec(ff.d_at(e, f).times_spec(turned(ff, w, f)));
    assert forall|f: int| 0 <= f < n implies #[trigger] cols(f) == sum(n, |j: int| at(j, f)) by {
        let c = l.times_spec(ff.d_at(e, f));
        let inner = |j: int| ff.l_at(j, f).times_spec(w[j]);
        let h = |j: int| at(j, f);
        assert forall|j: int| 0 <= j < n implies #[trigger] h(j) == c.times_spec(inner(j)) by {
            T::times_assoc(c, ff.l_at(j, f), w[j]);
        }
        sum_scale(n, c, inner, h);
        T::times_assoc(l, ff.d_at(e, f), turned(ff, w, f));
    }
    sum_exchange(n, n, at, rows, cols);
    let v = |f: int| turned(ff, w, f);
    let inner = |f: int| ff.d_at(e, f).times_spec(v(f));
    assert forall|f: int| 0 <= f < n implies #[trigger] cols(f) == l.times_spec(inner(f)) by {}
    sum_scale(n, l, inner, cols);
}

/// `(L D L^T) w = L (D (L^T w))`.
proof fn product_applies<T: Field>(ff: FrontalFactors<T>, w: Seq<T>, i: int)
    requires
        w.len() == ff.nelim,
    ensures
        sum(ff.nelim as nat, |j: int| ff.product_at(i, j).times_spec(w[j])) == sum(
            ff.nelim as nat,
            |e: int| ff.l_at(i, e).times_spec(weighted(ff, |f: int| turned(ff, w, f), e)),
        ),
{
    let n = ff.nelim as nat;
    let at = |j: int, e: int|
        sum(
            n,
            |f: int| ff.l_at(i, e).times_spec(ff.d_at(e, f)).times_spec(ff.l_at(j, f)),
        ).times_spec(w[j]);
    let rows = |j: int| ff.product_at(i, j).times_spec(w[j]);
    assert forall|j: int| 0 <= j < n implies #[trigger] rows(j) == sum(n, |e: int| at(j, e)) by {
        let inner = |e: int|
            sum(n, |f: int| ff.l_at(i, e).times_spec(ff.d_at(e, f)).times_spec(ff.l_at(j, f)));
        let h = |e: int| at(j, e);
        assert forall|e: int| 0 <= e < n implies #[trigger] h(e) == w[j].times_spec(inner(e)) by {
            T::times_comm(inner(e), w[j]);
        }
        sum_scale(n, w[j], inner, h);
        T::times_comm(w[j], sum(n, inner));
        assert(ff.product_at(i, j) == sum(n, inner));
    }
    let cols = |e: int| ff.l_at(i, e).times_spec(weighted(ff, |f: int| turned(ff, w, f), e));
    assert forall|e: int| 0 <= e < n implies #[trigger] cols(e) == sum(n, |j: int| at(j, e)) by {
        pivot_applies(ff, w, i, e);
        sum_ext(
            n,
            |j: int| at(j, e),
            |j: int|
                sum(
                    n,
                    |f: int| ff.l_at(i, e).times_spec(ff.d_at(e, f)).times_spec(ff.l_at(j, f)),
                ).times_spec(w[j]),
        );
    }
    sum_exchange(n, n, at, rows, cols);
}

/// `L D L^T` times the solution is the right-hand side, rows in pivot order.
proof fn factors_solve<T: Field>(ff: FrontalFactors<T>, b: Seq<T>, i: int)
    requires
        0 <= i < ff.nelim,
        sound_pivots(ff),
    ensures
        sum(
            ff.nelim as nat,
            |j: int| ff.product_at(i, j).times_spec(ff.pivot_solution(b)[j]),
        ) == b[ff.perm@[i] as int],
{
    let n = ff.nelim as nat;
    let y = ff.forward(b);
    let z = ff.divided(y);
    let w = ff.pivot_solution(b);
    assert(w == ff.backward(z));
    product_applies(ff, w, i);
    let outer = |e: int| ff.l_at(i, e).times_spec(weighted(ff, |f: int| turned(ff, w, f), e));
    let want = |e: int| ff.l_at(i, e).times_spec(ff.forward(b)[e]);
    assert forall|e: int| 0 <= e < n implies #[trigger] outer(e) == want(e) by {
        let v = |f: int| turned(ff, w, f);
        let inner = |f: int| ff.d_at(e, f).times_spec(v(f));
        let solved = |f: int| ff.d_at(e, f).times_spec(ff.divided(y)[f]);
        assert forall|f: int| 0 <= f < n implies #[trigger] inner(f) == solved(f) by {
            upper_solved(ff, z, f);
            sum_ext(
                n,
                |j: int| ff.l_at(j, f).times_spec(w[j]),
                |j: int| ff.l_at(j, f).times_spec(ff.backward(z)[j]),
            );
        }
        sum_ext(n, inner, solved);
        pivots_solved(ff, y, e);
        assert(weighted(ff, v, e) == y[e]);
    }
    sum_ext(n, outer, want);
    lower_solved(ff, b, i);
}

impl<T: Scalar> SchurBlock<T> {
    /// Both triangles hold the same values.
    pub open spec fn symmetric(&self) -> bool {
        forall|i: int, j: int|
            #![trigger self.at(i, j)]
            0 <= i < self.dim && 0 <= j < self.dim ==> self.at(i, j) == self.at(j, i)
    }

    /// Entry `(i, j)`.
    pub open spec fn at(&self, i: int, j: int) -> T {
        self.data@[column_start(self.dim as int, j) + i]
    }

    /// Entry `i` of `S x`.
    pub open spec fn times_at(&self, x: Seq<T>, i: int) -> T {
        block_product(self.data@, self.dim as int, x, i, self.dim as int)
    }
}

/// The product of a block is a sum.
proof fn product_is_sum<T: Scalar>(s: SchurBlock<T>, x: Seq<T>, i: int, k: int)
    requires
        0 <= k,
    ensures
        block_product(s.data@, s.dim as int, x, i, k) == sum(
            k as nat,
            |j: int| s.at(i, j).times_spec(x[j]),
        ),
    decreases k,
{
    if k > 0 {
        product_is_sum(s, x, i, k - 1);
    }
}

/// A row of the block times a vector, in the order of the pivots.
proof fn block_row<T: Field>(s: SchurBlock<T>, ff: FrontalFactors<T>, x: Seq<T>, w: Seq<T>, r: int)
    requires
        s.symmetric(),
        ff.shaped(s.dim as int, s.dim as int),
        ff.n_delayed == 0,
        is_exact(s.data@, ff),
        0 <= r < s.dim,
        x.len() == s.dim,
        forall|k: int| 0 <= k < s.dim ==> x[#[trigger] ff.perm@[k] as int] == w[k],
    ensures
        s.times_at(x, ff.perm@[r] as int) == sum(
            ff.nelim as nat,
            |k: int| ff.product_at(r, k).times_spec(w[k]),
        ),
{
    let n = s.dim as int;
    let p = ff.perm@;
    let i = p[r] as int;
    assert(p[r] < n);
    product_is_sum(s, x, i, n);
    let f = |j: int| s.at(i, j).times_spec(x[j]);
    let g = |k: int| s.at(i, p[k] as int).times_spec(x[p[k] as int]);
    sum_permuted(n as nat, p, f, g);
    let h = |k: int| ff.product_at(r, k).times_spec(w[k]);
    assert forall|k: int| 0 <= k < n implies #[trigger] g(k) == h(k) by {
        assert(p[k] < n);
        let j = p[k] as int;
        assert(s.at(i, j) == s.at(j, i));
        assert(x[p[k] as int] == w[k]);
        if k <= r {
            assert(ff.rest_at(r, k) == T::zero_spec());
            T::plus_zero(ff.product_at(r, k));
            assert(s.data@[cell(n, p[r] as int, p[k] as int)] == ff.product_at(r, k));
        } else {
            product_symmetric(ff, r, k);
            assert(ff.rest_at(k, r) == T::zero_spec());
            T::plus_zero(ff.product_at(k, r));
            assert(s.data@[cell(n, p[k] as int, p[r] as int)] == ff.product_at(k, r));
        }
    }
    sum_ext(n as nat, g, h);
}

/// A Schur complement times its solution is the right-hand side, where the
/// kernel loses nothing and the pivots can be divided by.
pub proof fn schur_solution_solves<T: Field, K: FrontKernel<T>>(
    s: SchurBlock<T>,
    rhs: Seq<T>,
    kernel: K,
    bk: BunchKaufmanParams<T::Real>,
    ff: FrontalFactors<T>,
    x: Seq<T>,
    i: int,
)
    requires
        s.symmetric(),
        rhs.len() == s.dim,
        exact_kernel::<T, K>(kernel),
        s.solved_by(rhs, kernel, bk, ff, x),
        sound_pivots(ff),
        0 <= i < s.dim,
    ensures
        s.times_at(x, i) == rhs[i],
{
    let n = s.dim as int;
    assert(is_exact(s.data@, ff));
    permutation_is_onto(ff.perm@, n, i);
    let r = choose|r: int| 0 <= r < ff.perm@.len() && #[trigger] ff.perm@[r] == i;
    block_row(s, ff, x, ff.pivot_solution(rhs), r);
    factors_solve(ff, rhs, r);
}

/// A block that the diagonal kernel factors is solved exactly.
pub proof fn diagonal_solution_solves<T: Field>(
    s: SchurBlock<T>,
    rhs: Seq<T>,
    bk: BunchKaufmanParams<T::Real>,
    x: Seq<T>,
    i: int,
)
    requires
        s.symmetric(),
        rhs.len() == s.dim,
        s.is_solution(rhs, DiagonalKernel, bk, x),
        0 <= i < s.dim,
    ensures
        s.times_at(x, i) == rhs[i],
{
    let ff = choose|ff: FrontalFactors<T>| #[trigger]
        s.solved_by(rhs, DiagonalKernel, bk, ff, x);
    diagonal_kernel_is_exact::<T>();
    assert forall|e: int| 0 <= e < ff.nelim implies #[trigger] ff.d_diag@[e] != T::zero_spec() by {
        assert(usable(ff.d_diag@[e]));
        T::zero_test(ff.d_diag@[e]);
    }
    schur_solution_solves(s, rhs, DiagonalKernel, bk, ff, x, i);
}

/// `L y = P b` has one solution.
proof fn lower_unique<T: Field>(ff: FrontalFactors<T>, b: Seq<T>, u: spec_fn(int) -> T, i: int)
    requires
        0 <= i < ff.nelim,
        forall|q: int|
            0 <= q < ff.nelim ==> b[#[trigger] ff.perm@[q] as int] == sum(
                ff.nelim as nat,
                |e: int| ff.l_at(q, e).times_spec(u(e)),
            ),
    ensures
        forall|q: int| 0 <= q <= i ==> #[trigger] ff.forward(b)[q] == u(q),
    decreases i,
{
    let n = ff.nelim as nat;
    let y = ff.forward(b);
    if i > 0 {
        lower_unique(ff, b, u, i - 1);
    }
    let f = |e: int| ff.l_at(i, e).times_spec(ff.forward(b)[e]);
    let g = |e: int| ff.l_at(i, e).times_spec(u(e));
    lower_solved(ff, b, i);
    assert(b[ff.perm@[i] as int] == sum(n, g));
    assert forall|e: int| i + 1 <= e < n implies #[trigger] f(e) == T::zero_spec() by {
        times_zero(y[e]);
    }
    assert forall|e: int| i + 1 <= e < n implies #[trigger] g(e) == T::zero_spec() by {
        times_zero(u(e));
    }
    sum_tail(n, (i + 1) as nat, f);
    sum_tail(n, (i + 1) as nat, g);
    assert forall|e: int| 0 <= e < i implies #[trigger] f(e) == g(e) by {
        assert(y[e] == u(e));
    }
    sum_ext(i as nat, f, g);
    T::times_comm(T::one_spec(), y[i]);
    T::times_one(y[i]);
    T::times_comm(T::one_spec(), u(i));
    T::times_one(u(i));
    assert(f(i) == y[i] && g(i) == u(i));
    let s = sum(i as nat, f);
    T::plus_comm(s, y[i]);
    T::plus_comm(s, u(i));
    cancel(y[i], u(i), s);
}

/// `L^T w = z` has one solution.
proof fn upper_unique<T: Field>(ff: FrontalFactors<T>, z: Seq<T>, w: Seq<T>, e: int)
    requires
        0 <= e < ff.nelim,
        w.len() == ff.nelim,
        z.len() == ff.nelim,
        forall|q: int| 0 <= q < ff.nelim ==> #[trigger] z[q] == turned(ff, w, q),
    ensures
        forall|q: int| e <= q < ff.nelim ==> #[trigger] ff.backward(z)[q] == w[q],
    decreases ff.nelim - e,
{
    let n = ff.nelim as nat;
    let x = ff.backward(z);
    if e + 1 < n {
        upper_unique(ff, z, w, e + 1);
    }
    let f = |j: int| ff.l_at(j, e).times_spec(ff.backward(z)[j]);
    let g = |j: int| ff.l_at(j, e).times_spec(w[j]);
    upper_solved(ff, z, e);
    assert(z[e] == turned(ff, w, e));
    assert(sum(n, f) == sum(n, g));
    let h = |j: int|
        if j == e {
            T::zero_spec()
        } else {
            f(j)
        };
    assert forall|j: int| 0 <= j < n && j != e implies #[trigger] g(j) == h(j) by {
        if j < e {
            times_zero(x[j]);
            times_zero(w[j]);
        } else {
            assert(x[j] == w[j]);
        }
    }
    sum_bump(n, e, h, f);
    sum_bump(n, e, h, g);
    T::times_comm(T::one_spec(), x[e]);
    T::times_one(x[e]);
    T::times_comm(T::one_spec(), w[e]);
    T::times_one(w[e]);
    let s = sum(n, h);
    T::plus_comm(s, x[e]);
    T::plus_comm(s, w[e]);
    cancel(x[e], w[e], s);
}

/// The first row of a 2 by 2 pivot gives back what it was applied to.
proof fn pair_unique<T: Field>(d0: T, d1: T, s: T, v0: T, v1: T, det: T)
    requires
        det == d0.times_spec(d1).minus_spec(s.times_spec(s)),
        det != T::zero_spec(),
    ensures
        ({
            let y0 = d0.times_spec(v0).plus_spec(s.times_spec(v1));
            let y1 = s.times_spec(v0).plus_spec(d1.times_spec(v1));
            d1.times_spec(y0).minus_spec(s.times_spec(y1)).over_spec(det) == v0
        }),
{
    let y0 = d0.times_spec(v0).plus_spec(s.times_spec(v1));
    let y1 = s.times_spec(v0).plus_spec(d1.times_spec(v1));
    let a = d1.times_spec(d0.times_spec(v0));
    let t = d1.times_spec(s.times_spec(v1));
    let c = s.times_spec(s.times_spec(v0));
    let top = d1.times_spec(y0).minus_spec(s.times_spec(y1));
    // d1 y0 = a + t and s y1 = c + t
    T::distributes(d1, d0.times_spec(v0), s.times_spec(v1));
    T::distributes(s, s.times_spec(v0), d1.times_spec(v1));
    regroup(d1, s, v1);
    assert(top == a.minus_spec(c)) by {
        let x = a.minus_spec(c);
        T::minus_plus(a, c);
        T::plus_assoc(x, c, t);
        T::minus_plus(a.plus_spec(t), c.plus_spec(t));
        cancel(top, x, c.plus_spec(t));
    }
    assert(v0.times_spec(det) == top) by {
        times_minus(v0, d0.times_spec(d1), s.times_spec(s));
        regroup(d1, d0, v0);
        regroup(s, s, v0);
        T::times_comm(d0, d1);
    }
    T::over_times(top, det);
    cancel_factor(top.over_spec(det), v0, det);
}

/// `D z = y` has one solution.
proof fn pivots_unique<T: Field>(ff: FrontalFactors<T>, y: Seq<T>, v: spec_fn(int) -> T, e: int)
    requires
        0 <= e < ff.nelim,
        y.len() == ff.nelim,
        sound_pivots(ff),
        forall|q: int| 0 <= q < ff.nelim ==> #[trigger] y[q] == weighted(ff, v, q),
    ensures
        ff.divided(y)[e] == v(e),
{
    let n = ff.nelim as nat;
    let d = ff.d_diag@;
    let sub = ff.d_subdiag@;
    T::zero_test(sub[e]);
    if e > 0 {
        T::zero_test(sub[e - 1]);
    }
    if ff.is_second(e) {
        let k = e - 1;
        assert(sub[k] != T::zero_spec());
        pair_rows(ff, v, k);
        assert(y[k] == weighted(ff, v, k));
        assert(y[e] == weighted(ff, v, e));
        T::times_comm(d[k], d[e]);
        T::plus_comm(d[k].times_spec(v(k)), sub[k].times_spec(v(e)));
        T::plus_comm(sub[k].times_spec(v(k)), d[e].times_spec(v(e)));
        pair_unique(d[e], d[k], sub[k], v(e), v(k), ff.determinant(k));
    } else if ff.is_first(e) {
        pair_rows(ff, v, e);
        assert(y[e] == weighted(ff, v, e));
        assert(y[e + 1] == weighted(ff, v, e + 1));
        pair_unique(d[e], d[e + 1], sub[e], v(e), v(e + 1), ff.determinant(e));
    } else {
        assert(sub[e] == T::zero_spec());
        assert(d[e] != T::zero_spec());
        let g = |f: int| ff.d_at(e, f).times_spec(v(f));
        assert forall|f: int| 0 <= f < n && f != e implies #[trigger] g(f) == T::zero_spec() by {
            assert(ff.d_at(e, f) == T::zero_spec());
            times_zero(v(f));
        }
        sum_single(n, e, g);
        assert(y[e] == weighted(ff, v, e));
        T::over_times(y[e], d[e]);
        T::times_comm(d[e], v(e));
        cancel_factor(y[e].over_spec(d[e]), v(e), d[e]);
    }
}

/// The two rows of `D v` at a 2 by 2 pivot.
proof fn pair_rows<T: Field>(ff: FrontalFactors<T>, v: spec_fn(int) -> T, k: int)
    requires
        0 <= k,
        k + 1 < ff.nelim,
        sound_pivots(ff),
        ff.d_subdiag@[k] != T::zero_spec(),
    ensures
        weighted(ff, v, k) == ff.d_diag@[k].times_spec(v(k)).plus_spec(
            ff.d_subdiag@[k].times_spec(v(k + 1)),
        ),
        weighted(ff, v, k + 1) == ff.d_subdiag@[k].times_spec(v(k)).plus_spec(
            ff.d_diag@[k + 1].times_spec(v(k + 1)),
        ),
{
    let n = ff.nelim as nat;
    let sub = ff.d_subdiag@;
    assert(sub[k + 1] == T::zero_spec());
    if k > 0 {
        assert(sub[k - 1] == T::zero_spec()) by {
            if sub[k - 1] != T::zero_spec() {
                assert(sub[k - 1 + 1] == T::zero_spec());
            }
        }
    }
    let g = |f: int| ff.d_at(k, f).times_spec(v(f));
    let h = |f: int| ff.d_at(k + 1, f).times_spec(v(f));
    assert forall|f: int| 0 <= f < n && f != k && f != k + 1 implies #[trigger] g(f)
        == T::zero_spec() by {
        assert(ff.d_at(k, f) == T::zero_spec());
        times_zero(v(f));
    }
    assert forall|f: int| 0 <= f < n && f != k && f != k + 1 implies #[trigger] h(f)
        == T::zero_spec() by {
        assert(ff.d_at(k + 1, f) == T::zero_spec());
        times_zero(v(f));
    }
    sum_pair(n, k, g);
    sum_pair(n, k, h);
}

/// A vector is recovered from its product with a Schur complement, where the
/// kernel loses nothing and the pivots can be divided by.
pub proof fn schur_solution_recovers<T: Field, K: FrontKernel<T>>(
    s: SchurBlock<T>,
    rhs: Seq<T>,
    kernel: K,
    bk: BunchKaufmanParams<T::Real>,
    ff: FrontalFactors<T>,
    x: Seq<T>,
    t: Seq<T>,
)
    requires
        s.symmetric(),
        rhs.len() == s.dim,
        t.len() == s.dim,
        exact_kernel::<T, K>(kernel),
        s.solved_by(rhs, kernel, bk, ff, x),
        sound_pivots(ff),
        forall|i: int| 0 <= i < s.dim ==> #[trigger] rhs[i] == s.times_at(t, i),
    ensures
        x == t,
{
    let n = s.dim as int;
    let p = ff.perm@;
    let w = Seq::new(n as nat, |k: int| t[p[k] as int]);
    let v = |f: int| turned(ff, w, f);
    let u = |e: int| weighted(ff, v, e);
    assert(is_exact(s.data@, ff));
    assert forall|r: int| 0 <= r < n implies rhs[#[trigger] p[r] as int] == sum(
        n as nat,
        |e: int| ff.l_at(r, e).times_spec(u(e)),
    ) by {
        let i = p[r] as int;
        assert(p[r] < n);
        assert(rhs[i] == s.times_at(t, i));
        block_row(s, ff, t, w, r);
        product_applies(ff, w, r);
        sum_ext(
            n as nat,
            |e: int| ff.l_at(r, e).times_spec(u(e)),
            |e: int| ff.l_at(r, e).times_spec(weighted(ff, |f: int| turned(ff, w, f), e)),
        );
    }
    let y = ff.forward(rhs);
    let z = ff.divided(y);
    if n > 0 {
        lower_unique(ff, rhs, u, n - 1);
        assert forall|q: int| 0 <= q < n implies #[trigger] y[q] == weighted(ff, v, q) by {
            assert(y[q] == u(q));
        }
        assert forall|q: int| 0 <= q < n implies #[trigger] z[q] == turned(ff, w, q) by {
            pivots_unique(ff, y, v, q);
        }
        upper_unique(ff, z, w, 0);
    }
    assert forall|i: int| 0 <= i < n implies #[trigger] x[i] == t[i] by {
        permutation_is_onto(p, n, i);
        let r = choose|r: int| 0 <= r < p.len() && #[trigger] p[r] == i;
        assert(x[p[r] as int] == ff.pivot_solution(rhs)[r]);
        assert(ff.backward(z)[r] == w[r]);
    }
    assert(x =~= t);
}

/// The Schur complement that a factorization returns is symmetric.
pub proof fn schur_block_is_symmetric<T: Scalar, K: FrontKernel<T>>(
    matrix: GeneralCsc<T>,
    scaling: Seq<T>,
    sym: SymbolicFactorization,
    params: NumericParams<T::Real>,
    kernel: K,
    f: SparseFactors<T>,
    inertia: Inertia,
    schur: SchurBlock<T>,
)
    requires
        is_partial_factorization(matrix, scaling, sym, params, kernel, f, inertia, schur),
    ensures
        schur.symmetric(),
{
    let t = choose|t: Trail<T>| #[trigger]
        partly_factored(matrix, scaling, sym, params, kernel, t, f, inertia, schur);
    let block = t.cs@[sym.supernodes@.len() - 1]->0;
    let k = schur.dim as int;
    assert forall|i: int, j: int|
        #![trigger schur.at(i, j)]
        0 <= i < k && 0 <= j < k implies schur.at(i, j) == schur.at(j, i) by {
        position_splits(k, i, j);
        position_splits(k, j, i);
        column_bounds(k, j, k);
        column_bounds(k, i, k);
        assert(schur.at(i, j) == block.data@[cell(block.dim as int, i, j)]);
        assert(schur.at(j, i) == block.data@[cell(block.dim as int, j, i)]);
    }
}

} // verus!
