//! More vectors than dimensions are dependent.

use crate::algebra::{cancel, neg_plus, sum, sum_ext, sum_plus, sum_scale, sum_zero, times_zero, zero_plus};
use crate::krylov::vectors::{dotu_of, dotu_upto};
use crate::scalar::{neg, Field, Scalar};
use vstd::prelude::*;

verus! {

/// The numbers without `q`: the one in place `i`.
pub open spec fn skipping(q: int, i: int) -> int {
    if i < q {
        i
    } else {
        i + 1
    }
}

/// One summand taken out of a sum.
pub proof fn sum_without<T: Field>(n: nat, q: int, f: spec_fn(int) -> T, g: spec_fn(int) -> T)
    requires
        0 <= q <= n,
        forall|i: int| 0 <= i < n ==> #[trigger] g(i) == f(skipping(q, i)),
    ensures
        sum(n + 1, f) == f(q).plus_spec(sum(n, g)),
    decreases n,
{
    if q == n {
        sum_ext(n, f, g);
        T::plus_comm(sum(n, f), f(q));
    } else {
        let k = (n - 1) as nat;
        sum_without(k, q, f, g);
        assert(g(n - 1) == f(n as int));
        assert(sum(n + 1, f) == sum(n, f).plus_spec(f(n as int)));
        T::plus_assoc(f(q), sum(k, g), g(n - 1));
    }
}

/// Row `r` of the combination of the vectors with these coefficients.
pub open spec fn combination<T: Scalar>(vs: Seq<Seq<T>>, c: Seq<T>, r: int) -> T {
    sum(vs.len(), |i: int| c[i].times_spec(vs[i][r]))
}

/// The coefficients are not all zero, and the combination vanishes in the first
/// `n` rows.
pub open spec fn vanishing<T: Scalar>(vs: Seq<Seq<T>>, n: int, c: Seq<T>) -> bool {
    &&& c.len() == vs.len()
    &&& exists|i: int| 0 <= i < c.len() && #[trigger] c[i] != T::zero_spec()
    &&& forall|r: int| 0 <= r < n ==> #[trigger] combination(vs, c, r) == T::zero_spec()
}

/// The vectors without their entry in row `n - 1`, by subtracting multiples of
/// the vector in place `q`, which is left out.
spec fn reduced<T: Scalar>(vs: Seq<Seq<T>>, n: int, q: int) -> Seq<Seq<T>> {
    Seq::new(
        (vs.len() - 1) as nat,
        |i: int|
            {
                let v = vs[skipping(q, i)];
                let t = v[n - 1].over_spec(vs[q][n - 1]);
                Seq::new(n as nat, |r: int| v[r].minus_spec(t.times_spec(vs[q][r])))
            },
    )
}

/// A factor that is not zero can be taken off a product that is.
pub proof fn factor_is_zero<T: Field>(a: T, b: T)
    requires
        a != T::zero_spec(),
        a.times_spec(b) == T::zero_spec(),
    ensures
        b == T::zero_spec(),
{
    T::recip_inverts(a);
    T::times_comm(a, a.recip_spec());
    T::times_assoc(a.recip_spec(), a, b);
    times_zero(a.recip_spec());
    T::times_comm(T::one_spec(), b);
    T::times_one(b);
}

proof fn reduced_sum<T: Field>(vs: Seq<Seq<T>>, n: int, q: int, d: Seq<T>, r: int) -> (c: Seq<T>)
    requires
        vs.len() >= 1,
        0 <= q < vs.len(),
        0 < n,
        0 <= r < n,
        d.len() == vs.len() - 1,
    ensures
        c == spread(vs, n, q, d),
        combination(vs, c, r) == combination(reduced(vs, n, q), d, r),
{
    let c = spread(vs, n, q, d);
    let k = d.len();
    let p = vs[q][n - 1];
    let f = |i: int| c[i].times_spec(vs[i][r]);
    let g = |i: int| d[i].times_spec(vs[skipping(q, i)][r]);
    let t = |i: int| d[i].times_spec(vs[skipping(q, i)][n - 1].over_spec(p));
    let vq = vs[q][r];
    let m = |i: int| vq.times_spec(neg(t(i)));
    let nt = |i: int| neg(t(i));
    assert forall|i: int| 0 <= i < k implies #[trigger] g(i) == f(skipping(q, i)) by {
        assert(c[skipping(q, i)] == d[i]);
    }
    sum_without(k, q, f, g);
    assert(vs.len() == k + 1);
    // c[q] is minus the sum of the t(i).
    let total = sum(k, t);
    assert(c[q] == neg(total));
    sum_negates(k, t, nt);
    T::times_comm(neg(total), vq);
    sum_scale(k, vq, nt, m);
    assert(f(q) == sum(k, m));
    let h = |i: int| d[i].times_spec(reduced(vs, n, q)[i][r]);
    assert forall|i: int| 0 <= i < k implies #[trigger] h(i) == m(i).plus_spec(g(i)) by {
        let v = vs[skipping(q, i)];
        let s = v[n - 1].over_spec(p);
        let a = v[r];
        let b = s.times_spec(vq);
        assert(reduced(vs, n, q)[i][r] == a.minus_spec(b));
        // d (a - s vq) == vq (0 - d s) + d a
        minus_multiplies(d[i], a, b);
        let ds = d[i].times_spec(s);
        T::times_assoc(d[i], s, vq);
        neg_moves(ds, vq);
        T::times_comm(vq, neg(ds));
        T::plus_comm(m(i), g(i));
    }
    sum_plus(k, m, g, h);
    assert(reduced(vs, n, q).len() == k);
    sum_ext(k, h, |i: int| d[i].times_spec(reduced(vs, n, q)[i][r]));
    sum_ext((k + 1) as nat, f, |i: int| c[i].times_spec(vs[i][r]));
    c
}

/// `d (a - b)` is `d a + (0 - d b)`.
proof fn minus_multiplies<T: Field>(d: T, a: T, b: T)
    ensures
        d.times_spec(a.minus_spec(b)) == d.times_spec(a).plus_spec(neg(d.times_spec(b))),
{
    let x = a.minus_spec(b);
    T::minus_plus(a, b);
    T::distributes(d, x, b);
    let db = d.times_spec(b);
    let da = d.times_spec(a);
    T::plus_assoc(da, neg(db), db);
    neg_plus(db);
    T::plus_zero(da);
    cancel(d.times_spec(x), da.plus_spec(neg(db)), db);
}

/// `(0 - a) b` is `0 - a b`.
pub proof fn neg_moves<T: Field>(a: T, b: T)
    ensures
        neg(a).times_spec(b) == neg(a.times_spec(b)),
{
    crate::algebra::neg_times(a, b);
    neg_plus(a.times_spec(b));
    cancel(neg(a).times_spec(b), neg(a.times_spec(b)), a.times_spec(b));
}

/// The negatives add up to the negative of the sum.
proof fn sum_negates<T: Field>(n: nat, f: spec_fn(int) -> T, g: spec_fn(int) -> T)
    requires
        forall|i: int| 0 <= i < n ==> #[trigger] g(i) == neg(f(i)),
    ensures
        sum(n, g) == neg(sum(n, f)),
{
    let z = |i: int| T::zero_spec();
    assert forall|i: int| 0 <= i < n implies #[trigger] z(i) == g(i).plus_spec(f(i)) by {
        neg_plus(f(i));
    }
    sum_zero(n, z);
    sum_plus(n, g, f, z);
    neg_plus(sum(n, f));
    cancel(sum(n, g), neg(sum(n, f)), sum(n, f));
}

/// Coefficients of the reduced vectors, spread over all of them.
spec fn spread<T: Scalar>(vs: Seq<Seq<T>>, n: int, q: int, d: Seq<T>) -> Seq<T> {
    let p = vs[q][n - 1];
    Seq::new(
        vs.len(),
        |i: int|
            if i < q {
                d[i]
            } else if i > q {
                d[i - 1]
            } else {
                neg(sum(d.len(), |j: int| d[j].times_spec(vs[skipping(q, j)][n - 1].over_spec(p))))
            },
    )
}

/// Among `n + 1` vectors of length `n` some combination vanishes.
pub proof fn too_many_vectors<T: Field>(vs: Seq<Seq<T>>, n: int) -> (c: Seq<T>)
    requires
        0 <= n,
        vs.len() == n + 1,
    ensures
        vanishing(vs, n, c),
    decreases n,
{
    let zero = T::zero_spec();
    if n == 0 {
        let c = seq![T::one_spec()];
        assert(T::one_spec() != zero) by {
            T::scale_is_unit(zero);
            let u = T::from_real_spec(<T::Real as crate::scalar::Real>::one_spec());
            if T::one_spec() == zero {
                T::times_one(u);
                times_zero(u);
            }
        }
        assert(c[0] != zero);
        c
    } else if exists|q: int| 0 <= q < vs.len() && #[trigger] vs[q][n - 1] != zero {
        let q = choose|q: int| 0 <= q < vs.len() && #[trigger] vs[q][n - 1] != zero;
        let ws = reduced(vs, n, q);
        let d = too_many_vectors(ws, n - 1);
        let c = spread(vs, n, q, d);
        let i = choose|i: int| 0 <= i < d.len() && #[trigger] d[i] != zero;
        assert(c[skipping(q, i)] == d[i]);
        assert forall|r: int| 0 <= r < n implies #[trigger] combination(vs, c, r) == zero by {
            let _ = reduced_sum(vs, n, q, d, r);
            if r == n - 1 {
                let h = |j: int| d[j].times_spec(ws[j][r]);
                assert forall|j: int| 0 <= j < n implies #[trigger] h(j) == zero by {
                    let v = vs[skipping(q, j)];
                    T::over_times(v[n - 1], vs[q][n - 1]);
                    T::minus_plus(v[n - 1], v[n - 1]);
                    zero_plus(v[n - 1]);
                    cancel(v[n - 1].minus_spec(v[n - 1]), zero, v[n - 1]);
                    times_zero(d[j]);
                }
                sum_zero(n as nat, h);
                sum_ext(n as nat, h, |j: int| d[j].times_spec(ws[j][r]));
            }
        }
        c
    } else {
        let ws = vs.take(n);
        let d = too_many_vectors(ws, n - 1);
        let c = d.push(zero);
        let i = choose|i: int| 0 <= i < d.len() && #[trigger] d[i] != zero;
        assert(c[i] != zero);
        assert forall|r: int| 0 <= r < n implies #[trigger] combination(vs, c, r) == zero by {
            let f = |j: int| c[j].times_spec(vs[j][r]);
            if r == n - 1 {
                assert forall|j: int| 0 <= j < n + 1 implies #[trigger] f(j) == zero by {
                    assert(vs[j][n - 1] == zero);
                    times_zero(c[j]);
                }
                sum_zero((n + 1) as nat, f);
            } else {
                assert(combination(ws, d, r) == zero);
                let g = |j: int| d[j].times_spec(ws[j][r]);
                sum_ext(n as nat, f, g);
                times_zero(vs[n][r]);
                T::plus_zero(zero);
                assert(sum((n + 1) as nat, f) == sum(n as nat, f).plus_spec(f(n)));
            }
        }
        c
    }
}

/// The bilinear product as a sum.
pub proof fn dotu_is_sum<T: Scalar>(x: Seq<T>, y: Seq<T>, k: int)
    requires
        0 <= k,
    ensures
        dotu_upto(x, y, k) == sum(k as nat, |i: int| x[i].times_spec(y[i])),
    decreases k,
{
    if k > 0 {
        dotu_is_sum(x, y, k - 1);
        let f = |i: int| x[i].times_spec(y[i]);
        assert(sum(k as nat, f) == sum((k - 1) as nat, f).plus_spec(f(k - 1)));
    }
}

/// A combination of vectors that vanishes, paired with `d`, vanishes too.
proof fn pairing_of_combination<T: Field>(vs: Seq<Seq<T>>, c: Seq<T>, d: Seq<T>, n: int)
    requires
        0 <= n,
        d.len() == n,
        c.len() == vs.len(),
        forall|i: int| 0 <= i < vs.len() ==> (#[trigger] vs[i]).len() == n,
        forall|r: int| 0 <= r < n ==> #[trigger] combination(vs, c, r) == T::zero_spec(),
    ensures
        sum(vs.len(), |i: int| c[i].times_spec(dotu_of(vs[i], d))) == T::zero_spec(),
{
    let k = vs.len();
    let f = |i: int, r: int| c[i].times_spec(vs[i][r].times_spec(d[r]));
    let rows = |i: int| c[i].times_spec(dotu_of(vs[i], d));
    let cols = |r: int| d[r].times_spec(combination(vs, c, r));
    assert forall|i: int| 0 <= i < k implies #[trigger] rows(i) == sum(
        n as nat,
        |r: int| f(i, r),
    ) by {
        dotu_is_sum(vs[i], d, n);
        sum_scale(n as nat, c[i], |r: int| vs[i][r].times_spec(d[r]), |r: int| f(i, r));
    }
    assert forall|r: int| 0 <= r < n implies #[trigger] cols(r) == sum(k, |i: int| f(i, r)) by {
        let g = |i: int| c[i].times_spec(vs[i][r]);
        let h = |i: int| f(i, r);
        assert forall|i: int| 0 <= i < k implies #[trigger] h(i) == d[r].times_spec(g(i)) by {
            T::times_assoc(c[i], vs[i][r], d[r]);
            T::times_comm(g(i), d[r]);
        }
        sum_scale(k, d[r], g, h);
    }
    crate::algebra::sum_exchange(k, n as nat, f, rows, cols);
    assert forall|r: int| 0 <= r < n implies #[trigger] cols(r) == T::zero_spec() by {
        times_zero(d[r]);
    }
    sum_zero(n as nat, cols);
    sum_ext(k, rows, |i: int| c[i].times_spec(dotu_of(vs[i], d)));
}

/// Vector `i` and partner `j` have a product exactly if they belong together.
pub open spec fn paired<T: Scalar>(vs: Seq<Seq<T>>, ds: Seq<Seq<T>>, n: int) -> bool {
    &&& vs.len() == ds.len()
    &&& forall|i: int| 0 <= i < vs.len() ==> (#[trigger] vs[i]).len() == n
    &&& forall|i: int| 0 <= i < ds.len() ==> (#[trigger] ds[i]).len() == n
    &&& forall|i: int, j: int|
        0 <= i < vs.len() && 0 <= j < ds.len() ==> (dotu_of(#[trigger] vs[i], #[trigger] ds[j])
            == T::zero_spec() <==> i != j)
}

/// A combination of vectors with partners, and of one more vector without,
/// vanishes only if the coefficients of the former do.
proof fn partners_single_out<T: Field>(
    vs: Seq<Seq<T>>,
    ds: Seq<Seq<T>>,
    all: Seq<Seq<T>>,
    c: Seq<T>,
    n: int,
    j: int,
)
    requires
        paired(vs, ds, n),
        0 <= n,
        vs.len() <= all.len(),
        forall|i: int| 0 <= i < vs.len() ==> #[trigger] all[i] == vs[i],
        forall|i: int| 0 <= i < all.len() ==> (#[trigger] all[i]).len() == n,
        forall|i: int|
            vs.len() <= i < all.len() ==> dotu_of(#[trigger] all[i], ds[j]) == T::zero_spec(),
        c.len() == all.len(),
        forall|r: int| 0 <= r < n ==> #[trigger] combination(all, c, r) == T::zero_spec(),
        0 <= j < vs.len(),
    ensures
        c[j] == T::zero_spec(),
{
    let zero = T::zero_spec();
    pairing_of_combination(all, c, ds[j], n);
    let f = |i: int| c[i].times_spec(dotu_of(all[i], ds[j]));
    assert forall|i: int| 0 <= i < all.len() && i != j implies #[trigger] f(i) == zero by {
        if i < vs.len() {
            assert(dotu_of(vs[i], ds[j]) == zero);
        }
        times_zero(c[i]);
    }
    crate::algebra::sum_single(all.len(), j, f);
    sum_ext(all.len(), f, |i: int| c[i].times_spec(dotu_of(all[i], ds[j])));
    let p = dotu_of(vs[j], ds[j]);
    assert(p != zero);
    T::times_comm(c[j], p);
    factor_is_zero(p, c[j]);
}

/// There are no more vectors with partners than dimensions.
pub proof fn partners_are_few<T: Field>(vs: Seq<Seq<T>>, ds: Seq<Seq<T>>, n: int)
    requires
        paired(vs, ds, n),
        0 <= n,
    ensures
        vs.len() <= n,
{
    if vs.len() > n {
        let us = vs.take(n + 1);
        let es = ds.take(n + 1);
        let c = too_many_vectors(us, n);
        let i = choose|i: int| 0 <= i < c.len() && #[trigger] c[i] != T::zero_spec();
        assert(paired(us, es, n)) by {
            assert forall|a: int, b: int| 0 <= a < us.len() && 0 <= b < es.len() implies (dotu_of(
                #[trigger] us[a],
                #[trigger] es[b],
            ) == T::zero_spec() <==> a != b) by {
                assert(us[a] == vs[a] && es[b] == ds[b]);
            }
        }
        partners_single_out(us, es, us, c, n, i);
    }
}

/// As many vectors with partners as dimensions leave no other vector without a
/// product with one of the partners.
pub proof fn partners_span<T: Field>(vs: Seq<Seq<T>>, ds: Seq<Seq<T>>, n: int, r: Seq<T>)
    requires
        paired(vs, ds, n),
        0 <= n,
        vs.len() == n,
        r.len() == n,
        forall|j: int| 0 <= j < n ==> dotu_of(r, #[trigger] ds[j]) == T::zero_spec(),
    ensures
        forall|i: int| 0 <= i < n ==> #[trigger] r[i] == T::zero_spec(),
{
    let zero = T::zero_spec();
    let all = vs.push(r);
    let c = too_many_vectors(all, n);
    assert forall|j: int| 0 <= j < n implies #[trigger] c[j] == zero by {
        partners_single_out(vs, ds, all, c, n, j);
    }
    let k = choose|i: int| 0 <= i < c.len() && #[trigger] c[i] != zero;
    assert(k == n);
    assert forall|i: int| 0 <= i < n implies #[trigger] r[i] == zero by {
        assert(combination(all, c, i) == zero);
        let f = |j: int| c[j].times_spec(all[j][i]);
        assert forall|j: int| 0 <= j < n + 1 && j != n implies #[trigger] f(j) == zero by {
            assert(c[j] == zero);
            times_zero(all[j][i]);
        }
        crate::algebra::sum_single((n + 1) as nat, n, f);
        factor_is_zero(c[n], r[i]);
    }
}

} // verus!
