//! Finite sums over a field.

use crate::scalar::{neg, Field, Scalar};
use crate::seqs::{is_permutation, permutation_is_onto};
use vstd::prelude::*;

verus! {

/// `f(0) + f(1) + ... + f(n - 1)`.
pub open spec fn sum<T: Scalar>(n: nat, f: spec_fn(int) -> T) -> T
    decreases n,
{
    if n == 0 {
        T::zero_spec()
    } else {
        sum((n - 1) as nat, f).plus_spec(f(n - 1))
    }
}

pub proof fn zero_plus<T: Field>(a: T)
    ensures
        T::zero_spec().plus_spec(a) == a,
{
    T::plus_comm(T::zero_spec(), a);
    T::plus_zero(a);
}

pub proof fn neg_plus<T: Field>(a: T)
    ensures
        neg(a).plus_spec(a) == T::zero_spec(),
        a.plus_spec(neg(a)) == T::zero_spec(),
{
    T::minus_plus(T::zero_spec(), a);
    T::plus_comm(a, neg(a));
}

/// Equal summands may be cancelled.
pub proof fn cancel<T: Field>(a: T, b: T, c: T)
    requires
        a.plus_spec(c) == b.plus_spec(c),
    ensures
        a == b,
{
    T::plus_assoc(a, c, neg(c));
    T::plus_assoc(b, c, neg(c));
    neg_plus(c);
    T::plus_zero(a);
    T::plus_zero(b);
}

pub proof fn times_zero<T: Field>(a: T)
    ensures
        a.times_spec(T::zero_spec()) == T::zero_spec(),
        T::zero_spec().times_spec(a) == T::zero_spec(),
{
    let z = T::zero_spec();
    let p = a.times_spec(z);
    T::distributes(a, z, z);
    T::plus_zero(z);
    zero_plus(p);
    cancel(z, p, p);
    T::times_comm(a, z);
}

/// `(0 - a) * b` is the negative of `a * b`.
pub proof fn neg_times<T: Field>(a: T, b: T)
    ensures
        neg(a).times_spec(b).plus_spec(a.times_spec(b)) == T::zero_spec(),
{
    T::times_comm(neg(a), b);
    T::times_comm(a, b);
    T::distributes(b, neg(a), a);
    neg_plus(a);
    times_zero(b);
}

/// Subtracting `a * b` by a fused step, then adding it back, changes nothing.
pub proof fn fmadd_cancels<T: Field>(a: T, b: T, c: T)
    ensures
        neg(a).fmadd_spec(b, c).plus_spec(a.times_spec(b)) == c,
        b.fmadd_spec(neg(a), c).plus_spec(a.times_spec(b)) == c,
{
    let x = neg(a).times_spec(b);
    let y = a.times_spec(b);
    T::fmadd_exact(neg(a), b, c);
    T::fmadd_exact(b, neg(a), c);
    T::times_comm(b, neg(a));
    neg_times(a, b);
    T::plus_comm(x, c);
    T::plus_assoc(c, x, y);
    T::plus_zero(c);
}

pub proof fn sum_ext<T: Scalar>(n: nat, f: spec_fn(int) -> T, g: spec_fn(int) -> T)
    requires
        forall|i: int| 0 <= i < n ==> #[trigger] f(i) == g(i),
    ensures
        sum(n, f) == sum(n, g),
    decreases n,
{
    if n > 0 {
        sum_ext((n - 1) as nat, f, g);
        assert(f(n - 1) == g(n - 1));
    }
}

pub proof fn sum_zero<T: Field>(n: nat, f: spec_fn(int) -> T)
    requires
        forall|i: int| 0 <= i < n ==> #[trigger] f(i) == T::zero_spec(),
    ensures
        sum(n, f) == T::zero_spec(),
    decreases n,
{
    if n > 0 {
        sum_zero((n - 1) as nat, f);
        assert(f(n - 1) == T::zero_spec());
        T::plus_zero(T::zero_spec());
    }
}

/// `(a + b) + (c + d) == (a + c) + (b + d)`.
pub proof fn plus_shuffle<T: Field>(a: T, b: T, c: T, d: T)
    ensures
        a.plus_spec(b).plus_spec(c.plus_spec(d)) == a.plus_spec(c).plus_spec(b.plus_spec(d)),
{
    T::plus_assoc(a, b, c.plus_spec(d));
    T::plus_assoc(b, c, d);
    T::plus_comm(b, c);
    T::plus_assoc(c, b, d);
    T::plus_assoc(a, c, b.plus_spec(d));
}

pub proof fn sum_plus<T: Field>(
    n: nat,
    f: spec_fn(int) -> T,
    g: spec_fn(int) -> T,
    h: spec_fn(int) -> T,
)
    requires
        forall|i: int| 0 <= i < n ==> #[trigger] h(i) == f(i).plus_spec(g(i)),
    ensures
        sum(n, h) == sum(n, f).plus_spec(sum(n, g)),
    decreases n,
{
    if n == 0 {
        T::plus_zero(T::zero_spec());
    } else {
        let k = (n - 1) as nat;
        sum_plus(k, f, g, h);
        assert(h(n - 1) == f(n - 1).plus_spec(g(n - 1)));
        plus_shuffle(sum(k, f), sum(k, g), f(n - 1), g(n - 1));
    }
}

pub proof fn sum_scale<T: Field>(n: nat, c: T, f: spec_fn(int) -> T, h: spec_fn(int) -> T)
    requires
        forall|i: int| 0 <= i < n ==> #[trigger] h(i) == c.times_spec(f(i)),
    ensures
        sum(n, h) == c.times_spec(sum(n, f)),
    decreases n,
{
    if n == 0 {
        times_zero(c);
    } else {
        let k = (n - 1) as nat;
        sum_scale(k, c, f, h);
        assert(h(n - 1) == c.times_spec(f(n - 1)));
        T::distributes(c, sum(k, f), f(n - 1));
    }
}

/// Raising one summand from zero to `g(k)` raises the sum by `g(k)`.
pub proof fn sum_bump<T: Field>(n: nat, k: int, f: spec_fn(int) -> T, g: spec_fn(int) -> T)
    requires
        0 <= k < n,
        f(k) == T::zero_spec(),
        forall|i: int| 0 <= i < n && i != k ==> #[trigger] g(i) == f(i),
    ensures
        sum(n, g) == sum(n, f).plus_spec(g(k)),
    decreases n,
{
    let m = (n - 1) as nat;
    if k == n - 1 {
        sum_ext(m, g, f);
        T::plus_zero(sum(m, f));
    } else {
        sum_bump(m, k, f, g);
        assert(g(n - 1) == f(n - 1));
        let s = sum(m, f);
        T::plus_assoc(s, g(k), f(n - 1));
        T::plus_comm(g(k), f(n - 1));
        T::plus_assoc(s, f(n - 1), g(k));
    }
}

/// A sum with a single summand that may differ from zero.
pub proof fn sum_single<T: Field>(n: nat, k: int, f: spec_fn(int) -> T)
    requires
        0 <= k < n,
        forall|i: int| 0 <= i < n && i != k ==> #[trigger] f(i) == T::zero_spec(),
    ensures
        sum(n, f) == f(k),
{
    let z = |i: int| T::zero_spec();
    sum_zero(n, z);
    sum_bump(n, k, z, f);
    zero_plus(f(k));
}

/// A double sum may be taken in either order.
pub proof fn sum_exchange<T: Field>(
    n: nat,
    m: nat,
    f: spec_fn(int, int) -> T,
    rows: spec_fn(int) -> T,
    cols: spec_fn(int) -> T,
)
    requires
        forall|i: int| 0 <= i < n ==> #[trigger] rows(i) == sum(m, |j: int| f(i, j)),
        forall|j: int| 0 <= j < m ==> #[trigger] cols(j) == sum(n, |i: int| f(i, j)),
    ensures
        sum(n, rows) == sum(m, cols),
    decreases n,
{
    if n == 0 {
        assert forall|j: int| 0 <= j < m implies #[trigger] cols(j) == T::zero_spec() by {}
        sum_zero(m, cols);
    } else {
        let k = (n - 1) as nat;
        let cols1 = |j: int| sum(k, |i: int| f(i, j));
        let last = |j: int| f(n - 1, j);
        assert forall|j: int| 0 <= j < m implies #[trigger] cols1(j) == sum(k, |i: int| f(i, j)) by {}
        sum_exchange(k, m, f, rows, cols1);
        assert forall|j: int| 0 <= j < m implies #[trigger] cols(j) == cols1(j).plus_spec(last(j)) by {
            let g = |i: int| f(i, j);
            assert(sum(n, g) == sum(k, g).plus_spec(g(n - 1)));
        }
        sum_plus(m, cols1, last, cols);
        assert(rows(n - 1) == sum(m, |j: int| f(n - 1, j)));
        sum_ext(m, last, |j: int| f(n - 1, j));
    }
}

/// A sum in two parts.
pub proof fn sum_split<T: Field>(n: nat, m: nat, f: spec_fn(int) -> T, g: spec_fn(int) -> T)
    requires
        forall|i: int| 0 <= i < m ==> #[trigger] g(i) == f(n + i),
    ensures
        sum(n + m, f) == sum(n, f).plus_spec(sum(m, g)),
    decreases m,
{
    if m == 0 {
        T::plus_zero(sum(n, f));
    } else {
        let k = (m - 1) as nat;
        sum_split(n, k, f, g);
        assert(g(m - 1) == f(n + m - 1));
        T::plus_assoc(sum(n, f), sum(k, g), g(m - 1));
    }
}

/// A sum may be taken in any order.
pub proof fn sum_permuted<T: Field>(
    n: nat,
    p: Seq<usize>,
    f: spec_fn(int) -> T,
    g: spec_fn(int) -> T,
)
    requires
        is_permutation(p, n as int),
        forall|j: int| 0 <= j < n ==> #[trigger] g(j) == f(p[j] as int),
    ensures
        sum(n, g) == sum(n, f),
{
    let pick = |j: int, c: int|
        if p[j] == c {
            f(c)
        } else {
            T::zero_spec()
        };
    assert forall|j: int| 0 <= j < n implies #[trigger] g(j) == sum(n, |c: int| pick(j, c)) by {
        let h = |c: int| pick(j, c);
        assert(p[j] < n);
        sum_single(n, p[j] as int, h);
    }
    assert forall|c: int| 0 <= c < n implies #[trigger] f(c) == sum(n, |j: int| pick(j, c)) by {
        let h = |j: int| pick(j, c);
        permutation_is_onto(p, n as int, c);
        let k = choose|k: int| 0 <= k < p.len() && #[trigger] p[k] == c;
        assert forall|j: int| 0 <= j < n && j != k implies #[trigger] h(j) == T::zero_spec() by {
            if j < k {
                assert(p[j] != p[k]);
            } else {
                assert(p[k] != p[j]);
            }
        }
        sum_single(n, k, h);
    }
    sum_exchange(n, n, pick, g, f);
}

/// Terms past `k` that vanish do not count.
pub proof fn sum_tail<T: Field>(n: nat, k: nat, f: spec_fn(int) -> T)
    requires
        k <= n,
        forall|e: int| k <= e < n ==> #[trigger] f(e) == T::zero_spec(),
    ensures
        sum(n, f) == sum(k, f),
    decreases n,
{
    if k < n {
        sum_tail((n - 1) as nat, k, f);
        assert(f(n - 1) == T::zero_spec());
        T::plus_zero(sum((n - 1) as nat, f));
    }
}

/// A sum whose terms vanish outside `lo..lo + m`.
pub proof fn sum_window<T: Field>(
    n: nat,
    lo: nat,
    m: nat,
    f: spec_fn(int) -> T,
    g: spec_fn(int) -> T,
)
    requires
        lo + m <= n,
        forall|i: int| 0 <= i < lo ==> #[trigger] f(i) == T::zero_spec(),
        forall|i: int| lo + m <= i < n ==> #[trigger] f(i) == T::zero_spec(),
        forall|i: int| 0 <= i < m ==> #[trigger] g(i) == f(lo + i),
    ensures
        sum(n, f) == sum(m, g),
{
    sum_tail(n, lo + m, f);
    sum_split(lo, m, f, g);
    sum_zero(lo, f);
    zero_plus(sum(m, g));
}

} // verus!
