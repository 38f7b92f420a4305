//! The diagonal kernel splits a front exactly.

use crate::algebra::{sum, sum_ext, sum_single, sum_tail, times_zero};
use crate::multifrontal::kernel::{
    after, cell, diagonal_pivot, diagonally_eliminated, usable, FrontalFactors,
};
use crate::scalar::{Field, Scalar};
use vstd::prelude::*;

verus! {

/// `l d l'` for one pivot.
spec fn pivot_term<T: Scalar>(ff: FrontalFactors<T>, i: int, j: int) -> spec_fn(int) -> T {
    |e: int| ff.l_at(i, e).times_spec(ff.d_diag@[e]).times_spec(ff.l_at(j, e))
}

/// The product is a single sum where `D` is diagonal.
proof fn product_is_single<T: Field>(ff: FrontalFactors<T>, i: int, j: int)
    requires
        forall|e: int| 0 <= e < ff.nelim ==> #[trigger] ff.d_subdiag@[e] == T::zero_spec(),
    ensures
        ff.product_at(i, j) == sum(ff.nelim as nat, pivot_term(ff, i, j)),
{
    let n = ff.nelim as nat;
    let g = pivot_term(ff, i, j);
    let outer = |e: int|
        sum(n, |f: int| ff.l_at(i, e).times_spec(ff.d_at(e, f)).times_spec(ff.l_at(j, f)));
    assert forall|e: int| 0 <= e < n implies #[trigger] outer(e) == g(e) by {
        let inner = |f: int| ff.l_at(i, e).times_spec(ff.d_at(e, f)).times_spec(ff.l_at(j, f));
        assert forall|f: int| 0 <= f < n && f != e implies #[trigger] inner(f) == T::zero_spec() by {
            assert(ff.d_at(e, f) == T::zero_spec());
            times_zero(ff.l_at(i, e));
            T::times_comm(T::zero_spec(), ff.l_at(j, f));
            times_zero(ff.l_at(j, f));
        }
        sum_single(n, e, inner);
    }
    sum_ext(n, outer, g);
}

/// What was eliminated and what is left add up to the front.
proof fn elimination_adds_up<T: Field>(front: Seq<T>, m: int, ff: FrontalFactors<T>, k: int, i: int, j: int)
    requires
        0 <= k <= ff.nelim,
        k <= j <= i < m,
        ff.nrow == m,
        ff.nelim <= m,
        diagonally_eliminated(front, m, ff.nelim as int, ff),
    ensures
        front[cell(m, i, j)] == sum(k as nat, pivot_term(ff, i, j)).plus_spec(
            after(front, m, k, i, j),
        ),
    decreases k,
{
    let g = pivot_term(ff, i, j);
    if k == 0 {
        crate::algebra::zero_plus(front[cell(m, i, j)]);
    } else {
        let e = k - 1;
        elimination_adds_up(front, m, ff, e, i, j);
        let d = diagonal_pivot(front, m, e);
        assert(ff.d_diag@[e] == d && usable(ff.d_diag@[e]));
        T::zero_test(d);
        let ai = after(front, m, e, i, e);
        let aj = after(front, m, e, j, e);
        let li = ai.over_spec(d);
        let lj = aj.over_spec(d);
        assert(ff.l_at(i, e) == li);
        assert(ff.l_at(j, e) == lj);
        // li d lj = li aj
        T::over_times(aj, d);
        T::times_comm(lj, d);
        T::times_assoc(li, d, lj);
        assert(g(e) == li.times_spec(aj));
        let rest = after(front, m, e, i, j);
        let p = li.times_spec(aj);
        // rest = (rest - p) + p
        T::minus_plus(rest, p);
        T::plus_comm(rest.minus_spec(p), p);
        let s = sum(e as nat, g);
        T::plus_assoc(s, p, rest.minus_spec(p));
    }
}

/// A front factored by the diagonal kernel is `L D L^T` plus the contribution.
pub proof fn diagonal_kernel_splits<T: Field>(front: Seq<T>, m: int, ncol: int, ff: FrontalFactors<T>)
    requires
        ff.shaped(m, ncol),
        diagonally_eliminated(front, m, ncol, ff),
    ensures
        ff.splits(front),
{
    let n = ff.nelim as int;
    assert forall|i: int, j: int|
        #![trigger ff.product_at(i, j)]
        0 <= j <= i < ff.nrow implies front[cell(m, ff.perm@[i] as int, ff.perm@[j] as int)]
        == ff.product_at(i, j).plus_spec(ff.rest_at(i, j)) by {
        let g = pivot_term(ff, i, j);
        assert(ff.perm@[i] == i && ff.perm@[j] == j);
        product_is_single(ff, i, j);
        if j >= n {
            elimination_adds_up(front, m, ff, n, i, j);
            assert(ff.rest_at(i, j) == ff.trailing@[cell(m - n, i - n, j - n)]);
            assert(after(front, m, n, n + (i - n), n + (j - n)) == ff.trailing@[cell(
                m - n,
                i - n,
                j - n,
            )]);
        } else {
            elimination_adds_up(front, m, ff, j, i, j);
            let d = diagonal_pivot(front, m, j);
            assert(ff.d_diag@[j] == d && usable(ff.d_diag@[j]));
            T::zero_test(d);
            let a = after(front, m, j, i, j);
            assert(g(j) == a) by {
                assert(ff.l_at(j, j) == T::one_spec());
                if i == j {
                    T::times_comm(T::one_spec(), d);
                    T::times_one(d);
                } else {
                    assert(ff.l_at(i, j) == a.over_spec(d));
                    T::over_times(a, d);
                    T::times_one(a);
                }
            }
            assert forall|e: int| j + 1 <= e < n implies #[trigger] g(e) == T::zero_spec() by {
                assert(ff.l_at(j, e) == T::zero_spec());
                times_zero(ff.l_at(i, e).times_spec(ff.d_diag@[e]));
            }
            sum_tail(n as nat, (j + 1) as nat, g);
            assert(sum((j + 1) as nat, g) == sum(j as nat, g).plus_spec(g(j)));
            T::plus_zero(ff.product_at(i, j));
        }
    }
}

} // verus!
