//! What a factored block means in exact arithmetic.

use crate::algebra::{
    fmadd_cancels, sum, sum_bump, sum_exchange, sum_ext, sum_scale, sum_zero, times_zero,
    zero_plus,
};
use crate::klu::block::BlockLu;
use crate::klu::model::{axpy, column_ok, elim, elim_len};
use crate::klu::subst::{gather, spread};
use crate::scalar::{neg, Field, Scalar};
use crate::seqs::{below, distinct, occurs};
use crate::sparse::{col_map, col_map_at, dense, entry, position, SparseColumn};
use vstd::prelude::*;

verus! {

impl<T: Scalar> BlockLu<T> {
    /// The entry of `L` in row `r` and column `k`.
    pub open spec fn l_at(&self, r: int, k: int) -> T {
        if self.fin@[r] == k {
            T::one_spec()
        } else {
            entry(self.lm()[k], r)
        }
    }

    /// The entry of `U` in step `k` and column `j`.
    pub open spec fn u_at(&self, k: int, j: int) -> T {
        if k == j {
            self.d@[j]
        } else {
            entry(self.um()[j], k)
        }
    }

    /// No pivot is zero.
    pub open spec fn nonsingular(&self, m: int) -> bool {
        forall|c: int| 0 <= c < m ==> #[trigger] self.d@[c] != T::zero_spec()
    }
}

/// The part of a `U` column that the first `t` eliminations produced.
spec fn u_part<T: Scalar>(order: Seq<usize>, uv: Seq<T>, t: int, k: int) -> T {
    entry(col_map(order.take(t), uv.take(t)), k)
}

proof fn u_part_step<T: Scalar>(order: Seq<usize>, uv: Seq<T>, t: int)
    requires
        distinct(order),
        order.len() == uv.len(),
        0 <= t < order.len(),
    ensures
        u_part(order, uv, t, order[t] as int) == T::zero_spec(),
        u_part(order, uv, t + 1, order[t] as int) == uv[t],
        forall|k: int|
            k != order[t] ==> #[trigger] u_part(order, uv, t + 1, k) == u_part(order, uv, t, k),
{
    let p = order[t] as int;
    let o1 = order.take(t);
    let o2 = order.take(t + 1);
    let v1 = uv.take(t);
    let v2 = uv.take(t + 1);
    assert(distinct(o2)) by {
        assert forall|a: int, b: int| 0 <= a < b < o2.len() implies #[trigger] o2[a] != #[trigger] o2[b] by {
            assert(order[a] != order[b]);
        }
    }
    assert(distinct(o1)) by {
        assert forall|a: int, b: int| 0 <= a < b < o1.len() implies #[trigger] o1[a] != #[trigger] o1[b] by {
            assert(order[a] != order[b]);
        }
    }
    if occurs(o1, p) {
        let q = position(o1, p);
        assert(order[q] != order[t]);
    }
    assert(o2[t] == p);
    col_map_at(o2, v2, t);
    assert forall|k: int| k != p implies #[trigger] u_part(order, uv, t + 1, k) == u_part(order, uv, t, k) by {
        if occurs(o1, k) {
            let q = position(o1, k);
            assert(o2[q] == k);
            col_map_at(o1, v1, q);
            col_map_at(o2, v2, q);
        } else if occurs(o2, k) {
            let q = position(o2, k);
            assert(o1[q] == k);
        }
    }
}

/// One elimination step, undone.
proof fn elim_step_undone<T: Field>(
    lu: BlockLu<T>,
    m: int,
    v: Seq<T>,
    p: int,
    r: int,
)
    requires
        lu.ready(m),
        v.len() == m,
        0 <= p < m,
        0 <= r < m,
    ensures
        ({
            let pr = lu.piv@[p] as int;
            let x = v[pr];
            v[r] == axpy(v.update(pr, T::zero_spec()), neg(x), lu.lm()[p])[r].plus_spec(
                lu.l_at(r, p).times_spec(x),
            )
        }),
{
    let pr = lu.piv@[p] as int;
    let x = v[pr];
    lu.rows_in_range(m, p);
    assert(lu.fin@[pr] == p);
    lu.all_pivotal(m, r);
    let w = axpy(v.update(pr, T::zero_spec()), neg(x), lu.lm()[p]);
    if r == pr {
        if lu.lm()[p].contains_key(r) {
            assert(occurs(lu.l_rows@[p]@, r));
            assert(lu.fin@[r] > p);
        }
        assert(w[r] == T::zero_spec());
        T::times_comm(T::one_spec(), x);
        T::times_one(x);
        zero_plus(x);
    } else {
        assert(lu.fin@[r] != p);
        if lu.lm()[p].contains_key(r) {
            let l = lu.lm()[p][r];
            assert(w[r] == neg(x).fmadd_spec(l, v[r]));
            fmadd_cancels(x, l, v[r]);
            T::times_comm(x, l);
        } else {
            times_zero(x);
            T::plus_zero(v[r]);
        }
    }
}

/// While a column is eliminated, the work vector and the part of the column
/// already explained add up to the column.
proof fn elimination_balance<T: Field>(
    lu: BlockLu<T>,
    m: int,
    cols: Seq<SparseColumn<T>>,
    c: int,
    t: int,
    r: int,
)
    requires
        lu.ready(m),
        lu.valued(m, m, cols),
        0 <= c < m,
        0 <= r < m,
        0 <= t <= lu.u_rows@[c]@.len(),
    ensures
        entry(cols[c]@, r) == elim(dense(m, cols[c]@), lu.piv@, lu.lm(), lu.u_rows@[c]@, t)[r].plus_spec(
            sum(
                m as nat,
                |k: int| lu.l_at(r, k).times_spec(u_part(lu.u_rows@[c]@, lu.u_vals@[c]@, t, k)),
            ),
        ),
    decreases t,
{
    let order = lu.u_rows@[c]@;
    let uv = lu.u_vals@[c]@;
    let w0 = dense(m, cols[c]@);
    lu.rows_in_range(m, c);
    assert(column_ok(m, c, cols[c]@, lu.piv@, lu.lm(), order, uv, lu.d@[c]));
    assert forall|i: int| 0 <= i < order.len() implies 0 <= lu.piv@[#[trigger] order[i] as int] < w0.len() by {
        assert(order[i] < m);
        lu.rows_in_range(m, order[i] as int);
    }
    elim_len(w0, lu.piv@, lu.lm(), order, t);
    let f = |k: int| lu.l_at(r, k).times_spec(u_part(order, uv, t, k));
    if t == 0 {
        assert forall|k: int| 0 <= k < m implies #[trigger] f(k) == T::zero_spec() by {
            assert(order.take(0) =~= Seq::<usize>::empty());
            assert(!occurs(order.take(0), k));
            times_zero(lu.l_at(r, k));
        }
        sum_zero(m as nat, f);
        T::plus_zero(w0[r]);
    } else {
        elimination_balance(lu, m, cols, c, t - 1, r);
        elim_len(w0, lu.piv@, lu.lm(), order, t - 1);
        let f0 = |k: int| lu.l_at(r, k).times_spec(u_part(order, uv, t - 1, k));
        let p = order[t - 1] as int;
        assert(order[t - 1] < m);
        let v = elim(w0, lu.piv@, lu.lm(), order, t - 1);
        let x = v[lu.piv@[p] as int];
        assert(uv[t - 1] == x);
        u_part_step(order, uv, t - 1);
        times_zero(lu.l_at(r, p));
        assert(f0(p) == T::zero_spec());
        assert forall|k: int| 0 <= k < m && k != p implies #[trigger] f(k) == f0(k) by {}
        sum_bump(m as nat, p, f0, f);
        elim_step_undone(lu, m, v, p, r);
        let w = elim(w0, lu.piv@, lu.lm(), order, t);
        let g = lu.l_at(r, p).times_spec(x);
        assert(v[r] == w[r].plus_spec(g));
        let s = sum(m as nat, f0);
        T::plus_assoc(w[r], g, s);
        T::plus_comm(g, s);
    }
}

/// A factored block is the product of its factors: the entry of the block in
/// row `r` and column `c` is the sum of `L[r, k] * U[k, c]` over the steps `k`.
pub proof fn factors_multiply_to_the_block<T: Field>(
    lu: BlockLu<T>,
    m: int,
    cols: Seq<SparseColumn<T>>,
    r: int,
    c: int,
)
    requires
        lu.ready(m),
        lu.valued(m, m, cols),
        lu.nonsingular(m),
        0 <= r < m,
        0 <= c < m,
    ensures
        entry(cols[c]@, r) == sum(m as nat, |k: int| lu.l_at(r, k).times_spec(lu.u_at(k, c))),
{
    let order = lu.u_rows@[c]@;
    let uv = lu.u_vals@[c]@;
    let n = order.len() as int;
    let d = lu.d@[c];
    assert(d != T::zero_spec());
    lu.rows_in_range(m, c);
    elimination_balance(lu, m, cols, c, n, r);
    assert(order.take(n) =~= order);
    assert(uv.take(n) =~= uv);
    assert(column_ok(m, c, cols[c]@, lu.piv@, lu.lm(), order, uv, d));
    let w = elim(dense(m, cols[c]@), lu.piv@, lu.lm(), order, n);
    let f = |k: int| lu.l_at(r, k).times_spec(u_part(order, uv, n, k));
    let g = |k: int| lu.l_at(r, k).times_spec(lu.u_at(k, c));
    if occurs(order, c) {
        let q = position(order, c);
        assert(order[q] < c);
    }
    times_zero(lu.l_at(r, c));
    assert(f(c) == T::zero_spec());
    assert forall|k: int| 0 <= k < m && k != c implies #[trigger] g(k) == f(k) by {}
    sum_bump(m as nat, c, f, g);
    // What is left in row `r` is `L[r, c] * d`.
    lu.all_pivotal(m, r);
    assert(lu.fin@[lu.piv@[c] as int] == c);
    let pc = lu.piv@[c] as int;
    assert(w[r] == lu.l_at(r, c).times_spec(d)) by {
        if r == pc {
            T::times_comm(T::one_spec(), d);
            T::times_one(d);
        } else {
            assert(lu.fin@[r] != c);
            if lu.lm()[c].contains_key(r) {
                T::over_times(w[r], d);
            } else {
                assert(w[r] == T::zero_spec());
                times_zero(d);
            }
        }
    }
    T::plus_comm(w[r], sum(m as nat, f));
}

/// A spread takes the multiple of the column away, also where it skips a zero.
pub proof fn spread_is_subtraction<T: Field>(w: Seq<T>, c: Map<int, T>, x: T, r: int)
    requires
        0 <= r < w.len(),
    ensures
        spread(w, c, x).len() == w.len(),
        w[r] == spread(w, c, x)[r].plus_spec(entry(c, r).times_spec(x)),
{
    let v = spread(w, c, x);
    let l = entry(c, r);
    if x.is_zero_spec() {
        T::zero_test(x);
        times_zero(l);
        T::plus_zero(w[r]);
    } else if c.contains_key(r) {
        fmadd_cancels(x, l, w[r]);
        T::times_comm(x, l);
    } else {
        times_zero(x);
        T::plus_zero(w[r]);
    }
}

proof fn forward_len<T: Scalar>(lu: BlockLu<T>, w: Seq<T>, k: int)
    ensures
        lu.forward(w, k).len() == w.len(),
    decreases k,
{
    if k > 0 {
        forward_len(lu, w, k - 1);
    }
}

/// A row that is pivotal before step `k` is not touched from step `k` on.
proof fn forward_keeps<T: Scalar>(
    lu: BlockLu<T>,
    m: int,
    w: Seq<T>,
    k: int,
    k2: int,
    r: int,
)
    requires
        lu.ready(m),
        w.len() == m,
        0 <= k <= k2 <= m,
        0 <= r < m,
        lu.fin@[r] <= k,
    ensures
        lu.forward(w, k2)[r] == lu.forward(w, k)[r],
    decreases k2,
{
    if k < k2 {
        forward_keeps(lu, m, w, k, k2 - 1, r);
        forward_len(lu, w, k2 - 1);
        lu.rows_in_range(m, k2 - 1);
        if lu.lm()[k2 - 1].contains_key(r) {
            assert(occurs(lu.l_rows@[k2 - 1]@, r));
            assert(lu.fin@[r] > k2 - 1);
        }
    }
}

/// The right-hand side is `L` times the forward unknowns found so far plus
/// what is left.
proof fn forward_balance<T: Field>(
    lu: BlockLu<T>,
    m: int,
    w: Seq<T>,
    k: int,
    r: int,
)
    requires
        lu.ready(m),
        w.len() == m,
        0 <= k <= m,
        0 <= r < m,
    ensures
        w[r] == (if lu.fin@[r] < k {
            T::zero_spec()
        } else {
            lu.forward(w, k)[r]
        }).plus_spec(
            sum(
                m as nat,
                |i: int|
                    lu.l_at(r, i).times_spec(
                        if i < k {
                            lu.forward(w, m)[lu.piv@[i] as int]
                        } else {
                            T::zero_spec()
                        },
                    ),
            ),
        ),
    decreases k,
{
    let y = lu.forward(w, m);
    let f = |i: int|
        lu.l_at(r, i).times_spec(
            if i < k {
                y[lu.piv@[i] as int]
            } else {
                T::zero_spec()
            },
        );
    lu.all_pivotal(m, r);
    if k == 0 {
        assert forall|i: int| 0 <= i < m implies #[trigger] f(i) == T::zero_spec() by {
            times_zero(lu.l_at(r, i));
        }
        sum_zero(m as nat, f);
        T::plus_zero(w[r]);
    } else {
        let c = k - 1;
        forward_balance(lu, m, w, c, r);
        let f0 = |i: int|
            lu.l_at(r, i).times_spec(
                if i < c {
                    y[lu.piv@[i] as int]
                } else {
                    T::zero_spec()
                },
            );
        lu.rows_in_range(m, c);
        let pc = lu.piv@[c] as int;
        assert(lu.fin@[pc] == c);
        forward_keeps(lu, m, w, c, m, pc);
        forward_len(lu, w, c);
        forward_len(lu, w, k);
        let v = lu.forward(w, c);
        let v2 = lu.forward(w, k);
        let x = v[pc];
        assert(y[pc] == x);
        times_zero(lu.l_at(r, c));
        assert(f0(c) == T::zero_spec());
        assert forall|i: int| 0 <= i < m && i != c implies #[trigger] f(i) == f0(i) by {}
        sum_bump(m as nat, c, f0, f);
        let g = lu.l_at(r, c).times_spec(x);
        let a0 = if lu.fin@[r] < c { T::zero_spec() } else { v[r] };
        let a1 = if lu.fin@[r] < k { T::zero_spec() } else { v2[r] };
        assert(a0 == a1.plus_spec(g)) by {
            if r == pc {
                T::times_comm(T::one_spec(), x);
                T::times_one(x);
                zero_plus(x);
            } else {
                if lu.fin@[r] == c {
                    assert(lu.piv@[lu.fin@[r] as int] == r);
                }
                if lu.fin@[r] < c {
                    if lu.lm()[c].contains_key(r) {
                        assert(occurs(lu.l_rows@[c]@, r));
                        assert(lu.fin@[r] > c);
                    }
                    times_zero(x);
                    T::plus_zero(T::zero_spec());
                } else {
                    spread_is_subtraction(v, lu.lm()[c], x, r);
                }
            }
        }
        let s = sum(m as nat, f0);
        T::plus_assoc(a1, g, s);
        T::plus_comm(g, s);
    }
}

proof fn backward_len<T: Scalar>(lu: BlockLu<T>, y: Seq<T>, k: int)
    requires
        y.len() == lu.m(),
        0 <= k <= lu.m(),
    ensures
        lu.backward(y, k).len() == y.len(),
    decreases lu.m() - k,
{
    if k < lu.m() {
        backward_len(lu, y, k + 1);
    }
}

/// An unknown is final once its own column is done.
proof fn backward_keeps<T: Scalar>(
    lu: BlockLu<T>,
    m: int,
    y: Seq<T>,
    k: int,
    k2: int,
    j: int,
)
    requires
        lu.ready(m),
        y.len() == m,
        0 <= k2 <= k <= j < m,
    ensures
        lu.backward(y, k2)[j] == lu.backward(y, k)[j],
    decreases k - k2,
{
    if k2 < k {
        backward_keeps(lu, m, y, k, k2 + 1, j);
        backward_len(lu, y, k2 + 1);
        lu.rows_in_range(m, k2);
        if lu.um()[k2].contains_key(j) {
            let q = position(lu.u_rows@[k2]@, j);
            assert(lu.u_rows@[k2]@[q] < k2);
        }
    }
}

/// The forward unknowns are `U` times the unknowns found so far plus what is
/// left.
proof fn backward_balance<T: Field>(
    lu: BlockLu<T>,
    m: int,
    y: Seq<T>,
    k: int,
    i: int,
)
    requires
        lu.ready(m),
        lu.nonsingular(m),
        y.len() == m,
        0 <= k <= m,
        0 <= i < m,
    ensures
        y[i] == (if i >= k {
            T::zero_spec()
        } else {
            lu.backward(y, k)[i]
        }).plus_spec(
            sum(
                m as nat,
                |j: int|
                    lu.u_at(i, j).times_spec(
                        if j >= k {
                            lu.backward(y, 0)[j]
                        } else {
                            T::zero_spec()
                        },
                    ),
            ),
        ),
    decreases m - k,
{
    let z = lu.backward(y, 0);
    let f = |j: int|
        lu.u_at(i, j).times_spec(
            if j >= k {
                z[j]
            } else {
                T::zero_spec()
            },
        );
    if k == m {
        assert forall|j: int| 0 <= j < m implies #[trigger] f(j) == T::zero_spec() by {
            times_zero(lu.u_at(i, j));
        }
        sum_zero(m as nat, f);
        T::plus_zero(y[i]);
    } else {
        backward_balance(lu, m, y, k + 1, i);
        let f0 = |j: int|
            lu.u_at(i, j).times_spec(
                if j >= k + 1 {
                    z[j]
                } else {
                    T::zero_spec()
                },
            );
        lu.rows_in_range(m, k);
        backward_len(lu, y, k + 1);
        backward_len(lu, y, k);
        let v = lu.backward(y, k + 1);
        let x = v[k].over_spec(lu.d@[k]);
        let v1 = v.update(k, x);
        let v2 = lu.backward(y, k);
        assert(!lu.um()[k].contains_key(k)) by {
            if occurs(lu.u_rows@[k]@, k) {
                let q = position(lu.u_rows@[k]@, k);
                assert(lu.u_rows@[k]@[q] < k);
            }
        }
        assert(v2[k] == x);
        backward_keeps(lu, m, y, k, 0, k);
        assert(z[k] == x);
        times_zero(lu.u_at(i, k));
        assert(f0(k) == T::zero_spec());
        assert forall|j: int| 0 <= j < m && j != k implies #[trigger] f(j) == f0(j) by {}
        sum_bump(m as nat, k, f0, f);
        let g = lu.u_at(i, k).times_spec(x);
        let a0 = if i >= k + 1 { T::zero_spec() } else { v[i] };
        let a1 = if i >= k { T::zero_spec() } else { v2[i] };
        assert(a0 == a1.plus_spec(g)) by {
            if i == k {
                assert(lu.d@[k] != T::zero_spec());
                T::over_times(v[k], lu.d@[k]);
                T::times_comm(x, lu.d@[k]);
                zero_plus(v[k]);
            } else if i > k {
                if occurs(lu.u_rows@[k]@, i) {
                    let q = position(lu.u_rows@[k]@, i);
                    assert(lu.u_rows@[k]@[q] < k);
                }
                times_zero(x);
                T::plus_zero(T::zero_spec());
            } else {
                spread_is_subtraction(v1, lu.um()[k], x, i);
            }
        }
        let s = sum(m as nat, f0);
        T::plus_assoc(a1, g, s);
        T::plus_comm(g, s);
    }
}

/// Rows of `L U z` summed over the columns are rows of `L` times `U z`.
proof fn product_applied<T: Field>(
    m: nat,
    l: spec_fn(int) -> T,
    u: spec_fn(int, int) -> T,
    z: spec_fn(int) -> T,
    b: spec_fn(int) -> T,
    y: spec_fn(int) -> T,
)
    requires
        forall|j: int| 0 <= j < m ==> #[trigger] b(j) == sum(m, |k: int| l(k).times_spec(u(k, j))),
        forall|k: int| 0 <= k < m ==> #[trigger] y(k) == sum(m, |j: int| u(k, j).times_spec(z(j))),
    ensures
        sum(m, |k: int| l(k).times_spec(y(k))) == sum(m, |j: int| b(j).times_spec(z(j))),
{
    let f = |k: int, j: int| l(k).times_spec(u(k, j).times_spec(z(j)));
    let rows = |k: int| l(k).times_spec(y(k));
    let cols = |j: int| b(j).times_spec(z(j));
    assert forall|k: int| 0 <= k < m implies #[trigger] rows(k) == sum(m, |j: int| f(k, j)) by {
        sum_scale(m, l(k), |j: int| u(k, j).times_spec(z(j)), |j: int| f(k, j));
    }
    assert forall|j: int| 0 <= j < m implies #[trigger] cols(j) == sum(m, |k: int| f(k, j)) by {
        let g = |k: int| l(k).times_spec(u(k, j));
        let h = |k: int| f(k, j);
        assert forall|k: int| 0 <= k < m implies #[trigger] h(k) == z(j).times_spec(g(k)) by {
            T::times_assoc(l(k), u(k, j), z(j));
            T::times_comm(l(k).times_spec(u(k, j)), z(j));
        }
        sum_scale(m, z(j), g, h);
        T::times_comm(z(j), b(j));
        assert(b(j) == sum(m, g));
    }
    sum_exchange(m, m, f, rows, cols);
}

/// A block solution has one unknown for every column.
pub proof fn solution_len<T: Scalar>(lu: BlockLu<T>, m: int, w: Seq<T>)
    requires
        lu.ready(m),
        w.len() == m,
    ensures
        lu.solution(w).len() == m,
{
    backward_len(lu, lu.by_step(lu.forward(w, lu.m())), 0);
}

/// Substitution solves the block: the columns weighted with the solution add
/// up to the right-hand side, for a single right-hand side and in a batch.
pub proof fn substitution_solves_the_block<T: Field>(
    lu: BlockLu<T>,
    m: int,
    cols: Seq<SparseColumn<T>>,
    w: Seq<T>,
    r: int,
)
    requires
        lu.ready(m),
        lu.valued(m, m, cols),
        lu.nonsingular(m),
        w.len() == m,
        0 <= r < m,
    ensures
        lu.solution(w).len() == m,
        w[r] == sum(
            m as nat,
            |j: int| entry(cols[j]@, r).times_spec(lu.solution(w)[j]),
        ),
{
    let v = lu.forward(w, m);
    forward_len(lu, w, m);
    let y = lu.by_step(v);
    let z = lu.solution(w);
    backward_len(lu, y, 0);
    let l = |k: int| lu.l_at(r, k);
    let u = |k: int, j: int| lu.u_at(k, j);
    let zf = |j: int| z[j];
    let yf = |k: int| y[k];
    let b = |j: int| entry(cols[j]@, r);
    // Forward: row `r` of the right-hand side is row `r` of `L y`.
    forward_balance(lu, m, w, m, r);
    lu.all_pivotal(m, r);
    let f1 = |i: int|
        lu.l_at(r, i).times_spec(
            if i < m {
                v[lu.piv@[i] as int]
            } else {
                T::zero_spec()
            },
        );
    let f2 = |k: int| l(k).times_spec(yf(k));
    zero_plus(sum(m as nat, f1));
    sum_ext(m as nat, f1, f2);
    // Backward: `y` is `U z`.
    assert forall|k: int| 0 <= k < m implies #[trigger] yf(k) == sum(
        m as nat,
        |j: int| u(k, j).times_spec(zf(j)),
    ) by {
        backward_balance(lu, m, y, 0, k);
        let g1 = |j: int|
            lu.u_at(k, j).times_spec(
                if j >= 0 {
                    z[j]
                } else {
                    T::zero_spec()
                },
            );
        let g2 = |j: int| u(k, j).times_spec(zf(j));
        zero_plus(sum(m as nat, g1));
        sum_ext(m as nat, g1, g2);
    }
    assert forall|j: int| 0 <= j < m implies #[trigger] b(j) == sum(
        m as nat,
        |k: int| l(k).times_spec(u(k, j)),
    ) by {
        factors_multiply_to_the_block(lu, m, cols, r, j);
        sum_ext(
            m as nat,
            |k: int| lu.l_at(r, k).times_spec(lu.u_at(k, j)),
            |k: int| l(k).times_spec(u(k, j)),
        );
    }
    product_applied(m as nat, l, u, zf, b, yf);
    sum_ext(
        m as nat,
        |j: int| b(j).times_spec(zf(j)),
        |j: int| entry(cols[j]@, r).times_spec(lu.solution(w)[j]),
    );
}

// ---------------------------------------------------------------------------
// The transposed block
// ---------------------------------------------------------------------------
/// What a gather took away: the sum of entry times vector over the column.
proof fn gather_balance<T: Field>(
    n: nat,
    acc: T,
    rows: Seq<usize>,
    vals: Seq<T>,
    at: spec_fn(int) -> T,
    q: int,
)
    requires
        distinct(rows),
        rows.len() == vals.len(),
        0 <= q <= rows.len(),
        below(rows, n as int),
    ensures
        acc == gather(acc, rows, vals, at, q).plus_spec(
            sum(n, |r: int| u_part(rows, vals, q, r).times_spec(at(r))),
        ),
    decreases q,
{
    let f = |r: int| u_part(rows, vals, q, r).times_spec(at(r));
    if q == 0 {
        assert forall|r: int| 0 <= r < n implies #[trigger] f(r) == T::zero_spec() by {
            assert(rows.take(0) =~= Seq::<usize>::empty());
            assert(!occurs(rows.take(0), r));
            times_zero(at(r));
        }
        sum_zero(n, f);
        T::plus_zero(acc);
    } else {
        gather_balance(n, acc, rows, vals, at, q - 1);
        let f0 = |r: int| u_part(rows, vals, q - 1, r).times_spec(at(r));
        let p = rows[q - 1] as int;
        assert(rows[q - 1] < n);
        u_part_step(rows, vals, q - 1);
        times_zero(at(p));
        assert(f0(p) == T::zero_spec());
        assert forall|r: int| 0 <= r < n && r != p implies #[trigger] f(r) == f0(r) by {}
        sum_bump(n, p, f0, f);
        let g0 = gather(acc, rows, vals, at, q - 1);
        let g = gather(acc, rows, vals, at, q);
        let t = vals[q - 1].times_spec(at(p));
        T::minus_plus(g0, t);
        let s = sum(n, f0);
        T::plus_assoc(g, t, s);
        T::plus_comm(t, s);
    }
}

/// A full gather takes away the product of the column and the vector.
pub proof fn gather_takes_the_column<T: Field>(
    n: nat,
    acc: T,
    rows: Seq<usize>,
    vals: Seq<T>,
    at: spec_fn(int) -> T,
)
    requires
        distinct(rows),
        rows.len() == vals.len(),
        below(rows, n as int),
    ensures
        acc == gather(acc, rows, vals, at, rows.len() as int).plus_spec(
            sum(n, |r: int| entry(col_map(rows, vals), r).times_spec(at(r))),
        ),
{
    let len = rows.len() as int;
    gather_balance(n, acc, rows, vals, at, len);
    assert(rows.take(len) =~= rows);
    assert(vals.take(len) =~= vals);
    sum_ext(
        n,
        |r: int| u_part(rows, vals, len, r).times_spec(at(r)),
        |r: int| entry(col_map(rows, vals), r).times_spec(at(r)),
    );
}

proof fn upper_transposed_len<T: Scalar>(lu: BlockLu<T>, w: Seq<T>, k: int)
    requires
        k <= w.len(),
    ensures
        lu.upper_transposed(w, k).len() == w.len(),
    decreases k,
{
    if k > 0 {
        upper_transposed_len(lu, w, k - 1);
    }
}

/// Step `j` is final once its own row is done, and untouched before.
proof fn upper_transposed_keeps<T: Scalar>(lu: BlockLu<T>, w: Seq<T>, k: int, k2: int, j: int)
    requires
        0 <= k <= k2 <= w.len(),
        0 <= j < w.len(),
        j < k || j >= k2,
    ensures
        lu.upper_transposed(w, k2)[j] == lu.upper_transposed(w, k)[j],
    decreases k2,
{
    if k < k2 {
        upper_transposed_keeps(lu, w, k, k2 - 1, j);
        upper_transposed_len(lu, w, k2 - 1);
    }
}

proof fn lower_transposed_len<T: Scalar>(lu: BlockLu<T>, w: Seq<T>, k: int)
    requires
        w.len() == lu.m(),
        0 <= k,
    ensures
        lu.lower_transposed(w, k).len() == w.len(),
    decreases lu.m() - k,
{
    if k < lu.m() {
        lower_transposed_len(lu, w, k + 1);
    }
}

proof fn lower_transposed_keeps<T: Scalar>(lu: BlockLu<T>, w: Seq<T>, k: int, k2: int, j: int)
    requires
        w.len() == lu.m(),
        0 <= k2 <= k <= lu.m(),
        0 <= j < w.len(),
        j >= k || j < k2,
    ensures
        lu.lower_transposed(w, k2)[j] == lu.lower_transposed(w, k)[j],
    decreases k - k2,
{
    if k2 < k {
        lower_transposed_keeps(lu, w, k, k2 + 1, j);
        lower_transposed_len(lu, w, k2 + 1);
    }
}

/// Row `c` of the transposed `U` applied to its unknowns gives the right-hand
/// side.
proof fn upper_transposed_solves<T: Field>(lu: BlockLu<T>, m: int, w: Seq<T>, c: int)
    requires
        lu.ready(m),
        lu.nonsingular(m),
        w.len() == m,
        0 <= c < m,
    ensures
        w[c] == sum(
            m as nat,
            |k: int| lu.u_at(k, c).times_spec(lu.upper_transposed(w, m)[k]),
        ),
{
    let y = lu.upper_transposed(w, m);
    let v = lu.upper_transposed(w, c);
    upper_transposed_len(lu, w, c);
    upper_transposed_len(lu, w, m);
    lu.rows_in_range(m, c);
    let rows = lu.u_rows@[c]@;
    let vals = lu.u_vals@[c]@;
    let n = rows.len() as int;
    let at = |i: int| v[i];
    let acc = gather(v[c], rows, vals, at, n);
    upper_transposed_keeps(lu, w, 0, c, c);
    assert(v[c] == w[c]);
    gather_balance(m as nat, v[c], rows, vals, at, n);
    assert(rows.take(n) =~= rows);
    assert(vals.take(n) =~= vals);
    let d = lu.d@[c];
    assert(d != T::zero_spec());
    upper_transposed_keeps(lu, w, c + 1, m, c);
    assert(y[c] == acc.over_spec(d));
    T::over_times(acc, d);
    T::times_comm(y[c], d);
    let f = |r: int| u_part(rows, vals, n, r).times_spec(at(r));
    let g = |k: int| lu.u_at(k, c).times_spec(y[k]);
    if occurs(rows, c) {
        let q = position(rows, c);
        assert(rows[q] < c);
    }
    times_zero(at(c));
    assert(f(c) == T::zero_spec());
    assert forall|k: int| 0 <= k < m && k != c implies #[trigger] g(k) == f(k) by {
        if occurs(rows, k) {
            let q = position(rows, k);
            assert(rows[q] < c);
            upper_transposed_keeps(lu, w, c, m, k);
        } else {
            times_zero(y[k]);
            times_zero(v[k]);
        }
    }
    sum_bump(m as nat, c, f, g);
    T::plus_comm(acc, sum(m as nat, f));
}

/// Row `c` of the transposed `L` applied to the unknowns gives step `c`.
proof fn lower_transposed_solves<T: Field>(lu: BlockLu<T>, m: int, y: Seq<T>, c: int)
    requires
        lu.ready(m),
        y.len() == m,
        0 <= c < m,
    ensures
        y[c] == sum(
            m as nat,
            |r: int| lu.l_at(r, c).times_spec(lu.lower_transposed(y, 0)[lu.fin@[r] as int]),
        ),
{
    let z = lu.lower_transposed(y, 0);
    let v = lu.lower_transposed(y, c + 1);
    lower_transposed_len(lu, y, c + 1);
    lower_transposed_len(lu, y, 0);
    lu.rows_in_range(m, c);
    let rows = lu.l_rows@[c]@;
    let vals = lu.l_vals@[c]@;
    let n = rows.len() as int;
    let at = |r: int| v[lu.fin@[r] as int];
    let acc = gather(v[c], rows, vals, at, n);
    lower_transposed_keeps(lu, y, m, c + 1, c);
    assert(v[c] == y[c]);
    gather_balance(m as nat, v[c], rows, vals, at, n);
    assert(rows.take(n) =~= rows);
    assert(vals.take(n) =~= vals);
    lower_transposed_keeps(lu, y, c, 0, c);
    assert(z[c] == acc);
    let f = |r: int| u_part(rows, vals, n, r).times_spec(at(r));
    let g = |r: int| lu.l_at(r, c).times_spec(z[lu.fin@[r] as int]);
    let pc = lu.piv@[c] as int;
    assert(lu.fin@[pc] == c);
    if occurs(lu.l_rows@[c]@, pc) {
        assert(lu.fin@[pc] > c);
    }
    times_zero(at(pc));
    assert(f(pc) == T::zero_spec());
    T::times_comm(T::one_spec(), z[c]);
    T::times_one(z[c]);
    assert(g(pc) == acc);
    assert forall|r: int| 0 <= r < m && r != pc implies #[trigger] g(r) == f(r) by {
        lu.all_pivotal(m, r);
        assert(lu.fin@[r] != c);
        if occurs(lu.l_rows@[c]@, r) {
            assert(lu.fin@[r] > c);
            lower_transposed_keeps(lu, y, c + 1, 0, lu.fin@[r] as int);
        } else {
            times_zero(z[lu.fin@[r] as int]);
            times_zero(at(r));
        }
    }
    sum_bump(m as nat, pc, f, g);
    T::plus_comm(acc, sum(m as nat, f));
}

/// Transposed substitution solves the transposed block: column `c` of the
/// block times the unknowns of its rows is entry `c` of the right-hand side.
pub proof fn substitution_solves_the_transposed_block<T: Field>(
    lu: BlockLu<T>,
    m: int,
    cols: Seq<SparseColumn<T>>,
    w: Seq<T>,
    c: int,
)
    requires
        lu.ready(m),
        lu.valued(m, m, cols),
        lu.nonsingular(m),
        w.len() == m,
        0 <= c < m,
    ensures
        lu.transposed_solution(w).len() == m,
        w[c] == sum(
            m as nat,
            |r: int|
                entry(cols[c]@, r).times_spec(lu.transposed_solution(w)[lu.fin@[r] as int]),
        ),
{
    let y = lu.upper_transposed(w, m);
    upper_transposed_len(lu, w, m);
    let z = lu.transposed_solution(w);
    lower_transposed_len(lu, y, 0);
    upper_transposed_solves(lu, m, w, c);
    let l = |k: int| lu.u_at(k, c);
    let u = |k: int, r: int| lu.l_at(r, k);
    let zf = |r: int| z[lu.fin@[r] as int];
    let yf = |k: int| y[k];
    let b = |r: int| entry(cols[c]@, r);
    assert forall|k: int| 0 <= k < m implies #[trigger] yf(k) == sum(
        m as nat,
        |r: int| u(k, r).times_spec(zf(r)),
    ) by {
        lower_transposed_solves(lu, m, y, k);
        sum_ext(
            m as nat,
            |r: int| lu.l_at(r, k).times_spec(lu.lower_transposed(y, 0)[lu.fin@[r] as int]),
            |r: int| u(k, r).times_spec(zf(r)),
        );
    }
    assert forall|r: int| 0 <= r < m implies #[trigger] b(r) == sum(
        m as nat,
        |k: int| l(k).times_spec(u(k, r)),
    ) by {
        factors_multiply_to_the_block(lu, m, cols, r, c);
        let f1 = |k: int| lu.l_at(r, k).times_spec(lu.u_at(k, c));
        let f2 = |k: int| l(k).times_spec(u(k, r));
        assert forall|k: int| 0 <= k < m implies #[trigger] f1(k) == f2(k) by {
            T::times_comm(lu.l_at(r, k), lu.u_at(k, c));
        }
        sum_ext(m as nat, f1, f2);
    }
    product_applied(m as nat, l, u, zf, b, yf);
    sum_ext(
        m as nat,
        |k: int| lu.u_at(k, c).times_spec(lu.upper_transposed(w, m)[k]),
        |k: int| l(k).times_spec(yf(k)),
    );
    sum_ext(
        m as nat,
        |r: int| b(r).times_spec(zf(r)),
        |r: int| entry(cols[c]@, r).times_spec(lu.transposed_solution(w)[lu.fin@[r] as int]),
    );
}

} // verus!
