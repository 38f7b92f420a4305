//! Forward and backward substitution with a factored block.

use crate::klu::block::BlockLu;
use crate::scalar::{neg, Scalar};
use crate::seqs::{below, distinct, occurs};
use crate::sparse::{col_map, col_map_at, position};
use vstd::prelude::*;

verus! {

/// `w - x * c`, by one fused step in each row of `c`; nothing is done when `x` is
/// zero.
pub open spec fn spread<T: Scalar>(w: Seq<T>, c: Map<int, T>, x: T) -> Seq<T> {
    if x.is_zero_spec() {
        w
    } else {
        Seq::new(
            w.len(),
            |r: int|
                if c.contains_key(r) {
                    c[r].fmadd_spec(neg(x), w[r])
                } else {
                    w[r]
                },
        )
    }
}

/// `w - x * (rows, vals)` in place (see [`spread`]).
pub fn spread_column<T: Scalar>(
    w: &mut Vec<T>,
    rows: &Vec<usize>,
    vals: &Vec<T>,
    x: T,
)
    requires
        rows@.len() == vals@.len(),
        distinct(rows@),
        below(rows@, old(w)@.len() as int),
    ensures
        final(w)@ == spread(old(w)@, col_map(rows@, vals@), x),
        final(w)@.len() == old(w)@.len(),
{
    let ghost w0 = w@;
    let ghost cm = col_map(rows@, vals@);
    if x.is_zero() {
        return ;
    }
    let nx = T::zero().minus(x);
    let mut q: usize = 0;
    while q < rows.len()
        invariant
            q <= rows@.len(),
            rows@.len() == vals@.len(),
            distinct(rows@),
            below(rows@, w0.len() as int),
            w@.len() == w0.len(),
            cm == col_map(rows@, vals@),
            nx == neg(x),
            !x.is_zero_spec(),
            forall|r: int|
                0 <= r < w0.len() ==> #[trigger] w@[r] == (if occurs(rows@.take(q as int), r) {
                    spread(w0, cm, x)[r]
                } else {
                    w0[r]
                }),
        decreases rows@.len() - q,
    {
        let r: usize = rows[q];
        let ghost w1 = w@;
        let ghost h1 = rows@.take(q as int);
        let ghost h2 = rows@.take(q + 1);
        proof {
            col_map_at(rows@, vals@, q as int);
            if occurs(h1, r as int) {
                let q2 = position(h1, r as int);
                assert(rows@[q2] != rows@[q as int]);
            }
        }
        let y = vals[q].fmadd(nx, w[r]);
        w.set(r, y);
        q = q + 1;
        proof {
            assert forall|r2: int| 0 <= r2 < w0.len() implies #[trigger] w@[r2] == (if occurs(h2, r2) {
                spread(w0, cm, x)[r2]
            } else {
                w0[r2]
            }) by {
                if r2 == r {
                    assert(h2[q - 1] == r);
                } else {
                    assert(w@[r2] == w1[r2]);
                    if occurs(h1, r2) {
                        assert(h2[position(h1, r2)] == r2);
                    }
                    if occurs(h2, r2) {
                        assert(h1[position(h2, r2)] == r2);
                    }
                }
            }
        }
    }
    proof {
        assert(rows@.take(rows@.len() as int) =~= rows@);
        assert forall|r: int| 0 <= r < w0.len() implies #[trigger] w@[r] == spread(w0, cm, x)[r] by {
            if occurs(rows@, r) {
                assert(occurs(rows@.take(rows@.len() as int), r));
            }
        }
        assert(w@ =~= spread(w0, cm, x));
    }
}

impl<T: Scalar> BlockLu<T> {
    /// The `U` columns by step.
    pub open spec fn um(&self) -> Seq<Map<int, T>> {
        crate::klu::model::lower_maps(self.u_rows@, self.u_vals@)
    }

    /// The size of the block.
    pub open spec fn m(&self) -> int {
        self.piv@.len() as int
    }

    /// The right-hand side after the first `k` columns of `L`.
    pub open spec fn forward(&self, w: Seq<T>, k: int) -> Seq<T>
        decreases k,
    {
        if k <= 0 {
            w
        } else {
            let v = self.forward(w, k - 1);
            spread(v, self.lm()[k - 1], v[self.piv@[k - 1] as int])
        }
    }

    /// The work vector by step instead of by row.
    pub open spec fn by_step(&self, w: Seq<T>) -> Seq<T> {
        Seq::new(self.piv@.len(), |k: int| w[self.piv@[k] as int])
    }

    /// The unknowns after the columns `k..` of `U`.
    pub open spec fn backward(&self, y: Seq<T>, k: int) -> Seq<T>
        decreases self.m() - k,
    {
        if k >= self.m() {
            y
        } else {
            let v = self.backward(y, k + 1);
            let x = v[k].over_spec(self.d@[k]);
            spread(v.update(k, x), self.um()[k], x)
        }
    }

    /// The solution of the block, by column, for a right-hand side by row.
    pub open spec fn solution(&self, w: Seq<T>) -> Seq<T> {
        self.backward(self.by_step(self.forward(w, self.m())), 0)
    }
}

/// `acc` less the products of the entries with the vector, in storage order.
pub open spec fn gather<T: Scalar>(
    acc: T,
    rows: Seq<usize>,
    vals: Seq<T>,
    at: spec_fn(int) -> T,
    q: int,
) -> T
    decreases q,
{
    if q <= 0 {
        acc
    } else {
        gather(acc, rows, vals, at, q - 1).minus_spec(vals[q - 1].times_spec(at(rows[q - 1] as int)))
    }
}

impl<T: Scalar> BlockLu<T> {
    /// The right-hand side after the first `k` rows of the transposed `U`.
    pub open spec fn upper_transposed(&self, w: Seq<T>, k: int) -> Seq<T>
        decreases k,
    {
        if k <= 0 {
            w
        } else {
            let v = self.upper_transposed(w, k - 1);
            let c = k - 1;
            let rows = self.u_rows@[c]@;
            v.update(
                c,
                gather(v[c], rows, self.u_vals@[c]@, |i: int| v[i], rows.len() as int).over_spec(
                    self.d@[c],
                ),
            )
        }
    }

    /// The unknowns after the rows `k..` of the transposed `L`.
    pub open spec fn lower_transposed(&self, w: Seq<T>, k: int) -> Seq<T>
        decreases self.m() - k,
    {
        if k >= self.m() {
            w
        } else {
            let v = self.lower_transposed(w, k + 1);
            let rows = self.l_rows@[k]@;
            v.update(
                k,
                gather(
                    v[k],
                    rows,
                    self.l_vals@[k]@,
                    |r: int| v[self.fin@[r] as int],
                    rows.len() as int,
                ),
            )
        }
    }

    /// The solution of the transposed block, by step, for a right-hand side by
    /// column.
    pub open spec fn transposed_solution(&self, w: Seq<T>) -> Seq<T> {
        self.lower_transposed(self.upper_transposed(w, self.m()), 0)
    }

    /// The pattern is that of a complete factorization of an `m` by `m` block.
    pub open spec fn ready(&self, m: int) -> bool {
        &&& self.shaped(m)
        &&& crate::klu::model::pivots_ok(m, m, self.piv@, self.fin@)
        &&& crate::klu::model::lower_ok(m, m, self.fin@, self.l_rows@)
        &&& crate::klu::model::upper_ok(m, self.u_rows@)
    }

    /// Solve with the block: `w` by row in, the unknowns by column out.
    pub fn solve(&self, m: usize, w: Vec<T>) -> (z: Vec<T>)
        requires
            self.ready(m as int),
            w@.len() == m,
        ensures
            z@ == self.solution(w@),
            z@.len() == m,
    {
        let ghost w0 = w@;
        let mut w = w;
        let mut k: usize = 0;
        while k < m
            invariant
                k <= m,
                self.ready(m as int),
                w@.len() == m,
                w@ == self.forward(w0, k as int),
            decreases m - k,
        {
            proof {
                self.rows_in_range(m as int, k as int);
            }
            let x = w[self.piv[k]];
            spread_column(&mut w, &self.l_rows[k], &self.l_vals[k], x);
            k = k + 1;
        }
        let mut z: Vec<T> = Vec::new();
        k = 0;
        while k < m
            invariant
                k <= m,
                self.ready(m as int),
                w@.len() == m,
                z@.len() == k,
                forall|i: int| 0 <= i < k ==> #[trigger] z@[i] == w@[self.piv@[i] as int],
            decreases m - k,
        {
            proof {
                self.rows_in_range(m as int, k as int);
            }
            z.push(w[self.piv[k]]);
            k = k + 1;
        }
        assert(z@ =~= self.by_step(w@));
        let ghost y = z@;
        k = m;
        while k > 0
            invariant
                k <= m,
                self.ready(m as int),
                z@.len() == m,
                z@ == self.backward(y, k as int),
            decreases k,
        {
            k = k - 1;
            proof {
                self.rows_in_range(m as int, k as int);
            }
            let x = z[k].over(self.d[k]);
            z.set(k, x);
            spread_column(&mut z, &self.u_rows[k], &self.u_vals[k], x);
        }
        z
    }

    /// The indices of column `k` are in range.
    pub proof fn rows_in_range(&self, m: int, k: int)
        requires
            self.ready(m),
            0 <= k < m,
        ensures
            self.piv@[k] < m,
            below(self.l_rows@[k]@, m),
            distinct(self.l_rows@[k]@),
            self.l_vals@[k]@.len() == self.l_rows@[k]@.len(),
            below(self.u_rows@[k]@, k),
            below(self.u_rows@[k]@, m),
            distinct(self.u_rows@[k]@),
            self.u_vals@[k]@.len() == self.u_rows@[k]@.len(),
            self.lm()[k] == col_map(self.l_rows@[k]@, self.l_vals@[k]@),
            self.um()[k] == col_map(self.u_rows@[k]@, self.u_vals@[k]@),
    {
        let l = self.l_rows@[k]@;
        assert forall|q: int| 0 <= q < l.len() implies #[trigger] l[q] < m by {
            assert(occurs(self.l_rows@[k]@, l[q] as int));
        }
        assert(below(self.u_rows@[k]@, k));
        let u = self.u_rows@[k]@;
        assert forall|q: int| 0 <= q < u.len() implies #[trigger] u[q] < m by {
            assert(u[q] < k);
        }
    }

    /// Solve with the transposed block: `w` by column in, the unknowns by step
    /// out.
    pub fn solve_transposed(&self, m: usize, w: Vec<T>) -> (z: Vec<T>)
        requires
            self.ready(m as int),
            w@.len() == m,
        ensures
            z@ == self.transposed_solution(w@),
            z@.len() == m,
    {
        let ghost w0 = w@;
        let mut z = w;
        let mut k: usize = 0;
        while k < m
            invariant
                k <= m,
                self.ready(m as int),
                z@.len() == m,
                z@ == self.upper_transposed(w0, k as int),
            decreases m - k,
        {
            proof {
                self.rows_in_range(m as int, k as int);
            }
            let ghost v = z@;
            let rows = &self.u_rows[k];
            let vals = &self.u_vals[k];
            let mut acc = z[k];
            let mut q: usize = 0;
            while q < rows.len()
                invariant
                    q <= rows@.len(),
                    rows@.len() == vals@.len(),
                    below(rows@, m as int),
                    v == z@,
                    z@.len() == m,
                    k < m,
                    acc == gather(v[k as int], rows@, vals@, |i: int| v[i], q as int),
                decreases rows@.len() - q,
            {
                acc = acc.minus(vals[q].times(z[rows[q]]));
                q = q + 1;
            }
            z.set(k, acc.over(self.d[k]));
            k = k + 1;
        }
        let ghost y = z@;
        k = m;
        while k > 0
            invariant
                k <= m,
                self.ready(m as int),
                z@.len() == m,
                z@ == self.lower_transposed(y, k as int),
            decreases k,
        {
            k = k - 1;
            proof {
                self.rows_in_range(m as int, k as int);
            }
            let ghost v = z@;
            let rows = &self.l_rows[k];
            let vals = &self.l_vals[k];
            let mut acc = z[k];
            let mut q: usize = 0;
            while q < rows.len()
                invariant
                    q <= rows@.len(),
                    rows@.len() == vals@.len(),
                    below(rows@, m as int),
                    self.ready(m as int),
                    v == z@,
                    z@.len() == m,
                    k < m,
                    acc == gather(
                        v[k as int],
                        rows@,
                        vals@,
                        |r: int| v[self.fin@[r] as int],
                        q as int,
                    ),
                decreases rows@.len() - q,
            {
                let r: usize = rows[q];
                proof {
                    assert(r < m);
                    assert(self.fin@[r as int] == m || (self.fin@[r as int] < m
                        && self.piv@[self.fin@[r as int] as int] == r));
                    self.all_pivotal(m as int, r as int);
                }
                acc = acc.minus(vals[q].times(z[self.fin[r]]));
                q = q + 1;
            }
            z.set(k, acc);
        }
        z
    }

    /// In a complete factorization every row is pivotal.
    pub proof fn all_pivotal(&self, m: int, r: int)
        requires
            self.ready(m),
            0 <= r < m,
        ensures
            self.fin@[r] < m,
            self.piv@[self.fin@[r] as int] == r,
    {
        assert forall|q1: int, q2: int| 0 <= q1 < q2 < self.piv@.len() implies #[trigger] self.piv@[q1]
            != #[trigger] self.piv@[q2] by {
            assert(self.fin@[self.piv@[q1] as int] == q1);
            assert(self.fin@[self.piv@[q2] as int] == q2);
        }
        crate::seqs::permutation_is_onto(self.piv@, m, r);
        let k = position(self.piv@, r);
        assert(self.fin@[self.piv@[k] as int] == k);
    }
}

} // verus!
