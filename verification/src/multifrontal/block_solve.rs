//! Solving with a Schur complement: its dense factors, and the substitutions.

use crate::error::RslabError;
use crate::flat::{column_bounds, column_start, part_of};
use crate::matrix_ops::zero_vector;
use crate::multifrontal::kernel::{BunchKaufmanParams, FrontKernel, FrontalFactors};
use crate::multifrontal::schur::SchurBlock;
use crate::scalar::Scalar;
use crate::seqs::is_permutation;
use vstd::prelude::*;

verus! {

impl<T: Scalar> FrontalFactors<T> {
    /// Entry `i` of the right-hand side after the first `k` columns of `L`.
    pub open spec fn lowered(&self, b: Seq<T>, i: int, k: int) -> T
        decreases k,
    {
        if k <= 0 {
            b[self.perm@[i] as int]
        } else {
            self.lowered(b, i, k - 1).minus_spec(
                self.l_at(i, k - 1).times_spec(self.lowered(b, k - 1, k - 1)),
            )
        }
    }

    /// The solution of `L y = P b`.
    pub open spec fn forward(&self, b: Seq<T>) -> Seq<T> {
        Seq::new(self.nelim as nat, |i: int| self.lowered(b, i, i))
    }

    /// The determinant of the 2 by 2 pivot with this head.
    pub open spec fn determinant(&self, e: int) -> T {
        self.d_diag@[e].times_spec(self.d_diag@[e + 1]).minus_spec(
            self.d_subdiag@[e].times_spec(self.d_subdiag@[e]),
        )
    }

    /// Column `e` is the second of a 2 by 2 pivot.
    pub open spec fn is_second(&self, e: int) -> bool {
        e > 0 && !self.d_subdiag@[e - 1].is_zero_spec()
    }

    /// Column `e` is the first of a 2 by 2 pivot.
    pub open spec fn is_first(&self, e: int) -> bool {
        e + 1 < self.nelim && !self.d_subdiag@[e].is_zero_spec()
    }

    /// The solution of `D z = y`.
    pub open spec fn divided(&self, y: Seq<T>) -> Seq<T> {
        Seq::new(
            self.nelim as nat,
            |e: int|
                if self.is_second(e) {
                    self.d_diag@[e - 1].times_spec(y[e]).minus_spec(
                        self.d_subdiag@[e - 1].times_spec(y[e - 1]),
                    ).over_spec(self.determinant(e - 1))
                } else if self.is_first(e) {
                    self.d_diag@[e + 1].times_spec(y[e]).minus_spec(
                        self.d_subdiag@[e].times_spec(y[e + 1]),
                    ).over_spec(self.determinant(e))
                } else {
                    y[e].over_spec(self.d_diag@[e])
                },
        )
    }

    /// Entry `e` of `z` after rows `e + 1..k` of `L^T`.
    pub open spec fn raised(&self, z: Seq<T>, e: int, k: int) -> T
        decreases self.nelim - e, k,
    {
        if e < 0 || k <= e + 1 || k > self.nelim {
            z[e]
        } else {
            self.raised(z, e, k - 1).minus_spec(
                self.l_at(k - 1, e).times_spec(self.raised(z, k - 1, self.nelim as int)),
            )
        }
    }

    /// The solution of `L^T w = z`.
    pub open spec fn backward(&self, z: Seq<T>) -> Seq<T> {
        Seq::new(self.nelim as nat, |e: int| self.raised(z, e, self.nelim as int))
    }

    /// The solution with all columns eliminated, in the order of the pivots.
    pub open spec fn pivot_solution(&self, b: Seq<T>) -> Seq<T> {
        self.backward(self.divided(self.forward(b)))
    }

    /// `x` is the solution, back in the order of the rows.
    pub open spec fn solves(&self, b: Seq<T>, x: Seq<T>) -> bool {
        &&& x.len() == self.nelim
        &&& forall|i: int|
            0 <= i < self.nelim ==> x[#[trigger] self.perm@[i] as int] == self.pivot_solution(b)[i]
    }

    /// All columns are eliminated and the parts have the right sizes.
    pub open spec fn whole(&self, n: int) -> bool {
        &&& self.nrow == n
        &&& self.nelim == n
        &&& self.l@.len() == n * n
        &&& self.d_diag@.len() == n
        &&& self.d_subdiag@.len() == n
        &&& is_permutation(self.perm@, n)
    }

    fn solve_lower(&self, b: &[T]) -> (y: Vec<T>)
        requires
            self.whole(b@.len() as int),
        ensures
            y@ == self.forward(b@),
    {
        let n: usize = b.len();
        let size: usize = self.l.len();
        let ghost m = n as int;
        let mut y: Vec<T> = Vec::new();
        let mut i: usize = 0;
        while i < n
            invariant
                i <= n,
                n == b@.len(),
                m == n,
                self.whole(m),
                y@.len() == i,
                forall|q: int| 0 <= q < i ==> #[trigger] y@[q] == self.lowered(b@, q, 0),
            decreases n - i,
        {
            assert(self.perm@[i as int] < n);
            y.push(b[self.perm[i]]);
            i = i + 1;
        }
        let mut e: usize = 0;
        while e < n
            invariant
                e <= n,
                n == b@.len(),
                m == n,
                self.whole(m),
                size == self.l@.len(),
                y@.len() == n,
                forall|q: int|
                    0 <= q < n ==> #[trigger] y@[q] == self.lowered(
                        b@,
                        q,
                        if q < e {
                            q
                        } else {
                            e as int
                        },
                    ),
            decreases n - e,
        {
            proof {
                column_bounds(m, e as int, m);
            }
            let base: usize = n * e;
            let ye = y[e];
            let mut i: usize = e + 1;
            while i < n
                invariant
                    e < i <= n,
                    n == b@.len(),
                    m == n,
                    self.whole(m),
                    size == self.l@.len(),
                    base == column_start(m, e as int),
                    base + n <= size,
                    y@.len() == n,
                    ye == self.lowered(b@, e as int, e as int),
                    forall|q: int|
                        0 <= q < n ==> #[trigger] y@[q] == self.lowered(
                            b@,
                            q,
                            if q < e {
                                q
                            } else if q > e && q < i {
                                e + 1
                            } else {
                                e as int
                            },
                        ),
                decreases n - i,
            {
                let v = y[i].minus(self.l[base + i].times(ye));
                proof {
                    assert(self.l_at(i as int, e as int) == self.l@[base + i]);
                    assert(v == self.lowered(b@, i as int, e + 1));
                }
                y.set(i, v);
                i = i + 1;
            }
            e = e + 1;
        }
        assert(y@ =~= self.forward(b@));
        y
    }

    fn solve_pivots(&self, y: &Vec<T>) -> (z: Vec<T>)
        requires
            self.whole(y@.len() as int),
        ensures
            z@ == self.divided(y@),
    {
        let n: usize = y.len();
        let mut z: Vec<T> = Vec::new();
        let mut e: usize = 0;
        while e < n
            invariant
                e <= n,
                n == y@.len(),
                self.whole(n as int),
                z@.len() == e,
                forall|q: int| 0 <= q < e ==> #[trigger] z@[q] == self.divided(y@)[q],
            decreases n - e,
        {
            let v = if e > 0 && !self.d_subdiag[e - 1].is_zero() {
                let s = self.d_subdiag[e - 1];
                let det = self.d_diag[e - 1].times(self.d_diag[e]).minus(s.times(s));
                self.d_diag[e - 1].times(y[e]).minus(s.times(y[e - 1])).over(det)
            } else if e + 1 < n && !self.d_subdiag[e].is_zero() {
                let s = self.d_subdiag[e];
                let det = self.d_diag[e].times(self.d_diag[e + 1]).minus(s.times(s));
                self.d_diag[e + 1].times(y[e]).minus(s.times(y[e + 1])).over(det)
            } else {
                y[e].over(self.d_diag[e])
            };
            assert(v == self.divided(y@)[e as int]);
            z.push(v);
            e = e + 1;
        }
        assert(z@ =~= self.divided(y@));
        z
    }

    fn solve_upper(&self, z: &Vec<T>) -> (w: Vec<T>)
        requires
            self.whole(z@.len() as int),
        ensures
            w@ == self.backward(z@),
    {
        let n: usize = z.len();
        let size: usize = self.l.len();
        let ghost m = n as int;
        let mut w: Vec<T> = zero_vector::<T>(n);
        let mut e: usize = n;
        while e > 0
            invariant
                e <= n,
                n == z@.len(),
                m == n,
                self.whole(m),
                size == self.l@.len(),
                w@.len() == n,
                forall|q: int| e <= q < n ==> #[trigger] w@[q] == self.raised(z@, q, m),
            decreases e,
        {
            e = e - 1;
            proof {
                column_bounds(m, e as int, m);
            }
            let base: usize = n * e;
            let mut v: T = z[e];
            let mut i: usize = e + 1;
            while i < n
                invariant
                    e < i <= n,
                    n == z@.len(),
                    m == n,
                    self.whole(m),
                    size == self.l@.len(),
                    base == column_start(m, e as int),
                    base + n <= size,
                    w@.len() == n,
                    forall|q: int| e < q < n ==> #[trigger] w@[q] == self.raised(z@, q, m),
                    v == self.raised(z@, e as int, i as int),
                decreases n - i,
            {
                proof {
                    assert(self.l_at(i as int, e as int) == self.l@[base + i]);
                    assert(w@[i as int] == self.raised(z@, i as int, m));
                }
                v = v.minus(self.l[base + i].times(w[i]));
                i = i + 1;
            }
            w.set(e, v);
        }
        assert(w@ =~= self.backward(z@));
        w
    }

    /// Solve with the factors of a whole matrix.
    pub fn solve(&self, b: &[T]) -> (x: Vec<T>)
        requires
            self.whole(b@.len() as int),
        ensures
            self.solves(b@, x@),
    {
        let n: usize = b.len();
        let y = self.solve_lower(b);
        let z = self.solve_pivots(&y);
        let w = self.solve_upper(&z);
        let mut x: Vec<T> = zero_vector::<T>(n);
        let mut i: usize = 0;
        while i < n
            invariant
                i <= n,
                n == b@.len(),
                self.whole(n as int),
                w@ == self.pivot_solution(b@),
                w@.len() == n,
                x@.len() == n,
                forall|q: int| 0 <= q < i ==> x@[#[trigger] self.perm@[q] as int] == w@[q],
            decreases n - i,
        {
            let p: usize = self.perm[i];
            assert(self.perm@[i as int] < n);
            let ghost x0 = x@;
            x.set(p, w[i]);
            proof {
                assert forall|q: int| 0 <= q < i + 1 implies x@[#[trigger] self.perm@[q] as int]
                    == w@[q] by {
                    if q < i {
                        assert(self.perm@[q] != self.perm@[i as int]);
                        assert(self.perm@[q] < n);
                    }
                }
            }
            i = i + 1;
        }
        x
    }
}

impl<T: Scalar> SchurBlock<T> {
    /// `x` comes from `rhs` by these factors of the block.
    pub open spec fn solved_by<K: FrontKernel<T>>(
        &self,
        rhs: Seq<T>,
        kernel: K,
        bk: BunchKaufmanParams<T::Real>,
        ff: FrontalFactors<T>,
        x: Seq<T>,
    ) -> bool {
        &&& ff.shaped(self.dim as int, self.dim as int)
        &&& ff.n_delayed == 0
        &&& kernel.eliminates(self.data@, self.dim as int, self.dim as int, false, bk, ff)
        &&& ff.solves(rhs, x)
    }

    /// `x` comes from `rhs` by factors of the block.
    pub open spec fn is_solution<K: FrontKernel<T>>(
        &self,
        rhs: Seq<T>,
        kernel: K,
        bk: BunchKaufmanParams<T::Real>,
        x: Seq<T>,
    ) -> bool {
        exists|ff: FrontalFactors<T>| #[trigger] self.solved_by(rhs, kernel, bk, ff, x)
    }

    /// Factor the block, of which the lower triangle is read, and solve
    /// `S x = rhs`.
    pub fn solve_with<K: FrontKernel<T>>(
        &self,
        rhs: &[T],
        kernel: &K,
        bk: &BunchKaufmanParams<T::Real>,
    ) -> (r: Result<Vec<T>, RslabError>)
        requires
            self.wf(),
        ensures
            rhs@.len() != self.dim ==> r == Err::<Vec<T>, RslabError>(
                RslabError::DimensionMismatch { expected: self.dim, got: rhs@.len() as usize },
            ),
            rhs@.len() == self.dim ==> (r matches Ok(x) ==> self.is_solution(
                rhs@,
                *kernel,
                *bk,
                x@,
            )),
            rhs@.len() == self.dim ==> (r matches Err(e) ==> kernel.refuses(
                self.data@,
                self.dim as int,
                self.dim as int,
                false,
                *bk,
                e,
            )),
    {
        let n: usize = self.dim;
        if rhs.len() != n {
            return Err(RslabError::DimensionMismatch { expected: n, got: rhs.len() });
        }
        let front = part_of(self.data.as_slice(), 0, self.data.len());
        assert(front@ =~= self.data@);
        match kernel.factor_front(front, n, n, false, bk) {
            Ok(ff) => {
                let x = ff.solve(rhs);
                assert(self.solved_by(rhs@, *kernel, *bk, ff, x@));
                assert(self.is_solution(rhs@, *kernel, *bk, x@));
                Ok(x)
            },
            Err(e) => Err(e),
        }
    }
}

} // verus!
