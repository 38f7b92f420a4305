//! Products, norms and transposes of sparse matrices.

use crate::algebra::{sum, times_zero};
use crate::columns::turn_columns;
use crate::scalar::{Field, Real, Scalar};
use crate::seqs::{below, distinct, occurs};
use crate::sparse::{col_map, col_map_at, column_range, position, GeneralCsc};
use vstd::prelude::*;

verus! {

/// `y + x * c`, a product and a sum in each row of `c`.
pub open spec fn add_column<T: Scalar>(y: Seq<T>, c: Map<int, T>, x: T) -> Seq<T> {
    Seq::new(
        y.len(),
        |i: int|
            if c.contains_key(i) {
                y[i].plus_spec(c[i].times_spec(x))
            } else {
                y[i]
            },
    )
}

/// The zero vector.
pub open spec fn zeros<T: Scalar>(n: int) -> Seq<T> {
    Seq::new(n as nat, |i: int| T::zero_spec())
}

/// The product of the first `j` columns with the vector, column by column.
pub open spec fn product_upto<T: Scalar>(a: GeneralCsc<T>, x: Seq<T>, j: int) -> Seq<T>
    decreases j,
{
    if j <= 0 {
        zeros(a.n as int)
    } else {
        add_column(product_upto(a, x, j - 1), a.col(j - 1), x[j - 1])
    }
}

/// `A x`.
pub open spec fn product<T: Scalar>(a: GeneralCsc<T>, x: Seq<T>) -> Seq<T> {
    product_upto(a, x, a.n as int)
}

/// A vector of `n` zeros.
pub fn zero_vector<T: Scalar>(n: usize) -> (v: Vec<T>)
    ensures
        v@ == zeros::<T>(n as int),
        v@.len() == n,
{
    let mut v: Vec<T> = Vec::new();
    let mut i: usize = 0;
    while i < n
        invariant
            i <= n,
            v@.len() == i,
            forall|q: int| 0 <= q < i ==> #[trigger] v@[q] == T::zero_spec(),
        decreases n - i,
    {
        v.push(T::zero());
        i = i + 1;
    }
    assert(v@ =~= zeros::<T>(n as int));
    v
}

impl<T: Scalar> GeneralCsc<T> {
    /// `y = A x`.
    pub fn matvec(&self, x: &[T], y: &mut Vec<T>)
        requires
            self.wf(),
            x@.len() == self.n,
            old(y)@.len() == self.n,
        ensures
            final(y)@ == product(*self, x@),
            final(y)@.len() == self.n,
    {
        let n: usize = self.n;
        let mut i: usize = 0;
        while i < n
            invariant
                i <= n,
                y@.len() == n,
                forall|q: int| 0 <= q < i ==> #[trigger] y@[q] == T::zero_spec(),
            decreases n - i,
        {
            y.set(i, T::zero());
            i = i + 1;
        }
        assert(y@ =~= product_upto(*self, x@, 0));
        let mut j: usize = 0;
        while j < n
            invariant
                j <= n,
                n == self.n,
                self.wf(),
                x@.len() == n,
                y@.len() == n,
                y@ == product_upto(*self, x@, j as int),
            decreases n - j,
        {
            let ghost y0 = y@;
            let ghost rows = self.rows_of(j as int);
            let ghost vals = self.vals_of(j as int);
            let ghost c = self.col(j as int);
            proof {
                column_range(*self, j as int);
            }
            let lo: usize = self.col_ptr[j];
            let hi: usize = self.col_ptr[j + 1];
            let xj = x[j];
            let mut k: usize = lo;
            while k < hi
                invariant
                    lo <= k <= hi <= self.row_idx@.len(),
                    self.values@.len() == self.row_idx@.len(),
                    rows.len() == hi - lo,
                    vals.len() == hi - lo,
                    below(rows, n as int),
                    distinct(rows),
                    c == col_map(rows, vals),
                    forall|q: int| 0 <= q < rows.len() ==> #[trigger] rows[q] == self.row_idx@[lo + q],
                    forall|q: int| 0 <= q < rows.len() ==> #[trigger] vals[q] == self.values@[lo + q],
                    y0.len() == n,
                    y@.len() == n,
                    forall|i: int|
                        0 <= i < n ==> #[trigger] y@[i] == (if occurs(rows.take(k - lo), i) {
                            add_column(y0, c, xj)[i]
                        } else {
                            y0[i]
                        }),
                decreases hi - k,
            {
                let i: usize = self.row_idx[k];
                let ghost y1 = y@;
                let ghost h1 = rows.take(k - lo);
                let ghost h2 = rows.take(k - lo + 1);
                proof {
                    assert(rows[k - lo] == i);
                    assert(vals[k - lo] == self.values@[k as int]);
                    col_map_at(rows, vals, k - lo);
                    if occurs(h1, i as int) {
                        let q = position(h1, i as int);
                        assert(rows[q] != rows[k - lo]);
                    }
                }
                let v = y[i].plus(self.values[k].times(xj));
                y.set(i, v);
                k = k + 1;
                proof {
                    assert forall|i2: int| 0 <= i2 < n implies #[trigger] y@[i2] == (if occurs(h2, i2) {
                        add_column(y0, c, xj)[i2]
                    } else {
                        y0[i2]
                    }) by {
                        if i2 == i {
                            assert(h2[k - lo - 1] == i);
                        } else {
                            assert(y@[i2] == y1[i2]);
                            if occurs(h1, i2) {
                                assert(h2[position(h1, i2)] == i2);
                            }
                            if occurs(h2, i2) {
                                assert(h1[position(h2, i2)] == i2);
                            }
                        }
                    }
                }
            }
            proof {
                assert(rows.take(hi - lo) =~= rows);
                assert forall|i: int| 0 <= i < n implies #[trigger] y@[i] == add_column(y0, c, xj)[i] by {
                    if occurs(rows, i) {
                        assert(occurs(rows.take(hi - lo), i));
                    }
                }
                assert(y@ =~= add_column(y0, c, xj));
            }
            j = j + 1;
        }
    }
}

pub proof fn product_len<T: Scalar>(a: GeneralCsc<T>, x: Seq<T>, j: int)
    ensures
        product_upto(a, x, j).len() == a.n,
    decreases j,
{
    if j > 0 {
        product_len(a, x, j - 1);
    }
}

/// In exact arithmetic row `i` of the product is the sum of `A[i, j] * x[j]`.
pub proof fn product_is_sum<T: Field>(a: GeneralCsc<T>, x: Seq<T>, i: int, j: int)
    requires
        0 <= i < a.n,
        0 <= j,
    ensures
        product_upto(a, x, j)[i] == sum(j as nat, |c: int| a.at(i, c).times_spec(x[c])),
    decreases j,
{
    let f = |c: int| a.at(i, c).times_spec(x[c]);
    if j > 0 {
        product_is_sum(a, x, i, j - 1);
        product_len(a, x, j - 1);
        let y = product_upto(a, x, j - 1);
        if !a.col(j - 1).contains_key(i) {
            times_zero(x[j - 1]);
            T::plus_zero(y[i]);
        }
        assert(sum(j as nat, f) == sum((j - 1) as nat, f).plus_spec(f(j - 1)));
    }
}

/// The sum of the magnitudes of the first `q` values.
pub open spec fn magnitude_sum<T: Scalar>(vals: Seq<T>, q: int) -> T::Real
    decreases q,
{
    if q <= 0 {
        <T::Real as Real>::zero_spec()
    } else {
        magnitude_sum(vals, q - 1).plus_spec(vals[q - 1].magnitude_spec())
    }
}

/// The largest magnitude sum of the first `j` columns.
pub open spec fn one_norm_upto<T: Scalar>(a: GeneralCsc<T>, j: int) -> T::Real
    decreases j,
{
    if j <= 0 {
        <T::Real as Real>::zero_spec()
    } else {
        let before = one_norm_upto(a, j - 1);
        let vals = a.vals_of(j - 1);
        let s = magnitude_sum(vals, vals.len() as int);
        if s.gt_spec(before) {
            s
        } else {
            before
        }
    }
}

impl<T: Scalar> GeneralCsc<T> {
    /// The largest column sum of magnitudes.
    pub fn one_norm(&self) -> (r: T::Real)
        requires
            self.wf(),
        ensures
            r == one_norm_upto(*self, self.n as int),
    {
        let mut best: T::Real = <T::Real as Real>::zero();
        let mut j: usize = 0;
        while j < self.n
            invariant
                j <= self.n,
                self.wf(),
                best == one_norm_upto(*self, j as int),
            decreases self.n - j,
        {
            proof {
                column_range(*self, j as int);
            }
            let ghost vals = self.vals_of(j as int);
            let lo: usize = self.col_ptr[j];
            let hi: usize = self.col_ptr[j + 1];
            let mut s: T::Real = <T::Real as Real>::zero();
            let mut k: usize = lo;
            while k < hi
                invariant
                    lo <= k <= hi <= self.values@.len(),
                    vals.len() == hi - lo,
                    forall|q: int| 0 <= q < vals.len() ==> #[trigger] vals[q] == self.values@[lo + q],
                    s == magnitude_sum(vals, k - lo),
                decreases hi - k,
            {
                assert(vals[k - lo] == self.values@[k as int]);
                s = s.plus(self.values[k].magnitude());
                k = k + 1;
            }
            if s.gt(best) {
                best = s;
            }
            j = j + 1;
        }
        best
    }

    /// The transposed matrix.
    pub fn transpose(&self) -> (t: GeneralCsc<T>)
        requires
            self.wf(),
        ensures
            t.wf(),
            t.n == self.n,
            forall|i: int, j: int|
                0 <= i < self.n && 0 <= j < self.n ==> (#[trigger] t.col(i).contains_key(j)
                    <==> self.col(j).contains_key(i)),
            forall|i: int, j: int|
                0 <= i < self.n && 0 <= j < self.n ==> #[trigger] t.at(j, i) == self.at(i, j),
    {
        let cols = self.columns();
        let turned = turn_columns(self.n, &cols);
        let t = GeneralCsc::from_columns(self.n, &turned);
        proof {
            let n = self.n as int;
            assert forall|i: int, j: int| 0 <= i < n && 0 <= j < n implies (#[trigger] t.col(i).contains_key(j)
                <==> self.col(j).contains_key(i)) && t.at(j, i) == self.at(i, j) by {
                assert(t.rows_of(i) == turned@[i].rows@);
                assert(t.vals_of(i) == turned@[i].vals@);
                assert(cols@[j].rows@ == self.rows_of(j));
                assert(cols@[j].vals@ == self.vals_of(j));
                assert(turned@[i]@.contains_key(j) <==> cols@[j]@.contains_key(i));
            }
            assert forall|i: int, j: int| 0 <= i < n && 0 <= j < n implies #[trigger] t.at(j, i) == self.at(i, j) by {
                assert(t.col(i).contains_key(j) <==> self.col(j).contains_key(i));
            }
        }
        t
    }
}

} // verus!
