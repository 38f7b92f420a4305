//! Sparse columns and compressed-column matrices.

use crate::error::RslabError;
use crate::scalar::Scalar;
use crate::seqs::{ascending, ascending_is_distinct, below, distinct, nondecreasing, occurs};
use vstd::prelude::*;

verus! {

/// Row indices with their values, in storage order.
#[derive(Debug, Clone)]
pub struct SparseColumn<T> {
    pub rows: Vec<usize>,
    pub vals: Vec<T>,
}

/// Where `r` stands in the list.
pub open spec fn position(rows: Seq<usize>, r: int) -> int {
    choose|q: int| 0 <= q < rows.len() && #[trigger] rows[q] == r
}

/// The entries of a column, by row.
pub open spec fn col_map<T>(rows: Seq<usize>, vals: Seq<T>) -> Map<int, T> {
    Map::new(|r: int| occurs(rows, r), |r: int| vals[position(rows, r)])
}

/// The entry in row `r`, or zero.
pub open spec fn entry<T: Scalar>(c: Map<int, T>, r: int) -> T {
    if c.contains_key(r) {
        c[r]
    } else {
        T::zero_spec()
    }
}

/// The column as a vector of length `m`.
pub open spec fn dense<T: Scalar>(m: int, c: Map<int, T>) -> Seq<T> {
    Seq::new(m as nat, |r: int| entry(c, r))
}

impl<T> SparseColumn<T> {
    /// Distinct rows below `m`, each with a value.
    pub open spec fn wf(&self, m: int) -> bool {
        &&& self.rows@.len() == self.vals@.len()
        &&& below(self.rows@, m)
        &&& distinct(self.rows@)
    }
}

impl<T> View for SparseColumn<T> {
    type V = Map<int, T>;

    open spec fn view(&self) -> Map<int, T> {
        col_map(self.rows@, self.vals@)
    }
}

/// The map of a column holds each stored entry.
pub proof fn col_map_at<T>(rows: Seq<usize>, vals: Seq<T>, q: int)
    requires
        distinct(rows),
        0 <= q < rows.len(),
    ensures
        col_map(rows, vals).contains_key(rows[q] as int),
        col_map(rows, vals)[rows[q] as int] == vals[q],
{
    let r = rows[q] as int;
    assert(occurs(rows, r));
    let p = position(rows, r);
    assert(0 <= p < rows.len() && rows[p] == r);
    if p < q {
        assert(rows[p] != rows[q]);
    } else if q < p {
        assert(rows[q] != rows[p]);
    }
}

/// Two columns with the same entries in another order have the same map.
pub proof fn col_map_same<T>(
    rows1: Seq<usize>,
    vals1: Seq<T>,
    rows2: Seq<usize>,
    vals2: Seq<T>,
    to: spec_fn(int) -> int,
    back: spec_fn(int) -> int,
)
    requires
        distinct(rows1),
        distinct(rows2),
        rows1.len() == vals1.len(),
        rows2.len() == vals2.len(),
        forall|q: int|
            0 <= q < rows1.len() ==> 0 <= #[trigger] to(q) < rows2.len() && rows2[to(q)] == rows1[q]
                && vals2[to(q)] == vals1[q],
        forall|q: int|
            0 <= q < rows2.len() ==> 0 <= #[trigger] back(q) < rows1.len() && rows1[back(q)] == rows2[q]
                && vals1[back(q)] == vals2[q],
    ensures
        col_map(rows1, vals1) == col_map(rows2, vals2),
{
    let a = col_map(rows1, vals1);
    let b = col_map(rows2, vals2);
    assert forall|r: int| a.contains_key(r) <==> b.contains_key(r) by {
        if occurs(rows1, r) {
            let q = position(rows1, r);
            assert(rows2[to(q)] == r);
        }
        if occurs(rows2, r) {
            let q = position(rows2, r);
            assert(rows1[back(q)] == r);
        }
    }
    assert forall|r: int| a.contains_key(r) implies a[r] == b[r] by {
        let q = position(rows1, r);
        col_map_at(rows1, vals1, q);
        col_map_at(rows2, vals2, to(q));
    }
    assert(a =~= b);
}

/// A square sparse matrix by columns, rows ascending in every column.
#[derive(Debug, Clone)]
pub struct GeneralCsc<T> {
    pub n: usize,
    pub col_ptr: Vec<usize>,
    pub row_idx: Vec<usize>,
    pub values: Vec<T>,
}

/// The pointers cut `len` entries into `n` columns.
pub open spec fn pointers_ok(n: int, col_ptr: Seq<usize>, len: int) -> bool {
    &&& col_ptr.len() == n + 1
    &&& col_ptr[0] == 0
    &&& col_ptr[n] == len
    &&& nondecreasing(col_ptr)
}

impl<T> GeneralCsc<T> {
    /// The rows of column `j`.
    pub open spec fn rows_of(&self, j: int) -> Seq<usize> {
        self.row_idx@.subrange(self.col_ptr@[j] as int, self.col_ptr@[j + 1] as int)
    }

    /// The values of column `j`.
    pub open spec fn vals_of(&self, j: int) -> Seq<T> {
        self.values@.subrange(self.col_ptr@[j] as int, self.col_ptr@[j + 1] as int)
    }

    /// The entries of column `j`, by row.
    pub open spec fn col(&self, j: int) -> Map<int, T> {
        col_map(self.rows_of(j), self.vals_of(j))
    }

    /// The pointers, rows and values fit together.
    pub open spec fn wf(&self) -> bool {
        &&& pointers_ok(self.n as int, self.col_ptr@, self.row_idx@.len() as int)
        &&& self.values@.len() == self.row_idx@.len()
        &&& forall|k: int| 0 <= k < self.row_idx@.len() ==> #[trigger] self.row_idx@[k] < self.n
        &&& forall|j: int| 0 <= j < self.n ==> ascending(#[trigger] self.rows_of(j))
    }
}

impl<T: Scalar> GeneralCsc<T> {
    /// The entry in row `i` and column `j`, zero where nothing is stored.
    pub open spec fn at(&self, i: int, j: int) -> T {
        entry(self.col(j), i)
    }
}

/// The column range of a well-formed matrix.
pub proof fn column_range<T>(a: GeneralCsc<T>, j: int)
    requires
        a.wf(),
        0 <= j < a.n,
    ensures
        a.col_ptr@[j] <= a.col_ptr@[j + 1] <= a.row_idx@.len(),
        a.rows_of(j).len() == a.col_ptr@[j + 1] - a.col_ptr@[j],
        a.vals_of(j).len() == a.rows_of(j).len(),
        below(a.rows_of(j), a.n as int),
        ascending(a.rows_of(j)),
        distinct(a.rows_of(j)),
        forall|q: int|
            0 <= q < a.rows_of(j).len() ==> #[trigger] a.rows_of(j)[q] == a.row_idx@[a.col_ptr@[j] + q],
        forall|q: int|
            0 <= q < a.rows_of(j).len() ==> #[trigger] a.vals_of(j)[q] == a.values@[a.col_ptr@[j] + q],
{
    assert(a.col_ptr@[j] <= a.col_ptr@[j + 1]);
    assert(a.col_ptr@[j + 1] <= a.col_ptr@[a.n as int]);
    ascending_is_distinct(a.rows_of(j));
    let rows = a.rows_of(j);
    assert forall|q: int| 0 <= q < rows.len() implies #[trigger] rows[q] < a.n by {
        assert(rows[q] == a.row_idx@[a.col_ptr@[j] + q]);
    }
}

impl<T> GeneralCsc<T> {
    /// Number of stored entries.
    pub fn nnz(&self) -> (r: usize)
        ensures
            r == self.row_idx@.len(),
    {
        self.row_idx.len()
    }

    /// Check that the pointers, rows and values fit together.
    pub fn validate(&self) -> (r: Result<(), RslabError>)
        ensures
            r is Ok <==> self.wf(),
            r is Err ==> r->Err_0 is InvalidInput,
    {
        let cuts: usize = self.col_ptr.len();
        if self.n == usize::MAX || cuts != self.n + 1 {
            return Err(RslabError::InvalidInput("csc: col_ptr must have n + 1 entries"));
        }
        if self.col_ptr[0] != 0 || self.col_ptr[self.n] != self.row_idx.len() {
            return Err(RslabError::InvalidInput("csc: col_ptr must run from 0 to nnz"));
        }
        if self.values.len() != self.row_idx.len() {
            return Err(RslabError::InvalidInput("csc: one value for every row index"));
        }
        let mut j: usize = 0;
        while j < self.n
            invariant
                j <= self.n,
                self.col_ptr@.len() == self.n + 1,
                forall|q1: int, q2: int|
                    0 <= q1 <= q2 <= j ==> #[trigger] self.col_ptr@[q1] <= #[trigger] self.col_ptr@[q2],
            decreases self.n - j,
        {
            if self.col_ptr[j] > self.col_ptr[j + 1] {
                assert(!nondecreasing(self.col_ptr@)) by {
                    let a = self.col_ptr@[j as int];
                    let b = self.col_ptr@[j + 1];
                }
                return Err(RslabError::InvalidInput("csc: col_ptr must not descend"));
            }
            assert forall|q1: int, q2: int| 0 <= q1 <= q2 <= j + 1 implies #[trigger] self.col_ptr@[q1]
                <= #[trigger] self.col_ptr@[q2] by {
                if q2 == j + 1 && q1 <= j {
                    assert(self.col_ptr@[q1] <= self.col_ptr@[j as int]);
                }
            }
            j = j + 1;
        }
        assert(nondecreasing(self.col_ptr@));
        j = 0;
        while j < self.n
            invariant
                j <= self.n,
                pointers_ok(self.n as int, self.col_ptr@, self.row_idx@.len() as int),
                self.values@.len() == self.row_idx@.len(),
                forall|k: int| 0 <= k < self.col_ptr@[j as int] ==> #[trigger] self.row_idx@[k] < self.n,
                forall|c: int| 0 <= c < j ==> ascending(#[trigger] self.rows_of(c)),
            decreases self.n - j,
        {
            let lo: usize = self.col_ptr[j];
            let hi: usize = self.col_ptr[j + 1];
            assert(self.col_ptr@[j as int] <= self.col_ptr@[j + 1]);
            assert(self.col_ptr@[j + 1] <= self.col_ptr@[self.n as int]);
            let ghost rows = self.rows_of(j as int);
            let mut k: usize = lo;
            while k < hi
                invariant
                    lo <= k <= hi <= self.row_idx@.len(),
                    j < self.n,
                    self.values@.len() == self.row_idx@.len(),
                    lo == self.col_ptr@[j as int],
                    hi == self.col_ptr@[j + 1],
                    rows == self.rows_of(j as int),
                    rows == self.row_idx@.subrange(lo as int, hi as int),
                    forall|i: int| 0 <= i < k ==> #[trigger] self.row_idx@[i] < self.n,
                    forall|q1: int, q2: int|
                        0 <= q1 < q2 < k - lo ==> #[trigger] rows[q1] < #[trigger] rows[q2],
                decreases hi - k,
            {
                if self.row_idx[k] >= self.n {
                    assert(!(self.row_idx@[k as int] < self.n));
                    return Err(RslabError::InvalidInput("csc: row index out of range"));
                }
                if k > lo && self.row_idx[k - 1] >= self.row_idx[k] {
                    assert(!ascending(self.rows_of(j as int))) by {
                        assert(rows[k - lo - 1] >= rows[k - lo]);
                    }
                    return Err(RslabError::InvalidInput("csc: rows must ascend in every column"));
                }
                assert forall|q1: int, q2: int| 0 <= q1 < q2 < k - lo + 1 implies #[trigger] rows[q1]
                    < #[trigger] rows[q2] by {
                    if q2 == k - lo {
                        assert(rows[k - lo - 1] == self.row_idx@[k - 1]);
                        assert(rows[k - lo] == self.row_idx@[k as int]);
                        if q1 < k - lo - 1 {
                            assert(rows[q1] < rows[k - lo - 1]);
                        }
                    }
                }
                k = k + 1;
            }
            assert(ascending(self.rows_of(j as int)));
            j = j + 1;
        }
        Ok(())
    }
}

impl<T: Copy> GeneralCsc<T> {
    /// The matrix with these columns.
    pub fn from_columns(n: usize, cols: &Vec<SparseColumn<T>>) -> (a: GeneralCsc<T>)
        requires
            cols@.len() == n,
            forall|j: int| 0 <= j < n ==> (#[trigger] cols@[j]).wf(n as int),
            forall|j: int| 0 <= j < n ==> ascending((#[trigger] cols@[j]).rows@),
        ensures
            a.wf(),
            a.n == n,
            forall|j: int| 0 <= j < n ==> #[trigger] a.rows_of(j) == cols@[j].rows@,
            forall|j: int| 0 <= j < n ==> #[trigger] a.vals_of(j) == cols@[j].vals@,
    {
        let mut col_ptr: Vec<usize> = Vec::new();
        let mut row_idx: Vec<usize> = Vec::new();
        let mut values: Vec<T> = Vec::new();
        col_ptr.push(0);
        let mut j: usize = 0;
        while j < n
            invariant
                j <= n,
                cols@.len() == n,
                forall|c: int| 0 <= c < n ==> (#[trigger] cols@[c]).wf(n as int),
                forall|c: int| 0 <= c < n ==> ascending((#[trigger] cols@[c]).rows@),
                col_ptr@.len() == j + 1,
                col_ptr@[0] == 0,
                col_ptr@[j as int] == row_idx@.len(),
                row_idx@.len() == values@.len(),
                nondecreasing(col_ptr@),
                forall|k: int| 0 <= k < row_idx@.len() ==> #[trigger] row_idx@[k] < n,
                forall|c: int|
                    0 <= c < j ==> col_ptr@[c] <= col_ptr@[c + 1] && col_ptr@[c + 1] <= row_idx@.len()
                        && row_idx@.subrange(col_ptr@[c] as int, col_ptr@[c + 1] as int)
                        == (#[trigger] cols@[c]).rows@ && values@.subrange(
                        col_ptr@[c] as int,
                        col_ptr@[c + 1] as int,
                    ) == cols@[c].vals@,
            decreases n - j,
        {
            let ghost start = row_idx@.len() as int;
            let ghost ri0 = row_idx@;
            let ghost va0 = values@;
            let ghost cp0 = col_ptr@;
            assert(cols@[j as int].wf(n as int));
            let mut q: usize = 0;
            while q < cols[j].rows.len()
                invariant
                    j < n,
                    cols@.len() == n,
                    cols@[j as int].wf(n as int),
                    q <= cols@[j as int].rows@.len(),
                    row_idx@ == ri0 + cols@[j as int].rows@.take(q as int),
                    values@ == va0 + cols@[j as int].vals@.take(q as int),
                    ri0.len() == start,
                    va0.len() == start,
                decreases cols@[j as int].rows@.len() - q,
            {
                row_idx.push(cols[j].rows[q]);
                values.push(cols[j].vals[q]);
                q = q + 1;
                assert(row_idx@ =~= ri0 + cols@[j as int].rows@.take(q as int));
                assert(values@ =~= va0 + cols@[j as int].vals@.take(q as int));
            }
            col_ptr.push(row_idx.len());
            proof {
                let rows = cols@[j as int].rows@;
                let vals = cols@[j as int].vals@;
                assert(rows.take(rows.len() as int) =~= rows);
                assert(vals.take(vals.len() as int) =~= vals);
                assert forall|k: int| 0 <= k < row_idx@.len() implies #[trigger] row_idx@[k] < n by {
                    if k >= start {
                        assert(row_idx@[k] == rows[k - start]);
                    } else {
                        assert(row_idx@[k] == ri0[k]);
                    }
                }
                assert forall|c: int| 0 <= c < j + 1 implies col_ptr@[c] <= col_ptr@[c + 1] && col_ptr@[c
                    + 1] <= row_idx@.len() && row_idx@.subrange(
                    col_ptr@[c] as int,
                    col_ptr@[c + 1] as int,
                ) == (#[trigger] cols@[c]).rows@ && values@.subrange(
                    col_ptr@[c] as int,
                    col_ptr@[c + 1] as int,
                ) == cols@[c].vals@ by {
                    if c < j {
                        assert(col_ptr@[c] == cp0[c] && col_ptr@[c + 1] == cp0[c + 1]);
                        assert(cols@[c].rows@ == ri0.subrange(cp0[c] as int, cp0[c + 1] as int));
                        assert(row_idx@.subrange(cp0[c] as int, cp0[c + 1] as int) =~= ri0.subrange(
                            cp0[c] as int,
                            cp0[c + 1] as int,
                        ));
                        assert(values@.subrange(cp0[c] as int, cp0[c + 1] as int) =~= va0.subrange(
                            cp0[c] as int,
                            cp0[c + 1] as int,
                        ));
                    } else {
                        assert(row_idx@.subrange(start, row_idx@.len() as int) =~= rows);
                        assert(values@.subrange(start, row_idx@.len() as int) =~= vals);
                    }
                }
                assert forall|q1: int, q2: int| 0 <= q1 <= q2 < col_ptr@.len() implies #[trigger] col_ptr@[q1]
                    <= #[trigger] col_ptr@[q2] by {
                    if q2 < j + 1 {
                        assert(cp0[q1] <= cp0[q2]);
                    } else if q1 < j + 1 {
                        assert(cp0[q1] <= cp0[j as int]);
                    }
                }
            }
            j = j + 1;
        }
        let a = GeneralCsc { n, col_ptr, row_idx, values };
        proof {
            assert forall|c: int| 0 <= c < n implies #[trigger] a.rows_of(c) == cols@[c].rows@ && a.vals_of(c)
                == cols@[c].vals@ by {
                let x = cols@[c];
            }
            assert forall|c: int| 0 <= c < n implies ascending(#[trigger] a.rows_of(c)) by {
                assert(ascending(cols@[c].rows@));
            }
        }
        a
    }
}

} // verus!
