//! Lists of sparse columns: transposition, and sorting by it.

use crate::seqs::{ascending, ascending_is_distinct, below, distinct, occurs};
use crate::sparse::{col_map_at, column_range, position, GeneralCsc, SparseColumn};
use vstd::prelude::*;

verus! {

/// The lists hold the same entries, by column here and by row there, those of
/// the first `k` columns.
pub open spec fn turned<T>(
    n: int,
    src: Seq<SparseColumn<T>>,
    out: Seq<SparseColumn<T>>,
    k: int,
) -> bool {
    &&& out.len() == n
    &&& forall|i: int|
        0 <= i < n ==> (#[trigger] out[i]).rows@.len() == out[i].vals@.len() && ascending(
            out[i].rows@,
        ) && below(out[i].rows@, k)
    &&& forall|i: int, q: int|
        0 <= i < n && 0 <= q < out[i].rows@.len() ==> from_column(
            src[#[trigger] out[i].rows@[q] as int],
            i,
            out[i].vals@[q],
        )
    &&& forall|i: int, j: int|
        0 <= i < n && 0 <= j < k && #[trigger] occurs(src[j].rows@, i) ==> occurs(out[i].rows@, j)
}

/// The column holds this value in this row.
pub open spec fn from_column<T>(col: SparseColumn<T>, r: int, v: T) -> bool {
    exists|p: int| 0 <= p < col.rows@.len() && #[trigger] col.rows@[p] == r && col.vals@[p] == v
}

/// Append the entries of column `j` to the rows.
fn turn_column<T: Copy>(
    n: usize,
    Ghost(src): Ghost<Seq<SparseColumn<T>>>,
    col: &SparseColumn<T>,
    j: usize,
    out: &mut Vec<SparseColumn<T>>,
)
    requires
        j < src.len(),
        *col == src[j as int],
        col.wf(n as int),
        turned(n as int, src, old(out)@, j as int),
    ensures
        turned(n as int, src, final(out)@, j + 1),
{
    let ghost rows = col.rows@;
    let ghost vals = col.vals@;
    let ghost out0 = out@;
    let mut k: usize = 0;
    while k < col.rows.len()
        invariant
            k <= rows.len(),
            rows == col.rows@,
            vals == col.vals@,
            rows.len() == vals.len(),
            below(rows, n as int),
            distinct(rows),
            out0.len() == n,
            out@.len() == n,
            forall|i: int|
                0 <= i < n && !occurs(rows.take(k as int), i) ==> #[trigger] out@[i] == out0[i],
            forall|i: int|
                0 <= i < n && #[trigger] occurs(rows.take(k as int), i) ==> out@[i].rows@
                    == out0[i].rows@.push(j) && out@[i].vals@ == out0[i].vals@.push(
                    vals[position(rows, i)],
                ),
        decreases rows.len() - k,
    {
        let i: usize = col.rows[k];
        let ghost h1 = rows.take(k as int);
        let ghost h2 = rows.take(k + 1);
        let ghost out1 = out@;
        proof {
            assert(rows[k as int] < n);
            if occurs(h1, i as int) {
                let q = position(h1, i as int);
                assert(rows[q] != rows[k as int]);
            }
            assert(h2[k as int] == i);
            assert forall|c: int| c != i implies (#[trigger] occurs(h2, c) <==> occurs(h1, c)) by {
                if occurs(h1, c) {
                    assert(h2[position(h1, c)] == c);
                }
                if occurs(h2, c) {
                    assert(h1[position(h2, c)] == c);
                }
            }
            assert(occurs(rows, i as int));
            let p = position(rows, i as int);
            if p < k {
                assert(rows[p] != rows[k as int]);
            } else if p > k {
                assert(rows[k as int] != rows[p]);
            }
        }
        out[i].rows.push(j);
        out[i].vals.push(col.vals[k]);
        k = k + 1;
        proof {
            assert forall|c: int| 0 <= c < n && !occurs(h2, c) implies #[trigger] out@[c] == out0[c] by {
                assert(c != i);
                assert(out1[c] == out0[c]);
            }
            assert forall|c: int| 0 <= c < n && #[trigger] occurs(h2, c) implies out@[c].rows@
                == out0[c].rows@.push(j) && out@[c].vals@ == out0[c].vals@.push(vals[position(rows, c)]) by {
                if c == i {
                    assert(out1[c] == out0[c]);
                } else {
                    assert(occurs(h1, c));
                }
            }
        }
    }
    proof {
        assert(rows.take(rows.len() as int) =~= rows);
        let fin = out@;
        assert forall|i: int| 0 <= i < n implies (#[trigger] fin[i]).rows@.len() == fin[i].vals@.len()
            && ascending(fin[i].rows@) && below(fin[i].rows@, j + 1) by {
            let r0 = out0[i].rows@;
            assert(below(out0[i].rows@, j as int));
            let r1 = fin[i].rows@;
            if occurs(rows, i) {
                assert(occurs(rows.take(rows.len() as int), i));
                assert(r1 == r0.push(j));
            }
            assert forall|p1: int, p2: int| 0 <= p1 < p2 < r1.len() implies #[trigger] r1[p1] < #[trigger] r1[p2] by {
                if p2 < r0.len() {
                    assert(r0[p1] < r0[p2]);
                } else {
                    assert(r0[p1] < j);
                }
            }
            assert forall|p: int| 0 <= p < r1.len() implies #[trigger] r1[p] < j + 1 by {
                if p < r0.len() {
                    assert(r0[p] < j);
                }
            }
        }
        assert forall|i: int, q: int| 0 <= i < n && 0 <= q < fin[i].rows@.len() implies from_column(
            src[#[trigger] fin[i].rows@[q] as int],
            i,
            fin[i].vals@[q],
        ) by {
            if occurs(rows, i) {
                assert(occurs(rows.take(rows.len() as int), i));
                if q < out0[i].rows@.len() {
                    assert(fin[i].rows@[q] == out0[i].rows@[q]);
                } else {
                    assert(rows[position(rows, i)] == i);
                }
            } else {
                assert(fin[i] == out0[i]);
            }
        }
        assert forall|i: int, j2: int|
            0 <= i < n && 0 <= j2 < j + 1 && #[trigger] occurs(src[j2].rows@, i) implies occurs(
            fin[i].rows@,
            j2,
        ) by {
            let r0 = out0[i].rows@;
            let r1 = fin[i].rows@;
            if occurs(rows, i) {
                assert(occurs(rows.take(rows.len() as int), i));
            } else {
                assert(fin[i] == out0[i]);
            }
            if j2 == j {
                assert(r1[r0.len() as int] == j);
            } else {
                assert(occurs(r0, j2));
                let q = position(r0, j2);
                assert(r1[q] == j2);
            }
        }
    }
}

/// The rows of a square matrix given by columns, each in ascending order.
pub fn turn_columns<T: Copy>(n: usize, src: &Vec<SparseColumn<T>>) -> (out: Vec<SparseColumn<T>>)
    requires
        src@.len() == n,
        forall|j: int| 0 <= j < n ==> (#[trigger] src@[j]).wf(n as int),
    ensures
        out@.len() == n,
        forall|i: int| 0 <= i < n ==> (#[trigger] out@[i]).wf(n as int),
        forall|i: int| 0 <= i < n ==> ascending((#[trigger] out@[i]).rows@),
        forall|i: int, j: int|
            0 <= i < n && 0 <= j < n ==> (#[trigger] out@[i]@.contains_key(j)
                <==> src@[j]@.contains_key(i)),
        forall|i: int, j: int|
            0 <= i < n && 0 <= j < n && #[trigger] out@[i]@.contains_key(j) ==> out@[i]@[j]
                == src@[j]@[i],
{
    let mut out: Vec<SparseColumn<T>> = Vec::new();
    let mut i: usize = 0;
    while i < n
        invariant
            i <= n,
            out@.len() == i,
            forall|c: int|
                0 <= c < i ==> (#[trigger] out@[c]).rows@.len() == 0 && out@[c].vals@.len() == 0,
        decreases n - i,
    {
        out.push(SparseColumn { rows: Vec::new(), vals: Vec::new() });
        i = i + 1;
    }
    let mut j: usize = 0;
    while j < n
        invariant
            j <= n,
            src@.len() == n,
            forall|j2: int| 0 <= j2 < n ==> (#[trigger] src@[j2]).wf(n as int),
            turned(n as int, src@, out@, j as int),
        decreases n - j,
    {
        assert(src@[j as int].wf(n as int));
        turn_column(n, Ghost(src@), &src[j], j, &mut out);
        j = j + 1;
    }
    proof {
        assert forall|i: int| 0 <= i < n implies (#[trigger] out@[i]).wf(n as int) by {
            ascending_is_distinct(out@[i].rows@);
        }
        assert forall|i: int, j: int| 0 <= i < n && 0 <= j < n implies (#[trigger] out@[i]@.contains_key(j)
            <==> src@[j]@.contains_key(i)) && (out@[i]@.contains_key(j) ==> out@[i]@[j] == src@[j]@[i]) by {
            let rows = out@[i].rows@;
            assert(out@[i].wf(n as int));
            if occurs(rows, j) {
                let q = position(rows, j);
                assert(out@[i].rows@[q] == j);
                let col = src@[j];
                assert(from_column(col, i, out@[i].vals@[q]));
                let p = choose|p: int|
                    0 <= p < col.rows@.len() && #[trigger] col.rows@[p] == i && col.vals@[p]
                        == out@[i].vals@[q];
                col_map_at(rows, out@[i].vals@, q);
                col_map_at(col.rows@, col.vals@, p);
            }
            if occurs(src@[j].rows@, i) {
                assert(occurs(rows, j));
            }
        }
    }
    out
}

/// The columns of a matrix with the rows of each in ascending order.
pub fn sort_columns<T: Copy>(n: usize, src: &Vec<SparseColumn<T>>) -> (out: Vec<SparseColumn<T>>)
    requires
        src@.len() == n,
        forall|j: int| 0 <= j < n ==> (#[trigger] src@[j]).wf(n as int),
    ensures
        out@.len() == n,
        forall|j: int| 0 <= j < n ==> (#[trigger] out@[j]).wf(n as int),
        forall|j: int| 0 <= j < n ==> ascending((#[trigger] out@[j]).rows@),
        forall|j: int| 0 <= j < n ==> (#[trigger] out@[j])@ == src@[j]@,
{
    let mid = turn_columns(n, src);
    let out = turn_columns(n, &mid);
    proof {
        assert forall|j: int| 0 <= j < n implies (#[trigger] out@[j])@ == src@[j]@ by {
            let a = out@[j]@;
            let b = src@[j]@;
            assert(out@[j].wf(n as int));
            assert(src@[j].wf(n as int));
            assert forall|i: int| a.contains_key(i) <==> b.contains_key(i) by {
                if a.contains_key(i) {
                    let q = position(out@[j].rows@, i);
                    assert(out@[j].rows@[q] < n);
                    assert(out@[j]@.contains_key(i));
                    assert(mid@[i]@.contains_key(j));
                }
                if b.contains_key(i) {
                    let q = position(src@[j].rows@, i);
                    assert(src@[j].rows@[q] < n);
                    assert(mid@[i]@.contains_key(j));
                    assert(out@[j]@.contains_key(i));
                }
            }
            assert forall|i: int| a.contains_key(i) implies a[i] == b[i] by {
                let q = position(out@[j].rows@, i);
                assert(out@[j].rows@[q] < n);
                assert(out@[j]@.contains_key(i));
                assert(mid@[i]@.contains_key(j));
            }
            assert(a =~= b);
        }
    }
    out
}

impl<T: Copy> GeneralCsc<T> {
    /// The columns of the matrix.
    pub fn columns(&self) -> (cols: Vec<SparseColumn<T>>)
        requires
            self.wf(),
        ensures
            cols@.len() == self.n,
            forall|j: int| 0 <= j < self.n ==> (#[trigger] cols@[j]).wf(self.n as int),
            forall|j: int| 0 <= j < self.n ==> (#[trigger] cols@[j]).rows@ == self.rows_of(j),
            forall|j: int| 0 <= j < self.n ==> (#[trigger] cols@[j]).vals@ == self.vals_of(j),
    {
        let mut cols: Vec<SparseColumn<T>> = Vec::new();
        let mut j: usize = 0;
        while j < self.n
            invariant
                j <= self.n,
                self.wf(),
                cols@.len() == j,
                forall|c: int| 0 <= c < j ==> (#[trigger] cols@[c]).wf(self.n as int),
                forall|c: int| 0 <= c < j ==> (#[trigger] cols@[c]).rows@ == self.rows_of(c),
                forall|c: int| 0 <= c < j ==> (#[trigger] cols@[c]).vals@ == self.vals_of(c),
            decreases self.n - j,
        {
            proof {
                column_range(*self, j as int);
            }
            let lo: usize = self.col_ptr[j];
            let hi: usize = self.col_ptr[j + 1];
            let mut rows: Vec<usize> = Vec::new();
            let mut vals: Vec<T> = Vec::new();
            let mut k: usize = lo;
            while k < hi
                invariant
                    lo <= k <= hi <= self.row_idx@.len(),
                    self.values@.len() == self.row_idx@.len(),
                    rows@ == self.row_idx@.subrange(lo as int, k as int),
                    vals@ == self.values@.subrange(lo as int, k as int),
                decreases hi - k,
            {
                rows.push(self.row_idx[k]);
                vals.push(self.values[k]);
                k = k + 1;
                assert(rows@ =~= self.row_idx@.subrange(lo as int, k as int));
                assert(vals@ =~= self.values@.subrange(lo as int, k as int));
            }
            cols.push(SparseColumn { rows, vals });
            j = j + 1;
        }
        cols
    }
}

} // verus!
