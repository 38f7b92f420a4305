//! The factors as matrices in final positions.

use crate::columns::sort_columns;
use crate::klu::factor::KluFactors;
use crate::klu::form::{block_of, block_range, block_unique, in_block};
use crate::scalar::Scalar;
use crate::seqs::{below, distinct, is_permutation, occurs};
use crate::sparse::{col_map, col_map_at, position, GeneralCsc, SparseColumn};
use vstd::prelude::*;

verus! {

impl<T: Scalar> KluFactors<T> {
    /// The block of position `j`.
    pub open spec fn block_at(&self, j: int) -> int {
        choose|b: int| in_block(self.block_ptr@, b, j)
    }

    /// The position before pivoting of the row at final position `i`.
    pub open spec fn pre_pos(&self, i: int) -> int {
        let b = self.block_at(i);
        self.start(b) + self.blocks@[b].piv@[i - self.start(b)]
    }

    /// The final position of the row at position `p` before pivoting.
    pub open spec fn fin_pos(&self, p: int) -> int {
        let b = self.block_at(p);
        self.start(b) + self.blocks@[b].fin@[p - self.start(b)]
    }

    /// The row of the matrix at final position `i`.
    pub open spec fn final_row(&self, i: int) -> int {
        self.pre_row_perm@[self.pre_pos(i)] as int
    }

    /// Column `j` of `L` by final position.
    pub open spec fn lower_column(&self, j: int) -> Map<int, T> {
        let b = self.block_at(j);
        let bs = self.start(b);
        let lu = self.blocks@[b];
        Map::new(
            |i: int|
                bs <= i < bs + self.size(b) && (i == j || lu.lm()[j - bs].contains_key(
                    lu.piv@[i - bs] as int,
                )),
            |i: int|
                if i == j {
                    T::one_spec()
                } else {
                    lu.lm()[j - bs][lu.piv@[i - bs] as int]
                },
        )
    }

    /// Column `j` of `U` by final position.
    pub open spec fn upper_column(&self, j: int) -> Map<int, T> {
        let b = self.block_at(j);
        let bs = self.start(b);
        let lu = self.blocks@[b];
        Map::new(
            |i: int|
                bs <= i < bs + self.size(b) && (i == j || lu.um()[j - bs].contains_key(i - bs)),
            |i: int|
                if i == j {
                    lu.d@[j - bs]
                } else {
                    lu.um()[j - bs][i - bs]
                },
        )
    }

    /// Column `j` of the entries above the blocks by final position.
    pub open spec fn above_column(&self, j: int) -> Map<int, T> {
        Map::new(
            |i: int| 0 <= i < self.n && self.off@[j]@.contains_key(self.pre_pos(i)),
            |i: int| self.off@[j]@[self.pre_pos(i)],
        )
    }

    /// The block of a position is the one that holds it.
    pub proof fn block_at_is(&self, b: int, j: int)
        requires
            self.formed(),
            in_block(self.block_ptr@, b, j),
        ensures
            self.block_at(j) == b,
            0 <= b < self.blocks@.len(),
            0 <= j < self.n,
            0 <= self.start(b) <= j < self.start(b) + self.size(b) <= self.n,
    {
        block_unique(self.n as int, self.block_ptr@, b, self.block_at(j), j);
        block_range(self.n as int, self.block_ptr@, b);
    }

    /// The final and the earlier position of a row undo each other.
    pub proof fn positions_invert(&self, p: int)
        requires
            self.wf(),
            0 <= p < self.n,
        ensures
            0 <= self.pre_pos(p) < self.n,
            0 <= self.fin_pos(p) < self.n,
            self.fin_pos(self.pre_pos(p)) == p,
            self.pre_pos(self.fin_pos(p)) == p,
            self.block_at(self.pre_pos(p)) == self.block_at(p),
            self.block_at(self.fin_pos(p)) == self.block_at(p),
    {
        let b = block_of(self.n as int, self.block_ptr@, p);
        self.block_at_is(b, p);
        assert(self.block_covers(b));
        let lu = self.blocks@[b];
        let bs = self.start(b);
        let m = self.size(b);
        lu.rows_in_range(m, p - bs);
        lu.all_pivotal(m, p - bs);
        assert(in_block(self.block_ptr@, b, bs + lu.piv@[p - bs]));
        assert(in_block(self.block_ptr@, b, bs + lu.fin@[p - bs]));
        self.block_at_is(b, bs + lu.piv@[p - bs]);
        self.block_at_is(b, bs + lu.fin@[p - bs]);
    }

    /// The final position of every row, by position before pivoting.
    fn final_positions(&self) -> (r: Vec<usize>)
        requires
            self.wf(),
        ensures
            r@.len() == self.n,
            forall|p: int| 0 <= p < self.n ==> #[trigger] r@[p] == self.fin_pos(p) && r@[p] < self.n,
    {
        let mut r: Vec<usize> = Vec::new();
        let nblocks: usize = self.block_ptr.len() - 1;
        let mut b: usize = 0;
        while b < nblocks
            invariant
                b <= nblocks,
                nblocks == self.blocks@.len(),
                self.wf(),
                r@.len() == self.start(b as int),
                forall|p: int|
                    0 <= p < r@.len() ==> #[trigger] r@[p] == self.fin_pos(p) && r@[p] < self.n,
            decreases nblocks - b,
        {
            proof {
                block_range(self.n as int, self.block_ptr@, b as int);
                assert(self.block_covers(b as int));
            }
            let bs: usize = self.block_ptr[b];
            let be: usize = self.block_ptr[b + 1];
            let mut p: usize = bs;
            while p < be
                invariant
                    bs <= p <= be <= self.n,
                    b < nblocks,
                    nblocks == self.blocks@.len(),
                    self.wf(),
                    bs == self.start(b as int),
                    be == bs + self.size(b as int),
                    self.block_covers(b as int),
                    r@.len() == p,
                    forall|p2: int|
                        0 <= p2 < p ==> #[trigger] r@[p2] == self.fin_pos(p2) && r@[p2] < self.n,
                decreases be - p,
            {
                proof {
                    self.blocks@[b as int].all_pivotal(be - bs, p - bs);
                    assert(in_block(self.block_ptr@, b as int, p as int));
                    self.block_at_is(b as int, p as int);
                }
                r.push(bs + self.blocks[b].fin[p - bs]);
                p = p + 1;
            }
            b = b + 1;
        }
        r
    }

    /// The final row permutation: position `k` holds this row of the matrix.
    pub fn row_perm(&self) -> (r: Vec<usize>)
        requires
            self.wf(),
        ensures
            r@.len() == self.n,
            forall|k: int| 0 <= k < self.n ==> #[trigger] r@[k] == self.final_row(k),
            is_permutation(r@, self.n as int),
    {
        let fin = self.final_positions();
        let n: usize = self.n;
        let mut r: Vec<usize> = Vec::new();
        let mut k: usize = 0;
        while k < n
            invariant
                k <= n,
                r@.len() == k,
            decreases n - k,
        {
            r.push(0);
            k = k + 1;
        }
        k = 0;
        while k < n
            invariant
                k <= n,
                n == self.n,
                self.wf(),
                fin@.len() == n,
                forall|p: int| 0 <= p < n ==> #[trigger] fin@[p] == self.fin_pos(p) && fin@[p] < n,
                r@.len() == n,
                forall|p: int| 0 <= p < k ==> r@[#[trigger] self.fin_pos(p)] == self.pre_row_perm@[p],
            decreases n - k,
        {
            let ghost r0 = r@;
            assert(fin@[k as int] == self.fin_pos(k as int));
            r.set(fin[k], self.pre_row_perm[k]);
            k = k + 1;
            proof {
                assert forall|p: int| 0 <= p < k implies r@[#[trigger] self.fin_pos(p)]
                    == self.pre_row_perm@[p] by {
                    self.positions_invert(p);
                    self.positions_invert(k - 1);
                }
            }
        }
        proof {
            assert forall|i: int| 0 <= i < n implies #[trigger] r@[i] == self.final_row(i) by {
                self.positions_invert(i);
                assert(r@[self.fin_pos(self.pre_pos(i))] == self.pre_row_perm@[self.pre_pos(i)]);
            }
            assert forall|i: int| 0 <= i < r@.len() implies #[trigger] r@[i] < n by {
                self.positions_invert(i);
                assert(self.pre_row_perm@[self.pre_pos(i)] < n);
            }
            assert forall|i: int, j: int| 0 <= i < j < r@.len() implies #[trigger] r@[i] != #[trigger] r@[j] by {
                self.positions_invert(i);
                self.positions_invert(j);
                let p = self.pre_pos(i);
                let q = self.pre_pos(j);
                assert(p != q);
                if p < q {
                    assert(self.pre_row_perm@[p] != self.pre_row_perm@[q]);
                } else {
                    assert(self.pre_row_perm@[q] != self.pre_row_perm@[p]);
                }
            }
        }
        r
    }
}

/// `from + 0, from + 1, ..`, `m` numbers.
fn range_list(m: usize, from: usize) -> (r: Vec<usize>)
    requires
        m + from <= usize::MAX,
    ensures
        r@.len() == m,
        forall|i: int| 0 <= i < m ==> #[trigger] r@[i] == from + i,
{
    let mut r: Vec<usize> = Vec::new();
    let mut i: usize = 0;
    while i < m
        invariant
            i <= m,
            m + from <= usize::MAX,
            r@.len() == i,
            forall|k: int| 0 <= k < i ==> #[trigger] r@[k] == from + k,
        decreases m - i,
    {
        r.push(from + i);
        i = i + 1;
    }
    r
}

/// The column with every row `r` renamed to `to[r]`, and perhaps a diagonal
/// entry appended.
fn relabel<T: Scalar>(
    n: usize,
    rows: &Vec<usize>,
    vals: &Vec<T>,
    to: &Vec<usize>,
    diag: Option<(usize, T)>,
) -> (col: SparseColumn<T>)
    requires
        rows@.len() == vals@.len(),
        distinct(rows@),
        below(rows@, to@.len() as int),
        below(to@, n as int),
        distinct(to@),
        diag matches Some(d) ==> d.0 < n && forall|q: int|
            0 <= q < rows@.len() ==> to@[#[trigger] rows@[q] as int] != d.0,
    ensures
        col.wf(n as int),
        forall|i: int| #[trigger]
            col@.contains_key(i) <==> (diag is Some && i == (diag->0).0) || exists|r: int| #[trigger]
                occurs(rows@, r) && to@[r] == i,
        diag matches Some(d) ==> col@[d.0 as int] == d.1,
        forall|r: int| #[trigger]
            occurs(rows@, r) ==> col@[to@[r] as int] == col_map(rows@, vals@)[r],
{
    let mut out: SparseColumn<T> = SparseColumn { rows: Vec::new(), vals: Vec::new() };
    let mut q: usize = 0;
    while q < rows.len()
        invariant
            q <= rows@.len(),
            rows@.len() == vals@.len(),
            below(rows@, to@.len() as int),
            out.rows@.len() == q,
            out.vals@.len() == q,
            forall|p: int| 0 <= p < q ==> #[trigger] out.rows@[p] == to@[rows@[p] as int],
            forall|p: int| 0 <= p < q ==> #[trigger] out.vals@[p] == vals@[p],
        decreases rows@.len() - q,
    {
        assert(rows@[q as int] < to@.len());
        out.rows.push(to[rows[q]]);
        out.vals.push(vals[q]);
        q = q + 1;
    }
    let ghost len = rows@.len() as int;
    match diag {
        Some(d) => {
            out.rows.push(d.0);
            out.vals.push(d.1);
        },
        None => {},
    }
    proof {
        let or = out.rows@;
        assert forall|p: int| 0 <= p < len implies #[trigger] or[p] == to@[rows@[p] as int] by {}
        assert forall|p: int| 0 <= p < or.len() implies #[trigger] or[p] < n by {
            if p < len {
                assert(rows@[p] < to@.len());
                assert(to@[rows@[p] as int] < n);
            }
        }
        assert forall|p1: int, p2: int| 0 <= p1 < p2 < or.len() implies #[trigger] or[p1] != #[trigger] or[p2] by {
            let a = rows@[p1] as int;
            if p2 < len {
                let b = rows@[p2] as int;
                assert(rows@[p1] != rows@[p2]);
                assert(rows@[p1] < to@.len() && rows@[p2] < to@.len());
                if a < b {
                    assert(to@[a] != to@[b]);
                } else {
                    assert(to@[b] != to@[a]);
                }
            } else {
                assert(to@[rows@[p1] as int] != (diag->0).0);
            }
        }
        assert forall|r: int| #[trigger] occurs(rows@, r) implies out@.contains_key(to@[r] as int)
            && out@[to@[r] as int] == col_map(rows@, vals@)[r] by {
            let p = position(rows@, r);
            col_map_at(or, out.vals@, p);
            col_map_at(rows@, vals@, p);
            assert(or[p] == to@[r]);
        }
        if diag is Some {
            col_map_at(or, out.vals@, len);
        }
        assert forall|i: int| #[trigger]
            out@.contains_key(i) <==> (diag is Some && i == (diag->0).0) || exists|r: int| #[trigger]
                occurs(rows@, r) && to@[r] == i by {
            if out@.contains_key(i) {
                let p = position(or, i);
                if p < len {
                    assert(occurs(rows@, rows@[p] as int));
                    assert(to@[rows@[p] as int] == i);
                }
            }
        }
    }
    out
}

impl<T: Scalar> KluFactors<T> {
    /// The unit lower factor `L`, diagonal included. With the row scaling `R`
    /// and the two permutations, `P_r R A P_c = L U + F`.
    pub fn l_matrix(&self) -> (a: GeneralCsc<T>)
        requires
            self.wf(),
        ensures
            a.wf(),
            a.n == self.n,
            forall|j: int| 0 <= j < self.n ==> #[trigger] a.col(j) == self.lower_column(j),
    {
        let n: usize = self.n;
        let mut cols: Vec<SparseColumn<T>> = Vec::new();
        let nblocks: usize = self.block_ptr.len() - 1;
        let mut b: usize = 0;
        while b < nblocks
            invariant
                b <= nblocks,
                nblocks == self.blocks@.len(),
                n == self.n,
                self.wf(),
                cols@.len() == self.start(b as int),
                forall|j: int| 0 <= j < cols@.len() ==> (#[trigger] cols@[j]).wf(n as int),
                forall|j: int| 0 <= j < cols@.len() ==> (#[trigger] cols@[j])@ == self.lower_column(j),
            decreases nblocks - b,
        {
            proof {
                block_range(self.n as int, self.block_ptr@, b as int);
                assert(self.block_covers(b as int));
            }
            let bs: usize = self.block_ptr[b];
            let be: usize = self.block_ptr[b + 1];
            let m: usize = be - bs;
            let ghost lu = self.blocks@[b as int];
            // Final positions of the rows of this block.
            let mut to: Vec<usize> = Vec::new();
            let mut r: usize = 0;
            while r < m
                invariant
                    r <= m,
                    b < nblocks,
                    nblocks == self.blocks@.len(),
                    bs + m <= self.n,
                    lu == self.blocks@[b as int],
                    lu.ready(m as int),
                    to@.len() == r,
                    forall|k: int| 0 <= k < r ==> #[trigger] to@[k] == bs + lu.fin@[k] && lu.fin@[k] < m,
                decreases m - r,
            {
                proof {
                    lu.all_pivotal(m as int, r as int);
                }
                to.push(bs + self.blocks[b].fin[r]);
                r = r + 1;
            }
            proof {
                assert forall|k1: int, k2: int| 0 <= k1 < k2 < to@.len() implies #[trigger] to@[k1]
                    != #[trigger] to@[k2] by {
                    lu.all_pivotal(m as int, k1);
                    lu.all_pivotal(m as int, k2);
                }
            }
            let mut c: usize = 0;
            while c < m
                invariant
                    c <= m,
                    m == be - bs,
                    b < nblocks,
                    nblocks == self.blocks@.len(),
                    n == self.n,
                    bs < be <= n,
                    bs == self.start(b as int),
                    m == self.size(b as int),
                    self.wf(),
                    lu == self.blocks@[b as int],
                    lu.ready(m as int),
                    to@.len() == m,
                    distinct(to@),
                    forall|k: int| 0 <= k < m ==> #[trigger] to@[k] == bs + lu.fin@[k] && lu.fin@[k] < m,
                    cols@.len() == bs + c,
                    forall|j: int| 0 <= j < cols@.len() ==> (#[trigger] cols@[j]).wf(n as int),
                    forall|j: int|
                        0 <= j < cols@.len() ==> (#[trigger] cols@[j])@ == self.lower_column(j),
                decreases m - c,
            {
                let ghost rows = lu.l_rows@[c as int]@;
                let ghost vals = lu.l_vals@[c as int]@;
                proof {
                    lu.rows_in_range(m as int, c as int);
                    assert forall|q: int| 0 <= q < rows.len() implies to@[#[trigger] rows[q] as int]
                        != bs + c by {
                        assert(occurs(lu.l_rows@[c as int]@, rows[q] as int));
                    }
                    assert(below(to@, n as int));
                }
                let col = relabel(
                    n,
                    &self.blocks[b].l_rows[c],
                    &self.blocks[b].l_vals[c],
                    &to,
                    Some((bs + c, T::one())),
                );
                proof {
                    let j = bs + c;
                    assert(in_block(self.block_ptr@, b as int, j));
                    self.block_at_is(b as int, j);
                    let lc = self.lower_column(j);
                    assert forall|i: int| #[trigger] col@.contains_key(i) <==> lc.contains_key(i) by {
                        if col@.contains_key(i) && i != j {
                            let r = choose|r: int| #[trigger] occurs(rows, r) && to@[r] == i;
                            let q = position(rows, r);
                            assert(rows[q] == r);
                            lu.all_pivotal(m as int, r);
                        }
                        if lc.contains_key(i) && i != j {
                            let r = lu.piv@[i - bs] as int;
                            assert(lu.fin@[lu.piv@[i - bs] as int] == i - bs);
                            assert(occurs(rows, r));
                            let q = position(rows, r);
                            assert(rows[q] == r);
                            assert(to@[r] == i);
                        }
                    }
                    assert forall|i: int| #[trigger] col@.contains_key(i) implies col@[i] == lc[i] by {
                        if i != j {
                            let r = choose|r: int| #[trigger] occurs(rows, r) && to@[r] == i;
                            let q = position(rows, r);
                            assert(rows[q] == r);
                            lu.all_pivotal(m as int, r);
                        }
                    }
                    assert(col@ =~= lc);
                }
                cols.push(col);
                c = c + 1;
            }
            b = b + 1;
        }
        let sorted = sort_columns(n, &cols);
        let a = GeneralCsc::from_columns(n, &sorted);
        proof {
            assert forall|j: int| 0 <= j < n implies #[trigger] a.col(j) == self.lower_column(j) by {
                assert(a.rows_of(j) == sorted@[j].rows@);
                assert(a.vals_of(j) == sorted@[j].vals@);
                assert(sorted@[j]@ == cols@[j]@);
            }
        }
        a
    }

    /// The upper factor `U`, pivots on the diagonal.
    pub fn u_matrix(&self) -> (a: GeneralCsc<T>)
        requires
            self.wf(),
        ensures
            a.wf(),
            a.n == self.n,
            forall|j: int| 0 <= j < self.n ==> #[trigger] a.col(j) == self.upper_column(j),
    {
        let n: usize = self.n;
        let mut cols: Vec<SparseColumn<T>> = Vec::new();
        let nblocks: usize = self.block_ptr.len() - 1;
        let mut b: usize = 0;
        while b < nblocks
            invariant
                b <= nblocks,
                nblocks == self.blocks@.len(),
                n == self.n,
                self.wf(),
                cols@.len() == self.start(b as int),
                forall|j: int| 0 <= j < cols@.len() ==> (#[trigger] cols@[j]).wf(n as int),
                forall|j: int| 0 <= j < cols@.len() ==> (#[trigger] cols@[j])@ == self.upper_column(j),
            decreases nblocks - b,
        {
            proof {
                block_range(self.n as int, self.block_ptr@, b as int);
                assert(self.block_covers(b as int));
            }
            let bs: usize = self.block_ptr[b];
            let be: usize = self.block_ptr[b + 1];
            let m: usize = be - bs;
            let ghost lu = self.blocks@[b as int];
            let to = range_list(m, bs);
            let mut c: usize = 0;
            while c < m
                invariant
                    c <= m,
                    m == be - bs,
                    b < nblocks,
                    nblocks == self.blocks@.len(),
                    n == self.n,
                    bs < be <= n,
                    bs == self.start(b as int),
                    m == self.size(b as int),
                    self.wf(),
                    lu == self.blocks@[b as int],
                    lu.ready(m as int),
                    to@.len() == m,
                    forall|k: int| 0 <= k < m ==> #[trigger] to@[k] == bs + k,
                    cols@.len() == bs + c,
                    forall|j: int| 0 <= j < cols@.len() ==> (#[trigger] cols@[j]).wf(n as int),
                    forall|j: int|
                        0 <= j < cols@.len() ==> (#[trigger] cols@[j])@ == self.upper_column(j),
                decreases m - c,
            {
                let ghost rows = lu.u_rows@[c as int]@;
                let ghost vals = lu.u_vals@[c as int]@;
                proof {
                    lu.rows_in_range(m as int, c as int);
                    assert forall|q: int| 0 <= q < rows.len() implies to@[#[trigger] rows[q] as int]
                        != bs + c by {
                        assert(rows[q] < c);
                    }
                }
                let col = relabel(
                    n,
                    &self.blocks[b].u_rows[c],
                    &self.blocks[b].u_vals[c],
                    &to,
                    Some((bs + c, self.blocks[b].d[c])),
                );
                proof {
                    let j = bs + c;
                    assert(in_block(self.block_ptr@, b as int, j));
                    self.block_at_is(b as int, j);
                    let uc = self.upper_column(j);
                    assert forall|i: int| #[trigger] col@.contains_key(i) <==> uc.contains_key(i) by {
                        if col@.contains_key(i) && i != j {
                            let r = choose|r: int| #[trigger] occurs(rows, r) && to@[r] == i;
                            let q = position(rows, r);
                            assert(rows[q] < m);
                        }
                        if uc.contains_key(i) && i != j {
                            let r = i - bs;
                            assert(occurs(rows, r));
                            let q = position(rows, r);
                            assert(rows[q] < m);
                            assert(to@[r] == i);
                        }
                    }
                    assert forall|i: int| #[trigger] col@.contains_key(i) implies col@[i] == uc[i] by {
                        if i != j {
                            let r = choose|r: int| #[trigger] occurs(rows, r) && to@[r] == i;
                            let q = position(rows, r);
                            assert(rows[q] < m);
                        }
                    }
                    assert(col@ =~= uc);
                }
                cols.push(col);
                c = c + 1;
            }
            b = b + 1;
        }
        let sorted = sort_columns(n, &cols);
        let a = GeneralCsc::from_columns(n, &sorted);
        proof {
            assert forall|j: int| 0 <= j < n implies #[trigger] a.col(j) == self.upper_column(j) by {
                assert(a.rows_of(j) == sorted@[j].rows@);
                assert(a.vals_of(j) == sorted@[j].vals@);
                assert(sorted@[j]@ == cols@[j]@);
            }
        }
        a
    }

    /// The entries `F` above the diagonal blocks.
    pub fn f_matrix(&self) -> (a: GeneralCsc<T>)
        requires
            self.wf(),
        ensures
            a.wf(),
            a.n == self.n,
            forall|j: int| 0 <= j < self.n ==> #[trigger] a.col(j) == self.above_column(j),
    {
        let n: usize = self.n;
        let to = self.final_positions();
        proof {
            assert forall|k1: int, k2: int| 0 <= k1 < k2 < to@.len() implies #[trigger] to@[k1]
                != #[trigger] to@[k2] by {
                self.positions_invert(k1);
                self.positions_invert(k2);
            }
        }
        let mut cols: Vec<SparseColumn<T>> = Vec::new();
        let mut j: usize = 0;
        while j < n
            invariant
                j <= n,
                n == self.n,
                self.wf(),
                to@.len() == n,
                distinct(to@),
                forall|p: int| 0 <= p < n ==> #[trigger] to@[p] == self.fin_pos(p) && to@[p] < n,
                cols@.len() == j,
                forall|j2: int| 0 <= j2 < j ==> (#[trigger] cols@[j2]).wf(n as int),
                forall|j2: int| 0 <= j2 < j ==> (#[trigger] cols@[j2])@ == self.above_column(j2),
            decreases n - j,
        {
            let ghost rows = self.off@[j as int].rows@;
            proof {
                let b = block_of(n as int, self.block_ptr@, j as int);
                self.block_at_is(b, j as int);
                assert(self.off_wf(b));
                assert(self.off@[j as int].wf(self.start(b)));
                assert forall|q: int| 0 <= q < rows.len() implies #[trigger] rows[q] < n by {
                    assert(rows[q] < self.start(b));
                }
            }
            let col = relabel(n, &self.off[j].rows, &self.off[j].vals, &to, None);
            proof {
                let ac = self.above_column(j as int);
                assert forall|i: int| #[trigger] col@.contains_key(i) <==> ac.contains_key(i) by {
                    if col@.contains_key(i) {
                        let r = choose|r: int| #[trigger] occurs(rows, r) && to@[r] == i;
                        let q = position(rows, r);
                        assert(rows[q] < n);
                        self.positions_invert(r);
                    }
                    if ac.contains_key(i) {
                        self.positions_invert(i);
                        assert(occurs(rows, self.pre_pos(i)));
                        assert(to@[self.pre_pos(i)] == i);
                    }
                }
                assert forall|i: int| #[trigger] col@.contains_key(i) implies col@[i] == ac[i] by {
                    let r = choose|r: int| #[trigger] occurs(rows, r) && to@[r] == i;
                    let q = position(rows, r);
                    assert(rows[q] < n);
                    self.positions_invert(r);
                }
                assert(col@ =~= ac);
            }
            cols.push(col);
            j = j + 1;
        }
        let sorted = sort_columns(n, &cols);
        let a = GeneralCsc::from_columns(n, &sorted);
        proof {
            assert forall|j: int| 0 <= j < n implies #[trigger] a.col(j) == self.above_column(j) by {
                assert(a.rows_of(j) == sorted@[j].rows@);
                assert(a.vals_of(j) == sorted@[j].vals@);
                assert(sorted@[j]@ == cols@[j]@);
            }
        }
        a
    }
}

} // verus!
