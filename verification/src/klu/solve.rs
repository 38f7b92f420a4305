//! Solves with the whole factorization: block substitution from the last block
//! to the first, and from the first to the last for the transposed system.

use crate::flat::part_of;
use crate::klu::factor::KluFactors;
use crate::klu::form::block_range;
use crate::klu::subst::{gather, spread, spread_column};
use crate::scalar::Scalar;
use crate::seqs::below;
use crate::sparse::position;
use vstd::prelude::*;

verus! {

impl<T: Scalar> KluFactors<T> {
    /// The number of blocks.
    pub open spec fn nb(&self) -> int {
        self.blocks@.len() as int
    }

    /// The scale factor of row `i` as a scalar.
    pub open spec fn scale(&self, i: int) -> T {
        T::from_real_spec(self.rs_inv@[i])
    }

    /// The right-hand side scaled and permuted: position `k` holds the row that
    /// stands there before pivoting.
    pub open spec fn permuted(&self, b: Seq<T>) -> Seq<T> {
        Seq::new(
            self.n as nat,
            |k: int|
                b[self.pre_row_perm@[k] as int].times_spec(self.scale(self.pre_row_perm@[k] as int)),
        )
    }

    /// The work vector after the entries above the first `k` columns from `bs`
    /// on are subtracted.
    pub open spec fn lifted(&self, w: Seq<T>, bs: int, z: Seq<T>, k: int) -> Seq<T>
        decreases k,
    {
        if k <= 0 {
            w
        } else {
            spread(self.lifted(w, bs, z, k - 1), self.off@[bs + k - 1]@, z[k - 1])
        }
    }

    /// The work vector after the blocks `b..`, and the unknowns from the start
    /// of block `b` on.
    pub open spec fn solved_from(&self, w: Seq<T>, b: int) -> (Seq<T>, Seq<T>)
        decreases self.nb() - b,
    {
        if b >= self.nb() {
            (w, Seq::empty())
        } else {
            let (v, z) = self.solved_from(w, b + 1);
            let bs = self.start(b);
            let zb = self.blocks@[b].solution(v.subrange(bs, bs + self.size(b)));
            (self.lifted(v, bs, zb, self.size(b)), zb + z)
        }
    }

    /// The solution of `A x = b`.
    pub open spec fn solution(&self, b: Seq<T>) -> Seq<T> {
        let z = self.solved_from(self.permuted(b), 0).1;
        Seq::new(self.n as nat, |c: int| z[position(self.col_perm@, c)])
    }

    /// The right-hand side of block `b` of the transposed system, after the
    /// unknowns `y` of the earlier blocks.
    pub open spec fn transposed_rhs(&self, rhs: Seq<T>, y: Seq<T>, b: int) -> Seq<T> {
        let bs = self.start(b);
        Seq::new(
            self.size(b) as nat,
            |c: int|
                gather(
                    rhs[self.col_perm@[bs + c] as int],
                    self.off@[bs + c].rows@,
                    self.off@[bs + c].vals@,
                    |p: int| y[p],
                    self.off@[bs + c].rows@.len() as int,
                ),
        )
    }

    /// The unknowns of the transposed system in the first `k` blocks, by
    /// position before pivoting.
    pub open spec fn transposed_upto(&self, rhs: Seq<T>, k: int) -> Seq<T>
        decreases k,
    {
        if k <= 0 {
            Seq::empty()
        } else {
            let y = self.transposed_upto(rhs, k - 1);
            let lu = self.blocks@[k - 1];
            let t = lu.transposed_solution(self.transposed_rhs(rhs, y, k - 1));
            y + Seq::new(self.size(k - 1) as nat, |r: int| t[lu.fin@[r] as int])
        }
    }

    /// The solution of the transposed system.
    pub open spec fn transposed_solution(&self, b: Seq<T>) -> Seq<T> {
        let y = self.transposed_upto(b, self.nb());
        Seq::new(
            self.n as nat,
            |i: int| y[position(self.pre_row_perm@, i)].times_spec(self.scale(i)),
        )
    }

    /// Solve `A x = b`.
    pub fn solve_one(&self, b: &[T]) -> (x: Vec<T>)
        requires
            self.wf(),
            b@.len() == self.n,
        ensures
            x@ == self.solution(b@),
            x@.len() == self.n,
    {
        let n: usize = self.n;
        let mut w: Vec<T> = Vec::new();
        let mut k: usize = 0;
        while k < n
            invariant
                k <= n,
                n == self.n,
                self.wf(),
                b@.len() == n,
                w@.len() == k,
                forall|i: int| 0 <= i < k ==> #[trigger] w@[i] == self.permuted(b@)[i],
            decreases n - k,
        {
            assert(self.pre_row_perm@[k as int] < n);
            let i: usize = self.pre_row_perm[k];
            w.push(b[i].times(T::from_real(self.rs_inv[i])));
            k = k + 1;
        }
        let ghost w0 = w@;
        assert(w0 =~= self.permuted(b@));
        let mut z: Vec<T> = Vec::new();
        k = 0;
        while k < n
            invariant
                k <= n,
                z@.len() == k,
            decreases n - k,
        {
            z.push(T::zero());
            k = k + 1;
        }
        let nblocks: usize = self.block_ptr.len() - 1;
        let mut blk: usize = nblocks;
        proof {
            assert(self.block_ptr@[nblocks as int] == n);
            assert(z@.skip(n as int) =~= Seq::<T>::empty());
        }
        while blk > 0
            invariant
                blk <= nblocks,
                nblocks == self.nb(),
                n == self.n,
                self.wf(),
                w@.len() == n,
                z@.len() == n,
                self.start(blk as int) <= n,
                self.solved_from(w0, blk as int) == (w@, z@.skip(self.start(blk as int))),
            decreases blk,
        {
            blk = blk - 1;
            proof {
                block_range(n as int, self.block_ptr@, blk as int);
                assert(self.block_covers(blk as int));
                assert(self.off_wf(blk as int));
            }
            let bs: usize = self.block_ptr[blk];
            let be: usize = self.block_ptr[blk + 1];
            let ghost v = w@;
            let ghost zt = z@.skip(be as int);
            let part = part_of(w.as_slice(), bs, be);
            let zb = self.blocks[blk].solve(be - bs, part);
            let mut c: usize = 0;
            while c < be - bs
                invariant
                    c <= be - bs,
                    bs <= be <= n,
                    bs == self.start(blk as int),
                    be - bs == self.size(blk as int),
                    blk < nblocks,
                    nblocks == self.nb(),
                    n == self.n,
                    self.wf(),
                    self.off_wf(blk as int),
                    w@.len() == n,
                    z@.len() == n,
                    zb@.len() == be - bs,
                    w@ == self.lifted(v, bs as int, zb@, c as int),
                    z@.skip(be as int) == zt,
                    forall|i: int| 0 <= i < c ==> #[trigger] zb@[i] == z@[bs + i],
                decreases be - bs - c,
            {
                let ghost z0 = z@;
                z.set(bs + c, zb[c]);
                let ghost j = bs + c;
                proof {
                    assert(z@.skip(be as int) =~= z0.skip(be as int));
                    assert(crate::klu::form::in_block(self.block_ptr@, blk as int, j));
                    let rows = self.off@[j].rows@;
                    assert forall|q: int| 0 <= q < rows.len() implies #[trigger] rows[q] < w@.len() by {
                        assert(rows[q] < bs);
                    }
                }
                spread_column(&mut w, &self.off[bs + c].rows, &self.off[bs + c].vals, zb[c]);
                c = c + 1;
            }
            proof {
                assert(z@.skip(bs as int) =~= zb@ + zt) by {
                    let l = z@.skip(bs as int);
                    let r = zb@ + zt;
                    assert forall|i: int| 0 <= i < l.len() implies #[trigger] l[i] == r[i] by {
                        if i < be - bs {
                            assert(zb@[i] == z@[bs + i]);
                        } else {
                            assert(zt[i - (be - bs)] == z@.skip(be as int)[i - (be - bs)]);
                        }
                    }
                }
            }
        }
        let mut x: Vec<T> = Vec::new();
        k = 0;
        while k < n
            invariant
                k <= n,
                x@.len() == k,
            decreases n - k,
        {
            x.push(T::zero());
            k = k + 1;
        }
        k = 0;
        while k < n
            invariant
                k <= n,
                n == self.n,
                self.wf(),
                x@.len() == n,
                z@.len() == n,
                forall|q: int| 0 <= q < k ==> x@[#[trigger] self.col_perm@[q] as int] == z@[q],
            decreases n - k,
        {
            let c: usize = self.col_perm[k];
            assert(self.col_perm@[k as int] < n);
            x.set(c, z[k]);
            k = k + 1;
            proof {
                assert forall|q: int| 0 <= q < k implies x@[#[trigger] self.col_perm@[q] as int] == z@[q] by {
                    if q < k - 1 {
                        assert(self.col_perm@[q] != self.col_perm@[k - 1]);
                        assert(self.col_perm@[q] < n);
                    }
                }
            }
        }
        proof {
            assert(z@.skip(0) =~= z@);
            assert forall|c: int| 0 <= c < n implies #[trigger] x@[c] == self.solution(b@)[c] by {
                crate::seqs::permutation_is_onto(self.col_perm@, n as int, c);
                let q = position(self.col_perm@, c);
                assert(self.col_perm@[q] == c);
            }
            assert(x@ =~= self.solution(b@));
        }
        x
    }

    /// Solve the transposed system `A^T x = b` (no conjugation).
    pub fn solve_transpose_one(&self, b: &[T]) -> (x: Vec<T>)
        requires
            self.wf(),
            b@.len() == self.n,
        ensures
            x@ == self.transposed_solution(b@),
            x@.len() == self.n,
    {
        let n: usize = self.n;
        let nblocks: usize = self.block_ptr.len() - 1;
        let mut y: Vec<T> = Vec::new();
        let mut blk: usize = 0;
        while blk < nblocks
            invariant
                blk <= nblocks,
                nblocks == self.nb(),
                n == self.n,
                self.wf(),
                b@.len() == n,
                y@.len() == self.start(blk as int),
                y@ == self.transposed_upto(b@, blk as int),
            decreases nblocks - blk,
        {
            proof {
                block_range(n as int, self.block_ptr@, blk as int);
                assert(self.block_covers(blk as int));
                assert(self.off_wf(blk as int));
            }
            let bs: usize = self.block_ptr[blk];
            let be: usize = self.block_ptr[blk + 1];
            let m: usize = be - bs;
            let mut rhs: Vec<T> = Vec::new();
            let mut c: usize = 0;
            while c < m
                invariant
                    c <= m,
                    m == be - bs,
                    bs < be <= n,
                    bs == self.start(blk as int),
                    m == self.size(blk as int),
                    blk < nblocks,
                    nblocks == self.nb(),
                    n == self.n,
                    self.wf(),
                    self.off_wf(blk as int),
                    b@.len() == n,
                    y@.len() == bs,
                    rhs@.len() == c,
                    forall|i: int|
                        0 <= i < c ==> #[trigger] rhs@[i] == self.transposed_rhs(b@, y@, blk as int)[i],
                decreases m - c,
            {
                assert(self.col_perm@[bs + c] < n);
                assert(crate::klu::form::in_block(self.block_ptr@, blk as int, bs + c));
                let rows = &self.off[bs + c].rows;
                let vals = &self.off[bs + c].vals;
                let mut acc = b[self.col_perm[bs + c]];
                let ghost acc0 = acc;
                let mut q: usize = 0;
                while q < rows.len()
                    invariant
                        q <= rows@.len(),
                        rows@.len() == vals@.len(),
                        below(rows@, bs as int),
                        y@.len() == bs,
                        acc == gather(acc0, rows@, vals@, |p: int| y@[p], q as int),
                    decreases rows@.len() - q,
                {
                    assert(rows@[q as int] < bs);
                    acc = acc.minus(vals[q].times(y[rows[q]]));
                    q = q + 1;
                }
                rhs.push(acc);
                c = c + 1;
            }
            assert(rhs@ =~= self.transposed_rhs(b@, y@, blk as int));
            let ghost r0 = rhs@;
            let t = self.blocks[blk].solve_transposed(m, rhs);
            let ghost y0 = y@;
            let ghost lu = self.blocks@[blk as int];
            let ghost add = Seq::new(m as nat, |r: int| t@[lu.fin@[r] as int]);
            let mut r: usize = 0;
            while r < m
                invariant
                    r <= m,
                    m == self.size(blk as int),
                    blk < nblocks,
                    nblocks == self.nb(),
                    self.wf(),
                    lu == self.blocks@[blk as int],
                    lu.ready(m as int),
                    t@.len() == m,
                    add == Seq::new(m as nat, |r: int| t@[lu.fin@[r] as int]),
                    y@ == y0 + add.take(r as int),
                decreases m - r,
            {
                proof {
                    lu.all_pivotal(m as int, r as int);
                }
                y.push(t[self.blocks[blk].fin[r]]);
                r = r + 1;
                assert(y@ =~= y0 + add.take(r as int));
            }
            assert(add.take(m as int) =~= add);
            blk = blk + 1;
        }
        let mut x: Vec<T> = Vec::new();
        let mut k: usize = 0;
        while k < n
            invariant
                k <= n,
                x@.len() == k,
            decreases n - k,
        {
            x.push(T::zero());
            k = k + 1;
        }
        k = 0;
        while k < n
            invariant
                k <= n,
                n == self.n,
                self.wf(),
                x@.len() == n,
                y@.len() == n,
                forall|q: int|
                    0 <= q < k ==> x@[#[trigger] self.pre_row_perm@[q] as int] == y@[q].times_spec(
                        self.scale(self.pre_row_perm@[q] as int),
                    ),
            decreases n - k,
        {
            let i: usize = self.pre_row_perm[k];
            assert(self.pre_row_perm@[k as int] < n);
            x.set(i, y[k].times(T::from_real(self.rs_inv[i])));
            k = k + 1;
            proof {
                assert forall|q: int| 0 <= q < k implies x@[#[trigger] self.pre_row_perm@[q] as int]
                    == y@[q].times_spec(self.scale(self.pre_row_perm@[q] as int)) by {
                    if q < k - 1 {
                        assert(self.pre_row_perm@[q] != self.pre_row_perm@[k - 1]);
                        assert(self.pre_row_perm@[q] < n);
                    }
                }
            }
        }
        proof {
            assert forall|i: int| 0 <= i < n implies #[trigger] x@[i] == self.transposed_solution(b@)[i] by {
                crate::seqs::permutation_is_onto(self.pre_row_perm@, n as int, i);
                let q = position(self.pre_row_perm@, i);
                assert(self.pre_row_perm@[q] == i);
            }
            assert(x@ =~= self.transposed_solution(b@));
        }
        x
    }
}

} // verus!
