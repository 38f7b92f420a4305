//! Cutting a dense matrix into tiles and putting it together again.

use crate::blr::{
    block_extent, breakeven, compress_aca, compresses, extent_spec, smaller, tile, tile_starts,
    tile_stored, tiles, Block, BlrMatrix, LowRank,
};
use crate::counts::{product_of, saturated};
use crate::flat::{column_bounds, column_start, position_joins, position_splits};
use crate::scalar::Scalar;
use vstd::prelude::*;

verus! {

/// `full / b`, rounded up.
pub fn tile_count(full: usize, b: usize) -> (r: usize)
    requires
        b > 0,
    ensures
        r == tiles(full as int, b as int),
{
    let whole: usize = full / b;
    let rest: usize = full % b;
    proof {
        let f = full as int;
        let d = b as int;
        vstd::arithmetic::div_mod::lemma_fundamental_div_mod(f, d);
        vstd::arithmetic::div_mod::lemma_mod_bound(f, d);
        assert(d * whole == whole * d) by (nonlinear_arith);
        if rest == 0 {
            vstd::arithmetic::div_mod::lemma_fundamental_div_mod_converse(
                f + d - 1,
                d,
                whole as int,
                d - 1,
            );
        } else {
            assert((whole + 1) * d == whole * d + d) by (nonlinear_arith);
            vstd::arithmetic::div_mod::lemma_fundamental_div_mod_converse(
                f + d - 1,
                d,
                whole + 1,
                rest - 1,
            );
        }
        tile_starts(f, d, 0);
        if whole == usize::MAX {
            assert(d * whole >= whole) by (nonlinear_arith)
                requires
                    d >= 1,
                    whole >= 0,
            ;
        }
    }
    if rest == 0 {
        whole
    } else {
        whole + 1
    }
}

/// The tile of `bm` by `bn` entries at row `r0` and column `c0`.
pub fn cut_tile<T: Copy>(
    a: &[T],
    nrow: usize,
    ncol: usize,
    r0: usize,
    c0: usize,
    bm: usize,
    bn: usize,
) -> (t: Vec<T>)
    requires
        a@.len() == nrow * ncol,
        r0 + bm <= nrow,
        c0 + bn <= ncol,
    ensures
        t@ == tile(a@, nrow as int, r0 as int, c0 as int, bm as int, bn as int),
{
    let len: usize = a.len();
    let mut t: Vec<T> = Vec::new();
    let ghost want = tile(a@, nrow as int, r0 as int, c0 as int, bm as int, bn as int);
    proof {
        assert(bm * 0 == 0);
        assert(0 <= bm * bn) by (nonlinear_arith);
    }
    let mut jj: usize = 0;
    while jj < bn
        invariant
            jj <= bn,
            len == a@.len(),
            a@.len() == nrow * ncol,
            r0 + bm <= nrow,
            c0 + bn <= ncol,
            want == tile(a@, nrow as int, r0 as int, c0 as int, bm as int, bn as int),
            t@.len() == column_start(bm as int, jj as int),
            forall|x: int| 0 <= x < t@.len() ==> #[trigger] t@[x] == want[x],
        decreases bn - jj,
    {
        proof {
            column_bounds(nrow as int, c0 + jj, ncol as int);
            column_bounds(bm as int, jj as int, bn as int);
        }
        let src: usize = nrow * (c0 + jj);
        let mut i: usize = 0;
        while i < bm
            invariant
                i <= bm,
                jj < bn,
                len == a@.len(),
                a@.len() == nrow * ncol,
                r0 + bm <= nrow,
                src == column_start(nrow as int, c0 + jj),
                src + nrow <= len,
                want == tile(a@, nrow as int, r0 as int, c0 as int, bm as int, bn as int),
                column_start(bm as int, jj as int) + bm <= want.len(),
                t@.len() == column_start(bm as int, jj as int) + i,
                forall|x: int| 0 <= x < t@.len() ==> #[trigger] t@[x] == want[x],
            decreases bm - i,
        {
            proof {
                position_splits(bm as int, i as int, jj as int);
            }
            t.push(a[src + (r0 + i)]);
            i = i + 1;
        }
        jj = jj + 1;
    }
    assert(t@ =~= want);
    t
}

/// A tile lies inside the matrix.
proof fn extent_inside(full: int, b: int, k: int)
    requires
        0 <= full,
        0 < b,
        0 <= k < tiles(full, b),
    ensures
        0 <= extent_spec(full, b, k).0,
        0 < extent_spec(full, b, k).1,
        extent_spec(full, b, k).0 + extent_spec(full, b, k).1 <= full,
{
    tile_starts(full, b, k);
}

/// A tile has no more entries than the matrix.
proof fn tile_fits(nrow: int, ncol: int, bm: int, bn: int)
    requires
        0 <= bm <= nrow,
        0 <= bn <= ncol,
    ensures
        0 <= bm * bn <= nrow * ncol,
{
    assert(0 <= bm * bn <= nrow * ncol) by (nonlinear_arith)
        requires
            0 <= bm <= nrow,
            0 <= bn <= ncol,
    ;
}

/// Store a tile: dense on the diagonal, else compressed where that pays.
fn store_tile<T: Scalar>(t: Vec<T>, bm: usize, bn: usize, diagonal: bool, eps: T::Real) -> (blk: Block<T>)
    requires
        t@.len() == bm * bn,
        bm > 0,
        bn > 0,
    ensures
        tile_stored(blk, t@, bm as int, bn as int, diagonal, eps),
{
    let total: usize = t.len();
    if diagonal {
        return Block::Dense { rows: bm, cols: bn, data: t };
    }
    let quotient: usize = match bm.checked_add(bn) {
        Some(s) => total / s,
        None => {
            proof {
                vstd::arithmetic::div_mod::lemma_basic_div(total as int, bm + bn);
            }
            0
        },
    };
    let cap: usize = if quotient >= 1 {
        quotient
    } else {
        1
    };
    assert(cap == breakeven(bm as int, bn as int));
    let lr = compress_aca(t.as_slice(), bm, bn, eps, cap);
    if lr.rank < cap {
        proof {
            let s = bm + bn;
            if lr.rank > 0 {
                vstd::arithmetic::div_mod::lemma_fundamental_div_mod(total as int, s);
                vstd::arithmetic::div_mod::lemma_mod_bound(total as int, s);
                assert(lr.rank * s <= s * quotient) by (nonlinear_arith)
                    requires
                        0 <= lr.rank <= quotient,
                        0 <= s,
                ;
            } else {
                assert(lr.rank * s == 0) by (nonlinear_arith)
                    requires
                        lr.rank == 0,
                ;
            }
        }
        if lr.storage() < total {
            return Block::LowRank(lr);
        }
    }
    proof {
        dense_is_stored(t, bm, bn, eps, lr);
    }
    Block::Dense { rows: bm, cols: bn, data: t }
}

proof fn dense_is_stored<T: Scalar>(t: Vec<T>, bm: usize, bn: usize, eps: T::Real, lr: LowRank<T>)
    requires
        t@.len() == bm * bn,
        compresses(lr, t@, bm as int, bn as int, eps, breakeven(bm as int, bn as int)),
        !(lr.rank < breakeven(bm as int, bn as int) && lr.rank * (lr.m + lr.n) < bm * bn),
    ensures
        tile_stored(
            Block::Dense { rows: bm, cols: bn, data: t },
            t@,
            bm as int,
            bn as int,
            false,
            eps,
        ),
{
}

impl<T: Scalar> BlrMatrix<T> {
    /// The tile of the matrix in block-row `ib` and block-column `jb`.
    pub open spec fn tile_of(&self, a: Seq<T>, ib: int, jb: int) -> Seq<T> {
        tile(
            a,
            self.nrow as int,
            self.rows_of(ib).0,
            self.cols_of(jb).0,
            self.rows_of(ib).1,
            self.cols_of(jb).1,
        )
    }

    /// Every tile of the matrix is stored as it should be.
    pub open spec fn stores_matrix(&self, a: Seq<T>, eps: T::Real) -> bool {
        forall|ib: int, jb: int|
            #![trigger self.slot(ib, jb)]
            0 <= ib < self.nbr && 0 <= jb < self.nbc ==> tile_stored(
                self.blocks@[self.slot(ib, jb)],
                self.tile_of(a, ib, jb),
                self.rows_of(ib).1,
                self.cols_of(jb).1,
                ib == jb,
                eps,
            )
    }

    /// Partition the dense column-major `nrow` by `ncol` matrix into tiles of
    /// size `b`, compressed to the relative Frobenius tolerance `eps` each.
    ///
    /// Diagonal tiles are always dense. Every other tile is compressed with at
    /// most `rows * cols / (rows + cols)` crosses, from which on it would store
    /// no less than dense; a tile that gets there stays dense.
    pub fn from_dense(a: &[T], nrow: usize, ncol: usize, b: usize, eps: T::Real) -> (r: BlrMatrix<T>)
        requires
            b > 0,
            a@.len() == nrow * ncol,
        ensures
            r.wf(),
            r.nrow == nrow,
            r.ncol == ncol,
            r.b == b,
            r.stores_matrix(a@, eps),
    {
        let len: usize = a.len();
        let nbr: usize = tile_count(nrow, b);
        let nbc: usize = tile_count(ncol, b);
        let mut g: BlrMatrix<T> = BlrMatrix { nrow, ncol, b, nbr, nbc, blocks: Vec::new() };
        let ghost g0 = g;
        proof {
            assert(nbc * 0 == 0);
        }
        let mut ib: usize = 0;
        while ib < nbr
            invariant
                ib <= nbr,
                b > 0,
                len == nrow * ncol,
                a@.len() == nrow * ncol,
                nbr == tiles(nrow as int, b as int),
                nbc == tiles(ncol as int, b as int),
                g0 == (BlrMatrix { nrow, ncol, b, nbr, nbc, blocks: g0.blocks }),
                g == (BlrMatrix { blocks: g.blocks, ..g0 }),
                g.blocks@.len() == column_start(nbc as int, ib as int),
                forall|i2: int, j2: int|
                    #![trigger g0.slot(i2, j2)]
                    0 <= i2 < ib && 0 <= j2 < nbc ==> tile_stored(
                        g.blocks@[g0.slot(i2, j2)],
                        g0.tile_of(a@, i2, j2),
                        g0.rows_of(i2).1,
                        g0.cols_of(j2).1,
                        i2 == j2,
                        eps,
                    ),
            decreases nbr - ib,
        {
            proof {
                tile_starts(nrow as int, b as int, ib as int);
                extent_inside(nrow as int, b as int, ib as int);
                column_bounds(nbc as int, ib as int, nbr as int);
            }
            let (r0, bm) = block_extent(nrow, b, ib);
            let mut jb: usize = 0;
            while jb < nbc
                invariant
                    jb <= nbc,
                    ib < nbr,
                    b > 0,
                    len == nrow * ncol,
                    a@.len() == nrow * ncol,
                    nbr == tiles(nrow as int, b as int),
                    nbc == tiles(ncol as int, b as int),
                    g0 == (BlrMatrix { nrow, ncol, b, nbr, nbc, blocks: g0.blocks }),
                    g == (BlrMatrix { blocks: g.blocks, ..g0 }),
                    (r0 as int, bm as int) == g0.rows_of(ib as int),
                    r0 + bm <= nrow,
                    bm > 0,
                    0 <= column_start(nbc as int, ib as int),
                    g.blocks@.len() == column_start(nbc as int, ib as int) + jb,
                    forall|i2: int, j2: int|
                        #![trigger g0.slot(i2, j2)]
                        (0 <= i2 < ib && 0 <= j2 < nbc) || (i2 == ib && 0 <= j2 < jb) ==> tile_stored(
                            g.blocks@[g0.slot(i2, j2)],
                            g0.tile_of(a@, i2, j2),
                            g0.rows_of(i2).1,
                            g0.cols_of(j2).1,
                            i2 == j2,
                            eps,
                        ),
                decreases nbc - jb,
            {
                proof {
                    tile_starts(ncol as int, b as int, jb as int);
                    extent_inside(ncol as int, b as int, jb as int);
                }
                let (c0, bn) = block_extent(ncol, b, jb);
                proof {
                    tile_fits(nrow as int, ncol as int, bm as int, bn as int);
                }
                let t = cut_tile(a, nrow, ncol, r0, c0, bm, bn);
                let ghost gb = g.blocks@;
                let ghost ts = t@;
                let blk = store_tile(t, bm, bn, ib == jb, eps);
                g.blocks.push(blk);
                proof {
                    assert forall|i2: int, j2: int|
                        #![trigger g0.slot(i2, j2)]
                        (0 <= i2 < ib && 0 <= j2 < nbc) || (i2 == ib && 0 <= j2 < jb + 1) implies tile_stored(
                        g.blocks@[g0.slot(i2, j2)],
                        g0.tile_of(a@, i2, j2),
                        g0.rows_of(i2).1,
                        g0.cols_of(j2).1,
                        i2 == j2,
                        eps,
                    ) by {
                        if i2 < ib {
                            column_bounds(nbc as int, i2, ib as int);
                            assert(g.blocks@[g0.slot(i2, j2)] == gb[g0.slot(i2, j2)]);
                        } else if j2 < jb {
                            assert(g.blocks@[g0.slot(i2, j2)] == gb[g0.slot(i2, j2)]);
                        } else {
                            assert(g0.tile_of(a@, i2, j2) == ts);
                        }
                    }
                }
                jb = jb + 1;
            }
            ib = ib + 1;
        }
        proof {
            assert(nbc * nbr == nbr * nbc) by (nonlinear_arith);
            assert forall|i2: int, j2: int|
                #![trigger g.slot(i2, j2)]
                0 <= i2 < nbr && 0 <= j2 < nbc implies tile_stored(
                g.blocks@[g.slot(i2, j2)],
                g.tile_of(a@, i2, j2),
                g.rows_of(i2).1,
                g.cols_of(j2).1,
                i2 == j2,
                eps,
            ) by {
                assert(g.slot(i2, j2) == g0.slot(i2, j2));
                assert(g.tile_of(a@, i2, j2) == g0.tile_of(a@, i2, j2));
            }
        }
        g
    }

    /// Entry at row `r` and column `c`: that of the tile it falls into.
    pub open spec fn entry_at(&self, r: int, c: int) -> T {
        let b = self.b as int;
        let ib = r / b;
        let jb = c / b;
        self.blocks@[self.slot(ib, jb)].entries()[column_start(self.rows_of(ib).1, c - jb * b) + (r
            - ib * b)]
    }

    /// The dense matrix, column-major.
    pub open spec fn assembled(&self) -> Seq<T> {
        Seq::new(
            (self.nrow * self.ncol) as nat,
            |p: int| self.entry_at(p % self.nrow as int, p / self.nrow as int),
        )
    }

    /// Put the dense matrix together from its tiles, column-major.
    pub fn to_dense(&self) -> (out: Vec<T>)
        requires
            self.wf(),
        ensures
            out@ == self.assembled(),
    {
        let nrow: usize = self.nrow;
        let ncol: usize = self.ncol;
        let b: usize = self.b;
        let total: usize = nrow * ncol;
        let mut parts: Vec<Vec<T>> = Vec::new();
        let mut k: usize = 0;
        while k < self.blocks.len()
            invariant
                k <= self.blocks@.len(),
                self.wf(),
                parts@.len() == k,
                forall|x: int| 0 <= x < k ==> (#[trigger] parts@[x])@ == self.blocks@[x].entries(),
            decreases self.blocks@.len() - k,
        {
            proof {
                let n = self.nbc as int;
                assert(self.nbr * self.nbc == n * self.nbr) by (nonlinear_arith)
                    requires
                        n == self.nbc,
                ;
                position_joins(n, self.nbr as int, k as int);
                let ib = k as int / n;
                let jb = k as int % n;
                assert(self.slot(ib, jb) == k);
                extent_inside(self.nrow as int, self.b as int, ib);
                extent_inside(self.ncol as int, self.b as int, jb);
                tile_fits(
                    self.nrow as int,
                    self.ncol as int,
                    self.rows_of(ib).1,
                    self.cols_of(jb).1,
                );
            }
            parts.push(self.blocks[k].to_dense());
            k = k + 1;
        }
        let mut out: Vec<T> = Vec::new();
        let mut p: usize = 0;
        while p < total
            invariant
                p <= total,
                total == nrow * ncol,
                nrow == self.nrow,
                ncol == self.ncol,
                b == self.b,
                self.wf(),
                parts@.len() == self.blocks@.len(),
                forall|x: int|
                    0 <= x < parts@.len() ==> (#[trigger] parts@[x])@ == self.blocks@[x].entries(),
                out@.len() == p,
                forall|x: int| 0 <= x < p ==> #[trigger] out@[x] == self.assembled()[x],
            decreases total - p,
        {
            proof {
                position_joins(nrow as int, ncol as int, p as int);
            }
            let r: usize = p % nrow;
            let c: usize = p / nrow;
            let ib: usize = r / b;
            let jb: usize = c / b;
            proof {
                tile_holds(nrow as int, b as int, r as int);
                tile_holds(ncol as int, b as int, c as int);
                column_bounds(self.nbc as int, ib as int, self.nbr as int);
                assert(self.nbc * self.nbr == self.nbr * self.nbc) by (nonlinear_arith);
                let blk = self.blocks@[self.slot(ib as int, jb as int)];
                assert(blk.entries().len() == blk.n_rows() * blk.n_cols());
                column_bounds(self.rows_of(ib as int).1, c - jb * b, self.cols_of(jb as int).1);
                assert(ib * b <= r && jb * b <= c);
                tile_fits(nrow as int, ncol as int, self.rows_of(ib as int).1, self.cols_of(jb as int).1);
            }
            let bm: usize = self.row_extent(ib).1;
            let len: usize = self.blocks.len();
            let slot: usize = self.nbc * ib + jb;
            let at: usize = bm * (c - jb * b) + (r - ib * b);
            out.push(parts[slot][at]);
            p = p + 1;
        }
        assert(out@ =~= self.assembled());
        out
    }
}

/// The tile that holds position `r` of an axis.
proof fn tile_holds(full: int, b: int, r: int)
    requires
        0 <= r < full,
        0 < b,
    ensures
        0 <= r / b < tiles(full, b),
        0 <= (r / b) * b <= r,
        r - (r / b) * b < extent_spec(full, b, r / b).1,
{
    vstd::arithmetic::div_mod::lemma_fundamental_div_mod(r, b);
    vstd::arithmetic::div_mod::lemma_mod_bound(r, b);
    vstd::arithmetic::div_mod::lemma_div_pos_is_pos(r, b);
    let k = r / b;
    assert(b * k == k * b) by (nonlinear_arith);
    tile_starts(full, b, k);
}

/// A partition without compressed tiles gives the matrix back.
pub proof fn dense_tiles_round_trip<T: Scalar>(g: BlrMatrix<T>, a: Seq<T>, eps: T::Real)
    requires
        g.wf(),
        a.len() == g.nrow * g.ncol,
        g.stores_matrix(a, eps),
        forall|k: int| 0 <= k < g.blocks@.len() ==> (#[trigger] g.blocks@[k]) is Dense,
    ensures
        g.assembled() == a,
{
    let nrow = g.nrow as int;
    let ncol = g.ncol as int;
    let b = g.b as int;
    assert forall|p: int| 0 <= p < a.len() implies g.assembled()[p] == a[p] by {
        position_joins(nrow, ncol, p);
        let r = p % nrow;
        let c = p / nrow;
        tile_holds(nrow, b, r);
        tile_holds(ncol, b, c);
        let ib = r / b;
        let jb = c / b;
        column_bounds(g.nbc as int, ib, g.nbr as int);
        assert(g.nbc * g.nbr == g.nbr * g.nbc) by (nonlinear_arith);
        let s = g.slot(ib, jb);
        assert(g.blocks@[s] is Dense);
        let bm = g.rows_of(ib).1;
        let bn = g.cols_of(jb).1;
        let t = g.tile_of(a, ib, jb);
        assert(g.blocks@[s].entries() == t);
        let i = r - ib * b;
        let j = c - jb * b;
        column_bounds(bm, j, bn);
        position_splits(bm, i, j);
        assert(t[column_start(bm, j) + i] == a[column_start(nrow, jb * b + j) + ib * b + i]);
    }
    assert(g.assembled() =~= a);
}

/// How much of an axis the first `k` tiles cover.
spec fn covered(full: int, b: int, k: int) -> int {
    if k * b < full {
        k * b
    } else {
        full
    }
}

/// A tile covers what lies between its ends.
proof fn extent_covers(full: int, b: int, k: int)
    requires
        0 <= full,
        0 < b,
        0 <= k < tiles(full, b),
    ensures
        covered(full, b, k) + extent_spec(full, b, k).1 == covered(full, b, k + 1),
        0 <= covered(full, b, k),
        0 <= extent_spec(full, b, k).1,
{
    tile_starts(full, b, k);
    assert((k + 1) * b == k * b + b) by (nonlinear_arith);
}

/// All tiles cover the axis.
proof fn tiles_cover(full: int, b: int)
    requires
        0 <= full,
        0 < b,
    ensures
        covered(full, b, tiles(full, b)) == full,
        covered(full, b, 0) == 0,
{
    tile_starts(full, b, 0);
    tile_starts(full, b, tiles(full, b));
    assert(0 * b == 0);
}

/// A tile stores no more than its cells.
proof fn tile_is_no_larger<T: Scalar>(g: BlrMatrix<T>, a: Seq<T>, eps: T::Real, ib: int, jb: int)
    requires
        g.wf(),
        g.stores_matrix(a, eps),
        0 <= ib < g.nbr,
        0 <= jb < g.nbc,
    ensures
        g.blocks@[g.slot(ib, jb)].size() <= g.rows_of(ib).1 * g.cols_of(jb).1,
{
    let blk = g.blocks@[g.slot(ib, jb)];
    assert(tile_stored(
        blk,
        g.tile_of(a, ib, jb),
        g.rows_of(ib).1,
        g.cols_of(jb).1,
        ib == jb,
        eps,
    ));
}

/// What the tiles before `(ib, jb)` store.
proof fn stored_so_far<T: Scalar>(g: BlrMatrix<T>, a: Seq<T>, eps: T::Real, ib: int, jb: int)
    requires
        g.wf(),
        g.stores_matrix(a, eps),
        0 <= ib < g.nbr,
        0 <= jb <= g.nbc,
    ensures
        g.stored(g.slot(ib, jb)) <= covered(g.nrow as int, g.b as int, ib) * g.ncol
            + g.rows_of(ib).1 * covered(g.ncol as int, g.b as int, jb),
    decreases ib, jb,
{
    let nrow = g.nrow as int;
    let ncol = g.ncol as int;
    let b = g.b as int;
    let bm = g.rows_of(ib).1;
    tiles_cover(nrow, b);
    tiles_cover(ncol, b);
    extent_covers(nrow, b, ib);
    column_bounds(g.nbc as int, ib, g.nbr as int);
    if jb > 0 {
        stored_so_far(g, a, eps, ib, jb - 1);
        extent_covers(ncol, b, jb - 1);
        tile_is_no_larger(g, a, eps, ib, jb - 1);
        let was = covered(ncol, b, jb - 1);
        let bn = g.cols_of(jb - 1).1;
        assert(bm * was + bm * bn == bm * (was + bn)) by (nonlinear_arith);
        assert(g.slot(ib, jb) == g.slot(ib, jb - 1) + 1);
    } else if ib > 0 {
        stored_so_far(g, a, eps, ib - 1, g.nbc as int);
        extent_covers(nrow, b, ib - 1);
        let was = covered(nrow, b, ib - 1);
        let up = g.rows_of(ib - 1).1;
        assert(was * ncol + up * ncol == (was + up) * ncol) by (nonlinear_arith);
        assert(bm * 0 == 0);
        assert(g.slot(ib, 0) == g.slot(ib - 1, g.nbc as int)) by {
            assert(column_start(g.nbc as int, ib) == column_start(g.nbc as int, ib - 1) + g.nbc)
                by (nonlinear_arith)
                requires
                    column_start(g.nbc as int, ib) == g.nbc * ib,
                    column_start(g.nbc as int, ib - 1) == g.nbc * (ib - 1),
            ;
        }
    } else {
        assert(0 * ncol == 0);
        assert(bm * 0 == 0);
        assert(g.slot(0, 0) == 0) by {
            assert(g.nbc * 0 == 0);
        }
    }
}

/// A compressed matrix stores no more than the dense one, so that what it stores
/// can be counted.
pub proof fn storage_is_no_larger<T: Scalar>(g: BlrMatrix<T>, a: Seq<T>, eps: T::Real)
    requires
        g.wf(),
        g.stores_matrix(a, eps),
    ensures
        g.stored(g.blocks@.len() as int) <= g.nrow * g.ncol,
        g.stored(g.blocks@.len() as int) <= usize::MAX,
{
    let nrow = g.nrow as int;
    let ncol = g.ncol as int;
    let b = g.b as int;
    assert(0 <= nrow * ncol) by (nonlinear_arith)
        requires
            0 <= nrow,
            0 <= ncol,
    ;
    tiles_cover(nrow, b);
    tiles_cover(ncol, b);
    if g.nbr > 0 {
        let ib = g.nbr - 1;
        stored_so_far(g, a, eps, ib, g.nbc as int);
        extent_covers(nrow, b, ib);
        let was = covered(nrow, b, ib);
        let bm = g.rows_of(ib).1;
        assert(was * ncol + bm * ncol == (was + bm) * ncol) by (nonlinear_arith);
        assert(g.nbr * g.nbc == g.slot(ib, g.nbc as int)) by (nonlinear_arith)
            requires
                g.slot(ib, g.nbc as int) == g.nbc * ib + g.nbc,
                ib == g.nbr - 1,
        ;
    } else {
        assert(g.nbr * g.nbc == 0) by (nonlinear_arith)
            requires
                g.nbr == 0,
        ;
    }
}

/// Rows, columns and rank of a probed tile.
#[derive(Debug, Clone, Copy, PartialEq, Eq)]
pub struct TileProbe {
    pub rows: usize,
    pub cols: usize,
    pub rank: usize,
}

/// What the probe of tile `(ib, jb)` of a square column-major matrix reports.
pub open spec fn probes<T: Scalar>(
    f: Seq<T>,
    n: int,
    b: int,
    eps: T::Real,
    ib: int,
    jb: int,
    r: TileProbe,
) -> bool {
    let (r0, bm) = extent_spec(n, b, ib);
    let (c0, bn) = extent_spec(n, b, jb);
    &&& r.rows == bm
    &&& r.cols == bn
    &&& exists|lr: LowRank<T>| #[trigger]
        compresses(lr, tile(f, n, r0, c0, bm, bn), bm, bn, eps, smaller(bm, bn)) && r.rank == lr.rank
}

proof fn probe_is<T: Scalar>(
    f: Seq<T>,
    n: int,
    b: int,
    eps: T::Real,
    ib: int,
    jb: int,
    r: TileProbe,
    lr: LowRank<T>,
)
    requires
        r.rows == extent_spec(n, b, ib).1,
        r.cols == extent_spec(n, b, jb).1,
        compresses(
            lr,
            tile(
                f,
                n,
                extent_spec(n, b, ib).0,
                extent_spec(n, b, jb).0,
                extent_spec(n, b, ib).1,
                extent_spec(n, b, jb).1,
            ),
            extent_spec(n, b, ib).1,
            extent_spec(n, b, jb).1,
            eps,
            smaller(extent_spec(n, b, ib).1, extent_spec(n, b, jb).1),
        ),
        r.rank == lr.rank,
    ensures
        probes(f, n, b, eps, ib, jb, r),
{
}

/// How well the tiles of one block-column below the diagonal compress.
pub fn probe_column<T: Scalar>(f: &[T], n: usize, b: usize, eps: T::Real, jb: usize) -> (r: Vec<TileProbe>)
    requires
        b > 0,
        f@.len() == n * n,
        jb < tiles(n as int, b as int),
    ensures
        r@.len() == tiles(n as int, b as int) - 1 - jb,
        forall|k: int|
            0 <= k < r@.len() ==> probes(
                f@,
                n as int,
                b as int,
                eps,
                jb + 1 + k,
                jb as int,
                #[trigger] r@[k],
            ),
{
    let len: usize = f.len();
    let nb: usize = tile_count(n, b);
    proof {
        tile_starts(n as int, b as int, jb as int);
        extent_inside(n as int, b as int, jb as int);
    }
    let (c0, bn) = block_extent(n, b, jb);
    let mut out: Vec<TileProbe> = Vec::new();
    let mut ib: usize = jb + 1;
    while ib < nb
        invariant
            jb + 1 <= ib <= nb,
            nb == tiles(n as int, b as int),
            b > 0,
            len == n * n,
            f@.len() == n * n,
            (c0 as int, bn as int) == extent_spec(n as int, b as int, jb as int),
            c0 + bn <= n,
            out@.len() == ib - 1 - jb,
            forall|k: int|
                0 <= k < out@.len() ==> probes(
                    f@,
                    n as int,
                    b as int,
                    eps,
                    jb + 1 + k,
                    jb as int,
                    #[trigger] out@[k],
                ),
        decreases nb - ib,
    {
        proof {
            tile_starts(n as int, b as int, ib as int);
            extent_inside(n as int, b as int, ib as int);
        }
        let (r0, bm) = block_extent(n, b, ib);
        proof {
            tile_fits(n as int, n as int, bm as int, bn as int);
        }
        let t = cut_tile(f, n, n, r0, c0, bm, bn);
        let cap: usize = if bm <= bn {
            bm
        } else {
            bn
        };
        let lr = compress_aca(t.as_slice(), bm, bn, eps, cap);
        let one = TileProbe { rows: bm, cols: bn, rank: lr.rank };
        proof {
            probe_is(f@, n as int, b as int, eps, ib as int, jb as int, one, lr);
        }
        let ghost out0 = out@;
        out.push(one);
        ib = ib + 1;
        proof {
            assert forall|k: int| 0 <= k < out@.len() implies probes(
                f@,
                n as int,
                b as int,
                eps,
                jb + 1 + k,
                jb as int,
                #[trigger] out@[k],
            ) by {
                if k < out0.len() {
                    assert(out@[k] == out0[k]);
                }
            }
        }
    }
    out
}

/// How well all tiles below the diagonal compress, one list per block-column.
pub fn probe_front<T: Scalar>(f: &[T], n: usize, b: usize, eps: T::Real) -> (r: Vec<Vec<TileProbe>>)
    requires
        b > 0,
        f@.len() == n * n,
    ensures
        r@.len() == tiles(n as int, b as int),
        forall|j: int|
            0 <= j < r@.len() ==> (#[trigger] r@[j])@.len() == tiles(n as int, b as int) - 1 - j,
        forall|j: int, k: int|
            0 <= j < r@.len() && 0 <= k < r@[j]@.len() ==> probes(
                f@,
                n as int,
                b as int,
                eps,
                j + 1 + k,
                j,
                #[trigger] r@[j]@[k],
            ),
{
    let nb: usize = tile_count(n, b);
    let mut out: Vec<Vec<TileProbe>> = Vec::new();
    let mut jb: usize = 0;
    while jb < nb
        invariant
            jb <= nb,
            nb == tiles(n as int, b as int),
            b > 0,
            f@.len() == n * n,
            out@.len() == jb,
            forall|j: int| 0 <= j < jb ==> (#[trigger] out@[j])@.len() == nb - 1 - j,
            forall|j: int, k: int|
                0 <= j < jb && 0 <= k < out@[j]@.len() ==> probes(
                    f@,
                    n as int,
                    b as int,
                    eps,
                    j + 1 + k,
                    j,
                    #[trigger] out@[j]@[k],
                ),
        decreases nb - jb,
    {
        let one = probe_column(f, n, b, eps, jb);
        out.push(one);
        jb = jb + 1;
    }
    out
}

/// The sums over probed tiles, each held at the largest representable count.
#[derive(Debug, Clone, Copy, PartialEq, Eq)]
pub struct ProbeTally {
    pub blocks: usize,
    /// Entries of the dense tiles.
    pub dense: u64,
    /// Entries of their compressed forms.
    pub compressed: u64,
    pub ranks: u64,
}

/// Dense entries, compressed entries and ranks of the first `k` tiles.
pub open spec fn tallied(t: Seq<TileProbe>, k: int) -> (int, int, int)
    decreases k,
{
    if k <= 0 {
        (0, 0, 0)
    } else {
        let (d, c, r) = tallied(t, k - 1);
        let one = t[k - 1];
        (
            d + one.rows * one.cols,
            c + one.rank * one.rows + one.rank * one.cols,
            r + one.rank,
        )
    }
}

proof fn tally_is_positive(t: Seq<TileProbe>, k: int)
    ensures
        tallied(t, k).0 >= 0,
        tallied(t, k).1 >= 0,
        tallied(t, k).2 >= 0,
    decreases k,
{
    if k > 0 {
        tally_is_positive(t, k - 1);
        let one = t[k - 1];
        assert(one.rows * one.cols >= 0 && one.rank * one.rows >= 0 && one.rank * one.cols >= 0)
            by (nonlinear_arith)
            requires
                one.rows >= 0,
                one.cols >= 0,
                one.rank >= 0,
        ;
    }
}

/// Add up the tiles of a probe.
pub fn tally(t: &[TileProbe]) -> (r: ProbeTally)
    ensures
        r.blocks == t@.len(),
        r.dense == saturated(tallied(t@, t@.len() as int).0),
        r.compressed == saturated(tallied(t@, t@.len() as int).1),
        r.ranks == saturated(tallied(t@, t@.len() as int).2),
{
    let mut dense: u64 = 0;
    let mut compressed: u64 = 0;
    let mut ranks: u64 = 0;
    let mut k: usize = 0;
    while k < t.len()
        invariant
            k <= t@.len(),
            dense == saturated(tallied(t@, k as int).0),
            compressed == saturated(tallied(t@, k as int).1),
            ranks == saturated(tallied(t@, k as int).2),
        decreases t@.len() - k,
    {
        let one = t[k];
        proof {
            tally_is_positive(t@, k as int);
            tally_is_positive(t@, k + 1);
            assert(one.rank * one.rows >= 0 && one.rank * one.cols >= 0) by (nonlinear_arith)
                requires
                    one.rows >= 0,
                    one.cols >= 0,
                    one.rank >= 0,
            ;
        }
        dense = dense.saturating_add(product_of(one.rows as u64, one.cols as u64));
        compressed = compressed.saturating_add(product_of(one.rank as u64, one.rows as u64));
        compressed = compressed.saturating_add(product_of(one.rank as u64, one.cols as u64));
        ranks = ranks.saturating_add(one.rank as u64);
        k = k + 1;
    }
    ProbeTally { blocks: t.len(), dense, compressed, ranks }
}

} // verus!
