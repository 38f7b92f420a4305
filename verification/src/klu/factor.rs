//! The numeric factorization: every diagonal block is factored on its own, and
//! the entries above the blocks are kept as they are.

use crate::error::RslabError;
use crate::klu::block::{columns_wf, factor_block, has_no_pivot, BlockLu};
use crate::klu::form::{block_range, cuts_ok, in_block};
use crate::klu::gather::{
    is_column, kept, reaches_below, row_scale_inv, row_scales, scaled_entries, split_column,
    split_entry,
};
use crate::klu::model::{covers, fill_ok};
use crate::klu::plan::{blocks_parallel, compute_replay_plan, pipelined_blocks};
use crate::klu::replay::{is_usable, usable};
use crate::klu::settings::{stays_raised, was_raised, KluParallel, KluSettings};
use crate::klu::symbolic::{largest_block, KluSymbolic};
use crate::klu::trace::{sweep, sweep_fails, sweep_reads_views, sweep_stays_stuck};
use crate::scalar::Scalar;
use crate::seqs::{copied, inverse_of, is_permutation, occurs};
use crate::sparse::{dense, pointers_ok, GeneralCsc, SparseColumn};
use std::sync::atomic::AtomicBool;
use std::sync::Arc;
use vstd::prelude::*;

verus! {

/// The columns `bs..be` of the scaled, permuted matrix, cut to the rows of the
/// same block.
pub open spec fn block_columns<T: Scalar>(
    cols: Seq<SparseColumn<T>>,
    a: GeneralCsc<T>,
    rs: Seq<T::Real>,
    pinv: Seq<usize>,
    col_perm: Seq<usize>,
    bs: int,
    be: int,
) -> bool {
    &&& cols.len() == be - bs
    &&& forall|c: int|
        0 <= c < be - bs ==> is_column(
            #[trigger] cols[c],
            kept(scaled_entries(a, rs, pinv, col_perm[bs + c] as int), bs, be),
        )
}

/// The numeric factorization `P R A Q = L U + F`: the factors of the diagonal
/// blocks, the entries `F` above them, and the frozen pattern of `A`.
#[derive(Clone)]
pub struct KluFactors<T: Scalar> {
    /// The flag armed for the factorization; refactoring polls it too.
    pub interrupt: Option<Arc<AtomicBool>>,
    pub n: usize,
    /// The pattern that was factored.
    pub col_ptr: Vec<usize>,
    pub row_idx: Vec<usize>,
    pub block_ptr: Vec<usize>,
    /// Row permutation before pivoting: position `k` holds this row.
    pub pre_row_perm: Vec<usize>,
    /// The position of every row before pivoting.
    pub pinv: Vec<usize>,
    pub col_perm: Vec<usize>,
    /// The factor that every row is multiplied by.
    pub rs_inv: Vec<T::Real>,
    pub scaled: bool,
    /// Whether the blocks were admitted to parallel factorization.
    pub parallel: bool,
    /// The factored diagonal blocks.
    pub blocks: Vec<BlockLu<T>>,
    /// The entries above the blocks, by column; rows are positions before
    /// pivoting.
    pub off: Vec<SparseColumn<T>>,
    /// The blocks admitted to the pipelined replay, with their worker counts.
    pub pipelined: Vec<(usize, usize)>,
    /// Whether the blocks are replayed in parallel.
    pub par_refactor: bool,
}

impl<T: Scalar> KluFactors<T> {
    /// The first position of block `b`, and with `b + 1` its end.
    pub open spec fn start(&self, b: int) -> int {
        self.block_ptr@[b] as int
    }

    /// The size of block `b`.
    pub open spec fn size(&self, b: int) -> int {
        self.block_ptr@[b + 1] - self.block_ptr@[b]
    }

    /// The rows of column `c` in the frozen pattern.
    pub open spec fn rows_at(&self, c: int) -> Seq<usize> {
        self.row_idx@.subrange(self.col_ptr@[c] as int, self.col_ptr@[c + 1] as int)
    }

    /// The permutations, boundaries and lengths fit together.
    pub open spec fn formed(&self) -> bool {
        &&& is_permutation(self.pre_row_perm@, self.n as int)
        &&& inverse_of(self.pinv@, self.pre_row_perm@)
        &&& is_permutation(self.col_perm@, self.n as int)
        &&& cuts_ok(self.n as int, self.block_ptr@)
        &&& self.rs_inv@.len() == self.n
        &&& self.blocks@.len() == self.block_ptr@.len() - 1
        &&& self.off@.len() == self.n
        &&& self.n < usize::MAX
        &&& pointers_ok(self.n as int, self.col_ptr@, self.row_idx@.len() as int)
    }

    /// The factors of block `b` take up every entry of the frozen pattern and
    /// all the fill.
    pub open spec fn block_covers(&self, b: int) -> bool {
        let lu = self.blocks@[b];
        let m = self.size(b);
        let bs = self.start(b);
        &&& lu.ready(m)
        &&& forall|c: int| 0 <= c < m ==> fill_ok(c, lu.fin@, lu.l_rows@, #[trigger] lu.u_rows@[c]@)
        &&& forall|c: int, r: int|
            0 <= c < m && 0 <= r < m && #[trigger] occurs(
                self.rows_at(self.col_perm@[bs + c] as int),
                self.pre_row_perm@[bs + r] as int,
            ) ==> {
                &&& lu.fin@[r] < c ==> occurs(lu.u_rows@[c]@, lu.fin@[r] as int)
                &&& lu.fin@[r] > c ==> occurs(lu.l_rows@[c]@, r)
            }
    }

    /// Nothing in the columns of block `b` lies below the block.
    pub open spec fn block_upper(&self, b: int) -> bool {
        forall|j: int, i: int|
            in_block(self.block_ptr@, b, j) && #[trigger] occurs(
                self.rows_at(self.col_perm@[j] as int),
                i,
            ) ==> self.pinv@[i] < self.block_ptr@[b + 1]
    }

    /// The entries above block `b` are in range.
    pub open spec fn off_wf(&self, b: int) -> bool {
        forall|j: int| #[trigger]
            in_block(self.block_ptr@, b, j) ==> self.off@[j].wf(self.start(b))
    }

    /// A complete factorization pattern.
    pub open spec fn wf(&self) -> bool {
        &&& self.formed()
        &&& forall|b: int| 0 <= b < self.blocks@.len() ==> #[trigger] self.block_covers(b)
        &&& forall|b: int| 0 <= b < self.blocks@.len() ==> #[trigger] self.block_upper(b)
        &&& forall|b: int| 0 <= b < self.blocks@.len() ==> #[trigger] self.off_wf(b)
    }

    /// The matrix has the frozen pattern.
    pub open spec fn fits(&self, a: GeneralCsc<T>) -> bool {
        &&& a.n == self.n
        &&& a.col_ptr@ == self.col_ptr@
        &&& a.row_idx@ == self.row_idx@
    }

    /// `cols` are the columns of block `b` of the matrix.
    pub open spec fn columns_of(&self, a: GeneralCsc<T>, b: int, cols: Seq<SparseColumn<T>>) -> bool {
        block_columns(
            cols,
            a,
            self.rs_inv@,
            self.pinv@,
            self.col_perm@,
            self.start(b),
            self.block_ptr@[b + 1] as int,
        )
    }

    /// The values of block `b` are those of the elimination.
    pub open spec fn block_valued(&self, a: GeneralCsc<T>, b: int) -> bool {
        exists|cols: Seq<SparseColumn<T>>| #[trigger]
            self.columns_of(a, b, cols) && self.blocks@[b].valued(self.size(b), self.size(b), cols)
    }

    /// The pivots of block `b` were chosen by threshold pivoting; a block of
    /// one column takes its entry.
    pub open spec fn block_pivoted(&self, a: GeneralCsc<T>, b: int, threshold: T::Real) -> bool {
        exists|cols: Seq<SparseColumn<T>>| #[trigger]
            self.columns_of(a, b, cols) && pivots_chosen(self.blocks@[b], self.size(b), cols, threshold)
    }

    /// No pivot of block `b` is zero or not finite.
    pub open spec fn block_usable(&self, b: int) -> bool {
        forall|c: int| 0 <= c < self.size(b) ==> usable(#[trigger] self.blocks@[b].d@[c])
    }

    /// The entries above block `b` are those of the matrix.
    pub open spec fn off_valued(&self, a: GeneralCsc<T>, b: int) -> bool {
        forall|j: int| #[trigger]
            in_block(self.block_ptr@, b, j) ==> is_column(
                self.off@[j],
                kept(
                    scaled_entries(a, self.rs_inv@, self.pinv@, self.col_perm@[j] as int),
                    0,
                    self.start(b),
                ),
            )
    }

    /// The factors hold the values of the matrix.
    pub open spec fn holds(&self, a: GeneralCsc<T>) -> bool {
        &&& self.rs_inv@ == row_scales(a, self.scaled)
        &&& forall|b: int| 0 <= b < self.blocks@.len() ==> #[trigger] self.block_valued(a, b)
        &&& forall|b: int| 0 <= b < self.blocks@.len() ==> #[trigger] self.off_valued(a, b)
    }

    /// Every pivot was chosen by threshold pivoting.
    pub open spec fn pivoted(&self, a: GeneralCsc<T>, threshold: T::Real) -> bool {
        forall|b: int|
            0 <= b < self.blocks@.len() ==> #[trigger] self.block_pivoted(a, b, threshold)
    }
}

/// The pivots of a diagonal block: threshold pivoting in the order of the
/// search, and for a single column its entry if that is usable.
pub open spec fn pivots_chosen<T: Scalar>(
    lu: BlockLu<T>,
    m: int,
    cols: Seq<SparseColumn<T>>,
    threshold: T::Real,
) -> bool {
    if m == 1 {
        cols[0]@.contains_key(0) && usable(cols[0]@[0])
    } else {
        lu.pivoted(m, m, cols, threshold) && lu.swept(m, cols, threshold) && lu.tight(m, cols)
    }
}

/// Why column `k` of a diagonal block has no pivot.
pub open spec fn no_block_pivot<T: Scalar>(
    m: int,
    k: int,
    cols: Seq<SparseColumn<T>>,
    threshold: T::Real,
) -> bool {
    if m == 1 {
        k == 0 && !(cols[0]@.contains_key(0) && usable(cols[0]@[0]))
    } else {
        has_no_pivot(m, k, cols, threshold) && sweep_fails(m, cols, threshold, k)
    }
}

/// Every column of a diagonal block finds a pivot.
pub open spec fn completes<T: Scalar>(
    m: int,
    cols: Seq<SparseColumn<T>>,
    threshold: T::Real,
) -> bool {
    if m == 1 {
        cols[0]@.contains_key(0) && usable(cols[0]@[0])
    } else {
        sweep(m, cols, threshold, m) is Some
    }
}

/// The columns of a block are determined.
pub proof fn columns_agree<T: Scalar>(
    cols1: Seq<SparseColumn<T>>,
    cols2: Seq<SparseColumn<T>>,
    a: GeneralCsc<T>,
    rs: Seq<T::Real>,
    pinv: Seq<usize>,
    col_perm: Seq<usize>,
    bs: int,
    be: int,
)
    requires
        block_columns(cols1, a, rs, pinv, col_perm, bs, be),
        block_columns(cols2, a, rs, pinv, col_perm, bs, be),
    ensures
        forall|c: int| 0 <= c < be - bs ==> #[trigger] cols1[c].rows@ == cols2[c].rows@,
        forall|c: int| 0 <= c < be - bs ==> #[trigger] cols1[c].vals@ == cols2[c].vals@,
{
    assert forall|c: int| 0 <= c < be - bs implies #[trigger] cols1[c].rows@ == cols2[c].rows@
        && cols1[c].vals@ == cols2[c].vals@ by {
        assert(is_column(cols2[c], kept(scaled_entries(a, rs, pinv, col_perm[bs + c] as int), bs, be)));
        assert(cols1[c].rows@ =~= cols2[c].rows@);
        assert(cols1[c].vals@ =~= cols2[c].vals@);
    }
    assert forall|c: int| 0 <= c < be - bs implies #[trigger] cols1[c].vals@ == cols2[c].vals@ by {
        assert(cols1[c].rows@ == cols2[c].rows@);
    }
}

/// One column at most is the first without a pivot, and none is where every
/// column finds one.
pub proof fn one_outcome<T: Scalar>(
    m: int,
    cols1: Seq<SparseColumn<T>>,
    cols2: Seq<SparseColumn<T>>,
    threshold: T::Real,
    k: int,
)
    requires
        0 <= k < m,
        cols1.len() == m,
        cols2.len() == m,
        forall|c: int| 0 <= c < m ==> #[trigger] cols1[c].rows@ == cols2[c].rows@,
        forall|c: int| 0 <= c < m ==> #[trigger] cols1[c].vals@ == cols2[c].vals@,
        no_block_pivot(m, k, cols1, threshold),
    ensures
        !completes(m, cols2, threshold),
        forall|k2: int|
            0 <= k2 < m && #[trigger] no_block_pivot(m, k2, cols2, threshold) ==> k2 == k,
{
    if m == 1 {
        assert(cols1[0].rows@ == cols2[0].rows@);
        assert(cols1[0].vals@ == cols2[0].vals@);
        assert(cols1[0]@ == cols2[0]@);
    } else {
        sweep_stays_stuck(m, cols1, threshold, k + 1, m);
        sweep_reads_views(m, cols1, cols2, threshold, m);
        assert forall|k2: int| 0 <= k2 < m && #[trigger] no_block_pivot(m, k2, cols2, threshold) implies k2
            == k by {
            if k < k2 {
                sweep_stays_stuck(m, cols1, threshold, k + 1, k2);
                sweep_reads_views(m, cols1, cols2, threshold, k2);
            } else if k2 < k {
                sweep_stays_stuck(m, cols2, threshold, k2 + 1, k);
                sweep_reads_views(m, cols1, cols2, threshold, k);
            }
        }
    }
}

/// What the factorization of a diagonal block gives: the factors, or the first
/// column that has no pivot.
pub open spec fn block_outcome<T: Scalar>(
    m: int,
    cols: Seq<SparseColumn<T>>,
    threshold: T::Real,
    r: Result<BlockLu<T>, usize>,
) -> bool {
    match r {
        Ok(lu) => {
            &&& lu.structured(m, m, cols)
            &&& lu.valued(m, m, cols)
            &&& pivots_chosen(lu, m, cols, threshold)
        },
        Err(k) => k < m && no_block_pivot(m, k as int, cols, threshold),
    }
}

/// Factor a diagonal block, or report the column that has no pivot.
pub fn factor_diagonal<T: Scalar>(
    m: usize,
    cols: &Vec<SparseColumn<T>>,
    threshold: T::Real,
) -> (r: Result<BlockLu<T>, usize>)
    requires
        columns_wf(m as int, cols@),
        0 < m < usize::MAX,
    ensures
        block_outcome(m as int, cols@, threshold, r),
{
    if m != 1 {
        return factor_block(m, cols, threshold);
    }
    let col = &cols[0];
    assert(cols@[0].wf(1));
    if col.rows.len() == 0 {
        return Err(0);
    }
    let d = col.vals[0];
    proof {
        assert(col.rows@[0] < 1);
        crate::sparse::col_map_at(col.rows@, col.vals@, 0);
    }
    if !is_usable(d) {
        return Err(0);
    }
    let mut piv: Vec<usize> = Vec::new();
    piv.push(0);
    let mut fin: Vec<usize> = Vec::new();
    fin.push(0);
    let mut l_rows: Vec<Vec<usize>> = Vec::new();
    l_rows.push(Vec::new());
    let mut l_vals: Vec<Vec<T>> = Vec::new();
    l_vals.push(Vec::new());
    let mut u_rows: Vec<Vec<usize>> = Vec::new();
    u_rows.push(Vec::new());
    let mut u_vals: Vec<Vec<T>> = Vec::new();
    u_vals.push(Vec::new());
    let mut ds: Vec<T> = Vec::new();
    ds.push(d);
    let lu = BlockLu { piv, fin, l_rows, l_vals, u_rows, u_vals, d: ds };
    proof {
        assert forall|p: int, r: int|
            0 <= p < 1 && #[trigger] occurs(lu.l_rows@[p]@, r) implies 0 <= r < 1 && lu.fin@[r] > p by {
            assert(lu.l_rows@[0]@.len() == 0);
        }
        assert forall|c: int| 0 <= c < 1 implies covers(
            c,
            lu.fin@,
            lu.l_rows@,
            #[trigger] lu.u_rows@[c]@,
            cols@[c].rows@,
        ) by {
            assert forall|r: int| #[trigger] occurs(cols@[0].rows@, r) implies lu.fin@[r] == 0 by {
                let q = crate::sparse::position(cols@[0].rows@, r);
                assert(cols@[0].rows@[q] < 1);
            }
        }
        assert(lu.structured(1, 1, cols@));
        assert forall|c: int| 0 <= c < 1 implies crate::klu::model::column_ok(
            1,
            c,
            #[trigger] cols@[c]@,
            lu.piv@,
            lu.lm(),
            lu.u_rows@[c]@,
            lu.u_vals@[c]@,
            lu.d@[c],
        ) by {
            assert forall|r: int| !(#[trigger] lu.lm()[0].contains_key(r)) by {
                assert(lu.l_rows@[0]@.len() == 0);
                assert(!occurs(lu.l_rows@[0]@, r));
            }
            assert(dense(1, cols@[0]@)[0] == d);
        }
    }
    Ok(lu)
}

/// The columns of a block cover the frozen pattern when its factors do.
pub proof fn block_structure<T: Scalar>(
    f: KluFactors<T>,
    a: GeneralCsc<T>,
    b: int,
    cols: Seq<SparseColumn<T>>,
)
    requires
        f.formed(),
        f.fits(a),
        a.wf(),
        0 <= b < f.blocks@.len(),
        f.columns_of(a, b, cols),
    ensures
        columns_wf(f.size(b), cols),
        f.block_covers(b) <==> f.blocks@[b].structured(f.size(b), f.size(b), cols),
{
    let lu = f.blocks@[b];
    let m = f.size(b);
    let bs = f.start(b);
    let be = bs + m;
    block_range(f.n as int, f.block_ptr@, b);
    assert forall|c: int, r: int| 0 <= c < m && 0 <= r < m implies (#[trigger] occurs(cols[c].rows@, r) <==> occurs(
        f.rows_at(f.col_perm@[bs + c] as int),
        f.pre_row_perm@[bs + r] as int,
    )) by {
        let oc = f.col_perm@[bs + c] as int;
        assert(f.col_perm@[bs + c] < f.n);
        split_entry(a, f.rs_inv@, f.pre_row_perm@, f.pinv@, oc, bs, be, cols[c], r);
        assert(a.rows_of(oc) == f.rows_at(oc));
    }
    assert forall|c: int| 0 <= c < m implies (#[trigger] cols[c]).wf(m) by {
        let oc = f.col_perm@[bs + c] as int;
        assert(f.col_perm@[bs + c] < f.n);
        crate::klu::gather::scaled_distinct(a, f.rs_inv@, f.pre_row_perm@, f.pinv@, oc);
        crate::klu::gather::kept_wf(scaled_entries(a, f.rs_inv@, f.pinv@, oc), bs, be, cols[c]);
    }
    if f.block_covers(b) {
        assert forall|c: int| 0 <= c < m implies covers(
            c,
            lu.fin@,
            lu.l_rows@,
            #[trigger] lu.u_rows@[c]@,
            cols[c].rows@,
        ) by {
            assert forall|r: int| #[trigger] occurs(cols[c].rows@, r) implies {
                &&& lu.fin@[r] < c ==> occurs(lu.u_rows@[c]@, lu.fin@[r] as int)
                &&& lu.fin@[r] > c ==> occurs(lu.l_rows@[c]@, r)
            } by {
                let q = crate::sparse::position(cols[c].rows@, r);
                assert(cols[c].wf(m));
                assert(cols[c].rows@[q] < m);
                assert(occurs(
                    f.rows_at(f.col_perm@[bs + c] as int),
                    f.pre_row_perm@[bs + r] as int,
                ));
            }
        }
    }
    if lu.structured(m, m, cols) {
        assert forall|c: int, r: int|
            0 <= c < m && 0 <= r < m && #[trigger] occurs(
                f.rows_at(f.col_perm@[bs + c] as int),
                f.pre_row_perm@[bs + r] as int,
            ) implies {
            &&& lu.fin@[r] < c ==> occurs(lu.u_rows@[c]@, lu.fin@[r] as int)
            &&& lu.fin@[r] > c ==> occurs(lu.l_rows@[c]@, r)
        } by {
            assert(occurs(cols[c].rows@, r));
            assert(covers(c, lu.fin@, lu.l_rows@, lu.u_rows@[c]@, cols[c].rows@));
        }
    }
}

/// Gather the columns of the block `bs..be` and append the entries above it.
/// The second result is the first column with an entry below the block.
pub fn gather_block<T: Scalar>(
    a: &GeneralCsc<T>,
    rs: &Vec<T::Real>,
    pinv: &Vec<usize>,
    Ghost(perm): Ghost<Seq<usize>>,
    col_perm: &Vec<usize>,
    bs: usize,
    be: usize,
    off: &mut Vec<SparseColumn<T>>,
) -> (r: (Vec<SparseColumn<T>>, usize))
    requires
        a.wf(),
        rs@.len() == a.n,
        is_permutation(perm, a.n as int),
        inverse_of(pinv@, perm),
        is_permutation(col_perm@, a.n as int),
        bs < be <= a.n,
        old(off)@.len() == bs,
    ensures
        block_columns(r.0@, *a, rs@, pinv@, col_perm@, bs as int, be as int),
        columns_wf(be - bs, r.0@),
        final(off)@.len() == be,
        forall|j: int| 0 <= j < bs ==> #[trigger] final(off)@[j] == old(off)@[j],
        forall|j: int|
            bs <= j < be ==> (#[trigger] final(off)@[j]).wf(bs as int) && is_column(
                final(off)@[j],
                kept(scaled_entries(*a, rs@, pinv@, col_perm@[j] as int), 0, bs as int),
            ),
        r.1 <= be - bs,
        forall|c: int|
            0 <= c < r.1 ==> !reaches_below(*a, pinv@, #[trigger] col_perm@[bs + c] as int, be as int),
        r.1 < be - bs ==> reaches_below(*a, pinv@, col_perm@[bs + r.1] as int, be as int),
{
    let ghost off0 = off@;
    let m: usize = be - bs;
    let mut cols: Vec<SparseColumn<T>> = Vec::new();
    let mut bad: usize = m;
    let mut c: usize = 0;
    while c < m
        invariant
            c <= m,
            m == be - bs,
            a.wf(),
            rs@.len() == a.n,
            is_permutation(perm, a.n as int),
            inverse_of(pinv@, perm),
            is_permutation(col_perm@, a.n as int),
            bs < be <= a.n,
            cols@.len() == c,
            off@.len() == bs + c,
            forall|i: int|
                0 <= i < c ==> is_column(
                    #[trigger] cols@[i],
                    kept(scaled_entries(*a, rs@, pinv@, col_perm@[bs + i] as int), bs as int, be as int),
                ) && cols@[i].wf(m as int),
            forall|j: int| 0 <= j < bs ==> #[trigger] off@[j] == off0[j],
            forall|j: int|
                bs <= j < bs + c ==> (#[trigger] off@[j]).wf(bs as int) && is_column(
                    off@[j],
                    kept(scaled_entries(*a, rs@, pinv@, col_perm@[j] as int), 0, bs as int),
                ),
            bad == m || bad < c,
            forall|i: int|
                0 <= i < c && i < bad ==> !reaches_below(
                    *a,
                    pinv@,
                    #[trigger] col_perm@[bs + i] as int,
                    be as int,
                ),
            bad < m ==> reaches_below(*a, pinv@, col_perm@[bs + bad] as int, be as int),
        decreases m - c,
    {
        assert(col_perm@[bs + c] < a.n);
        let (blk, above, under) = split_column(a, rs, pinv, Ghost(perm), col_perm[bs + c], bs, be);
        if under && bad == m {
            bad = c;
        }
        cols.push(blk);
        off.push(above);
        c = c + 1;
    }
    (cols, bad)
}

/// Block `b` of a factorization in the making.
pub open spec fn block_done<T: Scalar>(
    sym: KluSymbolic,
    a: GeneralCsc<T>,
    rs: Seq<T::Real>,
    b: int,
    lu: BlockLu<T>,
    cols: Seq<SparseColumn<T>>,
    threshold: T::Real,
) -> bool {
    let bs = sym.block_ptr@[b] as int;
    let be = sym.block_ptr@[b + 1] as int;
    &&& block_columns(cols, a, rs, sym.pinv_pre@, sym.col_perm@, bs, be)
    &&& lu.structured(be - bs, be - bs, cols)
    &&& lu.valued(be - bs, be - bs, cols)
    &&& pivots_chosen(lu, be - bs, cols, threshold)
}

/// Some column has an entry below its block.
pub open spec fn misfit<T>(sym: KluSymbolic, a: GeneralCsc<T>) -> bool {
    exists|b: int, j: int| #[trigger]
        in_block(sym.block_ptr@, b, j) && reaches_below(
            a,
            sym.pinv_pre@,
            sym.col_perm@[j] as int,
            sym.block_ptr@[b + 1] as int,
        )
}

/// Every column of block `b` finds a pivot.
pub open spec fn block_completes<T: Scalar>(
    sym: KluSymbolic,
    a: GeneralCsc<T>,
    settings: KluSettings<T::Real>,
    b: int,
) -> bool {
    let bs = sym.block_ptr@[b] as int;
    let be = sym.block_ptr@[b + 1] as int;
    exists|cols: Seq<SparseColumn<T>>| #[trigger]
        block_columns(
            cols,
            a,
            row_scales(a, settings.row_scaling),
            sym.pinv_pre@,
            sym.col_perm@,
            bs,
            be,
        ) && completes(be - bs, cols, settings.pivot_threshold)
}

/// Column `k` of block `b` is the first without a pivot, and nothing up to it
/// lies below its block.
pub open spec fn pivot_fails<T: Scalar>(
    sym: KluSymbolic,
    a: GeneralCsc<T>,
    settings: KluSettings<T::Real>,
    b: int,
    k: int,
) -> bool {
    let bs = sym.block_ptr@[b] as int;
    let be = sym.block_ptr@[b + 1] as int;
    &&& in_block(sym.block_ptr@, b, bs + k)
    &&& exists|cols: Seq<SparseColumn<T>>| #[trigger]
        block_columns(
            cols,
            a,
            row_scales(a, settings.row_scaling),
            sym.pinv_pre@,
            sym.col_perm@,
            bs,
            be,
        ) && no_block_pivot(be - bs, k, cols, settings.pivot_threshold)
    &&& forall|b2: int| 0 <= b2 < b ==> #[trigger] block_completes(sym, a, settings, b2)
    &&& forall|b2: int, j: int|
        j <= bs + k && #[trigger] in_block(sym.block_ptr@, b2, j) ==> !reaches_below(
            a,
            sym.pinv_pre@,
            sym.col_perm@[j] as int,
            sym.block_ptr@[b2 + 1] as int,
        )
}

/// Some column is the first without a pivot.
pub open spec fn lacks_pivot<T: Scalar>(
    sym: KluSymbolic,
    a: GeneralCsc<T>,
    settings: KluSettings<T::Real>,
) -> bool {
    exists|b: int, k: int| #[trigger] pivot_fails(sym, a, settings, b, k)
}

/// Why a factorization is refused.
pub open spec fn factor_refused<T: Scalar>(
    sym: KluSymbolic,
    a: GeneralCsc<T>,
    settings: KluSettings<T::Real>,
    e: RslabError,
) -> bool {
    match e {
        RslabError::InvalidInput(_) => !a.wf() || (a.n == sym.n && a.row_idx@.len() != sym.nnz) || (
        a.n == sym.n && misfit(sym, a) && !lacks_pivot(sym, a, settings)),
        RslabError::DimensionMismatch { expected, got } => a.wf() && a.n != sym.n && expected == sym.n
            && got == a.n,
        RslabError::SingularBasis { column } => a.wf() && a.n == sym.n && a.row_idx@.len()
            == sym.nnz && exists|b: int, k: int|
            #![trigger pivot_fails(sym, a, settings, b, k)]
            pivot_fails(sym, a, settings, b, k) && column == sym.col_perm@[sym.block_ptr@[b] + k],
        RslabError::Interrupted => a.wf() && a.n == sym.n && a.row_idx@.len() == sym.nnz && was_raised(
            settings.interrupt,
        ),
        _ => false,
    }
}

/// The factorization is stopped at the first block: the input passes, there is
/// something to factor, and the flag stays raised.
pub open spec fn factor_stopped<T: Scalar>(
    sym: KluSymbolic,
    a: GeneralCsc<T>,
    settings: KluSettings<T::Real>,
) -> bool {
    &&& stays_raised(settings.interrupt)
    &&& a.wf()
    &&& a.n == sym.n
    &&& a.row_idx@.len() == sym.nnz
    &&& sym.block_ptr@.len() > 1
}

/// The blocks are factored in parallel: by order, or when the matrix is large
/// and no block holds more than half of it.
pub open spec fn goes_parallel<R>(sym: KluSymbolic, settings: KluSettings<R>) -> bool {
    let nb = sym.block_ptr@.len() - 1;
    nb > 1 && match settings.parallel {
        KluParallel::On => true,
        KluParallel::Off => false,
        KluParallel::Auto => sym.nnz >= settings.par_min_nnz && largest_block(sym.block_ptr@, nb) * 2
            <= sym.n,
    }
}

/// May the blocks be factored in parallel?
pub fn admits_parallel<R>(sym: &KluSymbolic, settings: &KluSettings<R>) -> (r: bool)
    requires
        sym.formed(),
    ensures
        r == goes_parallel(*sym, *settings),
{
    let max_bn: usize = sym.max_block_size();
    sym.block_ptr.len() > 2 && match settings.parallel {
        KluParallel::On => true,
        KluParallel::Off => false,
        KluParallel::Auto => sym.nnz >= settings.par_min_nnz && max_bn * 2 <= sym.n,
    }
}

/// The replay is planned: not switched off, and more than one block.
pub open spec fn plans_replay<R>(sym: KluSymbolic, settings: KluSettings<R>) -> bool {
    settings.parallel != KluParallel::Off && sym.block_ptr@.len() != 2
}

impl<T: Scalar> KluFactors<T> {
    /// The factorization of `a` under this analysis and these settings.
    pub open spec fn factors(
        &self,
        sym: KluSymbolic,
        a: GeneralCsc<T>,
        settings: KluSettings<T::Real>,
    ) -> bool {
        &&& self.wf()
        &&& a.wf()
        &&& self.fits(a)
        &&& self.holds(a)
        &&& self.pivoted(a, settings.pivot_threshold)
        &&& self.n == sym.n
        &&& self.block_ptr@ == sym.block_ptr@
        &&& self.pre_row_perm@ == sym.pre_row_perm@
        &&& self.pinv@ == sym.pinv_pre@
        &&& self.col_perm@ == sym.col_perm@
        &&& self.scaled == settings.row_scaling
        &&& self.interrupt == settings.interrupt
        &&& self.parallel == goes_parallel(sym, settings)
        &&& self.pipelined@ == (if plans_replay(sym, settings) {
            pipelined_blocks(
                self.blocks@,
                self.blocks@.len() as int,
                settings.par_min_work,
                settings.par_min_ratio,
            )
        } else {
            Seq::empty()
        })
        &&& self.par_refactor == (plans_replay(sym, settings) && blocks_parallel(
            self.blocks@,
            settings.parallel == KluParallel::On,
            settings.par_min_work,
            settings.par_min_ratio,
        ))
    }
}

/// The error of a matrix whose pattern is not the analyzed one.
pub fn pattern_mismatch() -> (r: RslabError)
    ensures
        r == RslabError::InvalidInput(
            "klu: matrix pattern does not match the symbolic analysis / stored factorization",
        ),
{
    RslabError::InvalidInput(
        "klu: matrix pattern does not match the symbolic analysis / stored factorization",
    )
}

/// A block that completes has no column without a pivot.
pub proof fn completes_or_fails<T: Scalar>(
    sym: KluSymbolic,
    a: GeneralCsc<T>,
    settings: KluSettings<T::Real>,
    b: int,
    k: int,
)
    requires
        block_completes(sym, a, settings, b),
    ensures
        !pivot_fails(sym, a, settings, b, k),
{
    if pivot_fails(sym, a, settings, b, k) {
        let bs = sym.block_ptr@[b] as int;
        let be = sym.block_ptr@[b + 1] as int;
        let rs = row_scales(a, settings.row_scaling);
        let thr = settings.pivot_threshold;
        let c1 = choose|cols: Seq<SparseColumn<T>>| #[trigger]
            block_columns(cols, a, rs, sym.pinv_pre@, sym.col_perm@, bs, be) && no_block_pivot(
                be - bs,
                k,
                cols,
                thr,
            );
        let c2 = choose|cols: Seq<SparseColumn<T>>| #[trigger]
            block_columns(cols, a, rs, sym.pinv_pre@, sym.col_perm@, bs, be) && completes(
                be - bs,
                cols,
                thr,
            );
        columns_agree(c1, c2, a, rs, sym.pinv_pre@, sym.col_perm@, bs, be);
        one_outcome(be - bs, c1, c2, thr, k);
    }
}

/// An entry below block `b` that comes before any column without a pivot.
proof fn misfit_first<T: Scalar>(
    sym: KluSymbolic,
    a: GeneralCsc<T>,
    settings: KluSettings<T::Real>,
    b: int,
    bad: int,
    cols: Seq<SparseColumn<T>>,
    fails: Option<int>,
)
    requires
        sym.formed(),
        0 <= b < sym.block_ptr@.len() - 1,
        in_block(sym.block_ptr@, b, sym.block_ptr@[b] + bad),
        reaches_below(
            a,
            sym.pinv_pre@,
            sym.col_perm@[sym.block_ptr@[b] + bad] as int,
            sym.block_ptr@[b + 1] as int,
        ),
        forall|b2: int| 0 <= b2 < b ==> #[trigger] block_completes(sym, a, settings, b2),
        block_columns(
            cols,
            a,
            row_scales(a, settings.row_scaling),
            sym.pinv_pre@,
            sym.col_perm@,
            sym.block_ptr@[b] as int,
            sym.block_ptr@[b + 1] as int,
        ),
        match fails {
            Some(k) => bad <= k < cols.len() && no_block_pivot(
                cols.len() as int,
                k,
                cols,
                settings.pivot_threshold,
            ),
            None => block_completes(sym, a, settings, b),
        },
    ensures
        !lacks_pivot(sym, a, settings),
{
    let bs = sym.block_ptr@[b] as int;
    let be = sym.block_ptr@[b + 1] as int;
    let rs = row_scales(a, settings.row_scaling);
    let thr = settings.pivot_threshold;
    assert forall|b2: int, k2: int| !(#[trigger] pivot_fails(sym, a, settings, b2, k2)) by {
        if pivot_fails(sym, a, settings, b2, k2) {
            let bs2 = sym.block_ptr@[b2] as int;
            assert(in_block(sym.block_ptr@, b2, bs2 + k2));
            if b2 < b {
                completes_or_fails(sym, a, settings, b2, k2);
            } else if b2 == b {
                match fails {
                    None => {
                        completes_or_fails(sym, a, settings, b, k2);
                    },
                    Some(k) => {
                        let c2 = choose|c: Seq<SparseColumn<T>>| #[trigger]
                            block_columns(c, a, rs, sym.pinv_pre@, sym.col_perm@, bs, be)
                                && no_block_pivot(be - bs, k2, c, thr);
                        columns_agree(cols, c2, a, rs, sym.pinv_pre@, sym.col_perm@, bs, be);
                        one_outcome(be - bs, cols, c2, thr, k);
                        assert(k2 == k);
                        assert(in_block(sym.block_ptr@, b, bs + bad));
                    },
                }
            } else {
                crate::klu::form::block_order(sym.n as int, sym.block_ptr@, b, b2, bs + bad, bs2 + k2);
            }
        }
    }
}

/// The columns of one diagonal block, ready to be factored.
pub struct BlockTask<T> {
    pub cols: Vec<SparseColumn<T>>,
    /// The first column with an entry below the block; the size of the block
    /// where there is none.
    pub bad: usize,
}

/// A factorization cut into its blocks, which share nothing.
pub struct FactorPlan<T: Scalar> {
    /// The factor that every row is multiplied by.
    pub rs_inv: Vec<T::Real>,
    pub tasks: Vec<BlockTask<T>>,
    /// The entries above the blocks, by column.
    pub off: Vec<SparseColumn<T>>,
}

/// The task is that of block `b`.
pub open spec fn task_of<T: Scalar>(
    sym: KluSymbolic,
    a: GeneralCsc<T>,
    rs: Seq<T::Real>,
    b: int,
    task: BlockTask<T>,
) -> bool {
    let bs = sym.block_ptr@[b] as int;
    let be = sym.block_ptr@[b + 1] as int;
    &&& block_columns(task.cols@, a, rs, sym.pinv_pre@, sym.col_perm@, bs, be)
    &&& columns_wf(be - bs, task.cols@)
    &&& task.bad <= be - bs
    &&& forall|c: int|
        0 <= c < task.bad ==> !reaches_below(a, sym.pinv_pre@, #[trigger] sym.col_perm@[bs + c] as int, be)
    &&& task.bad < be - bs ==> reaches_below(a, sym.pinv_pre@, sym.col_perm@[bs + task.bad] as int, be)
}

/// Column `j` of block `b` keeps its entries above the block.
pub open spec fn off_of<T: Scalar>(
    sym: KluSymbolic,
    a: GeneralCsc<T>,
    rs: Seq<T::Real>,
    b: int,
    j: int,
    col: SparseColumn<T>,
) -> bool {
    &&& col.wf(sym.block_ptr@[b] as int)
    &&& is_column(
        col,
        kept(
            scaled_entries(a, rs, sym.pinv_pre@, sym.col_perm@[j] as int),
            0,
            sym.block_ptr@[b] as int,
        ),
    )
}

/// The plan belongs to this analysis, matrix and row scaling.
pub open spec fn plan_of<T: Scalar>(
    sym: KluSymbolic,
    a: GeneralCsc<T>,
    scaled: bool,
    plan: FactorPlan<T>,
) -> bool {
    &&& a.wf()
    &&& a.n == sym.n
    &&& a.row_idx@.len() == sym.nnz
    &&& plan.rs_inv@ == row_scales(a, scaled)
    &&& plan.rs_inv@.len() == sym.n
    &&& plan.tasks@.len() == sym.block_ptr@.len() - 1
    &&& plan.off@.len() == sym.n
    &&& forall|b: int|
        0 <= b < plan.tasks@.len() ==> task_of(sym, a, plan.rs_inv@, b, #[trigger] plan.tasks@[b])
    &&& forall|b: int, j: int| #[trigger]
        in_block(sym.block_ptr@, b, j) ==> off_of(sym, a, plan.rs_inv@, b, j, plan.off@[j])
}

/// A matrix that cannot be cut into the analyzed blocks: malformed, of another
/// size, or with another number of entries.
pub open spec fn plan_refused<T>(sym: KluSymbolic, a: GeneralCsc<T>, e: RslabError) -> bool {
    match e {
        RslabError::InvalidInput(_) => !a.wf() || (a.n == sym.n && a.row_idx@.len() != sym.nnz),
        RslabError::DimensionMismatch { expected, got } => a.wf() && a.n != sym.n && expected == sym.n
            && got == a.n,
        _ => false,
    }
}

/// Cut a matrix into the analyzed blocks.
pub fn plan_factor<T: Scalar>(sym: &KluSymbolic, a: &GeneralCsc<T>, scaled: bool) -> (r: Result<
    FactorPlan<T>,
    RslabError,
>)
    requires
        sym.formed(),
    ensures
        r matches Ok(plan) ==> plan_of(*sym, *a, scaled, plan),
        r matches Err(e) ==> plan_refused(*sym, *a, e),
{
    match a.validate() {
        Err(e) => {
            return Err(e);
        },
        Ok(()) => {},
    }
    let n: usize = sym.n;
    if a.n != n {
        return Err(RslabError::DimensionMismatch { expected: n, got: a.n });
    }
    if a.nnz() != sym.nnz {
        return Err(pattern_mismatch());
    }
    let rs_inv = row_scale_inv(a, scaled);
    let nblocks: usize = sym.block_ptr.len() - 1;
    let mut tasks: Vec<BlockTask<T>> = Vec::new();
    let mut off: Vec<SparseColumn<T>> = Vec::new();
    let mut b: usize = 0;
    while b < nblocks
        invariant
            b <= nblocks,
            nblocks == sym.block_ptr@.len() - 1,
            sym.formed(),
            a.wf(),
            n == sym.n,
            a.n == n,
            rs_inv@.len() == n,
            tasks@.len() == b,
            off@.len() == sym.block_ptr@[b as int],
            forall|b2: int| 0 <= b2 < b ==> task_of(*sym, *a, rs_inv@, b2, #[trigger] tasks@[b2]),
            forall|b2: int, j: int|
                b2 < b && #[trigger] in_block(sym.block_ptr@, b2, j) ==> off_of(
                    *sym,
                    *a,
                    rs_inv@,
                    b2,
                    j,
                    off@[j],
                ),
        decreases nblocks - b,
    {
        proof {
            block_range(n as int, sym.block_ptr@, b as int);
        }
        let bs: usize = sym.block_ptr[b];
        let be: usize = sym.block_ptr[b + 1];
        let ghost off0 = off@;
        let (cols, bad) = gather_block(
            a,
            &rs_inv,
            &sym.pinv_pre,
            Ghost(sym.pre_row_perm@),
            &sym.col_perm,
            bs,
            be,
            &mut off,
        );
        let task = BlockTask { cols, bad };
        assert(task_of(*sym, *a, rs_inv@, b as int, task));
        tasks.push(task);
        proof {
            assert forall|b2: int, j: int|
                b2 < b + 1 && #[trigger] in_block(sym.block_ptr@, b2, j) implies off_of(
                *sym,
                *a,
                rs_inv@,
                b2,
                j,
                off@[j],
            ) by {
                if b2 < b {
                    if b2 + 1 < b {
                        assert(sym.block_ptr@[b2 + 1] < sym.block_ptr@[b as int]);
                    }
                    assert(off_of(*sym, *a, rs_inv@, b2, j, off0[j]));
                    assert(off@[j] == off0[j]);
                }
            }
        }
        b = b + 1;
    }
    Ok(FactorPlan { rs_inv, tasks, off })
}

/// Column `k` of block `b` is the first without a pivot.
proof fn fails_first<T: Scalar>(
    sym: KluSymbolic,
    a: GeneralCsc<T>,
    settings: KluSettings<T::Real>,
    b: int,
    k: int,
    task: BlockTask<T>,
)
    requires
        sym.formed(),
        0 <= b < sym.block_ptr@.len() - 1,
        task_of(sym, a, row_scales(a, settings.row_scaling), b, task),
        0 <= k < task.bad,
        no_block_pivot(task.cols@.len() as int, k, task.cols@, settings.pivot_threshold),
        forall|b2: int| 0 <= b2 < b ==> #[trigger] block_completes(sym, a, settings, b2),
        forall|b2: int, j: int|
            b2 < b && #[trigger] in_block(sym.block_ptr@, b2, j) ==> !reaches_below(
                a,
                sym.pinv_pre@,
                sym.col_perm@[j] as int,
                sym.block_ptr@[b2 + 1] as int,
            ),
    ensures
        pivot_fails(sym, a, settings, b, k),
{
    let bs = sym.block_ptr@[b] as int;
    let be = sym.block_ptr@[b + 1] as int;
    block_range(sym.n as int, sym.block_ptr@, b);
    assert(in_block(sym.block_ptr@, b, bs + k));
    assert forall|b2: int, j: int| j <= bs + k && #[trigger] in_block(sym.block_ptr@, b2, j) implies !reaches_below(
        a,
        sym.pinv_pre@,
        sym.col_perm@[j] as int,
        sym.block_ptr@[b2 + 1] as int,
    ) by {
        if b2 > b {
            crate::klu::form::block_order(sym.n as int, sym.block_ptr@, b, b2, bs + k, j);
        } else if b2 == b {
            assert(sym.col_perm@[bs + (j - bs)] == sym.col_perm@[j]);
        }
    }
    assert(block_columns(
        task.cols@,
        a,
        row_scales(a, settings.row_scaling),
        sym.pinv_pre@,
        sym.col_perm@,
        bs,
        be,
    ));
}

/// A block that ends the factorization: no pivot, or an entry below it.
pub open spec fn block_breaks<T>(task: BlockTask<T>, done: Result<BlockLu<T>, usize>) -> bool {
    done is Err || task.bad < task.cols@.len()
}

/// The blocks were factored in order, all of them or up to one that ends the
/// factorization.
pub open spec fn blocks_run<T: Scalar>(
    plan: FactorPlan<T>,
    threshold: T::Real,
    done: Seq<Result<BlockLu<T>, usize>>,
) -> bool {
    &&& done.len() <= plan.tasks@.len()
    &&& forall|b: int|
        0 <= b < done.len() ==> block_outcome(
            plan.tasks@[b].cols@.len() as int,
            plan.tasks@[b].cols@,
            threshold,
            #[trigger] done[b],
        )
    &&& done.len() < plan.tasks@.len() ==> done.len() > 0 && block_breaks(
        plan.tasks@[done.len() - 1],
        done[done.len() - 1],
    )
}

/// A list back to front.
fn turned<A>(v: Vec<A>) -> (r: Vec<A>)
    ensures
        r@ == v@.reverse(),
{
    let ghost v0 = v@;
    let mut v = v;
    let mut r: Vec<A> = Vec::new();
    while v.len() > 0
        invariant
            v@.len() + r@.len() == v0.len(),
            v@ == v0.take(v@.len() as int),
            forall|i: int| 0 <= i < r@.len() ==> #[trigger] r@[i] == v0[v0.len() - 1 - i],
        decreases v@.len(),
    {
        let ghost w = v@;
        match v.pop() {
            Some(x) => {
                assert(x == w.last());
                r.push(x);
                assert(v@ =~= v0.take(v@.len() as int));
            },
            None => {},
        }
    }
    assert(r@ =~= v0.reverse());
    r
}

/// Put the factored blocks together; the first block that ends the
/// factorization decides.
#[verifier::rlimit(60)]
pub fn join_factor<T: Scalar>(
    sym: &KluSymbolic,
    a: &GeneralCsc<T>,
    settings: &KluSettings<T::Real>,
    plan: FactorPlan<T>,
    done: Vec<Result<BlockLu<T>, usize>>,
) -> (r: Result<KluFactors<T>, RslabError>)
    requires
        sym.formed(),
        plan_of(*sym, *a, settings.row_scaling, plan),
        blocks_run(plan, settings.pivot_threshold, done@),
    ensures
        r matches Ok(f) ==> f.factors(*sym, *a, *settings) && !misfit(*sym, *a)
            && !lacks_pivot(*sym, *a, *settings) && a.row_idx@.len() == sym.nnz,
        r matches Err(e) ==> factor_refused(*sym, *a, *settings, e) && !(e is Interrupted),
{
    let ghost plan0 = plan;
    let ghost done0 = done@;
    let FactorPlan { rs_inv, tasks, off } = plan;
    let n: usize = sym.n;
    let nblocks: usize = sym.block_ptr.len() - 1;
    let parallel = admits_parallel(sym, settings);
    let ghost thr = settings.pivot_threshold;
    let ghost mut all: Seq<Seq<SparseColumn<T>>> = Seq::empty();
    let mut left = turned(done);
    let mut blocks: Vec<BlockLu<T>> = Vec::new();
    let mut b: usize = 0;
    while b < nblocks
        invariant
            b <= nblocks,
            nblocks == sym.block_ptr@.len() - 1,
            sym.formed(),
            n == sym.n,
            plan_of(*sym, *a, settings.row_scaling, plan0),
            blocks_run(plan0, settings.pivot_threshold, done0),
            rs_inv@ == plan0.rs_inv@,
            tasks@ == plan0.tasks@,
            off@ == plan0.off@,
            thr == settings.pivot_threshold,
            forall|b2: int| 0 <= b2 < b ==> #[trigger] block_completes(*sym, *a, *settings, b2),
            b <= done0.len(),
            left@ == done0.skip(b as int).reverse(),
            all.len() == b,
            blocks@.len() == b,
            forall|b2: int|
                0 <= b2 < b ==> #[trigger] block_done(
                    *sym,
                    *a,
                    rs_inv@,
                    b2,
                    blocks@[b2],
                    all[b2],
                    thr,
                ),
            forall|b2: int, j: int|
                b2 < b && #[trigger] in_block(sym.block_ptr@, b2, j) ==> !reaches_below(
                    *a,
                    sym.pinv_pre@,
                    sym.col_perm@[j] as int,
                    sym.block_ptr@[b2 + 1] as int,
                ),
            forall|b2: int| 0 <= b2 < b ==> !block_breaks(plan0.tasks@[b2], #[trigger] done0[b2]),
        decreases nblocks - b,
    {
        proof {
            block_range(n as int, sym.block_ptr@, b as int);
            if b == done0.len() {
                assert(block_breaks(plan0.tasks@[b - 1], done0[b - 1]));
            }
            assert(done0.skip(b as int).len() > 0);
            assert(left@.last() == done0[b as int]);
            assert(left@.drop_last() =~= done0.skip(b + 1).reverse());
            assert(task_of(*sym, *a, rs_inv@, b as int, tasks@[b as int]));
            assert(block_outcome(
                plan0.tasks@[b as int].cols@.len() as int,
                plan0.tasks@[b as int].cols@,
                thr,
                done0[b as int],
            ));
        }
        let bs: usize = sym.block_ptr[b];
        let be: usize = sym.block_ptr[b + 1];
        let bad: usize = tasks[b].bad;
        let ghost cols = tasks@[b as int].cols@;
        let run = left.pop().unwrap();
        match run {
            Err(k) => {
                if k < bad {
                    proof {
                        assert(sym.col_perm@[bs + k] < n);
                        fails_first(*sym, *a, *settings, b as int, k as int, tasks@[b as int]);
                    }
                    return Err(RslabError::SingularBasis { column: sym.col_perm[bs + k] });
                }
                proof {
                    assert(in_block(sym.block_ptr@, b as int, bs + bad));
                    misfit_first(*sym, *a, *settings, b as int, bad as int, cols, Some(k as int));
                }
                return Err(pattern_mismatch());
            },
            Ok(lu) => {
                assert(completes(be - bs, cols, thr));
                assert(block_completes(*sym, *a, *settings, b as int));
                if bad < be - bs {
                    proof {
                        assert(in_block(sym.block_ptr@, b as int, bs + bad));
                        misfit_first(*sym, *a, *settings, b as int, bad as int, cols, None);
                    }
                    return Err(pattern_mismatch());
                }
                proof {
                    let all0 = all;
                    let blocks0 = blocks@;
                    all = all.push(cols);
                    assert(block_done(*sym, *a, rs_inv@, b as int, lu, cols, thr));
                    assert forall|b2: int| 0 <= b2 < b + 1 implies #[trigger] block_done(
                        *sym,
                        *a,
                        rs_inv@,
                        b2,
                        blocks@.push(lu)[b2],
                        all[b2],
                        thr,
                    ) by {
                        if b2 < b {
                            assert(block_done(*sym, *a, rs_inv@, b2, blocks0[b2], all0[b2], thr));
                        }
                    }
                    assert forall|b2: int, j: int|
                        b2 < b + 1 && #[trigger] in_block(sym.block_ptr@, b2, j) implies !reaches_below(
                        *a,
                        sym.pinv_pre@,
                        sym.col_perm@[j] as int,
                        sym.block_ptr@[b2 + 1] as int,
                    ) by {
                        if b2 == b {
                            assert(sym.col_perm@[bs + (j - bs)] == sym.col_perm@[j]);
                        }
                    }
                }
                blocks.push(lu);
            },
        }
        b = b + 1;
    }
    proof {
        assert forall|b2: int, j: int| #[trigger] in_block(sym.block_ptr@, b2, j) implies off@[j].wf(
            sym.block_ptr@[b2] as int,
        ) && is_column(
            off@[j],
            kept(
                scaled_entries(*a, rs_inv@, sym.pinv_pre@, sym.col_perm@[j] as int),
                0,
                sym.block_ptr@[b2] as int,
            ),
        ) by {
            assert(off_of(*sym, *a, rs_inv@, b2, j, off@[j]));
        }
    }
    let planned = match settings.parallel {
        KluParallel::Off => false,
        _ => true,
    } && nblocks != 1;
    let force = match settings.parallel {
        KluParallel::On => true,
        _ => false,
    };
    proof {
        assert forall|b2: int| 0 <= b2 < blocks@.len() implies (#[trigger] blocks@[b2]).ready(
            blocks@[b2].m(),
        ) && blocks@[b2].m() < usize::MAX by {
            block_range(n as int, sym.block_ptr@, b2);
            assert(block_done(*sym, *a, rs_inv@, b2, blocks@[b2], all[b2], thr));
        }
    }
    let (pipelined, par_refactor) = if planned {
        compute_replay_plan(&blocks, force, settings.par_min_work, settings.par_min_ratio)
    } else {
        (Vec::new(), false)
    };
    let f = KluFactors {
        interrupt: copy_flag(&settings.interrupt),
        n,
        col_ptr: copied(&a.col_ptr),
        row_idx: copied(&a.row_idx),
        block_ptr: copied(&sym.block_ptr),
        pre_row_perm: copied(&sym.pre_row_perm),
        pinv: copied(&sym.pinv_pre),
        col_perm: copied(&sym.col_perm),
        rs_inv,
        scaled: settings.row_scaling,
        parallel,
        blocks,
        off,
        pipelined,
        par_refactor,
    };
    proof {
        assert forall|b2: int, k2: int| !(#[trigger] pivot_fails(*sym, *a, *settings, b2, k2)) by {
            if pivot_fails(*sym, *a, *settings, b2, k2) {
                assert(block_completes(*sym, *a, *settings, b2));
                completes_or_fails(*sym, *a, *settings, b2, k2);
            }
        }
        assert(f.formed());
        assert forall|b2: int| 0 <= b2 < f.blocks@.len() implies {
            &&& #[trigger] f.block_covers(b2)
            &&& f.block_upper(b2)
            &&& f.off_wf(b2)
            &&& f.block_valued(*a, b2)
            &&& f.off_valued(*a, b2)
            &&& f.block_pivoted(*a, b2, thr)
        } by {
            assert(block_done(*sym, *a, rs_inv@, b2, f.blocks@[b2], all[b2], thr));
            assert(f.columns_of(*a, b2, all[b2]));
            block_structure(f, *a, b2, all[b2]);
            assert forall|j: int, i: int|
                in_block(f.block_ptr@, b2, j) && #[trigger] occurs(
                    f.rows_at(f.col_perm@[j] as int),
                    i,
                ) implies f.pinv@[i] < f.block_ptr@[b2 + 1] by {
                let c = f.col_perm@[j] as int;
                block_range(n as int, f.block_ptr@, b2);
                assert(f.rows_at(c) == a.rows_of(c));
                let q = crate::sparse::position(a.rows_of(c), i);
                assert(a.rows_of(c)[q] == i);
                assert(!reaches_below(*a, sym.pinv_pre@, c, sym.block_ptr@[b2 + 1] as int));
            }
        }
        assert forall|b2: int| 0 <= b2 < f.blocks@.len() implies #[trigger] f.block_upper(b2) by {
            assert(f.block_covers(b2));
        }
        assert forall|b2: int| 0 <= b2 < f.blocks@.len() implies #[trigger] f.off_wf(b2) by {
            assert(f.block_covers(b2));
        }
        assert forall|b2: int| 0 <= b2 < f.blocks@.len() implies #[trigger] f.block_valued(*a, b2) by {
            assert(f.block_covers(b2));
        }
        assert forall|b2: int| 0 <= b2 < f.blocks@.len() implies #[trigger] f.off_valued(*a, b2) by {
            assert(f.block_covers(b2));
        }
        assert forall|b2: int| 0 <= b2 < f.blocks@.len() implies #[trigger] f.block_pivoted(
            *a,
            b2,
            thr,
        ) by {
            assert(f.block_covers(b2));
        }
    }
    Ok(f)
}

/// Factor a matrix that has the analyzed pattern.
pub fn factor_impl<T: Scalar>(
    sym: &KluSymbolic,
    a: &GeneralCsc<T>,
    settings: &KluSettings<T::Real>,
) -> (r: Result<KluFactors<T>, RslabError>)
    requires
        sym.formed(),
    ensures
        r matches Ok(f) ==> f.factors(*sym, *a, *settings) && !misfit(*sym, *a)
            && !lacks_pivot(*sym, *a, *settings) && a.row_idx@.len() == sym.nnz,
        r matches Err(e) ==> factor_refused(*sym, *a, *settings, e),
        factor_stopped(*sym, *a, *settings) ==> r == Err::<KluFactors<T>, RslabError>(
            RslabError::Interrupted,
        ),
{
    let plan = match plan_factor(sym, a, settings.row_scaling) {
        Ok(plan) => plan,
        Err(e) => {
            return Err(e);
        },
    };
    let mut done: Vec<Result<BlockLu<T>, usize>> = Vec::new();
    let mut broken = false;
    while !broken && done.len() < plan.tasks.len()
        invariant
            sym.formed(),
            plan_of(*sym, *a, settings.row_scaling, plan),
            done@.len() <= plan.tasks@.len(),
            stays_raised(settings.interrupt) ==> done@.len() == 0,
            broken ==> done@.len() > 0 && block_breaks(
                plan.tasks@[done@.len() - 1],
                done@[done@.len() - 1],
            ),
            forall|b: int|
                0 <= b < done@.len() ==> block_outcome(
                    plan.tasks@[b].cols@.len() as int,
                    plan.tasks@[b].cols@,
                    settings.pivot_threshold,
                    #[trigger] done@[b],
                ),
        decreases plan.tasks@.len() - done@.len(),
    {
        match settings.interrupted() {
            Err(e) => {
                return Err(e);
            },
            Ok(()) => {},
        }
        let b: usize = done.len();
        proof {
            block_range(sym.n as int, sym.block_ptr@, b as int);
            assert(task_of(*sym, *a, plan.rs_inv@, b as int, plan.tasks@[b as int]));
        }
        let task = &plan.tasks[b];
        let r = factor_diagonal(task.cols.len(), &task.cols, settings.pivot_threshold);
        broken = r.is_err() || task.bad < task.cols.len();
        done.push(r);
    }
    join_factor(sym, a, settings, plan, done)
}

/// Another handle on a cancellation flag.
fn copy_flag(flag: &Option<Arc<AtomicBool>>) -> (r: Option<Arc<AtomicBool>>)
    ensures
        r == *flag,
{
    match flag {
        Some(f) => Some(Arc::clone(f)),
        None => None,
    }
}

} // verus!
