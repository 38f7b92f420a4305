//! The analysis: block structure, permutations and the pattern they act on.

use crate::counts::{larger, product_of, saturated};
use crate::diagnostics::MemoryEstimate;
use crate::klu::fill::{block_fill, lower_total, total_flops, upper_total};
use crate::klu::form::{cuts_ok, in_block};
use crate::seqs::{below, distinct, inverse_of, is_permutation, occurs};
use crate::sparse::{pointers_ok, position};
use vstd::prelude::*;

verus! {

/// Exact fill of the factors when every pivot is the diagonal entry.
#[derive(Debug, Clone, Copy, PartialEq, Eq, Structural)]
pub struct KluFill {
    pub l_nnz: u64,
    pub u_nnz: u64,
    pub f_nnz: u64,
    /// Multiply-subtract pairs counted twice, and divisions.
    pub flops: u64,
}

/// The analysis of a pattern: analyze once, then factor any number of matrices
/// that share the pattern.
#[derive(Debug, Clone)]
pub struct KluSymbolic {
    pub n: usize,
    pub nnz: usize,
    /// Row permutation before pivoting: position `k` holds this row.
    pub pre_row_perm: Vec<usize>,
    /// The position of every row before pivoting.
    pub pinv_pre: Vec<usize>,
    /// Column permutation; pivoting never changes it.
    pub col_perm: Vec<usize>,
    /// Boundaries of the diagonal blocks.
    pub block_ptr: Vec<usize>,
    /// The analyzed pattern in permuted positions, for the estimators.
    pub pat_col_ptr: Vec<usize>,
    pub pat_row_idx: Vec<usize>,
    /// The fill, once it has been computed.
    pub fill: Option<KluFill>,
}

impl KluSymbolic {
    /// The rows of column `j` of the permuted pattern.
    pub open spec fn pattern(&self, j: int) -> Seq<usize> {
        self.pat_row_idx@.subrange(self.pat_col_ptr@[j] as int, self.pat_col_ptr@[j + 1] as int)
    }

    /// Permutations, boundaries, and a block upper triangular pattern.
    pub open spec fn formed(&self) -> bool {
        &&& self.n < 0x8000_0000
        &&& self.nnz < 0x8000_0000
        &&& is_permutation(self.pre_row_perm@, self.n as int)
        &&& inverse_of(self.pinv_pre@, self.pre_row_perm@)
        &&& is_permutation(self.col_perm@, self.n as int)
        &&& cuts_ok(self.n as int, self.block_ptr@)
        &&& pointers_ok(self.n as int, self.pat_col_ptr@, self.nnz as int)
        &&& self.pat_row_idx@.len() == self.nnz
        &&& forall|j: int| 0 <= j < self.n ==> distinct(#[trigger] self.pattern(j))
        &&& forall|b: int, j: int| #[trigger]
            in_block(self.block_ptr@, b, j) ==> below(
                self.pattern(j),
                self.block_ptr@[b + 1] as int,
            )
    }
}

impl KluSymbolic {
    /// The pattern of block `b`, numbered from the start of the block.
    pub open spec fn block_pattern(&self, b: int) -> spec_fn(int, int) -> bool {
        |i: int, j: int| occurs(self.pattern(self.block_ptr@[b] + j), self.block_ptr@[b] + i)
    }

    /// The size of block `b`.
    pub open spec fn size(&self, b: int) -> int {
        self.block_ptr@[b + 1] - self.block_ptr@[b]
    }

    /// The entries of `L` below the diagonal in the first `k` blocks.
    pub open spec fn l_nnz(&self, k: int) -> int
        decreases k,
    {
        if k <= 0 {
            0
        } else {
            self.l_nnz(k - 1) + lower_total(
                self.size(k - 1),
                self.block_pattern(k - 1),
                self.size(k - 1),
            )
        }
    }

    /// The entries of `U` above the diagonal in the first `k` blocks.
    pub open spec fn u_nnz(&self, k: int) -> int
        decreases k,
    {
        if k <= 0 {
            0
        } else {
            self.u_nnz(k - 1) + upper_total(
                self.size(k - 1),
                self.block_pattern(k - 1),
                self.size(k - 1),
            )
        }
    }

    /// The operations of the first `k` blocks.
    pub open spec fn flops(&self, k: int) -> int
        decreases k,
    {
        if k <= 0 {
            0
        } else {
            self.flops(k - 1) + total_flops(
                self.size(k - 1),
                self.block_pattern(k - 1),
                self.size(k - 1),
            )
        }
    }

    /// The entries of the pattern above their block, in the first `j` columns
    /// of block `b` and all columns before it.
    pub open spec fn f_nnz(&self, b: int, j: int) -> int
        decreases b, j,
    {
        if b < 0 {
            0
        } else if j <= 0 {
            if b == 0 {
                0
            } else {
                self.f_nnz(b - 1, self.size(b - 1))
            }
        } else {
            self.f_nnz(b, j - 1) + count_below(
                self.pattern(self.block_ptr@[b] + j - 1),
                self.block_ptr@[b] as int,
                self.pattern(self.block_ptr@[b] + j - 1).len() as int,
            )
        }
    }

    /// The fill that diagonal pivots produce.
    pub open spec fn true_fill(&self, fill: KluFill) -> bool {
        let nb = self.block_ptr@.len() - 1;
        &&& fill.l_nnz == self.l_nnz(nb)
        &&& fill.u_nnz == self.u_nnz(nb)
        &&& fill.f_nnz == self.f_nnz(nb, 0)
        &&& fill.flops == saturated(self.flops(nb))
        &&& fill.l_nnz + fill.u_nnz <= self.n * self.n
        &&& fill.f_nnz <= self.nnz
    }

    /// A complete analysis: what is cached is right.
    pub open spec fn wf(&self) -> bool {
        &&& self.formed()
        &&& self.fill matches Some(fill) ==> self.true_fill(fill)
    }

    /// `L`, `U`, diagonal and the entries above the blocks.
    pub open spec fn factor_entries(&self) -> int {
        let nb = self.block_ptr@.len() - 1;
        self.l_nnz(nb) + self.u_nnz(nb) + self.n + self.f_nnz(nb, 0)
    }

    /// The memory and work of factoring values of `value_bytes` bytes with
    /// indices of `index_bytes` bytes.
    pub open spec fn estimate(&self, value_bytes: int, index_bytes: int) -> MemoryEstimate {
        let entry = saturated(value_bytes + index_bytes) as int;
        let bytes = saturated(self.factor_entries() * entry);
        let flops = saturated(self.flops(self.block_ptr@.len() - 1));
        MemoryEstimate {
            value_bytes: value_bytes as usize,
            factor_nnz: self.factor_entries() as u64,
            factor_bytes: bytes,
            panels_all_bytes: 0,
            panel_live_peak_bytes: 0,
            transient_peak_bytes: saturated(
                bytes + saturated(self.nnz * entry) + saturated(
                    self.n * saturated(value_bytes + 32),
                ),
            ),
            factor_flops: flops,
            critical_path_flops: flops,
            max_tree_width: 1,
        }
    }
}

/// How many of the first `q` rows lie above `lo`.
pub open spec fn count_below(rows: Seq<usize>, lo: int, q: int) -> int
    decreases q,
{
    if q <= 0 {
        0
    } else if rows[q - 1] < lo {
        count_below(rows, lo, q - 1) + 1
    } else {
        count_below(rows, lo, q - 1)
    }
}

/// The size of the largest block among the first `k`.
pub open spec fn largest_block(ptr: Seq<usize>, k: int) -> int
    decreases k,
{
    if k <= 0 {
        0
    } else {
        larger(largest_block(ptr, k - 1), ptr[k] - ptr[k - 1])
    }
}

impl KluSymbolic {
    /// Matrix dimension.
    pub fn n(&self) -> (r: usize)
        ensures
            r == self.n,
    {
        self.n
    }

    /// Number of diagonal blocks.
    pub fn n_blocks(&self) -> (r: usize)
        requires
            self.formed(),
        ensures
            r == self.block_ptr@.len() - 1,
    {
        self.block_ptr.len() - 1
    }

    /// Size of the largest diagonal block (the only part that generates fill).
    pub fn max_block_size(&self) -> (r: usize)
        requires
            self.formed(),
        ensures
            r == largest_block(self.block_ptr@, self.block_ptr@.len() - 1),
            r <= self.n,
    {
        let nb: usize = self.block_ptr.len() - 1;
        let mut top: usize = 0;
        let mut b: usize = 0;
        while b < nb
            invariant
                b <= nb,
                nb == self.block_ptr@.len() - 1,
                cuts_ok(self.n as int, self.block_ptr@),
                top == largest_block(self.block_ptr@, b as int),
                top <= self.n,
            decreases nb - b,
        {
            proof {
                crate::klu::form::block_range(self.n as int, self.block_ptr@, b as int);
            }
            let size: usize = self.block_ptr[b + 1] - self.block_ptr[b];
            if size > top {
                top = size;
            }
            b = b + 1;
        }
        top
    }

    /// Boundaries of the diagonal blocks (`n_blocks + 1` entries).
    pub fn block_ptr(&self) -> (r: &Vec<usize>)
        ensures
            r@ == self.block_ptr@,
    {
        &self.block_ptr
    }
}

impl KluSymbolic {
    /// The column range of the stored pattern.
    proof fn pattern_range(&self, j: int)
        requires
            self.formed(),
            0 <= j < self.n,
        ensures
            self.pat_col_ptr@[j] <= self.pat_col_ptr@[j + 1] <= self.pat_row_idx@.len(),
            self.pattern(j).len() == self.pat_col_ptr@[j + 1] - self.pat_col_ptr@[j],
            forall|q: int|
                0 <= q < self.pattern(j).len() ==> #[trigger] self.pattern(j)[q]
                    == self.pat_row_idx@[self.pat_col_ptr@[j] + q],
    {
        assert(self.pat_col_ptr@[j] <= self.pat_col_ptr@[j + 1]);
        assert(self.pat_col_ptr@[j + 1] <= self.pat_col_ptr@[self.n as int]);
    }

    /// Exact fill and operation counts with diagonal pivots, from the pattern
    /// alone.
    fn symbolic_fill_uncached(&self) -> (r: KluFill)
        requires
            self.formed(),
        ensures
            self.true_fill(r),
    {
        let nb: usize = self.block_ptr.len() - 1;
        let mut l_nnz: u64 = 0;
        let mut u_nnz: u64 = 0;
        let mut f_nnz: u64 = 0;
        let mut flops: u64 = 0;
        let mut b: usize = 0;
        while b < nb
            invariant
                b <= nb,
                nb == self.block_ptr@.len() - 1,
                self.formed(),
                l_nnz == self.l_nnz(b as int),
                u_nnz == self.u_nnz(b as int),
                f_nnz == self.f_nnz(b as int, 0),
                flops == saturated(self.flops(b as int)),
                0 <= self.flops(b as int),
                l_nnz + u_nnz <= self.block_ptr@[b as int] * self.n,
                f_nnz <= self.pat_col_ptr@[self.block_ptr@[b as int] as int],
            decreases nb - b,
        {
            proof {
                crate::klu::form::block_range(self.n as int, self.block_ptr@, b as int);
            }
            let bs: usize = self.block_ptr[b];
            let be: usize = self.block_ptr[b + 1];
            let m: usize = be - bs;
            let ghost pat = self.block_pattern(b as int);
            let mut cols: Vec<Vec<usize>> = Vec::new();
            let mut c: usize = 0;
            while c < m
                invariant
                    c <= m,
                    m == be - bs,
                    bs < be <= self.n,
                    b < nb,
                    nb == self.block_ptr@.len() - 1,
                    bs == self.block_ptr@[b as int],
                    be == self.block_ptr@[b + 1],
                    self.formed(),
                    pat == self.block_pattern(b as int),
                    cols@.len() == c,
                    forall|j: int| 0 <= j < c ==> below(#[trigger] cols@[j]@, m as int),
                    forall|j: int, i: int|
                        0 <= j < c && 0 <= i < m ==> (#[trigger] occurs(cols@[j]@, i) <==> pat(i, j)),
                    f_nnz == self.f_nnz(b as int, c as int),
                    f_nnz <= self.pat_col_ptr@[bs + c],
                decreases m - c,
            {
                let ghost cols0 = cols@;
                let j: usize = bs + c;
                proof {
                    self.pattern_range(j as int);
                    assert(in_block(self.block_ptr@, b as int, j as int));
                    assert(below(self.pattern(j as int), be as int));
                    assert(self.pat_col_ptr@[j as int] <= self.pat_col_ptr@[j + 1]);
                }
                let ghost rows = self.pattern(j as int);
                let ghost f0 = f_nnz;
                let lo: usize = self.pat_col_ptr[j];
                let hi: usize = self.pat_col_ptr[j + 1];
                let mut local: Vec<usize> = Vec::new();
                let mut k: usize = lo;
                while k < hi
                    invariant
                        lo <= k <= hi <= self.pat_row_idx@.len(),
                        self.pat_row_idx@.len() < 0x8000_0000,
                        m == be - bs,
                        bs < be,
                        rows.len() == hi - lo,
                        below(rows, be as int),
                        forall|q: int|
                            0 <= q < rows.len() ==> #[trigger] rows[q] == self.pat_row_idx@[lo + q],
                        below(local@, m as int),
                        forall|i: int|
                            0 <= i < m ==> (#[trigger] occurs(local@, i) <==> occurs(
                                rows.take(k - lo),
                                bs + i,
                            )),
                        f0 <= lo,
                        f_nnz == f0 + count_below(rows, bs as int, k - lo),
                        f_nnz <= k,
                    decreases hi - k,
                {
                    let pre: usize = self.pat_row_idx[k];
                    let ghost h1 = rows.take(k - lo);
                    let ghost h2 = rows.take(k - lo + 1);
                    let ghost l0 = local@;
                    proof {
                        assert(rows[k - lo] == pre);
                        assert(h2 =~= h1.push(pre));
                        assert forall|i: int| #[trigger] occurs(h2, i) <==> i == pre || occurs(h1, i) by {
                            if i == pre {
                                assert(h2[k - lo] == i);
                            }
                            if occurs(h1, i) {
                                assert(h2[position(h1, i)] == i);
                            }
                            if occurs(h2, i) {
                                let x = position(h2, i);
                                if x < k - lo {
                                    assert(h1[x] == i);
                                }
                            }
                        }
                    }
                    if pre < bs {
                        f_nnz = f_nnz + 1;
                    } else {
                        local.push(pre - bs);
                        proof {
                            assert forall|i: int| #[trigger] occurs(local@, i) <==> i == pre - bs || occurs(l0, i) by {
                                if i == pre - bs {
                                    assert(local@[l0.len() as int] == i);
                                }
                                if occurs(l0, i) {
                                    assert(local@[position(l0, i)] == i);
                                }
                                if occurs(local@, i) {
                                    let x = position(local@, i);
                                    if x < l0.len() {
                                        assert(l0[x] == i);
                                    }
                                }
                            }
                        }
                    }
                    k = k + 1;
                }
                proof {
                    assert(rows.take(hi - lo) =~= rows);
                }
                cols.push(local);
                c = c + 1;
                proof {
                    assert forall|j2: int| 0 <= j2 < c implies below(#[trigger] cols@[j2]@, m as int) by {
                        if j2 < c - 1 {
                            assert(below(cols0[j2]@, m as int));
                        }
                    }
                    assert forall|j2: int, i: int| 0 <= j2 < c && 0 <= i < m implies (#[trigger] occurs(
                        cols@[j2]@,
                        i,
                    ) <==> pat(i, j2)) by {
                        if j2 < c - 1 {
                            assert(occurs(cols0[j2]@, i) <==> pat(i, j2));
                        } else {
                            assert(pat(i, j2) <==> occurs(rows, bs + i));
                        }
                    }
                }
            }
            let (bl, bu, bf) = block_fill(m, &cols, Ghost(pat));
            proof {
                let n = self.n as int;
                assert(bs * n + m * m <= be * n) by (nonlinear_arith)
                    requires
                        m == be - bs,
                        0 <= m <= n,
                ;
                assert(be * n <= 0x8000_0000 * 0x8000_0000) by (nonlinear_arith)
                    requires
                        0 <= be <= n < 0x8000_0000,
                ;
                assert(bs * n <= be * n) by (nonlinear_arith)
                    requires
                        0 <= bs <= be,
                        0 <= n,
                ;
            }
            l_nnz = l_nnz + bl;
            u_nnz = u_nnz + bu;
            flops = flops.saturating_add(bf);
            b = b + 1;
        }
        KluFill { l_nnz, u_nnz, f_nnz, flops }
    }

    /// The fill, computed once and kept.
    pub fn symbolic_fill(&mut self) -> (r: KluFill)
        requires
            old(self).wf(),
        ensures
            final(self).wf(),
            final(self).true_fill(r),
            final(self).fill == Some(r),
            *final(self) == (KluSymbolic { fill: final(self).fill, ..*old(self) }),
    {
        let known = self.fill;
        match known {
            Some(fill) => fill,
            None => {
                let fill = self.symbolic_fill_uncached();
                let ghost before = *self;
                self.fill = Some(fill);
                proof {
                    self.fill_frame(before);
                }
                fill
            },
        }
    }

    /// The fill does not depend on whether it was computed before.
    proof fn fill_frame(&self, other: KluSymbolic)
        requires
            *self == (KluSymbolic { fill: self.fill, ..other }),
        ensures
            self.formed() == other.formed(),
            forall|fill: KluFill| self.true_fill(fill) == other.true_fill(fill),
    {
        let nb = self.block_ptr@.len() - 1;
        assert forall|j: int| self.pattern(j) == other.pattern(j) by {}
        assert(self.formed() == other.formed());
        self.totals_frame(other, nb);
        self.off_frame(other, nb, 0);
    }

    proof fn totals_frame(&self, other: KluSymbolic, k: int)
        requires
            *self == (KluSymbolic { fill: self.fill, ..other }),
        ensures
            self.l_nnz(k) == other.l_nnz(k),
            self.u_nnz(k) == other.u_nnz(k),
            self.flops(k) == other.flops(k),
        decreases k,
    {
        if k > 0 {
            self.totals_frame(other, k - 1);
            assert(self.block_pattern(k - 1) =~= other.block_pattern(k - 1)) by {
                assert forall|j: int| #[trigger] self.pattern(j) == other.pattern(j) by {}
            }
        }
    }

    proof fn off_frame(&self, other: KluSymbolic, b: int, j: int)
        requires
            *self == (KluSymbolic { fill: self.fill, ..other }),
        ensures
            self.f_nnz(b, j) == other.f_nnz(b, j),
        decreases b, j,
    {
        if b < 0 {
        } else if j <= 0 {
            if b > 0 {
                self.off_frame(other, b - 1, self.size(b - 1));
            }
        } else {
            self.off_frame(other, b, j - 1);
        }
    }

    /// Exact factor fill (`L`, `U`, diagonal and entries above the blocks) when
    /// every pivot is the diagonal entry.
    pub fn symbolic_factor_nnz(&mut self) -> (r: usize)
        requires
            old(self).wf(),
        ensures
            final(self).wf(),
            final(self).fill is Some,
            *final(self) == (KluSymbolic { fill: final(self).fill, ..*old(self) }),
            final(self).factor_entries() <= usize::MAX ==> r == final(self).factor_entries(),
            final(self).factor_entries() > usize::MAX ==> r == usize::MAX,
    {
        let fill = self.symbolic_fill();
        let n: usize = self.n;
        proof {
            assert(n * n <= 0x8000_0000 * 0x8000_0000) by (nonlinear_arith)
                requires
                    n < 0x8000_0000,
            ;
        }
        let total: u64 = fill.l_nnz + fill.u_nnz + n as u64 + fill.f_nnz;
        if total > usize::MAX as u64 {
            usize::MAX
        } else {
            total as usize
        }
    }

    /// Memory and work of factoring a matrix of scalar type `T` with this
    /// analysis, from the pattern alone. The fill is exact for diagonal pivots;
    /// the path is sequential and has no dense panels.
    pub fn estimate_memory<T>(&mut self) -> (r: MemoryEstimate)
        requires
            old(self).wf(),
        ensures
            final(self).wf(),
            final(self).fill is Some,
            *final(self) == (KluSymbolic { fill: final(self).fill, ..*old(self) }),
            r == final(self).estimate(
                vstd::layout::size_of::<T>() as int,
                vstd::layout::size_of::<usize>() as int,
            ),
            r.factor_bytes == saturated(
                r.factor_nnz * saturated(
                    vstd::layout::size_of::<T>() as int + vstd::layout::size_of::<usize>() as int,
                ),
            ),
            r.transient_peak_bytes >= r.factor_bytes,
    {
        let fill = self.symbolic_fill();
        self.estimate_of::<T>(fill)
    }

    /// The estimate that goes with the fill.
    pub fn estimate_of<T>(&self, fill: KluFill) -> (r: MemoryEstimate)
        requires
            self.formed(),
            self.true_fill(fill),
        ensures
            r == self.estimate(
                vstd::layout::size_of::<T>() as int,
                vstd::layout::size_of::<usize>() as int,
            ),
            r.factor_bytes == saturated(
                r.factor_nnz * saturated(
                    vstd::layout::size_of::<T>() as int + vstd::layout::size_of::<usize>() as int,
                ),
            ),
            r.transient_peak_bytes >= r.factor_bytes,
    {
        let n: usize = self.n;
        proof {
            assert(n * n <= 0x8000_0000 * 0x8000_0000) by (nonlinear_arith)
                requires
                    n < 0x8000_0000,
            ;
        }
        let value_bytes: usize = core::mem::size_of::<T>();
        let entry: u64 = (value_bytes as u64).saturating_add(core::mem::size_of::<usize>() as u64);
        let factor_nnz: u64 = fill.l_nnz + fill.u_nnz + n as u64 + fill.f_nnz;
        let factor_bytes: u64 = product_of(factor_nnz, entry);
        let input_bytes: u64 = product_of(self.nnz as u64, entry);
        let workspace_bytes: u64 = product_of(n as u64, (value_bytes as u64).saturating_add(32));
        MemoryEstimate {
            value_bytes,
            factor_nnz,
            factor_bytes,
            panels_all_bytes: 0,
            panel_live_peak_bytes: 0,
            transient_peak_bytes: factor_bytes.saturating_add(input_bytes).saturating_add(
                workspace_bytes,
            ),
            factor_flops: fill.flops,
            critical_path_flops: fill.flops,
            max_tree_width: 1,
        }
    }
}

} // verus!
