//! The assembly tree: supernodes, their parents, and the gates that pick a
//! driver.

use crate::counts::{product_of, saturated};
use crate::seqs::occurs;
use vstd::prelude::*;

verus! {

/// One supernode of the assembly tree.
#[derive(Debug, Clone)]
pub struct Supernode {
    /// First column, in the permuted numbering.
    pub first_col: usize,
    /// Number of own columns.
    pub ncol: usize,
    /// Number of rows of the front.
    pub nrow: usize,
    /// Rows of the front.
    pub row_indices: Vec<usize>,
    /// Supernodes whose contribution is assembled here.
    pub children: Vec<usize>,
    /// How many delayed columns may arrive; `usize::MAX` for no limit.
    pub delayed_capacity: usize,
}

/// A sparsity pattern by columns.
#[derive(Debug, Clone)]
pub struct CscPattern {
    pub n: usize,
    pub col_ptr: Vec<usize>,
    pub row_idx: Vec<usize>,
}

/// Consecutive leaves that are factored in one sweep, with their rows.
#[derive(Debug, Clone)]
pub struct SmallLeafGroup {
    pub members: Vec<usize>,
    pub member_rows: Vec<Vec<usize>>,
}

/// The symbolic analysis that a numeric factorization follows.
#[derive(Debug, Clone)]
pub struct SymbolicFactorization {
    /// Matrix dimension.
    pub n: usize,
    /// Fill-reducing permutation, new to old.
    pub perm: Vec<usize>,
    /// Its inverse, old to new.
    pub perm_inv: Vec<usize>,
    /// Supernodes, children before parents.
    pub supernodes: Vec<Supernode>,
    /// The full symmetric pattern of the permuted matrix.
    pub permuted_pattern: CscPattern,
    /// Groups of small leaves.
    pub small_leaf_groups: Vec<SmallLeafGroup>,
    /// The group of each supernode that is in one.
    pub snode_group: Vec<Option<usize>>,
    /// How many trailing columns are left uneliminated.
    pub is_schur_tail: Option<usize>,
}

/// Fewest supernodes for which the task-graph driver is considered.
pub const N_PAR_MIN: usize = 32;

/// Fewest estimated flops for which the task-graph driver is considered.
pub const PAR_MIN_FLOPS: u64 = 10_000_000;

/// Smallest dimension for which the delay-ratio trigger is considered.
pub const CASCADE_BREAK_MIN_N: usize = 4096;

/// Dimension up to which every matrix is factored densely.
pub const N_TINY: usize = 16;

/// Dimension up to which a dense enough matrix is factored densely.
pub const N_MAX: usize = 128;

/// Whether a matrix of dimension `n` with `nnz_lower` stored entries is factored
/// densely: it is tiny, or small with at least a quarter of the lower triangle
/// stored.
pub open spec fn dense_enough(n: int, nnz_lower: int) -> bool {
    n <= N_TINY || (n <= N_MAX && 4 * nnz_lower >= n * (n + 1) / 2)
}

/// Decides whether the dense fast path is taken.
pub fn should_use_dense_fast_path(n: usize, nnz_lower: usize) -> (r: bool)
    ensures
        r == dense_enough(n as int, nnz_lower as int),
        n <= 16 ==> r,
        n > 128 ==> !r,
        16 < n <= 128 ==> (r <==> 4 * nnz_lower >= n * (n + 1) / 2),
{
    if n <= N_TINY {
        return true;
    }
    if n > N_MAX {
        return false;
    }
    assert(0 <= n * (n + 1) <= 128 * 129) by (nonlinear_arith)
        requires
            0 <= n <= 128,
    ;
    let lower_cells: usize = n * (n + 1) / 2;
    nnz_lower >= (lower_cells + 3) / 4
}

/// The work of the first `k` supernodes, `ncol * nrow * nrow` each.
pub open spec fn assembly_flops(supernodes: Seq<Supernode>, k: int) -> int
    decreases k,
{
    if k <= 0 {
        0
    } else {
        assembly_flops(supernodes, k - 1) + supernodes[k - 1].ncol * supernodes[k - 1].nrow
            * supernodes[k - 1].nrow
    }
}

/// `a * b * b`, at most `u64::MAX`.
fn cube_of(a: u64, b: u64) -> (r: u64)
    ensures
        r == saturated(a * b * b),
        0 <= a * b * b,
{
    let once: u64 = product_of(a, b);
    proof {
        let p = a * b;
        assert(0 <= a * b) by (nonlinear_arith);
        assert(0 <= p * b) by (nonlinear_arith)
            requires
                0 <= p,
        ;
        assert(a * b * b == p * b);
        if p > u64::MAX {
            assert(b >= 1) by (nonlinear_arith)
                requires
                    p == a * b,
                    p > 0,
                    b >= 0,
            ;
            assert(p * b >= p) by (nonlinear_arith)
                requires
                    p >= 0,
                    b >= 1,
            ;
            assert(once * b >= once) by (nonlinear_arith)
                requires
                    once >= 0,
                    b >= 1,
            ;
        }
    }
    product_of(once, b)
}

/// The work of the whole tree, at most `u64::MAX`.
pub fn estimate_assembly_flops(supernodes: &[Supernode]) -> (r: u64)
    ensures
        r == saturated(assembly_flops(supernodes@, supernodes@.len() as int)),
        0 <= assembly_flops(supernodes@, supernodes@.len() as int),
{
    let mut r: u64 = 0;
    let mut k: usize = 0;
    while k < supernodes.len()
        invariant
            k <= supernodes@.len(),
            0 <= assembly_flops(supernodes@, k as int),
            r == saturated(assembly_flops(supernodes@, k as int)),
        decreases supernodes@.len() - k,
    {
        let one: u64 = cube_of(supernodes[k].ncol as u64, supernodes[k].nrow as u64);
        r = r.saturating_add(one);
        k = k + 1;
    }
    r
}

/// Some supernode has two children or more.
pub open spec fn has_siblings(supernodes: Seq<Supernode>) -> bool {
    exists|s: int| 0 <= s < supernodes.len() && (#[trigger] supernodes[s]).children@.len() >= 2
}

/// The tree has enough supernodes, sibling parallelism and work. The largest
/// threshold is never reached.
pub open spec fn worth_parallel(sym: SymbolicFactorization, min_flops: u64) -> bool {
    &&& min_flops < u64::MAX
    &&& sym.supernodes@.len() >= N_PAR_MIN
    &&& has_siblings(sym.supernodes@)
    &&& saturated(assembly_flops(sym.supernodes@, sym.supernodes@.len() as int)) >= min_flops
}

/// Whether the task-graph driver is expected to win, with the default work
/// threshold.
pub fn should_parallelize_assembly(symbolic: &SymbolicFactorization) -> (r: bool)
    ensures
        r == worth_parallel(*symbolic, PAR_MIN_FLOPS),
        r ==> symbolic.supernodes@.len() >= 32 && has_siblings(symbolic.supernodes@),
        symbolic.supernodes@.len() >= 32 && has_siblings(symbolic.supernodes@) ==> (r
            <==> assembly_flops(symbolic.supernodes@, symbolic.supernodes@.len() as int)
            >= 10_000_000),
{
    should_parallelize_assembly_with_threshold(symbolic, PAR_MIN_FLOPS)
}

/// Whether the task-graph driver is expected to win, with this work threshold.
pub fn should_parallelize_assembly_with_threshold(
    symbolic: &SymbolicFactorization,
    min_flops: u64,
) -> (r: bool)
    ensures
        r == worth_parallel(*symbolic, min_flops),
        r ==> min_flops < u64::MAX && symbolic.supernodes@.len() >= 32 && has_siblings(
            symbolic.supernodes@,
        ),
        min_flops < u64::MAX && symbolic.supernodes@.len() >= 32 && has_siblings(
            symbolic.supernodes@,
        ) ==> (r <==> assembly_flops(symbolic.supernodes@, symbolic.supernodes@.len() as int)
            >= min_flops),
{
    if min_flops == u64::MAX || symbolic.supernodes.len() < N_PAR_MIN {
        return false;
    }
    let mut found = false;
    let mut s: usize = 0;
    while s < symbolic.supernodes.len() && !found
        invariant
            s <= symbolic.supernodes@.len(),
            !found ==> forall|q: int|
                0 <= q < s ==> (#[trigger] symbolic.supernodes@[q]).children@.len() < 2,
            found ==> has_siblings(symbolic.supernodes@),
        decreases symbolic.supernodes@.len() - s,
    {
        if symbolic.supernodes[s].children.len() >= 2 {
            assert(symbolic.supernodes@[s as int].children@.len() >= 2);
            found = true;
        }
        s = s + 1;
    }
    if !found {
        return false;
    }
    estimate_assembly_flops(symbolic.supernodes.as_slice()) >= min_flops
}

/// Supernode `c` is a child of one of the first `k`.
pub open spec fn child_upto(supernodes: Seq<Supernode>, c: int, k: int) -> bool {
    exists|s: int| 0 <= s < k && occurs((#[trigger] supernodes[s]).children@, c)
}

/// No supernode lists `c` as a child.
pub open spec fn is_root(supernodes: Seq<Supernode>, c: int) -> bool {
    !child_upto(supernodes, c, supernodes.len() as int)
}

/// Which supernodes no other lists as a child.
pub fn root_flags(supernodes: &[Supernode]) -> (r: Vec<bool>)
    ensures
        r@.len() == supernodes@.len(),
        forall|c: int| 0 <= c < r@.len() ==> #[trigger] r@[c] == is_root(supernodes@, c),
{
    let n: usize = supernodes.len();
    let mut r: Vec<bool> = Vec::new();
    let mut i: usize = 0;
    while i < n
        invariant
            i <= n,
            r@.len() == i,
            forall|c: int| 0 <= c < i ==> #[trigger] r@[c],
        decreases n - i,
    {
        r.push(true);
        i = i + 1;
    }
    let mut s: usize = 0;
    while s < n
        invariant
            s <= n,
            n == supernodes@.len(),
            r@.len() == n,
            forall|c: int|
                0 <= c < n ==> #[trigger] r@[c] == !child_upto(supernodes@, c, s as int),
        decreases n - s,
    {
        let ghost r0 = r@;
        let ghost kids = supernodes@[s as int].children@;
        let len: usize = supernodes[s].children.len();
        let mut k: usize = 0;
        while k < len
            invariant
                k <= len,
                s < n,
                n == supernodes@.len(),
                kids == supernodes@[s as int].children@,
                len == kids.len(),
                r@.len() == n,
                r0.len() == n,
                forall|c: int|
                    0 <= c < n ==> #[trigger] r@[c] == (r0[c] && !occurs(kids.take(k as int), c)),
            decreases len - k,
        {
            let c: usize = supernodes[s].children[k];
            let ghost r1 = r@;
            proof {
                let h1 = kids.take(k as int);
                let h2 = kids.take(k + 1);
                assert(h2[k as int] == c);
                assert forall|q: int| occurs(h2, q) <==> occurs(h1, q) || q == c by {
                    if occurs(h1, q) {
                        let p = choose|p: int| 0 <= p < h1.len() && #[trigger] h1[p] == q;
                        assert(h2[p] == q);
                    }
                    if occurs(h2, q) && q != c {
                        let p = choose|p: int| 0 <= p < h2.len() && #[trigger] h2[p] == q;
                        assert(h1[p] == q);
                    }
                }
            }
            if c < n {
                r.set(c, false);
            }
            k = k + 1;
        }
        proof {
            assert(kids.take(len as int) =~= kids);
            assert forall|c: int| 0 <= c < n implies #[trigger] r@[c] == !child_upto(
                supernodes@,
                c,
                s + 1,
            ) by {
                if occurs(kids, c) {
                    assert(occurs(supernodes@[s as int].children@, c));
                }
                if child_upto(supernodes@, c, s + 1) && !occurs(kids, c) {
                    let q = choose|q: int|
                        0 <= q < s + 1 && occurs((#[trigger] supernodes@[q]).children@, c);
                    assert(q < s);
                    assert(child_upto(supernodes@, c, s as int));
                }
                if child_upto(supernodes@, c, s as int) {
                    let q = choose|q: int|
                        0 <= q < s && occurs((#[trigger] supernodes@[q]).children@, c);
                    assert(occurs(supernodes@[q].children@, c));
                }
            }
        }
        s = s + 1;
    }
    r
}

/// The last of the first `k` supernodes that lists `c` as a child.
pub open spec fn parent_upto(supernodes: Seq<Supernode>, c: int, k: int) -> Option<int>
    decreases k,
{
    if k <= 0 {
        None
    } else if occurs(supernodes[k - 1].children@, c) {
        Some(k - 1)
    } else {
        parent_upto(supernodes, c, k - 1)
    }
}

/// The parent of supernode `c`.
pub open spec fn parent_of(supernodes: Seq<Supernode>, c: int) -> Option<int> {
    parent_upto(supernodes, c, supernodes.len() as int)
}

/// An index as a number.
pub open spec fn number(p: Option<usize>) -> Option<int> {
    match p {
        Some(k) => Some(k as int),
        None => None,
    }
}

/// The parent table.
pub fn parent_table(supernodes: &[Supernode]) -> (r: Vec<Option<usize>>)
    ensures
        r@.len() == supernodes@.len(),
        forall|c: int| 0 <= c < r@.len() ==> number(#[trigger] r@[c]) == parent_of(supernodes@, c),
{
    let n: usize = supernodes.len();
    let mut r: Vec<Option<usize>> = Vec::new();
    let mut i: usize = 0;
    while i < n
        invariant
            i <= n,
            r@.len() == i,
            forall|c: int| 0 <= c < i ==> #[trigger] r@[c] == None::<usize>,
        decreases n - i,
    {
        r.push(None);
        i = i + 1;
    }
    let mut s: usize = 0;
    while s < n
        invariant
            s <= n,
            n == supernodes@.len(),
            r@.len() == n,
            forall|c: int|
                0 <= c < n ==> number(#[trigger] r@[c]) == parent_upto(supernodes@, c, s as int),
        decreases n - s,
    {
        let ghost r0 = r@;
        let ghost kids = supernodes@[s as int].children@;
        let len: usize = supernodes[s].children.len();
        let mut k: usize = 0;
        while k < len
            invariant
                k <= len,
                s < n,
                n == supernodes@.len(),
                kids == supernodes@[s as int].children@,
                len == kids.len(),
                r@.len() == n,
                r0.len() == n,
                forall|c: int|
                    0 <= c < n ==> #[trigger] r@[c] == (if occurs(kids.take(k as int), c) {
                        Some(s)
                    } else {
                        r0[c]
                    }),
            decreases len - k,
        {
            let c: usize = supernodes[s].children[k];
            let ghost r1 = r@;
            proof {
                let h1 = kids.take(k as int);
                let h2 = kids.take(k + 1);
                assert(h2[k as int] == c);
                assert forall|q: int| occurs(h2, q) <==> occurs(h1, q) || q == c by {
                    if occurs(h1, q) {
                        let p = choose|p: int| 0 <= p < h1.len() && #[trigger] h1[p] == q;
                        assert(h2[p] == q);
                    }
                    if occurs(h2, q) && q != c {
                        let p = choose|p: int| 0 <= p < h2.len() && #[trigger] h2[p] == q;
                        assert(h1[p] == q);
                    }
                }
            }
            if c < n {
                r.set(c, Some(s));
            }
            k = k + 1;
        }
        proof {
            assert(kids.take(len as int) =~= kids);
        }
        s = s + 1;
    }
    r
}

/// How many of the first `k` children of a supernode are supernodes.
pub open spec fn pending_upto(kids: Seq<usize>, n: int, k: int) -> int
    decreases k,
{
    if k <= 0 {
        0
    } else {
        pending_upto(kids, n, k - 1) + (if kids[k - 1] < n {
            1int
        } else {
            0int
        })
    }
}

/// How many children each supernode waits for.
pub fn pending_counts(supernodes: &[Supernode]) -> (r: Vec<usize>)
    ensures
        r@.len() == supernodes@.len(),
        forall|s: int|
            0 <= s < r@.len() ==> #[trigger] r@[s] == pending_upto(
                supernodes@[s].children@,
                supernodes@.len() as int,
                supernodes@[s].children@.len() as int,
            ),
{
    let n: usize = supernodes.len();
    let mut r: Vec<usize> = Vec::new();
    let mut s: usize = 0;
    while s < n
        invariant
            s <= n,
            n == supernodes@.len(),
            r@.len() == s,
            forall|q: int|
                0 <= q < s ==> #[trigger] r@[q] == pending_upto(
                    supernodes@[q].children@,
                    n as int,
                    supernodes@[q].children@.len() as int,
                ),
        decreases n - s,
    {
        let len: usize = supernodes[s].children.len();
        let mut count: usize = 0;
        let mut k: usize = 0;
        while k < len
            invariant
                k <= len,
                s < n,
                n == supernodes@.len(),
                len == supernodes@[s as int].children@.len(),
                count <= k,
                count == pending_upto(supernodes@[s as int].children@, n as int, k as int),
            decreases len - k,
        {
            if supernodes[s].children[k] < n {
                count = count + 1;
            }
            k = k + 1;
        }
        r.push(count);
        s = s + 1;
    }
    r
}

/// Supernode `s` waits for nobody.
pub open spec fn is_leaf(supernodes: Seq<Supernode>, s: int) -> bool {
    forall|k: int|
        0 <= k < supernodes[s].children@.len() ==> #[trigger] supernodes[s].children@[k]
            >= supernodes.len()
}

/// The leaves of the tree, in ascending order.
pub fn leaf_list(supernodes: &[Supernode]) -> (r: Vec<usize>)
    ensures
        crate::seqs::ascending(r@),
        crate::seqs::below(r@, supernodes@.len() as int),
        forall|s: int|
            0 <= s < supernodes@.len() ==> (#[trigger] occurs(r@, s) <==> is_leaf(supernodes@, s)),
{
    let n: usize = supernodes.len();
    let mut r: Vec<usize> = Vec::new();
    let mut s: usize = 0;
    while s < n
        invariant
            s <= n,
            n == supernodes@.len(),
            crate::seqs::ascending(r@),
            crate::seqs::below(r@, s as int),
            forall|q: int| 0 <= q < s ==> (#[trigger] occurs(r@, q) <==> is_leaf(supernodes@, q)),
        decreases n - s,
    {
        let len: usize = supernodes[s].children.len();
        let mut leaf = true;
        let mut k: usize = 0;
        while k < len && leaf
            invariant
                k <= len,
                s < n,
                n == supernodes@.len(),
                len == supernodes@[s as int].children@.len(),
                leaf ==> forall|q: int|
                    0 <= q < k ==> #[trigger] supernodes@[s as int].children@[q] >= n,
                !leaf ==> !is_leaf(supernodes@, s as int),
            decreases len - k,
        {
            if supernodes[s].children[k] < n {
                assert(supernodes@[s as int].children@[k as int] < n);
                leaf = false;
            }
            k = k + 1;
        }
        let ghost r0 = r@;
        if leaf {
            r.push(s);
        }
        proof {
            assert forall|q: int| 0 <= q < s + 1 implies (#[trigger] occurs(r@, q) <==> is_leaf(
                supernodes@,
                q,
            )) by {
                if occurs(r0, q) {
                    let p = choose|p: int| 0 <= p < r0.len() && #[trigger] r0[p] == q;
                    assert(r@[p] == q);
                }
                if leaf && q == s {
                    assert(r@[r0.len() as int] == q);
                }
                if occurs(r@, q) {
                    let p = choose|p: int| 0 <= p < r@.len() && #[trigger] r@[p] == q;
                    if p < r0.len() {
                        assert(r0[p] == q);
                        assert(occurs(r0, q));
                    }
                }
                if q == s && !leaf {
                    if occurs(r0, q) {
                        let p = choose|p: int| 0 <= p < r0.len() && #[trigger] r0[p] == q;
                        assert(r0[p] < s);
                    }
                }
            }
        }
        s = s + 1;
    }
    r
}

} // verus!
