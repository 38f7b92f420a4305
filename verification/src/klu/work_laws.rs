//! What the analysis reports: the work, one division for every entry of `L` and
//! two operations for every entry that an elimination step updates, and the largest
//! block.

use crate::counts::saturated;
use crate::klu::fill::{count, in_upper, lower_count, total_flops, update_flops};
use crate::klu::symbolic::{largest_block, KluSymbolic};
use vstd::prelude::*;

verus! {

/// The entries of row `k` of `U` to the right of the diagonal, in the first `q`
/// columns.
pub open spec fn row_count(pat: spec_fn(int, int) -> bool, k: int, q: int) -> int {
    count(q, |j: int| in_upper(pat, k, j))
}

/// The work of elimination step `k`: the entries below the pivot are divided, and
/// each of them updates every entry to the right of the pivot with a product and a
/// difference.
pub open spec fn step_work(m: int, pat: spec_fn(int, int) -> bool, k: int) -> int {
    lower_count(m, pat, k) * (1 + 2 * row_count(pat, k, m))
}

/// The work of the first `k` steps.
pub open spec fn work_upto(m: int, pat: spec_fn(int, int) -> bool, k: int) -> int
    decreases k,
{
    if k <= 0 {
        0
    } else {
        work_upto(m, pat, k - 1) + step_work(m, pat, k - 1)
    }
}

/// The updates of the first `k` steps in the first `q` columns.
spec fn updates(m: int, pat: spec_fn(int, int) -> bool, k: int, q: int) -> int
    decreases k,
{
    if k <= 0 {
        0
    } else {
        updates(m, pat, k - 1, q) + 2 * (lower_count(m, pat, k - 1) * row_count(pat, k - 1, q))
    }
}

proof fn one_column_more(m: int, pat: spec_fn(int, int) -> bool, k: int, q: int)
    requires
        0 <= q,
        0 <= k,
    ensures
        updates(m, pat, k, q + 1) == updates(m, pat, k, q) + update_flops(m, pat, q, k),
    decreases k,
{
    if k > 0 {
        one_column_more(m, pat, k - 1, q);
        let l = lower_count(m, pat, k - 1);
        let c = row_count(pat, k - 1, q);
        let f = |j: int| in_upper(pat, k - 1, j);
        assert(count(q + 1, f) == count(q, f) + (if f(q) {
            1int
        } else {
            0int
        }));
        assert(l * (c + 1) == l * c + l) by (nonlinear_arith);
    }
}

proof fn nothing_left_of_the_diagonal(pat: spec_fn(int, int) -> bool, k: int, q: int)
    requires
        q <= k + 1,
    ensures
        row_count(pat, k, q) == 0,
    decreases q,
{
    let f = |j: int| in_upper(pat, k, j);
    if q > 0 {
        nothing_left_of_the_diagonal(pat, k, q - 1);
        assert(!f(q - 1));
    }
}

/// The divisions of the first `k` steps.
spec fn divisions(m: int, pat: spec_fn(int, int) -> bool, k: int) -> int
    decreases k,
{
    if k <= 0 {
        0
    } else {
        divisions(m, pat, k - 1) + lower_count(m, pat, k - 1)
    }
}

proof fn columns_add_up(m: int, pat: spec_fn(int, int) -> bool, k: int)
    requires
        0 <= k,
    ensures
        total_flops(m, pat, k) == updates(m, pat, k, k) + divisions(m, pat, k),
    decreases k,
{
    if k > 0 {
        columns_add_up(m, pat, k - 1);
        one_column_more(m, pat, k - 1, k - 1);
        nothing_left_of_the_diagonal(pat, k - 1, k);
        let l = lower_count(m, pat, k - 1);
        assert(l * 0 == 0);
        assert(updates(m, pat, k, k) == updates(m, pat, k - 1, k) + 2 * (l * row_count(
            pat,
            k - 1,
            k,
        )));
    }
}

proof fn steps_add_up(m: int, pat: spec_fn(int, int) -> bool, k: int)
    requires
        0 <= k,
    ensures
        work_upto(m, pat, k) == updates(m, pat, k, m) + divisions(m, pat, k),
    decreases k,
{
    if k > 0 {
        steps_add_up(m, pat, k - 1);
        let l = lower_count(m, pat, k - 1);
        let c = row_count(pat, k - 1, m);
        assert(l * (1 + 2 * c) == l + 2 * (l * c)) by (nonlinear_arith);
    }
}

/// The operations of a block are the work of its elimination steps.
pub proof fn block_work_is_that_of_its_steps(m: int, pat: spec_fn(int, int) -> bool)
    requires
        0 <= m,
    ensures
        total_flops(m, pat, m) == work_upto(m, pat, m),
{
    columns_add_up(m, pat, m);
    steps_add_up(m, pat, m);
}

/// The work of the first `k` blocks of an analysis.
pub open spec fn work_of_blocks(sym: KluSymbolic, k: int) -> int
    decreases k,
{
    if k <= 0 {
        0
    } else {
        work_of_blocks(sym, k - 1) + work_upto(
            sym.size(k - 1),
            sym.block_pattern(k - 1),
            sym.size(k - 1),
        )
    }
}

proof fn blocks_add_up(sym: KluSymbolic, k: int)
    requires
        forall|b: int| 0 <= b < k ==> #[trigger] sym.size(b) >= 0,
    ensures
        sym.flops(k) == work_of_blocks(sym, k),
    decreases k,
{
    if k > 0 {
        blocks_add_up(sym, k - 1);
        assert(sym.size(k - 1) >= 0);
        block_work_is_that_of_its_steps(sym.size(k - 1), sym.block_pattern(k - 1));
    }
}

/// The work that the estimate reports is that of the elimination steps of all
/// blocks, as far as it can be counted: a division for each entry below a pivot,
/// and a product and a difference for each entry that it updates.
pub proof fn estimate_counts_every_operation(
    sym: KluSymbolic,
    value_bytes: int,
    index_bytes: int,
)
    requires
        sym.wf(),
    ensures
        ({
            let w = work_of_blocks(sym, sym.block_ptr@.len() - 1);
            let e = sym.estimate(value_bytes, index_bytes);
            &&& e.factor_flops == saturated(w)
            &&& e.critical_path_flops == e.factor_flops
        }),
{
    let nb = sym.block_ptr@.len() - 1;
    assert forall|b: int| 0 <= b < nb implies #[trigger] sym.size(b) >= 0 by {}
    blocks_add_up(sym, nb);
}

/// The largest block is that: no block is larger, and one is as large.
pub proof fn largest_block_is_largest(ptr: Seq<usize>, k: int)
    requires
        0 < k < ptr.len(),
        forall|b: int| 0 <= b < k ==> ptr[b] <= #[trigger] ptr[b + 1],
    ensures
        forall|b: int| 0 <= b < k ==> #[trigger] ptr[b + 1] - ptr[b] <= largest_block(ptr, k),
        exists|b: int| 0 <= b < k && #[trigger] ptr[b + 1] - ptr[b] == largest_block(ptr, k),
    decreases k,
{
    let last = ptr[k] - ptr[k - 1];
    assert(ptr[k - 1] <= ptr[(k - 1) + 1]);
    if k == 1 {
        assert(largest_block(ptr, 0) == 0);
        assert(ptr[0int + 1] - ptr[0] == largest_block(ptr, 1));
    } else {
        largest_block_is_largest(ptr, k - 1);
        let before = largest_block(ptr, k - 1);
        if last >= before {
            assert(ptr[(k - 1) + 1] - ptr[k - 1] == largest_block(ptr, k));
        } else {
            let b = choose|b: int| 0 <= b < k - 1 && #[trigger] ptr[b + 1] - ptr[b] == before;
            assert(ptr[b + 1] - ptr[b] == largest_block(ptr, k));
        }
    }
}

} // verus!
