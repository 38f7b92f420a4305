//! Block upper triangular form: two permutations and the block boundaries.

use crate::seqs::{ascending, inverse_of, is_permutation};
use vstd::prelude::*;

verus! {

/// A permutation to block upper triangular form. Row `k` of the permuted
/// matrix is row `row_perm[k]`, column `k` is column `col_perm[k]`, and block
/// `b` takes the positions `block_ptr[b]..block_ptr[b + 1]`.
#[derive(Debug, Clone)]
pub struct BtfForm {
    pub row_perm: Vec<usize>,
    pub col_perm: Vec<usize>,
    pub block_ptr: Vec<usize>,
}

/// The boundaries cut `0..n` into nonempty blocks.
pub open spec fn cuts_ok(n: int, ptr: Seq<usize>) -> bool {
    &&& ptr.len() >= 1
    &&& ptr[0] == 0
    &&& ptr[ptr.len() - 1] == n
    &&& ascending(ptr)
}

/// Position `j` belongs to block `b`.
pub open spec fn in_block(ptr: Seq<usize>, b: int, j: int) -> bool {
    0 <= b < ptr.len() - 1 && ptr[b] <= j < ptr[b + 1]
}

impl BtfForm {
    /// Two permutations of `0..n` and boundaries that cut it.
    pub open spec fn wf(&self, n: int) -> bool {
        &&& is_permutation(self.row_perm@, n)
        &&& is_permutation(self.col_perm@, n)
        &&& cuts_ok(n, self.block_ptr@)
    }
}

/// The range of a block.
pub proof fn block_range(n: int, ptr: Seq<usize>, b: int)
    requires
        cuts_ok(n, ptr),
        0 <= b < ptr.len() - 1,
    ensures
        0 <= ptr[b] < ptr[b + 1] <= n,
{
    assert(ptr[b] < ptr[b + 1]);
    if b + 1 < ptr.len() - 1 {
        assert(ptr[b + 1] < ptr[ptr.len() - 1]);
    }
}

/// Every position belongs to a block.
pub proof fn block_of(n: int, ptr: Seq<usize>, j: int) -> (b: int)
    requires
        cuts_ok(n, ptr),
        0 <= j < n,
    ensures
        in_block(ptr, b, j),
{
    block_at_or_after(n, ptr, j, 0)
}

proof fn block_at_or_after(n: int, ptr: Seq<usize>, j: int, from: int) -> (b: int)
    requires
        cuts_ok(n, ptr),
        0 <= from < ptr.len(),
        ptr[from] <= j < n,
    ensures
        in_block(ptr, b, j),
    decreases ptr.len() - from,
{
    if j < ptr[from + 1] {
        from
    } else {
        block_at_or_after(n, ptr, j, from + 1)
    }
}

/// A position belongs to one block only.
pub proof fn block_unique(n: int, ptr: Seq<usize>, b1: int, b2: int, j: int)
    requires
        cuts_ok(n, ptr),
        in_block(ptr, b1, j),
        in_block(ptr, b2, j),
    ensures
        b1 == b2,
{
    if b1 < b2 {
        if b1 + 1 < b2 {
            assert(ptr[b1 + 1] < ptr[b2]);
        }
    } else if b2 < b1 {
        if b2 + 1 < b1 {
            assert(ptr[b2 + 1] < ptr[b1]);
        }
    }
}

/// Blocks of earlier positions come earlier.
pub proof fn block_order(n: int, ptr: Seq<usize>, b1: int, b2: int, i: int, j: int)
    requires
        cuts_ok(n, ptr),
        in_block(ptr, b1, i),
        in_block(ptr, b2, j),
    ensures
        i < ptr[b2] ==> b1 < b2,
        b1 < b2 ==> i < ptr[b2],
{
    if b1 >= b2 {
        if b2 < b1 {
            assert(ptr[b2] < ptr[b1]);
        }
    } else {
        if b1 + 1 < b2 {
            assert(ptr[b1 + 1] < ptr[b2]);
        }
    }
}

/// The inverse of a permutation.
pub fn invert(p: &Vec<usize>, n: usize) -> (inv: Vec<usize>)
    requires
        is_permutation(p@, n as int),
    ensures
        inverse_of(inv@, p@),
        is_permutation(inv@, n as int),
        forall|r: int| 0 <= r < n ==> 0 <= #[trigger] inv@[r] < n && p@[inv@[r] as int] == r,
{
    let mut inv: Vec<usize> = Vec::new();
    let mut i: usize = 0;
    while i < n
        invariant
            i <= n,
            inv@.len() == i,
        decreases n - i,
    {
        inv.push(0);
        i = i + 1;
    }
    let mut k: usize = 0;
    while k < n
        invariant
            k <= n,
            is_permutation(p@, n as int),
            inv@.len() == n,
            forall|q: int| 0 <= q < k ==> inv@[#[trigger] p@[q] as int] == q,
        decreases n - k,
    {
        let r: usize = p[k];
        let ghost inv0 = inv@;
        assert(p@[k as int] < n);
        inv.set(r, k);
        k = k + 1;
        proof {
            assert forall|q: int| 0 <= q < k implies inv@[#[trigger] p@[q] as int] == q by {
                if q < k - 1 {
                    assert(p@[q] != p@[k - 1]);
                    assert(p@[q] < n);
                }
            }
        }
    }
    proof {
        assert forall|r: int| 0 <= r < n implies 0 <= #[trigger] inv@[r] < n && p@[inv@[r] as int] == r by {
            crate::klu::gather::inverse_back(p@, inv@, n as int, r);
        }
        assert forall|q1: int, q2: int| 0 <= q1 < q2 < inv@.len() implies #[trigger] inv@[q1]
            != #[trigger] inv@[q2] by {
            assert(p@[inv@[q1] as int] == q1);
            assert(p@[inv@[q2] as int] == q2);
        }
    }
    inv
}

} // verus!
