//! Column-major storage: `n` rows, column `c` from `n * c` on.

use crate::scalar::{Real, Scalar};
use vstd::prelude::*;

verus! {

/// Where column `c` starts in a column-major block with `n` rows.
pub open spec fn column_start(n: int, c: int) -> int {
    n * c
}

/// The range of a column lies inside the block.
pub proof fn column_bounds(n: int, c: int, cols: int)
    requires
        0 <= n,
        0 <= c < cols,
    ensures
        0 <= column_start(n, c),
        column_start(n, c) + n == column_start(n, c + 1),
        column_start(n, c + 1) <= column_start(n, cols),
{
    assert(0 <= n * c) by (nonlinear_arith)
        requires
            0 <= n,
            0 <= c,
    ;
    assert(n * c + n == n * (c + 1)) by (nonlinear_arith);
    assert(n * (c + 1) <= n * cols) by (nonlinear_arith)
        requires
            0 <= n,
            c + 1 <= cols,
    ;
}

/// Row and column of a position.
pub proof fn position_splits(n: int, i: int, c: int)
    requires
        0 <= i < n,
        0 <= c,
    ensures
        (column_start(n, c) + i) / n == c,
        (column_start(n, c) + i) % n == i,
        0 <= column_start(n, c),
{
    assert(n * c == c * n) by (nonlinear_arith);
    vstd::arithmetic::div_mod::lemma_fundamental_div_mod_converse(n * c + i, n, c, i);
    assert(0 <= n * c) by (nonlinear_arith)
        requires
            0 <= n,
            0 <= c,
    ;
}

/// A position inside the block belongs to one row and one column.
pub proof fn position_joins(n: int, cols: int, p: int)
    requires
        0 <= p < n * cols,
        0 <= n,
    ensures
        0 < n,
        0 <= p % n < n,
        0 <= p / n < cols,
        p == column_start(n, p / n) + p % n,
{
    if n == 0 {
        assert(n * cols == 0) by (nonlinear_arith)
            requires
                n == 0,
        ;
    }
    vstd::arithmetic::div_mod::lemma_fundamental_div_mod(p, n);
    vstd::arithmetic::div_mod::lemma_mod_bound(p, n);
    vstd::arithmetic::div_mod::lemma_div_pos_is_pos(p, n);
    let c = p / n;
    if c >= cols {
        assert(n * c >= n * cols) by (nonlinear_arith)
            requires
                c >= cols,
                n > 0,
        ;
    }
}

/// The part `lo..hi` of a slice.
pub fn part_of<A: Copy>(b: &[A], lo: usize, hi: usize) -> (r: Vec<A>)
    requires
        lo <= hi <= b@.len(),
    ensures
        r@ == b@.subrange(lo as int, hi as int),
{
    let mut r: Vec<A> = Vec::new();
    let mut k: usize = lo;
    while k < hi
        invariant
            lo <= k <= hi <= b@.len(),
            r@ == b@.subrange(lo as int, k as int),
        decreases hi - k,
    {
        r.push(b[k]);
        k = k + 1;
        assert(r@ =~= b@.subrange(lo as int, k as int));
    }
    r
}

/// The sum of the squared magnitudes of the first `k` entries.
pub open spec fn square_sum<T: Scalar>(a: Seq<T>, k: int) -> T::Real
    decreases k,
{
    if k <= 0 {
        <T::Real as Real>::zero_spec()
    } else {
        square_sum(a, k - 1).plus_spec(a[k - 1].magnitude_sq_spec())
    }
}

/// The Euclidean (Frobenius) norm.
pub open spec fn norm_of<T: Scalar>(a: Seq<T>) -> T::Real {
    square_sum(a, a.len() as int).sqrt_spec()
}

/// The Euclidean norm of a vector, or the Frobenius norm of a matrix.
pub fn norm2<T: Scalar>(a: &[T]) -> (r: T::Real)
    ensures
        r == norm_of(a@),
{
    let mut s: T::Real = <T::Real as Real>::zero();
    let mut k: usize = 0;
    while k < a.len()
        invariant
            k <= a@.len(),
            s == square_sum(a@, k as int),
        decreases a@.len() - k,
    {
        s = s.plus(a[k].magnitude_sq());
        k = k + 1;
    }
    s.sqrt()
}

} // verus!
