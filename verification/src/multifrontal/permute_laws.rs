//! What permuting a symmetric matrix does to its entries.

use crate::multifrontal::permute::{
    entries_decide_storage, in_column, is_lower, is_permuted, landing_bounds, larger_of,
    lower_cols, lower_rows, permuted_is_lower, rows_in, smaller_of,
};
use crate::scalar::{Field, Scalar};
use crate::seqs::{
    below, inverse_of, is_permutation, nondecreasing, occurs, permutation_is_onto,
};
use crate::sparse::{col_map_at, column_range, pointers_ok, position, GeneralCsc};
use crate::triplets::{hit, total};
use vstd::prelude::*;

verus! {

/// Entry `(r, c)` of the symmetric matrix whose lower triangle is stored.
pub open spec fn symmetric_at<T: Scalar>(a: GeneralCsc<T>, r: int, c: int) -> T {
    if r >= c {
        a.at(r, c)
    } else {
        a.at(c, r)
    }
}

/// Entry `(r, c)` of the symmetric matrix is stored.
pub open spec fn symmetric_has<T>(a: GeneralCsc<T>, r: int, c: int) -> bool {
    if r >= c {
        a.col(c).contains_key(r)
    } else {
        a.col(r).contains_key(c)
    }
}

/// Adding a stored value to zero gives the value. This fails for a negative zero.
pub open spec fn keeps_values<T: Scalar>(a: GeneralCsc<T>) -> bool {
    forall|k: int|
        0 <= k < a.values@.len() ==> T::zero_spec().plus_spec(#[trigger] a.values@[k]) == a.values@[k]
}

/// A permutation and its inverse.
pub open spec fn permutes(perm: Seq<usize>, pinv: Seq<usize>, n: int) -> bool {
    &&& is_permutation(perm, n)
    &&& inverse_of(pinv, perm)
    &&& is_permutation(pinv, n)
}

/// A permutation and its inverse undo each other both ways.
pub proof fn permutes_both_ways(perm: Seq<usize>, pinv: Seq<usize>, n: int)
    requires
        permutes(perm, pinv, n),
    ensures
        inverse_of(perm, pinv),
        permutes(pinv, perm, n),
{
    assert forall|i: int| 0 <= i < n implies 0 <= #[trigger] pinv[i] < n && perm[pinv[i] as int]
        == i by {
        permutation_is_onto(perm, n, i);
        let k = position(perm, i);
        assert(perm[k] == i);
        assert(pinv[perm[k] as int] == k);
    }
}

/// Every place is in some column.
pub proof fn column_exists(col_ptr: Seq<usize>, n: int, p: int) -> (j: int)
    requires
        nondecreasing(col_ptr),
        col_ptr.len() > n,
        col_ptr[0] == 0,
        0 <= n,
        0 <= p < col_ptr[n],
    ensures
        0 <= j < n,
        in_column(col_ptr, j, p),
    decreases n,
{
    if p >= col_ptr[n - 1] {
        n - 1
    } else {
        column_exists(col_ptr, n - 1, p)
    }
}

/// Where the entry in place `k` of column `c` lands.
pub proof fn landing_of(
    col_ptr: Seq<usize>,
    row_idx: Seq<usize>,
    pinv: Seq<usize>,
    n: int,
    j: int,
    c: int,
    k: int,
)
    requires
        pointers_ok(n, col_ptr, row_idx.len() as int),
        below(row_idx, n),
        pinv.len() == n,
        below(pinv, n),
        0 <= c < j <= n,
        in_column(col_ptr, c, k),
    ensures
        lower_rows(col_ptr, row_idx, pinv, j)[k] == larger_of(pinv[row_idx[k] as int], pinv[c]),
        lower_cols(col_ptr, row_idx, pinv, j)[k] == smaller_of(pinv[row_idx[k] as int], pinv[c]),
    decreases j,
{
    landing_bounds(col_ptr, row_idx, pinv, n, j - 1);
    assert(col_ptr[j - 1] <= col_ptr[j]);
    assert(col_ptr[j] <= col_ptr[n]);
    let rows = rows_in(col_ptr, row_idx, j - 1);
    if c < j - 1 {
        landing_of(col_ptr, row_idx, pinv, n, j - 1, c, k);
        assert(col_ptr[c + 1] <= col_ptr[j - 1]);
    } else {
        let q = k - col_ptr[j - 1];
        assert(rows[q] == row_idx[k]);
    }
}

/// Triplets that miss the place add nothing.
proof fn total_of_none<T: Scalar>(
    rows: Seq<usize>,
    cols: Seq<usize>,
    vals: Seq<T>,
    i: int,
    j: int,
    n: int,
)
    requires
        forall|q: int| 0 <= q < n ==> !(#[trigger] rows[q] == i && cols[q] == j),
    ensures
        total(rows, cols, vals, i, j, n) == T::zero_spec(),
    decreases n,
{
    if n > 0 {
        total_of_none(rows, cols, vals, i, j, n - 1);
    }
}

/// The total of a single triplet.
proof fn total_of_one<T: Scalar>(
    rows: Seq<usize>,
    cols: Seq<usize>,
    vals: Seq<T>,
    i: int,
    j: int,
    k: int,
    n: int,
)
    requires
        0 <= k < n,
        rows[k] == i,
        cols[k] == j,
        forall|q: int| 0 <= q < n && q != k ==> !(#[trigger] rows[q] == i && cols[q] == j),
    ensures
        total(rows, cols, vals, i, j, n) == T::zero_spec().plus_spec(vals[k]),
    decreases n,
{
    if n - 1 == k {
        total_of_none(rows, cols, vals, i, j, n - 1);
    } else {
        assert(!(rows[n - 1] == i && cols[n - 1] == j));
        total_of_one(rows, cols, vals, i, j, k, n - 1);
    }
}

/// What lands at `(i, j)` comes from the entry of `perm[i]` and `perm[j]`.
proof fn lands_from<T: Scalar>(
    a: GeneralCsc<T>,
    perm: Seq<usize>,
    pinv: Seq<usize>,
    i: int,
    j: int,
    k: int,
)
    requires
        a.wf(),
        is_lower(a),
        permutes(perm, pinv, a.n as int),
        0 <= j <= i < a.n,
        0 <= k < a.row_idx@.len(),
        lower_rows(a.col_ptr@, a.row_idx@, pinv, a.n as int)[k] == i,
        lower_cols(a.col_ptr@, a.row_idx@, pinv, a.n as int)[k] == j,
    ensures
        in_column(a.col_ptr@, smaller_of(perm[i], perm[j]) as int, k),
        a.row_idx@[k] == larger_of(perm[i], perm[j]),
{
    let n = a.n as int;
    permutes_both_ways(perm, pinv, n);
    let c = column_exists(a.col_ptr@, n, k);
    landing_of(a.col_ptr@, a.row_idx@, pinv, n, n, c, k);
    column_range(a, c);
    let r = a.row_idx@[k] as int;
    assert(a.rows_of(c)[k - a.col_ptr@[c]] == r);
    assert(r >= c);
    assert(perm[pinv[r] as int] == r);
    assert(perm[pinv[c] as int] == c);
}

/// An entry of the permuted matrix is stored where the entry of `A` is that it
/// stands for, and is that one, added to zero.
proof fn permuted_entry_is_moved<T: Scalar>(
    m: GeneralCsc<T>,
    a: GeneralCsc<T>,
    perm: Seq<usize>,
    pinv: Seq<usize>,
    i: int,
    j: int,
)
    requires
        a.wf(),
        is_lower(a),
        permutes(perm, pinv, a.n as int),
        is_permuted(m, a, pinv),
        0 <= j <= i < a.n,
    ensures
        m.col(j).contains_key(i) <==> symmetric_has(a, perm[i] as int, perm[j] as int),
        m.col(j).contains_key(i) ==> m.col(j)[i] == T::zero_spec().plus_spec(
            symmetric_at(a, perm[i] as int, perm[j] as int),
        ),
        m.col(j).contains_key(i) ==> exists|k: int|
            0 <= k < a.values@.len() && #[trigger] a.values@[k] == symmetric_at(
                a,
                perm[i] as int,
                perm[j] as int,
            ),
{
    let n = a.n as int;
    let rows = lower_rows(a.col_ptr@, a.row_idx@, pinv, n);
    let cols = lower_cols(a.col_ptr@, a.row_idx@, pinv, n);
    landing_bounds(a.col_ptr@, a.row_idx@, pinv, n, n);
    assert(perm[i] < n && perm[j] < n);
    let hi = larger_of(perm[i], perm[j]) as int;
    let lo = smaller_of(perm[i], perm[j]) as int;
    let list = a.rows_of(lo);
    column_range(a, lo);
    if a.col(lo).contains_key(hi) {
        let q = position(list, hi);
        let k = a.col_ptr@[lo] + q;
        assert(list[q] == hi);
        assert(a.row_idx@[k] == hi);
        landing_of(a.col_ptr@, a.row_idx@, pinv, n, n, lo, k);
        assert(pinv[perm[i] as int] == i);
        assert(pinv[perm[j] as int] == j);
        assert(rows[k] == i && cols[k] == j);
        assert(hit(rows, cols, i, j, rows.len() as int));
        assert forall|q2: int| 0 <= q2 < rows.len() && q2 != k implies !(#[trigger] rows[q2] == i
            && cols[q2] == j) by {
            if rows[q2] == i && cols[q2] == j {
                lands_from(a, perm, pinv, i, j, q2);
                let p2 = q2 - a.col_ptr@[lo];
                assert(list[p2] == hi);
                if p2 < q {
                    assert(list[p2] < list[q]);
                } else {
                    assert(list[q] < list[p2]);
                }
            }
        }
        total_of_one(rows, cols, a.values@, i, j, k, rows.len() as int);
        col_map_at(list, a.vals_of(lo), q);
        assert(a.col(lo)[hi] == a.values@[k]);
        assert(symmetric_at(a, perm[i] as int, perm[j] as int) == a.values@[k]);
    } else if m.col(j).contains_key(i) {
        let k = choose|k: int| 0 <= k < rows.len() && #[trigger] rows[k] == i && cols[k] == j;
        lands_from(a, perm, pinv, i, j, k);
        assert(list[k - a.col_ptr@[lo]] == hi);
        assert(occurs(list, hi));
    }
}

/// Permuting a symmetric matrix moves entry `(perm[i], perm[j])` to `(i, j)`, and
/// stores it exactly where it was stored.
pub proof fn permuting_moves_entries<T: Scalar>(
    m: GeneralCsc<T>,
    a: GeneralCsc<T>,
    perm: Seq<usize>,
    pinv: Seq<usize>,
    i: int,
    j: int,
)
    requires
        a.wf(),
        is_lower(a),
        keeps_values(a),
        permutes(perm, pinv, a.n as int),
        is_permuted(m, a, pinv),
        0 <= j <= i < a.n,
    ensures
        m.at(i, j) == symmetric_at(a, perm[i] as int, perm[j] as int),
        m.col(j).contains_key(i) <==> symmetric_has(a, perm[i] as int, perm[j] as int),
{
    permuted_entry_is_moved(m, a, perm, pinv, i, j);
    let v = symmetric_at(a, perm[i] as int, perm[j] as int);
    if m.col(j).contains_key(i) {
        let k = choose|k: int| 0 <= k < a.values@.len() && #[trigger] a.values@[k] == v;
        assert(T::zero_spec().plus_spec(a.values@[k]) == a.values@[k]);
    }
}

/// In exact arithmetic every matrix keeps its values.
pub proof fn exact_matrices_keep_values<T: Field>(a: GeneralCsc<T>)
    ensures
        keeps_values(a),
{
    assert forall|k: int| 0 <= k < a.values@.len() implies T::zero_spec().plus_spec(
        #[trigger] a.values@[k],
    ) == a.values@[k] by {
        crate::algebra::zero_plus(a.values@[k]);
    }
}

/// The permuted matrix keeps its values where the matrix does.
proof fn permuted_keeps_values<T: Scalar>(
    m: GeneralCsc<T>,
    a: GeneralCsc<T>,
    perm: Seq<usize>,
    pinv: Seq<usize>,
)
    requires
        a.wf(),
        is_lower(a),
        keeps_values(a),
        permutes(perm, pinv, a.n as int),
        is_permuted(m, a, pinv),
    ensures
        keeps_values(m),
{
    permuted_is_lower(m, a, pinv);
    assert forall|k: int| 0 <= k < m.values@.len() implies T::zero_spec().plus_spec(
        #[trigger] m.values@[k],
    ) == m.values@[k] by {
        let j = column_exists(m.col_ptr@, m.n as int, k);
        column_range(m, j);
        let q = k - m.col_ptr@[j];
        let i = m.rows_of(j)[q] as int;
        col_map_at(m.rows_of(j), m.vals_of(j), q);
        assert(m.vals_of(j)[q] == m.values@[k]);
        assert(m.col(j).contains_key(i));
        assert(i >= j);
        permuted_entry_is_moved(m, a, perm, pinv, i, j);
        let v = symmetric_at(a, perm[i] as int, perm[j] as int);
        let k2 = choose|k2: int| 0 <= k2 < a.values@.len() && #[trigger] a.values@[k2] == v;
        assert(T::zero_spec().plus_spec(a.values@[k2]) == a.values@[k2]);
    }
}

/// Permuting back, with the permutation and its inverse exchanged, gives the
/// matrix again.
pub proof fn permuting_back_restores<T: Scalar>(
    back: GeneralCsc<T>,
    m: GeneralCsc<T>,
    a: GeneralCsc<T>,
    perm: Seq<usize>,
    pinv: Seq<usize>,
)
    requires
        a.wf(),
        is_lower(a),
        keeps_values(a),
        permutes(perm, pinv, a.n as int),
        is_permuted(m, a, pinv),
        is_permuted(back, m, perm),
    ensures
        back.n == a.n,
        back.col_ptr@ == a.col_ptr@,
        back.row_idx@ == a.row_idx@,
        back.values@ == a.values@,
{
    let n = a.n as int;
    permutes_both_ways(perm, pinv, n);
    permuted_is_lower(m, a, pinv);
    permuted_is_lower(back, m, perm);
    permuted_keeps_values(m, a, perm, pinv);
    assert forall|j: int, i: int| 0 <= j < n implies (#[trigger] back.col(j).contains_key(i)
        <==> a.col(j).contains_key(i)) && (back.col(j).contains_key(i) ==> back.col(j)[i] == a.col(
        j,
    )[i]) by {
        column_range(back, j);
        column_range(a, j);
        if j <= i < n {
            assert(pinv[i] < n && pinv[j] < n);
            let hi = larger_of(pinv[i], pinv[j]) as int;
            let lo = smaller_of(pinv[i], pinv[j]) as int;
            permuting_moves_entries(back, m, pinv, perm, i, j);
            permuting_moves_entries(m, a, perm, pinv, hi, lo);
            assert(perm[pinv[i] as int] == i);
            assert(perm[pinv[j] as int] == j);
        } else {
            if back.col(j).contains_key(i) {
                let q = position(back.rows_of(j), i);
                assert(back.rows_of(j)[q] == i);
            }
            if a.col(j).contains_key(i) {
                let q = position(a.rows_of(j), i);
                assert(a.rows_of(j)[q] == i);
            }
        }
    }
    entries_decide_storage(back, a);
}

} // verus!
