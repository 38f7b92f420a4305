//! What the norms and the scales measure: in exact arithmetic each is the largest
//! of the sums or magnitudes that it is named after.

use crate::condition::{largest_equilibrated, largest_magnitude, largest_scaled};
use crate::exact::{exact_complex, exact_real, order_scales, product_sign, reorders};
use crate::flat::column_start;
use crate::klu::gather::{row_max, row_scales};
use crate::klu::refine::peak_upto;
use crate::matrix_ops::{magnitude_sum, one_norm_upto};
use crate::multifrontal::params::{column_sums, dense_sums, most, row_sums};
use crate::scalar::{Real, Scalar};
use crate::sparse::GeneralCsc;
use vstd::prelude::*;

verus! {

/// `f(0) + ... + f(n - 1)`.
pub open spec fn total(n: int, f: spec_fn(int) -> real) -> real
    decreases n,
{
    if n <= 0 {
        0 as real
    } else {
        total(n - 1, f) + f(n - 1)
    }
}

/// `m` is the largest of `f(0), ..., f(n - 1)`, or zero if there are none.
pub open spec fn is_largest(m: real, n: int, f: spec_fn(int) -> real) -> bool {
    &&& forall|i: int| 0 <= i < n ==> m >= #[trigger] f(i)
    &&& if n <= 0 {
        m == 0 as real
    } else {
        exists|i: int| 0 <= i < n && m == #[trigger] f(i)
    }
}

/// The largest of one number more.
proof fn one_more(m0: real, m: real, n: int, f: spec_fn(int) -> real)
    requires
        0 < n,
        is_largest(m0, n - 1, f),
        f(n - 1) >= 0 as real,
        m == (if f(n - 1) > m0 {
            f(n - 1)
        } else {
            m0
        }),
    ensures
        is_largest(m, n, f),
{
    if m == f(n - 1) || n == 1 {
        assert(m == f(n - 1));
    } else {
        let i = choose|i: int| 0 <= i < n - 1 && m0 == #[trigger] f(i);
        assert(m == f(i));
    }
}

proof fn magnitudes_add_up<T: Scalar>(
    val: spec_fn(T::Real) -> real,
    re: spec_fn(T) -> real,
    im: spec_fn(T) -> real,
    vals: Seq<T>,
    q: int,
)
    requires
        exact_complex(val, re, im),
    ensures
        val(magnitude_sum(vals, q)) == total(q, |i: int| val(vals[i].magnitude_spec())),
        val(magnitude_sum(vals, q)) >= 0 as real,
    decreases q,
{
    if q > 0 {
        magnitudes_add_up(val, re, im, vals, q - 1);
        let f = |i: int| val(vals[i].magnitude_spec());
        assert(total(q, f) == total(q - 1, f) + f(q - 1));
        assert(val(vals[q - 1].magnitude_spec()) >= 0 as real);
    }
}

/// The sum of the magnitudes in column `j`.
pub open spec fn column_total<T: Scalar>(
    val: spec_fn(T::Real) -> real,
    a: GeneralCsc<T>,
    j: int,
) -> real {
    let vals = a.vals_of(j);
    total(vals.len() as int, |q: int| val(vals[q].magnitude_spec()))
}

/// The one-norm is the largest sum of the magnitudes of a column.
pub proof fn one_norm_is_the_largest_column<T: Scalar>(
    val: spec_fn(T::Real) -> real,
    re: spec_fn(T) -> real,
    im: spec_fn(T) -> real,
    a: GeneralCsc<T>,
    j: int,
)
    requires
        exact_complex(val, re, im),
        0 <= j,
    ensures
        is_largest(val(one_norm_upto(a, j)), j, |c: int| column_total(val, a, c)),
    decreases j,
{
    let f = |c: int| column_total(val, a, c);
    if j > 0 {
        one_norm_is_the_largest_column(val, re, im, a, j - 1);
        let vals = a.vals_of(j - 1);
        magnitudes_add_up(val, re, im, vals, vals.len() as int);
        assert(f(j - 1) == val(magnitude_sum(vals, vals.len() as int)));
        one_more(val(one_norm_upto(a, j - 1)), val(one_norm_upto(a, j)), j, f);
    }
}

/// The peak of a vector is its largest magnitude.
pub proof fn peak_is_the_largest_magnitude<T: Scalar>(
    val: spec_fn(T::Real) -> real,
    re: spec_fn(T) -> real,
    im: spec_fn(T) -> real,
    r: Seq<T>,
    k: int,
)
    requires
        exact_complex(val, re, im),
        0 <= k,
    ensures
        is_largest(val(peak_upto(r, k)), k, |i: int| val(r[i].magnitude_spec())),
        is_largest(val(largest_magnitude(r, k)), k, |i: int| val(r[i].magnitude_spec())),
    decreases k,
{
    let f = |i: int| val(r[i].magnitude_spec());
    if k > 0 {
        peak_is_the_largest_magnitude(val, re, im, r, k - 1);
        assert(f(k - 1) >= 0 as real);
        one_more(val(peak_upto(r, k - 1)), val(peak_upto(r, k)), k, f);
        one_more(val(largest_magnitude(r, k - 1)), val(largest_magnitude(r, k)), k, f);
    }
}

/// What row `i` says of the number `m`: no stored entry of the row is larger, and
/// one of them is as large unless `m` is zero.
pub open spec fn peaks_at<T: Scalar>(
    val: spec_fn(T::Real) -> real,
    a: GeneralCsc<T>,
    i: int,
    k: int,
    m: real,
) -> bool {
    &&& m >= 0 as real
    &&& forall|q: int|
        0 <= q < k && a.row_idx@[q] == i ==> m >= val((#[trigger] a.values@[q]).magnitude_spec())
    &&& m > 0 as real ==> exists|q: int|
        0 <= q < k && a.row_idx@[q] == i && m == val((#[trigger] a.values@[q]).magnitude_spec())
}

proof fn row_max_peaks<T: Scalar>(
    val: spec_fn(T::Real) -> real,
    re: spec_fn(T) -> real,
    im: spec_fn(T) -> real,
    a: GeneralCsc<T>,
    i: int,
    k: int,
)
    requires
        exact_complex(val, re, im),
        0 <= k,
    ensures
        peaks_at(val, a, i, k, val(row_max(a, i, k))),
    decreases k,
{
    if k > 0 {
        row_max_peaks(val, re, im, a, i, k - 1);
        let m0 = val(row_max(a, i, k - 1));
        let m = val(row_max(a, i, k));
        let x = val(a.values@[k - 1].magnitude_spec());
        assert(x >= 0 as real);
        if m > 0 as real && m == m0 {
            let q = choose|q: int|
                0 <= q < k - 1 && a.row_idx@[q] == i && m0 == val(
                    (#[trigger] a.values@[q]).magnitude_spec(),
                );
            assert(m == val(a.values@[q].magnitude_spec()));
        }
    }
}

/// Row scaling brings the largest magnitude of every row to one: no scaled entry
/// is larger, and in a row with an entry that is not zero one of them is one. Rows
/// of zeros, and all rows if scaling is off, keep their values.
pub proof fn scaled_rows_peak_at_one<T: Scalar>(
    val: spec_fn(T::Real) -> real,
    re: spec_fn(T) -> real,
    im: spec_fn(T) -> real,
    a: GeneralCsc<T>,
    enabled: bool,
    i: int,
)
    requires
        exact_complex(val, re, im),
        0 <= i < a.n,
    ensures
        ({
            let s = val(row_scales(a, enabled)[i]);
            let k = a.row_idx@.len() as int;
            &&& s > 0 as real
            &&& !enabled ==> s == 1 as real
            &&& enabled ==> {
                &&& forall|q: int|
                    0 <= q < k && a.row_idx@[q] == i ==> s * val(
                        (#[trigger] a.values@[q]).magnitude_spec(),
                    ) <= 1 as real
                &&& s == 1 as real || exists|q: int|
                    0 <= q < k && a.row_idx@[q] == i && s * val(
                        (#[trigger] a.values@[q]).magnitude_spec(),
                    ) == 1 as real
                &&& (exists|q: int|
                    0 <= q < k && a.row_idx@[q] == i && val(
                        (#[trigger] a.values@[q]).magnitude_spec(),
                    ) > 0 as real) ==> exists|q: int|
                    0 <= q < k && a.row_idx@[q] == i && s * val(
                        (#[trigger] a.values@[q]).magnitude_spec(),
                    ) == 1 as real
            }
        }),
{
    let k = a.row_idx@.len() as int;
    let s = val(row_scales(a, enabled)[i]);
    let peak = row_max(a, i, k);
    let m = val(peak);
    row_max_peaks(val, re, im, a, i, k);
    if enabled && m > 0 as real {
        assert(s * m == 1 as real);
        product_sign(-s, m);
        product_sign(s, m);
        reorders(-s, m, 1 as real);
        assert((-s) * m == -(s * m)) by (nonlinear_arith);
        assert(s > 0 as real) by {
            if s == 0 as real {
                product_sign(0 as real, m);
            }
        }
        assert forall|q: int| 0 <= q < k && a.row_idx@[q] == i implies s * val(
            (#[trigger] a.values@[q]).magnitude_spec(),
        ) <= 1 as real by {
            order_scales(s, m, val(a.values@[q].magnitude_spec()));
        }
        let q = choose|q: int|
            0 <= q < k && a.row_idx@[q] == i && m == val((#[trigger] a.values@[q]).magnitude_spec());
        assert(s * val(a.values@[q].magnitude_spec()) == 1 as real);
    } else if enabled {
        assert(s == 1 as real);
        assert forall|q: int| 0 <= q < k && a.row_idx@[q] == i implies val(
            (#[trigger] a.values@[q]).magnitude_spec(),
        ) == 0 as real by {
            assert(val(a.values@[q].magnitude_spec()) >= 0 as real);
        }
    }
}

/// The largest entry of the equilibrated matrix in column `j`.
proof fn column_scaled<T: Scalar>(
    val: spec_fn(T::Real) -> real,
    rows: Seq<usize>,
    vals: Seq<T>,
    d_row: Seq<T::Real>,
    dc: T::Real,
    before: T::Real,
    k: int,
)
    requires
        exact_real(val),
        0 <= k,
    ensures
        ({
            let m = val(largest_scaled(rows, vals, d_row, dc, before, k));
            &&& m >= val(before)
            &&& forall|q: int|
                0 <= q < k ==> m >= #[trigger] equilibrated(val, rows, vals, d_row, dc, q)
            &&& m == val(before) || exists|q: int|
                0 <= q < k && m == #[trigger] equilibrated(val, rows, vals, d_row, dc, q)
        }),
    decreases k,
{
    if k > 0 {
        column_scaled(val, rows, vals, d_row, dc, before, k - 1);
        let m0 = val(largest_scaled(rows, vals, d_row, dc, before, k - 1));
        let m = val(largest_scaled(rows, vals, d_row, dc, before, k));
        let x = equilibrated(val, rows, vals, d_row, dc, k - 1);
        assert(m == (if x > m0 { x } else { m0 }));
        if m != val(before) && m == m0 {
            let q = choose|q: int|
                0 <= q < k - 1 && m0 == #[trigger] equilibrated(val, rows, vals, d_row, dc, q);
            assert(m == equilibrated(val, rows, vals, d_row, dc, q));
        }
    }
}

/// Entry `q` of a column times the scales of its row and its column.
pub open spec fn equilibrated<T: Scalar>(
    val: spec_fn(T::Real) -> real,
    rows: Seq<usize>,
    vals: Seq<T>,
    d_row: Seq<T::Real>,
    dc: T::Real,
    q: int,
) -> real {
    val(vals[q].magnitude_spec()) * val(d_row[rows[q] as int]) * val(dc)
}

/// What element growth compares with: the largest scaled magnitude of the first
/// `j` columns. No entry is larger, and one is as large unless it is zero.
pub proof fn growth_is_measured_from_the_largest_entry<T: Scalar>(
    val: spec_fn(T::Real) -> real,
    a: GeneralCsc<T>,
    d_row: Seq<T::Real>,
    d_col: Seq<T::Real>,
    j: int,
)
    requires
        exact_real(val),
        0 <= j,
    ensures
        ({
            let m = val(largest_equilibrated(a, d_row, d_col, j));
            &&& m >= 0 as real
            &&& forall|c: int, q: int|
                0 <= c < j && 0 <= q < a.rows_of(c).len() ==> m >= #[trigger] equilibrated(
                    val,
                    a.rows_of(c),
                    a.vals_of(c),
                    d_row,
                    d_col[c],
                    q,
                )
            &&& m == 0 as real || exists|c: int, q: int|
                0 <= c < j && 0 <= q < a.rows_of(c).len() && m == #[trigger] equilibrated(
                    val,
                    a.rows_of(c),
                    a.vals_of(c),
                    d_row,
                    d_col[c],
                    q,
                )
        }),
    decreases j,
{
    if j > 0 {
        growth_is_measured_from_the_largest_entry(val, a, d_row, d_col, j - 1);
        let before = largest_equilibrated(a, d_row, d_col, j - 1);
        let m0 = val(before);
        let m = val(largest_equilibrated(a, d_row, d_col, j));
        let (rows, vals) = (a.rows_of(j - 1), a.vals_of(j - 1));
        column_scaled(val, rows, vals, d_row, d_col[j - 1], before, rows.len() as int);
        if m != m0 {
            let q = choose|q: int|
                0 <= q < rows.len() && m == #[trigger] equilibrated(
                    val,
                    rows,
                    vals,
                    d_row,
                    d_col[j - 1],
                    q,
                );
            assert(m == equilibrated(val, a.rows_of(j - 1), a.vals_of(j - 1), d_row, d_col[j - 1], q));
        }
    }
}

/// What entry `q` of column `j` of a lower triangle adds to row `i` of the whole
/// scaled symmetric matrix: its magnitude, if it stands in the row or, mirrored, in
/// the column of that number.
pub open spec fn share<T: Scalar>(
    val: spec_fn(T::Real) -> real,
    a: GeneralCsc<T>,
    scaling: Seq<T>,
    i: int,
    j: int,
    q: int,
) -> real {
    let r = a.rows_of(j)[q] as int;
    if r == i || j == i {
        val(a.vals_of(j)[q].times_spec(scaling[r]).times_spec(scaling[j]).magnitude_spec())
    } else {
        0 as real
    }
}

/// The sum of the magnitudes in row `i`, over the first `j` columns that are
/// stored.
pub open spec fn row_total<T: Scalar>(
    val: spec_fn(T::Real) -> real,
    a: GeneralCsc<T>,
    scaling: Seq<T>,
    i: int,
    j: int,
) -> real {
    total(
        j,
        |c: int| total(a.rows_of(c).len() as int, |q: int| share(val, a, scaling, i, c, q)),
    )
}

proof fn column_adds<T: Scalar>(
    val: spec_fn(T::Real) -> real,
    a: GeneralCsc<T>,
    scaling: Seq<T>,
    before: Seq<T::Real>,
    i: int,
    j: int,
    q: int,
)
    requires
        exact_real(val),
        a.wf(),
        0 <= j < a.n,
        0 <= i < a.n,
        before.len() == a.n,
        0 <= q <= a.rows_of(j).len(),
    ensures
        ({
            let s = column_sums(a.rows_of(j), a.vals_of(j), scaling, j, before, q);
            &&& s.len() == a.n
            &&& val(s[i]) == val(before[i]) + total(q, |p: int| share(val, a, scaling, i, j, p))
        }),
    decreases q,
{
    let f = |p: int| share(val, a, scaling, i, j, p);
    if q > 0 {
        column_adds(val, a, scaling, before, i, j, q - 1);
        crate::sparse::column_range(a, j);
        assert(total(q, f) == total(q - 1, f) + f(q - 1));
        assert(a.rows_of(j)[q - 1] < a.n);
    }
}

proof fn rows_add_up<T: Scalar>(
    val: spec_fn(T::Real) -> real,
    a: GeneralCsc<T>,
    scaling: Seq<T>,
    i: int,
    j: int,
)
    requires
        exact_real(val),
        a.wf(),
        0 <= j <= a.n,
        0 <= i < a.n,
    ensures
        row_sums(a, scaling, j).len() == a.n,
        val(row_sums(a, scaling, j)[i]) == row_total(val, a, scaling, i, j),
    decreases j,
{
    if j > 0 {
        rows_add_up(val, a, scaling, i, j - 1);
        let before = row_sums(a, scaling, j - 1);
        column_adds(val, a, scaling, before, i, j - 1, a.rows_of(j - 1).len() as int);
        let f = |c: int| total(a.rows_of(c).len() as int, |q: int| share(val, a, scaling, i, c, q));
        assert(total(j, f) == total(j - 1, f) + f(j - 1));
    }
}

proof fn most_is_largest<R: Real>(val: spec_fn(R) -> real, s: Seq<R>, k: int)
    requires
        exact_real(val),
        0 <= k,
        forall|i: int| 0 <= i < k ==> val(#[trigger] s[i]) >= 0 as real,
    ensures
        is_largest(val(most(s, k)), k, |i: int| val(s[i])),
    decreases k,
{
    let f = |i: int| val(s[i]);
    if k > 0 {
        most_is_largest(val, s, k - 1);
        assert(f(k - 1) >= 0 as real);
        one_more(val(most(s, k - 1)), val(most(s, k)), k, f);
    }
}

proof fn total_is_positive(n: int, f: spec_fn(int) -> real)
    requires
        forall|i: int| 0 <= i < n ==> #[trigger] f(i) >= 0 as real,
    ensures
        total(n, f) >= 0 as real,
    decreases n,
{
    if n > 0 {
        total_is_positive(n - 1, f);
        assert(f(n - 1) >= 0 as real);
    }
}

/// The infinity-norm of the scaled symmetric matrix is the largest sum of the
/// magnitudes of a whole row, both sides of the diagonal counted.
pub proof fn infnorm_is_the_largest_row<T: Scalar>(
    val: spec_fn(T::Real) -> real,
    re: spec_fn(T) -> real,
    im: spec_fn(T) -> real,
    a: GeneralCsc<T>,
    scaling: Seq<T>,
)
    requires
        exact_complex(val, re, im),
        a.wf(),
    ensures
        is_largest(
            val(most(row_sums(a, scaling, a.n as int), a.n as int)),
            a.n as int,
            |i: int| row_total(val, a, scaling, i, a.n as int),
        ),
{
    let n = a.n as int;
    let s = row_sums(a, scaling, n);
    let f = |i: int| val(s[i]);
    let g = |i: int| row_total(val, a, scaling, i, n);
    assert forall|i: int| 0 <= i < n implies #[trigger] g(i) == f(i) && val(s[i]) >= 0 as real by {
        rows_add_up(val, a, scaling, i, n);
        let h = |c: int|
            total(a.rows_of(c).len() as int, |q: int| share(val, a, scaling, i, c, q));
        assert forall|c: int| 0 <= c < n implies #[trigger] h(c) >= 0 as real by {
            let e = |q: int| share(val, a, scaling, i, c, q);
            assert forall|q: int| 0 <= q < a.rows_of(c).len() implies #[trigger] e(q)
                >= 0 as real by {}
            total_is_positive(a.rows_of(c).len() as int, e);
        }
        total_is_positive(n, h);
    }
    assert forall|i: int| 0 <= i < n implies val(#[trigger] s[i]) >= 0 as real by {
        assert(g(i) == f(i));
    }
    most_is_largest(val, s, n);
    let m = val(most(s, n));
    assert forall|i: int| 0 <= i < n implies m >= #[trigger] g(i) by {
        assert(m >= f(i));
    }
    if n > 0 {
        let i = choose|i: int| 0 <= i < n && m == #[trigger] f(i);
        assert(m == g(i));
    }
}

/// What cell `(r, c)` of a dense lower triangle adds to row `k` of the whole
/// symmetric matrix.
pub open spec fn dense_share<T: Scalar>(
    val: spec_fn(T::Real) -> real,
    data: Seq<T>,
    n: int,
    k: int,
    c: int,
    r: int,
) -> real {
    if c <= r && (r == k || c == k) {
        val(data[column_start(n, c) + r].magnitude_spec())
    } else {
        0 as real
    }
}

/// What the first `i` rows of column `c` add to row `k`.
pub open spec fn dense_column<T: Scalar>(
    val: spec_fn(T::Real) -> real,
    data: Seq<T>,
    n: int,
    k: int,
    c: int,
    i: int,
) -> real {
    total(i, |r: int| dense_share(val, data, n, k, c, r))
}

proof fn nothing_above<T: Scalar>(
    val: spec_fn(T::Real) -> real,
    data: Seq<T>,
    n: int,
    k: int,
    c: int,
    i: int,
)
    requires
        i <= c,
    ensures
        dense_column(val, data, n, k, c, i) == 0 as real,
    decreases i,
{
    if i > 0 {
        nothing_above(val, data, n, k, c, i - 1);
    }
}

proof fn dense_rows_add_up<T: Scalar>(
    val: spec_fn(T::Real) -> real,
    data: Seq<T>,
    n: int,
    k: int,
    j: int,
    i: int,
)
    requires
        exact_real(val),
        0 <= j < n,
        0 <= i <= n,
        0 <= k < n,
    ensures
        dense_sums(data, n, j, i).len() == n,
        val(dense_sums(data, n, j, i)[k]) == total(
            j,
            |c: int| dense_column(val, data, n, k, c, n),
        ) + dense_column(val, data, n, k, j, i),
    decreases j, i,
{
    let f = |c: int| dense_column(val, data, n, k, c, n);
    if i <= j {
        nothing_above(val, data, n, k, j, i);
        if j > 0 {
            dense_rows_add_up(val, data, n, k, j - 1, n);
            assert(total(j, f) == total(j - 1, f) + f(j - 1));
        }
    } else {
        dense_rows_add_up(val, data, n, k, j, i - 1);
        let g = |r: int| dense_share(val, data, n, k, j, r);
        assert(total(i, g) == total(i - 1, g) + g(i - 1));
    }
}

/// The infinity-norm of a dense symmetric matrix is the largest sum of the
/// magnitudes of a whole row, both sides of the diagonal counted.
pub proof fn dense_infnorm_is_the_largest_row<T: Scalar>(
    val: spec_fn(T::Real) -> real,
    re: spec_fn(T) -> real,
    im: spec_fn(T) -> real,
    data: Seq<T>,
    n: int,
)
    requires
        exact_complex(val, re, im),
        0 < n,
    ensures
        is_largest(
            val(most(dense_sums(data, n, n - 1, n), n)),
            n,
            |k: int| total(n, |c: int| dense_column(val, data, n, k, c, n)),
        ),
{
    let s = dense_sums(data, n, n - 1, n);
    let f = |k: int| val(s[k]);
    let g = |k: int| total(n, |c: int| dense_column(val, data, n, k, c, n));
    assert forall|k: int| 0 <= k < n implies #[trigger] g(k) == f(k) && f(k) >= 0 as real by {
        dense_rows_add_up(val, data, n, k, n - 1, n);
        let h = |c: int| dense_column(val, data, n, k, c, n);
        assert(total(n, h) == total(n - 1, h) + h(n - 1));
        assert forall|c: int| 0 <= c < n implies #[trigger] h(c) >= 0 as real by {
            let e = |r: int| dense_share(val, data, n, k, c, r);
            assert forall|r: int| 0 <= r < n implies #[trigger] e(r) >= 0 as real by {}
            total_is_positive(n, e);
        }
        total_is_positive(n, h);
    }
    assert forall|i: int| 0 <= i < n implies val(#[trigger] s[i]) >= 0 as real by {
        assert(g(i) == f(i));
    }
    most_is_largest(val, s, n);
    let m = val(most(s, n));
    assert forall|i: int| 0 <= i < n implies m >= #[trigger] g(i) by {
        assert(m >= f(i));
    }
    let i = choose|i: int| 0 <= i < n && m == #[trigger] f(i);
    assert(m == g(i));
}

} // verus!
