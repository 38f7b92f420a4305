//! A symmetric matrix in pivot order, and the cache that rebuilds it quickly.

use crate::error::RslabError;
use crate::scalar::Scalar;
use crate::seqs::{ascending, below, copied, nondecreasing, occurs};
use crate::sparse::{col_map_at, column_range, pointers_ok, position, GeneralCsc};
use crate::triplets::{assembled, hit, total};
use vstd::prelude::*;

verus! {

/// A clock that callers bring along where they want a step timed.
pub trait Clock {
    /// Microseconds since some fixed instant.
    fn now_us(&self) -> (r: u64);
}

/// The clock may show `t`.
pub open spec fn shows<C: Clock>(c: &C, t: u64) -> bool {
    call_ensures(C::now_us, (c,), t)
}

/// A step took `us` microseconds between two looks at the clock, none where it
/// ran backwards.
pub open spec fn took<C: Clock>(c: &C, us: u64) -> bool {
    exists|t0: u64, t1: u64| #[trigger]
        shows(c, t0) && #[trigger] shows(c, t1) && us == (if t1 >= t0 {
            t1 - t0
        } else {
            0
        })
}

/// A step took `us` microseconds where there is a clock; zero without one.
pub open spec fn spent<C: Clock>(clock: Option<&C>, us: u64) -> bool {
    match clock {
        Some(c) => took(c, us),
        None => us == 0,
    }
}

/// The instant at which a step starts, zero without a clock.
pub fn start_of<C: Clock>(clock: Option<&C>) -> (r: u64)
    ensures
        match clock {
            Some(c) => shows(c, r),
            None => r == 0,
        },
{
    match clock {
        Some(c) => c.now_us(),
        None => 0,
    }
}

/// The microseconds since `since`, zero without a clock or where the clock ran
/// backwards.
pub fn lap<C: Clock>(clock: Option<&C>, since: u64) -> (r: u64)
    ensures
        match clock {
            Some(c) => exists|t: u64| #[trigger]
                shows(c, t) && r == (if t >= since {
                    t - since
                } else {
                    0
                }),
            None => r == 0,
        },
{
    match clock {
        Some(c) => {
            let t: u64 = c.now_us();
            assert(shows(c, t));
            t.saturating_sub(since)
        },
        None => 0,
    }
}

/// Only entries on or below the diagonal are stored.
pub open spec fn is_lower<T>(a: GeneralCsc<T>) -> bool {
    forall|j: int, q: int|
        0 <= j < a.n && 0 <= q < a.rows_of(j).len() ==> #[trigger] a.rows_of(j)[q] >= j
}

/// The rows of column `j` of a pattern.
pub open spec fn rows_in(col_ptr: Seq<usize>, row_idx: Seq<usize>, j: int) -> Seq<usize> {
    row_idx.subrange(col_ptr[j] as int, col_ptr[j + 1] as int)
}

pub open spec fn larger_of(a: usize, b: usize) -> usize {
    if a >= b {
        a
    } else {
        b
    }
}

pub open spec fn smaller_of(a: usize, b: usize) -> usize {
    if a >= b {
        b
    } else {
        a
    }
}

/// Where the entries of the first `j` columns land in the lower triangle of the
/// permuted matrix: their rows, in storage order.
pub open spec fn lower_rows(
    col_ptr: Seq<usize>,
    row_idx: Seq<usize>,
    pinv: Seq<usize>,
    j: int,
) -> Seq<usize>
    decreases j,
{
    if j <= 0 {
        Seq::empty()
    } else {
        let rows = rows_in(col_ptr, row_idx, j - 1);
        lower_rows(col_ptr, row_idx, pinv, j - 1) + Seq::new(
            rows.len(),
            |q: int| larger_of(pinv[rows[q] as int], pinv[j - 1]),
        )
    }
}

/// Their columns, in storage order.
pub open spec fn lower_cols(
    col_ptr: Seq<usize>,
    row_idx: Seq<usize>,
    pinv: Seq<usize>,
    j: int,
) -> Seq<usize>
    decreases j,
{
    if j <= 0 {
        Seq::empty()
    } else {
        let rows = rows_in(col_ptr, row_idx, j - 1);
        lower_cols(col_ptr, row_idx, pinv, j - 1) + Seq::new(
            rows.len(),
            |q: int| smaller_of(pinv[rows[q] as int], pinv[j - 1]),
        )
    }
}

/// The lower triangle of `P A P^T`: every stored entry moves to the permuted
/// position, mirrored where it lands above the diagonal; entries that meet are
/// added in storage order.
pub open spec fn is_permuted<T: Scalar>(m: GeneralCsc<T>, a: GeneralCsc<T>, pinv: Seq<usize>) -> bool {
    m.n == a.n && assembled(
        m,
        lower_rows(a.col_ptr@, a.row_idx@, pinv, a.n as int),
        lower_cols(a.col_ptr@, a.row_idx@, pinv, a.n as int),
        a.values@,
    )
}

/// The landing places are in range, columns not behind rows.
pub proof fn landing_bounds(col_ptr: Seq<usize>, row_idx: Seq<usize>, pinv: Seq<usize>, n: int, j: int)
    requires
        pointers_ok(n, col_ptr, row_idx.len() as int),
        below(row_idx, n),
        pinv.len() == n,
        below(pinv, n),
        0 <= j <= n,
    ensures
        lower_rows(col_ptr, row_idx, pinv, j).len() == col_ptr[j],
        lower_cols(col_ptr, row_idx, pinv, j).len() == col_ptr[j],
        below(lower_rows(col_ptr, row_idx, pinv, j), n),
        below(lower_cols(col_ptr, row_idx, pinv, j), n),
        forall|k: int|
            0 <= k < col_ptr[j] ==> #[trigger] lower_cols(col_ptr, row_idx, pinv, j)[k]
                <= lower_rows(col_ptr, row_idx, pinv, j)[k],
    decreases j,
{
    if j > 0 {
        landing_bounds(col_ptr, row_idx, pinv, n, j - 1);
        assert(col_ptr[j - 1] <= col_ptr[j]);
        assert(col_ptr[j] <= col_ptr[n]);
        let rows = rows_in(col_ptr, row_idx, j - 1);
        let r0 = lower_rows(col_ptr, row_idx, pinv, j - 1);
        let c0 = lower_cols(col_ptr, row_idx, pinv, j - 1);
        let r = lower_rows(col_ptr, row_idx, pinv, j);
        let c = lower_cols(col_ptr, row_idx, pinv, j);
        assert(r.len() == r0.len() + rows.len());
        assert(pinv[j - 1] < n);
        assert forall|k: int| 0 <= k < col_ptr[j] implies #[trigger] r[k] < n && c[k] < n && c[k]
            <= r[k] by {
            if k < r0.len() {
                assert(r[k] == r0[k] && c[k] == c0[k]);
                assert(c0[k] <= r0[k]);
            } else {
                let q = k - r0.len();
                assert(rows[q] == row_idx[col_ptr[j - 1] + q]);
                assert(pinv[rows[q] as int] < n);
                assert(r[k] == larger_of(pinv[rows[q] as int], pinv[j - 1]));
                assert(c[k] == smaller_of(pinv[rows[q] as int], pinv[j - 1]));
            }
        }
        assert forall|k: int| 0 <= k < c.len() implies #[trigger] c[k] < n by {
            assert(r[k] < n);
        }
        assert forall|k: int| 0 <= k < col_ptr[j] implies #[trigger] c[k] <= r[k] by {
            assert(r[k] < n);
        }
    }
}

/// The landing places of all entries.
fn lower_places<T: Scalar>(a: &GeneralCsc<T>, pinv: &[usize]) -> (r: (Vec<usize>, Vec<usize>))
    requires
        a.wf(),
        pinv@.len() == a.n,
        below(pinv@, a.n as int),
    ensures
        r.0@ == lower_rows(a.col_ptr@, a.row_idx@, pinv@, a.n as int),
        r.1@ == lower_cols(a.col_ptr@, a.row_idx@, pinv@, a.n as int),
        r.0@.len() == a.row_idx@.len(),
        r.1@.len() == a.row_idx@.len(),
{
    let n: usize = a.n;
    let mut rows: Vec<usize> = Vec::new();
    let mut cols: Vec<usize> = Vec::new();
    let mut j: usize = 0;
    while j < n
        invariant
            j <= n,
            n == a.n,
            a.wf(),
            pinv@.len() == n,
            below(pinv@, n as int),
            rows@ == lower_rows(a.col_ptr@, a.row_idx@, pinv@, j as int),
            cols@ == lower_cols(a.col_ptr@, a.row_idx@, pinv@, j as int),
        decreases n - j,
    {
        proof {
            column_range(*a, j as int);
        }
        let ghost r0 = rows@;
        let ghost c0 = cols@;
        let ghost col = rows_in(a.col_ptr@, a.row_idx@, j as int);
        assert(col == a.rows_of(j as int));
        let to: usize = pinv[j];
        let lo: usize = a.col_ptr[j];
        let hi: usize = a.col_ptr[j + 1];
        let mut k: usize = lo;
        while k < hi
            invariant
                lo <= k <= hi <= a.row_idx@.len(),
                j < n,
                n == a.n,
                pinv@.len() == n,
                to == pinv@[j as int],
                col.len() == hi - lo,
                below(col, n as int),
                forall|q: int| 0 <= q < col.len() ==> #[trigger] col[q] == a.row_idx@[lo + q],
                rows@ =~= r0 + Seq::new(
                    (k - lo) as nat,
                    |q: int| larger_of(pinv@[col[q] as int], pinv@[j as int]),
                ),
                cols@ =~= c0 + Seq::new(
                    (k - lo) as nat,
                    |q: int| smaller_of(pinv@[col[q] as int], pinv@[j as int]),
                ),
            decreases hi - k,
        {
            assert(col[k - lo] == a.row_idx@[k as int]);
            let from: usize = pinv[a.row_idx[k]];
            if from >= to {
                rows.push(from);
                cols.push(to);
            } else {
                rows.push(to);
                cols.push(from);
            }
            k = k + 1;
        }
        j = j + 1;
    }
    proof {
        rows_are_below(*a);
        landing_bounds(a.col_ptr@, a.row_idx@, pinv@, n as int, n as int);
    }
    (rows, cols)
}

proof fn rows_are_below<T>(a: GeneralCsc<T>)
    requires
        a.wf(),
    ensures
        below(a.row_idx@, a.n as int),
{
}

/// Permute a symmetric matrix into pivot order: the lower triangle of
/// `P A P^T`. With a clock, the microseconds that the rebuild took; zero
/// without.
pub fn permute_csc_values<T: Scalar, C: Clock>(
    matrix: &GeneralCsc<T>,
    _perm: &[usize],
    perm_inv: &[usize],
    clock: Option<&C>,
) -> (r: Result<(GeneralCsc<T>, u64), RslabError>)
    requires
        matrix.wf(),
        perm_inv@.len() == matrix.n,
        below(perm_inv@, matrix.n as int),
    ensures
        r is Ok,
        r matches Ok(m) ==> is_permuted(m.0, *matrix, perm_inv@) && is_lower(m.0) && spent(
            clock,
            m.1,
        ),
{
    let (rows, cols) = lower_places(matrix, perm_inv);
    let since: u64 = start_of(clock);
    let built = GeneralCsc::from_triplets(matrix.n, &rows, &cols, &matrix.values);
    let us: u64 = lap(clock, since);
    proof {
        rows_are_below(*matrix);
        landing_bounds(
            matrix.col_ptr@,
            matrix.row_idx@,
            perm_inv@,
            matrix.n as int,
            matrix.n as int,
        );
    }
    match built {
        Ok(m) => {
            proof {
                permuted_is_lower(m, *matrix, perm_inv@);
            }
            Ok((m, us))
        },
        Err(e) => Err(e),
    }
}

/// The permuted matrix is lower triangular.
pub proof fn permuted_is_lower<T: Scalar>(m: GeneralCsc<T>, a: GeneralCsc<T>, pinv: Seq<usize>)
    requires
        a.wf(),
        pinv.len() == a.n,
        below(pinv, a.n as int),
        is_permuted(m, a, pinv),
    ensures
        is_lower(m),
{
    let n = a.n as int;
    let rows = lower_rows(a.col_ptr@, a.row_idx@, pinv, n);
    let cols = lower_cols(a.col_ptr@, a.row_idx@, pinv, n);
    rows_are_below(a);
    landing_bounds(a.col_ptr@, a.row_idx@, pinv, n, n);
    assert forall|j: int, q: int| 0 <= j < m.n && 0 <= q < m.rows_of(j).len() implies #[trigger] m.rows_of(j)[q]
        >= j by {
        column_range(m, j);
        let i = m.rows_of(j)[q] as int;
        col_map_at(m.rows_of(j), m.vals_of(j), q);
        assert(m.col(j).contains_key(i));
        assert(hit(rows, cols, i, j, rows.len() as int));
        let k = choose|k: int| 0 <= k < rows.len() && #[trigger] rows[k] == i && cols[k] == j;
        assert(cols[k] <= rows[k]);
    }
}

/// Matrices with the same entries are stored alike.
pub proof fn entries_decide_storage<T>(m1: GeneralCsc<T>, m2: GeneralCsc<T>)
    requires
        m1.wf(),
        m2.wf(),
        m1.n == m2.n,
        forall|j: int, i: int|
            0 <= j < m1.n ==> (#[trigger] m1.col(j).contains_key(i) <==> m2.col(j).contains_key(i)),
        forall|j: int, i: int|
            0 <= j < m1.n && #[trigger] m1.col(j).contains_key(i) ==> m1.col(j)[i] == m2.col(j)[i],
    ensures
        m1.col_ptr@ == m2.col_ptr@,
        m1.row_idx@ == m2.row_idx@,
        m1.values@ == m2.values@,
{
    let n = m1.n as int;
    assert forall|j: int| 0 <= j < n implies #[trigger] m1.rows_of(j) == m2.rows_of(j)
        && m1.vals_of(j) == m2.vals_of(j) by {
        column_range(m1, j);
        column_range(m2, j);
        let r1 = m1.rows_of(j);
        let r2 = m2.rows_of(j);
        assert forall|i: int| #[trigger] occurs(r1, i) <==> occurs(r2, i) by {
            assert(m1.col(j).contains_key(i) <==> m2.col(j).contains_key(i));
        }
        crate::seqs::ascending_unique(r1, r2);
        assert forall|q: int| 0 <= q < r1.len() implies m1.vals_of(j)[q] == m2.vals_of(j)[q] by {
            col_map_at(r1, m1.vals_of(j), q);
            col_map_at(r2, m2.vals_of(j), q);
            assert(m1.col(j).contains_key(r1[q] as int));
            assert(m2.col(j).contains_key(r1[q] as int));
        }
        assert(m1.vals_of(j) =~= m2.vals_of(j));
    }
    same_columns_same_storage(m1, m2, n);
}

/// Two matrices permuted from the same one are stored alike.
pub proof fn permuted_is_unique<T: Scalar>(
    m1: GeneralCsc<T>,
    m2: GeneralCsc<T>,
    a: GeneralCsc<T>,
    pinv: Seq<usize>,
)
    requires
        is_permuted(m1, a, pinv),
        is_permuted(m2, a, pinv),
    ensures
        m1.n == m2.n,
        m1.col_ptr@ == m2.col_ptr@,
        m1.row_idx@ == m2.row_idx@,
        m1.values@ == m2.values@,
{
    let rows = lower_rows(a.col_ptr@, a.row_idx@, pinv, a.n as int);
    let cols = lower_cols(a.col_ptr@, a.row_idx@, pinv, a.n as int);
    assert forall|j: int, i: int| 0 <= j < m1.n implies (#[trigger] m1.col(j).contains_key(i)
        <==> m2.col(j).contains_key(i)) by {
        assert(m2.col(j).contains_key(i) <==> hit(rows, cols, i, j, rows.len() as int));
    }
    assert forall|j: int, i: int|
        0 <= j < m1.n && #[trigger] m1.col(j).contains_key(i) implies m1.col(j)[i]
        == m2.col(j)[i] by {
        assert(m2.col(j).contains_key(i));
    }
    entries_decide_storage(m1, m2);
}

proof fn same_columns_same_storage<T>(m1: GeneralCsc<T>, m2: GeneralCsc<T>, j: int)
    requires
        m1.wf(),
        m2.wf(),
        m1.n == m2.n,
        0 <= j <= m1.n,
        forall|c: int|
            0 <= c < m1.n ==> #[trigger] m1.rows_of(c) == m2.rows_of(c) && m1.vals_of(c)
                == m2.vals_of(c),
    ensures
        m1.col_ptr@.take(j + 1) == m2.col_ptr@.take(j + 1),
        m1.row_idx@.take(m1.col_ptr@[j] as int) == m2.row_idx@.take(m1.col_ptr@[j] as int),
        m1.values@.take(m1.col_ptr@[j] as int) == m2.values@.take(m1.col_ptr@[j] as int),
        j == m1.n ==> m1.col_ptr@ == m2.col_ptr@ && m1.row_idx@ == m2.row_idx@ && m1.values@
            == m2.values@,
    decreases j,
{
    if j == 0 {
        assert(m1.col_ptr@.take(1) =~= m2.col_ptr@.take(1));
        assert(m1.row_idx@.take(0) =~= m2.row_idx@.take(0));
        assert(m1.values@.take(0) =~= m2.values@.take(0));
    } else {
        same_columns_same_storage(m1, m2, j - 1);
        column_range(m1, j - 1);
        column_range(m2, j - 1);
        let c1 = m1.col_ptr@;
        let c2 = m2.col_ptr@;
        assert(c1.take(j)[j - 1] == c2.take(j)[j - 1]);
        assert(c1[j - 1] == c2[j - 1]);
        assert(m1.rows_of(j - 1).len() == m2.rows_of(j - 1).len());
        assert(c1[j] == c2[j]);
        assert forall|q: int| 0 <= q < j + 1 implies c1[q] == c2[q] by {
            if q < j {
                assert(c1.take(j)[q] == c2.take(j)[q]);
            }
        }
        assert(c1.take(j + 1) =~= c2.take(j + 1));
        let e0 = c1[j - 1] as int;
        let e1 = c1[j] as int;
        assert forall|k: int| 0 <= k < e1 implies m1.row_idx@[k] == m2.row_idx@[k] by {
            if k < e0 {
                assert(m1.row_idx@.take(e0)[k] == m2.row_idx@.take(e0)[k]);
            } else {
                assert(m1.rows_of(j - 1)[k - e0] == m2.rows_of(j - 1)[k - e0]);
            }
        }
        assert forall|k: int| 0 <= k < e1 implies m1.values@[k] == m2.values@[k] by {
            if k < e0 {
                assert(m1.values@.take(e0)[k] == m2.values@.take(e0)[k]);
            } else {
                assert(m1.vals_of(j - 1)[k - e0] == m2.vals_of(j - 1)[k - e0]);
            }
        }
        assert(m1.row_idx@.take(e1) =~= m2.row_idx@.take(e1));
        assert(m1.values@.take(e1) =~= m2.values@.take(e1));
    }
    if j == m1.n {
        assert(m1.col_ptr@.take(j + 1) =~= m1.col_ptr@);
        assert(m2.col_ptr@.take(j + 1) =~= m2.col_ptr@);
        let e = m1.col_ptr@[j] as int;
        assert(m1.row_idx@.take(e) =~= m1.row_idx@);
        assert(m2.row_idx@.take(e) =~= m2.row_idx@);
        assert(m1.values@.take(e) =~= m1.values@);
        assert(m2.values@.take(e) =~= m2.values@);
    }
}

/// The structure of a permuted matrix, and where each entry of the input goes.
#[derive(Debug, Clone)]
pub struct PermuteCache {
    pub input_n: usize,
    pub input_col_ptr: Vec<usize>,
    pub input_row_idx: Vec<usize>,
    pub input_perm_inv: Vec<usize>,
    pub permuted_col_ptr: Vec<usize>,
    pub permuted_row_idx: Vec<usize>,
    pub value_map: Vec<usize>,
}

/// Place `p` of the structure is in column `j`.
pub open spec fn in_column(col_ptr: Seq<usize>, j: int, p: int) -> bool {
    col_ptr[j] <= p < col_ptr[j + 1]
}

/// Every entry knows the place of its position in the structure.
pub open spec fn places_entries(
    map: Seq<usize>,
    rows: Seq<usize>,
    cols: Seq<usize>,
    col_ptr: Seq<usize>,
    row_idx: Seq<usize>,
    k: int,
) -> bool {
    forall|e: int|
        0 <= e < k ==> in_column(col_ptr, cols[e] as int, #[trigger] map[e] as int)
            && row_idx[map[e] as int] == rows[e]
}

impl PermuteCache {
    pub open spec fn rows(&self) -> Seq<usize> {
        lower_rows(
            self.input_col_ptr@,
            self.input_row_idx@,
            self.input_perm_inv@,
            self.input_n as int,
        )
    }

    pub open spec fn cols(&self) -> Seq<usize> {
        lower_cols(
            self.input_col_ptr@,
            self.input_row_idx@,
            self.input_perm_inv@,
            self.input_n as int,
        )
    }

    /// The structure is that of the permuted input pattern.
    pub open spec fn wf(&self) -> bool {
        let n = self.input_n as int;
        &&& pointers_ok(n, self.permuted_col_ptr@, self.permuted_row_idx@.len() as int)
        &&& below(self.permuted_row_idx@, n)
        &&& forall|j: int|
            0 <= j < n ==> ascending(
                #[trigger] rows_in(self.permuted_col_ptr@, self.permuted_row_idx@, j),
            )
        &&& forall|j: int, i: int|
            0 <= j < n ==> (#[trigger] occurs(
                rows_in(self.permuted_col_ptr@, self.permuted_row_idx@, j),
                i,
            ) <==> hit(self.rows(), self.cols(), i, j, self.rows().len() as int))
        &&& self.value_map@.len() == self.rows().len()
        &&& places_entries(
            self.value_map@,
            self.rows(),
            self.cols(),
            self.permuted_col_ptr@,
            self.permuted_row_idx@,
            self.rows().len() as int,
        )
    }

    /// The cache belongs to this input pattern and permutation.
    pub open spec fn matches<T>(&self, a: GeneralCsc<T>, pinv: Seq<usize>) -> bool {
        &&& self.input_n == a.n
        &&& self.input_col_ptr@ == a.col_ptr@
        &&& self.input_row_idx@ == a.row_idx@
        &&& self.input_perm_inv@ == pinv
    }
}

/// Two lists hold the same.
fn same_indices(x: &[usize], y: &[usize]) -> (r: bool)
    ensures
        r == (x@ == y@),
{
    if x.len() != y.len() {
        return false;
    }
    let mut k: usize = 0;
    while k < x.len()
        invariant
            k <= x@.len(),
            x@.len() == y@.len(),
            forall|i: int| 0 <= i < k ==> #[trigger] x@[i] == y@[i],
        decreases x@.len() - k,
    {
        if x[k] != y[k] {
            assert(x@[k as int] != y@[k as int]);
            return false;
        }
        k = k + 1;
    }
    assert(x@ =~= y@);
    true
}

/// Where `r` stands between `lo` and `hi` of an ascending run.
fn search_row(row_idx: &Vec<usize>, lo: usize, hi: usize, r: usize) -> (p: Option<usize>)
    requires
        lo <= hi <= row_idx@.len(),
        ascending(row_idx@.subrange(lo as int, hi as int)),
    ensures
        match p {
            Some(q) => lo <= q < hi && row_idx@[q as int] == r,
            None => !occurs(row_idx@.subrange(lo as int, hi as int), r as int),
        },
{
    let ghost run = row_idx@.subrange(lo as int, hi as int);
    let mut a: usize = lo;
    let mut b: usize = hi;
    while a < b
        invariant
            lo <= a <= b <= hi <= row_idx@.len(),
            run == row_idx@.subrange(lo as int, hi as int),
            ascending(run),
            forall|q: int| 0 <= q < a - lo ==> #[trigger] run[q] < r,
            forall|q: int| b - lo <= q < hi - lo ==> #[trigger] run[q] > r,
        decreases b - a,
    {
        let mid: usize = a + (b - a) / 2;
        assert(run[mid - lo] == row_idx@[mid as int]);
        if row_idx[mid] == r {
            return Some(mid);
        }
        if row_idx[mid] < r {
            assert forall|q: int| 0 <= q < mid + 1 - lo implies #[trigger] run[q] < r by {
                if q < mid - lo {
                    assert(run[q] < run[mid - lo]);
                }
            }
            a = mid + 1;
        } else {
            assert forall|q: int| mid - lo <= q < hi - lo implies #[trigger] run[q] > r by {
                if mid - lo < q {
                    assert(run[mid - lo] < run[q]);
                }
            }
            b = mid;
        }
    }
    None
}

/// The place of every input entry in the structure of the permuted matrix: an
/// error where one is missing, which a matrix permuted from the input rules out.
pub fn build_permute_value_map<T: Scalar>(
    matrix: &GeneralCsc<T>,
    perm_inv: &[usize],
    permuted: &GeneralCsc<T>,
) -> (r: Result<Vec<usize>, RslabError>)
    requires
        matrix.wf(),
        permuted.wf(),
        permuted.n == matrix.n,
        perm_inv@.len() == matrix.n,
        below(perm_inv@, matrix.n as int),
    ensures
        r matches Ok(map) ==> map@.len() == matrix.row_idx@.len() && places_entries(
            map@,
            lower_rows(matrix.col_ptr@, matrix.row_idx@, perm_inv@, matrix.n as int),
            lower_cols(matrix.col_ptr@, matrix.row_idx@, perm_inv@, matrix.n as int),
            permuted.col_ptr@,
            permuted.row_idx@,
            map@.len() as int,
        ),
        r is Err <==> exists|k: int|
            0 <= k < matrix.row_idx@.len() && !occurs(
                permuted.rows_of(
                    #[trigger] lower_cols(
                        matrix.col_ptr@,
                        matrix.row_idx@,
                        perm_inv@,
                        matrix.n as int,
                    )[k] as int,
                ),
                lower_rows(matrix.col_ptr@, matrix.row_idx@, perm_inv@, matrix.n as int)[k] as int,
            ),
        r matches Err(e) ==> e is InvalidInput,
{
    let n: usize = matrix.n;
    let (rows, cols) = lower_places(matrix, perm_inv);
    proof {
        rows_are_below(*matrix);
        landing_bounds(matrix.col_ptr@, matrix.row_idx@, perm_inv@, n as int, n as int);
    }
    let nnz: usize = rows.len();
    let mut map: Vec<usize> = Vec::new();
    let mut k: usize = 0;
    while k < nnz
        invariant
            k <= nnz,
            n == permuted.n,
            permuted.wf(),
            rows@.len() == nnz,
            cols@.len() == nnz,
            below(cols@, n as int),
            map@.len() == k,
            places_entries(
                map@,
                rows@,
                cols@,
                permuted.col_ptr@,
                permuted.row_idx@,
                k as int,
            ),
            forall|e: int|
                0 <= e < k ==> occurs(
                    permuted.rows_of(#[trigger] cols@[e] as int),
                    rows@[e] as int,
                ),
            rows@ == lower_rows(matrix.col_ptr@, matrix.row_idx@, perm_inv@, matrix.n as int),
            cols@ == lower_cols(matrix.col_ptr@, matrix.row_idx@, perm_inv@, matrix.n as int),
            nnz == matrix.row_idx@.len(),
        decreases nnz - k,
    {
        let j: usize = cols[k];
        assert(cols@[k as int] < n);
        proof {
            column_range(*permuted, j as int);
        }
        let lo: usize = permuted.col_ptr[j];
        let hi: usize = permuted.col_ptr[j + 1];
        match search_row(&permuted.row_idx, lo, hi, rows[k]) {
            Some(p) => {
                let ghost map0 = map@;
                map.push(p);
                proof {
                    assert(permuted.rows_of(j as int)[p - lo] == rows@[k as int]);
                    assert forall|e: int| 0 <= e < k + 1 implies in_column(
                        permuted.col_ptr@,
                        cols@[e] as int,
                        #[trigger] map@[e] as int,
                    ) && permuted.row_idx@[map@[e] as int] == rows@[e] by {
                        if e < k {
                            assert(map@[e] == map0[e]);
                        }
                    }
                }
            },
            None => {
                assert(!occurs(permuted.rows_of(cols@[k as int] as int), rows@[k as int] as int));
                return Err(RslabError::InvalidInput("permute cache: entry not in the structure"));
            },
        }
        k = k + 1;
    }
    Ok(map)
}

/// A place belongs to one column only.
proof fn column_of_place(col_ptr: Seq<usize>, j1: int, j2: int, p: int)
    requires
        nondecreasing(col_ptr),
        0 <= j1 < col_ptr.len() - 1,
        0 <= j2 < col_ptr.len() - 1,
        in_column(col_ptr, j1, p),
        in_column(col_ptr, j2, p),
    ensures
        j1 == j2,
{
    if j1 < j2 {
        assert(col_ptr[j1 + 1] <= col_ptr[j2]);
    } else if j2 < j1 {
        assert(col_ptr[j2 + 1] <= col_ptr[j1]);
    }
}

/// Scatter the values of the input into the cached structure.
fn scatter_values<T: Scalar>(c: &PermuteCache, matrix: &GeneralCsc<T>) -> (m: GeneralCsc<T>)
    requires
        c.wf(),
        matrix.wf(),
        c.matches(*matrix, c.input_perm_inv@),
        c.input_perm_inv@.len() == matrix.n,
        below(c.input_perm_inv@, matrix.n as int),
    ensures
        is_permuted(m, *matrix, c.input_perm_inv@),
{
    let ghost rows = c.rows();
    let ghost cols = c.cols();
    let ghost n = matrix.n as int;
    let ghost cp = c.permuted_col_ptr@;
    let ghost ri = c.permuted_row_idx@;
    proof {
        rows_are_below(*matrix);
        landing_bounds(matrix.col_ptr@, matrix.row_idx@, c.input_perm_inv@, n, n);
    }
    let len: usize = c.permuted_row_idx.len();
    let nnz: usize = matrix.row_idx.len();
    let mut values: Vec<T> = Vec::new();
    let mut p: usize = 0;
    while p < len
        invariant
            p <= len,
            values@.len() == p,
            forall|q: int| 0 <= q < p ==> #[trigger] values@[q] == T::zero_spec(),
        decreases len - p,
    {
        values.push(T::zero());
        p = p + 1;
    }
    let mut k: usize = 0;
    while k < nnz
        invariant
            k <= nnz,
            nnz == matrix.row_idx@.len(),
            nnz == matrix.values@.len(),
            nnz == rows.len(),
            nnz == cols.len(),
            c.wf(),
            rows == c.rows(),
            cols == c.cols(),
            cp == c.permuted_col_ptr@,
            ri == c.permuted_row_idx@,
            n == c.input_n,
            below(cols, n),
            len == ri.len(),
            values@.len() == len,
            forall|j: int, q: int|
                0 <= j < n && #[trigger] in_column(cp, j, q) ==> values@[q] == total(
                    rows,
                    cols,
                    matrix.values@,
                    ri[q] as int,
                    j,
                    k as int,
                ),
        decreases nnz - k,
    {
        let ghost before = values@;
        let ghost at = c.value_map@[k as int] as int;
        proof {
            assert(cols[k as int] < n);
            assert(in_column(cp, cols[k as int] as int, at));
            assert(cp[cols[k as int] + 1] <= cp[n]);
        }
        let dest: usize = c.value_map[k];
        let v = values[dest].plus(matrix.values[k]);
        values.set(dest, v);
        proof {
            assert forall|j: int, q: int| 0 <= j < n && #[trigger] in_column(cp, j, q) implies values@[q]
                == total(rows, cols, matrix.values@, ri[q] as int, j, k + 1) by {
                assert(before[q] == total(rows, cols, matrix.values@, ri[q] as int, j, k as int));
                if q == at {
                    column_of_place(cp, j, cols[k as int] as int, q);
                } else if rows[k as int] == ri[q] && cols[k as int] == j {
                    let run = rows_in(cp, ri, j);
                    assert(cp[j + 1] <= cp[n]);
                    assert(ascending(run));
                    assert(run[q - cp[j]] == run[at - cp[j]]);
                    if q < at {
                        assert(run[q - cp[j]] < run[at - cp[j]]);
                    } else {
                        assert(run[at - cp[j]] < run[q - cp[j]]);
                    }
                }
            }
        }
        k = k + 1;
    }
    let m = GeneralCsc {
        n: matrix.n,
        col_ptr: copied(&c.permuted_col_ptr),
        row_idx: copied(&c.permuted_row_idx),
        values,
    };
    proof {
        assert forall|j: int| 0 <= j < m.n implies ascending(#[trigger] m.rows_of(j)) by {
            assert(m.rows_of(j) == rows_in(cp, ri, j));
        }
        assert(m.wf());
        assert forall|j: int, i: int| 0 <= j < m.n implies (#[trigger] m.col(j).contains_key(i) <==> hit(
            rows,
            cols,
            i,
            j,
            rows.len() as int,
        )) by {
            assert(m.rows_of(j) == rows_in(cp, ri, j));
            assert(occurs(rows_in(cp, ri, j), i) <==> hit(rows, cols, i, j, rows.len() as int));
        }
        assert forall|j: int, i: int| 0 <= j < m.n && #[trigger] m.col(j).contains_key(i) implies m.col(
            j,
        )[i] == total(rows, cols, matrix.values@, i, j, rows.len() as int) by {
            column_range(m, j);
            let q = position(m.rows_of(j), i);
            assert(m.rows_of(j)[q] == i);
            col_map_at(m.rows_of(j), m.vals_of(j), q);
            assert(in_column(cp, j, cp[j] + q));
            assert(m.vals_of(j)[q] == m.values@[cp[j] + q]);
        }
    }
    m
}

/// Permute a symmetric matrix into pivot order, through the cache where the
/// caller expects the same pattern again and the cache holds exactly this
/// pattern and permutation. A caller that expects no reuse leaves no cache
/// behind.
pub fn permute_csc_values_with_cache<T: Scalar, C: Clock>(
    matrix: &GeneralCsc<T>,
    perm: &[usize],
    perm_inv: &[usize],
    clock: Option<&C>,
    pattern_reused_hint: bool,
    cache: &mut Option<PermuteCache>,
) -> (r: Result<(GeneralCsc<T>, u64), RslabError>)
    requires
        matrix.wf(),
        perm_inv@.len() == matrix.n,
        below(perm_inv@, matrix.n as int),
        *old(cache) is Some ==> (*old(cache))->0.wf(),
    ensures
        r is Ok,
        r matches Ok(m) ==> is_permuted(m.0, *matrix, perm_inv@) && is_lower(m.0),
        r matches Ok(m) ==> if pattern_reused_hint && *old(cache) is Some && (*old(
            cache,
        ))->0.matches(*matrix, perm_inv@) {
            m.1 == 0
        } else {
            spent(clock, m.1)
        },
        *final(cache) is Some <==> pattern_reused_hint,
        *final(cache) is Some ==> (*final(cache))->0.wf() && (*final(cache))->0.matches(
            *matrix,
            perm_inv@,
        ),
{
    if pattern_reused_hint {
        let hot = match cache {
            Some(c) => c.input_n == matrix.n && same_indices(
                c.input_col_ptr.as_slice(),
                matrix.col_ptr.as_slice(),
            ) && same_indices(c.input_row_idx.as_slice(), matrix.row_idx.as_slice())
                && same_indices(c.input_perm_inv.as_slice(), perm_inv),
            None => false,
        };
        if hot {
            match cache {
                Some(c) => {
                    let m = scatter_values(c, matrix);
                    proof {
                        permuted_is_lower(m, *matrix, perm_inv@);
                    }
                    return Ok((m, 0));
                },
                None => {},
            }
        }
    }
    let (permuted, us) = match permute_csc_values(matrix, perm, perm_inv, clock) {
        Ok(x) => x,
        Err(e) => {
            return Err(e);
        },
    };
    if pattern_reused_hint {
        let ghost rows = lower_rows(matrix.col_ptr@, matrix.row_idx@, perm_inv@, matrix.n as int);
        let ghost cols = lower_cols(matrix.col_ptr@, matrix.row_idx@, perm_inv@, matrix.n as int);
        proof {
            rows_are_below(*matrix);
            rows_are_below(permuted);
            landing_bounds(
                matrix.col_ptr@,
                matrix.row_idx@,
                perm_inv@,
                matrix.n as int,
                matrix.n as int,
            );
            assert forall|k: int| 0 <= k < rows.len() implies occurs(
                permuted.rows_of(#[trigger] cols[k] as int),
                rows[k] as int,
            ) by {
                assert(hit(rows, cols, rows[k] as int, cols[k] as int, rows.len() as int));
                assert(permuted.col(cols[k] as int).contains_key(rows[k] as int));
            }
        }
        match build_permute_value_map(matrix, perm_inv, &permuted) {
            Ok(value_map) => {
                let c = PermuteCache {
                    input_n: matrix.n,
                    input_col_ptr: copied(&matrix.col_ptr),
                    input_row_idx: copied(&matrix.row_idx),
                    input_perm_inv: crate::flat::part_of(perm_inv, 0, perm_inv.len()),
                    permuted_col_ptr: copied(&permuted.col_ptr),
                    permuted_row_idx: copied(&permuted.row_idx),
                    value_map,
                };
                proof {
                    assert(c.input_perm_inv@ =~= perm_inv@);
                    assert forall|j: int| 0 <= j < matrix.n implies ascending(
                        #[trigger] rows_in(c.permuted_col_ptr@, c.permuted_row_idx@, j),
                    ) by {
                        assert(permuted.rows_of(j) == rows_in(
                            c.permuted_col_ptr@,
                            c.permuted_row_idx@,
                            j,
                        ));
                    }
                    assert forall|j: int, i: int| 0 <= j < matrix.n implies (#[trigger] occurs(
                        rows_in(c.permuted_col_ptr@, c.permuted_row_idx@, j),
                        i,
                    ) <==> hit(c.rows(), c.cols(), i, j, c.rows().len() as int)) by {
                        assert(permuted.rows_of(j) == rows_in(
                            c.permuted_col_ptr@,
                            c.permuted_row_idx@,
                            j,
                        ));
                        assert(permuted.col(j).contains_key(i) <==> hit(
                            rows,
                            cols,
                            i,
                            j,
                            rows.len() as int,
                        ));
                    }
                }
                *cache = Some(c);
            },
            Err(_) => {
                *cache = None;
            },
        }
    } else {
        *cache = None;
    }
    Ok((permuted, us))
}

} // verus!
