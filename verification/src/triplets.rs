//! Building a matrix from `(row, column, value)` triplets.

use crate::algebra::sum;
use crate::error::RslabError;
use crate::scalar::{Field, Scalar};
use crate::seqs::{ascending, ascending_is_distinct, below, occurs};
use crate::sparse::{col_map_at, column_range, position, GeneralCsc, SparseColumn};
use vstd::prelude::*;

verus! {

/// Some triplet among the first `k` sits at `(i, j)`.
pub open spec fn hit(rows: Seq<usize>, cols: Seq<usize>, i: int, j: int, k: int) -> bool {
    exists|q: int| 0 <= q < k && #[trigger] rows[q] == i && cols[q] == j
}

/// The sum of the first `k` triplets at `(i, j)`, in triplet order.
pub open spec fn total<T: Scalar>(
    rows: Seq<usize>,
    cols: Seq<usize>,
    vals: Seq<T>,
    i: int,
    j: int,
    k: int,
) -> T
    decreases k,
{
    if k <= 0 {
        T::zero_spec()
    } else {
        let before = total(rows, cols, vals, i, j, k - 1);
        if rows[k - 1] == i && cols[k - 1] == j {
            before.plus_spec(vals[k - 1])
        } else {
            before
        }
    }
}

/// In exact arithmetic an assembled entry is the sum of all triplets at its place.
pub proof fn triplets_add_up<T: Field>(
    rows: Seq<usize>,
    cols: Seq<usize>,
    vals: Seq<T>,
    i: int,
    j: int,
    k: int,
)
    requires
        0 <= k,
    ensures
        total(rows, cols, vals, i, j, k) == sum(
            k as nat,
            |q: int|
                if rows[q] == i && cols[q] == j {
                    vals[q]
                } else {
                    T::zero_spec()
                },
        ),
    decreases k,
{
    let f = |q: int|
        if rows[q] == i && cols[q] == j {
            vals[q]
        } else {
            T::zero_spec()
        };
    if k > 0 {
        triplets_add_up(rows, cols, vals, i, j, k - 1);
        assert(sum(k as nat, f) == sum((k - 1) as nat, f).plus_spec(f(k - 1)));
        T::plus_zero(sum((k - 1) as nat, f));
    }
}

/// The rows of each column in ascending order, and where each triplet belongs:
/// triplet `k` is entry `slot[k]` of its column.
pub open spec fn pattern_ok(
    n: int,
    rows: Seq<usize>,
    cols: Seq<usize>,
    col_rows: Seq<Vec<usize>>,
    slot: Seq<usize>,
) -> bool {
    &&& col_rows.len() == n
    &&& slot.len() == rows.len()
    &&& forall|j: int| 0 <= j < n ==> ascending(#[trigger] col_rows[j]@)
    &&& forall|j: int, i: int|
        0 <= j < n && #[trigger] occurs(col_rows[j]@, i) ==> hit(
            rows,
            cols,
            i,
            j,
            rows.len() as int,
        )
    &&& forall|k: int|
        0 <= k < rows.len() ==> #[trigger] slot[k] < col_rows[cols[k] as int]@.len()
            && col_rows[cols[k] as int]@[slot[k] as int] == rows[k]
}

/// Sort the triplets into columns: by row first, then by column.
pub fn triplet_pattern(n: usize, rows: &Vec<usize>, cols: &Vec<usize>) -> (r: (
    Vec<Vec<usize>>,
    Vec<usize>,
))
    requires
        rows@.len() == cols@.len(),
        below(rows@, n as int),
        below(cols@, n as int),
    ensures
        pattern_ok(n as int, rows@, cols@, r.0@, r.1@),
{
    let len: usize = rows.len();
    let mut by_row: Vec<Vec<usize>> = Vec::new();
    let mut col_rows: Vec<Vec<usize>> = Vec::new();
    let mut j: usize = 0;
    while j < n
        invariant
            j <= n,
            by_row@.len() == j,
            col_rows@.len() == j,
            forall|c: int| 0 <= c < j ==> (#[trigger] by_row@[c])@.len() == 0,
            forall|c: int| 0 <= c < j ==> (#[trigger] col_rows@[c])@.len() == 0,
        decreases n - j,
    {
        by_row.push(Vec::new());
        col_rows.push(Vec::new());
        j = j + 1;
    }
    let mut slot: Vec<usize> = Vec::new();
    let mut k: usize = 0;
    while k < len
        invariant
            k <= len,
            len == rows@.len(),
            below(rows@, n as int),
            by_row@.len() == n,
            slot@.len() == k,
            forall|r: int, q: int|
                0 <= r < n && 0 <= q < by_row@[r]@.len() ==> #[trigger] by_row@[r]@[q] < k
                    && rows@[by_row@[r]@[q] as int] == r,
            forall|i: int| 0 <= i < k ==> occurs(by_row@[#[trigger] rows@[i] as int]@, i),
        decreases len - k,
    {
        let r: usize = rows[k];
        let ghost before = by_row@;
        by_row[r].push(k);
        slot.push(0);
        proof {
            assert(by_row@[r as int]@ == before[r as int]@.push(k));
            assert forall|i: int| 0 <= i < k + 1 implies occurs(by_row@[#[trigger] rows@[i] as int]@, i) by {
                if i == k {
                    assert(by_row@[r as int]@[before[r as int]@.len() as int] == k);
                } else {
                    assert(occurs(before[rows@[i] as int]@, i));
                    let q = position(before[rows@[i] as int]@, i);
                    assert(by_row@[rows@[i] as int]@[q] == i);
                }
            }
            assert forall|r2: int, q: int| 0 <= r2 < n && 0 <= q < by_row@[r2]@.len() implies #[trigger] by_row@[r2]@[q]
                < k + 1 && rows@[by_row@[r2]@[q] as int] == r2 by {
                if r2 == r && q == before[r as int]@.len() {
                } else {
                    assert(by_row@[r2]@[q] == before[r2]@[q]);
                }
            }
        }
        k = k + 1;
    }
    let mut r: usize = 0;
    while r < n
        invariant
            r <= n,
            len == rows@.len(),
            rows@.len() == cols@.len(),
            below(rows@, n as int),
            below(cols@, n as int),
            by_row@.len() == n,
            col_rows@.len() == n,
            slot@.len() == len,
            forall|r2: int, q: int|
                0 <= r2 < n && 0 <= q < by_row@[r2]@.len() ==> #[trigger] by_row@[r2]@[q] < len
                    && rows@[by_row@[r2]@[q] as int] == r2,
            forall|i: int| 0 <= i < len ==> occurs(by_row@[#[trigger] rows@[i] as int]@, i),
            forall|c: int| 0 <= c < n ==> ascending(#[trigger] col_rows@[c]@),
            forall|c: int| 0 <= c < n ==> below(#[trigger] col_rows@[c]@, r as int),
            forall|c: int, i: int|
                0 <= c < n && #[trigger] occurs(col_rows@[c]@, i) ==> hit(
                    rows@,
                    cols@,
                    i,
                    c,
                    len as int,
                ),
            forall|i: int|
                0 <= i < len && rows@[i] < r ==> #[trigger] slot@[i] < col_rows@[cols@[i] as int]@.len()
                    && col_rows@[cols@[i] as int]@[slot@[i] as int] == rows@[i],
        decreases n - r,
    {
        let mut q: usize = 0;
        let ghost start = col_rows@;
        while q < by_row[r].len()
            invariant
                r < n,
                q <= by_row@[r as int]@.len(),
                len == rows@.len(),
                rows@.len() == cols@.len(),
                below(rows@, n as int),
                below(cols@, n as int),
                by_row@.len() == n,
                col_rows@.len() == n,
                slot@.len() == len,
                forall|r2: int, q2: int|
                    0 <= r2 < n && 0 <= q2 < by_row@[r2]@.len() ==> #[trigger] by_row@[r2]@[q2] < len
                        && rows@[by_row@[r2]@[q2] as int] == r2,
                forall|i: int| 0 <= i < len ==> occurs(by_row@[#[trigger] rows@[i] as int]@, i),
                forall|c: int| 0 <= c < n ==> ascending(#[trigger] col_rows@[c]@),
                forall|c: int| 0 <= c < n ==> below(#[trigger] col_rows@[c]@, r + 1),
                forall|c: int, i: int|
                    0 <= c < n && #[trigger] occurs(col_rows@[c]@, i) ==> hit(
                        rows@,
                        cols@,
                        i,
                        c,
                        len as int,
                    ),
                forall|i: int|
                    0 <= i < len && (rows@[i] < r || (rows@[i] == r && occurs(
                        by_row@[r as int]@.take(q as int),
                        i,
                    ))) ==> #[trigger] slot@[i] < col_rows@[cols@[i] as int]@.len()
                        && col_rows@[cols@[i] as int]@[slot@[i] as int] == rows@[i],
            decreases by_row@[r as int]@.len() - q,
        {
            let k: usize = by_row[r][q];
            assert(by_row@[r as int]@[q as int] < len && rows@[k as int] == r);
            let c: usize = cols[k];
            assert(cols@[k as int] < n);
            let ghost cr0 = col_rows@;
            let ghost slot0 = slot@;
            let ghost h1 = by_row@[r as int]@.take(q as int);
            let ghost h2 = by_row@[r as int]@.take(q + 1);
            let cl: usize = col_rows[c].len();
            if cl == 0 || col_rows[c][cl - 1] != r {
                proof {
                    let rows_c = col_rows@[c as int]@;
                    assert(below(col_rows@[c as int]@, r + 1));
                    assert(ascending(col_rows@[c as int]@));
                    assert forall|p: int| 0 <= p < rows_c.len() implies #[trigger] rows_c[p] < r by {
                        assert(rows_c[p] < r + 1);
                        if p < cl - 1 {
                            assert(rows_c[p] < rows_c[cl - 1]);
                        }
                    }
                }
                col_rows[c].push(r);
                slot.set(k, cl);
                proof {
                    assert(col_rows@[c as int]@ == cr0[c as int]@.push(r));
                    assert forall|c2: int, i: int| 0 <= c2 < n && #[trigger] occurs(col_rows@[c2]@, i) implies hit(
                        rows@,
                        cols@,
                        i,
                        c2,
                        len as int,
                    ) by {
                        if c2 == c {
                            let p = position(col_rows@[c2]@, i);
                            if p < cl {
                                assert(cr0[c2]@[p] == i);
                                assert(occurs(cr0[c2]@, i));
                            } else {
                                assert(rows@[k as int] == i && cols@[k as int] == c2);
                            }
                        } else {
                            assert(occurs(cr0[c2]@, i));
                        }
                    }
                    assert forall|c2: int| 0 <= c2 < n implies ascending(#[trigger] col_rows@[c2]@) && below(
                        col_rows@[c2]@,
                        r + 1,
                    ) by {
                        assert(ascending(cr0[c2]@));
                        assert(below(cr0[c2]@, r + 1));
                        if c2 == c {
                            let rc = col_rows@[c2]@;
                            assert forall|p1: int, p2: int| 0 <= p1 < p2 < rc.len() implies #[trigger] rc[p1]
                                < #[trigger] rc[p2] by {
                                if p2 < cl {
                                    assert(cr0[c2]@[p1] < cr0[c2]@[p2]);
                                } else {
                                    assert(cr0[c2]@[p1] < r);
                                }
                            }
                            assert forall|p: int| 0 <= p < rc.len() implies #[trigger] rc[p] < r + 1 by {
                                if p < cl {
                                    assert(cr0[c2]@[p] < r + 1);
                                }
                            }
                        }
                    }
                }
            } else {
                slot.set(k, cl - 1);
            }
            q = q + 1;
            proof {
                assert forall|i: int| 0 <= i < len && (rows@[i] < r || (rows@[i] == r && occurs(h2, i))) implies #[trigger] slot@[i]
                    < col_rows@[cols@[i] as int]@.len() && col_rows@[cols@[i] as int]@[slot@[i] as int]
                    == rows@[i] by {
                    if i != k {
                        if rows@[i] == r {
                            let p = position(h2, i);
                            assert(h1[p] == i);
                        }
                        assert(slot0[i] < cr0[cols@[i] as int]@.len() && cr0[cols@[i] as int]@[slot0[i] as int]
                            == rows@[i]);
                        assert(cols@[i] < n);
                    }
                }
            }
        }
        proof {
            let br = by_row@[r as int]@;
            assert(br.take(br.len() as int) =~= br);
            assert forall|i: int| 0 <= i < len && rows@[i] < r + 1 implies #[trigger] slot@[i]
                < col_rows@[cols@[i] as int]@.len() && col_rows@[cols@[i] as int]@[slot@[i] as int]
                == rows@[i] by {
                if rows@[i] == r {
                    assert(occurs(by_row@[rows@[i] as int]@, i));
                }
            }
        }
        r = r + 1;
    }
    proof {
        assert forall|i: int| 0 <= i < rows@.len() implies #[trigger] slot@[i] < col_rows@[cols@[i] as int]@.len()
            && col_rows@[cols@[i] as int]@[slot@[i] as int] == rows@[i] by {
            assert(rows@[i] < n);
        }
    }
    (col_rows, slot)
}

/// Add every triplet, in order, to its slot.
pub fn scatter_triplets<T: Scalar>(
    n: usize,
    rows: &Vec<usize>,
    cols: &Vec<usize>,
    vals: &Vec<T>,
    col_rows: &Vec<Vec<usize>>,
    slot: &Vec<usize>,
) -> (r: Vec<Vec<T>>)
    requires
        rows@.len() == cols@.len(),
        vals@.len() == rows@.len(),
        below(cols@, n as int),
        pattern_ok(n as int, rows@, cols@, col_rows@, slot@),
    ensures
        r@.len() == n,
        forall|j: int| 0 <= j < n ==> (#[trigger] r@[j])@.len() == col_rows@[j]@.len(),
        forall|j: int, p: int|
            0 <= j < n && 0 <= p < col_rows@[j]@.len() ==> #[trigger] r@[j]@[p] == total(
                rows@,
                cols@,
                vals@,
                col_rows@[j]@[p] as int,
                j,
                rows@.len() as int,
            ),
{
    let mut out: Vec<Vec<T>> = Vec::new();
    let mut j: usize = 0;
    while j < n
        invariant
            j <= n,
            col_rows@.len() == n,
            out@.len() == j,
            forall|c: int| 0 <= c < j ==> (#[trigger] out@[c])@.len() == col_rows@[c]@.len(),
            forall|c: int, p: int|
                0 <= c < j && 0 <= p < col_rows@[c]@.len() ==> #[trigger] out@[c]@[p] == T::zero_spec(),
        decreases n - j,
    {
        let mut v: Vec<T> = Vec::new();
        let len: usize = col_rows[j].len();
        let mut p: usize = 0;
        while p < len
            invariant
                p <= len,
                v@.len() == p,
                forall|i: int| 0 <= i < p ==> #[trigger] v@[i] == T::zero_spec(),
            decreases len - p,
        {
            v.push(T::zero());
            p = p + 1;
        }
        out.push(v);
        j = j + 1;
    }
    let mut k: usize = 0;
    while k < rows.len()
        invariant
            k <= rows@.len(),
            rows@.len() == cols@.len(),
            vals@.len() == rows@.len(),
            below(cols@, n as int),
            pattern_ok(n as int, rows@, cols@, col_rows@, slot@),
            out@.len() == n,
            forall|c: int| 0 <= c < n ==> (#[trigger] out@[c])@.len() == col_rows@[c]@.len(),
            forall|c: int, p: int|
                0 <= c < n && 0 <= p < col_rows@[c]@.len() ==> #[trigger] out@[c]@[p] == total(
                    rows@,
                    cols@,
                    vals@,
                    col_rows@[c]@[p] as int,
                    c,
                    k as int,
                ),
        decreases rows@.len() - k,
    {
        let c: usize = cols[k];
        let s: usize = slot[k];
        assert(cols@[k as int] < n);
        assert(slot@[k as int] < col_rows@[c as int]@.len());
        assert(out@[c as int]@.len() == col_rows@[c as int]@.len());
        let ghost out0 = out@;
        let x = out[c][s].plus(vals[k]);
        out[c].set(s, x);
        proof {
            assert(out@[c as int]@ == out0[c as int]@.update(s as int, x));
            assert forall|c2: int, p: int| 0 <= c2 < n && 0 <= p < col_rows@[c2]@.len() implies #[trigger] out@[c2]@[p]
                == total(rows@, cols@, vals@, col_rows@[c2]@[p] as int, c2, k + 1) by {
                assert(out0[c2]@[p] == total(
                    rows@,
                    cols@,
                    vals@,
                    col_rows@[c2]@[p] as int,
                    c2,
                    k as int,
                ));
                if c2 == c && p != s {
                    assert(ascending(col_rows@[c2]@));
                    ascending_is_distinct(col_rows@[c2]@);
                    if p < s {
                        assert(col_rows@[c2]@[p] != col_rows@[c2]@[s as int]);
                    } else {
                        assert(col_rows@[c2]@[s as int] != col_rows@[c2]@[p]);
                    }
                }
            }
        }
        k = k + 1;
    }
    out
}

/// `a` holds exactly the positions of the triplets, each with its total.
pub open spec fn assembled<T: Scalar>(
    a: GeneralCsc<T>,
    rows: Seq<usize>,
    cols: Seq<usize>,
    vals: Seq<T>,
) -> bool {
    &&& a.wf()
    &&& forall|j: int, i: int|
        0 <= j < a.n ==> (#[trigger] a.col(j).contains_key(i) <==> hit(
            rows,
            cols,
            i,
            j,
            rows.len() as int,
        ))
    &&& forall|j: int, i: int|
        0 <= j < a.n && #[trigger] a.col(j).contains_key(i) ==> a.col(j)[i] == total(
            rows,
            cols,
            vals,
            i,
            j,
            rows.len() as int,
        )
}

/// Pack columns with the totals into a matrix.
pub fn assemble<T: Scalar>(
    n: usize,
    col_rows: Vec<Vec<usize>>,
    col_vals: Vec<Vec<T>>,
    Ghost(rows): Ghost<Seq<usize>>,
    Ghost(cols): Ghost<Seq<usize>>,
    Ghost(vals): Ghost<Seq<T>>,
    Ghost(slot): Ghost<Seq<usize>>,
) -> (a: GeneralCsc<T>)
    requires
        rows.len() == cols.len(),
        below(rows, n as int),
        below(cols, n as int),
        pattern_ok(n as int, rows, cols, col_rows@, slot),
        col_vals@.len() == n,
        forall|j: int| 0 <= j < n ==> (#[trigger] col_vals@[j])@.len() == col_rows@[j]@.len(),
        forall|j: int, p: int|
            0 <= j < n && 0 <= p < col_rows@[j]@.len() ==> #[trigger] col_vals@[j]@[p] == total(
                rows,
                cols,
                vals,
                col_rows@[j]@[p] as int,
                j,
                rows.len() as int,
            ),
    ensures
        a.n == n,
        assembled(a, rows, cols, vals),
        forall|j: int| 0 <= j < n ==> #[trigger] a.rows_of(j) == col_rows@[j]@,
{
    let ghost cr = col_rows@;
    let ghost cv = col_vals@;
    let mut columns: Vec<SparseColumn<T>> = Vec::new();
    let mut j: usize = 0;
    while j < n
        invariant
            j <= n,
            cr == col_rows@,
            cv == col_vals@,
            cr.len() == n,
            cv.len() == n,
            columns@.len() == j,
            forall|c: int| 0 <= c < j ==> (#[trigger] columns@[c]).rows@ == cr[c]@ && columns@[c].vals@ == cv[c]@,
        decreases n - j,
    {
        let mut rv: Vec<usize> = Vec::new();
        let mut vv: Vec<T> = Vec::new();
        let mut p: usize = 0;
        let len: usize = col_rows[j].len();
        let len2: usize = col_vals[j].len();
        while p < len
            invariant
                p <= len,
                j < n,
                len == col_rows@[j as int]@.len(),
                col_rows@.len() == n,
                rv@ == col_rows@[j as int]@.take(p as int),
            decreases len - p,
        {
            rv.push(col_rows[j][p]);
            p = p + 1;
            assert(rv@ =~= col_rows@[j as int]@.take(p as int));
        }
        p = 0;
        while p < len2
            invariant
                p <= len2,
                j < n,
                len2 == col_vals@[j as int]@.len(),
                col_vals@.len() == n,
                vv@ == col_vals@[j as int]@.take(p as int),
            decreases len2 - p,
        {
            vv.push(col_vals[j][p]);
            p = p + 1;
            assert(vv@ =~= col_vals@[j as int]@.take(p as int));
        }
        assert(rv@ =~= cr[j as int]@);
        assert(vv@ =~= cv[j as int]@);
        columns.push(SparseColumn { rows: rv, vals: vv });
        j = j + 1;
    }
    proof {
        assert forall|c: int| 0 <= c < n implies (#[trigger] columns@[c]).wf(n as int) && ascending(columns@[c].rows@) by {
            assert(ascending(cr[c]@));
            ascending_is_distinct(cr[c]@);
            assert(cv[c]@.len() == cr[c]@.len());
            let rs = columns@[c].rows@;
            assert forall|p: int| 0 <= p < rs.len() implies #[trigger] rs[p] < n by {
                assert(occurs(cr[c]@, cr[c]@[p] as int));
                let k = choose|k: int| 0 <= k < rows.len() && #[trigger] rows[k] == rs[p] && cols[k] == c;
                assert(rows[k] < n);
            }
        }
    }
    let a = GeneralCsc::from_columns(n, &columns);
    proof {
        assert forall|j: int, i: int| 0 <= j < a.n implies (#[trigger] a.col(j).contains_key(i) <==> hit(
            rows,
            cols,
            i,
            j,
            rows.len() as int,
        )) by {
            assert(a.rows_of(j) == columns@[j].rows@);
            if hit(rows, cols, i, j, rows.len() as int) {
                let k = choose|k: int| 0 <= k < rows.len() && #[trigger] rows[k] == i && cols[k] == j;
                assert(slot[k] < cr[cols[k] as int]@.len());
                assert(cr[j]@[slot[k] as int] == i);
            }
            if a.col(j).contains_key(i) {
                assert(occurs(cr[j]@, i));
            }
        }
        assert forall|j: int, i: int| 0 <= j < a.n && #[trigger] a.col(j).contains_key(i) implies a.col(j)[i] == total(
            rows,
            cols,
            vals,
            i,
            j,
            rows.len() as int,
        ) by {
            assert(a.rows_of(j) == columns@[j].rows@);
            assert(a.vals_of(j) == columns@[j].vals@);
            column_range(a, j);
            let p = position(a.rows_of(j), i);
            col_map_at(a.rows_of(j), a.vals_of(j), p);
            assert(cv[j]@[p] == total(rows, cols, vals, cr[j]@[p] as int, j, rows.len() as int));
        }
        assert forall|j: int| 0 <= j < n implies #[trigger] a.rows_of(j) == cr[j]@ by {
            let x = columns@[j];
        }
    }
    a
}

/// Are all indices below `m`?
pub fn all_below(v: &Vec<usize>, m: usize) -> (b: bool)
    ensures
        b <==> below(v@, m as int),
{
    let mut k: usize = 0;
    while k < v.len()
        invariant
            k <= v@.len(),
            forall|i: int| 0 <= i < k ==> #[trigger] v@[i] < m,
        decreases v@.len() - k,
    {
        if v[k] >= m {
            assert(!(v@[k as int] < m));
            return false;
        }
        k = k + 1;
    }
    true
}

impl<T: Scalar> GeneralCsc<T> {
    /// The `n` by `n` matrix of the triplets; triplets at the same position
    /// are added in the order given.
    pub fn from_triplets(n: usize, rows: &Vec<usize>, cols: &Vec<usize>, vals: &Vec<T>) -> (r: Result<
        GeneralCsc<T>,
        RslabError,
    >)
        ensures
            match r {
                Ok(a) => {
                    &&& rows@.len() == cols@.len() == vals@.len()
                    &&& below(rows@, n as int)
                    &&& below(cols@, n as int)
                    &&& a.n == n
                    &&& assembled(a, rows@, cols@, vals@)
                },
                Err(e) => {
                    ||| rows@.len() != cols@.len() && e == (RslabError::DimensionMismatch {
                        expected: rows@.len() as usize,
                        got: cols@.len() as usize,
                    })
                    ||| rows@.len() == cols@.len() && rows@.len() != vals@.len() && e == (RslabError::DimensionMismatch {
                        expected: rows@.len() as usize,
                        got: vals@.len() as usize,
                    })
                    ||| rows@.len() == cols@.len() == vals@.len() && e is InvalidInput && !(below(
                        rows@,
                        n as int,
                    ) && below(cols@, n as int))
                },
            },
    {
        if rows.len() != cols.len() {
            return Err(
                RslabError::DimensionMismatch { expected: rows.len(), got: cols.len() },
            );
        }
        if rows.len() != vals.len() {
            return Err(
                RslabError::DimensionMismatch { expected: rows.len(), got: vals.len() },
            );
        }
        if !all_below(rows, n) || !all_below(cols, n) {
            return Err(RslabError::InvalidInput("triplets: index out of range"));
        }
        let (col_rows, slot) = triplet_pattern(n, rows, cols);
        let col_vals = scatter_triplets(n, rows, cols, vals, &col_rows, &slot);
        Ok(
            assemble(
                n,
                col_rows,
                col_vals,
                Ghost(rows@),
                Ghost(cols@),
                Ghost(vals@),
                Ghost(slot@),
            ),
        )
    }
}

} // verus!
