//! Row scaling, and the columns of the scaled, permuted matrix.

use crate::scalar::{Real, Scalar};
use crate::seqs::{below, inverse_of, is_permutation};
use crate::sparse::{col_map_at, column_range, position, GeneralCsc, SparseColumn};
use vstd::prelude::*;

verus! {

/// The largest magnitude in row `i` among the first `k` stored entries.
pub open spec fn row_max<T: Scalar>(a: GeneralCsc<T>, i: int, k: int) -> T::Real
    decreases k,
{
    if k <= 0 {
        <T::Real as Real>::zero_spec()
    } else {
        let before = row_max(a, i, k - 1);
        let m = a.values@[k - 1].magnitude_spec();
        if a.row_idx@[k - 1] == i && m.gt_spec(before) {
            m
        } else {
            before
        }
    }
}

/// The factor that brings the largest magnitude `m` to one, or one.
pub open spec fn scale_of<R: Real>(m: R) -> R {
    if m.gt_spec(R::zero_spec()) && m.is_finite_spec() {
        R::one_spec().over_spec(m)
    } else {
        R::one_spec()
    }
}

/// The scale factors of all rows (one for an empty row, or without scaling).
pub open spec fn row_scales<T: Scalar>(a: GeneralCsc<T>, enabled: bool) -> Seq<T::Real> {
    Seq::new(
        a.n as nat,
        |i: int|
            if enabled {
                scale_of(row_max(a, i, a.row_idx@.len() as int))
            } else {
                <T::Real as Real>::one_spec()
            },
    )
}

/// Row-max scaling reciprocals.
pub fn row_scale_inv<T: Scalar>(a: &GeneralCsc<T>, enabled: bool) -> (r: Vec<T::Real>)
    requires
        a.wf(),
    ensures
        r@ == row_scales(*a, enabled),
        r@.len() == a.n,
{
    let n: usize = a.n;
    let mut rs: Vec<T::Real> = Vec::new();
    let mut i: usize = 0;
    while i < n
        invariant
            i <= n,
            rs@.len() == i,
            forall|q: int| 0 <= q < i ==> #[trigger] rs@[q] == <T::Real as Real>::zero_spec(),
        decreases n - i,
    {
        rs.push(<T::Real as Real>::zero());
        i = i + 1;
    }
    if enabled {
        let mut k: usize = 0;
        while k < a.row_idx.len()
            invariant
                k <= a.row_idx@.len(),
                a.wf(),
                n == a.n,
                rs@.len() == n,
                forall|q: int| 0 <= q < n ==> #[trigger] rs@[q] == row_max(*a, q, k as int),
            decreases a.row_idx@.len() - k,
        {
            let r: usize = a.row_idx[k];
            let ghost rs0 = rs@;
            let m = a.values[k].magnitude();
            if m.gt(rs[r]) {
                rs.set(r, m);
            }
            k = k + 1;
            proof {
                assert forall|q: int| 0 <= q < n implies #[trigger] rs@[q] == row_max(*a, q, k as int) by {
                    assert(rs0[q] == row_max(*a, q, k - 1));
                }
            }
        }
    }
    let mut out: Vec<T::Real> = Vec::new();
    i = 0;
    while i < n
        invariant
            i <= n,
            n == a.n,
            rs@.len() == n,
            enabled ==> forall|q: int|
                0 <= q < n ==> #[trigger] rs@[q] == row_max(*a, q, a.row_idx@.len() as int),
            !enabled ==> forall|q: int|
                0 <= q < n ==> #[trigger] rs@[q] == <T::Real as Real>::zero_spec(),
            out@.len() == i,
            forall|q: int| 0 <= q < i ==> #[trigger] out@[q] == row_scales(*a, enabled)[q],
        decreases n - i,
    {
        let m = rs[i];
        proof {
            <T::Real as Real>::gt_irreflexive(<T::Real as Real>::zero_spec());
            assert(rs@[i as int] == m);
        }
        let s = if m.gt(<T::Real as Real>::zero()) && m.is_finite() {
            <T::Real as Real>::one().over(m)
        } else {
            <T::Real as Real>::one()
        };
        out.push(s);
        i = i + 1;
    }
    assert(out@ =~= row_scales(*a, enabled));
    out
}

/// Column `c` of the scaled matrix, in storage order: the permuted row and the
/// scaled value of every entry.
pub open spec fn scaled_entries<T: Scalar>(
    a: GeneralCsc<T>,
    rs: Seq<T::Real>,
    pinv: Seq<usize>,
    c: int,
) -> Seq<(int, T)> {
    Seq::new(
        a.rows_of(c).len(),
        |q: int|
            (
                pinv[a.rows_of(c)[q] as int] as int,
                a.vals_of(c)[q].times_spec(T::from_real_spec(rs[a.rows_of(c)[q] as int])),
            ),
    )
}

/// The entries with a row in `lo..hi`, numbered from `lo`.
pub open spec fn kept<T>(e: Seq<(int, T)>, lo: int, hi: int) -> Seq<(int, T)>
    decreases e.len(),
{
    if e.len() == 0 {
        Seq::empty()
    } else {
        let rest = kept(e.drop_last(), lo, hi);
        let last = e.last();
        if lo <= last.0 < hi {
            rest.push((last.0 - lo, last.1))
        } else {
            rest
        }
    }
}

/// The column lists exactly these entries.
pub open spec fn is_column<T>(col: SparseColumn<T>, e: Seq<(int, T)>) -> bool {
    &&& col.rows@.len() == e.len()
    &&& col.vals@.len() == e.len()
    &&& forall|q: int| 0 <= q < e.len() ==> #[trigger] col.rows@[q] == e[q].0
    &&& forall|q: int| 0 <= q < e.len() ==> #[trigger] col.vals@[q] == e[q].1
}

/// Every kept entry comes from the list.
pub proof fn kept_from<T>(e: Seq<(int, T)>, lo: int, hi: int, q: int) -> (p: int)
    requires
        0 <= q < kept(e, lo, hi).len(),
    ensures
        0 <= p < e.len(),
        lo <= e[p].0 < hi,
        e[p].0 == kept(e, lo, hi)[q].0 + lo,
        e[p].1 == kept(e, lo, hi)[q].1,
    decreases e.len(),
{
    let d = e.drop_last();
    if q < kept(d, lo, hi).len() {
        kept_from(d, lo, hi, q)
    } else {
        e.len() - 1
    }
}

/// Every entry in the range is kept.
pub proof fn kept_to<T>(e: Seq<(int, T)>, lo: int, hi: int, p: int) -> (q: int)
    requires
        0 <= p < e.len(),
        lo <= e[p].0 < hi,
    ensures
        0 <= q < kept(e, lo, hi).len(),
        e[p].0 == kept(e, lo, hi)[q].0 + lo,
        e[p].1 == kept(e, lo, hi)[q].1,
    decreases e.len(),
{
    let d = e.drop_last();
    if p < d.len() {
        kept_to(d, lo, hi, p)
    } else {
        kept(d, lo, hi).len() as int
    }
}

/// No two entries share a row.
pub open spec fn distinct_rows<T>(e: Seq<(int, T)>) -> bool {
    forall|p1: int, p2: int| #![trigger e[p1], e[p2]] 0 <= p1 < p2 < e.len() ==> e[p1].0 != e[p2].0
}

/// Entries in distinct rows stay in distinct rows.
pub proof fn kept_distinct<T>(e: Seq<(int, T)>, lo: int, hi: int)
    requires
        distinct_rows(e),
    ensures
        distinct_rows(kept(e, lo, hi)),
    decreases e.len(),
{
    if e.len() > 0 {
        let d = e.drop_last();
        assert forall|p1: int, p2: int|
            #![trigger d[p1], d[p2]]
            0 <= p1 < p2 < d.len() implies d[p1].0 != d[p2].0 by {
            assert(e[p1].0 != e[p2].0);
        }
        kept_distinct(d, lo, hi);
        let k0 = kept(d, lo, hi);
        let k = kept(e, lo, hi);
        assert forall|q1: int, q2: int|
            #![trigger k[q1], k[q2]]
            0 <= q1 < q2 < k.len() implies k[q1].0 != k[q2].0 by {
            assert(k[q1] == k0[q1]);
            if q2 == k0.len() {
                let p = kept_from(d, lo, hi, q1);
                assert(e[p] == d[p]);
                assert(e[p].0 != e[e.len() - 1].0);
            } else {
                assert(k[q2] == k0[q2]);
            }
        }
    }
}

/// The scaled entries of a column sit in distinct permuted rows.
pub proof fn scaled_distinct<T: Scalar>(
    a: GeneralCsc<T>,
    rs: Seq<T::Real>,
    perm: Seq<usize>,
    pinv: Seq<usize>,
    c: int,
)
    requires
        a.wf(),
        0 <= c < a.n,
        is_permutation(perm, a.n as int),
        inverse_of(pinv, perm),
    ensures
        distinct_rows(scaled_entries(a, rs, pinv, c)),
        forall|p: int|
            0 <= p < scaled_entries(a, rs, pinv, c).len() ==> 0 <= (#[trigger] scaled_entries(
                a,
                rs,
                pinv,
                c,
            )[p]).0 < a.n,
{
    column_range(a, c);
    let rows = a.rows_of(c);
    let e = scaled_entries(a, rs, pinv, c);
    assert forall|p: int| 0 <= p < e.len() implies 0 <= (#[trigger] e[p]).0 < a.n && perm[e[p].0] == rows[p] by {
        assert(rows[p] < a.n);
        inverse_back(perm, pinv, a.n as int, rows[p] as int);
    }
    assert forall|p1: int, p2: int|
        #![trigger e[p1], e[p2]]
        0 <= p1 < p2 < e.len() implies e[p1].0 != e[p2].0 by {
        assert(rows[p1] != rows[p2]);
        assert(perm[e[p1].0] == rows[p1]);
        assert(perm[e[p2].0] == rows[p2]);
    }
}

/// An inverse permutation is undone by the permutation.
pub proof fn inverse_back(perm: Seq<usize>, pinv: Seq<usize>, n: int, r: int)
    requires
        is_permutation(perm, n),
        inverse_of(pinv, perm),
        0 <= r < n,
    ensures
        0 <= pinv[r] < n,
        perm[pinv[r] as int] == r,
{
    crate::seqs::permutation_is_onto(perm, n, r);
    let k = position(perm, r);
    assert(pinv[perm[k] as int] == k);
}

/// Some entry of column `c` lies in permuted row `be` or below.
pub open spec fn reaches_below<T>(a: GeneralCsc<T>, pinv: Seq<usize>, c: int, be: int) -> bool {
    exists|q: int| 0 <= q < a.rows_of(c).len() && pinv[#[trigger] a.rows_of(c)[q] as int] >= be
}

/// Split a column of the scaled, permuted matrix at the block `bs..be`: the
/// entries inside the block, those in earlier blocks, and whether there are
/// entries below the block.
pub fn split_column<T: Scalar>(
    a: &GeneralCsc<T>,
    rs: &Vec<T::Real>,
    pinv: &Vec<usize>,
    Ghost(perm): Ghost<Seq<usize>>,
    c: usize,
    bs: usize,
    be: usize,
) -> (r: (SparseColumn<T>, SparseColumn<T>, bool))
    requires
        a.wf(),
        c < a.n,
        rs@.len() == a.n,
        is_permutation(perm, a.n as int),
        inverse_of(pinv@, perm),
        bs < be <= a.n,
    ensures
        is_column(r.0, kept(scaled_entries(*a, rs@, pinv@, c as int), bs as int, be as int)),
        is_column(r.1, kept(scaled_entries(*a, rs@, pinv@, c as int), 0, bs as int)),
        r.0.wf(be - bs),
        r.1.wf(bs as int),
        r.2 <==> reaches_below(*a, pinv@, c as int, be as int),
{
    let ghost e = scaled_entries(*a, rs@, pinv@, c as int);
    let ghost rows = a.rows_of(c as int);
    let ghost vals = a.vals_of(c as int);
    proof {
        column_range(*a, c as int);
    }
    let mut blk: SparseColumn<T> = SparseColumn { rows: Vec::new(), vals: Vec::new() };
    let mut off: SparseColumn<T> = SparseColumn { rows: Vec::new(), vals: Vec::new() };
    let mut under = false;
    let lo: usize = a.col_ptr[c];
    let hi: usize = a.col_ptr[c + 1];
    let mut k: usize = lo;
    while k < hi
        invariant
            a.wf(),
            lo <= k <= hi <= a.row_idx@.len(),
            rs@.len() == a.n,
            pinv@.len() == a.n,
            is_permutation(perm, a.n as int),
            inverse_of(pinv@, perm),
            bs < be <= a.n,
            rows == a.rows_of(c as int),
            vals == a.vals_of(c as int),
            rows.len() == hi - lo,
            vals.len() == hi - lo,
            below(rows, a.n as int),
            forall|q: int| 0 <= q < rows.len() ==> #[trigger] rows[q] == a.row_idx@[lo + q],
            forall|q: int| 0 <= q < rows.len() ==> #[trigger] vals[q] == a.values@[lo + q],
            e == scaled_entries(*a, rs@, pinv@, c as int),
            is_column(blk, kept(e.take(k - lo), bs as int, be as int)),
            is_column(off, kept(e.take(k - lo), 0, bs as int)),
            under <==> exists|q: int| 0 <= q < k - lo && pinv@[#[trigger] rows[q] as int] >= be,
        decreases hi - k,
    {
        let r: usize = a.row_idx[k];
        let ghost h1 = e.take(k - lo);
        let ghost h2 = e.take(k - lo + 1);
        proof {
            assert(rows[k - lo] == r);
            assert(vals[k - lo] == a.values@[k as int]);
            assert(r < a.n);
            inverse_back(perm, pinv@, a.n as int, r as int);
            assert(h2.drop_last() =~= h1);
            assert(h2.last() == e[k - lo]);
        }
        let pre: usize = pinv[r];
        let sv = a.values[k].times(T::from_real(rs[r]));
        if pre < bs {
            off.rows.push(pre);
            off.vals.push(sv);
        } else if pre < be {
            blk.rows.push(pre - bs);
            blk.vals.push(sv);
        } else {
            under = true;
        }
        k = k + 1;
    }
    proof {
        assert(e.take(hi - lo) =~= e);
        scaled_distinct(*a, rs@, perm, pinv@, c as int);
        kept_wf(e, bs as int, be as int, blk);
        kept_wf(e, 0, bs as int, off);
    }
    (blk, off, under)
}

/// The kept entries make a well-formed column.
pub proof fn kept_wf<T>(e: Seq<(int, T)>, lo: int, hi: int, col: SparseColumn<T>)
    requires
        distinct_rows(e),
        is_column(col, kept(e, lo, hi)),
    ensures
        col.wf(hi - lo),
{
    kept_distinct(e, lo, hi);
    let k = kept(e, lo, hi);
    assert forall|q: int| 0 <= q < col.rows@.len() implies #[trigger] col.rows@[q] < hi - lo by {
        let p = kept_from(e, lo, hi, q);
        assert(k[q].0 < hi - lo);
    }
    assert forall|q1: int, q2: int| 0 <= q1 < q2 < col.rows@.len() implies #[trigger] col.rows@[q1]
        != #[trigger] col.rows@[q2] by {
        assert(k[q1].0 != k[q2].0);
    }
}

/// The entry of a split column in local row `r` is the scaled entry of the
/// matrix.
pub proof fn split_entry<T: Scalar>(
    a: GeneralCsc<T>,
    rs: Seq<T::Real>,
    perm: Seq<usize>,
    pinv: Seq<usize>,
    c: int,
    lo: int,
    hi: int,
    col: SparseColumn<T>,
    r: int,
)
    requires
        a.wf(),
        0 <= c < a.n,
        is_permutation(perm, a.n as int),
        inverse_of(pinv, perm),
        0 <= lo <= hi <= a.n,
        0 <= r < hi - lo,
        is_column(col, kept(scaled_entries(a, rs, pinv, c), lo, hi)),
    ensures
        ({
            let i = perm[lo + r] as int;
            &&& col@.contains_key(r) <==> a.col(c).contains_key(i)
            &&& col@.contains_key(r) ==> col@[r] == a.col(c)[i].times_spec(T::from_real_spec(rs[i]))
        }),
{
    column_range(a, c);
    let i = perm[lo + r] as int;
    let e = scaled_entries(a, rs, pinv, c);
    let k = kept(e, lo, hi);
    let rows = a.rows_of(c);
    let vals = a.vals_of(c);
    scaled_distinct(a, rs, perm, pinv, c);
    kept_wf(e, lo, hi, col);
    assert(perm[lo + r] < a.n);
    assert(pinv[perm[lo + r] as int] == lo + r);
    if col@.contains_key(r) {
        let q = position(col.rows@, r);
        assert(col.rows@[q] == k[q].0);
        let p = kept_from(e, lo, hi, q);
        inverse_back(perm, pinv, a.n as int, rows[p] as int);
        assert(rows[p] == i);
        col_map_at(rows, vals, p);
        col_map_at(col.rows@, col.vals@, q);
    }
    if a.col(c).contains_key(i) {
        let p = position(rows, i);
        assert(rows[p] == i);
        assert(e[p].0 == lo + r);
        let q = kept_to(e, lo, hi, p);
        assert(col.rows@[q] == r);
    }
}

} // verus!
