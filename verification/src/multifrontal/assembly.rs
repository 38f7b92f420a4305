//! Assembling a front: its rows, the entries of the matrix, and the
//! contributions of the children.

use crate::flat::{column_bounds, column_start};
use crate::multifrontal::kernel::{cell, cell_inside, cell_unique};
use crate::multifrontal::model::{
    added, base_at, child_trails, contrib_ok, delayed_rows, front_rows, kids_ok, own_cols,
    pattern_hits, run_ends, trails, ContribBlock,
};
use crate::multifrontal::permute::is_lower;
use crate::multifrontal::tree::SymbolicFactorization;
use crate::scalar::Scalar;
use crate::seqs::{below, distinct, occurs};
use crate::sorted::{grown, sorted_set};
use crate::sparse::{col_map_at, column_range, position, GeneralCsc};
use vstd::prelude::*;

verus! {

proof fn pushed(s: Seq<usize>, v: usize)
    ensures
        forall|i: int| #[trigger] occurs(s.push(v), i) <==> occurs(s, i) || i == v,
{
    let t = s.push(v);
    assert forall|i: int| #[trigger] occurs(t, i) <==> occurs(s, i) || i == v by {
        if occurs(s, i) {
            assert(t[position(s, i)] == i);
        }
        if i == v {
            assert(t[s.len() as int] == i);
        }
        if occurs(t, i) {
            let q = position(t, i);
            if q < s.len() {
                assert(s[q] == i);
            }
        }
    }
}

/// Append the rows from `lo` on that are not before `from`.
fn push_rows(rows: &Vec<usize>, lo: usize, hi: usize, from: usize, out: &mut Vec<usize>)
    requires
        lo <= hi <= rows@.len(),
    ensures
        forall|r: int| #[trigger]
            occurs(final(out)@, r) <==> occurs(old(out)@, r) || (r >= from && occurs(
                rows@.subrange(lo as int, hi as int),
                r,
            )),
{
    let ghost out0 = out@;
    let ghost run = rows@.subrange(lo as int, hi as int);
    let mut k: usize = lo;
    while k < hi
        invariant
            lo <= k <= hi <= rows@.len(),
            run == rows@.subrange(lo as int, hi as int),
            forall|r: int| #[trigger]
                occurs(out@, r) <==> occurs(out0, r) || (r >= from && occurs(run.take(k - lo), r)),
        decreases hi - k,
    {
        let r: usize = rows[k];
        proof {
            grown(run, k - lo, k - lo + 1);
            pushed(out@, r);
            assert(run[k - lo] == r);
        }
        if r >= from {
            out.push(r);
        }
        k = k + 1;
    }
    assert(run.take(hi - lo) =~= run);
}

/// The rows of the front of supernode `s`: own columns, the delayed columns of
/// the children in child order, and the rows that follow, ascending.
pub fn build_row_indices<T>(
    sym: &SymbolicFactorization,
    s: usize,
    store: &Vec<Option<ContribBlock<T>>>,
) -> (rows: Vec<usize>)
    requires
        sym.wf(),
        s < sym.supernodes@.len(),
        store@.len() == sym.supernodes@.len(),
        kids_ok(
            sym.supernodes@,
            sym.n as int,
            s as int,
            store@,
            sym.supernodes@[s as int].children@.len() as int,
        ),
    ensures
        front_rows(*sym, s as int, store@, rows@),
{
    let ghost sn = sym.supernodes@;
    let ghost n = sym.n as int;
    let snode = &sym.supernodes[s];
    let ghost kids = snode.children@;
    let pat = &sym.permuted_pattern;
    proof {
        run_ends(sn, n, s as int);
        assert(below(sn[s as int].children@, s as int));
    }
    let first: usize = snode.first_col;
    let own: usize = snode.ncol;
    let last: usize = first + own;
    let mut rows: Vec<usize> = Vec::new();
    let mut k: usize = 0;
    while k < own
        invariant
            k <= own,
            first + own == last,
            rows@.len() == k,
            forall|q: int| 0 <= q < k ==> #[trigger] rows@[q] == first + q,
        decreases own - k,
    {
        rows.push(first + k);
        k = k + 1;
    }
    assert(rows@ =~= own_cols(*snode));
    let mut follow: Vec<usize> = Vec::new();
    let mut j: usize = first;
    while j < last
        invariant
            first <= j <= last <= n,
            pat.wf(),
            pat.n == n,
            forall|r: int| #[trigger]
                occurs(follow@, r) <==> r >= last && pattern_hits(*pat, first as int, j as int, r),
        decreases last - j,
    {
        let ghost f0 = follow@;
        proof {
            assert(pat.col_ptr@[j as int] <= pat.col_ptr@[j + 1]);
            assert(pat.col_ptr@[j + 1] <= pat.col_ptr@[n]);
        }
        let lo: usize = pat.col_ptr[j];
        let hi: usize = pat.col_ptr[j + 1];
        push_rows(&pat.row_idx, lo, hi, last, &mut follow);
        proof {
            assert(pat.rows_of(j as int) == pat.row_idx@.subrange(lo as int, hi as int));
            assert forall|r: int| #[trigger] occurs(follow@, r) <==> r >= last && pattern_hits(
                *pat,
                first as int,
                j + 1,
                r,
            ) by {
                assert(occurs(f0, r) <==> r >= last && pattern_hits(
                    *pat,
                    first as int,
                    j as int,
                    r,
                ));
                if pattern_hits(*pat, first as int, j + 1, r) {
                    let q = choose|q: int|
                        first <= q < j + 1 && occurs(#[trigger] pat.rows_of(q), r);
                    if q < j {
                        assert(pattern_hits(*pat, first as int, j as int, r));
                    }
                }
                if pattern_hits(*pat, first as int, j as int, r) {
                    let q = choose|q: int| first <= q < j && occurs(#[trigger] pat.rows_of(q), r);
                    assert(occurs(pat.rows_of(q), r));
                }
            }
        }
        j = j + 1;
    }
    let ghost pattern_follow = follow@;
    let ghost own_rows = rows@;
    let nk: usize = snode.children.len();
    let mut q: usize = 0;
    while q < nk
        invariant
            q <= nk,
            nk == kids.len(),
            kids == snode.children@,
            snode == sym.supernodes@[s as int],
            s < sn.len(),
            sn == sym.supernodes@,
            below(kids, s as int),
            store@.len() == sn.len(),
            kids_ok(sn, n, s as int, store@, nk as int),
            rows@ == own_rows + delayed_rows(kids, store@, q as int),
            forall|r: int| #[trigger]
                occurs(follow@, r) <==> occurs(pattern_follow, r) || (r >= last && exists|x: int|
                    0 <= x < q && #[trigger] child_trails(kids, store@, x, r)),
        decreases nk - q,
    {
        let ghost f0 = follow@;
        let ghost r0 = rows@;
        let c: usize = snode.children[q];
        assert(kids[q as int] < s);
        if let Some(b) = &store[c] {
            assert(contrib_ok(sn, n, kids[q as int] as int, *b));
            let mut k: usize = 0;
            while k < b.n_delayed
                invariant
                    k <= b.n_delayed <= b.row_indices@.len(),
                    rows@ =~= r0 + b.row_indices@.take(k as int),
                decreases b.n_delayed - k,
            {
                rows.push(b.row_indices[k]);
                k = k + 1;
            }
            push_rows(&b.row_indices, b.n_delayed, b.row_indices.len(), last, &mut follow);
            proof {
                assert(b.row_indices@.skip(b.n_delayed as int) =~= b.row_indices@.subrange(
                    b.n_delayed as int,
                    b.row_indices@.len() as int,
                ));
                assert(rows@ =~= own_rows + delayed_rows(kids, store@, q + 1));
            }
        }
        proof {
            assert forall|r: int| #[trigger] occurs(follow@, r) <==> occurs(pattern_follow, r) || (r
                >= last && exists|x: int|
                0 <= x < q + 1 && #[trigger] child_trails(kids, store@, x, r)) by {
                assert(occurs(f0, r) <==> occurs(pattern_follow, r) || (r >= last && exists|x: int|
                    0 <= x < q && #[trigger] child_trails(kids, store@, x, r)));
                if occurs(follow@, r) && !occurs(f0, r) {
                    assert(child_trails(kids, store@, q as int, r));
                }
                if exists|x: int| 0 <= x < q + 1 && #[trigger] child_trails(kids, store@, x, r) {
                    let x = choose|x: int|
                        0 <= x < q + 1 && #[trigger] child_trails(kids, store@, x, r);
                    if x < q {
                        assert(child_trails(kids, store@, x, r));
                    }
                }
            }
        }
        q = q + 1;
    }
    let ghost full = rows@;
    let ghost f1 = follow@;
    let mut tail = sorted_set(follow.as_slice(), 0, follow.len());
    let ghost t1 = tail@;
    rows.append(&mut tail);
    proof {
        assert(f1.subrange(0, f1.len() as int) =~= f1);
        let del = delayed_rows(kids, store@, kids.len() as int);
        assert(full.len() == own + del.len());
        assert(rows@.take(full.len() as int) =~= full);
        assert(rows@.skip(full.len() as int) =~= t1);
        assert forall|r: int| #[trigger] occurs(t1, r) <==> trails(*sym, s as int, store@, r) by {
            assert(occurs(t1, r) <==> occurs(f1, r));
            assert(occurs(pattern_follow, r) <==> r >= last && pattern_hits(
                *pat,
                first as int,
                last as int,
                r,
            ));
        }
    }
    rows
}

/// No row has a place.
pub open spec fn unmapped(map: Seq<usize>, n: int) -> bool {
    map.len() == n && forall|g: int| 0 <= g < n ==> #[trigger] map[g] == usize::MAX
}

/// The rows have their places, the others none.
pub open spec fn mapped(map: Seq<usize>, n: int, rows: Seq<usize>) -> bool {
    &&& map.len() == n
    &&& forall|i: int| 0 <= i < rows.len() ==> map[#[trigger] rows[i] as int] == i
    &&& forall|g: int| 0 <= g < n && !occurs(rows, g) ==> #[trigger] map[g] == usize::MAX
}

/// Give the rows their places.
pub fn map_rows(rows: &Vec<usize>, map: &mut Vec<usize>, n: usize)
    requires
        unmapped(old(map)@, n as int),
        distinct(rows@),
        below(rows@, n as int),
    ensures
        mapped(final(map)@, n as int, rows@),
{
    let len: usize = rows.len();
    let mut i: usize = 0;
    while i < len
        invariant
            i <= len,
            len == rows@.len(),
            distinct(rows@),
            below(rows@, n as int),
            mapped(map@, n as int, rows@.take(i as int)),
        decreases len - i,
    {
        let g: usize = rows[i];
        let ghost m0 = map@;
        let ghost h0 = rows@.take(i as int);
        let ghost h1 = rows@.take(i + 1);
        map.set(g, i);
        proof {
            grown(rows@, i as int, i + 1);
            assert forall|k: int| 0 <= k < h1.len() implies map@[#[trigger] h1[k] as int] == k by {
                if k < i {
                    assert(h0[k] == h1[k]);
                    assert(rows@[k] != rows@[i as int]);
                }
            }
            assert forall|q: int| 0 <= q < n && !occurs(h1, q) implies #[trigger] map@[q]
                == usize::MAX by {
                assert(!occurs(h0, q));
                assert(h1[i as int] == g);
            }
        }
        i = i + 1;
    }
    assert(rows@.take(len as int) =~= rows@);
}

/// Take the places away again.
pub fn unmap_rows(rows: &Vec<usize>, map: &mut Vec<usize>, n: usize)
    requires
        mapped(old(map)@, n as int, rows@),
        below(rows@, n as int),
    ensures
        unmapped(final(map)@, n as int),
{
    let len: usize = rows.len();
    let ghost m0 = map@;
    let mut i: usize = 0;
    while i < len
        invariant
            i <= len,
            len == rows@.len(),
            below(rows@, n as int),
            map@.len() == n,
            m0.len() == n,
            forall|g: int|
                0 <= g < n ==> #[trigger] map@[g] == (if occurs(rows@.take(i as int), g) {
                    usize::MAX
                } else {
                    m0[g]
                }),
        decreases len - i,
    {
        proof {
            grown(rows@, i as int, i + 1);
        }
        map.set(rows[i], usize::MAX);
        i = i + 1;
    }
    assert(rows@.take(len as int) =~= rows@);
}

/// An `m` by `m` matrix of zeros.
pub fn zero_front<T: Scalar>(m: usize) -> (f: Option<Vec<T>>)
    ensures
        f is Some <==> m * m <= usize::MAX,
        f matches Some(v) ==> v@ == Seq::new((m * m) as nat, |p: int| T::zero_spec()),
{
    match m.checked_mul(m) {
        Some(size) => {
            let v = crate::matrix_ops::zero_vector(size);
            assert(v@ =~= Seq::new((m * m) as nat, |p: int| T::zero_spec()));
            Some(v)
        },
        None => None,
    }
}

/// Scatter one column of the matrix into the front.
fn scatter_column<T: Scalar>(
    f: &mut Vec<T>,
    rows: &Vec<usize>,
    lj: usize,
    a: &GeneralCsc<T>,
    scaling: &[T],
    map: &Vec<usize>,
)
    requires
        a.wf(),
        is_lower(*a),
        scaling@.len() == a.n,
        lj < rows@.len(),
        distinct(rows@),
        below(rows@, a.n as int),
        mapped(map@, a.n as int, rows@),
        old(f)@.len() == rows@.len() * rows@.len(),
        forall|i: int| 0 <= i < rows@.len() && #[trigger] rows@[i] >= rows@[lj as int] ==> i >= lj,
    ensures
        final(f)@.len() == old(f)@.len(),
        forall|i: int, j: int|
            #![trigger cell(rows@.len() as int, i, j)]
            0 <= j <= i < rows@.len() ==> final(f)@[cell(rows@.len() as int, i, j)] == (if j == lj
                && a.col(rows@[j] as int).contains_key(rows@[i] as int) {
                a.col(rows@[j] as int)[rows@[i] as int].times_spec(
                    scaling@[rows@[i] as int],
                ).times_spec(scaling@[rows@[j] as int])
            } else {
                old(f)@[cell(rows@.len() as int, i, j)]
            }),
        forall|p: int|
            0 <= p < old(f)@.len() && (forall|i: int, j: int|
                #![trigger cell(rows@.len() as int, i, j)]
                0 <= j <= i < rows@.len() ==> p != cell(rows@.len() as int, i, j)) ==> #[trigger] final(f)@[p]
                == old(f)@[p],
{
    let ghost f0 = f@;
    let m: usize = rows.len();
    let ghost mm = m as int;
    let size: usize = f.len();
    let gj: usize = rows[lj];
    assert(rows@[lj as int] < a.n);
    proof {
        column_range(*a, gj as int);
        column_bounds(mm, lj as int, mm);
    }
    let ghost ar = a.rows_of(gj as int);
    let ghost av = a.vals_of(gj as int);
    let ghost col = a.col(gj as int);
    let base: usize = m * lj;
    let sj = scaling[gj];
    let lo: usize = a.col_ptr[gj];
    let hi: usize = a.col_ptr[gj + 1];
    let mut k: usize = lo;
    while k < hi
        invariant
            lo <= k <= hi <= a.row_idx@.len(),
            a.values@.len() == a.row_idx@.len(),
            mm == m,
            m == rows@.len(),
            lj < m,
            gj == rows@[lj as int],
            size == mm * mm,
            f@.len() == size,
            f0.len() == size,
            base == column_start(mm, lj as int),
            base + m <= size,
            scaling@.len() == a.n,
            sj == scaling@[gj as int],
            distinct(rows@),
            mapped(map@, a.n as int, rows@),
            forall|i: int| 0 <= i < m && #[trigger] rows@[i] >= gj ==> i >= lj,
            ar.len() == hi - lo,
            av.len() == hi - lo,
            distinct(ar),
            below(ar, a.n as int),
            forall|q: int| 0 <= q < ar.len() ==> #[trigger] ar[q] == a.row_idx@[lo + q],
            forall|q: int| 0 <= q < ar.len() ==> #[trigger] av[q] == a.values@[lo + q],
            forall|q: int| 0 <= q < ar.len() ==> #[trigger] ar[q] >= gj,
            col == crate::sparse::col_map(ar, av),
            forall|i: int, j: int|
                #![trigger cell(mm, i, j)]
                0 <= j <= i < mm ==> f@[cell(mm, i, j)] == (if j == lj && occurs(
                    ar.take(k - lo),
                    rows@[i] as int,
                ) {
                    col[rows@[i] as int].times_spec(scaling@[rows@[i] as int]).times_spec(sj)
                } else {
                    f0[cell(mm, i, j)]
                }),
            forall|p: int|
                0 <= p < size && (forall|i: int, j: int|
                    #![trigger cell(mm, i, j)]
                    0 <= j <= i < mm ==> p != cell(mm, i, j)) ==> #[trigger] f@[p] == f0[p],
        decreases hi - k,
    {
        let gi: usize = a.row_idx[k];
        let ghost fb = f@;
        let ghost h0 = ar.take(k - lo);
        let ghost h1 = ar.take(k - lo + 1);
        proof {
            assert(ar[k - lo] == gi);
            assert(av[k - lo] == a.values@[k as int]);
            grown(ar, k - lo, k - lo + 1);
            col_map_at(ar, av, k - lo);
        }
        let li: usize = map[gi];
        if li != usize::MAX {
            proof {
                assert(occurs(rows@, gi as int));
                let x = position(rows@, gi as int);
                assert(rows@[x] == gi);
                assert(li == x);
                assert(rows@[li as int] >= gj);
                cell_inside(mm, li as int, lj as int);
            }
            let v = a.values[k].times(scaling[gi]).times(sj);
            f.set(base + li, v);
            proof {
                assert(base + li == cell(mm, li as int, lj as int));
                assert forall|i: int, j: int|
                    #![trigger cell(mm, i, j)]
                    0 <= j <= i < mm implies f@[cell(mm, i, j)] == (if j == lj && occurs(
                    h1,
                    rows@[i] as int,
                ) {
                    col[rows@[i] as int].times_spec(scaling@[rows@[i] as int]).times_spec(sj)
                } else {
                    f0[cell(mm, i, j)]
                }) by {
                    cell_inside(mm, i, j);
                    if cell(mm, i, j) == base + li {
                        cell_unique(mm, i, j, li as int, lj as int);
                    } else {
                        assert(f@[cell(mm, i, j)] == fb[cell(mm, i, j)]);
                        if j == lj && rows@[i] == gi {
                            if i < li {
                                assert(rows@[i] != rows@[li as int]);
                            } else if i > li {
                                assert(rows@[li as int] != rows@[i]);
                            }
                        }
                    }
                }
                assert forall|p: int|
                    0 <= p < size && (forall|i: int, j: int|
                        #![trigger cell(mm, i, j)]
                        0 <= j <= i < mm ==> p != cell(mm, i, j)) implies #[trigger] f@[p] == f0[p] by {
                    assert(p != cell(mm, li as int, lj as int));
                    assert(f@[p] == fb[p]);
                }
            }
        } else {
            proof {
                assert forall|i: int, j: int|
                    #![trigger cell(mm, i, j)]
                    0 <= j <= i < mm implies f@[cell(mm, i, j)] == (if j == lj && occurs(
                    h1,
                    rows@[i] as int,
                ) {
                    col[rows@[i] as int].times_spec(scaling@[rows@[i] as int]).times_spec(sj)
                } else {
                    f0[cell(mm, i, j)]
                }) by {
                    if rows@[i] == gi {
                        assert(map@[rows@[i] as int] == i);
                    }
                }
            }
        }
        k = k + 1;
    }
    assert(ar.take(hi - lo) =~= ar);
}

/// Fill the front with the scaled entries of the own columns.
pub fn scatter_columns<T: Scalar>(
    rows: &Vec<usize>,
    own_lo: usize,
    own_hi: usize,
    a: &GeneralCsc<T>,
    scaling: &[T],
    map: &Vec<usize>,
) -> (r: Option<Vec<T>>)
    requires
        a.wf(),
        is_lower(*a),
        scaling@.len() == a.n,
        own_lo <= own_hi <= rows@.len(),
        distinct(rows@),
        below(rows@, a.n as int),
        mapped(map@, a.n as int, rows@),
        forall|i: int, j: int|
            own_lo <= j < own_hi && 0 <= i < rows@.len() && #[trigger] rows@[i]
                >= #[trigger] rows@[j] ==> i >= j,
    ensures
        r is Some <==> rows@.len() * rows@.len() <= usize::MAX,
        r matches Some(f) ==> f@ == base_front(
            *a,
            scaling@,
            rows@,
            own_lo as int,
            own_hi as int,
        ),
{
    let m: usize = rows.len();
    let ghost mm = m as int;
    let mut f: Vec<T> = match zero_front(m) {
        Some(v) => v,
        None => {
            return None;
        },
    };
    let ghost z = f@;
    proof {
        assert forall|i2: int, j2: int|
            #![trigger cell(mm, i2, j2)]
            0 <= j2 <= i2 < mm implies z[cell(mm, i2, j2)] == T::zero_spec() by {
            cell_inside(mm, i2, j2);
        }
    }
    let mut j: usize = own_lo;
    while j < own_hi
        invariant
            own_lo <= j <= own_hi <= m,
            m == rows@.len(),
            mm == m,
            a.wf(),
            is_lower(*a),
            scaling@.len() == a.n,
            distinct(rows@),
            below(rows@, a.n as int),
            mapped(map@, a.n as int, rows@),
            forall|i: int, j: int|
                own_lo <= j < own_hi && 0 <= i < rows@.len() && #[trigger] rows@[i]
                    >= #[trigger] rows@[j] ==> i >= j,
            f@.len() == mm * mm,
            z.len() == mm * mm,
            forall|p: int| 0 <= p < z.len() ==> #[trigger] z[p] == T::zero_spec(),
            forall|i2: int, j2: int|
                #![trigger cell(mm, i2, j2)]
                0 <= j2 <= i2 < mm ==> f@[cell(mm, i2, j2)] == base_at(
                    *a,
                    scaling@,
                    rows@,
                    own_lo as int,
                    j as int,
                    i2,
                    j2,
                ),
            forall|p: int|
                0 <= p < z.len() && (forall|i2: int, j2: int|
                    #![trigger cell(mm, i2, j2)]
                    0 <= j2 <= i2 < mm ==> p != cell(mm, i2, j2)) ==> #[trigger] f@[p]
                    == T::zero_spec(),
        decreases own_hi - j,
    {
        let ghost fb = f@;
        scatter_column(&mut f, rows, j, a, scaling, map);
        proof {
            assert forall|i2: int, j2: int|
                #![trigger cell(mm, i2, j2)]
                0 <= j2 <= i2 < mm implies f@[cell(mm, i2, j2)] == base_at(
                *a,
                scaling@,
                rows@,
                own_lo as int,
                j + 1,
                i2,
                j2,
            ) by {
                assert(fb[cell(mm, i2, j2)] == base_at(
                    *a,
                    scaling@,
                    rows@,
                    own_lo as int,
                    j as int,
                    i2,
                    j2,
                ));
            }
            assert forall|p: int|
                0 <= p < z.len() && (forall|i2: int, j2: int|
                    #![trigger cell(mm, i2, j2)]
                    0 <= j2 <= i2 < mm ==> p != cell(mm, i2, j2)) implies #[trigger] f@[p]
                == T::zero_spec() by {
                assert(fb[p] == T::zero_spec());
            }
        }
        j = j + 1;
    }
    proof {
        front_from_cells(
            f@,
            mm,
            |i: int, j: int|
                base_at(*a, scaling@, rows@, own_lo as int, own_hi as int, i, j),
        );
    }
    Some(f)
}

/// The lower triangle with these entries, zeros above.
pub open spec fn lower_matrix<T: Scalar>(m: int, at: spec_fn(int, int) -> T) -> Seq<T> {
    Seq::new(
        (m * m) as nat,
        |p: int|
            if p % m >= p / m {
                at(p % m, p / m)
            } else {
                T::zero_spec()
            },
    )
}

/// The front before any contribution.
pub open spec fn base_front<T: Scalar>(
    a: GeneralCsc<T>,
    scaling: Seq<T>,
    rows: Seq<usize>,
    own_lo: int,
    own_hi: int,
) -> Seq<T> {
    lower_matrix(
        rows.len() as int,
        |i: int, j: int| base_at(a, scaling, rows, own_lo, own_hi, i, j),
    )
}

/// A matrix is known from its lower cells and the zeros elsewhere.
pub proof fn front_from_cells<T: Scalar>(f: Seq<T>, m: int, at: spec_fn(int, int) -> T)
    requires
        0 <= m,
        f.len() == m * m,
        forall|i: int, j: int|
            #![trigger cell(m, i, j)]
            0 <= j <= i < m ==> f[cell(m, i, j)] == at(i, j),
        forall|p: int|
            0 <= p < f.len() && (forall|i: int, j: int|
                #![trigger cell(m, i, j)]
                0 <= j <= i < m ==> p != cell(m, i, j)) ==> #[trigger] f[p] == T::zero_spec(),
    ensures
        f == lower_matrix(m, at),
{
    let g = lower_matrix(m, at);
    assert forall|p: int| 0 <= p < f.len() implies f[p] == g[p] by {
        crate::flat::position_joins(m, m, p);
        let i = p % m;
        let j = p / m;
        if i >= j {
            assert(cell(m, i, j) == p);
        } else {
            assert forall|i2: int, j2: int|
                #![trigger cell(m, i2, j2)]
                0 <= j2 <= i2 < m implies p != cell(m, i2, j2) by {
                crate::flat::position_splits(m, i2, j2);
            }
        }
    }
    assert(f =~= g);
}

/// The lower cells and the zeros of a matrix.
pub proof fn cells_from_front<T: Scalar>(m: int, at: spec_fn(int, int) -> T)
    requires
        0 <= m,
    ensures
        lower_matrix(m, at).len() == m * m,
        forall|i: int, j: int|
            #![trigger cell(m, i, j)]
            0 <= j <= i < m ==> lower_matrix(m, at)[cell(m, i, j)] == at(i, j),
        forall|p: int|
            0 <= p < m * m && (forall|i: int, j: int|
                #![trigger cell(m, i, j)]
                0 <= j <= i < m ==> p != cell(m, i, j)) ==> #[trigger] lower_matrix(m, at)[p]
                == T::zero_spec(),
{
    let g = lower_matrix(m, at);
    assert(0 <= m * m) by (nonlinear_arith)
        requires
            0 <= m,
    ;
    assert forall|i: int, j: int|
        #![trigger cell(m, i, j)]
        0 <= j <= i < m implies g[cell(m, i, j)] == at(i, j) by {
        cell_inside(m, i, j);
        crate::flat::position_splits(m, i, j);
    }
    assert forall|p: int|
        0 <= p < m * m && (forall|i: int, j: int|
            #![trigger cell(m, i, j)]
            0 <= j <= i < m ==> p != cell(m, i, j)) implies #[trigger] g[p] == T::zero_spec() by {
        crate::flat::position_joins(m, m, p);
        if p % m >= p / m {
            assert(cell(m, p % m, p / m) == p);
        }
    }
}

/// The pair `(p, q)` was visited before column `cj`, row `ci`.
spec fn visited(p: int, q: int, ci: int, cj: int) -> bool {
    q < cj || (q == cj && p < ci)
}

/// Entry of the front while a contribution is being added.
spec fn partly_added<T: Scalar>(
    v: T,
    b: ContribBlock<T>,
    rows: Seq<usize>,
    i: int,
    j: int,
    ci: int,
    cj: int,
) -> T {
    let p = position(b.row_indices@, rows[i] as int);
    let q = position(b.row_indices@, rows[j] as int);
    let hi = if p >= q {
        p
    } else {
        q
    };
    let lo = if p >= q {
        q
    } else {
        p
    };
    if visited(hi, lo, ci, cj) {
        added(v, b, rows, i, j)
    } else {
        v
    }
}

/// One entry of a contribution reaches one cell of the front.
proof fn one_cell<T: Scalar>(
    v: T,
    b: ContribBlock<T>,
    rows: Seq<usize>,
    i: int,
    j: int,
    ci: int,
    cj: int,
)
    requires
        b.row_indices@.len() == b.dim,
        distinct(b.row_indices@),
        distinct(rows),
        0 <= i < rows.len(),
        0 <= j < rows.len(),
        0 <= cj <= ci < b.dim,
    ensures
        ({
            let r = b.row_indices@;
            let hit = (rows[i] == r[ci] && rows[j] == r[cj]) || (rows[i] == r[cj] && rows[j]
                == r[ci]);
            let x = b.data@[cell(b.dim as int, ci, cj)];
            &&& !hit ==> partly_added(v, b, rows, i, j, ci + 1, cj) == partly_added(
                v,
                b,
                rows,
                i,
                j,
                ci,
                cj,
            )
            &&& hit ==> partly_added(v, b, rows, i, j, ci, cj) == v
            &&& hit ==> partly_added(v, b, rows, i, j, ci + 1, cj) == (if x.is_zero_spec() {
                v
            } else {
                v.plus_spec(x)
            })
        }),
{
    let r = b.row_indices@;
    assert(occurs(r, r[ci] as int));
    assert(occurs(r, r[cj] as int));
    place_is(r, ci);
    place_is(r, cj);
    if occurs(r, rows[i] as int) && occurs(r, rows[j] as int) {
        let p = position(r, rows[i] as int);
        let q = position(r, rows[j] as int);
        assert(r[p] == rows[i] && r[q] == rows[j]);
    }
}

/// A member of a list without repetition stands where it stands.
pub proof fn place_is(r: Seq<usize>, k: int)
    requires
        distinct(r),
        0 <= k < r.len(),
    ensures
        occurs(r, r[k] as int),
        position(r, r[k] as int) == k,
{
    assert(occurs(r, r[k] as int));
    let p = position(r, r[k] as int);
    assert(0 <= p < r.len() && r[p] == r[k]);
    if p < k {
        assert(r[p] != r[k]);
    } else if k < p {
        assert(r[k] != r[p]);
    }
}

/// Add the contribution of a child to the front.
pub fn extend_add<T: Scalar>(
    b: &ContribBlock<T>,
    map: &Vec<usize>,
    rows: &Vec<usize>,
    f: &mut Vec<T>,
)
    requires
        b.row_indices@.len() == b.dim,
        b.data@.len() == b.dim * b.dim,
        distinct(b.row_indices@),
        below(b.row_indices@, map@.len() as int),
        distinct(rows@),
        below(rows@, map@.len() as int),
        mapped(map@, map@.len() as int, rows@),
        old(f)@.len() == rows@.len() * rows@.len(),
    ensures
        final(f)@.len() == old(f)@.len(),
        forall|i: int, j: int|
            #![trigger cell(rows@.len() as int, i, j)]
            0 <= j <= i < rows@.len() ==> final(f)@[cell(rows@.len() as int, i, j)] == added(
                old(f)@[cell(rows@.len() as int, i, j)],
                *b,
                rows@,
                i,
                j,
            ),
        forall|p: int|
            0 <= p < old(f)@.len() && (forall|i: int, j: int|
                #![trigger cell(rows@.len() as int, i, j)]
                0 <= j <= i < rows@.len() ==> p != cell(rows@.len() as int, i, j)) ==> #[trigger] final(f)@[p]
                == old(f)@[p],
{
    let ghost f0 = f@;
    let ghost br = b.row_indices@;
    let m: usize = rows.len();
    let ghost mm = m as int;
    let dim: usize = b.dim;
    let size: usize = f.len();
    let bsize: usize = b.data.len();
    let mut cj: usize = 0;
    while cj < dim
        invariant
            cj <= dim,
            dim == b.dim,
            br == b.row_indices@,
            br.len() == dim,
            bsize == b.data@.len(),
            bsize == dim * dim,
            distinct(br),
            below(br, map@.len() as int),
            distinct(rows@),
            below(rows@, map@.len() as int),
            mapped(map@, map@.len() as int, rows@),
            mm == m,
            m == rows@.len(),
            size == mm * mm,
            f@.len() == size,
            f0.len() == size,
            forall|i: int, j: int|
                #![trigger cell(mm, i, j)]
                0 <= j <= i < mm ==> f@[cell(mm, i, j)] == partly_added(
                    f0[cell(mm, i, j)],
                    *b,
                    rows@,
                    i,
                    j,
                    cj as int,
                    cj as int,
                ),
            forall|p: int|
                0 <= p < size && (forall|i: int, j: int|
                    #![trigger cell(mm, i, j)]
                    0 <= j <= i < mm ==> p != cell(mm, i, j)) ==> #[trigger] f@[p] == f0[p],
        decreases dim - cj,
    {
        proof {
            column_bounds(dim as int, cj as int, dim as int);
            assert(br[cj as int] < map@.len());
        }
        let base: usize = dim * cj;
        let pj: usize = map[b.row_indices[cj]];
        let mut ci: usize = cj;
        while ci < dim
            invariant
                cj <= ci <= dim,
                cj < dim,
                dim == b.dim,
                br == b.row_indices@,
                br.len() == dim,
                bsize == b.data@.len(),
                base == column_start(dim as int, cj as int),
                base + dim <= bsize,
                pj == map@[br[cj as int] as int],
                distinct(br),
                below(br, map@.len() as int),
                distinct(rows@),
                below(rows@, map@.len() as int),
                mapped(map@, map@.len() as int, rows@),
                mm == m,
                m == rows@.len(),
                size == mm * mm,
                f@.len() == size,
                f0.len() == size,
                forall|i: int, j: int|
                    #![trigger cell(mm, i, j)]
                    0 <= j <= i < mm ==> f@[cell(mm, i, j)] == partly_added(
                        f0[cell(mm, i, j)],
                        *b,
                        rows@,
                        i,
                        j,
                        ci as int,
                        cj as int,
                    ),
                forall|p: int|
                    0 <= p < size && (forall|i: int, j: int|
                        #![trigger cell(mm, i, j)]
                        0 <= j <= i < mm ==> p != cell(mm, i, j)) ==> #[trigger] f@[p] == f0[p],
            decreases dim - ci,
        {
            let ghost fb = f@;
            assert(br[ci as int] < map@.len());
            let pi: usize = map[b.row_indices[ci]];
            let x = b.data[base + ci];
            assert(cell(dim as int, ci as int, cj as int) == base + ci);
            if pj != usize::MAX && pi != usize::MAX && !x.is_zero() {
                proof {
                    place_of(map@, rows@, br[ci as int] as int);
                    place_of(map@, rows@, br[cj as int] as int);
                    cell_inside(mm, pi as int, pj as int);
                    column_bounds(mm, pi as int, mm);
                    column_bounds(mm, pj as int, mm);
                }
                let at: usize = if pi >= pj {
                    m * pj + pi
                } else {
                    m * pi + pj
                };
                let v = f[at].plus(x);
                f.set(at, v);
                proof {
                    let hi = if pi >= pj {
                        pi as int
                    } else {
                        pj as int
                    };
                    let lo = if pi >= pj {
                        pj as int
                    } else {
                        pi as int
                    };
                    assert(at == cell(mm, hi, lo));
                    assert forall|i: int, j: int|
                        #![trigger cell(mm, i, j)]
                        0 <= j <= i < mm implies f@[cell(mm, i, j)] == partly_added(
                        f0[cell(mm, i, j)],
                        *b,
                        rows@,
                        i,
                        j,
                        ci + 1,
                        cj as int,
                    ) by {
                        cell_inside(mm, i, j);
                        one_cell(
                            f0[cell(mm, i, j)],
                            *b,
                            rows@,
                            i,
                            j,
                            ci as int,
                            cj as int,
                        );
                        if cell(mm, i, j) == at {
                            cell_unique(mm, i, j, hi, lo);
                        } else {
                            assert(f@[cell(mm, i, j)] == fb[cell(mm, i, j)]);
                            if rows@[i] == br[ci as int] {
                                place_of(map@, rows@, br[ci as int] as int);
                                same_place(rows@, i, pi as int);
                            }
                            if rows@[j] == br[cj as int] {
                                same_place(rows@, j, pj as int);
                            }
                            if rows@[i] == br[cj as int] {
                                same_place(rows@, i, pj as int);
                            }
                            if rows@[j] == br[ci as int] {
                                same_place(rows@, j, pi as int);
                            }
                        }
                    }
                    assert forall|p: int|
                        0 <= p < size && (forall|i: int, j: int|
                            #![trigger cell(mm, i, j)]
                            0 <= j <= i < mm ==> p != cell(mm, i, j)) implies #[trigger] f@[p] == f0[p] by {
                        assert(p != cell(mm, hi, lo));
                        assert(f@[p] == fb[p]);
                    }
                }
            } else {
                proof {
                    assert forall|i: int, j: int|
                        #![trigger cell(mm, i, j)]
                        0 <= j <= i < mm implies f@[cell(mm, i, j)] == partly_added(
                        f0[cell(mm, i, j)],
                        *b,
                        rows@,
                        i,
                        j,
                        ci + 1,
                        cj as int,
                    ) by {
                        one_cell(
                            f0[cell(mm, i, j)],
                            *b,
                            rows@,
                            i,
                            j,
                            ci as int,
                            cj as int,
                        );
                        assert(map@[rows@[i] as int] == i);
                        assert(map@[rows@[j] as int] == j);
                    }
                }
            }
            ci = ci + 1;
        }
        proof {
            assert forall|i: int, j: int|
                #![trigger cell(mm, i, j)]
                0 <= j <= i < mm implies f@[cell(mm, i, j)] == partly_added(
                f0[cell(mm, i, j)],
                *b,
                rows@,
                i,
                j,
                cj + 1,
                cj + 1,
            ) by {
                next_column(f0[cell(mm, i, j)], *b, rows@, i, j, cj as int);
            }
        }
        cj = cj + 1;
    }
    proof {
        assert forall|i: int, j: int|
            #![trigger cell(mm, i, j)]
            0 <= j <= i < mm implies f@[cell(mm, i, j)] == added(
            f0[cell(mm, i, j)],
            *b,
            rows@,
            i,
            j,
        ) by {
            if occurs(br, rows@[i] as int) && occurs(br, rows@[j] as int) {
                let p = position(br, rows@[i] as int);
                let q = position(br, rows@[j] as int);
                assert(0 <= p < dim && 0 <= q < dim);
            }
        }
    }
}

/// A row with a place is in the front.
proof fn place_of(map: Seq<usize>, rows: Seq<usize>, g: int)
    requires
        mapped(map, map.len() as int, rows),
        distinct(rows),
        0 <= g < map.len(),
        map[g] != usize::MAX,
    ensures
        0 <= map[g] < rows.len(),
        rows[map[g] as int] == g,
{
    assert(occurs(rows, g));
    let x = position(rows, g);
    assert(rows[x] == g);
    assert(map[rows[x] as int] == x);
}

proof fn same_place(rows: Seq<usize>, i: int, k: int)
    requires
        distinct(rows),
        0 <= i < rows.len(),
        0 <= k < rows.len(),
        rows[i] == rows[k],
    ensures
        i == k,
{
    if i < k {
        assert(rows[i] != rows[k]);
    } else if k < i {
        assert(rows[k] != rows[i]);
    }
}

/// After its last row a column is done.
proof fn next_column<T: Scalar>(v: T, b: ContribBlock<T>, rows: Seq<usize>, i: int, j: int, cj: int)
    requires
        b.row_indices@.len() == b.dim,
    ensures
        partly_added(v, b, rows, i, j, b.dim as int, cj) == partly_added(
            v,
            b,
            rows,
            i,
            j,
            cj + 1,
            cj + 1,
        ),
{
    let r = b.row_indices@;
    let p = position(r, rows[i] as int);
    let q = position(r, rows[j] as int);
    if occurs(r, rows[i] as int) && occurs(r, rows[j] as int) {
        assert(0 <= p < r.len());
        assert(0 <= q < r.len());
    }
}

} // verus!
