//! Numeric-only refactorization of a block on its frozen pattern.

use crate::klu::block::{apply_column, columns_wf, BlockLu};
use crate::klu::model::{column_ok, covers, elim, elim_confined, elim_frame, fill_ok};
use crate::scalar::{Real, Scalar};
use crate::seqs::{below, distinct, occurs};
use crate::sparse::{col_map, col_map_at, dense, position, SparseColumn};
use vstd::prelude::*;

verus! {

/// A value that the frozen pivot order accepts as a pivot.
pub open spec fn usable<T: Scalar>(d: T) -> bool {
    !d.magnitude_spec().is_zero_spec() && d.is_finite_spec()
}

/// Is the value usable as a pivot?
pub fn is_usable<T: Scalar>(d: T) -> (b: bool)
    ensures
        b == usable(d),
{
    !d.magnitude().is_zero() && d.is_finite()
}

/// The two factorizations have the same pivots and pattern.
pub open spec fn same_pattern<T>(a: BlockLu<T>, b: BlockLu<T>) -> bool {
    &&& a.piv@ == b.piv@
    &&& a.fin@ == b.fin@
    &&& a.l_rows@ == b.l_rows@
    &&& a.u_rows@ == b.u_rows@
}

/// The values of one column of the factors.
#[derive(Debug, Clone)]
pub struct ColumnValues<T> {
    /// The strictly upper entries, in elimination order.
    pub u_vals: Vec<T>,
    /// The strictly lower entries.
    pub l_vals: Vec<T>,
    /// The pivot.
    pub d: T,
}

/// `lower` has a value for every entry of the columns of `L` that `order` names.
pub open spec fn lower_fits<T>(
    lr: Seq<Vec<usize>>,
    order: Seq<usize>,
    lower: Seq<&Vec<T>>,
) -> bool {
    &&& lower.len() == order.len()
    &&& forall|t: int|
        0 <= t < order.len() ==> (#[trigger] lower[t])@.len() == lr[order[t] as int]@.len()
}

/// `lower` holds the columns of `L` that `order` names, as they are in `lm`.
pub open spec fn hands<T>(
    lr: Seq<Vec<usize>>,
    order: Seq<usize>,
    lower: Seq<&Vec<T>>,
    lm: Seq<Map<int, T>>,
) -> bool {
    &&& lm.len() == lr.len()
    &&& lower_fits(lr, order, lower)
    &&& forall|t: int|
        0 <= t < order.len() ==> lm[order[t] as int] == col_map(
            lr[order[t] as int]@,
            (#[trigger] lower[t])@,
        )
}

/// The work vector of column `k` after the columns before it are subtracted.
pub open spec fn worked<T: Scalar>(
    m: int,
    k: int,
    lu: BlockLu<T>,
    col: SparseColumn<T>,
    lm: Seq<Map<int, T>>,
) -> Seq<T> {
    elim(dense(m, col@), lu.piv@, lm, lu.u_rows@[k]@, lu.u_rows@[k]@.len() as int)
}

/// Column `k` has these values, given the columns of `L` before it.
pub open spec fn column_made<T: Scalar>(
    m: int,
    k: int,
    lu: BlockLu<T>,
    col: SparseColumn<T>,
    lm: Seq<Map<int, T>>,
    v: ColumnValues<T>,
) -> bool {
    &&& v.l_vals@.len() == lu.l_rows@[k]@.len()
    &&& usable(v.d)
    &&& column_ok(
        m,
        k,
        col@,
        lu.piv@,
        lm.update(k, col_map(lu.l_rows@[k]@, v.l_vals@)),
        lu.u_rows@[k]@,
        v.u_vals@,
        v.d,
    )
}

/// The elimination reads only the columns named in `order`.
pub proof fn elim_reads<T: Scalar>(
    w: Seq<T>,
    piv: Seq<usize>,
    lm1: Seq<Map<int, T>>,
    lm2: Seq<Map<int, T>>,
    order: Seq<usize>,
    t: int,
)
    requires
        t <= order.len(),
        forall|q: int|
            0 <= q < order.len() ==> lm1[#[trigger] order[q] as int] == lm2[order[q] as int],
    ensures
        elim(w, piv, lm1, order, t) == elim(w, piv, lm2, order, t),
    decreases t,
{
    if t > 0 {
        elim_reads(w, piv, lm1, lm2, order, t - 1);
        assert(lm1[order[t - 1] as int] == lm2[order[t - 1] as int]);
    }
}

/// The values of a column depend only on the columns of `L` that it names.
pub proof fn column_reads<T: Scalar>(
    m: int,
    k: int,
    lu: BlockLu<T>,
    col: SparseColumn<T>,
    lm1: Seq<Map<int, T>>,
    lm2: Seq<Map<int, T>>,
    v: ColumnValues<T>,
)
    requires
        0 <= k < lm1.len(),
        lm1.len() == lm2.len(),
        below(lu.u_rows@[k]@, k),
        forall|q: int|
            0 <= q < lu.u_rows@[k]@.len() ==> lm1[#[trigger] lu.u_rows@[k]@[q] as int]
                == lm2[lu.u_rows@[k]@[q] as int],
    ensures
        worked(m, k, lu, col, lm1) == worked(m, k, lu, col, lm2),
        column_made(m, k, lu, col, lm1, v) ==> column_made(m, k, lu, col, lm2, v),
{
    let order = lu.u_rows@[k]@;
    let w0 = dense(m, col@);
    elim_reads(w0, lu.piv@, lm1, lm2, order, order.len() as int);
    if column_made(m, k, lu, col, lm1, v) {
        let own = col_map(lu.l_rows@[k]@, v.l_vals@);
        let u1 = lm1.update(k, own);
        let u2 = lm2.update(k, own);
        assert forall|q: int| 0 <= q < order.len() implies u1[#[trigger] order[q] as int]
            == u2[order[q] as int] by {
            assert(order[q] < k);
        }
        elim_reads(w0, lu.piv@, u1, u2, order, order.len() as int);
        assert(column_ok(m, k, col@, lu.piv@, u1, order, v.u_vals@, v.d));
        assert(u1[k] == u2[k]);
        assert forall|t: int| 0 <= t < order.len() implies #[trigger] v.u_vals@[t] == elim(
            w0,
            lu.piv@,
            u2,
            order,
            t,
        )[lu.piv@[order[t] as int] as int] by {
            elim_reads(w0, lu.piv@, u1, u2, order, t);
        }
    }
}

/// Subtract the columns of `order` from `x`; the values met on the way.
fn replay_column<T: Scalar>(
    m: usize,
    k: usize,
    order: &Vec<usize>,
    piv: &Vec<usize>,
    l_rows: &Vec<Vec<usize>>,
    lower: &Vec<&Vec<T>>,
    Ghost(lm): Ghost<Seq<Map<int, T>>>,
    x: &mut Vec<T>,
) -> (uv: Vec<T>)
    requires
        k <= l_rows@.len(),
        k <= piv@.len(),
        below(order@, k as int),
        hands(l_rows@, order@, lower@, lm),
        forall|p: int| 0 <= p < l_rows@.len() ==> distinct(#[trigger] l_rows@[p]@),
        forall|p: int| 0 <= p < l_rows@.len() ==> below(#[trigger] l_rows@[p]@, m as int),
        forall|p: int| 0 <= p < piv@.len() ==> #[trigger] piv@[p] < m,
        old(x)@.len() == m,
    ensures
        uv@.len() == order@.len(),
        forall|t: int|
            0 <= t < order@.len() ==> #[trigger] uv@[t] == elim(old(x)@, piv@, lm, order@, t)[piv@[order@[t] as int] as int],
        final(x)@ == elim(old(x)@, piv@, lm, order@, order@.len() as int),
        final(x)@.len() == m,
{
    let ghost w0 = x@;
    let mut uv: Vec<T> = Vec::new();
    let mut t: usize = 0;
    while t < order.len()
        invariant
            t <= order@.len(),
            k <= l_rows@.len(),
            k <= piv@.len(),
            below(order@, k as int),
            hands(l_rows@, order@, lower@, lm),
            forall|p: int| 0 <= p < l_rows@.len() ==> distinct(#[trigger] l_rows@[p]@),
            forall|p: int| 0 <= p < l_rows@.len() ==> below(#[trigger] l_rows@[p]@, m as int),
            forall|p: int| 0 <= p < piv@.len() ==> #[trigger] piv@[p] < m,
            x@.len() == m,
            uv@.len() == t,
            forall|t2: int|
                0 <= t2 < t ==> #[trigger] uv@[t2] == elim(w0, piv@, lm, order@, t2)[piv@[order@[t2] as int] as int],
            x@ == elim(w0, piv@, lm, order@, t as int),
        decreases order@.len() - t,
    {
        let p: usize = order[t];
        assert(order@[t as int] < k);
        let u: usize = piv[p];
        assert(piv@[p as int] < m);
        let xu = x[u];
        x.set(u, T::zero());
        uv.push(xu);
        let nxu = T::zero().minus(xu);
        proof {
            assert(distinct(l_rows@[p as int]@));
            assert(below(l_rows@[p as int]@, m as int));
            assert(lower@[t as int]@.len() == l_rows@[p as int]@.len());
        }
        apply_column(x, nxu, &l_rows[p], lower[t]);
        t = t + 1;
    }
    uv
}

/// The rest of the column divided by the pivot; the work vector is cleared in
/// the rows of the column.
fn divide_column<T: Scalar>(x: &mut Vec<T>, rows: &Vec<usize>, d: T) -> (vals: Vec<T>)
    requires
        below(rows@, old(x)@.len() as int),
        distinct(rows@),
    ensures
        vals@.len() == rows@.len(),
        forall|q: int|
            0 <= q < rows@.len() ==> #[trigger] vals@[q] == old(x)@[rows@[q] as int].over_spec(d),
        final(x)@.len() == old(x)@.len(),
        forall|r: int|
            0 <= r < old(x)@.len() ==> #[trigger] final(x)@[r] == (if occurs(rows@, r) {
                T::zero_spec()
            } else {
                old(x)@[r]
            }),
{
    let ghost w = x@;
    let mut vals: Vec<T> = Vec::new();
    let mut q: usize = 0;
    while q < rows.len()
        invariant
            q <= rows@.len(),
            below(rows@, w.len() as int),
            distinct(rows@),
            x@.len() == w.len(),
            vals@.len() == q,
            forall|j: int|
                0 <= j < q ==> #[trigger] vals@[j] == w[rows@[j] as int].over_spec(d),
            forall|r: int|
                0 <= r < w.len() ==> #[trigger] x@[r] == (if occurs(rows@.take(q as int), r) {
                    T::zero_spec()
                } else {
                    w[r]
                }),
        decreases rows@.len() - q,
    {
        let r: usize = rows[q];
        let ghost x0 = x@;
        let ghost h1 = rows@.take(q as int);
        let ghost h2 = rows@.take(q + 1);
        proof {
            if occurs(h1, r as int) {
                let q2 = position(h1, r as int);
                assert(rows@[q2] != rows@[q as int]);
            }
        }
        vals.push(x[r].over(d));
        x.set(r, T::zero());
        q = q + 1;
        proof {
            assert forall|r2: int| 0 <= r2 < w.len() implies #[trigger] x@[r2] == (if occurs(h2, r2) {
                T::zero_spec()
            } else {
                w[r2]
            }) by {
                if r2 == r {
                    assert(h2[q - 1] == r);
                } else {
                    assert(x@[r2] == x0[r2]);
                    if occurs(h1, r2) {
                        assert(h2[position(h1, r2)] == r2);
                    }
                    if occurs(h2, r2) {
                        assert(h1[position(h2, r2)] == r2);
                    }
                }
            }
        }
    }
    assert(rows@.take(rows@.len() as int) =~= rows@);
    vals
}

/// Replay column `k` on new values, with the stored pattern and pivot order;
/// `lower` holds the new columns of `L` that the column depends on. Nothing comes
/// back if the pivot is not usable. The work vector `x` is all zero before and
/// after a column that has values.
pub fn replay_one<T: Scalar>(
    m: usize,
    k: usize,
    lu: &BlockLu<T>,
    cols: &Vec<SparseColumn<T>>,
    lower: &Vec<&Vec<T>>,
    x: &mut Vec<T>,
) -> (r: Option<ColumnValues<T>>)
    requires
        k < m,
        columns_wf(m as int, cols@),
        lu.structured(m as int, m as int, cols@),
        lower_fits(lu.l_rows@, lu.u_rows@[k as int]@, lower@),
        old(x)@ == blank::<T>(m as int),
    ensures
        final(x)@.len() == m,
        r is Some ==> final(x)@ == blank::<T>(m as int),
        forall|lm: Seq<Map<int, T>>| #[trigger]
            hands(lu.l_rows@, lu.u_rows@[k as int]@, lower@, lm) ==> match r {
                Some(v) => column_made(m as int, k as int, *lu, cols@[k as int], lm, v),
                None => !usable(
                    worked(m as int, k as int, *lu, cols@[k as int], lm)[lu.piv@[k as int] as int],
                ),
            },
{
    let ghost order = lu.u_rows@[k as int]@;
    let ghost lm0 = Seq::new(
        m as nat,
        |p: int|
            if occurs(order, p) {
                col_map(lu.l_rows@[p]@, lower@[position(order, p)]@)
            } else {
                col_map(lu.l_rows@[p]@, lu.l_vals@[p]@)
            },
    );
    proof {
        assert(cols@[k as int].wf(m as int));
        assert(below(lu.u_rows@[k as int]@, k as int));
        assert forall|p: int| 0 <= p < m implies distinct(#[trigger] lu.l_rows@[p]@) && below(
            lu.l_rows@[p]@,
            m as int,
        ) by {
            assert forall|q: int| 0 <= q < lu.l_rows@[p]@.len() implies #[trigger] lu.l_rows@[p]@[q] < m by {
                assert(occurs(lu.l_rows@[p]@, lu.l_rows@[p]@[q] as int));
            }
        }
        assert(lu.piv@[k as int] < m);
        assert(distinct(lu.u_rows@[k as int]@));
        assert forall|t: int| 0 <= t < order.len() implies lm0[order[t] as int] == col_map(
            lu.l_rows@[order[t] as int]@,
            (#[trigger] lower@[t])@,
        ) by {
            assert(order[t] < k);
            assert(occurs(order, order[t] as int));
            let q = position(order, order[t] as int);
            assert(order[q] == order[t]);
            assert(q == t);
        }
        assert(hands(lu.l_rows@, order, lower@, lm0));
    }
    crate::klu::block::scatter(x, &cols[k]);
    let ghost w0 = x@;
    let uv = replay_column(m, k, &lu.u_rows[k], &lu.piv, &lu.l_rows, lower, Ghost(lm0), x);
    let ghost w = x@;
    let v: usize = lu.piv[k];
    let dval = x[v];
    proof {
        assert forall|lm: Seq<Map<int, T>>| #[trigger] hands(lu.l_rows@, order, lower@, lm) implies worked(
            m as int,
            k as int,
            *lu,
            cols@[k as int],
            lm,
        ) == w by {
            hands_alike(lu.l_rows@, order, lower@, lm0, lm);
            elim_reads(w0, lu.piv@, lm0, lm, order, order.len() as int);
        }
    }
    if !is_usable(dval) {
        return None;
    }
    x.set(v, T::zero());
    proof {
        assert(distinct(lu.l_rows@[k as int]@));
        assert(below(lu.l_rows@[k as int]@, m as int));
        assert forall|q: int| 0 <= q < lu.l_rows@[k as int]@.len() implies #[trigger] lu.l_rows@[k as int]@[q]
            != v by {
            assert(occurs(lu.l_rows@[k as int]@, lu.l_rows@[k as int]@[q] as int));
            assert(lu.fin@[lu.piv@[k as int] as int] == k);
        }
    }
    let lv = divide_column(x, &lu.l_rows[k], dval);
    let made = ColumnValues { u_vals: uv, l_vals: lv, d: dval };
    proof {
        let fin = lu.fin@;
        let lr = lu.l_rows@;
        let own = col_map(lr[k as int]@, lv@);
        let lm = lm0.update(k as int, own);
        assert forall|q: int| 0 <= q < order.len() implies lm0[#[trigger] order[q] as int]
            == lm[order[q] as int] by {
            assert(order[q] < k);
        }
        elim_reads(w0, lu.piv@, lm0, lm, order, order.len() as int);
        assert(fill_ok(k as int, fin, lr, lu.u_rows@[k as int]@));
        assert(covers(k as int, fin, lr, lu.u_rows@[k as int]@, cols@[k as int].rows@));
        // Nothing is left outside the stored rows.
        assert forall|r: int| 0 <= r < m && r != v && !occurs(lr[k as int]@, r) implies #[trigger] w[r]
            == T::zero_spec() by {
            assert(fin[r] == m || (fin[r] < m && lu.piv@[fin[r] as int] == r));
            assert(order.skip(order.len() as int) =~= Seq::<usize>::empty());
            assert forall|p: int, r2: int| 0 <= p < k implies (#[trigger] lm0[p].contains_key(r2)
                <==> occurs(lr[p]@, r2)) by {
                if occurs(order, p) {
                    let t = position(order, p);
                    assert(order[t] == p);
                    assert(lower@[t]@.len() == lr[order[t] as int]@.len());
                }
            }
            elim_confined(
                m as int,
                k as int,
                cols@[k as int]@,
                cols@[k as int].rows@,
                lu.piv@,
                fin,
                lr,
                lm0,
                order,
                order.len() as int,
                r,
            );
        }
        assert(x@ =~= blank::<T>(m as int));
        assert(column_made(m as int, k as int, *lu, cols@[k as int], lm0, made)) by {
            assert forall|t: int| 0 <= t < order.len() implies #[trigger] made.u_vals@[t] == elim(
                w0,
                lu.piv@,
                lm,
                order,
                t,
            )[lu.piv@[order[t] as int] as int] by {
                elim_reads(w0, lu.piv@, lm0, lm, order, t);
            }
            assert forall|r: int| #[trigger] lm[k as int].contains_key(r) implies lm[k as int][r]
                == w[r].over_spec(made.d) by {
                let q = position(lr[k as int]@, r);
                col_map_at(lr[k as int]@, lv@, q);
            }
        }
        assert forall|lm2: Seq<Map<int, T>>| #[trigger] hands(lr, order, lower@, lm2) implies column_made(
            m as int,
            k as int,
            *lu,
            cols@[k as int],
            lm2,
            made,
        ) by {
            hands_alike(lr, order, lower@, lm0, lm2);
            column_reads(m as int, k as int, *lu, cols@[k as int], lm0, lm2, made);
        }
    }
    Some(made)
}

/// What is handed in fixes the columns that are read.
proof fn hands_alike<T>(
    lr: Seq<Vec<usize>>,
    order: Seq<usize>,
    lower: Seq<&Vec<T>>,
    lm1: Seq<Map<int, T>>,
    lm2: Seq<Map<int, T>>,
)
    requires
        hands(lr, order, lower, lm1),
        hands(lr, order, lower, lm2),
    ensures
        forall|q: int|
            0 <= q < order.len() ==> lm1[#[trigger] order[q] as int] == lm2[order[q] as int],
{
    assert forall|q: int| 0 <= q < order.len() implies lm1[#[trigger] order[q] as int]
        == lm2[order[q] as int] by {
        assert(lower[q]@.len() == lr[order[q] as int]@.len());
    }
}

/// A work vector in which nothing is left.
pub open spec fn blank<T: Scalar>(m: int) -> Seq<T> {
    Seq::new(m as nat, |r: int| T::zero_spec())
}

/// The columns of `L` that `order` names.
fn lower_columns<'a, T>(l_vals: &'a Vec<Vec<T>>, order: &Vec<usize>) -> (r: Vec<&'a Vec<T>>)
    requires
        below(order@, l_vals@.len() as int),
    ensures
        r@.len() == order@.len(),
        forall|t: int| 0 <= t < order@.len() ==> *(#[trigger] r@[t]) == l_vals@[order@[t] as int],
{
    let mut r: Vec<&'a Vec<T>> = Vec::new();
    let mut t: usize = 0;
    while t < order.len()
        invariant
            t <= order@.len(),
            below(order@, l_vals@.len() as int),
            r@.len() == t,
            forall|t2: int| 0 <= t2 < t ==> *(#[trigger] r@[t2]) == l_vals@[order@[t2] as int],
        decreases order@.len() - t,
    {
        assert(order@[t as int] < l_vals@.len());
        r.push(&l_vals[order[t]]);
        t = t + 1;
    }
    r
}

/// Put the values of column `k` into the factors.
pub(crate) fn store_column<T: Scalar>(
    lu: &mut BlockLu<T>,
    k: usize,
    v: ColumnValues<T>,
    Ghost(m): Ghost<int>,
    Ghost(cols): Ghost<Seq<SparseColumn<T>>>,
)
    requires
        k < m,
        old(lu).structured(m, m, cols),
        old(lu).valued(m, k as int, cols),
        column_made(m, k as int, *old(lu), cols[k as int], old(lu).lm(), v),
    ensures
        same_pattern(*final(lu), *old(lu)),
        final(lu).structured(m, m, cols),
        final(lu).valued(m, k + 1, cols),
        final(lu).d@ == old(lu).d@.update(k as int, v.d),
        final(lu).lm() == old(lu).lm().update(
            k as int,
            col_map(old(lu).l_rows@[k as int]@, v.l_vals@),
        ),
{
    let ghost lu0 = *lu;
    let ghost lm0 = lu.lm();
    lu.u_vals.set(k, v.u_vals);
    lu.l_vals.set(k, v.l_vals);
    lu.d.set(k, v.d);
    proof {
        let lm = lu.lm();
        assert(lm =~= lm0.update(k as int, col_map(lu0.l_rows@[k as int]@, v.l_vals@)));
        // Earlier columns are untouched.
        assert forall|c: int| 0 <= c < k + 1 implies column_ok(
            m,
            c,
            #[trigger] cols[c]@,
            lu.piv@,
            lm,
            lu.u_rows@[c]@,
            lu.u_vals@[c]@,
            lu.d@[c],
        ) by {
            if c < k {
                let o = lu.u_rows@[c]@;
                assert(below(lu.u_rows@[c]@, c));
                let wc = dense(m, cols[c]@);
                assert(column_ok(
                    m,
                    c,
                    cols[c]@,
                    lu0.piv@,
                    lm0,
                    lu0.u_rows@[c]@,
                    lu0.u_vals@[c]@,
                    lu0.d@[c],
                ));
                elim_frame(wc, lu.piv@, lm0, lu.piv@, lm, o, o.len() as int, c);
                assert forall|t: int| 0 <= t < o.len() implies #[trigger] lu.u_vals@[c]@[t] == elim(
                    wc,
                    lu.piv@,
                    lm,
                    o,
                    t,
                )[lu.piv@[o[t] as int] as int] by {
                    elim_frame(wc, lu.piv@, lm0, lu.piv@, lm, o, t, c);
                }
            }
        }
        assert(lu.shaped(m));
    }
}

/// A work vector of zeros.
pub fn blank_vector<T: Scalar>(m: usize) -> (x: Vec<T>)
    ensures
        x@ == blank::<T>(m as int),
{
    let mut x: Vec<T> = Vec::new();
    let mut i: usize = 0;
    while i < m
        invariant
            i <= m,
            x@.len() == i,
            forall|r: int| 0 <= r < i ==> #[trigger] x@[r] == T::zero_spec(),
        decreases m - i,
    {
        x.push(T::zero());
        i = i + 1;
    }
    assert(x@ =~= blank::<T>(m as int));
    x
}

/// What the replay of a block came to: all of the columns, or those before the
/// first one whose pivot is not usable.
pub open spec fn block_outcome<T: Scalar>(
    m: int,
    lu: BlockLu<T>,
    cols: Seq<SparseColumn<T>>,
    r: Result<(), usize>,
) -> bool {
    let k = match r {
        Ok(()) => m,
        Err(k) => k as int,
    };
    &&& lu.valued(m, k, cols)
    &&& forall|c: int| 0 <= c < k ==> usable(#[trigger] lu.d@[c])
    &&& r is Err ==> k < m && !usable(worked(m, k, lu, cols[k], lu.lm())[lu.piv@[k] as int])
}

/// Replay the elimination of a block on new values, with the stored pattern
/// and pivot order, or report the first column whose pivot is not usable.
pub fn replay_block<T: Scalar>(
    m: usize,
    lu: &mut BlockLu<T>,
    cols: &Vec<SparseColumn<T>>,
) -> (r: Result<(), usize>)
    requires
        columns_wf(m as int, cols@),
        old(lu).structured(m as int, m as int, cols@),
    ensures
        same_pattern(*final(lu), *old(lu)),
        final(lu).structured(m as int, m as int, cols@),
        block_outcome(m as int, *final(lu), cols@, r),
{
    let mut x: Vec<T> = blank_vector(m);
    let mut k: usize = 0;
    while k < m
        invariant
            k <= m,
            columns_wf(m as int, cols@),
            same_pattern(*lu, *old(lu)),
            lu.structured(m as int, m as int, cols@),
            lu.valued(m as int, k as int, cols@),
            forall|c: int| 0 <= c < k ==> usable(#[trigger] lu.d@[c]),
            x@ == blank::<T>(m as int),
        decreases m - k,
    {
        proof {
            assert(below(lu.u_rows@[k as int]@, k as int));
            assert forall|q: int| 0 <= q < lu.u_rows@[k as int]@.len() implies #[trigger] lu.u_rows@[k as int]@[q]
                < m by {}
        }
        let lower = lower_columns(&lu.l_vals, &lu.u_rows[k]);
        assert(hands(lu.l_rows@, lu.u_rows@[k as int]@, lower@, lu.lm())) by {
            assert forall|t: int| 0 <= t < lower@.len() implies (#[trigger] lower@[t])@.len()
                == lu.l_rows@[lu.u_rows@[k as int]@[t] as int]@.len() by {
                let p = lu.u_rows@[k as int]@[t] as int;
                assert(p < k);
                assert(lu.l_vals@[p]@.len() == lu.l_rows@[p]@.len());
            }
        }
        match replay_one(m, k, lu, cols, &lower, &mut x) {
            Some(v) => {
                store_column(lu, k, v, Ghost(m as int), Ghost(cols@));
            },
            None => {
                return Err(k);
            },
        }
        k = k + 1;
    }
    Ok(())
}

/// The values of a factored block are determined by its pattern, its pivot
/// order and the matrix.
pub proof fn values_are_determined<T: Scalar>(
    a: BlockLu<T>,
    b: BlockLu<T>,
    m: int,
    cols: Seq<SparseColumn<T>>,
    k: int,
)
    requires
        0 <= k <= m,
        same_pattern(a, b),
        a.structured(m, m, cols),
        b.structured(m, m, cols),
        a.valued(m, k, cols),
        b.valued(m, k, cols),
    ensures
        forall|c: int| 0 <= c < k ==> #[trigger] a.lm()[c] == b.lm()[c],
        forall|c: int| 0 <= c < k ==> #[trigger] a.u_vals@[c]@ == b.u_vals@[c]@,
        forall|c: int| 0 <= c < k ==> #[trigger] a.l_vals@[c]@ == b.l_vals@[c]@,
        forall|c: int| 0 <= c < k ==> #[trigger] a.d@[c] == b.d@[c],
    decreases k,
{
    if k > 0 {
        values_are_determined(a, b, m, cols, k - 1);
        let c = k - 1;
        let order = a.u_rows@[c]@;
        assert(below(a.u_rows@[c]@, c));
        let w0 = dense(m, cols[c]@);
        assert(column_ok(m, c, cols[c]@, a.piv@, a.lm(), a.u_rows@[c]@, a.u_vals@[c]@, a.d@[c]));
        assert(column_ok(m, c, cols[c]@, b.piv@, b.lm(), b.u_rows@[c]@, b.u_vals@[c]@, b.d@[c]));
        elim_frame(w0, a.piv@, a.lm(), b.piv@, b.lm(), order, order.len() as int, c);
        assert forall|t: int| 0 <= t < order.len() implies #[trigger] a.u_vals@[c]@[t] == b.u_vals@[c]@[t] by {
            elim_frame(w0, a.piv@, a.lm(), b.piv@, b.lm(), order, t, c);
        }
        assert(a.u_vals@[c]@ =~= b.u_vals@[c]@);
        let la = a.lm()[c];
        let lb = b.lm()[c];
        assert forall|r: int| la.contains_key(r) <==> lb.contains_key(r) by {}
        assert forall|r: int| #[trigger] la.contains_key(r) implies la[r] == lb[r] by {
            assert(lb.contains_key(r));
        }
        assert(la =~= lb);
        let rows = a.l_rows@[c]@;
        assert(distinct(a.l_rows@[c]@));
        assert forall|q: int| 0 <= q < rows.len() implies #[trigger] a.l_vals@[c]@[q] == b.l_vals@[c]@[q] by {
            col_map_at(rows, a.l_vals@[c]@, q);
            col_map_at(rows, b.l_vals@[c]@, q);
        }
        assert(a.l_vals@[c]@.len() == a.l_rows@[c]@.len());
        assert(b.l_vals@[c]@.len() == b.l_rows@[c]@.len());
        assert(a.l_vals@[c]@ =~= b.l_vals@[c]@);
    }
}

/// However a block is replayed, in order or by workers, with the same pattern and
/// the same columns it comes to the same: all columns succeed or the same one
/// fails, and the columns before it have the same values.
pub proof fn replays_agree<T: Scalar>(
    m: int,
    a: BlockLu<T>,
    b: BlockLu<T>,
    cols: Seq<SparseColumn<T>>,
    ra: Result<(), usize>,
    rb: Result<(), usize>,
)
    requires
        same_pattern(a, b),
        a.structured(m, m, cols),
        b.structured(m, m, cols),
        block_outcome(m, a, cols, ra),
        block_outcome(m, b, cols, rb),
    ensures
        ra == rb,
        ({
            let k = match ra {
                Ok(()) => m,
                Err(k) => k as int,
            };
            &&& a.d@.take(k) == b.d@.take(k)
            &&& forall|c: int| 0 <= c < k ==> #[trigger] a.u_vals@[c]@ == b.u_vals@[c]@
            &&& forall|c: int| 0 <= c < k ==> #[trigger] a.l_vals@[c]@ == b.l_vals@[c]@
        }),
{
    let ka = match ra {
        Ok(()) => m,
        Err(k) => k as int,
    };
    let kb = match rb {
        Ok(()) => m,
        Err(k) => k as int,
    };
    if ka < kb {
        fails_alike(m, a, b, cols, ka);
        assert(usable(b.d@[ka]));
    } else if kb < ka {
        fails_alike(m, b, a, cols, kb);
        assert(usable(a.d@[kb]));
    }
    if let (Ok(x), Ok(y)) = (ra, rb) {
        assert(x == () && y == ());
    }
    values_are_determined(a, b, m, cols, ka);
    assert(a.d@.take(ka) =~= b.d@.take(ka));
}

/// A column that fails after one run cannot have come in another.
proof fn fails_alike<T: Scalar>(
    m: int,
    a: BlockLu<T>,
    b: BlockLu<T>,
    cols: Seq<SparseColumn<T>>,
    k: int,
)
    requires
        0 <= k < m,
        same_pattern(a, b),
        a.structured(m, m, cols),
        b.structured(m, m, cols),
        a.valued(m, k, cols),
        b.valued(m, k + 1, cols),
    ensures
        worked(m, k, a, cols[k], a.lm())[a.piv@[k] as int] == b.d@[k],
{
    values_are_determined(a, b, m, cols, k);
    let order = a.u_rows@[k]@;
    assert(below(a.u_rows@[k]@, k));
    elim_frame(
        dense(m, cols[k]@),
        a.piv@,
        a.lm(),
        b.piv@,
        b.lm(),
        order,
        order.len() as int,
        k,
    );
    assert(column_ok(m, k, cols[k]@, b.piv@, b.lm(), b.u_rows@[k]@, b.u_vals@[k]@, b.d@[k]));
}

} // verus!
