//! The estimate made before any numeric work is exact when every pivot is the
//! diagonal entry.

use crate::counts::saturated;
use crate::klu::analyze::holds_pattern;
use crate::klu::block::BlockLu;
use crate::klu::factor::{block_structure, pivots_chosen, KluFactors};
use crate::klu::fill::{
    count, filled, filled_grows, filled_settles, in_lower, in_upper, list_counts, lower_count,
    lower_total, upper_count, upper_total,
};
use crate::klu::form::{block_of, block_range, in_block};
use crate::klu::gather::{inverse_back, kept, scaled_entries, split_entry};
use crate::klu::model::{covers, fill_ok, spans, tight};
use crate::klu::refactor::same_frame;
use crate::klu::replay::same_pattern;
use crate::klu::settings::KluSettings;
use crate::klu::solver::lengths;
use crate::klu::symbolic::{count_below, KluSymbolic};
use crate::scalar::Scalar;
use crate::seqs::{below, occurs};
use crate::sparse::{position, GeneralCsc, SparseColumn};
use vstd::prelude::*;

verus! {

/// Every pivot is the entry on the diagonal.
pub open spec fn diagonal_pivots<T>(lu: BlockLu<T>, m: int) -> bool {
    forall|c: int| 0 <= c < m ==> #[trigger] lu.piv@[c] == c
}

/// The entries of the columns are those of the pattern.
spec fn columns_show<T>(m: int, cols: Seq<SparseColumn<T>>, pat: spec_fn(int, int) -> bool) -> bool {
    forall|c: int, r: int|
        0 <= c < m && 0 <= r < m ==> (#[trigger] occurs(cols[c].rows@, r) <==> pat(r, c))
}

/// The first `k` columns of `L` hold exactly the fill.
spec fn lower_exact<T>(lu: BlockLu<T>, m: int, pat: spec_fn(int, int) -> bool, k: int) -> bool {
    forall|p: int, i: int|
        0 <= p < k && 0 <= i < m ==> (#[trigger] occurs(lu.l_rows@[p]@, i) <==> in_lower(pat, i, p))
}

/// What column `j` stores is filled.
proof fn stored_is_filled<T: Scalar>(
    lu: BlockLu<T>,
    m: int,
    cols: Seq<SparseColumn<T>>,
    pat: spec_fn(int, int) -> bool,
    j: int,
)
    requires
        0 <= j < m,
        lu.structured(m, m, cols),
        diagonal_pivots(lu, m),
        columns_show(m, cols, pat),
        forall|c: int| 0 <= c < m ==> below(#[trigger] cols[c].rows@, m),
        tight(j, lu.piv@, lu.l_rows@, lu.u_rows@[j]@, cols[j].rows@),
        lower_exact(lu, m, pat, j),
    ensures
        forall|i: int| #[trigger] occurs(lu.l_rows@[j]@, i) ==> in_lower(pat, i, j),
        forall|i: int| #[trigger] occurs(lu.u_rows@[j]@, i) ==> in_upper(pat, i, j),
{
    let s = Set::new(|r: int| 0 <= r < m && filled(pat, r, j, j));
    assert(spans(j, lu.piv@, lu.l_rows@, cols[j].rows@, s)) by {
        assert forall|r: int| #[trigger] occurs(cols[j].rows@, r) implies s.contains(r) by {
            let q = position(cols[j].rows@, r);
            assert(below(cols[j].rows@, m));
            assert(cols[j].rows@[q] < m);
            filled_grows(pat, r, j, 0, j);
        }
        assert forall|p: int, r: int|
            0 <= p < j && s.contains(lu.piv@[p] as int) && #[trigger] occurs(lu.l_rows@[p]@, r) implies s.contains(
        r) by {
            assert(lu.piv@[p] == p);
            assert(in_lower(pat, r, p));
            filled_settles(pat, p, j, j);
            assert(filled(pat, r, j, p + 1));
            filled_grows(pat, r, j, p + 1, j);
        }
    }
    assert forall|i: int| #[trigger] occurs(lu.l_rows@[j]@, i) implies in_lower(pat, i, j) by {
        assert(s.contains(i));
        assert(lu.fin@[i] > j);
        assert(lu.piv@[i] == i);
        assert(lu.fin@[lu.piv@[i] as int] == i);
    }
    assert forall|i: int| #[trigger] occurs(lu.u_rows@[j]@, i) implies in_upper(pat, i, j) by {
        let t = position(lu.u_rows@[j]@, i);
        assert(below(lu.u_rows@[j]@, j));
        assert(lu.u_rows@[j]@[t] < j);
        assert(s.contains(lu.piv@[lu.u_rows@[j]@[t] as int] as int));
        assert(lu.piv@[i] == i);
    }
}

/// What is filled after `t` steps, column `j` stores.
proof fn filled_is_stored<T: Scalar>(
    lu: BlockLu<T>,
    m: int,
    cols: Seq<SparseColumn<T>>,
    pat: spec_fn(int, int) -> bool,
    j: int,
    i: int,
    t: int,
)
    requires
        0 <= t <= j < m,
        0 <= i < m,
        lu.structured(m, m, cols),
        diagonal_pivots(lu, m),
        columns_show(m, cols, pat),
        lower_exact(lu, m, pat, j),
        filled(pat, i, j, t),
    ensures
        i < j ==> occurs(lu.u_rows@[j]@, i),
        i > j ==> occurs(lu.l_rows@[j]@, i),
    decreases t,
{
    let order = lu.u_rows@[j]@;
    assert(lu.piv@[i] == i);
    assert(lu.fin@[lu.piv@[i] as int] == i);
    if t == 0 {
        assert(covers(j, lu.fin@, lu.l_rows@, lu.u_rows@[j]@, cols[j].rows@));
        assert(occurs(cols[j].rows@, i));
    } else if filled(pat, i, j, t - 1) {
        filled_is_stored(lu, m, cols, pat, j, i, t - 1);
    } else {
        let p = t - 1;
        filled_is_stored(lu, m, cols, pat, j, p, t - 1);
        let x = position(order, p);
        assert(order[x] == p);
        assert(in_lower(pat, i, p));
        assert(occurs(lu.l_rows@[p]@, i));
        assert(fill_ok(j, lu.fin@, lu.l_rows@, lu.u_rows@[j]@));
        assert(occurs(lu.l_rows@[order[x] as int]@, i));
        if i < j {
            let rest = order.skip(x + 1);
            let y = position(rest, i);
            assert(order[x + 1 + y] == i);
        }
    }
}

/// With diagonal pivots, the first `k` columns hold exactly the fill.
proof fn fill_is_exact<T: Scalar>(
    lu: BlockLu<T>,
    m: int,
    cols: Seq<SparseColumn<T>>,
    pat: spec_fn(int, int) -> bool,
    k: int,
)
    requires
        0 <= k <= m,
        lu.structured(m, m, cols),
        diagonal_pivots(lu, m),
        columns_show(m, cols, pat),
        forall|c: int| 0 <= c < m ==> below(#[trigger] cols[c].rows@, m),
        m == 1 || lu.tight(m, cols),
    ensures
        lower_exact(lu, m, pat, k),
        forall|j: int| 0 <= j < k ==> (#[trigger] lu.l_rows@[j]@).len() == lower_count(m, pat, j),
        forall|j: int| 0 <= j < k ==> (#[trigger] lu.u_rows@[j]@).len() == upper_count(m, pat, j),
    decreases k,
{
    if k > 0 {
        let j = k - 1;
        fill_is_exact(lu, m, cols, pat, j);
        let l = lu.l_rows@[j]@;
        let u = lu.u_rows@[j]@;
        assert(below(lu.u_rows@[j]@, j));
        assert forall|q: int| 0 <= q < l.len() implies #[trigger] l[q] < m by {
            assert(occurs(lu.l_rows@[j]@, l[q] as int));
        }
        if m == 1 {
            if l.len() > 0 {
                assert(occurs(lu.l_rows@[j]@, l[0] as int));
                assert(lu.piv@[0] == 0);
                assert(lu.fin@[lu.piv@[0] as int] == 0);
            }
            if u.len() > 0 {
                assert(u[0] < 0);
            }
        } else {
            assert(tight(j, lu.piv@, lu.l_rows@, lu.u_rows@[j]@, cols[j].rows@));
            stored_is_filled(lu, m, cols, pat, j);
        }
        assert forall|i: int| 0 <= i < m implies (#[trigger] in_lower(pat, i, j) <==> occurs(l, i)) by {
            if in_lower(pat, i, j) {
                filled_is_stored(lu, m, cols, pat, j, i, j);
            }
        }
        assert forall|i: int| 0 <= i < m implies (#[trigger] in_upper(pat, i, j) <==> occurs(u, i)) by {
            if in_upper(pat, i, j) {
                filled_is_stored(lu, m, cols, pat, j, i, j);
            }
        }
        assert(crate::seqs::distinct(lu.l_rows@[j]@));
        assert(crate::seqs::distinct(lu.u_rows@[j]@));
        let pl = |i: int| in_lower(pat, i, j);
        let pu = |i: int| in_upper(pat, i, j);
        assert forall|i: int| 0 <= i < m implies (#[trigger] pl(i) <==> occurs(l, i)) by {
            assert(in_lower(pat, i, j) <==> occurs(l, i));
        }
        assert forall|i: int| 0 <= i < m implies (#[trigger] pu(i) <==> occurs(u, i)) by {
            assert(in_upper(pat, i, j) <==> occurs(u, i));
        }
        assert forall|q: int| 0 <= q < u.len() implies #[trigger] u[q] < m by {
            assert(u[q] < j);
        }
        list_counts(l, m, pl);
        list_counts(u, m, pu);
        assert forall|p: int, i: int| 0 <= p < k && 0 <= i < m implies (#[trigger] occurs(
            lu.l_rows@[p]@,
            i,
        ) <==> in_lower(pat, i, p)) by {
            if p == j {
                assert(in_lower(pat, i, j) <==> occurs(l, i));
            }
        }
    }
}

/// Lists as long as the columns of the fill add up to it.
proof fn lengths_add_up<T: Scalar>(
    lu: BlockLu<T>,
    m: int,
    pat: spec_fn(int, int) -> bool,
    k: int,
)
    requires
        0 <= k <= m,
        forall|j: int| 0 <= j < m ==> (#[trigger] lu.l_rows@[j]@).len() == lower_count(m, pat, j),
        forall|j: int| 0 <= j < m ==> (#[trigger] lu.u_rows@[j]@).len() == upper_count(m, pat, j),
    ensures
        lengths(lu.l_rows@, k) == lower_total(m, pat, k),
        lengths(lu.u_rows@, k) == upper_total(m, pat, k),
    decreases k,
{
    if k > 0 {
        lengths_add_up(lu, m, pat, k - 1);
    }
}

/// The entries kept above `lo` are as many as the rows above `lo`.
proof fn kept_count<T>(e: Seq<(int, T)>, rows: Seq<usize>, lo: int)
    requires
        e.len() == rows.len(),
        forall|q: int| 0 <= q < e.len() ==> (#[trigger] e[q]).0 == rows[q],
    ensures
        kept(e, 0, lo).len() == count_below(rows, lo, rows.len() as int),
    decreases e.len(),
{
    if e.len() > 0 {
        let e1 = e.drop_last();
        let r1 = rows.drop_last();
        assert forall|q: int| 0 <= q < e1.len() implies (#[trigger] e1[q]).0 == r1[q] by {
            assert(e[q].0 == rows[q]);
        }
        kept_count(e1, r1, lo);
        count_prefix(r1, rows, lo, r1.len() as int);
        assert(e.last().0 == rows[rows.len() - 1]);
    }
}

/// Counting reads only the rows that it counts.
proof fn count_prefix(r1: Seq<usize>, r2: Seq<usize>, lo: int, q: int)
    requires
        q <= r1.len(),
        q <= r2.len(),
        forall|x: int| 0 <= x < q ==> r1[x] == #[trigger] r2[x],
    ensures
        count_below(r1, lo, q) == count_below(r2, lo, q),
    decreases q,
{
    if q > 0 {
        count_prefix(r1, r2, lo, q - 1);
        assert(r1[q - 1] == r2[q - 1]);
    }
}

/// The entries above the blocks, up to column `j` of block `b`.
proof fn off_adds_up<T: Scalar>(
    sym: KluSymbolic,
    a: GeneralCsc<T>,
    settings: KluSettings<T::Real>,
    f: KluFactors<T>,
    b: int,
    j: int,
)
    requires
        f.factors(sym, a, settings),
        holds_pattern(sym, a),
        0 <= b <= f.nb(),
        0 <= j,
        b < f.nb() ==> j <= sym.size(b),
        b == f.nb() ==> j == 0,
    ensures
        sym.f_nnz(b, j) == f.off_entries(sym.block_ptr@[b] + j),
    decreases b, j,
{
    if j <= 0 {
        if b > 0 {
            block_range(f.n as int, f.block_ptr@, b - 1);
            off_adds_up(sym, a, settings, f, b - 1, sym.size(b - 1));
        }
    } else {
        block_range(f.n as int, f.block_ptr@, b);
        off_adds_up(sym, a, settings, f, b, j - 1);
        let bs = sym.block_ptr@[b] as int;
        let c = bs + j - 1;
        assert(in_block(f.block_ptr@, b, c));
        assert(f.off_valued(a, b));
        let oc = f.col_perm@[c] as int;
        let e = scaled_entries(a, f.rs_inv@, f.pinv@, oc);
        assert(f.off@[c].rows@.len() == kept(e, 0, bs).len());
        let rows = sym.pattern(c);
        assert(rows.len() == a.rows_of(oc).len());
        assert forall|q: int| 0 <= q < e.len() implies (#[trigger] e[q]).0 == rows[q] by {
            assert(rows[q] == sym.pinv_pre@[a.rows_of(oc)[q] as int]);
        }
        kept_count(e, rows, bs);
    }
}

/// The columns of a block show the analyzed pattern.
proof fn block_shows_pattern<T: Scalar>(
    sym: KluSymbolic,
    a: GeneralCsc<T>,
    settings: KluSettings<T::Real>,
    f: KluFactors<T>,
    b: int,
    cols: Seq<SparseColumn<T>>,
)
    requires
        f.factors(sym, a, settings),
        holds_pattern(sym, a),
        0 <= b < f.nb(),
        f.columns_of(a, b, cols),
    ensures
        columns_show(f.size(b), cols, sym.block_pattern(b)),
{
    let m = f.size(b);
    let bs = f.start(b);
    let pat = sym.block_pattern(b);
    block_range(f.n as int, f.block_ptr@, b);
    assert forall|c: int, r: int| 0 <= c < m && 0 <= r < m implies (#[trigger] occurs(cols[c].rows@, r)
        <==> pat(r, c)) by {
        let oc = f.col_perm@[bs + c] as int;
        assert(f.col_perm@[bs + c] < f.n);
        split_entry(a, f.rs_inv@, f.pre_row_perm@, f.pinv@, oc, bs, bs + m, cols[c], r);
        let list = a.rows_of(oc);
        let rows = sym.pattern(bs + c);
        let i = f.pre_row_perm@[bs + r] as int;
        assert(f.pinv@[f.pre_row_perm@[bs + r] as int] == bs + r);
        crate::sparse::column_range(a, oc);
        assert(occurs(cols[c].rows@, r) <==> occurs(list, i));
        if occurs(list, i) {
            let q = position(list, i);
            assert(rows[q] == sym.pinv_pre@[list[q] as int]);
            assert(rows[q] == bs + r);
            assert(occurs(rows, bs + r));
        }
        if occurs(rows, bs + r) {
            let q = position(rows, bs + r);
            assert(rows[q] == sym.pinv_pre@[list[q] as int]);
            assert(list[q] < a.n);
            inverse_back(f.pre_row_perm@, f.pinv@, a.n as int, list[q] as int);
            assert(list[q] == i);
        }
    }
}

/// The blocks with diagonal pivots, up to block `k`.
proof fn blocks_add_up<T: Scalar>(
    sym: KluSymbolic,
    a: GeneralCsc<T>,
    settings: KluSettings<T::Real>,
    f: KluFactors<T>,
    k: int,
)
    requires
        f.factors(sym, a, settings),
        holds_pattern(sym, a),
        0 <= k <= f.nb(),
        forall|b: int|
            0 <= b < f.nb() ==> diagonal_pivots(#[trigger] f.blocks@[b], f.size(b)),
    ensures
        f.block_entries(k) == sym.l_nnz(k) + sym.u_nnz(k) + sym.block_ptr@[k],
    decreases k,
{
    if k > 0 {
        let b = k - 1;
        blocks_add_up(sym, a, settings, f, b);
        let m = f.size(b);
        let lu = f.blocks@[b];
        let pat = sym.block_pattern(b);
        block_range(f.n as int, f.block_ptr@, b);
        assert(f.block_covers(b));
        assert(f.block_pivoted(a, b, settings.pivot_threshold));
        let cols = choose|cols: Seq<SparseColumn<T>>| #[trigger]
            f.columns_of(a, b, cols) && pivots_chosen(lu, m, cols, settings.pivot_threshold);
        block_structure(f, a, b, cols);
        block_shows_pattern(sym, a, settings, f, b, cols);
        assert forall|c: int| 0 <= c < m implies below(#[trigger] cols[c].rows@, m) by {
            assert(cols[c].wf(m));
        }
        assert(diagonal_pivots(f.blocks@[b], f.size(b)));
        fill_is_exact(lu, m, cols, pat, m);
        lengths_add_up(lu, m, pat, m);
    }
}

/// The entries estimated from the analysis are the entries of the factors when
/// every pivot is the diagonal entry.
pub proof fn estimate_is_exact<T: Scalar>(
    sym: KluSymbolic,
    a: GeneralCsc<T>,
    settings: KluSettings<T::Real>,
    f: KluFactors<T>,
)
    requires
        holds_pattern(sym, a),
        f.factors(sym, a, settings),
        forall|b: int|
            0 <= b < f.nb() ==> diagonal_pivots(#[trigger] f.blocks@[b], f.size(b)),
    ensures
        f.stored_entries() == sym.factor_entries(),
{
    blocks_add_up(sym, a, settings, f, f.nb());
    off_adds_up(sym, a, settings, f, f.nb(), 0);
}

/// The first `q` rows that are not above `lo`, numbered from `lo`.
spec fn inside(rows: Seq<usize>, lo: int, q: int) -> Seq<usize>
    decreases q,
{
    if q <= 0 {
        Seq::empty()
    } else if rows[q - 1] < lo {
        inside(rows, lo, q - 1)
    } else {
        inside(rows, lo, q - 1).push((rows[q - 1] - lo) as usize)
    }
}

/// The row is among the first `q`.
spec fn among(rows: Seq<usize>, r: int, q: int) -> bool {
    exists|y: int| 0 <= y < q && #[trigger] rows[y] == r
}

/// The rows inside are apart, in range, and as many as are not above.
proof fn inside_is_listed(rows: Seq<usize>, lo: int, hi: int, q: int)
    requires
        crate::seqs::distinct(rows),
        below(rows, hi),
        0 <= lo,
        0 <= q <= rows.len(),
    ensures
        inside(rows, lo, q).len() == q - count_below(rows, lo, q),
        crate::seqs::distinct(inside(rows, lo, q)),
        below(inside(rows, lo, q), hi - lo),
        forall|x: int|
            0 <= x < inside(rows, lo, q).len() ==> among(
                rows,
                lo + #[trigger] inside(rows, lo, q)[x],
                q,
            ),
    decreases q,
{
    if q > 0 {
        inside_is_listed(rows, lo, hi, q - 1);
        let l0 = inside(rows, lo, q - 1);
        let l1 = inside(rows, lo, q);
        let r = rows[q - 1];
        assert(r < hi);
        assert forall|x: int| 0 <= x < l1.len() implies among(rows, lo + #[trigger] l1[x], q) by {
            if x < l0.len() {
                assert(l1[x] == l0[x]);
                assert(among(rows, lo + l0[x], q - 1));
                let y = choose|y: int| 0 <= y < q - 1 && #[trigger] rows[y] == lo + l0[x];
                assert(rows[y] == lo + l1[x]);
            } else {
                assert(rows[q - 1] == lo + l1[x]);
            }
        }
        assert forall|x: int, z: int| 0 <= x < z < l1.len() implies l1[x] != l1[z] by {
            assert(l1[x] == l0[x]);
            if z < l0.len() {
                assert(l1[z] == l0[z]);
            } else {
                assert(among(rows, lo + l0[x], q - 1));
                let y = choose|y: int| 0 <= y < q - 1 && #[trigger] rows[y] == lo + l0[x];
                assert(rows[y] != rows[q - 1]);
            }
        }
        assert forall|x: int| 0 <= x < l1.len() implies #[trigger] l1[x] < hi - lo by {
            if x < l0.len() {
                assert(l1[x] == l0[x]);
            }
        }
    }
}

/// What is below, above or on the diagonal is counted there.
proof fn count_splits(
    n: int,
    j: int,
    p: spec_fn(int) -> bool,
    l: spec_fn(int) -> bool,
    u: spec_fn(int) -> bool,
)
    requires
        forall|i: int| 0 <= i < n && #[trigger] p(i) ==> l(i) || u(i) || i == j,
    ensures
        count(n, p) <= count(n, l) + count(n, u) + (if 0 <= j < n {
            1int
        } else {
            0int
        }),
    decreases n,
{
    if n > 0 {
        count_splits(n - 1, j, p, l, u);
        if p(n - 1) {
            assert(l(n - 1) || u(n - 1) || n - 1 == j);
        }
    }
}

/// A column of the pattern has no more entries than the estimate counts for it.
proof fn column_is_counted(sym: KluSymbolic, b: int, j: int)
    requires
        sym.formed(),
        0 <= b < sym.block_ptr@.len() - 1,
        0 <= j < sym.size(b),
    ensures
        ({
            let c = sym.block_ptr@[b] + j;
            let rows = sym.pattern(c);
            let pat = sym.block_pattern(b);
            rows.len() <= count_below(rows, sym.block_ptr@[b] as int, rows.len() as int)
                + lower_count(sym.size(b), pat, j) + upper_count(sym.size(b), pat, j) + 1
        }),
{
    let bs = sym.block_ptr@[b] as int;
    let m = sym.size(b);
    let c = bs + j;
    let rows = sym.pattern(c);
    let pat = sym.block_pattern(b);
    block_range(sym.n as int, sym.block_ptr@, b);
    assert(in_block(sym.block_ptr@, b, c));
    let list = inside(rows, bs, rows.len() as int);
    inside_is_listed(rows, bs, bs + m, rows.len() as int);
    let p = |i: int| occurs(list, i);
    let l = |i: int| in_lower(pat, i, j);
    let u = |i: int| in_upper(pat, i, j);
    list_counts(list, m, p);
    assert forall|i: int| 0 <= i < m && #[trigger] p(i) implies l(i) || u(i) || i == j by {
        let x = position(list, i);
        assert(list[x] == i);
        assert(among(rows, bs + list[x], rows.len() as int));
        let y = choose|y: int| 0 <= y < rows.len() && #[trigger] rows[y] == bs + i;
        assert(occurs(rows, bs + i));
        assert(pat(i, j));
        filled_grows(pat, i, j, 0, j);
    }
    count_splits(m, j, p, l, u);
}

/// The entries of the pattern up to column `j` of block `b` are counted.
proof fn columns_are_counted(sym: KluSymbolic, b: int, j: int)
    requires
        sym.formed(),
        0 <= b < sym.block_ptr@.len(),
        0 <= j,
        b < sym.block_ptr@.len() - 1 ==> j <= sym.size(b),
        b == sym.block_ptr@.len() - 1 ==> j == 0,
    ensures
        sym.pat_col_ptr@[sym.block_ptr@[b] + j] <= sym.f_nnz(b, j) + sym.l_nnz(b) + sym.u_nnz(b)
            + lower_total(sym.size(b), sym.block_pattern(b), j) + upper_total(
            sym.size(b),
            sym.block_pattern(b),
            j,
        ) + sym.block_ptr@[b] + j,
    decreases b, j,
{
    if j > 0 {
        columns_are_counted(sym, b, j - 1);
        column_is_counted(sym, b, j - 1);
        block_range(sym.n as int, sym.block_ptr@, b);
        let c = sym.block_ptr@[b] + j - 1;
        assert(sym.pat_col_ptr@[c] <= sym.pat_col_ptr@[c + 1]);
        assert(sym.pat_col_ptr@[c + 1] <= sym.pat_col_ptr@[sym.n as int]);
        assert(sym.pattern(c).len() == sym.pat_col_ptr@[c + 1] - sym.pat_col_ptr@[c]);
    } else if b > 0 {
        block_range(sym.n as int, sym.block_ptr@, b - 1);
        columns_are_counted(sym, b - 1, sym.size(b - 1));
    }
}

/// The estimate counts at least the entries of the analyzed matrix.
pub proof fn estimate_covers_the_pattern(sym: KluSymbolic)
    requires
        sym.formed(),
    ensures
        sym.factor_entries() >= sym.nnz,
{
    columns_are_counted(sym, sym.block_ptr@.len() - 1, 0);
}

/// The number of entries that the estimate reports has no room to overflow.
proof fn entries_are_countable(sym: KluSymbolic)
    requires
        sym.wf(),
        sym.fill is Some,
    ensures
        0 <= sym.factor_entries() <= u64::MAX,
{
    let n = sym.n as int;
    assert(n * n <= 0x8000_0000 * 0x8000_0000) by (nonlinear_arith)
        requires
            0 <= n < 0x8000_0000,
    ;
}

/// What the estimate says of memory hangs together: the factors take the bytes
/// of a value and an index for every entry that it reports, and at the peak they
/// are held together with the input, which takes as much for every entry of its
/// own, and with the workspace, a value and four indices for every row. All of it
/// as far as it can be counted.
pub proof fn estimate_prices_every_entry(sym: KluSymbolic, value_bytes: int, index_bytes: int)
    requires
        sym.wf(),
        sym.fill is Some,
        0 <= value_bytes,
        0 <= index_bytes,
        value_bytes + index_bytes <= u64::MAX,
    ensures
        ({
            let e = sym.estimate(value_bytes, index_bytes);
            let entry = value_bytes + index_bytes;
            let input = sym.nnz * entry;
            &&& e.factor_nnz >= sym.nnz
            &&& e.factor_nnz * entry <= u64::MAX ==> e.factor_bytes == e.factor_nnz * entry
            &&& e.factor_nnz * entry > u64::MAX ==> e.factor_bytes == u64::MAX
            &&& e.factor_bytes + input <= u64::MAX ==> e.transient_peak_bytes >= e.factor_bytes
                + input
            &&& e.factor_bytes + input > u64::MAX ==> e.transient_peak_bytes == u64::MAX
            &&& e.factor_bytes + input + sym.n * (value_bytes + 32) <= u64::MAX && value_bytes
                + 32 <= u64::MAX ==> e.transient_peak_bytes == e.factor_bytes + input + sym.n * (
            value_bytes + 32)
        }),
{
    entries_are_countable(sym);
    estimate_covers_the_pattern(sym);
    let entry = value_bytes + index_bytes;
    assert(0 <= sym.nnz * entry) by (nonlinear_arith)
        requires
            0 <= entry,
    ;
    let n = sym.n as int;
    let w = saturated(value_bytes + 32) as int;
    assert(0 <= n * w) by (nonlinear_arith)
        requires
            0 <= n,
            0 <= w,
    ;
}

/// When every pivot is the diagonal entry, the bytes estimated from the analysis
/// are those of the finished factors: a value and an index for each entry that
/// they store.
pub proof fn estimated_bytes_are_those_stored<T: Scalar>(
    sym: KluSymbolic,
    a: GeneralCsc<T>,
    settings: KluSettings<T::Real>,
    f: KluFactors<T>,
    value_bytes: int,
    index_bytes: int,
)
    requires
        sym.wf(),
        sym.fill is Some,
        holds_pattern(sym, a),
        f.factors(sym, a, settings),
        forall|b: int|
            0 <= b < f.nb() ==> diagonal_pivots(#[trigger] f.blocks@[b], f.size(b)),
        0 <= value_bytes,
        0 <= index_bytes,
        value_bytes + index_bytes <= u64::MAX,
    ensures
        sym.estimate(value_bytes, index_bytes).factor_nnz == f.stored_entries(),
        f.stored_entries() * (value_bytes + index_bytes) <= u64::MAX ==> sym.estimate(
            value_bytes,
            index_bytes,
        ).factor_bytes == f.stored_entries() * (value_bytes + index_bytes),
{
    estimate_is_exact(sym, a, settings, f);
    entries_are_countable(sym);
    estimate_prices_every_entry(sym, value_bytes, index_bytes);
}

/// The first `k` blocks of two factorizations on the same pattern store alike.
proof fn blocks_store_alike<T: Scalar>(f: KluFactors<T>, g: KluFactors<T>, k: int)
    requires
        f.wf(),
        g.wf(),
        same_frame(g, f),
        0 <= k <= f.nb(),
    ensures
        g.block_entries(k) == f.block_entries(k),
    decreases k,
{
    if k > 0 {
        blocks_store_alike(f, g, k - 1);
        assert(same_pattern(g.blocks@[k - 1], f.blocks@[k - 1]));
        assert(f.block_covers(k - 1));
        assert(g.block_covers(k - 1));
    }
}

/// So do the first `k` columns above the blocks.
proof fn off_stores_alike<T: Scalar>(
    f: KluFactors<T>,
    g: KluFactors<T>,
    a: GeneralCsc<T>,
    b: GeneralCsc<T>,
    k: int,
)
    requires
        f.wf(),
        g.wf(),
        same_frame(g, f),
        f.fits(a),
        g.fits(b),
        f.holds(a),
        g.holds(b),
        0 <= k <= f.n,
    ensures
        g.off_entries(k) == f.off_entries(k),
    decreases k,
{
    if k > 0 {
        off_stores_alike(f, g, a, b, k - 1);
        let c = k - 1;
        let blk = block_of(f.n as int, f.block_ptr@, c);
        assert(in_block(f.block_ptr@, blk, c));
        assert(f.off_valued(a, blk));
        assert(g.off_valued(b, blk));
        let oc = f.col_perm@[c] as int;
        assert(a.rows_of(oc) == b.rows_of(oc));
        let list = a.rows_of(oc);
        let rows = Seq::new(list.len(), |q: int| f.pinv@[list[q] as int]);
        kept_count(scaled_entries(a, f.rs_inv@, f.pinv@, oc), rows, f.start(blk));
        kept_count(scaled_entries(b, g.rs_inv@, g.pinv@, oc), rows, g.start(blk));
    }
}

/// A refactorization stores as many entries as before.
pub proof fn refactoring_keeps_the_count<T: Scalar>(
    f: KluFactors<T>,
    g: KluFactors<T>,
    a: GeneralCsc<T>,
    b: GeneralCsc<T>,
)
    requires
        f.wf(),
        g.wf(),
        same_frame(g, f),
        f.fits(a),
        g.fits(b),
        f.holds(a),
        g.holds(b),
    ensures
        g.stored_entries() == f.stored_entries(),
{
    blocks_store_alike(f, g, f.nb());
    off_stores_alike(f, g, a, b, f.n as int);
}

} // verus!
