//! What the factorization and its solves mean, over exact arithmetic.

use crate::algebra::{
    sum, sum_ext, sum_permuted, sum_scale, sum_split, sum_zero, times_zero, zero_plus,
};
use crate::flat::{column_bounds, column_start};
use crate::klu::factor::{block_structure, pivots_chosen, KluFactors};
use crate::klu::form::{block_of, block_order, block_range, in_block};
use crate::klu::gather::{row_max, row_scales, scale_of, split_entry};
use crate::klu::laws::{
    factors_multiply_to_the_block, gather_takes_the_column, spread_is_subtraction,
    substitution_solves_the_block, substitution_solves_the_transposed_block,
};
use crate::klu::model::{column_ok, covers, elim, pivot_ok};
use crate::klu::refactor::same_frame;
use crate::klu::replay::{same_pattern, usable, values_are_determined};
use crate::scalar::{Field, Real, Scalar};
use crate::seqs::{occurs, permutation_is_onto};
use crate::sparse::{entry, position, GeneralCsc, SparseColumn};
use vstd::prelude::*;

verus! {

impl<T: Scalar> KluFactors<T> {
    /// The scaled, permuted matrix in positions before pivoting.
    pub open spec fn scaled_at(&self, a: GeneralCsc<T>, p: int, j: int) -> T {
        a.at(self.pre_row_perm@[p] as int, self.col_perm@[j] as int).times_spec(
            self.scale(self.pre_row_perm@[p] as int),
        )
    }

    /// The factors hold the values of the matrix, and no pivot is zero.
    pub open spec fn regular(&self, a: GeneralCsc<T>) -> bool {
        &&& self.wf()
        &&& a.wf()
        &&& self.fits(a)
        &&& self.holds(a)
        &&& forall|b: int|
            0 <= b < self.blocks@.len() ==> (#[trigger] self.blocks@[b]).nonsingular(self.size(b))
    }
}

// ---------------------------------------------------------------------------
// Pivots and scale factors are not zero
// ---------------------------------------------------------------------------
/// Threshold pivoting leaves no zero pivot.
pub proof fn pivoted_is_regular<T: Field>(f: KluFactors<T>, a: GeneralCsc<T>, threshold: T::Real)
    requires
        f.wf(),
        a.wf(),
        f.fits(a),
        f.holds(a),
        f.pivoted(a, threshold),
    ensures
        f.regular(a),
{
    assert forall|b: int| 0 <= b < f.blocks@.len() implies (#[trigger] f.blocks@[b]).nonsingular(
        f.size(b),
    ) by {
        let lu = f.blocks@[b];
        let m = f.size(b);
        block_range(f.n as int, f.block_ptr@, b);
        assert(f.block_valued(a, b));
        assert(f.block_pivoted(a, b, threshold));
        let c1 = choose|cols: Seq<SparseColumn<T>>| #[trigger]
            f.columns_of(a, b, cols) && lu.valued(m, m, cols);
        let c2 = choose|cols: Seq<SparseColumn<T>>| #[trigger]
            f.columns_of(a, b, cols) && pivots_chosen(lu, m, cols, threshold);
        assert forall|c: int| 0 <= c < m implies #[trigger] lu.d@[c] != T::zero_spec() by {
            same_columns(f, a, b, c1, c2, c);
            T::zero_test(lu.d@[c]);
            assert(column_ok(m, c, c1[c]@, lu.piv@, lu.lm(), lu.u_rows@[c]@, lu.u_vals@[c]@, lu.d@[c]));
            let w = elim(
                crate::sparse::dense(m, c1[c]@),
                lu.piv@,
                lu.lm(),
                lu.u_rows@[c]@,
                lu.u_rows@[c]@.len() as int,
            );
            assert(f.block_covers(b));
            lu.rows_in_range(m, c);
            if m == 1 {
                assert(lu.u_rows@[0]@.len() == 0) by {
                    if lu.u_rows@[0]@.len() > 0 {
                        assert(lu.u_rows@[0]@[0] < 0);
                    }
                }
                assert(w == crate::sparse::dense(m, c1[0]@));
                assert(lu.piv@[0] < 1);
            } else {
                assert(pivot_ok(
                    m,
                    c,
                    c2[c]@,
                    lu.piv@,
                    lu.lm(),
                    lu.u_rows@[c]@,
                    lu.l_rows@[c]@,
                    threshold,
                ));
                assert(w[lu.piv@[c] as int].magnitude_spec().gt_spec(<T::Real as Real>::zero_spec()));
                <T::Real as Real>::positive_is_nonzero(w[lu.piv@[c] as int].magnitude_spec());
            }
        }
    }
}

/// The columns of a block are determined.
proof fn same_columns<T: Scalar>(
    f: KluFactors<T>,
    a: GeneralCsc<T>,
    b: int,
    c1: Seq<SparseColumn<T>>,
    c2: Seq<SparseColumn<T>>,
    c: int,
)
    requires
        f.columns_of(a, b, c1),
        f.columns_of(a, b, c2),
        0 <= c < f.size(b),
    ensures
        c1[c]@ == c2[c]@,
        c1[c].rows@ == c2[c].rows@,
{
    let x = c1[c];
    let y = c2[c];
    assert(x.rows@ =~= y.rows@);
    assert(x.vals@ =~= y.vals@);
}

/// Usable pivots are not zero.
pub proof fn usable_is_regular<T: Field>(f: KluFactors<T>, a: GeneralCsc<T>)
    requires
        f.wf(),
        a.wf(),
        f.fits(a),
        f.holds(a),
        forall|b: int| 0 <= b < f.blocks@.len() ==> #[trigger] f.block_usable(b),
    ensures
        f.regular(a),
{
    assert forall|b: int| 0 <= b < f.blocks@.len() implies (#[trigger] f.blocks@[b]).nonsingular(
        f.size(b),
    ) by {
        assert(f.block_usable(b));
        assert forall|c: int| 0 <= c < f.size(b) implies #[trigger] f.blocks@[b].d@[c] != T::zero_spec() by {
            T::zero_test(f.blocks@[b].d@[c]);
            assert(usable(f.blocks@[b].d@[c]));
        }
    }
}

/// The largest magnitude of a row is zero or that of an entry.
proof fn row_max_is_attained<T: Scalar>(a: GeneralCsc<T>, i: int, k: int)
    ensures
        row_max(a, i, k) == <T::Real as Real>::zero_spec() || exists|q: int| #[trigger]
            a.values@[q].magnitude_spec() == row_max(a, i, k),
    decreases k,
{
    if k > 0 {
        row_max_is_attained(a, i, k - 1);
        let v = a.values@[k - 1].magnitude_spec();
    }
}

/// No scale factor is zero.
pub proof fn scales_are_units<T: Field>(f: KluFactors<T>, a: GeneralCsc<T>, i: int)
    requires
        f.holds(a),
        0 <= i < a.n,
    ensures
        f.scale(i) != T::zero_spec(),
{
    let len = a.row_idx@.len() as int;
    let m = row_max(a, i, len);
    row_max_is_attained(a, i, len);
    T::scale_is_unit(T::zero_spec());
    <T::Real as Real>::gt_irreflexive(<T::Real as Real>::zero_spec());
    if m != <T::Real as Real>::zero_spec() {
        let q = choose|q: int| #[trigger] a.values@[q].magnitude_spec() == m;
        T::scale_is_unit(a.values@[q]);
    }
    assert(f.rs_inv@[i] == row_scales(a, f.scaled)[i]);
    if f.scaled {
        assert(f.rs_inv@[i] == scale_of(m));
    }
}

// ---------------------------------------------------------------------------
// The matrix by blocks
// ---------------------------------------------------------------------------
/// Inside block `b` the scaled matrix is what the block columns hold.
pub proof fn entry_in_block<T: Field>(
    f: KluFactors<T>,
    a: GeneralCsc<T>,
    b: int,
    cols: Seq<SparseColumn<T>>,
    r: int,
    c: int,
)
    requires
        f.wf(),
        a.wf(),
        f.fits(a),
        0 <= b < f.blocks@.len(),
        f.columns_of(a, b, cols),
        0 <= r < f.size(b),
        0 <= c < f.size(b),
    ensures
        entry(cols[c]@, r) == f.scaled_at(a, f.start(b) + r, f.start(b) + c),
{
    block_range(f.n as int, f.block_ptr@, b);
    let bs = f.start(b);
    assert(f.col_perm@[bs + c] < f.n);
    split_entry(
        a,
        f.rs_inv@,
        f.pre_row_perm@,
        f.pinv@,
        f.col_perm@[bs + c] as int,
        bs,
        f.block_ptr@[b + 1] as int,
        cols[c],
        r,
    );
    times_zero(f.scale(f.pre_row_perm@[bs + r] as int));
}

/// Above block `b` the scaled matrix is what the kept entries hold.
pub proof fn entry_above<T: Field>(f: KluFactors<T>, a: GeneralCsc<T>, b: int, p: int, j: int)
    requires
        f.wf(),
        a.wf(),
        f.fits(a),
        f.holds(a),
        in_block(f.block_ptr@, b, j),
        0 <= p < f.start(b),
    ensures
        entry(f.off@[j]@, p) == f.scaled_at(a, p, j),
{
    block_range(f.n as int, f.block_ptr@, b);
    assert(f.off_valued(a, b));
    assert(f.col_perm@[j] < f.n);
    split_entry(
        a,
        f.rs_inv@,
        f.pre_row_perm@,
        f.pinv@,
        f.col_perm@[j] as int,
        0,
        f.start(b),
        f.off@[j],
        p,
    );
    times_zero(f.scale(f.pre_row_perm@[p] as int));
}

/// The entries above block `b` are zero at and below its start.
proof fn nothing_kept_inside<T: Field>(f: KluFactors<T>, b: int, p: int, j: int)
    requires
        f.wf(),
        in_block(f.block_ptr@, b, j),
        p >= f.start(b),
    ensures
        entry(f.off@[j]@, p) == T::zero_spec(),
{
    assert(0 <= b < f.blocks@.len());
    assert(f.off_wf(b));
    let rows = f.off@[j].rows@;
    if occurs(rows, p) {
        let q = position(rows, p);
        assert(rows[q] < f.start(b));
    }
}

/// Below block `b` the scaled matrix is zero.
pub proof fn entry_below<T: Field>(f: KluFactors<T>, a: GeneralCsc<T>, b: int, p: int, j: int)
    requires
        f.wf(),
        a.wf(),
        f.fits(a),
        in_block(f.block_ptr@, b, j),
        f.block_ptr@[b + 1] <= p < f.n,
    ensures
        f.scaled_at(a, p, j) == T::zero_spec(),
{
    block_range(f.n as int, f.block_ptr@, b);
    assert(f.block_upper(b));
    let c = f.col_perm@[j] as int;
    let i = f.pre_row_perm@[p] as int;
    assert(f.col_perm@[j] < f.n);
    assert(a.rows_of(c) == f.rows_at(c));
    if occurs(a.rows_of(c), i) {
        assert(occurs(f.rows_at(f.col_perm@[j] as int), i));
        assert(f.pinv@[f.pre_row_perm@[p] as int] == p);
    }
    times_zero(f.scale(i));
}

// ---------------------------------------------------------------------------
// Solves
// ---------------------------------------------------------------------------
/// What lifting takes away from a row.
proof fn lifted_balance<T: Field>(
    f: KluFactors<T>,
    w: Seq<T>,
    bs: int,
    z: Seq<T>,
    k: int,
    p: int,
)
    requires
        0 <= p < w.len(),
        0 <= k,
    ensures
        f.lifted(w, bs, z, k).len() == w.len(),
        w[p] == f.lifted(w, bs, z, k)[p].plus_spec(
            sum(k as nat, |c: int| entry(f.off@[bs + c]@, p).times_spec(z[c])),
        ),
    decreases k,
{
    let g = |c: int| entry(f.off@[bs + c]@, p).times_spec(z[c]);
    if k == 0 {
        T::plus_zero(w[p]);
    } else {
        lifted_balance(f, w, bs, z, k - 1, p);
        let v = f.lifted(w, bs, z, k - 1);
        spread_is_subtraction(v, f.off@[bs + k - 1]@, z[k - 1], p);
        let u = f.lifted(w, bs, z, k);
        let s = sum((k - 1) as nat, g);
        T::plus_assoc(u[p], g(k - 1), s);
        T::plus_comm(g(k - 1), s);
    }
}

/// The vectors of a solve have the right length.
proof fn solved_lengths<T: Scalar>(f: KluFactors<T>, w: Seq<T>, b: int)
    requires
        f.wf(),
        w.len() == f.n,
        0 <= b <= f.nb(),
    ensures
        f.solved_from(w, b).0.len() == f.n,
        f.solved_from(w, b).1.len() == f.n - f.start(b),
    decreases f.nb() - b,
{
    if b < f.nb() {
        solved_lengths(f, w, b + 1);
        block_range(f.n as int, f.block_ptr@, b);
        assert(f.block_covers(b));
        let (v, z) = f.solved_from(w, b + 1);
        let bs = f.start(b);
        let part = v.subrange(bs, bs + f.size(b));
        crate::klu::laws::solution_len(f.blocks@[b], f.size(b), part);
        lifted_len(f, v, bs, f.blocks@[b].solution(part), f.size(b));
    }
}

proof fn lifted_len<T: Scalar>(
    f: KluFactors<T>,
    w: Seq<T>,
    bs: int,
    z: Seq<T>,
    k: int,
)
    ensures
        f.lifted(w, bs, z, k).len() == w.len(),
    decreases k,
{
    if k > 0 {
        lifted_len(f, w, bs, z, k - 1);
    }
}

/// After the blocks `b..` every row is balanced: the unknowns found so far
/// account for what was taken from it, and for all of it from block `b` on.
proof fn solve_balance<T: Field>(
    f: KluFactors<T>,
    a: GeneralCsc<T>,
    w: Seq<T>,
    b: int,
    p: int,
)
    requires
        f.regular(a),
        w.len() == f.n,
        0 <= b <= f.nb(),
        0 <= p < f.n,
    ensures
        ({
            let (v, z) = f.solved_from(w, b);
            let s = sum(
                (f.n - f.start(b)) as nat,
                |i: int| f.scaled_at(a, p, f.start(b) + i).times_spec(z[i]),
            );
            w[p] == (if p < f.start(b) {
                v[p].plus_spec(s)
            } else {
                s
            })
        }),
    decreases f.nb() - b,
{
    let n = f.n as int;
    let (v, z) = f.solved_from(w, b);
    let bs = f.start(b);
    let g = |i: int| f.scaled_at(a, p, bs + i).times_spec(z[i]);
    if b == f.nb() {
        assert(f.block_ptr@[b] == n);
        T::plus_zero(w[p]);
    } else {
        block_range(n, f.block_ptr@, b);
        solve_balance(f, a, w, b + 1, p);
        solved_lengths(f, w, b + 1);
        solved_lengths(f, w, b);
        let (v1, z1) = f.solved_from(w, b + 1);
        let m = f.size(b);
        let be = bs + m;
        let lu = f.blocks@[b];
        let part = v1.subrange(bs, be);
        let zb = lu.solution(part);
        assert(f.block_covers(b));
        assert(f.block_valued(a, b));
        let cols = choose|cols: Seq<SparseColumn<T>>| #[trigger]
            f.columns_of(a, b, cols) && lu.valued(m, m, cols);
        crate::klu::laws::solution_len(lu, m, part);
        assert(z == zb + z1);
        let g1 = |i: int| f.scaled_at(a, p, be + i).times_spec(z1[i]);
        let gb = |c: int| f.scaled_at(a, p, bs + c).times_spec(zb[c]);
        assert forall|i: int| 0 <= i < n - be implies #[trigger] g1(i) == g(m + i) by {
            assert(z[m + i] == z1[i]);
        }
        sum_split(m as nat, (n - be) as nat, g, g1);
        assert forall|c: int| 0 <= c < m implies #[trigger] g(c) == gb(c) by {
            assert(z[c] == zb[c]);
        }
        sum_ext(m as nat, g, gb);
        assert(m as nat + (n - be) as nat == (n - bs) as nat);
        let s1 = sum((n - be) as nat, g1);
        let sb = sum(m as nat, gb);
        assert(sum((n - bs) as nat, g) == sb.plus_spec(s1));
        if p >= be {
            assert forall|c: int| 0 <= c < m implies #[trigger] gb(c) == T::zero_spec() by {
                assert(in_block(f.block_ptr@, b, bs + c));
                entry_below(f, a, b, p, bs + c);
                times_zero(zb[c]);
            }
            sum_zero(m as nat, gb);
            zero_plus(s1);
        } else if p >= bs {
            let r = p - bs;
            assert(f.blocks@[b].nonsingular(m));
            substitution_solves_the_block(lu, m, cols, part, r);
            let h = |j: int| entry(cols[j]@, r).times_spec(zb[j]);
            assert forall|c: int| 0 <= c < m implies #[trigger] gb(c) == h(c) by {
                entry_in_block(f, a, b, cols, r, c);
            }
            sum_ext(m as nat, gb, h);
            assert(part[r] == v1[p]);
        } else {
            lifted_balance(f, v1, bs, zb, m, p);
            let h = |c: int| entry(f.off@[bs + c]@, p).times_spec(zb[c]);
            assert forall|c: int| 0 <= c < m implies #[trigger] gb(c) == h(c) by {
                assert(in_block(f.block_ptr@, b, bs + c));
                entry_above(f, a, b, p, bs + c);
            }
            sum_ext(m as nat, gb, h);
            T::plus_assoc(v[p], sb, s1);
        }
    }
}

/// A scale factor that is not zero may be cancelled.
proof fn unscale<T: Field>(x: T, y: T, s: T)
    requires
        s != T::zero_spec(),
        x.times_spec(s) == y.times_spec(s),
    ensures
        x == y,
{
    let one = T::one_spec();
    let i = one.over_spec(s);
    T::over_times(one, s);
    T::times_comm(s, i);
    T::times_assoc(x, s, i);
    T::times_assoc(y, s, i);
    T::times_one(x);
    T::times_one(y);
}

/// Solving with the factors of `A` solves `A x = b`.
pub proof fn solve_solves<T: Field>(
    f: KluFactors<T>,
    a: GeneralCsc<T>,
    b: Seq<T>,
    i: int,
)
    requires
        f.regular(a),
        b.len() == f.n,
        0 <= i < f.n,
    ensures
        b[i] == sum(f.n as nat, |c: int| a.at(i, c).times_spec(f.solution(b)[c])),
{
    let n = f.n as int;
    let w = f.permuted(b);
    let (v, z) = f.solved_from(w, 0);
    solved_lengths(f, w, 0);
    assert(f.start(0) == 0);
    permutation_is_onto(f.pre_row_perm@, n, i);
    let p = position(f.pre_row_perm@, i);
    assert(f.pre_row_perm@[p] == i);
    solve_balance(f, a, w, 0, p);
    let s = f.scale(i);
    let x = f.solution(b);
    let g = |j: int| f.scaled_at(a, p, 0 + j).times_spec(z[j]);
    let t = |c: int| a.at(i, c).times_spec(x[c]);
    let ts = |c: int| s.times_spec(t(c));
    assert forall|j: int| 0 <= j < n implies #[trigger] g(j) == ts(f.col_perm@[j] as int) by {
        let c = f.col_perm@[j] as int;
        assert(f.col_perm@[j] < n);
        let q = position(f.col_perm@, c);
        assert(f.col_perm@[q] == c);
        if q < j {
            assert(f.col_perm@[q] != f.col_perm@[j]);
        } else if j < q {
            assert(f.col_perm@[j] != f.col_perm@[q]);
        }
        assert(x[c] == z[j]);
        let e = a.at(i, c);
        T::times_comm(e, s);
        T::times_assoc(s, e, z[j]);
    }
    sum_permuted(n as nat, f.col_perm@, ts, g);
    sum_scale(n as nat, s, t, ts);
    T::times_comm(s, sum(n as nat, t));
    scales_are_units(f, a, i);
    sum_ext(
        n as nat,
        g,
        |k: int| f.scaled_at(a, p, f.start(0) + k).times_spec(z[k]),
    );
    unscale(b[i], sum(n as nat, t), s);
}

/// A column of a batch has, bit for bit, the solution that it has alone.
pub proof fn batch_solves_alike<T: Scalar>(
    f: KluFactors<T>,
    b: Seq<T>,
    nrhs: int,
    x: Seq<T>,
    c: int,
    y: Seq<T>,
)
    requires
        b.len() == f.n * nrhs,
        f.solves_columns(b, nrhs, x),
        0 <= c < nrhs,
        y == f.solution(b.subrange(column_start(f.n as int, c), column_start(f.n as int, c + 1))),
    ensures
        x.subrange(column_start(f.n as int, c), column_start(f.n as int, c + 1)) == y,
{
    let n = f.n as int;
    column_bounds(n, c, nrhs);
    let part = x.subrange(column_start(n, c), column_start(n, c + 1));
    assert forall|i: int| 0 <= i < n implies #[trigger] part[i] == y[i] by {
        assert(f.solved_column(b, c)[i] == y[i]);
    }
    assert(part =~= y);
}

// ---------------------------------------------------------------------------
// The transposed system
// ---------------------------------------------------------------------------
proof fn transposed_len<T: Scalar>(f: KluFactors<T>, rhs: Seq<T>, k: int)
    requires
        f.wf(),
        0 <= k <= f.nb(),
    ensures
        f.transposed_upto(rhs, k).len() == f.start(k),
    decreases k,
{
    if k > 0 {
        transposed_len(f, rhs, k - 1);
        block_range(f.n as int, f.block_ptr@, k - 1);
    }
}

/// Later blocks do not change the unknowns of earlier ones.
proof fn transposed_keeps<T: Scalar>(f: KluFactors<T>, rhs: Seq<T>, k: int, k2: int, p: int)
    requires
        f.wf(),
        0 <= k <= k2 <= f.nb(),
        0 <= p < f.start(k),
    ensures
        f.transposed_upto(rhs, k2)[p] == f.transposed_upto(rhs, k)[p],
    decreases k2,
{
    if k < k2 {
        transposed_keeps(f, rhs, k, k2 - 1, p);
        transposed_len(f, rhs, k2 - 1);
        if k < k2 - 1 {
            assert(f.block_ptr@[k] < f.block_ptr@[k2 - 1]);
        }
    }
}

/// Column `j` of the transposed substitution is balanced.
proof fn transposed_balance<T: Field>(
    f: KluFactors<T>,
    a: GeneralCsc<T>,
    rhs: Seq<T>,
    b: int,
    c: int,
)
    requires
        f.regular(a),
        rhs.len() == f.n,
        0 <= b < f.nb(),
        0 <= c < f.size(b),
    ensures
        rhs[f.col_perm@[f.start(b) + c] as int] == sum(
            f.n as nat,
            |p: int|
                f.scaled_at(a, p, f.start(b) + c).times_spec(f.transposed_upto(rhs, f.nb())[p]),
        ),
{
    let n = f.n as int;
    block_range(n, f.block_ptr@, b);
    let bs = f.start(b);
    let m = f.size(b);
    let be = bs + m;
    let j = bs + c;
    let lu = f.blocks@[b];
    let yy = f.transposed_upto(rhs, f.nb());
    let y = f.transposed_upto(rhs, b);
    transposed_len(f, rhs, b);
    transposed_len(f, rhs, b + 1);
    transposed_len(f, rhs, f.nb());
    assert(f.block_covers(b));
    assert(f.off_wf(b));
    assert(in_block(f.block_ptr@, b, j));
    let tr = f.transposed_rhs(rhs, y, b);
    let t = lu.transposed_solution(tr);
    assert(f.block_valued(a, b));
    let cols = choose|cols: Seq<SparseColumn<T>>| #[trigger]
        f.columns_of(a, b, cols) && lu.valued(m, m, cols);
    assert(f.blocks@[b].nonsingular(m));
    substitution_solves_the_transposed_block(lu, m, cols, tr, c);
    // The three parts of the sum: earlier blocks, this block, later blocks.
    let g = |p: int| f.scaled_at(a, p, j).times_spec(yy[p]);
    let g2 = |i: int| g(bs + i);
    let mid = |r: int| g2(r);
    let late = |i: int| g2(m + i);
    sum_split(bs as nat, (n - bs) as nat, g, g2);
    sum_split(m as nat, (n - be) as nat, g2, late);
    assert(bs as nat + (n - bs) as nat == n as nat);
    assert(m as nat + (n - be) as nat == (n - bs) as nat);
    // Later blocks.
    assert forall|i: int| 0 <= i < n - be implies #[trigger] late(i) == T::zero_spec() by {
        entry_below(f, a, b, be + i, j);
        times_zero(yy[be + i]);
        assert(bs + (m + i) == be + i);
    }
    sum_zero((n - be) as nat, late);
    // This block.
    let h = |r: int| entry(cols[c]@, r).times_spec(t[lu.fin@[r] as int]);
    assert forall|r: int| 0 <= r < m implies #[trigger] g2(r) == h(r) by {
        entry_in_block(f, a, b, cols, r, c);
        transposed_keeps(f, rhs, b + 1, f.nb(), bs + r);
        assert(f.transposed_upto(rhs, b + 1)[bs + r] == t[lu.fin@[r] as int]);
    }
    sum_ext(m as nat, g2, h);
    T::plus_zero(sum(m as nat, g2));
    // Earlier blocks.
    let off = f.off@[j];
    assert(off.wf(bs));
    let at = |p: int| y[p];
    gather_takes_the_column(bs as nat, rhs[f.col_perm@[j] as int], off.rows@, off.vals@, at);
    let e = |p: int| entry(off@, p).times_spec(at(p));
    assert forall|p: int| 0 <= p < bs implies #[trigger] g(p) == e(p) by {
        entry_above(f, a, b, p, j);
        transposed_keeps(f, rhs, b, f.nb(), p);
    }
    sum_ext(bs as nat, g, e);
    sum_ext(bs as nat, e, |p: int| entry(crate::sparse::col_map(off.rows@, off.vals@), p).times_spec(at(p)));
    T::plus_comm(tr[c], sum(bs as nat, e));
    sum_ext(
        n as nat,
        g,
        |p: int| f.scaled_at(a, p, f.start(b) + c).times_spec(f.transposed_upto(rhs, f.nb())[p]),
    );
}

/// Solving with the transposed factors of `A` solves `A^T x = b`.
pub proof fn transposed_solve_solves<T: Field>(
    f: KluFactors<T>,
    a: GeneralCsc<T>,
    b: Seq<T>,
    c: int,
)
    requires
        f.regular(a),
        b.len() == f.n,
        0 <= c < f.n,
    ensures
        b[c] == sum(f.n as nat, |i: int| a.at(i, c).times_spec(f.transposed_solution(b)[i])),
{
    let n = f.n as int;
    permutation_is_onto(f.col_perm@, n, c);
    let j = position(f.col_perm@, c);
    assert(f.col_perm@[j] == c);
    let blk = block_of(n, f.block_ptr@, j);
    block_range(n, f.block_ptr@, blk);
    let k = j - f.start(blk);
    transposed_balance(f, a, b, blk, k);
    let y = f.transposed_upto(b, f.nb());
    let x = f.transposed_solution(b);
    let g = |p: int| f.scaled_at(a, p, f.start(blk) + k).times_spec(y[p]);
    let t = |i: int| a.at(i, c).times_spec(x[i]);
    assert forall|p: int| 0 <= p < n implies #[trigger] g(p) == t(f.pre_row_perm@[p] as int) by {
        let i = f.pre_row_perm@[p] as int;
        assert(f.pre_row_perm@[p] < n);
        let q = position(f.pre_row_perm@, i);
        assert(f.pre_row_perm@[q] == i);
        if q < p {
            assert(f.pre_row_perm@[q] != f.pre_row_perm@[p]);
        } else if p < q {
            assert(f.pre_row_perm@[p] != f.pre_row_perm@[q]);
        }
        let e = a.at(i, c);
        let s = f.scale(i);
        assert(x[i] == y[p].times_spec(s));
        T::times_assoc(e, s, y[p]);
        T::times_comm(s, y[p]);
    }
    sum_permuted(n as nat, f.pre_row_perm@, t, g);
}

// ---------------------------------------------------------------------------
// The exported factors
// ---------------------------------------------------------------------------
/// The exported factors reproduce the matrix: `P_r R A P_c = L U + F`.
pub proof fn exports_reproduce_the_matrix<T: Field>(
    f: KluFactors<T>,
    a: GeneralCsc<T>,
    i: int,
    j: int,
)
    requires
        f.regular(a),
        0 <= i < f.n,
        0 <= j < f.n,
    ensures
        a.at(f.final_row(i), f.col_perm@[j] as int).times_spec(f.scale(f.final_row(i))) == sum(
            f.n as nat,
            |k: int|
                entry(f.lower_column(k), i).times_spec(entry(f.upper_column(j), k)),
        ).plus_spec(entry(f.above_column(j), i)),
{
    let n = f.n as int;
    let b1 = block_of(n, f.block_ptr@, i);
    let b = block_of(n, f.block_ptr@, j);
    f.block_at_is(b1, i);
    f.block_at_is(b, j);
    f.positions_invert(i);
    let p = f.pre_pos(i);
    assert(in_block(f.block_ptr@, b1, p)) by {
        assert(f.block_covers(b1));
        f.blocks@[b1].rows_in_range(f.size(b1), i - f.start(b1));
    }
    let bs = f.start(b);
    let m = f.size(b);
    let be = bs + m;
    let c = j - bs;
    let lu = f.blocks@[b];
    assert(f.block_covers(b));
    let g = |k: int| entry(f.lower_column(k), i).times_spec(entry(f.upper_column(j), k));
    assert(entry(f.above_column(j), i) == entry(f.off@[j]@, p));
    if b1 == b {
        assert(f.block_valued(a, b));
        let cols = choose|cols: Seq<SparseColumn<T>>| #[trigger]
            f.columns_of(a, b, cols) && lu.valued(m, m, cols);
        let r = lu.piv@[i - bs] as int;
        lu.rows_in_range(m, i - bs);
        assert(f.blocks@[b].nonsingular(m));
        factors_multiply_to_the_block(lu, m, cols, r, c);
        entry_in_block(f, a, b, cols, r, c);
        nothing_kept_inside(f, b, p, j);
        let g2 = |q: int| g(bs + q);
        let late = |q: int| g2(m + q);
        sum_split(bs as nat, (n - bs) as nat, g, g2);
        sum_split(m as nat, (n - be) as nat, g2, late);
        assert(bs as nat + (n - bs) as nat == n as nat);
        assert(m as nat + (n - be) as nat == (n - bs) as nat);
        assert forall|k: int| 0 <= k < bs implies #[trigger] g(k) == T::zero_spec() by {
            assert(!f.upper_column(j).contains_key(k));
            times_zero(entry(f.lower_column(k), i));
        }
        sum_zero(bs as nat, g);
        assert forall|q: int| 0 <= q < n - be implies #[trigger] late(q) == T::zero_spec() by {
            assert(!f.upper_column(j).contains_key(bs + (m + q)));
            times_zero(entry(f.lower_column(bs + (m + q)), i));
        }
        sum_zero((n - be) as nat, late);
        let h = |k: int| lu.l_at(r, k).times_spec(lu.u_at(k, c));
        assert forall|k: int| 0 <= k < m implies #[trigger] g2(k) == h(k) by {
            assert(in_block(f.block_ptr@, b, bs + k));
            f.block_at_is(b, bs + k);
            assert(lu.fin@[lu.piv@[i - bs] as int] == i - bs);
            lu.rows_in_range(m, k);
            if i != bs + k {
                assert(f.lower_column(bs + k).contains_key(i) <==> lu.lm()[k].contains_key(r));
            }
            if k != c {
                assert(f.upper_column(j).contains_key(bs + k) <==> lu.um()[c].contains_key(k));
            }
        }
        sum_ext(m as nat, g2, h);
        T::plus_zero(sum(m as nat, g2));
        zero_plus(sum(m as nat, g2));
        T::plus_zero(sum(n as nat, g));
    } else {
        assert forall|k: int| 0 <= k < n implies #[trigger] g(k) == T::zero_spec() by {
            if f.upper_column(j).contains_key(k) {
                assert(in_block(f.block_ptr@, b, k));
                f.block_at_is(b, k);
                if f.lower_column(k).contains_key(i) {
                    assert(in_block(f.block_ptr@, b, i));
                    f.block_at_is(b, i);
                }
                times_zero(entry(f.upper_column(j), k));
            } else {
                times_zero(entry(f.lower_column(k), i));
            }
        }
        sum_zero(n as nat, g);
        block_order(n, f.block_ptr@, b1, b, p, j);
        zero_plus(entry(f.off@[j]@, p));
        if b1 < b {
            entry_above(f, a, b, p, j);
        } else {
            block_order(n, f.block_ptr@, b, b1, j, p);
            assert(f.block_ptr@[b + 1] <= p) by {
                if b + 1 < b1 {
                    assert(f.block_ptr@[b + 1] < f.block_ptr@[b1]);
                }
            }
            entry_below(f, a, b, p, j);
            nothing_kept_inside(f, b, p, j);
        }
    }
    sum_ext(
        n as nat,
        g,
        |k: int| entry(f.lower_column(k), i).times_spec(entry(f.upper_column(j), k)),
    );
}

// ---------------------------------------------------------------------------
// Refactorization
// ---------------------------------------------------------------------------
/// The values of a factorization are determined by the matrix and the frozen
/// pattern: refactoring with the values that were factored changes nothing.
pub proof fn refactoring_reproduces<T: Scalar>(
    f: KluFactors<T>,
    g: KluFactors<T>,
    a: GeneralCsc<T>,
)
    requires
        f.wf(),
        g.wf(),
        a.wf(),
        same_frame(g, f),
        f.fits(a),
        f.holds(a),
        g.holds(a),
    ensures
        f.rs_inv@ == g.rs_inv@,
        forall|b: int, c: int|
            0 <= b < f.nb() && 0 <= c < f.size(b) ==> {
                &&& #[trigger] f.blocks@[b].d@[c] == g.blocks@[b].d@[c]
                &&& f.blocks@[b].l_vals@[c]@ == g.blocks@[b].l_vals@[c]@
                &&& f.blocks@[b].u_vals@[c]@ == g.blocks@[b].u_vals@[c]@
            },
        forall|j: int|
            0 <= j < f.n ==> (#[trigger] f.off@[j]).rows@ == g.off@[j].rows@ && f.off@[j].vals@
                == g.off@[j].vals@,
{
    assert forall|b: int, c: int| 0 <= b < f.nb() && 0 <= c < f.size(b) implies {
        &&& #[trigger] f.blocks@[b].d@[c] == g.blocks@[b].d@[c]
        &&& f.blocks@[b].l_vals@[c]@ == g.blocks@[b].l_vals@[c]@
        &&& f.blocks@[b].u_vals@[c]@ == g.blocks@[b].u_vals@[c]@
    } by {
        let m = f.size(b);
        block_range(f.n as int, f.block_ptr@, b);
        let x = f.blocks@[b];
        let y = g.blocks@[b];
        assert(f.block_valued(a, b));
        assert(g.block_valued(a, b));
        let c1 = choose|cols: Seq<SparseColumn<T>>| #[trigger]
            f.columns_of(a, b, cols) && x.valued(m, m, cols);
        let c2 = choose|cols: Seq<SparseColumn<T>>| #[trigger]
            g.columns_of(a, b, cols) && y.valued(m, m, cols);
        assert(f.columns_of(a, b, c2));
        assert(f.block_covers(b));
        assert(g.block_covers(b));
        block_structure(f, a, b, c1);
        block_structure(g, a, b, c2);
        block_structure(f, a, b, c2);
        assert(y.structured(m, m, c1)) by {
            assert forall|k: int| 0 <= k < m implies covers(
                k,
                y.fin@,
                y.l_rows@,
                #[trigger] y.u_rows@[k]@,
                c1[k].rows@,
            ) by {
                same_columns(f, a, b, c1, c2, k);
                assert(covers(k, y.fin@, y.l_rows@, y.u_rows@[k]@, c2[k].rows@));
            }
        }
        assert(y.valued(m, m, c1)) by {
            assert forall|k: int| 0 <= k < m implies column_ok(
                m,
                k,
                #[trigger] c1[k]@,
                y.piv@,
                y.lm(),
                y.u_rows@[k]@,
                y.u_vals@[k]@,
                y.d@[k],
            ) by {
                same_columns(f, a, b, c1, c2, k);
                assert(column_ok(
                    m,
                    k,
                    c2[k]@,
                    y.piv@,
                    y.lm(),
                    y.u_rows@[k]@,
                    y.u_vals@[k]@,
                    y.d@[k],
                ));
            }
        }
        assert(same_pattern(y, x));
        values_are_determined(x, y, m, c1, m);
        assert(x.lm()[c] == y.lm()[c]);
        assert(x.u_vals@[c]@ == y.u_vals@[c]@);
        assert(x.l_vals@[c]@ == y.l_vals@[c]@);
    }
    assert forall|j: int| 0 <= j < f.n implies (#[trigger] f.off@[j]).rows@ == g.off@[j].rows@
        && f.off@[j].vals@ == g.off@[j].vals@ by {
        let b = block_of(f.n as int, f.block_ptr@, j);
        assert(0 <= b < f.blocks@.len());
        assert(f.off_valued(a, b));
        assert(g.off_valued(a, b));
        assert(in_block(g.block_ptr@, b, j));
        assert(f.off@[j].rows@ =~= g.off@[j].rows@);
        assert(f.off@[j].vals@ =~= g.off@[j].vals@);
    }
}

/// After a refactorization with new values, the solves solve the new system and
/// its transpose.
pub proof fn refactored_solves<T: Field>(f: KluFactors<T>, a: GeneralCsc<T>, b: Seq<T>, i: int)
    requires
        f.wf(),
        a.wf(),
        f.fits(a),
        f.holds(a),
        forall|k: int| 0 <= k < f.blocks@.len() ==> #[trigger] f.block_usable(k),
        b.len() == f.n,
        0 <= i < f.n,
    ensures
        b[i] == sum(f.n as nat, |c: int| a.at(i, c).times_spec(f.solution(b)[c])),
        b[i] == sum(f.n as nat, |r: int| a.at(r, i).times_spec(f.transposed_solution(b)[r])),
{
    usable_is_regular(f, a);
    solve_solves(f, a, b, i);
    transposed_solve_solves(f, a, b, i);
}

} // verus!
