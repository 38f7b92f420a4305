//! What one front adds to the whole: its product, what it hands over, and what
//! went into it.

use crate::algebra::{sum, sum_exchange, sum_ext, sum_zero, times_zero};
use crate::multifrontal::assembly::{cells_from_front, place_is};
use crate::multifrontal::export::{l_entry, pivot_rows};
use crate::multifrontal::kernel::{
    cell, BunchKaufmanParams, DiagonalKernel, FrontKernel, FrontalFactors,
};
use crate::multifrontal::model::{
    base_at, contrib_at, delayed_in, delayed_start, front_at, front_layout, front_rows_distinct,
    kids_ok, last_col, own_start, owns, ContribBlock,
};
use crate::multifrontal::node::{front_of, made_from, stripped, FrontJob, NodeFactors};
use crate::multifrontal::permute::is_lower;
use crate::scalar::{Field, Scalar};
use crate::seqs::{distinct, is_permutation, occurs, permutation_is_onto};
use crate::sparse::{position, GeneralCsc};
use vstd::prelude::*;

verus! {

/// Entry `(g, h)` of the scaled matrix whose lower triangle is `a`.
pub open spec fn scaled_entry<T: Scalar>(a: GeneralCsc<T>, scaling: Seq<T>, g: int, h: int) -> T {
    let lo = if g < h {
        g
    } else {
        h
    };
    let hi = if g < h {
        h
    } else {
        g
    };
    if a.col(lo).contains_key(hi) {
        a.col(lo)[hi].times_spec(scaling[hi]).times_spec(scaling[lo])
    } else {
        T::zero_spec()
    }
}

/// Entry `(g, h)` of `L D L^T` for the pivots of one node.
pub open spec fn node_term<T: Scalar>(node: NodeFactors<T>, g: int, h: int) -> T {
    sum(
        node.nelim as nat,
        |e: int|
            sum(
                node.nelim as nat,
                |f: int|
                    l_entry(node, g, e).times_spec(node.frontal_factors.d_at(e, f)).times_spec(
                        l_entry(node, h, f),
                    ),
            ),
    )
}

/// Entry `(g, h)` of what a supernode hands over.
pub open spec fn handed_entry<T: Scalar>(block: Option<ContribBlock<T>>, g: int, h: int) -> T {
    match block {
        Some(b) => if occurs(b.row_indices@, g) && occurs(b.row_indices@, h) {
            contrib_at(b, g, h)
        } else {
            T::zero_spec()
        },
        None => T::zero_spec(),
    }
}

/// The kernel loses nothing: a front is the product plus what is left, and no 2
/// by 2 pivot hangs over its end.
pub open spec fn is_exact<T: Scalar>(front: Seq<T>, ff: FrontalFactors<T>) -> bool {
    &&& ff.splits(front)
    &&& ff.nelim > 0 ==> ff.d_subdiag@[ff.nelim - 1] == T::zero_spec()
}

/// Every front that the kernel factors, it factors exactly.
pub open spec fn exact_kernel<T: Scalar, K: FrontKernel<T>>(kernel: K) -> bool {
    forall|
        front: Seq<T>,
        nrow: int,
        ncol: int,
        may_delay: bool,
        bk: BunchKaufmanParams<T::Real>,
        ff: FrontalFactors<T>,
    |
        ff.shaped(nrow, ncol) && #[trigger] kernel.eliminates(
            front,
            nrow,
            ncol,
            may_delay,
            bk,
            ff,
        ) ==> is_exact(front, ff)
}

/// The diagonal kernel is exact.
pub proof fn diagonal_kernel_is_exact<T: Field>()
    ensures
        exact_kernel::<T, DiagonalKernel>(DiagonalKernel),
{
    assert forall|
        front: Seq<T>,
        nrow: int,
        ncol: int,
        may_delay: bool,
        bk: BunchKaufmanParams<T::Real>,
        ff: FrontalFactors<T>,
    |
        ff.shaped(nrow, ncol) && #[trigger] DiagonalKernel.eliminates(
            front,
            nrow,
            ncol,
            may_delay,
            bk,
            ff,
        ) implies is_exact(front, ff) by {
        crate::multifrontal::diagonal::diagonal_kernel_splits(front, nrow, ncol, ff);
    }
}

/// `L D L^T` is symmetric.
pub proof fn product_symmetric<T: Field>(ff: FrontalFactors<T>, i: int, j: int)
    ensures
        ff.product_at(i, j) == ff.product_at(j, i),
{
    let n = ff.nelim as nat;
    let at = |e: int, f: int|
        ff.l_at(i, e).times_spec(ff.d_at(e, f)).times_spec(ff.l_at(j, f));
    let rows = |e: int|
        sum(n, |f: int| ff.l_at(i, e).times_spec(ff.d_at(e, f)).times_spec(ff.l_at(j, f)));
    let cols = |f: int| sum(n, |e: int| at(e, f));
    assert forall|e: int| 0 <= e < n implies #[trigger] rows(e) == sum(n, |f: int| at(e, f)) by {
        sum_ext(
            n,
            |f: int| ff.l_at(i, e).times_spec(ff.d_at(e, f)).times_spec(ff.l_at(j, f)),
            |f: int| at(e, f),
        );
    }
    sum_exchange(n, n, at, rows, cols);
    let turned = |e: int|
        sum(n, |f: int| ff.l_at(j, e).times_spec(ff.d_at(e, f)).times_spec(ff.l_at(i, f)));
    assert forall|e: int| 0 <= e < n implies #[trigger] cols(e) == turned(e) by {
        let x = |f: int| at(f, e);
        let y = |f: int| ff.l_at(j, e).times_spec(ff.d_at(e, f)).times_spec(ff.l_at(i, f));
        assert forall|f: int| 0 <= f < n implies #[trigger] x(f) == y(f) by {
            let a = ff.l_at(i, f);
            let b = ff.d_at(f, e);
            let c = ff.l_at(j, e);
            assert(ff.d_at(e, f) == b);
            T::times_comm(a.times_spec(b), c);
            T::times_comm(a, b);
            T::times_assoc(c, b, a);
        }
        sum_ext(n, x, y);
    }
    sum_ext(n, cols, turned);
}

/// The rows of a node in pivot order are its rows.
pub proof fn pivot_rows_same<T: Scalar>(node: NodeFactors<T>, g: int)
    requires
        node.row_indices@.len() == node.nrow,
        distinct(node.row_indices@),
        is_permutation(node.frontal_factors.perm@, node.nrow as int),
    ensures
        distinct(pivot_rows(node)),
        occurs(pivot_rows(node), g) <==> occurs(node.row_indices@, g),
{
    let p = node.frontal_factors.perm@;
    let rows = node.row_indices@;
    let prow = pivot_rows(node);
    assert forall|x: int, y: int| 0 <= x < y < prow.len() implies #[trigger] prow[x]
        != #[trigger] prow[y] by {
        assert(p[x] != p[y]);
        assert(p[x] < node.nrow && p[y] < node.nrow);
        if p[x] < p[y] {
            assert(rows[p[x] as int] != rows[p[y] as int]);
        } else {
            assert(rows[p[y] as int] != rows[p[x] as int]);
        }
    }
    if occurs(prow, g) {
        let i = position(prow, g);
        assert(prow[i] == g);
        assert(p[i] < node.nrow);
        assert(rows[p[i] as int] == g);
    }
    if occurs(rows, g) {
        let k = position(rows, g);
        assert(rows[k] == g);
        permutation_is_onto(p, node.nrow as int, k);
        assert(occurs(p, k));
        let i = position(p, k);
        assert(p[i] == k);
        assert(prow[i] == g);
    }
}

/// A row that is not in the front has no part in it.
pub proof fn outside_front<T: Field, K: FrontKernel<T>>(
    job: FrontJob<T>,
    kernel: K,
    s: int,
    cs: Seq<Option<ContribBlock<T>>>,
    nv: int,
    order: (int, bool, BunchKaufmanParams<T::Real>),
    ff: FrontalFactors<T>,
    node: NodeFactors<T>,
    block: Option<ContribBlock<T>>,
    g: int,
    h: int,
)
    requires
        made_from(job, kernel, s, cs, nv, order, ff, node, block),
        distinct(node.row_indices@),
        !occurs(node.row_indices@, g) || !occurs(node.row_indices@, h),
    ensures
        node_term(node, g, h) == T::zero_spec(),
        handed_entry(block, g, h) == T::zero_spec(),
{
    let n = node.nelim as nat;
    let zero = T::zero_spec();
    pivot_rows_same(node, g);
    pivot_rows_same(node, h);
    let outer = |e: int|
        sum(
            n,
            |f: int|
                l_entry(node, g, e).times_spec(node.frontal_factors.d_at(e, f)).times_spec(
                    l_entry(node, h, f),
                ),
        );
    assert forall|e: int| 0 <= e < n implies #[trigger] outer(e) == zero by {
        let inner = |f: int|
            l_entry(node, g, e).times_spec(node.frontal_factors.d_at(e, f)).times_spec(
                l_entry(node, h, f),
            );
        assert forall|f: int| 0 <= f < n implies #[trigger] inner(f) == zero by {
            let d = node.frontal_factors.d_at(e, f);
            let x = l_entry(node, g, e);
            let y = l_entry(node, h, f);
            if !occurs(node.row_indices@, g) {
                assert(x == zero);
                T::times_comm(zero, d);
                times_zero(d);
                T::times_comm(zero, y);
                times_zero(y);
            } else {
                assert(y == zero);
                times_zero(x.times_spec(d));
            }
        }
        sum_zero(n, inner);
    }
    sum_zero(n, outer);
    match block {
        Some(b) => {
            assert forall|r: int| occurs(b.row_indices@, r) implies occurs(
                node.row_indices@,
                r,
            ) by {
                let k = position(b.row_indices@, r);
                assert(b.row_indices@[k] == r);
                assert(ff.perm@[ff.nelim + k] < node.nrow);
                assert(node.row_indices@[ff.perm@[ff.nelim + k] as int] == r);
            }
        },
        None => {},
    }
}

/// The product of a node in rows of the matrix is that in pivot order.
pub proof fn term_is_product<T: Scalar>(node: NodeFactors<T>, g: int, h: int)
    requires
        node.nelim == node.frontal_factors.nelim,
        occurs(pivot_rows(node), g),
        occurs(pivot_rows(node), h),
    ensures
        node_term(node, g, h) == node.frontal_factors.product_at(
            position(pivot_rows(node), g),
            position(pivot_rows(node), h),
        ),
{
    let ff = node.frontal_factors;
    let i = position(pivot_rows(node), g);
    let j = position(pivot_rows(node), h);
    let n = node.nelim as nat;
    let outer = |e: int|
        sum(
            n,
            |f: int|
                l_entry(node, g, e).times_spec(node.frontal_factors.d_at(e, f)).times_spec(
                    l_entry(node, h, f),
                ),
        );
    let want = |e: int|
        sum(n, |f: int| ff.l_at(i, e).times_spec(ff.d_at(e, f)).times_spec(ff.l_at(j, f)));
    assert forall|e: int| 0 <= e < n implies #[trigger] outer(e) == want(e) by {
        sum_ext(
            n,
            |f: int|
                l_entry(node, g, e).times_spec(node.frontal_factors.d_at(e, f)).times_spec(
                    l_entry(node, h, f),
                ),
            |f: int| ff.l_at(i, e).times_spec(ff.d_at(e, f)).times_spec(ff.l_at(j, f)),
        );
    }
    sum_ext(n, outer, want);
}

/// What a front holds is what its pivots give back plus what it hands over.
pub proof fn front_splits<T: Field, K: FrontKernel<T>>(
    job: FrontJob<T>,
    kernel: K,
    s: int,
    cs: Seq<Option<ContribBlock<T>>>,
    nv: int,
    order: (int, bool, BunchKaufmanParams<T::Real>),
    ff: FrontalFactors<T>,
    node: NodeFactors<T>,
    block: Option<ContribBlock<T>>,
    front: Seq<T>,
    g: int,
    h: int,
)
    requires
        made_from(job, kernel, s, cs, nv, order, ff, node, block),
        distinct(node.row_indices@),
        ff.splits(front),
        occurs(node.row_indices@, g),
        occurs(node.row_indices@, h),
    ensures
        front[cell(
            node.nrow as int,
            position(node.row_indices@, g),
            position(node.row_indices@, h),
        )] == node_term(node, g, h).plus_spec(handed_entry(block, g, h)),
{
    let m = node.nrow as int;
    let rows = node.row_indices@;
    let prow = pivot_rows(node);
    let p = ff.perm@;
    pivot_rows_same(node, g);
    pivot_rows_same(node, h);
    let i = position(prow, g);
    let j = position(prow, h);
    assert(prow[i] == g && prow[j] == h);
    assert(p[i] < m && p[j] < m);
    place_is(rows, p[i] as int);
    place_is(rows, p[j] as int);
    assert(position(rows, g) == p[i]);
    assert(position(rows, h) == p[j]);
    term_is_product(node, g, h);
    product_stripped(node.frontal_factors, ff, i, j);
    match block {
        Some(b) => {
            let br = b.row_indices@;
            assert forall|k: int| 0 <= k < br.len() implies #[trigger] br[k] == prow[ff.nelim
                + k] by {}
            assert(distinct(br)) by {
                assert forall|x: int, y: int| 0 <= x < y < br.len() implies #[trigger] br[x]
                    != #[trigger] br[y] by {
                    assert(prow[ff.nelim + x] != prow[ff.nelim + y]);
                }
            }
            handed_place(br, prow, ff.nelim as int, g);
            handed_place(br, prow, ff.nelim as int, h);
        },
        None => {
            assert(ff.nelim == m);
        },
    }
    assert(handed_entry(block, g, h) == ff.rest_at(i, j));
    if j <= i {
        assert(ff.product_at(i, j) == ff.product_at(i, j));
    } else {
        product_symmetric(ff, i, j);
        assert(ff.rest_at(j, i) == ff.rest_at(i, j));
        assert(front[cell(m, p[j] as int, p[i] as int)] == ff.product_at(j, i).plus_spec(
            ff.rest_at(j, i),
        ));
    }
}

/// Without the contribution the product is the same.
proof fn product_stripped<T: Scalar>(
    stored: FrontalFactors<T>,
    ff: FrontalFactors<T>,
    i: int,
    j: int,
)
    requires
        stripped(stored, ff),
    ensures
        stored.product_at(i, j) == ff.product_at(i, j),
{
    let n = ff.nelim as nat;
    let x = |e: int|
        sum(
            n,
            |f: int|
                stored.l_at(i, e).times_spec(stored.d_at(e, f)).times_spec(stored.l_at(j, f)),
        );
    let y = |e: int|
        sum(n, |f: int| ff.l_at(i, e).times_spec(ff.d_at(e, f)).times_spec(ff.l_at(j, f)));
    assert forall|e: int| 0 <= e < n implies #[trigger] x(e) == y(e) by {
        sum_ext(
            n,
            |f: int|
                stored.l_at(i, e).times_spec(stored.d_at(e, f)).times_spec(stored.l_at(j, f)),
            |f: int| ff.l_at(i, e).times_spec(ff.d_at(e, f)).times_spec(ff.l_at(j, f)),
        );
    }
    sum_ext(n, x, y);
}

/// Where a row of the front stands among those handed over.
proof fn handed_place(br: Seq<usize>, prow: Seq<usize>, nelim: int, g: int)
    requires
        distinct(prow),
        distinct(br),
        occurs(prow, g),
        0 <= nelim,
        br.len() == prow.len() - nelim,
        forall|k: int| 0 <= k < br.len() ==> #[trigger] br[k] == prow[nelim + k],
    ensures
        occurs(br, g) <==> position(prow, g) >= nelim,
        occurs(br, g) ==> position(br, g) == position(prow, g) - nelim,
{
    let i = position(prow, g);
    assert(prow[i] == g);
    if i >= nelim {
        assert(br[i - nelim] == g);
        place_is(br, i - nelim);
    }
    if occurs(br, g) {
        let k = position(br, g);
        assert(br[k] == g);
        assert(prow[nelim + k] == g);
        place_is(prow, nelim + k);
    }
}

/// The contributions of the first `k` children.
pub open spec fn kid_sum<T: Scalar>(
    kids: Seq<usize>,
    cs: Seq<Option<ContribBlock<T>>>,
    g: int,
    h: int,
    k: int,
) -> T
    decreases k,
{
    if k <= 0 {
        T::zero_spec()
    } else {
        kid_sum(kids, cs, g, h, k - 1).plus_spec(handed_entry(cs[kids[k - 1] as int], g, h))
    }
}

/// A front holds its own entries plus the contributions.
proof fn front_is_sum<T: Field>(
    a: GeneralCsc<T>,
    scaling: Seq<T>,
    rows: Seq<usize>,
    lo: int,
    hi: int,
    kids: Seq<usize>,
    cs: Seq<Option<ContribBlock<T>>>,
    k: int,
    i: int,
    j: int,
)
    requires
        0 <= k,
    ensures
        front_at(a, scaling, rows, lo, hi, kids, cs, k, i, j) == base_at(
            a,
            scaling,
            rows,
            lo,
            hi,
            i,
            j,
        ).plus_spec(kid_sum(kids, cs, rows[i] as int, rows[j] as int, k)),
    decreases k,
{
    let base = base_at(a, scaling, rows, lo, hi, i, j);
    let g = rows[i] as int;
    let h = rows[j] as int;
    if k <= 0 {
        T::plus_zero(base);
    } else {
        front_is_sum(a, scaling, rows, lo, hi, kids, cs, k - 1, i, j);
        let before = kid_sum(kids, cs, g, h, k - 1);
        let x = handed_entry(cs[kids[k - 1] as int], g, h);
        T::plus_assoc(base, before, x);
        T::plus_zero(base.plus_spec(before));
        match cs[kids[k - 1] as int] {
            Some(b) => {
                if occurs(b.row_indices@, g) && occurs(b.row_indices@, h) {
                    T::zero_test(contrib_at(b, g, h));
                }
            },
            None => {},
        }
    }
}

/// A contribution is symmetric.
proof fn handed_symmetric<T: Scalar>(block: Option<ContribBlock<T>>, g: int, h: int)
    ensures
        handed_entry(block, g, h) == handed_entry(block, h, g),
{
}

proof fn kid_sum_symmetric<T: Scalar>(
    kids: Seq<usize>,
    cs: Seq<Option<ContribBlock<T>>>,
    g: int,
    h: int,
    k: int,
)
    ensures
        kid_sum(kids, cs, g, h, k) == kid_sum(kids, cs, h, g, k),
    decreases k,
{
    if k > 0 {
        kid_sum_symmetric(kids, cs, g, h, k - 1);
        handed_symmetric(cs[kids[k - 1] as int], g, h);
    }
}

/// What supernode `s` takes from the matrix for the pair `(g, h)`.
pub open spec fn own_entry<T: Scalar>(job: FrontJob<T>, s: int, g: int, h: int) -> T {
    let lo = if g < h {
        g
    } else {
        h
    };
    if owns(job.sn(), s, lo) {
        scaled_entry(*job.a, job.scaling@, g, h)
    } else {
        T::zero_spec()
    }
}

/// What a front holds for two of its rows: the entry of the matrix if the
/// supernode owns it, and the contributions of the children.
pub proof fn front_assembled<T: Field>(
    job: FrontJob<T>,
    s: int,
    cs: Seq<Option<ContribBlock<T>>>,
    swapped: bool,
    rows: Seq<usize>,
    g: int,
    h: int,
)
    requires
        job.wf(),
        0 <= s < job.sn().len(),
        kids_ok(job.sn(), job.sym.n as int, s, cs, job.sn()[s].children@.len() as int),
        front_layout(*job.sym, s, cs, swapped, rows),
        occurs(rows, g),
        occurs(rows, h),
    ensures
        front_of(job, s, cs, swapped, rows)[cell(
            rows.len() as int,
            position(rows, g),
            position(rows, h),
        )] == own_entry(job, s, g, h).plus_spec(
            kid_sum(job.sn()[s].children@, cs, g, h, job.sn()[s].children@.len() as int),
        ),
{
    let sn = job.sn();
    let m = rows.len() as int;
    let kids = sn[s].children@;
    let k = kids.len() as int;
    let ncol = sn[s].ncol as int;
    let lo = own_start(*job.sym, s, cs, swapped);
    front_rows_distinct(*job.sym, s, cs, swapped, rows);
    let x = position(rows, g);
    let y = position(rows, h);
    assert(rows[x] == g && rows[y] == h);
    let i = if x >= y {
        x
    } else {
        y
    };
    let j = if x >= y {
        y
    } else {
        x
    };
    let at = |i: int, j: int|
        front_at(*job.a, job.scaling@, rows, lo, lo + sn[s].ncol, kids, cs, k, i, j);
    cells_from_front(m, at);
    assert(front_of(job, s, cs, swapped, rows)[cell(m, i, j)] == at(i, j));
    assert(cell(m, x, y) == cell(m, i, j));
    front_is_sum(*job.a, job.scaling@, rows, lo, lo + ncol, kids, cs, k, i, j);
    kid_sum_symmetric(kids, cs, g, h, k);
    let gi = rows[i] as int;
    let hj = rows[j] as int;
    own_is_base(job, s, cs, swapped, rows, i, j);
    assert(own_entry(job, s, gi, hj) == own_entry(job, s, g, h));
}

/// The entry of the matrix that a front starts with.
proof fn own_is_base<T: Field>(
    job: FrontJob<T>,
    s: int,
    cs: Seq<Option<ContribBlock<T>>>,
    swapped: bool,
    rows: Seq<usize>,
    i: int,
    j: int,
)
    requires
        job.wf(),
        0 <= s < job.sn().len(),
        kids_ok(job.sn(), job.sym.n as int, s, cs, job.sn()[s].children@.len() as int),
        front_layout(*job.sym, s, cs, swapped, rows),
        0 <= j <= i < rows.len(),
    ensures
        base_at(
            *job.a,
            job.scaling@,
            rows,
            own_start(*job.sym, s, cs, swapped),
            own_start(*job.sym, s, cs, swapped) + job.sn()[s].ncol,
            i,
            j,
        ) == own_entry(job, s, rows[i] as int, rows[j] as int),
{
    let sn = job.sn();
    let ncol = sn[s].ncol as int;
    let del = delayed_in(*job.sym, s, cs);
    front_rows_distinct(*job.sym, s, cs, swapped, rows);
    let g = rows[i] as int;
    let h = rows[j] as int;
    let lo = own_start(*job.sym, s, cs, swapped);
    let dlo = delayed_start(*job.sym, s, swapped);
    if lo <= j < lo + ncol {
        assert(rows[j] == sn[s].first_col + j - lo);
        if lo <= i < lo + ncol {
            assert(rows[i] == sn[s].first_col + i - lo);
        } else if dlo <= i < dlo + del {
            // A column of the subtree: its entries went into an earlier front.
            assert(rows[i] < sn[s].first_col);
            if job.a.col(h).contains_key(g) {
                lower_rows(*job.a, h, g);
            }
        } else {
            assert(rows[i] >= last_col(sn, s));
        }
    } else if dlo <= j < dlo + del {
        assert(rows[j] < sn[s].first_col);
    } else {
        assert(rows[j] >= last_col(sn, s));
        assert(rows[i] >= last_col(sn, s));
    }
}

/// A lower triangle has no entry above the diagonal.
proof fn lower_rows<T: Scalar>(a: GeneralCsc<T>, j: int, r: int)
    requires
        is_lower(a),
        0 <= j < a.n,
        a.col(j).contains_key(r),
    ensures
        r >= j,
{
    let q = position(a.rows_of(j), r);
    assert(a.rows_of(j)[q] == r);
}

} // verus!
