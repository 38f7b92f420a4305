//! The factors do not depend on the driver: neither on the order in which
//! supernodes are factored, nor on how many are at work at once.

use crate::error::RslabError;
use crate::flat::column_start;
use crate::multifrontal::dense::{
    dense_front, dense_refused, dense_settled, is_dense_factorization,
};
use crate::multifrontal::driver::{
    batches, comes_before, groups_ok, in_group, node_done, tree_done, tree_refused,
};
use crate::multifrontal::factorize::{
    factored, goes_dense, inputs_ok, is_factorization, is_refusal, is_routed, is_routed_refusal,
    job_of, no_tails, refused, settled, work_threshold, Trail,
};
use crate::multifrontal::factors::{inertia_upto, refinement_upto, SparseFactors};
use crate::multifrontal::kernel::{
    after, cell, diagonal_breaks, diagonal_pivot, usable, BunchKaufmanParams, DiagonalKernel,
    FrontKernel, FrontalFactors, Inertia,
};
use crate::multifrontal::model::{
    added, child_trails, contrib_at, delayed_in, delayed_rows, descends, front_at, front_layout,
    own_start, parent_is, trails, ContribBlock,
};
use crate::multifrontal::node::{
    breaks_cascade, front_done, front_of, front_order, gives_up, leaf_order, made_from, unfunded,
    void_node, FrontJob, NodeFactors,
};
use crate::multifrontal::params::{row_sums, NumericParams};
use crate::multifrontal::permute::permuted_is_unique;
use crate::multifrontal::profile::SmallLeafBatch;
use crate::multifrontal::tree::{is_root, worth_parallel, SymbolicFactorization};
use crate::scalar::{Real, Scalar};
use crate::seqs::{ascending_unique, below, occurs};
use crate::sparse::{position, GeneralCsc};
use vstd::prelude::*;

verus! {

/// The two blocks hold the same rows and the same lower triangle.
pub open spec fn same_block<T>(x: Option<ContribBlock<T>>, y: Option<ContribBlock<T>>) -> bool {
    match (x, y) {
        (Some(a), Some(b)) => {
            &&& a.row_indices@ == b.row_indices@
            &&& a.row_indices@.len() == a.dim
            &&& a.dim == b.dim
            &&& a.n_delayed == b.n_delayed
            &&& forall|i: int, j: int|
                #![trigger cell(a.dim as int, i, j)]
                0 <= j <= i < a.dim ==> a.data@[cell(a.dim as int, i, j)] == b.data@[cell(
                    a.dim as int,
                    i,
                    j,
                )]
        },
        (None, None) => true,
        _ => false,
    }
}

/// The two hold the same `L`, `D`, order and contribution.
pub open spec fn same_fronts<T: Scalar>(f: FrontalFactors<T>, g: FrontalFactors<T>) -> bool {
    &&& f.nrow == g.nrow
    &&& f.ncol == g.ncol
    &&& f.nelim == g.nelim
    &&& f.n_delayed == g.n_delayed
    &&& f.contrib_dim == g.contrib_dim
    &&& f.perm@ == g.perm@
    &&& f.perm_inv@ == g.perm_inv@
    &&& f.d_diag@ == g.d_diag@
    &&& f.d_subdiag@ == g.d_subdiag@
    &&& forall|i: int, e: int|
        #![trigger f.l_at(i, e)]
        0 <= e < f.nelim && 0 <= i < f.nrow ==> f.l_at(i, e) == g.l_at(i, e)
    &&& forall|i: int, j: int|
        #![trigger cell(f.contrib_dim as int, i, j)]
        0 <= j <= i < f.contrib_dim ==> f.trailing@[cell(f.contrib_dim as int, i, j)]
            == g.trailing@[cell(f.contrib_dim as int, i, j)]
    &&& f.inertia == g.inertia
    &&& f.needs_refinement == g.needs_refinement
    &&& f.n_rook_rescues == g.n_rook_rescues
    &&& f.n_tiny == g.n_tiny
    &&& f.zero_tol == g.zero_tol
    &&& f.zero_tol_2x2 == g.zero_tol_2x2
}

/// A kernel that makes the same of the same front.
pub open spec fn single_valued<T: Scalar, K: FrontKernel<T>>(kernel: K) -> bool {
    forall|
        front: Seq<T>,
        nrow: int,
        ncol: int,
        may_delay: bool,
        bk: BunchKaufmanParams<T::Real>,
        f: FrontalFactors<T>,
        g: FrontalFactors<T>,
    |
        f.shaped(nrow, ncol) && g.shaped(nrow, ncol) && #[trigger] kernel.eliminates(
            front,
            nrow,
            ncol,
            may_delay,
            bk,
            f,
        ) && #[trigger] kernel.eliminates(front, nrow, ncol, may_delay, bk, g) ==> same_fronts(f, g)
}

/// The diagonal kernel makes the same of the same front.
pub proof fn diagonal_kernel_is_single_valued<T: Scalar>()
    ensures
        single_valued::<T, DiagonalKernel>(DiagonalKernel),
{
    assert forall|
        front: Seq<T>,
        nrow: int,
        ncol: int,
        may_delay: bool,
        bk: BunchKaufmanParams<T::Real>,
        f: FrontalFactors<T>,
        g: FrontalFactors<T>,
    |
        f.shaped(nrow, ncol) && g.shaped(nrow, ncol) && #[trigger] DiagonalKernel.eliminates(
            front,
            nrow,
            ncol,
            may_delay,
            bk,
            f,
        ) && #[trigger] DiagonalKernel.eliminates(front, nrow, ncol, may_delay, bk, g) implies same_fronts(
        f,
        g,
    ) by {
        assert(f.perm@ =~= g.perm@);
        assert(f.d_diag@ =~= g.d_diag@);
        assert(f.d_subdiag@ =~= g.d_subdiag@);
        assert forall|i: int, e: int|
            #![trigger f.l_at(i, e)]
            0 <= e < f.nelim && 0 <= i < f.nrow implies f.l_at(i, e) == g.l_at(i, e) by {
            if i > e {
                let v = after(front, nrow, e, i, e).over_spec(diagonal_pivot(front, nrow, e));
                assert(f.l@[column_start(nrow, e) + i] == v);
                assert(g.l@[column_start(nrow, e) + i] == v);
            }
        }
        assert forall|i: int, j: int|
            #![trigger cell(f.contrib_dim as int, i, j)]
            0 <= j <= i < f.contrib_dim implies f.trailing@[cell(f.contrib_dim as int, i, j)]
            == g.trailing@[cell(f.contrib_dim as int, i, j)] by {
            assert(after(front, nrow, ncol, ncol + i, ncol + j) == f.trailing@[cell(
                nrow - ncol,
                i,
                j,
            )]);
        }
    }
}

/// A kernel that does not both factor a front and give up on it.
pub open spec fn decided<T: Scalar, K: FrontKernel<T>>(kernel: K) -> bool {
    forall|
        front: Seq<T>,
        nrow: int,
        ncol: int,
        may_delay: bool,
        bk: BunchKaufmanParams<T::Real>,
        f: FrontalFactors<T>,
        e: RslabError,
    |
        f.shaped(nrow, ncol) && #[trigger] kernel.eliminates(front, nrow, ncol, may_delay, bk, f)
            ==> !#[trigger] kernel.refuses(front, nrow, ncol, may_delay, bk, e)
}

/// The diagonal kernel does not both factor a front and give up on it.
pub proof fn diagonal_kernel_is_decided<T: Scalar>()
    ensures
        decided::<T, DiagonalKernel>(DiagonalKernel),
{
    assert forall|
        front: Seq<T>,
        nrow: int,
        ncol: int,
        may_delay: bool,
        bk: BunchKaufmanParams<T::Real>,
        f: FrontalFactors<T>,
        e: RslabError,
    |
        f.shaped(nrow, ncol) && #[trigger] DiagonalKernel.eliminates(
            front,
            nrow,
            ncol,
            may_delay,
            bk,
            f,
        ) implies !#[trigger] DiagonalKernel.refuses(front, nrow, ncol, may_delay, bk, e) by {
        if diagonal_breaks(front, nrow, ncol) {
            let k = choose|k: int|
                0 <= k < ncol && !usable(#[trigger] diagonal_pivot(front, nrow, k)) && forall|d: int|
                    0 <= d < k ==> usable(#[trigger] diagonal_pivot(front, nrow, d));
            assert(usable(f.d_diag@[k]));
        }
    }
}

/// The two nodes hold the same rows, factors and signs.
pub open spec fn same_node<T: Scalar>(x: NodeFactors<T>, y: NodeFactors<T>) -> bool {
    let f = x.frontal_factors;
    let g = y.frontal_factors;
    &&& x.first_col == y.first_col
    &&& x.ncol == y.ncol
    &&& x.nelim == y.nelim
    &&& x.n_delayed_in == y.n_delayed_in
    &&& x.nrow == y.nrow
    &&& x.row_indices@ == y.row_indices@
    &&& x.inertia == y.inertia
    &&& f.nrow == g.nrow
    &&& f.ncol == g.ncol
    &&& f.nelim == g.nelim
    &&& f.n_delayed == g.n_delayed
    &&& f.contrib_dim == g.contrib_dim
    &&& f.perm@ == g.perm@
    &&& f.perm_inv@ == g.perm_inv@
    &&& f.d_diag@ == g.d_diag@
    &&& f.d_subdiag@ == g.d_subdiag@
    &&& forall|i: int, e: int|
        #![trigger f.l_at(i, e)]
        0 <= e < x.nelim && 0 <= i < x.nrow ==> f.l_at(i, e) == g.l_at(i, e)
    &&& f.inertia == g.inertia
    &&& f.needs_refinement == g.needs_refinement
    &&& f.n_rook_rescues == g.n_rook_rescues
    &&& f.n_tiny == g.n_tiny
    &&& f.zero_tol == g.zero_tol
    &&& f.zero_tol_2x2 == g.zero_tol_2x2
}

/// The stores hold the same for these supernodes.
spec fn alike<T>(
    kids: Seq<usize>,
    x: Seq<Option<ContribBlock<T>>>,
    y: Seq<Option<ContribBlock<T>>>,
) -> bool {
    forall|q: int|
        0 <= q < kids.len() ==> same_block(x[#[trigger] kids[q] as int], y[kids[q] as int])
}

proof fn delayed_alike<T>(
    kids: Seq<usize>,
    x: Seq<Option<ContribBlock<T>>>,
    y: Seq<Option<ContribBlock<T>>>,
    k: int,
)
    requires
        alike(kids, x, y),
        0 <= k <= kids.len(),
    ensures
        delayed_rows(kids, x, k) == delayed_rows(kids, y, k),
    decreases k,
{
    if k > 0 {
        delayed_alike(kids, x, y, k - 1);
        assert(same_block(x[kids[k - 1] as int], y[kids[k - 1] as int]));
    }
}

proof fn trails_alike<T>(
    sym: SymbolicFactorization,
    s: int,
    x: Seq<Option<ContribBlock<T>>>,
    y: Seq<Option<ContribBlock<T>>>,
    r: int,
)
    requires
        alike(sym.supernodes@[s].children@, x, y),
    ensures
        trails(sym, s, x, r) <==> trails(sym, s, y, r),
{
    let kids = sym.supernodes@[s].children@;
    assert forall|q: int| 0 <= q < kids.len() implies (#[trigger] child_trails(kids, x, q, r)
        <==> child_trails(kids, y, q, r)) by {
        assert(same_block(x[kids[q] as int], y[kids[q] as int]));
    }
    if exists|q: int| 0 <= q < kids.len() && #[trigger] child_trails(kids, y, q, r) {
        let q = choose|q: int| 0 <= q < kids.len() && #[trigger] child_trails(kids, y, q, r);
        assert(child_trails(kids, x, q, r));
    }
}

/// Fronts with the same contributions have the same rows.
proof fn rows_alike<T>(
    sym: SymbolicFactorization,
    s: int,
    x: Seq<Option<ContribBlock<T>>>,
    y: Seq<Option<ContribBlock<T>>>,
    swapped: bool,
    r1: Seq<usize>,
    r2: Seq<usize>,
)
    requires
        alike(sym.supernodes@[s].children@, x, y),
        front_layout(sym, s, x, swapped, r1),
        front_layout(sym, s, y, swapped, r2),
    ensures
        r1 == r2,
        delayed_in(sym, s, x) == delayed_in(sym, s, y),
{
    let kids = sym.supernodes@[s].children@;
    delayed_alike(kids, x, y, kids.len() as int);
    let full = sym.supernodes@[s].ncol + delayed_in(sym, s, x);
    assert forall|r: int| #[trigger] occurs(r1.skip(full), r) <==> occurs(r2.skip(full), r) by {
        trails_alike(sym, s, x, y, r);
        assert(occurs(r2.skip(full), r) <==> trails(sym, s, y, r));
    }
    ascending_unique(r1.skip(full), r2.skip(full));
    assert(r1 =~= r1.take(full) + r1.skip(full));
    assert(r2 =~= r2.take(full) + r2.skip(full));
}

/// The matrices are stored alike.
spec fn same_matrix<T>(a: GeneralCsc<T>, b: GeneralCsc<T>) -> bool {
    &&& a.n == b.n
    &&& a.col_ptr@ == b.col_ptr@
    &&& a.row_idx@ == b.row_idx@
    &&& a.values@ == b.values@
}

/// The jobs are alike but for where they are stored.
spec fn same_job<T: Scalar>(p: FrontJob<T>, q: FrontJob<T>) -> bool {
    &&& *p.sym == *q.sym
    &&& same_matrix(*p.a, *q.a)
    &&& p.scaling@ == q.scaling@
    &&& *p.params == *q.params
}

proof fn added_alike<T: Scalar>(v: T, a: ContribBlock<T>, b: ContribBlock<T>, rows: Seq<usize>, i: int, j: int)
    requires
        same_block(Some(a), Some(b)),
    ensures
        added(v, a, rows, i, j) == added(v, b, rows, i, j),
{
    let r = rows[i] as int;
    let c = rows[j] as int;
    if occurs(a.row_indices@, r) && occurs(a.row_indices@, c) {
        let x = position(a.row_indices@, r);
        let y = position(a.row_indices@, c);
        assert(0 <= x < a.dim && 0 <= y < a.dim);
        let m = a.dim as int;
        if x >= y {
            assert(a.data@[cell(m, x, y)] == b.data@[cell(m, x, y)]);
        } else {
            assert(cell(m, x, y) == cell(m, y, x));
            assert(a.data@[cell(m, y, x)] == b.data@[cell(m, y, x)]);
        }
        assert(contrib_at(a, r, c) == contrib_at(b, r, c));
    }
}

proof fn front_at_alike<T: Scalar>(
    p: FrontJob<T>,
    q: FrontJob<T>,
    rows: Seq<usize>,
    lo: int,
    hi: int,
    kids: Seq<usize>,
    x: Seq<Option<ContribBlock<T>>>,
    y: Seq<Option<ContribBlock<T>>>,
    k: int,
    i: int,
    j: int,
)
    requires
        same_job(p, q),
        alike(kids, x, y),
        0 <= k <= kids.len(),
    ensures
        front_at(*p.a, p.scaling@, rows, lo, hi, kids, x, k, i, j) == front_at(
            *q.a,
            q.scaling@,
            rows,
            lo,
            hi,
            kids,
            y,
            k,
            i,
            j,
        ),
    decreases k,
{
    if k > 0 {
        front_at_alike(p, q, rows, lo, hi, kids, x, y, k - 1, i, j);
        assert(same_block(x[kids[k - 1] as int], y[kids[k - 1] as int]));
        let v = front_at(*p.a, p.scaling@, rows, lo, hi, kids, x, k - 1, i, j);
        if let (Some(a), Some(b)) = (x[kids[k - 1] as int], y[kids[k - 1] as int]) {
            added_alike(v, a, b, rows, i, j);
        }
    } else {
        assert(p.a.col(rows[j] as int) == q.a.col(rows[j] as int));
    }
}

proof fn front_alike<T: Scalar>(
    p: FrontJob<T>,
    q: FrontJob<T>,
    s: int,
    x: Seq<Option<ContribBlock<T>>>,
    y: Seq<Option<ContribBlock<T>>>,
    swapped: bool,
    rows: Seq<usize>,
)
    requires
        same_job(p, q),
        alike(p.sn()[s].children@, x, y),
    ensures
        front_of(p, s, x, swapped, rows) == front_of(q, s, y, swapped, rows),
{
    let kids = p.sn()[s].children@;
    delayed_alike(kids, x, y, kids.len() as int);
    let f = front_of(p, s, x, swapped, rows);
    let g = front_of(q, s, y, swapped, rows);
    let lo = own_start(*p.sym, s, x, swapped);
    let hi = lo + p.sn()[s].ncol;
    let m = rows.len() as int;
    assert forall|k: int| 0 <= k < f.len() implies f[k] == g[k] by {
        front_at_alike(p, q, rows, lo, hi, kids, x, y, kids.len() as int, k % m, k / m);
    }
    assert(f =~= g);
}

/// The same contributions, treated in the same way, make the same node and the
/// same block.
proof fn fronts_alike<T: Scalar, K: FrontKernel<T>>(
    p: FrontJob<T>,
    q: FrontJob<T>,
    kernel: K,
    s: int,
    x: Seq<Option<ContribBlock<T>>>,
    y: Seq<Option<ContribBlock<T>>>,
    order: (int, bool, BunchKaufmanParams<T::Real>),
    n1: NodeFactors<T>,
    b1: Option<ContribBlock<T>>,
    n2: NodeFactors<T>,
    b2: Option<ContribBlock<T>>,
)
    requires
        same_job(p, q),
        single_valued::<T, K>(kernel),
        alike(p.sn()[s].children@, x, y),
        front_done(p, kernel, s, x, 0, order, n1, b1),
        front_done(q, kernel, s, y, 0, order, n2, b2),
    ensures
        same_node(n1, n2),
        same_block(b1, b2),
{
    let f = choose|f: FrontalFactors<T>| #[trigger] made_from(p, kernel, s, x, 0, order, f, n1, b1);
    let g = choose|g: FrontalFactors<T>| #[trigger] made_from(q, kernel, s, y, 0, order, g, n2, b2);
    let rows = n1.row_indices@;
    rows_alike(*p.sym, s, x, y, false, rows, n2.row_indices@);
    front_alike(p, q, s, x, y, false, rows);
    let front = front_of(p, s, x, false, rows);
    let m = rows.len() as int;
    diagonal_kernel_is_single_valued::<T>();
    if p.params.sqd_mode {
        assert(DiagonalKernel.eliminates(front, m, order.0, order.1, p.params.bk, f));
        assert(DiagonalKernel.eliminates(front, m, order.0, order.1, p.params.bk, g));
    } else {
        assert(kernel.eliminates(front, m, order.0, order.1, order.2, f));
        assert(kernel.eliminates(front, m, order.0, order.1, order.2, g));
    }
    assert(same_fronts(f, g));
    assert forall|i: int, e: int|
        #![trigger n1.frontal_factors.l_at(i, e)]
        0 <= e < n1.nelim && 0 <= i < n1.nrow implies n1.frontal_factors.l_at(i, e)
        == n2.frontal_factors.l_at(i, e) by {
        assert(n1.frontal_factors.l_at(i, e) == f.l_at(i, e));
        assert(n2.frontal_factors.l_at(i, e) == g.l_at(i, e));
    }
    if let (Some(a), Some(b)) = (b1, b2) {
        assert(a.row_indices@ =~= b.row_indices@);
    }
}

/// Nodes without rows are alike.
proof fn voids_alike<T: Scalar>(job: FrontJob<T>, s: int, n1: NodeFactors<T>, n2: NodeFactors<T>)
    requires
        void_node(job, s, n1),
        void_node(job, s, n2),
    ensures
        same_node(n1, n2),
{
    assert(n1.row_indices@ =~= n2.row_indices@);
    assert(n1.frontal_factors.perm@ =~= n2.frontal_factors.perm@);
    assert(n1.frontal_factors.perm_inv@ =~= n2.frontal_factors.perm_inv@);
    assert(n1.frontal_factors.d_diag@ =~= n2.frontal_factors.d_diag@);
    assert(n1.frontal_factors.d_subdiag@ =~= n2.frontal_factors.d_subdiag@);
}

/// A front that was factored is not given up on when the same contributions come
/// again.
proof fn made_is_not_given_up<T: Scalar, K: FrontKernel<T>>(
    p: FrontJob<T>,
    q: FrontJob<T>,
    kernel: K,
    s: int,
    x: Seq<Option<ContribBlock<T>>>,
    y: Seq<Option<ContribBlock<T>>>,
    order: (int, bool, BunchKaufmanParams<T::Real>),
    node: NodeFactors<T>,
    block: Option<ContribBlock<T>>,
    rows: Seq<usize>,
    e: RslabError,
)
    requires
        same_job(p, q),
        decided::<T, K>(kernel),
        alike(p.sn()[s].children@, x, y),
        front_done(p, kernel, s, x, 0, order, node, block),
    ensures
        !gives_up(q, kernel, s, y, 0, order, rows, e),
{
    if gives_up(q, kernel, s, y, 0, order, rows, e) {
        let f = choose|f: FrontalFactors<T>| #[trigger]
            made_from(p, kernel, s, x, 0, order, f, node, block);
        rows_alike(*p.sym, s, x, y, false, node.row_indices@, rows);
        front_alike(p, q, s, x, y, false, rows);
        let front = front_of(p, s, x, false, rows);
        let m = rows.len() as int;
        diagonal_kernel_is_decided::<T>();
        if p.params.sqd_mode {
            assert(DiagonalKernel.eliminates(front, m, order.0, order.1, p.params.bk, f));
            assert(DiagonalKernel.refuses(front, m, order.0, order.1, p.params.bk, e));
        } else {
            assert(kernel.eliminates(front, m, order.0, order.1, order.2, f));
            assert(kernel.refuses(front, m, order.0, order.1, order.2, e));
        }
    }
}

/// A batch of small leaves treats its leaves as the others are treated: the
/// leaves are in order, and none of them would break a cascade, which takes a
/// ratio of at most zero.
pub open spec fn batches_alike<R: Real>(sym: SymbolicFactorization, params: NumericParams<R>) -> bool {
    let sn = sym.supernodes@;
    ||| params.small_leaf == SmallLeafBatch::Off
    ||| sym.small_leaf_groups@.len() == 0
    ||| {
        &&& groups_ok(sym)
        &&& forall|s: int|
            0 <= s < sn.len() && (#[trigger] sym.snode_group@[s]) is Some ==> !breaks_cascade(
                params,
                is_root(sn, s),
                sn[s],
                sym.n as int,
                0,
                sn[s].ncol as int,
            )
    }
}

/// The two ways of running the tree treat every supernode alike.
spec fn runs_alike<R: Real>(
    sym: SymbolicFactorization,
    params: NumericParams<R>,
    batch1: bool,
    batch2: bool,
) -> bool {
    batch1 == batch2 || batches_alike(sym, params)
}

/// A batched leaf is treated as it would be by itself.
proof fn batched_is_plain<T: Scalar>(job: FrontJob<T>, s: int, cs: Seq<Option<ContribBlock<T>>>)
    requires
        batches_alike(*job.sym, *job.params),
        batches(job, true),
        0 <= s < job.sn().len(),
        job.sym.snode_group@[s] is Some,
    ensures
        leaf_order(job, s) == front_order(job, s, cs, 0),
        !unfunded(job, s, cs),
{
    let g = job.sym.snode_group@[s]->0 as int;
    assert(in_group(*job.sym, s, g));
    assert(delayed_in(*job.sym, s, cs) == 0);
}

/// The same contributions make the same node and the same block.
proof fn done_alike<T: Scalar, K: FrontKernel<T>>(
    p: FrontJob<T>,
    q: FrontJob<T>,
    kernel: K,
    batch1: bool,
    batch2: bool,
    s: int,
    x: Seq<Option<ContribBlock<T>>>,
    y: Seq<Option<ContribBlock<T>>>,
    n1: NodeFactors<T>,
    n2: NodeFactors<T>,
)
    requires
        same_job(p, q),
        single_valued::<T, K>(kernel),
        runs_alike(*p.sym, *p.params, batch1, batch2),
        0 <= s < p.sn().len(),
        alike(p.sn()[s].children@, x, y),
        node_done(p, kernel, batch1, s, x, 0, n1),
        node_done(q, kernel, batch2, s, y, 0, n2),
    ensures
        same_node(n1, n2),
        same_block(x[s], y[s]),
{
    let kids = p.sn()[s].children@;
    delayed_alike(kids, x, y, kids.len() as int);
    if p.is_void(s) {
        voids_alike(p, s, n1, n2);
    } else {
        let leaf1 = batches(p, batch1) && p.sym.snode_group@[s] is Some;
        let leaf2 = batches(q, batch2) && q.sym.snode_group@[s] is Some;
        assert(front_order(p, s, x, 0) == front_order(q, s, y, 0));
        if leaf1 != leaf2 {
            batched_is_plain(p, s, x);
        }
        let order = if leaf1 {
            leaf_order(p, s)
        } else {
            front_order(p, s, x, 0)
        };
        fronts_alike(p, q, kernel, s, x, y, order, n1, x[s], n2, y[s]);
    }
}

/// What was made is not refused when the same contributions come again.
proof fn done_is_not_refused<T: Scalar, K: FrontKernel<T>>(
    p: FrontJob<T>,
    q: FrontJob<T>,
    kernel: K,
    batch1: bool,
    batch2: bool,
    ordered: bool,
    x: Seq<Option<ContribBlock<T>>>,
    node: NodeFactors<T>,
    nvs: Seq<usize>,
    nodes: Seq<NodeFactors<T>>,
    y: Seq<Option<ContribBlock<T>>>,
    s: int,
    e: RslabError,
)
    requires
        same_job(p, q),
        decided::<T, K>(kernel),
        runs_alike(*p.sym, *p.params, batch1, batch2),
        nvs == no_tails(p.sn().len() as int),
        0 <= s < p.sn().len(),
        alike(p.sn()[s].children@, x, y),
        node_done(p, kernel, batch1, s, x, 0, node),
    ensures
        !tree_refused(q, kernel, batch2, ordered, nvs, nodes, y, s, e),
{
    let kids = p.sn()[s].children@;
    delayed_alike(kids, x, y, kids.len() as int);
    let leaf1 = batches(p, batch1) && p.sym.snode_group@[s] is Some;
    let leaf2 = batches(q, batch2) && q.sym.snode_group@[s] is Some;
    assert(front_order(p, s, x, 0) == front_order(q, s, y, 0));
    assert(unfunded(p, s, x) == unfunded(q, s, y));
    if leaf1 != leaf2 {
        batched_is_plain(p, s, x);
    }
    let order = if leaf1 {
        leaf_order(p, s)
    } else {
        front_order(p, s, x, 0)
    };
    if tree_refused(q, kernel, batch2, ordered, nvs, nodes, y, s, e) {
        let rows = choose|rows: Seq<usize>| #[trigger]
            gives_up(q, kernel, s, y, 0, order, rows, e);
        made_is_not_given_up(p, q, kernel, s, x, y, order, node, x[s], rows, e);
    }
}

/// Two factored trees of the same job hold the same.
proof fn trees_alike<T: Scalar, K: FrontKernel<T>>(
    p: FrontJob<T>,
    q: FrontJob<T>,
    kernel: K,
    batch1: bool,
    batch2: bool,
    m1: Seq<NodeFactors<T>>,
    m2: Seq<NodeFactors<T>>,
    c1: Seq<Option<ContribBlock<T>>>,
    c2: Seq<Option<ContribBlock<T>>>,
    k: int,
)
    requires
        p.wf(),
        same_job(p, q),
        single_valued::<T, K>(kernel),
        runs_alike(*p.sym, *p.params, batch1, batch2),
        tree_done(p, kernel, batch1, no_tails(p.sn().len() as int), m1, c1),
        tree_done(q, kernel, batch2, no_tails(p.sn().len() as int), m2, c2),
        0 <= k <= p.sn().len(),
    ensures
        forall|s: int| 0 <= s < k ==> same_node(#[trigger] m1[s], m2[s]),
        forall|s: int| 0 <= s < k ==> same_block(#[trigger] c1[s], c2[s]),
    decreases k,
{
    if k > 0 {
        trees_alike(p, q, kernel, batch1, batch2, m1, m2, c1, c2, k - 1);
        let s = k - 1;
        let nvs = no_tails(p.sn().len() as int);
        let kids = p.sn()[s].children@;
        assert(below(p.sn()[s].children@, s));
        assert(alike(kids, c1, c2)) by {
            assert forall|x: int| 0 <= x < kids.len() implies same_block(
                c1[#[trigger] kids[x] as int],
                c2[kids[x] as int],
            ) by {
                assert(kids[x] < s);
                assert(same_block(c1[kids[x] as int], c2[kids[x] as int]));
            }
        }
        assert(node_done(p, kernel, batch1, s, c1, nvs[s] as int, m1[s]));
        assert(node_done(q, kernel, batch2, s, c2, nvs[s] as int, m2[s]));
        done_alike(p, q, kernel, batch1, batch2, s, c1, c2, m1[s], m2[s]);
    }
}

/// What supernode `c` below the refused one handed over is what it hands over in
/// a factored tree.
proof fn broken_tree_alike<T: Scalar, K: FrontKernel<T>>(
    p: FrontJob<T>,
    q: FrontJob<T>,
    kernel: K,
    batch1: bool,
    batch2: bool,
    ordered: bool,
    m1: Seq<NodeFactors<T>>,
    c1: Seq<Option<ContribBlock<T>>>,
    m2: Seq<NodeFactors<T>>,
    c2: Seq<Option<ContribBlock<T>>>,
    s: int,
    e: RslabError,
    c: int,
)
    requires
        p.wf(),
        same_job(p, q),
        single_valued::<T, K>(kernel),
        runs_alike(*p.sym, *p.params, batch1, batch2),
        tree_done(p, kernel, batch1, no_tails(p.sn().len() as int), m1, c1),
        tree_refused(
            q,
            kernel,
            batch2,
            ordered,
            no_tails(p.sn().len() as int),
            m2,
            c2,
            s,
            e,
        ),
        comes_before(p.sn(), false, c, s),
    ensures
        same_block(c1[c], c2[c]),
    decreases c,
{
    let sn = p.sn();
    let nvs = no_tails(sn.len() as int);
    let kids = sn[c].children@;
    assert(below(sn[c].children@, c));
    assert(alike(kids, c1, c2)) by {
        assert forall|x: int| 0 <= x < kids.len() implies same_block(
            c1[#[trigger] kids[x] as int],
            c2[kids[x] as int],
        ) by {
            let k = kids[x] as int;
            assert(occurs(kids, k));
            parent_is(sn, k, c, sn.len() as int);
            assert(descends(sn, k, s));
            broken_tree_alike(p, q, kernel, batch1, batch2, ordered, m1, c1, m2, c2, s, e, k);
        }
    }
    assert(comes_before(sn, ordered, c, s));
    assert(node_done(p, kernel, batch1, c, c1, nvs[c] as int, m1[c]));
    assert(node_done(q, kernel, batch2, c, c2, nvs[c] as int, m2[c]));
    done_alike(p, q, kernel, batch1, batch2, c, c1, c2, m1[c], m2[c]);
}

/// A tree that one run factors is refused by no other.
proof fn tree_is_not_refused<T: Scalar, K: FrontKernel<T>>(
    p: FrontJob<T>,
    q: FrontJob<T>,
    kernel: K,
    batch1: bool,
    batch2: bool,
    ordered: bool,
    m1: Seq<NodeFactors<T>>,
    c1: Seq<Option<ContribBlock<T>>>,
    m2: Seq<NodeFactors<T>>,
    c2: Seq<Option<ContribBlock<T>>>,
    s: int,
    e: RslabError,
)
    requires
        p.wf(),
        same_job(p, q),
        single_valued::<T, K>(kernel),
        decided::<T, K>(kernel),
        runs_alike(*p.sym, *p.params, batch1, batch2),
        tree_done(p, kernel, batch1, no_tails(p.sn().len() as int), m1, c1),
    ensures
        !tree_refused(
            q,
            kernel,
            batch2,
            ordered,
            no_tails(p.sn().len() as int),
            m2,
            c2,
            s,
            e,
        ),
{
    let sn = p.sn();
    let nvs = no_tails(sn.len() as int);
    if tree_refused(q, kernel, batch2, ordered, nvs, m2, c2, s, e) {
        let kids = sn[s].children@;
        assert(below(sn[s].children@, s));
        assert(alike(kids, c1, c2)) by {
            assert forall|x: int| 0 <= x < kids.len() implies same_block(
                c1[#[trigger] kids[x] as int],
                c2[kids[x] as int],
            ) by {
                let k = kids[x] as int;
                assert(occurs(kids, k));
                parent_is(sn, k, s, sn.len() as int);
                assert(descends(sn, s, s));
                assert(descends(sn, k, s));
                broken_tree_alike(p, q, kernel, batch1, batch2, ordered, m1, c1, m2, c2, s, e, k);
            }
        }
        assert(node_done(p, kernel, batch1, s, c1, nvs[s] as int, m1[s]));
        done_is_not_refused(
            p,
            q,
            kernel,
            batch1,
            batch2,
            ordered,
            c1,
            m1[s],
            nvs,
            m2,
            c2,
            s,
            e,
        );
    }
}

proof fn sums_alike<T: Scalar>(a: GeneralCsc<T>, b: GeneralCsc<T>, scaling: Seq<T>, j: int)
    requires
        same_matrix(a, b),
    ensures
        row_sums(a, scaling, j) == row_sums(b, scaling, j),
    decreases j,
{
    if j > 0 {
        sums_alike(a, b, scaling, j - 1);
    }
}

proof fn totals_alike<T: Scalar>(m1: Seq<NodeFactors<T>>, m2: Seq<NodeFactors<T>>, k: int)
    requires
        forall|s: int| 0 <= s < k ==> same_node(#[trigger] m1[s], m2[s]),
    ensures
        inertia_upto(m1, k) == inertia_upto(m2, k),
        refinement_upto(m1, k) == refinement_upto(m2, k),
    decreases k,
{
    if k > 0 {
        totals_alike(m1, m2, k - 1);
        assert(same_node(m1[k - 1], m2[k - 1]));
    }
    if refinement_upto(m1, k) {
        let s = choose|s: int| 0 <= s < k && (#[trigger] m1[s]).frontal_factors.needs_refinement;
        assert(same_node(m1[s], m2[s]));
        assert(m2[s].frontal_factors.needs_refinement);
    }
    if refinement_upto(m2, k) {
        let s = choose|s: int| 0 <= s < k && (#[trigger] m2[s]).frontal_factors.needs_refinement;
        assert(same_node(m1[s], m2[s]));
        assert(m1[s].frontal_factors.needs_refinement);
    }
}

/// The two factorizations hold the same, entry by entry.
pub open spec fn same_factorization<T: Scalar>(f: SparseFactors<T>, g: SparseFactors<T>) -> bool {
    &&& f.n == g.n
    &&& f.perm@ == g.perm@
    &&& f.perm_inv@ == g.perm_inv@
    &&& f.scaling@ == g.scaling@
    &&& f.needs_refinement == g.needs_refinement
    &&& f.node_factors@.len() == g.node_factors@.len()
    &&& forall|s: int|
        0 <= s < f.node_factors@.len() ==> same_node(
            #[trigger] f.node_factors@[s],
            g.node_factors@[s],
        )
}

/// The jobs of two trails that start at the same matrix are alike, and so is the
/// treatment of batches under the settled settings.
proof fn trails_alike_start<T: Scalar>(
    matrix: GeneralCsc<T>,
    scaling: Seq<T>,
    sym: SymbolicFactorization,
    params: NumericParams<T::Real>,
    batch1: bool,
    batch2: bool,
    t: Trail<T>,
    u: Trail<T>,
)
    requires
        inputs_ok(matrix, scaling, sym),
        runs_alike(sym, params, batch1, batch2),
        t.starts(matrix, scaling, sym),
        u.starts(matrix, scaling, sym),
        t.p == settled(params, t.a, t.sp@),
        u.p == settled(params, u.a, u.sp@),
    ensures
        job_of(&sym, &t.a, &t.sp, &t.p).wf(),
        same_job(job_of(&sym, &t.a, &t.sp, &t.p), job_of(&sym, &u.a, &u.sp, &u.p)),
        runs_alike(sym, t.p, batch1, batch2),
{
    permuted_is_unique(t.a, u.a, matrix, sym.perm_inv@);
    sums_alike(t.a, u.a, t.sp@, t.a.n as int);
    if batch1 != batch2 {
        assert(batches_alike(sym, t.p)) by {
            assert forall|s: int|
                0 <= s < sym.supernodes@.len() && groups_ok(sym) && (
                #[trigger] sym.snode_group@[s]) is Some && !breaks_cascade(
                    params,
                    is_root(sym.supernodes@, s),
                    sym.supernodes@[s],
                    sym.n as int,
                    0,
                    sym.supernodes@[s].ncol as int,
                ) implies !breaks_cascade(
                t.p,
                is_root(sym.supernodes@, s),
                sym.supernodes@[s],
                sym.n as int,
                0,
                sym.supernodes@[s].ncol as int,
            ) by {}
        }
    }
}

/// The factors do not depend on the driver: the ordered sweep, with whatever
/// workspace, and the tasks in whatever order they were run, give the same
/// entries and the same inertia, in any arithmetic, for a kernel that makes the
/// same of the same front.
pub proof fn drivers_agree<T: Scalar, K: FrontKernel<T>>(
    matrix: GeneralCsc<T>,
    scaling: Seq<T>,
    sym: SymbolicFactorization,
    params: NumericParams<T::Real>,
    kernel: K,
    batch1: bool,
    f: SparseFactors<T>,
    i: Inertia,
    batch2: bool,
    g: SparseFactors<T>,
    j: Inertia,
)
    requires
        inputs_ok(matrix, scaling, sym),
        single_valued::<T, K>(kernel),
        batch1 == batch2 || batches_alike(sym, params),
        is_factorization(matrix, scaling, sym, params, kernel, batch1, f, i),
        is_factorization(matrix, scaling, sym, params, kernel, batch2, g, j),
    ensures
        same_factorization(f, g),
        i == j,
{
    let t = choose|t: Trail<T>| #[trigger]
        factored(matrix, scaling, sym, params, kernel, batch1, t, f, i);
    let u = choose|u: Trail<T>| #[trigger]
        factored(matrix, scaling, sym, params, kernel, batch2, u, g, j);
    trails_alike_start(matrix, scaling, sym, params, batch1, batch2, t, u);
    let len = sym.supernodes@.len() as int;
    trees_alike(
        job_of(&sym, &t.a, &t.sp, &t.p),
        job_of(&sym, &u.a, &u.sp, &u.p),
        kernel,
        batch1,
        batch2,
        f.node_factors@,
        g.node_factors@,
        t.cs@,
        u.cs@,
        len,
    );
    totals_alike(f.node_factors@, g.node_factors@, len);
}

/// What a driver returns.
pub open spec fn is_outcome<T: Scalar, K: FrontKernel<T>>(
    matrix: GeneralCsc<T>,
    scaling: Seq<T>,
    sym: SymbolicFactorization,
    params: NumericParams<T::Real>,
    kernel: K,
    batch: bool,
    ordered: bool,
    r: Result<(SparseFactors<T>, Inertia), RslabError>,
) -> bool {
    match r {
        Ok(x) => is_factorization(matrix, scaling, sym, params, kernel, batch, x.0, x.1),
        Err(e) => is_refusal(matrix, scaling, sym, params, kernel, batch, ordered, e),
    }
}

proof fn factored_is_not_refused<T: Scalar, K: FrontKernel<T>>(
    matrix: GeneralCsc<T>,
    scaling: Seq<T>,
    sym: SymbolicFactorization,
    params: NumericParams<T::Real>,
    kernel: K,
    batch1: bool,
    f: SparseFactors<T>,
    i: Inertia,
    batch2: bool,
    ordered: bool,
    e: RslabError,
)
    requires
        inputs_ok(matrix, scaling, sym),
        single_valued::<T, K>(kernel),
        decided::<T, K>(kernel),
        runs_alike(sym, params, batch1, batch2),
        is_factorization(matrix, scaling, sym, params, kernel, batch1, f, i),
    ensures
        !is_refusal(matrix, scaling, sym, params, kernel, batch2, ordered, e),
{
    if is_refusal(matrix, scaling, sym, params, kernel, batch2, ordered, e) {
        let t = choose|t: Trail<T>| #[trigger]
            factored(matrix, scaling, sym, params, kernel, batch1, t, f, i);
        let (u, nodes, s) = choose|u: Trail<T>, nodes: Seq<NodeFactors<T>>, s: int| #[trigger]
            refused(matrix, scaling, sym, params, kernel, batch2, ordered, u, nodes, s, e);
        trails_alike_start(matrix, scaling, sym, params, batch1, batch2, t, u);
        tree_is_not_refused(
            job_of(&sym, &t.a, &t.sp, &t.p),
            job_of(&sym, &u.a, &u.sp, &u.p),
            kernel,
            batch1,
            batch2,
            ordered,
            f.node_factors@,
            t.cs@,
            nodes,
            u.cs@,
            s,
            e,
        );
    }
}

/// One driver succeeds exactly when the other does, and then with the same
/// factors and the same inertia: the ordered sweep, with whatever workspace, and
/// the tasks in whatever order they were run, for a kernel that makes the same
/// of the same front and does not both factor it and give up on it.
pub proof fn drivers_succeed_alike<T: Scalar, K: FrontKernel<T>>(
    matrix: GeneralCsc<T>,
    scaling: Seq<T>,
    sym: SymbolicFactorization,
    params: NumericParams<T::Real>,
    kernel: K,
    batch1: bool,
    ordered1: bool,
    r1: Result<(SparseFactors<T>, Inertia), RslabError>,
    batch2: bool,
    ordered2: bool,
    r2: Result<(SparseFactors<T>, Inertia), RslabError>,
)
    requires
        inputs_ok(matrix, scaling, sym),
        single_valued::<T, K>(kernel),
        decided::<T, K>(kernel),
        batch1 == batch2 || batches_alike(sym, params),
        is_outcome(matrix, scaling, sym, params, kernel, batch1, ordered1, r1),
        is_outcome(matrix, scaling, sym, params, kernel, batch2, ordered2, r2),
    ensures
        r1 is Ok <==> r2 is Ok,
        r1 is Ok ==> same_factorization(r1->Ok_0.0, r2->Ok_0.0) && r1->Ok_0.1 == r2->Ok_0.1,
{
    match (r1, r2) {
        (Ok(x), Ok(y)) => {
            drivers_agree(
                matrix,
                scaling,
                sym,
                params,
                kernel,
                batch1,
                x.0,
                x.1,
                batch2,
                y.0,
                y.1,
            );
        },
        (Ok(x), Err(e)) => {
            factored_is_not_refused(
                matrix,
                scaling,
                sym,
                params,
                kernel,
                batch1,
                x.0,
                x.1,
                batch2,
                ordered2,
                e,
            );
        },
        (Err(e), Ok(y)) => {
            factored_is_not_refused(
                matrix,
                scaling,
                sym,
                params,
                kernel,
                batch2,
                y.0,
                y.1,
                batch1,
                ordered1,
                e,
            );
        },
        (Err(_), Err(_)) => {},
    }
}

/// The dense path makes the same of the same matrix.
proof fn dense_alike<T: Scalar, K: FrontKernel<T>>(
    matrix: GeneralCsc<T>,
    scaling: Seq<T>,
    params: NumericParams<T::Real>,
    kernel: K,
    f: SparseFactors<T>,
    i: Inertia,
    g: SparseFactors<T>,
    j: Inertia,
)
    requires
        single_valued::<T, K>(kernel),
        is_dense_factorization(matrix, scaling, params, kernel, f, i),
        is_dense_factorization(matrix, scaling, params, kernel, g, j),
    ensures
        same_factorization(f, g),
        i == j,
{
    let n = matrix.n as int;
    let x = f.node_factors@[0].frontal_factors;
    let y = g.node_factors@[0].frontal_factors;
    let front = dense_front(matrix, scaling);
    let p = dense_settled(params, front, n);
    diagonal_kernel_is_single_valued::<T>();
    if p.sqd_mode {
        assert(DiagonalKernel.eliminates(front, n, n, false, p.bk, x));
        assert(DiagonalKernel.eliminates(front, n, n, false, p.bk, y));
    } else {
        assert(kernel.eliminates(front, n, n, false, p.bk, x));
        assert(kernel.eliminates(front, n, n, false, p.bk, y));
    }
    assert(same_fronts(x, y));
    assert(same_node(f.node_factors@[0], g.node_factors@[0]));
}

/// What the dense path factors it does not refuse.
proof fn dense_is_not_refused<T: Scalar, K: FrontKernel<T>>(
    matrix: GeneralCsc<T>,
    scaling: Seq<T>,
    params: NumericParams<T::Real>,
    kernel: K,
    f: SparseFactors<T>,
    i: Inertia,
    e: RslabError,
)
    requires
        decided::<T, K>(kernel),
        is_dense_factorization(matrix, scaling, params, kernel, f, i),
    ensures
        !dense_refused(matrix, scaling, params, kernel, e),
{
    let n = matrix.n as int;
    let x = f.node_factors@[0].frontal_factors;
    let front = dense_front(matrix, scaling);
    let p = dense_settled(params, front, n);
    diagonal_kernel_is_decided::<T>();
    if p.sqd_mode {
        assert(DiagonalKernel.eliminates(front, n, n, false, p.bk, x));
        assert(!DiagonalKernel.refuses(front, n, n, false, p.bk, e));
    } else {
        assert(kernel.eliminates(front, n, n, false, p.bk, x));
        assert(!kernel.refuses(front, n, n, false, p.bk, e));
    }
}

/// What a routed factorization returns.
pub open spec fn is_routed_outcome<T: Scalar, K: FrontKernel<T>>(
    matrix: GeneralCsc<T>,
    scaling: Seq<T>,
    sym: SymbolicFactorization,
    params: NumericParams<T::Real>,
    kernel: K,
    tasks: bool,
    r: Result<(SparseFactors<T>, Inertia), RslabError>,
) -> bool {
    match r {
        Ok(x) => is_routed(matrix, scaling, sym, params, kernel, tasks, x.0, x.1),
        Err(e) => is_routed_refusal(matrix, scaling, sym, params, kernel, tasks, e),
    }
}

/// Asking for the task graph changes neither whether a factorization succeeds nor
/// what it gives, whichever path is taken.
pub proof fn routes_succeed_alike<T: Scalar, K: FrontKernel<T>>(
    matrix: GeneralCsc<T>,
    scaling: Seq<T>,
    sym: SymbolicFactorization,
    params: NumericParams<T::Real>,
    kernel: K,
    tasks1: bool,
    r1: Result<(SparseFactors<T>, Inertia), RslabError>,
    tasks2: bool,
    r2: Result<(SparseFactors<T>, Inertia), RslabError>,
)
    requires
        inputs_ok(matrix, scaling, sym),
        single_valued::<T, K>(kernel),
        decided::<T, K>(kernel),
        tasks1 == tasks2 || batches_alike(sym, params),
        is_routed_outcome(matrix, scaling, sym, params, kernel, tasks1, r1),
        is_routed_outcome(matrix, scaling, sym, params, kernel, tasks2, r2),
    ensures
        r1 is Ok <==> r2 is Ok,
        r1 is Ok ==> same_factorization(r1->Ok_0.0, r2->Ok_0.0) && r1->Ok_0.1 == r2->Ok_0.1,
{
    if goes_dense(matrix) {
        match (r1, r2) {
            (Ok(x), Ok(y)) => {
                dense_alike(matrix, scaling, params, kernel, x.0, x.1, y.0, y.1);
            },
            (Ok(x), Err(e)) => {
                dense_is_not_refused(matrix, scaling, params, kernel, x.0, x.1, e);
            },
            (Err(e), Ok(y)) => {
                dense_is_not_refused(matrix, scaling, params, kernel, y.0, y.1, e);
            },
            (Err(_), Err(_)) => {},
        }
    } else {
        let sweep1 = !(tasks1 && worth_parallel(sym, work_threshold(params)));
        let sweep2 = !(tasks2 && worth_parallel(sym, work_threshold(params)));
        drivers_succeed_alike(
            matrix,
            scaling,
            sym,
            params,
            kernel,
            sweep1,
            sweep1,
            r1,
            sweep2,
            sweep2,
            r2,
        );
    }
}

} // verus!
