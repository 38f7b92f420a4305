//! The factorization of one supernode.

use crate::error::RslabError;
use crate::multifrontal::assembly::{
    build_row_indices, cells_from_front, extend_add, front_from_cells, lower_matrix, map_rows,
    mapped, scatter_columns, unmap_rows, unmapped,
};
use crate::multifrontal::kernel::{
    cell, BunchKaufmanParams, DiagonalKernel, FrontKernel, FrontalFactors, Inertia, ZeroPivotAction,
};
use crate::multifrontal::model::{
    contrib_ok, delayed_distinct, delayed_in, delayed_rows, descends, front_at, front_layout,
    front_rows, front_rows_distinct, in_subtree, kids_ok, last_col, own_cols, own_start, owns,
    run_ends, ContribBlock,
};
use crate::multifrontal::params::NumericParams;
use crate::multifrontal::permute::is_lower;
use crate::multifrontal::tree::{is_root, Supernode, SymbolicFactorization, CASCADE_BREAK_MIN_N};
use crate::scalar::{Real, Scalar};
use crate::seqs::{below, distinct, distinct_below_len, is_permutation, occurs};
use crate::sparse::GeneralCsc;
use vstd::prelude::*;

verus! {

/// The factors of one supernode.
#[derive(Clone)]
pub struct NodeFactors<T: Scalar> {
    /// First own column.
    pub first_col: usize,
    /// Columns that were to be eliminated: own ones and delayed ones.
    pub ncol: usize,
    /// Columns that were.
    pub nelim: usize,
    /// Delayed columns that came from the children.
    pub n_delayed_in: usize,
    /// Rows of the front.
    pub nrow: usize,
    pub row_indices: Vec<usize>,
    /// The dense factors; the contribution has moved to the parent.
    pub frontal_factors: FrontalFactors<T>,
    pub inertia: Inertia,
}

/// What the supernodes of one factorization share.
pub struct FrontJob<'a, T: Scalar> {
    pub sym: &'a SymbolicFactorization,
    /// The lower triangle of the permuted matrix.
    pub a: &'a GeneralCsc<T>,
    /// The symmetric scaling, in pivot order.
    pub scaling: &'a Vec<T>,
    pub params: &'a NumericParams<T::Real>,
}

impl<'a, T: Scalar> FrontJob<'a, T> {
    pub open spec fn wf(&self) -> bool {
        &&& self.sym.wf()
        &&& self.a.wf()
        &&& is_lower(*self.a)
        &&& self.a.n == self.sym.n
        &&& self.scaling@.len() == self.sym.n
    }

    pub open spec fn sn(&self) -> Seq<Supernode> {
        self.sym.supernodes@
    }

    /// Nothing is to be done for supernode `s`.
    pub open spec fn is_void(&self, s: int) -> bool {
        self.sn()[s].nrow == 0 || self.sn()[s].ncol == 0
    }
}

/// More delayed columns arrive than the budget admits.
pub open spec fn over_budget(snode: Supernode, delayed: int) -> bool {
    snode.delayed_capacity != usize::MAX && delayed > snode.delayed_capacity
}

/// Supernode `s` is refused for its delayed columns: the budget is exceeded, no
/// cascade break is armed, and the supernode is no root.
pub open spec fn unfunded<T: Scalar>(
    job: FrontJob<T>,
    s: int,
    store: Seq<Option<ContribBlock<T>>>,
) -> bool {
    &&& over_budget(job.sn()[s], delayed_in(*job.sym, s, store))
    &&& job.params.cascade_break_ratio is None
    &&& !is_root(job.sn(), s)
}

/// The supernode eliminates everything in place instead of passing columns on:
/// the budget is exceeded, or, without a budget and for a large matrix, the
/// share of delayed columns reaches the ratio.
pub open spec fn breaks_cascade<R: Real>(
    p: NumericParams<R>,
    root: bool,
    snode: Supernode,
    n: int,
    delayed: int,
    full: int,
) -> bool {
    match p.cascade_break_ratio {
        Some(ratio) => !root && p.allow_delayed_pivots && full > 0 && (if snode.delayed_capacity
            != usize::MAX {
            over_budget(snode, delayed)
        } else {
            n >= CASCADE_BREAK_MIN_N && R::from_count_spec(delayed as u64).over_spec(
                R::from_count_spec(full as u64),
            ).ge_spec(ratio)
        }),
        None => false,
    }
}

fn cascade_break<R: Real>(
    p: &NumericParams<R>,
    root: bool,
    snode: &Supernode,
    n: usize,
    delayed: usize,
    full: usize,
) -> (r: bool)
    ensures
        r == breaks_cascade(*p, root, *snode, n as int, delayed as int, full as int),
{
    match p.cascade_break_ratio {
        Some(ratio) => {
            if root || !p.allow_delayed_pivots || full == 0 {
                false
            } else if snode.delayed_capacity != usize::MAX {
                delayed > snode.delayed_capacity
            } else {
                n >= CASCADE_BREAK_MIN_N && R::from_count(delayed as u64).over(
                    R::from_count(full as u64),
                ).ge(ratio)
            }
        },
        None => false,
    }
}

/// The pivot search of a front; a broken cascade overrides what becomes of small
/// pivots.
pub open spec fn front_search<R>(p: NumericParams<R>, broken: bool) -> BunchKaufmanParams<R> {
    if broken {
        BunchKaufmanParams {
            on_zero_pivot: match p.cascade_break_eps {
                Some(eps) => ZeroPivotAction::PerturbToEps { abs_floor: eps },
                None => ZeroPivotAction::ForceAccept,
            },
            ..p.bk
        }
    } else {
        p.bk
    }
}

fn search_of<R: Copy>(p: &NumericParams<R>, broken: bool) -> (r: BunchKaufmanParams<R>)
    ensures
        r == front_search(*p, broken),
{
    if broken {
        let action = match p.cascade_break_eps {
            Some(eps) => ZeroPivotAction::PerturbToEps { abs_floor: eps },
            None => ZeroPivotAction::ForceAccept,
        };
        BunchKaufmanParams { on_zero_pivot: action, ..p.bk }
    } else {
        p.bk
    }
}

/// The assembled front of supernode `s`.
pub open spec fn front_of<T: Scalar>(
    job: FrontJob<T>,
    s: int,
    store: Seq<Option<ContribBlock<T>>>,
    swapped: bool,
    rows: Seq<usize>,
) -> Seq<T> {
    let lo = own_start(*job.sym, s, store, swapped);
    let kids = job.sn()[s].children@;
    lower_matrix(
        rows.len() as int,
        |i: int, j: int|
            front_at(
                *job.a,
                job.scaling@,
                rows,
                lo,
                lo + job.sn()[s].ncol,
                kids,
                store,
                kids.len() as int,
                i,
                j,
            ),
    )
}

/// How the kernel is asked to treat the front: how many columns, whether it may
/// delay, and the pivot search.
pub open spec fn front_order<T: Scalar>(
    job: FrontJob<T>,
    s: int,
    store: Seq<Option<ContribBlock<T>>>,
    nvschur: int,
) -> (int, bool, BunchKaufmanParams<T::Real>) {
    let root = is_root(job.sn(), s);
    let delayed = delayed_in(*job.sym, s, store);
    let full = job.sn()[s].ncol + delayed;
    let broken = breaks_cascade(
        *job.params,
        root,
        job.sn()[s],
        job.sym.n as int,
        delayed,
        full,
    );
    (
        full - nvschur,
        !root && job.params.allow_delayed_pivots && !broken,
        front_search(*job.params, broken),
    )
}

/// The kernel in charge factors the front so.
pub open spec fn kernel_made<T: Scalar, K: FrontKernel<T>>(
    job: FrontJob<T>,
    kernel: K,
    front: Seq<T>,
    m: int,
    order: (int, bool, BunchKaufmanParams<T::Real>),
    ff: FrontalFactors<T>,
) -> bool {
    &&& ff.shaped(m, order.0)
    &&& if job.params.sqd_mode {
        DiagonalKernel.eliminates(front, m, order.0, order.1, job.params.bk, ff)
    } else {
        kernel.eliminates(front, m, order.0, order.1, order.2, ff)
    }
    &&& !order.1 ==> ff.n_delayed == 0
}

/// What is handed to the parent.
pub open spec fn handed<T: Scalar>(
    ff: FrontalFactors<T>,
    rows: Seq<usize>,
    block: Option<ContribBlock<T>>,
) -> bool {
    match block {
        Some(b) => {
            &&& ff.contrib_dim > 0
            &&& b.dim == ff.contrib_dim
            &&& b.n_delayed == ff.n_delayed
            &&& b.data@ == ff.trailing@
            &&& b.row_indices@ == Seq::new(
                ff.contrib_dim as nat,
                |c: int| rows[ff.perm@[ff.nelim + c] as int],
            )
        },
        None => ff.contrib_dim == 0,
    }
}

/// The stored factors are those of the kernel without the contribution.
pub open spec fn stripped<T: Scalar>(stored: FrontalFactors<T>, ff: FrontalFactors<T>) -> bool {
    &&& stored == (FrontalFactors { trailing: stored.trailing, ..ff })
    &&& stored.trailing@.len() == 0
}

/// The factors and the contribution of supernode `s`, made by the kernel out of
/// the front.
pub open spec fn made_from<T: Scalar, K: FrontKernel<T>>(
    job: FrontJob<T>,
    kernel: K,
    s: int,
    store: Seq<Option<ContribBlock<T>>>,
    nvschur: int,
    order: (int, bool, BunchKaufmanParams<T::Real>),
    ff: FrontalFactors<T>,
    node: NodeFactors<T>,
    block: Option<ContribBlock<T>>,
) -> bool {
    let snode = job.sn()[s];
    let delayed = delayed_in(*job.sym, s, store);
    let swapped = nvschur > 0 && delayed > 0;
    let rows = node.row_indices@;
    &&& front_layout(*job.sym, s, store, swapped, rows)
    &&& rows.len() * rows.len() <= usize::MAX
    &&& kernel_made(
        job,
        kernel,
        front_of(job, s, store, swapped, rows),
        rows.len() as int,
        order,
        ff,
    )
    &&& stripped(node.frontal_factors, ff)
    &&& handed(ff, rows, block)
    &&& node.first_col == snode.first_col
    &&& node.ncol == snode.ncol + delayed
    &&& node.nelim == ff.nelim
    &&& node.n_delayed_in == delayed
    &&& node.nrow == rows.len()
    &&& node.inertia == ff.inertia
}

/// The factors and the contribution of supernode `s`, made by the kernel in the
/// way it was asked to.
pub open spec fn front_done<T: Scalar, K: FrontKernel<T>>(
    job: FrontJob<T>,
    kernel: K,
    s: int,
    store: Seq<Option<ContribBlock<T>>>,
    nvschur: int,
    order: (int, bool, BunchKaufmanParams<T::Real>),
    node: NodeFactors<T>,
    block: Option<ContribBlock<T>>,
) -> bool {
    exists|ff: FrontalFactors<T>| #[trigger]
        made_from(job, kernel, s, store, nvschur, order, ff, node, block)
}

/// The empty factors of a supernode without rows or columns.
pub open spec fn void_node<T: Scalar>(job: FrontJob<T>, s: int, node: NodeFactors<T>) -> bool {
    let ff = node.frontal_factors;
    &&& node.first_col == job.sn()[s].first_col
    &&& node.ncol == 0
    &&& node.nelim == 0
    &&& node.n_delayed_in == 0
    &&& node.nrow == 0
    &&& node.row_indices@.len() == 0
    &&& node.inertia == (Inertia { positive: 0, negative: 0, zero: 0 })
    &&& ff.shaped(0, 0)
    &&& ff.n_tiny == 0
    &&& !ff.needs_refinement
    &&& ff.inertia == (Inertia { positive: 0, negative: 0, zero: 0 })
    &&& ff.perm_inv@.len() == 0
    &&& ff.n_rook_rescues == 0
    &&& ff.zero_tol == job.params.bk.zero_tol
    &&& ff.zero_tol_2x2 == job.params.bk.zero_tol_2x2
}

/// The factors and the contribution of supernode `s`, given those of its
/// children; the budget admits them.
pub open spec fn node_made<T: Scalar, K: FrontKernel<T>>(
    job: FrontJob<T>,
    kernel: K,
    s: int,
    store: Seq<Option<ContribBlock<T>>>,
    nvschur: int,
    node: NodeFactors<T>,
    block: Option<ContribBlock<T>>,
) -> bool {
    if job.is_void(s) {
        void_node(job, s, node) && block is None
    } else {
        !unfunded(job, s, store) && front_done(
            job,
            kernel,
            s,
            store,
            nvschur,
            front_order(job, s, store, nvschur),
            node,
            block,
        )
    }
}

/// How the kernel is asked to treat the front of a small leaf.
pub open spec fn leaf_order<T: Scalar>(job: FrontJob<T>, s: int) -> (
    int,
    bool,
    BunchKaufmanParams<T::Real>,
) {
    (
        job.sn()[s].ncol as int,
        !is_root(job.sn(), s) && job.params.allow_delayed_pivots,
        job.params.bk,
    )
}

/// The factors and the contribution of a small leaf.
pub open spec fn leaf_made<T: Scalar, K: FrontKernel<T>>(
    job: FrontJob<T>,
    kernel: K,
    s: int,
    store: Seq<Option<ContribBlock<T>>>,
    node: NodeFactors<T>,
    block: Option<ContribBlock<T>>,
) -> bool {
    if job.is_void(s) {
        void_node(job, s, node) && block is None
    } else {
        front_done(job, kernel, s, store, 0, leaf_order(job, s), node, block)
    }
}

/// The front with these rows has more cells than can be counted, or the kernel
/// gives up on it.
pub open spec fn gives_up<T: Scalar, K: FrontKernel<T>>(
    job: FrontJob<T>,
    kernel: K,
    s: int,
    store: Seq<Option<ContribBlock<T>>>,
    nvschur: int,
    order: (int, bool, BunchKaufmanParams<T::Real>),
    rows: Seq<usize>,
    e: RslabError,
) -> bool {
    let swapped = nvschur > 0 && delayed_in(*job.sym, s, store) > 0;
    &&& front_layout(*job.sym, s, store, swapped, rows)
    &&& if rows.len() * rows.len() > usize::MAX {
        e is InvalidInput
    } else {
        let front = front_of(job, s, store, swapped, rows);
        if job.params.sqd_mode {
            DiagonalKernel.refuses(front, rows.len() as int, order.0, order.1, job.params.bk, e)
        } else {
            kernel.refuses(front, rows.len() as int, order.0, order.1, order.2, e)
        }
    }
}

/// Why supernode `s` cannot be factored: it received more delayed columns than
/// its budget admits and no cascade break is armed, the front has more cells
/// than can be counted, or the kernel gives up.
pub open spec fn node_refused<T: Scalar, K: FrontKernel<T>>(
    job: FrontJob<T>,
    kernel: K,
    s: int,
    store: Seq<Option<ContribBlock<T>>>,
    nvschur: int,
    e: RslabError,
) -> bool {
    &&& !job.is_void(s)
    &&& if unfunded(job, s, store) {
        e == (RslabError::DelayBudgetExceeded {
            supernode: s as usize,
            required: delayed_in(*job.sym, s, store) as usize,
            capacity: job.sn()[s].delayed_capacity,
        })
    } else {
        exists|rows: Seq<usize>| #[trigger]
            gives_up(
                job,
                kernel,
                s,
                store,
                nvschur,
                front_order(job, s, store, nvschur),
                rows,
                e,
            )
    }
}

/// Why a small leaf cannot be factored.
pub open spec fn leaf_refused<T: Scalar, K: FrontKernel<T>>(
    job: FrontJob<T>,
    kernel: K,
    s: int,
    store: Seq<Option<ContribBlock<T>>>,
    e: RslabError,
) -> bool {
    !job.is_void(s) && exists|rows: Seq<usize>| #[trigger]
        gives_up(job, kernel, s, store, 0, leaf_order(job, s), rows, e)
}

/// The store after supernode `s`: what its children handed over is gone once it
/// was `taken`, and nothing else changes but the place of `s`.
pub open spec fn store_after<T>(
    before: Seq<Option<ContribBlock<T>>>,
    after: Seq<Option<ContribBlock<T>>>,
    kids: Seq<usize>,
    s: int,
    taken: bool,
) -> bool {
    &&& after.len() == before.len()
    &&& forall|c: int|
        0 <= c < before.len() && c != s ==> #[trigger] after[c] == (if taken && occurs(kids, c) {
            None
        } else {
            before[c]
        })
}

/// What factoring supernode `s` does to the store. A supernode with a front takes
/// what its children handed over when the front is assembled; one without a
/// front, or without the budget for it, leaves it.
pub open spec fn store_follows<T: Scalar>(
    job: FrontJob<T>,
    s: int,
    before: Seq<Option<ContribBlock<T>>>,
    after: Seq<Option<ContribBlock<T>>>,
    failed: bool,
) -> bool {
    let kids = job.sn()[s].children@;
    if failed {
        &&& after[s] is None
        &&& store_after(before, after, kids, s, false) || (!unfunded(job, s, before)
            && store_after(before, after, kids, s, true))
    } else {
        store_after(before, after, kids, s, !job.is_void(s))
    }
}

/// Count the delayed columns that the children hand over.
fn count_delayed<T>(
    sym: &SymbolicFactorization,
    s: usize,
    store: &Vec<Option<ContribBlock<T>>>,
) -> (r: usize)
    requires
        sym.wf(),
        s < sym.supernodes@.len(),
        store@.len() == sym.supernodes@.len(),
        kids_ok(
            sym.supernodes@,
            sym.n as int,
            s as int,
            store@,
            sym.supernodes@[s as int].children@.len() as int,
        ),
    ensures
        r == delayed_in(*sym, s as int, store@),
{
    let ghost sn = sym.supernodes@;
    let ghost n = sym.n as int;
    let snode = &sym.supernodes[s];
    let ghost kids = snode.children@;
    let len: usize = snode.children.len();
    assert(below(sn[s as int].children@, s as int));
    let mut r: usize = 0;
    let mut q: usize = 0;
    while q < len
        invariant
            q <= len,
            len == kids.len(),
            kids == snode.children@,
            snode == sym.supernodes@[s as int],
            sym.wf(),
            s < sn.len(),
            sn == sym.supernodes@,
            n == sym.n,
            below(kids, s as int),
            store@.len() == sn.len(),
            kids_ok(sn, n, s as int, store@, len as int),
            r == delayed_rows(kids, store@, q as int).len(),
        decreases len - q,
    {
        proof {
            delayed_distinct(sn, n, s as int, store@, q + 1);
            let d = delayed_rows(kids, store@, q + 1);
            run_ends(sn, n, s as int);
            assert forall|x: int| 0 <= x < d.len() implies #[trigger] d[x] < n by {
                assert(d[x] < sn[s as int].first_col);
            }
            distinct_below_len(d, n);
            assert(kids[q as int] < s);
        }
        if let Some(b) = &store[snode.children[q]] {
            assert(contrib_ok(sn, n, kids[q as int] as int, *b));
            r = r + b.n_delayed;
        }
        q = q + 1;
    }
    r
}

/// Put the delayed columns before the own ones.
fn swap_layout<T>(
    rows: Vec<usize>,
    own: usize,
    del: usize,
    Ghost(sym): Ghost<SymbolicFactorization>,
    Ghost(s): Ghost<int>,
    Ghost(store): Ghost<Seq<Option<ContribBlock<T>>>>,
) -> (r: Vec<usize>)
    requires
        front_rows(sym, s, store, rows@),
        own == sym.supernodes@[s].ncol,
        del == delayed_in(sym, s, store),
    ensures
        front_layout(sym, s, store, true, r@),
        r@.len() == rows@.len(),
{
    let len: usize = rows.len();
    let ghost full = own + del;
    let mut r: Vec<usize> = Vec::new();
    let mut k: usize = 0;
    while k < len
        invariant
            k <= len,
            len == rows@.len(),
            full == own + del,
            full <= len,
            r@.len() == k,
            forall|q: int|
                0 <= q < k ==> #[trigger] r@[q] == (if q < del {
                    rows@[own + q]
                } else if q < full {
                    rows@[q - del]
                } else {
                    rows@[q]
                }),
        decreases len - k,
    {
        if k < del {
            r.push(rows[own + k]);
        } else if k - del < own {
            r.push(rows[k - del]);
        } else {
            r.push(rows[k]);
        }
        k = k + 1;
    }
    proof {
        let d = delayed_rows(
            sym.supernodes@[s].children@,
            store,
            sym.supernodes@[s].children@.len() as int,
        );
        let o = own_cols(sym.supernodes@[s]);
        let head = o + d;
        assert forall|q: int| 0 <= q < full implies r@.take(full)[q] == (d + o)[q] by {
            if q < del {
                assert(rows@.take(full)[own + q] == head[own + q]);
            } else {
                assert(rows@.take(full)[q - del] == head[q - del]);
            }
        }
        assert(r@.take(full) =~= d + o);
        assert(r@.skip(full) =~= rows@.skip(full));
    }
    r
}

/// Assemble the front of supernode `s`.
fn assemble_front<T: Scalar>(
    job: &FrontJob<T>,
    s: usize,
    swapped: bool,
    own_lo: usize,
    rows: &Vec<usize>,
    map: &mut Vec<usize>,
    store: &Vec<Option<ContribBlock<T>>>,
) -> (r: Option<Vec<T>>)
    requires
        job.wf(),
        s < job.sn().len(),
        store@.len() == job.sn().len(),
        kids_ok(
            job.sn(),
            job.sym.n as int,
            s as int,
            store@,
            job.sn()[s as int].children@.len() as int,
        ),
        front_layout(*job.sym, s as int, store@, swapped, rows@),
        own_lo == own_start(*job.sym, s as int, store@, swapped),
        unmapped(old(map)@, job.sym.n as int),
    ensures
        unmapped(final(map)@, job.sym.n as int),
        r is Some <==> rows@.len() * rows@.len() <= usize::MAX,
        r matches Some(f) ==> f@ == front_of(*job, s as int, store@, swapped, rows@),
{
    let ghost sn = job.sn();
    let ghost n = job.sym.n as int;
    let snode = &job.sym.supernodes[s];
    let ghost kids = snode.children@;
    let own: usize = snode.ncol;
    proof {
        front_rows_distinct(*job.sym, s as int, store@, swapped, rows@);
        run_ends(sn, n, s as int);
        assert forall|i: int, j: int|
            own_lo <= j < own_lo + own && 0 <= i < rows@.len() && #[trigger] rows@[i]
                >= #[trigger] rows@[j] implies i >= j by {
            assert(rows@[j] == snode.first_col + j - own_lo);
            if i < j {
                if own_lo <= i {
                    assert(rows@[i] == snode.first_col + i - own_lo);
                } else {
                    assert(rows@[i] < snode.first_col);
                }
            }
        }
        assert(below(sn[s as int].children@, s as int));
    }
    map_rows(rows, map, job.sym.n);
    let total: usize = rows.len();
    assert(own_lo + own <= total);
    let assembled = scatter_columns(rows, own_lo, own_lo + own, job.a, job.scaling.as_slice(), map);
    let mut f: Vec<T> = match assembled {
        Some(v) => v,
        None => {
            unmap_rows(rows, map, job.sym.n);
            return None;
        },
    };
    let ghost m = rows@.len() as int;
    let ghost base = |i: int, j: int|
        crate::multifrontal::model::base_at(
            *job.a,
            job.scaling@,
            rows@,
            own_lo as int,
            own_lo + own,
            i,
            j,
        );
    proof {
        assert(f@ == lower_matrix(m, base));
        cells_from_front(m, base);
    }
    let len: usize = snode.children.len();
    let mut q: usize = 0;
    while q < len
        invariant
            q <= len,
            len == kids.len(),
            kids == snode.children@,
            snode == job.sym.supernodes@[s as int],
            s < sn.len(),
            sn == job.sn(),
            n == job.sym.n,
            m == rows@.len(),
            store@.len() == sn.len(),
            below(kids, s as int),
            kids_ok(sn, n, s as int, store@, len as int),
            distinct(rows@),
            below(rows@, n),
            mapped(map@, n, rows@),
            f@.len() == m * m,
            forall|i: int, j: int|
                #![trigger cell(m, i, j)]
                0 <= j <= i < m ==> f@[cell(m, i, j)] == front_at(
                    *job.a,
                    job.scaling@,
                    rows@,
                    own_lo as int,
                    own_lo + own,
                    kids,
                    store@,
                    q as int,
                    i,
                    j,
                ),
            forall|p: int|
                0 <= p < m * m && (forall|i: int, j: int|
                    #![trigger cell(m, i, j)]
                    0 <= j <= i < m ==> p != cell(m, i, j)) ==> #[trigger] f@[p] == T::zero_spec(),
        decreases len - q,
    {
        let ghost fb = f@;
        assert(kids[q as int] < s);
        if let Some(b) = &store[snode.children[q]] {
            assert(contrib_ok(sn, n, kids[q as int] as int, *b));
            extend_add(b, map, rows, &mut f);
            proof {
                assert forall|i: int, j: int|
                    #![trigger cell(m, i, j)]
                    0 <= j <= i < m implies f@[cell(m, i, j)] == front_at(
                    *job.a,
                    job.scaling@,
                    rows@,
                    own_lo as int,
                    own_lo + own,
                    kids,
                    store@,
                    q + 1,
                    i,
                    j,
                ) by {
                    assert(fb[cell(m, i, j)] == front_at(
                        *job.a,
                        job.scaling@,
                        rows@,
                        own_lo as int,
                        own_lo + own,
                        kids,
                        store@,
                        q as int,
                        i,
                        j,
                    ));
                }
                assert forall|p: int|
                    0 <= p < m * m && (forall|i: int, j: int|
                        #![trigger cell(m, i, j)]
                        0 <= j <= i < m ==> p != cell(m, i, j)) implies #[trigger] f@[p]
                    == T::zero_spec() by {
                    assert(fb[p] == T::zero_spec());
                }
            }
        }
        q = q + 1;
    }
    unmap_rows(rows, map, job.sym.n);
    proof {
        front_from_cells(
            f@,
            m,
            |i: int, j: int|
                front_at(
                    *job.a,
                    job.scaling@,
                    rows@,
                    own_lo as int,
                    own_lo + own,
                    kids,
                    store@,
                    len as int,
                    i,
                    j,
                ),
        );
        assert(f@ =~= front_of(*job, s as int, store@, swapped, rows@));
    }
    Some(f)
}

/// The rows of what is handed over.
fn handed_rows<T: Scalar>(ff: &FrontalFactors<T>, rows: &Vec<usize>) -> (r: Vec<usize>)
    requires
        ff.shaped(rows@.len() as int, ff.ncol as int),
    ensures
        r@ == Seq::new(
            ff.contrib_dim as nat,
            |c: int| rows@[ff.perm@[ff.nelim + c] as int],
        ),
{
    let mut r: Vec<usize> = Vec::new();
    let mut c: usize = 0;
    while c < ff.contrib_dim
        invariant
            c <= ff.contrib_dim,
            ff.shaped(rows@.len() as int, ff.ncol as int),
            r@.len() == c,
            forall|q: int|
                0 <= q < c ==> #[trigger] r@[q] == rows@[ff.perm@[ff.nelim + q] as int],
        decreases ff.contrib_dim - c,
    {
        assert(ff.perm@[ff.nelim + c] < rows@.len());
        r.push(rows[ff.perm[ff.nelim + c]]);
        c = c + 1;
    }
    assert(r@ =~= Seq::new(
        ff.contrib_dim as nat,
        |c: int| rows@[ff.perm@[ff.nelim + c] as int],
    ));
    r
}

/// A permutation that fixes what follows permutes what comes before.
pub proof fn leading_stays(p: Seq<usize>, m: int, full: int, k: int)
    requires
        is_permutation(p, m),
        0 <= full <= m,
        forall|q: int| full <= q < m ==> #[trigger] p[q] == q,
        0 <= k < full,
    ensures
        p[k] < full,
{
    assert(p[k] < m);
    if p[k] >= full {
        let x = p[k] as int;
        assert(p[x] == x);
        assert(p[k] != p[x]);
    }
}

/// What is handed over is a sound contribution.
pub proof fn handed_is_sound<T: Scalar, K: FrontKernel<T>>(
    job: FrontJob<T>,
    kernel: K,
    s: int,
    store: Seq<Option<ContribBlock<T>>>,
    order: (int, bool, BunchKaufmanParams<T::Real>),
    ff: FrontalFactors<T>,
    node: NodeFactors<T>,
    block: Option<ContribBlock<T>>,
)
    requires
        job.wf(),
        0 <= s < job.sn().len(),
        kids_ok(
            job.sn(),
            job.sym.n as int,
            s,
            store,
            job.sn()[s].children@.len() as int,
        ),
        order.0 == job.sn()[s].ncol + delayed_in(*job.sym, s, store),
        made_from(job, kernel, s, store, 0, order, ff, node, block),
    ensures
        block matches Some(b) ==> contrib_ok(job.sn(), job.sym.n as int, s, b),
{
    if let Some(b) = block {
        let sn = job.sn();
        let n = job.sym.n as int;
        let rows = node.row_indices@;
        let m = rows.len() as int;
        let own = sn[s].ncol as int;
        let del = delayed_in(*job.sym, s, store);
        let full = own + del;
        front_rows_distinct(*job.sym, s, store, false, rows);
        assert(ff.shaped(m, full));
        assert(b.data@.len() == b.dim * b.dim);
        let r = b.row_indices@;
        assert forall|k: int| 0 <= k < b.dim implies r[k] == rows[#[trigger] ff.perm@[ff.nelim + k] as int]
            && ff.perm@[ff.nelim + k] < m by {}
        assert forall|x: int, y: int| 0 <= x < y < r.len() implies #[trigger] r[x] != #[trigger] r[y] by {
            let px = ff.perm@[ff.nelim + x] as int;
            let py = ff.perm@[ff.nelim + y] as int;
            assert(px != py);
            if px < py {
                assert(rows[px] != rows[py]);
            } else {
                assert(rows[py] != rows[px]);
            }
        }
        assert forall|k: int| 0 <= k < r.len() implies #[trigger] r[k] < n by {
            let p = ff.perm@[ff.nelim + k] as int;
            assert(rows[p] < n);
        }
        assert forall|k: int| 0 <= k < b.n_delayed implies in_subtree(
            sn,
            s,
            #[trigger] r[k] as int,
        ) by {
            let p = ff.perm@[ff.nelim + k] as int;
            leading_stays(ff.perm@, m, full, ff.nelim + k);
            if p < own {
                assert(rows[p] == sn[s].first_col + p);
                assert(owns(sn, s, rows[p] as int));
                assert(descends(sn, s, s));
            } else {
                assert(rows[p] < sn[s].first_col);
            }
        }
        assert forall|k: int| b.n_delayed <= k < b.dim implies #[trigger] r[k] >= last_col(sn, s) by {
            let p = ff.perm@[ff.nelim + k] as int;
            assert(ff.perm@[ff.nelim + k] == ff.nelim + k);
            assert(rows[p] >= last_col(sn, s));
        }
    }
}

/// The factors of a supernode without rows or columns.
fn make_void<T: Scalar>(job: &FrontJob<T>, s: usize) -> (node: NodeFactors<T>)
    requires
        s < job.sn().len(),
    ensures
        void_node(*job, s as int, node),
{
    let none = Inertia::new(0, 0, 0);
    NodeFactors {
        first_col: job.sym.supernodes[s].first_col,
        ncol: 0,
        nelim: 0,
        n_delayed_in: 0,
        nrow: 0,
        row_indices: Vec::new(),
        frontal_factors: FrontalFactors {
            nrow: 0,
            ncol: 0,
            nelim: 0,
            l: Vec::new(),
            d_diag: Vec::new(),
            d_subdiag: Vec::new(),
            perm: Vec::new(),
            perm_inv: Vec::new(),
            trailing: Vec::new(),
            contrib_dim: 0,
            n_delayed: 0,
            inertia: none,
            needs_refinement: false,
            n_rook_rescues: 0,
            n_tiny: 0,
            zero_tol: job.params.bk.zero_tol,
            zero_tol_2x2: job.params.bk.zero_tol_2x2,
        },
        inertia: none,
    }
}

/// Forget the contributions of the children.
pub fn clear_children<T>(kids: &Vec<usize>, store: &mut Vec<Option<ContribBlock<T>>>)
    requires
        below(kids@, old(store)@.len() as int),
    ensures
        final(store)@.len() == old(store)@.len(),
        forall|c: int|
            0 <= c < old(store)@.len() ==> #[trigger] final(store)@[c] == (if occurs(kids@, c) {
                None
            } else {
                old(store)@[c]
            }),
{
    let ghost s0 = store@;
    let len: usize = kids.len();
    let mut q: usize = 0;
    while q < len
        invariant
            q <= len,
            len == kids@.len(),
            below(kids@, s0.len() as int),
            store@.len() == s0.len(),
            forall|c: int|
                0 <= c < s0.len() ==> #[trigger] store@[c] == (if occurs(kids@.take(q as int), c) {
                    None
                } else {
                    s0[c]
                }),
        decreases len - q,
    {
        proof {
            crate::sorted::grown(kids@, q as int, q + 1);
            assert(kids@[q as int] < s0.len());
        }
        store.set(kids[q], None);
        q = q + 1;
    }
    assert(kids@.take(len as int) =~= kids@);
}

/// Assemble the front of supernode `s`, let the kernel eliminate, and store what
/// is left for the parent.
fn run_front<T: Scalar, K: FrontKernel<T>>(
    job: &FrontJob<T>,
    kernel: &K,
    s: usize,
    rows: Vec<usize>,
    del: usize,
    nvschur: usize,
    may_delay: bool,
    search: &BunchKaufmanParams<T::Real>,
    map: &mut Vec<usize>,
    store: &mut Vec<Option<ContribBlock<T>>>,
) -> (r: Result<NodeFactors<T>, RslabError>)
    requires
        job.wf(),
        s < job.sn().len(),
        del == delayed_in(*job.sym, s as int, old(store)@),
        front_layout(*job.sym, s as int, old(store)@, nvschur > 0 && del > 0, rows@),
        unmapped(old(map)@, job.sym.n as int),
        old(store)@.len() == job.sn().len(),
        old(store)@[s as int] is None,
        kids_ok(
            job.sn(),
            job.sym.n as int,
            s as int,
            old(store)@,
            job.sn()[s as int].children@.len() as int,
        ),
        nvschur <= job.sn()[s as int].ncol,
    ensures
        unmapped(final(map)@, job.sym.n as int),
        match r {
            Ok(_) => store_after(
                old(store)@,
                final(store)@,
                job.sn()[s as int].children@,
                s as int,
                true,
            ),
            Err(_) => final(store)@[s as int] is None && (store_after(
                old(store)@,
                final(store)@,
                job.sn()[s as int].children@,
                s as int,
                true,
            ) || final(store)@ == old(store)@),
        },
        r matches Ok(node) ==> front_done(
            *job,
            *kernel,
            s as int,
            old(store)@,
            nvschur as int,
            (job.sn()[s as int].ncol + del - nvschur, may_delay, *search),
            node,
            final(store)@[s as int],
        ),
        r matches Ok(node) ==> nvschur == 0 ==> (final(store)@[s as int] matches Some(b)
            ==> contrib_ok(job.sn(), job.sym.n as int, s as int, b)),
        r matches Err(e) ==> exists|rows: Seq<usize>| #[trigger]
            gives_up(
                *job,
                *kernel,
                s as int,
                old(store)@,
                nvschur as int,
                (job.sn()[s as int].ncol + del - nvschur, may_delay, *search),
                rows,
                e,
            ),
{
    let ghost st0 = store@;
    let ghost sn = job.sn();
    let snode = &job.sym.supernodes[s];
    let swapped = nvschur > 0 && del > 0;
    let own_lo: usize = if swapped {
        del
    } else {
        0
    };
    let m: usize = rows.len();
    let full: usize = snode.ncol + del;
    let eliminable: usize = full - nvschur;
    let ghost order = (job.sn()[s as int].ncol + del - nvschur, may_delay, *search);
    assert(order.0 == eliminable);
    let front = match assemble_front(job, s, swapped, own_lo, &rows, map, store) {
        Some(f) => f,
        None => {
            let e = RslabError::InvalidInput("multifrontal: front too large");
            assert(gives_up(*job, *kernel, s as int, st0, nvschur as int, order, rows@, e));
            return Err(e);
        },
    };
    proof {
        assert(below(sn[s as int].children@, s as int));
        if occurs(sn[s as int].children@, s as int) {
            let q = crate::sparse::position(sn[s as int].children@, s as int);
            assert(sn[s as int].children@[q] == s);
        }
    }
    clear_children(&snode.children, store);
    let result = if job.params.sqd_mode {
        DiagonalKernel.factor_front(front, m, eliminable, may_delay, &job.params.bk)
    } else {
        kernel.factor_front(front, m, eliminable, may_delay, search)
    };
    let ff = match result {
        Ok(ff) => ff,
        Err(e) => {
            assert(gives_up(*job, *kernel, s as int, st0, nvschur as int, order, rows@, e));
            return Err(e);
        },
    };
    let ghost made = ff;
    let contrib_rows = handed_rows(&ff, &rows);
    let mut stored = ff;
    let mut data: Vec<T> = Vec::new();
    std::mem::swap(&mut data, &mut stored.trailing);
    let nelim: usize = stored.nelim;
    let inertia = stored.inertia;
    if stored.contrib_dim > 0 {
        store.set(
            s,
            Some(
                ContribBlock {
                    row_indices: contrib_rows,
                    data,
                    dim: stored.contrib_dim,
                    n_delayed: stored.n_delayed,
                },
            ),
        );
    }
    let node = NodeFactors {
        first_col: snode.first_col,
        ncol: full,
        nelim,
        n_delayed_in: del,
        nrow: m,
        row_indices: rows,
        frontal_factors: stored,
        inertia,
    };
    proof {
        assert(made_from(
            *job,
            *kernel,
            s as int,
            st0,
            nvschur as int,
            order,
            made,
            node,
            store@[s as int],
        ));
        if nvschur == 0 {
            handed_is_sound(*job, *kernel, s as int, st0, order, made, node, store@[s as int]);
        }
    }
    Ok(node)
}

/// Factor supernode `s`: assemble the front out of the matrix and the
/// contributions of the children, let the kernel eliminate all but the last
/// `nvschur` fully summed columns, and store what is left for the parent.
pub fn factor_one_supernode<T: Scalar, K: FrontKernel<T>>(
    job: &FrontJob<T>,
    kernel: &K,
    s: usize,
    root: bool,
    map: &mut Vec<usize>,
    store: &mut Vec<Option<ContribBlock<T>>>,
    nvschur: usize,
) -> (r: Result<NodeFactors<T>, RslabError>)
    requires
        job.wf(),
        s < job.sn().len(),
        root == is_root(job.sn(), s as int),
        unmapped(old(map)@, job.sym.n as int),
        old(store)@.len() == job.sn().len(),
        old(store)@[s as int] is None,
        kids_ok(
            job.sn(),
            job.sym.n as int,
            s as int,
            old(store)@,
            job.sn()[s as int].children@.len() as int,
        ),
        nvschur <= job.sn()[s as int].ncol,
    ensures
        unmapped(final(map)@, job.sym.n as int),
        store_follows(*job, s as int, old(store)@, final(store)@, r is Err),
        r matches Ok(node) ==> node_made(
            *job,
            *kernel,
            s as int,
            old(store)@,
            nvschur as int,
            node,
            final(store)@[s as int],
        ),
        r matches Ok(node) ==> nvschur == 0 ==> (final(store)@[s as int] matches Some(b)
            ==> contrib_ok(job.sn(), job.sym.n as int, s as int, b)),
        r matches Err(e) ==> node_refused(
            *job,
            *kernel,
            s as int,
            old(store)@,
            nvschur as int,
            e,
        ),
{
    let ghost st0 = store@;
    let ghost sn = job.sn();
    let snode = &job.sym.supernodes[s];
    if snode.nrow == 0 || snode.ncol == 0 {
        return Ok(make_void(job, s));
    }
    let del: usize = count_delayed(job.sym, s, store);
    let exceeded = snode.delayed_capacity != usize::MAX && del > snode.delayed_capacity;
    if exceeded && job.params.cascade_break_ratio.is_none() && !root {
        return Err(
            RslabError::DelayBudgetExceeded {
                supernode: s,
                required: del,
                capacity: snode.delayed_capacity,
            },
        );
    }
    let plain = build_row_indices(job.sym, s, store);
    let own: usize = snode.ncol;
    let plain_len: usize = plain.len();
    let full: usize = own + del;
    let swapped = nvschur > 0 && del > 0;
    let rows = if swapped {
        swap_layout::<T>(plain, own, del, Ghost(*job.sym), Ghost(s as int), Ghost(store@))
    } else {
        plain
    };
    let broken = cascade_break(job.params, root, snode, job.sym.n, del, full);
    let may_delay = !root && job.params.allow_delayed_pivots && !broken;
    let search = search_of(job.params, broken);
    assert((job.sn()[s as int].ncol + del - nvschur, may_delay, search) == front_order(
        *job,
        s as int,
        st0,
        nvschur as int,
    ));
    run_front(job, kernel, s, rows, del, nvschur, may_delay, &search, map, store)
}

/// Factor a supernode without children whose rows are known in advance.
pub fn factor_one_small_leaf<T: Scalar, K: FrontKernel<T>>(
    job: &FrontJob<T>,
    kernel: &K,
    s: usize,
    leaf_rows: &Vec<usize>,
    root: bool,
    map: &mut Vec<usize>,
    store: &mut Vec<Option<ContribBlock<T>>>,
) -> (r: Result<NodeFactors<T>, RslabError>)
    requires
        job.wf(),
        s < job.sn().len(),
        job.sn()[s as int].children@.len() == 0,
        root == is_root(job.sn(), s as int),
        front_rows(*job.sym, s as int, old(store)@, leaf_rows@),
        unmapped(old(map)@, job.sym.n as int),
        old(store)@.len() == job.sn().len(),
        old(store)@[s as int] is None,
    ensures
        unmapped(final(map)@, job.sym.n as int),
        store_follows(*job, s as int, old(store)@, final(store)@, r is Err),
        r matches Ok(node) ==> leaf_made(
            *job,
            *kernel,
            s as int,
            old(store)@,
            node,
            final(store)@[s as int],
        ),
        r matches Ok(node) ==> (final(store)@[s as int] matches Some(b) ==> contrib_ok(
            job.sn(),
            job.sym.n as int,
            s as int,
            b,
        )),
        r matches Err(e) ==> leaf_refused(*job, *kernel, s as int, old(store)@, e),
{
    let snode = &job.sym.supernodes[s];
    if snode.nrow == 0 || snode.ncol == 0 {
        return Ok(make_void(job, s));
    }
    let rows = crate::flat::part_of(leaf_rows.as_slice(), 0, leaf_rows.len());
    proof {
        assert(rows@ =~= leaf_rows@);
        assert(delayed_in(*job.sym, s as int, store@) == 0);
    }
    let may_delay = !root && job.params.allow_delayed_pivots;
    let search = job.params.bk;
    assert((job.sn()[s as int].ncol + 0 - 0, may_delay, search) == leaf_order(*job, s as int));
    run_front(job, kernel, s, rows, 0, 0, may_delay, &search, map, store)
}

} // verus!
