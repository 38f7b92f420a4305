//! A supernode looks at the contributions of its children only.

use crate::error::RslabError;
use crate::multifrontal::kernel::{BunchKaufmanParams, FrontKernel, FrontalFactors};
use crate::multifrontal::model::{
    child_trails, delayed_in, delayed_rows, front_at, front_layout, trails, ContribBlock,
};
use crate::multifrontal::node::{
    front_done, front_of, front_order, gives_up, leaf_made, leaf_order, leaf_refused, made_from,
    node_made, node_refused, unfunded, FrontJob, NodeFactors,
};
use crate::multifrontal::tree::SymbolicFactorization;
use crate::scalar::Scalar;
use crate::seqs::occurs;
use vstd::prelude::*;

verus! {

/// The stores agree on these supernodes.
pub open spec fn agree<T>(
    kids: Seq<usize>,
    x: Seq<Option<ContribBlock<T>>>,
    y: Seq<Option<ContribBlock<T>>>,
) -> bool {
    forall|q: int| 0 <= q < kids.len() ==> x[#[trigger] kids[q] as int] == y[kids[q] as int]
}

proof fn delayed_agree<T>(
    kids: Seq<usize>,
    x: Seq<Option<ContribBlock<T>>>,
    y: Seq<Option<ContribBlock<T>>>,
    k: int,
)
    requires
        agree(kids, x, y),
        0 <= k <= kids.len(),
    ensures
        delayed_rows(kids, x, k) == delayed_rows(kids, y, k),
    decreases k,
{
    if k > 0 {
        delayed_agree(kids, x, y, k - 1);
        assert(x[kids[k - 1] as int] == y[kids[k - 1] as int]);
    }
}

proof fn trails_agree<T>(
    sym: SymbolicFactorization,
    s: int,
    x: Seq<Option<ContribBlock<T>>>,
    y: Seq<Option<ContribBlock<T>>>,
    r: int,
)
    requires
        agree(sym.supernodes@[s].children@, x, y),
        trails(sym, s, x, r),
    ensures
        trails(sym, s, y, r),
{
    let kids = sym.supernodes@[s].children@;
    if exists|q: int| 0 <= q < kids.len() && #[trigger] child_trails(kids, x, q, r) {
        let q = choose|q: int| 0 <= q < kids.len() && #[trigger] child_trails(kids, x, q, r);
        assert(x[kids[q] as int] == y[kids[q] as int]);
        assert(child_trails(kids, y, q, r));
    }
}

/// The rows of a front depend on the contributions of the children only.
pub proof fn layout_agree<T>(
    sym: SymbolicFactorization,
    s: int,
    x: Seq<Option<ContribBlock<T>>>,
    y: Seq<Option<ContribBlock<T>>>,
    swapped: bool,
    rows: Seq<usize>,
)
    requires
        agree(sym.supernodes@[s].children@, x, y),
        agree(sym.supernodes@[s].children@, y, x),
        front_layout(sym, s, x, swapped, rows),
    ensures
        front_layout(sym, s, y, swapped, rows),
        delayed_in(sym, s, x) == delayed_in(sym, s, y),
{
    let kids = sym.supernodes@[s].children@;
    delayed_agree(kids, x, y, kids.len() as int);
    let full = sym.supernodes@[s].ncol + delayed_in(sym, s, y);
    let tail = rows.skip(full);
    assert forall|r: int| #[trigger] occurs(tail, r) <==> trails(sym, s, y, r) by {
        assert(occurs(tail, r) <==> trails(sym, s, x, r));
        if trails(sym, s, x, r) {
            trails_agree(sym, s, x, y, r);
        }
        if trails(sym, s, y, r) {
            trails_agree(sym, s, y, x, r);
        }
    }
}

proof fn front_at_agree<T: Scalar>(
    job: FrontJob<T>,
    rows: Seq<usize>,
    lo: int,
    hi: int,
    kids: Seq<usize>,
    x: Seq<Option<ContribBlock<T>>>,
    y: Seq<Option<ContribBlock<T>>>,
    k: int,
    i: int,
    j: int,
)
    requires
        agree(kids, x, y),
        0 <= k <= kids.len(),
    ensures
        front_at(*job.a, job.scaling@, rows, lo, hi, kids, x, k, i, j) == front_at(
            *job.a,
            job.scaling@,
            rows,
            lo,
            hi,
            kids,
            y,
            k,
            i,
            j,
        ),
    decreases k,
{
    if k > 0 {
        front_at_agree(job, rows, lo, hi, kids, x, y, k - 1, i, j);
        assert(x[kids[k - 1] as int] == y[kids[k - 1] as int]);
    }
}

/// The front depends on the contributions of the children only.
pub proof fn front_agree<T: Scalar>(
    job: FrontJob<T>,
    s: int,
    x: Seq<Option<ContribBlock<T>>>,
    y: Seq<Option<ContribBlock<T>>>,
    swapped: bool,
    rows: Seq<usize>,
)
    requires
        agree(job.sn()[s].children@, x, y),
    ensures
        front_of(job, s, x, swapped, rows) == front_of(job, s, y, swapped, rows),
        delayed_in(*job.sym, s, x) == delayed_in(*job.sym, s, y),
{
    let kids = job.sn()[s].children@;
    delayed_agree(kids, x, y, kids.len() as int);
    let f = front_of(job, s, x, swapped, rows);
    let g = front_of(job, s, y, swapped, rows);
    let lo = crate::multifrontal::model::own_start(*job.sym, s, x, swapped);
    let hi = lo + job.sn()[s].ncol;
    let m = rows.len() as int;
    assert forall|p: int| 0 <= p < f.len() implies f[p] == g[p] by {
        front_at_agree(job, rows, lo, hi, kids, x, y, kids.len() as int, p % m, p / m);
    }
    assert(f =~= g);
}

/// So do the factors.
pub proof fn made_agree<T: Scalar, K: FrontKernel<T>>(
    job: FrontJob<T>,
    kernel: K,
    s: int,
    x: Seq<Option<ContribBlock<T>>>,
    y: Seq<Option<ContribBlock<T>>>,
    nvschur: int,
    node: NodeFactors<T>,
    block: Option<ContribBlock<T>>,
)
    requires
        agree(job.sn()[s].children@, x, y),
    ensures
        node_made(job, kernel, s, x, nvschur, node, block) ==> node_made(
            job,
            kernel,
            s,
            y,
            nvschur,
            node,
            block,
        ),
        leaf_made(job, kernel, s, x, node, block) ==> leaf_made(job, kernel, s, y, node, block),
{
    let kids = job.sn()[s].children@;
    assert forall|q: int| 0 <= q < kids.len() implies y[#[trigger] kids[q] as int] == x[kids[q] as int] by {
        assert(x[kids[q] as int] == y[kids[q] as int]);
    }
    delayed_agree(kids, x, y, kids.len() as int);
    if node_made(job, kernel, s, x, nvschur, node, block) && !job.is_void(s) {
        done_agrees(
            job,
            kernel,
            s,
            x,
            y,
            nvschur,
            front_order(job, s, x, nvschur),
            node,
            block,
        );
    }
    if leaf_made(job, kernel, s, x, node, block) && !job.is_void(s) {
        done_agrees(job, kernel, s, x, y, 0, leaf_order(job, s), node, block);
    }
}

proof fn done_agrees<T: Scalar, K: FrontKernel<T>>(
    job: FrontJob<T>,
    kernel: K,
    s: int,
    x: Seq<Option<ContribBlock<T>>>,
    y: Seq<Option<ContribBlock<T>>>,
    nvschur: int,
    order: (int, bool, BunchKaufmanParams<T::Real>),
    node: NodeFactors<T>,
    block: Option<ContribBlock<T>>,
)
    requires
        agree(job.sn()[s].children@, x, y),
        agree(job.sn()[s].children@, y, x),
        front_done(job, kernel, s, x, nvschur, order, node, block),
    ensures
        front_done(job, kernel, s, y, nvschur, order, node, block),
{
    let ff = choose|ff: FrontalFactors<T>| #[trigger]
        made_from(job, kernel, s, x, nvschur, order, ff, node, block);
    let swapped = nvschur > 0 && delayed_in(*job.sym, s, x) > 0;
    layout_agree(*job.sym, s, x, y, swapped, node.row_indices@);
    front_agree(job, s, x, y, swapped, node.row_indices@);
    assert(made_from(job, kernel, s, y, nvschur, order, ff, node, block));
}

proof fn giving_up_agrees<T: Scalar, K: FrontKernel<T>>(
    job: FrontJob<T>,
    kernel: K,
    s: int,
    x: Seq<Option<ContribBlock<T>>>,
    y: Seq<Option<ContribBlock<T>>>,
    nvschur: int,
    order: (int, bool, BunchKaufmanParams<T::Real>),
    rows: Seq<usize>,
    e: RslabError,
)
    requires
        agree(job.sn()[s].children@, x, y),
        agree(job.sn()[s].children@, y, x),
        gives_up(job, kernel, s, x, nvschur, order, rows, e),
    ensures
        gives_up(job, kernel, s, y, nvschur, order, rows, e),
{
    let swapped = nvschur > 0 && delayed_in(*job.sym, s, x) > 0;
    layout_agree(*job.sym, s, x, y, swapped, rows);
    front_agree(job, s, x, y, swapped, rows);
}

/// So do the refusals.
pub proof fn refused_agree<T: Scalar, K: FrontKernel<T>>(
    job: FrontJob<T>,
    kernel: K,
    s: int,
    x: Seq<Option<ContribBlock<T>>>,
    y: Seq<Option<ContribBlock<T>>>,
    nvschur: int,
    e: RslabError,
)
    requires
        agree(job.sn()[s].children@, x, y),
    ensures
        node_refused(job, kernel, s, x, nvschur, e) ==> node_refused(
            job,
            kernel,
            s,
            y,
            nvschur,
            e,
        ),
        leaf_refused(job, kernel, s, x, e) ==> leaf_refused(job, kernel, s, y, e),
{
    let kids = job.sn()[s].children@;
    assert forall|q: int| 0 <= q < kids.len() implies y[#[trigger] kids[q] as int] == x[kids[q] as int] by {
        assert(x[kids[q] as int] == y[kids[q] as int]);
    }
    delayed_agree(kids, x, y, kids.len() as int);
    if node_refused(job, kernel, s, x, nvschur, e) && !unfunded(job, s, x) {
        let order = front_order(job, s, x, nvschur);
        let rows = choose|rows: Seq<usize>| #[trigger]
            gives_up(job, kernel, s, x, nvschur, order, rows, e);
        giving_up_agrees(job, kernel, s, x, y, nvschur, order, rows, e);
        assert(order == front_order(job, s, y, nvschur));
        assert(!unfunded(job, s, y));
    }
    if leaf_refused(job, kernel, s, x, e) {
        let order = leaf_order(job, s);
        let rows = choose|rows: Seq<usize>| #[trigger]
            gives_up(job, kernel, s, x, 0, order, rows, e);
        giving_up_agrees(job, kernel, s, x, y, 0, order, rows, e);
    }
}

} // verus!
