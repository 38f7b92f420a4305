//! The stored factors of a sparse symmetric matrix, and what can be read off
//! them.

use crate::multifrontal::driver::{batches, in_group, node_done, tree_done, tree_ready};
use crate::multifrontal::kernel::{BunchKaufmanParams, FrontKernel, FrontalFactors, Inertia};
use crate::multifrontal::model::{
    contrib_ok, delayed_in, front_rows_distinct, kids_ok, last_col, ContribBlock,
};
use crate::multifrontal::node::{
    front_done, front_order, leaf_order, made_from, void_node, FrontJob, NodeFactors,
};
use crate::multifrontal::order::{
    cover_step, delayed_of, elim_of, eliminated, elimination_covers, elimination_sound,
    elimination_step, elimination_void, frontier, handed_ok, parent_lists, passed_on, unconsumed,
};
use crate::multifrontal::tree::{is_root, parent_of, parent_upto, Supernode};
use crate::scalar::Scalar;
use crate::seqs::{below, distinct, distinct_below_len, inverse_of, is_permutation, occurs};
use crate::sparse::position;
use vstd::prelude::*;

verus! {

/// The factors of a sparse symmetric matrix.
#[derive(Clone)]
pub struct SparseFactors<T: Scalar> {
    /// Matrix dimension.
    pub n: usize,
    /// Fill-reducing permutation, new to old.
    pub perm: Vec<usize>,
    /// Its inverse, old to new.
    pub perm_inv: Vec<usize>,
    /// The factors of the supernodes, children before parents.
    pub node_factors: Vec<NodeFactors<T>>,
    /// Some pivot was accepted below its threshold.
    pub needs_refinement: bool,
    /// The symmetric scaling, in the order of the caller.
    pub scaling: Vec<T>,
}

/// The parts of a node have the right sizes.
pub open spec fn node_ok<T: Scalar>(node: NodeFactors<T>, n: int) -> bool {
    let ff = node.frontal_factors;
    &&& node.row_indices@.len() == node.nrow
    &&& distinct(node.row_indices@)
    &&& below(node.row_indices@, n)
    &&& ff.nrow == node.nrow
    &&& ff.nelim == node.nelim
    &&& node.nelim <= node.nrow
    &&& ff.l@.len() == node.nrow * node.nelim
    &&& ff.d_diag@.len() == node.nelim
    &&& ff.d_subdiag@.len() == node.nelim
    &&& is_permutation(ff.perm@, node.nrow as int)
    &&& node.inertia.count() == node.nelim
}

impl<T: Scalar> SparseFactors<T> {
    /// The columns in the order of elimination, in the permuted numbering.
    pub open spec fn pivots(&self) -> Seq<usize> {
        eliminated(self.node_factors@, self.node_factors@.len() as int)
    }

    /// The nodes have the right sizes, and no column is eliminated twice.
    pub open spec fn wf(&self) -> bool {
        &&& is_permutation(self.perm@, self.n as int)
        &&& inverse_of(self.perm_inv@, self.perm@)
        &&& is_permutation(self.perm_inv@, self.n as int)
        &&& self.scaling@.len() == self.n
        &&& forall|s: int|
            0 <= s < self.node_factors@.len() ==> node_ok(
                #[trigger] self.node_factors@[s],
                self.n as int,
            )
        &&& distinct(self.pivots())
        &&& below(self.pivots(), self.n as int)
    }

    /// Every column is eliminated.
    pub open spec fn complete(&self) -> bool {
        self.pivots().len() == self.n
    }
}

/// A node that was made has the right sizes; how its kernel was asked.
pub proof fn made_is_ok<T: Scalar, K: FrontKernel<T>>(
    job: FrontJob<T>,
    kernel: K,
    batch: bool,
    nvs: Seq<usize>,
    nodes: Seq<NodeFactors<T>>,
    cs: Seq<Option<ContribBlock<T>>>,
    s: int,
) -> (order: (int, bool, BunchKaufmanParams<T::Real>))
    requires
        tree_ready(job, batch, nvs),
        tree_done(job, kernel, batch, nvs, nodes, cs),
        handed_ok(job.sn(), job.sym.n as int, cs, s),
        0 <= s < nodes.len(),
    ensures
        node_ok(nodes[s], job.sym.n as int),
        job.is_void(s) ==> void_node(job, s, nodes[s]) && cs[s] is None,
        !job.is_void(s) ==> order.0 == job.sn()[s].ncol + delayed_in(*job.sym, s, cs) - nvs[s]
            && front_done(job, kernel, s, cs, nvs[s] as int, order, nodes[s], cs[s]) && (is_root(
            job.sn(),
            s,
        ) ==> !order.1),
{
    let node = nodes[s];
    assert(node_done(job, kernel, batch, s, cs, nvs[s] as int, nodes[s]));
    let leaf = batches(job, batch) && job.sym.snode_group@[s] is Some;
    let order = if leaf {
        leaf_order(job, s)
    } else {
        front_order(job, s, cs, nvs[s] as int)
    };
    if !job.is_void(s) {
        let kids = job.sn()[s].children@;
        if leaf {
            assert(nvs[s] == 0);
            assert(in_group(*job.sym, s, job.sym.snode_group@[s]->0 as int));
            assert(delayed_in(*job.sym, s, cs) == 0);
        }
        assert(front_done(job, kernel, s, cs, nvs[s] as int, order, node, cs[s]));
        let ff = choose|ff: FrontalFactors<T>| #[trigger]
            made_from(job, kernel, s, cs, nvs[s] as int, order, ff, node, cs[s]);
        assert(below(job.sn()[s].children@, s));
        assert(kids_ok(job.sn(), job.sym.n as int, s, cs, kids.len() as int)) by {
            assert forall|q: int| 0 <= q < kids.len() implies (cs[#[trigger] kids[q] as int] matches Some(
                b,
            ) ==> contrib_ok(job.sn(), job.sym.n as int, kids[q] as int, b)) by {
                assert(kids[q] < s);
            }
        }
        front_rows_distinct(
            *job.sym,
            s,
            cs,
            nvs[s] > 0 && delayed_in(*job.sym, s, cs) > 0,
            node.row_indices@,
        );
    }
    order
}

/// What every supernode but those with a tail hands over is sound.
pub open spec fn all_handed_ok<T>(
    sn: Seq<Supernode>,
    n: int,
    nvs: Seq<usize>,
    cs: Seq<Option<ContribBlock<T>>>,
) -> bool {
    forall|c: int|
        0 <= c < sn.len() && nvs[c] == 0 ==> (#[trigger] cs[c] matches Some(b) ==> contrib_ok(
            sn,
            n,
            c,
            b,
        ))
}

/// A factored tree eliminates no column twice.
pub proof fn tree_is_sound<T: Scalar, K: FrontKernel<T>>(
    job: FrontJob<T>,
    kernel: K,
    batch: bool,
    nvs: Seq<usize>,
    nodes: Seq<NodeFactors<T>>,
    cs: Seq<Option<ContribBlock<T>>>,
    s: int,
)
    requires
        tree_ready(job, batch, nvs),
        tree_done(job, kernel, batch, nvs, nodes, cs),
        all_handed_ok(job.sn(), job.sym.n as int, nvs, cs),
        0 <= s <= nodes.len(),
    ensures
        elimination_sound(job.sn(), job.sym.n as int, nodes, cs, s),
        forall|q: int| 0 <= q < s ==> node_ok(#[trigger] nodes[q], job.sym.n as int),
    decreases s,
{
    let sn = job.sn();
    let n = job.sym.n as int;
    if s == 0 {
        assert(eliminated(nodes, 0) =~= Seq::<usize>::empty());
    } else {
        let t = s - 1;
        tree_is_sound(job, kernel, batch, nvs, nodes, cs, t);
        assert(handed_ok(sn, n, cs, t));
        let order = made_is_ok(job, kernel, batch, nvs, nodes, cs, t);
        if job.is_void(t) {
            elimination_void(job, t, cs, nodes);
        } else {
            elimination_step(job, kernel, t, cs, nvs[t] as int, order, nodes);
        }
    }
}

/// No supernode with columns lacks rows, and none without has children.
pub open spec fn tree_regular(sn: Seq<Supernode>) -> bool {
    &&& forall|s: int| 0 <= s < sn.len() && (#[trigger] sn[s]).ncol > 0 ==> sn[s].nrow > 0
    &&& forall|s: int| 0 <= s < sn.len() && (#[trigger] sn[s]).ncol == 0 ==> sn[s].children@.len() == 0
}

/// A factored tree leaves no column behind.
proof fn tree_covers<T: Scalar, K: FrontKernel<T>>(
    job: FrontJob<T>,
    kernel: K,
    batch: bool,
    nvs: Seq<usize>,
    nodes: Seq<NodeFactors<T>>,
    cs: Seq<Option<ContribBlock<T>>>,
    s: int,
)
    requires
        tree_ready(job, batch, nvs),
        tree_done(job, kernel, batch, nvs, nodes, cs),
        all_handed_ok(job.sn(), job.sym.n as int, nvs, cs),
        tree_regular(job.sn()),
        forall|q: int| 0 <= q < nvs.len() ==> #[trigger] nvs[q] == 0,
        0 <= s <= nodes.len(),
    ensures
        elimination_covers(job.sn(), job.sym.n as int, nodes, cs, s),
    decreases s,
{
    let sn = job.sn();
    let n = job.sym.n as int;
    if s > 0 {
        let t = s - 1;
        tree_covers(job, kernel, batch, nvs, nodes, cs, t);
        assert(nvs[t] == 0);
        assert(handed_ok(sn, n, cs, t)) by {
            assert forall|c: int| 0 <= c < t implies (#[trigger] cs[c] matches Some(b) ==> contrib_ok(
                sn,
                n,
                c,
                b,
            )) by {
                assert(nvs[c] == 0);
            }
        }
        let order = made_is_ok(job, kernel, batch, nvs, nodes, cs, t);
        if job.is_void(t) {
            assert(sn[t].ncol == 0);
            assert(eliminated(nodes, s) =~= eliminated(nodes, t));
            assert(frontier(sn, n, s) == frontier(sn, n, t)) by {
                if s < sn.len() {
                    assert(last_col(sn, t) == sn[t + 1].first_col);
                }
            }
            assert forall|g: int| 0 <= g < frontier(sn, n, s) implies #[trigger] occurs(
                eliminated(nodes, s),
                g,
            ) || passed_on(sn, cs, s, g) by {
                if !occurs(eliminated(nodes, t), g) {
                    assert(passed_on(sn, cs, t, g));
                    let c = choose|c: int|
                        0 <= c < t && unconsumed(sn, c, t) && #[trigger] occurs(
                            delayed_of(cs, c),
                            g,
                        );
                    if !unconsumed(sn, c, s) {
                        parent_lists(sn, c, sn.len() as int);
                        assert(occurs(sn[t].children@, c));
                    }
                    assert(passed_on(sn, cs, s, g));
                }
            }
        } else {
            cover_step(job, kernel, t, cs, order, nodes);
        }
    } else {
        assert(frontier(sn, n, 0) == 0);
    }
}

/// A factored tree eliminates every column.
pub proof fn tree_is_complete<T: Scalar, K: FrontKernel<T>>(
    job: FrontJob<T>,
    kernel: K,
    batch: bool,
    nvs: Seq<usize>,
    nodes: Seq<NodeFactors<T>>,
    cs: Seq<Option<ContribBlock<T>>>,
)
    requires
        tree_ready(job, batch, nvs),
        tree_done(job, kernel, batch, nvs, nodes, cs),
        all_handed_ok(job.sn(), job.sym.n as int, nvs, cs),
        tree_regular(job.sn()),
        forall|q: int| 0 <= q < nvs.len() ==> #[trigger] nvs[q] == 0,
    ensures
        eliminated(nodes, nodes.len() as int).len() == job.sym.n,
{
    let sn = job.sn();
    let n = job.sym.n as int;
    let len = sn.len() as int;
    tree_is_sound(job, kernel, batch, nvs, nodes, cs, len);
    tree_covers(job, kernel, batch, nvs, nodes, cs, len);
    let e = eliminated(nodes, len);
    assert(frontier(sn, n, len) == n);
    distinct_below_len(e, n);
    assert forall|g: int| 0 <= g < n implies #[trigger] occurs(e, g) by {
        if !occurs(e, g) {
            assert(passed_on(sn, cs, len, g));
            let c = choose|c: int|
                0 <= c < len && unconsumed(sn, c, len) && #[trigger] occurs(delayed_of(cs, c), g);
            parent_lists(sn, c, len);
            assert(parent_of(sn, c) is None);
            no_parent_is_root(sn, c);
            assert(nvs[c] == 0);
            assert(handed_ok(sn, n, cs, c)) by {
                assert forall|d: int| 0 <= d < c implies (#[trigger] cs[d] matches Some(b) ==> contrib_ok(
                    sn,
                    n,
                    d,
                    b,
                )) by {
                    assert(nvs[d] == 0);
                }
            }
            let order = made_is_ok(job, kernel, batch, nvs, nodes, cs, c);
            if !job.is_void(c) {
                let ff = choose|ff: FrontalFactors<T>| #[trigger]
                    made_from(job, kernel, c, cs, 0, order, ff, nodes[c], cs[c]);
                assert(ff.n_delayed == 0);
            }
            assert(delayed_of(cs, c).len() == 0);
        }
    }
    onto_is_long(e, n);
}

/// Who has no parent is a root.
pub proof fn no_parent_is_root(sn: Seq<Supernode>, c: int)
    requires
        parent_of(sn, c) is None,
    ensures
        is_root(sn, c),
{
    if !is_root(sn, c) {
        let t = choose|t: int| 0 <= t < sn.len() && occurs((#[trigger] sn[t]).children@, c);
        listed_has_parent(sn, c, t, sn.len() as int);
    }
}

proof fn listed_has_parent(sn: Seq<Supernode>, c: int, t: int, k: int)
    requires
        0 <= t < k <= sn.len(),
        occurs(sn[t].children@, c),
    ensures
        parent_upto(sn, c, k) is Some,
    decreases k,
{
    if !occurs(sn[k - 1].children@, c) {
        listed_has_parent(sn, c, t, k - 1);
    }
}

/// A list that reaches all of `0..n` has at least `n` members.
proof fn onto_is_long(e: Seq<usize>, n: int)
    requires
        0 <= n <= usize::MAX,
        forall|g: int| 0 <= g < n ==> #[trigger] occurs(e, g),
    ensures
        e.len() >= n,
{
    let p = Seq::new(n as nat, |g: int| position(e, g) as usize);
    assert forall|g: int| 0 <= g < n implies 0 <= position(e, g) < e.len() && #[trigger] e[position(
        e,
        g,
    )] == g by {
        assert(occurs(e, g));
    }
    if e.len() < n {
        assert forall|g: int| 0 <= g < n implies #[trigger] p[g] < e.len() by {
            assert(e[position(e, g)] == g);
        }
        assert forall|x: int, y: int| 0 <= x < y < n implies #[trigger] p[x] != #[trigger] p[y] by {
            assert(e[position(e, x)] == x);
            assert(e[position(e, y)] == y);
        }
        distinct_below_len(p, e.len() as int);
    }
}

/// The pivots of the first `k` nodes by sign.
pub open spec fn inertia_upto<T: Scalar>(nodes: Seq<NodeFactors<T>>, k: int) -> (int, int, int)
    decreases k,
{
    if k <= 0 {
        (0, 0, 0)
    } else {
        let (p, m, z) = inertia_upto(nodes, k - 1);
        let i = nodes[k - 1].inertia;
        (p + i.positive, m + i.negative, z + i.zero)
    }
}

/// The signs add up to the eliminated columns.
pub proof fn inertia_counts<T: Scalar>(nodes: Seq<NodeFactors<T>>, n: int, k: int)
    requires
        0 <= k <= nodes.len(),
        forall|s: int| 0 <= s < k ==> node_ok(#[trigger] nodes[s], n),
    ensures
        inertia_upto(nodes, k).0 + inertia_upto(nodes, k).1 + inertia_upto(nodes, k).2
            == eliminated(nodes, k).len(),
        0 <= inertia_upto(nodes, k).0,
        0 <= inertia_upto(nodes, k).1,
        0 <= inertia_upto(nodes, k).2,
    decreases k,
{
    if k > 0 {
        inertia_counts(nodes, n, k - 1);
        assert(node_ok(nodes[k - 1], n));
        assert(elim_of(nodes[k - 1]).len() == nodes[k - 1].nelim);
    }
}

/// The eliminated columns only grow in number.
proof fn eliminated_grows<T: Scalar>(nodes: Seq<NodeFactors<T>>, j: int, k: int)
    requires
        0 <= j <= k,
    ensures
        eliminated(nodes, j).len() <= eliminated(nodes, k).len(),
    decreases k - j,
{
    if j < k {
        eliminated_grows(nodes, j, k - 1);
    }
}

/// Some of the first `k` nodes needs refinement.
pub open spec fn refinement_upto<T: Scalar>(nodes: Seq<NodeFactors<T>>, k: int) -> bool {
    exists|s: int| 0 <= s < k && (#[trigger] nodes[s]).frontal_factors.needs_refinement
}

/// The inertia of all nodes, and whether any needs refinement.
pub fn collect_totals<T: Scalar>(nodes: &Vec<NodeFactors<T>>, n: usize) -> (r: (Inertia, bool))
    requires
        forall|s: int| 0 <= s < nodes@.len() ==> node_ok(#[trigger] nodes@[s], n as int),
        distinct(eliminated(nodes@, nodes@.len() as int)),
        below(eliminated(nodes@, nodes@.len() as int), n as int),
    ensures
        (r.0.positive as int, r.0.negative as int, r.0.zero as int) == inertia_upto(
            nodes@,
            nodes@.len() as int,
        ),
        r.1 == refinement_upto(nodes@, nodes@.len() as int),
{
    let len: usize = nodes.len();
    let mut total = Inertia::new(0, 0, 0);
    let mut refine = false;
    proof {
        distinct_below_len(eliminated(nodes@, len as int), n as int);
    }
    let mut k: usize = 0;
    while k < len
        invariant
            k <= len,
            len == nodes@.len(),
            forall|s: int| 0 <= s < len ==> node_ok(#[trigger] nodes@[s], n as int),
            eliminated(nodes@, len as int).len() <= n,
            (total.positive as int, total.negative as int, total.zero as int) == inertia_upto(
                nodes@,
                k as int,
            ),
            refine == refinement_upto(nodes@, k as int),
        decreases len - k,
    {
        proof {
            inertia_counts(nodes@, n as int, k + 1);
            inertia_counts(nodes@, n as int, k as int);
            eliminated_grows(nodes@, k + 1, len as int);
        }
        let i = nodes[k].inertia;
        total = Inertia::new(
            total.positive + i.positive,
            total.negative + i.negative,
            total.zero + i.zero,
        );
        let ghost before = refine;
        if nodes[k].frontal_factors.needs_refinement {
            refine = true;
        }
        proof {
            let now = refinement_upto(nodes@, k + 1);
            if nodes@[k as int].frontal_factors.needs_refinement {
                assert(now);
            }
            if before {
                let s = choose|s: int|
                    0 <= s < k && (#[trigger] nodes@[s]).frontal_factors.needs_refinement;
                assert(nodes@[s].frontal_factors.needs_refinement);
            }
            if now && !nodes@[k as int].frontal_factors.needs_refinement {
                let s = choose|s: int|
                    0 <= s < k + 1 && (#[trigger] nodes@[s]).frontal_factors.needs_refinement;
                assert(s < k);
            }
        }
        k = k + 1;
    }
    (total, refine)
}

} // verus!
