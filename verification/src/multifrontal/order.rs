//! The order of elimination: every column is eliminated once.

use crate::multifrontal::kernel::{BunchKaufmanParams, FrontKernel, FrontalFactors};
use crate::multifrontal::model::{
    children_ok, contrib_ok, delayed_in, delayed_rows, delayed_start, descends, descends_up,
    front_layout, front_rows_distinct, in_subtree, kids_ok, last_col, own_cols, own_start,
    owner_unique, owns, parent_is, runs_ok, runs_ordered, subtree_before, ContribBlock,
};
use crate::multifrontal::node::{
    front_done, leading_stays, made_from, void_node, FrontJob, NodeFactors,
};
use crate::multifrontal::tree::{parent_of, Supernode};
use crate::scalar::Scalar;
use crate::seqs::{below, distinct, occurs, permutation_is_onto};
use crate::sparse::position;
use vstd::prelude::*;

verus! {

/// The columns that a node eliminates, in pivot order.
pub open spec fn elim_of<T: Scalar>(node: NodeFactors<T>) -> Seq<usize> {
    Seq::new(
        node.nelim as nat,
        |j: int| node.row_indices@[node.frontal_factors.perm@[j] as int],
    )
}

/// The columns that the first `k` nodes eliminate, in pivot order.
pub open spec fn eliminated<T: Scalar>(nodes: Seq<NodeFactors<T>>, k: int) -> Seq<usize>
    decreases k,
{
    if k <= 0 {
        Seq::empty()
    } else {
        eliminated(nodes, k - 1) + elim_of(nodes[k - 1])
    }
}

/// No supernode before `s` has taken the contribution of `c`.
pub open spec fn unconsumed(sn: Seq<Supernode>, c: int, s: int) -> bool {
    match parent_of(sn, c) {
        Some(p) => p >= s,
        None => true,
    }
}

/// The columns that supernode `c` has passed on.
pub open spec fn delayed_of<T>(cs: Seq<Option<ContribBlock<T>>>, c: int) -> Seq<usize> {
    match cs[c] {
        Some(b) => b.row_indices@.take(b.n_delayed as int),
        None => Seq::empty(),
    }
}

/// The first column that has not been looked at after `s` supernodes.
pub open spec fn frontier(sn: Seq<Supernode>, n: int, s: int) -> int {
    if s < sn.len() {
        sn[s].first_col as int
    } else {
        n
    }
}

/// After `s` supernodes: no column was eliminated twice, and none that was
/// eliminated is still passed on.
pub open spec fn elimination_sound<T: Scalar>(
    sn: Seq<Supernode>,
    n: int,
    nodes: Seq<NodeFactors<T>>,
    cs: Seq<Option<ContribBlock<T>>>,
    s: int,
) -> bool {
    &&& distinct(eliminated(nodes, s))
    &&& below(eliminated(nodes, s), frontier(sn, n, s))
    &&& forall|c: int, g: int|
        #![trigger occurs(delayed_of(cs, c), g)]
        0 <= c < s && unconsumed(sn, c, s) && occurs(delayed_of(cs, c), g) ==> !occurs(
            eliminated(nodes, s),
            g,
        )
}

/// After `s` supernodes: every column looked at was eliminated or is passed on.
pub open spec fn elimination_covers<T: Scalar>(
    sn: Seq<Supernode>,
    n: int,
    nodes: Seq<NodeFactors<T>>,
    cs: Seq<Option<ContribBlock<T>>>,
    s: int,
) -> bool {
    forall|g: int|
        0 <= g < frontier(sn, n, s) ==> #[trigger] occurs(eliminated(nodes, s), g)
            || passed_on(sn, cs, s, g)
}

/// Column `g` is passed on by a supernode before `s`.
pub open spec fn passed_on<T>(
    sn: Seq<Supernode>,
    cs: Seq<Option<ContribBlock<T>>>,
    s: int,
    g: int,
) -> bool {
    exists|c: int|
        0 <= c < s && unconsumed(sn, c, s) && #[trigger] occurs(delayed_of(cs, c), g)
}

/// What the first `s` supernodes have handed over is sound.
pub open spec fn handed_ok<T>(
    sn: Seq<Supernode>,
    n: int,
    cs: Seq<Option<ContribBlock<T>>>,
    s: int,
) -> bool {
    forall|c: int|
        0 <= c < s ==> (#[trigger] cs[c] matches Some(b) ==> contrib_ok(sn, n, c, b))
}

/// Subtrees that nobody has taken yet share no column.
proof fn unconsumed_disjoint(sn: Seq<Supernode>, n: int, c: int, d: int, s: int, col: int)
    requires
        runs_ok(sn, n),
        0 <= c < s,
        0 <= d < s,
        unconsumed(sn, c, s),
        unconsumed(sn, d, s),
        in_subtree(sn, c, col),
        in_subtree(sn, d, col),
    ensures
        c == d,
{
    let o = choose|o: int| #[trigger] owns(sn, o, col) && descends(sn, o, c);
    let q = choose|q: int| #[trigger] owns(sn, q, col) && descends(sn, q, d);
    owner_unique(sn, n, o, q, col);
    meet(sn, o, c, d, s);
}

proof fn meet(sn: Seq<Supernode>, o: int, c: int, d: int, s: int)
    requires
        c < s,
        d < s,
        unconsumed(sn, c, s),
        unconsumed(sn, d, s),
        descends(sn, o, c),
        descends(sn, o, d),
    ensures
        c == d,
    decreases sn.len() - o,
{
    if o == c && o != d {
        descends_up(sn, parent_of(sn, o)->0, d);
    } else if o == d && o != c {
        descends_up(sn, parent_of(sn, o)->0, c);
    } else if o != c {
        meet(sn, parent_of(sn, o)->0, c, d, s);
    }
}

/// A delayed column comes from the contribution of one child.
pub proof fn delayed_from<T>(
    kids: Seq<usize>,
    cs: Seq<Option<ContribBlock<T>>>,
    k: int,
    x: int,
) -> (q: int)
    requires
        0 <= k <= kids.len(),
        0 <= x < delayed_rows(kids, cs, k).len(),
    ensures
        0 <= q < k,
        occurs(delayed_of(cs, kids[q] as int), delayed_rows(kids, cs, k)[x] as int),
    decreases k,
{
    if k > 0 {
        let before = delayed_rows(kids, cs, k - 1);
        let now = delayed_rows(kids, cs, k);
        if x < before.len() {
            assert(now[x] == before[x]);
            delayed_from(kids, cs, k - 1, x)
        } else {
            let d = delayed_of(cs, kids[k - 1] as int);
            assert(now[x] == d[x - before.len()]);
            k - 1
        }
    } else {
        0
    }
}

/// A column that a child passes on is among the delayed ones.
proof fn delayed_to<T>(
    kids: Seq<usize>,
    cs: Seq<Option<ContribBlock<T>>>,
    k: int,
    q: int,
    g: int,
) -> (x: int)
    requires
        0 <= q < k <= kids.len(),
        occurs(delayed_of(cs, kids[q] as int), g),
    ensures
        0 <= x < delayed_rows(kids, cs, k).len(),
        delayed_rows(kids, cs, k)[x] == g,
    decreases k,
{
    let before = delayed_rows(kids, cs, k - 1);
    let now = delayed_rows(kids, cs, k);
    if q == k - 1 {
        let d = delayed_of(cs, kids[q] as int);
        let y = position(d, g);
        assert(d[y] == g);
        assert(now[before.len() + y] == d[y]);
        before.len() + y
    } else {
        let x = delayed_to(kids, cs, k - 1, q, g);
        assert(now[x] == before[x]);
        x
    }
}

/// A fully summed column of the front is an own column, or a child passed it on.
proof fn full_column<T: Scalar>(
    job: FrontJob<T>,
    s: int,
    cs: Seq<Option<ContribBlock<T>>>,
    swapped: bool,
    rows: Seq<usize>,
    p: int,
)
    requires
        job.wf(),
        0 <= s < job.sn().len(),
        kids_ok(job.sn(), job.sym.n as int, s, cs, job.sn()[s].children@.len() as int),
        front_layout(*job.sym, s, cs, swapped, rows),
        0 <= p < job.sn()[s].ncol + delayed_in(*job.sym, s, cs),
    ensures
        job.sn()[s].first_col <= rows[p] < last_col(job.sn(), s) || (rows[p]
            < job.sn()[s].first_col && exists|q: int|
            0 <= q < job.sn()[s].children@.len() && occurs(
                delayed_of(cs, #[trigger] job.sn()[s].children@[q] as int),
                rows[p] as int,
            )),
{
    let sn = job.sn();
    let kids = sn[s].children@;
    let del = delayed_rows(kids, cs, kids.len() as int);
    let own = sn[s].ncol as int;
    let full = own + del.len();
    let olo = own_start(*job.sym, s, cs, swapped);
    let dlo = delayed_start(*job.sym, s, swapped);
    front_rows_distinct(*job.sym, s, cs, swapped, rows);
    if olo <= p < olo + own {
    } else {
        assert(dlo <= p < dlo + del.len());
        let head = if swapped {
            del + own_cols(sn[s])
        } else {
            own_cols(sn[s]) + del
        };
        assert(rows.take(full)[p] == head[p]);
        assert(rows[p] == del[p - dlo]);
        let q = delayed_from(kids, cs, kids.len() as int, p - dlo);
        assert(occurs(delayed_of(cs, kids[q] as int), rows[p] as int));
        assert(rows[p] < sn[s].first_col);
    }
}

/// A fully summed column is new.
proof fn full_is_new<T: Scalar>(
    job: FrontJob<T>,
    s: int,
    cs: Seq<Option<ContribBlock<T>>>,
    nodes: Seq<NodeFactors<T>>,
    swapped: bool,
    rows: Seq<usize>,
    p: int,
)
    requires
        job.wf(),
        0 <= s < job.sn().len(),
        kids_ok(job.sn(), job.sym.n as int, s, cs, job.sn()[s].children@.len() as int),
        elimination_sound(job.sn(), job.sym.n as int, nodes, cs, s),
        front_layout(*job.sym, s, cs, swapped, rows),
        0 <= p < job.sn()[s].ncol + delayed_in(*job.sym, s, cs),
    ensures
        !occurs(eliminated(nodes, s), rows[p] as int),
        rows[p] < last_col(job.sn(), s),
{
    let sn = job.sn();
    let kids = sn[s].children@;
    full_column(job, s, cs, swapped, rows, p);
    let e = eliminated(nodes, s);
    if occurs(e, rows[p] as int) {
        assert(e[position(e, rows[p] as int)] < frontier(sn, job.sym.n as int, s));
    }
    if rows[p] < sn[s].first_col {
        let q = choose|q: int|
            0 <= q < kids.len() && occurs(
                delayed_of(cs, #[trigger] kids[q] as int),
                rows[p] as int,
            );
        let c = kids[q] as int;
        assert(occurs(kids, c));
        assert(below(sn[s].children@, s));
        parent_is(sn, c, s, sn.len() as int);
        assert(unconsumed(sn, c, s));
    }
}

/// Facts about a node and what it hands over.
proof fn handed_column<T: Scalar, K: FrontKernel<T>>(
    job: FrontJob<T>,
    kernel: K,
    s: int,
    cs: Seq<Option<ContribBlock<T>>>,
    nvschur: int,
    order: (int, bool, BunchKaufmanParams<T::Real>),
    ff: FrontalFactors<T>,
    node: NodeFactors<T>,
    g: int,
) -> (k: int)
    requires
        0 <= s < cs.len(),
        0 <= nvschur,
        order.0 <= job.sn()[s].ncol + delayed_in(*job.sym, s, cs),
        made_from(job, kernel, s, cs, nvschur, order, ff, node, cs[s]),
        occurs(delayed_of(cs, s), g),
    ensures
        ff.nelim <= k < order.0,
        node.row_indices@[ff.perm@[k] as int] == g,
        ff.perm@[k] < order.0,
{
    let d = delayed_of(cs, s);
    let y = position(d, g);
    assert(d[y] == g);
    let b = cs[s]->0;
    assert(b.row_indices@[y] == node.row_indices@[ff.perm@[ff.nelim + y] as int]);
    leading_stays(ff.perm@, node.row_indices@.len() as int, order.0, ff.nelim + y);
    ff.nelim + y
}

/// One more supernode keeps the elimination sound.
pub proof fn elimination_step<T: Scalar, K: FrontKernel<T>>(
    job: FrontJob<T>,
    kernel: K,
    s: int,
    cs: Seq<Option<ContribBlock<T>>>,
    nvschur: int,
    order: (int, bool, BunchKaufmanParams<T::Real>),
    nodes: Seq<NodeFactors<T>>,
)
    requires
        job.wf(),
        0 <= s < job.sn().len(),
        s < cs.len(),
        s < nodes.len(),
        handed_ok(job.sn(), job.sym.n as int, cs, s),
        elimination_sound(job.sn(), job.sym.n as int, nodes, cs, s),
        0 <= nvschur,
        order.0 == job.sn()[s].ncol + delayed_in(*job.sym, s, cs) - nvschur,
        front_done(job, kernel, s, cs, nvschur, order, nodes[s], cs[s]),
    ensures
        elimination_sound(job.sn(), job.sym.n as int, nodes, cs, s + 1),
{
    let sn = job.sn();
    let n = job.sym.n as int;
    let node = nodes[s];
    let ff = choose|ff: FrontalFactors<T>| #[trigger]
        made_from(job, kernel, s, cs, nvschur, order, ff, node, cs[s]);
    let kids = sn[s].children@;
    let rows = node.row_indices@;
    let m = rows.len() as int;
    let swapped = nvschur > 0 && delayed_in(*job.sym, s, cs) > 0;
    assert(below(sn[s].children@, s));
    assert(kids_ok(sn, n, s, cs, kids.len() as int)) by {
        assert forall|q: int| 0 <= q < kids.len() implies (cs[#[trigger] kids[q] as int] matches Some(b)
            ==> contrib_ok(sn, n, kids[q] as int, b)) by {
            assert(kids[q] < s);
        }
    }
    front_rows_distinct(*job.sym, s, cs, swapped, rows);
    let e0 = eliminated(nodes, s);
    let fresh = elim_of(node);
    let e1 = eliminated(nodes, s + 1);
    assert(e1 == e0 + fresh);
    let perm = ff.perm@;
    assert forall|j: int| 0 <= j < fresh.len() implies 0 <= perm[j] < order.0 && #[trigger] fresh[j]
        == rows[perm[j] as int] && !occurs(e0, fresh[j] as int) && fresh[j] < last_col(sn, s) by {
        leading_stays(perm, m, order.0, j);
        full_is_new(job, s, cs, nodes, swapped, rows, perm[j] as int);
    }
    assert(frontier(sn, n, s + 1) == last_col(sn, s)) by {
        if s + 1 < sn.len() {
            assert(last_col(sn, s) == sn[s + 1].first_col);
        }
    }
    assert forall|x: int, y: int| 0 <= x < y < e1.len() implies #[trigger] e1[x] != #[trigger] e1[y] by {
        if y < e0.len() {
            assert(e0[x] != e0[y]);
        } else {
            let jy = y - e0.len();
            assert(e1[y] == fresh[jy]);
            if x < e0.len() {
                assert(e1[x] == e0[x]);
                assert(occurs(e0, e0[x] as int));
            } else {
                let jx = x - e0.len();
                assert(e1[x] == fresh[jx]);
                assert(perm[jx] != perm[jy]);
                let px = perm[jx] as int;
                let py = perm[jy] as int;
                if px < py {
                    assert(rows[px] != rows[py]);
                } else {
                    assert(rows[py] != rows[px]);
                }
            }
        }
    }
    assert forall|x: int| 0 <= x < e1.len() implies #[trigger] e1[x] < frontier(sn, n, s + 1) by {
        if x < e0.len() {
            assert(e1[x] == e0[x]);
            assert(e0[x] < frontier(sn, n, s));
        } else {
            assert(e1[x] == fresh[x - e0.len()]);
        }
    }
    assert forall|c: int, g: int|
        #![trigger occurs(delayed_of(cs, c), g)]
        0 <= c < s + 1 && unconsumed(sn, c, s + 1) && occurs(delayed_of(cs, c), g) implies !occurs(
        e1,
        g,
    ) by {
        if c == s {
            let k = handed_column(job, kernel, s, cs, nvschur, order, ff, node, g);
            full_is_new(job, s, cs, nodes, swapped, rows, perm[k] as int);
            if occurs(e1, g) {
                let x = position(e1, g);
                assert(e1[x] == g);
                if x < e0.len() {
                    assert(e0[x] == g);
                    assert(occurs(e0, g));
                } else {
                    let j = x - e0.len();
                    assert(fresh[j] == g);
                    assert(perm[j] != perm[k]);
                    let pj = perm[j] as int;
                    let pk = perm[k] as int;
                    if pj < pk {
                        assert(rows[pj] != rows[pk]);
                    } else {
                        assert(rows[pk] != rows[pj]);
                    }
                }
            }
        } else {
            assert(unconsumed(sn, c, s));
            assert(!occurs(e0, g));
            let b = cs[c]->0;
            assert(contrib_ok(sn, n, c, b));
            let d = delayed_of(cs, c);
            let y = position(d, g);
            assert(d[y] == g);
            assert(in_subtree(sn, c, b.row_indices@[y] as int));
            subtree_before(sn, n, c, g);
            runs_ordered(sn, n, c, s);
            if occurs(e1, g) {
                let x = position(e1, g);
                assert(e1[x] == g);
                if x < e0.len() {
                    assert(e0[x] == g);
                    assert(occurs(e0, g));
                } else {
                    let j = x - e0.len();
                    assert(fresh[j] == g);
                    full_column(job, s, cs, swapped, rows, perm[j] as int);
                    let q = choose|q: int|
                        0 <= q < kids.len() && occurs(
                            delayed_of(cs, #[trigger] kids[q] as int),
                            g,
                        );
                    let c2 = kids[q] as int;
                    assert(occurs(kids, c2));
                    parent_is(sn, c2, s, sn.len() as int);
                    let b2 = cs[c2]->0;
                    assert(contrib_ok(sn, n, c2, b2));
                    let d2 = delayed_of(cs, c2);
                    let y2 = position(d2, g);
                    assert(d2[y2] == g);
                    assert(in_subtree(sn, c2, b2.row_indices@[y2] as int));
                    unconsumed_disjoint(sn, n, c, c2, s, g);
                }
            }
        }
    }
}

/// A supernode without rows or columns keeps the elimination sound.
pub proof fn elimination_void<T: Scalar>(
    job: FrontJob<T>,
    s: int,
    cs: Seq<Option<ContribBlock<T>>>,
    nodes: Seq<NodeFactors<T>>,
)
    requires
        job.wf(),
        0 <= s < job.sn().len(),
        s < cs.len(),
        s < nodes.len(),
        elimination_sound(job.sn(), job.sym.n as int, nodes, cs, s),
        void_node(job, s, nodes[s]),
        cs[s] is None,
    ensures
        elimination_sound(job.sn(), job.sym.n as int, nodes, cs, s + 1),
{
    let sn = job.sn();
    let n = job.sym.n as int;
    assert(eliminated(nodes, s + 1) =~= eliminated(nodes, s));
    assert(frontier(sn, n, s + 1) == last_col(sn, s)) by {
        if s + 1 < sn.len() {
            assert(last_col(sn, s) == sn[s + 1].first_col);
        }
    }
    let e = eliminated(nodes, s);
    assert forall|x: int| 0 <= x < e.len() implies #[trigger] e[x] < frontier(sn, n, s + 1) by {
        assert(e[x] < frontier(sn, n, s));
    }
    assert forall|c: int, g: int|
        #![trigger occurs(delayed_of(cs, c), g)]
        0 <= c < s + 1 && unconsumed(sn, c, s + 1) && occurs(delayed_of(cs, c), g) implies !occurs(
        eliminated(nodes, s + 1),
        g,
    ) by {
        if c < s {
            assert(unconsumed(sn, c, s));
        }
    }
}

/// Where a fully summed column ends up: eliminated or passed on.
proof fn column_goes<T: Scalar, K: FrontKernel<T>>(
    job: FrontJob<T>,
    kernel: K,
    s: int,
    cs: Seq<Option<ContribBlock<T>>>,
    order: (int, bool, BunchKaufmanParams<T::Real>),
    nodes: Seq<NodeFactors<T>>,
    p: int,
)
    requires
        job.wf(),
        0 <= s < job.sn().len(),
        s < cs.len(),
        s < nodes.len(),
        order.0 == job.sn()[s].ncol + delayed_in(*job.sym, s, cs),
        front_done(job, kernel, s, cs, 0, order, nodes[s], cs[s]),
        0 <= p < order.0,
    ensures
        occurs(eliminated(nodes, s + 1), nodes[s].row_indices@[p] as int) || occurs(
            delayed_of(cs, s),
            nodes[s].row_indices@[p] as int,
        ),
{
    let node = nodes[s];
    let ff = choose|ff: FrontalFactors<T>| #[trigger]
        made_from(job, kernel, s, cs, 0, order, ff, node, cs[s]);
    let rows = node.row_indices@;
    let m = rows.len() as int;
    let perm = ff.perm@;
    permutation_is_onto(perm, m, p);
    let j = position(perm, p);
    assert(perm[j] == p);
    if j >= order.0 {
        assert(perm[j] == j);
    }
    if j < ff.nelim {
        let e0 = eliminated(nodes, s);
        let e1 = eliminated(nodes, s + 1);
        assert(e1[e0.len() + j] == elim_of(node)[j]);
    } else {
        let b = cs[s]->0;
        let k = j - ff.nelim;
        assert(b.row_indices@[k] == rows[perm[ff.nelim + k] as int]);
        assert(delayed_of(cs, s)[k] == rows[p]);
    }
}

/// One more supernode leaves no column behind.
pub proof fn cover_step<T: Scalar, K: FrontKernel<T>>(
    job: FrontJob<T>,
    kernel: K,
    s: int,
    cs: Seq<Option<ContribBlock<T>>>,
    order: (int, bool, BunchKaufmanParams<T::Real>),
    nodes: Seq<NodeFactors<T>>,
)
    requires
        job.wf(),
        0 <= s < job.sn().len(),
        s < cs.len(),
        s < nodes.len(),
        handed_ok(job.sn(), job.sym.n as int, cs, s),
        elimination_covers(job.sn(), job.sym.n as int, nodes, cs, s),
        order.0 == job.sn()[s].ncol + delayed_in(*job.sym, s, cs),
        front_done(job, kernel, s, cs, 0, order, nodes[s], cs[s]),
    ensures
        elimination_covers(job.sn(), job.sym.n as int, nodes, cs, s + 1),
{
    let sn = job.sn();
    let n = job.sym.n as int;
    let kids = sn[s].children@;
    let rows = nodes[s].row_indices@;
    let e0 = eliminated(nodes, s);
    let e1 = eliminated(nodes, s + 1);
    let del = delayed_rows(kids, cs, kids.len() as int);
    let full = sn[s].ncol + del.len();
    let ff = choose|ff: FrontalFactors<T>| #[trigger]
        made_from(job, kernel, s, cs, 0, order, ff, nodes[s], cs[s]);
    assert(front_layout(*job.sym, s, cs, false, rows));
    assert(below(sn[s].children@, s));
    assert(unconsumed(sn, s, s + 1)) by {
        if let Some(p) = parent_of(sn, s) {
            own_parent_later(sn, s);
        }
    }
    assert forall|g: int| 0 <= g < frontier(sn, n, s + 1) implies #[trigger] occurs(e1, g)
        || passed_on(sn, cs, s + 1, g) by {
        if s + 1 < sn.len() {
            assert(last_col(sn, s) == sn[s + 1].first_col);
        }
        if g >= sn[s].first_col {
            let p = g - sn[s].first_col;
            assert(rows.take(full)[p] == (own_cols(sn[s]) + del)[p]);
            assert(rows[p] == g);
            column_goes(job, kernel, s, cs, order, nodes, p);
            if occurs(delayed_of(cs, s), g) {
                assert(passed_on(sn, cs, s + 1, g));
            }
        } else if occurs(e0, g) {
            let x = position(e0, g);
            assert(e1[x] == g);
        } else {
            assert(passed_on(sn, cs, s, g));
            let c = choose|c: int|
                0 <= c < s && unconsumed(sn, c, s) && #[trigger] occurs(delayed_of(cs, c), g);
            if unconsumed(sn, c, s + 1) {
                assert(passed_on(sn, cs, s + 1, g));
            } else {
                parent_lists(sn, c, sn.len() as int);
                assert(occurs(kids, c));
                let q = position(kids, c);
                assert(kids[q] == c);
                let x = delayed_to(kids, cs, kids.len() as int, q, g);
                let p = sn[s].ncol + x;
                assert(rows.take(full)[p] == (own_cols(sn[s]) + del)[p]);
                assert(rows[p] == g);
                column_goes(job, kernel, s, cs, order, nodes, p);
                if occurs(delayed_of(cs, s), g) {
                    assert(passed_on(sn, cs, s + 1, g));
                }
            }
        }
    }
}

/// The parent lists the child.
pub proof fn parent_lists(sn: Seq<Supernode>, c: int, k: int)
    requires
        0 <= k <= sn.len(),
    ensures
        crate::multifrontal::tree::parent_upto(sn, c, k) matches Some(p) ==> 0 <= p < k && occurs(
            sn[p].children@,
            c,
        ),
    decreases k,
{
    if k > 0 && !occurs(sn[k - 1].children@, c) {
        parent_lists(sn, c, k - 1);
    }
}

/// A parent comes later.
pub proof fn own_parent_later(sn: Seq<Supernode>, c: int)
    requires
        children_ok(sn),
        parent_of(sn, c) is Some,
    ensures
        parent_of(sn, c)->0 > c,
        parent_of(sn, c)->0 < sn.len(),
{
    parent_lists(sn, c, sn.len() as int);
    let p = parent_of(sn, c)->0;
    let kids = sn[p].children@;
    assert(kids[position(kids, c)] == c);
    assert(below(sn[p].children@, p));
}

} // verus!
