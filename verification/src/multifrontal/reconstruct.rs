//! The products of all nodes add up to the matrix.

use crate::algebra::{
    plus_shuffle, sum, sum_bump, sum_ext, sum_plus, sum_single, sum_zero, zero_plus,
};
use crate::multifrontal::driver::{tree_done, tree_ready};
use crate::multifrontal::factors::{
    all_handed_ok, made_is_ok, no_parent_is_root, tree_regular,
};
use crate::multifrontal::fronts::{
    exact_kernel, front_assembled, front_splits, handed_entry, is_exact, kid_sum, node_term,
    outside_front, own_entry, scaled_entry,
};
use crate::multifrontal::kernel::{
    BunchKaufmanParams, DiagonalKernel, FrontKernel, FrontalFactors,
};
use crate::multifrontal::model::{
    child_trails, contrib_ok, delayed_in, delayed_rows, delayed_start, front_layout, kids_ok,
    last_col, own_cols, own_start, owner_unique, owns, parent_is, pattern_hits, run_ends, runs_ok,
    trails, ContribBlock,
};
use crate::multifrontal::node::{front_of, kernel_made, made_from, void_node, FrontJob, NodeFactors};
use crate::multifrontal::order::{handed_ok, own_parent_later, parent_lists, unconsumed};
use crate::multifrontal::tree::{is_root, parent_of, Supernode, SymbolicFactorization};
use crate::scalar::{Field, Scalar};
use crate::seqs::{below, distinct, occurs};
use crate::sparse::{position, GeneralCsc};
use vstd::prelude::*;

verus! {

/// Row `r` lies below the columns of supernode `s` and is tied to them, by the
/// pattern or through a child.
pub open spec fn reaches(sym: SymbolicFactorization, s: int, r: int) -> bool
    decreases s,
{
    let snode = sym.supernodes@[s];
    r >= last_col(sym.supernodes@, s) && (pattern_hits(
        sym.permuted_pattern,
        snode.first_col as int,
        last_col(sym.supernodes@, s),
        r,
    ) || exists|q: int|
        0 <= q < snode.children@.len() && 0 <= snode.children@[q] < s && reaches(
            sym,
            #[trigger] snode.children@[q] as int,
            r,
        ))
}

/// The tree is an elimination tree: the rows below a supernode begin at its
/// parent, and a root has none.
pub open spec fn tree_closed(sym: SymbolicFactorization) -> bool {
    forall|s: int, r: int|
        0 <= s < sym.supernodes@.len() && #[trigger] reaches(sym, s, r) ==> (parent_of(
            sym.supernodes@,
            s,
        ) matches Some(p) && r >= sym.supernodes@[p].first_col)
}

/// The pattern holds every entry of the matrix.
pub open spec fn pattern_covers<T>(sym: SymbolicFactorization, a: GeneralCsc<T>) -> bool {
    forall|j: int, r: int|
        0 <= j < a.n && a.col(j).contains_key(r) ==> #[trigger] occurs(
            sym.permuted_pattern.rows_of(j),
            r,
        )
}

/// A tree that was factored, but for the tail of its last supernode.
pub open spec fn whole_tree<T: Scalar, K: FrontKernel<T>>(
    job: FrontJob<T>,
    kernel: K,
    batch: bool,
    nvs: Seq<usize>,
    nodes: Seq<NodeFactors<T>>,
    cs: Seq<Option<ContribBlock<T>>>,
) -> bool {
    &&& tree_ready(job, batch, nvs)
    &&& tree_done(job, kernel, batch, nvs, nodes, cs)
    &&& all_handed_ok(job.sn(), job.sym.n as int, nvs, cs)
    &&& tree_regular(job.sn())
}

/// The delayed columns come first in a front that keeps a tail.
pub open spec fn is_swapped<T: Scalar>(
    job: FrontJob<T>,
    nvs: Seq<usize>,
    cs: Seq<Option<ContribBlock<T>>>,
    s: int,
) -> bool {
    nvs[s] > 0 && delayed_in(*job.sym, s, cs) > 0
}

/// What is known of one node of a whole tree.
pub proof fn node_facts<T: Scalar, K: FrontKernel<T>>(
    job: FrontJob<T>,
    kernel: K,
    batch: bool,
    nvs: Seq<usize>,
    nodes: Seq<NodeFactors<T>>,
    cs: Seq<Option<ContribBlock<T>>>,
    s: int,
) -> (r: ((int, bool, BunchKaufmanParams<T::Real>), FrontalFactors<T>))
    requires
        whole_tree(job, kernel, batch, nvs, nodes, cs),
        0 <= s < nodes.len(),
    ensures
        job.is_void(s) ==> void_node(job, s, nodes[s]) && cs[s] is None,
        !job.is_void(s) ==> {
            &&& made_from(job, kernel, s, cs, nvs[s] as int, r.0, r.1, nodes[s], cs[s])
            &&& r.0.0 == job.sn()[s].ncol + delayed_in(*job.sym, s, cs) - nvs[s]
            &&& is_root(job.sn(), s) ==> !r.0.1
            &&& distinct(nodes[s].row_indices@)
            &&& front_layout(
                *job.sym,
                s,
                cs,
                is_swapped(job, nvs, cs, s),
                nodes[s].row_indices@,
            )
        },
        kids_ok(job.sn(), job.sym.n as int, s, cs, job.sn()[s].children@.len() as int),
{
    let sn = job.sn();
    let n = job.sym.n as int;
    let kids = sn[s].children@;
    assert(below(sn[s].children@, s));
    assert(handed_ok(sn, n, cs, s)) by {
        assert forall|d: int| 0 <= d < s implies (#[trigger] cs[d] matches Some(b) ==> contrib_ok(
            sn,
            n,
            d,
            b,
        )) by {
            assert(nvs[d] == 0);
        }
    }
    assert forall|q: int| 0 <= q < kids.len() implies (cs[#[trigger] kids[q] as int] matches Some(
        b,
    ) ==> contrib_ok(sn, n, kids[q] as int, b)) by {
        assert(kids[q] < s);
        assert(nvs[kids[q] as int] == 0);
    }
    let order = made_is_ok(job, kernel, batch, nvs, nodes, cs, s);
    if job.is_void(s) {
        (order, nodes[s].frontal_factors)
    } else {
        let ff = choose|ff: FrontalFactors<T>| #[trigger]
            made_from(job, kernel, s, cs, nvs[s] as int, order, ff, nodes[s], cs[s]);
        (order, ff)
    }
}

/// The rows that follow the delayed columns in a contribution are reached.
proof fn handed_reaches<T: Scalar, K: FrontKernel<T>>(
    job: FrontJob<T>,
    kernel: K,
    batch: bool,
    nvs: Seq<usize>,
    nodes: Seq<NodeFactors<T>>,
    cs: Seq<Option<ContribBlock<T>>>,
    s: int,
    b: ContribBlock<T>,
    k: int,
)
    requires
        whole_tree(job, kernel, batch, nvs, nodes, cs),
        0 <= s < nodes.len(),
        nvs[s] == 0,
        cs[s] == Some(b),
        b.n_delayed <= k < b.dim,
    ensures
        b.row_indices@.len() == b.dim,
        reaches(*job.sym, s, b.row_indices@[k] as int),
    decreases s,
{
    let sn = job.sn();
    let kids = sn[s].children@;
    let (order, ff) = node_facts(job, kernel, batch, nvs, nodes, cs, s);
    let node = nodes[s];
    let rows = node.row_indices@;
    let full = sn[s].ncol + delayed_in(*job.sym, s, cs);
    let r = b.row_indices@[k] as int;
    assert(ff.perm@[ff.nelim + k] == ff.nelim + k);
    assert(r == rows[ff.nelim + k]);
    assert(ff.nelim + k >= full);
    let tail = rows.skip(full);
    assert(tail[ff.nelim + k - full] == r);
    assert(occurs(tail, r));
    assert(trails(*job.sym, s, cs, r));
    if !pattern_hits(
        job.sym.permuted_pattern,
        sn[s].first_col as int,
        last_col(sn, s),
        r,
    ) {
        let q = choose|q: int| 0 <= q < kids.len() && #[trigger] child_trails(kids, cs, q, r);
        let c = kids[q] as int;
        assert(below(sn[s].children@, s));
        assert(c < s);
        let d = cs[c]->0;
        let after = d.row_indices@.skip(d.n_delayed as int);
        let x = position(after, r);
        assert(after[x] == r);
        assert(contrib_ok(sn, job.sym.n as int, c, d));
        assert(d.row_indices@[d.n_delayed + x] == r);
        assert(nvs[c] == 0);
        handed_reaches(job, kernel, batch, nvs, nodes, cs, c, d, d.n_delayed + x);
        assert(reaches(*job.sym, kids[q] as int, r));
    }
}

/// A delayed column of a child is among the delayed columns of the parent.
proof fn delayed_listed<T>(
    kids: Seq<usize>,
    cs: Seq<Option<ContribBlock<T>>>,
    q: int,
    x: int,
    k: int,
)
    requires
        0 <= q < k <= kids.len(),
        cs[kids[q] as int] is Some,
        0 <= x < cs[kids[q] as int]->0.n_delayed,
        cs[kids[q] as int]->0.n_delayed <= cs[kids[q] as int]->0.row_indices@.len(),
    ensures
        occurs(delayed_rows(kids, cs, k), cs[kids[q] as int]->0.row_indices@[x] as int),
    decreases k,
{
    let b = cs[kids[q] as int]->0;
    let r = b.row_indices@[x] as int;
    let before = delayed_rows(kids, cs, k - 1);
    let all = delayed_rows(kids, cs, k);
    if q == k - 1 {
        let head = b.row_indices@.take(b.n_delayed as int);
        assert(all == before + head);
        assert(all[before.len() + x] == head[x]);
    } else {
        delayed_listed(kids, cs, q, x, k - 1);
        let p = position(before, r);
        assert(before[p] == r);
        assert(all[p] == r);
    }
}

/// The rows that a child hands over are rows of the parent's front.
proof fn handed_inside<T: Scalar, K: FrontKernel<T>>(
    job: FrontJob<T>,
    kernel: K,
    batch: bool,
    nvs: Seq<usize>,
    nodes: Seq<NodeFactors<T>>,
    cs: Seq<Option<ContribBlock<T>>>,
    s: int,
    q: int,
    r: int,
)
    requires
        whole_tree(job, kernel, batch, nvs, nodes, cs),
        tree_closed(*job.sym),
        0 <= s < nodes.len(),
        0 <= q < job.sn()[s].children@.len(),
        cs[job.sn()[s].children@[q] as int] is Some,
        occurs(cs[job.sn()[s].children@[q] as int]->0.row_indices@, r),
    ensures
        occurs(nodes[s].row_indices@, r),
{
    let sn = job.sn();
    let kids = sn[s].children@;
    let c = kids[q] as int;
    let b = cs[c]->0;
    let rows = nodes[s].row_indices@;
    let (order, ff) = node_facts(job, kernel, batch, nvs, nodes, cs, s);
    assert(sn[s].ncol > 0);
    assert(!job.is_void(s));
    assert(below(sn[s].children@, s));
    assert(contrib_ok(sn, job.sym.n as int, c, b));
    let del = delayed_rows(kids, cs, kids.len() as int);
    let full = sn[s].ncol + del.len();
    let swapped = is_swapped(job, nvs, cs, s);
    let head = if swapped {
        del + own_cols(sn[s])
    } else {
        own_cols(sn[s]) + del
    };
    let olo = own_start(*job.sym, s, cs, swapped);
    let dlo = delayed_start(*job.sym, s, swapped);
    assert(rows.take(full) == head);
    let x = position(b.row_indices@, r);
    assert(b.row_indices@[x] == r);
    assert(nvs[c] == 0);
    if x < b.n_delayed {
        delayed_listed(kids, cs, q, x, kids.len() as int);
        let p = position(del, r);
        assert(del[p] == r);
        assert(head[dlo + p] == r);
        assert(rows.take(full)[dlo + p] == r);
        assert(rows[dlo + p] == r);
    } else {
        handed_reaches(job, kernel, batch, nvs, nodes, cs, c, b, x);
        assert(occurs(kids, c));
        parent_is(sn, c, s, sn.len() as int);
        assert(parent_of(sn, c) == Some(s));
        assert(r >= sn[s].first_col);
        if r < last_col(sn, s) {
            let k = r - sn[s].first_col;
            assert(own_cols(sn[s])[k] == r);
            assert(head[olo + k] == r);
            assert(rows.take(full)[olo + k] == r);
            assert(rows[olo + k] == r);
        } else {
            let after = b.row_indices@.skip(b.n_delayed as int);
            assert(after[x - b.n_delayed] == r);
            assert(occurs(after, r));
            assert(child_trails(kids, cs, q, r));
            assert(trails(*job.sym, s, cs, r));
            let tail = rows.skip(full);
            assert(occurs(tail, r));
            let p = position(tail, r);
            assert(tail[p] == r);
            assert(rows[full + p] == r);
        }
    }
}

/// A stored entry of an own column has its row in the front.
proof fn entry_inside<T: Scalar, K: FrontKernel<T>>(
    job: FrontJob<T>,
    kernel: K,
    batch: bool,
    nvs: Seq<usize>,
    nodes: Seq<NodeFactors<T>>,
    cs: Seq<Option<ContribBlock<T>>>,
    s: int,
    lo: int,
    hi: int,
)
    requires
        whole_tree(job, kernel, batch, nvs, nodes, cs),
        pattern_covers(*job.sym, *job.a),
        0 <= s < nodes.len(),
        owns(job.sn(), s, lo),
        lo <= hi,
        job.a.col(lo).contains_key(hi) || lo == hi,
    ensures
        occurs(nodes[s].row_indices@, hi),
{
    let sn = job.sn();
    let rows = nodes[s].row_indices@;
    let (order, ff) = node_facts(job, kernel, batch, nvs, nodes, cs, s);
    assert(sn[s].ncol > 0);
    assert(!job.is_void(s));
    let kids = sn[s].children@;
    let del = delayed_rows(kids, cs, kids.len() as int);
    let full = sn[s].ncol + del.len();
    let swapped = is_swapped(job, nvs, cs, s);
    let head = if swapped {
        del + own_cols(sn[s])
    } else {
        own_cols(sn[s]) + del
    };
    let olo = own_start(*job.sym, s, cs, swapped);
    assert(rows.take(full) == head);
    run_ends(sn, job.sym.n as int, s);
    if hi < last_col(sn, s) {
        let k = hi - sn[s].first_col;
        assert(own_cols(sn[s])[k] == hi);
        assert(head[olo + k] == hi);
        assert(rows.take(full)[olo + k] == hi);
        assert(rows[olo + k] == hi);
    } else {
        assert(occurs(job.sym.permuted_pattern.rows_of(lo), hi));
        assert(pattern_hits(
            job.sym.permuted_pattern,
            sn[s].first_col as int,
            last_col(sn, s),
            hi,
        ));
        assert(trails(*job.sym, s, cs, hi));
        let tail = rows.skip(full);
        assert(occurs(tail, hi));
        let p = position(tail, hi);
        assert(tail[p] == hi);
        assert(rows[full + p] == hi);
    }
}

/// Children that do not hold the pair give nothing for it.
proof fn kids_outside<T: Field>(
    kids: Seq<usize>,
    cs: Seq<Option<ContribBlock<T>>>,
    g: int,
    h: int,
    k: int,
)
    requires
        forall|q: int| 0 <= q < k ==> handed_entry(cs[#[trigger] kids[q] as int], g, h)
            == T::zero_spec(),
    ensures
        kid_sum(kids, cs, g, h, k) == T::zero_spec(),
    decreases k,
{
    if k > 0 {
        kids_outside(kids, cs, g, h, k - 1);
        assert(handed_entry(cs[kids[k - 1] as int], g, h) == T::zero_spec());
        T::plus_zero(T::zero_spec());
    }
}

/// What a supernode gives back and hands over is what it owns and was given.
pub proof fn node_balances<T: Field, K: FrontKernel<T>>(
    job: FrontJob<T>,
    kernel: K,
    batch: bool,
    nvs: Seq<usize>,
    nodes: Seq<NodeFactors<T>>,
    cs: Seq<Option<ContribBlock<T>>>,
    s: int,
    g: int,
    h: int,
)
    requires
        whole_tree(job, kernel, batch, nvs, nodes, cs),
        tree_closed(*job.sym),
        pattern_covers(*job.sym, *job.a),
        exact_kernel::<T, K>(kernel),
        exact_kernel::<T, DiagonalKernel>(DiagonalKernel),
        0 <= s < nodes.len(),
        0 <= g < job.sym.n,
        0 <= h < job.sym.n,
    ensures
        node_term(nodes[s], g, h).plus_spec(handed_entry(cs[s], g, h)) == own_entry(
            job,
            s,
            g,
            h,
        ).plus_spec(
            kid_sum(job.sn()[s].children@, cs, g, h, job.sn()[s].children@.len() as int),
        ),
{
    let sn = job.sn();
    let kids = sn[s].children@;
    let node = nodes[s];
    let rows = node.row_indices@;
    let zero = T::zero_spec();
    let (order, ff) = node_facts(job, kernel, batch, nvs, nodes, cs, s);
    if job.is_void(s) {
        assert(sn[s].ncol == 0);
        assert(kids.len() == 0);
        assert(node_term(node, g, h) == zero);
    } else if occurs(rows, g) && occurs(rows, h) {
        let swapped = is_swapped(job, nvs, cs, s);
        let front = front_of(job, s, cs, swapped, rows);
        assert(kernel_made(job, kernel, front, rows.len() as int, order, ff));
        assert(is_exact(front, ff));
        front_splits(job, kernel, s, cs, nvs[s] as int, order, ff, node, cs[s], front, g, h);
        front_assembled(job, s, cs, swapped, rows, g, h);
    } else {
        outside_front(job, kernel, s, cs, nvs[s] as int, order, ff, node, cs[s], g, h);
        assert forall|q: int| 0 <= q < kids.len() implies handed_entry(
            cs[#[trigger] kids[q] as int],
            g,
            h,
        ) == zero by {
            if cs[kids[q] as int] is Some {
                let b = cs[kids[q] as int]->0;
                if occurs(b.row_indices@, g) && occurs(b.row_indices@, h) {
                    handed_inside(job, kernel, batch, nvs, nodes, cs, s, q, g);
                    handed_inside(job, kernel, batch, nvs, nodes, cs, s, q, h);
                }
            }
        }
        kids_outside(kids, cs, g, h, kids.len() as int);
        let lo = if g < h {
            g
        } else {
            h
        };
        let hi = if g < h {
            h
        } else {
            g
        };
        if owns(sn, s, lo) {
            entry_inside(job, kernel, batch, nvs, nodes, cs, s, lo, lo);
            if job.a.col(lo).contains_key(hi) {
                entry_inside(job, kernel, batch, nvs, nodes, cs, s, lo, hi);
            }
        }
        T::plus_zero(zero);
    }
}

/// What supernode `c` hands over, where its parent is `s`.
spec fn for_parent<T: Scalar>(
    sn: Seq<Supernode>,
    cs: Seq<Option<ContribBlock<T>>>,
    s: int,
    g: int,
    h: int,
) -> spec_fn(int) -> T {
    |c: int|
        if occurs(sn[s].children@, c) {
            handed_entry(cs[c], g, h)
        } else {
            T::zero_spec()
        }
}

/// What the supernodes before `s` have handed over and nobody has taken yet.
spec fn still_open<T: Scalar>(
    sn: Seq<Supernode>,
    cs: Seq<Option<ContribBlock<T>>>,
    s: int,
    g: int,
    h: int,
) -> spec_fn(int) -> T {
    |c: int|
        if unconsumed(sn, c, s) {
            handed_entry(cs[c], g, h)
        } else {
            T::zero_spec()
        }
}

/// The children of a supernode, taken one by one or in their numbering.
proof fn kid_sum_is_sum<T: Field>(
    kids: Seq<usize>,
    cs: Seq<Option<ContribBlock<T>>>,
    g: int,
    h: int,
    k: int,
    s: nat,
)
    requires
        0 <= k <= kids.len(),
        distinct(kids),
        below(kids, s as int),
    ensures
        kid_sum(kids, cs, g, h, k) == sum(
            s,
            |c: int|
                if occurs(kids.take(k), c) {
                    handed_entry(cs[c], g, h)
                } else {
                    T::zero_spec()
                },
        ),
    decreases k,
{
    let f = |c: int|
        if occurs(kids.take(k), c) {
            handed_entry(cs[c], g, h)
        } else {
            T::zero_spec()
        };
    if k == 0 {
        assert forall|c: int| 0 <= c < s implies #[trigger] f(c) == T::zero_spec() by {
            assert(kids.take(0).len() == 0);
        }
        sum_zero(s, f);
    } else {
        kid_sum_is_sum(kids, cs, g, h, k - 1, s);
        let e = |c: int|
            if occurs(kids.take(k - 1), c) {
                handed_entry(cs[c], g, h)
            } else {
                T::zero_spec()
            };
        let c0 = kids[k - 1] as int;
        let short = kids.take(k - 1);
        let long = kids.take(k);
        assert(c0 < s);
        assert(long[k - 1] == c0);
        assert(occurs(long, c0));
        if occurs(short, c0) {
            let p = position(short, c0);
            assert(short[p] == c0);
            assert(kids[p] != kids[k - 1]);
        }
        assert forall|c: int| 0 <= c < s && c != c0 implies #[trigger] f(c) == e(c) by {
            if occurs(long, c) {
                let p = position(long, c);
                assert(long[p] == c);
                assert(short[p] == c);
            }
            if occurs(short, c) {
                let p = position(short, c);
                assert(short[p] == c);
                assert(long[p] == c);
            }
        }
        sum_bump(s, c0, e, f);
    }
}

/// After `k` supernodes: what they give back and what is still open make up the
/// entry once its owner has been seen.
proof fn balance_upto<T: Field, K: FrontKernel<T>>(
    job: FrontJob<T>,
    kernel: K,
    batch: bool,
    nvs: Seq<usize>,
    nodes: Seq<NodeFactors<T>>,
    cs: Seq<Option<ContribBlock<T>>>,
    g: int,
    h: int,
    o: int,
    k: nat,
)
    requires
        whole_tree(job, kernel, batch, nvs, nodes, cs),
        tree_closed(*job.sym),
        pattern_covers(*job.sym, *job.a),
        exact_kernel::<T, K>(kernel),
        exact_kernel::<T, DiagonalKernel>(DiagonalKernel),
        0 <= g < job.sym.n,
        0 <= h < job.sym.n,
        owns(
            job.sn(),
            o,
            if g < h {
                g
            } else {
                h
            },
        ),
        k <= nodes.len(),
    ensures
        sum(k, |s: int| node_term(nodes[s], g, h)).plus_spec(
            sum(k, still_open(job.sn(), cs, k as int, g, h)),
        ) == (if o < k {
            scaled_entry(*job.a, job.scaling@, g, h)
        } else {
            T::zero_spec()
        }),
    decreases k,
{
    let sn = job.sn();
    let zero = T::zero_spec();
    let lo = if g < h {
        g
    } else {
        h
    };
    let terms = |s: int| node_term(nodes[s], g, h);
    if k == 0 {
        T::plus_zero(zero);
    } else {
        let t = (k - 1) as nat;
        let s = t as int;
        let kids = sn[s].children@;
        balance_upto(job, kernel, batch, nvs, nodes, cs, g, h, o, t);
        node_balances(job, kernel, batch, nvs, nodes, cs, s, g, h);
        let before = still_open(sn, cs, s, g, h);
        let after = still_open(sn, cs, k as int, g, h);
        let taken = for_parent(sn, cs, s, g, h);
        // The children leave the open ones.
        assert forall|c: int| 0 <= c < t implies #[trigger] before(c) == after(c).plus_spec(
            taken(c),
        ) by {
            let x = handed_entry(cs[c], g, h);
            T::plus_zero(x);
            T::plus_zero(zero);
            zero_plus(x);
            parent_lists(sn, c, sn.len() as int);
            if occurs(kids, c) {
                parent_is(sn, c, s, sn.len() as int);
            } else if parent_of(sn, c) is Some {
                let p = parent_of(sn, c)->0;
                assert(p != s);
            }
        }
        sum_plus(t, after, taken, before);
        // The node itself joins them.
        assert(unconsumed(sn, s, k as int)) by {
            if parent_of(sn, s) is Some {
                own_parent_later(sn, s);
            }
        }
        assert(below(sn[s].children@, s));
        assert(distinct(sn[s].children@));
        kid_sum_is_sum(kids, cs, g, h, kids.len() as int, t);
        assert(kids.take(kids.len() as int) =~= kids);
        let listed = |c: int|
            if occurs(kids.take(kids.len() as int), c) {
                handed_entry(cs[c], g, h)
            } else {
                T::zero_spec()
            };
        sum_ext(t, listed, taken);
        let ks = kid_sum(kids, cs, g, h, kids.len() as int);
        assert(ks == sum(t, taken));
        let a = sum(t, terms);
        let e = terms(s);
        let u = sum(t, after);
        let c = handed_entry(cs[s], g, h);
        let own = own_entry(job, s, g, h);
        let old_total = a.plus_spec(u.plus_spec(ks));
        assert(sum(k, terms) == a.plus_spec(e));
        assert(sum(k, after) == u.plus_spec(c));
        // (a + e) + (u + c) == (a + u) + (e + c) == (a + u) + (own + ks)
        plus_shuffle(a, e, u, c);
        T::plus_assoc(a, u, ks);
        T::plus_comm(own, ks);
        T::plus_assoc(a.plus_spec(u), ks, own);
        assert(sum(k, terms).plus_spec(sum(k, after)) == old_total.plus_spec(own));
        if owns(sn, s, lo) {
            owner_unique(sn, job.sym.n as int, o, s, lo);
            zero_plus(own);
        } else {
            T::plus_zero(old_total);
            assert(o != s);
        }
    }
}

/// Every column has an owner.
proof fn owner_exists(sn: Seq<Supernode>, n: int, col: int, k: int) -> (o: int)
    requires
        runs_ok(sn, n),
        0 <= k < sn.len(),
        0 <= col < last_col(sn, k),
    ensures
        owns(sn, o, col),
    decreases k,
{
    if col >= sn[k].first_col {
        k
    } else {
        assert(k > 0);
        assert(last_col(sn, k - 1) == sn[k - 1 + 1].first_col);
        owner_exists(sn, n, col, k - 1)
    }
}

/// What the last supernode keeps back.
pub open spec fn kept_entry<T: Scalar>(cs: Seq<Option<ContribBlock<T>>>, g: int, h: int) -> T {
    if cs.len() > 0 {
        handed_entry(cs[cs.len() - 1], g, h)
    } else {
        T::zero_spec()
    }
}

/// The products of all nodes and what the last one keeps back add up to the
/// scaled matrix, for an exact kernel, an elimination tree and a pattern that
/// holds every entry.
pub proof fn products_add_up<T: Field, K: FrontKernel<T>>(
    job: FrontJob<T>,
    kernel: K,
    batch: bool,
    nvs: Seq<usize>,
    nodes: Seq<NodeFactors<T>>,
    cs: Seq<Option<ContribBlock<T>>>,
    g: int,
    h: int,
)
    requires
        whole_tree(job, kernel, batch, nvs, nodes, cs),
        tree_closed(*job.sym),
        pattern_covers(*job.sym, *job.a),
        exact_kernel::<T, K>(kernel),
        0 <= g < job.sym.n,
        0 <= h < job.sym.n,
    ensures
        sum(nodes.len(), |s: int| node_term(nodes[s], g, h)).plus_spec(kept_entry(cs, g, h))
            == scaled_entry(*job.a, job.scaling@, g, h),
        nvs[nvs.len() - 1] == 0 ==> kept_entry(cs, g, h) == T::zero_spec() && sum(
            nodes.len(),
            |s: int| node_term(nodes[s], g, h),
        ) == scaled_entry(*job.a, job.scaling@, g, h),
{
    crate::multifrontal::fronts::diagonal_kernel_is_exact::<T>();
    let sn = job.sn();
    let n = job.sym.n as int;
    let len = nodes.len();
    let last = len - 1;
    let lo = if g < h {
        g
    } else {
        h
    };
    let o = owner_exists(sn, n, lo, sn.len() - 1);
    balance_upto(job, kernel, batch, nvs, nodes, cs, g, h, o, len);
    let rest = still_open(sn, cs, len as int, g, h);
    assert forall|c: int| 0 <= c < len && c != last implies #[trigger] rest(c)
        == T::zero_spec() by {
        if unconsumed(sn, c, len as int) {
            if parent_of(sn, c) is Some {
                own_parent_later(sn, c);
            }
            root_hands_nothing(job, kernel, batch, nvs, nodes, cs, c);
        }
    }
    sum_single(len, last, rest);
    if parent_of(sn, last) is Some {
        own_parent_later(sn, last);
    }
    assert(rest(last) == kept_entry(cs, g, h));
    if nvs[last] == 0 {
        root_hands_nothing(job, kernel, batch, nvs, nodes, cs, last);
    }
    T::plus_zero(sum(len, |s: int| node_term(nodes[s], g, h)));
}

/// A root hands nothing over.
proof fn root_hands_nothing<T: Scalar, K: FrontKernel<T>>(
    job: FrontJob<T>,
    kernel: K,
    batch: bool,
    nvs: Seq<usize>,
    nodes: Seq<NodeFactors<T>>,
    cs: Seq<Option<ContribBlock<T>>>,
    c: int,
)
    requires
        whole_tree(job, kernel, batch, nvs, nodes, cs),
        tree_closed(*job.sym),
        0 <= c < nodes.len(),
        nvs[c] == 0,
        parent_of(job.sn(), c) is None,
    ensures
        cs[c] is None,
{
    no_parent_is_root(job.sn(), c);
    let (order, ff) = node_facts(job, kernel, batch, nvs, nodes, cs, c);
    if cs[c] is Some {
        let b = cs[c]->0;
        assert(ff.n_delayed == 0);
        handed_reaches(job, kernel, batch, nvs, nodes, cs, c, b, 0);
        assert(reaches(*job.sym, c, b.row_indices@[0] as int));
    }
}

} // verus!
