//! Factoring the whole assembly tree, supernode by supernode.

use crate::error::RslabError;
use crate::multifrontal::assembly::unmapped;
use crate::multifrontal::frame::{agree, made_agree, refused_agree};
use crate::multifrontal::kernel::FrontKernel;
use crate::multifrontal::model::{
    contrib_ok, delayed_rows, descends, front_rows, kids_ok, last_col, own_cols, parent_is, pattern_hits,
    trails, ContribBlock,
};
use crate::multifrontal::node::{
    factor_one_small_leaf, factor_one_supernode, leaf_made, leaf_refused, node_made, node_refused,
    store_follows, FrontJob, NodeFactors,
};
use crate::multifrontal::order::{own_parent_later, unconsumed};
use crate::multifrontal::permute::{lap, spent, start_of, Clock};
use crate::multifrontal::profile::{timing_of, whole_timing, SmallLeafBatch, SupernodeTiming};
use crate::multifrontal::tree::{
    is_root, parent_of, root_flags, Supernode, SymbolicFactorization,
};
use crate::scalar::Scalar;
use crate::seqs::{ascending, below, occurs};
use crate::sparse::position;
use vstd::prelude::*;

verus! {

/// The rows of the front of a leaf.
pub open spec fn leaf_rows_ok(sym: SymbolicFactorization, s: int, rows: Seq<usize>) -> bool {
    let snode = sym.supernodes@[s];
    &&& snode.ncol <= rows.len()
    &&& rows.take(snode.ncol as int) == own_cols(snode)
    &&& ascending(rows.skip(snode.ncol as int))
    &&& forall|r: int| #[trigger]
        occurs(rows.skip(snode.ncol as int), r) <==> r >= last_col(sym.supernodes@, s)
            && pattern_hits(
            sym.permuted_pattern,
            snode.first_col as int,
            last_col(sym.supernodes@, s),
            r,
        )
}

/// Supernode `s` stands in group `g`, which knows its rows.
pub open spec fn in_group(sym: SymbolicFactorization, s: int, g: int) -> bool {
    let group = sym.small_leaf_groups@[g];
    &&& 0 <= g < sym.small_leaf_groups@.len()
    &&& group.members@.len() > 0
    &&& group.members@[0] <= s < group.members@[0] + group.members@.len()
    &&& group.member_rows@.len() == group.members@.len()
    &&& sym.supernodes@[s].children@.len() == 0
    &&& leaf_rows_ok(sym, s, group.member_rows@[s - group.members@[0]]@)
}

/// The groups of small leaves are consecutive leaves with their rows.
pub open spec fn groups_ok(sym: SymbolicFactorization) -> bool {
    &&& sym.snode_group@.len() == sym.supernodes@.len()
    &&& forall|s: int|
        0 <= s < sym.snode_group@.len() ==> (#[trigger] sym.snode_group@[s] matches Some(g)
            ==> in_group(sym, s, g as int))
}

/// The rows of a leaf are the rows of its front, whatever others contribute.
proof fn leaf_rows_are_front_rows<T>(
    sym: SymbolicFactorization,
    s: int,
    store: Seq<Option<ContribBlock<T>>>,
    rows: Seq<usize>,
)
    requires
        leaf_rows_ok(sym, s, rows),
        sym.supernodes@[s].children@.len() == 0,
    ensures
        front_rows(sym, s, store, rows),
{
    let snode = sym.supernodes@[s];
    let own = snode.ncol as int;
    assert(delayed_rows(snode.children@, store, 0) =~= Seq::<usize>::empty());
    assert(own_cols(snode) + Seq::<usize>::empty() =~= own_cols(snode));
    assert forall|r: int| #[trigger] occurs(rows.skip(own), r) <==> trails(sym, s, store, r) by {}
}

/// Small leaves are factored in batches.
pub open spec fn batches<T: Scalar>(job: FrontJob<T>, batch: bool) -> bool {
    batch && job.params.small_leaf == SmallLeafBatch::On && job.sym.small_leaf_groups@.len() > 0
}

/// Node `s` and what it hands over are as they should be.
pub open spec fn node_done<T: Scalar, K: FrontKernel<T>>(
    job: FrontJob<T>,
    kernel: K,
    batch: bool,
    s: int,
    cs: Seq<Option<ContribBlock<T>>>,
    nvschur: int,
    node: NodeFactors<T>,
) -> bool {
    if batches(job, batch) && job.sym.snode_group@[s] is Some {
        leaf_made(job, kernel, s, cs, node, cs[s])
    } else {
        node_made(job, kernel, s, cs, nvschur, node, cs[s])
    }
}

/// Every node is made from the matrix and what its children hand over.
pub open spec fn tree_done<T: Scalar, K: FrontKernel<T>>(
    job: FrontJob<T>,
    kernel: K,
    batch: bool,
    nvs: Seq<usize>,
    nodes: Seq<NodeFactors<T>>,
    cs: Seq<Option<ContribBlock<T>>>,
) -> bool {
    &&& nodes.len() == job.sn().len()
    &&& cs.len() == job.sn().len()
    &&& forall|s: int|
        0 <= s < nodes.len() ==> node_done(
            job,
            kernel,
            batch,
            s,
            cs,
            nvs[s] as int,
            #[trigger] nodes[s],
        )
}

/// Supernode `c` is factored before `s`: in an ordered sweep every earlier one is,
/// among tasks every one below `s` in the tree.
pub open spec fn comes_before(sn: Seq<Supernode>, ordered: bool, c: int, s: int) -> bool {
    0 <= c < s && (ordered || descends(sn, c, s))
}

/// The tree cannot be factored because of supernode `s`: those before it are made
/// from the matrix and what their children hand over, and `s` cannot be made
/// from what its own hand over.
pub open spec fn tree_refused<T: Scalar, K: FrontKernel<T>>(
    job: FrontJob<T>,
    kernel: K,
    batch: bool,
    ordered: bool,
    nvs: Seq<usize>,
    nodes: Seq<NodeFactors<T>>,
    cs: Seq<Option<ContribBlock<T>>>,
    s: int,
    e: RslabError,
) -> bool {
    &&& 0 <= s < job.sn().len()
    &&& forall|c: int|
        comes_before(job.sn(), ordered, c, s) ==> node_done(
            job,
            kernel,
            batch,
            c,
            cs,
            nvs[c] as int,
            #[trigger] nodes[c],
        )
    &&& if batches(job, batch) && job.sym.snode_group@[s] is Some {
        leaf_refused(job, kernel, s, cs, e)
    } else {
        node_refused(job, kernel, s, cs, nvs[s] as int, e)
    }
}

/// Only the last supernode leaves columns uneliminated, and no more than it has.
pub open spec fn tails_ok(sn: Seq<Supernode>, nvs: Seq<usize>) -> bool {
    &&& nvs.len() == sn.len()
    &&& forall|s: int| 0 <= s < nvs.len() ==> #[trigger] nvs[s] <= sn[s].ncol
    &&& forall|s: int| 0 <= s < nvs.len() - 1 ==> #[trigger] nvs[s] == 0
}

/// The inputs of a factorization of the tree.
pub open spec fn tree_ready<T: Scalar>(job: FrontJob<T>, batch: bool, nvs: Seq<usize>) -> bool {
    &&& job.wf()
    &&& tails_ok(job.sn(), nvs)
    &&& batches(job, batch) ==> groups_ok(*job.sym)
    &&& batch ==> forall|s: int| 0 <= s < nvs.len() ==> #[trigger] nvs[s] == 0
}

/// Later contributions do not change a node.
proof fn done_agrees<T: Scalar, K: FrontKernel<T>>(
    job: FrontJob<T>,
    kernel: K,
    batch: bool,
    s: int,
    x: Seq<Option<ContribBlock<T>>>,
    y: Seq<Option<ContribBlock<T>>>,
    nvschur: int,
    node: NodeFactors<T>,
)
    requires
        agree(job.sn()[s].children@, x, y),
        x[s] == y[s],
        node_done(job, kernel, batch, s, x, nvschur, node),
    ensures
        node_done(job, kernel, batch, s, y, nvschur, node),
{
    made_agree(job, kernel, s, x, y, nvschur, node, x[s]);
}

/// Factor one supernode of the tree.
fn factor_step<T: Scalar, K: FrontKernel<T>>(
    job: &FrontJob<T>,
    kernel: &K,
    batch: bool,
    s: usize,
    root: bool,
    nvschur: usize,
    map: &mut Vec<usize>,
    store: &mut Vec<Option<ContribBlock<T>>>,
) -> (r: Result<NodeFactors<T>, RslabError>)
    requires
        job.wf(),
        batches(*job, batch) ==> groups_ok(*job.sym),
        s < job.sn().len(),
        root == is_root(job.sn(), s as int),
        nvschur <= job.sn()[s as int].ncol,
        unmapped(old(map)@, job.sym.n as int),
        old(store)@.len() == job.sn().len(),
        old(store)@[s as int] is None,
        kids_ok(
            job.sn(),
            job.sym.n as int,
            s as int,
            old(store)@,
            job.sn()[s as int].children@.len() as int,
        ),
    ensures
        unmapped(final(map)@, job.sym.n as int),
        store_follows(*job, s as int, old(store)@, final(store)@, r is Err),
        r matches Ok(node) ==> if batches(*job, batch) && job.sym.snode_group@[s as int] is Some {
            leaf_made(*job, *kernel, s as int, old(store)@, node, final(store)@[s as int])
        } else {
            node_made(
                *job,
                *kernel,
                s as int,
                old(store)@,
                nvschur as int,
                node,
                final(store)@[s as int],
            )
        },
        r matches Ok(node) ==> nvschur == 0 ==> (final(store)@[s as int] matches Some(b)
            ==> contrib_ok(job.sn(), job.sym.n as int, s as int, b)),
        r matches Err(e) ==> if batches(*job, batch) && job.sym.snode_group@[s as int] is Some {
            leaf_refused(*job, *kernel, s as int, old(store)@, e)
        } else {
            node_refused(*job, *kernel, s as int, old(store)@, nvschur as int, e)
        },
{
    let batched = match job.params.small_leaf {
        SmallLeafBatch::On => batch && job.sym.small_leaf_groups.len() > 0,
        SmallLeafBatch::Off => false,
    };
    if batched {
        if let Some(g) = job.sym.snode_group[s] {
            let group = &job.sym.small_leaf_groups[g];
            assert(in_group(*job.sym, s as int, g as int));
            let rows = &group.member_rows[s - group.members[0]];
            proof {
                leaf_rows_are_front_rows(*job.sym, s as int, store@, rows@);
            }
            return factor_one_small_leaf(job, kernel, s, rows, root, map, store);
        }
    }
    factor_one_supernode(job, kernel, s, root, map, store, nvschur)
}

fn empty_store<T>(n: usize) -> (r: Vec<Option<ContribBlock<T>>>)
    ensures
        r@.len() == n,
        forall|c: int| 0 <= c < n ==> #[trigger] r@[c] is None,
{
    let mut r: Vec<Option<ContribBlock<T>>> = Vec::new();
    let mut k: usize = 0;
    while k < n
        invariant
            k <= n,
            r@.len() == k,
            forall|c: int| 0 <= c < k ==> #[trigger] r@[c] is None,
        decreases n - k,
    {
        r.push(None);
        k = k + 1;
    }
    r
}

/// The first `k` supernodes were timed by the clock, one after the other,
/// without their parts.
pub open spec fn timed_after<C: Clock>(
    clock: Option<&C>,
    before: Seq<SupernodeTiming>,
    after: Seq<SupernodeTiming>,
    sn: Seq<Supernode>,
    k: int,
) -> bool {
    &&& 0 <= k <= sn.len()
    &&& after.len() == before.len() + k
    &&& before =~= after.take(before.len() as int)
    &&& forall|i: int|
        0 <= i < k ==> {
            let t = #[trigger] after[before.len() + i];
            t == whole_timing(i as usize, sn[i].nrow, sn[i].ncol, t.us) && spent(clock, t.us)
        }
}

/// Factor the supernodes in order, and time them where there is a clock. On
/// success every node is made from what its children handed over (`cs`); what
/// the last one hands over is left in its place.
pub fn factor_tree<T: Scalar, K: FrontKernel<T>, C: Clock>(
    job: &FrontJob<T>,
    kernel: &K,
    batch: bool,
    nvs: &Vec<usize>,
    map: &mut Vec<usize>,
    clock: Option<&C>,
    times: &mut Vec<SupernodeTiming>,
) -> (r: Result<
    (Vec<NodeFactors<T>>, Option<ContribBlock<T>>, Ghost<Seq<Option<ContribBlock<T>>>>),
    RslabError,
>)
    requires
        tree_ready(*job, batch, nvs@),
        unmapped(old(map)@, job.sym.n as int),
    ensures
        unmapped(final(map)@, job.sym.n as int),
        clock is None ==> final(times)@ == old(times)@,
        clock is Some ==> timed_after(
            clock,
            old(times)@,
            final(times)@,
            job.sn(),
            final(times)@.len() - old(times)@.len(),
        ),
        clock is Some && r is Ok ==> final(times)@.len() == old(times)@.len() + job.sn().len(),
        r matches Ok(t) ==> tree_done(*job, *kernel, batch, nvs@, t.0@, t.2@),
        r matches Ok(t) ==> job.sn().len() > 0 ==> t.1 == t.2@[job.sn().len() - 1],
        r matches Ok(t) ==> forall|c: int|
            0 <= c < job.sn().len() && nvs@[c] == 0 ==> (#[trigger] t.2@[c] matches Some(b)
                ==> contrib_ok(job.sn(), job.sym.n as int, c, b)),
        r matches Err(e) ==> exists|
            nodes: Seq<NodeFactors<T>>,
            cs: Seq<Option<ContribBlock<T>>>,
            s: int,
        | #[trigger]
            tree_refused(*job, *kernel, batch, true, nvs@, nodes, cs, s, e),
{
    let ghost sn = job.sn();
    let ghost n = job.sym.n as int;
    let len: usize = job.sym.supernodes.len();
    let roots = root_flags(job.sym.supernodes.as_slice());
    let mut store: Vec<Option<ContribBlock<T>>> = empty_store(len);
    let mut nodes: Vec<NodeFactors<T>> = Vec::new();
    let ghost mut cs: Seq<Option<ContribBlock<T>>> = Seq::empty();
    let mut s: usize = 0;
    while s < len
        invariant
            s <= len,
            len == sn.len(),
            sn == job.sn(),
            n == job.sym.n,
            tree_ready(*job, batch, nvs@),
            unmapped(map@, n),
            clock is None ==> times@ == old(times)@,
            clock is Some ==> timed_after(clock, old(times)@, times@, sn, s as int),
            roots@.len() == len,
            forall|c: int| 0 <= c < len ==> #[trigger] roots@[c] == is_root(sn, c),
            store@.len() == len,
            nodes@.len() == s,
            cs.len() == s,
            forall|c: int| s <= c < len ==> #[trigger] store@[c] is None,
            forall|c: int| 0 <= c < s && unconsumed(sn, c, s as int) ==> #[trigger] store@[c] == cs[c],
            forall|i: int|
                0 <= i < s ==> node_done(
                    *job,
                    *kernel,
                    batch,
                    i,
                    cs,
                    nvs@[i] as int,
                    #[trigger] nodes@[i],
                ),
            forall|c: int|
                0 <= c < s && nvs@[c] == 0 ==> (#[trigger] cs[c] matches Some(b) ==> contrib_ok(
                    sn,
                    n,
                    c,
                    b,
                )),
        decreases len - s,
    {
        let ghost st0 = store@;
        let ghost cs0 = cs;
        let ghost kids = sn[s as int].children@;
        proof {
            assert(below(sn[s as int].children@, s as int));
            assert forall|q: int| 0 <= q < kids.len() implies st0[#[trigger] kids[q] as int]
                == cs0[kids[q] as int] by {
                let c = kids[q] as int;
                assert(occurs(kids, c));
                parent_is(sn, c, s as int, sn.len() as int);
                assert(unconsumed(sn, c, s as int));
            }
            assert forall|q: int| 0 <= q < kids.len() implies (st0[#[trigger] kids[q] as int] matches Some(
                b,
            ) ==> contrib_ok(sn, n, kids[q] as int, b)) by {
                let c = kids[q] as int;
                assert(st0[c] == cs0[c]);
                assert(nvs@[c] == 0);
                assert(cs0[c] == cs0[kids[q] as int]);
            }
        }
        let since: u64 = start_of(clock);
        let node = match factor_step(job, kernel, batch, s, roots[s], nvs[s], map, &mut store) {
            Ok(node) => node,
            Err(e) => {
                proof {
                    refused_agree(*job, *kernel, s as int, st0, cs0, nvs@[s as int] as int, e);
                    assert(tree_refused(
                        *job,
                        *kernel,
                        batch,
                        true,
                        nvs@,
                        nodes@,
                        cs0,
                        s as int,
                        e,
                    ));
                }
                return Err(e);
            },
        };
        proof {
            cs = cs0.push(store@[s as int]);
            assert forall|i: int| 0 <= i < s implies node_done(
                *job,
                *kernel,
                batch,
                i,
                cs,
                nvs@[i] as int,
                #[trigger] nodes@[i],
            ) by {
                let ks = sn[i].children@;
                assert(below(sn[i].children@, i));
                assert forall|q: int| 0 <= q < ks.len() implies cs0[#[trigger] ks[q] as int]
                    == cs[ks[q] as int] by {
                    assert(ks[q] < i);
                }
                done_agrees(*job, *kernel, batch, i, cs0, cs, nvs@[i] as int, nodes@[i]);
            }
            assert forall|q: int| 0 <= q < kids.len() implies st0[#[trigger] kids[q] as int]
                == cs[kids[q] as int] by {
                assert(kids[q] < s);
                assert(st0[kids[q] as int] == cs0[kids[q] as int]);
            }
            made_agree(
                *job,
                *kernel,
                s as int,
                st0,
                cs,
                nvs@[s as int] as int,
                node,
                store@[s as int],
            );
            assert forall|c: int| 0 <= c < s + 1 && unconsumed(sn, c, s + 1) implies #[trigger] store@[c]
                == cs[c] by {
                if c < s {
                    assert(unconsumed(sn, c, s as int));
                    if occurs(kids, c) {
                        parent_is(sn, c, s as int, sn.len() as int);
                    }
                    assert(store@[c] == st0[c]);
                }
            }
            assert forall|c: int| s + 1 <= c < len implies #[trigger] store@[c] is None by {
                if occurs(kids, c) {
                    assert(kids[position(kids, c)] == c);
                }
                assert(store@[c] == st0[c]);
            }
            assert forall|c: int| 0 <= c < s + 1 && nvs@[c] == 0 implies (#[trigger] cs[c] matches Some(
                b,
            ) ==> contrib_ok(sn, n, c, b)) by {
                if c < s {
                    assert(cs[c] == cs0[c]);
                }
            }
        }
        if clock.is_some() {
            let snode = &job.sym.supernodes[s];
            times.push(timing_of(s, snode.nrow, snode.ncol, lap(clock, since)));
        }
        let ghost nodes0 = nodes@;
        nodes.push(node);
        proof {
            assert forall|i: int| 0 <= i < s + 1 implies node_done(
                *job,
                *kernel,
                batch,
                i,
                cs,
                nvs@[i] as int,
                #[trigger] nodes@[i],
            ) by {
                if i < s {
                    assert(nodes@[i] == nodes0[i]);
                }
            }
        }
        s = s + 1;
    }
    let last: Option<ContribBlock<T>> = match store.pop() {
        Some(b) => b,
        None => None,
    };
    proof {
        if len > 0 {
            last_is_unconsumed(sn);
        }
    }
    Ok((nodes, last, Ghost(cs)))
}

/// Nobody takes what the last supernode hands over.
pub proof fn last_is_unconsumed(sn: Seq<Supernode>)
    requires
        crate::multifrontal::model::children_ok(sn),
        sn.len() > 0,
    ensures
        unconsumed(sn, sn.len() - 1, sn.len() as int),
        parent_of(sn, sn.len() - 1) is None,
{
    if parent_of(sn, sn.len() - 1) is Some {
        own_parent_later(sn, sn.len() - 1);
    }
}

} // verus!
