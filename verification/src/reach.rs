//! Depth-first reach over a partially built factor.
//!
//! Rows `0..m` are the nodes. A row `v` that is already pivotal (`fin[v] < m`)
//! has the leading `ends[fin[v]]` entries of `adj[fin[v]]` as its children; a
//! row that is not pivotal yet (`fin[v] == m`) is a leaf.

use crate::seqs::{below, distinct, distinct_below_len, occurs};
use vstd::prelude::*;

verus! {

/// The part of the factor that the search walks over: `k` pivots so far, and
/// the children of a pivotal row come later in the pivot order than the row.
pub open spec fn graph_ok(
    m: int,
    k: int,
    adj: Seq<Vec<usize>>,
    ends: Seq<usize>,
    fin: Seq<usize>,
) -> bool {
    &&& 0 <= k <= m
    &&& fin.len() == m
    &&& adj.len() == k
    &&& ends.len() == k
    &&& forall|v: int| 0 <= v < m ==> (#[trigger] fin[v] < k || fin[v] == m)
    &&& forall|p: int| 0 <= p < k ==> #[trigger] ends[p] <= adj[p]@.len()
    &&& forall|p: int, q: int|
        0 <= p < k && 0 <= q < adj[p]@.len() ==> {
            let c = #[trigger] adj[p]@[q];
            c < m && fin[c as int] > p
        }
}

/// A set of rows that contains, with a pivotal row, its children.
pub open spec fn closed(
    m: int,
    adj: Seq<Vec<usize>>,
    ends: Seq<usize>,
    fin: Seq<usize>,
    s: Set<int>,
) -> bool {
    forall|v: int, q: int|
        0 <= v < m && s.contains(v) && fin[v] < m && 0 <= q < ends[fin[v] as int] ==> s.contains(
            #[trigger] adj[fin[v] as int]@[q] as int,
        )
}

/// `r` lies in every closed set that contains the start rows.
pub open spec fn reached(
    m: int,
    adj: Seq<Vec<usize>>,
    ends: Seq<usize>,
    fin: Seq<usize>,
    start: Seq<usize>,
    r: int,
) -> bool {
    forall|s: Set<int>|
        #![trigger s.contains(r)]
        closed(m, adj, ends, fin, s) && (forall|q: int|
            0 <= q < start.len() ==> s.contains(#[trigger] start[q] as int)) ==> s.contains(r)
}

/// The pivotal rows found so far, in finishing order: the children of each one
/// are found, and those that are pivotal finished before it.
pub open spec fn finished_in_order(
    adj: Seq<Vec<usize>>,
    ends: Seq<usize>,
    fin: Seq<usize>,
    m: int,
    mark: Seq<usize>,
    stamp: usize,
    topo: Seq<usize>,
) -> bool {
    forall|i: int, q: int|
        0 <= i < topo.len() && 0 <= q < ends[fin[topo[i] as int] as int] ==> {
            let c = #[trigger] adj[fin[topo[i] as int] as int]@[q] as int;
            mark[c] == stamp && (fin[c] < m ==> occurs(topo.take(i), c))
        }
}

/// The stamped rows are the three lists together, without repetition; `topo`
/// and `stack` hold pivotal rows and `nonpiv` the others.
pub open spec fn lists_ok(
    m: int,
    fin: Seq<usize>,
    mark: Seq<usize>,
    stamp: usize,
    topo: Seq<usize>,
    nonpiv: Seq<usize>,
    stack: Seq<usize>,
) -> bool {
    &&& mark.len() == m
    &&& below(topo, m)
    &&& below(nonpiv, m)
    &&& below(stack, m)
    &&& distinct(topo + nonpiv + stack)
    &&& forall|r: int|
        0 <= r < m ==> (#[trigger] mark[r] == stamp <==> occurs(topo, r) || occurs(nonpiv, r) || occurs(stack, r))
    &&& forall|i: int| 0 <= i < topo.len() ==> fin[#[trigger] topo[i] as int] < m
    &&& forall|i: int| 0 <= i < nonpiv.len() ==> fin[#[trigger] nonpiv[i] as int] == m
    &&& forall|i: int| 0 <= i < stack.len() ==> fin[#[trigger] stack[i] as int] < m
}

/// The cursors of the open rows: what a row has scanned is stamped, and its
/// scanned pivotal children are finished, but for the one above it.
pub open spec fn cursors_ok(
    adj: Seq<Vec<usize>>,
    ends: Seq<usize>,
    fin: Seq<usize>,
    m: int,
    mark: Seq<usize>,
    stamp: usize,
    topo: Seq<usize>,
    stack: Seq<usize>,
    cur: Seq<usize>,
) -> bool {
    &&& cur.len() == stack.len()
    &&& forall|i: int| 0 <= i < stack.len() ==> #[trigger] cur[i] <= ends[fin[stack[i] as int] as int]
    &&& forall|i: int, j: int|
        0 <= i < j < stack.len() ==> fin[#[trigger] stack[i] as int] < fin[#[trigger] stack[j] as int]
    &&& forall|i: int, q: int|
        0 <= i < stack.len() && 0 <= q < cur[i] ==> {
            let c = #[trigger] adj[fin[stack[i] as int] as int]@[q] as int;
            mark[c] == stamp && (fin[c] < m ==> occurs(topo, c) || (i + 1 < stack.len() && stack[i
                + 1] == c))
        }
}

/// The lists that vectors hold.
pub open spec fn lists_of(lists: Seq<Vec<usize>>) -> Seq<Seq<usize>> {
    Seq::new(lists.len(), |p: int| lists[p]@)
}

/// A moment of the search: the rows seen, the finished pivotal rows, the other
/// rows, the open rows with their cursors, and the next start row.
pub struct Walk {
    pub seen: Set<int>,
    pub topo: Seq<usize>,
    pub nonpiv: Seq<usize>,
    pub stack: Seq<usize>,
    pub cur: Seq<usize>,
    pub at: int,
}

/// Row `r` comes up in the search: a fresh pivotal row opens, another fresh one
/// is listed.
pub open spec fn meet(m: int, fin: Seq<usize>, w: Walk, r: usize) -> Walk {
    if w.seen.contains(r as int) {
        w
    } else if fin[r as int] == m {
        Walk { seen: w.seen.insert(r as int), nonpiv: w.nonpiv.push(r), ..w }
    } else {
        Walk {
            seen: w.seen.insert(r as int),
            stack: w.stack.push(r),
            cur: w.cur.push(0),
            ..w
        }
    }
}

/// One step: the open row on top meets its next child or is finished; with no
/// open row the next start row comes up.
pub open spec fn walk_step(
    m: int,
    adj: Seq<Seq<usize>>,
    ends: Seq<usize>,
    fin: Seq<usize>,
    start: Seq<usize>,
    w: Walk,
) -> Walk {
    if w.stack.len() > 0 {
        let d = w.stack.len() - 1;
        let p = fin[w.stack[d] as int] as int;
        if w.cur[d] < ends[p] {
            meet(
                m,
                fin,
                Walk { cur: w.cur.update(d, (w.cur[d] + 1) as usize), ..w },
                adj[p][w.cur[d] as int],
            )
        } else {
            Walk {
                topo: w.topo.push(w.stack[d]),
                stack: w.stack.drop_last(),
                cur: w.cur.drop_last(),
                ..w
            }
        }
    } else if w.at < start.len() {
        meet(m, fin, Walk { at: w.at + 1, ..w }, start[w.at])
    } else {
        w
    }
}

/// The search after `n` steps.
pub open spec fn walk(
    m: int,
    adj: Seq<Seq<usize>>,
    ends: Seq<usize>,
    fin: Seq<usize>,
    start: Seq<usize>,
    n: nat,
) -> Walk
    decreases n,
{
    if n == 0 {
        Walk {
            seen: Set::empty(),
            topo: Seq::empty(),
            nonpiv: Seq::empty(),
            stack: Seq::empty(),
            cur: Seq::empty(),
            at: 0,
        }
    } else {
        walk_step(m, adj, ends, fin, start, walk(m, adj, ends, fin, start, (n - 1) as nat))
    }
}

/// The search is over after `n` steps and has listed `topo` and `nonpiv`.
pub open spec fn walk_ends(
    m: int,
    adj: Seq<Seq<usize>>,
    ends: Seq<usize>,
    fin: Seq<usize>,
    start: Seq<usize>,
    n: nat,
    topo: Seq<usize>,
    nonpiv: Seq<usize>,
) -> bool {
    let w = walk(m, adj, ends, fin, start, n);
    &&& w.stack.len() == 0
    &&& w.at >= start.len()
    &&& w.topo == topo
    &&& w.nonpiv == nonpiv
}

/// What the depth-first search from the start rows lists, in its order.
pub open spec fn search_lists(
    m: int,
    adj: Seq<Seq<usize>>,
    ends: Seq<usize>,
    fin: Seq<usize>,
    start: Seq<usize>,
    topo: Seq<usize>,
    nonpiv: Seq<usize>,
) -> bool {
    exists|n: nat| #[trigger] walk_ends(m, adj, ends, fin, start, n, topo, nonpiv)
}

/// A search that is over stays as it is.
proof fn walk_rests(
    m: int,
    adj: Seq<Seq<usize>>,
    ends: Seq<usize>,
    fin: Seq<usize>,
    start: Seq<usize>,
    n1: nat,
    n2: nat,
)
    requires
        n1 <= n2,
        walk(m, adj, ends, fin, start, n1).stack.len() == 0,
        walk(m, adj, ends, fin, start, n1).at >= start.len(),
    ensures
        walk(m, adj, ends, fin, start, n2) == walk(m, adj, ends, fin, start, n1),
    decreases n2 - n1,
{
    if n1 < n2 {
        walk_rests(m, adj, ends, fin, start, n1, (n2 - 1) as nat);
    }
}

/// Only one pair of lists comes out of the search.
pub proof fn search_is_determined(
    m: int,
    adj: Seq<Seq<usize>>,
    ends: Seq<usize>,
    fin: Seq<usize>,
    start: Seq<usize>,
    topo1: Seq<usize>,
    nonpiv1: Seq<usize>,
    topo2: Seq<usize>,
    nonpiv2: Seq<usize>,
)
    requires
        search_lists(m, adj, ends, fin, start, topo1, nonpiv1),
        search_lists(m, adj, ends, fin, start, topo2, nonpiv2),
    ensures
        topo1 == topo2,
        nonpiv1 == nonpiv2,
{
    let n1 = choose|n: nat| #[trigger] walk_ends(m, adj, ends, fin, start, n, topo1, nonpiv1);
    let n2 = choose|n: nat| #[trigger] walk_ends(m, adj, ends, fin, start, n, topo2, nonpiv2);
    if n1 <= n2 {
        walk_rests(m, adj, ends, fin, start, n1, n2);
    } else {
        walk_rests(m, adj, ends, fin, start, n2, n1);
    }
}

/// The marks and lists are those of a moment of the search.
spec fn tracks(
    m: int,
    w: Walk,
    mark: Seq<usize>,
    stamp: usize,
    topo: Seq<usize>,
    nonpiv: Seq<usize>,
    stack: Seq<usize>,
    cur: Seq<usize>,
) -> bool {
    &&& forall|r: int| 0 <= r < m ==> (#[trigger] w.seen.contains(r) <==> mark[r] == stamp)
    &&& w.topo == topo
    &&& w.nonpiv == nonpiv
    &&& w.stack == stack
    &&& w.cur == cur
}

proof fn concat_index(a: Seq<usize>, b: Seq<usize>, c: Seq<usize>)
    ensures
        (a + b + c).len() == a.len() + b.len() + c.len(),
        forall|i: int| 0 <= i < a.len() ==> (a + b + c)[i] == #[trigger] a[i],
        forall|i: int| 0 <= i < b.len() ==> (a + b + c)[a.len() + i] == #[trigger] b[i],
        forall|i: int| 0 <= i < c.len() ==> (a + b + c)[a.len() + b.len() + i] == #[trigger] c[i],
{
}

/// Stamping a fresh row and appending it to `nonpiv` or `stack` keeps the lists.
proof fn lists_push(
    m: int,
    fin: Seq<usize>,
    mark: Seq<usize>,
    stamp: usize,
    topo: Seq<usize>,
    nonpiv: Seq<usize>,
    stack: Seq<usize>,
    c: usize,
)
    requires
        lists_ok(m, fin, mark, stamp, topo, nonpiv, stack),
        c < m,
        mark[c as int] != stamp,
    ensures
        fin[c as int] == m ==> lists_ok(
            m,
            fin,
            mark.update(c as int, stamp),
            stamp,
            topo,
            nonpiv.push(c),
            stack,
        ),
        fin[c as int] < m ==> lists_ok(
            m,
            fin,
            mark.update(c as int, stamp),
            stamp,
            topo,
            nonpiv,
            stack.push(c),
        ),
{
    let mark2 = mark.update(c as int, stamp);
    let all = topo + nonpiv + stack;
    concat_index(topo, nonpiv, stack);
    assert(!occurs(topo, c as int) && !occurs(nonpiv, c as int) && !occurs(stack, c as int));
    assert forall|i: int| 0 <= i < all.len() implies #[trigger] all[i] != c by {
        if i < topo.len() {
            assert(topo[i] != c);
        } else if i < topo.len() + nonpiv.len() {
            assert(nonpiv[i - topo.len()] != c);
        } else {
            assert(stack[i - topo.len() - nonpiv.len()] != c);
        }
    }
    if fin[c as int] == m {
        let np = nonpiv.push(c);
        let all2 = topo + np + stack;
        concat_index(topo, np, stack);
        assert forall|i: int, j: int| 0 <= i < j < all2.len() implies #[trigger] all2[i] != #[trigger] all2[j] by {
            let at = topo.len() + nonpiv.len();
            let si = if i < at { i } else { i - 1 };
            let sj = if j < at { j } else { j - 1 };
            assert(i != at ==> all2[i] == all[si]);
            assert(j != at ==> all2[j] == all[sj]);
            if i != at && j != at {
                assert(all[si] != all[sj]);
            }
        }
        assert forall|r: int| 0 <= r < m implies (#[trigger] mark2[r] == stamp <==> occurs(topo, r)
            || occurs(np, r) || occurs(stack, r)) by {
            assert(mark[r] == stamp <==> occurs(topo, r) || occurs(nonpiv, r) || occurs(stack, r));
            if r == c {
                assert(np[nonpiv.len() as int] == r);
            }
            if occurs(nonpiv, r) {
                let q = choose|q: int| 0 <= q < nonpiv.len() && #[trigger] nonpiv[q] == r;
                assert(np[q] == r);
            }
            if occurs(np, r) && r != c {
                let q = choose|q: int| 0 <= q < np.len() && #[trigger] np[q] == r;
                assert(nonpiv[q] == r);
            }
        }
    } else if fin[c as int] < m {
        let st = stack.push(c);
        let all2 = topo + nonpiv + st;
        concat_index(topo, nonpiv, st);
        assert forall|i: int, j: int| 0 <= i < j < all2.len() implies #[trigger] all2[i] != #[trigger] all2[j] by {
            assert(all2[i] == all[i]);
            if j < all.len() {
                assert(all2[j] == all[j]);
            }
        }
        assert forall|r: int| 0 <= r < m implies (#[trigger] mark2[r] == stamp <==> occurs(topo, r)
            || occurs(nonpiv, r) || occurs(st, r)) by {
            assert(mark[r] == stamp <==> occurs(topo, r) || occurs(nonpiv, r) || occurs(stack, r));
            if r == c {
                assert(st[stack.len() as int] == r);
            }
            if occurs(stack, r) {
                let q = choose|q: int| 0 <= q < stack.len() && #[trigger] stack[q] == r;
                assert(st[q] == r);
            }
            if occurs(st, r) && r != c {
                let q = choose|q: int| 0 <= q < st.len() && #[trigger] st[q] == r;
                assert(stack[q] == r);
            }
        }
    }
}

/// Moving the top of the stack to `topo` keeps the lists.
proof fn lists_pop(
    m: int,
    fin: Seq<usize>,
    mark: Seq<usize>,
    stamp: usize,
    topo: Seq<usize>,
    nonpiv: Seq<usize>,
    stack: Seq<usize>,
)
    requires
        lists_ok(m, fin, mark, stamp, topo, nonpiv, stack),
        stack.len() > 0,
    ensures
        lists_ok(m, fin, mark, stamp, topo.push(stack.last()), nonpiv, stack.drop_last()),
{
    let v = stack.last();
    let t2 = topo.push(v);
    let s2 = stack.drop_last();
    let all = topo + nonpiv + stack;
    let all2 = t2 + nonpiv + s2;
    concat_index(topo, nonpiv, stack);
    concat_index(t2, nonpiv, s2);
    let tl = topo.len() as int;
    assert forall|i: int, j: int| 0 <= i < j < all2.len() implies #[trigger] all2[i] != #[trigger] all2[j] by {
        let si = if i < tl { i } else if i == tl { all.len() - 1 } else { i - 1 };
        let sj = if j < tl { j } else if j == tl { all.len() - 1 } else { j - 1 };
        assert(all2[i] == all[si]);
        assert(all2[j] == all[sj]);
        if si < sj {
            assert(all[si] != all[sj]);
        } else {
            assert(all[sj] != all[si]);
        }
    }
    assert forall|r: int| 0 <= r < m implies (#[trigger] mark[r] == stamp <==> occurs(t2, r) || occurs(nonpiv, r)
        || occurs(s2, r)) by {
        if occurs(topo, r) {
            let q = choose|q: int| 0 <= q < topo.len() && #[trigger] topo[q] == r;
            assert(t2[q] == r);
        }
        if occurs(stack, r) {
            let q = choose|q: int| 0 <= q < stack.len() && #[trigger] stack[q] == r;
            if q == stack.len() - 1 {
                assert(t2[tl] == r);
            } else {
                assert(s2[q] == r);
            }
        }
        if occurs(t2, r) {
            let q = choose|q: int| 0 <= q < t2.len() && #[trigger] t2[q] == r;
            if q < tl {
                assert(topo[q] == r);
            } else {
                assert(stack[stack.len() - 1] == r);
            }
        }
        if occurs(s2, r) {
            let q = choose|q: int| 0 <= q < s2.len() && #[trigger] s2[q] == r;
            assert(stack[q] == r);
        }
    }
}

/// Search from one pivotal row that is not stamped yet.
fn visit(
    m: usize,
    root: usize,
    adj: &Vec<Vec<usize>>,
    ends: &Vec<usize>,
    fin: &Vec<usize>,
    stamp: usize,
    mark: &mut Vec<usize>,
    topo: &mut Vec<usize>,
    nonpiv: &mut Vec<usize>,
    Ghost(start): Ghost<Seq<usize>>,
    Ghost(n): Ghost<nat>,
) -> (end: Ghost<nat>)
    requires
        graph_ok(m as int, adj@.len() as int, adj@, ends@, fin@),
        tracks(
            m as int,
            walk(m as int, lists_of(adj@), ends@, fin@, start, n),
            old(mark)@,
            stamp,
            old(topo)@,
            old(nonpiv)@,
            Seq::empty(),
            Seq::empty(),
        ),
        0 <= walk(m as int, lists_of(adj@), ends@, fin@, start, n).at < start.len(),
        start[walk(m as int, lists_of(adj@), ends@, fin@, start, n).at] == root,
        lists_ok(m as int, fin@, old(mark)@, stamp, old(topo)@, old(nonpiv)@, Seq::empty()),
        finished_in_order(adj@, ends@, fin@, m as int, old(mark)@, stamp, old(topo)@),
        root < m,
        fin@[root as int] < m,
        old(mark)@[root as int] != stamp,
    ensures
        lists_ok(m as int, fin@, final(mark)@, stamp, final(topo)@, final(nonpiv)@, Seq::empty()),
        finished_in_order(adj@, ends@, fin@, m as int, final(mark)@, stamp, final(topo)@),
        final(mark)@[root as int] == stamp,
        forall|r: int|
            0 <= r < m && old(mark)@[r] == stamp ==> #[trigger] final(mark)@[r] == stamp,
        forall|r: int|
            0 <= r < m && #[trigger] final(mark)@[r] != stamp ==> final(mark)@[r] == old(mark)@[r],
        forall|s: Set<int>, r: int|
            #![trigger s.contains(r)]
            closed(m as int, adj@, ends@, fin@, s) && s.contains(root as int) && 0 <= r < m
                && old(mark)@[r] != stamp && final(mark)@[r] == stamp ==> s.contains(r),
        tracks(
            m as int,
            walk(m as int, lists_of(adj@), ends@, fin@, start, end@),
            final(mark)@,
            stamp,
            final(topo)@,
            final(nonpiv)@,
            Seq::empty(),
            Seq::empty(),
        ),
        walk(m as int, lists_of(adj@), ends@, fin@, start, end@).at == walk(
            m as int,
            lists_of(adj@),
            ends@,
            fin@,
            start,
            n,
        ).at + 1,
{
    let ghost mut n2: nat = n + 1;
    let ghost at = walk(m as int, lists_of(adj@), ends@, fin@, start, n).at + 1;
    let mut stack: Vec<usize> = Vec::new();
    let mut cur: Vec<usize> = Vec::new();
    proof {
        lists_push(m as int, fin@, mark@, stamp, topo@, nonpiv@, Seq::empty(), root);
    }
    mark.set(root, stamp);
    stack.push(root);
    cur.push(0);
    proof {
        assert(stack@ =~= Seq::<usize>::empty().push(root));
        assert(cur@ =~= Seq::<usize>::empty().push(0));
        assert forall|i: int, q: int|
            0 <= i < topo@.len() && 0 <= q < ends@[fin@[topo@[i] as int] as int] implies {
            let c = #[trigger] adj@[fin@[topo@[i] as int] as int]@[q] as int;
            mark@[c] == stamp && (fin@[c] < m ==> occurs(topo@.take(i), c))
        } by {
            let c = adj@[fin@[topo@[i] as int] as int]@[q] as int;
            assert(old(mark)@[c] == stamp);
        }
    }
    while stack.len() > 0
        invariant
            tracks(
                m as int,
                walk(m as int, lists_of(adj@), ends@, fin@, start, n2),
                mark@,
                stamp,
                topo@,
                nonpiv@,
                stack@,
                cur@,
            ),
            walk(m as int, lists_of(adj@), ends@, fin@, start, n2).at == at,
            graph_ok(m as int, adj@.len() as int, adj@, ends@, fin@),
            lists_ok(m as int, fin@, mark@, stamp, topo@, nonpiv@, stack@),
            finished_in_order(adj@, ends@, fin@, m as int, mark@, stamp, topo@),
            cursors_ok(adj@, ends@, fin@, m as int, mark@, stamp, topo@, stack@, cur@),
            mark@[root as int] == stamp,
            root < m,
            old(mark)@.len() == m,
            forall|r: int| 0 <= r < m && old(mark)@[r] == stamp ==> #[trigger] mark@[r] == stamp,
            forall|r: int|
                0 <= r < m && #[trigger] mark@[r] != stamp ==> mark@[r] == old(mark)@[r],
            forall|s: Set<int>, r: int|
                #![trigger s.contains(r)]
                closed(m as int, adj@, ends@, fin@, s) && s.contains(root as int) && 0 <= r < m
                    && old(mark)@[r] != stamp && mark@[r] == stamp ==> s.contains(r),
            forall|i: int| 0 <= i < stack@.len() ==> old(mark)@[#[trigger] stack@[i] as int] != stamp,
        decreases
            m - (topo@.len() + nonpiv@.len() + stack@.len()),
            stack@.len(),
            (if stack@.len() > 0 {
                ends@[fin@[stack@.last() as int] as int] - cur@.last()
            } else {
                0
            }),
    {
        let ghost w0 = walk(m as int, lists_of(adj@), ends@, fin@, start, n2);
        proof {
            n2 = n2 + 1;
        }
        let ghost w1 = walk(m as int, lists_of(adj@), ends@, fin@, start, n2);
        assert(w1 == walk_step(m as int, lists_of(adj@), ends@, fin@, start, w0));
        let d: usize = stack.len() - 1;
        let v: usize = stack[d];
        let p: usize = fin[v];
        assert(p < adj@.len());
        if cur[d] < ends[p] {
            let q: usize = cur[d];
            let c: usize = adj[p][q];
            let ghost cur0 = cur@;
            let ghost mark0 = mark@;
            let ghost stack0 = stack@;
            assert(c < m && fin@[c as int] > p);
            assert(w1 == meet(
                m as int,
                fin@,
                Walk { cur: w0.cur.update(d as int, (q + 1) as usize), ..w0 },
                c,
            ));
            cur.set(d, q + 1);
            if mark[c] != stamp {
                proof {
                    lists_push(m as int, fin@, mark@, stamp, topo@, nonpiv@, stack@, c);
                    concat_index(topo@, nonpiv@, stack@);
                    assert forall|s: Set<int>, r: int|
                        #![trigger s.contains(r)]
                        closed(m as int, adj@, ends@, fin@, s) && s.contains(root as int) && 0 <= r
                            < m && old(mark)@[r] != stamp && mark@.update(c as int, stamp)[r]
                            == stamp implies s.contains(r) by {
                        if r == c {
                            assert(old(mark)@[v as int] != stamp);
                            assert(mark@[v as int] == stamp) by {
                                assert(stack@[d as int] == v);
                            }
                            assert(s.contains(v as int));
                            assert(s.contains(adj@[fin@[v as int] as int]@[q as int] as int));
                        }
                    }
                    assert(old(mark)@[c as int] != stamp);
                }
                mark.set(c, stamp);
                if fin[c] == m {
                    nonpiv.push(c);
                    proof {
                        concat_index(topo@, nonpiv@, stack@);
                        let all = topo@ + nonpiv@ + stack@;
                        assert(below(all, m as int)) by {
                            below_concat(topo@, nonpiv@, stack@, m as int);
                        }
                        distinct_below_len(all, m as int);
                        assert(cursors_ok(adj@, ends@, fin@, m as int, mark@, stamp, topo@, stack@, cur@)) by {
                            cursor_step(adj@, ends@, fin@, m as int, mark0, mark@, stamp, topo@, stack@, cur0);
                        }
                        finished_frame(adj@, ends@, fin@, m as int, mark0, mark@, stamp, topo@);
                    }
                } else {
                    stack.push(c);
                    cur.push(0);
                    proof {
                        concat_index(topo@, nonpiv@, stack@);
                        let all = topo@ + nonpiv@ + stack@;
                        assert(below(all, m as int)) by {
                            below_concat(topo@, nonpiv@, stack@, m as int);
                        }
                        distinct_below_len(all, m as int);
                        cursor_push(adj@, ends@, fin@, m as int, mark0, mark@, stamp, topo@, stack0, cur0);
                        finished_frame(adj@, ends@, fin@, m as int, mark0, mark@, stamp, topo@);
                    }
                }
            } else {
                proof {
                    // A stamped pivotal child is finished: an open row comes no
                    // later in the pivot order than the one on top.
                    if fin@[c as int] < m && occurs(stack@, c as int) {
                        let i = choose|i: int| 0 <= i < stack@.len() && #[trigger] stack@[i] == c;
                        if i < d {
                            assert(fin@[stack@[i] as int] < fin@[stack@[d as int] as int]);
                        }
                        assert(false);
                    }
                    if occurs(nonpiv@, c as int) {
                        let i = choose|i: int| 0 <= i < nonpiv@.len() && #[trigger] nonpiv@[i] == c;
                        assert(fin@[nonpiv@[i] as int] == m);
                    }
                    assert(fin@[c as int] < m ==> occurs(topo@, c as int));
                    cursor_step(adj@, ends@, fin@, m as int, mark0, mark@, stamp, topo@, stack@, cur0);
                }
            }
        } else {
            let ghost stack0 = stack@;
            let ghost cur0 = cur@;
            let ghost topo0 = topo@;
            proof {
                lists_pop(m as int, fin@, mark@, stamp, topo@, nonpiv@, stack@);
                concat_index(topo@, nonpiv@, stack@);
                let all = topo@ + nonpiv@ + stack@;
                assert(below(all, m as int)) by {
                    below_concat(topo@, nonpiv@, stack@, m as int);
                }
                distinct_below_len(all, m as int);
            }
            topo.push(v);
            let _ = stack.pop();
            let _ = cur.pop();
            proof {
                assert(topo@ =~= topo0.push(stack0.last()));
                assert(stack@ =~= stack0.drop_last());
                assert(cur@ =~= cur0.drop_last());
                cursor_pop(adj@, ends@, fin@, m as int, mark@, stamp, topo0, stack0, cur0);
            }
        }
    }
    assert(stack@ =~= Seq::<usize>::empty());
    assert(cur@ =~= Seq::<usize>::empty());
    Ghost(n2)
}

proof fn below_concat(a: Seq<usize>, b: Seq<usize>, c: Seq<usize>, m: int)
    requires
        below(a, m),
        below(b, m),
        below(c, m),
    ensures
        below(a + b + c, m),
{
    concat_index(a, b, c);
    let all = a + b + c;
    assert forall|i: int| 0 <= i < all.len() implies #[trigger] all[i] < m by {
        if i < a.len() {
            assert(all[i] == a[i]);
        } else if i < a.len() + b.len() {
            assert(all[i] == b[i - a.len()]);
        } else {
            assert(all[i] == c[i - a.len() - b.len()]);
        }
    }
}

/// Stamping more rows keeps what is said of the finished ones.
proof fn finished_frame(
    adj: Seq<Vec<usize>>,
    ends: Seq<usize>,
    fin: Seq<usize>,
    m: int,
    mark0: Seq<usize>,
    mark: Seq<usize>,
    stamp: usize,
    topo: Seq<usize>,
)
    requires
        finished_in_order(adj, ends, fin, m, mark0, stamp, topo),
        forall|r: int| 0 <= r < mark0.len() && mark0[r] == stamp ==> #[trigger] mark[r] == stamp,
        graph_ok(m, adj.len() as int, adj, ends, fin),
        mark0.len() == m,
        below(topo, m),
        forall|i: int| 0 <= i < topo.len() ==> fin[#[trigger] topo[i] as int] < m,
    ensures
        finished_in_order(adj, ends, fin, m, mark, stamp, topo),
{
    assert forall|i: int, q: int|
        0 <= i < topo.len() && 0 <= q < ends[fin[topo[i] as int] as int] implies {
        let c = #[trigger] adj[fin[topo[i] as int] as int]@[q] as int;
        mark[c] == stamp && (fin[c] < m ==> occurs(topo.take(i), c))
    } by {
        let c = adj[fin[topo[i] as int] as int]@[q] as int;
        assert(topo[i] < m);
        assert(c < m);
        assert(mark0[c] == stamp);
    }
}

/// The top row scans its next child, which is stamped, and finished if pivotal.
proof fn cursor_step(
    adj: Seq<Vec<usize>>,
    ends: Seq<usize>,
    fin: Seq<usize>,
    m: int,
    mark0: Seq<usize>,
    mark: Seq<usize>,
    stamp: usize,
    topo: Seq<usize>,
    stack: Seq<usize>,
    cur: Seq<usize>,
)
    requires
        graph_ok(m, adj.len() as int, adj, ends, fin),
        cursors_ok(adj, ends, fin, m, mark0, stamp, topo, stack, cur),
        stack.len() > 0,
        below(stack, m),
        forall|i: int| 0 <= i < stack.len() ==> fin[#[trigger] stack[i] as int] < m,
        cur.last() < ends[fin[stack.last() as int] as int],
        mark0.len() == m,
        forall|r: int| 0 <= r < m && mark0[r] == stamp ==> #[trigger] mark[r] == stamp,
        ({
            let c = adj[fin[stack.last() as int] as int]@[cur.last() as int] as int;
            mark[c] == stamp && (fin[c] < m ==> occurs(topo, c))
        }),
    ensures
        cursors_ok(
            adj,
            ends,
            fin,
            m,
            mark,
            stamp,
            topo,
            stack,
            cur.update(stack.len() - 1, (cur.last() + 1) as usize),
        ),
{
    let cur2 = cur.update(stack.len() - 1, (cur.last() + 1) as usize);
    assert forall|i: int, q: int| 0 <= i < stack.len() && 0 <= q < cur2[i] implies {
        let c = #[trigger] adj[fin[stack[i] as int] as int]@[q] as int;
        mark[c] == stamp && (fin[c] < m ==> occurs(topo, c) || (i + 1 < stack.len() && stack[i + 1]
            == c))
    } by {
        let c = adj[fin[stack[i] as int] as int]@[q] as int;
        assert(stack[i] < m);
        assert(cur[i] <= ends[fin[stack[i] as int] as int]);
        if q < cur[i] {
            assert(mark0[c] == stamp);
        }
    }
}

/// The top row scans a fresh pivotal child, which becomes the new top.
proof fn cursor_push(
    adj: Seq<Vec<usize>>,
    ends: Seq<usize>,
    fin: Seq<usize>,
    m: int,
    mark0: Seq<usize>,
    mark: Seq<usize>,
    stamp: usize,
    topo: Seq<usize>,
    stack: Seq<usize>,
    cur: Seq<usize>,
)
    requires
        graph_ok(m, adj.len() as int, adj, ends, fin),
        cursors_ok(adj, ends, fin, m, mark0, stamp, topo, stack, cur),
        stack.len() > 0,
        below(stack, m),
        forall|i: int| 0 <= i < stack.len() ==> fin[#[trigger] stack[i] as int] < m,
        cur.last() < ends[fin[stack.last() as int] as int],
        mark0.len() == m,
        forall|r: int| 0 <= r < m && mark0[r] == stamp ==> #[trigger] mark[r] == stamp,
        ({
            let c = adj[fin[stack.last() as int] as int]@[cur.last() as int] as int;
            mark[c] == stamp && fin[c] < m
        }),
    ensures
        ({
            let c = adj[fin[stack.last() as int] as int]@[cur.last() as int];
            cursors_ok(
                adj,
                ends,
                fin,
                m,
                mark,
                stamp,
                topo,
                stack.push(c),
                cur.update(stack.len() - 1, (cur.last() + 1) as usize).push(0),
            )
        }),
{
    let ch = adj[fin[stack.last() as int] as int]@[cur.last() as int];
    let stack2 = stack.push(ch);
    let cur2 = cur.update(stack.len() - 1, (cur.last() + 1) as usize).push(0);
    let d = stack.len() - 1;
    assert forall|i: int, j: int| 0 <= i < j < stack2.len() implies fin[#[trigger] stack2[i] as int]
        < fin[#[trigger] stack2[j] as int] by {
        if j < stack.len() {
            assert(fin[stack[i] as int] < fin[stack[j] as int]);
        } else {
            if i < d {
                assert(fin[stack[i] as int] < fin[stack[d] as int]);
            }
            assert(fin[ch as int] > fin[stack[d] as int]);
        }
    }
    assert forall|i: int| 0 <= i < stack2.len() implies #[trigger] cur2[i] <= ends[fin[stack2[i] as int] as int] by {
        if i < d {
            assert(cur[i] <= ends[fin[stack[i] as int] as int]);
        }
    }
    assert forall|i: int, q: int| 0 <= i < stack2.len() && 0 <= q < cur2[i] implies {
        let c = #[trigger] adj[fin[stack2[i] as int] as int]@[q] as int;
        mark[c] == stamp && (fin[c] < m ==> occurs(topo, c) || (i + 1 < stack2.len() && stack2[i + 1]
            == c))
    } by {
        let c = adj[fin[stack2[i] as int] as int]@[q] as int;
        assert(i < stack.len());
        assert(stack2[i] == stack[i]);
        assert(stack[i] < m);
        assert(cur[i] <= ends[fin[stack[i] as int] as int]);
        if q < cur[i] {
            assert(c == adj[fin[stack[i] as int] as int]@[q] as int);
            assert(mark0[c] == stamp);
            assert(fin[c] < m ==> occurs(topo, c) || (i + 1 < stack.len() && stack[i + 1] == c));
        } else {
            assert(i == d);
        }
    }
}

/// The top row has scanned all its children and is finished.
proof fn cursor_pop(
    adj: Seq<Vec<usize>>,
    ends: Seq<usize>,
    fin: Seq<usize>,
    m: int,
    mark: Seq<usize>,
    stamp: usize,
    topo: Seq<usize>,
    stack: Seq<usize>,
    cur: Seq<usize>,
)
    requires
        graph_ok(m, adj.len() as int, adj, ends, fin),
        cursors_ok(adj, ends, fin, m, mark, stamp, topo, stack, cur),
        finished_in_order(adj, ends, fin, m, mark, stamp, topo),
        stack.len() > 0,
        below(stack, m),
        forall|i: int| 0 <= i < stack.len() ==> fin[#[trigger] stack[i] as int] < m,
        cur.last() >= ends[fin[stack.last() as int] as int],
    ensures
        cursors_ok(
            adj,
            ends,
            fin,
            m,
            mark,
            stamp,
            topo.push(stack.last()),
            stack.drop_last(),
            cur.drop_last(),
        ),
        finished_in_order(adj, ends, fin, m, mark, stamp, topo.push(stack.last())),
{
    let t2 = topo.push(stack.last());
    let s2 = stack.drop_last();
    let c2 = cur.drop_last();
    let d = stack.len() - 1;
    assert forall|i: int, q: int|
        0 <= i < t2.len() && 0 <= q < ends[fin[t2[i] as int] as int] implies {
        let c = #[trigger] adj[fin[t2[i] as int] as int]@[q] as int;
        mark[c] == stamp && (fin[c] < m ==> occurs(t2.take(i), c))
    } by {
        let c = adj[fin[t2[i] as int] as int]@[q] as int;
        if i < topo.len() {
            assert(t2[i] == topo[i]);
            assert(t2.take(i) =~= topo.take(i));
        } else {
            assert(t2[i] == stack[d]);
            assert(c == adj[fin[stack[d] as int] as int]@[q] as int);
            assert(t2.take(i) =~= topo);
        }
    }
    assert forall|i: int, q: int| 0 <= i < s2.len() && 0 <= q < c2[i] implies {
        let c = #[trigger] adj[fin[s2[i] as int] as int]@[q] as int;
        mark[c] == stamp && (fin[c] < m ==> occurs(t2, c) || (i + 1 < s2.len() && s2[i + 1] == c))
    } by {
        let c = adj[fin[s2[i] as int] as int]@[q] as int;
        assert(s2[i] == stack[i]);
        assert(c == adj[fin[stack[i] as int] as int]@[q] as int);
        if fin[c] < m {
            if occurs(topo, c) {
                let q2 = choose|q2: int| 0 <= q2 < topo.len() && #[trigger] topo[q2] == c;
                assert(t2[q2] == c);
            } else {
                assert(stack[i + 1] == c);
                if i + 1 == d {
                    assert(t2[topo.len() as int] == c);
                }
            }
        }
    }
    assert forall|i: int| 0 <= i < s2.len() implies #[trigger] c2[i] <= ends[fin[s2[i] as int] as int] by {
        assert(cur[i] <= ends[fin[stack[i] as int] as int]);
    }
    assert forall|i: int, j: int| 0 <= i < j < s2.len() implies fin[#[trigger] s2[i] as int] < fin[#[trigger] s2[j] as int] by {
        assert(fin[stack[i] as int] < fin[stack[j] as int]);
    }
}

/// All rows that the start rows reach: the pivotal ones in `topo`, every one
/// after the pivotal rows below it, and the others in `nonpiv`.
pub fn reach(
    m: usize,
    start: &Vec<usize>,
    adj: &Vec<Vec<usize>>,
    ends: &Vec<usize>,
    fin: &Vec<usize>,
    stamp: usize,
    mark: &mut Vec<usize>,
    topo: &mut Vec<usize>,
    nonpiv: &mut Vec<usize>,
)
    requires
        graph_ok(m as int, adj@.len() as int, adj@, ends@, fin@),
        below(start@, m as int),
        old(mark)@.len() == m,
        forall|r: int| 0 <= r < m ==> #[trigger] old(mark)@[r] != stamp,
    ensures
        lists_ok(m as int, fin@, final(mark)@, stamp, final(topo)@, final(nonpiv)@, Seq::empty()),
        finished_in_order(adj@, ends@, fin@, m as int, final(mark)@, stamp, final(topo)@),
        forall|q: int| 0 <= q < start@.len() ==> final(mark)@[#[trigger] start@[q] as int] == stamp,
        forall|r: int|
            0 <= r < m && #[trigger] final(mark)@[r] != stamp ==> final(mark)@[r] == old(mark)@[r],
        forall|r: int|
            0 <= r < m && #[trigger] final(mark)@[r] == stamp ==> reached(
                m as int,
                adj@,
                ends@,
                fin@,
                start@,
                r,
            ),
        search_lists(m as int, lists_of(adj@), ends@, fin@, start@, final(topo)@, final(nonpiv)@),
{
    topo.clear();
    nonpiv.clear();
    let ghost mut n: nat = 0;
    proof {
        assert(topo@ + nonpiv@ + Seq::<usize>::empty() =~= Seq::<usize>::empty());
    }
    let mut k: usize = 0;
    while k < start.len()
        invariant
            graph_ok(m as int, adj@.len() as int, adj@, ends@, fin@),
            below(start@, m as int),
            k <= start@.len(),
            tracks(
                m as int,
                walk(m as int, lists_of(adj@), ends@, fin@, start@, n),
                mark@,
                stamp,
                topo@,
                nonpiv@,
                Seq::empty(),
                Seq::empty(),
            ),
            walk(m as int, lists_of(adj@), ends@, fin@, start@, n).at == k,
            old(mark)@.len() == m,
            forall|r: int| 0 <= r < m ==> #[trigger] old(mark)@[r] != stamp,
            lists_ok(m as int, fin@, mark@, stamp, topo@, nonpiv@, Seq::empty()),
            finished_in_order(adj@, ends@, fin@, m as int, mark@, stamp, topo@),
            forall|q: int| 0 <= q < k ==> mark@[#[trigger] start@[q] as int] == stamp,
            forall|r: int|
                0 <= r < m && #[trigger] mark@[r] != stamp ==> mark@[r] == old(mark)@[r],
            forall|r: int|
                0 <= r < m && #[trigger] mark@[r] == stamp ==> reached(
                    m as int,
                    adj@,
                    ends@,
                    fin@,
                    start@,
                    r,
                ),
        decreases start@.len() - k,
    {
        let r: usize = start[k];
        let ghost w0 = walk(m as int, lists_of(adj@), ends@, fin@, start@, n);
        assert(walk(m as int, lists_of(adj@), ends@, fin@, start@, n + 1) == walk_step(
            m as int,
            lists_of(adj@),
            ends@,
            fin@,
            start@,
            w0,
        ));
        let ghost mark0 = mark@;
        let ghost topo0 = topo@;
        if mark[r] != stamp {
            assert(reached(m as int, adj@, ends@, fin@, start@, r as int)) by {
                assert forall|s: Set<int>|
                    #![trigger s.contains(r as int)]
                    closed(m as int, adj@, ends@, fin@, s) && (forall|q: int|
                        0 <= q < start@.len() ==> s.contains(#[trigger] start@[q] as int)) implies s.contains(
                    r as int) by {
                    assert(s.contains(start@[k as int] as int));
                }
            }
            if fin[r] == m {
                proof {
                    lists_push(m as int, fin@, mark@, stamp, topo@, nonpiv@, Seq::empty(), r);
                }
                mark.set(r, stamp);
                nonpiv.push(r);
                proof {
                    n = n + 1;
                    finished_frame(adj@, ends@, fin@, m as int, mark0, mark@, stamp, topo@);
                }
            } else {
                let end = visit(
                    m,
                    r,
                    adj,
                    ends,
                    fin,
                    stamp,
                    mark,
                    topo,
                    nonpiv,
                    Ghost(start@),
                    Ghost(n),
                );
                proof {
                    n = end@;
                    assert forall|r2: int| 0 <= r2 < m && #[trigger] mark@[r2] == stamp implies reached(
                        m as int,
                        adj@,
                        ends@,
                        fin@,
                        start@,
                        r2,
                    ) by {
                        if mark0[r2] != stamp {
                            assert forall|s: Set<int>|
                                #![trigger s.contains(r2)]
                                closed(m as int, adj@, ends@, fin@, s) && (forall|q: int|
                                    0 <= q < start@.len() ==> s.contains(#[trigger] start@[q] as int)) implies s.contains(
                            r2) by {
                                assert(s.contains(start@[k as int] as int));
                            }
                        }
                    }
                }
            }
        } else {
            proof {
                n = n + 1;
            }
        }
        k = k + 1;
    }
    assert(walk_ends(m as int, lists_of(adj@), ends@, fin@, start@, n, topo@, nonpiv@));
}

} // verus!
