//! Strongly connected components, in an order that has every edge inside a
//! component or to an earlier one.

use crate::klu::form::{block_of, block_range, cuts_ok, in_block};
use crate::klu::graph::{
    complete_list, finishes, finishing_is_determined, finishing_order, leaves_to_ancestor, links,
    lists_edges, path_turned, reaches, reaches_self, reaches_transitive, turned_round,
};
use crate::reach::lists_of;
use crate::seqs::{below, distinct, is_permutation, occurs, permutation_is_onto};
use crate::sparse::position;
use vstd::prelude::*;

verus! {

/// `a` and `b` reach each other.
pub open spec fn connected(g: spec_fn(int, int) -> bool, a: int, b: int) -> bool {
    reaches(g, a, b) && reaches(g, b, a)
}

/// Every edge out of a block stays in it or goes to an earlier one.
pub open spec fn edges_go_back(
    g: spec_fn(int, int) -> bool,
    list: Seq<usize>,
    ptr: Seq<usize>,
) -> bool {
    forall|b: int, p: int, w: int| #[trigger]
        in_block(ptr, b, p) && #[trigger] g(list[p] as int, w) ==> occurs(
            list.take(ptr[b + 1] as int),
            w,
        )
}

/// The vertices of a block reach each other.
pub open spec fn blocks_connected(
    g: spec_fn(int, int) -> bool,
    list: Seq<usize>,
    ptr: Seq<usize>,
) -> bool {
    forall|b: int, p: int, q: int| #[trigger]
        in_block(ptr, b, p) && #[trigger] in_block(ptr, b, q) ==> reaches(
            g,
            list[p] as int,
            list[q] as int,
        )
}

/// The last vertex of a path that lies outside the list.
proof fn last_outside(p: Seq<int>, s: Seq<usize>, k: int) -> (t: int)
    requires
        0 <= k < p.len(),
        !occurs(s, p[0]),
    ensures
        0 <= t <= k,
        !occurs(s, p[t]),
        forall|x: int| t < x <= k ==> occurs(s, #[trigger] p[x]),
    decreases k,
{
    if !occurs(s, p[k]) {
        k
    } else {
        last_outside(p, s, k - 1)
    }
}

/// What the root reaches through vertices that finished before it, reaches the
/// root.
proof fn root_is_reached(
    g: spec_fn(int, int) -> bool,
    n: int,
    order: Seq<usize>,
    i: int,
    p: Seq<int>,
)
    requires
        is_permutation(order, n),
        forall|k: int| 0 <= k < n ==> #[trigger] leaves_to_ancestor(turned_round(g), order, k),
        0 <= i < n,
        p.len() > 0,
        links(g, p, order[i] as int, p.last()),
        forall|t: int| 0 <= t < p.len() ==> occurs(order.take(i + 1), #[trigger] p[t]),
    ensures
        reaches(turned_round(g), order[i] as int, p.last()),
    decreases i - position(order.take(i + 1), p.last()),
{
    let h = turned_round(g);
    let head = order.take(i + 1);
    let u = p.last();
    assert(p[p.len() - 1] == u);
    assert(occurs(head, u));
    let iu = position(head, u);
    assert(head[iu] == u);
    assert(order[iu] == u);
    if iu == i {
        reaches_self(h, u);
    } else {
        let s = order.take(iu + 1);
        assert(!occurs(s, p[0])) by {
            if occurs(s, p[0]) {
                let k = position(s, p[0]);
                assert(order[k] == order[i]);
                assert(order[k] != order[i]);
            }
        }
        let t = last_outside(p, s, p.len() - 1);
        assert(occurs(s, u)) by {
            assert(s[iu] == u);
        }
        assert(t < p.len() - 1);
        assert(occurs(s, p[t + 1]));
        let k = position(s, p[t + 1]);
        assert(order[k] == p[t + 1]);
        assert(g(p[t], p[t + 1]));
        assert(leaves_to_ancestor(h, order, iu));
        assert(h(order[k] as int, p[t]));
        assert(reaches(h, p[t], u));
        let p2 = p.take(t + 1);
        assert(p2.last() == p[t]);
        assert(links(g, p2, order[i] as int, p2.last())) by {
            assert forall|x: int, y: int|
                #![trigger p2[x], p2[y]]
                0 <= x && y == x + 1 && y < p2.len() implies g(p2[x], p2[y]) by {
                assert(p2[x] == p[x] && p2[y] == p[y]);
            }
        }
        assert forall|x: int| 0 <= x < p2.len() implies occurs(head, #[trigger] p2[x]) by {
            assert(p2[x] == p[x]);
        }
        // `p[t]` finished later than `u`.
        let it = position(head, p[t]);
        assert(occurs(head, p[t]));
        assert(head[it] == p[t]);
        if it <= iu {
            assert(s[it] == p[t]);
            assert(occurs(s, p[t]));
        }
        root_is_reached(g, n, order, i, p2);
        reaches_transitive(h, order[i] as int, p[t], u);
    }
}

/// There is a path from `v` to `u` that avoids the list.
spec fn around(g: spec_fn(int, int) -> bool, base: Seq<usize>, v: int, u: int) -> bool {
    exists|p: Seq<int>| #[trigger]
        links(g, p, v, u) && forall|t: int| 0 <= t < p.len() ==> !occurs(base, #[trigger] p[t])
}

proof fn around_step(g: spec_fn(int, int) -> bool, base: Seq<usize>, v: int, u: int, w: int)
    requires
        around(g, base, v, u),
        g(u, w),
        !occurs(base, w),
    ensures
        around(g, base, v, w),
{
    let p = choose|p: Seq<int>| #[trigger]
        links(g, p, v, u) && forall|t: int| 0 <= t < p.len() ==> !occurs(base, #[trigger] p[t]);
    let r = p.push(w);
    assert(links(g, r, v, w)) by {
        assert forall|x: int, y: int|
            #![trigger r[x], r[y]]
            0 <= x && y == x + 1 && y < r.len() implies g(r[x], r[y]) by {
            if y < p.len() {
                assert(r[x] == p[x] && r[y] == p[y]);
            } else {
                assert(r[x] == p.last());
            }
        }
    }
    assert forall|t: int| 0 <= t < r.len() implies !occurs(base, #[trigger] r[t]) by {
        if t < p.len() {
            assert(r[t] == p[t]);
        }
    }
}

/// What the search from the root collects is connected to the root.
proof fn collected_is_connected(
    g: spec_fn(int, int) -> bool,
    n: int,
    order: Seq<usize>,
    i: int,
    base: Seq<usize>,
    u: int,
)
    requires
        is_permutation(order, n),
        forall|k: int| 0 <= k < n ==> #[trigger] leaves_to_ancestor(turned_round(g), order, k),
        0 <= i < n,
        forall|k: int| i < k < n ==> occurs(base, #[trigger] order[k] as int),
        forall|v: int, w: int| #[trigger] g(v, w) ==> 0 <= v < n && 0 <= w < n,
        around(g, base, order[i] as int, u),
    ensures
        connected(g, order[i] as int, u),
{
    let v = order[i] as int;
    let p = choose|p: Seq<int>| #[trigger]
        links(g, p, v, u) && forall|t: int| 0 <= t < p.len() ==> !occurs(base, #[trigger] p[t]);
    assert(order[i] < n);
    assert forall|t: int| 0 <= t < p.len() implies occurs(order.take(i + 1), #[trigger] p[t]) by {
        if t > 0 {
            let a = p[t - 1];
            let b = p[t];
            assert(g(a, b));
        }
        permutation_is_onto(order, n, p[t]);
        let k = position(order, p[t]);
        assert(order[k] == p[t]);
        if k > i {
            assert(occurs(base, order[k] as int));
        }
        assert(order.take(i + 1)[k] == p[t]);
    }
    root_is_reached(g, n, order, i, p);
    path_turned(g, v, u);
}

proof fn grown_occurs(s: Seq<usize>, v: usize)
    ensures
        forall|i: int| #[trigger] occurs(s.push(v), i) <==> i == v || occurs(s, i),
        distinct(s) && !occurs(s, v as int) ==> distinct(s.push(v)),
{
    let t = s.push(v);
    assert forall|i: int| #[trigger] occurs(t, i) <==> i == v || occurs(s, i) by {
        if i == v {
            assert(t[s.len() as int] == i);
        }
        if occurs(s, i) {
            assert(t[position(s, i)] == i);
        }
        if occurs(t, i) {
            let k = position(t, i);
            if k < s.len() {
                assert(s[k] == i);
            }
        }
    }
    if distinct(s) && !occurs(s, v as int) {
        assert forall|a: int, b: int| 0 <= a < b < t.len() implies #[trigger] t[a] != #[trigger] t[b] by {
            if b == s.len() {
                assert(s[a] == t[a]);
            } else {
                assert(s[a] != s[b]);
            }
        }
    }
}

/// The list so far and which vertices it holds.
spec fn placed_ok(n: int, list: Seq<usize>, placed: Seq<bool>) -> bool {
    &&& placed.len() == n
    &&& below(list, n)
    &&& distinct(list)
    &&& forall|v: int| 0 <= v < n ==> (#[trigger] placed[v] <==> occurs(list, v))
}

/// A list that grows by what its members lead to: member `head` looks at its
/// edge `q` next.
pub struct Spread {
    pub list: Seq<usize>,
    pub head: int,
    pub q: int,
}

/// The list that starts with `base` and `v`, after `k` steps.
pub open spec fn spreading(fwd: Seq<Seq<usize>>, base: Seq<usize>, v: usize, k: nat) -> Spread
    decreases k,
{
    if k == 0 {
        Spread { list: base.push(v), head: base.len() as int, q: 0 }
    } else {
        let s = spreading(fwd, base, v, (k - 1) as nat);
        if s.head >= s.list.len() {
            s
        } else {
            let out = fwd[s.list[s.head] as int];
            if s.q >= out.len() {
                Spread { head: s.head + 1, q: 0, ..s }
            } else if occurs(s.list, out[s.q] as int) {
                Spread { q: s.q + 1, ..s }
            } else {
                Spread { list: s.list.push(out[s.q]), q: s.q + 1, ..s }
            }
        }
    }
}

/// The list grows to this after `k` steps.
pub open spec fn spread_ends(
    fwd: Seq<Seq<usize>>,
    base: Seq<usize>,
    v: usize,
    k: nat,
    list: Seq<usize>,
) -> bool {
    let s = spreading(fwd, base, v, k);
    s.head >= s.list.len() && s.list == list
}

/// What `v` leads to outside the list, appended in the order in which it is
/// found.
pub open spec fn spreads_to(
    fwd: Seq<Seq<usize>>,
    base: Seq<usize>,
    v: usize,
    list: Seq<usize>,
) -> bool {
    exists|k: nat| #[trigger] spread_ends(fwd, base, v, k, list)
}

proof fn spread_rests(fwd: Seq<Seq<usize>>, base: Seq<usize>, v: usize, k1: nat, k2: nat)
    requires
        k1 <= k2,
        spreading(fwd, base, v, k1).head >= spreading(fwd, base, v, k1).list.len(),
    ensures
        spreading(fwd, base, v, k2) == spreading(fwd, base, v, k1),
    decreases k2 - k1,
{
    if k1 < k2 {
        spread_rests(fwd, base, v, k1, (k2 - 1) as nat);
    }
}

/// A list grows in one way.
pub proof fn spread_is_determined(
    fwd: Seq<Seq<usize>>,
    base: Seq<usize>,
    v: usize,
    l1: Seq<usize>,
    l2: Seq<usize>,
)
    requires
        spreads_to(fwd, base, v, l1),
        spreads_to(fwd, base, v, l2),
    ensures
        l1 == l2,
{
    let k1 = choose|k: nat| #[trigger] spread_ends(fwd, base, v, k, l1);
    let k2 = choose|k: nat| #[trigger] spread_ends(fwd, base, v, k, l2);
    if k1 <= k2 {
        spread_rests(fwd, base, v, k1, k2);
    } else {
        spread_rests(fwd, base, v, k2, k1);
    }
}

/// The components that the vertices from `order[i]` on bring up, last first:
/// the vertices and where each component starts.
pub open spec fn components_from(
    fwd: Seq<Seq<usize>>,
    order: Seq<usize>,
    i: int,
) -> (Seq<usize>, Seq<usize>)
    decreases order.len() - i,
{
    if i >= order.len() {
        (Seq::empty(), seq![0usize])
    } else {
        let (list, ptr) = components_from(fwd, order, i + 1);
        let v = order[i];
        if occurs(list, v as int) {
            (list, ptr)
        } else {
            let more = choose|l: Seq<usize>| #[trigger] spreads_to(fwd, list, v, l);
            (more, ptr.push(more.len() as usize))
        }
    }
}

/// The order in which a search over these lists finishes the vertices.
pub open spec fn finish_of(lists: Seq<Seq<usize>>) -> Seq<usize> {
    choose|order: Seq<usize>| #[trigger] finishes(lists, order)
}

/// Collect what `v` reaches without passing through the list.
fn collect(
    n: usize,
    fwd: &Vec<Vec<usize>>,
    Ghost(g): Ghost<spec_fn(int, int) -> bool>,
    v: usize,
    list: &mut Vec<usize>,
    placed: &mut Vec<bool>,
)
    requires
        lists_edges(g, n as int, fwd@),
        v < n,
        placed_ok(n as int, old(list)@, old(placed)@),
        !old(placed)@[v as int],
    ensures
        placed_ok(n as int, final(list)@, final(placed)@),
        final(list)@.len() > old(list)@.len(),
        final(list)@.take(old(list)@.len() as int) == old(list)@,
        final(list)@[old(list)@.len() as int] == v,
        forall|p: int|
            old(list)@.len() <= p < final(list)@.len() ==> around(
                g,
                old(list)@,
                v as int,
                #[trigger] final(list)@[p] as int,
            ),
        forall|p: int, w: int|
            old(list)@.len() <= p < final(list)@.len() && #[trigger] g(
                final(list)@[p] as int,
                w,
            ) ==> occurs(final(list)@, w),
        spreads_to(lists_of(fwd@), old(list)@, v, final(list)@),
{
    let ghost base = list@;
    let ghost lists = lists_of(fwd@);
    let ghost mut steps: nat = 0;
    let start: usize = list.len();
    proof {
        grown_occurs(base, v);
        assert(links(g, seq![v as int], v as int, v as int));
        assert(around(g, base, v as int, v as int)) by {
            let p = seq![v as int];
            assert forall|t: int| 0 <= t < p.len() implies !occurs(base, #[trigger] p[t]) by {}
        }
    }
    list.push(v);
    placed.set(v, true);
    assert(list@.take(start as int) =~= base);
    let mut head: usize = start;
    while head < list.len()
        invariant
            lists_edges(g, n as int, fwd@),
            start == base.len(),
            start <= head <= list@.len(),
            start < list@.len(),
            placed_ok(n as int, list@, placed@),
            list@.take(start as int) == base,
            list@[start as int] == v,
            forall|p: int|
                start <= p < list@.len() ==> around(g, base, v as int, #[trigger] list@[p] as int),
            forall|p: int, w: int|
                start <= p < head && #[trigger] g(list@[p] as int, w) ==> occurs(list@, w),
            lists == lists_of(fwd@),
            spreading(lists, base, v, steps) == (Spread { list: list@, head: head as int, q: 0 }),
        decreases n - head,
    {
        let u: usize = list[head];
        assert(list@[head as int] < n);
        assert(lists[u as int] == fwd@[u as int]@);
        proof {
            assert(list@[head as int] < n);
            crate::seqs::distinct_below_len(list@, n as int);
        }
        let mut q: usize = 0;
        while q < fwd[u].len()
            invariant
                lists_edges(g, n as int, fwd@),
                start == base.len(),
                start <= head < list@.len(),
                placed_ok(n as int, list@, placed@),
                list@.take(start as int) == base,
                list@[start as int] == v,
                u < n,
                list@[head as int] == u,
                q <= fwd@[u as int]@.len(),
                forall|p: int|
                    start <= p < list@.len() ==> around(g, base, v as int, #[trigger] list@[p] as int),
                forall|p: int, w: int|
                    start <= p < head && #[trigger] g(list@[p] as int, w) ==> occurs(list@, w),
                forall|x: int| 0 <= x < q ==> occurs(list@, #[trigger] fwd@[u as int]@[x] as int),
                lists == lists_of(fwd@),
                lists[u as int] == fwd@[u as int]@,
                spreading(lists, base, v, steps) == (Spread {
                    list: list@,
                    head: head as int,
                    q: q as int,
                }),
            decreases fwd@[u as int]@.len() - q,
        {
            proof {
                steps = steps + 1;
            }
            let w: usize = fwd[u][q];
            proof {
                assert(below(fwd@[u as int]@, n as int));
                assert(fwd@[u as int]@[q as int] < n);
                assert(occurs(fwd@[u as int]@, w as int));
                assert(g(u as int, w as int));
            }
            if !placed[w] {
                let ghost l0 = list@;
                proof {
                    grown_occurs(l0, w);
                    if occurs(base, w as int) {
                        let k = position(base, w as int);
                        assert(l0.take(start as int)[k] == w);
                        assert(l0[k] == w);
                        assert(occurs(l0, w as int));
                    }
                    around_step(g, base, v as int, u as int, w as int);
                }
                list.push(w);
                placed.set(w, true);
                proof {
                    assert(list@.take(start as int) =~= l0.take(start as int));
                    assert forall|p: int| start <= p < list@.len() implies around(
                        g,
                        base,
                        v as int,
                        #[trigger] list@[p] as int,
                    ) by {
                        if p < l0.len() {
                            assert(list@[p] == l0[p]);
                        }
                    }
                    assert forall|p: int, x: int|
                        start <= p < head && #[trigger] g(list@[p] as int, x) implies occurs(list@, x) by {
                        assert(list@[p] == l0[p]);
                        assert(g(l0[p] as int, x));
                    }
                }
            }
            q = q + 1;
        }
        proof {
            assert forall|p: int, w: int|
                start <= p < head + 1 && #[trigger] g(list@[p] as int, w) implies occurs(list@, w) by {
                if p == head {
                    assert(occurs(fwd@[u as int]@, w));
                    let x = position(fwd@[u as int]@, w);
                    assert(fwd@[u as int]@[x] == w);
                }
            }
            steps = steps + 1;
        }
        head = head + 1;
    }
    proof {
        assert(spread_ends(lists, base, v, steps, list@));
        crate::seqs::distinct_below_len(list@, n as int);
    }
}

/// The strongly connected components: the vertices component by component, and
/// where each component starts.
pub fn strong_components(
    n: usize,
    fwd: &Vec<Vec<usize>>,
    bwd: &Vec<Vec<usize>>,
    Ghost(g): Ghost<spec_fn(int, int) -> bool>,
) -> (r: (Vec<usize>, Vec<usize>))
    requires
        lists_edges(g, n as int, fwd@),
        lists_edges(turned_round(g), n as int, bwd@),
    ensures
        is_permutation(r.0@, n as int),
        cuts_ok(n as int, r.1@),
        edges_go_back(g, r.0@, r.1@),
        blocks_connected(g, r.0@, r.1@),
        (r.0@, r.1@) == components_from(lists_of(fwd@), finish_of(lists_of(bwd@)), 0),
{
    let order = finishing_order(n, bwd, Ghost(turned_round(g)));
    let ghost lists = lists_of(fwd@);
    proof {
        finishing_is_determined(lists_of(bwd@), order@, finish_of(lists_of(bwd@)));
    }
    let mut list: Vec<usize> = Vec::new();
    let mut ptr: Vec<usize> = Vec::new();
    ptr.push(0);
    let mut placed: Vec<bool> = Vec::new();
    let mut i: usize = 0;
    while i < n
        invariant
            i <= n,
            placed@.len() == i,
            forall|v: int| 0 <= v < i ==> !#[trigger] placed@[v],
        decreases n - i,
    {
        placed.push(false);
        i = i + 1;
    }
    i = n;
    while i > 0
        invariant
            i <= n,
            lists_edges(g, n as int, fwd@),
            is_permutation(order@, n as int),
            forall|k: int|
                0 <= k < n ==> #[trigger] leaves_to_ancestor(turned_round(g), order@, k),
            placed_ok(n as int, list@, placed@),
            cuts_ok(list@.len() as int, ptr@),
            forall|k: int| i <= k < n ==> occurs(list@, #[trigger] order@[k] as int),
            edges_go_back(g, list@, ptr@),
            blocks_connected(g, list@, ptr@),
            lists == lists_of(fwd@),
            (list@, ptr@) == components_from(lists, order@, i as int),
        decreases i,
    {
        i = i - 1;
        let v: usize = order[i];
        assert(order@[i as int] < n);
        if !placed[v] {
            let ghost l0 = list@;
            let ghost p0 = ptr@;
            collect(n, fwd, Ghost(g), v, &mut list, &mut placed);
            ptr.push(list.len());
            proof {
                let more = choose|l: Seq<usize>| #[trigger] spreads_to(lists, l0, v, l);
                spread_is_determined(lists, l0, v, list@, more);
                assert(!occurs(l0, v as int));
                assert((list@, ptr@) == components_from(lists, order@, i as int));
                let l1 = list@;
                let p1 = ptr@;
                let nb = p0.len() - 1;
                assert forall|a: int, b: int| 0 <= a < b < p1.len() implies #[trigger] p1[a] < #[trigger] p1[b] by {
                    if b < p0.len() {
                        assert(p0[a] < p0[b]);
                    } else if a < p0.len() - 1 {
                        assert(p0[a] < p0[p0.len() - 1]);
                    }
                }
                assert(cuts_ok(l1.len() as int, p1));
                assert forall|p: int| 0 <= p < l0.len() implies #[trigger] l0[p] == l1[p] by {
                    assert(l1.take(l0.len() as int)[p] == l1[p]);
                }
                assert forall|b: int, p: int| #[trigger] in_block(p1, b, p) implies (b < nb && in_block(p0, b, p)
                    && p < l0.len()) || (b == nb && l0.len() <= p < l1.len()) by {
                    if b < nb {
                        block_range(l0.len() as int, p0, b);
                    }
                }
                assert forall|k: int| 0 <= k < l0.len() implies occurs(l1, #[trigger] l0[k] as int) by {
                    assert(l1[k] == l0[k]);
                }
                assert forall|b: int, p: int, w: int| #[trigger]
                    in_block(p1, b, p) && #[trigger] g(l1[p] as int, w) implies occurs(
                    l1.take(p1[b + 1] as int),
                    w,
                ) by {
                    if b < nb {
                        assert(in_block(p0, b, p));
                        assert(l0[p] == l1[p]);
                        assert(g(l0[p] as int, w));
                        let e = p0[b + 1] as int;
                        block_range(l0.len() as int, p0, b);
                        assert(l1.take(e) =~= l0.take(e));
                        assert(occurs(l0.take(e), w));
                    } else {
                        assert(l1.take(l1.len() as int) =~= l1);
                    }
                }
                assert forall|b: int, p: int, q: int| #[trigger]
                    in_block(p1, b, p) && #[trigger] in_block(p1, b, q) implies reaches(
                    g,
                    l1[p] as int,
                    l1[q] as int,
                ) by {
                    if b < nb {
                        assert(in_block(p0, b, p) && in_block(p0, b, q));
                        assert(l0[p] == l1[p] && l0[q] == l1[q]);
                    } else {
                        assert(around(g, l0, v as int, l1[p] as int));
                        assert(around(g, l0, v as int, l1[q] as int));
                        collected_is_connected(g, n as int, order@, i as int, l0, l1[p] as int);
                        collected_is_connected(g, n as int, order@, i as int, l0, l1[q] as int);
                        reaches_transitive(g, l1[p] as int, v as int, l1[q] as int);
                    }
                }
                assert forall|k: int| i <= k < n implies occurs(l1, #[trigger] order@[k] as int) by {
                    if k == i {
                        assert(l1[l0.len() as int] == v);
                    } else {
                        assert(occurs(l0, order@[k] as int));
                        let x = position(l0, order@[k] as int);
                        assert(l1[x] == l0[x]);
                    }
                }
            }
        } else {
            assert(occurs(list@, order@[i as int] as int));
        }
    }
    proof {
        assert forall|v: int| 0 <= v < n implies #[trigger] occurs(list@, v) by {
            permutation_is_onto(order@, n as int, v);
            let k = position(order@, v);
            assert(order@[k] == v);
            assert(occurs(list@, order@[k] as int));
        }
        complete_list(list@, n as int);
    }
    (list, ptr)
}

/// Two vertices share a block exactly if they reach each other.
pub proof fn blocks_are_the_components(
    g: spec_fn(int, int) -> bool,
    n: int,
    list: Seq<usize>,
    ptr: Seq<usize>,
    b1: int,
    b2: int,
    p: int,
    q: int,
)
    requires
        is_permutation(list, n),
        cuts_ok(n, ptr),
        edges_go_back(g, list, ptr),
        blocks_connected(g, list, ptr),
        in_block(ptr, b1, p),
        in_block(ptr, b2, q),
    ensures
        b1 == b2 <==> connected(g, list[p] as int, list[q] as int),
{
    if b1 == b2 {
        assert(reaches(g, list[p] as int, list[q] as int));
        assert(reaches(g, list[q] as int, list[p] as int));
    }
    if connected(g, list[p] as int, list[q] as int) {
        paths_go_back(g, n, list, ptr, b1, b2, p, q);
        paths_go_back(g, n, list, ptr, b2, b1, q, p);
    }
}

/// A path ends in the block where it starts or in an earlier one.
proof fn paths_go_back(
    g: spec_fn(int, int) -> bool,
    n: int,
    list: Seq<usize>,
    ptr: Seq<usize>,
    b1: int,
    b2: int,
    p: int,
    q: int,
)
    requires
        is_permutation(list, n),
        cuts_ok(n, ptr),
        edges_go_back(g, list, ptr),
        in_block(ptr, b1, p),
        in_block(ptr, b2, q),
        reaches(g, list[p] as int, list[q] as int),
    ensures
        b2 <= b1,
{
    let path = choose|path: Seq<int>| #[trigger] links(g, path, list[p] as int, list[q] as int);
    block_range(n, ptr, b1);
    block_range(n, ptr, b2);
    assert(occurs(list.take(ptr[b1 + 1] as int), path[0])) by {
        assert(list.take(ptr[b1 + 1] as int)[p] == list[p]);
    }
    prefix_holds(g, n, list, ptr, b1, path, path.len() - 1);
    let s = list.take(ptr[b1 + 1] as int);
    let k = position(s, list[q] as int);
    assert(path[path.len() - 1] == list[q]);
    assert(s[k] == list[q]);
    assert(list[k] == list[q]);
    if k < q {
        assert(list[k] != list[q]);
    } else if q < k {
        assert(list[q] != list[k]);
    }
    if b2 > b1 {
        if b1 + 1 < b2 {
            assert(ptr[b1 + 1] < ptr[b2]);
        }
    }
}

proof fn prefix_holds(
    g: spec_fn(int, int) -> bool,
    n: int,
    list: Seq<usize>,
    ptr: Seq<usize>,
    b: int,
    path: Seq<int>,
    t: int,
)
    requires
        is_permutation(list, n),
        cuts_ok(n, ptr),
        edges_go_back(g, list, ptr),
        0 <= b < ptr.len() - 1,
        0 <= t < path.len(),
        links(g, path, path[0], path.last()),
        occurs(list.take(ptr[b + 1] as int), path[0]),
    ensures
        occurs(list.take(ptr[b + 1] as int), path[t]),
    decreases t,
{
    if t > 0 {
        prefix_holds(g, n, list, ptr, b, path, t - 1);
        block_range(n, ptr, b);
        let s = list.take(ptr[b + 1] as int);
        let k = position(s, path[t - 1]);
        assert(s[k] == path[t - 1]);
        assert(list[k] == path[t - 1]);
        let b3 = block_of(n, ptr, k);
        assert(b3 <= b) by {
            if b3 > b {
                if b + 1 < b3 {
                    assert(ptr[b + 1] < ptr[b3]);
                }
            }
        }
        let x = path[t - 1];
        let y = path[t];
        assert(g(x, y));
        assert(in_block(ptr, b3, k));
        assert(g(list[k] as int, y));
        let s3 = list.take(ptr[b3 + 1] as int);
        assert(occurs(s3, y));
        let z = position(s3, y);
        assert(s3[z] == y);
        assert(ptr[b3 + 1] <= ptr[b + 1]) by {
            if b3 < b {
                assert(ptr[b3 + 1] < ptr[b + 1]);
            }
        }
        assert(s[z] == y);
    }
}

} // verus!
