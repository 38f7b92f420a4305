//! Paths in a directed graph, and the finishing order of a depth-first search.

use crate::reach::{lists_of, search_is_determined, search_lists, walk, walk_ends, walk_step, Walk};
use crate::seqs::{below, counting, distinct, distinct_below_len, occurs};
use crate::sparse::position;
use vstd::prelude::*;

verus! {

/// `p` walks along edges from `a` to `b`.
pub open spec fn links(g: spec_fn(int, int) -> bool, p: Seq<int>, a: int, b: int) -> bool {
    &&& p.len() > 0
    &&& p[0] == a
    &&& p.last() == b
    &&& forall|i: int, j: int|
        #![trigger p[i], p[j]]
        0 <= i && j == i + 1 && j < p.len() ==> g(p[i], p[j])
}

/// There is a path from `a` to `b`.
pub open spec fn reaches(g: spec_fn(int, int) -> bool, a: int, b: int) -> bool {
    exists|p: Seq<int>| #[trigger] links(g, p, a, b)
}

pub proof fn reaches_self(g: spec_fn(int, int) -> bool, a: int)
    ensures
        reaches(g, a, a),
{
    assert(links(g, seq![a], a, a));
}

pub proof fn reaches_edge(g: spec_fn(int, int) -> bool, a: int, b: int)
    requires
        g(a, b),
    ensures
        reaches(g, a, b),
{
    assert(links(g, seq![a, b], a, b));
}

pub proof fn reaches_transitive(g: spec_fn(int, int) -> bool, a: int, b: int, c: int)
    requires
        reaches(g, a, b),
        reaches(g, b, c),
    ensures
        reaches(g, a, c),
{
    let p = choose|p: Seq<int>| #[trigger] links(g, p, a, b);
    let q = choose|q: Seq<int>| #[trigger] links(g, q, b, c);
    let r = p.drop_last() + q;
    assert forall|i: int, j: int|
        #![trigger r[i], r[j]]
        0 <= i && j == i + 1 && j < r.len() implies g(r[i], r[j]) by {
        let k = p.len() - 1;
        if j < k {
            assert(r[i] == p[i] && r[j] == p[j]);
        } else if i < k {
            assert(r[i] == p[i]);
            assert(r[j] == q[0] && q[0] == p[k]);
            assert(p[i + 1] == p[k]);
        } else {
            assert(r[i] == q[i - k] && r[j] == q[j - k]);
        }
    }
    assert(r[0] == a) by {
        if p.len() == 1 {
            assert(r[0] == q[0]);
        } else {
            assert(r[0] == p[0]);
        }
    }
    assert(r.last() == q.last());
    assert(links(g, r, a, c));
}

/// The graph with every edge turned round.
pub open spec fn turned_round(g: spec_fn(int, int) -> bool) -> spec_fn(int, int) -> bool {
    |a: int, b: int| g(b, a)
}

/// A path turned round.
pub proof fn path_turned(g: spec_fn(int, int) -> bool, a: int, b: int)
    requires
        reaches(turned_round(g), a, b),
    ensures
        reaches(g, b, a),
{
    let h = turned_round(g);
    let p = choose|p: Seq<int>| #[trigger] links(h, p, a, b);
    let n = p.len() as int;
    let r = Seq::new(p.len(), |i: int| p[n - 1 - i]);
    assert forall|i: int, j: int|
        #![trigger r[i], r[j]]
        0 <= i && j == i + 1 && j < r.len() implies g(r[i], r[j]) by {
        let x = n - 1 - j;
        let y = n - 1 - i;
        assert(p[x] == r[j] && p[y] == r[i]);
        assert(h(p[x], p[y]));
    }
    assert(links(g, r, b, a));
}

/// The adjacency lists hold exactly the edges.
pub open spec fn lists_edges(g: spec_fn(int, int) -> bool, n: int, adj: Seq<Vec<usize>>) -> bool {
    &&& adj.len() == n
    &&& forall|v: int| 0 <= v < n ==> below(#[trigger] adj[v]@, n)
    &&& forall|v: int, w: int| 0 <= v < n ==> (#[trigger] occurs(adj[v]@, w) <==> g(v, w))
    &&& forall|v: int, w: int| #[trigger] g(v, w) ==> 0 <= v < n && 0 <= w < n
}

/// An edge that leaves the first `i + 1` finished vertices ends in one that
/// reaches the last of them.
pub open spec fn leaves_to_ancestor(g: spec_fn(int, int) -> bool, order: Seq<usize>, i: int) -> bool {
    forall|k: int, y: int|
        0 <= k <= i && #[trigger] g(order[k] as int, y) && !occurs(order.take(i + 1), y) ==> reaches(
            g,
            y,
            order[i] as int,
        )
}

/// The open vertices form a path.
pub open spec fn stack_is_path(g: spec_fn(int, int) -> bool, stack: Seq<usize>) -> bool {
    forall|i: int, j: int|
        #![trigger stack[i], stack[j]]
        0 <= i && j == i + 1 && j < stack.len() ==> g(stack[i] as int, stack[j] as int)
}

/// Every open vertex reaches the ones above it.
proof fn stack_reaches(g: spec_fn(int, int) -> bool, stack: Seq<usize>, i: int, j: int)
    requires
        stack_is_path(g, stack),
        0 <= i <= j < stack.len(),
    ensures
        reaches(g, stack[i] as int, stack[j] as int),
    decreases j - i,
{
    if i == j {
        reaches_self(g, stack[i] as int);
    } else {
        stack_reaches(g, stack, i, j - 1);
        let a = stack[j - 1];
        let b = stack[j];
        reaches_edge(g, a as int, b as int);
        reaches_transitive(g, stack[i] as int, a as int, b as int);
    }
}

/// The state of the search: finished and open vertices are the seen ones.
pub open spec fn search_ok(
    g: spec_fn(int, int) -> bool,
    n: int,
    adj: Seq<Vec<usize>>,
    seen: Seq<bool>,
    order: Seq<usize>,
    stack: Seq<usize>,
    cur: Seq<usize>,
) -> bool {
    &&& seen.len() == n
    &&& cur.len() == stack.len()
    &&& below(order, n)
    &&& below(stack, n)
    &&& distinct(order)
    &&& distinct(stack)
    &&& forall|v: int| #[trigger] occurs(order, v) ==> !occurs(stack, v)
    &&& forall|v: int| 0 <= v < n ==> (#[trigger] seen[v] <==> occurs(order, v) || occurs(stack, v))
    &&& forall|k: int, y: int|
        0 <= k < order.len() && #[trigger] g(order[k] as int, y) ==> seen[y]
    &&& stack_is_path(g, stack)
    &&& forall|i: int| 0 <= i < stack.len() ==> #[trigger] cur[i] <= adj[stack[i] as int]@.len()
    &&& forall|i: int, q: int|
        0 <= i < stack.len() && 0 <= q < cur[i] ==> seen[#[trigger] adj[stack[i] as int]@[q] as int]
    &&& forall|i: int| 0 <= i < order.len() ==> #[trigger] leaves_to_ancestor(g, order, i)
}

proof fn push_occurs(s: Seq<usize>, v: usize)
    ensures
        forall|i: int| #[trigger] occurs(s.push(v), i) <==> i == v || occurs(s, i),
{
    let t = s.push(v);
    assert forall|i: int| #[trigger] occurs(t, i) <==> i == v || occurs(s, i) by {
        if i == v {
            assert(t[s.len() as int] == i);
        }
        if occurs(s, i) {
            assert(t[position(s, i)] == i);
        }
        if occurs(t, i) {
            let k = position(t, i);
            if k < s.len() {
                assert(s[k] == i);
            }
        }
    }
}

proof fn push_distinct(s: Seq<usize>, v: usize)
    requires
        distinct(s),
        !occurs(s, v as int),
    ensures
        distinct(s.push(v)),
{
    let t = s.push(v);
    assert forall|a: int, b: int| 0 <= a < b < t.len() implies #[trigger] t[a] != #[trigger] t[b] by {
        if b == s.len() {
            assert(s[a] == t[a]);
        } else {
            assert(s[a] != s[b]);
        }
    }
}

proof fn pop_occurs(s: Seq<usize>)
    requires
        s.len() > 0,
        distinct(s),
    ensures
        distinct(s.drop_last()),
        forall|i: int| #[trigger]
            occurs(s.drop_last(), i) <==> i != s.last() && occurs(s, i),
{
    let t = s.drop_last();
    assert forall|a: int, b: int| 0 <= a < b < t.len() implies #[trigger] t[a] != #[trigger] t[b] by {
        assert(s[a] != s[b]);
    }
    assert forall|i: int| #[trigger] occurs(t, i) <==> i != s.last() && occurs(s, i) by {
        if occurs(t, i) {
            let k = position(t, i);
            assert(s[k] == i);
            assert(s[k] != s[s.len() - 1]);
        }
        if i != s.last() && occurs(s, i) {
            let k = position(s, i);
            assert(t[k] == i);
        }
    }
}

/// A fresh vertex is opened.
proof fn search_opens(
    g: spec_fn(int, int) -> bool,
    n: int,
    adj: Seq<Vec<usize>>,
    seen: Seq<bool>,
    order: Seq<usize>,
    stack: Seq<usize>,
    cur: Seq<usize>,
    v: usize,
)
    requires
        lists_edges(g, n, adj),
        search_ok(g, n, adj, seen, order, stack, cur),
        v < n,
        !seen[v as int],
        stack.len() > 0 ==> g(stack.last() as int, v as int),
    ensures
        search_ok(g, n, adj, seen.update(v as int, true), order, stack.push(v), cur.push(0)),
{
    let seen2 = seen.update(v as int, true);
    let stack2 = stack.push(v);
    let cur2 = cur.push(0);
    push_occurs(stack, v);
    push_distinct(stack, v);
    assert forall|w: int| #[trigger] occurs(order, w) implies !occurs(stack2, w) by {
        assert(occurs(order, v as int) ==> seen[v as int]);
    }
    assert forall|w: int| 0 <= w < n implies (#[trigger] seen2[w] <==> occurs(order, w) || occurs(stack2, w)) by {
        assert(seen[w] <==> occurs(order, w) || occurs(stack, w));
    }
    assert forall|i: int, j: int|
        #![trigger stack2[i], stack2[j]]
        0 <= i && j == i + 1 && j < stack2.len() implies g(stack2[i] as int, stack2[j] as int) by {
        if j < stack.len() {
            assert(stack[i] == stack2[i] && stack[j] == stack2[j]);
        }
    }
    assert forall|i: int| 0 <= i < stack2.len() implies #[trigger] cur2[i] <= adj[stack2[i] as int]@.len() by {
        if i < stack.len() {
            assert(cur[i] == cur2[i]);
        }
    }
    assert forall|i: int, q: int| 0 <= i < stack2.len() && 0 <= q < cur2[i] implies seen2[
        #[trigger] adj[stack2[i] as int]@[q] as int] by {
        assert(cur2[i] == cur[i]);
        assert(seen[adj[stack[i] as int]@[q] as int]);
        assert(stack[i] < n);
        assert(below(adj[stack[i] as int]@, n));
        assert(adj[stack[i] as int]@[q] < n);
    }
    assert forall|k: int, y: int| 0 <= k < order.len() && #[trigger] g(order[k] as int, y) implies seen2[y] by {
        assert(seen[y]);
    }
}

/// A vertex whose children are all seen is finished.
proof fn search_finishes(
    g: spec_fn(int, int) -> bool,
    n: int,
    adj: Seq<Vec<usize>>,
    seen: Seq<bool>,
    order: Seq<usize>,
    stack: Seq<usize>,
    cur: Seq<usize>,
)
    requires
        lists_edges(g, n, adj),
        search_ok(g, n, adj, seen, order, stack, cur),
        stack.len() > 0,
        cur.last() == adj[stack.last() as int]@.len(),
    ensures
        search_ok(g, n, adj, seen, order.push(stack.last()), stack.drop_last(), cur.drop_last()),
{
    let u = stack.last();
    let order2 = order.push(u);
    let stack2 = stack.drop_last();
    let cur2 = cur.drop_last();
    let top = stack.len() - 1;
    assert(stack[top] == u);
    assert(occurs(stack, u as int));
    assert(!occurs(order, u as int));
    push_occurs(order, u);
    push_distinct(order, u);
    pop_occurs(stack);
    assert(u < n) by {
        assert(stack[top] < n);
    }
    assert forall|v: int| #[trigger] occurs(order2, v) implies !occurs(stack2, v) by {
        if v != u {
            assert(occurs(order, v));
            assert(!occurs(stack, v));
        }
    }
    assert forall|v: int| 0 <= v < n implies (#[trigger] seen[v] <==> occurs(order2, v) || occurs(stack2, v)) by {
        assert(seen[v] <==> occurs(order, v) || occurs(stack, v));
    }
    assert forall|k: int, y: int| 0 <= k < order2.len() && #[trigger] g(order2[k] as int, y) implies seen[y] by {
        if k < order.len() {
            assert(order[k] == order2[k]);
            assert(g(order[k] as int, y));
        } else {
            assert(occurs(adj[u as int]@, y));
            let q = position(adj[u as int]@, y);
            assert(seen[adj[stack[top] as int]@[q] as int]);
        }
    }
    assert forall|i: int, j: int|
        #![trigger stack2[i], stack2[j]]
        0 <= i && j == i + 1 && j < stack2.len() implies g(stack2[i] as int, stack2[j] as int) by {
        assert(stack[i] == stack2[i] && stack[j] == stack2[j]);
    }
    assert forall|i: int| 0 <= i < stack2.len() implies #[trigger] cur2[i] <= adj[stack2[i] as int]@.len() by {
        assert(cur[i] == cur2[i]);
    }
    assert forall|i: int, q: int| 0 <= i < stack2.len() && 0 <= q < cur2[i] implies seen[
        #[trigger] adj[stack2[i] as int]@[q] as int] by {
        assert(cur2[i] == cur[i]);
        assert(seen[adj[stack[i] as int]@[q] as int]);
    }
    assert forall|i: int| 0 <= i < order2.len() implies #[trigger] leaves_to_ancestor(g, order2, i) by {
        if i < order.len() {
            assert(leaves_to_ancestor(g, order, i));
            assert(order2.take(i + 1) =~= order.take(i + 1));
            assert forall|k: int, y: int|
                0 <= k <= i && #[trigger] g(order2[k] as int, y) && !occurs(order2.take(i + 1), y) implies reaches(
                g,
                y,
                order2[i] as int,
            ) by {
                assert(g(order[k] as int, y));
            }
        } else {
            assert(order2.take(i + 1) =~= order2);
            assert forall|k: int, y: int|
                0 <= k <= i && #[trigger] g(order2[k] as int, y) && !occurs(order2.take(i + 1), y) implies reaches(
                g,
                y,
                order2[i] as int,
            ) by {
                assert(seen[y]);
                assert(!occurs(order2, y));
                assert(0 <= y < n);
                assert(occurs(stack, y));
                let x = position(stack, y);
                stack_reaches(g, stack, x, top);
            }
        }
    }
}

/// How long the lists are.
pub open spec fn list_lengths(lists: Seq<Seq<usize>>) -> Seq<usize> {
    Seq::new(lists.len(), |v: int| lists[v].len() as usize)
}

/// A depth-first search over these lists, from the vertices in their order,
/// finishes them in this order.
pub open spec fn finishes(lists: Seq<Seq<usize>>, order: Seq<usize>) -> bool {
    let n = lists.len() as int;
    search_lists(
        n,
        lists,
        list_lengths(lists),
        counting(n),
        counting(n),
        order,
        Seq::empty(),
    )
}

/// The vertices finish in one order.
pub proof fn finishing_is_determined(lists: Seq<Seq<usize>>, o1: Seq<usize>, o2: Seq<usize>)
    requires
        finishes(lists, o1),
        finishes(lists, o2),
    ensures
        o1 == o2,
{
    let n = lists.len() as int;
    search_is_determined(
        n,
        lists,
        list_lengths(lists),
        counting(n),
        counting(n),
        o1,
        Seq::empty(),
        o2,
        Seq::empty(),
    );
}

/// The search after `k` steps.
spec fn searched_upto(lists: Seq<Seq<usize>>, k: nat) -> Walk {
    let n = lists.len() as int;
    walk(n, lists, list_lengths(lists), counting(n), counting(n), k)
}

/// One more step.
proof fn search_steps(lists: Seq<Seq<usize>>, k: nat)
    ensures
        searched_upto(lists, k + 1) == walk_step(
            lists.len() as int,
            lists,
            list_lengths(lists),
            counting(lists.len() as int),
            counting(lists.len() as int),
            searched_upto(lists, k),
        ),
{
}

/// The lists of the search are those of a moment of it.
spec fn at_moment(
    n: int,
    w: Walk,
    seen: Seq<bool>,
    order: Seq<usize>,
    stack: Seq<usize>,
    cur: Seq<usize>,
    at: int,
) -> bool {
    &&& forall|r: int| 0 <= r < n ==> (#[trigger] w.seen.contains(r) <==> seen[r])
    &&& w.topo == order
    &&& w.nonpiv == Seq::<usize>::empty()
    &&& w.stack == stack
    &&& w.cur == cur
    &&& w.at == at
}

/// The vertices in the order in which a depth-first search finishes them.
pub fn finishing_order(
    n: usize,
    adj: &Vec<Vec<usize>>,
    Ghost(g): Ghost<spec_fn(int, int) -> bool>,
) -> (order: Vec<usize>)
    requires
        lists_edges(g, n as int, adj@),
    ensures
        order@.len() == n,
        below(order@, n as int),
        distinct(order@),
        forall|i: int| 0 <= i < n ==> #[trigger] leaves_to_ancestor(g, order@, i),
        finishes(lists_of(adj@), order@),
{
    let ghost lists = lists_of(adj@);
    let ghost mut steps: nat = 0;
    let mut seen: Vec<bool> = Vec::new();
    let mut i: usize = 0;
    while i < n
        invariant
            i <= n,
            seen@.len() == i,
            forall|v: int| 0 <= v < i ==> !#[trigger] seen@[v],
        decreases n - i,
    {
        seen.push(false);
        i = i + 1;
    }
    let mut order: Vec<usize> = Vec::new();
    let mut stack: Vec<usize> = Vec::new();
    let mut cur: Vec<usize> = Vec::new();
    let mut root: usize = 0;
    while root < n
        invariant
            root <= n,
            lists_edges(g, n as int, adj@),
            stack@.len() == 0,
            search_ok(g, n as int, adj@, seen@, order@, stack@, cur@),
            forall|v: int| 0 <= v < root ==> #[trigger] seen@[v],
            lists == lists_of(adj@),
            at_moment(
                n as int,
                searched_upto(lists, steps),
                seen@,
                order@,
                Seq::empty(),
                Seq::empty(),
                root as int,
            ),
        decreases n - root,
    {
        proof {
            search_steps(lists, steps);
            steps = steps + 1;
            assert(counting(n as int)[root as int] == root);
        }
        if !seen[root] {
            proof {
                search_opens(g, n as int, adj@, seen@, order@, stack@, cur@, root);
            }
            seen.set(root, true);
            stack.push(root);
            cur.push(0);
            proof {
                assert(stack@ =~= Seq::<usize>::empty().push(root));
                assert(cur@ =~= Seq::<usize>::empty().push(0));
            }
            while stack.len() > 0
                invariant
                    root < n,
                    lists_edges(g, n as int, adj@),
                    search_ok(g, n as int, adj@, seen@, order@, stack@, cur@),
                    forall|v: int| 0 <= v <= root ==> #[trigger] seen@[v],
                    lists == lists_of(adj@),
                    at_moment(
                        n as int,
                        searched_upto(lists, steps),
                        seen@,
                        order@,
                        stack@,
                        cur@,
                        root + 1,
                    ),
                decreases n - order@.len(), n - stack@.len(), (if stack@.len() > 0 {
                    adj@[stack@.last() as int]@.len() - cur@.last()
                } else {
                    0
                }),
            {
                proof {
                    distinct_below_len(stack@, n as int);
                    distinct_below_len(order@, n as int);
                    open_and_finished(n as int, order@, stack@);
                }
                let top: usize = stack.len() - 1;
                let u: usize = stack[top];
                let at: usize = cur[top];
                assert(stack@[top as int] < n);
                assert(cur@[top as int] <= adj@[u as int]@.len());
                let width: usize = adj[u].len();
                proof {
                    search_steps(lists, steps);
                    steps = steps + 1;
                    assert(counting(n as int)[u as int] == u);
                    assert(lists[u as int] == adj@[u as int]@);
                    assert(list_lengths(lists)[u as int] == width);
                }
                if at < width {
                    let c: usize = adj[u][at];
                    proof {
                        assert(below(adj@[u as int]@, n as int));
                        assert(adj@[u as int]@[at as int] < n);
                        assert(occurs(adj@[u as int]@, c as int));
                        assert(g(u as int, c as int));
                        assert(counting(n as int)[c as int] == c);
                    }
                    if !seen[c] {
                        proof {
                            search_opens(g, n as int, adj@, seen@, order@, stack@, cur@, c);
                            let seen2 = seen@.update(c as int, true);
                            let stack2 = stack@.push(c);
                            let cur2 = cur@.push(0);
                            search_advances(g, n as int, adj@, seen2, order@, stack2, cur2, top as int, (at + 1) as usize);
                            distinct_below_len(stack2, n as int);
                            assert(cur@.update(top as int, (at + 1) as usize).push(0) =~= cur2.update(top as int, (at + 1) as usize));
                        }
                        cur.set(top, at + 1);
                        seen.set(c, true);
                        stack.push(c);
                        cur.push(0);
                    } else {
                        proof {
                            search_advances(g, n as int, adj@, seen@, order@, stack@, cur@, top as int, (at + 1) as usize);
                        }
                        cur.set(top, at + 1);
                    }
                } else {
                    proof {
                        search_finishes(g, n as int, adj@, seen@, order@, stack@, cur@);
                    }
                    order.push(u);
                    let ghost s0 = stack@;
                    let ghost c0 = cur@;
                    stack.truncate(top);
                    cur.truncate(top);
                    assert(stack@ =~= s0.drop_last());
                    assert(cur@ =~= c0.drop_last());
                }
            }
            assert(stack@ =~= Seq::<usize>::empty());
            assert(cur@ =~= Seq::<usize>::empty());
        }
        root = root + 1;
    }
    proof {
        assert(walk_ends(
            n as int,
            lists,
            list_lengths(lists),
            counting(n as int),
            counting(n as int),
            steps,
            order@,
            Seq::empty(),
        ));
        assert forall|v: int| 0 <= v < n implies #[trigger] occurs(order@, v) by {
            assert(seen@[v]);
            assert(!occurs(stack@, v));
        }
        complete_list(order@, n as int);
    }
    order
}

/// Moving a cursor past a seen child changes nothing else.
proof fn search_advances(
    g: spec_fn(int, int) -> bool,
    n: int,
    adj: Seq<Vec<usize>>,
    seen: Seq<bool>,
    order: Seq<usize>,
    stack: Seq<usize>,
    cur: Seq<usize>,
    top: int,
    next: usize,
)
    requires
        search_ok(g, n, adj, seen, order, stack, cur),
        0 <= top < stack.len(),
        next == cur[top] + 1,
        next <= adj[stack[top] as int]@.len(),
        seen[adj[stack[top] as int]@[cur[top] as int] as int],
    ensures
        search_ok(g, n, adj, seen, order, stack, cur.update(top, next)),
{
    let cur2 = cur.update(top, next);
    assert forall|i: int| 0 <= i < stack.len() implies #[trigger] cur2[i] <= adj[stack[i] as int]@.len() by {
        if i != top {
            assert(cur[i] == cur2[i]);
        }
    }
    assert forall|i: int, q: int| 0 <= i < stack.len() && 0 <= q < cur2[i] implies seen[
        #[trigger] adj[stack[i] as int]@[q] as int] by {
        if i != top || q < cur[top] {
            assert(q < cur[i]);
        }
    }
}

/// Finished and open vertices together number at most `n`.
proof fn open_and_finished(n: int, order: Seq<usize>, stack: Seq<usize>)
    requires
        below(order, n),
        below(stack, n),
        distinct(order),
        distinct(stack),
        0 <= n,
        forall|v: int| #[trigger] occurs(order, v) ==> !occurs(stack, v),
    ensures
        order.len() + stack.len() <= n,
{
    let s = order + stack;
    assert forall|a: int, b: int| 0 <= a < b < s.len() implies #[trigger] s[a] != #[trigger] s[b] by {
        if b < order.len() {
            assert(order[a] != order[b]);
        } else if a >= order.len() {
            assert(stack[a - order.len()] != stack[b - order.len()]);
        } else {
            assert(occurs(order, order[a] as int));
            if s[a] == s[b] {
                assert(stack[b - order.len()] == order[a]);
                assert(occurs(stack, order[a] as int));
            }
        }
    }
    assert forall|i: int| 0 <= i < s.len() implies #[trigger] s[i] < n by {
        if i < order.len() {
            assert(order[i] < n);
        } else {
            assert(stack[i - order.len()] < n);
        }
    }
    distinct_below_len(s, n);
}

/// A list without repetition that holds all of `0..n` has length `n`.
pub proof fn complete_list(rows: Seq<usize>, n: int)
    requires
        0 <= n,
        distinct(rows),
        below(rows, n),
        forall|v: int| 0 <= v < n ==> #[trigger] occurs(rows, v),
    ensures
        rows.len() == n,
{
    crate::klu::fill::list_counts(rows, n, |i: int| true);
    all_count(n);
}

proof fn all_count(n: int)
    requires
        0 <= n,
    ensures
        crate::klu::fill::count(n, |i: int| true) == n,
    decreases n,
{
    if n > 0 {
        all_count(n - 1);
    }
}

} // verus!
