//! Exact fill of a block when every pivot is the diagonal entry.

use crate::counts::saturated;
use crate::reach::{closed, finished_in_order, graph_ok, lists_ok, reach, reached};
use crate::seqs::{below, distinct, distinct_below_len, occurs};
use crate::sparse::position;
use vstd::prelude::*;

verus! {

/// Entry `(i, j)` is nonzero after the first `k` elimination steps, whatever
/// the values.
pub open spec fn filled(pat: spec_fn(int, int) -> bool, i: int, j: int, k: int) -> bool
    decreases k,
{
    if k <= 0 {
        pat(i, j)
    } else {
        filled(pat, i, j, k - 1) || (k - 1 < i && k - 1 < j && filled(pat, i, k - 1, k - 1)
            && filled(pat, k - 1, j, k - 1))
    }
}

/// Row `i` is stored below the diagonal of column `j` of `L`.
pub open spec fn in_lower(pat: spec_fn(int, int) -> bool, i: int, j: int) -> bool {
    i > j && filled(pat, i, j, j)
}

/// Row `i` is stored above the diagonal of column `j` of `U`.
pub open spec fn in_upper(pat: spec_fn(int, int) -> bool, i: int, j: int) -> bool {
    i < j && filled(pat, i, j, j)
}

/// How many of the first `n` numbers have the property.
pub open spec fn count(n: int, p: spec_fn(int) -> bool) -> int
    decreases n,
{
    if n <= 0 {
        0
    } else if p(n - 1) {
        count(n - 1, p) + 1
    } else {
        count(n - 1, p)
    }
}

/// The entries of column `j` of `L` below the diagonal.
pub open spec fn lower_count(m: int, pat: spec_fn(int, int) -> bool, j: int) -> int {
    count(m, |i: int| in_lower(pat, i, j))
}

/// The entries of column `j` of `U` above the diagonal.
pub open spec fn upper_count(m: int, pat: spec_fn(int, int) -> bool, j: int) -> int {
    count(m, |i: int| in_upper(pat, i, j))
}

/// The entries of the first `k` columns of `L`.
pub open spec fn lower_total(m: int, pat: spec_fn(int, int) -> bool, k: int) -> int
    decreases k,
{
    if k <= 0 {
        0
    } else {
        lower_total(m, pat, k - 1) + lower_count(m, pat, k - 1)
    }
}

/// The entries of the first `k` columns of `U`.
pub open spec fn upper_total(m: int, pat: spec_fn(int, int) -> bool, k: int) -> int
    decreases k,
{
    if k <= 0 {
        0
    } else {
        upper_total(m, pat, k - 1) + upper_count(m, pat, k - 1)
    }
}

/// Two operations for every entry of the `L` columns that the first `q` rows
/// above the diagonal of column `j` bring in.
pub open spec fn update_flops(m: int, pat: spec_fn(int, int) -> bool, j: int, q: int) -> int
    decreases q,
{
    if q <= 0 {
        0
    } else if in_upper(pat, q - 1, j) {
        update_flops(m, pat, j, q - 1) + 2 * lower_count(m, pat, q - 1)
    } else {
        update_flops(m, pat, j, q - 1)
    }
}

/// The operations of the first `k` columns: updates and divisions.
pub open spec fn total_flops(m: int, pat: spec_fn(int, int) -> bool, k: int) -> int
    decreases k,
{
    if k <= 0 {
        0
    } else {
        total_flops(m, pat, k - 1) + update_flops(m, pat, k - 1, k - 1) + lower_count(m, pat, k - 1)
    }
}

/// A list without repetition that holds exactly the numbers with the property
/// is as long as their count.
pub proof fn list_counts(rows: Seq<usize>, m: int, p: spec_fn(int) -> bool)
    requires
        0 <= m,
        distinct(rows),
        below(rows, m),
        forall|i: int| 0 <= i < m ==> (#[trigger] p(i) <==> occurs(rows, i)),
    ensures
        rows.len() == count(m, p),
    decreases m,
{
    if m == 0 {
        if rows.len() > 0 {
            assert(rows[0] < 0);
        }
    } else {
        assert(p(m - 1) <==> occurs(rows, m - 1));
        if occurs(rows, m - 1) {
            let q = position(rows, m - 1);
            let rest = rows.remove(q);
            assert forall|i: int| 0 <= i < rest.len() implies #[trigger] rest[i] < m - 1 by {
                let src = if i < q { i } else { i + 1 };
                assert(rest[i] == rows[src]);
                assert(rows[src] < m);
                if src < q {
                    assert(rows[src] != rows[q]);
                } else {
                    assert(rows[q] != rows[src]);
                }
            }
            assert forall|i: int, j: int| 0 <= i < j < rest.len() implies #[trigger] rest[i]
                != #[trigger] rest[j] by {
                let si = if i < q { i } else { i + 1 };
                let sj = if j < q { j } else { j + 1 };
                assert(rest[i] == rows[si] && rest[j] == rows[sj]);
                assert(rows[si] != rows[sj]);
            }
            assert forall|i: int| 0 <= i < m - 1 implies (#[trigger] p(i) <==> occurs(rest, i)) by {
                if occurs(rows, i) {
                    let k = position(rows, i);
                    let k2 = if k < q { k } else { k - 1 };
                    assert(rest[k2] == i);
                }
                if occurs(rest, i) {
                    let k = position(rest, i);
                    let k2 = if k < q { k } else { k + 1 };
                    assert(rows[k2] == i);
                }
            }
            list_counts(rest, m - 1, p);
        } else {
            assert forall|i: int| 0 <= i < rows.len() implies #[trigger] rows[i] < m - 1 by {
                assert(rows[i] < m);
                assert(occurs(rows, rows[i] as int));
            }
            list_counts(rows, m - 1, p);
        }
    }
}

pub proof fn count_bounds(n: int, p: spec_fn(int) -> bool)
    requires
        0 <= n,
    ensures
        0 <= count(n, p) <= n,
    decreases n,
{
    if n > 0 {
        count_bounds(n - 1, p);
    }
}

/// Filling only adds entries.
pub proof fn filled_grows(pat: spec_fn(int, int) -> bool, i: int, j: int, k: int, k2: int)
    requires
        k <= k2,
        filled(pat, i, j, k),
    ensures
        filled(pat, i, j, k2),
    decreases k2,
{
    if k2 > 0 && k < k2 {
        filled_grows(pat, i, j, k, k2 - 1);
    }
}

/// Row `i` is settled once the steps before it are taken.
pub proof fn filled_settles(pat: spec_fn(int, int) -> bool, i: int, j: int, k: int)
    requires
        0 <= i <= k,
        filled(pat, i, j, k),
    ensures
        filled(pat, i, j, i),
    decreases k,
{
    if k > i {
        filled_settles(pat, i, j, k - 1);
    }
}

/// The columns before `k` hold exactly the rows below their diagonals.
pub open spec fn lower_lists(m: int, pat: spec_fn(int, int) -> bool, adj: Seq<Vec<usize>>) -> bool {
    &&& forall|p: int| 0 <= p < adj.len() ==> distinct(#[trigger] adj[p]@)
    &&& forall|p: int| 0 <= p < adj.len() ==> below(#[trigger] adj[p]@, m)
    &&& forall|p: int, i: int|
        0 <= p < adj.len() && 0 <= i < m ==> (#[trigger] occurs(adj[p]@, i) <==> in_lower(pat, i, p))
}

/// What the search of column `k` finds is what the elimination fills.
proof fn search_finds_the_fill(
    m: int,
    k: int,
    pat: spec_fn(int, int) -> bool,
    start: Seq<usize>,
    adj: Seq<Vec<usize>>,
    ends: Seq<usize>,
    fin: Seq<usize>,
    mark: Seq<usize>,
    stamp: usize,
    topo: Seq<usize>,
    nonpiv: Seq<usize>,
    i: int,
)
    requires
        0 <= k < m,
        graph_ok(m, k, adj, ends, fin),
        lower_lists(m, pat, adj),
        forall|p: int| 0 <= p < k ==> #[trigger] ends[p] == adj[p]@.len(),
        forall|v: int| 0 <= v < m ==> #[trigger] fin[v] == (if v < k {
            v
        } else {
            m
        }),
        below(start, m),
        forall|r: int| 0 <= r < m ==> (#[trigger] occurs(start, r) <==> pat(r, k)),
        lists_ok(m, fin, mark, stamp, topo, nonpiv, Seq::empty()),
        finished_in_order(adj, ends, fin, m, mark, stamp, topo),
        forall|q: int| 0 <= q < start.len() ==> mark[#[trigger] start[q] as int] == stamp,
        forall|r: int|
            0 <= r < m && #[trigger] mark[r] == stamp ==> reached(m, adj, ends, fin, start, r),
        0 <= i < m,
    ensures
        mark[i] == stamp <==> filled(pat, i, k, k),
{
    if mark[i] == stamp {
        let s = Set::new(|r: int| 0 <= r < m && filled(pat, r, k, k));
        assert(closed(m, adj, ends, fin, s)) by {
            assert forall|v: int, q: int|
                0 <= v < m && s.contains(v) && fin[v] < m && 0 <= q < ends[fin[v] as int] implies s.contains(
                #[trigger] adj[fin[v] as int]@[q] as int,
            ) by {
                let c = adj[v]@[q] as int;
                assert(fin[v] == v && v < k);
                assert(adj[v]@[q] < m);
                assert(occurs(adj[v]@, c));
                assert(in_lower(pat, c, v));
                filled_settles(pat, v, k, k);
                assert(filled(pat, c, k, v + 1));
                filled_grows(pat, c, k, v + 1, k);
            }
        }
        assert forall|q: int| 0 <= q < start.len() implies s.contains(#[trigger] start[q] as int) by {
            assert(occurs(start, start[q] as int));
            assert(start[q] < m);
            filled_grows(pat, start[q] as int, k, 0, k);
        }
        assert(reached(m, adj, ends, fin, start, i));
        assert(s.contains(i));
    }
    if filled(pat, i, k, k) {
        fill_is_marked(m, k, pat, start, adj, ends, fin, mark, stamp, topo, nonpiv, i, k);
    }
}

proof fn fill_is_marked(
    m: int,
    k: int,
    pat: spec_fn(int, int) -> bool,
    start: Seq<usize>,
    adj: Seq<Vec<usize>>,
    ends: Seq<usize>,
    fin: Seq<usize>,
    mark: Seq<usize>,
    stamp: usize,
    topo: Seq<usize>,
    nonpiv: Seq<usize>,
    i: int,
    t: int,
)
    requires
        0 <= t <= k < m,
        graph_ok(m, k, adj, ends, fin),
        lower_lists(m, pat, adj),
        forall|p: int| 0 <= p < k ==> #[trigger] ends[p] == adj[p]@.len(),
        forall|v: int| 0 <= v < m ==> #[trigger] fin[v] == (if v < k {
            v
        } else {
            m
        }),
        below(start, m),
        forall|r: int| 0 <= r < m ==> (#[trigger] occurs(start, r) <==> pat(r, k)),
        lists_ok(m, fin, mark, stamp, topo, nonpiv, Seq::empty()),
        finished_in_order(adj, ends, fin, m, mark, stamp, topo),
        forall|q: int| 0 <= q < start.len() ==> mark[#[trigger] start[q] as int] == stamp,
        0 <= i < m,
        filled(pat, i, k, t),
    ensures
        mark[i] == stamp,
    decreases t,
{
    if t == 0 {
        assert(occurs(start, i));
        let q = position(start, i);
        assert(start[q] == i);
    } else if filled(pat, i, k, t - 1) {
        fill_is_marked(m, k, pat, start, adj, ends, fin, mark, stamp, topo, nonpiv, i, t - 1);
    } else {
        let p = t - 1;
        fill_is_marked(m, k, pat, start, adj, ends, fin, mark, stamp, topo, nonpiv, p, t - 1);
        assert(fin[p] == p);
        assert(mark[p] == stamp);
        if occurs(nonpiv, p) {
            let q = position(nonpiv, p);
            assert(fin[nonpiv[q] as int] == m);
        }
        if occurs(Seq::<usize>::empty(), p) {
        }
        assert(occurs(topo, p));
        let x = position(topo, p);
        assert(topo[x] == p);
        assert(in_lower(pat, i, p));
        assert(occurs(adj[p]@, i));
        let q = position(adj[p]@, i);
        assert(adj[fin[topo[x] as int] as int]@[q] == i);
    }
}

/// The entries of the list that differ from `v`.
fn without(rows: &Vec<usize>, v: usize) -> (r: Vec<usize>)
    requires
        distinct(rows@),
    ensures
        distinct(r@),
        forall|i: int| #[trigger] occurs(r@, i) <==> i != v && occurs(rows@, i),
{
    let mut r: Vec<usize> = Vec::new();
    let mut q: usize = 0;
    while q < rows.len()
        invariant
            q <= rows@.len(),
            distinct(rows@),
            distinct(r@),
            forall|i: int| #[trigger] occurs(r@, i) <==> i != v && occurs(rows@.take(q as int), i),
        decreases rows@.len() - q,
    {
        let x: usize = rows[q];
        let ghost h1 = rows@.take(q as int);
        let ghost h2 = rows@.take(q + 1);
        let ghost r0 = r@;
        proof {
            assert(h2 =~= h1.push(x));
            assert forall|i: int| #[trigger] occurs(h2, i) <==> i == x || occurs(h1, i) by {
                if i == x {
                    assert(h2[q as int] == i);
                }
                if occurs(h1, i) {
                    assert(h2[position(h1, i)] == i);
                }
                if occurs(h2, i) {
                    let k = position(h2, i);
                    if k < q {
                        assert(h1[k] == i);
                    }
                }
            }
            if occurs(h1, x as int) {
                let k = position(h1, x as int);
                assert(rows@[k] != rows@[q as int]);
            }
        }
        if x != v {
            r.push(x);
            proof {
                assert forall|i: int| #[trigger] occurs(r@, i) <==> i == x || occurs(r0, i) by {
                    if i == x {
                        assert(r@[r0.len() as int] == i);
                    }
                    if occurs(r0, i) {
                        assert(r@[position(r0, i)] == i);
                    }
                    if occurs(r@, i) {
                        let k = position(r@, i);
                        if k < r0.len() {
                            assert(r0[k] == i);
                        }
                    }
                }
                assert(!occurs(r0, x as int));
                assert forall|a: int, b: int| 0 <= a < b < r@.len() implies #[trigger] r@[a] != #[trigger] r@[b] by {
                    if b == r0.len() {
                        assert(r0[a] == r@[a]);
                    } else {
                        assert(r0[a] != r0[b]);
                    }
                }
            }
        }
        q = q + 1;
    }
    assert(rows@.take(rows@.len() as int) =~= rows@);
    r
}

/// The operations that the listed columns bring in, counted with repetition.
spec fn listed_flops(m: int, pat: spec_fn(int, int) -> bool, rows: Seq<usize>, q: int) -> int
    decreases q,
{
    if q <= 0 {
        0
    } else {
        listed_flops(m, pat, rows, q - 1) + 2 * lower_count(m, pat, rows[q - 1] as int)
    }
}

/// The listed columns bring in what the rows above the diagonal do.
proof fn flops_agree(m: int, pat: spec_fn(int, int) -> bool, j: int, rows: Seq<usize>, k: int)
    requires
        0 <= k,
        distinct(rows),
        below(rows, k),
        forall|i: int| 0 <= i < k ==> (#[trigger] occurs(rows, i) <==> in_upper(pat, i, j)),
    ensures
        listed_flops(m, pat, rows, rows.len() as int) == update_flops(m, pat, j, k),
    decreases k,
{
    if k == 0 {
        if rows.len() > 0 {
            assert(rows[0] < 0);
        }
    } else {
        assert(occurs(rows, k - 1) <==> in_upper(pat, k - 1, j));
        if occurs(rows, k - 1) {
            let q = position(rows, k - 1);
            let rest = rows.remove(q);
            assert forall|i: int| 0 <= i < rest.len() implies #[trigger] rest[i] < k - 1 by {
                let src = if i < q { i } else { i + 1 };
                assert(rest[i] == rows[src]);
                assert(rows[src] < k);
                if src < q {
                    assert(rows[src] != rows[q]);
                } else {
                    assert(rows[q] != rows[src]);
                }
            }
            assert forall|a: int, b: int| 0 <= a < b < rest.len() implies #[trigger] rest[a]
                != #[trigger] rest[b] by {
                let si = if a < q { a } else { a + 1 };
                let sj = if b < q { b } else { b + 1 };
                assert(rest[a] == rows[si] && rest[b] == rows[sj]);
                assert(rows[si] != rows[sj]);
            }
            assert forall|i: int| 0 <= i < k - 1 implies (#[trigger] occurs(rest, i) <==> in_upper(pat, i, j)) by {
                assert(occurs(rows, i) <==> in_upper(pat, i, j));
                if occurs(rows, i) {
                    let x = position(rows, i);
                    let x2 = if x < q { x } else { x - 1 };
                    assert(rest[x2] == i);
                }
                if occurs(rest, i) {
                    let x = position(rest, i);
                    let x2 = if x < q { x } else { x + 1 };
                    assert(rows[x2] == i);
                }
            }
            flops_agree(m, pat, j, rest, k - 1);
            listed_without(m, pat, rows, q, rows.len() as int);
        } else {
            assert forall|i: int| 0 <= i < rows.len() implies #[trigger] rows[i] < k - 1 by {
                assert(rows[i] < k);
                assert(occurs(rows, rows[i] as int));
            }
            flops_agree(m, pat, j, rows, k - 1);
        }
    }
}

proof fn listed_without(m: int, pat: spec_fn(int, int) -> bool, rows: Seq<usize>, q: int, t: int)
    requires
        0 <= q < rows.len(),
        0 <= t <= rows.len(),
    ensures
        t <= q ==> listed_flops(m, pat, rows.remove(q), t) == listed_flops(m, pat, rows, t),
        t > q ==> listed_flops(m, pat, rows.remove(q), t - 1) + 2 * lower_count(
            m,
            pat,
            rows[q] as int,
        ) == listed_flops(m, pat, rows, t),
    decreases t,
{
    if t > 0 {
        listed_without(m, pat, rows, q, t - 1);
        if t <= q {
            assert(rows.remove(q)[t - 1] == rows[t - 1]);
        } else if t - 1 > q {
            assert(rows.remove(q)[t - 2] == rows[t - 1]);
        }
    }
}

/// The fill of an `m` by `m` block with diagonal pivots: the entries of `L`
/// and of `U` off the diagonal, and the operations.
pub fn block_fill(m: usize, cols: &Vec<Vec<usize>>, Ghost(pat): Ghost<spec_fn(int, int) -> bool>) -> (r: (
    u64,
    u64,
    u64,
))
    requires
        m < 0x8000_0000,
        cols@.len() == m,
        forall|j: int| 0 <= j < m ==> below(#[trigger] cols@[j]@, m as int),
        forall|j: int, i: int|
            0 <= j < m && 0 <= i < m ==> (#[trigger] occurs(cols@[j]@, i) <==> pat(i, j)),
    ensures
        r.0 == lower_total(m as int, pat, m as int),
        r.1 == upper_total(m as int, pat, m as int),
        r.2 == saturated(total_flops(m as int, pat, m as int)),
        r.0 + r.1 <= m * m,
        0 <= total_flops(m as int, pat, m as int),
{
    let mut adj: Vec<Vec<usize>> = Vec::new();
    let mut ends: Vec<usize> = Vec::new();
    let mut fin: Vec<usize> = Vec::new();
    let mut mark: Vec<usize> = Vec::new();
    let mut topo: Vec<usize> = Vec::new();
    let mut nonpiv: Vec<usize> = Vec::new();
    let mut i: usize = 0;
    while i < m
        invariant
            i <= m,
            fin@.len() == i,
            mark@.len() == i,
            forall|v: int| 0 <= v < i ==> #[trigger] fin@[v] == m,
            forall|v: int| 0 <= v < i ==> #[trigger] mark@[v] == 0,
        decreases m - i,
    {
        fin.push(m);
        mark.push(0);
        i = i + 1;
    }
    let mut l_nnz: u64 = 0;
    let mut u_nnz: u64 = 0;
    let mut flops: u64 = 0;
    let mut k: usize = 0;
    while k < m
        invariant
            k <= m,
            m < 0x8000_0000,
            cols@.len() == m,
            forall|j: int| 0 <= j < m ==> below(#[trigger] cols@[j]@, m as int),
            forall|j: int, i: int|
                0 <= j < m && 0 <= i < m ==> (#[trigger] occurs(cols@[j]@, i) <==> pat(i, j)),
            adj@.len() == k,
            ends@.len() == k,
            fin@.len() == m,
            mark@.len() == m,
            forall|p: int| 0 <= p < k ==> #[trigger] ends@[p] == adj@[p]@.len(),
            forall|p: int|
                0 <= p < k ==> (#[trigger] adj@[p]@).len() == lower_count(m as int, pat, p),
            forall|v: int|
                0 <= v < m ==> #[trigger] fin@[v] == (if v < k {
                    v
                } else {
                    m as int
                }),
            forall|v: int| 0 <= v < m ==> #[trigger] mark@[v] <= k,
            lower_lists(m as int, pat, adj@),
            l_nnz == lower_total(m as int, pat, k as int),
            u_nnz == upper_total(m as int, pat, k as int),
            flops == saturated(total_flops(m as int, pat, k as int)),
            0 <= total_flops(m as int, pat, k as int),
            l_nnz + u_nnz <= k * m,
        decreases m - k,
    {
        proof {
            assert forall|p: int, q: int| 0 <= p < k && 0 <= q < adj@[p]@.len() implies ({
                let c = #[trigger] adj@[p]@[q];
                c < m && fin@[c as int] > p
            }) by {
                let c = adj@[p]@[q] as int;
                assert(below(adj@[p]@, m as int));
                assert(adj@[p]@[q] < m);
                assert(occurs(adj@[p]@, c));
                assert(in_lower(pat, c, p));
                assert(fin@[c] == (if c < k { c } else { m as int }));
            }
            assert(graph_ok(m as int, k as int, adj@, ends@, fin@));
            assert(below(cols@[k as int]@, m as int));
        }
        let stamp: usize = k + 1;
        reach(m, &cols[k], &adj, &ends, &fin, stamp, &mut mark, &mut topo, &mut nonpiv);
        proof {
            let t = topo@;
            let np = nonpiv@;
            let e = Seq::<usize>::empty();
            assert(distinct(t)) by {
                assert forall|a: int, b: int| 0 <= a < b < t.len() implies #[trigger] t[a] != #[trigger] t[b] by {
                    assert((t + np + e)[a] == t[a]);
                    assert((t + np + e)[b] == t[b]);
                }
            }
            assert(distinct(np)) by {
                assert forall|a: int, b: int| 0 <= a < b < np.len() implies #[trigger] np[a] != #[trigger] np[b] by {
                    assert((t + np + e)[t.len() + a] == np[a]);
                    assert((t + np + e)[t.len() + b] == np[b]);
                }
            }
            assert forall|i: int| 0 <= i < m implies (#[trigger] mark@[i] == stamp <==> filled(pat, i, k as int, k as int)) by {
                search_finds_the_fill(
                    m as int,
                    k as int,
                    pat,
                    cols@[k as int]@,
                    adj@,
                    ends@,
                    fin@,
                    mark@,
                    stamp,
                    t,
                    np,
                    i,
                );
            }
            assert forall|i: int| 0 <= i < m implies !#[trigger] occurs(e, i) by {}
            assert forall|i: int| 0 <= i < m implies (#[trigger] occurs(t, i) <==> in_upper(pat, i, k as int)) by {
                assert(mark@[i] == stamp <==> filled(pat, i, k as int, k as int));
                assert(!occurs(e, i));
                if occurs(t, i) {
                    assert(fin@[t[position(t, i)] as int] < m);
                }
                if occurs(np, i) {
                    assert(fin@[np[position(np, i)] as int] == m);
                }
            }
            assert forall|i: int| 0 <= i < m implies (#[trigger] occurs(np, i) <==> i >= k && filled(pat, i, k as int, k as int)) by {
                assert(mark@[i] == stamp <==> filled(pat, i, k as int, k as int));
                assert(!occurs(e, i));
                if occurs(t, i) {
                    assert(fin@[t[position(t, i)] as int] < m);
                }
                if occurs(np, i) {
                    assert(fin@[np[position(np, i)] as int] == m);
                }
            }
        }
        let low = without(&nonpiv, k);
        proof {
            assert forall|q: int| 0 <= q < low@.len() implies #[trigger] low@[q] < m by {
                assert(occurs(low@, low@[q] as int));
                let x = position(nonpiv@, low@[q] as int);
                assert(nonpiv@[x] < m);
            }
            assert forall|i: int| 0 <= i < m implies (#[trigger] occurs(low@, i) <==> in_lower(pat, i, k as int)) by {
                assert(occurs(nonpiv@, i) <==> i >= k && filled(pat, i, k as int, k as int));
            }
            list_counts(low@, m as int, |i: int| in_lower(pat, i, k as int));
            list_counts(topo@, m as int, |i: int| in_upper(pat, i, k as int));
            assert forall|q: int| 0 <= q < topo@.len() implies #[trigger] topo@[q] < k by {
                assert(topo@[q] < m);
                assert(occurs(topo@, topo@[q] as int));
            }
            flops_agree(m as int, pat, k as int, topo@, k as int);
            distinct_below_len(topo@, k as int);
            low_len(low@, m as int, k as int);
            assert(k * m + m == (k + 1) * m) by (nonlinear_arith);
            assert(k * m <= 0x8000_0000 * 0x8000_0000) by (nonlinear_arith)
                requires
                    k < 0x8000_0000,
                    m < 0x8000_0000,
            ;
        }
        l_nnz = l_nnz + low.len() as u64;
        u_nnz = u_nnz + topo.len() as u64;
        let ghost f0 = total_flops(m as int, pat, k as int);
        let mut q: usize = 0;
        while q < topo.len()
            invariant
                q <= topo@.len(),
                k < m,
                m < 0x8000_0000,
                adj@.len() == k,
                below(topo@, k as int),
                forall|p: int|
                    0 <= p < k ==> (#[trigger] adj@[p]@).len() == lower_count(m as int, pat, p),
                lower_lists(m as int, pat, adj@),
                0 <= f0,
                0 <= listed_flops(m as int, pat, topo@, q as int),
                flops == saturated(f0 + listed_flops(m as int, pat, topo@, q as int)),
            decreases topo@.len() - q,
        {
            let p: usize = topo[q];
            assert(topo@[q as int] < k);
            proof {
                distinct_below_len(adj@[p as int]@, m as int);
            }
            let step: u64 = 2 * adj[p].len() as u64;
            flops = flops.saturating_add(step);
            q = q + 1;
        }
        flops = flops.saturating_add(low.len() as u64);
        let ghost adj0 = adj@;
        let len: usize = low.len();
        adj.push(low);
        ends.push(len);
        fin.set(k, k);
        k = k + 1;
        proof {
            assert forall|p: int| 0 <= p < k implies distinct(#[trigger] adj@[p]@) by {
                if p < k - 1 {
                    assert(distinct(adj0[p]@));
                }
            }
            assert forall|p: int| 0 <= p < k implies below(#[trigger] adj@[p]@, m as int) by {
                if p < k - 1 {
                    assert(below(adj0[p]@, m as int));
                }
            }
            assert forall|p: int, i: int| 0 <= p < k && 0 <= i < m implies (#[trigger] occurs(adj@[p]@, i)
                <==> in_lower(pat, i, p)) by {
                if p < k - 1 {
                    assert(occurs(adj0[p]@, i) <==> in_lower(pat, i, p));
                }
            }
            assert forall|p: int| 0 <= p < k implies (#[trigger] adj@[p]@).len() == lower_count(
                m as int,
                pat,
                p,
            ) by {
                if p < k - 1 {
                    assert(adj0[p]@.len() == lower_count(m as int, pat, p));
                }
            }
        }
    }
    (l_nnz, u_nnz, flops)
}

/// Rows below the diagonal of column `k` number at most `m - 1 - k`.
proof fn low_len(rows: Seq<usize>, m: int, k: int)
    requires
        0 <= k < m,
        distinct(rows),
        below(rows, m),
        forall|q: int| 0 <= q < rows.len() ==> occurs(rows, #[trigger] rows[q] as int),
        forall|i: int| 0 <= i <= k ==> !#[trigger] occurs(rows, i),
    ensures
        rows.len() <= m - 1 - k,
{
    let s = Seq::new(rows.len(), |q: int| (rows[q] - k - 1) as usize);
    assert forall|q: int| 0 <= q < s.len() implies #[trigger] s[q] < m - 1 - k by {
        assert(rows[q] < m);
        assert(occurs(rows, rows[q] as int));
    }
    assert forall|a: int, b: int| 0 <= a < b < s.len() implies #[trigger] s[a] != #[trigger] s[b] by {
        assert(rows[a] != rows[b]);
        assert(occurs(rows, rows[a] as int));
        assert(occurs(rows, rows[b] as int));
    }
    distinct_below_len(s, m - 1 - k);
}

} // verus!
