//! Maximum transversal: a row for every column, all different, each holding an
//! entry of its column.

use crate::seqs::{below, distinct, distinct_below_len, is_permutation, occurs};
use crate::sparse::{column_range, position, GeneralCsc};
use vstd::prelude::*;

verus! {

/// Column `j` has an entry in row `i`.
pub open spec fn stores<T>(a: GeneralCsc<T>, i: int, j: int) -> bool {
    occurs(a.rows_of(j), i)
}

/// `m[j]` is the row of column `j`; no row is used twice.
pub open spec fn is_transversal<T>(a: GeneralCsc<T>, m: Seq<usize>) -> bool {
    is_permutation(m, a.n as int) && forall|j: int|
        0 <= j < a.n ==> stores(a, #[trigger] m[j] as int, j)
}

/// Some assignment of values makes the matrix nonsingular.
pub open spec fn has_transversal<T>(a: GeneralCsc<T>) -> bool {
    exists|m: Seq<usize>| is_transversal(a, m)
}

/// Rows and columns matched so far; `n` stands for none.
pub open spec fn matched<T>(a: GeneralCsc<T>, mc: Seq<usize>, mr: Seq<usize>) -> bool {
    let n = a.n as int;
    &&& mc.len() == n
    &&& mr.len() == n
    &&& forall|c: int| 0 <= c < n ==> #[trigger] mc[c] <= n
    &&& forall|r: int| 0 <= r < n ==> #[trigger] mr[r] <= n
    &&& forall|c: int|
        0 <= c < n && #[trigger] mc[c] < n ==> mr[mc[c] as int] == c && stores(a, mc[c] as int, c)
    &&& forall|r: int| 0 <= r < n && #[trigger] mr[r] < n ==> mc[mr[r] as int] == r
}

/// The search tree of column `c0`: the columns in `queue`, and for every seen
/// row the column it was found from.
pub open spec fn tree_ok<T>(
    a: GeneralCsc<T>,
    mc: Seq<usize>,
    mr: Seq<usize>,
    c0: int,
    queue: Seq<usize>,
    prev: Seq<usize>,
) -> bool {
    let n = a.n as int;
    &&& prev.len() == n
    &&& queue.len() > 0
    &&& queue[0] == c0
    &&& below(queue, n)
    &&& distinct(queue)
    // A seen row was found from a column of the queue that holds it.
    &&& forall|r: int|
        0 <= r < n && #[trigger] prev[r] != n ==> occurs(queue, prev[r] as int) && stores(
            a,
            r,
            prev[r] as int,
        )
    // A later column of the queue is matched to a seen row that was found from
    // an earlier column.
    &&& forall|k: int|
        0 < k < queue.len() ==> mc[#[trigger] queue[k] as int] < n && prev[mc[queue[k] as int] as int]
            != n && occurs(queue.take(k), prev[mc[queue[k] as int] as int] as int)
}

/// A moment of the search for a free row: the column that found each row, the
/// columns in the queue, the place reached in it, and the row found.
pub struct Hunt {
    pub prev: Seq<usize>,
    pub queue: Seq<usize>,
    pub head: int,
    pub q: int,
    pub found: Option<usize>,
}

/// One step: the column at the head of the queue looks at its next row.
pub open spec fn hunt_step<T>(a: GeneralCsc<T>, mr: Seq<usize>, h: Hunt) -> Hunt {
    if h.found is Some || h.head >= h.queue.len() {
        h
    } else {
        let c = h.queue[h.head];
        let rows = a.rows_of(c as int);
        if h.q >= rows.len() {
            Hunt { head: h.head + 1, q: 0, ..h }
        } else if h.prev[rows[h.q] as int] != a.n {
            Hunt { q: h.q + 1, ..h }
        } else if mr[rows[h.q] as int] == a.n {
            Hunt { prev: h.prev.update(rows[h.q] as int, c), found: Some(rows[h.q]), ..h }
        } else {
            Hunt {
                prev: h.prev.update(rows[h.q] as int, c),
                queue: h.queue.push(mr[rows[h.q] as int]),
                q: h.q + 1,
                ..h
            }
        }
    }
}

/// The search from column `c0` after `k` steps.
pub open spec fn hunt<T>(a: GeneralCsc<T>, mr: Seq<usize>, c0: usize, k: nat) -> Hunt
    decreases k,
{
    if k == 0 {
        Hunt {
            prev: Seq::new(a.n as nat, |r: int| a.n),
            queue: seq![c0],
            head: 0,
            q: 0,
            found: None,
        }
    } else {
        hunt_step(a, mr, hunt(a, mr, c0, (k - 1) as nat))
    }
}

/// The search is over.
pub open spec fn hunt_over(h: Hunt) -> bool {
    h.found is Some || h.head >= h.queue.len()
}

/// The search from column `c0` ends like this.
pub open spec fn hunt_ends<T>(a: GeneralCsc<T>, mr: Seq<usize>, c0: usize, h: Hunt) -> bool {
    exists|k: nat| h == #[trigger] hunt(a, mr, c0, k) && hunt_over(h)
}

proof fn hunt_rests<T>(a: GeneralCsc<T>, mr: Seq<usize>, c0: usize, k1: nat, k2: nat)
    requires
        k1 <= k2,
        hunt_over(hunt(a, mr, c0, k1)),
    ensures
        hunt(a, mr, c0, k2) == hunt(a, mr, c0, k1),
    decreases k2 - k1,
{
    if k1 < k2 {
        hunt_rests(a, mr, c0, k1, (k2 - 1) as nat);
    }
}

/// The search ends in one way.
proof fn hunt_is_determined<T>(a: GeneralCsc<T>, mr: Seq<usize>, c0: usize, h1: Hunt, h2: Hunt)
    requires
        hunt_ends(a, mr, c0, h1),
        hunt_ends(a, mr, c0, h2),
    ensures
        h1 == h2,
{
    let k1 = choose|k: nat| h1 == #[trigger] hunt(a, mr, c0, k);
    let k2 = choose|k: nat| h2 == #[trigger] hunt(a, mr, c0, k);
    if k1 <= k2 {
        hunt_rests(a, mr, c0, k1, k2);
    } else {
        hunt_rests(a, mr, c0, k2, k1);
    }
}

/// A matching on the way back to the root of the tree: column `c` is about to be
/// given row `r`.
pub struct Exchange {
    pub mc: Seq<usize>,
    pub mr: Seq<usize>,
    pub r: usize,
    pub c: usize,
}

/// The exchange after `k` steps, or at the root.
pub open spec fn exchange(n: usize, prev: Seq<usize>, c0: usize, x: Exchange, k: nat) -> Exchange
    decreases k,
{
    if k == 0 {
        x
    } else {
        let y = exchange(n, prev, c0, x, (k - 1) as nat);
        if y.c == c0 {
            y
        } else {
            let next = y.mc[y.c as int];
            Exchange {
                mc: y.mc.update(y.c as int, y.r),
                mr: y.mr.update(y.r as int, y.c).update(next as int, n),
                r: next,
                c: prev[next as int],
            }
        }
    }
}

/// The exchange that starts at `x` ends at the root with `y`.
pub open spec fn exchange_ends(n: usize, prev: Seq<usize>, c0: usize, x: Exchange, y: Exchange) -> bool {
    exists|k: nat| y == #[trigger] exchange(n, prev, c0, x, k) && y.c == c0
}

proof fn exchange_rests(n: usize, prev: Seq<usize>, c0: usize, x: Exchange, k1: nat, k2: nat)
    requires
        k1 <= k2,
        exchange(n, prev, c0, x, k1).c == c0,
    ensures
        exchange(n, prev, c0, x, k2) == exchange(n, prev, c0, x, k1),
    decreases k2 - k1,
{
    if k1 < k2 {
        exchange_rests(n, prev, c0, x, k1, (k2 - 1) as nat);
    }
}

proof fn exchange_is_determined(
    n: usize,
    prev: Seq<usize>,
    c0: usize,
    x: Exchange,
    y1: Exchange,
    y2: Exchange,
)
    requires
        exchange_ends(n, prev, c0, x, y1),
        exchange_ends(n, prev, c0, x, y2),
    ensures
        y1 == y2,
{
    let k1 = choose|k: nat| y1 == #[trigger] exchange(n, prev, c0, x, k);
    let k2 = choose|k: nat| y2 == #[trigger] exchange(n, prev, c0, x, k);
    if k1 <= k2 {
        exchange_rests(n, prev, c0, x, k1, k2);
    } else {
        exchange_rests(n, prev, c0, x, k2, k1);
    }
}

/// The matching after column `c0` has been given a row, if it can be.
pub open spec fn extended<T>(
    a: GeneralCsc<T>,
    mc: Seq<usize>,
    mr: Seq<usize>,
    c0: usize,
    to: Option<(Seq<usize>, Seq<usize>)>,
) -> bool {
    exists|h: Hunt| #[trigger]
        hunt_ends(a, mr, c0, h) && match h.found {
            None => to is None,
            Some(r) => exists|y: Exchange| #[trigger]
                exchange_ends(a.n, h.prev, c0, Exchange { mc, mr, r, c: h.prev[r as int] }, y) && to
                    == Some((y.mc.update(c0 as int, y.r), y.mr.update(y.r as int, c0))),
        }
}

/// A column is given a row in one way.
proof fn extension_is_determined<T>(
    a: GeneralCsc<T>,
    mc: Seq<usize>,
    mr: Seq<usize>,
    c0: usize,
    to1: Option<(Seq<usize>, Seq<usize>)>,
    to2: Option<(Seq<usize>, Seq<usize>)>,
)
    requires
        extended(a, mc, mr, c0, to1),
        extended(a, mc, mr, c0, to2),
    ensures
        to1 == to2,
{
    let h1 = choose|h: Hunt| #[trigger]
        hunt_ends(a, mr, c0, h) && match h.found {
            None => to1 is None,
            Some(r) => exists|y: Exchange| #[trigger]
                exchange_ends(a.n, h.prev, c0, Exchange { mc, mr, r, c: h.prev[r as int] }, y) && to1
                    == Some((y.mc.update(c0 as int, y.r), y.mr.update(y.r as int, c0))),
        };
    let h2 = choose|h: Hunt| #[trigger]
        hunt_ends(a, mr, c0, h) && match h.found {
            None => to2 is None,
            Some(r) => exists|y: Exchange| #[trigger]
                exchange_ends(a.n, h.prev, c0, Exchange { mc, mr, r, c: h.prev[r as int] }, y) && to2
                    == Some((y.mc.update(c0 as int, y.r), y.mr.update(y.r as int, c0))),
        };
    hunt_is_determined(a, mr, c0, h1, h2);
    match h1.found {
        None => {},
        Some(r) => {
            let x = Exchange { mc, mr, r, c: h1.prev[r as int] };
            let y1 = choose|y: Exchange| #[trigger]
                exchange_ends(a.n, h1.prev, c0, x, y) && to1 == Some(
                    (y.mc.update(c0 as int, y.r), y.mr.update(y.r as int, c0)),
                );
            let y2 = choose|y: Exchange| #[trigger]
                exchange_ends(a.n, h1.prev, c0, x, y) && to2 == Some(
                    (y.mc.update(c0 as int, y.r), y.mr.update(y.r as int, c0)),
                );
            exchange_is_determined(a.n, h1.prev, c0, x, y1, y2);
        },
    }
}

/// The matching after the first `j` columns: every diagonal entry is taken, then
/// the columns without a row are given one in turn.
pub open spec fn matched_upto<T>(a: GeneralCsc<T>, j: int) -> Option<(Seq<usize>, Seq<usize>)>
    decreases j,
{
    if j <= 0 {
        let diag = Seq::new(
            a.n as nat,
            |c: int|
                if stores(a, c, c) {
                    c as usize
                } else {
                    a.n
                },
        );
        Some((diag, diag))
    } else {
        match matched_upto(a, j - 1) {
            None => None,
            Some(m) => if m.0[j - 1] == a.n {
                choose|to: Option<(Seq<usize>, Seq<usize>)>| #[trigger]
                    extended(a, m.0, m.1, (j - 1) as usize, to)
            } else {
                Some(m)
            },
        }
    }
}

/// The transversal that [`maximum_transversal`] settles on.
pub open spec fn own_matching<T>(a: GeneralCsc<T>) -> Option<Seq<usize>> {
    match matched_upto(a, a.n as int) {
        Some(m) => Some(m.0),
        None => None,
    }
}

/// Follow the tree back to its root and exchange matched edges on the way.
fn augment<T>(
    a: &GeneralCsc<T>,
    mc: &mut Vec<usize>,
    mr: &mut Vec<usize>,
    c0: usize,
    r0: usize,
    Ghost(queue): Ghost<Seq<usize>>,
    prev: &Vec<usize>,
)
    requires
        a.wf(),
        matched(*a, old(mc)@, old(mr)@),
        c0 < a.n,
        r0 < a.n,
        old(mc)@[c0 as int] == a.n,
        old(mr)@[r0 as int] == a.n,
        tree_ok(*a, old(mc)@, old(mr)@, c0 as int, queue, prev@),
        prev@[r0 as int] != a.n,
    ensures
        matched(*a, final(mc)@, final(mr)@),
        final(mc)@[c0 as int] < a.n,
        forall|c: int| 0 <= c < a.n && #[trigger] old(mc)@[c] < a.n ==> final(mc)@[c] < a.n,
        exists|y: Exchange| #[trigger]
            exchange_ends(
                a.n,
                prev@,
                c0,
                (Exchange { mc: old(mc)@, mr: old(mr)@, r: r0, c: prev@[r0 as int] }),
                y,
            ) && final(mc)@ == y.mc.update(c0 as int, y.r) && final(mr)@ == y.mr.update(
                y.r as int,
                c0,
            ),
{
    let n: usize = a.n;
    let ghost mc0 = mc@;
    let ghost mr0 = mr@;
    let ghost x0 = Exchange { mc: mc@, mr: mr@, r: r0, c: prev@[r0 as int] };
    let ghost mut steps: nat = 0;
    let mut r: usize = r0;
    let mut c: usize = prev[r0];
    let ghost mut k = position(queue, c as int);
    proof {
        assert(occurs(queue, prev@[r0 as int] as int));
        assert(queue[k] == c);
        assert(queue[k] < n);
    }
    // Invariant: the matching is as before on the first `k + 1` columns of the
    // queue, column `c` is about to be given row `r`, which is free.
    while c != c0
        invariant
            n == a.n,
            a.wf(),
            c0 < n,
            r < n,
            c < n,
            tree_ok(*a, mc0, mr0, c0 as int, queue, prev@),
            mc0.len() == n,
            mc0[c0 as int] == n,
            0 <= k < queue.len(),
            queue[k] == c,
            matched(*a, mc@, mr@),
            mr@[r as int] == n,
            stores(*a, r as int, c as int),
            forall|x: int| 0 <= x <= k ==> mc@[#[trigger] queue[x] as int] == mc0[queue[x] as int],
            forall|x: int| 0 <= x < n && #[trigger] mc0[x] < n ==> mc@[x] < n,
            exchange(n, prev@, c0, x0, steps) == (Exchange { mc: mc@, mr: mr@, r, c }),
        decreases k,
    {
        proof {
            steps = steps + 1;
            assert(k > 0);
            assert(mc@[queue[k] as int] == mc0[queue[k] as int]);
            assert(mc0[queue[k] as int] < n);
        }
        let next: usize = mc[c];
        let up: usize = prev[next];
        let ghost mc1 = mc@;
        let ghost mr1 = mr@;
        mc.set(c, r);
        mr.set(r, c);
        mr.set(next, n);
        // Column `c` moved from row `next` to row `r`; `next` is free now, and
        // goes to the column that found it.
        proof {
            assert(mr1[next as int] == c);
            assert(next != r);
            let before = queue.take(k);
            assert(occurs(before, up as int));
            let k2 = position(before, up as int);
            assert(before[k2] == up);
            assert(queue[k2] == up);
            assert(queue[k2] < n);
            assert forall|x: int| 0 <= x <= k2 implies mc@[#[trigger] queue[x] as int] == mc0[queue[x] as int] by {
                assert(queue[x] != queue[k]);
                assert(queue[x] < n);
            }
            k = k2;
            assert forall|x: int| 0 <= x < n && #[trigger] mc@[x] < n implies mr@[mc@[x] as int] == x && stores(
                *a,
                mc@[x] as int,
                x,
            ) by {
                if x != c {
                    assert(mc1[x] == mc@[x]);
                    assert(mr1[mc1[x] as int] == x);
                    assert(mc1[x] != next);
                    assert(mc1[x] != r);
                }
            }
            assert forall|y: int| 0 <= y < n && #[trigger] mr@[y] < n implies mc@[mr@[y] as int] == y by {
                if y != r {
                    assert(y != next);
                    assert(mr1[y] == mr@[y]);
                    assert(mc1[mr1[y] as int] == y);
                    assert(mr1[y] != c);
                }
            }
            assert forall|x: int| 0 <= x < n && #[trigger] mc0[x] < n implies mc@[x] < n by {}
        }
        r = next;
        c = up;
    }
    let ghost mc1 = mc@;
    let ghost mr1 = mr@;
    proof {
        assert(mc@[queue[k] as int] == mc0[queue[k] as int]);
        assert(exchange_ends(n, prev@, c0, x0, Exchange { mc: mc1, mr: mr1, r, c }));
    }
    mc.set(c, r);
    mr.set(r, c);
    proof {
        assert forall|x: int| 0 <= x < n && #[trigger] mc@[x] < n implies mr@[mc@[x] as int] == x && stores(
            *a,
            mc@[x] as int,
            x,
        ) by {
            if x != c {
                assert(mc1[x] == mc@[x]);
                assert(mr1[mc1[x] as int] == x);
                assert(mc1[x] != r);
            }
        }
        assert forall|y: int| 0 <= y < n && #[trigger] mr@[y] < n implies mc@[mr@[y] as int] == y by {
            if y != r {
                assert(mr1[y] == mr@[y]);
                assert(mc1[mr1[y] as int] == y);
            }
        }
    }
}

/// More columns than rows that hold their entries: no transversal.
proof fn too_few_rows<T>(a: GeneralCsc<T>, cols: Seq<usize>, rows: Seq<usize>)
    requires
        a.wf(),
        distinct(cols),
        below(cols, a.n as int),
        cols.len() > rows.len(),
        forall|k: int, i: int|
            0 <= k < cols.len() && #[trigger] stores(a, i, cols[k] as int) ==> occurs(rows, i),
    ensures
        !has_transversal(a),
{
    if has_transversal(a) {
        let m = choose|m: Seq<usize>| is_transversal(a, m);
        // The place of its row, for every column of the list.
        let s = Seq::new(cols.len(), |k: int| position(rows, m[cols[k] as int] as int) as usize);
        assert forall|k: int| 0 <= k < cols.len() implies 0 <= position(
            rows,
            m[#[trigger] cols[k] as int] as int,
        ) < rows.len() && rows[position(rows, m[cols[k] as int] as int)] == m[cols[k] as int] by {
            assert(cols[k] < a.n);
            assert(stores(a, m[cols[k] as int] as int, cols[k] as int));
            assert(occurs(rows, m[cols[k] as int] as int));
        }
        if rows.len() <= usize::MAX {
            assert forall|k: int| 0 <= k < s.len() implies #[trigger] s[k] < rows.len() by {
                let c = cols[k];
            }
            assert forall|x: int, y: int| 0 <= x < y < s.len() implies #[trigger] s[x] != #[trigger] s[y] by {
                let c = cols[x];
                let d = cols[y];
                assert(c != d);
                assert(c < a.n && d < a.n);
                if c < d {
                    assert(m[c as int] != m[d as int]);
                } else {
                    assert(m[d as int] != m[c as int]);
                }
            }
            distinct_below_len(s, rows.len() as int);
        } else {
            distinct_below_len(cols, a.n as int);
        }
    }
}

/// Find a row for column `c0` by exchanging rows along a shortest path.
fn try_augment<T>(a: &GeneralCsc<T>, mc: &mut Vec<usize>, mr: &mut Vec<usize>, c0: usize) -> (found: bool)
    requires
        a.wf(),
        matched(*a, old(mc)@, old(mr)@),
        c0 < a.n,
        old(mc)@[c0 as int] == a.n,
    ensures
        matched(*a, final(mc)@, final(mr)@),
        found ==> final(mc)@[c0 as int] < a.n,
        forall|c: int| 0 <= c < a.n && #[trigger] old(mc)@[c] < a.n ==> final(mc)@[c] < a.n,
        !found ==> !has_transversal(*a),
        extended(
            *a,
            old(mc)@,
            old(mr)@,
            c0,
            if found {
                Some((final(mc)@, final(mr)@))
            } else {
                None
            },
        ),
{
    let n: usize = a.n;
    let ghost mut steps: nat = 0;
    let mut prev: Vec<usize> = Vec::new();
    let mut i: usize = 0;
    while i < n
        invariant
            i <= n,
            prev@.len() == i,
            forall|r: int| 0 <= r < i ==> #[trigger] prev@[r] == n,
        decreases n - i,
    {
        prev.push(n);
        i = i + 1;
    }
    let mut queue: Vec<usize> = Vec::new();
    queue.push(c0);
    // The seen rows, in the order of the columns that they brought in.
    let ghost mut seen: Seq<usize> = Seq::empty();
    let mut head: usize = 0;
    proof {
        assert(prev@ =~= Seq::new(a.n as nat, |r: int| a.n));
        assert(queue@ =~= seq![c0]);
    }
    while head < queue.len()
        invariant
            hunt(*a, mr@, c0, steps) == (Hunt {
                prev: prev@,
                queue: queue@,
                head: head as int,
                q: 0,
                found: None,
            }),
            n == a.n,
            a.wf(),
            c0 < n,
            mc@ == old(mc)@,
            mr@ == old(mr)@,
            matched(*a, mc@, mr@),
            mc@[c0 as int] == n,
            tree_ok(*a, mc@, mr@, c0 as int, queue@, prev@),
            head <= queue@.len(),
            queue@.len() == seen.len() + 1,
            forall|r: int| 0 <= r < n && #[trigger] prev@[r] != n ==> occurs(seen, r) && mr@[r] < n
                && occurs(queue@, mr@[r] as int),
            forall|k: int, r: int|
                0 <= k < head && #[trigger] stores(*a, r, queue@[k] as int) ==> prev@[r] != n,
        decreases n - head,
    {
        proof {
            distinct_below_len(queue@, n as int);
        }
        let c: usize = queue[head];
        proof {
            assert(queue@[head as int] < n);
            column_range(*a, c as int);
        }
        let ghost rows = a.rows_of(c as int);
        let lo: usize = a.col_ptr[c];
        let hi: usize = a.col_ptr[c + 1];
        let mut q: usize = lo;
        while q < hi
            invariant
                hunt(*a, mr@, c0, steps) == (Hunt {
                    prev: prev@,
                    queue: queue@,
                    head: head as int,
                    q: q - lo,
                    found: None,
                }),
                n == a.n,
                a.wf(),
                c0 < n,
                c < n,
                mc@ == old(mc)@,
                mr@ == old(mr)@,
                matched(*a, mc@, mr@),
                mc@[c0 as int] == n,
                lo <= q <= hi <= a.row_idx@.len(),
                rows == a.rows_of(c as int),
                rows.len() == hi - lo,
                below(rows, n as int),
                forall|x: int| 0 <= x < rows.len() ==> #[trigger] rows[x] == a.row_idx@[lo + x],
                tree_ok(*a, mc@, mr@, c0 as int, queue@, prev@),
                head < queue@.len(),
                queue@[head as int] == c,
                queue@.len() == seen.len() + 1,
                forall|r: int| 0 <= r < n && #[trigger] prev@[r] != n ==> occurs(seen, r) && mr@[r] < n
                    && occurs(queue@, mr@[r] as int),
                forall|k: int, r: int|
                    0 <= k < head && #[trigger] stores(*a, r, queue@[k] as int) ==> prev@[r] != n,
                forall|x: int| 0 <= x < q - lo ==> prev@[#[trigger] rows[x] as int] != n,
            decreases hi - q,
        {
            let r: usize = a.row_idx[q];
            let ghost before = hunt(*a, mr@, c0, steps);
            proof {
                steps = steps + 1;
                assert(rows[q - lo] == r);
                assert(hunt(*a, mr@, c0, steps) == hunt_step(*a, mr@, before));
                assert(occurs(rows, r as int));
                assert(stores(*a, r as int, c as int));
                assert(queue@[head as int] == c);
                assert(occurs(queue@, c as int));
            }
            if prev[r] == n {
                let ghost prev0 = prev@;
                prev.set(r, c);
                if mr[r] == n {
                    proof {
                        tree_grows(*a, mc@, mr@, c0 as int, queue@, prev0, r, c, head as int);
                    }
                    let ghost h = hunt(*a, mr@, c0, steps);
                    assert(hunt_ends(*a, mr@, c0, h));
                    augment(a, mc, mr, c0, r, Ghost(queue@), &prev);
                    return true;
                }
                let d: usize = mr[r];
                let ghost queue0 = queue@;
                let ghost seen0 = seen;
                proof {
                    assert(mr@[r as int] <= n);
                    tree_grows(*a, mc@, mr@, c0 as int, queue@, prev0, r, c, head as int);
                    // `d` is not in the queue: its row was not seen.
                    if occurs(queue0, d as int) {
                        let k = position(queue0, d as int);
                        assert(queue0[k] == d);
                        if k == 0 {
                            assert(mc@[c0 as int] == r);
                        } else {
                            assert(mc@[d as int] == r);
                            assert(prev0[mc@[queue0[k] as int] as int] != n);
                        }
                    }
                }
                queue.push(d);
                proof {
                    seen = seen.push(r);
                    let q1 = queue@;
                    assert forall|x: int| occurs(queue0, x) implies #[trigger] occurs(q1, x) by {
                        let k = position(queue0, x);
                        assert(q1[k] == x);
                    }
                    assert(q1[queue0.len() as int] == d);
                    assert forall|k: int| 0 <= k < q1.len() implies #[trigger] q1[k] < n by {
                        if k < queue0.len() {
                            assert(queue0[k] < n);
                        }
                    }
                    assert forall|x: int, y: int| 0 <= x < y < q1.len() implies #[trigger] q1[x] != #[trigger] q1[y] by {
                        if y < queue0.len() {
                            assert(queue0[x] != queue0[y]);
                        } else {
                            assert(queue0[x] == q1[x]);
                        }
                    }
                    assert forall|k: int| 0 < k < q1.len() implies mc@[#[trigger] q1[k] as int] < n && prev@[
                    mc@[q1[k] as int] as int] != n && occurs(
                        q1.take(k),
                        prev@[mc@[q1[k] as int] as int] as int,
                    ) by {
                        assert(q1.take(k) =~= queue0.take(k));
                        if k < queue0.len() {
                            assert(queue0[k] == q1[k]);
                        } else {
                            assert(queue0.take(k) =~= queue0);
                            assert(mc@[d as int] == r);
                        }
                    }
                    assert(tree_ok(*a, mc@, mr@, c0 as int, q1, prev@));
                    assert forall|y: int| 0 <= y < n && #[trigger] prev@[y] != n implies occurs(seen, y) && mr@[y] < n
                        && occurs(q1, mr@[y] as int) by {
                        if y == r {
                            assert(seen[seen0.len() as int] == r);
                            assert(occurs(q1, d as int));
                        } else {
                            assert(prev0[y] != n);
                            let x = position(seen0, y);
                            assert(seen[x] == y);
                            assert(occurs(q1, mr@[y] as int));
                        }
                    }
                    assert forall|k: int, y: int|
                        0 <= k < head && #[trigger] stores(*a, y, q1[k] as int) implies prev@[y] != n by {
                        assert(q1[k] == queue0[k]);
                        assert(stores(*a, y, queue0[k] as int));
                    }
                }
            }
            q = q + 1;
        }
        proof {
            assert forall|k: int, r: int|
                0 <= k < head + 1 && #[trigger] stores(*a, r, queue@[k] as int) implies prev@[r] != n by {
                if k == head {
                    let x = position(rows, r);
                    assert(rows[x] == r);
                }
            }
        }
        proof {
            let before = hunt(*a, mr@, c0, steps);
            steps = steps + 1;
            assert(hunt(*a, mr@, c0, steps) == hunt_step(*a, mr@, before));
        }
        head = head + 1;
    }
    proof {
        assert(hunt_ends(*a, mr@, c0, hunt(*a, mr@, c0, steps)));
        let cols = queue@;
        assert forall|k: int, i: int|
            0 <= k < cols.len() && #[trigger] stores(*a, i, cols[k] as int) implies occurs(seen, i) by {
            assert(cols[k] < n);
            column_range(*a, cols[k] as int);
            let x = position(a.rows_of(cols[k] as int), i);
            assert(a.rows_of(cols[k] as int)[x] < n);
            assert(prev@[i] != n);
        }
        too_few_rows(*a, cols, seen);
    }
    false
}

/// A newly seen row keeps the tree.
proof fn tree_grows<T>(
    a: GeneralCsc<T>,
    mc: Seq<usize>,
    mr: Seq<usize>,
    c0: int,
    queue: Seq<usize>,
    prev: Seq<usize>,
    r: usize,
    c: usize,
    head: int,
)
    requires
        tree_ok(a, mc, mr, c0, queue, prev),
        r < a.n,
        c < a.n,
        prev[r as int] == a.n,
        0 <= head < queue.len(),
        queue[head] == c,
        stores(a, r as int, c as int),
    ensures
        tree_ok(a, mc, mr, c0, queue, prev.update(r as int, c)),
{
    let prev2 = prev.update(r as int, c);
    assert(occurs(queue, c as int));
    assert forall|k: int| 0 < k < queue.len() implies mc[#[trigger] queue[k] as int] < a.n && prev2[mc[queue[k] as int] as int]
        != a.n && occurs(queue.take(k), prev2[mc[queue[k] as int] as int] as int) by {
        assert(prev[mc[queue[k] as int] as int] != a.n);
        assert(mc[queue[k] as int] != r);
    }
    assert forall|y: int| 0 <= y < a.n && #[trigger] prev2[y] != a.n implies occurs(queue, prev2[y] as int)
        && stores(a, y, prev2[y] as int) by {
        if y != r {
            assert(prev[y] == prev2[y]);
        }
    }
}

/// Does column `j` hold a diagonal entry?
fn has_diagonal<T>(a: &GeneralCsc<T>, j: usize) -> (b: bool)
    requires
        a.wf(),
        j < a.n,
    ensures
        b == stores(*a, j as int, j as int),
{
    proof {
        column_range(*a, j as int);
    }
    let ghost rows = a.rows_of(j as int);
    let lo: usize = a.col_ptr[j];
    let hi: usize = a.col_ptr[j + 1];
    let mut q: usize = lo;
    while q < hi
        invariant
            lo <= q <= hi <= a.row_idx@.len(),
            rows == a.rows_of(j as int),
            rows.len() == hi - lo,
            forall|x: int| 0 <= x < rows.len() ==> #[trigger] rows[x] == a.row_idx@[lo + x],
            forall|x: int| 0 <= x < q - lo ==> #[trigger] rows[x] != j,
        decreases hi - q,
    {
        assert(rows[q - lo] == a.row_idx@[q as int]);
        if a.row_idx[q] == j {
            return true;
        }
        q = q + 1;
    }
    false
}

/// Past a column without a row there is no matching.
proof fn matching_stays_stuck<T>(a: GeneralCsc<T>, j: int, k: int)
    requires
        0 <= j <= k,
        matched_upto(a, j) is None,
    ensures
        matched_upto(a, k) is None,
    decreases k - j,
{
    if j < k {
        matching_stays_stuck(a, j, k - 1);
    }
}

/// A transversal, or none if there is none. Every diagonal entry is taken
/// first, so a complete diagonal is its own transversal.
pub fn maximum_transversal<T>(a: &GeneralCsc<T>) -> (r: Option<Vec<usize>>)
    requires
        a.wf(),
    ensures
        r is Some <==> has_transversal(*a),
        r matches Some(m) ==> is_transversal(*a, m@),
        (forall|j: int| 0 <= j < a.n ==> #[trigger] stores(*a, j, j)) ==> r is Some && forall|j: int|
            0 <= j < a.n ==> #[trigger] r->0@[j] == j,
        match r {
            Some(m) => own_matching(*a) == Some(m@),
            None => own_matching(*a) is None,
        },
{
    let n: usize = a.n;
    let mut mc: Vec<usize> = Vec::new();
    let mut mr: Vec<usize> = Vec::new();
    let mut j: usize = 0;
    while j < n
        invariant
            j <= n,
            n == a.n,
            a.wf(),
            mc@.len() == j,
            mr@.len() == j,
            forall|c: int| 0 <= c < j ==> #[trigger] mc@[c] == (if stores(*a, c, c) {
                c
            } else {
                n as int
            }),
            forall|c: int| 0 <= c < j ==> #[trigger] mr@[c] == mc@[c],
        decreases n - j,
    {
        if has_diagonal(a, j) {
            mc.push(j);
            mr.push(j);
        } else {
            mc.push(n);
            mr.push(n);
        }
        j = j + 1;
    }
    let ghost full = forall|j: int| 0 <= j < a.n ==> #[trigger] stores(*a, j, j);
    assert(matched(*a, mc@, mr@));
    proof {
        let start = matched_upto(*a, 0)->0;
        assert(mc@ =~= start.0);
        assert(mr@ =~= start.1);
        if full {
            assert forall|c: int| 0 <= c < n implies #[trigger] mc@[c] == c by {
                assert(stores(*a, c, c));
            }
        }
    }
    j = 0;
    while j < n
        invariant
            j <= n,
            n == a.n,
            a.wf(),
            matched(*a, mc@, mr@),
            matched_upto(*a, j as int) == Some((mc@, mr@)),
            forall|c: int| 0 <= c < j ==> #[trigger] mc@[c] < n,
            full == (forall|j: int| 0 <= j < a.n ==> #[trigger] stores(*a, j, j)),
            full ==> forall|c: int| 0 <= c < n ==> #[trigger] mc@[c] == c,
        decreases n - j,
    {
        if mc[j] == n {
            let ghost mc0 = mc@;
            let ghost mr0 = mr@;
            let found = try_augment(a, &mut mc, &mut mr, j);
            proof {
                let to = if found {
                    Some((mc@, mr@))
                } else {
                    None
                };
                let settled = choose|to: Option<(Seq<usize>, Seq<usize>)>| #[trigger]
                    extended(*a, mc0, mr0, j, to);
                extension_is_determined(*a, mc0, mr0, j, to, settled);
                assert(matched_upto(*a, j + 1) == to);
            }
            if !found {
                proof {
                    matching_stays_stuck(*a, j + 1, n as int);
                }
                return None;
            }
            proof {
                assert forall|c: int| 0 <= c < j + 1 implies #[trigger] mc@[c] < n by {
                    if c < j {
                        assert(mc0[c] < n);
                    }
                }
            }
        }
        j = j + 1;
    }
    proof {
        assert forall|x: int, y: int| 0 <= x < y < mc@.len() implies #[trigger] mc@[x] != #[trigger] mc@[y] by {
            assert(mr@[mc@[x] as int] == x);
            assert(mr@[mc@[y] as int] == y);
        }
        assert(is_transversal(*a, mc@));
    }
    Some(mc)
}

} // verus!
