//! Block upper triangular form from a transversal.

use crate::klu::form::{in_block, invert, BtfForm};
use crate::klu::graph::{lists_edges, turned_round};
use crate::klu::matching::{is_transversal, stores};
use crate::klu::scc::{
    blocks_are_the_components, components_from, connected, finish_of, strong_components,
};
use crate::reach::lists_of;
use crate::seqs::{
    ascending, ascending_is_listed, below, distinct, inverse_of, is_permutation, listed, occurs,
};
use crate::sparse::{column_range, position, GeneralCsc};
use vstd::prelude::*;

verus! {

/// The graph of a matrix whose column `k` is matched to row `m[k]`: an edge
/// from `j` to `k` for an entry of column `j` in the row of `k`.
pub open spec fn matched_graph<T>(a: GeneralCsc<T>, m: Seq<usize>) -> spec_fn(int, int) -> bool {
    |j: int, k: int| 0 <= j < a.n && 0 <= k < a.n && stores(a, m[k] as int, j)
}

/// Nothing of the permuted matrix lies below its diagonal blocks.
pub open spec fn block_upper<T>(
    a: GeneralCsc<T>,
    rp: Seq<usize>,
    cp: Seq<usize>,
    ptr: Seq<usize>,
) -> bool {
    forall|b: int, j: int, p: int|
        #![trigger in_block(ptr, b, j), rp[p]]
        in_block(ptr, b, j) && 0 <= p < a.n && stores(a, rp[p] as int, cp[j] as int) ==> p < ptr[b + 1]
}

/// The permuted matrix has an entry in every diagonal position.
pub open spec fn zero_free<T>(a: GeneralCsc<T>, rp: Seq<usize>, cp: Seq<usize>) -> bool {
    forall|k: int| 0 <= k < a.n ==> stores(a, #[trigger] rp[k] as int, cp[k] as int)
}

/// The rows follow their columns under the matching.
pub open spec fn follows(rp: Seq<usize>, cp: Seq<usize>, m: Seq<usize>) -> bool {
    forall|k: int| 0 <= k < cp.len() ==> #[trigger] rp[k] == m[cp[k] as int]
}

/// The diagonal blocks are irreducible and as small as can be: two columns
/// share a block exactly if they reach each other.
pub open spec fn irreducible<T>(
    a: GeneralCsc<T>,
    cp: Seq<usize>,
    ptr: Seq<usize>,
    m: Seq<usize>,
) -> bool {
    forall|b1: int, b2: int, p: int, q: int| #[trigger]
        in_block(ptr, b1, p) && #[trigger] in_block(ptr, b2, q) ==> (b1 == b2 <==> connected(
            matched_graph(a, m),
            cp[p] as int,
            cp[q] as int,
        ))
}

/// The block upper triangular form of a matrix under a transversal.
pub open spec fn is_btf<T>(
    a: GeneralCsc<T>,
    rp: Seq<usize>,
    cp: Seq<usize>,
    ptr: Seq<usize>,
    m: Seq<usize>,
) -> bool {
    &&& is_transversal(a, m)
    &&& block_upper(a, rp, cp, ptr)
    &&& zero_free(a, rp, cp)
    &&& follows(rp, cp, m)
    &&& irreducible(a, cp, ptr, m)
}

/// The edges out of every column, in the order of its entries.
pub open spec fn out_lists<T>(a: GeneralCsc<T>, m: Seq<usize>) -> Seq<Seq<usize>> {
    Seq::new(
        a.n as nat,
        |j: int|
            Seq::new(
                a.rows_of(j).len(),
                |x: int| position(m, a.rows_of(j)[x] as int) as usize,
            ),
    )
}

/// The edges into every column, ascending.
pub open spec fn in_lists<T>(a: GeneralCsc<T>, m: Seq<usize>) -> Seq<Seq<usize>> {
    Seq::new(a.n as nat, |v: int| listed(a.n as int, |j: int| matched_graph(a, m)(j, v)))
}

/// The form that [`btf_from_matching`] settles on.
pub open spec fn is_form<T>(a: GeneralCsc<T>, m: Seq<usize>, f: BtfForm) -> bool {
    let (cp, ptr) = components_from(out_lists(a, m), finish_of(in_lists(a, m)), 0);
    &&& f.col_perm@ == cp
    &&& f.block_ptr@ == ptr
    &&& f.row_perm@ == Seq::new(cp.len(), |k: int| m[cp[k] as int])
}

/// The edges of the matched graph, out of and into every column.
fn matched_lists<T>(a: &GeneralCsc<T>, m: &Vec<usize>) -> (r: (Vec<Vec<usize>>, Vec<Vec<usize>>))
    requires
        a.wf(),
        is_permutation(m@, a.n as int),
    ensures
        lists_edges(matched_graph(*a, m@), a.n as int, r.0@),
        lists_edges(turned_round(matched_graph(*a, m@)), a.n as int, r.1@),
        lists_of(r.0@) == out_lists(*a, m@),
        lists_of(r.1@) == in_lists(*a, m@),
{
    let n: usize = a.n;
    let ghost g = matched_graph(*a, m@);
    let back = invert(m, n);
    let mut fwd: Vec<Vec<usize>> = Vec::new();
    let mut bwd: Vec<Vec<usize>> = Vec::new();
    let mut j: usize = 0;
    while j < n
        invariant
            j <= n,
            bwd@.len() == j,
            forall|v: int| 0 <= v < j ==> (#[trigger] bwd@[v]@).len() == 0,
        decreases n - j,
    {
        bwd.push(Vec::new());
        j = j + 1;
    }
    proof {
        assert forall|v: int, w: int| 0 <= v < n implies (#[trigger] occurs(bwd@[v]@, w) <==> 0 <= w < 0 && g(w, v)) by {
            assert(bwd@[v]@.len() == 0);
        }
        assert forall|v: int| 0 <= v < n implies below(#[trigger] bwd@[v]@, n as int) by {
            assert(bwd@[v]@.len() == 0);
        }
    }
    j = 0;
    while j < n
        invariant
            j <= n,
            n == a.n,
            a.wf(),
            is_permutation(m@, n as int),
            inverse_of(back@, m@),
            forall|r: int| 0 <= r < n ==> 0 <= #[trigger] back@[r] < n && m@[back@[r] as int] == r,
            g == matched_graph(*a, m@),
            fwd@.len() == j,
            bwd@.len() == n,
            forall|v: int| 0 <= v < j ==> below(#[trigger] fwd@[v]@, n as int),
            forall|v: int, w: int| 0 <= v < j ==> (#[trigger] occurs(fwd@[v]@, w) <==> g(v, w)),
            forall|v: int| 0 <= v < n ==> below(#[trigger] bwd@[v]@, n as int),
            forall|v: int, w: int|
                0 <= v < n ==> (#[trigger] occurs(bwd@[v]@, w) <==> 0 <= w < j && g(w, v)),
            forall|v: int| 0 <= v < n ==> ascending(#[trigger] bwd@[v]@),
            forall|v: int| 0 <= v < j ==> (#[trigger] fwd@[v])@ == out_lists(*a, m@)[v],
        decreases n - j,
    {
        proof {
            column_range(*a, j as int);
        }
        let ghost rows = a.rows_of(j as int);
        let ghost fwd0 = fwd@;
        let lo: usize = a.col_ptr[j];
        let hi: usize = a.col_ptr[j + 1];
        let mut out: Vec<usize> = Vec::new();
        let mut q: usize = lo;
        while q < hi
            invariant
                j < n,
                n == a.n,
                lo <= q <= hi <= a.row_idx@.len(),
                rows == a.rows_of(j as int),
                rows.len() == hi - lo,
                below(rows, n as int),
                is_permutation(m@, n as int),
                forall|x: int| 0 <= x < rows.len() ==> #[trigger] rows[x] == a.row_idx@[lo + x],
                back@.len() == n,
                inverse_of(back@, m@),
                forall|r: int| 0 <= r < n ==> 0 <= #[trigger] back@[r] < n && m@[back@[r] as int] == r,
                g == matched_graph(*a, m@),
                below(out@, n as int),
                forall|w: int| #[trigger]
                    occurs(out@, w) <==> 0 <= w < n && occurs(rows.take(q - lo), m@[w] as int),
                bwd@.len() == n,
                forall|v: int| 0 <= v < n ==> below(#[trigger] bwd@[v]@, n as int),
                forall|v: int, w: int|
                    0 <= v < n ==> (#[trigger] occurs(bwd@[v]@, w) <==> (0 <= w < j && g(w, v)) || (w == j
                        && occurs(rows.take(q - lo), m@[v] as int))),
                distinct(rows),
                forall|v: int| 0 <= v < n ==> ascending(#[trigger] bwd@[v]@),
                out@.len() == q - lo,
                forall|x: int|
                    0 <= x < q - lo ==> #[trigger] out@[x] == position(m@, rows[x] as int) as usize,
            decreases hi - q,
        {
            let r: usize = a.row_idx[q];
            let ghost h1 = rows.take(q - lo);
            let ghost h2 = rows.take(q - lo + 1);
            proof {
                assert(rows[q - lo] == r);
                assert(r < n);
                assert(0 <= back@[r as int] < n);
                assert forall|i: int| #[trigger] occurs(h2, i) <==> i == r || occurs(h1, i) by {
                    if i == r {
                        assert(h2[q - lo] == i);
                    }
                    if occurs(h1, i) {
                        assert(h2[position(h1, i)] == i);
                    }
                    if occurs(h2, i) {
                        let x = position(h2, i);
                        if x < q - lo {
                            assert(h1[x] == i);
                        }
                    }
                }
            }
            let k: usize = back[r];
            let ghost out0 = out@;
            let ghost bwd0 = bwd@;
            proof {
                let at = position(m@, r as int);
                assert(m@[k as int] == r);
                assert(m@[at] == r);
                if at < k {
                    assert(m@[at] != m@[k as int]);
                } else if k < at {
                    assert(m@[k as int] != m@[at]);
                }
                assert(!occurs(h1, r as int)) by {
                    if occurs(h1, r as int) {
                        let x = position(h1, r as int);
                        assert(h1[x] == r);
                        assert(rows[x] != rows[q - lo]);
                    }
                }
                let s0 = bwd0[k as int]@;
                assert forall|x: int| 0 <= x < s0.len() implies #[trigger] s0[x] < j by {
                    assert(occurs(bwd0[k as int]@, s0[x] as int));
                    assert(m@[k as int] == r);
                }
            }
            out.push(k);
            bwd[k].push(j);
            q = q + 1;
            proof {
                assert forall|w: int| 0 <= w < n implies (#[trigger] m@[w] == r <==> w == k) by {
                    if m@[w] == r {
                        assert(back@[m@[w] as int] == w);
                    }
                }
                pushed(out0, k);
                assert forall|w: int| #[trigger] occurs(out@, w) <==> 0 <= w < n && occurs(h2, m@[w] as int) by {
                    assert(occurs(out0, w) <==> 0 <= w < n && occurs(h1, m@[w] as int));
                    if 0 <= w < n {
                        assert(m@[w] == r <==> w == k);
                    }
                }
                pushed(bwd0[k as int]@, j);
                assert(bwd@[k as int]@ == bwd0[k as int]@.push(j));
                assert forall|v: int| 0 <= v < n implies ascending(#[trigger] bwd@[v]@) by {
                    assert(ascending(bwd0[v]@));
                    if v == k {
                        let s1 = bwd@[v]@;
                        assert forall|x: int, y: int| 0 <= x < y < s1.len() implies #[trigger] s1[x]
                            < #[trigger] s1[y] by {
                            if y < bwd0[v]@.len() {
                                assert(bwd0[v]@[x] < bwd0[v]@[y]);
                            } else {
                                assert(bwd0[v]@[x] < j);
                            }
                        }
                    } else {
                        assert(bwd@[v] == bwd0[v]);
                    }
                }
                assert forall|v: int, w: int| 0 <= v < n implies (#[trigger] occurs(bwd@[v]@, w) <==> (0 <= w < j
                    && g(w, v)) || (w == j && occurs(h2, m@[v] as int))) by {
                    assert(occurs(bwd0[v]@, w) <==> (0 <= w < j && g(w, v)) || (w == j && occurs(
                        h1,
                        m@[v] as int,
                    )));
                    assert(m@[v] == r <==> v == k);
                    if v != k {
                        assert(bwd@[v] == bwd0[v]);
                    }
                }
                assert forall|v: int| 0 <= v < n implies below(#[trigger] bwd@[v]@, n as int) by {
                    assert(below(bwd0[v]@, n as int));
                    if v == k {
                        let s = bwd@[v]@;
                        assert forall|x: int| 0 <= x < s.len() implies #[trigger] s[x] < n by {
                            if x < bwd0[v]@.len() {
                                assert(bwd0[v]@[x] < n);
                            }
                        }
                    } else {
                        assert(bwd@[v] == bwd0[v]);
                    }
                }
            }
        }
        proof {
            assert(rows.take(hi - lo) =~= rows);
        }
        fwd.push(out);
        proof {
            assert(out@ =~= out_lists(*a, m@)[j as int]);
            assert forall|v: int, w: int| 0 <= v < j + 1 implies (#[trigger] occurs(fwd@[v]@, w) <==> g(v, w)) by {
                if v < j {
                    assert(occurs(fwd0[v]@, w) <==> g(v, w));
                } else {
                    assert(occurs(out@, w) <==> 0 <= w < n && occurs(rows, m@[w] as int));
                }
            }
            assert forall|v: int| 0 <= v < j + 1 implies below(#[trigger] fwd@[v]@, n as int) by {
                if v < j {
                    assert(below(fwd0[v]@, n as int));
                }
            }
            assert forall|v: int, w: int| 0 <= v < n implies (#[trigger] occurs(bwd@[v]@, w) <==> 0 <= w < j + 1
                && g(w, v)) by {
                assert(g(j as int, v) <==> occurs(rows, m@[v] as int));
            }
        }
        j = j + 1;
    }
    proof {
        let h = turned_round(g);
        assert forall|v: int, w: int| 0 <= v < n implies (#[trigger] occurs(bwd@[v]@, w) <==> h(v, w)) by {}
        assert forall|v: int, w: int| #[trigger] h(v, w) implies 0 <= v < n && 0 <= w < n by {
            assert(g(w, v));
        }
        assert(lists_of(fwd@) =~= out_lists(*a, m@));
        let into = in_lists(*a, m@);
        assert forall|v: int| 0 <= v < n implies #[trigger] lists_of(bwd@)[v] == into[v] by {
            let from = |w: int| matched_graph(*a, m@)(w, v);
            assert(below(bwd@[v]@, n as int));
            assert(ascending(bwd@[v]@));
            assert forall|w: int| 0 <= w < n implies (#[trigger] occurs(bwd@[v]@, w) <==> from(w)) by {}
            ascending_is_listed(bwd@[v]@, n as int, from);
        }
        assert(lists_of(bwd@) =~= into);
    }
    (fwd, bwd)
}

proof fn pushed(s: Seq<usize>, v: usize)
    ensures
        forall|i: int| #[trigger] occurs(s.push(v), i) <==> i == v || occurs(s, i),
{
    let t = s.push(v);
    assert forall|i: int| #[trigger] occurs(t, i) <==> i == v || occurs(s, i) by {
        if i == v {
            assert(t[s.len() as int] == i);
        }
        if occurs(s, i) {
            assert(t[position(s, i)] == i);
        }
        if occurs(t, i) {
            let k = position(t, i);
            if k < s.len() {
                assert(s[k] == i);
            }
        }
    }
}

/// The block upper triangular form of a matrix with a transversal.
pub fn btf_from_matching<T>(a: &GeneralCsc<T>, m: &Vec<usize>) -> (form: BtfForm)
    requires
        a.wf(),
        is_transversal(*a, m@),
    ensures
        form.wf(a.n as int),
        is_btf(*a, form.row_perm@, form.col_perm@, form.block_ptr@, m@),
        is_form(*a, m@, form),
{
    let n: usize = a.n;
    let ghost g = matched_graph(*a, m@);
    let (fwd, bwd) = matched_lists(a, m);
    let (col_perm, block_ptr) = strong_components(n, &fwd, &bwd, Ghost(g));
    let mut row_perm: Vec<usize> = Vec::new();
    let mut k: usize = 0;
    while k < n
        invariant
            k <= n,
            n == a.n,
            is_permutation(m@, n as int),
            is_permutation(col_perm@, n as int),
            row_perm@.len() == k,
            forall|x: int| 0 <= x < k ==> #[trigger] row_perm@[x] == m@[col_perm@[x] as int],
        decreases n - k,
    {
        assert(col_perm@[k as int] < n);
        row_perm.push(m[col_perm[k]]);
        k = k + 1;
    }
    let form = BtfForm { row_perm, col_perm, block_ptr };
    proof {
        assert(form.row_perm@ =~= Seq::new(
            form.col_perm@.len(),
            |k: int| m@[form.col_perm@[k] as int],
        ));
        let rp = form.row_perm@;
        let cp = form.col_perm@;
        assert forall|x: int| 0 <= x < n implies #[trigger] rp[x] < n by {
            assert(cp[x] < n);
            assert(m@[cp[x] as int] < n);
        }
        assert forall|x: int, y: int| 0 <= x < y < rp.len() implies #[trigger] rp[x] != #[trigger] rp[y] by {
            let c = cp[x] as int;
            let d = cp[y] as int;
            assert(cp[x] != cp[y]);
            assert(cp[x] < n && cp[y] < n);
            if c < d {
                assert(m@[c] != m@[d]);
            } else {
                assert(m@[d] != m@[c]);
            }
        }
        assert forall|x: int| 0 <= x < n implies stores(*a, #[trigger] rp[x] as int, cp[x] as int) by {
            assert(cp[x] < n);
            assert(stores(*a, m@[cp[x] as int] as int, cp[x] as int));
        }
        assert forall|b: int, j: int, p: int|
            #![trigger in_block(form.block_ptr@, b, j), rp[p]]
            in_block(form.block_ptr@, b, j) && 0 <= p < n && stores(
                *a,
                rp[p] as int,
                cp[j] as int,
            ) implies p < form.block_ptr@[b + 1] by {
            crate::klu::form::block_range(n as int, form.block_ptr@, b);
            assert(cp[j] < n && cp[p] < n);
            assert(rp[p] == m@[cp[p] as int]);
            assert(g(cp[j] as int, cp[p] as int));
            let s = cp.take(form.block_ptr@[b + 1] as int);
            assert(occurs(s, cp[p] as int));
            let x = position(s, cp[p] as int);
            assert(s[x] == cp[p]);
            assert(cp[x] == cp[p]);
            if x < p {
                assert(cp[x] != cp[p]);
            } else if p < x {
                assert(cp[p] != cp[x]);
            }
        }
        assert forall|b1: int, b2: int, p: int, q: int| #[trigger]
            in_block(form.block_ptr@, b1, p) && #[trigger] in_block(form.block_ptr@, b2, q) implies (b1 == b2
            <==> connected(g, cp[p] as int, cp[q] as int)) by {
            blocks_are_the_components(g, n as int, cp, form.block_ptr@, b1, b2, p, q);
        }
    }
    form
}

} // verus!
