//! The factors as one global `L` and `D`, in the order of elimination.

use crate::columns::sort_columns;
use crate::flat::{column_bounds, column_start};
use crate::multifrontal::factors::{node_ok, SparseFactors};
use crate::multifrontal::node::NodeFactors;
use crate::multifrontal::order::{elim_of, eliminated};
use crate::scalar::Scalar;
use crate::seqs::{distinct, inverse_of, is_permutation, occurs, permutation_is_onto};
use crate::sparse::{col_map_at, position, GeneralCsc, SparseColumn};
use vstd::prelude::*;

verus! {

/// The rows of a node in pivot order.
pub open spec fn pivot_rows<T: Scalar>(node: NodeFactors<T>) -> Seq<usize> {
    Seq::new(
        node.nrow as nat,
        |i: int| node.row_indices@[node.frontal_factors.perm@[i] as int],
    )
}

/// How many columns the nodes before `s` eliminate.
pub open spec fn start_of<T: Scalar>(nodes: Seq<NodeFactors<T>>, s: int) -> int {
    eliminated(nodes, s).len() as int
}

/// Entry of the node's `L` in row `g` of the matrix and pivot column `j`.
pub open spec fn l_entry<T: Scalar>(node: NodeFactors<T>, g: int, j: int) -> T {
    if occurs(pivot_rows(node), g) {
        node.frontal_factors.l_at(position(pivot_rows(node), g), j)
    } else {
        T::zero_spec()
    }
}

/// That entry is stored: the unit diagonal, and what is not zero below it.
pub open spec fn l_stored<T: Scalar>(node: NodeFactors<T>, g: int, j: int) -> bool {
    let i = position(pivot_rows(node), g);
    occurs(pivot_rows(node), g) && (i == j || i > j && !node.frontal_factors.l_at(
        i,
        j,
    ).is_zero_spec())
}

/// The factors in the order of elimination: `L D L^T` is the scaled, permuted
/// matrix.
#[derive(Clone)]
pub struct LdltExport<T> {
    /// Factorization order to matrix index.
    pub perm: Vec<usize>,
    /// Matrix index to factorization order.
    pub perm_inv: Vec<usize>,
    /// Column pointers of `L`.
    pub l_indptr: Vec<usize>,
    /// Row indices of `L`, ascending in each column.
    pub l_indices: Vec<usize>,
    /// Values of `L`, the unit diagonal among them.
    pub l_values: Vec<T>,
    /// Diagonal of `D`.
    pub d_diag: Vec<T>,
    /// Entry below the diagonal of `D`; nonzero at the head of a 2 by 2 pivot.
    pub d_subdiag: Vec<T>,
}

impl<T> LdltExport<T> {
    /// `L` as a matrix of order `n`.
    pub open spec fn lower(&self, n: usize) -> GeneralCsc<T> {
        GeneralCsc {
            n,
            col_ptr: self.l_indptr,
            row_idx: self.l_indices,
            values: self.l_values,
        }
    }
}

impl<T: Scalar> SparseFactors<T> {
    /// When column `g` is eliminated.
    pub open spec fn place(&self, g: int) -> int {
        position(self.pivots(), g)
    }

    /// The column of `L` for pivot `j` of node `s`.
    pub open spec fn is_column(&self, s: int, j: int, c: Map<int, T>) -> bool {
        forall|g: int|
            0 <= g < self.n ==> {
                &&& c.contains_key(#[trigger] self.place(g)) <==> l_stored(
                    self.node_factors@[s],
                    g,
                    j,
                )
                &&& l_stored(self.node_factors@[s], g, j) ==> c[self.place(g)] == l_entry(
                    self.node_factors@[s],
                    g,
                    j,
                )
            }
    }

    /// Pivot `j` of node `s` as exported.
    pub open spec fn is_exported(&self, x: LdltExport<T>, s: int, j: int) -> bool {
        let node = self.node_factors@[s];
        let e = start_of(self.node_factors@, s) + j;
        &&& x.perm@[e] == self.perm@[pivot_rows(node)[j] as int]
        &&& x.d_diag@[e] == node.frontal_factors.d_diag@[j]
        &&& x.d_subdiag@[e] == node.frontal_factors.d_subdiag@[j]
        &&& self.is_column(s, j, x.lower(self.n).col(e))
    }

    /// The place of a pivot is its number.
    pub proof fn place_of_pivot(&self, e: int)
        requires
            self.wf(),
            0 <= e < self.pivots().len(),
        ensures
            self.place(self.pivots()[e] as int) == e,
    {
        let p = self.pivots();
        assert(occurs(p, p[e] as int));
        let q = self.place(p[e] as int);
        assert(p[q] == p[e]);
        if q < e {
            assert(p[q] != p[e]);
        } else if e < q {
            assert(p[e] != p[q]);
        }
    }

    /// With every column eliminated, each has its place.
    pub proof fn place_exists(&self, g: int)
        requires
            self.wf(),
            self.complete(),
            0 <= g < self.n,
        ensures
            0 <= self.place(g) < self.n,
            self.pivots()[self.place(g)] == g,
    {
        permutation_is_onto(self.pivots(), self.n as int, g);
        assert(occurs(self.pivots(), g));
    }

    /// Pivot `j` of node `s` in the list of pivots.
    pub proof fn pivot_is(&self, s: int, j: int)
        requires
            self.wf(),
            0 <= s < self.node_factors@.len(),
            0 <= j < self.node_factors@[s].nelim,
        ensures
            0 <= start_of(self.node_factors@, s),
            start_of(self.node_factors@, s) + self.node_factors@[s].nelim <= self.pivots().len(),
            self.pivots()[start_of(self.node_factors@, s) + j] == pivot_rows(
                self.node_factors@[s],
            )[j],
    {
        let nodes = self.node_factors@;
        assert(node_ok(nodes[s], self.n as int));
        prefix_kept(nodes, s + 1, nodes.len() as int);
        let e = eliminated(nodes, s);
        assert(eliminated(nodes, s + 1) == e + elim_of(nodes[s]));
        assert(elim_of(nodes[s])[j] == pivot_rows(nodes[s])[j]);
        assert(eliminated(nodes, s + 1)[e.len() + j] == elim_of(nodes[s])[j]);
        assert(self.pivots()[e.len() + j] == eliminated(nodes, s + 1)[e.len() + j]);
    }

    /// The columns in the order of elimination, and their places.
    fn order_columns(&self) -> (r: (Vec<usize>, Vec<usize>))
        requires
            self.wf(),
            self.complete(),
        ensures
            r.0@ == self.pivots(),
            r.1@.len() == self.n,
            forall|g: int| 0 <= g < self.n ==> #[trigger] r.1@[g] == self.place(g),
    {
        let n: usize = self.n;
        let ghost nodes = self.node_factors@;
        let mut list: Vec<usize> = Vec::new();
        let mut s: usize = 0;
        while s < self.node_factors.len()
            invariant
                s <= nodes.len(),
                nodes == self.node_factors@,
                self.wf(),
                list@ == eliminated(nodes, s as int),
            decreases nodes.len() - s,
        {
            assert(node_ok(nodes[s as int], self.n as int));
            let ghost before = list@;
            let node = &self.node_factors[s];
            let mut j: usize = 0;
            while j < node.nelim
                invariant
                    j <= node.nelim,
                    node_ok(*node, self.n as int),
                    list@ == before + elim_of(*node).take(j as int),
                decreases node.nelim - j,
            {
                let q: usize = node.frontal_factors.perm[j];
                assert(q < node.nrow);
                list.push(node.row_indices[q]);
                j = j + 1;
                assert(list@ =~= before + elim_of(*node).take(j as int));
            }
            assert(elim_of(*node).take(node.nelim as int) =~= elim_of(*node));
            s = s + 1;
        }
        let mut places: Vec<usize> = Vec::new();
        let mut k: usize = 0;
        while k < n
            invariant
                k <= n,
                places@.len() == k,
            decreases n - k,
        {
            places.push(0);
            k = k + 1;
        }
        let mut e: usize = 0;
        while e < n
            invariant
                e <= n,
                n == self.n,
                self.wf(),
                self.complete(),
                list@ == self.pivots(),
                places@.len() == n,
                forall|q: int|
                    0 <= q < e ==> places@[(#[trigger] self.pivots()[q]) as int] == q,
            decreases n - e,
        {
            let g: usize = list[e];
            assert(self.pivots()[e as int] < n);
            places.set(g, e);
            proof {
                assert forall|q: int| 0 <= q < e + 1 implies places@[(
                #[trigger] self.pivots()[q]) as int] == q by {
                    if q < e {
                        assert(self.pivots()[q] != self.pivots()[e as int]);
                        assert(self.pivots()[q] < n);
                    }
                }
            }
            e = e + 1;
        }
        assert forall|g: int| 0 <= g < n implies #[trigger] places@[g] == self.place(g) by {
            self.place_exists(g);
            assert(places@[self.pivots()[self.place(g)] as int] == self.place(g));
        }
        (list, places)
    }

    /// The column of `L` for pivot `j` of node `s`, in no order.
    #[verifier::rlimit(30)]
    fn collect_column(&self, s: usize, j: usize, places: &Vec<usize>) -> (col: SparseColumn<T>)
        requires
            self.wf(),
            self.complete(),
            s < self.node_factors@.len(),
            j < self.node_factors@[s as int].nelim,
            places@.len() == self.n,
            forall|g: int| 0 <= g < self.n ==> #[trigger] places@[g] == self.place(g),
        ensures
            col.wf(self.n as int),
            self.is_column(s as int, j as int, col@),
    {
        let ghost n = self.n as int;
        let node = &self.node_factors[s];
        let ghost prow = pivot_rows(*node);
        proof {
            assert(node_ok(*node, n));
            assert(distinct(prow)) by {
                assert forall|x: int, y: int| 0 <= x < y < prow.len() implies #[trigger] prow[x]
                    != #[trigger] prow[y] by {
                    let p = node.frontal_factors.perm@;
                    assert(p[x] != p[y]);
                    assert(p[x] < node.nrow && p[y] < node.nrow);
                    if p[x] < p[y] {
                        assert(node.row_indices@[p[x] as int] != node.row_indices@[p[y] as int]);
                    } else {
                        assert(node.row_indices@[p[y] as int] != node.row_indices@[p[x] as int]);
                    }
                }
            }
            column_bounds(node.nrow as int, j as int, node.nelim as int);
        }
        let nrow: usize = node.nrow;
        let len: usize = node.frontal_factors.l.len();
        let at: usize = nrow * j;
        let mut rows: Vec<usize> = Vec::new();
        let mut vals: Vec<T> = Vec::new();
        let ghost mut src: Seq<int> = Seq::empty();
        let mut i: usize = j;
        while i < nrow
            invariant
                j <= i <= nrow,
                n == self.n,
                self.wf(),
                self.complete(),
                node_ok(*node, n),
                nrow == node.nrow,
                j < node.nelim,
                prow == pivot_rows(*node),
                prow.len() == nrow,
                distinct(prow),
                at == column_start(nrow as int, j as int),
                at + nrow <= node.frontal_factors.l@.len(),
                len == node.frontal_factors.l@.len(),
                places@.len() == self.n,
                forall|g: int| 0 <= g < self.n ==> #[trigger] places@[g] == self.place(g),
                rows@.len() == src.len(),
                vals@.len() == src.len(),
                forall|q: int|
                    0 <= q < src.len() ==> j <= #[trigger] src[q] < i && rows@[q] == self.place(
                        prow[src[q]] as int,
                    ) && vals@[q] == node.frontal_factors.l_at(src[q], j as int) && (src[q] == j
                        || !vals@[q].is_zero_spec()),
                forall|q: int, r: int|
                    0 <= q < r < src.len() ==> #[trigger] src[q] < #[trigger] src[r],
                forall|t: int|
                    j <= t < i && (t == j || !node.frontal_factors.l_at(
                        t,
                        j as int,
                    ).is_zero_spec()) ==> #[trigger] src.contains(t),
            decreases nrow - i,
        {
            let ghost src0 = src;
            let q: usize = node.frontal_factors.perm[i];
            assert(q < nrow);
            let g: usize = node.row_indices[q];
            assert(g < n);
            assert(prow[i as int] == g);
            let v: T = if i == j {
                T::one()
            } else {
                node.frontal_factors.l[at + i]
            };
            assert(v == node.frontal_factors.l_at(i as int, j as int));
            if i == j || !v.is_zero() {
                rows.push(places[g]);
                vals.push(v);
                proof {
                    src = src.push(i as int);
                    assert(src[src0.len() as int] == i);
                }
            }
            proof {
                assert forall|t: int|
                    j <= t < i + 1 && (t == j || !node.frontal_factors.l_at(
                        t,
                        j as int,
                    ).is_zero_spec()) implies #[trigger] src.contains(t) by {
                    if t < i {
                        assert(src0.contains(t));
                        let k = choose|k: int| 0 <= k < src0.len() && src0[k] == t;
                        assert(src[k] == t);
                    }
                }
            }
            i = i + 1;
        }
        let col = SparseColumn { rows, vals };
        proof {
            assert forall|x: int| 0 <= x < rows@.len() implies #[trigger] rows@[x] < n by {
                let g = prow[src[x]] as int;
                self.row_below(s as int, src[x]);
                self.place_exists(g);
            }
            assert forall|x: int, y: int| 0 <= x < y < rows@.len() implies #[trigger] rows@[x]
                != #[trigger] rows@[y] by {
                let g = prow[src[x]] as int;
                let h = prow[src[y]] as int;
                self.row_below(s as int, src[x]);
                self.row_below(s as int, src[y]);
                self.place_exists(g);
                self.place_exists(h);
                assert(src[x] < src[y]);
                assert(prow[src[x]] != prow[src[y]]);
            }
            assert forall|g: int| 0 <= g < n implies {
                &&& col@.contains_key(#[trigger] self.place(g)) <==> l_stored(*node, g, j as int)
                &&& l_stored(*node, g, j as int) ==> col@[self.place(g)] == l_entry(
                    *node,
                    g,
                    j as int,
                )
            } by {
                self.place_exists(g);
                let t = position(prow, g);
                if l_stored(*node, g, j as int) {
                    assert(prow[t] == g && 0 <= t < nrow);
                    assert(t == j || !node.frontal_factors.l_at(t, j as int).is_zero_spec());
                    assert(src.contains(t));
                    let q = choose|q: int| 0 <= q < src.len() && src[q] == t;
                    assert(rows@[q] == self.place(g));
                    col_map_at(rows@, vals@, q);
                }
                if col@.contains_key(self.place(g)) {
                    let q = position(rows@, self.place(g));
                    assert(rows@[q] == self.place(g));
                    let h = prow[src[q]] as int;
                    self.row_below(s as int, src[q]);
                    self.place_exists(h);
                    assert(h == g);
                    assert(occurs(prow, g));
                    assert(prow[t] == g);
                    if t < src[q] {
                        assert(prow[t] != prow[src[q]]);
                    } else if src[q] < t {
                        assert(prow[src[q]] != prow[t]);
                    }
                    assert(t == src[q]);
                }
            }
        }
        col
    }

    /// The rows of a node are rows of the matrix.
    pub proof fn row_below(&self, s: int, i: int)
        requires
            self.wf(),
            0 <= s < self.node_factors@.len(),
            0 <= i < self.node_factors@[s].nrow,
        ensures
            pivot_rows(self.node_factors@[s])[i] < self.n,
    {
        let node = self.node_factors@[s];
        assert(node_ok(node, self.n as int));
        assert(node.frontal_factors.perm@[i] < node.nrow);
    }

    /// Reassemble the factors of the supernodes into one global `L` and `D`, in
    /// the order of elimination.
    #[verifier::rlimit(60)]
    pub fn ldlt_export(&self) -> (x: LdltExport<T>)
        requires
            self.wf(),
            self.complete(),
        ensures
            x.perm@.len() == self.n,
            x.d_diag@.len() == self.n,
            x.d_subdiag@.len() == self.n,
            is_permutation(x.perm@, self.n as int),
            inverse_of(x.perm_inv@, x.perm@),
            x.lower(self.n).wf(),
            forall|s: int, j: int|
                0 <= s < self.node_factors@.len() && 0 <= j < self.node_factors@[s].nelim
                    ==> #[trigger] self.is_exported(x, s, j),
    {
        let n: usize = self.n;
        let ghost nodes = self.node_factors@;
        let (list, places) = self.order_columns();
        let mut perm: Vec<usize> = Vec::new();
        let mut e: usize = 0;
        while e < n
            invariant
                e <= n,
                n == self.n,
                self.wf(),
                self.complete(),
                list@ == self.pivots(),
                perm@.len() == e,
                forall|q: int|
                    0 <= q < e ==> #[trigger] perm@[q] == self.perm@[self.pivots()[q] as int],
            decreases n - e,
        {
            assert(self.pivots()[e as int] < n);
            perm.push(self.perm[list[e]]);
            e = e + 1;
        }
        let mut perm_inv: Vec<usize> = Vec::new();
        let mut i: usize = 0;
        while i < n
            invariant
                i <= n,
                n == self.n,
                self.wf(),
                places@.len() == n,
                forall|g: int| 0 <= g < n ==> #[trigger] places@[g] == self.place(g),
                perm_inv@.len() == i,
                forall|q: int|
                    0 <= q < i ==> #[trigger] perm_inv@[q] == self.place(self.perm_inv@[q] as int),
            decreases n - i,
        {
            assert(self.perm_inv@[i as int] < n);
            perm_inv.push(places[self.perm_inv[i]]);
            i = i + 1;
        }
        let mut d_diag: Vec<T> = Vec::new();
        let mut d_subdiag: Vec<T> = Vec::new();
        let mut cols: Vec<SparseColumn<T>> = Vec::new();
        let mut s: usize = 0;
        while s < self.node_factors.len()
            invariant
                s <= nodes.len(),
                nodes == self.node_factors@,
                n == self.n,
                self.wf(),
                self.complete(),
                places@.len() == n,
                forall|g: int| 0 <= g < n ==> #[trigger] places@[g] == self.place(g),
                d_diag@.len() == start_of(nodes, s as int),
                d_subdiag@.len() == d_diag@.len(),
                cols@.len() == d_diag@.len(),
                forall|q: int| 0 <= q < cols@.len() ==> (#[trigger] cols@[q]).wf(n as int),
                forall|t: int, j: int|
                    0 <= t < s && 0 <= j < nodes[t].nelim ==> #[trigger] self.is_listed(
                        d_diag@,
                        d_subdiag@,
                        cols@,
                        t,
                        j,
                    ),
            decreases nodes.len() - s,
        {
            assert(node_ok(nodes[s as int], n as int));
            let nelim: usize = self.node_factors[s].nelim;
            let ghost base = start_of(nodes, s as int);
            let mut j: usize = 0;
            while j < nelim
                invariant
                    s < nodes.len(),
                    nodes == self.node_factors@,
                    n == self.n,
                    self.wf(),
                    self.complete(),
                    nelim == nodes[s as int].nelim,
                    j <= nelim,
                    node_ok(nodes[s as int], n as int),
                    base == start_of(nodes, s as int),
                    places@.len() == n,
                    forall|g: int| 0 <= g < n ==> #[trigger] places@[g] == self.place(g),
                    d_diag@.len() == base + j,
                    d_subdiag@.len() == base + j,
                    cols@.len() == base + j,
                    forall|q: int| 0 <= q < cols@.len() ==> (#[trigger] cols@[q]).wf(n as int),
                    forall|t: int, k: int|
                        0 <= t < s && 0 <= k < nodes[t].nelim || t == s && 0 <= k < j
                            ==> #[trigger] self.is_listed(d_diag@, d_subdiag@, cols@, t, k),
                decreases nelim - j,
            {
                let ghost dd = d_diag@;
                let ghost ds = d_subdiag@;
                let ghost cc = cols@;
                let col = self.collect_column(s, j, &places);
                d_diag.push(self.node_factors[s].frontal_factors.d_diag[j]);
                d_subdiag.push(self.node_factors[s].frontal_factors.d_subdiag[j]);
                cols.push(col);
                proof {
                    assert forall|t: int, k: int|
                        0 <= t < s && 0 <= k < nodes[t].nelim || t == s && 0 <= k < j
                            + 1 implies #[trigger] self.is_listed(
                        d_diag@,
                        d_subdiag@,
                        cols@,
                        t,
                        k,
                    ) by {
                        if !(t == s && k == j) {
                            assert(self.is_listed(dd, ds, cc, t, k));
                            if t < s {
                                prefix_kept(nodes, t + 1, s as int);
                                assert(eliminated(nodes, t + 1) == eliminated(nodes, t) + elim_of(
                                    nodes[t],
                                ));
                                assert(node_ok(nodes[t], n as int));
                            } else {
                            }
                            assert(start_of(nodes, t) + k < dd.len());
                        }
                    }
                }
                j = j + 1;
            }
            assert(eliminated(nodes, s + 1) == eliminated(nodes, s as int) + elim_of(
                nodes[s as int],
            ));
            s = s + 1;
        }
        let sorted = sort_columns(n, &cols);
        let m = GeneralCsc::from_columns(n, &sorted);
        let GeneralCsc { n: _, col_ptr, row_idx, values } = m;
        let x = LdltExport {
            perm,
            perm_inv,
            l_indptr: col_ptr,
            l_indices: row_idx,
            l_values: values,
            d_diag,
            d_subdiag,
        };
        proof {
            assert forall|t: int, j: int|
                0 <= t < nodes.len() && 0 <= j < nodes[t].nelim implies #[trigger] self.is_exported(
                x,
                t,
                j,
            ) by {
                assert(self.is_listed(d_diag@, d_subdiag@, cols@, t, j));
                self.pivot_is(t, j);
                let k = start_of(nodes, t) + j;
                assert(perm@[k] == self.perm@[self.pivots()[k] as int]);
                assert(m.rows_of(k) == sorted@[k].rows@);
                assert(m.vals_of(k) == sorted@[k].vals@);
                assert(x.lower(n).rows_of(k) == m.rows_of(k));
                assert(x.lower(n).vals_of(k) == m.vals_of(k));
                assert(x.lower(n).col(k) == sorted@[k]@);
                assert(sorted@[k]@ == cols@[k]@);
            }
            assert forall|a: int, b: int| 0 <= a < b < perm@.len() implies #[trigger] perm@[a]
                != #[trigger] perm@[b] by {
                let p = self.pivots();
                assert(p[a] != p[b]);
                assert(p[a] < n && p[b] < n);
                if p[a] < p[b] {
                    assert(self.perm@[p[a] as int] != self.perm@[p[b] as int]);
                } else {
                    assert(self.perm@[p[b] as int] != self.perm@[p[a] as int]);
                }
            }
            assert forall|a: int| 0 <= a < perm@.len() implies #[trigger] perm@[a] < n by {
                assert(self.pivots()[a] < n);
                assert(self.perm@[self.pivots()[a] as int] < n);
            }
            assert forall|a: int| 0 <= a < perm@.len() implies perm_inv@[(
            #[trigger] perm@[a]) as int] == a by {
                let g = self.pivots()[a] as int;
                assert(self.pivots()[a] < n);
                assert(self.perm_inv@[self.perm@[g] as int] == g);
                self.place_of_pivot(a);
            }
        }
        x
    }

    /// Pivot `j` of node `t` as listed.
    spec fn is_listed(
        &self,
        d_diag: Seq<T>,
        d_subdiag: Seq<T>,
        cols: Seq<SparseColumn<T>>,
        t: int,
        j: int,
    ) -> bool {
        let node = self.node_factors@[t];
        let e = start_of(self.node_factors@, t) + j;
        &&& d_diag[e] == node.frontal_factors.d_diag@[j]
        &&& d_subdiag[e] == node.frontal_factors.d_subdiag@[j]
        &&& self.is_column(t, j, cols[e]@)
    }
}

/// Later nodes append to the list of pivots.
pub proof fn prefix_kept<T: Scalar>(nodes: Seq<NodeFactors<T>>, s: int, t: int)
    requires
        0 <= s <= t,
    ensures
        eliminated(nodes, s).len() <= eliminated(nodes, t).len(),
        forall|k: int|
            0 <= k < eliminated(nodes, s).len() ==> #[trigger] eliminated(nodes, t)[k]
                == eliminated(nodes, s)[k],
    decreases t,
{
    if s < t {
        prefix_kept(nodes, s, t - 1);
    }
}

} // verus!
