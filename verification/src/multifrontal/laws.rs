//! What the exported factors are for: `L D L^T` is the scaled, permuted matrix.

use crate::flat::{column_bounds, column_start, position_splits};
use crate::algebra::{sum, sum_ext, sum_split, sum_window, times_zero, zero_plus};
use crate::multifrontal::driver::{groups_ok, tree_ready};
use crate::multifrontal::export::{l_entry, l_stored, pivot_rows, start_of, LdltExport};
use crate::multifrontal::factorize::{
    counts, factored, inputs_ok, is_factorization, job_of, no_tails, pivot_order, Trail,
};
use crate::multifrontal::factors::{inertia_counts, node_ok, tree_regular, SparseFactors};
use crate::multifrontal::fronts::{
    exact_kernel, is_exact, node_term, pivot_rows_same, product_symmetric, scaled_entry,
    term_is_product,
};
use crate::multifrontal::assembly::{cells_from_front, place_is};
use crate::multifrontal::dense::{dense_front, is_dense_factorization, scaled_at};
use crate::multifrontal::kernel::{cell, FrontKernel, Inertia};
use crate::multifrontal::node::{front_of, NodeFactors};
use crate::multifrontal::order::{elim_of, eliminated};
use crate::multifrontal::params::NumericParams;
use crate::multifrontal::permute::{
    is_lower, is_permuted, landing_bounds, larger_of, lower_cols, lower_rows, smaller_of,
};
use crate::multifrontal::permute_laws::{
    column_exists, exact_matrices_keep_values, landing_of, permutes_both_ways,
    permuting_moves_entries,
};
use crate::multifrontal::profile::SmallLeafBatch;
use crate::multifrontal::reconstruct::{
    node_facts, pattern_covers, products_add_up, tree_closed, whole_tree,
};
use crate::multifrontal::schur::{
    is_partial_factorization, partly_factored, tail_fits, tail_is_last, tail_shares, SchurBlock,
};
use crate::multifrontal::tree::SymbolicFactorization;
use crate::scalar::{Field, Scalar};
use crate::seqs::{below, distinct, inverse_of, is_permutation, occurs};
use crate::sparse::{col_map_at, column_range, entry, position, GeneralCsc};
use crate::triplets::hit;
use vstd::prelude::*;

verus! {

impl<T: Scalar> LdltExport<T> {
    /// Entry of the exported `D`.
    pub open spec fn d_at(&self, e: int, f: int) -> T {
        if e == f {
            self.d_diag@[e]
        } else if f == e + 1 {
            self.d_subdiag@[e]
        } else if e == f + 1 {
            self.d_subdiag@[f]
        } else {
            T::zero_spec()
        }
    }

    /// Entry `(i, j)` of the exported `L D L^T` of order `n`.
    pub open spec fn product_at(&self, n: usize, i: int, j: int) -> T {
        sum(
            n as nat,
            |e: int|
                sum(
                    n as nat,
                    |f: int|
                        entry(self.lower(n).col(e), i).times_spec(self.d_at(e, f)).times_spec(
                            entry(self.lower(n).col(f), j),
                        ),
                ),
        )
    }
}

/// No 2 by 2 pivot hangs over the end of a node.
pub open spec fn ends_clean<T: Scalar>(nodes: Seq<NodeFactors<T>>) -> bool {
    forall|s: int|
        0 <= s < nodes.len() && (#[trigger] nodes[s]).nelim > 0
            ==> nodes[s].frontal_factors.d_subdiag@[nodes[s].nelim - 1] == T::zero_spec()
}

/// The export holds the factors.
pub open spec fn exports<T: Scalar>(f: SparseFactors<T>, x: LdltExport<T>) -> bool {
    forall|s: int, j: int|
        0 <= s < f.node_factors@.len() && 0 <= j < f.node_factors@[s].nelim
            ==> #[trigger] f.is_exported(x, s, j)
}

/// The exported column holds the entries of the node.
proof fn exported_entry<T: Field>(
    f: SparseFactors<T>,
    x: LdltExport<T>,
    s: int,
    j: int,
    g: int,
)
    requires
        f.wf(),
        f.complete(),
        exports(f, x),
        0 <= s < f.node_factors@.len(),
        0 <= j < f.node_factors@[s].nelim,
        0 <= g < f.n,
    ensures
        entry(x.lower(f.n).col(start_of(f.node_factors@, s) + j), f.place(g)) == l_entry(
            f.node_factors@[s],
            g,
            j,
        ),
{
    let node = f.node_factors@[s];
    assert(f.is_exported(x, s, j));
    let c = x.lower(f.n).col(start_of(f.node_factors@, s) + j);
    assert(c.contains_key(f.place(g)) <==> l_stored(node, g, j));
    if !l_stored(node, g, j) && occurs(pivot_rows(node), g) {
        let i = position(pivot_rows(node), g);
        if i > j {
            T::zero_test(node.frontal_factors.l_at(i, j));
        }
    }
}

/// The last pivot before node `k` is not the head of a pair.
proof fn boundary_clean<T: Scalar>(f: SparseFactors<T>, x: LdltExport<T>, k: int)
    requires
        f.wf(),
        exports(f, x),
        ends_clean(f.node_factors@),
        0 <= k <= f.node_factors@.len(),
        start_of(f.node_factors@, k) > 0,
    ensures
        x.d_subdiag@[start_of(f.node_factors@, k) - 1] == T::zero_spec(),
    decreases k,
{
    let nodes = f.node_factors@;
    let node = nodes[k - 1];
    assert(eliminated(nodes, k) == eliminated(nodes, k - 1) + elim_of(node));
    if node.nelim > 0 {
        assert(f.is_exported(x, k - 1, node.nelim - 1));
    } else {
        boundary_clean(f, x, k - 1);
    }
}

/// One row of the exported product, for a pivot of node `s`.
proof fn exported_row<T: Field>(
    f: SparseFactors<T>,
    x: LdltExport<T>,
    s: int,
    a: int,
    g: int,
    h: int,
)
    requires
        f.wf(),
        f.complete(),
        exports(f, x),
        ends_clean(f.node_factors@),
        0 <= s < f.node_factors@.len(),
        0 <= a < f.node_factors@[s].nelim,
        0 <= g < f.n,
        0 <= h < f.n,
    ensures
        sum(
            f.n as nat,
            |e: int|
                entry(
                    x.lower(f.n).col(start_of(f.node_factors@, s) + a),
                    f.place(g),
                ).times_spec(x.d_at(start_of(f.node_factors@, s) + a, e)).times_spec(
                    entry(x.lower(f.n).col(e), f.place(h)),
                ),
        ) == sum(
            f.node_factors@[s].nelim as nat,
            |b: int|
                l_entry(f.node_factors@[s], g, a).times_spec(
                    f.node_factors@[s].frontal_factors.d_at(a, b),
                ).times_spec(l_entry(f.node_factors@[s], h, b)),
        ),
{
    let nodes = f.node_factors@;
    let node = nodes[s];
    let lo = start_of(nodes, s);
    let m = node.nelim as int;
    let n = f.n as nat;
    let e0 = lo + a;
    let zero = T::zero_spec();
    f.pivot_is(s, a);
    let left = entry(x.lower(f.n).col(e0), f.place(g));
    let full = |e: int|
        entry(x.lower(f.n).col(start_of(f.node_factors@, s) + a), f.place(g)).times_spec(
            x.d_at(start_of(f.node_factors@, s) + a, e),
        ).times_spec(entry(x.lower(f.n).col(e), f.place(h)));
    let part = |b: int|
        l_entry(f.node_factors@[s], g, a).times_spec(
            f.node_factors@[s].frontal_factors.d_at(a, b),
        ).times_spec(l_entry(f.node_factors@[s], h, b));
    assert forall|e: int| 0 <= e < n && !(lo <= e < lo + m) implies #[trigger] full(e) == zero by {
        assert(x.d_at(e0, e) == zero) by {
            if e == e0 + 1 {
                assert(a == m - 1);
                assert(f.is_exported(x, s, a));
            } else if e0 == e + 1 {
                assert(e == lo - 1);
                boundary_clean(f, x, s);
            }
        }
        let right = entry(x.lower(f.n).col(e), f.place(h));
        times_zero(left);
        T::times_comm(zero, right);
        times_zero(right);
    }
    assert forall|b: int| 0 <= b < m implies #[trigger] part(b) == full(lo + b) by {
        exported_entry(f, x, s, a, g);
        exported_entry(f, x, s, b, h);
        assert(f.is_exported(x, s, a));
        assert(f.is_exported(x, s, b));
        assert(x.d_at(e0, lo + b) == node.frontal_factors.d_at(a, b));
    }
    sum_window(n, lo as nat, m as nat, full, part);
}

/// The rows of the first `k` nodes add up to their products.
proof fn exported_upto<T: Field>(
    f: SparseFactors<T>,
    x: LdltExport<T>,
    g: int,
    h: int,
    k: nat,
    row: spec_fn(int) -> T,
)
    requires
        f.wf(),
        f.complete(),
        exports(f, x),
        ends_clean(f.node_factors@),
        k <= f.node_factors@.len(),
        0 <= g < f.n,
        0 <= h < f.n,
        row == (|e: int|
            sum(
                f.n as nat,
                |q: int|
                    entry(x.lower(f.n).col(e), f.place(g)).times_spec(x.d_at(e, q)).times_spec(
                        entry(x.lower(f.n).col(q), f.place(h)),
                    ),
            )),
    ensures
        sum(start_of(f.node_factors@, k as int) as nat, row) == sum(
            k,
            |s: int| node_term(f.node_factors@[s], g, h),
        ),
    decreases k,
{
    let nodes = f.node_factors@;
    if k > 0 {
        let t = (k - 1) as nat;
        let s = t as int;
        exported_upto(f, x, g, h, t, row);
        let lo = start_of(nodes, s);
        let node = nodes[s];
        let m = node.nelim as nat;
        assert(eliminated(nodes, k as int) == eliminated(nodes, s) + elim_of(node));
        assert(start_of(nodes, k as int) == lo + m);
        let part = |a: int|
            sum(
                m,
                |b: int|
                    l_entry(node, g, a).times_spec(node.frontal_factors.d_at(a, b)).times_spec(
                        l_entry(node, h, b),
                    ),
            );
        assert forall|a: int| 0 <= a < m implies #[trigger] part(a) == row(lo + a) by {
            exported_row(f, x, s, a, g, h);
            let u = |e: int|
                entry(x.lower(f.n).col(start_of(f.node_factors@, s) + a), f.place(g)).times_spec(
                    x.d_at(start_of(f.node_factors@, s) + a, e),
                ).times_spec(entry(x.lower(f.n).col(e), f.place(h)));
            let v = |q: int|
                entry(x.lower(f.n).col(lo + a), f.place(g)).times_spec(
                    x.d_at(lo + a, q),
                ).times_spec(entry(x.lower(f.n).col(q), f.place(h)));
            sum_ext(f.n as nat, u, v);
            let p = |b: int|
                l_entry(f.node_factors@[s], g, a).times_spec(
                    f.node_factors@[s].frontal_factors.d_at(a, b),
                ).times_spec(l_entry(f.node_factors@[s], h, b));
            let q = |b: int|
                l_entry(node, g, a).times_spec(node.frontal_factors.d_at(a, b)).times_spec(
                    l_entry(node, h, b),
                );
            sum_ext(m, p, q);
        }
        sum_split(lo as nat, m, row, part);
        let outer = |e: int|
            sum(
                node.nelim as nat,
                |f: int|
                    l_entry(node, g, e).times_spec(node.frontal_factors.d_at(e, f)).times_spec(
                        l_entry(node, h, f),
                    ),
            );
        assert forall|a: int| 0 <= a < m implies #[trigger] outer(a) == part(a) by {
            sum_ext(
                m,
                |f: int|
                    l_entry(node, g, a).times_spec(node.frontal_factors.d_at(a, f)).times_spec(
                        l_entry(node, h, f),
                    ),
                |b: int|
                    l_entry(node, g, a).times_spec(node.frontal_factors.d_at(a, b)).times_spec(
                        l_entry(node, h, b),
                    ),
            );
        }
        sum_ext(m, outer, part);
        assert(node_term(node, g, h) == sum(m, part));
    }
}

/// The exported product is the sum of the products of the nodes.
pub proof fn export_is_sum<T: Field>(f: SparseFactors<T>, x: LdltExport<T>, g: int, h: int)
    requires
        f.wf(),
        f.complete(),
        exports(f, x),
        ends_clean(f.node_factors@),
        0 <= g < f.n,
        0 <= h < f.n,
    ensures
        x.product_at(f.n, f.place(g), f.place(h)) == sum(
            f.node_factors@.len(),
            |s: int| node_term(f.node_factors@[s], g, h),
        ),
{
    let row = |e: int|
        sum(
            f.n as nat,
            |q: int|
                entry(x.lower(f.n).col(e), f.place(g)).times_spec(x.d_at(e, q)).times_spec(
                    entry(x.lower(f.n).col(q), f.place(h)),
                ),
        );
    exported_upto(f, x, g, h, f.node_factors@.len(), row);
    let outer = |e: int|
        sum(
            f.n as nat,
            |q: int|
                entry(x.lower(f.n).col(e), f.place(g)).times_spec(x.d_at(e, q)).times_spec(
                    entry(x.lower(f.n).col(q), f.place(h)),
                ),
        );
    sum_ext(f.n as nat, outer, row);
    assert forall|e: int| 0 <= e < f.n implies #[trigger] outer(e) == sum(
        f.n as nat,
        |c: int|
            entry(x.lower(f.n).col(e), f.place(g)).times_spec(x.d_at(e, c)).times_spec(
                entry(x.lower(f.n).col(c), f.place(h)),
            ),
    ) by {
        sum_ext(
            f.n as nat,
            |q: int|
                entry(x.lower(f.n).col(e), f.place(g)).times_spec(x.d_at(e, q)).times_spec(
                    entry(x.lower(f.n).col(q), f.place(h)),
                ),
            |c: int|
                entry(x.lower(f.n).col(e), f.place(g)).times_spec(x.d_at(e, c)).times_spec(
                    entry(x.lower(f.n).col(c), f.place(h)),
                ),
        );
    }
}

/// The permuted matrix holds the entries of the matrix.
proof fn permuted_entry<T: Field>(
    a: GeneralCsc<T>,
    matrix: GeneralCsc<T>,
    perm: Seq<usize>,
    pinv: Seq<usize>,
    u: int,
    v: int,
)
    requires
        matrix.wf(),
        is_lower(matrix),
        is_permutation(perm, matrix.n as int),
        inverse_of(pinv, perm),
        is_permutation(pinv, matrix.n as int),
        is_permuted(a, matrix, pinv),
        0 <= v <= u < matrix.n,
    ensures
        a.col(smaller_of(pinv[u], pinv[v]) as int).contains_key(
            larger_of(pinv[u], pinv[v]) as int,
        ) <==> matrix.col(v).contains_key(u),
        matrix.col(v).contains_key(u) ==> a.col(smaller_of(pinv[u], pinv[v]) as int)[larger_of(
            pinv[u],
            pinv[v],
        ) as int] == matrix.col(v)[u],
{
    let n = matrix.n as int;
    permutes_both_ways(perm, pinv, n);
    assert(pinv[u] < n && pinv[v] < n);
    let hi = larger_of(pinv[u], pinv[v]) as int;
    let lo = smaller_of(pinv[u], pinv[v]) as int;
    exact_matrices_keep_values(matrix);
    permuting_moves_entries(a, matrix, perm, pinv, hi, lo);
    assert(perm[pinv[u] as int] == u);
    assert(perm[pinv[v] as int] == v);
}

/// The pattern of the analysis holds every entry of the matrix.
pub open spec fn pattern_holds<T>(sym: SymbolicFactorization, matrix: GeneralCsc<T>) -> bool {
    forall|v: int, u: int|
        0 <= v < matrix.n && #[trigger] matrix.col(v).contains_key(u) ==> occurs(
            sym.permuted_pattern.rows_of(
                smaller_of(sym.perm_inv@[u], sym.perm_inv@[v]) as int,
            ),
            larger_of(sym.perm_inv@[u], sym.perm_inv@[v]) as int,
        )
}

/// The entry of the scaled matrix, before and after the permutation.
proof fn scaled_entry_permuted<T: Field>(
    a: GeneralCsc<T>,
    sp: Seq<T>,
    matrix: GeneralCsc<T>,
    scaling: Seq<T>,
    perm: Seq<usize>,
    pinv: Seq<usize>,
    g: int,
    h: int,
)
    requires
        matrix.wf(),
        is_lower(matrix),
        is_permutation(perm, matrix.n as int),
        inverse_of(pinv, perm),
        is_permutation(pinv, matrix.n as int),
        is_permuted(a, matrix, pinv),
        sp == pivot_order(scaling, perm),
        0 <= g < matrix.n,
        0 <= h < matrix.n,
    ensures
        scaled_entry(a, sp, g, h) == scaled_entry(
            matrix,
            scaling,
            perm[g] as int,
            perm[h] as int,
        ),
{
    let i = perm[g] as int;
    let j = perm[h] as int;
    assert(pinv[perm[g] as int] == g);
    assert(pinv[perm[h] as int] == h);
    assert(perm[g] < matrix.n && perm[h] < matrix.n);
    let u = if i < j {
        j
    } else {
        i
    };
    let v = if i < j {
        i
    } else {
        j
    };
    permuted_entry(a, matrix, perm, pinv, u, v);
    if matrix.col(v).contains_key(u) {
        let x = matrix.col(v)[u];
        let su = scaling[u];
        let sv = scaling[v];
        // x su sv == x sv su
        T::times_assoc(x, su, sv);
        T::times_comm(su, sv);
        T::times_assoc(x, sv, su);
    }
}

/// A pattern that holds every entry of the matrix holds those of the permuted
/// one.
proof fn pattern_kept<T: Scalar>(
    sym: SymbolicFactorization,
    matrix: GeneralCsc<T>,
    a: GeneralCsc<T>,
)
    requires
        matrix.wf(),
        sym.wf(),
        matrix.n == sym.n,
        is_permuted(a, matrix, sym.perm_inv@),
        pattern_holds(sym, matrix),
    ensures
        pattern_covers(sym, a),
{
    assert forall|c: int, r: int|
        0 <= c < a.n && a.col(c).contains_key(r) implies #[trigger] occurs(
        sym.permuted_pattern.rows_of(c),
        r,
    ) by {
        let cp = matrix.col_ptr@;
        let ri = matrix.row_idx@;
        let n = matrix.n as int;
        let rows = lower_rows(cp, ri, sym.perm_inv@, n);
        let cols = lower_cols(cp, ri, sym.perm_inv@, n);
        assert(hit(rows, cols, r, c, rows.len() as int));
        let p = choose|p: int| 0 <= p < rows.len() && #[trigger] rows[p] == r && cols[p] == c;
        assert(below(ri, n));
        landing_bounds(cp, ri, sym.perm_inv@, n, n);
        let v = column_exists(cp, n, p);
        let q = p - cp[v];
        column_range(matrix, v);
        landing_of(cp, ri, sym.perm_inv@, n, n, v, p);
        col_map_at(matrix.rows_of(v), matrix.vals_of(v), q);
        assert(matrix.col(v).contains_key(matrix.rows_of(v)[q] as int));
    }
}

/// The exported factors reconstruct the matrix: entry `(i, j)` of `L D L^T`, in
/// factorization order, is the entry of `diag(s) A diag(s)` in the rows
/// `perm[i]` and `perm[j]`. It holds in exact arithmetic, for a kernel that
/// splits its fronts exactly, along an elimination tree whose pattern holds
/// every entry.
pub proof fn export_reconstructs<T: Field, K: FrontKernel<T>>(
    matrix: GeneralCsc<T>,
    scaling: Seq<T>,
    sym: SymbolicFactorization,
    params: NumericParams<T::Real>,
    kernel: K,
    batch: bool,
    f: SparseFactors<T>,
    inertia: Inertia,
    x: LdltExport<T>,
    i: int,
    j: int,
)
    requires
        inputs_ok(matrix, scaling, sym),
        is_lower(matrix),
        params.small_leaf == SmallLeafBatch::On && sym.small_leaf_groups@.len() > 0 ==> groups_ok(
            sym,
        ),
        tree_regular(sym.supernodes@),
        tree_closed(sym),
        pattern_holds(sym, matrix),
        exact_kernel::<T, K>(kernel),
        is_factorization(matrix, scaling, sym, params, kernel, batch, f, inertia),
        f.wf(),
        f.complete(),
        exports(f, x),
        0 <= i < f.n,
        0 <= j < f.n,
    ensures
        x.product_at(f.n, i, j) == scaled_entry(
            matrix,
            scaling,
            x.perm@[i] as int,
            x.perm@[j] as int,
        ),
{
    crate::multifrontal::fronts::diagonal_kernel_is_exact::<T>();
    let t = choose|t: Trail<T>| #[trigger]
        factored(matrix, scaling, sym, params, kernel, batch, t, f, inertia);
    let job = job_of(&sym, &t.a, &t.sp, &t.p);
    let nodes = f.node_factors@;
    let nvs = no_tails(sym.supernodes@.len() as int);
    let cs = t.cs@;
    assert(job.wf());
    assert(t.p.small_leaf == params.small_leaf);
    assert(tree_ready(job, batch, nvs));
    assert(whole_tree(job, kernel, batch, nvs, nodes, cs));
    pattern_kept(sym, matrix, t.a);
    assert forall|s: int|
        0 <= s < nodes.len() && (#[trigger] nodes[s]).nelim > 0 implies
        nodes[s].frontal_factors.d_subdiag@[nodes[s].nelim - 1] == T::zero_spec() by {
        let (order, ff) = node_facts(job, kernel, batch, nvs, nodes, cs, s);
        assert(!job.is_void(s));
        let rows = nodes[s].row_indices@;
        assert(is_exact(front_of(job, s, cs, false, rows), ff));
    }
    let g = f.pivots()[i] as int;
    let h = f.pivots()[j] as int;
    assert(f.pivots()[i] < f.n && f.pivots()[j] < f.n);
    f.place_of_pivot(i);
    f.place_of_pivot(j);
    export_is_sum(f, x, g, h);
    products_add_up(job, kernel, batch, nvs, nodes, cs, g, h);
    scaled_entry_permuted(t.a, t.sp@, matrix, scaling, sym.perm@, sym.perm_inv@, g, h);
    exported_perm(f, x, i, f.node_factors@.len() as int);
    exported_perm(f, x, j, f.node_factors@.len() as int);
}

/// The exported permutation leads from pivots to rows of the matrix.
proof fn exported_perm<T: Scalar>(f: SparseFactors<T>, x: LdltExport<T>, e: int, k: int)
    requires
        f.wf(),
        exports(f, x),
        0 <= k <= f.node_factors@.len(),
        0 <= e < start_of(f.node_factors@, k),
    ensures
        x.perm@[e] == f.perm@[f.pivots()[e] as int],
    decreases k,
{
    let nodes = f.node_factors@;
    assert(eliminated(nodes, k) == eliminated(nodes, k - 1) + elim_of(nodes[k - 1]));
    let lo = start_of(nodes, k - 1);
    if e < lo {
        exported_perm(f, x, e, k - 1);
    } else {
        assert(f.is_exported(x, k - 1, e - lo));
        f.pivot_is(k - 1, e - lo);
    }
}

/// The Schur complement completes the factors: on the uneliminated rows, what
/// the pivots give back plus the Schur block is the entry of
/// `diag(s) A diag(s)`. It holds in exact arithmetic, for a kernel that splits
/// its fronts exactly, along an elimination tree whose pattern holds every entry.
pub proof fn schur_block_completes<T: Field, K: FrontKernel<T>>(
    matrix: GeneralCsc<T>,
    scaling: Seq<T>,
    sym: SymbolicFactorization,
    params: NumericParams<T::Real>,
    kernel: K,
    f: SparseFactors<T>,
    inertia: Inertia,
    schur: SchurBlock<T>,
    i: int,
    j: int,
)
    requires
        inputs_ok(matrix, scaling, sym),
        is_lower(matrix),
        tail_fits(sym),
        sym.is_schur_tail->0 <= sym.n,
        tree_regular(sym.supernodes@),
        tree_closed(sym),
        pattern_holds(sym, matrix),
        exact_kernel::<T, K>(kernel),
        is_partial_factorization(matrix, scaling, sym, params, kernel, f, inertia, schur),
        0 <= i < schur.dim,
        0 <= j < schur.dim,
    ensures
        ({
            let g = f.n - schur.dim + i;
            let h = f.n - schur.dim + j;
            sum(f.node_factors@.len(), |s: int| node_term(f.node_factors@[s], g, h)).plus_spec(
                schur.data@[column_start(schur.dim as int, j) + i],
            ) == scaled_entry(matrix, scaling, f.perm@[g] as int, f.perm@[h] as int)
        }),
{
    let t = choose|t: Trail<T>| #[trigger]
        partly_factored(matrix, scaling, sym, params, kernel, t, f, inertia, schur);
    let job = job_of(&sym, &t.a, &t.sp, &t.p);
    let nodes = f.node_factors@;
    let k = sym.is_schur_tail->0 as int;
    let sn = sym.supernodes@;
    let nvs = tail_shares(sn, sym.n as int, k);
    let cs = t.cs@;
    let last = sn.len() - 1;
    assert(job.wf());
    assert forall|s: int| 0 <= s < nvs.len() - 1 implies #[trigger] nvs[s] == 0 by {
        tail_is_last(sym, s);
    }
    assert forall|s: int| 0 <= s < nvs.len() implies #[trigger] nvs[s] <= sn[s].ncol by {
        crate::multifrontal::model::run_ends(sn, sym.n as int, s);
    }
    assert(tree_ready(job, false, nvs));
    assert(whole_tree(job, kernel, false, nvs, nodes, cs));
    pattern_kept(sym, matrix, t.a);
    let g = f.n - schur.dim + i;
    let h = f.n - schur.dim + j;
    products_add_up(job, kernel, false, nvs, nodes, cs, g, h);
    scaled_entry_permuted(t.a, t.sp@, matrix, scaling, sym.perm@, sym.perm_inv@, g, h);
    let b = cs[last]->0;
    let br = b.row_indices@;
    let (order, ff) = node_facts(job, kernel, false, nvs, nodes, cs, last);
    let rows = nodes[last].row_indices@;
    pivot_rows_same(nodes[last], g);
    assert(distinct(br)) by {
        let prow = pivot_rows(nodes[last]);
        assert forall|x: int, y: int| 0 <= x < y < br.len() implies #[trigger] br[x]
            != #[trigger] br[y] by {
            assert(br[x] == prow[ff.nelim + x]);
            assert(br[y] == prow[ff.nelim + y]);
        }
    }
    assert(br[i] == g && br[j] == h);
    place_is(br, i);
    place_is(br, j);
    position_splits(k, i, j);
    column_bounds(k, j, k);
    assert(schur.data@[column_start(k, j) + i] == b.data@[cell(b.dim as int, i, j)]);
}

/// The factors of the dense path reconstruct the matrix likewise.
pub proof fn dense_export_reconstructs<T: Field, K: FrontKernel<T>>(
    matrix: GeneralCsc<T>,
    scaling: Seq<T>,
    params: NumericParams<T::Real>,
    kernel: K,
    f: SparseFactors<T>,
    inertia: Inertia,
    x: LdltExport<T>,
    i: int,
    j: int,
)
    requires
        matrix.wf(),
        is_lower(matrix),
        exact_kernel::<T, K>(kernel),
        is_dense_factorization(matrix, scaling, params, kernel, f, inertia),
        f.wf(),
        f.complete(),
        exports(f, x),
        0 <= i < f.n,
        0 <= j < f.n,
    ensures
        x.product_at(f.n, i, j) == scaled_entry(
            matrix,
            scaling,
            x.perm@[i] as int,
            x.perm@[j] as int,
        ),
{
    crate::multifrontal::fronts::diagonal_kernel_is_exact::<T>();
    let n = f.n as int;
    let nodes = f.node_factors@;
    let node = nodes[0];
    let ff = node.frontal_factors;
    let front = dense_front(matrix, scaling);
    assert(is_exact(front, ff));
    assert(ends_clean(nodes));
    let g = f.pivots()[i] as int;
    let h = f.pivots()[j] as int;
    assert(f.pivots()[i] < f.n && f.pivots()[j] < f.n);
    f.place_of_pivot(i);
    f.place_of_pivot(j);
    export_is_sum(f, x, g, h);
    let terms = |s: int| node_term(nodes[s], g, h);
    assert(sum(1, terms) == sum(0, terms).plus_spec(terms(0)));
    zero_plus(terms(0));
    exported_perm(f, x, i, 1);
    exported_perm(f, x, j, 1);
    assert(node.row_indices@[g] == g && node.row_indices@[h] == h);
    assert(node_ok(node, n));
    pivot_rows_same(node, g);
    pivot_rows_same(node, h);
    let prow = pivot_rows(node);
    let a = position(prow, g);
    let b = position(prow, h);
    assert(prow[a] == g && prow[b] == h);
    assert(ff.perm@[a] < n && ff.perm@[b] < n);
    assert(ff.perm@[a] == g && ff.perm@[b] == h);
    term_is_product(node, g, h);
    product_symmetric(ff, a, b);
    let p = ff.product_at(a, b);
    T::plus_zero(p);
    assert(ff.rest_at(a, b) == T::zero_spec() && ff.rest_at(b, a) == T::zero_spec());
    assert(front[cell(n, g, h)] == p) by {
        if b <= a {
            assert(ff.product_at(a, b) == p);
        } else {
            assert(ff.product_at(b, a) == p);
            assert(cell(n, h, g) == cell(n, g, h));
        }
    }
    cells_from_front(n, |i: int, j: int| scaled_at(matrix, scaling, i, j));
    let hi = if g < h {
        h
    } else {
        g
    };
    let lo = if g < h {
        g
    } else {
        h
    };
    assert(front[cell(n, hi, lo)] == scaled_at(matrix, scaling, hi, lo));
    let v = matrix.at(hi, lo);
    T::times_assoc(v, scaling[hi], scaling[lo]);
    if !matrix.col(lo).contains_key(hi) {
        times_zero(scaling[hi].times_spec(scaling[lo]));
    }
}

/// The inertia of a complete factorization counts every column of the matrix
/// once.
pub proof fn inertia_covers_every_column<T: Scalar>(f: SparseFactors<T>, inertia: Inertia)
    requires
        f.wf(),
        f.complete(),
        counts(inertia, f.node_factors@),
    ensures
        inertia.count() == f.n,
{
    inertia_counts(f.node_factors@, f.n as int, f.node_factors@.len() as int);
}

} // verus!
