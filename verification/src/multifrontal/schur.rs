//! Leaving a tail of columns uneliminated: the Schur complement on them.

use crate::error::RslabError;
use crate::flat::{column_bounds, column_start, position_splits};
use crate::multifrontal::driver::{factor_tree, node_done, tree_done, tree_ready, tree_refused};
use crate::multifrontal::factorize::{
    counts, inputs_ok, prepare, reset_map, wrap_nodes, wraps, FactorWorkspace, NoClock, Trail,
};
use crate::multifrontal::factors::{made_is_ok, SparseFactors};
use crate::multifrontal::kernel::{cell, FrontKernel, FrontalFactors, Inertia};
use crate::multifrontal::model::{
    delayed_in, front_rows_distinct, kids_ok, last_col, own_start, run_ends, runs_ordered,
    ContribBlock,
};
use crate::multifrontal::node::{made_from, FrontJob, NodeFactors};
use crate::multifrontal::params::NumericParams;
use crate::multifrontal::profile::SupernodeTiming;
use crate::multifrontal::tree::{Supernode, SymbolicFactorization};
use crate::scalar::Scalar;
use crate::seqs::below;
use crate::sparse::GeneralCsc;
use vstd::prelude::*;

verus! {

/// The Schur complement on the uneliminated columns, both triangles, by columns.
#[derive(Debug, Clone)]
pub struct SchurBlock<T> {
    pub dim: usize,
    pub data: Vec<T>,
}

/// Entry `i` of the product of the first `j` columns with `x`.
pub open spec fn block_product<T: Scalar>(data: Seq<T>, dim: int, x: Seq<T>, i: int, j: int) -> T
    decreases j,
{
    if j <= 0 {
        T::zero_spec()
    } else {
        block_product(data, dim, x, i, j - 1).plus_spec(
            data[column_start(dim, j - 1) + i].times_spec(x[j - 1]),
        )
    }
}

impl<T: Scalar> SchurBlock<T> {
    pub open spec fn wf(&self) -> bool {
        self.data@.len() == self.dim * self.dim
    }

    /// Entry `(i, j)`.
    pub fn get(&self, i: usize, j: usize) -> (r: T)
        requires
            self.wf(),
            i < self.dim,
            j < self.dim,
        ensures
            r == self.data@[column_start(self.dim as int, j as int) + i],
    {
        let size: usize = self.data.len();
        proof {
            column_bounds(self.dim as int, j as int, self.dim as int);
        }
        self.data[self.dim * j + i]
    }

    /// `y = S x`.
    pub fn symv(&self, x: &[T], y: &mut Vec<T>) -> (r: Result<(), RslabError>)
        requires
            self.wf(),
        ensures
            r is Ok <==> x@.len() == self.dim && old(y)@.len() == self.dim,
            r is Ok ==> final(y)@ == Seq::new(
                self.dim as nat,
                |i: int| block_product(self.data@, self.dim as int, x@, i, self.dim as int),
            ),
            r matches Err(e) ==> final(y)@ == old(y)@ && e == (RslabError::DimensionMismatch {
                expected: self.dim,
                got: (if x@.len() >= old(y)@.len() {
                    x@.len()
                } else {
                    old(y)@.len()
                }) as usize,
            }),
    {
        let dim: usize = self.dim;
        if x.len() != dim || y.len() != dim {
            let got: usize = if x.len() >= y.len() {
                x.len()
            } else {
                y.len()
            };
            return Err(RslabError::DimensionMismatch { expected: dim, got });
        }
        let size: usize = self.data.len();
        let ghost d = dim as int;
        let mut i: usize = 0;
        while i < dim
            invariant
                i <= dim,
                y@.len() == dim,
                forall|q: int| 0 <= q < i ==> #[trigger] y@[q] == T::zero_spec(),
            decreases dim - i,
        {
            y.set(i, T::zero());
            i = i + 1;
        }
        let mut j: usize = 0;
        while j < dim
            invariant
                j <= dim,
                d == dim,
                dim == self.dim,
                size == self.data@.len(),
                size == d * d,
                x@.len() == dim,
                y@.len() == dim,
                forall|q: int|
                    0 <= q < dim ==> #[trigger] y@[q] == block_product(
                        self.data@,
                        d,
                        x@,
                        q,
                        j as int,
                    ),
            decreases dim - j,
        {
            proof {
                column_bounds(d, j as int, d);
            }
            let base: usize = dim * j;
            let mut i: usize = 0;
            while i < dim
                invariant
                    i <= dim,
                    j < dim,
                    d == dim,
                    size == self.data@.len(),
                    base == column_start(d, j as int),
                    base + dim <= size,
                    x@.len() == dim,
                    y@.len() == dim,
                    forall|q: int|
                        0 <= q < dim ==> #[trigger] y@[q] == block_product(
                            self.data@,
                            d,
                            x@,
                            q,
                            j + (if q < i {
                                1int
                            } else {
                                0int
                            }),
                        ),
                decreases dim - i,
            {
                let v = y[i].plus(self.data[base + i].times(x[j]));
                y.set(i, v);
                i = i + 1;
            }
            j = j + 1;
        }
        assert(y@ =~= Seq::new(
            self.dim as nat,
            |i: int| block_product(self.data@, self.dim as int, x@, i, self.dim as int),
        ));
        Ok(())
    }
}

/// How many columns of supernode `s` belong to the last `k`.
pub open spec fn tail_share(sn: Seq<Supernode>, n: int, k: int, s: int) -> int {
    let lo = if sn[s].first_col >= n - k {
        sn[s].first_col as int
    } else {
        n - k
    };
    if last_col(sn, s) > lo {
        last_col(sn, s) - lo
    } else {
        0
    }
}

/// The shares of all supernodes.
pub open spec fn tail_shares(sn: Seq<Supernode>, n: int, k: int) -> Seq<usize> {
    Seq::new(sn.len(), |s: int| tail_share(sn, n, k, s) as usize)
}

fn count_tails(sym: &SymbolicFactorization, k: usize) -> (r: Vec<usize>)
    requires
        sym.wf(),
        k <= sym.n,
    ensures
        r@ == tail_shares(sym.supernodes@, sym.n as int, k as int),
{
    let ghost sn = sym.supernodes@;
    let n: usize = sym.n;
    let from: usize = n - k;
    let len: usize = sym.supernodes.len();
    let mut r: Vec<usize> = Vec::new();
    let mut s: usize = 0;
    while s < len
        invariant
            s <= len,
            len == sn.len(),
            sn == sym.supernodes@,
            sym.wf(),
            n == sym.n,
            k <= n,
            from == n - k,
            r@.len() == s,
            forall|q: int| 0 <= q < s ==> #[trigger] r@[q] == tail_share(sn, n as int, k as int, q),
        decreases len - s,
    {
        proof {
            run_ends(sn, n as int, s as int);
        }
        let first: usize = sym.supernodes[s].first_col;
        let last: usize = first + sym.supernodes[s].ncol;
        let lo: usize = if first >= from {
            first
        } else {
            from
        };
        let share: usize = if last > lo {
            last - lo
        } else {
            0
        };
        r.push(share);
        s = s + 1;
    }
    assert(r@ =~= tail_shares(sn, n as int, k as int));
    r
}

/// The leading `k` rows and columns of a contribution, both triangles.
pub open spec fn mirrored<T>(b: ContribBlock<T>, k: int) -> Seq<T> {
    Seq::new((k * k) as nat, |p: int| b.data@[cell(b.dim as int, p % k, p / k)])
}

fn mirror<T: Copy>(b: &ContribBlock<T>, k: usize) -> (r: Vec<T>)
    requires
        k <= b.dim,
        b.data@.len() == b.dim * b.dim,
    ensures
        r@ == mirrored(*b, k as int),
        r@.len() == k * k,
{
    let dim: usize = b.dim;
    let size: usize = b.data.len();
    let ghost kk = k as int;
    let ghost d = dim as int;
    let mut r: Vec<T> = Vec::new();
    proof {
        assert(kk * 0 == 0);
        assert(0 <= kk * kk) by (nonlinear_arith)
            requires
                0 <= kk,
        ;
    }
    let mut j: usize = 0;
    while j < k
        invariant
            j <= k <= dim,
            kk == k,
            d == dim,
            dim == b.dim,
            size == b.data@.len(),
            size == d * d,
            r@.len() == column_start(kk, j as int),
            forall|p: int| 0 <= p < r@.len() ==> #[trigger] r@[p] == mirrored(*b, kk)[p],
        decreases k - j,
    {
        let ghost base = column_start(kk, j as int);
        proof {
            column_bounds(kk, j as int, kk);
        }
        let mut i: usize = 0;
        while i < k
            invariant
                i <= k <= dim,
                j < k,
                kk == k,
                d == dim,
                dim == b.dim,
                size == b.data@.len(),
                size == d * d,
                base == column_start(kk, j as int),
                r@.len() == base + i,
                forall|p: int| 0 <= p < r@.len() ==> #[trigger] r@[p] == mirrored(*b, kk)[p],
            decreases k - i,
        {
            proof {
                column_bounds(d, i as int, d);
                column_bounds(d, j as int, d);
                column_bounds(kk, j as int, kk);
                position_splits(kk, i as int, j as int);
            }
            let v = if i >= j {
                b.data[dim * j + i]
            } else {
                b.data[dim * i + j]
            };
            r.push(v);
            i = i + 1;
        }
        j = j + 1;
    }
    assert(r@ =~= mirrored(*b, kk));
    r
}

/// The tail lies in one supernode, the last.
pub open spec fn tail_fits(sym: SymbolicFactorization) -> bool {
    &&& sym.is_schur_tail is Some
    &&& sym.is_schur_tail->0 > 0
    &&& sym.supernodes@.len() > 0
    &&& tail_share(
        sym.supernodes@,
        sym.n as int,
        sym.is_schur_tail->0 as int,
        sym.supernodes@.len() - 1,
    ) == sym.is_schur_tail->0
}

/// The tail lies in the last supernode alone.
pub proof fn tail_is_last(sym: SymbolicFactorization, s: int)
    requires
        sym.wf(),
        tail_fits(sym),
        sym.is_schur_tail->0 <= sym.n,
        0 <= s < sym.supernodes@.len() - 1,
    ensures
        tail_share(sym.supernodes@, sym.n as int, sym.is_schur_tail->0 as int, s) == 0,
{
    runs_ordered(sym.supernodes@, sym.n as int, s, sym.supernodes@.len() - 1);
}

/// The outcome of a factorization that leaves a tail.
pub open spec fn is_partial_factorization<T: Scalar, K: FrontKernel<T>>(
    matrix: GeneralCsc<T>,
    scaling: Seq<T>,
    sym: SymbolicFactorization,
    params: NumericParams<T::Real>,
    kernel: K,
    f: SparseFactors<T>,
    i: Inertia,
    schur: SchurBlock<T>,
) -> bool {
    exists|t: Trail<T>| #[trigger]
        partly_factored(matrix, scaling, sym, params, kernel, t, f, i, schur)
}

/// The factors, the inertia of the eliminated part and the Schur complement come
/// from the matrix by this trail; the rows of the complement are the tail.
pub open spec fn partly_factored<T: Scalar, K: FrontKernel<T>>(
    matrix: GeneralCsc<T>,
    scaling: Seq<T>,
    sym: SymbolicFactorization,
    params: NumericParams<T::Real>,
    kernel: K,
    t: Trail<T>,
    f: SparseFactors<T>,
    i: Inertia,
    schur: SchurBlock<T>,
) -> bool {
    let k = sym.is_schur_tail->0 as int;
    let last = sym.supernodes@.len() - 1;
    &&& t.starts(matrix, scaling, sym)
    &&& t.p == params
    &&& t.leads(
        sym,
        kernel,
        false,
        tail_shares(sym.supernodes@, sym.n as int, k),
        f.node_factors@,
    )
    &&& wraps(f, sym, scaling, f.node_factors@)
    &&& counts(i, f.node_factors@)
    &&& schur.dim == k
    &&& t.cs@[last] is Some
    &&& schur.data@ == mirrored(t.cs@[last]->0, k)
    &&& k <= t.cs@[last]->0.dim
    &&& forall|c: int| 0 <= c < k ==> #[trigger] t.cs@[last]->0.row_indices@[c] == sym.n - k + c
}

/// Why a factorization that leaves a tail breaks off.
pub open spec fn partly_refused<T: Scalar, K: FrontKernel<T>>(
    matrix: GeneralCsc<T>,
    scaling: Seq<T>,
    sym: SymbolicFactorization,
    params: NumericParams<T::Real>,
    kernel: K,
    t: Trail<T>,
    nodes: Seq<NodeFactors<T>>,
    s: int,
    e: RslabError,
) -> bool {
    &&& t.starts(matrix, scaling, sym)
    &&& t.p == params
    &&& t.breaks(
        sym,
        kernel,
        false,
        true,
        tail_shares(sym.supernodes@, sym.n as int, sym.is_schur_tail->0 as int),
        nodes,
        s,
        e,
    )
}

/// The tree is factored, but its last supernode has no rows and hands nothing
/// over.
pub open spec fn tail_is_void<T: Scalar, K: FrontKernel<T>>(
    matrix: GeneralCsc<T>,
    scaling: Seq<T>,
    sym: SymbolicFactorization,
    params: NumericParams<T::Real>,
    kernel: K,
    t: Trail<T>,
    nodes: Seq<NodeFactors<T>>,
) -> bool {
    &&& t.starts(matrix, scaling, sym)
    &&& t.p == params
    &&& t.leads(
        sym,
        kernel,
        false,
        tail_shares(sym.supernodes@, sym.n as int, sym.is_schur_tail->0 as int),
        nodes,
    )
    &&& sym.supernodes@[sym.supernodes@.len() - 1].nrow == 0
}

/// The Schur columns come first in what the last supernode hands over.
proof fn tail_comes_first<T: Scalar, K: FrontKernel<T>>(
    job: FrontJob<T>,
    kernel: K,
    nvs: Seq<usize>,
    nodes: Seq<NodeFactors<T>>,
    cs: Seq<Option<ContribBlock<T>>>,
    k: int,
)
    requires
        tree_ready(job, false, nvs),
        tree_done(job, kernel, false, nvs, nodes, cs),
        crate::multifrontal::factors::all_handed_ok(job.sn(), job.sym.n as int, nvs, cs),
        job.sn().len() > 0,
        nvs[job.sn().len() - 1] == k,
        0 < k,
        !job.is_void(job.sn().len() - 1),
    ensures
        cs[job.sn().len() - 1] is Some,
        k <= cs[job.sn().len() - 1]->0.dim,
        cs[job.sn().len() - 1]->0.data@.len() == cs[job.sn().len() - 1]->0.dim
            * cs[job.sn().len() - 1]->0.dim,
        forall|c: int|
            0 <= c < k ==> #[trigger] cs[job.sn().len() - 1]->0.row_indices@[c] == job.sym.n - k + c,
{
    let sn = job.sn();
    let n = job.sym.n as int;
    let s = sn.len() - 1;
    assert(crate::multifrontal::order::handed_ok(sn, n, cs, s));
    let order = made_is_ok(job, kernel, false, nvs, nodes, cs, s);
    let node = nodes[s];
    let ff = choose|ff: FrontalFactors<T>| #[trigger]
        made_from(job, kernel, s, cs, k, order, ff, node, cs[s]);
    let rows = node.row_indices@;
    let kids = sn[s].children@;
    assert(below(sn[s].children@, s));
    assert(kids_ok(sn, n, s, cs, kids.len() as int)) by {
        assert forall|q: int| 0 <= q < kids.len() implies (cs[#[trigger] kids[q] as int] matches Some(b)
            ==> crate::multifrontal::model::contrib_ok(sn, n, kids[q] as int, b)) by {
            assert(kids[q] < s);
        }
    }
    let del = delayed_in(*job.sym, s, cs);
    let swapped = k > 0 && del > 0;
    front_rows_distinct(*job.sym, s, cs, swapped, rows);
    crate::multifrontal::driver::last_is_unconsumed(sn);
    crate::multifrontal::factors::no_parent_is_root(sn, s);
    assert(ff.n_delayed == 0);
    assert(ff.nelim == order.0);
    assert(nvs[s] <= sn[s].ncol);
    let b = cs[s]->0;
    let olo = own_start(*job.sym, s, cs, swapped);
    assert forall|c: int| 0 <= c < k implies #[trigger] b.row_indices@[c] == n - k + c by {
        let p = order.0 + c;
        assert(ff.perm@[p] == p);
        assert(b.row_indices@[c] == rows[p]);
        assert(olo <= p < olo + sn[s].ncol);
        assert(rows[p] == sn[s].first_col + p - olo);
    }
}

/// Factor a sparse symmetric matrix but for a tail of columns, and return the
/// Schur complement on them, in their order. The inertia is that of the
/// eliminated part. The tail must lie in the last supernode.
pub fn factorize_multifrontal_with_schur<T: Scalar, K: FrontKernel<T>>(
    matrix: &GeneralCsc<T>,
    scaling: &[T],
    symbolic: &SymbolicFactorization,
    params: &NumericParams<T::Real>,
    kernel: &K,
) -> (r: Result<(SparseFactors<T>, Inertia, SchurBlock<T>), RslabError>)
    requires
        inputs_ok(*matrix, scaling@, *symbolic),
        symbolic.is_schur_tail matches Some(k) ==> k <= symbolic.n,
    ensures
        r matches Ok(x) ==> tail_fits(*symbolic),
        r matches Ok(x) ==> x.0.wf() && x.2.wf(),
        r matches Ok(x) ==> is_partial_factorization(
            *matrix,
            scaling@,
            *symbolic,
            *params,
            *kernel,
            x.0,
            x.1,
            x.2,
        ),
        r matches Err(e) ==> if !tail_fits(*symbolic) {
            e is InvalidInput
        } else {
            ||| e is InvalidInput && exists|t: Trail<T>, nodes: Seq<NodeFactors<T>>| #[trigger]
                tail_is_void(*matrix, scaling@, *symbolic, *params, *kernel, t, nodes)
            ||| exists|t: Trail<T>, nodes: Seq<NodeFactors<T>>, s: int| #[trigger]
                partly_refused(*matrix, scaling@, *symbolic, *params, *kernel, t, nodes, s, e)
        },
{
    let k: usize = match symbolic.is_schur_tail {
        Some(k) => k,
        None => {
            return Err(RslabError::InvalidInput("schur: the analysis has no tail"));
        },
    };
    if k == 0 {
        return Err(RslabError::InvalidInput("schur: the tail is empty"));
    }
    let len: usize = symbolic.supernodes.len();
    if len == 0 {
        return Err(RslabError::InvalidInput("schur: the analysis has no supernodes"));
    }
    let nvs = count_tails(symbolic, k);
    proof {
        run_ends(symbolic.supernodes@, symbolic.n as int, len - 1);
    }
    if nvs[len - 1] != k {
        return Err(RslabError::InvalidInput("schur: the tail must lie in the last supernode"));
    }
    let mut ws = FactorWorkspace::new();
    reset_map(&mut ws.row_map, symbolic.n);
    let (a, sp) = prepare(
        matrix,
        scaling,
        symbolic,
        None::<&NoClock>,
        params.pattern_reused_hint,
        &mut ws.permute_cache,
    );
    let job = FrontJob { sym: symbolic, a: &a, scaling: &sp, params };
    proof {
        let sn = symbolic.supernodes@;
        assert forall|s: int| 0 <= s < nvs@.len() implies #[trigger] nvs@[s] <= sn[s].ncol by {
            run_ends(sn, symbolic.n as int, s);
        }
        assert forall|s: int| 0 <= s < nvs@.len() - 1 implies #[trigger] nvs@[s] == 0 by {
            tail_is_last(*symbolic, s);
        }
    }
    let mut times: Vec<SupernodeTiming> = Vec::new();
    match factor_tree(
        &job,
        kernel,
        false,
        &nvs,
        &mut ws.row_map,
        None::<&NoClock>,
        &mut times,
    ) {
        Ok((nodes, last, handed)) => {
            let ghost cs = handed@;
            let ghost ns = nodes@;
            let block = match last {
                Some(b) => b,
                None => {
                    proof {
                        if !job.is_void(len - 1) {
                            tail_comes_first(job, *kernel, nvs@, ns, cs, k as int);
                        }
                        let t = Trail { a, sp, p: *params, cs: Ghost(cs) };
                        assert(tail_is_void(
                            *matrix,
                            scaling@,
                            *symbolic,
                            *params,
                            *kernel,
                            t,
                            ns,
                        ));
                    }
                    return Err(RslabError::InvalidInput("schur: nothing was handed over"));
                },
            };
            proof {
                assert(node_done(
                    job,
                    *kernel,
                    false,
                    len - 1,
                    cs,
                    nvs@[len - 1] as int,
                    ns[len - 1],
                ));
                tail_comes_first(job, *kernel, nvs@, ns, cs, k as int);
            }
            let ghost t = Trail { a, sp, p: *params, cs: Ghost(cs) };
            let data = mirror(&block, k);
            let (f, i) = wrap_nodes::<T, K>(
                &job,
                scaling,
                nodes,
                Ghost(*kernel),
                Ghost(false),
                Ghost(nvs@),
                Ghost(cs),
            );
            let schur = SchurBlock { dim: k, data };
            assert(partly_factored(
                *matrix,
                scaling@,
                *symbolic,
                *params,
                *kernel,
                t,
                f,
                i,
                schur,
            ));
            Ok((f, i, schur))
        },
        Err(e) => {
            proof {
                let (nodes, cs, s) = choose|
                    nodes: Seq<NodeFactors<T>>,
                    cs: Seq<Option<ContribBlock<T>>>,
                    s: int,
                | #[trigger]
                    tree_refused(job, *kernel, false, true, nvs@, nodes, cs, s, e);
                let t = Trail { a, sp, p: *params, cs: Ghost(cs) };
                assert(partly_refused(
                    *matrix,
                    scaling@,
                    *symbolic,
                    *params,
                    *kernel,
                    t,
                    nodes,
                    s,
                    e,
                ));
            }
            Err(e)
        },
    }
}

} // verus!
