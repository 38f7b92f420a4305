//! Numeric factorization of a sparse symmetric matrix.

use crate::error::RslabError;
use crate::multifrontal::assembly::unmapped;
use crate::multifrontal::dense::{
    dense_fast_factor_with_workspace, dense_refused, is_dense_factorization,
};
use crate::multifrontal::driver::{
    factor_tree, groups_ok, node_done, timed_after, tree_done, tree_ready, tree_refused,
};
use crate::multifrontal::factors::{
    all_handed_ok, collect_totals, inertia_upto, refinement_upto, tree_is_complete, tree_is_sound,
    tree_regular, SparseFactors,
};
use crate::multifrontal::kernel::{FrontKernel, Inertia};
use crate::multifrontal::model::{contrib_ok, ContribBlock};
use crate::multifrontal::node::{FrontJob, NodeFactors};
use crate::multifrontal::order::frontier;
use crate::multifrontal::params::{
    apply_post_scaling_overrides, most, overridden, row_sums, scaled_matrix_infnorm, NumericParams,
};
use crate::multifrontal::permute::{
    is_lower, is_permuted, lap, permute_csc_values_with_cache, spent, start_of, Clock,
    PermuteCache,
};
use crate::multifrontal::profile::{PrologueBreakdown, Profiler, SmallLeafBatch};
use crate::multifrontal::tree::{
    dense_enough, should_parallelize_assembly_with_threshold, should_use_dense_fast_path,
    worth_parallel, SymbolicFactorization, PAR_MIN_FLOPS,
};
use crate::multifrontal::workers::{factor_tasks, TaskRun};
use crate::scalar::Scalar;
use crate::seqs::{below, copied};
use crate::sparse::GeneralCsc;
use vstd::prelude::*;

verus! {

/// What a caller keeps between factorizations.
#[derive(Debug, Clone)]
pub struct FactorWorkspace {
    /// Places of the rows of the current front; none outside of one.
    pub row_map: Vec<usize>,
    /// The structure of the permuted matrix, where the pattern comes again.
    pub permute_cache: Option<PermuteCache>,
}

impl FactorWorkspace {
    pub open spec fn wf(&self) -> bool {
        self.permute_cache matches Some(c) ==> c.wf()
    }

    /// The workspace that a sweep along the tree of this matrix leaves, whether it
    /// succeeds or not: no row has a place, and the structure of the permuted
    /// matrix is kept iff the caller expects the pattern `again`.
    pub open spec fn left_by<T: Scalar>(
        &self,
        matrix: GeneralCsc<T>,
        sym: SymbolicFactorization,
        again: bool,
    ) -> bool {
        &&& unmapped(self.row_map@, sym.n as int)
        &&& cache_follows(self.permute_cache, matrix, sym, again)
    }

    pub fn new() -> (r: Self)
        ensures
            r.wf(),
            r.row_map@.len() == 0,
            r.permute_cache is None,
    {
        FactorWorkspace { row_map: Vec::new(), permute_cache: None }
    }
}

/// The cache holds the structure of this matrix in pivot order if the pattern
/// comes `again`, and is empty if not.
pub open spec fn cache_follows<T: Scalar>(
    cache: Option<PermuteCache>,
    matrix: GeneralCsc<T>,
    sym: SymbolicFactorization,
    again: bool,
) -> bool {
    &&& cache is Some <==> again
    &&& cache matches Some(c) ==> c.wf() && c.matches(matrix, sym.perm_inv@)
}

/// What lies around the tree was timed by the clock. The scaling comes from the
/// caller, and the pattern from the analysis: neither takes time here.
pub open spec fn framed<C: Clock>(clock: Option<&C>, p: Profiler) -> bool {
    let parts = p.prologue_breakdown;
    &&& spent(clock, p.prologue_us)
    &&& spent(clock, p.epilogue_us)
    &&& spent(clock, p.total_us)
    &&& spent(clock, parts.row_map_us)
    &&& parts.scaling_us == 0
    &&& spent(clock, parts.scaling_pivot_order_us)
    &&& spent(clock, parts.permute_us)
    &&& spent(clock, parts.permute_from_triplets_us) || parts.permute_from_triplets_us == 0
    &&& spent(clock, parts.infnorm_tol_us)
    &&& parts.symmetric_pattern_us == 0
    &&& spent(clock, parts.setup_us)
}

/// A clock for callers that time nothing.
#[derive(Debug, Clone, Copy)]
pub struct NoClock;

impl Clock for NoClock {
    fn now_us(&self) -> (r: u64) {
        0
    }
}

/// The scaling in pivot order.
pub open spec fn pivot_order<T>(scaling: Seq<T>, perm: Seq<usize>) -> Seq<T> {
    Seq::new(perm.len(), |k: int| scaling[perm[k] as int])
}

fn reorder_scaling<T: Copy>(scaling: &[T], perm: &Vec<usize>) -> (r: Vec<T>)
    requires
        below(perm@, scaling@.len() as int),
    ensures
        r@ == pivot_order(scaling@, perm@),
{
    let mut r: Vec<T> = Vec::new();
    let mut k: usize = 0;
    while k < perm.len()
        invariant
            k <= perm@.len(),
            below(perm@, scaling@.len() as int),
            r@.len() == k,
            forall|i: int| 0 <= i < k ==> #[trigger] r@[i] == scaling@[perm@[i] as int],
        decreases perm@.len() - k,
    {
        assert(perm@[k as int] < scaling@.len());
        r.push(scaling[perm[k]]);
        k = k + 1;
    }
    assert(r@ =~= pivot_order(scaling@, perm@));
    r
}

/// The inputs fit together.
pub open spec fn inputs_ok<T: Scalar>(
    matrix: GeneralCsc<T>,
    scaling: Seq<T>,
    sym: SymbolicFactorization,
) -> bool {
    &&& matrix.wf()
    &&& sym.wf()
    &&& matrix.n == sym.n
    &&& scaling.len() == sym.n
}

/// The shared part of a factorization.
pub open spec fn job_of<'a, T: Scalar>(
    sym: &'a SymbolicFactorization,
    a: &'a GeneralCsc<T>,
    sp: &'a Vec<T>,
    params: &'a NumericParams<T::Real>,
) -> FrontJob<'a, T> {
    FrontJob { sym, a, scaling: sp, params }
}

/// The settings after the norm of the scaled matrix is known.
pub open spec fn settled<T: Scalar>(
    params: NumericParams<T::Real>,
    a: GeneralCsc<T>,
    sp: Seq<T>,
) -> NumericParams<T::Real> {
    overridden(params, most(row_sums(a, sp, a.n as int), a.n as int), a.n as u64)
}

/// How a factorization comes about: the permuted matrix `a`, the scaling in
/// pivot order `sp`, the settings `p` that the fronts go by, and what the
/// supernodes hand over, `cs`.
pub struct Trail<T: Scalar> {
    pub a: GeneralCsc<T>,
    pub sp: Vec<T>,
    pub p: NumericParams<T::Real>,
    pub cs: Ghost<Seq<Option<ContribBlock<T>>>>,
}

impl<T: Scalar> Trail<T> {
    /// The trail starts at this matrix and scaling.
    pub open spec fn starts(
        &self,
        matrix: GeneralCsc<T>,
        scaling: Seq<T>,
        sym: SymbolicFactorization,
    ) -> bool {
        &&& is_permuted(self.a, matrix, sym.perm_inv@)
        &&& is_lower(self.a)
        &&& self.sp@ == pivot_order(scaling, sym.perm@)
    }

    /// The trail leads to these nodes.
    pub open spec fn leads<K: FrontKernel<T>>(
        &self,
        sym: SymbolicFactorization,
        kernel: K,
        batch: bool,
        nvs: Seq<usize>,
        nodes: Seq<NodeFactors<T>>,
    ) -> bool {
        &&& tree_done(
            job_of(&sym, &self.a, &self.sp, &self.p),
            kernel,
            batch,
            nvs,
            nodes,
            self.cs@,
        )
        &&& all_handed_ok(sym.supernodes@, sym.n as int, nvs, self.cs@)
    }

    /// The trail breaks off at supernode `s` with this error, after these nodes.
    pub open spec fn breaks<K: FrontKernel<T>>(
        &self,
        sym: SymbolicFactorization,
        kernel: K,
        batch: bool,
        ordered: bool,
        nvs: Seq<usize>,
        nodes: Seq<NodeFactors<T>>,
        s: int,
        e: RslabError,
    ) -> bool {
        tree_refused(
            job_of(&sym, &self.a, &self.sp, &self.p),
            kernel,
            batch,
            ordered,
            nvs,
            nodes,
            self.cs@,
            s,
            e,
        )
    }
}

/// No supernode leaves columns uneliminated.
pub open spec fn no_tails(n: int) -> Seq<usize> {
    Seq::new(n as nat, |s: int| 0usize)
}

fn zero_tails(n: usize) -> (r: Vec<usize>)
    ensures
        r@ == no_tails(n as int),
{
    let mut r: Vec<usize> = Vec::new();
    let mut k: usize = 0;
    while k < n
        invariant
            k <= n,
            r@.len() == k,
            forall|i: int| 0 <= i < k ==> #[trigger] r@[i] == 0,
        decreases n - k,
    {
        r.push(0);
        k = k + 1;
    }
    assert(r@ =~= no_tails(n as int));
    r
}

/// The factors are those of the nodes, with the permutation and the scaling.
pub open spec fn wraps<T: Scalar>(
    f: SparseFactors<T>,
    sym: SymbolicFactorization,
    scaling: Seq<T>,
    nodes: Seq<NodeFactors<T>>,
) -> bool {
    &&& f.n == sym.n
    &&& f.perm@ == sym.perm@
    &&& f.perm_inv@ == sym.perm_inv@
    &&& f.scaling@ == scaling
    &&& f.node_factors@ == nodes
    &&& f.needs_refinement == refinement_upto(nodes, nodes.len() as int)
}

/// The inertia is that of the nodes.
pub open spec fn counts<T: Scalar>(i: Inertia, nodes: Seq<NodeFactors<T>>) -> bool {
    (i.positive as int, i.negative as int, i.zero as int) == inertia_upto(
        nodes,
        nodes.len() as int,
    )
}

/// The outcome of a sparse factorization: the factors come from the matrix by a
/// trail with the settled settings, or the trail breaks off.
pub open spec fn factored<T: Scalar, K: FrontKernel<T>>(
    matrix: GeneralCsc<T>,
    scaling: Seq<T>,
    sym: SymbolicFactorization,
    params: NumericParams<T::Real>,
    kernel: K,
    batch: bool,
    t: Trail<T>,
    f: SparseFactors<T>,
    i: Inertia,
) -> bool {
    &&& t.starts(matrix, scaling, sym)
    &&& t.p == settled(params, t.a, t.sp@)
    &&& t.leads(sym, kernel, batch, no_tails(sym.supernodes@.len() as int), f.node_factors@)
    &&& wraps(f, sym, scaling, f.node_factors@)
    &&& counts(i, f.node_factors@)
}

/// Why a sparse factorization fails.
pub open spec fn refused<T: Scalar, K: FrontKernel<T>>(
    matrix: GeneralCsc<T>,
    scaling: Seq<T>,
    sym: SymbolicFactorization,
    params: NumericParams<T::Real>,
    kernel: K,
    batch: bool,
    ordered: bool,
    t: Trail<T>,
    nodes: Seq<NodeFactors<T>>,
    s: int,
    e: RslabError,
) -> bool {
    &&& t.starts(matrix, scaling, sym)
    &&& t.p == settled(params, t.a, t.sp@)
    &&& t.breaks(
        sym,
        kernel,
        batch,
        ordered,
        no_tails(sym.supernodes@.len() as int),
        nodes,
        s,
        e,
    )
}

/// The factors come from the matrix.
pub open spec fn is_factorization<T: Scalar, K: FrontKernel<T>>(
    matrix: GeneralCsc<T>,
    scaling: Seq<T>,
    sym: SymbolicFactorization,
    params: NumericParams<T::Real>,
    kernel: K,
    batch: bool,
    f: SparseFactors<T>,
    i: Inertia,
) -> bool {
    exists|t: Trail<T>| #[trigger]
        factored(matrix, scaling, sym, params, kernel, batch, t, f, i)
}

/// The factorization breaks off with this error: an ordered sweep after every
/// earlier supernode, a graph of tasks after those below the one that fails.
pub open spec fn is_refusal<T: Scalar, K: FrontKernel<T>>(
    matrix: GeneralCsc<T>,
    scaling: Seq<T>,
    sym: SymbolicFactorization,
    params: NumericParams<T::Real>,
    kernel: K,
    batch: bool,
    ordered: bool,
    e: RslabError,
) -> bool {
    exists|t: Trail<T>, nodes: Seq<NodeFactors<T>>, s: int| #[trigger]
        refused(matrix, scaling, sym, params, kernel, batch, ordered, t, nodes, s, e)
}

/// No row has a place yet.
pub fn reset_map(map: &mut Vec<usize>, n: usize)
    ensures
        unmapped(final(map)@, n as int),
{
    map.clear();
    let mut k: usize = 0;
    while k < n
        invariant
            k <= n,
            map@.len() == k,
            forall|g: int| 0 <= g < k ==> #[trigger] map@[g] == usize::MAX,
        decreases n - k,
    {
        map.push(usize::MAX);
        k = k + 1;
    }
}

/// Wrap the nodes of a factored tree.
pub fn wrap_nodes<T: Scalar, K: FrontKernel<T>>(
    job: &FrontJob<T>,
    scaling: &[T],
    nodes: Vec<NodeFactors<T>>,
    Ghost(kernel): Ghost<K>,
    Ghost(batch): Ghost<bool>,
    Ghost(nvs): Ghost<Seq<usize>>,
    Ghost(cs): Ghost<Seq<Option<ContribBlock<T>>>>,
) -> (r: (SparseFactors<T>, Inertia))
    requires
        tree_ready(*job, batch, nvs),
        tree_done(*job, kernel, batch, nvs, nodes@, cs),
        all_handed_ok(job.sn(), job.sym.n as int, nvs, cs),
        scaling@.len() == job.sym.n,
    ensures
        r.0.node_factors@ == nodes@,
        wraps(r.0, *job.sym, scaling@, nodes@),
        counts(r.1, nodes@),
        r.0.wf(),
        tree_regular(job.sn()) && (forall|q: int| 0 <= q < nvs.len() ==> #[trigger] nvs[q] == 0)
            ==> r.0.complete(),
{
    proof {
        let len = nodes@.len() as int;
        tree_is_sound(*job, kernel, batch, nvs, nodes@, cs, len);
        assert(frontier(job.sn(), job.sym.n as int, len) == job.sym.n);
        if tree_regular(job.sn()) && (forall|q: int| 0 <= q < nvs.len() ==> #[trigger] nvs[q] == 0) {
            tree_is_complete(*job, kernel, batch, nvs, nodes@, cs);
        }
    }
    let (inertia, refine) = collect_totals(&nodes, job.sym.n);
    let f = SparseFactors {
        n: job.sym.n,
        perm: copied(&job.sym.perm),
        perm_inv: copied(&job.sym.perm_inv),
        node_factors: nodes,
        needs_refinement: refine,
        scaling: crate::flat::part_of(scaling, 0, scaling.len()),
    };
    assert(f.scaling@ =~= scaling@);
    (f, inertia)
}

/// Permute and scale, settle the settings.
pub fn prepare<T: Scalar, C: Clock>(
    matrix: &GeneralCsc<T>,
    scaling: &[T],
    sym: &SymbolicFactorization,
    clock: Option<&C>,
    reuse: bool,
    cache: &mut Option<PermuteCache>,
) -> (r: (GeneralCsc<T>, Vec<T>))
    requires
        inputs_ok(*matrix, scaling@, *sym),
        *old(cache) is Some ==> (*old(cache))->0.wf(),
    ensures
        is_permuted(r.0, *matrix, sym.perm_inv@),
        is_lower(r.0),
        r.0.wf(),
        r.0.n == sym.n,
        r.1@ == pivot_order(scaling@, sym.perm@),
        r.1@.len() == sym.n,
        cache_follows(*final(cache), *matrix, *sym, reuse),
{
    let sp = reorder_scaling(scaling, &sym.perm);
    let permuted = permute_csc_values_with_cache(
        matrix,
        sym.perm.as_slice(),
        sym.perm_inv.as_slice(),
        clock,
        reuse,
        cache,
    );
    let (a, _) = permuted.unwrap();
    (a, sp)
}

/// The settings that the fronts go by.
pub fn settle<T: Scalar>(params: &NumericParams<T::Real>, a: &GeneralCsc<T>, sp: &Vec<T>) -> (r: NumericParams<
    T::Real,
>)
    requires
        a.wf(),
        sp@.len() == a.n,
    ensures
        r == settled(*params, *a, sp@),
{
    let norm = scaled_matrix_infnorm(a, sp.as_slice());
    match apply_post_scaling_overrides(params, norm, a.n) {
        Some(p) => p,
        None => *params,
    }
}

/// Factor a sparse symmetric matrix, given by its lower triangle, along the
/// assembly tree. `scaling` is the symmetric scaling in the order of the caller;
/// the matrix that is factored is `diag(scaling) A diag(scaling)`, permuted.
/// Where there is a clock, every supernode that is factored adds its timing, and
/// the times around the tree are set once all of them are.
pub fn factorize_multifrontal_supernodal_profiled<T: Scalar, K: FrontKernel<T>, C: Clock>(
    matrix: &GeneralCsc<T>,
    scaling: &[T],
    symbolic: &SymbolicFactorization,
    params: &NumericParams<T::Real>,
    kernel: &K,
    ws: &mut FactorWorkspace,
    clock: Option<&C>,
    profiler: &mut Profiler,
) -> (r: Result<(SparseFactors<T>, Inertia), RslabError>)
    requires
        inputs_ok(*matrix, scaling@, *symbolic),
        params.small_leaf == SmallLeafBatch::On && symbolic.small_leaf_groups@.len() > 0 ==> groups_ok(
            *symbolic,
        ),
        old(ws).wf(),
    ensures
        clock is None ==> final(profiler).timings@ == old(profiler).timings@,
        clock is Some ==> timed_after(
            clock,
            old(profiler).timings@,
            final(profiler).timings@,
            symbolic.supernodes@,
            final(profiler).timings@.len() - old(profiler).timings@.len(),
        ),
        clock is Some && r is Ok ==> final(profiler).timings@.len() == old(
            profiler,
        ).timings@.len() + symbolic.supernodes@.len(),
        clock is Some && r is Ok ==> framed(clock, *final(profiler)),
        clock is None || r is Err ==> *final(profiler) == (Profiler {
            timings: final(profiler).timings,
            ..*old(profiler)
        }),
        final(ws).wf(),
        final(ws).left_by(*matrix, *symbolic, params.pattern_reused_hint),
        r matches Ok(x) ==> x.0.wf(),
        r matches Ok(x) ==> tree_regular(symbolic.supernodes@) ==> x.0.complete(),
        r matches Ok(x) ==> is_factorization(
            *matrix,
            scaling@,
            *symbolic,
            *params,
            *kernel,
            true,
            x.0,
            x.1,
        ),
        r matches Err(e) ==> is_refusal(
            *matrix,
            scaling@,
            *symbolic,
            *params,
            *kernel,
            true,
            true,
            e,
        ),
{
    let mut parts = PrologueBreakdown::default();
    let begun: u64 = start_of(clock);
    reset_map(&mut ws.row_map, symbolic.n);
    parts.row_map_us = lap(clock, begun);
    let since: u64 = start_of(clock);
    let sp = reorder_scaling(scaling, &symbolic.perm);
    parts.scaling_pivot_order_us = lap(clock, since);
    let since: u64 = start_of(clock);
    let (a, inner) = permute_csc_values_with_cache(
        matrix,
        symbolic.perm.as_slice(),
        symbolic.perm_inv.as_slice(),
        clock,
        params.pattern_reused_hint,
        &mut ws.permute_cache,
    ).unwrap();
    parts.permute_us = lap(clock, since);
    parts.permute_from_triplets_us = inner;
    let since: u64 = start_of(clock);
    let p = settle(params, &a, &sp);
    parts.infnorm_tol_us = lap(clock, since);
    let since: u64 = start_of(clock);
    let len: usize = symbolic.supernodes.len();
    let nvs = zero_tails(len);
    let job = FrontJob { sym: symbolic, a: &a, scaling: &sp, params: &p };
    parts.setup_us = lap(clock, since);
    let prologue: u64 = lap(clock, begun);
    match factor_tree(
        &job,
        kernel,
        true,
        &nvs,
        &mut ws.row_map,
        clock,
        &mut profiler.timings,
    ) {
        Ok((nodes, _, handed)) => {
            let since: u64 = start_of(clock);
            let ghost cs = handed@;
            assert(forall|q: int| 0 <= q < nvs@.len() ==> #[trigger] nvs@[q] == 0);
            let ghost t = Trail { a, sp, p, cs: Ghost(cs) };
            let x = wrap_nodes::<T, K>(
                &job,
                scaling,
                nodes,
                Ghost(*kernel),
                Ghost(true),
                Ghost(nvs@),
                Ghost(cs),
            );
            assert(factored(
                *matrix,
                scaling@,
                *symbolic,
                *params,
                *kernel,
                true,
                t,
                x.0,
                x.1,
            ));
            if clock.is_some() {
                profiler.prologue_us = prologue;
                profiler.prologue_breakdown = parts;
                profiler.epilogue_us = lap(clock, since);
                profiler.total_us = lap(clock, begun);
            }
            Ok(x)
        },
        Err(e) => {
            proof {
                let (nodes, cs, s) = choose|
                    nodes: Seq<NodeFactors<T>>,
                    cs: Seq<Option<ContribBlock<T>>>,
                    s: int,
                | #[trigger]
                    tree_refused(job, *kernel, true, true, nvs@, nodes, cs, s, e);
                let t = Trail { a, sp, p, cs: Ghost(cs) };
                assert(refused(
                    *matrix,
                    scaling@,
                    *symbolic,
                    *params,
                    *kernel,
                    true,
                    true,
                    t,
                    nodes,
                    s,
                    e,
                ));
            }
            Err(e)
        },
    }
}

/// As [`factorize_multifrontal_supernodal_profiled`], without a clock.
pub fn factorize_multifrontal_supernodal_with_workspace<T: Scalar, K: FrontKernel<T>>(
    matrix: &GeneralCsc<T>,
    scaling: &[T],
    symbolic: &SymbolicFactorization,
    params: &NumericParams<T::Real>,
    kernel: &K,
    ws: &mut FactorWorkspace,
) -> (r: Result<(SparseFactors<T>, Inertia), RslabError>)
    requires
        inputs_ok(*matrix, scaling@, *symbolic),
        params.small_leaf == SmallLeafBatch::On && symbolic.small_leaf_groups@.len() > 0 ==> groups_ok(
            *symbolic,
        ),
        old(ws).wf(),
    ensures
        final(ws).wf(),
        final(ws).left_by(*matrix, *symbolic, params.pattern_reused_hint),
        r matches Ok(x) ==> x.0.wf(),
        r matches Ok(x) ==> tree_regular(symbolic.supernodes@) ==> x.0.complete(),
        r matches Ok(x) ==> is_factorization(
            *matrix,
            scaling@,
            *symbolic,
            *params,
            *kernel,
            true,
            x.0,
            x.1,
        ),
        r matches Err(e) ==> is_refusal(
            *matrix,
            scaling@,
            *symbolic,
            *params,
            *kernel,
            true,
            true,
            e,
        ),
{
    let mut profiler = Profiler::new();
    factorize_multifrontal_supernodal_profiled(
        matrix,
        scaling,
        symbolic,
        params,
        kernel,
        ws,
        None::<&NoClock>,
        &mut profiler,
    )
}

/// As [`factorize_multifrontal_supernodal_with_workspace`], with a workspace of
/// its own.
pub fn factorize_multifrontal_supernodal<T: Scalar, K: FrontKernel<T>>(
    matrix: &GeneralCsc<T>,
    scaling: &[T],
    symbolic: &SymbolicFactorization,
    params: &NumericParams<T::Real>,
    kernel: &K,
) -> (r: Result<(SparseFactors<T>, Inertia), RslabError>)
    requires
        inputs_ok(*matrix, scaling@, *symbolic),
        params.small_leaf == SmallLeafBatch::On && symbolic.small_leaf_groups@.len() > 0 ==> groups_ok(
            *symbolic,
        ),
    ensures
        r matches Ok(x) ==> x.0.wf(),
        r matches Ok(x) ==> tree_regular(symbolic.supernodes@) ==> x.0.complete(),
        r matches Ok(x) ==> is_factorization(
            *matrix,
            scaling@,
            *symbolic,
            *params,
            *kernel,
            true,
            x.0,
            x.1,
        ),
        r matches Err(e) ==> is_refusal(
            *matrix,
            scaling@,
            *symbolic,
            *params,
            *kernel,
            true,
            true,
            e,
        ),
{
    let mut ws = FactorWorkspace::new();
    factorize_multifrontal_supernodal_with_workspace(
        matrix,
        scaling,
        symbolic,
        params,
        kernel,
        &mut ws,
    )
}

/// Take the nodes out of their places.
fn unwrap_nodes<T: Scalar>(
    out: Vec<Option<NodeFactors<T>>>,
    Ghost(nodes): Ghost<Seq<NodeFactors<T>>>,
) -> (r: Vec<NodeFactors<T>>)
    requires
        out@.len() == nodes.len(),
        forall|s: int| 0 <= s < out@.len() ==> #[trigger] out@[s] == Some(nodes[s]),
    ensures
        r@ == nodes,
{
    let mut out = out;
    let len: usize = out.len();
    let mut back: Vec<NodeFactors<T>> = Vec::new();
    let mut k: usize = 0;
    while k < len
        invariant
            k <= len,
            len == nodes.len(),
            out@.len() == len - k,
            forall|s: int| 0 <= s < len - k ==> #[trigger] out@[s] == Some(nodes[s]),
            back@.len() == k,
            forall|q: int| 0 <= q < k ==> #[trigger] back@[q] == nodes[len - 1 - q],
        decreases len - k,
    {
        let ghost o0 = out@;
        assert(o0[len - k - 1] == Some(nodes[len - k - 1]));
        if let Some(Some(node)) = out.pop() {
            back.push(node);
        }
        assert forall|s: int| 0 <= s < len - k - 1 implies #[trigger] out@[s] == Some(nodes[s]) by {
            assert(out@[s] == o0[s]);
        }
        k = k + 1;
    }
    let mut r: Vec<NodeFactors<T>> = Vec::new();
    let mut k: usize = 0;
    while k < len
        invariant
            k <= len,
            len == nodes.len(),
            back@.len() == len - k,
            forall|q: int| 0 <= q < len - k ==> #[trigger] back@[q] == nodes[len - 1 - q],
            r@.len() == k,
            forall|s: int| 0 <= s < k ==> #[trigger] r@[s] == nodes[s],
        decreases len - k,
    {
        let ghost b0 = back@;
        if let Some(node) = back.pop() {
            assert(b0[len - k - 1] == nodes[k as int]);
            r.push(node);
        }
        assert forall|q: int| 0 <= q < len - k - 1 implies #[trigger] back@[q] == nodes[len - 1 - q] by {
            assert(back@[q] == b0[q]);
        }
        k = k + 1;
    }
    assert(r@ =~= nodes);
    r
}

/// The factors of a run whose tasks are all done.
pub fn collect_tasks<T: Scalar, K: FrontKernel<T>>(
    run: TaskRun<T>,
    job: &FrontJob<T>,
    scaling: &[T],
    kernel: &K,
) -> (r: (SparseFactors<T>, Inertia))
    requires
        job.wf(),
        run.books(*job),
        run.made(*job, *kernel),
        forall|s: int| 0 <= s < job.sn().len() ==> #[trigger] run.graph.done@[s],
        scaling@.len() == job.sym.n,
    ensures
        tree_done(
            *job,
            *kernel,
            false,
            no_tails(job.sn().len() as int),
            r.0.node_factors@,
            run.handed@,
        ),
        all_handed_ok(
            job.sn(),
            job.sym.n as int,
            no_tails(job.sn().len() as int),
            run.handed@,
        ),
        wraps(r.0, *job.sym, scaling@, r.0.node_factors@),
        counts(r.1, r.0.node_factors@),
        r.0.wf(),
        tree_regular(job.sn()) ==> r.0.complete(),
{
    let ghost sn = job.sn();
    let ghost nvs = no_tails(sn.len() as int);
    let ghost cs = run.handed@;
    let ghost made = Seq::new(sn.len(), |s: int| run.out@[s]->0);
    proof {
        assert forall|s: int| 0 <= s < made.len() implies #[trigger] run.out@[s] == Some(made[s]) by {
            assert(run.graph.done@[s]);
        }
        assert forall|s: int| 0 <= s < made.len() implies node_done(
            *job,
            *kernel,
            false,
            s,
            cs,
            nvs[s] as int,
            #[trigger] made[s],
        ) by {
            assert(run.graph.done@[s]);
            assert(run.out@[s] is Some);
        }
        assert forall|c: int| 0 <= c < sn.len() && nvs[c] == 0 implies (#[trigger] cs[c] matches Some(b)
            ==> contrib_ok(sn, job.sym.n as int, c, b)) by {
            assert(run.graph.done@[c]);
        }
        assert(forall|q: int| 0 <= q < nvs.len() ==> #[trigger] nvs[q] == 0);
    }
    let nodes = unwrap_nodes(run.out, Ghost(made));
    wrap_nodes::<T, K>(
        job,
        scaling,
        nodes,
        Ghost(*kernel),
        Ghost(false),
        Ghost(nvs),
        Ghost(cs),
    )
}

/// Factor a sparse symmetric matrix as a graph of tasks. The factors are those
/// of the ordered sweep without batches of small leaves.
pub fn factorize_multifrontal_supernodal_parallel<T: Scalar, K: FrontKernel<T>>(
    matrix: &GeneralCsc<T>,
    scaling: &[T],
    symbolic: &SymbolicFactorization,
    params: &NumericParams<T::Real>,
    kernel: &K,
) -> (r: Result<(SparseFactors<T>, Inertia), RslabError>)
    requires
        inputs_ok(*matrix, scaling@, *symbolic),
    ensures
        r matches Ok(x) ==> x.0.wf(),
        r matches Ok(x) ==> tree_regular(symbolic.supernodes@) ==> x.0.complete(),
        r matches Ok(x) ==> is_factorization(
            *matrix,
            scaling@,
            *symbolic,
            *params,
            *kernel,
            false,
            x.0,
            x.1,
        ),
        r matches Err(e) ==> is_refusal(
            *matrix,
            scaling@,
            *symbolic,
            *params,
            *kernel,
            false,
            false,
            e,
        ),
{
    let mut cache: Option<PermuteCache> = None;
    let (a, sp) = prepare(matrix, scaling, symbolic, None::<&NoClock>, false, &mut cache);
    let p = settle(params, &a, &sp);
    let job = FrontJob { sym: symbolic, a: &a, scaling: &sp, params: &p };
    match factor_tasks(&job, kernel) {
        Ok(run) => {
            let ghost t = Trail { a, sp, p, cs: run.handed };
            let x = collect_tasks(run, &job, scaling, kernel);
            assert(factored(
                *matrix,
                scaling@,
                *symbolic,
                *params,
                *kernel,
                false,
                t,
                x.0,
                x.1,
            ));
            Ok(x)
        },
        Err(e) => {
            proof {
                let nvs = no_tails(symbolic.supernodes@.len() as int);
                let (nodes, cs, s) = choose|
                    nodes: Seq<NodeFactors<T>>,
                    cs: Seq<Option<ContribBlock<T>>>,
                    s: int,
                | #[trigger]
                    tree_refused(job, *kernel, false, false, nvs, nodes, cs, s, e);
                let t = Trail { a, sp, p, cs: Ghost(cs) };
                assert(refused(
                    *matrix,
                    scaling@,
                    *symbolic,
                    *params,
                    *kernel,
                    false,
                    false,
                    t,
                    nodes,
                    s,
                    e,
                ));
            }
            Err(e)
        },
    }
}

/// The dense path is taken: there is something to factor, and the matrix is dense
/// enough.
pub open spec fn goes_dense<T>(matrix: GeneralCsc<T>) -> bool {
    matrix.n > 0 && dense_enough(matrix.n as int, matrix.row_idx@.len() as int)
}

/// Which path a factorization takes, and what comes of it: dense for small
/// matrices, the task graph where it is worth it and asked for, else the ordered
/// sweep.
pub open spec fn is_routed<T: Scalar, K: FrontKernel<T>>(
    matrix: GeneralCsc<T>,
    scaling: Seq<T>,
    sym: SymbolicFactorization,
    params: NumericParams<T::Real>,
    kernel: K,
    tasks: bool,
    f: SparseFactors<T>,
    i: Inertia,
) -> bool {
    if goes_dense(matrix) {
        is_dense_factorization(matrix, scaling, params, kernel, f, i)
    } else {
        is_factorization(
            matrix,
            scaling,
            sym,
            params,
            kernel,
            !(tasks && worth_parallel(sym, work_threshold(params))),
            f,
            i,
        )
    }
}

/// Why a routed factorization fails.
pub open spec fn is_routed_refusal<T: Scalar, K: FrontKernel<T>>(
    matrix: GeneralCsc<T>,
    scaling: Seq<T>,
    sym: SymbolicFactorization,
    params: NumericParams<T::Real>,
    kernel: K,
    tasks: bool,
    e: RslabError,
) -> bool {
    if goes_dense(matrix) {
        dense_refused(matrix, scaling, params, kernel, e)
    } else {
        let sweep = !(tasks && worth_parallel(sym, work_threshold(params)));
        is_refusal(matrix, scaling, sym, params, kernel, sweep, sweep, e)
    }
}

/// The work threshold of the task graph.
pub open spec fn work_threshold<R>(params: NumericParams<R>) -> u64 {
    match params.min_parallel_flops {
        Some(f) => f,
        None => PAR_MIN_FLOPS,
    }
}

/// The inputs of a routed factorization.
pub open spec fn routable<T: Scalar>(
    matrix: GeneralCsc<T>,
    scaling: Seq<T>,
    sym: SymbolicFactorization,
    params: NumericParams<T::Real>,
) -> bool {
    &&& inputs_ok(matrix, scaling, sym)
    &&& is_lower(matrix)
    &&& params.small_leaf == SmallLeafBatch::On && sym.small_leaf_groups@.len() > 0 ==> groups_ok(
        sym,
    )
}

/// Factor a sparse symmetric matrix: densely where it is small, else along the
/// assembly tree.
pub fn factorize_multifrontal_with_workspace<T: Scalar, K: FrontKernel<T>>(
    matrix: &GeneralCsc<T>,
    scaling: &[T],
    symbolic: &SymbolicFactorization,
    params: &NumericParams<T::Real>,
    kernel: &K,
    ws: &mut FactorWorkspace,
) -> (r: Result<(SparseFactors<T>, Inertia), RslabError>)
    requires
        routable(*matrix, scaling@, *symbolic, *params),
        old(ws).wf(),
    ensures
        final(ws).wf(),
        if goes_dense(*matrix) {
            *final(ws) == *old(ws)
        } else {
            final(ws).left_by(*matrix, *symbolic, params.pattern_reused_hint)
        },
        r matches Ok(x) ==> x.0.wf(),
        r matches Ok(x) ==> tree_regular(symbolic.supernodes@) ==> x.0.complete(),
        r matches Ok(x) ==> is_routed(
            *matrix,
            scaling@,
            *symbolic,
            *params,
            *kernel,
            false,
            x.0,
            x.1,
        ),
        r matches Err(e) ==> is_routed_refusal(
            *matrix,
            scaling@,
            *symbolic,
            *params,
            *kernel,
            false,
            e,
        ),
{
    if matrix.n > 0 && should_use_dense_fast_path(matrix.n, matrix.row_idx.len()) {
        return dense_fast_factor_with_workspace(matrix, scaling, params, kernel, ws);
    }
    factorize_multifrontal_supernodal_with_workspace(
        matrix,
        scaling,
        symbolic,
        params,
        kernel,
        ws,
    )
}

/// As [`factorize_multifrontal_with_workspace`], with a workspace of its own.
pub fn factorize_multifrontal<T: Scalar, K: FrontKernel<T>>(
    matrix: &GeneralCsc<T>,
    scaling: &[T],
    symbolic: &SymbolicFactorization,
    params: &NumericParams<T::Real>,
    kernel: &K,
) -> (r: Result<(SparseFactors<T>, Inertia), RslabError>)
    requires
        routable(*matrix, scaling@, *symbolic, *params),
    ensures
        r matches Ok(x) ==> x.0.wf(),
        r matches Ok(x) ==> tree_regular(symbolic.supernodes@) ==> x.0.complete(),
        r matches Ok(x) ==> is_routed(
            *matrix,
            scaling@,
            *symbolic,
            *params,
            *kernel,
            false,
            x.0,
            x.1,
        ),
        r matches Err(e) ==> is_routed_refusal(
            *matrix,
            scaling@,
            *symbolic,
            *params,
            *kernel,
            false,
            e,
        ),
{
    let mut ws = FactorWorkspace::new();
    factorize_multifrontal_with_workspace(matrix, scaling, symbolic, params, kernel, &mut ws)
}

/// Factor a sparse symmetric matrix: densely where it is small, as a graph of
/// tasks where that is worth it, else by the ordered sweep.
pub fn factorize_multifrontal_parallel_with_workspace<T: Scalar, K: FrontKernel<T>>(
    matrix: &GeneralCsc<T>,
    scaling: &[T],
    symbolic: &SymbolicFactorization,
    params: &NumericParams<T::Real>,
    kernel: &K,
    ws: &mut FactorWorkspace,
) -> (r: Result<(SparseFactors<T>, Inertia), RslabError>)
    requires
        routable(*matrix, scaling@, *symbolic, *params),
        old(ws).wf(),
    ensures
        final(ws).wf(),
        if goes_dense(*matrix) || worth_parallel(*symbolic, work_threshold(*params)) {
            *final(ws) == *old(ws)
        } else {
            final(ws).left_by(*matrix, *symbolic, params.pattern_reused_hint)
        },
        r matches Ok(x) ==> x.0.wf(),
        r matches Ok(x) ==> tree_regular(symbolic.supernodes@) ==> x.0.complete(),
        r matches Ok(x) ==> is_routed(
            *matrix,
            scaling@,
            *symbolic,
            *params,
            *kernel,
            true,
            x.0,
            x.1,
        ),
        r matches Err(e) ==> is_routed_refusal(
            *matrix,
            scaling@,
            *symbolic,
            *params,
            *kernel,
            true,
            e,
        ),
{
    if matrix.n > 0 && should_use_dense_fast_path(matrix.n, matrix.row_idx.len()) {
        return dense_fast_factor_with_workspace(matrix, scaling, params, kernel, ws);
    }
    let threshold: u64 = match params.min_parallel_flops {
        Some(f) => f,
        None => PAR_MIN_FLOPS,
    };
    if should_parallelize_assembly_with_threshold(symbolic, threshold) {
        return factorize_multifrontal_supernodal_parallel(
            matrix,
            scaling,
            symbolic,
            params,
            kernel,
        );
    }
    factorize_multifrontal_supernodal_with_workspace(
        matrix,
        scaling,
        symbolic,
        params,
        kernel,
        ws,
    )
}

/// As [`factorize_multifrontal_parallel_with_workspace`], with a workspace of
/// its own.
pub fn factorize_multifrontal_parallel<T: Scalar, K: FrontKernel<T>>(
    matrix: &GeneralCsc<T>,
    scaling: &[T],
    symbolic: &SymbolicFactorization,
    params: &NumericParams<T::Real>,
    kernel: &K,
) -> (r: Result<(SparseFactors<T>, Inertia), RslabError>)
    requires
        routable(*matrix, scaling@, *symbolic, *params),
    ensures
        r matches Ok(x) ==> x.0.wf(),
        r matches Ok(x) ==> tree_regular(symbolic.supernodes@) ==> x.0.complete(),
        r matches Ok(x) ==> is_routed(
            *matrix,
            scaling@,
            *symbolic,
            *params,
            *kernel,
            true,
            x.0,
            x.1,
        ),
        r matches Err(e) ==> is_routed_refusal(
            *matrix,
            scaling@,
            *symbolic,
            *params,
            *kernel,
            true,
            e,
        ),
{
    let mut ws = FactorWorkspace::new();
    factorize_multifrontal_parallel_with_workspace(
        matrix,
        scaling,
        symbolic,
        params,
        kernel,
        &mut ws,
    )
}

} // verus!
