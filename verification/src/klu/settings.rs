//! The options of the KLU path.

use crate::error::RslabError;
use crate::scalar::Real;
use std::sync::atomic::{AtomicBool, Ordering};
use std::sync::Arc;
use vstd::prelude::*;

verus! {

/// Parallel per-block execution policy.
#[derive(Debug, Clone, Copy, PartialEq, Eq, Structural)]
pub enum KluParallel {
    /// Structural gate: several diagonal blocks, at least
    /// [`KluSettings::par_min_nnz`] nonzeros, and no block above half of `n`.
    Auto,
    /// Always parallel.
    On,
    /// Strictly sequential.
    Off,
}

impl Default for KluParallel {
    fn default() -> (r: Self)
        ensures
            r == KluParallel::Auto,
    {
        KluParallel::Auto
    }
}

/// Options of the KLU path: threshold partial pivoting with strong diagonal
/// preference, row scaling, block triangular form.
#[derive(Debug, Clone)]
pub struct KluSettings<R> {
    /// The diagonal entry is taken as the pivot when its magnitude is at least
    /// this fraction of the largest candidate's. One is plain partial pivoting.
    pub pivot_threshold: R,
    /// Divide every row by its largest magnitude before factoring.
    pub row_scaling: bool,
    /// Permute to block upper triangular form first.
    pub btf: bool,
    /// Per-block parallel execution; the result does not depend on it.
    pub parallel: KluParallel,
    /// Use the row matching that the reordering supplies as the transversal.
    pub matching: bool,
    /// Nonzeros from which [`KluParallel::Auto`] goes parallel.
    pub par_min_nnz: usize,
    /// Work (fused steps) that a unit of parallel refactorization must carry.
    pub par_min_work: u64,
    /// Simultaneous work that the structure must offer.
    pub par_min_ratio: R,
    /// Caller-owned cancellation flag, polled at block boundaries.
    pub interrupt: Option<Arc<AtomicBool>>,
}

impl<R: Real> Default for KluSettings<R> {
    fn default() -> (r: Self)
        ensures
            r.pivot_threshold == R::one_spec().over_spec(R::from_count_spec(1000)),
            r.row_scaling,
            r.btf,
            r.parallel == KluParallel::Auto,
            r.matching,
            r.par_min_nnz == 8_000,
            r.par_min_work == 50_000_000,
            r.par_min_ratio == R::from_count_spec(2),
            r.interrupt is None,
    {
        KluSettings {
            pivot_threshold: R::one().over(R::from_count(1000)),
            row_scaling: true,
            btf: true,
            parallel: KluParallel::Auto,
            matching: true,
            par_min_nnz: 8_000,
            par_min_work: 50_000_000,
            par_min_ratio: R::from_count(2),
            interrupt: None,
        }
    }
}

/// What a poll of the cancellation flag leads to.
pub open spec fn polled(raised: bool) -> Result<(), RslabError> {
    if raised {
        Err(RslabError::Interrupted)
    } else {
        Ok(())
    }
}

/// What a poll of the cancellation flag leads to.
pub fn interrupt_outcome(raised: bool) -> (r: Result<(), RslabError>)
    ensures
        r == polled(raised),
{
    if raised {
        Err(RslabError::Interrupted)
    } else {
        Ok(())
    }
}

/// A relaxed load of the flag may return `raised`.
pub open spec fn reads_as(flag: AtomicBool, raised: bool) -> bool {
    call_ensures(AtomicBool::load, (&flag, Ordering::Relaxed), raised)
}

/// What a poll returns: `Ok` without a flag, else the outcome of one relaxed load
/// of it.
pub open spec fn is_polled(flag: Option<Arc<AtomicBool>>, r: Result<(), RslabError>) -> bool {
    match flag {
        None => r is Ok,
        Some(f) => exists|raised: bool| #[trigger]
            reads_as(*f, raised) && r == polled(raised),
    }
}

/// There is a flag, and a relaxed load of it returned that it is raised.
pub open spec fn was_raised(flag: Option<Arc<AtomicBool>>) -> bool {
    flag matches Some(f) && reads_as(*f, true)
}

/// There is a flag, and every relaxed load of it returns that it is raised.
pub open spec fn stays_raised(flag: Option<Arc<AtomicBool>>) -> bool {
    flag matches Some(f) && forall|v: bool| #[trigger] reads_as(*f, v) ==> v
}

/// One relaxed load of the flag.
fn read_flag<F: Fn(&AtomicBool, Ordering) -> bool>(load: F, flag: &AtomicBool) -> (r: bool)
    requires
        call_requires(load, (flag, Ordering::Relaxed)),
    ensures
        call_ensures(load, (flag, Ordering::Relaxed), r),
{
    load(flag, Ordering::Relaxed)
}

/// Poll a caller-owned cancellation flag once (see [`interrupt_outcome`]). Which
/// value the load returns depends on the caller's threads.
pub fn interrupt_check(flag: &Option<Arc<AtomicBool>>) -> (r: Result<(), RslabError>)
    ensures
        is_polled(*flag, r),
{
    match flag {
        Some(f) => {
            let raised = read_flag(AtomicBool::load, f);
            assert(reads_as(**f, raised));
            interrupt_outcome(raised)
        },
        None => Ok(()),
    }
}

impl<R: Real> KluSettings<R> {
    /// Poll the caller's flag; `Ok(())` when unarmed or clear.
    pub fn interrupted(&self) -> (r: Result<(), RslabError>)
        ensures
            is_polled(self.interrupt, r),
    {
        interrupt_check(&self.interrupt)
    }

    /// Arm the numeric phase with a caller-owned cancellation flag.
    pub fn with_interrupt(self, flag: Arc<AtomicBool>) -> (r: Self)
        ensures
            r == (KluSettings { interrupt: Some(flag), ..self }),
    {
        KluSettings { interrupt: Some(flag), ..self }
    }

    /// Another name of [`KluSettings::with_pivot_threshold`].
    pub fn with_pivot_tol(self, tol: R) -> (r: Self)
        ensures
            r == (KluSettings { pivot_threshold: tol, ..self }),
    {
        self.with_pivot_threshold(tol)
    }

    /// Switch the parallel execution on or off.
    pub fn with_parallel_factor(self, on: bool) -> (r: Self)
        ensures
            r == (KluSettings {
                parallel: if on {
                    KluParallel::On
                } else {
                    KluParallel::Off
                },
                ..self
            }),
    {
        self.with_parallel(
            if on {
                KluParallel::On
            } else {
                KluParallel::Off
            },
        )
    }

    /// Set the diagonal-preference threshold.
    pub fn with_pivot_threshold(self, u: R) -> (r: Self)
        ensures
            r == (KluSettings { pivot_threshold: u, ..self }),
    {
        KluSettings { pivot_threshold: u, ..self }
    }

    /// Toggle the row scaling.
    pub fn with_row_scaling(self, on: bool) -> (r: Self)
        ensures
            r == (KluSettings { row_scaling: on, ..self }),
    {
        KluSettings { row_scaling: on, ..self }
    }

    /// Toggle the supplied row matching.
    pub fn with_matching(self, on: bool) -> (r: Self)
        ensures
            r == (KluSettings { matching: on, ..self }),
    {
        KluSettings { matching: on, ..self }
    }

    /// Toggle the block triangular form.
    pub fn with_btf(self, on: bool) -> (r: Self)
        ensures
            r == (KluSettings { btf: on, ..self }),
    {
        KluSettings { btf: on, ..self }
    }

    /// Set the parallel per-block policy.
    pub fn with_parallel(self, p: KluParallel) -> (r: Self)
        ensures
            r == (KluSettings { parallel: p, ..self }),
    {
        KluSettings { parallel: p, ..self }
    }
}

} // verus!
