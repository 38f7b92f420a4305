//! Settings of the numeric phase, and the tolerances that follow from the size
//! of the scaled matrix.

use crate::flat::{column_bounds, column_start};
use crate::multifrontal::kernel::{BunchKaufmanParams, ZeroPivotAction};
use crate::multifrontal::profile::SmallLeafBatch;
use crate::scalar::{Real, Scalar};
use crate::seqs::below;
use crate::sparse::{column_range, GeneralCsc};
use vstd::prelude::*;

verus! {

/// Settings of a numeric factorization.
#[derive(Debug, Clone, Copy)]
pub struct NumericParams<R> {
    /// The pivot search in a front.
    pub bk: BunchKaufmanParams<R>,
    /// Whether small leaves are factored in batches.
    pub small_leaf: SmallLeafBatch,
    /// Fused multiply-add in the dense kernels.
    pub fma: bool,
    /// Columns without an acceptable pivot may be passed to the parent.
    pub allow_delayed_pivots: bool,
    /// Arms the cascade break: a supernode with too many delayed columns
    /// eliminates all of them in place. The ratio itself counts only where the
    /// supernode has no delay budget.
    pub cascade_break_ratio: Option<R>,
    /// The pivot magnitude that a broken cascade moves pivots to.
    pub cascade_break_eps: Option<R>,
    /// Work threshold of the task-graph driver.
    pub min_parallel_flops: Option<u64>,
    /// The matrix is quasi-definite: diagonal pivots only.
    pub sqd_mode: bool,
    /// Pivots below this share of the scaled norm are moved up to it.
    pub static_pivot_threshold: Option<R>,
    /// Callers report unmatched variables of the scaling.
    pub warn_partial_singular: bool,
    /// The same pattern is expected again.
    pub pattern_reused_hint: bool,
}

/// One over `n`.
pub open spec fn one_over<R: Real>(n: u64) -> R {
    R::one_spec().over_spec(R::from_count_spec(n))
}

/// The settings with this pivot search: delays allowed, the cascade break armed
/// at one half with a floor of `1e-10`, everything else off.
pub open spec fn standard_params<R: Real>(bk: BunchKaufmanParams<R>) -> NumericParams<R> {
    NumericParams {
        bk,
        small_leaf: SmallLeafBatch::Off,
        fma: false,
        allow_delayed_pivots: true,
        cascade_break_ratio: Some(one_over(2)),
        cascade_break_eps: Some(one_over(10_000_000_000)),
        min_parallel_flops: None,
        sqd_mode: false,
        static_pivot_threshold: None,
        warn_partial_singular: false,
        pattern_reused_hint: false,
    }
}

impl<R: Real> NumericParams<R> {
    /// The settings with this pivot search, taken as it is.
    pub fn with_bk(bk: BunchKaufmanParams<R>) -> (r: Self)
        ensures
            r == standard_params(bk),
            r.bk == bk,
            r.allow_delayed_pivots && !r.fma && !r.sqd_mode && !r.warn_partial_singular,
            r.cascade_break_ratio == Some(R::one_spec().over_spec(R::from_count_spec(2))),
            r.cascade_break_eps == Some(
                R::one_spec().over_spec(R::from_count_spec(10_000_000_000)),
            ),
            r.static_pivot_threshold is None && r.min_parallel_flops is None,
    {
        NumericParams {
            bk,
            small_leaf: SmallLeafBatch::Off,
            fma: false,
            allow_delayed_pivots: true,
            cascade_break_ratio: Some(R::one().over(R::from_count(2))),
            cascade_break_eps: Some(R::one().over(R::from_count(10_000_000_000))),
            min_parallel_flops: None,
            sqd_mode: false,
            static_pivot_threshold: None,
            warn_partial_singular: false,
            pattern_reused_hint: false,
        }
    }

    /// The settings of the sparse factorization: the dense pivot search with a
    /// relative threshold of `1e-8`, and zero pivots accepted.
    pub fn sparse_default(dense: BunchKaufmanParams<R>) -> (r: Self)
        ensures
            r == standard_params(
                (BunchKaufmanParams {
                    pivot_threshold: one_over(100_000_000),
                    on_zero_pivot: ZeroPivotAction::ForceAccept,
                    ..dense
                }),
            ),
    {
        let bk = BunchKaufmanParams {
            pivot_threshold: R::one().over(R::from_count(100_000_000)),
            on_zero_pivot: ZeroPivotAction::ForceAccept,
            ..dense
        };
        NumericParams::with_bk(bk)
    }
}

/// `sqrt(n) * epsilon * norm`.
pub open spec fn null_floor<R: Real>(norm: R, n: u64) -> R {
    R::from_count_spec(n).sqrt_spec().times_spec(R::epsilon_spec()).times_spec(norm)
}

/// The magnitude below which a pivot of a matrix of this norm counts as zero.
pub fn null_pivot_floor<R: Real>(scaled_infnorm: R, n: usize) -> (r: R)
    ensures
        r == null_floor(scaled_infnorm, n as u64),
        r == R::from_count_spec(n as u64).sqrt_spec().times_spec(R::epsilon_spec()).times_spec(
            scaled_infnorm,
        ),
{
    R::from_count(n as u64).sqrt().times(R::epsilon()).times(scaled_infnorm)
}

/// The raised null-pivot tolerance, if it is to be raised: not for callers that
/// fail on a zero pivot, and only above the configured one.
pub open spec fn raised_null<R: Real>(p: NumericParams<R>, norm: R, n: u64) -> Option<R> {
    if p.bk.on_zero_pivot is Fail {
        None
    } else if null_floor(norm, n).gt_spec(p.bk.null_pivot_tol) {
        Some(null_floor(norm, n))
    } else {
        None
    }
}

/// The static-pivot floor, if one is asked for: the positive and finite product
/// of the threshold and the norm.
pub open spec fn static_floor<R: Real>(p: NumericParams<R>, norm: R) -> Option<R> {
    match p.static_pivot_threshold {
        Some(t) => if t.gt_spec(R::zero_spec()) && t.times_spec(norm).is_finite_spec()
            && t.times_spec(norm).gt_spec(R::zero_spec()) {
            Some(t.times_spec(norm))
        } else {
            None
        },
        None => None,
    }
}

/// The settings with the raised tolerances.
pub open spec fn overridden<R: Real>(p: NumericParams<R>, norm: R, n: u64) -> NumericParams<R> {
    let b1 = match static_floor(p, norm) {
        Some(f) => BunchKaufmanParams { static_pivot_floor: f, ..p.bk },
        None => p.bk,
    };
    let b2 = match raised_null(p, norm, n) {
        Some(f) => BunchKaufmanParams {
            null_pivot_tol: f,
            null_pivot_tol_2x2: f.times_spec(norm).maximum_spec(f.times_spec(f)),
            ..b1
        },
        None => b1,
    };
    NumericParams { bk: b2, ..p }
}

/// Adapt the pivot tolerances to the norm of the scaled matrix: `None` where the
/// settings stand as they are.
pub fn apply_post_scaling_overrides<R: Real>(
    params: &NumericParams<R>,
    scaled_infnorm: R,
    n: usize,
) -> (r: Option<NumericParams<R>>)
    ensures
        r is None <==> static_floor(*params, scaled_infnorm) is None && raised_null(
            *params,
            scaled_infnorm,
            n as u64,
        ) is None,
        r matches Some(p) ==> p == overridden(*params, scaled_infnorm, n as u64),
        r is None ==> *params == overridden(*params, scaled_infnorm, n as u64),
        r matches Some(p) ==> {
            let floor = R::from_count_spec(n as u64).sqrt_spec().times_spec(
                R::epsilon_spec(),
            ).times_spec(scaled_infnorm);
            let raised = !(params.bk.on_zero_pivot is Fail) && floor.gt_spec(
                params.bk.null_pivot_tol,
            );
            &&& raised ==> p.bk.null_pivot_tol == floor && p.bk.null_pivot_tol_2x2
                == floor.times_spec(scaled_infnorm).maximum_spec(floor.times_spec(floor))
            &&& !raised ==> p.bk.null_pivot_tol == params.bk.null_pivot_tol
                && p.bk.null_pivot_tol_2x2 == params.bk.null_pivot_tol_2x2
            &&& p.bk.static_pivot_floor == params.bk.static_pivot_floor
                || (params.static_pivot_threshold is Some && p.bk.static_pivot_floor
                == params.static_pivot_threshold->0.times_spec(scaled_infnorm))
        },
{
    let fixed: Option<R> = match params.static_pivot_threshold {
        Some(t) => {
            if t.gt(R::zero()) {
                let f = t.times(scaled_infnorm);
                if f.is_finite() && f.gt(R::zero()) {
                    Some(f)
                } else {
                    None
                }
            } else {
                None
            }
        },
        None => None,
    };
    let fails = match params.bk.on_zero_pivot {
        ZeroPivotAction::Fail => true,
        _ => false,
    };
    let floor = null_pivot_floor(scaled_infnorm, n);
    let raised: Option<R> = if !fails && floor.gt(params.bk.null_pivot_tol) {
        Some(floor)
    } else {
        None
    };
    if fixed.is_none() && raised.is_none() {
        return None;
    }
    let mut bk = params.bk;
    if let Some(f) = fixed {
        bk.static_pivot_floor = f;
    }
    if let Some(f) = raised {
        bk.null_pivot_tol = f;
        bk.null_pivot_tol_2x2 = f.times(scaled_infnorm).maximum(f.times(f));
    }
    Some(NumericParams { bk, ..*params })
}

/// Row sums after entry `(i, j)` of magnitude `m` of a symmetric matrix.
pub open spec fn sums_with<R: Real>(sums: Seq<R>, i: int, j: int, m: R) -> Seq<R> {
    let once = sums.update(i, sums[i].plus_spec(m));
    if i != j {
        once.update(j, once[j].plus_spec(m))
    } else {
        once
    }
}

fn add_entry<R: Real>(sums: &mut Vec<R>, i: usize, j: usize, m: R)
    requires
        i < old(sums)@.len(),
        j < old(sums)@.len(),
    ensures
        final(sums)@ == sums_with(old(sums)@, i as int, j as int, m),
        final(sums)@.len() == old(sums)@.len(),
{
    let a = sums[i].plus(m);
    sums.set(i, a);
    if i != j {
        let b = sums[j].plus(m);
        sums.set(j, b);
    }
}

/// Row sums of the scaled magnitudes after the first `q` entries of column `j`.
pub open spec fn column_sums<T: Scalar>(
    rows: Seq<usize>,
    vals: Seq<T>,
    scaling: Seq<T>,
    j: int,
    before: Seq<T::Real>,
    q: int,
) -> Seq<T::Real>
    decreases q,
{
    if q <= 0 {
        before
    } else {
        let i = rows[q - 1] as int;
        sums_with(
            column_sums(rows, vals, scaling, j, before, q - 1),
            i,
            j,
            vals[q - 1].times_spec(scaling[i]).times_spec(scaling[j]).magnitude_spec(),
        )
    }
}

/// Row sums after the first `j` columns.
pub open spec fn row_sums<T: Scalar>(a: GeneralCsc<T>, scaling: Seq<T>, j: int) -> Seq<T::Real>
    decreases j,
{
    if j <= 0 {
        Seq::new(a.n as nat, |i: int| <T::Real as Real>::zero_spec())
    } else {
        column_sums(
            a.rows_of(j - 1),
            a.vals_of(j - 1),
            scaling,
            j - 1,
            row_sums(a, scaling, j - 1),
            a.rows_of(j - 1).len() as int,
        )
    }
}

/// The largest of the first `k`, at least zero.
pub open spec fn most<R: Real>(s: Seq<R>, k: int) -> R
    decreases k,
{
    if k <= 0 {
        R::zero_spec()
    } else {
        most(s, k - 1).maximum_spec(s[k - 1])
    }
}

fn most_of<R: Real>(s: &Vec<R>) -> (r: R)
    ensures
        r == most(s@, s@.len() as int),
{
    let mut r: R = R::zero();
    let mut k: usize = 0;
    while k < s.len()
        invariant
            k <= s@.len(),
            r == most(s@, k as int),
        decreases s@.len() - k,
    {
        r = r.maximum(s[k]);
        k = k + 1;
    }
    r
}

fn zeros_of<R: Real>(n: usize) -> (r: Vec<R>)
    ensures
        r@ == Seq::new(n as nat, |i: int| R::zero_spec()),
        r@.len() == n,
{
    let mut r: Vec<R> = Vec::new();
    let mut k: usize = 0;
    while k < n
        invariant
            k <= n,
            r@.len() == k,
            forall|i: int| 0 <= i < k ==> #[trigger] r@[i] == R::zero_spec(),
        decreases n - k,
    {
        r.push(R::zero());
        k = k + 1;
    }
    assert(r@ =~= Seq::new(n as nat, |i: int| R::zero_spec()));
    r
}

/// The largest row sum of the scaled symmetric matrix whose lower triangle is
/// given.
pub fn scaled_matrix_infnorm<T: Scalar>(permuted: &GeneralCsc<T>, scaling: &[T]) -> (r: T::Real)
    requires
        permuted.wf(),
        scaling@.len() == permuted.n,
    ensures
        r == most(row_sums(*permuted, scaling@, permuted.n as int), permuted.n as int),
{
    let n: usize = permuted.n;
    let mut sums: Vec<T::Real> = zeros_of(n);
    let mut j: usize = 0;
    while j < n
        invariant
            j <= n,
            n == permuted.n,
            permuted.wf(),
            scaling@.len() == n,
            sums@.len() == n,
            sums@ == row_sums(*permuted, scaling@, j as int),
        decreases n - j,
    {
        proof {
            column_range(*permuted, j as int);
        }
        let ghost before = sums@;
        let ghost rows = permuted.rows_of(j as int);
        let ghost vals = permuted.vals_of(j as int);
        let sj = scaling[j];
        let lo: usize = permuted.col_ptr[j];
        let hi: usize = permuted.col_ptr[j + 1];
        let mut k: usize = lo;
        while k < hi
            invariant
                lo <= k <= hi <= permuted.row_idx@.len(),
                permuted.values@.len() == permuted.row_idx@.len(),
                j < n,
                scaling@.len() == n,
                sj == scaling@[j as int],
                rows.len() == hi - lo,
                vals.len() == hi - lo,
                below(rows, n as int),
                forall|q: int| 0 <= q < rows.len() ==> #[trigger] rows[q] == permuted.row_idx@[lo + q],
                forall|q: int| 0 <= q < rows.len() ==> #[trigger] vals[q] == permuted.values@[lo + q],
                sums@.len() == n,
                sums@ == column_sums(rows, vals, scaling@, j as int, before, k - lo),
            decreases hi - k,
        {
            proof {
                assert(rows[k - lo] == permuted.row_idx@[k as int]);
                assert(vals[k - lo] == permuted.values@[k as int]);
            }
            let i: usize = permuted.row_idx[k];
            let m = permuted.values[k].times(scaling[i]).times(sj).magnitude();
            add_entry(&mut sums, i, j, m);
            k = k + 1;
        }
        j = j + 1;
    }
    most_of(&sums)
}

/// Row sums of a dense lower triangle: columns before `j`, and rows before `i`
/// of column `j`.
pub open spec fn dense_sums<T: Scalar>(data: Seq<T>, n: int, j: int, i: int) -> Seq<T::Real>
    decreases j, i,
{
    if j < 0 {
        Seq::new(n as nat, |k: int| <T::Real as Real>::zero_spec())
    } else if i <= j {
        if j == 0 {
            Seq::new(n as nat, |k: int| <T::Real as Real>::zero_spec())
        } else {
            dense_sums(data, n, j - 1, n)
        }
    } else {
        sums_with(
            dense_sums(data, n, j, i - 1),
            i - 1,
            j,
            data[column_start(n, j) + (i - 1)].magnitude_spec(),
        )
    }
}

/// The largest row sum of a symmetric matrix given densely by its lower
/// triangle.
pub fn scaled_matrix_infnorm_dense<T: Scalar>(data: &[T], n: usize) -> (r: T::Real)
    requires
        data@.len() == n * n,
    ensures
        r == most(dense_sums(data@, n as int, n - 1, n as int), n as int),
{
    let size: usize = data.len();
    let mut sums: Vec<T::Real> = zeros_of(n);
    let mut j: usize = 0;
    while j < n
        invariant
            j <= n,
            size == data@.len(),
            size == n * n,
            sums@.len() == n,
            sums@ == dense_sums(data@, n as int, j as int, j as int),
        decreases n - j,
    {
        proof {
            column_bounds(n as int, j as int, n as int);
        }
        let base: usize = n * j;
        let mut i: usize = j;
        while i < n
            invariant
                j <= i <= n,
                j < n,
                size == data@.len(),
                base == column_start(n as int, j as int),
                base + n <= size,
                sums@.len() == n,
                sums@ == dense_sums(data@, n as int, j as int, i as int),
            decreases n - i,
        {
            add_entry(&mut sums, i, j, data[base + i].magnitude());
            i = i + 1;
        }
        j = j + 1;
    }
    most_of(&sums)
}

} // verus!
