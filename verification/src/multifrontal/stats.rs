//! What the stored factors tell: sizes, pivot counts and the extent of `D`.

use crate::counts::saturated;
use crate::multifrontal::factors::{inertia_upto, node_ok, SparseFactors};
use crate::multifrontal::kernel::{FrontalFactors, Inertia};
use crate::multifrontal::node::NodeFactors;
use crate::scalar::{Real, Scalar};
use vstd::prelude::*;

verus! {

/// Entries of `L` in one node: the lower triangle of the eliminated columns with
/// its diagonal, and the rows below.
pub open spec fn node_entries<T: Scalar>(node: NodeFactors<T>) -> int {
    let e = node.nelim as int;
    e * (e + 1) / 2 + (node.nrow - e) * e
}

/// Entries of `L` in the first `k` nodes.
pub open spec fn entries_upto<T: Scalar>(nodes: Seq<NodeFactors<T>>, k: int) -> int
    decreases k,
{
    if k <= 0 {
        0
    } else {
        entries_upto(nodes, k - 1) + node_entries(nodes[k - 1])
    }
}

fn count_entries(nrow: usize, nelim: usize) -> (r: u64)
    requires
        nelim <= nrow,
    ensures
        r == saturated(nelim * (nelim + 1) / 2 + (nrow - nelim) * nelim),
        0 <= nelim * (nelim + 1) / 2 + (nrow - nelim) * nelim,
{
    let e: u128 = nelim as u128;
    let m: u128 = nrow as u128;
    proof {
        assert(0 <= e * (e + 1) <= 0xFFFF_FFFF_FFFF_FFFF * 0x1_0000_0000_0000_0000) by (nonlinear_arith)
            requires
                0 <= e <= 0xFFFF_FFFF_FFFF_FFFF,
        ;
        assert(0 <= (m - e) * e <= 0xFFFF_FFFF_FFFF_FFFF * 0xFFFF_FFFF_FFFF_FFFF) by (nonlinear_arith)
            requires
                0 <= e <= m,
                m <= 0xFFFF_FFFF_FFFF_FFFF,
        ;
        assert(e * (e + 1) / 2 + (m - e) * e <= 0xFFFF_FFFF_FFFF_FFFF * 0x1_0000_0000_0000_0000) by (nonlinear_arith)
            requires
                0 <= e <= m,
                m <= 0xFFFF_FFFF_FFFF_FFFF,
        {
            assert((m - e) * e + e * (e + 1) == e * (m + 1)) by (nonlinear_arith);
            assert(e * (m + 1) <= 0xFFFF_FFFF_FFFF_FFFF * 0x1_0000_0000_0000_0000) by (nonlinear_arith)
                requires
                    0 <= e <= m,
                    m <= 0xFFFF_FFFF_FFFF_FFFF,
            ;
            assert(e * (e + 1) >= 0) by (nonlinear_arith)
                requires
                    0 <= e,
            ;
        }
    }
    let total: u128 = e * (e + 1) / 2 + (m - e) * e;
    if total > u64::MAX as u128 {
        u64::MAX
    } else {
        total as u64
    }
}

/// The pivot at `k` is the head of a 2 by 2 block.
pub open spec fn is_pair<T: Scalar>(ff: FrontalFactors<T>, k: int) -> bool {
    k + 1 < ff.nelim && !ff.d_subdiag@[k].is_zero_spec()
}

/// How many 2 by 2 pivots there are from position `k` on.
pub open spec fn pairs_from<T: Scalar>(ff: FrontalFactors<T>, k: int) -> int
    decreases ff.nelim - k,
{
    if k >= ff.nelim {
        0
    } else if is_pair(ff, k) {
        1 + pairs_from(ff, k + 2)
    } else {
        pairs_from(ff, k + 1)
    }
}

fn count_pairs<T: Scalar>(ff: &FrontalFactors<T>) -> (r: usize)
    requires
        ff.d_subdiag@.len() == ff.nelim,
    ensures
        r == pairs_from(*ff, 0),
        r <= ff.nelim,
{
    let n: usize = ff.nelim;
    let mut r: usize = 0;
    let mut k: usize = 0;
    while k < n
        invariant
            k <= n,
            n == ff.nelim,
            ff.d_subdiag@.len() == n,
            r <= k,
            r + pairs_from(*ff, k as int) == pairs_from(*ff, 0),
        decreases n - k,
    {
        if k + 1 < n && !ff.d_subdiag[k].is_zero() {
            r = r + 1;
            k = k + 2;
        } else {
            k = k + 1;
        }
    }
    r
}

/// 2 by 2 pivots in the first `k` nodes.
pub open spec fn pairs_upto<T: Scalar>(nodes: Seq<NodeFactors<T>>, k: int) -> int
    decreases k,
{
    if k <= 0 {
        0
    } else {
        pairs_upto(nodes, k - 1) + pairs_from(nodes[k - 1].frontal_factors, 0)
    }
}

/// Columns passed on in the first `k` nodes.
pub open spec fn delays_upto<T: Scalar>(nodes: Seq<NodeFactors<T>>, k: int) -> int
    decreases k,
{
    if k <= 0 {
        0
    } else {
        delays_upto(nodes, k - 1) + nodes[k - 1].frontal_factors.n_delayed
    }
}

/// Pivots moved away from zero in the first `k` nodes.
pub open spec fn tiny_upto<T: Scalar>(nodes: Seq<NodeFactors<T>>, k: int) -> int
    decreases k,
{
    if k <= 0 {
        0
    } else {
        tiny_upto(nodes, k - 1) + nodes[k - 1].frontal_factors.n_tiny
    }
}

/// The counts of one factorization.
#[derive(Debug, Clone, Copy, PartialEq, Eq)]
pub struct FactorSummary {
    pub n: usize,
    pub n_supernodes: usize,
    pub nnz_l: u64,
    pub n_2x2: u64,
    pub n_delayed: u64,
    pub inertia: Inertia,
}

/// One half.
pub open spec fn half<R: Real>() -> R {
    R::one_spec().over_spec(R::from_count_spec(2))
}

/// More than any number: one over zero.
pub open spec fn unbounded<R: Real>() -> R {
    R::one_spec().over_spec(R::zero_spec())
}

/// The magnitude of a real number.
pub open spec fn absolute<R: Real>(x: R) -> R {
    x.maximum_spec(R::zero_spec().minus_spec(x))
}

/// Trace, determinant and root of the discriminant of `[[a, b], [b, c]]`.
pub open spec fn pair_parts<R: Real>(a: R, b: R, c: R) -> (R, R, R) {
    let trace = a.plus_spec(c);
    let det = a.times_spec(c).minus_spec(b.times_spec(b));
    let disc = trace.times_spec(trace).minus_spec(
        R::from_count_spec(4).times_spec(det),
    ).maximum_spec(R::zero_spec()).sqrt_spec();
    (trace, det, disc)
}

fn parts_of<R: Real>(a: R, b: R, c: R) -> (r: (R, R, R))
    ensures
        r == pair_parts(a, b, c),
{
    let trace = a.plus(c);
    let det = a.times(c).minus(b.times(b));
    let disc = trace.times(trace).minus(R::from_count(4).times(det)).maximum(R::zero()).sqrt();
    (trace, det, disc)
}

/// The smallest eigenvalue of the pivot at `k`.
pub open spec fn pivot_low<T: Scalar>(ff: FrontalFactors<T>, k: int) -> T::Real {
    if is_pair(ff, k) {
        let (trace, det, disc) = pair_parts(
            ff.d_diag@[k].real_part_spec(),
            ff.d_subdiag@[k].real_part_spec(),
            ff.d_diag@[k + 1].real_part_spec(),
        );
        trace.minus_spec(disc).times_spec(half())
    } else {
        ff.d_diag@[k].real_part_spec()
    }
}

/// The smaller and the larger eigenvalue magnitude of the pivot at `k`.
pub open spec fn pivot_extent<T: Scalar>(ff: FrontalFactors<T>, k: int) -> (T::Real, T::Real) {
    if is_pair(ff, k) {
        let (trace, det, disc) = pair_parts(
            ff.d_diag@[k].real_part_spec(),
            ff.d_subdiag@[k].real_part_spec(),
            ff.d_diag@[k + 1].real_part_spec(),
        );
        let larger = absolute(trace).plus_spec(disc).times_spec(half());
        let smaller = if larger.gt_spec(<T::Real as Real>::zero_spec()) {
            absolute(det).over_spec(larger)
        } else {
            <T::Real as Real>::zero_spec()
        };
        (smaller, larger)
    } else {
        (ff.d_diag@[k].magnitude_spec(), ff.d_diag@[k].magnitude_spec())
    }
}

/// How far the pivot at `k` reaches.
pub open spec fn pivot_width<T: Scalar>(ff: FrontalFactors<T>, k: int) -> int {
    if is_pair(ff, k) {
        2
    } else {
        1
    }
}

/// The smallest of `low` and the pivot eigenvalues from position `k` on.
pub open spec fn lowest_from<T: Scalar>(ff: FrontalFactors<T>, low: T::Real, k: int) -> T::Real
    decreases ff.nelim - k,
{
    if k >= ff.nelim {
        low
    } else {
        let x = pivot_low(ff, k);
        lowest_from(
            ff,
            if low.gt_spec(x) {
                x
            } else {
                low
            },
            k + pivot_width(ff, k),
        )
    }
}

/// The smallest pivot eigenvalue of the first `k` nodes.
pub open spec fn lowest_upto<T: Scalar>(nodes: Seq<NodeFactors<T>>, k: int) -> T::Real
    decreases k,
{
    if k <= 0 {
        unbounded()
    } else {
        lowest_from(nodes[k - 1].frontal_factors, lowest_upto(nodes, k - 1), 0)
    }
}

/// The extent so far, widened by the pivots from position `k` on.
pub open spec fn extent_from<T: Scalar>(
    ff: FrontalFactors<T>,
    x: (T::Real, T::Real),
    k: int,
) -> (T::Real, T::Real)
    decreases ff.nelim - k,
{
    if k >= ff.nelim {
        x
    } else {
        let (smaller, larger) = pivot_extent(ff, k);
        let lo = if x.0.gt_spec(smaller) {
            smaller
        } else {
            x.0
        };
        let hi = if larger.gt_spec(x.1) {
            larger
        } else {
            x.1
        };
        extent_from(ff, (lo, hi), k + pivot_width(ff, k))
    }
}

/// The smallest and the largest pivot magnitude of the first `k` nodes.
pub open spec fn extent_upto<T: Scalar>(nodes: Seq<NodeFactors<T>>, k: int) -> (T::Real, T::Real)
    decreases k,
{
    if k <= 0 {
        (unbounded(), <T::Real as Real>::zero_spec())
    } else {
        extent_from(nodes[k - 1].frontal_factors, extent_upto(nodes, k - 1), 0)
    }
}

/// Some of the first `k` nodes eliminates something.
pub open spec fn any_upto<T: Scalar>(nodes: Seq<NodeFactors<T>>, k: int) -> bool {
    exists|s: int| 0 <= s < k && (#[trigger] nodes[s]).nelim > 0
}

fn low_of<T: Scalar>(ff: &FrontalFactors<T>, k: usize) -> (r: (T::Real, bool))
    requires
        k < ff.nelim,
        ff.d_diag@.len() == ff.nelim,
        ff.d_subdiag@.len() == ff.nelim,
    ensures
        r.0 == pivot_low(*ff, k as int),
        r.1 == is_pair(*ff, k as int),
{
    if k + 1 < ff.nelim && !ff.d_subdiag[k].is_zero() {
        let (trace, det, disc) = parts_of(
            ff.d_diag[k].real_part(),
            ff.d_subdiag[k].real_part(),
            ff.d_diag[k + 1].real_part(),
        );
        let h = <T::Real as Real>::one().over(<T::Real as Real>::from_count(2));
        (trace.minus(disc).times(h), true)
    } else {
        (ff.d_diag[k].real_part(), false)
    }
}

fn magnitude_of<R: Real>(x: R) -> (r: R)
    ensures
        r == absolute(x),
{
    x.maximum(R::zero().minus(x))
}

fn extent_of<T: Scalar>(ff: &FrontalFactors<T>, k: usize) -> (r: ((T::Real, T::Real), bool))
    requires
        k < ff.nelim,
        ff.d_diag@.len() == ff.nelim,
        ff.d_subdiag@.len() == ff.nelim,
    ensures
        r.0 == pivot_extent(*ff, k as int),
        r.1 == is_pair(*ff, k as int),
{
    if k + 1 < ff.nelim && !ff.d_subdiag[k].is_zero() {
        let (trace, det, disc) = parts_of(
            ff.d_diag[k].real_part(),
            ff.d_subdiag[k].real_part(),
            ff.d_diag[k + 1].real_part(),
        );
        let h = <T::Real as Real>::one().over(<T::Real as Real>::from_count(2));
        let larger = magnitude_of(trace).plus(disc).times(h);
        let smaller = if larger.gt(<T::Real as Real>::zero()) {
            magnitude_of(det).over(larger)
        } else {
            <T::Real as Real>::zero()
        };
        ((smaller, larger), true)
    } else {
        let m = ff.d_diag[k].magnitude();
        ((m, m), false)
    }
}

impl<T: Scalar> SparseFactors<T> {
    /// Stored entries of `L`, with the unit diagonal.
    pub fn factor_nnz(&self) -> (r: u64)
        requires
            self.wf(),
        ensures
            r == saturated(entries_upto(self.node_factors@, self.node_factors@.len() as int)),
    {
        let len: usize = self.node_factors.len();
        let mut r: u64 = 0;
        let mut k: usize = 0;
        while k < len
            invariant
                k <= len,
                len == self.node_factors@.len(),
                self.wf(),
                0 <= entries_upto(self.node_factors@, k as int),
                r == saturated(entries_upto(self.node_factors@, k as int)),
            decreases len - k,
        {
            assert(node_ok(self.node_factors@[k as int], self.n as int));
            let one: u64 = count_entries(self.node_factors[k].nrow, self.node_factors[k].nelim);
            r = r.saturating_add(one);
            k = k + 1;
        }
        r
    }

    /// Pivots moved away from zero.
    pub fn n_tiny(&self) -> (r: u64)
        ensures
            r == saturated(tiny_upto(self.node_factors@, self.node_factors@.len() as int)),
    {
        let len: usize = self.node_factors.len();
        let mut r: u64 = 0;
        let mut k: usize = 0;
        while k < len
            invariant
                k <= len,
                len == self.node_factors@.len(),
                0 <= tiny_upto(self.node_factors@, k as int),
                r == saturated(tiny_upto(self.node_factors@, k as int)),
            decreases len - k,
        {
            r = r.saturating_add(self.node_factors[k].frontal_factors.n_tiny as u64);
            k = k + 1;
        }
        r
    }

    /// The counts of this factorization.
    pub fn summary(&self) -> (r: FactorSummary)
        requires
            self.wf(),
        ensures
            r.n == self.n,
            r.n_supernodes == self.node_factors@.len(),
            r.nnz_l == saturated(
                entries_upto(self.node_factors@, self.node_factors@.len() as int),
            ),
            r.n_2x2 == saturated(pairs_upto(self.node_factors@, self.node_factors@.len() as int)),
            r.n_delayed == saturated(
                delays_upto(self.node_factors@, self.node_factors@.len() as int),
            ),
            (r.inertia.positive as int, r.inertia.negative as int, r.inertia.zero as int)
                == inertia_upto(self.node_factors@, self.node_factors@.len() as int),
    {
        let len: usize = self.node_factors.len();
        let nnz_l: u64 = self.factor_nnz();
        let mut pairs: u64 = 0;
        let mut delays: u64 = 0;
        let mut k: usize = 0;
        while k < len
            invariant
                k <= len,
                len == self.node_factors@.len(),
                self.wf(),
                0 <= pairs_upto(self.node_factors@, k as int),
                pairs == saturated(pairs_upto(self.node_factors@, k as int)),
                0 <= delays_upto(self.node_factors@, k as int),
                delays == saturated(delays_upto(self.node_factors@, k as int)),
            decreases len - k,
        {
            assert(node_ok(self.node_factors@[k as int], self.n as int));
            let ff = &self.node_factors[k].frontal_factors;
            pairs = pairs.saturating_add(count_pairs(ff) as u64);
            delays = delays.saturating_add(ff.n_delayed as u64);
            k = k + 1;
        }
        let (inertia, _) = crate::multifrontal::factors::collect_totals(
            &self.node_factors,
            self.n,
        );
        FactorSummary {
            n: self.n,
            n_supernodes: len,
            nnz_l,
            n_2x2: pairs,
            n_delayed: delays,
            inertia,
        }
    }

    /// The smallest eigenvalue of `D`, if anything was eliminated.
    pub fn min_diagonal(&self) -> (r: Option<T::Real>)
        requires
            self.wf(),
        ensures
            r is Some <==> any_upto(self.node_factors@, self.node_factors@.len() as int),
            r matches Some(x) ==> x == lowest_upto(
                self.node_factors@,
                self.node_factors@.len() as int,
            ),
    {
        let len: usize = self.node_factors.len();
        let mut low: T::Real = <T::Real as Real>::one().over(<T::Real as Real>::zero());
        let mut any = false;
        let mut s: usize = 0;
        while s < len
            invariant
                s <= len,
                len == self.node_factors@.len(),
                self.wf(),
                low == lowest_upto(self.node_factors@, s as int),
                any == any_upto(self.node_factors@, s as int),
            decreases len - s,
        {
            assert(node_ok(self.node_factors@[s as int], self.n as int));
            let ff = &self.node_factors[s].frontal_factors;
            let ghost goal = lowest_upto(self.node_factors@, s + 1);
            let mut k: usize = 0;
            while k < ff.nelim
                invariant
                    k <= ff.nelim,
                    ff.d_diag@.len() == ff.nelim,
                    ff.d_subdiag@.len() == ff.nelim,
                    goal == lowest_from(*ff, low, k as int),
                decreases ff.nelim - k,
            {
                let (x, pair) = low_of(ff, k);
                if low.gt(x) {
                    low = x;
                }
                k = if pair {
                    k + 2
                } else {
                    k + 1
                };
            }
            proof {
                any_step(self.node_factors@, s as int);
            }
            if self.node_factors[s].nelim > 0 {
                any = true;
            }
            s = s + 1;
        }
        if any {
            Some(low)
        } else {
            None
        }
    }

    /// The smallest and the largest eigenvalue magnitude of `D`, if anything was
    /// eliminated.
    pub fn pivot_magnitude_extent(&self) -> (r: Option<(T::Real, T::Real)>)
        requires
            self.wf(),
        ensures
            r is Some <==> any_upto(self.node_factors@, self.node_factors@.len() as int),
            r matches Some(x) ==> x == extent_upto(
                self.node_factors@,
                self.node_factors@.len() as int,
            ),
    {
        let len: usize = self.node_factors.len();
        let mut lo: T::Real = <T::Real as Real>::one().over(<T::Real as Real>::zero());
        let mut hi: T::Real = <T::Real as Real>::zero();
        let mut any = false;
        let mut s: usize = 0;
        while s < len
            invariant
                s <= len,
                len == self.node_factors@.len(),
                self.wf(),
                (lo, hi) == extent_upto(self.node_factors@, s as int),
                any == any_upto(self.node_factors@, s as int),
            decreases len - s,
        {
            assert(node_ok(self.node_factors@[s as int], self.n as int));
            let ff = &self.node_factors[s].frontal_factors;
            let ghost goal = extent_upto(self.node_factors@, s + 1);
            let mut k: usize = 0;
            while k < ff.nelim
                invariant
                    k <= ff.nelim,
                    ff.d_diag@.len() == ff.nelim,
                    ff.d_subdiag@.len() == ff.nelim,
                    goal == extent_from(*ff, (lo, hi), k as int),
                decreases ff.nelim - k,
            {
                let ((smaller, larger), pair) = extent_of(ff, k);
                if lo.gt(smaller) {
                    lo = smaller;
                }
                if larger.gt(hi) {
                    hi = larger;
                }
                k = if pair {
                    k + 2
                } else {
                    k + 1
                };
            }
            proof {
                any_step(self.node_factors@, s as int);
            }
            if self.node_factors[s].nelim > 0 {
                any = true;
            }
            s = s + 1;
        }
        if any {
            Some((lo, hi))
        } else {
            None
        }
    }

    /// The smallest pivot magnitude: how near to singular the matrix is.
    pub fn min_pivot_magnitude(&self) -> (r: Option<T::Real>)
        requires
            self.wf(),
        ensures
            r is Some <==> any_upto(self.node_factors@, self.node_factors@.len() as int),
            r matches Some(x) ==> x == extent_upto(
                self.node_factors@,
                self.node_factors@.len() as int,
            ).0,
    {
        match self.pivot_magnitude_extent() {
            Some((lo, _)) => Some(lo),
            None => None,
        }
    }

    /// The largest pivot magnitude.
    pub fn max_pivot_magnitude(&self) -> (r: Option<T::Real>)
        requires
            self.wf(),
        ensures
            r is Some <==> any_upto(self.node_factors@, self.node_factors@.len() as int),
            r matches Some(x) ==> x == extent_upto(
                self.node_factors@,
                self.node_factors@.len() as int,
            ).1,
    {
        match self.pivot_magnitude_extent() {
            Some((_, hi)) => Some(hi),
            None => None,
        }
    }
}

proof fn any_step<T: Scalar>(nodes: Seq<NodeFactors<T>>, s: int)
    requires
        0 <= s < nodes.len(),
    ensures
        any_upto(nodes, s + 1) == (any_upto(nodes, s) || nodes[s].nelim > 0),
{
    if any_upto(nodes, s) {
        let q = choose|q: int| 0 <= q < s && (#[trigger] nodes[q]).nelim > 0;
        assert(nodes[q].nelim > 0);
    }
    if any_upto(nodes, s + 1) && !(nodes[s].nelim > 0) {
        let q = choose|q: int| 0 <= q < s + 1 && (#[trigger] nodes[q]).nelim > 0;
        assert(q < s);
    }
}

} // verus!
