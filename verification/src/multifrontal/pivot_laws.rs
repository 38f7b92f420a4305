//! What is reported of the pivots: in exact arithmetic the numbers are eigenvalues
//! of the pivot blocks, and the extremes are taken over all of them.

use crate::exact::{
    exact_complex, exact_real, multiplies_out, order_scales, product_sign, reorders, square_sign,
};
use crate::multifrontal::kernel::FrontalFactors;
use crate::multifrontal::node::NodeFactors;
use crate::multifrontal::stats::{
    absolute, extent_from, extent_upto, half, is_pair, lowest_from, lowest_upto, pair_parts,
    pivot_extent, pivot_low, pivot_width, unbounded,
};
use crate::scalar::{Real, Scalar};
use vstd::prelude::*;

verus! {

/// The discriminant of a real symmetric pair is a square.
proof fn discriminant<R: Real>(val: spec_fn(R) -> real, a: R, b: R, c: R)
    requires
        exact_real(val),
    ensures
        ({
            let (trace, det, disc) = pair_parts(a, b, c);
            let (x, y, z) = (val(a), val(b), val(c));
            &&& val(trace) == x + z
            &&& val(det) == x * z - y * y
            &&& val(disc) >= 0 as real
            &&& val(disc) * val(disc) == (x - z) * (x - z) + (y + y) * (y + y)
            &&& val(disc) * val(disc) == (x + z) * (x + z) - (4 as real) * (x * z - y * y)
        }),
{
    let (trace, det, disc) = pair_parts(a, b, c);
    let (x, y, z) = (val(a), val(b), val(c));
    assert(val(R::from_count_spec(4)) == 4 as real);
    let inner = trace.times_spec(trace).minus_spec(R::from_count_spec(4).times_spec(det));
    assert(val(inner) == (x + z) * (x + z) - (4 as real) * (x * z - y * y));
    assert((x + z) * (x + z) - (4 as real) * (x * z - y * y) == (x - z) * (x - z) + (y + y) * (y
        + y)) by (nonlinear_arith);
    square_sign(x - z);
    square_sign(y + y);
}

/// The lowest eigenvalue of a pair `[[a, b], [b, c]]` of real numbers: it takes
/// `a`, `b` and `c` to a singular matrix, and is no larger than `a` or `c`. For a
/// single pivot it is the pivot.
pub proof fn pivot_low_is_the_lowest_eigenvalue<T: Scalar>(
    val: spec_fn(T::Real) -> real,
    re: spec_fn(T) -> real,
    im: spec_fn(T) -> real,
    ff: FrontalFactors<T>,
    k: int,
)
    requires
        exact_complex(val, re, im),
    ensures
        ({
            let low = val(pivot_low(ff, k));
            let (a, b, c) = (re(ff.d_diag@[k]), re(ff.d_subdiag@[k]), re(ff.d_diag@[k + 1]));
            &&& is_pair(ff, k) ==> (a - low) * (c - low) == b * b && low <= a && low <= c
            &&& !is_pair(ff, k) ==> low == a
        }),
{
    if is_pair(ff, k) {
        let (p, q, r) = (
            ff.d_diag@[k].real_part_spec(),
            ff.d_subdiag@[k].real_part_spec(),
            ff.d_diag@[k + 1].real_part_spec(),
        );
        let (a, b, c) = (val(p), val(q), val(r));
        discriminant(val, p, q, r);
        let (trace, det, disc) = pair_parts(p, q, r);
        let d = val(disc);
        let h = val(half::<T::Real>());
        half_is_half::<T::Real>(val);
        let low = val(pivot_low(ff, k));
        assert(low == (a + c - d) * h);
        halves(a + c - d, h);
        assert(low + low == a + c - d);
        // (a - low)(c - low) is ((d + (a - c)) / 2) ((d - (a - c)) / 2)
        let (u, v) = (a - low, c - low);
        assert(u + u == d + (a - c) && v + v == d - (a - c));
        assert((d + (a - c)) * (d - (a - c)) == d * d - (a - c) * (a - c)) by (nonlinear_arith);
        assert((u + u) * (v + v) == (4 as real) * (u * v)) by (nonlinear_arith);
        assert((b + b) * (b + b) == (4 as real) * (b * b)) by (nonlinear_arith);
        assert(u * v == b * b);
        // d is at least |a - c|
        assert(d >= a - c && d >= c - a) by {
            square_sign(b + b);
            root_exceeds(d, a - c);
            assert((c - a) * (c - a) == (a - c) * (a - c)) by (nonlinear_arith);
            root_exceeds(d, c - a);
        }
    }
}

proof fn half_is_half<R: Real>(val: spec_fn(R) -> real)
    requires
        exact_real(val),
    ensures
        val(half::<R>()) + val(half::<R>()) == 1 as real,
{
    let h = val(half::<R>());
    assert(val(R::from_count_spec(2)) == 2 as real);
    assert(h * (2 as real) == 1 as real);
    assert(h * (2 as real) == h + h) by (nonlinear_arith);
}

proof fn halves(x: real, h: real)
    requires
        h + h == 1 as real,
    ensures
        x * h + x * h == x,
{
    multiplies_out(x, h, h);
    assert(x * (1 as real) == x) by (nonlinear_arith);
}

/// A number whose square is no smaller is no smaller.
proof fn root_exceeds(d: real, x: real)
    requires
        d >= 0 as real,
        d * d >= x * x,
    ensures
        d >= x,
{
    if d < x {
        product_sign(x - d, x + d);
        assert((x - d) * (x + d) == x * x - d * d) by (nonlinear_arith);
    }
}

/// The magnitude of a real number.
proof fn absolute_is<R: Real>(val: spec_fn(R) -> real, x: R)
    requires
        exact_real(val),
    ensures
        val(absolute(x)) == (if val(x) >= 0 as real {
            val(x)
        } else {
            -val(x)
        }),
{
}

/// The extent of a pivot: its larger number or the negative of it is an eigenvalue
/// of the pair `[[a, b], [b, c]]`, the smaller one is no larger, and their product
/// is the magnitude of the determinant. For a single pivot both are its magnitude.
pub proof fn pivot_extent_is_that_of_the_eigenvalues<T: Scalar>(
    val: spec_fn(T::Real) -> real,
    re: spec_fn(T) -> real,
    im: spec_fn(T) -> real,
    ff: FrontalFactors<T>,
    k: int,
)
    requires
        exact_complex(val, re, im),
    ensures
        ({
            let (small, large) = (val(pivot_extent(ff, k).0), val(pivot_extent(ff, k).1));
            let (a, b, c) = (re(ff.d_diag@[k]), re(ff.d_subdiag@[k]), re(ff.d_diag@[k + 1]));
            &&& is_pair(ff, k) ==> {
                &&& (large - a) * (large - c) == b * b || (-large - a) * (-large - c) == b * b
                &&& 0 as real <= small <= large
                &&& small * large == a * c - b * b || small * large == b * b - a * c
            }
            &&& !is_pair(ff, k) ==> small == val(ff.d_diag@[k].magnitude_spec()) && large == small
        }),
{
    if is_pair(ff, k) {
        let (p, q, r) = (
            ff.d_diag@[k].real_part_spec(),
            ff.d_subdiag@[k].real_part_spec(),
            ff.d_diag@[k + 1].real_part_spec(),
        );
        let (a, b, c) = (val(p), val(q), val(r));
        discriminant(val, p, q, r);
        let (trace, det, disc) = pair_parts(p, q, r);
        let d = val(disc);
        let e = val(det);
        let h = val(half::<T::Real>());
        half_is_half::<T::Real>(val);
        absolute_is(val, trace);
        absolute_is(val, det);
        let t = val(absolute(trace));
        let g = val(absolute(det));
        let (small, large) = (val(pivot_extent(ff, k).0), val(pivot_extent(ff, k).1));
        assert(large == (t + d) * h);
        halves(t + d, h);
        assert(large + large == t + d);
        assert(t * t == (a + c) * (a + c)) by {
            if t != a + c {
                assert((-(a + c)) * (-(a + c)) == (a + c) * (a + c)) by (nonlinear_arith);
            }
        }
        // large (t - large) is the determinant
        assert((t + d) * (t - d) == t * t - d * d) by (nonlinear_arith);
        let m = t - large;
        assert((large + large) * (m + m) == (4 as real) * (large * m)) by (nonlinear_arith);
        assert(m + m == t - d);
        assert(large * m == e);
        // so it is a root
        assert((large - a) * (large - c) == large * large - large * (a + c) + a * c)
            by (nonlinear_arith);
        assert((-large - a) * (-large - c) == large * large + large * (a + c) + a * c)
            by (nonlinear_arith);
        multiplies_out(large, t, large);
        assert(large * (-(a + c)) == -(large * (a + c))) by (nonlinear_arith);
        if a + c >= 0 as real {
            assert((large - a) * (large - c) == b * b);
        } else {
            assert((-large - a) * (-large - c) == b * b);
        }
        if large > 0 as real {
            assert(small * large == g);
            // g is large |m|, and |m| is at most large
            let n = if m >= 0 as real {
                m
            } else {
                -m
            };
            assert(large * (-m) == -(large * m)) by (nonlinear_arith);
            product_sign(large, n);
            assert(g == large * n);
            reorders(small, large, 1 as real);
            order_scales(large, small, n);
            order_scales(large, n, small);
            assert(small == n);
        } else {
            assert(large == 0 as real);
            product_sign(0 as real, m);
            product_sign(small, 0 as real);
        }
    }
}

/// A pivot starts at `j` if the pivots from `k` on are stepped through.
pub open spec fn starts_at<T: Scalar>(ff: FrontalFactors<T>, k: int, j: int) -> bool
    decreases ff.nelim - k,
{
    k < ff.nelim && (j == k || starts_at(ff, k + pivot_width(ff, k), j))
}

proof fn front_extremes<T: Scalar>(
    val: spec_fn(T::Real) -> real,
    ff: FrontalFactors<T>,
    x: (T::Real, T::Real),
    low: T::Real,
    k: int,
)
    requires
        exact_real(val),
        0 <= k,
    ensures
        ({
            let (lo, hi) = (val(extent_from(ff, x, k).0), val(extent_from(ff, x, k).1));
            let bottom = val(lowest_from(ff, low, k));
            &&& lo <= val(x.0) && hi >= val(x.1) && bottom <= val(low)
            &&& forall|j: int| #[trigger]
                starts_at(ff, k, j) ==> lo <= val(pivot_extent(ff, j).0) && hi >= val(
                    pivot_extent(ff, j).1,
                ) && bottom <= val(pivot_low(ff, j))
            &&& lo == val(x.0) || exists|j: int| #[trigger]
                starts_at(ff, k, j) && lo == val(pivot_extent(ff, j).0)
            &&& hi == val(x.1) || exists|j: int| #[trigger]
                starts_at(ff, k, j) && hi == val(pivot_extent(ff, j).1)
            &&& bottom == val(low) || exists|j: int| #[trigger]
                starts_at(ff, k, j) && bottom == val(pivot_low(ff, j))
        }),
    decreases ff.nelim - k,
{
    if k < ff.nelim {
        let (smaller, larger) = pivot_extent(ff, k);
        let y = (
            if x.0.gt_spec(smaller) {
                smaller
            } else {
                x.0
            },
            if larger.gt_spec(x.1) {
                larger
            } else {
                x.1
            },
        );
        let l = pivot_low(ff, k);
        let low2 = if low.gt_spec(l) {
            l
        } else {
            low
        };
        let next = k + pivot_width(ff, k);
        front_extremes(val, ff, y, low2, next);
        assert(starts_at(ff, k, k));
        let (lo, hi) = (val(extent_from(ff, x, k).0), val(extent_from(ff, x, k).1));
        let bottom = val(lowest_from(ff, low, k));
        assert(extent_from(ff, x, k) == extent_from(ff, y, next));
        assert(lowest_from(ff, low, k) == lowest_from(ff, low2, next));
        assert forall|j: int| #[trigger] starts_at(ff, k, j) implies lo <= val(
            pivot_extent(ff, j).0,
        ) && hi >= val(pivot_extent(ff, j).1) && bottom <= val(pivot_low(ff, j)) by {
            if j != k {
                assert(starts_at(ff, next, j));
            }
        }
        if lo != val(x.0) && lo == val(y.0) {
            assert(starts_at(ff, k, k) && lo == val(pivot_extent(ff, k).0));
        }
        if hi != val(x.1) && hi == val(y.1) {
            assert(starts_at(ff, k, k) && hi == val(pivot_extent(ff, k).1));
        }
        if bottom != val(low) && bottom == val(low2) {
            assert(starts_at(ff, k, k) && bottom == val(pivot_low(ff, k)));
        }
        if lo != val(x.0) && lo != val(y.0) {
            let j = choose|j: int| #[trigger]
                starts_at(ff, next, j) && lo == val(pivot_extent(ff, j).0);
            assert(starts_at(ff, k, j));
        }
        if hi != val(x.1) && hi != val(y.1) {
            let j = choose|j: int| #[trigger]
                starts_at(ff, next, j) && hi == val(pivot_extent(ff, j).1);
            assert(starts_at(ff, k, j));
        }
        if bottom != val(low) && bottom != val(low2) {
            let j = choose|j: int| #[trigger]
                starts_at(ff, next, j) && bottom == val(pivot_low(ff, j));
            assert(starts_at(ff, k, j));
        }
    }
}

/// Pivot `j` of node `s` is one of those of the first `k` nodes.
pub open spec fn is_pivot<T: Scalar>(
    nodes: Seq<NodeFactors<T>>,
    k: int,
    s: int,
    j: int,
) -> bool {
    0 <= s < k && starts_at(nodes[s].frontal_factors, 0, j)
}

/// The extremes that are reported are those of all pivots of the first `k` nodes:
/// no pivot goes below the smallest magnitude or above the largest, none has an
/// eigenvalue below the lowest, and each of the three is that of a pivot unless it
/// is still what it started from.
pub proof fn extremes_are_those_of_all_pivots<T: Scalar>(
    val: spec_fn(T::Real) -> real,
    nodes: Seq<NodeFactors<T>>,
    k: int,
)
    requires
        exact_real(val),
        0 <= k <= nodes.len(),
    ensures
        ({
            let (lo, hi) = (val(extent_upto(nodes, k).0), val(extent_upto(nodes, k).1));
            let bottom = val(lowest_upto(nodes, k));
            &&& forall|s: int, j: int| #[trigger]
                is_pivot(nodes, k, s, j) ==> {
                    let ff = nodes[s].frontal_factors;
                    &&& lo <= val(pivot_extent(ff, j).0)
                    &&& hi >= val(pivot_extent(ff, j).1)
                    &&& bottom <= val(pivot_low(ff, j))
                }
            &&& lo == val(unbounded::<T::Real>()) || exists|s: int, j: int| #[trigger]
                is_pivot(nodes, k, s, j) && lo == val(pivot_extent(nodes[s].frontal_factors, j).0)
            &&& hi == 0 as real || exists|s: int, j: int| #[trigger]
                is_pivot(nodes, k, s, j) && hi == val(pivot_extent(nodes[s].frontal_factors, j).1)
            &&& bottom == val(unbounded::<T::Real>()) || exists|s: int, j: int| #[trigger]
                is_pivot(nodes, k, s, j) && bottom == val(pivot_low(nodes[s].frontal_factors, j))
        }),
    decreases k,
{
    if k > 0 {
        extremes_are_those_of_all_pivots(val, nodes, k - 1);
        let ff = nodes[k - 1].frontal_factors;
        let x = extent_upto(nodes, k - 1);
        let low = lowest_upto(nodes, k - 1);
        front_extremes(val, ff, x, low, 0);
        let (lo, hi) = (val(extent_upto(nodes, k).0), val(extent_upto(nodes, k).1));
        let bottom = val(lowest_upto(nodes, k));
        assert forall|s: int, j: int| #[trigger] is_pivot(nodes, k, s, j) implies {
            let ff = nodes[s].frontal_factors;
            &&& lo <= val(pivot_extent(ff, j).0)
            &&& hi >= val(pivot_extent(ff, j).1)
            &&& bottom <= val(pivot_low(ff, j))
        } by {
            if s < k - 1 {
                assert(is_pivot(nodes, k - 1, s, j));
            }
        }
        if lo != val(x.0) {
            let j = choose|j: int| #[trigger]
                starts_at(ff, 0, j) && lo == val(pivot_extent(ff, j).0);
            assert(is_pivot(nodes, k, k - 1, j));
        } else if lo != val(unbounded::<T::Real>()) {
            let (s, j) = choose|s: int, j: int| #[trigger]
                is_pivot(nodes, k - 1, s, j) && lo == val(
                    pivot_extent(nodes[s].frontal_factors, j).0,
                );
            assert(is_pivot(nodes, k, s, j));
        }
        if hi != val(x.1) {
            let j = choose|j: int| #[trigger]
                starts_at(ff, 0, j) && hi == val(pivot_extent(ff, j).1);
            assert(is_pivot(nodes, k, k - 1, j));
        } else if hi != 0 as real {
            let (s, j) = choose|s: int, j: int| #[trigger]
                is_pivot(nodes, k - 1, s, j) && hi == val(
                    pivot_extent(nodes[s].frontal_factors, j).1,
                );
            assert(is_pivot(nodes, k, s, j));
        }
        if bottom != val(low) {
            let j = choose|j: int| #[trigger]
                starts_at(ff, 0, j) && bottom == val(pivot_low(ff, j));
            assert(is_pivot(nodes, k, k - 1, j));
        } else if bottom != val(unbounded::<T::Real>()) {
            let (s, j) = choose|s: int, j: int| #[trigger]
                is_pivot(nodes, k - 1, s, j) && bottom == val(
                    pivot_low(nodes[s].frontal_factors, j),
                );
            assert(is_pivot(nodes, k, s, j));
        }
    }
}

} // verus!
