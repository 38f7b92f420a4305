//! Exact numbers: what the laws of exact arithmetic ask of a scalar type.
//!
//! A type is exact when its values can be read as real or complex numbers and
//! every operation does to the values what the name says to the numbers.

use crate::scalar::{Real, Scalar};
use vstd::prelude::*;

verus! {

/// The magnitudes are real numbers under the reading `val`.
pub open spec fn exact_real<R: Real>(val: spec_fn(R) -> real) -> bool {
    &&& val(R::zero_spec()) == 0 as real
    &&& val(R::one_spec()) == 1 as real
    &&& val(R::epsilon_spec()) == 0 as real
    &&& forall|n: u64| #[trigger] val(R::from_count_spec(n)) == n as int as real
    &&& forall|a: R, b: R| val(#[trigger] a.plus_spec(b)) == val(a) + val(b)
    &&& forall|a: R, b: R| val(#[trigger] a.minus_spec(b)) == val(a) - val(b)
    &&& forall|a: R, b: R| val(#[trigger] a.times_spec(b)) == val(a) * val(b)
    &&& forall|a: R, b: R|
        val(b) != 0 as real ==> val(#[trigger] a.over_spec(b)) * val(b) == val(a)
    &&& forall|a: R|
        val(a) >= 0 as real ==> val(#[trigger] a.sqrt_spec()) >= 0 as real && val(a.sqrt_spec())
            * val(a.sqrt_spec()) == val(a)
    &&& forall|a: R, b: R|
        val(#[trigger] a.maximum_spec(b)) == (if val(a) >= val(b) {
            val(a)
        } else {
            val(b)
        })
    &&& forall|a: R, b: R| #[trigger] a.gt_spec(b) <==> val(a) > val(b)
    &&& forall|a: R, b: R| #[trigger] a.ge_spec(b) <==> val(a) >= val(b)
    &&& forall|a: R| #[trigger] a.is_zero_spec() <==> val(a) == 0 as real
    &&& forall|a: R| #[trigger] a.is_finite_spec()
}

/// The scalars are complex numbers with these real and imaginary parts.
pub open spec fn exact_complex<T: Scalar>(
    val: spec_fn(T::Real) -> real,
    re: spec_fn(T) -> real,
    im: spec_fn(T) -> real,
) -> bool {
    &&& exact_real(val)
    &&& re(T::zero_spec()) == 0 as real && im(T::zero_spec()) == 0 as real
    &&& re(T::one_spec()) == 1 as real && im(T::one_spec()) == 0 as real
    &&& forall|x: T::Real|
        re(#[trigger] T::from_real_spec(x)) == val(x) && im(T::from_real_spec(x)) == 0 as real
    &&& forall|a: T, b: T|
        re(#[trigger] a.plus_spec(b)) == re(a) + re(b) && im(a.plus_spec(b)) == im(a) + im(b)
    &&& forall|a: T, b: T|
        re(#[trigger] a.minus_spec(b)) == re(a) - re(b) && im(a.minus_spec(b)) == im(a) - im(b)
    &&& forall|a: T, b: T|
        re(#[trigger] a.times_spec(b)) == re(a) * re(b) - im(a) * im(b) && im(a.times_spec(b))
            == re(a) * im(b) + im(a) * re(b)
    &&& forall|a: T|
        re(#[trigger] a.conj_spec()) == re(a) && im(a.conj_spec()) == -im(a)
    &&& forall|a: T|
        re(#[trigger] a.negate_spec()) == -re(a) && im(a.negate_spec()) == -im(a)
    &&& forall|a: T| val(#[trigger] a.real_part_spec()) == re(a)
    &&& forall|a: T| val(#[trigger] a.magnitude_sq_spec()) == re(a) * re(a) + im(a) * im(a)
    &&& forall|a: T|
        val(#[trigger] a.magnitude_spec()) >= 0 as real && val(a.magnitude_spec()) * val(
            a.magnitude_spec(),
        ) == re(a) * re(a) + im(a) * im(a)
    &&& forall|a: T|
        #[trigger] a.is_zero_spec() <==> re(a) == 0 as real && im(a) == 0 as real
}

/// Scalars that are the same complex number are the same.
pub open spec fn faithful<T: Scalar>(re: spec_fn(T) -> real, im: spec_fn(T) -> real) -> bool {
    forall|a: T, b: T|
        #![trigger re(a), re(b)]
        re(a) == re(b) && im(a) == im(b) ==> a == b
}

/// `c (x + y)` and `c (x - y)` multiply out.
pub proof fn multiplies_out(c: real, x: real, y: real)
    ensures
        c * (x + y) == c * x + c * y,
        c * (x - y) == c * x - c * y,
{
    assert(c * (x + y) == c * x + c * y) by (nonlinear_arith);
    assert(c * (x - y) == c * x - c * y) by (nonlinear_arith);
}

/// Products may be taken in any order.
pub proof fn reorders(x: real, y: real, z: real)
    ensures
        x * y == y * x,
        (x * y) * z == x * (y * z),
{
    assert(x * y == y * x) by (nonlinear_arith);
    assert((x * y) * z == x * (y * z)) by (nonlinear_arith);
}

/// The sign of a product.
pub proof fn product_sign(x: real, y: real)
    ensures
        x > 0 as real && y > 0 as real ==> x * y > 0 as real,
        x >= 0 as real && y >= 0 as real ==> x * y >= 0 as real,
        x * (0 as real) == 0 as real,
        (0 as real) * y == 0 as real,
{
    assert(x * (0 as real) == 0 as real) by (nonlinear_arith);
    assert((0 as real) * y == 0 as real) by (nonlinear_arith);
    if x > 0 as real && y > 0 as real {
        assert(x * y > 0 as real) by (nonlinear_arith)
            requires
                x > 0 as real,
                y > 0 as real,
        ;
    }
    if x == 0 as real || y == 0 as real {
        assert(x * y == 0 as real);
    }
}

/// A positive factor keeps the order.
pub proof fn order_scales(c: real, x: real, y: real)
    requires
        c > 0 as real,
    ensures
        c * x > c * y <==> x > y,
        c * x >= c * y <==> x >= y,
        c * x == 0 as real <==> x == 0 as real,
{
    multiplies_out(c, x, y);
    multiplies_out(c, y, x);
    product_sign(c, x - y);
    product_sign(c, y - x);
    product_sign(c, x);
    product_sign(c, -x);
    multiplies_out(c, 0 as real, x);
    product_sign(c, 0 as real);
}

/// Nonnegative numbers with the same square are the same.
pub proof fn roots_agree(x: real, y: real)
    requires
        x >= 0 as real,
        y >= 0 as real,
        x * x == y * y,
    ensures
        x == y,
{
    assert((x - y) * (x + y) == x * x - y * y) by (nonlinear_arith);
    assert((y - x) * (x + y) == y * y - x * x) by (nonlinear_arith);
    product_sign(x - y, x + y);
    product_sign(y - x, x + y);
}

/// A square that vanishes is the square of zero, and no square is negative.
pub proof fn square_sign(x: real)
    ensures
        x * x >= 0 as real,
        x * x == 0 as real ==> x == 0 as real,
{
    product_sign(x, x);
    product_sign(-x, -x);
    assert((-x) * (-x) == x * x) by (nonlinear_arith);
}

/// The product of two sums of two squares is one again.
pub proof fn squares_multiply(p: real, q: real, u: real, v: real)
    ensures
        (p * u - q * v) * (p * u - q * v) + (p * v + q * u) * (p * v + q * u) == (p * p + q * q) * (
        u * u + v * v),
{
    let a = p * u;
    let b = q * v;
    let c = p * v;
    let d = q * u;
    assert((a - b) * (a - b) == a * a - (a * b + a * b) + b * b) by (nonlinear_arith);
    assert((c + d) * (c + d) == c * c + (c * d + c * d) + d * d) by (nonlinear_arith);
    assert((p * u) * (q * v) == (p * v) * (q * u)) by (nonlinear_arith);
    square_of_product(p, u);
    square_of_product(q, v);
    square_of_product(p, v);
    square_of_product(q, u);
    let (pp, qq, uu, vv) = (p * p, q * q, u * u, v * v);
    multiplies_out(pp + qq, uu, vv);
    reorders(pp + qq, uu, vv);
    reorders(pp + qq, vv, uu);
    multiplies_out(uu, pp, qq);
    multiplies_out(vv, pp, qq);
    reorders(uu, pp, qq);
    reorders(uu, qq, pp);
    reorders(vv, pp, qq);
    reorders(vv, qq, pp);
}

/// The square of a product is the product of the squares.
pub proof fn square_of_product(x: real, y: real)
    ensures
        (x * y) * (x * y) == (x * x) * (y * y),
{
    assert((x * y) * (x * y) == (x * x) * (y * y)) by (nonlinear_arith);
}

} // verus!
