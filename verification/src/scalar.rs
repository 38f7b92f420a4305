//! The arithmetic that the solvers are written against.
//!
//! Every operation is tied to a specification function, so a contract can say
//! which operations are carried out and in which order, whatever rounding the
//! implementing type has. [`Field`] adds the laws of exact arithmetic; the
//! algebraic theorems of the library are stated for such types.

use vstd::prelude::*;

verus! {

/// Magnitudes, thresholds and scale factors.
pub trait Real: Copy + Sized {
    spec fn zero_spec() -> Self;

    spec fn one_spec() -> Self;

    spec fn from_count_spec(n: u64) -> Self;

    spec fn plus_spec(self, other: Self) -> Self;

    spec fn times_spec(self, other: Self) -> Self;

    spec fn over_spec(self, other: Self) -> Self;

    spec fn sqrt_spec(self) -> Self;

    spec fn minus_spec(self, other: Self) -> Self;

    spec fn maximum_spec(self, other: Self) -> Self;

    spec fn epsilon_spec() -> Self;

    spec fn gt_spec(self, other: Self) -> bool;

    spec fn ge_spec(self, other: Self) -> bool;

    spec fn is_zero_spec(self) -> bool;

    spec fn is_finite_spec(self) -> bool;

    fn zero() -> (r: Self)
        ensures
            r == Self::zero_spec(),
    ;

    fn one() -> (r: Self)
        ensures
            r == Self::one_spec(),
    ;

    /// The real number `n`, rounded to the type.
    fn from_count(n: u64) -> (r: Self)
        ensures
            r == Self::from_count_spec(n),
    ;

    fn plus(self, other: Self) -> (r: Self)
        ensures
            r == self.plus_spec(other),
    ;

    fn times(self, other: Self) -> (r: Self)
        ensures
            r == self.times_spec(other),
    ;

    fn over(self, other: Self) -> (r: Self)
        ensures
            r == self.over_spec(other),
    ;

    fn sqrt(self) -> (r: Self)
        ensures
            r == self.sqrt_spec(),
    ;

    fn minus(self, other: Self) -> (r: Self)
        ensures
            r == self.minus_spec(other),
    ;

    /// The larger of the two numbers.
    fn maximum(self, other: Self) -> (r: Self)
        ensures
            r == self.maximum_spec(other),
    ;

    /// The distance from one to the next representable number.
    fn epsilon() -> (r: Self)
        ensures
            r == Self::epsilon_spec(),
    ;

    /// `self > other`.
    fn gt(self, other: Self) -> (r: bool)
        ensures
            r == self.gt_spec(other),
    ;

    /// `self >= other`.
    fn ge(self, other: Self) -> (r: bool)
        ensures
            r == self.ge_spec(other),
    ;

    fn is_zero(self) -> (r: bool)
        ensures
            r == self.is_zero_spec(),
    ;

    fn is_finite(self) -> (r: bool)
        ensures
            r == self.is_finite_spec(),
    ;

    /// Nothing exceeds itself.
    proof fn gt_irreflexive(a: Self)
        ensures
            !a.gt_spec(a),
    ;

    /// The order is transitive.
    proof fn gt_transitive(a: Self, b: Self, c: Self)
        requires
            a.gt_spec(b),
            b.gt_spec(c),
        ensures
            a.gt_spec(c),
    ;

    /// What exceeds zero is not zero.
    proof fn positive_is_nonzero(a: Self)
        requires
            a.gt_spec(Self::zero_spec()),
        ensures
            !a.is_zero_spec(),
    ;
}

/// Matrix and vector entries.
pub trait Scalar: Copy + Sized {
    /// The type of magnitudes.
    type Real: Real;

    spec fn zero_spec() -> Self;

    spec fn one_spec() -> Self;

    spec fn from_real_spec(x: Self::Real) -> Self;

    spec fn plus_spec(self, other: Self) -> Self;

    spec fn minus_spec(self, other: Self) -> Self;

    spec fn times_spec(self, other: Self) -> Self;

    spec fn over_spec(self, other: Self) -> Self;

    spec fn fmadd_spec(self, b: Self, c: Self) -> Self;

    spec fn conj_spec(self) -> Self;

    spec fn recip_spec(self) -> Self;

    spec fn negate_spec(self) -> Self;

    spec fn real_part_spec(self) -> Self::Real;

    spec fn magnitude_spec(self) -> Self::Real;

    spec fn magnitude_sq_spec(self) -> Self::Real;

    spec fn is_zero_spec(self) -> bool;

    spec fn is_finite_spec(self) -> bool;

    fn zero() -> (r: Self)
        ensures
            r == Self::zero_spec(),
    ;

    fn one() -> (r: Self)
        ensures
            r == Self::one_spec(),
    ;

    /// The scalar with this real value.
    fn from_real(x: Self::Real) -> (r: Self)
        ensures
            r == Self::from_real_spec(x),
    ;

    fn plus(self, other: Self) -> (r: Self)
        ensures
            r == self.plus_spec(other),
    ;

    fn minus(self, other: Self) -> (r: Self)
        ensures
            r == self.minus_spec(other),
    ;

    fn times(self, other: Self) -> (r: Self)
        ensures
            r == self.times_spec(other),
    ;

    fn over(self, other: Self) -> (r: Self)
        ensures
            r == self.over_spec(other),
    ;

    /// `self * b + c`, rounded once or twice as the type sees fit.
    fn fmadd(self, b: Self, c: Self) -> (r: Self)
        ensures
            r == self.fmadd_spec(b, c),
    ;

    /// The complex conjugate (the value itself for a real type).
    fn conj(self) -> (r: Self)
        ensures
            r == self.conj_spec(),
    ;

    /// The reciprocal.
    fn recip(self) -> (r: Self)
        ensures
            r == self.recip_spec(),
    ;

    /// The negative.
    fn negate(self) -> (r: Self)
        ensures
            r == self.negate_spec(),
    ;

    /// The real part.
    fn real_part(self) -> (r: Self::Real)
        ensures
            r == self.real_part_spec(),
    ;

    /// The absolute value.
    fn magnitude(self) -> (r: Self::Real)
        ensures
            r == self.magnitude_spec(),
    ;

    /// The squared absolute value.
    fn magnitude_sq(self) -> (r: Self::Real)
        ensures
            r == self.magnitude_sq_spec(),
    ;

    fn is_zero(self) -> (r: bool)
        ensures
            r == self.is_zero_spec(),
    ;

    fn is_finite(self) -> (r: bool)
        ensures
            r == self.is_finite_spec(),
    ;
}

/// `0 - x`.
pub open spec fn neg<T: Scalar>(x: T) -> T {
    T::zero_spec().minus_spec(x)
}

/// Scalars whose operations are exact and obey the laws of a field.
pub trait Field: Scalar {
    proof fn plus_comm(a: Self, b: Self)
        ensures
            a.plus_spec(b) == b.plus_spec(a),
    ;

    proof fn plus_assoc(a: Self, b: Self, c: Self)
        ensures
            a.plus_spec(b).plus_spec(c) == a.plus_spec(b.plus_spec(c)),
    ;

    proof fn plus_zero(a: Self)
        ensures
            a.plus_spec(Self::zero_spec()) == a,
    ;

    proof fn minus_plus(a: Self, b: Self)
        ensures
            a.minus_spec(b).plus_spec(b) == a,
    ;

    proof fn times_comm(a: Self, b: Self)
        ensures
            a.times_spec(b) == b.times_spec(a),
    ;

    proof fn times_assoc(a: Self, b: Self, c: Self)
        ensures
            a.times_spec(b).times_spec(c) == a.times_spec(b.times_spec(c)),
    ;

    proof fn times_one(a: Self)
        ensures
            a.times_spec(Self::one_spec()) == a,
    ;

    proof fn distributes(a: Self, b: Self, c: Self)
        ensures
            a.times_spec(b.plus_spec(c)) == a.times_spec(b).plus_spec(a.times_spec(c)),
    ;

    proof fn over_times(a: Self, b: Self)
        requires
            b != Self::zero_spec(),
        ensures
            a.over_spec(b).times_spec(b) == a,
    ;

    proof fn fmadd_exact(a: Self, b: Self, c: Self)
        ensures
            a.fmadd_spec(b, c) == a.times_spec(b).plus_spec(c),
    ;

    proof fn recip_inverts(a: Self)
        requires
            a != Self::zero_spec(),
        ensures
            a.times_spec(a.recip_spec()) == Self::one_spec(),
    ;

    proof fn negate_exact(a: Self)
        ensures
            a.negate_spec() == neg(a),
    ;

    proof fn zero_test(a: Self)
        ensures
            a.is_zero_spec() <==> a == Self::zero_spec(),
            a.magnitude_spec().is_zero_spec() <==> a == Self::zero_spec(),
            a.magnitude_spec().gt_spec(<Self::Real as Real>::zero_spec()) <==> a
                != Self::zero_spec(),
    ;

    /// Scaling by the reciprocal of a magnitude, or by one, loses nothing.
    proof fn scale_is_unit(a: Self)
        ensures
            Self::from_real_spec(<Self::Real as Real>::one_spec()) != Self::zero_spec(),
            a.magnitude_spec().gt_spec(<Self::Real as Real>::zero_spec())
                && a.magnitude_spec().is_finite_spec() ==> Self::from_real_spec(
                <Self::Real as Real>::one_spec().over_spec(a.magnitude_spec()),
            ) != Self::zero_spec(),
    ;
}

} // verus!
