//! The field of seven elements: an exact scalar.
//!
//! Running a solver over this type exercises every index and every operation
//! of it without rounding, so an answer is either right or wrong.

use crate::scalar::{Field, Real, Scalar};
use vstd::arithmetic::div_mod::{
    lemma_add_mod_noop, lemma_mul_mod_noop_left, lemma_mul_mod_noop_right, lemma_small_mod,
};
use vstd::arithmetic::mul::{
    lemma_mul_is_associative, lemma_mul_is_commutative, lemma_mul_is_distributive_add,
};
use vstd::prelude::*;

verus! {

/// An integer modulo seven.
#[derive(Debug, Clone, Copy, PartialEq, Eq, Structural)]
pub enum Gf7 {
    Zero,
    One,
    Two,
    Three,
    Four,
    Five,
    Six,
}

impl Gf7 {
    /// The representative in `0..7`.
    pub open spec fn val(self) -> int {
        match self {
            Gf7::Zero => 0,
            Gf7::One => 1,
            Gf7::Two => 2,
            Gf7::Three => 3,
            Gf7::Four => 4,
            Gf7::Five => 5,
            Gf7::Six => 6,
        }
    }

    /// The residue class of `n`.
    pub open spec fn of(n: int) -> Gf7 {
        let r = n % 7;
        if r == 0 {
            Gf7::Zero
        } else if r == 1 {
            Gf7::One
        } else if r == 2 {
            Gf7::Two
        } else if r == 3 {
            Gf7::Three
        } else if r == 4 {
            Gf7::Four
        } else if r == 5 {
            Gf7::Five
        } else {
            Gf7::Six
        }
    }

    /// The reciprocal (zero for zero).
    pub open spec fn inv(self) -> Gf7 {
        match self {
            Gf7::Zero => Gf7::Zero,
            Gf7::One => Gf7::One,
            Gf7::Two => Gf7::Four,
            Gf7::Three => Gf7::Five,
            Gf7::Four => Gf7::Two,
            Gf7::Five => Gf7::Three,
            Gf7::Six => Gf7::Six,
        }
    }

    /// The representative in `0..7`.
    pub fn value(self) -> (r: u64)
        ensures
            r == self.val(),
            r < 7,
    {
        match self {
            Gf7::Zero => 0,
            Gf7::One => 1,
            Gf7::Two => 2,
            Gf7::Three => 3,
            Gf7::Four => 4,
            Gf7::Five => 5,
            Gf7::Six => 6,
        }
    }

    /// The residue class of `n`.
    pub fn new(n: u64) -> (r: Gf7)
        ensures
            r == Gf7::of(n as int),
    {
        let k: u64 = n % 7;
        if k == 0 {
            Gf7::Zero
        } else if k == 1 {
            Gf7::One
        } else if k == 2 {
            Gf7::Two
        } else if k == 3 {
            Gf7::Three
        } else if k == 4 {
            Gf7::Four
        } else if k == 5 {
            Gf7::Five
        } else {
            Gf7::Six
        }
    }
}

proof fn of_val(a: Gf7)
    ensures
        Gf7::of(a.val()) == a,
        0 <= a.val() < 7,
{
}

proof fn val_of(n: int)
    ensures
        Gf7::of(n).val() == n % 7,
{
}

/// `r` is the integer part of the square root of `x`.
pub open spec fn is_root(r: u64, x: u64) -> bool {
    r * r <= x < (r + 1) * (r + 1)
}

/// Counts as magnitudes: saturating sums and products, truncating quotients
/// and roots.
impl Real for u64 {
    open spec fn zero_spec() -> Self {
        0u64
    }

    open spec fn one_spec() -> Self {
        1u64
    }

    open spec fn from_count_spec(n: u64) -> Self {
        n
    }

    open spec fn plus_spec(self, other: Self) -> Self {
        if self + other <= u64::MAX {
            (self + other) as u64
        } else {
            u64::MAX
        }
    }

    open spec fn times_spec(self, other: Self) -> Self {
        if self * other <= u64::MAX {
            (self * other) as u64
        } else {
            u64::MAX
        }
    }

    open spec fn over_spec(self, other: Self) -> Self {
        if other == 0 {
            u64::MAX
        } else {
            self / other
        }
    }

    open spec fn sqrt_spec(self) -> Self {
        choose|r: u64| is_root(r, self)
    }

    open spec fn minus_spec(self, other: Self) -> Self {
        if self >= other {
            (self - other) as u64
        } else {
            0u64
        }
    }

    open spec fn maximum_spec(self, other: Self) -> Self {
        if self >= other {
            self
        } else {
            other
        }
    }

    open spec fn epsilon_spec() -> Self {
        0u64
    }

    open spec fn gt_spec(self, other: Self) -> bool {
        self > other
    }

    open spec fn ge_spec(self, other: Self) -> bool {
        self >= other
    }

    open spec fn is_zero_spec(self) -> bool {
        self == 0
    }

    open spec fn is_finite_spec(self) -> bool {
        true
    }

    fn zero() -> (r: Self) {
        0u64
    }

    fn one() -> (r: Self) {
        1u64
    }

    fn from_count(n: u64) -> (r: Self) {
        n
    }

    fn plus(self, other: Self) -> (r: Self) {
        if self <= u64::MAX - other {
            self + other
        } else {
            u64::MAX
        }
    }

    fn times(self, other: Self) -> (r: Self) {
        proof {
            assert(self * other <= u64::MAX * u64::MAX) by (nonlinear_arith)
                requires
                    self <= u64::MAX,
                    other <= u64::MAX,
            ;
            assert(0 <= self * other) by (nonlinear_arith);
        }
        let p: u128 = (self as u128) * (other as u128);
        if p <= u64::MAX as u128 {
            p as u64
        } else {
            u64::MAX
        }
    }

    fn over(self, other: Self) -> (r: Self) {
        if other == 0 {
            u64::MAX
        } else {
            self / other
        }
    }

    fn sqrt(self) -> (r: Self) {
        let x: u128 = self as u128;
        let mut lo: u128 = 0;
        let mut hi: u128 = 0x1_0000_0000;
        assert(0x1_0000_0000u128 * 0x1_0000_0000u128 > u64::MAX) by (nonlinear_arith);
        while hi - lo > 1
            invariant
                x == self,
                lo < hi <= 0x1_0000_0000,
                lo * lo <= x < hi * hi,
            decreases hi - lo,
        {
            let mid: u128 = lo + (hi - lo) / 2;
            assert(mid * mid <= 0x1_0000_0000 * 0x1_0000_0000) by (nonlinear_arith)
                requires
                    0 <= mid <= 0x1_0000_0000,
            ;
            if mid * mid <= x {
                lo = mid;
            } else {
                hi = mid;
            }
        }
        let r: u64 = lo as u64;
        proof {
            assert(hi == lo + 1);
            assert(is_root(r, self));
            assert forall|s: u64| #[trigger] is_root(s, self) implies s == r by {
                if s < r {
                    assert((s + 1) * (s + 1) <= r * r) by (nonlinear_arith)
                        requires
                            s + 1 <= r,
                    ;
                } else if s > r {
                    assert((r + 1) * (r + 1) <= s * s) by (nonlinear_arith)
                        requires
                            r + 1 <= s,
                    ;
                }
            }
        }
        r
    }

    fn minus(self, other: Self) -> (r: Self) {
        if self >= other {
            self - other
        } else {
            0
        }
    }

    fn maximum(self, other: Self) -> (r: Self) {
        if self >= other {
            self
        } else {
            other
        }
    }

    fn epsilon() -> (r: Self) {
        0
    }

    fn gt(self, other: Self) -> (r: bool) {
        self > other
    }

    fn ge(self, other: Self) -> (r: bool) {
        self >= other
    }

    fn is_zero(self) -> (r: bool) {
        self == 0
    }

    fn is_finite(self) -> (r: bool) {
        true
    }

    proof fn gt_irreflexive(a: Self) {
    }

    proof fn gt_transitive(a: Self, b: Self, c: Self) {
    }

    proof fn positive_is_nonzero(a: Self) {
    }
}

/// The magnitude is 0 for zero and 1 for everything else.
impl Scalar for Gf7 {
    type Real = u64;

    open spec fn zero_spec() -> Self {
        Gf7::Zero
    }

    open spec fn one_spec() -> Self {
        Gf7::One
    }

    open spec fn from_real_spec(x: u64) -> Self {
        Gf7::of(x as int)
    }

    open spec fn plus_spec(self, other: Self) -> Self {
        Gf7::of(self.val() + other.val())
    }

    open spec fn minus_spec(self, other: Self) -> Self {
        Gf7::of(self.val() + 7 - other.val())
    }

    open spec fn times_spec(self, other: Self) -> Self {
        Gf7::of(self.val() * other.val())
    }

    open spec fn over_spec(self, other: Self) -> Self {
        Gf7::of(self.val() * other.inv().val())
    }

    open spec fn fmadd_spec(self, b: Self, c: Self) -> Self {
        Gf7::of(Gf7::of(self.val() * b.val()).val() + c.val())
    }

    open spec fn conj_spec(self) -> Self {
        self
    }

    open spec fn recip_spec(self) -> Self {
        self.inv()
    }

    open spec fn negate_spec(self) -> Self {
        Gf7::of(7 - self.val())
    }

    open spec fn real_part_spec(self) -> u64 {
        self.val() as u64
    }

    open spec fn magnitude_spec(self) -> u64 {
        if self == Gf7::Zero {
            0u64
        } else {
            1u64
        }
    }

    open spec fn magnitude_sq_spec(self) -> u64 {
        self.magnitude_spec()
    }

    open spec fn is_zero_spec(self) -> bool {
        self == Gf7::Zero
    }

    open spec fn is_finite_spec(self) -> bool {
        true
    }

    fn zero() -> (r: Self) {
        Gf7::Zero
    }

    fn one() -> (r: Self) {
        Gf7::One
    }

    fn from_real(x: u64) -> (r: Self) {
        Gf7::new(x)
    }

    fn plus(self, other: Self) -> (r: Self) {
        Gf7::new(self.value() + other.value())
    }

    fn minus(self, other: Self) -> (r: Self) {
        Gf7::new(self.value() + 7 - other.value())
    }

    fn times(self, other: Self) -> (r: Self) {
        let a: u64 = self.value();
        let b: u64 = other.value();
        assert(0 <= a * b <= 36) by (nonlinear_arith)
            requires
                0 <= a <= 6,
                0 <= b <= 6,
        ;
        Gf7::new(a * b)
    }

    fn over(self, other: Self) -> (r: Self) {
        self.times(other.recip())
    }

    fn fmadd(self, b: Self, c: Self) -> (r: Self) {
        self.times(b).plus(c)
    }

    fn conj(self) -> (r: Self) {
        self
    }

    fn recip(self) -> (r: Self) {
        match self {
            Gf7::Zero => Gf7::Zero,
            Gf7::One => Gf7::One,
            Gf7::Two => Gf7::Four,
            Gf7::Three => Gf7::Five,
            Gf7::Four => Gf7::Two,
            Gf7::Five => Gf7::Three,
            Gf7::Six => Gf7::Six,
        }
    }

    fn negate(self) -> (r: Self) {
        Gf7::new(7 - self.value())
    }

    fn real_part(self) -> (r: u64) {
        self.value()
    }

    fn magnitude(self) -> (r: u64) {
        match self {
            Gf7::Zero => 0,
            _ => 1,
        }
    }

    fn magnitude_sq(self) -> (r: u64) {
        self.magnitude()
    }

    fn is_zero(self) -> (r: bool) {
        match self {
            Gf7::Zero => true,
            _ => false,
        }
    }

    fn is_finite(self) -> (r: bool) {
        true
    }
}

impl Field for Gf7 {
    proof fn plus_comm(a: Self, b: Self) {
    }

    proof fn plus_assoc(a: Self, b: Self, c: Self) {
    }

    proof fn plus_zero(a: Self) {
    }

    proof fn minus_plus(a: Self, b: Self) {
    }

    proof fn times_comm(a: Self, b: Self) {
        lemma_mul_is_commutative(a.val(), b.val());
    }

    proof fn times_assoc(a: Self, b: Self, c: Self) {
        let (x, y, z) = (a.val(), b.val(), c.val());
        val_of(x * y);
        val_of(y * z);
        lemma_mul_mod_noop_left(x * y, z, 7);
        lemma_mul_mod_noop_right(x, y * z, 7);
        lemma_mul_is_associative(x, y, z);
    }

    proof fn times_one(a: Self) {
        of_val(a);
    }

    proof fn distributes(a: Self, b: Self, c: Self) {
        let (x, y, z) = (a.val(), b.val(), c.val());
        val_of(y + z);
        val_of(x * y);
        val_of(x * z);
        lemma_mul_mod_noop_right(x, y + z, 7);
        lemma_mul_is_distributive_add(x, y, z);
        lemma_add_mod_noop(x * y, x * z, 7);
    }

    proof fn over_times(a: Self, b: Self) {
        let x = a.val();
        let y = b.val();
        let i = b.inv().val();
        val_of(x * i);
        lemma_mul_mod_noop_left(x * i, y, 7);
        lemma_mul_is_associative(x, i, y);
        assert((i * y) % 7 == 1);
        lemma_mul_mod_noop_right(x, i * y, 7);
        of_val(a);
    }

    proof fn fmadd_exact(a: Self, b: Self, c: Self) {
    }

    proof fn recip_inverts(a: Self) {
    }

    proof fn negate_exact(a: Self) {
    }

    proof fn zero_test(a: Self) {
    }

    proof fn scale_is_unit(a: Self) {
    }
}

} // verus!
