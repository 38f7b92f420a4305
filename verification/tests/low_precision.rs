use rslab::error::RslabError;
use rslab::klu::settings::KluSettings;
use rslab::krylov::gmres::gmres;
use rslab::krylov::low_precision::{LowPrecisionLu, Rounds};
use rslab::krylov::operator::Preconditioner;
use rslab::scalar::{Real, Scalar};
use rslab::sparse::GeneralCsc;

#[derive(Clone, Copy, Debug, PartialEq)]
struct F(f64);

impl Real for F {
    fn zero_spec() -> F {
        F(0.0)
    }
    fn one_spec() -> F {
        F(1.0)
    }
    fn from_count_spec(n: u64) -> F {
        F(n as f64)
    }
    fn plus_spec(self, other: F) -> F {
        F(self.0 + other.0)
    }
    fn times_spec(self, other: F) -> F {
        F(self.0 * other.0)
    }
    fn over_spec(self, other: F) -> F {
        F(self.0 / other.0)
    }
    fn sqrt_spec(self) -> F {
        F(self.0.sqrt())
    }
    fn minus_spec(self, other: F) -> F {
        F(self.0 - other.0)
    }
    fn maximum_spec(self, other: F) -> F {
        F(self.0.max(other.0))
    }
    fn epsilon_spec() -> F {
        F(f64::EPSILON)
    }
    fn gt_spec(self, other: F) -> bool {
        self.0 > other.0
    }
    fn ge_spec(self, other: F) -> bool {
        self.0 >= other.0
    }
    fn is_zero_spec(self) -> bool {
        self.0 == 0.0
    }
    fn is_finite_spec(self) -> bool {
        self.0.is_finite()
    }
    fn gt_irreflexive(_a: F) {}
    fn gt_transitive(_a: F, _b: F, _c: F) {}
    fn positive_is_nonzero(_a: F) {}
    fn zero() -> F {
        F(0.0)
    }
    fn one() -> F {
        F(1.0)
    }
    fn from_count(n: u64) -> F {
        F(n as f64)
    }
    fn plus(self, other: F) -> F {
        F(self.0 + other.0)
    }
    fn times(self, other: F) -> F {
        F(self.0 * other.0)
    }
    fn over(self, other: F) -> F {
        F(self.0 / other.0)
    }
    fn sqrt(self) -> F {
        F(self.0.sqrt())
    }
    fn minus(self, other: F) -> F {
        F(self.0 - other.0)
    }
    fn maximum(self, other: F) -> F {
        F(self.0.max(other.0))
    }
    fn epsilon() -> F {
        F(f64::EPSILON)
    }
    fn gt(self, other: F) -> bool {
        self.0 > other.0
    }
    fn ge(self, other: F) -> bool {
        self.0 >= other.0
    }
    fn is_zero(self) -> bool {
        self.0 == 0.0
    }
    fn is_finite(self) -> bool {
        self.0.is_finite()
    }
}

impl Scalar for F {
    type Real = F;
    fn zero_spec() -> F {
        F(0.0)
    }
    fn one_spec() -> F {
        F(1.0)
    }
    fn from_real_spec(x: F) -> F {
        x
    }
    fn plus_spec(self, other: F) -> F {
        F(self.0 + other.0)
    }
    fn minus_spec(self, other: F) -> F {
        F(self.0 - other.0)
    }
    fn times_spec(self, other: F) -> F {
        F(self.0 * other.0)
    }
    fn over_spec(self, other: F) -> F {
        F(self.0 / other.0)
    }
    fn fmadd_spec(self, b: F, c: F) -> F {
        F(self.0.mul_add(b.0, c.0))
    }
    fn conj_spec(self) -> F {
        self
    }
    fn recip_spec(self) -> F {
        F(self.0.recip())
    }
    fn negate_spec(self) -> F {
        F(-self.0)
    }
    fn real_part_spec(self) -> F {
        self
    }
    fn magnitude_spec(self) -> F {
        F(self.0.abs())
    }
    fn magnitude_sq_spec(self) -> F {
        F(self.0 * self.0)
    }
    fn is_zero_spec(self) -> bool {
        self.0 == 0.0
    }
    fn is_finite_spec(self) -> bool {
        self.0.is_finite()
    }
    fn zero() -> F {
        F(0.0)
    }
    fn one() -> F {
        F(1.0)
    }
    fn from_real(x: F) -> F {
        x
    }
    fn plus(self, other: F) -> F {
        F(self.0 + other.0)
    }
    fn minus(self, other: F) -> F {
        F(self.0 - other.0)
    }
    fn times(self, other: F) -> F {
        F(self.0 * other.0)
    }
    fn over(self, other: F) -> F {
        F(self.0 / other.0)
    }
    fn fmadd(self, b: F, c: F) -> F {
        F(self.0.mul_add(b.0, c.0))
    }
    fn conj(self) -> F {
        self
    }
    fn recip(self) -> F {
        F(self.0.recip())
    }
    fn negate(self) -> F {
        F(-self.0)
    }
    fn real_part(self) -> F {
        self
    }
    fn magnitude(self) -> F {
        F(self.0.abs())
    }
    fn magnitude_sq(self) -> F {
        F(self.0 * self.0)
    }
    fn is_zero(self) -> bool {
        self.0 == 0.0
    }
    fn is_finite(self) -> bool {
        self.0.is_finite()
    }
}

#[derive(Clone, Copy, Debug, PartialEq)]
struct Z(f64, f64);

fn z_times(a: Z, b: Z) -> Z {
    Z(a.0 * b.0 - a.1 * b.1, a.0 * b.1 + a.1 * b.0)
}

fn z_recip(a: Z) -> Z {
    let m = a.0 * a.0 + a.1 * a.1;
    Z(a.0 / m, -a.1 / m)
}

impl Scalar for Z {
    type Real = F;
    fn zero_spec() -> Z {
        Z(0.0, 0.0)
    }
    fn one_spec() -> Z {
        Z(1.0, 0.0)
    }
    fn from_real_spec(x: F) -> Z {
        Z(x.0, 0.0)
    }
    fn plus_spec(self, other: Z) -> Z {
        Z(self.0 + other.0, self.1 + other.1)
    }
    fn minus_spec(self, other: Z) -> Z {
        Z(self.0 - other.0, self.1 - other.1)
    }
    fn times_spec(self, other: Z) -> Z {
        z_times(self, other)
    }
    fn over_spec(self, other: Z) -> Z {
        z_times(self, z_recip(other))
    }
    fn fmadd_spec(self, b: Z, c: Z) -> Z {
        let p = z_times(self, b);
        Z(p.0 + c.0, p.1 + c.1)
    }
    fn conj_spec(self) -> Z {
        Z(self.0, -self.1)
    }
    fn recip_spec(self) -> Z {
        z_recip(self)
    }
    fn negate_spec(self) -> Z {
        Z(-self.0, -self.1)
    }
    fn real_part_spec(self) -> F {
        F(self.0)
    }
    fn magnitude_spec(self) -> F {
        F(self.0.hypot(self.1))
    }
    fn magnitude_sq_spec(self) -> F {
        F(self.0 * self.0 + self.1 * self.1)
    }
    fn is_zero_spec(self) -> bool {
        self.0 == 0.0 && self.1 == 0.0
    }
    fn is_finite_spec(self) -> bool {
        self.0.is_finite() && self.1.is_finite()
    }
    fn zero() -> Z {
        Z(0.0, 0.0)
    }
    fn one() -> Z {
        Z(1.0, 0.0)
    }
    fn from_real(x: F) -> Z {
        Z(x.0, 0.0)
    }
    fn plus(self, other: Z) -> Z {
        Z(self.0 + other.0, self.1 + other.1)
    }
    fn minus(self, other: Z) -> Z {
        Z(self.0 - other.0, self.1 - other.1)
    }
    fn times(self, other: Z) -> Z {
        z_times(self, other)
    }
    fn over(self, other: Z) -> Z {
        z_times(self, z_recip(other))
    }
    fn fmadd(self, b: Z, c: Z) -> Z {
        let p = z_times(self, b);
        Z(p.0 + c.0, p.1 + c.1)
    }
    fn conj(self) -> Z {
        Z(self.0, -self.1)
    }
    fn recip(self) -> Z {
        z_recip(self)
    }
    fn negate(self) -> Z {
        Z(-self.0, -self.1)
    }
    fn real_part(self) -> F {
        F(self.0)
    }
    fn magnitude(self) -> F {
        F(self.0.hypot(self.1))
    }
    fn magnitude_sq(self) -> F {
        F(self.0 * self.0 + self.1 * self.1)
    }
    fn is_zero(self) -> bool {
        self.0 == 0.0 && self.1 == 0.0
    }
    fn is_finite(self) -> bool {
        self.0.is_finite() && self.1.is_finite()
    }
}
#[derive(Clone, Copy, Debug, PartialEq)]
struct S(f32);

impl Real for S {
    fn zero_spec() -> S {
        S(0.0)
    }
    fn one_spec() -> S {
        S(1.0)
    }
    fn from_count_spec(n: u64) -> S {
        S(n as f32)
    }
    fn plus_spec(self, other: S) -> S {
        S(self.0 + other.0)
    }
    fn times_spec(self, other: S) -> S {
        S(self.0 * other.0)
    }
    fn over_spec(self, other: S) -> S {
        S(self.0 / other.0)
    }
    fn sqrt_spec(self) -> S {
        S(self.0.sqrt())
    }
    fn minus_spec(self, other: S) -> S {
        S(self.0 - other.0)
    }
    fn maximum_spec(self, other: S) -> S {
        S(self.0.max(other.0))
    }
    fn epsilon_spec() -> S {
        S(f32::EPSILON)
    }
    fn gt_spec(self, other: S) -> bool {
        self.0 > other.0
    }
    fn ge_spec(self, other: S) -> bool {
        self.0 >= other.0
    }
    fn is_zero_spec(self) -> bool {
        self.0 == 0.0
    }
    fn is_finite_spec(self) -> bool {
        self.0.is_finite()
    }
    fn gt_irreflexive(_a: S) {}
    fn gt_transitive(_a: S, _b: S, _c: S) {}
    fn positive_is_nonzero(_a: S) {}
    fn zero() -> S {
        S(0.0)
    }
    fn one() -> S {
        S(1.0)
    }
    fn from_count(n: u64) -> S {
        S(n as f32)
    }
    fn plus(self, other: S) -> S {
        S(self.0 + other.0)
    }
    fn times(self, other: S) -> S {
        S(self.0 * other.0)
    }
    fn over(self, other: S) -> S {
        S(self.0 / other.0)
    }
    fn sqrt(self) -> S {
        S(self.0.sqrt())
    }
    fn minus(self, other: S) -> S {
        S(self.0 - other.0)
    }
    fn maximum(self, other: S) -> S {
        S(self.0.max(other.0))
    }
    fn epsilon() -> S {
        S(f32::EPSILON)
    }
    fn gt(self, other: S) -> bool {
        self.0 > other.0
    }
    fn ge(self, other: S) -> bool {
        self.0 >= other.0
    }
    fn is_zero(self) -> bool {
        self.0 == 0.0
    }
    fn is_finite(self) -> bool {
        self.0.is_finite()
    }
}

impl Scalar for S {
    type Real = S;
    fn zero_spec() -> S {
        S(0.0)
    }
    fn one_spec() -> S {
        S(1.0)
    }
    fn from_real_spec(x: S) -> S {
        x
    }
    fn plus_spec(self, other: S) -> S {
        S(self.0 + other.0)
    }
    fn minus_spec(self, other: S) -> S {
        S(self.0 - other.0)
    }
    fn times_spec(self, other: S) -> S {
        S(self.0 * other.0)
    }
    fn over_spec(self, other: S) -> S {
        S(self.0 / other.0)
    }
    fn fmadd_spec(self, b: S, c: S) -> S {
        S(self.0.mul_add(b.0, c.0))
    }
    fn conj_spec(self) -> S {
        self
    }
    fn recip_spec(self) -> S {
        S(self.0.recip())
    }
    fn negate_spec(self) -> S {
        S(-self.0)
    }
    fn real_part_spec(self) -> S {
        self
    }
    fn magnitude_spec(self) -> S {
        S(self.0.abs())
    }
    fn magnitude_sq_spec(self) -> S {
        S(self.0 * self.0)
    }
    fn is_zero_spec(self) -> bool {
        self.0 == 0.0
    }
    fn is_finite_spec(self) -> bool {
        self.0.is_finite()
    }
    fn zero() -> S {
        S(0.0)
    }
    fn one() -> S {
        S(1.0)
    }
    fn from_real(x: S) -> S {
        x
    }
    fn plus(self, other: S) -> S {
        S(self.0 + other.0)
    }
    fn minus(self, other: S) -> S {
        S(self.0 - other.0)
    }
    fn times(self, other: S) -> S {
        S(self.0 * other.0)
    }
    fn over(self, other: S) -> S {
        S(self.0 / other.0)
    }
    fn fmadd(self, b: S, c: S) -> S {
        S(self.0.mul_add(b.0, c.0))
    }
    fn conj(self) -> S {
        self
    }
    fn recip(self) -> S {
        S(self.0.recip())
    }
    fn negate(self) -> S {
        S(-self.0)
    }
    fn real_part(self) -> S {
        self
    }
    fn magnitude(self) -> S {
        S(self.0.abs())
    }
    fn magnitude_sq(self) -> S {
        S(self.0 * self.0)
    }
    fn is_zero(self) -> bool {
        self.0 == 0.0
    }
    fn is_finite(self) -> bool {
        self.0.is_finite()
    }
}

#[derive(Clone, Copy, Debug, PartialEq)]
struct C(f32, f32);

fn c_times(a: C, b: C) -> C {
    C(a.0 * b.0 - a.1 * b.1, a.0 * b.1 + a.1 * b.0)
}

fn c_recip(a: C) -> C {
    let m = a.0 * a.0 + a.1 * a.1;
    C(a.0 / m, -a.1 / m)
}

impl Scalar for C {
    type Real = S;
    fn zero_spec() -> C {
        C(0.0, 0.0)
    }
    fn one_spec() -> C {
        C(1.0, 0.0)
    }
    fn from_real_spec(x: S) -> C {
        C(x.0, 0.0)
    }
    fn plus_spec(self, other: C) -> C {
        C(self.0 + other.0, self.1 + other.1)
    }
    fn minus_spec(self, other: C) -> C {
        C(self.0 - other.0, self.1 - other.1)
    }
    fn times_spec(self, other: C) -> C {
        c_times(self, other)
    }
    fn over_spec(self, other: C) -> C {
        c_times(self, c_recip(other))
    }
    fn fmadd_spec(self, b: C, c: C) -> C {
        let p = c_times(self, b);
        C(p.0 + c.0, p.1 + c.1)
    }
    fn conj_spec(self) -> C {
        C(self.0, -self.1)
    }
    fn recip_spec(self) -> C {
        c_recip(self)
    }
    fn negate_spec(self) -> C {
        C(-self.0, -self.1)
    }
    fn real_part_spec(self) -> S {
        S(self.0)
    }
    fn magnitude_spec(self) -> S {
        S(self.0.hypot(self.1))
    }
    fn magnitude_sq_spec(self) -> S {
        S(self.0 * self.0 + self.1 * self.1)
    }
    fn is_zero_spec(self) -> bool {
        self.0 == 0.0 && self.1 == 0.0
    }
    fn is_finite_spec(self) -> bool {
        self.0.is_finite() && self.1.is_finite()
    }
    fn zero() -> C {
        C(0.0, 0.0)
    }
    fn one() -> C {
        C(1.0, 0.0)
    }
    fn from_real(x: S) -> C {
        C(x.0, 0.0)
    }
    fn plus(self, other: C) -> C {
        C(self.0 + other.0, self.1 + other.1)
    }
    fn minus(self, other: C) -> C {
        C(self.0 - other.0, self.1 - other.1)
    }
    fn times(self, other: C) -> C {
        c_times(self, other)
    }
    fn over(self, other: C) -> C {
        c_times(self, c_recip(other))
    }
    fn fmadd(self, b: C, c: C) -> C {
        let p = c_times(self, b);
        C(p.0 + c.0, p.1 + c.1)
    }
    fn conj(self) -> C {
        C(self.0, -self.1)
    }
    fn recip(self) -> C {
        c_recip(self)
    }
    fn negate(self) -> C {
        C(-self.0, -self.1)
    }
    fn real_part(self) -> S {
        S(self.0)
    }
    fn magnitude(self) -> S {
        S(self.0.hypot(self.1))
    }
    fn magnitude_sq(self) -> S {
        S(self.0 * self.0 + self.1 * self.1)
    }
    fn is_zero(self) -> bool {
        self.0 == 0.0 && self.1 == 0.0
    }
    fn is_finite(self) -> bool {
        self.0.is_finite() && self.1.is_finite()
    }
}

impl Rounds<C> for Z {
    fn rounded(self) -> C {
        C(self.0 as f32, self.1 as f32)
    }
    fn widened(low: C) -> Z {
        Z(low.0 as f64, low.1 as f64)
    }
    fn round(self) -> C {
        C(self.0 as f32, self.1 as f32)
    }
    fn widen(low: C) -> Z {
        Z(low.0 as f64, low.1 as f64)
    }
}

fn dominant_grid(m: usize) -> GeneralCsc<Z> {
    let n = m * m;
    let (mut rr, mut cc, mut vv) = (Vec::new(), Vec::new(), Vec::new());
    let idx = |a: usize, b: usize| a * m + b;
    for a in 0..m {
        for b in 0..m {
            let p = idx(a, b);
            rr.push(p);
            cc.push(p);
            vv.push(Z(20.0, 2.0));
            if b + 1 < m {
                rr.push(p);
                cc.push(idx(a, b + 1));
                vv.push(Z(-1.0, 0.2));
                rr.push(idx(a, b + 1));
                cc.push(p);
                vv.push(Z(-2.0, 0.1));
            }
            if a + 1 < m {
                rr.push(p);
                cc.push(idx(a + 1, b));
                vv.push(Z(-1.5, 0.3));
                rr.push(idx(a + 1, b));
                cc.push(p);
                vv.push(Z(-0.5, 0.4));
            }
        }
    }
    GeneralCsc::from_triplets(n, &rr, &cc, &vv).unwrap()
}

#[test]
fn f32_lu_preconditioner_keeps_f64_accuracy_in_gmres() {
    let a = dominant_grid(10);
    let n = a.n;
    let b: Vec<Z> = (0..n).map(|i| Z((i % 7) as f64 - 3.0, 0.5)).collect();
    let pc: LowPrecisionLu<C> = LowPrecisionLu::factor(&a, &KluSettings::default()).unwrap();
    assert!(pc.factor_nnz() > 0);
    assert_eq!(pc.n_perturbed(), 0);
    let res = gmres(&a, &b, &pc, F(1e-6), 200, 50, None).unwrap();
    assert!(res.converged);
    assert!(res.iters <= 6);
    let mut y = vec![Z(0.0, 0.0); n];
    a.matvec(&res.x, &mut y);
    let r = (0..n).map(|i| y[i].minus(b[i]).magnitude().0).fold(0.0, f64::max);
    assert!(r < 1e-5);
}

#[test]
fn answers_pass_through_the_narrow_scalar() {
    let third = Z(3.0, 0.0);
    let a = GeneralCsc::from_triplets(1, &vec![0], &vec![0], &vec![third]).unwrap();
    let pc: LowPrecisionLu<C> = LowPrecisionLu::factor(&a, &KluSettings::default()).unwrap();
    let mut z = vec![Z(0.0, 0.0)];
    pc.apply(&[Z(1.0, 0.0)], &mut z).unwrap();
    assert!((z[0].0 - 1.0 / 3.0).abs() < 1e-7);
    assert!(z[0].0 != 1.0 / 3.0);
    assert!(matches!(
        pc.apply(&[third, third], &mut vec![third, third]),
        Err(RslabError::DimensionMismatch { expected: 1, got: 2 })
    ));
    let zero = GeneralCsc::from_triplets(1, &vec![0], &vec![0], &vec![Z(1e-60, 0.0)]).unwrap();
    let r: Result<LowPrecisionLu<C>, RslabError> =
        LowPrecisionLu::factor(&zero, &KluSettings::default());
    assert!(matches!(r, Err(RslabError::SingularBasis { column: 0 })));
}
