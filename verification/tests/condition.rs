use rslab::condition::{condest_1, element_growth, hager_higham_inverse_norm_1, KluConditionOp};
use rslab::error::RslabError;
use rslab::klu::settings::KluSettings;
use rslab::klu::solver::KluSolver;
use rslab::scalar::{Real, Scalar};
use rslab::sparse::GeneralCsc;

#[derive(Clone, Copy, Debug, PartialEq)]
struct F(f64);

impl Real for F {
    fn zero_spec() -> F {
        F(0.0)
    }
    fn one_spec() -> F {
        F(1.0)
    }
    fn from_count_spec(n: u64) -> F {
        F(n as f64)
    }
    fn plus_spec(self, other: F) -> F {
        F(self.0 + other.0)
    }
    fn times_spec(self, other: F) -> F {
        F(self.0 * other.0)
    }
    fn over_spec(self, other: F) -> F {
        F(self.0 / other.0)
    }
    fn sqrt_spec(self) -> F {
        F(self.0.sqrt())
    }
    fn minus_spec(self, other: F) -> F {
        F(self.0 - other.0)
    }
    fn maximum_spec(self, other: F) -> F {
        F(self.0.max(other.0))
    }
    fn epsilon_spec() -> F {
        F(f64::EPSILON)
    }
    fn gt_spec(self, other: F) -> bool {
        self.0 > other.0
    }
    fn ge_spec(self, other: F) -> bool {
        self.0 >= other.0
    }
    fn is_zero_spec(self) -> bool {
        self.0 == 0.0
    }
    fn is_finite_spec(self) -> bool {
        self.0.is_finite()
    }
    fn gt_irreflexive(_a: F) {}
    fn gt_transitive(_a: F, _b: F, _c: F) {}
    fn positive_is_nonzero(_a: F) {}
    fn zero() -> F {
        F(0.0)
    }
    fn one() -> F {
        F(1.0)
    }
    fn from_count(n: u64) -> F {
        F(n as f64)
    }
    fn plus(self, other: F) -> F {
        F(self.0 + other.0)
    }
    fn times(self, other: F) -> F {
        F(self.0 * other.0)
    }
    fn over(self, other: F) -> F {
        F(self.0 / other.0)
    }
    fn sqrt(self) -> F {
        F(self.0.sqrt())
    }
    fn minus(self, other: F) -> F {
        F(self.0 - other.0)
    }
    fn maximum(self, other: F) -> F {
        F(self.0.max(other.0))
    }
    fn epsilon() -> F {
        F(f64::EPSILON)
    }
    fn gt(self, other: F) -> bool {
        self.0 > other.0
    }
    fn ge(self, other: F) -> bool {
        self.0 >= other.0
    }
    fn is_zero(self) -> bool {
        self.0 == 0.0
    }
    fn is_finite(self) -> bool {
        self.0.is_finite()
    }
}

impl Scalar for F {
    type Real = F;
    fn zero_spec() -> F {
        F(0.0)
    }
    fn one_spec() -> F {
        F(1.0)
    }
    fn from_real_spec(x: F) -> F {
        x
    }
    fn plus_spec(self, other: F) -> F {
        F(self.0 + other.0)
    }
    fn minus_spec(self, other: F) -> F {
        F(self.0 - other.0)
    }
    fn times_spec(self, other: F) -> F {
        F(self.0 * other.0)
    }
    fn over_spec(self, other: F) -> F {
        F(self.0 / other.0)
    }
    fn fmadd_spec(self, b: F, c: F) -> F {
        F(self.0.mul_add(b.0, c.0))
    }
    fn conj_spec(self) -> F {
        self
    }
    fn recip_spec(self) -> F {
        F(self.0.recip())
    }
    fn negate_spec(self) -> F {
        F(-self.0)
    }
    fn real_part_spec(self) -> F {
        self
    }
    fn magnitude_spec(self) -> F {
        F(self.0.abs())
    }
    fn magnitude_sq_spec(self) -> F {
        F(self.0 * self.0)
    }
    fn is_zero_spec(self) -> bool {
        self.0 == 0.0
    }
    fn is_finite_spec(self) -> bool {
        self.0.is_finite()
    }
    fn zero() -> F {
        F(0.0)
    }
    fn one() -> F {
        F(1.0)
    }
    fn from_real(x: F) -> F {
        x
    }
    fn plus(self, other: F) -> F {
        F(self.0 + other.0)
    }
    fn minus(self, other: F) -> F {
        F(self.0 - other.0)
    }
    fn times(self, other: F) -> F {
        F(self.0 * other.0)
    }
    fn over(self, other: F) -> F {
        F(self.0 / other.0)
    }
    fn fmadd(self, b: F, c: F) -> F {
        F(self.0.mul_add(b.0, c.0))
    }
    fn conj(self) -> F {
        self
    }
    fn recip(self) -> F {
        F(self.0.recip())
    }
    fn negate(self) -> F {
        F(-self.0)
    }
    fn real_part(self) -> F {
        self
    }
    fn magnitude(self) -> F {
        F(self.0.abs())
    }
    fn magnitude_sq(self) -> F {
        F(self.0 * self.0)
    }
    fn is_zero(self) -> bool {
        self.0 == 0.0
    }
    fn is_finite(self) -> bool {
        self.0.is_finite()
    }
}

#[derive(Clone, Copy, Debug, PartialEq)]
struct Z(f64, f64);

fn z_times(a: Z, b: Z) -> Z {
    Z(a.0 * b.0 - a.1 * b.1, a.0 * b.1 + a.1 * b.0)
}

fn z_recip(a: Z) -> Z {
    let m = a.0 * a.0 + a.1 * a.1;
    Z(a.0 / m, -a.1 / m)
}

impl Scalar for Z {
    type Real = F;
    fn zero_spec() -> Z {
        Z(0.0, 0.0)
    }
    fn one_spec() -> Z {
        Z(1.0, 0.0)
    }
    fn from_real_spec(x: F) -> Z {
        Z(x.0, 0.0)
    }
    fn plus_spec(self, other: Z) -> Z {
        Z(self.0 + other.0, self.1 + other.1)
    }
    fn minus_spec(self, other: Z) -> Z {
        Z(self.0 - other.0, self.1 - other.1)
    }
    fn times_spec(self, other: Z) -> Z {
        z_times(self, other)
    }
    fn over_spec(self, other: Z) -> Z {
        z_times(self, z_recip(other))
    }
    fn fmadd_spec(self, b: Z, c: Z) -> Z {
        let p = z_times(self, b);
        Z(p.0 + c.0, p.1 + c.1)
    }
    fn conj_spec(self) -> Z {
        Z(self.0, -self.1)
    }
    fn recip_spec(self) -> Z {
        z_recip(self)
    }
    fn negate_spec(self) -> Z {
        Z(-self.0, -self.1)
    }
    fn real_part_spec(self) -> F {
        F(self.0)
    }
    fn magnitude_spec(self) -> F {
        F(self.0.hypot(self.1))
    }
    fn magnitude_sq_spec(self) -> F {
        F(self.0 * self.0 + self.1 * self.1)
    }
    fn is_zero_spec(self) -> bool {
        self.0 == 0.0 && self.1 == 0.0
    }
    fn is_finite_spec(self) -> bool {
        self.0.is_finite() && self.1.is_finite()
    }
    fn zero() -> Z {
        Z(0.0, 0.0)
    }
    fn one() -> Z {
        Z(1.0, 0.0)
    }
    fn from_real(x: F) -> Z {
        Z(x.0, 0.0)
    }
    fn plus(self, other: Z) -> Z {
        Z(self.0 + other.0, self.1 + other.1)
    }
    fn minus(self, other: Z) -> Z {
        Z(self.0 - other.0, self.1 - other.1)
    }
    fn times(self, other: Z) -> Z {
        z_times(self, other)
    }
    fn over(self, other: Z) -> Z {
        z_times(self, z_recip(other))
    }
    fn fmadd(self, b: Z, c: Z) -> Z {
        let p = z_times(self, b);
        Z(p.0 + c.0, p.1 + c.1)
    }
    fn conj(self) -> Z {
        Z(self.0, -self.1)
    }
    fn recip(self) -> Z {
        z_recip(self)
    }
    fn negate(self) -> Z {
        Z(-self.0, -self.1)
    }
    fn real_part(self) -> F {
        F(self.0)
    }
    fn magnitude(self) -> F {
        F(self.0.hypot(self.1))
    }
    fn magnitude_sq(self) -> F {
        F(self.0 * self.0 + self.1 * self.1)
    }
    fn is_zero(self) -> bool {
        self.0 == 0.0 && self.1 == 0.0
    }
    fn is_finite(self) -> bool {
        self.0.is_finite() && self.1.is_finite()
    }
}

fn matrix(n: usize, r: &[usize], c: &[usize], v: &[f64]) -> GeneralCsc<F> {
    let v: Vec<F> = v.iter().map(|x| F(*x)).collect();
    GeneralCsc::from_triplets(n, &r.to_vec(), &c.to_vec(), &v).unwrap()
}

fn lu<T: Scalar<Real = F>>(a: &GeneralCsc<T>) -> KluSolver<T> {
    KluSolver::factor(a, &KluSettings::default()).unwrap()
}

fn condest<T: Scalar<Real = F>>(s: &KluSolver<T>, a: &GeneralCsc<T>) -> Result<f64, RslabError> {
    condest_1(&KluConditionOp { solver: s }, a).map(|k| k.0)
}

/// The growth of the factors of the row-scaled matrix.
fn growth(s: &KluSolver<F>, a: &GeneralCsc<F>) -> Result<f64, RslabError> {
    let n = s.n();
    let u = s.u_matrix();
    let mut values = u.values.clone();
    values.extend(s.f_matrix().values);
    let rows: Vec<F> = s.row_scale().to_vec();
    let cols = vec![F(1.0); n];
    element_growth(a, n, &rows, &cols, &values).map(|g| g.0)
}

#[test]
fn one_norm_hand_value() {
    let a = matrix(2, &[0, 1, 0, 1], &[0, 0, 1, 1], &[1.0, 3.0, 2.0, 4.0]);
    assert_eq!(a.one_norm(), F(6.0));
}

#[test]
fn transpose_solve_residual() {
    let k = 12;
    let n = k * k;
    let idx = |x: usize, y: usize| y * k + x;
    let (mut r, mut c, mut v) = (Vec::new(), Vec::new(), Vec::new());
    for y in 0..k {
        for x in 0..k {
            let p = idx(x, y);
            r.push(p);
            c.push(p);
            v.push(4.0 + (p % 3) as f64);
            if x + 1 < k {
                r.push(idx(x + 1, y));
                c.push(p);
                v.push(-1.5);
                r.push(p);
                c.push(idx(x + 1, y));
                v.push(-0.5);
            }
            if y + 1 < k {
                r.push(idx(x, y + 1));
                c.push(p);
                v.push(-1.25);
                r.push(p);
                c.push(idx(x, y + 1));
                v.push(-0.75);
            }
        }
    }
    let a = matrix(n, &r, &c, &v);
    let at = matrix(n, &c, &r, &v);
    let s = lu(&a);
    let b: Vec<F> = (0..n).map(|i| F(((i % 7) as f64) - 3.0)).collect();
    let x = s.solve_transpose(&b).unwrap();
    let mut atx = vec![F(0.0); n];
    at.matvec(&x, &mut atx);
    let res = b.iter().zip(&atx).map(|(bi, ai)| (bi.0 - ai.0).abs()).fold(0.0, f64::max);
    assert!(res < 1e-10);
}

#[test]
fn condest_identity_is_one() {
    let n = 5;
    let idx: Vec<usize> = (0..n).collect();
    let a = matrix(n, &idx, &idx, &vec![1.0; n]);
    let k1 = condest(&lu(&a), &a).unwrap();
    assert!((k1 - 1.0).abs() < 1e-12);
}

#[test]
fn condest_diagonal_exact_within_2x() {
    let a = matrix(3, &[0, 1, 2], &[0, 1, 2], &[1.0, 1e3, 1e6]);
    let k1 = condest(&lu(&a), &a).unwrap();
    assert!(k1 <= 1e6 * (1.0 + 1e-9));
    assert!(k1 >= 0.5e6);
}

#[test]
fn condest_2x2_hand_oracle() {
    let a = matrix(2, &[0, 1, 0, 1], &[0, 0, 1, 1], &[1.0, 3.0, 2.0, 4.0]);
    let k1 = condest(&lu(&a), &a).unwrap();
    assert!((10.5..=21.0 * (1.0 + 1e-6)).contains(&k1));
}

#[test]
fn condest_complex_diagonal() {
    let vals = vec![Z(1.0, 0.0), Z(0.0, 10.0), Z(0.1, 0.0)];
    let a = GeneralCsc::from_triplets(3, &vec![0, 1, 2], &vec![0, 1, 2], &vals).unwrap();
    let k1 = condest(&lu(&a), &a).unwrap();
    assert!(k1 <= 100.0 * (1.0 + 1e-9));
    assert!(k1 >= 50.0);
}

#[test]
fn element_growth_sane() {
    let a = matrix(3, &[0, 1, 2, 1, 0], &[0, 1, 2, 0, 1], &[4.0, 5.0, 6.0, -1.0, -2.0]);
    let s = lu(&a);
    let g = growth(&s, &a).unwrap();
    assert!(g > 0.0 && g < 100.0);
    let wrong = matrix(2, &[0, 1], &[0, 1], &[1.0, 1.0]);
    assert!(growth(&s, &wrong).is_err());
    assert!(condest(&s, &wrong).is_err());
}

#[test]
fn growth_is_a_quotient_of_magnitudes() {
    let a = matrix(2, &[0, 1], &[0, 1], &[2.0, -4.0]);
    let rows = [F(1.0), F(0.5)];
    let cols = [F(2.0), F(1.0)];
    // The equilibrated diagonal is 4 and -2.
    let g = element_growth(&a, 2, &rows, &cols, &[F(6.0), F(-1.0)]).unwrap();
    assert_eq!(g, F(1.5));
    let empty = matrix(0, &[], &[], &[]);
    assert_eq!(element_growth(&empty, 0, &[], &[], &[]).unwrap(), F(0.0));
}

#[test]
fn inverse_norm_of_a_scaled_identity() {
    let idx: Vec<usize> = (0..4).collect();
    let a = matrix(4, &idx, &idx, &[0.25; 4]);
    let s = lu(&a);
    let est = hager_higham_inverse_norm_1(&KluConditionOp { solver: &s }).unwrap();
    assert!((est.0 - 4.0).abs() < 1e-12);
    assert!(matches!(
        condest(&s, &matrix(3, &[0], &[0], &[1.0])),
        Err(RslabError::DimensionMismatch { expected: 4, got: 3 })
    ));
}
