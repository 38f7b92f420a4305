use rslab::error::RslabError;
use rslab::klu::factor::{admits_parallel, factor_diagonal, join_factor, plan_factor};
use rslab::klu::ordering::{NaturalOrder, SuppliedMatchings};
use rslab::klu::pipeline::{join_columns, replay_in_turn, workers_for, Schedule, Turn};
use rslab::klu::replay::{blank_vector, replay_block, replay_one, ColumnValues};
use rslab::klu::settings::{interrupt_outcome, KluParallel, KluSettings};
use rslab::klu::solver::KluSolver;
use rslab::klu::symbolic::KluSymbolic;
use rslab::krylov::gmres::gmres;
use rslab::scalar::{Real, Scalar};
use rslab::sparse::GeneralCsc;
use std::sync::atomic::{AtomicBool, Ordering};
use std::sync::Arc;

#[derive(Clone, Copy, Debug, PartialEq)]
struct F(f64);

impl Real for F {
    fn zero_spec() -> F {
        F(0.0)
    }
    fn one_spec() -> F {
        F(1.0)
    }
    fn from_count_spec(n: u64) -> F {
        F(n as f64)
    }
    fn plus_spec(self, other: F) -> F {
        F(self.0 + other.0)
    }
    fn times_spec(self, other: F) -> F {
        F(self.0 * other.0)
    }
    fn over_spec(self, other: F) -> F {
        F(self.0 / other.0)
    }
    fn sqrt_spec(self) -> F {
        F(self.0.sqrt())
    }
    fn minus_spec(self, other: F) -> F {
        F(self.0 - other.0)
    }
    fn maximum_spec(self, other: F) -> F {
        F(self.0.max(other.0))
    }
    fn epsilon_spec() -> F {
        F(f64::EPSILON)
    }
    fn gt_spec(self, other: F) -> bool {
        self.0 > other.0
    }
    fn ge_spec(self, other: F) -> bool {
        self.0 >= other.0
    }
    fn is_zero_spec(self) -> bool {
        self.0 == 0.0
    }
    fn is_finite_spec(self) -> bool {
        self.0.is_finite()
    }
    fn gt_irreflexive(_a: F) {}
    fn gt_transitive(_a: F, _b: F, _c: F) {}
    fn positive_is_nonzero(_a: F) {}
    fn zero() -> F {
        F(0.0)
    }
    fn one() -> F {
        F(1.0)
    }
    fn from_count(n: u64) -> F {
        F(n as f64)
    }
    fn plus(self, other: F) -> F {
        F(self.0 + other.0)
    }
    fn times(self, other: F) -> F {
        F(self.0 * other.0)
    }
    fn over(self, other: F) -> F {
        F(self.0 / other.0)
    }
    fn sqrt(self) -> F {
        F(self.0.sqrt())
    }
    fn minus(self, other: F) -> F {
        F(self.0 - other.0)
    }
    fn maximum(self, other: F) -> F {
        F(self.0.max(other.0))
    }
    fn epsilon() -> F {
        F(f64::EPSILON)
    }
    fn gt(self, other: F) -> bool {
        self.0 > other.0
    }
    fn ge(self, other: F) -> bool {
        self.0 >= other.0
    }
    fn is_zero(self) -> bool {
        self.0 == 0.0
    }
    fn is_finite(self) -> bool {
        self.0.is_finite()
    }
}

impl Scalar for F {
    type Real = F;
    fn zero_spec() -> F {
        F(0.0)
    }
    fn one_spec() -> F {
        F(1.0)
    }
    fn from_real_spec(x: F) -> F {
        x
    }
    fn plus_spec(self, other: F) -> F {
        F(self.0 + other.0)
    }
    fn minus_spec(self, other: F) -> F {
        F(self.0 - other.0)
    }
    fn times_spec(self, other: F) -> F {
        F(self.0 * other.0)
    }
    fn over_spec(self, other: F) -> F {
        F(self.0 / other.0)
    }
    fn fmadd_spec(self, b: F, c: F) -> F {
        F(self.0.mul_add(b.0, c.0))
    }
    fn conj_spec(self) -> F {
        self
    }
    fn recip_spec(self) -> F {
        F(self.0.recip())
    }
    fn negate_spec(self) -> F {
        F(-self.0)
    }
    fn real_part_spec(self) -> F {
        self
    }
    fn magnitude_spec(self) -> F {
        F(self.0.abs())
    }
    fn magnitude_sq_spec(self) -> F {
        F(self.0 * self.0)
    }
    fn is_zero_spec(self) -> bool {
        self.0 == 0.0
    }
    fn is_finite_spec(self) -> bool {
        self.0.is_finite()
    }
    fn zero() -> F {
        F(0.0)
    }
    fn one() -> F {
        F(1.0)
    }
    fn from_real(x: F) -> F {
        x
    }
    fn plus(self, other: F) -> F {
        F(self.0 + other.0)
    }
    fn minus(self, other: F) -> F {
        F(self.0 - other.0)
    }
    fn times(self, other: F) -> F {
        F(self.0 * other.0)
    }
    fn over(self, other: F) -> F {
        F(self.0 / other.0)
    }
    fn fmadd(self, b: F, c: F) -> F {
        F(self.0.mul_add(b.0, c.0))
    }
    fn conj(self) -> F {
        self
    }
    fn recip(self) -> F {
        F(self.0.recip())
    }
    fn negate(self) -> F {
        F(-self.0)
    }
    fn real_part(self) -> F {
        self
    }
    fn magnitude(self) -> F {
        F(self.0.abs())
    }
    fn magnitude_sq(self) -> F {
        F(self.0 * self.0)
    }
    fn is_zero(self) -> bool {
        self.0 == 0.0
    }
    fn is_finite(self) -> bool {
        self.0.is_finite()
    }
}

#[derive(Clone, Copy, Debug, PartialEq)]
struct Z(f64, f64);

fn z_times(a: Z, b: Z) -> Z {
    Z(a.0 * b.0 - a.1 * b.1, a.0 * b.1 + a.1 * b.0)
}

fn z_recip(a: Z) -> Z {
    let m = a.0 * a.0 + a.1 * a.1;
    Z(a.0 / m, -a.1 / m)
}

impl Scalar for Z {
    type Real = F;
    fn zero_spec() -> Z {
        Z(0.0, 0.0)
    }
    fn one_spec() -> Z {
        Z(1.0, 0.0)
    }
    fn from_real_spec(x: F) -> Z {
        Z(x.0, 0.0)
    }
    fn plus_spec(self, other: Z) -> Z {
        Z(self.0 + other.0, self.1 + other.1)
    }
    fn minus_spec(self, other: Z) -> Z {
        Z(self.0 - other.0, self.1 - other.1)
    }
    fn times_spec(self, other: Z) -> Z {
        z_times(self, other)
    }
    fn over_spec(self, other: Z) -> Z {
        z_times(self, z_recip(other))
    }
    fn fmadd_spec(self, b: Z, c: Z) -> Z {
        let p = z_times(self, b);
        Z(p.0 + c.0, p.1 + c.1)
    }
    fn conj_spec(self) -> Z {
        Z(self.0, -self.1)
    }
    fn recip_spec(self) -> Z {
        z_recip(self)
    }
    fn negate_spec(self) -> Z {
        Z(-self.0, -self.1)
    }
    fn real_part_spec(self) -> F {
        F(self.0)
    }
    fn magnitude_spec(self) -> F {
        F(self.0.hypot(self.1))
    }
    fn magnitude_sq_spec(self) -> F {
        F(self.0 * self.0 + self.1 * self.1)
    }
    fn is_zero_spec(self) -> bool {
        self.0 == 0.0 && self.1 == 0.0
    }
    fn is_finite_spec(self) -> bool {
        self.0.is_finite() && self.1.is_finite()
    }
    fn zero() -> Z {
        Z(0.0, 0.0)
    }
    fn one() -> Z {
        Z(1.0, 0.0)
    }
    fn from_real(x: F) -> Z {
        Z(x.0, 0.0)
    }
    fn plus(self, other: Z) -> Z {
        Z(self.0 + other.0, self.1 + other.1)
    }
    fn minus(self, other: Z) -> Z {
        Z(self.0 - other.0, self.1 - other.1)
    }
    fn times(self, other: Z) -> Z {
        z_times(self, other)
    }
    fn over(self, other: Z) -> Z {
        z_times(self, z_recip(other))
    }
    fn fmadd(self, b: Z, c: Z) -> Z {
        let p = z_times(self, b);
        Z(p.0 + c.0, p.1 + c.1)
    }
    fn conj(self) -> Z {
        Z(self.0, -self.1)
    }
    fn recip(self) -> Z {
        z_recip(self)
    }
    fn negate(self) -> Z {
        Z(-self.0, -self.1)
    }
    fn real_part(self) -> F {
        F(self.0)
    }
    fn magnitude(self) -> F {
        F(self.0.hypot(self.1))
    }
    fn magnitude_sq(self) -> F {
        F(self.0 * self.0 + self.1 * self.1)
    }
    fn is_zero(self) -> bool {
        self.0 == 0.0 && self.1 == 0.0
    }
    fn is_finite(self) -> bool {
        self.0.is_finite() && self.1.is_finite()
    }
}

fn wrap(v: &[f64]) -> Vec<F> {
    v.iter().map(|x| F(*x)).collect()
}

fn triplets(n: usize, r: &[usize], c: &[usize], v: &[f64]) -> GeneralCsc<F> {
    GeneralCsc::from_triplets(n, &r.to_vec(), &c.to_vec(), &wrap(v)).unwrap()
}

fn defaults() -> KluSettings<F> {
    KluSettings::default()
}

fn resid<T: Scalar<Real = F>>(a: &GeneralCsc<T>, x: &[T], b: &[T]) -> f64 {
    let mut ax = vec![T::zero(); a.n];
    a.matvec(x, &mut ax);
    let num = b.iter().zip(&ax).map(|(&p, &q)| p.minus(q).magnitude().0).fold(0.0, f64::max);
    let den = b.iter().map(|v| v.magnitude().0).fold(0.0, f64::max);
    num / den.max(1e-300)
}

fn resid_t<T: Scalar<Real = F>>(a: &GeneralCsc<T>, x: &[T], b: &[T]) -> f64 {
    resid(&a.transpose(), x, b)
}

struct Rng(u64);

impl Rng {
    fn next_f64(&mut self) -> f64 {
        self.0 ^= self.0 << 13;
        self.0 ^= self.0 >> 7;
        self.0 ^= self.0 << 17;
        (self.0 >> 11) as f64 / (1u64 << 53) as f64 - 0.5
    }
}

fn circuit_like(n: usize, seed: u64) -> GeneralCsc<F> {
    let mut rng = Rng(seed | 1);
    let (mut r, mut c, mut v) = (Vec::new(), Vec::new(), Vec::new());
    let half = n / 2;
    for j in 0..n {
        r.push(j);
        c.push(j);
        v.push(4.0 + rng.next_f64());
        let base = if j < half { 0 } else { half };
        let span = if j < half { half } else { n - half };
        for t in 1..=3usize {
            let i = base + (j - base + t * 7 + 1) % span;
            if i != j {
                r.push(i);
                c.push(j);
                v.push(rng.next_f64());
            }
        }
    }
    for k in 0..4usize {
        r.push(k * 3 % half);
        c.push(half + (k * 5) % (n - half));
        v.push(0.5 + rng.next_f64().abs());
    }
    triplets(n, &r, &c, &v)
}

fn complex_grid() -> GeneralCsc<Z> {
    let m = 6;
    let n = m * m;
    let (mut rr, mut cc, mut vv) = (Vec::new(), Vec::new(), Vec::new());
    let idx = |a: usize, b: usize| a * m + b;
    for a in 0..m {
        for b in 0..m {
            let p = idx(a, b);
            rr.push(p);
            cc.push(p);
            vv.push(Z(0.3, 0.05));
            if b + 1 < m {
                let q = idx(a, b + 1);
                rr.push(p);
                cc.push(q);
                vv.push(Z(2.0, 0.3));
                rr.push(q);
                cc.push(p);
                vv.push(Z(1.5, -0.2));
            }
            if a + 1 < m {
                let q = idx(a + 1, b);
                rr.push(p);
                cc.push(q);
                vv.push(Z(1.8, 0.1));
                rr.push(q);
                cc.push(p);
                vv.push(Z(2.2, 0.4));
            }
        }
    }
    GeneralCsc::from_triplets(n, &rr, &cc, &vv).unwrap()
}

fn bidiagonal(n: usize) -> GeneralCsc<F> {
    let (mut r, mut c, mut v) = (Vec::new(), Vec::new(), Vec::new());
    for i in 0..n {
        r.push(i);
        c.push(i);
        v.push(2.0 + (i % 3) as f64);
        if i + 1 < n {
            r.push(i + 1);
            c.push(i);
            v.push(-1.0);
        }
    }
    triplets(n, &r, &c, &v)
}

fn rescaled(a: &GeneralCsc<F>) -> GeneralCsc<F> {
    let mut a2 = a.clone();
    for (k, v) in a2.values.iter_mut().enumerate() {
        v.0 *= 1.0 + 0.01 * ((k % 17) as f64);
    }
    a2
}

fn values_of(s: &KluSolver<F>) -> (Vec<F>, Vec<F>, Vec<F>) {
    let (mut l, mut u, mut d) = (Vec::new(), Vec::new(), Vec::new());
    for blk in &s.factors.blocks {
        for col in &blk.l_vals {
            l.extend(col.iter().copied());
        }
        for col in &blk.u_vals {
            u.extend(col.iter().copied());
        }
        d.extend(blk.d.iter().copied());
    }
    (l, u, d)
}

fn patterns_of(s: &KluSolver<F>) -> (Vec<usize>, Vec<usize>) {
    let (mut l, mut u) = (Vec::new(), Vec::new());
    for blk in &s.factors.blocks {
        for col in &blk.l_rows {
            l.extend(col.iter().copied());
        }
        for col in &blk.u_rows {
            u.extend(col.iter().copied());
        }
    }
    (l, u)
}

fn bits(v: &[F]) -> Vec<u64> {
    v.iter().map(|x| x.0.to_bits()).collect()
}

fn check_circuit_solve() {
    let a = circuit_like(200, 42);
    let b: Vec<F> = (0..200).map(|i| F((i % 11) as f64 - 5.0)).collect();
    let s = KluSolver::factor(&a, &defaults()).unwrap();
    assert!(s.n_blocks() >= 2);
    let x = s.solve(&b).unwrap();
    assert!(resid(&a, &x, &b) < 1e-12);
}

#[test]
fn klu_solves_circuit_like() {
    check_circuit_solve();
}

#[test]
fn klu_offdiagonal_pivot_reassigns_diagonal() {
    let n = 900;
    let (mut r, mut c, mut v) = (Vec::new(), Vec::new(), Vec::new());
    for j in 0..n {
        for t in [1usize, 2] {
            r.push((j + t) % n);
            c.push(j);
            v.push(1.0);
        }
        let tiny = j % 21 == 5;
        r.push(j);
        c.push(j);
        v.push(if tiny { 1e-9 } else { 4.0 });
        if tiny {
            r.push(j + 1);
            c.push(j);
            v.push(10.0);
            r.push(j);
            c.push(j + 1);
            v.push(0.3);
        }
    }
    for k in 0..6usize {
        let p = 100 + 130 * k;
        for j in (0..n).step_by(3) {
            if j != p && j + 1 != p && j + 2 != p {
                r.push(p);
                c.push(j);
                v.push(2.0);
            }
        }
    }
    let a = triplets(n, &r, &c, &v);
    let mut sym = KluSymbolic::analyze(&a, &defaults()).unwrap();
    let f = sym.factor(&a, &defaults()).unwrap();
    assert!((f.factor_nnz() as f64) < 1.5 * sym.symbolic_factor_nnz() as f64);
    let b: Vec<F> = (0..n).map(|i| F(((i * 7) % 13) as f64 - 6.0)).collect();
    let x = f.solve(&b).unwrap();
    assert!(resid(&a, &x, &b) < 1e-9);
}

fn check_complex_solve() {
    let a = complex_grid();
    let b: Vec<Z> = (0..a.n).map(|i| Z((i % 5) as f64 - 2.0, 1.0)).collect();
    let s = KluSolver::factor(&a, &defaults()).unwrap();
    let x = s.solve(&b).unwrap();
    assert!(resid(&a, &x, &b) < 1e-12);
}

#[test]
fn klu_klu_complex_small_diagonal_pivots() {
    check_complex_solve();
}

#[test]
fn tests_klu_complex_small_diagonal_pivots() {
    check_complex_solve();
}

fn check_no_fill() {
    let n = 50;
    let a = bidiagonal(n);
    let s = KluSolver::factor(&a, &defaults()).unwrap();
    assert_eq!(s.n_blocks(), n);
    assert_eq!(s.factor_nnz(), 2 * n as u64 - 1);
    let b: Vec<F> = (0..n).map(|i| F(i as f64 - 7.0)).collect();
    let x = s.solve(&b).unwrap();
    assert!(resid(&a, &x, &b) < 1e-14);
}

#[test]
fn klu_klu_lower_triangular_needs_no_fill() {
    check_no_fill();
}

#[test]
fn tests_klu_lower_triangular_needs_no_fill() {
    check_no_fill();
}

#[test]
fn klu_klu_structurally_singular_detected() {
    let a = triplets(3, &[0, 1, 0], &[0, 1, 2], &[1.0, 1.0, 5.0]);
    assert!(matches!(
        KluSymbolic::analyze(&a, &defaults()),
        Err(RslabError::StructurallySingular)
    ));
}

#[test]
fn tests_klu_structurally_singular_detected() {
    let a = triplets(3, &[0, 1, 0], &[0, 1, 2], &[1.0, 1.0, 5.0]);
    assert!(matches!(
        KluSymbolic::analyze(&a, &defaults()),
        Err(RslabError::StructurallySingular)
    ));
}

fn check_numerically_singular() {
    let a = triplets(2, &[0, 1, 0, 1], &[0, 0, 1, 1], &[1.0, 2.0, 2.0, 4.0]);
    assert!(matches!(
        KluSolver::factor(&a, &defaults()),
        Err(RslabError::SingularBasis { .. })
    ));
}

#[test]
fn klu_klu_numerically_singular_detected() {
    check_numerically_singular();
}

#[test]
fn tests_klu_numerically_singular_detected() {
    check_numerically_singular();
}

fn check_deterministic() {
    let a = circuit_like(150, 7);
    let s1 = KluSolver::factor(&a, &defaults()).unwrap();
    let s2 = KluSolver::factor(&a, &defaults()).unwrap();
    assert_eq!(values_of(&s1), values_of(&s2));
    assert_eq!(s1.row_perm(), s2.row_perm());
    let b: Vec<F> = (0..150).map(|i| F((i % 13) as f64)).collect();
    assert_eq!(s1.solve(&b).unwrap(), s2.solve(&b).unwrap());
}

#[test]
fn klu_klu_factor_is_bit_deterministic() {
    check_deterministic();
}

#[test]
fn tests_klu_factor_is_bit_deterministic() {
    check_deterministic();
}

fn check_refactor() {
    let a = circuit_like(150, 99);
    let mut s = KluSolver::factor(&a, &defaults()).unwrap();
    let before = values_of(&s);
    s.refactor(&a).unwrap();
    assert_eq!(values_of(&s), before);
    let a2 = rescaled(&a);
    s.refactor(&a2).unwrap();
    let b: Vec<F> = (0..a.n).map(|i| F((i % 9) as f64 - 4.0)).collect();
    let x = s.solve(&b).unwrap();
    assert!(resid(&a2, &x, &b) < 1e-11);
}

#[test]
fn klu_klu_refactor_replays_and_matches_fresh_factor() {
    check_refactor();
}

#[test]
fn tests_klu_refactor_replays_and_matches_fresh_factor() {
    check_refactor();
}

fn grid_cd(m: usize) -> (GeneralCsc<F>, Vec<F>) {
    let n = m * m;
    let idx = |i: usize, j: usize| i * m + j;
    let (mut r, mut c, mut v) = (Vec::new(), Vec::new(), Vec::new());
    for i in 0..m {
        for j in 0..m {
            let p = idx(i, j);
            r.push(p);
            c.push(p);
            v.push(4.0 + 0.01 * (p % 7) as f64);
            let mut off = |q: usize, w: f64| {
                r.push(q);
                c.push(p);
                v.push(w);
            };
            if i > 0 {
                off(idx(i - 1, j), -1.2);
            }
            if i + 1 < m {
                off(idx(i + 1, j), -0.8);
            }
            if j > 0 {
                off(idx(i, j - 1), -1.1);
            }
            if j + 1 < m {
                off(idx(i, j + 1), -0.9);
            }
        }
    }
    let a = triplets(n, &r, &c, &v);
    let b: Vec<F> = (0..n).map(|i| F((i % 5) as f64 - 2.0)).collect();
    (a, b)
}

#[test]
fn klu_pipelined_refactor_is_bit_identical_to_sequential() {
    let (a, b) = grid_cd(32);
    let seq = defaults().with_parallel(KluParallel::Off);
    let par = defaults().with_parallel(KluParallel::On);
    let mut s_seq = KluSolver::factor(&a, &seq).unwrap();
    let mut s_par = KluSolver::factor(&a, &par).unwrap();
    assert!(s_seq.factors.pipelined.is_empty());
    s_par.factors.pipelined = vec![(0, 4)];
    assert_eq!(workers_for(&s_par.factors.pipelined, 0, usize::MAX), Some(4));

    let mut a2 = a.clone();
    for (k, v) in a2.values.iter_mut().enumerate() {
        v.0 += 1e-3 * ((k % 11) as f64 - 5.0);
    }
    s_seq.refactor(&a2).unwrap();
    s_par.refactor(&a2).unwrap();
    assert_eq!(values_of(&s_seq), values_of(&s_par));
    let x = s_par.solve(&b).unwrap();
    assert!(resid(&a2, &x, &b) < 1e-10);
}

fn check_changed_pattern() {
    let a = circuit_like(60, 5);
    let mut s = KluSolver::factor(&a, &defaults()).unwrap();
    let (mut rows, mut cols, mut vals) = (Vec::new(), Vec::new(), Vec::new());
    for j in 0..a.n {
        for k in a.col_ptr[j]..a.col_ptr[j + 1] {
            rows.push(a.row_idx[k]);
            cols.push(j);
            vals.push(a.values[k]);
        }
    }
    let moved = rows.iter().zip(&cols).position(|(&r, &c)| r != c).unwrap();
    rows[moved] = (rows[moved] + 1) % a.n;
    cols[moved] = (cols[moved] + 1) % a.n;
    let a2 = GeneralCsc::from_triplets(a.n, &rows, &cols, &vals).unwrap();
    if a2.nnz() != a.nnz() {
        return;
    }
    assert!(s.refactor(&a2).is_err());
}

#[test]
fn klu_klu_refactor_rejects_changed_pattern() {
    check_changed_pattern();
}

#[test]
fn tests_klu_refactor_rejects_changed_pattern() {
    check_changed_pattern();
}

fn check_transpose_solve() {
    let a = circuit_like(200, 42);
    let b: Vec<F> = (0..200).map(|i| F(((i * 3) % 13) as f64 - 6.0)).collect();
    let s = KluSolver::factor(&a, &defaults()).unwrap();
    assert!(s.n_blocks() >= 2);
    let x = s.solve_transpose(&b).unwrap();
    assert!(resid_t(&a, &x, &b) < 1e-12);
    let st = KluSolver::factor(&a.transpose(), &defaults()).unwrap();
    let xr = st.solve(&b).unwrap();
    let diff = x.iter().zip(&xr).map(|(&p, &q)| (p.0 - q.0).abs()).fold(0.0, f64::max);
    assert!(diff < 1e-9);
}

#[test]
fn klu_klu_solve_transpose_matches_factored_transpose() {
    check_transpose_solve();
}

#[test]
fn tests_klu_solve_transpose_matches_factored_transpose() {
    check_transpose_solve();
}

fn check_plain_transpose() {
    let a = complex_grid();
    let n = a.n;
    let b: Vec<Z> = (0..n).map(|i| Z((i % 5) as f64 - 2.0, (i % 3) as f64)).collect();
    let s = KluSolver::factor(&a, &defaults()).unwrap();
    let x = s.solve_transpose(&b).unwrap();
    assert!(resid_t(&a, &x, &b) < 1e-12);
    let bc: Vec<Z> = b.iter().map(|v| v.conj()).collect();
    let xh: Vec<Z> = s.solve_transpose(&bc).unwrap().iter().map(|v| v.conj()).collect();
    let mut ah = a.transpose();
    for v in ah.values.iter_mut() {
        *v = v.conj();
    }
    assert!(resid(&ah, &xh, &b) < 1e-12);
}

#[test]
fn klu_klu_solve_transpose_complex_plain_not_conjugate() {
    check_plain_transpose();
}

#[test]
fn tests_klu_solve_transpose_complex_plain_not_conjugate() {
    check_plain_transpose();
}

fn check_transpose_options() {
    let n = 50;
    let tri = bidiagonal(n);
    let s = KluSolver::factor(&tri, &defaults()).unwrap();
    assert_eq!(s.n_blocks(), n);
    let b: Vec<F> = (0..n).map(|i| F(i as f64 - 7.0)).collect();
    let x = s.solve_transpose(&b).unwrap();
    assert!(resid_t(&tri, &x, &b) < 1e-14);

    let a = circuit_like(100, 21);
    let b: Vec<F> = (0..a.n).map(|i| F((i % 5) as f64 - 2.0)).collect();
    for settings in [
        defaults().with_btf(false),
        defaults().with_row_scaling(false),
        defaults().with_btf(false).with_row_scaling(false),
    ] {
        let s = KluSolver::factor(&a, &settings).unwrap();
        let x = s.solve_transpose(&b).unwrap();
        assert!(resid_t(&a, &x, &b) < 1e-12);
    }
}

#[test]
fn klu_klu_solve_transpose_singleton_blocks_and_options() {
    check_transpose_options();
}

#[test]
fn tests_klu_solve_transpose_singleton_blocks_and_options() {
    check_transpose_options();
}

fn check_transpose_after_refactor() {
    let a = circuit_like(150, 99);
    let mut s = KluSolver::factor(&a, &defaults()).unwrap();
    let a2 = rescaled(&a);
    s.refactor(&a2).unwrap();
    let b: Vec<F> = (0..a.n).map(|i| F((i % 9) as f64 - 4.0)).collect();
    let x = s.solve_transpose(&b).unwrap();
    assert!(resid_t(&a2, &x, &b) < 1e-11);
}

#[test]
fn klu_klu_solve_transpose_after_refactor() {
    check_transpose_after_refactor();
}

#[test]
fn tests_klu_solve_transpose_after_refactor() {
    check_transpose_after_refactor();
}

fn check_transpose_edges() {
    let a = triplets(0, &[], &[], &[]);
    let s = KluSolver::factor(&a, &defaults()).unwrap();
    assert_eq!(s.solve_transpose(&[]).unwrap(), Vec::<F>::new());
    let a = circuit_like(20, 1);
    let s = KluSolver::factor(&a, &defaults()).unwrap();
    assert!(s.solve_transpose(&[F(0.0); 19]).is_err());
}

#[test]
fn klu_klu_solve_transpose_empty_and_dimension_check() {
    check_transpose_edges();
}

#[test]
fn tests_klu_solve_transpose_empty_and_dimension_check() {
    check_transpose_edges();
}

#[test]
fn tests_klu_solve_many_matches_single() {
    let a = circuit_like(80, 3);
    let s = KluSolver::factor(&a, &defaults()).unwrap();
    let nrhs = 4;
    let b: Vec<F> = (0..a.n * nrhs).map(|k| F((k % 7) as f64 - 3.0)).collect();
    let x = s.solve_many(&b, nrhs).unwrap();
    for col in 0..nrhs {
        let bc: Vec<F> = (0..a.n).map(|i| b[col * a.n + i]).collect();
        let xc = s.solve(&bc).unwrap();
        for i in 0..a.n {
            assert_eq!(x[col * a.n + i], xc[i]);
        }
    }
}

fn check_refined() {
    let a = circuit_like(120, 11);
    let s = KluSolver::factor(&a, &defaults()).unwrap();
    let b: Vec<F> = (0..a.n).map(|i| F(((i * i) % 23) as f64 - 11.0)).collect();
    let x = s.solve_refined(&a, &b, 2).unwrap();
    assert!(resid(&a, &x, &b) < 1e-13);
}

#[test]
fn klu_klu_solve_refined_tightens_residual() {
    check_refined();
}

#[test]
fn tests_klu_solve_refined_tightens_residual() {
    check_refined();
}

fn check_without_btf() {
    let a = circuit_like(100, 21);
    let s = KluSolver::factor(&a, &KluSettings { btf: false, ..defaults() }).unwrap();
    assert_eq!(s.n_blocks(), 1);
    let b: Vec<F> = (0..a.n).map(|i| F((i % 5) as f64)).collect();
    let x = s.solve(&b).unwrap();
    assert!(resid(&a, &x, &b) < 1e-12);
}

#[test]
fn klu_klu_without_btf_still_solves() {
    check_without_btf();
}

#[test]
fn tests_klu_without_btf_still_solves() {
    check_without_btf();
}

fn check_empty() {
    let a = triplets(0, &[], &[], &[]);
    let s = KluSolver::factor(&a, &defaults()).unwrap();
    assert_eq!(s.solve(&[]).unwrap(), Vec::<F>::new());
}

#[test]
fn klu_klu_empty_matrix() {
    check_empty();
}

#[test]
fn tests_klu_empty_matrix() {
    check_empty();
}

fn check_estimate() {
    let a = circuit_like(150, 33);
    let mut sym = KluSymbolic::analyze(&a, &defaults()).unwrap();
    let est = sym.estimate_memory::<f64>();
    let s = sym.factor(&a, &defaults()).unwrap();
    assert_eq!(est.factor_nnz, s.factor_nnz());
    assert_eq!(sym.symbolic_factor_nnz() as u64, s.factor_nnz());
    assert!(est.factor_flops > 0);
    assert_eq!(est.critical_path_flops, est.factor_flops);
    assert!(est.transient_peak_bytes >= est.factor_bytes);
}

#[test]
fn klu_klu_estimate_matches_actual_fill_on_dominant_matrix() {
    check_estimate();
}

#[test]
fn tests_klu_estimate_matches_actual_fill_on_dominant_matrix() {
    check_estimate();
}

#[test]
fn tests_klu_diagnostics_phased_vs_oneshot() {
    let a = circuit_like(100, 4);
    let mut sym = KluSymbolic::analyze(&a, &defaults()).unwrap();
    let s0 = sym.factor(&a, &defaults()).unwrap();
    assert!(s0.diagnostics().estimate.is_none());
    let _ = sym.estimate_memory::<f64>();
    let s = sym.factor(&a, &defaults()).unwrap();
    let d = s.diagnostics();
    assert_eq!(d.threads, 1);
    assert_eq!(d.factor_nnz, s.factor_nnz());
    assert!(d.estimate.is_some());
    assert_eq!(d.stages.len(), 1);
    assert_eq!(d.stages[0].name, "klu-factor");

    let mut s2 = KluSolver::factor(&a, &defaults()).unwrap();
    assert_eq!(s2.diagnostics().stages.last().unwrap().name, "klu-factor");
    s2.refactor(&a).unwrap();
    assert_eq!(s2.diagnostics().stages.last().unwrap().name, "klu-refactor");
}

fn cascaded(n: usize, stages: usize, seed: u64) -> GeneralCsc<F> {
    let mut rng = Rng(seed | 1);
    let (mut r, mut c, mut v) = (Vec::new(), Vec::new(), Vec::new());
    let stage = n / stages;
    for j in 0..n {
        let s = (j / stage).min(stages - 1);
        let lo = s * stage;
        let hi = if s == stages - 1 { n } else { lo + stage };
        r.push(j);
        c.push(j);
        v.push(6.0 + rng.next_f64());
        let fwd = lo + (j - lo + 1) % (hi - lo);
        if fwd != j {
            r.push(fwd);
            c.push(j);
            v.push(-1.0 + 0.1 * rng.next_f64());
            r.push(j);
            c.push(fwd);
            v.push(-1.0 + 0.1 * rng.next_f64());
        }
        if s > 0 {
            r.push(j - stage);
            c.push(j);
            v.push(0.25 * rng.next_f64());
        }
    }
    triplets(n, &r, &c, &v)
}

#[test]
fn klu_parallel_auto_gate_resolves_from_structure() {
    let a = cascaded(400, 6, 3);
    let s = KluSolver::factor(&a, &defaults()).unwrap();
    assert!(!s.factors.parallel);
    let a = cascaded(4000, 6, 9);
    let s = KluSolver::factor(&a, &defaults()).unwrap();
    assert!(s.factors.block_ptr.len() > 4);
    assert!(a.nnz() >= 8_000);
    assert!(s.factors.parallel);
    let s = KluSolver::factor(&a, &defaults().with_parallel(KluParallel::Off)).unwrap();
    assert!(!s.factors.parallel);
}

fn check_parallel_identical(on: KluSettings<F>, off: KluSettings<F>, refactor_too: bool) {
    let a = circuit_like(600, 7);
    let sym = KluSymbolic::analyze(&a, &defaults()).unwrap();
    let mut s1 = sym.factor(&a, &off).unwrap();
    let mut s2 = sym.factor(&a, &on).unwrap();
    assert!(s2.factors.block_ptr.len() > 2);
    assert_eq!(patterns_of(&s1), patterns_of(&s2));
    assert_eq!(s1.row_perm(), s2.row_perm());
    let (l1, u1, d1) = values_of(&s1);
    let (l2, u2, d2) = values_of(&s2);
    assert_eq!((bits(&l1), bits(&u1), bits(&d1)), (bits(&l2), bits(&u2), bits(&d2)));
    let b: Vec<F> = (0..a.n).map(|i| F((i % 5) as f64 - 2.0)).collect();
    assert_eq!(bits(&s1.solve(&b).unwrap()), bits(&s2.solve(&b).unwrap()));
    if refactor_too {
        let mut a2 = a.clone();
        for v in a2.values.iter_mut() {
            v.0 *= 1.25;
        }
        s1.refactor(&a2).unwrap();
        s2.refactor(&a2).unwrap();
        let (l1, u1, d1) = values_of(&s1);
        let (l2, u2, d2) = values_of(&s2);
        assert_eq!((bits(&l1), bits(&u1), bits(&d1)), (bits(&l2), bits(&u2), bits(&d2)));
        assert_eq!(bits(&s1.solve(&b).unwrap()), bits(&s2.solve(&b).unwrap()));
    }
}

#[test]
fn klu_klu_parallel_factor_bit_identical() {
    let (on, off) = (defaults().with_parallel_factor(true), defaults().with_parallel_factor(false));
    assert_eq!((on.parallel, off.parallel), (KluParallel::On, KluParallel::Off));
    check_parallel_identical(on, off, false);
}

#[test]
fn tests_klu_parallel_factor_bit_identical() {
    let on = defaults().with_parallel(KluParallel::On);
    check_parallel_identical(on, defaults().with_parallel(KluParallel::Off), true);
}

fn check_preconditioner() {
    let a = circuit_like(120, 55);
    let m = KluSolver::factor(&a, &defaults()).unwrap();
    let b: Vec<F> = (0..a.n).map(|i| F((i % 7) as f64 - 3.0)).collect();
    let res = gmres(&a, &b, &m, F(1e-12), 5, 5, None).unwrap();
    assert!(res.converged);
    assert!(res.iters <= 2);
    assert!(resid(&a, &res.x, &b) < 1e-10);
}

#[test]
fn klu_klu_composes_as_gmres_preconditioner() {
    check_preconditioner();
}

#[test]
fn tests_klu_composes_as_gmres_preconditioner() {
    check_preconditioner();
}

fn check_settings(s: KluSettings<F>) {
    let s = s.with_row_scaling(false).with_btf(false);
    assert_eq!(s.pivot_threshold, F(1.0));
    assert!(!s.row_scaling);
    assert!(!s.btf);
    let a = circuit_like(80, 9);
    let solver = KluSolver::factor(&a, &s).unwrap();
    let b: Vec<F> = (0..a.n).map(|i| F((i % 3) as f64)).collect();
    let x = solver.solve(&b).unwrap();
    assert!(resid(&a, &x, &b) < 1e-12);
}

#[test]
fn klu_klu_settings_compose() {
    check_settings(defaults().with_pivot_tol(F(1.0)));
}

#[test]
fn tests_klu_settings_compose() {
    check_settings(defaults().with_pivot_threshold(F(1.0)));
}

#[test]
fn exported_factors_reproduce_the_matrix() {
    for (seed, scaling, btf) in [(10, true, true), (20, false, true), (30, true, false)] {
        let a = cascaded(60, 4, seed);
        let s = defaults().with_row_scaling(scaling).with_btf(btf);
        let solver = KluSolver::factor(&a, &s).unwrap();
        let (l, u, f) = (solver.l_matrix(), solver.u_matrix(), solver.f_matrix());
        let bp = solver.block_ptr();
        let block = |i: usize| bp.partition_point(|&b| b <= i) - 1;
        for (m, name) in [(&l, "L"), (&u, "U"), (&f, "F")] {
            m.validate().unwrap();
            for j in 0..m.n {
                for &i in &m.row_idx[m.col_ptr[j]..m.col_ptr[j + 1]] {
                    let inside = match name {
                        "L" => i >= j && block(i) == block(j),
                        "U" => i <= j && block(i) == block(j),
                        _ => block(i) < block(j),
                    };
                    assert!(inside);
                }
            }
        }
        assert!((0..l.n).all(|j| l.row_idx[l.col_ptr[j]] == j && l.values[l.col_ptr[j]] == F(1.0)));
        let n = a.n;
        let mut rng = Rng(seed | 99);
        let x: Vec<F> = (0..n).map(|_| F(rng.next_f64())).collect();
        let zero = vec![F(0.0); n];
        let (mut ux, mut lux, mut fx) = (zero.clone(), zero.clone(), zero.clone());
        u.matvec(&x, &mut ux);
        l.matvec(&ux, &mut lux);
        f.matvec(&x, &mut fx);
        let mut xc = zero.clone();
        for (k, &c) in solver.col_perm().iter().enumerate() {
            xc[c] = x[k];
        }
        let mut ax = zero.clone();
        a.matvec(&xc, &mut ax);
        let rs = solver.row_scale();
        for (k, &r) in solver.row_perm().iter().enumerate() {
            assert!((lux[k].0 + fx[k].0 - rs[r].0 * ax[r].0).abs() < 1e-12);
        }
    }
}

#[test]
fn exported_complex_factors_reproduce_the_matrix() {
    let ar = cascaded(60, 4, 40);
    let a = GeneralCsc::<Z> {
        n: ar.n,
        col_ptr: ar.col_ptr.clone(),
        row_idx: ar.row_idx.clone(),
        values: ar
            .values
            .iter()
            .enumerate()
            .map(|(k, &v)| Z(v.0, 0.3 * v.0 * ((k % 3) as f64 - 1.0)))
            .collect(),
    };
    let solver = KluSolver::factor(&a, &defaults()).unwrap();
    let (l, u, f) = (solver.l_matrix(), solver.u_matrix(), solver.f_matrix());
    let n = a.n;
    let x: Vec<Z> = (0..n).map(|i| Z(i as f64 * 0.1, 1.0 - i as f64 * 0.02)).collect();
    let zero = vec![Z(0.0, 0.0); n];
    let (mut ux, mut lux, mut fx) = (zero.clone(), zero.clone(), zero.clone());
    u.matvec(&x, &mut ux);
    l.matvec(&ux, &mut lux);
    f.matvec(&x, &mut fx);
    let mut xc = zero.clone();
    for (k, &c) in solver.col_perm().iter().enumerate() {
        xc[c] = x[k];
    }
    let mut ax = zero.clone();
    a.matvec(&xc, &mut ax);
    let rs = solver.row_scale();
    for (k, &r) in solver.row_perm().iter().enumerate() {
        let want = Z(ax[r].0 * rs[r].0, ax[r].1 * rs[r].0);
        let got = lux[k].plus(fx[k]);
        assert!(got.minus(want).magnitude().0 < 1e-12);
    }
}

#[test]
fn an_armed_flag_interrupts() {
    let a = circuit_like(60, 5);
    let flag = Arc::new(AtomicBool::new(true));
    let s = defaults().with_interrupt(flag.clone());
    assert!(matches!(KluSolver::factor(&a, &s), Err(RslabError::Interrupted)));
    flag.store(false, Ordering::SeqCst);
    assert!(KluSolver::factor(&a, &s).is_ok());
}

#[test]
fn shapes_are_checked() {
    let a = circuit_like(20, 1);
    let s = KluSolver::factor(&a, &defaults()).unwrap();
    assert!(matches!(
        s.solve(&[F(0.0); 3]),
        Err(RslabError::DimensionMismatch { expected: 20, got: 3 })
    ));
    assert!(matches!(
        s.solve_many(&[F(0.0); 39], 2),
        Err(RslabError::DimensionMismatch { expected: 40, got: 39 })
    ));
    assert!(matches!(
        s.solve_many(&[F(0.0); 20], 0),
        Err(RslabError::DimensionMismatch { expected: 20, got: 20 })
    ));
    assert!(matches!(
        s.solve_refined(&a, &[F(0.0); 19], 1),
        Err(RslabError::DimensionMismatch { expected: 20, got: 19 })
    ));
}

#[test]
fn malformed_matrices_are_refused() {
    let a = GeneralCsc { n: 2, col_ptr: vec![0, 1], row_idx: vec![0], values: vec![F(1.0)] };
    assert!(matches!(
        KluSymbolic::analyze(&a, &defaults()),
        Err(RslabError::InvalidInput(_))
    ));
}

/// A tridiagonal matrix of order five, row `i` taken from row `from[i]`.
fn shuffled_tridiagonal(from: [usize; 5]) -> GeneralCsc<F> {
    let mut r: Vec<usize> = Vec::new();
    let mut c: Vec<usize> = Vec::new();
    let mut v: Vec<f64> = Vec::new();
    for i in 0..5 {
        for j in 0..5 {
            let t = from[i];
            if t == j {
                r.push(i);
                c.push(j);
                v.push(4.0);
            } else if t + 1 == j || j + 1 == t {
                r.push(i);
                c.push(j);
                v.push(1.0);
            }
        }
    }
    triplets(5, &r, &c, &v)
}

fn follows(sym: &KluSymbolic, m: &[usize]) -> bool {
    (0..sym.n).all(|k| sym.pre_row_perm[k] == m[sym.col_perm[k]])
}

#[test]
fn the_cheapest_matching_wins() {
    let swap = vec![1, 0, 3, 2, 4];
    let a = shuffled_tridiagonal([1, 0, 3, 2, 4]);
    let s = defaults().with_matching(false);
    let none = SuppliedMatchings { weighted: None, offered: vec![] };
    let own = KluSymbolic::analyze_with(&a, &s, &none).unwrap();
    assert!(follows(&own, &[0, 1, 2, 3, 4]));
    let one = SuppliedMatchings { weighted: None, offered: vec![swap.clone()] };
    let best = KluSymbolic::analyze_with(&a, &s, &one).unwrap();
    assert!(follows(&best, &swap));
    let f = best.factor(&a, &s).unwrap();
    let b = wrap(&[1.0, -2.0, 3.0, 0.5, 2.0]);
    let x = f.solve(&b).unwrap();
    assert!(resid(&a, &x, &b) < 1e-14);
}

#[test]
fn a_costlier_matching_loses() {
    let a = shuffled_tridiagonal([0, 1, 2, 3, 4]);
    let s = defaults().with_matching(false);
    let offer = SuppliedMatchings {
        weighted: None,
        offered: vec![vec![1, 0, 3, 2, 4], vec![0, 1, 2, 3, 4], vec![0, 0, 0, 0, 0]],
    };
    let sym = KluSymbolic::analyze_with(&a, &s, &offer).unwrap();
    assert!(follows(&sym, &[0, 1, 2, 3, 4]));
}

#[test]
fn a_weighted_matching_decides() {
    let swap = vec![1, 0, 3, 2, 4];
    let a = shuffled_tridiagonal([0, 1, 2, 3, 4]);
    let given = SuppliedMatchings { weighted: Some(swap.clone()), offered: vec![] };
    let on = KluSymbolic::analyze_with(&a, &defaults(), &given).unwrap();
    assert!(follows(&on, &swap));
    let off = KluSymbolic::analyze_with(&a, &defaults().with_matching(false), &given).unwrap();
    assert!(follows(&off, &[0, 1, 2, 3, 4]));
    let short = SuppliedMatchings { weighted: Some(vec![4, 0, 3, 2, 1]), offered: vec![] };
    let kept = KluSymbolic::analyze_with(&a, &defaults(), &short).unwrap();
    assert!(follows(&kept, &[0, 1, 2, 3, 4]));
}

#[test]
fn blocks_are_ordered_by_degree_or_left_alone() {
    let a = shuffled_tridiagonal([0, 1, 2, 3, 4]);
    let s = defaults().with_btf(false);
    let natural = KluSymbolic::analyze_with(&a, &s, &NaturalOrder).unwrap();
    assert_eq!(natural.col_perm, vec![0, 1, 2, 3, 4]);
    assert_eq!(natural.pre_row_perm, vec![0, 1, 2, 3, 4]);
    assert_eq!(natural.block_ptr, vec![0, 5]);
    let degree = KluSymbolic::analyze(&a, &s).unwrap();
    assert_eq!(degree.col_perm, vec![0, 4, 1, 2, 3]);
    assert_eq!(degree.pre_row_perm, vec![0, 4, 1, 2, 3]);
}

#[test]
fn the_first_column_without_a_pivot_is_named() {
    // The last column stores nothing but zeros.
    let a = triplets(
        4,
        &[0, 1, 2, 3, 1, 2, 3, 0, 1, 2, 3, 0, 3],
        &[0, 0, 1, 1, 1, 2, 2, 2, 2, 3, 3, 3, 3],
        &[2.0, 1.0, 1.0, 5.0, 3.0, 1.0, 2.0, 1.0, 1.0, 0.0, 0.0, 0.0, 0.0],
    );
    let on = KluSolver::factor(&a, &defaults().with_parallel(KluParallel::On));
    let off = KluSolver::factor(&a, &defaults().with_parallel(KluParallel::Off));
    match (on, off) {
        (
            Err(RslabError::SingularBasis { column: c1 }),
            Err(RslabError::SingularBasis { column: c2 }),
        ) => assert_eq!(c1, c2),
        _ => panic!("a zero column was factored"),
    }
}

#[test]
fn a_raised_flag_is_an_interrupt() {
    assert!(matches!(interrupt_outcome(true), Err(RslabError::Interrupted)));
    assert!(interrupt_outcome(false).is_ok());
}

#[test]
fn blocks_may_be_factored_in_any_order() {
    let a = circuit_like(90, 7);
    let s = defaults().with_parallel(KluParallel::On);
    let sym = KluSymbolic::analyze(&a, &s).unwrap();
    assert!(admits_parallel(&sym, &s));
    let plan = plan_factor(&sym, &a, s.row_scaling).unwrap();
    let mut done = Vec::new();
    for task in plan.tasks.iter().rev() {
        done.push(factor_diagonal(task.cols.len(), &task.cols, s.pivot_threshold));
    }
    done.reverse();
    let apart = join_factor(&sym, &a, &s, plan, done).unwrap();
    let whole = sym.factor(&a, &s).unwrap();
    assert_eq!(apart.blocks.len(), whole.factors.blocks.len());
    for (x, y) in apart.blocks.iter().zip(&whole.factors.blocks) {
        assert_eq!(x.piv, y.piv);
        assert_eq!(x.l_rows, y.l_rows);
        assert_eq!(x.u_rows, y.u_rows);
        assert!(x.d == y.d && x.l_vals == y.l_vals && x.u_vals == y.u_vals);
    }
    assert!(apart.rs_inv == whole.factors.rs_inv);
}

#[test]
fn blocks_may_be_replayed_in_any_order() {
    let a = circuit_like(90, 7);
    let mut b = a.clone();
    for v in b.values.iter_mut() {
        *v = F(v.0 * 1.25);
    }
    let mut apart = KluSolver::factor(&a, &defaults()).unwrap();
    let mut whole = KluSolver::factor(&a, &defaults()).unwrap();
    whole.refactor(&b).unwrap();
    let plan = apart.factors.plan_replay(&b).unwrap();
    let mut done: Vec<Result<(), usize>> = Vec::new();
    for (lu, cols) in apart.factors.blocks.iter_mut().zip(&plan.tasks).rev() {
        done.push(replay_block(cols.len(), lu, cols));
    }
    done.reverse();
    apart.factors.finish_replay(&b, plan, &done).unwrap();
    apart.record_refactor();
    for (x, y) in apart.factors.blocks.iter().zip(&whole.factors.blocks) {
        assert!(x.d == y.d && x.l_vals == y.l_vals && x.u_vals == y.u_vals);
    }
    assert_eq!(apart.diagnostics.stages.len(), 2);
    let rhs: Vec<F> = (0..90).map(|i| F(i as f64 - 40.0)).collect();
    assert!(apart.solve(&rhs).unwrap() == whole.solve(&rhs).unwrap());
}

/// The heaviest matching keeps the diagonal-preference pivoting on the diagonal:
/// on a row-scrambled, badly scaled grid the numeric fill equals the symbolic
/// estimate.
#[test]
fn the_heaviest_matching_keeps_fill_at_the_estimate() {
    let m = 40usize;
    let n = m * m;
    let mut cols: Vec<Vec<(usize, f64)>> = vec![Vec::new(); n];
    for j in 0..n {
        let (x, y) = (j % m, j / m);
        let rs = |i: usize| 10f64.powi(((i * 7919) % 13) as i32 - 6);
        let mut push = |i: usize, v: f64| cols[j].push(((i + 17) % n, v * rs(i)));
        push(j, 4.0);
        if x > 0 {
            push(j - 1, -1.4);
        }
        if x + 1 < m {
            push(j + 1, -0.6);
        }
        if y > 0 {
            push(j - m, -1.0);
        }
        if y + 1 < m {
            push(j + m, -1.0);
        }
    }
    let (mut col_ptr, mut row_idx, mut values) = (vec![0usize], Vec::new(), Vec::new());
    for c in &mut cols {
        c.sort_by_key(|e| e.0);
        for &(r, v) in c.iter() {
            row_idx.push(r);
            values.push(F(v));
        }
        col_ptr.push(row_idx.len());
    }
    let a = GeneralCsc { n, col_ptr, row_idx, values };
    let b: Vec<F> = (0..n).map(|i| F(((i * 31) % 17) as f64 - 8.0)).collect();
    let heaviest = SuppliedMatchings {
        weighted: Some((0..n).map(|j| (j + 17) % n).collect()),
        offered: vec![],
    };
    let with = defaults();
    let mut sym = KluSymbolic::analyze_with(&a, &with, &heaviest).unwrap();
    let s = sym.factor(&a, &with).unwrap();
    assert_eq!(s.factor_nnz(), sym.symbolic_factor_nnz() as u64, "no pivot-induced fill");
    let x = s.solve(&b).unwrap();
    let mut r: Vec<f64> = b.iter().map(|v| v.0).collect();
    let mut d: Vec<f64> = b.iter().map(|v| v.0.abs()).collect();
    for j in 0..n {
        for k in a.col_ptr[j]..a.col_ptr[j + 1] {
            r[a.row_idx[k]] -= a.values[k].0 * x[j].0;
            d[a.row_idx[k]] += a.values[k].0.abs() * x[j].0.abs();
        }
    }
    let omega = r.iter().zip(&d).map(|(ri, di)| ri.abs() / di).fold(0.0, f64::max);
    assert!(omega < 1e-13, "backward error {omega}");
}

#[test]
fn the_estimate_covers_the_pattern() {
    for seed in 1..5 {
        let a = circuit_like(70, seed);
        let mut sym = KluSymbolic::analyze(&a, &defaults()).unwrap();
        let count = sym.symbolic_factor_nnz();
        assert!(count as u64 >= a.nnz() as u64);
        assert_eq!(count, sym.symbolic_factor_nnz());
    }
}

#[test]
fn a_refactorization_adds_one_stage() {
    let a = circuit_like(100, 4);
    let mut s = KluSolver::factor(&a, &defaults()).unwrap();
    let before = s.diagnostics().clone();
    assert_eq!((before.threads, before.n, before.nnz_a), (1, a.n, a.nnz() as u64));
    assert_eq!(before.factor_nnz, s.factor_nnz());
    assert_eq!(before.btf_blocks, s.n_blocks());
    s.refactor(&rescaled(&a)).unwrap();
    let after = s.diagnostics();
    assert_eq!(after.stages.len(), before.stages.len() + 1);
    assert_eq!(after.stages[..1], before.stages[..]);
    assert_eq!((after.threads, after.n, after.nnz_a), (before.threads, before.n, before.nnz_a));
    assert_eq!((after.factor_nnz, after.btf_blocks), (before.factor_nnz, before.btf_blocks));
    assert_eq!(after.estimate, before.estimate);
}

#[test]
fn an_armed_flag_interrupts_a_refactorization() {
    let a = circuit_like(60, 5);
    let flag = Arc::new(AtomicBool::new(false));
    let mut s = KluSolver::factor(&a, &defaults().with_interrupt(flag.clone())).unwrap();
    flag.store(true, Ordering::SeqCst);
    assert!(matches!(s.refactor(&a), Err(RslabError::Interrupted)));
    flag.store(false, Ordering::SeqCst);
    assert!(s.refactor(&a).is_ok());
}

#[test]
fn a_batch_keeps_signed_zeros() {
    // The second unknown of the first column is exactly zero before it is used.
    let a = triplets(2, &[0, 1, 1], &[0, 0, 1], &[2.0, 1.0, 4.0]);
    let s = KluSolver::factor(&a, &defaults()).unwrap();
    let cols = [[F(0.0), F(-0.0)], [F(-0.0), F(8.0)], [F(2.0), F(1.0)]];
    let b: Vec<F> = cols.iter().flatten().copied().collect();
    let x = s.solve_many(&b, 3).unwrap();
    for (c, col) in cols.iter().enumerate() {
        assert_eq!(bits(&x[2 * c..2 * c + 2]), bits(&s.solve(col).unwrap()));
    }
}

#[test]
fn workers_wait_for_the_columns_they_need() {
    // Column 2 needs 0 and 1, column 3 needs 1, column 4 needs 3.
    let ups = vec![vec![], vec![], vec![0, 1], vec![1], vec![3]];
    let mut s = Schedule::new(5, 2);
    assert_eq!(s.take_turn(0, &ups), Turn::Replay(0));
    assert_eq!(s.take_turn(1, &ups), Turn::Replay(1));
    s.publish(0);
    assert_eq!(s.take_turn(0, &ups), Turn::Wait);
    s.publish(1);
    assert_eq!(s.take_turn(0, &ups), Turn::Replay(2));
    assert_eq!(s.take_turn(1, &ups), Turn::Replay(3));
    s.publish(0);
    assert_eq!(s.take_turn(0, &ups), Turn::Wait);
    let mut broken = s.clone();
    broken.give_up(1);
    assert_eq!(broken.limit, 3);
    assert_eq!(broken.take_turn(0, &ups), Turn::Stop);
    assert_eq!(broken.take_turn(1, &ups), Turn::Stop);
    s.publish(1);
    assert_eq!(s.take_turn(1, &ups), Turn::Stop);
    assert_eq!(s.take_turn(0, &ups), Turn::Replay(4));
    s.publish(0);
    assert_eq!(s.take_turn(0, &ups), Turn::Stop);
    assert_eq!(s.published, vec![true; 5]);
    assert_eq!(Schedule::new(1, 3).next, vec![0, 1, 1]);
}

#[test]
fn any_number_of_workers_replays_alike() {
    let (a, _) = grid_cd(9);
    let a2 = rescaled(&a);
    let whole = KluSolver::factor(&a, &defaults()).unwrap();
    assert_eq!(whole.factors.blocks.len(), 1);
    let plan = whole.factors.plan_replay(&a2).unwrap();
    let cols = &plan.tasks[0];
    let mut seq = whole.factors.blocks[0].clone();
    assert_eq!(replay_block(cols.len(), &mut seq, cols), Ok(()));
    assert!(seq.d != whole.factors.blocks[0].d);
    for workers in [1, 2, 3, 7, 200] {
        let mut lu = whole.factors.blocks[0].clone();
        assert_eq!(replay_in_turn(cols.len(), workers, &mut lu, cols), Ok(()));
        assert!(lu.d == seq.d && lu.l_vals == seq.l_vals && lu.u_vals == seq.u_vals);
    }
}

#[test]
fn columns_are_replayed_one_by_one() {
    // [4 1; 2 3]: one update, by column 0.
    let a = triplets(2, &[0, 1, 0, 1], &[0, 0, 1, 1], &[4.0, 2.0, 1.0, 3.0]);
    let s = defaults().with_row_scaling(false);
    let solver = KluSolver::factor(&a, &s).unwrap();
    let b = triplets(2, &[0, 1, 0, 1], &[0, 0, 1, 1], &[8.0, 2.0, 1.0, 3.0]);
    let plan = solver.factors.plan_replay(&b).unwrap();
    let cols = &plan.tasks[0];
    let mut lu = solver.factors.blocks[0].clone();
    let mut x = blank_vector(2);
    let first = replay_one(2, 0, &lu, cols, &vec![], &mut x).unwrap();
    assert!(first.u_vals.is_empty());
    assert!(x == wrap(&[0.0, 0.0]));
    let second = replay_one(2, 1, &lu, cols, &vec![&first.l_vals], &mut x).unwrap();
    let det = first.d.0 * second.d.0;
    assert!((det.abs() - 22.0).abs() < 1e-12);
    let mut seq = lu.clone();
    replay_block(2, &mut seq, cols).unwrap();
    let out: Vec<Option<ColumnValues<F>>> = vec![Some(first), Some(second)];
    assert_eq!(join_columns(2, &mut lu, cols, out, 2), Ok(()));
    assert!(lu.d == seq.d && lu.l_vals == seq.l_vals && lu.u_vals == seq.u_vals);
}

#[test]
fn workers_report_the_first_column_that_fails() {
    let (a, _) = grid_cd(6);
    let solver = KluSolver::factor(&a, &defaults()).unwrap();
    let mut zero = a.clone();
    for v in zero.values.iter_mut() {
        v.0 = 0.0;
    }
    let plan = solver.factors.plan_replay(&zero).unwrap();
    let cols = &plan.tasks[0];
    for workers in [1, 2, 5] {
        let mut lu = solver.factors.blocks[0].clone();
        assert_eq!(replay_in_turn(cols.len(), workers, &mut lu, cols), Err(0));
    }
    // Two columns that vanish: the lower one decides, whoever meets it first.
    let mut partly = a.clone();
    let gone = [solver.col_perm()[7], solver.col_perm()[4]];
    for c in gone {
        for k in partly.col_ptr[c]..partly.col_ptr[c + 1] {
            partly.values[k].0 = 0.0;
        }
    }
    let plan = solver.factors.plan_replay(&partly).unwrap();
    let cols = &plan.tasks[0];
    let mut seq = solver.factors.blocks[0].clone();
    assert_eq!(replay_block(cols.len(), &mut seq, cols), Err(4));
    for workers in [1, 2, 3, 4, 5] {
        let mut lu = solver.factors.blocks[0].clone();
        assert_eq!(replay_in_turn(cols.len(), workers, &mut lu, cols), Err(4));
        assert!(lu.d[..4] == seq.d[..4]);
    }
    let mut s = solver.clone();
    s.factors.pipelined = vec![(0, 3)];
    assert_eq!(s.refactor(&partly), Err(RslabError::SingularBasis { column: gone[1] }));
}

#[test]
fn the_threads_bound_the_workers() {
    let plan = vec![(2, 8), (5, 1)];
    assert_eq!(workers_for(&plan, 2, 4), Some(4));
    assert_eq!(workers_for(&plan, 2, 16), Some(8));
    assert_eq!(workers_for(&plan, 5, 16), Some(2));
    assert_eq!(workers_for(&plan, 3, 16), None);
    assert_eq!(workers_for(&plan, 2, 1), None);
}

#[test]
fn a_raised_flag_stops_a_refactorization() {
    let a = circuit_like(60, 5);
    let flag = Arc::new(AtomicBool::new(false));
    let mut s = KluSolver::factor(&a, &defaults().with_interrupt(flag.clone())).unwrap();
    let before = values_of(&s);
    flag.store(true, Ordering::SeqCst);
    assert_eq!(s.refactor(&rescaled(&a)), Err(RslabError::Interrupted));
    assert!(matches!(s.factors.plan_replay(&a), Err(RslabError::Interrupted)));
    assert_eq!(values_of(&s), before);
    flag.store(false, Ordering::SeqCst);
    assert_eq!(s.refactor(&rescaled(&a)), Ok(()));
}

#[test]
fn stages_count_a_value_and_an_index_per_entry() {
    let a = triplets(2, &[0, 1], &[0, 1], &[2.0, 3.0]);
    let s = KluSolver::factor(&a, &defaults()).unwrap();
    let d = s.diagnostics();
    assert_eq!(d.stages[0].bytes, d.factor_nnz * (8 + 4));
}
