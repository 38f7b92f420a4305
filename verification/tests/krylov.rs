use rslab::error::RslabError;
use rslab::klu::settings::KluSettings;
use rslab::klu::solver::KluSolver;
use rslab::krylov::block::gmres_block;
use rslab::krylov::cg::cocg;
use rslab::krylov::closures::{gmres_block_fn, gmres_fn};
use rslab::krylov::cr::cocr;
use rslab::krylov::gmres::gmres;
use rslab::krylov::operator::{Factorization, LinearOperator, NoPreconditioner, Preconditioner, SymmetricCsc};
use rslab::krylov::sweep::givens;
use rslab::krylov::vectors::{dotc, dotc_chunked, dotu};
use rslab::scalar::{Real, Scalar};
use rslab::sparse::GeneralCsc;
use std::cell::{Cell, RefCell};

#[derive(Clone, Copy, Debug, PartialEq)]
struct F(f64);

impl Real for F {
    fn zero_spec() -> F {
        F(0.0)
    }
    fn one_spec() -> F {
        F(1.0)
    }
    fn from_count_spec(n: u64) -> F {
        F(n as f64)
    }
    fn plus_spec(self, other: F) -> F {
        F(self.0 + other.0)
    }
    fn times_spec(self, other: F) -> F {
        F(self.0 * other.0)
    }
    fn over_spec(self, other: F) -> F {
        F(self.0 / other.0)
    }
    fn sqrt_spec(self) -> F {
        F(self.0.sqrt())
    }
    fn minus_spec(self, other: F) -> F {
        F(self.0 - other.0)
    }
    fn maximum_spec(self, other: F) -> F {
        F(self.0.max(other.0))
    }
    fn epsilon_spec() -> F {
        F(f64::EPSILON)
    }
    fn gt_spec(self, other: F) -> bool {
        self.0 > other.0
    }
    fn ge_spec(self, other: F) -> bool {
        self.0 >= other.0
    }
    fn is_zero_spec(self) -> bool {
        self.0 == 0.0
    }
    fn is_finite_spec(self) -> bool {
        self.0.is_finite()
    }
    fn gt_irreflexive(_a: F) {}
    fn gt_transitive(_a: F, _b: F, _c: F) {}
    fn positive_is_nonzero(_a: F) {}
    fn zero() -> F {
        F(0.0)
    }
    fn one() -> F {
        F(1.0)
    }
    fn from_count(n: u64) -> F {
        F(n as f64)
    }
    fn plus(self, other: F) -> F {
        F(self.0 + other.0)
    }
    fn times(self, other: F) -> F {
        F(self.0 * other.0)
    }
    fn over(self, other: F) -> F {
        F(self.0 / other.0)
    }
    fn sqrt(self) -> F {
        F(self.0.sqrt())
    }
    fn minus(self, other: F) -> F {
        F(self.0 - other.0)
    }
    fn maximum(self, other: F) -> F {
        F(self.0.max(other.0))
    }
    fn epsilon() -> F {
        F(f64::EPSILON)
    }
    fn gt(self, other: F) -> bool {
        self.0 > other.0
    }
    fn ge(self, other: F) -> bool {
        self.0 >= other.0
    }
    fn is_zero(self) -> bool {
        self.0 == 0.0
    }
    fn is_finite(self) -> bool {
        self.0.is_finite()
    }
}

impl Scalar for F {
    type Real = F;
    fn zero_spec() -> F {
        F(0.0)
    }
    fn one_spec() -> F {
        F(1.0)
    }
    fn from_real_spec(x: F) -> F {
        x
    }
    fn plus_spec(self, other: F) -> F {
        F(self.0 + other.0)
    }
    fn minus_spec(self, other: F) -> F {
        F(self.0 - other.0)
    }
    fn times_spec(self, other: F) -> F {
        F(self.0 * other.0)
    }
    fn over_spec(self, other: F) -> F {
        F(self.0 / other.0)
    }
    fn fmadd_spec(self, b: F, c: F) -> F {
        F(self.0.mul_add(b.0, c.0))
    }
    fn conj_spec(self) -> F {
        self
    }
    fn recip_spec(self) -> F {
        F(self.0.recip())
    }
    fn negate_spec(self) -> F {
        F(-self.0)
    }
    fn real_part_spec(self) -> F {
        self
    }
    fn magnitude_spec(self) -> F {
        F(self.0.abs())
    }
    fn magnitude_sq_spec(self) -> F {
        F(self.0 * self.0)
    }
    fn is_zero_spec(self) -> bool {
        self.0 == 0.0
    }
    fn is_finite_spec(self) -> bool {
        self.0.is_finite()
    }
    fn zero() -> F {
        F(0.0)
    }
    fn one() -> F {
        F(1.0)
    }
    fn from_real(x: F) -> F {
        x
    }
    fn plus(self, other: F) -> F {
        F(self.0 + other.0)
    }
    fn minus(self, other: F) -> F {
        F(self.0 - other.0)
    }
    fn times(self, other: F) -> F {
        F(self.0 * other.0)
    }
    fn over(self, other: F) -> F {
        F(self.0 / other.0)
    }
    fn fmadd(self, b: F, c: F) -> F {
        F(self.0.mul_add(b.0, c.0))
    }
    fn conj(self) -> F {
        self
    }
    fn recip(self) -> F {
        F(self.0.recip())
    }
    fn negate(self) -> F {
        F(-self.0)
    }
    fn real_part(self) -> F {
        self
    }
    fn magnitude(self) -> F {
        F(self.0.abs())
    }
    fn magnitude_sq(self) -> F {
        F(self.0 * self.0)
    }
    fn is_zero(self) -> bool {
        self.0 == 0.0
    }
    fn is_finite(self) -> bool {
        self.0.is_finite()
    }
}

#[derive(Clone, Copy, Debug, PartialEq)]
struct Z(f64, f64);

fn z_times(a: Z, b: Z) -> Z {
    Z(a.0 * b.0 - a.1 * b.1, a.0 * b.1 + a.1 * b.0)
}

fn z_recip(a: Z) -> Z {
    let m = a.0 * a.0 + a.1 * a.1;
    Z(a.0 / m, -a.1 / m)
}

impl Scalar for Z {
    type Real = F;
    fn zero_spec() -> Z {
        Z(0.0, 0.0)
    }
    fn one_spec() -> Z {
        Z(1.0, 0.0)
    }
    fn from_real_spec(x: F) -> Z {
        Z(x.0, 0.0)
    }
    fn plus_spec(self, other: Z) -> Z {
        Z(self.0 + other.0, self.1 + other.1)
    }
    fn minus_spec(self, other: Z) -> Z {
        Z(self.0 - other.0, self.1 - other.1)
    }
    fn times_spec(self, other: Z) -> Z {
        z_times(self, other)
    }
    fn over_spec(self, other: Z) -> Z {
        z_times(self, z_recip(other))
    }
    fn fmadd_spec(self, b: Z, c: Z) -> Z {
        let p = z_times(self, b);
        Z(p.0 + c.0, p.1 + c.1)
    }
    fn conj_spec(self) -> Z {
        Z(self.0, -self.1)
    }
    fn recip_spec(self) -> Z {
        z_recip(self)
    }
    fn negate_spec(self) -> Z {
        Z(-self.0, -self.1)
    }
    fn real_part_spec(self) -> F {
        F(self.0)
    }
    fn magnitude_spec(self) -> F {
        F(self.0.hypot(self.1))
    }
    fn magnitude_sq_spec(self) -> F {
        F(self.0 * self.0 + self.1 * self.1)
    }
    fn is_zero_spec(self) -> bool {
        self.0 == 0.0 && self.1 == 0.0
    }
    fn is_finite_spec(self) -> bool {
        self.0.is_finite() && self.1.is_finite()
    }
    fn zero() -> Z {
        Z(0.0, 0.0)
    }
    fn one() -> Z {
        Z(1.0, 0.0)
    }
    fn from_real(x: F) -> Z {
        Z(x.0, 0.0)
    }
    fn plus(self, other: Z) -> Z {
        Z(self.0 + other.0, self.1 + other.1)
    }
    fn minus(self, other: Z) -> Z {
        Z(self.0 - other.0, self.1 - other.1)
    }
    fn times(self, other: Z) -> Z {
        z_times(self, other)
    }
    fn over(self, other: Z) -> Z {
        z_times(self, z_recip(other))
    }
    fn fmadd(self, b: Z, c: Z) -> Z {
        let p = z_times(self, b);
        Z(p.0 + c.0, p.1 + c.1)
    }
    fn conj(self) -> Z {
        Z(self.0, -self.1)
    }
    fn recip(self) -> Z {
        z_recip(self)
    }
    fn negate(self) -> Z {
        Z(-self.0, -self.1)
    }
    fn real_part(self) -> F {
        F(self.0)
    }
    fn magnitude(self) -> F {
        F(self.0.hypot(self.1))
    }
    fn magnitude_sq(self) -> F {
        F(self.0 * self.0 + self.1 * self.1)
    }
    fn is_zero(self) -> bool {
        self.0 == 0.0 && self.1 == 0.0
    }
    fn is_finite(self) -> bool {
        self.0.is_finite() && self.1.is_finite()
    }
}

/// The lower triangle of a symmetric grid operator.
fn grid(m: usize, diag: Z, off: Z) -> SymmetricCsc<Z> {
    let n = m * m;
    let (mut r, mut c, mut v) = (Vec::new(), Vec::new(), Vec::new());
    let idx = |a: usize, b: usize| a * m + b;
    for a in 0..m {
        for b in 0..m {
            let p = idx(a, b);
            r.push(p);
            c.push(p);
            v.push(diag);
            if b + 1 < m {
                r.push(idx(a, b + 1));
                c.push(p);
                v.push(off);
            }
            if a + 1 < m {
                r.push(idx(a + 1, b));
                c.push(p);
                v.push(off);
            }
        }
    }
    SymmetricCsc { lower: GeneralCsc::from_triplets(n, &r, &c, &v).unwrap() }
}

/// Both triangles of a symmetric matrix.
fn expanded(a: &SymmetricCsc<Z>) -> GeneralCsc<Z> {
    let l = &a.lower;
    let (mut r, mut c, mut v) = (Vec::new(), Vec::new(), Vec::new());
    for j in 0..l.n {
        for k in l.col_ptr[j]..l.col_ptr[j + 1] {
            let i = l.row_idx[k];
            r.push(i);
            c.push(j);
            v.push(l.values[k]);
            if i != j {
                r.push(j);
                c.push(i);
                v.push(l.values[k]);
            }
        }
    }
    GeneralCsc::from_triplets(l.n, &r, &c, &v).unwrap()
}

fn unsym_grid(m: usize) -> GeneralCsc<Z> {
    let n = m * m;
    let (mut rr, mut cc, mut vv) = (Vec::new(), Vec::new(), Vec::new());
    let idx = |a: usize, b: usize| a * m + b;
    for a in 0..m {
        for b in 0..m {
            let p = idx(a, b);
            rr.push(p);
            cc.push(p);
            vv.push(Z(8.0, 1.0));
            if b + 1 < m {
                let q = idx(a, b + 1);
                rr.push(p);
                cc.push(q);
                vv.push(Z(-1.0, 0.2));
                rr.push(q);
                cc.push(p);
                vv.push(Z(-2.0, 0.1));
            }
            if a + 1 < m {
                let q = idx(a + 1, b);
                rr.push(p);
                cc.push(q);
                vv.push(Z(-1.5, 0.3));
                rr.push(q);
                cc.push(p);
                vv.push(Z(-0.5, 0.4));
            }
        }
    }
    GeneralCsc::from_triplets(n, &rr, &cc, &vv).unwrap()
}

fn factor(a: &GeneralCsc<Z>) -> KluSolver<Z> {
    KluSolver::factor(a, &KluSettings::default()).unwrap()
}

fn furthest(x: &[Z], y: &[Z]) -> f64 {
    assert_eq!(x.len(), y.len());
    x.iter().zip(y).map(|(p, q)| p.minus(*q).magnitude().0).fold(0.0, f64::max)
}

fn times(a: &SymmetricCsc<Z>, x: &[Z]) -> Vec<Z> {
    let mut y = vec![Z(0.0, 0.0); a.lower.n];
    a.symv(x, &mut y);
    y
}

fn times_general(a: &GeneralCsc<Z>, x: &[Z]) -> Vec<Z> {
    let mut y = vec![Z(0.0, 0.0); a.n];
    a.matvec(x, &mut y);
    y
}

fn rhs(n: usize) -> Vec<Z> {
    (0..n).map(|i| Z((i % 5) as f64 - 2.0, 1.0)).collect()
}

fn panel(n: usize, s: usize) -> Vec<Z> {
    let mut b = vec![Z(0.0, 0.0); n * s];
    for k in 0..s {
        for i in 0..n {
            b[k * n + i] = Z(((i + k) % 7) as f64 - 3.0, ((i + 2 * k) % 5) as f64 - 2.0);
        }
    }
    b
}

#[test]
fn cocg_unpreconditioned_solves_complex_symmetric() {
    let a = grid(8, Z(4.0, 0.5), Z(-1.0, 0.1));
    let n = a.lower.n;
    let b = rhs(n);
    let res = cocg(&a, &b, &NoPreconditioner, F(1e-10), 2000).unwrap();
    assert!(res.converged);
    assert!(furthest(&times(&a, &res.x), &b) < 1e-7);
}

#[test]
fn cocr_solves_complex_symmetric_pre_and_unpre() {
    let a = grid(10, Z(4.0, 0.5), Z(-1.0, 0.1));
    let n = a.lower.n;
    let b = rhs(n);
    let un = cocr(&a, &b, &NoPreconditioner, F(1e-10), 3000).unwrap();
    assert!(un.converged);
    assert!(furthest(&times(&a, &un.x), &b) < 1e-7);
    let m = factor(&expanded(&a));
    let pre = cocr(&a, &b, &m, F(1e-10), 3000).unwrap();
    assert!(pre.converged && pre.iters <= 3);
}

#[test]
fn gmres_solves_unsymmetric_with_lu_preconditioner() {
    let a = unsym_grid(8);
    let n = a.n;
    let b = rhs(n);
    let un = gmres(&a, &b, &NoPreconditioner, F(1e-10), 2000, 40, None).unwrap();
    assert!(un.converged);
    let lu = factor(&a);
    let pre = gmres(&a, &b, &lu, F(1e-10), 200, 40, None).unwrap();
    assert!(pre.converged);
    assert!(pre.iters <= 3);
    assert!(furthest(&times_general(&a, &pre.x), &b) < 1e-8);
}

#[test]
fn gmres_singular_operator_breaks_down_without_nan() {
    let one = Z(1.0, 0.0);
    let a = GeneralCsc::from_triplets(3, &vec![0, 1], &vec![0, 1], &vec![one, one]).unwrap();
    let b = vec![one, one, one];
    let res = gmres(&a, &b, &NoPreconditioner, F(1e-12), 50, 10, None).unwrap();
    assert!(res.x.iter().all(|z| z.0.is_finite() && z.1.is_finite()));
    assert!(res.final_res.0.is_finite());
    assert!(!res.converged);
    assert!(res.final_res.0 > 1e-12 && res.final_res.0 <= 1.0);
}

#[test]
fn fgmres_saves_one_precond_apply_per_restart_cycle() {
    // A weak preconditioner, the inverse diagonal, so that the solve needs
    // several cycles of a short restart.
    let a = unsym_grid(10);
    let n = a.n;
    let b = rhs(n);
    let restart = 5;
    let applies = Cell::new(0usize);
    let res = gmres_fn(
        |x: &[Z], s: usize| {
            let mut y = vec![Z(0.0, 0.0); n * s];
            a.apply_block(x, &mut y, s);
            y
        },
        |r: &[Z], s: usize| {
            applies.set(applies.get() + s);
            Ok(r.iter().map(|v| v.over(Z(8.0, 1.0))).collect())
        },
        &b,
        n,
        F(1e-10),
        2000,
        restart,
    )
    .unwrap();
    assert!(res.converged);
    assert!(res.iters > restart);
    assert_eq!(applies.get(), res.iters);
}

#[test]
fn gmres_warm_start_cuts_total_iterations_on_related_sequence() {
    let a = unsym_grid(12);
    let n = a.n;
    let b0 = rhs(n);
    let b1: Vec<Z> =
        (0..n).map(|i| Z(((i * 3) % 7) as f64 - 3.0, ((i % 3) as f64) - 1.0)).collect();
    let steps = 10;
    let (tol, maxit, restart) = (F(1e-8), 4000, 60);
    let bk = |k: usize| -> Vec<Z> {
        let th = 5e-5 * k as f64;
        let (ct, st) = (th.cos(), th.sin());
        (0..n).map(|i| b0[i].times(Z(ct, 0.0)).plus(b1[i].times(Z(st, 0.0)))).collect()
    };
    let mut cold_total = 0usize;
    for k in 0..steps {
        let r = gmres(&a, &bk(k), &NoPreconditioner, tol, maxit, restart, None).unwrap();
        assert!(r.converged);
        cold_total += r.iters;
    }
    let mut warm_total = 0usize;
    let mut prev: Option<Vec<Z>> = None;
    for k in 0..steps {
        let r = gmres(&a, &bk(k), &NoPreconditioner, tol, maxit, restart, prev.as_deref()).unwrap();
        assert!(r.converged);
        warm_total += r.iters;
        prev = Some(r.x);
    }
    assert!((warm_total as f64) < 0.7 * (cold_total as f64));
}

#[test]
fn gmres_block_single_rhs_matches_scalar_gmres() {
    let a = unsym_grid(8);
    let n = a.n;
    let b = rhs(n);
    let lu = factor(&a);
    let single = gmres(&a, &b, &lu, F(1e-10), 200, 40, None).unwrap();
    let blk = gmres_block(&a, &b, 1, &lu, F(1e-10), 200, 40, None).unwrap();
    assert!(blk.converged);
    assert!((blk.iters as i64 - single.iters as i64).abs() <= 1);
    assert!(furthest(&blk.x, &single.x) < 1e-7);
}

#[test]
fn gmres_block_multi_rhs_solves_each_column() {
    let a = unsym_grid(10);
    let n = a.n;
    let s = 5;
    let bblk = panel(n, s);
    let lu = factor(&a);
    let res = gmres_block(&a, &bblk, s, &lu, F(1e-10), 200, 40, None).unwrap();
    assert!(res.converged);
    for k in 0..s {
        let y = times_general(&a, &res.x[k * n..k * n + n]);
        assert!(furthest(&y, &bblk[k * n..k * n + n]) < 1e-8);
    }
    for k in 0..s {
        let single = gmres(&a, &bblk[k * n..k * n + n], &lu, F(1e-10), 200, 40, None).unwrap();
        assert!(furthest(&res.x[k * n..k * n + n], &single.x) < 1e-9);
    }
}

#[test]
fn gmres_block_within_cycle_deflation_shrinks_applies() {
    let n = 8;
    let s = 4;
    let (mut rr, mut cc, mut vv) = (Vec::new(), Vec::new(), Vec::new());
    for i in 0..n {
        rr.push(i);
        cc.push(i);
        vv.push(Z(2.0 + i as f64, 0.5 + 0.1 * i as f64));
    }
    let a = GeneralCsc::from_triplets(n, &rr, &cc, &vv).unwrap();
    let mut bblk = vec![Z(0.0, 0.0); n * s];
    for k in 0..s {
        for i in 0..=k {
            bblk[k * n + i] = Z(1.0, 0.0);
        }
    }
    let widths: RefCell<Vec<usize>> = RefCell::new(Vec::new());
    let res = gmres_block_fn(
        |x: &[Z], w: usize| {
            widths.borrow_mut().push(w);
            let mut y = vec![Z(0.0, 0.0); n * w];
            a.apply_block(x, &mut y, w);
            y
        },
        |r: &[Z], _w: usize| Ok(r.to_vec()),
        &bblk,
        s,
        n,
        F(1e-12),
        200,
        40,
    )
    .unwrap();
    assert!(res.converged);
    for k in 0..s {
        let single =
            gmres(&a, &bblk[k * n..k * n + n], &NoPreconditioner, F(1e-12), 200, 40, None).unwrap();
        assert!(furthest(&res.x[k * n..k * n + n], &single.x) < 1e-9);
    }
    let widths = widths.into_inner();
    let ncalls = widths.len();
    let total_cols: usize = widths.iter().sum();
    assert_eq!(*widths.iter().max().unwrap(), s);
    assert!(*widths.iter().min().unwrap() < s);
    assert!(widths.contains(&1));
    assert!(total_cols < s * ncalls);
}

#[test]
fn gmres_block_is_bit_reproducible_over_several_chunks() {
    let a = unsym_grid(60);
    let n = a.n;
    let s = 3;
    let bblk = panel(n, s);
    let solve = || gmres_block(&a, &bblk, s, &NoPreconditioner, F(1e-8), 60, 30, None).unwrap();
    let (x1, x2) = (solve(), solve());
    assert_eq!(x1.iters, x2.iters);
    assert!(x1.x == x2.x);
}

#[test]
fn single_solves_are_bit_reproducible() {
    let a = grid(9, Z(4.0, 0.5), Z(-1.0, 0.1));
    let b = rhs(a.lower.n);
    let m = factor(&expanded(&a));
    let tol = F(1e-10);
    let cg = || cocg(&a, &b, &m, tol, 200).unwrap();
    let cr = || cocr(&a, &b, &m, tol, 200).unwrap();
    let gm = || gmres(&a, &b, &NoPreconditioner, tol, 200, 20, None).unwrap();
    for (first, second) in [(cg(), cg()), (cr(), cr()), (gm(), gm())] {
        assert_eq!(first.iters, second.iters);
        assert!(first.converged && second.converged);
        assert!(first.x == second.x);
    }
}

#[test]
fn cocr_handles_indefinite_helmholtz() {
    let a = grid(10, Z(-1.0, 0.3), Z(1.0, 0.05));
    let n = a.lower.n;
    let b: Vec<Z> = (0..n).map(|i| Z(1.0, (i % 3) as f64 - 1.0)).collect();
    let m = factor(&expanded(&a));
    let pre = cocr(&a, &b, &m, F(1e-9), 500).unwrap();
    assert!(pre.converged);
    assert!(furthest(&times(&a, &pre.x), &b) < 1e-6);
}

#[test]
fn rla_preconditioner_collapses_iteration_count() {
    let a = grid(12, Z(4.0, 1.0), Z(-1.0, 0.2));
    let n = a.lower.n;
    let b: Vec<Z> = (0..n).map(|i| Z((i % 7) as f64 - 3.0, 0.5)).collect();
    let unpre = cocg(&a, &b, &NoPreconditioner, F(1e-10), 5000).unwrap();
    let m = factor(&expanded(&a));
    let pre = cocg(&a, &b, &m, F(1e-10), 5000).unwrap();
    assert!(pre.converged && unpre.converged);
    assert!(pre.iters <= 3);
    assert!(pre.iters * 5 < unpre.iters);
}

#[test]
fn wrong_sizes_are_refused() {
    let a = unsym_grid(2);
    let short = vec![Z(1.0, 0.0); 3];
    let b = vec![Z(1.0, 0.0); 4];
    let bad = Err(RslabError::DimensionMismatch { expected: 4, got: 3 });
    assert_eq!(cocg(&a, &short, &NoPreconditioner, F(0.1), 5).map(|r| r.iters), bad);
    assert_eq!(cocr(&a, &short, &NoPreconditioner, F(0.1), 5).map(|r| r.iters), bad);
    assert_eq!(gmres(&a, &short, &NoPreconditioner, F(0.1), 5, 5, None).map(|r| r.iters), bad);
    assert_eq!(
        gmres(&a, &b, &NoPreconditioner, F(0.1), 5, 5, Some(&short)).map(|r| r.iters),
        bad
    );
    assert_eq!(
        gmres_block(&a, &short, 1, &NoPreconditioner, F(0.1), 5, 5, None).map(|r| r.iters),
        bad
    );
    assert_eq!(
        gmres_block(&a, &b, 0, &NoPreconditioner, F(0.1), 5, 5, None).map(|r| r.iters),
        Err(RslabError::DimensionMismatch { expected: 0, got: 4 })
    );
    assert_eq!(
        gmres_block(&a, &b, 1, &NoPreconditioner, F(0.1), 5, 5, Some(&short)).map(|r| r.iters),
        bad
    );
}

#[test]
fn zero_right_hand_sides_are_solved_at_once() {
    let a = unsym_grid(3);
    let zero = vec![Z(0.0, 0.0); 9];
    let r = cocg(&a, &zero, &NoPreconditioner, F(1e-9), 10).unwrap();
    assert!(r.converged && r.iters == 0 && r.x == zero);
    let r = cocr(&a, &zero, &NoPreconditioner, F(1e-9), 10).unwrap();
    assert!(r.converged && r.iters == 0 && r.x == zero);
    let r = gmres(&a, &zero, &NoPreconditioner, F(1e-9), 10, 5, None).unwrap();
    assert!(r.converged && r.iters == 0 && r.x == zero);
    let r = gmres_block(&a, &zero, 1, &NoPreconditioner, F(1e-9), 10, 5, None).unwrap();
    assert!(r.converged && r.iters == 0 && r.x == zero && r.final_res == vec![F(0.0)]);
}

#[test]
fn an_exact_guess_is_kept() {
    let a = unsym_grid(4);
    let x: Vec<Z> = (0..16).map(|i| Z(i as f64, 1.0)).collect();
    let b = times_general(&a, &x);
    let r = gmres(&a, &b, &NoPreconditioner, F(1e-12), 50, 10, Some(&x)).unwrap();
    assert!(r.converged && r.iters == 0 && r.x == x);
    assert_eq!(r.final_res, F(0.0));
}

#[test]
fn reported_residuals_are_true_residuals() {
    let a = unsym_grid(6);
    let b = rhs(a.n);
    let norm = |v: &[Z]| v.iter().map(|z| z.magnitude_sq().0).sum::<f64>().sqrt();
    let r = gmres(&a, &b, &NoPreconditioner, F(1e-14), 7, 3, None).unwrap();
    assert!(!r.converged && r.iters == 7);
    let y = times_general(&a, &r.x);
    let d: Vec<Z> = b.iter().zip(&y).map(|(p, q)| p.minus(*q)).collect();
    assert!((norm(&d) / norm(&b) - r.final_res.0).abs() < 1e-12);
}

#[test]
fn a_failing_preconditioner_stops_the_solve() {
    let a = unsym_grid(2);
    let b = vec![Z(1.0, 0.0); 4];
    let r = gmres_fn(
        |x: &[Z], s: usize| {
            let mut y = vec![Z(0.0, 0.0); 4 * s];
            a.apply_block(x, &mut y, s);
            y
        },
        |_r: &[Z], _s: usize| Err(RslabError::StructurallySingular),
        &b,
        4,
        F(1e-10),
        10,
        5,
    );
    assert!(matches!(r, Err(RslabError::StructurallySingular)));
}

#[test]
fn products_with_and_without_conjugation() {
    let x = [Z(1.0, 2.0), Z(0.0, 1.0)];
    let y = [Z(3.0, -1.0), Z(2.0, 2.0)];
    // (1+2i)(3-i) + i(2+2i) and (1-2i)(3-i) - i(2+2i).
    assert_eq!(dotu(&x, &y), Z(3.0, 7.0));
    assert_eq!(dotc(&x, &y), Z(3.0, -9.0));
    let long: Vec<Z> = (0..5000).map(|i| Z(1.0, (i % 2) as f64)).collect();
    assert_eq!(dotc_chunked(&long, &long), Z(7500.0, 0.0));
}

#[test]
fn a_rotation_clears_the_second_entry() {
    let (f, g) = (Z(3.0, 0.0), Z(0.0, 4.0));
    let (c, s) = givens(f, g);
    let low = s.negate().times(f).plus(c.times(g));
    let high = c.conj().times(f).plus(s.conj().times(g));
    assert!(low.magnitude().0 < 1e-15);
    assert!((high.0 - 5.0).abs() < 1e-14 && high.1.abs() < 1e-15);
    assert_eq!(givens(f, Z(0.0, 0.0)), (Z(1.0, 0.0), Z(0.0, 0.0)));
    assert_eq!(givens(Z(0.0, 0.0), g), (Z(0.0, 0.0), Z(1.0, 0.0)));
}

#[test]
fn a_factorization_serves_both_ways() {
    let a = unsym_grid(4);
    let lu = factor(&a);
    let b = rhs(16);
    let x = Factorization::solve(&lu, &b).unwrap();
    let mut z = vec![Z(0.0, 0.0); 16];
    lu.apply(&b, &mut z).unwrap();
    assert_eq!(x, z);
    assert!(Factorization::factor_nnz(&lu) > 0);
    assert_eq!(Factorization::n_perturbed(&lu), 0);
    assert!(lu.apply(&b[..3], &mut vec![Z(0.0, 0.0); 3]).is_err());
    let two: Vec<Z> = b.iter().chain(b.iter()).copied().collect();
    let mut zz = vec![Z(0.0, 0.0); 32];
    lu.apply_block(&two, &mut zz, 2, 16).unwrap();
    assert_eq!(&zz[..16], &zz[16..]);
}

#[test]
fn the_start_vector_may_meet_the_tolerance() {
    let a = grid(3, Z(4.0, 0.5), Z(-1.0, 0.1));
    let b = rhs(a.lower.n);
    let none = vec![Z(0.0, 0.0); b.len()];
    for tol in [1.0, 0.5] {
        let g = cocg(&a, &b, &NoPreconditioner, F(tol), 0).unwrap();
        let r = cocr(&a, &b, &NoPreconditioner, F(tol), 0).unwrap();
        for k in [g, r] {
            assert_eq!(k.converged, tol == 1.0);
            assert_eq!(k.iters, 0);
            assert_eq!(k.final_res, F(1.0));
            assert!(k.x == none);
        }
    }
}

#[test]
fn closures_precondition() {
    let a = unsym_grid(5);
    let n = a.n;
    let b = rhs(n);
    let lu = factor(&a);
    let product = |x: &[Z], s: usize| {
        let mut y = vec![Z(0.0, 0.0); n * s];
        a.apply_block(x, &mut y, s);
        y
    };
    let direct = gmres_fn(product, |r: &[Z], s: usize| lu.solve_many(r, s), &b, n, F(1e-12), 50, 20)
        .unwrap();
    let plain = gmres_fn(product, |r: &[Z], _s: usize| Ok(r.to_vec()), &b, n, F(1e-12), 50, 20)
        .unwrap();
    assert!(direct.converged && direct.iters <= 2);
    assert!(plain.iters > direct.iters);
    let same = gmres(&a, &b, &lu, F(1e-12), 50, 20, None).unwrap();
    assert_eq!(direct.x, same.x);
    assert_eq!(direct.iters, same.iters);
    let two = panel(n, 2);
    let block =
        gmres_block_fn(product, |r: &[Z], s: usize| lu.solve_many(r, s), &two, 2, n, F(1e-12), 50, 20)
            .unwrap();
    let alike = gmres_block(&a, &two, 2, &lu, F(1e-12), 50, 20, None).unwrap();
    assert!(block.converged && block.iters <= 2);
    assert_eq!(block.x, alike.x);
}

#[test]
fn factors_refuse_vectors_of_another_length() {
    let lu = factor(&unsym_grid(2));
    let short = vec![Z(1.0, 0.0); 3];
    assert_eq!(
        lu.apply(&short, &mut vec![Z(0.0, 0.0); 3]),
        Err(RslabError::DimensionMismatch { expected: 4, got: 3 })
    );
    let pair = vec![Z(1.0, 0.0); 6];
    assert_eq!(
        lu.apply_block(&pair, &mut vec![Z(0.0, 0.0); 6], 2, 3),
        Err(RslabError::DimensionMismatch { expected: 8, got: 6 })
    );
}
