use rslab::error::RslabError;
use rslab::multifrontal::dense::{dense_fast_factor, dense_fast_factor_with_workspace};
use rslab::multifrontal::factorize::{
    collect_tasks, factorize_multifrontal, factorize_multifrontal_parallel, factorize_multifrontal_supernodal,
    factorize_multifrontal_supernodal_parallel, factorize_multifrontal_supernodal_profiled,
    factorize_multifrontal_supernodal_with_workspace, factorize_multifrontal_with_workspace, prepare, settle, FactorWorkspace, NoClock,
};
use rslab::multifrontal::factors::SparseFactors;
use rslab::multifrontal::kernel::{
    BunchKaufmanParams, DiagonalKernel, FrontKernel, FrontalFactors, Inertia, ZeroPivotAction,
};
use rslab::multifrontal::model::ContribBlock;
use rslab::multifrontal::node::{factor_one_supernode, FrontJob};
use rslab::multifrontal::params::{
    apply_post_scaling_overrides, null_pivot_floor, scaled_matrix_infnorm, NumericParams,
};
use rslab::multifrontal::permute::Clock;
use rslab::multifrontal::profile::{
    bucket_of, AtomicLockStats, ParallelLockStats, Profiler, ProfileReport, SmallLeafBatch,
    SupernodeTiming,
};
use rslab::multifrontal::schur::{factorize_multifrontal_with_schur, SchurBlock};
use rslab::multifrontal::tasks::TaskGraph;
use rslab::multifrontal::tree::{
    should_use_dense_fast_path, CscPattern, SmallLeafGroup, Supernode, SymbolicFactorization,
};
use rslab::multifrontal::workers::{run_task, Finished, TaskRun, TaskSpace};
use rslab::scalar::{Real, Scalar};
use rslab::sparse::GeneralCsc;
use std::cell::Cell;
use std::collections::BTreeSet;
use std::sync::atomic::Ordering;

#[derive(Clone, Copy, Debug, PartialEq)]
struct F(f64);

impl Real for F {
    fn zero_spec() -> F {
        F(0.0)
    }
    fn one_spec() -> F {
        F(1.0)
    }
    fn from_count_spec(n: u64) -> F {
        F(n as f64)
    }
    fn plus_spec(self, other: F) -> F {
        F(self.0 + other.0)
    }
    fn times_spec(self, other: F) -> F {
        F(self.0 * other.0)
    }
    fn over_spec(self, other: F) -> F {
        F(self.0 / other.0)
    }
    fn sqrt_spec(self) -> F {
        F(self.0.sqrt())
    }
    fn minus_spec(self, other: F) -> F {
        F(self.0 - other.0)
    }
    fn maximum_spec(self, other: F) -> F {
        F(self.0.max(other.0))
    }
    fn epsilon_spec() -> F {
        F(f64::EPSILON)
    }
    fn gt_spec(self, other: F) -> bool {
        self.0 > other.0
    }
    fn ge_spec(self, other: F) -> bool {
        self.0 >= other.0
    }
    fn is_zero_spec(self) -> bool {
        self.0 == 0.0
    }
    fn is_finite_spec(self) -> bool {
        self.0.is_finite()
    }
    fn gt_irreflexive(_a: F) {}
    fn gt_transitive(_a: F, _b: F, _c: F) {}
    fn positive_is_nonzero(_a: F) {}
    fn zero() -> F {
        F(0.0)
    }
    fn one() -> F {
        F(1.0)
    }
    fn from_count(n: u64) -> F {
        F(n as f64)
    }
    fn plus(self, other: F) -> F {
        F(self.0 + other.0)
    }
    fn times(self, other: F) -> F {
        F(self.0 * other.0)
    }
    fn over(self, other: F) -> F {
        F(self.0 / other.0)
    }
    fn sqrt(self) -> F {
        F(self.0.sqrt())
    }
    fn minus(self, other: F) -> F {
        F(self.0 - other.0)
    }
    fn maximum(self, other: F) -> F {
        F(self.0.max(other.0))
    }
    fn epsilon() -> F {
        F(f64::EPSILON)
    }
    fn gt(self, other: F) -> bool {
        self.0 > other.0
    }
    fn ge(self, other: F) -> bool {
        self.0 >= other.0
    }
    fn is_zero(self) -> bool {
        self.0 == 0.0
    }
    fn is_finite(self) -> bool {
        self.0.is_finite()
    }
}

impl Scalar for F {
    type Real = F;
    fn zero_spec() -> F {
        F(0.0)
    }
    fn one_spec() -> F {
        F(1.0)
    }
    fn from_real_spec(x: F) -> F {
        x
    }
    fn plus_spec(self, other: F) -> F {
        F(self.0 + other.0)
    }
    fn minus_spec(self, other: F) -> F {
        F(self.0 - other.0)
    }
    fn times_spec(self, other: F) -> F {
        F(self.0 * other.0)
    }
    fn over_spec(self, other: F) -> F {
        F(self.0 / other.0)
    }
    fn fmadd_spec(self, b: F, c: F) -> F {
        F(self.0.mul_add(b.0, c.0))
    }
    fn conj_spec(self) -> F {
        self
    }
    fn recip_spec(self) -> F {
        F(self.0.recip())
    }
    fn negate_spec(self) -> F {
        F(-self.0)
    }
    fn real_part_spec(self) -> F {
        self
    }
    fn magnitude_spec(self) -> F {
        F(self.0.abs())
    }
    fn magnitude_sq_spec(self) -> F {
        F(self.0 * self.0)
    }
    fn is_zero_spec(self) -> bool {
        self.0 == 0.0
    }
    fn is_finite_spec(self) -> bool {
        self.0.is_finite()
    }
    fn zero() -> F {
        F(0.0)
    }
    fn one() -> F {
        F(1.0)
    }
    fn from_real(x: F) -> F {
        x
    }
    fn plus(self, other: F) -> F {
        F(self.0 + other.0)
    }
    fn minus(self, other: F) -> F {
        F(self.0 - other.0)
    }
    fn times(self, other: F) -> F {
        F(self.0 * other.0)
    }
    fn over(self, other: F) -> F {
        F(self.0 / other.0)
    }
    fn fmadd(self, b: F, c: F) -> F {
        F(self.0.mul_add(b.0, c.0))
    }
    fn conj(self) -> F {
        self
    }
    fn recip(self) -> F {
        F(self.0.recip())
    }
    fn negate(self) -> F {
        F(-self.0)
    }
    fn real_part(self) -> F {
        self
    }
    fn magnitude(self) -> F {
        F(self.0.abs())
    }
    fn magnitude_sq(self) -> F {
        F(self.0 * self.0)
    }
    fn is_zero(self) -> bool {
        self.0 == 0.0
    }
    fn is_finite(self) -> bool {
        self.0.is_finite()
    }
}

fn lower(n: usize, rows: &[usize], cols: &[usize], vals: &[f64]) -> GeneralCsc<F> {
    let v: Vec<F> = vals.iter().map(|x| F(*x)).collect();
    GeneralCsc::from_triplets(n, &rows.to_vec(), &cols.to_vec(), &v).unwrap()
}

/// One supernode per column in the order `perm`, and one more for the last
/// `tail` columns.
fn analyze_in(m: &GeneralCsc<F>, perm: &[usize], tail: usize) -> SymbolicFactorization {
    let n = m.n;
    let mut perm_inv = vec![0usize; n];
    for (k, &p) in perm.iter().enumerate() {
        perm_inv[p] = k;
    }
    let mut near: Vec<BTreeSet<usize>> = vec![BTreeSet::new(); n];
    for j in 0..n {
        for &i in &m.row_idx[m.col_ptr[j]..m.col_ptr[j + 1]] {
            near[perm_inv[i]].insert(perm_inv[j]);
            near[perm_inv[j]].insert(perm_inv[i]);
        }
    }
    let mut col_ptr = vec![0usize];
    let mut row_idx = Vec::new();
    for set in &near {
        row_idx.extend(set.iter().copied());
        col_ptr.push(row_idx.len());
    }
    let first_tail = n - tail;
    let mut below: Vec<BTreeSet<usize>> = Vec::new();
    let mut children: Vec<Vec<usize>> = vec![Vec::new(); first_tail + 1];
    for j in 0..first_tail {
        let mut s: BTreeSet<usize> = near[j].iter().copied().filter(|&i| i > j).collect();
        for &c in &children[j] {
            s.extend(below[c].iter().copied().filter(|&i: &usize| i > j));
        }
        if let Some(&p) = s.iter().next() {
            children[p.min(first_tail)].push(j);
        }
        below.push(s);
    }
    let mut supernodes = Vec::new();
    for j in 0..first_tail {
        let mut rows = vec![j];
        rows.extend(below[j].iter().copied());
        supernodes.push(Supernode {
            first_col: j,
            ncol: 1,
            nrow: rows.len(),
            row_indices: rows,
            children: children[j].clone(),
            delayed_capacity: usize::MAX,
        });
    }
    if tail > 0 {
        supernodes.push(Supernode {
            first_col: first_tail,
            ncol: tail,
            nrow: tail,
            row_indices: (first_tail..n).collect(),
            children: children[first_tail].clone(),
            delayed_capacity: usize::MAX,
        });
    }
    let count = supernodes.len();
    SymbolicFactorization {
        n,
        perm: perm.to_vec(),
        perm_inv,
        supernodes,
        permuted_pattern: CscPattern { n, col_ptr, row_idx },
        small_leaf_groups: Vec::new(),
        snode_group: vec![None; count],
        is_schur_tail: if tail > 0 { Some(tail) } else { None },
    }
}

fn analyze(m: &GeneralCsc<F>) -> SymbolicFactorization {
    let perm: Vec<usize> = (0..m.n).collect();
    analyze_in(m, &perm, 0)
}

fn make_params() -> NumericParams<F> {
    NumericParams::with_bk(BunchKaufmanParams {
        pivot_threshold: F(0.0),
        on_zero_pivot: ZeroPivotAction::ForceAccept,
        zero_tol: F(0.0),
        zero_tol_2x2: F(0.0),
        null_pivot_tol: F(0.0),
        null_pivot_tol_2x2: F(0.0),
        static_pivot_floor: F(0.0),
        intrafront_parallel: false,
    })
}

fn ones(n: usize) -> Vec<F> {
    vec![F(1.0); n]
}

fn factor(m: &GeneralCsc<F>) -> (SparseFactors<F>, Inertia) {
    factorize_multifrontal(m, &ones(m.n), &analyze(m), &make_params(), &DiagonalKernel).unwrap()
}

fn tridiagonal(n: usize, diag: f64, off: f64) -> GeneralCsc<F> {
    let (mut r, mut c, mut v) = (Vec::new(), Vec::new(), Vec::new());
    for i in 0..n {
        r.push(i);
        c.push(i);
        v.push(diag);
        if i + 1 < n {
            r.push(i + 1);
            c.push(i);
            v.push(off);
        }
    }
    lower(n, &r, &c, &v)
}

/// `leaves` columns that all meet in the last one.
fn arrow(leaves: usize) -> GeneralCsc<F> {
    let (mut r, mut c, mut v) = (Vec::new(), Vec::new(), Vec::new());
    for j in 0..leaves {
        r.push(j);
        c.push(j);
        v.push(2.0 + j as f64);
        r.push(leaves);
        c.push(j);
        v.push(0.5);
    }
    r.push(leaves);
    c.push(leaves);
    v.push(100.0);
    lower(leaves + 1, &r, &c, &v)
}

fn dense_of(m: &GeneralCsc<F>) -> Vec<Vec<f64>> {
    let mut a = vec![vec![0.0; m.n]; m.n];
    for j in 0..m.n {
        for k in m.col_ptr[j]..m.col_ptr[j + 1] {
            a[m.row_idx[k]][j] = m.values[k].0;
            a[j][m.row_idx[k]] = m.values[k].0;
        }
    }
    a
}

/// `L D L^T` of the exported factors against the scaled matrix.
fn check_reconstruction(m: &GeneralCsc<F>, f: &SparseFactors<F>) {
    let n = m.n;
    let x = f.ldlt_export();
    let mut l = vec![vec![0.0; n]; n];
    for e in 0..n {
        for k in x.l_indptr[e]..x.l_indptr[e + 1] {
            l[x.l_indices[k]][e] = x.l_values[k].0;
        }
        assert_eq!(l[e][e], 1.0);
        assert_eq!(x.perm_inv[x.perm[e]], e);
    }
    let mut d = vec![vec![0.0; n]; n];
    for e in 0..n {
        d[e][e] = x.d_diag[e].0;
        if e + 1 < n {
            d[e + 1][e] = x.d_subdiag[e].0;
            d[e][e + 1] = x.d_subdiag[e].0;
        }
    }
    let a = dense_of(m);
    for i in 0..n {
        for j in 0..n {
            let mut got = 0.0;
            for e in 0..n {
                for g in 0..n {
                    got += l[i][e] * d[e][g] * l[j][g];
                }
            }
            let (p, q) = (x.perm[i], x.perm[j]);
            let want = a[p][q] * f.scaling[p].0 * f.scaling[q].0;
            assert!((got - want).abs() < 1e-12);
        }
    }
}

#[test]
fn test_factorize_diagonal() {
    let m = lower(3, &[0, 1, 2], &[0, 1, 2], &[2.0, 3.0, 5.0]);
    let (factors, inertia) = factor(&m);
    assert_eq!(inertia.positive, 3);
    assert_eq!(inertia.negative, 0);
    assert_eq!(inertia.zero, 0);
    assert_eq!(factors.n, 3);
}

#[test]
fn test_factorize_tridiagonal() {
    let m = lower(3, &[0, 1, 1, 2, 2], &[0, 0, 1, 1, 2], &[2.0, -1.0, 2.0, -1.0, 2.0]);
    let (factors, inertia) = factor(&m);
    assert_eq!(inertia.positive, 3);
    assert_eq!(inertia.negative, 0);
    assert_eq!(inertia.zero, 0);
    assert_eq!(factors.n, 3);
}

#[test]
fn test_factorize_matches_dense() {
    let m = lower(3, &[0, 1, 1, 2, 2], &[0, 0, 1, 1, 2], &[2.0, -1.0, 3.0, -1.0, 4.0]);
    let params = make_params();
    let (_, dense_inertia) = dense_fast_factor(&m, &ones(3), &params, &DiagonalKernel).unwrap();
    let (_, sparse_inertia) = factorize_multifrontal_supernodal(
        &m,
        &ones(3),
        &analyze(&m),
        &params,
        &DiagonalKernel,
    )
    .unwrap();
    assert_eq!(sparse_inertia, dense_inertia);
}

#[test]
fn test_factorize_kkt() {
    let m = lower(3, &[0, 1, 2, 2, 2], &[0, 1, 0, 1, 2], &[2.0, 3.0, 1.0, 1.0, -1e-8]);
    let (_, inertia) = factor(&m);
    assert_eq!(inertia.positive, 2);
    assert_eq!(inertia.negative, 1);
    assert_eq!(inertia.zero, 0);
}

#[test]
fn test_factorize_indefinite() {
    let m = lower(2, &[0, 1, 1], &[0, 0, 1], &[1.0, 2.0, 1.0]);
    let (_, inertia) = factor(&m);
    assert_eq!(inertia.positive, 1);
    assert_eq!(inertia.negative, 1);
    assert_eq!(inertia.zero, 0);
}

#[test]
fn factorize_multifrontal_with_two_strategies_on_one_symbolic() {
    let m = lower(3, &[0, 2, 1, 2, 2], &[0, 0, 1, 1, 2], &[2.0, -1.0, 2.0, -1.0, 0.0]);
    let sym = analyze(&m);
    // Rows brought to unit largest entry, and no scaling at all.
    let infnorm = [F(0.5f64.sqrt()), F(0.5f64.sqrt()), F(2.0f64.sqrt())];
    let (_, i_inf) =
        factorize_multifrontal(&m, &infnorm, &sym, &make_params(), &DiagonalKernel).unwrap();
    let (_, i_id) =
        factorize_multifrontal(&m, &ones(3), &sym, &make_params(), &DiagonalKernel).unwrap();
    assert_eq!(i_inf.positive, 2);
    assert_eq!(i_inf.negative, 1);
    assert_eq!(i_id.positive, 2);
    assert_eq!(i_id.negative, 1);
}

#[test]
fn summary_counts_the_factors() {
    let m = tridiagonal(32, 2.0, -1.0);
    assert!(!should_use_dense_fast_path(m.n, m.nnz()));
    let (factors, inertia) = factor(&m);
    let s = factors.summary();
    assert_eq!(s.n, 32);
    assert_eq!(s.n_supernodes, 32);
    assert_eq!(s.nnz_l, factors.factor_nnz());
    assert_eq!(s.nnz_l, 63);
    assert_eq!(s.inertia, inertia);
    assert_eq!((s.n_2x2, s.n_delayed), (0, 0));
    assert_eq!(factors.n_tiny(), 0);
    assert_eq!((inertia.positive, inertia.negative, inertia.zero), (32, 0, 0));
}

#[test]
fn pivot_extremes() {
    let m = lower(3, &[0, 1, 2], &[0, 1, 2], &[2.0, -3.0, 5.0]);
    let (f, _) = factor(&m);
    assert_eq!(f.min_diagonal(), Some(F(-3.0)));
    assert_eq!(f.pivot_magnitude_extent(), Some((F(2.0), F(5.0))));
    assert_eq!(f.min_pivot_magnitude(), Some(F(2.0)));
    assert_eq!(f.max_pivot_magnitude(), Some(F(5.0)));
}

#[test]
fn exported_factors_give_back_the_matrix() {
    let m = lower(
        5,
        &[0, 1, 2, 3, 4, 2, 3, 4, 4],
        &[0, 1, 2, 3, 4, 0, 1, 2, 3],
        &[4.0, -3.0, 5.0, 6.0, 7.0, 1.0, -2.0, 0.5, 1.5],
    );
    let scaling = [F(1.0), F(0.5), F(2.0), F(1.0), F(0.25)];
    let params = make_params();
    let sym = analyze_in(&m, &[3, 0, 4, 1, 2], 0);
    let (f, _) =
        factorize_multifrontal_supernodal(&m, &scaling, &sym, &params, &DiagonalKernel).unwrap();
    check_reconstruction(&m, &f);
    let (d, _) = dense_fast_factor(&m, &scaling, &params, &DiagonalKernel).unwrap();
    check_reconstruction(&m, &d);
    let big = arrow(40);
    let (g, _) = factor(&big);
    check_reconstruction(&big, &g);
}

fn same_factors(f: &SparseFactors<F>, g: &SparseFactors<F>) {
    assert_eq!(f.node_factors.len(), g.node_factors.len());
    for (a, b) in f.node_factors.iter().zip(&g.node_factors) {
        assert_eq!(a.row_indices, b.row_indices);
        assert_eq!(a.frontal_factors.l, b.frontal_factors.l);
        assert_eq!(a.frontal_factors.d_diag, b.frontal_factors.d_diag);
        assert_eq!(a.frontal_factors.perm, b.frontal_factors.perm);
    }
}

#[test]
fn the_drivers_agree() {
    let m = arrow(40);
    let sym = analyze(&m);
    let params = NumericParams { min_parallel_flops: Some(0), ..make_params() };
    let s = ones(m.n);
    let (seq, i) = factorize_multifrontal(&m, &s, &sym, &params, &DiagonalKernel).unwrap();
    let (par, j) = factorize_multifrontal_parallel(&m, &s, &sym, &params, &DiagonalKernel).unwrap();
    let (tasks, k) =
        factorize_multifrontal_supernodal_parallel(&m, &s, &sym, &params, &DiagonalKernel).unwrap();
    assert_eq!(i, j);
    assert_eq!(i, k);
    same_factors(&seq, &par);
    same_factors(&seq, &tasks);
    let mut ws = FactorWorkspace::new();
    for _ in 0..2 {
        let (again, l) =
            factorize_multifrontal_with_workspace(&m, &s, &sym, &params, &DiagonalKernel, &mut ws)
                .unwrap();
        assert_eq!(i, l);
        same_factors(&seq, &again);
    }
}

#[test]
fn batched_leaves_give_the_same_factors() {
    let m = arrow(40);
    let s = ones(m.n);
    let mut sym = analyze(&m);
    let (plain, _) = factor(&m);
    sym.small_leaf_groups = vec![SmallLeafGroup {
        members: (0..40).collect(),
        member_rows: (0..40).map(|j| vec![j, 40]).collect(),
    }];
    for j in 0..40 {
        sym.snode_group[j] = Some(0);
    }
    let params = NumericParams { small_leaf: SmallLeafBatch::On, ..make_params() };
    let (batched, _) =
        factorize_multifrontal_supernodal(&m, &s, &sym, &params, &DiagonalKernel).unwrap();
    same_factors(&plain, &batched);
}

#[test]
fn a_vanishing_diagonal_pivot_is_reported() {
    let m = lower(2, &[1, 0], &[0, 0], &[1.0, 0.0]);
    let r = factorize_multifrontal(&m, &ones(2), &analyze(&m), &make_params(), &DiagonalKernel);
    assert!(matches!(r, Err(RslabError::SqdContractViolated)));
    let empty = lower(0, &[], &[], &[]);
    let r = dense_fast_factor(&empty, &[], &make_params(), &DiagonalKernel);
    assert!(matches!(r, Err(RslabError::InvalidInput(_))));
}

#[test]
fn the_diagonal_kernel_by_hand() {
    // [[4, 2], [2, 5]] with one column eliminated.
    let front = vec![F(4.0), F(2.0), F(0.0), F(5.0)];
    let bk = make_params().bk;
    let ff = DiagonalKernel.factor_front(front, 2, 1, false, &bk).unwrap();
    assert_eq!(ff.d_diag, vec![F(4.0)]);
    assert_eq!(ff.l[1], F(0.5));
    assert_eq!(ff.trailing, vec![F(4.0)]);
    assert_eq!(ff.inertia, Inertia::new(1, 0, 0));
}

fn small_kkt_6x6_for_schur() -> GeneralCsc<F> {
    lower(
        6,
        &[0, 1, 2, 3, 4, 4, 5, 5, 4, 5, 5],
        &[0, 1, 2, 3, 0, 2, 1, 3, 4, 4, 5],
        &[1.0, 2.0, 3.0, 4.0, 0.5, 0.7, 0.3, 0.9, 1.5, 0.2, 2.5],
    )
}

fn hand_computed_schur_2x2() -> [[f64; 2]; 2] {
    let s00 = 1.5 - (0.25 + 0.49 / 3.0);
    let s11 = 2.5 - (0.045 + 0.2025);
    let s01 = 0.2;
    [[s00, s01], [s01, s11]]
}

fn schur_on(m: &GeneralCsc<F>, tail: &[usize]) -> SchurBlock<F> {
    let mut perm: Vec<usize> = (0..m.n).filter(|i| !tail.contains(i)).collect();
    perm.extend(tail.iter().copied());
    let sym = analyze_in(m, &perm, tail.len());
    factorize_multifrontal_with_schur(m, &ones(m.n), &sym, &make_params(), &DiagonalKernel)
        .unwrap()
        .2
}

#[test]
fn schur_block_matches_hand_computed_for_small_kkt() {
    let schur = schur_on(&small_kkt_6x6_for_schur(), &[4, 5]);
    assert_eq!(schur.dim, 2);
    let expected = hand_computed_schur_2x2();
    for i in 0..2 {
        for j in 0..2 {
            assert!((schur.get(i, j).0 - expected[i][j]).abs() < 1e-12);
        }
    }
}

#[test]
fn schur_block_full_square_storage() {
    let schur = schur_on(&small_kkt_6x6_for_schur(), &[4, 5]);
    for i in 0..schur.dim {
        for j in 0..schur.dim {
            assert!((schur.get(i, j).0 - schur.get(j, i).0).abs() < 1e-15);
        }
    }
}

#[test]
fn schur_user_order_preserved_when_reversed() {
    let schur = schur_on(&small_kkt_6x6_for_schur(), &[5, 4]);
    let hand = hand_computed_schur_2x2();
    let map = [1usize, 0usize];
    for i in 0..2 {
        for j in 0..2 {
            assert!((schur.get(i, j).0 - hand[map[i]][map[j]]).abs() < 1e-12);
        }
    }
}

#[test]
fn schur_rejects_symbolic_without_schur_tail() {
    let m = small_kkt_6x6_for_schur();
    let sym = analyze(&m);
    assert_eq!(sym.is_schur_tail, None);
    let r =
        factorize_multifrontal_with_schur(&m, &ones(6), &sym, &make_params(), &DiagonalKernel);
    assert!(matches!(r, Err(RslabError::InvalidInput(_))));
    for tail in [0, 2] {
        let bad = SymbolicFactorization { is_schur_tail: Some(tail), ..analyze(&m) };
        let r =
            factorize_multifrontal_with_schur(&m, &ones(6), &bad, &make_params(), &DiagonalKernel);
        assert!(matches!(r, Err(RslabError::InvalidInput(_))));
    }
}

#[test]
fn schur_multi_supernode_tail_matches_oracle() {
    let half = 25usize;
    let k_each = 40usize;
    let n = 2 * half + 2 * k_each;
    let (mut rows, mut cols, mut vals) = (Vec::new(), Vec::new(), Vec::new());
    for i in 0..n {
        rows.push(i);
        cols.push(i);
        vals.push(2.0 + i as f64);
    }
    for i in 0..half {
        for s in 0..k_each {
            rows.push(2 * half + s);
            cols.push(i);
            vals.push(0.1);
        }
    }
    for i in half..2 * half {
        for s in 0..k_each {
            rows.push(2 * half + k_each + s);
            cols.push(i);
            vals.push(0.1);
        }
    }
    for s in 0..k_each {
        for t in 0..s {
            rows.push(2 * half + s);
            cols.push(2 * half + t);
            vals.push(0.05);
            rows.push(2 * half + k_each + s);
            cols.push(2 * half + k_each + t);
            vals.push(0.05);
        }
    }
    for s in (2 * half + 1)..n {
        rows.push(s);
        cols.push(s - 1);
        vals.push(0.03);
    }
    let m = lower(n, &rows, &cols, &vals);
    let schur: Vec<usize> = (2 * half..n).collect();
    let block = schur_on(&m, &schur);
    assert_eq!(block.dim, schur.len());
    // The leading part is diagonal, so its inverse is known.
    let a = dense_of(&m);
    let mut max_rel = 0.0f64;
    for (sj, &j) in schur.iter().enumerate() {
        for (si, &i) in schur.iter().enumerate() {
            let mut want = a[i][j];
            for f in 0..2 * half {
                want -= a[i][f] / a[f][f] * a[f][j];
            }
            let got = block.get(si, sj).0;
            max_rel = max_rel.max((got - want).abs() / want.abs().max(1e-14));
        }
    }
    assert!(max_rel < 1e-10);
}

#[test]
fn prologue_parts_are_reported_as_recorded() {
    let mut p = Profiler::new();
    assert!(p.is_empty());
    p.timings = vec![
        SupernodeTiming {
            snode_idx: 0,
            nrow: 8,
            ncol: 2,
            us: 30,
            assembly_us: 10,
            densefactor_us: 15,
            panelfactor_us: 5,
            schur_us: 5,
            scalartail_us: 5,
        },
        SupernodeTiming {
            snode_idx: 1,
            nrow: 200,
            ncol: 50,
            us: 90,
            assembly_us: 20,
            densefactor_us: 60,
            panelfactor_us: 20,
            schur_us: 20,
            scalartail_us: 20,
        },
    ];
    p.prologue_us = 50;
    p.epilogue_us = 30;
    p.total_us = 200;
    p.prologue_breakdown.permute_us = 20;
    assert_eq!((p.len(), p.timings().len()), (2, 2));
    let r: ProfileReport<F> = p.report();
    assert_eq!((r.n_supernodes, r.loop_us, r.total_us), (2, 120, 200));
    assert_eq!(r.prologue_breakdown.permute_us, 20);
    assert_eq!(r.overhead_pct, F(40.0));
    assert!(!r.exceeds_total);
    assert_eq!(r.buckets[0].count, 1);
    assert_eq!(r.buckets[5].avg_us, F(90.0));
    assert_eq!(r.buckets[5].pct_of_total, F(75.0));
    assert_eq!((bucket_of(8), bucket_of(9), bucket_of(129)), (0, 1, 5));
}

#[test]
fn counters_are_read_once() {
    let c = AtomicLockStats::default();
    c.n_tasks.store(3, Ordering::Relaxed);
    c.phase_scope_ns.store(9, Ordering::Relaxed);
    let s = c.snapshot();
    assert_eq!((s.n_tasks, s.phase_scope_ns, s.factor_body_ns), (3, 9, 0));
}

#[test]
fn pivot_floors_follow_the_norm() {
    let floor = null_pivot_floor(F(8.0), 4);
    assert_eq!(floor, F(2.0 * f64::EPSILON * 8.0));
    let m = lower(2, &[0, 1, 1], &[0, 0, 1], &[1.0, -2.0, 5.0]);
    assert_eq!(scaled_matrix_infnorm(&m, &ones(2)), F(7.0));
    let p = make_params();
    let q = apply_post_scaling_overrides(&p, F(8.0), 4).unwrap();
    assert_eq!(q.bk.null_pivot_tol, floor);
}

#[test]
fn leaves_are_ready_first() {
    let m = arrow(3);
    let sym = analyze(&m);
    let g = TaskGraph::new(&sym.supernodes);
    assert_eq!(g.ready, vec![0, 1, 2]);
    assert_eq!(g.pending, vec![0, 0, 0, 3]);
    assert_eq!(g.parents, vec![Some(3), Some(3), Some(3), None]);
    assert!(g.done.iter().all(|d| !d));
}

#[test]
fn schur_block_solve_small_explicit() {
    let dim = 3;
    let s = [4.0, -1.0, 0.0, -1.0, 3.0, -1.0, 0.0, -1.0, 2.0];
    let block = SchurBlock { dim, data: s.iter().map(|v| F(*v)).collect() };
    let rhs = [F(2.0), F(2.0), F(4.0)];
    let x = block.solve_with(&rhs, &DiagonalKernel, &make_params().bk).unwrap();
    let want = [1.0, 2.0, 3.0];
    for i in 0..dim {
        assert!((x[i].0 - want[i]).abs() < 1e-12);
    }
    let mut rhs_check = vec![F(0.0); dim];
    block.symv(&x, &mut rhs_check).unwrap();
    for i in 0..dim {
        assert!((rhs_check[i].0 - rhs[i].0).abs() < 1e-12);
    }
}

#[test]
fn schur_block_solve_roundtrip_after_factorize() {
    let m = lower(
        4,
        &[0, 1, 2, 3, 3, 3],
        &[0, 1, 2, 0, 1, 2],
        &[2.0, 3.0, 4.0, 1.0, 1.0, 1.0],
    );
    let block = schur_on(&m, &[3]);
    let want_s = -(1.0 / 2.0 + 1.0 / 3.0 + 1.0 / 4.0);
    assert!((block.get(0, 0).0 - want_s).abs() < 1e-12);
    let x_target = vec![F(1.5)];
    let mut rhs_s = vec![F(0.0); 1];
    block.symv(&x_target, &mut rhs_s).unwrap();
    let x_solved = block.solve_with(&rhs_s, &DiagonalKernel, &make_params().bk).unwrap();
    assert!((x_solved[0].0 - x_target[0].0).abs() < 1e-12);
}

#[test]
fn schur_block_solve_dim_mismatch() {
    let block = SchurBlock { dim: 2, data: vec![F(1.0), F(0.0), F(0.0), F(1.0)] };
    let rhs = vec![F(1.0), F(2.0), F(3.0)];
    let r = block.solve_with(&rhs, &DiagonalKernel, &make_params().bk);
    assert!(matches!(r, Err(RslabError::DimensionMismatch { expected: 2, got: 3 })));
    let mut short = vec![F(0.0); 1];
    assert!(matches!(
        block.symv(&rhs, &mut short),
        Err(RslabError::DimensionMismatch { expected: 2, got: 3 })
    ));
}

#[test]
fn two_by_two_pivots_are_solved_together() {
    // P S P^T = L D L^T with a 2 by 2 pivot: rows 2, 0, 1 in pivot order.
    let ff = FrontalFactors {
        nrow: 3,
        ncol: 3,
        nelim: 3,
        l: vec![
            F(1.0), F(0.0), F(2.0), F(0.0), F(1.0), F(-1.0), F(0.0), F(0.0), F(1.0),
        ],
        d_diag: vec![F(0.0), F(1.0), F(4.0)],
        d_subdiag: vec![F(3.0), F(0.0), F(0.0)],
        perm: vec![2, 0, 1],
        perm_inv: vec![1, 2, 0],
        trailing: Vec::new(),
        contrib_dim: 0,
        n_delayed: 0,
        inertia: Inertia::new(2, 1, 0),
        needs_refinement: false,
        n_rook_rescues: 0,
        n_tiny: 0,
        zero_tol: F(0.0),
        zero_tol_2x2: F(0.0),
    };
    let l = [[1.0, 0.0, 0.0], [0.0, 1.0, 0.0], [2.0, -1.0, 1.0]];
    let d = [[0.0, 3.0, 0.0], [3.0, 1.0, 0.0], [0.0, 0.0, 4.0]];
    let b = [F(7.0), F(-2.0), F(5.0)];
    let x = ff.solve(&b);
    for i in 0..3 {
        let mut got = 0.0;
        for j in 0..3 {
            let mut m = 0.0;
            for e in 0..3 {
                for f in 0..3 {
                    m += l[i][e] * d[e][f] * l[j][f];
                }
            }
            got += m * x[ff.perm[j]].0;
        }
        assert!((got - b[ff.perm[i]].0).abs() < 1e-12);
    }
}

#[test]
fn tasks_may_finish_in_any_order() {
    let m = arrow(40);
    let sym = analyze(&m);
    let params = make_params();
    let (plain, _) = factor(&m);
    let mut cache = None;
    let (a, sp) =
        prepare(&m, &ones(m.n), &sym, None::<&NoClock>, false, &mut cache);
    let p = settle(&params, &a, &sp);
    let job = FrontJob { sym: &sym, a: &a, scaling: &sp, params: &p };
    let mut run = TaskRun::start(&job);
    let mut spaces: Vec<TaskSpace<F>> = (0..3).map(|_| TaskSpace::new(m.n, 41)).collect();
    // Three tasks run at a time and come back in the reverse order.
    loop {
        let mut batch = Vec::new();
        while batch.len() < 3 {
            match run.next(&job) {
                Some(t) => batch.push(t),
                None => break,
            }
        }
        if batch.is_empty() {
            break;
        }
        let mut back: Vec<Finished<F>> = batch
            .into_iter()
            .zip(spaces.iter_mut())
            .map(|(t, space)| run_task(&job, &DiagonalKernel, t, space).unwrap())
            .collect();
        while let Some(f) = back.pop() {
            run.finish(&job, f);
        }
    }
    let (tasks, inertia) = collect_tasks(run, &job, &ones(m.n), &DiagonalKernel);
    same_factors(&plain, &tasks);
    assert_eq!(inertia.positive, 41);
}

#[test]
fn reads_fill_the_lock_statistics_in_order() {
    let s = ParallelLockStats::of_reads([1, 2, 3, 4, 5, 6, 7, 8, 9, 10, 11, 12, 13, 14, 15, 16]);
    assert_eq!(s.contrib_wait_ns, 1);
    assert_eq!(s.factor_body_ns, 5);
    assert_eq!(s.n_tasks, 8);
    assert_eq!(s.phase_collect_ns, 16);
}

#[test]
fn the_drivers_fail_alike() {
    // The elimination of the leaves leaves nothing of the last pivot.
    let (mut r, mut c, mut v) = (Vec::new(), Vec::new(), Vec::new());
    for j in 0..40 {
        r.extend([j, 40]);
        c.extend([j, j]);
        v.extend([1.0, 1.0]);
    }
    r.push(40);
    c.push(40);
    v.push(40.0);
    let m = lower(41, &r, &c, &v);
    let (sym, s, params) = (analyze(&m), ones(41), make_params());
    let seq = factorize_multifrontal_supernodal(&m, &s, &sym, &params, &DiagonalKernel);
    let par = factorize_multifrontal_supernodal_parallel(&m, &s, &sym, &params, &DiagonalKernel);
    assert!(matches!(seq, Err(RslabError::SqdContractViolated)));
    assert!(matches!(par, Err(RslabError::SqdContractViolated)));
    // After a failure the workspace serves another matrix as a fresh one does.
    let mut ws = FactorWorkspace::new();
    let good = arrow(40);
    for bad in [true, false, true, false] {
        let a = if bad { &m } else { &good };
        let got =
            factorize_multifrontal_with_workspace(a, &s, &analyze(a), &params, &DiagonalKernel, &mut ws);
        assert_eq!(got.is_err(), bad);
        if let Ok((f, _)) = got {
            same_factors(&f, &factor(&good).0);
        }
    }
}

#[test]
fn an_empty_matrix_is_factored_by_the_sweep() {
    let empty = lower(0, &[], &[], &[]);
    assert!(should_use_dense_fast_path(0, 0));
    let (f, i) = factor(&empty);
    assert_eq!(f.node_factors.len(), 0);
    assert_eq!(i, Inertia::new(0, 0, 0));
}

#[test]
fn the_dense_path_leaves_the_workspace_alone() {
    let m = tridiagonal(5, 4.0, -1.0);
    let (s, params) = (ones(5), make_params());
    let (plain, i) = dense_fast_factor(&m, &s, &params, &DiagonalKernel).unwrap();
    let mut ws = FactorWorkspace::new();
    for _ in 0..2 {
        let (again, j) =
            dense_fast_factor_with_workspace(&m, &s, &params, &DiagonalKernel, &mut ws).unwrap();
        assert_eq!(i, j);
        same_factors(&plain, &again);
    }
    assert!(ws.row_map.is_empty() && ws.permute_cache.is_none());
}

/// Supernodes of 2, 1 and 1 columns in a chain, the middle one with a budget;
/// both columns of the first arrive delayed.
fn delayed_chain(capacity: usize, ratio: Option<F>) -> Result<usize, RslabError> {
    let m = lower(4, &[0, 1, 2, 3, 2, 3], &[0, 1, 2, 3, 0, 2], &[4.0, 4.0, 4.0, 4.0, 1.0, 1.0]);
    let mut sym = analyze(&m);
    let node = |first: usize, ncol: usize, rows: Vec<usize>, kids: Vec<usize>| Supernode {
        first_col: first,
        ncol,
        nrow: rows.len(),
        row_indices: rows,
        children: kids,
        delayed_capacity: usize::MAX,
    };
    sym.supernodes = vec![
        node(0, 2, vec![0, 1, 2], vec![]),
        node(2, 1, vec![2, 3], vec![0]),
        node(3, 1, vec![3], vec![1]),
    ];
    sym.supernodes[1].delayed_capacity = capacity;
    sym.snode_group = vec![None; 3];
    assert!(sym.validate().is_ok());
    let params = NumericParams { cascade_break_ratio: ratio, ..make_params() };
    let scaling = ones(4);
    let job = FrontJob { sym: &sym, a: &m, scaling: &scaling, params: &params };
    let block = ContribBlock {
        row_indices: vec![0, 1, 2],
        data: vec![4.0, 0.0, 1.0, 0.0, 4.0, 0.0, 0.0, 0.0, 0.0].into_iter().map(F).collect(),
        dim: 3,
        n_delayed: 2,
    };
    let mut store = vec![Some(block), None, None];
    let mut map = vec![usize::MAX; 4];
    factor_one_supernode(&job, &DiagonalKernel, 1, false, &mut map, &mut store, 0)
        .map(|node| node.nelim)
}

#[test]
fn the_budget_of_delayed_columns_is_kept() {
    assert_eq!(
        delayed_chain(1, None),
        Err(RslabError::DelayBudgetExceeded { supernode: 1, required: 2, capacity: 1 })
    );
    assert_eq!(delayed_chain(2, None), Ok(3));
    assert_eq!(delayed_chain(usize::MAX, None), Ok(3));
    assert_eq!(delayed_chain(1, Some(F(0.5))), Ok(3));
}

#[test]
fn children_hand_their_blocks_over() {
    let m = arrow(3);
    let sym = analyze(&m);
    let (s, params) = (ones(4), make_params());
    let job = FrontJob { sym: &sym, a: &m, scaling: &s, params: &params };
    let mut map = vec![usize::MAX; 4];
    let mut store: Vec<Option<ContribBlock<F>>> = vec![None, None, None, None];
    for j in 0..3 {
        factor_one_supernode(&job, &DiagonalKernel, j, false, &mut map, &mut store, 0).unwrap();
        assert!(store[j].is_some());
    }
    let kids = &sym.supernodes[3].children;
    assert_eq!(kids.len(), 3);
    factor_one_supernode(&job, &DiagonalKernel, 3, true, &mut map, &mut store, 0).unwrap();
    assert!(store.iter().all(|b| b.is_none()));
    assert_eq!(map, vec![usize::MAX; 4]);
}

#[test]
fn a_supernode_without_rows_keeps_the_tolerances() {
    let m = lower(1, &[0], &[0], &[2.0]);
    let mut sym = analyze(&m);
    sym.supernodes = vec![
        Supernode {
            first_col: 0,
            ncol: 0,
            nrow: 0,
            row_indices: vec![],
            children: vec![],
            delayed_capacity: usize::MAX,
        },
        sym.supernodes[0].clone(),
    ];
    let s = ones(1);
    let mut params = make_params();
    params.bk.zero_tol = F(0.25);
    params.bk.zero_tol_2x2 = F(0.125);
    let job = FrontJob { sym: &sym, a: &m, scaling: &s, params: &params };
    let mut map = vec![usize::MAX];
    let mut store: Vec<Option<ContribBlock<F>>> = vec![None, None];
    let node = factor_one_supernode(&job, &DiagonalKernel, 0, true, &mut map, &mut store, 0).unwrap();
    let ff = &node.frontal_factors;
    assert_eq!((node.nelim, node.nrow, ff.n_rook_rescues, ff.n_tiny), (0, 0, 0, 0));
    assert!(ff.perm_inv.is_empty() && store[0].is_none());
    assert!(ff.zero_tol == F(0.25) && ff.zero_tol_2x2 == F(0.125));
}

#[test]
fn the_structure_is_kept_where_the_pattern_comes_again() {
    let m = arrow(40);
    let (s, sym) = (ones(41), analyze(&m));
    let mut ws = FactorWorkspace::new();
    for again in [true, true, false, true] {
        let params = NumericParams { pattern_reused_hint: again, ..make_params() };
        let (f, _) = factorize_multifrontal_supernodal_with_workspace(
            &m,
            &s,
            &sym,
            &params,
            &DiagonalKernel,
            &mut ws,
        )
        .unwrap();
        same_factors(&f, &factor(&m).0);
        assert_eq!(ws.permute_cache.is_some(), again);
        assert_eq!(ws.row_map, vec![usize::MAX; 41]);
        if let Some(c) = &ws.permute_cache {
            assert_eq!((c.input_n, &c.input_row_idx), (41, &m.row_idx));
            assert_eq!(c.input_perm_inv, sym.perm_inv);
        }
    }
}

/// A clock that moves on by three at every look.
struct Ticks(Cell<u64>);

impl Clock for Ticks {
    fn now_us(&self) -> u64 {
        self.0.set(self.0.get() + 3);
        self.0.get()
    }
}

#[test]
fn every_supernode_is_timed() {
    let m = arrow(40);
    let (s, sym) = (ones(41), analyze(&m));
    let mut profile = Profiler::new();
    let mut ws = FactorWorkspace::new();
    let clock = Ticks(Cell::new(0));
    let (f, i) = factorize_multifrontal_supernodal_profiled(
        &m,
        &s,
        &sym,
        &make_params(),
        &DiagonalKernel,
        &mut ws,
        Some(&clock),
        &mut profile,
    )
    .unwrap();
    assert_eq!(i, factor(&m).1);
    same_factors(&f, &factor(&m).0);
    assert_eq!(profile.len(), 41);
    for (k, t) in profile.timings().iter().enumerate() {
        let snode = &sym.supernodes[k];
        assert_eq!((t.snode_idx, t.nrow, t.ncol, t.us), (k, snode.nrow, snode.ncol, 3));
    }
    let parts = profile.prologue_breakdown;
    assert_eq!((parts.row_map_us, parts.permute_from_triplets_us, parts.permute_us), (3, 3, 9));
    assert_eq!((parts.scaling_us, parts.symmetric_pattern_us), (0, 0));
    assert!(profile.prologue_us > parts.permute_us && profile.epilogue_us == 3);
    assert!(profile.total_us > profile.prologue_us + 41 * 3);
    let report: ProfileReport<F> = profile.report();
    assert_eq!((report.n_supernodes, report.loop_us), (41, 41 * 3));
    // Without a clock nothing is added.
    let before = profile.total_us;
    factorize_multifrontal_supernodal_profiled(
        &m,
        &s,
        &sym,
        &make_params(),
        &DiagonalKernel,
        &mut ws,
        None::<&NoClock>,
        &mut profile,
    )
    .unwrap();
    assert_eq!((profile.len(), profile.total_us), (41, before));
}
