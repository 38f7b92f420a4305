use rslab::error::RslabError;
use rslab::multifrontal::factorize::NoClock;
use rslab::multifrontal::permute::{
    permute_csc_values, permute_csc_values_with_cache, Clock, PermuteCache,
};
use rslab::multifrontal::tree::{
    estimate_assembly_flops, should_parallelize_assembly,
    should_parallelize_assembly_with_threshold, should_use_dense_fast_path, CscPattern, N_PAR_MIN,
    PAR_MIN_FLOPS, Supernode, SymbolicFactorization,
};
use rslab::scalar::{Real, Scalar};
use rslab::sparse::GeneralCsc;

#[derive(Clone, Copy, Debug, PartialEq)]
struct F(f64);

impl Real for F {
    fn zero_spec() -> F {
        F(0.0)
    }
    fn one_spec() -> F {
        F(1.0)
    }
    fn from_count_spec(n: u64) -> F {
        F(n as f64)
    }
    fn plus_spec(self, other: F) -> F {
        F(self.0 + other.0)
    }
    fn times_spec(self, other: F) -> F {
        F(self.0 * other.0)
    }
    fn over_spec(self, other: F) -> F {
        F(self.0 / other.0)
    }
    fn sqrt_spec(self) -> F {
        F(self.0.sqrt())
    }
    fn minus_spec(self, other: F) -> F {
        F(self.0 - other.0)
    }
    fn maximum_spec(self, other: F) -> F {
        F(self.0.max(other.0))
    }
    fn epsilon_spec() -> F {
        F(f64::EPSILON)
    }
    fn gt_spec(self, other: F) -> bool {
        self.0 > other.0
    }
    fn ge_spec(self, other: F) -> bool {
        self.0 >= other.0
    }
    fn is_zero_spec(self) -> bool {
        self.0 == 0.0
    }
    fn is_finite_spec(self) -> bool {
        self.0.is_finite()
    }
    fn gt_irreflexive(_a: F) {}
    fn gt_transitive(_a: F, _b: F, _c: F) {}
    fn positive_is_nonzero(_a: F) {}
    fn zero() -> F {
        F(0.0)
    }
    fn one() -> F {
        F(1.0)
    }
    fn from_count(n: u64) -> F {
        F(n as f64)
    }
    fn plus(self, other: F) -> F {
        F(self.0 + other.0)
    }
    fn times(self, other: F) -> F {
        F(self.0 * other.0)
    }
    fn over(self, other: F) -> F {
        F(self.0 / other.0)
    }
    fn sqrt(self) -> F {
        F(self.0.sqrt())
    }
    fn minus(self, other: F) -> F {
        F(self.0 - other.0)
    }
    fn maximum(self, other: F) -> F {
        F(self.0.max(other.0))
    }
    fn epsilon() -> F {
        F(f64::EPSILON)
    }
    fn gt(self, other: F) -> bool {
        self.0 > other.0
    }
    fn ge(self, other: F) -> bool {
        self.0 >= other.0
    }
    fn is_zero(self) -> bool {
        self.0 == 0.0
    }
    fn is_finite(self) -> bool {
        self.0.is_finite()
    }
}

impl Scalar for F {
    type Real = F;
    fn zero_spec() -> F {
        F(0.0)
    }
    fn one_spec() -> F {
        F(1.0)
    }
    fn from_real_spec(x: F) -> F {
        x
    }
    fn plus_spec(self, other: F) -> F {
        F(self.0 + other.0)
    }
    fn minus_spec(self, other: F) -> F {
        F(self.0 - other.0)
    }
    fn times_spec(self, other: F) -> F {
        F(self.0 * other.0)
    }
    fn over_spec(self, other: F) -> F {
        F(self.0 / other.0)
    }
    fn fmadd_spec(self, b: F, c: F) -> F {
        F(self.0.mul_add(b.0, c.0))
    }
    fn conj_spec(self) -> F {
        self
    }
    fn recip_spec(self) -> F {
        F(self.0.recip())
    }
    fn negate_spec(self) -> F {
        F(-self.0)
    }
    fn real_part_spec(self) -> F {
        self
    }
    fn magnitude_spec(self) -> F {
        F(self.0.abs())
    }
    fn magnitude_sq_spec(self) -> F {
        F(self.0 * self.0)
    }
    fn is_zero_spec(self) -> bool {
        self.0 == 0.0
    }
    fn is_finite_spec(self) -> bool {
        self.0.is_finite()
    }
    fn zero() -> F {
        F(0.0)
    }
    fn one() -> F {
        F(1.0)
    }
    fn from_real(x: F) -> F {
        x
    }
    fn plus(self, other: F) -> F {
        F(self.0 + other.0)
    }
    fn minus(self, other: F) -> F {
        F(self.0 - other.0)
    }
    fn times(self, other: F) -> F {
        F(self.0 * other.0)
    }
    fn over(self, other: F) -> F {
        F(self.0 / other.0)
    }
    fn fmadd(self, b: F, c: F) -> F {
        F(self.0.mul_add(b.0, c.0))
    }
    fn conj(self) -> F {
        self
    }
    fn recip(self) -> F {
        F(self.0.recip())
    }
    fn negate(self) -> F {
        F(-self.0)
    }
    fn real_part(self) -> F {
        self
    }
    fn magnitude(self) -> F {
        F(self.0.abs())
    }
    fn magnitude_sq(self) -> F {
        F(self.0 * self.0)
    }
    fn is_zero(self) -> bool {
        self.0 == 0.0
    }
    fn is_finite(self) -> bool {
        self.0.is_finite()
    }
}

struct Ticks;

impl Clock for Ticks {
    fn now_us(&self) -> u64 {
        7
    }
}

fn lower(n: usize, rows: &[usize], cols: &[usize], vals: &[f64]) -> GeneralCsc<F> {
    let v: Vec<F> = vals.iter().map(|x| F(*x)).collect();
    GeneralCsc::from_triplets(n, &rows.to_vec(), &cols.to_vec(), &v).unwrap()
}

fn make_supernodes(specs: &[(usize, usize, usize)]) -> Vec<Supernode> {
    specs
        .iter()
        .map(|&(ncol, nrow, n_children)| Supernode {
            first_col: 0,
            ncol,
            nrow,
            row_indices: Vec::new(),
            children: vec![0; n_children],
            delayed_capacity: usize::MAX,
        })
        .collect()
}

fn stub_symbolic(n: usize, snodes: Vec<Supernode>) -> SymbolicFactorization {
    SymbolicFactorization {
        n,
        perm: Vec::new(),
        perm_inv: Vec::new(),
        supernodes: snodes,
        permuted_pattern: CscPattern { n: 0, col_ptr: vec![0], row_idx: Vec::new() },
        small_leaf_groups: Vec::new(),
        snode_group: Vec::new(),
        is_schur_tail: None,
    }
}

#[test]
fn estimate_assembly_flops_empty_tree_is_zero() {
    assert_eq!(estimate_assembly_flops(&[]), 0);
}

#[test]
fn estimate_assembly_flops_sums_ncol_times_nrow_squared() {
    let snodes = make_supernodes(&[(2, 4, 0), (3, 5, 0)]);
    assert_eq!(estimate_assembly_flops(&snodes), 107);
}

#[test]
fn estimate_assembly_flops_saturates_on_pathological_input() {
    let snodes = make_supernodes(&[(1, 1usize << 32, 0); 4]);
    assert_eq!(estimate_assembly_flops(&snodes), u64::MAX);
}

#[test]
fn should_parallelize_assembly_rejects_tridiagonal_chain() {
    // The assembly tree of a tridiagonal matrix of order 64 in its natural
    // order: one column each, every supernode the only child of the next.
    let n = 64usize;
    let snodes: Vec<Supernode> = (0..n)
        .map(|j| Supernode {
            first_col: j,
            ncol: 1,
            nrow: if j + 1 < n { 2 } else { 1 },
            row_indices: if j + 1 < n { vec![j, j + 1] } else { vec![j] },
            children: if j > 0 { vec![j - 1] } else { Vec::new() },
            delayed_capacity: usize::MAX,
        })
        .collect();
    let sym = stub_symbolic(n, snodes);
    assert!(!should_parallelize_assembly(&sym));
}

#[test]
fn should_parallelize_assembly_rejects_low_flop_multi_child_tree() {
    let mut specs = vec![(2usize, 4usize, 2usize); 64];
    for (i, s) in specs.iter_mut().enumerate() {
        if i % 2 == 1 {
            s.2 = 0;
        }
    }
    let snodes = make_supernodes(&specs);
    assert!(snodes.len() >= N_PAR_MIN);
    assert!(snodes.iter().any(|s| s.children.len() >= 2));
    assert!(estimate_assembly_flops(&snodes) < PAR_MIN_FLOPS);
    let sym = stub_symbolic(128, snodes);
    assert!(!should_parallelize_assembly(&sym));
}

#[test]
fn should_parallelize_assembly_accepts_high_flop_multi_child_tree() {
    let mut specs = vec![(64usize, 256usize, 2usize); 64];
    for (i, s) in specs.iter_mut().enumerate() {
        if i % 2 == 1 {
            s.2 = 0;
        }
    }
    let snodes = make_supernodes(&specs);
    assert!(estimate_assembly_flops(&snodes) >= PAR_MIN_FLOPS);
    let sym = stub_symbolic(64 * 256, snodes);
    assert!(should_parallelize_assembly(&sym));
}

#[test]
fn permute_csc_values_profile_flag_gates_timing_not_values() {
    let m = lower(3, &[0, 1, 2, 1], &[0, 1, 2, 0], &[4.0, 5.0, 6.0, 2.0]);
    let perm = [2usize, 1, 0];
    let perm_inv = [2usize, 1, 0];

    let (off, t_off) = permute_csc_values::<F, Ticks>(&m, &perm, &perm_inv, None).unwrap();
    let (on, t_on) = permute_csc_values(&m, &perm, &perm_inv, Some(&Ticks)).unwrap();

    assert_eq!(off.n, on.n);
    assert_eq!(off.col_ptr, on.col_ptr);
    assert_eq!(off.row_idx, on.row_idx);
    assert_eq!(off.values, on.values);
    assert_eq!(t_off, 0);
    let _ = t_on;
}

#[test]
fn permute_reverses_the_order() {
    let m = lower(3, &[0, 1, 2, 1], &[0, 1, 2, 0], &[4.0, 5.0, 6.0, 2.0]);
    let p = [2usize, 1, 0];
    let (r, _) = permute_csc_values::<F, NoClock>(&m, &p, &p, None).unwrap();
    assert_eq!(r.col_ptr, vec![0, 1, 3, 4]);
    assert_eq!(r.row_idx, vec![0, 1, 2, 2]);
    assert_eq!(r.values, vec![F(6.0), F(5.0), F(2.0), F(4.0)]);
}

#[test]
fn permute_cache_not_built_for_one_shot_caller() {
    let n = 4usize;
    let rows = vec![0usize, 1, 1, 2, 2, 3, 3];
    let cols = vec![0usize, 0, 1, 1, 2, 2, 3];
    let vals = vec![4.0f64, -1.0, 4.0, -1.0, 4.0, -1.0, 4.0];
    let m = lower(n, &rows, &cols, &vals);
    let perm: Vec<usize> = (0..n).collect();
    let perm_inv: Vec<usize> = (0..n).collect();

    let mut cache: Option<PermuteCache> = None;
    let (permuted, _us) = permute_csc_values_with_cache::<F, Ticks>(
        &m, &perm, &perm_inv, None, false, &mut cache,
    )
    .unwrap();
    assert_eq!(permuted.n, m.n);
    assert_eq!(permuted.col_ptr, m.col_ptr);
    assert_eq!(permuted.row_idx, m.row_idx);
    assert_eq!(permuted.values, m.values);
    assert!(cache.is_none());

    let mut warm_cache: Option<PermuteCache> = None;
    let (_permuted2, _us2) = permute_csc_values_with_cache(
        &m, &perm, &perm_inv, Some(&Ticks), true, &mut warm_cache,
    )
    .unwrap();
    assert!(warm_cache.is_some());
}

#[test]
fn permute_cache_rejects_stale_pattern_same_n_nnz() {
    let n = 4usize;
    let perm: Vec<usize> = (0..n).collect();
    let perm_inv: Vec<usize> = (0..n).collect();
    let a = lower(
        n,
        &[0, 1, 1, 2, 2, 3, 3],
        &[0, 0, 1, 1, 2, 2, 3],
        &[4.0, -1.0, 4.0, -1.0, 4.0, -1.0, 4.0],
    );
    let b = lower(
        n,
        &[0, 1, 2, 2, 3, 3, 3],
        &[0, 1, 0, 2, 1, 3, 0],
        &[4.0, 4.0, -1.0, 4.0, -1.0, 4.0, -2.0],
    );
    assert_eq!(a.nnz(), b.nnz());

    let mut cache: Option<PermuteCache> = None;
    permute_csc_values_with_cache::<F, Ticks>(&a, &perm, &perm_inv, None, true, &mut cache)
        .unwrap();
    assert!(cache.is_some());
    permute_csc_values_with_cache::<F, Ticks>(&b, &perm, &perm_inv, None, false, &mut cache)
        .unwrap();
    let (warm_b, _) =
        permute_csc_values_with_cache::<F, Ticks>(&b, &perm, &perm_inv, None, true, &mut cache)
            .unwrap();
    let (canon_b, _) = permute_csc_values::<F, Ticks>(&b, &perm, &perm_inv, None).unwrap();
    assert_eq!(warm_b.col_ptr, canon_b.col_ptr);
    assert_eq!(warm_b.row_idx, canon_b.row_idx);
    assert_eq!(warm_b.values, canon_b.values);
}

#[test]
fn permute_cache_rejects_stale_permutation() {
    let n = 4usize;
    let m = lower(
        n,
        &[0, 1, 2, 3, 1, 2, 3],
        &[0, 0, 0, 0, 1, 2, 3],
        &[10.0, 2.0, 3.0, 4.0, 20.0, 30.0, 40.0],
    );
    let perm1: Vec<usize> = (0..n).collect();
    let perm1_inv: Vec<usize> = (0..n).collect();
    let mut cache: Option<PermuteCache> = None;
    permute_csc_values_with_cache::<F, Ticks>(&m, &perm1, &perm1_inv, None, true, &mut cache)
        .unwrap();
    assert!(cache.is_some());

    let perm2: Vec<usize> = vec![3, 2, 1, 0];
    let mut perm2_inv = vec![0usize; n];
    for (i, &p) in perm2.iter().enumerate() {
        perm2_inv[p] = i;
    }
    let (warm, _) =
        permute_csc_values_with_cache::<F, Ticks>(&m, &perm2, &perm2_inv, None, true, &mut cache)
            .unwrap();
    let (canon, _) = permute_csc_values::<F, Ticks>(&m, &perm2, &perm2_inv, None).unwrap();
    assert_eq!(warm.col_ptr, canon.col_ptr);
    assert_eq!(warm.row_idx, canon.row_idx);
    assert_eq!(warm.values, canon.values);
}

#[test]
fn the_largest_threshold_always_rejects() {
    let huge = 1usize << 31;
    let mut snodes = make_supernodes(&vec![(huge, huge, 0); 32]);
    snodes[31].children = vec![0, 1];
    assert_eq!(estimate_assembly_flops(&snodes), u64::MAX);
    let sym = stub_symbolic(0, snodes);
    assert!(should_parallelize_assembly_with_threshold(&sym, u64::MAX - 1));
    assert!(!should_parallelize_assembly_with_threshold(&sym, u64::MAX));
}

#[test]
fn tiny_matrices_are_dense_enough() {
    assert!(should_use_dense_fast_path(0, 0));
    assert!(should_use_dense_fast_path(16, 0));
    assert!(!should_use_dense_fast_path(17, 38));
    assert!(should_use_dense_fast_path(17, 39));
    assert!(!should_use_dense_fast_path(129, 9000));
}

#[test]
fn permuting_moves_entries_and_back() {
    let m = lower(
        4,
        &[0, 2, 1, 3, 2, 3, 3],
        &[0, 0, 1, 1, 2, 2, 3],
        &[1.0, 2.0, 3.0, 4.0, 5.0, 6.0, 7.0],
    );
    let perm = [2usize, 0, 3, 1];
    let pinv = [1usize, 3, 0, 2];
    let (p, _) = permute_csc_values::<F, NoClock>(&m, &perm, &pinv, None).unwrap();
    let at = |a: &GeneralCsc<F>, i: usize, j: usize| {
        let (r, c) = (i.max(j), i.min(j));
        let rows = &a.row_idx[a.col_ptr[c]..a.col_ptr[c + 1]];
        rows.iter().position(|&x| x == r).map(|q| a.values[a.col_ptr[c] + q])
    };
    for i in 0..4 {
        for j in 0..=i {
            assert_eq!(at(&p, i, j), at(&m, perm[i], perm[j]));
        }
    }
    let (back, _) = permute_csc_values::<F, NoClock>(&p, &pinv, &perm, None).unwrap();
    assert_eq!((back.col_ptr, back.row_idx, back.values), (m.col_ptr, m.row_idx, m.values));
}

#[test]
fn an_analysis_is_checked() {
    let good = || SymbolicFactorization {
        n: 2,
        perm: vec![1, 0],
        perm_inv: vec![1, 0],
        supernodes: (0..2)
            .map(|s| Supernode {
                first_col: s,
                ncol: 1,
                nrow: 2 - s,
                row_indices: (s..2).collect(),
                children: (0..s).collect(),
                delayed_capacity: usize::MAX,
            })
            .collect(),
        permuted_pattern: CscPattern { n: 2, col_ptr: vec![0, 2, 4], row_idx: vec![0, 1, 0, 1] },
        small_leaf_groups: Vec::new(),
        snode_group: vec![None, None],
        is_schur_tail: None,
    };
    assert!(good().validate().is_ok());
    let mut bad = Vec::new();
    for _ in 0..8 {
        bad.push(good());
    }
    bad[0].perm = vec![1, 1];
    bad[1].perm_inv = vec![0, 1];
    bad[2].supernodes[1].first_col = 0;
    bad[3].supernodes[1].ncol = usize::MAX;
    bad[4].supernodes[0].children = vec![1];
    bad[5].supernodes[1].children = vec![0, 0];
    bad[6].permuted_pattern.row_idx[3] = 2;
    bad[7].permuted_pattern.col_ptr = vec![0, 5, 4];
    for b in bad {
        assert!(matches!(b.validate(), Err(RslabError::InvalidInput(_))));
    }
}
