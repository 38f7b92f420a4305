use rslab::blr::{block_extent, compress_aca, Block, BlrMatrix};
use rslab::blr_grid::{cut_tile, probe_column, probe_front, tally, tile_count, TileProbe};
use rslab::flat::norm2;
use rslab::scalar::{Real, Scalar};

#[derive(Clone, Copy, Debug, PartialEq)]
struct F(f64);

impl Real for F {
    fn zero_spec() -> F {
        F(0.0)
    }
    fn one_spec() -> F {
        F(1.0)
    }
    fn from_count_spec(n: u64) -> F {
        F(n as f64)
    }
    fn plus_spec(self, other: F) -> F {
        F(self.0 + other.0)
    }
    fn times_spec(self, other: F) -> F {
        F(self.0 * other.0)
    }
    fn over_spec(self, other: F) -> F {
        F(self.0 / other.0)
    }
    fn sqrt_spec(self) -> F {
        F(self.0.sqrt())
    }
    fn minus_spec(self, other: F) -> F {
        F(self.0 - other.0)
    }
    fn maximum_spec(self, other: F) -> F {
        F(self.0.max(other.0))
    }
    fn epsilon_spec() -> F {
        F(f64::EPSILON)
    }
    fn gt_spec(self, other: F) -> bool {
        self.0 > other.0
    }
    fn ge_spec(self, other: F) -> bool {
        self.0 >= other.0
    }
    fn is_zero_spec(self) -> bool {
        self.0 == 0.0
    }
    fn is_finite_spec(self) -> bool {
        self.0.is_finite()
    }
    fn gt_irreflexive(_a: F) {}
    fn gt_transitive(_a: F, _b: F, _c: F) {}
    fn positive_is_nonzero(_a: F) {}
    fn zero() -> F {
        F(0.0)
    }
    fn one() -> F {
        F(1.0)
    }
    fn from_count(n: u64) -> F {
        F(n as f64)
    }
    fn plus(self, other: F) -> F {
        F(self.0 + other.0)
    }
    fn times(self, other: F) -> F {
        F(self.0 * other.0)
    }
    fn over(self, other: F) -> F {
        F(self.0 / other.0)
    }
    fn sqrt(self) -> F {
        F(self.0.sqrt())
    }
    fn minus(self, other: F) -> F {
        F(self.0 - other.0)
    }
    fn maximum(self, other: F) -> F {
        F(self.0.max(other.0))
    }
    fn epsilon() -> F {
        F(f64::EPSILON)
    }
    fn gt(self, other: F) -> bool {
        self.0 > other.0
    }
    fn ge(self, other: F) -> bool {
        self.0 >= other.0
    }
    fn is_zero(self) -> bool {
        self.0 == 0.0
    }
    fn is_finite(self) -> bool {
        self.0.is_finite()
    }
}

impl Scalar for F {
    type Real = F;
    fn zero_spec() -> F {
        F(0.0)
    }
    fn one_spec() -> F {
        F(1.0)
    }
    fn from_real_spec(x: F) -> F {
        x
    }
    fn plus_spec(self, other: F) -> F {
        F(self.0 + other.0)
    }
    fn minus_spec(self, other: F) -> F {
        F(self.0 - other.0)
    }
    fn times_spec(self, other: F) -> F {
        F(self.0 * other.0)
    }
    fn over_spec(self, other: F) -> F {
        F(self.0 / other.0)
    }
    fn fmadd_spec(self, b: F, c: F) -> F {
        F(self.0.mul_add(b.0, c.0))
    }
    fn conj_spec(self) -> F {
        self
    }
    fn recip_spec(self) -> F {
        F(self.0.recip())
    }
    fn negate_spec(self) -> F {
        F(-self.0)
    }
    fn real_part_spec(self) -> F {
        self
    }
    fn magnitude_spec(self) -> F {
        F(self.0.abs())
    }
    fn magnitude_sq_spec(self) -> F {
        F(self.0 * self.0)
    }
    fn is_zero_spec(self) -> bool {
        self.0 == 0.0
    }
    fn is_finite_spec(self) -> bool {
        self.0.is_finite()
    }
    fn zero() -> F {
        F(0.0)
    }
    fn one() -> F {
        F(1.0)
    }
    fn from_real(x: F) -> F {
        x
    }
    fn plus(self, other: F) -> F {
        F(self.0 + other.0)
    }
    fn minus(self, other: F) -> F {
        F(self.0 - other.0)
    }
    fn times(self, other: F) -> F {
        F(self.0 * other.0)
    }
    fn over(self, other: F) -> F {
        F(self.0 / other.0)
    }
    fn fmadd(self, b: F, c: F) -> F {
        F(self.0.mul_add(b.0, c.0))
    }
    fn conj(self) -> F {
        self
    }
    fn recip(self) -> F {
        F(self.0.recip())
    }
    fn negate(self) -> F {
        F(-self.0)
    }
    fn real_part(self) -> F {
        self
    }
    fn magnitude(self) -> F {
        F(self.0.abs())
    }
    fn magnitude_sq(self) -> F {
        F(self.0 * self.0)
    }
    fn is_zero(self) -> bool {
        self.0 == 0.0
    }
    fn is_finite(self) -> bool {
        self.0.is_finite()
    }
}

#[derive(Clone, Copy, Debug, PartialEq)]
struct Z(f64, f64);

fn z_times(a: Z, b: Z) -> Z {
    Z(a.0 * b.0 - a.1 * b.1, a.0 * b.1 + a.1 * b.0)
}

fn z_recip(a: Z) -> Z {
    let m = a.0 * a.0 + a.1 * a.1;
    Z(a.0 / m, -a.1 / m)
}

impl Scalar for Z {
    type Real = F;
    fn zero_spec() -> Z {
        Z(0.0, 0.0)
    }
    fn one_spec() -> Z {
        Z(1.0, 0.0)
    }
    fn from_real_spec(x: F) -> Z {
        Z(x.0, 0.0)
    }
    fn plus_spec(self, other: Z) -> Z {
        Z(self.0 + other.0, self.1 + other.1)
    }
    fn minus_spec(self, other: Z) -> Z {
        Z(self.0 - other.0, self.1 - other.1)
    }
    fn times_spec(self, other: Z) -> Z {
        z_times(self, other)
    }
    fn over_spec(self, other: Z) -> Z {
        z_times(self, z_recip(other))
    }
    fn fmadd_spec(self, b: Z, c: Z) -> Z {
        let p = z_times(self, b);
        Z(p.0 + c.0, p.1 + c.1)
    }
    fn conj_spec(self) -> Z {
        Z(self.0, -self.1)
    }
    fn recip_spec(self) -> Z {
        z_recip(self)
    }
    fn negate_spec(self) -> Z {
        Z(-self.0, -self.1)
    }
    fn real_part_spec(self) -> F {
        F(self.0)
    }
    fn magnitude_spec(self) -> F {
        F(self.0.hypot(self.1))
    }
    fn magnitude_sq_spec(self) -> F {
        F(self.0 * self.0 + self.1 * self.1)
    }
    fn is_zero_spec(self) -> bool {
        self.0 == 0.0 && self.1 == 0.0
    }
    fn is_finite_spec(self) -> bool {
        self.0.is_finite() && self.1.is_finite()
    }
    fn zero() -> Z {
        Z(0.0, 0.0)
    }
    fn one() -> Z {
        Z(1.0, 0.0)
    }
    fn from_real(x: F) -> Z {
        Z(x.0, 0.0)
    }
    fn plus(self, other: Z) -> Z {
        Z(self.0 + other.0, self.1 + other.1)
    }
    fn minus(self, other: Z) -> Z {
        Z(self.0 - other.0, self.1 - other.1)
    }
    fn times(self, other: Z) -> Z {
        z_times(self, other)
    }
    fn over(self, other: Z) -> Z {
        z_times(self, z_recip(other))
    }
    fn fmadd(self, b: Z, c: Z) -> Z {
        let p = z_times(self, b);
        Z(p.0 + c.0, p.1 + c.1)
    }
    fn conj(self) -> Z {
        Z(self.0, -self.1)
    }
    fn recip(self) -> Z {
        z_recip(self)
    }
    fn negate(self) -> Z {
        Z(-self.0, -self.1)
    }
    fn real_part(self) -> F {
        F(self.0)
    }
    fn magnitude(self) -> F {
        F(self.0.hypot(self.1))
    }
    fn magnitude_sq(self) -> F {
        F(self.0 * self.0 + self.1 * self.1)
    }
    fn is_zero(self) -> bool {
        self.0 == 0.0 && self.1 == 0.0
    }
    fn is_finite(self) -> bool {
        self.0.is_finite() && self.1.is_finite()
    }
}

fn max_abs_diff<T: Scalar<Real = F>>(a: &[T], b: &[T]) -> f64 {
    assert_eq!(a.len(), b.len());
    a.iter().zip(b).map(|(x, y)| x.minus(*y).magnitude().0).fold(0.0, f64::max)
}

fn frob<T: Scalar<Real = F>>(a: &[T]) -> f64 {
    norm2(a).0
}

#[test]
fn aca_recovers_exact_low_rank() {
    let (m, n, r0) = (40usize, 30usize, 3usize);
    let u0: Vec<f64> = (0..m * r0).map(|t| (t * 7 % 11) as f64 - 5.0).collect();
    let v0: Vec<f64> = (0..n * r0).map(|t| (t * 5 % 13) as f64 - 6.0).collect();
    let mut b = vec![F(0.0); m * n];
    for k in 0..r0 {
        for j in 0..n {
            for i in 0..m {
                b[j * m + i].0 += u0[k * m + i] * v0[k * n + j];
            }
        }
    }
    let lr = compress_aca(&b, m, n, F(1e-12), m.min(n));
    assert!(lr.rank <= r0);
    assert!(max_abs_diff(&b, &lr.to_dense()) < 1e-9 * frob(&b));
    assert!(lr.storage() < m * n);
}

#[test]
fn aca_compresses_smooth_kernel_block() {
    let (m, n) = (64usize, 64usize);
    let mut b = vec![Z(0.0, 0.0); m * n];
    for j in 0..n {
        for i in 0..m {
            let xi = i as f64;
            let xj = 200.0 + j as f64;
            let d = xj - xi;
            b[j * m + i] = Z(1.0 / d, 0.5 / (d * d));
        }
    }
    let lr = compress_aca(&b, m, n, F(1e-6), m.min(n));
    assert!(lr.rank <= 8);
    let err = max_abs_diff(&b, &lr.to_dense());
    assert!(err <= 1e-5 * frob(&b));
}

fn smooth_front(n: usize) -> Vec<Z> {
    let mut a = vec![Z(0.0, 0.0); n * n];
    for j in 0..n {
        for i in 0..n {
            a[j * n + i] = if i == j {
                Z(n as f64, 1.0)
            } else {
                let d = (i as f64 - j as f64).abs() + 1.0;
                Z(1.0 / d, 0.5 / (d * d))
            };
        }
    }
    a
}

#[test]
fn blr_roundtrip_within_tolerance() {
    let (n, b, eps) = (256usize, 64usize, 1e-4);
    let a = smooth_front(n);
    let blr = BlrMatrix::from_dense(&a, n, n, b, F(eps));
    let recon = blr.to_dense();
    let err = max_abs_diff(&a, &recon);
    assert!(err <= 1e-2 * frob(&a));
    assert!(blr.storage() < blr.dense_storage());
    assert!(blr.n_low_rank() > 0);
}

#[test]
fn blr_diagonal_tiles_stay_dense() {
    let (n, b) = (128usize, 32usize);
    let a = smooth_front(n);
    let blr = BlrMatrix::from_dense(&a, n, n, b, F(1e-6));
    for k in 0..blr.nbr.min(blr.nbc) {
        assert!(!blr.block(k, k).is_low_rank());
    }
}

#[test]
fn blr_ragged_partition_reconstructs() {
    let (m, n, b) = (100usize, 70usize, 32usize);
    let mut a = vec![F(0.0); m * n];
    for j in 0..n {
        for i in 0..m {
            a[j * m + i] = F(((i * 13 + j * 7) % 17) as f64);
        }
    }
    let blr = BlrMatrix::from_dense(&a, m, n, b, F(1e-12));
    assert_eq!(blr.nbr, 4);
    assert_eq!(blr.nbc, 3);
    let recon = blr.to_dense();
    assert!(max_abs_diff(&a, &recon) < 1e-9 * frob(&a).max(1.0));
}

#[test]
fn aca_full_rank_block_does_not_falsely_compress() {
    let (m, n) = (24usize, 24usize);
    let mut b = vec![F(0.0); m * n];
    for j in 0..n {
        for i in 0..m {
            b[j * m + i] = if i == j {
                F(100.0)
            } else {
                F((((i * 31 + j * 17) % 7) as f64) - 3.0)
            };
        }
    }
    let lr = compress_aca(&b, m, n, F(1e-12), m.min(n));
    assert!(lr.rank >= m - 2);
}

#[test]
fn one_cross_by_hand() {
    // The outer product of (2, 4) and (1, 3), by columns.
    let b = [F(2.0), F(4.0), F(6.0), F(12.0)];
    let lr = compress_aca(&b, 2, 2, F(1e-12), 2);
    assert_eq!(lr.rank, 1);
    assert_eq!(lr.storage(), 4);
    assert_eq!(lr.to_dense(), b.to_vec());
    // A zero block needs no cross, and none is taken beyond the limit.
    assert_eq!(compress_aca(&[F(0.0); 4], 2, 2, F(1e-12), 2).rank, 0);
    assert_eq!(compress_aca(&[F(1.0), F(0.0), F(0.0), F(1.0)], 2, 2, F(0.0), 1).rank, 1);
}

#[test]
fn tiles_cover_the_matrix() {
    assert_eq!(tile_count(100, 32), 4);
    assert_eq!(tile_count(0, 32), 0);
    assert_eq!(block_extent(100, 32, 0), (0, 32));
    assert_eq!(block_extent(100, 32, 3), (96, 4));
    let a: Vec<F> = (0..12).map(|k| F(k as f64)).collect();
    // Rows 1..3 and columns 1..3 of a 4 by 3 matrix.
    assert_eq!(cut_tile(&a, 4, 3, 1, 1, 2, 2), vec![F(5.0), F(6.0), F(9.0), F(10.0)]);
    let blr = BlrMatrix::from_dense(&a, 4, 3, 2, F(0.0));
    assert_eq!(blr.row_extent(1), (2, 2));
    assert_eq!(blr.col_extent(1), (2, 1));
    assert_eq!(blr.dense_storage(), 12);
    assert!(matches!(blr.block(0, 0), Block::Dense { .. }));
    assert_eq!(blr.to_dense(), a);
}

#[test]
fn a_probe_reports_the_tiles_below_the_diagonal() {
    let n = 6;
    let f: Vec<F> = (0..n * n).map(|k| F(1.0 + (k % n) as f64)).collect();
    let p = probe_column(&f, n, 2, F(1e-12), 0);
    assert_eq!(p.len(), 2);
    assert!(p.iter().all(|t| t.rows == 2 && t.cols == 2 && t.rank == 1));
    assert_eq!(probe_column(&f, n, 2, F(1e-12), 2).len(), 0);
}

#[test]
fn a_probe_of_the_whole_front_adds_up() {
    let n = 6;
    let f: Vec<F> = (0..n * n).map(|k| F(1.0 + (k % n) as f64)).collect();
    let cols = probe_front(&f, n, 2, F(1e-12));
    assert_eq!(cols.iter().map(|c| c.len()).collect::<Vec<_>>(), vec![2, 1, 0]);
    let all: Vec<TileProbe> = cols.into_iter().flatten().collect();
    let t = tally(&all);
    assert_eq!((t.blocks, t.dense, t.compressed, t.ranks), (3, 12, 12, 3));
    assert_eq!(tally(&[]).dense, 0);
}

#[test]
fn a_compressed_matrix_stores_no_more_than_the_dense_one() {
    let n = 96;
    let a = smooth_front(n);
    for b in [7, 32, 96, 200] {
        for eps in [0.0, 1e-6, 1e-1] {
            let blr = BlrMatrix::from_dense(&a, n, n, b, F(eps));
            assert!(blr.storage() <= blr.dense_storage());
        }
    }
}
