//! Block low-rank matrices: tiles that are stored dense or as `U V^T`.
//!
//! A tile is compressed by fully pivoted adaptive cross approximation: take the
//! largest entry of the residual, subtract the cross through it, and stop when
//! the residual is small.

use crate::algebra::zero_plus;
use crate::flat::{
    column_bounds, column_start, norm2, norm_of, part_of, position_joins, position_splits,
};
use crate::scalar::{Field, Real, Scalar};
use vstd::prelude::*;

verus! {

/// A factorization `U V^T` of a dense `m` by `n` block (no conjugation).
#[derive(Debug, Clone)]
pub struct LowRank<T> {
    pub m: usize,
    pub n: usize,
    pub rank: usize,
    /// `m` by `rank`, column-major.
    pub u: Vec<T>,
    /// `n` by `rank`, column-major.
    pub v: Vec<T>,
}

impl<T> LowRank<T> {
    /// The two factors have the right size.
    pub open spec fn wf(&self) -> bool {
        &&& self.u@.len() == self.m * self.rank
        &&& self.v@.len() == self.n * self.rank
    }

    /// Entry `(i, k)` of `U`.
    pub open spec fn u_at(&self, i: int, k: int) -> T {
        self.u@[column_start(self.m as int, k) + i]
    }

    /// Entry `(j, k)` of `V`.
    pub open spec fn v_at(&self, j: int, k: int) -> T {
        self.v@[column_start(self.n as int, k) + j]
    }
}

impl<T: Scalar> LowRank<T> {
    /// Entry `(i, j)` of the first `k` crosses together.
    pub open spec fn approx(&self, i: int, j: int, k: int) -> T
        decreases k,
    {
        if k <= 0 {
            T::zero_spec()
        } else {
            let before = self.approx(i, j, k - 1);
            let vj = self.v_at(j, k - 1);
            if vj.is_zero_spec() {
                before
            } else {
                before.plus_spec(self.u_at(i, k - 1).times_spec(vj))
            }
        }
    }

    /// The dense approximation, column-major.
    pub open spec fn dense(&self, k: int) -> Seq<T> {
        Seq::new(
            (self.m * self.n) as nat,
            |p: int| self.approx(p % self.m as int, p / self.m as int, k),
        )
    }

    /// Stored entries, against `m * n` for the dense block.
    pub fn storage(&self) -> (r: usize)
        requires
            self.rank * (self.m + self.n) <= usize::MAX,
        ensures
            r == self.rank * (self.m + self.n),
    {
        proof {
            assert(self.rank * (self.m + self.n) >= self.m + self.n || self.rank == 0)
                by (nonlinear_arith);
        }
        if self.rank == 0 {
            assert(self.rank * (self.m + self.n) == 0) by (nonlinear_arith)
                requires
                    self.rank == 0,
            ;
            return 0;
        }
        self.rank * (self.m + self.n)
    }

    /// The dense approximation `U V^T`, column-major.
    pub fn to_dense(&self) -> (d: Vec<T>)
        requires
            self.wf(),
            self.m * self.n <= usize::MAX,
        ensures
            d@ == self.dense(self.rank as int),
    {
        let m: usize = self.m;
        let n: usize = self.n;
        let total: usize = m * n;
        let mut d: Vec<T> = Vec::new();
        let mut p: usize = 0;
        while p < total
            invariant
                p <= total,
                d@.len() == p,
                forall|x: int| 0 <= x < p ==> #[trigger] d@[x] == T::zero_spec(),
            decreases total - p,
        {
            d.push(T::zero());
            p = p + 1;
        }
        assert(d@ =~= self.dense(0));
        let u_len: usize = self.u.len();
        let v_len: usize = self.v.len();
        let mut k: usize = 0;
        let mut ua: usize = 0;
        let mut va: usize = 0;
        while k < self.rank
            invariant
                k <= self.rank,
                self.wf(),
                m == self.m,
                n == self.n,
                u_len == self.u@.len(),
                v_len == self.v@.len(),
                total == m * n,
                ua == column_start(m as int, k as int),
                va == column_start(n as int, k as int),
                d@ == self.dense(k as int),
            decreases self.rank - k,
        {
            proof {
                column_bounds(m as int, k as int, self.rank as int);
                column_bounds(n as int, k as int, self.rank as int);
            }
            let ghost d0 = d@;
            let mut i: usize = 0;
            let mut j: usize = 0;
            p = 0;
            proof {
                if total > 0 {
                    position_joins(m as int, n as int, 0);
                }
            }
            while p < total
                invariant
                    p <= total,
                    k < self.rank,
                    self.wf(),
                    m == self.m,
                    n == self.n,
                    total == m * n,
                    ua == column_start(m as int, k as int),
                    va == column_start(n as int, k as int),
                    ua + m <= self.u@.len(),
                    va + n <= self.v@.len(),
                    ua + m <= usize::MAX,
                    va + n <= usize::MAX,
                    d0 == self.dense(k as int),
                    d@.len() == total,
                    p < total ==> i < m && j < n,
                    p < total ==> p == column_start(m as int, j as int) + i,
                    forall|x: int| 0 <= x < p ==> #[trigger] d@[x] == self.dense(k + 1)[x],
                    forall|x: int| p <= x < total ==> #[trigger] d@[x] == d0[x],
                decreases total - p,
            {
                proof {
                    position_splits(m as int, i as int, j as int);
                }
                let vj = self.v[va + j];
                if !vj.is_zero() {
                    d.set(p, d[p].plus(self.u[ua + i].times(vj)));
                }
                p = p + 1;
                proof {
                    if p < total {
                        position_joins(m as int, n as int, p as int);
                        if i + 1 < m {
                            position_splits(m as int, i + 1, j as int);
                        } else {
                            column_step(m as int, j as int);
                            position_splits(m as int, 0, j + 1);
                        }
                    }
                }
                if p < total {
                    if i + 1 < m {
                        i = i + 1;
                    } else {
                        i = 0;
                        j = j + 1;
                    }
                }
            }
            assert(d@ =~= self.dense(k + 1));
            ua = ua + m;
            va = va + n;
            k = k + 1;
        }
        d
    }
}

/// One column further.
proof fn column_step(m: int, j: int)
    ensures
        column_start(m, j) + m == column_start(m, j + 1),
{
    assert(m * j + m == m * (j + 1)) by (nonlinear_arith);
}

// ---------------------------------------------------------------------------
// Adaptive cross approximation
// ---------------------------------------------------------------------------
/// Where the first entry of largest magnitude stands among the first `q`, or
/// -1 if none has positive magnitude.
pub open spec fn largest<T: Scalar>(r: Seq<T>, q: int) -> int
    decreases q,
{
    if q <= 0 {
        -1
    } else {
        let best = largest(r, q - 1);
        let top = if best < 0 {
            <T::Real as Real>::zero_spec()
        } else {
            r[best].magnitude_spec()
        };
        if r[q - 1].magnitude_spec().gt_spec(top) {
            q - 1
        } else {
            best
        }
    }
}

/// Entry `i` of the column through the pivot at `p`.
pub open spec fn cross_u<T: Scalar>(r: Seq<T>, m: int, p: int, i: int) -> T {
    r[column_start(m, p / m) + i]
}

/// Entry `j` of the row through the pivot at `p`, divided by the pivot.
pub open spec fn cross_v<T: Scalar>(r: Seq<T>, m: int, p: int, j: int) -> T {
    r[column_start(m, j) + p % m].times_spec(r[p].recip_spec())
}

/// What is left after the cross through the pivot at `p` is subtracted.
pub open spec fn peeled<T: Scalar>(r: Seq<T>, m: int, p: int) -> Seq<T> {
    Seq::new(
        r.len(),
        |x: int|
            {
                let vj = cross_v(r, m, p, x / m);
                if vj.is_zero_spec() {
                    r[x]
                } else {
                    r[x].minus_spec(cross_u(r, m, p, x % m).times_spec(vj))
                }
            },
    )
}

/// The residual after `k` crosses, each through a largest entry.
pub open spec fn residual<T: Scalar>(b: Seq<T>, m: int, k: int) -> Seq<T>
    decreases k,
{
    if k <= 0 {
        b
    } else {
        let r = residual(b, m, k - 1);
        peeled(r, m, largest(r, r.len() as int))
    }
}

/// The first `k` crosses of `lr` are those through the largest entries.
pub open spec fn crosses<T: Scalar>(lr: LowRank<T>, b: Seq<T>, k: int) -> bool {
    let m = lr.m as int;
    forall|c: int|
        #![trigger residual(b, m, c)]
        0 <= c < k ==> {
            let r = residual(b, m, c);
            let p = largest(r, r.len() as int);
            &&& p >= 0
            &&& forall|i: int| 0 <= i < lr.m ==> #[trigger] lr.u_at(i, c) == cross_u(r, m, p, i)
            &&& forall|j: int| 0 <= j < lr.n ==> #[trigger] lr.v_at(j, c) == cross_v(r, m, p, j)
        }
}

/// The number of crosses is right: none for a zero block, else the first after
/// which the residual is small or zero, within the cap.
pub open spec fn stops_at<T: Scalar>(b: Seq<T>, m: int, eps: T::Real, cap: int, rank: int) -> bool {
    let tol = eps.times_spec(norm_of(b));
    if norm_of(b).is_zero_spec() || cap == 0 {
        rank == 0
    } else {
        &&& 0 <= rank <= cap
        &&& forall|k: int|
            0 < k < rank ==> !tol.ge_spec(norm_of(#[trigger] residual(b, m, k)))
        &&& rank == cap || largest(
            residual(b, m, rank),
            residual(b, m, rank).len() as int,
        ) < 0 || (rank > 0 && tol.ge_spec(norm_of(residual(b, m, rank))))
    }
}

pub open spec fn smaller(a: int, b: int) -> int {
    if a <= b {
        a
    } else {
        b
    }
}

/// The compression of a block.
pub open spec fn compresses<T: Scalar>(
    lr: LowRank<T>,
    b: Seq<T>,
    m: int,
    n: int,
    eps: T::Real,
    max_rank: int,
) -> bool {
    &&& lr.wf()
    &&& lr.m == m
    &&& lr.n == n
    &&& lr.rank <= smaller(max_rank, smaller(m, n))
    &&& crosses(lr, b, lr.rank as int)
    &&& stops_at(b, m, eps, smaller(max_rank, smaller(m, n)), lr.rank as int)
}

/// The first entry of largest magnitude.
fn find_largest<T: Scalar>(r: &Vec<T>) -> (p: Option<usize>)
    ensures
        p is None <==> largest(r@, r@.len() as int) < 0,
        p matches Some(x) ==> x == largest(r@, r@.len() as int) && x < r@.len(),
{
    let mut best: Option<usize> = None;
    let mut top: T::Real = <T::Real as Real>::zero();
    let mut q: usize = 0;
    while q < r.len()
        invariant
            q <= r@.len(),
            best is None <==> largest(r@, q as int) < 0,
            best matches Some(x) ==> x == largest(r@, q as int) && x < q,
            top == (if largest(r@, q as int) < 0 {
                <T::Real as Real>::zero_spec()
            } else {
                r@[largest(r@, q as int)].magnitude_spec()
            }),
        decreases r@.len() - q,
    {
        let mag = r[q].magnitude();
        if mag.gt(top) {
            top = mag;
            best = Some(q);
        }
        q = q + 1;
    }
    best
}

proof fn largest_range<T: Scalar>(r: Seq<T>, q: int)
    requires
        0 <= q,
    ensures
        -1 <= largest(r, q) < q,
    decreases q,
{
    if q > 0 {
        largest_range(r, q - 1);
    }
}

proof fn residual_len<T: Scalar>(b: Seq<T>, m: int, k: int)
    ensures
        residual(b, m, k).len() == b.len(),
    decreases k,
{
    if k > 0 {
        residual_len(b, m, k - 1);
    }
}

/// Fully pivoted cross approximation of a dense column-major block to the
/// relative Frobenius tolerance `eps`, with at most `max_rank` crosses.
///
/// If the block does not compress within the cap, the rank equals the cap and
/// the block is not worth compressing.
pub fn compress_aca<T: Scalar>(b: &[T], m: usize, n: usize, eps: T::Real, max_rank: usize) -> (lr: LowRank<T>)
    requires
        b@.len() == m * n,
    ensures
        compresses(lr, b@, m as int, n as int, eps, max_rank as int),
{
    let mut cap: usize = max_rank;
    if m < cap {
        cap = m;
    }
    if n < cap {
        cap = n;
    }
    let total: usize = b.len();
    let bnorm = norm2(b);
    let mut r: Vec<T> = part_of(b, 0, total);
    assert(r@ =~= b@);
    let mut lr: LowRank<T> = LowRank { m, n, rank: 0, u: Vec::new(), v: Vec::new() };
    proof {
        assert(m * 0 == 0 && n * 0 == 0);
    }
    if bnorm.is_zero() || cap == 0 {
        return lr;
    }
    let tol = eps.times(bnorm);
    let mut done = false;
    while lr.rank < cap && !done
        invariant
            b@.len() == m * n,
            total == m * n,
            lr.m == m,
            lr.n == n,
            lr.wf(),
            cap == smaller(max_rank as int, smaller(m as int, n as int)),
            lr.rank <= cap,
            cap > 0,
            r@ == residual(b@, m as int, lr.rank as int),
            r@.len() == total,
            crosses(lr, b@, lr.rank as int),
            bnorm == norm_of(b@),
            !bnorm.is_zero_spec(),
            tol == eps.times_spec(bnorm),
            forall|k: int|
                0 < k < lr.rank ==> !tol.ge_spec(norm_of(#[trigger] residual(b@, m as int, k))),
            !done && lr.rank > 0 ==> !tol.ge_spec(norm_of(residual(b@, m as int, lr.rank as int))),
            done ==> largest(r@, total as int) < 0 || (lr.rank > 0 && tol.ge_spec(norm_of(r@))),
        decreases cap - lr.rank, (if done {
            0int
        } else {
            1int
        }),
    {
        match find_largest(&r) {
            None => {
                done = true;
            },
            Some(p) => {
                let ghost r0 = r@;
                let ghost lr0 = lr;
                proof {
                    position_joins(m as int, n as int, p as int);
                }
                let bi: usize = p % m;
                let bj: usize = p / m;
                let pinv = r[p].recip();
                proof {
                    column_bounds(m as int, bj as int, n as int);
                }
                let base: usize = p - bi;
                let uk: Vec<T> = part_of(r.as_slice(), base, base + m);
                let mut vk: Vec<T> = Vec::new();
                let mut j: usize = 0;
                let mut at: usize = 0;
                while j < n
                    invariant
                        j <= n,
                        bi < m,
                        total == m * n,
                        r@.len() == total,
                        r@ == r0,
                        bi == p as int % m as int,
                        pinv == r0[p as int].recip_spec(),
                        at == column_start(m as int, j as int),
                        vk@.len() == j,
                        forall|x: int| 0 <= x < j ==> #[trigger] vk@[x] == cross_v(r0, m as int, p as int, x),
                    decreases n - j,
                {
                    proof {
                        column_bounds(m as int, j as int, n as int);
                    }
                    vk.push(r[at + bi].times(pinv));
                    at = at + m;
                    j = j + 1;
                }
                subtract_cross(m, n, &uk, &vk, &mut r, Ghost(p as int));
                proof {
                    assert(r@ =~= peeled(r0, m as int, p as int));
                }
                let mut uk2 = uk;
                let mut vk2 = vk;
                let ghost us = uk2@;
                let ghost vs = vk2@;
                lr.u.append(&mut uk2);
                lr.v.append(&mut vk2);
                lr.rank = lr.rank + 1;
                proof {
                    let k = lr0.rank as int;
                    column_step(m as int, k);
                    column_step(n as int, k);
                    assert(lr.u@ == lr0.u@ + us);
                    assert(lr.v@ == lr0.v@ + vs);
                    assert(lr.wf());
                    assert forall|c: int|
                        #![trigger residual(b@, m as int, c)]
                        0 <= c < k + 1 implies {
                        let rc = residual(b@, m as int, c);
                        let pc = largest(rc, rc.len() as int);
                        &&& pc >= 0
                        &&& forall|i: int|
                            0 <= i < lr.m ==> #[trigger] lr.u_at(i, c) == cross_u(rc, m as int, pc, i)
                        &&& forall|j: int|
                            0 <= j < lr.n ==> #[trigger] lr.v_at(j, c) == cross_v(rc, m as int, pc, j)
                    } by {
                        let rc = residual(b@, m as int, c);
                        let pc = largest(rc, rc.len() as int);
                        if c < k {
                            column_bounds(m as int, c, k);
                            column_bounds(n as int, c, k);
                            assert forall|i: int| 0 <= i < lr.m implies #[trigger] lr.u_at(i, c) == cross_u(
                                rc,
                                m as int,
                                pc,
                                i,
                            ) by {
                                assert(lr.u_at(i, c) == lr0.u_at(i, c));
                            }
                            assert forall|j: int| 0 <= j < lr.n implies #[trigger] lr.v_at(j, c) == cross_v(
                                rc,
                                m as int,
                                pc,
                                j,
                            ) by {
                                assert(lr.v_at(j, c) == lr0.v_at(j, c));
                            }
                        } else {
                            assert forall|i: int| 0 <= i < lr.m implies #[trigger] lr.u_at(i, c) == cross_u(
                                rc,
                                m as int,
                                pc,
                                i,
                            ) by {
                                assert(lr.u_at(i, c) == us[i]);
                            }
                            assert forall|j: int| 0 <= j < lr.n implies #[trigger] lr.v_at(j, c) == cross_v(
                                rc,
                                m as int,
                                pc,
                                j,
                            ) by {
                                assert(lr.v_at(j, c) == vs[j]);
                            }
                        }
                    }
                    assert(crosses(lr, b@, k + 1));
                }
                if tol.ge(norm2(r.as_slice())) {
                    done = true;
                }
            },
        }
    }
    lr
}

/// `R - u v^T`, in place.
fn subtract_cross<T: Scalar>(
    m: usize,
    n: usize,
    uk: &Vec<T>,
    vk: &Vec<T>,
    r: &mut Vec<T>,
    Ghost(piv): Ghost<int>,
)
    requires
        old(r)@.len() == m * n,
        uk@.len() == m,
        vk@.len() == n,
        forall|i: int| 0 <= i < m ==> #[trigger] uk@[i] == cross_u(old(r)@, m as int, piv, i),
        forall|j: int| 0 <= j < n ==> #[trigger] vk@[j] == cross_v(old(r)@, m as int, piv, j),
    ensures
        final(r)@ == peeled(old(r)@, m as int, piv),
{
    let ghost r0 = r@;
    let total: usize = r.len();
    let mut i: usize = 0;
    let mut j: usize = 0;
    let mut p: usize = 0;
    while p < total
        invariant
            p <= total,
            total == m * n,
            r0.len() == total,
            r@.len() == total,
            uk@.len() == m,
            vk@.len() == n,
            forall|x: int| 0 <= x < m ==> #[trigger] uk@[x] == cross_u(r0, m as int, piv, x),
            forall|x: int| 0 <= x < n ==> #[trigger] vk@[x] == cross_v(r0, m as int, piv, x),
            p == 0 ==> i == 0 && j == 0,
            0 < p < total ==> i < m && j < n && p == column_start(m as int, j as int) + i,
            forall|x: int| 0 <= x < p ==> #[trigger] r@[x] == peeled(r0, m as int, piv)[x],
            forall|x: int| p <= x < total ==> #[trigger] r@[x] == r0[x],
        decreases total - p,
    {
        proof {
            position_joins(m as int, n as int, p as int);
            if p == 0 {
                assert(column_start(m as int, 0) == 0);
            }
            assert(j < n && i < m) by {
                if p == 0 && n == 0 {
                    assert(m * n == 0) by (nonlinear_arith)
                        requires
                            n == 0,
                    ;
                }
            }
            position_splits(m as int, i as int, j as int);
        }
        let vj = vk[j];
        if !vj.is_zero() {
            r.set(p, r[p].minus(uk[i].times(vj)));
        }
        p = p + 1;
        proof {
            if p < total {
                position_joins(m as int, n as int, p as int);
                if i + 1 < m {
                    position_splits(m as int, i + 1, j as int);
                } else {
                    column_step(m as int, j as int);
                    position_splits(m as int, 0, j + 1);
                }
            }
        }
        if p < total {
            if i + 1 < m {
                i = i + 1;
            } else {
                i = 0;
                j = j + 1;
            }
        }
    }
    assert(r@ =~= peeled(r0, m as int, piv));
}

/// The crosses taken and what is left add up to the block.
pub proof fn crosses_and_residual_add_up<T: Field>(lr: LowRank<T>, b: Seq<T>, k: int, x: int)
    requires
        lr.wf(),
        b.len() == lr.m * lr.n,
        0 <= k,
        crosses(lr, b, k),
        0 <= x < b.len(),
    ensures
        b[x] == lr.dense(k)[x].plus_spec(residual(b, lr.m as int, k)[x]),
    decreases k,
{
    let m = lr.m as int;
    if k == 0 {
        zero_plus(b[x]);
    } else {
        crosses_and_residual_add_up(lr, b, k - 1, x);
        position_joins(m, lr.n as int, x);
        let i = x % m;
        let j = x / m;
        let r = residual(b, m, k - 1);
        residual_len(b, m, k - 1);
        let p = largest(r, r.len() as int);
        let a0 = lr.approx(i, j, k - 1);
        let vj = lr.v_at(j, k - 1);
        assert(vj == cross_v(r, m, p, j));
        assert(lr.u_at(i, k - 1) == cross_u(r, m, p, i));
        if !vj.is_zero_spec() {
            let t = lr.u_at(i, k - 1).times_spec(vj);
            let r1 = residual(b, m, k)[x];
            T::minus_plus(r[x], t);
            T::plus_assoc(a0, t, r1);
            T::plus_comm(t, r1);
        }
    }
}

/// A block whose residual vanishes is reproduced exactly.
pub proof fn vanished_residual_is_exact<T: Field>(lr: LowRank<T>, b: Seq<T>)
    requires
        lr.wf(),
        b.len() == lr.m * lr.n,
        crosses(lr, b, lr.rank as int),
        largest(
            residual(b, lr.m as int, lr.rank as int),
            residual(b, lr.m as int, lr.rank as int).len() as int,
        ) < 0,
    ensures
        lr.dense(lr.rank as int) == b,
{
    let m = lr.m as int;
    let k = lr.rank as int;
    let r = residual(b, m, k);
    residual_len(b, m, k);
    assert forall|x: int| 0 <= x < b.len() implies lr.dense(k)[x] == b[x] by {
        crosses_and_residual_add_up(lr, b, k, x);
        nothing_large(r, r.len() as int, x);
        T::zero_test(r[x]);
        T::plus_zero(lr.dense(k)[x]);
    }
    assert(lr.dense(k) =~= b);
}

proof fn nothing_large<T: Scalar>(r: Seq<T>, q: int, x: int)
    requires
        largest(r, q) < 0,
        0 <= x < q,
    ensures
        !r[x].magnitude_spec().gt_spec(<T::Real as Real>::zero_spec()),
    decreases q,
{
    if x < q - 1 {
        nothing_large(r, q - 1, x);
    }
}

// ---------------------------------------------------------------------------
// Tiles
// ---------------------------------------------------------------------------
/// One tile of a block-partitioned matrix.
#[derive(Debug, Clone)]
pub enum Block<T> {
    /// Column-major `rows` by `cols` tile.
    Dense { rows: usize, cols: usize, data: Vec<T> },
    /// Compressed tile.
    LowRank(LowRank<T>),
}

impl<T: Scalar> Block<T> {
    pub open spec fn n_rows(&self) -> int {
        match self {
            Block::Dense { rows, .. } => *rows as int,
            Block::LowRank(lr) => lr.m as int,
        }
    }

    pub open spec fn n_cols(&self) -> int {
        match self {
            Block::Dense { cols, .. } => *cols as int,
            Block::LowRank(lr) => lr.n as int,
        }
    }

    /// The data have the size of the tile.
    pub open spec fn wf(&self) -> bool {
        match self {
            Block::Dense { rows, cols, data } => data@.len() == *rows * *cols,
            Block::LowRank(lr) => lr.wf(),
        }
    }

    /// Stored entries.
    pub open spec fn size(&self) -> int {
        match self {
            Block::Dense { rows, cols, .. } => *rows * *cols,
            Block::LowRank(lr) => lr.rank * (lr.m + lr.n),
        }
    }

    /// The tile, column-major.
    pub open spec fn entries(&self) -> Seq<T> {
        match self {
            Block::Dense { data, .. } => data@,
            Block::LowRank(lr) => lr.dense(lr.rank as int),
        }
    }

    /// Stored entries: `rows * cols` for a dense tile, `rank * (rows + cols)`
    /// for a compressed one.
    pub fn storage(&self) -> (r: usize)
        requires
            self.size() <= usize::MAX,
        ensures
            r == self.size(),
    {
        match self {
            Block::Dense { rows, cols, .. } => *rows * *cols,
            Block::LowRank(lr) => lr.storage(),
        }
    }

    /// Is the tile compressed?
    pub fn is_low_rank(&self) -> (r: bool)
        ensures
            r == (self is LowRank),
    {
        match self {
            Block::Dense { .. } => false,
            Block::LowRank(_) => true,
        }
    }

    /// The tile, column-major.
    pub fn to_dense(&self) -> (d: Vec<T>)
        requires
            self.wf(),
            self.n_rows() * self.n_cols() <= usize::MAX,
        ensures
            d@ == self.entries(),
    {
        match self {
            Block::Dense { data, .. } => {
                let r = part_of(data.as_slice(), 0, data.len());
                assert(r@ =~= data@);
                r
            },
            Block::LowRank(lr) => lr.to_dense(),
        }
    }
}

/// Start and length of tile `k` on an axis of `full` entries cut into tiles of
/// `b` (the last one may be shorter).
pub open spec fn extent_spec(full: int, b: int, k: int) -> (int, int) {
    (k * b, smaller(b, full - k * b))
}

/// Start and length of tile `k` on an axis (see [`extent_spec`]).
pub fn block_extent(full: usize, b: usize, k: usize) -> (r: (usize, usize))
    requires
        k * b <= full,
    ensures
        (r.0 as int, r.1 as int) == extent_spec(full as int, b as int, k as int),
{
    let start: usize = k * b;
    let rest: usize = full - start;
    (
        start,
        if b <= rest {
            b
        } else {
            rest
        },
    )
}

/// `full / b`, rounded up.
pub open spec fn tiles(full: int, b: int) -> int {
    (full + b - 1) / b
}

/// Every tile number is in range exactly if the tile starts inside the axis.
pub proof fn tile_starts(full: int, b: int, k: int)
    requires
        0 <= full,
        0 < b,
        0 <= k,
    ensures
        k < tiles(full, b) <==> k * b < full,
        0 <= k * b,
        0 <= tiles(full, b),
{
    let t = tiles(full, b);
    vstd::arithmetic::div_mod::lemma_fundamental_div_mod(full + b - 1, b);
    vstd::arithmetic::div_mod::lemma_mod_bound(full + b - 1, b);
    let r = (full + b - 1) % b;
    assert(b * t + r == full + b - 1);
    assert(0 <= k * b) by (nonlinear_arith)
        requires
            0 <= k,
            0 < b,
    ;
    if k < t {
        assert(k * b <= b * t - b) by (nonlinear_arith)
            requires
                k + 1 <= t,
                0 < b,
        ;
    } else {
        assert(k * b >= b * t) by (nonlinear_arith)
            requires
                k >= t,
                0 < b,
        ;
    }
    vstd::arithmetic::div_mod::lemma_div_pos_is_pos(full + b - 1, b);
}

/// A block-partitioned dense matrix: a grid of `nbr` by `nbc` tiles of size `b`,
/// stored row by row.
#[derive(Debug, Clone)]
pub struct BlrMatrix<T> {
    pub nrow: usize,
    pub ncol: usize,
    pub b: usize,
    pub nbr: usize,
    pub nbc: usize,
    pub blocks: Vec<Block<T>>,
}

/// The tile of a column-major matrix with `nrow` rows that starts at row `r0`
/// and column `c0`.
pub open spec fn tile<T>(a: Seq<T>, nrow: int, r0: int, c0: int, bm: int, bn: int) -> Seq<T> {
    Seq::new((bm * bn) as nat, |p: int| a[column_start(nrow, c0 + p / bm) + r0 + p % bm])
}

/// The rank from which a compressed tile stores no less than a dense one.
pub open spec fn breakeven(bm: int, bn: int) -> int {
    if (bm * bn) / (bm + bn) >= 1 {
        (bm * bn) / (bm + bn)
    } else {
        1
    }
}

/// How a tile is stored: dense on the diagonal, else compressed where that
/// pays.
pub open spec fn tile_stored<T: Scalar>(
    blk: Block<T>,
    t: Seq<T>,
    bm: int,
    bn: int,
    diagonal: bool,
    eps: T::Real,
) -> bool {
    &&& blk.wf()
    &&& blk.n_rows() == bm
    &&& blk.n_cols() == bn
    &&& match blk {
        Block::Dense { rows, cols, data } => data@ == t && (diagonal || exists|lr: LowRank<T>| #[trigger]
            compresses(lr, t, bm, bn, eps, breakeven(bm, bn)) && !(lr.rank < breakeven(bm, bn)
                && lr.rank * (lr.m + lr.n) < bm * bn)),
        Block::LowRank(lr) => !diagonal && compresses(lr, t, bm, bn, eps, breakeven(bm, bn)) && lr.rank
            < breakeven(bm, bn) && lr.rank * (lr.m + lr.n) < bm * bn,
    }
}

impl<T: Scalar> BlrMatrix<T> {
    /// Start and length of block-row `ib`.
    pub open spec fn rows_of(&self, ib: int) -> (int, int) {
        extent_spec(self.nrow as int, self.b as int, ib)
    }

    /// Start and length of block-column `jb`.
    pub open spec fn cols_of(&self, jb: int) -> (int, int) {
        extent_spec(self.ncol as int, self.b as int, jb)
    }

    /// Where tile `(ib, jb)` is stored.
    pub open spec fn slot(&self, ib: int, jb: int) -> int {
        column_start(self.nbc as int, ib) + jb
    }

    /// The tiles cover the matrix.
    pub open spec fn wf(&self) -> bool {
        &&& self.b > 0
        &&& self.nrow * self.ncol <= usize::MAX
        &&& self.nbr == tiles(self.nrow as int, self.b as int)
        &&& self.nbc == tiles(self.ncol as int, self.b as int)
        &&& self.blocks@.len() == self.nbr * self.nbc
        &&& forall|ib: int, jb: int|
            #![trigger self.slot(ib, jb)]
            0 <= ib < self.nbr && 0 <= jb < self.nbc ==> {
                let blk = self.blocks@[self.slot(ib, jb)];
                blk.wf() && blk.n_rows() == self.rows_of(ib).1 && blk.n_cols() == self.cols_of(jb).1
            }
    }

    /// The tile in block-row `ib` and block-column `jb`.
    pub fn block(&self, ib: usize, jb: usize) -> (r: &Block<T>)
        requires
            self.wf(),
            ib < self.nbr,
            jb < self.nbc,
        ensures
            *r == self.blocks@[self.slot(ib as int, jb as int)],
    {
        proof {
            grid_bounds(self.nbr as int, self.nbc as int, ib as int, jb as int);
        }
        let len: usize = self.blocks.len();
        let at: usize = self.nbc * ib + jb;
        &self.blocks[at]
    }

    /// Start and length of block-row `ib`.
    pub fn row_extent(&self, ib: usize) -> (r: (usize, usize))
        requires
            self.wf(),
            ib < self.nbr,
        ensures
            (r.0 as int, r.1 as int) == self.rows_of(ib as int),
    {
        proof {
            tile_starts(self.nrow as int, self.b as int, ib as int);
        }
        block_extent(self.nrow, self.b, ib)
    }

    /// Start and length of block-column `jb`.
    pub fn col_extent(&self, jb: usize) -> (r: (usize, usize))
        requires
            self.wf(),
            jb < self.nbc,
        ensures
            (r.0 as int, r.1 as int) == self.cols_of(jb as int),
    {
        proof {
            tile_starts(self.ncol as int, self.b as int, jb as int);
        }
        block_extent(self.ncol, self.b, jb)
    }

    /// Stored entries of the first `k` tiles.
    pub open spec fn stored(&self, k: int) -> int
        decreases k,
    {
        if k <= 0 {
            0
        } else {
            self.stored(k - 1) + self.blocks@[k - 1].size()
        }
    }

    /// Compressed tiles among the first `k`.
    pub open spec fn compressed(&self, k: int) -> int
        decreases k,
    {
        if k <= 0 {
            0
        } else {
            self.compressed(k - 1) + (if self.blocks@[k - 1] is LowRank {
                1int
            } else {
                0int
            })
        }
    }

    /// Stored entries over all tiles.
    pub fn storage(&self) -> (r: usize)
        requires
            self.stored(self.blocks@.len() as int) <= usize::MAX,
        ensures
            r == self.stored(self.blocks@.len() as int),
    {
        let mut r: usize = 0;
        let mut k: usize = 0;
        while k < self.blocks.len()
            invariant
                k <= self.blocks@.len(),
                self.stored(self.blocks@.len() as int) <= usize::MAX,
                r == self.stored(k as int),
            decreases self.blocks@.len() - k,
        {
            proof {
                stored_grows(*self, k + 1, self.blocks@.len() as int);
                size_bound(self.blocks@[k as int]);
            }
            r = r + self.blocks[k].storage();
            k = k + 1;
        }
        r
    }

    /// Entries of the dense matrix.
    pub fn dense_storage(&self) -> (r: usize)
        requires
            self.nrow * self.ncol <= usize::MAX,
        ensures
            r == self.nrow * self.ncol,
    {
        self.nrow * self.ncol
    }

    /// Number of compressed tiles.
    pub fn n_low_rank(&self) -> (r: usize)
        ensures
            r == self.compressed(self.blocks@.len() as int),
    {
        let mut r: usize = 0;
        let mut k: usize = 0;
        while k < self.blocks.len()
            invariant
                k <= self.blocks@.len(),
                r == self.compressed(k as int),
                r <= k,
            decreases self.blocks@.len() - k,
        {
            if self.blocks[k].is_low_rank() {
                r = r + 1;
            }
            k = k + 1;
        }
        r
    }
}

proof fn size_bound<T: Scalar>(blk: Block<T>)
    ensures
        0 <= blk.size(),
{
    match blk {
        Block::Dense { rows, cols, .. } => {
            assert(0 <= rows * cols) by (nonlinear_arith);
        },
        Block::LowRank(lr) => {
            let a = lr.rank as int;
            let c = lr.m + lr.n;
            assert(0 <= a * c) by (nonlinear_arith)
                requires
                    0 <= a,
                    0 <= c,
            ;
        },
    }
}

proof fn stored_grows<T: Scalar>(x: BlrMatrix<T>, k: int, k2: int)
    requires
        0 <= k <= k2,
    ensures
        x.stored(k) <= x.stored(k2),
        0 <= x.stored(k),
    decreases k2,
{
    if k < k2 {
        stored_grows(x, k, k2 - 1);
        if k2 > 0 {
            size_bound(x.blocks@[k2 - 1]);
        }
    } else if k > 0 {
        stored_grows(x, k - 1, k - 1);
        size_bound(x.blocks@[k - 1]);
    }
}

/// A grid position lies inside the grid.
proof fn grid_bounds(nbr: int, nbc: int, ib: int, jb: int)
    requires
        0 <= ib < nbr,
        0 <= jb < nbc,
    ensures
        0 <= column_start(nbc, ib),
        column_start(nbc, ib) + jb < nbr * nbc,
        column_start(nbc, ib) + nbc == column_start(nbc, ib + 1),
{
    column_bounds(nbc, ib, nbr);
    assert(nbc * nbr == nbr * nbc) by (nonlinear_arith);
}

} // verus!
