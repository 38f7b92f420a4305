//! One sweep of a minimal-residual iteration: the basis, the rotated Hessenberg
//! matrix, and the least-squares solution that they give.

use crate::flat::{norm2, norm_of};
use crate::krylov::vectors::{
    add_scaled, chunked_of, dotc, dotc_chunked, dotc_of, minus_multiple, multiple, plus_scaled,
    scaled, subtract_multiple,
};
use crate::matrix_ops::{zero_vector, zeros};
use crate::scalar::{Real, Scalar};
use vstd::prelude::*;

verus! {

/// A sweep after some steps: the basis, one rotated Hessenberg column for each
/// step, the rotations, and the rotated right-hand side.
#[verifier::ext_equal]
pub struct Sweep<T: Scalar> {
    pub v: Seq<Seq<T>>,
    pub h: Seq<Seq<T>>,
    pub cs: Seq<T>,
    pub sn: Seq<T>,
    pub g: Seq<T>,
}

/// The views of the lists.
pub open spec fn views<T>(lists: Seq<Vec<T>>) -> Seq<Seq<T>> {
    Seq::new(lists.len(), |i: int| lists[i]@)
}

/// The rotation that turns `g` into zero against `f`.
pub open spec fn rotation<T: Scalar>(f: T, g: T) -> (T, T) {
    if g.is_zero_spec() {
        (T::one_spec(), T::zero_spec())
    } else if f.is_zero_spec() {
        (T::zero_spec(), T::one_spec())
    } else {
        let r = f.magnitude_sq_spec().plus_spec(g.magnitude_sq_spec()).sqrt_spec();
        let inv = T::from_real_spec(<T::Real as Real>::one_spec().over_spec(r));
        (f.times_spec(inv), g.times_spec(inv))
    }
}

/// The Givens rotation `(c, s)` of a pair.
pub fn givens<T: Scalar>(f: T, g: T) -> (r: (T, T))
    ensures
        r == rotation(f, g),
{
    if g.is_zero() {
        return (T::one(), T::zero());
    }
    if f.is_zero() {
        return (T::zero(), T::one());
    }
    let r = f.magnitude_sq().plus(g.magnitude_sq()).sqrt();
    let inv = T::from_real(<T::Real as Real>::one().over(r));
    (f.times(inv), g.times(inv))
}

/// A Hessenberg column after the first `k` rotations.
pub open spec fn rotated<T: Scalar>(col: Seq<T>, cs: Seq<T>, sn: Seq<T>, k: int) -> Seq<T>
    decreases k,
{
    if k <= 0 {
        col
    } else {
        let c = rotated(col, cs, sn, k - 1);
        let i = k - 1;
        let upper = cs[i].conj_spec().times_spec(c[i]).plus_spec(
            sn[i].conj_spec().times_spec(c[i + 1]),
        );
        let lower = sn[i].negate_spec().times_spec(c[i]).plus_spec(cs[i].times_spec(c[i + 1]));
        c.update(i + 1, lower).update(i, upper)
    }
}

/// `w` over its norm, or zeros if it has none.
pub open spec fn direction<T: Scalar>(w: Seq<T>, hn: T::Real) -> Seq<T> {
    if hn.gt_spec(<T::Real as Real>::zero_spec()) {
        scaled(w, T::from_real_spec(<T::Real as Real>::one_spec().over_spec(hn)))
    } else {
        zeros(w.len() as int)
    }
}

/// The sweep that starts from a residual of norm `beta`.
pub open spec fn opened<T: Scalar>(r: Seq<T>, beta: T::Real) -> Sweep<T> {
    Sweep {
        v: seq![scaled(r, T::from_real_spec(<T::Real as Real>::one_spec().over_spec(beta)))],
        h: Seq::empty(),
        cs: Seq::empty(),
        sn: Seq::empty(),
        g: seq![T::from_real_spec(beta)],
    }
}

/// The sweep with one more step: the projections `hs` and the rest `w` of norm
/// `hn`.
pub open spec fn closed_with<T: Scalar>(
    s: Sweep<T>,
    hs: Seq<T>,
    w: Seq<T>,
    hn: T::Real,
) -> Sweep<T> {
    let j = s.h.len() as int;
    let col = rotated(hs.push(T::from_real_spec(hn)), s.cs, s.sn, j);
    let (c, t) = rotation(col[j], col[j + 1]);
    let top = c.conj_spec().times_spec(col[j]).plus_spec(t.conj_spec().times_spec(col[j + 1]));
    Sweep {
        v: s.v.push(direction(w, hn)),
        h: s.h.push(col.take(j).push(top)),
        cs: s.cs.push(c),
        sn: s.sn.push(t),
        g: s.g.update(j, c.conj_spec().times_spec(s.g[j])).push(
            t.negate_spec().times_spec(s.g[j]),
        ),
    }
}

/// How much of a vector one projection may cancel before it is repeated.
pub open spec fn reorth_eta<R: Real>() -> R {
    R::one_spec().over_spec(R::from_count_spec(2)).sqrt_spec()
}

/// Modified Gram-Schmidt against the first `k` basis vectors: what is left of
/// `w`, and the projections.
pub open spec fn mgs<T: Scalar>(basis: Seq<Seq<T>>, w: Seq<T>, k: int) -> (Seq<T>, Seq<T>)
    decreases k,
{
    if k <= 0 {
        (w, Seq::empty())
    } else {
        let (u, hs) = mgs(basis, w, k - 1);
        let h = dotc_of(basis[k - 1], u);
        (minus_multiple(u, h, basis[k - 1]), hs.push(h))
    }
}

/// The elementwise sum.
pub open spec fn summed<T: Scalar>(a: Seq<T>, b: Seq<T>) -> Seq<T> {
    Seq::new(a.len(), |i: int| a[i].plus_spec(b[i]))
}

/// Whether one pass cancelled so much that it is repeated.
pub open spec fn collapsed<T: Scalar>(before: Seq<T>, after: Seq<T>) -> bool {
    reorth_eta::<T::Real>().times_spec(norm_of(before)).gt_spec(norm_of(after))
}

/// Modified Gram-Schmidt, repeated where it cancelled too much: the projections
/// and the rest.
pub open spec fn mgs_orthogonal<T: Scalar>(basis: Seq<Seq<T>>, w: Seq<T>) -> (Seq<T>, Seq<T>) {
    let k = basis.len() as int;
    let (u, hs) = mgs(basis, w, k);
    if collapsed(w, u) {
        let (u2, hs2) = mgs(basis, u, k);
        (summed(hs, hs2), u2)
    } else {
        (hs, u)
    }
}

/// One step of a single-vector sweep with the image `w`.
#[verifier::opaque]
pub open spec fn grown<T: Scalar>(s: Sweep<T>, w: Seq<T>) -> Sweep<T> {
    let (hs, u) = mgs_orthogonal(s.v, w);
    closed_with(s, hs, u, norm_of(u))
}

/// The projections of classical Gram-Schmidt, all of the same vector.
pub open spec fn projections<T: Scalar>(basis: Seq<Seq<T>>, w: Seq<T>) -> Seq<T> {
    Seq::new(basis.len(), |i: int| chunked_of(basis[i], w))
}

/// `w` without its projections on the first `k` basis vectors.
pub open spec fn without<T: Scalar>(
    basis: Seq<Seq<T>>,
    w: Seq<T>,
    hs: Seq<T>,
    k: int,
) -> Seq<T>
    decreases k,
{
    if k <= 0 {
        w
    } else {
        let u = without(basis, w, hs, k - 1);
        if hs[k - 1].is_zero_spec() {
            u
        } else {
            minus_multiple(u, hs[k - 1], basis[k - 1])
        }
    }
}

/// Classical Gram-Schmidt, repeated where it cancelled too much: the projections
/// and the rest.
pub open spec fn cgs_orthogonal<T: Scalar>(basis: Seq<Seq<T>>, w: Seq<T>) -> (Seq<T>, Seq<T>) {
    let k = basis.len() as int;
    let hs = projections(basis, w);
    let u = without(basis, w, hs, k);
    if collapsed(w, u) {
        let hs2 = projections(basis, u);
        (summed(hs, hs2), without(basis, u, hs2, k))
    } else {
        (hs, u)
    }
}

/// One step of a panel sweep with the image `w`.
#[verifier::opaque]
pub open spec fn panel_grown<T: Scalar>(s: Sweep<T>, w: Seq<T>) -> Sweep<T> {
    let (hs, u) = cgs_orthogonal(s.v, w);
    closed_with(s, hs, u, norm_of(u))
}

/// The residual that the least-squares problem promises.
pub open spec fn promised<T: Scalar>(s: Sweep<T>) -> T::Real {
    s.g[s.g.len() - 1].magnitude_spec()
}

/// The largest diagonal magnitude of the first `k` Hessenberg columns.
pub open spec fn diagonal_max<T: Scalar>(h: Seq<Seq<T>>, k: int) -> T::Real
    decreases k,
{
    if k <= 0 {
        <T::Real as Real>::zero_spec()
    } else {
        diagonal_max(h, k - 1).maximum_spec(h[k - 1][k - 1].magnitude_spec())
    }
}

/// The first diagonal from `i` on that is no larger than the threshold.
pub open spec fn sound_from<T: Scalar>(h: Seq<Seq<T>>, thresh: T::Real, i: int) -> int
    decreases h.len() - i,
{
    if i >= h.len() {
        h.len() as int
    } else if thresh.ge_spec(h[i][i].magnitude_spec()) {
        i
    } else {
        sound_from(h, thresh, i + 1)
    }
}

/// How many leading columns can be solved with: up to the first diagonal that is
/// negligible against the largest.
pub open spec fn sound_dim<T: Scalar>(h: Seq<Seq<T>>) -> int {
    sound_from(
        h,
        <T::Real as Real>::epsilon_spec().times_spec(diagonal_max(h, h.len() as int)),
        0,
    )
}

/// The right-hand side of row `i` without the unknowns `i + 1..k`.
pub open spec fn back_row<T: Scalar>(
    h: Seq<Seq<T>>,
    g: Seq<T>,
    i: int,
    y: Seq<T>,
    k: int,
) -> T
    decreases k - i,
{
    if k <= i + 1 {
        g[i]
    } else {
        back_row(h, g, i, y, k - 1).minus_spec(h[k - 1][i].times_spec(y[k - 1]))
    }
}

/// The unknowns `i..d` of the triangular system by back substitution, in a vector
/// of length `d`.
pub open spec fn back_from<T: Scalar>(h: Seq<Seq<T>>, g: Seq<T>, d: int, i: int) -> Seq<T>
    decreases d - i,
{
    if i >= d {
        zeros(d)
    } else {
        let y = back_from(h, g, d, i + 1);
        y.update(i, back_row(h, g, i, y, d).times_spec(h[i][i].recip_spec()))
    }
}

/// The least-squares solution of a sweep.
pub open spec fn least_squares<T: Scalar>(s: Sweep<T>) -> Seq<T> {
    back_from(s.h, s.g, sound_dim(s.h), 0)
}

/// `x + y_0 b_0 + ... `, the first `k` terms in their order.
pub open spec fn combined<T: Scalar>(x: Seq<T>, basis: Seq<Seq<T>>, y: Seq<T>, k: int) -> Seq<T>
    decreases k,
{
    if k <= 0 {
        x
    } else {
        plus_scaled(combined(x, basis, y, k - 1), basis[k - 1], y[k - 1])
    }
}

/// A sweep in progress.
pub struct Arnoldi<T: Scalar> {
    pub v: Vec<Vec<T>>,
    pub h: Vec<Vec<T>>,
    pub cs: Vec<T>,
    pub sn: Vec<T>,
    pub g: Vec<T>,
}

impl<T: Scalar> Arnoldi<T> {
    pub open spec fn view(&self) -> Sweep<T> {
        Sweep { v: views(self.v@), h: views(self.h@), cs: self.cs@, sn: self.sn@, g: self.g@ }
    }

    /// The parts fit together, for vectors of length `n`.
    pub open spec fn wf(&self, n: int) -> bool {
        &&& self.v@.len() == self.h@.len() + 1
        &&& self.cs@.len() == self.h@.len()
        &&& self.sn@.len() == self.h@.len()
        &&& self.g@.len() == self.h@.len() + 1
        &&& forall|i: int| 0 <= i < self.v@.len() ==> (#[trigger] self.v@[i])@.len() == n
        &&& forall|i: int| 0 <= i < self.h@.len() ==> (#[trigger] self.h@[i])@.len() == i + 1
    }

    /// Start from a residual of norm `beta`.
    pub fn start(r: &[T], beta: T::Real) -> (s: Self)
        ensures
            s@ == opened(r@, beta),
            s.wf(r@.len() as int),
            s.h@.len() == 0,
    {
        let inv = T::from_real(<T::Real as Real>::one().over(beta));
        let first = multiple(r, inv);
        let mut v: Vec<Vec<T>> = Vec::new();
        v.push(first);
        let mut g: Vec<T> = Vec::new();
        g.push(T::from_real(beta));
        let s = Arnoldi { v, h: Vec::new(), cs: Vec::new(), sn: Vec::new(), g };
        assert(s@ =~= opened(r@, beta));
        s
    }

    /// Add the step with projections `hs` and rest `w` of norm `hn`.
    #[verifier::rlimit(30)]
    pub fn finish_step(&mut self, hs: Vec<T>, w: &[T], hn: T::Real)
        requires
            old(self).wf(w@.len() as int),
            hs@.len() == old(self).h@.len() + 1,
        ensures
            final(self).wf(w@.len() as int),
            final(self)@ == closed_with(old(self)@, hs@, w@, hn),
            final(self).h@.len() == old(self).h@.len() + 1,
    {
        let ghost s0 = self@;
        let ghost me = *self;
        let j: usize = self.h.len();
        let next: Vec<T> = if hn.gt(<T::Real as Real>::zero()) {
            multiple(w, T::from_real(<T::Real as Real>::one().over(hn)))
        } else {
            zero_vector::<T>(w.len())
        };
        let mut col: Vec<T> = hs;
        col.push(T::from_real(hn));
        let ghost col0 = col@;
        let mut i: usize = 0;
        while i < j
            invariant
                i <= j,
                col0.len() == j + 2,
                col@.len() == j + 2,
                *self == me,
                self.cs@.len() == j,
                self.sn@.len() == j,
                col@ == rotated(col0, self.cs@, self.sn@, i as int),
            decreases j - i,
        {
            let upper = self.cs[i].conj().times(col[i]).plus(self.sn[i].conj().times(col[i + 1]));
            let lower = self.sn[i].negate().times(col[i]).plus(self.cs[i].times(col[i + 1]));
            col.set(i + 1, lower);
            col.set(i, upper);
            i = i + 1;
        }
        let ghost full = col@;
        let len: usize = col.len();
        assert(len == j + 2);
        let (c, t) = givens(col[j], col[j + 1]);
        let top = c.conj().times(col[j]).plus(t.conj().times(col[j + 1]));
        let _ = col.pop();
        col.set(j, top);
        assert(col@ =~= full.take(j as int).push(top));
        let gj = self.g[j];
        let low = t.negate().times(gj);
        self.g.set(j, c.conj().times(gj));
        self.g.push(low);
        self.cs.push(c);
        self.sn.push(t);
        self.h.push(col);
        self.v.push(next);
        proof {
            assert(views(self.v@) =~= views(me.v@).push(next@));
            assert(views(self.h@) =~= views(me.h@).push(col@));
            assert(next@ =~= direction(w@, hn));
            assert(self@ =~= closed_with(s0, hs@, w@, hn));
        }
    }

    /// One step of a single-vector sweep.
    pub fn grow(&mut self, w: Vec<T>)
        requires
            old(self).wf(w@.len() as int),
        ensures
            final(self).wf(w@.len() as int),
            final(self)@ == grown(old(self)@, w@),
            final(self).h@.len() == old(self).h@.len() + 1,
    {
        proof {
            reveal(grown);
        }
        let (hs, u) = self.mgs_project(w);
        let hn = norm2(u.as_slice());
        self.finish_step(hs, u.as_slice(), hn);
    }

    fn mgs_pass(&self, w: &mut Vec<T>) -> (hs: Vec<T>)
        requires
            self.wf(old(w)@.len() as int),
        ensures
            final(w)@.len() == old(w)@.len(),
            (final(w)@, hs@) == mgs(self@.v, old(w)@, self.v@.len() as int),
            hs@.len() == self.v@.len(),
    {
        let ghost w0 = w@;
        let mut hs: Vec<T> = Vec::new();
        let mut i: usize = 0;
        while i < self.v.len()
            invariant
                i <= self.v@.len(),
                self.wf(w0.len() as int),
                w@.len() == w0.len(),
                hs@.len() == i,
                (w@, hs@) == mgs(self@.v, w0, i as int),
            decreases self.v@.len() - i,
        {
            assert(self@.v[i as int] == self.v@[i as int]@);
            let h = dotc(self.v[i].as_slice(), w.as_slice());
            subtract_multiple(w, h, self.v[i].as_slice());
            hs.push(h);
            i = i + 1;
        }
        hs
    }

    fn mgs_project(&self, w: Vec<T>) -> (r: (Vec<T>, Vec<T>))
        requires
            self.wf(w@.len() as int),
        ensures
            (r.0@, r.1@) == mgs_orthogonal(self@.v, w@),
            r.0@.len() == self.v@.len(),
            r.1@.len() == w@.len(),
    {
        let wnorm = norm2(w.as_slice());
        let mut u = w;
        let hs = self.mgs_pass(&mut u);
        let eta = <T::Real as Real>::one().over(<T::Real as Real>::from_count(2)).sqrt();
        if eta.times(wnorm).gt(norm2(u.as_slice())) {
            let hs2 = self.mgs_pass(&mut u);
            (sum_lists(&hs, &hs2), u)
        } else {
            (hs, u)
        }
    }

    /// One step of a panel sweep.
    pub fn panel_grow(&mut self, w: Vec<T>)
        requires
            old(self).wf(w@.len() as int),
        ensures
            final(self).wf(w@.len() as int),
            final(self)@ == panel_grown(old(self)@, w@),
            final(self).h@.len() == old(self).h@.len() + 1,
    {
        proof {
            reveal(panel_grown);
        }
        let wnorm = norm2(w.as_slice());
        let hs = self.project(&w);
        let mut u = w;
        self.subtract(&mut u, &hs);
        let eta = <T::Real as Real>::one().over(<T::Real as Real>::from_count(2)).sqrt();
        if eta.times(wnorm).gt(norm2(u.as_slice())) {
            let hs2 = self.project(&u);
            self.subtract(&mut u, &hs2);
            let both = sum_lists(&hs, &hs2);
            let hn = norm2(u.as_slice());
            self.finish_step(both, u.as_slice(), hn);
        } else {
            let hn = norm2(u.as_slice());
            self.finish_step(hs, u.as_slice(), hn);
        }
    }

    fn project(&self, w: &Vec<T>) -> (hs: Vec<T>)
        requires
            self.wf(w@.len() as int),
        ensures
            hs@ == projections(self@.v, w@),
            hs@.len() == self.v@.len(),
    {
        let mut hs: Vec<T> = Vec::new();
        let mut i: usize = 0;
        while i < self.v.len()
            invariant
                i <= self.v@.len(),
                self.wf(w@.len() as int),
                hs@.len() == i,
                forall|q: int| 0 <= q < i ==> #[trigger] hs@[q] == projections(self@.v, w@)[q],
            decreases self.v@.len() - i,
        {
            hs.push(dotc_chunked(self.v[i].as_slice(), w.as_slice()));
            i = i + 1;
        }
        assert(hs@ =~= projections(self@.v, w@));
        hs
    }

    fn subtract(&self, w: &mut Vec<T>, hs: &Vec<T>)
        requires
            self.wf(old(w)@.len() as int),
            hs@.len() == self.v@.len(),
        ensures
            final(w)@.len() == old(w)@.len(),
            final(w)@ == without(self@.v, old(w)@, hs@, self.v@.len() as int),
    {
        let ghost w0 = w@;
        let mut i: usize = 0;
        while i < self.v.len()
            invariant
                i <= self.v@.len(),
                self.wf(w0.len() as int),
                hs@.len() == self.v@.len(),
                w@.len() == w0.len(),
                w@ == without(self@.v, w0, hs@, i as int),
            decreases self.v@.len() - i,
        {
            if !hs[i].is_zero() {
                subtract_multiple(w, hs[i], self.v[i].as_slice());
            }
            i = i + 1;
        }
    }

    /// The residual that the least-squares problem promises.
    pub fn estimate(&self) -> (r: T::Real)
        requires
            self.g@.len() > 0,
        ensures
            r == promised(self@),
    {
        self.g[self.g.len() - 1].magnitude()
    }

    /// How many leading columns can be solved with. A stagnated sweep is cut off
    /// before its first negligible diagonal.
    pub fn well_conditioned_dim(&self, Ghost(n): Ghost<int>) -> (r: usize)
        requires
            self.wf(n),
        ensures
            r == sound_dim(self@.h),
            r <= self.h@.len(),
    {
        let d: usize = self.h.len();
        let ghost h = self@.h;
        let mut hmax: T::Real = <T::Real as Real>::zero();
        let mut i: usize = 0;
        while i < d
            invariant
                i <= d,
                d == self.h@.len(),
                self.wf(n),
                h == self@.h,
                hmax == diagonal_max(h, i as int),
            decreases d - i,
        {
            assert(h[i as int] == self.h@[i as int]@);
            hmax = hmax.maximum(self.h[i][i].magnitude());
            i = i + 1;
        }
        let thresh = <T::Real as Real>::epsilon().times(hmax);
        let mut k: usize = 0;
        while k < d
            invariant
                k <= d,
                d == self.h@.len(),
                self.wf(n),
                h == self@.h,
                h.len() == d,
                sound_from(h, thresh, 0) == sound_from(h, thresh, k as int),
                thresh == <T::Real as Real>::epsilon_spec().times_spec(
                    diagonal_max(h, h.len() as int),
                ),
            decreases d - k,
        {
            assert(h[k as int] == self.h@[k as int]@);
            if thresh.ge(self.h[k][k].magnitude()) {
                return k;
            }
            k = k + 1;
        }
        d
    }

    /// Solve the triangular least-squares system.
    pub fn solve(&self, Ghost(n): Ghost<int>) -> (y: Vec<T>)
        requires
            self.wf(n),
        ensures
            y@ == least_squares(self@),
            y@.len() == sound_dim(self@.h),
            y@.len() <= self.h@.len(),
    {
        let d: usize = self.well_conditioned_dim(Ghost(n));
        let ghost h = self@.h;
        let mut y = zero_vector::<T>(d);
        let mut i: usize = d;
        while i > 0
            invariant
                i <= d,
                d <= self.h@.len(),
                self.wf(n),
                h == self@.h,
                y@.len() == d,
                y@ == back_from(h, self.g@, d as int, i as int),
            decreases i,
        {
            let q: usize = i - 1;
            let mut acc = self.g[q];
            let mut k: usize = i;
            while k < d
                invariant
                    i == q + 1,
                    i <= k <= d,
                    d <= self.h@.len(),
                    self.wf(n),
                    h == self@.h,
                    y@.len() == d,
                    acc == back_row(h, self.g@, q as int, y@, k as int),
                decreases d - k,
            {
                assert(h[k as int] == self.h@[k as int]@);
                acc = acc.minus(self.h[k][q].times(y[k]));
                k = k + 1;
            }
            assert(h[q as int] == self.h@[q as int]@);
            let v = acc.times(self.h[q][q].recip());
            y.set(q, v);
            i = q;
        }
        y
    }
}

fn sum_lists<T: Scalar>(a: &Vec<T>, b: &Vec<T>) -> (r: Vec<T>)
    requires
        a@.len() == b@.len(),
    ensures
        r@ == summed(a@, b@),
{
    let mut r: Vec<T> = Vec::new();
    let mut k: usize = 0;
    while k < a.len()
        invariant
            k <= a@.len(),
            a@.len() == b@.len(),
            r@.len() == k,
            forall|i: int| 0 <= i < k ==> #[trigger] r@[i] == summed(a@, b@)[i],
        decreases a@.len() - k,
    {
        r.push(a[k].plus(b[k]));
        k = k + 1;
    }
    assert(r@ =~= summed(a@, b@));
    r
}

/// Add a combination of the leading basis vectors to `x`.
pub fn combine<T: Scalar>(x: &mut Vec<T>, basis: &Vec<Vec<T>>, y: &Vec<T>)
    requires
        y@.len() <= basis@.len(),
        forall|i: int| 0 <= i < y@.len() ==> (#[trigger] basis@[i])@.len() == old(x)@.len(),
    ensures
        final(x)@.len() == old(x)@.len(),
        final(x)@ == combined(old(x)@, views(basis@), y@, y@.len() as int),
{
    let ghost x0 = x@;
    let mut i: usize = 0;
    while i < y.len()
        invariant
            i <= y@.len() <= basis@.len(),
            forall|q: int| 0 <= q < y@.len() ==> (#[trigger] basis@[q])@.len() == x0.len(),
            x@.len() == x0.len(),
            x@ == combined(x0, views(basis@), y@, i as int),
        decreases y@.len() - i,
    {
        add_scaled(x, basis[i].as_slice(), y[i]);
        i = i + 1;
    }
}

} // verus!
