//! The vector operations of the iterations.

use crate::scalar::Scalar;
use vstd::prelude::*;

verus! {

/// `x^T y` over the first `k` entries, without conjugation.
pub open spec fn dotu_upto<T: Scalar>(x: Seq<T>, y: Seq<T>, k: int) -> T
    decreases k,
{
    if k <= 0 {
        T::zero_spec()
    } else {
        dotu_upto(x, y, k - 1).plus_spec(x[k - 1].times_spec(y[k - 1]))
    }
}

/// The bilinear product `x^T y`.
pub open spec fn dotu_of<T: Scalar>(x: Seq<T>, y: Seq<T>) -> T {
    dotu_upto(x, y, x.len() as int)
}

/// The bilinear product of two vectors.
pub fn dotu<T: Scalar>(x: &[T], y: &[T]) -> (r: T)
    requires
        x@.len() == y@.len(),
    ensures
        r == dotu_of(x@, y@),
{
    let mut s = T::zero();
    let mut k: usize = 0;
    while k < x.len()
        invariant
            k <= x@.len(),
            x@.len() == y@.len(),
            s == dotu_upto(x@, y@, k as int),
        decreases x@.len() - k,
    {
        s = s.plus(x[k].times(y[k]));
        k = k + 1;
    }
    s
}

/// `x^H y` over the entries `lo..k`.
pub open spec fn dotc_between<T: Scalar>(x: Seq<T>, y: Seq<T>, lo: int, k: int) -> T
    decreases k - lo,
{
    if k <= lo {
        T::zero_spec()
    } else {
        dotc_between(x, y, lo, k - 1).plus_spec(x[k - 1].conj_spec().times_spec(y[k - 1]))
    }
}

/// The Hermitian product `x^H y`.
pub open spec fn dotc_of<T: Scalar>(x: Seq<T>, y: Seq<T>) -> T {
    dotc_between(x, y, 0, x.len() as int)
}

fn dotc_range<T: Scalar>(x: &[T], y: &[T], lo: usize, hi: usize) -> (r: T)
    requires
        x@.len() == y@.len(),
        lo <= hi <= x@.len(),
    ensures
        r == dotc_between(x@, y@, lo as int, hi as int),
{
    let mut s = T::zero();
    let mut k: usize = lo;
    while k < hi
        invariant
            lo <= k <= hi <= x@.len(),
            x@.len() == y@.len(),
            s == dotc_between(x@, y@, lo as int, k as int),
        decreases hi - k,
    {
        s = s.plus(x[k].conj().times(y[k]));
        k = k + 1;
    }
    s
}

/// The Hermitian product of two vectors.
pub fn dotc<T: Scalar>(x: &[T], y: &[T]) -> (r: T)
    requires
        x@.len() == y@.len(),
    ensures
        r == dotc_of(x@, y@),
{
    dotc_range(x, y, 0, x.len())
}

/// Rows that one partial sum of a panel product covers.
pub const ORTHO_CHUNK: usize = 2048;

/// `x^H y` over the first `k` chunks: partial sums of [`ORTHO_CHUNK`] rows, added
/// in their order.
pub open spec fn chunked_upto<T: Scalar>(x: Seq<T>, y: Seq<T>, k: int) -> T
    decreases k,
{
    if k <= 0 {
        T::zero_spec()
    } else {
        let lo = (k - 1) * ORTHO_CHUNK;
        let hi = if k * ORTHO_CHUNK <= x.len() {
            k * ORTHO_CHUNK
        } else {
            x.len() as int
        };
        chunked_upto(x, y, k - 1).plus_spec(dotc_between(x, y, lo, hi))
    }
}

/// The Hermitian product in chunks.
pub open spec fn chunked_of<T: Scalar>(x: Seq<T>, y: Seq<T>) -> T {
    chunked_upto(x, y, (x.len() + ORTHO_CHUNK - 1) / ORTHO_CHUNK as int)
}

/// The Hermitian product of two vectors, in chunks whose bounds depend on the
/// length alone.
pub fn dotc_chunked<T: Scalar>(x: &[T], y: &[T]) -> (r: T)
    requires
        x@.len() == y@.len(),
    ensures
        r == chunked_of(x@, y@),
{
    let n: usize = x.len();
    let mut s = T::zero();
    let mut lo: usize = 0;
    let ghost mut k: int = 0;
    while lo < n
        invariant
            n == x@.len(),
            x@.len() == y@.len(),
            lo <= n,
            k >= 0,
            lo == (if k * ORTHO_CHUNK <= n {
                k * ORTHO_CHUNK
            } else {
                n as int
            }),
            (k - 1) * ORTHO_CHUNK < n || n == 0 && k == 0,
            s == chunked_upto(x@, y@, k),
        decreases n - lo,
    {
        let hi: usize = if n - lo <= ORTHO_CHUNK {
            n
        } else {
            lo + ORTHO_CHUNK
        };
        s = s.plus(dotc_range(x, y, lo, hi));
        lo = hi;
        proof {
            k = k + 1;
        }
    }
    assert(k == (n + ORTHO_CHUNK - 1) / ORTHO_CHUNK as int);
    s
}

/// `x + a p`.
pub open spec fn plus_multiple<T: Scalar>(x: Seq<T>, a: T, p: Seq<T>) -> Seq<T> {
    Seq::new(x.len(), |i: int| x[i].plus_spec(a.times_spec(p[i])))
}

/// `x - a p`.
pub open spec fn minus_multiple<T: Scalar>(x: Seq<T>, a: T, p: Seq<T>) -> Seq<T> {
    Seq::new(x.len(), |i: int| x[i].minus_spec(a.times_spec(p[i])))
}

/// `x + p a`, the factor on the right.
pub open spec fn plus_scaled<T: Scalar>(x: Seq<T>, p: Seq<T>, a: T) -> Seq<T> {
    Seq::new(x.len(), |i: int| x[i].plus_spec(p[i].times_spec(a)))
}

/// `x + y`.
pub open spec fn plus_vector<T: Scalar>(x: Seq<T>, y: Seq<T>) -> Seq<T> {
    Seq::new(x.len(), |i: int| x[i].plus_spec(y[i]))
}

/// `x - y`.
pub open spec fn minus_vector<T: Scalar>(x: Seq<T>, y: Seq<T>) -> Seq<T> {
    Seq::new(x.len(), |i: int| x[i].minus_spec(y[i]))
}

/// `x a`.
pub open spec fn scaled<T: Scalar>(x: Seq<T>, a: T) -> Seq<T> {
    Seq::new(x.len(), |i: int| x[i].times_spec(a))
}

/// `x + a p` in place.
pub fn add_multiple<T: Scalar>(x: &mut Vec<T>, a: T, p: &[T])
    requires
        old(x)@.len() == p@.len(),
    ensures
        final(x)@ == plus_multiple(old(x)@, a, p@),
{
    let ghost x0 = x@;
    let n: usize = x.len();
    let mut k: usize = 0;
    while k < n
        invariant
            k <= n,
            x@.len() == n,
            x0.len() == n,
            p@.len() == n,
            forall|i: int| 0 <= i < k ==> #[trigger] x@[i] == plus_multiple(x0, a, p@)[i],
            forall|i: int| k <= i < n ==> #[trigger] x@[i] == x0[i],
        decreases n - k,
    {
        let v = x[k].plus(a.times(p[k]));
        x.set(k, v);
        k = k + 1;
    }
    assert(x@ =~= plus_multiple(x0, a, p@));
}

/// `x - a p` in place.
pub fn subtract_multiple<T: Scalar>(x: &mut Vec<T>, a: T, p: &[T])
    requires
        old(x)@.len() == p@.len(),
    ensures
        final(x)@ == minus_multiple(old(x)@, a, p@),
{
    let ghost x0 = x@;
    let n: usize = x.len();
    let mut k: usize = 0;
    while k < n
        invariant
            k <= n,
            x@.len() == n,
            x0.len() == n,
            p@.len() == n,
            forall|i: int| 0 <= i < k ==> #[trigger] x@[i] == minus_multiple(x0, a, p@)[i],
            forall|i: int| k <= i < n ==> #[trigger] x@[i] == x0[i],
        decreases n - k,
    {
        let v = x[k].minus(a.times(p[k]));
        x.set(k, v);
        k = k + 1;
    }
    assert(x@ =~= minus_multiple(x0, a, p@));
}

/// `x + p a` in place.
pub fn add_scaled<T: Scalar>(x: &mut Vec<T>, p: &[T], a: T)
    requires
        old(x)@.len() == p@.len(),
    ensures
        final(x)@ == plus_scaled(old(x)@, p@, a),
{
    let ghost x0 = x@;
    let n: usize = x.len();
    let mut k: usize = 0;
    while k < n
        invariant
            k <= n,
            x@.len() == n,
            x0.len() == n,
            p@.len() == n,
            forall|i: int| 0 <= i < k ==> #[trigger] x@[i] == plus_scaled(x0, p@, a)[i],
            forall|i: int| k <= i < n ==> #[trigger] x@[i] == x0[i],
        decreases n - k,
    {
        let v = x[k].plus(p[k].times(a));
        x.set(k, v);
        k = k + 1;
    }
    assert(x@ =~= plus_scaled(x0, p@, a));
}

/// `x + y` in place.
pub fn add_vector<T: Scalar>(x: &mut Vec<T>, y: &[T])
    requires
        old(x)@.len() == y@.len(),
    ensures
        final(x)@ == plus_vector(old(x)@, y@),
{
    let ghost x0 = x@;
    let n: usize = x.len();
    let mut k: usize = 0;
    while k < n
        invariant
            k <= n,
            x@.len() == n,
            x0.len() == n,
            y@.len() == n,
            forall|i: int| 0 <= i < k ==> #[trigger] x@[i] == plus_vector(x0, y@)[i],
            forall|i: int| k <= i < n ==> #[trigger] x@[i] == x0[i],
        decreases n - k,
    {
        let v = x[k].plus(y[k]);
        x.set(k, v);
        k = k + 1;
    }
    assert(x@ =~= plus_vector(x0, y@));
}

/// `z + a p`.
pub fn sum_multiple<T: Scalar>(z: &[T], a: T, p: &[T]) -> (r: Vec<T>)
    requires
        z@.len() == p@.len(),
    ensures
        r@ == plus_multiple(z@, a, p@),
{
    let n: usize = z.len();
    let mut r: Vec<T> = Vec::new();
    let mut k: usize = 0;
    while k < n
        invariant
            k <= n,
            z@.len() == n,
            p@.len() == n,
            r@.len() == k,
            forall|i: int| 0 <= i < k ==> #[trigger] r@[i] == plus_multiple(z@, a, p@)[i],
        decreases n - k,
    {
        r.push(z[k].plus(a.times(p[k])));
        k = k + 1;
    }
    assert(r@ =~= plus_multiple(z@, a, p@));
    r
}

/// `x - y`.
pub fn difference<T: Scalar>(x: &[T], y: &[T]) -> (r: Vec<T>)
    requires
        x@.len() == y@.len(),
    ensures
        r@ == minus_vector(x@, y@),
{
    let n: usize = x.len();
    let mut r: Vec<T> = Vec::new();
    let mut k: usize = 0;
    while k < n
        invariant
            k <= n,
            x@.len() == n,
            y@.len() == n,
            r@.len() == k,
            forall|i: int| 0 <= i < k ==> #[trigger] r@[i] == minus_vector(x@, y@)[i],
        decreases n - k,
    {
        r.push(x[k].minus(y[k]));
        k = k + 1;
    }
    assert(r@ =~= minus_vector(x@, y@));
    r
}

/// `x a`.
pub fn multiple<T: Scalar>(x: &[T], a: T) -> (r: Vec<T>)
    ensures
        r@ == scaled(x@, a),
{
    let n: usize = x.len();
    let mut r: Vec<T> = Vec::new();
    let mut k: usize = 0;
    while k < n
        invariant
            k <= n,
            x@.len() == n,
            r@.len() == k,
            forall|i: int| 0 <= i < k ==> #[trigger] r@[i] == scaled(x@, a)[i],
        decreases n - k,
    {
        r.push(x[k].times(a));
        k = k + 1;
    }
    assert(r@ =~= scaled(x@, a));
    r
}

} // verus!
