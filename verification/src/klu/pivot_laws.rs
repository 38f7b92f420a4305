//! What threshold pivoting and refinement are for: multipliers that stay bounded,
//! and corrections that come off the residual.

use crate::blr_laws::magnitude_of_product;
use crate::exact::{exact_complex, order_scales, product_sign, reorders};
use crate::klu::block::BlockLu;
use crate::klu::factor::KluFactors;
use crate::klu::model::{candidates, diag_state, elim, is_largest, prefers_diagonal};
use crate::klu::refine::refined_iterate;
use crate::krylov::laws::{matrices_are_linear, minus_sum};
use crate::krylov::operator::LinearOperator;
use crate::krylov::vectors::{minus_vector, plus_multiple};
use crate::matrix_ops::product;
use crate::scalar::{Field, Real};
use crate::seqs::occurs;
use crate::sparse::{col_map_at, dense, GeneralCsc, SparseColumn};
use vstd::prelude::*;

verus! {

/// No multiplier exceeds one over the pivot threshold: a stored entry of `L`,
/// times the threshold, is at most one in magnitude.
pub proof fn multipliers_are_bounded<T: Field>(
    val: spec_fn(T::Real) -> real,
    re: spec_fn(T) -> real,
    im: spec_fn(T) -> real,
    lu: BlockLu<T>,
    m: int,
    k: int,
    cols: Seq<SparseColumn<T>>,
    threshold: T::Real,
    c: int,
    q: int,
)
    requires
        exact_complex(val, re, im),
        val(threshold) > 0 as real,
        val(threshold) <= 1 as real,
        lu.partial(m, k, cols, threshold),
        0 <= c < k,
        0 <= q < lu.l_rows@[c]@.len(),
    ensures
        val(threshold) * val(lu.l_vals@[c]@[q].magnitude_spec()) <= 1 as real,
{
    let order = lu.u_rows@[c]@;
    let col = cols[c]@;
    let w = elim(dense(m, col), lu.piv@, lu.lm(), order, order.len() as int);
    let rows = lu.l_rows@[c]@;
    let r = rows[q] as int;
    let pivot = lu.piv@[c] as int;
    let cands = candidates(pivot, rows);
    let big = choose|big: int|
        #![trigger is_largest(w, cands, big)]
        is_largest(w, cands, big) && w[big].magnitude_spec().is_finite_spec() && pivot == (
        if prefers_diagonal(w, cands, big, diag_state(m, lu.piv@, c).0[c], threshold) {
            diag_state(m, lu.piv@, c).0[c]
        } else {
            big
        });
    let d = w[pivot];
    let l = lu.l_vals@[c]@[q];
    assert(occurs(rows, r));
    assert(cands.contains(r));
    col_map_at(rows, lu.l_vals@[c]@, q);
    assert(lu.lm()[c].contains_key(r));
    assert(l == w[r].over_spec(d));
    let (t, x, y, top) = (
        val(threshold),
        val(l.magnitude_spec()),
        val(d.magnitude_spec()),
        val(w[big].magnitude_spec()),
    );
    assert(top > 0 as real);
    assert(val(w[r].magnitude_spec()) <= top);
    assert(y >= t * top && y > 0 as real) by {
        product_sign(1 as real - t, top);
        assert((1 as real - t) * top == top - t * top) by (nonlinear_arith);
        product_sign(t, top);
    }
    assert(d != T::zero_spec()) by {
        T::zero_test(d);
    }
    T::over_times(w[r], d);
    magnitude_of_product(val, re, im, l, d);
    assert(x * y <= top);
    // (t x) y == t (x y) <= t top <= y
    order_scales(t, top, x * y);
    reorders(t, x, y);
    order_scales(y, 1 as real, t * x);
    reorders(t * x, y, 1 as real);
    assert(y * (1 as real) == y) by (nonlinear_arith);
}

/// A diagonal candidate that is not zero and large enough against the others,
/// threshold and all, is the pivot.
pub proof fn diagonal_is_kept<T: Field>(
    val: spec_fn(T::Real) -> real,
    re: spec_fn(T) -> real,
    im: spec_fn(T) -> real,
    lu: BlockLu<T>,
    m: int,
    k: int,
    cols: Seq<SparseColumn<T>>,
    threshold: T::Real,
    c: int,
)
    requires
        exact_complex(val, re, im),
        val(threshold) > 0 as real,
        lu.partial(m, k, cols, threshold),
        0 <= c < k,
    ensures
        ({
            let order = lu.u_rows@[c]@;
            let w = elim(dense(m, cols[c]@), lu.piv@, lu.lm(), order, order.len() as int);
            let diag = diag_state(m, lu.piv@, c).0[c];
            let cands = candidates(lu.piv@[c] as int, lu.l_rows@[c]@);
            cands.contains(diag) && val(w[diag].magnitude_spec()) > 0 as real && (forall|r: int|
                #[trigger]
                cands.contains(r) ==> val(w[diag].magnitude_spec()) >= val(threshold) * val(
                    w[r].magnitude_spec(),
                )) ==> lu.piv@[c] == diag
        }),
{
    let order = lu.u_rows@[c]@;
    let col = cols[c]@;
    let w = elim(dense(m, col), lu.piv@, lu.lm(), order, order.len() as int);
    let pivot = lu.piv@[c] as int;
    let diag = diag_state(m, lu.piv@, c).0[c];
    let cands = candidates(pivot, lu.l_rows@[c]@);
    let big = choose|big: int|
        #![trigger is_largest(w, cands, big)]
        is_largest(w, cands, big) && w[big].magnitude_spec().is_finite_spec() && pivot == (
        if prefers_diagonal(w, cands, big, diag, threshold) {
            diag
        } else {
            big
        });
    assert(cands.contains(big));
}

/// A correction of the refinement takes the image of the solve off the residual:
/// what is left after it is what the solve for the residual leaves of it.
pub proof fn correction_comes_off_the_residual<T: Field>(
    f: KluFactors<T>,
    a: GeneralCsc<T>,
    b: Seq<T>,
    k: int,
)
    requires
        0 <= k,
        b.len() == a.n,
        refined_iterate(f, a, b, k).len() == a.n,
        f.solution(minus_vector(b, product(a, refined_iterate(f, a, b, k)))).len() == a.n,
    ensures
        ({
            let r = minus_vector(b, product(a, refined_iterate(f, a, b, k)));
            minus_vector(b, product(a, refined_iterate(f, a, b, k + 1))) == minus_vector(
                r,
                product(a, f.solution(r)),
            )
        }),
{
    let x = refined_iterate(f, a, b, k);
    let r = minus_vector(b, product(a, x));
    let d = f.solution(r);
    let y = refined_iterate(f, a, b, k + 1);
    matrices_are_linear(a);
    assert(y =~= plus_multiple(x, T::one_spec(), d)) by {
        assert forall|i: int| 0 <= i < x.len() implies y[i] == plus_multiple(
            x,
            T::one_spec(),
            d,
        )[i] by {
            T::times_comm(T::one_spec(), d[i]);
            T::times_one(d[i]);
        }
    }
    assert(a.image(y) == plus_multiple(a.image(x), T::one_spec(), a.image(d)));
    assert(a.image(x).len() == a.n && a.image(d).len() == a.n);
    let left = minus_vector(b, product(a, y));
    let right = minus_vector(r, product(a, d));
    assert forall|i: int| 0 <= i < b.len() implies left[i] == right[i] by {
        T::times_comm(T::one_spec(), a.image(d)[i]);
        T::times_one(a.image(d)[i]);
        minus_sum(b[i], a.image(x)[i], a.image(d)[i]);
    }
    assert(left =~= right);
}

} // verus!
