//! What the operators compute.

use crate::algebra::sum;
use crate::krylov::operator::{symmetric_upto, with_entries, LinearOperator, SymmetricCsc};
use crate::scalar::{Field, Scalar};
use crate::sparse::{column_range, GeneralCsc};
use vstd::prelude::*;

verus! {

/// What entry `q` of column `j` of a lower triangle adds to row `i` of the product
/// of the whole symmetric matrix with `x`: the entry in the row itself, or its
/// mirror image.
pub open spec fn mirrored<T: Scalar>(
    a: GeneralCsc<T>,
    x: Seq<T>,
    i: int,
    j: int,
    q: int,
) -> T {
    let r = a.rows_of(j)[q] as int;
    let v = a.vals_of(j)[q];
    if r == i {
        v.times_spec(x[j])
    } else if j == i {
        v.times_spec(x[r])
    } else {
        T::zero_spec()
    }
}

/// What column `j` adds to row `i`.
pub open spec fn mirrored_column<T: Scalar>(a: GeneralCsc<T>, x: Seq<T>, i: int, j: int) -> T {
    sum(a.rows_of(j).len(), |q: int| mirrored(a, x, i, j, q))
}

proof fn entries_mirror<T: Field>(
    a: GeneralCsc<T>,
    x: Seq<T>,
    y: Seq<T>,
    i: int,
    j: int,
    q: int,
)
    requires
        a.wf(),
        y.len() == a.n,
        0 <= i < a.n,
        0 <= j < a.n,
        0 <= q <= a.rows_of(j).len(),
    ensures
        ({
            let w = with_entries(y, a.rows_of(j), a.vals_of(j), j, x, q);
            &&& w.len() == a.n
            &&& w[i] == y[i].plus_spec(sum(q as nat, |p: int| mirrored(a, x, i, j, p)))
        }),
    decreases q,
{
    let f = |p: int| mirrored(a, x, i, j, p);
    if q == 0 {
        T::plus_zero(y[i]);
    } else {
        entries_mirror(a, x, y, i, j, q - 1);
        column_range(a, j);
        assert(a.rows_of(j)[q - 1] < a.n);
        let s = sum((q - 1) as nat, f);
        assert(sum(q as nat, f) == s.plus_spec(f(q - 1)));
        T::plus_assoc(y[i], s, f(q - 1));
        T::plus_zero(y[i].plus_spec(s));
    }
}

proof fn columns_mirror<T: Field>(a: GeneralCsc<T>, x: Seq<T>, i: int, j: int)
    requires
        a.wf(),
        0 <= i < a.n,
        0 <= j <= a.n,
    ensures
        symmetric_upto(a, x, j).len() == a.n,
        symmetric_upto(a, x, j)[i] == sum(j as nat, |c: int| mirrored_column(a, x, i, c)),
    decreases j,
{
    if j > 0 {
        columns_mirror(a, x, i, j - 1);
        let f = |c: int| mirrored_column(a, x, i, c);
        assert(sum(j as nat, f) == sum((j - 1) as nat, f).plus_spec(f(j - 1)));
        entries_mirror(
            a,
            x,
            symmetric_upto(a, x, j - 1),
            i,
            j - 1,
            a.rows_of(j - 1).len() as int,
        );
    }
}

/// In exact arithmetic the product with a symmetric matrix given by its lower
/// triangle is that with the whole matrix: row `i` takes every entry of the row and
/// the mirror image of every entry of column `i`, the diagonal once.
pub proof fn symmetric_product_is_that_of_the_whole<T: Field>(
    op: SymmetricCsc<T>,
    x: Seq<T>,
    i: int,
)
    requires
        op.lower.wf(),
        0 <= i < op.lower.n,
    ensures
        op.image(x).len() == op.lower.n,
        op.image(x)[i] == sum(
            op.lower.n as nat,
            |j: int| mirrored_column(op.lower, x, i, j),
        ),
{
    columns_mirror(op.lower, x, i, op.lower.n as int);
}

} // verus!
