//! Matrix-free solves: the operator and the preconditioner as closures.
//!
//! A closure works on a column-major panel of `s` columns at a time. It may keep
//! scratch of its own; what it answers for a column is all that counts.

use crate::error::RslabError;
use crate::flat::norm_of;
use crate::krylov::block::{gmres_block, BlockKrylovResult};
use crate::krylov::cg::{solved_at_once, KrylovResult};
use crate::krylov::gmres::{first_iterate, gmres, gmres_made, gmres_refused};
use crate::krylov::operator::{panel_column, LinearOperator, Preconditioner};
use crate::krylov::panel::{columns_of, first_panel, gmres_block_made, gmres_block_refused};
use crate::scalar::{Real, Scalar};
use vstd::prelude::*;

verus! {

/// The vector is a panel of `s` columns of length `n`.
pub open spec fn is_panel<T>(x: Seq<T>, n: int, s: int) -> bool {
    x.len() == n * s
}

/// The closure computes `image` of every column of a panel.
pub open spec fn multiplies<T: Scalar, F: Fn(&[T], usize) -> Vec<T>>(
    f: F,
    n: int,
    image: spec_fn(Seq<T>) -> Seq<T>,
) -> bool {
    &&& forall|x: &[T], s: usize|
        is_panel(x@, n, s as int) ==> #[trigger] call_requires(f, (x, s))
    &&& forall|x: &[T], s: usize, y: Vec<T>|
        is_panel(x@, n, s as int) && #[trigger] call_ensures(f, (x, s), y) ==> is_panel(
            y@,
            n,
            s as int,
        ) && forall|c: int|
            0 <= c < s ==> #[trigger] panel_column(y@, n, c) == image(panel_column(x@, n, c))
}

/// The closure answers every column of a panel as `gives` admits.
pub open spec fn answers<T: Scalar, G: Fn(&[T], usize) -> Result<Vec<T>, RslabError>>(
    g: G,
    gives: spec_fn(Seq<T>, Result<Seq<T>, RslabError>) -> bool,
) -> bool {
    &&& forall|r: &[T], s: usize| s > 0 ==> #[trigger] call_requires(g, (r, s))
    &&& forall|r: &[T], s: usize, n: int, z: Vec<T>|
        #![trigger call_ensures(g, (r, s), Ok::<Vec<T>, RslabError>(z)), is_panel(r@, n, s as int)]
        s > 0 && is_panel(r@, n, s as int) && call_ensures(g, (r, s), Ok::<Vec<T>, RslabError>(z))
            ==> z@.len() == r@.len() && forall|c: int|
            0 <= c < s ==> gives(panel_column(r@, n, c), Ok(#[trigger] panel_column(z@, n, c)))
    &&& forall|r: &[T], s: usize, n: int, e: RslabError|
        #![trigger call_ensures(g, (r, s), Err::<Vec<T>, RslabError>(e)), is_panel(r@, n, s as int)]
        s > 0 && is_panel(r@, n, s as int) && call_ensures(g, (r, s), Err::<Vec<T>, RslabError>(e))
            ==> exists|c: int| 0 <= c < s && gives(#[trigger] panel_column(r@, n, c), Err(e))
}

/// The closure can be called on every panel, and returns a panel of the same size
/// or an error.
pub open spec fn serves<T: Scalar, G: Fn(&[T], usize) -> Result<Vec<T>, RslabError>>(
    g: G,
) -> bool {
    &&& forall|r: &[T], s: usize| s > 0 ==> #[trigger] call_requires(g, (r, s))
    &&& forall|r: &[T], s: usize, n: int, z: Vec<T>|
        #![trigger call_ensures(g, (r, s), Ok::<Vec<T>, RslabError>(z)), is_panel(r@, n, s as int)]
        s > 0 && is_panel(r@, n, s as int) && call_ensures(g, (r, s), Ok::<Vec<T>, RslabError>(z))
            ==> z@.len() == r@.len()
}

/// A call of the closure on the panel `p` returned `w`, which answers `z` for
/// column `c`, that is for `r`.
pub open spec fn call_answers<T: Scalar, G: Fn(&[T], usize) -> Result<Vec<T>, RslabError>>(
    g: G,
    p: &[T],
    s: usize,
    n: int,
    w: Result<Vec<T>, RslabError>,
    c: int,
    r: Seq<T>,
    z: Result<Seq<T>, RslabError>,
) -> bool {
    &&& is_panel(p@, n, s as int)
    &&& 0 <= c < s
    &&& call_ensures(g, (p, s), w)
    &&& r == panel_column(p@, n, c)
    &&& z == (match w {
        Ok(v) => Ok::<Seq<T>, RslabError>(panel_column(v@, n, c)),
        Err(e) => Err(e),
    })
}

/// What calls of the closure answer.
pub open spec fn closure_gives<T: Scalar, G: Fn(&[T], usize) -> Result<Vec<T>, RslabError>>(
    g: G,
) -> spec_fn(Seq<T>, Result<Seq<T>, RslabError>) -> bool {
    |r: Seq<T>, z: Result<Seq<T>, RslabError>|
        exists|p: &[T], s: usize, n: int, w: Result<Vec<T>, RslabError>, c: int| #[trigger]
            call_answers(g, p, s, n, w, c, r, z)
}

/// A closure that serves answers as its calls do.
proof fn serves_as_called<T: Scalar, G: Fn(&[T], usize) -> Result<Vec<T>, RslabError>>(g: G)
    requires
        serves(g),
    ensures
        answers(g, closure_gives(g)),
{
    let gives = closure_gives(g);
    assert forall|r: &[T], s: usize, n: int, z: Vec<T>|
        #![trigger call_ensures(g, (r, s), Ok::<Vec<T>, RslabError>(z)), is_panel(r@, n, s as int)]
        s > 0 && is_panel(r@, n, s as int) && call_ensures(
            g,
            (r, s),
            Ok::<Vec<T>, RslabError>(z),
        ) implies z@.len() == r@.len() && forall|c: int|
        0 <= c < s ==> gives(panel_column(r@, n, c), Ok(#[trigger] panel_column(z@, n, c))) by {
        assert forall|c: int| 0 <= c < s implies gives(
            panel_column(r@, n, c),
            Ok(#[trigger] panel_column(z@, n, c)),
        ) by {
            assert(call_answers(
                g,
                r,
                s,
                n,
                Ok::<Vec<T>, RslabError>(z),
                c,
                panel_column(r@, n, c),
                Ok(panel_column(z@, n, c)),
            ));
        }
    }
    assert forall|r: &[T], s: usize, n: int, e: RslabError|
        #![trigger call_ensures(g, (r, s), Err::<Vec<T>, RslabError>(e)), is_panel(r@, n, s as int)]
        s > 0 && is_panel(r@, n, s as int) && call_ensures(
            g,
            (r, s),
            Err::<Vec<T>, RslabError>(e),
        ) implies exists|c: int| 0 <= c < s && gives(#[trigger] panel_column(r@, n, c), Err(e)) by {
        assert(call_answers(
            g,
            r,
            s,
            n,
            Err::<Vec<T>, RslabError>(e),
            0,
            panel_column(r@, n, 0),
            Err(e),
        ));
        assert(gives(panel_column(r@, n, 0), Err(e)));
    }
}

/// A panel product `Y = A X` as an operator, with what it computes.
#[verifier::reject_recursive_types(T)]
pub struct FnOp<T: Scalar, F: Fn(&[T], usize) -> Vec<T>> {
    pub f: F,
    pub dim: usize,
    pub model: Ghost<spec_fn(Seq<T>) -> Seq<T>>,
}

/// A panel preconditioner `Z = M^-1 R`, with what it may answer.
#[verifier::reject_recursive_types(T)]
pub struct FnPc<T: Scalar, G: Fn(&[T], usize) -> Result<Vec<T>, RslabError>> {
    pub g: G,
    pub model: Ghost<spec_fn(Seq<T>, Result<Seq<T>, RslabError>) -> bool>,
}

/// The only column of a one-column panel.
proof fn single_column<T>(x: Seq<T>, n: int)
    requires
        x.len() == n,
    ensures
        panel_column(x, n, 0) == x,
        is_panel(x, n, 1),
{
    assert(n * 0 == 0 && n * 1 == n);
    assert(panel_column(x, n, 0) =~= x);
}

impl<T: Scalar, F: Fn(&[T], usize) -> Vec<T>> LinearOperator<T> for FnOp<T, F> {
    open spec fn ready(&self) -> bool {
        multiplies(self.f, self.dim as int, self.model@)
    }

    open spec fn dim_spec(&self) -> int {
        self.dim as int
    }

    open spec fn image(&self, x: Seq<T>) -> Seq<T> {
        (self.model@)(x)
    }

    fn n(&self) -> (r: usize) {
        self.dim
    }

    fn apply(&self, x: &[T], y: &mut Vec<T>) {
        proof {
            single_column(x@, self.dim as int);
        }
        let v = (self.f)(x, 1);
        proof {
            assert(is_panel(v@, self.dim as int, 1));
            assert(self.dim * 1 == self.dim);
            single_column(v@, self.dim as int);
            assert(panel_column(v@, self.dim as int, 0) == self.image(
                panel_column(x@, self.dim as int, 0),
            ));
        }
        *y = v;
    }

    fn apply_block(&self, x: &[T], y: &mut Vec<T>, s: usize) {
        assert(is_panel(x@, self.dim as int, s as int));
        *y = (self.f)(x, s);
    }
}

impl<T: Scalar, G: Fn(&[T], usize) -> Result<Vec<T>, RslabError>> Preconditioner<T> for FnPc<T, G> {
    open spec fn ready(&self) -> bool {
        answers(self.g, self.model@)
    }

    open spec fn gives(&self, r: Seq<T>, z: Result<Seq<T>, RslabError>) -> bool {
        (self.model@)(r, z)
    }

    fn apply(&self, r: &[T], z: &mut Vec<T>) -> (res: Result<(), RslabError>) {
        let ghost n = r@.len() as int;
        proof {
            single_column(r@, n);
        }
        match (self.g)(r, 1) {
            Ok(v) => {
                proof {
                    single_column(v@, n);
                    assert(self.gives(panel_column(r@, n, 0), Ok(panel_column(v@, n, 0))));
                }
                *z = v;
                Ok(())
            },
            Err(e) => {
                proof {
                    let c = choose|c: int|
                        0 <= c < 1 && self.gives(#[trigger] panel_column(r@, n, c), Err(e));
                    assert(c == 0);
                }
                Err(e)
            },
        }
    }

    fn apply_block(&self, r: &[T], z: &mut Vec<T>, s: usize, n: usize) -> (res: Result<
        (),
        RslabError,
    >) {
        assert(is_panel(r@, n as int, s as int));
        match (self.g)(r, s) {
            Ok(v) => {
                *z = v;
                Ok(())
            },
            Err(e) => Err(e),
        }
    }
}

/// The operator of a closure, with what it computes.
pub open spec fn fn_op<T: Scalar, F: Fn(&[T], usize) -> Vec<T>>(
    f: F,
    n: usize,
    image: spec_fn(Seq<T>) -> Seq<T>,
) -> FnOp<T, F> {
    FnOp { f, dim: n, model: Ghost(image) }
}

/// The preconditioner of a closure, with what it may answer.
pub open spec fn fn_pc<T: Scalar, G: Fn(&[T], usize) -> Result<Vec<T>, RslabError>>(
    g: G,
    gives: spec_fn(Seq<T>, Result<Seq<T>, RslabError>) -> bool,
) -> FnPc<T, G> {
    FnPc { g, model: Ghost(gives) }
}

/// The outcome of a solve for one right-hand side from zero.
pub open spec fn gmres_outcome<T: Scalar, A: LinearOperator<T>, M: Preconditioner<T>>(
    op: A,
    m: M,
    b: Seq<T>,
    tol: T::Real,
    max_iter: int,
    restart: int,
    res: Result<KrylovResult<T>, RslabError>,
) -> bool {
    if b.len() != op.dim_spec() {
        res == Err::<KrylovResult<T>, RslabError>(
            RslabError::DimensionMismatch { expected: op.dim_spec() as usize, got: b.len() as usize },
        )
    } else if norm_of(b).is_zero_spec() {
        res is Ok && res->Ok_0.outcome() == solved_at_once::<T>(op.dim_spec())
    } else {
        let start = first_iterate(None::<&[T]>, op.dim_spec());
        match res {
            Ok(k) => gmres_made(op, m, b, tol, max_iter, restart, start, k.outcome()),
            Err(e) => gmres_refused(op, m, b, tol, max_iter, restart, start, e),
        }
    }
}

/// The outcome of a panel solve from zero.
pub open spec fn gmres_block_outcome<T: Scalar, A: LinearOperator<T>, M: Preconditioner<T>>(
    op: A,
    m: M,
    b: Seq<T>,
    s: int,
    tol: T::Real,
    max_iter: int,
    restart: int,
    res: Result<BlockKrylovResult<T>, RslabError>,
) -> bool {
    if s == 0 || b.len() != op.dim_spec() * s {
        res == Err::<BlockKrylovResult<T>, RslabError>(
            RslabError::DimensionMismatch {
                expected: (op.dim_spec() * s) as usize,
                got: b.len() as usize,
            },
        )
    } else {
        let bs = columns_of(b, op.dim_spec(), s);
        let start = first_panel(None::<&[T]>, bs, op.dim_spec());
        match res {
            Ok(k) => k.x@.len() == op.dim_spec() * s && gmres_block_made(
                op,
                m,
                bs,
                tol,
                max_iter,
                restart,
                start,
                k.outcome(op.dim_spec(), s),
            ),
            Err(e) => gmres_block_refused(op, m, bs, tol, max_iter, restart, start, e),
        }
    }
}

/// As [`gmres_block`] from zero, with closures for the panel product and the
/// panel preconditioner. An unpreconditioned solve passes the closure that
/// returns its argument. Every answer that the solve builds on was returned by a
/// call of `precond`.
pub fn gmres_block_fn<
    T: Scalar,
    F: Fn(&[T], usize) -> Vec<T>,
    G: Fn(&[T], usize) -> Result<Vec<T>, RslabError>,
>(
    op: F,
    precond: G,
    b: &[T],
    s: usize,
    n: usize,
    tol: T::Real,
    max_iter: usize,
    restart: usize,
) -> (res: Result<BlockKrylovResult<T>, RslabError>)
    requires
        exists|image: spec_fn(Seq<T>) -> Seq<T>| multiplies(op, n as int, image),
        serves(precond),
        n * s <= usize::MAX,
    ensures
        exists|image: spec_fn(Seq<T>) -> Seq<T>| #[trigger]
            multiplies(op, n as int, image) && gmres_block_outcome(
                fn_op(op, n, image),
                fn_pc(precond, closure_gives(precond)),
                b@,
                s as int,
                tol,
                max_iter as int,
                restart as int,
                res,
            ),
{
    let ghost image = choose|image: spec_fn(Seq<T>) -> Seq<T>| multiplies(op, n as int, image);
    let ghost gives = closure_gives(precond);
    proof {
        serves_as_called(precond);
    }
    let a = FnOp { f: op, dim: n, model: Ghost(image) };
    let m = FnPc { g: precond, model: Ghost(gives) };
    assert(a == fn_op(op, n, image));
    assert(m == fn_pc(precond, gives));
    gmres_block(&a, b, s, &m, tol, max_iter, restart, None)
}

/// As [`gmres`] from zero, with closures: see [`gmres_block_fn`].
pub fn gmres_fn<
    T: Scalar,
    F: Fn(&[T], usize) -> Vec<T>,
    G: Fn(&[T], usize) -> Result<Vec<T>, RslabError>,
>(
    op: F,
    precond: G,
    b: &[T],
    n: usize,
    tol: T::Real,
    max_iter: usize,
    restart: usize,
) -> (res: Result<KrylovResult<T>, RslabError>)
    requires
        exists|image: spec_fn(Seq<T>) -> Seq<T>| multiplies(op, n as int, image),
        serves(precond),
    ensures
        exists|image: spec_fn(Seq<T>) -> Seq<T>| #[trigger]
            multiplies(op, n as int, image) && gmres_outcome(
                fn_op(op, n, image),
                fn_pc(precond, closure_gives(precond)),
                b@,
                tol,
                max_iter as int,
                restart as int,
                res,
            ),
{
    let ghost image = choose|image: spec_fn(Seq<T>) -> Seq<T>| multiplies(op, n as int, image);
    let ghost gives = closure_gives(precond);
    proof {
        serves_as_called(precond);
    }
    let a = FnOp { f: op, dim: n, model: Ghost(image) };
    let m = FnPc { g: precond, model: Ghost(gives) };
    assert(a == fn_op(op, n, image));
    assert(m == fn_pc(precond, gives));
    gmres(&a, b, &m, tol, max_iter, restart, None)
}

} // verus!
