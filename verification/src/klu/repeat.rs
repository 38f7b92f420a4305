//! Repeated factorizations agree to the last bit.
//!
//! The factors are a function of the analysis, the matrix, the pivot threshold
//! and the row scaling: neither a second run nor the parallel settings change
//! them.

use crate::error::RslabError;
use crate::klu::analyze::{
    analyzes, arranged, block_order, cheapest_form, fill_of, formed_by, is_whole, least_fill,
    ordered_by, own_transversal, put_in_order, settled_form, too_large, usable_offers,
};
use crate::klu::block::BlockLu;
use crate::klu::btf::{is_btf, is_form};
use crate::klu::factor::{
    block_columns, block_completes, columns_agree, completes, completes_or_fails, factor_refused,
    lacks_pivot, misfit, no_block_pivot, one_outcome, pivot_fails, pivots_chosen, KluFactors,
};
use crate::klu::form::{block_of, block_range, in_block, BtfForm};
use crate::klu::gather::row_scales;
use crate::klu::matching::{has_transversal, is_transversal};
use crate::klu::model::column_ok;
use crate::klu::ordering::{DegreeOrder, Reordering};
use crate::klu::settings::KluSettings;
use crate::klu::solver::{factor_outcome, KluSolver};
use crate::klu::symbolic::KluSymbolic;
use crate::klu::trace::{sweep, sweep_reads_views};
use crate::reach::lists_of;
use crate::scalar::Scalar;
use crate::seqs::{below, occurs, permutation_is_onto};
use crate::sparse::{col_map_at, position, GeneralCsc, SparseColumn};
use vstd::prelude::*;

verus! {

/// The two factored blocks hold the same lists and values.
pub open spec fn same_block<T>(x: BlockLu<T>, y: BlockLu<T>, m: int) -> bool {
    &&& x.piv@ == y.piv@
    &&& x.fin@ == y.fin@
    &&& x.d@ == y.d@
    &&& forall|c: int| 0 <= c < m ==> #[trigger] x.l_rows@[c]@ == y.l_rows@[c]@
    &&& forall|c: int| 0 <= c < m ==> #[trigger] x.l_vals@[c]@ == y.l_vals@[c]@
    &&& forall|c: int| 0 <= c < m ==> #[trigger] x.u_rows@[c]@ == y.u_rows@[c]@
    &&& forall|c: int| 0 <= c < m ==> #[trigger] x.u_vals@[c]@ == y.u_vals@[c]@
}

/// The settings that the factors depend on are the same.
pub open spec fn same_pivoting<R>(s1: KluSettings<R>, s2: KluSettings<R>) -> bool {
    &&& s1.pivot_threshold == s2.pivot_threshold
    &&& s1.row_scaling == s2.row_scaling
}

/// The pattern of a block of one column.
proof fn single_pattern<T: Scalar>(x: BlockLu<T>)
    requires
        x.ready(1),
    ensures
        x.piv@ =~= seq![0usize],
        x.fin@ =~= seq![0usize],
        x.l_rows@[0]@.len() == 0,
        x.u_rows@[0]@.len() == 0,
{
    assert(x.piv@[0] < 1 && x.fin@[x.piv@[0] as int] == 0);
    if x.l_rows@[0]@.len() > 0 {
        let r = x.l_rows@[0]@[0] as int;
        assert(occurs(x.l_rows@[0]@, r));
    }
    if x.u_rows@[0]@.len() > 0 {
        assert(below(x.u_rows@[0]@, 0));
        assert(x.u_rows@[0]@[0] < 0);
    }
}

/// Two factorizations of the same columns run the same course.
proof fn same_course<T: Scalar>(
    x: BlockLu<T>,
    y: BlockLu<T>,
    m: int,
    c1: Seq<SparseColumn<T>>,
    c2: Seq<SparseColumn<T>>,
    threshold: T::Real,
)
    requires
        0 < m,
        x.ready(m),
        y.ready(m),
        c1.len() == m,
        c2.len() == m,
        forall|c: int| 0 <= c < m ==> #[trigger] c1[c].rows@ == c2[c].rows@,
        forall|c: int| 0 <= c < m ==> #[trigger] c1[c].vals@ == c2[c].vals@,
        pivots_chosen(x, m, c1, threshold),
        pivots_chosen(y, m, c2, threshold),
    ensures
        x.piv@ == y.piv@,
        x.fin@ == y.fin@,
        x.lm() == y.lm(),
        forall|c: int| 0 <= c < m ==> #[trigger] x.l_rows@[c]@ == y.l_rows@[c]@,
        forall|c: int| 0 <= c < m ==> #[trigger] x.u_rows@[c]@ == y.u_rows@[c]@,
{
    if m == 1 {
        single_pattern(x);
        single_pattern(y);
        assert(x.l_rows@[0]@ =~= y.l_rows@[0]@);
        assert(x.u_rows@[0]@ =~= y.u_rows@[0]@);
        assert(x.lm()[0] =~= y.lm()[0]);
        assert(x.lm() =~= y.lm());
    } else {
        sweep_reads_views(m, c1, c2, threshold, m);
        let e1 = choose|ends: Seq<usize>|
            #![trigger x.moment(ends)]
            sweep(m, c1, threshold, m) == Some(x.moment(ends));
        let e2 = choose|ends: Seq<usize>|
            #![trigger y.moment(ends)]
            sweep(m, c2, threshold, m) == Some(y.moment(ends));
        assert(x.moment(e1) == y.moment(e2));
        assert forall|c: int| 0 <= c < m implies #[trigger] x.l_rows@[c]@ == y.l_rows@[c]@ by {
            assert(lists_of(x.l_rows@)[c] == lists_of(y.l_rows@)[c]);
        }
        assert forall|c: int| 0 <= c < m implies #[trigger] x.u_rows@[c]@ == y.u_rows@[c]@ by {
            assert(lists_of(x.u_rows@)[c] == lists_of(y.u_rows@)[c]);
        }
    }
}

/// The values follow from the columns, the pivots and the lists.
proof fn same_values<T: Scalar>(
    x: BlockLu<T>,
    y: BlockLu<T>,
    m: int,
    c1: Seq<SparseColumn<T>>,
    c2: Seq<SparseColumn<T>>,
)
    requires
        x.ready(m),
        y.ready(m),
        forall|c: int| 0 <= c < m ==> #[trigger] c1[c].rows@ == c2[c].rows@,
        forall|c: int| 0 <= c < m ==> #[trigger] c1[c].vals@ == c2[c].vals@,
        x.valued(m, m, c1),
        y.valued(m, m, c2),
        x.piv@ == y.piv@,
        x.fin@ == y.fin@,
        x.lm() == y.lm(),
        forall|c: int| 0 <= c < m ==> #[trigger] x.l_rows@[c]@ == y.l_rows@[c]@,
        forall|c: int| 0 <= c < m ==> #[trigger] x.u_rows@[c]@ == y.u_rows@[c]@,
    ensures
        same_block(x, y, m),
{
    assert forall|c: int| 0 <= c < m implies #[trigger] x.d@[c] == y.d@[c] && x.u_vals@[c]@
        == y.u_vals@[c]@ && x.l_vals@[c]@ == y.l_vals@[c]@ by {
        assert(c1[c].rows@ == c2[c].rows@);
        assert(c1[c].vals@ == c2[c].vals@);
        assert(c1[c]@ == c2[c]@);
        assert(x.l_rows@[c]@ == y.l_rows@[c]@);
        assert(x.u_rows@[c]@ == y.u_rows@[c]@);
        assert(column_ok(m, c, c1[c]@, x.piv@, x.lm(), x.u_rows@[c]@, x.u_vals@[c]@, x.d@[c]));
        assert(column_ok(m, c, c2[c]@, y.piv@, y.lm(), y.u_rows@[c]@, y.u_vals@[c]@, y.d@[c]));
        assert(x.u_vals@[c]@ =~= y.u_vals@[c]@);
        assert(x.l_vals@[c]@.len() == x.l_rows@[c]@.len());
        assert(y.l_vals@[c]@.len() == y.l_rows@[c]@.len());
        assert forall|q: int| 0 <= q < x.l_vals@[c]@.len() implies x.l_vals@[c]@[q] == y.l_vals@[c]@[q] by {
            col_map_at(x.l_rows@[c]@, x.l_vals@[c]@, q);
            col_map_at(y.l_rows@[c]@, y.l_vals@[c]@, q);
            assert(x.lm()[c] == y.lm()[c]);
        }
        assert(x.l_vals@[c]@ =~= y.l_vals@[c]@);
    }
    assert(x.d@ =~= y.d@);
    assert forall|c: int| 0 <= c < m implies #[trigger] x.l_vals@[c]@ == y.l_vals@[c]@ by {
        assert(x.d@[c] == y.d@[c]);
    }
    assert forall|c: int| 0 <= c < m implies #[trigger] x.u_vals@[c]@ == y.u_vals@[c]@ by {
        assert(x.d@[c] == y.d@[c]);
    }
}

/// Factoring the same matrix under the same analysis, threshold and row scaling
/// gives the same factors, whatever the parallel settings.
pub proof fn factorization_is_determined<T: Scalar>(
    sym: KluSymbolic,
    a: GeneralCsc<T>,
    s1: KluSettings<T::Real>,
    s2: KluSettings<T::Real>,
    f: KluFactors<T>,
    g: KluFactors<T>,
)
    requires
        f.factors(sym, a, s1),
        g.factors(sym, a, s2),
        same_pivoting(s1, s2),
    ensures
        f.rs_inv@ == g.rs_inv@,
        f.blocks@.len() == g.blocks@.len(),
        forall|b: int|
            0 <= b < f.blocks@.len() ==> same_block(#[trigger] f.blocks@[b], g.blocks@[b], f.size(b)),
        forall|j: int| 0 <= j < f.n ==> #[trigger] f.off@[j].rows@ == g.off@[j].rows@,
        forall|j: int| 0 <= j < f.n ==> #[trigger] f.off@[j].vals@ == g.off@[j].vals@,
{
    assert forall|b: int| 0 <= b < f.blocks@.len() implies same_block(
        #[trigger] f.blocks@[b],
        g.blocks@[b],
        f.size(b),
    ) by {
        let m = f.size(b);
        let x = f.blocks@[b];
        let y = g.blocks@[b];
        let thr = s1.pivot_threshold;
        block_range(f.n as int, f.block_ptr@, b);
        assert(f.block_covers(b) && g.block_covers(b));
        assert(f.block_valued(a, b) && g.block_valued(a, b));
        assert(f.block_pivoted(a, b, thr) && g.block_pivoted(a, b, thr));
        let c1 = choose|cols: Seq<SparseColumn<T>>| #[trigger]
            f.columns_of(a, b, cols) && x.valued(m, m, cols);
        let p1 = choose|cols: Seq<SparseColumn<T>>| #[trigger]
            f.columns_of(a, b, cols) && pivots_chosen(x, m, cols, thr);
        let c2 = choose|cols: Seq<SparseColumn<T>>| #[trigger]
            g.columns_of(a, b, cols) && y.valued(m, m, cols);
        let p2 = choose|cols: Seq<SparseColumn<T>>| #[trigger]
            g.columns_of(a, b, cols) && pivots_chosen(y, m, cols, thr);
        let bs = f.start(b);
        let be = f.block_ptr@[b + 1] as int;
        columns_agree(c1, p1, a, f.rs_inv@, f.pinv@, f.col_perm@, bs, be);
        columns_agree(c1, c2, a, f.rs_inv@, f.pinv@, f.col_perm@, bs, be);
        columns_agree(c1, p2, a, f.rs_inv@, f.pinv@, f.col_perm@, bs, be);
        columns_agree(p1, p2, a, f.rs_inv@, f.pinv@, f.col_perm@, bs, be);
        same_course(x, y, m, p1, p2, thr);
        same_values(x, y, m, c1, c2);
    }
    assert forall|j: int| 0 <= j < f.n implies #[trigger] f.off@[j].rows@ == g.off@[j].rows@
        && f.off@[j].vals@ == g.off@[j].vals@ by {
        let b = block_of(f.n as int, f.block_ptr@, j);
        assert(0 <= b < f.blocks@.len());
        assert(f.off_valued(a, b));
        assert(g.off_valued(a, b));
        assert(in_block(g.block_ptr@, b, j));
        assert(f.off@[j].rows@ =~= g.off@[j].rows@);
        assert(f.off@[j].vals@ =~= g.off@[j].vals@);
    }
    assert forall|j: int| 0 <= j < f.n implies #[trigger] f.off@[j].vals@ == g.off@[j].vals@ by {
        assert(f.off@[j].rows@ == g.off@[j].rows@);
    }
}

/// At most one column is the first without a pivot.
proof fn one_failure<T: Scalar>(
    sym: KluSymbolic,
    a: GeneralCsc<T>,
    settings: KluSettings<T::Real>,
    b1: int,
    k1: int,
    b2: int,
    k2: int,
)
    requires
        pivot_fails(sym, a, settings, b1, k1),
        pivot_fails(sym, a, settings, b2, k2),
    ensures
        b1 == b2,
        k1 == k2,
{
    if b1 < b2 {
        assert(block_completes(sym, a, settings, b1));
        completes_or_fails(sym, a, settings, b1, k1);
    } else if b2 < b1 {
        assert(block_completes(sym, a, settings, b2));
        completes_or_fails(sym, a, settings, b2, k2);
    } else {
        let bs = sym.block_ptr@[b1] as int;
        let be = sym.block_ptr@[b1 + 1] as int;
        let rs = row_scales(a, settings.row_scaling);
        let thr = settings.pivot_threshold;
        let c1 = choose|cols: Seq<SparseColumn<T>>| #[trigger]
            block_columns(cols, a, rs, sym.pinv_pre@, sym.col_perm@, bs, be) && no_block_pivot(
                be - bs,
                k1,
                cols,
                thr,
            );
        let c2 = choose|cols: Seq<SparseColumn<T>>| #[trigger]
            block_columns(cols, a, rs, sym.pinv_pre@, sym.col_perm@, bs, be) && no_block_pivot(
                be - bs,
                k2,
                cols,
                thr,
            );
        columns_agree(c1, c2, a, rs, sym.pinv_pre@, sym.col_perm@, bs, be);
        one_outcome(be - bs, c1, c2, thr, k1);
    }
}

/// Which column lacks a pivot does not depend on the other settings.
proof fn same_failures<T: Scalar>(
    sym: KluSymbolic,
    a: GeneralCsc<T>,
    s1: KluSettings<T::Real>,
    s2: KluSettings<T::Real>,
    b: int,
    k: int,
)
    requires
        same_pivoting(s1, s2),
        pivot_fails(sym, a, s1, b, k),
    ensures
        pivot_fails(sym, a, s2, b, k),
{
    assert forall|b2: int| 0 <= b2 < b implies #[trigger] block_completes(sym, a, s2, b2) by {
        assert(block_completes(sym, a, s1, b2));
    }
}

/// Two refusals of the same matrix under the same analysis, threshold and row
/// scaling name the same error and the same column, unless one was interrupted.
pub proof fn refusal_is_determined<T: Scalar>(
    sym: KluSymbolic,
    a: GeneralCsc<T>,
    s1: KluSettings<T::Real>,
    s2: KluSettings<T::Real>,
    e1: RslabError,
    e2: RslabError,
)
    requires
        factor_refused(sym, a, s1, e1),
        factor_refused(sym, a, s2, e2),
        same_pivoting(s1, s2),
        !(e1 is Interrupted),
        !(e2 is Interrupted),
    ensures
        e1 is InvalidInput <==> e2 is InvalidInput,
        !(e1 is InvalidInput) ==> e1 == e2,
{
    if e1 is SingularBasis {
        let (b1, k1) = choose|b: int, k: int|
            #![trigger pivot_fails(sym, a, s1, b, k)]
            pivot_fails(sym, a, s1, b, k) && e1->column == sym.col_perm@[sym.block_ptr@[b] + k];
        same_failures(sym, a, s1, s2, b1, k1);
        if e2 is SingularBasis {
            let (b2, k2) = choose|b: int, k: int|
                #![trigger pivot_fails(sym, a, s2, b, k)]
                pivot_fails(sym, a, s2, b, k) && e2->column == sym.col_perm@[sym.block_ptr@[b] + k];
            one_failure(sym, a, s2, b1, k1, b2, k2);
        }
    } else if e2 is SingularBasis {
        let (b2, k2) = choose|b: int, k: int|
            #![trigger pivot_fails(sym, a, s2, b, k)]
            pivot_fails(sym, a, s2, b, k) && e2->column == sym.col_perm@[sym.block_ptr@[b] + k];
        same_failures(sym, a, s2, s1, b2, k2);
    }
}

/// Where one factorization succeeds, another of the same matrix under the same
/// analysis, threshold and row scaling is not refused unless it is interrupted.
pub proof fn success_is_determined<T: Scalar>(
    sym: KluSymbolic,
    a: GeneralCsc<T>,
    s1: KluSettings<T::Real>,
    s2: KluSettings<T::Real>,
    f: KluFactors<T>,
    e: RslabError,
)
    requires
        f.factors(sym, a, s1),
        !misfit(sym, a),
        !lacks_pivot(sym, a, s1),
        a.row_idx@.len() == sym.nnz,
        factor_refused(sym, a, s2, e),
        same_pivoting(s1, s2),
    ensures
        e is Interrupted,
{
    if e is SingularBasis {
        let (b, k) = choose|b: int, k: int|
            #![trigger pivot_fails(sym, a, s2, b, k)]
            pivot_fails(sym, a, s2, b, k) && e->column == sym.col_perm@[sym.block_ptr@[b] + k];
        same_failures(sym, a, s2, s1, b, k);
    }
}

/// The two forms have the same permutations and blocks.
spec fn same_form(f: BtfForm, g: BtfForm) -> bool {
    &&& f.row_perm@ == g.row_perm@
    &&& f.col_perm@ == g.col_perm@
    &&& f.block_ptr@ == g.block_ptr@
}

/// A form is ordered in one way.
proof fn ordering_is_determined<T: Scalar, O: Reordering<T>>(
    a: GeneralCsc<T>,
    o: O,
    f1: BtfForm,
    f2: BtfForm,
    g1: BtfForm,
    g2: BtfForm,
)
    requires
        same_form(f1, f2),
        ordered_by(a, f1, g1, o),
        ordered_by(a, f2, g2, o),
    ensures
        same_form(g1, g2),
{
    assert forall|k: int| 0 <= k < a.n implies #[trigger] g1.row_perm@[k] == g2.row_perm@[k]
        && g1.col_perm@[k] == g2.col_perm@[k] by {
        let b = block_of(a.n as int, g1.block_ptr@, k);
        assert(in_block(f1.block_ptr@, b, k));
        assert(in_block(f2.block_ptr@, b, k));
        assert(block_order(a, f1, o, b) == block_order(a, f2, o, b));
        assert(put_in_order(a, f1, g1.row_perm@, g1.col_perm@, o, b, k));
        assert(put_in_order(a, f2, g2.row_perm@, g2.col_perm@, o, b, k));
    }
    assert(g1.row_perm@ =~= g2.row_perm@);
    assert forall|k: int| 0 <= k < a.n implies #[trigger] g1.col_perm@[k] == g2.col_perm@[k] by {
        assert(g1.row_perm@[k] == g2.row_perm@[k]);
    }
    assert(g1.col_perm@ =~= g2.col_perm@);
}

/// A transversal leads to one form.
proof fn form_is_determined<T: Scalar, O: Reordering<T>>(
    a: GeneralCsc<T>,
    o: O,
    m: Seq<usize>,
    g1: BtfForm,
    g2: BtfForm,
)
    requires
        formed_by(a, o, m, g1),
        formed_by(a, o, m, g2),
    ensures
        same_form(g1, g2),
{
    let f1 = choose|f: BtfForm|
        f.wf(a.n as int) && is_form(a, m, f) && is_btf(
            a,
            f.row_perm@,
            f.col_perm@,
            f.block_ptr@,
            m,
        ) && #[trigger] ordered_by(a, f, g1, o);
    let f2 = choose|f: BtfForm|
        f.wf(a.n as int) && is_form(a, m, f) && is_btf(
            a,
            f.row_perm@,
            f.col_perm@,
            f.block_ptr@,
            m,
        ) && #[trigger] ordered_by(a, f, g2, o);
    ordering_is_determined(a, o, f1, f2, g1, g2);
}

/// The first of the cheapest forms is one form.
proof fn cheapest_is_determined<T: Scalar, O: Reordering<T>>(
    a: GeneralCsc<T>,
    o: O,
    ms: Seq<Seq<usize>>,
    forms1: Seq<BtfForm>,
    forms2: Seq<BtfForm>,
    g1: BtfForm,
    g2: BtfForm,
)
    requires
        least_fill(a, o, ms, forms1, g1),
        least_fill(a, o, ms, forms2, g2),
    ensures
        same_form(g1, g2),
{
    assert forall|i: int| 0 <= i < ms.len() implies same_form(#[trigger] forms1[i], forms2[i])
        && fill_of(a, forms1[i]) == fill_of(a, forms2[i]) by {
        assert(formed_by(a, o, ms[i], forms1[i]));
        assert(formed_by(a, o, ms[i], forms2[i]));
        form_is_determined(a, o, ms[i], forms1[i], forms2[i]);
    }
    let k1 = choose|k: int|
        #![trigger forms1[k]]
        {
            &&& 0 <= k < forms1.len()
            &&& forms1[k] == g1
            &&& forall|i: int| 0 <= i < k ==> fill_of(a, g1) < fill_of(a, #[trigger] forms1[i])
            &&& forall|i: int| k <= i < forms1.len() ==> fill_of(a, g1) <= fill_of(a, #[trigger] forms1[i])
        };
    let k2 = choose|k: int|
        #![trigger forms2[k]]
        {
            &&& 0 <= k < forms2.len()
            &&& forms2[k] == g2
            &&& forall|i: int| 0 <= i < k ==> fill_of(a, g2) < fill_of(a, #[trigger] forms2[i])
            &&& forall|i: int| k <= i < forms2.len() ==> fill_of(a, g2) <= fill_of(a, #[trigger] forms2[i])
        };
    assert(same_form(forms1[k1], forms2[k1]));
    assert(same_form(forms1[k2], forms2[k2]));
    if k1 < k2 {
        assert(fill_of(a, g2) < fill_of(a, forms2[k1]));
        assert(fill_of(a, g1) <= fill_of(a, forms1[k2]));
    } else if k2 < k1 {
        assert(fill_of(a, g1) < fill_of(a, forms1[k2]));
        assert(fill_of(a, g2) <= fill_of(a, forms2[k1]));
    }
}

/// The analysis settles on one form.
proof fn settled_form_is_determined<T: Scalar, O: Reordering<T>>(
    a: GeneralCsc<T>,
    btf: bool,
    matching: bool,
    o: O,
    g1: BtfForm,
    g2: BtfForm,
)
    requires
        settled_form(a, btf, matching, o, g1),
        settled_form(a, btf, matching, o, g2),
    ensures
        same_form(g1, g2),
{
    if !btf {
        let f1 = choose|f: BtfForm| is_whole(a.n as int, f) && #[trigger] ordered_by(a, f, g1, o);
        let f2 = choose|f: BtfForm| is_whole(a.n as int, f) && #[trigger] ordered_by(a, f, g2, o);
        ordering_is_determined(a, o, f1, f2, g1, g2);
    } else if cheapest_form(a, o, g1) && cheapest_form(a, o, g2) {
        let offers = usable_offers(a, o.offered(a), o.offered(a).len() as int);
        let (own1, forms1) = choose|own: Seq<usize>, forms: Seq<BtfForm>|
            own_transversal(a, own) && #[trigger] least_fill(
                a,
                o,
                seq![own] + usable_offers(a, o.offered(a), o.offered(a).len() as int),
                forms,
                g1,
            );
        let (own2, forms2) = choose|own: Seq<usize>, forms: Seq<BtfForm>|
            own_transversal(a, own) && #[trigger] least_fill(
                a,
                o,
                seq![own] + usable_offers(a, o.offered(a), o.offered(a).len() as int),
                forms,
                g2,
            );
        assert(own1 == own2);
        cheapest_is_determined(a, o, seq![own1] + offers, forms1, forms2, g1, g2);
    } else {
        form_is_determined(a, o, o.weighted(a)->0, g1, g2);
    }
}

/// Analyzing the same matrix with the same source of matchings and orders gives
/// the same permutations, blocks and pattern.
pub proof fn analysis_is_determined<T: Scalar, O: Reordering<T>, R>(
    a: GeneralCsc<T>,
    s1: KluSettings<R>,
    s2: KluSettings<R>,
    o: O,
    sym1: KluSymbolic,
    sym2: KluSymbolic,
)
    requires
        a.wf(),
        s1.btf == s2.btf,
        s1.matching == s2.matching,
        analyzes(sym1, a, s1),
        analyzes(sym2, a, s2),
        arranged(sym1, a, s1, o),
        arranged(sym2, a, s2, o),
    ensures
        same_analysis(sym1, sym2),
{
    let g1 = choose|g: BtfForm|
        sym1.pre_row_perm@ == g.row_perm@ && sym1.col_perm@ == g.col_perm@ && sym1.block_ptr@
            == g.block_ptr@ && #[trigger] settled_form(a, s1.btf, s1.matching, o, g);
    let g2 = choose|g: BtfForm|
        sym2.pre_row_perm@ == g.row_perm@ && sym2.col_perm@ == g.col_perm@ && sym2.block_ptr@
            == g.block_ptr@ && #[trigger] settled_form(a, s2.btf, s2.matching, o, g);
    settled_form_is_determined(a, s1.btf, s1.matching, o, g1, g2);
    assert forall|r: int| 0 <= r < a.n implies #[trigger] sym1.pinv_pre@[r] == sym2.pinv_pre@[r] by {
        permutation_is_onto(sym1.pre_row_perm@, a.n as int, r);
        let k = position(sym1.pre_row_perm@, r);
        assert(sym1.pinv_pre@[sym1.pre_row_perm@[k] as int] == k);
        assert(sym2.pinv_pre@[sym2.pre_row_perm@[k] as int] == k);
    }
    assert(sym1.pinv_pre@ =~= sym2.pinv_pre@);
    assert forall|j: int| 0 <= j < a.n implies #[trigger] sym1.pattern(j) == sym2.pattern(j) by {
        assert(sym1.pattern(j).len() == sym2.pattern(j).len());
        assert forall|q: int| 0 <= q < sym1.pattern(j).len() implies sym1.pattern(j)[q]
            == sym2.pattern(j)[q] by {
            assert(sym1.pattern(j)[q] == sym1.pinv_pre@[a.rows_of(sym1.col_perm@[j] as int)[q] as int]);
            assert(sym2.pattern(j)[q] == sym2.pinv_pre@[a.rows_of(sym2.col_perm@[j] as int)[q] as int]);
        }
        assert(sym1.pattern(j) =~= sym2.pattern(j));
    }
}

/// The two analyses have the same permutations, blocks and pattern.
pub open spec fn same_analysis(sym1: KluSymbolic, sym2: KluSymbolic) -> bool {
    &&& sym1.n == sym2.n
    &&& sym1.nnz == sym2.nnz
    &&& sym1.pre_row_perm@ == sym2.pre_row_perm@
    &&& sym1.pinv_pre@ == sym2.pinv_pre@
    &&& sym1.col_perm@ == sym2.col_perm@
    &&& sym1.block_ptr@ == sym2.block_ptr@
    &&& forall|j: int| 0 <= j < sym1.n ==> #[trigger] sym1.pattern(j) == sym2.pattern(j)
}

/// Analyzing and factoring the same matrix twice gives the same factors,
/// whatever the parallel settings.
pub proof fn one_shot_is_determined<T: Scalar>(
    a: GeneralCsc<T>,
    s1: KluSettings<T::Real>,
    s2: KluSettings<T::Real>,
    x: KluSolver<T>,
    y: KluSolver<T>,
)
    requires
        factor_outcome(a, s1, Ok(x)),
        factor_outcome(a, s2, Ok(y)),
        same_pivoting(s1, s2),
        s1.btf == s2.btf,
        s1.matching == s2.matching,
    ensures
        x.factors.same_orders(y.factors),
        x.factors.blocks@.len() == y.factors.blocks@.len(),
        forall|b: int|
            0 <= b < x.factors.blocks@.len() ==> same_block(
                #[trigger] x.factors.blocks@[b],
                y.factors.blocks@[b],
                x.factors.size(b),
            ),
        forall|j: int|
            0 <= j < x.factors.n ==> #[trigger] x.factors.off@[j].rows@ == y.factors.off@[j].rows@,
        forall|j: int|
            0 <= j < x.factors.n ==> #[trigger] x.factors.off@[j].vals@ == y.factors.off@[j].vals@,
{
    let sym1 = choose|sym: KluSymbolic| #[trigger]
        analyzes(sym, a, s1) && arranged(sym, a, s1, DegreeOrder) && x.factors.factors(sym, a, s1);
    let sym2 = choose|sym: KluSymbolic| #[trigger]
        analyzes(sym, a, s2) && arranged(sym, a, s2, DegreeOrder) && y.factors.factors(sym, a, s2);
    analysis_is_determined(a, s1, s2, DegreeOrder, sym1, sym2);
    assert(y.factors.factors(sym1, a, s2));
    factorization_is_determined(sym1, a, s1, s2, x.factors, y.factors);
}

impl<T: Scalar> KluFactors<T> {
    /// The row scales, permutations and blocks are the same.
    pub open spec fn same_orders(&self, other: KluFactors<T>) -> bool {
        &&& self.n == other.n
        &&& self.rs_inv@ == other.rs_inv@
        &&& self.pre_row_perm@ == other.pre_row_perm@
        &&& self.col_perm@ == other.col_perm@
        &&& self.block_ptr@ == other.block_ptr@
    }
}

/// Every block of a factorization has found its pivots.
proof fn factored_blocks_complete<T: Scalar>(
    sym: KluSymbolic,
    a: GeneralCsc<T>,
    settings: KluSettings<T::Real>,
    f: KluFactors<T>,
)
    requires
        f.factors(sym, a, settings),
    ensures
        !lacks_pivot(sym, a, settings),
{
    assert forall|b: int, k: int| !(#[trigger] pivot_fails(sym, a, settings, b, k)) by {
        if pivot_fails(sym, a, settings, b, k) {
            let m = f.size(b);
            let lu = f.blocks@[b];
            let thr = settings.pivot_threshold;
            block_range(f.n as int, f.block_ptr@, b);
            assert(f.block_pivoted(a, b, thr));
            let cols = choose|cols: Seq<SparseColumn<T>>| #[trigger]
                f.columns_of(a, b, cols) && pivots_chosen(lu, m, cols, thr);
            assert(completes(m, cols, thr));
            assert(block_columns(
                cols,
                a,
                row_scales(a, settings.row_scaling),
                sym.pinv_pre@,
                sym.col_perm@,
                sym.block_ptr@[b] as int,
                sym.block_ptr@[b + 1] as int,
            ));
            assert(block_completes(sym, a, settings, b));
            completes_or_fails(sym, a, settings, b, k);
        }
    }
}

/// The same analysis refuses for the same reasons.
proof fn same_analysis_refuses<T: Scalar>(
    sym1: KluSymbolic,
    sym2: KluSymbolic,
    a: GeneralCsc<T>,
    settings: KluSettings<T::Real>,
    b: int,
    k: int,
)
    requires
        same_analysis(sym1, sym2),
        pivot_fails(sym2, a, settings, b, k),
    ensures
        pivot_fails(sym1, a, settings, b, k),
{
    assert forall|b2: int| 0 <= b2 < b implies #[trigger] block_completes(sym1, a, settings, b2) by {
        assert(block_completes(sym2, a, settings, b2));
    }
}

/// Two one-shot factorizations that got past their analysis.
proof fn analyzed_runs_agree<T: Scalar>(
    a: GeneralCsc<T>,
    s1: KluSettings<T::Real>,
    s2: KluSettings<T::Real>,
    r1: Result<KluSolver<T>, RslabError>,
    r2: Result<KluSolver<T>, RslabError>,
)
    requires
        factor_outcome(a, s1, r1),
        factor_outcome(a, s2, r2),
        same_pivoting(s1, s2),
        s1.btf == s2.btf,
        s1.matching == s2.matching,
        r1 is Ok || r1->Err_0 is SingularBasis,
        r2 is Ok || r2->Err_0 is SingularBasis,
    ensures
        r1 is Ok <==> r2 is Ok,
        r1 is Err ==> r1->Err_0 == r2->Err_0,
{
    let sym1 = analysis_behind(a, s1, r1);
    let sym2 = analysis_behind(a, s2, r2);
    analysis_is_determined(a, s1, s2, DegreeOrder, sym1, sym2);
    if r1 is Ok {
        factored_blocks_complete(sym1, a, s1, r1->Ok_0.factors);
    }
    if r2 is Ok {
        factored_blocks_complete(sym2, a, s2, r2->Ok_0.factors);
    }
    if r2 is Err {
        let c2 = r2->Err_0->column;
        let (b2, k2) = choose|b: int, k: int|
            #![trigger pivot_fails(sym2, a, s2, b, k)]
            pivot_fails(sym2, a, s2, b, k) && c2 == sym2.col_perm@[sym2.block_ptr@[b] + k];
        same_analysis_refuses(sym1, sym2, a, s2, b2, k2);
        same_failures(sym1, a, s2, s1, b2, k2);
        if r1 is Err {
            let c1 = r1->Err_0->column;
            let (b1, k1) = choose|b: int, k: int|
                #![trigger pivot_fails(sym1, a, s1, b, k)]
                pivot_fails(sym1, a, s1, b, k) && c1 == sym1.col_perm@[sym1.block_ptr@[b] + k];
            one_failure(sym1, a, s1, b1, k1, b2, k2);
        }
    } else if r1 is Err {
        let c1 = r1->Err_0->column;
        let (b1, k1) = choose|b: int, k: int|
            #![trigger pivot_fails(sym1, a, s1, b, k)]
            pivot_fails(sym1, a, s1, b, k) && c1 == sym1.col_perm@[sym1.block_ptr@[b] + k];
        same_analysis_refuses(sym2, sym1, a, s1, b1, k1);
        same_failures(sym2, a, s1, s2, b1, k1);
    }
}

/// Analyzing and factoring the same matrix twice succeeds both times or fails
/// both times, with the same error and the same column, unless it is interrupted.
pub proof fn one_shot_refusal_is_determined<T: Scalar>(
    a: GeneralCsc<T>,
    s1: KluSettings<T::Real>,
    s2: KluSettings<T::Real>,
    r1: Result<KluSolver<T>, RslabError>,
    r2: Result<KluSolver<T>, RslabError>,
)
    requires
        factor_outcome(a, s1, r1),
        factor_outcome(a, s2, r2),
        same_pivoting(s1, s2),
        s1.btf == s2.btf,
        s1.matching == s2.matching,
        !(r1 matches Err(RslabError::Interrupted)),
        !(r2 matches Err(RslabError::Interrupted)),
    ensures
        r1 is Ok <==> r2 is Ok,
        r1 is Err ==> (r1->Err_0 is InvalidInput <==> r2->Err_0 is InvalidInput),
        r1 is Err && !(r1->Err_0 is InvalidInput) ==> r1->Err_0 == r2->Err_0,
{
    let sound1 = r1 is Ok || r1->Err_0 is SingularBasis;
    let sound2 = r2 is Ok || r2->Err_0 is SingularBasis;
    if sound1 {
        analyzed_is_sound(a, s1, r1);
    }
    if sound2 {
        analyzed_is_sound(a, s2, r2);
    }
    if sound1 && sound2 {
        analyzed_runs_agree(a, s1, s2, r1, r2);
    }
}

/// The analysis that a one-shot factorization went through.
proof fn analysis_behind<T: Scalar>(
    a: GeneralCsc<T>,
    s: KluSettings<T::Real>,
    r: Result<KluSolver<T>, RslabError>,
) -> (sym: KluSymbolic)
    requires
        factor_outcome(a, s, r),
        r is Ok || r->Err_0 is SingularBasis,
    ensures
        a.wf(),
        analyzes(sym, a, s),
        arranged(sym, a, s, DegreeOrder),
        r matches Ok(x) ==> x.factors.factors(sym, a, s),
        r matches Err(e) ==> factor_refused(sym, a, s, e),
{
    match r {
        Ok(x) => {
            choose|sym: KluSymbolic| #[trigger]
                analyzes(sym, a, s) && arranged(sym, a, s, DegreeOrder) && x.factors.factors(sym, a, s)
        },
        Err(e) => {
            choose|sym: KluSymbolic| #[trigger]
                analyzes(sym, a, s) && arranged(sym, a, s, DegreeOrder) && factor_refused(sym, a, s, e)
        },
    }
}

/// A matrix that got past its analysis.
proof fn analyzed_is_sound<T: Scalar>(
    a: GeneralCsc<T>,
    s: KluSettings<T::Real>,
    r: Result<KluSolver<T>, RslabError>,
)
    requires
        factor_outcome(a, s, r),
        r is Ok || r->Err_0 is SingularBasis,
    ensures
        a.wf(),
        !too_large(a),
        s.btf ==> has_transversal(a),
{
    let sym = analysis_behind(a, s, r);
    if s.btf {
        let m = choose|m: Seq<usize>| #[trigger]
            is_btf(a, sym.pre_row_perm@, sym.col_perm@, sym.block_ptr@, m);
        assert(is_transversal(a, m));
    }
}

} // verus!
