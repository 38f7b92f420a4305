//! The analysis of a pattern: transversal, blocks, and the order inside them.

use crate::counts::saturated;
use crate::error::RslabError;
use crate::klu::btf::{block_upper, btf_from_matching, is_btf, is_form, matched_graph};
use crate::klu::fill::{block_fill, lower_total};
use crate::klu::form::{block_range, in_block, invert, BtfForm};
use crate::klu::gather::inverse_back;
use crate::klu::matching::{
    has_transversal, is_transversal, maximum_transversal, own_matching, stores,
};
use crate::klu::ordering::{
    check_permutation, symmetric_lists, symmetric_pattern, symmetrize, DegreeOrder, Reordering,
};
use crate::klu::scc::connected;
use crate::klu::settings::KluSettings;
use crate::klu::symbolic::KluSymbolic;
use crate::reach::lists_of;
use crate::scalar::{Real, Scalar};
use crate::seqs::{
    below, copied, count_up, counting, distinct, inverse_of, is_permutation, nondecreasing, occurs,
};
use crate::sparse::{column_range, position, GeneralCsc};
use vstd::prelude::*;

verus! {

/// Position `k` of the second form holds what stood at `perm[k]` in the first,
/// in the same block.
pub open spec fn moves(f: BtfForm, g: BtfForm, perm: Seq<usize>) -> bool {
    &&& perm.len() == f.col_perm@.len()
    &&& g.block_ptr@ == f.block_ptr@
    &&& forall|b: int, k: int|
        #![trigger in_block(f.block_ptr@, b, k), perm[k]]
        in_block(f.block_ptr@, b, k) ==> in_block(f.block_ptr@, b, perm[k] as int)
    &&& forall|k: int|
        0 <= k < perm.len() ==> #[trigger] g.row_perm@[k] == f.row_perm@[perm[k] as int]
    &&& forall|k: int|
        0 <= k < perm.len() ==> #[trigger] g.col_perm@[k] == f.col_perm@[perm[k] as int]
}

/// The second form is the first with the positions inside each block permuted.
pub open spec fn reordered(f: BtfForm, g: BtfForm) -> bool {
    exists|perm: Seq<usize>| is_permutation(perm, f.col_perm@.len() as int) && #[trigger] moves(
        f,
        g,
        perm,
    )
}

/// The order that block `b` is given: two columns or fewer stay as they are.
pub open spec fn block_order<T: Scalar, O: Reordering<T>>(
    a: GeneralCsc<T>,
    f: BtfForm,
    o: O,
    b: int,
) -> Option<Seq<usize>> {
    let bs = f.block_ptr@[b] as int;
    let m = f.block_ptr@[b + 1] - bs;
    if m <= 2 {
        Some(counting(m))
    } else {
        match o.order_of(symmetric_lists(a, f.row_perm@, f.col_perm@, bs, m)) {
            Some(p) => if is_permutation(p, m) {
                Some(p)
            } else {
                None
            },
            None => None,
        }
    }
}

/// Position `k` of block `b` holds what the order of the block puts there.
pub open spec fn put_in_order<T: Scalar, O: Reordering<T>>(
    a: GeneralCsc<T>,
    f: BtfForm,
    rp: Seq<usize>,
    cp: Seq<usize>,
    o: O,
    b: int,
    k: int,
) -> bool {
    let bs = f.block_ptr@[b] as int;
    match block_order(a, f, o, b) {
        Some(p) => rp[k] == f.row_perm@[bs + p[k - bs]] && cp[k] == f.col_perm@[bs + p[k - bs]],
        None => false,
    }
}

/// The second form is the first with every block in the order it is given.
pub open spec fn ordered_by<T: Scalar, O: Reordering<T>>(
    a: GeneralCsc<T>,
    f: BtfForm,
    g: BtfForm,
    o: O,
) -> bool {
    &&& g.wf(a.n as int)
    &&& g.block_ptr@ == f.block_ptr@
    &&& forall|b: int, k: int| #[trigger]
        in_block(f.block_ptr@, b, k) ==> put_in_order(a, f, g.row_perm@, g.col_perm@, o, b, k)
}

/// Some block with more than two columns gets no order.
pub open spec fn lacks_order<T: Scalar, O: Reordering<T>>(
    a: GeneralCsc<T>,
    f: BtfForm,
    o: O,
) -> bool {
    exists|b: int|
        0 <= b < f.block_ptr@.len() - 1 && #[trigger] block_order(a, f, o, b) is None
}

/// A form that the analysis may try has a block that gets no order.
pub open spec fn unordered<T: Scalar, O: Reordering<T>>(a: GeneralCsc<T>, btf: bool, o: O) -> bool {
    exists|f: BtfForm| #[trigger]
        lacks_order(a, f, o) && f.wf(a.n as int) && (if btf {
            exists|m: Seq<usize>| #[trigger]
                is_btf(a, f.row_perm@, f.col_perm@, f.block_ptr@, m)
        } else {
            is_whole(a.n as int, f)
        })
}

/// The ordered block triangular form under the transversal `m`.
pub open spec fn formed_by<T: Scalar, O: Reordering<T>>(
    a: GeneralCsc<T>,
    o: O,
    m: Seq<usize>,
    g: BtfForm,
) -> bool {
    exists|f: BtfForm|
        f.wf(a.n as int) && is_form(a, m, f) && is_btf(
            a,
            f.row_perm@,
            f.col_perm@,
            f.block_ptr@,
            m,
        ) && #[trigger] ordered_by(a, f, g, o)
}

/// Entries of the Cholesky factors of the symmetrized blocks with more than two
/// columns, among the first `k`.
pub open spec fn cholesky_entries<T>(
    a: GeneralCsc<T>,
    rp: Seq<usize>,
    cp: Seq<usize>,
    ptr: Seq<usize>,
    k: int,
) -> int
    decreases k,
{
    if k <= 0 {
        0
    } else {
        let m = ptr[k] - ptr[k - 1];
        cholesky_entries(a, rp, cp, ptr, k - 1) + (if m > 2 {
            lower_total(m, symmetric_pattern(a, rp, cp, ptr[k - 1] as int), m) + m
        } else {
            0
        })
    }
}

/// The measure of a matching: the Cholesky fill of its ordered blocks.
pub open spec fn fill_of<T>(a: GeneralCsc<T>, g: BtfForm) -> int {
    saturated(
        cholesky_entries(a, g.row_perm@, g.col_perm@, g.block_ptr@, g.block_ptr@.len() - 1),
    ) as int
}

/// The first `k` of the offered lists that are transversals.
pub open spec fn usable_offers<T>(
    a: GeneralCsc<T>,
    offered: Seq<Seq<usize>>,
    k: int,
) -> Seq<Seq<usize>>
    decreases k,
{
    if k <= 0 {
        Seq::empty()
    } else if is_transversal(a, offered[k - 1]) {
        usable_offers(a, offered, k - 1).push(offered[k - 1])
    } else {
        usable_offers(a, offered, k - 1)
    }
}

/// `forms` belong to the transversals `ms`, and `g` is the first of those with
/// the least fill.
pub open spec fn least_fill<T: Scalar, O: Reordering<T>>(
    a: GeneralCsc<T>,
    o: O,
    ms: Seq<Seq<usize>>,
    forms: Seq<BtfForm>,
    g: BtfForm,
) -> bool {
    &&& forms.len() == ms.len()
    &&& forall|i: int| 0 <= i < ms.len() ==> formed_by(a, o, #[trigger] ms[i], forms[i])
    &&& exists|best: int|
        #![trigger forms[best]]
        {
            &&& 0 <= best < forms.len()
            &&& forms[best] == g
            &&& forall|i: int| 0 <= i < best ==> fill_of(a, g) < fill_of(a, #[trigger] forms[i])
            &&& forall|i: int| best <= i < forms.len() ==> fill_of(a, g) <= fill_of(a, #[trigger] forms[i])
        }
}

/// The library's own transversal; a complete diagonal is its own.
pub open spec fn own_transversal<T>(a: GeneralCsc<T>, m: Seq<usize>) -> bool {
    &&& own_matching(a) == Some(m)
    &&& is_transversal(a, m)
    &&& (forall|j: int| 0 <= j < a.n ==> #[trigger] stores(a, j, j)) ==> m == counting(a.n as int)
}

/// The form with the least fill among the library's own transversal and those
/// that the source offers; the first of them where several have the least.
pub open spec fn cheapest_form<T: Scalar, O: Reordering<T>>(
    a: GeneralCsc<T>,
    o: O,
    g: BtfForm,
) -> bool {
    exists|own: Seq<usize>, forms: Seq<BtfForm>|
        own_transversal(a, own) && #[trigger] least_fill(
            a,
            o,
            seq![own] + usable_offers(a, o.offered(a), o.offered(a).len() as int),
            forms,
            g,
        )
}

/// The whole matrix as one block, in its own order.
pub open spec fn is_whole(n: int, f: BtfForm) -> bool {
    &&& f.row_perm@ == counting(n)
    &&& f.col_perm@ == counting(n)
    &&& f.block_ptr@ == (if n == 0 {
        seq![0usize]
    } else {
        seq![0usize, n as usize]
    })
}

/// The form that the analysis settles on: that of the weighted matching where
/// one is asked for and complete, else the cheapest; without block triangular
/// form, one ordered block.
pub open spec fn settled_form<T: Scalar, O: Reordering<T>>(
    a: GeneralCsc<T>,
    btf: bool,
    matching: bool,
    o: O,
    g: BtfForm,
) -> bool {
    if !btf {
        exists|f: BtfForm| is_whole(a.n as int, f) && #[trigger] ordered_by(a, f, g, o)
    } else {
        match o.weighted(a) {
            Some(m) => if matching && is_transversal(a, m) {
                formed_by(a, o, m, g)
            } else {
                cheapest_form(a, o, g)
            },
            None => cheapest_form(a, o, g),
        }
    }
}

/// The permutations and blocks of an analysis are those of the settled form.
pub open spec fn arranged<T: Scalar, O: Reordering<T>, R>(
    sym: KluSymbolic,
    a: GeneralCsc<T>,
    settings: KluSettings<R>,
    o: O,
) -> bool {
    exists|g: BtfForm|
        sym.pre_row_perm@ == g.row_perm@ && sym.col_perm@ == g.col_perm@ && sym.block_ptr@
            == g.block_ptr@ && #[trigger] settled_form(a, settings.btf, settings.matching, o, g)
}

/// The Cholesky fill of the symmetrized blocks, the measure of a matching.
fn fill_score<T>(a: &GeneralCsc<T>, form: &BtfForm) -> (score: u64)
    requires
        a.wf(),
        a.n < 0x8000_0000,
        form.wf(a.n as int),
    ensures
        score == fill_of(*a, *form),
{
    let n: usize = a.n;
    let pinv = invert(&form.row_perm, n);
    let nb: usize = form.block_ptr.len() - 1;
    let mut score: u64 = 0;
    let mut b: usize = 0;
    while b < nb
        invariant
            b <= nb,
            nb == form.block_ptr@.len() - 1,
            n == a.n,
            n < 0x8000_0000,
            a.wf(),
            form.wf(n as int),
            inverse_of(pinv@, form.row_perm@),
            0 <= cholesky_entries(*a, form.row_perm@, form.col_perm@, form.block_ptr@, b as int),
            score == saturated(
                cholesky_entries(*a, form.row_perm@, form.col_perm@, form.block_ptr@, b as int),
            ),
        decreases nb - b,
    {
        proof {
            block_range(n as int, form.block_ptr@, b as int);
        }
        let bs: usize = form.block_ptr[b];
        let be: usize = form.block_ptr[b + 1];
        let m: usize = be - bs;
        if m > 2 {
            let cols = symmetrize(a, form, &pinv, bs, be);
            let ghost pat = symmetric_pattern(*a, form.row_perm@, form.col_perm@, bs as int);
            let (lower, _upper, _flops) = block_fill(m, &cols, Ghost(pat));
            score = score.saturating_add(lower).saturating_add(m as u64);
        }
        b = b + 1;
    }
    score
}

/// Order the columns of every block with more than two columns.
pub fn order_blocks<T: Scalar, O: Reordering<T>>(a: &GeneralCsc<T>, form: &BtfForm, ordering: &O) -> (r: Result<
    BtfForm,
    RslabError,
>)
    requires
        a.wf(),
        form.wf(a.n as int),
    ensures
        r matches Ok(g) ==> g.wf(a.n as int) && reordered(*form, g) && ordered_by(
            *a,
            *form,
            g,
            *ordering,
        ),
        r matches Err(e) ==> e is InvalidInput && !ordering.is_total() && lacks_order(
            *a,
            *form,
            *ordering,
        ),
{
    let n: usize = a.n;
    let pinv = invert(&form.row_perm, n);
    let nb: usize = form.block_ptr.len() - 1;
    let mut rows: Vec<usize> = Vec::new();
    let mut cols: Vec<usize> = Vec::new();
    let ghost mut perm: Seq<usize> = Seq::empty();
    let mut b: usize = 0;
    while b < nb
        invariant
            b <= nb,
            nb == form.block_ptr@.len() - 1,
            n == a.n,
            a.wf(),
            form.wf(n as int),
            inverse_of(pinv@, form.row_perm@),
            perm.len() == form.block_ptr@[b as int],
            rows@.len() == perm.len(),
            cols@.len() == perm.len(),
            distinct(perm),
            forall|k: int| 0 <= k < perm.len() ==> #[trigger] perm[k] < perm.len(),
            forall|b2: int, k: int|
                #![trigger in_block(form.block_ptr@, b2, k), perm[k]]
                b2 < b && in_block(form.block_ptr@, b2, k) ==> in_block(
                    form.block_ptr@,
                    b2,
                    perm[k] as int,
                ),
            forall|k: int| 0 <= k < perm.len() ==> #[trigger] rows@[k] == form.row_perm@[perm[k] as int],
            forall|k: int| 0 <= k < perm.len() ==> #[trigger] cols@[k] == form.col_perm@[perm[k] as int],
            forall|b2: int, k: int|
                b2 < b && #[trigger] in_block(form.block_ptr@, b2, k) ==> put_in_order(
                    *a,
                    *form,
                    rows@,
                    cols@,
                    *ordering,
                    b2,
                    k,
                ),
        decreases nb - b,
    {
        proof {
            block_range(n as int, form.block_ptr@, b as int);
        }
        let bs: usize = form.block_ptr[b];
        let be: usize = form.block_ptr[b + 1];
        let m: usize = be - bs;
        let lperm: Vec<usize>;
        if m > 2 {
            let pattern = symmetrize(a, form, &pinv, bs, be);
            match ordering.order_block(&pattern) {
                Some(p) => {
                    if !check_permutation(&p, m) {
                        assert(block_order(*a, *form, *ordering, b as int) is None);
                        return Err(RslabError::InvalidInput("klu: block ordering is no permutation"));
                    }
                    lperm = p;
                },
                None => {
                    assert(block_order(*a, *form, *ordering, b as int) is None);
                    return Err(RslabError::InvalidInput("klu: block ordering failed"));
                },
            }
        } else {
            lperm = count_up(m);
        }
        assert(block_order(*a, *form, *ordering, b as int) == Some(lperm@));
        let ghost perm0 = perm;
        let ghost rows0 = rows@;
        let ghost cols0 = cols@;
        let ghost add = Seq::new(m as nat, |i: int| (bs + lperm@[i]) as usize);
        let mut i: usize = 0;
        while i < m
            invariant
                i <= m,
                m == be - bs,
                bs < be <= n,
                form.wf(n as int),
                is_permutation(lperm@, m as int),
                add == Seq::new(m as nat, |i: int| (bs + lperm@[i]) as usize),
                rows0.len() == bs,
                cols0.len() == bs,
                rows@.len() == bs + i,
                cols@.len() == bs + i,
                forall|k: int| 0 <= k < bs ==> #[trigger] rows@[k] == rows0[k],
                forall|k: int| 0 <= k < bs ==> #[trigger] cols@[k] == cols0[k],
                forall|k: int| 0 <= k < i ==> rows@[bs + k] == form.row_perm@[#[trigger] add[k] as int],
                forall|k: int| 0 <= k < i ==> cols@[bs + k] == form.col_perm@[#[trigger] add[k] as int],
            decreases m - i,
        {
            assert(lperm@[i as int] < m);
            rows.push(form.row_perm[bs + lperm[i]]);
            cols.push(form.col_perm[bs + lperm[i]]);
            i = i + 1;
        }
        proof {
            perm = perm0 + add;
            assert forall|k: int| 0 <= k < m implies bs <= #[trigger] add[k] < be && add[k] == bs + lperm@[k] by {
                assert(lperm@[k] < m);
            }
            assert forall|x: int, y: int| 0 <= x < y < perm.len() implies #[trigger] perm[x] != #[trigger] perm[y] by {
                if y < bs {
                    assert(perm0[x] != perm0[y]);
                } else if x < bs {
                    assert(perm0[x] < bs);
                    assert(add[y - bs] >= bs);
                } else {
                    assert(add[x - bs] == bs + lperm@[x - bs]);
                    assert(add[y - bs] == bs + lperm@[y - bs]);
                    assert(lperm@[x - bs] != lperm@[y - bs]);
                }
            }
            assert forall|k: int| 0 <= k < perm.len() implies #[trigger] perm[k] < perm.len() by {
                if k < bs {
                    assert(perm0[k] < bs);
                } else {
                    assert(add[k - bs] < be);
                }
            }
            assert forall|b2: int, k: int|
                #![trigger in_block(form.block_ptr@, b2, k), perm[k]]
                b2 < b + 1 && in_block(form.block_ptr@, b2, k) implies in_block(
                form.block_ptr@,
                b2,
                perm[k] as int,
            ) by {
                if b2 < b {
                    if b2 + 1 < b {
                        assert(form.block_ptr@[b2 + 1] < form.block_ptr@[b as int]);
                    }
                    assert(in_block(form.block_ptr@, b2, perm0[k] as int));
                } else {
                    assert(perm[k] == add[k - bs]);
                }
            }
            assert forall|k: int| 0 <= k < perm.len() implies #[trigger] rows@[k] == form.row_perm@[perm[k] as int] by {
                if k >= bs {
                    assert(perm[k] == add[k - bs]);
                    assert(rows@[bs + (k - bs)] == form.row_perm@[add[k - bs] as int]);
                }
            }
            assert forall|k: int| 0 <= k < perm.len() implies #[trigger] cols@[k] == form.col_perm@[perm[k] as int] by {
                if k >= bs {
                    assert(perm[k] == add[k - bs]);
                    assert(cols@[bs + (k - bs)] == form.col_perm@[add[k - bs] as int]);
                }
            }
        }
        proof {
            assert forall|b2: int, k: int|
                b2 < b + 1 && #[trigger] in_block(form.block_ptr@, b2, k) implies put_in_order(
                *a,
                *form,
                rows@,
                cols@,
                *ordering,
                b2,
                k,
            ) by {
                if b2 < b {
                    assert(put_in_order(*a, *form, rows0, cols0, *ordering, b2, k));
                    if b2 + 1 < b {
                        assert(form.block_ptr@[b2 + 1] < form.block_ptr@[b as int]);
                    }
                } else {
                    assert(rows@[bs + (k - bs)] == form.row_perm@[add[k - bs] as int]);
                    assert(cols@[bs + (k - bs)] == form.col_perm@[add[k - bs] as int]);
                    assert(lperm@[k - bs] < m);
                }
            }
        }
        b = b + 1;
    }
    let g = BtfForm { row_perm: rows, col_perm: cols, block_ptr: copied(&form.block_ptr) };
    proof {
        assert(perm.len() == n);
        assert(is_permutation(perm, n as int));
        permuted_permutation(form.row_perm@, perm, g.row_perm@, n as int);
        permuted_permutation(form.col_perm@, perm, g.col_perm@, n as int);
        assert(moves(*form, g, perm));
    }
    Ok(g)
}

/// A permutation of a permutation is one.
proof fn permuted_permutation(p: Seq<usize>, perm: Seq<usize>, q: Seq<usize>, n: int)
    requires
        is_permutation(p, n),
        is_permutation(perm, n),
        q.len() == n,
        forall|k: int| 0 <= k < n ==> #[trigger] q[k] == p[perm[k] as int],
    ensures
        is_permutation(q, n),
{
    assert forall|k: int| 0 <= k < n implies #[trigger] q[k] < n by {
        assert(perm[k] < n);
        assert(p[perm[k] as int] < n);
    }
    assert forall|x: int, y: int| 0 <= x < y < q.len() implies #[trigger] q[x] != #[trigger] q[y] by {
        let a = perm[x] as int;
        let b = perm[y] as int;
        assert(perm[x] != perm[y]);
        assert(perm[x] < n && perm[y] < n);
        if a < b {
            assert(p[a] != p[b]);
        } else {
            assert(p[b] != p[a]);
        }
    }
}

/// Reordering inside the blocks keeps the block upper triangular form.
pub proof fn reordering_keeps_the_form<T>(a: GeneralCsc<T>, f: BtfForm, g: BtfForm)
    requires
        f.wf(a.n as int),
        g.wf(a.n as int),
        reordered(f, g),
    ensures
        block_upper(a, f.row_perm@, f.col_perm@, f.block_ptr@) ==> block_upper(
            a,
            g.row_perm@,
            g.col_perm@,
            g.block_ptr@,
        ),
        forall|m: Seq<usize>|
            is_btf(a, f.row_perm@, f.col_perm@, f.block_ptr@, m) ==> #[trigger] is_btf(
                a,
                g.row_perm@,
                g.col_perm@,
                g.block_ptr@,
                m,
            ),
{
    let n = a.n as int;
    let perm = choose|perm: Seq<usize>| is_permutation(perm, n) && #[trigger] moves(f, g, perm);
    let ptr = f.block_ptr@;
    if block_upper(a, f.row_perm@, f.col_perm@, ptr) {
        assert forall|b: int, j: int, p: int|
            #![trigger in_block(g.block_ptr@, b, j), g.row_perm@[p]]
            in_block(g.block_ptr@, b, j) && 0 <= p < a.n && stores(
                a,
                g.row_perm@[p] as int,
                g.col_perm@[j] as int,
            ) implies p < g.block_ptr@[b + 1] by {
            block_range(n, ptr, b);
            assert(in_block(ptr, b, perm[j] as int));
            assert(perm[p] < n);
            let x = f.row_perm@[perm[p] as int];
            assert(perm[p] < ptr[b + 1]);
            let bp = crate::klu::form::block_of(n, ptr, p);
            assert(in_block(ptr, bp, perm[p] as int));
            if bp > b {
                if b + 1 < bp {
                    assert(ptr[b + 1] < ptr[bp]);
                }
            }
            block_range(n, ptr, bp);
            if bp < b {
                assert(ptr[bp + 1] < ptr[b + 1]);
            }
        }
    }
    assert forall|m: Seq<usize>| is_btf(a, f.row_perm@, f.col_perm@, ptr, m) implies #[trigger] is_btf(
        a,
        g.row_perm@,
        g.col_perm@,
        g.block_ptr@,
        m,
    ) by {
        assert forall|k: int| 0 <= k < n implies stores(
            a,
            #[trigger] g.row_perm@[k] as int,
            g.col_perm@[k] as int,
        ) && g.row_perm@[k] == m[g.col_perm@[k] as int] by {
            assert(perm[k] < n);
            let x = f.row_perm@[perm[k] as int];
            assert(stores(a, x as int, f.col_perm@[perm[k] as int] as int));
            assert(g.col_perm@[k] == f.col_perm@[perm[k] as int]);
        }
        assert forall|b1: int, b2: int, p: int, q: int| #[trigger]
            in_block(g.block_ptr@, b1, p) && #[trigger] in_block(g.block_ptr@, b2, q) implies (b1 == b2
            <==> connected(matched_graph(a, m), g.col_perm@[p] as int, g.col_perm@[q] as int)) by {
            block_range(n, ptr, b1);
            block_range(n, ptr, b2);
            assert(in_block(ptr, b1, perm[p] as int));
            assert(in_block(ptr, b2, perm[q] as int));
            assert(g.col_perm@[p] == f.col_perm@[perm[p] as int]);
            assert(g.col_perm@[q] == f.col_perm@[perm[q] as int]);
        }
    }
}

/// Is the list a transversal of the matrix?
pub fn check_transversal<T>(a: &GeneralCsc<T>, m: &Vec<usize>) -> (b: bool)
    requires
        a.wf(),
    ensures
        b == is_transversal(*a, m@),
{
    if !check_permutation(m, a.n) {
        return false;
    }
    let mut j: usize = 0;
    while j < a.n
        invariant
            j <= a.n,
            a.wf(),
            is_permutation(m@, a.n as int),
            forall|k: int| 0 <= k < j ==> stores(*a, #[trigger] m@[k] as int, k),
        decreases a.n - j,
    {
        proof {
            column_range(*a, j as int);
        }
        let ghost rows = a.rows_of(j as int);
        let lo: usize = a.col_ptr[j];
        let hi: usize = a.col_ptr[j + 1];
        let r: usize = m[j];
        let mut found = false;
        let mut q: usize = lo;
        while q < hi
            invariant
                lo <= q <= hi <= a.row_idx@.len(),
                rows.len() == hi - lo,
                forall|x: int| 0 <= x < rows.len() ==> #[trigger] rows[x] == a.row_idx@[lo + x],
                found <==> exists|x: int| 0 <= x < q - lo && #[trigger] rows[x] == r,
            decreases hi - q,
        {
            assert(rows[q - lo] == a.row_idx@[q as int]);
            if a.row_idx[q] == r {
                found = true;
            }
            q = q + 1;
        }
        if !found {
            assert(!stores(*a, m@[j as int] as int, j as int));
            return false;
        }
        j = j + 1;
    }
    true
}

/// The analysis holds the pattern of the permuted matrix, entry by entry.
pub open spec fn holds_pattern<T>(sym: KluSymbolic, a: GeneralCsc<T>) -> bool {
    &&& sym.wf()
    &&& sym.n == a.n
    &&& sym.nnz == a.row_idx@.len()
    &&& forall|j: int|
        0 <= j < a.n ==> (#[trigger] sym.pattern(j)).len() == a.rows_of(sym.col_perm@[j] as int).len()
    &&& forall|j: int, q: int|
        0 <= j < a.n && 0 <= q < sym.pattern(j).len() ==> #[trigger] sym.pattern(j)[q]
            == sym.pinv_pre@[a.rows_of(sym.col_perm@[j] as int)[q] as int]
}

/// The analysis belongs to this matrix and these settings.
pub open spec fn analyzes<T, R>(sym: KluSymbolic, a: GeneralCsc<T>, settings: KluSettings<R>) -> bool {
    &&& holds_pattern(sym, a)
    &&& sym.fill is None
    &&& settings.btf ==> exists|m: Seq<usize>| #[trigger]
        is_btf(a, sym.pre_row_perm@, sym.col_perm@, sym.block_ptr@, m)
    &&& !settings.btf ==> sym.block_ptr@.len() == (if a.n == 0 {
        1int
    } else {
        2int
    })
}

/// Too many rows or entries for 31-bit indices.
pub open spec fn too_large<T>(a: GeneralCsc<T>) -> bool {
    a.n >= 0x8000_0000 || a.row_idx@.len() >= 0x8000_0000
}

/// Freeze the pattern of the permuted matrix.
fn freeze<T>(a: &GeneralCsc<T>, form: BtfForm) -> (sym: KluSymbolic)
    requires
        a.wf(),
        !too_large(*a),
        form.wf(a.n as int),
        block_upper(*a, form.row_perm@, form.col_perm@, form.block_ptr@),
    ensures
        sym.wf(),
        sym.n == a.n,
        sym.nnz == a.row_idx@.len(),
        sym.fill is None,
        sym.pre_row_perm@ == form.row_perm@,
        sym.col_perm@ == form.col_perm@,
        sym.block_ptr@ == form.block_ptr@,
        forall|j: int|
            0 <= j < a.n ==> (#[trigger] sym.pattern(j)).len() == a.rows_of(sym.col_perm@[j] as int).len(),
        forall|j: int, q: int|
            0 <= j < a.n && 0 <= q < sym.pattern(j).len() ==> #[trigger] sym.pattern(j)[q]
                == sym.pinv_pre@[a.rows_of(sym.col_perm@[j] as int)[q] as int],
{
    let n: usize = a.n;
    let pinv = invert(&form.row_perm, n);
    let mut ptr: Vec<usize> = Vec::new();
    let mut idx: Vec<usize> = Vec::new();
    ptr.push(0);
    let ghost mut taken: Seq<usize> = Seq::empty();
    let mut j: usize = 0;
    proof {
        assert(total_len(*a, form.col_perm@, 0) == 0);
    }
    while j < n
        invariant
            j <= n,
            n == a.n,
            a.wf(),
            form.wf(n as int),
            inverse_of(pinv@, form.row_perm@),
            pinv@.len() == n,
            forall|r: int| 0 <= r < n ==> 0 <= #[trigger] pinv@[r] < n,
            ptr@.len() == j + 1,
            ptr@[0] == 0,
            ptr@[j as int] == idx@.len(),
            idx@.len() == total_len(*a, form.col_perm@, j as int),
            nondecreasing(ptr@),
            forall|k: int|
                0 <= k < j ==> (#[trigger] ptr@[k + 1]) - ptr@[k] == a.rows_of(
                    form.col_perm@[k] as int,
                ).len(),
            forall|k: int, q: int|
                0 <= k < j && 0 <= q < a.rows_of(form.col_perm@[k] as int).len() ==> idx@[ptr@[k] + q]
                    == pinv@[#[trigger] a.rows_of(form.col_perm@[k] as int)[q] as int],
        decreases n - j,
    {
        let c: usize = form.col_perm[j];
        proof {
            assert(form.col_perm@[j as int] < n);
            column_range(*a, c as int);
        }
        let ghost rows = a.rows_of(c as int);
        let ghost idx0 = idx@;
        let ghost ptr0 = ptr@;
        let lo: usize = a.col_ptr[c];
        let hi: usize = a.col_ptr[c + 1];
        let mut q: usize = lo;
        while q < hi
            invariant
                n == a.n,
                lo <= q <= hi <= a.row_idx@.len(),
                rows.len() == hi - lo,
                below(rows, n as int),
                forall|x: int| 0 <= x < rows.len() ==> #[trigger] rows[x] == a.row_idx@[lo + x],
                pinv@.len() == n,
                idx@.len() == idx0.len() + (q - lo),
                forall|x: int| 0 <= x < idx0.len() ==> #[trigger] idx@[x] == idx0[x],
                forall|x: int| 0 <= x < q - lo ==> idx@[idx0.len() + x] == pinv@[#[trigger] rows[x] as int],
            decreases hi - q,
        {
            assert(rows[q - lo] == a.row_idx@[q as int]);
            idx.push(pinv[a.row_idx[q]]);
            q = q + 1;
        }
        ptr.push(idx.len());
        proof {
            assert forall|x: int, y: int| 0 <= x <= y < ptr@.len() implies #[trigger] ptr@[x] <= #[trigger] ptr@[y] by {
                if y == j + 1 && x <= j {
                    assert(ptr0[x] <= ptr0[j as int]);
                } else if y <= j {
                    assert(ptr0[x] <= ptr0[y]);
                }
            }
            assert forall|k: int| 0 <= k < j + 1 implies (#[trigger] ptr@[k + 1]) - ptr@[k] == a.rows_of(
                form.col_perm@[k] as int,
            ).len() by {
                if k < j {
                    assert(ptr0[k + 1] - ptr0[k] == a.rows_of(form.col_perm@[k] as int).len());
                }
            }
            assert forall|k: int, x: int|
                0 <= k < j + 1 && 0 <= x < a.rows_of(form.col_perm@[k] as int).len() implies idx@[ptr@[k] + x]
                == pinv@[#[trigger] a.rows_of(form.col_perm@[k] as int)[x] as int] by {
                if k < j {
                    assert(ptr0[k + 1] - ptr0[k] == a.rows_of(form.col_perm@[k] as int).len());
                    assert(ptr0[k + 1] <= ptr0[j as int]);
                    assert(idx0[ptr0[k] + x] == pinv@[a.rows_of(form.col_perm@[k] as int)[x] as int]);
                    assert(idx@[ptr0[k] + x] == idx0[ptr0[k] + x]);
                } else {
                    assert(idx@[idx0.len() + x] == pinv@[rows[x] as int]);
                }
            }
        }
        j = j + 1;
    }
    proof {
        total_is_nnz(*a, form.col_perm@);
    }
    let BtfForm { row_perm, col_perm, block_ptr } = form;
    let sym = KluSymbolic {
        n,
        nnz: a.row_idx.len(),
        pre_row_perm: row_perm,
        pinv_pre: pinv,
        col_perm,
        block_ptr,
        pat_col_ptr: ptr,
        pat_row_idx: idx,
        fill: None,
    };
    proof {
        assert forall|j: int| 0 <= j < n implies {
            let rows = a.rows_of(sym.col_perm@[j] as int);
            &&& (#[trigger] sym.pattern(j)).len() == rows.len()
            &&& forall|q: int|
                0 <= q < rows.len() ==> #[trigger] sym.pattern(j)[q] == sym.pinv_pre@[rows[q] as int]
        } by {
            let rows = a.rows_of(sym.col_perm@[j] as int);
            assert(ptr@[j + 1] - ptr@[j] == rows.len());
            assert(ptr@[j + 1] <= ptr@[n as int]);
            assert forall|q: int| 0 <= q < rows.len() implies #[trigger] sym.pattern(j)[q]
                == sym.pinv_pre@[rows[q] as int] by {
                assert(sym.pattern(j)[q] == idx@[ptr@[j] + q]);
                assert(idx@[ptr@[j] + q] == pinv@[a.rows_of(sym.col_perm@[j] as int)[q] as int]);
            }
        }
        assert forall|j: int| 0 <= j < n implies distinct(#[trigger] sym.pattern(j)) by {
            let rows = a.rows_of(sym.col_perm@[j] as int);
            let pat = sym.pattern(j);
            assert(sym.col_perm@[j] < n);
            column_range(*a, sym.col_perm@[j] as int);
            assert forall|x: int, y: int| 0 <= x < y < pat.len() implies #[trigger] pat[x] != #[trigger] pat[y] by {
                assert(pat[x] == pinv@[rows[x] as int] && pat[y] == pinv@[rows[y] as int]);
                assert(rows[x] != rows[y]);
                assert(rows[x] < n && rows[y] < n);
                inverse_back(sym.pre_row_perm@, pinv@, n as int, rows[x] as int);
                inverse_back(sym.pre_row_perm@, pinv@, n as int, rows[y] as int);
            }
        }
        assert forall|b: int, j: int| #[trigger] in_block(sym.block_ptr@, b, j) implies below(
            sym.pattern(j),
            sym.block_ptr@[b + 1] as int,
        ) by {
            block_range(n as int, sym.block_ptr@, b);
            let rows = a.rows_of(sym.col_perm@[j] as int);
            let pat = sym.pattern(j);
            assert(sym.col_perm@[j] < n);
            column_range(*a, sym.col_perm@[j] as int);
            assert forall|x: int| 0 <= x < pat.len() implies #[trigger] pat[x] < sym.block_ptr@[b + 1] by {
                assert(pat[x] == pinv@[rows[x] as int]);
                assert(rows[x] < n);
                inverse_back(sym.pre_row_perm@, pinv@, n as int, rows[x] as int);
                let p = pinv@[rows[x] as int] as int;
                assert(sym.pre_row_perm@[p] == rows[x]);
                assert(stores(*a, sym.pre_row_perm@[p] as int, sym.col_perm@[j] as int));
            }
        }
    }
    sym
}

/// The entries of the first `k` listed columns.
spec fn total_len<T>(a: GeneralCsc<T>, cp: Seq<usize>, k: int) -> int
    decreases k,
{
    if k <= 0 {
        0
    } else {
        total_len(a, cp, k - 1) + a.rows_of(cp[k - 1] as int).len()
    }
}

/// All columns together hold all entries.
proof fn total_is_nnz<T>(a: GeneralCsc<T>, cp: Seq<usize>)
    requires
        a.wf(),
        is_permutation(cp, a.n as int),
    ensures
        total_len(a, cp, a.n as int) == a.row_idx@.len(),
{
    let n = a.n as int;
    let id = Seq::new(n as nat, |i: int| i as usize);
    natural_total(a, id, n);
    swap_total(a, cp, id, n);
}

proof fn natural_total<T>(a: GeneralCsc<T>, id: Seq<usize>, k: int)
    requires
        a.wf(),
        0 <= k <= a.n,
        id.len() == a.n,
        forall|i: int| 0 <= i < id.len() ==> #[trigger] id[i] == i,
    ensures
        total_len(a, id, k) == a.col_ptr@[k],
    decreases k,
{
    if k > 0 {
        natural_total(a, id, k - 1);
        column_range(a, k - 1);
        assert(id[k - 1] == k - 1);
    }
}

/// The sum of the column lengths over the listed columns below a bound.
spec fn picked<T>(a: GeneralCsc<T>, c: int, bound: int) -> int {
    if c < bound {
        a.rows_of(c).len() as int
    } else {
        0
    }
}

spec fn picked_total<T>(a: GeneralCsc<T>, cp: Seq<usize>, k: int, bound: int) -> int
    decreases k,
{
    if k <= 0 {
        0
    } else {
        picked_total(a, cp, k - 1, bound) + picked(a, cp[k - 1] as int, bound)
    }
}

/// Raising the bound by one adds the length of one column.
proof fn picked_step<T>(a: GeneralCsc<T>, cp: Seq<usize>, k: int, bound: int)
    requires
        0 <= k <= cp.len(),
        distinct(cp),
    ensures
        picked_total(a, cp, k, bound + 1) == picked_total(a, cp, k, bound) + (if occurs(
            cp.take(k),
            bound,
        ) {
            a.rows_of(bound).len() as int
        } else {
            0
        }),
    decreases k,
{
    if k > 0 {
        picked_step(a, cp, k - 1, bound);
        let h = cp.take(k);
        let g = cp.take(k - 1);
        if occurs(g, bound) {
            let x = position(g, bound);
            assert(h[x] == bound);
            assert(cp[x] != cp[k - 1]);
        } else if cp[k - 1] == bound {
            assert(h[k - 1] == bound);
        } else if occurs(h, bound) {
            let x = position(h, bound);
            assert(g[x] == bound);
        }
    } else {
        assert(!occurs(cp.take(0), bound));
    }
}

proof fn picked_none<T>(a: GeneralCsc<T>, cp: Seq<usize>, k: int)
    ensures
        picked_total(a, cp, k, 0) == 0,
    decreases k,
{
    if k > 0 {
        picked_none(a, cp, k - 1);
    }
}

proof fn picked_all<T>(a: GeneralCsc<T>, cp: Seq<usize>, k: int)
    requires
        below(cp, a.n as int),
        0 <= k <= cp.len(),
    ensures
        picked_total(a, cp, k, a.n as int) == total_len(a, cp, k),
    decreases k,
{
    if k > 0 {
        picked_all(a, cp, k - 1);
        assert(cp[k - 1] < a.n);
    }
}

/// The picked lengths depend only on the bound.
proof fn picked_same<T>(a: GeneralCsc<T>, cp: Seq<usize>, dp: Seq<usize>, bound: int)
    requires
        is_permutation(cp, a.n as int),
        is_permutation(dp, a.n as int),
        0 <= bound <= a.n,
    ensures
        picked_total(a, cp, a.n as int, bound) == picked_total(a, dp, a.n as int, bound),
    decreases bound,
{
    let n = a.n as int;
    if bound == 0 {
        picked_none(a, cp, n);
        picked_none(a, dp, n);
    } else {
        picked_same(a, cp, dp, bound - 1);
        picked_step(a, cp, n, bound - 1);
        picked_step(a, dp, n, bound - 1);
        assert(cp.take(n) =~= cp);
        assert(dp.take(n) =~= dp);
        crate::seqs::permutation_is_onto(cp, n, bound - 1);
        crate::seqs::permutation_is_onto(dp, n, bound - 1);
    }
}

proof fn swap_total<T>(a: GeneralCsc<T>, cp: Seq<usize>, dp: Seq<usize>, k: int)
    requires
        is_permutation(cp, a.n as int),
        is_permutation(dp, a.n as int),
        k == a.n,
    ensures
        total_len(a, cp, k) == total_len(a, dp, k),
{
    picked_same(a, cp, dp, k);
    picked_all(a, cp, k);
    picked_all(a, dp, k);
}

/// A form whose blocks are in order, with nothing below them.
spec fn form_ready<T>(a: GeneralCsc<T>, form: BtfForm, btf: bool) -> bool {
    &&& form.wf(a.n as int)
    &&& block_upper(a, form.row_perm@, form.col_perm@, form.block_ptr@)
    &&& btf ==> exists|m: Seq<usize>| #[trigger]
        is_btf(a, form.row_perm@, form.col_perm@, form.block_ptr@, m)
    &&& !btf ==> form.block_ptr@.len() == (if a.n == 0 {
        1int
    } else {
        2int
    })
}

/// The ordered form under one transversal.
fn form_of_matching<T: Scalar, O: Reordering<T>>(a: &GeneralCsc<T>, m: &Vec<usize>, ordering: &O) -> (r: Result<
    BtfForm,
    RslabError,
>)
    requires
        a.wf(),
        is_transversal(*a, m@),
    ensures
        r matches Ok(g) ==> form_ready(*a, g, true) && formed_by(*a, *ordering, m@, g),
        r matches Err(e) ==> e is InvalidInput && !ordering.is_total() && unordered(
            *a,
            true,
            *ordering,
        ),
{
    let form = btf_from_matching(a, m);
    let r = order_blocks(a, &form, ordering);
    proof {
        if r is Ok {
            reordering_keeps_the_form(*a, form, r->Ok_0);
            assert(is_btf(
                *a,
                r->Ok_0.row_perm@,
                r->Ok_0.col_perm@,
                r->Ok_0.block_ptr@,
                m@,
            ));
        }
    }
    r
}

/// The ordered form of the whole matrix as one block.
fn single_block<T: Scalar, O: Reordering<T>>(a: &GeneralCsc<T>, ordering: &O) -> (r: Result<BtfForm, RslabError>)
    requires
        a.wf(),
    ensures
        r matches Ok(g) ==> form_ready(*a, g, false) && settled_form(*a, false, false, *ordering, g),
        r matches Err(e) ==> e is InvalidInput && !ordering.is_total() && unordered(
            *a,
            false,
            *ordering,
        ),
{
    let n: usize = a.n;
    let mut ptr: Vec<usize> = Vec::new();
    ptr.push(0);
    if n > 0 {
        ptr.push(n);
    }
    let form = BtfForm { row_perm: count_up(n), col_perm: count_up(n), block_ptr: ptr };
    assert(form.wf(n as int));
    assert(is_whole(n as int, form)) by {
        if n == 0 {
            assert(form.block_ptr@ =~= seq![0usize]);
        } else {
            assert(form.block_ptr@ =~= seq![0usize, n]);
        }
    }
    proof {
        assert(block_upper(*a, form.row_perm@, form.col_perm@, form.block_ptr@)) by {
            assert forall|b: int, j: int, p: int|
                #![trigger in_block(form.block_ptr@, b, j), form.row_perm@[p]]
                in_block(form.block_ptr@, b, j) && 0 <= p < a.n implies p < form.block_ptr@[b + 1] by {}
        }
    }
    let r = order_blocks(a, &form, ordering);
    proof {
        if r is Ok {
            reordering_keeps_the_form(*a, form, r->Ok_0);
        }
    }
    r
}

/// One more candidate: the better of it and the best so far.
proof fn one_more_form<T: Scalar, O: Reordering<T>>(
    a: GeneralCsc<T>,
    o: O,
    ms: Seq<Seq<usize>>,
    forms: Seq<BtfForm>,
    best: BtfForm,
    m: Seq<usize>,
    f: BtfForm,
)
    requires
        least_fill(a, o, ms, forms, best),
        formed_by(a, o, m, f),
    ensures
        least_fill(
            a,
            o,
            ms.push(m),
            forms.push(f),
            if fill_of(a, f) < fill_of(a, best) {
                f
            } else {
                best
            },
        ),
{
    let ms2 = ms.push(m);
    let forms2 = forms.push(f);
    assert forall|i: int| 0 <= i < ms2.len() implies formed_by(a, o, #[trigger] ms2[i], forms2[i]) by {
        if i < ms.len() {
            assert(formed_by(a, o, ms[i], forms[i]));
        }
    }
    let k = choose|k: int|
        #![trigger forms[k]]
        {
            &&& 0 <= k < forms.len()
            &&& forms[k] == best
            &&& forall|i: int| 0 <= i < k ==> fill_of(a, best) < fill_of(a, #[trigger] forms[i])
            &&& forall|i: int| k <= i < forms.len() ==> fill_of(a, best) <= fill_of(a, #[trigger] forms[i])
        };
    if fill_of(a, f) < fill_of(a, best) {
        assert(forms2[forms.len() as int] == f);
        assert forall|i: int| 0 <= i < forms.len() implies fill_of(a, f) < fill_of(a, #[trigger] forms2[i]) by {
            assert(forms2[i] == forms[i]);
        }
    } else {
        assert(forms2[k] == best);
        assert forall|i: int| 0 <= i < k implies fill_of(a, best) < fill_of(a, #[trigger] forms2[i]) by {
            assert(forms2[i] == forms[i]);
        }
        assert forall|i: int| k <= i < forms2.len() implies fill_of(a, best) <= fill_of(
            a,
            #[trigger] forms2[i],
        ) by {
            if i < forms.len() {
                assert(forms2[i] == forms[i]);
            }
        }
    }
}

/// The ordered form under the candidate with the least Cholesky fill: the
/// library's own transversal, then those that the source offers.
fn best_candidate<T: Scalar, O: Reordering<T>>(a: &GeneralCsc<T>, ordering: &O) -> (r: Result<
    BtfForm,
    RslabError,
>)
    requires
        a.wf(),
        a.n < 0x8000_0000,
    ensures
        r matches Ok(g) ==> form_ready(*a, g, true) && cheapest_form(*a, *ordering, g),
        r matches Err(e) ==> {
            ||| e is InvalidInput && !ordering.is_total() && unordered(*a, true, *ordering)
            ||| e is StructurallySingular && !has_transversal(*a)
        },
        r is Ok ==> has_transversal(*a),
{
    let own = match maximum_transversal(a) {
        Some(m) => m,
        None => {
            return Err(RslabError::StructurallySingular);
        },
    };
    let mut best = match form_of_matching(a, &own, ordering) {
        Ok(f) => f,
        Err(e) => {
            return Err(e);
        },
    };
    let offered = ordering.matching_candidates(a);
    let ghost lists = ordering.offered(*a);
    let ghost mut forms: Seq<BtfForm> = seq![best];
    let mut scored = false;
    let mut score: u64 = 0;
    let mut i: usize = 0;
    proof {
        assert(own_transversal(*a, own@)) by {
            if forall|j: int| 0 <= j < a.n ==> #[trigger] stores(*a, j, j) {
                assert(own@ =~= counting(a.n as int));
            }
        }
        let ms = seq![own@] + usable_offers(*a, lists, 0);
        assert(ms =~= seq![own@]);
        assert(forms[0] == best);
        assert(least_fill(*a, *ordering, ms, forms, best));
    }
    while i < offered.len()
        invariant
            a.wf(),
            a.n < 0x8000_0000,
            i <= offered@.len(),
            form_ready(*a, best, true),
            own_transversal(*a, own@),
            lists == ordering.offered(*a),
            lists_of(offered@) == lists,
            least_fill(
                *a,
                *ordering,
                seq![own@] + usable_offers(*a, lists, i as int),
                forms,
                best,
            ),
            scored ==> score == fill_of(*a, best),
        decreases offered@.len() - i,
    {
        let ghost ms0 = seq![own@] + usable_offers(*a, lists, i as int);
        let ghost ms1 = seq![own@] + usable_offers(*a, lists, i + 1);
        assert(lists[i as int] == offered@[i as int]@);
        if check_transversal(a, &offered[i]) {
            if !scored {
                score = fill_score(a, &best);
                scored = true;
            }
            match form_of_matching(a, &offered[i], ordering) {
                Ok(f) => {
                    let s: u64 = fill_score(a, &f);
                    let ghost best0 = best;
                    let ghost forms0 = forms;
                    proof {
                        forms = forms0.push(f);
                        assert(ms1 =~= ms0.push(lists[i as int]));
                    }
                    if s < score {
                        best = f;
                        score = s;
                    }
                    proof {
                        one_more_form(
                            *a,
                            *ordering,
                            ms0,
                            forms0,
                            best0,
                            lists[i as int],
                            forms.last(),
                        );
                        assert(least_fill(*a, *ordering, ms1, forms, best));
                    }
                },
                Err(e) => {
                    return Err(e);
                },
            }
        } else {
            assert(ms1 == ms0);
        }
        i = i + 1;
    }
    assert(lists.len() == offered@.len());
    assert(least_fill(
        *a,
        *ordering,
        seq![own@] + usable_offers(*a, ordering.offered(*a), ordering.offered(*a).len() as int),
        forms,
        best,
    ));
    Ok(best)
}

impl KluSymbolic {
    /// Analyze the pattern of `a`: block triangular form (unless disabled), and
    /// inside each block the order that `ordering` gives. The values are read
    /// only by the row matching.
    pub fn analyze_with<T: Scalar, O: Reordering<T>>(
        a: &GeneralCsc<T>,
        settings: &KluSettings<T::Real>,
        ordering: &O,
    ) -> (r: Result<KluSymbolic, RslabError>)
        ensures
            r matches Ok(sym) ==> a.wf() && !too_large(*a) && analyzes(sym, *a, *settings),
            r matches Ok(sym) ==> arranged(sym, *a, *settings, *ordering),
            r is Ok ==> (settings.btf ==> has_transversal(*a)),
            r matches Err(e) ==> {
                ||| e is InvalidInput && (!a.wf() || too_large(*a) || (!ordering.is_total()
                    && unordered(*a, settings.btf, *ordering)))
                ||| e is StructurallySingular && a.wf() && !too_large(*a) && settings.btf
                    && !has_transversal(*a)
            },
    {
        match a.validate() {
            Err(e) => {
                return Err(e);
            },
            Ok(()) => {},
        }
        if a.n >= 0x8000_0000 || a.nnz() >= 0x8000_0000 {
            return Err(
                RslabError::InvalidInput(
                    "klu: dimension/nnz exceeds the 31-bit index range of this path",
                ),
            );
        }
        let weighted = if settings.btf && settings.matching {
            match ordering.weighted_matching(a) {
                Some(m) => if check_transversal(a, &m) {
                    Some(m)
                } else {
                    None
                },
                None => None,
            }
        } else {
            None
        };
        let made = match &weighted {
            Some(m) => {
                form_of_matching(a, m, ordering)
            },
            None => if settings.btf {
                best_candidate(a, ordering)
            } else {
                single_block(a, ordering)
            },
        };
        match made {
            Ok(form) => {
                let ghost rp = form.row_perm@;
                let ghost cp = form.col_perm@;
                let ghost ptr = form.block_ptr@;
                proof {
                    if settings.btf {
                        let m = choose|m: Seq<usize>| #[trigger] is_btf(*a, rp, cp, ptr, m);
                        assert(is_transversal(*a, m));
                    }
                }
                assert(settled_form(*a, settings.btf, settings.matching, *ordering, form));
                Ok(freeze(a, form))
            },
            Err(e) => Err(e),
        }
    }

    /// Analyze the pattern of `a` (see [`KluSymbolic::analyze_with`]), with the
    /// columns of each block by ascending degree.
    ///
    /// Fails with [`RslabError::StructurallySingular`] when no complete
    /// matching exists (some set of `k` columns has entries in fewer than `k`
    /// rows); such a matrix is singular for every value assignment.
    pub fn analyze<T: Scalar>(a: &GeneralCsc<T>, settings: &KluSettings<T::Real>) -> (r: Result<
        KluSymbolic,
        RslabError,
    >)
        ensures
            r is Ok <==> a.wf() && !too_large(*a) && (settings.btf ==> has_transversal(*a)),
            r matches Ok(sym) ==> analyzes(sym, *a, *settings),
            r matches Ok(sym) ==> arranged(sym, *a, *settings, DegreeOrder),
            r matches Err(e) ==> {
                ||| e is InvalidInput && (!a.wf() || too_large(*a))
                ||| e is StructurallySingular && a.wf() && !too_large(*a) && settings.btf
                    && !has_transversal(*a)
            },
    {
        Self::analyze_with(a, settings, &DegreeOrder)
    }
}

} // verus!
