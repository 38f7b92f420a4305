//! Orderings of a diagonal block, and the pattern that they work on.

use crate::columns::turn_columns;
use crate::klu::form::BtfForm;
use crate::klu::matching::stores;
use crate::scalar::Scalar;
use crate::reach::lists_of;
use crate::seqs::{
    ascending, ascending_is_listed, below, copied, count_up, counting, distinct, inverse_of,
    is_permutation, listed, occurs,
};
use crate::sorted::{grown, merge};
use crate::sparse::{column_range, position, GeneralCsc, SparseColumn};
use vstd::prelude::*;

verus! {

/// A source of row matchings and of fill-reducing orderings.
pub trait Reordering<T: Scalar> {
    /// The ordering never fails.
    spec fn is_total(&self) -> bool;

    /// What [`Reordering::weighted_matching`] gives.
    spec fn weighted(&self, a: GeneralCsc<T>) -> Option<Seq<usize>>;

    /// What [`Reordering::matching_candidates`] gives.
    spec fn offered(&self, a: GeneralCsc<T>) -> Seq<Seq<usize>>;

    /// What [`Reordering::order_block`] gives.
    spec fn order_of(&self, cols: Seq<Seq<usize>>) -> Option<Seq<usize>>;

    /// A row for every column, chosen by the weight of the entries, if there
    /// is such a matching. What does not match all rows is not used.
    fn weighted_matching(&self, a: &GeneralCsc<T>) -> (r: Option<Vec<usize>>)
        ensures
            list_is(r, self.weighted(*a)),
    ;

    /// Further matchings to try; those that do not match all rows are not used.
    fn matching_candidates(&self, a: &GeneralCsc<T>) -> (r: Vec<Vec<usize>>)
        ensures
            lists_of(r@) == self.offered(*a),
    ;

    /// An order in which to eliminate the columns of a symmetric pattern
    /// (ascending columns, diagonal included).
    fn order_block(&self, cols: &Vec<Vec<usize>>) -> (r: Option<Vec<usize>>)
        ensures
            list_is(r, self.order_of(lists_of(cols@))),
            self.is_total() ==> r is Some && is_permutation(r->0@, cols@.len() as int),
    ;
}

/// The list that an optional vector holds.
pub open spec fn list_is(r: Option<Vec<usize>>, s: Option<Seq<usize>>) -> bool {
    match r {
        Some(v) => s == Some(v@),
        None => s is None,
    }
}

/// The columns of the symmetrized pattern of the block at `bs`.
pub open spec fn symmetric_lists<T>(
    a: GeneralCsc<T>,
    rp: Seq<usize>,
    cp: Seq<usize>,
    bs: int,
    m: int,
) -> Seq<Seq<usize>> {
    Seq::new(m as nat, |j: int| listed(m, |i: int| symmetric_pattern(a, rp, cp, bs)(i, j)))
}

/// The symmetrized pattern of the block at `bs`: an entry, its mirror image, or
/// the diagonal.
pub open spec fn symmetric_pattern<T>(
    a: GeneralCsc<T>,
    rp: Seq<usize>,
    cp: Seq<usize>,
    bs: int,
) -> spec_fn(int, int) -> bool {
    |i: int, j: int|
        i == j || stores(a, rp[bs + i] as int, cp[bs + j] as int) || stores(
            a,
            rp[bs + j] as int,
            cp[bs + i] as int,
        )
}

/// The symmetrized pattern of the block `bs..be`, every column ascending.
pub fn symmetrize<T>(a: &GeneralCsc<T>, form: &BtfForm, pinv: &Vec<usize>, bs: usize, be: usize) -> (cols: Vec<
    Vec<usize>,
>)
    requires
        a.wf(),
        form.wf(a.n as int),
        inverse_of(pinv@, form.row_perm@),
        bs < be <= a.n,
    ensures
        cols@.len() == be - bs,
        forall|j: int| 0 <= j < be - bs ==> ascending(#[trigger] cols@[j]@),
        forall|j: int| 0 <= j < be - bs ==> below(#[trigger] cols@[j]@, be - bs),
        forall|j: int, i: int|
            0 <= j < be - bs && 0 <= i < be - bs ==> (#[trigger] occurs(cols@[j]@, i)
                <==> symmetric_pattern(*a, form.row_perm@, form.col_perm@, bs as int)(i, j)),
        lists_of(cols@) == symmetric_lists(
            *a,
            form.row_perm@,
            form.col_perm@,
            bs as int,
            be - bs,
        ),
{
    let n: usize = a.n;
    let m: usize = be - bs;
    let mut part: Vec<SparseColumn<()>> = Vec::new();
    let mut c: usize = 0;
    while c < m
        invariant
            c <= m,
            m == be - bs,
            bs < be <= n,
            n == a.n,
            a.wf(),
            form.wf(n as int),
            inverse_of(pinv@, form.row_perm@),
            part@.len() == c,
            forall|j: int| 0 <= j < c ==> (#[trigger] part@[j]).wf(m as int),
            forall|j: int, i: int|
                0 <= j < c && 0 <= i < m ==> (#[trigger] occurs(part@[j].rows@, i) <==> stores(
                    *a,
                    form.row_perm@[bs + i] as int,
                    form.col_perm@[bs + j] as int,
                )),
        decreases m - c,
    {
        let oc: usize = form.col_perm[bs + c];
        proof {
            assert(form.col_perm@[bs + c] < n);
            column_range(*a, oc as int);
        }
        let ghost part0 = part@;
        let ghost rows = a.rows_of(oc as int);
        let lo: usize = a.col_ptr[oc];
        let hi: usize = a.col_ptr[oc + 1];
        let mut local: Vec<usize> = Vec::new();
        let mut marks: Vec<()> = Vec::new();
        let mut q: usize = lo;
        while q < hi
            invariant
                n == a.n,
                m == be - bs,
                bs < be <= n,
                lo <= q <= hi <= a.row_idx@.len(),
                rows == a.rows_of(oc as int),
                rows.len() == hi - lo,
                below(rows, n as int),
                distinct(rows),
                forall|x: int| 0 <= x < rows.len() ==> #[trigger] rows[x] == a.row_idx@[lo + x],
                form.wf(n as int),
                inverse_of(pinv@, form.row_perm@),
                local@.len() == marks@.len(),
                below(local@, m as int),
                distinct(local@),
                forall|i: int|
                    0 <= i < m ==> (#[trigger] occurs(local@, i) <==> occurs(
                        rows.take(q - lo),
                        form.row_perm@[bs + i] as int,
                    )),
            decreases hi - q,
        {
            let r: usize = a.row_idx[q];
            let ghost l0 = local@;
            proof {
                assert(rows[q - lo] == r);
                assert(r < n);
                crate::klu::gather::inverse_back(form.row_perm@, pinv@, n as int, r as int);
                grown(rows, q - lo, q - lo + 1);
            }
            let pre: usize = pinv[r];
            if pre >= bs && pre < be {
                let li: usize = pre - bs;
                proof {
                    if occurs(l0, li as int) {
                        assert(occurs(rows.take(q - lo), form.row_perm@[bs + li] as int));
                        let x = position(rows.take(q - lo), r as int);
                        assert(rows[x] != rows[q - lo]);
                    }
                }
                local.push(li);
                marks.push(());
                proof {
                    let t = local@;
                    assert forall|i: int| #[trigger] occurs(t, i) <==> i == li || occurs(l0, i) by {
                        if i == li {
                            assert(t[l0.len() as int] == i);
                        }
                        if occurs(l0, i) {
                            assert(t[position(l0, i)] == i);
                        }
                        if occurs(t, i) {
                            let k = position(t, i);
                            if k < l0.len() {
                                assert(l0[k] == i);
                            }
                        }
                    }
                    assert forall|x: int, y: int| 0 <= x < y < t.len() implies #[trigger] t[x] != #[trigger] t[y] by {
                        if y < l0.len() {
                            assert(l0[x] != l0[y]);
                        } else {
                            assert(l0[x] == t[x]);
                        }
                    }
                }
            }
            q = q + 1;
            proof {
                assert forall|i: int| 0 <= i < m implies (#[trigger] occurs(local@, i) <==> occurs(
                    rows.take(q - lo),
                    form.row_perm@[bs + i] as int,
                )) by {
                    assert(occurs(l0, i) <==> occurs(
                        rows.take(q - 1 - lo),
                        form.row_perm@[bs + i] as int,
                    ));
                    assert(form.row_perm@[bs + i] == r <==> pre == bs + i) by {
                        assert(pinv@[form.row_perm@[bs + i] as int] == bs + i);
                    }
                }
            }
        }
        proof {
            assert(rows.take(hi - lo) =~= rows);
        }
        part.push(SparseColumn { rows: local, vals: marks });
        c = c + 1;
        proof {
            assert forall|j: int, i: int| 0 <= j < c && 0 <= i < m implies (#[trigger] occurs(part@[j].rows@, i)
                <==> stores(*a, form.row_perm@[bs + i] as int, form.col_perm@[bs + j] as int)) by {
                if j < c - 1 {
                    assert(part@[j] == part0[j]);
                }
            }
        }
    }
    let by_row = turn_columns(m, &part);
    let by_col = turn_columns(m, &by_row);
    let mut cols: Vec<Vec<usize>> = Vec::new();
    c = 0;
    while c < m
        invariant
            c <= m,
            m == be - bs,
            n == a.n,
            part@.len() == m,
            by_row@.len() == m,
            by_col@.len() == m,
            forall|j: int| 0 <= j < m ==> (#[trigger] by_row@[j]).wf(m as int),
            forall|j: int| 0 <= j < m ==> (#[trigger] by_col@[j]).wf(m as int),
            forall|j: int| 0 <= j < m ==> ascending((#[trigger] by_row@[j]).rows@),
            forall|j: int| 0 <= j < m ==> ascending((#[trigger] by_col@[j]).rows@),
            forall|i: int, j: int|
                0 <= i < m && 0 <= j < m ==> (#[trigger] by_row@[i]@.contains_key(j)
                    <==> part@[j]@.contains_key(i)),
            forall|i: int, j: int|
                0 <= i < m && 0 <= j < m ==> (#[trigger] by_col@[i]@.contains_key(j)
                    <==> by_row@[j]@.contains_key(i)),
            forall|j: int, i: int|
                0 <= j < m && 0 <= i < m ==> (#[trigger] occurs(part@[j].rows@, i) <==> stores(
                    *a,
                    form.row_perm@[bs + i] as int,
                    form.col_perm@[bs + j] as int,
                )),
            cols@.len() == c,
            forall|j: int| 0 <= j < c ==> ascending(#[trigger] cols@[j]@),
            forall|j: int| 0 <= j < c ==> below(#[trigger] cols@[j]@, m as int),
            forall|j: int, i: int|
                0 <= j < c && 0 <= i < m ==> (#[trigger] occurs(cols@[j]@, i) <==> symmetric_pattern(
                    *a,
                    form.row_perm@,
                    form.col_perm@,
                    bs as int,
                )(i, j)),
        decreases m - c,
    {
        let ghost cols0 = cols@;
        let mut diag: Vec<usize> = Vec::new();
        diag.push(c);
        assert(by_col@[c as int].wf(m as int));
        assert(by_row@[c as int].wf(m as int));
        let both = merge(&by_col[c].rows, &by_row[c].rows);
        let full = merge(&both, &diag);
        proof {
            assert forall|i: int| occurs(diag@, i) <==> i == c by {
                assert(diag@[0] == c);
            }
            assert forall|x: int| 0 <= x < full@.len() implies #[trigger] full@[x] < m by {
                let i = full@[x] as int;
                assert(occurs(full@, i));
                assert(occurs(both@, i) || occurs(diag@, i));
                if occurs(both@, i) {
                    if occurs(by_col@[c as int].rows@, i) {
                        let y = position(by_col@[c as int].rows@, i);
                        assert(by_col@[c as int].rows@[y] < m);
                    } else {
                        let y = position(by_row@[c as int].rows@, i);
                        assert(by_row@[c as int].rows@[y] < m);
                    }
                }
            }
            assert forall|i: int| 0 <= i < m implies (#[trigger] occurs(full@, i) <==> symmetric_pattern(
                *a,
                form.row_perm@,
                form.col_perm@,
                bs as int,
            )(i, c as int)) by {
                assert(by_col@[c as int]@.contains_key(i) <==> by_row@[i]@.contains_key(c as int));
                assert(by_row@[i]@.contains_key(c as int) <==> part@[c as int]@.contains_key(i));
                assert(by_row@[c as int]@.contains_key(i) <==> part@[i]@.contains_key(c as int));
                assert(occurs(part@[c as int].rows@, i) <==> stores(
                    *a,
                    form.row_perm@[bs + i] as int,
                    form.col_perm@[bs + c] as int,
                ));
                assert(occurs(part@[i].rows@, c as int) <==> stores(
                    *a,
                    form.row_perm@[bs + c] as int,
                    form.col_perm@[bs + i] as int,
                ));
                assert(occurs(both@, i) <==> occurs(by_col@[c as int].rows@, i) || occurs(
                    by_row@[c as int].rows@,
                    i,
                ));
            }
        }
        cols.push(full);
        c = c + 1;
        proof {
            assert forall|j: int| 0 <= j < c implies ascending(#[trigger] cols@[j]@) by {
                if j < c - 1 {
                    assert(ascending(cols0[j]@));
                }
            }
            assert forall|j: int| 0 <= j < c implies below(#[trigger] cols@[j]@, m as int) by {
                if j < c - 1 {
                    assert(below(cols0[j]@, m as int));
                }
            }
            assert forall|j: int, i: int| 0 <= j < c && 0 <= i < m implies (#[trigger] occurs(cols@[j]@, i)
                <==> symmetric_pattern(*a, form.row_perm@, form.col_perm@, bs as int)(i, j)) by {
                if j < c - 1 {
                    assert(occurs(cols0[j]@, i) <==> symmetric_pattern(*a, form.row_perm@, form.col_perm@, bs as int)(i, j));
                }
            }
        }
    }
    proof {
        let lists = symmetric_lists(*a, form.row_perm@, form.col_perm@, bs as int, m as int);
        assert forall|j: int| 0 <= j < m implies #[trigger] lists_of(cols@)[j] == lists[j] by {
            let in_column = |i: int|
                symmetric_pattern(*a, form.row_perm@, form.col_perm@, bs as int)(i, j);
            assert(ascending(cols@[j]@));
            assert(below(cols@[j]@, m as int));
            assert forall|i: int| 0 <= i < m implies (#[trigger] occurs(cols@[j]@, i) <==> in_column(i)) by {}
            ascending_is_listed(cols@[j]@, m as int, in_column);
        }
        assert(lists_of(cols@) =~= lists);
    }
    cols
}

/// The list is a permutation of `0..n`.
pub fn check_permutation(p: &Vec<usize>, n: usize) -> (b: bool)
    ensures
        b == is_permutation(p@, n as int),
{
    if p.len() != n {
        return false;
    }
    let mut seen: Vec<bool> = Vec::new();
    let mut i: usize = 0;
    while i < n
        invariant
            i <= n,
            seen@.len() == i,
            forall|v: int| 0 <= v < i ==> !#[trigger] seen@[v],
        decreases n - i,
    {
        seen.push(false);
        i = i + 1;
    }
    proof {
        assert forall|v: int| 0 <= v < n implies (#[trigger] seen@[v] <==> occurs(p@.take(0), v)) by {}
    }
    i = 0;
    while i < n
        invariant
            i <= n,
            p@.len() == n,
            seen@.len() == n,
            forall|v: int| 0 <= v < n ==> (#[trigger] seen@[v] <==> occurs(p@.take(i as int), v)),
            below(p@.take(i as int), n as int),
            distinct(p@.take(i as int)),
        decreases n - i,
    {
        let v: usize = p[i];
        let ghost h = p@.take(i as int);
        let ghost h2 = p@.take(i + 1);
        if v >= n {
            assert(p@[i as int] >= n);
            return false;
        }
        if seen[v] {
            proof {
                assert(occurs(h, v as int));
                let k = position(h, v as int);
                assert(h[k] == v);
                assert(p@[k] == p@[i as int]);
            }
            return false;
        }
        seen.set(v, true);
        proof {
            grown(p@, i as int, i + 1);
            assert forall|x: int, y: int| 0 <= x < y < h2.len() implies #[trigger] h2[x] != #[trigger] h2[y] by {
                if y < i {
                    assert(h[x] != h[y]);
                } else {
                    assert(h[x] == h2[x]);
                    if h2[x] == h2[y] {
                        assert(occurs(h, v as int));
                    }
                }
            }
            assert forall|x: int| 0 <= x < h2.len() implies #[trigger] h2[x] < n by {
                if x < i {
                    assert(h[x] < n);
                }
            }
        }
        i = i + 1;
    }
    assert(p@.take(n as int) =~= p@);
    true
}

/// Keeps the columns of a block as they stand.
pub struct NaturalOrder;

/// Eliminates the columns of a block by ascending degree; equal degrees keep
/// their order.
pub struct DegreeOrder;

impl<T: Scalar> Reordering<T> for NaturalOrder {
    open spec fn is_total(&self) -> bool {
        true
    }

    open spec fn weighted(&self, a: GeneralCsc<T>) -> Option<Seq<usize>> {
        None
    }

    open spec fn offered(&self, a: GeneralCsc<T>) -> Seq<Seq<usize>> {
        Seq::empty()
    }

    open spec fn order_of(&self, cols: Seq<Seq<usize>>) -> Option<Seq<usize>> {
        Some(counting(cols.len() as int))
    }

    fn weighted_matching(&self, a: &GeneralCsc<T>) -> (r: Option<Vec<usize>>) {
        None
    }

    fn matching_candidates(&self, a: &GeneralCsc<T>) -> (r: Vec<Vec<usize>>) {
        Vec::new()
    }

    fn order_block(&self, cols: &Vec<Vec<usize>>) -> (r: Option<Vec<usize>>) {
        Some(count_up(cols.len()))
    }
}

/// `x` comes before `y`: a smaller degree, or the same and a smaller number.
pub open spec fn degree_before(cols: Seq<Vec<usize>>, x: int, y: int) -> bool {
    cols[x]@.len() < cols[y]@.len() || (cols[x]@.len() == cols[y]@.len() && x < y)
}

/// The longest of the first `k` lists.
pub open spec fn longest(cols: Seq<Seq<usize>>, k: int) -> int
    decreases k,
{
    if k <= 0 {
        0
    } else if cols[k - 1].len() > longest(cols, k - 1) {
        cols[k - 1].len() as int
    } else {
        longest(cols, k - 1)
    }
}

/// The columns with fewer than `d` entries, by ascending degree; equal degrees
/// keep their order.
pub open spec fn by_degree(cols: Seq<Seq<usize>>, d: int) -> Seq<usize>
    decreases d,
{
    if d <= 0 {
        Seq::empty()
    } else {
        by_degree(cols, d - 1) + listed(cols.len() as int, |k: int| cols[k].len() == d - 1)
    }
}

impl<T: Scalar> Reordering<T> for DegreeOrder {
    open spec fn is_total(&self) -> bool {
        true
    }

    open spec fn weighted(&self, a: GeneralCsc<T>) -> Option<Seq<usize>> {
        None
    }

    open spec fn offered(&self, a: GeneralCsc<T>) -> Seq<Seq<usize>> {
        Seq::empty()
    }

    open spec fn order_of(&self, cols: Seq<Seq<usize>>) -> Option<Seq<usize>> {
        Some(by_degree(cols, longest(cols, cols.len() as int) + 1))
    }

    fn weighted_matching(&self, a: &GeneralCsc<T>) -> (r: Option<Vec<usize>>) {
        None
    }

    fn matching_candidates(&self, a: &GeneralCsc<T>) -> (r: Vec<Vec<usize>>) {
        Vec::new()
    }

    fn order_block(&self, cols: &Vec<Vec<usize>>) -> (r: Option<Vec<usize>>) {
        Some(degree_order(cols))
    }
}

/// Row matchings that were computed elsewhere, with the columns of a block by
/// ascending degree.
pub struct SuppliedMatchings {
    /// A matching chosen by the weight of the entries.
    pub weighted: Option<Vec<usize>>,
    /// Further matchings to try.
    pub offered: Vec<Vec<usize>>,
}

impl<T: Scalar> Reordering<T> for SuppliedMatchings {
    open spec fn is_total(&self) -> bool {
        true
    }

    open spec fn weighted(&self, a: GeneralCsc<T>) -> Option<Seq<usize>> {
        match self.weighted {
            Some(m) => Some(m@),
            None => None,
        }
    }

    open spec fn offered(&self, a: GeneralCsc<T>) -> Seq<Seq<usize>> {
        lists_of(self.offered@)
    }

    open spec fn order_of(&self, cols: Seq<Seq<usize>>) -> Option<Seq<usize>> {
        Some(by_degree(cols, longest(cols, cols.len() as int) + 1))
    }

    fn weighted_matching(&self, a: &GeneralCsc<T>) -> (r: Option<Vec<usize>>) {
        match &self.weighted {
            Some(m) => Some(copied(m)),
            None => None,
        }
    }

    fn matching_candidates(&self, a: &GeneralCsc<T>) -> (r: Vec<Vec<usize>>) {
        let mut out: Vec<Vec<usize>> = Vec::new();
        let mut i: usize = 0;
        while i < self.offered.len()
            invariant
                i <= self.offered@.len(),
                out@.len() == i,
                forall|k: int| 0 <= k < i ==> (#[trigger] out@[k])@ == self.offered@[k]@,
            decreases self.offered@.len() - i,
        {
            out.push(copied(&self.offered[i]));
            i = i + 1;
        }
        assert(lists_of(out@) =~= lists_of(self.offered@));
        out
    }

    fn order_block(&self, cols: &Vec<Vec<usize>>) -> (r: Option<Vec<usize>>) {
        Some(degree_order(cols))
    }
}

/// The columns by ascending length; equal lengths keep their order.
pub fn degree_order(cols: &Vec<Vec<usize>>) -> (p: Vec<usize>)
    ensures
        p@ == by_degree(lists_of(cols@), longest(lists_of(cols@), cols@.len() as int) + 1),
        is_permutation(p@, cols@.len() as int),
        forall|x: int, y: int|
            0 <= x < y < p@.len() ==> degree_before(
                cols@,
                #[trigger] p@[x] as int,
                #[trigger] p@[y] as int,
            ),
        forall|x: int, y: int|
            0 <= x < y < p@.len() ==> {
                let (d, e) = (
                    cols@[#[trigger] p@[x] as int]@.len(),
                    cols@[#[trigger] p@[y] as int]@.len(),
                );
                d <= e && (d == e ==> p@[x] < p@[y])
            },
{
    let n: usize = cols.len();
    // Buckets by degree, longest degree found first.
    let mut top: usize = 0;
    let mut j: usize = 0;
    while j < n
        invariant
            j <= n,
            n == cols@.len(),
            forall|k: int| 0 <= k < j ==> (#[trigger] cols@[k]@).len() <= top,
            top == longest(lists_of(cols@), j as int),
        decreases n - j,
    {
        assert(lists_of(cols@)[j as int] == cols@[j as int]@);
        if cols[j].len() > top {
            top = cols[j].len();
        }
        j = j + 1;
    }
    let mut buckets: Vec<Vec<usize>> = Vec::new();
    let mut d: usize = 0;
    while d < top
        invariant
            d <= top,
            buckets@.len() == d,
            forall|k: int| 0 <= k < d ==> (#[trigger] buckets@[k]@).len() == 0,
        decreases top - d,
    {
        buckets.push(Vec::new());
        d = d + 1;
    }
    buckets.push(Vec::new());
    j = 0;
    while j < n
        invariant
            j <= n,
            n == cols@.len(),
            forall|k: int| 0 <= k < n ==> (#[trigger] cols@[k]@).len() <= top,
            buckets@.len() == top + 1,
            forall|e: int| 0 <= e <= top ==> below(#[trigger] buckets@[e]@, j as int),
            forall|e: int| 0 <= e <= top ==> ascending(#[trigger] buckets@[e]@),
            forall|e: int, k: int|
                0 <= e <= top && 0 <= k < n ==> (#[trigger] occurs(buckets@[e]@, k) <==> k < j && cols@[k]@.len()
                    == e),
        decreases n - j,
    {
        let e: usize = cols[j].len();
        let ghost b0 = buckets@;
        assert(cols@[j as int]@.len() <= top);
        buckets[e].push(j);
        proof {
            let s0 = b0[e as int]@;
            let s1 = buckets@[e as int]@;
            assert(s1 == s0.push(j));
            assert forall|i: int| #[trigger] occurs(s1, i) <==> i == j || occurs(s0, i) by {
                if i == j {
                    assert(s1[s0.len() as int] == i);
                }
                if occurs(s0, i) {
                    assert(s1[position(s0, i)] == i);
                }
                if occurs(s1, i) {
                    let k = position(s1, i);
                    if k < s0.len() {
                        assert(s0[k] == i);
                    }
                }
            }
            assert(below(b0[e as int]@, j as int));
            assert(ascending(b0[e as int]@));
            assert forall|f: int| 0 <= f <= top implies below(#[trigger] buckets@[f]@, j + 1) by {
                assert(below(b0[f]@, j as int));
                let s = buckets@[f]@;
                assert forall|x: int| 0 <= x < s.len() implies #[trigger] s[x] < j + 1 by {
                    if x < b0[f]@.len() {
                        assert(b0[f]@[x] < j);
                    }
                }
            }
            assert forall|f: int| 0 <= f <= top implies ascending(#[trigger] buckets@[f]@) by {
                assert(ascending(b0[f]@));
                if f == e {
                    assert forall|x: int, y: int| 0 <= x < y < s1.len() implies #[trigger] s1[x] < #[trigger] s1[y] by {
                        if y < s0.len() {
                            assert(s0[x] < s0[y]);
                        } else {
                            assert(s0[x] < j);
                        }
                    }
                }
            }
            assert forall|f: int, k: int| 0 <= f <= top && 0 <= k < n implies (#[trigger] occurs(buckets@[f]@, k)
                <==> k < j + 1 && cols@[k]@.len() == f) by {
                assert(occurs(b0[f]@, k) <==> k < j && cols@[k]@.len() == f);
                if f != e {
                    assert(buckets@[f] == b0[f]);
                }
            }
        }
        j = j + 1;
    }
    let mut p: Vec<usize> = Vec::new();
    let degrees: usize = buckets.len();
    d = 0;
    while d < degrees
        invariant
            d <= degrees,
            degrees == top + 1,
            n == cols@.len(),
            buckets@.len() == top + 1,
            forall|e: int| 0 <= e <= top ==> below(#[trigger] buckets@[e]@, n as int),
            forall|e: int| 0 <= e <= top ==> ascending(#[trigger] buckets@[e]@),
            forall|e: int, k: int|
                0 <= e <= top && 0 <= k < n ==> (#[trigger] occurs(buckets@[e]@, k) <==> cols@[k]@.len() == e),
            below(p@, n as int),
            p@ == by_degree(lists_of(cols@), d as int),
            forall|x: int| 0 <= x < p@.len() ==> cols@[#[trigger] p@[x] as int]@.len() < d,
            forall|x: int, y: int|
                0 <= x < y < p@.len() ==> degree_before(
                    cols@,
                    #[trigger] p@[x] as int,
                    #[trigger] p@[y] as int,
                ),
            forall|k: int| 0 <= k < n && (#[trigger] cols@[k]@).len() < d ==> occurs(p@, k),
        decreases degrees - d,
    {
        let ghost s = buckets@[d as int]@;
        let ghost p0 = p@;
        let mut q: usize = 0;
        while q < buckets[d].len()
            invariant
                d <= top,
                n == cols@.len(),
                buckets@.len() == top + 1,
                s == buckets@[d as int]@,
                q <= s.len(),
                below(s, n as int),
                ascending(s),
                forall|e: int, k: int|
                    0 <= e <= top && 0 <= k < n ==> (#[trigger] occurs(buckets@[e]@, k) <==> cols@[k]@.len()
                        == e),
                below(p0, n as int),
                forall|x: int| 0 <= x < p0.len() ==> cols@[#[trigger] p0[x] as int]@.len() < d,
                forall|x: int, y: int|
                    0 <= x < y < p0.len() ==> degree_before(
                        cols@,
                        #[trigger] p0[x] as int,
                        #[trigger] p0[y] as int,
                    ),
                p@ == p0 + s.take(q as int),
            decreases s.len() - q,
        {
            p.push(buckets[d][q]);
            q = q + 1;
            assert(p@ =~= p0 + s.take(q as int));
        }
        proof {
            assert(s.take(s.len() as int) =~= s);
            let t = p@;
            assert(below(buckets@[d as int]@, n as int));
            assert(ascending(buckets@[d as int]@));
            let lists = lists_of(cols@);
            let of_degree = |k: int| lists[k].len() == (d + 1) - 1;
            assert forall|k: int| 0 <= k < n implies (#[trigger] occurs(s, k) <==> of_degree(k)) by {
                assert(occurs(buckets@[d as int]@, k) <==> cols@[k]@.len() == d);
                assert(lists[k] == cols@[k]@);
            }
            ascending_is_listed(s, n as int, of_degree);
            assert(p@ =~= by_degree(lists, d + 1));
            assert forall|x: int| 0 <= x < s.len() implies cols@[#[trigger] s[x] as int]@.len() == d && s[x] < n by {
                assert(occurs(buckets@[d as int]@, s[x] as int));
            }
            assert forall|x: int| 0 <= x < t.len() implies #[trigger] t[x] < n by {
                if x < p0.len() {
                    assert(p0[x] < n);
                } else {
                    assert(s[x - p0.len()] < n);
                }
            }
            assert forall|x: int| 0 <= x < t.len() implies cols@[#[trigger] t[x] as int]@.len() < d + 1 by {
                if x < p0.len() {
                    assert(cols@[p0[x] as int]@.len() < d);
                } else {
                    assert(cols@[s[x - p0.len()] as int]@.len() == d);
                }
            }
            assert forall|x: int, y: int| 0 <= x < y < t.len() implies degree_before(
                cols@,
                #[trigger] t[x] as int,
                #[trigger] t[y] as int,
            ) by {
                if y < p0.len() {
                    assert(degree_before(cols@, p0[x] as int, p0[y] as int));
                } else {
                    assert(cols@[s[y - p0.len()] as int]@.len() == d);
                    if x < p0.len() {
                        assert(cols@[p0[x] as int]@.len() < d);
                    } else {
                        assert(cols@[s[x - p0.len()] as int]@.len() == d);
                        assert(s[x - p0.len()] < s[y - p0.len()]);
                    }
                }
            }
            assert forall|k: int| 0 <= k < n && (#[trigger] cols@[k]@).len() < d + 1 implies occurs(t, k) by {
                if cols@[k]@.len() < d {
                    assert(occurs(p0, k));
                    assert(t[position(p0, k)] == k);
                } else {
                    assert(occurs(buckets@[d as int]@, k));
                    let x = position(s, k);
                    assert(t[p0.len() + x] == k);
                }
            }
        }
        d = d + 1;
    }
    proof {
        assert forall|x: int, y: int| 0 <= x < y < p@.len() implies #[trigger] p@[x] != #[trigger] p@[y] by {
            assert(degree_before(cols@, p@[x] as int, p@[y] as int));
        }
        assert forall|k: int| 0 <= k < n implies #[trigger] occurs(p@, k) by {
            assert(cols@[k]@.len() <= top);
        }
        crate::klu::graph::complete_list(p@, n as int);
    }
    p
}

} // verus!
