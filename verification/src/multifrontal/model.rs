//! The assembly tree as a model: which columns a supernode owns, which rows its
//! front has, and what the front holds.

use crate::multifrontal::kernel::cell;
use crate::multifrontal::permute::rows_in;
use crate::multifrontal::tree::{parent_of, parent_upto, CscPattern, Supernode, SymbolicFactorization};
use crate::scalar::Scalar;
use crate::seqs::{ascending, below, distinct, inverse_of, is_permutation, occurs};
use crate::sparse::{pointers_ok, position, GeneralCsc};
use vstd::prelude::*;

verus! {

/// What a supernode hands to its parent: the columns it could not eliminate and
/// the rows that follow, with the remaining symmetric matrix on them.
#[derive(Debug, Clone)]
pub struct ContribBlock<T> {
    /// Delayed columns first, then the other rows.
    pub row_indices: Vec<usize>,
    /// The lower triangle, column by column, `dim` squared entries.
    pub data: Vec<T>,
    pub dim: usize,
    pub n_delayed: usize,
}

/// The column after the last one of supernode `s`.
pub open spec fn last_col(sn: Seq<Supernode>, s: int) -> int {
    sn[s].first_col + sn[s].ncol
}

/// The supernodes cut the columns into consecutive runs.
pub open spec fn runs_ok(sn: Seq<Supernode>, n: int) -> bool {
    &&& sn.len() == 0 ==> n == 0
    &&& sn.len() > 0 ==> sn[0].first_col == 0
    &&& forall|s: int| 0 <= s < sn.len() - 1 ==> last_col(sn, s) == (#[trigger] sn[s + 1]).first_col
    &&& sn.len() > 0 ==> last_col(sn, sn.len() - 1) == n
}

/// Children come first, and nobody has two parents.
pub open spec fn children_ok(sn: Seq<Supernode>) -> bool {
    &&& forall|s: int| 0 <= s < sn.len() ==> below((#[trigger] sn[s]).children@, s)
    &&& forall|s: int| 0 <= s < sn.len() ==> distinct((#[trigger] sn[s]).children@)
    &&& forall|s: int, t: int, c: int|
        #![trigger occurs(sn[s].children@, c), occurs(sn[t].children@, c)]
        0 <= s < sn.len() && 0 <= t < sn.len() && occurs(sn[s].children@, c) && occurs(
            sn[t].children@,
            c,
        ) ==> s == t
}

impl CscPattern {
    /// The rows of column `j`.
    pub open spec fn rows_of(&self, j: int) -> Seq<usize> {
        rows_in(self.col_ptr@, self.row_idx@, j)
    }

    pub open spec fn wf(&self) -> bool {
        &&& pointers_ok(self.n as int, self.col_ptr@, self.row_idx@.len() as int)
        &&& below(self.row_idx@, self.n as int)
    }
}

/// Row `r` is stored in one of the columns `lo..hi` of the pattern.
pub open spec fn pattern_hits(p: CscPattern, lo: int, hi: int, r: int) -> bool {
    exists|j: int| lo <= j < hi && occurs(#[trigger] p.rows_of(j), r)
}

impl SymbolicFactorization {
    /// The analysis fits together.
    pub open spec fn wf(&self) -> bool {
        &&& is_permutation(self.perm@, self.n as int)
        &&& inverse_of(self.perm_inv@, self.perm@)
        &&& is_permutation(self.perm_inv@, self.n as int)
        &&& runs_ok(self.supernodes@, self.n as int)
        &&& children_ok(self.supernodes@)
        &&& self.permuted_pattern.n == self.n
        &&& self.permuted_pattern.wf()
    }
}

/// The runs of two supernodes do not overlap.
pub proof fn runs_ordered(sn: Seq<Supernode>, n: int, s: int, t: int)
    requires
        runs_ok(sn, n),
        0 <= s < t < sn.len(),
    ensures
        last_col(sn, s) <= sn[t].first_col,
        last_col(sn, t) <= n,
    decreases sn.len() - s,
{
    assert(last_col(sn, s) == sn[s + 1].first_col);
    if s + 1 < t {
        runs_ordered(sn, n, s + 1, t);
    } else {
        run_ends(sn, n, t);
    }
}

/// A run ends inside the matrix.
pub proof fn run_ends(sn: Seq<Supernode>, n: int, s: int)
    requires
        runs_ok(sn, n),
        0 <= s < sn.len(),
    ensures
        last_col(sn, s) <= n,
    decreases sn.len() - s,
{
    if s < sn.len() - 1 {
        run_ends(sn, n, s + 1);
        assert(last_col(sn, s) == sn[s + 1].first_col);
    }
}

/// Supernode `o` owns column `col`.
pub open spec fn owns(sn: Seq<Supernode>, o: int, col: int) -> bool {
    0 <= o < sn.len() && sn[o].first_col <= col < last_col(sn, o)
}

/// Supernode `o` is `c` or below it in the tree.
pub open spec fn descends(sn: Seq<Supernode>, o: int, c: int) -> bool
    decreases sn.len() - o,
{
    if o == c {
        true
    } else if o >= sn.len() {
        false
    } else {
        match parent_of(sn, o) {
            Some(p) => o < p < sn.len() && descends(sn, p, c),
            None => false,
        }
    }
}

/// The column belongs to the subtree of `c`.
pub open spec fn in_subtree(sn: Seq<Supernode>, c: int, col: int) -> bool {
    exists|o: int| #[trigger] owns(sn, o, col) && descends(sn, o, c)
}

/// A column has one owner.
pub proof fn owner_unique(sn: Seq<Supernode>, n: int, o: int, q: int, col: int)
    requires
        runs_ok(sn, n),
        owns(sn, o, col),
        owns(sn, q, col),
    ensures
        o == q,
{
    if o < q {
        runs_ordered(sn, n, o, q);
    } else if q < o {
        runs_ordered(sn, n, q, o);
    }
}

/// The parent is who lists the child.
pub proof fn parent_is(sn: Seq<Supernode>, c: int, s: int, k: int)
    requires
        children_ok(sn),
        0 <= s < sn.len(),
        occurs(sn[s].children@, c),
        0 <= k <= sn.len(),
    ensures
        parent_upto(sn, c, k) == (if s < k {
            Some(s)
        } else {
            None
        }),
    decreases k,
{
    if k > 0 {
        if occurs(sn[k - 1].children@, c) {
            assert(s == k - 1);
        } else {
            parent_is(sn, c, s, k - 1);
        }
    }
}

/// Descent goes upwards in the numbering.
pub proof fn descends_up(sn: Seq<Supernode>, o: int, c: int)
    requires
        descends(sn, o, c),
    ensures
        o <= c,
    decreases sn.len() - o,
{
    if o != c {
        descends_up(sn, parent_of(sn, o)->0, c);
    }
}

/// Two supernodes above the same one are one above the other.
proof fn descent_is_a_chain(sn: Seq<Supernode>, o: int, a: int, b: int)
    requires
        descends(sn, o, a),
        descends(sn, o, b),
    ensures
        descends(sn, a, b) || descends(sn, b, a),
    decreases sn.len() - o,
{
    if o != a && o != b {
        descent_is_a_chain(sn, parent_of(sn, o)->0, a, b);
    }
}

/// What descends from a child descends from the parent.
pub proof fn descends_further(sn: Seq<Supernode>, o: int, c: int, s: int)
    requires
        children_ok(sn),
        0 <= s < sn.len(),
        occurs(sn[s].children@, c),
        descends(sn, o, c),
    ensures
        descends(sn, o, s),
    decreases sn.len() - o,
{
    let kids = sn[s].children@;
    let q = position(kids, c);
    assert(kids[q] == c);
    assert(below(sn[s].children@, s));
    if o == c {
        parent_is(sn, c, s, sn.len() as int);
        assert(descends(sn, s, s));
    } else {
        descends_further(sn, parent_of(sn, o)->0, c, s);
    }
}

/// The subtrees of two children share no column.
pub proof fn siblings_disjoint(sn: Seq<Supernode>, n: int, s: int, c: int, d: int, col: int)
    requires
        runs_ok(sn, n),
        children_ok(sn),
        0 <= s < sn.len(),
        occurs(sn[s].children@, c),
        occurs(sn[s].children@, d),
        in_subtree(sn, c, col),
        in_subtree(sn, d, col),
    ensures
        c == d,
{
    let o = choose|o: int| #[trigger] owns(sn, o, col) && descends(sn, o, c);
    let q = choose|q: int| #[trigger] owns(sn, q, col) && descends(sn, q, d);
    owner_unique(sn, n, o, q, col);
    descent_is_a_chain(sn, o, c, d);
    assert(below(sn[s].children@, s));
    assert(sn[s].children@[position(sn[s].children@, c)] == c);
    assert(sn[s].children@[position(sn[s].children@, d)] == d);
    parent_is(sn, c, s, sn.len() as int);
    parent_is(sn, d, s, sn.len() as int);
    if c != d {
        if descends(sn, c, d) {
            descends_up(sn, s, d);
        } else {
            descends_up(sn, s, c);
        }
    }
}

/// A contribution of supernode `c`.
pub open spec fn contrib_ok<T>(sn: Seq<Supernode>, n: int, c: int, b: ContribBlock<T>) -> bool {
    &&& b.row_indices@.len() == b.dim
    &&& b.data@.len() == b.dim * b.dim
    &&& b.n_delayed <= b.dim
    &&& distinct(b.row_indices@)
    &&& below(b.row_indices@, n)
    &&& forall|k: int|
        0 <= k < b.n_delayed ==> in_subtree(sn, c, #[trigger] b.row_indices@[k] as int)
    &&& forall|k: int|
        b.n_delayed <= k < b.dim ==> #[trigger] b.row_indices@[k] >= last_col(sn, c)
}

/// A subtree lies before the end of its root.
pub proof fn subtree_before(sn: Seq<Supernode>, n: int, c: int, col: int)
    requires
        runs_ok(sn, n),
        0 <= c < sn.len(),
        in_subtree(sn, c, col),
    ensures
        col < last_col(sn, c),
{
    let o = choose|o: int| #[trigger] owns(sn, o, col) && descends(sn, o, c);
    descends_up(sn, o, c);
    if o < c {
        runs_ordered(sn, n, o, c);
    }
}

/// The contributions of the first `k` children are sound.
pub open spec fn kids_ok<T>(
    sn: Seq<Supernode>,
    n: int,
    s: int,
    store: Seq<Option<ContribBlock<T>>>,
    k: int,
) -> bool {
    forall|q: int|
        0 <= q < k ==> (store[#[trigger] sn[s].children@[q] as int] matches Some(b) ==> contrib_ok(
            sn,
            n,
            sn[s].children@[q] as int,
            b,
        ))
}

/// The delayed columns of the first `k` children, child by child.
pub open spec fn delayed_rows<T>(
    kids: Seq<usize>,
    store: Seq<Option<ContribBlock<T>>>,
    k: int,
) -> Seq<usize>
    decreases k,
{
    if k <= 0 {
        Seq::empty()
    } else {
        match store[kids[k - 1] as int] {
            Some(b) => delayed_rows(kids, store, k - 1) + b.row_indices@.take(b.n_delayed as int),
            None => delayed_rows(kids, store, k - 1),
        }
    }
}

/// Row `r` follows the delayed columns in the contribution of child `q`.
pub open spec fn child_trails<T>(
    kids: Seq<usize>,
    store: Seq<Option<ContribBlock<T>>>,
    q: int,
    r: int,
) -> bool {
    match store[kids[q] as int] {
        Some(b) => occurs(b.row_indices@.skip(b.n_delayed as int), r),
        None => false,
    }
}

/// Row `r` follows the fully summed columns in the front of supernode `s`.
pub open spec fn trails<T>(
    sym: SymbolicFactorization,
    s: int,
    store: Seq<Option<ContribBlock<T>>>,
    r: int,
) -> bool {
    let snode = sym.supernodes@[s];
    r >= last_col(sym.supernodes@, s) && (pattern_hits(
        sym.permuted_pattern,
        snode.first_col as int,
        last_col(sym.supernodes@, s),
        r,
    ) || exists|q: int|
        0 <= q < snode.children@.len() && #[trigger] child_trails(snode.children@, store, q, r))
}

/// The columns that supernode `s` owns.
pub open spec fn own_cols(snode: Supernode) -> Seq<usize> {
    Seq::new(snode.ncol as nat, |k: int| (snode.first_col + k) as usize)
}

/// The rows of the front of supernode `s`: own columns, delayed columns of the
/// children, and the rows that follow in ascending order. In the swapped layout
/// the delayed columns come before the own ones.
pub open spec fn front_layout<T>(
    sym: SymbolicFactorization,
    s: int,
    store: Seq<Option<ContribBlock<T>>>,
    swapped: bool,
    rows: Seq<usize>,
) -> bool {
    let snode = sym.supernodes@[s];
    let del = delayed_rows(snode.children@, store, snode.children@.len() as int);
    let full = snode.ncol + del.len();
    &&& full <= rows.len()
    &&& rows.take(full) == (if swapped {
        del + own_cols(snode)
    } else {
        own_cols(snode) + del
    })
    &&& ascending(rows.skip(full))
    &&& forall|r: int| #[trigger] occurs(rows.skip(full), r) <==> trails(sym, s, store, r)
}

/// The rows of the front in the plain layout.
pub open spec fn front_rows<T>(
    sym: SymbolicFactorization,
    s: int,
    store: Seq<Option<ContribBlock<T>>>,
    rows: Seq<usize>,
) -> bool {
    front_layout(sym, s, store, false, rows)
}

/// A delayed column comes from the subtree of one of the first `k` children.
pub proof fn delayed_source<T>(
    sn: Seq<Supernode>,
    n: int,
    s: int,
    store: Seq<Option<ContribBlock<T>>>,
    k: int,
    x: int,
) -> (q: int)
    requires
        kids_ok(sn, n, s, store, k),
        0 <= k <= sn[s].children@.len(),
        0 <= x < delayed_rows(sn[s].children@, store, k).len(),
    ensures
        0 <= q < k,
        in_subtree(
            sn,
            sn[s].children@[q] as int,
            delayed_rows(sn[s].children@, store, k)[x] as int,
        ),
        delayed_rows(sn[s].children@, store, k)[x] < n,
    decreases k,
{
    let kids = sn[s].children@;
    let before = delayed_rows(kids, store, k - 1);
    if k > 0 {
        if x < before.len() {
            let q = delayed_source(sn, n, s, store, k - 1, x);
            assert(delayed_rows(kids, store, k)[x] == before[x]);
            q
        } else {
            let b = store[kids[k - 1] as int]->0;
            let y = x - before.len();
            assert(contrib_ok(sn, n, kids[k - 1] as int, b));
            assert(delayed_rows(kids, store, k)[x] == b.row_indices@.take(b.n_delayed as int)[y]);
            assert(b.row_indices@[y] < n);
            k - 1
        }
    } else {
        0
    }
}

/// The delayed columns are distinct and lie before the own columns.
pub proof fn delayed_distinct<T>(
    sn: Seq<Supernode>,
    n: int,
    s: int,
    store: Seq<Option<ContribBlock<T>>>,
    k: int,
)
    requires
        runs_ok(sn, n),
        children_ok(sn),
        0 <= s < sn.len(),
        kids_ok(sn, n, s, store, k),
        0 <= k <= sn[s].children@.len(),
    ensures
        distinct(delayed_rows(sn[s].children@, store, k)),
        below(delayed_rows(sn[s].children@, store, k), sn[s].first_col as int),
        forall|x: int|
            0 <= x < delayed_rows(sn[s].children@, store, k).len() ==> in_subtree(
                sn,
                s,
                #[trigger] delayed_rows(sn[s].children@, store, k)[x] as int,
            ),
    decreases k,
{
    let kids = sn[s].children@;
    let del = delayed_rows(kids, store, k);
    assert(below(sn[s].children@, s));
    assert(distinct(sn[s].children@));
    assert forall|x: int| 0 <= x < del.len() implies #[trigger] del[x] < sn[s].first_col
        && in_subtree(sn, s, del[x] as int) by {
        let q = delayed_source(sn, n, s, store, k, x);
        let c = kids[q] as int;
        assert(occurs(kids, c));
        subtree_before(sn, n, c, del[x] as int);
        runs_ordered(sn, n, c, s);
        let o = choose|o: int| #[trigger] owns(sn, o, del[x] as int) && descends(sn, o, c);
        descends_further(sn, o, c, s);
    }
    if k > 0 {
        delayed_distinct(sn, n, s, store, k - 1);
        let before = delayed_rows(kids, store, k - 1);
        assert forall|x: int, y: int| 0 <= x < y < del.len() implies #[trigger] del[x]
            != #[trigger] del[y] by {
            if y < before.len() {
                assert(before[x] != before[y]);
            } else {
                let b = store[kids[k - 1] as int]->0;
                let head = b.row_indices@.take(b.n_delayed as int);
                let c = kids[k - 1] as int;
                assert(contrib_ok(sn, n, c, b));
                assert(del[y] == head[y - before.len()]);
                if x < before.len() {
                    let q = delayed_source(sn, n, s, store, k - 1, x);
                    assert(del[x] == before[x]);
                    if del[x] == del[y] {
                        assert(occurs(kids, kids[q] as int));
                        assert(occurs(kids, c));
                        assert(in_subtree(sn, c, b.row_indices@[y - before.len()] as int));
                        siblings_disjoint(sn, n, s, kids[q] as int, c, del[x] as int);
                        assert(kids[q] != kids[k - 1]);
                    }
                } else {
                    assert(del[x] == head[x - before.len()]);
                    assert(b.row_indices@[x - before.len()] != b.row_indices@[y - before.len()]);
                }
            }
        }
    }
}

/// How many delayed columns supernode `s` receives.
pub open spec fn delayed_in<T>(
    sym: SymbolicFactorization,
    s: int,
    store: Seq<Option<ContribBlock<T>>>,
) -> int {
    delayed_rows(
        sym.supernodes@[s].children@,
        store,
        sym.supernodes@[s].children@.len() as int,
    ).len() as int
}

/// Where the own columns start in a layout.
pub open spec fn own_start<T>(
    sym: SymbolicFactorization,
    s: int,
    store: Seq<Option<ContribBlock<T>>>,
    swapped: bool,
) -> int {
    if swapped {
        delayed_in(sym, s, store)
    } else {
        0
    }
}

/// Where the delayed columns start in a layout.
pub open spec fn delayed_start(sym: SymbolicFactorization, s: int, swapped: bool) -> int {
    if swapped {
        0
    } else {
        sym.supernodes@[s].ncol as int
    }
}

/// The rows of a front are distinct: own columns, earlier columns of the
/// subtree, later rows.
pub proof fn front_rows_distinct<T>(
    sym: SymbolicFactorization,
    s: int,
    store: Seq<Option<ContribBlock<T>>>,
    swapped: bool,
    rows: Seq<usize>,
)
    requires
        sym.wf(),
        0 <= s < sym.supernodes@.len(),
        kids_ok(
            sym.supernodes@,
            sym.n as int,
            s,
            store,
            sym.supernodes@[s].children@.len() as int,
        ),
        front_layout(sym, s, store, swapped, rows),
    ensures
        distinct(rows),
        below(rows, sym.n as int),
        forall|k: int|
            own_start(sym, s, store, swapped) <= k < own_start(sym, s, store, swapped)
                + sym.supernodes@[s].ncol ==> #[trigger] rows[k] == sym.supernodes@[s].first_col + k
                - own_start(sym, s, store, swapped),
        forall|k: int|
            delayed_start(sym, s, swapped) <= k < delayed_start(sym, s, swapped) + delayed_in(
                sym,
                s,
                store,
            ) ==> #[trigger] rows[k] < sym.supernodes@[s].first_col && in_subtree(
                sym.supernodes@,
                s,
                rows[k] as int,
            ),
        forall|k: int|
            sym.supernodes@[s].ncol + delayed_in(sym, s, store) <= k < rows.len()
                ==> #[trigger] rows[k] >= last_col(sym.supernodes@, s),
{
    let sn = sym.supernodes@;
    let n = sym.n as int;
    let snode = sn[s];
    let kids = snode.children@;
    let del = delayed_rows(kids, store, kids.len() as int);
    let own = snode.ncol as int;
    let full = own + del.len();
    let tail = rows.skip(full);
    let olo = own_start(sym, s, store, swapped);
    let dlo = delayed_start(sym, s, swapped);
    delayed_distinct(sn, n, s, store, kids.len() as int);
    run_ends(sn, n, s);
    let head = if swapped {
        del + own_cols(snode)
    } else {
        own_cols(snode) + del
    };
    assert forall|k: int| olo <= k < olo + own implies #[trigger] rows[k] == snode.first_col + k
        - olo by {
        assert(rows.take(full)[k] == head[k]);
    }
    assert forall|k: int| dlo <= k < dlo + del.len() implies #[trigger] rows[k] == del[k - dlo]
        && rows[k] < snode.first_col && in_subtree(sn, s, rows[k] as int) by {
        assert(rows.take(full)[k] == head[k]);
        assert(del[k - dlo] < snode.first_col);
    }
    assert forall|k: int| full <= k < rows.len() implies #[trigger] rows[k] >= last_col(sn, s)
        && rows[k] < n by {
        assert(tail[k - full] == rows[k]);
        assert(occurs(tail, rows[k] as int));
        assert(trails(sym, s, store, rows[k] as int));
        trailing_inside(sym, s, store, rows[k] as int);
    }
    assert forall|x: int, y: int| 0 <= x < y < rows.len() implies #[trigger] rows[x]
        != #[trigger] rows[y] by {
        if x >= full {
            assert(tail[x - full] < tail[y - full]);
        } else if dlo <= x < dlo + del.len() && dlo <= y < dlo + del.len() {
            assert(del[x - dlo] != del[y - dlo]);
        }
    }
}

/// A following row is a row of the matrix.
pub proof fn trailing_inside<T>(
    sym: SymbolicFactorization,
    s: int,
    store: Seq<Option<ContribBlock<T>>>,
    r: int,
)
    requires
        sym.wf(),
        0 <= s < sym.supernodes@.len(),
        kids_ok(
            sym.supernodes@,
            sym.n as int,
            s,
            store,
            sym.supernodes@[s].children@.len() as int,
        ),
        trails(sym, s, store, r),
    ensures
        0 <= r < sym.n,
{
    let sn = sym.supernodes@;
    let snode = sn[s];
    let p = sym.permuted_pattern;
    run_ends(sn, sym.n as int, s);
    if pattern_hits(p, snode.first_col as int, last_col(sn, s), r) {
        let j = choose|j: int|
            snode.first_col <= j < last_col(sn, s) && occurs(#[trigger] p.rows_of(j), r);
        let q = position(p.rows_of(j), r);
        assert(p.rows_of(j)[q] == r);
        assert(p.col_ptr@[j] <= p.col_ptr@[j + 1]);
        assert(p.col_ptr@[j + 1] <= p.col_ptr@[p.n as int]);
        assert(p.row_idx@[p.col_ptr@[j] + q] == r);
    } else {
        let q = choose|q: int|
            0 <= q < snode.children@.len() && #[trigger] child_trails(
                snode.children@,
                store,
                q,
                r,
            );
        let b = store[snode.children@[q] as int]->0;
        assert(contrib_ok(sn, sym.n as int, snode.children@[q] as int, b));
        let t = b.row_indices@.skip(b.n_delayed as int);
        let x = position(t, r);
        assert(t[x] == r);
        assert(b.row_indices@[b.n_delayed + x] == r);
    }
}

/// Entry `(i, j)` of a front before any contribution: the scaled entry of the
/// matrix in the own columns, zero elsewhere.
pub open spec fn base_at<T: Scalar>(
    a: GeneralCsc<T>,
    scaling: Seq<T>,
    rows: Seq<usize>,
    own_lo: int,
    own_hi: int,
    i: int,
    j: int,
) -> T {
    if own_lo <= j < own_hi && a.col(rows[j] as int).contains_key(rows[i] as int) {
        a.col(rows[j] as int)[rows[i] as int].times_spec(scaling[rows[i] as int]).times_spec(
            scaling[rows[j] as int],
        )
    } else {
        T::zero_spec()
    }
}

/// The entry of a contribution for the rows `r` and `c` of the matrix.
pub open spec fn contrib_at<T>(b: ContribBlock<T>, r: int, c: int) -> T {
    b.data@[cell(b.dim as int, position(b.row_indices@, r), position(b.row_indices@, c))]
}

/// Entry `(i, j)` of a front after a contribution was added; zeros are skipped.
pub open spec fn added<T: Scalar>(
    v: T,
    b: ContribBlock<T>,
    rows: Seq<usize>,
    i: int,
    j: int,
) -> T {
    let r = rows[i] as int;
    let c = rows[j] as int;
    if occurs(b.row_indices@, r) && occurs(b.row_indices@, c) && !contrib_at(b, r, c).is_zero_spec() {
        v.plus_spec(contrib_at(b, r, c))
    } else {
        v
    }
}

/// Entry `(i, j)` of a front after the contributions of the first `k` children.
pub open spec fn front_at<T: Scalar>(
    a: GeneralCsc<T>,
    scaling: Seq<T>,
    rows: Seq<usize>,
    own_lo: int,
    own_hi: int,
    kids: Seq<usize>,
    store: Seq<Option<ContribBlock<T>>>,
    k: int,
    i: int,
    j: int,
) -> T
    decreases k,
{
    if k <= 0 {
        base_at(a, scaling, rows, own_lo, own_hi, i, j)
    } else {
        let before = front_at(a, scaling, rows, own_lo, own_hi, kids, store, k - 1, i, j);
        match store[kids[k - 1] as int] {
            Some(b) => added(before, b, rows, i, j),
            None => before,
        }
    }
}

} // verus!
