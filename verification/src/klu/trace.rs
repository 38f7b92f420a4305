//! The course of a block factorization, column by column.
//!
//! Threshold pivoting leaves two things open: the order of independent updates
//! and the choice between candidates of equal magnitude. Both follow from the
//! depth-first search, so the factors are a function of the columns.

use crate::klu::block::BlockLu;
use crate::klu::model::{diag_state, elim};
use crate::reach::{lists_of, search_is_determined, search_lists};
use crate::scalar::{Real, Scalar};
use crate::seqs::occurs;
use crate::sparse::{col_map, col_map_at, dense, position, SparseColumn};
use vstd::prelude::*;

verus! {

/// The first of the largest among the first `q` candidates, if one has positive
/// magnitude.
pub open spec fn first_largest<T: Scalar>(w: Seq<T>, cands: Seq<usize>, q: int) -> Option<usize>
    decreases q,
{
    if q <= 0 {
        None
    } else {
        let best = first_largest(w, cands, q - 1);
        let mark = match best {
            Some(b) => w[b as int].magnitude_spec(),
            None => <T::Real as Real>::zero_spec(),
        };
        if w[cands[q - 1] as int].magnitude_spec().gt_spec(mark) {
            Some(cands[q - 1])
        } else {
            best
        }
    }
}

/// The pivot: the first of the largest candidates, unless the diagonal row
/// qualifies; none if that candidate is not finite.
pub open spec fn chosen_pivot<T: Scalar>(
    w: Seq<T>,
    cands: Seq<usize>,
    diag: usize,
    threshold: T::Real,
) -> Option<usize> {
    match first_largest(w, cands, cands.len() as int) {
        None => None,
        Some(b) => {
            let top = w[b as int].magnitude_spec();
            let at = w[diag as int].magnitude_spec();
            if !top.is_finite_spec() {
                None
            } else if occurs(cands, diag as int) && at.gt_spec(<T::Real as Real>::zero_spec())
                && at.ge_spec(threshold.times_spec(top)) {
                Some(diag)
            } else {
                Some(b)
            }
        },
    }
}

/// The first `q` entries of a list, without `v`.
pub open spec fn without(list: Seq<usize>, v: usize, q: int) -> Seq<usize>
    decreases q,
{
    if q <= 0 {
        Seq::empty()
    } else if list[q - 1] == v {
        without(list, v, q - 1)
    } else {
        without(list, v, q - 1).push(list[q - 1])
    }
}

/// The first `q` rows of a column with the pivotal ones swapped to the front,
/// and how many those are.
pub open spec fn parted(m: int, fin: Seq<usize>, rows: Seq<usize>, q: int) -> (int, Seq<usize>)
    decreases q,
{
    if q <= 0 {
        (0, rows)
    } else {
        let (head, list) = parted(m, fin, rows, q - 1);
        let r = list[q - 1];
        if fin[r as int] != m {
            (head + 1, list.update(head, r).update(q - 1, list[head]))
        } else {
            (head, list)
        }
    }
}

/// The rows and search bounds of the columns after pivot row `v` has pruned the
/// first `t` columns of its elimination order.
pub open spec fn pruned(
    m: int,
    fin: Seq<usize>,
    v: usize,
    order: Seq<usize>,
    rows: Seq<Seq<usize>>,
    ends: Seq<usize>,
    t: int,
) -> (Seq<Seq<usize>>, Seq<usize>)
    decreases t,
{
    if t <= 0 {
        (rows, ends)
    } else {
        let (l, e) = pruned(m, fin, v, order, rows, ends, t - 1);
        let s = order[t - 1] as int;
        if e[s] == l[s].len() && occurs(l[s], v as int) {
            let (head, list) = parted(m, fin, l[s], l[s].len() as int);
            (l.update(s, list), e.update(s, head as usize))
        } else {
            (l, e)
        }
    }
}

/// A block factorization on its way.
pub struct Sweep<T> {
    /// Pivot row of every step.
    pub piv: Seq<usize>,
    /// Step of every row.
    pub fin: Seq<usize>,
    /// Rows of the `L` columns, in their current order.
    pub l_rows: Seq<Seq<usize>>,
    /// How far the search looks into every `L` column.
    pub ends: Seq<usize>,
    /// The `L` columns by row.
    pub lm: Seq<Map<int, T>>,
    /// Elimination order of every column.
    pub u_rows: Seq<Seq<usize>>,
}

/// The steps of the pivotal rows, last finished first.
pub open spec fn elimination_order(fin: Seq<usize>, topo: Seq<usize>) -> Seq<usize> {
    Seq::new(topo.len(), |t: int| fin[topo[topo.len() - 1 - t] as int])
}

/// The candidates divided by the pivot.
pub open spec fn divided<T: Scalar>(w: Seq<T>, rows: Seq<usize>, d: T) -> Map<int, T> {
    Map::new(|r: int| occurs(rows, r), |r: int| w[r].over_spec(d))
}

impl<T: Scalar> Sweep<T> {
    /// Before the first column.
    pub open spec fn fresh(m: int) -> Sweep<T> {
        Sweep {
            piv: Seq::empty(),
            fin: Seq::new(m as nat, |r: int| m as usize),
            l_rows: Seq::empty(),
            ends: Seq::empty(),
            lm: Seq::empty(),
            u_rows: Seq::empty(),
        }
    }

    /// What the search from the rows of a column lists.
    pub open spec fn found(self, m: int, start: Seq<usize>) -> (Seq<usize>, Seq<usize>) {
        choose|topo: Seq<usize>, nonpiv: Seq<usize>| #[trigger]
            search_lists(m, self.l_rows, self.ends, self.fin, start, topo, nonpiv)
    }

    /// The column after the updates of the columns in `order`.
    pub open spec fn updated(self, m: int, col: Map<int, T>, order: Seq<usize>) -> Seq<T> {
        elim(dense(m, col), self.piv, self.lm, order, order.len() as int)
    }

    /// The row that is still the diagonal of the next column.
    pub open spec fn diagonal(self, m: int) -> usize {
        diag_state(m, self.piv, self.piv.len() as int).0[self.piv.len() as int] as usize
    }

    /// With row `v` as the pivot of the next column, whose candidates are `cands`.
    pub open spec fn pivoted_on(
        self,
        m: int,
        w: Seq<T>,
        order: Seq<usize>,
        cands: Seq<usize>,
        v: usize,
    ) -> Sweep<T> {
        let fin = self.fin.update(v as int, self.piv.len() as usize);
        let rows = without(cands, v, cands.len() as int);
        let (l, e) = pruned(
            m,
            fin,
            v,
            order,
            self.l_rows.push(rows),
            self.ends.push(rows.len() as usize),
            order.len() as int,
        );
        Sweep {
            piv: self.piv.push(v),
            fin,
            l_rows: l,
            ends: e,
            lm: self.lm.push(divided(w, rows, w[v as int])),
            u_rows: self.u_rows.push(order),
        }
    }

    /// After the next column, if it has a pivot.
    pub open spec fn next(
        self,
        m: int,
        start: Seq<usize>,
        col: Map<int, T>,
        threshold: T::Real,
    ) -> Option<Sweep<T>> {
        let (topo, cands) = self.found(m, start);
        let order = elimination_order(self.fin, topo);
        let w = self.updated(m, col, order);
        match chosen_pivot(w, cands, self.diagonal(m), threshold) {
            Some(v) => Some(self.pivoted_on(m, w, order, cands, v)),
            None => None,
        }
    }
}

/// The factorization after `k` columns, if each has a pivot.
pub open spec fn sweep<T: Scalar>(
    m: int,
    cols: Seq<SparseColumn<T>>,
    threshold: T::Real,
    k: int,
) -> Option<Sweep<T>>
    decreases k,
{
    if k <= 0 {
        Some(Sweep::fresh(m))
    } else {
        match sweep(m, cols, threshold, k - 1) {
            Some(s) => s.next(m, cols[k - 1].rows@, cols[k - 1]@, threshold),
            None => None,
        }
    }
}

impl<T: Scalar> BlockLu<T> {
    /// These factors, with the search bounds `ends`, as a moment of the course.
    pub open spec fn moment(&self, ends: Seq<usize>) -> Sweep<T> {
        Sweep {
            piv: self.piv@,
            fin: self.fin@,
            l_rows: lists_of(self.l_rows@),
            ends,
            lm: self.lm(),
            u_rows: lists_of(self.u_rows@),
        }
    }

    /// The factors are those that the course leads to.
    pub open spec fn swept(
        &self,
        m: int,
        cols: Seq<SparseColumn<T>>,
        threshold: T::Real,
    ) -> bool {
        exists|ends: Seq<usize>|
            #![trigger self.moment(ends)]
            sweep(m, cols, threshold, m) == Some(self.moment(ends))
    }
}

/// Column `k` is the first without a pivot.
pub open spec fn sweep_fails<T: Scalar>(
    m: int,
    cols: Seq<SparseColumn<T>>,
    threshold: T::Real,
    k: int,
) -> bool {
    &&& sweep(m, cols, threshold, k) is Some
    &&& sweep(m, cols, threshold, k + 1) is None
}

/// The search of the next column lists exactly what a search listed.
pub proof fn found_is<T: Scalar>(
    s: Sweep<T>,
    m: int,
    start: Seq<usize>,
    topo: Seq<usize>,
    nonpiv: Seq<usize>,
)
    requires
        search_lists(m, s.l_rows, s.ends, s.fin, start, topo, nonpiv),
    ensures
        s.found(m, start) == (topo, nonpiv),
{
    let (t, np) = s.found(m, start);
    search_is_determined(m, s.l_rows, s.ends, s.fin, start, topo, nonpiv, t, np);
}

/// A column of `L` by row.
pub proof fn divided_is<T: Scalar>(w: Seq<T>, rows: Seq<usize>, vals: Seq<T>, d: T)
    requires
        rows.len() == vals.len(),
        crate::seqs::distinct(rows),
        forall|q: int| 0 <= q < rows.len() ==> #[trigger] vals[q] == w[rows[q] as int].over_spec(d),
    ensures
        col_map(rows, vals) == divided(w, rows, d),
{
    assert forall|r: int| #[trigger] col_map(rows, vals).contains_key(r) implies col_map(rows, vals)[r]
        == divided(w, rows, d)[r] by {
        let q = position(rows, r);
        col_map_at(rows, vals, q);
    }
    assert(col_map(rows, vals) =~= divided(w, rows, d));
}

/// The course reads only the rows and values of the columns.
pub proof fn sweep_reads_views<T: Scalar>(
    m: int,
    cols1: Seq<SparseColumn<T>>,
    cols2: Seq<SparseColumn<T>>,
    threshold: T::Real,
    k: int,
)
    requires
        k <= cols1.len(),
        k <= cols2.len(),
        forall|c: int| 0 <= c < k ==> #[trigger] cols1[c].rows@ == cols2[c].rows@,
        forall|c: int| 0 <= c < k ==> #[trigger] cols1[c].vals@ == cols2[c].vals@,
    ensures
        sweep(m, cols1, threshold, k) == sweep(m, cols2, threshold, k),
    decreases k,
{
    if k > 0 {
        sweep_reads_views(m, cols1, cols2, threshold, k - 1);
        assert(cols1[k - 1].rows@ == cols2[k - 1].rows@);
        assert(cols1[k - 1].vals@ == cols2[k - 1].vals@);
        assert(cols1[k - 1]@ == cols2[k - 1]@);
    }
}

/// Past a column without a pivot there is nothing.
pub proof fn sweep_stays_stuck<T: Scalar>(
    m: int,
    cols: Seq<SparseColumn<T>>,
    threshold: T::Real,
    k: int,
    k2: int,
)
    requires
        0 <= k <= k2,
        sweep(m, cols, threshold, k) is None,
    ensures
        sweep(m, cols, threshold, k2) is None,
    decreases k2 - k,
{
    if k < k2 {
        sweep_stays_stuck(m, cols, threshold, k, k2 - 1);
    }
}

} // verus!
