//! The replay of a block by several workers: every worker owns a share of the
//! columns and takes them in order, each as soon as the columns that it depends
//! on have their values.

use crate::klu::block::{columns_wf, BlockLu};
use crate::klu::model::upper_ok;
use crate::klu::replay::{
    blank, blank_vector, block_outcome, column_made, column_reads, hands, replay_one, same_pattern,
    store_column, usable, worked, ColumnValues,
};
use crate::scalar::Scalar;
use crate::seqs::below;
use crate::sparse::{col_map, SparseColumn};
use vstd::arithmetic::div_mod::{lemma_fundamental_div_mod, lemma_small_mod};
use vstd::prelude::*;

verus! {

/// What a worker does next.
#[derive(Debug, Clone, Copy, PartialEq, Eq, Structural)]
pub enum Turn {
    /// Replay this column.
    Replay(usize),
    /// A column that the next one depends on has no values yet.
    Wait,
    /// No column is left to do.
    Stop,
}

/// The columns of a block dealt out to workers in turn, and how far they are.
#[derive(Debug, Clone)]
pub struct Schedule {
    pub workers: usize,
    /// The next column of every worker; the number of columns after its last.
    pub next: Vec<usize>,
    /// The columns that have their values.
    pub published: Vec<bool>,
    /// The first column that is known to fail; columns from there on do not count.
    pub limit: usize,
}

/// The columns that column `c` depends on have their values.
pub open spec fn supplied(published: Seq<bool>, order: Seq<usize>) -> bool {
    forall|q: int| 0 <= q < order.len() ==> published[#[trigger] order[q] as int]
}

impl Schedule {
    pub open spec fn m(&self) -> int {
        self.published@.len() as int
    }

    /// Every worker has published its columns up to the next one.
    pub open spec fn wf(&self) -> bool {
        &&& self.workers > 0
        &&& self.next@.len() == self.workers
        &&& self.limit <= self.m()
        &&& forall|w: int|
            0 <= w < self.workers ==> {
                &&& #[trigger] self.next@[w] <= self.m()
                &&& self.next@[w] < self.m() ==> self.next@[w] as int % self.workers as int == w
            }
        &&& forall|c: int|
            0 <= c < self.m() ==> (#[trigger] self.published@[c] <==> c
                < self.next@[c % self.workers as int])
    }

    /// The turn of worker `w`.
    pub open spec fn turn(&self, w: int, ur: Seq<Vec<usize>>) -> Turn {
        let k = self.next@[w];
        if k >= self.limit {
            Turn::Stop
        } else if supplied(self.published@, ur[k as int]@) {
            Turn::Replay(k)
        } else {
            Turn::Wait
        }
    }

    /// A fresh schedule of `m` columns.
    pub fn new(m: usize, workers: usize) -> (r: Self)
        requires
            workers > 0,
        ensures
            r.wf(),
            r.workers == workers,
            r.m() == m,
            r.limit == m,
            forall|c: int| 0 <= c < m ==> !(#[trigger] r.published@[c]),
    {
        let mut next: Vec<usize> = Vec::new();
        let mut w: usize = 0;
        while w < workers
            invariant
                w <= workers,
                next@.len() == w,
                forall|v: int|
                    0 <= v < w ==> #[trigger] next@[v] == (if v < m {
                        v
                    } else {
                        m as int
                    }),
            decreases workers - w,
        {
            next.push(
                if w < m {
                    w
                } else {
                    m
                },
            );
            w = w + 1;
        }
        let mut published: Vec<bool> = Vec::new();
        let mut c: usize = 0;
        while c < m
            invariant
                c <= m,
                published@.len() == c,
                forall|d: int| 0 <= d < c ==> !(#[trigger] published@[d]),
            decreases m - c,
        {
            published.push(false);
            c = c + 1;
        }
        let r = Schedule { workers, next, published, limit: m };
        proof {
            assert forall|w: int| 0 <= w < workers implies {
                &&& #[trigger] r.next@[w] <= r.m()
                &&& r.next@[w] < r.m() ==> r.next@[w] as int % workers as int == w
            } by {
                lemma_small_mod(w as nat, workers as nat);
            }
            assert forall|c: int| 0 <= c < m implies (#[trigger] r.published@[c] <==> c
                < r.next@[c % workers as int]) by {
                share_starts(c, workers as int);
            }
        }
        r
    }

    /// What worker `w` does next, `u_rows` naming the columns that every column
    /// depends on.
    pub fn take_turn(&self, w: usize, u_rows: &Vec<Vec<usize>>) -> (r: Turn)
        requires
            self.wf(),
            w < self.workers,
            upper_ok(self.m(), u_rows@),
        ensures
            r == self.turn(w as int, u_rows@),
    {
        let k: usize = self.next[w];
        if k >= self.limit {
            return Turn::Stop;
        }
        let order = &u_rows[k];
        assert(below(u_rows@[k as int]@, k as int));
        let mut q: usize = 0;
        while q < order.len()
            invariant
                q <= order@.len(),
                k == self.next@[w as int],
                k < self.limit <= self.published@.len(),
                order@ == u_rows@[k as int]@,
                below(order@, k as int),
                forall|p: int| 0 <= p < q ==> self.published@[#[trigger] order@[p] as int],
            decreases order@.len() - q,
        {
            assert(order@[q as int] < k);
            if !self.published[order[q]] {
                assert(!self.published@[order@[q as int] as int]);
                return Turn::Wait;
            }
            q = q + 1;
        }
        Turn::Replay(k)
    }

    /// The column of worker `w` has its values; the worker goes on to its next.
    pub fn publish(&mut self, w: usize)
        requires
            old(self).wf(),
            w < old(self).workers,
            old(self).next@[w as int] < old(self).m(),
        ensures
            final(self).wf(),
            final(self).workers == old(self).workers,
            final(self).limit == old(self).limit,
            final(self).published@ == old(self).published@.update(
                old(self).next@[w as int] as int,
                true,
            ),
    {
        let ghost s0 = *self;
        let m: usize = self.published.len();
        let k: usize = self.next[w];
        self.published.set(k, true);
        let after: usize = if m - k > self.workers {
            k + self.workers
        } else {
            m
        };
        self.next.set(w, after);
        proof {
            let n = self.workers as int;
            assert(s0.next@[w as int] == k);
            assert forall|v: int| 0 <= v < self.workers implies {
                &&& #[trigger] self.next@[v] <= self.m()
                &&& self.next@[v] < self.m() ==> self.next@[v] as int % n == v
            } by {
                assert(s0.next@[v] <= s0.m());
                if v == w {
                    share_steps(k as int, k + n, n);
                }
            }
            assert forall|c: int| 0 <= c < self.m() implies (#[trigger] self.published@[c] <==> c
                < self.next@[c % n]) by {
                assert(s0.published@[c] <==> c < s0.next@[c % n]);
                assert(0 <= c % n < n);
                if c % n == w {
                    if k < c {
                        share_steps(k as int, c, n);
                    }
                } else {
                    assert(c != k);
                }
            }
        }
    }

    /// The column of worker `w` fails.
    pub fn give_up(&mut self, w: usize)
        requires
            old(self).wf(),
            w < old(self).workers,
        ensures
            final(self).wf(),
            final(self).workers == old(self).workers,
            final(self).next@ == old(self).next@,
            final(self).published@ == old(self).published@,
            final(self).limit == (if old(self).next@[w as int] < old(self).limit {
                old(self).next@[w as int]
            } else {
                old(self).limit
            }),
    {
        if self.next[w] < self.limit {
            self.limit = self.next[w];
        }
    }
}

/// The first column of a share is the worker's own number.
proof fn share_starts(c: int, n: int)
    requires
        0 <= c,
        0 < n,
    ensures
        0 <= c % n < n,
        c % n <= c,
{
    lemma_fundamental_div_mod(c, n);
    assert(0 <= c % n < n && c % n <= c) by (nonlinear_arith)
        requires
            0 <= c,
            0 < n,
    ;
}

/// The columns of a share are as far apart as there are workers.
proof fn share_steps(k: int, c: int, n: int)
    requires
        0 <= k < c,
        0 < n,
    ensures
        k % n == c % n ==> c >= k + n,
        (k + n) % n == k % n,
{
    lemma_fundamental_div_mod(k, n);
    lemma_fundamental_div_mod(c, n);
    let (a, b) = (k / n, c / n);
    if k % n == c % n {
        assert(c - k == n * (b - a)) by (nonlinear_arith)
            requires
                k == n * a + k % n,
                c == n * b + c % n,
                k % n == c % n,
        ;
        assert(c - k >= n) by (nonlinear_arith)
            requires
                c - k == n * (b - a),
                c - k > 0,
                n > 0,
        ;
    }
    vstd::arithmetic::div_mod::lemma_mod_add_multiples_vanish(k, n);
    assert(n + k == k + n);
}

/// As long as a column below the limit is missing, a worker can go on: the owner
/// of the lowest one. So workers that wait never wait for ever.
pub proof fn never_stands_still(s: Schedule, ur: Seq<Vec<usize>>, c: int)
    requires
        s.wf(),
        upper_ok(s.m(), ur),
        0 <= c < s.limit,
        !s.published@[c],
        forall|j: int| 0 <= j < c ==> #[trigger] s.published@[j],
    ensures
        s.turn(c % s.workers as int, ur) == Turn::Replay(c as usize),
{
    let w = c % s.workers as int;
    share_starts(c, s.workers as int);
    let k = s.next@[w] as int;
    assert(s.published@[c] <==> c < s.next@[c % s.workers as int]);
    assert(k <= c);
    assert(k % s.workers as int == w);
    assert(s.published@[k] <==> k < s.next@[k % s.workers as int]);
    if k < c {
        assert(s.published@[k]);
    }
    assert(below(ur[c]@, c));
    assert forall|q: int| 0 <= q < ur[c]@.len() implies s.published@[#[trigger] ur[c]@[q] as int] by {
        assert(ur[c]@[q] < c);
    }
}

/// The columns of `L` after the columns that have come.
pub open spec fn out_maps<T: Scalar>(
    lu: BlockLu<T>,
    out: Seq<Option<ColumnValues<T>>>,
) -> Seq<Map<int, T>> {
    Seq::new(
        out.len(),
        |p: int|
            match out[p] {
                Some(v) => col_map(lu.l_rows@[p]@, v.l_vals@),
                None => col_map(lu.l_rows@[p]@, lu.l_vals@[p]@),
            },
    )
}

/// Column `c` has come, with the values that it should have.
pub open spec fn has_come<T: Scalar>(
    m: int,
    lu: BlockLu<T>,
    cols: Seq<SparseColumn<T>>,
    out: Seq<Option<ColumnValues<T>>>,
    c: int,
) -> bool {
    out[c] matches Some(v) && column_made(m, c, lu, cols[c], out_maps(lu, out), v)
}

/// The columns before `limit` have come, and the one there fails.
pub open spec fn columns_run<T: Scalar>(
    m: int,
    lu: BlockLu<T>,
    cols: Seq<SparseColumn<T>>,
    out: Seq<Option<ColumnValues<T>>>,
    limit: int,
) -> bool {
    &&& out.len() == m
    &&& 0 <= limit <= m
    &&& forall|c: int| 0 <= c < limit ==> #[trigger] has_come(m, lu, cols, out, c)
    &&& limit < m ==> !usable(
        worked(m, limit, lu, cols[limit], out_maps(lu, out))[lu.piv@[limit] as int],
    )
}

/// Put the columns that have come into the factors, in whatever order they were
/// made: the outcome is that of [`crate::klu::replay::replay_block`], and so are
/// the values (see [`crate::klu::replay::replays_agree`]).
pub fn join_columns<T: Scalar>(
    m: usize,
    lu: &mut BlockLu<T>,
    cols: &Vec<SparseColumn<T>>,
    out: Vec<Option<ColumnValues<T>>>,
    limit: usize,
) -> (r: Result<(), usize>)
    requires
        columns_wf(m as int, cols@),
        old(lu).structured(m as int, m as int, cols@),
        columns_run(m as int, *old(lu), cols@, out@, limit as int),
    ensures
        same_pattern(*final(lu), *old(lu)),
        final(lu).structured(m as int, m as int, cols@),
        block_outcome(m as int, *final(lu), cols@, r),
        r == (if limit < m {
            Err::<(), usize>(limit)
        } else {
            Ok::<(), usize>(())
        }),
{
    let ghost lu0 = *lu;
    let ghost out0 = out@;
    let ghost om = out_maps(lu0, out0);
    let mut out = out;
    let mut c: usize = 0;
    while c < limit
        invariant
            c <= limit <= m,
            columns_wf(m as int, cols@),
            columns_run(m as int, lu0, cols@, out0, limit as int),
            om == out_maps(lu0, out0),
            same_pattern(*lu, lu0),
            lu.structured(m as int, m as int, cols@),
            lu.valued(m as int, c as int, cols@),
            lu.lm().len() == m,
            forall|p: int| 0 <= p < c ==> #[trigger] lu.lm()[p] == om[p],
            forall|p: int| 0 <= p < c ==> usable(#[trigger] lu.d@[p]),
            out@.len() == m,
            forall|p: int| c <= p < m ==> #[trigger] out@[p] == out0[p],
        decreases limit - c,
    {
        assert(has_come(m as int, lu0, cols@, out0, c as int));
        assert(out@[c as int] == out0[c as int]);
        let mut v: Option<ColumnValues<T>> = None;
        std::mem::swap(&mut out[c], &mut v);
        match v {
            Some(v) => {
                proof {
                    assert(below(lu.u_rows@[c as int]@, c as int));
                    assert forall|q: int| 0 <= q < lu.u_rows@[c as int]@.len() implies om[#[trigger] lu.u_rows@[c as int]@[q] as int]
                        == lu.lm()[lu.u_rows@[c as int]@[q] as int] by {
                        assert(lu.u_rows@[c as int]@[q] < c);
                    }
                    column_reads(m as int, c as int, *lu, cols@[c as int], om, lu.lm(), v);
                }
                store_column(lu, c, v, Ghost(m as int), Ghost(cols@));
            },
            None => {
                assert(false);
            },
        }
        c = c + 1;
    }
    if limit < m {
        proof {
            assert(below(lu.u_rows@[limit as int]@, limit as int));
            assert forall|q: int| 0 <= q < lu.u_rows@[limit as int]@.len() implies om[#[trigger] lu.u_rows@[limit as int]@[q] as int]
                == lu.lm()[lu.u_rows@[limit as int]@[q] as int] by {
                assert(lu.u_rows@[limit as int]@[q] < limit);
            }
            crate::klu::replay::elim_reads(
                crate::sparse::dense(m as int, cols@[limit as int]@),
                lu.piv@,
                om,
                lu.lm(),
                lu.u_rows@[limit as int]@,
                lu.u_rows@[limit as int]@.len() as int,
            );
        }
        Err(limit)
    } else {
        Ok(())
    }
}

/// The columns of `L` that `order` names, out of those that have come.
fn lower_of<'a, T: Scalar>(
    out: &'a Vec<Option<ColumnValues<T>>>,
    order: &Vec<usize>,
) -> (r: Vec<&'a Vec<T>>)
    requires
        below(order@, out@.len() as int),
        forall|q: int| 0 <= q < order@.len() ==> out@[#[trigger] order@[q] as int] is Some,
    ensures
        r@.len() == order@.len(),
        forall|t: int|
            0 <= t < order@.len() ==> *(#[trigger] r@[t]) == out@[order@[t] as int]->0.l_vals,
{
    let mut r: Vec<&'a Vec<T>> = Vec::new();
    let mut t: usize = 0;
    while t < order.len()
        invariant
            t <= order@.len(),
            below(order@, out@.len() as int),
            forall|q: int| 0 <= q < order@.len() ==> out@[#[trigger] order@[q] as int] is Some,
            r@.len() == t,
            forall|q: int|
                0 <= q < t ==> *(#[trigger] r@[q]) == out@[order@[q] as int]->0.l_vals,
        decreases order@.len() - t,
    {
        assert(order@[t as int] < out@.len());
        match &out[order[t]] {
            Some(v) => {
                r.push(&v.l_vals);
            },
            None => {
                assert(out@[order@[t as int] as int] is Some);
            },
        }
        t = t + 1;
    }
    r
}

/// Where the workers are: the columns that have come are those published, each
/// after the ones it depends on, and the one at the limit fails.
spec fn in_step<T: Scalar>(
    m: int,
    s: Schedule,
    lu: BlockLu<T>,
    cols: Seq<SparseColumn<T>>,
    out: Seq<Option<ColumnValues<T>>>,
) -> bool {
    &&& s.wf()
    &&& s.m() == m
    &&& out.len() == m
    &&& forall|c: int| 0 <= c < m ==> (#[trigger] out[c] is Some <==> s.published@[c])
    &&& forall|c: int|
        0 <= c < m && #[trigger] s.published@[c] ==> supplied(s.published@, lu.u_rows@[c]@)
            && has_come(m, lu, cols, out, c)
    &&& s.limit < m ==> supplied(s.published@, lu.u_rows@[s.limit as int]@) && !usable(
        worked(m, s.limit as int, lu, cols[s.limit as int], out_maps(lu, out))[lu.piv@[s.limit as int] as int],
    )
}

/// A column that comes disturbs none of the others.
proof fn one_more<T: Scalar>(
    m: int,
    s: Schedule,
    t: Schedule,
    lu: BlockLu<T>,
    cols: Seq<SparseColumn<T>>,
    out: Seq<Option<ColumnValues<T>>>,
    k: int,
    v: ColumnValues<T>,
)
    requires
        columns_wf(m, cols),
        lu.structured(m, m, cols),
        in_step(m, s, lu, cols, out),
        0 <= k < m,
        !s.published@[k],
        supplied(s.published@, lu.u_rows@[k]@),
        column_made(m, k, lu, cols[k], out_maps(lu, out), v),
        t.wf(),
        t.published@ == s.published@.update(k, true),
        t.limit == s.limit,
    ensures
        in_step(m, t, lu, cols, out.update(k, Some(v))),
{
    let out2 = out.update(k, Some(v));
    let om = out_maps(lu, out);
    let om2 = out_maps(lu, out2);
    assert forall|c: int| 0 <= c < m && #[trigger] t.published@[c] implies supplied(
        t.published@,
        lu.u_rows@[c]@,
    ) && has_come(m, lu, cols, out2, c) by {
        let order = lu.u_rows@[c]@;
        assert(below(lu.u_rows@[c]@, c));
        assert(c == k || s.published@[c]);
        assert forall|q: int| 0 <= q < order.len() implies t.published@[#[trigger] order[q] as int]
            && om[order[q] as int] == om2[order[q] as int] by {
            assert(s.published@[order[q] as int]);
            assert(order[q] < c);
            assert(order[q] != k);
        }
        if c == k {
            column_reads(m, c, lu, cols[c], om, om2, v);
        } else {
            assert(has_come(m, lu, cols, out, c));
            assert(out2[c] == out[c]);
            column_reads(m, c, lu, cols[c], om, om2, out[c]->0);
        }
    }
    if s.limit < m {
        let order = lu.u_rows@[s.limit as int]@;
        assert(below(lu.u_rows@[s.limit as int]@, s.limit as int));
        assert forall|q: int| 0 <= q < order.len() implies t.published@[#[trigger] order[q] as int]
            && om[order[q] as int] == om2[order[q] as int] by {
            assert(s.published@[order[q] as int]);
            assert(order[q] < s.limit);
        }
        column_reads(m, s.limit as int, lu, cols[s.limit as int], om, om2, v);
    }
}

/// Replay a block with `workers` workers that take turns. The outcome is that of
/// [`crate::klu::replay::replay_block`], and so are the values.
pub fn replay_in_turn<T: Scalar>(
    m: usize,
    workers: usize,
    lu: &mut BlockLu<T>,
    cols: &Vec<SparseColumn<T>>,
) -> (r: Result<(), usize>)
    requires
        workers > 0,
        columns_wf(m as int, cols@),
        old(lu).structured(m as int, m as int, cols@),
    ensures
        same_pattern(*final(lu), *old(lu)),
        final(lu).structured(m as int, m as int, cols@),
        block_outcome(m as int, *final(lu), cols@, r),
{
    let mut s = Schedule::new(m, workers);
    let mut out: Vec<Option<ColumnValues<T>>> = Vec::new();
    let mut i: usize = 0;
    while i < m
        invariant
            i <= m,
            out@.len() == i,
            forall|c: int| 0 <= c < i ==> #[trigger] out@[c] is None,
        decreases m - i,
    {
        out.push(None);
        i = i + 1;
    }
    let mut x: Vec<T> = blank_vector(m);
    // After every round the workers have at least one column more.
    let mut low: usize = 0;
    while low < s.limit
        invariant
            columns_wf(m as int, cols@),
            *lu == *old(lu),
            lu.structured(m as int, m as int, cols@),
            s.workers == workers,
            in_step(m as int, s, *lu, cols@, out@),
            x@ == blank::<T>(m as int),
            forall|j: int| 0 <= j < low && j < s.limit ==> #[trigger] s.published@[j],
        decreases m - low,
    {
        let mut w: usize = workers;
        while w > 0
            invariant
                w <= workers,
                low < m,
                columns_wf(m as int, cols@),
                lu.structured(m as int, m as int, cols@),
                s.workers == workers,
                in_step(m as int, s, *lu, cols@, out@),
                x@ == blank::<T>(m as int),
                forall|j: int| 0 <= j < low && j < s.limit ==> #[trigger] s.published@[j],
                w <= low as int % workers as int && low < s.limit ==> s.published@[low as int],
            decreases w,
        {
            w = w - 1;
            let ghost s0 = s;
            proof {
                if low < s.limit && !s.published@[low as int] {
                    never_stands_still(s, lu.u_rows@, low as int);
                }
            }
            match s.take_turn(w, &lu.u_rows) {
                Turn::Replay(k) => {
                    assert(s.next@[w as int] == k);
                    assert(!s.published@[k as int]) by {
                        assert(s.published@[k as int] <==> k < s.next@[k as int % workers as int]);
                    }
                    let ghost om = out_maps(*lu, out@);
                    proof {
                        assert(below(lu.u_rows@[k as int]@, k as int));
                        assert forall|q: int| 0 <= q < lu.u_rows@[k as int]@.len() implies (#[trigger] lu.u_rows@[k as int]@[q]
                            < m) && out@[lu.u_rows@[k as int]@[q] as int] is Some by {
                            assert(s.published@[lu.u_rows@[k as int]@[q] as int]);
                        }
                    }
                    let lower = lower_of(&out, &lu.u_rows[k]);
                    assert(hands(lu.l_rows@, lu.u_rows@[k as int]@, lower@, om)) by {
                        assert forall|t: int| 0 <= t < lower@.len() implies (#[trigger] lower@[t])@.len()
                            == lu.l_rows@[lu.u_rows@[k as int]@[t] as int]@.len() && om[lu.u_rows@[k as int]@[t] as int]
                            == col_map(
                            lu.l_rows@[lu.u_rows@[k as int]@[t] as int]@,
                            lower@[t]@,
                        ) by {
                            let p = lu.u_rows@[k as int]@[t] as int;
                            assert(s.published@[p]);
                            assert(has_come(m as int, *lu, cols@, out@, p));
                        }
                    }
                    match replay_one(m, k, lu, cols, &lower, &mut x) {
                        Some(v) => {
                            s.publish(w);
                            proof {
                                one_more(m as int, s0, s, *lu, cols@, out@, k as int, v);
                            }
                            out.set(k, Some(v));
                        },
                        None => {
                            s.give_up(w);
                            x = blank_vector(m);
                        },
                    }
                },
                Turn::Wait => {},
                Turn::Stop => {},
            }
        }
        low = low + 1;
    }
    let limit: usize = s.limit;
    assert(columns_run(m as int, *lu, cols@, out@, limit as int)) by {
        assert forall|c: int| 0 <= c < limit implies #[trigger] has_come(
            m as int,
            *lu,
            cols@,
            out@,
            c,
        ) by {
            assert(s.published@[c]);
        }
    }
    join_columns(m, lu, cols, out, limit)
}

/// The worker count that block `b` was admitted with.
pub open spec fn listed(pipelined: Seq<(usize, usize)>, b: usize) -> Option<usize>
    decreases pipelined.len(),
{
    if pipelined.len() == 0 {
        None
    } else if pipelined[0].0 == b {
        Some(pipelined[0].1)
    } else {
        listed(pipelined.skip(1), b)
    }
}

/// How many of `threads` threads replay block `b`: at least two, where the block
/// was admitted and there are as many.
pub open spec fn workers_spec(
    pipelined: Seq<(usize, usize)>,
    b: usize,
    threads: usize,
) -> Option<usize> {
    match listed(pipelined, b) {
        Some(n) if threads >= 2 => Some(
            if n < 2 {
                2
            } else if n > threads {
                threads
            } else {
                n
            },
        ),
        _ => None,
    }
}

/// How many of `threads` threads replay block `b` at the same time, if several do.
pub fn workers_for(pipelined: &Vec<(usize, usize)>, b: usize, threads: usize) -> (r: Option<usize>)
    ensures
        r == workers_spec(pipelined@, b, threads),
        r matches Some(n) ==> n >= 2,
{
    if threads < 2 {
        return None;
    }
    let mut i: usize = 0;
    assert(pipelined@.skip(0) =~= pipelined@);
    while i < pipelined.len()
        invariant
            i <= pipelined@.len(),
            threads >= 2,
            listed(pipelined@, b) == listed(pipelined@.skip(i as int), b),
        decreases pipelined@.len() - i,
    {
        let (at, n) = pipelined[i];
        assert(pipelined@.skip(i as int)[0] == pipelined@[i as int]);
        if at == b {
            return Some(
                if n < 2 {
                    2
                } else if n > threads {
                    threads
                } else {
                    n
                },
            );
        }
        assert(pipelined@.skip(i as int).skip(1) =~= pipelined@.skip(i + 1));
        i = i + 1;
    }
    None
}

} // verus!
