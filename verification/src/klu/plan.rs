//! How the replay of a frozen factorization may be spread over workers.

use crate::counts::{larger, saturated};
use crate::klu::block::BlockLu;
use crate::scalar::{Real, Scalar};
use vstd::prelude::*;

verus! {

impl<T: Scalar> BlockLu<T> {
    /// The level of column `c` in the elimination order: one more than the
    /// highest level among the first `q` columns that it depends on.
    pub open spec fn level_upto(&self, c: int, q: int) -> int
        decreases c, q,
    {
        if q <= 0 || c < 0 {
            0
        } else {
            let p = self.u_rows@[c]@[q - 1] as int;
            let before = self.level_upto(c, q - 1);
            if p < c {
                larger(before, self.level_upto(p, self.u_rows@[p]@.len() as int) + 1)
            } else {
                before
            }
        }
    }

    /// The level of column `c`: columns of one level may run at the same time.
    pub open spec fn level(&self, c: int) -> int {
        self.level_upto(c, self.u_rows@[c]@.len() as int)
    }

    /// The number of levels among the first `k` columns, at least one.
    pub open spec fn levels(&self, k: int) -> int
        decreases k,
    {
        if k <= 0 {
            1
        } else {
            larger(self.levels(k - 1), self.level(k - 1) + 1)
        }
    }

    /// The fused steps that the first `q` updates of column `c` take.
    pub open spec fn work_in(&self, c: int, q: int) -> int
        decreases q,
    {
        if q <= 0 {
            0
        } else {
            self.work_in(c, q - 1) + self.l_rows@[self.u_rows@[c]@[q - 1] as int]@.len()
        }
    }

    /// The fused steps of the first `k` columns.
    pub open spec fn work(&self, k: int) -> int
        decreases k,
    {
        if k <= 0 {
            0
        } else {
            self.work(k - 1) + self.work_in(k - 1, self.u_rows@[k - 1]@.len() as int)
        }
    }

    /// The mean number of columns of a level.
    pub open spec fn width(&self) -> T::Real {
        <T::Real as Real>::from_count_spec(saturated(self.m())).over_spec(
            <T::Real as Real>::from_count_spec(saturated(self.levels(self.m()))),
        )
    }

    /// The block is worth several workers.
    pub open spec fn pipelines(&self, min_work: u64, min_ratio: T::Real) -> bool {
        saturated(self.work(self.m())) >= min_work && self.width().ge_spec(min_ratio)
    }

    /// As many workers as columns of a level, and at least two.
    pub open spec fn workers(&self) -> int {
        larger(self.m() / self.levels(self.m()), 2)
    }

    /// The replay work of a block and the number of its levels.
    pub fn replay_shape(&self, m: usize) -> (r: (u64, usize))
        requires
            self.ready(m as int),
            m < usize::MAX,
        ensures
            r.0 == saturated(self.work(m as int)),
            r.1 == self.levels(m as int),
            1 <= r.1 <= m + 1,
    {
        let mut level: Vec<usize> = Vec::new();
        let mut nlev: usize = 1;
        let mut w: u64 = 0;
        let mut j: usize = 0;
        while j < m
            invariant
                j <= m < usize::MAX,
                self.ready(m as int),
                level@.len() == j,
                forall|c: int| 0 <= c < j ==> #[trigger] level@[c] == self.level(c) && level@[c] <= c,
                w == saturated(self.work(j as int)),
                0 <= self.work(j as int),
                nlev == self.levels(j as int),
                1 <= nlev <= j + 1,
            decreases m - j,
        {
            proof {
                self.rows_in_range(m as int, j as int);
            }
            let ups = &self.u_rows[j];
            let ghost w0 = self.work(j as int);
            let mut l: usize = 0;
            let mut q: usize = 0;
            while q < ups.len()
                invariant
                    q <= ups@.len(),
                    j < m,
                    self.ready(m as int),
                    ups@ == self.u_rows@[j as int]@,
                    crate::seqs::below(ups@, j as int),
                    level@.len() == j,
                    forall|c: int|
                        0 <= c < j ==> #[trigger] level@[c] == self.level(c) && level@[c] <= c,
                    w0 == self.work(j as int),
                    0 <= w0,
                    0 <= self.work_in(j as int, q as int),
                    w == saturated(w0 + self.work_in(j as int, q as int)),
                    l == self.level_upto(j as int, q as int),
                    l <= j,
                decreases ups@.len() - q,
            {
                let p: usize = ups[q];
                assert(ups@[q as int] < j);
                w = w.saturating_add(self.l_rows[p].len() as u64);
                assert(level@[p as int] == self.level(p as int));
                if level[p] + 1 > l {
                    l = level[p] + 1;
                }
                q = q + 1;
            }
            level.push(l);
            if l + 1 > nlev {
                nlev = l + 1;
            }
            j = j + 1;
        }
        (w, nlev)
    }
}

/// The replay work of the first `k` blocks.
pub open spec fn total_work<T: Scalar>(blocks: Seq<BlockLu<T>>, k: int) -> int
    decreases k,
{
    if k <= 0 {
        0
    } else {
        total_work(blocks, k - 1) + saturated(blocks[k - 1].work(blocks[k - 1].m()))
    }
}

/// The replay work of the heaviest of the first `k` blocks.
pub open spec fn heaviest<T: Scalar>(blocks: Seq<BlockLu<T>>, k: int) -> int
    decreases k,
{
    if k <= 0 {
        0
    } else {
        larger(heaviest(blocks, k - 1), saturated(blocks[k - 1].work(blocks[k - 1].m())) as int)
    }
}

/// The pipelined blocks among the first `k`, with their worker counts.
pub open spec fn pipelined_blocks<T: Scalar>(
    blocks: Seq<BlockLu<T>>,
    k: int,
    min_work: u64,
    min_ratio: T::Real,
) -> Seq<(usize, usize)>
    decreases k,
{
    if k <= 0 {
        Seq::empty()
    } else {
        let before = pipelined_blocks(blocks, k - 1, min_work, min_ratio);
        if blocks[k - 1].pipelines(min_work, min_ratio) {
            before.push(((k - 1) as usize, blocks[k - 1].workers() as usize))
        } else {
            before
        }
    }
}

/// The blocks run in parallel: the work is worth it, and no block dominates.
pub open spec fn blocks_parallel<T: Scalar>(
    blocks: Seq<BlockLu<T>>,
    force: bool,
    min_work: u64,
    min_ratio: T::Real,
) -> bool {
    let total = saturated(total_work(blocks, blocks.len() as int));
    let top = saturated(heaviest(blocks, blocks.len() as int));
    &&& <T::Real as Real>::from_count_spec(total).ge_spec(
        min_ratio.times_spec(<T::Real as Real>::from_count_spec(top)),
    )
    &&& force || total >= min_work
}

/// The replay plan of a frozen factorization. Two principles decide: a unit of
/// parallel work carries at least `min_work` fused steps, and the structure
/// offers at least `min_ratio` times as much simultaneous work.
pub fn compute_replay_plan<T: Scalar>(
    blocks: &Vec<BlockLu<T>>,
    force: bool,
    min_work: u64,
    min_ratio: T::Real,
) -> (r: (Vec<(usize, usize)>, bool))
    requires
        forall|b: int|
            0 <= b < blocks@.len() ==> (#[trigger] blocks@[b]).ready(blocks@[b].m())
                && blocks@[b].m() < usize::MAX,
    ensures
        r.0@ == pipelined_blocks(blocks@, blocks@.len() as int, min_work, min_ratio),
        r.1 == blocks_parallel(blocks@, force, min_work, min_ratio),
{
    let mut pipelined: Vec<(usize, usize)> = Vec::new();
    let mut total: u64 = 0;
    let mut top: u64 = 0;
    let mut b: usize = 0;
    while b < blocks.len()
        invariant
            b <= blocks@.len(),
            forall|b2: int|
                0 <= b2 < blocks@.len() ==> (#[trigger] blocks@[b2]).ready(blocks@[b2].m())
                    && blocks@[b2].m() < usize::MAX,
            total == saturated(total_work(blocks@, b as int)),
            0 <= total_work(blocks@, b as int),
            top == heaviest(blocks@, b as int),
            pipelined@ == pipelined_blocks(blocks@, b as int, min_work, min_ratio),
        decreases blocks@.len() - b,
    {
        let lu = &blocks[b];
        assert(blocks@[b as int].ready(blocks@[b as int].m()));
        let m: usize = lu.piv.len();
        let (w, nlev) = lu.replay_shape(m);
        total = total.saturating_add(w);
        if w > top {
            top = w;
        }
        let width = <T::Real as Real>::from_count(m as u64).over(
            <T::Real as Real>::from_count(nlev as u64),
        );
        if w >= min_work && width.ge(min_ratio) {
            let share: usize = m / nlev;
            let workers: usize = if share >= 2 {
                share
            } else {
                2
            };
            pipelined.push((b, workers));
        }
        b = b + 1;
    }
    let spread = <T::Real as Real>::from_count(total).ge(
        min_ratio.times(<T::Real as Real>::from_count(top)),
    );
    (pipelined, spread && (force || total >= min_work))
}

} // verus!
