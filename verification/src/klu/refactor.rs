//! Numeric-only refactorization on the frozen pattern and pivot order.

use crate::error::RslabError;
use crate::klu::block::{columns_wf, BlockLu};
use crate::klu::factor::{
    block_columns, block_structure, gather_block, pattern_mismatch, KluFactors,
};
use crate::klu::form::{block_range, in_block};
use crate::klu::gather::{is_column, kept, row_scale_inv, row_scales, scaled_entries};
use crate::klu::pipeline::{replay_in_turn, workers_for};
use crate::klu::replay::{replay_block, same_pattern, usable, worked};
use crate::klu::settings::{interrupt_check, stays_raised, was_raised};
use crate::scalar::Scalar;
use crate::seqs::occurs;
use crate::sparse::{GeneralCsc, SparseColumn};
use vstd::prelude::*;

verus! {

/// Are the two lists equal?
pub fn same_list(a: &Vec<usize>, b: &Vec<usize>) -> (r: bool)
    ensures
        r == (a@ == b@),
{
    if a.len() != b.len() {
        return false;
    }
    let mut i: usize = 0;
    while i < a.len()
        invariant
            i <= a@.len(),
            a@.len() == b@.len(),
            forall|q: int| 0 <= q < i ==> #[trigger] a@[q] == b@[q],
        decreases a@.len() - i,
    {
        if a[i] != b[i] {
            assert(a@[i as int] != b@[i as int]);
            return false;
        }
        i = i + 1;
    }
    assert(a@ =~= b@);
    true
}

/// Everything but the values is the same.
pub open spec fn same_frame<T: Scalar>(f: KluFactors<T>, g: KluFactors<T>) -> bool {
    &&& f.interrupt == g.interrupt
    &&& f.n == g.n
    &&& f.col_ptr@ == g.col_ptr@
    &&& f.row_idx@ == g.row_idx@
    &&& f.block_ptr@ == g.block_ptr@
    &&& f.pre_row_perm@ == g.pre_row_perm@
    &&& f.pinv@ == g.pinv@
    &&& f.col_perm@ == g.col_perm@
    &&& f.scaled == g.scaled
    &&& f.parallel == g.parallel
    &&& f.pipelined@ == g.pipelined@
    &&& f.par_refactor == g.par_refactor
    &&& f.blocks@.len() == g.blocks@.len()
    &&& forall|b: int|
        0 <= b < f.blocks@.len() ==> same_pattern(#[trigger] f.blocks@[b], g.blocks@[b])
}

/// Column `k` of block `b` leaves nothing usable at its frozen pivot, after
/// the columns before it were replayed.
pub open spec fn frozen_pivot_fails<T: Scalar>(
    f: KluFactors<T>,
    a: GeneralCsc<T>,
    rs: Seq<T::Real>,
    b: int,
    k: int,
) -> bool {
    let lu = f.blocks@[b];
    let m = f.size(b);
    exists|cols: Seq<SparseColumn<T>>| #[trigger]
        block_columns(
            cols,
            a,
            rs,
            f.pinv@,
            f.col_perm@,
            f.start(b),
            f.block_ptr@[b + 1] as int,
        ) && lu.valued(m, k, cols) && !usable(
            worked(m, k, lu, cols[k], lu.lm())[lu.piv@[k] as int],
        )
}

/// Block `b` was replayed with the values of `a`.
pub open spec fn replayed<T: Scalar>(
    f: KluFactors<T>,
    a: GeneralCsc<T>,
    rs: Seq<T::Real>,
    b: int,
    lu: BlockLu<T>,
    cols: Seq<SparseColumn<T>>,
) -> bool {
    let m = f.size(b);
    &&& block_columns(
        cols,
        a,
        rs,
        f.pinv@,
        f.col_perm@,
        f.start(b),
        f.block_ptr@[b + 1] as int,
    )
    &&& lu.structured(m, m, cols)
    &&& lu.valued(m, m, cols)
    &&& forall|c: int| 0 <= c < m ==> usable(#[trigger] lu.d@[c])
}

/// Block `b` holds the values of `a`, and its pivots are usable.
pub open spec fn block_replayed<T: Scalar>(
    f: KluFactors<T>,
    a: GeneralCsc<T>,
    rs: Seq<T::Real>,
    b: int,
) -> bool {
    exists|cols: Seq<SparseColumn<T>>| #[trigger] replayed(f, a, rs, b, f.blocks@[b], cols)
}

/// Why a refactorization of `f` with the values of `a` is refused, `g` being
/// what is left behind: after a vanished pivot the blocks before it hold the new
/// values.
pub open spec fn refactor_refused<T: Scalar>(
    f: KluFactors<T>,
    a: GeneralCsc<T>,
    g: KluFactors<T>,
    e: RslabError,
) -> bool {
    match e {
        RslabError::InvalidInput(_) => g == f && (!a.wf() || (a.n == f.n && !f.fits(a))),
        RslabError::DimensionMismatch { expected, got } => g == f && a.wf() && a.n != f.n && expected
            == f.n && got == a.n,
        RslabError::Interrupted => g == f && a.wf() && f.fits(a) && was_raised(f.interrupt),
        RslabError::SingularBasis { column } => a.wf() && f.fits(a) && exists|b: int, k: int|
            #![trigger frozen_pivot_fails(g, a, row_scales(a, f.scaled), b, k)]
            in_block(f.block_ptr@, b, f.start(b) + k) && frozen_pivot_fails(
                g,
                a,
                row_scales(a, f.scaled),
                b,
                k,
            ) && column == f.col_perm@[f.start(b) + k] && forall|b2: int|
                0 <= b2 < b ==> #[trigger] block_replayed(g, a, row_scales(a, f.scaled), b2),
        _ => false,
    }
}

/// The refactorization is stopped at the first block: the input passes, there is
/// something to replay, and the flag stays raised.
pub open spec fn refactor_stopped<T: Scalar>(f: KluFactors<T>, a: GeneralCsc<T>) -> bool {
    &&& stays_raised(f.interrupt)
    &&& a.wf()
    &&& f.fits(a)
    &&& f.block_ptr@.len() > 1
}

/// The pattern of a block does not depend on the values.
pub proof fn pattern_frame<T: Scalar>(f: KluFactors<T>, g: KluFactors<T>, b: int)
    requires
        f.n == g.n,
        f.col_ptr@ == g.col_ptr@,
        f.row_idx@ == g.row_idx@,
        f.block_ptr@ == g.block_ptr@,
        f.pre_row_perm@ == g.pre_row_perm@,
        f.pinv@ == g.pinv@,
        f.col_perm@ == g.col_perm@,
    ensures
        f.block_upper(b) ==> g.block_upper(b),
        f.blocks@[b] == g.blocks@[b] && f.block_covers(b) ==> g.block_covers(b),
{
    if f.block_upper(b) {
        assert forall|j: int, i: int|
            in_block(g.block_ptr@, b, j) && #[trigger] occurs(
                g.rows_at(g.col_perm@[j] as int),
                i,
            ) implies g.pinv@[i] < g.block_ptr@[b + 1] by {
            assert(occurs(f.rows_at(f.col_perm@[j] as int), i));
        }
    }
    if f.blocks@[b] == g.blocks@[b] && f.block_covers(b) {
        let lu = g.blocks@[b];
        let bs = g.start(b);
        assert forall|c: int, r: int|
            0 <= c < g.size(b) && 0 <= r < g.size(b) && #[trigger] occurs(
                g.rows_at(g.col_perm@[bs + c] as int),
                g.pre_row_perm@[bs + r] as int,
            ) implies {
            &&& lu.fin@[r] < c ==> occurs(lu.u_rows@[c]@, lu.fin@[r] as int)
            &&& lu.fin@[r] > c ==> occurs(lu.l_rows@[c]@, r)
        } by {
            let fs = f.start(b);
            assert(occurs(
                f.rows_at(f.col_perm@[fs + c] as int),
                f.pre_row_perm@[fs + r] as int,
            ));
        }
    }
}

/// The columns of a block cover the frozen pattern, whatever the scaling.
proof fn structure_of<T: Scalar>(
    f: KluFactors<T>,
    a: GeneralCsc<T>,
    rs: Vec<T::Real>,
    b: int,
    cols: Seq<SparseColumn<T>>,
)
    requires
        f.formed(),
        f.fits(a),
        a.wf(),
        rs@.len() == f.n,
        0 <= b < f.blocks@.len(),
        block_columns(
            cols,
            a,
            rs@,
            f.pinv@,
            f.col_perm@,
            f.start(b),
            f.block_ptr@[b + 1] as int,
        ),
    ensures
        columns_wf(f.size(b), cols),
        f.block_covers(b) <==> f.blocks@[b].structured(f.size(b), f.size(b), cols),
{
    let g = KluFactors { rs_inv: rs, ..f };
    assert(g.formed());
    assert(g.columns_of(a, b, cols));
    block_structure(g, a, b, cols);
    pattern_frame(f, g, b);
    pattern_frame(g, f, b);
}

/// A refactorization cut into its blocks, which share nothing.
pub struct ReplayPlan<T: Scalar> {
    /// The factor that every row is multiplied by.
    pub rs_inv: Vec<T::Real>,
    /// The columns of every diagonal block.
    pub tasks: Vec<Vec<SparseColumn<T>>>,
    /// The entries above the blocks, by column.
    pub off: Vec<SparseColumn<T>>,
}

/// The columns are those of block `b`, whose factors take them up.
pub open spec fn replays<T: Scalar>(
    f: KluFactors<T>,
    a: GeneralCsc<T>,
    rs: Seq<T::Real>,
    b: int,
    cols: Seq<SparseColumn<T>>,
) -> bool {
    let m = f.size(b);
    &&& block_columns(
        cols,
        a,
        rs,
        f.pinv@,
        f.col_perm@,
        f.start(b),
        f.block_ptr@[b + 1] as int,
    )
    &&& columns_wf(m, cols)
    &&& f.blocks@[b].structured(m, m, cols)
}

/// Column `j` of block `b` keeps its entries above the block.
pub open spec fn keeps_above<T: Scalar>(
    f: KluFactors<T>,
    a: GeneralCsc<T>,
    rs: Seq<T::Real>,
    b: int,
    j: int,
    col: SparseColumn<T>,
) -> bool {
    &&& col.wf(f.start(b))
    &&& is_column(
        col,
        kept(scaled_entries(a, rs, f.pinv@, f.col_perm@[j] as int), 0, f.start(b)),
    )
}

/// The plan belongs to these factors and this matrix.
pub open spec fn replay_plan_of<T: Scalar>(
    f: KluFactors<T>,
    a: GeneralCsc<T>,
    plan: ReplayPlan<T>,
) -> bool {
    &&& a.wf()
    &&& f.fits(a)
    &&& plan.rs_inv@ == row_scales(a, f.scaled)
    &&& plan.rs_inv@.len() == f.n
    &&& plan.tasks@.len() == f.blocks@.len()
    &&& plan.off@.len() == f.n
    &&& forall|b: int|
        0 <= b < plan.tasks@.len() ==> replays(f, a, plan.rs_inv@, b, (#[trigger] plan.tasks@[b])@)
    &&& forall|b: int, j: int| #[trigger]
        in_block(f.block_ptr@, b, j) ==> keeps_above(f, a, plan.rs_inv@, b, j, plan.off@[j])
}

/// What the replay of block `b` came to.
pub open spec fn replay_outcome<T: Scalar>(
    f: KluFactors<T>,
    a: GeneralCsc<T>,
    rs: Seq<T::Real>,
    b: int,
    cols: Seq<SparseColumn<T>>,
    r: Result<(), usize>,
) -> bool {
    let lu = f.blocks@[b];
    let m = f.size(b);
    match r {
        Ok(()) => replayed(f, a, rs, b, lu, cols),
        Err(k) => {
            &&& k < m
            &&& lu.valued(m, k as int, cols)
            &&& !usable(
                worked(m, k as int, lu, cols[k as int], lu.lm())[lu.piv@[k as int] as int],
            )
        },
    }
}

/// The blocks were replayed in order, all of them or up to one that failed.
pub open spec fn replays_run<T: Scalar>(
    f: KluFactors<T>,
    a: GeneralCsc<T>,
    plan: ReplayPlan<T>,
    done: Seq<Result<(), usize>>,
) -> bool {
    &&& done.len() <= plan.tasks@.len()
    &&& forall|b: int|
        0 <= b < done.len() ==> replay_outcome(
            f,
            a,
            plan.rs_inv@,
            b,
            plan.tasks@[b]@,
            #[trigger] done[b],
        )
    &&& done.len() < plan.tasks@.len() ==> done.len() > 0 && done[done.len() - 1] is Err
}

impl<T: Scalar> KluFactors<T> {
    /// Cut new values with the factored pattern into the blocks.
    pub fn plan_replay(&self, a: &GeneralCsc<T>) -> (r: Result<ReplayPlan<T>, RslabError>)
        requires
            self.wf(),
        ensures
            r matches Ok(plan) ==> replay_plan_of(*self, *a, plan),
            r matches Err(e) ==> refactor_refused(*self, *a, *self, e) && !(e is SingularBasis),
            refactor_stopped(*self, *a) ==> r == Err::<ReplayPlan<T>, RslabError>(
                RslabError::Interrupted,
            ),
    {
        match a.validate() {
            Err(e) => {
                return Err(e);
            },
            Ok(()) => {},
        }
        if a.n != self.n {
            return Err(RslabError::DimensionMismatch { expected: self.n, got: a.n });
        }
        if !same_list(&a.col_ptr, &self.col_ptr) || !same_list(&a.row_idx, &self.row_idx) {
            return Err(pattern_mismatch());
        }
        let nblocks: usize = self.block_ptr.len() - 1;
        let rs = row_scale_inv(a, self.scaled);
        let mut tasks: Vec<Vec<SparseColumn<T>>> = Vec::new();
        let mut off: Vec<SparseColumn<T>> = Vec::new();
        let mut b: usize = 0;
        while b < nblocks
            invariant
                b <= nblocks,
                nblocks == self.block_ptr@.len() - 1,
                a.wf(),
                self.wf(),
                self.fits(*a),
                rs@ == row_scales(*a, self.scaled),
                rs@.len() == self.n,
                tasks@.len() == b,
                stays_raised(self.interrupt) ==> b == 0,
                off@.len() == self.block_ptr@[b as int],
                forall|b2: int| 0 <= b2 < b ==> replays(*self, *a, rs@, b2, (#[trigger] tasks@[b2])@),
                forall|b2: int, j: int|
                    b2 < b && #[trigger] in_block(self.block_ptr@, b2, j) ==> keeps_above(
                        *self,
                        *a,
                        rs@,
                        b2,
                        j,
                        off@[j],
                    ),
            decreases nblocks - b,
        {
            match interrupt_check(&self.interrupt) {
                Err(e) => {
                    return Err(e);
                },
                Ok(()) => {},
            }
            proof {
                block_range(self.n as int, self.block_ptr@, b as int);
            }
            let bs: usize = self.block_ptr[b];
            let be: usize = self.block_ptr[b + 1];
            let ghost off0 = off@;
            let (cols, _bad) = gather_block(
                a,
                &rs,
                &self.pinv,
                Ghost(self.pre_row_perm@),
                &self.col_perm,
                bs,
                be,
                &mut off,
            );
            proof {
                assert(self.block_covers(b as int));
                structure_of(*self, *a, rs, b as int, cols@);
                assert(replays(*self, *a, rs@, b as int, cols@));
                assert forall|b2: int, j: int|
                    b2 < b + 1 && #[trigger] in_block(self.block_ptr@, b2, j) implies keeps_above(
                    *self,
                    *a,
                    rs@,
                    b2,
                    j,
                    off@[j],
                ) by {
                    if b2 < b {
                        if b2 + 1 < b {
                            assert(self.block_ptr@[b2 + 1] < self.block_ptr@[b as int]);
                        }
                        assert(keeps_above(*self, *a, rs@, b2, j, off0[j]));
                        assert(off@[j] == off0[j]);
                    }
                }
            }
            tasks.push(cols);
            b = b + 1;
        }
        Ok(ReplayPlan { rs_inv: rs, tasks, off })
    }

    /// Take over the new values after the blocks have been replayed; the first
    /// block that failed decides. Then the values are invalid until the next
    /// successful refactorization.
    pub fn finish_replay(
        &mut self,
        a: &GeneralCsc<T>,
        plan: ReplayPlan<T>,
        done: &Vec<Result<(), usize>>,
    ) -> (r: Result<(), RslabError>)
        requires
            old(self).wf(),
            replay_plan_of(*old(self), *a, plan),
            replays_run(*old(self), *a, plan, done@),
        ensures
            final(self).wf(),
            same_frame(*final(self), *old(self)),
            r is Ok ==> final(self).fits(*a) && final(self).holds(*a),
            r is Ok ==> forall|b: int|
                0 <= b < final(self).blocks@.len() ==> #[trigger] final(self).block_usable(b),
            r matches Err(e) ==> e is SingularBasis && refactor_refused(
                *old(self),
                *a,
                *final(self),
                e,
            ),
    {
        let ghost f0 = *self;
        let mut b: usize = 0;
        while b < done.len()
            invariant
                b <= done@.len(),
                *self == f0,
                f0 == *old(self),
                f0.wf(),
                replay_plan_of(f0, *a, plan),
                replays_run(f0, *a, plan, done@),
                forall|b2: int| 0 <= b2 < b ==> #[trigger] done@[b2] is Ok,
            decreases done@.len() - b,
        {
            match done[b] {
                Err(k) => {
                    proof {
                        block_range(f0.n as int, f0.block_ptr@, b as int);
                        let cols = plan.tasks@[b as int]@;
                        assert(replays(f0, *a, plan.rs_inv@, b as int, cols));
                        assert(replay_outcome(f0, *a, plan.rs_inv@, b as int, cols, done@[b as int]));
                        assert(frozen_pivot_fails(
                            f0,
                            *a,
                            row_scales(*a, f0.scaled),
                            b as int,
                            k as int,
                        ));
                        assert(in_block(f0.block_ptr@, b as int, f0.start(b as int) + k));
                        assert forall|b2: int| 0 <= b2 < b implies #[trigger] block_replayed(
                            f0,
                            *a,
                            row_scales(*a, f0.scaled),
                            b2,
                        ) by {
                            assert(done@[b2] is Ok);
                            assert(replayed(
                                f0,
                                *a,
                                plan.rs_inv@,
                                b2,
                                f0.blocks@[b2],
                                plan.tasks@[b2]@,
                            ));
                        }
                    }
                    let at: usize = self.block_ptr[b] + k;
                    return Err(RslabError::SingularBasis { column: self.col_perm[at] });
                },
                Ok(()) => {},
            }
            b = b + 1;
        }
        let ghost all = plan.tasks@;
        let ghost rs = plan.rs_inv@;
        assert forall|b2: int| 0 <= b2 < f0.blocks@.len() implies #[trigger] replayed(
            f0,
            *a,
            rs,
            b2,
            f0.blocks@[b2],
            all[b2]@,
        ) by {
            if done@.len() < plan.tasks@.len() {
                assert(done@[done@.len() - 1] is Ok);
            }
            assert(done@[b2] is Ok);
            assert(replay_outcome(f0, *a, rs, b2, all[b2]@, done@[b2]));
        }
        self.rs_inv = plan.rs_inv;
        self.off = plan.off;
        proof {
            let f4 = *self;
            assert(f4.formed());
            assert forall|b2: int| 0 <= b2 < f4.blocks@.len() implies #[trigger] f4.block_covers(b2) by {
                assert(f0.block_covers(b2));
                pattern_frame(f0, f4, b2);
            }
            assert forall|b2: int| 0 <= b2 < f4.blocks@.len() implies #[trigger] f4.block_upper(b2) by {
                assert(f0.block_upper(b2));
                pattern_frame(f0, f4, b2);
            }
            assert forall|b2: int| 0 <= b2 < f4.blocks@.len() implies #[trigger] f4.off_wf(b2) by {
                assert forall|j: int| #[trigger] in_block(f4.block_ptr@, b2, j) implies f4.off@[j].wf(
                    f4.start(b2),
                ) by {
                    assert(in_block(f0.block_ptr@, b2, j));
                    assert(keeps_above(f0, *a, rs, b2, j, f4.off@[j]));
                }
            }
            assert forall|b2: int| 0 <= b2 < f4.blocks@.len() implies #[trigger] f4.off_valued(*a, b2) by {
                assert forall|j: int| #[trigger] in_block(f4.block_ptr@, b2, j) implies is_column(
                    f4.off@[j],
                    kept(
                        scaled_entries(*a, f4.rs_inv@, f4.pinv@, f4.col_perm@[j] as int),
                        0,
                        f4.start(b2),
                    ),
                ) by {
                    assert(in_block(f0.block_ptr@, b2, j));
                    assert(keeps_above(f0, *a, rs, b2, j, f4.off@[j]));
                }
            }
            assert forall|b2: int| 0 <= b2 < f4.blocks@.len() implies #[trigger] f4.block_valued(*a, b2) by {
                assert(replayed(f0, *a, rs, b2, f0.blocks@[b2], all[b2]@));
                assert(f4.columns_of(*a, b2, all[b2]@));
            }
            assert forall|b2: int| 0 <= b2 < f4.blocks@.len() implies #[trigger] f4.block_usable(b2) by {
                assert(replayed(f0, *a, rs, b2, f0.blocks@[b2], all[b2]@));
            }
        }
        Ok(())
    }

    /// Replay the stored pattern and pivot sequence on new values with the
    /// same pattern. No symbolic work and no pivot search. Where several workers
    /// were planned for a block, they take turns. After
    /// [`RslabError::SingularBasis`] the values are invalid until the next
    /// successful call.
    pub fn refactor(&mut self, a: &GeneralCsc<T>) -> (r: Result<(), RslabError>)
        requires
            old(self).wf(),
        ensures
            final(self).wf(),
            same_frame(*final(self), *old(self)),
            r is Ok ==> a.wf() && old(self).fits(*a) && final(self).fits(*a) && final(self).holds(*a),
            r is Ok ==> forall|b: int|
                0 <= b < final(self).blocks@.len() ==> #[trigger] final(self).block_usable(b),
            r matches Err(e) ==> refactor_refused(*old(self), *a, *final(self), e),
            refactor_stopped(*old(self), *a) ==> r == Err::<(), RslabError>(
                RslabError::Interrupted,
            ),
    {
        let ghost f0 = *self;
        let plan = match self.plan_replay(a) {
            Ok(plan) => plan,
            Err(e) => {
                return Err(e);
            },
        };
        let mut done: Vec<Result<(), usize>> = Vec::new();
        let mut broken = false;
        while !broken && done.len() < plan.tasks.len()
            invariant
                f0 == *old(self),
                f0.wf(),
                self.wf(),
                same_frame(*self, f0),
                self.rs_inv == f0.rs_inv,
                self.off == f0.off,
                replay_plan_of(*self, *a, plan),
                done@.len() <= plan.tasks@.len(),
                broken ==> done@.len() > 0 && done@[done@.len() - 1] is Err,
                forall|b2: int|
                    0 <= b2 < done@.len() ==> replay_outcome(
                        *self,
                        *a,
                        plan.rs_inv@,
                        b2,
                        plan.tasks@[b2]@,
                        #[trigger] done@[b2],
                    ),
            decreases plan.tasks@.len() - done@.len(),
        {
            let b: usize = done.len();
            let ghost f1 = *self;
            proof {
                block_range(f1.n as int, f1.block_ptr@, b as int);
                assert(replays(f1, *a, plan.rs_inv@, b as int, plan.tasks@[b as int]@));
            }
            let cols = &plan.tasks[b];
            let r = match workers_for(&self.pipelined, b, usize::MAX) {
                Some(workers) => replay_in_turn(cols.len(), workers, &mut self.blocks[b], cols),
                None => replay_block(cols.len(), &mut self.blocks[b], cols),
            };
            proof {
                let f2 = *self;
                assert(f2.blocks@ == f1.blocks@.update(b as int, f2.blocks@[b as int]));
                assert(same_pattern(f2.blocks@[b as int], f1.blocks@[b as int]));
                one_block_replayed(f0, f1, f2, *a, plan, b as int);
                assert forall|b2: int| 0 <= b2 < b implies replay_outcome(
                    f2,
                    *a,
                    plan.rs_inv@,
                    b2,
                    plan.tasks@[b2]@,
                    #[trigger] done@[b2],
                ) by {
                    assert(replay_outcome(f1, *a, plan.rs_inv@, b2, plan.tasks@[b2]@, done@[b2]));
                }
                assert(replay_outcome(f2, *a, plan.rs_inv@, b as int, cols@, r));
            }
            broken = r.is_err();
            done.push(r);
        }
        self.finish_replay(a, plan, &done)
    }
}

/// Replaying one block keeps the frame, and the plan goes on.
proof fn one_block_replayed<T: Scalar>(
    f0: KluFactors<T>,
    f1: KluFactors<T>,
    f2: KluFactors<T>,
    a: GeneralCsc<T>,
    plan: ReplayPlan<T>,
    b: int,
)
    requires
        f1.wf(),
        same_frame(f1, f0),
        replay_plan_of(f1, a, plan),
        0 <= b < f1.blocks@.len(),
        f2 == (KluFactors { blocks: f2.blocks, ..f1 }),
        f2.blocks@ == f1.blocks@.update(b, f2.blocks@[b]),
        same_pattern(f2.blocks@[b], f1.blocks@[b]),
        f2.blocks@[b].structured(f1.size(b), f1.size(b), plan.tasks@[b]@),
    ensures
        f2.wf(),
        same_frame(f2, f0),
        replay_plan_of(f2, a, plan),
{
    assert forall|b2: int| 0 <= b2 < f2.blocks@.len() implies same_pattern(
        #[trigger] f2.blocks@[b2],
        f0.blocks@[b2],
    ) by {
        assert(same_pattern(f1.blocks@[b2], f0.blocks@[b2]));
    }
    assert(f2.formed());
    assert(replays(f1, a, plan.rs_inv@, b, plan.tasks@[b]@));
    structure_of(f2, a, plan.rs_inv, b, plan.tasks@[b]@);
    assert forall|b2: int| 0 <= b2 < f2.blocks@.len() implies #[trigger] f2.block_covers(b2) by {
        if b2 != b {
            assert(f1.block_covers(b2));
            pattern_frame(f1, f2, b2);
        }
    }
    assert forall|b2: int| 0 <= b2 < f2.blocks@.len() implies #[trigger] f2.block_upper(b2) by {
        assert(f1.block_upper(b2));
        pattern_frame(f1, f2, b2);
    }
    assert forall|b2: int| 0 <= b2 < f2.blocks@.len() implies #[trigger] f2.off_wf(b2) by {
        assert(f1.off_wf(b2));
    }
    assert forall|b2: int| 0 <= b2 < plan.tasks@.len() implies replays(
        f2,
        a,
        plan.rs_inv@,
        b2,
        (#[trigger] plan.tasks@[b2])@,
    ) by {
        assert(replays(f1, a, plan.rs_inv@, b2, plan.tasks@[b2]@));
    }
    assert forall|b2: int, j: int| #[trigger] in_block(f2.block_ptr@, b2, j) implies keeps_above(
        f2,
        a,
        plan.rs_inv@,
        b2,
        j,
        plan.off@[j],
    ) by {
        assert(in_block(f1.block_ptr@, b2, j));
        assert(keeps_above(f1, a, plan.rs_inv@, b2, j, plan.off@[j]));
    }
}

} // verus!
