//! Where a factorization spent its time.

use crate::scalar::Real;
use std::sync::atomic::{AtomicU64, Ordering};
use vstd::prelude::*;

verus! {

/// Whether small leaves are factored in batches.
#[derive(Debug, Clone, Copy, PartialEq, Eq, Structural)]
pub enum SmallLeafBatch {
    Off,
    On,
}

impl Default for SmallLeafBatch {
    fn default() -> (r: Self)
        ensures
            r == SmallLeafBatch::Off,
    {
        SmallLeafBatch::Off
    }
}

/// The timing of one supernode, in microseconds.
#[derive(Debug, Clone, Copy, PartialEq, Eq)]
pub struct SupernodeTiming {
    pub snode_idx: usize,
    pub nrow: usize,
    pub ncol: usize,
    pub us: u64,
    /// Row indices, scatter and extend-add.
    pub assembly_us: u64,
    /// The dense factorization of the front, of which the next three are parts.
    pub densefactor_us: u64,
    pub panelfactor_us: u64,
    pub schur_us: u64,
    pub scalartail_us: u64,
}

/// The timing of a supernode whose parts are not told apart.
pub open spec fn whole_timing(s: usize, nrow: usize, ncol: usize, us: u64) -> SupernodeTiming {
    SupernodeTiming {
        snode_idx: s,
        nrow,
        ncol,
        us,
        assembly_us: 0,
        densefactor_us: 0,
        panelfactor_us: 0,
        schur_us: 0,
        scalartail_us: 0,
    }
}

/// The timing of a supernode whose parts are not told apart.
pub fn timing_of(s: usize, nrow: usize, ncol: usize, us: u64) -> (r: SupernodeTiming)
    ensures
        r == whole_timing(s, nrow, ncol, us),
{
    SupernodeTiming {
        snode_idx: s,
        nrow,
        ncol,
        us,
        assembly_us: 0,
        densefactor_us: 0,
        panelfactor_us: 0,
        schur_us: 0,
        scalartail_us: 0,
    }
}

/// The parts of the work before the first supernode, in microseconds.
#[derive(Debug, Clone, Copy, PartialEq, Eq)]
pub struct PrologueBreakdown {
    pub row_map_us: u64,
    pub scaling_us: u64,
    pub scaling_pivot_order_us: u64,
    pub permute_us: u64,
    /// A part of `permute_us`.
    pub permute_from_triplets_us: u64,
    pub infnorm_tol_us: u64,
    pub symmetric_pattern_us: u64,
    pub setup_us: u64,
}

impl Default for PrologueBreakdown {
    fn default() -> (r: Self)
        ensures
            r == no_breakdown(),
    {
        PrologueBreakdown {
            row_map_us: 0,
            scaling_us: 0,
            scaling_pivot_order_us: 0,
            permute_us: 0,
            permute_from_triplets_us: 0,
            infnorm_tol_us: 0,
            symmetric_pattern_us: 0,
            setup_us: 0,
        }
    }
}

/// All parts zero.
pub open spec fn no_breakdown() -> PrologueBreakdown {
    PrologueBreakdown {
        row_map_us: 0,
        scaling_us: 0,
        scaling_pivot_order_us: 0,
        permute_us: 0,
        permute_from_triplets_us: 0,
        infnorm_tol_us: 0,
        symmetric_pattern_us: 0,
        setup_us: 0,
    }
}

/// The timings of one factorization.
#[derive(Debug, Clone)]
pub struct Profiler {
    pub timings: Vec<SupernodeTiming>,
    pub prologue_us: u64,
    pub prologue_breakdown: PrologueBreakdown,
    pub epilogue_us: u64,
    pub total_us: u64,
}

/// How many front sizes are told apart.
pub const BUCKETS: usize = 6;

/// The largest front of bucket `b`.
pub open spec fn bucket_top(b: int) -> int {
    if b == 0 {
        8
    } else if b == 1 {
        16
    } else if b == 2 {
        32
    } else if b == 3 {
        64
    } else if b == 4 {
        128
    } else {
        usize::MAX as int
    }
}

/// The front size `nrow` falls into bucket `b`.
pub open spec fn in_bucket(nrow: int, b: int) -> bool {
    nrow <= bucket_top(b) && (b > 0 ==> nrow > bucket_top(b - 1))
}

/// The bucket of a front size.
pub fn bucket_of(nrow: usize) -> (b: usize)
    ensures
        b < BUCKETS,
        in_bucket(nrow as int, b as int),
{
    if nrow <= 8 {
        0
    } else if nrow <= 16 {
        1
    } else if nrow <= 32 {
        2
    } else if nrow <= 64 {
        3
    } else if nrow <= 128 {
        4
    } else {
        5
    }
}

/// The label of bucket `b`.
pub open spec fn bucket_label(b: int) -> &'static str {
    if b == 0 {
        "<=8"
    } else if b == 1 {
        "9-16"
    } else if b == 2 {
        "17-32"
    } else if b == 3 {
        "33-64"
    } else if b == 4 {
        "65-128"
    } else {
        ">128"
    }
}

fn label_of(b: usize) -> (r: &'static str)
    requires
        b < BUCKETS,
    ensures
        r == bucket_label(b as int),
{
    if b == 0 {
        "<=8"
    } else if b == 1 {
        "9-16"
    } else if b == 2 {
        "17-32"
    } else if b == 3 {
        "33-64"
    } else if b == 4 {
        "65-128"
    } else {
        ">128"
    }
}

/// How many of the first `k` fronts fall into bucket `b`.
pub open spec fn bucket_count(t: Seq<SupernodeTiming>, b: int, k: int) -> int
    decreases k,
{
    if k <= 0 {
        0
    } else {
        bucket_count(t, b, k - 1) + (if in_bucket(t[k - 1].nrow as int, b) {
            1int
        } else {
            0int
        })
    }
}

/// The time of those of the first `k` fronts that fall into bucket `b`.
pub open spec fn bucket_time(t: Seq<SupernodeTiming>, b: int, k: int) -> int
    decreases k,
{
    if k <= 0 {
        0
    } else {
        bucket_time(t, b, k - 1) + (if in_bucket(t[k - 1].nrow as int, b) {
            t[k - 1].us as int
        } else {
            0int
        })
    }
}

/// The time of the first `k` fronts.
pub open spec fn loop_time(t: Seq<SupernodeTiming>, k: int) -> int
    decreases k,
{
    if k <= 0 {
        0
    } else {
        loop_time(t, k - 1) + t[k - 1].us
    }
}

/// Every front falls into exactly one bucket, so counts and times add up.
pub proof fn buckets_add_up(t: Seq<SupernodeTiming>, k: int)
    requires
        0 <= k <= t.len(),
    ensures
        bucket_count(t, 0, k) + bucket_count(t, 1, k) + bucket_count(t, 2, k) + bucket_count(t, 3, k)
            + bucket_count(t, 4, k) + bucket_count(t, 5, k) == k,
        bucket_time(t, 0, k) + bucket_time(t, 1, k) + bucket_time(t, 2, k) + bucket_time(t, 3, k)
            + bucket_time(t, 4, k) + bucket_time(t, 5, k) == loop_time(t, k),
        forall|b: int| 0 <= #[trigger] bucket_count(t, b, k) <= k,
        forall|b: int| 0 <= #[trigger] bucket_time(t, b, k) <= loop_time(t, k),
    decreases k,
{
    if k > 0 {
        buckets_add_up(t, k - 1);
        assert forall|b: int| 0 <= #[trigger] bucket_count(t, b, k) <= k by {
            assert(0 <= bucket_count(t, b, k - 1) <= k - 1);
        }
        assert forall|b: int| 0 <= #[trigger] bucket_time(t, b, k) <= loop_time(t, k) by {
            assert(0 <= bucket_time(t, b, k - 1) <= loop_time(t, k - 1));
        }
    }
}

proof fn loop_time_grows(t: Seq<SupernodeTiming>, k: int, n: int)
    requires
        0 <= k <= n <= t.len(),
    ensures
        loop_time(t, k) <= loop_time(t, n),
    decreases n - k,
{
    if k < n {
        loop_time_grows(t, k + 1, n);
    }
}

/// One line of the histogram of front sizes.
#[derive(Debug, Clone, Copy)]
pub struct BucketStats<R> {
    pub range: &'static str,
    pub count: usize,
    pub sum_us: u64,
    pub pct_of_total: R,
    pub avg_us: R,
}

/// What the timings of a factorization amount to.
#[derive(Debug, Clone)]
pub struct ProfileReport<R> {
    pub n_supernodes: usize,
    pub prologue_us: u64,
    pub prologue_breakdown: PrologueBreakdown,
    pub epilogue_us: u64,
    /// The sum of the supernode timings.
    pub loop_us: u64,
    pub total_us: u64,
    pub overhead_pct: R,
    pub buckets: Vec<BucketStats<R>>,
    /// Prologue, loop and epilogue take longer than the whole.
    pub exceeds_total: bool,
}

/// `100 a / b`, zero where `b` is.
pub open spec fn percent<R: Real>(a: u64, b: u64) -> R {
    if b == 0 {
        R::zero_spec()
    } else {
        R::from_count_spec(a).times_spec(R::from_count_spec(100)).over_spec(R::from_count_spec(b))
    }
}

fn percent_of<R: Real>(a: u64, b: u64) -> (r: R)
    ensures
        r == percent::<R>(a, b),
{
    if b == 0 {
        R::zero()
    } else {
        R::from_count(a).times(R::from_count(100)).over(R::from_count(b))
    }
}

/// The mean, zero of nothing.
pub open spec fn mean<R: Real>(sum: u64, count: u64) -> R {
    if count == 0 {
        R::zero_spec()
    } else {
        R::from_count_spec(sum).over_spec(R::from_count_spec(count))
    }
}

impl Profiler {
    /// The accounted times have a representable sum.
    pub open spec fn fits(&self) -> bool {
        loop_time(self.timings@, self.timings@.len() as int) + self.prologue_us + self.epilogue_us
            <= u64::MAX
    }

    /// No timings yet.
    pub fn new() -> (r: Self)
        ensures
            r.timings@.len() == 0,
            r.prologue_us == 0,
            r.prologue_breakdown == no_breakdown(),
            r.epilogue_us == 0,
            r.total_us == 0,
    {
        Profiler {
            timings: Vec::new(),
            prologue_us: 0,
            prologue_breakdown: PrologueBreakdown::default(),
            epilogue_us: 0,
            total_us: 0,
        }
    }

    /// Number of supernode timings.
    pub fn len(&self) -> (r: usize)
        ensures
            r == self.timings@.len(),
    {
        self.timings.len()
    }

    pub fn is_empty(&self) -> (r: bool)
        ensures
            r == (self.timings@.len() == 0),
    {
        self.timings.len() == 0
    }

    /// The supernode timings, in the order they came.
    pub fn timings(&self) -> (r: &[SupernodeTiming])
        ensures
            r@ == self.timings@,
    {
        self.timings.as_slice()
    }

    /// Bucket `b` of the report.
    pub open spec fn bucket<R: Real>(&self, b: int) -> BucketStats<R> {
        let t = self.timings@;
        let count = bucket_count(t, b, t.len() as int);
        let time = bucket_time(t, b, t.len() as int);
        BucketStats {
            range: bucket_label(b),
            count: count as usize,
            sum_us: time as u64,
            pct_of_total: percent(time as u64, loop_time(t, t.len() as int) as u64),
            avg_us: mean(time as u64, count as u64),
        }
    }

    /// The histogram by front size, with shares of the loop and means.
    pub fn report<R: Real>(&self) -> (r: ProfileReport<R>)
        requires
            self.fits(),
        ensures
            r.n_supernodes == self.timings@.len(),
            r.prologue_us == self.prologue_us,
            r.prologue_breakdown == self.prologue_breakdown,
            r.epilogue_us == self.epilogue_us,
            r.loop_us == loop_time(self.timings@, self.timings@.len() as int),
            r.total_us == self.total_us,
            r.overhead_pct == percent::<R>(
                (self.prologue_us + self.epilogue_us) as u64,
                self.total_us,
            ),
            r.buckets@ == Seq::new(BUCKETS as nat, |b: int| self.bucket::<R>(b)),
            r.exceeds_total <==> self.total_us > 0 && r.loop_us + self.prologue_us
                + self.epilogue_us > self.total_us,
    {
        let t = &self.timings;
        let n: usize = t.len();
        let mut counts: [usize; 6] = [0, 0, 0, 0, 0, 0];
        let mut times: [u64; 6] = [0, 0, 0, 0, 0, 0];
        let mut loop_us: u64 = 0;
        let mut k: usize = 0;
        while k < n
            invariant
                k <= n,
                n == t@.len(),
                t@ == self.timings@,
                self.fits(),
                forall|b: int| 0 <= b < 6 ==> #[trigger] counts@[b] == bucket_count(t@, b, k as int),
                forall|b: int| 0 <= b < 6 ==> #[trigger] times@[b] == bucket_time(t@, b, k as int),
                loop_us == loop_time(t@, k as int),
            decreases n - k,
        {
            let b: usize = bucket_of(t[k].nrow);
            proof {
                buckets_add_up(t@, k as int);
                loop_time_grows(t@, k + 1, n as int);
                assert(counts@[b as int] == bucket_count(t@, b as int, k as int));
                assert(times@[b as int] == bucket_time(t@, b as int, k as int));
                assert forall|b2: int| 0 <= b2 < 6 implies (in_bucket(t@[k as int].nrow as int, b2)
                    <==> b2 == b) by {}
            }
            let ghost c0 = counts@;
            let ghost t0 = times@;
            counts[b] = counts[b] + 1;
            times[b] = times[b] + t[k].us;
            loop_us = loop_us + t[k].us;
            k = k + 1;
            proof {
                assert forall|b2: int| 0 <= b2 < 6 implies #[trigger] counts@[b2] == bucket_count(
                    t@,
                    b2,
                    k as int,
                ) by {
                    assert(c0[b2] == bucket_count(t@, b2, k - 1));
                }
                assert forall|b2: int| 0 <= b2 < 6 implies #[trigger] times@[b2] == bucket_time(
                    t@,
                    b2,
                    k as int,
                ) by {
                    assert(t0[b2] == bucket_time(t@, b2, k - 1));
                }
            }
        }
        let mut buckets: Vec<BucketStats<R>> = Vec::new();
        let mut b: usize = 0;
        while b < 6
            invariant
                b <= 6,
                n == self.timings@.len(),
                forall|q: int|
                    0 <= q < 6 ==> #[trigger] counts@[q] == bucket_count(self.timings@, q, n as int),
                forall|q: int|
                    0 <= q < 6 ==> #[trigger] times@[q] == bucket_time(self.timings@, q, n as int),
                loop_us == loop_time(self.timings@, n as int),
                buckets@.len() == b,
                forall|q: int| 0 <= q < b ==> #[trigger] buckets@[q] == self.bucket::<R>(q),
            decreases 6 - b,
        {
            let count: usize = counts[b];
            let sum_us: u64 = times[b];
            let avg = if count == 0 {
                R::zero()
            } else {
                R::from_count(sum_us).over(R::from_count(count as u64))
            };
            buckets.push(
                BucketStats {
                    range: label_of(b),
                    count,
                    sum_us,
                    pct_of_total: percent_of(sum_us, loop_us),
                    avg_us: avg,
                },
            );
            b = b + 1;
        }
        proof {
            buckets_add_up(self.timings@, n as int);
            assert(buckets@ =~= Seq::new(BUCKETS as nat, |b: int| self.bucket::<R>(b)));
        }
        let overhead: u64 = self.prologue_us + self.epilogue_us;
        ProfileReport {
            n_supernodes: n,
            prologue_us: self.prologue_us,
            prologue_breakdown: self.prologue_breakdown,
            epilogue_us: self.epilogue_us,
            loop_us,
            total_us: self.total_us,
            overhead_pct: percent_of(overhead, self.total_us),
            buckets,
            exceeds_total: self.total_us > 0 && loop_us + overhead > self.total_us,
        }
    }
}

impl Default for Profiler {
    fn default() -> (r: Self)
        ensures
            r.timings@.len() == 0,
            r.prologue_us == 0,
            r.prologue_breakdown == no_breakdown(),
            r.epilogue_us == 0,
            r.total_us == 0,
    {
        Profiler::new()
    }
}

/// Counters that the tasks of a parallel factorization add to.
#[derive(Debug, Default)]
pub struct AtomicLockStats {
    pub contrib_wait_ns: AtomicU64,
    pub contrib_hold_ns: AtomicU64,
    pub node_factors_wait_ns: AtomicU64,
    pub node_factors_hold_ns: AtomicU64,
    pub factor_body_ns: AtomicU64,
    pub task_wall_ns: AtomicU64,
    pub ws_lock_wait_ns: AtomicU64,
    pub n_tasks: AtomicU64,
    pub phase_scaling_ns: AtomicU64,
    pub phase_permute_ns: AtomicU64,
    pub phase_symmetric_pattern_ns: AtomicU64,
    pub phase_tree_setup_ns: AtomicU64,
    pub phase_thread_ws_ns: AtomicU64,
    pub phase_leaves_ns: AtomicU64,
    pub phase_scope_ns: AtomicU64,
    pub phase_collect_ns: AtomicU64,
}

/// The values of the counters at one time.
#[derive(Debug, Clone, Copy, PartialEq, Eq, Default)]
pub struct ParallelLockStats {
    pub contrib_wait_ns: u64,
    pub contrib_hold_ns: u64,
    pub node_factors_wait_ns: u64,
    pub node_factors_hold_ns: u64,
    pub factor_body_ns: u64,
    pub task_wall_ns: u64,
    pub ws_lock_wait_ns: u64,
    pub n_tasks: u64,
    pub phase_scaling_ns: u64,
    pub phase_permute_ns: u64,
    pub phase_symmetric_pattern_ns: u64,
    pub phase_tree_setup_ns: u64,
    pub phase_thread_ws_ns: u64,
    pub phase_leaves_ns: u64,
    pub phase_scope_ns: u64,
    pub phase_collect_ns: u64,
}

impl ParallelLockStats {
    /// The statistics of counters that were read one after the other.
    pub fn of_reads(reads: [u64; 16]) -> (r: Self)
        ensures
            r.contrib_wait_ns == reads@[0],
            r.contrib_hold_ns == reads@[1],
            r.node_factors_wait_ns == reads@[2],
            r.node_factors_hold_ns == reads@[3],
            r.factor_body_ns == reads@[4],
            r.task_wall_ns == reads@[5],
            r.ws_lock_wait_ns == reads@[6],
            r.n_tasks == reads@[7],
            r.phase_scaling_ns == reads@[8],
            r.phase_permute_ns == reads@[9],
            r.phase_symmetric_pattern_ns == reads@[10],
            r.phase_tree_setup_ns == reads@[11],
            r.phase_thread_ws_ns == reads@[12],
            r.phase_leaves_ns == reads@[13],
            r.phase_scope_ns == reads@[14],
            r.phase_collect_ns == reads@[15],
    {
        ParallelLockStats {
            contrib_wait_ns: reads[0],
            contrib_hold_ns: reads[1],
            node_factors_wait_ns: reads[2],
            node_factors_hold_ns: reads[3],
            factor_body_ns: reads[4],
            task_wall_ns: reads[5],
            ws_lock_wait_ns: reads[6],
            n_tasks: reads[7],
            phase_scaling_ns: reads[8],
            phase_permute_ns: reads[9],
            phase_symmetric_pattern_ns: reads[10],
            phase_tree_setup_ns: reads[11],
            phase_thread_ws_ns: reads[12],
            phase_leaves_ns: reads[13],
            phase_scope_ns: reads[14],
            phase_collect_ns: reads[15],
        }
    }
}

/// A relaxed load of the counter may return `v`.
pub open spec fn counts_as(counter: AtomicU64, v: u64) -> bool {
    call_ensures(AtomicU64::load, (&counter, Ordering::Relaxed), v)
}

/// One relaxed load of the counter.
fn read_counter<F: Fn(&AtomicU64, Ordering) -> u64>(load: F, counter: &AtomicU64) -> (r: u64)
    requires
        call_requires(load, (counter, Ordering::Relaxed)),
    ensures
        call_ensures(load, (counter, Ordering::Relaxed), r),
{
    load(counter, Ordering::Relaxed)
}

impl AtomicLockStats {
    /// Read every counter once (see [`ParallelLockStats::of_reads`]): each
    /// statistic is what a load of its own counter returned. Which value that is
    /// depends on what the tasks have added by then.
    pub fn snapshot(&self) -> (r: ParallelLockStats)
        ensures
            counts_as(self.contrib_wait_ns, r.contrib_wait_ns),
            counts_as(self.contrib_hold_ns, r.contrib_hold_ns),
            counts_as(self.node_factors_wait_ns, r.node_factors_wait_ns),
            counts_as(self.node_factors_hold_ns, r.node_factors_hold_ns),
            counts_as(self.factor_body_ns, r.factor_body_ns),
            counts_as(self.task_wall_ns, r.task_wall_ns),
            counts_as(self.ws_lock_wait_ns, r.ws_lock_wait_ns),
            counts_as(self.n_tasks, r.n_tasks),
            counts_as(self.phase_scaling_ns, r.phase_scaling_ns),
            counts_as(self.phase_permute_ns, r.phase_permute_ns),
            counts_as(self.phase_symmetric_pattern_ns, r.phase_symmetric_pattern_ns),
            counts_as(self.phase_tree_setup_ns, r.phase_tree_setup_ns),
            counts_as(self.phase_thread_ws_ns, r.phase_thread_ws_ns),
            counts_as(self.phase_leaves_ns, r.phase_leaves_ns),
            counts_as(self.phase_scope_ns, r.phase_scope_ns),
            counts_as(self.phase_collect_ns, r.phase_collect_ns),
    {
        ParallelLockStats::of_reads(
            [
                read_counter(AtomicU64::load, &self.contrib_wait_ns),
                read_counter(AtomicU64::load, &self.contrib_hold_ns),
                read_counter(AtomicU64::load, &self.node_factors_wait_ns),
                read_counter(AtomicU64::load, &self.node_factors_hold_ns),
                read_counter(AtomicU64::load, &self.factor_body_ns),
                read_counter(AtomicU64::load, &self.task_wall_ns),
                read_counter(AtomicU64::load, &self.ws_lock_wait_ns),
                read_counter(AtomicU64::load, &self.n_tasks),
                read_counter(AtomicU64::load, &self.phase_scaling_ns),
                read_counter(AtomicU64::load, &self.phase_permute_ns),
                read_counter(AtomicU64::load, &self.phase_symmetric_pattern_ns),
                read_counter(AtomicU64::load, &self.phase_tree_setup_ns),
                read_counter(AtomicU64::load, &self.phase_thread_ws_ns),
                read_counter(AtomicU64::load, &self.phase_leaves_ns),
                read_counter(AtomicU64::load, &self.phase_scope_ns),
                read_counter(AtomicU64::load, &self.phase_collect_ns),
            ],
        )
    }
}

} // verus!
