//! Running the tasks of an assembly tree: a worker takes a ready supernode with
//! what its children handed over, factors it on its own, and hands the outcome
//! back. Any number of workers may run at once, each with a space of its own.

use crate::error::RslabError;
use crate::multifrontal::assembly::unmapped;
use crate::multifrontal::driver::{comes_before, node_done, tree_refused};
use crate::multifrontal::factorize::{no_tails, reset_map};
use crate::multifrontal::frame::{agree, made_agree, refused_agree};
use crate::multifrontal::kernel::FrontKernel;
use crate::multifrontal::model::{contrib_ok, descends, descends_up, parent_is, ContribBlock};
use crate::multifrontal::node::{
    clear_children, factor_one_supernode, node_made, node_refused, FrontJob, NodeFactors,
};
use crate::multifrontal::order::{own_parent_later, parent_lists};
use crate::multifrontal::tasks::{
    open_count, open_count_drops, open_kids, open_kids_range, tasks_never_stall, TaskGraph,
};
use crate::multifrontal::tree::{is_root, parent_of, root_flags};
use crate::scalar::Scalar;
use crate::seqs::{below, distinct, occurs};
use crate::sparse::position;
use vstd::prelude::*;

verus! {

/// A supernode to factor, with what its children handed over.
pub struct Task<T> {
    pub s: usize,
    pub root: bool,
    pub inputs: Vec<Option<ContribBlock<T>>>,
}

/// A factored supernode and what it hands over.
pub struct Finished<T: Scalar> {
    pub s: usize,
    pub node: NodeFactors<T>,
    pub block: Option<ContribBlock<T>>,
    /// What its children had handed over.
    pub inputs: Ghost<Seq<Option<ContribBlock<T>>>>,
}

/// The space that one worker factors in.
pub struct TaskSpace<T> {
    pub map: Vec<usize>,
    pub local: Vec<Option<ContribBlock<T>>>,
}

/// The contributions stand in the places of the children.
pub open spec fn staged<T>(
    kids: Seq<usize>,
    st: Seq<Option<ContribBlock<T>>>,
    inputs: Seq<Option<ContribBlock<T>>>,
) -> bool {
    forall|q: int| 0 <= q < kids.len() ==> st[#[trigger] kids[q] as int] == inputs[q]
}

/// The node and the block come from these contributions.
pub open spec fn task_made<T: Scalar, K: FrontKernel<T>>(
    job: FrontJob<T>,
    kernel: K,
    s: int,
    inputs: Seq<Option<ContribBlock<T>>>,
    node: NodeFactors<T>,
    block: Option<ContribBlock<T>>,
) -> bool {
    exists|st: Seq<Option<ContribBlock<T>>>| #[trigger]
        staged(job.sn()[s].children@, st, inputs) && node_made(job, kernel, s, st, 0, node, block)
}

/// The supernode cannot be factored from these contributions.
pub open spec fn task_refused<T: Scalar, K: FrontKernel<T>>(
    job: FrontJob<T>,
    kernel: K,
    s: int,
    inputs: Seq<Option<ContribBlock<T>>>,
    e: RslabError,
) -> bool {
    exists|st: Seq<Option<ContribBlock<T>>>| #[trigger]
        staged(job.sn()[s].children@, st, inputs) && node_refused(job, kernel, s, st, 0, e)
}

/// The task is one of this factorization.
pub open spec fn task_fits<T: Scalar>(job: FrontJob<T>, task: Task<T>) -> bool {
    let kids = job.sn()[task.s as int].children@;
    &&& task.s < job.sn().len()
    &&& task.root == is_root(job.sn(), task.s as int)
    &&& task.inputs@.len() == kids.len()
    &&& forall|q: int|
        0 <= q < kids.len() ==> (#[trigger] task.inputs@[q] matches Some(b) ==> contrib_ok(
            job.sn(),
            job.sym.n as int,
            kids[q] as int,
            b,
        ))
}

fn take_at<A>(v: &mut Vec<Option<A>>, i: usize) -> (r: Option<A>)
    requires
        i < old(v)@.len(),
    ensures
        r == old(v)@[i as int],
        final(v)@ == old(v)@.update(i as int, None),
{
    let mut r: Option<A> = None;
    std::mem::swap(&mut r, &mut v[i]);
    r
}

impl<T: Scalar> TaskSpace<T> {
    /// Nothing is left in the space.
    pub open spec fn idle(&self, n: int, len: int) -> bool {
        &&& unmapped(self.map@, n)
        &&& self.local@.len() == len
        &&& forall|c: int| 0 <= c < len ==> #[trigger] self.local@[c] is None
    }

    /// A space for `n` columns in `len` supernodes.
    pub fn new(n: usize, len: usize) -> (r: Self)
        ensures
            r.idle(n as int, len as int),
    {
        let mut map: Vec<usize> = Vec::new();
        reset_map(&mut map, n);
        let mut local: Vec<Option<ContribBlock<T>>> = Vec::new();
        let mut k: usize = 0;
        while k < len
            invariant
                k <= len,
                local@.len() == k,
                forall|c: int| 0 <= c < k ==> #[trigger] local@[c] is None,
            decreases len - k,
        {
            local.push(None);
            k = k + 1;
        }
        TaskSpace { map, local }
    }
}

/// Factor the supernode of a task.
pub fn run_task<T: Scalar, K: FrontKernel<T>>(
    job: &FrontJob<T>,
    kernel: &K,
    task: Task<T>,
    space: &mut TaskSpace<T>,
) -> (r: Result<Finished<T>, RslabError>)
    requires
        job.wf(),
        task_fits(*job, task),
        old(space).idle(job.sym.n as int, job.sn().len() as int),
    ensures
        final(space).idle(job.sym.n as int, job.sn().len() as int),
        r matches Ok(f) ==> f.s == task.s && f.inputs@ == task.inputs@ && task_made(
            *job,
            *kernel,
            task.s as int,
            task.inputs@,
            f.node,
            f.block,
        ),
        r matches Ok(f) ==> (f.block matches Some(b) ==> contrib_ok(
            job.sn(),
            job.sym.n as int,
            task.s as int,
            b,
        )),
        r matches Err(e) ==> task_refused(*job, *kernel, task.s as int, task.inputs@, e),
{
    let ghost given = task.inputs@;
    let s: usize = task.s;
    let ghost sn = job.sn();
    let ghost kids = sn[s as int].children@;
    let ghost len = sn.len() as int;
    let mut inputs = task.inputs;
    let mut k: usize = inputs.len();
    proof {
        assert(below(sn[s as int].children@, s as int));
        assert(distinct(sn[s as int].children@));
    }
    while k > 0
        invariant
            k <= given.len(),
            given.len() == kids.len(),
            s < sn.len(),
            sn == job.sn(),
            kids == sn[s as int].children@,
            len == sn.len(),
            below(kids, s as int),
            distinct(kids),
            inputs@ == given.take(k as int),
            unmapped(space.map@, job.sym.n as int),
            space.local@.len() == len,
            forall|q: int|
                k <= q < kids.len() ==> space.local@[#[trigger] kids[q] as int] == given[q],
            forall|c: int|
                0 <= c < len && !occurs(kids, c) ==> #[trigger] space.local@[c] is None,
        decreases k,
    {
        k = k - 1;
        let ghost l0 = space.local@;
        if let Some(b) = inputs.pop() {
            let c: usize = job.sym.supernodes[s].children[k];
            assert(kids[k as int] < s);
            space.local.set(c, b);
            proof {
                assert(inputs@ =~= given.take(k as int));
                assert(occurs(kids, c as int));
                assert forall|q: int| k <= q < kids.len() implies space.local@[#[trigger] kids[q] as int]
                    == given[q] by {
                    if q > k {
                        assert(kids[k as int] != kids[q]);
                        assert(kids[q] < s);
                    }
                }
            }
        }
    }
    let ghost st = space.local@;
    proof {
        assert(staged(kids, st, given));
        assert forall|q: int| 0 <= q < kids.len() implies (st[#[trigger] kids[q] as int] matches Some(b)
            ==> contrib_ok(sn, job.sym.n as int, kids[q] as int, b)) by {
            assert(given[q] == st[kids[q] as int]);
        }
        assert(!occurs(kids, s as int)) by {
            if occurs(kids, s as int) {
                assert(kids[position(kids, s as int)] == s);
            }
        }
    }
    let made = factor_one_supernode(job, kernel, s, task.root, &mut space.map, &mut space.local, 0);
    let ghost after = space.local@;
    let block = take_at(&mut space.local, s);
    assert forall|q: int| 0 <= q < kids.len() implies #[trigger] kids[q] < space.local@.len() by {
        assert(kids[q] < s);
    }
    clear_children(&job.sym.supernodes[s].children, &mut space.local);
    proof {
        assert forall|c: int| 0 <= c < len implies #[trigger] space.local@[c] is None by {
            if c != s && !occurs(kids, c) {
                assert(after[c] == st[c]);
            }
        }
    }
    match made {
        Ok(node) => {
            proof {
                assert(block == after[s as int]);
                assert(staged(kids, st, given) && node_made(
                    *job,
                    *kernel,
                    s as int,
                    st,
                    0,
                    node,
                    block,
                ));
            }
            Ok(Finished { s, node, block, inputs: Ghost(given) })
        },
        Err(e) => {
            assert(staged(kids, st, given) && node_refused(*job, *kernel, s as int, st, 0, e));
            Err(e)
        },
    }
}

/// The state of a factorization that workers share.
pub struct TaskRun<T: Scalar> {
    pub graph: TaskGraph,
    pub roots: Vec<bool>,
    /// What was handed over and not yet taken by a parent.
    pub store: Vec<Option<ContribBlock<T>>>,
    pub out: Vec<Option<NodeFactors<T>>>,
    /// Everything that was handed over.
    pub handed: Ghost<Seq<Option<ContribBlock<T>>>>,
}

impl<T: Scalar> TaskRun<T> {
    /// What supernode `c` handed over is still there.
    pub open spec fn kept(&self, job: FrontJob<T>, c: int) -> bool {
        self.graph.done@[c] && (parent_of(job.sn(), c) matches Some(p) ==> !self.graph.taken@[p])
    }

    /// The books are right: every done supernode has its node, and what it
    /// handed over is kept until its parent is taken.
    pub open spec fn books(&self, job: FrontJob<T>) -> bool {
        let sn = job.sn();
        let len = sn.len() as int;
        &&& self.graph.wf(sn)
        &&& self.roots@.len() == len
        &&& forall|c: int| 0 <= c < len ==> #[trigger] self.roots@[c] == is_root(sn, c)
        &&& self.store@.len() == len
        &&& self.out@.len() == len
        &&& self.handed@.len() == len
        &&& forall|c: int| 0 <= c < len ==> (#[trigger] self.out@[c] is Some <==> self.graph.done@[c])
        &&& forall|c: int| 0 <= c < len && self.kept(job, c) ==> #[trigger] self.store@[c]
            == self.handed@[c]
        &&& forall|c: int|
            0 <= c < len && self.graph.done@[c] ==> (#[trigger] self.handed@[c] matches Some(b)
                ==> contrib_ok(sn, job.sym.n as int, c, b))
    }

    /// Every node that is there was made from what its children handed over.
    pub open spec fn made<K: FrontKernel<T>>(&self, job: FrontJob<T>, kernel: K) -> bool {
        forall|i: int|
            0 <= i < job.sn().len() && (#[trigger] self.out@[i]) is Some ==> node_done(
                job,
                kernel,
                false,
                i,
                self.handed@,
                0,
                self.out@[i]->0,
            )
    }

    /// Supernode `s` was given out with these contributions and is not back.
    pub open spec fn gave(&self, job: FrontJob<T>, s: int, inputs: Seq<Option<ContribBlock<T>>>) -> bool {
        &&& 0 <= s < job.sn().len()
        &&& self.graph.runs(s)
        &&& inputs.len() == job.sn()[s].children@.len()
        &&& staged(job.sn()[s].children@, self.handed@, inputs)
    }

    /// Nothing is done yet.
    pub fn start(job: &FrontJob<T>) -> (r: Self)
        requires
            job.wf(),
        ensures
            r.books(*job),
            forall|s: int| 0 <= s < job.sn().len() ==> !#[trigger] r.graph.done@[s],
            forall|s: int| 0 <= s < job.sn().len() ==> !#[trigger] r.graph.taken@[s],
    {
        let len: usize = job.sym.supernodes.len();
        let roots = root_flags(job.sym.supernodes.as_slice());
        let graph = TaskGraph::new(job.sym.supernodes.as_slice());
        let mut store: Vec<Option<ContribBlock<T>>> = Vec::new();
        let mut out: Vec<Option<NodeFactors<T>>> = Vec::new();
        let mut k: usize = 0;
        while k < len
            invariant
                k <= len,
                store@.len() == k,
                out@.len() == k,
                forall|c: int| 0 <= c < k ==> #[trigger] out@[c] is None,
            decreases len - k,
        {
            store.push(None);
            out.push(None);
            k = k + 1;
        }
        TaskRun { graph, roots, store, out, handed: Ghost(store@) }
    }

    /// Take a ready supernode and what its children handed over.
    pub fn next(&mut self, job: &FrontJob<T>) -> (r: Option<Task<T>>)
        requires
            job.wf(),
            old(self).books(*job),
        ensures
            final(self).books(*job),
            final(self).out == old(self).out,
            final(self).handed == old(self).handed,
            final(self).graph.done@ == old(self).graph.done@,
            r is None <==> old(self).graph.ready@.len() == 0,
            r is None ==> final(self).graph.taken@ == old(self).graph.taken@
                && final(self).graph.ready@.len() == 0,
            r matches Some(t) ==> task_fits(*job, t) && final(self).gave(*job, t.s as int, t.inputs@)
                && !old(self).graph.taken@[t.s as int] && final(self).graph.taken@
                == old(self).graph.taken@.update(t.s as int, true),
            forall|s: int, inputs: Seq<Option<ContribBlock<T>>>| #[trigger]
                old(self).gave(*job, s, inputs) ==> final(self).gave(*job, s, inputs),
    {
        let ghost sn = job.sn();
        let ghost g0 = self.graph;
        let ghost st0 = self.store@;
        let ghost hs = self.handed@;
        let ghost before = *self;
        let s: usize = match self.graph.take(job.sym.supernodes.as_slice()) {
            Some(s) => s,
            None => {
                return None;
            },
        };
        let ghost g1 = self.graph;
        let ghost kids = sn[s as int].children@;
        let ghost len = sn.len() as int;
        proof {
            assert(below(sn[s as int].children@, s as int));
            assert(distinct(sn[s as int].children@));
            open_kids_range(kids, g0.done@, kids.len() as int);
            assert(g0.pending@[s as int] == open_kids(kids, g0.done@, kids.len() as int));
            assert forall|q: int| 0 <= q < kids.len() implies st0[#[trigger] kids[q] as int]
                == hs[kids[q] as int] by {
                let c = kids[q] as int;
                assert(g0.done@[kids[q] as int]);
                assert(occurs(kids, c));
                parent_is(sn, c, s as int, sn.len() as int);
                assert(before.kept(*job, c));
            }
        }
        let count: usize = job.sym.supernodes[s].children.len();
        let mut inputs: Vec<Option<ContribBlock<T>>> = Vec::new();
        let mut q: usize = 0;
        while q < count
            invariant
                q <= count,
                count == kids.len(),
                s < sn.len(),
                sn == job.sn(),
                kids == sn[s as int].children@,
                below(kids, s as int),
                distinct(kids),
                len == sn.len(),
                self.store@.len() == len,
                self.graph == g1,
                self.out == old(self).out,
                self.handed == old(self).handed,
                self.roots == old(self).roots,
                st0.len() == len,
                forall|c: int| 0 <= c < len && !occurs(kids, c) ==> #[trigger] self.store@[c] == st0[c],
                forall|x: int|
                    q <= x < kids.len() ==> self.store@[#[trigger] kids[x] as int]
                        == st0[kids[x] as int],
                inputs@.len() == q,
                forall|x: int| 0 <= x < q ==> #[trigger] inputs@[x] == st0[kids[x] as int],
            decreases count - q,
        {
            let c: usize = job.sym.supernodes[s].children[q];
            assert(kids[q as int] < s);
            assert(occurs(kids, c as int));
            let ghost w0 = self.store@;
            let b = take_at(&mut self.store, c);
            inputs.push(b);
            proof {
                assert forall|x: int| q + 1 <= x < kids.len() implies self.store@[#[trigger] kids[x] as int]
                    == st0[kids[x] as int] by {
                    assert(kids[q as int] != kids[x]);
                    assert(kids[x] < s);
                }
            }
            q = q + 1;
        }
        proof {
            assert forall|c: int| 0 <= c < len && self.kept(*job, c) implies #[trigger] self.store@[c]
                == self.handed@[c] by {
                if occurs(kids, c) {
                    parent_is(sn, c, s as int, sn.len() as int);
                }
                assert(before.kept(*job, c)) by {
                    if let Some(p) = parent_of(sn, c) {
                        own_parent_later(sn, c);
                        assert(!self.graph.taken@[p]);
                    }
                }
            }
            assert forall|x: int| 0 <= x < kids.len() implies (#[trigger] inputs@[x] matches Some(b)
                ==> contrib_ok(sn, job.sym.n as int, kids[x] as int, b)) by {
                assert(g0.done@[kids[x] as int]);
                assert(st0[kids[x] as int] == hs[kids[x] as int]);
            }
            assert(staged(kids, hs, inputs@));
        }
        Some(Task { s, root: self.roots[s], inputs })
    }

    /// Put a factored supernode in its place; what it hands over waits for its
    /// parent.
    pub fn finish(&mut self, job: &FrontJob<T>, f: Finished<T>)
        requires
            job.wf(),
            old(self).books(*job),
            old(self).gave(*job, f.s as int, f.inputs@),
            f.block matches Some(b) ==> contrib_ok(job.sn(), job.sym.n as int, f.s as int, b),
        ensures
            final(self).books(*job),
            final(self).out@ == old(self).out@.update(f.s as int, Some(f.node)),
            final(self).handed@ == old(self).handed@.update(f.s as int, f.block),
            final(self).graph.done@ == old(self).graph.done@.update(f.s as int, true),
            final(self).graph.taken@ == old(self).graph.taken@,
            forall|s: int, inputs: Seq<Option<ContribBlock<T>>>|
                s != f.s && #[trigger] old(self).gave(*job, s, inputs) ==> final(self).gave(
                    *job,
                    s,
                    inputs,
                ),
    {
        let ghost sn = job.sn();
        let ghost before = *self;
        let s: usize = f.s;
        self.graph.complete(s, job.sym.supernodes.as_slice());
        self.out.set(s, Some(f.node));
        let ghost block = f.block;
        self.store.set(s, f.block);
        self.handed = Ghost(self.handed@.update(s as int, block));
        proof {
            let len = sn.len() as int;
            assert forall|c: int| 0 <= c < len && self.kept(*job, c) implies #[trigger] self.store@[c]
                == self.handed@[c] by {
                if c != s {
                    assert(before.kept(*job, c));
                }
            }
            assert forall|c: int| 0 <= c < len implies (#[trigger] self.out@[c] is Some
                <==> self.graph.done@[c]) by {
                if c != s {
                    assert(self.out@[c] == before.out@[c]);
                }
            }
            assert forall|c: int| 0 <= c < len && self.graph.done@[c] implies (
            #[trigger] self.handed@[c] matches Some(b) ==> contrib_ok(sn, job.sym.n as int, c, b)) by {
                if c != s {
                    assert(self.handed@[c] == before.handed@[c]);
                    assert(before.graph.done@[c]);
                }
            }
            assert forall|t: int, inputs: Seq<Option<ContribBlock<T>>>|
                t != s && #[trigger] before.gave(*job, t, inputs) implies self.gave(*job, t, inputs) by {
                let kids = sn[t].children@;
                kids_are_done(*job, before, t);
                assert forall|q: int| 0 <= q < kids.len() implies self.handed@[#[trigger] kids[q] as int]
                    == inputs[q] by {
                    assert(before.graph.done@[kids[q] as int]);
                    assert(before.handed@[kids[q] as int] == inputs[q]);
                }
            }
        }
    }
}

/// The children of a taken supernode are done.
proof fn kids_are_done<T: Scalar>(job: FrontJob<T>, run: TaskRun<T>, s: int)
    requires
        run.books(job),
        0 <= s < job.sn().len(),
        run.graph.taken@[s],
    ensures
        forall|q: int|
            0 <= q < job.sn()[s].children@.len() ==> run.graph.done@[#[trigger] job.sn()[s].children@[q] as int],
{
    let kids = job.sn()[s].children@;
    assert(run.graph.pending@[s] == 0);
    open_kids_range(kids, run.graph.done@, kids.len() as int);
}

/// A finished task keeps what was made, whichever tasks run beside it.
pub proof fn finishing_keeps_nodes<T: Scalar, K: FrontKernel<T>>(
    job: FrontJob<T>,
    kernel: K,
    before: TaskRun<T>,
    after: TaskRun<T>,
    f: Finished<T>,
)
    requires
        before.books(job),
        before.made(job, kernel),
        before.gave(job, f.s as int, f.inputs@),
        task_made(job, kernel, f.s as int, f.inputs@, f.node, f.block),
        after.out@ == before.out@.update(f.s as int, Some(f.node)),
        after.handed@ == before.handed@.update(f.s as int, f.block),
    ensures
        after.made(job, kernel),
{
    let sn = job.sn();
    let s = f.s as int;
    let x = before.handed@;
    let y = after.handed@;
    assert forall|i: int| 0 <= i < sn.len() && (#[trigger] after.out@[i]) is Some implies node_done(
        job,
        kernel,
        false,
        i,
        y,
        0,
        after.out@[i]->0,
    ) by {
        let kids = sn[i].children@;
        if i != s {
            assert(after.out@[i] == before.out@[i]);
            assert(before.graph.done@[i]);
            kids_are_done(job, before, i);
            assert forall|q: int| 0 <= q < kids.len() implies x[#[trigger] kids[q] as int]
                == y[kids[q] as int] by {
                assert(before.graph.done@[kids[q] as int]);
            }
            made_agree(job, kernel, i, x, y, 0, after.out@[i]->0, x[i]);
        } else {
            let st = choose|st: Seq<Option<ContribBlock<T>>>| #[trigger]
                staged(kids, st, f.inputs@) && node_made(job, kernel, s, st, 0, f.node, f.block);
            kids_are_done(job, before, s);
            assert forall|q: int| 0 <= q < kids.len() implies st[#[trigger] kids[q] as int]
                == y[kids[q] as int] by {
                assert(before.graph.done@[kids[q] as int]);
                assert(x[kids[q] as int] == f.inputs@[q]);
            }
            made_agree(job, kernel, s, st, y, 0, f.node, f.block);
        }
    }
}

/// Below a taken supernode everything is done.
proof fn below_is_done<T: Scalar>(job: FrontJob<T>, run: TaskRun<T>, c: int, s: int)
    requires
        job.wf(),
        run.books(job),
        0 <= s < job.sn().len(),
        run.graph.taken@[s],
        comes_before(job.sn(), false, c, s),
    ensures
        run.graph.done@[c],
    decreases s - c,
{
    let sn = job.sn();
    let p = parent_of(sn, c)->0 as int;
    assert(descends(sn, p, s));
    descends_up(sn, p, s);
    if p != s {
        below_is_done(job, run, p, s);
    }
    assert(run.graph.taken@[p]);
    kids_are_done(job, run, p);
    parent_lists(sn, c, sn.len() as int);
    let kids = sn[p].children@;
    assert(kids[position(kids, c)] == c);
}

/// A task that cannot be done breaks the run off, whichever tasks run beside it:
/// everything below it was made.
pub proof fn refused_task_breaks<T: Scalar, K: FrontKernel<T>>(
    job: FrontJob<T>,
    kernel: K,
    run: TaskRun<T>,
    s: int,
    inputs: Seq<Option<ContribBlock<T>>>,
    e: RslabError,
)
    requires
        job.wf(),
        run.books(job),
        run.made(job, kernel),
        run.gave(job, s, inputs),
        task_refused(job, kernel, s, inputs, e),
    ensures
        exists|nodes: Seq<NodeFactors<T>>, cs: Seq<Option<ContribBlock<T>>>, t: int| #[trigger]
            tree_refused(
                job,
                kernel,
                false,
                false,
                no_tails(job.sn().len() as int),
                nodes,
                cs,
                t,
                e,
            ),
{
    let sn = job.sn();
    let len = sn.len() as int;
    let kids = sn[s].children@;
    let cs = run.handed@;
    let nodes = Seq::new(sn.len(), |c: int| run.out@[c]->0);
    let st = choose|st: Seq<Option<ContribBlock<T>>>| #[trigger]
        staged(kids, st, inputs) && node_refused(job, kernel, s, st, 0, e);
    assert(agree(kids, st, cs)) by {
        assert forall|q: int| 0 <= q < kids.len() implies st[#[trigger] kids[q] as int]
            == cs[kids[q] as int] by {
            assert(cs[kids[q] as int] == inputs[q]);
        }
    }
    refused_agree(job, kernel, s, st, cs, 0, e);
    assert forall|c: int| comes_before(sn, false, c, s) implies node_done(
        job,
        kernel,
        false,
        c,
        cs,
        no_tails(len)[c] as int,
        #[trigger] nodes[c],
    ) by {
        below_is_done(job, run, c, s);
        assert(run.out@[c] is Some);
    }
    assert(tree_refused(job, kernel, false, false, no_tails(len), nodes, cs, s, e));
}

/// Run the tasks one after the other. The factors are those of the ordered
/// sweep.
pub fn factor_tasks<T: Scalar, K: FrontKernel<T>>(job: &FrontJob<T>, kernel: &K) -> (r: Result<
    TaskRun<T>,
    RslabError,
>)
    requires
        job.wf(),
    ensures
        r matches Ok(t) ==> t.books(*job) && t.made(*job, *kernel) && forall|s: int|
            0 <= s < job.sn().len() ==> #[trigger] t.graph.done@[s],
        r matches Err(e) ==> exists|
            nodes: Seq<NodeFactors<T>>,
            cs: Seq<Option<ContribBlock<T>>>,
            s: int,
        | #[trigger]
            tree_refused(
                *job,
                *kernel,
                false,
                false,
                no_tails(job.sn().len() as int),
                nodes,
                cs,
                s,
                e,
            ),
{
    let len: usize = job.sym.supernodes.len();
    let mut space: TaskSpace<T> = TaskSpace::new(job.sym.n, len);
    let mut run: TaskRun<T> = TaskRun::start(job);
    loop
        invariant
            job.wf(),
            len == job.sn().len(),
            space.idle(job.sym.n as int, len as int),
            run.books(*job),
            run.made(*job, *kernel),
            forall|s: int| 0 <= s < len ==> !#[trigger] run.graph.runs(s),
        ensures
            forall|s: int| 0 <= s < len ==> #[trigger] run.graph.done@[s],
        decreases open_count(run.graph.done@, len as int),
    {
        let ghost run0 = run;
        let task = match run.next(job) {
            Some(t) => t,
            None => {
                proof {
                    assert forall|s: int| 0 <= s < len implies !#[trigger] run.graph.runs(s) by {
                        assert(!run0.graph.runs(s));
                    }
                    tasks_never_stall(job.sn(), run.graph, len as int);
                }
                break;
            },
        };
        let ghost given = task.inputs@;
        let ghost s = task.s as int;
        let ghost run1 = run;
        assert(run1.made(*job, *kernel)) by {
            assert forall|i: int| 0 <= i < len && (#[trigger] run1.out@[i]) is Some implies node_done(
                *job,
                *kernel,
                false,
                i,
                run1.handed@,
                0,
                run1.out@[i]->0,
            ) by {
                assert(run0.out@[i] is Some);
            }
        }
        let f = match run_task(job, kernel, task, &mut space) {
            Ok(f) => f,
            Err(e) => {
                proof {
                    refused_task_breaks(*job, *kernel, run1, s, given, e);
                }
                return Err(e);
            },
        };
        let ghost done = f;
        run.finish(job, f);
        proof {
            finishing_keeps_nodes(*job, *kernel, run1, run, done);
            open_count_drops(run1.graph.done@, s, len as int);
            assert forall|t: int| 0 <= t < len implies !#[trigger] run.graph.runs(t) by {
                assert(!run0.graph.runs(t));
            }
        }
    }
    Ok(run)
}

} // verus!
