//! Factoring the assembly tree as a graph of tasks: a supernode is ready when
//! all its children are done, and the ready ones may run in any order.

use crate::multifrontal::model::{children_ok, parent_is};
use crate::multifrontal::order::{own_parent_later, parent_lists};
use crate::multifrontal::tree::{
    is_leaf, leaf_list, number, parent_of, parent_table, pending_counts, pending_upto, Supernode,
};
use crate::seqs::{below, distinct, occurs};
use crate::sparse::position;
use vstd::prelude::*;

verus! {

/// How many of the first `k` children are not done.
pub open spec fn open_kids(kids: Seq<usize>, done: Seq<bool>, k: int) -> int
    decreases k,
{
    if k <= 0 {
        0
    } else {
        open_kids(kids, done, k - 1) + (if done[kids[k - 1] as int] {
            0int
        } else {
            1int
        })
    }
}

/// How many of the first `k` supernodes are not done.
pub open spec fn open_count(done: Seq<bool>, k: int) -> int
    decreases k,
{
    if k <= 0 {
        0
    } else {
        open_count(done, k - 1) + (if done[k - 1] {
            0int
        } else {
            1int
        })
    }
}

pub proof fn open_count_drops(done: Seq<bool>, s: int, k: int)
    requires
        0 <= s < done.len(),
        !done[s],
        0 <= k <= done.len(),
    ensures
        open_count(done.update(s, true), k) == open_count(done, k) - (if s < k {
            1int
        } else {
            0int
        }),
        0 <= open_count(done.update(s, true), k),
    decreases k,
{
    if k > 0 {
        open_count_drops(done, s, k - 1);
    }
}

pub proof fn open_kids_range(kids: Seq<usize>, done: Seq<bool>, k: int)
    requires
        0 <= k <= kids.len(),
    ensures
        0 <= open_kids(kids, done, k) <= k,
        open_kids(kids, done, k) == 0 ==> forall|q: int|
            0 <= q < k ==> done[#[trigger] kids[q] as int],
        (forall|q: int| 0 <= q < k ==> done[#[trigger] kids[q] as int]) ==> open_kids(kids, done, k)
            == 0,
    decreases k,
{
    if k > 0 {
        open_kids_range(kids, done, k - 1);
    }
}

/// One child done is one less to wait for.
proof fn open_kids_drop(kids: Seq<usize>, done: Seq<bool>, s: int, k: int)
    requires
        0 <= k <= kids.len(),
        distinct(kids),
        below(kids, done.len() as int),
        0 <= s < done.len(),
        !done[s],
    ensures
        open_kids(kids, done.update(s, true), k) == open_kids(kids, done, k) - (if occurs(
            kids.take(k),
            s,
        ) {
            1int
        } else {
            0int
        }),
    decreases k,
{
    if k > 0 {
        open_kids_drop(kids, done, s, k - 1);
        crate::sorted::grown(kids, k - 1, k);
        if kids[k - 1] == s && occurs(kids.take(k - 1), s) {
            let h = kids.take(k - 1);
            let x = position(h, s);
            assert(h[x] == s);
            assert(kids[x] != kids[k - 1]);
        }
    } else {
        assert(!occurs(kids.take(0), s));
    }
}

/// All children wait at the start.
proof fn all_open(kids: Seq<usize>, done: Seq<bool>, k: int)
    requires
        0 <= k <= kids.len(),
        below(kids, done.len() as int),
        forall|c: int| 0 <= c < done.len() ==> !#[trigger] done[c],
    ensures
        open_kids(kids, done, k) == k,
        pending_upto(kids, done.len() as int, k) == k,
    decreases k,
{
    if k > 0 {
        all_open(kids, done, k - 1);
        assert(kids[k - 1] < done.len());
    }
}

/// The progress of the tasks: who is taken, who is done, who is ready, who waits
/// for how many.
#[derive(Debug, Clone)]
pub struct TaskGraph {
    pub parents: Vec<Option<usize>>,
    pub pending: Vec<usize>,
    pub taken: Vec<bool>,
    pub done: Vec<bool>,
    pub ready: Vec<usize>,
}

impl TaskGraph {
    /// The books are right: parents, waiting counts, and the ready list without
    /// repetition.
    pub open spec fn wf(&self, sn: Seq<Supernode>) -> bool {
        &&& children_ok(sn)
        &&& self.parents@.len() == sn.len()
        &&& self.pending@.len() == sn.len()
        &&& self.taken@.len() == sn.len()
        &&& self.done@.len() == sn.len()
        &&& forall|c: int| 0 <= c < sn.len() ==> number(#[trigger] self.parents@[c]) == parent_of(sn, c)
        &&& forall|s: int|
            0 <= s < sn.len() ==> #[trigger] self.pending@[s] == open_kids(
                sn[s].children@,
                self.done@,
                sn[s].children@.len() as int,
            )
        &&& forall|s: int| 0 <= s < sn.len() && #[trigger] self.done@[s] ==> self.taken@[s]
        &&& forall|s: int|
            0 <= s < sn.len() && #[trigger] self.taken@[s] ==> self.pending@[s] == 0
        &&& distinct(self.ready@)
        &&& below(self.ready@, sn.len() as int)
        &&& forall|s: int|
            0 <= s < sn.len() ==> (#[trigger] occurs(self.ready@, s) <==> !self.taken@[s]
                && self.pending@[s] == 0)
    }

    /// Supernode `s` was taken and is not done.
    pub open spec fn runs(&self, s: int) -> bool {
        0 <= s < self.taken@.len() && self.taken@[s] && !self.done@[s]
    }

    /// All leaves are ready.
    pub fn new(supernodes: &[Supernode]) -> (g: TaskGraph)
        requires
            children_ok(supernodes@),
        ensures
            g.wf(supernodes@),
            forall|s: int| 0 <= s < supernodes@.len() ==> !#[trigger] g.taken@[s],
            forall|s: int| 0 <= s < supernodes@.len() ==> !#[trigger] g.done@[s],
    {
        let n: usize = supernodes.len();
        let ghost sn = supernodes@;
        let mut taken: Vec<bool> = Vec::new();
        let mut done: Vec<bool> = Vec::new();
        let mut k: usize = 0;
        while k < n
            invariant
                k <= n,
                taken@.len() == k,
                done@.len() == k,
                forall|c: int| 0 <= c < k ==> !#[trigger] taken@[c],
                forall|c: int| 0 <= c < k ==> !#[trigger] done@[c],
            decreases n - k,
        {
            taken.push(false);
            done.push(false);
            k = k + 1;
        }
        let parents = parent_table(supernodes);
        let pending = pending_counts(supernodes);
        let ready = leaf_list(supernodes);
        let g = TaskGraph { parents, pending, taken, done, ready };
        proof {
            assert forall|s: int| 0 <= s < n implies #[trigger] g.pending@[s] == open_kids(
                sn[s].children@,
                g.done@,
                sn[s].children@.len() as int,
            ) by {
                assert(below(sn[s].children@, s));
                all_open(sn[s].children@, g.done@, sn[s].children@.len() as int);
            }
            crate::seqs::ascending_is_distinct(g.ready@);
            assert forall|s: int| 0 <= s < n implies (#[trigger] occurs(g.ready@, s) <==> !g.taken@[s]
                && g.pending@[s] == 0) by {
                let kids = sn[s].children@;
                assert(below(sn[s].children@, s));
                all_open(kids, g.done@, kids.len() as int);
                assert(is_leaf(sn, s) <==> kids.len() == 0) by {
                    if kids.len() > 0 {
                        assert(sn[s].children@[0] < s);
                    }
                }
            }
        }
        g
    }

    /// Take a ready supernode, if there is one.
    pub fn take(&mut self, supernodes: &[Supernode]) -> (r: Option<usize>)
        requires
            old(self).wf(supernodes@),
        ensures
            final(self).wf(supernodes@),
            final(self).done@ == old(self).done@,
            r is None <==> old(self).ready@.len() == 0,
            match r {
                Some(s) => s < supernodes@.len() && !old(self).taken@[s as int]
                    && old(self).pending@[s as int] == 0 && final(self).taken@
                    == old(self).taken@.update(s as int, true),
                None => final(self).taken@ == old(self).taken@ && final(self).ready@.len() == 0,
            },
    {
        let ghost sn = supernodes@;
        let ghost r0 = self.ready@;
        let ghost t0 = self.taken@;
        match self.ready.pop() {
            Some(s) => {
                let ghost r1 = self.ready@;
                proof {
                    assert(r0[r0.len() - 1] == s);
                    assert(occurs(r0, s as int));
                    assert(r1.push(s) =~= r0);
                    assert forall|q: int| #[trigger] occurs(r1, q) <==> occurs(r0, q) && q != s by {
                        if occurs(r1, q) {
                            let x = position(r1, q);
                            assert(r0[x] == q);
                            assert(r0[x] != r0[r1.len() as int]);
                        }
                        if occurs(r0, q) && q != s {
                            let x = position(r0, q);
                            assert(r0[x] == q);
                            assert(r1[x] == q);
                        }
                    }
                    assert forall|x: int, y: int| 0 <= x < y < r1.len() implies #[trigger] r1[x]
                        != #[trigger] r1[y] by {
                        assert(r0[x] != r0[y]);
                    }
                    assert forall|x: int| 0 <= x < r1.len() implies #[trigger] r1[x] < sn.len() by {
                        assert(r0[x] < sn.len());
                    }
                }
                self.taken.set(s, true);
                proof {
                    assert(self.taken@ =~= t0.update(s as int, true));
                    assert forall|q: int| 0 <= q < sn.len() implies (#[trigger] occurs(self.ready@, q)
                        <==> !self.taken@[q] && self.pending@[q] == 0) by {
                        assert(occurs(r0, q) <==> !t0[q] && self.pending@[q] == 0);
                    }
                }
                Some(s)
            },
            None => None,
        }
    }

    /// Supernode `s` is done: its parent waits for one less, and is ready when
    /// that was the last.
    pub fn complete(&mut self, s: usize, supernodes: &[Supernode])
        requires
            old(self).wf(supernodes@),
            old(self).runs(s as int),
        ensures
            final(self).wf(supernodes@),
            final(self).done@ == old(self).done@.update(s as int, true),
            final(self).taken@ == old(self).taken@,
    {
        let ghost sn = supernodes@;
        let ghost d0 = self.done@;
        let ghost p0 = self.pending@;
        let ghost r0 = self.ready@;
        self.done.set(s, true);
        let ghost d1 = self.done@;
        proof {
            assert(d1 =~= d0.update(s as int, true));
            assert forall|t: int| 0 <= t < sn.len() implies open_kids(
                sn[t].children@,
                d1,
                sn[t].children@.len() as int,
            ) == p0[t] - (if #[trigger] occurs(sn[t].children@, s as int) {
                1int
            } else {
                0int
            }) by {
                let kids = sn[t].children@;
                assert(below(sn[t].children@, t));
                assert(distinct(sn[t].children@));
                assert forall|q: int| 0 <= q < kids.len() implies #[trigger] kids[q] < d0.len() by {
                    assert(kids[q] < t);
                }
                open_kids_drop(kids, d0, s as int, kids.len() as int);
                assert(kids.take(kids.len() as int) =~= kids);
                assert(p0[t] == open_kids(kids, d0, kids.len() as int));
            }
        }
        if let Some(p) = self.parents[s] {
            proof {
                assert(number(self.parents@[s as int]) == parent_of(sn, s as int));
                parent_lists(sn, s as int, sn.len() as int);
                own_parent_later(sn, s as int);
                let kids = sn[p as int].children@;
                assert(occurs(kids, s as int));
                open_kids_range(kids, d1, kids.len() as int);
                assert forall|t: int| 0 <= t < sn.len() && t != p implies !#[trigger] occurs(
                    sn[t].children@,
                    s as int,
                ) by {}
                assert(!self.taken@[p as int]) by {
                    if self.taken@[p as int] {
                        assert(p0[p as int] == 0);
                    }
                }
            }
            let left: usize = self.pending[p] - 1;
            self.pending.set(p, left);
            if left == 0 {
                self.ready.push(p);
                proof {
                    let r1 = self.ready@;
                    assert(!occurs(r0, p as int)) by {
                        assert(occurs(r0, p as int) ==> p0[p as int] == 0);
                    }
                    assert forall|x: int, y: int| 0 <= x < y < r1.len() implies #[trigger] r1[x]
                        != #[trigger] r1[y] by {
                        if y < r0.len() {
                            assert(r0[x] != r0[y]);
                        } else {
                            assert(occurs(r0, r0[x] as int));
                        }
                    }
                    assert forall|q: int| #[trigger] occurs(r1, q) <==> occurs(r0, q) || q == p by {
                        if occurs(r0, q) {
                            assert(r1[position(r0, q)] == q);
                        }
                        if q == p {
                            assert(r1[r0.len() as int] == q);
                        }
                        if occurs(r1, q) {
                            let x = position(r1, q);
                            if x < r0.len() {
                                assert(r0[x] == q);
                            }
                        }
                    }
                }
            }
            proof {
                assert forall|t: int| 0 <= t < sn.len() implies #[trigger] self.pending@[t] == open_kids(
                    sn[t].children@,
                    d1,
                    sn[t].children@.len() as int,
                ) by {
                    assert(occurs(sn[t].children@, s as int) <==> t == p);
                }
                assert forall|t: int| 0 <= t < sn.len() implies (#[trigger] occurs(self.ready@, t)
                    <==> !self.taken@[t] && self.pending@[t] == 0) by {
                    assert(occurs(r0, t) <==> !self.taken@[t] && p0[t] == 0);
                }
            }
        } else {
            proof {
                assert(number(self.parents@[s as int]) == parent_of(sn, s as int));
                assert forall|t: int| 0 <= t < sn.len() implies #[trigger] self.pending@[t] == open_kids(
                    sn[t].children@,
                    d1,
                    sn[t].children@.len() as int,
                ) by {
                    if occurs(sn[t].children@, s as int) {
                        parent_is(sn, s as int, t, sn.len() as int);
                    }
                }
            }
        }
    }
}

/// When nobody is ready and nobody runs, everybody is done: the tasks never
/// stall.
pub proof fn tasks_never_stall(sn: Seq<Supernode>, g: TaskGraph, s: int)
    requires
        g.wf(sn),
        g.ready@.len() == 0,
        forall|t: int| 0 <= t < sn.len() ==> !#[trigger] g.runs(t),
        0 <= s <= sn.len(),
    ensures
        forall|t: int| 0 <= t < s ==> #[trigger] g.done@[t],
    decreases s,
{
    if s > 0 {
        tasks_never_stall(sn, g, s - 1);
        let t = s - 1;
        let kids = sn[t].children@;
        assert(below(sn[t].children@, t));
        assert(!g.runs(t));
        if !g.done@[t] {
            open_kids_range(kids, g.done@, kids.len() as int);
            assert forall|q: int| 0 <= q < kids.len() implies g.done@[#[trigger] kids[q] as int] by {
                assert(kids[q] < t);
            }
            assert(g.pending@[t] == 0);
            assert(occurs(g.ready@, t));
        }
    }
}

} // verus!
