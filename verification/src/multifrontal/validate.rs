//! Checking that a symbolic analysis fits together.

use crate::error::RslabError;
use crate::multifrontal::model::{children_ok, last_col, runs_ok};
use crate::multifrontal::permute_laws::{permutes, permutes_both_ways};
use crate::multifrontal::tree::{child_upto, CscPattern, Supernode, SymbolicFactorization};
use crate::seqs::{below, distinct, nondecreasing, occurs};
use crate::sparse::{pointers_ok, position};
use vstd::prelude::*;

verus! {

/// Every place of `p` leads into `q` and back.
spec fn leads_back(p: Seq<usize>, q: Seq<usize>, k: int) -> bool {
    forall|i: int| 0 <= i < k ==> #[trigger] p[i] < q.len() && q[p[i] as int] == i
}

fn undone_by(p: &Vec<usize>, q: &Vec<usize>) -> (r: bool)
    ensures
        r == leads_back(p@, q@, p@.len() as int),
{
    let mut k: usize = 0;
    while k < p.len()
        invariant
            k <= p@.len(),
            leads_back(p@, q@, k as int),
        decreases p@.len() - k,
    {
        let i: usize = p[k];
        if i >= q.len() || q[i] != k {
            assert(!(p@[k as int] < q@.len() && q@[p@[k as int] as int] == k));
            return false;
        }
        k = k + 1;
    }
    true
}

/// What leads back holds no index twice.
proof fn led_back_is_distinct(p: Seq<usize>, q: Seq<usize>)
    requires
        leads_back(p, q, p.len() as int),
    ensures
        distinct(p),
{
    assert forall|x: int, y: int| 0 <= x < y < p.len() implies #[trigger] p[x] != #[trigger] p[y] by {
        if p[x] == p[y] {
            assert(q[p[x] as int] == x);
            assert(q[p[y] as int] == y);
        }
    }
}

/// Both permutations, each undoing the other.
fn permutations_fit(n: usize, perm: &Vec<usize>, pinv: &Vec<usize>) -> (r: bool)
    ensures
        r == permutes(perm@, pinv@, n as int),
{
    if perm.len() != n || pinv.len() != n {
        return false;
    }
    let there = undone_by(perm, pinv);
    let back = undone_by(pinv, perm);
    proof {
        if there && back {
            led_back_is_distinct(perm@, pinv@);
            led_back_is_distinct(pinv@, perm@);
        }
        if permutes(perm@, pinv@, n as int) {
            permutes_both_ways(perm@, pinv@, n as int);
            assert(leads_back(perm@, pinv@, n as int));
            assert(leads_back(pinv@, perm@, n as int));
        }
    }
    there && back
}

/// The supernodes are consecutive runs.
fn runs_fit(sn: &Vec<Supernode>, n: usize) -> (r: bool)
    ensures
        r == runs_ok(sn@, n as int),
{
    let len: usize = sn.len();
    if len == 0 {
        return n == 0;
    }
    if sn[0].first_col != 0 {
        return false;
    }
    let mut s: usize = 0;
    while s < len
        invariant
            s <= len,
            len == sn@.len(),
            len > 0,
            forall|t: int|
                0 <= t < s && t < len - 1 ==> last_col(sn@, t) == (#[trigger] sn@[t + 1]).first_col,
            s == len ==> last_col(sn@, len - 1) == n,
        decreases len - s,
    {
        let to: usize = if s + 1 < len {
            sn[s + 1].first_col
        } else {
            n
        };
        let fits = match sn[s].first_col.checked_add(sn[s].ncol) {
            Some(end) => end == to,
            None => false,
        };
        if !fits {
            proof {
                if s + 1 < len {
                    assert(last_col(sn@, s as int) != sn@[s + 1].first_col);
                }
            }
            return false;
        }
        s = s + 1;
    }
    true
}

/// No child of the first `s` supernodes is wrong.
spec fn children_fit(sn: Seq<Supernode>, s: int) -> bool {
    &&& forall|t: int| 0 <= t < s ==> below((#[trigger] sn[t]).children@, t)
    &&& forall|t: int| 0 <= t < s ==> distinct((#[trigger] sn[t]).children@)
    &&& forall|t: int, u: int, c: int|
        #![trigger occurs(sn[t].children@, c), occurs(sn[u].children@, c)]
        0 <= t < s && 0 <= u < s && occurs(sn[t].children@, c) && occurs(sn[u].children@, c) ==> t
            == u
}

/// Children come first, and nobody has two parents.
fn children_come_first(sn: &Vec<Supernode>) -> (r: bool)
    ensures
        r == children_ok(sn@),
{
    let len: usize = sn.len();
    let mut owned: Vec<bool> = Vec::new();
    let mut k: usize = 0;
    while k < len
        invariant
            k <= len,
            owned@.len() == k,
            forall|c: int| 0 <= c < k ==> !#[trigger] owned@[c],
        decreases len - k,
    {
        owned.push(false);
        k = k + 1;
    }
    let mut s: usize = 0;
    while s < len
        invariant
            s <= len,
            len == sn@.len(),
            owned@.len() == len,
            children_fit(sn@, s as int),
            forall|c: int| 0 <= c < len ==> (#[trigger] owned@[c] <==> child_upto(sn@, c, s as int)),
        decreases len - s,
    {
        let kids = &sn[s].children;
        let ghost was = owned@;
        let mut q: usize = 0;
        while q < kids.len()
            invariant
                q <= kids@.len(),
                s < len,
                len == sn@.len(),
                kids@ == sn@[s as int].children@,
                owned@.len() == len,
                was.len() == len,
                forall|c: int| 0 <= c < len ==> (#[trigger] was[c] <==> child_upto(sn@, c, s as int)),
                forall|c: int|
                    0 <= c < len ==> (#[trigger] owned@[c] <==> was[c] || occurs(
                        kids@.take(q as int),
                        c,
                    )),
                forall|x: int| 0 <= x < q ==> #[trigger] kids@[x] < s,
                forall|x: int| 0 <= x < q ==> !was[#[trigger] kids@[x] as int],
                distinct(kids@.take(q as int)),
            decreases kids@.len() - q,
        {
            let c: usize = kids[q];
            let ghost done = kids@.take(q as int);
            if c >= s {
                assert(!below(sn@[s as int].children@, s as int)) by {
                    assert(kids@[q as int] >= s);
                }
                return false;
            }
            if owned[c] {
                proof {
                    assert(occurs(kids@, c as int)) by {
                        assert(kids@[q as int] == c);
                    }
                    if was[c as int] {
                        let t = choose|t: int|
                            0 <= t < s && occurs((#[trigger] sn@[t]).children@, c as int);
                        assert(occurs(sn@[t].children@, c as int));
                        assert(occurs(sn@[s as int].children@, c as int));
                    } else {
                        let x = position(done, c as int);
                        assert(done[x] == c);
                        assert(kids@[x] == kids@[q as int]);
                        assert(!distinct(sn@[s as int].children@));
                    }
                }
                return false;
            }
            let ghost o0 = owned@;
            owned.set(c, true);
            proof {
                let next = kids@.take(q + 1);
                assert forall|d: int| 0 <= d < len implies (#[trigger] owned@[d] <==> was[d] || occurs(
                    next,
                    d,
                )) by {
                    if d == c {
                        assert(next[q as int] == d);
                    } else {
                        assert(owned@[d] == o0[d]);
                        if occurs(done, d) {
                            assert(next[position(done, d)] == d);
                        }
                        if occurs(next, d) {
                            assert(done[position(next, d)] == d);
                        }
                    }
                }
                assert forall|x: int, y: int| 0 <= x < y < next.len() implies #[trigger] next[x]
                    != #[trigger] next[y] by {
                    assert(next[x] == done[x]);
                    if y < q {
                        assert(next[y] == done[y]);
                    } else if next[x] == c {
                        assert(occurs(done, c as int));
                    }
                }
            }
            q = q + 1;
        }
        proof {
            let all = sn@[s as int].children@;
            assert(kids@.take(q as int) =~= all);
            assert forall|c: int| 0 <= c < len implies (#[trigger] owned@[c] <==> child_upto(
                sn@,
                c,
                s + 1,
            )) by {
                if child_upto(sn@, c, s + 1) {
                    let t = choose|t: int| 0 <= t < s + 1 && occurs((#[trigger] sn@[t]).children@, c);
                    if t < s {
                        assert(child_upto(sn@, c, s as int));
                    }
                }
                if was[c] {
                    let t = choose|t: int| 0 <= t < s && occurs((#[trigger] sn@[t]).children@, c);
                    assert(child_upto(sn@, c, s + 1));
                }
                if occurs(all, c) {
                    assert(child_upto(sn@, c, s + 1));
                }
            }
            assert forall|t: int, u: int, c: int|
                #![trigger occurs(sn@[t].children@, c), occurs(sn@[u].children@, c)]
                0 <= t < s + 1 && 0 <= u < s + 1 && occurs(sn@[t].children@, c) && occurs(
                    sn@[u].children@,
                    c,
                ) implies t == u by {
                if t == s && u < s {
                    let x = position(all, c);
                    assert(kids@[x] == c);
                    assert(child_upto(sn@, c, s as int));
                    assert(was[kids@[x] as int]);
                } else if u == s && t < s {
                    let x = position(all, c);
                    assert(kids@[x] == c);
                    assert(child_upto(sn@, c, s as int));
                    assert(was[kids@[x] as int]);
                }
            }
        }
        s = s + 1;
    }
    true
}

/// The pointers cut the rows into columns, and the rows are in range.
fn pattern_fits(p: &CscPattern) -> (r: bool)
    ensures
        r == p.wf(),
{
    let n: usize = p.n;
    let cuts: usize = p.col_ptr.len();
    if n == usize::MAX || cuts != n + 1 || p.col_ptr[0] != 0 || p.col_ptr[n] != p.row_idx.len() {
        return false;
    }
    let mut j: usize = 0;
    while j < n
        invariant
            j <= n,
            p.col_ptr@.len() == n + 1,
            forall|x: int, y: int|
                0 <= x <= y <= j ==> #[trigger] p.col_ptr@[x] <= #[trigger] p.col_ptr@[y],
        decreases n - j,
    {
        if p.col_ptr[j] > p.col_ptr[j + 1] {
            assert(!nondecreasing(p.col_ptr@)) by {
                assert(p.col_ptr@[j as int] > p.col_ptr@[j + 1]);
            }
            return false;
        }
        assert forall|x: int, y: int| 0 <= x <= y <= j + 1 implies #[trigger] p.col_ptr@[x]
            <= #[trigger] p.col_ptr@[y] by {
            if y == j + 1 && x <= j {
                assert(p.col_ptr@[x] <= p.col_ptr@[j as int]);
            }
        }
        j = j + 1;
    }
    assert(pointers_ok(n as int, p.col_ptr@, p.row_idx@.len() as int));
    let mut k: usize = 0;
    while k < p.row_idx.len()
        invariant
            k <= p.row_idx@.len(),
            n == p.n,
            forall|x: int| 0 <= x < k ==> #[trigger] p.row_idx@[x] < n,
        decreases p.row_idx@.len() - k,
    {
        if p.row_idx[k] >= n {
            assert(!below(p.row_idx@, n as int)) by {
                assert(p.row_idx@[k as int] >= n);
            }
            return false;
        }
        k = k + 1;
    }
    true
}

impl SymbolicFactorization {
    /// Check that the analysis fits together.
    pub fn validate(&self) -> (r: Result<(), RslabError>)
        ensures
            r is Ok <==> self.wf(),
            r matches Err(e) ==> e is InvalidInput,
    {
        if !permutations_fit(self.n, &self.perm, &self.perm_inv) {
            return Err(RslabError::InvalidInput("analysis: the permutations do not fit"));
        }
        if !runs_fit(&self.supernodes, self.n) {
            return Err(RslabError::InvalidInput("analysis: the supernodes do not cut the columns"));
        }
        if !children_come_first(&self.supernodes) {
            return Err(RslabError::InvalidInput("analysis: the supernodes form no forest"));
        }
        if self.permuted_pattern.n != self.n || !pattern_fits(&self.permuted_pattern) {
            return Err(RslabError::InvalidInput("analysis: the pattern does not fit"));
        }
        Ok(())
    }
}

} // verus!
