//! What the counters count: each is the sum of what its parts hold.

use crate::blr::BlrMatrix;
use crate::blr_grid::{tallied, TileProbe};
use crate::multifrontal::node::NodeFactors;
use crate::multifrontal::stats::{
    delays_upto, entries_upto, node_entries, pairs_from, pairs_upto, tiny_upto,
};
use crate::multifrontal::tree::{assembly_flops, Supernode};
use crate::scalar::Scalar;
use vstd::prelude::*;

verus! {

/// `f(0) + ... + f(n - 1)`.
pub open spec fn added(n: int, f: spec_fn(int) -> int) -> int
    decreases n,
{
    if n <= 0 {
        0
    } else {
        added(n - 1, f) + f(n - 1)
    }
}

/// A lower trapezoid of `e` columns, the first with `r` rows and every other with
/// one row less than the one before.
proof fn trapezoid(r: int, e: int)
    requires
        0 <= e <= r,
    ensures
        added(e, |c: int| r - c) == e * (e + 1) / 2 + (r - e) * e,
        added(e, |c: int| r - c) * 2 == e * (2 * r - e + 1),
    decreases e,
{
    let f = |c: int| r - c;
    if e > 0 {
        trapezoid(r, e - 1);
        assert(added(e, f) == added(e - 1, f) + f(e - 1));
        assert(e * (2 * r - e + 1) == (e - 1) * (2 * r - (e - 1) + 1) + 2 * (r - (e - 1)))
            by (nonlinear_arith);
    } else {
        assert(e * (2 * r - e + 1) == 0) by (nonlinear_arith)
            requires
                e == 0,
        ;
    }
    assert(e * (2 * r - e + 1) == e * (e + 1) + 2 * ((r - e) * e)) by (nonlinear_arith);
}

/// The entries of a node are those of its columns: column `c` of the eliminated
/// ones holds the rows from `c` on.
pub proof fn node_entries_are_those_of_its_columns<T: Scalar>(node: NodeFactors<T>)
    requires
        node.nelim <= node.nrow,
    ensures
        node_entries(node) == added(node.nelim as int, |c: int| node.nrow - c),
{
    trapezoid(node.nrow as int, node.nelim as int);
    let f = |c: int| node.nrow as int - c;
    let g = |c: int| node.nrow - c;
    assert(f =~= g);
}

/// The totals of a factorization add up over its nodes.
pub proof fn factor_counts_add_up<T: Scalar>(nodes: Seq<NodeFactors<T>>, k: int)
    requires
        0 <= k,
    ensures
        entries_upto(nodes, k) == added(k, |s: int| node_entries(nodes[s])),
        pairs_upto(nodes, k) == added(k, |s: int| pairs_from(nodes[s].frontal_factors, 0)),
        delays_upto(nodes, k) == added(k, |s: int| nodes[s].frontal_factors.n_delayed as int),
        tiny_upto(nodes, k) == added(k, |s: int| nodes[s].frontal_factors.n_tiny as int),
    decreases k,
{
    if k > 0 {
        factor_counts_add_up(nodes, k - 1);
    }
}

/// The assembly work adds up over the supernodes: a front of `nrow` rows is
/// updated once for each of its `ncol` columns.
pub proof fn assembly_work_adds_up(supernodes: Seq<Supernode>, k: int)
    requires
        0 <= k,
    ensures
        assembly_flops(supernodes, k) == added(
            k,
            |s: int| supernodes[s].ncol * (supernodes[s].nrow * supernodes[s].nrow),
        ),
    decreases k,
{
    let f = |s: int| supernodes[s].ncol * (supernodes[s].nrow * supernodes[s].nrow);
    if k > 0 {
        assembly_work_adds_up(supernodes, k - 1);
        let (c, r) = (supernodes[k - 1].ncol as int, supernodes[k - 1].nrow as int);
        assert(c * r * r == c * (r * r)) by (nonlinear_arith);
        assert(f(k - 1) == c * (r * r));
    }
}

/// The probe totals add up over the tiles: what a tile holds densely, what it
/// holds as two factors of its rank, and its rank.
pub proof fn probes_add_up(t: Seq<TileProbe>, k: int)
    requires
        0 <= k,
    ensures
        tallied(t, k).0 == added(k, |i: int| t[i].rows * t[i].cols),
        tallied(t, k).1 == added(k, |i: int| t[i].rank * (t[i].rows + t[i].cols)),
        tallied(t, k).2 == added(k, |i: int| t[i].rank as int),
    decreases k,
{
    let g = |i: int| t[i].rank * (t[i].rows + t[i].cols);
    if k > 0 {
        probes_add_up(t, k - 1);
        let (a, b, r) = (t[k - 1].rows as int, t[k - 1].cols as int, t[k - 1].rank as int);
        assert(r * a + r * b == r * (a + b)) by (nonlinear_arith);
        assert(g(k - 1) == r * (a + b));
    }
}

/// The storage of a compressed matrix adds up over its tiles.
pub proof fn tiles_add_up<T: Scalar>(m: BlrMatrix<T>, k: int)
    requires
        0 <= k,
    ensures
        m.stored(k) == added(k, |i: int| m.blocks@[i].size()),
        m.compressed(k) == added(
            k,
            |i: int|
                if m.blocks@[i] is LowRank {
                    1int
                } else {
                    0int
                },
        ),
    decreases k,
{
    if k > 0 {
        tiles_add_up(m, k - 1);
    }
}

} // verus!
