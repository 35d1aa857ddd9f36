//! Walks through open passages of the cell grid, and reachability along
//! them. A perfect maze keeps every pair of cells reachable through exactly
//! the passages the generator opened.

use vstd::prelude::*;

use crate::cell_graph::adjacent;
use crate::cell_graph::dir_from;
use crate::cell_graph::CellGraph;

verus! {

/// Whether the passage between two adjacent cells is open, seen from both
/// sides.
pub open spec fn open_between(g: CellGraph, r1: int, c1: int, r2: int, c2: int) -> bool {
    &&& g.in_bounds(r1, c1)
    &&& g.in_bounds(r2, c2)
    &&& adjacent(r1, c1, r2, c2)
    &&& g.conn_at(r1, c1, dir_from(r1, c1, r2, c2))
    &&& g.conn_at(r2, c2, dir_from(r2, c2, r1, c1))
}

/// Position i of the walk lies inside the grid.
pub open spec fn path_pos_ok(g: CellGraph, p: Seq<(int, int)>, i: int) -> bool {
    g.in_bounds(p[i].0, p[i].1)
}

/// Positions i and i + 1 of the walk are joined by an open passage.
pub open spec fn path_step_ok(g: CellGraph, p: Seq<(int, int)>, i: int) -> bool {
    open_between(g, p[i].0, p[i].1, p[i + 1].0, p[i + 1].1)
}

/// A non-empty walk that only crosses open passages.
pub open spec fn is_conn_path(g: CellGraph, p: Seq<(int, int)>) -> bool {
    &&& p.len() >= 1
    &&& forall|i: int| 0 <= i < p.len() ==> #[trigger] path_pos_ok(g, p, i)
    &&& forall|i: int| 0 <= i < p.len() - 1 ==> #[trigger] path_step_ok(g, p, i)
}

/// Some walk through open passages leads from (r1, c1) to (r2, c2).
pub open spec fn reachable(g: CellGraph, r1: int, c1: int, r2: int, c2: int) -> bool {
    exists|p: Seq<(int, int)>|
        #[trigger] is_conn_path(g, p) && p.first() == (r1, c1) && p.last() == (r2, c2)
}

pub proof fn lemma_reachable_refl(g: CellGraph, r: int, c: int)
    requires
        g.in_bounds(r, c),
    ensures
        reachable(g, r, c, r, c),
{
    let p = seq![(r, c)];
    assert(path_pos_ok(g, p, 0));
    assert(is_conn_path(g, p) && p.first() == (r, c) && p.last() == (r, c));
}

/// A walk extends by one open passage at its end.
pub proof fn lemma_reachable_step(
    g: CellGraph,
    r1: int,
    c1: int,
    r2: int,
    c2: int,
    r3: int,
    c3: int,
)
    requires
        reachable(g, r1, c1, r2, c2),
        open_between(g, r2, c2, r3, c3),
    ensures
        reachable(g, r1, c1, r3, c3),
{
    let p = choose|p: Seq<(int, int)>|
        #[trigger] is_conn_path(g, p) && p.first() == (r1, c1) && p.last() == (r2, c2);
    let q = p.push((r3, c3));
    assert forall|i: int| 0 <= i < q.len() implies #[trigger] path_pos_ok(g, q, i) by {
        if i < p.len() {
            assert(path_pos_ok(g, p, i));
            assert(q[i] == p[i]);
        } else {
            assert(q[i] == (r3, c3));
        }
    }
    assert forall|i: int| 0 <= i < q.len() - 1 implies #[trigger] path_step_ok(g, q, i) by {
        if i < p.len() - 1 {
            assert(path_step_ok(g, p, i));
            assert(q[i] == p[i] && q[i + 1] == p[i + 1]);
        } else {
            assert(q[i] == p.last() && q[i + 1] == (r3, c3));
        }
    }
    assert(is_conn_path(g, q) && q.first() == (r1, c1) && q.last() == (r3, c3));
}

/// One grid's open passages all open in another: the same dimensions, and
/// every connection flag carried over.
pub open spec fn conn_le(g1: CellGraph, g2: CellGraph) -> bool {
    &&& g2.spec_rows() == g1.spec_rows()
    &&& g2.spec_cols() == g1.spec_cols()
    &&& forall|r: int, c: int, d: crate::cell_graph::Direction|
        g1.in_bounds(r, c) && #[trigger] g1.conn_at(r, c, d) ==> g2.conn_at(r, c, d)
}

/// Opening more passages never severs a walk.
pub proof fn lemma_reachable_mono(g1: CellGraph, g2: CellGraph, r1: int, c1: int, r2: int, c2: int)
    requires
        conn_le(g1, g2),
        reachable(g1, r1, c1, r2, c2),
    ensures
        reachable(g2, r1, c1, r2, c2),
{
    let p = choose|p: Seq<(int, int)>|
        #[trigger] is_conn_path(g1, p) && p.first() == (r1, c1) && p.last() == (r2, c2);
    assert forall|i: int| 0 <= i < p.len() implies #[trigger] path_pos_ok(g2, p, i) by {
        assert(path_pos_ok(g1, p, i));
    }
    assert forall|i: int| 0 <= i < p.len() - 1 implies #[trigger] path_step_ok(g2, p, i) by {
        assert(path_step_ok(g1, p, i));
        assert(path_pos_ok(g1, p, i) && path_pos_ok(g1, p, i + 1));
    }
    assert(is_conn_path(g2, p) && p.first() == (r1, c1) && p.last() == (r2, c2));
}

/// A walk runs backwards through the same open passages.
pub proof fn lemma_reachable_sym(g: CellGraph, r1: int, c1: int, r2: int, c2: int)
    requires
        reachable(g, r1, c1, r2, c2),
    ensures
        reachable(g, r2, c2, r1, c1),
{
    let p = choose|p: Seq<(int, int)>|
        #[trigger] is_conn_path(g, p) && p.first() == (r1, c1) && p.last() == (r2, c2);
    let n = p.len() as int;
    let q = p.reverse();
    assert forall|i: int| 0 <= i < q.len() implies #[trigger] path_pos_ok(g, q, i) by {
        assert(q[i] == p[n - 1 - i]);
        assert(path_pos_ok(g, p, n - 1 - i));
    }
    assert forall|i: int| 0 <= i < q.len() - 1 implies #[trigger] path_step_ok(g, q, i) by {
        assert(q[i] == p[n - 1 - i]);
        assert(q[i + 1] == p[n - 2 - i]);
        assert(path_step_ok(g, p, n - 2 - i));
    }
    assert(is_conn_path(g, q) && q.first() == (r2, c2) && q.last() == (r1, c1));
}

/// Two walks sharing an endpoint join into one.
pub proof fn lemma_reachable_trans(
    g: CellGraph,
    r1: int,
    c1: int,
    r2: int,
    c2: int,
    r3: int,
    c3: int,
)
    requires
        reachable(g, r1, c1, r2, c2),
        reachable(g, r2, c2, r3, c3),
    ensures
        reachable(g, r1, c1, r3, c3),
{
    let p1 = choose|p: Seq<(int, int)>|
        #[trigger] is_conn_path(g, p) && p.first() == (r1, c1) && p.last() == (r2, c2);
    let p2 = choose|p: Seq<(int, int)>|
        #[trigger] is_conn_path(g, p) && p.first() == (r2, c2) && p.last() == (r3, c3);
    if p2.len() == 1 {
        assert(p1.first() == (r1, c1) && p1.last() == (r3, c3));
    } else {
        let n1 = p1.len() as int;
        let q = p1 + p2.subrange(1, p2.len() as int);
        assert forall|i: int| 0 <= i < q.len() implies #[trigger] path_pos_ok(g, q, i) by {
            if i < n1 {
                assert(q[i] == p1[i]);
                assert(path_pos_ok(g, p1, i));
            } else {
                assert(q[i] == p2[i - n1 + 1]);
                assert(path_pos_ok(g, p2, i - n1 + 1));
            }
        }
        assert forall|i: int| 0 <= i < q.len() - 1 implies #[trigger] path_step_ok(g, q, i) by {
            if i < n1 - 1 {
                assert(q[i] == p1[i] && q[i + 1] == p1[i + 1]);
                assert(path_step_ok(g, p1, i));
            } else if i == n1 - 1 {
                assert(q[i] == p1.last());
                assert(q[i + 1] == p2[1]);
                assert(p2[0] == (r2, c2));
                assert(path_step_ok(g, p2, 0));
            } else {
                assert(q[i] == p2[i - n1 + 1] && q[i + 1] == p2[i - n1 + 2]);
                assert(path_step_ok(g, p2, i - n1 + 1));
            }
        }
        assert(is_conn_path(g, q) && q.first() == (r1, c1) && q.last() == (r3, c3));
    }
}

/// Law: in a grid whose cells are all reachable from one position, every
/// pair of cells is joined by a walk through open passages.
pub proof fn lemma_all_pairs_connected(
    g: CellGraph,
    sr: int,
    sc: int,
    r1: int,
    c1: int,
    r2: int,
    c2: int,
)
    requires
        g.in_bounds(r1, c1),
        g.in_bounds(r2, c2),
        forall|r: int, c: int| g.in_bounds(r, c) ==> #[trigger] reachable(g, sr, sc, r, c),
    ensures
        reachable(g, r1, c1, r2, c2),
{
    assert(reachable(g, sr, sc, r1, c1));
    assert(reachable(g, sr, sc, r2, c2));
    lemma_reachable_sym(g, sr, sc, r1, c1);
    lemma_reachable_trans(g, r1, c1, sr, sc, r2, c2);
}

} // verus!
