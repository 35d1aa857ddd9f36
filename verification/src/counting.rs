//! Counts over a sequence of cells: how many cells are visited, and how many
//! open passages the sequence carries when each undirected passage is counted
//! once, at its west or north endpoint.

use vstd::prelude::*;

use crate::cell_graph::Cell;
use crate::cell_graph::CellGraph;

verus! {

/// What one cell contributes to the connection count: its east and south
/// flags, so that every undirected passage of a symmetric grid is counted
/// exactly once.
pub open spec fn cell_es(cell: Cell) -> int {
    (if cell.conn_east {
        1int
    } else {
        0int
    }) + (if cell.conn_south {
        1int
    } else {
        0int
    })
}

/// Total connection count of a cell sequence.
pub open spec fn count_conns(s: Seq<Cell>) -> int
    decreases s.len(),
{
    if s.len() == 0 {
        0
    } else {
        cell_es(s[0]) + count_conns(s.drop_first())
    }
}

/// How many cells of the sequence are marked visited.
pub open spec fn count_visited(s: Seq<Cell>) -> int
    decreases s.len(),
{
    if s.len() == 0 {
        0
    } else {
        (if s[0].visited {
            1int
        } else {
            0int
        }) + count_visited(s.drop_first())
    }
}

pub proof fn lemma_count_conns_update(s: Seq<Cell>, i: int, v: Cell)
    requires
        0 <= i < s.len(),
    ensures
        count_conns(s.update(i, v)) == count_conns(s) - cell_es(s[i]) + cell_es(v),
    decreases s.len(),
{
    if i == 0 {
        assert(s.update(0, v).drop_first() =~= s.drop_first());
    } else {
        assert(s.update(i, v).drop_first() =~= s.drop_first().update(i - 1, v));
        lemma_count_conns_update(s.drop_first(), i - 1, v);
    }
}

pub proof fn lemma_count_visited_update(s: Seq<Cell>, i: int, v: Cell)
    requires
        0 <= i < s.len(),
    ensures
        count_visited(s.update(i, v)) == count_visited(s) - (if s[i].visited {
            1int
        } else {
            0int
        }) + (if v.visited {
            1int
        } else {
            0int
        }),
    decreases s.len(),
{
    if i == 0 {
        assert(s.update(0, v).drop_first() =~= s.drop_first());
    } else {
        assert(s.update(i, v).drop_first() =~= s.drop_first().update(i - 1, v));
        lemma_count_visited_update(s.drop_first(), i - 1, v);
    }
}

pub proof fn lemma_count_conns_push(s: Seq<Cell>, v: Cell)
    ensures
        count_conns(s.push(v)) == count_conns(s) + cell_es(v),
    decreases s.len(),
{
    if s.len() == 0 {
        assert(s.push(v)[0] == v);
        assert(s.push(v).drop_first() =~= Seq::<Cell>::empty());
        assert(count_conns(s.push(v)) == cell_es(v) + count_conns(Seq::<Cell>::empty()));
    } else {
        assert(s.push(v)[0] == s[0]);
        assert(s.push(v).drop_first() =~= s.drop_first().push(v));
        lemma_count_conns_push(s.drop_first(), v);
        assert(count_conns(s.push(v)) == cell_es(s[0]) + count_conns(s.drop_first().push(v)));
    }
}

pub proof fn lemma_count_visited_push(s: Seq<Cell>, v: Cell)
    ensures
        count_visited(s.push(v)) == count_visited(s) + (if v.visited {
            1int
        } else {
            0int
        }),
    decreases s.len(),
{
    if s.len() == 0 {
        assert(s.push(v)[0] == v);
        assert(s.push(v).drop_first() =~= Seq::<Cell>::empty());
        assert(count_visited(s.push(v)) == (if v.visited {
            1int
        } else {
            0int
        }) + count_visited(Seq::<Cell>::empty()));
    } else {
        assert(s.push(v)[0] == s[0]);
        assert(s.push(v).drop_first() =~= s.drop_first().push(v));
        lemma_count_visited_push(s.drop_first(), v);
        assert(count_visited(s.push(v)) == (if s[0].visited {
            1int
        } else {
            0int
        }) + count_visited(s.drop_first().push(v)));
    }
}

/// A sequence of cells that are all visited counts its full length.
pub proof fn lemma_count_visited_full(s: Seq<Cell>)
    requires
        forall|i: int| 0 <= i < s.len() ==> (#[trigger] s[i]).visited,
    ensures
        count_visited(s) == s.len(),
    decreases s.len(),
{
    if s.len() > 0 {
        lemma_count_visited_full(s.drop_first());
    }
}

/// In a well-formed grid whose cells are all visited, the visited count is
/// the whole cell count.
pub proof fn lemma_count_visited_full_grid(g: CellGraph)
    requires
        g.wf(),
        g.all_visited(),
    ensures
        count_visited(g.cells_seq()) == g.cells_seq().len(),
{
    let cols = g.spec_cols();
    let rows = g.spec_rows();
    assert forall|i: int| 0 <= i < g.cells_seq().len() implies (#[trigger] g.cells_seq()[i]).visited by {
        lemma_pos_of_index(rows, cols, i);
        let r = i / cols;
        let c = i % cols;
        g.lemma_cell_index(r, c);
        assert(g.visited_at(r, c));
    }
    lemma_count_visited_full(g.cells_seq());
}

/// The visited count lies between zero and the sequence length.
pub proof fn lemma_count_visited_le(s: Seq<Cell>)
    ensures
        0 <= count_visited(s) <= s.len(),
    decreases s.len(),
{
    if s.len() > 0 {
        lemma_count_visited_le(s.drop_first());
    }
}

/// A sequence with an unvisited cell counts strictly under its length.
pub proof fn lemma_count_visited_missing(s: Seq<Cell>, i: int)
    requires
        0 <= i < s.len(),
        !s[i].visited,
    ensures
        count_visited(s) < s.len(),
    decreases s.len(),
{
    if i == 0 {
        lemma_count_visited_le(s.drop_first());
    } else {
        lemma_count_visited_missing(s.drop_first(), i - 1);
    }
}

/// A well-formed grid with no visited cell and no open passage counts zero
/// on both counts.
pub proof fn lemma_counts_fresh_grid(g: CellGraph)
    requires
        g.wf(),
        g.all_unvisited(),
        g.all_unconnected(),
    ensures
        count_conns(g.cells_seq()) == 0,
        count_visited(g.cells_seq()) == 0,
{
    let cols = g.spec_cols();
    let rows = g.spec_rows();
    assert forall|i: int| 0 <= i < g.cells_seq().len() implies cell_es(#[trigger] g.cells_seq()[i])
        == 0 && !g.cells_seq()[i].visited by {
        lemma_pos_of_index(rows, cols, i);
        let r = i / cols;
        let c = i % cols;
        g.lemma_cell_index(r, c);
        assert(!g.visited_at(r, c));
        assert(!g.cell(r, c).conn_east && !g.cell(r, c).conn_south);
    }
    lemma_count_conns_zero(g.cells_seq());
    lemma_count_visited_zero(g.cells_seq());
}

proof fn lemma_count_conns_zero(s: Seq<Cell>)
    requires
        forall|i: int| 0 <= i < s.len() ==> cell_es(#[trigger] s[i]) == 0,
    ensures
        count_conns(s) == 0,
    decreases s.len(),
{
    if s.len() > 0 {
        assert forall|i: int| 0 <= i < s.drop_first().len() implies cell_es(
            #[trigger] s.drop_first()[i],
        ) == 0 by {
            assert(s.drop_first()[i] == s[i + 1]);
        }
        lemma_count_conns_zero(s.drop_first());
    }
}

proof fn lemma_count_visited_zero(s: Seq<Cell>)
    requires
        forall|i: int| 0 <= i < s.len() ==> !(#[trigger] s[i]).visited,
    ensures
        count_visited(s) == 0,
    decreases s.len(),
{
    if s.len() > 0 {
        assert forall|i: int| 0 <= i < s.drop_first().len() implies !(
        #[trigger] s.drop_first()[i]).visited by {
            assert(s.drop_first()[i] == s[i + 1]);
        }
        lemma_count_visited_zero(s.drop_first());
    }
}

/// Every index of a row-major grid decomposes into a row and a column.
pub proof fn lemma_pos_of_index(rows: int, cols: int, i: int)
    by (nonlinear_arith)
    requires
        1 <= cols,
        1 <= rows,
        0 <= i < rows * cols,
    ensures
        0 <= i / cols < rows,
        0 <= i % cols < cols,
        (i / cols) * cols + (i % cols) == i,
{
}

} // verus!
