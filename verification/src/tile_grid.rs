//! The walkable surface: a grid of wall and path tiles at twice the cell
//! grid's resolution plus one, derived deterministically from the finished
//! cell graph, with one entry and one exit opening in the outer wall.

use vstd::prelude::*;

use crate::cell_graph::lemma_dims_le_product;
use crate::cell_graph::CellGraph;
use crate::cell_graph::Direction;

verus! {

/// One unit of the rendered surface.
#[derive(Clone, Copy, PartialEq, Eq, Structural, Debug)]
pub enum TileKind {
    Wall,
    Path,
}

/// An opening position on the outer ring of the tile grid of a rows-by-cols
/// cell graph: on the boundary, facing a cell center, never a corner.
pub open spec fn valid_opening(rows: int, cols: int, tr: int, tc: int) -> bool {
    ||| ((tr == 0 || tr == 2 * rows) && tc % 2 == 1 && 1 <= tc <= 2 * cols - 1)
    ||| ((tc == 0 || tc == 2 * cols) && tr % 2 == 1 && 1 <= tr <= 2 * rows - 1)
}

/// Whether (tr, tc) lies on the outer ring of a trows-by-tcols tile grid.
pub open spec fn on_boundary(trows: int, tcols: int, tr: int, tc: int) -> bool {
    tr == 0 || tr == trows - 1 || tc == 0 || tc == tcols - 1
}

/// The tile the derivation rule paints at (tr, tc), before the two openings
/// are cut: path at every cell center, path on a wall segment exactly where
/// the two cells it separates are connected, wall everywhere else.
pub open spec fn base_tile(g: CellGraph, tr: int, tc: int) -> TileKind {
    if tr % 2 == 1 && tc % 2 == 1 {
        TileKind::Path
    } else if tr % 2 == 1 && tc % 2 == 0 {
        if 2 <= tc <= 2 * g.spec_cols() - 2 && g.conn_at((tr - 1) / 2, tc / 2 - 1, Direction::East) {
            TileKind::Path
        } else {
            TileKind::Wall
        }
    } else if tr % 2 == 0 && tc % 2 == 1 {
        if 2 <= tr <= 2 * g.spec_rows() - 2 && g.conn_at(tr / 2 - 1, (tc - 1) / 2, Direction::South) {
            TileKind::Path
        } else {
            TileKind::Wall
        }
    } else {
        TileKind::Wall
    }
}

/// The full derivation rule: the two openings are path whatever the border
/// rule says, every other tile follows `base_tile`.
pub open spec fn tile_rule(g: CellGraph, er: int, ec: int, xr: int, xc: int, tr: int, tc: int) -> TileKind {
    if (tr == er && tc == ec) || (tr == xr && tc == xc) {
        TileKind::Path
    } else {
        base_tile(g, tr, tc)
    }
}

/// The derived grid of tiles, stored row-major, with its two openings.
pub struct TileGrid {
    rows: usize,
    cols: usize,
    tiles: Vec<TileKind>,
    entry: (usize, usize),
    exit: (usize, usize),
}

impl TileGrid {
    pub closed spec fn spec_rows(self) -> int {
        self.rows as int
    }

    pub closed spec fn spec_cols(self) -> int {
        self.cols as int
    }

    pub closed spec fn tiles_seq(self) -> Seq<TileKind> {
        self.tiles@
    }

    pub closed spec fn spec_entry(self) -> (int, int) {
        (self.entry.0 as int, self.entry.1 as int)
    }

    pub closed spec fn spec_exit(self) -> (int, int) {
        (self.exit.0 as int, self.exit.1 as int)
    }

    pub open spec fn in_bounds(self, tr: int, tc: int) -> bool {
        0 <= tr < self.spec_rows() && 0 <= tc < self.spec_cols()
    }

    pub closed spec fn tile(self, tr: int, tc: int) -> TileKind {
        self.tiles@[tr * self.cols + tc]
    }

    pub open spec fn wf(self) -> bool {
        &&& 3 <= self.spec_rows() && self.spec_rows() % 2 == 1
        &&& 3 <= self.spec_cols() && self.spec_cols() % 2 == 1
        &&& self.spec_rows() <= usize::MAX
        &&& self.spec_cols() <= usize::MAX
        &&& self.tiles_seq().len() == self.spec_rows() * self.spec_cols()
        &&& valid_opening(
            (self.spec_rows() - 1) / 2,
            (self.spec_cols() - 1) / 2,
            self.spec_entry().0,
            self.spec_entry().1,
        )
        &&& valid_opening(
            (self.spec_rows() - 1) / 2,
            (self.spec_cols() - 1) / 2,
            self.spec_exit().0,
            self.spec_exit().1,
        )
        &&& self.spec_entry() != self.spec_exit()
        &&& self.tile(self.spec_entry().0, self.spec_entry().1) == TileKind::Path
        &&& self.tile(self.spec_exit().0, self.spec_exit().1) == TileKind::Path
    }

    pub fn rows(&self) -> (n: usize)
        ensures
            n == self.spec_rows(),
    {
        self.rows
    }

    pub fn cols(&self) -> (n: usize)
        ensures
            n == self.spec_cols(),
    {
        self.cols
    }

    pub fn entry_pos(&self) -> (p: (usize, usize))
        ensures
            (p.0 as int, p.1 as int) == self.spec_entry(),
    {
        self.entry
    }

    pub fn exit_pos(&self) -> (p: (usize, usize))
        ensures
            (p.0 as int, p.1 as int) == self.spec_exit(),
    {
        self.exit
    }

    pub fn tile_at(&self, tr: usize, tc: usize) -> (k: TileKind)
        requires
            self.in_bounds(tr as int, tc as int),
            self.tiles_seq().len() == self.spec_rows() * self.spec_cols(),
        ensures
            k == self.tile(tr as int, tc as int),
    {
        let n = self.tiles.len();
        proof {
            crate::cell_graph::lemma_grid_index_bound(
                self.spec_rows(),
                self.spec_cols(),
                tr as int,
                tc as int,
            );
        }
        self.tiles[tr * self.cols + tc]
    }

    /// Derives the walkable tile grid from a finished cell graph: one pass
    /// over all (2 rows + 1) x (2 cols + 1) tiles, each painted by the rule.
    #[verifier::rlimit(100)]
    pub fn from_graph(g: &CellGraph, entry: (usize, usize), exit: (usize, usize)) -> (t: TileGrid)
        requires
            g.wf(),
            (2 * g.spec_rows() + 1) * (2 * g.spec_cols() + 1) <= usize::MAX,
            valid_opening(g.spec_rows(), g.spec_cols(), entry.0 as int, entry.1 as int),
            valid_opening(g.spec_rows(), g.spec_cols(), exit.0 as int, exit.1 as int),
            !(entry.0 == exit.0 && entry.1 == exit.1),
        ensures
            t.wf(),
            t.spec_rows() == 2 * g.spec_rows() + 1,
            t.spec_cols() == 2 * g.spec_cols() + 1,
            t.spec_entry() == (entry.0 as int, entry.1 as int),
            t.spec_exit() == (exit.0 as int, exit.1 as int),
            forall|tr: int, tc: int|
                t.in_bounds(tr, tc) ==> #[trigger] t.tile(tr, tc) == tile_rule(
                    *g,
                    entry.0 as int,
                    entry.1 as int,
                    exit.0 as int,
                    exit.1 as int,
                    tr,
                    tc,
                ),
    {
        proof {
            lemma_dims_le_product(2 * g.spec_rows() + 1, 2 * g.spec_cols() + 1);
            lemma_dims_le_product(2 * g.spec_cols() + 1, 2 * g.spec_rows() + 1);
        }
        let trows = 2 * g.rows() + 1;
        let tcols = 2 * g.cols() + 1;
        let mut tiles: Vec<TileKind> = Vec::new();
        let mut tr: usize = 0;
        while tr < trows
            invariant
                tr <= trows,
                trows == 2 * g.spec_rows() + 1,
                tcols == 2 * g.spec_cols() + 1,
                trows * tcols <= usize::MAX,
                g.wf(),
                tiles@.len() == tr * tcols,
                forall|i: int, j: int|
                    0 <= i < tr && 0 <= j < tcols ==> #[trigger] tiles@[i * tcols + j] == tile_rule(
                        *g,
                        entry.0 as int,
                        entry.1 as int,
                        exit.0 as int,
                        exit.1 as int,
                        i,
                        j,
                    ),
            decreases trows - tr,
        {
            let mut tc: usize = 0;
            while tc < tcols
                invariant
                    tr < trows,
                    tc <= tcols,
                    trows == 2 * g.spec_rows() + 1,
                    tcols == 2 * g.spec_cols() + 1,
                    trows * tcols <= usize::MAX,
                    g.wf(),
                    tiles@.len() == tr * tcols + tc,
                    forall|i: int, j: int|
                        0 <= i < tr && 0 <= j < tcols ==> #[trigger] tiles@[i * tcols + j]
                            == tile_rule(
                            *g,
                            entry.0 as int,
                            entry.1 as int,
                            exit.0 as int,
                            exit.1 as int,
                            i,
                            j,
                        ),
                    forall|j: int|
                        0 <= j < tc ==> #[trigger] tiles@[tr * tcols + j] == tile_rule(
                            *g,
                            entry.0 as int,
                            entry.1 as int,
                            exit.0 as int,
                            exit.1 as int,
                            tr as int,
                            j,
                        ),
                decreases tcols - tc,
            {
                proof {
                    lemma_tile_cases(
                        *g,
                        entry.0 as int,
                        entry.1 as int,
                        exit.0 as int,
                        exit.1 as int,
                        tr as int,
                        tc as int,
                    );
                }
                let kind: TileKind = if (tr == entry.0 && tc == entry.1) || (tr == exit.0 && tc
                    == exit.1) {
                    TileKind::Path
                } else if tr % 2 == 1 && tc % 2 == 1 {
                    TileKind::Path
                } else if tr % 2 == 1 && tc % 2 == 0 {
                    if tc != 0 && tc != tcols - 1 && g.is_connected(
                        tr / 2,
                        tc / 2 - 1,
                        Direction::East,
                    ) {
                        TileKind::Path
                    } else {
                        TileKind::Wall
                    }
                } else if tr % 2 == 0 && tc % 2 == 1 {
                    if tr != 0 && tr != trows - 1 && g.is_connected(
                        tr / 2 - 1,
                        tc / 2,
                        Direction::South,
                    ) {
                        TileKind::Path
                    } else {
                        TileKind::Wall
                    }
                } else {
                    TileKind::Wall
                };
                proof {
                    crate::cell_graph::lemma_grid_index_bound(
                        trows as int,
                        tcols as int,
                        tr as int,
                        tc as int,
                    );
                }
                tiles.push(kind);
                tc = tc + 1;
                proof {
                    assert forall|i: int, j: int| 0 <= i < tr && 0 <= j < tcols implies #[trigger] tiles@[i
                        * tcols + j] == tile_rule(
                        *g,
                        entry.0 as int,
                        entry.1 as int,
                        exit.0 as int,
                        exit.1 as int,
                        i,
                        j,
                    ) by {
                        crate::cell_graph::lemma_grid_index_bound(tr as int, tcols as int, i, j);
                    }
                }
            }
            proof {
                assert((tr + 1) * tcols == tr * tcols + tcols) by (nonlinear_arith);
            }
            tr = tr + 1;
        }
        let t = TileGrid { rows: trows, cols: tcols, tiles, entry, exit };
        proof {
            assert forall|tr2: int, tc2: int| t.in_bounds(tr2, tc2) implies #[trigger] t.tile(
                tr2,
                tc2,
            ) == tile_rule(
                *g,
                entry.0 as int,
                entry.1 as int,
                exit.0 as int,
                exit.1 as int,
                tr2,
                tc2,
            ) by {
                crate::cell_graph::lemma_grid_index_bound(trows as int, tcols as int, tr2, tc2);
            }
            assert(t.tile(t.spec_entry().0, t.spec_entry().1) == TileKind::Path);
            assert(t.tile(t.spec_exit().0, t.spec_exit().1) == TileKind::Path);
        }
        t
    }
}

/// How the rule reads at one tile, phrased over the tile grid's own
/// dimensions, with the wall-segment cases resolved to one cell lookup.
#[verifier::rlimit(100)]
proof fn lemma_tile_cases(g: CellGraph, er: int, ec: int, xr: int, xc: int, tr: int, tc: int)
    requires
        g.wf(),
        0 <= tr < 2 * g.spec_rows() + 1,
        0 <= tc < 2 * g.spec_cols() + 1,
    ensures
        tile_rule(g, er, ec, xr, xc, tr, tc) == (if (tr == er && tc == ec) || (tr == xr && tc
            == xc) {
            TileKind::Path
        } else if tr % 2 == 1 && tc % 2 == 1 {
            TileKind::Path
        } else if tr % 2 == 1 && tc % 2 == 0 {
            if tc != 0 && tc != 2 * g.spec_cols() && g.conn_at(tr / 2, tc / 2 - 1, Direction::East) {
                TileKind::Path
            } else {
                TileKind::Wall
            }
        } else if tr % 2 == 0 && tc % 2 == 1 {
            if tr != 0 && tr != 2 * g.spec_rows() && g.conn_at(tr / 2 - 1, tc / 2, Direction::South) {
                TileKind::Path
            } else {
                TileKind::Wall
            }
        } else {
            TileKind::Wall
        }),
        tr % 2 == 1 && tc % 2 == 0 && tc != 0 && tc != 2 * g.spec_cols() ==> g.in_bounds(
            tr / 2,
            tc / 2 - 1,
        ),
        tr % 2 == 0 && tc % 2 == 1 && tr != 0 && tr != 2 * g.spec_rows() ==> g.in_bounds(
            tr / 2 - 1,
            tc / 2,
        ),
{
    let rows = g.spec_rows();
    let cols = g.spec_cols();
    if tr % 2 == 1 && tc % 2 == 0 {
        assert(tr <= 2 * rows - 1);
        assert(tr / 2 == (tr - 1) / 2);
        assert(0 <= tr / 2 < rows);
        if tc != 0 && tc != 2 * cols {
            assert(tc != 2 * cols - 1);
            assert(2 <= tc <= 2 * cols - 2);
            assert(1 <= tc / 2 <= cols - 1);
        } else {
            assert(!(2 <= tc <= 2 * cols - 2));
        }
    }
    if tr % 2 == 0 && tc % 2 == 1 {
        assert(tc <= 2 * cols - 1);
        assert(tc / 2 == (tc - 1) / 2);
        assert(0 <= tc / 2 < cols);
        if tr != 0 && tr != 2 * rows {
            assert(tr != 2 * rows - 1);
            assert(2 <= tr <= 2 * rows - 2);
            assert(1 <= tr / 2 <= rows - 1);
        } else {
            assert(!(2 <= tr <= 2 * rows - 2));
        }
    }
}

/// Law: the derivation is a pure function of the cell graph and the two
/// openings: any two grids that follow the rule for the same inputs agree
/// tile for tile.
pub proof fn lemma_derivation_deterministic(
    g: CellGraph,
    er: int,
    ec: int,
    xr: int,
    xc: int,
    t1: TileGrid,
    t2: TileGrid,
)
    requires
        t1.spec_rows() == t2.spec_rows(),
        t1.spec_cols() == t2.spec_cols(),
        forall|tr: int, tc: int|
            t1.in_bounds(tr, tc) ==> #[trigger] t1.tile(tr, tc) == tile_rule(g, er, ec, xr, xc, tr, tc),
        forall|tr: int, tc: int|
            t2.in_bounds(tr, tc) ==> #[trigger] t2.tile(tr, tc) == tile_rule(g, er, ec, xr, xc, tr, tc),
    ensures
        forall|tr: int, tc: int|
            t1.in_bounds(tr, tc) ==> #[trigger] t1.tile(tr, tc) == t2.tile(tr, tc),
{
}

/// Law: the entry and exit openings are distinct path tiles on the outer
/// boundary ring of the tile grid.
pub proof fn lemma_openings_on_boundary(t: TileGrid)
    requires
        t.wf(),
    ensures
        t.tile(t.spec_entry().0, t.spec_entry().1) == TileKind::Path,
        t.tile(t.spec_exit().0, t.spec_exit().1) == TileKind::Path,
        t.spec_entry() != t.spec_exit(),
        on_boundary(t.spec_rows(), t.spec_cols(), t.spec_entry().0, t.spec_entry().1),
        on_boundary(t.spec_rows(), t.spec_cols(), t.spec_exit().0, t.spec_exit().1),
{
}

} // verus!
