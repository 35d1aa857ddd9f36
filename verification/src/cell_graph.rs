//! The logical cell grid: a rectangle of cells, each knowing which of its
//! four sides touch the outer edge and which carry an open passage to the
//! neighbor on that side.

use vstd::prelude::*;

use crate::counting::cell_es;
use crate::counting::count_conns;
use crate::counting::count_visited;
use crate::counting::lemma_count_conns_push;
use crate::counting::lemma_count_conns_update;
use crate::counting::lemma_count_visited_push;
use crate::counting::lemma_count_visited_update;

verus! {

/// A side of a cell, or a direction of movement on the tile grid.
#[derive(Clone, Copy, PartialEq, Eq, Structural, Debug)]
pub enum Direction {
    North,
    East,
    South,
    West,
}

/// One node of the logical grid.
#[derive(Clone, Copy, PartialEq, Eq, Structural, Debug)]
pub struct Cell {
    pub border_west: bool,
    pub border_north: bool,
    pub border_east: bool,
    pub border_south: bool,
    pub conn_west: bool,
    pub conn_north: bool,
    pub conn_east: bool,
    pub conn_south: bool,
    pub visited: bool,
}

/// The one fatal condition of the core: asking to open a passage between
/// two cells that are not grid-adjacent.
#[derive(Clone, Copy, PartialEq, Eq, Structural, Debug)]
pub enum MazeError {
    InvalidConnection,
}

/// Whether the given cell has an open passage on side `d`.
pub open spec fn conn_in(cell: Cell, d: Direction) -> bool {
    match d {
        Direction::North => cell.conn_north,
        Direction::East => cell.conn_east,
        Direction::South => cell.conn_south,
        Direction::West => cell.conn_west,
    }
}

/// Row offset of one step in direction `d`.
pub open spec fn step_r(d: Direction) -> int {
    match d {
        Direction::North => -1,
        Direction::South => 1,
        Direction::East => 0,
        Direction::West => 0,
    }
}

/// Column offset of one step in direction `d`.
pub open spec fn step_c(d: Direction) -> int {
    match d {
        Direction::East => 1,
        Direction::West => -1,
        Direction::North => 0,
        Direction::South => 0,
    }
}

/// Whether two cell positions are grid-adjacent: they differ by exactly one
/// step along exactly one axis.
pub open spec fn adjacent(r1: int, c1: int, r2: int, c2: int) -> bool {
    ||| (r1 == r2 && (c1 == c2 + 1 || c2 == c1 + 1))
    ||| (c1 == c2 && (r1 == r2 + 1 || r2 == r1 + 1))
}

/// A rectangular grid of cells, stored row-major.
pub struct CellGraph {
    rows: usize,
    cols: usize,
    cells: Vec<Cell>,
}

impl CellGraph {
    pub closed spec fn spec_rows(self) -> int {
        self.rows as int
    }

    pub closed spec fn spec_cols(self) -> int {
        self.cols as int
    }

    pub closed spec fn cells_seq(self) -> Seq<Cell> {
        self.cells@
    }

    pub open spec fn in_bounds(self, r: int, c: int) -> bool {
        0 <= r < self.spec_rows() && 0 <= c < self.spec_cols()
    }

    pub closed spec fn cell(self, r: int, c: int) -> Cell {
        self.cells@[r * self.cols + c]
    }

    /// The cells sequence lists the cell at (r, c) at index r * cols + c.
    pub proof fn lemma_cell_index(self, r: int, c: int)
        requires
            self.in_bounds(r, c),
        ensures
            self.cell(r, c) == self.cells_seq()[r * self.spec_cols() + c],
    {
    }

    pub open spec fn visited_at(self, r: int, c: int) -> bool {
        self.cell(r, c).visited
    }

    pub open spec fn conn_at(self, r: int, c: int, d: Direction) -> bool {
        conn_in(self.cell(r, c), d)
    }

    /// Border flags agree with the cell's position in the grid.
    pub open spec fn borders_ok(self) -> bool {
        forall|r: int, c: int|
            self.in_bounds(r, c) ==> {
                let cell = #[trigger] self.cell(r, c);
                &&& cell.border_west == (c == 0)
                &&& cell.border_north == (r == 0)
                &&& cell.border_east == (c == self.spec_cols() - 1)
                &&& cell.border_south == (r == self.spec_rows() - 1)
            }
    }

    /// Matching connection flags on the two sides of every interior wall.
    pub open spec fn sym_ok(self) -> bool {
        &&& forall|r: int, c: int|
            self.in_bounds(r, c) && c + 1 < self.spec_cols() ==> (#[trigger] self.cell(
                r,
                c,
            )).conn_east == self.cell(r, c + 1).conn_west
        &&& forall|r: int, c: int|
            self.in_bounds(r, c) && r + 1 < self.spec_rows() ==> (#[trigger] self.cell(
                r,
                c,
            )).conn_south == self.cell(r + 1, c).conn_north
    }

    /// No connection leads through the outer edge of the grid.
    pub open spec fn edges_closed(self) -> bool {
        forall|r: int, c: int|
            self.in_bounds(r, c) ==> {
                let cell = #[trigger] self.cell(r, c);
                &&& (c == 0 ==> !cell.conn_west)
                &&& (r == 0 ==> !cell.conn_north)
                &&& (c == self.spec_cols() - 1 ==> !cell.conn_east)
                &&& (r == self.spec_rows() - 1 ==> !cell.conn_south)
            }
    }

    pub open spec fn wf(self) -> bool {
        &&& 1 <= self.spec_rows()
        &&& 1 <= self.spec_cols()
        &&& self.spec_rows() <= usize::MAX
        &&& self.spec_cols() <= usize::MAX
        &&& self.cells_seq().len() == self.spec_rows() * self.spec_cols()
        &&& self.borders_ok()
        &&& self.sym_ok()
        &&& self.edges_closed()
    }

    pub open spec fn all_visited(self) -> bool {
        forall|r: int, c: int| self.in_bounds(r, c) ==> #[trigger] self.visited_at(r, c)
    }

    pub open spec fn all_unvisited(self) -> bool {
        forall|r: int, c: int| self.in_bounds(r, c) ==> !(#[trigger] self.visited_at(r, c))
    }

    pub open spec fn all_unconnected(self) -> bool {
        forall|r: int, c: int|
            self.in_bounds(r, c) ==> {
                let cell = #[trigger] self.cell(r, c);
                !cell.conn_west && !cell.conn_north && !cell.conn_east && !cell.conn_south
            }
    }

    pub fn rows(&self) -> (n: usize)
        ensures
            n == self.spec_rows(),
    {
        self.rows
    }

    pub fn cols(&self) -> (n: usize)
        ensures
            n == self.spec_cols(),
    {
        self.cols
    }

    /// Creates the grid: every cell unvisited and unconnected, border flags
    /// set from its position.
    pub fn new(rows: usize, cols: usize) -> (g: CellGraph)
        requires
            1 <= rows,
            1 <= cols,
            rows * cols <= usize::MAX,
        ensures
            g.wf(),
            g.spec_rows() == rows,
            g.spec_cols() == cols,
            g.all_unvisited(),
            g.all_unconnected(),
            count_conns(g.cells_seq()) == 0,
            count_visited(g.cells_seq()) == 0,
    {
        let mut cells: Vec<Cell> = Vec::new();
        let mut r: usize = 0;
        while r < rows
            invariant
                r <= rows,
                1 <= rows,
                1 <= cols,
                rows * cols <= usize::MAX,
                cells@.len() == r * cols,
                count_conns(cells@) == 0,
                count_visited(cells@) == 0,
                forall|i: int, j: int|
                    0 <= i < r && 0 <= j < cols ==> #[trigger] cells@[i * cols + j] == spec_fresh_cell(
                        i,
                        j,
                        rows as int,
                        cols as int,
                    ),
            decreases rows - r,
        {
            let mut c: usize = 0;
            while c < cols
                invariant
                    r < rows,
                    c <= cols,
                    1 <= rows,
                    1 <= cols,
                    rows * cols <= usize::MAX,
                    cells@.len() == r * cols + c,
                    count_conns(cells@) == 0,
                    count_visited(cells@) == 0,
                    forall|i: int, j: int|
                        0 <= i < r && 0 <= j < cols ==> #[trigger] cells@[i * cols + j]
                            == spec_fresh_cell(i, j, rows as int, cols as int),
                    forall|j: int|
                        0 <= j < c ==> #[trigger] cells@[r * cols + j] == spec_fresh_cell(
                            r as int,
                            j,
                            rows as int,
                            cols as int,
                        ),
                decreases cols - c,
            {
                proof {
                    lemma_grid_index_bound(rows as int, cols as int, r as int, c as int);
                    lemma_count_conns_push(
                        cells@,
                        spec_fresh_cell(r as int, c as int, rows as int, cols as int),
                    );
                    lemma_count_visited_push(
                        cells@,
                        spec_fresh_cell(r as int, c as int, rows as int, cols as int),
                    );
                }
                cells.push(
                    Cell {
                        border_west: c == 0,
                        border_north: r == 0,
                        border_east: c == cols - 1,
                        border_south: r == rows - 1,
                        conn_west: false,
                        conn_north: false,
                        conn_east: false,
                        conn_south: false,
                        visited: false,
                    },
                );
                c = c + 1;
                proof {
                    assert forall|i: int, j: int| 0 <= i < r && 0 <= j < cols implies #[trigger] cells@[i
                        * cols + j] == spec_fresh_cell(i, j, rows as int, cols as int) by {
                        lemma_grid_index_bound(r as int, cols as int, i, j);
                    }
                }
            }
            proof {
                assert((r + 1) * cols == r * cols + cols) by (nonlinear_arith);
            }
            r = r + 1;
        }
        let g = CellGraph { rows, cols, cells };
        proof {
            assert forall|r2: int, c2: int| g.in_bounds(r2, c2) implies #[trigger] g.cell(r2, c2)
                == spec_fresh_cell(r2, c2, rows as int, cols as int) by {
                lemma_grid_index_bound(rows as int, cols as int, r2, c2);
            }
        }
        g
    }
}

impl CellGraph {
    /// Total number of open passages in the grid, each counted once.
    pub fn connection_count(&self) -> (n: usize)
        requires
            self.wf(),
            self.spec_rows() * self.spec_cols() < usize::MAX / 2,
        ensures
            n == count_conns(self.cells_seq()),
    {
        let len = self.cells.len();
        let mut n: usize = 0;
        let mut i: usize = 0;
        while i < len
            invariant
                i <= len,
                len == self.cells@.len(),
                len < usize::MAX / 2,
                n == count_conns(self.cells@.take(i as int)),
                n <= 2 * i,
            decreases len - i,
        {
            proof {
                assert(self.cells@.take(i as int + 1) =~= self.cells@.take(i as int).push(
                    self.cells@[i as int],
                ));
                lemma_count_conns_push(self.cells@.take(i as int), self.cells@[i as int]);
            }
            let cell = self.cells[i];
            if cell.conn_east {
                n = n + 1;
            }
            if cell.conn_south {
                n = n + 1;
            }
            i = i + 1;
        }
        proof {
            assert(self.cells@.take(len as int) =~= self.cells@);
        }
        n
    }
}

/// A sequence has no duplicates after pushing an element it does not hold.
proof fn lemma_push_no_dup<A>(s: Seq<A>, v: A)
    requires
        s.no_duplicates(),
        !s.contains(v),
    ensures
        s.push(v).no_duplicates(),
{
    assert forall|i: int, j: int|
        0 <= i < s.push(v).len() && 0 <= j < s.push(v).len() && i != j implies s.push(v)[i]
        != s.push(v)[j] by {
        if i < s.len() && j < s.len() {
        } else if i < s.len() {
            assert(s.contains(s[i]));
        } else if j < s.len() {
            assert(s.contains(s[j]));
        }
    }
}

/// The in-bounds positions grid-adjacent to `cell`: for each side without a
/// border, the position one step out on that side.
#[verifier::rlimit(50)]
pub fn get_heighbors(grid: &CellGraph, cell: (usize, usize)) -> (res: Vec<(usize, usize)>)
    requires
        grid.wf(),
        grid.in_bounds(cell.0 as int, cell.1 as int),
    ensures
        forall|p: (usize, usize)|
            #[trigger] res@.contains(p) <==> (grid.in_bounds(p.0 as int, p.1 as int) && adjacent(
                cell.0 as int,
                cell.1 as int,
                p.0 as int,
                p.1 as int,
            )),
        res@.no_duplicates(),
{
    let y = cell.0;
    let x = cell.1;
    let i = grid.index_of(y, x);
    let cur = grid.cells[i];
    proof {
        assert(cur == grid.cell(y as int, x as int));
        assert(cur.border_west == (x as int == 0));
        assert(cur.border_north == (y as int == 0));
        assert(cur.border_east == (x as int == grid.spec_cols() - 1));
        assert(cur.border_south == (y as int == grid.spec_rows() - 1));
    }
    let mut res: Vec<(usize, usize)> = Vec::new();
    if !cur.border_west {
        res.push((y, x - 1));
    }
    let ghost s1 = res@;
    if !cur.border_north {
        res.push((y - 1, x));
    }
    let ghost s2 = res@;
    if !cur.border_east {
        res.push((y, x + 1));
    }
    let ghost s3 = res@;
    if !cur.border_south {
        res.push((y + 1, x));
    }
    proof {
        broadcast use vstd::seq_lib::lemma_seq_contains_after_push;

        assert(forall|p: (usize, usize)|
            #[trigger] s1.contains(p) <==> (!cur.border_west && p == (y, (x - 1) as usize)));
        assert(forall|p: (usize, usize)|
            #[trigger] s2.contains(p) <==> (s1.contains(p) || (!cur.border_north && p == ((y - 1)
                as usize,
            x))));
        assert(forall|p: (usize, usize)|
            #[trigger] s3.contains(p) <==> (s2.contains(p) || (!cur.border_east && p == (y, (x + 1)
                as usize))));
        assert(forall|p: (usize, usize)|
            #[trigger] res@.contains(p) <==> (s3.contains(p) || (!cur.border_south && p == ((y + 1)
                as usize,
            x))));
        assert(s1.no_duplicates());
        assert(s2.no_duplicates()) by {
            if !cur.border_north {
                assert(!s1.contains(((y - 1) as usize, x)));
                lemma_push_no_dup(s1, ((y - 1) as usize, x));
            }
        }
        assert(s3.no_duplicates()) by {
            if !cur.border_east {
                assert(!s2.contains((y, (x + 1) as usize)));
                lemma_push_no_dup(s2, (y, (x + 1) as usize));
            }
        }
        assert(res@.no_duplicates()) by {
            if !cur.border_south {
                assert(!s3.contains(((y + 1) as usize, x)));
                lemma_push_no_dup(s3, ((y + 1) as usize, x));
            }
        }
        assert forall|p: (usize, usize)|
            #[trigger] res@.contains(p) <==> (grid.in_bounds(p.0 as int, p.1 as int) && adjacent(
                y as int,
                x as int,
                p.0 as int,
                p.1 as int,
            )) by {
            if grid.in_bounds(p.0 as int, p.1 as int) && adjacent(
                y as int,
                x as int,
                p.0 as int,
                p.1 as int,
            ) {
                if p.0 as int == y as int && p.1 as int == x as int - 1 {
                    assert(p == (y, (x - 1) as usize));
                    assert(res@.contains(p));
                } else if p.0 as int == y as int - 1 && p.1 as int == x as int {
                    assert(p == ((y - 1) as usize, x));
                    assert(res@.contains(p));
                } else if p.0 as int == y as int && p.1 as int == x as int + 1 {
                    assert(p == (y, (x + 1) as usize));
                    assert(res@.contains(p));
                } else {
                    assert(p.0 as int == y as int + 1 && p.1 as int == x as int);
                    assert(p == ((y + 1) as usize, x));
                    assert(res@.contains(p));
                }
            }
        }
    }
    res
}

/// Law: the two sides of one shared wall agree, a cell is open toward its
/// neighbor exactly when the neighbor is open toward it.
pub proof fn lemma_connection_symmetry(g: CellGraph, r1: int, c1: int, r2: int, c2: int)
    requires
        g.wf(),
        g.in_bounds(r1, c1),
        g.in_bounds(r2, c2),
        adjacent(r1, c1, r2, c2),
    ensures
        g.conn_at(r1, c1, dir_from(r1, c1, r2, c2)) == g.conn_at(r2, c2, dir_from(r2, c2, r1, c1)),
{
    if r2 == r1 - 1 {
        assert(g.cell(r2, c2).conn_south == g.cell(r1, c1).conn_north);
    } else if r2 == r1 + 1 {
        assert(g.cell(r1, c1).conn_south == g.cell(r2, c2).conn_north);
    } else if c2 == c1 + 1 {
        assert(g.cell(r1, c1).conn_east == g.cell(r2, c2).conn_west);
    } else {
        assert(g.cell(r2, c2).conn_east == g.cell(r1, c1).conn_west);
    }
}

/// The cell that `CellGraph::new` places at (r, c) in a rows-by-cols grid.
pub open spec fn spec_fresh_cell(r: int, c: int, rows: int, cols: int) -> Cell {
    Cell {
        border_west: c == 0,
        border_north: r == 0,
        border_east: c == cols - 1,
        border_south: r == rows - 1,
        conn_west: false,
        conn_north: false,
        conn_east: false,
        conn_south: false,
        visited: false,
    }
}

impl CellGraph {
    /// Flat index of the cell at (r, c).
    fn index_of(&self, r: usize, c: usize) -> (i: usize)
        requires
            self.in_bounds(r as int, c as int),
            self.cells_seq().len() == self.spec_rows() * self.spec_cols(),
        ensures
            i == r * self.spec_cols() + c,
            i < self.cells_seq().len(),
    {
        let n = self.cells.len();
        proof {
            lemma_grid_index_bound(self.spec_rows(), self.spec_cols(), r as int, c as int);
        }
        r * self.cols + c
    }

    pub fn is_visited(&self, r: usize, c: usize) -> (v: bool)
        requires
            self.in_bounds(r as int, c as int),
            self.cells_seq().len() == self.spec_rows() * self.spec_cols(),
        ensures
            v == self.visited_at(r as int, c as int),
    {
        let i = self.index_of(r, c);
        self.cells[i].visited
    }

    pub fn is_connected(&self, r: usize, c: usize, d: Direction) -> (v: bool)
        requires
            self.in_bounds(r as int, c as int),
            self.cells_seq().len() == self.spec_rows() * self.spec_cols(),
        ensures
            v == self.conn_at(r as int, c as int, d),
    {
        let i = self.index_of(r, c);
        let cell = self.cells[i];
        match d {
            Direction::North => cell.conn_north,
            Direction::East => cell.conn_east,
            Direction::South => cell.conn_south,
            Direction::West => cell.conn_west,
        }
    }

    /// Marks the cell at `pos` visited and changes nothing else.
    pub fn mark_visited(&mut self, pos: (usize, usize))
        requires
            old(self).wf(),
            old(self).in_bounds(pos.0 as int, pos.1 as int),
        ensures
            final(self).wf(),
            final(self).spec_rows() == old(self).spec_rows(),
            final(self).spec_cols() == old(self).spec_cols(),
            final(self).cell(pos.0 as int, pos.1 as int) == spec_mark_visited(
                old(self).cell(pos.0 as int, pos.1 as int),
            ),
            forall|r: int, c: int|
                final(self).in_bounds(r, c) && !(r == pos.0 as int && c == pos.1 as int)
                    ==> #[trigger] final(self).cell(r, c) == old(self).cell(r, c),
            count_conns(final(self).cells_seq()) == count_conns(old(self).cells_seq()),
            count_visited(final(self).cells_seq()) == count_visited(old(self).cells_seq()) + (
            if old(self).visited_at(pos.0 as int, pos.1 as int) {
                0int
            } else {
                1int
            }),
    {
        let i = self.index_of(pos.0, pos.1);
        let mut cell = self.cells[i];
        cell.visited = true;
        proof {
            lemma_count_conns_update(self.cells@, i as int, spec_mark_visited(self.cells@[i as int]));
            lemma_count_visited_update(
                self.cells@,
                i as int,
                spec_mark_visited(self.cells@[i as int]),
            );
        }
        self.cells[i] = cell;
        proof {
            assert forall|r: int, c: int|
                self.in_bounds(r, c) && !(r == pos.0 as int && c == pos.1 as int) implies #[trigger] self.cell(
                r,
                c,
            ) == old(self).cell(r, c) by {
                lemma_grid_index_bound(self.spec_rows(), self.spec_cols(), r, c);
                lemma_grid_index_bound(
                    self.spec_rows(),
                    self.spec_cols(),
                    pos.0 as int,
                    pos.1 as int,
                );
            }
            assert(self.cell(pos.0 as int, pos.1 as int) == spec_mark_visited(
                old(self).cell(pos.0 as int, pos.1 as int),
            ));
            lemma_wf_same_flags(*old(self), *self);
        }
    }

    /// Opens the passage between cells `a` and `b`: sets the matching
    /// connection flag on each of the two, and nothing else. Rejected with
    /// `InvalidConnection` when the two cells are not grid-adjacent.
    #[verifier::rlimit(100)]
    pub fn connect(&mut self, a: (usize, usize), b: (usize, usize)) -> (res: Result<
        (),
        MazeError,
    >)
        requires
            old(self).wf(),
            old(self).in_bounds(a.0 as int, a.1 as int),
            old(self).in_bounds(b.0 as int, b.1 as int),
        ensures
            final(self).wf(),
            final(self).spec_rows() == old(self).spec_rows(),
            final(self).spec_cols() == old(self).spec_cols(),
            !adjacent(a.0 as int, a.1 as int, b.0 as int, b.1 as int) ==> res == Err::<
                (),
                MazeError,
            >(MazeError::InvalidConnection) && *final(self) == *old(self),
            adjacent(a.0 as int, a.1 as int, b.0 as int, b.1 as int) ==> {
                let d = dir_from(a.0 as int, a.1 as int, b.0 as int, b.1 as int);
                &&& res == Ok::<(), MazeError>(())
                &&& final(self).cell(a.0 as int, a.1 as int) == spec_with_conn(
                    old(self).cell(a.0 as int, a.1 as int),
                    d,
                )
                &&& final(self).cell(b.0 as int, b.1 as int) == spec_with_conn(
                    old(self).cell(b.0 as int, b.1 as int),
                    opposite(d),
                )
                &&& forall|r: int, c: int|
                    final(self).in_bounds(r, c) && !(r == a.0 as int && c == a.1 as int) && !(r
                        == b.0 as int && c == b.1 as int) ==> #[trigger] final(self).cell(r, c) == old(
                        self,
                    ).cell(r, c)
                &&& count_conns(final(self).cells_seq()) == count_conns(old(self).cells_seq()) + (
                if old(self).conn_at(a.0 as int, a.1 as int, d) {
                    0int
                } else {
                    1int
                })
            },
            count_visited(final(self).cells_seq()) == count_visited(old(self).cells_seq()),
            forall|r: int, c: int|
                final(self).in_bounds(r, c) ==> #[trigger] final(self).visited_at(r, c) == old(self).visited_at(
                    r,
                    c,
                ),
    {
        let (ar, ac) = a;
        let (br, bc) = b;
        let dir_opt: Option<Direction> = if ar == br && bc == ac + 1 {
            Some(Direction::East)
        } else if ar == br && ac == bc + 1 {
            Some(Direction::West)
        } else if ac == bc && br == ar + 1 {
            Some(Direction::South)
        } else if ac == bc && ar == br + 1 {
            Some(Direction::North)
        } else {
            None
        };
        match dir_opt {
            None => {
                assert(!adjacent(ar as int, ac as int, br as int, bc as int));
                Err(MazeError::InvalidConnection)
            },
            Some(d) => {
                let ghost old_g = *self;
                proof {
                    assert(d == dir_from(ar as int, ac as int, br as int, bc as int));
                }
                let ia = self.index_of(ar, ac);
                let ib = self.index_of(br, bc);
                let mut ca = self.cells[ia];
                let mut cb = self.cells[ib];
                ca = with_conn(ca, d);
                cb = with_conn(cb, opposite_of(d));
                self.cells[ia] = ca;
                self.cells[ib] = cb;
                proof {
                    lemma_connect_update(old_g, *self, ar as int, ac as int, br as int, bc as int);
                }
                Ok(())
            },
        }
    }
}

/// The given cell with its `visited` flag set.
pub open spec fn spec_mark_visited(cell: Cell) -> Cell {
    Cell { visited: true, ..cell }
}

/// The given cell with its connection flag on side `d` set.
pub open spec fn spec_with_conn(cell: Cell, d: Direction) -> Cell {
    match d {
        Direction::North => Cell { conn_north: true, ..cell },
        Direction::East => Cell { conn_east: true, ..cell },
        Direction::South => Cell { conn_south: true, ..cell },
        Direction::West => Cell { conn_west: true, ..cell },
    }
}

/// The direction that leads from cell (r1, c1) to an adjacent cell (r2, c2).
pub open spec fn dir_from(r1: int, c1: int, r2: int, c2: int) -> Direction {
    if r2 == r1 - 1 {
        Direction::North
    } else if r2 == r1 + 1 {
        Direction::South
    } else if c2 == c1 + 1 {
        Direction::East
    } else {
        Direction::West
    }
}

pub open spec fn opposite(d: Direction) -> Direction {
    match d {
        Direction::North => Direction::South,
        Direction::South => Direction::North,
        Direction::East => Direction::West,
        Direction::West => Direction::East,
    }
}

/// Executable twin of `opposite`.
pub fn opposite_of(d: Direction) -> (r: Direction)
    ensures
        r == opposite(d),
{
    match d {
        Direction::North => Direction::South,
        Direction::South => Direction::North,
        Direction::East => Direction::West,
        Direction::West => Direction::East,
    }
}

/// Executable twin of `spec_with_conn`.
fn with_conn(cell: Cell, d: Direction) -> (r: Cell)
    ensures
        r == spec_with_conn(cell, d),
{
    let mut out = cell;
    match d {
        Direction::North => out.conn_north = true,
        Direction::East => out.conn_east = true,
        Direction::South => out.conn_south = true,
        Direction::West => out.conn_west = true,
    }
    out
}

/// Whether two cells carry the same border and connection flags, whatever
/// their visited marks.
pub open spec fn same_flags(c1: Cell, c2: Cell) -> bool {
    &&& c1.border_west == c2.border_west
    &&& c1.border_north == c2.border_north
    &&& c1.border_east == c2.border_east
    &&& c1.border_south == c2.border_south
    &&& c1.conn_west == c2.conn_west
    &&& c1.conn_north == c2.conn_north
    &&& c1.conn_east == c2.conn_east
    &&& c1.conn_south == c2.conn_south
}

/// A change that leaves every cell's border and connection flags in place
/// preserves well-formedness.
pub proof fn lemma_wf_same_flags(g1: CellGraph, g2: CellGraph)
    requires
        g1.wf(),
        g2.spec_rows() == g1.spec_rows(),
        g2.spec_cols() == g1.spec_cols(),
        g2.cells_seq().len() == g1.cells_seq().len(),
        forall|r: int, c: int|
            g1.in_bounds(r, c) ==> same_flags(#[trigger] g2.cell(r, c), g1.cell(r, c)),
    ensures
        g2.wf(),
{
    assert forall|r: int, c: int| g2.in_bounds(r, c) implies {
        let cell = #[trigger] g2.cell(r, c);
        &&& cell.border_west == (c == 0)
        &&& cell.border_north == (r == 0)
        &&& cell.border_east == (c == g2.spec_cols() - 1)
        &&& cell.border_south == (r == g2.spec_rows() - 1)
        &&& (c == 0 ==> !cell.conn_west)
        &&& (r == 0 ==> !cell.conn_north)
        &&& (c == g2.spec_cols() - 1 ==> !cell.conn_east)
        &&& (r == g2.spec_rows() - 1 ==> !cell.conn_south)
    } by {
        assert(g1.in_bounds(r, c));
        assert(same_flags(g2.cell(r, c), g1.cell(r, c)));
    }
    assert forall|r: int, c: int|
        g2.in_bounds(r, c) && c + 1 < g2.spec_cols() implies (#[trigger] g2.cell(r, c)).conn_east
        == g2.cell(r, c + 1).conn_west by {
        assert(g1.in_bounds(r, c) && g1.in_bounds(r, c + 1));
        assert(same_flags(g2.cell(r, c), g1.cell(r, c)));
        assert(same_flags(g2.cell(r, c + 1), g1.cell(r, c + 1)));
        assert(g1.cell(r, c).conn_east == g1.cell(r, c + 1).conn_west);
    }
    assert forall|r: int, c: int|
        g2.in_bounds(r, c) && r + 1 < g2.spec_rows() implies (#[trigger] g2.cell(r, c)).conn_south
        == g2.cell(r + 1, c).conn_north by {
        assert(g1.in_bounds(r, c) && g1.in_bounds(r + 1, c));
        assert(same_flags(g2.cell(r, c), g1.cell(r, c)));
        assert(same_flags(g2.cell(r + 1, c), g1.cell(r + 1, c)));
        assert(g1.cell(r, c).conn_south == g1.cell(r + 1, c).conn_north);
    }
}

/// What `connect` does to a well-formed grid when the two cells are
/// adjacent: the two facing connection flags come on, nothing else moves,
/// the connection count grows by one when the passage was closed, and the
/// grid stays well-formed.
proof fn lemma_connect_update(g1: CellGraph, g2: CellGraph, ar: int, ac: int, br: int, bc: int)
    requires
        g1.wf(),
        g1.in_bounds(ar, ac),
        g1.in_bounds(br, bc),
        adjacent(ar, ac, br, bc),
        g2.spec_rows() == g1.spec_rows(),
        g2.spec_cols() == g1.spec_cols(),
        g2.cells_seq() == g1.cells_seq().update(
            ar * g1.spec_cols() + ac,
            spec_with_conn(g1.cell(ar, ac), dir_from(ar, ac, br, bc)),
        ).update(
            br * g1.spec_cols() + bc,
            spec_with_conn(g1.cell(br, bc), opposite(dir_from(ar, ac, br, bc))),
        ),
    ensures
        g2.wf(),
        g2.cell(ar, ac) == spec_with_conn(g1.cell(ar, ac), dir_from(ar, ac, br, bc)),
        g2.cell(br, bc) == spec_with_conn(g1.cell(br, bc), opposite(dir_from(ar, ac, br, bc))),
        forall|r: int, c: int|
            g1.in_bounds(r, c) && !(r == ar && c == ac) && !(r == br && c == bc)
                ==> #[trigger] g2.cell(r, c) == g1.cell(r, c),
        count_conns(g2.cells_seq()) == count_conns(g1.cells_seq()) + (if conn_in(
            g1.cell(ar, ac),
            dir_from(ar, ac, br, bc),
        ) {
            0int
        } else {
            1int
        }),
        count_visited(g2.cells_seq()) == count_visited(g1.cells_seq()),
        forall|r: int, c: int|
            g1.in_bounds(r, c) ==> #[trigger] g2.visited_at(r, c) == g1.visited_at(r, c),
{
    let d = dir_from(ar, ac, br, bc);
    let va = spec_with_conn(g1.cell(ar, ac), d);
    let vb = spec_with_conn(g1.cell(br, bc), opposite(d));
    lemma_two_cell_update(g1, g2, ar, ac, va, br, bc, vb);
    assert(count_conns(g2.cells_seq()) == count_conns(g1.cells_seq()) + (if conn_in(
        g1.cell(ar, ac),
        d,
    ) {
        0int
    } else {
        1int
    })) by {
        let ca = g1.cell(ar, ac);
        let cb = g1.cell(br, bc);
        match d {
            Direction::East => {
                assert(cell_es(va) == cell_es(ca) + (if ca.conn_east {
                    0int
                } else {
                    1int
                }));
                assert(cell_es(vb) == cell_es(cb));
            },
            Direction::West => {
                assert(br == ar && bc == ac - 1);
                assert(cb.conn_east == ca.conn_west);
                assert(cell_es(vb) == cell_es(cb) + (if ca.conn_west {
                    0int
                } else {
                    1int
                }));
                assert(cell_es(va) == cell_es(ca));
            },
            Direction::South => {
                assert(cell_es(va) == cell_es(ca) + (if ca.conn_south {
                    0int
                } else {
                    1int
                }));
                assert(cell_es(vb) == cell_es(cb));
            },
            Direction::North => {
                assert(br == ar - 1 && bc == ac);
                assert(cb.conn_south == ca.conn_north);
                assert(cell_es(vb) == cell_es(cb) + (if ca.conn_north {
                    0int
                } else {
                    1int
                }));
                assert(cell_es(va) == cell_es(ca));
            },
        }
    }
    lemma_connect_wf(g1, g2, ar, ac, br, bc);
}

/// The relation between a grid and its successor after one `connect`: only
/// the two facing connection flags changed.
spec fn connect_shape(g1: CellGraph, g2: CellGraph, ar: int, ac: int, br: int, bc: int) -> bool {
    &&& g1.wf()
    &&& g1.in_bounds(ar, ac)
    &&& g1.in_bounds(br, bc)
    &&& adjacent(ar, ac, br, bc)
    &&& g2.spec_rows() == g1.spec_rows()
    &&& g2.spec_cols() == g1.spec_cols()
    &&& g2.cells_seq().len() == g1.cells_seq().len()
    &&& g2.cell(ar, ac) == spec_with_conn(g1.cell(ar, ac), dir_from(ar, ac, br, bc))
    &&& g2.cell(br, bc) == spec_with_conn(g1.cell(br, bc), opposite(dir_from(ar, ac, br, bc)))
    &&& forall|r: int, c: int|
        g1.in_bounds(r, c) && !(r == ar && c == ac) && !(r == br && c == bc)
            ==> #[trigger] g2.cell(r, c) == g1.cell(r, c)
}

/// Well-formedness survives opening one passage between adjacent cells.
proof fn lemma_connect_wf(g1: CellGraph, g2: CellGraph, ar: int, ac: int, br: int, bc: int)
    requires
        connect_shape(g1, g2, ar, ac, br, bc),
    ensures
        g2.wf(),
{
    lemma_connect_borders(g1, g2, ar, ac, br, bc);
    lemma_connect_sym_east(g1, g2, ar, ac, br, bc);
    lemma_connect_sym_south(g1, g2, ar, ac, br, bc);
}

/// Border flags and the closed outer edge survive opening one passage.
#[verifier::rlimit(100)]
proof fn lemma_connect_borders(g1: CellGraph, g2: CellGraph, ar: int, ac: int, br: int, bc: int)
    requires
        connect_shape(g1, g2, ar, ac, br, bc),
    ensures
        g2.borders_ok(),
        g2.edges_closed(),
{
    assert forall|r: int, c: int| g2.in_bounds(r, c) implies {
        let cell = #[trigger] g2.cell(r, c);
        &&& cell.border_west == (c == 0)
        &&& cell.border_north == (r == 0)
        &&& cell.border_east == (c == g2.spec_cols() - 1)
        &&& cell.border_south == (r == g2.spec_rows() - 1)
        &&& (c == 0 ==> !cell.conn_west)
        &&& (r == 0 ==> !cell.conn_north)
        &&& (c == g2.spec_cols() - 1 ==> !cell.conn_east)
        &&& (r == g2.spec_rows() - 1 ==> !cell.conn_south)
    } by {
        assert(g1.in_bounds(r, c));
        assert(g1.borders_ok());
        assert(g1.edges_closed());
    }
}

/// The east-west side of symmetry survives opening one passage.
#[verifier::rlimit(100)]
proof fn lemma_connect_sym_east(g1: CellGraph, g2: CellGraph, ar: int, ac: int, br: int, bc: int)
    requires
        connect_shape(g1, g2, ar, ac, br, bc),
    ensures
        forall|r: int, c: int|
            g2.in_bounds(r, c) && c + 1 < g2.spec_cols() ==> (#[trigger] g2.cell(r, c)).conn_east
                == g2.cell(r, c + 1).conn_west,
{
    assert forall|r: int, c: int|
        g2.in_bounds(r, c) && c + 1 < g2.spec_cols() implies (#[trigger] g2.cell(r, c)).conn_east
        == g2.cell(r, c + 1).conn_west by {
        assert(g1.in_bounds(r, c) && g1.in_bounds(r, c + 1));
        assert(g1.cell(r, c).conn_east == g1.cell(r, c + 1).conn_west);
    }
}

/// The north-south side of symmetry survives opening one passage.
#[verifier::rlimit(100)]
proof fn lemma_connect_sym_south(g1: CellGraph, g2: CellGraph, ar: int, ac: int, br: int, bc: int)
    requires
        connect_shape(g1, g2, ar, ac, br, bc),
    ensures
        forall|r: int, c: int|
            g2.in_bounds(r, c) && r + 1 < g2.spec_rows() ==> (#[trigger] g2.cell(r, c)).conn_south
                == g2.cell(r + 1, c).conn_north,
{
    assert forall|r: int, c: int|
        g2.in_bounds(r, c) && r + 1 < g2.spec_rows() implies (#[trigger] g2.cell(r, c)).conn_south
        == g2.cell(r + 1, c).conn_north by {
        assert(g1.in_bounds(r, c) && g1.in_bounds(r + 1, c));
        assert(g1.cell(r, c).conn_south == g1.cell(r + 1, c).conn_north);
    }
}

/// In a grid of at least one row and one column, neither dimension exceeds
/// the cell count.
pub proof fn lemma_dims_le_product(rows: int, cols: int)
    by (nonlinear_arith)
    requires
        1 <= rows,
        1 <= cols,
    ensures
        rows <= rows * cols,
        cols <= rows * cols,
{
}

/// Updating the two distinct cells at (ar, ac) and (br, bc) leaves every
/// other cell in place and shifts the counts by those two cells' shares.
proof fn lemma_two_cell_update(
    g1: CellGraph,
    g2: CellGraph,
    ar: int,
    ac: int,
    va: Cell,
    br: int,
    bc: int,
    vb: Cell,
)
    requires
        g1.cells_seq().len() == g1.spec_rows() * g1.spec_cols(),
        g1.in_bounds(ar, ac),
        g1.in_bounds(br, bc),
        !(ar == br && ac == bc),
        g2.spec_rows() == g1.spec_rows(),
        g2.spec_cols() == g1.spec_cols(),
        g2.cells_seq() == g1.cells_seq().update(ar * g1.spec_cols() + ac, va).update(
            br * g1.spec_cols() + bc,
            vb,
        ),
    ensures
        g2.cells_seq().len() == g1.cells_seq().len(),
        g2.cell(ar, ac) == va,
        g2.cell(br, bc) == vb,
        forall|r: int, c: int|
            g1.in_bounds(r, c) && !(r == ar && c == ac) && !(r == br && c == bc)
                ==> #[trigger] g2.cell(r, c) == g1.cell(r, c),
        count_conns(g2.cells_seq()) == count_conns(g1.cells_seq()) - cell_es(g1.cell(ar, ac))
            + cell_es(va) - cell_es(g1.cell(br, bc)) + cell_es(vb),
        count_visited(g2.cells_seq()) == count_visited(g1.cells_seq()) - (if g1.cell(
            ar,
            ac,
        ).visited {
            1int
        } else {
            0int
        }) + (if va.visited {
            1int
        } else {
            0int
        }) - (if g1.cell(br, bc).visited {
            1int
        } else {
            0int
        }) + (if vb.visited {
            1int
        } else {
            0int
        }),
{
    let cols = g1.spec_cols();
    let rows = g1.spec_rows();
    let ia = ar * cols + ac;
    let ib = br * cols + bc;
    lemma_grid_index_bound(rows, cols, ar, ac);
    lemma_grid_index_bound(rows, cols, br, bc);
    assert(ia != ib);
    let mid = g1.cells_seq().update(ia, va);
    lemma_count_conns_update(g1.cells_seq(), ia, va);
    lemma_count_conns_update(mid, ib, vb);
    lemma_count_visited_update(g1.cells_seq(), ia, va);
    lemma_count_visited_update(mid, ib, vb);
    assert forall|r: int, c: int|
        g1.in_bounds(r, c) && !(r == ar && c == ac) && !(r == br && c == bc) implies #[trigger] g2.cell(
        r,
        c,
    ) == g1.cell(r, c) by {
        lemma_grid_index_bound(rows, cols, r, c);
    }
}

/// Row-major indexing stays inside the grid, and the index determines the
/// position: r * cols + c recovers r and c when c is a valid column.
pub proof fn lemma_grid_index_bound(rows: int, cols: int, r: int, c: int)
    by (nonlinear_arith)
    requires
        0 <= r < rows,
        0 <= c < cols,
    ensures
        0 <= r * cols + c < rows * cols,
        forall|r2: int, c2: int|
            0 <= r2 && 0 <= c2 < cols && #[trigger] (r2 * cols + c2) == r * cols + c ==> r2 == r
                && c2 == c,
{
}

} // verus!
