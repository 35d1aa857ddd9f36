//! Navigation over the tile grid: a cursor that starts on the entry tile,
//! moves only onto in-bounds path tiles, and finishes on reaching the exit.

use vstd::prelude::*;

use crate::cell_graph::step_c;
use crate::cell_graph::step_r;
use crate::cell_graph::Direction;
use crate::tile_grid::TileGrid;
use crate::tile_grid::TileKind;

verus! {

/// The tile one step in direction `d` from (r, c).
pub open spec fn step_pos(r: int, c: int, d: Direction) -> (int, int) {
    (r + step_r(d), c + step_c(d))
}

/// Whether a move in direction `d` from (r, c) lands on an in-bounds path
/// tile.
pub open spec fn can_move(t: TileGrid, r: int, c: int, d: Direction) -> bool {
    let p = step_pos(r, c, d);
    t.in_bounds(p.0, p.1) && t.tile(p.0, p.1) == TileKind::Path
}

/// The cursor over a tile grid, with its goal.
pub struct Navigator {
    cursor: (usize, usize),
    target: (usize, usize),
    finished: bool,
}

impl Navigator {
    pub closed spec fn spec_cursor(self) -> (int, int) {
        (self.cursor.0 as int, self.cursor.1 as int)
    }

    pub closed spec fn spec_target(self) -> (int, int) {
        (self.target.0 as int, self.target.1 as int)
    }

    pub closed spec fn spec_finished(self) -> bool {
        self.finished
    }

    /// The cursor always addresses an in-bounds path tile, and the target is
    /// the grid's exit.
    pub open spec fn wf(self, t: TileGrid) -> bool {
        &&& t.in_bounds(self.spec_cursor().0, self.spec_cursor().1)
        &&& t.tile(self.spec_cursor().0, self.spec_cursor().1) == TileKind::Path
        &&& self.spec_target() == t.spec_exit()
    }

    /// Starts a session: the cursor on the entry tile, the exit as target,
    /// nothing finished yet.
    pub fn new(t: &TileGrid) -> (nav: Navigator)
        requires
            t.wf(),
        ensures
            nav.wf(*t),
            nav.spec_cursor() == t.spec_entry(),
            nav.spec_target() == t.spec_exit(),
            !nav.spec_finished(),
    {
        Navigator { cursor: t.entry_pos(), target: t.exit_pos(), finished: false }
    }

    pub fn cursor(&self) -> (p: (usize, usize))
        ensures
            (p.0 as int, p.1 as int) == self.spec_cursor(),
    {
        self.cursor
    }

    pub fn target(&self) -> (p: (usize, usize))
        ensures
            (p.0 as int, p.1 as int) == self.spec_target(),
    {
        self.target
    }

    pub fn finished(&self) -> (b: bool)
        ensures
            b == self.spec_finished(),
    {
        self.finished
    }

    /// One validated move. The cursor advances exactly when the session is
    /// not finished and the tile one step in `dir` is an in-bounds path
    /// tile; a move off the grid or into a wall changes nothing. Reaching
    /// the target ends the session.
    pub fn attempt_move(&mut self, t: &TileGrid, dir: Direction) -> (moved: bool)
        requires
            t.wf(),
            old(self).wf(*t),
        ensures
            final(self).wf(*t),
            moved == (!old(self).spec_finished() && can_move(
                *t,
                old(self).spec_cursor().0,
                old(self).spec_cursor().1,
                dir,
            )),
            moved ==> {
                &&& final(self).spec_cursor() == step_pos(
                    old(self).spec_cursor().0,
                    old(self).spec_cursor().1,
                    dir,
                )
                &&& final(self).spec_target() == old(self).spec_target()
                &&& final(self).spec_finished() == (final(self).spec_cursor()
                    == final(self).spec_target())
            },
            !moved ==> *final(self) == *old(self),
    {
        if self.finished {
            return false;
        }
        let (r, c) = self.cursor;
        let cand: Option<(usize, usize)> = match dir {
            Direction::North => if r == 0 {
                None
            } else {
                Some((r - 1, c))
            },
            Direction::South => if r + 1 >= t.rows() {
                None
            } else {
                Some((r + 1, c))
            },
            Direction::East => if c + 1 >= t.cols() {
                None
            } else {
                Some((r, c + 1))
            },
            Direction::West => if c == 0 {
                None
            } else {
                Some((r, c - 1))
            },
        };
        match cand {
            None => false,
            Some(p) => {
                if t.tile_at(p.0, p.1) == TileKind::Path {
                    self.cursor = p;
                    if p.0 == self.target.0 && p.1 == self.target.1 {
                        self.finished = true;
                    }
                    true
                } else {
                    false
                }
            },
        }
    }
}

} // verus!
