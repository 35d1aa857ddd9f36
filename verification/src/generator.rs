//! The maze generator: a randomized depth-first traversal that visits every
//! cell once and opens a passage to each cell on first visit, so that the
//! finished connection relation is a spanning tree of the grid.

use vstd::prelude::*;

use rand::seq::SliceRandom;

use crate::cell_graph::adjacent;
use crate::cell_graph::conn_in;
use crate::cell_graph::dir_from;
use crate::cell_graph::get_heighbors;
use crate::cell_graph::lemma_grid_index_bound;
use crate::cell_graph::lemma_connection_symmetry;
use crate::cell_graph::opposite;
use crate::cell_graph::spec_mark_visited;
use crate::cell_graph::spec_with_conn;
use crate::cell_graph::CellGraph;
use crate::cell_graph::MazeError;
use crate::counting::count_conns;
use crate::counting::count_visited;
use crate::counting::lemma_count_visited_full_grid;
use crate::counting::lemma_count_visited_missing;
use crate::counting::lemma_counts_fresh_grid;
use crate::paths::conn_le;
use crate::paths::lemma_reachable_mono;
use crate::paths::lemma_reachable_refl;
use crate::paths::lemma_reachable_step;
use crate::paths::open_between;
use crate::paths::reachable;

verus! {

#[verifier::external_type_specification]
#[verifier::external_body]
pub struct ExStdRng(rand::rngs::StdRng);

/// Relies on rand's SliceRandom::shuffle: a Fisher-Yates pass of in-place
/// swaps, so the slice afterwards holds exactly the elements it held before,
/// in some order.
#[verifier::external_body]
fn shuffle_positions(v: &mut Vec<(usize, usize)>, rng: &mut rand::rngs::StdRng)
    ensures
        final(v)@.to_multiset() == old(v)@.to_multiset(),
        final(v)@.len() == old(v)@.len(),
{
    v.as_mut_slice().shuffle(rng);
}

/// Picks one position whose cell is still unvisited, uniformly at random
/// from those in `neighbors`; nothing when every listed cell is visited.
pub fn find_unvisited_neighbor(
    grid: &CellGraph,
    neighbors: &Vec<(usize, usize)>,
    rng: &mut rand::rngs::StdRng,
) -> (res: Option<(usize, usize)>)
    requires
        grid.wf(),
        forall|j: int|
            0 <= j < neighbors@.len() ==> grid.in_bounds(
                (#[trigger] neighbors@[j]).0 as int,
                neighbors@[j].1 as int,
            ),
    ensures
        match res {
            Some(p) => neighbors@.contains(p) && !grid.visited_at(p.0 as int, p.1 as int),
            None => forall|j: int|
                0 <= j < neighbors@.len() ==> grid.visited_at(
                    (#[trigger] neighbors@[j]).0 as int,
                    neighbors@[j].1 as int,
                ),
        },
{
    let n = neighbors.len();
    let mut unvisited: Vec<(usize, usize)> = Vec::new();
    let mut i: usize = 0;
    while i < n
        invariant
            i <= n,
            n == neighbors@.len(),
            grid.cells_seq().len() == grid.spec_rows() * grid.spec_cols(),
            forall|j: int|
                0 <= j < neighbors@.len() ==> grid.in_bounds(
                    (#[trigger] neighbors@[j]).0 as int,
                    neighbors@[j].1 as int,
                ),
            forall|j: int|
                0 <= j < unvisited@.len() ==> neighbors@.contains(#[trigger] unvisited@[j])
                    && !grid.visited_at(unvisited@[j].0 as int, unvisited@[j].1 as int),
            forall|j: int|
                0 <= j < i ==> grid.visited_at(
                    (#[trigger] neighbors@[j]).0 as int,
                    neighbors@[j].1 as int,
                ) || unvisited@.contains(neighbors@[j]),
        decreases n - i,
    {
        let p = neighbors[i];
        if !grid.is_visited(p.0, p.1) {
            let ghost prev = unvisited@;
            unvisited.push(p);
            proof {
                assert(neighbors@[i as int] == p);
                assert(neighbors@.contains(p));
                assert forall|j: int| 0 <= j < unvisited@.len() implies neighbors@.contains(
                    #[trigger] unvisited@[j],
                ) && !grid.visited_at(unvisited@[j].0 as int, unvisited@[j].1 as int) by {
                    if j < prev.len() {
                        assert(unvisited@[j] == prev[j]);
                    } else {
                        assert(unvisited@[j] == p);
                    }
                }
                assert forall|j: int|
                    0 <= j < i + 1 implies grid.visited_at(
                    (#[trigger] neighbors@[j]).0 as int,
                    neighbors@[j].1 as int,
                ) || unvisited@.contains(neighbors@[j]) by {
                    if j < i && !grid.visited_at(neighbors@[j].0 as int, neighbors@[j].1 as int) {
                        let k = choose|k: int| 0 <= k < prev.len() && prev[k] == neighbors@[j];
                        assert(unvisited@[k] == neighbors@[j]);
                    }
                    if j == i {
                        assert(unvisited@[unvisited@.len() - 1] == p);
                    }
                }
            }
        }
        i = i + 1;
    }
    let ghost before = unvisited@;
    shuffle_positions(&mut unvisited, rng);
    proof {
        lemma_same_multiset_same_members(before, unvisited@);
    }
    if unvisited.len() == 0 {
        proof {
            assert forall|j: int| 0 <= j < neighbors@.len() implies grid.visited_at(
                (#[trigger] neighbors@[j]).0 as int,
                neighbors@[j].1 as int,
            ) by {
                if before.contains(neighbors@[j]) {
                    assert(unvisited@.contains(neighbors@[j]));
                }
            }
        }
        None
    } else {
        let p = unvisited[unvisited.len() - 1];
        proof {
            assert(unvisited@.contains(p));
            assert(before.contains(p));
        }
        Some(p)
    }
}

/// Two sequences holding the same multiset hold the same members.
proof fn lemma_same_multiset_same_members(s1: Seq<(usize, usize)>, s2: Seq<(usize, usize)>)
    requires
        s1.to_multiset() == s2.to_multiset(),
    ensures
        forall|p: (usize, usize)| s1.contains(p) <==> s2.contains(p),
{
    broadcast use vstd::seq_lib::group_to_multiset_ensures;

    assert forall|p: (usize, usize)| s1.contains(p) <==> s2.contains(p) by {
        assert(s1.contains(p) <==> s1.to_multiset().count(p) > 0);
        assert(s2.contains(p) <==> s2.to_multiset().count(p) > 0);
    }
}

/// Every in-bounds cell adjacent to (r, c) is visited.
pub open spec fn neighbors_visited(g: CellGraph, r: int, c: int) -> bool {
    forall|r2: int, c2: int|
        g.in_bounds(r2, c2) && #[trigger] adjacent(r, c, r2, c2) ==> g.visited_at(r2, c2)
}

/// Whether the position (r, c) occurs in the stack.
pub open spec fn stack_has(s: Seq<(usize, usize)>, r: int, c: int) -> bool {
    exists|k: int| 0 <= k < s.len() && (#[trigger] s[k]).0 == r && s[k].1 == c
}

/// From a visited cell, the visited set spreads to (0, 0) when it is closed
/// under adjacency.
proof fn lemma_spread_to_origin(g: CellGraph, r: int, c: int)
    requires
        g.wf(),
        g.in_bounds(r, c),
        g.visited_at(r, c),
        forall|r2: int, c2: int|
            g.in_bounds(r2, c2) && #[trigger] g.visited_at(r2, c2) ==> neighbors_visited(g, r2, c2),
    ensures
        g.visited_at(0, 0),
    decreases r + c,
{
    if r > 0 {
        assert(adjacent(r, c, r - 1, c));
        assert(neighbors_visited(g, r, c));
        assert(g.visited_at(r - 1, c));
        lemma_spread_to_origin(g, r - 1, c);
    } else if c > 0 {
        assert(adjacent(r, c, r, c - 1));
        assert(neighbors_visited(g, r, c));
        assert(g.visited_at(r, c - 1));
        lemma_spread_to_origin(g, r, c - 1);
    }
}

/// From a visited (0, 0), the visited set spreads to any cell when it is
/// closed under adjacency.
proof fn lemma_spread_from_origin(g: CellGraph, r: int, c: int)
    requires
        g.wf(),
        g.in_bounds(r, c),
        g.visited_at(0, 0),
        forall|r2: int, c2: int|
            g.in_bounds(r2, c2) && #[trigger] g.visited_at(r2, c2) ==> neighbors_visited(g, r2, c2),
    ensures
        g.visited_at(r, c),
    decreases r + c,
{
    if r > 0 {
        lemma_spread_from_origin(g, r - 1, c);
        assert(neighbors_visited(g, r - 1, c));
        assert(adjacent(r - 1, c, r, c));
    } else if c > 0 {
        lemma_spread_from_origin(g, r, c - 1);
        assert(neighbors_visited(g, r, c - 1));
        assert(adjacent(r, c - 1, r, c));
    }
}

/// A visited set that holds one cell and is closed under adjacency covers
/// the whole grid.
proof fn lemma_closed_all_visited(g: CellGraph, sr: int, sc: int)
    requires
        g.wf(),
        g.in_bounds(sr, sc),
        g.visited_at(sr, sc),
        forall|r2: int, c2: int|
            g.in_bounds(r2, c2) && #[trigger] g.visited_at(r2, c2) ==> neighbors_visited(g, r2, c2),
    ensures
        g.all_visited(),
{
    lemma_spread_to_origin(g, sr, sc);
    assert forall|r: int, c: int| g.in_bounds(r, c) implies #[trigger] g.visited_at(r, c) by {
        lemma_spread_from_origin(g, r, c);
    }
}

/// Every stack entry lies in the grid and is visited.
pub open spec fn stack_ok(g: CellGraph, s: Seq<(usize, usize)>) -> bool {
    forall|k: int|
        0 <= k < s.len() ==> g.in_bounds((#[trigger] s[k]).0 as int, s[k].1 as int)
            && g.visited_at(s[k].0 as int, s[k].1 as int)
}

/// Every visited cell off the stack has all its neighbors visited.
pub open spec fn closure_ok(g: CellGraph, s: Seq<(usize, usize)>) -> bool {
    forall|r: int, c: int|
        g.in_bounds(r, c) && #[trigger] g.visited_at(r, c) && !stack_has(s, r, c)
            ==> neighbors_visited(g, r, c)
}

/// Every visited cell is reachable from (sr, sc) through open passages.
pub open spec fn reach_ok(g: CellGraph, sr: int, sc: int) -> bool {
    forall|r: int, c: int|
        g.in_bounds(r, c) && #[trigger] g.visited_at(r, c) ==> reachable(g, sr, sc, r, c)
}

/// Every unvisited cell still has all four connection flags off.
pub open spec fn unvisited_unconnected(g: CellGraph) -> bool {
    forall|r: int, c: int|
        g.in_bounds(r, c) && !(#[trigger] g.visited_at(r, c)) ==> {
            let cell = g.cell(r, c);
            !cell.conn_west && !cell.conn_north && !cell.conn_east && !cell.conn_south
        }
}

/// The step from `prev` to `cur` marked exactly (nr, nc) visited.
pub open spec fn visited_extended(prev: CellGraph, cur: CellGraph, nr: int, nc: int) -> bool {
    &&& cur.spec_rows() == prev.spec_rows()
    &&& cur.spec_cols() == prev.spec_cols()
    &&& forall|r: int, c: int|
        prev.in_bounds(r, c) ==> #[trigger] cur.visited_at(r, c) == (prev.visited_at(r, c) || (r
            == nr && c == nc))
}

/// When every entry of the exact neighbor list of `pos` is visited, every
/// in-bounds cell adjacent to `pos` is visited.
proof fn lemma_all_neighbors_visited(g: CellGraph, pos: (usize, usize), ns: Seq<(usize, usize)>)
    requires
        g.wf(),
        g.in_bounds(pos.0 as int, pos.1 as int),
        forall|p: (usize, usize)|
            #[trigger] ns.contains(p) <==> (g.in_bounds(p.0 as int, p.1 as int) && adjacent(
                pos.0 as int,
                pos.1 as int,
                p.0 as int,
                p.1 as int,
            )),
        forall|j: int|
            0 <= j < ns.len() ==> g.visited_at((#[trigger] ns[j]).0 as int, ns[j].1 as int),
    ensures
        neighbors_visited(g, pos.0 as int, pos.1 as int),
{
    assert forall|r2: int, c2: int|
        g.in_bounds(r2, c2) && #[trigger] adjacent(pos.0 as int, pos.1 as int, r2, c2) implies g.visited_at(
        r2,
        c2,
    ) by {
        let p2 = (r2 as usize, c2 as usize);
        assert(ns.contains(p2));
        let j = choose|j: int| 0 <= j < ns.len() && ns[j] == p2;
        assert(g.visited_at(ns[j].0 as int, ns[j].1 as int));
    }
}

/// Popping a cell whose neighbors are all visited keeps the closure.
proof fn lemma_closure_pop(g: CellGraph, s: Seq<(usize, usize)>)
    requires
        s.len() >= 1,
        closure_ok(g, s),
        neighbors_visited(g, s.last().0 as int, s.last().1 as int),
    ensures
        closure_ok(g, s.drop_last()),
{
    let t = s.drop_last();
    assert forall|r: int, c: int|
        g.in_bounds(r, c) && #[trigger] g.visited_at(r, c) && !stack_has(t, r, c) implies neighbors_visited(
        g,
        r,
        c,
    ) by {
        if stack_has(s, r, c) {
            let k = choose|k: int| 0 <= k < s.len() && (#[trigger] s[k]).0 == r && s[k].1 == c;
            if k < s.len() - 1 {
                assert(t[k] == s[k]);
                assert(stack_has(t, r, c));
            } else {
                assert(s.last().0 == r && s.last().1 == c);
            }
        }
    }
}

/// The closure survives visiting one more cell and pushing it.
proof fn lemma_closure_push(
    prev: CellGraph,
    cur: CellGraph,
    np: (usize, usize),
    s: Seq<(usize, usize)>,
)
    requires
        closure_ok(prev, s),
        visited_extended(prev, cur, np.0 as int, np.1 as int),
        prev.in_bounds(np.0 as int, np.1 as int),
    ensures
        closure_ok(cur, s.push(np)),
{
    let t = s.push(np);
    assert forall|r: int, c: int|
        cur.in_bounds(r, c) && #[trigger] cur.visited_at(r, c) && !stack_has(t, r, c) implies neighbors_visited(
        cur,
        r,
        c,
    ) by {
        assert(t[t.len() - 1] == np);
        if r == np.0 as int && c == np.1 as int {
            assert(stack_has(t, r, c));
        } else {
            assert(prev.visited_at(r, c));
            assert(!stack_has(s, r, c)) by {
                if stack_has(s, r, c) {
                    let k = choose|k: int|
                        0 <= k < s.len() && (#[trigger] s[k]).0 == r && s[k].1 == c;
                    assert(t[k] == s[k]);
                    assert(stack_has(t, r, c));
                }
            }
            assert(neighbors_visited(prev, r, c));
            assert forall|r2: int, c2: int|
                cur.in_bounds(r2, c2) && #[trigger] adjacent(r, c, r2, c2) implies cur.visited_at(
                r2,
                c2,
            ) by {
                assert(prev.visited_at(r2, c2));
            }
        }
    }
}

/// Reachability of all visited cells survives one generation step.
proof fn lemma_reach_extend(
    prev: CellGraph,
    cur: CellGraph,
    sr: int,
    sc: int,
    nr: int,
    nc: int,
)
    requires
        reach_ok(prev, sr, sc),
        conn_le(prev, cur),
        visited_extended(prev, cur, nr, nc),
        reachable(cur, sr, sc, nr, nc),
    ensures
        reach_ok(cur, sr, sc),
{
    assert forall|r: int, c: int|
        cur.in_bounds(r, c) && #[trigger] cur.visited_at(r, c) implies reachable(
        cur,
        sr,
        sc,
        r,
        c,
    ) by {
        if r == nr && c == nc {
        } else {
            assert(prev.visited_at(r, c));
            assert(reachable(prev, sr, sc, r, c));
            lemma_reachable_mono(prev, cur, sr, sc, r, c);
        }
    }
}

/// One generation step re-establishes every loop invariant: after opening
/// the passage from `pos` to the fresh cell `np` and marking `np` visited,
/// the stack with `np` pushed is still sound.
#[verifier::rlimit(100)]
proof fn lemma_generate_step(
    prev: CellGraph,
    mid: CellGraph,
    cur: CellGraph,
    pos: (usize, usize),
    np: (usize, usize),
    sr: int,
    sc: int,
    prev_stack: Seq<(usize, usize)>,
)
    requires
        prev.wf(),
        prev.in_bounds(pos.0 as int, pos.1 as int),
        prev.in_bounds(np.0 as int, np.1 as int),
        adjacent(pos.0 as int, pos.1 as int, np.0 as int, np.1 as int),
        prev.visited_at(pos.0 as int, pos.1 as int),
        !prev.visited_at(np.0 as int, np.1 as int),
        prev.in_bounds(sr, sc),
        stack_ok(prev, prev_stack),
        closure_ok(prev, prev_stack),
        reach_ok(prev, sr, sc),
        unvisited_unconnected(prev),
        mid.spec_rows() == prev.spec_rows(),
        mid.spec_cols() == prev.spec_cols(),
        mid.cell(pos.0 as int, pos.1 as int) == spec_with_conn(
            prev.cell(pos.0 as int, pos.1 as int),
            dir_from(pos.0 as int, pos.1 as int, np.0 as int, np.1 as int),
        ),
        mid.cell(np.0 as int, np.1 as int) == spec_with_conn(
            prev.cell(np.0 as int, np.1 as int),
            opposite(dir_from(pos.0 as int, pos.1 as int, np.0 as int, np.1 as int)),
        ),
        forall|r: int, c: int|
            mid.in_bounds(r, c) && !(r == pos.0 as int && c == pos.1 as int) && !(r == np.0 as int
                && c == np.1 as int) ==> #[trigger] mid.cell(r, c) == prev.cell(r, c),
        cur.spec_rows() == mid.spec_rows(),
        cur.spec_cols() == mid.spec_cols(),
        cur.cell(np.0 as int, np.1 as int) == spec_mark_visited(mid.cell(np.0 as int, np.1 as int)),
        forall|r: int, c: int|
            cur.in_bounds(r, c) && !(r == np.0 as int && c == np.1 as int)
                ==> #[trigger] cur.cell(r, c) == mid.cell(r, c),
    ensures
        visited_extended(prev, cur, np.0 as int, np.1 as int),
        conn_le(prev, cur),
        stack_ok(cur, prev_stack.push(np)),
        closure_ok(cur, prev_stack.push(np)),
        reach_ok(cur, sr, sc),
        unvisited_unconnected(cur),
{
    let pr = pos.0 as int;
    let pc = pos.1 as int;
    let nr = np.0 as int;
    let nc = np.1 as int;
    let d = dir_from(pr, pc, nr, nc);
    assert(!(pr == nr && pc == nc));
    assert(visited_extended(prev, cur, nr, nc)) by {
        assert forall|r: int, c: int| prev.in_bounds(r, c) implies #[trigger] cur.visited_at(r, c)
            == (prev.visited_at(r, c) || (r == nr && c == nc)) by {
            if r == nr && c == nc {
            } else if r == pr && c == pc {
                assert(cur.cell(pr, pc) == mid.cell(pr, pc));
            } else {
                assert(mid.cell(r, c) == prev.cell(r, c));
                assert(cur.cell(r, c) == mid.cell(r, c));
            }
        }
    }
    assert(conn_le(prev, cur)) by {
        assert forall|r: int, c: int, dd: crate::cell_graph::Direction|
            prev.in_bounds(r, c) && #[trigger] prev.conn_at(r, c, dd) implies cur.conn_at(
            r,
            c,
            dd,
        ) by {
            if r == pr && c == pc {
                assert(cur.cell(pr, pc) == mid.cell(pr, pc));
            } else if r == nr && c == nc {
            } else {
                assert(mid.cell(r, c) == prev.cell(r, c));
                assert(cur.cell(r, c) == mid.cell(r, c));
            }
        }
    }
    assert(open_between(cur, pr, pc, nr, nc)) by {
        assert(cur.cell(pr, pc) == mid.cell(pr, pc));
        assert(cur.conn_at(pr, pc, d));
        assert(cur.conn_at(nr, nc, opposite(d)));
        assert(dir_from(nr, nc, pr, pc) == opposite(d));
    }
    assert(stack_ok(cur, prev_stack.push(np))) by {
        let t = prev_stack.push(np);
        assert forall|k: int| 0 <= k < t.len() implies cur.in_bounds(
            (#[trigger] t[k]).0 as int,
            t[k].1 as int,
        ) && cur.visited_at(t[k].0 as int, t[k].1 as int) by {
            if k < prev_stack.len() {
                assert(t[k] == prev_stack[k]);
                assert(prev.visited_at(prev_stack[k].0 as int, prev_stack[k].1 as int));
            } else {
                assert(t[k] == np);
            }
        }
    }
    lemma_closure_push(prev, cur, np, prev_stack);
    assert(reachable(prev, sr, sc, pr, pc));
    lemma_reachable_mono(prev, cur, sr, sc, pr, pc);
    lemma_reachable_step(cur, sr, sc, pr, pc, nr, nc);
    lemma_reach_extend(prev, cur, sr, sc, nr, nc);
    assert(unvisited_unconnected(cur)) by {
        assert forall|r: int, c: int|
            cur.in_bounds(r, c) && !(#[trigger] cur.visited_at(r, c)) implies {
            let cell = cur.cell(r, c);
            !cell.conn_west && !cell.conn_north && !cell.conn_east && !cell.conn_south
        } by {
            assert(!prev.visited_at(r, c));
            assert(!(r == pr && c == pc) && !(r == nr && c == nc));
            assert(mid.cell(r, c) == prev.cell(r, c));
            assert(cur.cell(r, c) == mid.cell(r, c));
        }
    }
}

/// Everything the traversal keeps true between steps.
#[verifier::opaque]
pub open spec fn gen_inv(g: CellGraph, s: Seq<(usize, usize)>, sr: int, sc: int) -> bool {
    &&& g.wf()
    &&& g.in_bounds(sr, sc)
    &&& g.visited_at(sr, sc)
    &&& stack_ok(g, s)
    &&& closure_ok(g, s)
    &&& reach_ok(g, sr, sc)
    &&& unvisited_unconnected(g)
    &&& count_conns(g.cells_seq()) == count_visited(g.cells_seq()) - 1
    &&& 1 <= count_visited(g.cells_seq()) <= g.cells_seq().len()
}

/// What one step needs to see of the invariant.
proof fn lemma_inv_parts(g: CellGraph, s: Seq<(usize, usize)>, sr: int, sc: int)
    requires
        gen_inv(g, s, sr, sc),
    ensures
        g.wf(),
        stack_ok(g, s),
{
    reveal(gen_inv);
}

/// One step of the traversal: look at the cell on top of the stack, follow a
/// random passage into an unvisited neighbor if one is left, and otherwise
/// backtrack by popping the cell.
#[verifier::rlimit(100)]
fn generate_step(
    g: &mut CellGraph,
    stack: &mut Vec<(usize, usize)>,
    rng: &mut rand::rngs::StdRng,
    Ghost(sr): Ghost<int>,
    Ghost(sc): Ghost<int>,
)
    requires
        old(stack)@.len() > 0,
        gen_inv(*old(g), old(stack)@, sr, sc),
    ensures
        gen_inv(*final(g), final(stack)@, sr, sc),
        final(g).spec_rows() == old(g).spec_rows(),
        final(g).spec_cols() == old(g).spec_cols(),
        count_visited(final(g).cells_seq()) >= count_visited(old(g).cells_seq()),
        count_visited(final(g).cells_seq()) == count_visited(old(g).cells_seq())
            ==> final(stack)@.len() < old(stack)@.len(),
{
    proof {
        lemma_inv_parts(*g, stack@, sr, sc);
    }
    let top = stack.len() - 1;
    let pos = stack[top];
    let ghost pr = pos.0 as int;
    let ghost pc = pos.1 as int;
    proof {
        assert(stack@[top as int] == pos);
        assert(g.in_bounds(pr, pc) && g.visited_at(pr, pc));
    }
    let neighbors = get_heighbors(g, pos);
    proof {
        assert forall|j: int| 0 <= j < neighbors@.len() implies g.in_bounds(
            (#[trigger] neighbors@[j]).0 as int,
            neighbors@[j].1 as int,
        ) by {
            assert(neighbors@.contains(neighbors@[j]));
        }
    }
    let next = find_unvisited_neighbor(g, &neighbors, rng);
    match next {
        None => {
            step_backtrack(g, stack, pos, &neighbors, Ghost(sr), Ghost(sc));
        },
        Some(np) => {
            proof {
                assert(neighbors@.contains(np));
            }
            step_advance(g, stack, pos, np, Ghost(sr), Ghost(sc));
        },
    }
}

/// The backtracking half of one step: every neighbor of the cell on top of
/// the stack is visited, so the cell is done and leaves the stack.
#[verifier::rlimit(100)]
fn step_backtrack(
    g: &CellGraph,
    stack: &mut Vec<(usize, usize)>,
    pos: (usize, usize),
    neighbors: &Vec<(usize, usize)>,
    Ghost(sr): Ghost<int>,
    Ghost(sc): Ghost<int>,
)
    requires
        gen_inv(*g, old(stack)@, sr, sc),
        old(stack)@.len() > 0,
        old(stack)@.last() == pos,
        g.in_bounds(pos.0 as int, pos.1 as int),
        forall|p: (usize, usize)|
            #[trigger] neighbors@.contains(p) <==> (g.in_bounds(p.0 as int, p.1 as int)
                && adjacent(pos.0 as int, pos.1 as int, p.0 as int, p.1 as int)),
        forall|j: int|
            0 <= j < neighbors@.len() ==> g.visited_at(
                (#[trigger] neighbors@[j]).0 as int,
                neighbors@[j].1 as int,
            ),
    ensures
        gen_inv(*g, final(stack)@, sr, sc),
        final(stack)@.len() == old(stack)@.len() - 1,
{
    proof {
        reveal(gen_inv);
    }
    let ghost prev_stack = stack@;
    stack.pop();
    proof {
        lemma_all_neighbors_visited(*g, pos, neighbors@);
        assert(prev_stack.last() == pos);
        lemma_closure_pop(*g, prev_stack);
        assert(stack@ =~= prev_stack.drop_last());
    }
}

/// The advancing half of one step: open the passage from `pos` into the
/// unvisited neighbor `np`, mark it visited and push it.
#[verifier::rlimit(100)]
fn step_advance(
    g: &mut CellGraph,
    stack: &mut Vec<(usize, usize)>,
    pos: (usize, usize),
    np: (usize, usize),
    Ghost(sr): Ghost<int>,
    Ghost(sc): Ghost<int>,
)
    requires
        gen_inv(*old(g), old(stack)@, sr, sc),
        old(g).in_bounds(pos.0 as int, pos.1 as int),
        old(g).visited_at(pos.0 as int, pos.1 as int),
        old(g).in_bounds(np.0 as int, np.1 as int),
        adjacent(pos.0 as int, pos.1 as int, np.0 as int, np.1 as int),
        !old(g).visited_at(np.0 as int, np.1 as int),
    ensures
        gen_inv(*final(g), final(stack)@, sr, sc),
        final(g).spec_rows() == old(g).spec_rows(),
        final(g).spec_cols() == old(g).spec_cols(),
        count_visited(final(g).cells_seq()) == count_visited(old(g).cells_seq()) + 1,
{
    proof {
        reveal(gen_inv);
    }
    let ghost pr = pos.0 as int;
    let ghost pc = pos.1 as int;
    let ghost nr = np.0 as int;
    let ghost nc = np.1 as int;
    let ghost prev_g = *g;
    let ghost prev_stack = stack@;
    proof {
        assert(!(pr == nr && pc == nc));
    }
    let res = g.connect(pos, np);
    let ghost mid_g = *g;
    proof {
        let d = dir_from(pr, pc, nr, nc);
        assert(res == Ok::<(), MazeError>(()));
        assert(!conn_in(prev_g.cell(nr, nc), dir_from(nr, nc, pr, pc)));
        lemma_connection_symmetry(prev_g, pr, pc, nr, nc);
        assert(!prev_g.conn_at(pr, pc, d));
        assert(count_conns(mid_g.cells_seq()) == count_conns(prev_g.cells_seq()) + 1);
    }
    g.mark_visited(np);
    stack.push(np);
    proof {
        assert(count_visited(g.cells_seq()) == count_visited(prev_g.cells_seq()) + 1);
        assert(count_conns(g.cells_seq()) == count_conns(prev_g.cells_seq()) + 1);
        assert(count_visited(prev_g.cells_seq()) < prev_g.cells_seq().len()) by {
            prev_g.lemma_cell_index(nr, nc);
            lemma_grid_index_bound(prev_g.spec_rows(), prev_g.spec_cols(), nr, nc);
            lemma_count_visited_missing(prev_g.cells_seq(), nr * prev_g.spec_cols() + nc);
        }
        assert(stack@ == prev_stack.push(np));
        lemma_generate_step(prev_g, mid_g, *g, pos, np, sr, sc, prev_stack);
        assert(g.visited_at(sr, sc)) by {
            assert(visited_extended(prev_g, *g, nr, nc));
        }
    }
}

/// Builds a perfect maze in place: a randomized depth-first traversal from
/// `start` that visits every cell and opens one new passage for each cell it
/// reaches, leaving exactly rows * cols - 1 open passages in a grid whose
/// cells are all reachable from `start`.
#[verifier::rlimit(100)]
pub fn generate(g: &mut CellGraph, start: (usize, usize), rng: &mut rand::rngs::StdRng)
    requires
        old(g).wf(),
        old(g).in_bounds(start.0 as int, start.1 as int),
        old(g).all_unvisited(),
        old(g).all_unconnected(),
    ensures
        final(g).wf(),
        final(g).spec_rows() == old(g).spec_rows(),
        final(g).spec_cols() == old(g).spec_cols(),
        final(g).all_visited(),
        count_conns(final(g).cells_seq()) == final(g).spec_rows() * final(g).spec_cols() - 1,
        forall|r: int, c: int|
            final(g).in_bounds(r, c) ==> #[trigger] reachable(
                *final(g),
                start.0 as int,
                start.1 as int,
                r,
                c,
            ),
{
    let ghost sr = start.0 as int;
    let ghost sc = start.1 as int;
    proof {
        lemma_counts_fresh_grid(*g);
    }
    g.mark_visited(start);
    let mut stack: Vec<(usize, usize)> = Vec::new();
    stack.push(start);
    proof {
        assert(g.visited_at(sr, sc));
        assert(stack@[0] == start);
        assert(stack_ok(*g, stack@));
        assert(closure_ok(*g, stack@)) by {
            assert forall|r: int, c: int|
                g.in_bounds(r, c) && #[trigger] g.visited_at(r, c) && !stack_has(stack@, r, c)
                implies neighbors_visited(*g, r, c) by {
                if r == sr && c == sc {
                    assert(stack_has(stack@, r, c));
                } else {
                    assert(g.cell(r, c) == old(g).cell(r, c));
                    assert(!old(g).visited_at(r, c));
                }
            }
        }
        assert(reach_ok(*g, sr, sc)) by {
            assert forall|r: int, c: int|
                g.in_bounds(r, c) && #[trigger] g.visited_at(r, c) implies reachable(
                *g,
                sr,
                sc,
                r,
                c,
            ) by {
                if r == sr && c == sc {
                    lemma_reachable_refl(*g, sr, sc);
                } else {
                    assert(g.cell(r, c) == old(g).cell(r, c));
                    assert(!old(g).visited_at(r, c));
                }
            }
        }
        assert(unvisited_unconnected(*g)) by {
            assert forall|r: int, c: int|
                g.in_bounds(r, c) && !(#[trigger] g.visited_at(r, c)) implies {
                let cell = g.cell(r, c);
                !cell.conn_west && !cell.conn_north && !cell.conn_east && !cell.conn_south
            } by {
                assert(g.cell(r, c) == old(g).cell(r, c));
                assert(!old(g).visited_at(r, c));
            }
        }
        assert(gen_inv(*g, stack@, sr, sc)) by {
            reveal(gen_inv);
        }
    }
    while stack.len() > 0
        invariant
            gen_inv(*g, stack@, sr, sc),
            g.spec_rows() == old(g).spec_rows(),
            g.spec_cols() == old(g).spec_cols(),
            sr == start.0 as int && sc == start.1 as int,
        decreases g.cells_seq().len() - count_visited(g.cells_seq()), stack@.len(),
    {
        let ghost iter_g = *g;
        generate_step(g, &mut stack, rng, Ghost(sr), Ghost(sc));
        proof {
            reveal(gen_inv);
            assert(iter_g.cells_seq().len() == g.cells_seq().len());
        }
    }
    proof {
        reveal(gen_inv);
        assert forall|r: int, c: int|
            g.in_bounds(r, c) && #[trigger] g.visited_at(r, c) implies neighbors_visited(
            *g,
            r,
            c,
        ) by {
            assert(!stack_has(stack@, r, c));
        }
        lemma_closed_all_visited(*g, sr, sc);
        lemma_count_visited_full_grid(*g);
        assert forall|r: int, c: int| g.in_bounds(r, c) implies #[trigger] reachable(
            *g,
            sr,
            sc,
            r,
            c,
        ) by {
            assert(g.visited_at(r, c));
        }
    }
}

} // verus!
