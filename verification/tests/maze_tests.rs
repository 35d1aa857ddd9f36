use maze::cell_graph::get_heighbors;
use maze::cell_graph::CellGraph;
use maze::cell_graph::Direction;
use maze::cell_graph::MazeError;
use maze::generator::find_unvisited_neighbor;
use maze::generator::generate;
use maze::navigator::Navigator;
use maze::tile_grid::TileGrid;
use maze::tile_grid::TileKind;

use rand::rngs::StdRng;
use rand::SeedableRng;

fn generated(rows: usize, cols: usize, seed: u64) -> CellGraph {
    let mut g = CellGraph::new(rows, cols);
    let mut rng = StdRng::seed_from_u64(seed);
    generate(&mut g, (0, 0), &mut rng);
    g
}

/// Breadth-first search over open connections, returning how many cells are
/// reachable from (0, 0).
fn reachable_cells(g: &CellGraph) -> usize {
    let rows = g.rows();
    let cols = g.cols();
    let mut seen = vec![false; rows * cols];
    let mut queue = vec![(0usize, 0usize)];
    seen[0] = true;
    let mut count = 0;
    while let Some((r, c)) = queue.pop() {
        count += 1;
        let steps = [
            (Direction::North, r.wrapping_sub(1), c),
            (Direction::South, r + 1, c),
            (Direction::East, r, c + 1),
            (Direction::West, r, c.wrapping_sub(1)),
        ];
        for (d, nr, nc) in steps {
            if nr < rows && nc < cols && g.is_connected(r, c, d) && !seen[nr * cols + nc] {
                seen[nr * cols + nc] = true;
                queue.push((nr, nc));
            }
        }
    }
    count
}

#[test]
fn connection_count_is_cells_minus_one() {
    for (rows, cols, seed) in [(1, 1, 1), (2, 2, 2), (4, 12, 3), (1, 5, 4), (7, 3, 5)] {
        let g = generated(rows, cols, seed);
        assert_eq!(g.connection_count(), rows * cols - 1);
    }
}

#[test]
fn all_cells_visited_after_generation() {
    let g = generated(4, 12, 11);
    for r in 0..4 {
        for c in 0..12 {
            assert!(g.is_visited(r, c));
        }
    }
}

#[test]
fn generated_maze_is_connected_tree() {
    for (rows, cols, seed) in [(2, 2, 21), (4, 12, 22), (5, 5, 23)] {
        let g = generated(rows, cols, seed);
        // connected on all cells, and with exactly rows*cols - 1 edges that
        // makes the connection relation a spanning tree
        assert_eq!(reachable_cells(&g), rows * cols);
        assert_eq!(g.connection_count(), rows * cols - 1);
    }
}

#[test]
fn connections_are_symmetric() {
    let g = generated(4, 6, 31);
    for r in 0..4 {
        for c in 0..6 {
            if c + 1 < 6 {
                assert_eq!(
                    g.is_connected(r, c, Direction::East),
                    g.is_connected(r, c + 1, Direction::West)
                );
            }
            if r + 1 < 4 {
                assert_eq!(
                    g.is_connected(r, c, Direction::South),
                    g.is_connected(r + 1, c, Direction::North)
                );
            }
        }
    }
}

#[test]
fn neighbors_of_corner_edge_interior() {
    let g = CellGraph::new(3, 3);
    let corner = get_heighbors(&g, (0, 0));
    assert_eq!(corner.len(), 2);
    assert!(corner.contains(&(0, 1)));
    assert!(corner.contains(&(1, 0)));
    let edge = get_heighbors(&g, (0, 1));
    assert_eq!(edge.len(), 3);
    let interior = get_heighbors(&g, (1, 1));
    assert_eq!(interior.len(), 4);
    assert!(interior.contains(&(0, 1)));
    assert!(interior.contains(&(2, 1)));
    assert!(interior.contains(&(1, 0)));
    assert!(interior.contains(&(1, 2)));
}

#[test]
fn connect_rejects_non_adjacent_cells() {
    let mut g = CellGraph::new(3, 3);
    assert_eq!(g.connect((0, 0), (2, 2)), Err(MazeError::InvalidConnection));
    assert_eq!(g.connect((0, 0), (0, 2)), Err(MazeError::InvalidConnection));
    assert_eq!(g.connect((1, 1), (1, 1)), Err(MazeError::InvalidConnection));
    assert_eq!(g.connect((0, 0), (0, 1)), Ok(()));
    assert!(g.is_connected(0, 0, Direction::East));
    assert!(g.is_connected(0, 1, Direction::West));
}

#[test]
fn find_unvisited_neighbor_picks_unvisited_member() {
    let mut g = CellGraph::new(2, 2);
    let mut rng = StdRng::seed_from_u64(7);
    let neighbors = get_heighbors(&g, (0, 0));
    for _ in 0..20 {
        let picked = find_unvisited_neighbor(&g, &neighbors, &mut rng).unwrap();
        assert!(neighbors.contains(&picked));
        assert!(!g.is_visited(picked.0, picked.1));
    }
    g.connect((0, 0), (0, 1)).unwrap();
    let mut g2 = generated(2, 2, 8);
    // everything visited now: nothing left to pick
    let ns2 = get_heighbors(&g2, (0, 0));
    assert_eq!(find_unvisited_neighbor(&g2, &ns2, &mut rng), None);
    let _ = g2.connect((0, 0), (1, 0));
}

#[test]
fn tile_grid_dimensions_and_openings() {
    let g = generated(2, 2, 41);
    let t = TileGrid::from_graph(&g, (1, 0), (3, 4));
    assert_eq!(t.rows(), 5);
    assert_eq!(t.cols(), 5);
    assert_eq!(t.entry_pos(), (1, 0));
    assert_eq!(t.exit_pos(), (3, 4));
    // both openings are path tiles on the boundary ring
    assert_eq!(t.tile_at(1, 0), TileKind::Path);
    assert_eq!(t.tile_at(3, 4), TileKind::Path);
    // cell centers are always path
    for r in [1, 3] {
        for c in [1, 3] {
            assert_eq!(t.tile_at(r, c), TileKind::Path);
        }
    }
    // corner posts are always wall
    for r in [0, 2, 4] {
        for c in [0, 2, 4] {
            assert_eq!(t.tile_at(r, c), TileKind::Wall);
        }
    }
}

#[test]
fn tile_grid_derivation_is_deterministic() {
    let g = generated(4, 12, 51);
    let t1 = TileGrid::from_graph(&g, (1, 0), (7, 24));
    let t2 = TileGrid::from_graph(&g, (1, 0), (7, 24));
    assert_eq!(t1.rows(), t2.rows());
    assert_eq!(t1.cols(), t2.cols());
    for r in 0..t1.rows() {
        for c in 0..t1.cols() {
            assert_eq!(t1.tile_at(r, c), t2.tile_at(r, c));
        }
    }
}

#[test]
fn tile_matches_connectivity() {
    let g = generated(3, 3, 61);
    let t = TileGrid::from_graph(&g, (1, 0), (5, 6));
    // the tile between two horizontally adjacent centers is path exactly
    // when the two cells are connected
    for r in 0..3 {
        for c in 0..2 {
            let expected = if g.is_connected(r, c, Direction::East) {
                TileKind::Path
            } else {
                TileKind::Wall
            };
            assert_eq!(t.tile_at(2 * r + 1, 2 * c + 2), expected);
        }
    }
    for r in 0..2 {
        for c in 0..3 {
            let expected = if g.is_connected(r, c, Direction::South) {
                TileKind::Path
            } else {
                TileKind::Wall
            };
            assert_eq!(t.tile_at(2 * r + 2, 2 * c + 1), expected);
        }
    }
}

/// Shortest walk over path tiles from the cursor to the target, as a list of
/// directions, found by breadth-first search.
fn path_to_exit(t: &TileGrid, from: (usize, usize), to: (usize, usize)) -> Vec<Direction> {
    let rows = t.rows();
    let cols = t.cols();
    let mut prev: Vec<Option<(usize, usize, Direction)>> = vec![None; rows * cols];
    let mut queue = std::collections::VecDeque::new();
    queue.push_back(from);
    let mut seen = vec![false; rows * cols];
    seen[from.0 * cols + from.1] = true;
    while let Some((r, c)) = queue.pop_front() {
        if (r, c) == to {
            break;
        }
        let steps = [
            (Direction::North, r.wrapping_sub(1), c),
            (Direction::South, r + 1, c),
            (Direction::East, r, c + 1),
            (Direction::West, r, c.wrapping_sub(1)),
        ];
        for (d, nr, nc) in steps {
            if nr < rows && nc < cols && !seen[nr * cols + nc]
                && t.tile_at(nr, nc) == TileKind::Path
            {
                seen[nr * cols + nc] = true;
                prev[nr * cols + nc] = Some((r, c, d));
                queue.push_back((nr, nc));
            }
        }
    }
    let mut moves = Vec::new();
    let mut cur = to;
    while cur != from {
        let (pr, pc, d) = prev[cur.0 * cols + cur.1].expect("exit not reachable");
        moves.push(d);
        cur = (pr, pc);
    }
    moves.reverse();
    moves
}

#[test]
fn seeded_two_by_two_walkthrough() {
    let g = generated(2, 2, 71);
    assert_eq!(g.connection_count(), 3);
    assert_eq!(reachable_cells(&g), 4);
    // entry next to cell (0, 0), exit next to cell (1, 1)
    let t = TileGrid::from_graph(&g, (1, 0), (3, 4));
    assert_eq!(t.rows(), 5);
    assert_eq!(t.cols(), 5);
    let mut nav = Navigator::new(&t);
    assert_eq!(nav.cursor(), (1, 0));
    assert!(!nav.finished());
    for d in path_to_exit(&t, nav.cursor(), (3, 4)) {
        assert!(nav.attempt_move(&t, d));
    }
    assert_eq!(nav.cursor(), (3, 4));
    assert!(nav.finished());
    // once finished, no further move is processed
    assert!(!nav.attempt_move(&t, Direction::West));
    assert_eq!(nav.cursor(), (3, 4));
}

#[test]
fn blocked_move_into_wall_is_a_no_op() {
    let g = generated(1, 1, 81);
    let t = TileGrid::from_graph(&g, (1, 0), (1, 2));
    let mut nav = Navigator::new(&t);
    assert_eq!(nav.cursor(), (1, 0));
    // (0, 0) is a corner of the outer wall
    assert!(!nav.attempt_move(&t, Direction::North));
    assert_eq!(nav.cursor(), (1, 0));
    assert!(!nav.finished());
}

#[test]
fn out_of_bounds_move_is_a_no_op() {
    let g = generated(1, 1, 91);
    let t = TileGrid::from_graph(&g, (0, 1), (2, 1));
    let mut nav = Navigator::new(&t);
    assert_eq!(nav.cursor(), (0, 1));
    // moving north from the top boundary row leaves the grid: ignored
    assert!(!nav.attempt_move(&t, Direction::North));
    assert_eq!(nav.cursor(), (0, 1));
    assert!(!nav.finished());
    // moving west from the west edge of the same grid is ignored too
    let t2 = TileGrid::from_graph(&g, (1, 0), (1, 2));
    let mut nav2 = Navigator::new(&t2);
    assert!(!nav2.attempt_move(&t2, Direction::West));
    assert_eq!(nav2.cursor(), (1, 0));
}

#[test]
fn navigator_stays_on_path_tiles() {
    let g = generated(4, 12, 101);
    let t = TileGrid::from_graph(&g, (1, 0), (7, 24));
    let mut nav = Navigator::new(&t);
    let dirs = [Direction::North, Direction::East, Direction::South, Direction::West];
    let mut rng_state: u64 = 12345;
    for _ in 0..500 {
        rng_state = rng_state.wrapping_mul(6364136223846793005).wrapping_add(1442695040888963407);
        let d = dirs[(rng_state >> 33) as usize % 4];
        nav.attempt_move(&t, d);
        let (r, c) = nav.cursor();
        assert!(r < t.rows() && c < t.cols());
        assert_eq!(t.tile_at(r, c), TileKind::Path);
    }
}
