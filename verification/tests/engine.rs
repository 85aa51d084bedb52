//! Tests of the search engine: trivial and unreachable cases, single-step
//! expansion, full runs, reconstruction, and determinism.

use path_finding::Direction;
use path_finding::DIAGONAL_COST;
use path_finding::ORTHOGONAL_COST;
use path_finding::PathFinding;

/// A `height` by `width` grid with no walls.
fn open_grid(width: usize, height: usize) -> Vec<Vec<u32>> {
    vec![vec![0u32; width]; height]
}

/// The movement cost of one step between two adjacent coordinates.
fn step_cost(a: (u32, u32), b: (u32, u32)) -> u64 {
    if a.0 != b.0 && a.1 != b.1 {
        DIAGONAL_COST
    } else {
        ORTHOGONAL_COST
    }
}

/// Total movement cost of a path, summed over consecutive pairs.
fn path_total_cost(path: &[(u32, u32)]) -> u64 {
    let mut sum: u64 = 0;
    for w in path.windows(2) {
        sum += step_cost(w[0], w[1]);
    }
    sum
}

/// Checks that every coordinate is passable and consecutive coordinates are
/// one unit step apart.
fn assert_path_valid(session: &PathFinding, path: &[(u32, u32)]) {
    for &(x, y) in path {
        assert!(session.is_available((x as i64, y as i64)), "wall or out of bounds at {:?}", (x, y));
    }
    for w in path.windows(2) {
        let dx = (w[0].0 as i64 - w[1].0 as i64).abs();
        let dy = (w[0].1 as i64 - w[1].1 as i64).abs();
        assert!(dx <= 1 && dy <= 1 && (dx, dy) != (0, 0), "not a unit step: {:?} -> {:?}", w[0], w[1]);
    }
}

#[test]
fn trivial_start_equals_target() {
    let mut session = PathFinding::new((2, 3), (2, 3), open_grid(5, 5), 5, 5);
    session.generate();
    assert!(session.finished);
    assert_eq!(session.path, vec![(2, 3)]);
}

#[test]
fn target_on_wall_is_rejected_without_search() {
    let mut walls = open_grid(5, 5);
    walls[4][4] = 1;
    let mut session = PathFinding::new((0, 0), (4, 4), walls, 5, 5);
    session.generate();
    assert!(!session.finished);
    assert!(session.path.is_empty());
    assert!(session.open_array.is_empty());
}

#[test]
fn walled_in_target_is_never_reached() {
    let mut walls = open_grid(5, 5);
    // Every neighbour of the target (2, 2) is a wall; the target itself is open.
    for (x, y) in [(1, 1), (2, 1), (3, 1), (1, 2), (3, 2), (1, 3), (2, 3), (3, 3)] {
        walls[y][x] = 1;
    }
    let mut session = PathFinding::new((0, 0), (2, 2), walls, 5, 5);
    session.generate();
    assert!(!session.finished);
    assert!(session.path.is_empty());
}

#[test]
fn walled_in_start_exhausts_the_frontier() {
    let mut walls = open_grid(5, 5);
    for (x, y) in [(1, 0), (0, 1), (1, 1)] {
        walls[y][x] = 1;
    }
    let mut session = PathFinding::new((0, 0), (4, 4), walls, 5, 5);
    session.generate();
    assert!(!session.finished);
    assert!(session.path.is_empty());
}

#[test]
fn out_of_bounds_and_walls_are_unavailable() {
    let mut walls = open_grid(4, 3);
    walls[1][2] = 1;
    let session = PathFinding::new((0, 0), (3, 2), walls, 3, 4);
    assert!(!session.is_available((-1, 0)));
    assert!(!session.is_available((0, -1)));
    assert!(!session.is_available((4, 0)));
    assert!(!session.is_available((0, 3)));
    assert!(!session.is_available((2, 1)));
    assert!(session.is_available((1, 1)));
}

#[test]
fn first_scan_seeds_and_expands_the_start() {
    let mut session = PathFinding::new((0, 0), (2, 2), open_grid(3, 3), 3, 3);
    session.scan_neighbours();
    assert!(!session.finished);
    // The start was seeded with cost zero and no predecessor, then expanded.
    let start_record = session.get_cell((0, 0)).expect("start should have a record");
    assert_eq!(start_record.cost, 0);
    assert_eq!(start_record.direction, Direction::Unknown);
    assert!(session.is_closed((0, 0)));
    // Its three passable neighbours were recorded, pointing back at the start.
    let right = session.get_cell((1, 0)).expect("neighbour should have a record");
    assert_eq!(right.cost, ORTHOGONAL_COST);
    assert_eq!(right.direction, Direction::Left);
    let diagonal = session.get_cell((1, 1)).expect("neighbour should have a record");
    assert_eq!(diagonal.cost, DIAGONAL_COST);
    assert_eq!(diagonal.direction, Direction::BottomLeft);
    let top = session.get_cell((0, 1)).expect("neighbour should have a record");
    assert_eq!(top.cost, ORTHOGONAL_COST);
    assert_eq!(top.direction, Direction::Bottom);
    assert_eq!(session.open_array.len(), 3);
}

#[test]
fn scan_on_a_finished_session_changes_nothing() {
    let mut session = PathFinding::new((0, 0), (2, 2), open_grid(3, 3), 3, 3);
    session.generate();
    assert!(session.finished);
    let path_before = session.path.clone();
    let open_before = session.open_array.clone();
    session.scan_neighbours();
    assert!(session.finished);
    assert_eq!(session.path, path_before);
    assert_eq!(session.open_array, open_before);
}

#[test]
fn straight_diagonal_run_on_an_open_grid() {
    let mut session = PathFinding::new((0, 0), (2, 2), open_grid(3, 3), 3, 3);
    session.generate();
    assert!(session.finished);
    assert_eq!(session.path, vec![(2, 2), (1, 1), (0, 0)]);
    let target_record = session.get_cell((2, 2)).expect("target should have a record");
    assert_eq!(target_record.cost, 2 * DIAGONAL_COST);
    assert_eq!(path_total_cost(&session.path), 2 * DIAGONAL_COST);
}

#[test]
fn get_path_on_an_unfinished_session_is_empty() {
    let mut walls = open_grid(5, 5);
    walls[4][4] = 1;
    let mut session = PathFinding::new((0, 0), (4, 4), walls, 5, 5);
    session.generate();
    assert!(!session.finished);
    assert!(session.get_path().is_empty());
}

/// The fixed 10x10 layout: a corridor that zig-zags through three wall lines.
/// Row 3 is wall except at x = 0, rows 6 and 8 are wall except at x = 9, and
/// (8, 9) is wall, so the target (9, 9) has exactly one passable neighbour.
fn zigzag_walls() -> Vec<Vec<u32>> {
    let mut walls = open_grid(10, 10);
    for x in 1..10 {
        walls[3][x] = 1;
    }
    for x in 0..9 {
        walls[6][x] = 1;
        walls[8][x] = 1;
    }
    walls[9][8] = 1;
    walls
}

/// Minimal octile cost through the zig-zag corridor, computed by hand: every
/// path crosses row 3 at (0, 3), row 6 at (9, 6) and row 8 at (9, 8), so the
/// optimum is the sum of the octile distances between those waypoints:
/// 3 orthogonal + (3 diagonal + 6 orthogonal) + 2 orthogonal + 1 orthogonal.
const ZIGZAG_GOLDEN_COST: u64 = 12 * ORTHOGONAL_COST + 3 * DIAGONAL_COST;

#[test]
fn zigzag_corridor_golden_cost() {
    let mut session = PathFinding::new((0, 0), (9, 9), zigzag_walls(), 10, 10);
    session.generate();
    assert!(session.finished);
    let target_record = session.get_cell((9, 9)).expect("target should have a record");
    assert_eq!(target_record.cost, ZIGZAG_GOLDEN_COST);
    assert_eq!(session.path.first(), Some(&(9, 9)));
    assert_eq!(session.path.last(), Some(&(0, 0)));
    assert_path_valid(&session, &session.path);
    assert_eq!(path_total_cost(&session.path), ZIGZAG_GOLDEN_COST);
    // The forced waypoints of the corridor all lie on the path.
    assert!(session.path.contains(&(0, 3)));
    assert!(session.path.contains(&(9, 6)));
    assert!(session.path.contains(&(9, 8)));
}

#[test]
fn reconstruction_is_idempotent() {
    let mut session = PathFinding::new((0, 0), (9, 9), zigzag_walls(), 10, 10);
    session.generate();
    assert!(session.finished);
    let first = session.get_path();
    let second = session.get_path();
    assert_eq!(first, second);
    assert_eq!(first, session.path);
}

#[test]
fn repeated_runs_are_deterministic() {
    let mut a = PathFinding::new((0, 0), (9, 9), zigzag_walls(), 10, 10);
    let mut b = PathFinding::new((0, 0), (9, 9), zigzag_walls(), 10, 10);
    a.generate();
    b.generate();
    assert_eq!(a.finished, b.finished);
    assert_eq!(a.path, b.path);
    let cost_a = a.get_cell((9, 9)).expect("target record").cost;
    let cost_b = b.get_cell((9, 9)).expect("target record").cost;
    assert_eq!(cost_a, cost_b);
}

#[test]
fn detour_around_a_wall_line() {
    // A vertical wall with a gap at the bottom forces a detour.
    let mut walls = open_grid(5, 5);
    for y in 1..5 {
        walls[y][2] = 1;
    }
    let mut session = PathFinding::new((0, 2), (4, 2), walls, 5, 5);
    session.generate();
    assert!(session.finished);
    assert_path_valid(&session, &session.path);
    // Down to the gap at (2, 0), through it, and back up: four diagonal
    // steps, hand-computed.
    let expected = 4 * DIAGONAL_COST;
    assert_eq!(session.get_cell((4, 2)).expect("target record").cost, expected);
    assert_eq!(path_total_cost(&session.path), expected);
}
