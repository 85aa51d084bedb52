//! Tests of the cost model: direction classification, step costs, and the
//! octile heuristic.

use path_finding::Cell;
use path_finding::Direction;
use path_finding::DIAGONAL_COST;
use path_finding::ORTHOGONAL_COST;
use path_finding::get_cost_by_direction;
use path_finding::get_direction;
use path_finding::get_goal_distance;

#[test]
fn direction_classifies_all_eight_octants() {
    let center = (5u32, 5u32);
    assert_eq!(get_direction(center, (4, 6)), Direction::TopLeft);
    assert_eq!(get_direction(center, (5, 6)), Direction::Top);
    assert_eq!(get_direction(center, (6, 6)), Direction::TopRight);
    assert_eq!(get_direction(center, (4, 5)), Direction::Left);
    assert_eq!(get_direction(center, (6, 5)), Direction::Right);
    assert_eq!(get_direction(center, (4, 4)), Direction::BottomLeft);
    assert_eq!(get_direction(center, (5, 4)), Direction::Bottom);
    assert_eq!(get_direction(center, (6, 4)), Direction::BottomRight);
}

#[test]
fn direction_of_coincident_coordinates_is_unknown() {
    assert_eq!(get_direction((3, 7), (3, 7)), Direction::Unknown);
}

#[test]
fn direction_classifies_distant_coordinates_too() {
    // The octant depends only on the signs of the offsets.
    assert_eq!(get_direction((0, 0), (9, 9)), Direction::TopRight);
    assert_eq!(get_direction((9, 0), (0, 8)), Direction::TopLeft);
    assert_eq!(get_direction((2, 9), (2, 1)), Direction::Bottom);
}

#[test]
fn step_costs_by_direction() {
    assert_eq!(get_cost_by_direction(Direction::TopLeft), DIAGONAL_COST);
    assert_eq!(get_cost_by_direction(Direction::TopRight), DIAGONAL_COST);
    assert_eq!(get_cost_by_direction(Direction::BottomLeft), DIAGONAL_COST);
    assert_eq!(get_cost_by_direction(Direction::BottomRight), DIAGONAL_COST);
    assert_eq!(get_cost_by_direction(Direction::Top), ORTHOGONAL_COST);
    assert_eq!(get_cost_by_direction(Direction::Left), ORTHOGONAL_COST);
    assert_eq!(get_cost_by_direction(Direction::Right), ORTHOGONAL_COST);
    assert_eq!(get_cost_by_direction(Direction::Bottom), ORTHOGONAL_COST);
    assert_eq!(get_cost_by_direction(Direction::Unknown), 0);
}

#[test]
fn goal_distance_exact_values() {
    // dx = 3, dy = 5: three diagonal and two straight steps.
    assert_eq!(get_goal_distance((0, 0), (3, 5)), 3 * DIAGONAL_COST + 2 * ORTHOGONAL_COST);
    // Purely diagonal.
    assert_eq!(get_goal_distance((0, 0), (4, 4)), 4 * DIAGONAL_COST);
    // Purely horizontal, and symmetric in the arguments.
    assert_eq!(get_goal_distance((5, 5), (2, 5)), 3 * ORTHOGONAL_COST);
    assert_eq!(get_goal_distance((2, 5), (5, 5)), 3 * ORTHOGONAL_COST);
    // Coincident coordinates.
    assert_eq!(get_goal_distance((7, 2), (7, 2)), 0);
}

#[test]
fn total_cost_adds_cost_and_estimate() {
    let cell = Cell { cost: 20000, goal_distance: 14142, direction: Direction::Left };
    assert_eq!(cell.get_total_cost(), 34142);
}
