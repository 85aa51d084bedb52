//! Incremental A* pathfinding on a rectangular grid with blocked cells.
//!
//! The search session ([`PathFinding`]) owns a frontier ordered by total
//! estimated cost, a closed set, and per-cell cost/predecessor records.  It is
//! expanded one frontier pop at a time ([`PathFinding::scan_neighbours`]) or
//! run to completion ([`PathFinding::generate`]); once finished, the path from
//! target back to start is reconstructed from the stored predecessor
//! directions ([`PathFinding::get_path`]).
//!
//! Each operation's contract pins its exact effect to a transition of the
//! mathematical model in [`model`].  On top of those contracts, [`laws`]
//! proves that reconstructed paths stay on passable cells, move in unit
//! steps, end at the start, cost exactly what the engine accounted, and that
//! reconstruction and whole runs are deterministic; [`optimal`] proves that a
//! finished search's path is a cheapest valid path — full A* optimality over
//! the admissible octile heuristic.

pub mod cost;
pub mod laws;
pub mod model;
pub mod optimal;
pub mod search;

pub use cost::Cell;
pub use cost::Direction;
pub use cost::DIAGONAL_COST;
pub use cost::ORTHOGONAL_COST;
pub use cost::get_cost_by_direction;
pub use cost::get_direction;
pub use cost::get_goal_distance;
pub use search::PathFinding;
