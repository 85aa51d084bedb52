//! The cost model of the search: step costs, the octile heuristic, and the
//! compass encoding of the direction from a cell back to its predecessor.
//!
//! Costs are kept in integer thousandths of an orthogonal step, so that the
//! diagonal step cost 10·√2 ≈ 14.142 has an exact representation.

use vstd::prelude::*;

verus! {

/// Cost of a horizontal or vertical step, in thousandths.
pub const ORTHOGONAL_COST: u64 = 10000;

/// Cost of a diagonal step, in thousandths: 10·√2 rounded to three decimals.
pub const DIAGONAL_COST: u64 = 14142;

/// One of the eight compass octants, or `Unknown` for "no predecessor".
///
/// Stored in a [`Cell`], the octant points from the cell toward the
/// predecessor that produced the cell's cost.  The layout on the grid is
///
/// ```text
/// TopLeft    Top     TopRight
/// Left       .       Right
/// BottomLeft Bottom  BottomRight
/// ```
///
/// with `Top` meaning "one cell up" (larger `y`).
#[derive(Clone, Copy, Debug, PartialEq, Eq, Structural)]
pub enum Direction {
    Unknown,
    TopLeft,
    Top,
    TopRight,
    Left,
    Right,
    BottomLeft,
    Bottom,
    BottomRight,
}

/// Per-coordinate bookkeeping: accumulated cost from the start, heuristic
/// estimate to the target, and the compass octant of the predecessor.
#[derive(Clone, Copy, Debug, PartialEq, Eq, Structural)]
pub struct Cell {
    pub cost: u64,
    pub goal_distance: u64,
    pub direction: Direction,
}

impl Cell {
    /// The A* priority of this record: accumulated cost plus heuristic.
    pub open spec fn spec_total_cost(self) -> int {
        self.cost + self.goal_distance
    }

    /// Accumulated cost plus heuristic estimate: the key the frontier is
    /// ordered by.
    pub fn get_total_cost(&self) -> (r: u64)
        requires
            self.cost + self.goal_distance <= u64::MAX,
        ensures
            r == self.spec_total_cost(),
    {
        self.cost + self.goal_distance
    }
}

/// Absolute difference of two integers.
pub open spec fn abs_diff(a: int, b: int) -> int {
    if a >= b {
        a - b
    } else {
        b - a
    }
}

/// Octile distance between two coordinates: the exact cost of the cheapest
/// 8-directional move sequence between them on an unobstructed grid.
pub open spec fn spec_goal_distance(from: (u32, u32), to: (u32, u32)) -> int {
    let dx: int = abs_diff(from.0 as int, to.0 as int);
    let dy: int = abs_diff(from.1 as int, to.1 as int);
    let diagonal: int = if dx <= dy {
        dx
    } else {
        dy
    };
    let straight: int = (dx - diagonal) + (dy - diagonal);
    diagonal * (DIAGONAL_COST as int) + straight * (ORTHOGONAL_COST as int)
}

/// Heuristic estimate of the remaining cost from `from` to `to`.
pub fn get_goal_distance(from: (u32, u32), to: (u32, u32)) -> (r: u64)
    ensures
        r == spec_goal_distance(from, to),
{
    let dx: u64 = if from.0 >= to.0 {
        (from.0 - to.0) as u64
    } else {
        (to.0 - from.0) as u64
    };
    let dy: u64 = if from.1 >= to.1 {
        (from.1 - to.1) as u64
    } else {
        (to.1 - from.1) as u64
    };
    let diagonal: u64 = if dx <= dy {
        dx
    } else {
        dy
    };
    let straight: u64 = (dx - diagonal) + (dy - diagonal);
    diagonal * DIAGONAL_COST + straight * ORTHOGONAL_COST
}

/// The compass octant in which `to` lies, as seen from `from`; `Unknown` when
/// the two coordinates coincide.
pub open spec fn spec_direction(from: (u32, u32), to: (u32, u32)) -> Direction {
    if from == to {
        Direction::Unknown
    } else {
        let top: bool = from.1 < to.1;
        let bottom: bool = from.1 > to.1;
        let right: bool = from.0 < to.0;
        let left: bool = from.0 > to.0;
        if top {
            if left {
                Direction::TopLeft
            } else if right {
                Direction::TopRight
            } else {
                Direction::Top
            }
        } else if bottom {
            if left {
                Direction::BottomLeft
            } else if right {
                Direction::BottomRight
            } else {
                Direction::Bottom
            }
        } else if left {
            Direction::Left
        } else {
            Direction::Right
        }
    }
}

/// Classifies where `to` lies relative to `from`.  During expansion it is
/// called with a neighbour as `from` and the expanded cell as `to`, so the
/// result points from the neighbour back toward its predecessor.
pub fn get_direction(from: (u32, u32), to: (u32, u32)) -> (r: Direction)
    ensures
        r == spec_direction(from, to),
{
    if from.0 == to.0 && from.1 == to.1 {
        return Direction::Unknown;
    }
    let top: bool = from.1 < to.1;
    let bottom: bool = from.1 > to.1;
    let right: bool = from.0 < to.0;
    let left: bool = from.0 > to.0;
    if top {
        if left {
            return Direction::TopLeft;
        }
        if right {
            return Direction::TopRight;
        }
        return Direction::Top;
    }
    if bottom {
        if left {
            return Direction::BottomLeft;
        }
        if right {
            return Direction::BottomRight;
        }
        return Direction::Bottom;
    }
    if left {
        return Direction::Left;
    }
    Direction::Right
}

/// Horizontal component of the unit offset a direction stands for.
pub open spec fn direction_dx(d: Direction) -> int {
    match d {
        Direction::TopLeft | Direction::Left | Direction::BottomLeft => -1,
        Direction::Top | Direction::Bottom | Direction::Unknown => 0,
        Direction::TopRight | Direction::Right | Direction::BottomRight => 1,
    }
}

/// Vertical component of the unit offset a direction stands for.
pub open spec fn direction_dy(d: Direction) -> int {
    match d {
        Direction::TopLeft | Direction::Top | Direction::TopRight => 1,
        Direction::Left | Direction::Right | Direction::Unknown => 0,
        Direction::BottomLeft | Direction::Bottom | Direction::BottomRight => -1,
    }
}

/// The unit offset a direction stands for, as executable values.
pub fn direction_offset(d: Direction) -> (r: (i64, i64))
    ensures
        r.0 == direction_dx(d),
        r.1 == direction_dy(d),
{
    match d {
        Direction::Unknown => (0i64, 0i64),
        Direction::TopLeft => (-1i64, 1i64),
        Direction::Top => (0i64, 1i64),
        Direction::TopRight => (1i64, 1i64),
        Direction::Left => (-1i64, 0i64),
        Direction::Right => (1i64, 0i64),
        Direction::BottomLeft => (-1i64, -1i64),
        Direction::Bottom => (0i64, -1i64),
        Direction::BottomRight => (1i64, -1i64),
    }
}

/// Cost of one step in the given direction: diagonal octants cost
/// [`DIAGONAL_COST`], axis-aligned ones [`ORTHOGONAL_COST`], and the
/// no-direction code costs nothing.
pub open spec fn spec_cost_by_direction(d: Direction) -> u64 {
    match d {
        Direction::TopLeft | Direction::TopRight | Direction::BottomLeft
            | Direction::BottomRight => DIAGONAL_COST,
        Direction::Top | Direction::Left | Direction::Right | Direction::Bottom => ORTHOGONAL_COST,
        Direction::Unknown => 0,
    }
}

/// Movement cost of one step in the given direction.
pub fn get_cost_by_direction(direction: Direction) -> (r: u64)
    ensures
        r == spec_cost_by_direction(direction),
{
    match direction {
        Direction::TopLeft | Direction::TopRight | Direction::BottomLeft
            | Direction::BottomRight => DIAGONAL_COST,
        Direction::Top | Direction::Left | Direction::Right | Direction::Bottom => ORTHOGONAL_COST,
        Direction::Unknown => 0,
    }
}

/// Horizontal offset of the `k`-th entry of the neighbour scan order.
pub open spec fn neighbour_dx(k: int) -> int {
    if k == 0 || k == 3 || k == 5 {
        -1
    } else if k == 1 || k == 6 {
        0
    } else {
        1
    }
}

/// Vertical offset of the `k`-th entry of the neighbour scan order.
pub open spec fn neighbour_dy(k: int) -> int {
    if 0 <= k && k <= 2 {
        1
    } else if k == 3 || k == 4 {
        0
    } else {
        -1
    }
}

/// The `k`-th of the eight neighbour offsets, scanned top row first, each row
/// left to right.
pub fn neighbour_offset(k: usize) -> (r: (i64, i64))
    requires
        k < 8,
    ensures
        r.0 == neighbour_dx(k as int),
        r.1 == neighbour_dy(k as int),
{
    match k {
        0 => (-1i64, 1i64),
        1 => (0i64, 1i64),
        2 => (1i64, 1i64),
        3 => (-1i64, 0i64),
        4 => (1i64, 0i64),
        5 => (-1i64, -1i64),
        6 => (0i64, -1i64),
        _ => (1i64, -1i64),
    }
}

/// Two coordinates differ by exactly one of the eight unit offsets.
pub open spec fn adjacent8(a: (u32, u32), b: (u32, u32)) -> bool {
    &&& a != b
    &&& abs_diff(a.0 as int, b.0 as int) <= 1
    &&& abs_diff(a.1 as int, b.1 as int) <= 1
}

/// For adjacent coordinates, the compass octant of `b` as seen from `a` is a
/// real direction, and stepping from `a` by its unit offset lands on `b`.
pub proof fn lemma_direction_steps_back(a: (u32, u32), b: (u32, u32))
    requires
        adjacent8(a, b),
    ensures
        !(spec_direction(a, b) is Unknown),
        a.0 + direction_dx(spec_direction(a, b)) == b.0,
        a.1 + direction_dy(spec_direction(a, b)) == b.1,
{
}

/// Movement cost of the single step between two adjacent coordinates:
/// diagonal when both components differ, orthogonal otherwise.
pub open spec fn step_between(a: (u32, u32), b: (u32, u32)) -> int {
    if a.0 != b.0 && a.1 != b.1 {
        DIAGONAL_COST as int
    } else {
        ORTHOGONAL_COST as int
    }
}

/// The stored step cost between adjacent coordinates is [`step_between`],
/// whichever way round the octant is taken.
pub proof fn lemma_cost_class(a: (u32, u32), b: (u32, u32))
    requires
        adjacent8(a, b),
    ensures
        spec_cost_by_direction(spec_direction(a, b)) == step_between(a, b),
        spec_cost_by_direction(spec_direction(b, a)) == step_between(a, b),
{
}

/// Between adjacent coordinates the octile distance is exactly the cost of
/// the one step separating them.
pub proof fn lemma_adjacent_octile(a: (u32, u32), b: (u32, u32))
    requires
        adjacent8(a, b),
    ensures
        spec_goal_distance(a, b) == step_between(a, b),
{
}

/// An adjacent coordinate is one of the eight scanned neighbours.
pub proof fn lemma_adjacent_offset(a: (u32, u32), b: (u32, u32))
    requires
        adjacent8(a, b),
    ensures
        exists|k: int|
            0 <= k < 8 && b.0 == a.0 + #[trigger] neighbour_dx(k) && b.1 == a.1 + neighbour_dy(k),
{
    let dx: int = b.0 - a.0;
    let dy: int = b.1 - a.1;
    if dx == -1 && dy == 1 {
        assert(neighbour_dx(0) == dx && neighbour_dy(0) == dy);
    } else if dx == 0 && dy == 1 {
        assert(neighbour_dx(1) == dx && neighbour_dy(1) == dy);
    } else if dx == 1 && dy == 1 {
        assert(neighbour_dx(2) == dx && neighbour_dy(2) == dy);
    } else if dx == -1 && dy == 0 {
        assert(neighbour_dx(3) == dx && neighbour_dy(3) == dy);
    } else if dx == 1 && dy == 0 {
        assert(neighbour_dx(4) == dx && neighbour_dy(4) == dy);
    } else if dx == -1 && dy == -1 {
        assert(neighbour_dx(5) == dx && neighbour_dy(5) == dy);
    } else if dx == 0 && dy == -1 {
        assert(neighbour_dx(6) == dx && neighbour_dy(6) == dy);
    } else {
        assert(neighbour_dx(7) == dx && neighbour_dy(7) == dy);
    }
}

} // verus!
