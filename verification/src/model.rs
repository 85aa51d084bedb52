//! Mathematical model of a search session.
//!
//! [`Ctx`] is the immutable part of a session (grid shape, walls, endpoints);
//! [`State`] the mutable part (frontier, closed set, cell records, finished
//! flag, cached path).  The spec functions here define the exact transition
//! each executable operation performs ([`seeded`], [`scan_step`],
//! [`run_steps`], [`generate_result`], [`walk`]) and the well-formedness
//! invariant [`wf`] every operation preserves.

use vstd::prelude::*;

use crate::cost::Cell;
use crate::cost::Direction;
use crate::cost::DIAGONAL_COST;
use crate::cost::abs_diff;
use crate::cost::adjacent8;
use crate::cost::direction_dx;
use crate::cost::direction_dy;
use crate::cost::lemma_direction_steps_back;
use crate::cost::neighbour_dx;
use crate::cost::neighbour_dy;
use crate::cost::spec_cost_by_direction;
use crate::cost::spec_direction;
use crate::cost::spec_goal_distance;

verus! {

/// The immutable parameters of one search: grid shape, wall layout (row-major,
/// one row per `y`, `1` meaning impassable), and the two endpoints.
#[verifier::ext_equal]
pub ghost struct Ctx {
    pub width: u32,
    pub height: u32,
    pub start: (u32, u32),
    pub target: (u32, u32),
    pub walls: Seq<Seq<u32>>,
}

/// The mutable search state: the frontier (`open`, entries of total cost and
/// coordinate), the per-cell records and closed flags (both indexed by
/// `y * width + x`), the finished flag, and the cached reconstructed path.
#[verifier::ext_equal]
pub ghost struct State {
    pub open: Seq<(u64, (u32, u32))>,
    pub cells: Seq<Option<Cell>>,
    pub closed: Seq<bool>,
    pub finished: bool,
    pub path: Seq<(u32, u32)>,
}

/// The coordinate lies on the grid.
pub open spec fn in_bounds(c: Ctx, p: (u32, u32)) -> bool {
    p.0 < c.width && p.1 < c.height
}

/// The coordinate `(x, y)` lies on the grid and is not a wall.
pub open spec fn passable_at(c: Ctx, x: int, y: int) -> bool {
    &&& 0 <= x < c.width
    &&& 0 <= y < c.height
    &&& c.walls[y][x] != 1
}

/// [`passable_at`], on an unsigned coordinate pair.
pub open spec fn passable_pos(c: Ctx, p: (u32, u32)) -> bool {
    passable_at(c, p.0 as int, p.1 as int)
}

/// Row-major index of a coordinate into `cells` and `closed`.
pub open spec fn cell_index(c: Ctx, p: (u32, u32)) -> int {
    p.1 * c.width + p.0
}

/// The record stored for a coordinate, if any.
pub open spec fn record_at(c: Ctx, t: State, p: (u32, u32)) -> Option<Cell> {
    t.cells[cell_index(c, p)]
}

/// The coordinate currently has a record.
pub open spec fn has_record(c: Ctx, t: State, p: (u32, u32)) -> bool {
    record_at(c, t, p) is Some
}

/// Number of `true` entries of a boolean sequence: the size of the closed set.
pub open spec fn count_true(s: Seq<bool>) -> int
    decreases s.len(),
{
    if s.len() == 0 {
        0
    } else {
        count_true(s.drop_last()) + if s.last() {
            1int
        } else {
            0int
        }
    }
}

/// The frontier with every entry for `pos` removed, other entries kept in
/// order.
pub open spec fn remove_pos(s: Seq<(u64, (u32, u32))>, pos: (u32, u32)) -> Seq<(u64, (u32, u32))>
    decreases s.len(),
{
    if s.len() == 0 {
        Seq::empty()
    } else {
        let rest = remove_pos(s.drop_last(), pos);
        if s.last().1 == pos {
            rest
        } else {
            rest.push(s.last())
        }
    }
}

/// Index of the frontier entry popped next: the first entry holding the
/// minimal total cost.
pub open spec fn min_entry_index(s: Seq<(u64, (u32, u32))>) -> int
    decreases s.len(),
{
    if s.len() <= 1 {
        0
    } else {
        let m = min_entry_index(s.drop_last());
        if s.last().0 < s[m].0 {
            s.len() - 1
        } else {
            m
        }
    }
}

/// The grid dimensions are consistent and small enough that no cost or index
/// computation can overflow its machine type.
pub open spec fn ctx_wf(c: Ctx) -> bool {
    &&& 0 < c.width
    &&& 0 < c.height
    &&& in_bounds(c, c.start)
    &&& in_bounds(c, c.target)
    &&& c.walls.len() == c.height
    &&& forall|j: int| 0 <= j < c.height ==> (#[trigger] c.walls[j]).len() == c.width
    &&& c.width * c.height <= usize::MAX as int
    &&& (c.width * c.height + c.width + c.height + 2) * (DIAGONAL_COST as int) <= u64::MAX as int
}

/// `cells` and `closed` each hold one slot per grid cell.
pub open spec fn dims_ok(c: Ctx, t: State) -> bool {
    &&& t.cells.len() == c.width * c.height
    &&& t.closed.len() == c.width * c.height
}

/// With a `slack` of one while the expanded cell is not yet closed, every
/// record's cost is bounded by the number of expansions that produced it.
pub open spec fn closed_slack(c: Ctx, t: State, scan_pos: (u32, u32)) -> int {
    if t.closed[cell_index(c, scan_pos)] {
        0
    } else {
        1
    }
}

/// What holds of the record at `p` mid-expansion of `scan_pos`: like
/// [`record_ok`], except that the predecessor may be the cell being expanded
/// (closed only at the end of the step) and the cost bound carries the slack.
pub open spec fn record_ok_mid(c: Ctx, t: State, scan_pos: (u32, u32), p: (u32, u32)) -> bool {
    let r = record_at(c, t, p).unwrap();
    &&& passable_pos(c, p) || p == c.start
    &&& r.goal_distance == spec_goal_distance(p, c.target)
    &&& r.cost <= (count_true(t.closed) + closed_slack(c, t, scan_pos)) * (DIAGONAL_COST as int)
    &&& (p == c.start ==> r.cost == 0 && r.direction is Unknown)
    &&& (p != c.start ==> {
        let d = r.direction;
        let q = (((p.0 + direction_dx(d)) as u32), ((p.1 + direction_dy(d)) as u32));
        &&& !(d is Unknown)
        &&& 0 <= p.0 + direction_dx(d) < c.width
        &&& 0 <= p.1 + direction_dy(d) < c.height
        &&& has_record(c, t, q)
        &&& (t.closed[cell_index(c, q)] || q == scan_pos)
        &&& r.cost == record_at(c, t, q).unwrap().cost + spec_cost_by_direction(d)
    })
}

/// What holds of every record at a step boundary: the cell is passable (or the
/// start), its heuristic is the octile distance to the target, its cost is
/// bounded by the closed count, and, except for the start, its direction
/// points at an in-bounds, closed predecessor whose record explains its cost.
pub open spec fn record_ok(c: Ctx, t: State, p: (u32, u32)) -> bool {
    let r = record_at(c, t, p).unwrap();
    &&& passable_pos(c, p) || p == c.start
    &&& r.goal_distance == spec_goal_distance(p, c.target)
    &&& r.cost <= count_true(t.closed) * (DIAGONAL_COST as int)
    &&& (p == c.start ==> r.cost == 0 && r.direction is Unknown)
    &&& (p != c.start ==> {
        let d = r.direction;
        let q = (((p.0 + direction_dx(d)) as u32), ((p.1 + direction_dy(d)) as u32));
        &&& !(d is Unknown)
        &&& 0 <= p.0 + direction_dx(d) < c.width
        &&& 0 <= p.1 + direction_dy(d) < c.height
        &&& has_record(c, t, q)
        &&& t.closed[cell_index(c, q)]
        &&& r.cost == record_at(c, t, q).unwrap().cost + spec_cost_by_direction(d)
    })
}

/// Every record satisfies [`record_ok`].
pub open spec fn cells_ok(c: Ctx, t: State) -> bool {
    forall|p: (u32, u32)| in_bounds(c, p) && #[trigger] has_record(c, t, p) ==> record_ok(c, t, p)
}

/// One frontier entry is consistent: an in-bounds, unclosed coordinate with a
/// record whose total cost is the entry's priority.
pub open spec fn open_entry_ok(c: Ctx, t: State, e: (u64, (u32, u32))) -> bool {
    &&& in_bounds(c, e.1)
    &&& has_record(c, t, e.1)
    &&& !t.closed[cell_index(c, e.1)]
    &&& e.0 == record_at(c, t, e.1).unwrap().spec_total_cost()
}

/// Every frontier entry is consistent and no coordinate is queued twice: the
/// frontier supports deletion, so no stale entries exist.
pub open spec fn open_ok(c: Ctx, t: State) -> bool {
    &&& forall|i: int| 0 <= i < t.open.len() ==> open_entry_ok(c, t, #[trigger] t.open[i])
    &&& forall|i: int, j: int|
        0 <= i < j < t.open.len() ==> (#[trigger] t.open[i]).1 != (#[trigger] t.open[j]).1
}

/// Every closed coordinate has a record: a cell is closed only by the
/// expansion that examined its record.
pub open spec fn closed_records_ok(c: Ctx, t: State) -> bool {
    forall|p: (u32, u32)|
        in_bounds(c, p) && #[trigger] t.closed[cell_index(c, p)] ==> has_record(c, t, p)
}

/// A non-empty frontier implies the start has been seeded.
pub open spec fn start_ok(c: Ctx, t: State) -> bool {
    t.open.len() > 0 ==> has_record(c, t, c.start)
}

/// Once the search has moved past the start — some other coordinate is queued
/// or something is closed — the start itself has been expanded.
pub open spec fn start_closed_ok(c: Ctx, t: State) -> bool {
    ((exists|i: int| 0 <= i < t.open.len() && (#[trigger] t.open[i]).1 != c.start)
        || count_true(t.closed) > 0) ==> t.closed[cell_index(c, c.start)]
}

/// A finished search is either the trivial one or reached a passable target
/// from a recorded cell one unit offset away.
pub open spec fn fin_ok(c: Ctx, t: State) -> bool {
    t.finished ==> (c.start == c.target || {
        &&& has_record(c, t, c.start)
        &&& has_record(c, t, c.target)
        &&& passable_pos(c, c.target)
        &&& exists|q: (u32, u32)|
            in_bounds(c, q) && #[trigger] has_record(c, t, q) && q != c.target
                && adjacent8(q, c.target)
    })
}

/// The cached path is empty until the search finishes and is then exactly the
/// walk of the predecessor links from the target.
pub open spec fn path_ok(c: Ctx, t: State) -> bool {
    &&& (t.finished ==> t.path == walk(
        c,
        t.cells,
        c.target,
        seq![c.target],
        (c.width * c.height) as nat,
    ))
    &&& (!t.finished ==> t.path == Seq::<(u32, u32)>::empty())
}

/// Well-formedness of everything but the cached path; what path reconstruction
/// needs of a session.
pub open spec fn wf0(c: Ctx, t: State) -> bool {
    &&& ctx_wf(c)
    &&& dims_ok(c, t)
    &&& cells_ok(c, t)
    &&& (!t.finished ==> open_ok(c, t))
    &&& closed_records_ok(c, t)
    &&& start_ok(c, t)
    &&& start_closed_ok(c, t)
    &&& fin_ok(c, t)
}

/// The session invariant: holds after construction and after every completed
/// operation.
pub open spec fn wf(c: Ctx, t: State) -> bool {
    &&& wf0(c, t)
    &&& path_ok(c, t)
}

/// The invariant that holds between the pop of `scan_pos` (whose record is
/// `cur`) and the close that ends the expansion step.
pub open spec fn mid_ok(c: Ctx, t: State, scan_pos: (u32, u32), cur: Cell) -> bool {
    &&& ctx_wf(c)
    &&& dims_ok(c, t)
    &&& in_bounds(c, scan_pos)
    &&& record_at(c, t, scan_pos) == Some(cur)
    &&& forall|p: (u32, u32)|
        in_bounds(c, p) && #[trigger] has_record(c, t, p) ==> record_ok_mid(c, t, scan_pos, p)
    &&& cur.cost + DIAGONAL_COST <= (count_true(t.closed) + closed_slack(c, t, scan_pos)) * (
    DIAGONAL_COST as int)
    &&& (!t.finished ==> open_ok(c, t))
    &&& (!t.finished ==> forall|i: int|
        0 <= i < t.open.len() ==> (#[trigger] t.open[i]).1 != scan_pos)
    &&& closed_records_ok(c, t)
    &&& has_record(c, t, c.start)
    &&& (scan_pos == c.start || t.closed[cell_index(c, c.start)])
    &&& t.path == Seq::<(u32, u32)>::empty()
    &&& fin_ok(c, t)
    &&& (t.finished ==> t.closed[cell_index(c, scan_pos)])
    &&& (!t.finished ==> !t.closed[cell_index(c, scan_pos)])
}

/// The state after examining neighbour `k` of `scan_pos` (whose record is
/// `cur`): skipped when the search just finished, when the neighbour is
/// impassable or closed; otherwise the neighbour's record is created or
/// replaced exactly when it improves, and the target short-circuits the scan.
pub open spec fn relax_one(c: Ctx, t: State, scan_pos: (u32, u32), cur: Cell, k: int) -> State {
    if t.finished {
        t
    } else {
        let nx: int = scan_pos.0 + neighbour_dx(k);
        let ny: int = scan_pos.1 + neighbour_dy(k);
        if !passable_at(c, nx, ny) {
            t
        } else {
            let np = ((nx as u32), (ny as u32));
            if t.closed[cell_index(c, np)] {
                t
            } else {
                let dir = spec_direction(np, scan_pos);
                let new_cell = Cell {
                    cost: (cur.cost + spec_cost_by_direction(dir)) as u64,
                    goal_distance: spec_goal_distance(np, c.target) as u64,
                    direction: dir,
                };
                if np == c.target {
                    State {
                        cells: t.cells.update(cell_index(c, np), Some(new_cell)),
                        closed: t.closed.update(cell_index(c, scan_pos), true),
                        finished: true,
                        ..t
                    }
                } else {
                    match record_at(c, t, np) {
                        Some(existing) => {
                            if new_cell.spec_total_cost() >= existing.spec_total_cost() {
                                t
                            } else {
                                State {
                                    open: remove_pos(t.open, np).push(
                                        ((new_cell.spec_total_cost() as u64), np),
                                    ),
                                    cells: t.cells.update(cell_index(c, np), Some(new_cell)),
                                    ..t
                                }
                            }
                        },
                        None => State {
                            open: t.open.push(((new_cell.spec_total_cost() as u64), np)),
                            cells: t.cells.update(cell_index(c, np), Some(new_cell)),
                            ..t
                        },
                    }
                }
            }
        }
    }
}

/// The state after examining the first `k` neighbours of `scan_pos`.
pub open spec fn relax_upto(c: Ctx, t: State, scan_pos: (u32, u32), cur: Cell, k: int) -> State
    decreases k,
{
    if k <= 0 {
        t
    } else {
        relax_one(c, relax_upto(c, t, scan_pos, cur, k - 1), scan_pos, cur, k - 1)
    }
}

/// Idempotent seeding: when the frontier is empty and the start has no record
/// yet, the start is queued with cost zero and no predecessor.
pub open spec fn seeded(c: Ctx, t: State) -> State {
    if t.open.len() == 0 && record_at(c, t, c.start) is None {
        let start_cell = Cell {
            cost: 0,
            goal_distance: spec_goal_distance(c.start, c.target) as u64,
            direction: Direction::Unknown,
        };
        State {
            open: t.open.push(((start_cell.spec_total_cost() as u64), c.start)),
            cells: t.cells.update(cell_index(c, c.start), Some(start_cell)),
            ..t
        }
    } else {
        t
    }
}

/// One expansion step: seed if needed, pop the cheapest frontier entry, relax
/// its eight neighbours, close it, and on completion cache the path.
pub open spec fn scan_step(c: Ctx, t: State) -> State {
    if t.finished {
        t
    } else {
        let t0 = seeded(c, t);
        if t0.open.len() == 0 {
            t0
        } else {
            let i = min_entry_index(t0.open);
            let scan_pos = t0.open[i].1;
            let t1 = State { open: t0.open.remove(i), ..t0 };
            match record_at(c, t1, scan_pos) {
                None => t1,
                Some(cur) => {
                    let t2 = relax_upto(c, t1, scan_pos, cur, 8);
                    let t3 = State {
                        closed: t2.closed.update(cell_index(c, scan_pos), true),
                        ..t2
                    };
                    if t3.finished {
                        State {
                            path: walk(
                                c,
                                t3.cells,
                                c.target,
                                seq![c.target],
                                (c.width * c.height) as nat,
                            ),
                            ..t3
                        }
                    } else {
                        t3
                    }
                },
            }
        }
    }
}

/// Up to `n` expansion steps, stopping as soon as the search finishes.
pub open spec fn run_steps(c: Ctx, t: State, n: nat) -> State
    decreases n,
{
    if n == 0 || t.finished {
        t
    } else {
        run_steps(c, scan_step(c, t), (n - 1) as nat)
    }
}

/// The state after a run to completion: the trivial search finishes at once
/// with the single-cell path, an impassable target is rejected without any
/// search, and otherwise the seeded session is expanded for at most one step
/// per grid cell.
pub open spec fn generate_result(c: Ctx, t: State) -> State {
    if c.start == c.target {
        State { finished: true, path: seq![c.start], ..t }
    } else if !passable_pos(c, c.target) {
        t
    } else {
        run_steps(c, seeded(c, t), (c.width * c.height) as nat)
    }
}

/// Backward walk of the predecessor links: from `from`, repeatedly step by the
/// stored direction, collecting each predecessor, until the start is reached,
/// a cell without a record or direction stops the walk, or the fuel — one unit
/// per grid cell — runs out.
pub open spec fn walk(
    c: Ctx,
    cells: Seq<Option<Cell>>,
    from: (u32, u32),
    acc: Seq<(u32, u32)>,
    fuel: nat,
) -> Seq<(u32, u32)>
    decreases fuel,
{
    if from == c.start {
        acc
    } else if fuel == 0 {
        acc
    } else {
        match cells[cell_index(c, from)] {
            None => acc,
            Some(cell) => {
                if cell.direction is Unknown {
                    acc
                } else {
                    let nxt = (
                        ((from.0 + direction_dx(cell.direction)) as u32),
                        ((from.1 + direction_dy(cell.direction)) as u32),
                    );
                    walk(c, cells, nxt, acc.push(nxt), (fuel - 1) as nat)
                }
            },
        }
    }
}

/// The path a finished session reconstructs: target first, start last; empty
/// while the search is unfinished.
pub open spec fn reconstructed_path(c: Ctx, t: State) -> Seq<(u32, u32)> {
    if !t.finished {
        Seq::empty()
    } else {
        walk(c, t.cells, c.target, seq![c.target], (c.width * c.height) as nat)
    }
}

/// The state of a freshly constructed session: nothing queued, no records,
/// nothing closed.
pub open spec fn initial_state(c: Ctx) -> State {
    State {
        open: Seq::empty(),
        cells: Seq::new((c.width * c.height) as nat, |i: int| None::<Cell>),
        closed: Seq::new((c.width * c.height) as nat, |i: int| false),
        finished: false,
        path: Seq::empty(),
    }
}

/// Row-major indices of on-grid coordinates stay within the cell arrays.
pub proof fn lemma_cell_index_bounds(c: Ctx, p: (u32, u32))
    requires
        ctx_wf(c),
        in_bounds(c, p),
    ensures
        0 <= cell_index(c, p) < c.width * c.height,
{
    assert(p.1 * c.width + p.0 < c.width * c.height) by (nonlinear_arith)
        requires
            0 <= p.0 < c.width,
            0 <= p.1 < c.height,
    ;
}

/// Row-major indexing is injective on on-grid coordinates.
pub proof fn lemma_cell_index_injective(c: Ctx, p: (u32, u32), q: (u32, u32))
    requires
        ctx_wf(c),
        in_bounds(c, p),
        in_bounds(c, q),
        cell_index(c, p) == cell_index(c, q),
    ensures
        p == q,
{
    assert(p.0 == q.0 && p.1 == q.1) by (nonlinear_arith)
        requires
            0 <= p.0 < c.width,
            0 <= q.0 < c.width,
            p.1 * c.width + p.0 == q.1 * c.width + q.0,
    ;
}

/// The closed count is a count: between zero and the sequence length.
pub proof fn lemma_count_true_bounds(s: Seq<bool>)
    ensures
        0 <= count_true(s) <= s.len(),
    decreases s.len(),
{
    if s.len() > 0 {
        lemma_count_true_bounds(s.drop_last());
    }
}

/// Setting one flag to `true` raises the count by one, or leaves it unchanged
/// when the flag already was `true`.
pub proof fn lemma_count_true_update(s: Seq<bool>, i: int)
    requires
        0 <= i < s.len(),
    ensures
        count_true(s.update(i, true)) == count_true(s) + if s[i] {
            0int
        } else {
            1int
        },
    decreases s.len(),
{
    let u = s.update(i, true);
    if i == s.len() - 1 {
        assert(u.drop_last() =~= s.drop_last());
    } else {
        assert(u.drop_last() =~= s.drop_last().update(i, true));
        assert(u.last() == s.last());
        lemma_count_true_update(s.drop_last(), i);
    }
}

/// The octile distance between two on-grid coordinates is non-negative and
/// bounded by the grid perimeter in diagonal steps.
pub proof fn lemma_goal_distance_bounds(c: Ctx, p: (u32, u32), q: (u32, u32))
    requires
        ctx_wf(c),
        in_bounds(c, p),
        in_bounds(c, q),
    ensures
        0 <= spec_goal_distance(p, q) <= (c.width + c.height) * (DIAGONAL_COST as int),
{
    let dx: int = abs_diff(p.0 as int, q.0 as int);
    let dy: int = abs_diff(p.1 as int, q.1 as int);
    let diagonal: int = if dx <= dy {
        dx
    } else {
        dy
    };
    let straight: int = (dx - diagonal) + (dy - diagonal);
    assert(0 <= dx < c.width && 0 <= dy < c.height);
    assert(diagonal * (DIAGONAL_COST as int) + straight * (10000int) <= (c.width + c.height) * (
    DIAGONAL_COST as int)) by (nonlinear_arith)
        requires
            0 <= diagonal,
            0 <= straight,
            diagonal + straight <= c.width + c.height,
    ;
    assert(0 <= diagonal * (DIAGONAL_COST as int) + straight * (10000int)) by (nonlinear_arith)
        requires
            0 <= diagonal,
            0 <= straight,
    ;
}

/// The popped index is valid and holds a minimal total cost.
pub proof fn lemma_min_entry_index(s: Seq<(u64, (u32, u32))>)
    requires
        s.len() > 0,
    ensures
        0 <= min_entry_index(s) < s.len(),
        forall|i: int| 0 <= i < s.len() ==> s[min_entry_index(s)].0 <= (#[trigger] s[i]).0,
    decreases s.len(),
{
    if s.len() > 1 {
        lemma_min_entry_index(s.drop_last());
        let d = s.drop_last();
        let m = min_entry_index(s);
        assert forall|i: int| 0 <= i < s.len() implies s[m].0 <= (#[trigger] s[i]).0 by {
            if i < s.len() - 1 {
                assert(d[i] == s[i]);
                assert(d[min_entry_index(d)].0 <= d[i].0);
            }
        }
    }
}

/// Removing a coordinate from the frontier keeps a subset of the entries: the
/// result is no longer, holds no entry for `pos`, and every remaining entry
/// occurs in the original.
pub proof fn lemma_remove_pos_entries(s: Seq<(u64, (u32, u32))>, pos: (u32, u32))
    ensures
        remove_pos(s, pos).len() <= s.len(),
        forall|j: int|
            0 <= j < remove_pos(s, pos).len() ==> (#[trigger] remove_pos(s, pos)[j]).1 != pos,
        forall|j: int|
            0 <= j < remove_pos(s, pos).len() ==> exists|i: int|
                0 <= i < s.len() && s[i] == #[trigger] remove_pos(s, pos)[j],
    decreases s.len(),
{
    if s.len() > 0 {
        lemma_remove_pos_entries(s.drop_last(), pos);
        let r = remove_pos(s, pos);
        let rr = remove_pos(s.drop_last(), pos);
        assert forall|j: int| 0 <= j < r.len() implies exists|i: int|
            0 <= i < s.len() && s[i] == #[trigger] r[j] by {
            if s.last().1 == pos || j < rr.len() {
                let i0 = choose|i: int| 0 <= i < s.drop_last().len() && s.drop_last()[i] == rr[j];
                assert(s[i0] == r[j]);
            } else {
                assert(s[s.len() - 1] == r[j]);
            }
        }
    }
}

/// Removing one coordinate from the frontier keeps every entry queued for
/// another coordinate.
pub proof fn lemma_remove_pos_keeps(s: Seq<(u64, (u32, u32))>, pos: (u32, u32))
    ensures
        forall|j: int|
            0 <= j < s.len() && (#[trigger] s[j]).1 != pos ==> exists|j2: int|
                0 <= j2 < remove_pos(s, pos).len() && remove_pos(s, pos)[j2] == s[j],
    decreases s.len(),
{
    if s.len() > 0 {
        let d = s.drop_last();
        let r = remove_pos(s, pos);
        let rr = remove_pos(d, pos);
        lemma_remove_pos_keeps(d, pos);
        assert forall|j: int| 0 <= j < s.len() && (#[trigger] s[j]).1 != pos implies exists|j2: int|
            0 <= j2 < r.len() && r[j2] == s[j] by {
            if j < s.len() - 1 {
                assert(d[j] == s[j]);
                let j0 = choose|j0: int| 0 <= j0 < rr.len() && rr[j0] == d[j];
                assert(r[j0] == s[j]);
            } else {
                assert(r[r.len() - 1] == s[j]);
            }
        }
    }
}

/// Removing a coordinate keeps the remaining entries' coordinates pairwise
/// distinct.
pub proof fn lemma_remove_pos_nodup(s: Seq<(u64, (u32, u32))>, pos: (u32, u32))
    requires
        forall|i: int, j: int| 0 <= i < j < s.len() ==> (#[trigger] s[i]).1 != (#[trigger] s[j]).1,
    ensures
        forall|i: int, j: int|
            0 <= i < j < remove_pos(s, pos).len() ==> (#[trigger] remove_pos(s, pos)[i]).1 != (
            #[trigger] remove_pos(s, pos)[j]).1,
    decreases s.len(),
{
    if s.len() > 0 {
        let d = s.drop_last();
        assert(forall|i: int, j: int|
            0 <= i < j < d.len() ==> (#[trigger] d[i]).1 != (#[trigger] d[j]).1);
        lemma_remove_pos_nodup(d, pos);
        lemma_remove_pos_entries(d, pos);
        let r = remove_pos(s, pos);
        let rr = remove_pos(d, pos);
        if s.last().1 != pos {
            assert forall|i: int, j: int| 0 <= i < j < r.len() implies (#[trigger] r[i]).1 != (
            #[trigger] r[j]).1 by {
                if j == r.len() - 1 {
                    let i0 = choose|i0: int| 0 <= i0 < d.len() && d[i0] == rr[i];
                    assert(s[i0] == rr[i]);
                    assert(s[i0].1 != s.last().1);
                } else {
                    assert(rr[i] == r[i] && rr[j] == r[j]);
                }
            }
        }
    }
}

/// A freshly constructed session is well-formed.
pub proof fn lemma_initial_wf(c: Ctx)
    requires
        ctx_wf(c),
    ensures
        wf(c, initial_state(c)),
{
    let t = initial_state(c);
    assert forall|p: (u32, u32)| in_bounds(c, p) && #[trigger] has_record(c, t, p) implies
        record_ok(c, t, p) by {
        lemma_cell_index_bounds(c, p);
    }
    assert forall|p: (u32, u32)| in_bounds(c, p) && #[trigger] t.closed[cell_index(c, p)] implies
        has_record(c, t, p) by {
        lemma_cell_index_bounds(c, p);
    }
    lemma_count_true_all_false(t.closed);
    lemma_cell_index_bounds(c, c.start);
}

/// A sequence of `false` flags counts to zero.
pub proof fn lemma_count_true_all_false(s: Seq<bool>)
    requires
        forall|i: int| 0 <= i < s.len() ==> !(#[trigger] s[i]),
    ensures
        count_true(s) == 0,
    decreases s.len(),
{
    if s.len() > 0 {
        lemma_count_true_all_false(s.drop_last());
    }
}

/// Seeding preserves the session invariant.
pub proof fn lemma_seeded_wf(c: Ctx, t: State)
    requires
        wf(c, t),
    ensures
        wf(c, seeded(c, t)),
{
    if t.open.len() == 0 && record_at(c, t, c.start) is None {
        let start_cell = Cell {
            cost: 0,
            goal_distance: spec_goal_distance(c.start, c.target) as u64,
            direction: Direction::Unknown,
        };
        let t1 = seeded(c, t);
        let si = cell_index(c, c.start);
        lemma_cell_index_bounds(c, c.start);
        lemma_goal_distance_bounds(c, c.start, c.target);
        lemma_count_true_bounds(t.closed);
        // The start cannot be closed: closed cells have records.
        assert(!t.closed[si]);
        assert(count_true(t.closed) == 0) by {
            if count_true(t.closed) > 0 {
                assert(t.closed[cell_index(c, c.start)]);
            }
        }
        assert forall|p: (u32, u32)| in_bounds(c, p) && #[trigger] has_record(c, t1, p) implies
            record_ok(c, t1, p) by {
            lemma_cell_index_bounds(c, p);
            if cell_index(c, p) == si {
                lemma_cell_index_injective(c, p, c.start);
                assert(record_at(c, t1, p) == Some(start_cell));
            } else {
                assert(record_at(c, t1, p) == record_at(c, t, p));
                assert(has_record(c, t, p));
                assert(record_ok(c, t, p));
                if p != c.start {
                    let d = record_at(c, t, p).unwrap().direction;
                    let q = (((p.0 + direction_dx(d)) as u32), ((p.1 + direction_dy(d)) as u32));
                    assert(has_record(c, t, q));
                    assert(cell_index(c, q) != si) by {
                        if cell_index(c, q) == si {
                            lemma_cell_index_injective(c, q, c.start);
                        }
                    }
                    assert(record_at(c, t1, q) == record_at(c, t, q));
                }
            }
        }
        assert forall|p: (u32, u32)| in_bounds(c, p) && #[trigger] t1.closed[cell_index(c, p)]
            implies has_record(c, t1, p) by {
            lemma_cell_index_bounds(c, p);
            assert(has_record(c, t, p));
        }
        if !t1.finished {
            assert(open_ok(c, t1)) by {
                assert(record_at(c, t1, c.start) == Some(start_cell));
                assert(t1.open[0] == ((start_cell.spec_total_cost() as u64), c.start));
            }
        }
        assert(fin_ok(c, t1)) by {
            if t1.finished && c.start != c.target {
                let q0 = choose|q: (u32, u32)|
                    in_bounds(c, q) && #[trigger] has_record(c, t, q) && q != c.target
                        && adjacent8(q, c.target);
                assert(cell_index(c, q0) != si ==> record_at(c, t1, q0) == record_at(c, t, q0));
                if cell_index(c, q0) == si {
                    lemma_cell_index_injective(c, q0, c.start);
                }
                assert(has_record(c, t1, q0));
                assert(has_record(c, t1, c.target)) by {
                    if cell_index(c, c.target) == si {
                        lemma_cell_index_injective(c, c.target, c.start);
                    }
                }
            }
        }
        assert(path_ok(c, t1)) by {
            if t1.finished {
                // A finished non-trivial search has a start record, so seeding
                // only happens in the trivial case, where the walk ends at once.
                assert(c.start == c.target);
                assert(walk(c, t.cells, c.target, seq![c.target], (c.width * c.height) as nat)
                    == seq![c.target]);
                assert(walk(c, t1.cells, c.target, seq![c.target], (c.width * c.height) as nat)
                    == seq![c.target]);
            }
        }
    }
}

/// Examining one neighbour preserves the mid-expansion invariant.
#[verifier::rlimit(60)]
pub proof fn lemma_relax_one_mid(c: Ctx, t: State, scan_pos: (u32, u32), cur: Cell, k: int)
    requires
        mid_ok(c, t, scan_pos, cur),
        0 <= k < 8,
    ensures
        mid_ok(c, relax_one(c, t, scan_pos, cur, k), scan_pos, cur),
{
    let t1 = relax_one(c, t, scan_pos, cur, k);
    let nx: int = scan_pos.0 + neighbour_dx(k);
    let ny: int = scan_pos.1 + neighbour_dy(k);
    if !t.finished && passable_at(c, nx, ny) {
        let np = ((nx as u32), (ny as u32));
        assert(np.0 == nx && np.1 == ny);
        lemma_cell_index_bounds(c, np);
        lemma_cell_index_bounds(c, scan_pos);
        lemma_cell_index_bounds(c, c.start);
        assert(neighbour_dx(k) != 0 || neighbour_dy(k) != 0);
        assert(np != scan_pos);
        assert(cell_index(c, np) != cell_index(c, scan_pos)) by {
            if cell_index(c, np) == cell_index(c, scan_pos) {
                lemma_cell_index_injective(c, np, scan_pos);
            }
        }
        if !t.closed[cell_index(c, np)] {
            assert(np != c.start) by {
                if np == c.start {
                    assert(scan_pos == c.start || t.closed[cell_index(c, c.start)]);
                }
            }
            let dir = spec_direction(np, scan_pos);
            assert(adjacent8(np, scan_pos));
            lemma_direction_steps_back(np, scan_pos);
            let new_cell = Cell {
                cost: (cur.cost + spec_cost_by_direction(dir)) as u64,
                goal_distance: spec_goal_distance(np, c.target) as u64,
                direction: dir,
            };
            let cnt = count_true(t.closed);
            let slack = closed_slack(c, t, scan_pos);
            lemma_count_true_bounds(t.closed);
            lemma_goal_distance_bounds(c, np, c.target);
            assert(spec_cost_by_direction(dir) <= DIAGONAL_COST);
            assert(cur.cost + spec_cost_by_direction(dir) <= (cnt + slack) * (DIAGONAL_COST as int));
            assert((cnt + slack) * (DIAGONAL_COST as int) <= (c.width * c.height + 1) * (
            DIAGONAL_COST as int));
            assert(new_cell.cost == cur.cost + spec_cost_by_direction(dir));
            assert(new_cell.goal_distance == spec_goal_distance(np, c.target));
            assert(new_cell.spec_total_cost() <= (c.width * c.height + c.width + c.height + 1) * (
            DIAGONAL_COST as int));
            // Stepping back from the neighbour by its stored direction lands
            // on the cell being expanded.
            let q_of_np = (((np.0 + direction_dx(dir)) as u32), ((np.1 + direction_dy(dir)) as u32));
            assert(q_of_np == scan_pos);
            if np == c.target {
                let cnt1 = count_true(t1.closed);
                lemma_count_true_update(t.closed, cell_index(c, scan_pos));
                assert(!t.closed[cell_index(c, scan_pos)]);
                assert(cnt1 == cnt + 1);
                assert(closed_slack(c, t1, scan_pos) == 0);
                assert(record_at(c, t1, scan_pos) == Some(cur));
                assert(record_at(c, t1, np) == Some(new_cell));
                assert forall|p: (u32, u32)| in_bounds(c, p) && #[trigger] has_record(c, t1, p)
                    implies record_ok_mid(c, t1, scan_pos, p) by {
                    lemma_cell_index_bounds(c, p);
                    if cell_index(c, p) == cell_index(c, np) {
                        lemma_cell_index_injective(c, p, np);
                        assert(record_at(c, t1, p) == Some(new_cell));
                    } else {
                        assert(record_at(c, t1, p) == record_at(c, t, p));
                        assert(has_record(c, t, p));
                        assert(record_ok_mid(c, t, scan_pos, p));
                        if p != c.start {
                            let d = record_at(c, t, p).unwrap().direction;
                            let q = (((p.0 + direction_dx(d)) as u32), ((p.1 + direction_dy(
                                d,
                            )) as u32));
                            assert(has_record(c, t, q));
                            assert(in_bounds(c, q));
                            lemma_cell_index_bounds(c, q);
                            assert(cell_index(c, q) != cell_index(c, np)) by {
                                if cell_index(c, q) == cell_index(c, np) {
                                    lemma_cell_index_injective(c, q, np);
                                    assert(t.closed[cell_index(c, q)] || q == scan_pos);
                                }
                            }
                            assert(record_at(c, t1, q) == record_at(c, t, q));
                            assert(t.closed[cell_index(c, q)] ==> t1.closed[cell_index(c, q)]);
                        }
                    }
                }
                assert forall|p: (u32, u32)| in_bounds(c, p) && #[trigger] t1.closed[cell_index(
                    c,
                    p,
                )] implies has_record(c, t1, p) by {
                    lemma_cell_index_bounds(c, p);
                    if cell_index(c, p) == cell_index(c, scan_pos) {
                        assert(record_at(c, t1, p) == record_at(c, t, p));
                        assert(has_record(c, t, scan_pos));
                    } else {
                        assert(t.closed[cell_index(c, p)]);
                        assert(has_record(c, t, p));
                    }
                }
                assert(fin_ok(c, t1)) by {
                    assert(c.start != c.target);
                    assert(has_record(c, t1, c.start));
                    assert(has_record(c, t1, c.target));
                    assert(in_bounds(c, scan_pos) && has_record(c, t1, scan_pos) && scan_pos
                        != c.target && adjacent8(scan_pos, c.target));
                }
                assert(t1.closed[cell_index(c, scan_pos)]);
            } else {
                let total_entry = ((new_cell.spec_total_cost() as u64), np);
                assert(total_entry.0 == new_cell.spec_total_cost());
                match record_at(c, t, np) {
                    Some(existing) => {
                        if new_cell.spec_total_cost() < existing.spec_total_cost() {
                            let rp = remove_pos(t.open, np);
                            let new_open = rp.push(total_entry);
                            lemma_remove_pos_entries(t.open, np);
                            lemma_remove_pos_nodup(t.open, np);
                            assert forall|i: int|
                                0 <= i < new_open.len() && (#[trigger] new_open[i]).1 != np
                                implies exists|j: int|
                                0 <= j < t.open.len() && t.open[j] == new_open[i] by {
                                assert(i < rp.len());
                                assert(new_open[i] == rp[i]);
                            }
                            assert forall|i: int, j: int| 0 <= i < j < new_open.len() implies (
                            #[trigger] new_open[i]).1 != (#[trigger] new_open[j]).1 by {
                                if j == new_open.len() - 1 {
                                    assert(rp[i].1 != np);
                                } else {
                                    assert(new_open[i] == rp[i] && new_open[j] == rp[j]);
                                }
                            }
                            lemma_relax_requeue_mid(c, t, scan_pos, cur, np, new_cell, new_open);
                        }
                    },
                    None => {
                        let new_open = t.open.push(total_entry);
                        assert forall|i: int| 0 <= i < t.open.len() implies (
                        #[trigger] t.open[i]).1 != np by {
                            assert(open_entry_ok(c, t, t.open[i]));
                        }
                        assert forall|i: int|
                            0 <= i < new_open.len() && (#[trigger] new_open[i]).1 != np implies
                            exists|j: int| 0 <= j < t.open.len() && t.open[j] == new_open[i] by {
                            assert(i < t.open.len());
                            assert(new_open[i] == t.open[i]);
                        }
                        assert forall|i: int, j: int| 0 <= i < j < new_open.len() implies (
                        #[trigger] new_open[i]).1 != (#[trigger] new_open[j]).1 by {
                            if j == new_open.len() - 1 {
                                assert(t.open[i].1 != np);
                            } else {
                                assert(new_open[i] == t.open[i] && new_open[j] == t.open[j]);
                            }
                        }
                        lemma_relax_requeue_mid(c, t, scan_pos, cur, np, new_cell, new_open);
                    },
                }
            }
        }
    }
}

/// Creating or replacing the record of an unclosed, passable, non-start
/// neighbour `np`, and requeueing it, preserves the mid-expansion invariant —
/// for the cell part; the frontier part is handled at the call sites.
#[verifier::rlimit(60)]
proof fn lemma_relax_requeue_mid(
    c: Ctx,
    t: State,
    scan_pos: (u32, u32),
    cur: Cell,
    np: (u32, u32),
    new_cell: Cell,
    new_open: Seq<(u64, (u32, u32))>,
)
    requires
        mid_ok(c, t, scan_pos, cur),
        !t.finished,
        in_bounds(c, np),
        passable_pos(c, np),
        np != scan_pos,
        np != c.start,
        !t.closed[cell_index(c, np)],
        new_cell.direction == spec_direction(np, scan_pos),
        !(new_cell.direction is Unknown),
        np.0 + direction_dx(new_cell.direction) == scan_pos.0,
        np.1 + direction_dy(new_cell.direction) == scan_pos.1,
        new_cell.cost == cur.cost + spec_cost_by_direction(new_cell.direction),
        new_cell.goal_distance == spec_goal_distance(np, c.target),
        forall|i: int|
            0 <= i < new_open.len() ==> (#[trigger] new_open[i]).1 != np ==> exists|j: int|
                0 <= j < t.open.len() && t.open[j] == new_open[i],
        forall|i: int|
            0 <= i < new_open.len() ==> (#[trigger] new_open[i]).1 == np ==> new_open[i].0
                == new_cell.spec_total_cost(),
        forall|i: int, j: int|
            0 <= i < j < new_open.len() ==> (#[trigger] new_open[i]).1 != (
            #[trigger] new_open[j]).1,
    ensures
        mid_ok(
            c,
            State {
                open: new_open,
                cells: t.cells.update(cell_index(c, np), Some(new_cell)),
                ..t
            },
            scan_pos,
            cur,
        ),
{
    let t1 = State {
        open: new_open,
        cells: t.cells.update(cell_index(c, np), Some(new_cell)),
        ..t
    };
    lemma_cell_index_bounds(c, np);
    lemma_cell_index_bounds(c, scan_pos);
    lemma_count_true_bounds(t.closed);
    assert(cell_index(c, np) != cell_index(c, scan_pos)) by {
        if cell_index(c, np) == cell_index(c, scan_pos) {
            lemma_cell_index_injective(c, np, scan_pos);
        }
    }
    assert(record_at(c, t1, scan_pos) == Some(cur));
    assert(record_at(c, t1, np) == Some(new_cell));
    assert(spec_cost_by_direction(new_cell.direction) <= DIAGONAL_COST);
    assert forall|p: (u32, u32)| in_bounds(c, p) && #[trigger] has_record(c, t1, p) implies
        record_ok_mid(c, t1, scan_pos, p) by {
        lemma_cell_index_bounds(c, p);
        if cell_index(c, p) == cell_index(c, np) {
            lemma_cell_index_injective(c, p, np);
            assert(record_at(c, t1, p) == Some(new_cell));
        } else {
            assert(record_at(c, t1, p) == record_at(c, t, p));
            assert(has_record(c, t, p));
            assert(record_ok_mid(c, t, scan_pos, p));
            if p != c.start {
                let d = record_at(c, t, p).unwrap().direction;
                let q = (((p.0 + direction_dx(d)) as u32), ((p.1 + direction_dy(d)) as u32));
                assert(has_record(c, t, q));
                assert(in_bounds(c, q));
                lemma_cell_index_bounds(c, q);
                assert(cell_index(c, q) != cell_index(c, np)) by {
                    if cell_index(c, q) == cell_index(c, np) {
                        lemma_cell_index_injective(c, q, np);
                        assert(t.closed[cell_index(c, q)] || q == scan_pos);
                    }
                }
                assert(record_at(c, t1, q) == record_at(c, t, q));
            }
        }
    }
    assert forall|p: (u32, u32)| in_bounds(c, p) && #[trigger] t1.closed[cell_index(c, p)] implies
        has_record(c, t1, p) by {
        lemma_cell_index_bounds(c, p);
        assert(t.closed[cell_index(c, p)]);
        assert(has_record(c, t, p));
    }
    assert(open_ok(c, t1)) by {
        assert forall|i: int| 0 <= i < t1.open.len() implies open_entry_ok(
            c,
            t1,
            #[trigger] t1.open[i],
        ) by {
            let e = t1.open[i];
            if e.1 == np {
                assert(e.0 == new_cell.spec_total_cost());
            } else {
                let j = choose|j: int| 0 <= j < t.open.len() && t.open[j] == e;
                assert(open_entry_ok(c, t, e));
                lemma_cell_index_bounds(c, e.1);
                assert(cell_index(c, e.1) != cell_index(c, np)) by {
                    if cell_index(c, e.1) == cell_index(c, np) {
                        lemma_cell_index_injective(c, e.1, np);
                    }
                }
                assert(record_at(c, t1, e.1) == record_at(c, t, e.1));
            }
        }
    }
    assert forall|i: int| 0 <= i < t1.open.len() implies (#[trigger] t1.open[i]).1 != scan_pos by {
        let e = t1.open[i];
        if e.1 != np {
            let j = choose|j: int| 0 <= j < t.open.len() && t.open[j] == e;
            assert(t.open[j].1 != scan_pos);
        }
    }
    assert(has_record(c, t1, c.start));
}

/// Examining the first `k` neighbours preserves the mid-expansion invariant.
pub proof fn lemma_relax_upto_mid(c: Ctx, t: State, scan_pos: (u32, u32), cur: Cell, k: int)
    requires
        mid_ok(c, t, scan_pos, cur),
        0 <= k <= 8,
    ensures
        mid_ok(c, relax_upto(c, t, scan_pos, cur, k), scan_pos, cur),
    decreases k,
{
    if k > 0 {
        lemma_relax_upto_mid(c, t, scan_pos, cur, k - 1);
        lemma_relax_one_mid(c, relax_upto(c, t, scan_pos, cur, k - 1), scan_pos, cur, k - 1);
    }
}

/// Popping the cheapest frontier entry of a well-formed, unfinished session
/// establishes the mid-expansion invariant.
#[verifier::rlimit(60)]
pub proof fn lemma_pop_establishes_mid(c: Ctx, t0: State)
    requires
        wf(c, t0),
        !t0.finished,
        t0.open.len() > 0,
        0 <= min_entry_index(t0.open) < t0.open.len(),
    ensures
        ({
            let i = min_entry_index(t0.open);
            let scan_pos = t0.open[i].1;
            let t1 = State { open: t0.open.remove(i), ..t0 };
            record_at(c, t1, scan_pos) is Some && mid_ok(
                c,
                t1,
                scan_pos,
                record_at(c, t1, scan_pos).unwrap(),
            )
        }),
{
    let i = min_entry_index(t0.open);
    let e = t0.open[i];
    let scan_pos = e.1;
    assert(open_entry_ok(c, t0, e));
    lemma_cell_index_bounds(c, scan_pos);
    lemma_cell_index_bounds(c, c.start);
    let t1 = State { open: t0.open.remove(i), ..t0 };
    t0.open.remove_ensures(i);
    assert(record_at(c, t1, scan_pos) == record_at(c, t0, scan_pos));
    let cur = record_at(c, t1, scan_pos).unwrap();
    assert(record_at(c, t1, scan_pos) == Some(cur));
    // every remaining frontier entry is an original entry other than i
    assert forall|j: int| 0 <= j < t1.open.len() implies exists|j0: int|
        0 <= j0 < t0.open.len() && j0 != i && t0.open[j0] == #[trigger] t1.open[j] by {
        if j < i {
            assert(t0.open[j] == t1.open[j]);
        } else {
            assert(t0.open[j + 1] == t1.open[j]);
        }
    }
    assert forall|p: (u32, u32)| in_bounds(c, p) && #[trigger] has_record(c, t1, p) implies
        record_ok_mid(c, t1, scan_pos, p) by {
        assert(has_record(c, t0, p));
        assert(record_ok(c, t0, p));
        lemma_count_true_bounds(t1.closed);
    }
    assert(cur.cost <= count_true(t0.closed) * (DIAGONAL_COST as int)) by {
        assert(has_record(c, t0, scan_pos));
        assert(record_ok(c, t0, scan_pos));
    }
    assert(closed_slack(c, t1, scan_pos) == 1);
    assert forall|j: int| 0 <= j < t1.open.len() implies open_entry_ok(
        c,
        t1,
        #[trigger] t1.open[j],
    ) by {
        let j0 = choose|j0: int| 0 <= j0 < t0.open.len() && j0 != i && t0.open[j0] == t1.open[j];
        assert(open_entry_ok(c, t0, t0.open[j0]));
    }
    assert forall|j: int, j2: int| 0 <= j < j2 < t1.open.len() implies (#[trigger] t1.open[j]).1
        != (#[trigger] t1.open[j2]).1 by {
        if j2 < i {
            assert(t1.open[j] == t0.open[j] && t1.open[j2] == t0.open[j2]);
        } else if j < i {
            assert(t1.open[j] == t0.open[j] && t1.open[j2] == t0.open[j2 + 1]);
        } else {
            assert(t1.open[j] == t0.open[j + 1] && t1.open[j2] == t0.open[j2 + 1]);
        }
    }
    assert forall|j: int| 0 <= j < t1.open.len() implies (#[trigger] t1.open[j]).1 != scan_pos by {
        let j0 = choose|j0: int| 0 <= j0 < t0.open.len() && j0 != i && t0.open[j0] == t1.open[j];
        if j0 < i {
            assert(t0.open[j0].1 != t0.open[i].1);
        } else {
            assert(t0.open[i].1 != t0.open[j0].1);
        }
    }
    assert(has_record(c, t1, c.start)) by {
        assert(has_record(c, t0, c.start));
    }
    assert(scan_pos == c.start || t1.closed[cell_index(c, c.start)]) by {
        if scan_pos != c.start {
            assert(0 <= i < t0.open.len() && (#[trigger] t0.open[i]).1 != c.start);
            assert(t0.closed[cell_index(c, c.start)]);
        }
    }
}

/// Closing the expanded cell turns the mid-expansion invariant back into the
/// session invariant, up to the cached path.
#[verifier::rlimit(100)]
#[verifier::spinoff_prover]
pub proof fn lemma_close_restores_wf(c: Ctx, t2: State, scan_pos: (u32, u32), cur: Cell)
    requires
        mid_ok(c, t2, scan_pos, cur),
    ensures
        wf0(c, State { closed: t2.closed.update(cell_index(c, scan_pos), true), ..t2 }),
{
    let t3 = State { closed: t2.closed.update(cell_index(c, scan_pos), true), ..t2 };
    lemma_cell_index_bounds(c, scan_pos);
    lemma_cell_index_bounds(c, c.start);
    lemma_count_true_update(t2.closed, cell_index(c, scan_pos));
    let cnt2 = count_true(t2.closed);
    let slack2 = closed_slack(c, t2, scan_pos);
    assert(count_true(t3.closed) == cnt2 + slack2);
    assert forall|p: (u32, u32)| in_bounds(c, p) && #[trigger] has_record(c, t3, p) implies
        record_ok(c, t3, p) by {
        assert(has_record(c, t2, p));
        assert(record_ok_mid(c, t2, scan_pos, p));
        lemma_cell_index_bounds(c, p);
        if p != c.start {
            let d = record_at(c, t2, p).unwrap().direction;
            let q = (((p.0 + direction_dx(d)) as u32), ((p.1 + direction_dy(d)) as u32));
            assert(in_bounds(c, q));
            lemma_cell_index_bounds(c, q);
        }
    }
    if !t3.finished {
        assert forall|j: int| 0 <= j < t3.open.len() implies open_entry_ok(
            c,
            t3,
            #[trigger] t3.open[j],
        ) by {
            assert(open_entry_ok(c, t2, t2.open[j]));
            assert(t2.open[j].1 != scan_pos);
            lemma_cell_index_bounds(c, t2.open[j].1);
            assert(cell_index(c, t2.open[j].1) != cell_index(c, scan_pos)) by {
                if cell_index(c, t2.open[j].1) == cell_index(c, scan_pos) {
                    lemma_cell_index_injective(c, t2.open[j].1, scan_pos);
                }
            }
        }
    }
    assert forall|p: (u32, u32)| in_bounds(c, p) && #[trigger] t3.closed[cell_index(c, p)] implies
        has_record(c, t3, p) by {
        lemma_cell_index_bounds(c, p);
        if cell_index(c, p) == cell_index(c, scan_pos) {
            lemma_cell_index_injective(c, p, scan_pos);
            assert(record_at(c, t2, scan_pos) == Some(cur));
        } else {
            assert(t2.closed[cell_index(c, p)]);
        }
    }
    assert(t3.closed[cell_index(c, c.start)]) by {
        if scan_pos == c.start {
            assert(t3.closed[cell_index(c, scan_pos)]);
        } else {
            assert(t2.closed[cell_index(c, c.start)]);
            assert(cell_index(c, c.start) != cell_index(c, scan_pos)) by {
                if cell_index(c, c.start) == cell_index(c, scan_pos) {
                    lemma_cell_index_injective(c, c.start, scan_pos);
                }
            }
        }
    }
    assert(fin_ok(c, t3)) by {
        if t3.finished && c.start != c.target {
            let q0 = choose|q: (u32, u32)|
                in_bounds(c, q) && #[trigger] has_record(c, t2, q) && q != c.target && adjacent8(
                    q,
                    c.target,
                );
            assert(has_record(c, t3, q0));
            assert(has_record(c, t3, c.start));
            assert(has_record(c, t3, c.target));
        }
    }
}

/// One expansion step preserves the session invariant.
#[verifier::rlimit(60)]
pub proof fn lemma_scan_step_wf(c: Ctx, t: State)
    requires
        wf(c, t),
    ensures
        wf(c, scan_step(c, t)),
{
    if !t.finished {
        lemma_seeded_wf(c, t);
        let t0 = seeded(c, t);
        if t0.open.len() > 0 {
            lemma_min_entry_index(t0.open);
            let i = min_entry_index(t0.open);
            let scan_pos = t0.open[i].1;
            assert(!t0.finished);
            let t1 = State { open: t0.open.remove(i), ..t0 };
            lemma_pop_establishes_mid(c, t0);
            let cur = record_at(c, t1, scan_pos).unwrap();
            lemma_relax_upto_mid(c, t1, scan_pos, cur, 8);
            let t2 = relax_upto(c, t1, scan_pos, cur, 8);
            let t3 = State { closed: t2.closed.update(cell_index(c, scan_pos), true), ..t2 };
            lemma_close_restores_wf(c, t2, scan_pos, cur);
            if t3.finished {
                let t4 = State {
                    path: walk(c, t3.cells, c.target, seq![c.target], (c.width * c.height) as nat),
                    ..t3
                };
                assert(wf0(c, t4)) by {
                    assert(t4.cells == t3.cells && t4.closed == t3.closed && t4.open == t3.open);
                    assert forall|p: (u32, u32)| in_bounds(c, p) && #[trigger] has_record(
                        c,
                        t4,
                        p,
                    ) implies record_ok(c, t4, p) by {
                        assert(has_record(c, t3, p));
                        assert(record_ok(c, t3, p));
                    }
                    assert forall|p: (u32, u32)| in_bounds(c, p) && #[trigger] t4.closed[
                        cell_index(c, p)] implies has_record(c, t4, p) by {
                        assert(t3.closed[cell_index(c, p)]);
                    }
                }
                assert(scan_step(c, t) == t4);
            } else {
                assert(scan_step(c, t) == t3);
            }
        }
    }
}

/// Finishing a trivial search — start and target coincide — with the
/// single-cell path preserves the session invariant.
pub proof fn lemma_finish_trivial_wf(c: Ctx, t: State)
    requires
        wf(c, t),
        c.start == c.target,
    ensures
        wf(c, State { finished: true, path: seq![c.start], ..t }),
{
    let t1 = State { finished: true, path: seq![c.start], ..t };
    assert forall|p: (u32, u32)| in_bounds(c, p) && #[trigger] has_record(c, t1, p) implies
        record_ok(c, t1, p) by {
        assert(has_record(c, t, p));
        assert(record_ok(c, t, p));
    }
    assert forall|p: (u32, u32)| in_bounds(c, p) && #[trigger] t1.closed[cell_index(c, p)] implies
        has_record(c, t1, p) by {
        assert(t.closed[cell_index(c, p)]);
        assert(has_record(c, t, p));
    }
    assert(walk(c, t1.cells, c.target, seq![c.target], (c.width * c.height) as nat)
        == seq![c.target]);
}

} // verus!
