//! The laws of the engine, each stated as a public proof function:
//! admissibility of the octile heuristic, the guarantees on reconstructed
//! paths (no walls, unit-step connectivity, idempotent reconstruction),
//! unreachability of a walled-in target, and determinism of a run.

use vstd::prelude::*;

use crate::cost::adjacent8;
use crate::cost::neighbour_dx;
use crate::cost::neighbour_dy;
use crate::cost::spec_cost_by_direction;
use crate::cost::spec_direction;
use crate::cost::spec_goal_distance;
use crate::cost::Cell;
use crate::model::Ctx;
use crate::model::State;
use crate::model::cell_index;
use crate::model::cells_ok;
use crate::model::ctx_wf;
use crate::model::dims_ok;
use crate::model::generate_result;
use crate::model::has_record;
use crate::model::in_bounds;
use crate::model::passable_at;
use crate::model::passable_pos;
use crate::model::record_at;
use crate::model::record_ok;
use crate::model::reconstructed_path;
use crate::model::walk;
use crate::cost::direction_dx;
use crate::cost::direction_dy;
use crate::search::PathFinding;

verus! {

/// Every two consecutive coordinates differ by one of the eight unit offsets.
pub open spec fn connected8(p: Seq<(u32, u32)>) -> bool {
    forall|i: int| 0 <= i < p.len() - 1 ==> adjacent8(#[trigger] p[i], p[i + 1])
}

/// Total movement cost of a move sequence: the sum, over consecutive pairs,
/// of the cost of the step between them.
pub open spec fn path_cost(p: Seq<(u32, u32)>) -> int
    decreases p.len(),
{
    if p.len() <= 1 {
        0
    } else {
        path_cost(p.drop_last()) + spec_cost_by_direction(
            spec_direction(p[p.len() - 1], p[p.len() - 2]),
        )
    }
}

/// The octile distance is consistent: moving one step from `b` to `a` lowers
/// it by at most the cost of that step.
pub proof fn lemma_octile_consistent(a: (u32, u32), b: (u32, u32), t: (u32, u32))
    requires
        adjacent8(a, b),
    ensures
        spec_goal_distance(a, t) <= spec_goal_distance(b, t) + spec_cost_by_direction(
            spec_direction(b, a),
        ),
{
}

/// The octile distance from the first to the last coordinate of a move
/// sequence never exceeds the sequence's cost plus the remaining distance.
pub proof fn lemma_path_lower_bound(p: Seq<(u32, u32)>, t: (u32, u32))
    requires
        p.len() >= 1,
        connected8(p),
    ensures
        spec_goal_distance(p[0], t) <= path_cost(p) + spec_goal_distance(p.last(), t),
    decreases p.len(),
{
    if p.len() > 1 {
        let d = p.drop_last();
        assert(connected8(d)) by {
            assert forall|i: int| 0 <= i < d.len() - 1 implies adjacent8(
                #[trigger] d[i],
                d[i + 1],
            ) by {
                assert(p[i] == d[i] && p[i + 1] == d[i + 1]);
            }
        }
        lemma_path_lower_bound(d, t);
        assert(adjacent8(p[p.len() - 2], p[p.len() - 1]));
        lemma_octile_consistent(p[p.len() - 2], p.last(), t);
    }
}

/// *Admissibility of the heuristic.*  The octile goal distance between two
/// coordinates is a lower bound on the movement cost of every 8-connected
/// move sequence between them; in particular no path can beat the heuristic's
/// estimate.
pub proof fn lemma_heuristic_admissible(p: Seq<(u32, u32)>)
    requires
        p.len() >= 1,
        connected8(p),
    ensures
        spec_goal_distance(p[0], p.last()) <= path_cost(p),
{
    lemma_path_lower_bound(p, p.last());
    assert(spec_goal_distance(p.last(), p.last()) == 0);
}

/// Every coordinate the backward walk visits or adds is a passable cell or
/// the start, and consecutive walk coordinates are one unit step apart.
proof fn lemma_walk_props(c: Ctx, t: State, from: (u32, u32), acc: Seq<(u32, u32)>, fuel: nat)
    requires
        ctx_wf(c),
        dims_ok(c, t),
        cells_ok(c, t),
        in_bounds(c, from),
        has_record(c, t, from) || from == c.start,
        acc.len() >= 1,
        acc.last() == from,
        forall|i: int|
            0 <= i < acc.len() ==> passable_pos(c, #[trigger] acc[i]) || acc[i] == c.start,
        forall|i: int| 0 <= i < acc.len() - 1 ==> adjacent8(#[trigger] acc[i], acc[i + 1]),
    ensures
        ({
            let r = walk(c, t.cells, from, acc, fuel);
            &&& forall|i: int|
                0 <= i < r.len() ==> passable_pos(c, #[trigger] r[i]) || r[i] == c.start
            &&& forall|i: int| 0 <= i < r.len() - 1 ==> adjacent8(#[trigger] r[i], r[i + 1])
        }),
    decreases fuel,
{
    let r = walk(c, t.cells, from, acc, fuel);
    if from == c.start || fuel == 0 {
    } else {
        match record_at(c, t, from) {
            None => {},
            Some(cell) => {
                if cell.direction is Unknown {
                } else {
                    assert(has_record(c, t, from));
                    assert(record_ok(c, t, from));
                    let d = cell.direction;
                    let nxt = (
                        ((from.0 + direction_dx(d)) as u32),
                        ((from.1 + direction_dy(d)) as u32),
                    );
                    assert(in_bounds(c, nxt));
                    assert(has_record(c, t, nxt));
                    assert(record_ok(c, t, nxt));
                    assert(passable_pos(c, nxt) || nxt == c.start);
                    assert(direction_dx(d) != 0 || direction_dy(d) != 0);
                    assert(adjacent8(from, nxt));
                    let acc2 = acc.push(nxt);
                    assert forall|i: int| 0 <= i < acc2.len() - 1 implies adjacent8(
                        #[trigger] acc2[i],
                        acc2[i + 1],
                    ) by {
                        if i < acc.len() - 1 {
                            assert(acc2[i] == acc[i] && acc2[i + 1] == acc[i + 1]);
                        } else {
                            assert(acc2[i] == from && acc2[i + 1] == nxt);
                        }
                    }
                    assert forall|i: int| 0 <= i < acc2.len() implies passable_pos(
                        c,
                        #[trigger] acc2[i],
                    ) || acc2[i] == c.start by {
                        if i < acc.len() {
                            assert(acc2[i] == acc[i]);
                        } else {
                            assert(acc2[i] == nxt);
                        }
                    }
                    lemma_walk_props(c, t, nxt, acc2, (fuel - 1) as nat);
                    assert(r == walk(c, t.cells, nxt, acc2, (fuel - 1) as nat));
                }
            },
        }
    }
}

/// *No wall traversal.*  Every coordinate of the path a finished session
/// reconstructs is passable.  Stated for sessions whose start is itself
/// passable: the start cell is the one coordinate a path may otherwise share
/// with a wall, since searching out of a walled start is permitted.
pub proof fn lemma_path_no_walls(s: PathFinding)
    requires
        s.wf(),
        passable_pos(s.ctx(), s.start),
    ensures
        ({
            let r = reconstructed_path(s.ctx(), s.st());
            forall|i: int| 0 <= i < r.len() ==> passable_pos(s.ctx(), #[trigger] r[i])
        }),
{
    let c = s.ctx();
    let t = s.st();
    if t.finished {
        assert(has_record(c, t, c.target) || c.target == c.start);
        assert(passable_pos(c, c.target) || c.target == c.start);
        lemma_walk_props(c, t, c.target, seq![c.target], (c.width * c.height) as nat);
    }
}

/// *Path connectivity.*  Consecutive coordinates of the path a finished
/// session reconstructs differ by exactly one of the eight unit offsets.
pub proof fn lemma_path_connected(s: PathFinding)
    requires
        s.wf(),
    ensures
        ({
            let r = reconstructed_path(s.ctx(), s.st());
            forall|i: int| 0 <= i < r.len() - 1 ==> adjacent8(#[trigger] r[i], r[i + 1])
        }),
{
    let c = s.ctx();
    let t = s.st();
    if t.finished {
        assert(has_record(c, t, c.target) || c.target == c.start);
        assert(passable_pos(c, c.target) || c.target == c.start);
        lemma_walk_props(c, t, c.target, seq![c.target], (c.width * c.height) as nat);
    }
}

/// *Idempotent reconstruction.*  Reconstruction mutates nothing and its
/// result is pinned to `reconstructed_path`, so two reconstructions of one
/// unmodified finished session — two calls of `get_path` — yield identical
/// sequences.
pub proof fn lemma_reconstruction_idempotent(
    s: PathFinding,
    r1: Seq<(u32, u32)>,
    r2: Seq<(u32, u32)>,
)
    requires
        r1 == reconstructed_path(s.ctx(), s.st()),
        r2 == reconstructed_path(s.ctx(), s.st()),
    ensures
        r1 == r2,
{
}

/// *Unreachable target.*  A target whose eight neighbours are all impassable
/// is never reached: no well-formed session with a passable start elsewhere
/// on the grid is finished, so in particular `generate` leaves `finished`
/// false on such a grid.
#[verifier::rlimit(100)]
#[verifier::spinoff_prover]
pub proof fn lemma_walled_in_target_unreached(s: PathFinding)
    requires
        s.wf(),
        s.start != s.target,
        passable_pos(s.ctx(), s.start),
        forall|k: int|
            0 <= k < 8 ==> !passable_at(
                s.ctx(),
                s.target.0 + #[trigger] neighbour_dx(k),
                s.target.1 + neighbour_dy(k),
            ),
    ensures
        !s.finished,
{
    let c = s.ctx();
    let t = s.st();
    if t.finished {
        let q = choose|q: (u32, u32)|
            in_bounds(c, q) && #[trigger] has_record(c, t, q) && q != c.target && adjacent8(
                q,
                c.target,
            );
        assert(record_ok(c, t, q));
        assert(passable_pos(c, q));
        let dx: int = q.0 - c.target.0;
        let dy: int = q.1 - c.target.1;
        assert(-1 <= dx <= 1 && -1 <= dy <= 1 && (dx != 0 || dy != 0));
        assert(exists|k: int| 0 <= k < 8 && #[trigger] neighbour_dx(k) == dx && neighbour_dy(k)
            == dy) by {
            if dx == -1 && dy == 1 {
                assert(neighbour_dx(0) == dx && neighbour_dy(0) == dy);
            } else if dx == 0 && dy == 1 {
                assert(neighbour_dx(1) == dx && neighbour_dy(1) == dy);
            } else if dx == 1 && dy == 1 {
                assert(neighbour_dx(2) == dx && neighbour_dy(2) == dy);
            } else if dx == -1 && dy == 0 {
                assert(neighbour_dx(3) == dx && neighbour_dy(3) == dy);
            } else if dx == 1 && dy == 0 {
                assert(neighbour_dx(4) == dx && neighbour_dy(4) == dy);
            } else if dx == -1 && dy == -1 {
                assert(neighbour_dx(5) == dx && neighbour_dy(5) == dy);
            } else if dx == 0 && dy == -1 {
                assert(neighbour_dx(6) == dx && neighbour_dy(6) == dy);
            } else {
                assert(neighbour_dx(7) == dx && neighbour_dy(7) == dy);
            }
        }
        let k = choose|k: int|
            0 <= k < 8 && #[trigger] neighbour_dx(k) == dx && neighbour_dy(k) == dy;
        assert(!passable_at(c, c.target.0 + neighbour_dx(k), c.target.1 + neighbour_dy(k)));
        assert(passable_at(c, q.0 as int, q.1 as int));
    }
}

/// Number of cells whose record's accumulated cost lies strictly below
/// `bound`: the measure the backward walk strictly decreases.
spec fn count_cheaper(cells: Seq<Option<Cell>>, bound: int) -> int
    decreases cells.len(),
{
    if cells.len() == 0 {
        0
    } else {
        count_cheaper(cells.drop_last(), bound) + match cells.last() {
            Some(cell) => if cell.cost < bound {
                1int
            } else {
                0int
            },
            None => 0int,
        }
    }
}

proof fn lemma_count_cheaper_bounds(cells: Seq<Option<Cell>>, bound: int)
    ensures
        0 <= count_cheaper(cells, bound) <= cells.len(),
    decreases cells.len(),
{
    if cells.len() > 0 {
        lemma_count_cheaper_bounds(cells.drop_last(), bound);
    }
}

proof fn lemma_count_cheaper_mono(cells: Seq<Option<Cell>>, b1: int, b2: int)
    requires
        b1 <= b2,
    ensures
        count_cheaper(cells, b1) <= count_cheaper(cells, b2),
    decreases cells.len(),
{
    if cells.len() > 0 {
        lemma_count_cheaper_mono(cells.drop_last(), b1, b2);
    }
}

/// A recorded cell whose cost lies in `[b1, b2)` makes the count at `b2`
/// strictly larger than the count at `b1`.
proof fn lemma_count_cheaper_strict(cells: Seq<Option<Cell>>, b1: int, b2: int, j: int)
    requires
        0 <= j < cells.len(),
        cells[j] is Some,
        b1 <= cells[j].unwrap().cost < b2,
    ensures
        count_cheaper(cells, b1) < count_cheaper(cells, b2),
    decreases cells.len(),
{
    if j == cells.len() - 1 {
        lemma_count_cheaper_mono(cells.drop_last(), b1, b2);
    } else {
        assert(cells.drop_last()[j] == cells[j]);
        lemma_count_cheaper_strict(cells.drop_last(), b1, b2, j);
    }
}

/// A recorded cell whose cost reaches `bound` keeps the count below the
/// sequence's length.
proof fn lemma_count_cheaper_excluded(cells: Seq<Option<Cell>>, bound: int, j: int)
    requires
        0 <= j < cells.len(),
        cells[j] is Some,
        cells[j].unwrap().cost >= bound,
    ensures
        count_cheaper(cells, bound) <= cells.len() - 1,
    decreases cells.len(),
{
    if j == cells.len() - 1 {
        lemma_count_cheaper_bounds(cells.drop_last(), bound);
    } else {
        assert(cells.drop_last()[j] == cells[j]);
        lemma_count_cheaper_excluded(cells.drop_last(), bound, j);
        lemma_count_cheaper_bounds(cells, bound);
    }
}

/// With fuel exceeding the number of strictly cheaper records, the backward
/// walk always ends at the start: each step moves to a strictly cheaper
/// record, so the fuel cannot run out first.
proof fn lemma_walk_reaches_start(c: Ctx, t: State, from: (u32, u32), acc: Seq<(u32, u32)>, fuel: nat)
    requires
        ctx_wf(c),
        dims_ok(c, t),
        cells_ok(c, t),
        in_bounds(c, from),
        has_record(c, t, from) || from == c.start,
        acc.len() >= 1,
        acc.last() == from,
        from != c.start ==> fuel >= 1 + count_cheaper(
            t.cells,
            record_at(c, t, from).unwrap().cost as int,
        ),
    ensures
        ({
            let r = walk(c, t.cells, from, acc, fuel);
            &&& r.len() >= acc.len()
            &&& forall|i: int| 0 <= i < acc.len() ==> r[i] == acc[i]
            &&& r.last() == c.start
        }),
    decreases fuel,
{
    let r = walk(c, t.cells, from, acc, fuel);
    if from != c.start {
        assert(has_record(c, t, from));
        assert(record_ok(c, t, from));
        let cell = record_at(c, t, from).unwrap();
        let d = cell.direction;
        assert(!(d is Unknown));
        lemma_count_cheaper_bounds(t.cells, cell.cost as int);
        assert(fuel > 0);
        let nxt = (((from.0 + direction_dx(d)) as u32), ((from.1 + direction_dy(d)) as u32));
        assert(in_bounds(c, nxt));
        assert(has_record(c, t, nxt));
        let nxt_cell = record_at(c, t, nxt).unwrap();
        assert(spec_cost_by_direction(d) > 0);
        assert(nxt_cell.cost < cell.cost);
        let acc2 = acc.push(nxt);
        if nxt != c.start {
            crate::model::lemma_cell_index_bounds(c, nxt);
            assert(t.cells[cell_index(c, nxt)] == Some(nxt_cell));
            lemma_count_cheaper_strict(
                t.cells,
                nxt_cell.cost as int,
                cell.cost as int,
                cell_index(c, nxt),
            );
        }
        lemma_walk_reaches_start(c, t, nxt, acc2, (fuel - 1) as nat);
        assert(r == walk(c, t.cells, nxt, acc2, (fuel - 1) as nat));
        assert forall|i: int| 0 <= i < acc.len() implies r[i] == acc[i] by {
            assert(acc2[i] == acc[i]);
        }
    }
}

/// *Path endpoints.*  The path a finished session reconstructs begins at the
/// target and ends at the start.
pub proof fn lemma_path_endpoints(s: PathFinding)
    requires
        s.wf(),
        s.finished,
    ensures
        ({
            let r = reconstructed_path(s.ctx(), s.st());
            &&& r.len() >= 1
            &&& r[0] == s.target
            &&& r.last() == s.start
        }),
{
    let c = s.ctx();
    let t = s.st();
    let acc = seq![c.target];
    if c.start == c.target {
        assert(walk(c, t.cells, c.target, acc, (c.width * c.height) as nat) == acc);
    } else {
        assert(has_record(c, t, c.target));
        assert(record_ok(c, t, c.target));
        let bound = record_at(c, t, c.target).unwrap().cost as int;
        crate::model::lemma_cell_index_bounds(c, c.target);
        lemma_count_cheaper_excluded(t.cells, bound, cell_index(c, c.target));
        lemma_walk_reaches_start(c, t, c.target, acc, (c.width * c.height) as nat);
    }
}

/// Movement cost attributed to a coordinate: its record's accumulated cost,
/// or zero without a record (matching the seeded start, whose record holds
/// cost zero).
pub open spec fn cost_of(c: Ctx, t: State, p: (u32, u32)) -> int {
    if has_record(c, t, p) {
        record_at(c, t, p).unwrap().cost as int
    } else {
        0
    }
}

/// The backward walk telescopes the per-step costs: the cost of the walked
/// sequence is the cost recorded at its first cell minus the cost recorded at
/// its last.
proof fn lemma_walk_cost(c: Ctx, t: State, from: (u32, u32), acc: Seq<(u32, u32)>, fuel: nat)
    requires
        ctx_wf(c),
        dims_ok(c, t),
        cells_ok(c, t),
        in_bounds(c, from),
        has_record(c, t, from) || from == c.start,
        acc.len() >= 1,
        acc.last() == from,
    ensures
        ({
            let r = walk(c, t.cells, from, acc, fuel);
            &&& r.len() >= acc.len()
            &&& in_bounds(c, r.last())
            &&& has_record(c, t, r.last()) || r.last() == c.start
            &&& path_cost(r) == path_cost(acc) + cost_of(c, t, from) - cost_of(c, t, r.last())
        }),
    decreases fuel,
{
    let r = walk(c, t.cells, from, acc, fuel);
    if from == c.start || fuel == 0 {
    } else {
        assert(has_record(c, t, from));
        assert(record_ok(c, t, from));
        let cell = record_at(c, t, from).unwrap();
        let d = cell.direction;
        assert(!(d is Unknown));
        let nxt = (((from.0 + direction_dx(d)) as u32), ((from.1 + direction_dy(d)) as u32));
        assert(in_bounds(c, nxt));
        assert(has_record(c, t, nxt));
        let acc2 = acc.push(nxt);
        assert(acc2.drop_last() =~= acc);
        // The step the path sums for the pair (from, nxt) has the same
        // diagonal-or-orthogonal class as the stored direction.
        assert(spec_cost_by_direction(spec_direction(nxt, from)) == spec_cost_by_direction(d)) by {
            assert(nxt.0 == from.0 + direction_dx(d) && nxt.1 == from.1 + direction_dy(d));
        }
        assert(path_cost(acc2) == path_cost(acc) + spec_cost_by_direction(d));
        assert(cell.cost == record_at(c, t, nxt).unwrap().cost + spec_cost_by_direction(d));
        lemma_walk_cost(c, t, nxt, acc2, (fuel - 1) as nat);
        assert(r == walk(c, t.cells, nxt, acc2, (fuel - 1) as nat));
    }
}

/// *Exact cost accounting.*  The reconstruction of a finished session walks
/// all the way back to the start, and the total movement cost of the
/// reconstructed path equals the accumulated cost the engine stored for the
/// target — the cost the search reports is the cost of the path it returns.
pub proof fn lemma_reconstructed_cost_accounts(s: PathFinding)
    requires
        s.wf(),
        s.finished,
    ensures
        path_cost(reconstructed_path(s.ctx(), s.st())) == cost_of(s.ctx(), s.st(), s.target),
{
    let c = s.ctx();
    let t = s.st();
    lemma_path_endpoints(s);
    assert(has_record(c, t, c.target) || c.target == c.start);
    let acc = seq![c.target];
    assert(acc.last() == c.target);
    lemma_walk_cost(c, t, c.target, acc, (c.width * c.height) as nat);
    let r = reconstructed_path(c, t);
    assert(path_cost(acc) == 0);
    assert(cost_of(c, t, r.last()) == 0) by {
        if has_record(c, t, c.start) {
            assert(record_ok(c, t, c.start));
        }
    }
}

/// *Determinism.*  The run-to-completion transition is a function of the
/// session state alone: two sessions over the same grid and endpoints, in the
/// same state, finish alike, with the same records and the same path.  With
/// `generate`'s contract, which pins its result to this transition, repeated
/// runs cannot differ.
pub proof fn lemma_generate_deterministic(a: PathFinding, b: PathFinding)
    requires
        a.ctx() == b.ctx(),
        a.st() == b.st(),
    ensures
        generate_result(a.ctx(), a.st()) == generate_result(b.ctx(), b.st()),
        reconstructed_path(a.ctx(), a.st()) == reconstructed_path(b.ctx(), b.st()),
{
}

} // verus!
