//! Optimality of the search.
//!
//! [`opt_inv`] extends the session invariant with the facts A* rests on: a
//! closed cell's recorded cost is the cost of a cheapest valid path to it,
//! the frontier cuts every valid path, and the target stays untouched until
//! the step that finishes.  It holds of a fresh session, is preserved by
//! every operation, and on a finished session yields the headline law: the
//! reconstructed path is no costlier than any valid path from start to
//! target ([`lemma_generated_path_optimal`]).

use vstd::prelude::*;

use crate::cost::Cell;
use crate::cost::adjacent8;
use crate::cost::lemma_adjacent_octile;
use crate::cost::lemma_adjacent_offset;
use crate::cost::lemma_cost_class;
use crate::cost::neighbour_dx;
use crate::cost::neighbour_dy;
use crate::cost::spec_cost_by_direction;
use crate::cost::spec_direction;
use crate::cost::spec_goal_distance;
use crate::cost::step_between;
use crate::laws::connected8;
use crate::laws::cost_of;
use crate::laws::lemma_path_lower_bound;
use crate::laws::lemma_reconstructed_cost_accounts;
use crate::laws::path_cost;
use crate::model::Ctx;
use crate::model::State;
use crate::model::cell_index;
use crate::model::ctx_wf;
use crate::model::has_record;
use crate::model::in_bounds;
use crate::model::initial_state;
use crate::model::lemma_cell_index_bounds;
use crate::model::lemma_cell_index_injective;
use crate::model::lemma_min_entry_index;
use crate::model::lemma_remove_pos_keeps;
use crate::model::min_entry_index;
use crate::model::mid_ok;
use crate::model::open_entry_ok;
use crate::model::passable_pos;
use crate::model::record_at;
use crate::model::record_ok;
use crate::model::record_ok_mid;
use crate::model::reconstructed_path;
use crate::model::relax_one;
use crate::model::relax_upto;
use crate::model::remove_pos;
use crate::model::run_steps;
use crate::model::scan_step;
use crate::model::seeded;
use crate::model::generate_result;
use crate::model::wf;
use crate::search::PathFinding;

verus! {

/// A valid path on the grid: passable cells from the session's start, each
/// consecutive pair one unit offset apart.
pub open spec fn is_path(c: Ctx, p: Seq<(u32, u32)>) -> bool {
    &&& p.len() >= 1
    &&& p[0] == c.start
    &&& connected8(p)
    &&& forall|i: int| 0 <= i < p.len() ==> passable_pos(c, #[trigger] p[i])
}

/// The accumulated cost recorded for a coordinate.
pub open spec fn g_cost(c: Ctx, t: State, p: (u32, u32)) -> int {
    record_at(c, t, p).unwrap().cost as int
}

/// The coordinate is queued on the frontier.
pub open spec fn open_has(t: State, p: (u32, u32)) -> bool {
    exists|i: int| 0 <= i < t.open.len() && (#[trigger] t.open[i]).1 == p
}

/// The coordinate has been expanded.
pub open spec fn is_closed_at(c: Ctx, t: State, p: (u32, u32)) -> bool {
    t.closed[cell_index(c, p)]
}

/// Every closed cell's recorded cost is optimal: no valid path reaching it is
/// cheaper.
pub open spec fn closed_costs_optimal(c: Ctx, t: State) -> bool {
    forall|p: Seq<(u32, u32)>|
        #[trigger] is_path(c, p) && is_closed_at(c, t, p.last()) ==> g_cost(c, t, p.last())
            <= path_cost(p)
}

/// Every passable, unexpanded neighbour of a closed cell carries a record no
/// costlier than one step past the closed cell: the frontier dominates the
/// rim of the closed set.
pub open spec fn closed_frontier_queued(c: Ctx, t: State) -> bool {
    forall|u: (u32, u32), v: (u32, u32)|
        #![trigger is_closed_at(c, t, u), passable_pos(c, v)]
        in_bounds(c, u) && in_bounds(c, v) && is_closed_at(c, t, u) && has_record(c, t, u)
            && adjacent8(u, v) && passable_pos(c, v) && !is_closed_at(c, t, v) ==> has_record(
            c,
            t,
            v,
        ) && g_cost(c, t, v) <= g_cost(c, t, u) + step_between(u, v)
}

/// Every recorded, unexpanded coordinate is queued.
pub open spec fn records_queued(c: Ctx, t: State) -> bool {
    forall|p: (u32, u32)|
        in_bounds(c, p) && #[trigger] has_record(c, t, p) && !is_closed_at(c, t, p) ==> open_has(
            t,
            p,
        )
}

/// Until the search finishes, the target has no record and — when passable —
/// no expanded neighbour: reaching it is what finishes the search.
pub open spec fn target_untouched(c: Ctx, t: State) -> bool {
    &&& !has_record(c, t, c.target)
    &&& (passable_pos(c, c.target) ==> forall|u: (u32, u32)|
        in_bounds(c, u) && #[trigger] is_closed_at(c, t, u) ==> !adjacent8(u, c.target))
}

/// A finished search recorded, for the target, a cost no larger than the cost
/// of any valid path to it.
pub open spec fn finished_cost_optimal(c: Ctx, t: State) -> bool {
    forall|p: Seq<(u32, u32)>|
        #[trigger] is_path(c, p) && p.last() == c.target ==> has_record(c, t, c.target) && g_cost(
            c,
            t,
            c.target,
        ) <= path_cost(p)
}

/// The optimality invariant: holds of a fresh session, is preserved by
/// seeding and by every expansion step, and makes a finished session's
/// recorded target cost optimal.  The trivial search is optimal by itself.
pub open spec fn opt_inv(c: Ctx, t: State) -> bool {
    c.start == c.target || {
        &&& closed_costs_optimal(c, t)
        &&& (!t.finished ==> closed_frontier_queued(c, t))
        &&& (!t.finished ==> records_queued(c, t))
        &&& (!t.finished ==> target_untouched(c, t))
        &&& (t.finished ==> finished_cost_optimal(c, t))
    }
}

/// Movement costs are non-negative, so path costs are.
pub proof fn lemma_path_cost_nonneg(p: Seq<(u32, u32)>)
    ensures
        path_cost(p) >= 0,
    decreases p.len(),
{
    if p.len() > 1 {
        lemma_path_cost_nonneg(p.drop_last());
    }
}

/// A path's cost splits at any of its cells into the cost up to it plus the
/// cost from it on.
proof fn lemma_path_cost_split(p: Seq<(u32, u32)>, k: int)
    requires
        0 <= k < p.len(),
    ensures
        path_cost(p) == path_cost(p.take(k + 1)) + path_cost(p.subrange(k, p.len() as int)),
    decreases p.len(),
{
    if k == p.len() - 1 {
        assert(p.take(k + 1) =~= p);
        assert(p.subrange(k, p.len() as int).len() == 1);
    } else {
        let d = p.drop_last();
        lemma_path_cost_split(d, k);
        assert(p.take(k + 1) =~= d.take(k + 1));
        let sp = p.subrange(k, p.len() as int);
        let sd = d.subrange(k, d.len() as int);
        assert(sp.drop_last() =~= sd);
        assert(sp.len() >= 2);
        assert(sp[sp.len() - 1] == p[p.len() - 1]);
        assert(sp[sp.len() - 2] == p[p.len() - 2]);
        assert(path_cost(sp) == path_cost(sd) + spec_cost_by_direction(
            spec_direction(p[p.len() - 1], p[p.len() - 2]),
        ));
    }
}

/// A suffix of a valid path is connected and passable, and keeps its
/// endpoints.
proof fn lemma_path_suffix(c: Ctx, p: Seq<(u32, u32)>, k: int)
    requires
        is_path(c, p),
        0 <= k < p.len(),
    ensures
        ({
            let s = p.subrange(k, p.len() as int);
            &&& s.len() >= 1
            &&& s[0] == p[k]
            &&& s.last() == p.last()
            &&& connected8(s)
            &&& forall|i: int| 0 <= i < s.len() ==> passable_pos(c, #[trigger] s[i])
        }),
{
    let s = p.subrange(k, p.len() as int);
    assert forall|i: int| 0 <= i < s.len() - 1 implies adjacent8(#[trigger] s[i], s[i + 1]) by {
        assert(s[i] == p[k + i] && s[i + 1] == p[k + i + 1]);
        assert(adjacent8(p[k + i], p[k + i + 1]));
    }
    assert forall|i: int| 0 <= i < s.len() implies passable_pos(c, #[trigger] s[i]) by {
        assert(s[i] == p[k + i]);
        assert(passable_pos(c, p[k + i]));
    }
}

/// A fresh session satisfies the optimality invariant: nothing is closed,
/// recorded, or queued.
pub proof fn lemma_initial_opt(c: Ctx)
    requires
        ctx_wf(c),
    ensures
        opt_inv(c, initial_state(c)),
{
    let t = initial_state(c);
    if c.start != c.target {
        assert forall|p: Seq<(u32, u32)>| #[trigger] is_path(c, p) && is_closed_at(
            c,
            t,
            p.last(),
        ) implies g_cost(c, t, p.last()) <= path_cost(p) by {
            assert(p.last() == p[p.len() - 1]);
            assert(passable_pos(c, p[p.len() - 1]));
            lemma_cell_index_bounds(c, p.last());
        }
        assert forall|u: (u32, u32), v: (u32, u32)|
            in_bounds(c, u) && in_bounds(c, v) && #[trigger] is_closed_at(c, t, u) && has_record(
                c,
                t,
                u,
            ) && adjacent8(u, v) && #[trigger] passable_pos(c, v) && !is_closed_at(c, t, v)
            implies has_record(c, t, v) && g_cost(c, t, v) <= g_cost(c, t, u) + step_between(
            u,
            v,
        ) by {
            lemma_cell_index_bounds(c, u);
        }
        assert forall|p: (u32, u32)|
            in_bounds(c, p) && #[trigger] has_record(c, t, p) && !is_closed_at(c, t, p) implies
            open_has(t, p) by {
            lemma_cell_index_bounds(c, p);
        }
        assert(!has_record(c, t, c.target)) by {
            lemma_cell_index_bounds(c, c.target);
        }
        assert forall|u: (u32, u32)| in_bounds(c, u) && #[trigger] is_closed_at(c, t, u) implies
            !adjacent8(u, c.target) by {
            lemma_cell_index_bounds(c, u);
        }
    }
}

/// The frontier cuts every valid path: unless the path's end is already
/// closed, some cell on it is queued with a recorded cost no larger than the
/// path's cost up to that cell.
proof fn lemma_frontier_cut(c: Ctx, t: State, p: Seq<(u32, u32)>)
    requires
        wf(c, t),
        !t.finished,
        c.start != c.target,
        closed_costs_optimal(c, t),
        closed_frontier_queued(c, t),
        records_queued(c, t),
        target_untouched(c, t),
        has_record(c, t, c.start),
        is_path(c, p),
    ensures
        is_closed_at(c, t, p.last()) || exists|k: int|
            0 <= k < p.len() && open_has(t, #[trigger] p[k]) && has_record(c, t, p[k]) && g_cost(
                c,
                t,
                p[k],
            ) <= path_cost(p.take(k + 1)),
    decreases p.len(),
{
    lemma_cell_index_bounds(c, c.start);
    if p.len() == 1 {
        assert(p.last() == c.start);
        if !is_closed_at(c, t, p.last()) {
            assert(open_has(t, c.start));
            assert(record_ok(c, t, c.start));
            assert(g_cost(c, t, c.start) == 0);
            assert(p.take(1) =~= p);
            assert(path_cost(p.take(1)) == 0);
            assert(0 <= 0 < p.len() && open_has(t, p[0]) && has_record(c, t, p[0]) && g_cost(
                c,
                t,
                p[0],
            ) <= path_cost(p.take(1)));
        }
    } else {
        let d = p.drop_last();
        assert(is_path(c, d)) by {
            assert forall|i: int| 0 <= i < d.len() - 1 implies adjacent8(
                #[trigger] d[i],
                d[i + 1],
            ) by {
                assert(d[i] == p[i] && d[i + 1] == p[i + 1]);
                assert(adjacent8(p[i], p[i + 1]));
            }
            assert forall|i: int| 0 <= i < d.len() implies passable_pos(c, #[trigger] d[i]) by {
                assert(d[i] == p[i]);
                assert(passable_pos(c, p[i]));
            }
        }
        lemma_frontier_cut(c, t, d);
        let z = p.last();
        let u = p[p.len() - 2];
        assert(passable_pos(c, z) && passable_pos(c, u));
        assert(adjacent8(u, z));
        lemma_cell_index_bounds(c, u);
        lemma_cell_index_bounds(c, z);
        if !is_closed_at(c, t, z) {
            if is_closed_at(c, t, d.last()) {
                // The previous cell is expanded; the step invariants hand the
                // end of the path over to the frontier.
                assert(d.last() == u);
                assert(z != c.target);
                assert(has_record(c, t, u)) by {
                    assert(forall|q: (u32, u32)|
                        in_bounds(c, q) && #[trigger] t.closed[cell_index(c, q)] ==> has_record(
                            c,
                            t,
                            q,
                        ));
                }
                assert(has_record(c, t, z) && g_cost(c, t, z) <= g_cost(c, t, u) + step_between(
                    u,
                    z,
                ));
                assert(g_cost(c, t, u) <= path_cost(d)) by {
                    assert(is_path(c, d) && is_closed_at(c, t, d.last()));
                }
                assert(path_cost(p) == path_cost(d) + spec_cost_by_direction(
                    spec_direction(p[p.len() - 1], p[p.len() - 2]),
                )) by {
                    assert(p.drop_last() == d);
                }
                lemma_cost_class(u, z);
                assert(g_cost(c, t, z) <= path_cost(p));
                assert(open_has(t, z));
                assert(p.take(p.len() as int) =~= p);
                let kw: int = p.len() - 1;
                assert(0 <= kw < p.len() && open_has(t, p[kw]) && has_record(c, t, p[kw])
                    && g_cost(c, t, p[kw]) <= path_cost(p.take(kw + 1)));
            } else {
                let k0 = choose|k: int|
                    0 <= k < d.len() && open_has(t, #[trigger] d[k]) && has_record(c, t, d[k])
                        && g_cost(c, t, d[k]) <= path_cost(d.take(k + 1));
                assert(d[k0] == p[k0]);
                assert(d.take(k0 + 1) =~= p.take(k0 + 1));
                assert(0 <= k0 < p.len() && open_has(t, p[k0]) && has_record(c, t, p[k0])
                    && g_cost(c, t, p[k0]) <= path_cost(p.take(k0 + 1)));
            }
        }
    }
}

/// When the cheapest frontier entry is popped, its recorded cost is already
/// optimal, and one step more than its cost plus its heuristic undercuts
/// every valid path to the target.
proof fn lemma_pop_bounds(c: Ctx, t0: State)
    requires
        wf(c, t0),
        !t0.finished,
        c.start != c.target,
        closed_costs_optimal(c, t0),
        closed_frontier_queued(c, t0),
        records_queued(c, t0),
        target_untouched(c, t0),
        t0.open.len() > 0,
    ensures
        ({
            let scan = t0.open[min_entry_index(t0.open)].1;
            let gs = g_cost(c, t0, scan);
            &&& (forall|p: Seq<(u32, u32)>|
                #[trigger] is_path(c, p) && p.last() == scan ==> gs <= path_cost(p))
            &&& (forall|p: Seq<(u32, u32)>|
                #[trigger] is_path(c, p) && p.last() == c.target ==> gs + spec_goal_distance(
                    scan,
                    c.target,
                ) <= path_cost(p))
        }),
{
    lemma_min_entry_index(t0.open);
    let i = min_entry_index(t0.open);
    let e = t0.open[i];
    let scan = e.1;
    assert(open_entry_ok(c, t0, e));
    assert(has_record(c, t0, c.start)) by {
        assert(t0.open.len() > 0);
    }
    let gs = g_cost(c, t0, scan);
    assert(record_ok(c, t0, scan));
    assert(e.0 == gs + spec_goal_distance(scan, c.target));
    assert forall|p: Seq<(u32, u32)>|
        #[trigger] is_path(c, p) && (p.last() == scan || p.last() == c.target) implies gs
        + spec_goal_distance(scan, c.target) <= path_cost(p) + spec_goal_distance(
        p.last(),
        c.target,
    ) by {
        lemma_frontier_cut(c, t0, p);
        if p.last() == scan {
            assert(!is_closed_at(c, t0, scan));
        } else {
            assert(!has_record(c, t0, c.target));
            assert(!is_closed_at(c, t0, c.target)) by {
                lemma_cell_index_bounds(c, c.target);
                if t0.closed[cell_index(c, c.target)] {
                    assert(has_record(c, t0, c.target));
                }
            }
        }
        let k = choose|k: int|
            0 <= k < p.len() && open_has(t0, #[trigger] p[k]) && has_record(c, t0, p[k]) && g_cost(
                c,
                t0,
                p[k],
            ) <= path_cost(p.take(k + 1));
        let w = p[k];
        let j = choose|j: int| 0 <= j < t0.open.len() && (#[trigger] t0.open[j]).1 == w;
        assert(open_entry_ok(c, t0, t0.open[j]));
        assert(record_ok(c, t0, w));
        assert(t0.open[j].0 == g_cost(c, t0, w) + spec_goal_distance(w, c.target));
        assert(e.0 <= t0.open[j].0);
        // Consistency telescoped along the path's suffix from the witness.
        lemma_path_suffix(c, p, k);
        let s = p.subrange(k, p.len() as int);
        lemma_path_lower_bound(s, c.target);
        assert(spec_goal_distance(w, c.target) <= path_cost(s) + spec_goal_distance(
            p.last(),
            c.target,
        ));
        lemma_path_cost_split(p, k);
        assert(g_cost(c, t0, w) <= path_cost(p.take(k + 1)));
    }
    assert(spec_goal_distance(c.target, c.target) == 0);
}

/// Mid-expansion guarantee for the `k2`-th neighbour once it has been
/// examined: if passable and unexpanded, it carries a record no costlier than
/// one step past the cell being expanded.
spec fn neighbour_ok(c: Ctx, t: State, scan_pos: (u32, u32), cur: Cell, k2: int) -> bool {
    let nx: int = scan_pos.0 + neighbour_dx(k2);
    let ny: int = scan_pos.1 + neighbour_dy(k2);
    let v = ((nx as u32), (ny as u32));
    crate::model::passable_at(c, nx, ny) && !is_closed_at(c, t, v) ==> has_record(c, t, v)
        && g_cost(c, t, v) <= cur.cost + step_between(scan_pos, v)
}

/// The `k2`-th neighbour of the cell being expanded is not the passable
/// target — otherwise examining it would have finished the search.
spec fn not_target_neighbour(c: Ctx, scan_pos: (u32, u32), k2: int) -> bool {
    passable_pos(c, c.target) ==> !(scan_pos.0 + neighbour_dx(k2) == c.target.0 && scan_pos.1
        + neighbour_dy(k2) == c.target.1)
}

/// The optimality invariant mid-expansion, after the first `k` neighbours of
/// `scan_pos` (with record `cur`) have been examined.
spec fn opt_mid(c: Ctx, t: State, scan_pos: (u32, u32), cur: Cell, k: int) -> bool {
    &&& closed_costs_optimal(c, t)
    &&& (forall|p: Seq<(u32, u32)>|
        #[trigger] is_path(c, p) && p.last() == scan_pos ==> cur.cost <= path_cost(p))
    &&& (forall|p: Seq<(u32, u32)>|
        #[trigger] is_path(c, p) && p.last() == c.target ==> cur.cost + spec_goal_distance(
            scan_pos,
            c.target,
        ) <= path_cost(p))
    &&& (!t.finished ==> {
        &&& !has_record(c, t, c.target)
        &&& (passable_pos(c, c.target) ==> forall|u: (u32, u32)|
            in_bounds(c, u) && #[trigger] is_closed_at(c, t, u) ==> !adjacent8(u, c.target))
        &&& (forall|k2: int| 0 <= k2 < k ==> #[trigger] not_target_neighbour(c, scan_pos, k2))
        &&& (forall|q: (u32, u32)|
            in_bounds(c, q) && #[trigger] has_record(c, t, q) && !is_closed_at(c, t, q) && q
                != scan_pos ==> open_has(t, q))
        &&& closed_frontier_queued(c, t)
        &&& (forall|k2: int| 0 <= k2 < k ==> #[trigger] neighbour_ok(c, t, scan_pos, cur, k2))
    })
    &&& (t.finished ==> finished_cost_optimal(c, t))
}

/// Requeueing a relaxed neighbour preserves the mid-expansion optimality
/// invariant; the frontier hand-over is described by the two premises on
/// `new_open`.
#[verifier::rlimit(100)]
#[verifier::spinoff_prover]
proof fn lemma_relax_requeue_opt(
    c: Ctx,
    t: State,
    scan_pos: (u32, u32),
    cur: Cell,
    k: int,
    np: (u32, u32),
    new_cell: Cell,
    new_open: Seq<(u64, (u32, u32))>,
)
    requires
        mid_ok(c, t, scan_pos, cur),
        opt_mid(c, t, scan_pos, cur, k),
        0 <= k < 8,
        !t.finished,
        in_bounds(c, np),
        passable_pos(c, np),
        np != scan_pos,
        np != c.target,
        np.0 == scan_pos.0 + neighbour_dx(k),
        np.1 == scan_pos.1 + neighbour_dy(k),
        !is_closed_at(c, t, np),
        new_cell.cost == cur.cost + spec_cost_by_direction(spec_direction(np, scan_pos)),
        has_record(c, t, np) ==> new_cell.cost < g_cost(c, t, np),
        exists|i: int| 0 <= i < new_open.len() && (#[trigger] new_open[i]).1 == np,
        forall|j: int|
            0 <= j < t.open.len() && (#[trigger] t.open[j]).1 != np ==> exists|j2: int|
                0 <= j2 < new_open.len() && new_open[j2] == t.open[j],
    ensures
        opt_mid(
            c,
            State { open: new_open, cells: t.cells.update(cell_index(c, np), Some(new_cell)), ..t },
            scan_pos,
            cur,
            k + 1,
        ),
{
    let t1 = State {
        open: new_open,
        cells: t.cells.update(cell_index(c, np), Some(new_cell)),
        ..t
    };
    lemma_cell_index_bounds(c, np);
    lemma_cell_index_bounds(c, scan_pos);
    assert(adjacent8(np, scan_pos));
    lemma_cost_class(np, scan_pos);
    assert(new_cell.cost == cur.cost + step_between(scan_pos, np));
    assert(record_at(c, t1, np) == Some(new_cell));
    // records elsewhere are untouched
    assert forall|q: (u32, u32)| in_bounds(c, q) && q != np implies #[trigger] record_at(c, t1, q)
        == record_at(c, t, q) by {
        lemma_cell_index_bounds(c, q);
        if cell_index(c, q) == cell_index(c, np) {
            lemma_cell_index_injective(c, q, np);
        }
    }
    assert(closed_costs_optimal(c, t1)) by {
        assert forall|p: Seq<(u32, u32)>| #[trigger] is_path(c, p) && is_closed_at(
            c,
            t1,
            p.last(),
        ) implies g_cost(c, t1, p.last()) <= path_cost(p) by {
            assert(p.last() == p[p.len() - 1]);
            assert(passable_pos(c, p[p.len() - 1]));
            assert(p.last() != np);
            assert(g_cost(c, t1, p.last()) == g_cost(c, t, p.last()));
        }
    }
    assert(!has_record(c, t1, c.target));
    assert forall|k2: int| 0 <= k2 < k + 1 implies #[trigger] not_target_neighbour(
        c,
        scan_pos,
        k2,
    ) by {
        if k2 == k {
            assert(np != c.target);
        }
    }
    assert forall|q: (u32, u32)|
        in_bounds(c, q) && #[trigger] has_record(c, t1, q) && !is_closed_at(c, t1, q) && q
            != scan_pos implies open_has(t1, q) by {
        if q == np {
        } else {
            assert(has_record(c, t, q));
            assert(open_has(t, q));
            let j = choose|j: int| 0 <= j < t.open.len() && (#[trigger] t.open[j]).1 == q;
            assert(t.open[j].1 != np);
            let j2 = choose|j2: int| 0 <= j2 < new_open.len() && new_open[j2] == t.open[j];
            assert(0 <= j2 < t1.open.len() && t1.open[j2].1 == q);
        }
    }
    assert(closed_frontier_queued(c, t1)) by {
        assert forall|u: (u32, u32), v: (u32, u32)|
            in_bounds(c, u) && in_bounds(c, v) && #[trigger] is_closed_at(c, t1, u) && has_record(
                c,
                t1,
                u,
            ) && adjacent8(u, v) && #[trigger] passable_pos(c, v) && !is_closed_at(c, t1, v)
            implies has_record(c, t1, v) && g_cost(c, t1, v) <= g_cost(c, t1, u) + step_between(
            u,
            v,
        ) by {
            assert(u != np);
            assert(g_cost(c, t1, u) == g_cost(c, t, u));
            assert(has_record(c, t, u));
            if v == np {
                if has_record(c, t, np) {
                    assert(g_cost(c, t, np) <= g_cost(c, t, u) + step_between(u, np));
                    assert(new_cell.cost < g_cost(c, t, np));
                } else {
                    // an unrecorded passable cell has no expanded neighbour
                    assert(has_record(c, t, v));
                    assert(false);
                }
            } else {
                assert(has_record(c, t, v) && g_cost(c, t, v) <= g_cost(c, t, u) + step_between(
                    u,
                    v,
                ));
            }
        }
    }
    assert forall|k2: int| 0 <= k2 < k + 1 implies #[trigger] neighbour_ok(
        c,
        t1,
        scan_pos,
        cur,
        k2,
    ) by {
        let nx2: int = scan_pos.0 + neighbour_dx(k2);
        let ny2: int = scan_pos.1 + neighbour_dy(k2);
        let v2 = ((nx2 as u32), (ny2 as u32));
        if k2 == k {
            assert(v2 == np);
        } else {
            assert(neighbour_ok(c, t, scan_pos, cur, k2));
            if crate::model::passable_at(c, nx2, ny2) {
                assert(v2.0 == nx2 && v2.1 == ny2);
                assert(v2 != np) by {
                    assert(neighbour_dx(k2) != neighbour_dx(k) || neighbour_dy(k2)
                        != neighbour_dy(k));
                }
                assert(record_at(c, t1, v2) == record_at(c, t, v2));
            }
        }
    }
}

/// Examining one neighbour preserves the mid-expansion optimality invariant.
#[verifier::rlimit(100)]
#[verifier::spinoff_prover]
proof fn lemma_relax_one_opt(c: Ctx, t: State, scan_pos: (u32, u32), cur: Cell, k: int)
    requires
        mid_ok(c, t, scan_pos, cur),
        opt_mid(c, t, scan_pos, cur, k),
        0 <= k < 8,
        c.start != c.target,
    ensures
        opt_mid(c, relax_one(c, t, scan_pos, cur, k), scan_pos, cur, k + 1),
{
    let t1 = relax_one(c, t, scan_pos, cur, k);
    let nx: int = scan_pos.0 + neighbour_dx(k);
    let ny: int = scan_pos.1 + neighbour_dy(k);
    if t.finished {
    } else if !crate::model::passable_at(c, nx, ny) {
        assert forall|k2: int| 0 <= k2 < k + 1 implies #[trigger] not_target_neighbour(
            c,
            scan_pos,
            k2,
        ) by {
            if k2 == k && passable_pos(c, c.target) && nx == c.target.0 && ny == c.target.1 {
                assert(crate::model::passable_at(c, nx, ny));
            }
        }
        assert forall|k2: int| 0 <= k2 < k + 1 implies #[trigger] neighbour_ok(
            c,
            t1,
            scan_pos,
            cur,
            k2,
        ) by {
            if k2 < k {
                assert(neighbour_ok(c, t, scan_pos, cur, k2));
            }
        }
    } else {
        let np = ((nx as u32), (ny as u32));
        assert(np.0 == nx && np.1 == ny);
        lemma_cell_index_bounds(c, np);
        lemma_cell_index_bounds(c, scan_pos);
        assert(neighbour_dx(k) != 0 || neighbour_dy(k) != 0);
        assert(np != scan_pos);
        assert(cell_index(c, np) != cell_index(c, scan_pos)) by {
            if cell_index(c, np) == cell_index(c, scan_pos) {
                lemma_cell_index_injective(c, np, scan_pos);
            }
        }
        assert(adjacent8(np, scan_pos));
        lemma_cost_class(np, scan_pos);
        if is_closed_at(c, t, np) {
            assert(np != c.target) by {
                if np == c.target {
                    assert(has_record(c, t, c.target));
                }
            }
            assert forall|k2: int| 0 <= k2 < k + 1 implies #[trigger] not_target_neighbour(
                c,
                scan_pos,
                k2,
            ) by {
                if k2 == k {
                    assert(np != c.target);
                }
            }
            assert forall|k2: int| 0 <= k2 < k + 1 implies #[trigger] neighbour_ok(
                c,
                t1,
                scan_pos,
                cur,
                k2,
            ) by {
                if k2 < k {
                    assert(neighbour_ok(c, t, scan_pos, cur, k2));
                } else {
                    assert(is_closed_at(c, t1, np));
                }
            }
        } else {
            let dir = spec_direction(np, scan_pos);
            let new_cell = Cell {
                cost: (cur.cost + spec_cost_by_direction(dir)) as u64,
                goal_distance: spec_goal_distance(np, c.target) as u64,
                direction: dir,
            };
            crate::model::lemma_goal_distance_bounds(c, np, c.target);
            crate::model::lemma_count_true_bounds(t.closed);
            assert(cur.cost + spec_cost_by_direction(dir) <= u64::MAX) by {
                assert(spec_cost_by_direction(dir) <= crate::cost::DIAGONAL_COST);
            }
            assert(new_cell.cost == cur.cost + spec_cost_by_direction(dir));
            assert(new_cell.goal_distance == spec_goal_distance(np, c.target));
            if np == c.target {
                // the finishing step
                let t2 = State {
                    cells: t.cells.update(cell_index(c, np), Some(new_cell)),
                    closed: t.closed.update(cell_index(c, scan_pos), true),
                    finished: true,
                    ..t
                };
                assert(t1 == t2);
                assert forall|q: (u32, u32)| in_bounds(c, q) && q != np implies #[trigger] record_at(
                    c,
                    t2,
                    q,
                ) == record_at(c, t, q) by {
                    lemma_cell_index_bounds(c, q);
                    if cell_index(c, q) == cell_index(c, np) {
                        lemma_cell_index_injective(c, q, np);
                    }
                }
                assert(closed_costs_optimal(c, t2)) by {
                    assert forall|p: Seq<(u32, u32)>| #[trigger] is_path(c, p) && is_closed_at(
                        c,
                        t2,
                        p.last(),
                    ) implies g_cost(c, t2, p.last()) <= path_cost(p) by {
                        assert(p.last() == p[p.len() - 1]);
                        assert(passable_pos(c, p[p.len() - 1]));
                        lemma_cell_index_bounds(c, p.last());
                        if cell_index(c, p.last()) == cell_index(c, scan_pos) {
                            lemma_cell_index_injective(c, p.last(), scan_pos);
                            assert(record_at(c, t2, scan_pos) == record_at(c, t, scan_pos));
                            assert(g_cost(c, t2, scan_pos) == cur.cost);
                        } else {
                            assert(is_closed_at(c, t, p.last()));
                            assert(p.last() != c.target) by {
                                if p.last() == c.target {
                                    assert(has_record(c, t, c.target));
                                }
                            }
                            assert(g_cost(c, t2, p.last()) == g_cost(c, t, p.last()));
                        }
                    }
                }
                assert(finished_cost_optimal(c, t2)) by {
                    lemma_adjacent_octile(scan_pos, np);
                    assert(step_between(scan_pos, np) == step_between(np, scan_pos));
                    assert(new_cell.cost == cur.cost + spec_goal_distance(scan_pos, c.target));
                    assert(record_at(c, t2, c.target) == Some(new_cell));
                    assert forall|p: Seq<(u32, u32)>| #[trigger] is_path(c, p) && p.last()
                        == c.target implies has_record(c, t2, c.target) && g_cost(
                        c,
                        t2,
                        c.target,
                    ) <= path_cost(p) by {
                        assert(cur.cost + spec_goal_distance(scan_pos, c.target) <= path_cost(p));
                    }
                }
            } else {
                match record_at(c, t, np) {
                    Some(existing) => {
                        assert(has_record(c, t, np));
                        assert(record_ok_mid(c, t, scan_pos, np));
                        assert(existing.goal_distance == spec_goal_distance(np, c.target));
                        if new_cell.spec_total_cost() >= existing.spec_total_cost() {
                            // no improvement: the state is unchanged
                            assert(existing.cost <= new_cell.cost);
                            assert forall|k2: int| 0 <= k2 < k + 1 implies
                                #[trigger] not_target_neighbour(c, scan_pos, k2) by {
                                if k2 == k {
                                    assert(np != c.target);
                                }
                            }
                            assert forall|k2: int| 0 <= k2 < k + 1 implies #[trigger] neighbour_ok(
                                c,
                                t1,
                                scan_pos,
                                cur,
                                k2,
                            ) by {
                                if k2 < k {
                                    assert(neighbour_ok(c, t, scan_pos, cur, k2));
                                } else {
                                    assert(g_cost(c, t, np) == existing.cost);
                                    assert(existing.cost <= cur.cost + step_between(scan_pos, np));
                                }
                            }
                        } else {
                            let total_entry = ((new_cell.spec_total_cost() as u64), np);
                            let rp = remove_pos(t.open, np);
                            let new_open = rp.push(total_entry);
                            lemma_remove_pos_keeps(t.open, np);
                            assert(new_open[new_open.len() - 1].1 == np);
                            assert forall|j: int|
                                0 <= j < t.open.len() && (#[trigger] t.open[j]).1 != np implies
                                exists|j2: int|
                                0 <= j2 < new_open.len() && new_open[j2] == t.open[j] by {
                                let j0 = choose|j0: int|
                                    0 <= j0 < rp.len() && rp[j0] == t.open[j];
                                assert(new_open[j0] == t.open[j]);
                            }
                            assert(new_cell.cost < existing.cost);
                            lemma_relax_requeue_opt(
                                c,
                                t,
                                scan_pos,
                                cur,
                                k,
                                np,
                                new_cell,
                                new_open,
                            );
                        }
                    },
                    None => {
                        let total_entry = ((new_cell.spec_total_cost() as u64), np);
                        let new_open = t.open.push(total_entry);
                        assert(new_open[new_open.len() - 1].1 == np);
                        assert forall|j: int|
                            0 <= j < t.open.len() && (#[trigger] t.open[j]).1 != np implies exists|
                            j2: int,
                        |
                            0 <= j2 < new_open.len() && new_open[j2] == t.open[j] by {
                            assert(new_open[j] == t.open[j]);
                        }
                        lemma_relax_requeue_opt(c, t, scan_pos, cur, k, np, new_cell, new_open);
                    },
                }
            }
        }
    }
}

/// Examining the first `k` neighbours preserves the mid-expansion optimality
/// invariant.
proof fn lemma_relax_upto_opt(c: Ctx, t: State, scan_pos: (u32, u32), cur: Cell, k: int)
    requires
        mid_ok(c, t, scan_pos, cur),
        opt_mid(c, t, scan_pos, cur, 0),
        0 <= k <= 8,
        c.start != c.target,
    ensures
        opt_mid(c, relax_upto(c, t, scan_pos, cur, k), scan_pos, cur, k),
    decreases k,
{
    if k > 0 {
        lemma_relax_upto_opt(c, t, scan_pos, cur, k - 1);
        crate::model::lemma_relax_upto_mid(c, t, scan_pos, cur, k - 1);
        lemma_relax_one_opt(c, relax_upto(c, t, scan_pos, cur, k - 1), scan_pos, cur, k - 1);
    } else {
        assert(relax_upto(c, t, scan_pos, cur, 0) == t);
    }
}

/// Popping the cheapest frontier entry establishes the mid-expansion
/// optimality invariant.
#[verifier::rlimit(100)]
#[verifier::spinoff_prover]
proof fn lemma_pop_establishes_opt(c: Ctx, t0: State)
    requires
        wf(c, t0),
        !t0.finished,
        c.start != c.target,
        closed_costs_optimal(c, t0),
        closed_frontier_queued(c, t0),
        records_queued(c, t0),
        target_untouched(c, t0),
        t0.open.len() > 0,
        0 <= min_entry_index(t0.open) < t0.open.len(),
    ensures
        ({
            let i = min_entry_index(t0.open);
            let scan_pos = t0.open[i].1;
            let t1 = State { open: t0.open.remove(i), ..t0 };
            record_at(c, t1, scan_pos) is Some ==> opt_mid(
                c,
                t1,
                scan_pos,
                record_at(c, t1, scan_pos).unwrap(),
                0,
            )
        }),
{
    let i = min_entry_index(t0.open);
    let scan_pos = t0.open[i].1;
    let t1 = State { open: t0.open.remove(i), ..t0 };
    lemma_pop_bounds(c, t0);
    t0.open.remove_ensures(i);
    assert(open_entry_ok(c, t0, t0.open[i]));
    if record_at(c, t1, scan_pos) is Some {
        let cur = record_at(c, t1, scan_pos).unwrap();
        assert(record_at(c, t0, scan_pos) == Some(cur));
        assert(cur.cost == g_cost(c, t0, scan_pos));
        assert forall|q: (u32, u32)|
            in_bounds(c, q) && #[trigger] has_record(c, t1, q) && !is_closed_at(c, t1, q) && q
                != scan_pos implies open_has(t1, q) by {
            assert(has_record(c, t0, q));
            assert(open_has(t0, q));
            let j = choose|j: int| 0 <= j < t0.open.len() && (#[trigger] t0.open[j]).1 == q;
            assert(j != i);
            if j < i {
                assert(t1.open[j] == t0.open[j]);
            } else {
                assert(t1.open[j - 1] == t0.open[j]);
            }
        }
    }
}

/// Closing the expanded cell turns the mid-expansion optimality invariant
/// back into the optimality invariant.
#[verifier::rlimit(100)]
#[verifier::spinoff_prover]
proof fn lemma_close_opt(c: Ctx, t2: State, scan_pos: (u32, u32), cur: Cell)
    requires
        mid_ok(c, t2, scan_pos, cur),
        opt_mid(c, t2, scan_pos, cur, 8),
        c.start != c.target,
    ensures
        opt_inv(c, State { closed: t2.closed.update(cell_index(c, scan_pos), true), ..t2 }),
{
    let t3 = State { closed: t2.closed.update(cell_index(c, scan_pos), true), ..t2 };
    lemma_cell_index_bounds(c, scan_pos);
    assert(closed_costs_optimal(c, t3)) by {
        assert forall|p: Seq<(u32, u32)>| #[trigger] is_path(c, p) && is_closed_at(
            c,
            t3,
            p.last(),
        ) implies g_cost(c, t3, p.last()) <= path_cost(p) by {
            assert(p.last() == p[p.len() - 1]);
            assert(passable_pos(c, p[p.len() - 1]));
            lemma_cell_index_bounds(c, p.last());
            if cell_index(c, p.last()) == cell_index(c, scan_pos) {
                lemma_cell_index_injective(c, p.last(), scan_pos);
                assert(g_cost(c, t3, scan_pos) == cur.cost);
                assert(cur.cost <= path_cost(p));
            } else {
                assert(is_closed_at(c, t2, p.last()));
            }
        }
    }
    if !t3.finished {
        assert forall|u: (u32, u32), v: (u32, u32)|
            in_bounds(c, u) && in_bounds(c, v) && #[trigger] is_closed_at(c, t3, u) && has_record(
                c,
                t3,
                u,
            ) && adjacent8(u, v) && #[trigger] passable_pos(c, v) && !is_closed_at(c, t3, v)
            implies has_record(c, t3, v) && g_cost(c, t3, v) <= g_cost(c, t3, u) + step_between(
            u,
            v,
        ) by {
            lemma_cell_index_bounds(c, u);
            lemma_cell_index_bounds(c, v);
            assert(!is_closed_at(c, t2, v));
            if cell_index(c, u) == cell_index(c, scan_pos) {
                lemma_cell_index_injective(c, u, scan_pos);
                lemma_adjacent_offset(u, v);
                let k = choose|k: int|
                    0 <= k < 8 && v.0 == u.0 + #[trigger] neighbour_dx(k) && v.1 == u.1
                        + neighbour_dy(k);
                assert(neighbour_ok(c, t2, scan_pos, cur, k));
                assert(crate::model::passable_at(
                    c,
                    scan_pos.0 + neighbour_dx(k),
                    scan_pos.1 + neighbour_dy(k),
                ));
                assert(((scan_pos.0 + neighbour_dx(k)) as u32, (scan_pos.1 + neighbour_dy(
                    k,
                )) as u32) == v);
                assert(g_cost(c, t3, u) == cur.cost);
            } else {
                assert(is_closed_at(c, t2, u));
            }
        }
        assert forall|q: (u32, u32)|
            in_bounds(c, q) && #[trigger] has_record(c, t3, q) && !is_closed_at(c, t3, q) implies
            open_has(t3, q) by {
            lemma_cell_index_bounds(c, q);
            assert(q != scan_pos);
            assert(has_record(c, t2, q) && !is_closed_at(c, t2, q));
            assert(open_has(t2, q));
            let j = choose|j: int| 0 <= j < t2.open.len() && (#[trigger] t2.open[j]).1 == q;
            assert(0 <= j < t3.open.len() && t3.open[j].1 == q);
        }
        assert(target_untouched(c, t3)) by {
            if passable_pos(c, c.target) {
                assert forall|u: (u32, u32)| in_bounds(c, u) && #[trigger] is_closed_at(
                    c,
                    t3,
                    u,
                ) implies !adjacent8(u, c.target) by {
                    lemma_cell_index_bounds(c, u);
                    if cell_index(c, u) == cell_index(c, scan_pos) {
                        lemma_cell_index_injective(c, u, scan_pos);
                        if adjacent8(u, c.target) {
                            lemma_adjacent_offset(u, c.target);
                            let k = choose|k: int|
                                0 <= k < 8 && c.target.0 == u.0 + #[trigger] neighbour_dx(k)
                                    && c.target.1 == u.1 + neighbour_dy(k);
                            assert(not_target_neighbour(c, scan_pos, k));
                        }
                    } else {
                        assert(is_closed_at(c, t2, u));
                    }
                }
            }
        }
    }
}

/// Seeding preserves the optimality invariant.
#[verifier::rlimit(100)]
#[verifier::spinoff_prover]
pub proof fn lemma_seeded_opt(c: Ctx, t: State)
    requires
        wf(c, t),
        opt_inv(c, t),
    ensures
        opt_inv(c, seeded(c, t)),
{
    if c.start != c.target && t.open.len() == 0 && record_at(c, t, c.start) is None {
        let t1 = seeded(c, t);
        lemma_cell_index_bounds(c, c.start);
        if t.finished {
            assert(has_record(c, t, c.start));
        } else {
            assert forall|q: (u32, u32)| in_bounds(c, q) && q != c.start implies
                #[trigger] record_at(c, t1, q) == record_at(c, t, q) by {
                lemma_cell_index_bounds(c, q);
                if cell_index(c, q) == cell_index(c, c.start) {
                    lemma_cell_index_injective(c, q, c.start);
                }
            }
            assert(!is_closed_at(c, t, c.start)) by {
                if t.closed[cell_index(c, c.start)] {
                    assert(has_record(c, t, c.start));
                }
            }
            assert(closed_costs_optimal(c, t1)) by {
                assert forall|p: Seq<(u32, u32)>| #[trigger] is_path(c, p) && is_closed_at(
                    c,
                    t1,
                    p.last(),
                ) implies g_cost(c, t1, p.last()) <= path_cost(p) by {
                    assert(p.last() == p[p.len() - 1]);
                    assert(passable_pos(c, p[p.len() - 1]));
                    lemma_cell_index_bounds(c, p.last());
                    assert(p.last() != c.start);
                    assert(g_cost(c, t1, p.last()) == g_cost(c, t, p.last()));
                }
            }
            assert(closed_frontier_queued(c, t1)) by {
                assert forall|u: (u32, u32), v: (u32, u32)|
                    in_bounds(c, u) && in_bounds(c, v) && #[trigger] is_closed_at(c, t1, u)
                        && has_record(c, t1, u) && adjacent8(u, v) && #[trigger] passable_pos(c, v)
                        && !is_closed_at(c, t1, v) implies has_record(c, t1, v) && g_cost(
                    c,
                    t1,
                    v,
                ) <= g_cost(c, t1, u) + step_between(u, v) by {
                    lemma_cell_index_bounds(c, u);
                    assert(u != c.start);
                    assert(has_record(c, t, u));
                    if v == c.start {
                        assert(has_record(c, t, v));
                        assert(false);
                    } else {
                        assert(has_record(c, t, v) && g_cost(c, t, v) <= g_cost(c, t, u)
                            + step_between(u, v));
                    }
                }
            }
            assert forall|q: (u32, u32)|
                in_bounds(c, q) && #[trigger] has_record(c, t1, q) && !is_closed_at(c, t1, q)
                implies open_has(t1, q) by {
                if q == c.start {
                    assert(t1.open[0].1 == c.start);
                } else {
                    assert(has_record(c, t, q));
                    assert(open_has(t, q));
                }
            }
            assert(!has_record(c, t1, c.target));
        }
    }
}

/// One expansion step preserves the optimality invariant.
#[verifier::rlimit(100)]
pub proof fn lemma_scan_step_opt(c: Ctx, t: State)
    requires
        wf(c, t),
        opt_inv(c, t),
    ensures
        opt_inv(c, scan_step(c, t)),
{
    if c.start != c.target && !t.finished {
        lemma_seeded_opt(c, t);
        crate::model::lemma_seeded_wf(c, t);
        let t0 = seeded(c, t);
        if t0.open.len() > 0 {
            lemma_min_entry_index(t0.open);
            let i = min_entry_index(t0.open);
            let scan_pos = t0.open[i].1;
            let t1 = State { open: t0.open.remove(i), ..t0 };
            crate::model::lemma_pop_establishes_mid(c, t0);
            lemma_pop_establishes_opt(c, t0);
            let cur = record_at(c, t1, scan_pos).unwrap();
            crate::model::lemma_relax_upto_mid(c, t1, scan_pos, cur, 8);
            lemma_relax_upto_opt(c, t1, scan_pos, cur, 8);
            let t2 = relax_upto(c, t1, scan_pos, cur, 8);
            lemma_close_opt(c, t2, scan_pos, cur);
            let t3 = State { closed: t2.closed.update(cell_index(c, scan_pos), true), ..t2 };
            if t3.finished {
                let t4 = State {
                    path: crate::model::walk(
                        c,
                        t3.cells,
                        c.target,
                        seq![c.target],
                        (c.width * c.height) as nat,
                    ),
                    ..t3
                };
                assert(opt_inv(c, t4)) by {
                    assert(t4.cells == t3.cells && t4.closed == t3.closed && t4.finished);
                    assert(closed_costs_optimal(c, t4)) by {
                        assert forall|p: Seq<(u32, u32)>| #[trigger] is_path(c, p) && is_closed_at(
                            c,
                            t4,
                            p.last(),
                        ) implies g_cost(c, t4, p.last()) <= path_cost(p) by {
                            assert(is_path(c, p) && is_closed_at(c, t3, p.last()));
                        }
                    }
                    assert(finished_cost_optimal(c, t4)) by {
                        assert forall|p: Seq<(u32, u32)>| #[trigger] is_path(c, p) && p.last()
                            == c.target implies has_record(c, t4, c.target) && g_cost(
                            c,
                            t4,
                            c.target,
                        ) <= path_cost(p) by {
                            assert(has_record(c, t3, c.target) && g_cost(c, t3, c.target)
                                <= path_cost(p));
                        }
                    }
                }
                assert(scan_step(c, t) == t4);
            } else {
                assert(scan_step(c, t) == t3);
            }
        }
    }
}

/// Any number of expansion steps preserves well-formedness and the
/// optimality invariant.
pub proof fn lemma_run_steps_opt(c: Ctx, t: State, n: nat)
    requires
        wf(c, t),
        opt_inv(c, t),
    ensures
        wf(c, run_steps(c, t, n)),
        opt_inv(c, run_steps(c, t, n)),
    decreases n,
{
    if n > 0 && !t.finished {
        crate::model::lemma_scan_step_wf(c, t);
        lemma_scan_step_opt(c, t);
        lemma_run_steps_opt(c, scan_step(c, t), (n - 1) as nat);
    }
}

/// A run to completion preserves the optimality invariant.
pub proof fn lemma_generate_opt(c: Ctx, t: State)
    requires
        wf(c, t),
        opt_inv(c, t),
    ensures
        opt_inv(c, generate_result(c, t)),
{
    if c.start != c.target && passable_pos(c, c.target) {
        lemma_seeded_opt(c, t);
        crate::model::lemma_seeded_wf(c, t);
        lemma_run_steps_opt(c, seeded(c, t), (c.width * c.height) as nat);
    }
}

/// *Optimality of the search.*  On a finished session that satisfies the
/// optimality invariant — it holds of a fresh session and every operation
/// preserves it — the reconstructed path costs no more than any valid
/// passable path from start to target: the search's admissible heuristic
/// makes the result a cheapest path.
pub proof fn lemma_generated_path_optimal(s: PathFinding, p: Seq<(u32, u32)>)
    requires
        s.wf(),
        opt_inv(s.ctx(), s.st()),
        s.finished,
        is_path(s.ctx(), p),
        p.last() == s.target,
    ensures
        path_cost(reconstructed_path(s.ctx(), s.st())) <= path_cost(p),
{
    let c = s.ctx();
    let t = s.st();
    lemma_reconstructed_cost_accounts(s);
    lemma_path_cost_nonneg(p);
    if c.start == c.target {
        assert(reconstructed_path(c, t) == seq![c.target]);
        assert(path_cost(seq![c.target]) == 0);
    } else {
        assert(finished_cost_optimal(c, t));
        assert(has_record(c, t, c.target) && g_cost(c, t, c.target) <= path_cost(p));
        assert(cost_of(c, t, c.target) == g_cost(c, t, c.target));
    }
}

} // verus!
