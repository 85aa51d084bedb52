//! The search session and its operations.
//!
//! [`PathFinding`] owns the grid, the frontier, the closed set and the
//! per-cell records.  [`PathFinding::scan_neighbours`] expands one frontier
//! entry, [`PathFinding::generate`] runs the search to completion, and
//! [`PathFinding::get_path`] reconstructs the path of a finished session.
//! Each operation's contract pins its result to the corresponding transition
//! of the model in [`crate::model`].

use vstd::prelude::*;

use crate::cost::Cell;
use crate::cost::Direction;
use crate::cost::DIAGONAL_COST;
use crate::cost::get_cost_by_direction;
use crate::cost::get_direction;
use crate::cost::get_goal_distance;
use crate::cost::direction_offset;
use crate::cost::neighbour_offset;
use crate::model::Ctx;
use crate::model::State;
use crate::model::cell_index;
use crate::model::ctx_wf;
use crate::model::dims_ok;
use crate::model::generate_result;
use crate::model::has_record;
use crate::model::in_bounds;
use crate::model::initial_state;
use crate::model::lemma_cell_index_bounds;
use crate::model::lemma_count_true_bounds;
use crate::model::lemma_goal_distance_bounds;
use crate::model::lemma_initial_wf;
use crate::model::lemma_finish_trivial_wf;
use crate::model::lemma_min_entry_index;
use crate::model::lemma_pop_establishes_mid;
use crate::model::lemma_close_restores_wf;
use crate::model::lemma_relax_one_mid;
use crate::model::lemma_scan_step_wf;
use crate::model::lemma_seeded_wf;
use crate::model::min_entry_index;
use crate::model::mid_ok;
use crate::model::open_entry_ok;
use crate::model::passable_at;
use crate::model::passable_pos;
use crate::model::record_at;
use crate::model::record_ok;
use crate::model::record_ok_mid;
use crate::model::reconstructed_path;
use crate::model::relax_one;
use crate::model::relax_upto;
use crate::model::remove_pos;
use crate::model::run_steps;
use crate::model::scan_step;
use crate::model::seeded;
use crate::model::walk;
use crate::model::wf;
use crate::model::wf0;
use crate::optimal::lemma_generate_opt;
use crate::optimal::lemma_initial_opt;
use crate::optimal::lemma_scan_step_opt;
use crate::optimal::opt_inv;

verus! {

/// One search session: grid, endpoints, frontier (`open_array`), closed set
/// and cell records (both indexed row-major by `y * width + x`), the finished
/// flag, and the cached path (target first, start last).
pub struct PathFinding {
    pub height: u32,
    pub width: u32,
    pub start: (u32, u32),
    pub target: (u32, u32),
    pub open_array: Vec<(u64, (u32, u32))>,
    pub closed_array: Vec<bool>,
    pub cell_map: Vec<Option<Cell>>,
    pub finished: bool,
    pub path: Vec<(u32, u32)>,
    pub walls: Vec<Vec<u32>>,
}

impl PathFinding {
    /// The immutable part of this session, as the model sees it.
    pub open spec fn ctx(self) -> Ctx {
        Ctx {
            width: self.width,
            height: self.height,
            start: self.start,
            target: self.target,
            walls: self.walls@.map_values(|row: Vec<u32>| row@),
        }
    }

    /// The mutable part of this session, as the model sees it.
    pub open spec fn st(self) -> State {
        State {
            open: self.open_array@,
            cells: self.cell_map@,
            closed: self.closed_array@,
            finished: self.finished,
            path: self.path@,
        }
    }

    /// The session invariant: established by [`PathFinding::new`] and
    /// preserved by every operation.
    pub open spec fn wf(self) -> bool {
        wf(self.ctx(), self.st())
    }

    /// Builds a fresh session: nothing queued, no records, nothing closed.
    ///
    /// The bounds asked of the caller are the coordinate domain — both
    /// endpoints on the grid, walls shaped `height` rows of `width` — and the
    /// machine limits that keep every index and cost computation in range.
    pub fn new(
        start: (u32, u32),
        target: (u32, u32),
        walls: Vec<Vec<u32>>,
        height: u32,
        width: u32,
    ) -> (r: Self)
        requires
            start.0 < width,
            start.1 < height,
            target.0 < width,
            target.1 < height,
            walls@.len() == height,
            forall|j: int| 0 <= j < height ==> (#[trigger] walls@[j])@.len() == width,
            width * height <= usize::MAX as int,
            (width * height + width + height + 2) * (DIAGONAL_COST as int) <= u64::MAX as int,
        ensures
            r.wf(),
            r.ctx() == (Ctx {
                width,
                height,
                start,
                target,
                walls: walls@.map_values(|row: Vec<u32>| row@),
            }),
            r.st() == initial_state(r.ctx()),
            opt_inv(r.ctx(), r.st()),
            !r.finished,
            r.path@ == Seq::<(u32, u32)>::empty(),
    {
        let n: usize = (width as usize) * (height as usize);
        let mut cell_map: Vec<Option<Cell>> = Vec::new();
        while cell_map.len() < n
            invariant
                cell_map@.len() <= n,
                forall|i: int| 0 <= i < cell_map@.len() ==> (#[trigger] cell_map@[i]) is None,
            decreases n - cell_map@.len(),
        {
            cell_map.push(None);
        }
        let mut closed_array: Vec<bool> = Vec::new();
        while closed_array.len() < n
            invariant
                closed_array@.len() <= n,
                forall|i: int| 0 <= i < closed_array@.len() ==> !(#[trigger] closed_array@[i]),
            decreases n - closed_array@.len(),
        {
            closed_array.push(false);
        }
        let r = PathFinding {
            height,
            width,
            start,
            target,
            open_array: Vec::new(),
            closed_array,
            cell_map,
            finished: false,
            path: Vec::new(),
            walls,
        };
        proof {
            let c = r.ctx();
            assert(ctx_wf(c)) by {
                assert forall|j: int| 0 <= j < c.height implies (#[trigger] c.walls[j]).len()
                    == c.width by {
                    assert(c.walls[j] == r.walls@[j]@);
                }
            }
            assert(r.st().cells =~= initial_state(c).cells);
            assert(r.st().closed =~= initial_state(c).closed);
            assert(r.st().open =~= initial_state(c).open);
            assert(r.st().path =~= initial_state(c).path);
            assert(r.st() =~= initial_state(c));
            lemma_initial_wf(c);
            lemma_initial_opt(c);
        }
        r
    }

    /// Row-major index of an on-grid coordinate.
    fn grid_index(&self, p: (u32, u32)) -> (r: usize)
        requires
            ctx_wf(self.ctx()),
            in_bounds(self.ctx(), p),
        ensures
            r == cell_index(self.ctx(), p),
    {
        proof {
            lemma_cell_index_bounds(self.ctx(), p);
        }
        (p.1 as usize) * (self.width as usize) + (p.0 as usize)
    }

    /// The record stored for an on-grid coordinate, if any.
    pub fn get_cell(&self, p: (u32, u32)) -> (r: Option<Cell>)
        requires
            ctx_wf(self.ctx()),
            dims_ok(self.ctx(), self.st()),
            in_bounds(self.ctx(), p),
        ensures
            r == record_at(self.ctx(), self.st(), p),
    {
        let i = self.grid_index(p);
        proof {
            lemma_cell_index_bounds(self.ctx(), p);
        }
        self.cell_map[i]
    }

    /// Stores a record for an on-grid coordinate, replacing any old one.
    fn set_cell(&mut self, p: (u32, u32), cell: Cell)
        requires
            ctx_wf(old(self).ctx()),
            dims_ok(old(self).ctx(), old(self).st()),
            in_bounds(old(self).ctx(), p),
        ensures
            final(self).ctx() == old(self).ctx(),
            final(self).st() == (State {
                cells: old(self).st().cells.update(
                    cell_index(old(self).ctx(), p),
                    Some(cell),
                ),
                ..old(self).st()
            }),
    {
        let i = self.grid_index(p);
        proof {
            lemma_cell_index_bounds(self.ctx(), p);
        }
        self.cell_map[i] = Some(cell);
        proof {
            assert(self.ctx() =~= old(self).ctx());
            assert(self.st() =~= (State {
                cells: old(self).st().cells.update(cell_index(old(self).ctx(), p), Some(cell)),
                ..old(self).st()
            }));
        }
    }

    /// Whether an on-grid coordinate has been expanded.
    pub fn is_closed(&self, p: (u32, u32)) -> (r: bool)
        requires
            ctx_wf(self.ctx()),
            dims_ok(self.ctx(), self.st()),
            in_bounds(self.ctx(), p),
        ensures
            r == self.st().closed[cell_index(self.ctx(), p)],
    {
        let i = self.grid_index(p);
        proof {
            lemma_cell_index_bounds(self.ctx(), p);
        }
        self.closed_array[i]
    }

    /// Marks an on-grid coordinate as expanded.
    fn set_closed(&mut self, p: (u32, u32))
        requires
            ctx_wf(old(self).ctx()),
            dims_ok(old(self).ctx(), old(self).st()),
            in_bounds(old(self).ctx(), p),
        ensures
            final(self).ctx() == old(self).ctx(),
            final(self).st() == (State {
                closed: old(self).st().closed.update(cell_index(old(self).ctx(), p), true),
                ..old(self).st()
            }),
    {
        let i = self.grid_index(p);
        proof {
            lemma_cell_index_bounds(self.ctx(), p);
        }
        self.closed_array[i] = true;
        proof {
            assert(self.ctx() =~= old(self).ctx());
            assert(self.st() =~= (State {
                closed: old(self).st().closed.update(cell_index(old(self).ctx(), p), true),
                ..old(self).st()
            }));
        }
    }

    /// The single bounds-and-obstacle check: a coordinate is available exactly
    /// when it lies on the grid and its cell is not a wall.
    pub fn is_available(&self, pos: (i64, i64)) -> (r: bool)
        requires
            ctx_wf(self.ctx()),
        ensures
            r == passable_at(self.ctx(), pos.0 as int, pos.1 as int),
    {
        let x: i64 = pos.0;
        let y: i64 = pos.1;
        let out_of_bounds: bool = x < 0 || x >= self.width as i64 || y < 0 || y >= self.height
            as i64;
        if out_of_bounds {
            return false;
        }
        proof {
            assert(self.ctx().walls[y as int] == self.walls@[y as int]@);
        }
        let is_wall: bool = self.walls[y as usize][x as usize] == 1;
        !is_wall
    }

    /// Queues a coordinate at the given total cost.
    fn push_to_open_set(&mut self, cost: u64, pos: (u32, u32))
        ensures
            final(self).ctx() == old(self).ctx(),
            final(self).st() == (State {
                open: old(self).st().open.push((cost, pos)),
                ..old(self).st()
            }),
    {
        self.open_array.push((cost, pos));
        proof {
            assert(self.ctx() =~= old(self).ctx());
            assert(self.st() =~= (State {
                open: old(self).st().open.push((cost, pos)),
                ..old(self).st()
            }));
        }
    }

    /// Deletes every frontier entry queued for a coordinate, keeping the
    /// remaining entries in order.
    fn remove_from_open(&mut self, pos: (u32, u32))
        ensures
            final(self).ctx() == old(self).ctx(),
            final(self).st() == (State {
                open: remove_pos(old(self).st().open, pos),
                ..old(self).st()
            }),
    {
        let mut kept: Vec<(u64, (u32, u32))> = Vec::new();
        let n: usize = self.open_array.len();
        let mut i: usize = 0;
        while i < n
            invariant
                i <= n,
                n == self.open_array@.len(),
                kept@ == remove_pos(self.open_array@.take(i as int), pos),
            decreases n - i,
        {
            let e: (u64, (u32, u32)) = self.open_array[i];
            let ghost prefix = self.open_array@.take(i as int);
            if e.1.0 != pos.0 || e.1.1 != pos.1 {
                kept.push(e);
            }
            proof {
                let longer = self.open_array@.take(i + 1 as int);
                assert(longer.drop_last() =~= prefix);
                assert(longer.last() == e);
                assert(kept@ == remove_pos(longer, pos));
            }
            i += 1;
        }
        proof {
            assert(self.open_array@.take(n as int) =~= self.open_array@);
        }
        self.open_array = kept;
        proof {
            assert(self.ctx() =~= old(self).ctx());
            assert(self.st() =~= (State {
                open: remove_pos(old(self).st().open, pos),
                ..old(self).st()
            }));
        }
    }

    /// Index of the entry popped next: the first frontier entry holding the
    /// minimal total cost.
    fn min_open_index(&self) -> (r: usize)
        requires
            self.open_array@.len() > 0,
        ensures
            r == min_entry_index(self.st().open),
            r < self.open_array@.len(),
    {
        proof {
            lemma_min_entry_index(self.open_array@);
        }
        let n: usize = self.open_array.len();
        let mut best: usize = 0;
        let mut i: usize = 1;
        while i < n
            invariant
                1 <= i <= n,
                n == self.open_array@.len(),
                best < i,
                best == min_entry_index(self.open_array@.take(i as int)),
            decreases n - i,
        {
            let ghost prefix = self.open_array@.take(i as int);
            proof {
                lemma_min_entry_index(prefix);
                let longer = self.open_array@.take(i + 1 as int);
                assert(longer.drop_last() =~= prefix);
                assert(longer.last() == self.open_array@[i as int]);
            }
            if self.open_array[i].0 < self.open_array[best].0 {
                best = i;
            }
            i += 1;
        }
        proof {
            assert(self.open_array@.take(n as int) =~= self.open_array@);
        }
        best
    }

    /// One expansion step: seeds an empty frontier, pops its cheapest entry,
    /// relaxes the eight neighbours — recording the first reach of the target
    /// and finishing — closes the popped cell, and on completion caches the
    /// reconstructed path.  Without effect on a finished session or an
    /// exhausted frontier.
    pub fn scan_neighbours(&mut self)
        requires
            old(self).wf(),
        ensures
            final(self).wf(),
            final(self).ctx() == old(self).ctx(),
            final(self).st() == scan_step(old(self).ctx(), old(self).st()),
            opt_inv(old(self).ctx(), old(self).st()) ==> opt_inv(final(self).ctx(), final(self).st()),
    {
        let ghost c = self.ctx();
        let ghost t_init = self.st();
        proof {
            lemma_scan_step_wf(c, t_init);
            if opt_inv(c, t_init) {
                lemma_scan_step_opt(c, t_init);
            }
        }
        if self.finished {
            return;
        }
        if self.open_array.len() == 0 {
            let start = self.start;
            if self.get_cell(start).is_none() {
                let gd = get_goal_distance(start, self.target);
                proof {
                    lemma_goal_distance_bounds(c, c.start, c.target);
                }
                let start_cell = Cell { cost: 0, goal_distance: gd, direction: Direction::Unknown };
                let total = start_cell.get_total_cost();
                self.set_cell(start, start_cell);
                self.push_to_open_set(total, start);
            }
        }
        let ghost t0 = seeded(c, t_init);
        proof {
            assert(self.st() =~= t0);
            lemma_seeded_wf(c, t_init);
        }
        if self.open_array.len() == 0 {
            return;
        }
        proof {
            lemma_min_entry_index(t0.open);
        }
        let i = self.min_open_index();
        let entry = self.open_array.remove(i);
        let scan_pos: (u32, u32) = entry.1;
        let ghost t1 = State { open: t0.open.remove(min_entry_index(t0.open)), ..t0 };
        proof {
            assert(self.st() =~= t1);
            assert(open_entry_ok(c, t0, t0.open[i as int]));
            lemma_pop_establishes_mid(c, t0);
        }
        let cur_opt = self.get_cell(scan_pos);
        match cur_opt {
            None => {
                proof {
                    assert(scan_step(c, t_init) == t1);
                }
            },
            Some(cur) => {
                proof {
                    assert(record_at(c, t1, scan_pos) == Some(cur));
                    assert(mid_ok(c, t1, scan_pos, cur));
                }
                let mut k: usize = 0;
                while k < 8
                    invariant
                        k <= 8,
                        self.ctx() == c,
                        in_bounds(c, scan_pos),
                        mid_ok(c, self.st(), scan_pos, cur),
                        self.st() == relax_upto(c, t1, scan_pos, cur, k as int),
                    decreases 8 - k,
                {
                    let ghost t_pre = self.st();
                    proof {
                        lemma_relax_one_mid(c, t_pre, scan_pos, cur, k as int);
                    }
                    if !self.finished {
                        let off: (i64, i64) = neighbour_offset(k);
                        let nx: i64 = scan_pos.0 as i64 + off.0;
                        let ny: i64 = scan_pos.1 as i64 + off.1;
                        if self.is_available((nx, ny)) {
                            let np: (u32, u32) = (nx as u32, ny as u32);
                            proof {
                                assert(np.0 == nx && np.1 == ny);
                            }
                            if !self.is_closed(np) {
                                let new_direction = get_direction(np, scan_pos);
                                let new_direction_cost = get_cost_by_direction(new_direction);
                                proof {
                                    lemma_count_true_bounds(self.st().closed);
                                    lemma_goal_distance_bounds(c, np, c.target);
                                    assert(cur.cost + new_direction_cost <= (c.width * c.height
                                        + 1) * (DIAGONAL_COST as int));
                                }
                                let new_cell = Cell {
                                    cost: cur.cost + new_direction_cost,
                                    goal_distance: get_goal_distance(np, self.target),
                                    direction: new_direction,
                                };
                                if np.0 == self.target.0 && np.1 == self.target.1 {
                                    self.set_cell(np, new_cell);
                                    self.set_closed(scan_pos);
                                    self.finished = true;
                                } else {
                                    match self.get_cell(np) {
                                        Some(existing) => {
                                            proof {
                                                assert(has_record(c, t_pre, np));
                                                assert(record_ok_mid(c, t_pre, scan_pos, np));
                                            }
                                            let existing_total = existing.get_total_cost();
                                            let new_total = new_cell.get_total_cost();
                                            if new_total < existing_total {
                                                self.remove_from_open(np);
                                                self.set_cell(np, new_cell);
                                                self.push_to_open_set(new_total, np);
                                            }
                                        },
                                        None => {
                                            let new_total = new_cell.get_total_cost();
                                            self.set_cell(np, new_cell);
                                            self.push_to_open_set(new_total, np);
                                        },
                                    }
                                }
                            }
                        }
                    }
                    proof {
                        assert(self.st() =~= relax_one(c, t_pre, scan_pos, cur, k as int));
                        assert(self.st() == relax_upto(c, t1, scan_pos, cur, (k + 1) as int));
                    }
                    k += 1;
                }
                let ghost t2 = relax_upto(c, t1, scan_pos, cur, 8);
                proof {
                    lemma_close_restores_wf(c, t2, scan_pos, cur);
                }
                self.set_closed(scan_pos);
                let ghost t3 = State {
                    closed: t2.closed.update(cell_index(c, scan_pos), true),
                    ..t2
                };
                proof {
                    assert(self.st() =~= t3);
                }
                if self.finished {
                    let new_path = self.get_path();
                    self.path = new_path;
                    proof {
                        assert(self.st() =~= (State {
                            path: walk(
                                c,
                                t3.cells,
                                c.target,
                                seq![c.target],
                                (c.width * c.height) as nat,
                            ),
                            ..t3
                        }));
                        assert(self.st() == scan_step(c, t_init));
                    }
                } else {
                    proof {
                        assert(self.st() == scan_step(c, t_init));
                    }
                }
            },
        }
    }

    /// Runs the search to completion.
    ///
    /// A trivial search — start equals target — finishes at once with the
    /// single-cell path.  An impassable target is treated as unreachable and
    /// the session is left untouched.  Otherwise the frontier is seeded with
    /// the start and expanded one step at a time, until the search finishes or
    /// one step per grid cell has been taken; if the frontier is exhausted or
    /// the cap is reached without reaching the target, `finished` stays false:
    /// no path exists.
    pub fn generate(&mut self)
        requires
            old(self).wf(),
        ensures
            final(self).wf(),
            final(self).ctx() == old(self).ctx(),
            final(self).st() == generate_result(old(self).ctx(), old(self).st()),
            old(self).start == old(self).target ==> final(self).finished && final(self).path@
                == seq![old(self).start],
            old(self).start != old(self).target && !passable_pos(
                old(self).ctx(),
                old(self).target,
            ) ==> final(self).st() == old(self).st(),
            opt_inv(old(self).ctx(), old(self).st()) ==> opt_inv(final(self).ctx(), final(self).st()),
    {
        let ghost c = self.ctx();
        let ghost t_init = self.st();
        proof {
            if opt_inv(c, t_init) {
                lemma_generate_opt(c, t_init);
            }
        }
        if self.start.0 == self.target.0 && self.start.1 == self.target.1 {
            self.finished = true;
            let mut single: Vec<(u32, u32)> = Vec::new();
            single.push(self.start);
            self.path = single;
            proof {
                lemma_finish_trivial_wf(c, t_init);
                assert(self.st() =~= (State { finished: true, path: seq![c.start], ..t_init }));
                assert(self.st() == generate_result(c, t_init));
            }
            return;
        }
        let target_probe: (i64, i64) = (self.target.0 as i64, self.target.1 as i64);
        if !self.is_available(target_probe) {
            proof {
                assert(self.st() == generate_result(c, t_init));
            }
            return;
        }
        if self.open_array.len() == 0 {
            let start = self.start;
            if self.get_cell(start).is_none() {
                let gd = get_goal_distance(start, self.target);
                proof {
                    lemma_goal_distance_bounds(c, c.start, c.target);
                }
                let start_cell = Cell { cost: 0, goal_distance: gd, direction: Direction::Unknown };
                let total = start_cell.get_total_cost();
                self.set_cell(start, start_cell);
                self.push_to_open_set(total, start);
            }
        }
        let ghost t_seed = seeded(c, t_init);
        proof {
            assert(self.st() =~= t_seed);
            lemma_seeded_wf(c, t_init);
        }
        let max_iterations: u64 = (self.width as u64) * (self.height as u64);
        let mut iterations: u64 = 0;
        while !self.finished && iterations < max_iterations
            invariant
                self.ctx() == c,
                wf(c, self.st()),
                iterations <= max_iterations,
                max_iterations == c.width * c.height,
                run_steps(c, self.st(), (max_iterations - iterations) as nat) == run_steps(
                    c,
                    t_seed,
                    (c.width * c.height) as nat,
                ),
            decreases max_iterations - iterations,
        {
            let ghost t_here = self.st();
            self.scan_neighbours();
            proof {
                assert(run_steps(c, t_here, (max_iterations - iterations) as nat) == run_steps(
                    c,
                    scan_step(c, t_here),
                    (max_iterations - iterations - 1) as nat,
                ));
            }
            iterations = iterations + 1;
        }
        proof {
            if self.finished {
                assert(run_steps(c, self.st(), (max_iterations - iterations) as nat)
                    == self.st());
            }
            assert(self.st() == generate_result(c, t_init));
        }
    }

    /// Reconstructs the path of a finished session by walking the stored
    /// predecessor directions backward from the target: the result lists the
    /// target first and the start last.  On an unfinished session the result
    /// is empty.  A pure function of the session: repeated calls return the
    /// same sequence.
    pub fn get_path(&self) -> (r: Vec<(u32, u32)>)
        requires
            wf0(self.ctx(), self.st()),
        ensures
            r@ == reconstructed_path(self.ctx(), self.st()),
    {
        let ghost c = self.ctx();
        let ghost cells = self.st().cells;
        let mut result: Vec<(u32, u32)> = Vec::new();
        if !self.finished {
            return result;
        }
        result.push(self.target);
        proof {
            assert(result@ =~= seq![c.target]);
        }
        let mut from: (u32, u32) = self.target;
        let mut fuel: u64 = (self.width as u64) * (self.height as u64);
        while (from.0 != self.start.0 || from.1 != self.start.1) && fuel > 0
            invariant_except_break
                self.ctx() == c,
                wf0(c, self.st()),
                self.st().cells == cells,
                self.finished,
                in_bounds(c, from),
                walk(c, cells, from, result@, fuel as nat) == reconstructed_path(c, self.st()),
            ensures
                result@ == reconstructed_path(c, self.st()),
            decreases fuel,
        {
            let cell_opt = self.get_cell(from);
            match cell_opt {
                None => {
                    proof {
                        assert(walk(c, cells, from, result@, fuel as nat) == result@);
                    }
                    break ;
                },
                Some(cell) => {
                    match cell.direction {
                        Direction::Unknown => {
                            proof {
                                assert(walk(c, cells, from, result@, fuel as nat) == result@);
                            }
                            break ;
                        },
                        _ => {
                            proof {
                                assert(has_record(c, self.st(), from));
                                assert(record_ok(c, self.st(), from));
                            }
                            let off: (i64, i64) = direction_offset(cell.direction);
                            let nx: i64 = from.0 as i64 + off.0;
                            let ny: i64 = from.1 as i64 + off.1;
                            let next: (u32, u32) = (nx as u32, ny as u32);
                            let ghost acc_pre = result@;
                            result.push(next);
                            proof {
                                assert(result@ =~= acc_pre.push(next));
                                assert(walk(c, cells, next, acc_pre.push(next), (fuel - 1) as nat)
                                    == walk(c, cells, from, acc_pre, fuel as nat));
                            }
                            from = next;
                            fuel = fuel - 1;
                        },
                    }
                },
            }
        }
        result
    }
}

} // verus!
