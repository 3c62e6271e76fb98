use vstd::prelude::*;

use crate::color::Rgba;
use crate::model::{
    count_true, lemma_count_true_le_len, lemma_count_true_update, lemma_frontier_nonempty,
    lemma_index_coords, lemma_min_frontier_upto, lemma_place_monotone, lemma_place_wf,
    min_frontier, Model,
};
use crate::scoring::{manhattan_scores, score_grid};
use crate::store::MaskStore;
use crate::supply::ColorSupply;

verus! {

/// A fatal fault of a growth run. Running out of colors is not a fault: the
/// run then simply ends with some cells unfilled.
#[derive(Clone, Copy, Debug, PartialEq, Eq, Structural)]
pub enum GrowthError {
    /// A placement was attempted out of bounds or on an already-filled cell.
    PreconditionViolation { x: usize, y: usize },
    /// The frontier was empty although `unfilled` cells remain unfilled.
    FrontierExhausted { unfilled: usize },
}

/// How a run that met no fault ended: every cell filled, or the color supply
/// drained first, leaving some cells permanently unfilled.
#[derive(Clone, Copy, Debug, PartialEq, Eq, Structural)]
pub enum RunOutcome {
    Completed,
    Drained,
}

/// The instrumented account of a finished run: one scoring dispatch was made
/// for every successful placement after seeding.
#[derive(Clone, Copy, Debug, PartialEq, Eq, Structural)]
pub struct RunReport {
    pub outcome: RunOutcome,
    pub placements: usize,
    pub dispatches: usize,
}

/// What one growing step does to the state: the candidate color goes to the
/// least-scoring frontier cell, or the step fails because no frontier cell
/// exists.
pub open spec fn step_m(m: Model, c: Rgba, scores: Seq<u16>) -> Option<(Model, int)> {
    match min_frontier(m, scores) {
        None => None,
        Some(j) => Some(((m.place(m.x_of(j), m.y_of(j), c), j))),
    }
}

impl MaskStore {
    /// One growing step against an externally computed score grid: restrict
    /// the grid to the frontier, pick the least-scoring cell (ties to the
    /// lowest `(y, x)`), place `color` there and return its coordinates. An
    /// empty frontier is a fatal inconsistency and leaves the store unchanged.
    pub fn step(&mut self, color: Rgba, scores: &Vec<u16>) -> (r: Result<
        (usize, usize),
        GrowthError,
    >)
        requires
            old(self).inv(),
            scores@.len() == old(self)@.area(),
        ensures
            final(self).inv(),
            match step_m(old(self)@, color, scores@) {
                None => {
                    &&& r == Err::<(usize, usize), GrowthError>(
                        (GrowthError::FrontierExhausted {
                            unfilled: (old(self)@.area() - count_true(old(self)@.filled)) as usize,
                        }),
                    )
                    &&& final(self)@ == old(self)@
                },
                Some((m2, j)) => {
                    &&& r == Ok::<(usize, usize), GrowthError>(
                        ((old(self)@.x_of(j) as usize, old(self)@.y_of(j) as usize)),
                    )
                    &&& final(self)@ == m2
                    &&& count_true(final(self)@.filled) == count_true(old(self)@.filled) + 1
                },
            },
    {
        let ghost m = self@;
        match self.select_min(scores) {
            None => {
                proof {
                    lemma_count_true_le_len(m.filled);
                }
                let filled = self.filled_cells();
                let area = self.width() * self.height();
                Err(GrowthError::FrontierExhausted { unfilled: area - filled })
            },
            Some((x, y)) => {
                proof {
                    lemma_min_frontier_upto(m, scores@, m.area());
                    let j = min_frontier(m, scores@).unwrap();
                    lemma_index_coords(m, j);
                    assert(m.frontier_at(m.x_of(j), m.y_of(j)));
                    assert(!m.filled_at(m.x_of(j), m.y_of(j)));
                }
                self.place(x, y, color);
                Ok((x, y))
            },
        }
    }
}

/// The spec-level account of a whole run: the final state, how many colors
/// were placed, and whether the run aborted on an empty frontier.
#[verifier::ext_equal]
pub ghost struct RunEnd {
    pub model: Model,
    pub placed: int,
    pub stuck: bool,
}

/// The growth loop as a function of the starting state and the supply: while
/// unfilled cells and colors remain, score the whole grid against the next
/// color, place it on the least-scoring frontier cell, and continue.
pub open spec fn run_m(m: Model, colors: Seq<Rgba>) -> RunEnd
    decreases colors.len(),
{
    if count_true(m.filled) == m.area() || colors.len() == 0 {
        RunEnd { model: m, placed: 0, stuck: false }
    } else {
        match min_frontier(m, score_grid(m, colors[0])) {
            None => RunEnd { model: m, placed: 0, stuck: true },
            Some(j) => {
                let rest = run_m(m.place(m.x_of(j), m.y_of(j), colors[0]), colors.drop_first());
                RunEnd { model: rest.model, placed: rest.placed + 1, stuck: rest.stuck }
            },
        }
    }
}

/// Runs the growth loop to completion with the built-in Manhattan scorer,
/// making exactly one scoring dispatch per placement. The result is pinned as
/// a function of the starting state and supply alone, so two runs from equal
/// states with equal supplies end with identical canvases and placements.
pub fn run_manhattan(store: &mut MaskStore, supply: &mut ColorSupply) -> (r: Result<
    RunReport,
    GrowthError,
>)
    requires
        old(store).inv(),
        old(supply).inv(),
    ensures
        final(store).inv(),
        final(supply).inv(),
        final(store)@ == run_m(old(store)@, old(supply)@).model,
        count_true(old(store)@.filled) > 0 ==> r is Ok,
        ({
            let e = run_m(old(store)@, old(supply)@);
            // A stuck run has consumed one more color: the one whose dispatch
            // found the frontier empty.
            &&& final(supply)@ == old(supply)@.skip(
                if e.stuck {
                    e.placed + 1
                } else {
                    e.placed
                },
            )
            &&& count_true(final(store)@.filled) == count_true(old(store)@.filled) + e.placed
            &&& if e.stuck {
                r == Err::<RunReport, GrowthError>(
                    (GrowthError::FrontierExhausted {
                        unfilled: (e.model.area() - count_true(e.model.filled)) as usize,
                    }),
                )
            } else {
                r == Ok::<RunReport, GrowthError>(
                    (RunReport {
                        outcome: if count_true(e.model.filled) == e.model.area() {
                            RunOutcome::Completed
                        } else {
                            RunOutcome::Drained
                        },
                        placements: e.placed as usize,
                        dispatches: e.placed as usize,
                    }),
                )
            }
        }),
{
    let ghost m0 = old(store)@;
    let ghost cs0 = old(supply)@;
    let mut placements: usize = 0;
    let mut dispatches: usize = 0;
    loop
        invariant
            store.inv(),
            supply.inv(),
            m0 == old(store)@,
            cs0 == old(supply)@,
            m0.wf(),
            dispatches == placements,
            placements == count_true(store@.filled) - count_true(m0.filled),
            placements as int <= cs0.len(),
            supply@ == cs0.skip(placements as int),
            run_m(m0, cs0).model == run_m(store@, supply@).model,
            run_m(m0, cs0).placed == placements + run_m(store@, supply@).placed,
            run_m(m0, cs0).stuck == run_m(store@, supply@).stuck,
        decreases supply@.len(),
    {
        let ghost m_pre = store@;
        let ghost cs_pre = supply@;
        if store.all_filled() {
            return Ok(
                RunReport { outcome: RunOutcome::Completed, placements, dispatches },
            );
        }
        match supply.next() {
            None => {
                return Ok(
                    RunReport { outcome: RunOutcome::Drained, placements, dispatches },
                );
            },
            Some(c) => {
                let scores = manhattan_scores(store, c);
                proof {
                    lemma_count_true_le_len(store@.filled);
                    lemma_count_true_le_len(m0.filled);
                }
                dispatches = dispatches + 1;
                match store.step(c, &scores) {
                    Err(e) => {
                        proof {
                            assert(supply@ =~= cs0.skip(placements as int + 1));
                            if count_true(m0.filled) > 0 {
                                lemma_run_never_stuck(m0, cs0);
                            }
                        }
                        return Err(e);
                    },
                    Ok(_) => {
                        placements = placements + 1;
                        proof {
                            assert(supply@ =~= cs0.skip(placements as int));
                        }
                    },
                }
            },
        }
    }
}

/// A run that meets no fatal fault ends with exactly
/// `min(area, already-filled + supply length)` filled cells; and every run,
/// faulted or not, gains exactly one filled cell per placed color, so no cell
/// is ever placed twice.
pub proof fn lemma_run_filled_count(m: Model, colors: Seq<Rgba>)
    requires
        m.wf(),
    ensures
        count_true(run_m(m, colors).model.filled) == count_true(m.filled) + run_m(m, colors).placed,
        !run_m(m, colors).stuck ==> count_true(run_m(m, colors).model.filled) == if count_true(
            m.filled,
        ) + colors.len() <= m.area() {
            count_true(m.filled) + colors.len()
        } else {
            m.area()
        },
    decreases colors.len(),
{
    lemma_count_true_le_len(m.filled);
    if count_true(m.filled) == m.area() || colors.len() == 0 {
    } else {
        match min_frontier(m, score_grid(m, colors[0])) {
            None => {},
            Some(j) => {
                lemma_min_frontier_upto(m, score_grid(m, colors[0]), m.area());
                lemma_index_coords(m, j);
                let x = m.x_of(j);
                let y = m.y_of(j);
                assert(m.frontier_at(x, y));
                assert(!m.filled_at(x, y));
                lemma_place_wf(m, x, y, colors[0]);
                lemma_count_true_update(m.filled, j);
                lemma_run_filled_count(m.place(x, y, colors[0]), colors.drop_first());
            },
        }
    }
}

/// A seeded run never meets the fatal empty-frontier fault: as long as one
/// cell is filled, the frontier holds every unfilled cell that growth can
/// reach, so a run ends only by filling the grid or draining the supply.
pub proof fn lemma_run_never_stuck(m: Model, colors: Seq<Rgba>)
    requires
        m.wf(),
        count_true(m.filled) > 0,
    ensures
        !run_m(m, colors).stuck,
    decreases colors.len(),
{
    lemma_count_true_le_len(m.filled);
    if count_true(m.filled) == m.area() || colors.len() == 0 {
    } else {
        let scores = score_grid(m, colors[0]);
        lemma_min_frontier_upto(m, scores, m.area());
        match min_frontier(m, scores) {
            None => {
                lemma_frontier_nonempty(m);
                let i = choose|i: int| 0 <= i < m.area() && m.frontier[i];
                assert(!m.frontier[i]);
            },
            Some(j) => {
                lemma_index_coords(m, j);
                let x = m.x_of(j);
                let y = m.y_of(j);
                assert(m.frontier_at(x, y));
                assert(!m.filled_at(x, y));
                lemma_place_wf(m, x, y, colors[0]);
                lemma_count_true_update(m.filled, j);
                lemma_run_never_stuck(m.place(x, y, colors[0]), colors.drop_first());
            },
        }
    }
}

/// Filled cells stay filled and keep their color: every cell filled at the
/// start of a run is still filled, with the same color and in a grid of the
/// same dimensions, in the well-formed state the run ends in.
pub proof fn lemma_run_monotone(m: Model, colors: Seq<Rgba>)
    requires
        m.wf(),
    ensures
        run_m(m, colors).model.wf(),
        run_m(m, colors).model.width == m.width,
        run_m(m, colors).model.height == m.height,
        forall|x: int, y: int|
            m.in_bounds(x, y) && #[trigger] m.filled_at(x, y) ==> run_m(m, colors).model.filled_at(
                x,
                y,
            ),
        forall|x: int, y: int|
            m.in_bounds(x, y) && #[trigger] m.filled_at(x, y) ==> run_m(
                m,
                colors,
            ).model.canvas_at(x, y) == m.canvas_at(x, y),
    decreases colors.len(),
{
    if count_true(m.filled) == m.area() || colors.len() == 0 {
    } else {
        match min_frontier(m, score_grid(m, colors[0])) {
            None => {},
            Some(j) => {
                lemma_min_frontier_upto(m, score_grid(m, colors[0]), m.area());
                lemma_index_coords(m, j);
                let x = m.x_of(j);
                let y = m.y_of(j);
                assert(m.frontier_at(x, y));
                assert(!m.filled_at(x, y));
                lemma_place_wf(m, x, y, colors[0]);
                lemma_place_monotone(m, x, y, colors[0]);
                let p = m.place(x, y, colors[0]);
                lemma_run_monotone(p, colors.drop_first());
                assert forall|qx: int, qy: int|
                    m.in_bounds(qx, qy) && #[trigger] m.filled_at(qx, qy) implies run_m(
                    m,
                    colors,
                ).model.filled_at(qx, qy) && run_m(m, colors).model.canvas_at(qx, qy)
                    == m.canvas_at(qx, qy) by {
                    assert(p.filled_at(qx, qy));
                    assert(p.canvas_at(qx, qy) == m.canvas_at(qx, qy));
                }
            },
        }
    }
}

} // verus!
