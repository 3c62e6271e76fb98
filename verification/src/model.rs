use vstd::arithmetic::div_mod::{
    lemma_fundamental_div_mod, lemma_fundamental_div_mod_converse,
};
use vstd::prelude::*;

use crate::color::{abs_diff, Rgba};

verus! {

/// The mathematical state of a growth run: the grid dimensions, the canvas of
/// cell colors, and the two masks, all laid out row-major (`y * width + x`).
#[verifier::ext_equal]
pub ghost struct Model {
    pub width: int,
    pub height: int,
    pub canvas: Seq<Rgba>,
    pub filled: Seq<bool>,
    pub frontier: Seq<bool>,
}

/// Whether two distinct cells lie within a Chebyshev distance of one of each
/// other, i.e. whether they are 8-connected neighbors.
pub open spec fn adjacent(x: int, y: int, nx: int, ny: int) -> bool {
    &&& !(nx == x && ny == y)
    &&& -1 <= nx - x <= 1
    &&& -1 <= ny - y <= 1
}

/// How many entries of a boolean sequence are true.
pub open spec fn count_true(s: Seq<bool>) -> int
    decreases s.len(),
{
    if s.len() == 0 {
        0
    } else {
        count_true(s.drop_last()) + if s.last() {
            1int
        } else {
            0int
        }
    }
}

impl Model {
    /// The number of cells in the grid.
    pub open spec fn area(self) -> int {
        self.width * self.height
    }

    /// The three grids cover a non-empty grid whose cell count fits a `usize`.
    pub open spec fn dims_ok(self) -> bool {
        &&& 1 <= self.width
        &&& 1 <= self.height
        &&& self.width * self.height <= usize::MAX
        &&& self.canvas.len() == self.area()
        &&& self.filled.len() == self.area()
        &&& self.frontier.len() == self.area()
    }

    pub open spec fn in_bounds(self, x: int, y: int) -> bool {
        0 <= x < self.width && 0 <= y < self.height
    }

    /// The row-major index of cell `(x, y)`.
    pub open spec fn idx(self, x: int, y: int) -> int {
        y * self.width + x
    }

    /// The column of the cell at row-major index `i`.
    pub open spec fn x_of(self, i: int) -> int {
        i % self.width
    }

    /// The row of the cell at row-major index `i`.
    pub open spec fn y_of(self, i: int) -> int {
        i / self.width
    }

    pub open spec fn canvas_at(self, x: int, y: int) -> Rgba {
        self.canvas[self.idx(x, y)]
    }

    pub open spec fn filled_at(self, x: int, y: int) -> bool {
        self.filled[self.idx(x, y)]
    }

    pub open spec fn frontier_at(self, x: int, y: int) -> bool {
        self.frontier[self.idx(x, y)]
    }

    /// Whether at least one in-bounds 8-neighbor of `(x, y)` is filled.
    pub open spec fn has_filled_neighbor(self, x: int, y: int) -> bool {
        exists|nx: int, ny: int|
            self.in_bounds(nx, ny) && adjacent(x, y, nx, ny) && #[trigger] self.filled_at(nx, ny)
    }

    /// The frontier invariant: a cell is on the frontier exactly when it is
    /// unfilled and has at least one filled 8-neighbor.
    pub open spec fn frontier_ok(self) -> bool {
        forall|x: int, y: int|
            self.in_bounds(x, y) ==> (#[trigger] self.frontier_at(x, y) <==> (!self.filled_at(x, y)
                && self.has_filled_neighbor(x, y)))
    }

    pub open spec fn wf(self) -> bool {
        self.dims_ok() && self.frontier_ok()
    }

    /// The state after assigning color `c` to the unfilled in-bounds cell
    /// `(x, y)`: the cell leaves the frontier and becomes filled, and every
    /// unfilled 8-neighbor joins the frontier.
    pub open spec fn place(self, x: int, y: int, c: Rgba) -> Model {
        Model {
            canvas: self.canvas.update(self.idx(x, y), c),
            filled: self.filled.update(self.idx(x, y), true),
            frontier: Seq::new(
                self.frontier.len(),
                |i: int|
                    if i == self.idx(x, y) {
                        false
                    } else {
                        self.frontier[i] || (adjacent(x, y, self.x_of(i), self.y_of(i))
                            && !self.filled[i])
                    },
            ),
            ..self
        }
    }
}

/// An in-bounds cell has an in-range row-major index, and the index maps back
/// to the cell's coordinates.
pub proof fn lemma_idx_bounds(m: Model, x: int, y: int)
    requires
        m.dims_ok(),
        m.in_bounds(x, y),
    ensures
        0 <= m.idx(x, y) < m.area(),
        m.x_of(m.idx(x, y)) == x,
        m.y_of(m.idx(x, y)) == y,
{
    assert(0 <= y * m.width + x < m.width * m.height) by (nonlinear_arith)
        requires
            0 <= x < m.width,
            0 <= y < m.height,
    ;
    lemma_fundamental_div_mod_converse(y * m.width + x, m.width, y, x);
}

/// A row-major index in range names an in-bounds cell, and the coordinates it
/// names map back to the index.
pub proof fn lemma_index_coords(m: Model, i: int)
    requires
        m.dims_ok(),
        0 <= i < m.area(),
    ensures
        m.in_bounds(m.x_of(i), m.y_of(i)),
        m.idx(m.x_of(i), m.y_of(i)) == i,
{
    lemma_fundamental_div_mod(i, m.width);
    assert(0 <= i % m.width < m.width) by (nonlinear_arith)
        requires
            m.width >= 1,
            i >= 0,
    ;
    assert(0 <= i / m.width < m.height) by (nonlinear_arith)
        requires
            m.width >= 1,
            0 <= i < m.width * m.height,
            i == m.width * (i / m.width) + i % m.width,
            0 <= i % m.width < m.width,
    ;
}

/// Distinct in-bounds cells have distinct row-major indices.
pub proof fn lemma_idx_injective(m: Model, x1: int, y1: int, x2: int, y2: int)
    requires
        m.dims_ok(),
        m.in_bounds(x1, y1),
        m.in_bounds(x2, y2),
        m.idx(x1, y1) == m.idx(x2, y2),
    ensures
        x1 == x2 && y1 == y2,
{
    lemma_idx_bounds(m, x1, y1);
    lemma_idx_bounds(m, x2, y2);
}

/// Placing a color on an unfilled in-bounds cell of a well-formed state
/// yields a well-formed state: the frontier invariant is maintained.
pub proof fn lemma_place_wf(m: Model, x: int, y: int, c: Rgba)
    requires
        m.wf(),
        m.in_bounds(x, y),
        !m.filled_at(x, y),
    ensures
        m.place(x, y, c).wf(),
{
    let p = m.place(x, y, c);
    lemma_idx_bounds(m, x, y);
    let ci = m.idx(x, y);
    assert forall|qx: int, qy: int| p.in_bounds(qx, qy) implies (#[trigger] p.frontier_at(qx, qy)
        <==> (!p.filled_at(qx, qy) && p.has_filled_neighbor(qx, qy))) by {
        lemma_idx_bounds(m, qx, qy);
        let qi = m.idx(qx, qy);
        if qi == ci {
            lemma_idx_injective(m, qx, qy, x, y);
            assert(p.filled_at(qx, qy));
        } else {
            assert(p.filled_at(qx, qy) == m.filled_at(qx, qy));
            if adjacent(x, y, qx, qy) && !m.filled_at(qx, qy) {
                assert(p.frontier_at(qx, qy));
                assert(p.filled_at(x, y));
                assert(p.in_bounds(x, y) && adjacent(qx, qy, x, y) && p.filled_at(x, y));
                assert(p.has_filled_neighbor(qx, qy));
            } else if adjacent(x, y, qx, qy) {
                // The neighbor was already filled: it was not on the frontier
                // and remains off it, and it stays filled.
                assert(!m.frontier_at(qx, qy));
                assert(!p.frontier_at(qx, qy));
            } else {
                // Too far from the placed cell for either mask to change.
                assert(p.frontier_at(qx, qy) == m.frontier_at(qx, qy));
                if m.has_filled_neighbor(qx, qy) {
                    let (nx, ny) = choose|nx: int, ny: int|
                        m.in_bounds(nx, ny) && adjacent(qx, qy, nx, ny) && #[trigger] m.filled_at(
                            nx,
                            ny,
                        );
                    lemma_idx_bounds(m, nx, ny);
                    assert(p.filled_at(nx, ny));
                    assert(p.has_filled_neighbor(qx, qy));
                }
                if p.has_filled_neighbor(qx, qy) {
                    let (nx, ny) = choose|nx: int, ny: int|
                        p.in_bounds(nx, ny) && adjacent(qx, qy, nx, ny) && #[trigger] p.filled_at(
                            nx,
                            ny,
                        );
                    lemma_idx_bounds(m, nx, ny);
                    if m.idx(nx, ny) == ci {
                        lemma_idx_injective(m, nx, ny, x, y);
                        assert(false);
                    }
                    assert(m.filled_at(nx, ny));
                    assert(m.has_filled_neighbor(qx, qy));
                }
            }
        }
    }
}

/// Placement never unfills a cell and never repaints a filled one: the
/// filled mask only grows, and a color, once placed, is final.
pub proof fn lemma_place_monotone(m: Model, x: int, y: int, c: Rgba)
    requires
        m.dims_ok(),
        m.in_bounds(x, y),
        !m.filled_at(x, y),
    ensures
        forall|qx: int, qy: int|
            m.in_bounds(qx, qy) && #[trigger] m.filled_at(qx, qy) ==> m.place(
                x,
                y,
                c,
            ).filled_at(qx, qy),
        forall|qx: int, qy: int|
            m.in_bounds(qx, qy) && #[trigger] m.filled_at(qx, qy) ==> m.place(
                x,
                y,
                c,
            ).canvas_at(qx, qy) == m.canvas_at(qx, qy),
{
    assert forall|qx: int, qy: int|
        m.in_bounds(qx, qy) && #[trigger] m.filled_at(qx, qy) implies m.place(x, y, c).filled_at(
        qx,
        qy,
    ) && m.place(x, y, c).canvas_at(qx, qy) == m.canvas_at(qx, qy) by {
        lemma_idx_bounds(m, qx, qy);
        lemma_idx_bounds(m, x, y);
        if m.idx(qx, qy) == m.idx(x, y) {
            lemma_idx_injective(m, qx, qy, x, y);
        }
    }
}

/// The row-major index of the frontier cell with the least score among the
/// first `n` cells, the earliest such index winning ties; `None` when none of
/// the first `n` cells is on the frontier.
pub open spec fn min_frontier_upto(m: Model, scores: Seq<u16>, n: int) -> Option<int>
    decreases n,
{
    if n <= 0 {
        None
    } else {
        let rest = min_frontier_upto(m, scores, n - 1);
        if !m.frontier[n - 1] {
            rest
        } else {
            match rest {
                None => Some(n - 1),
                Some(j) => if (scores[n - 1] as int) < (scores[j] as int) {
                    Some(n - 1)
                } else {
                    Some(j)
                },
            }
        }
    }
}

/// The frontier cell selected for the next placement: least score, ties
/// broken by the lowest row-major index, i.e. the lowest `(y, x)` pair.
pub open spec fn min_frontier(m: Model, scores: Seq<u16>) -> Option<int> {
    min_frontier_upto(m, scores, m.area())
}

/// What the selected index satisfies: it is on the frontier, its score is
/// minimal among frontier cells, and it is the earliest index among those of
/// equal score; `None` comes exactly when no frontier cell exists.
pub proof fn lemma_min_frontier_upto(m: Model, scores: Seq<u16>, n: int)
    requires
        0 <= n,
    ensures
        match min_frontier_upto(m, scores, n) {
            None => forall|i: int| 0 <= i < n ==> !m.frontier[i],
            Some(j) => {
                &&& 0 <= j < n
                &&& m.frontier[j]
                &&& forall|i: int|
                    0 <= i < n && #[trigger] m.frontier[i] ==> (scores[j] as int) < (scores[i]
                        as int) || ((scores[j] as int) == (scores[i] as int) && j <= i)
            },
        },
    decreases n,
{
    if n > 0 {
        lemma_min_frontier_upto(m, scores, n - 1);
    }
}

/// A sequence without a true entry counts zero.
pub proof fn lemma_count_true_none(s: Seq<bool>)
    requires
        forall|i: int| 0 <= i < s.len() ==> !s[i],
    ensures
        count_true(s) == 0,
    decreases s.len(),
{
    if s.len() > 0 {
        assert forall|i: int| 0 <= i < s.drop_last().len() implies !s.drop_last()[i] by {
            assert(!s[i]);
        }
        lemma_count_true_none(s.drop_last());
    }
}

pub proof fn lemma_count_true_le_len(s: Seq<bool>)
    ensures
        0 <= count_true(s) <= s.len(),
    decreases s.len(),
{
    if s.len() > 0 {
        lemma_count_true_le_len(s.drop_last());
    }
}

/// Setting a false entry to true raises the count by exactly one.
pub proof fn lemma_count_true_update(s: Seq<bool>, i: int)
    requires
        0 <= i < s.len(),
        !s[i],
    ensures
        count_true(s.update(i, true)) == count_true(s) + 1,
    decreases s.len(),
{
    let t = s.update(i, true);
    if i == s.len() - 1 {
        assert(t.drop_last() =~= s.drop_last());
    } else {
        assert(t.drop_last() =~= s.drop_last().update(i, true));
        lemma_count_true_update(s.drop_last(), i);
    }
}

/// A sequence whose count of true entries equals its length is all true.
pub proof fn lemma_count_true_full(s: Seq<bool>)
    requires
        count_true(s) == s.len(),
    ensures
        forall|i: int| 0 <= i < s.len() ==> s[i],
    decreases s.len(),
{
    if s.len() > 0 {
        lemma_count_true_le_len(s.drop_last());
        lemma_count_true_full(s.drop_last());
        assert forall|i: int| 0 <= i < s.len() implies s[i] by {
            if i < s.len() - 1 {
                assert(s.drop_last()[i]);
            }
        }
    }
}

/// Walking one step at a time from a filled cell toward an unfilled cell must
/// cross the boundary between the two, so some cell is on the frontier.
proof fn lemma_path_to_frontier(m: Model, fx: int, fy: int, ux: int, uy: int)
    requires
        m.wf(),
        m.in_bounds(fx, fy),
        m.in_bounds(ux, uy),
        m.filled_at(fx, fy),
        !m.filled_at(ux, uy),
    ensures
        exists|i: int| 0 <= i < m.area() && m.frontier[i],
    decreases abs_diff(ux, fx) + abs_diff(uy, fy),
{
    if adjacent(fx, fy, ux, uy) {
        assert(m.has_filled_neighbor(ux, uy));
        assert(m.frontier_at(ux, uy));
        lemma_idx_bounds(m, ux, uy);
        assert(0 <= m.idx(ux, uy) < m.area() && m.frontier[m.idx(ux, uy)]);
    } else {
        let dx: int = if ux > fx {
            1
        } else if ux < fx {
            -1
        } else {
            0
        };
        let dy: int = if uy > fy {
            1
        } else if uy < fy {
            -1
        } else {
            0
        };
        let nx = fx + dx;
        let ny = fy + dy;
        assert(m.in_bounds(nx, ny));
        assert(adjacent(fx, fy, nx, ny));
        if !m.filled_at(nx, ny) {
            assert(m.has_filled_neighbor(nx, ny));
            assert(m.frontier_at(nx, ny));
            lemma_idx_bounds(m, nx, ny);
            assert(0 <= m.idx(nx, ny) < m.area() && m.frontier[m.idx(nx, ny)]);
        } else {
            lemma_path_to_frontier(m, nx, ny, ux, uy);
        }
    }
}

/// A well-formed state with at least one filled and one unfilled cell has a
/// non-empty frontier: growth can always go on until the grid is full.
pub proof fn lemma_frontier_nonempty(m: Model)
    requires
        m.wf(),
        0 < count_true(m.filled) < m.area(),
    ensures
        exists|i: int| 0 <= i < m.area() && m.frontier[i],
{
    lemma_count_true_pos(m.filled);
    lemma_count_true_below(m.filled);
    let fi = choose|i: int| 0 <= i < m.filled.len() && m.filled[i];
    let ui = choose|i: int| 0 <= i < m.filled.len() && !m.filled[i];
    lemma_index_coords(m, fi);
    lemma_index_coords(m, ui);
    lemma_path_to_frontier(m, m.x_of(fi), m.y_of(fi), m.x_of(ui), m.y_of(ui));
}

/// A positive count names a true entry.
pub proof fn lemma_count_true_pos(s: Seq<bool>)
    requires
        count_true(s) > 0,
    ensures
        exists|i: int| 0 <= i < s.len() && s[i],
    decreases s.len(),
{
    if s.len() > 0 {
        if s.last() {
            assert(s[s.len() - 1]);
        } else {
            lemma_count_true_pos(s.drop_last());
            let i = choose|i: int| 0 <= i < s.drop_last().len() && s.drop_last()[i];
            assert(s[i]);
        }
    }
}

/// A count below the length names a false entry.
pub proof fn lemma_count_true_below(s: Seq<bool>)
    requires
        count_true(s) < s.len(),
    ensures
        exists|i: int| 0 <= i < s.len() && !s[i],
    decreases s.len(),
{
    lemma_count_true_le_len(s);
    if s.len() > 0 {
        if !s.last() {
            assert(!s[s.len() - 1]);
        } else {
            lemma_count_true_below(s.drop_last());
            let i = choose|i: int| 0 <= i < s.drop_last().len() && !s.drop_last()[i];
            assert(!s[i]);
        }
    }
}

/// A sequence with an unset entry has a count below its length.
pub proof fn lemma_count_true_partial(s: Seq<bool>, i: int)
    requires
        0 <= i < s.len(),
        !s[i],
    ensures
        count_true(s) < s.len(),
{
    lemma_count_true_le_len(s);
    if count_true(s) == s.len() {
        lemma_count_true_full(s);
    }
}

} // verus!
