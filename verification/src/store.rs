use vstd::prelude::*;

use crate::color::Rgba;
use crate::model::{
    adjacent, count_true, lemma_count_true_none, lemma_count_true_partial,
    lemma_count_true_update, lemma_idx_bounds, lemma_idx_injective, lemma_index_coords,
    lemma_min_frontier_upto, lemma_place_wf, min_frontier, min_frontier_upto, Model,
};
use crate::scheduler::GrowthError;

verus! {

/// Whether `(nx, ny)` is an in-bounds, unfilled 8-neighbor of `(x, y)`.
pub open spec fn unfilled_neighbor(m: Model, x: int, y: int, nx: int, ny: int) -> bool {
    m.in_bounds(nx, ny) && adjacent(x, y, nx, ny) && !m.filled_at(nx, ny)
}

/// Whether the coordinate list holds the cell `(nx, ny)`.
pub open spec fn contains_cell(s: Seq<(usize, usize)>, nx: int, ny: int) -> bool {
    exists|k: int| 0 <= k < s.len() && (#[trigger] s[k]) == ((nx as usize, ny as usize))
}

/// Picks the position of a listed cell.
pub proof fn lemma_contains_cell_index(s: Seq<(usize, usize)>, nx: int, ny: int) -> (k: int)
    requires
        contains_cell(s, nx, ny),
    ensures
        0 <= k < s.len(),
        s[k] == ((nx as usize, ny as usize)),
{
    choose|k: int| 0 <= k < s.len() && (#[trigger] s[k]) == ((nx as usize, ny as usize))
}

/// A cell listed at some position is contained.
pub proof fn lemma_contains_cell_intro(s: Seq<(usize, usize)>, k: int, nx: int, ny: int)
    requires
        0 <= k < s.len(),
        s[k] == ((nx as usize, ny as usize)),
    ensures
        contains_cell(s, nx, ny),
{
}

/// Appending keeps every listed cell listed.
pub proof fn lemma_contains_cell_push(s: Seq<(usize, usize)>, p: (usize, usize), nx: int, ny: int)
    requires
        contains_cell(s, nx, ny),
    ensures
        contains_cell(s.push(p), nx, ny),
{
    let k = lemma_contains_cell_index(s, nx, ny);
    lemma_contains_cell_intro(s.push(p), k, nx, ny);
}

/// The row-major index of a listed coordinate pair.
pub open spec fn cell_idx(m: Model, p: (usize, usize)) -> int {
    m.idx(p.0 as int, p.1 as int)
}

/// Lexicographic order on neighbor offsets, used to track which part of the
/// 3-by-3 window around a cell a scan has already visited.
pub open spec fn offset_done(a: int, b: int, da: int, db: int) -> bool {
    a < da || (a == da && b < db)
}

/// The persistent growth state: a canvas of colors, the filled mask and the
/// frontier mask, all dense row-major grids of the same dimensions.
pub struct MaskStore {
    width: usize,
    height: usize,
    canvas: Vec<Rgba>,
    filled: Vec<bool>,
    frontier: Vec<bool>,
    n_filled: usize,
}

impl View for MaskStore {
    type V = Model;

    closed spec fn view(&self) -> Model {
        Model {
            width: self.width as int,
            height: self.height as int,
            canvas: self.canvas@,
            filled: self.filled@,
            frontier: self.frontier@,
        }
    }
}

/// Builds a vector holding `n` copies of `v`.
fn repeated<T: Copy>(n: usize, v: T) -> (r: Vec<T>)
    ensures
        r@.len() == n,
        forall|i: int| 0 <= i < n ==> r@[i] == v,
{
    let mut r: Vec<T> = Vec::new();
    let mut k: usize = 0;
    while k < n
        invariant
            k <= n,
            r@.len() == k,
            forall|i: int| 0 <= i < k ==> r@[i] == v,
        decreases n - k,
    {
        r.push(v);
        k = k + 1;
    }
    r
}

impl MaskStore {
    /// The cached count of filled cells matches the filled mask.
    pub closed spec fn count_ok(self) -> bool {
        self.n_filled == count_true(self@.filled)
    }

    /// The store's invariant: well-formed grids (including the frontier
    /// invariant) and an accurate filled-cell count.
    pub open spec fn inv(self) -> bool {
        self@.wf() && self.count_ok()
    }

    /// Creates a store for a `width` by `height` grid with every cell unfilled
    /// and painted `background`.
    pub fn new(width: usize, height: usize, background: Rgba) -> (s: MaskStore)
        requires
            1 <= width,
            1 <= height,
            width * height <= usize::MAX,
        ensures
            s.inv(),
            s@.width == width,
            s@.height == height,
            forall|i: int| 0 <= i < s@.area() ==> s@.canvas[i] == background,
            forall|i: int| 0 <= i < s@.area() ==> !s@.filled[i],
            forall|i: int| 0 <= i < s@.area() ==> !s@.frontier[i],
            count_true(s@.filled) == 0,
    {
        proof {
            assert((width * height) as usize as int == (width as int) * (height as int));
        }
        let n: usize = width * height;
        let s = MaskStore {
            width,
            height,
            canvas: repeated(n, background),
            filled: repeated(n, false),
            frontier: repeated(n, false),
            n_filled: 0,
        };
        proof {
            let m = s@;
            lemma_count_true_none(m.filled);
            assert forall|x: int, y: int| m.in_bounds(x, y) implies (#[trigger] m.frontier_at(x, y)
                <==> (!m.filled_at(x, y) && m.has_filled_neighbor(x, y))) by {
                lemma_idx_bounds(m, x, y);
                if m.has_filled_neighbor(x, y) {
                    let (nx, ny) = choose|nx: int, ny: int|
                        m.in_bounds(nx, ny) && adjacent(x, y, nx, ny) && #[trigger] m.filled_at(
                            nx,
                            ny,
                        );
                    lemma_idx_bounds(m, nx, ny);
                }
            }
        }
        s
    }

    pub fn width(&self) -> (r: usize)
        ensures
            r == self@.width,
    {
        self.width
    }

    pub fn height(&self) -> (r: usize)
        ensures
            r == self@.height,
    {
        self.height
    }

    /// How many cells are filled.
    pub fn filled_cells(&self) -> (r: usize)
        requires
            self.inv(),
        ensures
            r == count_true(self@.filled),
    {
        self.n_filled
    }

    pub fn canvas_at(&self, x: usize, y: usize) -> (r: Rgba)
        requires
            self.inv(),
            self@.in_bounds(x as int, y as int),
        ensures
            r == self@.canvas_at(x as int, y as int),
    {
        proof {
            lemma_idx_bounds(self@, x as int, y as int);
        }
        self.canvas[y * self.width + x]
    }

    pub fn filled_at(&self, x: usize, y: usize) -> (r: bool)
        requires
            self.inv(),
            self@.in_bounds(x as int, y as int),
        ensures
            r == self@.filled_at(x as int, y as int),
    {
        proof {
            lemma_idx_bounds(self@, x as int, y as int);
        }
        self.filled[y * self.width + x]
    }

    pub fn frontier_at(&self, x: usize, y: usize) -> (r: bool)
        requires
            self.inv(),
            self@.in_bounds(x as int, y as int),
        ensures
            r == self@.frontier_at(x as int, y as int),
    {
        proof {
            lemma_idx_bounds(self@, x as int, y as int);
        }
        self.frontier[y * self.width + x]
    }

    /// Whether every cell of the grid is filled.
    pub fn all_filled(&self) -> (r: bool)
        requires
            self.inv(),
        ensures
            r <==> count_true(self@.filled) == self@.area(),
    {
        self.n_filled == self.width * self.height
    }

    /// Whether no cell at all is on the frontier.
    pub fn is_frontier_empty(&self) -> (r: bool)
        requires
            self.inv(),
        ensures
            r <==> (forall|i: int| 0 <= i < self@.area() ==> !self@.frontier[i]),
    {
        let mut i: usize = 0;
        let n = self.frontier.len();
        while i < n
            invariant
                i <= n,
                n == self@.area(),
                self@.frontier.len() == n,
                forall|j: int| 0 <= j < i ==> !self@.frontier[j],
            decreases n - i,
        {
            if self.frontier[i] {
                return false;
            }
            i = i + 1;
        }
        true
    }

    /// The in-bounds, unfilled 8-neighbors of `(x, y)`, each listed once.
    pub fn neighbors_unfilled(&self, x: usize, y: usize) -> (r: Vec<(usize, usize)>)
        requires
            self.inv(),
            self@.in_bounds(x as int, y as int),
        ensures
            forall|k: int|
                0 <= k < r@.len() ==> {
                    let p = #[trigger] r@[k];
                    unfilled_neighbor(self@, x as int, y as int, p.0 as int, p.1 as int)
                },
            forall|nx: int, ny: int|
                unfilled_neighbor(self@, x as int, y as int, nx, ny) ==> contains_cell(r@, nx, ny),
            forall|k1: int, k2: int| 0 <= k1 < k2 < r@.len() ==> r@[k1] != r@[k2],
    {
        let ghost m = self@;
        let ghost xi = x as int;
        let ghost yi = y as int;
        let mut r: Vec<(usize, usize)> = Vec::new();
        for dx in 0..3usize
            invariant
                self.inv(),
                m == self@,
                m.in_bounds(xi, yi),
                xi == x as int,
                yi == y as int,
                forall|k: int|
                    0 <= k < r@.len() ==> {
                        let p = #[trigger] r@[k];
                        unfilled_neighbor(m, xi, yi, p.0 as int, p.1 as int) && offset_done(
                            p.0 as int - xi + 1,
                            p.1 as int - yi + 1,
                            dx as int,
                            0,
                        )
                    },
                forall|nx: int, ny: int|
                    unfilled_neighbor(m, xi, yi, nx, ny) && offset_done(
                        nx - xi + 1,
                        ny - yi + 1,
                        dx as int,
                        0,
                    ) ==> contains_cell(r@, nx, ny),
                forall|k1: int, k2: int| 0 <= k1 < k2 < r@.len() ==> r@[k1] != r@[k2],
        {
            for dy in 0..3usize
                invariant
                    self.inv(),
                    m == self@,
                    m.in_bounds(xi, yi),
                    xi == x as int,
                    yi == y as int,
                    dx < 3,
                    forall|k: int|
                        0 <= k < r@.len() ==> {
                            let p = #[trigger] r@[k];
                            unfilled_neighbor(m, xi, yi, p.0 as int, p.1 as int) && offset_done(
                                p.0 as int - xi + 1,
                                p.1 as int - yi + 1,
                                dx as int,
                                dy as int,
                            )
                        },
                    forall|nx: int, ny: int|
                        unfilled_neighbor(m, xi, yi, nx, ny) && offset_done(
                            nx - xi + 1,
                            ny - yi + 1,
                            dx as int,
                            dy as int,
                        ) ==> contains_cell(r@, nx, ny),
                    forall|k1: int, k2: int| 0 <= k1 < k2 < r@.len() ==> r@[k1] != r@[k2],
            {
                let ghost r0 = r@;
                let ghost cax = xi + dx as int - 1;
                let ghost cay = yi + dy as int - 1;
                let ok_x = if dx == 0 {
                    x >= 1
                } else if dx == 2 {
                    x + 1 < self.width
                } else {
                    true
                };
                let ok_y = if dy == 0 {
                    y >= 1
                } else if dy == 2 {
                    y + 1 < self.height
                } else {
                    true
                };
                if ok_x && ok_y && !(dx == 1 && dy == 1) {
                    let nx = x + dx - 1;
                    let ny = y + dy - 1;
                    proof {
                        lemma_idx_bounds(m, nx as int, ny as int);
                    }
                    if !self.filled[ny * self.width + nx] {
                        r.push((nx, ny));
                        proof {
                            assert(unfilled_neighbor(m, xi, yi, cax, cay));
                            assert(r@[r0.len() as int] == (nx, ny));
                        }
                    } else {
                        proof {
                            assert(m.filled_at(cax, cay));
                        }
                    }
                } else {
                    proof {
                        assert(!unfilled_neighbor(m, xi, yi, cax, cay));
                    }
                }
                proof {
                    assert forall|nx: int, ny: int|
                        unfilled_neighbor(m, xi, yi, nx, ny) && offset_done(
                            nx - xi + 1,
                            ny - yi + 1,
                            dx as int,
                            dy as int + 1,
                        ) implies contains_cell(r@, nx, ny) by {
                        if offset_done(nx - xi + 1, ny - yi + 1, dx as int, dy as int) {
                            assert(contains_cell(r0, nx, ny));
                            if r@.len() > r0.len() {
                                lemma_contains_cell_push(r0, r@[r0.len() as int], nx, ny);
                                assert(r@ =~= r0.push(r@[r0.len() as int]));
                            }
                        } else {
                            assert(nx == cax && ny == cay);
                            lemma_contains_cell_intro(r@, r0.len() as int, nx, ny);
                        }
                    }
                    assert forall|k1: int, k2: int| 0 <= k1 < k2 < r@.len() implies r@[k1]
                        != r@[k2] by {
                        if k2 < r0.len() {
                            assert(r@[k1] == r0[k1] && r@[k2] == r0[k2]);
                        } else {
                            assert(r@[k1] == r0[k1]);
                            let p = r0[k1];
                            assert(offset_done(
                                p.0 as int - xi + 1,
                                p.1 as int - yi + 1,
                                dx as int,
                                dy as int,
                            ));
                        }
                    }
                }
            }
        }
        r
    }

    /// Assigns `color` to the unfilled in-bounds cell `(x, y)`: the cell is
    /// filled and removed from the frontier, and every unfilled in-bounds
    /// 8-neighbor is added to the frontier.
    pub fn place(&mut self, x: usize, y: usize, color: Rgba)
        requires
            old(self).inv(),
            old(self)@.in_bounds(x as int, y as int),
            !old(self)@.filled_at(x as int, y as int),
        ensures
            final(self).inv(),
            final(self)@ == old(self)@.place(x as int, y as int, color),
            final(self)@.wf(),
            count_true(final(self)@.filled) == count_true(old(self)@.filled) + 1,
            forall|qx: int, qy: int|
                old(self)@.in_bounds(qx, qy) && #[trigger] old(self)@.filled_at(qx, qy)
                    ==> final(self)@.filled_at(qx, qy),
    {
        let ghost m0 = self@;
        let ghost xi = x as int;
        let ghost yi = y as int;
        proof {
            lemma_idx_bounds(m0, xi, yi);
            lemma_count_true_partial(m0.filled, m0.idx(xi, yi));
            lemma_count_true_update(m0.filled, m0.idx(xi, yi));
            lemma_place_wf(m0, xi, yi, color);
        }
        let ghost ci = m0.idx(xi, yi);
        let nbrs = self.neighbors_unfilled(x, y);
        let i = y * self.width + x;
        self.canvas[i] = color;
        self.filled[i] = true;
        self.frontier[i] = false;
        self.n_filled = self.n_filled + 1;
        let mut k: usize = 0;
        while k < nbrs.len()
            invariant
                k <= nbrs@.len(),
                m0.dims_ok(),
                m0.in_bounds(xi, yi),
                ci == m0.idx(xi, yi),
                0 <= ci < m0.area(),
                forall|t: int|
                    0 <= t < nbrs@.len() ==> unfilled_neighbor(
                        m0,
                        xi,
                        yi,
                        #[trigger] nbrs@[t].0 as int,
                        nbrs@[t].1 as int,
                    ),
                self@.width == m0.width,
                self@.height == m0.height,
                self@.canvas == m0.canvas.update(ci, color),
                self@.filled == m0.filled.update(ci, true),
                self.n_filled == count_true(self@.filled),
                self@.frontier.len() == m0.area(),
                forall|j: int|
                    0 <= j < m0.area() ==> #[trigger] self@.frontier[j] == (if j == ci {
                        false
                    } else {
                        m0.frontier[j] || (exists|t: int|
                            0 <= t < k && cell_idx(m0, #[trigger] nbrs@[t]) == j)
                    }),
            decreases nbrs@.len() - k,
        {
            let (nx, ny) = nbrs[k];
            proof {
                lemma_idx_bounds(m0, nx as int, ny as int);
            }
            let ni = ny * self.width + nx;
            proof {
                assert(ni == cell_idx(m0, nbrs@[k as int]));
                if ni == ci {
                    lemma_idx_injective(m0, nx as int, ny as int, xi, yi);
                }
            }
            self.frontier[ni] = true;
            k = k + 1;
        }
        proof {
            let p = m0.place(xi, yi, color);
            assert forall|j: int| 0 <= j < m0.area() implies self@.frontier[j] == p.frontier[j] by {
                lemma_index_coords(m0, j);
                if j != ci {
                    let jx = m0.x_of(j);
                    let jy = m0.y_of(j);
                    if exists|t: int| 0 <= t < nbrs@.len() && cell_idx(m0, #[trigger] nbrs@[t]) == j {
                        let t = choose|t: int|
                            0 <= t < nbrs@.len() && cell_idx(m0, #[trigger] nbrs@[t]) == j;
                        lemma_idx_bounds(m0, nbrs@[t].0 as int, nbrs@[t].1 as int);
                        lemma_idx_injective(m0, nbrs@[t].0 as int, nbrs@[t].1 as int, jx, jy);
                        assert(adjacent(xi, yi, jx, jy) && !m0.filled[j]);
                    }
                    if adjacent(xi, yi, jx, jy) && !m0.filled[j] {
                        assert(unfilled_neighbor(m0, xi, yi, jx, jy));
                        assert(contains_cell(nbrs@, jx, jy));
                        let t = lemma_contains_cell_index(nbrs@, jx, jy);
                        assert(cell_idx(m0, nbrs@[t]) == j);
                    }
                }
            }
            assert(self@.frontier =~= p.frontier);
            assert(self@ =~= p);
            assert forall|qx: int, qy: int|
                m0.in_bounds(qx, qy) && #[trigger] m0.filled_at(qx, qy) implies self@.filled_at(
                qx,
                qy,
            ) by {
                lemma_idx_bounds(m0, qx, qy);
            }
        }
    }

    /// Attempts a placement without a precondition: out-of-bounds coordinates
    /// or an already-filled cell are reported as a fault and leave the store
    /// untouched.
    pub fn try_place(&mut self, x: usize, y: usize, color: Rgba) -> (r: Result<(), GrowthError>)
        requires
            old(self).inv(),
        ensures
            final(self).inv(),
            if old(self)@.in_bounds(x as int, y as int) && !old(self)@.filled_at(
                x as int,
                y as int,
            ) {
                r == Ok::<(), GrowthError>(()) && final(self)@ == old(self)@.place(
                    x as int,
                    y as int,
                    color,
                )
            } else {
                r == Err::<(), GrowthError>((GrowthError::PreconditionViolation { x, y }))
                    && final(self)@ == old(self)@
            },
    {
        if x < self.width && y < self.height {
            proof {
                lemma_idx_bounds(self@, x as int, y as int);
            }
            if !self.filled[y * self.width + x] {
                self.place(x, y, color);
                return Ok(());
            }
        }
        Err(GrowthError::PreconditionViolation { x, y })
    }

    /// Reduces a score grid over the frontier: the frontier cell with the
    /// least score, ties broken by the lowest `(y, x)` coordinate; `None`
    /// exactly when no cell is on the frontier.
    pub fn select_min(&self, scores: &Vec<u16>) -> (r: Option<(usize, usize)>)
        requires
            self.inv(),
            scores@.len() == self@.area(),
        ensures
            match min_frontier(self@, scores@) {
                None => r is None,
                Some(j) => r == Some(
                    ((self@.x_of(j) as usize, self@.y_of(j) as usize)),
                ),
            },
            (r is None) <==> (forall|i: int| 0 <= i < self@.area() ==> !self@.frontier[i]),
    {
        let ghost m = self@;
        let n = self.frontier.len();
        let mut i: usize = 0;
        let mut found = false;
        let mut best_i: usize = 0;
        let mut best_s: u16 = 0;
        while i < n
            invariant
                self.inv(),
                m == self@,
                n == m.area(),
                m.frontier.len() == n,
                scores@.len() == n,
                i <= n,
                match min_frontier_upto(m, scores@, i as int) {
                    None => !found,
                    Some(j) => found && best_i == j && best_s == scores@[j],
                },
            decreases n - i,
        {
            if self.frontier[i] {
                let sc = scores[i];
                if !found || sc < best_s {
                    found = true;
                    best_i = i;
                    best_s = sc;
                }
            }
            i = i + 1;
        }
        proof {
            lemma_min_frontier_upto(m, scores@, m.area());
        }
        if found {
            let x = best_i % self.width;
            let y = best_i / self.width;
            Some((x, y))
        } else {
            None
        }
    }
}

} // verus!
