use vstd::prelude::*;

use crate::color::{color_distance, distance, lemma_color_distance_bounds, Rgba};
use crate::model::{lemma_index_coords, Model};
use crate::store::MaskStore;

verus! {

/// The contribution of cell `(nx, ny)` to a score: the Manhattan distance
/// between its color and the candidate when it is in bounds and filled,
/// nothing otherwise.
pub open spec fn neighbor_term(m: Model, nx: int, ny: int, c: Rgba) -> int {
    if m.in_bounds(nx, ny) && m.filled_at(nx, ny) {
        color_distance(m.canvas_at(nx, ny), c)
    } else {
        0
    }
}

/// The affinity score of cell `(x, y)` for candidate color `c`: the sum of
/// the Manhattan channel distances between `c` and each filled in-bounds
/// 8-neighbor. Lower is better; a cell with no filled neighbor scores zero,
/// which is harmless because selection is restricted to frontier cells.
pub open spec fn cell_score(m: Model, x: int, y: int, c: Rgba) -> int {
    neighbor_term(m, x - 1, y - 1, c) + neighbor_term(m, x, y - 1, c) + neighbor_term(
        m,
        x + 1,
        y - 1,
        c,
    ) + neighbor_term(m, x - 1, y, c) + neighbor_term(m, x + 1, y, c) + neighbor_term(
        m,
        x - 1,
        y + 1,
        c,
    ) + neighbor_term(m, x, y + 1, c) + neighbor_term(m, x + 1, y + 1, c)
}

/// The full score grid for candidate color `c`, one entry per cell in
/// row-major order.
pub open spec fn score_grid(m: Model, c: Rgba) -> Seq<u16> {
    Seq::new((m.area()) as nat, |i: int| cell_score(m, m.x_of(i), m.y_of(i), c) as u16)
}

pub proof fn lemma_neighbor_term_bounds(m: Model, nx: int, ny: int, c: Rgba)
    ensures
        0 <= neighbor_term(m, nx, ny, c) <= 1020,
{
    if m.in_bounds(nx, ny) && m.filled_at(nx, ny) {
        lemma_color_distance_bounds(m.canvas_at(nx, ny), c);
    }
}

/// A cell's score fits comfortably in sixteen bits: at most eight neighbors,
/// each contributing at most 1020.
pub proof fn lemma_cell_score_bounds(m: Model, x: int, y: int, c: Rgba)
    ensures
        0 <= cell_score(m, x, y, c) <= 8160,
{
    lemma_neighbor_term_bounds(m, x - 1, y - 1, c);
    lemma_neighbor_term_bounds(m, x, y - 1, c);
    lemma_neighbor_term_bounds(m, x + 1, y - 1, c);
    lemma_neighbor_term_bounds(m, x - 1, y, c);
    lemma_neighbor_term_bounds(m, x + 1, y, c);
    lemma_neighbor_term_bounds(m, x - 1, y + 1, c);
    lemma_neighbor_term_bounds(m, x, y + 1, c);
    lemma_neighbor_term_bounds(m, x + 1, y + 1, c);
}

/// The contribution of one neighbor cell, zero when it is unfilled.
fn neighbor_score(s: &MaskStore, nx: usize, ny: usize, c: Rgba) -> (r: u16)
    requires
        s.inv(),
        s@.in_bounds(nx as int, ny as int),
    ensures
        r == neighbor_term(s@, nx as int, ny as int, c),
        r <= 1020,
{
    proof {
        lemma_neighbor_term_bounds(s@, nx as int, ny as int, c);
    }
    if s.filled_at(nx, ny) {
        distance(s.canvas_at(nx, ny), c)
    } else {
        0
    }
}

/// Computes the affinity score of cell `(x, y)` for candidate color `c`.
pub fn score_cell(s: &MaskStore, x: usize, y: usize, c: Rgba) -> (r: u16)
    requires
        s.inv(),
        s@.in_bounds(x as int, y as int),
    ensures
        r == cell_score(s@, x as int, y as int, c),
{
    proof {
        lemma_cell_score_bounds(s@, x as int, y as int, c);
    }
    let w = s.width();
    let h = s.height();
    let left = x >= 1;
    let right = x + 1 < w;
    let up = y >= 1;
    let down = y + 1 < h;
    let mut total: u16 = 0;
    if left && up {
        total = total + neighbor_score(s, x - 1, y - 1, c);
    }
    if up {
        total = total + neighbor_score(s, x, y - 1, c);
    }
    if right && up {
        total = total + neighbor_score(s, x + 1, y - 1, c);
    }
    if left {
        total = total + neighbor_score(s, x - 1, y, c);
    }
    if right {
        total = total + neighbor_score(s, x + 1, y, c);
    }
    if left && down {
        total = total + neighbor_score(s, x - 1, y + 1, c);
    }
    if down {
        total = total + neighbor_score(s, x, y + 1, c);
    }
    if right && down {
        total = total + neighbor_score(s, x + 1, y + 1, c);
    }
    total
}

/// Scores every cell of the grid against candidate color `c`, exactly as the
/// spec-level `score_grid` describes.
pub fn manhattan_scores(s: &MaskStore, c: Rgba) -> (r: Vec<u16>)
    requires
        s.inv(),
    ensures
        r@ == score_grid(s@, c),
{
    let ghost m = s@;
    let w = s.width();
    let n = w * s.height();
    let mut r: Vec<u16> = Vec::new();
    let mut i: usize = 0;
    while i < n
        invariant
            s.inv(),
            m == s@,
            w == m.width,
            n == m.area(),
            i <= n,
            r@.len() == i,
            forall|j: int| 0 <= j < i ==> r@[j] == score_grid(m, c)[j],
        decreases n - i,
    {
        proof {
            lemma_index_coords(m, i as int);
            lemma_cell_score_bounds(m, m.x_of(i as int), m.y_of(i as int), c);
        }
        let x = i % w;
        let y = i / w;
        r.push(score_cell(s, x, y, c));
        i = i + 1;
    }
    proof {
        assert(r@ =~= score_grid(m, c));
    }
    r
}

} // verus!
