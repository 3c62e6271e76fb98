use clove::{
    distance, manhattan_scores, score_cell, ColorSupply, GrowthError, MaskStore, Rgba,
};

const BLACK: Rgba = Rgba { r: 0, g: 0, b: 0, a: 255 };
const RED: Rgba = Rgba { r: 255, g: 0, b: 0, a: 255 };

fn rgb(r: u8, g: u8, b: u8) -> Rgba {
    Rgba { r, g, b, a: 255 }
}

/// Recomputes the frontier of a cell from first principles: unfilled and at
/// least one filled 8-neighbor.
fn expected_frontier(s: &MaskStore, x: usize, y: usize) -> bool {
    if s.filled_at(x, y) {
        return false;
    }
    let (w, h) = (s.width(), s.height());
    for dx in 0..3usize {
        for dy in 0..3usize {
            if dx == 1 && dy == 1 {
                continue;
            }
            let nx = x + dx;
            let ny = y + dy;
            if nx >= 1 && ny >= 1 && nx - 1 < w && ny - 1 < h && s.filled_at(nx - 1, ny - 1) {
                return true;
            }
        }
    }
    false
}

fn check_frontier_invariant(s: &MaskStore) {
    for y in 0..s.height() {
        for x in 0..s.width() {
            assert_eq!(
                s.frontier_at(x, y),
                expected_frontier(s, x, y),
                "frontier mask wrong at ({}, {})",
                x,
                y
            );
        }
    }
}

#[test]
fn distance_exact_value() {
    let a = Rgba { r: 10, g: 20, b: 30, a: 255 };
    let b = Rgba { r: 5, g: 25, b: 40, a: 255 };
    assert_eq!(distance(a, b), 20);
    assert_eq!(distance(a, a), 0);
    assert_eq!(distance(RED, BLACK), 255);
    let opaque = Rgba { r: 0, g: 0, b: 0, a: 255 };
    let clear = Rgba { r: 0, g: 0, b: 0, a: 0 };
    assert_eq!(distance(opaque, clear), 255);
    assert_eq!(Rgba::opaque(10, 20, 30), Rgba { r: 10, g: 20, b: 30, a: 255 });
}

#[test]
fn new_store_is_unfilled_and_frontierless() {
    let s = MaskStore::new(3, 3, BLACK);
    assert_eq!(s.width(), 3);
    assert_eq!(s.height(), 3);
    assert_eq!(s.filled_cells(), 0);
    assert!(s.is_frontier_empty());
    assert!(!s.all_filled());
    for y in 0..3 {
        for x in 0..3 {
            assert_eq!(s.canvas_at(x, y), BLACK);
            assert!(!s.filled_at(x, y));
            assert!(!s.frontier_at(x, y));
        }
    }
}

#[test]
fn seeding_marks_all_eight_neighbors_as_frontier() {
    let mut s = MaskStore::new(3, 3, BLACK);
    s.place(1, 1, RED);
    assert!(s.filled_at(1, 1));
    assert_eq!(s.canvas_at(1, 1), RED);
    assert!(!s.frontier_at(1, 1));
    for y in 0..3 {
        for x in 0..3 {
            if (x, y) != (1, 1) {
                assert!(s.frontier_at(x, y), "({}, {}) should be frontier", x, y);
                assert!(!s.filled_at(x, y));
            }
        }
    }
    check_frontier_invariant(&s);
}

#[test]
fn frontier_invariant_holds_after_every_placement() {
    let mut s = MaskStore::new(4, 3, BLACK);
    let cells = [(2, 1), (1, 1), (3, 0), (0, 2), (2, 2)];
    for (i, &(x, y)) in cells.iter().enumerate() {
        s.place(x, y, rgb(i as u8, 0, 0));
        check_frontier_invariant(&s);
    }
}

#[test]
fn filled_cells_stay_filled() {
    let mut s = MaskStore::new(3, 3, BLACK);
    let cells = [(1, 1), (0, 0), (2, 2), (1, 0)];
    let mut placed: Vec<(usize, usize)> = Vec::new();
    for &(x, y) in cells.iter() {
        s.place(x, y, RED);
        placed.push((x, y));
        for &(px, py) in placed.iter() {
            assert!(s.filled_at(px, py));
        }
    }
    assert_eq!(s.filled_cells(), 4);
}

#[test]
fn neighbors_unfilled_at_corner_and_center() {
    let s = MaskStore::new(3, 3, BLACK);
    let mut corner = s.neighbors_unfilled(0, 0);
    corner.sort();
    assert_eq!(corner, vec![(0, 1), (1, 0), (1, 1)]);
    let center = s.neighbors_unfilled(1, 1);
    assert_eq!(center.len(), 8);
    let mut s2 = MaskStore::new(3, 3, BLACK);
    s2.place(1, 1, RED);
    let mut corner2 = s2.neighbors_unfilled(0, 0);
    corner2.sort();
    assert_eq!(corner2, vec![(0, 1), (1, 0)]);
}

#[test]
fn try_place_rejects_filled_cell() {
    let mut s = MaskStore::new(3, 3, BLACK);
    assert_eq!(s.try_place(1, 1, RED), Ok(()));
    assert_eq!(
        s.try_place(1, 1, BLACK),
        Err(GrowthError::PreconditionViolation { x: 1, y: 1 })
    );
    assert_eq!(s.canvas_at(1, 1), RED);
    assert_eq!(s.filled_cells(), 1);
}

#[test]
fn try_place_rejects_out_of_bounds() {
    let mut s = MaskStore::new(3, 3, BLACK);
    assert_eq!(
        s.try_place(3, 0, RED),
        Err(GrowthError::PreconditionViolation { x: 3, y: 0 })
    );
    assert_eq!(
        s.try_place(0, 7, RED),
        Err(GrowthError::PreconditionViolation { x: 0, y: 7 })
    );
    assert_eq!(s.filled_cells(), 0);
}

#[test]
fn score_cell_exact_values() {
    let mut s = MaskStore::new(3, 3, BLACK);
    s.place(1, 1, RED);
    // One filled neighbor (the seed) for every surrounding cell.
    assert_eq!(score_cell(&s, 0, 0, BLACK), 255);
    assert_eq!(score_cell(&s, 2, 1, RED), 0);
    // The seed itself has no filled neighbor yet.
    assert_eq!(score_cell(&s, 1, 1, BLACK), 0);
    s.place(0, 0, RED);
    // (1, 0) now sees two filled red neighbors.
    assert_eq!(score_cell(&s, 1, 0, BLACK), 510);
    assert_eq!(score_cell(&s, 1, 0, rgb(250, 0, 0)), 10);
}

#[test]
fn manhattan_scores_matches_per_cell_scores() {
    let mut s = MaskStore::new(4, 3, BLACK);
    s.place(1, 1, RED);
    s.place(3, 2, rgb(0, 200, 0));
    let grid = manhattan_scores(&s, rgb(10, 20, 30));
    assert_eq!(grid.len(), 12);
    for y in 0..3 {
        for x in 0..4 {
            assert_eq!(grid[y * 4 + x], score_cell(&s, x, y, rgb(10, 20, 30)));
        }
    }
}

#[test]
fn select_min_ignores_non_frontier_cells() {
    let mut s = MaskStore::new(3, 3, BLACK);
    s.place(1, 1, RED);
    // Give the filled center the lowest score: it must not be chosen.
    let mut scores = vec![50u16; 9];
    scores[1 * 3 + 1] = 0;
    scores[2 * 3 + 0] = 7;
    assert_eq!(s.select_min(&scores), Some((0, 2)));
}

#[test]
fn select_min_breaks_ties_by_lowest_y_then_x() {
    let mut s = MaskStore::new(3, 3, BLACK);
    s.place(1, 1, RED);
    let scores = vec![5u16; 9];
    assert_eq!(s.select_min(&scores), Some((0, 0)));
}

#[test]
fn select_min_none_when_frontier_empty() {
    let s = MaskStore::new(3, 3, BLACK);
    let scores = vec![0u16; 9];
    assert_eq!(s.select_min(&scores), None);
}

#[test]
fn step_places_on_least_scoring_frontier_cell() {
    let mut s = MaskStore::new(3, 3, BLACK);
    s.place(1, 1, RED);
    let mut scores = vec![100u16; 9];
    scores[0 * 3 + 2] = 3;
    let c = rgb(1, 2, 3);
    assert_eq!(s.step(c, &scores), Ok((2, 0)));
    assert_eq!(s.canvas_at(2, 0), c);
    assert!(s.filled_at(2, 0));
    check_frontier_invariant(&s);
}

#[test]
fn step_reports_exhausted_frontier() {
    let mut s = MaskStore::new(3, 3, BLACK);
    let scores = vec![0u16; 9];
    assert_eq!(
        s.step(RED, &scores),
        Err(GrowthError::FrontierExhausted { unfilled: 9 })
    );
    assert_eq!(s.filled_cells(), 0);
}

#[test]
fn supply_hands_out_colors_in_order_exactly_once() {
    let mut supply = ColorSupply::new(vec![RED, BLACK, rgb(9, 9, 9)]);
    assert_eq!(supply.remaining(), 3);
    assert_eq!(supply.next(), Some(RED));
    assert_eq!(supply.next(), Some(BLACK));
    assert_eq!(supply.remaining(), 1);
    assert_eq!(supply.next(), Some(rgb(9, 9, 9)));
    assert_eq!(supply.next(), None);
    assert_eq!(supply.next(), None);
    assert_eq!(supply.remaining(), 0);
}
