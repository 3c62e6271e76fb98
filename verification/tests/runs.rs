use clove::{
    random_color, random_supply, run_manhattan, ColorSupply, GrowthError, MaskStore, Rgba,
    RunOutcome,
};

const BLACK: Rgba = Rgba { r: 0, g: 0, b: 0, a: 255 };
const RED: Rgba = Rgba { r: 255, g: 0, b: 0, a: 255 };

fn rgb(r: u8, g: u8, b: u8) -> Rgba {
    Rgba { r, g, b, a: 255 }
}

fn seeded(w: usize, h: usize) -> MaskStore {
    let mut s = MaskStore::new(w, h, BLACK);
    s.place(w / 2, h / 2, RED);
    s
}

fn canvas_of(s: &MaskStore) -> Vec<Rgba> {
    let mut out = Vec::new();
    for y in 0..s.height() {
        for x in 0..s.width() {
            out.push(s.canvas_at(x, y));
        }
    }
    out
}

#[test]
fn three_by_three_scenario_follows_scores_and_tie_breaks() {
    let mut s = seeded(3, 3);
    let c3 = rgb(250, 0, 0);
    let mut supply = ColorSupply::new(vec![RED, BLACK, c3]);
    let report = run_manhattan(&mut s, &mut supply).expect("run must not fault");
    assert_eq!(report.outcome, RunOutcome::Drained);
    assert_eq!(report.placements, 3);
    assert_eq!(report.dispatches, 3);
    // All eight neighbors tie for the first color: lowest (y, x) wins.
    assert_eq!(s.canvas_at(0, 0), RED);
    // Black is furthest from the two reds: the cells seeing only one red tie,
    // and (2, 0) is the first of them in row-major order.
    assert_eq!(s.canvas_at(2, 0), BLACK);
    // The near-red color then goes to the first cell that sees one red and
    // no black, which is (0, 2).
    assert_eq!(s.canvas_at(0, 2), c3);
    assert_eq!(s.filled_cells(), 4);
}

#[test]
fn complete_run_fills_every_cell() {
    let mut s = seeded(3, 3);
    let mut colors = Vec::new();
    for i in 0..10 {
        colors.push(rgb(20 * i as u8, 5, 200));
    }
    let mut supply = ColorSupply::new(colors);
    let report = run_manhattan(&mut s, &mut supply).expect("run must not fault");
    assert_eq!(report.outcome, RunOutcome::Completed);
    // Filled cells equal min(area, supply + seed): the area here.
    assert_eq!(s.filled_cells(), 9);
    assert!(s.all_filled());
    assert_eq!(report.placements, 8);
    assert_eq!(report.dispatches, report.placements);
    assert_eq!(supply.remaining(), 2);
}

#[test]
fn short_supply_drains_without_fault() {
    let mut s = seeded(4, 4);
    let mut supply = ColorSupply::new(vec![rgb(1, 2, 3), rgb(4, 5, 6), rgb(7, 8, 9)]);
    let report = run_manhattan(&mut s, &mut supply).expect("a drained run is not a fault");
    assert_eq!(report.outcome, RunOutcome::Drained);
    assert_eq!(report.placements, 3);
    // Filled cells equal min(area, supply + seed) = 4; the rest stay unfilled.
    assert_eq!(s.filled_cells(), 4);
    assert!(!s.all_filled());
    assert_eq!(supply.remaining(), 0);
}

#[test]
fn duplicate_colors_are_accepted() {
    let mut s = seeded(3, 3);
    let mut supply = ColorSupply::new(vec![RED, RED, RED]);
    let report = run_manhattan(&mut s, &mut supply).expect("duplicates are legal");
    assert_eq!(report.placements, 3);
    assert_eq!(s.filled_cells(), 4);
}

#[test]
fn equal_inputs_give_identical_runs() {
    let colors = vec![rgb(3, 1, 4), rgb(1, 5, 9), rgb(2, 6, 5), rgb(35, 8, 97), rgb(93, 2, 38)];
    let mut s1 = seeded(3, 3);
    let mut q1 = ColorSupply::new(colors.clone());
    let r1 = run_manhattan(&mut s1, &mut q1).expect("run must not fault");
    let mut s2 = seeded(3, 3);
    let mut q2 = ColorSupply::new(colors);
    let r2 = run_manhattan(&mut s2, &mut q2).expect("run must not fault");
    assert_eq!(r1, r2);
    assert_eq!(canvas_of(&s1), canvas_of(&s2));
    for y in 0..3 {
        for x in 0..3 {
            assert_eq!(s1.filled_at(x, y), s2.filled_at(x, y));
            assert_eq!(s1.frontier_at(x, y), s2.frontier_at(x, y));
        }
    }
}

#[test]
fn one_dispatch_per_placement() {
    let mut s = seeded(5, 4);
    let mut colors = Vec::new();
    for i in 0..19 {
        colors.push(rgb(i as u8, 255 - i as u8, 3 * i as u8));
    }
    let mut supply = ColorSupply::new(colors);
    let report = run_manhattan(&mut s, &mut supply).expect("run must not fault");
    assert_eq!(report.outcome, RunOutcome::Completed);
    assert_eq!(report.placements, 19);
    assert_eq!(report.dispatches, 19);
}

#[test]
fn unseeded_run_faults_on_empty_frontier() {
    let mut s = MaskStore::new(3, 3, BLACK);
    let mut supply = ColorSupply::new(vec![RED]);
    assert_eq!(
        run_manhattan(&mut s, &mut supply),
        Err(GrowthError::FrontierExhausted { unfilled: 9 })
    );
}

#[test]
fn single_cell_grid_completes_without_dispatch() {
    let mut s = MaskStore::new(1, 1, BLACK);
    s.place(0, 0, RED);
    let mut supply = ColorSupply::new(vec![BLACK, BLACK]);
    let report = run_manhattan(&mut s, &mut supply).expect("run must not fault");
    assert_eq!(report.outcome, RunOutcome::Completed);
    assert_eq!(report.placements, 0);
    assert_eq!(report.dispatches, 0);
    assert_eq!(supply.remaining(), 2);
    assert_eq!(s.canvas_at(0, 0), RED);
}

#[test]
fn random_supply_is_sized_and_opaque() {
    let mut supply = random_supply(16);
    assert_eq!(supply.remaining(), 16);
    let mut n = 0;
    while let Some(c) = supply.next() {
        assert_eq!(c.a, 255);
        n += 1;
    }
    assert_eq!(n, 16);
    let c = random_color();
    assert_eq!(c.a, 255);
}

#[test]
fn random_supply_drives_a_full_run() {
    let mut s = seeded(4, 4);
    let mut supply = random_supply(15);
    let report = run_manhattan(&mut s, &mut supply).expect("run must not fault");
    assert_eq!(report.outcome, RunOutcome::Completed);
    assert_eq!(s.filled_cells(), 16);
    assert_eq!(report.placements, 15);
}
