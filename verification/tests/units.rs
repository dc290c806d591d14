use sudoku::cell::{CellValues, SCell, FULL_MASK};
use sudoku::grid::SGrid;
use sudoku::rules::{Normal, Ruleset};
use sudoku::technique::{
    HiddenPair, HiddenSingle, NakedSingle, Pointing, SolveStepResult, Technique,
};
use sudoku::text::{apply, render};
use sudoku::types::SResult;

#[test]
fn cell_default_has_all_values() {
    let c: SCell = Default::default();
    assert_eq!(c, SCell::Possible(FULL_MASK));
    for v in 1..=9u8 {
        assert!(c.has(v));
    }
    assert_eq!(c.possibilities(), 9);
}

#[test]
fn cell_has_fixed() {
    let c = SCell::Fixed(4);
    assert!(c.has(4));
    assert!(!c.has(5));
    assert_eq!(c.possibilities(), 0);
}

#[test]
fn cell_remove_fails_only_on_fixed() {
    let mut f = SCell::Fixed(3);
    assert!(!f.remove(3));
    assert_eq!(f, SCell::Fixed(3));

    let mut p: SCell = Default::default();
    assert!(p.remove(5));
    assert!(!p.has(5));
    assert_eq!(p.possibilities(), 8);
    // Removing an absent value again still succeeds and changes nothing.
    assert!(p.remove(5));
    assert_eq!(p.possibilities(), 8);
}

#[test]
fn cell_remove_all_reports_change() {
    let mut p: SCell = Default::default();
    // Strike the fixed value 7.
    assert!(p.remove_all(SCell::Fixed(7)));
    assert!(!p.has(7));
    // Nothing further to strike: no change.
    assert!(!p.remove_all(SCell::Fixed(7)));
    // A fixed cell is never changed.
    let mut f = SCell::Fixed(2);
    assert!(!f.remove_all(SCell::Fixed(7)));
    assert_eq!(f, SCell::Fixed(2));
}

#[test]
fn cell_intersect_keeps_shared_values() {
    let mut a: SCell = Default::default();
    let mut b: SCell = Default::default();
    for v in [1u8, 2, 3] {
        a.remove(v);
    }
    for v in [7u8, 8, 9] {
        b.remove(v);
    }
    let shared = a.intersect(&b);
    for v in 1..=9u8 {
        assert_eq!(shared.has(v), (4..=6).contains(&v));
    }
}

#[test]
fn cell_values_ascending() {
    let mut c: SCell = Default::default();
    c.remove(2);
    c.remove(9);
    let mut vals: CellValues = c.values();
    let mut got = Vec::new();
    while let Some(v) = vals.next() {
        got.push(v);
    }
    assert_eq!(got, vec![1, 3, 4, 5, 6, 7, 8]);

    let fixed = SCell::Fixed(6);
    let mut fv = fixed.values();
    assert_eq!(fv.next(), Some(6));
    assert_eq!(fv.next(), None);
}

#[test]
fn grid_set_cell_results() {
    let mut g = SGrid::new(Normal::new());
    assert_eq!(g.set_cell(0, 0, 5), SResult::Continue);
    // Same value again: already done, keep going.
    assert_eq!(g.set_cell(0, 0, 5), SResult::Continue);
    // A different value on a fixed cell is a conflict.
    assert_eq!(g.set_cell(0, 0, 6), SResult::Conflict(0, 0));
    // The value was struck from everything (0, 0) sees.
    assert!(!g.cell(0, 8).has(5));
    assert!(!g.cell(8, 0).has(5));
    assert!(!g.cell(2, 2).has(5));
    assert!(g.cell(3, 3).has(5));
    // A peer can no longer take the eliminated value.
    assert_eq!(g.set_cell(0, 8, 5), SResult::Conflict(0, 8));
}

#[test]
fn grid_done_transitions() {
    let g = SGrid::new(Normal::new());
    assert_eq!(g.done(), SResult::Continue);
    let mut grid = SGrid::new(Normal::new());
    let puz =
        "   26 7 168  7  9 19   45  82 1   4   46 29   5   3 28  93   74 4  5  367 3 18   ";
    assert_eq!(apply(&mut grid, puz), SResult::Continue);
    let mut solver = sudoku::technique::SolverSet::full();
    assert!(matches!(
        solver.solve_grid(&mut grid),
        SolveStepResult::Finished
    ));
    assert_eq!(grid.done(), SResult::Finished);
}

#[test]
fn grid_house_cell_to_row_col_mapping() {
    // Rows map directly.
    assert_eq!(SGrid::house_cell_to_row_col(4, 7), (4, 7));
    // Columns swap the axes.
    assert_eq!(SGrid::house_cell_to_row_col(9, 0), (0, 0));
    assert_eq!(SGrid::house_cell_to_row_col(17, 3), (3, 8));
    // Boxes follow the 3x3 block layout.
    assert_eq!(SGrid::house_cell_to_row_col(18, 0), (0, 0));
    assert_eq!(SGrid::house_cell_to_row_col(18, 5), (1, 2));
    assert_eq!(SGrid::house_cell_to_row_col(26, 8), (8, 8));
    assert_eq!(SGrid::house_cell_to_row_col(22, 4), (4, 4));
}

#[test]
fn grid_houses_agree_with_cells() {
    let mut g = SGrid::new(Normal::new());
    assert_eq!(g.set_cell(3, 5, 9), SResult::Continue);
    let row = g.house(3);
    assert_eq!(row[5], SCell::Fixed(9));
    let col = g.house(9 + 5);
    assert_eq!(col[3], SCell::Fixed(9));
    let boxh = g.house(18 + 4);
    assert_eq!(boxh[2], SCell::Fixed(9));
    assert_eq!(g.house_cell(3, 5), SCell::Fixed(9));
}

#[test]
fn grid_set_house_delegates() {
    let mut g = SGrid::new(Normal::new());
    assert_eq!(g.set_house(9, 2, 4), SResult::Continue);
    assert_eq!(g.cell(2, 0), SCell::Fixed(4));
}

#[test]
fn grid_alter_house_reduces_cell() {
    let mut g = SGrid::new(Normal::new());
    let mut reduced: SCell = Default::default();
    for v in 1..=7u8 {
        reduced.remove(v);
    }
    // Replacing the full cell by {8, 9} is a change.
    assert!(g.alter_house(0, 0, reduced));
    assert_eq!(g.cell(0, 0), reduced);
    // Replacing by the same cell is not.
    assert!(!g.alter_house(0, 0, reduced));
}

#[test]
fn grid_remove_from_cell() {
    let mut g = SGrid::new(Normal::new());
    assert!(g.remove_from_cell(6, 6, 3));
    assert!(!g.cell(6, 6).has(3));
    assert_eq!(g.set_cell(7, 7, 1), SResult::Continue);
    // A fixed cell is not a valid target: nothing happens.
    assert!(!g.remove_from_cell(7, 7, 1));
    assert_eq!(g.cell(7, 7), SCell::Fixed(1));
}

#[test]
fn ruleset_sees_row_col_box() {
    let n = Normal::new();
    let seen = n.sees(0, 0);
    assert_eq!(seen.len(), 20);
    assert!(seen.contains(&(0, 8)));
    assert!(seen.contains(&(8, 0)));
    assert!(seen.contains(&(1, 1)));
    assert!(!seen.contains(&(0, 0)));
    assert!(!seen.contains(&(1, 3)));
}

#[test]
fn ruleset_overlapping_houses_table() {
    let n = Normal::new();
    assert_eq!(n.overlapping_houses(0), vec![18, 19, 20]);
    assert_eq!(n.overlapping_houses(4), vec![21, 22, 23]);
    assert_eq!(n.overlapping_houses(9), vec![18, 21, 24]);
    assert_eq!(n.overlapping_houses(14), vec![19, 22, 25]);
    assert_eq!(n.overlapping_houses(18), vec![0, 1, 2, 9, 10, 11]);
    assert_eq!(n.overlapping_houses(23), vec![3, 4, 5, 15, 16, 17]);
    assert_eq!(n.overlapping_houses(26), vec![6, 7, 8, 15, 16, 17]);
}

#[test]
fn naked_single_acts_on_forced_cell() {
    let mut g = SGrid::new(Normal::new());
    // Fix eight values of row 0: the ninth cell is a naked single for 9.
    for col in 0..8 {
        assert_eq!(g.set_cell(0, col, (col + 1) as u8), SResult::Continue);
    }
    let mut t = NakedSingle;
    assert!(matches!(t.step(&mut g), SolveStepResult::Acted));
    assert_eq!(g.cell(0, 8), SCell::Fixed(9));
}

#[test]
fn naked_single_acts_on_first_in_row_major_order() {
    let mut g = SGrid::new(Normal::new());
    // Two naked singles: (2, 8) for 9 and (6, 8) for 3.  The scan fixes the
    // row-major-first one and stops.
    for col in 0..8 {
        assert_eq!(g.set_cell(2, col, (col + 1) as u8), SResult::Continue);
        assert_eq!(g.set_cell(6, col, ((col + 3) % 9 + 1) as u8), SResult::Continue);
    }
    let mut t = NakedSingle;
    assert!(matches!(t.step(&mut g), SolveStepResult::Acted));
    assert_eq!(g.cell(2, 8), SCell::Fixed(9));
    assert!(matches!(g.cell(6, 8), SCell::Possible(_)));
}

#[test]
fn naked_single_stuck_on_fresh_grid() {
    let mut g = SGrid::new(Normal::new());
    let mut t = NakedSingle;
    assert!(matches!(t.step(&mut g), SolveStepResult::Stuck));
}

#[test]
fn hidden_single_fixes_lone_candidate() {
    let mut g = SGrid::new(Normal::new());
    // Strike 5 from every cell of row 0 but the first: (0, 0) is the only
    // place row 0 can still put a 5.
    for col in 1..9 {
        assert!(g.remove_from_cell(0, col, 5));
    }
    let mut t = HiddenSingle;
    assert!(matches!(t.step(&mut g), SolveStepResult::Acted));
    assert_eq!(g.cell(0, 0), SCell::Fixed(5));
}

#[test]
fn hidden_pair_reduces_to_shared_candidates() {
    let mut g = SGrid::new(Normal::new());
    // Confine 1 and 2 to the first two cells of row 0, and give those cells
    // one extra candidate each: {1,2,3} and {1,2,4}.
    for col in 2..9 {
        g.remove_from_cell(0, col, 1);
        g.remove_from_cell(0, col, 2);
    }
    for v in 5..=9u8 {
        g.remove_from_cell(0, 0, v);
        g.remove_from_cell(0, 1, v);
    }
    g.remove_from_cell(0, 0, 4);
    g.remove_from_cell(0, 1, 3);
    let mut t = HiddenPair;
    assert!(matches!(t.step(&mut g), SolveStepResult::Acted));
    // Both cells were intersected down to exactly {1, 2}.
    for v in 1..=9u8 {
        assert_eq!(g.cell(0, 0).has(v), v <= 2);
        assert_eq!(g.cell(0, 1).has(v), v <= 2);
    }
}

#[test]
fn pointing_strikes_value_outside_origin_house() {
    let mut g = SGrid::new(Normal::new());
    // Confine 1, within the top-left box, to its first row: strike it from
    // the box's two lower rows.
    for row in 1..3 {
        for col in 0..3 {
            assert!(g.remove_from_cell(row, col, 1));
        }
    }
    let mut t = Pointing;
    assert!(matches!(t.step(&mut g), SolveStepResult::Acted));
    // The value went from the rest of row 0 and stayed inside the box.
    for col in 0..3 {
        assert!(g.cell(0, col).has(1));
    }
    for col in 3..9 {
        assert!(!g.cell(0, col).has(1));
    }
    // Other rows are untouched outside the box.
    assert!(g.cell(3, 0).has(1));
    assert!(g.cell(1, 5).has(1));
}

#[test]
fn render_blank_and_fixed() {
    let g = SGrid::new(Normal::new());
    let blank_row = "   |   |   \n";
    let sep = "---+---+---\n";
    let expected = format!(
        "{r}{r}{r}{s}{r}{r}{r}{s}{r}{r}{r}",
        r = blank_row,
        s = sep
    );
    assert_eq!(render(&g), expected);

    let mut g2 = SGrid::new(Normal::new());
    assert_eq!(g2.set_cell(0, 0, 7), SResult::Continue);
    assert!(render(&g2).starts_with("7  |   |   \n"));
}

#[test]
fn apply_reports_elimination_conflict() {
    // 1 at (0,0), then 1 again in the same box at (1,1).
    let mut puz = String::from("1         1");
    while puz.len() < 81 {
        puz.push(' ');
    }
    let mut g = SGrid::new(Normal::new());
    assert_eq!(apply(&mut g, &puz), SResult::Conflict(1, 1));
}

#[test]
fn solver_counters_report_work() {
    let mut grid = SGrid::new(Normal::new());
    let puz =
        "   26 7 168  7  9 19   45  82 1   4   46 29   5   3 28  93   74 4  5  367 3 18   ";
    assert_eq!(apply(&mut grid, puz), SResult::Continue);
    let mut solver = sudoku::technique::SolverSet::full();
    assert!(matches!(
        solver.solve_grid(&mut grid),
        SolveStepResult::Finished
    ));
    assert_eq!(solver.technique_count(), 5);
    assert_eq!(solver.technique_name(0), "naked single");
    // The puzzle is a naked-single-only grid: the first technique did all
    // the work and the rest never acted.
    assert!(solver.action_count(0) > 0);
    for i in 1..5 {
        assert_eq!(solver.action_count(i), 0);
    }
}
