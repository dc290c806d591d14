use sudoku::grid::SGrid;
use sudoku::rules::Normal;
use sudoku::technique::{
    HiddenPair, HiddenSingle, NakedPair, NakedSingle, Pointing, SolveStepResult, SolverSet, Tech,
};
use sudoku::text::apply;
use sudoku::types::SResult;

const PUZZLE_A: &str =
    "   26 7 168  7  9 19   45  82 1   4   46 29   5   3 28  93   74 4  5  367 3 18   ";
const PUZZLE_B: &str =
    "1 7  8   3        2  3 5 1  1653   85 3   6 17   1935  4 2 6  5        7   8  1 6";
const PUZZLE_C: &str =
    "4  27 6  798156234 2 84   7237468951849531726561792843 82 15479 7  243    4 87  2";
// Solvable with the full technique set; the Pointing technique is
// load-bearing for it.
const PUZZLE_E: &str =
    "  5 69 8 6  57         456 8261  347  468 915 51 4 6  519  6     8 5  36  3     9";

fn ingest(puz: &str) -> SGrid {
    let mut grid = SGrid::new(Normal::new());
    assert_eq!(apply(&mut grid, puz), SResult::Continue);
    grid
}

fn solve_with(puz: &str, techs: &[Tech]) -> SolveStepResult {
    let mut grid = ingest(puz);
    let mut solver = SolverSet::new();
    for t in techs {
        solver.add_technique(*t);
    }
    solver.solve_grid(&mut grid)
}

#[test]
fn scenario_a_naked_single_only() {
    let r = solve_with(PUZZLE_A, &[Tech::NakedSingle(NakedSingle)]);
    assert!(matches!(r, SolveStepResult::Finished));
}

#[test]
fn scenario_b_needs_hidden_single() {
    let ns = [Tech::NakedSingle(NakedSingle)];
    assert!(matches!(solve_with(PUZZLE_B, &ns), SolveStepResult::Stuck));
    let both = [Tech::NakedSingle(NakedSingle), Tech::HiddenSingle(HiddenSingle)];
    assert!(matches!(
        solve_with(PUZZLE_B, &both),
        SolveStepResult::Finished
    ));
}

#[test]
fn scenario_c_beyond_singles() {
    let two = [Tech::NakedSingle(NakedSingle), Tech::HiddenSingle(HiddenSingle)];
    assert!(matches!(solve_with(PUZZLE_C, &two), SolveStepResult::Stuck));
    // This grid lies beyond what the registered deductions can unlock: the
    // engine reports Stuck rather than guessing, even with every technique.
    let r = solve_with(
        PUZZLE_C,
        &[
            Tech::NakedSingle(NakedSingle),
            Tech::HiddenSingle(HiddenSingle),
            Tech::NakedPair(NakedPair),
            Tech::HiddenPair(HiddenPair),
            Tech::Pointing(Pointing),
        ],
    );
    assert!(matches!(r, SolveStepResult::Stuck));
}

#[test]
fn scenario_d_conflict_on_duplicate_in_row() {
    let mut puz = String::from("11");
    while puz.len() < 81 {
        puz.push(' ');
    }
    let mut grid = SGrid::new(Normal::new());
    assert_eq!(apply(&mut grid, &puz), SResult::Conflict(0, 1));
}

#[test]
fn scenario_e_pointing_is_load_bearing() {
    let full = [
        Tech::NakedSingle(NakedSingle),
        Tech::HiddenSingle(HiddenSingle),
        Tech::NakedPair(NakedPair),
        Tech::HiddenPair(HiddenPair),
        Tech::Pointing(Pointing),
    ];
    assert!(matches!(
        solve_with(PUZZLE_E, &full),
        SolveStepResult::Finished
    ));
    // Without Pointing the same grid cannot be completed.
    let no_pointing = [full[0], full[1], full[2], full[3]];
    assert!(matches!(
        solve_with(PUZZLE_E, &no_pointing),
        SolveStepResult::Stuck
    ));
    // Pairs alone do not bridge the gap either.
    let three = [full[0], full[1], full[2]];
    assert!(matches!(
        solve_with(PUZZLE_E, &three),
        SolveStepResult::Stuck
    ));
}
