use sudoku::cell::SCell;
use sudoku::grid::SGrid;
use sudoku::rules::{Normal, Ruleset};
use sudoku::technique::{SolveStepResult, SolverSet};
use sudoku::text::{apply, render};
use sudoku::types::SResult;

const PUZ_A: &str =
    "   26 7 168  7  9 19   45  82 1   4   46 29   5   3 28  93   74 4  5  367 3 18   ";
const PUZ_B: &str =
    "1 7  8   3        2  3 5 1  1653   85 3   6 17   1935  4 2 6  5        7   8  1 6";

fn ingest(puz: &str) -> SGrid {
    let mut grid = SGrid::new(Normal::new());
    assert_eq!(apply(&mut grid, puz), SResult::Continue);
    grid
}

fn fixed_value(c: SCell) -> Option<u8> {
    match c {
        SCell::Fixed(v) => Some(v),
        SCell::Possible(_) => None,
    }
}

/// No-conflict invariant, checked concretely: after ingesting and solving,
/// no two cells that see each other are fixed to the same value.
#[test]
fn no_conflict_invariant_concrete() {
    let rules = Normal::new();
    let mut grid = ingest(PUZ_B);
    let mut solver = SolverSet::full();
    solver.solve_grid(&mut grid);
    for row in 0..9 {
        for col in 0..9 {
            if let Some(v) = fixed_value(grid.cell(row, col)) {
                for (r2, c2) in Normal::new().sees(row, col) {
                    assert_ne!(fixed_value(grid.cell(r2, c2)), Some(v));
                }
            }
        }
    }
    let _ = rules;
}

/// Monotonic narrowing, checked concretely: an assignment never adds a
/// candidate to any open cell.
#[test]
fn monotonic_narrowing_concrete() {
    let mut grid = SGrid::new(Normal::new());
    let before: Vec<SCell> = (0..81).map(|i| grid.cell(i / 9, i % 9)).collect();
    assert_eq!(grid.set_cell(4, 4, 7), SResult::Continue);
    for i in 0..81 {
        let after = grid.cell(i / 9, i % 9);
        for v in 1..=9u8 {
            if after.has(v) {
                assert!(before[i].has(v));
            }
        }
    }
}

/// Idempotence: solving an already finished grid returns Finished at once,
/// mutating neither the grid nor the counters.
#[test]
fn solve_idempotent_on_finished_grid() {
    let mut grid = ingest(PUZ_A);
    let mut solver = SolverSet::full();
    assert!(matches!(
        solver.solve_grid(&mut grid),
        SolveStepResult::Finished
    ));
    let rendered = render(&grid);
    let actions: Vec<usize> = (0..solver.technique_count())
        .map(|i| solver.action_count(i))
        .collect();
    let defers: Vec<usize> = (0..solver.technique_count())
        .map(|i| solver.defer_count(i))
        .collect();

    assert!(matches!(
        solver.solve_grid(&mut grid),
        SolveStepResult::Finished
    ));
    assert_eq!(render(&grid), rendered);
    for i in 0..solver.technique_count() {
        assert_eq!(solver.action_count(i), actions[i]);
        assert_eq!(solver.defer_count(i), defers[i]);
    }
}

/// Determinism: solving the same input twice with the same technique order
/// gives identical final grids and identical per-technique counters.
#[test]
fn solve_deterministic() {
    let mut out = Vec::new();
    for _ in 0..2 {
        let mut grid = ingest(PUZ_B);
        let mut solver = SolverSet::full();
        let r = solver.solve_grid(&mut grid);
        let counts: Vec<(usize, usize)> = (0..solver.technique_count())
            .map(|i| (solver.defer_count(i), solver.action_count(i)))
            .collect();
        out.push((matches!(r, SolveStepResult::Finished), render(&grid), counts));
    }
    assert_eq!(out[0], out[1]);
}

/// Round-trip: rendering a solved grid and re-ingesting the filtered text
/// yields an equal grid.
#[test]
fn render_reingest_round_trip() {
    let mut grid = ingest(PUZ_A);
    let mut solver = SolverSet::full();
    assert!(matches!(
        solver.solve_grid(&mut grid),
        SolveStepResult::Finished
    ));
    let rendered = render(&grid);
    let filtered: String = rendered
        .chars()
        .filter(|c| ". 123456789".contains(*c))
        .collect();
    assert_eq!(filtered.len(), 81);
    // The last assignment of a complete grid reports Finished.
    let mut again = SGrid::new(Normal::new());
    assert_eq!(apply(&mut again, &filtered), SResult::Finished);
    for row in 0..9 {
        for col in 0..9 {
            assert_eq!(grid.cell(row, col), again.cell(row, col));
        }
    }
    assert_eq!(render(&again), rendered);
}
