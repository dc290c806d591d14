//! A 9x9 Sudoku solver built on constraint propagation.
//!
//! Each board position holds either a fixed value or a bitmask of still
//! viable candidates.  Techniques remove candidates or fix cells until the
//! grid is fully determined or no registered technique can make progress.

pub mod cell;
pub mod grid;
pub mod rules;
pub mod technique;
pub mod text;
pub mod types;
