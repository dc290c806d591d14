//! The result type shared by grid mutation and solving.

use vstd::prelude::*;

verus! {

/// Outcome of a grid mutation or of a whole solve attempt.
///
/// `Continue` means more work remains; `Finished` means every cell is fixed.
/// `Conflict(row, col)` reports an assignment the target cell cannot hold,
/// and `Insoluable(row, col)` reports a cell left with no viable value.
#[derive(PartialEq, Eq, Copy, Clone, Debug, Structural)]
pub enum SResult {
    Conflict(usize, usize),
    Continue,
    Insoluable(usize, usize),
    Finished,
}

} // verus!
