//! Plain data carriers exchanged between the grid, its blocks and the
//! callers: queued deductions, per-cell diagnostics, render snapshots,
//! and the engine's fatal error class.

use vstd::prelude::*;

verus! {

/// The two line directions a pointing candidate can take.
#[derive(Debug, Copy, Clone, PartialEq, Eq, Structural)]
pub enum Directional {
    Row,
    Column,
}

/// A pointing candidate: within block (`grid_row`, `grid_col`) the value
/// can only land on the absolute line `index` running in `direction`, so
/// it may be eliminated from that line in every other block.
#[derive(Debug, Copy, Clone, PartialEq, Eq, Structural)]
pub struct DirectionalCandidate {
    pub direction: Directional,
    pub index: u8,
    pub grid_row: usize,
    pub grid_col: usize,
    pub value: u8,
}

/// A forced assignment: `value` must go at (`row`, `column`).
#[derive(Debug, Copy, Clone, PartialEq, Eq, Structural)]
pub struct SingleCandidate {
    pub row: usize,
    pub column: usize,
    pub value: u8,
}

/// Diagnostic for one empty cell: the values it still admits.
#[derive(Debug, Clone)]
pub struct CellPossibleValues {
    pub row: usize,
    pub column: usize,
    pub value: Vec<u8>,
}

/// Render snapshot of one cell: either its value and whether it was
/// given, or value 0 with the number of remaining candidates.
#[derive(Debug, Copy, Clone, PartialEq, Eq, Structural)]
pub struct PrintCell {
    pub value: u8,
    pub number_of_candidates: u8,
    pub is_given: bool,
}

impl Default for PrintCell {
    fn default() -> (r: Self)
        ensures
            r.value == 0,
            r.number_of_candidates == 0,
            !r.is_given,
    {
        PrintCell { value: 0, number_of_candidates: 0, is_given: false }
    }
}

/// The fatal, internal error class: an assignment that contradicts the
/// engine's own invariants (block complete, value already placed, or
/// value not among the target cell's candidates).  The ordinary
/// no-deduction-found outcome is reported as an incomplete solve, never
/// through this type.
#[derive(Debug, Copy, Clone, PartialEq, Eq, Structural)]
pub enum SudokuError {
    ConsistencyViolation,
}

} // verus!
