//! A 9x9 Sudoku deduction engine built on a three-level bitmask model:
//! each cell keeps a 9-bit candidate set, each 3x3 block keeps per-line
//! candidate masks and a mask of placed values, and the grid fans
//! eliminations out across blocks.  The solver loop applies naked
//! singles, hidden singles and pointing candidates until the grid is
//! complete or no further deduction is forced.

pub mod cell;
pub mod grid;
pub mod group;
pub mod indices;
pub mod loader;
pub mod masks;
pub mod utility;
