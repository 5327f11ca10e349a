//! The errors that importing reports.

use vstd::prelude::*;

verus! {

/// What went wrong while importing.
#[derive(Clone, Copy, Debug, PartialEq, Eq, Structural)]
pub enum PrimeclueErr {
    /// Row `row` (counted from 0) has no cell at index `column`.
    NoColumn { column: usize, row: usize },
    /// A row has no `column`'th cell (counted from 1).
    MissingColumn { column: usize },
    /// A row to remove the cell at index `column` from holds only `present` cells.
    RemoveColumn { column: usize, present: usize },
}

} // verus!
