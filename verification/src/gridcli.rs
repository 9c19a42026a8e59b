//! The command-line argument record consumed by the front end.

use vstd::prelude::*;

verus! {

/// The six arguments that describe a grid problem on the command line.
/// Each is optional so that the front end can report exactly which one
/// is missing.
#[derive(Clone, Copy, PartialEq, Eq, Structural, Debug)]
pub struct GridCli {
    /// Width of the grid.
    pub width: Option<usize>,
    /// Height of the grid.
    pub height: Option<usize>,
    /// Start vertex x coordinate.
    pub start_x: Option<usize>,
    /// Start vertex y coordinate.
    pub start_y: Option<usize>,
    /// End vertex x coordinate.
    pub end_x: Option<usize>,
    /// End vertex y coordinate.
    pub end_y: Option<usize>,
}

} // verus!
