//! A solver for the Hamiltonian path problem on rectangular grid graphs.
//!
//! The solver decides acceptability of an instance through color and
//! boundary predicates, reduces the instance by stripping two-wide bands
//! and splitting along interior edges down to a table of small prime
//! cases, and then reassembles a full path by replaying the recorded
//! strips as band extensions.

use vstd::prelude::*;

pub mod gridcli;
pub mod gridextension;
pub mod gridgraph;
pub mod gridpath;
pub mod gridproblem;

verus! {

/// The failure kinds surfaced by the solver's public operations.
#[derive(Clone, Copy, PartialEq, Eq, Structural, Debug)]
pub enum GridError {
    /// A coordinate lies outside the grid it was used with.
    OutOfBounds,
    /// A problem was constructed with identical start and end vertices.
    EqualEndpoints,
    /// A path extension found no edge of the path on the requested boundary.
    NoBoundaryEdge,
}

} // verus!
