//! The choice of partitioning algorithm.

use vstd::prelude::*;

verus! {

/// Which partitioning algorithm to use.
#[derive(Debug, Copy, Clone, PartialEq, Eq, Structural)]
pub enum Mode {
    /// Traversal-order partitioning along the breadth-first order.
    Bfs,
    /// Traversal-order partitioning along the depth-first order.
    Dfs,
    /// Balanced random assignment.
    Random,
}

} // verus!
