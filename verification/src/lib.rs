//! Generator for "Queens"-style logic puzzles.
//!
//! An `N` by `N` board holds exactly one marker per row and per column, no two
//! markers within Chebyshev distance 1 of each other.  The board is then
//! partitioned into `N` contiguous coloured regions, one per marker, and the
//! colouring is checked (and, when necessary, locally repaired) so that
//! re-solving the puzzle from the region layout alone reproduces the original
//! marker placement as the only valid solution.

pub mod board;
pub mod counter;
pub mod grower;
pub mod paths;
pub mod pipeline;
pub mod placement;
pub mod resolver;
pub mod repair;
pub mod solutions;
pub mod rng_source;
