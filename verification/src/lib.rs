//! A chunked, incremental cellular-automaton simulation substrate.
//!
//! The world is an infinite integer grid partitioned into fixed-size square
//! chunks. Each chunk tracks a dirty region (its "stain") so that only cells
//! that changed recently are re-evaluated on the next tick.

pub mod area;
pub mod cell;
pub mod chunk;
pub mod grid;
pub mod lock;
pub mod math;
pub mod rng;
pub mod simulation;

use vstd::prelude::*;

verus! {

use crate::math::Point;

/// A recoverable failure raised while addressing or evaluating cells.
/// `E` is the error type of the concrete cell logic.
#[derive(Debug, Clone, PartialEq, Eq)]
pub enum PowderkegError<E> {
    /// The cell logic itself failed at the evaluated point.
    Cell(E),
    /// An in-chunk coordinate lay outside the chunk's bounds.
    LocalOutOfBounds(Point),
    /// The chunk holding the point is not part of the current world view.
    ChunkOutOfBounds(Point),
    /// A cross-chunk swap could not resolve both chunks.
    SwapOutOfBounds { first: Point, second: Point },
}

} // verus!
