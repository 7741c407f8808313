//! The contract a concrete cell type supplies to the engine.
//!
//! A cell type brings its own auxiliary state kind, its own error kind, a
//! `range` bounding how far around its position one evaluation may reach,
//! and the `tick` operation itself, which reads and writes through a grid
//! view and reports whether the cell settled.

use vstd::prelude::*;
use crate::PowderkegError;
use crate::grid::Stainable;
use crate::math::{Point, Rect};

verus! {

/// What one evaluation of a cell reports when it does not fail.
pub enum TickSuccess {
    /// Nothing changed; the cell need not be looked at again until
    /// something around it changes.
    Stable,
    /// Something changed; the origin is re-stained so the cell is
    /// re-evaluated on the next tick.
    Unstable,
}

/// A concrete cell type of the simulation.
pub trait Cell: Sized {
    /// Auxiliary state shared per chunk, reachable from every evaluation
    /// (often a random generator).
    type State;

    /// Failures local to this cell type's own logic.
    type Error;

    /// Evaluates the cell at `origin` against a grid view. The view's
    /// addressable region never changes under a tick: cell logic moves
    /// values, it does not load or unload chunks.
    fn tick<G: Stainable<Cell = Self, State = Self::State, Error = Self::Error>>(origin: Point, grid: &mut G) -> (r: Result<
        TickSuccess,
        PowderkegError<Self::Error>,
    >)
        requires
            old(grid).wf(),
        ensures
            final(grid).wf(),
            final(grid).cells().dom() == old(grid).cells().dom(),
    ;

    /// The reach of one evaluation, as the specification sees it.
    spec fn range_spec(&self) -> Rect;

    /// The inclusive rectangle, relative to the cell's own position, that
    /// one evaluation may read or write. A cell whose translated range
    /// escapes its chunk is deferred to the cross-chunk pass rather than
    /// evaluated locally.
    fn range(&self) -> (r: Rect)
        ensures
            r == self.range_spec(),
    ;
}

} // verus!
