//! What the engine reports when it cannot do as asked.
use vstd::prelude::*;

verus! {

#[derive(Debug, Clone, Copy, PartialEq, Eq, Structural)]
pub enum OctreeError {
    /// A tag that names no corner was asked for its child; the value is the
    /// selector that the tag gave.
    CannotPlace(u8),
    /// The box does not lie in the unit cube.
    OutsideTree,
    /// Kept for a guard on capacity; nothing in the engine raises it.
    BelowThreshold(usize, usize),
}

} // verus!
