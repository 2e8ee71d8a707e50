//! The kind of each grid cell, and how a kind is drawn.
use vstd::prelude::*;
use crate::coords::Coords;

verus! {

/// What occupies a cell of a floor.
#[derive(Clone, Copy, Debug, PartialEq, Eq, Structural)]
pub enum CellType {
    Wall,
    Start,
    Room,
    /// A corridor piece; `direction` is the step from the room it leaves to the room it reaches.
    Bridge { direction: Coords },
}

impl Default for CellType {
    fn default() -> (r: CellType)
        ensures
            r == CellType::Wall,
    {
        CellType::Wall
    }
}

} // verus!
