//! Doors of a room.
use vstd::prelude::*;
use crate::coords::Coords;

verus! {

/// A door of a room, on the wall that faces `side` (one of the four directions).
#[derive(Clone, Copy, Debug, PartialEq, Eq, Structural)]
pub struct DoorData {
    pub side: Coords,
}

} // verus!
