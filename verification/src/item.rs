//! Items that can lie in a room.
use vstd::prelude::*;

verus! {

#[derive(Clone, Copy, Debug, PartialEq, Eq, Structural)]
pub enum ItemKind {
    Potion,
    Weapon,
}

/// An item as stored in a room: how many inventory slots it takes, and what it is.
#[derive(Clone, Copy, Debug, PartialEq, Eq, Structural)]
pub struct ItemData {
    pub slot_cost: i32,
    pub kind: ItemKind,
}

impl ItemData {
    /// The slot cost an item is shown with: its own cost, but at least one.
    pub fn effective_slot_cost(slot_cost: i32) -> (r: i32)
        ensures
            r == if slot_cost >= 1 { slot_cost } else { 1 },
    {
        if slot_cost >= 1 {
            slot_cost
        } else {
            1
        }
    }
}

} // verus!
