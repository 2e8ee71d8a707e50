//! The decisions the player's input drives, apart from the motion itself.
use vstd::prelude::*;
use crate::coords::{Coords, Dir2i, dirs};

verus! {

/// What the scene does on a frame.
#[derive(Clone, Copy, Debug, PartialEq, Eq, Structural)]
pub enum SceneAction {
    Nothing,
    EnterRoom,
    ExitRoom,
}

/// On the interact key the player walks into the room under them, when standing still in
/// the labyrinth, or leaves the room they are in, when touching one of its doors.
pub fn scene_action(interact: bool, in_room: bool, is_moving: bool, at_door: bool) -> (r: SceneAction)
    ensures
        r == if !interact {
            SceneAction::Nothing
        } else if !in_room && !is_moving {
            SceneAction::EnterRoom
        } else if in_room && at_door {
            SceneAction::ExitRoom
        } else {
            SceneAction::Nothing
        },
{
    if interact {
        if !in_room && !is_moving {
            SceneAction::EnterRoom
        } else if in_room && at_door {
            SceneAction::ExitRoom
        } else {
            SceneAction::Nothing
        }
    } else {
        SceneAction::Nothing
    }
}

/// The grid step a key press asks for in the labyrinth; when several keys are pressed, up
/// wins over right, right over down, down over left.
pub fn grid_step(up: bool, right: bool, down: bool, left: bool) -> (r: Option<Coords>)
    ensures
        r == if up {
            Some(dirs()[0])
        } else if right {
            Some(dirs()[1])
        } else if down {
            Some(dirs()[2])
        } else if left {
            Some(dirs()[3])
        } else {
            None::<Coords>
        },
{
    if up {
        Some(Dir2i::up())
    } else if right {
        Some(Dir2i::right())
    } else if down {
        Some(Dir2i::down())
    } else if left {
        Some(Dir2i::left())
    } else {
        None
    }
}

/// What a requested step does to the player's walk.
#[derive(Clone, Copy, Debug, PartialEq, Eq, Structural)]
pub enum MoveDecision {
    /// Start walking one step from where the player stands.
    Start,
    /// Queue the step after the one under way.
    Queue,
    /// Drop the request.
    Ignore,
}

/// A standing player starts the step when its target is walkable; otherwise the step is
/// queued after the current target when the cell beyond that target is walkable.
pub fn move_decision(is_moving: bool, walkable_from_here: bool, walkable_from_target: bool) -> (r:
    MoveDecision)
    ensures
        r == if !is_moving && walkable_from_here {
            MoveDecision::Start
        } else if walkable_from_target {
            MoveDecision::Queue
        } else {
            MoveDecision::Ignore
        },
{
    if !is_moving && walkable_from_here {
        MoveDecision::Start
    } else if walkable_from_target {
        MoveDecision::Queue
    } else {
        MoveDecision::Ignore
    }
}

/// In the labyrinth the interact key takes the player into the room under them, unless they
/// are still walking.
pub fn player_enters_room(interact: bool, is_moving: bool) -> (r: bool)
    ensures
        r == (interact && !is_moving),
{
    interact && !is_moving
}

} // verus!
