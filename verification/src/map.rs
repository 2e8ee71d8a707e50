//! A dungeon of several floors, and the room the player is in.
use vstd::prelude::*;
use crate::coords::Coords;
use crate::floor::{Floor, entered, exited, same_cells, lemma_enemies_stay};
use crate::labyrinth::{in_grid, wall_grid};
use crate::carve::carved_by_draws;

verus! {

/// The room the player is in.
#[derive(Clone, Copy, Debug, PartialEq, Eq, Structural)]
pub struct RoomData {
    pub coords: Coords,
    pub is_cleared: bool,
}

pub struct DungeonMap<E> {
    floors: Vec<Floor<E>>,
    curr_floor: usize,
    curr_room: Option<RoomData>,
}

impl<E> DungeonMap<E> {
    pub closed spec fn floors(&self) -> Seq<Floor<E>> {
        self.floors@
    }

    pub closed spec fn curr_index(&self) -> int {
        self.curr_floor as int
    }

    pub closed spec fn room(&self) -> Option<RoomData> {
        self.curr_room
    }

    pub open spec fn has_floor(&self) -> bool {
        0 <= self.curr_index() < self.floors().len()
    }

    /// The floor the player is on.
    pub open spec fn current(&self) -> Floor<E> {
        self.floors()[self.curr_index()]
    }

    /// Every floor is a labyrinth, and the room the player is in lies on the current floor.
    pub open spec fn wf(&self) -> bool {
        &&& forall|i: int| 0 <= i < self.floors().len() ==> (#[trigger] self.floors()[i]).wf()
        &&& self.room() is Some ==> self.has_floor() && self.current().in_floor(
            self.room()->0.coords,
        )
    }

    /// A dungeon of `floor_count` square floors of `width` by `height` cells, the player on
    /// the first one and in no room. Without floors the sizes are not looked at.
    pub fn create(width: i32, height: i32, floor_count: i32) -> (r: DungeonMap<E>)
        requires
            floor_count >= 0,
            floor_count > 0 ==> width == height && width >= 2,
        ensures
            r.wf(),
            r.floors().len() == floor_count,
            forall|i: int|
                0 <= i < floor_count ==> (#[trigger] r.floors()[i]).w() == width && r.floors()[i].h()
                    == height,
            forall|i: int, x: int, y: int|
                0 <= i < floor_count && in_grid(width as int, height as int, x, y)
                    ==> #[trigger] r.floors()[i].cell_is_fresh(x, y),
            forall|i: int|
                0 <= i < floor_count ==> {
                    let f = #[trigger] r.floors()[i];
                    &&& 0 <= f.start().x < width - 1
                    &&& 0 <= f.start().y < height - 1
                    &&& carved_by_draws(wall_grid(width as int, height as int), f.types(), f.w(), f.h(), f.start())
                },
            r.curr_index() == 0,
            r.room() is None,
    {
        let floor_size = (#[verifier::truncate] (width as usize), #[verifier::truncate] (height as usize));
        let mut floors: Vec<Floor<E>> = Vec::with_capacity(floor_count as usize);
        let mut i: i32 = 0;
        while i < floor_count
            invariant
                0 <= i <= floor_count,
                floor_count > 0 ==> width == height && width >= 2 && floor_size.0 == width
                    && floor_size.1 == height,
                floors@.len() == i,
                forall|k: int|
                    0 <= k < i ==> (#[trigger] floors@[k]).wf() && floors@[k].w() == width
                        && floors@[k].h() == height,
                forall|k: int, x: int, y: int|
                    0 <= k < i && in_grid(width as int, height as int, x, y)
                        ==> #[trigger] floors@[k].cell_is_fresh(x, y),
                forall|k: int|
                    0 <= k < i ==> {
                        let f = #[trigger] floors@[k];
                        &&& 0 <= f.start().x < width - 1
                        &&& 0 <= f.start().y < height - 1
                        &&& carved_by_draws(wall_grid(width as int, height as int), f.types(), f.w(), f.h(), f.start())
                    },
            decreases floor_count - i,
        {
            floors.push(Floor::new(floor_size));
            i += 1;
        }
        DungeonMap { floors, curr_floor: 0, curr_room: None }
    }

    /// How many floors the dungeon has.
    pub fn floor_count(&self) -> (r: usize)
        ensures
            r == self.floors().len(),
    {
        self.floors.len()
    }

    /// Whether the floor the player is on exists (a dungeon may have no floors).
    pub fn has_current_floor(&self) -> (r: bool)
        ensures
            r == self.has_floor(),
    {
        self.curr_floor < self.floors.len()
    }

    pub fn current_floor(&self) -> (r: &Floor<E>)
        requires
            self.has_floor(),
        ensures
            *r == self.current(),
    {
        &self.floors[self.curr_floor]
    }

    /// Whether the player may step on `coords` of the current floor: only corridors can be
    /// walked on.
    pub fn is_walkable(&self, coords: Coords) -> (r: bool)
        requires
            self.wf(),
            self.has_floor(),
        ensures
            r == (self.current().in_floor(coords) && self.current().type_at(coords) is Bridge),
    {
        self.current_floor().is_walkable(coords)
    }

    /// The player enters the room at `coords` of the current floor: the room is readied
    /// (stocked with `enemy` and a potion on its first visit) and becomes the room the
    /// player is in, not cleared.
    pub fn build_room(&mut self, coords: Coords, enemy: E)
        requires
            old(self).wf(),
            old(self).has_floor(),
            old(self).current().in_floor(coords),
        ensures
            final(self).wf(),
            room_built(*old(self), *final(self), coords, enemy),
    {
        let idx = self.curr_floor;
        let ghost fs0 = self.floors@;
        proof {
            assert(fs0[idx as int].wf());
            fs0[idx as int].lemma_wf_bounds();
        }
        self.floors[idx].prepare_enter_room(coords, enemy);
        let room_data = RoomData { coords, is_cleared: false };
        self.curr_room = Some(room_data);
    }

    /// Whether the room the player is in has been cleared; outside any room it is not.
    pub fn room_is_cleared(&self) -> (r: bool)
        ensures
            r == match self.room() {
                Some(room) => room.is_cleared,
                None => false,
            },
    {
        if let Some(roomdata) = &self.curr_room {
            return roomdata.is_cleared;
        } else {
            return false;
        }
    }

    /// The player leaves the room they are in, leaving `enemies` behind in it.
    pub fn exit_room(&mut self, enemies: Vec<E>)
        requires
            old(self).wf(),
            old(self).room() is Some,
        ensures
            final(self).wf(),
            room_left(*old(self), *final(self), enemies@),
    {
        let room_data = self.curr_room.unwrap();
        let idx = self.curr_floor;
        let ghost fs0 = self.floors@;
        self.floors[idx].prepare_exit_room(room_data.coords, enemies);
        let ghost fs1 = self.floors@;
        proof {
            assert(fs1 == fs0.update(idx as int, fs1[idx as int]));
            assert forall|i: int| 0 <= i < self.floors().len() implies (#[trigger] self.floors()[i]).wf() by {
                if i != idx {
                    assert(fs1[i] == fs0[i]);
                }
            }
        }
    }
}

/// The player stays on the same floor, and the other floors are left as they were.
pub open spec fn other_floors_kept<E>(before: DungeonMap<E>, after: DungeonMap<E>) -> bool {
    &&& after.has_floor()
    &&& after.curr_index() == before.curr_index()
    &&& after.floors().len() == before.floors().len()
    &&& forall|i: int|
        0 <= i < before.floors().len() && i != before.curr_index() ==> #[trigger] after.floors()[i]
            == before.floors()[i]
}

/// `after` is `before` with the player walked into the room at `coords` of the current floor.
pub open spec fn room_built<E>(before: DungeonMap<E>, after: DungeonMap<E>, coords: Coords, enemy: E) -> bool {
    &&& other_floors_kept(before, after)
    &&& entered(before.current(), after.current(), coords, enemy)
    &&& after.room() == Some((RoomData { coords, is_cleared: false }))
}

/// `after` is `before` with the player walked out of their room, leaving `enemies` in it.
pub open spec fn room_left<E>(before: DungeonMap<E>, after: DungeonMap<E>, enemies: Seq<E>) -> bool {
    &&& other_floors_kept(before, after)
    &&& after.room() == before.room()
    &&& exited(before.current(), after.current(), before.room()->0.coords, enemies)
}

/// Law: whoever the player leaves in a room is what they meet when they come back, and
/// coming back stocks nothing new.
pub proof fn lemma_room_keeps_enemies<E>(
    m1: DungeonMap<E>,
    m2: DungeonMap<E>,
    m3: DungeonMap<E>,
    m4: DungeonMap<E>,
    coords: Coords,
    e1: E,
    left: Seq<E>,
    e2: E,
)
    requires
        m1.has_floor(),
        m1.current().in_floor(coords),
        room_built(m1, m2, coords, e1),
        room_left(m2, m3, left),
        room_built(m3, m4, coords, e2),
    ensures
        m4.current().cell(coords.x as int, coords.y as int).enemies@ == left,
        same_cells(m3.current(), m4.current()),
{
    lemma_enemies_stay(m1.current(), m2.current(), m3.current(), m4.current(), coords, e1, left, e2);
}

} // verus!
