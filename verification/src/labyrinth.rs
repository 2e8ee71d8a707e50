//! What makes a grid of cell kinds a labyrinth: one start, corridors that join
//! rooms, and every room hanging off a tree rooted at the start.
use vstd::prelude::*;
use crate::coords::{Coords, is_dir, dirs};
use crate::cell::CellType;
use crate::door::DoorData;

verus! {

/// The kind at column `x`, row `y` of a grid stored row by row.
pub open spec fn at(t: Seq<Seq<CellType>>, x: int, y: int) -> CellType {
    t[y][x]
}

pub open spec fn in_grid(w: int, h: int, x: int, y: int) -> bool {
    0 <= x < w && 0 <= y < h
}

/// A room or the start room.
pub open spec fn is_room_like(c: CellType) -> bool {
    c is Room || c is Start
}

/// `t` has `h` rows of `w` cells.
pub open spec fn shaped(t: Seq<Seq<CellType>>, w: int, h: int) -> bool {
    &&& t.len() == h
    &&& forall|y: int| 0 <= y < h ==> #[trigger] t[y].len() == w
}

/// A grid of `h` rows of `w` walls.
pub open spec fn wall_grid(w: int, h: int) -> Seq<Seq<CellType>> {
    Seq::new(h as nat, |y: int| Seq::new(w as nat, |x: int| CellType::Wall))
}

pub open spec fn all_walls(t: Seq<Seq<CellType>>, w: int, h: int) -> bool {
    forall|x: int, y: int| #[trigger] in_grid(w, h, x, y) ==> at(t, x, y) is Wall
}

/// Every corridor lies between two rooms along its direction: the one it leaves (a room or
/// the start) one step back, and the room it leads into one step ahead.
pub open spec fn bridges_join_rooms(t: Seq<Seq<CellType>>, w: int, h: int) -> bool {
    forall|x: int, y: int|
        #![trigger at(t, x, y)]
        in_grid(w, h, x, y) && at(t, x, y) is Bridge ==> {
            let d = at(t, x, y)->direction;
            &&& is_dir(d)
            &&& in_grid(w, h, x - d.x, y - d.y)
            &&& in_grid(w, h, x + d.x, y + d.y)
            &&& is_room_like(at(t, x - d.x, y - d.y))
            &&& at(t, x + d.x, y + d.y) is Room
        }
}

/// The corridor one step back from `(x, y)` along `d` leads into `(x, y)`.
pub open spec fn enters(t: Seq<Seq<CellType>>, w: int, h: int, x: int, y: int, d: Coords) -> bool {
    &&& is_dir(d)
    &&& in_grid(w, h, x - d.x, y - d.y)
    &&& at(t, x - d.x, y - d.y) == (CellType::Bridge { direction: d })
}

/// Every room is entered by exactly one corridor. With `bridges_join_rooms` this pairs the
/// corridors one to one with the rooms, so the corridors form a tree over the rooms and the
/// start: there are as many corridors as rooms, and none besides.
pub open spec fn rooms_entered_once(t: Seq<Seq<CellType>>, w: int, h: int) -> bool {
    &&& forall|x: int, y: int|
        #![trigger at(t, x, y)]
        in_grid(w, h, x, y) && at(t, x, y) is Room ==> exists|d: Coords| #[trigger] enters(t, w, h, x, y, d)
    &&& forall|x: int, y: int, d1: Coords, d2: Coords|
        #![trigger enters(t, w, h, x, y, d1), enters(t, w, h, x, y, d2)]
        in_grid(w, h, x, y) && enters(t, w, h, x, y, d1) && enters(t, w, h, x, y, d2) ==> d1 == d2
}

/// Rooms and the start lie an even number of cells from the start in both directions;
/// corridors an odd number in exactly one direction.
pub open spec fn on_start_lattice(t: Seq<Seq<CellType>>, w: int, h: int, s: Coords) -> bool {
    forall|x: int, y: int|
        #![trigger at(t, x, y)]
        in_grid(w, h, x, y) ==> {
            &&& is_room_like(at(t, x, y)) ==> (x - s.x) % 2 == 0 && (y - s.y) % 2 == 0
            &&& at(t, x, y) is Bridge ==> ((x - s.x) % 2 == 0) != ((y - s.y) % 2 == 0)
        }
}

/// Every cell of `t` that is not a wall has the same kind in `t2`.
pub open spec fn keeps_carved(t: Seq<Seq<CellType>>, t2: Seq<Seq<CellType>>, w: int, h: int) -> bool {
    forall|x: int, y: int|
        #![trigger at(t2, x, y)]
        in_grid(w, h, x, y) && !(at(t, x, y) is Wall) ==> at(t2, x, y) == at(t, x, y)
}

/// `t` with the cell at column `x`, row `y` set to `k`.
pub open spec fn with_kind(t: Seq<Seq<CellType>>, x: int, y: int, k: CellType) -> Seq<Seq<CellType>> {
    t.update(y, t[y].update(x, k))
}

/// `s` is inside the grid, holds the start, and no other cell does.
pub open spec fn single_start(t: Seq<Seq<CellType>>, w: int, h: int, s: Coords) -> bool {
    &&& in_grid(w, h, s.x as int, s.y as int)
    &&& at(t, s.x as int, s.y as int) == CellType::Start
    &&& forall|x: int, y: int|
        #![trigger at(t, x, y)]
        in_grid(w, h, x, y) && at(t, x, y) is Start ==> x == s.x && y == s.y
}

/// Room `order[i]` was reached from room `order[parent[i]]` through the corridor
/// one step along `dir[i]`.
pub open spec fn tree_edge(
    t: Seq<Seq<CellType>>,
    order: Seq<Coords>,
    parent: Seq<int>,
    dir: Seq<Coords>,
    i: int,
) -> bool {
    let p = parent[i];
    let d = dir[i];
    let c = order[p];
    &&& 0 <= p < i
    &&& is_dir(d)
    &&& order[i].x == c.x + 2 * d.x
    &&& order[i].y == c.y + 2 * d.y
    &&& at(t, c.x + d.x, c.y + d.y) == (CellType::Bridge { direction: d })
}

/// `order` lists every room of `t`, starting at `s`, and each later room is joined by a
/// corridor to an earlier one.
pub open spec fn is_tree(
    t: Seq<Seq<CellType>>,
    w: int,
    h: int,
    s: Coords,
    order: Seq<Coords>,
    parent: Seq<int>,
    dir: Seq<Coords>,
) -> bool {
    &&& order.len() >= 1
    &&& order[0] == s
    &&& parent.len() == order.len()
    &&& dir.len() == order.len()
    &&& forall|i: int|
        0 <= i < order.len() ==> in_grid(w, h, #[trigger] order[i].x as int, order[i].y as int)
            && is_room_like(at(t, order[i].x as int, order[i].y as int))
    &&& forall|i: int| 1 <= i < order.len() ==> #[trigger] tree_edge(t, order, parent, dir, i)
    &&& forall|x: int, y: int|
        #![trigger at(t, x, y)]
        in_grid(w, h, x, y) && is_room_like(at(t, x, y)) ==> exists|i: int|
            0 <= i < order.len() && (#[trigger] order[i]).x == x && order[i].y == y
}

/// The shape every generated floor has.
pub open spec fn is_labyrinth(t: Seq<Seq<CellType>>, w: int, h: int, s: Coords) -> bool {
    &&& shaped(t, w, h)
    &&& single_start(t, w, h, s)
    &&& bridges_join_rooms(t, w, h)
    &&& rooms_entered_once(t, w, h)
    &&& on_start_lattice(t, w, h, s)
    &&& exists|order: Seq<Coords>, parent: Seq<int>, dir: Seq<Coords>|
        is_tree(t, w, h, s, order, parent, dir)
}

/// A grid of walls with the start placed at `s` is a labyrinth.
pub proof fn lemma_start_only(t: Seq<Seq<CellType>>, w: int, h: int, s: Coords)
    requires
        shaped(t, w, h),
        in_grid(w, h, s.x as int, s.y as int),
        at(t, s.x as int, s.y as int) == CellType::Start,
        forall|x: int, y: int|
            #![trigger at(t, x, y)]
            in_grid(w, h, x, y) && !(x == s.x && y == s.y) ==> at(t, x, y) is Wall,
    ensures
        is_labyrinth(t, w, h, s),
{
    let order = seq![s];
    let parent = seq![0int];
    let dir = seq![Coords { x: 0, y: 1 }];
    assert forall|x: int, y: int, d1: Coords, d2: Coords|
        #![trigger enters(t, w, h, x, y, d1), enters(t, w, h, x, y, d2)]
        in_grid(w, h, x, y) && enters(t, w, h, x, y, d1) && enters(t, w, h, x, y, d2) implies d1 == d2 by {
        assert(at(t, x - d1.x, y - d1.y) is Wall || (x - d1.x == s.x && y - d1.y == s.y));
    }
    assert forall|x: int, y: int|
        #![trigger at(t, x, y)]
        in_grid(w, h, x, y) && is_room_like(at(t, x, y)) implies exists|i: int|
            0 <= i < order.len() && (#[trigger] order[i]).x == x && order[i].y == y by {
        assert(order[0].x == x && order[0].y == y);
    }
    assert(is_tree(t, w, h, s, order, parent, dir));
}

/// `t2` is `t` with the wall one step from room `c` along `d` made a corridor of direction
/// `d`, and the wall two steps along `d` made a room.
pub open spec fn carved_next_to(t: Seq<Seq<CellType>>, t2: Seq<Seq<CellType>>, w: int, h: int, c: Coords, d: Coords) -> bool {
    let bx = c.x + d.x;
    let by = c.y + d.y;
    let rx = c.x + 2 * d.x;
    let ry = c.y + 2 * d.y;
    &&& shaped(t, w, h)
    &&& shaped(t2, w, h)
    &&& is_dir(d)
    &&& in_grid(w, h, c.x as int, c.y as int)
    &&& is_room_like(at(t, c.x as int, c.y as int))
    &&& in_grid(w, h, bx, by)
    &&& in_grid(w, h, rx, ry)
    &&& at(t, bx, by) is Wall
    &&& at(t, rx, ry) is Wall
    &&& at(t2, bx, by) == (CellType::Bridge { direction: d })
    &&& at(t2, rx, ry) == CellType::Room
    &&& forall|x: int, y: int|
        #![trigger at(t2, x, y)]
        in_grid(w, h, x, y) && !(x == bx && y == by) && !(x == rx && y == ry) ==> at(t2, x, y)
            == at(t, x, y)
}

proof fn lemma_carve_bridges(t: Seq<Seq<CellType>>, t2: Seq<Seq<CellType>>, w: int, h: int, s: Coords, c: Coords, d: Coords)
    requires
        carved_next_to(t, t2, w, h, c, d),
        single_start(t, w, h, s),
        bridges_join_rooms(t, w, h),
    ensures
        single_start(t2, w, h, s),
        bridges_join_rooms(t2, w, h),
        keeps_carved(t, t2, w, h),
{
    let bx = c.x + d.x;
    let by = c.y + d.y;
    let rx = c.x + 2 * d.x;
    let ry = c.y + 2 * d.y;
    assert(at(t, c.x as int, c.y as int) == at(t2, c.x as int, c.y as int));
    assert(at(t, s.x as int, s.y as int) == at(t2, s.x as int, s.y as int));
    assert forall|x: int, y: int|
        #![trigger at(t2, x, y)]
        in_grid(w, h, x, y) && at(t2, x, y) is Start implies x == s.x && y == s.y by {
        if !(x == bx && y == by) && !(x == rx && y == ry) {
            assert(at(t, x, y) is Start);
        }
    }
    assert forall|x: int, y: int|
        #![trigger at(t2, x, y)]
        in_grid(w, h, x, y) && at(t2, x, y) is Bridge implies {
            let e = at(t2, x, y)->direction;
            &&& is_dir(e)
            &&& in_grid(w, h, x - e.x, y - e.y)
            &&& in_grid(w, h, x + e.x, y + e.y)
            &&& is_room_like(at(t2, x - e.x, y - e.y))
            &&& at(t2, x + e.x, y + e.y) is Room
        } by {
        if x == bx && y == by {
        } else {
            assert(!(x == rx && y == ry));
            assert(at(t, x, y) is Bridge);
            let e = at(t, x, y)->direction;
            assert(is_room_like(at(t, x - e.x, y - e.y)));
            assert(at(t, x + e.x, y + e.y) is Room);
            assert(at(t2, x - e.x, y - e.y) == at(t, x - e.x, y - e.y));
            assert(at(t2, x + e.x, y + e.y) == at(t, x + e.x, y + e.y));
        }
    }
}

proof fn lemma_carve_entered(t: Seq<Seq<CellType>>, t2: Seq<Seq<CellType>>, w: int, h: int, c: Coords, d: Coords)
    requires
        carved_next_to(t, t2, w, h, c, d),
        bridges_join_rooms(t, w, h),
        rooms_entered_once(t, w, h),
    ensures
        rooms_entered_once(t2, w, h),
{
    let bx = c.x + d.x;
    let by = c.y + d.y;
    let rx = c.x + 2 * d.x;
    let ry = c.y + 2 * d.y;
    assert forall|x: int, y: int|
        #![trigger at(t2, x, y)]
        in_grid(w, h, x, y) && at(t2, x, y) is Room implies exists|e: Coords| #[trigger] enters(t2, w, h, x, y, e) by {
        if x == rx && y == ry {
            assert(enters(t2, w, h, x, y, d));
        } else {
            assert(!(x == bx && y == by));
            assert(at(t, x, y) is Room);
            let e = choose|e: Coords| #[trigger] enters(t, w, h, x, y, e);
            assert(at(t2, x - e.x, y - e.y) == at(t, x - e.x, y - e.y));
            assert(enters(t2, w, h, x, y, e));
        }
    }
    assert forall|x: int, y: int, d1: Coords, d2: Coords|
        #![trigger enters(t2, w, h, x, y, d1), enters(t2, w, h, x, y, d2)]
        in_grid(w, h, x, y) && enters(t2, w, h, x, y, d1) && enters(t2, w, h, x, y, d2) implies d1 == d2 by {
        let new1 = x - d1.x == bx && y - d1.y == by;
        let new2 = x - d2.x == bx && y - d2.y == by;
        if new1 && new2 {
        } else if new1 || new2 {
            // (x, y) is then the new room, yet an older corridor would lead into it.
            let e = if new1 { d2 } else { d1 };
            assert(x == rx && y == ry);
            assert(!(x - e.x == rx && y - e.y == ry));
            assert(at(t2, x - e.x, y - e.y) == at(t, x - e.x, y - e.y));
            assert(at(t, x - e.x, y - e.y) is Bridge);
            assert(at(t, x, y) is Room);
        } else {
            assert(!(x - d1.x == rx && y - d1.y == ry));
            assert(!(x - d2.x == rx && y - d2.y == ry));
            assert(at(t2, x - d1.x, y - d1.y) == at(t, x - d1.x, y - d1.y));
            assert(at(t2, x - d2.x, y - d2.y) == at(t, x - d2.x, y - d2.y));
            assert(enters(t, w, h, x, y, d1));
            assert(enters(t, w, h, x, y, d2));
        }
    }
}

proof fn lemma_carve_lattice(t: Seq<Seq<CellType>>, t2: Seq<Seq<CellType>>, w: int, h: int, s: Coords, c: Coords, d: Coords)
    requires
        carved_next_to(t, t2, w, h, c, d),
        on_start_lattice(t, w, h, s),
    ensures
        on_start_lattice(t2, w, h, s),
{
    let bx = c.x + d.x;
    let by = c.y + d.y;
    let rx = c.x + 2 * d.x;
    let ry = c.y + 2 * d.y;
    assert((c.x - s.x) % 2 == 0 && (c.y - s.y) % 2 == 0);
    assert forall|x: int, y: int|
        #![trigger at(t2, x, y)]
        in_grid(w, h, x, y) implies {
            &&& is_room_like(at(t2, x, y)) ==> (x - s.x) % 2 == 0 && (y - s.y) % 2 == 0
            &&& at(t2, x, y) is Bridge ==> ((x - s.x) % 2 == 0) != ((y - s.y) % 2 == 0)
        } by {
        if x == rx && y == ry {
        } else if x == bx && y == by {
        } else {
            assert(at(t2, x, y) == at(t, x, y));
        }
    }
}

proof fn lemma_carve_tree(
    t: Seq<Seq<CellType>>,
    t2: Seq<Seq<CellType>>,
    w: int,
    h: int,
    s: Coords,
    order: Seq<Coords>,
    parent: Seq<int>,
    dir: Seq<Coords>,
    ci: int,
    d: Coords,
    room: Coords,
)
    requires
        0 <= ci < order.len(),
        carved_next_to(t, t2, w, h, order[ci], d),
        is_tree(t, w, h, s, order, parent, dir),
        room.x == order[ci].x + 2 * d.x,
        room.y == order[ci].y + 2 * d.y,
    ensures
        is_tree(t2, w, h, s, order.push(room), parent.push(ci), dir.push(d)),
{
    let c = order[ci];
    let bx = c.x + d.x;
    let by = c.y + d.y;
    let o2 = order.push(room);
    let p2 = parent.push(ci);
    let d2 = dir.push(d);
    assert forall|i: int|
        0 <= i < o2.len() implies in_grid(w, h, #[trigger] o2[i].x as int, o2[i].y as int)
        && is_room_like(at(t2, o2[i].x as int, o2[i].y as int)) by {
        if i < order.len() {
            assert(o2[i] == order[i]);
            assert(in_grid(w, h, order[i].x as int, order[i].y as int));
            assert(is_room_like(at(t, order[i].x as int, order[i].y as int)));
            assert(at(t2, order[i].x as int, order[i].y as int) == at(
                t,
                order[i].x as int,
                order[i].y as int,
            ));
        }
    }
    assert forall|i: int| 1 <= i < o2.len() implies #[trigger] tree_edge(t2, o2, p2, d2, i) by {
        if i < order.len() {
            assert(tree_edge(t, order, parent, dir, i));
            let pc = order[parent[i]];
            assert(o2[parent[i]] == pc);
            assert(at(t, pc.x + dir[i].x, pc.y + dir[i].y) is Bridge);
            assert(at(t2, pc.x + dir[i].x, pc.y + dir[i].y) == at(
                t,
                pc.x + dir[i].x,
                pc.y + dir[i].y,
            ));
        } else {
            assert(o2[ci] == c);
        }
    }
    assert forall|x: int, y: int|
        #![trigger at(t2, x, y)]
        in_grid(w, h, x, y) && is_room_like(at(t2, x, y)) implies exists|i: int|
            0 <= i < o2.len() && (#[trigger] o2[i]).x == x && o2[i].y == y by {
        if x == room.x && y == room.y {
            assert(o2[order.len() as int] == room);
        } else {
            assert(!(x == bx && y == by));
            assert(is_room_like(at(t, x, y)));
            let i = choose|i: int| 0 <= i < order.len() && (#[trigger] order[i]).x == x && order[i].y == y;
            assert(o2[i] == order[i]);
        }
    }
    assert(is_tree(t2, w, h, s, o2, p2, d2));
}

/// Carving a corridor and a room out of walls next to a listed room keeps a labyrinth.
pub proof fn lemma_carve(
    t: Seq<Seq<CellType>>,
    t2: Seq<Seq<CellType>>,
    w: int,
    h: int,
    s: Coords,
    c: Coords,
    d: Coords,
)
    requires
        w <= i32::MAX,
        h <= i32::MAX,
        is_labyrinth(t, w, h, s),
        carved_next_to(t, t2, w, h, c, d),
    ensures
        is_labyrinth(t2, w, h, s),
        keeps_carved(t, t2, w, h),
{
    lemma_carve_bridges(t, t2, w, h, s, c, d);
    lemma_carve_entered(t, t2, w, h, c, d);
    lemma_carve_lattice(t, t2, w, h, s, c, d);
    let (order, parent, dir) = choose|order: Seq<Coords>, parent: Seq<int>, dir: Seq<Coords>|
        is_tree(t, w, h, s, order, parent, dir);
    assert(is_room_like(at(t, c.x as int, c.y as int)));
    let ci = choose|i: int| 0 <= i < order.len() && (#[trigger] order[i]).x == c.x && order[i].y == c.y;
    assert(order[ci] == c);
    let room = Coords { x: (c.x + 2 * d.x) as i32, y: (c.y + 2 * d.y) as i32 };
    lemma_carve_tree(t, t2, w, h, s, order, parent, dir, ci, d, room);
    assert(is_tree(t2, w, h, s, order.push(room), parent.push(ci), dir.push(d)));
}

/// A wall cell inside the grid, free to be carved.
pub open spec fn is_free(t: Seq<Seq<CellType>>, w: int, h: int, x: int, y: int) -> bool {
    in_grid(w, h, x, y) && at(t, x, y) is Wall
}

/// From room `c` a corridor one step along `d` and a room two steps along `d` can be carved.
pub open spec fn can_carve(t: Seq<Seq<CellType>>, w: int, h: int, c: Coords, d: Coords) -> bool {
    &&& is_free(t, w, h, c.x + d.x, c.y + d.y)
    &&& is_free(t, w, h, c.x + 2 * d.x, c.y + 2 * d.y)
}

/// A way to grow the labyrinth from a room: the corridor cell, the new room, the direction.
#[derive(Clone, Copy, Debug, PartialEq, Eq, Structural)]
pub struct PossCoords {
    pub bridge: Coords,
    pub room: Coords,
    pub direction: Coords,
}

pub open spec fn poss_entry(c: Coords, d: Coords) -> PossCoords {
    PossCoords {
        bridge: Coords { x: (c.x + d.x) as i32, y: (c.y + d.y) as i32 },
        room: Coords { x: (c.x + 2 * d.x) as i32, y: (c.y + 2 * d.y) as i32 },
        direction: d,
    }
}

/// The ways to grow from `c` along the first `n` directions, in direction order.
pub open spec fn poss_upto(t: Seq<Seq<CellType>>, w: int, h: int, c: Coords, n: int) -> Seq<
    PossCoords,
>
    decreases n,
{
    if n <= 0 {
        seq![]
    } else {
        let prev = poss_upto(t, w, h, c, n - 1);
        let d = dirs()[n - 1];
        if can_carve(t, w, h, c, d) {
            prev.push(poss_entry(c, d))
        } else {
            prev
        }
    }
}

/// Each way to grow names a direction, and a free corridor and room along it.
pub proof fn lemma_poss_upto(t: Seq<Seq<CellType>>, w: int, h: int, c: Coords, n: int)
    requires
        0 <= n <= 4,
        w <= i32::MAX,
        h <= i32::MAX,
    ensures
        poss_upto(t, w, h, c, n).len() <= n,
        forall|k: int|
            0 <= k < poss_upto(t, w, h, c, n).len() ==> {
                let p = #[trigger] poss_upto(t, w, h, c, n)[k];
                &&& is_dir(p.direction)
                &&& can_carve(t, w, h, c, p.direction)
                &&& p.bridge.x == c.x + p.direction.x
                &&& p.bridge.y == c.y + p.direction.y
                &&& p.room.x == c.x + 2 * p.direction.x
                &&& p.room.y == c.y + 2 * p.direction.y
            },
    decreases n,
{
    if n > 0 {
        lemma_poss_upto(t, w, h, c, n - 1);
        let d = dirs()[n - 1];
        assert(is_dir(d));
    }
}

/// The doors of the room at `c`, for the first `n` directions in order: one on each side
/// whose neighbouring cell is a corridor.
pub open spec fn doors_upto(t: Seq<Seq<CellType>>, w: int, h: int, c: Coords, n: int) -> Seq<
    DoorData,
>
    decreases n,
{
    if n <= 0 {
        seq![]
    } else {
        let prev = doors_upto(t, w, h, c, n - 1);
        let d = dirs()[n - 1];
        if in_grid(w, h, c.x + d.x, c.y + d.y) && at(t, c.x + d.x, c.y + d.y) is Bridge {
            prev.push(DoorData { side: d })
        } else {
            prev
        }
    }
}

/// Rooms `a` and `b` are two steps apart along direction `d`, with a corridor of
/// that direction between them.
pub open spec fn joined_along(t: Seq<Seq<CellType>>, a: Coords, d: Coords, b: Coords) -> bool {
    &&& is_dir(d)
    &&& b.x == a.x + 2 * d.x
    &&& b.y == a.y + 2 * d.y
    &&& at(t, a.x + d.x, a.y + d.y) == (CellType::Bridge { direction: d })
}

pub open spec fn joined(t: Seq<Seq<CellType>>, a: Coords, b: Coords) -> bool {
    exists|d: Coords| #[trigger] joined_along(t, a, d, b)
}

/// `path` goes from room to room, each next room reached through a corridor.
pub open spec fn is_walk(t: Seq<Seq<CellType>>, w: int, h: int, path: Seq<Coords>) -> bool {
    &&& path.len() >= 1
    &&& forall|k: int|
        0 <= k < path.len() ==> in_grid(w, h, #[trigger] path[k].x as int, path[k].y as int)
            && is_room_like(at(t, path[k].x as int, path[k].y as int))
    &&& forall|k: int| 0 <= k < path.len() - 1 ==> #[trigger] joined(t, path[k], path[k + 1])
}

/// The rooms met on the way from `order[0]` down the tree to `order[i]`.
pub open spec fn path_to(order: Seq<Coords>, parent: Seq<int>, i: int) -> Seq<Coords>
    decreases i,
{
    if i <= 0 {
        seq![order[0]]
    } else if 0 <= parent[i] < i {
        path_to(order, parent, parent[i]).push(order[i])
    } else {
        seq![order[i]]
    }
}

proof fn lemma_path_to(
    t: Seq<Seq<CellType>>,
    w: int,
    h: int,
    s: Coords,
    order: Seq<Coords>,
    parent: Seq<int>,
    dir: Seq<Coords>,
    i: int,
)
    requires
        is_tree(t, w, h, s, order, parent, dir),
        0 <= i < order.len(),
    ensures
        is_walk(t, w, h, path_to(order, parent, i)),
        path_to(order, parent, i)[0] == s,
        path_to(order, parent, i).last() == order[i],
    decreases i,
{
    if i > 0 {
        assert(tree_edge(t, order, parent, dir, i));
        let p = parent[i];
        lemma_path_to(t, w, h, s, order, parent, dir, p);
        let prev = path_to(order, parent, p);
        let path = prev.push(order[i]);
        assert(path == path_to(order, parent, i));
        assert(joined_along(t, order[p], dir[i], order[i]));
        assert forall|k: int|
            0 <= k < path.len() implies in_grid(w, h, #[trigger] path[k].x as int, path[k].y as int)
            && is_room_like(at(t, path[k].x as int, path[k].y as int)) by {
            if k < prev.len() {
                assert(path[k] == prev[k]);
            } else {
                assert(path[k] == order[i]);
            }
        }
        assert forall|k: int| 0 <= k < path.len() - 1 implies #[trigger] joined(
            t,
            path[k],
            path[k + 1],
        ) by {
            if k < prev.len() - 1 {
                assert(path[k] == prev[k]);
                assert(path[k + 1] == prev[k + 1]);
                assert(joined(t, prev[k], prev[k + 1]));
            } else {
                assert(path[k] == order[p]);
                assert(path[k + 1] == order[i]);
            }
        }
    } else {
        assert(order[0] == s);
    }
}

/// Law: in a labyrinth every room can be reached from the start by going from room to
/// room through corridors.
pub proof fn lemma_every_room_reachable(t: Seq<Seq<CellType>>, w: int, h: int, s: Coords, x: int, y: int)
    requires
        is_labyrinth(t, w, h, s),
        in_grid(w, h, x, y),
        is_room_like(at(t, x, y)),
    ensures
        exists|path: Seq<Coords>|
            #![trigger is_walk(t, w, h, path)]
            is_walk(t, w, h, path) && path[0] == s && path.last().x == x && path.last().y == y,
{
    let (order, parent, dir) = choose|order: Seq<Coords>, parent: Seq<int>, dir: Seq<Coords>|
        is_tree(t, w, h, s, order, parent, dir);
    let i = choose|i: int| 0 <= i < order.len() && (#[trigger] order[i]).x == x && order[i].y == y;
    lemma_path_to(t, w, h, s, order, parent, dir, i);
    let path = path_to(order, parent, i);
    assert(is_walk(t, w, h, path));
}

/// The rooms of `t` (not the start).
pub open spec fn room_cells(t: Seq<Seq<CellType>>, w: int, h: int) -> Set<Coords> {
    Set::new(|c: Coords| in_grid(w, h, c.x as int, c.y as int) && at(t, c.x as int, c.y as int) is Room)
}

/// The corridors of `t`.
pub open spec fn bridge_cells(t: Seq<Seq<CellType>>, w: int, h: int) -> Set<Coords> {
    Set::new(|c: Coords| in_grid(w, h, c.x as int, c.y as int) && at(t, c.x as int, c.y as int) is Bridge)
}

/// The corridor that leads into room `c`.
pub open spec fn entering_bridge(t: Seq<Seq<CellType>>, w: int, h: int, c: Coords) -> Coords {
    let d = choose|d: Coords| #[trigger] enters(t, w, h, c.x as int, c.y as int, d);
    Coords { x: (c.x - d.x) as i32, y: (c.y - d.y) as i32 }
}

/// Law: in a labyrinth, taking each room to the corridor that leads into it pairs the rooms
/// one to one with the corridors; so there are exactly as many corridors as rooms.
#[verifier::rlimit(40)]
pub proof fn lemma_bridges_match_rooms(t: Seq<Seq<CellType>>, w: int, h: int, s: Coords)
    requires
        is_labyrinth(t, w, h, s),
        w <= i32::MAX,
        h <= i32::MAX,
        room_cells(t, w, h).finite(),
    ensures
        bridge_cells(t, w, h).finite(),
        bridge_cells(t, w, h).len() == room_cells(t, w, h).len(),
{
    let rooms = room_cells(t, w, h);
    let bridges = bridge_cells(t, w, h);
    let g = |c: Coords| entering_bridge(t, w, h, c);
    assert forall|c: Coords| #[trigger] rooms.contains(c) implies bridges.contains(g(c)) by {
        assert(at(t, c.x as int, c.y as int) is Room);
        let d = choose|d: Coords| #[trigger] enters(t, w, h, c.x as int, c.y as int, d);
        assert(enters(t, w, h, c.x as int, c.y as int, d));
    }
    assert forall|b: Coords| #[trigger] bridges.contains(b) implies rooms.map(g).contains(b) by {
        let d = at(t, b.x as int, b.y as int)->direction;
        assert(at(t, b.x as int, b.y as int) is Bridge);
        let r = Coords { x: (b.x + d.x) as i32, y: (b.y + d.y) as i32 };
        assert(enters(t, w, h, r.x as int, r.y as int, d));
        let d2 = choose|d2: Coords| #[trigger] enters(t, w, h, r.x as int, r.y as int, d2);
        assert(enters(t, w, h, r.x as int, r.y as int, d2));
        assert(d2 == d);
        assert(rooms.contains(r));
        assert(g(r) == b);
    }
    assert(rooms.map(g) =~= bridges);
    assert forall|c1: Coords, c2: Coords|
        rooms.contains(c1) && rooms.contains(c2) && #[trigger] g(c1) == #[trigger] g(c2) implies c1 == c2 by {
        let d1 = choose|d: Coords| #[trigger] enters(t, w, h, c1.x as int, c1.y as int, d);
        let d2 = choose|d: Coords| #[trigger] enters(t, w, h, c2.x as int, c2.y as int, d);
        assert(at(t, c1.x as int, c1.y as int) is Room);
        assert(at(t, c2.x as int, c2.y as int) is Room);
        assert(enters(t, w, h, c1.x as int, c1.y as int, d1));
        assert(enters(t, w, h, c2.x as int, c2.y as int, d2));
    }
    vstd::set_lib::lemma_map_size(rooms, bridges, g);
}

/// The side `d` of room `c` faces a corridor (of any direction) inside the grid.
pub open spec fn faces_corridor(t: Seq<Seq<CellType>>, w: int, h: int, c: Coords, d: Coords) -> bool {
    in_grid(w, h, c.x + d.x, c.y + d.y) && at(t, c.x + d.x, c.y + d.y) is Bridge
}

proof fn lemma_doors_prefix(t: Seq<Seq<CellType>>, w: int, h: int, c: Coords, n: int)
    requires
        0 <= n <= 4,
    ensures
        doors_upto(t, w, h, c, n).len() <= n,
        doors_upto(t, w, h, c, n).no_duplicates(),
        forall|k: int|
            0 <= k < doors_upto(t, w, h, c, n).len() ==> exists|i: int|
                0 <= i < n && #[trigger] dirs()[i] == (#[trigger] doors_upto(t, w, h, c, n)[k]).side,
        forall|i: int|
            0 <= i < n ==> (doors_upto(t, w, h, c, n).contains(DoorData { side: #[trigger] dirs()[i] })
                <==> faces_corridor(t, w, h, c, dirs()[i])),
    decreases n,
{
    if n > 0 {
        lemma_doors_prefix(t, w, h, c, n - 1);
        let prev = doors_upto(t, w, h, c, n - 1);
        let cur = doors_upto(t, w, h, c, n);
        let d = dirs()[n - 1];
        assert(forall|i: int, j: int| 0 <= i < 4 && 0 <= j < 4 && i != j ==> dirs()[i] != dirs()[j]);
        if faces_corridor(t, w, h, c, d) {
            assert(cur == prev.push(DoorData { side: d }));
            assert(!prev.contains(DoorData { side: d })) by {
                if prev.contains(DoorData { side: d }) {
                    let k = choose|k: int| 0 <= k < prev.len() && prev[k] == DoorData { side: d };
                    let i = choose|i: int| 0 <= i < n - 1 && #[trigger] dirs()[i] == (#[trigger] prev[k]).side;
                }
            }
            assert forall|k: int| 0 <= k < cur.len() implies exists|i: int|
                0 <= i < n && #[trigger] dirs()[i] == (#[trigger] cur[k]).side by {
                if k < prev.len() {
                    assert(cur[k] == prev[k]);
                    let i = choose|i: int| 0 <= i < n - 1 && #[trigger] dirs()[i] == (#[trigger] prev[k]).side;
                    assert(dirs()[i] == cur[k].side);
                } else {
                    assert(dirs()[n - 1] == cur[k].side);
                }
            }
            assert forall|i: int|
                0 <= i < n implies (cur.contains(DoorData { side: #[trigger] dirs()[i] }) <==> faces_corridor(
                    t, w, h, c, dirs()[i])) by {
                if i < n - 1 {
                    if cur.contains(DoorData { side: dirs()[i] }) {
                        let k = choose|k: int| 0 <= k < cur.len() && cur[k] == DoorData { side: dirs()[i] };
                        if k == prev.len() {
                        } else {
                            assert(prev[k] == cur[k]);
                        }
                    }
                    if prev.contains(DoorData { side: dirs()[i] }) {
                        let k = choose|k: int| 0 <= k < prev.len() && prev[k] == DoorData { side: dirs()[i] };
                        assert(cur[k] == prev[k]);
                    }
                } else {
                    assert(cur[prev.len() as int] == DoorData { side: d });
                }
            }
        } else {
            assert(cur == prev);
            assert forall|k: int| 0 <= k < cur.len() implies exists|i: int|
                0 <= i < n && #[trigger] dirs()[i] == (#[trigger] cur[k]).side by {
                let i = choose|i: int| 0 <= i < n - 1 && #[trigger] dirs()[i] == (#[trigger] prev[k]).side;
            }
            assert forall|i: int|
                0 <= i < n implies (cur.contains(DoorData { side: #[trigger] dirs()[i] }) <==> faces_corridor(
                    t, w, h, c, dirs()[i])) by {
                if i == n - 1 {
                    if cur.contains(DoorData { side: d }) {
                        let k = choose|k: int| 0 <= k < cur.len() && cur[k] == DoorData { side: d };
                        let j = choose|j: int| 0 <= j < n - 1 && #[trigger] dirs()[j] == (#[trigger] prev[k]).side;
                    }
                }
            }
        }
    }
}

/// Law: a room gets a door on side `d`, one of the four directions, exactly when the cell
/// next to it along `d` lies in the grid and is a corridor, whatever way that corridor runs;
/// no side gets two doors, and every door is on one of the four sides.
pub proof fn lemma_doors_face_corridors(t: Seq<Seq<CellType>>, w: int, h: int, c: Coords)
    ensures
        forall|d: Coords|
            #![trigger doors_upto(t, w, h, c, 4).contains(DoorData { side: d })]
            dirs().contains(d) ==> (doors_upto(t, w, h, c, 4).contains(DoorData { side: d })
                <==> faces_corridor(t, w, h, c, d)),
        forall|k: int|
            0 <= k < doors_upto(t, w, h, c, 4).len() ==> dirs().contains(
                #[trigger] doors_upto(t, w, h, c, 4)[k].side,
            ),
        doors_upto(t, w, h, c, 4).no_duplicates(),
        doors_upto(t, w, h, c, 4).len() <= 4,
{
    lemma_doors_prefix(t, w, h, c, 4);
    assert forall|d: Coords|
        #![trigger doors_upto(t, w, h, c, 4).contains(DoorData { side: d })]
        dirs().contains(d) implies (doors_upto(t, w, h, c, 4).contains(DoorData { side: d })
            <==> faces_corridor(t, w, h, c, d)) by {
        let i = choose|i: int| 0 <= i < 4 && dirs()[i] == d;
        assert(dirs()[i] == d);
    }
    assert forall|k: int|
        0 <= k < doors_upto(t, w, h, c, 4).len() implies dirs().contains(
            #[trigger] doors_upto(t, w, h, c, 4)[k].side,
        ) by {
        let i = choose|i: int| 0 <= i < 4 && #[trigger] dirs()[i] == (#[trigger] doors_upto(t, w, h, c, 4)[k]).side;
    }
}

/// A room entered along `e` has a door on the side facing back against `e`.
proof fn lemma_door_toward_entry(t: Seq<Seq<CellType>>, w: int, h: int, x: int, y: int, e: Coords)
    requires
        in_grid(w, h, x, y),
        w <= i32::MAX,
        h <= i32::MAX,
        enters(t, w, h, x, y, e),
    ensures
        ({
            let d = Coords { x: -e.x as i32, y: -e.y as i32 };
            &&& dirs().contains(d)
            &&& at(t, x + d.x, y + d.y) is Bridge
            &&& doors_upto(t, w, h, Coords { x: x as i32, y: y as i32 }, 4).contains(DoorData { side: d })
        }),
{
    let d = Coords { x: -e.x as i32, y: -e.y as i32 };
    let c = Coords { x: x as i32, y: y as i32 };
    lemma_doors_face_corridors(t, w, h, c);
    assert(dirs().contains(d)) by {
        if d == dirs()[0] {
            assert(dirs()[0] == d);
        } else if d == dirs()[1] {
            assert(dirs()[1] == d);
        } else if d == dirs()[2] {
            assert(dirs()[2] == d);
        } else {
            assert(dirs()[3] == d);
        }
    }
    assert(faces_corridor(t, w, h, c, d));
    assert(doors_upto(t, w, h, c, 4).contains(DoorData { side: d }));
}

/// Law: in a labyrinth every room has a door on the side of the corridor that leads into it.
pub proof fn lemma_room_door_back(t: Seq<Seq<CellType>>, w: int, h: int, s: Coords, x: int, y: int)
    requires
        is_labyrinth(t, w, h, s),
        w <= i32::MAX,
        h <= i32::MAX,
        in_grid(w, h, x, y),
        at(t, x, y) is Room,
    ensures
        exists|d: Coords|
            #![trigger at(t, x + d.x, y + d.y)]
            dirs().contains(d) && at(t, x + d.x, y + d.y) is Bridge && doors_upto(
                t,
                w,
                h,
                Coords { x: x as i32, y: y as i32 },
                4,
            ).contains(DoorData { side: d }),
{
    assert(rooms_entered_once(t, w, h));
    let e = choose|e: Coords| #[trigger] enters(t, w, h, x, y, e);
    assert(enters(t, w, h, x, y, e));
    lemma_door_toward_entry(t, w, h, x, y, e);
    let d = Coords { x: -e.x as i32, y: -e.y as i32 };
    assert(at(t, x + d.x, y + d.y) is Bridge);
}

} // verus!
