//! A floor of the dungeon: a square grid of cells carved into a labyrinth.
use vstd::prelude::*;
use crate::coords::Coords;
use crate::cell::CellType;
use crate::item::{ItemData, ItemKind};
use crate::door::DoorData;
use crate::labyrinth::{at, in_grid, is_labyrinth, all_walls, doors_upto, keeps_carved, with_kind, wall_grid, room_cells, bridge_cells};
use crate::carve::{generate_labyrinth, carved_by_draws, lemma_fresh_labyrinth_counts};
use crate::grid::{KindGrid, door_sides, grid_map_tiles};
use crate::random::random_range;
use crate::tiles::{TilePlacement, grid_tiles};

verus! {

/// One cell of a floor, with what a visit to it found there.
pub struct Cell<E> {
    pub c_type: CellType,
    pub is_visited: bool,
    pub items: Vec<ItemData>,
    pub enemies: Vec<E>,
    pub doors: Vec<DoorData>,
}

impl<E> Cell<E> {
    fn new(c_type: CellType, is_visited: bool) -> (r: Cell<E>)
        ensures
            r.c_type == c_type,
            r.is_visited == is_visited,
            r.items@.len() == 0,
            r.enemies@.len() == 0,
            r.doors@.len() == 0,
    {
        Cell { c_type, is_visited, items: Vec::new(), enemies: Vec::new(), doors: Vec::new() }
    }
}

pub struct Floor<E> {
    pub width: usize,
    pub height: usize,
    s_coords: Coords,
    grid: Vec<Vec<Cell<E>>>,
}

impl<E> Floor<E> {
    /// Number of columns.
    pub closed spec fn w(&self) -> int {
        self.width as int
    }

    /// Number of rows.
    pub closed spec fn h(&self) -> int {
        self.height as int
    }

    /// Where the start room is.
    pub closed spec fn start(&self) -> Coords {
        self.s_coords
    }

    /// The cell at column `x`, row `y`.
    pub closed spec fn cell(&self, x: int, y: int) -> Cell<E> {
        self.grid@[y]@[x]
    }

    /// The kind of each cell, row by row.
    pub open spec fn types(&self) -> Seq<Seq<CellType>> {
        Seq::new(
            self.h() as nat,
            |y: int| Seq::new(self.w() as nat, |x: int| self.cell(x, y).c_type),
        )
    }

    /// The grid is square, `height` rows of `width` cells, and the start lies in it.
    pub closed spec fn shape_ok(&self) -> bool {
        &&& self.width == self.height
        &&& 2 <= self.width <= i32::MAX
        &&& self.grid@.len() == self.height
        &&& forall|y: int| 0 <= y < self.height ==> #[trigger] self.grid@[y]@.len() == self.width
        &&& in_grid(self.width as int, self.height as int, self.s_coords.x as int, self.s_coords.y as int)
    }

    /// The floor is well formed: its cells form a labyrinth around its start.
    pub open spec fn wf(&self) -> bool {
        &&& self.shape_ok()
        &&& is_labyrinth(self.types(), self.w(), self.h(), self.start())
    }

    /// A well-formed floor is square, at least two cells wide, and its coordinates fit in `i32`.
    pub proof fn lemma_wf_bounds(&self)
        requires
            self.wf(),
        ensures
            self.w() == self.h(),
            2 <= self.w() <= i32::MAX,
            self.in_floor(self.start()),
    {
    }

    pub open spec fn in_floor(&self, c: Coords) -> bool {
        in_grid(self.w(), self.h(), c.x as int, c.y as int)
    }

    pub open spec fn type_at(&self, c: Coords) -> CellType {
        self.cell(c.x as int, c.y as int).c_type
    }

    fn coords_is_ok(&self, coords: Coords) -> (r: bool)
        requires
            self.shape_ok(),
        ensures
            r == self.in_floor(coords),
    {
        coords.x >= 0 && coords.y >= 0 && coords.x < self.width as i32 && coords.y
            < self.height as i32
    }

    fn set_cell(&mut self, coords: Coords, c_type: CellType)
        requires
            old(self).shape_ok(),
        ensures
            final(self).shape_ok(),
            final(self).w() == old(self).w(),
            final(self).h() == old(self).h(),
            final(self).start() == old(self).start(),
            forall|x: int, y: int|
                #![trigger final(self).cell(x, y)]
                in_grid(old(self).w(), old(self).h(), x, y) ==> final(self).cell(x, y) == if x == coords.x && y == coords.y {
                    Cell { c_type, ..old(self).cell(x, y) }
                } else {
                    old(self).cell(x, y)
                },
    {
        if self.coords_is_ok(coords) {
            let y = coords.y as usize;
            let x = coords.x as usize;
            self.grid[y][x].c_type = c_type;
        }
    }
}

impl<E> Floor<E> {
    fn get_cell_type(&self, coords: Coords) -> (r: Option<CellType>)
        requires
            self.shape_ok(),
        ensures
            r == if self.in_floor(coords) {
                Some(self.type_at(coords))
            } else {
                None::<CellType>
            },
    {
        if self.coords_is_ok(coords) {
            Some(self.grid[coords.y as usize][coords.x as usize].c_type)
        } else {
            None
        }
    }

}

impl<E> KindGrid for Floor<E> {
    open spec fn kinds(&self) -> Seq<Seq<CellType>> {
        self.types()
    }

    open spec fn grid_w(&self) -> int {
        self.w()
    }

    open spec fn grid_h(&self) -> int {
        self.h()
    }

    open spec fn grid_ok(&self) -> bool {
        self.shape_ok()
    }

    /// Same size and start, and every cell holds what it held besides its kind.
    open spec fn keeps_payload(&self, before: &Self) -> bool {
        &&& self.w() == before.w()
        &&& self.h() == before.h()
        &&& self.start() == before.start()
        &&& forall|x: int, y: int|
            #![trigger self.cell(x, y)]
            in_grid(before.w(), before.h(), x, y) ==> self.cell(x, y) == Cell {
                c_type: self.cell(x, y).c_type,
                ..before.cell(x, y)
            }
    }

    proof fn lemma_grid_ok(&self) {
    }

    proof fn lemma_keeps_payload_refl(&self) {
    }

    proof fn lemma_keeps_payload_trans(&self, mid: &Self, before: &Self) {
        assert forall|x: int, y: int|
            #![trigger self.cell(x, y)]
            in_grid(before.w(), before.h(), x, y) implies self.cell(x, y) == Cell {
                c_type: self.cell(x, y).c_type,
                ..before.cell(x, y)
            } by {
            assert(mid.cell(x, y) == Cell { c_type: mid.cell(x, y).c_type, ..before.cell(x, y) });
        }
    }

    fn grid_width(&self) -> (r: usize) {
        self.width
    }

    fn grid_height(&self) -> (r: usize) {
        self.height
    }

    fn kind_at(&self, c: Coords) -> (r: Option<CellType>) {
        self.get_cell_type(c)
    }

    fn set_kind(&mut self, c: Coords, k: CellType) {
        let ghost f0 = *self;
        self.set_cell(c, k);
        proof {
            let t = with_kind(f0.types(), c.x as int, c.y as int, k);
            assert forall|y: int| 0 <= y < self.h() implies #[trigger] self.types()[y] =~= t[y] by {
                assert forall|x: int| 0 <= x < self.w() implies self.types()[y][x] == t[y][x] by {
                    assert(self.cell(x, y).c_type == at(t, x, y));
                }
            }
            assert(self.types() =~= t);
        }
    }
}

impl<E> Floor<E> {
    /// Every cell keeps what it holds besides its kind, and every cell that was carved
    /// keeps its kind.
    pub open spec fn only_carved_from(&self, before: &Floor<E>) -> bool {
        &&& self.keeps_payload(before)
        &&& keeps_carved(before.types(), self.types(), before.w(), before.h())
    }

    /// Carves the labyrinth from the start; see `carve::generate_labyrinth`.
    fn generate_labyrinth(&mut self)
        requires
            old(self).shape_ok(),
            all_walls(old(self).types(), old(self).w(), old(self).h()) || is_labyrinth(
                old(self).types(),
                old(self).w(),
                old(self).h(),
                old(self).start(),
            ),
        ensures
            final(self).shape_ok(),
            final(self).w() == old(self).w(),
            final(self).h() == old(self).h(),
            final(self).start() == old(self).start(),
            is_labyrinth(final(self).types(), final(self).w(), final(self).h(), final(self).start()),
            carved_by_draws(old(self).types(), final(self).types(), old(self).w(), old(self).h(), old(self).start()),
            final(self).only_carved_from(old(self)),
    {
        let s = self.s_coords;
        generate_labyrinth(self, s);
    }
}

impl<E> Floor<E> {
    /// A cell of the floor that no visit has touched.
    pub open spec fn cell_is_fresh(&self, x: int, y: int) -> bool {
        &&& !self.cell(x, y).is_visited
        &&& self.cell(x, y).items@.len() == 0
        &&& self.cell(x, y).enemies@.len() == 0
        &&& self.cell(x, y).doors@.len() == 0
    }

    /// A new floor of `size.0` columns and `size.1` rows, with its start placed at random
    /// and a labyrinth carved around it. The grid is allocated as `size.0` rows of `size.1`
    /// cells and read row by row, so only square floors can be carved. What the carving
    /// yields is spelled out by `carve::lemma_fresh_carving_laws`.
    pub fn new(size: (usize, usize)) -> (r: Floor<E>)
        requires
            size.0 == size.1,
            2 <= size.0 <= i32::MAX,
        ensures
            r.wf(),
            carved_by_draws(wall_grid(size.0 as int, size.1 as int), r.types(), r.w(), r.h(), r.start()),
            room_cells(r.types(), r.w(), r.h()).len() <= 120,
            bridge_cells(r.types(), r.w(), r.h()).len() == room_cells(r.types(), r.w(), r.h()).len(),
            r.w() == size.0,
            r.h() == size.1,
            0 <= r.start().x < size.0 - 1,
            0 <= r.start().y < size.1 - 1,
            forall|x: int, y: int|
                #![trigger r.cell(x, y)]
                in_grid(r.w(), r.h(), x, y) ==> r.cell_is_fresh(x, y),
    {
        let sx = random_range(0, size.0 - 1);
        let sy = random_range(0, size.1 - 1);
        let s_coords = Coords { x: sx as i32, y: sy as i32 };
        let mut grid: Vec<Vec<Cell<E>>> = Vec::new();
        let mut i: usize = 0;
        while i < size.0
            invariant
                0 <= i <= size.0,
                grid@.len() == i,
                forall|y: int|
                    0 <= y < i ==> (#[trigger] grid@[y])@.len() == size.1 && forall|x: int|
                        0 <= x < size.1 ==> {
                            let c = #[trigger] grid@[y]@[x];
                            &&& c.c_type is Wall
                            &&& !c.is_visited
                            &&& c.items@.len() == 0
                            &&& c.enemies@.len() == 0
                            &&& c.doors@.len() == 0
                        },
            decreases size.0 - i,
        {
            let mut row: Vec<Cell<E>> = Vec::new();
            let mut j: usize = 0;
            while j < size.1
                invariant
                    0 <= j <= size.1,
                    row@.len() == j,
                    forall|x: int|
                        0 <= x < j ==> {
                            let c = #[trigger] row@[x];
                            &&& c.c_type is Wall
                            &&& !c.is_visited
                            &&& c.items@.len() == 0
                            &&& c.enemies@.len() == 0
                            &&& c.doors@.len() == 0
                        },
                decreases size.1 - j,
            {
                row.push(Cell::new(CellType::default(), false));
                j += 1;
            }
            grid.push(row);
            i += 1;
        }
        let mut floor = Floor { width: size.0, height: size.1, s_coords, grid };
        assert(floor.shape_ok());
        assert(all_walls(floor.types(), floor.w(), floor.h()));
        let ghost f0 = floor;
        assert forall|y: int| 0 <= y < f0.h() implies #[trigger] f0.types()[y] =~= wall_grid(size.0 as int, size.1 as int)[y] by {
            assert forall|x: int| 0 <= x < f0.w() implies f0.types()[y][x] == wall_grid(size.0 as int, size.1 as int)[y][x] by {
                assert(at(f0.types(), x, y) is Wall);
            }
        }
        assert(f0.types() =~= wall_grid(size.0 as int, size.1 as int));
        floor.generate_labyrinth();
        assert forall|x: int, y: int|
            #![trigger floor.cell(x, y)]
            in_grid(floor.w(), floor.h(), x, y) implies floor.cell_is_fresh(x, y) by {
            assert(floor.cell(x, y) == Cell { c_type: floor.cell(x, y).c_type, ..f0.cell(x, y) });
        }
        proof {
            lemma_fresh_labyrinth_counts(floor.w(), floor.h(), floor.start(), floor.types());
        }
        floor
    }

    /// Only corridors can be walked on; anything outside the floor cannot.
    pub fn is_walkable(&self, coords: Coords) -> (r: bool)
        requires
            self.wf(),
        ensures
            r == (self.in_floor(coords) && self.type_at(coords) is Bridge),
    {
        if !self.coords_is_ok(coords) {
            return false;
        }
        match self.get_cell_type(coords) {
            Some(CellType::Bridge { .. }) => true,
            _ => false,
        }
    }

    /// Number of columns.
    pub fn width(&self) -> (r: usize)
        ensures
            r == self.w(),
    {
        self.width
    }

    /// Number of rows.
    pub fn height(&self) -> (r: usize)
        ensures
            r == self.h(),
    {
        self.height
    }

    pub fn get_start_coords(&self) -> (r: Coords)
        ensures
            r == self.start(),
    {
        self.s_coords
    }

    /// The cell at `coords`, if it lies on the floor.
    pub fn get_cell(&self, coords: Coords) -> (r: Option<&Cell<E>>)
        requires
            self.wf(),
        ensures
            match r {
                Some(c) => self.in_floor(coords) && *c == self.cell(coords.x as int, coords.y as int),
                None => !self.in_floor(coords),
            },
    {
        if self.coords_is_ok(coords) {
            Some(&self.grid[coords.y as usize][coords.x as usize])
        } else {
            None
        }
    }
}

impl<E> Floor<E> {
    /// A handle on the cell at `coords`, if it lies on the floor; what is written through
    /// it lands in that cell and nowhere else.
    pub fn get_mut_cell(&mut self, coords: Coords) -> (r: Option<&mut Cell<E>>)
        requires
            old(self).shape_ok(),
        ensures
            match r {
                Some(c) => {
                    &&& old(self).in_floor(coords)
                    &&& *c == old(self).cell(coords.x as int, coords.y as int)
                    &&& final(self).shape_ok()
                    &&& final(self).w() == old(self).w()
                    &&& final(self).h() == old(self).h()
                    &&& final(self).start() == old(self).start()
                    &&& forall|x: int, y: int|
                        #![trigger final(self).cell(x, y)]
                        in_grid(old(self).w(), old(self).h(), x, y) ==> final(self).cell(x, y) == if x
                            == coords.x && y == coords.y {
                            *final(c)
                        } else {
                            old(self).cell(x, y)
                        }
                },
                None => !old(self).in_floor(coords) && *final(self) == *old(self),
            },
    {
        if self.coords_is_ok(coords) {
            Some(&mut self.grid[coords.y as usize][coords.x as usize])
        } else {
            None
        }
    }
}

/// The item every room holds after its first visit.
pub open spec fn first_visit_item() -> ItemData {
    ItemData { slot_cost: 1, kind: ItemKind::Potion }
}

/// The two floors agree in size, start and every cell.
pub open spec fn same_cells<E>(a: Floor<E>, b: Floor<E>) -> bool {
    &&& a.w() == b.w()
    &&& a.h() == b.h()
    &&& a.start() == b.start()
    &&& forall|x: int, y: int|
        #![trigger b.cell(x, y)]
        in_grid(a.w(), a.h(), x, y) ==> b.cell(x, y) == a.cell(x, y)
}

/// `after` is `before` with the room at `coords` entered, `enemy` being what a first
/// visit spawns: a room outside the floor, or one already visited, is left as it was;
/// otherwise the room becomes visited, gets its doors, the enemy and a potion.
pub open spec fn entered<E>(before: Floor<E>, after: Floor<E>, coords: Coords, enemy: E) -> bool {
    let cx = coords.x as int;
    let cy = coords.y as int;
    if !before.in_floor(coords) || before.cell(cx, cy).is_visited {
        same_cells(before, after)
    } else {
        let c0 = before.cell(cx, cy);
        let c1 = after.cell(cx, cy);
        &&& after.w() == before.w()
        &&& after.h() == before.h()
        &&& after.start() == before.start()
        &&& forall|x: int, y: int|
            #![trigger after.cell(x, y)]
            in_grid(before.w(), before.h(), x, y) && !(x == cx && y == cy) ==> after.cell(x, y)
                == before.cell(x, y)
        &&& c1.c_type == c0.c_type
        &&& c1.is_visited
        &&& c1.doors@ == doors_upto(before.types(), before.w(), before.h(), coords, 4)
        &&& c1.enemies@ == c0.enemies@.push(enemy)
        &&& c1.items@ == c0.items@.push(first_visit_item())
    }
}

/// `after` is `before` with the enemies of the room at `coords` replaced by `enemies`.
pub open spec fn exited<E>(before: Floor<E>, after: Floor<E>, coords: Coords, enemies: Seq<E>) -> bool {
    let cx = coords.x as int;
    let cy = coords.y as int;
    let c0 = before.cell(cx, cy);
    let c1 = after.cell(cx, cy);
    &&& after.w() == before.w()
    &&& after.h() == before.h()
    &&& after.start() == before.start()
    &&& forall|x: int, y: int|
        #![trigger after.cell(x, y)]
        in_grid(before.w(), before.h(), x, y) && !(x == cx && y == cy) ==> after.cell(x, y)
            == before.cell(x, y)
    &&& c1.c_type == c0.c_type
    &&& c1.is_visited == c0.is_visited
    &&& c1.doors == c0.doors
    &&& c1.items == c0.items
    &&& c1.enemies@ == enemies
}

impl<E> Floor<E> {
    proof fn lemma_same_types(&self, other: &Floor<E>)
        requires
            self.w() == other.w(),
            self.h() == other.h(),
            forall|x: int, y: int|
                #![trigger self.cell(x, y)]
                in_grid(self.w(), self.h(), x, y) ==> self.cell(x, y).c_type == other.cell(
                    x,
                    y,
                ).c_type,
        ensures
            self.types() == other.types(),
    {
        assert forall|y: int| 0 <= y < self.h() implies #[trigger] self.types()[y] =~= other.types()[y] by {
            assert forall|x: int| 0 <= x < self.w() implies self.types()[y][x] == other.types()[y][x] by {
                assert(self.cell(x, y).c_type == other.cell(x, y).c_type);
            }
        }
        assert(self.types() =~= other.types());
    }

    /// The doors the room at `coords` has: one on each side facing a corridor, in the order
    /// up, right, down, left.
    fn room_doors(&self, coords: Coords) -> (r: Vec<DoorData>)
        requires
            self.shape_ok(),
            i32::MIN < coords.x < i32::MAX,
            i32::MIN < coords.y < i32::MAX,
        ensures
            r@ == doors_upto(self.types(), self.w(), self.h(), coords, 4),
    {
        door_sides(self, coords)
    }

    /// Readies the room at `coords` for the player: on the first visit it is marked
    /// visited and given its doors, `enemy` and a potion; later visits change nothing.
    pub fn prepare_enter_room(&mut self, coords: Coords, enemy: E)
        requires
            old(self).wf(),
            i32::MIN < coords.x < i32::MAX,
            i32::MIN < coords.y < i32::MAX,
        ensures
            final(self).wf(),
            entered(*old(self), *final(self), coords, enemy),
    {
        let doors = self.room_doors(coords);
        let ghost f0 = *self;
        let cell = match self.get_mut_cell(coords) {
            Some(cell) => cell,
            None => {
                return;
            },
        };
        if !cell.is_visited {
            cell.is_visited = true;
            cell.doors = doors;
            cell.enemies.push(enemy);
            let item = ItemData { slot_cost: 1, kind: ItemKind::Potion };
            cell.items.push(item);
        }
        proof {
            self.lemma_same_types(&f0);
        }
    }

    /// Stores in the room at `coords` the enemies the player leaves behind in it.
    pub fn prepare_exit_room(&mut self, coords: Coords, enemies: Vec<E>)
        requires
            old(self).wf(),
            old(self).in_floor(coords),
        ensures
            final(self).wf(),
            exited(*old(self), *final(self), coords, enemies@),
    {
        let ghost f0 = *self;
        let mut enemies = enemies;
        let cell_data = match self.get_mut_cell(coords) {
            Some(cell) => cell,
            None => {
                return;
            },
        };
        cell_data.enemies.clear();
        cell_data.enemies.append(&mut enemies);
        proof {
            self.lemma_same_types(&f0);
        }
    }
}

impl<E> Floor<E> {
    /// The tiles that draw this floor on a grid map, row by row and left to right within
    /// a row.
    pub fn build_grid_map(&self) -> (r: Vec<TilePlacement>)
        requires
            self.wf(),
        ensures
            r@ == grid_tiles(self.types(), self.w(), self.h()),
    {
        grid_map_tiles(self)
    }
}

/// Law: a room is stocked on its first visit only; entering it again changes nothing.
pub proof fn lemma_enter_twice<E>(f1: Floor<E>, f2: Floor<E>, f3: Floor<E>, coords: Coords, e1: E, e2: E)
    requires
        entered(f1, f2, coords, e1),
        entered(f2, f3, coords, e2),
    ensures
        same_cells(f2, f3),
{
    let cx = coords.x as int;
    let cy = coords.y as int;
    if !f1.in_floor(coords) || f1.cell(cx, cy).is_visited {
        if f1.in_floor(coords) {
            assert(f2.cell(cx, cy) == f1.cell(cx, cy));
        }
    }
}

/// Law: the enemies left in a room when the player walks out are the ones found there on
/// the next visit; no new enemy is spawned and nothing else in the room changes.
pub proof fn lemma_enemies_stay<E>(
    f1: Floor<E>,
    f2: Floor<E>,
    f3: Floor<E>,
    f4: Floor<E>,
    coords: Coords,
    e1: E,
    left: Seq<E>,
    e2: E,
)
    requires
        f1.in_floor(coords),
        entered(f1, f2, coords, e1),
        exited(f2, f3, coords, left),
        entered(f3, f4, coords, e2),
    ensures
        f4.cell(coords.x as int, coords.y as int).enemies@ == left,
        f4.cell(coords.x as int, coords.y as int).is_visited,
        f4.cell(coords.x as int, coords.y as int).items == f3.cell(coords.x as int, coords.y as int).items,
        same_cells(f3, f4),
{
    let cx = coords.x as int;
    let cy = coords.y as int;
    if f1.cell(cx, cy).is_visited {
        assert(f2.cell(cx, cy) == f1.cell(cx, cy));
    }
    assert(f3.cell(cx, cy).is_visited);
    assert(f3.in_floor(coords));
    assert(f4.cell(cx, cy) == f3.cell(cx, cy));
}

/// `b` is `a` with the player entering, or leaving, the room at `coords`.
pub open spec fn visit_or_leave<E>(a: Floor<E>, b: Floor<E>, coords: Coords) -> bool {
    ||| exists|e: E| #[trigger] entered(a, b, coords, e)
    ||| exists|es: Seq<E>| #[trigger] exited(a, b, coords, es)
}

/// Law: once a room has been visited, entering and leaving it any number of times keeps it
/// visited and keeps its doors and items: a room is never stocked twice.
pub proof fn lemma_visited_room_keeps_stock<E>(fs: Seq<Floor<E>>, coords: Coords)
    requires
        fs.len() >= 1,
        fs[0].in_floor(coords),
        fs[0].cell(coords.x as int, coords.y as int).is_visited,
        forall|i: int| 0 <= i < fs.len() - 1 ==> #[trigger] visit_or_leave(fs[i], fs[i + 1], coords),
    ensures
        forall|i: int|
            0 <= i < fs.len() ==> {
                let c = (#[trigger] fs[i]).cell(coords.x as int, coords.y as int);
                &&& fs[i].in_floor(coords)
                &&& c.is_visited
                &&& c.doors == fs[0].cell(coords.x as int, coords.y as int).doors
                &&& c.items == fs[0].cell(coords.x as int, coords.y as int).items
            },
    decreases fs.len(),
{
    if fs.len() > 1 {
        let front = fs.drop_last();
        assert forall|i: int| 0 <= i < front.len() - 1 implies #[trigger] visit_or_leave(front[i], front[i + 1], coords) by {
            assert(front[i] == fs[i] && front[i + 1] == fs[i + 1]);
            assert(visit_or_leave(fs[i], fs[i + 1], coords));
        }
        lemma_visited_room_keeps_stock(front, coords);
        let n = fs.len() - 1;
        let j = n - 1;
        assert(visit_or_leave(fs[j], fs[j + 1], coords));
        let a = fs[j];
        let b = fs[j + 1];
        assert(b == fs[n]);
        assert(front[j] == a);
        let cx = coords.x as int;
        let cy = coords.y as int;
        if exists|e: E| #[trigger] entered(a, b, coords, e) {
            let e = choose|e: E| #[trigger] entered(a, b, coords, e);
            assert(b.cell(cx, cy) == a.cell(cx, cy));
        } else {
            let es = choose|es: Seq<E>| #[trigger] exited(a, b, coords, es);
            assert(exited(a, b, coords, es));
        }
        assert forall|i: int|
            0 <= i < fs.len() implies {
                let c = (#[trigger] fs[i]).cell(cx, cy);
                &&& fs[i].in_floor(coords)
                &&& c.is_visited
                &&& c.doors == fs[0].cell(cx, cy).doors
                &&& c.items == fs[0].cell(cx, cy).items
            } by {
            if i < n {
                assert(fs[i] == front[i]);
            }
        }
    }
}

/// Law: the first visit of any cell of the floor, whatever its kind, marks it visited, adds
/// the given enemy after those already there, and adds one potion of slot cost 1 after the
/// items already there; the cell keeps its kind.
pub proof fn lemma_first_visit_stocks<E>(before: Floor<E>, after: Floor<E>, coords: Coords, enemy: E)
    requires
        entered(before, after, coords, enemy),
        before.in_floor(coords),
        !before.cell(coords.x as int, coords.y as int).is_visited,
    ensures
        after.cell(coords.x as int, coords.y as int).is_visited,
        after.cell(coords.x as int, coords.y as int).c_type == before.cell(coords.x as int, coords.y as int).c_type,
        after.cell(coords.x as int, coords.y as int).items@.len() == before.cell(coords.x as int, coords.y as int).items@.len() + 1,
        after.cell(coords.x as int, coords.y as int).items@.last() == (ItemData { slot_cost: 1, kind: ItemKind::Potion }),
        after.cell(coords.x as int, coords.y as int).items@.drop_last() == before.cell(coords.x as int, coords.y as int).items@,
        after.cell(coords.x as int, coords.y as int).enemies@.len() == before.cell(coords.x as int, coords.y as int).enemies@.len() + 1,
        after.cell(coords.x as int, coords.y as int).enemies@.last() == enemy,
        after.cell(coords.x as int, coords.y as int).enemies@.drop_last() == before.cell(coords.x as int, coords.y as int).enemies@,
{
    let c0 = before.cell(coords.x as int, coords.y as int);
    let c1 = after.cell(coords.x as int, coords.y as int);
    assert(c1.items@.drop_last() =~= c0.items@);
    assert(c1.enemies@.drop_last() =~= c0.enemies@);
}

} // verus!
