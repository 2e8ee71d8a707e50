//! A single map layer: a grid of `height` rows of `width` cells carved into a labyrinth,
//! with an optional payload per cell.
use vstd::prelude::*;
use crate::coords::Coords;
use crate::cell::CellType;
use crate::door::DoorData;
use crate::labyrinth::{at, in_grid, is_labyrinth, all_walls, doors_upto, keeps_carved, with_kind, wall_grid, room_cells, bridge_cells};
use crate::carve::{generate_labyrinth, carved_by_draws, lemma_fresh_labyrinth_counts};
use crate::grid::{KindGrid, door_sides, grid_map_tiles};
use crate::random::random_range;
use crate::tiles::{TilePlacement, grid_tiles, row_text, push_symbol};

verus! {

/// One cell of a map layer: its kind and what was attached to it.
pub struct LayerCell<D> {
    pub c_type: CellType,
    pub data: Option<D>,
}

pub struct MapLayer<D> {
    pub width: usize,
    pub height: usize,
    s_coords: Coords,
    grid: Vec<Vec<LayerCell<D>>>,
}

impl<D> MapLayer<D> {
    /// Number of columns.
    pub closed spec fn w(&self) -> int {
        self.width as int
    }

    /// Number of rows.
    pub closed spec fn h(&self) -> int {
        self.height as int
    }

    /// Where the start room is.
    pub closed spec fn start(&self) -> Coords {
        self.s_coords
    }

    /// The cell at column `x`, row `y`.
    pub closed spec fn cell(&self, x: int, y: int) -> LayerCell<D> {
        self.grid@[y]@[x]
    }

    /// The kind of each cell, row by row.
    pub open spec fn types(&self) -> Seq<Seq<CellType>> {
        Seq::new(
            self.h() as nat,
            |y: int| Seq::new(self.w() as nat, |x: int| self.cell(x, y).c_type),
        )
    }

    /// The grid has `height` rows of `width` cells, and the start lies in it.
    pub closed spec fn shape_ok(&self) -> bool {
        &&& 1 <= self.width <= i32::MAX
        &&& 1 <= self.height <= i32::MAX
        &&& self.grid@.len() == self.height
        &&& forall|y: int| 0 <= y < self.height ==> #[trigger] self.grid@[y]@.len() == self.width
        &&& in_grid(self.width as int, self.height as int, self.s_coords.x as int, self.s_coords.y as int)
    }

    /// The layer is well formed: its cells form a labyrinth around its start.
    pub open spec fn wf(&self) -> bool {
        &&& self.shape_ok()
        &&& is_labyrinth(self.types(), self.w(), self.h(), self.start())
    }

    pub open spec fn in_layer(&self, c: Coords) -> bool {
        in_grid(self.w(), self.h(), c.x as int, c.y as int)
    }

    pub open spec fn type_at(&self, c: Coords) -> CellType {
        self.cell(c.x as int, c.y as int).c_type
    }

    fn coords_is_ok(&self, coords: Coords) -> (r: bool)
        requires
            self.shape_ok(),
        ensures
            r == self.in_layer(coords),
    {
        coords.x >= 0 && coords.y >= 0 && coords.x < self.width as i32 && coords.y
            < self.height as i32
    }

    fn set_cell(&mut self, coords: Coords, c_type: CellType)
        requires
            old(self).shape_ok(),
        ensures
            final(self).shape_ok(),
            final(self).w() == old(self).w(),
            final(self).h() == old(self).h(),
            final(self).start() == old(self).start(),
            forall|x: int, y: int|
                #![trigger final(self).cell(x, y)]
                in_grid(old(self).w(), old(self).h(), x, y) ==> final(self).cell(x, y) == if x == coords.x && y == coords.y {
                    LayerCell { c_type, ..old(self).cell(x, y) }
                } else {
                    old(self).cell(x, y)
                },
    {
        if self.coords_is_ok(coords) {
            let y = coords.y as usize;
            let x = coords.x as usize;
            self.grid[y][x].c_type = c_type;
        }
    }
}

impl<D> MapLayer<D> {
    fn get_cell_type(&self, coords: Coords) -> (r: Option<CellType>)
        requires
            self.shape_ok(),
        ensures
            r == if self.in_layer(coords) {
                Some(self.type_at(coords))
            } else {
                None::<CellType>
            },
    {
        if self.coords_is_ok(coords) {
            Some(self.grid[coords.y as usize][coords.x as usize].c_type)
        } else {
            None
        }
    }

}

impl<D> KindGrid for MapLayer<D> {
    open spec fn kinds(&self) -> Seq<Seq<CellType>> {
        self.types()
    }

    open spec fn grid_w(&self) -> int {
        self.w()
    }

    open spec fn grid_h(&self) -> int {
        self.h()
    }

    open spec fn grid_ok(&self) -> bool {
        self.shape_ok()
    }

    /// Same size and start, and every cell holds what it held besides its kind.
    open spec fn keeps_payload(&self, before: &Self) -> bool {
        &&& self.w() == before.w()
        &&& self.h() == before.h()
        &&& self.start() == before.start()
        &&& forall|x: int, y: int|
            #![trigger self.cell(x, y)]
            in_grid(before.w(), before.h(), x, y) ==> self.cell(x, y).data == before.cell(x, y).data
    }

    proof fn lemma_grid_ok(&self) {
    }

    proof fn lemma_keeps_payload_refl(&self) {
    }

    proof fn lemma_keeps_payload_trans(&self, mid: &Self, before: &Self) {
        assert forall|x: int, y: int|
            #![trigger self.cell(x, y)]
            in_grid(before.w(), before.h(), x, y) implies self.cell(x, y).data == before.cell(x, y).data by {
            assert(mid.cell(x, y).data == before.cell(x, y).data);
        }
    }

    fn grid_width(&self) -> (r: usize) {
        self.width
    }

    fn grid_height(&self) -> (r: usize) {
        self.height
    }

    fn kind_at(&self, c: Coords) -> (r: Option<CellType>) {
        self.get_cell_type(c)
    }

    fn set_kind(&mut self, c: Coords, k: CellType) {
        let ghost l0 = *self;
        self.set_cell(c, k);
        proof {
            let t = with_kind(l0.types(), c.x as int, c.y as int, k);
            assert forall|y: int| 0 <= y < self.h() implies #[trigger] self.types()[y] =~= t[y] by {
                assert forall|x: int| 0 <= x < self.w() implies self.types()[y][x] == t[y][x] by {
                    assert(self.cell(x, y).c_type == at(t, x, y));
                }
            }
            assert(self.types() =~= t);
        }
    }
}

impl<D> MapLayer<D> {
    /// Every cell keeps what is attached to it, and every cell that was carved keeps its kind.
    pub open spec fn only_carved_from(&self, before: &MapLayer<D>) -> bool {
        &&& self.keeps_payload(before)
        &&& keeps_carved(before.types(), self.types(), before.w(), before.h())
    }
}

impl<D> MapLayer<D> {
    /// Only corridors can be walked on; anything outside the layer cannot.
    pub fn is_walkable(&self, coords: Coords) -> (r: bool)
        requires
            self.wf(),
        ensures
            r == (self.in_layer(coords) && self.type_at(coords) is Bridge),
    {
        if !self.coords_is_ok(coords) {
            return false;
        }
        match self.get_cell_type(coords) {
            Some(CellType::Bridge { .. }) => true,
            _ => false,
        }
    }

    /// Number of columns.
    pub fn width(&self) -> (r: usize)
        ensures
            r == self.w(),
    {
        self.width
    }

    /// Number of rows.
    pub fn height(&self) -> (r: usize)
        ensures
            r == self.h(),
    {
        self.height
    }

    pub fn get_start_coords(&self) -> (r: Coords)
        ensures
            r == self.start(),
    {
        self.s_coords
    }
}

impl<D> MapLayer<D> {
    /// Where the room at `coords` gets doors: one on each side facing a corridor, in the
    /// order up, right, down, left.
    pub fn door_sides(&self, coords: Coords) -> (r: Vec<DoorData>)
        requires
            self.wf(),
            i32::MIN < coords.x < i32::MAX,
            i32::MIN < coords.y < i32::MAX,
        ensures
            r@ == doors_upto(self.types(), self.w(), self.h(), coords, 4),
    {
        door_sides(self, coords)
    }

}

impl<D> MapLayer<D> {
    /// The tiles that draw this layer on a grid map, row by row and left to right within
    /// a row.
    pub fn build_grid_map(&self) -> (r: Vec<TilePlacement>)
        requires
            self.wf(),
        ensures
            r@ == grid_tiles(self.types(), self.w(), self.h()),
    {
        grid_map_tiles(self)
    }
}

impl<D> MapLayer<D> {
    /// A new layer of `width` columns and `height` rows, with its start placed at random
    /// away from the border and a labyrinth carved around it. What the carving yields is
    /// spelled out by `carve::lemma_fresh_carving_laws`.
    pub fn new(width: usize, height: usize) -> (r: MapLayer<D>)
        requires
            3 <= width <= i32::MAX,
            3 <= height <= i32::MAX,
        ensures
            r.wf(),
            carved_by_draws(wall_grid(width as int, height as int), r.types(), r.w(), r.h(), r.start()),
            room_cells(r.types(), r.w(), r.h()).len() <= 120,
            bridge_cells(r.types(), r.w(), r.h()).len() == room_cells(r.types(), r.w(), r.h()).len(),
            r.w() == width,
            r.h() == height,
            1 <= r.start().x < width - 1,
            1 <= r.start().y < height - 1,
            forall|x: int, y: int|
                #![trigger r.cell(x, y)]
                in_grid(r.w(), r.h(), x, y) ==> r.cell(x, y).data is None,
    {
        let sx = random_range(1, width - 1);
        let sy = random_range(1, height - 1);
        let s_coords = Coords { x: sx as i32, y: sy as i32 };
        let mut grid: Vec<Vec<LayerCell<D>>> = Vec::new();
        let mut i: usize = 0;
        while i < height
            invariant
                0 <= i <= height,
                grid@.len() == i,
                forall|y: int|
                    0 <= y < i ==> (#[trigger] grid@[y])@.len() == width && forall|x: int|
                        0 <= x < width ==> {
                            let c = #[trigger] grid@[y]@[x];
                            &&& c.c_type is Wall
                            &&& c.data is None
                        },
            decreases height - i,
        {
            let mut row: Vec<LayerCell<D>> = Vec::new();
            let mut j: usize = 0;
            while j < width
                invariant
                    0 <= j <= width,
                    row@.len() == j,
                    forall|x: int|
                        0 <= x < j ==> {
                            let c = #[trigger] row@[x];
                            &&& c.c_type is Wall
                            &&& c.data is None
                        },
                decreases width - j,
            {
                row.push(LayerCell { c_type: CellType::Wall, data: None });
                j += 1;
            }
            grid.push(row);
            i += 1;
        }
        let mut layer = MapLayer { width, height, s_coords, grid };
        assert(layer.shape_ok());
        assert(all_walls(layer.types(), layer.w(), layer.h()));
        let ghost l0 = layer;
        assert forall|y: int| 0 <= y < l0.h() implies #[trigger] l0.types()[y] =~= wall_grid(width as int, height as int)[y] by {
            assert forall|x: int| 0 <= x < l0.w() implies l0.types()[y][x] == wall_grid(width as int, height as int)[y][x] by {
                assert(at(l0.types(), x, y) is Wall);
            }
        }
        assert(l0.types() =~= wall_grid(width as int, height as int));
        layer.generate();
        assert forall|x: int, y: int|
            #![trigger layer.cell(x, y)]
            in_grid(layer.w(), layer.h(), x, y) implies layer.cell(x, y).data is None by {
            assert(layer.cell(x, y).data == l0.cell(x, y).data);
        }
        proof {
            lemma_fresh_labyrinth_counts(layer.w(), layer.h(), layer.start(), layer.types());
        }
        layer
    }

    /// Carves more of the labyrinth from the start (see `carve::generate_labyrinth`); what
    /// was carved before stays.
    pub fn generate(&mut self)
        requires
            old(self).shape_ok(),
            all_walls(old(self).types(), old(self).w(), old(self).h()) || is_labyrinth(
                old(self).types(),
                old(self).w(),
                old(self).h(),
                old(self).start(),
            ),
        ensures
            final(self).wf(),
            final(self).w() == old(self).w(),
            final(self).h() == old(self).h(),
            final(self).start() == old(self).start(),
            carved_by_draws(old(self).types(), final(self).types(), old(self).w(), old(self).h(), old(self).start()),
            final(self).only_carved_from(old(self)),
    {
        let s = self.s_coords;
        generate_labyrinth(self, s);
    }
}

impl<D> MapLayer<D> {
    /// The layer as text, one line per row: `#` for a wall, `@` for a room, `-` for a
    /// corridor and `S` for the start.
    pub fn grid_text(&self) -> (r: Vec<String>)
        requires
            self.wf(),
        ensures
            r@.len() == self.h(),
            forall|y: int| 0 <= y < self.h() ==> (#[trigger] r@[y])@ == row_text(self.types(), y, self.w()),
    {
        let mut lines: Vec<String> = Vec::new();
        let mut y: usize = 0;
        while y < self.height
            invariant
                self.wf(),
                0 <= y <= self.h(),
                lines@.len() == y,
                forall|k: int| 0 <= k < y ==> (#[trigger] lines@[k])@ == row_text(self.types(), k, self.w()),
            decreases self.h() - y,
        {
            let mut line = String::new();
            let mut x: usize = 0;
            while x < self.width
                invariant
                    self.wf(),
                    0 <= y < self.h(),
                    0 <= x <= self.w(),
                    line@ == row_text(self.types(), y as int, x as int),
                decreases self.w() - x,
            {
                let ct = self.grid[y][x].c_type;
                assert(ct == at(self.types(), x as int, y as int));
                push_symbol(&mut line, ct);
                x += 1;
            }
            lines.push(line);
            y += 1;
        }
        lines
    }
}

} // verus!
