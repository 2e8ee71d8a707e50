//! A grid of cell kinds, and what is read off it: the doors of a room and the tiles that
//! draw the grid.
use vstd::prelude::*;
use crate::coords::{Coords, Dir2i, dirs};
use crate::cell::CellType;
use crate::door::DoorData;
use crate::labyrinth::{at, in_grid, shaped, with_kind, doors_upto};
use crate::tiles::{TilePlacement, tile_for, row_tiles, grid_tiles};

verus! {

/// A grid of cell kinds, each cell possibly carrying more than its kind.
pub trait KindGrid: Sized {
    /// The kind of every cell, row by row.
    spec fn kinds(&self) -> Seq<Seq<CellType>>;

    spec fn grid_w(&self) -> int;

    spec fn grid_h(&self) -> int;

    /// The grid is well shaped and addressable with `i32` coordinates.
    spec fn grid_ok(&self) -> bool;

    /// `self` holds what `before` holds besides the cell kinds.
    spec fn keeps_payload(&self, before: &Self) -> bool;

    proof fn lemma_grid_ok(&self)
        requires
            self.grid_ok(),
        ensures
            shaped(self.kinds(), self.grid_w(), self.grid_h()),
            1 <= self.grid_w() <= i32::MAX,
            1 <= self.grid_h() <= i32::MAX,
    ;

    proof fn lemma_keeps_payload_refl(&self)
        ensures
            self.keeps_payload(self),
    ;

    proof fn lemma_keeps_payload_trans(&self, mid: &Self, before: &Self)
        requires
            self.keeps_payload(mid),
            mid.keeps_payload(before),
        ensures
            self.keeps_payload(before),
    ;

    /// Number of columns.
    fn grid_width(&self) -> (r: usize)
        requires
            self.grid_ok(),
        ensures
            r == self.grid_w(),
    ;

    /// Number of rows.
    fn grid_height(&self) -> (r: usize)
        requires
            self.grid_ok(),
        ensures
            r == self.grid_h(),
    ;

    /// The kind of the cell at `c`, if it lies in the grid.
    fn kind_at(&self, c: Coords) -> (r: Option<CellType>)
        requires
            self.grid_ok(),
        ensures
            r == if in_grid(self.grid_w(), self.grid_h(), c.x as int, c.y as int) {
                Some(at(self.kinds(), c.x as int, c.y as int))
            } else {
                None::<CellType>
            },
    ;

    /// Sets the kind of the cell at `c`, which lies in the grid.
    fn set_kind(&mut self, c: Coords, k: CellType)
        requires
            old(self).grid_ok(),
            in_grid(old(self).grid_w(), old(self).grid_h(), c.x as int, c.y as int),
        ensures
            final(self).grid_ok(),
            final(self).grid_w() == old(self).grid_w(),
            final(self).grid_h() == old(self).grid_h(),
            final(self).kinds() == with_kind(old(self).kinds(), c.x as int, c.y as int, k),
            final(self).keeps_payload(old(self)),
    ;
}

/// The doors the room at `coords` has: one on each side facing a corridor, in the order
/// up, right, down, left.
pub fn door_sides<G: KindGrid>(g: &G, coords: Coords) -> (r: Vec<DoorData>)
    requires
        g.grid_ok(),
        i32::MIN < coords.x < i32::MAX,
        i32::MIN < coords.y < i32::MAX,
    ensures
        r@ == doors_upto(g.kinds(), g.grid_w(), g.grid_h(), coords, 4),
{
    let mut doors: Vec<DoorData> = Vec::new();
    let all = Dir2i::all();
    let mut i: usize = 0;
    while i < 4
        invariant
            g.grid_ok(),
            i32::MIN < coords.x < i32::MAX,
            i32::MIN < coords.y < i32::MAX,
            0 <= i <= 4,
            all@ == dirs(),
            doors@ == doors_upto(g.kinds(), g.grid_w(), g.grid_h(), coords, i as int),
        decreases 4 - i,
    {
        let dir = all[i];
        match g.kind_at(coords.offset(dir)) {
            Some(CellType::Bridge { .. }) => {
                doors.push(DoorData { side: dir });
            },
            _ => {},
        }
        i += 1;
    }
    doors
}

/// The tiles that draw the grid on a grid map, row by row and left to right within a row.
pub fn grid_map_tiles<G: KindGrid>(g: &G) -> (r: Vec<TilePlacement>)
    requires
        g.grid_ok(),
    ensures
        r@ == grid_tiles(g.kinds(), g.grid_w(), g.grid_h()),
{
    proof {
        g.lemma_grid_ok();
    }
    let width = g.grid_width();
    let height = g.grid_height();
    let mut tiles: Vec<TilePlacement> = Vec::new();
    let mut y: usize = 0;
    while y < height
        invariant
            g.grid_ok(),
            width == g.grid_w(),
            height == g.grid_h(),
            width <= i32::MAX,
            height <= i32::MAX,
            0 <= y <= height,
            tiles@ == grid_tiles(g.kinds(), g.grid_w(), y as int),
        decreases height - y,
    {
        let mut x: usize = 0;
        while x < width
            invariant
                g.grid_ok(),
                width == g.grid_w(),
                height == g.grid_h(),
                width <= i32::MAX,
                height <= i32::MAX,
                0 <= y < height,
                0 <= x <= width,
                tiles@ == grid_tiles(g.kinds(), g.grid_w(), y as int) + row_tiles(
                    g.kinds(),
                    y as int,
                    x as int,
                ),
            decreases width - x,
        {
            let c = Coords { x: x as i32, y: y as i32 };
            match g.kind_at(c) {
                Some(ct) => match tile_for(ct) {
                    Some(tile) => {
                        tiles.push(TilePlacement { cell: c, tile });
                    },
                    None => {},
                },
                None => {},
            }
            x += 1;
        }
        y += 1;
    }
    tiles
}

} // verus!
