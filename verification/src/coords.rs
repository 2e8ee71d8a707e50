//! Integer grid coordinates and the four unit directions.
use vstd::prelude::*;

verus! {

/// A cell position on a floor grid: `x` is the column, `y` the row.
#[derive(Clone, Copy, Debug, PartialEq, Eq, Structural)]
pub struct Coords {
    pub x: i32,
    pub y: i32,
}

/// `d` is one of the four unit steps along an axis.
pub open spec fn is_dir(d: Coords) -> bool {
    ||| (d.x == 0 && (d.y == 1 || d.y == -1))
    ||| (d.y == 0 && (d.x == 1 || d.x == -1))
}

impl Coords {
    pub fn new(x: i32, y: i32) -> (r: Coords)
        ensures
            r.x == x,
            r.y == y,
    {
        Coords { x, y }
    }

    /// Component-wise sum, as the `+` of an integer vector.
    pub fn offset(self, d: Coords) -> (r: Coords)
        requires
            i32::MIN <= self.x + d.x <= i32::MAX,
            i32::MIN <= self.y + d.y <= i32::MAX,
        ensures
            r.x == self.x + d.x,
            r.y == self.y + d.y,
    {
        Coords { x: self.x + d.x, y: self.y + d.y }
    }
}

/// The four unit directions of the grid.
pub struct Dir2i;

impl Dir2i {
    pub fn up() -> (r: Coords)
        ensures
            r == dirs()[0],
    {
        Coords { x: 0, y: -1 }
    }

    pub fn right() -> (r: Coords)
        ensures
            r == dirs()[1],
    {
        Coords { x: 1, y: 0 }
    }

    pub fn down() -> (r: Coords)
        ensures
            r == dirs()[2],
    {
        Coords { x: 0, y: 1 }
    }

    pub fn left() -> (r: Coords)
        ensures
            r == dirs()[3],
    {
        Coords { x: -1, y: 0 }
    }

    /// The directions in the order up, right, down, left.
    pub fn all() -> (r: [Coords; 4])
        ensures
            r@ == dirs(),
    {
        [Dir2i::up(), Dir2i::right(), Dir2i::down(), Dir2i::left()]
    }
}

/// The four directions, in the order in which the library visits them.
pub open spec fn dirs() -> Seq<Coords> {
    seq![
        Coords { x: 0, y: -1i32 },
        Coords { x: 1, y: 0 },
        Coords { x: 0, y: 1 },
        Coords { x: -1i32, y: 0 },
    ]
}


} // verus!
