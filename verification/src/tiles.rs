//! How a floor is drawn on a three-dimensional tile map: rooms on the ground layer,
//! corridors one layer up, turned along their direction.
use vstd::prelude::*;
use crate::coords::{Coords, Dir2i, dirs, is_dir};
use crate::cell::CellType;
use crate::labyrinth::{at, in_grid, shaped};

verus! {

/// A tile of the mesh library: the layer it sits on, the mesh item, and its orientation index.
#[derive(Clone, Copy, Debug, PartialEq, Eq, Structural)]
pub struct Tile {
    pub layer: i32,
    pub item: i32,
    pub orientation: i32,
}

/// A tile placed over the cell at column `cell.x`, row `cell.y`.
#[derive(Clone, Copy, Debug, PartialEq, Eq, Structural)]
pub struct TilePlacement {
    pub cell: Coords,
    pub tile: Tile,
}

/// Corridors running up or down are turned by orientation 16, those running left or
/// right by 10; any other direction keeps orientation 0.
pub open spec fn spec_orientation(d: Coords) -> i32 {
    if d == dirs()[0] || d == dirs()[2] {
        16
    } else if d == dirs()[1] || d == dirs()[3] {
        10
    } else {
        0
    }
}

pub open spec fn spec_tile_for(c: CellType) -> Option<Tile> {
    match c {
        CellType::Room | CellType::Start => Some(Tile { layer: 0, item: 0, orientation: 0 }),
        CellType::Bridge { direction } => Some(
            Tile { layer: 1, item: 1, orientation: spec_orientation(direction) },
        ),
        CellType::Wall => None,
    }
}

/// Law: rooms and the start are drawn with item 0 on layer 0, unturned; a corridor with
/// item 1 on layer 1, turned by 16 when it runs up or down and by 10 when it runs left or
/// right; walls are not drawn.
pub proof fn lemma_tile_of_each_kind(d: Coords)
    requires
        is_dir(d),
    ensures
        spec_tile_for(CellType::Room) == Some(Tile { layer: 0, item: 0, orientation: 0 }),
        spec_tile_for(CellType::Start) == Some(Tile { layer: 0, item: 0, orientation: 0 }),
        spec_tile_for(CellType::Wall) is None,
        d.x == 0 ==> spec_tile_for(CellType::Bridge { direction: d }) == Some(
            Tile { layer: 1, item: 1, orientation: 16 },
        ),
        d.y == 0 ==> spec_tile_for(CellType::Bridge { direction: d }) == Some(
            Tile { layer: 1, item: 1, orientation: 10 },
        ),
{
}

pub fn orientation(d: Coords) -> (r: i32)
    ensures
        r == spec_orientation(d),
{
    if d == Dir2i::up() || d == Dir2i::down() {
        16
    } else if d == Dir2i::right() || d == Dir2i::left() {
        10
    } else {
        0
    }
}

/// The tile drawn for a cell kind; walls get none.
pub fn tile_for(c: CellType) -> (r: Option<Tile>)
    ensures
        r == spec_tile_for(c),
{
    match c {
        CellType::Room | CellType::Start => Some(Tile { layer: 0, item: 0, orientation: 0 }),
        CellType::Bridge { direction } => Some(
            Tile { layer: 1, item: 1, orientation: orientation(direction) },
        ),
        CellType::Wall => None,
    }
}

/// The tiles of the first `n` cells of row `y`, left to right.
pub open spec fn row_tiles(t: Seq<Seq<CellType>>, y: int, n: int) -> Seq<TilePlacement>
    decreases n,
{
    if n <= 0 {
        seq![]
    } else {
        let prev = row_tiles(t, y, n - 1);
        match spec_tile_for(at(t, n - 1, y)) {
            Some(tile) => prev.push(
                TilePlacement { cell: Coords { x: (n - 1) as i32, y: y as i32 }, tile },
            ),
            None => prev,
        }
    }
}

/// The tiles of the first `rows` rows, each `w` cells wide, top to bottom.
pub open spec fn grid_tiles(t: Seq<Seq<CellType>>, w: int, rows: int) -> Seq<TilePlacement>
    decreases rows,
{
    if rows <= 0 {
        seq![]
    } else {
        grid_tiles(t, w, rows - 1) + row_tiles(t, rows - 1, w)
    }
}

/// The character a cell kind is printed as.
pub open spec fn symbol(c: CellType) -> Seq<char> {
    match c {
        CellType::Wall => seq!['#'],
        CellType::Room => seq!['@'],
        CellType::Bridge { .. } => seq!['-'],
        CellType::Start => seq!['S'],
    }
}

/// The first `n` cells of row `y`, printed left to right.
pub open spec fn row_text(t: Seq<Seq<CellType>>, y: int, n: int) -> Seq<char>
    decreases n,
{
    if n <= 0 {
        seq![]
    } else {
        row_text(t, y, n - 1) + symbol(at(t, n - 1, y))
    }
}

/// Appends the character of a cell kind to `line`.
pub(crate) fn push_symbol(line: &mut String, c: CellType)
    ensures
        final(line)@ == old(line)@ + symbol(c),
{
    proof {
        reveal_strlit("#");
        reveal_strlit("@");
        reveal_strlit("-");
        reveal_strlit("S");
    }
    match c {
        CellType::Wall => line.append("#"),
        CellType::Room => line.append("@"),
        CellType::Bridge { .. } => line.append("-"),
        CellType::Start => line.append("S"),
    }
}

/// `a` comes before `b` when a grid is read row by row, left to right.
pub open spec fn reads_before(a: Coords, b: Coords) -> bool {
    a.y < b.y || (a.y == b.y && a.x < b.x)
}

/// A placement that draws the cell it stands on: the cell is in the grid, not a wall, and
/// the tile is the one its kind is drawn with.
pub open spec fn draws_its_cell(t: Seq<Seq<CellType>>, w: int, h: int, p: TilePlacement) -> bool {
    &&& in_grid(w, h, p.cell.x as int, p.cell.y as int)
    &&& !(at(t, p.cell.x as int, p.cell.y as int) is Wall)
    &&& spec_tile_for(at(t, p.cell.x as int, p.cell.y as int)) == Some(p.tile)
}

/// The cells of the grid that are not walls.
pub open spec fn carved_cells(t: Seq<Seq<CellType>>, w: int, h: int) -> Set<Coords> {
    Set::new(|c: Coords| in_grid(w, h, c.x as int, c.y as int) && !(at(t, c.x as int, c.y as int) is Wall))
}

proof fn lemma_row_tiles(t: Seq<Seq<CellType>>, w: int, h: int, y: int, n: int)
    requires
        0 <= n <= w <= i32::MAX,
        0 <= y < h <= i32::MAX,
    ensures
        forall|k: int|
            0 <= k < row_tiles(t, y, n).len() ==> {
                let p = #[trigger] row_tiles(t, y, n)[k];
                &&& draws_its_cell(t, w, h, p)
                &&& p.cell.y == y
                &&& p.cell.x < n
            },
        forall|i: int, j: int|
            0 <= i < j < row_tiles(t, y, n).len() ==> #[trigger] row_tiles(t, y, n)[i].cell.x
                < #[trigger] row_tiles(t, y, n)[j].cell.x,
        forall|x: int|
            0 <= x < n && !(#[trigger] at(t, x, y) is Wall) ==> exists|k: int|
                0 <= k < row_tiles(t, y, n).len() && (#[trigger] row_tiles(t, y, n)[k]).cell.x == x,
    decreases n,
{
    if n > 0 {
        lemma_row_tiles(t, w, h, y, n - 1);
        let prev = row_tiles(t, y, n - 1);
        let cur = row_tiles(t, y, n);
        match spec_tile_for(at(t, n - 1, y)) {
            Some(tile) => {
                let p = TilePlacement { cell: Coords { x: (n - 1) as i32, y: y as i32 }, tile };
                assert(cur == prev.push(p));
                assert forall|k: int| 0 <= k < cur.len() implies {
                    let q = #[trigger] cur[k];
                    &&& draws_its_cell(t, w, h, q)
                    &&& q.cell.y == y
                    &&& q.cell.x < n
                } by {
                    if k < prev.len() {
                        assert(cur[k] == prev[k]);
                    }
                }
                assert forall|i: int, j: int| 0 <= i < j < cur.len() implies #[trigger] cur[i].cell.x
                    < #[trigger] cur[j].cell.x by {
                    assert(cur[i] == prev[i]);
                    if j < prev.len() {
                        assert(cur[j] == prev[j]);
                    }
                }
                assert forall|x: int| 0 <= x < n && !(#[trigger] at(t, x, y) is Wall) implies exists|k: int|
                    0 <= k < cur.len() && (#[trigger] cur[k]).cell.x == x by {
                    if x == n - 1 {
                        assert(cur[prev.len() as int].cell.x == x);
                    } else {
                        let k = choose|k: int| 0 <= k < prev.len() && (#[trigger] prev[k]).cell.x == x;
                        assert(cur[k] == prev[k]);
                    }
                }
            },
            None => {
                assert(cur == prev);
                assert(at(t, n - 1, y) is Wall);
            },
        }
    }
}

proof fn lemma_grid_tiles_rows(t: Seq<Seq<CellType>>, w: int, h: int, rows: int)
    requires
        0 <= w <= i32::MAX,
        0 <= rows <= h <= i32::MAX,
    ensures
        forall|k: int|
            0 <= k < grid_tiles(t, w, rows).len() ==> {
                let p = #[trigger] grid_tiles(t, w, rows)[k];
                &&& draws_its_cell(t, w, h, p)
                &&& p.cell.y < rows
            },
        forall|i: int, j: int|
            0 <= i < j < grid_tiles(t, w, rows).len() ==> reads_before(
                #[trigger] grid_tiles(t, w, rows)[i].cell,
                #[trigger] grid_tiles(t, w, rows)[j].cell,
            ),
        forall|x: int, y: int|
            in_grid(w, rows, x, y) && !(#[trigger] at(t, x, y) is Wall) ==> exists|k: int|
                0 <= k < grid_tiles(t, w, rows).len() && (#[trigger] grid_tiles(t, w, rows)[k]).cell.x == x
                    && grid_tiles(t, w, rows)[k].cell.y == y,
    decreases rows,
{
    if rows > 0 {
        lemma_grid_tiles_rows(t, w, h, rows - 1);
        lemma_row_tiles(t, w, h, rows - 1, w);
        let prev = grid_tiles(t, w, rows - 1);
        let row = row_tiles(t, rows - 1, w);
        let cur = grid_tiles(t, w, rows);
        assert(cur == prev + row);
        assert forall|k: int| 0 <= k < cur.len() implies {
            let p = #[trigger] cur[k];
            &&& draws_its_cell(t, w, h, p)
            &&& p.cell.y < rows
        } by {
            if k < prev.len() {
                assert(cur[k] == prev[k]);
            } else {
                assert(cur[k] == row[k - prev.len()]);
            }
        }
        assert forall|i: int, j: int| 0 <= i < j < cur.len() implies reads_before(
            #[trigger] cur[i].cell,
            #[trigger] cur[j].cell,
        ) by {
            if j < prev.len() {
                assert(cur[i] == prev[i] && cur[j] == prev[j]);
            } else if i < prev.len() {
                assert(cur[i] == prev[i]);
                assert(cur[j] == row[j - prev.len()]);
            } else {
                assert(cur[i] == row[i - prev.len()]);
                assert(cur[j] == row[j - prev.len()]);
            }
        }
        assert forall|x: int, y: int| in_grid(w, rows, x, y) && !(#[trigger] at(t, x, y) is Wall) implies exists|k: int|
            0 <= k < cur.len() && (#[trigger] cur[k]).cell.x == x && cur[k].cell.y == y by {
            if y < rows - 1 {
                let k = choose|k: int| 0 <= k < prev.len() && (#[trigger] prev[k]).cell.x == x && prev[k].cell.y == y;
                assert(cur[k] == prev[k]);
            } else {
                let k = choose|k: int| 0 <= k < row.len() && (#[trigger] row[k]).cell.x == x;
                assert(cur[prev.len() + k] == row[k]);
            }
        }
    }
}

/// Law: the tiles drawn for a grid of `h` rows of `w` cells hold, for each cell that is not a
/// wall, exactly one placement at that cell with the tile of its kind, and nothing else; they
/// come in reading order (row by row, left to right), and there are as many as there are
/// such cells.
pub proof fn lemma_tiles_draw_each_carved_cell(t: Seq<Seq<CellType>>, w: int, h: int)
    requires
        shaped(t, w, h),
        0 <= w <= i32::MAX,
        0 <= h <= i32::MAX,
    ensures
        forall|k: int|
            0 <= k < grid_tiles(t, w, h).len() ==> draws_its_cell(t, w, h, #[trigger] grid_tiles(t, w, h)[k]),
        forall|i: int, j: int|
            0 <= i < j < grid_tiles(t, w, h).len() ==> reads_before(
                #[trigger] grid_tiles(t, w, h)[i].cell,
                #[trigger] grid_tiles(t, w, h)[j].cell,
            ),
        forall|x: int, y: int|
            in_grid(w, h, x, y) && !(#[trigger] at(t, x, y) is Wall) ==> exists|k: int|
                0 <= k < grid_tiles(t, w, h).len() && (#[trigger] grid_tiles(t, w, h)[k]).cell.x == x
                    && grid_tiles(t, w, h)[k].cell.y == y,
        carved_cells(t, w, h).finite(),
        grid_tiles(t, w, h).len() == carved_cells(t, w, h).len(),
{
    lemma_grid_tiles_rows(t, w, h, h);
    let r = grid_tiles(t, w, h);
    let cells = r.map_values(|p: TilePlacement| p.cell);
    assert forall|i: int, j: int| 0 <= i < cells.len() && 0 <= j < cells.len() && i != j implies cells[i] != cells[j] by {
        if i < j {
            assert(reads_before(r[i].cell, r[j].cell));
        } else {
            assert(reads_before(r[j].cell, r[i].cell));
        }
    }
    assert(cells.no_duplicates());
    assert forall|c: Coords| #[trigger] carved_cells(t, w, h).contains(c) == cells.to_set().contains(c) by {
        if carved_cells(t, w, h).contains(c) {
            assert(!(at(t, c.x as int, c.y as int) is Wall));
            let k = choose|k: int| 0 <= k < r.len() && (#[trigger] r[k]).cell.x == c.x && r[k].cell.y == c.y;
            assert(cells[k] == c);
            assert(cells.contains(c));
        }
        if cells.to_set().contains(c) {
            let k = choose|k: int| 0 <= k < cells.len() && cells[k] == c;
            assert(draws_its_cell(t, w, h, r[k]));
        }
    }
    assert(carved_cells(t, w, h) =~= cells.to_set());
    cells.unique_seq_to_set();
}

} // verus!
