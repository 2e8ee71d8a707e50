use labyrinth::carve::{carve_step, get_poss_coords};
use labyrinth::grid::KindGrid;
use labyrinth::cell::CellType;
use labyrinth::coords::{Coords, Dir2i};
use labyrinth::layer::MapLayer;
use labyrinth::tiles::{orientation, tile_for, Tile};

#[test]
fn directions_are_up_right_down_left() {
    let all = Dir2i::all();
    assert_eq!(all[0], Coords::new(0, -1));
    assert_eq!(all[1], Coords::new(1, 0));
    assert_eq!(all[2], Coords::new(0, 1));
    assert_eq!(all[3], Coords::new(-1, 0));
    assert_eq!(Coords::new(3, 4).offset(Dir2i::left()), Coords::new(2, 4));
}

#[test]
fn cell_kinds_default_to_wall() {
    assert_eq!(CellType::default(), CellType::Wall);
}

#[test]
fn tiles_for_each_kind() {
    assert_eq!(tile_for(CellType::Wall), None);
    assert_eq!(tile_for(CellType::Room), Some(Tile { layer: 0, item: 0, orientation: 0 }));
    assert_eq!(tile_for(CellType::Start), Some(Tile { layer: 0, item: 0, orientation: 0 }));
    assert_eq!(
        tile_for(CellType::Bridge { direction: Dir2i::up() }),
        Some(Tile { layer: 1, item: 1, orientation: 16 })
    );
    assert_eq!(
        tile_for(CellType::Bridge { direction: Dir2i::left() }),
        Some(Tile { layer: 1, item: 1, orientation: 10 })
    );
    assert_eq!(orientation(Dir2i::down()), 16);
    assert_eq!(orientation(Dir2i::right()), 10);
    assert_eq!(orientation(Coords::new(0, 0)), 0);
}

#[test]
fn layer_start_keeps_off_the_border() {
    for w in 3..9usize {
        for h in 3..9usize {
            for _ in 0..5 {
                let l: MapLayer<u8> = MapLayer::new(w, h);
                assert_eq!((l.width, l.height), (w, h));
                let s = l.get_start_coords();
                assert!(s.x >= 1 && (s.x as usize) < w - 1);
                assert!(s.y >= 1 && (s.y as usize) < h - 1);
            }
        }
    }
}

fn kind_of(text: &[String], x: i32, y: i32) -> Option<char> {
    if x < 0 || y < 0 {
        return None;
    }
    text.get(y as usize).and_then(|l| l.chars().nth(x as usize))
}

#[test]
fn layer_text_shows_one_start_and_joined_corridors() {
    let l: MapLayer<u8> = MapLayer::new(11, 7);
    let text = l.grid_text();
    assert_eq!(text.len(), 7);
    let s = l.get_start_coords();
    let mut starts = 0;
    for (y, line) in text.iter().enumerate() {
        assert_eq!(line.chars().count(), 11);
        for (x, ch) in line.chars().enumerate() {
            assert!("#@-S".contains(ch));
            let c = Coords::new(x as i32, y as i32);
            assert_eq!(ch == '-', l.is_walkable(c));
            if ch == 'S' {
                starts += 1;
                assert_eq!(c, s);
            }
            if ch == '-' {
                let horizontal = matches!(kind_of(&text, c.x - 1, c.y), Some('@') | Some('S'))
                    && matches!(kind_of(&text, c.x + 1, c.y), Some('@') | Some('S'));
                let vertical = matches!(kind_of(&text, c.x, c.y - 1), Some('@') | Some('S'))
                    && matches!(kind_of(&text, c.x, c.y + 1), Some('@') | Some('S'));
                assert!(horizontal || vertical);
            }
        }
    }
    assert_eq!(starts, 1);
}

#[test]
fn regenerating_keeps_what_was_carved() {
    let mut l: MapLayer<u8> = MapLayer::new(13, 13);
    let before = l.grid_text();
    l.generate();
    let after = l.grid_text();
    for (b, a) in before.iter().zip(after.iter()) {
        for (cb, ca) in b.chars().zip(a.chars()) {
            if cb != '#' {
                assert_eq!(cb, ca);
            }
        }
    }
}

#[test]
fn layer_tiles_cover_the_carved_cells() {
    let l: MapLayer<u8> = MapLayer::new(9, 5);
    let text = l.grid_text();
    let tiles = l.build_grid_map();
    let carved: usize = text.iter().map(|t| t.chars().filter(|c| *c != '#').count()).sum();
    assert_eq!(tiles.len(), carved);
    let mut last = (-1, -1);
    for t in &tiles {
        let ch = kind_of(&text, t.cell.x, t.cell.y).unwrap();
        assert!((t.cell.y, t.cell.x) > last);
        last = (t.cell.y, t.cell.x);
        match ch {
            '@' | 'S' => assert_eq!(t.tile, Tile { layer: 0, item: 0, orientation: 0 }),
            '-' => {
                assert_eq!((t.tile.layer, t.tile.item), (1, 1));
                let horizontal = matches!(kind_of(&text, t.cell.x - 1, t.cell.y), Some('@') | Some('S'));
                assert_eq!(t.tile.orientation, if horizontal { 10 } else { 16 });
            }
            _ => panic!("tile on a wall"),
        }
    }
}

#[test]
fn door_sides_face_corridors() {
    let l: MapLayer<u8> = MapLayer::new(9, 9);
    let s = l.get_start_coords();
    let doors = l.door_sides(s);
    let expected: Vec<Coords> = Dir2i::all()
        .iter()
        .copied()
        .filter(|d| l.is_walkable(s.offset(*d)))
        .collect();
    let sides: Vec<Coords> = doors.iter().map(|d| d.side).collect();
    assert_eq!(sides, expected);
}

#[test]
fn a_carving_step_carves_the_picked_way_or_jumps() {
    let mut l: MapLayer<u8> = MapLayer::new(15, 15);
    let s = l.get_start_coords();
    let mut created = vec![s];
    let mut curr = s;
    for step in 0..60 {
        let poss = get_poss_coords(&l, curr);
        if poss.is_empty() {
            let before = l.grid_text();
            let pick = step % created.len();
            let next = carve_step(&mut l, curr, &mut created, &poss, pick);
            assert_eq!(next, created[pick]);
            assert_eq!(l.grid_text(), before);
            curr = next;
        } else {
            let pick = step % poss.len();
            let way = poss[pick];
            assert_eq!(l.kind_at(way.bridge), Some(CellType::Wall));
            let n = created.len();
            let next = carve_step(&mut l, curr, &mut created, &poss, pick);
            assert_eq!(next, way.room);
            assert_eq!(created.len(), n + 1);
            assert_eq!(l.kind_at(way.bridge), Some(CellType::Bridge { direction: way.direction }));
            assert_eq!(l.kind_at(way.room), Some(CellType::Room));
            curr = next;
        }
    }
}

#[test]
fn layer_size_getters() {
    let l: MapLayer<u8> = MapLayer::new(5, 7);
    assert_eq!((l.width(), l.height()), (5, 7));
    assert_eq!(l.grid_width(), 5);
    assert_eq!(l.grid_height(), 7);
}
