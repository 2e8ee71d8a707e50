use labyrinth::cell::CellType;
use labyrinth::coords::{Coords, Dir2i};
use labyrinth::door::DoorData;
use labyrinth::floor::Floor;
use labyrinth::item::{ItemData, ItemKind};
use std::collections::VecDeque;

fn kind(f: &Floor<i32>, x: i32, y: i32) -> Option<CellType> {
    f.get_cell(Coords::new(x, y)).map(|c| c.c_type)
}

fn room_like(k: Option<CellType>) -> bool {
    matches!(k, Some(CellType::Room) | Some(CellType::Start))
}

/// Checks the labyrinth shape of a floor at run time: one start, corridors between rooms,
/// every room reachable from the start through corridors.
fn check_labyrinth(f: &Floor<i32>) {
    let w = f.width as i32;
    let h = f.height as i32;
    let s = f.get_start_coords();
    assert_eq!(kind(f, s.x, s.y), Some(CellType::Start));
    let mut rooms = 0;
    for y in 0..h {
        for x in 0..w {
            match kind(f, x, y).unwrap() {
                CellType::Start => assert_eq!((x, y), (s.x, s.y)),
                CellType::Room => rooms += 1,
                CellType::Bridge { direction: d } => {
                    assert!((d.x == 0 && d.y.abs() == 1) || (d.y == 0 && d.x.abs() == 1));
                    assert!(room_like(kind(f, x - d.x, y - d.y)));
                    assert!(room_like(kind(f, x + d.x, y + d.y)));
                }
                CellType::Wall => {}
            }
        }
    }
    let mut seen = vec![vec![false; w as usize]; h as usize];
    let mut queue = VecDeque::new();
    seen[s.y as usize][s.x as usize] = true;
    queue.push_back(s);
    let mut reached = 0;
    while let Some(c) = queue.pop_front() {
        for d in Dir2i::all() {
            if let Some(CellType::Bridge { direction }) = kind(f, c.x + d.x, c.y + d.y) {
                assert!(direction == d || (direction.x == -d.x && direction.y == -d.y));
                let n = Coords::new(c.x + 2 * d.x, c.y + 2 * d.y);
                if !seen[n.y as usize][n.x as usize] {
                    seen[n.y as usize][n.x as usize] = true;
                    reached += 1;
                    queue.push_back(n);
                }
            }
        }
    }
    assert_eq!(reached, rooms);
}

#[test]
fn new_floor_is_a_labyrinth() {
    for size in 2..12usize {
        for _ in 0..20 {
            let f: Floor<i32> = Floor::new((size, size));
            assert_eq!(f.width, size);
            assert_eq!(f.height, size);
            let s = f.get_start_coords();
            assert!(s.x >= 0 && (s.x as usize) < size - 1);
            assert!(s.y >= 0 && (s.y as usize) < size - 1);
            check_labyrinth(&f);
        }
    }
}

#[test]
fn new_floor_cells_are_fresh() {
    let f: Floor<i32> = Floor::new((7, 7));
    for y in 0..7 {
        for x in 0..7 {
            let c = f.get_cell(Coords::new(x, y)).unwrap();
            assert!(!c.is_visited);
            assert!(c.items.is_empty() && c.enemies.is_empty() && c.doors.is_empty());
        }
    }
    assert!(f.get_cell(Coords::new(7, 0)).is_none());
    assert!(f.get_cell(Coords::new(-1, 3)).is_none());
}

#[test]
fn a_large_floor_has_rooms() {
    // From any start of a 21 by 21 floor at least one direction is free for the first step.
    let f: Floor<i32> = Floor::new((21, 21));
    let mut rooms = 0;
    for y in 0..21 {
        for x in 0..21 {
            if kind(&f, x, y) == Some(CellType::Room) {
                rooms += 1;
            }
        }
    }
    assert!(rooms >= 1);
}

#[test]
fn only_corridors_are_walkable() {
    let f: Floor<i32> = Floor::new((9, 9));
    for y in -1..10 {
        for x in -1..10 {
            let walk = f.is_walkable(Coords::new(x, y));
            let expected = matches!(kind(&f, x, y), Some(CellType::Bridge { .. }));
            assert_eq!(walk, expected);
        }
    }
}

fn expected_doors(f: &Floor<i32>, c: Coords) -> Vec<DoorData> {
    Dir2i::all()
        .iter()
        .filter(|d| matches!(kind(f, c.x + d.x, c.y + d.y), Some(CellType::Bridge { .. })))
        .map(|d| DoorData { side: *d })
        .collect()
}

#[test]
fn first_visit_stocks_the_room_and_second_changes_nothing() {
    let mut f: Floor<i32> = Floor::new((9, 9));
    let s = f.get_start_coords();
    let doors = expected_doors(&f, s);
    f.prepare_enter_room(s, 7);
    let c = f.get_cell(s).unwrap();
    assert!(c.is_visited);
    assert_eq!(c.enemies, vec![7]);
    assert_eq!(c.items, vec![ItemData { slot_cost: 1, kind: ItemKind::Potion }]);
    assert_eq!(c.doors, doors);
    assert_eq!(c.c_type, CellType::Start);
    f.prepare_enter_room(s, 8);
    let c = f.get_cell(s).unwrap();
    assert_eq!(c.enemies, vec![7]);
    assert_eq!(c.items.len(), 1);
}

#[test]
fn entering_outside_the_floor_changes_nothing() {
    let mut f: Floor<i32> = Floor::new((4, 4));
    f.prepare_enter_room(Coords::new(4, 0), 1);
    f.prepare_enter_room(Coords::new(0, -1), 1);
    for y in 0..4 {
        for x in 0..4 {
            assert!(!f.get_cell(Coords::new(x, y)).unwrap().is_visited);
        }
    }
}

#[test]
fn enemies_left_behind_are_found_again() {
    let mut f: Floor<i32> = Floor::new((9, 9));
    let s = f.get_start_coords();
    f.prepare_enter_room(s, 1);
    f.prepare_exit_room(s, vec![4, 5]);
    assert_eq!(f.get_cell(s).unwrap().enemies, vec![4, 5]);
    f.prepare_enter_room(s, 9);
    let c = f.get_cell(s).unwrap();
    assert_eq!(c.enemies, vec![4, 5]);
    assert_eq!(c.items.len(), 1);
    f.prepare_exit_room(s, vec![]);
    assert!(f.get_cell(s).unwrap().enemies.is_empty());
}

#[test]
fn get_mut_cell_writes_one_cell() {
    let mut f: Floor<i32> = Floor::new((5, 5));
    let c = f.get_mut_cell(Coords::new(1, 2)).unwrap();
    c.is_visited = true;
    c.enemies.push(3);
    assert!(f.get_cell(Coords::new(1, 2)).unwrap().is_visited);
    assert!(!f.get_cell(Coords::new(2, 1)).unwrap().is_visited);
    assert!(f.get_mut_cell(Coords::new(5, 0)).is_none());
}

#[test]
fn starts_are_drawn_at_random() {
    let mut starts = std::collections::HashSet::new();
    for _ in 0..200 {
        let f: Floor<i32> = Floor::new((11, 11));
        let s = f.get_start_coords();
        starts.insert((s.x, s.y));
    }
    assert!(starts.len() > 1);
}

#[test]
fn corridors_lead_into_rooms_and_pair_with_them() {
    for size in 2..16usize {
        for _ in 0..10 {
            let f: Floor<i32> = Floor::new((size, size));
            let s = f.get_start_coords();
            let (mut rooms, mut bridges) = (0, 0);
            for y in 0..size as i32 {
                for x in 0..size as i32 {
                    match kind(&f, x, y).unwrap() {
                        CellType::Room => {
                            rooms += 1;
                            assert!((x - s.x) % 2 == 0 && (y - s.y) % 2 == 0);
                            let entering = Dir2i::all()
                                .iter()
                                .filter(|d| kind(&f, x - d.x, y - d.y) == Some(CellType::Bridge { direction: **d }))
                                .count();
                            assert_eq!(entering, 1);
                        }
                        CellType::Bridge { direction: d } => {
                            bridges += 1;
                            assert_eq!(kind(&f, x + d.x, y + d.y), Some(CellType::Room));
                            assert!(((x - s.x) % 2 == 0) != ((y - s.y) % 2 == 0));
                        }
                        _ => {}
                    }
                }
            }
            assert_eq!(rooms, bridges);
            assert!(rooms <= 120);
            if size >= 4 {
                let leaves_start = Dir2i::all()
                    .iter()
                    .any(|d| kind(&f, s.x + d.x, s.y + d.y) == Some(CellType::Bridge { direction: *d }));
                assert!(leaves_start);
            }
        }
    }
}

#[test]
fn a_visited_room_is_never_restocked() {
    let mut f: Floor<i32> = Floor::new((9, 9));
    let s = f.get_start_coords();
    f.prepare_enter_room(s, 1);
    let doors = f.get_cell(s).unwrap().doors.clone();
    for round in 0..5 {
        f.prepare_exit_room(s, vec![round]);
        f.prepare_enter_room(s, 100 + round);
        let c = f.get_cell(s).unwrap();
        assert_eq!(c.items, vec![ItemData { slot_cost: 1, kind: ItemKind::Potion }]);
        assert_eq!(c.doors, doors);
        assert_eq!(c.enemies, vec![round]);
    }
}
