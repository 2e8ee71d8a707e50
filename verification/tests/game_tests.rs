use labyrinth::assets::{asset_path, is_known_asset_key};
use labyrinth::cell::CellType;
use labyrinth::control::{grid_step, move_decision, player_enters_room, scene_action, MoveDecision, SceneAction};
use labyrinth::coords::{Coords, Dir2i};
use labyrinth::item::ItemData;
use labyrinth::map::{DungeonMap, RoomData};

#[test]
fn dungeon_has_the_asked_floors() {
    let m: DungeonMap<i32> = DungeonMap::create(6, 6, 3);
    let f = m.current_floor();
    assert_eq!((f.width, f.height), (6, 6));
    assert!(!m.room_is_cleared());
    let none: DungeonMap<i32> = DungeonMap::create(4, 4, 0);
    assert!(!none.room_is_cleared());
}

#[test]
fn dungeon_rooms_keep_their_enemies() {
    let mut m: DungeonMap<&str> = DungeonMap::create(8, 8, 2);
    let s = m.current_floor().get_start_coords();
    m.build_room(s, "goblin");
    assert!(!m.room_is_cleared());
    let cell = m.current_floor().get_cell(s).unwrap();
    assert_eq!(cell.enemies, vec!["goblin"]);
    assert_eq!(cell.items.len(), 1);
    m.exit_room(vec![]);
    m.build_room(s, "goblin");
    assert!(m.current_floor().get_cell(s).unwrap().enemies.is_empty());
    assert_eq!(RoomData { coords: s, is_cleared: false }, RoomData { coords: s, is_cleared: false });
}

#[test]
fn dungeon_walkable_cells_are_corridors() {
    let m: DungeonMap<i32> = DungeonMap::create(7, 7, 1);
    let f = m.current_floor();
    for y in 0..7 {
        for x in 0..7 {
            let c = Coords::new(x, y);
            let bridge = matches!(f.get_cell(c).unwrap().c_type, CellType::Bridge { .. });
            assert_eq!(m.is_walkable(c), bridge);
        }
    }
    assert!(!m.is_walkable(Coords::new(7, 7)));
}

#[test]
fn scene_actions() {
    assert_eq!(scene_action(false, false, false, false), SceneAction::Nothing);
    assert_eq!(scene_action(true, false, false, false), SceneAction::EnterRoom);
    assert_eq!(scene_action(true, false, true, false), SceneAction::Nothing);
    assert_eq!(scene_action(true, true, false, true), SceneAction::ExitRoom);
    assert_eq!(scene_action(true, true, false, false), SceneAction::Nothing);
    assert_eq!(scene_action(false, true, false, true), SceneAction::Nothing);
}

#[test]
fn grid_steps_follow_key_priority() {
    assert_eq!(grid_step(true, true, true, true), Some(Dir2i::up()));
    assert_eq!(grid_step(false, true, true, false), Some(Dir2i::right()));
    assert_eq!(grid_step(false, false, true, true), Some(Dir2i::down()));
    assert_eq!(grid_step(false, false, false, true), Some(Dir2i::left()));
    assert_eq!(grid_step(false, false, false, false), None);
}

#[test]
fn move_decisions() {
    assert_eq!(move_decision(false, true, false), MoveDecision::Start);
    assert_eq!(move_decision(false, false, true), MoveDecision::Queue);
    assert_eq!(move_decision(true, true, true), MoveDecision::Queue);
    assert_eq!(move_decision(true, true, false), MoveDecision::Ignore);
    assert_eq!(move_decision(false, false, false), MoveDecision::Ignore);
}

#[test]
fn slot_cost_is_at_least_one() {
    assert_eq!(ItemData::effective_slot_cost(3), 3);
    assert_eq!(ItemData::effective_slot_cost(1), 1);
    assert_eq!(ItemData::effective_slot_cost(0), 1);
    assert_eq!(ItemData::effective_slot_cost(-5), 1);
}

#[test]
fn asset_paths_of_each_kind() {
    let p = |k: &str| {
        assert!(is_known_asset_key(k));
        Some(asset_path(k))
    };
    assert_eq!(p("player/mesh").as_deref(), Some("res://assets/entities/player/mesh.tscn"));
    assert_eq!(p("goblin/shape").as_deref(), Some("res://assets/entities/enemies/goblin/shape.tscn"));
    assert_eq!(p("skeleton/mesh").as_deref(), Some("res://assets/entities/enemies/skeleton/mesh.tscn"));
    assert_eq!(p("potion/health").as_deref(), Some("res://assets/entities/items/potions/health.tscn"));
    assert_eq!(p("weapon/spear").as_deref(), Some("res://assets/entities/items/weapons/spear.tscn"));
    assert_eq!(p("door/mesh").as_deref(), Some("res://assets/map/door_mesh.tscn"));
    assert_eq!(p("interact_box").as_deref(), Some("res://assets/entities/items/interact_box.tscn"));
    assert_eq!(p("room").as_deref(), Some("res://assets/map/room.tscn"));
    assert_eq!(p("labyrinth/tres").as_deref(), Some("res://assets/map/labyrinth.tscn"));
    assert_eq!(p("player/mesh/extra").as_deref(), Some("res://assets/entities/player/mesh.tscn"));
}

#[test]
fn asset_paths_of_unknown_keys() {
    assert!(!is_known_asset_key("dragon/mesh"));
    assert!(!is_known_asset_key("player"));
    assert!(!is_known_asset_key("door"));
    assert!(!is_known_asset_key(""));
    assert!(is_known_asset_key("room"));
}

#[test]
fn player_enters_only_when_standing() {
    assert!(player_enters_room(true, false));
    assert!(!player_enters_room(true, true));
    assert!(!player_enters_room(false, false));
}

#[test]
fn dungeon_without_floors() {
    let m: DungeonMap<i32> = DungeonMap::create(-3, 5, 0);
    assert_eq!(m.floor_count(), 0);
    assert!(!m.has_current_floor());
    let m: DungeonMap<i32> = DungeonMap::create(5, 5, 2);
    assert_eq!(m.floor_count(), 2);
    assert!(m.has_current_floor());
    assert_eq!((m.current_floor().width(), m.current_floor().height()), (5, 5));
}
