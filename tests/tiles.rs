use dungeon_chess::tile::{is_passable, Tile, TileMap};
use dungeon_chess::unit::{
    is_enemy, material_reward, unit_buy_price, unit_description, Pos, Team, Unit, UnitType,
};

#[test]
fn tilemap_clone_test() {
    let map_plan = ["...", "###"];
    let mut tilemap = TileMap::from_rows(&map_plan[..]);
    let cloned = tilemap.clone();

    tilemap.set(Pos::new(0, 0), Tile::Wall);
    assert_eq!(tilemap.get_unchecked(Pos::new(0, 0)), Tile::Wall);
    assert_eq!(cloned.get_unchecked(Pos::new(0, 0)), Tile::Floor);
}

#[test]
fn plan_characters_and_bounds() {
    let map = TileMap::from_rows(&["#.<x", ".."][..]);
    assert_eq!(map.get_width(), 4);
    assert_eq!(map.get_height(), 2);
    assert_eq!(map.get(Pos::new(0, 0)), Some(Tile::Wall));
    assert_eq!(map.get(Pos::new(1, 0)), Some(Tile::Floor));
    assert_eq!(map.get(Pos::new(2, 0)), Some(Tile::Stairs));
    assert_eq!(map.get(Pos::new(3, 0)), Some(Tile::Empty));
    assert_eq!(map.get(Pos::new(3, 1)), Some(Tile::Empty));
    assert_eq!(map.get(Pos::new(4, 0)), None);
    assert_eq!(map.get(Pos::new(-1, 0)), None);
    assert!(map.is_inside(Pos::new(3, 1)));
    assert!(!map.is_inside(Pos::new(0, 2)));
    assert!(map.is_passable(Pos::new(2, 0)));
    assert!(!map.is_passable(Pos::new(0, 0)));
    assert!(!map.is_passable(Pos::new(9, 9)));
}

#[test]
fn set_outside_is_ignored() {
    let mut map = TileMap::new(2, 2);
    map.set(Pos::new(2, 0), Tile::Floor);
    map.set(Pos::new(-1, 1), Tile::Floor);
    map.set(Pos::new(1, 1), Tile::Floor);
    assert_eq!(map.find_tile(Tile::Floor), Some(Pos::new(1, 1)));
    assert_eq!(map.get(Pos::new(0, 0)), Some(Tile::Empty));
}

#[test]
fn find_tile_scans_rows_first() {
    let map = TileMap::from_rows(&["..#", "#.."][..]);
    assert_eq!(map.find_tile(Tile::Wall), Some(Pos::new(2, 0)));
    assert_eq!(map.find_tile(Tile::Stairs), None);
}

#[test]
fn tile_passability() {
    assert!(is_passable(Tile::Floor));
    assert!(is_passable(Tile::Stairs));
    assert!(!is_passable(Tile::Wall));
    assert!(!is_passable(Tile::Empty));
}

#[test]
fn unit_tables() {
    assert_eq!(material_reward(UnitType::Pawn), 1);
    assert_eq!(material_reward(UnitType::Queen), 6);
    assert_eq!(material_reward(UnitType::King), 100);
    assert_eq!(unit_buy_price(UnitType::Archbishop), 7);
    assert_eq!(unit_buy_price(UnitType::Queen), 9);
    assert_eq!(unit_buy_price(UnitType::Jester), 4);
    assert_eq!(unit_description(UnitType::Rook), "Moves any amount up, down, left or right.");
    assert_eq!(unit_description(UnitType::Knight), "Moves in L shape, can jump over pieces.");
}

#[test]
fn jester_conversion_and_enemies() {
    let mut jester = Unit { pos: Pos::new(0, 0), unit_type: UnitType::Jester, jester_type: UnitType::Rook, team: Team::Player };
    let knight = Unit { pos: Pos::new(1, 2), unit_type: UnitType::Knight, jester_type: UnitType::Rook, team: Team::Ai };
    jester.convert_jester(knight);
    assert_eq!(jester.jester_type, UnitType::Knight);
    let disguised = Unit { unit_type: UnitType::Jester, jester_type: UnitType::Queen, ..knight };
    jester.convert_jester(disguised);
    assert_eq!(jester.jester_type, UnitType::Queen);
    assert!(is_enemy(&jester, &knight));
    assert!(!is_enemy(&jester, &jester));
}
