use dungeon_chess::floor::{
    enemy_roster, far_from_spawn, get_random_empty_away_from_spawn, get_random_empty_tile, is_free_floor,
    LAST_FLOOR,
};
use dungeon_chess::mapgenerator::MapGenerator;
use dungeon_chess::tile::{Tile, TileMap};
use dungeon_chess::unit::{unit_buy_price, Pos, Team, Unit, UnitType};
use rand::rngs::SmallRng;
use rand::SeedableRng;

fn tiles(map: &TileMap) -> Vec<Tile> {
    let mut out = vec![];
    for y in 0..map.get_height() {
        for x in 0..map.get_width() {
            out.push(map.get_unchecked(Pos::new(x as i32, y as i32)));
        }
    }
    out
}

#[test]
fn generated_map_has_one_stairs_and_start_room() {
    for seed in 0..20u64 {
        let mut gen = MapGenerator::new(SmallRng::seed_from_u64(seed), 15, 15);
        let result = gen.generate().unwrap();
        let all = tiles(&result.tilemap);
        assert_eq!(all.iter().filter(|t| **t == Tile::Stairs).count(), 1);
        let s = result.start_pos;
        for dy in -2..=2 {
            for dx in -2..=2 {
                assert!(result.tilemap.is_passable(Pos::new(s.x + dx, s.y + dy)));
            }
        }
        let walkable = all.iter().filter(|t| **t == Tile::Floor || **t == Tile::Stairs).count();
        assert!(walkable >= 25 + 5 * 4);
    }
}

#[test]
fn same_seed_same_map() {
    let mut a = MapGenerator::new(SmallRng::seed_from_u64(42), 15, 15);
    let mut b = MapGenerator::new(SmallRng::seed_from_u64(42), 15, 15);
    let ra = a.generate().unwrap();
    let rb = b.generate().unwrap();
    assert_eq!(tiles(&ra.tilemap), tiles(&rb.tilemap));
    assert_eq!(ra.start_pos, rb.start_pos);
}

#[test]
fn random_tile_pos_stays_below_width() {
    let mut gen = MapGenerator::new(SmallRng::seed_from_u64(3), 9, 4);
    let mut seen_nonzero = false;
    for _ in 0..200 {
        let p = gen.random_tile_pos();
        assert!(p.x >= 0 && p.x < 9 && p.y >= 0 && p.y < 4);
        if p.x != 0 || p.y != 0 {
            seen_nonzero = true;
        }
    }
    assert!(seen_nonzero);
}

#[test]
fn generator_starts_empty() {
    let gen = MapGenerator::new(SmallRng::seed_from_u64(1), 6, 7);
    assert_eq!(gen.tilemap.get_width(), 6);
    assert_eq!(gen.tilemap.get_height(), 7);
    assert_eq!(gen.tilemap.find_tile(Tile::Floor), None);
    assert_eq!(gen.start_pos, Pos::new(0, 0));
}

#[test]
fn roster_spends_budget_exactly() {
    let mut rng = SmallRng::seed_from_u64(5);
    let first = enemy_roster(&mut rng, 1);
    assert_eq!(first, vec![UnitType::Pawn, UnitType::Pawn, UnitType::Pawn]);
    for floor in 3..=11usize {
        let r = enemy_roster(&mut rng, floor);
        let total: i32 = r.iter().map(|u| unit_buy_price(*u)).sum();
        assert_eq!(total, 1 + 2 * floor as i32);
        assert!(!r.contains(&UnitType::King));
        assert!(!r.contains(&UnitType::Queen));
    }
    let last = enemy_roster(&mut rng, LAST_FLOOR);
    assert_eq!(*last.last().unwrap(), UnitType::King);
    let total: i32 = last[..last.len() - 1].iter().map(|u| unit_buy_price(*u)).sum();
    assert_eq!(total, 25);
}

fn walkable(t: Tile) -> bool {
    t == Tile::Floor || t == Tile::Stairs
}

#[test]
fn generated_map_is_connected_and_kept() {
    for seed in 0..20u64 {
        let mut gen = MapGenerator::new(SmallRng::seed_from_u64(seed), 15, 15);
        let result = gen.generate().unwrap();
        let map = &result.tilemap;
        assert_eq!(tiles(&gen.tilemap), tiles(map));
        assert_eq!(gen.start_pos, result.start_pos);
        assert!(tiles(map).iter().all(|t| *t != Tile::Wall));
        let (w, h) = (map.get_width() as i32, map.get_height() as i32);
        let mut seen = vec![false; (w * h) as usize];
        let mut stack = vec![result.start_pos];
        seen[(result.start_pos.x + result.start_pos.y * w) as usize] = true;
        while let Some(p) = stack.pop() {
            for (dx, dy) in [(1, 0), (-1, 0), (0, 1), (0, -1)] {
                let q = Pos::new(p.x + dx, p.y + dy);
                if map.is_passable(q) && !seen[(q.x + q.y * w) as usize] {
                    seen[(q.x + q.y * w) as usize] = true;
                    stack.push(q);
                }
            }
        }
        for y in 0..h {
            for x in 0..w {
                let t = map.get_unchecked(Pos::new(x, y));
                assert_eq!(walkable(t), seen[(x + y * w) as usize]);
            }
        }
    }
}

#[test]
fn free_floor_and_spawn_distance() {
    let map = TileMap::from_rows(&["..#", "...", "..."][..]);
    let units = vec![Unit { pos: Pos::new(1, 1), unit_type: UnitType::Pawn, jester_type: UnitType::Rook, team: Team::Ai }];
    assert!(is_free_floor(&map, &units, Pos::new(0, 0)));
    assert!(!is_free_floor(&map, &units, Pos::new(1, 1)));
    assert!(!is_free_floor(&map, &units, Pos::new(2, 0)));
    assert!(!is_free_floor(&map, &units, Pos::new(5, 0)));
    assert!(far_from_spawn(Pos::new(5, 0), Pos::new(0, 0)));
    assert!(!far_from_spawn(Pos::new(4, 0), Pos::new(0, 0)));
    assert!(!far_from_spawn(Pos::new(2, 3), Pos::new(0, 0)));
    assert!(far_from_spawn(Pos::new(3, 3), Pos::new(0, 0)));
}

#[test]
fn random_empty_tiles_are_free_floor() {
    let map = TileMap::from_rows(&["#.#######", "#########", "########."][..]);
    let units = vec![Unit { pos: Pos::new(1, 0), unit_type: UnitType::Pawn, jester_type: UnitType::Rook, team: Team::Ai }];
    let mut rng = SmallRng::seed_from_u64(11);
    for _ in 0..20 {
        assert_eq!(get_random_empty_tile(&mut rng, &map, &units), Some(Pos::new(8, 2)));
    }
    assert_eq!(get_random_empty_away_from_spawn(&mut rng, &map, &units, Pos::new(0, 0)), Some(Pos::new(8, 2)));
    assert_eq!(get_random_empty_away_from_spawn(&mut rng, &map, &units, Pos::new(7, 2)), None);
}
