use dungeon_chess::boardstate::{BoardState, Move};
use dungeon_chess::evaluation::Evaluation;
use dungeon_chess::tile::TileMap;
use dungeon_chess::unit::{Pos, Team, Unit, UnitType};

fn unit(x: i32, y: i32, unit_type: UnitType, team: Team) -> Unit {
    Unit { pos: Pos::new(x, y), unit_type, jester_type: UnitType::Rook, team }
}

fn plan_map() -> TileMap {
    let map_plan = ["..#####", "##..##.", "##...#.", ".......", "##...##", "##...#.", "##...#."];
    TileMap::from_rows(&map_plan[..])
}

fn open_map(w: usize, h: usize) -> TileMap {
    let row = ".".repeat(w);
    let rows: Vec<&str> = (0..h).map(|_| row.as_str()).collect();
    TileMap::from_rows(&rows[..])
}

fn mv(fx: i32, fy: i32, tx: i32, ty: i32) -> Move {
    Move { from: Pos::new(fx, fy), to: Pos::new(tx, ty) }
}

#[test]
fn test() {
    let map = plan_map();
    let mut gamestate = BoardState { tilemap: &map, units: vec![], stairs: None };
    gamestate.units.push(unit(3, 2, UnitType::Pawn, Team::Player));
    gamestate.units.push(unit(2, 3, UnitType::Knight, Team::Ai));
    gamestate.units.push(unit(3, 3, UnitType::Knight, Team::Ai));

    let eval = Evaluation::from_gamestate(gamestate);

    let mut eval2 = eval.shallow_clone();
    eval2.state.make_move(&mv(3, 2, 3, 3));

    assert_eq!(eval.state.units.get(0).unwrap().pos, Pos::new(3, 2));
    assert_eq!(eval2.state.units.get(0).unwrap().pos, Pos::new(3, 3));

    assert_eq!(eval.state.units.len(), 3);
    assert_eq!(eval2.state.units.len(), 2);
}

#[test]
fn pawn_moves_on_plan_map() {
    let map = plan_map();
    let state = BoardState {
        tilemap: &map,
        units: vec![
            unit(3, 2, UnitType::Pawn, Team::Player),
            unit(2, 3, UnitType::Knight, Team::Ai),
            unit(3, 3, UnitType::Knight, Team::Ai),
        ],
        stairs: None,
    };
    let pawn = state.units[0];
    let moves = state.get_valid_moves_for_unit(&pawn);
    assert_eq!(moves, vec![mv(3, 2, 3, 1), mv(3, 2, 3, 3), mv(3, 2, 2, 2), mv(3, 2, 4, 2)]);
    let mut after = state.shallow_clone();
    after.make_move(&mv(3, 2, 3, 3));
    assert_eq!(after.units.len(), 2);
    assert!(after.get_unit_at(&Pos::new(3, 3)).unwrap().team == Team::Player);
    assert!(after.get_unit_at(&Pos::new(3, 2)).is_none());
}

#[test]
fn quiet_move_keeps_unit_count() {
    let map = open_map(5, 5);
    let mut state = BoardState {
        tilemap: &map,
        units: vec![unit(0, 0, UnitType::King, Team::Player), unit(4, 4, UnitType::King, Team::Ai)],
        stairs: None,
    };
    let m = state.get_valid_moves(Team::Player)[0];
    state.make_move(&m);
    assert_eq!(state.units.len(), 2);
}

#[test]
fn is_valid_rules() {
    let map = plan_map();
    let state = BoardState {
        tilemap: &map,
        units: vec![
            unit(3, 2, UnitType::Pawn, Team::Player),
            unit(3, 1, UnitType::Pawn, Team::Player),
            unit(3, 3, UnitType::Knight, Team::Ai),
        ],
        stairs: None,
    };
    assert!(!state.is_valid(&mv(3, 2, 3, 1)));
    assert!(state.is_valid(&mv(3, 2, 3, 3)));
    assert!(!state.is_valid(&mv(3, 2, 5, 2)));
    assert!(!state.is_valid(&mv(3, 2, -1, 2)));
    assert!(!state.is_valid(&mv(4, 4, 4, 5)));
}

#[test]
fn rook_ray_stops_at_first_unit() {
    let map = open_map(7, 1);
    let state = BoardState {
        tilemap: &map,
        units: vec![
            unit(0, 0, UnitType::Rook, Team::Player),
            unit(3, 0, UnitType::Pawn, Team::Ai),
            unit(5, 0, UnitType::Pawn, Team::Ai),
        ],
        stairs: None,
    };
    let rook = state.units[0];
    let moves = state.get_valid_moves_for_unit(&rook);
    assert_eq!(moves, vec![mv(0, 0, 1, 0), mv(0, 0, 2, 0), mv(0, 0, 3, 0)]);
}

#[test]
fn bishop_ray_stops_before_ally_and_wall() {
    let map = TileMap::from_rows(&["....", "....", "..#.", "...."][..]);
    let state = BoardState {
        tilemap: &map,
        units: vec![unit(0, 0, UnitType::Bishop, Team::Player), unit(3, 0, UnitType::Bishop, Team::Player)],
        stairs: None,
    };
    let bishop = state.units[0];
    assert_eq!(state.get_valid_moves_for_unit(&bishop), vec![mv(0, 0, 1, 1)]);
    let other = state.units[1];
    assert_eq!(state.get_valid_moves_for_unit(&other), vec![mv(3, 0, 2, 1), mv(3, 0, 1, 2), mv(3, 0, 0, 3)]);
}

#[test]
fn queen_is_bishop_then_rook() {
    let map = open_map(3, 3);
    let state = BoardState {
        tilemap: &map,
        units: vec![unit(1, 1, UnitType::Queen, Team::Player)],
        stairs: None,
    };
    let q = state.units[0];
    let moves = state.get_valid_moves_for_unit(&q);
    assert_eq!(
        moves,
        vec![
            mv(1, 1, 0, 0),
            mv(1, 1, 2, 0),
            mv(1, 1, 0, 2),
            mv(1, 1, 2, 2),
            mv(1, 1, 1, 0),
            mv(1, 1, 1, 2),
            mv(1, 1, 0, 1),
            mv(1, 1, 2, 1),
        ]
    );
}

#[test]
fn knight_and_archbishop_moves() {
    let map = open_map(3, 3);
    let state = BoardState {
        tilemap: &map,
        units: vec![unit(0, 0, UnitType::Archbishop, Team::Player)],
        stairs: None,
    };
    let a = state.units[0];
    assert_eq!(state.get_valid_moves_for_unit(&a), vec![mv(0, 0, 1, 1), mv(0, 0, 2, 2), mv(0, 0, 1, 2), mv(0, 0, 2, 1)]);
    let k = Unit { unit_type: UnitType::Knight, ..a };
    let state2 = BoardState { tilemap: &map, units: vec![k], stairs: None };
    assert_eq!(state2.get_valid_moves_for_unit(&k), vec![mv(0, 0, 1, 2), mv(0, 0, 2, 1)]);
}

#[test]
fn jester_moves_like_rook_then_like_captured() {
    let map = open_map(5, 5);
    let jester = unit(0, 0, UnitType::Jester, Team::Player);
    let rook = Unit { unit_type: UnitType::Rook, ..jester };
    let state = BoardState {
        tilemap: &map,
        units: vec![jester, unit(0, 2, UnitType::Knight, Team::Ai)],
        stairs: None,
    };
    let rook_state = BoardState {
        tilemap: &map,
        units: vec![rook, unit(0, 2, UnitType::Knight, Team::Ai)],
        stairs: None,
    };
    assert_eq!(state.get_valid_moves_for_unit(&jester), rook_state.get_valid_moves_for_unit(&rook));
    assert_eq!(state.get_valid_moves_for_unit(&jester), state.get_valid_moves_for_unit(&rook));

    let mut after = state.shallow_clone();
    after.make_move(&mv(0, 0, 0, 2));
    let j2 = *after.get_unit_at(&Pos::new(0, 2)).unwrap();
    assert_eq!(j2.unit_type, UnitType::Jester);
    assert_eq!(j2.jester_type, UnitType::Knight);
    let knight = Unit { unit_type: UnitType::Knight, ..j2 };
    let knight_state = BoardState { tilemap: &map, units: vec![knight], stairs: None };
    assert_eq!(after.get_valid_moves_for_unit(&j2), knight_state.get_valid_moves_for_unit(&knight));
    assert_eq!(after.get_valid_moves_for_unit(&j2), after.get_valid_moves_for_unit(&knight));
    let stranger = unit(4, 4, UnitType::Queen, Team::Ai);
    assert!(after.get_valid_moves_for_unit(&stranger).is_empty());
}

#[test]
fn jester_capturing_jester_takes_its_disguise() {
    let map = open_map(3, 1);
    let mut state = BoardState {
        tilemap: &map,
        units: vec![
            unit(0, 0, UnitType::Jester, Team::Player),
            Unit { jester_type: UnitType::Bishop, ..unit(1, 0, UnitType::Jester, Team::Ai) },
        ],
        stairs: None,
    };
    state.make_move(&mv(0, 0, 1, 0));
    assert_eq!(state.units.len(), 1);
    assert_eq!(state.units[0].jester_type, UnitType::Bishop);
}

#[test]
fn king_boxed_by_enemies_can_capture() {
    let map = open_map(5, 5);
    let mut units = vec![unit(2, 2, UnitType::King, Team::Player)];
    for (x, y) in [(1, 1), (2, 1), (3, 1), (1, 2), (3, 2), (1, 3), (2, 3), (3, 3)] {
        units.push(unit(x, y, UnitType::King, Team::Ai));
    }
    let mut state = BoardState { tilemap: &map, units, stairs: None };
    assert!(!state.is_end());
    let map2 = TileMap::from_rows(&["#####", "#...#", "#...#", "#...#", "#####"][..]);
    state.tilemap = &map2;
    let player_moves = state.get_valid_moves(Team::Player);
    assert_eq!(player_moves.len(), 8);
    let lone = BoardState {
        tilemap: &map2,
        units: vec![unit(1, 1, UnitType::Pawn, Team::Player), unit(3, 3, UnitType::Pawn, Team::Ai)],
        stairs: None,
    };
    assert!(!lone.is_end());
    let stuck = BoardState {
        tilemap: &map2,
        units: vec![
            unit(1, 1, UnitType::Pawn, Team::Player),
            unit(2, 1, UnitType::Pawn, Team::Player),
            unit(1, 2, UnitType::Pawn, Team::Player),
            unit(3, 3, UnitType::King, Team::Ai),
        ],
        stairs: None,
    };
    let corner = stuck.units[0];
    assert!(stuck.get_valid_moves_for_unit(&corner).is_empty());
    assert!(!stuck.is_end());
}

#[test]
fn team_without_moves_ends_game() {
    let map = TileMap::from_rows(&["#####", "#...#", "#...#", "#...#", "#####"][..]);
    let mut units = vec![unit(2, 2, UnitType::King, Team::Player)];
    for (x, y) in [(1, 1), (2, 1), (3, 1), (1, 2), (3, 2), (1, 3), (2, 3), (3, 3)] {
        units.push(unit(x, y, UnitType::Pawn, Team::Player));
    }
    units.push(unit(0, 0, UnitType::King, Team::Ai));
    let state = BoardState { tilemap: &map, units, stairs: None };
    assert!(state.get_valid_moves(Team::Player).is_empty());
    assert!(state.is_end());
}

#[test]
fn open_board_is_not_terminal() {
    let map = open_map(6, 6);
    let state = BoardState {
        tilemap: &map,
        units: vec![unit(0, 0, UnitType::King, Team::Player), unit(5, 5, UnitType::King, Team::Ai)],
        stairs: None,
    };
    assert!(!state.is_end());
    assert_eq!(state.get_valid_moves(Team::Player).len(), 3);
    assert_eq!(state.get_valid_moves(Team::Ai).len(), 3);
}

#[test]
fn on_stairs_needs_player_unit() {
    let map = open_map(3, 3);
    let mut state = BoardState {
        tilemap: &map,
        units: vec![unit(1, 1, UnitType::Pawn, Team::Ai)],
        stairs: Some(Pos::new(1, 1)),
    };
    assert!(!state.is_on_stairs());
    state.units.push(unit(0, 0, UnitType::Pawn, Team::Player));
    state.stairs = Some(Pos::new(0, 0));
    assert!(state.is_on_stairs());
    state.stairs = None;
    assert!(!state.is_on_stairs());
}

#[test]
fn mutable_unit_lookup() {
    let map = open_map(3, 3);
    let mut state = BoardState {
        tilemap: &map,
        units: vec![unit(0, 0, UnitType::Pawn, Team::Player), unit(2, 2, UnitType::Rook, Team::Ai)],
        stairs: None,
    };
    assert!(state.get_mut_unit_at(&Pos::new(1, 1)).is_none());
    if let Some(u) = state.get_mut_unit_at(&Pos::new(2, 2)) {
        u.pos = Pos::new(2, 1);
    }
    assert_eq!(state.units[1].pos, Pos::new(2, 1));
    assert_eq!(state.get_unit_at(&Pos::new(2, 1)).unwrap().unit_type, UnitType::Rook);
}
