use dungeon_chess::boardstate::{BoardState, Move};
use dungeon_chess::evaluation::Evaluation;
use dungeon_chess::tile::TileMap;
use dungeon_chess::unit::{Pos, Team, Unit, UnitType};
use dungeon_chess::utils::{dist, dist2};

fn unit(x: i32, y: i32, unit_type: UnitType, team: Team) -> Unit {
    Unit { pos: Pos::new(x, y), unit_type, jester_type: UnitType::Rook, team }
}

fn open_map(w: usize, h: usize) -> TileMap {
    let row = ".".repeat(w);
    let rows: Vec<&str> = (0..h).map(|_| row.as_str()).collect();
    TileMap::from_rows(&rows[..])
}

fn score_of(map: &TileMap, units: Vec<Unit>, stairs: Option<Pos>) -> i128 {
    Evaluation::from_gamestate(BoardState { tilemap: map, units, stairs }).evaluate()
}

#[test]
fn distances_in_thousandths() {
    assert_eq!(dist(&Pos::new(0, 0), &Pos::new(3, 4)), 5000);
    assert_eq!(dist(&Pos::new(0, 0), &Pos::new(1, 1)), 1414);
    assert_eq!(dist(&Pos::new(2, 2), &Pos::new(2, 2)), 0);
    assert_eq!(dist2(&Pos::new(-1, 0), &Pos::new(2, 4)), 25);
}

#[test]
fn evaluation_of_lone_king_is_zero() {
    let map = open_map(3, 3);
    assert_eq!(score_of(&map, vec![unit(0, 0, UnitType::King, Team::Player)], None), 0);
}

#[test]
fn evaluation_adds_ai_distance_to_player_king() {
    let map = open_map(5, 5);
    let units = vec![unit(0, 0, UnitType::King, Team::Player), unit(3, 4, UnitType::Pawn, Team::Ai)];
    assert_eq!(score_of(&map, units, None), -5000);
}

#[test]
fn evaluation_rewards_nearness_to_stairs() {
    let map = open_map(3, 3);
    let near = vec![unit(0, 2, UnitType::Pawn, Team::Player)];
    assert_eq!(score_of(&map, near, Some(Pos::new(0, 0))), -99_980_000);
    let on = vec![unit(0, 0, UnitType::Pawn, Team::Player)];
    assert_eq!(score_of(&map, on, Some(Pos::new(0, 0))), 900_030_000);
}

#[test]
fn extra_ai_pawn_lowers_evaluation() {
    let map = open_map(6, 6);
    let base = vec![unit(0, 0, UnitType::King, Team::Player), unit(5, 5, UnitType::Rook, Team::Ai)];
    let before = score_of(&map, base.clone(), Some(Pos::new(5, 0)));
    let mut more = base.clone();
    more.push(unit(1, 2, UnitType::Pawn, Team::Ai));
    assert!(score_of(&map, more, Some(Pos::new(5, 0))) < before);
}

#[test]
fn extra_player_rook_raises_evaluation() {
    let map = open_map(6, 6);
    let base = vec![unit(0, 0, UnitType::King, Team::Player), unit(5, 5, UnitType::Rook, Team::Ai)];
    let before = score_of(&map, base.clone(), Some(Pos::new(5, 0)));
    let mut more = base.clone();
    more.push(unit(3, 3, UnitType::Rook, Team::Player));
    assert!(score_of(&map, more, Some(Pos::new(5, 0))) > before);
}

#[test]
fn ai_takes_the_king() {
    let map = open_map(3, 3);
    let state = BoardState {
        tilemap: &map,
        units: vec![unit(0, 0, UnitType::King, Team::Player), unit(2, 0, UnitType::Rook, Team::Ai)],
        stairs: None,
    };
    let eval = Evaluation::from_gamestate(state);
    let (best, score) = eval.minimax(1, i128::MIN, i128::MAX, false);
    assert_eq!(best, Some(Move { from: Pos::new(2, 0), to: Pos::new(0, 0) }));
    assert_eq!(score, -100_040_000);
}

#[test]
fn leaf_reports_no_move() {
    let map = open_map(3, 3);
    let state = BoardState {
        tilemap: &map,
        units: vec![unit(0, 0, UnitType::King, Team::Player), unit(2, 2, UnitType::King, Team::Ai)],
        stairs: None,
    };
    let eval = Evaluation::from_gamestate(state);
    let (best, score) = eval.minimax(0, i128::MIN, i128::MAX, true);
    assert_eq!(best, None);
    assert_eq!(score, eval.evaluate() + 10_000);
    let (best_min, score_min) = eval.minimax(0, i128::MIN, i128::MAX, false);
    assert_eq!(best_min, None);
    assert_eq!(score_min, eval.evaluate() - 10_000);
}

#[test]
fn minimax_is_deterministic() {
    let map = TileMap::from_rows(&["......", "..##..", "......", "......"][..]);
    let state = BoardState {
        tilemap: &map,
        units: vec![
            unit(0, 0, UnitType::King, Team::Player),
            unit(1, 3, UnitType::Bishop, Team::Player),
            unit(5, 3, UnitType::Knight, Team::Ai),
            unit(4, 0, UnitType::Rook, Team::Ai),
        ],
        stairs: Some(Pos::new(5, 0)),
    };
    let eval = Evaluation::from_gamestate(state);
    let first = eval.minimax(3, i128::MIN, i128::MAX, false);
    let second = eval.minimax(3, i128::MIN, i128::MAX, false);
    assert_eq!(first, second);
    assert!(first.0.is_some());
    assert_eq!(eval.state.units.len(), 4);
}
