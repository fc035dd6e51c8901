use vstd::prelude::*;
use rand::rngs::SmallRng;
use crate::random::gen_range;
use crate::boardstate::occupied_in;
use crate::tile::{Tile, TileMap};
use crate::unit::{Pos, Unit, UnitType, unit_buy_price, unit_buy_price_spec};
use crate::utils::{dist2, sq_dist};

verus! {

/// The floor whose enemies include their King, guarding the stairs.
pub const LAST_FLOOR: usize = 12;

/// The kinds the enemy may field on `floor`.
pub open spec fn enemy_kinds(floor: int) -> Seq<UnitType> {
    if floor <= 2 {
        seq![UnitType::Pawn]
    } else if floor <= 4 {
        seq![UnitType::Pawn, UnitType::Knight, UnitType::Bishop]
    } else if floor <= 6 {
        seq![UnitType::Pawn, UnitType::Knight, UnitType::Bishop, UnitType::Archbishop]
    } else {
        seq![UnitType::Pawn, UnitType::Knight, UnitType::Bishop, UnitType::Jester, UnitType::Rook]
    }
}

/// The material the enemy spends on `floor`.
pub open spec fn enemy_budget(floor: int) -> int {
    1 + 2 * floor
}

pub open spec fn price_sum(kinds: Seq<UnitType>) -> int
    decreases kinds.len(),
{
    if kinds.len() == 0 {
        0
    } else {
        price_sum(kinds.drop_last()) + unit_buy_price_spec(kinds.last())
    }
}

fn enemy_kinds_exec(floor: usize) -> (r: Vec<UnitType>)
    ensures
        r@ == enemy_kinds(floor as int),
{
    let mut v: Vec<UnitType> = Vec::new();
    v.push(UnitType::Pawn);
    if floor <= 2 {
    } else if floor <= 4 {
        v.push(UnitType::Knight);
        v.push(UnitType::Bishop);
    } else if floor <= 6 {
        v.push(UnitType::Knight);
        v.push(UnitType::Bishop);
        v.push(UnitType::Archbishop);
    } else {
        v.push(UnitType::Knight);
        v.push(UnitType::Bishop);
        v.push(UnitType::Jester);
        v.push(UnitType::Rook);
    }
    assert(v@ =~= enemy_kinds(floor as int));
    v
}

/// The enemies of `floor`, bought at random from the floor's kinds until
/// the floor's budget is spent exactly; on the last floor their King is
/// added at the end.
pub fn enemy_roster(rng: &mut SmallRng, floor: usize) -> (r: Vec<UnitType>)
    requires
        floor <= 1_000_000,
    ensures
        ({
            let bought = if floor == LAST_FLOOR {
                r@.drop_last()
            } else {
                r@
            };
            &&& price_sum(bought) == enemy_budget(floor as int)
            &&& forall|i: int|
                0 <= i < bought.len() ==> enemy_kinds(floor as int).contains(#[trigger] bought[i])
            &&& floor == LAST_FLOOR ==> r@.len() > 0 && r@.last() == UnitType::King
        }),
{
    let unit_list = enemy_kinds_exec(floor);
    let mut enemy_material: i32 = 1 + 2 * floor as i32;
    let mut enemy_units: Vec<UnitType> = Vec::new();
    while enemy_material > 0
        invariant
            unit_list@ == enemy_kinds(floor as int),
            floor <= 1_000_000,
            0 <= enemy_material,
            enemy_material + price_sum(enemy_units@) == enemy_budget(floor as int),
            forall|i: int|
                0 <= i < enemy_units@.len() ==> enemy_kinds(floor as int).contains(
                    #[trigger] enemy_units@[i],
                ),
        decreases enemy_material,
    {
        let mut available: Vec<UnitType> = Vec::new();
        let mut k: usize = 0;
        while k < unit_list.len()
            invariant
                unit_list@ == enemy_kinds(floor as int),
                k <= unit_list@.len(),
                forall|i: int|
                    0 <= i < available@.len() ==> enemy_kinds(floor as int).contains(
                        #[trigger] available@[i],
                    ) && unit_buy_price_spec(available@[i]) <= enemy_material,
                k > 0 && enemy_material >= 1 ==> available@.len() > 0,
                available@.len() <= k,
            decreases unit_list@.len() - k,
        {
            if enemy_material >= unit_buy_price(unit_list[k]) {
                available.push(unit_list[k]);
            }
            k += 1;
        }
        assert(enemy_kinds(floor as int)[0] == UnitType::Pawn);
        let index = gen_range(rng, 0, available.len() as i32) as usize;
        let unit = available[index];
        enemy_material = enemy_material - unit_buy_price(unit);
        let ghost before = enemy_units@;
        enemy_units.push(unit);
        assert(enemy_units@.drop_last() == before);
    }
    if floor == LAST_FLOOR {
        let ghost bought = enemy_units@;
        enemy_units.push(UnitType::King);
        assert(enemy_units@.drop_last() == bought);
    }
    enemy_units
}

/// Enemies are placed farther than this many squares from the player's start.
pub const SPAWN_CLEARANCE: i128 = 4;

/// Whether `p` holds floor and no unit of `units` stands on it.
pub fn is_free_floor(map: &TileMap, units: &Vec<Unit>, p: Pos) -> (r: bool)
    requires
        map.wf(),
    ensures
        r == (map.tile_at(p.x as int, p.y as int) == Some(Tile::Floor) && !occupied_in(
            units@,
            p.x as int,
            p.y as int,
        )),
{
    match map.get(p) {
        Some(Tile::Floor) => {},
        _ => {
            return false;
        },
    }
    let mut i: usize = 0;
    while i < units.len()
        invariant
            i <= units@.len(),
            forall|j: int| 0 <= j < i ==> (#[trigger] units@[j]).pos != p,
        decreases units@.len() - i,
    {
        if units[i].pos == p {
            assert(units@[i as int].pos.x == p.x && units@[i as int].pos.y == p.y);
            return false;
        }
        i += 1;
    }
    assert(!occupied_in(units@, p.x as int, p.y as int)) by {
        if occupied_in(units@, p.x as int, p.y as int) {
            let j = choose|j: int|
                0 <= j < units@.len() && units@[j].pos.x == p.x && units@[j].pos.y == p.y;
            assert(units@[j].pos == p);
        }
    }
    true
}

/// Whether `p` lies farther than `SPAWN_CLEARANCE` squares from `spawn`.
pub fn far_from_spawn(p: Pos, spawn: Pos) -> (r: bool)
    ensures
        r == (sq_dist(p, spawn) > SPAWN_CLEARANCE * SPAWN_CLEARANCE),
{
    dist2(&p, &spawn) > SPAWN_CLEARANCE * SPAWN_CLEARANCE
}

/// Up to two hundred random squares of the grid, until one is free floor.
pub fn get_random_empty_tile(rng: &mut SmallRng, map: &TileMap, units: &Vec<Unit>) -> (r: Option<
    Pos,
>)
    requires
        map.wf(),
        map.spec_width() > 0,
        map.spec_height() > 0,
    ensures
        r matches Some(p) ==> map.tile_at(p.x as int, p.y as int) == Some(Tile::Floor)
            && !occupied_in(units@, p.x as int, p.y as int),
{
    proof {
        map.lemma_dims();
    }
    let w = map.get_width() as i32;
    let h = map.get_height() as i32;
    let mut i: usize = 0;
    while i < 200
        invariant
            map.wf(),
            w > 0,
            h > 0,
        decreases 200 - i,
    {
        let x = gen_range(rng, 0, w);
        let y = gen_range(rng, 0, h);
        let pos = Pos { x, y };
        if is_free_floor(map, units, pos) {
            return Some(pos);
        }
        i += 1;
    }
    None
}

/// Up to a hundred free floor squares drawn by `get_random_empty_tile`,
/// until one lies far enough from `spawn_pos`.
pub fn get_random_empty_away_from_spawn(
    rng: &mut SmallRng,
    map: &TileMap,
    units: &Vec<Unit>,
    spawn_pos: Pos,
) -> (r: Option<Pos>)
    requires
        map.wf(),
        map.spec_width() > 0,
        map.spec_height() > 0,
    ensures
        r matches Some(p) ==> {
            &&& map.tile_at(p.x as int, p.y as int) == Some(Tile::Floor)
            &&& !occupied_in(units@, p.x as int, p.y as int)
            &&& sq_dist(p, spawn_pos) > SPAWN_CLEARANCE * SPAWN_CLEARANCE
        },
{
    let mut i: usize = 0;
    while i < 100
        invariant
            map.wf(),
            map.spec_width() > 0,
            map.spec_height() > 0,
        decreases 100 - i,
    {
        match get_random_empty_tile(rng, map, units) {
            Some(pos) => {
                if far_from_spawn(pos, spawn_pos) {
                    return Some(pos);
                }
            },
            None => {},
        }
        i += 1;
    }
    None
}

} // verus!
