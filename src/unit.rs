use vstd::prelude::*;

verus! {

/// A square of the board.
#[derive(Clone, Copy, Debug, PartialEq, Eq, Hash, Structural)]
pub struct Pos {
    pub x: i32,
    pub y: i32,
}

impl Pos {
    pub fn new(x: i32, y: i32) -> (r: Pos)
        ensures
            r.x == x,
            r.y == y,
    {
        Pos { x, y }
    }
}

#[derive(Clone, Copy, Debug, PartialEq, Eq, Hash, Structural)]
pub enum Team {
    Player,
    Ai,
}

#[derive(Clone, Copy, Debug, PartialEq, Eq, Hash, Structural)]
pub enum UnitType {
    Pawn,
    Knight,
    King,
    Bishop,
    Jester,
    Rook,
    Queen,
    Archbishop,
}

/// A piece on the board. `jester_type` is the movement rule a Jester
/// currently borrows; it is never `Jester` itself.
#[derive(Clone, Copy, Debug, PartialEq, Eq, Hash, Structural)]
pub struct Unit {
    pub pos: Pos,
    pub unit_type: UnitType,
    pub jester_type: UnitType,
    pub team: Team,
}

/// The movement rule a Jester adopts when it captures `captured`.
pub open spec fn disguise_after_capture(captured: Unit) -> UnitType {
    if captured.unit_type == UnitType::Jester {
        captured.jester_type
    } else {
        captured.unit_type
    }
}

impl Unit {
    pub fn convert_jester(&mut self, captured_unit: Unit)
        requires
            captured_unit.unit_type == UnitType::Jester ==> captured_unit.jester_type
                != UnitType::Jester,
        ensures
            final(self).jester_type == disguise_after_capture(captured_unit),
            final(self).jester_type != UnitType::Jester,
            final(self).pos == old(self).pos,
            final(self).unit_type == old(self).unit_type,
            final(self).team == old(self).team,
    {
        self.jester_type = if captured_unit.unit_type == UnitType::Jester {
            captured_unit.jester_type
        } else {
            captured_unit.unit_type
        };
    }
}

pub fn is_enemy(unit: &Unit, other_unit: &Unit) -> (r: bool)
    ensures
        r == (unit.team != other_unit.team),
{
    unit.team != other_unit.team
}

/// Material the player earns for capturing an enemy of this kind.
pub open spec fn material_reward_spec(unit_type: UnitType) -> int {
    match unit_type {
        UnitType::Pawn => 1,
        UnitType::Knight => 3,
        UnitType::Bishop => 3,
        UnitType::Jester => 4,
        UnitType::Rook => 6,
        UnitType::Archbishop => 6,
        UnitType::Queen => 6,
        UnitType::King => 100,
    }
}

pub fn material_reward(unit_type: UnitType) -> (r: i32)
    ensures
        r == material_reward_spec(unit_type),
{
    match unit_type {
        UnitType::Pawn => 1,
        UnitType::Knight => 3,
        UnitType::Bishop => 3,
        UnitType::Jester => 4,
        UnitType::Rook => 6,
        UnitType::Archbishop => 6,
        UnitType::Queen => 6,
        UnitType::King => 100,
    }
}

/// Material it costs to buy a unit of this kind.
pub open spec fn unit_buy_price_spec(unit_type: UnitType) -> int {
    match unit_type {
        UnitType::Pawn => 1,
        UnitType::Knight => 3,
        UnitType::Bishop => 3,
        UnitType::Jester => 4,
        UnitType::Rook => 6,
        UnitType::Archbishop => 7,
        UnitType::Queen => 9,
        UnitType::King => 100,
    }
}

pub fn unit_buy_price(unit_type: UnitType) -> (r: i32)
    ensures
        r == unit_buy_price_spec(unit_type),
{
    match unit_type {
        UnitType::Pawn => 1,
        UnitType::Knight => 3,
        UnitType::Bishop => 3,
        UnitType::Jester => 4,
        UnitType::Rook => 6,
        UnitType::Archbishop => 7,
        UnitType::Queen => 9,
        UnitType::King => 100,
    }
}

/// The shop's one-line description of a kind.
pub open spec fn unit_description_spec(unit_type: UnitType) -> Seq<char> {
    match unit_type {
        UnitType::Pawn => "Moves one square in any direction, but not diagonally."@,
        UnitType::Knight => "Moves in L shape, can jump over pieces."@,
        UnitType::Bishop => "Moves any amount diagonally."@,
        UnitType::Jester => "Like a Rook, until it takes move style from captured piece."@,
        UnitType::Rook => "Moves any amount up, down, left or right."@,
        UnitType::Queen => "Moves like a Bishop and a Rook combined."@,
        UnitType::King => "Moves one square in any direction."@,
        UnitType::Archbishop => "Moves like a Knight and a Bishop combined."@,
    }
}

pub fn unit_description(unit_type: UnitType) -> (r: &'static str)
    ensures
        r@ == unit_description_spec(unit_type),
{
    match unit_type {
        UnitType::Pawn => "Moves one square in any direction, but not diagonally.",
        UnitType::Knight => "Moves in L shape, can jump over pieces.",
        UnitType::Bishop => "Moves any amount diagonally.",
        UnitType::Jester => "Like a Rook, until it takes move style from captured piece.",
        UnitType::Rook => "Moves any amount up, down, left or right.",
        UnitType::Queen => "Moves like a Bishop and a Rook combined.",
        UnitType::King => "Moves one square in any direction.",
        UnitType::Archbishop => "Moves like a Knight and a Bishop combined.",
    }
}

} // verus!
