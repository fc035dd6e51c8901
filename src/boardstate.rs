use vstd::prelude::*;
use crate::tile::TileMap;
use crate::unit::{Pos, Team, Unit, UnitType, disguise_after_capture, is_enemy};

verus! {

pub open spec fn on_stairs_in(units: Seq<Unit>, stairs: Option<Pos>) -> bool {
    match stairs {
        Some(p) => exists|i: int|
            0 <= i < units.len() && (#[trigger] units[i]).team == Team::Player && units[i].pos
                == p,
        None => false,
    }
}

/// The movement rule a unit follows: its own, or for a Jester its disguise.
pub open spec fn rule_of(unit: Unit) -> UnitType {
    if unit.unit_type == UnitType::Jester {
        unit.jester_type
    } else {
        unit.unit_type
    }
}

/// A step of one unit from `from` to `to`.
#[derive(Clone, Copy, Debug, PartialEq, Eq, Structural)]
pub struct Move {
    pub from: Pos,
    pub to: Pos,
}

/// Who stands where, on which grid. Clones share the grid and copy the units.
pub struct BoardState<'a> {
    pub tilemap: &'a TileMap,
    pub units: Vec<Unit>,
    pub stairs: Option<Pos>,
}

/// Whether some unit of `units` stands on `(x, y)`.
pub open spec fn occupied_in(units: Seq<Unit>, x: int, y: int) -> bool {
    exists|i: int| 0 <= i < units.len() && units[i].pos.x == x && units[i].pos.y == y
}

/// The index of the unit of `units` standing on `(x, y)`.
pub open spec fn index_in(units: Seq<Unit>, x: int, y: int) -> int
    recommends
        occupied_in(units, x, y),
{
    choose|i: int| 0 <= i < units.len() && units[i].pos.x == x && units[i].pos.y == y
}

/// No two units share a square.
pub open spec fn distinct_positions(units: Seq<Unit>) -> bool {
    forall|i: int, j: int|
        0 <= i < units.len() && 0 <= j < units.len() && i != j ==> units[i].pos != units[j].pos
}

pub open spec fn unit_in(units: Seq<Unit>, x: int, y: int) -> Option<Unit> {
    if occupied_in(units, x, y) {
        Some(units[index_in(units, x, y)])
    } else {
        None
    }
}

/// The units left after the unit on `to` (if any) is swapped out and
/// the unit on `from` has stepped to `to`, a Jester taking the captured
/// unit's movement rule.
pub open spec fn units_after(units: Seq<Unit>, m: Move) -> Seq<Unit> {
    let captured = unit_in(units, m.to.x as int, m.to.y as int);
    let rest = if occupied_in(units, m.to.x as int, m.to.y as int) {
        let i = index_in(units, m.to.x as int, m.to.y as int);
        units.update(i, units.last()).drop_last()
    } else {
        units
    };
    if occupied_in(rest, m.from.x as int, m.from.y as int) {
        let j = index_in(rest, m.from.x as int, m.from.y as int);
        let u = rest[j];
        let jester_type = match captured {
            Some(c) => if u.unit_type == UnitType::Jester {
                disguise_after_capture(c)
            } else {
                u.jester_type
            },
            None => u.jester_type,
        };
        rest.update(j, Unit { pos: m.to, jester_type, ..u })
    } else {
        rest
    }
}


/// One-square steps of a Pawn: the four orthogonal neighbours.
pub open spec fn pawn_deltas() -> Seq<(i64, i64)> {
    seq![(0i64, -1i64), (0i64, 1i64), (-1i64, 0i64), (1i64, 0i64)]
}

/// One-square steps of a King: all eight neighbours.
pub open spec fn king_deltas() -> Seq<(i64, i64)> {
    seq![(0i64, -1i64), (0i64, 1i64), (-1i64, 0i64), (1i64, 0i64), (-1i64, -1i64), (1i64, 1i64), (-1i64, 1i64), (1i64, -1i64)]
}

/// The eight L-shaped jumps of a Knight.
pub open spec fn knight_deltas() -> Seq<(i64, i64)> {
    seq![(-2i64, -1i64), (-1i64, -2i64), (1i64, -2i64), (2i64, -1i64), (-2i64, 1i64), (-1i64, 2i64), (1i64, 2i64), (2i64, 1i64)]
}

/// The four diagonal rays.
pub open spec fn diagonals() -> Seq<(i64, i64)> {
    seq![(-1i64, -1i64), (1i64, -1i64), (-1i64, 1i64), (1i64, 1i64)]
}

/// The four orthogonal rays.
pub open spec fn cardinals() -> Seq<(i64, i64)> {
    seq![(0i64, -1i64), (0i64, 1i64), (-1i64, 0i64), (1i64, 0i64)]
}

/// How far a ray is followed at most.
pub const RAY_LENGTH: i64 = 20;

pub open spec fn move_to(from: Pos, x: int, y: int) -> Move {
    Move { from, to: Pos { x: x as i32, y: y as i32 } }
}

fn pawn_deltas_exec() -> (r: Vec<(i64, i64)>)
    ensures
        r@ == pawn_deltas(),
{
    let mut v: Vec<(i64, i64)> = Vec::new();
    v.push((0, -1));
    v.push((0, 1));
    v.push((-1, 0));
    v.push((1, 0));
    assert(v@ =~= pawn_deltas());
    v
}

fn king_deltas_exec() -> (r: Vec<(i64, i64)>)
    ensures
        r@ == king_deltas(),
{
    let mut v: Vec<(i64, i64)> = Vec::new();
    v.push((0, -1));
    v.push((0, 1));
    v.push((-1, 0));
    v.push((1, 0));
    v.push((-1, -1));
    v.push((1, 1));
    v.push((-1, 1));
    v.push((1, -1));
    assert(v@ =~= king_deltas());
    v
}

fn knight_deltas_exec() -> (r: Vec<(i64, i64)>)
    ensures
        r@ == knight_deltas(),
{
    let mut v: Vec<(i64, i64)> = Vec::new();
    v.push((-2, -1));
    v.push((-1, -2));
    v.push((1, -2));
    v.push((2, -1));
    v.push((-2, 1));
    v.push((-1, 2));
    v.push((1, 2));
    v.push((2, 1));
    assert(v@ =~= knight_deltas());
    v
}

fn diagonals_exec() -> (r: Vec<(i64, i64)>)
    ensures
        r@ == diagonals(),
{
    let mut v: Vec<(i64, i64)> = Vec::new();
    v.push((-1, -1));
    v.push((1, -1));
    v.push((-1, 1));
    v.push((1, 1));
    assert(v@ =~= diagonals());
    v
}

fn cardinals_exec() -> (r: Vec<(i64, i64)>)
    ensures
        r@ == cardinals(),
{
    let mut v: Vec<(i64, i64)> = Vec::new();
    v.push((0, -1));
    v.push((0, 1));
    v.push((-1, 0));
    v.push((1, 0));
    assert(v@ =~= cardinals());
    v
}

pub open spec fn small_deltas(ds: Seq<(i64, i64)>) -> bool {
    forall|i: int|
        0 <= i < ds.len() ==> -2 <= (#[trigger] ds[i]).0 <= 2 && -2 <= ds[i].1 <= 2
}

proof fn lemma_index_unique(units: Seq<Unit>, i: int)
    requires
        distinct_positions(units),
        0 <= i < units.len(),
    ensures
        occupied_in(units, units[i].pos.x as int, units[i].pos.y as int),
        index_in(units, units[i].pos.x as int, units[i].pos.y as int) == i,
{
    let x = units[i].pos.x as int;
    let y = units[i].pos.y as int;
    assert(units[i].pos.x == x && units[i].pos.y == y);
    let j = index_in(units, x, y);
    assert(units[j].pos == units[i].pos);
}


proof fn lemma_swap_remove(units: Seq<Unit>, i: int)
    requires
        distinct_positions(units),
        0 <= i < units.len(),
    ensures
        ({
            let rest = units.update(i, units.last()).drop_last();
            &&& rest.len() == units.len() - 1
            &&& distinct_positions(rest)
            &&& forall|k: int|
                #![trigger rest[k]]
                0 <= k < rest.len() ==> rest[k] == units[if k == i {
                    units.len() - 1
                } else {
                    k
                }]
            &&& forall|x: int, y: int|
                !(x == units[i].pos.x && y == units[i].pos.y) ==> (occupied_in(rest, x, y)
                    <==> occupied_in(units, x, y))
            &&& !occupied_in(rest, units[i].pos.x as int, units[i].pos.y as int)
        }),
{
    let rest = units.update(i, units.last()).drop_last();
    let n = units.len();
    assert forall|x: int, y: int|
        !(x == units[i].pos.x && y == units[i].pos.y) implies (occupied_in(rest, x, y)
            <==> occupied_in(units, x, y)) by {
        if occupied_in(units, x, y) {
            let j = choose|j: int| 0 <= j < n && units[j].pos.x == x && units[j].pos.y == y;
            if j == n - 1 {
                assert(rest[i].pos.x == x && rest[i].pos.y == y);
            } else {
                assert(rest[j].pos.x == x && rest[j].pos.y == y);
            }
        }
        if occupied_in(rest, x, y) {
            let k = choose|k: int|
                0 <= k < rest.len() && rest[k].pos.x == x && rest[k].pos.y == y;
            if k == i {
                assert(units[n - 1].pos.x == x && units[n - 1].pos.y == y);
            } else {
                assert(units[k].pos.x == x && units[k].pos.y == y);
            }
        }
    }
    if occupied_in(rest, units[i].pos.x as int, units[i].pos.y as int) {
        let k = choose|k: int|
            0 <= k < rest.len() && rest[k].pos.x == units[i].pos.x && rest[k].pos.y
                == units[i].pos.y;
        if k == i {
            assert(units[n - 1].pos == units[i].pos);
        } else {
            assert(units[k].pos == units[i].pos);
        }
    }
}

/// What a board is, as mathematics: its grid, its units in order and the
/// square of its stairs.
pub ghost struct BoardModel {
    pub grid: TileMap,
    pub units: Seq<Unit>,
    pub stairs: Option<Pos>,
}

impl<'a> View for BoardState<'a> {
    type V = BoardModel;

    open spec fn view(&self) -> BoardModel {
        BoardModel { grid: *self.tilemap, units: self.units@, stairs: self.stairs }
    }
}

impl BoardModel {
    pub open spec fn wf(&self) -> bool {
        &&& self.grid.wf()
        &&& distinct_positions(self.units)
        &&& forall|i: int|
            #![trigger self.units[i]]
            0 <= i < self.units.len() ==> {
                &&& self.grid.inside(self.units[i].pos.x as int, self.units[i].pos.y as int)
                &&& self.units[i].jester_type != UnitType::Jester
            }
    }

    pub open spec fn occupied(&self, x: int, y: int) -> bool {
        occupied_in(self.units, x, y)
    }

    pub open spec fn unit_at(&self, x: int, y: int) -> Option<Unit> {
        unit_in(self.units, x, y)
    }

    /// Whether a unit of `team` may end its move on `(x, y)`: the tile is
    /// passable and holds no unit of the same team.
    pub open spec fn target_ok(&self, team: Team, x: int, y: int) -> bool {
        &&& self.grid.passable_at(x, y)
        &&& (self.unit_at(x, y) matches Some(o) ==> o.team != team)
    }

    pub open spec fn legal(&self, m: Move) -> bool {
        match self.unit_at(m.from.x as int, m.from.y as int) {
            Some(u) => self.target_ok(u.team, m.to.x as int, m.to.y as int),
            None => false,
        }
    }


    /// The single-step moves of a unit of `team` on `from`, one per delta
    /// whose target it may enter, in the order of `ds`.
    pub open spec fn step_moves(&self, from: Pos, team: Team, ds: Seq<(i64, i64)>) -> Seq<Move>
        decreases ds.len(),
    {
        if ds.len() == 0 {
            seq![]
        } else {
            let d = ds.last();
            let rest = self.step_moves(from, team, ds.drop_last());
            if self.target_ok(team, from.x + d.0, from.y + d.1) {
                rest.push(move_to(from, from.x + d.0, from.y + d.1))
            } else {
                rest
            }
        }
    }

    /// The moves along direction `(dx, dy)` from step `k` on: the ray goes
    /// on while the target can be entered, ends after the first occupied
    /// target, and goes at most `RAY_LENGTH` steps.
    pub open spec fn ray(&self, from: Pos, team: Team, dx: int, dy: int, k: int) -> Seq<Move>
        decreases RAY_LENGTH + 1 - k,
    {
        if k < 1 || k > RAY_LENGTH {
            seq![]
        } else {
            let x = from.x + dx * k;
            let y = from.y + dy * k;
            if !self.target_ok(team, x, y) {
                seq![]
            } else if self.occupied(x, y) {
                seq![move_to(from, x, y)]
            } else {
                seq![move_to(from, x, y)] + self.ray(from, team, dx, dy, k + 1)
            }
        }
    }

    /// The rays of all directions of `dirs`, one after the other.
    pub open spec fn slide(&self, from: Pos, team: Team, dirs: Seq<(i64, i64)>) -> Seq<Move>
        decreases dirs.len(),
    {
        if dirs.len() == 0 {
            seq![]
        } else {
            let d = dirs.last();
            self.slide(from, team, dirs.drop_last()) + self.ray(from, team, d.0 as int, d.1 as int, 1)
        }
    }

    /// The moves of the movement rule `kind` for a unit of `team` on `from`.
    pub open spec fn rule_moves(&self, from: Pos, team: Team, kind: UnitType) -> Seq<Move> {
        match kind {
            UnitType::Pawn => self.step_moves(from, team, pawn_deltas()),
            UnitType::Knight => self.step_moves(from, team, knight_deltas()),
            UnitType::King => self.step_moves(from, team, king_deltas()),
            UnitType::Bishop => self.slide(from, team, diagonals()),
            UnitType::Rook => self.slide(from, team, cardinals()),
            UnitType::Queen => self.slide(from, team, diagonals()) + self.slide(from, team, cardinals()),
            UnitType::Archbishop => self.slide(from, team, diagonals()) + self.step_moves(from, team, knight_deltas()),
            UnitType::Jester => seq![],
        }
    }

    /// The moves of a unit of the board, by the rule it follows.
    pub open spec fn moves_for(&self, unit: Unit) -> Seq<Move> {
        self.rule_moves(unit.pos, unit.team, rule_of(unit))
    }

    /// The moves of the first `n` units that belong to `team`, unit by unit.
    pub open spec fn team_moves_upto(&self, team: Team, n: int) -> Seq<Move>
        decreases n,
    {
        if n <= 0 {
            seq![]
        } else {
            let u = self.units[n - 1];
            self.team_moves_upto(team, n - 1) + if u.team == team {
                self.moves_for(u)
            } else {
                seq![]
            }
        }
    }

    pub open spec fn team_moves(&self, team: Team) -> Seq<Move> {
        self.team_moves_upto(team, self.units.len() as int)
    }

    /// The game is over once either team has no move.
    pub open spec fn terminal(&self) -> bool {
        self.team_moves(Team::Player).len() == 0 || self.team_moves(Team::Ai).len() == 0
    }

    /// Whether a Player unit stands on the stairs.
    pub open spec fn on_stairs(&self) -> bool {
        on_stairs_in(self.units, self.stairs)
    }

    /// The unit that stands on `m.to` once `m` is played.
    pub open spec fn moved_unit(self, m: Move) -> Unit {
        let u = self.unit_at(m.from.x as int, m.from.y as int).unwrap();
        let jester_type = match self.unit_at(m.to.x as int, m.to.y as int) {
            Some(c) => if u.unit_type == UnitType::Jester {
                disguise_after_capture(c)
            } else {
                u.jester_type
            },
            None => u.jester_type,
        };
        Unit { pos: m.to, jester_type, ..u }
    }

    /// Playing a legal move keeps the board well formed, removes at most
    /// the one captured unit, and puts the mover on the target square.
    pub proof fn lemma_apply(self, m: Move)
        requires
            self.wf(),
            self.legal(m),
        ensures
            self.apply(m).wf(),
            self.apply(m).grid == self.grid,
            self.apply(m).stairs == self.stairs,
            self.apply(m).units.len() == self.units.len() - if self.occupied(
                m.to.x as int,
                m.to.y as int,
            ) {
                1int
            } else {
                0int
            },
            self.apply(m).unit_at(m.to.x as int, m.to.y as int) == Some(self.moved_unit(m)),
    {
        let units0 = self.units;
        let tx = m.to.x as int;
        let ty = m.to.y as int;
        let ci = index_in(units0, tx, ty);
        let rest = if occupied_in(units0, tx, ty) {
            units0.update(ci, units0.last()).drop_last()
        } else {
            units0
        };
        if occupied_in(units0, tx, ty) {
            lemma_swap_remove(units0, ci);
        }
        let fi = index_in(units0, m.from.x as int, m.from.y as int);
        assert(units0[fi].pos.x == m.from.x && units0[fi].pos.y == m.from.y);
        assert(occupied_in(rest, m.from.x as int, m.from.y as int));
        assert(!occupied_in(rest, tx, ty)) by {
            if occupied_in(units0, tx, ty) {
                lemma_index_unique(units0, ci);
            }
        }
        let j = index_in(rest, m.from.x as int, m.from.y as int);
        assert(rest[j] == units0[fi]) by {
            if occupied_in(units0, tx, ty) {
                let src = if j == ci {
                    units0.len() - 1
                } else {
                    j
                };
                assert(rest[j] == units0[src]);
                lemma_index_unique(units0, src);
            } else {
                lemma_index_unique(units0, j);
            }
        }
        let moved = self.moved_unit(m);
        let after = rest.update(j, moved);
        assert(after == units_after(units0, m));
        assert forall|a: int, b: int|
            0 <= a < after.len() && 0 <= b < after.len() && a != b implies after[a].pos
            != after[b].pos by {
            if a == j {
                assert(rest[b].pos.x == rest[b].pos.x);
            } else if b == j {
                assert(rest[a].pos.x == rest[a].pos.x);
            }
        }
        assert forall|k: int|
            #![trigger after[k]]
            0 <= k < after.len() implies {
            &&& self.grid.inside(after[k].pos.x as int, after[k].pos.y as int)
            &&& after[k].jester_type != UnitType::Jester
        } by {
            if k != j {
                if occupied_in(units0, tx, ty) {
                    assert(rest[k] == units0[if k == ci {
                        units0.len() - 1
                    } else {
                        k
                    }]);
                }
            } else {
                if occupied_in(units0, tx, ty) {
                    assert(units0[ci].jester_type != UnitType::Jester);
                }
            }
        }
        assert(self.apply(m).wf());
        lemma_index_unique(after, j);
    }

    proof fn lemma_target_move(&self, from: Pos, team: Team, x: int, y: int)
        requires
            self.wf(),
            self.unit_at(from.x as int, from.y as int) matches Some(u) && u.team == team,
            self.target_ok(team, x, y),
        ensures
            self.legal(move_to(from, x, y)),
            move_to(from, x, y).to.x == x,
            move_to(from, x, y).to.y == y,
    {
        self.grid.lemma_dims();
    }

    proof fn lemma_step_moves_legal(&self, from: Pos, team: Team, ds: Seq<(i64, i64)>)
        requires
            self.wf(),
            self.unit_at(from.x as int, from.y as int) matches Some(u) && u.team == team,
        ensures
            forall|i: int|
                0 <= i < self.step_moves(from, team, ds).len() ==> self.legal(
                    #[trigger] self.step_moves(from, team, ds)[i],
                ),
        decreases ds.len(),
    {
        if ds.len() > 0 {
            let d = ds.last();
            self.lemma_step_moves_legal(from, team, ds.drop_last());
            let rest = self.step_moves(from, team, ds.drop_last());
            if self.target_ok(team, from.x + d.0, from.y + d.1) {
                self.lemma_target_move(from, team, from.x + d.0, from.y + d.1);
                let r = rest.push(move_to(from, from.x + d.0, from.y + d.1));
                assert forall|i: int| 0 <= i < r.len() implies self.legal(#[trigger] r[i]) by {
                    if i < rest.len() {
                        assert(r[i] == rest[i]);
                    }
                }
            }
        }
    }

    proof fn lemma_ray_legal(&self, from: Pos, team: Team, dx: int, dy: int, k: int)
        requires
            self.wf(),
            self.unit_at(from.x as int, from.y as int) matches Some(u) && u.team == team,
        ensures
            forall|i: int|
                0 <= i < self.ray(from, team, dx, dy, k).len() ==> self.legal(
                    #[trigger] self.ray(from, team, dx, dy, k)[i],
                ),
        decreases RAY_LENGTH + 1 - k,
    {
        if 1 <= k <= RAY_LENGTH {
            let x = from.x + dx * k;
            let y = from.y + dy * k;
            if self.target_ok(team, x, y) {
                self.lemma_target_move(from, team, x, y);
                self.lemma_ray_legal(from, team, dx, dy, k + 1);
                let r = self.ray(from, team, dx, dy, k);
                assert forall|i: int| 0 <= i < r.len() implies self.legal(#[trigger] r[i]) by {
                    if i > 0 {
                        assert(r[i] == self.ray(from, team, dx, dy, k + 1)[i - 1]);
                    }
                }
            }
        }
    }

    proof fn lemma_slide_legal(&self, from: Pos, team: Team, dirs: Seq<(i64, i64)>)
        requires
            self.wf(),
            self.unit_at(from.x as int, from.y as int) matches Some(u) && u.team == team,
        ensures
            forall|i: int|
                0 <= i < self.slide(from, team, dirs).len() ==> self.legal(
                    #[trigger] self.slide(from, team, dirs)[i],
                ),
        decreases dirs.len(),
    {
        if dirs.len() > 0 {
            let d = dirs.last();
            self.lemma_slide_legal(from, team, dirs.drop_last());
            self.lemma_ray_legal(from, team, d.0 as int, d.1 as int, 1);
            let a = self.slide(from, team, dirs.drop_last());
            let b = self.ray(from, team, d.0 as int, d.1 as int, 1);
            assert forall|i: int| 0 <= i < (a + b).len() implies self.legal(#[trigger] (a + b)[i]) by {
                if i >= a.len() {
                    assert((a + b)[i] == b[i - a.len()]);
                }
            }
        }
    }

    /// Squares `lo..hi` along `(dx, dy)` from `from` are walkable and free.
    pub open spec fn clear_path(self, from: Pos, dx: int, dy: int, lo: int, hi: int) -> bool {
        forall|j: int|
            lo <= j < hi ==> self.grid.passable_at(from.x + dx * j, from.y + dy * j)
                && !self.occupied(#[trigger] (from.x + dx * j), from.y + dy * j)
    }

    /// `m` goes `k` steps along `(dx, dy)` over free squares only, to a
    /// square a unit of `team` may enter.
    pub open spec fn slides_to(self, team: Team, m: Move, dx: int, dy: int, k: int) -> bool {
        &&& 1 <= k <= RAY_LENGTH
        &&& m.to.x == m.from.x + dx * k
        &&& m.to.y == m.from.y + dy * k
        &&& self.clear_path(m.from, dx, dy, 1, k)
        &&& self.target_ok(team, m.to.x as int, m.to.y as int)
    }

    proof fn lemma_ray_sound(self, from: Pos, team: Team, dx: int, dy: int, k0: int, m: Move)
        requires
            self.wf(),
            self.unit_at(from.x as int, from.y as int) matches Some(u) && u.team == team,
            1 <= k0,
            self.clear_path(from, dx, dy, 1, k0),
            self.ray(from, team, dx, dy, k0).contains(m),
        ensures
            m.from == from,
            exists|k: int| k0 <= k && #[trigger] self.slides_to(team, m, dx, dy, k),
        decreases RAY_LENGTH + 1 - k0,
    {
        let x = from.x + dx * k0;
        let y = from.y + dy * k0;
        let r = self.ray(from, team, dx, dy, k0);
        let i = choose|i: int| 0 <= i < r.len() && r[i] == m;
        self.lemma_target_move(from, team, x, y);
        if i == 0 {
            assert(self.slides_to(team, m, dx, dy, k0));
        } else {
            let tail = self.ray(from, team, dx, dy, k0 + 1);
            assert(r[i] == tail[i - 1]);
            assert(tail.contains(m));
            assert(self.clear_path(from, dx, dy, 1, k0 + 1)) by {
                assert forall|j: int| 1 <= j < k0 + 1 implies self.grid.passable_at(from.x + dx * j, from.y + dy * j)
                    && !self.occupied(#[trigger] (from.x + dx * j), from.y + dy * j) by {
                    if j < k0 {
                        assert(self.grid.passable_at(from.x + dx * j, from.y + dy * j)
                            && !self.occupied(from.x + dx * j, from.y + dy * j));
                    }
                }
            }
            self.lemma_ray_sound(from, team, dx, dy, k0 + 1, m);
            let k = choose|k: int| k0 + 1 <= k && #[trigger] self.slides_to(team, m, dx, dy, k);
            assert(self.slides_to(team, m, dx, dy, k));
        }
    }

    proof fn lemma_slide_sound(self, from: Pos, team: Team, dirs: Seq<(i64, i64)>, m: Move)
        requires
            self.wf(),
            self.unit_at(from.x as int, from.y as int) matches Some(u) && u.team == team,
            self.slide(from, team, dirs).contains(m),
        ensures
            m.from == from,
            exists|d: int, k: int|
                0 <= d < dirs.len() && #[trigger] self.slides_to(team, m, dirs[d].0 as int, dirs[d].1 as int, k),
        decreases dirs.len(),
    {
        let a = self.slide(from, team, dirs.drop_last());
        let last = dirs.last();
        let b = self.ray(from, team, last.0 as int, last.1 as int, 1);
        let i = choose|i: int| 0 <= i < (a + b).len() && (a + b)[i] == m;
        if i < a.len() {
            assert(a[i] == m);
            self.lemma_slide_sound(from, team, dirs.drop_last(), m);
            let (d, k) = choose|d: int, k: int|
                0 <= d < dirs.drop_last().len() && #[trigger] self.slides_to(team, m, dirs.drop_last()[d].0 as int, dirs.drop_last()[d].1 as int, k);
            assert(dirs.drop_last()[d] == dirs[d]);
            assert(self.slides_to(team, m, dirs[d].0 as int, dirs[d].1 as int, k));
        } else {
            assert(b[i - a.len()] == m);
            self.lemma_ray_sound(from, team, last.0 as int, last.1 as int, 1, m);
            let k = choose|k: int| 1 <= k && #[trigger] self.slides_to(team, m, last.0 as int, last.1 as int, k);
            assert(self.slides_to(team, m, dirs[dirs.len() - 1].0 as int, dirs[dirs.len() - 1].1 as int, k));
        }
    }

    /// A Bishop, Rook or Queen never jumps: each of its moves goes in a
    /// straight line of at most `RAY_LENGTH` steps over walkable, free
    /// squares, and ends on a walkable square that is free or holds an enemy.
    pub proof fn lemma_sliding_moves_never_jump(self, unit: Unit, m: Move)
        requires
            self.wf(),
            self.unit_at(unit.pos.x as int, unit.pos.y as int) == Some(unit),
            unit.unit_type == UnitType::Bishop || unit.unit_type == UnitType::Rook
                || unit.unit_type == UnitType::Queen,
            self.moves_for(unit).contains(m),
        ensures
            m.from == unit.pos,
            exists|dx: int, dy: int, k: int|
                -1 <= dx <= 1 && -1 <= dy <= 1 && !(dx == 0 && dy == 0)
                    && #[trigger] self.slides_to(unit.team, m, dx, dy, k),
    {
        let from = unit.pos;
        let team = unit.team;
        let da = self.slide(from, team, diagonals());
        let ca = self.slide(from, team, cardinals());
        if unit.unit_type == UnitType::Queen && !da.contains(m) {
            let i = choose|i: int| 0 <= i < (da + ca).len() && (da + ca)[i] == m;
            if i < da.len() {
                assert(da[i] == m);
            }
            assert(ca[i - da.len()] == m);
        }
        if unit.unit_type == UnitType::Bishop || (unit.unit_type == UnitType::Queen && da.contains(m)) {
            self.lemma_slide_sound(from, team, diagonals(), m);
            let (d, k) = choose|d: int, k: int|
                0 <= d < diagonals().len() && #[trigger] self.slides_to(team, m, diagonals()[d].0 as int, diagonals()[d].1 as int, k);
            assert(self.slides_to(team, m, diagonals()[d].0 as int, diagonals()[d].1 as int, k));
        } else {
            self.lemma_slide_sound(from, team, cardinals(), m);
            let (d, k) = choose|d: int, k: int|
                0 <= d < cardinals().len() && #[trigger] self.slides_to(team, m, cardinals()[d].0 as int, cardinals()[d].1 as int, k);
            assert(self.slides_to(team, m, cardinals()[d].0 as int, cardinals()[d].1 as int, k));
        }
    }

    /// A Jester whose disguise is still the Rook it starts with moves
    /// exactly as a Rook on its square.
    pub proof fn lemma_jester_moves_as_rook(self, unit: Unit)
        requires
            unit.unit_type == UnitType::Jester,
            unit.jester_type == UnitType::Rook,
        ensures
            self.moves_for(unit) == self.moves_for(Unit { unit_type: UnitType::Rook, ..unit }),
    {
    }

    /// Once a Jester captures a unit of kind K other than Jester, it moves
    /// exactly as a K on its new square.
    pub proof fn lemma_jester_takes_captured_rule(self, m: Move)
        requires
            self.wf(),
            self.legal(m),
            self.unit_at(m.from.x as int, m.from.y as int) matches Some(j) && j.unit_type
                == UnitType::Jester,
            self.unit_at(m.to.x as int, m.to.y as int) matches Some(c) && c.unit_type
                != UnitType::Jester,
        ensures
            ({
                let after = self.apply(m);
                let c = self.unit_at(m.to.x as int, m.to.y as int).unwrap();
                &&& after.unit_at(m.to.x as int, m.to.y as int) matches Some(j2)
                &&& j2.unit_type == UnitType::Jester
                &&& after.moves_for(j2) == after.moves_for(Unit { unit_type: c.unit_type, ..j2 })
            }),
    {
        self.lemma_apply(m);
    }

    /// Every move generated for a unit of the board is legal.
    pub proof fn lemma_moves_for_legal(&self, unit: Unit)
        requires
            self.wf(),
            self.unit_at(unit.pos.x as int, unit.pos.y as int) == Some(unit),
        ensures
            forall|i: int|
                0 <= i < self.moves_for(unit).len() ==> self.legal(
                    #[trigger] self.moves_for(unit)[i],
                ),
    {
        let from = unit.pos;
        let team = unit.team;
        self.lemma_slide_legal(from, team, diagonals());
        self.lemma_slide_legal(from, team, cardinals());
        self.lemma_step_moves_legal(from, team, pawn_deltas());
        self.lemma_step_moves_legal(from, team, knight_deltas());
        self.lemma_step_moves_legal(from, team, king_deltas());
        let a = self.slide(from, team, diagonals());
        let b = self.slide(from, team, cardinals());
        let c = self.step_moves(from, team, knight_deltas());
        assert forall|i: int| 0 <= i < (a + b).len() implies self.legal(#[trigger] (a + b)[i]) by {
            if i >= a.len() {
                assert((a + b)[i] == b[i - a.len()]);
            }
        }
        assert forall|i: int| 0 <= i < (a + c).len() implies self.legal(#[trigger] (a + c)[i]) by {
            if i >= a.len() {
                assert((a + c)[i] == c[i - a.len()]);
            }
        }
    }

    /// Playing any generated move of a unit captures at most one unit: the
    /// count drops by one on a capture and is unchanged otherwise.
    pub proof fn lemma_move_captures_at_most_one(self, unit: Unit, i: int)
        requires
            self.wf(),
            self.unit_at(unit.pos.x as int, unit.pos.y as int) == Some(unit),
            0 <= i < self.moves_for(unit).len(),
        ensures
            ({
                let m = self.moves_for(unit)[i];
                &&& self.units.len() - 1 <= self.apply(m).units.len() <= self.units.len()
                &&& self.apply(m).units.len() == self.units.len() <==> !self.occupied(
                    m.to.x as int,
                    m.to.y as int,
                )
            }),
    {
        self.lemma_moves_for_legal(unit);
        self.lemma_apply(self.moves_for(unit)[i]);
    }

    /// Every move generated for a team is legal.
    pub proof fn lemma_team_moves_legal(&self, team: Team, n: int)
        requires
            self.wf(),
            n <= self.units.len(),
        ensures
            forall|i: int|
                0 <= i < self.team_moves_upto(team, n).len() ==> self.legal(
                    #[trigger] self.team_moves_upto(team, n)[i],
                ),
        decreases n,
    {
        if n > 0 {
            self.lemma_team_moves_legal(team, n - 1);
            let u = self.units[n - 1];
            lemma_index_unique(self.units, n - 1);
            self.lemma_moves_for_legal(u);
            let a = self.team_moves_upto(team, n - 1);
            let b = if u.team == team {
                self.moves_for(u)
            } else {
                seq![]
            };
            assert forall|i: int| 0 <= i < (a + b).len() implies self.legal(#[trigger] (a + b)[i]) by {
                if i >= a.len() {
                    assert((a + b)[i] == b[i - a.len()]);
                }
            }
        }
    }

    /// The board after `m` is played.
    pub open spec fn apply(self, m: Move) -> BoardModel {
        BoardModel { units: units_after(self.units, m), ..self }
    }
}

impl<'a> BoardState<'a> {
    pub fn shallow_clone(&self) -> (r: BoardState<'a>)
        ensures
            r.tilemap == self.tilemap,
            r.units@ == self.units@,
            r.stairs == self.stairs,
    {
        let mut units: Vec<Unit> = Vec::with_capacity(self.units.len());
        let mut i: usize = 0;
        while i < self.units.len()
            invariant
                i <= self.units.len(),
                units@ == self.units@.subrange(0, i as int),
            decreases self.units.len() - i,
        {
            units.push(self.units[i]);
            i += 1;
            assert(units@ =~= self.units@.subrange(0, i as int));
        }
        assert(units@ =~= self.units@);
        BoardState { tilemap: self.tilemap, units, stairs: self.stairs }
    }

    fn index_of(&self, point: &Pos) -> (r: Option<usize>)
        requires
            distinct_positions(self.units@),
        ensures
            r is None <==> !self@.occupied(point.x as int, point.y as int),
            r matches Some(i) ==> i == index_in(self.units@, point.x as int, point.y as int)
                && i < self.units@.len(),
    {
        let mut i: usize = 0;
        while i < self.units.len()
            invariant
                i <= self.units.len(),
                distinct_positions(self.units@),
                forall|j: int| 0 <= j < i ==> self.units@[j].pos != *point,
            decreases self.units.len() - i,
        {
            if self.units[i].pos == *point {
                proof {
                    lemma_index_unique(self.units@, i as int);
                }
                return Some(i);
            }
            i += 1;
        }
        None
    }

    pub fn get_unit_at(&self, point: &Pos) -> (r: Option<&Unit>)
        requires
            distinct_positions(self.units@),
        ensures
            r matches Some(u) ==> self@.unit_at(point.x as int, point.y as int) == Some(*u),
            r is None ==> self@.unit_at(point.x as int, point.y as int) is None,
    {
        match self.index_of(point) {
            Some(i) => Some(&self.units[i]),
            None => None,
        }
    }

    /// The unit on `point`, to be changed in place.
    pub fn get_mut_unit_at(&mut self, point: &Pos) -> (r: Option<&mut Unit>)
        requires
            distinct_positions(old(self).units@),
        ensures
            final(self).tilemap == old(self).tilemap,
            final(self).stairs == old(self).stairs,
            match r {
                Some(u) => {
                    let i = index_in(old(self).units@, point.x as int, point.y as int);
                    &&& old(self)@.occupied(point.x as int, point.y as int)
                    &&& *u == old(self).units@[i]
                    &&& final(self).units@ == old(self).units@.update(i, *final(u))
                },
                None => {
                    &&& !old(self)@.occupied(point.x as int, point.y as int)
                    &&& final(self).units@ == old(self).units@
                },
            },
    {
        match self.index_of(point) {
            Some(i) => Some(&mut self.units[i]),
            None => None,
        }
    }

    pub fn is_valid(&self, m: &Move) -> (r: bool)
        requires
            self@.wf(),
        ensures
            r == self@.legal(*m),
    {
        match self.get_unit_at(&m.from) {
            Some(this_unit) => {
                let other_unit_is_enemy = match self.get_unit_at(&m.to) {
                    Some(u) => is_enemy(this_unit, u),
                    None => true,
                };
                self.tilemap.is_passable(m.to) && other_unit_is_enemy
            },
            None => false,
        }
    }

    /// The move from `from` to `(x, y)` if the unit on `from` may make it.
    fn try_target(&self, from: Pos, x: i64, y: i64) -> (r: Option<Move>)
        requires
            self@.wf(),
            self@.occupied(from.x as int, from.y as int),
        ensures
            r is Some <==> self@.target_ok(
                self@.unit_at(from.x as int, from.y as int).unwrap().team,
                x as int,
                y as int,
            ),
            r matches Some(m) ==> m == move_to(from, x as int, y as int),
    {
        proof {
            self.tilemap.lemma_dims();
        }
        if x < 0 || x > i32::MAX as i64 || y < 0 || y > i32::MAX as i64 {
            return None;
        }
        let m = Move { from, to: Pos { x: x as i32, y: y as i32 } };
        if self.is_valid(&m) {
            Some(m)
        } else {
            None
        }
    }

    fn push_step_moves(&self, from: Pos, ds: &Vec<(i64, i64)>, moves: &mut Vec<Move>)
        requires
            self@.wf(),
            self@.occupied(from.x as int, from.y as int),
            small_deltas(ds@),
        ensures
            final(moves)@ == old(moves)@ + self@.step_moves(
                from,
                self@.unit_at(from.x as int, from.y as int).unwrap().team,
                ds@,
            ),
    {
        let ghost team = self@.unit_at(from.x as int, from.y as int).unwrap().team;
        let ghost start = moves@;
        let mut i: usize = 0;
        assert(ds@.subrange(0, 0) =~= seq![]);
        while i < ds.len()
            invariant
                self@.wf(),
                self@.occupied(from.x as int, from.y as int),
                team == self@.unit_at(from.x as int, from.y as int).unwrap().team,
                small_deltas(ds@),
                i <= ds.len(),
                moves@ == start + self@.step_moves(from, team, ds@.subrange(0, i as int)),
            decreases ds.len() - i,
        {
            let (dx, dy) = ds[i];
            assert(ds@.subrange(0, i + 1).drop_last() =~= ds@.subrange(0, i as int));
            assert(ds@.subrange(0, i + 1).last() == ds@[i as int]);
            assert(-2 <= ds@[i as int].0 <= 2 && -2 <= ds@[i as int].1 <= 2);
            match self.try_target(from, from.x as i64 + dx, from.y as i64 + dy) {
                Some(m) => {
                    moves.push(m);
                },
                None => {},
            }
            i += 1;
            assert(moves@ =~= start + self@.step_moves(from, team, ds@.subrange(0, i as int)));
        }
        assert(ds@.subrange(0, ds.len() as int) =~= ds@);
    }

    fn push_ray(&self, from: Pos, dx: i64, dy: i64, moves: &mut Vec<Move>)
        requires
            self@.wf(),
            self@.occupied(from.x as int, from.y as int),
            -1 <= dx <= 1,
            -1 <= dy <= 1,
        ensures
            final(moves)@ == old(moves)@ + self@.ray(
                from,
                self@.unit_at(from.x as int, from.y as int).unwrap().team,
                dx as int,
                dy as int,
                1,
            ),
    {
        let ghost team = self@.unit_at(from.x as int, from.y as int).unwrap().team;
        let ghost start = moves@;
        let mut k: i64 = 1;
        assert(start =~= start + seq![]);
        while k <= RAY_LENGTH
            invariant
                self@.wf(),
                self@.occupied(from.x as int, from.y as int),
                team == self@.unit_at(from.x as int, from.y as int).unwrap().team,
                -1 <= dx <= 1,
                -1 <= dy <= 1,
                1 <= k <= RAY_LENGTH + 1,
                moves@ + self@.ray(from, team, dx as int, dy as int, k as int) == start + self@.ray(
                    from,
                    team,
                    dx as int,
                    dy as int,
                    1,
                ),
            decreases RAY_LENGTH + 1 - k,
        {
            assert(-RAY_LENGTH <= dx * k <= RAY_LENGTH && -RAY_LENGTH <= dy * k <= RAY_LENGTH)
                by (nonlinear_arith)
                requires
                    -1 <= dx <= 1,
                    -1 <= dy <= 1,
                    1 <= k <= RAY_LENGTH,
            ;
            let x = from.x as i64 + dx * k;
            let y = from.y as i64 + dy * k;
            let ghost before = moves@;
            match self.try_target(from, x, y) {
                Some(m) => {
                    moves.push(m);
                    if self.index_of(&m.to).is_some() {
                        proof {
                            self.tilemap.lemma_dims();
                        }
                        assert(m.to.x as int == x && m.to.y as int == y);
                        assert(self@.occupied(x as int, y as int));
                        assert(self@.ray(from, team, dx as int, dy as int, k as int) == seq![m]);
                        assert(moves@ =~= before + self@.ray(from, team, dx as int, dy as int, k as int));
                        k = RAY_LENGTH + 1;
                    } else {
                        assert(moves@ + self@.ray(from, team, dx as int, dy as int, k + 1) =~= before
                            + self@.ray(from, team, dx as int, dy as int, k as int));
                        k += 1;
                    }
                },
                None => {
                    k = RAY_LENGTH + 1;
                },
            }
        }
        assert(moves@ =~= moves@ + self@.ray(from, team, dx as int, dy as int, k as int));
    }

    fn push_slide(&self, from: Pos, dirs: &Vec<(i64, i64)>, moves: &mut Vec<Move>)
        requires
            self@.wf(),
            self@.occupied(from.x as int, from.y as int),
            forall|i: int|
                0 <= i < dirs@.len() ==> -1 <= (#[trigger] dirs@[i]).0 <= 1 && -1 <= dirs@[i].1
                    <= 1,
        ensures
            final(moves)@ == old(moves)@ + self@.slide(
                from,
                self@.unit_at(from.x as int, from.y as int).unwrap().team,
                dirs@,
            ),
    {
        let ghost team = self@.unit_at(from.x as int, from.y as int).unwrap().team;
        let ghost start = moves@;
        let mut i: usize = 0;
        assert(dirs@.subrange(0, 0) =~= seq![]);
        assert(start =~= start + seq![]);
        while i < dirs.len()
            invariant
                self@.wf(),
                self@.occupied(from.x as int, from.y as int),
                team == self@.unit_at(from.x as int, from.y as int).unwrap().team,
                forall|j: int|
                    0 <= j < dirs@.len() ==> -1 <= (#[trigger] dirs@[j]).0 <= 1 && -1
                        <= dirs@[j].1 <= 1,
                i <= dirs.len(),
                moves@ == start + self@.slide(from, team, dirs@.subrange(0, i as int)),
            decreases dirs.len() - i,
        {
            let (dx, dy) = dirs[i];
            assert(dirs@.subrange(0, i + 1).drop_last() =~= dirs@.subrange(0, i as int));
            assert(dirs@.subrange(0, i + 1).last() == dirs@[i as int]);
            assert(-1 <= dirs@[i as int].0 <= 1 && -1 <= dirs@[i as int].1 <= 1);
            self.push_ray(from, dx, dy, moves);
            i += 1;
            assert(moves@ =~= start + self@.slide(from, team, dirs@.subrange(0, i as int)));
        }
        assert(dirs@.subrange(0, dirs.len() as int) =~= dirs@);
    }

    fn push_rule_moves(&self, from: Pos, kind: UnitType, moves: &mut Vec<Move>)
        requires
            self@.wf(),
            self@.occupied(from.x as int, from.y as int),
        ensures
            final(moves)@ == old(moves)@ + self@.rule_moves(
                from,
                self@.unit_at(from.x as int, from.y as int).unwrap().team,
                kind,
            ),
    {
        let ghost team = self@.unit_at(from.x as int, from.y as int).unwrap().team;
        let ghost start = moves@;
        match kind {
            UnitType::Pawn => {
                self.push_step_moves(from, &pawn_deltas_exec(), moves);
            },
            UnitType::Knight => {
                self.push_step_moves(from, &knight_deltas_exec(), moves);
            },
            UnitType::King => {
                self.push_step_moves(from, &king_deltas_exec(), moves);
            },
            UnitType::Bishop => {
                self.push_slide(from, &diagonals_exec(), moves);
            },
            UnitType::Rook => {
                self.push_slide(from, &cardinals_exec(), moves);
            },
            UnitType::Queen => {
                self.push_slide(from, &diagonals_exec(), moves);
                self.push_slide(from, &cardinals_exec(), moves);
                assert(moves@ =~= start + self@.rule_moves(from, team, kind));
            },
            UnitType::Archbishop => {
                self.push_slide(from, &diagonals_exec(), moves);
                self.push_step_moves(from, &knight_deltas_exec(), moves);
                assert(moves@ =~= start + self@.rule_moves(from, team, kind));
            },
            UnitType::Jester => {
                assert(moves@ =~= start + self@.rule_moves(from, team, kind));
            },
        }
    }

    /// The moves of `unit`'s movement rule from its square, legal for the
    /// unit that stands there; none if the square is empty. For the unit
    /// on that square these are `moves_for(unit)`.
    pub fn get_valid_moves_for_unit(&self, unit: &Unit) -> (r: Vec<Move>)
        requires
            self@.wf(),
            unit.unit_type == UnitType::Jester ==> unit.jester_type != UnitType::Jester,
        ensures
            r@ == match self@.unit_at(unit.pos.x as int, unit.pos.y as int) {
                Some(b) => self@.rule_moves(unit.pos, b.team, rule_of(*unit)),
                None => seq![],
            },
            self@.unit_at(unit.pos.x as int, unit.pos.y as int) == Some(*unit) ==> r@
                == self@.moves_for(*unit),
    {
        let mut moves: Vec<Move> = Vec::new();
        if self.index_of(&unit.pos).is_none() {
            return moves;
        }
        let kind = if unit.unit_type == UnitType::Jester {
            unit.jester_type
        } else {
            unit.unit_type
        };
        self.push_rule_moves(unit.pos, kind, &mut moves);
        assert(moves@ =~= self@.rule_moves(
            unit.pos,
            self@.unit_at(unit.pos.x as int, unit.pos.y as int).unwrap().team,
            rule_of(*unit),
        ));
        moves
    }

    /// The moves of every unit of `team`, unit by unit in board order.
    pub fn get_valid_moves(&self, team: Team) -> (r: Vec<Move>)
        requires
            self@.wf(),
        ensures
            r@ == self@.team_moves(team),
    {
        let mut moves: Vec<Move> = Vec::new();
        let mut i: usize = 0;
        while i < self.units.len()
            invariant
                self@.wf(),
                i <= self.units.len(),
                moves@ == self@.team_moves_upto(team, i as int),
            decreases self.units.len() - i,
        {
            let unit = self.units[i];
            if unit.team == team {
                proof {
                    lemma_index_unique(self.units@, i as int);
                }
                let mut unit_moves = self.get_valid_moves_for_unit(&unit);
                moves.append(&mut unit_moves);
            }
            i += 1;
            assert(moves@ =~= self@.team_moves_upto(team, i as int));
        }
        moves
    }

    pub fn is_on_stairs(&self) -> (r: bool)
        ensures
            r == self@.on_stairs(),
    {
        match self.stairs {
            Some(p) => {
                let mut i: usize = 0;
                while i < self.units.len()
                    invariant
                        self.stairs == Some(p),
                        i <= self.units.len(),
                        forall|j: int|
                            0 <= j < i ==> !((#[trigger] self.units@[j]).team == Team::Player
                                && self.units@[j].pos == p),
                    decreases self.units.len() - i,
                {
                    if self.units[i].team == Team::Player && self.units[i].pos == p {
                        return true;
                    }
                    i += 1;
                }
                false
            },
            None => false,
        }
    }

    /// Whether either team is left without a move.
    pub fn is_end(&self) -> (r: bool)
        requires
            self@.wf(),
        ensures
            r == self@.terminal(),
    {
        self.get_valid_moves(Team::Player).len() == 0 || self.get_valid_moves(Team::Ai).len() == 0
    }

    /// Plays `m`: the unit on `m.to`, if any, is captured and removed, and
    /// the unit on `m.from` steps to `m.to`. A Jester that captures takes
    /// the captured unit's movement rule.
    pub fn make_move(&mut self, m: &Move)
        requires
            old(self)@.wf(),
            old(self)@.legal(*m),
        ensures
            final(self)@.wf(),
            final(self).tilemap == old(self).tilemap,
            final(self).stairs == old(self).stairs,
            final(self)@ == old(self)@.apply(*m),
            final(self).units@.len() == old(self).units@.len() - if old(self)@.occupied(
                m.to.x as int,
                m.to.y as int,
            ) {
                1int
            } else {
                0int
            },
    {
        let ghost units0 = self.units@;
        let mut captured_unit: Option<Unit> = None;
        match self.index_of(&m.to) {
            Some(index) => {
                captured_unit = Some(self.units[index]);
                proof {
                    lemma_swap_remove(self.units@, index as int);
                }
                self.units.swap_remove(index);
            },
            None => {},
        }
        let ghost rest = self.units@;
        assert(distinct_positions(rest));
        assert(occupied_in(rest, m.from.x as int, m.from.y as int)) by {
            let i = index_in(units0, m.from.x as int, m.from.y as int);
            assert(units0[i].pos.x == m.from.x && units0[i].pos.y == m.from.y);
        }
        let j = match self.index_of(&m.from) {
            Some(j) => j,
            None => {
                return ;
            },
        };
        let mut unit = self.units[j];
        unit.pos = m.to;
        if unit.unit_type == UnitType::Jester {
            match captured_unit {
                Some(c) => {
                    proof {
                        let ci = index_in(units0, m.to.x as int, m.to.y as int);
                        assert(units0[ci].jester_type != UnitType::Jester);
                    }
                    unit.convert_jester(c);
                },
                None => {},
            }
        }
        self.units.set(j, unit);
        proof {
            old(self)@.lemma_apply(*m);
            assert(self.units@ == units_after(units0, *m));
        }
    }
}

} // verus!
