use vstd::prelude::*;
use crate::boardstate::{BoardModel, BoardState, Move, on_stairs_in};
use crate::unit::{Pos, Team, Unit, UnitType};
use crate::utils::{SCALE, dist, dist_scaled, isqrt, lemma_isqrt_exists, sq_dist};

verus! {

/// Material value of a unit kind, in points.
pub open spec fn kind_value(kind: UnitType) -> int {
    match kind {
        UnitType::Pawn => 10,
        UnitType::Knight => 30,
        UnitType::Bishop => 30,
        UnitType::Jester => 40,
        UnitType::Rook => 50,
        UnitType::Archbishop => 60,
        UnitType::Queen => 80,
        UnitType::King => 100000,
    }
}

/// A unit's material, positive for the Player and negative for the AI.
pub open spec fn unit_value(unit: Unit) -> int {
    if unit.team == Team::Ai {
        -kind_value(unit.unit_type) * SCALE
    } else {
        kind_value(unit.unit_type) * SCALE
    }
}

/// Reward of a Player unit for standing near the stairs: twenty points
/// divided by its distance, a distance below one counting as one.
pub open spec fn stairs_reward(stairs: Pos, p: Pos) -> int {
    let d = dist_scaled(stairs, p);
    (20 * SCALE * SCALE) / (if d < SCALE {
        SCALE as int
    } else {
        d
    })
}

pub open spec fn material_sum(units: Seq<Unit>) -> int
    decreases units.len(),
{
    if units.len() == 0 {
        0
    } else {
        material_sum(units.drop_last()) + unit_value(units.last())
    }
}

pub open spec fn stairs_sum(units: Seq<Unit>, stairs: Pos) -> int
    decreases units.len(),
{
    if units.len() == 0 {
        0
    } else {
        stairs_sum(units.drop_last(), stairs) + if units.last().team == Team::Player {
            stairs_reward(stairs, units.last().pos)
        } else {
            0
        }
    }
}

/// Sum of the distances of the AI units to `king`.
pub open spec fn closeness_sum(units: Seq<Unit>, king: Pos) -> int
    decreases units.len(),
{
    if units.len() == 0 {
        0
    } else {
        closeness_sum(units.drop_last(), king) + if units.last().team == Team::Ai {
            dist_scaled(king, units.last().pos)
        } else {
            0
        }
    }
}

/// The square of the first Player King of `units` from index `i` on.
pub open spec fn first_player_king(units: Seq<Unit>, i: int) -> Option<Pos>
    decreases units.len() - i,
{
    if i < 0 || i >= units.len() {
        None
    } else if units[i].team == Team::Player && units[i].unit_type == UnitType::King {
        Some(units[i].pos)
    } else {
        first_player_king(units, i + 1)
    }
}

/// No evaluation reaches this bound in either direction.
pub const EVAL_BOUND: i128 = 0x40_0000_0000_0000_0000_0000_0000_0000;

/// Bonus for a Player unit on the stairs.
pub const WIN_BONUS: i128 = 1_000_000_000;

/// The static evaluation: material, the constant of one enemy King,
/// nearness of Player units to the stairs, the distances of AI units to
/// the Player King, and the bonus for reaching the stairs.
///
/// Note the sign of the King term: the distances are added, so AI units far
/// from the Player King count in the Player's favour. Scores are integers in
/// thousandths of a point, and each distance is rounded down to a thousandth.
pub open spec fn score(units: Seq<Unit>, stairs: Option<Pos>) -> int {
    -kind_value(UnitType::King) * SCALE + material_sum(units) + match stairs {
        Some(p) => stairs_sum(units, p),
        None => 0,
    } + match first_player_king(units, 0) {
        Some(k) => closeness_sum(units, k),
        None => 0,
    } + if on_stairs_in(units, stairs) {
        WIN_BONUS as int
    } else {
        0
    }
}

/// The maximizing side is the Player, the minimizing side the AI.
pub open spec fn team_of(maximizing: bool) -> Team {
    if maximizing {
        Team::Player
    } else {
        Team::Ai
    }
}

/// The score of a search leaf: the evaluation, nudged by the remaining depth
/// so that decisive positions reached sooner are preferred.
pub open spec fn leaf_score(b: BoardModel, depth: int, maximizing: bool) -> int {
    score(b.units, b.stairs) + if maximizing {
        (10 - depth) * SCALE
    } else {
        (depth - 10) * SCALE
    }
}

/// Depth-limited minimax with alpha-beta pruning: the best move for the side
/// to move and its score. A leaf reports no move.
pub open spec fn search(b: BoardModel, depth: nat, alpha: int, beta: int, maximizing: bool) -> (
    Option<Move>,
    int,
)
    decreases depth, b.team_moves(team_of(maximizing)).len() + 1,
{
    if depth == 0 || b.terminal() {
        (None, leaf_score(b, depth as int, maximizing))
    } else {
        let moves = b.team_moves(team_of(maximizing));
        search_from(
            b,
            moves,
            0,
            depth,
            alpha,
            beta,
            maximizing,
            if moves.len() > 0 {
                Some(moves[0])
            } else {
                None
            },
            if maximizing {
                i128::MIN as int
            } else {
                i128::MAX as int
            },
        )
    }
}

/// The search loop from the `i`-th move on, with the best move and score
/// found so far and the current window.
pub open spec fn search_from(
    b: BoardModel,
    moves: Seq<Move>,
    i: int,
    depth: nat,
    alpha: int,
    beta: int,
    maximizing: bool,
    best: Option<Move>,
    best_score: int,
) -> (Option<Move>, int)
    decreases depth, moves.len() - i,
{
    if depth == 0 || i < 0 || i >= moves.len() {
        (best, best_score)
    } else {
        let child = search(b.apply(moves[i]), (depth - 1) as nat, alpha, beta, !maximizing).1;
        if maximizing {
            let better = child > best_score;
            let nb = if better {
                Some(moves[i])
            } else {
                best
            };
            let ns = if better {
                child
            } else {
                best_score
            };
            if ns >= beta {
                (nb, ns)
            } else {
                search_from(
                    b,
                    moves,
                    i + 1,
                    depth,
                    if ns > alpha {
                        ns
                    } else {
                        alpha
                    },
                    beta,
                    maximizing,
                    nb,
                    ns,
                )
            }
        } else {
            let better = child < best_score;
            let nb = if better {
                Some(moves[i])
            } else {
                best
            };
            let ns = if better {
                child
            } else {
                best_score
            };
            if ns <= alpha {
                (nb, ns)
            } else {
                search_from(
                    b,
                    moves,
                    i + 1,
                    depth,
                    alpha,
                    if ns < beta {
                        ns
                    } else {
                        beta
                    },
                    maximizing,
                    nb,
                    ns,
                )
            }
        }
    }
}

proof fn lemma_first_king_push(units: Seq<Unit>, u: Unit, i: int)
    requires
        !(u.team == Team::Player && u.unit_type == UnitType::King),
        0 <= i,
    ensures
        first_player_king(units.push(u), i) == first_player_king(units, i),
    decreases units.len() - i,
{
    if i < units.len() {
        assert(units.push(u)[i] == units[i]);
        lemma_first_king_push(units, u, i + 1);
    } else if i == units.len() {
        assert(units.push(u)[i] == u);
        assert(first_player_king(units.push(u), i + 1) == None::<Pos>);
    }
}

/// One more AI Pawn lowers the evaluation, as long as it stands closer than
/// ten squares to the Player King, if there is one (the distances of AI
/// units to that King count for the AI's opponent).
pub proof fn lemma_extra_ai_pawn_lowers_score(units: Seq<Unit>, stairs: Option<Pos>, pawn: Unit)
    requires
        pawn.team == Team::Ai,
        pawn.unit_type == UnitType::Pawn,
        first_player_king(units, 0) matches Some(k) ==> sq_dist(k, pawn.pos) < 100,
    ensures
        score(units.push(pawn), stairs) < score(units, stairs),
{
    let more = units.push(pawn);
    assert(more.drop_last() == units);
    lemma_first_king_push(units, pawn, 0);
    assert(on_stairs_in(more, stairs) == on_stairs_in(units, stairs)) by {
        if on_stairs_in(more, stairs) {
            let i = choose|i: int|
                0 <= i < more.len() && (#[trigger] more[i]).team == Team::Player && more[i].pos
                    == stairs.unwrap();
            assert(units[i] == more[i]);
        }
        if on_stairs_in(units, stairs) {
            let i = choose|i: int|
                0 <= i < units.len() && (#[trigger] units[i]).team == Team::Player && units[i].pos
                    == stairs.unwrap();
            assert(units[i] == more[i]);
        }
    }
    if let Some(k) = first_player_king(units, 0) {
        let n = sq_dist(k, pawn.pos) * SCALE * SCALE;
        assert(0 <= sq_dist(k, pawn.pos)) by (nonlinear_arith);
        lemma_isqrt_exists(n);
        let r = isqrt(n);
        assert(r < 10000) by (nonlinear_arith)
            requires
                r * r <= n,
                n < 100_000_000,
                0 <= r,
        ;
    }
}

/// One more Player Rook raises the evaluation.
pub proof fn lemma_extra_player_rook_raises_score(units: Seq<Unit>, stairs: Option<Pos>, rook: Unit)
    requires
        rook.team == Team::Player,
        rook.unit_type == UnitType::Rook,
    ensures
        score(units.push(rook), stairs) > score(units, stairs),
{
    let more = units.push(rook);
    assert(more.drop_last() == units);
    lemma_first_king_push(units, rook, 0);
    if on_stairs_in(units, stairs) {
        let i = choose|i: int|
            0 <= i < units.len() && (#[trigger] units[i]).team == Team::Player && units[i].pos
                == stairs.unwrap();
        assert(units[i] == more[i]);
        assert(on_stairs_in(more, stairs));
    }
    if let Some(p) = stairs {
        let n = sq_dist(p, rook.pos) * SCALE * SCALE;
        assert(0 <= sq_dist(p, rook.pos)) by (nonlinear_arith);
        lemma_isqrt_exists(n);
        let d = dist_scaled(p, rook.pos);
        let denom = if d < SCALE {
            SCALE as int
        } else {
            d
        };
        assert(stairs_reward(p, rook.pos) >= 0) by (nonlinear_arith)
            requires
                stairs_reward(p, rook.pos) == 20_000_000int / denom,
                denom >= 1000,
        ;
    }
}

/// The search has no hidden input: two runs on the same board, depth and
/// window give the same move and the same score.
pub proof fn lemma_search_deterministic(
    b: BoardModel,
    depth: nat,
    alpha: int,
    beta: int,
    maximizing: bool,
    first: (Option<Move>, i128),
    second: (Option<Move>, i128),
)
    requires
        first.0 == search(b, depth, alpha, beta, maximizing).0,
        first.1 == search(b, depth, alpha, beta, maximizing).1,
        second.0 == search(b, depth, alpha, beta, maximizing).0,
        second.1 == search(b, depth, alpha, beta, maximizing).1,
    ensures
        first == second,
{
}

/// The material value of one unit, signed by its team.
fn unit_value_exec(unit: &Unit) -> (r: i128)
    ensures
        r == unit_value(*unit),
{
    let v: i128 = match unit.unit_type {
        UnitType::Pawn => 10,
        UnitType::Knight => 30,
        UnitType::Bishop => 30,
        UnitType::Jester => 40,
        UnitType::Rook => 50,
        UnitType::Archbishop => 60,
        UnitType::Queen => 80,
        UnitType::King => 100000,
    };
    if unit.team == Team::Ai {
        -v * SCALE
    } else {
        v * SCALE
    }
}

fn material_exec(units: &Vec<Unit>) -> (r: i128)
    ensures
        r == material_sum(units@),
        -(units@.len() * 100_000_000) <= r <= units@.len() * 100_000_000,
{
    let mut sum: i128 = 0;
    let mut i: usize = 0;
    while i < units.len()
        invariant
            i <= units.len(),
            sum == material_sum(units@.subrange(0, i as int)),
            -(i * 100_000_000) <= sum <= i * 100_000_000,
        decreases units.len() - i,
    {
        assert(units@.subrange(0, i + 1).drop_last() =~= units@.subrange(0, i as int));
        sum = sum + unit_value_exec(&units[i]);
        i += 1;
    }
    assert(units@.subrange(0, i as int) =~= units@);
    sum
}

fn stairs_exec(units: &Vec<Unit>, stairs: &Pos) -> (r: i128)
    ensures
        r == stairs_sum(units@, *stairs),
        0 <= r <= units@.len() * 20_000,
{
    let mut sum: i128 = 0;
    let mut i: usize = 0;
    while i < units.len()
        invariant
            i <= units.len(),
            sum == stairs_sum(units@.subrange(0, i as int), *stairs),
            0 <= sum <= i * 20_000,
        decreases units.len() - i,
    {
        assert(units@.subrange(0, i + 1).drop_last() =~= units@.subrange(0, i as int));
        if units[i].team == Team::Player {
            let d = dist(stairs, &units[i].pos);
            let denom = if d < SCALE {
                SCALE
            } else {
                d
            };
            let reward = (20 * SCALE * SCALE) / denom;
            assert(reward <= 20_000) by (nonlinear_arith)
                requires
                    reward == 20_000_000i128 / denom,
                    denom >= 1000,
            ;
            sum = sum + reward;
        }
        i += 1;
    }
    assert(units@.subrange(0, i as int) =~= units@);
    sum
}

fn closeness_exec(units: &Vec<Unit>, king: &Pos) -> (r: i128)
    ensures
        r == closeness_sum(units@, *king),
        0 <= r <= units@.len() * 0x8_0000_0000_0000,
{
    let mut sum: i128 = 0;
    let mut i: usize = 0;
    while i < units.len()
        invariant
            i <= units.len(),
            sum == closeness_sum(units@.subrange(0, i as int), *king),
            0 <= sum <= i * 0x8_0000_0000_0000,
        decreases units.len() - i,
    {
        assert(units@.subrange(0, i + 1).drop_last() =~= units@.subrange(0, i as int));
        if units[i].team == Team::Ai {
            sum = sum + dist(king, &units[i].pos);
        }
        i += 1;
    }
    assert(units@.subrange(0, i as int) =~= units@);
    sum
}

fn find_player_king(units: &Vec<Unit>) -> (r: Option<Pos>)
    ensures
        r == first_player_king(units@, 0),
{
    let mut i: usize = 0;
    while i < units.len()
        invariant
            i <= units.len(),
            first_player_king(units@, 0) == first_player_king(units@, i as int),
        decreases units.len() - i,
    {
        if units[i].team == Team::Player && units[i].unit_type == UnitType::King {
            return Some(units[i].pos);
        }
        i += 1;
    }
    None
}

/// A board under search.
pub struct Evaluation<'a> {
    pub state: BoardState<'a>,
}

impl<'a> Evaluation<'a> {
    pub fn from_gamestate(state: BoardState<'a>) -> (r: Evaluation<'a>)
        ensures
            r.state@ == state@,
    {
        Evaluation { state }
    }

    pub fn shallow_clone(&self) -> (r: Evaluation<'a>)
        ensures
            r.state@ == self.state@,
    {
        Evaluation { state: self.state.shallow_clone() }
    }

    /// The static evaluation of the board, in thousandths of a point;
    /// positive favours the Player.
    pub fn evaluate(&self) -> (r: i128)
        ensures
            r == score(self.state@.units, self.state@.stairs),
            -EVAL_BOUND <= r <= EVAL_BOUND,
    {
        let units = &self.state.units;
        let n = units.len();
        assert(n * 0x8_0000_0000_0000 <= 0x10_0000_0000_0000_0000_0000_0000_0000) by (nonlinear_arith)
            requires
                n <= usize::MAX,
        ;
        let player_close_to_stairs: i128 = match self.state.stairs {
            Some(stairs) => stairs_exec(units, &stairs),
            None => 0,
        };
        let closeness: i128 = match find_player_king(units) {
            Some(king_pos) => closeness_exec(units, &king_pos),
            None => 0,
        };
        let stairs: i128 = if self.state.is_on_stairs() {
            WIN_BONUS
        } else {
            0
        };
        let fake_enemy_king = -100000 * SCALE;
        fake_enemy_king + material_exec(units) + player_close_to_stairs + closeness + stairs
    }

    /// Minimax with alpha-beta pruning to `depth` plies; see `search`.
    pub fn minimax(&self, depth: u32, alpha_param: i128, beta_param: i128, maximizing_player: bool) -> (r: (
        Option<Move>,
        i128,
    ))
        requires
            self.state@.wf(),
        ensures
            r.0 == search(self.state@, depth as nat, alpha_param as int, beta_param as int, maximizing_player).0,
            r.1 == search(self.state@, depth as nat, alpha_param as int, beta_param as int, maximizing_player).1,
        decreases depth,
    {
        let ghost b = self.state@;
        if depth == 0 || self.state.is_end() {
            let e = self.evaluate();
            let eval = if maximizing_player {
                e + (10 - depth as i128) * SCALE
            } else {
                e + (depth as i128 - 10) * SCALE
            };
            return (None, eval);
        }
        let current_team = if maximizing_player {
            Team::Player
        } else {
            Team::Ai
        };
        let moves = self.state.get_valid_moves(current_team);
        proof {
            b.lemma_team_moves_legal(current_team, b.units.len() as int);
        }
        let mut best_move: Option<Move> = if moves.len() > 0 {
            Some(moves[0])
        } else {
            None
        };
        let mut alpha = alpha_param;
        let mut beta = beta_param;
        let mut best: i128 = if maximizing_player {
            i128::MIN
        } else {
            i128::MAX
        };
        let ghost target = search(b, depth as nat, alpha_param as int, beta_param as int, maximizing_player);
        let mut i: usize = 0;
        while i < moves.len()
            invariant
                self.state@ == b,
                b.wf(),
                depth > 0,
                moves@ == b.team_moves(team_of(maximizing_player)),
                forall|k: int| 0 <= k < moves@.len() ==> b.legal(#[trigger] moves@[k]),
                i <= moves.len(),
                target == search(
                    b,
                    depth as nat,
                    alpha_param as int,
                    beta_param as int,
                    maximizing_player,
                ),
                target == search_from(
                    b,
                    moves@,
                    i as int,
                    depth as nat,
                    alpha as int,
                    beta as int,
                    maximizing_player,
                    best_move,
                    best as int,
                ),
            decreases moves.len() - i,
        {
            let m = moves[i];
            let mut child = self.shallow_clone();
            child.state.make_move(&m);
            let current_eval = child.minimax(depth - 1, alpha, beta, !maximizing_player).1;
            assert(child.state@ == b.apply(moves@[i as int]));
            assert(current_eval == search(
                b.apply(moves@[i as int]),
                (depth - 1) as nat,
                alpha as int,
                beta as int,
                !maximizing_player,
            ).1);
            if maximizing_player {
                if current_eval > best {
                    best = current_eval;
                    best_move = Some(m);
                }
                if best >= beta {
                    return (best_move, best);
                }
                if best > alpha {
                    alpha = best;
                }
            } else {
                if current_eval < best {
                    best = current_eval;
                    best_move = Some(m);
                }
                if best <= alpha {
                    return (best_move, best);
                }
                if best < beta {
                    beta = best;
                }
            }
            i += 1;
        }
        (best_move, best)
    }
}

} // verus!
