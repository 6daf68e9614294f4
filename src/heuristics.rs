//! Positional evaluation: a won position scores `WIN_SCORE`, a lost one
//! `LOSE_SCORE`; otherwise stones near the centre of the board are worth
//! more to their owner.
use crate::board::{BoardState, OPPONENT, OWN};
use crate::connect::{connects_all_sides, owned_by};
use crate::game::{other_player, token_of, GameStatus, GameY, PlayerId};
use crate::geometry::{
    coord_x, coord_y, coord_z, is_valid_cell, lemma_row_col, num_cells, MAX_BOARD_SIZE,
};
use vstd::prelude::*;

verus! {

/// Score of a won position.
pub const WIN_SCORE: i32 = 100000;

/// Score of a lost position.
pub const LOSE_SCORE: i32 = -100000;

/// What a stone is worth before its distance from the centre is taken off.
pub const CENTER_BASE: i32 = 300;

pub open spec fn abs_int(a: int) -> int {
    if a < 0 {
        -a
    } else {
        a
    }
}

/// How far cell `i` lies from the centre: the pairwise differences of its
/// coordinates.
pub open spec fn off_center(n: nat, i: int) -> int {
    abs_int(coord_x(n, i) - coord_y(n, i)) + abs_int(coord_y(n, i) - coord_z(n, i)) + abs_int(
        coord_z(n, i) - coord_x(n, i),
    )
}

/// Centre score of the stones `token` holds among the first `k` cells.
pub open spec fn center_score(n: nat, cells: Seq<u8>, token: u8, k: int) -> int
    decreases k,
{
    if k <= 0 {
        0
    } else {
        center_score(n, cells, token, k - 1) + if cells[k - 1] == token {
            CENTER_BASE - off_center(n, k - 1)
        } else {
            0
        }
    }
}

/// The heuristic margin of `token`'s stones over `other`'s.
pub open spec fn center_margin(n: nat, cells: Seq<u8>, token: u8, other: u8) -> int {
    center_score(n, cells, token, num_cells(n) as int) - center_score(
        n,
        cells,
        other,
        num_cells(n) as int,
    )
}

/// Value for the engine (token 1) of the occupancy `occ` of a board of side `n`.
pub open spec fn occupancy_value(n: nat, occ: Seq<u8>) -> int {
    if connects_all_sides(n, owned_by(occ, OWN)) {
        WIN_SCORE as int
    } else if connects_all_sides(n, owned_by(occ, OPPONENT)) {
        LOSE_SCORE as int
    } else {
        center_margin(n, occ, OWN, OPPONENT)
    }
}

/// Value of a search position for the engine.
pub open spec fn position_value(b: BoardState) -> int {
    occupancy_value(b.n(), b.occupancy@)
}

/// Value of a game position for `bot`.
pub open spec fn game_value(g: GameY, bot: PlayerId) -> int {
    match g.status {
        GameStatus::Finished { winner } => if winner == bot {
            WIN_SCORE as int
        } else {
            LOSE_SCORE as int
        },
        GameStatus::Ongoing { .. } => center_margin(
            g.n(),
            g.cells@,
            token_of(bot),
            token_of(crate::game::other_spec(bot)),
        ),
    }
}

/// Sum of the centre scores of `token`'s stones.
fn center_sum(size: usize, cells: &Vec<u8>, token: u8) -> (r: i32)
    requires
        0 < size <= MAX_BOARD_SIZE,
        cells@.len() == num_cells(size as nat),
        forall|i: int| 0 <= i < cells@.len() && #[trigger] cells@[i] != 0 ==> is_valid_cell(size as nat, i),
        token != 0,
    ensures
        r == center_score(size as nat, cells@, token, cells@.len() as int),
        -700 * 250000 <= r <= 300 * 250000,
{
    let n = size;
    let ghost nn = size as nat;
    assert(n * n <= 250000) by (nonlinear_arith)
        requires
            n <= 500,
    ;
    let total = cells.len();
    let mut score: i32 = 0;
    let mut i: usize = 0;
    while i < total
        invariant
            total == cells@.len(),
            total == num_cells(nn),
            total <= 250000,
            nn == n as nat,
            0 < n <= MAX_BOARD_SIZE,
            token != 0,
            forall|i: int| 0 <= i < cells@.len() && #[trigger] cells@[i] != 0 ==> is_valid_cell(nn, i),
            i <= total,
            score == center_score(nn, cells@, token, i as int),
            -700 * i <= score <= 300 * i,
        decreases total - i,
    {
        if cells[i] == token {
            proof {
                lemma_row_col(nn, i as int);
            }
            let r = (i / n) as i32;
            let c = (i % n) as i32;
            let x = (n as i32) - 1 - r;
            let y = c;
            let z = r - c;
            let dxy = if x >= y { x - y } else { y - x };
            let dyz = if y >= z { y - z } else { z - y };
            let dzx = if z >= x { z - x } else { x - z };
            score = score + (CENTER_BASE - (dxy + dyz + dzx));
        }
        i = i + 1;
    }
    score
}

/// Centre score of `player`'s stones.
fn center_control_score(game: &GameY, player: PlayerId) -> (r: i32)
    requires
        game.wf(),
        player.id < 2,
    ensures
        r == center_score(game.n(), game.cells@, token_of(player), num_cells(game.n()) as int),
        -700 * 250000 <= r <= 300 * 250000,
{
    let token: u8 = if player.id == 0 {
        1
    } else {
        2
    };
    center_sum(game.size as usize, &game.cells, token)
}

/// Value of the game for `bot_player`: `WIN_SCORE` or `LOSE_SCORE` once
/// the game has a winner, else the centre margin of their stones over the
/// opponent's.
pub fn evaluate_board(game: &GameY, bot_player: PlayerId) -> (r: i32)
    requires
        game.wf(),
        bot_player.id < 2,
    ensures
        r == game_value(*game, bot_player),
{
    if let GameStatus::Finished { winner } = game.status {
        return if winner == bot_player {
            WIN_SCORE
        } else {
            LOSE_SCORE
        };
    }
    let opponent = other_player(bot_player);
    let my_center = center_control_score(game, bot_player);
    let opp_center = center_control_score(game, opponent);
    my_center - opp_center
}

/// Value of a search position for the engine.
pub fn evaluate_position(board: &mut BoardState) -> (r: i32)
    requires
        old(board).wf(),
    ensures
        final(board).wf(),
        final(board).same_position(*old(board)),
        r == position_value(*old(board)),
        -250000000 <= r <= 250000000,
{
    if board.has_connected_all_sides(OWN) {
        return WIN_SCORE;
    }
    if board.has_connected_all_sides(OPPONENT) {
        return LOSE_SCORE;
    }
    let mine = center_sum(board.size, &board.occupancy, OWN);
    let theirs = center_sum(board.size, &board.occupancy, OPPONENT);
    mine - theirs
}

/// Without stones of `token`, its centre score is zero.
proof fn lemma_center_score_none(n: nat, cells: Seq<u8>, token: u8, k: int)
    requires
        forall|i: int| 0 <= i < k ==> #[trigger] cells[i] != token,
    ensures
        center_score(n, cells, token, k) == 0,
    decreases k,
{
    if k > 0 {
        lemma_center_score_none(n, cells, token, k - 1);
    }
}

/// A board without stones is worth 0 to the engine.
pub proof fn lemma_empty_board_value(n: nat, occ: Seq<u8>)
    requires
        occ.len() == num_cells(n),
        forall|i: int| 0 <= i < occ.len() ==> #[trigger] occ[i] == 0,
    ensures
        occupancy_value(n, occ) == 0,
{
    lemma_center_score_none(n, occ, OWN, num_cells(n) as int);
    lemma_center_score_none(n, occ, OPPONENT, num_cells(n) as int);
    lemma_no_stone_no_win(n, occ, OWN);
    lemma_no_stone_no_win(n, occ, OPPONENT);
}

proof fn lemma_no_stone_no_win(n: nat, occ: Seq<u8>, token: u8)
    requires
        token != 0,
        forall|i: int| 0 <= i < occ.len() ==> #[trigger] occ[i] == 0,
        forall|i: int| is_valid_cell(n, i) ==> i < occ.len(),
    ensures
        !connects_all_sides(n, owned_by(occ, token)),
{
    let owned = owned_by(occ, token);
    if connects_all_sides(n, owned) {
        let s = choose|s: int| #[trigger] crate::connect::group_touches_all_sides(n, owned, s);
        let (a, b, c) = choose|a: int, b: int, c: int|
            #![trigger crate::connect::linked(n, owned, s, a), crate::connect::linked(n, owned, s, b), crate::connect::linked(n, owned, s, c)]
            crate::connect::linked(n, owned, s, a) && crate::geometry::on_side(n, a, 0)
                && crate::connect::linked(n, owned, s, b) && crate::geometry::on_side(n, b, 1)
                && crate::connect::linked(n, owned, s, c) && crate::geometry::on_side(n, c, 2);
        crate::connect::lemma_linked_ends(n, owned, s, a);
    }
}

/// When `p`'s stones connect all three sides, the position is worth
/// `WIN_SCORE` from `p`'s side, and, unless the opponent's stones connect
/// all three sides too, `LOSE_SCORE` from the opponent's side.
pub proof fn lemma_connected_player_wins(n: nat, cells: Seq<u8>, p: PlayerId)
    requires
        p.id < 2,
        forall|i: int| 0 <= i < cells.len() ==> #[trigger] cells[i] <= 2,
        crate::game::has_won(n, cells, p),
    ensures
        occupancy_value(n, cells.map_values(|c: u8| crate::board::relabel(c, token_of(p))))
            == WIN_SCORE,
        !crate::game::has_won(n, cells, crate::game::other_spec(p)) ==> occupancy_value(
            n,
            cells.map_values(|c: u8| crate::board::relabel(c, token_of(crate::game::other_spec(p)))),
        ) == LOSE_SCORE,
{
    let q = crate::game::other_spec(p);
    crate::game::lemma_relabel_own(cells, token_of(p));
    crate::game::lemma_relabel_own(cells, token_of(q));
    crate::game::lemma_relabel_opponent(cells, token_of(q));
    assert(crate::board::other_token(token_of(q)) == token_of(p));
}

} // verus!
