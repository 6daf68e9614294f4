//! The move search: alpha-beta minimax over a mutable board, driven by
//! iterative deepening under a wall-clock budget.
use crate::connect::{connects_all_sides, lemma_connects_monotone, owned_by};
use crate::board::{
    indices_where, lemma_indices_where, relabel, BoardState, EMPTY, OPPONENT, OWN,
};
use crate::game::{free_cells, other_spec, token_of, GameStatus, GameY, Movement, PlayerId};
use crate::geometry::{coords_of, is_valid_cell, num_cells, Coordinates};
use crate::heuristics::{evaluate_position, occupancy_value, position_value};
use std::time::{Duration, Instant};
use vstd::prelude::*;

pub use crate::heuristics::{LOSE_SCORE, WIN_SCORE};

verus! {

/// Bound of the search window: above every position value.
pub const INFINITY: i32 = 1073741823;

/// Every position value lies within `-VALUE_BOUND ..= VALUE_BOUND`.
pub const VALUE_BOUND: i32 = 250000000;

/// Distance reported to a side for a player without stones.
pub const MAX_DISTANCE: i32 = 1000;

/// First depth of iterative deepening.
pub const MIN_DEPTH: u8 = 5;

/// Last depth of iterative deepening.
pub const MAX_DEPTH: u8 = 100;

/// A score at least `WIN_SCORE - WIN_MARGIN` is a forced win.
pub const WIN_MARGIN: i32 = 100;

/// The standard library's `std::time::Instant`, held opaque: the search
/// only hands it back to the clock wrappers below.
#[verifier::external_type_specification]
#[verifier::external_body]
pub struct ExInstant(Instant);

/// Relies on `std::time::Instant::now`: the instant the search starts.
#[verifier::external_body]
fn clock_start() -> Instant {
    Instant::now()
}

/// Relies on `std::time::Instant::elapsed`: the time passed since `start`.
#[verifier::external_body]
fn elapsed_since(start: &Instant) -> Duration {
    start.elapsed()
}

/// Relies on `std::time::Duration::as_millis`: whole milliseconds of `d`.
#[verifier::external_body]
fn whole_millis(d: &Duration) -> u128 {
    d.as_millis()
}

/// The budget of `max_time_ms` milliseconds is spent after `elapsed_ms`
/// milliseconds.
pub fn budget_spent(elapsed_ms: u128, max_time_ms: u64) -> (r: bool)
    ensures
        r == (elapsed_ms >= max_time_ms as u128),
{
    elapsed_ms >= max_time_ms as u128
}

/// Deepening goes on after a depth that scored `score` only without a
/// forced win and below the last depth.
pub fn keep_deepening(depth: u8, score: i32) -> (r: bool)
    ensures
        r == (score < WIN_SCORE - WIN_MARGIN && depth < MAX_DEPTH),
{
    score < WIN_SCORE - WIN_MARGIN && depth < MAX_DEPTH
}

/// The legal cells of the occupancy `occ` of a board of side `n`, ascending.
pub open spec fn legal_moves(n: nat, occ: Seq<u8>) -> Seq<usize> {
    indices_where(|i: int| is_valid_cell(n, i) && occ[i] == EMPTY, num_cells(n) as int)
}

/// Plain minimax value, without pruning, of `occ` searched `depth` plies
/// deep, the engine moving when `maximizing`. A position without legal
/// cells, or at depth 0, is worth its evaluation.
pub open spec fn full_value(n: nat, occ: Seq<u8>, depth: nat, maximizing: bool) -> int
    decreases depth, 1nat, 0nat,
{
    let moves = legal_moves(n, occ);
    if depth == 0 || moves.len() == 0 {
        occupancy_value(n, occ)
    } else {
        best_over(n, occ, depth, maximizing, moves, moves.len())
    }
}

/// Best (for the side to move) minimax value over the first `k` of `moves`.
pub open spec fn best_over(
    n: nat,
    occ: Seq<u8>,
    depth: nat,
    maximizing: bool,
    moves: Seq<usize>,
    k: nat,
) -> int
    decreases depth, 0nat, k,
{
    if k == 0 || depth == 0 {
        if maximizing {
            -INFINITY as int
        } else {
            INFINITY as int
        }
    } else {
        let prev = best_over(n, occ, depth, maximizing, moves, (k - 1) as nat);
        let token = if maximizing {
            OWN
        } else {
            OPPONENT
        };
        let child = full_value(
            n,
            occ.update(moves[k - 1] as int, token),
            (depth - 1) as nat,
            !maximizing,
        );
        if maximizing {
            if child > prev {
                child
            } else {
                prev
            }
        } else {
            if child < prev {
                child
            } else {
                prev
            }
        }
    }
}

/// Result of the fail-soft alpha-beta search with the window `alpha`,
/// `beta`: the evaluation at depth 0 or without legal cells, else the scan
/// of the legal cells in ascending order.
pub open spec fn ab_value(n: nat, occ: Seq<u8>, depth: nat, alpha: int, beta: int, maximizing: bool) -> int
    decreases depth, 1nat, 0int,
{
    let moves = legal_moves(n, occ);
    if depth == 0 || moves.len() == 0 {
        occupancy_value(n, occ)
    } else if maximizing {
        ab_scan(n, occ, depth, alpha, beta, true, moves, 0, -INFINITY as int, alpha)
    } else {
        ab_scan(n, occ, depth, alpha, beta, false, moves, 0, INFINITY as int, beta)
    }
}

/// The scan of `moves` from index `k`: `best` is the best score so far and
/// `bound` the raised `alpha` (maximizing) or lowered `beta` (minimizing).
/// Each child is searched with the current window; the scan ends with the
/// best score seen once the window closes or the moves run out.
pub open spec fn ab_scan(
    n: nat,
    occ: Seq<u8>,
    depth: nat,
    alpha: int,
    beta: int,
    maximizing: bool,
    moves: Seq<usize>,
    k: nat,
    best: int,
    bound: int,
) -> int
    decreases depth, 0nat, moves.len() - k,
{
    if k >= moves.len() || depth == 0 {
        best
    } else if maximizing {
        let s = ab_value(n, occ.update(moves[k as int] as int, OWN), (depth - 1) as nat, bound, beta, false);
        let best2 = if s > best {
            s
        } else {
            best
        };
        let bound2 = if s > bound {
            s
        } else {
            bound
        };
        if beta <= bound2 {
            best2
        } else {
            ab_scan(n, occ, depth, alpha, beta, true, moves, k + 1, best2, bound2)
        }
    } else {
        let s = ab_value(n, occ.update(moves[k as int] as int, OPPONENT), (depth - 1) as nat, alpha, bound, true);
        let best2 = if s < best {
            s
        } else {
            best
        };
        let bound2 = if s < bound {
            s
        } else {
            bound
        };
        if bound2 <= alpha {
            best2
        } else {
            ab_scan(n, occ, depth, alpha, beta, false, moves, k + 1, best2, bound2)
        }
    }
}

/// The token of the side to move: the engine when `maximizing`.
pub open spec fn mover_token(maximizing: bool) -> u8 {
    if maximizing {
        OWN
    } else {
        OPPONENT
    }
}

/// `occ2` is reached from `occ` by at most `depth` stones on empty valid
/// cells, the engine placing first when `maximizing`, the sides alternating.
pub open spec fn reachable(n: nat, occ: Seq<u8>, occ2: Seq<u8>, depth: nat, maximizing: bool) -> bool
    decreases depth,
{
    occ2 == occ || (depth > 0 && exists|m: int|
        0 <= m < occ.len() && is_valid_cell(n, m) && occ[m] == EMPTY && reachable(
            n,
            #[trigger] occ.update(m, mover_token(maximizing)),
            occ2,
            (depth - 1) as nat,
            !maximizing,
        ))
}

/// `r` is the evaluation of a position reachable from `occ` within `depth` plies.
pub open spec fn reached_evaluation(n: nat, occ: Seq<u8>, depth: nat, maximizing: bool, r: int) -> bool {
    exists|occ2: Seq<u8>| #[trigger] reachable(n, occ, occ2, depth, maximizing) && r == occupancy_value(n, occ2)
}

/// A position reachable from a child is reachable from its parent.
proof fn lemma_reached_through(n: nat, occ: Seq<u8>, m: int, depth: nat, maximizing: bool, r: int)
    requires
        depth > 0,
        0 <= m < occ.len(),
        is_valid_cell(n, m),
        occ[m] == EMPTY,
        reached_evaluation(
            n,
            occ.update(m, mover_token(maximizing)),
            (depth - 1) as nat,
            !maximizing,
            r,
        ),
    ensures
        reached_evaluation(n, occ, depth, maximizing, r),
{
    let child = occ.update(m, mover_token(maximizing));
    let d1 = (depth - 1) as nat;
    let other_side = !maximizing;
    let occ2 = choose|occ2: Seq<u8>| #[trigger] reachable(n, child, occ2, d1, other_side)
        && r == occupancy_value(n, occ2);
    assert(reachable(n, occ, occ2, depth, maximizing));
}

/// The position with the two players' stones exchanged.
pub open spec fn swap_sides(occ: Seq<u8>) -> Seq<u8> {
    occ.map_values(|c: u8| if c == OWN { OPPONENT } else if c == OPPONENT { OWN } else { c })
}

/// The evaluation is antisymmetric on every position reachable from `occ`
/// within `depth` plies: exchanging the stones negates it.
pub open spec fn antisymmetric_below(n: nat, occ: Seq<u8>, depth: nat, maximizing: bool) -> bool {
    forall|o2: Seq<u8>|
        #[trigger] reachable(n, occ, o2, depth, maximizing) ==> occupancy_value(n, swap_sides(o2))
            == -occupancy_value(n, o2)
}

/// Swapping sides keeps the legal cells.
proof fn lemma_swap_legal(n: nat, occ: Seq<u8>)
    requires
        occ.len() == num_cells(n),
    ensures
        legal_moves(n, swap_sides(occ)) == legal_moves(n, occ),
{
    lemma_indices_where_ext(
        |i: int| is_valid_cell(n, i) && swap_sides(occ)[i] == EMPTY,
        |i: int| is_valid_cell(n, i) && occ[i] == EMPTY,
        num_cells(n) as int,
    );
}

/// Negamax duality: the search of the swapped position for the other side,
/// with the window mirrored, is the negated search.
pub proof fn lemma_negamax_duality(
    n: nat,
    occ: Seq<u8>,
    depth: nat,
    alpha: int,
    beta: int,
    maximizing: bool,
)
    requires
        n <= 500,
        occ.len() == num_cells(n),
        antisymmetric_below(n, occ, depth, maximizing),
    ensures
        ab_value(n, swap_sides(occ), depth, -beta, -alpha, !maximizing) == -ab_value(
            n,
            occ,
            depth,
            alpha,
            beta,
            maximizing,
        ),
    decreases depth, 1nat, 0int,
{
    lemma_swap_legal(n, occ);
    assert(reachable(n, occ, occ, depth, maximizing));
    let moves = legal_moves(n, occ);
    if depth > 0 && moves.len() > 0 {
        if maximizing {
            lemma_scan_duality(n, occ, depth, alpha, beta, true, 0, -INFINITY as int, alpha);
        } else {
            lemma_scan_duality(n, occ, depth, alpha, beta, false, 0, INFINITY as int, beta);
        }
    }
}

proof fn lemma_scan_duality(
    n: nat,
    occ: Seq<u8>,
    depth: nat,
    alpha: int,
    beta: int,
    maximizing: bool,
    k: nat,
    best: int,
    bound: int,
)
    requires
        n <= 500,
        occ.len() == num_cells(n),
        antisymmetric_below(n, occ, depth, maximizing),
        depth > 0,
    ensures
        ab_scan(
            n,
            swap_sides(occ),
            depth,
            -beta,
            -alpha,
            !maximizing,
            legal_moves(n, occ),
            k,
            -best,
            -bound,
        ) == -ab_scan(n, occ, depth, alpha, beta, maximizing, legal_moves(n, occ), k, best, bound),
    decreases depth, 0nat, legal_moves(n, occ).len() - k,
{
    let moves = legal_moves(n, occ);
    if k < moves.len() {
        lemma_legal_move_empty(n, occ, k as int);
        let m = moves[k as int] as int;
        let token = mover_token(maximizing);
        let child = occ.update(m, token);
        assert(swap_sides(occ).update(m, mover_token(!maximizing)) =~= swap_sides(child));
        let d1 = (depth - 1) as nat;
        let other_side = !maximizing;
        assert forall|o2: Seq<u8>| #[trigger] reachable(n, child, o2, d1, other_side) implies occupancy_value(
            n,
            swap_sides(o2),
        ) == -occupancy_value(n, o2) by {
            assert(0 <= m < occ.len() && is_valid_cell(n, m) && occ[m] == EMPTY && reachable(
                n,
                occ.update(m, mover_token(maximizing)),
                o2,
                (depth - 1) as nat,
                !maximizing,
            ));
            assert(reachable(n, occ, o2, depth, maximizing));
        }
        if maximizing {
            lemma_negamax_duality(n, child, d1, bound, beta, false);
        } else {
            lemma_negamax_duality(n, child, d1, alpha, bound, true);
        }
        let s = if maximizing {
            ab_value(n, child, d1, bound, beta, false)
        } else {
            ab_value(n, child, d1, alpha, bound, true)
        };
        let best2 = if maximizing {
            if s > best { s } else { best }
        } else {
            if s < best { s } else { best }
        };
        let bound2 = if maximizing {
            if s > bound { s } else { bound }
        } else {
            if s < bound { s } else { bound }
        };
        lemma_scan_duality(n, occ, depth, alpha, beta, maximizing, k + 1, best2, bound2);
    }
}

/// What a fail-soft search with the window `alpha`, `beta` owes: a result
/// at or below `alpha` bounds the value from above, one at or above `beta`
/// bounds it from below, and one strictly inside the window is the value.
pub open spec fn window_agrees(r: int, v: int, alpha: int, beta: int) -> bool {
    &&& r <= alpha ==> v <= r
    &&& r >= beta ==> v >= r
    &&& alpha < r < beta ==> r == v
}

/// Taking more moves into account only improves the best value.
proof fn lemma_best_over_monotone(
    n: nat,
    occ: Seq<u8>,
    depth: nat,
    maximizing: bool,
    moves: Seq<usize>,
    j: nat,
    k: nat,
)
    requires
        j <= k,
    ensures
        maximizing ==> best_over(n, occ, depth, maximizing, moves, j) <= best_over(
            n,
            occ,
            depth,
            maximizing,
            moves,
            k,
        ),
        !maximizing ==> best_over(n, occ, depth, maximizing, moves, j) >= best_over(
            n,
            occ,
            depth,
            maximizing,
            moves,
            k,
        ),
    decreases k - j,
{
    if j < k {
        lemma_best_over_monotone(n, occ, depth, maximizing, moves, j, (k - 1) as nat);
    }
}

/// Two predicates that agree below `k` select the same indices.
proof fn lemma_indices_where_ext(p: spec_fn(int) -> bool, q: spec_fn(int) -> bool, k: int)
    requires
        forall|i: int| 0 <= i < k ==> #[trigger] p(i) == q(i),
    ensures
        indices_where(p, k) == indices_where(q, k),
    decreases k,
{
    if k > 0 {
        lemma_indices_where_ext(p, q, k - 1);
    }
}

/// The legal cells listed by a board are the legal moves of its occupancy.
proof fn lemma_available_moves_legal(b: BoardState)
    requires
        b.wf(),
    ensures
        indices_where(|i: int| b.available@[i], b.available@.len() as int) == legal_moves(
            b.n(),
            b.occupancy@,
        ),
{
    lemma_indices_where_ext(
        |i: int| b.available@[i],
        |i: int| is_valid_cell(b.n(), i) && b.occupancy@[i] == EMPTY,
        b.available@.len() as int,
    );
}

/// Every entry of `moves` is a legal cell of `b`.
pub open spec fn legal_list(b: BoardState, moves: Seq<usize>) -> bool {
    forall|k: int|
        0 <= k < moves.len() ==> #[trigger] moves[k] < b.available@.len() && b.available@[moves[k] as int]
}

/// The legal cells of `b` are a legal list.
proof fn lemma_available_legal(b: BoardState)
    requires
        b.wf(),
    ensures
        legal_list(b, indices_where(|i: int| b.available@[i], b.available@.len() as int)),
{
    lemma_indices_where(|i: int| b.available@[i], b.available@.len() as int);
}

/// Placing and then taking back a stone on a legal cell restores the
/// occupancy and the set of legal cells exactly.
pub proof fn lemma_make_undo_restores(b: BoardState, cell: int, token: u8)
    requires
        b.wf(),
        0 <= cell < b.available@.len(),
        b.available@[cell],
    ensures
        b.occupancy@.update(cell, token).update(cell, EMPTY) == b.occupancy@,
        b.available@.update(cell, false).update(cell, true) == b.available@,
{
    assert(b.occupancy@.update(cell, token).update(cell, EMPTY) =~= b.occupancy@);
    assert(b.available@.update(cell, false).update(cell, true) =~= b.available@);
}

/// Alpha-beta value of `board` searched `depth` plies deep, the engine
/// moving when `maximizing`. The board comes back as it was.
pub fn alpha_beta(board: &mut BoardState, depth: u8, alpha: i32, beta: i32, maximizing: bool) -> (r: i32)
    requires
        old(board).wf(),
    ensures
        final(board).wf(),
        final(board).same_position(*old(board)),
        -VALUE_BOUND <= r <= VALUE_BOUND,
        depth == 0 ==> r == position_value(*old(board)),
        r == ab_value(
            old(board).n(),
            old(board).occupancy@,
            depth as nat,
            alpha as int,
            beta as int,
            maximizing,
        ),
        reached_evaluation(old(board).n(), old(board).occupancy@, depth as nat, maximizing, r as int),
        alpha < beta ==> window_agrees(
            r as int,
            full_value(old(board).n(), old(board).occupancy@, depth as nat, maximizing),
            alpha as int,
            beta as int,
        ),
        alpha == -INFINITY && beta == INFINITY ==> r == full_value(
            old(board).n(),
            old(board).occupancy@,
            depth as nat,
            maximizing,
        ),
    decreases depth, 2int,
{
    proof {
        assert(reachable(board.n(), board.occupancy@, board.occupancy@, depth as nat, maximizing));
    }
    if depth == 0 {
        return evaluate_position(board);
    }
    let moves = board.available_moves();
    proof {
        lemma_available_moves_legal(*board);
    }
    if moves.len() == 0 {
        return evaluate_position(board);
    }
    proof {
        lemma_available_legal(*board);
    }
    if maximizing {
        maximize(board, depth, alpha, beta, &moves)
    } else {
        minimize(board, depth, alpha, beta, &moves)
    }
}

/// Plays `cell` for `token`, searches the reply, and takes the stone back.
fn try_move(board: &mut BoardState, cell: usize, token: u8, depth: u8, alpha: i32, beta: i32) -> (r: i32)
    requires
        old(board).wf(),
        cell < old(board).available@.len(),
        old(board).available@[cell as int],
        token == OWN || token == OPPONENT,
        depth > 0,
    ensures
        final(board).wf(),
        final(board).same_position(*old(board)),
        -VALUE_BOUND <= r <= VALUE_BOUND,
        r == ab_value(
            old(board).n(),
            old(board).occupancy@.update(cell as int, token),
            (depth - 1) as nat,
            alpha as int,
            beta as int,
            token == OPPONENT,
        ),
        reached_evaluation(
            old(board).n(),
            old(board).occupancy@.update(cell as int, token),
            (depth - 1) as nat,
            token == OPPONENT,
            r as int,
        ),
        alpha < beta ==> window_agrees(
            r as int,
            full_value(
                old(board).n(),
                old(board).occupancy@.update(cell as int, token),
                (depth - 1) as nat,
                token == OPPONENT,
            ),
            alpha as int,
            beta as int,
        ),
    decreases depth, 0int,
{
    let ghost pre = *board;
    board.make_move(cell, token);
    let score = alpha_beta(board, depth - 1, alpha, beta, token == OPPONENT);
    board.undo_move(cell);
    proof {
        lemma_make_undo_restores(pre, cell as int, token);
    }
    score
}

/// Best score for the engine over `moves`, with cut-offs.
fn maximize(board: &mut BoardState, depth: u8, alpha: i32, beta: i32, moves: &Vec<usize>) -> (r: i32)
    requires
        old(board).wf(),
        depth > 0,
        legal_list(*old(board), moves@),
        moves@ == legal_moves(old(board).n(), old(board).occupancy@),
    ensures
        final(board).wf(),
        final(board).same_position(*old(board)),
        moves@.len() == 0 ==> r == -INFINITY,
        moves@.len() > 0 ==> -VALUE_BOUND <= r <= VALUE_BOUND,
        r == ab_scan(
            old(board).n(),
            old(board).occupancy@,
            depth as nat,
            alpha as int,
            beta as int,
            true,
            moves@,
            0,
            -INFINITY as int,
            alpha as int,
        ),
        moves@.len() > 0 ==> reached_evaluation(old(board).n(), old(board).occupancy@, depth as nat, true, r as int),
        alpha < beta ==> window_agrees(
            r as int,
            best_over(
                old(board).n(),
                old(board).occupancy@,
                depth as nat,
                true,
                moves@,
                moves@.len(),
            ),
            alpha as int,
            beta as int,
        ),
    decreases depth, 1int,
{
    let ghost pre = *board;
    let ghost n = pre.n();
    let ghost occ = pre.occupancy@;
    let ghost a0 = alpha as int;
    let ghost len = moves@.len();
    let mut best_score: i32 = -INFINITY;
    let mut alpha = alpha;
    let mut k: usize = 0;
    let mut cut = false;
    while k < moves.len() && !cut
        invariant
            board.wf(),
            board.same_position(pre),
            legal_list(pre, moves@),
            n == pre.n(),
            occ == pre.occupancy@,
            len == moves@.len(),
            depth > 0,
            k <= moves@.len(),
            k == 0 ==> best_score == -INFINITY && !cut && alpha == a0,
            k > 0 ==> reached_evaluation(n, occ, depth as nat, true, best_score as int),
            cut ==> best_score == ab_scan(n, occ, depth as nat, a0, beta as int, true, moves@, 0, -INFINITY as int, a0),
            !cut ==> ab_scan(n, occ, depth as nat, a0, beta as int, true, moves@, k as nat, best_score as int, alpha as int)
                == ab_scan(n, occ, depth as nat, a0, beta as int, true, moves@, 0, -INFINITY as int, a0),
            k > 0 ==> -VALUE_BOUND <= best_score <= VALUE_BOUND,
            k > 0 ==> alpha as int == if best_score > a0 {
                best_score as int
            } else {
                a0
            },
            a0 < beta && cut ==> best_score >= beta && best_over(n, occ, depth as nat, true, moves@, len)
                >= best_score,
            a0 < beta && !cut && k > 0 ==> best_score < beta && best_over(
                n,
                occ,
                depth as nat,
                true,
                moves@,
                k as nat,
            ) <= best_score && (best_score > a0 ==> best_over(
                n,
                occ,
                depth as nat,
                true,
                moves@,
                k as nat,
            ) == best_score),
        decreases moves@.len() - k,
    {
        let m = moves[k];
        let ghost a_before = alpha;
        let ghost best_before = best_score;
        let score = try_move(board, m, OWN, depth, alpha, beta);
        proof {
            let c = full_value(n, occ.update(m as int, OWN), (depth - 1) as nat, false);
            let prev = best_over(n, occ, depth as nat, true, moves@, k as nat);
            assert(best_over(n, occ, depth as nat, true, moves@, (k + 1) as nat) == if c > prev {
                c
            } else {
                prev
            });
            if a0 < beta && score >= beta {
                lemma_best_over_monotone(n, occ, depth as nat, true, moves@, (k + 1) as nat, len);
            }
        }
        proof {
            assert(m < pre.available@.len() && pre.available@[m as int]);
            if score > best_score {
                lemma_reached_through(n, occ, m as int, depth as nat, true, score as int);
            }
        }
        if score > best_score {
            best_score = score;
        }
        if score > alpha {
            alpha = score;
        }
        k = k + 1;
        cut = beta <= alpha;
    }
    best_score
}

/// Worst score for the engine over `moves`, with cut-offs.
fn minimize(board: &mut BoardState, depth: u8, alpha: i32, beta: i32, moves: &Vec<usize>) -> (r: i32)
    requires
        old(board).wf(),
        depth > 0,
        legal_list(*old(board), moves@),
        moves@ == legal_moves(old(board).n(), old(board).occupancy@),
    ensures
        final(board).wf(),
        final(board).same_position(*old(board)),
        moves@.len() == 0 ==> r == INFINITY,
        moves@.len() > 0 ==> -VALUE_BOUND <= r <= VALUE_BOUND,
        r == ab_scan(
            old(board).n(),
            old(board).occupancy@,
            depth as nat,
            alpha as int,
            beta as int,
            false,
            moves@,
            0,
            INFINITY as int,
            beta as int,
        ),
        moves@.len() > 0 ==> reached_evaluation(old(board).n(), old(board).occupancy@, depth as nat, false, r as int),
        alpha < beta ==> window_agrees(
            r as int,
            best_over(
                old(board).n(),
                old(board).occupancy@,
                depth as nat,
                false,
                moves@,
                moves@.len(),
            ),
            alpha as int,
            beta as int,
        ),
    decreases depth, 1int,
{
    let ghost pre = *board;
    let ghost n = pre.n();
    let ghost occ = pre.occupancy@;
    let ghost b0 = beta as int;
    let ghost len = moves@.len();
    let mut worst_score: i32 = INFINITY;
    let mut beta = beta;
    let mut k: usize = 0;
    let mut cut = false;
    while k < moves.len() && !cut
        invariant
            board.wf(),
            board.same_position(pre),
            legal_list(pre, moves@),
            n == pre.n(),
            occ == pre.occupancy@,
            len == moves@.len(),
            depth > 0,
            k <= moves@.len(),
            k == 0 ==> worst_score == INFINITY && !cut && beta == b0,
            k > 0 ==> reached_evaluation(n, occ, depth as nat, false, worst_score as int),
            cut ==> worst_score == ab_scan(n, occ, depth as nat, alpha as int, b0, false, moves@, 0, INFINITY as int, b0),
            !cut ==> ab_scan(n, occ, depth as nat, alpha as int, b0, false, moves@, k as nat, worst_score as int, beta as int)
                == ab_scan(n, occ, depth as nat, alpha as int, b0, false, moves@, 0, INFINITY as int, b0),
            k > 0 ==> -VALUE_BOUND <= worst_score <= VALUE_BOUND,
            k > 0 ==> beta as int == if worst_score < b0 {
                worst_score as int
            } else {
                b0
            },
            alpha < b0 && cut ==> worst_score <= alpha && best_over(n, occ, depth as nat, false, moves@, len)
                <= worst_score,
            alpha < b0 && !cut && k > 0 ==> worst_score > alpha && best_over(
                n,
                occ,
                depth as nat,
                false,
                moves@,
                k as nat,
            ) >= worst_score && (worst_score < b0 ==> best_over(
                n,
                occ,
                depth as nat,
                false,
                moves@,
                k as nat,
            ) == worst_score),
        decreases moves@.len() - k,
    {
        let m = moves[k];
        let score = try_move(board, m, OPPONENT, depth, alpha, beta);
        proof {
            let c = full_value(n, occ.update(m as int, OPPONENT), (depth - 1) as nat, true);
            let prev = best_over(n, occ, depth as nat, false, moves@, k as nat);
            assert(best_over(n, occ, depth as nat, false, moves@, (k + 1) as nat) == if c < prev {
                c
            } else {
                prev
            });
            if alpha < b0 && score <= alpha {
                lemma_best_over_monotone(n, occ, depth as nat, false, moves@, (k + 1) as nat, len);
            }
        }
        proof {
            assert(m < pre.available@.len() && pre.available@[m as int]);
            if score < worst_score {
                lemma_reached_through(n, occ, m as int, depth as nat, false, score as int);
            }
        }
        if score < worst_score {
            worst_score = score;
        }
        if score < beta {
            beta = score;
        }
        k = k + 1;
        cut = beta <= alpha;
    }
    worst_score
}

/// The board has a legal cell.
pub open spec fn has_legal_cell(b: BoardState) -> bool {
    exists|i: int| 0 <= i < b.available@.len() && #[trigger] b.available@[i]
}

/// The cells of a game as the search board of player `p` holds them.
pub open spec fn seen_by(cells: Seq<u8>, p: PlayerId) -> Seq<u8> {
    cells.map_values(|c: u8| relabel(c, token_of(p)))
}

/// Minimax value, searched `depth` plies deep, of the engine placing its
/// first stone on `cell`.
pub open spec fn root_value(n: nat, occ: Seq<u8>, depth: nat, cell: int) -> int {
    full_value(n, occ.update(cell, OWN), (depth - 1) as nat, false)
}

/// `cell` is legal and no legal cell has a greater root value at `depth`.
pub open spec fn is_best_root_move(n: nat, occ: Seq<u8>, depth: nat, cell: int) -> bool {
    &&& 0 <= cell < num_cells(n)
    &&& is_valid_cell(n, cell)
    &&& occ[cell] == EMPTY
    &&& forall|c: int|
        0 <= c < num_cells(n) && is_valid_cell(n, c) && occ[c] == EMPTY ==> #[trigger] root_value(
            n,
            occ,
            depth,
            c,
        ) <= root_value(n, occ, depth, cell)
}

/// `c` is an empty valid cell of `occ`.
pub open spec fn is_legal_cell(n: nat, occ: Seq<u8>, c: int) -> bool {
    0 <= c < num_cells(n) && is_valid_cell(n, c) && occ[c] == EMPTY
}

/// `w` is the cell a root search at `depth` with the hint `pv` returns: a
/// legal cell of greatest root value, the hint when it ties for that value,
/// else the least such cell.
pub open spec fn picks_root_move(n: nat, occ: Seq<u8>, depth: nat, pv: int, w: int) -> bool {
    &&& is_best_root_move(n, occ, depth, w)
    &&& is_legal_cell(n, occ, pv) && root_value(n, occ, depth, pv) == root_value(n, occ, depth, w)
        ==> w == pv
    &&& w != pv ==> forall|c: int|
        0 <= c < w && c != pv && is_legal_cell(n, occ, c) ==> #[trigger] root_value(
            n,
            occ,
            depth,
            c,
        ) < root_value(n, occ, depth, w)
}

/// The cell a root search at `depth` with the hint `pv` returns.
pub open spec fn root_pick(n: nat, occ: Seq<u8>, depth: nat, pv: int) -> int {
    choose|w: int| picks_root_move(n, occ, depth, pv, w)
}

/// At most one cell is the pick of a root search.
pub proof fn lemma_root_pick_unique(n: nat, occ: Seq<u8>, depth: nat, pv: int, w: int)
    requires
        picks_root_move(n, occ, depth, pv, w),
    ensures
        root_pick(n, occ, depth, pv) == w,
{
    let v = root_pick(n, occ, depth, pv);
    assert(picks_root_move(n, occ, depth, pv, v));
    assert(root_value(n, occ, depth, v) <= root_value(n, occ, depth, w));
    assert(root_value(n, occ, depth, w) <= root_value(n, occ, depth, v));
    if v != w {
        if v < w {
            assert(is_legal_cell(n, occ, v));
            assert(root_value(n, occ, depth, v) < root_value(n, occ, depth, w));
        } else {
            assert(is_legal_cell(n, occ, w));
            assert(root_value(n, occ, depth, w) < root_value(n, occ, depth, v));
        }
    }
}

/// One full-window search of `depth` plies from the root. The hint `pv`
/// is tried first when it is legal, then the other legal cells in
/// ascending order; a later cell replaces the best only with a strictly
/// greater score. Returns the chosen cell and its score.
pub fn search_best_move(board: &mut BoardState, depth: u8, pv: usize) -> (r: (usize, i32))
    requires
        old(board).wf(),
        depth > 0,
        has_legal_cell(*old(board)),
    ensures
        final(board).wf(),
        final(board).same_position(*old(board)),
        r.0 < old(board).available@.len() && old(board).available@[r.0 as int],
        -VALUE_BOUND <= r.1 <= VALUE_BOUND,
        r.1 == root_value(old(board).n(), old(board).occupancy@, depth as nat, r.0 as int),
        is_best_root_move(old(board).n(), old(board).occupancy@, depth as nat, r.0 as int),
        pv < old(board).available@.len() && old(board).available@[pv as int] && root_value(
            old(board).n(),
            old(board).occupancy@,
            depth as nat,
            pv as int,
        ) == r.1 ==> r.0 == pv,
        r.0 != pv ==> forall|c: int|
            0 <= c < r.0 && c != pv && is_valid_cell(old(board).n(), c)
                && old(board).occupancy@[c] == EMPTY ==> #[trigger] root_value(
                old(board).n(),
                old(board).occupancy@,
                depth as nat,
                c,
            ) < r.1,
        picks_root_move(old(board).n(), old(board).occupancy@, depth as nat, pv as int, r.0 as int),
        r.0 == root_pick(old(board).n(), old(board).occupancy@, depth as nat, pv as int),
{
    let ghost pre = *board;
    let ghost n = pre.n();
    let ghost occ = pre.occupancy@;
    let moves = board.available_moves();
    proof {
        lemma_available_legal(*board);
        lemma_indices_where(|i: int| board.available@[i], board.available@.len() as int);
        assert forall|c: int|
            0 <= c < num_cells(n) && is_valid_cell(n, c) && occ[c] == EMPTY implies #[trigger] moves@.contains(
                c as usize,
            ) by {
            assert(board.available@[c]);
        }
    }
    let pv_legal = pv < board.available.len() && board.available[pv];
    let mut best_move: usize = pv;
    let mut best_score: i32 = -INFINITY;
    let mut have = false;
    if pv_legal {
        best_score = try_move(board, pv, OWN, depth, -INFINITY, INFINITY);
        have = true;
    }
    let ghost mut bi: int = 0;
    let mut k: usize = 0;
    while k < moves.len()
        invariant
            board.wf(),
            board.same_position(pre),
            n == pre.n(),
            occ == pre.occupancy@,
            depth > 0,
            legal_list(pre, moves@),
            k <= moves@.len(),
            forall|a: int, b: int| 0 <= a < b < moves@.len() ==> #[trigger] moves@[a] < #[trigger] moves@[b],
            forall|c: int|
                0 <= c < num_cells(n) && is_valid_cell(n, c) && occ[c] == EMPTY ==> #[trigger] moves@.contains(
                    c as usize,
                ),
            pv_legal == (pv < pre.available@.len() && pre.available@[pv as int]),
            have ==> best_move < pre.available@.len() && pre.available@[best_move as int]
                && -VALUE_BOUND <= best_score <= VALUE_BOUND && best_score == root_value(
                n,
                occ,
                depth as nat,
                best_move as int,
            ),
            !have ==> best_score == -INFINITY && !pv_legal,
            pv_legal ==> have && (best_move == pv || root_value(n, occ, depth as nat, pv as int)
                < best_score),
            forall|j: int| 0 <= j < k && #[trigger] moves@[j] != pv ==> have,
            forall|j: int|
                0 <= j < k && moves@[j] != pv ==> #[trigger] root_value(
                    n,
                    occ,
                    depth as nat,
                    moves@[j] as int,
                ) <= best_score,
            have && best_move != pv ==> 0 <= bi < k && moves@[bi] == best_move && forall|j: int|
                0 <= j < bi && moves@[j] != pv ==> #[trigger] root_value(
                    n,
                    occ,
                    depth as nat,
                    moves@[j] as int,
                ) < best_score,
        decreases moves@.len() - k,
    {
        let m = moves[k];
        if m != pv {
            let score = try_move(board, m, OWN, depth, best_score, INFINITY);
            if score > best_score {
                best_score = score;
                best_move = m;
                have = true;
                proof {
                    bi = k as int;
                }
            }
        }
        k = k + 1;
    }
    proof {
        let i = choose|i: int| 0 <= i < pre.available@.len() && #[trigger] pre.available@[i];
        assert(moves@.contains(i as usize));
        let ji = choose|j: int| 0 <= j < moves@.len() && moves@[j] == i as usize;
        if moves@[ji] != pv {
            assert(have);
        } else {
            assert(pv_legal);
        }
        assert(have);
        assert forall|c: int|
            0 <= c < num_cells(n) && is_valid_cell(n, c) && occ[c] == EMPTY implies #[trigger] root_value(
                n,
                occ,
                depth as nat,
                c,
            ) <= best_score by {
            assert(moves@.contains(c as usize));
            if c != pv as int {
                let j = choose|j: int| 0 <= j < moves@.len() && moves@[j] == c as usize;
                assert(root_value(n, occ, depth as nat, moves@[j] as int) <= best_score);
            } else {
                assert(pre.available@[c]);
            }
        }
        if best_move != pv {
            assert forall|c: int|
                0 <= c < best_move && c != pv && is_valid_cell(n, c) && occ[c] == EMPTY implies #[trigger] root_value(
                    n,
                    occ,
                    depth as nat,
                    c,
                ) < best_score by {
                assert(moves@.contains(c as usize));
                let j = choose|j: int| 0 <= j < moves@.len() && moves@[j] == c as usize;
                if j >= bi {
                    if j > bi {
                        assert(moves@[bi] < moves@[j]);
                    }
                }
                assert(root_value(n, occ, depth as nat, moves@[j] as int) < best_score);
            }
        }
    }
    proof {
        assert(picks_root_move(n, occ, depth as nat, pv as int, best_move as int));
        lemma_root_pick_unique(n, occ, depth as nat, pv as int, best_move as int);
    }
    (best_move, best_score)
}

/// At `depth`, no legal cell reaches the score of a forced win.
pub open spec fn no_forced_win(n: nat, occ: Seq<u8>, depth: nat) -> bool {
    forall|c: int|
        0 <= c < num_cells(n) && is_valid_cell(n, c) && occ[c] == EMPTY ==> #[trigger] root_value(
            n,
            occ,
            depth,
            c,
        ) < WIN_SCORE - WIN_MARGIN
}

/// Placing the engine's stone on the legal cell `c` connects all three sides.
pub open spec fn wins_at_once(n: nat, occ: Seq<u8>, c: int) -> bool {
    &&& 0 <= c < num_cells(n)
    &&& is_valid_cell(n, c)
    &&& occ[c] == EMPTY
    &&& connects_all_sides(n, owned_by(occ.update(c, OWN), OWN))
}

/// Once the engine's stones connect all three sides, every search below
/// the position is worth `WIN_SCORE`: later stones never undo the link.
pub proof fn lemma_won_position_value(n: nat, occ: Seq<u8>, depth: nat, maximizing: bool)
    requires
        n <= 500,
        occ.len() == num_cells(n),
        connects_all_sides(n, owned_by(occ, OWN)),
    ensures
        full_value(n, occ, depth, maximizing) == WIN_SCORE,
    decreases depth, 1nat, 0nat,
{
    let moves = legal_moves(n, occ);
    if depth > 0 && moves.len() > 0 {
        lemma_won_best_over(n, occ, depth, maximizing, moves.len());
    }
}

proof fn lemma_won_best_over(n: nat, occ: Seq<u8>, depth: nat, maximizing: bool, k: nat)
    requires
        n <= 500,
        occ.len() == num_cells(n),
        connects_all_sides(n, owned_by(occ, OWN)),
        depth > 0,
        0 < k <= legal_moves(n, occ).len(),
    ensures
        best_over(n, occ, depth, maximizing, legal_moves(n, occ), k) == WIN_SCORE,
    decreases depth, 0nat, k,
{
    let moves = legal_moves(n, occ);
    let m = moves[k - 1] as int;
    lemma_legal_move_empty(n, occ, k - 1);
    let token = if maximizing {
        OWN
    } else {
        OPPONENT
    };
    lemma_child_still_won(n, occ, m, token);
    lemma_won_position_value(n, occ.update(m, token), (depth - 1) as nat, !maximizing);
    if k > 1 {
        lemma_won_best_over(n, occ, depth, maximizing, (k - 1) as nat);
    }
    let prev = best_over(n, occ, depth, maximizing, moves, (k - 1) as nat);
    let child = full_value(n, occ.update(m, token), (depth - 1) as nat, !maximizing);
    assert(child == WIN_SCORE);
    assert(k == 1 ==> prev == if maximizing { -INFINITY as int } else { INFINITY as int });
    assert(best_over(n, occ, depth, maximizing, moves, k) == if maximizing {
        if child > prev { child } else { prev }
    } else {
        if child < prev { child } else { prev }
    });
}

/// The `j`-th legal move is an empty cell of the board.
proof fn lemma_legal_move_empty(n: nat, occ: Seq<u8>, j: int)
    requires
        n <= 500,
        0 <= j < legal_moves(n, occ).len(),
    ensures
        0 <= legal_moves(n, occ)[j] < num_cells(n),
        is_valid_cell(n, legal_moves(n, occ)[j] as int),
        occ[legal_moves(n, occ)[j] as int] == EMPTY,
{
    assert(n * n <= 500 * 500) by (nonlinear_arith)
        requires
            n <= 500,
    ;
    lemma_indices_where(|i: int| is_valid_cell(n, i) && occ[i] == EMPTY, num_cells(n) as int);
}

/// Adding a stone to an empty cell keeps the engine's connection.
proof fn lemma_child_still_won(n: nat, occ: Seq<u8>, m: int, token: u8)
    requires
        occ.len() == num_cells(n),
        0 <= m < occ.len(),
        occ[m] == EMPTY,
        connects_all_sides(n, owned_by(occ, OWN)),
    ensures
        connects_all_sides(n, owned_by(occ.update(m, token), OWN)),
{
    let o1 = owned_by(occ, OWN);
    let o2 = owned_by(occ.update(m, token), OWN);
    assert forall|i: int| 0 <= i < o1.len() && #[trigger] o1[i] implies o2[i] by {
        assert(i != m);
    }
    assert forall|i: int| is_valid_cell(n, i) implies 0 <= i < o1.len() by {}
    lemma_connects_monotone(n, o1, o2);
}

/// A cell that wins at once has the score of a forced win at every depth.
pub proof fn lemma_immediate_win_is_forced(n: nat, occ: Seq<u8>, c: int, depth: nat)
    requires
        n <= 500,
        occ.len() == num_cells(n),
        wins_at_once(n, occ, c),
        depth > 0,
    ensures
        root_value(n, occ, depth, c) == WIN_SCORE,
        !no_forced_win(n, occ, depth),
{
    lemma_won_position_value(n, occ.update(c, OWN), (depth - 1) as nat, false);
    assert(root_value(n, occ, depth, c) >= WIN_SCORE - WIN_MARGIN);
}

/// The legal cells of the game are the legal cells of its search board.
proof fn lemma_game_board_legal(game: GameY, b: BoardState, own: u8)
    requires
        game.wf(),
        b.wf(),
        b.size == game.size,
        own == 1 || own == 2,
        b.occupancy@ == game.cells@.map_values(|c: u8| relabel(c, own)),
    ensures
        forall|i: int|
            0 <= i < num_cells(game.n()) ==> (#[trigger] b.available@[i] <==> game.available@.contains(
                i as u32,
            )),
        forall|k: int|
            0 <= k < game.available@.len() ==> #[trigger] game.available@[k] < num_cells(game.n())
                && is_valid_cell(game.n(), game.available@[k] as int),
{
    let n = game.n();
    let p = |i: int| is_valid_cell(n, i) && game.cells@[i] == 0;
    lemma_indices_where(p, num_cells(n) as int);
    let free = free_cells(n, game.cells@);
    lemma_game_cells_valid(game);
    assert forall|i: int| 0 <= i < num_cells(n) implies (#[trigger] b.available@[i]
        <==> game.available@.contains(i as u32)) by {
        if b.available@[i] {
            assert(p(i));
            assert(free.contains(i as usize));
            let k = choose|k: int| 0 <= k < free.len() && free[k] == i as usize;
            assert(game.available@[k] as usize == free[k]);
            assert(game.available@[k] == i as u32);
        }
        if game.available@.contains(i as u32) {
            let k = choose|k: int| 0 <= k < game.available@.len() && game.available@[k] == i as u32;
            assert(game.available@[k] as usize == free[k]);
            assert(p(free[k] as int));
        }
    }
}

/// The legal cells of a game are valid cells.
proof fn lemma_game_cells_valid(game: GameY)
    requires
        game.wf(),
    ensures
        forall|k: int|
            0 <= k < game.available@.len() ==> #[trigger] game.available@[k] < num_cells(game.n())
                && is_valid_cell(game.n(), game.available@[k] as int),
{
    let n = game.n();
    let p = |i: int| is_valid_cell(n, i) && game.cells@[i] == 0;
    lemma_indices_where(p, num_cells(n) as int);
    let free = free_cells(n, game.cells@);
    assert forall|k: int| 0 <= k < game.available@.len() implies #[trigger] game.available@[k]
        < num_cells(n) && is_valid_cell(n, game.available@[k] as int) by {
        assert(game.available@[k] as usize == free[k]);
    }
}

/// The search board of `game` seen by `player`.
fn board_for(game: &GameY, player: PlayerId) -> (b: BoardState)
    requires
        game.wf(),
        player.id < 2,
    ensures
        b.wf(),
        b.size == game.size,
        b.occupancy@ == game.cells@.map_values(|c: u8| relabel(c, token_of(player))),
        forall|i: int|
            0 <= i < num_cells(game.n()) ==> (#[trigger] b.available@[i] <==> game.available@.contains(
                i as u32,
            )),
{
    let own: u8 = if player.id == 0 {
        1
    } else {
        2
    };
    let b = BoardState::from_cells(game.size, &game.cells, own);
    proof {
        lemma_game_board_legal(*game, b, own);
    }
    b
}

/// The cell `w` comes first, in ascending order, among the legal cells of
/// greatest root value at `depth`.
pub open spec fn first_best_root_move(n: nat, occ: Seq<u8>, depth: nat, w: int) -> bool {
    &&& is_best_root_move(n, occ, depth, w)
    &&& forall|c: int|
        0 <= c < w && is_valid_cell(n, c) && occ[c] == EMPTY ==> #[trigger] root_value(
            n,
            occ,
            depth,
            c,
        ) < root_value(n, occ, depth, w)
}

/// The cell iterative deepening holds after finishing `depth`: the depth
/// `MIN_DEPTH` search is hinted with `first`, each deeper one with the
/// previous depth's cell.
pub open spec fn deepening_choice(n: nat, occ: Seq<u8>, depth: nat, first: int) -> int
    decreases depth,
{
    if depth <= MIN_DEPTH {
        root_pick(n, occ, depth, first)
    } else {
        root_pick(n, occ, depth, deepening_choice(n, occ, (depth - 1) as nat, first))
    }
}

/// One depth of iterative deepening: nothing once the budget is `spent`,
/// else the root search at `depth` hinted with `best_move`.
pub fn deepening_step(board: &mut BoardState, depth: u8, best_move: usize, spent: bool) -> (r:
    Option<(usize, i32)>)
    requires
        old(board).wf(),
        depth > 0,
        has_legal_cell(*old(board)),
    ensures
        final(board).wf(),
        final(board).same_position(*old(board)),
        r is None <==> spent,
        r is Some ==> ({
            let (m, score) = r.unwrap();
            &&& m < old(board).available@.len() && old(board).available@[m as int]
            &&& -VALUE_BOUND <= score <= VALUE_BOUND
            &&& score == root_value(old(board).n(), old(board).occupancy@, depth as nat, m as int)
            &&& picks_root_move(
                old(board).n(),
                old(board).occupancy@,
                depth as nat,
                best_move as int,
                m as int,
            )
            &&& m == root_pick(old(board).n(), old(board).occupancy@, depth as nat, best_move as int)
        }),
{
    if spent {
        None
    } else {
        Some(search_best_move(board, depth, best_move))
    }
}

/// Searches deeper and deeper, from `MIN_DEPTH` up to `MAX_DEPTH` plies,
/// until the budget of `max_time_ms` milliseconds is spent (checked between
/// depths only) or a depth finds a forced win. Each depth tries the
/// previous depth's best cell first. Returns the cell chosen by the last
/// finished depth (the first legal cell if none finished) and that depth
/// (0 if none).
pub fn iterative_deepening_search(game: &GameY, max_time_ms: u64, bot_player: PlayerId) -> (r: (
    u32,
    u8,
))
    requires
        game.wf(),
        bot_player.id < 2,
        game.next_spec() is Some,
        game.available@.len() > 0,
    ensures
        game.available@.contains(r.0),
        r.1 == 0 || (MIN_DEPTH <= r.1 <= MAX_DEPTH),
        r.1 == 0 ==> r.0 == game.available@[0],
        max_time_ms == 0 ==> r.0 == game.available@[0] && r.1 == 0,
        r.1 > 0 ==> r.0 == deepening_choice(
            game.n(),
            seen_by(game.cells@, bot_player),
            r.1 as nat,
            game.available@[0] as int,
        ),
        r.1 > 0 ==> is_best_root_move(
            game.n(),
            seen_by(game.cells@, bot_player),
            r.1 as nat,
            r.0 as int,
        ),
        r.1 == MIN_DEPTH ==> first_best_root_move(
            game.n(),
            seen_by(game.cells@, bot_player),
            MIN_DEPTH as nat,
            r.0 as int,
        ),
        forall|d: nat|
            MIN_DEPTH <= d < r.1 ==> #[trigger] no_forced_win(
                game.n(),
                seen_by(game.cells@, bot_player),
                d,
            ),
        (exists|c: int| #[trigger] wins_at_once(game.n(), seen_by(game.cells@, bot_player), c))
            ==> r.1 == 0 || r.1 == MIN_DEPTH,
{
    let ghost n = game.n();
    let ghost seen = seen_by(game.cells@, bot_player);
    let start = clock_start();
    let mut board = board_for(game, bot_player);
    let ghost pre = board;
    let first = game.available[0];
    proof {
        lemma_game_board_legal(*game, board, token_of(bot_player));
        lemma_first_legal_is_least(*game, board);
        assert(game.available@.contains(first));
        assert(board.available@[first as int]);
    }
    let mut best_move: usize = first as usize;
    let mut depth_reached: u8 = 0;
    let mut depth: u8 = MIN_DEPTH;
    let mut done = false;
    while !done
        invariant
            board.wf(),
            board.same_position(pre),
            pre.size == game.size,
            forall|i: int|
                0 <= i < num_cells(game.n()) ==> (#[trigger] pre.available@[i] <==> game.available@.contains(
                    i as u32,
                )),
            best_move < pre.available@.len() && pre.available@[best_move as int],
            MIN_DEPTH <= depth <= MAX_DEPTH,
            depth_reached == 0 || (MIN_DEPTH <= depth_reached <= MAX_DEPTH),
            depth_reached == 0 ==> best_move == first as usize && depth == MIN_DEPTH,
            max_time_ms == 0 ==> depth_reached == 0,
            depth_reached > 0 ==> best_move == deepening_choice(
                n,
                seen,
                depth_reached as nat,
                first as int,
            ),
            depth_reached > 0 ==> is_best_root_move(n, seen, depth_reached as nat, best_move as int),
            depth_reached == MIN_DEPTH ==> first_best_root_move(
                n,
                seen,
                MIN_DEPTH as nat,
                best_move as int,
            ),
            forall|d: nat| MIN_DEPTH <= d < depth_reached ==> #[trigger] no_forced_win(n, seen, d),
            !done && depth_reached > 0 ==> depth == depth_reached + 1 && no_forced_win(
                n,
                seen,
                depth_reached as nat,
            ),
            n == game.n(),
            seen == seen_by(game.cells@, bot_player),
            pre.n() == n,
            pre.occupancy@ == seen,
            first == game.available@[0],
            forall|c: int|
                0 <= c < num_cells(n) && is_valid_cell(n, c) && seen[c] == EMPTY ==> first <= c,
        decreases MAX_DEPTH - depth, if done { 0int } else { 1int },
    {
        let spent = budget_spent(whole_millis(&elapsed_since(&start)), max_time_ms);
        let ghost prev_reached = depth_reached;
        let ghost hint = best_move;
        match deepening_step(&mut board, depth, best_move, spent) {
            None => {
                done = true;
            },
            Some((m, score)) => {
                proof {
                    if depth == MIN_DEPTH {
                        assert(prev_reached == 0);
                        assert(hint == first);
                        if m != hint {
                            assert forall|c: int|
                                0 <= c < m && is_valid_cell(n, c) && seen[c] == EMPTY implies #[trigger] root_value(
                                    n,
                                    seen,
                                    MIN_DEPTH as nat,
                                    c,
                                ) < root_value(n, seen, MIN_DEPTH as nat, m as int) by {
                                assert(is_legal_cell(n, seen, c));
                                if c != hint as int {
                                    assert(root_value(n, seen, depth as nat, c) < score);
                                } else {
                                    assert(root_value(n, seen, depth as nat, c) <= score);
                                }
                            }
                        }
                    }
                    assert(m == deepening_choice(n, seen, depth as nat, first as int));
                }
                best_move = m;
                depth_reached = depth;
                if keep_deepening(depth, score) {
                    proof {
                        assert forall|c: int|
                            0 <= c < num_cells(n) && is_valid_cell(n, c) && seen[c] == EMPTY implies #[trigger] root_value(
                                n,
                                seen,
                                depth as nat,
                                c,
                            ) < WIN_SCORE - WIN_MARGIN by {
                            assert(root_value(n, seen, depth as nat, c) <= score);
                        }
                        assert(no_forced_win(n, seen, depth as nat));
                    }
                    depth = depth + 1;
                } else {
                    done = true;
                }
            },
        }
    }
    proof {
        assert(pre.available@[best_move as int]);
        assert(game.available@.contains(best_move as u32));
        if exists|c: int| #[trigger] wins_at_once(n, seen, c) {
            let c = choose|c: int| #[trigger] wins_at_once(n, seen, c);
            if depth_reached > MIN_DEPTH {
                assert(no_forced_win(n, seen, MIN_DEPTH as nat));
                lemma_immediate_win_is_forced(n, seen, c, MIN_DEPTH as nat);
            }
        }
    }
    (best_move as u32, depth_reached)
}

/// The first legal cell of a game is its least legal cell.
proof fn lemma_first_legal_is_least(game: GameY, b: BoardState)
    requires
        game.wf(),
        b.wf(),
        b.size == game.size,
        game.available@.len() > 0,
        forall|i: int|
            0 <= i < num_cells(game.n()) ==> (#[trigger] b.available@[i] <==> game.available@.contains(
                i as u32,
            )),
    ensures
        forall|c: int|
            0 <= c < num_cells(game.n()) && is_valid_cell(game.n(), c) && b.occupancy@[c] == EMPTY
                ==> game.available@[0] <= c,
{
    let n = game.n();
    let p = |i: int| is_valid_cell(n, i) && game.cells@[i] == 0;
    lemma_indices_where(p, num_cells(n) as int);
    let free = free_cells(n, game.cells@);
    assert forall|c: int|
        0 <= c < num_cells(n) && is_valid_cell(n, c) && b.occupancy@[c] == EMPTY implies game.available@[0]
        <= c by {
        assert(b.available@[c]);
        assert(game.available@.contains(c as u32));
        let k = choose|k: int| 0 <= k < game.available@.len() && game.available@[k] == c as u32;
        assert(game.available@[k] as usize == free[k]);
        assert(game.available@[0] as usize == free[0]);
        if k > 0 {
            assert(free[0] < free[k]);
        }
    }
}

/// Value of `game` for `bot_player`, as the search evaluates its horizon.
pub fn evaluate_board(game: &GameY, bot_player: PlayerId) -> (r: i32)
    requires
        game.wf(),
        bot_player.id < 2,
    ensures
        r == occupancy_value(
            game.n(),
            seen_by(game.cells@, bot_player),
        ),
{
    let mut board = board_for(game, bot_player);
    evaluate_position(&mut board)
}

/// Alpha-beta value of `game` for `bot_player`, searched `depth` plies deep
/// with the window `alpha`, `beta`; `maximizing_player` says whether
/// `bot_player` moves first.
pub fn minimax(
    game: &GameY,
    depth: u8,
    alpha: i32,
    beta: i32,
    maximizing_player: bool,
    bot_player: PlayerId,
) -> (r: i32)
    requires
        game.wf(),
        bot_player.id < 2,
    ensures
        -VALUE_BOUND <= r <= VALUE_BOUND,
        depth == 0 ==> r == occupancy_value(
            game.n(),
            seen_by(game.cells@, bot_player),
        ),
        r == ab_value(
            game.n(),
            seen_by(game.cells@, bot_player),
            depth as nat,
            alpha as int,
            beta as int,
            maximizing_player,
        ),
        reached_evaluation(
            game.n(),
            seen_by(game.cells@, bot_player),
            depth as nat,
            maximizing_player,
            r as int,
        ),
        alpha < beta ==> window_agrees(
            r as int,
            full_value(
                game.n(),
                seen_by(game.cells@, bot_player),
                depth as nat,
                maximizing_player,
            ),
            alpha as int,
            beta as int,
        ),
        alpha == -INFINITY && beta == INFINITY ==> r == full_value(
            game.n(),
            seen_by(game.cells@, bot_player),
            depth as nat,
            maximizing_player,
        ),
{
    let mut board = board_for(game, bot_player);
    alpha_beta(&mut board, depth, alpha, beta, maximizing_player)
}

/// The game after the player to move places a stone on the legal cell
/// `move_idx`; `game` itself is left as it is.
pub fn simulate_move(game: &GameY, move_idx: u32) -> (r: GameY)
    requires
        game.wf(),
        game.next_spec() is Some,
        game.available@.contains(move_idx),
    ensures
        r.wf(),
        r.size == game.size,
        r.cells@ == game.cells@.update(move_idx as int, token_of(game.next_spec().unwrap())),
        r.status == if crate::game::has_won(
            game.n(),
            game.cells@.update(move_idx as int, token_of(game.next_spec().unwrap())),
            game.next_spec().unwrap(),
        ) {
            GameStatus::Finished { winner: game.next_spec().unwrap() }
        } else {
            GameStatus::Ongoing { next_player: other_spec(game.next_spec().unwrap()) }
        },
{
    proof {
        lemma_game_cells_valid(*game);
        let n = game.n();
        let p = |i: int| is_valid_cell(n, i) && game.cells@[i] == 0;
        lemma_indices_where(p, num_cells(n) as int);
        let k = choose|k: int| 0 <= k < game.available@.len() && game.available@[k] == move_idx;
        assert(game.available@[k] as usize == free_cells(n, game.cells@)[k]);
        assert(p(move_idx as int));
    }
    let mut next = game.snapshot();
    let player = match game.next_player() {
        Some(p) => p,
        None => {
            return next;
        },
    };
    let coords = Coordinates::from_index(move_idx, game.size);
    let placed = next.add_move(Movement::Placement { player, coords });
    proof {
        assert(placed is Ok);
    }
    next
}

/// Which coordinate measures the distance to side `axis`.
pub open spec fn axis_coord(n: nat, i: int, axis: int) -> int {
    if axis == 0 {
        crate::geometry::coord_x(n, i)
    } else if axis == 1 {
        crate::geometry::coord_y(n, i)
    } else {
        crate::geometry::coord_z(n, i)
    }
}

/// Smallest distance to side `axis` over the stones `token` holds among the
/// first `k` cells; `MAX_DISTANCE` without such a stone.
pub open spec fn min_distance(n: nat, cells: Seq<u8>, token: u8, axis: int, k: int) -> int
    decreases k,
{
    if k <= 0 {
        MAX_DISTANCE as int
    } else {
        let prev = min_distance(n, cells, token, axis, k - 1);
        if cells[k - 1] == token && axis_coord(n, k - 1, axis) < prev {
            axis_coord(n, k - 1, axis)
        } else {
            prev
        }
    }
}

pub open spec fn distance_total(g: GameY, p: PlayerId) -> int {
    let t = token_of(p);
    let k = num_cells(g.n()) as int;
    min_distance(g.n(), g.cells@, t, 0, k) + min_distance(g.n(), g.cells@, t, 1, k)
        + min_distance(g.n(), g.cells@, t, 2, k)
}

/// For each side, the smallest distance from a stone of `player` to it
/// (`MAX_DISTANCE` when `player` has no stone).
pub fn calculate_geometric_distances_to_edges(game: &GameY, player: PlayerId) -> (r: [i32; 3])
    requires
        game.wf(),
        player.id < 2,
    ensures
        forall|axis: int|
            0 <= axis < 3 ==> #[trigger] r@[axis] == min_distance(
                game.n(),
                game.cells@,
                token_of(player),
                axis,
                num_cells(game.n()) as int,
            ),
        forall|axis: int| 0 <= axis < 3 ==> 0 <= #[trigger] r@[axis] <= MAX_DISTANCE,
{
    let ghost nn = game.n();
    let n = game.size as usize;
    let token: u8 = if player.id == 0 {
        1
    } else {
        2
    };
    let mut min_a: i32 = MAX_DISTANCE;
    let mut min_b: i32 = MAX_DISTANCE;
    let mut min_c: i32 = MAX_DISTANCE;
    let total = game.cells.len();
    let mut i: usize = 0;
    while i < total
        invariant
            game.wf(),
            nn == game.n(),
            n == game.size,
            token == token_of(player),
            total == game.cells@.len(),
            total == num_cells(nn),
            i <= total,
            min_a == min_distance(nn, game.cells@, token, 0, i as int),
            min_b == min_distance(nn, game.cells@, token, 1, i as int),
            min_c == min_distance(nn, game.cells@, token, 2, i as int),
            0 <= min_a <= MAX_DISTANCE,
            0 <= min_b <= MAX_DISTANCE,
            0 <= min_c <= MAX_DISTANCE,
        decreases total - i,
    {
        if game.cells[i] == token {
            proof {
                crate::geometry::lemma_row_col(nn, i as int);
            }
            let r = (i / n) as i32;
            let c = (i % n) as i32;
            let x = (n as i32) - 1 - r;
            let y = c;
            let z = r - c;
            if x < min_a {
                min_a = x;
            }
            if y < min_b {
                min_b = y;
            }
            if z < min_c {
                min_c = z;
            }
        }
        i = i + 1;
    }
    [min_a, min_b, min_c]
}

/// Edge-distance value of `game` for `bot_player`: `WIN_SCORE` or
/// `LOSE_SCORE` once the game has a winner, else the opponent's summed
/// distances to the three sides minus the bot's.
pub fn manhattan_board_eval(game: &GameY, bot_player: PlayerId) -> (r: i32)
    requires
        game.wf(),
        bot_player.id < 2,
    ensures
        r == match game.status {
            GameStatus::Finished { winner } => if winner == bot_player {
                WIN_SCORE as int
            } else {
                LOSE_SCORE as int
            },
            GameStatus::Ongoing { .. } => distance_total(*game, other_spec(bot_player))
                - distance_total(*game, bot_player),
        },
{
    if let GameStatus::Finished { winner } = game.status {
        if winner == bot_player {
            return WIN_SCORE;
        } else {
            return LOSE_SCORE;
        }
    }
    let opponent = crate::game::other_player(bot_player);
    let my_distances = calculate_geometric_distances_to_edges(game, bot_player);
    let opp_distances = calculate_geometric_distances_to_edges(game, opponent);
    let my_total = my_distances[0] + my_distances[1] + my_distances[2];
    let opp_total = opp_distances[0] + opp_distances[1] + opp_distances[2];
    opp_total - my_total
}

/// A bot that picks its move by iterative-deepening alpha-beta search.
pub struct MinimaxBot {
    pub max_time_ms: u64,
}

impl MinimaxBot {
    pub fn new(max_time_ms: u64) -> (r: MinimaxBot)
        ensures
            r.max_time_ms == max_time_ms,
    {
        MinimaxBot { max_time_ms }
    }

    pub fn name(&self) -> (r: &'static str)
        ensures
            r@ == "minimax_bot"@,
    {
        "minimax_bot"
    }

    /// The move the bot plays in `board`: `None` once the game has a
    /// winner (or no cell is left), else the coordinates of a legal cell.
    pub fn choose_move(&self, board: &GameY) -> (r: Option<Coordinates>)
        requires
            board.wf(),
        ensures
            r is None <==> (board.next_spec() is None || board.available@.len() == 0),
            r is Some ==> exists|k: int|
                0 <= k < board.available@.len() && r == Some(
                    coords_of(board.n(), #[trigger] board.available@[k] as int),
                ) && (k == 0 || exists|d: nat|
                    MIN_DEPTH <= d <= MAX_DEPTH && #[trigger] is_best_root_move(
                        board.n(),
                        seen_by(board.cells@, board.next_spec().unwrap()),
                        d,
                        board.available@[k] as int,
                    ) && board.available@[k] as int == deepening_choice(
                        board.n(),
                        seen_by(board.cells@, board.next_spec().unwrap()),
                        d,
                        board.available@[0] as int,
                    )),
            board.next_spec() is Some && board.available@.len() == 1 ==> r == Some(
                coords_of(board.n(), board.available@[0] as int),
            ),
            self.max_time_ms == 0 && board.next_spec() is Some && board.available@.len() > 0 ==> r
                == Some(coords_of(board.n(), board.available@[0] as int)),
            board.next_spec() is Some && (exists|c: int|
                #[trigger] wins_at_once(board.n(), seen_by(board.cells@, board.next_spec().unwrap()), c))
                ==> r == Some(coords_of(board.n(), board.available@[0] as int)) || exists|w: int|
                r == Some(coords_of(board.n(), w)) && #[trigger] first_best_root_move(
                    board.n(),
                    seen_by(board.cells@, board.next_spec().unwrap()),
                    MIN_DEPTH as nat,
                    w,
                ),
    {
        let bot_player = match board.next_player() {
            Some(p) => p,
            None => {
                return None;
            },
        };
        if board.available.len() == 0 {
            proof {
                let n = board.n();
                let seen = seen_by(board.cells@, bot_player);
                if exists|c: int| #[trigger] wins_at_once(n, seen, c) {
                    let c = choose|c: int| #[trigger] wins_at_once(n, seen, c);
                    let p = |i: int| is_valid_cell(n, i) && board.cells@[i] == 0;
                    lemma_indices_where(p, num_cells(n) as int);
                    assert(p(c));
                    assert(free_cells(n, board.cells@).contains(c as usize));
                }
            }
            return None;
        }
        let (best_move, depth) = iterative_deepening_search(board, self.max_time_ms, bot_player);
        proof {
            lemma_game_cells_valid(*board);
            if depth == MIN_DEPTH {
                assert(first_best_root_move(
                    board.n(),
                    seen_by(board.cells@, bot_player),
                    MIN_DEPTH as nat,
                    best_move as int,
                ));
            }
            if depth == 0 {
                assert(board.available@[0] == best_move);
            } else {
                let k = choose|k: int|
                    0 <= k < board.available@.len() && board.available@[k] == best_move;
                assert(is_best_root_move(
                    board.n(),
                    seen_by(board.cells@, bot_player),
                    depth as nat,
                    board.available@[k] as int,
                ));
            }
        }
        let coordinates = Coordinates::from_index(best_move, board.size);
        Some(coordinates)
    }
}

} // verus!
