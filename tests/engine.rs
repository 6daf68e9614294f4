use gamey::board::BoardState;
use gamey::game::{GameError, GameStatus, GameY, Movement, PlayerId};
use gamey::geometry::Coordinates;
use gamey::heuristics::{evaluate_board, evaluate_position};
use gamey::minimax::{
    budget_spent, deepening_step, keep_deepening, iterative_deepening_search, manhattan_board_eval, minimax, search_best_move, simulate_move,
    MinimaxBot, INFINITY, LOSE_SCORE, WIN_SCORE,
};

fn play(game: &mut GameY, player: u32, x: u32, y: u32, z: u32) -> Result<(), GameError> {
    game.add_move(Movement::Placement {
        player: PlayerId::new(player),
        coords: Coordinates::new(x, y, z),
    })
}

fn three_side_game() -> GameY {
    let mut game = GameY::new(2);
    play(&mut game, 0, 1, 0, 0).unwrap();
    play(&mut game, 1, 0, 1, 0).unwrap();
    play(&mut game, 0, 0, 0, 1).unwrap();
    game
}

#[test]
fn empty_board_evaluates_to_zero_for_both_players() {
    for size in 1..6 {
        let game = GameY::new(size);
        assert_eq!(evaluate_board(&game, PlayerId::new(0)), 0);
        assert_eq!(evaluate_board(&game, PlayerId::new(1)), 0);
        let mut board = BoardState::from_cells(size, &game.cells, 1);
        assert_eq!(evaluate_position(&mut board), 0);
    }
}

#[test]
fn center_score_of_a_corner_stone() {
    let mut game = GameY::new(3);
    play(&mut game, 0, 2, 0, 0).unwrap();
    // |2 - 0| + |0 - 0| + |0 - 2| = 4 off the centre.
    assert_eq!(evaluate_board(&game, PlayerId::new(0)), 296);
    assert_eq!(evaluate_board(&game, PlayerId::new(1)), -296);
}

#[test]
fn center_score_of_a_central_stone() {
    let mut game = GameY::new(4);
    play(&mut game, 0, 1, 1, 1).unwrap();
    play(&mut game, 1, 3, 0, 0).unwrap();
    // 300 for the centre, 300 - 6 for the corner.
    assert_eq!(evaluate_board(&game, PlayerId::new(0)), 6);
    assert_eq!(evaluate_board(&game, PlayerId::new(1)), -6);
}

#[test]
fn three_sides_scenario_is_a_win() {
    let game = three_side_game();
    assert_eq!(game.status, GameStatus::Finished { winner: PlayerId::new(0) });

    let mut mine = BoardState::from_cells(2, &game.cells, 1);
    assert!(mine.has_connected_all_sides(1));
    assert!(!mine.has_connected_all_sides(2));
    assert_eq!(evaluate_position(&mut mine), WIN_SCORE);

    let mut theirs = BoardState::from_cells(2, &game.cells, 2);
    assert!(theirs.has_connected_all_sides(2));
    assert_eq!(evaluate_position(&mut theirs), -WIN_SCORE);

    assert_eq!(evaluate_board(&game, PlayerId::new(0)), WIN_SCORE);
    assert_eq!(evaluate_board(&game, PlayerId::new(1)), LOSE_SCORE);
}

#[test]
fn stones_on_every_side_but_apart_do_not_win() {
    let mut game = GameY::new(7);
    play(&mut game, 0, 0, 0, 6).unwrap();
    play(&mut game, 1, 3, 3, 0).unwrap();
    play(&mut game, 0, 6, 0, 0).unwrap();
    play(&mut game, 1, 3, 2, 1).unwrap();
    play(&mut game, 0, 0, 6, 0).unwrap();
    assert!(!game.check_game_over());
    let mut board = BoardState::from_cells(7, &game.cells, 1);
    assert!(!board.has_connected_all_sides(1));
    assert!(!board.has_connected_all_sides(2));
}

#[test]
fn make_then_undo_restores_the_board() {
    let mut game = GameY::new(4);
    play(&mut game, 0, 1, 1, 1).unwrap();
    let mut board = BoardState::from_cells(4, &game.cells, 2);
    let occupancy = board.occupancy.clone();
    let available = board.available.clone();
    for cell in board.available_moves() {
        board.make_move(cell, 1);
        assert_eq!(board.occupancy[cell], 1);
        assert!(!board.available[cell]);
        board.undo_move(cell);
        assert_eq!(board.occupancy, occupancy);
        assert_eq!(board.available, available);
    }
}

#[test]
fn legal_and_occupied_cells_of_a_small_board() {
    let mut game = GameY::new(2);
    // Cells are packed row by row into a 2 x 2 square; index 1 is off the board.
    assert_eq!(game.available_cells(), &vec![0, 2, 3]);
    play(&mut game, 0, 0, 1, 0).unwrap();
    assert_eq!(game.available_cells(), &vec![0, 2]);
    let board = BoardState::from_cells(2, &game.cells, 1);
    assert_eq!(board.available_moves(), vec![0, 2]);
    assert_eq!(board.occupied_cells(), vec![3]);
}

#[test]
fn coordinates_and_indices_correspond() {
    assert_eq!(Coordinates::new(0, 0, 2).to_index(3), 6);
    assert_eq!(Coordinates::new(2, 0, 0).to_index(3), 0);
    assert_eq!(Coordinates::from_index(6, 3), Coordinates::new(0, 0, 2));
    assert_eq!(Coordinates::from_index(4, 3), Coordinates::new(1, 1, 0));
}

#[test]
fn add_move_reports_each_error() {
    let mut game = GameY::new(3);
    assert_eq!(play(&mut game, 1, 2, 0, 0), Err(GameError::NotYourTurn));
    assert_eq!(play(&mut game, 0, 3, 0, 0), Err(GameError::OffBoard));
    assert_eq!(play(&mut game, 0, 2, 1, 0), Err(GameError::OffBoard));
    play(&mut game, 0, 2, 0, 0).unwrap();
    assert_eq!(play(&mut game, 1, 2, 0, 0), Err(GameError::Occupied));
    let mut won = three_side_game();
    assert_eq!(play(&mut won, 1, 0, 0, 1), Err(GameError::GameOver));
}

#[test]
fn bot_plays_a_winning_move_when_one_exists() {
    let mut game = GameY::new(3);
    play(&mut game, 0, 2, 0, 0).unwrap();
    play(&mut game, 1, 1, 1, 0).unwrap();
    play(&mut game, 0, 1, 0, 1).unwrap();
    play(&mut game, 1, 0, 2, 0).unwrap();
    let mut board = BoardState::from_cells(3, &game.cells, 1);
    let (cell, score) = search_best_move(&mut board, 5, 0);
    assert_eq!(score, WIN_SCORE);
    // Both empty cells win; ties keep the first in ascending order.
    assert_eq!(cell, 6);
    // With the other winning cell as the hint, the hint is kept on the tie.
    assert_eq!(search_best_move(&mut board, 5, 7), (7, WIN_SCORE));
    assert_eq!(iterative_deepening_search(&game, 1000, PlayerId::new(0)), (6, 5));
    assert_eq!(iterative_deepening_search(&game, 0, PlayerId::new(0)), (6, 0));

    let chosen = MinimaxBot::new(1000).choose_move(&game).unwrap();
    assert_eq!(chosen, Coordinates::new(0, 0, 2));
    let mut after = game.clone();
    after
        .add_move(Movement::Placement { player: PlayerId::new(0), coords: chosen })
        .unwrap();
    assert_eq!(after.status, GameStatus::Finished { winner: PlayerId::new(0) });
}

#[test]
fn single_legal_cell_is_chosen_without_time() {
    let mut game = GameY::new(3);
    play(&mut game, 0, 2, 0, 0).unwrap();
    play(&mut game, 1, 1, 1, 0).unwrap();
    play(&mut game, 0, 0, 2, 0).unwrap();
    play(&mut game, 1, 1, 0, 1).unwrap();
    play(&mut game, 0, 0, 1, 1).unwrap();
    let chosen = MinimaxBot::new(0).choose_move(&game);
    assert_eq!(chosen, Some(Coordinates::new(0, 0, 2)));
    let (cell, depth) = iterative_deepening_search(&game, 0, PlayerId::new(1));
    assert_eq!(cell, 6);
    assert_eq!(depth, 0);
}

#[test]
fn deepening_reports_the_depth_it_finished() {
    let game = three_side_game_minus_last();
    // Only cell 2, (0, 0, 1), is left; it wins, so deepening stops at once.
    let (cell, depth) = iterative_deepening_search(&game, 1000, PlayerId::new(0));
    assert_eq!(cell, 2);
    assert_eq!(depth, 5);
}

fn three_side_game_minus_last() -> GameY {
    let mut game = GameY::new(2);
    play(&mut game, 0, 1, 0, 0).unwrap();
    play(&mut game, 1, 0, 1, 0).unwrap();
    game
}

#[test]
fn narrow_window_around_the_value_gives_the_value() {
    let mut game = GameY::new(3);
    play(&mut game, 0, 2, 0, 0).unwrap();
    play(&mut game, 1, 1, 1, 0).unwrap();
    let p0 = PlayerId::new(0);
    for depth in 0..4 {
        let full = minimax(&game, depth, -INFINITY, INFINITY, true, p0);
        assert_eq!(minimax(&game, depth, full - 1, full + 1, true, p0), full);
        // A window entirely above the value fails low with a bound at or above it.
        let low = minimax(&game, depth, full + 10, full + 20, true, p0);
        assert!(low <= full + 10 && low >= full);
    }
}

#[test]
fn edge_distance_margin_is_exact() {
    let mut game = GameY::new(7);
    play(&mut game, 0, 0, 0, 6).unwrap();
    play(&mut game, 1, 3, 3, 0).unwrap();
    play(&mut game, 0, 6, 0, 0).unwrap();
    play(&mut game, 1, 3, 2, 1).unwrap();
    play(&mut game, 0, 0, 6, 0).unwrap();
    assert_eq!(manhattan_board_eval(&game, PlayerId::new(0)), 5);
    assert_eq!(manhattan_board_eval(&game, PlayerId::new(1)), -5);
}

#[test]
fn simulated_winning_move_finishes_the_game() {
    let game = three_side_game_minus_last();
    let after = simulate_move(&game, 2);
    assert_eq!(after.status, GameStatus::Finished { winner: PlayerId::new(0) });
    assert_eq!(after.next_player(), None);
    assert!(after.available_cells().is_empty());
}

#[test]
fn zero_budget_returns_the_first_legal_cell() {
    let game = GameY::new(4);
    assert_eq!(iterative_deepening_search(&game, 0, PlayerId::new(0)), (0, 0));
    assert_eq!(
        MinimaxBot::new(0).choose_move(&game),
        Some(Coordinates::new(3, 0, 0))
    );
}

#[test]
fn minimizing_is_the_opponents_negated_maximizing() {
    let mut game = GameY::new(3);
    play(&mut game, 0, 2, 0, 0).unwrap();
    play(&mut game, 1, 1, 1, 0).unwrap();
    let p0 = PlayerId::new(0);
    let p1 = PlayerId::new(1);
    for depth in 0..4 {
        for (alpha, beta) in [(-INFINITY, INFINITY), (-50, 50), (0, 400)] {
            assert_eq!(
                minimax(&game, depth, alpha, beta, false, p0),
                -minimax(&game, depth, -beta, -alpha, true, p1)
            );
        }
    }
}

#[test]
fn budget_is_spent_once_elapsed_reaches_it() {
    assert!(budget_spent(0, 0));
    assert!(!budget_spent(99, 100));
    assert!(budget_spent(100, 100));
    assert!(budget_spent(250, 100));
}

#[test]
fn deepening_goes_on_only_without_a_forced_win_and_below_the_last_depth() {
    assert!(keep_deepening(5, 0));
    assert!(keep_deepening(99, WIN_SCORE - 101));
    assert!(!keep_deepening(5, WIN_SCORE - 100));
    assert!(!keep_deepening(100, 0));
}

#[test]
fn deepening_step_searches_only_while_time_remains() {
    let mut game = GameY::new(3);
    play(&mut game, 0, 2, 0, 0).unwrap();
    play(&mut game, 1, 1, 1, 0).unwrap();
    play(&mut game, 0, 1, 0, 1).unwrap();
    play(&mut game, 1, 0, 2, 0).unwrap();
    let mut board = BoardState::from_cells(3, &game.cells, 1);
    assert_eq!(deepening_step(&mut board, 5, 7, true), None);
    assert_eq!(deepening_step(&mut board, 5, 7, false), Some((7, WIN_SCORE)));
    assert_eq!(deepening_step(&mut board, 5, 6, false), Some((6, WIN_SCORE)));
}
