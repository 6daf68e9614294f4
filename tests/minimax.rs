use gamey::game::{GameY, Movement, PlayerId};
use gamey::geometry::Coordinates;
use gamey::minimax::{
    calculate_geometric_distances_to_edges, evaluate_board, manhattan_board_eval, minimax,
    simulate_move, MinimaxBot, INFINITY, LOSE_SCORE, MAX_DISTANCE, WIN_SCORE,
};
use std::time::Instant;

fn place(game: &mut GameY, player: u32, x: u32, y: u32, z: u32) {
    game.add_move(Movement::Placement {
        player: PlayerId::new(player),
        coords: Coordinates::new(x, y, z),
    })
    .unwrap();
}

fn won_by_player_zero() -> GameY {
    let mut game = GameY::new(2);
    place(&mut game, 0, 1, 0, 0);
    place(&mut game, 1, 0, 1, 0);
    place(&mut game, 0, 0, 0, 1);
    game
}

#[test]
fn test_minimax_bot_name() {
    let bot = MinimaxBot::new(100);
    assert_eq!(bot.name(), "minimax_bot");
}

#[test]
fn test_bot_returns_valid_move_on_empty_board() {
    let game = GameY::new(5);
    let bot = MinimaxBot::new(100);
    let chosen_move = bot.choose_move(&game);

    assert!(chosen_move.is_some());
    let coords = chosen_move.unwrap();
    assert!(game
        .available_cells()
        .contains(&coords.to_index(game.board_size())));
}

#[test]
fn test_bot_returns_none_on_finished_game() {
    let game = won_by_player_zero();
    let bot = MinimaxBot::new(100);
    let chosen_move = bot.choose_move(&game);

    assert!(
        chosen_move.is_none(),
        "Bot should return None when game is over"
    );
}

#[test]
fn test_evaluate_empty_board_is_zero() {
    let game = GameY::new(5);
    let score = manhattan_board_eval(&game, PlayerId::new(0));
    assert_eq!(score, 0, "Empty board should evaluate to 0");
}

#[test]
fn test_evaluate_winning_position_returns_win_score() {
    let game = won_by_player_zero();

    let score = manhattan_board_eval(&game, PlayerId::new(0));
    assert_eq!(score, WIN_SCORE, "Winning position should return WIN_SCORE");

    let score_opponent = manhattan_board_eval(&game, PlayerId::new(1));
    assert_eq!(
        score_opponent, LOSE_SCORE,
        "Losing position should return LOSE_SCORE"
    );
}

#[test]
fn test_evaluate_closer_to_edges_is_better() {
    let mut game = GameY::new(7);
    place(&mut game, 0, 0, 0, 6);
    place(&mut game, 1, 3, 3, 0);
    place(&mut game, 0, 6, 0, 0);
    place(&mut game, 1, 3, 2, 1);
    place(&mut game, 0, 0, 6, 0);

    let score_p0 = manhattan_board_eval(&game, PlayerId::new(0));
    let score_p1 = manhattan_board_eval(&game, PlayerId::new(1));

    println!("Score P0: {score_p0}");
    println!("Score P1: {score_p1}");

    assert!(
        score_p0 > 0,
        "Player 0 touching all edges should have positive score"
    );
    assert!(
        score_p1 < 0,
        "Player 1 far from edges should have negative score"
    );
}

#[test]
fn test_distances_calculation_corner_cell() {
    let mut game = GameY::new(5);
    place(&mut game, 0, 0, 0, 4);

    let distances = calculate_geometric_distances_to_edges(&game, PlayerId::new(0));

    assert_eq!(distances[0], 0, "Distance to side_a should be 0 (x=0)");
    assert_eq!(distances[1], 0, "Distance to side_b should be 0 (y=0)");
    assert_eq!(distances[2], 4, "Distance to side_c should be 4 (z=4)");
}

#[test]
fn test_distances_calculation_no_pieces() {
    let game = GameY::new(5);

    let distances = calculate_geometric_distances_to_edges(&game, PlayerId::new(0));

    assert_eq!(
        distances,
        [MAX_DISTANCE, MAX_DISTANCE, MAX_DISTANCE],
        "Player with no pieces should have MAX_DISTANCE to all sides"
    );
}

#[test]
fn test_bot_takes_winning_move() {
    let mut game = GameY::new(3);
    place(&mut game, 0, 2, 0, 0);
    place(&mut game, 1, 1, 1, 0);
    place(&mut game, 0, 0, 2, 0);
    place(&mut game, 1, 1, 0, 1);

    let bot = MinimaxBot::new(1000);
    let chosen = bot.choose_move(&game);

    assert!(chosen.is_some());
    let coords = chosen.unwrap();

    let mut test_game = game.clone();
    test_game
        .add_move(Movement::Placement {
            player: PlayerId::new(0),
            coords,
        })
        .unwrap();

    assert!(game
        .available_cells()
        .contains(&coords.to_index(game.board_size())));
}

#[test]
fn test_bot_blocks_opponent_winning_move() {
    let mut game = GameY::new(4);
    place(&mut game, 0, 2, 0, 0);
    place(&mut game, 1, 3, 0, 0);
    place(&mut game, 0, 0, 2, 0);
    place(&mut game, 1, 0, 3, 0);

    let bot = MinimaxBot::new(1000);
    let chosen = bot.choose_move(&game);

    assert!(chosen.is_some());
}

#[test]
fn test_simulate_move_does_not_modify_original() {
    let game = GameY::new(5);
    let original_available = game.available_cells().len();

    let move_idx = game.available_cells()[0];
    let _simulated = simulate_move(&game, move_idx);

    assert_eq!(
        game.available_cells().len(),
        original_available,
        "Original game should not be modified by simulate_move"
    );
}

#[test]
fn test_simulate_move_reduces_available_cells() {
    let game = GameY::new(5);
    let original_available = game.available_cells().len();

    let move_idx = game.available_cells()[0];
    let simulated = simulate_move(&game, move_idx);

    assert_eq!(
        simulated.available_cells().len(),
        original_available - 1,
        "Simulated game should have one less available cell"
    );
    assert!(
        !simulated.available_cells().contains(&move_idx),
        "Simulated game should not have the played cell as available"
    );
}

#[test]
fn test_simulate_move_alternates_players() {
    let game = GameY::new(5);
    assert_eq!(game.next_player(), Some(PlayerId::new(0)));

    let move_idx = game.available_cells()[0];
    let simulated = simulate_move(&game, move_idx);

    assert_eq!(
        simulated.next_player(),
        Some(PlayerId::new(1)),
        "After simulating Player 0's move, next should be Player 1"
    );
}

#[test]
fn test_minimax_depth_zero_returns_evaluation() {
    let game = GameY::new(3);
    let bot_player = PlayerId::new(0);

    let score = minimax(&game, 0, -INFINITY, INFINITY, true, bot_player);
    let eval_score = evaluate_board(&game, bot_player);

    assert_eq!(
        score, eval_score,
        "Minimax at depth 0 should return static evaluation"
    );
}

#[test]
fn test_minimax_game_over_returns_evaluation() {
    let game = won_by_player_zero();
    let bot_player = PlayerId::new(0);
    let score = minimax(&game, 5, -INFINITY, INFINITY, true, bot_player);

    assert_eq!(
        score, WIN_SCORE,
        "Minimax should recognize winning position"
    );
}

#[test]
fn test_alpha_beta_pruning_same_result_as_no_pruning() {
    let mut game = GameY::new(3);
    place(&mut game, 0, 2, 0, 0);
    place(&mut game, 1, 1, 1, 0);

    let bot_player = PlayerId::new(0);
    let score_ab = minimax(&game, 2, -INFINITY, INFINITY, true, bot_player);
    let score_no_ab = minimax(&game, 2, -INFINITY, INFINITY, true, bot_player);

    assert_eq!(
        score_ab, score_no_ab,
        "Alpha-beta should give same result as full search"
    );
}

#[test]
fn test_bot_on_nearly_full_board() {
    let mut game = GameY::new(3);
    let all_moves = vec![
        (PlayerId::new(0), Coordinates::new(2, 0, 0)),
        (PlayerId::new(1), Coordinates::new(1, 1, 0)),
        (PlayerId::new(0), Coordinates::new(0, 2, 0)),
        (PlayerId::new(1), Coordinates::new(1, 0, 1)),
        (PlayerId::new(0), Coordinates::new(0, 1, 1)),
    ];
    for (player, coords) in all_moves {
        game.add_move(Movement::Placement { player, coords }).unwrap();
    }

    assert!(
        !game.check_game_over(),
        "Game should not be over before testing bot"
    );
    assert_eq!(
        game.available_cells().len(),
        1,
        "Should have exactly 1 move available"
    );

    let bot = MinimaxBot::new(100);
    let chosen = bot.choose_move(&game);

    assert!(
        chosen.is_some(),
        "Bot should return a move when game is ongoing"
    );

    let coords = chosen.unwrap();
    assert_eq!(
        coords,
        Coordinates::new(0, 0, 2),
        "Bot should choose the only available move"
    );
}

#[test]
fn test_bot_with_different_time_limits() {
    let game = GameY::new(5);

    let start_fast = Instant::now();
    let bot_fast = MinimaxBot::new(100);
    let move_fast = bot_fast.choose_move(&game);
    let time_fast = start_fast.elapsed();

    let start_slow = Instant::now();
    let bot_slow = MinimaxBot::new(1000);
    let move_slow = bot_slow.choose_move(&game);
    let time_slow = start_slow.elapsed();

    assert!(move_fast.is_some(), "Fast bot should return a move");
    assert!(move_slow.is_some(), "Slow bot should return a move");

    let coords_fast = move_fast.unwrap();
    let coords_slow = move_slow.unwrap();

    assert!(
        game.available_cells()
            .contains(&coords_fast.to_index(game.board_size())),
        "Fast bot should choose valid move"
    );
    assert!(
        game.available_cells()
            .contains(&coords_slow.to_index(game.board_size())),
        "Slow bot should choose valid move"
    );

    assert!(
        time_fast.as_millis() <= 300,
        "Fast search should finish within time limit (took {:?})",
        time_fast
    );
    assert!(
        time_slow.as_millis() <= 2000,
        "Slow search should finish within time limit (took {:?})",
        time_slow
    );

    println!("Fast search: {:?}, move: {:?}", time_fast, coords_fast);
    println!("Slow search: {:?}, move: {:?}", time_slow, coords_slow);
}
