use rand::SeedableRng;
use rand_pcg::Pcg64Mcg;

use ipfish::board::{Board, Player};
use ipfish::board_from_string::board_from_string;
use ipfish::evaluate_moves::evaluate_moves;
use ipfish::helpless_minimax_strategy::helpless_minimax_strategy;
use ipfish::history::BoardHistory;
use ipfish::minimax_ab_strategy::minimax_ab_strategy;
use ipfish::minimax_mc_filtered_strategy::minimax_mc_filtered_strategy;
use ipfish::minimax_mc_strategy::minimax_mc_strategy;
use ipfish::rational::MoveScore;

// A nearly finished position: few legal moves, so deep searches stay cheap.
fn endgame_board() -> Board {
    Board {
        board: board_from_string(
            "
    #X.X.
    .XXX.
    OOXXX
    .OOO.
    #####
    ",
            5,
        ),
        size: 5,
        player: Player::Black,
        komi_half: 11,
        opponent_passed: false,
    }
}

fn occupied_points_are_illegal(result: &Vec<MoveScore>) {
    // Point 10 holds a white stone and point 16 a black one.
    assert!(matches!(result[10], MoveScore::Illegal));
    assert!(matches!(result[16], MoveScore::Illegal));
}

#[test]
fn minimax_mc_strategy_shape() {
    let board = endgame_board();
    let history = BoardHistory::new();
    let mut rng = Pcg64Mcg::seed_from_u64(3);
    let result = minimax_mc_strategy(&board, &history, false, &mut rng);
    assert_eq!(result.len(), 26);
    occupied_points_are_illegal(&result);
    // The pass entry is always evaluated by this strategy.
    assert!(matches!(result[25], MoveScore::Value(_)));
}

#[test]
fn minimax_mc_filtered_strategy_shape() {
    let board = endgame_board();
    let history = BoardHistory::new();
    let mut rng = Pcg64Mcg::seed_from_u64(4);
    let result = minimax_mc_filtered_strategy(&board, &history, false, &mut rng);
    assert_eq!(result.len(), 26);
    occupied_points_are_illegal(&result);
    // Passing is not offered while the game goes on.
    assert!(matches!(result[25], MoveScore::Illegal));
}

#[test]
fn helpless_minimax_strategy_shape() {
    let board = endgame_board();
    let history = BoardHistory::new();
    let result = helpless_minimax_strategy(&board, &history, false, Player::White);
    assert_eq!(result.len(), 26);
    occupied_points_are_illegal(&result);
    assert!(matches!(result[25], MoveScore::Value(_)));
}

#[test]
fn evaluate_moves_shape() {
    let board = endgame_board();
    let history = BoardHistory::new();
    let mut rng = Pcg64Mcg::seed_from_u64(6);
    let result = evaluate_moves(&board, &history, false, &mut rng);
    assert_eq!(result.len(), 26);
    occupied_points_are_illegal(&result);
    assert!(matches!(result[25], MoveScore::Value(_)));
}

#[test]
fn finisher_offers_no_pass_from_a_losing_position() {
    let board = endgame_board();
    let history = BoardHistory::new();
    let result = minimax_ab_strategy(&board, &history, true);
    assert_eq!(result.len(), 26);
    occupied_points_are_illegal(&result);
    // The opponent passed, but the final score is -0.5: not winning, so
    // the strategy refuses to end the game by passing.
    assert!(matches!(result[25], MoveScore::Illegal));
}
