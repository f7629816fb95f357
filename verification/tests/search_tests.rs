use rand::SeedableRng;
use rand_pcg::Pcg64Mcg;

use ipfish::board::{Board, Player};
use ipfish::board_from_string::board_from_string;
use ipfish::evaluate_move::evaluate_move;
use ipfish::final_score::final_score;
use ipfish::history::BoardHistory;
use ipfish::make_move::make_move;
use ipfish::mc_lines::mc_lines;
use ipfish::mcts_strategy::mcts_strategy;
use ipfish::minimax_ab_strategy::minimax_alphabeta;
use ipfish::minimax_score::minimax_score;
use ipfish::montecarlo_score::{
    mc_estimate, montecarlo_score, montecarlo_simulation, winner_of, Winner,
};
use ipfish::pass_move::pass_move;
use ipfish::pick_strategy::pick_strategy;
use ipfish::rational::{MoveScore, Rat};

fn make_board(board_str: &str, komi_half: i64) -> Board {
    Board {
        board: board_from_string(board_str, 5),
        size: 5,
        player: Player::Black,
        komi_half,
        opponent_passed: false,
    }
}

#[test]
fn should_not_pass_here() {
    let board_string: &str = "
    #.XX.
    .XO.O
    XOOOO
    XXXXO
    X.X.O
    ";
    // Komi 5.5 for this one.
    let board = make_board(board_string, 11);
    let board_history = BoardHistory::new();
    let mut rng = Pcg64Mcg::seed_from_u64(7);

    let neg_infinity = Rat { num: -1000000, den: 1 };
    let infinity = Rat { num: 1000000, den: 1 };

    let pass_minimax_score = minimax_score(
        &pass_move(&board),
        &board_history,
        3,
        neg_infinity,
        infinity,
        &mut rng,
    );

    let d1_minimax_score = minimax_score(
        &make_move(3, &board),
        &board_history,
        3,
        neg_infinity,
        infinity,
        &mut rng,
    );

    // d1 is a better move than passing!
    assert!(pass_minimax_score.lt(&d1_minimax_score));
}

#[test]
fn black_should_always_win() {
    let board = make_board(
        "
    ..X#.
    XX.X#
    XXXX.
    .X..X
    ",
        15,
    );

    let board_history = BoardHistory::new();
    let mut rng = Pcg64Mcg::seed_from_u64(12345);

    let score = final_score(&board);
    println!("Final score = {}", score);
    assert!(score > 0);

    let winner = montecarlo_simulation(board, board_history, &mut rng);

    assert_eq!(winner, Winner::BlackWin, "Black literally can not lose...")
    // Black literally can not lose this position.
}

#[test]
fn estimator_is_exact_at_certainty() {
    // When every playout is a black win the estimate is exactly +1/2,
    // whatever the sample count.
    let all_wins = mc_estimate(7, 7);
    assert_eq!(all_wins.num * 2, all_wins.den);
    let no_wins = mc_estimate(0, 9);
    assert_eq!(no_wins.num * 2, -no_wins.den);
    assert_eq!(mc_estimate(3, 10), Rat { num: -4, den: 20 });

    // The unlosable position estimates exactly +1/2 for any positive count.
    let board = make_board(
        "
    ..X#.
    XX.X#
    XXXX.
    .X..X
    ",
        15,
    );
    let history = BoardHistory::new();
    let mut rng = Pcg64Mcg::seed_from_u64(99);
    let estimate = montecarlo_score(&board, &history, 7, &mut rng);
    assert_eq!(estimate.num * 2, estimate.den);
}

#[test]
fn depth_zero_minimax_is_the_leaf_score() {
    // With no depth the search applies no search: the alpha-beta value is
    // the final score itself.
    let board = make_board(
        "
    O.#.X
    OX...
    OOX..
    OXXX.
    O.X.X
    ",
        15,
    );
    let history = BoardHistory::new();
    let value = minimax_alphabeta(&board, &history, 0, -100000, 100000);
    assert_eq!(value, final_score(&board));
    assert_eq!(value as f64 / 2.0, 2.5);
}

#[test]
fn playouts_reproduce_with_a_fixed_seed() {
    let board = make_board(
        "
    .....
    .OO..
    #.XX.
    .OXOX
    ..XO.
    ",
        15,
    );
    let history = BoardHistory::new();
    let mut rng1 = Pcg64Mcg::seed_from_u64(2024);
    let mut rng2 = Pcg64Mcg::seed_from_u64(2024);
    let first = montecarlo_score(&board, &history, 5, &mut rng1);
    let second = montecarlo_score(&board, &history, 5, &mut rng2);
    assert_eq!(first, second);
}

#[test]
fn mcts_scores_have_the_right_shape() {
    let board = make_board(
        "
    #X.X.
    .XXX.
    OOXXX
    .OOO.
    #####
    ",
        11,
    );
    let history = BoardHistory::new();
    let mut rng = Pcg64Mcg::seed_from_u64(5);
    let result = mcts_strategy(board, history, 50, 25, &mut rng);
    assert_eq!(result.len(), 26);
    // Passing is not supported by this strategy.
    assert!(matches!(result[25], MoveScore::Illegal));
    // An occupied point is never playable.
    assert!(matches!(result[10], MoveScore::Illegal));
}

#[test]
fn opening_forces_the_center() {
    let board = make_board(
        "
    .....
    .....
    .....
    .....
    .....
    ",
        15,
    );
    let history = BoardHistory::new();
    let mut rng = Pcg64Mcg::seed_from_u64(1);
    let result = pick_strategy(board, history, false, &mut rng);
    assert_eq!(result.len(), 26);
    assert!(matches!(result[12], MoveScore::Forced));
    for i in 0..26 {
        if i != 12 {
            assert!(matches!(result[i], MoveScore::Illegal));
        }
    }
}

#[test]
fn winner_follows_the_score_sign() {
    let winning = make_board(
        "
    O.#.X
    OX...
    OOX..
    OXXX.
    O.X.X
    ",
        15,
    );
    assert_eq!(winner_of(&winning), Winner::BlackWin);
    let losing = make_board(
        "
    #X.X.
    .XXX.
    OOXXX
    .OOO.
    #####
    ",
        11,
    );
    assert_eq!(winner_of(&losing), Winner::WhiteWin);
}

#[test]
fn evaluate_move_returns_a_proper_rational() {
    let board = make_board(
        "
    #X.X.
    .XXX.
    OOXXX
    .OOO.
    #####
    ",
        11,
    );
    let history = BoardHistory::new();
    let mut rng = Pcg64Mcg::seed_from_u64(8);
    let value = evaluate_move(&board, &history, &mut rng);
    assert!(value.den > 0);
    // No candidate lines are produced yet.
    assert_eq!(mc_lines(&board, &history, false, &mut rng).len(), 0);
}

#[test]
fn hopeless_position_short_circuits_to_pass() {
    // Black has no legal move and every playout is lost, so the gauge draws
    // zero wins: the selector gives up, scoring the pass exactly zero and
    // everything else unplayable.
    let board = make_board(
        "
    OOOOO
    OOOOO
    OOOOO
    OOOOO
    OOOOO
    ",
        15,
    );
    let history = BoardHistory::new();
    let mut rng = Pcg64Mcg::seed_from_u64(21);
    let result = pick_strategy(board, history, false, &mut rng);
    assert_eq!(result.len(), 26);
    for i in 0..25 {
        assert!(matches!(result[i], MoveScore::Illegal));
    }
    assert_eq!(result[25], MoveScore::Value(Rat { num: 0, den: 1 }));
}
