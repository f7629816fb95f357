use ipfish::board::{Board, Player};
use ipfish::board_from_string::board_from_string;
use ipfish::final_score::final_score;
use ipfish::pass_move::pass_move;
use ipfish::score::score;

fn make_board(board_str: &str, komi_half: i64) -> Board {
    Board {
        board: board_from_string(board_str, 5),
        size: 5,
        player: Player::Black,
        komi_half,
        opponent_passed: false,
    }
}

#[test]
fn correct_final_score() {
    let board_string: &str = "
    O.#.X
    OX...
    OOX..
    OXXX.
    O.X.X
    ";
    // Komi is critical for this test!
    let board = make_board(board_string, 15);

    // With the game concluded black is winning by 2.5 points.
    let result = final_score(&board);
    assert_eq!(result as f64 / 2.0, 2.5);
}

#[test]
fn glitch_with_offline_eyes() {
    let board = make_board(
        "
    ..X#.
    XX.X#
    XXXX.
    .X..X
    ",
        11,
    );

    let result = final_score(&board);
    assert_eq!(result as f64 / 2.0, 11.5);
}

#[test]
fn lost_by_a_little() {
    let board = make_board(
        "
    #X.X.
    .XXX.
    OOXXX
    .OOO.
    #####
    ",
        11,
    );

    let result = final_score(&board);
    assert_eq!(result as f64 / 2.0, -0.5);
}

#[test]
fn final_score_ignores_whose_turn_it_is() {
    // Passing changes only the turn and the pass flag, so scoring after a
    // double pass gives the same number; so does flipping the mover by hand.
    let board = make_board(
        "
    O.#.X
    OX...
    OOX..
    OXXX.
    O.X.X
    ",
        15,
    );
    let direct = final_score(&board);
    let twice_passed = pass_move(&pass_move(&board));
    assert_eq!(final_score(&twice_passed), direct);
    let mut as_white = make_board(
        "
    O.#.X
    OX...
    OOX..
    OXXX.
    O.X.X
    ",
        15,
    );
    as_white.player = Player::White;
    as_white.opponent_passed = true;
    assert_eq!(final_score(&as_white), direct);
}

#[test]
fn quick_score_counts_stones_only() {
    // Eight black stones, six white stones, komi 7.5: 8 - 6 - 7.5 = -5.5.
    let board = make_board(
        "
    O.#.X
    OX...
    OOX..
    OXXX.
    O.X.X
    ",
        15,
    );
    let result = score(&board);
    assert_eq!(result as f64 / 2.0, -5.5);
}
