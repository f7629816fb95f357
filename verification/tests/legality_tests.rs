use ipfish::bitset::BitSet;
use ipfish::board::{Board, Player, PointState};
use ipfish::final_score::final_score;
use ipfish::board_from_string::board_from_string;
use ipfish::get_legal_moves::{
    captures_enemy_group, get_legal_moves, get_legal_moves_strict, violates_superko,
};
use ipfish::history::BoardHistory;
use ipfish::is_self_capture::is_self_capture;
use ipfish::make_move::make_move;

fn make_board(board_str: &str, player: Player) -> Board {
    Board {
        board: board_from_string(board_str, 5),
        size: 5,
        player,
        komi_half: 15,
        opponent_passed: false,
    }
}

fn check_legality(legal_moves: &BitSet, legality: &[bool; 25]) {
    for n in 0..25 as usize {
        if legal_moves.contains(n) {
            assert_eq!(
                legality[n], true,
                "Move {} marked as legal when it should be illegal",
                n
            );
        } else {
            assert_eq!(
                false, legality[n],
                "Move {} marked as illegal when it should be legal",
                n
            );
        }
    }
}

#[test]
fn basic_capture() {
    let board = make_board(
        "
    .....
    OXOX.
    .OX..
    ....#
    ...#.
    ",
        Player::Black,
    );
    let legality: [bool; 25] = [
        true, true, true, false, // Node is offline
        false, // Surrounded by offline nodes
        true, true, true, true, false, // Node is offline
        true, false, // White piece there
        false, // Black piece there
        true, true, false, false, false, false, // Pieces there
        true, true, true, true, true, true,
    ];

    let board_history = BoardHistory::new();
    let legal_moves = get_legal_moves(&board, &board_history);
    check_legality(&legal_moves, &legality);
}

#[test]
fn self_capture_legality() {
    let board = make_board(
        "
    .OX#.
    OOXX.
    XXXOO
    ...O.
    #####
    ",
        Player::Black,
    );
    let legality: [bool; 25] = [
        false, false, false, false, false, // Bottom row is offline
        true, true, true, false, // White piece there
        false, // Would be self capture
        false, false, false, false, false, // Pieces in this row
        false, false, false, false, // More pieces
        true,  // Best move, as it prevents white from making life
        true,  // Legal move, it's not self capture because it captures the white group
        false, false, false, // Pieces there
        true,
    ];
    let board_history = BoardHistory::new();
    let legal_moves = get_legal_moves(&board, &board_history);
    check_legality(&legal_moves, &legality);
}

#[test]
fn more_self_capture_legality() {
    let board = make_board(
        "
    .....
    .OO..
    #.XX.
    .OXOX
    ..XO.
    ",
        Player::Black,
    );
    let legality: [bool; 25] = [
        true, true, false, false, true, true, false, false, false, false, false, true, false,
        false, true, true, false, false, true, true, true, true, true, true, true,
    ];

    let board_history = BoardHistory::new();
    let legal_moves = get_legal_moves(&board, &board_history);
    check_legality(&legal_moves, &legality);
}

#[test]
fn first_ko() {
    let previous_board = board_from_string(
        "
    ...X.
    XOOOX
    XXXOO
    .XOOO
    X.#..
    ",
        5,
    );
    let current_board = board_from_string(
        "
    ...XO
    XOOO.
    XXXOO
    .XOOO
    X.#..
    ",
        5,
    );
    let legality: [bool; 25] = [
        false, true, false, true, true, true, false, false, false, false, false, false, false,
        false, false, false, false, false, false, false, // Ko!
        true, true, true, false, false,
    ];

    let board = Board {
        board: board_from_string(
            "
    ...XO
    XOOO.
    XXXOO
    .XOOO
    X.#..
    ",
            5,
        ),
        size: 5,
        player: Player::Black,
        komi_half: 15,
        opponent_passed: false,
    };
    let mut board_history = BoardHistory::new();
    board_history.insert(&previous_board);
    board_history.insert(&current_board);

    let legal_moves = get_legal_moves(&board, &board_history);
    check_legality(&legal_moves, &legality);
}

#[test]
fn atari_refactor_test() {
    let board = make_board(
        "
    .OO.#
    OOO..
    .OOOX
    OOOO.
    #O#.X
    ",
        Player::Black,
    );
    let legality: [bool; 25] = [
        false, false, false, true, false, false, false, false, false, true, false, // Self capture
        false, false, false, false, false, false, false, true, true, false, // Self capture
        false, false, true, false,
    ];

    let sadly_self_capture = is_self_capture(10, &board);
    assert_eq!(sadly_self_capture, true, "Sadly a3 is self capture");

    let board_history = BoardHistory::new();
    let legal_moves = get_legal_moves(&board, &board_history);
    check_legality(&legal_moves, &legality);
}

#[test]
fn strict_rule_excludes_every_superko_repeat() {
    // A non-capturing move that reproduces a recorded board is illegal under
    // the strict rule, and still legal under the relaxed one.
    let board = make_board(
        "
    .....
    .....
    .....
    .....
    X....
    ",
        Player::Black,
    );
    let repeat = make_move(5, &board);
    let mut board_history = BoardHistory::new();
    board_history.insert(&repeat.board);
    let strict = get_legal_moves_strict(&board, &board_history);
    let relaxed = get_legal_moves(&board, &board_history);
    assert!(!strict.contains(5));
    assert!(relaxed.contains(5));
}

#[test]
fn capture_removes_group() {
    // The white corner stone's last liberty is filled: it comes off the
    // board and the new stone stands.
    let board = make_board(
        "
    .....
    .....
    .....
    .....
    OX...
    ",
        Player::Black,
    );
    let after = make_move(5, &board);
    assert_eq!(after.board[0], PointState::Empty);
    assert_eq!(after.board[5], PointState::Black);
    assert_eq!(after.board[1], PointState::Black);
    assert_eq!(after.player, Player::White);
    assert_eq!(after.opponent_passed, false);
}

#[test]
fn history_records_each_board_once() {
    let a = board_from_string(".X\nO.", 2);
    let b = board_from_string("..\n..", 2);
    let mut history = BoardHistory::new();
    assert_eq!(history.len(), 0);
    assert!(!history.contains_board(&a));
    history.insert(&a);
    history.insert(&a);
    assert_eq!(history.len(), 1);
    assert!(history.contains_board(&a));
    assert!(!history.contains_board(&b));
    history.insert(&b);
    assert_eq!(history.len(), 2);
    let copy = history.duplicate();
    assert!(copy.contains_board(&a) && copy.contains_board(&b));
}

#[test]
fn capture_and_superko_queries() {
    let board = make_board(
        "
    .....
    .....
    .....
    .....
    OX...
    ",
        Player::Black,
    );
    // Playing the white corner stone's last liberty captures it.
    assert!(captures_enemy_group(5, &board));
    assert!(!captures_enemy_group(13, &board));
    // The recapture board is recorded: the move repeats it.
    let repeat = make_move(5, &board);
    let mut history = BoardHistory::new();
    history.insert(&repeat.board);
    assert!(violates_superko(5, &board, &history));
    assert!(!violates_superko(13, &board, &history));
}

#[test]
fn largest_board_is_accepted() {
    // The engine's design limit: an 8x8 board, 64 points, one mask word.
    let board = Board {
        board: board_from_string(
            "........\n........\n........\n........\n........\n........\n........\n........",
            8,
        ),
        size: 8,
        player: Player::Black,
        komi_half: 15,
        opponent_passed: false,
    };
    let history = BoardHistory::new();
    let legal = get_legal_moves(&board, &history);
    assert_eq!(legal.len(), 64);
}

#[test]
fn one_point_board_has_no_legal_move() {
    // On a single point the only move is a self-capture.
    let board = Board {
        board: board_from_string(".", 1),
        size: 1,
        player: Player::Black,
        komi_half: 0,
        opponent_passed: false,
    };
    let history = BoardHistory::new();
    let legal = get_legal_moves(&board, &history);
    assert!(legal.is_empty());
    assert_eq!(final_score(&board), 0);
}

#[test]
fn move_inside_dead_enemy_group_is_mechanical() {
    // Move application never checks legality: playing inside an enemy group
    // that has no liberty at all removes the group, and the played stone
    // itself still stands — the stone is placed after the removals.
    let board = Board {
        board: board_from_string("OO\nOO", 2),
        size: 2,
        player: Player::Black,
        komi_half: 15,
        opponent_passed: false,
    };
    let after = make_move(0, &board);
    assert_eq!(after.board[0], PointState::Black);
    assert_eq!(after.board[1], PointState::Empty);
    assert_eq!(after.board[2], PointState::Empty);
    assert_eq!(after.board[3], PointState::Empty);
}
