use ipfish::adjacency::get_adjacent_points;
use ipfish::bitset::BitSet;
use ipfish::board::{Board, Player, PointState};
use ipfish::board_from_string::board_from_string;
use ipfish::count_liberties_of_group::count_liberties_of_group;
use ipfish::final_score::{score_group_territory, SeenStones};
use ipfish::is_in_atari::is_in_atari;
use ipfish::is_self_capture::is_self_capture;

fn make_board(board_str: &str, player: Player, komi_half: i64) -> Board {
    Board {
        board: board_from_string(board_str, 5),
        size: 5,
        player,
        komi_half,
        opponent_passed: false,
    }
}

#[test]
fn liberties_counted_correctly() {
    let board_string: &str = "
    .....
    .OO..
    #.XX.
    .OXOX
    ..XO.
    ";
    let board = make_board(board_string, Player::Black, 15);

    // Count the liberties for 12 aka c3
    let result: usize = count_liberties_of_group(12, &board);
    assert_eq!(result, 4);
}

#[test]
fn test_atari_hallucination() {
    let board = make_board(
        "
    .OO.#
    OOO..
    .OOOX
    OOOO.
    #O#.X
    ",
        Player::Black,
        15,
    );

    let not_in_atari: bool = is_in_atari(11, &board, 10, &mut BitSet::new());
    assert_eq!(
        not_in_atari, false,
        "This white group is definitely not in atari"
    );
}

#[test]
fn self_capture_in_opponent_group() {
    let board_string: &str = "
    ..XO.
    X.XOO
    #XXOO
    X.XOO
    .XXX.
    ";
    let board = make_board(board_string, Player::Black, 15);

    // Check point 24 aka e5
    let result: bool = is_self_capture(24, &board);
    assert_eq!(result, true);
}

#[test]
fn not_self_capture_captures_opponent() {
    let board_string: &str = "
    ..XO.
    X.XOO
    #XXOO
    X.XOO
    .XXXX
    ";
    let board = make_board(board_string, Player::Black, 15);

    // Check point 24 aka e5
    let result: bool = is_self_capture(24, &board);
    assert_eq!(result, false);
}

#[test]
fn one_liberty_group_atari_roundtrip() {
    // The white corner stone has exactly one liberty, directly above it:
    // the atari test answers true there and false anywhere else.
    let board = make_board(
        "
    .....
    .....
    .....
    .....
    OX...
    ",
        Player::Black,
        15,
    );
    assert_eq!(count_liberties_of_group(0, &board), 1);
    assert!(is_in_atari(0, &board, 5, &mut BitSet::new()));
    assert!(!is_in_atari(0, &board, 2, &mut BitSet::new()));
    let mut group = BitSet::new();
    is_in_atari(0, &board, 5, &mut group);
    assert_eq!(group.len(), 1);
    assert!(group.contains(0));
}

#[test]
fn board_from_string_layout() {
    // The first drawn row lands at the top of the board (high indices),
    // unreached points stay offline.
    let cells = board_from_string(".X\nO#", 2);
    assert_eq!(cells.len(), 4);
    assert_eq!(cells[2], PointState::Empty);
    assert_eq!(cells[3], PointState::Black);
    assert_eq!(cells[0], PointState::White);
    assert_eq!(cells[1], PointState::Offline);
    let partial = board_from_string("X", 2);
    assert_eq!(partial[2], PointState::Black);
    assert_eq!(partial[0], PointState::Offline);
    assert_eq!(partial[1], PointState::Offline);
    assert_eq!(partial[3], PointState::Offline);
}

#[test]
fn adjacency_order_and_edges() {
    let board = make_board(
        "
    .....
    .....
    .....
    .....
    .....
    ",
        Player::Black,
        15,
    );
    // Interior point: below, above, left, right, in that order.
    assert_eq!(get_adjacent_points(12, &board), vec![7, 17, 11, 13]);
    // Corners have two neighbors.
    assert_eq!(get_adjacent_points(0, &board), vec![5, 1]);
    assert_eq!(get_adjacent_points(24, &board), vec![19, 23]);
}

#[test]
fn territory_region_scores() {
    let board = make_board(
        "
    O.#.X
    OX...
    OOX..
    OXXX.
    O.X.X
    ",
        Player::Black,
        15,
    );
    // The empty point between two black stones is black territory.
    let mut group = BitSet::new();
    let mut seen = SeenStones::Nothing;
    let plus = score_group_territory(3, &board, &mut group, &mut seen);
    assert_eq!(plus, 1);
    assert_eq!(seen, SeenStones::Black);
    assert!(group.contains(3));
    // The empty point between a white and a black stone is contested.
    let mut group2 = BitSet::new();
    let mut seen2 = SeenStones::Nothing;
    let nothing = score_group_territory(1, &board, &mut group2, &mut seen2);
    assert_eq!(nothing, 0);
    assert_eq!(seen2, SeenStones::Both);
}
