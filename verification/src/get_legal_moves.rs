//! The legality engine. A move on an empty point is legal when it captures an
//! enemy group (unless the board it produces has been seen before — superko),
//! or when it is no self-capture. The strict variant superko-checks every
//! candidate, not only capturing ones; the relaxed one is used inside
//! simulations and search, where non-capturing repeats are vanishingly rare.

use vstd::prelude::*;
use crate::adjacency::{adjacent, get_adjacent_points};
use crate::bitset::BitSet;
use crate::board::{Board, Player, PointState};
use crate::history::BoardHistory;
use crate::is_in_atari::{atari_spec, is_in_atari};
use crate::is_self_capture::{is_self_capture, self_capture_spec};
use crate::make_move::{apply_cells, make_move};

verus! {

/// Playing `point` captures when some adjacent enemy group has no liberty
/// besides `point`.
pub open spec fn captures_spec(
    cells: Seq<PointState>,
    size: int,
    point: int,
    mover: Player,
) -> bool {
    exists|j: int|
        #[trigger] adjacent(size, cells.len() as int, point, j) && cells[j]
            == mover.opp().stone_spec() && atari_spec(cells, size, j, point)
}

/// The relaxed per-point legality rule: the point is empty, and the move
/// either captures (and does not reproduce a seen board) or is no
/// self-capture. Non-capturing moves are not superko-checked here.
pub open spec fn legal_spec(
    cells: Seq<PointState>,
    size: int,
    point: int,
    mover: Player,
    hist: Set<Seq<PointState>>,
) -> bool {
    &&& 0 <= point < cells.len()
    &&& cells[point] == PointState::Empty
    &&& if captures_spec(cells, size, point, mover) {
        !hist.contains(apply_cells(cells, size, point, mover))
    } else {
        !self_capture_spec(cells, size, point, mover)
    }
}

/// The strict per-point legality rule: as the relaxed one, but every move is
/// superko-checked, capturing or not.
pub open spec fn legal_strict_spec(
    cells: Seq<PointState>,
    size: int,
    point: int,
    mover: Player,
    hist: Set<Seq<PointState>>,
) -> bool {
    &&& 0 <= point < cells.len()
    &&& cells[point] == PointState::Empty
    &&& !hist.contains(apply_cells(cells, size, point, mover))
    &&& (captures_spec(cells, size, point, mover) || !self_capture_spec(
        cells,
        size,
        point,
        mover,
    ))
}

/// Superko under the strict rule: a move that reproduces a board already in
/// the history is illegal, whatever else holds of it.
pub proof fn lemma_superko_excluded_strict(
    cells: Seq<PointState>,
    size: int,
    point: int,
    mover: Player,
    hist: Set<Seq<PointState>>,
)
    requires
        hist.contains(apply_cells(cells, size, point, mover)),
    ensures
        !legal_strict_spec(cells, size, point, mover, hist),
{
}

/// Superko under the relaxed rule: a capturing move that reproduces a board
/// already in the history is illegal.
pub proof fn lemma_superko_excluded(
    cells: Seq<PointState>,
    size: int,
    point: int,
    mover: Player,
    hist: Set<Seq<PointState>>,
)
    requires
        captures_spec(cells, size, point, mover),
        hist.contains(apply_cells(cells, size, point, mover)),
    ensures
        !legal_spec(cells, size, point, mover, hist),
{
}

/// Whether playing `point` captures at least one adjacent enemy group.
pub fn captures_enemy_group(point: usize, board: &Board) -> (r: bool)
    requires
        board.wf(),
        point < board.board@.len(),
    ensures
        r == captures_spec(board.board@, board.size as int, point as int, board.player),
{
    let ghost cells = board.board@;
    let ghost s = board.size as int;
    let ghost l = board.board@.len() as int;
    let ghost pt = point as int;
    let enemy = board.player.opposite().stone();
    let nb = get_adjacent_points(point, board);
    let mut t: usize = 0;
    while t < nb.len()
        invariant
            board.wf(),
            cells == board.board@,
            s == board.size as int,
            l == cells.len() as int,
            pt == point as int,
            0 <= pt < l,
            enemy == board.player.opp().stone_spec(),
            t <= nb@.len(),
            forall|k: int| 0 <= k < nb@.len() ==> adjacent(s, l, pt, #[trigger] nb@[k] as int),
            forall|b: int| adjacent(s, l, pt, b) ==> exists|k: int|
                0 <= k < nb@.len() && nb@[k] as int == b,
            forall|k: int|
                0 <= k < t ==> !(cells[#[trigger] nb@[k] as int] == board.player.opp().stone_spec()
                    && atari_spec(cells, s, nb@[k] as int, pt)),
        decreases nb@.len() - t,
    {
        let j = nb[t];
        proof {
            assert(adjacent(s, l, pt, j as int));
        }
        if board.board[j] == enemy {
            if is_in_atari(j, board, point, &mut BitSet::new()) {
                return true;
            }
        }
        t = t + 1;
    }
    proof {
        assert forall|j: int|
            !(#[trigger] adjacent(s, l, pt, j) && cells[j] == board.player.opp().stone_spec()
                && atari_spec(cells, s, j, pt)) by {
            if adjacent(s, l, pt, j) {
                let k = choose|k: int| 0 <= k < nb@.len() && nb@[k] as int == j;
                assert(!(cells[nb@[k] as int] == board.player.opp().stone_spec() && atari_spec(
                    cells,
                    s,
                    nb@[k] as int,
                    pt,
                )));
            }
        }
    }
    false
}

/// Whether playing `point` reproduces a board that the history already holds.
pub fn violates_superko(point: usize, board: &Board, board_history: &BoardHistory) -> (r: bool)
    requires
        board.wf(),
        point < board.board@.len(),
    ensures
        r == board_history.to_set().contains(
            apply_cells(board.board@, board.size as int, point as int, board.player),
        ),
{
    let new_position = make_move(point, board);
    board_history.contains_board(&new_position.board)
}

/// The legal moves under the relaxed rule, as a set of points.
pub fn get_legal_moves(board: &Board, board_history: &BoardHistory) -> (r: BitSet)
    requires
        board.wf(),
    ensures
        forall|i: int|
            #[trigger] r.has(i) == legal_spec(
                board.board@,
                board.size as int,
                i,
                board.player,
                board_history.to_set(),
            ),
{
    let ghost cells = board.board@;
    let ghost s = board.size as int;
    let ghost l = board.board@.len() as int;
    proof {
        assert(l <= 64) by (nonlinear_arith)
            requires
                l == s * s,
                1 <= s <= 8,
        ;
    }
    let mut result = BitSet::new();
    let mut point: usize = 0;
    while point < board.board.len()
        invariant
            board.wf(),
            cells == board.board@,
            s == board.size as int,
            l == cells.len() as int,
            l <= 64,
            point <= l,
            forall|i: int|
                #[trigger] result.has(i) == (i < point && legal_spec(
                    cells,
                    s,
                    i,
                    board.player,
                    board_history.to_set(),
                )),
        decreases l - point,
    {
        if board.board[point] != PointState::Empty {
            // occupied: illegal
        } else if captures_enemy_group(point, board) {
            if !violates_superko(point, board, board_history) {
                result.insert(point);
            }
        } else if !is_self_capture(point, board) {
            result.insert(point);
        }
        point = point + 1;
    }
    result
}

/// The legal moves under the strict rule, as a set of points.
pub fn get_legal_moves_strict(board: &Board, board_history: &BoardHistory) -> (r: BitSet)
    requires
        board.wf(),
    ensures
        forall|i: int|
            #[trigger] r.has(i) == legal_strict_spec(
                board.board@,
                board.size as int,
                i,
                board.player,
                board_history.to_set(),
            ),
{
    let ghost cells = board.board@;
    let ghost s = board.size as int;
    let ghost l = board.board@.len() as int;
    proof {
        assert(l <= 64) by (nonlinear_arith)
            requires
                l == s * s,
                1 <= s <= 8,
        ;
    }
    let mut result = BitSet::new();
    let mut point: usize = 0;
    while point < board.board.len()
        invariant
            board.wf(),
            cells == board.board@,
            s == board.size as int,
            l == cells.len() as int,
            l <= 64,
            point <= l,
            forall|i: int|
                #[trigger] result.has(i) == (i < point && legal_strict_spec(
                    cells,
                    s,
                    i,
                    board.player,
                    board_history.to_set(),
                )),
        decreases l - point,
    {
        if board.board[point] != PointState::Empty {
            // occupied: illegal
        } else if violates_superko(point, board, board_history) {
            // superko: illegal under the strict rule
        } else if captures_enemy_group(point, board) {
            result.insert(point);
        } else if !is_self_capture(point, board) {
            result.insert(point);
        }
        point = point + 1;
    }
    result
}

} // verus!
