//! Evaluating every candidate move of a position: one entry per board point,
//! in row-major order, and one trailing entry for passing.

use vstd::prelude::*;
use rand_pcg::Pcg64Mcg;
use crate::board::Board;
use crate::get_legal_moves::{get_legal_moves, legal_spec};
use crate::history::BoardHistory;
use crate::make_move::make_move;
use crate::minimax_score::minimax_score;
use crate::pass_move::pass_move;
use crate::rational::{MoveScore, Rat};

verus! {

/// The search depth of whole-board evaluation.
pub const EVALUATE_MOVES_DEPTH: usize = 1;

/// Scores every move of `board.player` by a shallow Monte-Carlo-leaf minimax:
/// per legal move the evaluation of the position it produces, per illegal
/// point "unplayable", and as the last entry the evaluation of passing
/// (searched the same way whether or not the opponent just passed).
#[allow(unused_variables)]
pub fn evaluate_moves(
    board: &Board,
    board_history: &BoardHistory,
    opponent_passed: bool,
    rng: &mut Pcg64Mcg,
) -> (r: Vec<MoveScore>)
    requires
        board.wf(),
        board_history.wf(),
    ensures
        r@.len() == board.board@.len() + 1,
        forall|i: int|
            0 <= i < board.board@.len() ==> ((#[trigger] r@[i]) is Illegal == !legal_spec(
                board.board@,
                board.size as int,
                i,
                board.player,
                board_history.to_set(),
            )),
        r@[board.board@.len() as int] is Value,
        forall|i: int| 0 <= i < r@.len() ==> (#[trigger] r@[i]).wf() && !(r@[i] is Forced),
{
    let ghost cells = board.board@;
    let ghost s = board.size as int;
    let ghost l = board.board@.len() as int;
    let ghost hist = board_history.to_set();
    proof {
        assert(l <= 64) by (nonlinear_arith)
            requires
                l == s * s,
                1 <= s <= 8,
        ;
    }
    let legal = get_legal_moves(board, board_history);
    let mut result: Vec<MoveScore> = Vec::new();
    let mut point: usize = 0;
    while point < board.board.len()
        invariant
            board.wf(),
            board_history.wf(),
            cells == board.board@,
            s == board.size as int,
            l == cells.len() as int,
            l <= 64,
            hist == board_history.to_set(),
            forall|i: int| #[trigger] legal.has(i) == legal_spec(cells, s, i, board.player, hist),
            point <= l,
            result@.len() == point,
            forall|i: int|
                0 <= i < point ==> ((#[trigger] result@[i]) is Illegal == !legal_spec(
                    cells,
                    s,
                    i,
                    board.player,
                    hist,
                )),
            forall|i: int|
                0 <= i < point ==> (#[trigger] result@[i]).wf() && !(result@[i] is Forced),
        decreases l - point,
    {
        if legal.contains(point) {
            let child = make_move(point, board);
            let value = minimax_score(
                &child,
                board_history,
                EVALUATE_MOVES_DEPTH,
                Rat { num: -1000000, den: 1 },
                Rat { num: 1000000, den: 1 },
                rng,
            );
            result.push(MoveScore::Value(value));
        } else {
            result.push(MoveScore::Illegal);
        }
        point = point + 1;
    }
    let passed = pass_move(board);
    let pass_value = minimax_score(
        &passed,
        board_history,
        EVALUATE_MOVES_DEPTH,
        Rat { num: -1000000, den: 1 },
        Rat { num: 1000000, den: 1 },
        rng,
    );
    result.push(MoveScore::Value(pass_value));
    result
}

} // verus!
