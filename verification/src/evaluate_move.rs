//! Evaluating a single already-made move: the place to change how moves are
//! judged without touching the analysis entry point.

use vstd::prelude::*;
use rand_pcg::Pcg64Mcg;
use crate::board::Board;
use crate::history::BoardHistory;
use crate::minimax_score::minimax_score;
use crate::rational::Rat;

verus! {

/// The search depth of single-move evaluation.
pub const EVALUATE_DEPTH: usize = 3;

/// Evaluates the position a move produced: a full-window Monte-Carlo-leaf
/// minimax, `EVALUATE_DEPTH` plies deep.
pub fn evaluate_move(board: &Board, board_history: &BoardHistory, rng: &mut Pcg64Mcg) -> (r: Rat)
    requires
        board.wf(),
        board_history.wf(),
    ensures
        r.wf(),
        r.den == 2 * (crate::minimax_score::MC_LEAF_SIMULATIONS as int),
{
    minimax_score(
        board,
        board_history,
        EVALUATE_DEPTH,
        Rat { num: -1000000, den: 1 },
        Rat { num: 1000000, den: 1 },
        rng,
    )
}

} // verus!
