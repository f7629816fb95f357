//! Passing: a move that places no stone.

use vstd::prelude::*;
use crate::board::Board;

verus! {

/// Passing: the turn changes hands, the pass is recorded, the board stands.
pub fn pass_move(board: &Board) -> (r: Board)
    requires
        board.wf(),
    ensures
        r.board@ == board.board@,
        r.size == board.size,
        r.player == board.player.opp(),
        r.komi_half == board.komi_half,
        r.opponent_passed == true,
        r.wf(),
{
    let b = board.duplicate();
    Board {
        board: b.board,
        size: board.size,
        player: board.player.opposite(),
        komi_half: board.komi_half,
        opponent_passed: true,
    }
}

} // verus!
