//! A quick positional gauge: the stone differential less the komi, with no
//! territory analysis and no foresight — a glance at the board.

use vstd::prelude::*;
use crate::board::Board;
use crate::final_score::{score_from_stones, stone_diff};

verus! {

/// The stone differential less the komi, in half-points. Positive favors
/// Black, negative favors White.
pub fn score(board: &Board) -> (r: i64)
    requires
        board.wf(),
    ensures
        r == 2 * stone_diff(board.board@) - board.komi_half,
{
    let base = score_from_stones(board);
    2 * base - board.komi_half
}

} // verus!
