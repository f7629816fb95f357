//! Counting the liberties of a stone's group.

use vstd::prelude::*;
use crate::board::Board;
use crate::group::{flood, group_of, is_stone, liberties_of};

verus! {

/// The number of distinct empty points adjacent to the group of the stone at
/// `point`. Asking about an empty or offline point is a caller error and is
/// ruled out by the precondition.
pub fn count_liberties_of_group(point: usize, board: &Board) -> (r: usize)
    requires
        board.wf(),
        point < board.board@.len(),
        is_stone(board.board@[point as int]),
    ensures
        r == liberties_of(
            board.board@,
            board.size as int,
            group_of(board.board@, board.size as int, point as int),
        ).len(),
{
    let (_, libs, _, _) = flood(board, point);
    libs.len()
}

} // verus!
