//! The self-capture test: a move that would leave the mover's own stone
//! without a liberty while capturing nothing.

use vstd::prelude::*;
use crate::adjacency::{adjacent, get_adjacent_points};
use crate::bitset::BitSet;
use crate::board::{Board, Player, PointState};
use crate::is_in_atari::{atari_spec, is_in_atari};

verus! {

/// Playing `point` is self-capture when every adjacent point is occupied,
/// every adjacent friendly group would lose its last liberty (`point`), and
/// no adjacent enemy group is captured (which would free liberties).
pub open spec fn self_capture_spec(
    cells: Seq<PointState>,
    size: int,
    point: int,
    mover: Player,
) -> bool {
    forall|j: int|
        #[trigger] adjacent(size, cells.len() as int, point, j) ==> {
            &&& cells[j] != PointState::Empty
            &&& (cells[j] == mover.stone_spec() ==> atari_spec(cells, size, j, point))
            &&& (cells[j] == mover.opp().stone_spec() ==> !atari_spec(cells, size, j, point))
        }
}

/// Whether playing `point` would be a self-capture for `board.player`.
pub fn is_self_capture(point: usize, board: &Board) -> (r: bool)
    requires
        board.wf(),
        point < board.board@.len(),
    ensures
        r == self_capture_spec(board.board@, board.size as int, point as int, board.player),
{
    let ghost cells = board.board@;
    let ghost s = board.size as int;
    let ghost l = board.board@.len() as int;
    let ghost pt = point as int;
    let friendly = board.player.stone();
    let enemy = board.player.opposite().stone();
    let nb = get_adjacent_points(point, board);
    let mut t: usize = 0;
    while t < nb.len()
        invariant
            board.wf(),
            cells == board.board@,
            s == board.size as int,
            l == cells.len() as int,
            pt == point as int,
            0 <= pt < l,
            friendly == board.player.stone_spec(),
            enemy == board.player.opp().stone_spec(),
            t <= nb@.len(),
            forall|k: int| 0 <= k < nb@.len() ==> adjacent(s, l, pt, #[trigger] nb@[k] as int),
            forall|b: int| adjacent(s, l, pt, b) ==> exists|k: int|
                0 <= k < nb@.len() && nb@[k] as int == b,
            forall|k: int|
                0 <= k < t ==> {
                    &&& cells[#[trigger] nb@[k] as int] != PointState::Empty
                    &&& (cells[nb@[k] as int] == board.player.stone_spec() ==> atari_spec(
                        cells,
                        s,
                        nb@[k] as int,
                        pt,
                    ))
                    &&& (cells[nb@[k] as int] == board.player.opp().stone_spec() ==> !atari_spec(
                        cells,
                        s,
                        nb@[k] as int,
                        pt,
                    ))
                },
        decreases nb@.len() - t,
    {
        let j = nb[t];
        proof {
            assert(adjacent(s, l, pt, j as int));
        }
        let jstate = board.board[j];
        if jstate == PointState::Empty {
            return false;
        } else if jstate == friendly {
            if !is_in_atari(j, board, point, &mut BitSet::new()) {
                return false;
            }
        } else if jstate == enemy {
            if is_in_atari(j, board, point, &mut BitSet::new()) {
                return false;
            }
        }
        t = t + 1;
    }
    proof {
        assert forall|j: int| #[trigger] adjacent(s, l, pt, j) implies {
            &&& cells[j] != PointState::Empty
            &&& (cells[j] == board.player.stone_spec() ==> atari_spec(cells, s, j, pt))
            &&& (cells[j] == board.player.opp().stone_spec() ==> !atari_spec(cells, s, j, pt))
        } by {
            let k = choose|k: int| 0 <= k < nb@.len() && nb@[k] as int == j;
            assert(cells[nb@[k] as int] != PointState::Empty);
        }
    }
    true
}

} // verus!
