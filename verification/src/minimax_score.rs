//! Depth-limited minimax with alpha-beta pruning over the Monte Carlo
//! estimate: the pluggable-leaf search used for ordinary move evaluation.
//! The leaf values are random, so unlike the final-score search no exact
//! value can be promised; the search structure is the same.

use vstd::prelude::*;
use rand_pcg::Pcg64Mcg;
use crate::board::{Board, Player};
use crate::get_legal_moves::{get_legal_moves, legal_spec};
use crate::history::BoardHistory;
use crate::make_move::make_move;
use crate::montecarlo_score::{mc_num, montecarlo_score};
use crate::rational::Rat;

verus! {

/// Playouts per leaf evaluation.
pub const MC_LEAF_SIMULATIONS: u32 = 20;

/// Evaluates a position by minimax with alpha-beta pruning, a Monte Carlo
/// estimate of `MC_LEAF_SIMULATIONS` playouts as the leaf scorer. The result
/// is always some leaf's estimate — at depth zero the position's own, with no
/// search applied — so it always has the estimate shape: some win count out
/// of the leaf sample count.
pub fn minimax_score(
    board: &Board,
    board_history: &BoardHistory,
    depth: usize,
    alpha: Rat,
    beta: Rat,
    rng: &mut Pcg64Mcg,
) -> (r: Rat)
    requires
        board.wf(),
        board_history.wf(),
        alpha.wf(),
        beta.wf(),
    ensures
        r.wf(),
        r.den == 2 * (MC_LEAF_SIMULATIONS as int),
        exists|w: int|
            0 <= w <= MC_LEAF_SIMULATIONS as int && r.num == #[trigger] mc_num(
                w,
                MC_LEAF_SIMULATIONS as int,
            ),
    decreases depth,
{
    let ghost l = board.board@.len() as int;
    proof {
        assert(l <= 64) by (nonlinear_arith)
            requires
                l == board.size * board.size,
                1 <= board.size <= 8,
        ;
    }
    if depth < 1 {
        return montecarlo_score(board, board_history, MC_LEAF_SIMULATIONS, rng);
    }
    let mut deeper_history = board_history.duplicate();
    deeper_history.insert(&board.board);
    let legal = get_legal_moves(board, board_history);
    let mut best = montecarlo_score(board, board_history, MC_LEAF_SIMULATIONS, rng);
    if board.player == Player::Black {
        let mut a = alpha;
        let mut m: usize = 0;
        let mut cut = false;
        while m < board.board.len() && !cut
            invariant
                board.wf(),
                board_history.wf(),
                deeper_history.wf(),
                depth >= 1,
                l == board.board@.len() as int,
                l <= 64,
                m <= l,
                best.wf(),
                best.den == 2 * (MC_LEAF_SIMULATIONS as int),
                exists|w: int|
                    0 <= w <= MC_LEAF_SIMULATIONS as int && best.num == #[trigger] mc_num(
                        w,
                        MC_LEAF_SIMULATIONS as int,
                    ),
                a.wf(),
                beta.wf(),
                forall|i: int|
                    #[trigger] legal.has(i) == legal_spec(
                        board.board@,
                        board.size as int,
                        i,
                        board.player,
                        board_history.to_set(),
                    ),
            decreases l - m,
        {
            if legal.contains(m) {
                let child_board = make_move(m, board);
                let child = minimax_score(&child_board, &deeper_history, depth - 1, a, beta, rng);
                if best.lt(&child) {
                    best = child;
                }
                if a.lt(&best) {
                    a = best;
                }
                if beta.le(&a) {
                    cut = true;
                }
            }
            m = m + 1;
        }
    } else {
        let mut b = beta;
        let mut m: usize = 0;
        let mut cut = false;
        while m < board.board.len() && !cut
            invariant
                board.wf(),
                board_history.wf(),
                deeper_history.wf(),
                depth >= 1,
                l == board.board@.len() as int,
                l <= 64,
                m <= l,
                best.wf(),
                best.den == 2 * (MC_LEAF_SIMULATIONS as int),
                exists|w: int|
                    0 <= w <= MC_LEAF_SIMULATIONS as int && best.num == #[trigger] mc_num(
                        w,
                        MC_LEAF_SIMULATIONS as int,
                    ),
                b.wf(),
                alpha.wf(),
                forall|i: int|
                    #[trigger] legal.has(i) == legal_spec(
                        board.board@,
                        board.size as int,
                        i,
                        board.player,
                        board_history.to_set(),
                    ),
            decreases l - m,
        {
            if legal.contains(m) {
                let child_board = make_move(m, board);
                let child = minimax_score(&child_board, &deeper_history, depth - 1, alpha, b, rng);
                if child.lt(&best) {
                    best = child;
                }
                if best.lt(&b) {
                    b = best;
                }
                if b.le(&alpha) {
                    cut = true;
                }
            }
            m = m + 1;
        }
    }
    best
}

} // verus!
