//! A shallow minimax without pruning, the Monte Carlo estimate as its leaf
//! scorer: practical for ordinary positions where exhaustive search is too
//! wide and a plain estimate too noisy.

use vstd::prelude::*;
use rand_pcg::Pcg64Mcg;
use crate::board::{Board, Player};
use crate::get_legal_moves::{get_legal_moves, legal_spec};
use crate::history::BoardHistory;
use crate::make_move::make_move;
use crate::montecarlo_score::{mc_num, montecarlo_score};
use crate::pass_move::pass_move;
use crate::rational::{MoveScore, Rat};

verus! {

/// Playouts per leaf of this strategy.
pub const MC_STRATEGY_SIMULATIONS: u32 = 100;

/// Minimax without pruning: the best (for the mover) of the position's own
/// estimate and its children's values, always some leaf's estimate.
fn minimax_mc(
    board: &Board,
    board_history: &BoardHistory,
    depth: usize,
    rng: &mut Pcg64Mcg,
) -> (r: Rat)
    requires
        board.wf(),
        board_history.wf(),
    ensures
        r.wf(),
        r.den == 2 * (MC_STRATEGY_SIMULATIONS as int),
        exists|w: int|
            0 <= w <= MC_STRATEGY_SIMULATIONS as int && r.num == #[trigger] mc_num(
                w,
                MC_STRATEGY_SIMULATIONS as int,
            ),
    decreases depth,
{
    let ghost l = board.board@.len() as int;
    proof {
        assert(l <= 64) by (nonlinear_arith)
            requires
                l == board.size * board.size,
                1 <= board.size <= 8,
        ;
    }
    if depth < 1 {
        return montecarlo_score(board, board_history, MC_STRATEGY_SIMULATIONS, rng);
    }
    let mut deeper_history = board_history.duplicate();
    deeper_history.insert(&board.board);
    let legal = get_legal_moves(board, board_history);
    let mut best = montecarlo_score(board, board_history, MC_STRATEGY_SIMULATIONS, rng);
    let maximizing = board.player == Player::Black;
    let mut m: usize = 0;
    while m < board.board.len()
        invariant
            board.wf(),
            board_history.wf(),
            deeper_history.wf(),
            depth >= 1,
            l == board.board@.len() as int,
            l <= 64,
            m <= l,
            best.wf(),
            best.den == 2 * (MC_STRATEGY_SIMULATIONS as int),
            exists|w: int|
                0 <= w <= MC_STRATEGY_SIMULATIONS as int && best.num == #[trigger] mc_num(
                    w,
                    MC_STRATEGY_SIMULATIONS as int,
                ),
            forall|i: int|
                #[trigger] legal.has(i) == legal_spec(
                    board.board@,
                    board.size as int,
                    i,
                    board.player,
                    board_history.to_set(),
                ),
        decreases l - m,
    {
        if legal.contains(m) {
            let child_board = make_move(m, board);
            let child = minimax_mc(&child_board, &deeper_history, depth - 1, rng);
            if maximizing {
                if best.lt(&child) {
                    best = child;
                }
            } else {
                if child.lt(&best) {
                    best = child;
                }
            }
        }
        m = m + 1;
    }
    best
}

/// The search depth of this strategy.
pub const MC_STRATEGY_DEPTH: usize = 1;

/// Scores every move by a depth-one Monte-Carlo-leaf minimax without
/// pruning: per legal move the value of the position it produces, per
/// illegal point "unplayable", and as the last entry the value of passing
/// (searched the same way whether or not the opponent just passed).
#[allow(unused_variables)]
pub fn minimax_mc_strategy(
    board: &Board,
    board_history: &BoardHistory,
    opponent_passed: bool,
    rng: &mut Pcg64Mcg,
) -> (r: Vec<MoveScore>)
    requires
        board.wf(),
        board_history.wf(),
    ensures
        r@.len() == board.board@.len() + 1,
        forall|i: int|
            0 <= i < board.board@.len() ==> ((#[trigger] r@[i]) is Illegal == !legal_spec(
                board.board@,
                board.size as int,
                i,
                board.player,
                board_history.to_set(),
            )),
        r@[board.board@.len() as int] is Value,
        forall|i: int| 0 <= i < r@.len() ==> (#[trigger] r@[i]).wf() && !(r@[i] is Forced),
{
    let ghost cells = board.board@;
    let ghost s = board.size as int;
    let ghost l = board.board@.len() as int;
    let ghost hist = board_history.to_set();
    proof {
        assert(l <= 64) by (nonlinear_arith)
            requires
                l == s * s,
                1 <= s <= 8,
        ;
    }
    let legal = get_legal_moves(board, board_history);
    let mut result: Vec<MoveScore> = Vec::new();
    let mut point: usize = 0;
    while point < board.board.len()
        invariant
            board.wf(),
            board_history.wf(),
            cells == board.board@,
            s == board.size as int,
            l == cells.len() as int,
            l <= 64,
            hist == board_history.to_set(),
            forall|i: int| #[trigger] legal.has(i) == legal_spec(cells, s, i, board.player, hist),
            point <= l,
            result@.len() == point,
            forall|i: int|
                0 <= i < point ==> ((#[trigger] result@[i]) is Illegal == !legal_spec(
                    cells,
                    s,
                    i,
                    board.player,
                    hist,
                )),
            forall|i: int|
                0 <= i < point ==> (#[trigger] result@[i]).wf() && !(result@[i] is Forced),
        decreases l - point,
    {
        if legal.contains(point) {
            let child = make_move(point, board);
            let value = minimax_mc(&child, board_history, MC_STRATEGY_DEPTH, rng);
            result.push(MoveScore::Value(value));
        } else {
            result.push(MoveScore::Illegal);
        }
        point = point + 1;
    }
    let passed = pass_move(board);
    let pass_value = minimax_mc(&passed, board_history, MC_STRATEGY_DEPTH, rng);
    result.push(MoveScore::Value(pass_value));
    result
}

} // verus!
