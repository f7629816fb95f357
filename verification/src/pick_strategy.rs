//! The strategy selector, run once per analysis request. An opening position
//! on a mostly playable board forces the center point. Otherwise a cheap
//! Monte Carlo gauge sorts the position: clearly winning ones go to the exact
//! alpha-beta finisher, clearly lost ones short-circuit to a pass, and
//! contested ones get the full tree search.

use vstd::prelude::*;
use rand_pcg::Pcg64Mcg;
use crate::board::{Board, Player, PointState};
use crate::get_legal_moves::{get_legal_moves_strict, legal_strict_spec};
use crate::history::BoardHistory;
use crate::mcts_strategy::{mcts_strategy, mcts_strategy_post, MCTS_BATCH_SIZE, MCTS_PLAYOUT_COUNT};
use crate::minimax_ab_strategy::{ab_strategy_post, minimax_ab_strategy};
use crate::montecarlo_score::montecarlo_wins;
use crate::rational::{MoveScore, Rat};

verus! {

/// The least number of strict-legal points for the forced opening move
/// (empirically chosen: a large majority of a small board).
pub const TENGEN_THRESHOLD: usize = 22;

/// Playouts of the positional gauge.
pub const GAUGE_SIMULATIONS: u32 = 100;

/// Gauge wins above which the position counts as clearly winning.
pub const WINNING_GAUGE: u32 = 95;

/// Gauge wins below which the position counts as clearly lost.
pub const LOSING_GAUGE: u32 = 5;

/// The opening shortcut's condition: at most one recorded board, more than
/// `TENGEN_THRESHOLD` playable points, and a playable center.
pub open spec fn tengen_forced(
    cells: Seq<PointState>,
    size: int,
    player: Player,
    hist: Set<Seq<PointState>>,
    hist_len: int,
) -> bool {
    &&& hist_len <= 1
    &&& Set::new(|i: int| legal_strict_spec(cells, size, i, player, hist)).len()
        > TENGEN_THRESHOLD
    &&& legal_strict_spec(cells, size, cells.len() as int / 2, player, hist)
}

/// What the selector returns when the opening shortcut does not apply and the
/// gauge drew `w` black wins: clearly winning positions get the exact
/// finisher's vector, clearly lost ones every cell unplayable and the pass
/// scored exactly zero, contested ones the tree search's vector.
pub open spec fn gauge_outcome(
    w: int,
    r: Seq<MoveScore>,
    cells: Seq<PointState>,
    size: int,
    player: Player,
    komi_half: int,
    hist: Set<Seq<PointState>>,
    opponent_passed: bool,
) -> bool {
    &&& 0 <= w <= GAUGE_SIMULATIONS as int
    &&& (w > WINNING_GAUGE as int ==> ab_strategy_post(
        r,
        cells,
        size,
        player,
        komi_half,
        hist,
        opponent_passed,
    ))
    &&& (w < LOSING_GAUGE as int ==> (forall|i: int|
        0 <= i < cells.len() ==> (#[trigger] r[i]) is Illegal) && r[cells.len() as int]
        == MoveScore::Value(Rat { num: 0, den: 1 }))
    &&& (LOSING_GAUGE as int <= w <= WINNING_GAUGE as int ==> mcts_strategy_post(
        r,
        cells,
        size,
        player,
        hist,
    ))
}

/// Picks a strategy for the position and returns its score vector: one entry
/// per board point plus one for passing. On an opening board the center is
/// forced and everything else unplayable; otherwise the drawn gauge decides,
/// and the vector is the chosen branch's, exactly (`gauge_outcome`).
pub fn pick_strategy(
    board: Board,
    board_history: BoardHistory,
    opponent_passed: bool,
    rng: &mut Pcg64Mcg,
) -> (r: Vec<MoveScore>)
    requires
        board.wf(),
        board_history.wf(),
    ensures
        r@.len() == board.board@.len() + 1,
        forall|i: int| 0 <= i < r@.len() ==> (#[trigger] r@[i]).wf(),
        tengen_forced(
            board.board@,
            board.size as int,
            board.player,
            board_history.to_set(),
            board_history.snapshots@.len() as int,
        ) ==> (r@[board.board@.len() as int / 2] == MoveScore::Forced && forall|i: int|
            0 <= i < r@.len() && i != board.board@.len() as int / 2 ==> (#[trigger] r@[i])
                is Illegal),
        !tengen_forced(
            board.board@,
            board.size as int,
            board.player,
            board_history.to_set(),
            board_history.snapshots@.len() as int,
        ) ==> exists|w: int|
            #[trigger] gauge_outcome(
                w,
                r@,
                board.board@,
                board.size as int,
                board.player,
                board.komi_half as int,
                board_history.to_set(),
                opponent_passed,
            ),
{
    let ghost cells = board.board@;
    let ghost s = board.size as int;
    let ghost l = board.board@.len() as int;
    let ghost hist = board_history.to_set();
    proof {
        assert(l <= 64) by (nonlinear_arith)
            requires
                l == s * s,
                1 <= s <= 8,
        ;
    }
    let board_len = board.board.len();
    let legal_moves = get_legal_moves_strict(&board, &board_history);
    // the forced opening move
    if board_history.len() <= 1 {
        let tengen = board_len / 2;
        proof {
            assert(legal_moves.to_set() =~= Set::new(
                |i: int| legal_strict_spec(cells, s, i, board.player, hist),
            ));
        }
        if legal_moves.len() > TENGEN_THRESHOLD && legal_moves.contains(tengen) {
            let mut result: Vec<MoveScore> = Vec::new();
            let mut i: usize = 0;
            while i < board_len
                invariant
                    i <= l,
                    board_len as int == l,
                    l == cells.len() as int,
                    result@.len() == i,
                    forall|k: int| 0 <= k < i ==> (#[trigger] result@[k]) is Illegal,
                decreases l - i,
            {
                result.push(MoveScore::Illegal);
                i = i + 1;
            }
            result.push(MoveScore::Illegal);
            result[tengen] = MoveScore::Forced;
            return result;
        }
    }
    // the positional gauge
    let guesstimate = montecarlo_wins(&board, &board_history, GAUGE_SIMULATIONS, rng);
    if guesstimate > WINNING_GAUGE {
        // clearly winning: finish exactly
        let r = minimax_ab_strategy(&board, &board_history, opponent_passed);
        proof {
            assert(gauge_outcome(
                guesstimate as int,
                r@,
                cells,
                s,
                board.player,
                board.komi_half as int,
                hist,
                opponent_passed,
            ));
        }
        r
    } else if guesstimate < LOSING_GAUGE {
        // clearly lost: pass, do not resist
        let mut result: Vec<MoveScore> = Vec::new();
        let mut i: usize = 0;
        while i < board_len
            invariant
                i <= l,
                board_len as int == l,
                l == cells.len() as int,
                result@.len() == i,
                forall|k: int| 0 <= k < i ==> (#[trigger] result@[k]) is Illegal,
            decreases l - i,
        {
            result.push(MoveScore::Illegal);
            i = i + 1;
        }
        result.push(MoveScore::Value(Rat { num: 0, den: 1 }));
        proof {
            assert(gauge_outcome(
                guesstimate as int,
                result@,
                cells,
                s,
                board.player,
                board.komi_half as int,
                hist,
                opponent_passed,
            ));
        }
        result
    } else {
        // contested: the tree search
        let ghost pl = board.player;
        let ghost komi = board.komi_half as int;
        let r = mcts_strategy(board, board_history, MCTS_PLAYOUT_COUNT, MCTS_BATCH_SIZE, rng);
        proof {
            assert(gauge_outcome(guesstimate as int, r@, cells, s, pl, komi, hist, opponent_passed));
        }
        r
    }
}

} // verus!
