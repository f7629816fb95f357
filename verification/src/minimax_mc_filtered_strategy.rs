//! The hybrid filtered minimax: every legal move gets a quick Monte Carlo
//! estimate; only moves above the median estimate are searched deeper, the
//! rest keep their estimate lowered by a point, so weak moves never reach the
//! expensive search.

use vstd::prelude::*;
use rand_pcg::Pcg64Mcg;
use crate::board::Board;
use crate::final_score::{final_score, final_score_spec};
use crate::get_legal_moves::{get_legal_moves, legal_spec};
use crate::history::BoardHistory;
use crate::make_move::make_move;
use crate::minimax_score::minimax_score;
use crate::montecarlo_score::{montecarlo_score, montecarlo_wins};
use crate::pass_move::pass_move;
use crate::rational::{MoveScore, Rat};

verus! {

/// Playouts per quick estimate.
pub const FILTER_SIMULATIONS: u32 = 50;

/// The search depth spent on the moves that pass the filter.
pub const FILTER_DEPTH: usize = 2;

/// Sorts win counts ascending (insertion sort).
fn sort_wins(v: &mut Vec<u32>)
    requires
        forall|k: int| 0 <= k < old(v)@.len() ==> #[trigger] old(v)@[k] <= FILTER_SIMULATIONS,
    ensures
        final(v)@.len() == old(v)@.len(),
        forall|k: int| 0 <= k < final(v)@.len() ==> #[trigger] final(v)@[k] <= FILTER_SIMULATIONS,
{
    let mut i: usize = 1;
    while i < v.len()
        invariant
            forall|k: int| 0 <= k < v@.len() ==> #[trigger] v@[k] <= FILTER_SIMULATIONS,
            v@.len() == old(v)@.len(),
        decreases v@.len() - i,
    {
        let mut j: usize = i;
        while j > 0
            invariant
                j <= i < v@.len(),
                forall|k: int| 0 <= k < v@.len() ==> #[trigger] v@[k] <= FILTER_SIMULATIONS,
                v@.len() == old(v)@.len(),
            decreases j,
        {
            let a = v[j - 1];
            let b = v[j];
            if b < a {
                v[j - 1] = b;
                v[j] = a;
            }
            j = j - 1;
        }
        i = i + 1;
    }
}

/// Scores every move by the filtered search: a quick estimate per legal
/// move, a deeper search for those above the median, the lowered estimate
/// for the rest; illegal points are unplayable. Passing is offered only once
/// the opponent has passed and the position is winning.
pub fn minimax_mc_filtered_strategy(
    board: &Board,
    board_history: &BoardHistory,
    opponent_passed: bool,
    rng: &mut Pcg64Mcg,
) -> (r: Vec<MoveScore>)
    requires
        board.wf(),
        board_history.wf(),
    ensures
        r@.len() == board.board@.len() + 1,
        forall|i: int|
            0 <= i < board.board@.len() ==> ((#[trigger] r@[i]) is Illegal == !legal_spec(
                board.board@,
                board.size as int,
                i,
                board.player,
                board_history.to_set(),
            )),
        (r@[board.board@.len() as int] is Illegal) == !(opponent_passed && final_score_spec(
            board.board@,
            board.size as int,
            board.komi_half as int,
        ) > 0),
        forall|i: int| 0 <= i < r@.len() ==> (#[trigger] r@[i]).wf() && !(r@[i] is Forced),
{
    let ghost cells = board.board@;
    let ghost s = board.size as int;
    let ghost l = board.board@.len() as int;
    let ghost hist = board_history.to_set();
    proof {
        assert(l <= 64) by (nonlinear_arith)
            requires
                l == s * s,
                1 <= s <= 8,
        ;
    }
    let legal = get_legal_moves(board, board_history);
    let mut result: Vec<MoveScore> = Vec::new();
    let mut point: usize = 0;
    while point < board.board.len()
        invariant
            point <= l,
            l == cells.len() as int,
            cells == board.board@,
            result@.len() == point,
            forall|i: int| 0 <= i < point ==> (#[trigger] result@[i]) is Illegal,
        decreases l - point,
    {
        result.push(MoveScore::Illegal);
        point = point + 1;
    }
    // quick estimates of every legal move, as win counts
    let mut mc_results: Vec<(usize, u32)> = Vec::new();
    let mut m: usize = 0;
    while m < board.board.len()
        invariant
            board.wf(),
            board_history.wf(),
            cells == board.board@,
            s == board.size as int,
            l == cells.len() as int,
            l <= 64,
            hist == board_history.to_set(),
            forall|i: int| #[trigger] legal.has(i) == legal_spec(cells, s, i, board.player, hist),
            m <= l,
            forall|k: int|
                0 <= k < mc_results@.len() ==> (#[trigger] mc_results@[k].1) <= FILTER_SIMULATIONS
                    && (mc_results@[k].0 as int) < l && legal.has(mc_results@[k].0 as int),
            forall|i: int|
                0 <= i < m && legal.has(i) ==> exists|k: int|
                    0 <= k < mc_results@.len() && (#[trigger] mc_results@[k]).0 as int == i,
        decreases l - m,
    {
        let ghost mprev = mc_results@;
        if legal.contains(m) {
            let child = make_move(m, board);
            let wins = montecarlo_wins(&child, board_history, FILTER_SIMULATIONS, rng);
            mc_results.push((m, wins));
        }
        proof {
            assert forall|i: int| 0 <= i < m + 1 && legal.has(i) implies exists|k: int|
                0 <= k < mc_results@.len() && (#[trigger] mc_results@[k]).0 as int == i by {
                if i == m as int {
                    assert(mc_results@[mprev.len() as int].0 as int == i);
                } else {
                    let k = choose|k: int| 0 <= k < mprev.len() && mprev[k].0 as int == i;
                    assert(mc_results@[k].0 as int == i);
                }
            }
        }
        m = m + 1;
    }
    // the median estimate, off a sorted copy of the win counts
    let mut wins_sorted: Vec<u32> = Vec::new();
    let mut k: usize = 0;
    while k < mc_results.len()
        invariant
            k <= mc_results@.len(),
            wins_sorted@.len() == k,
            forall|kk: int|
                0 <= kk < mc_results@.len() ==> (#[trigger] mc_results@[kk].1)
                    <= FILTER_SIMULATIONS,
            forall|kk: int| 0 <= kk < k ==> #[trigger] wins_sorted@[kk] <= FILTER_SIMULATIONS,
        decreases mc_results@.len() - k,
    {
        let (_, w) = mc_results[k];
        wins_sorted.push(w);
        k = k + 1;
    }
    sort_wins(&mut wins_sorted);
    let median_wins: u32 = if wins_sorted.len() > 0 {
        wins_sorted[wins_sorted.len() / 2]
    } else {
        0
    };
    // search the strong half, keep the lowered estimate for the rest
    let mut k2: usize = 0;
    while k2 < mc_results.len()
        invariant
            board.wf(),
            board_history.wf(),
            cells == board.board@,
            s == board.size as int,
            l == cells.len() as int,
            l <= 64,
            hist == board_history.to_set(),
            forall|i: int| #[trigger] legal.has(i) == legal_spec(cells, s, i, board.player, hist),
            k2 <= mc_results@.len(),
            result@.len() == l,
            forall|kk: int|
                0 <= kk < mc_results@.len() ==> (#[trigger] mc_results@[kk].1)
                    <= FILTER_SIMULATIONS && (mc_results@[kk].0 as int) < l && legal.has(
                    mc_results@[kk].0 as int,
                ),
            forall|i: int|
                0 <= i < l && !legal_spec(cells, s, i, board.player, hist) ==> (
                #[trigger] result@[i]) is Illegal,
            forall|i: int|
                0 <= i < result@.len() ==> (#[trigger] result@[i]).wf() && !(result@[i]
                    is Forced),
            forall|i: int|
                0 <= i < l && (exists|k: int|
                    0 <= k < k2 && (#[trigger] mc_results@[k]).0 as int == i) ==> result@[i]
                    is Value,
            forall|i: int|
                0 <= i < l && legal.has(i) ==> exists|k: int|
                    0 <= k < mc_results@.len() && (#[trigger] mc_results@[k]).0 as int == i,
        decreases mc_results@.len() - k2,
    {
        let (mv, wins) = mc_results[k2];
        let entry: MoveScore = if wins > median_wins {
            let child = make_move(mv, board);
            let value = minimax_score(
                &child,
                board_history,
                FILTER_DEPTH,
                Rat { num: -1000000, den: 1 },
                Rat { num: 1000000, den: 1 },
                rng,
            );
            MoveScore::Value(value)
        } else {
            // the estimate `wins / n - 1/2`, lowered by one point
            MoveScore::Value(
                Rat {
                    num: 2 * (wins as i64) - 3 * (FILTER_SIMULATIONS as i64),
                    den: 2 * (FILTER_SIMULATIONS as i64),
                },
            )
        };
        result[mv] = entry;
        proof {
            assert forall|i: int|
                0 <= i < l && (exists|k: int|
                    0 <= k < k2 + 1 && (#[trigger] mc_results@[k]).0 as int == i) implies result@[i]
                is Value by {
                if i != mv as int {
                    let k = choose|k: int|
                        0 <= k < k2 + 1 && (#[trigger] mc_results@[k]).0 as int == i;
                    assert(0 <= k < k2 && mc_results@[k].0 as int == i);
                }
            }
        }
        k2 = k2 + 1;
    }
    proof {
        assert forall|i: int|
            0 <= i < l && legal_spec(cells, s, i, board.player, hist) implies !((
        #[trigger] result@[i]) is Illegal) by {
            assert(legal.has(i));
            let k = choose|k: int|
                0 <= k < mc_results@.len() && (#[trigger] mc_results@[k]).0 as int == i;
            assert(result@[i] is Value);
        }
    }
    // the pass entry
    if opponent_passed {
        let result_score = final_score(board);
        if result_score > 0 {
            let passed = pass_move(board);
            let pass_value = montecarlo_score(&passed, board_history, FILTER_SIMULATIONS, rng);
            result.push(MoveScore::Value(pass_value));
        } else {
            result.push(MoveScore::Illegal);
        }
    } else {
        result.push(MoveScore::Illegal);
    }
    result
}

} // verus!
