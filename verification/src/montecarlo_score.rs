//! The randomized playout simulator and the Monte Carlo estimator. A playout
//! plays uniformly random playable moves — legal moves that do not fill the
//! mover's own true eyes — until both sides pass or a move budget runs out,
//! then scores the final position.

use vstd::prelude::*;
use rand_pcg::Pcg64Mcg;
use crate::adjacency::{adjacent, get_adjacent_points};
use crate::board::{Board, Player, PointState};
use crate::final_score::{final_score, final_score_spec};
use crate::get_legal_moves::{get_legal_moves, legal_spec};
use crate::history::BoardHistory;
use crate::make_move::{apply_cells, make_move};
use crate::pass_move::pass_move;
use crate::rational::Rat;
use crate::rng::rng_below;

verus! {

/// The winner of one simulated playout.
#[derive(Clone, Copy, Debug, Hash, PartialEq, Eq, Structural)]
pub enum Winner {
    WhiteWin,
    BlackWin,
}

/// The winner a final score decides: Black on a positive score, White
/// otherwise.
pub open spec fn winner_spec(score_half: int) -> Winner {
    if score_half > 0 {
        Winner::BlackWin
    } else {
        Winner::WhiteWin
    }
}

/// Scores a finished position and names the winner.
pub fn winner_of(board: &Board) -> (r: Winner)
    requires
        board.wf(),
    ensures
        r == winner_spec(
            final_score_spec(board.board@, board.size as int, board.komi_half as int),
        ),
{
    if final_score(board) > 0 {
        Winner::BlackWin
    } else {
        Winner::WhiteWin
    }
}

/// A true eye of the mover at `m`: every adjacent point is a friendly stone
/// or offline, so only the mover could ever fill it.
pub open spec fn true_eye_spec(
    cells: Seq<PointState>,
    size: int,
    m: int,
    mover: Player,
) -> bool {
    forall|j: int|
        #[trigger] adjacent(size, cells.len() as int, m, j) ==> (cells[j] == mover.stone_spec()
            || cells[j] == PointState::Offline)
}

/// A move the playout policy may pick: legal, and not a true eye of the mover
/// — unless the opponent could also play there, in which case filling it is a
/// defense, not a waste.
pub open spec fn playable_spec(
    cells: Seq<PointState>,
    size: int,
    m: int,
    mover: Player,
    hist: Set<Seq<PointState>>,
) -> bool {
    &&& legal_spec(cells, size, m, mover, hist)
    &&& (!true_eye_spec(cells, size, m, mover) || legal_spec(cells, size, m, mover.opp(), hist))
}

/// Whether `m` is a true eye of `board.player`.
fn is_true_eye(m: usize, board: &Board) -> (r: bool)
    requires
        board.wf(),
        m < board.board@.len(),
    ensures
        r == true_eye_spec(board.board@, board.size as int, m as int, board.player),
{
    let ghost cells = board.board@;
    let ghost s = board.size as int;
    let ghost l = board.board@.len() as int;
    let friendly = board.player.stone();
    let nb = get_adjacent_points(m, board);
    let mut t: usize = 0;
    while t < nb.len()
        invariant
            board.wf(),
            cells == board.board@,
            s == board.size as int,
            l == cells.len() as int,
            m < l,
            friendly == board.player.stone_spec(),
            t <= nb@.len(),
            forall|k: int| 0 <= k < nb@.len() ==> adjacent(s, l, m as int, #[trigger] nb@[k] as int),
            forall|b: int| adjacent(s, l, m as int, b) ==> exists|k: int|
                0 <= k < nb@.len() && nb@[k] as int == b,
            forall|k: int|
                0 <= k < t ==> (cells[#[trigger] nb@[k] as int] == board.player.stone_spec()
                    || cells[nb@[k] as int] == PointState::Offline),
        decreases nb@.len() - t,
    {
        let j = nb[t];
        proof {
            assert(adjacent(s, l, m as int, j as int));
        }
        let jstate = board.board[j];
        if jstate != friendly && jstate != PointState::Offline {
            return false;
        }
        t = t + 1;
    }
    proof {
        assert forall|j: int| #[trigger] adjacent(s, l, m as int, j) implies (cells[j]
            == board.player.stone_spec() || cells[j] == PointState::Offline) by {
            let k = choose|k: int| 0 <= k < nb@.len() && nb@[k] as int == j;
            assert(cells[nb@[k] as int] == board.player.stone_spec() || cells[nb@[k] as int]
                == PointState::Offline);
        }
    }
    true
}

/// Plays one uniformly random playable move for `board.player` and records
/// the new board in the (playout-local) history. With no playable move the
/// player passes; with no playable move after the opponent already passed,
/// the playout ends (`None`).
pub fn play_random_move(board: &Board, board_history: &mut BoardHistory, rng: &mut Pcg64Mcg) -> (r:
    Option<Board>)
    requires
        board.wf(),
        old(board_history).wf(),
    ensures
        final(board_history).wf(),
        r is Some ==> {
            let b2 = r->0;
            &&& b2.wf()
            &&& b2.size == board.size
            &&& b2.komi_half == board.komi_half
            &&& b2.player == board.player.opp()
        },
        (r is Some && !(r->0).opponent_passed) ==> exists|m: int|
            {
                &&& #[trigger] playable_spec(
                    board.board@,
                    board.size as int,
                    m,
                    board.player,
                    old(board_history).to_set(),
                )
                &&& (r->0).board@ == apply_cells(board.board@, board.size as int, m, board.player)
                &&& final(board_history).to_set() == old(board_history).to_set().insert(
                    (r->0).board@,
                )
            },
        (r is Some && (r->0).opponent_passed) ==> {
            &&& (r->0).board@ == board.board@
            &&& !board.opponent_passed
            &&& final(board_history).to_set() == old(board_history).to_set()
            &&& forall|m: int|
                !playable_spec(
                    board.board@,
                    board.size as int,
                    m,
                    board.player,
                    old(board_history).to_set(),
                )
        },
        r is None ==> {
            &&& board.opponent_passed
            &&& final(board_history).to_set() == old(board_history).to_set()
            &&& forall|m: int|
                !playable_spec(
                    board.board@,
                    board.size as int,
                    m,
                    board.player,
                    old(board_history).to_set(),
                )
        },
{
    let ghost cells = board.board@;
    let ghost s = board.size as int;
    let ghost l = board.board@.len() as int;
    let ghost hist = board_history.to_set();
    proof {
        assert(l <= 64) by (nonlinear_arith)
            requires
                l == s * s,
                1 <= s <= 8,
        ;
    }
    let legal = get_legal_moves(board, board_history);
    let opponent_view = pass_move(board);
    let legal_for_opponent = get_legal_moves(&opponent_view, board_history);
    let mut possible_moves: Vec<usize> = Vec::new();
    let mut m: usize = 0;
    while m < board.board.len()
        invariant
            board.wf(),
            cells == board.board@,
            s == board.size as int,
            l == cells.len() as int,
            l <= 64,
            hist == board_history.to_set(),
            m <= l,
            forall|i: int| #[trigger] legal.has(i) == legal_spec(cells, s, i, board.player, hist),
            forall|i: int|
                #[trigger] legal_for_opponent.has(i) == legal_spec(
                    cells,
                    s,
                    i,
                    board.player.opp(),
                    hist,
                ),
            forall|k: int|
                0 <= k < possible_moves@.len() ==> (#[trigger] possible_moves@[k] as int) < l
                    && playable_spec(cells, s, possible_moves@[k] as int, board.player, hist),
            forall|i: int|
                0 <= i < m && playable_spec(cells, s, i, board.player, hist) ==> exists|k: int|
                    0 <= k < possible_moves@.len() && possible_moves@[k] as int == i,
        decreases l - m,
    {
        let ghost pprev = possible_moves@;
        let mut pushed = false;
        if legal.contains(m) {
            let eye = is_true_eye(m, board);
            if !eye || legal_for_opponent.contains(m) {
                possible_moves.push(m);
                pushed = true;
            } else {
                proof {
                    assert(!playable_spec(cells, s, m as int, board.player, hist));
                }
            }
        } else {
            proof {
                assert(!legal_spec(cells, s, m as int, board.player, hist));
            }
        }
        proof {
            assert forall|i: int|
                0 <= i < m + 1 && playable_spec(cells, s, i, board.player, hist) implies exists|
                k: int,
            | 0 <= k < possible_moves@.len() && possible_moves@[k] as int == i by {
                if i == m as int {
                    assert(pushed);
                    assert(possible_moves@[pprev.len() as int] as int == i);
                } else {
                    let k = choose|k: int| 0 <= k < pprev.len() && pprev[k] as int == i;
                    assert(possible_moves@[k] as int == i);
                }
            }
        }
        m = m + 1;
    }
    proof {
        assert forall|i: int|
            playable_spec(cells, s, i, board.player, hist) implies 0 <= i < l by {}
    }
    if possible_moves.len() == 0 {
        proof {
            assert forall|i: int| !playable_spec(cells, s, i, board.player, hist) by {
                if 0 <= i < l && playable_spec(cells, s, i, board.player, hist) {
                    assert(exists|k: int|
                        0 <= k < possible_moves@.len() && possible_moves@[k] as int == i);
                }
            }
        }
        if !board.opponent_passed {
            Some(pass_move(board))
        } else {
            None
        }
    } else {
        let idx = rng_below(rng, possible_moves.len());
        let chosen = possible_moves[idx];
        let new_board = make_move(chosen, board);
        board_history.insert(&new_board.board);
        proof {
            assert(playable_spec(cells, s, chosen as int, board.player, hist));
        }
        Some(new_board)
    }
}

/// Runs one playout from the position: up to one move per board point, then
/// the final position is scored. The playout is a pure function of the
/// position, the history and the generator's state, so a fixed seed
/// reproduces it exactly.
pub fn montecarlo_simulation(board: Board, board_history: BoardHistory, rng: &mut Pcg64Mcg) -> (r:
    Winner)
    requires
        board.wf(),
        board_history.wf(),
{
    let mut b = board;
    let mut hist = board_history;
    let budget = b.board.len();
    let mut i: usize = 0;
    let mut done = false;
    while i < budget && !done
        invariant
            b.wf(),
            hist.wf(),
        decreases budget - i,
    {
        match play_random_move(&b, &mut hist, rng) {
            Some(s) => {
                b = s;
            },
            None => {
                done = true;
            },
        }
        i = i + 1;
    }
    winner_of(&b)
}

/// The numerator of the estimate that `w` black wins out of `n` playouts
/// give, over the denominator `2 * n`.
pub open spec fn mc_num(w: int, n: int) -> int {
    2 * w - n
}

/// The estimate that `wins` black wins out of `n` playouts give:
/// `wins / n - 1/2`, as the exact rational `(2 * wins - n) / (2 * n)`.
/// All wins estimate exactly `+1/2`; no wins, exactly `-1/2`.
pub fn mc_estimate(wins: u32, n: u32) -> (r: Rat)
    requires
        wins <= n,
        1 <= n,
    ensures
        r.wf(),
        r.num == 2 * (wins as int) - n as int,
        r.den == 2 * (n as int),
        wins == n ==> r.eq_spec(Rat { num: 1, den: 2 }),
        wins == 0 ==> r.eq_spec(Rat { num: -1i64, den: 2 }),
{
    Rat { num: 2 * (wins as i64) - (n as i64), den: 2 * (n as i64) }
}

/// The Monte Carlo estimator is exact at certainty: when every one of the
/// `n > 0` playouts is a black win, the estimate equals `+1/2` as a rational
/// — not approximately, whatever `n` is. (Symmetrically `-1/2` with none.)
pub proof fn lemma_estimator_exact_at_certainty(r: Rat, n: i64)
    requires
        1 <= n,
        r.den == 2 * n,
        r.num == n,
    ensures
        r.eq_spec(Rat { num: 1, den: 2 }),
{
}

/// Counts black wins over `n` independent playouts, each on its own copy of
/// the position and the history.
pub fn montecarlo_wins(
    board: &Board,
    board_history: &BoardHistory,
    simulation_count: u32,
    rng: &mut Pcg64Mcg,
) -> (wins: u32)
    requires
        board.wf(),
        board_history.wf(),
    ensures
        wins <= simulation_count,
{
    let mut black_wins: u32 = 0;
    let mut i: u32 = 0;
    while i < simulation_count
        invariant
            board.wf(),
            board_history.wf(),
            i <= simulation_count,
            black_wins <= i,
        decreases simulation_count - i,
    {
        let b = board.duplicate();
        let h = board_history.duplicate();
        match montecarlo_simulation(b, h, rng) {
            Winner::BlackWin => {
                black_wins = black_wins + 1;
            },
            Winner::WhiteWin => {},
        }
        i = i + 1;
    }
    black_wins
}

/// The Monte Carlo estimate of the position: the black win rate over
/// `simulation_count` playouts, shifted to be zero at an even game. Positive
/// favors Black; the value always lies in `[-1/2, +1/2]`.
pub fn montecarlo_score(
    board: &Board,
    board_history: &BoardHistory,
    simulation_count: u32,
    rng: &mut Pcg64Mcg,
) -> (r: Rat)
    requires
        board.wf(),
        board_history.wf(),
        1 <= simulation_count,
    ensures
        r.wf(),
        r.den == 2 * (simulation_count as int),
        exists|w: int| 0 <= w <= simulation_count as int && r.num == #[trigger] mc_num(
            w,
            simulation_count as int,
        ),
        -(simulation_count as int) <= r.num <= simulation_count as int,
{
    let wins = montecarlo_wins(board, board_history, simulation_count, rng);
    let r = mc_estimate(wins, simulation_count);
    proof {
        assert(0 <= wins as int <= simulation_count as int && r.num == mc_num(
            wins as int,
            simulation_count as int,
        ));
    }
    r
}

} // verus!
