//! Depth-limited minimax with alpha-beta pruning over the exact final score:
//! the "finisher" strategy, strongest when the game is nearly decided.
//!
//! `minimax_alphabeta` carries a fail-soft contract against the recursive
//! game value `minimax_value`: a result strictly inside the window equals the
//! game value; a result at or below alpha is an upper bound on it; one at or
//! above beta is a lower bound. Called with the full window it is exact.

use vstd::prelude::*;
use crate::board::{Board, Player, PointState};
use crate::final_score::{final_score, final_score_spec};
use crate::get_legal_moves::{get_legal_moves, legal_spec};
use crate::history::BoardHistory;
use crate::make_move::{apply_cells, make_move};
use crate::pass_move::pass_move;
use crate::rational::{MoveScore, Rat};

verus! {

/// The larger of two integers.
pub open spec fn imax(a: int, b: int) -> int {
    if a >= b {
        a
    } else {
        b
    }
}

/// The smaller of two integers.
pub open spec fn imin(a: int, b: int) -> int {
    if a <= b {
        a
    } else {
        b
    }
}

/// The minimax game value of a position at a given depth: at depth zero the
/// final score; otherwise the best (for the mover) of the position's own
/// score — the pass baseline — and the values of all legal successors, one
/// move deeper in the history.
pub open spec fn minimax_value(
    cells: Seq<PointState>,
    size: int,
    player: Player,
    komi_half: int,
    hist: Set<Seq<PointState>>,
    depth: nat,
) -> int
    decreases depth, cells.len() + 1nat,
{
    if depth == 0 {
        final_score_spec(cells, size, komi_half)
    } else {
        minimax_prefix(
            cells,
            size,
            player,
            komi_half,
            hist,
            (depth - 1) as nat,
            cells.len() as nat,
        )
    }
}

/// The best (for the mover) of the pass baseline and the values of the legal
/// moves below `j`, each searched at depth `child_depth`.
pub open spec fn minimax_prefix(
    cells: Seq<PointState>,
    size: int,
    player: Player,
    komi_half: int,
    hist: Set<Seq<PointState>>,
    child_depth: nat,
    j: nat,
) -> int
    decreases child_depth + 1nat, j,
{
    if j == 0 {
        final_score_spec(cells, size, komi_half)
    } else {
        let prev = minimax_prefix(cells, size, player, komi_half, hist, child_depth, (j - 1) as nat);
        if legal_spec(cells, size, j - 1, player, hist) {
            let child = minimax_value(
                apply_cells(cells, size, j - 1, player),
                size,
                player.opp(),
                komi_half,
                hist.insert(cells),
                child_depth,
            );
            if player == Player::Black {
                imax(prev, child)
            } else {
                imin(prev, child)
            }
        } else {
            prev
        }
    }
}

/// Searching depth zero applies no search: the minimax value is the leaf
/// scorer — the final score — exactly.
pub proof fn lemma_minimax_depth_zero(
    cells: Seq<PointState>,
    size: int,
    player: Player,
    komi_half: int,
    hist: Set<Seq<PointState>>,
)
    ensures
        minimax_value(cells, size, player, komi_half, hist, 0) == final_score_spec(
            cells,
            size,
            komi_half,
        ),
{
}

/// Longer prefixes are at least as good for the mover.
proof fn lemma_prefix_mono(
    cells: Seq<PointState>,
    size: int,
    player: Player,
    komi_half: int,
    hist: Set<Seq<PointState>>,
    child_depth: nat,
    j1: nat,
    j2: nat,
)
    requires
        j1 <= j2,
    ensures
        player == Player::Black ==> minimax_prefix(
            cells,
            size,
            player,
            komi_half,
            hist,
            child_depth,
            j1,
        ) <= minimax_prefix(cells, size, player, komi_half, hist, child_depth, j2),
        player == Player::White ==> minimax_prefix(
            cells,
            size,
            player,
            komi_half,
            hist,
            child_depth,
            j1,
        ) >= minimax_prefix(cells, size, player, komi_half, hist, child_depth, j2),
    decreases j2,
{
    if j1 < j2 {
        lemma_prefix_mono(cells, size, player, komi_half, hist, child_depth, j1, (j2 - 1) as nat);
    }
}

/// Evaluates a position by minimax with alpha-beta pruning, the final score
/// as the leaf scorer, in half-points. Fail-soft: the result equals the game
/// value when it lies strictly inside `(alpha, beta)`; a result at or below
/// `alpha` bounds the game value from above; one at or above `beta` bounds it
/// from below.
#[verifier::rlimit(60)]
pub fn minimax_alphabeta(
    board: &Board,
    board_history: &BoardHistory,
    depth: usize,
    alpha: i64,
    beta: i64,
) -> (r: i64)
    requires
        board.wf(),
        board_history.wf(),
        alpha < beta,
    ensures
        -41088 <= r <= 41088,
        ({
            let v = minimax_value(
                board.board@,
                board.size as int,
                board.player,
                board.komi_half as int,
                board_history.to_set(),
                depth as nat,
            );
            &&& (alpha < r < beta ==> r == v)
            &&& (r <= alpha ==> v <= r)
            &&& (r >= beta ==> v >= r)
        }),
    decreases depth,
{
    let ghost cells = board.board@;
    let ghost s = board.size as int;
    let ghost l = board.board@.len() as int;
    let ghost komi = board.komi_half as int;
    let ghost hist = board_history.to_set();
    let ghost v = minimax_value(cells, s, board.player, komi, hist, depth as nat);
    let ghost fs = final_score_spec(cells, s, komi);
    if depth == 0 {
        let r = final_score(board);
        return r;
    }
    let ghost cd = (depth - 1) as nat;
    let baseline = final_score(board);
    proof {
        assert(-41088 <= baseline <= 41088);
        assert(minimax_prefix(cells, s, board.player, komi, hist, cd, 0) == fs);
        assert(v == minimax_prefix(cells, s, board.player, komi, hist, cd, l as nat));
    }
    let legal = get_legal_moves(board, board_history);
    let mut deeper_history = board_history.duplicate();
    deeper_history.insert(&board.board);
    proof {
        assert(deeper_history.to_set() == hist.insert(cells));
    }
    proof {
        assert(l <= 64) by (nonlinear_arith)
            requires
                l == s * s,
                1 <= s <= 8,
        ;
    }
    let mut best = baseline;
    if board.player == Player::Black {
        let mut a = alpha;
        let mut m: usize = 0;
        let mut cut = false;
        while m < board.board.len() && !cut
            invariant
                board.wf(),
                board_history.wf(),
                deeper_history.wf(),
                cells == board.board@,
                s == board.size as int,
                l == cells.len() as int,
                komi == board.komi_half as int,
                hist == board_history.to_set(),
                deeper_history.to_set() == hist.insert(cells),
                board.player == Player::Black,
                cd == (depth - 1) as nat,
                depth >= 1,
                v == minimax_prefix(cells, s, board.player, komi, hist, cd, l as nat),
                fs == final_score_spec(cells, s, komi),
                alpha < beta,
                forall|i: int|
                    #[trigger] legal.has(i) == legal_spec(cells, s, i, board.player, hist),
                m <= l,
                -41088 <= best <= 41088,
                fs <= best,
                !cut ==> minimax_prefix(cells, s, board.player, komi, hist, cd, m as nat) <= best,
                !cut ==> best <= imax(
                    alpha as int,
                    minimax_prefix(cells, s, board.player, komi, hist, cd, m as nat),
                ),
                !cut ==> (a == alpha || a == imax(alpha as int, best as int)),
                alpha <= a,
                !cut ==> a < beta,
                l <= 64,
                cut ==> beta <= best && best <= v,
            decreases l - m,
        {
            let ghost pm = minimax_prefix(cells, s, board.player, komi, hist, cd, m as nat);
            let ghost pm1 = minimax_prefix(cells, s, board.player, komi, hist, cd, (m + 1) as nat);
            if legal.contains(m) {
                let child_board = make_move(m, board);
                let child = minimax_alphabeta(&child_board, &deeper_history, depth - 1, a, beta);
                let ghost cv = minimax_value(
                    apply_cells(cells, s, m as int, board.player),
                    s,
                    board.player.opp(),
                    komi,
                    hist.insert(cells),
                    cd,
                );
                proof {
                    assert(child_board.board@ == apply_cells(cells, s, m as int, board.player));
                    assert(pm1 == imax(pm, cv));
                }
                let ghost best_old = best;
                if child > best {
                    best = child;
                }
                if best > a {
                    a = best;
                }
                if beta <= a {
                    proof {
                        assert(beta <= best);
                        if best == best_old {
                            assert(best_old <= imax(alpha as int, pm));
                            assert(best <= pm);
                            lemma_prefix_mono(
                                cells,
                                s,
                                board.player,
                                komi,
                                hist,
                                cd,
                                m as nat,
                                l as nat,
                            );
                        } else {
                            assert(best == child);
                            assert(child >= beta);
                            assert(cv >= child);
                            assert(best <= pm1);
                            lemma_prefix_mono(
                                cells,
                                s,
                                board.player,
                                komi,
                                hist,
                                cd,
                                (m + 1) as nat,
                                l as nat,
                            );
                        }
                        assert(best <= v);
                    }
                    cut = true;
                } else {
                    proof {
                        if child <= a {
                        } else {
                            assert(child == cv);
                        }
                        assert(pm1 <= best);
                        assert(best <= imax(alpha as int, pm1));
                    }
                }
            } else {
                proof {
                    assert(pm1 == pm);
                }
            }
            m = m + 1;
        }
        proof {
            if !cut {
                assert(m as int == l);
                assert(minimax_prefix(cells, s, board.player, komi, hist, cd, l as nat) <= best);
                assert(best <= imax(alpha as int, v));
            }
        }
        best
    } else {
        let mut b = beta;
        let mut m: usize = 0;
        let mut cut = false;
        while m < board.board.len() && !cut
            invariant
                board.wf(),
                board_history.wf(),
                deeper_history.wf(),
                cells == board.board@,
                s == board.size as int,
                l == cells.len() as int,
                komi == board.komi_half as int,
                hist == board_history.to_set(),
                deeper_history.to_set() == hist.insert(cells),
                board.player == Player::White,
                cd == (depth - 1) as nat,
                depth >= 1,
                v == minimax_prefix(cells, s, board.player, komi, hist, cd, l as nat),
                fs == final_score_spec(cells, s, komi),
                alpha < beta,
                forall|i: int|
                    #[trigger] legal.has(i) == legal_spec(cells, s, i, board.player, hist),
                m <= l,
                -41088 <= best <= 41088,
                best <= fs,
                !cut ==> best <= minimax_prefix(cells, s, board.player, komi, hist, cd, m as nat),
                !cut ==> imin(
                    beta as int,
                    minimax_prefix(cells, s, board.player, komi, hist, cd, m as nat),
                ) <= best,
                !cut ==> (b == beta || b == imin(beta as int, best as int)),
                b <= beta,
                !cut ==> alpha < b,
                l <= 64,
                cut ==> best <= alpha && v <= best,
            decreases l - m,
        {
            let ghost pm = minimax_prefix(cells, s, board.player, komi, hist, cd, m as nat);
            let ghost pm1 = minimax_prefix(cells, s, board.player, komi, hist, cd, (m + 1) as nat);
            if legal.contains(m) {
                let child_board = make_move(m, board);
                let child = minimax_alphabeta(&child_board, &deeper_history, depth - 1, alpha, b);
                let ghost cv = minimax_value(
                    apply_cells(cells, s, m as int, board.player),
                    s,
                    board.player.opp(),
                    komi,
                    hist.insert(cells),
                    cd,
                );
                proof {
                    assert(child_board.board@ == apply_cells(cells, s, m as int, board.player));
                    assert(pm1 == imin(pm, cv));
                }
                let ghost best_old = best;
                if child < best {
                    best = child;
                }
                if best < b {
                    b = best;
                }
                if b <= alpha {
                    proof {
                        assert(best <= alpha);
                        if best == best_old {
                            assert(best_old >= imin(beta as int, pm));
                            assert(best >= pm);
                            lemma_prefix_mono(
                                cells,
                                s,
                                board.player,
                                komi,
                                hist,
                                cd,
                                m as nat,
                                l as nat,
                            );
                        } else {
                            assert(best == child);
                            assert(child <= alpha);
                            assert(cv <= child);
                            assert(best >= pm1);
                            lemma_prefix_mono(
                                cells,
                                s,
                                board.player,
                                komi,
                                hist,
                                cd,
                                (m + 1) as nat,
                                l as nat,
                            );
                        }
                        assert(v <= best);
                    }
                    cut = true;
                } else {
                    proof {
                        if child >= b {
                        } else {
                            assert(child == cv);
                        }
                        assert(best <= pm1);
                        assert(imin(beta as int, pm1) <= best);
                    }
                }
            } else {
                proof {
                    assert(pm1 == pm);
                }
            }
            m = m + 1;
        }
        proof {
            if !cut {
                assert(m as int == l);
                assert(best <= minimax_prefix(cells, s, board.player, komi, hist, cd, l as nat));
                assert(imin(beta as int, v) <= best);
            }
        }
        best
    }
}

/// The search depth of the finisher strategy.
pub const AB_DEPTH: usize = 7;

/// The window that never clips a score, so the search is exact through it.
pub const AB_WINDOW: i64 = 100000;

/// What the finisher promises of its score vector: one entry per point plus
/// the pass; each legal move's entry is the exact game value of the position
/// it produces, in half-points; occupied and forbidden points are unplayable.
/// Passing is offered only from a winning position: scored by searching the
/// passed position while the game goes on, and by the final score itself once
/// the opponent has passed (two passes end the game).
pub open spec fn ab_strategy_post(
    r: Seq<MoveScore>,
    cells: Seq<PointState>,
    size: int,
    player: Player,
    komi_half: int,
    hist: Set<Seq<PointState>>,
    opponent_passed: bool,
) -> bool {
    &&& r.len() == cells.len() + 1
    &&& forall|i: int|
        0 <= i < cells.len() ==> r[i] == (if legal_spec(cells, size, i, player, hist) {
            MoveScore::Value(
                Rat {
                    num: minimax_value(
                        apply_cells(cells, size, i, player),
                        size,
                        player.opp(),
                        komi_half,
                        hist,
                        AB_DEPTH as nat,
                    ) as i64,
                    den: 2,
                },
            )
        } else {
            MoveScore::Illegal
        })
    &&& r[cells.len() as int] == (if final_score_spec(cells, size, komi_half) > 0 {
        if opponent_passed {
            MoveScore::Value(Rat { num: final_score_spec(cells, size, komi_half) as i64, den: 2 })
        } else {
            MoveScore::Value(
                Rat {
                    num: minimax_value(
                        cells,
                        size,
                        player.opp(),
                        komi_half,
                        hist,
                        AB_DEPTH as nat,
                    ) as i64,
                    den: 2,
                },
            )
        }
    } else {
        MoveScore::Illegal
    })
}

/// Scores every move by full-window alpha-beta search over the final score:
/// exactly `ab_strategy_post`.
pub fn minimax_ab_strategy(
    board: &Board,
    board_history: &BoardHistory,
    opponent_passed: bool,
) -> (r: Vec<MoveScore>)
    requires
        board.wf(),
        board_history.wf(),
    ensures
        ab_strategy_post(
            r@,
            board.board@,
            board.size as int,
            board.player,
            board.komi_half as int,
            board_history.to_set(),
            opponent_passed,
        ),
{
    let ghost cells = board.board@;
    let ghost s = board.size as int;
    let ghost l = board.board@.len() as int;
    let ghost komi = board.komi_half as int;
    let ghost hist = board_history.to_set();
    proof {
        assert(l <= 64) by (nonlinear_arith)
            requires
                l == s * s,
                1 <= s <= 8,
        ;
    }
    let legal = get_legal_moves(board, board_history);
    let mut result: Vec<MoveScore> = Vec::new();
    let mut point: usize = 0;
    while point < board.board.len()
        invariant
            board.wf(),
            board_history.wf(),
            cells == board.board@,
            s == board.size as int,
            l == cells.len() as int,
            komi == board.komi_half as int,
            hist == board_history.to_set(),
            forall|i: int| #[trigger] legal.has(i) == legal_spec(cells, s, i, board.player, hist),
            point <= l,
            l <= 64,
            result@.len() == point,
            forall|i: int|
                0 <= i < point ==> result@[i] == (if legal_spec(cells, s, i, board.player, hist) {
                    MoveScore::Value(
                        Rat {
                            num: minimax_value(
                                apply_cells(cells, s, i, board.player),
                                s,
                                board.player.opp(),
                                komi,
                                hist,
                                AB_DEPTH as nat,
                            ) as i64,
                            den: 2,
                        },
                    )
                } else {
                    MoveScore::Illegal
                }),
        decreases l - point,
    {
        if legal.contains(point) {
            let child = make_move(point, board);
            let value = minimax_alphabeta(&child, board_history, AB_DEPTH, -AB_WINDOW, AB_WINDOW);
            result.push(MoveScore::Value(Rat { num: value, den: 2 }));
        } else {
            result.push(MoveScore::Illegal);
        }
        point = point + 1;
    }
    let result_score = final_score(board);
    if result_score > 0 {
        if opponent_passed {
            result.push(MoveScore::Value(Rat { num: result_score, den: 2 }));
        } else {
            let passed = pass_move(board);
            let value = minimax_alphabeta(&passed, board_history, AB_DEPTH, -AB_WINDOW, AB_WINDOW);
            result.push(MoveScore::Value(Rat { num: value, den: 2 }));
        }
    } else {
        result.push(MoveScore::Illegal);
    }
    result
}

} // verus!
