//! A finisher against an opponent assumed to pass every turn: maximize the
//! final score while the other side does nothing, with a small growing
//! penalty per move so the fastest win scores best, and a penalty for moves
//! that leave the placed stone in atari. Scores are in hundredths of a point.
//! The search is deterministic, and every function here is proved equal to
//! its recursive specification.

use vstd::prelude::*;
use crate::adjacency::{adj_seq, adjacent, get_adjacent_points};
use crate::bitset::BitSet;
use crate::board::{Board, Player, PointState};
use crate::final_score::{final_score, final_score_spec};
use crate::get_legal_moves::{get_legal_moves, legal_spec};
use crate::history::BoardHistory;
use crate::is_in_atari::{atari_spec, is_in_atari};
use crate::make_move::{apply_cells, make_move};
use crate::minimax_ab_strategy::{imax, imin};
use crate::pass_move::pass_move;
use crate::rational::{MoveScore, Rat};

verus! {

/// The per-move speed penalty, in hundredths of a point.
pub const SPEED_PENALTY_STEP: i64 = 1;

/// The penalty for a move that leaves its own stone in atari.
pub const ATARI_PENALTY: i64 = 2000;

/// The penalty for filling one's own last liberty.
pub const EYE_PENALTY: i64 = 100000;

/// The search depth of this strategy.
pub const HELPLESS_DEPTH: usize = 5;

/// The first empty point of a neighbor list.
pub open spec fn first_empty(cells: Seq<PointState>, s: Seq<int>) -> Option<int>
    decreases s.len(),
{
    if s.len() == 0 {
        None
    } else if 0 <= s[0] < cells.len() && cells[s[0]] == PointState::Empty {
        Some(s[0])
    } else {
        first_empty(cells, s.drop_first())
    }
}

/// The penalty for playing `point`: prohibitive if it has no empty neighbor,
/// heavy if the stone it places ends up in atari at the first such neighbor,
/// nothing otherwise.
pub open spec fn atari_penalty_spec(
    cells: Seq<PointState>,
    size: int,
    point: int,
    mover: Player,
) -> int {
    match first_empty(cells, adj_seq(size, cells.len() as int, point)) {
        None => EYE_PENALTY as int,
        Some(lib) => {
            if atari_spec(apply_cells(cells, size, point, mover), size, point, lib) {
                ATARI_PENALTY as int
            } else {
                0
            }
        },
    }
}

/// The score of stopping here: the final score in hundredths of a point,
/// shifted by the accumulated penalty in the helpless player's favor.
pub open spec fn helpless_leaf(
    cells: Seq<PointState>,
    size: int,
    komi_half: int,
    helpless: Player,
    penalty: int,
) -> int {
    if helpless == Player::Black {
        50 * final_score_spec(cells, size, komi_half) + penalty
    } else {
        50 * final_score_spec(cells, size, komi_half) - penalty
    }
}

/// The helpless-opponent game value: at depth zero the shifted final score;
/// the helpless player always passes (and is compensated one step); the other
/// player takes the best of the legal moves — each charged one step plus its
/// atari penalty — and the stop-here baseline.
pub open spec fn helpless_value(
    cells: Seq<PointState>,
    size: int,
    player: Player,
    komi_half: int,
    hist: Set<Seq<PointState>>,
    helpless: Player,
    penalty: int,
    depth: nat,
) -> int
    decreases depth, cells.len() + 1nat,
{
    if depth == 0 {
        helpless_leaf(cells, size, komi_half, helpless, penalty)
    } else if player == helpless {
        helpless_value(
            cells,
            size,
            player.opp(),
            komi_half,
            hist.insert(cells),
            helpless,
            penalty + SPEED_PENALTY_STEP as int,
            (depth - 1) as nat,
        )
    } else {
        let best = helpless_prefix(
            cells,
            size,
            player,
            komi_half,
            hist,
            helpless,
            penalty,
            (depth - 1) as nat,
            cells.len() as nat,
        );
        let pass = helpless_leaf(cells, size, komi_half, helpless, penalty);
        if player == Player::Black {
            imax(best, pass)
        } else {
            imin(best, pass)
        }
    }
}

/// The best (for the mover) over the legal moves below `j`, each searched at
/// depth `child_depth` with its penalty, seeded with a sentinel no reachable
/// value attains.
pub open spec fn helpless_prefix(
    cells: Seq<PointState>,
    size: int,
    player: Player,
    komi_half: int,
    hist: Set<Seq<PointState>>,
    helpless: Player,
    penalty: int,
    child_depth: nat,
    j: nat,
) -> int
    decreases child_depth + 1nat, j,
{
    if j == 0 {
        if player == Player::Black {
            -4000000
        } else {
            4000000
        }
    } else {
        let prev = helpless_prefix(
            cells,
            size,
            player,
            komi_half,
            hist,
            helpless,
            penalty,
            child_depth,
            (j - 1) as nat,
        );
        if legal_spec(cells, size, j - 1, player, hist) {
            let child = helpless_value(
                apply_cells(cells, size, j - 1, player),
                size,
                player.opp(),
                komi_half,
                hist.insert(cells),
                helpless,
                penalty + SPEED_PENALTY_STEP as int + atari_penalty_spec(
                    cells,
                    size,
                    j - 1,
                    player,
                ),
                child_depth,
            );
            if player == Player::Black {
                imax(prev, child)
            } else {
                imin(prev, child)
            }
        } else {
            prev
        }
    }
}

/// The penalty for playing `point`: exactly `atari_penalty_spec`.
fn atari_penalty(point: usize, board: &Board) -> (r: i64)
    requires
        board.wf(),
        point < board.board@.len(),
        board.board@[point as int] == PointState::Empty,
    ensures
        r == atari_penalty_spec(board.board@, board.size as int, point as int, board.player),
        0 <= r <= 100000,
{
    let ghost cells = board.board@;
    let ghost s = board.size as int;
    let ghost l = board.board@.len() as int;
    let ghost pt = point as int;
    let ghost aseq = adj_seq(s, l, pt);
    let nb = get_adjacent_points(point, board);
    proof {
        assert(nb@.map_values(|x: usize| x as int) == aseq);
        assert(aseq.skip(0) =~= aseq);
    }
    let mut known_liberty: Option<usize> = None;
    let mut t: usize = 0;
    while t < nb.len() && known_liberty.is_none()
        invariant
            board.wf(),
            cells == board.board@,
            s == board.size as int,
            l == cells.len() as int,
            pt == point as int,
            point < l,
            aseq == adj_seq(s, l, pt),
            nb@.map_values(|x: usize| x as int) == aseq,
            t <= nb@.len(),
            forall|k: int|
                0 <= k < nb@.len() ==> adjacent(s, l, pt, #[trigger] nb@[k] as int),
            known_liberty is None ==> first_empty(cells, aseq) == first_empty(
                cells,
                aseq.skip(t as int),
            ),
            known_liberty is Some ==> first_empty(cells, aseq) == Some(known_liberty->0 as int)
                && (known_liberty->0 as int) < l,
        decreases nb@.len() - t,
    {
        let j = nb[t];
        proof {
            assert(adjacent(s, l, pt, j as int));
            assert(aseq[t as int] == nb@[t as int] as int);
            assert(aseq.skip(t as int)[0] == aseq[t as int]);
            assert(aseq.skip(t as int).drop_first() =~= aseq.skip(t as int + 1));
        }
        if board.board[j] == PointState::Empty {
            known_liberty = Some(j);
        }
        t = t + 1;
    }
    proof {
        if known_liberty is None {
            assert(aseq.skip(aseq.len() as int) =~= Seq::<int>::empty());
        }
    }
    match known_liberty {
        None => EYE_PENALTY,
        Some(lib) => {
            let played = make_move(point, board);
            proof {
                assert(played.board@[point as int] == board.player.stone_spec());
            }
            if is_in_atari(point, &played, lib, &mut BitSet::new()) {
                ATARI_PENALTY
            } else {
                0
            }
        },
    }
}

/// Minimax where `helpless_player` always passes: exactly `helpless_value`.
fn minimax_helpless(
    board: &Board,
    board_history: &BoardHistory,
    depth: usize,
    helpless_player: Player,
    speed_penalty: i64,
) -> (r: i64)
    requires
        board.wf(),
        board_history.wf(),
        0 <= speed_penalty,
        speed_penalty + 110000 * (depth as int) <= 1000000,
    ensures
        r == helpless_value(
            board.board@,
            board.size as int,
            board.player,
            board.komi_half as int,
            board_history.to_set(),
            helpless_player,
            speed_penalty as int,
            depth as nat,
        ),
        -4000000 <= r <= 4000000,
    decreases depth,
{
    let ghost cells = board.board@;
    let ghost s = board.size as int;
    let ghost l = board.board@.len() as int;
    let ghost komi = board.komi_half as int;
    let ghost hist = board_history.to_set();
    proof {
        assert(l <= 64) by (nonlinear_arith)
            requires
                l == s * s,
                1 <= s <= 8,
        ;
    }
    if depth < 1 {
        let base = final_score(board) * 50;
        return match helpless_player {
            Player::Black => base + speed_penalty,
            Player::White => base - speed_penalty,
        };
    }
    let ghost cd = (depth - 1) as nat;
    let mut deeper_history = board_history.duplicate();
    deeper_history.insert(&board.board);
    proof {
        assert(deeper_history.to_set() == hist.insert(cells));
    }
    if board.player == helpless_player {
        let passed = pass_move(board);
        return minimax_helpless(
            &passed,
            &deeper_history,
            depth - 1,
            helpless_player,
            speed_penalty + SPEED_PENALTY_STEP,
        );
    }
    let legal = get_legal_moves(board, board_history);
    let maximizing = board.player == Player::Black;
    let mut best: i64 = if maximizing {
        -4000000
    } else {
        4000000
    };
    let mut m: usize = 0;
    while m < board.board.len()
        invariant
            board.wf(),
            board_history.wf(),
            deeper_history.wf(),
            deeper_history.to_set() == hist.insert(cells),
            depth >= 1,
            cd == (depth - 1) as nat,
            0 <= speed_penalty,
            speed_penalty + 110000 * (depth as int) <= 1000000,
            cells == board.board@,
            s == board.size as int,
            komi == board.komi_half as int,
            hist == board_history.to_set(),
            board.player != helpless_player,
            maximizing == (board.player == Player::Black),
            l == board.board@.len() as int,
            l <= 64,
            m <= l,
            -4000000 <= best <= 4000000,
            best == helpless_prefix(
                cells,
                s,
                board.player,
                komi,
                hist,
                helpless_player,
                speed_penalty as int,
                cd,
                m as nat,
            ),
            forall|i: int|
                #[trigger] legal.has(i) == legal_spec(cells, s, i, board.player, hist),
        decreases l - m,
    {
        if legal.contains(m) {
            let penalty = atari_penalty(m, board);
            let child_board = make_move(m, board);
            let value = minimax_helpless(
                &child_board,
                &deeper_history,
                depth - 1,
                helpless_player,
                speed_penalty + SPEED_PENALTY_STEP + penalty,
            );
            proof {
                assert(child_board.board@ == apply_cells(cells, s, m as int, board.player));
            }
            if maximizing {
                if value > best {
                    best = value;
                }
            } else {
                if value < best {
                    best = value;
                }
            }
        }
        m = m + 1;
    }
    let base = final_score(board) * 50;
    let pass_score = match helpless_player {
        Player::Black => base + speed_penalty,
        Player::White => base - speed_penalty,
    };
    if maximizing {
        if pass_score > best {
            best = pass_score;
        }
    } else {
        if pass_score < best {
            best = pass_score;
        }
    }
    best
}

/// Scores every move assuming `helpless_player` passes each turn: per legal
/// move exactly the helpless-opponent game value of the position it produces,
/// in hundredths of a point; per illegal point "unplayable". While the game
/// goes on the pass entry is the value of passing; once the opponent has
/// passed, passing from a winning position scores the final position itself
/// and is otherwise unplayable.
pub fn helpless_minimax_strategy(
    board: &Board,
    board_history: &BoardHistory,
    opponent_passed: bool,
    helpless_player: Player,
) -> (r: Vec<MoveScore>)
    requires
        board.wf(),
        board_history.wf(),
    ensures
        r@.len() == board.board@.len() + 1,
        forall|i: int|
            0 <= i < board.board@.len() ==> r@[i] == (if legal_spec(
                board.board@,
                board.size as int,
                i,
                board.player,
                board_history.to_set(),
            ) {
                MoveScore::Value(
                    Rat {
                        num: helpless_value(
                            apply_cells(board.board@, board.size as int, i, board.player),
                            board.size as int,
                            board.player.opp(),
                            board.komi_half as int,
                            board_history.to_set(),
                            helpless_player,
                            0,
                            HELPLESS_DEPTH as nat,
                        ) as i64,
                        den: 100,
                    },
                )
            } else {
                MoveScore::Illegal
            }),
        r@[board.board@.len() as int] == (if opponent_passed {
            if final_score_spec(board.board@, board.size as int, board.komi_half as int) > 0 {
                MoveScore::Value(
                    Rat {
                        num: final_score_spec(
                            board.board@,
                            board.size as int,
                            board.komi_half as int,
                        ) as i64,
                        den: 2,
                    },
                )
            } else {
                MoveScore::Illegal
            }
        } else {
            MoveScore::Value(
                Rat {
                    num: helpless_value(
                        board.board@,
                        board.size as int,
                        board.player.opp(),
                        board.komi_half as int,
                        board_history.to_set(),
                        helpless_player,
                        0,
                        HELPLESS_DEPTH as nat,
                    ) as i64,
                    den: 100,
                },
            )
        }),
{
    let ghost cells = board.board@;
    let ghost s = board.size as int;
    let ghost l = board.board@.len() as int;
    let ghost komi = board.komi_half as int;
    let ghost hist = board_history.to_set();
    proof {
        assert(l <= 64) by (nonlinear_arith)
            requires
                l == s * s,
                1 <= s <= 8,
        ;
    }
    let legal = get_legal_moves(board, board_history);
    let mut result: Vec<MoveScore> = Vec::new();
    let mut point: usize = 0;
    while point < board.board.len()
        invariant
            board.wf(),
            board_history.wf(),
            cells == board.board@,
            s == board.size as int,
            l == cells.len() as int,
            l <= 64,
            komi == board.komi_half as int,
            hist == board_history.to_set(),
            forall|i: int| #[trigger] legal.has(i) == legal_spec(cells, s, i, board.player, hist),
            point <= l,
            result@.len() == point,
            forall|i: int|
                0 <= i < point ==> result@[i] == (if legal_spec(cells, s, i, board.player, hist) {
                    MoveScore::Value(
                        Rat {
                            num: helpless_value(
                                apply_cells(cells, s, i, board.player),
                                s,
                                board.player.opp(),
                                komi,
                                hist,
                                helpless_player,
                                0,
                                HELPLESS_DEPTH as nat,
                            ) as i64,
                            den: 100,
                        },
                    )
                } else {
                    MoveScore::Illegal
                }),
        decreases l - point,
    {
        if legal.contains(point) {
            let child = make_move(point, board);
            let value = minimax_helpless(&child, board_history, HELPLESS_DEPTH, helpless_player, 0);
            result.push(MoveScore::Value(Rat { num: value, den: 100 }));
        } else {
            result.push(MoveScore::Illegal);
        }
        point = point + 1;
    }
    if opponent_passed {
        let pass_result = final_score(board);
        if pass_result > 0 {
            result.push(MoveScore::Value(Rat { num: pass_result, den: 2 }));
        } else {
            result.push(MoveScore::Illegal);
        }
    } else {
        let passed = pass_move(board);
        let value = minimax_helpless(&passed, board_history, HELPLESS_DEPTH, helpless_player, 0);
        result.push(MoveScore::Value(Rat { num: value, den: 100 }));
    }
    result
}

} // verus!
