//! Final-position scoring: the stone differential plus the contested-territory
//! differential, less the komi. An empty region scores for a color exactly
//! when stones of that color alone border it. Positive favors Black.
//!
//! Scores are held in half-points, so the result is an exact integer.

use vstd::prelude::*;
use crate::bitset::BitSet;
use crate::board::{Board, PointState};
use crate::group::{
    borders_color, connected, flood, group_of, lemma_connected_sym, lemma_points_card,
};

verus! {

/// The score contribution of one point: one for a black stone, minus one for
/// a white stone, nothing otherwise.
pub open spec fn point_value(st: PointState) -> int {
    match st {
        PointState::Black => 1,
        PointState::White => -1,
        _ => 0,
    }
}

/// The stone differential: black stones minus white stones.
pub open spec fn stone_diff(cells: Seq<PointState>) -> int
    decreases cells.len(),
{
    if cells.len() == 0 {
        0
    } else {
        stone_diff(cells.drop_last()) + point_value(cells.last())
    }
}

/// The territory score of one empty region: its size if only black stones
/// border it, minus its size if only white stones do, nothing otherwise.
pub open spec fn region_score(cells: Seq<PointState>, size: int, g: Set<int>) -> int {
    if borders_color(cells, size, g, PointState::Black) && !borders_color(
        cells,
        size,
        g,
        PointState::White,
    ) {
        g.len() as int
    } else if borders_color(cells, size, g, PointState::White) && !borders_color(
        cells,
        size,
        g,
        PointState::Black,
    ) {
        -(g.len() as int)
    } else {
        0
    }
}

/// Whether `i` is the least index of its connected region.
pub open spec fn is_region_min(cells: Seq<PointState>, size: int, i: int) -> bool {
    forall|j: int| connected(cells, size, i, j) ==> i <= j
}

/// The territory differential accumulated over the first `upto` points: each
/// empty region is counted once, at its least index.
pub open spec fn territory_sum(cells: Seq<PointState>, size: int, upto: int) -> int
    decreases upto,
{
    if upto <= 0 {
        0
    } else {
        territory_sum(cells, size, upto - 1) + (if cells[upto - 1] == PointState::Empty
            && is_region_min(cells, size, upto - 1) {
            region_score(cells, size, group_of(cells, size, upto - 1))
        } else {
            0
        })
    }
}

/// The territory differential of the whole board.
pub open spec fn territory_spec(cells: Seq<PointState>, size: int) -> int {
    territory_sum(cells, size, cells.len() as int)
}

/// The final score, in half-points: twice the stone and territory
/// differentials, less the komi.
pub open spec fn final_score_spec(cells: Seq<PointState>, size: int, komi_half: int) -> int {
    2 * (stone_diff(cells) + territory_spec(cells, size)) - komi_half
}

/// The final score ignores whose turn it is and whether anyone passed: it is
/// a function of the board contents, the size and the komi alone. In
/// particular, passing any number of times (which changes only the turn and
/// the pass flag) leaves the final score unchanged.
pub proof fn lemma_final_score_turn_invariant(a: Board, b: Board)
    requires
        a.board@ == b.board@,
        a.size == b.size,
        a.komi_half == b.komi_half,
    ensures
        final_score_spec(a.board@, a.size as int, a.komi_half as int) == final_score_spec(
            b.board@,
            b.size as int,
            b.komi_half as int,
        ),
{
}

/// The stone colors seen while walking an empty region's border.
#[derive(Clone, Copy, Debug, PartialEq, Eq, Structural)]
pub enum SeenStones {
    Nothing,
    Black,
    White,
    Both,
}

/// The border colors of the group of `point`, as a `SeenStones`.
pub open spec fn seen_of(cells: Seq<PointState>, size: int, g: Set<int>) -> SeenStones {
    if borders_color(cells, size, g, PointState::Black) {
        if borders_color(cells, size, g, PointState::White) {
            SeenStones::Both
        } else {
            SeenStones::Black
        }
    } else {
        if borders_color(cells, size, g, PointState::White) {
            SeenStones::White
        } else {
            SeenStones::Nothing
        }
    }
}

/// Scores the empty region of `point`: fills `group` (passed empty) with the
/// region, records the bordering stone colors in `seen_stones` (passed
/// `Nothing`), and returns the region's territory score.
pub fn score_group_territory(
    point: usize,
    board: &Board,
    group: &mut BitSet,
    seen_stones: &mut SeenStones,
) -> (r: i64)
    requires
        board.wf(),
        point < board.board@.len(),
        board.board@[point as int] == PointState::Empty,
        old(group).to_set() == Set::<int>::empty(),
        *old(seen_stones) == SeenStones::Nothing,
    ensures
        final(group).to_set() == group_of(board.board@, board.size as int, point as int),
        *final(seen_stones) == seen_of(
            board.board@,
            board.size as int,
            group_of(board.board@, board.size as int, point as int),
        ),
        r == region_score(
            board.board@,
            board.size as int,
            group_of(board.board@, board.size as int, point as int),
        ),
        -64 <= r <= 64,
{
    let ghost cells = board.board@;
    let ghost s = board.size as int;
    let ghost gset = group_of(cells, s, point as int);
    let (g, _, bb, wb) = flood(board, point);
    *group = g;
    *seen_stones = if bb && wb {
        SeenStones::Both
    } else if bb {
        SeenStones::Black
    } else if wb {
        SeenStones::White
    } else {
        SeenStones::Nothing
    };
    let sz = g.len();
    proof {
        assert forall|i: int| gset.contains(i) implies 0 <= i < 64 by {
            assert(0 <= i < cells.len());
            assert(cells.len() <= 64) by (nonlinear_arith)
                requires
                    cells.len() == board.size * board.size,
                    1 <= board.size <= 8,
            ;
        }
        lemma_points_card(gset);
    }
    if bb && !wb {
        sz as i64
    } else if wb && !bb {
        -(sz as i64)
    } else {
        0
    }
}

/// The stone differential of the whole board.
pub(crate) fn score_from_stones(board: &Board) -> (r: i64)
    requires
        board.wf(),
    ensures
        r == stone_diff(board.board@),
        -64 <= r <= 64,
{
    let ghost cells = board.board@;
    proof {
        assert(cells.len() <= 64) by (nonlinear_arith)
            requires
                cells.len() == board.size * board.size,
                1 <= board.size <= 8,
        ;
    }
    let mut sum: i64 = 0;
    let mut i: usize = 0;
    while i < board.board.len()
        invariant
            cells == board.board@,
            cells.len() <= 64,
            i <= cells.len(),
            sum == stone_diff(cells.subrange(0, i as int)),
            -(i as int) <= sum <= i as int,
        decreases cells.len() - i,
    {
        let st = board.board[i];
        proof {
            let pre = cells.subrange(0, i as int + 1);
            assert(pre.drop_last() =~= cells.subrange(0, i as int));
            assert(pre.last() == cells[i as int]);
        }
        if st == PointState::Black {
            sum = sum + 1;
        } else if st == PointState::White {
            sum = sum - 1;
        }
        i = i + 1;
    }
    proof {
        assert(cells.subrange(0, cells.len() as int) =~= cells);
    }
    sum
}

/// The territory differential of the whole board: flood-fills each empty
/// region once and sums the region scores.
fn score_from_territory(board: &Board) -> (r: i64)
    requires
        board.wf(),
    ensures
        r == territory_spec(board.board@, board.size as int),
        -4096 <= r <= 4096,
{
    let ghost cells = board.board@;
    let ghost s = board.size as int;
    let ghost l = board.board@.len() as int;
    proof {
        assert(l <= 64) by (nonlinear_arith)
            requires
                l == s * s,
                1 <= s <= 8,
        ;
    }
    let mut counted = BitSet::new();
    let mut result: i64 = 0;
    let mut point: usize = 0;
    while point < board.board.len()
        invariant
            board.wf(),
            cells == board.board@,
            s == board.size as int,
            l == cells.len() as int,
            l <= 64,
            point <= l,
            result == territory_sum(cells, s, point as int),
            -64 * (point as int) <= result <= 64 * (point as int),
            forall|e: int|
                #[trigger] counted.has(e) == (0 <= e < l && cells[e] == PointState::Empty
                    && exists|m: int| 0 <= m < point && connected(cells, s, e, m)),
        decreases l - point,
    {
        let ghost pt = point as int;
        if board.board[point] == PointState::Empty && !counted.contains(point) {
            proof {
                assert forall|j: int| connected(cells, s, pt, j) implies pt <= j by {
                    if j < pt {
                        lemma_connected_sym(cells, s, pt, j);
                        assert(connected(cells, s, pt, j));
                        assert(counted.has(pt));
                    }
                }
                assert(is_region_min(cells, s, pt));
            }
            let mut group = BitSet::new();
            let mut seen = SeenStones::Nothing;
            let add = score_group_territory(point, board, &mut group, &mut seen);
            result = result + add;
            let ghost cprev = counted;
            counted.union_with(&group);
            proof {
                assert forall|e: int|
                    #[trigger] counted.has(e) == (0 <= e < l && cells[e] == PointState::Empty
                        && exists|m: int| 0 <= m < pt + 1 && connected(cells, s, e, m)) by {
                    if counted.has(e) && !cprev.has(e) {
                        assert(group.has(e));
                        assert(group.to_set().contains(e));
                        assert(connected(cells, s, pt, e));
                        lemma_connected_sym(cells, s, pt, e);
                        assert(connected(cells, s, e, pt) && 0 <= pt < pt + 1);
                    }
                    if !counted.has(e) && 0 <= e < l && cells[e] == PointState::Empty && exists|
                        m: int,
                    | 0 <= m < pt + 1 && connected(cells, s, e, m) {
                        let m = choose|m: int| 0 <= m < pt + 1 && connected(cells, s, e, m);
                        if m == pt {
                            lemma_connected_sym(cells, s, e, pt);
                            assert(group.to_set().contains(e));
                            assert(group.has(e));
                        }
                    }
                }
                assert(territory_sum(cells, s, pt + 1) == territory_sum(cells, s, pt)
                    + region_score(cells, s, group_of(cells, s, pt)));
            }
        } else {
            proof {
                if cells[pt] == PointState::Empty && counted.has(pt) {
                    let m = choose|m: int| 0 <= m < pt && connected(cells, s, pt, m);
                    assert(connected(cells, s, pt, m) && m < pt);
                    assert(!is_region_min(cells, s, pt));
                }
                assert(territory_sum(cells, s, pt + 1) == territory_sum(cells, s, pt));
                assert forall|e: int|
                    #[trigger] counted.has(e) == (0 <= e < l && cells[e] == PointState::Empty
                        && exists|m: int| 0 <= m < pt + 1 && connected(cells, s, e, m)) by {
                    if !counted.has(e) && 0 <= e < l && cells[e] == PointState::Empty && exists|
                        m: int,
                    | 0 <= m < pt + 1 && connected(cells, s, e, m) {
                        let m = choose|m: int| 0 <= m < pt + 1 && connected(cells, s, e, m);
                        if m == pt {
                            if cells[pt] == PointState::Empty {
                                // the region of `e` touches `pt`, which is counted
                                assert(counted.has(pt));
                                let m2 = choose|m2: int|
                                    0 <= m2 < pt && connected(cells, s, pt, m2);
                                crate::group::lemma_connected_trans(cells, s, e, pt, m2);
                            } else {
                                crate::group::lemma_connected_ends(cells, s, e, pt);
                            }
                        }
                    }
                }
            }
        }
        point = point + 1;
    }
    result
}

/// The final score of the position, in half-points: positive favors Black,
/// negative favors White.
pub fn final_score(board: &Board) -> (r: i64)
    requires
        board.wf(),
    ensures
        r == final_score_spec(board.board@, board.size as int, board.komi_half as int),
        -41088 <= r <= 41088,
{
    let sd = score_from_stones(board);
    let td = score_from_territory(board);
    2 * (sd + td) - board.komi_half
}

} // verus!
