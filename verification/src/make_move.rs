//! Move application: place the mover's stone and remove every adjacent enemy
//! group that the placement leaves without a liberty. Legality is the caller's
//! concern, so positions that a rule forbids can still be computed mechanically.

use vstd::prelude::*;
use crate::adjacency::{adjacent, get_adjacent_points};
use crate::bitset::BitSet;
use crate::board::{Board, Player, PointState};
use crate::group::{
    connected, flood, group_of, lemma_connected_ends, lemma_connected_refl, lemma_connected_sym,
    lemma_connected_trans, liberties_of,
};

verus! {

/// The points captured by playing `point`: every enemy stone whose group
/// touches `point` and has no liberty besides `point` itself.
pub open spec fn captured_by_move(
    cells: Seq<PointState>,
    size: int,
    point: int,
    enemy: PointState,
) -> Set<int> {
    Set::new(
        |c: int|
            {
                &&& 0 <= c < cells.len()
                &&& cells[c] == enemy
                &&& exists|j: int|
                    adjacent(size, cells.len() as int, point, j) && connected(cells, size, c, j)
                &&& forall|e: int|
                    liberties_of(cells, size, group_of(cells, size, c)).contains(e) ==> e == point
            },
    )
}

/// The board contents after playing `point`: the mover's stone stands on
/// `point` whatever stood there, captured enemy stones elsewhere are removed,
/// everything else is kept.
pub open spec fn apply_cells(
    cells: Seq<PointState>,
    size: int,
    point: int,
    mover: Player,
) -> Seq<PointState> {
    Seq::new(
        cells.len(),
        |i: int|
            if i == point {
                mover.stone_spec()
            } else if captured_by_move(cells, size, point, mover.opp().stone_spec()).contains(i) {
                PointState::Empty
            } else {
                cells[i]
            },
    )
}

/// Two points of one group have the same group.
pub proof fn lemma_group_same(cells: Seq<PointState>, size: int, a: int, b: int)
    requires
        cells.len() == size * size,
        1 <= size,
        connected(cells, size, a, b),
    ensures
        group_of(cells, size, a) == group_of(cells, size, b),
{
    assert forall|c: int|
        group_of(cells, size, a).contains(c) == group_of(cells, size, b).contains(c) by {
        if connected(cells, size, a, c) {
            lemma_connected_sym(cells, size, a, b);
            lemma_connected_trans(cells, size, b, a, c);
        }
        if connected(cells, size, b, c) {
            lemma_connected_trans(cells, size, a, b, c);
        }
    }
    assert(group_of(cells, size, a) =~= group_of(cells, size, b));
}

/// An enemy stone adjacent to the played point whose group has no liberty
/// besides that point is removed by the move.
pub proof fn lemma_capture_removes_group(
    cells: Seq<PointState>,
    size: int,
    point: int,
    mover: Player,
    j: int,
)
    requires
        1 <= size,
        adjacent(size, cells.len() as int, point, j),
        cells[j] == mover.opp().stone_spec(),
        forall|e: int|
            liberties_of(cells, size, group_of(cells, size, j)).contains(e) ==> e == point,
    ensures
        apply_cells(cells, size, point, mover)[j] == PointState::Empty,
{
    assert(j != point);
    lemma_connected_refl(cells, size, j);
    assert(captured_by_move(cells, size, point, mover.opp().stone_spec()).contains(j));
}

/// The played stone itself stands after the move, whatever stood on the
/// point before: the stone is placed after every removal.
pub proof fn lemma_played_stone_stands(
    cells: Seq<PointState>,
    size: int,
    point: int,
    mover: Player,
)
    requires
        0 <= point < cells.len(),
    ensures
        apply_cells(cells, size, point, mover)[point] == mover.stone_spec(),
{
}

/// Plays the stone of `board.player` on `point`: removes every adjacent enemy
/// group left without a liberty, places the stone, hands the turn over, and
/// clears the pass flag.
#[verifier::rlimit(30)]
pub fn make_move(point: usize, board: &Board) -> (r: Board)
    requires
        board.wf(),
        point < board.board@.len(),
    ensures
        r.board@ == apply_cells(board.board@, board.size as int, point as int, board.player),
        r.size == board.size,
        r.player == board.player.opp(),
        r.komi_half == board.komi_half,
        r.opponent_passed == false,
        r.wf(),
{
    let ghost cells = board.board@;
    let ghost s = board.size as int;
    let ghost l = board.board@.len() as int;
    let ghost pt = point as int;
    let ghost enemy_g = board.player.opp().stone_spec();
    let ghost cap = captured_by_move(cells, s, pt, enemy_g);
    proof {
        assert(l <= 64) by (nonlinear_arith)
            requires
                l == s * s,
                1 <= s <= 8,
        ;
    }
    let enemy = board.player.opposite().stone();
    let mut captured = BitSet::new();
    let nb = get_adjacent_points(point, board);
    let mut t: usize = 0;
    while t < nb.len()
        invariant
            board.wf(),
            cells == board.board@,
            s == board.size as int,
            l == cells.len() as int,
            l <= 64,
            pt == point as int,
            0 <= pt < l,
            enemy == enemy_g,
            enemy_g == board.player.opp().stone_spec(),
            cap == captured_by_move(cells, s, pt, enemy_g),
            t <= nb@.len(),
            forall|k: int| 0 <= k < nb@.len() ==> adjacent(s, l, pt, #[trigger] nb@[k] as int),
            forall|b: int| adjacent(s, l, pt, b) ==> exists|k: int|
                0 <= k < nb@.len() && nb@[k] as int == b,
            forall|c: int| #[trigger] captured.has(c) ==> cap.contains(c),
            forall|c: int, k: int|
                0 <= k < t && cells[nb@[k] as int] == enemy_g && #[trigger] connected(
                    cells,
                    s,
                    c,
                    nb@[k] as int,
                ) && (forall|e: int|
                    liberties_of(cells, s, group_of(cells, s, c)).contains(e) ==> e == pt)
                    ==> captured.has(c),
        decreases nb@.len() - t,
    {
        let j = nb[t];
        proof {
            assert(adjacent(s, l, pt, j as int));
        }
        if board.board[j] == enemy {
            let (g, libs, _, _) = flood(board, j);
            if libs.within_single(point) {
                let ghost capprev = captured;
                captured.union_with(&g);
                proof {
                    assert forall|c: int| #[trigger] captured.has(c) implies cap.contains(c) by {
                        if !capprev.has(c) {
                            assert(g.has(c));
                            assert(g.to_set().contains(c));
                            assert(connected(cells, s, j as int, c));
                            lemma_connected_sym(cells, s, j as int, c);
                            lemma_connected_ends(cells, s, j as int, c);
                            lemma_group_same(cells, s, j as int, c);
                            assert forall|e: int|
                                liberties_of(cells, s, group_of(cells, s, c)).contains(
                                    e,
                                ) implies e == pt by {
                                assert(libs.to_set().contains(e));
                                assert(libs.has(e));
                            }
                            assert(adjacent(s, l, pt, j as int) && connected(cells, s, c, j as int));
                        }
                    }
                    assert forall|c: int, k: int|
                        0 <= k < t + 1 && cells[nb@[k] as int] == enemy_g && #[trigger] connected(
                            cells,
                            s,
                            c,
                            nb@[k] as int,
                        ) && (forall|e: int|
                            liberties_of(cells, s, group_of(cells, s, c)).contains(e) ==> e
                                == pt) implies captured.has(c) by {
                        if k == t {
                            lemma_connected_sym(cells, s, c, j as int);
                            assert(g.to_set().contains(c));
                            assert(g.has(c));
                        }
                    }
                }
            } else {
                proof {
                    let e0 = choose|j0: int| libs.has(j0) && j0 != pt;
                    assert(libs.has(e0) && e0 != pt);
                    assert(libs.to_set().contains(e0));
                    assert forall|c: int, k: int|
                        0 <= k < t + 1 && cells[nb@[k] as int] == enemy_g && #[trigger] connected(
                            cells,
                            s,
                            c,
                            nb@[k] as int,
                        ) && (forall|e: int|
                            liberties_of(cells, s, group_of(cells, s, c)).contains(e) ==> e
                                == pt) implies captured.has(c) by {
                        if k == t {
                            lemma_group_same(cells, s, c, j as int);
                            assert(liberties_of(cells, s, group_of(cells, s, c)).contains(e0));
                        }
                    }
                }
            }
        } else {
            proof {
                assert forall|c: int, k: int|
                    0 <= k < t + 1 && cells[nb@[k] as int] == enemy_g && #[trigger] connected(
                        cells,
                        s,
                        c,
                        nb@[k] as int,
                    ) && (forall|e: int|
                        liberties_of(cells, s, group_of(cells, s, c)).contains(e) ==> e
                            == pt) implies captured.has(c) by {
                    if k == t {
                        lemma_connected_ends(cells, s, c, nb@[k] as int);
                    }
                }
            }
        }
        t = t + 1;
    }
    proof {
        assert forall|c: int| captured.has(c) == cap.contains(c) by {
            if cap.contains(c) {
                let j = choose|j: int| adjacent(s, l, pt, j) && connected(cells, s, c, j);
                lemma_connected_ends(cells, s, c, j);
                let k = choose|k: int| 0 <= k < nb@.len() && nb@[k] as int == j;
                assert(cells[nb@[k] as int] == enemy_g);
                assert(connected(cells, s, c, nb@[k] as int));
            }
        }
    }
    let stone = board.player.stone();
    let mut cells2: Vec<PointState> = Vec::new();
    let mut i: usize = 0;
    while i < board.board.len()
        invariant
            board.wf(),
            cells == board.board@,
            s == board.size as int,
            l == cells.len() as int,
            l <= 64,
            pt == point as int,
            0 <= pt < l,
            stone == board.player.stone_spec(),
            cap == captured_by_move(cells, s, pt, board.player.opp().stone_spec()),
            forall|c: int| #[trigger] captured.has(c) == cap.contains(c),
            i <= l,
            cells2@.len() == i,
            forall|m: int|
                0 <= m < i ==> cells2@[m] == apply_cells(cells, s, pt, board.player)[m],
        decreases l - i,
    {
        proof {
            if cap.contains(i as int) {
                assert(captured.has(i as int));
            }
        }
        if i == point {
            cells2.push(stone);
        } else if captured.contains(i) {
            cells2.push(PointState::Empty);
        } else {
            cells2.push(board.board[i]);
        }
        i = i + 1;
    }
    proof {
        assert(cells2@ =~= apply_cells(cells, s, pt, board.player));
    }
    Board {
        board: cells2,
        size: board.size,
        player: board.player.opposite(),
        komi_half: board.komi_half,
        opponent_passed: false,
    }
}

} // verus!
