//! Group and liberty analysis: the maximal connected set of same-state points
//! reachable from a seed through orthogonal adjacency, its liberties (adjacent
//! empty points), and which stone colors border it. Computed by a worklist
//! flood fill over a visited set, proved to return exactly the connected
//! component.

use vstd::prelude::*;
use vstd::set_lib::lemma_len_subset;
use crate::adjacency::{adjacent, get_adjacent_points, lemma_adjacent_sym};
use crate::bitset::BitSet;
use crate::board::{Board, PointState};

verus! {

/// Whether `s` is a stone of either color.
pub open spec fn is_stone(s: PointState) -> bool {
    s == PointState::Black || s == PointState::White
}

/// A walk through the grid that stays on points of one state: every step is
/// orthogonally adjacent and every point has the state of the first.
pub open spec fn is_path(cells: Seq<PointState>, size: int, p: Seq<int>) -> bool {
    &&& p.len() > 0
    &&& forall|k: int| 0 <= k < p.len() ==> 0 <= #[trigger] p[k] < cells.len()
    &&& forall|k: int| 0 <= k < p.len() ==> cells[#[trigger] p[k]] == cells[p[0]]
    &&& forall|k: int|
        0 <= k < p.len() - 1 ==> adjacent(size, cells.len() as int, #[trigger] p[k], p[k + 1])
}

/// Whether `b` is reachable from `a` through same-state points.
pub open spec fn connected(cells: Seq<PointState>, size: int, a: int, b: int) -> bool {
    exists|p: Seq<int>| is_path(cells, size, p) && p[0] == a && p[p.len() - 1] == b
}

/// The group of `a`: every point connected to it through same-state points
/// (`a` itself included).
pub open spec fn group_of(cells: Seq<PointState>, size: int, a: int) -> Set<int> {
    Set::new(|b: int| connected(cells, size, a, b))
}

/// The liberties of a point set: the empty points orthogonally adjacent to
/// some member.
pub open spec fn liberties_of(cells: Seq<PointState>, size: int, g: Set<int>) -> Set<int> {
    Set::new(
        |e: int|
            {
                &&& 0 <= e < cells.len()
                &&& cells[e] == PointState::Empty
                &&& exists|x: int| g.contains(x) && adjacent(size, cells.len() as int, x, e)
            },
    )
}

/// Whether some point of state `s` is orthogonally adjacent to a member of `g`.
pub open spec fn borders_color(
    cells: Seq<PointState>,
    size: int,
    g: Set<int>,
    s: PointState,
) -> bool {
    exists|x: int, j: int|
        g.contains(x) && adjacent(size, cells.len() as int, x, j) && cells[j] == s
}

/// A point is connected to itself.
pub proof fn lemma_connected_refl(cells: Seq<PointState>, size: int, a: int)
    requires
        0 <= a < cells.len(),
    ensures
        connected(cells, size, a, a),
{
    let p: Seq<int> = seq![a];
    assert(is_path(cells, size, p) && p[0] == a && p[p.len() - 1] == a);
}

/// Both ends of a connection are on the grid and have the same state.
pub proof fn lemma_connected_ends(cells: Seq<PointState>, size: int, a: int, b: int)
    requires
        connected(cells, size, a, b),
    ensures
        0 <= a < cells.len(),
        0 <= b < cells.len(),
        cells[a] == cells[b],
{
    let p = choose|p: Seq<int>| is_path(cells, size, p) && p[0] == a && p[p.len() - 1] == b;
    assert(cells[p[0]] == cells[p[0]]);
    assert(cells[p[p.len() - 1]] == cells[p[0]]);
}

/// A connection extends along one adjacent same-state point.
pub proof fn lemma_connected_extend(cells: Seq<PointState>, size: int, a: int, b: int, c: int)
    requires
        connected(cells, size, a, b),
        adjacent(size, cells.len() as int, b, c),
        cells[c] == cells[a],
    ensures
        connected(cells, size, a, c),
{
    let p = choose|p: Seq<int>| is_path(cells, size, p) && p[0] == a && p[p.len() - 1] == b;
    let q = p.push(c);
    assert forall|k: int| 0 <= k < q.len() - 1 implies adjacent(
        size,
        cells.len() as int,
        #[trigger] q[k],
        q[k + 1],
    ) by {
        if k < p.len() - 1 {
            assert(q[k] == p[k] && q[k + 1] == p[k + 1]);
        } else {
            assert(q[k] == b && q[k + 1] == c);
        }
    }
    assert(is_path(cells, size, q) && q[0] == a && q[q.len() - 1] == c);
}

/// Connections run both ways.
pub proof fn lemma_connected_sym(cells: Seq<PointState>, size: int, a: int, b: int)
    requires
        cells.len() == size * size,
        1 <= size,
        connected(cells, size, a, b),
    ensures
        connected(cells, size, b, a),
{
    let p = choose|p: Seq<int>| is_path(cells, size, p) && p[0] == a && p[p.len() - 1] == b;
    let n = p.len() as int;
    let q: Seq<int> = Seq::new(p.len(), |k: int| p[n - 1 - k]);
    assert(cells[q[0]] == cells[p[0]]);
    assert forall|k: int| 0 <= k < q.len() implies cells[#[trigger] q[k]] == cells[q[0]] by {
        assert(q[k] == p[n - 1 - k]);
    }
    assert forall|k: int| 0 <= k < q.len() - 1 implies adjacent(
        size,
        cells.len() as int,
        #[trigger] q[k],
        q[k + 1],
    ) by {
        assert(q[k] == p[n - 1 - k] && q[k + 1] == p[n - 2 - k]);
        assert(adjacent(size, cells.len() as int, p[n - 2 - k], p[n - 1 - k]));
        lemma_adjacent_sym(size, cells.len() as int, p[n - 2 - k], p[n - 1 - k]);
    }
    assert(is_path(cells, size, q) && q[0] == b && q[q.len() - 1] == a);
}

/// Connections compose.
pub proof fn lemma_connected_trans(cells: Seq<PointState>, size: int, a: int, b: int, c: int)
    requires
        connected(cells, size, a, b),
        connected(cells, size, b, c),
    ensures
        connected(cells, size, a, c),
{
    let p = choose|p: Seq<int>| is_path(cells, size, p) && p[0] == a && p[p.len() - 1] == b;
    let q = choose|q: Seq<int>| is_path(cells, size, q) && q[0] == b && q[q.len() - 1] == c;
    let r = p + q.subrange(1, q.len() as int);
    assert(cells[b] == cells[a]);
    assert forall|k: int| 0 <= k < r.len() implies 0 <= #[trigger] r[k] < cells.len()
        && cells[r[k]] == cells[r[0]] by {
        if k < p.len() {
            assert(r[k] == p[k]);
        } else {
            assert(r[k] == q[k - p.len() + 1]);
            assert(cells[q[k - p.len() + 1]] == cells[q[0]]);
        }
    }
    assert forall|k: int| 0 <= k < r.len() - 1 implies adjacent(
        size,
        cells.len() as int,
        #[trigger] r[k],
        r[k + 1],
    ) by {
        if k < p.len() - 1 {
            assert(r[k] == p[k] && r[k + 1] == p[k + 1]);
        } else if k == p.len() - 1 {
            assert(r[k] == b && r[k + 1] == q[1]);
            assert(adjacent(size, cells.len() as int, q[0], q[1]));
        } else {
            assert(r[k] == q[k - p.len() + 1] && r[k + 1] == q[k - p.len() + 2]);
        }
    }
    assert(is_path(cells, size, r) && r[0] == a && r[r.len() - 1] == c);
}

/// A set that holds one end of a path and is closed under same-state
/// adjacency holds the whole path.
proof fn lemma_path_in_closed(cells: Seq<PointState>, size: int, v: Set<int>, p: Seq<int>)
    requires
        is_path(cells, size, p),
        v.contains(p[0]),
        forall|x: int, y: int|
            v.contains(x) && adjacent(size, cells.len() as int, x, y) && cells[y] == cells[p[0]]
                ==> v.contains(y),
    ensures
        v.contains(p[p.len() - 1]),
    decreases p.len(),
{
    if p.len() > 1 {
        let q = p.subrange(0, p.len() - 1);
        assert(q[0] == p[0]);
        lemma_path_in_closed(cells, size, v, q);
        assert(v.contains(p[p.len() - 2]));
        assert(adjacent(size, cells.len() as int, p[p.len() - 2], p[p.len() - 1]));
        assert(cells[p[p.len() - 1]] == cells[p[0]]);
    }
}

/// A set that holds `a` and is closed under same-state adjacency holds
/// everything connected to `a`.
pub proof fn lemma_closed_contains_group(cells: Seq<PointState>, size: int, v: Set<int>, a: int, b: int)
    requires
        v.contains(a),
        forall|x: int, y: int|
            v.contains(x) && adjacent(size, cells.len() as int, x, y) && cells[y] == cells[a]
                ==> v.contains(y),
        connected(cells, size, a, b),
    ensures
        v.contains(b),
{
    let p = choose|p: Seq<int>| is_path(cells, size, p) && p[0] == a && p[p.len() - 1] == b;
    lemma_path_in_closed(cells, size, v, p);
}

/// Whether `i` occurs in the worklist.
pub open spec fn in_work(w: Seq<usize>, i: int) -> bool {
    exists|k: int| 0 <= k < w.len() && w[k] as int == i
}

/// Flood-fills the group of `point`, visiting each group point exactly once
/// through a worklist and a visited set. Returns the group, its liberties
/// (exact when `point` holds a stone), and whether a black or a white stone
/// borders the group (for groups of another state than the border's).
#[verifier::rlimit(30)]
pub fn flood(board: &Board, point: usize) -> (res: (BitSet, BitSet, bool, bool))
    requires
        board.wf(),
        point < board.board@.len(),
    ensures
        res.0.to_set() == group_of(board.board@, board.size as int, point as int),
        is_stone(board.board@[point as int]) ==> res.1.to_set() == liberties_of(
            board.board@,
            board.size as int,
            group_of(board.board@, board.size as int, point as int),
        ),
        res.2 == (board.board@[point as int] != PointState::Black && borders_color(
            board.board@,
            board.size as int,
            group_of(board.board@, board.size as int, point as int),
            PointState::Black,
        )),
        res.3 == (board.board@[point as int] != PointState::White && borders_color(
            board.board@,
            board.size as int,
            group_of(board.board@, board.size as int, point as int),
            PointState::White,
        )),
{
    let ghost cells = board.board@;
    let ghost s = board.size as int;
    let ghost l = board.board@.len() as int;
    let ghost pt = point as int;
    let ghost st = cells[pt];
    proof {
        assert(l <= 64) by (nonlinear_arith)
            requires
                l == s * s,
                1 <= s <= 8,
        ;
        lemma_connected_refl(cells, s, pt);
    }
    let seed_state = board.board[point];
    let mut group = BitSet::new();
    group.insert(point);
    let mut libs = BitSet::new();
    let mut bb = false;
    let mut wb = false;
    let mut work: Vec<usize> = Vec::new();
    work.push(point);
    let ghost mut processed: Set<int> = Set::empty();
    proof {
        assert(group.to_set().contains(pt));
        assert forall|i: int| #[trigger] group.has(i) implies i == pt by {
            assert(group.to_set().contains(i));
        }
        assert(work@[0] as int == pt);
        assert(in_work(work@, pt));
    }
    while work.len() > 0
        invariant
            board.wf(),
            cells == board.board@,
            s == board.size as int,
            l == cells.len() as int,
            l <= 64,
            pt == point as int,
            0 <= pt < l,
            st == cells[pt],
            seed_state == st,
            forall|k: int| 0 <= k < work@.len() ==> group.has(#[trigger] work@[k] as int),
            forall|k1: int, k2: int| 0 <= k1 < k2 < work@.len() ==> work@[k1] != work@[k2],
            forall|k: int| 0 <= k < work@.len() ==> !processed.contains(#[trigger] work@[k] as int),
            forall|i: int| #[trigger] group.has(i) ==> connected(cells, s, pt, i),
            group.has(pt),
            forall|i: int|
                #[trigger] group.has(i) && !processed.contains(i) ==> in_work(work@, i),
            forall|i: int| processed.contains(i) ==> group.has(i),
            processed.finite(),
            forall|x: int, y: int|
                processed.contains(x) && #[trigger] adjacent(s, l, x, y) && cells[y] == st
                    ==> group.has(y),
            is_stone(st) ==> forall|e: int|
                #[trigger] libs.has(e) <==> (0 <= e < l && cells[e] == PointState::Empty && exists|
                    x: int,
                | processed.contains(x) && adjacent(s, l, x, e)),
            bb == (st != PointState::Black && exists|x: int, j: int|
                processed.contains(x) && adjacent(s, l, x, j) && cells[j] == PointState::Black),
            wb == (st != PointState::White && exists|x: int, j: int|
                processed.contains(x) && adjacent(s, l, x, j) && cells[j] == PointState::White),
        decreases 64 - processed.len(),
    {
        let ghost prev = work@;
        let x = work.pop().unwrap();
        let ghost xi = x as int;
        proof {
            assert(x == prev[prev.len() - 1]);
            assert(group.has(xi));
            assert(!processed.contains(xi));
            assert forall|i: int|
                #[trigger] group.has(i) && !processed.contains(i) && i != xi implies in_work(
                work@,
                i,
            ) by {
                let k = choose|k: int| 0 <= k < prev.len() && prev[k] as int == i;
                assert(k < prev.len() - 1);
                assert(work@[k] as int == i);
            }
            assert forall|k: int| 0 <= k < work@.len() implies group.has(
                #[trigger] work@[k] as int,
            ) by {
                assert(work@[k] == prev[k]);
            }
        }
        let nb = get_adjacent_points(x, board);
        let mut t: usize = 0;
        while t < nb.len()
            invariant
                board.wf(),
                cells == board.board@,
                s == board.size as int,
                l == cells.len() as int,
                l <= 64,
                0 <= pt < l,
                st == cells[pt],
                seed_state == st,
                pt == point as int,
                t <= nb@.len(),
                xi == x as int,
                0 <= xi < l,
                group.has(xi),
                !processed.contains(xi),
                forall|k: int|
                    0 <= k < nb@.len() ==> adjacent(s, l, xi, #[trigger] nb@[k] as int),
                forall|b: int| adjacent(s, l, xi, b) ==> exists|k: int|
                    0 <= k < nb@.len() && nb@[k] as int == b,
                forall|k: int| 0 <= k < work@.len() ==> group.has(#[trigger] work@[k] as int),
                forall|k1: int, k2: int| 0 <= k1 < k2 < work@.len() ==> work@[k1] != work@[k2],
                forall|k: int|
                    0 <= k < work@.len() ==> !processed.contains(#[trigger] work@[k] as int),
                forall|k: int| 0 <= k < work@.len() ==> work@[k] != x,
                forall|i: int| #[trigger] group.has(i) ==> connected(cells, s, pt, i),
                group.has(pt),
                forall|i: int|
                    #[trigger] group.has(i) && !processed.contains(i) && i != xi ==> in_work(
                        work@,
                        i,
                    ),
                forall|i: int| processed.contains(i) ==> group.has(i),
                processed.finite(),
                forall|x0: int, y: int|
                    processed.contains(x0) && #[trigger] adjacent(s, l, x0, y) && cells[y] == st
                        ==> group.has(y),
                forall|k: int|
                    0 <= k < t && cells[#[trigger] nb@[k] as int] == st ==> group.has(
                        nb@[k] as int,
                    ),
                is_stone(st) ==> forall|e: int|
                    #[trigger] libs.has(e) <==> (0 <= e < l && cells[e] == PointState::Empty && (
                    (exists|x0: int| processed.contains(x0) && adjacent(s, l, x0, e)) || (exists|
                        k: int,
                    | 0 <= k < t && nb@[k] as int == e))),
                bb == (st != PointState::Black && ((exists|x0: int, j: int|
                    processed.contains(x0) && adjacent(s, l, x0, j) && cells[j]
                        == PointState::Black) || (exists|k: int|
                    0 <= k < t && cells[#[trigger] nb@[k] as int] == PointState::Black))),
                wb == (st != PointState::White && ((exists|x0: int, j: int|
                    processed.contains(x0) && adjacent(s, l, x0, j) && cells[j]
                        == PointState::White) || (exists|k: int|
                    0 <= k < t && cells[#[trigger] nb@[k] as int] == PointState::White))),
            decreases nb@.len() - t,
        {
            let y = nb[t];
            proof {
                assert(adjacent(s, l, xi, y as int));
            }
            let ystate = board.board[y];
            if ystate == seed_state {
                if !group.contains(y) {
                    proof {
                        lemma_connected_extend(cells, s, pt, xi, y as int);
                    }
                    let ghost gprev = group;
                    let ghost wprev = work@;
                    group.insert(y);
                    work.push(y);
                    proof {
                        assert forall|i: int|
                            #[trigger] group.has(i) && !processed.contains(i) && i
                                != xi implies in_work(work@, i) by {
                            if i == y as int {
                                assert(work@[wprev.len() as int] as int == i);
                            } else {
                                assert(gprev.has(i));
                                let k = choose|k: int|
                                    0 <= k < wprev.len() && wprev[k] as int == i;
                                assert(work@[k] as int == i);
                            }
                        }
                    }
                }
            } else {
                if ystate == PointState::Empty {
                    libs.insert(y);
                } else if ystate == PointState::Black {
                    bb = true;
                } else if ystate == PointState::White {
                    wb = true;
                }
            }
            t = t + 1;
        }
        proof {
            let processed2 = processed.insert(xi);
            lemma_points_card(processed2);
            assert forall|x0: int, y: int|
                processed2.contains(x0) && #[trigger] adjacent(s, l, x0, y) && cells[y]
                    == st implies group.has(y) by {
                if x0 == xi {
                    let k = choose|k: int| 0 <= k < nb@.len() && nb@[k] as int == y;
                    assert(cells[nb@[k] as int] == st);
                }
            }
            if is_stone(st) {
                assert forall|e: int| #[trigger] libs.has(e) implies (0 <= e < l && cells[e]
                    == PointState::Empty && exists|x0: int|
                    processed2.contains(x0) && adjacent(s, l, x0, e)) by {
                    if exists|x0: int| processed.contains(x0) && adjacent(s, l, x0, e) {
                        let x0 = choose|x0: int| processed.contains(x0) && adjacent(s, l, x0, e);
                        assert(processed2.contains(x0) && adjacent(s, l, x0, e));
                    } else {
                        let k = choose|k: int| 0 <= k < nb@.len() && nb@[k] as int == e;
                        assert(adjacent(s, l, xi, nb@[k] as int));
                        assert(processed2.contains(xi) && adjacent(s, l, xi, e));
                    }
                }
                assert forall|e: int|
                    (0 <= e < l && cells[e] == PointState::Empty && exists|x0: int|
                        processed2.contains(x0) && adjacent(s, l, x0, e)) implies #[trigger] libs.has(
                    e,
                ) by {
                    let x0 = choose|x0: int| processed2.contains(x0) && adjacent(s, l, x0, e);
                    if x0 == xi {
                        let k = choose|k: int| 0 <= k < nb@.len() && nb@[k] as int == e;
                        assert(0 <= k < nb@.len() && nb@[k] as int == e);
                    } else {
                        assert(processed.contains(x0) && adjacent(s, l, x0, e));
                    }
                }
            }
            assert(bb == (st != PointState::Black && exists|x0: int, j: int|
                processed2.contains(x0) && adjacent(s, l, x0, j) && cells[j]
                    == PointState::Black)) by {
                if bb {
                    if exists|x0: int, j: int|
                        processed.contains(x0) && adjacent(s, l, x0, j) && cells[j]
                            == PointState::Black {
                        let (x0, j) = choose|x0: int, j: int|
                            processed.contains(x0) && adjacent(s, l, x0, j) && cells[j]
                                == PointState::Black;
                        assert(processed2.contains(x0) && adjacent(s, l, x0, j) && cells[j]
                            == PointState::Black);
                    } else {
                        let k = choose|k: int|
                            0 <= k < nb@.len() && cells[nb@[k] as int] == PointState::Black;
                        assert(processed2.contains(xi) && adjacent(s, l, xi, nb@[k] as int)
                            && cells[nb@[k] as int] == PointState::Black);
                    }
                } else if st != PointState::Black && exists|x0: int, j: int|
                    processed2.contains(x0) && adjacent(s, l, x0, j) && cells[j]
                        == PointState::Black {
                    let (x0, j) = choose|x0: int, j: int|
                        processed2.contains(x0) && adjacent(s, l, x0, j) && cells[j]
                            == PointState::Black;
                    if x0 == xi {
                        let k = choose|k: int| 0 <= k < nb@.len() && nb@[k] as int == j;
                        assert(cells[nb@[k] as int] == PointState::Black);
                    }
                }
            }
            assert(wb == (st != PointState::White && exists|x0: int, j: int|
                processed2.contains(x0) && adjacent(s, l, x0, j) && cells[j]
                    == PointState::White)) by {
                if wb {
                    if exists|x0: int, j: int|
                        processed.contains(x0) && adjacent(s, l, x0, j) && cells[j]
                            == PointState::White {
                        let (x0, j) = choose|x0: int, j: int|
                            processed.contains(x0) && adjacent(s, l, x0, j) && cells[j]
                                == PointState::White;
                        assert(processed2.contains(x0) && adjacent(s, l, x0, j) && cells[j]
                            == PointState::White);
                    } else {
                        let k = choose|k: int|
                            0 <= k < nb@.len() && cells[nb@[k] as int] == PointState::White;
                        assert(processed2.contains(xi) && adjacent(s, l, xi, nb@[k] as int)
                            && cells[nb@[k] as int] == PointState::White);
                    }
                } else if st != PointState::White && exists|x0: int, j: int|
                    processed2.contains(x0) && adjacent(s, l, x0, j) && cells[j]
                        == PointState::White {
                    let (x0, j) = choose|x0: int, j: int|
                        processed2.contains(x0) && adjacent(s, l, x0, j) && cells[j]
                            == PointState::White;
                    if x0 == xi {
                        let k = choose|k: int| 0 <= k < nb@.len() && nb@[k] as int == j;
                        assert(cells[nb@[k] as int] == PointState::White);
                    }
                }
            }
            processed = processed2;
        }
    }
    proof {
        assert forall|i: int| #[trigger] group.has(i) implies processed.contains(i) by {
            if !processed.contains(i) {
                assert(in_work(work@, i));
            }
        }
        assert forall|b: int| connected(cells, s, pt, b) implies group.has(b) by {
            lemma_closed_contains_group(cells, s, group.to_set(), pt, b);
        }
        assert(group.to_set() =~= group_of(cells, s, pt));
        assert(processed =~= group_of(cells, s, pt));
        if is_stone(st) {
            assert(libs.to_set() =~= liberties_of(cells, s, group_of(cells, s, pt)));
        }
        assert(bb == (st != PointState::Black && borders_color(
            cells,
            s,
            group_of(cells, s, pt),
            PointState::Black,
        )));
        assert(wb == (st != PointState::White && borders_color(
            cells,
            s,
            group_of(cells, s, pt),
            PointState::White,
        )));
    }
    (group, libs, bb, wb)
}

/// A finite set of point indices has at most 64 members.
pub proof fn lemma_points_card(s: Set<int>)
    requires
        forall|i: int| s.contains(i) ==> 0 <= i < 64,
    ensures
        s.finite(),
        s.len() <= 64,
{
    vstd::set_lib::lemma_int_range(0, 64);
    assert(s.subset_of(vstd::set_lib::set_int_range(0, 64)));
    lemma_len_subset(s, vstd::set_lib::set_int_range(0, 64));
}

} // verus!
