//! Orthogonal adjacency on a square grid of `size * size` points, indexed
//! row-major. Edge points have fewer than four neighbors; there are no
//! diagonal links.

use vstd::prelude::*;
use crate::board::Board;

verus! {

/// Whether `b` is an orthogonal neighbor of `a` on a `size`-wide grid of
/// `len == size * size` points.
pub open spec fn adjacent(size: int, len: int, a: int, b: int) -> bool {
    &&& 0 <= a < len
    &&& 0 <= b < len
    &&& {
        ||| (a >= size && b == a - size)
        ||| (a < len - size && b == a + size)
        ||| (a % size > 0 && b == a - 1)
        ||| (a % size < size - 1 && b == a + 1)
    }
}

/// Adjacency is symmetric.
pub proof fn lemma_adjacent_sym(size: int, len: int, a: int, b: int)
    requires
        len == size * size,
        1 <= size,
        adjacent(size, len, a, b),
    ensures
        adjacent(size, len, b, a),
{
    if a >= size && b == a - size {
        assert(b < len - size);
    } else if a < len - size && b == a + size {
        assert(b >= size);
    } else if a % size > 0 && b == a - 1 {
        assert(b % size == a % size - 1) by (nonlinear_arith)
            requires
                0 <= a,
                1 <= size,
                a % size > 0,
                b == a - 1,
        ;
        assert(b % size < size - 1) by (nonlinear_arith)
            requires
                0 <= a,
                1 <= size,
                b % size == a % size - 1,
        ;
    } else {
        assert(a % size < size - 1 && b == a + 1);
        assert(b % size == a % size + 1) by (nonlinear_arith)
            requires
                0 <= a,
                1 <= size,
                a % size < size - 1,
                b == a + 1,
        ;
    }
}

/// The neighbors of `p` that exist on the grid, in the fixed order: the row
/// below, the row above, the column left, the column right. The order only
/// steers flood-fill traversal, but it is stable, so runs reproduce.
pub open spec fn adj_seq(size: int, len: int, p: int) -> Seq<int> {
    (if p >= size {
        seq![p - size]
    } else {
        Seq::<int>::empty()
    }) + (if p < len - size {
        seq![p + size]
    } else {
        Seq::<int>::empty()
    }) + (if p % size > 0 {
        seq![p - 1]
    } else {
        Seq::<int>::empty()
    }) + (if p % size < size - 1 {
        seq![p + 1]
    } else {
        Seq::<int>::empty()
    })
}

/// The orthogonal neighbors of `point`: the indices below, above, left and
/// right of it that exist on the grid, in that order.
pub fn get_adjacent_points(point: usize, board: &Board) -> (r: Vec<usize>)
    requires
        board.wf(),
        point < board.board@.len(),
    ensures
        r@.map_values(|x: usize| x as int) == adj_seq(
            board.size as int,
            board.board@.len() as int,
            point as int,
        ),
        forall|k: int|
            0 <= k < r@.len() ==> adjacent(
                board.size as int,
                board.board@.len() as int,
                point as int,
                #[trigger] r@[k] as int,
            ),
        forall|b: int|
            adjacent(board.size as int, board.board@.len() as int, point as int, b) ==> exists|
                k: int,
            | 0 <= k < r@.len() && r@[k] as int == b,
        forall|k1: int, k2: int| 0 <= k1 < k2 < r@.len() ==> r@[k1] != r@[k2],
        r@.len() <= 4,
{
    let size = board.size;
    let len = board.board.len();
    proof {
        assert(board.board@.len() >= board.size) by (nonlinear_arith)
            requires
                board.board@.len() == board.size * board.size,
                1 <= board.size,
        ;
        assert(0int % (size as int) == 0);
        if (point as int) % (size as int) < (size as int) - 1 {
            assert((point as int) + 1 < board.board@.len() as int) by (nonlinear_arith)
                requires
                    board.board@.len() == board.size * board.size,
                    1 <= board.size,
                    0 <= point < board.board@.len(),
                    (point as int) % (board.size as int) < (board.size as int) - 1,
            ;
        }
    }
    let mut r: Vec<usize> = Vec::new();
    if point >= size {
        r.push(point - size);
    }
    if point < len - size {
        r.push(point + size);
    }
    if point % size > 0 {
        r.push(point - 1);
    }
    if point % size < size - 1 {
        r.push(point + 1);
    }
    proof {
        assert(r@.map_values(|x: usize| x as int) =~= adj_seq(
            board.size as int,
            board.board@.len() as int,
            point as int,
        ));
        assert(board.board@.len() >= board.size) by (nonlinear_arith)
            requires
                board.board@.len() == board.size * board.size,
                1 <= board.size,
        ;
        assert forall|b: int|
            adjacent(size as int, len as int, point as int, b) implies exists|k: int|
            0 <= k < r@.len() && r@[k] as int == b by {
            let p = point as int;
            let size = size as int;
            let len = len as int;
            if p >= size && b == p - size {
                assert(r@[0] as int == b);
            } else if p < len - size && b == p + size {
                let k: int = if p >= size {
                    1
                } else {
                    0
                };
                assert(r@[k] as int == b);
            } else if p % size > 0 && b == p - 1 {
                let k: int = (if p >= size { 1int } else { 0int }) + (if p < len - size { 1int } else { 0int });
                assert(r@[k] as int == b);
            } else {
                let k: int = (if p >= size { 1int } else { 0int }) + (if p < len - size { 1int } else { 0int }) + (if p % size > 0 { 1int } else { 0int });
                assert(r@[k] as int == b);
            }
        }
    }
    r
}

} // verus!
