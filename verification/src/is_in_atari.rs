//! The atari test: whether a group's only liberty (if any) is one given point.

use vstd::prelude::*;
use vstd::set_lib::lemma_len_subset;
use crate::bitset::BitSet;
use crate::board::Board;
use crate::group::{flood, group_of, is_stone, liberties_of};

verus! {

/// Whether the group of the stone at `point` has no liberty besides `lib`:
/// capturing it is then a matter of playing `lib` (or it is already dead).
pub open spec fn atari_spec(cells: Seq<crate::board::PointState>, size: int, point: int, lib: int) -> bool {
    forall|e: int|
        liberties_of(cells, size, group_of(cells, size, point)).contains(e) ==> e == lib
}

/// Whether the group of the stone at `point` is in atari, given `known_liberty`,
/// one liberty the caller already knows: true exactly when no other empty point
/// touches the group. Fills `group` (passed empty) with the group, so a caller
/// that removes the group need not flood again.
pub fn is_in_atari(point: usize, board: &Board, known_liberty: usize, group: &mut BitSet) -> (r:
    bool)
    requires
        board.wf(),
        point < board.board@.len(),
        is_stone(board.board@[point as int]),
        known_liberty < board.board@.len(),
        old(group).to_set() == Set::<int>::empty(),
    ensures
        r == atari_spec(board.board@, board.size as int, point as int, known_liberty as int),
        final(group).to_set() == group_of(board.board@, board.size as int, point as int),
{
    proof {
        assert(board.board@.len() <= 64) by (nonlinear_arith)
            requires
                board.board@.len() == board.size * board.size,
                1 <= board.size <= 8,
        ;
    }
    let (g, libs, _, _) = flood(board, point);
    *group = g;
    let r = libs.within_single(known_liberty);
    proof {
        let cells = board.board@;
        let s = board.size as int;
        let libset = liberties_of(cells, s, group_of(cells, s, point as int));
        assert forall|e: int| libset.contains(e) == libs.has(e) by {
            assert(libs.to_set().contains(e) == libset.contains(e));
        }
    }
    r
}

/// The liberty-count/atari round trip: a group with exactly one liberty is in
/// atari precisely at that liberty — the atari test answers true there, and
/// false at every other candidate point.
pub proof fn lemma_atari_roundtrip(
    cells: Seq<crate::board::PointState>,
    size: int,
    point: int,
    lib: int,
    other: int,
)
    requires
        liberties_of(cells, size, group_of(cells, size, point)).len() == 1,
        liberties_of(cells, size, group_of(cells, size, point)).contains(lib),
        liberties_of(cells, size, group_of(cells, size, point)).finite(),
        other != lib,
    ensures
        atari_spec(cells, size, point, lib),
        !atari_spec(cells, size, point, other),
{
    let libset = liberties_of(cells, size, group_of(cells, size, point));
    assert forall|e: int| libset.contains(e) implies e == lib by {
        if e != lib {
            let two = Set::<int>::empty().insert(lib).insert(e);
            assert(two.subset_of(libset));
            lemma_len_subset(two, libset);
            assert(two.len() == 2);
        }
    }
}

} // verus!
