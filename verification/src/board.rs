//! The position model: point states, players, and the board snapshot.

use vstd::prelude::*;

verus! {

/// The state of one point (cell) of the board. `Offline` marks a permanently
/// unplayable point; it blocks both play and territory.
#[derive(Clone, Copy, Debug, PartialEq, Eq, Structural)]
pub enum PointState {
    Empty,
    Black,
    White,
    Offline,
}

/// One of the two players.
#[derive(Clone, Copy, Debug, PartialEq, Eq, Structural)]
pub enum Player {
    Black,
    White,
}

impl Player {
    /// The other player.
    pub open spec fn opp(self) -> Player {
        match self {
            Player::Black => Player::White,
            Player::White => Player::Black,
        }
    }

    /// The other player.
    pub fn opposite(self) -> (r: Player)
        ensures
            r == self.opp(),
    {
        match self {
            Player::Black => Player::White,
            Player::White => Player::Black,
        }
    }

    /// The point state of a stone of this player.
    pub open spec fn stone_spec(self) -> PointState {
        match self {
            Player::Black => PointState::Black,
            Player::White => PointState::White,
        }
    }

    /// The point state of a stone of this player.
    pub fn stone(self) -> (r: PointState)
        ensures
            r == self.stone_spec(),
    {
        match self {
            Player::Black => PointState::Black,
            Player::White => PointState::White,
        }
    }
}

/// A snapshot of a position: the board contents, whose move it is, the komi,
/// and whether the opponent passed on the previous turn.
///
/// The komi is held in half-points (`komi_half == 15` means a komi of 7.5),
/// so that every score the engine computes is an exact rational.
#[derive(Debug)]
pub struct Board {
    /// The points of the board, row-major.
    pub board: Vec<PointState>,
    /// The side length; the number of points is `size * size`.
    pub size: usize,
    /// The player whose turn it is.
    pub player: Player,
    /// White's score bonus, in half-points.
    pub komi_half: i64,
    /// Whether the opponent passed on the previous turn.
    pub opponent_passed: bool,
}

/// Bound on the komi, in half-points.
pub const KOMI_HALF_MAX: i64 = 32768;

impl Board {
    /// Well-formedness: the board is a square of at most 64 points (the
    /// point-set representation is a 64-bit mask, a deliberate design
    /// restriction of this engine), and the komi is bounded.
    pub open spec fn wf(self) -> bool {
        &&& self.board@.len() == self.size * self.size
        &&& 1 <= self.size <= 8
        &&& -32768 <= self.komi_half <= 32768
    }

    /// An identical copy of this position.
    pub fn duplicate(&self) -> (r: Board)
        ensures
            r.board@ == self.board@,
            r.size == self.size,
            r.player == self.player,
            r.komi_half == self.komi_half,
            r.opponent_passed == self.opponent_passed,
    {
        let mut cells: Vec<PointState> = Vec::new();
        let mut i: usize = 0;
        while i < self.board.len()
            invariant
                i <= self.board@.len(),
                cells@ == self.board@.subrange(0, i as int),
            decreases self.board@.len() - i,
        {
            cells.push(self.board[i]);
            i = i + 1;
        }
        proof {
            assert(cells@ =~= self.board@);
        }
        Board {
            board: cells,
            size: self.size,
            player: self.player,
            komi_half: self.komi_half,
            opponent_passed: self.opponent_passed,
        }
    }
}

} // verus!
