//! Principal-variation extraction from Monte Carlo data: reserved surface,
//! not yet implemented by any strategy.

use vstd::prelude::*;
use rand_pcg::Pcg64Mcg;
use crate::board::Board;
use crate::history::BoardHistory;
use crate::rational::Rat;

verus! {

/// One candidate line of play and its estimated value.
#[derive(Debug)]
pub struct MCLine {
    pub line: Vec<usize>,
    pub score: Rat,
}

/// Candidate lines of play for the position: none are produced yet.
#[allow(unused_variables)]
pub fn mc_lines(
    board: &Board,
    board_history: &BoardHistory,
    opponent_passed: bool,
    rng: &mut Pcg64Mcg,
) -> (r: Vec<MCLine>)
    ensures
        r@.len() == 0,
{
    let result: Vec<MCLine> = Vec::new();
    result
}

} // verus!
