//! The common strategy contract: every solving strategy prepares its
//! state, mutates the board in place, reports success, and can check a
//! final board against the Sudoku constraints.

use vstd::prelude::*;

use crate::board::{Sudoku, board_partial_valid};

verus! {

/// A solving strategy over the shared board abstraction.
pub trait Solver {
    /// Attempts to solve the board in place; returns whether a solution
    /// was found.
    fn solve(&mut self, board: &mut Sudoku) -> (r: bool)
        requires
            old(board).wf(),
            old(board).domains_ok(),
            board_partial_valid(old(board).board@),
        ensures
            final(board).wf(),
            r ==> board_partial_valid(final(board).board@),
    ;

    /// The strategy's display name.
    fn name(&self) -> String;

    /// Prepares strategy-specific state (such as candidate domains) for
    /// the given board; returns false when the board is already
    /// contradictory.
    fn initialize_candidates(&mut self, board: &mut Sudoku) -> (ok: bool)
        requires
            old(board).wf(),
        ensures
            final(board).wf(),
            final(board).board@ == old(board).board@,
            ok ==> final(board).domains_ok(),
    ;

    /// Validates the final board against the Sudoku constraints.
    fn is_correct(&self, board: &mut Sudoku) -> (r: bool)
        requires
            old(board).wf(),
        ensures
            final(board).wf(),
            r == board_partial_valid(final(board).board@),
    ;
}

} // verus!
