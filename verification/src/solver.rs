//! The orchestrator: validate the raw input, run propagation to a fixpoint,
//! and hand the board to the search when it is still incomplete.

use vstd::prelude::*;
use crate::grid::{
    complete, consistent, extends, grid_valid, grid_wf, lemma_complete_consistent_valid,
    lemma_sound_extension_consistent, lemma_trans_extends, lemma_trans_sound,
    preserves_completions, sound_extension, Board,
};
use crate::propagate::{is_solved, propagate_to_fixpoint};
use crate::search::search;

verus! {

/// The outcome of solving: a completed board, exhaustion of the search
/// without a solution, or an input rejected before any solving attempt.
pub enum SolveResult {
    Complete(Board),
    Unsolvable,
    MalformedInput,
}

/// Solves a puzzle given as 81 raw cell values (0 marks an unassigned cell).
///
/// Rejects malformed input (wrong length or a value above 9), then runs
/// propagation to a fixpoint and, if the board is still incomplete, the
/// best-first search. A returned complete board keeps every assignment of
/// the input, assigns every cell, never places a value that clashes with a
/// used one, and — whenever the input itself was consistent — is a valid
/// Sudoku solution. Success is owed: a complete input comes back unchanged,
/// and whenever some valid solution extends the input, the result is
/// `Complete`, so `Unsolvable` is returned only for genuinely unsolvable
/// boards.
pub fn solve(cells: Vec<u8>) -> (r: SolveResult)
    ensures
        r is MalformedInput <==> !grid_wf(cells@),
        r matches SolveResult::Complete(b) ==> b.wf() && complete(b@) && extends(b@, cells@)
            && sound_extension(cells@, b@) && (consistent(cells@) ==> consistent(b@) && grid_valid(
            b@,
        )),
        grid_wf(cells@) && complete(cells@) ==> (r matches SolveResult::Complete(b) && b@
            == cells@),
        grid_wf(cells@) && consistent(cells@) && (exists|s: Seq<u8>|
            grid_valid(s) && extends(s, cells@)) ==> r is Complete,
{
    let ghost input = cells@;
    let mut board = match Board::from_cells(cells) {
        None => {
            return SolveResult::MalformedInput;
        },
        Some(b) => b,
    };
    propagate_to_fixpoint(&mut board);
    if is_solved(&board) {
        proof {
            if complete(input) {
                assert(board@ =~= input);
            }
            if consistent(input) {
                lemma_sound_extension_consistent(input, board@);
                lemma_complete_consistent_valid(board@);
            }
        }
        return SolveResult::Complete(board);
    }
    match search(&board) {
        Some(g) => {
            proof {
                lemma_trans_extends(g@, board@, input);
                lemma_trans_sound(input, board@, g@);
                if consistent(input) {
                    lemma_sound_extension_consistent(input, g@);
                    lemma_complete_consistent_valid(g@);
                }
            }
            SolveResult::Complete(g)
        },
        None => {
            proof {
                // Had any valid solution extended the input, propagation
                // would have preserved it and the search could not have
                // exhausted its frontier.
                if exists|s: Seq<u8>| grid_valid(s) && extends(s, input) {
                    let s = choose|s: Seq<u8>| grid_valid(s) && extends(s, input);
                    assert(preserves_completions(input, board@));
                    assert(extends(s, board@));
                }
            }
            SolveResult::Unsolvable
        },
    }
}

} // verus!
