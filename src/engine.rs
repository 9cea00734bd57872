use vstd::prelude::*;
use crate::board::Board;
use crate::movegen::{MoveGenerator, legal_move};
use crate::mv::Move;

verus! {

/// What the search keeps from one move to the next.
pub struct InterMoveCache {}

impl InterMoveCache {
    pub fn new() -> InterMoveCache {
        InterMoveCache {  }
    }
}

/// Chooses a move for the side to move: the first legal move, or none exactly when there is
/// none.
pub fn search(board: &mut Board, cache: &mut InterMoveCache) -> (r: Option<Move>)
    requires
        old(board).wf(),
    ensures
        *final(board) == *old(board),
        r is Some ==> legal_move(old(board)@, r->0),
        r is None ==> forall|m: Move| !legal_move(old(board)@, m),
{
    let movegen = MoveGenerator::new();
    let moves = movegen.compute_legal_moves(board);
    if moves.len() > 0 {
        Some(moves[0])
    } else {
        proof {
            assert forall|m: Move| !legal_move(board@, m) by {
                if legal_move(board@, m) {
                    assert(moves@.contains(m));
                }
            }
        }
        None
    }
}

} // verus!
