//! The two roles of a game session: the game itself and its placement policy.

use vstd::prelude::*;

use crate::game_structs::{has_empty, is_full, placed_one, GameState, Move, MoveError, MAX_WEIGHT};
use crate::grid::resolve_spec;
use crate::line::{score_of, weight};

verus! {

/// A full game: resolve moves, report the terminal state, derive the score.
pub trait FullGame: Sized + View<V = Seq<u8>> {
    /// The well-formedness the game maintains across moves.
    spec fn wf(&self) -> bool;

    /// The side length of the square board.
    spec fn side(&self) -> nat;

    /// Apply the move, then use the given policy to add the next tile.
    /// The move is rejected with `IllegalMove`, and the policy is left
    /// untouched, if and only if resolving it would change no cell.
    ///
    /// A finished game is terminal: applying a move to a full board is a
    /// call-sequence error, excluded here by precondition, not an ordinary
    /// `IllegalMove` outcome. Callers check `is_finished` first.
    fn apply_move<R: AddRandomPiece>(&self, m: Move, r: &mut R) -> (result: Result<
        Self,
        MoveError,
    >)
        requires
            self.wf(),
            !is_full(self@),
            self@.len() == self.side() * self.side(),
            weight(self@) + 4 <= MAX_WEIGHT,
        ensures
            match result {
                Result::Ok(s) => {
                    &&& resolve_spec(self@, self.side(), m) != self@
                    &&& s.wf()
                    &&& s.side() == self.side()
                    &&& placed_one(resolve_spec(self@, self.side(), m), s@)
                },
                Result::Err(e) => {
                    &&& e == MoveError::IllegalMove
                    &&& resolve_spec(self@, self.side(), m) == self@
                    &&& *final(r) == *old(r)
                },
            },
    ;

    /// Whether the game is finished: every cell of the board holds a tile.
    fn is_finished(&self) -> (r: bool)
        requires
            self.wf(),
        ensures
            r == is_full(self@),
    ;

    /// The current score: the sum of `2^magnitude` over all cells, an empty
    /// cell contributing 1.
    fn current_score(&self) -> (r: u32)
        requires
            self.wf(),
        ensures
            r as nat == score_of(self@),
    ;
}

/// A placement policy: produce the next board by adding exactly one new
/// tile, of magnitude 1 or 2, on an empty cell. It must never touch an
/// occupied cell.
pub trait AddRandomPiece {
    /// Add the policy's next piece to the given board. The board must still
    /// have an empty cell: a caller checks `is_finished` first, since
    /// placement on a full board is a call-sequence error, not a playable
    /// outcome.
    fn next_piece(&mut self, in_state: &GameState) -> (out: GameState)
        requires
            in_state.well_formed(),
            has_empty(in_state@),
            weight(in_state@) + 4 <= MAX_WEIGHT,
        ensures
            out.well_formed(),
            out.n == in_state.n,
            placed_one(in_state@, out@),
    ;
}

} // verus!
