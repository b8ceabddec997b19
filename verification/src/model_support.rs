//! Support for an external move source: the board encoding it consumes and
//! the legality-guided choice among its ranked candidate moves.

use vstd::prelude::*;

use crate::game_structs::{GameState, Move};
use crate::grid::resolve_spec;

verus! {

/// How many distinct magnitudes the one-hot board encoding distinguishes.
pub const NUM_POSSIBLE_STATES_PER_CELL: usize = 18;

/// A chosen move together with how many better-ranked candidates were
/// illegal and had to be passed over.
pub struct MoveResult {
    /// The first legal move in ranking order.
    pub next_move: Move,
    /// 0 when the first choice was legal; at most 3 otherwise.
    pub num_illegal_choices: u8,
}

/// A direction is legal exactly when resolving it changes the board.
pub open spec fn legal(g: Seq<u8>, n: nat, m: Move) -> bool {
    resolve_spec(g, n, m) != g
}

/// One-hot encoding of the board, cell by cell in row-major order: each cell
/// contributes [`NUM_POSSIBLE_STATES_PER_CELL`] slots, of which exactly the
/// one at the cell's magnitude holds 1 — none, for a magnitude past the last
/// slot.
pub fn one_hot_cells(state: &GameState) -> (r: Vec<u8>)
    requires
        state.well_formed(),
    ensures
        r@.len() == state.n * state.n * 18,
        forall|c: int, v: int|
            0 <= c < state.n * state.n && 0 <= v < 18 ==> #[trigger] r@[c * 18 + v] == (
            if state@[c] == v {
                1u8
            } else {
                0u8
            }),
{
    let total = state.grid.len();
    let mut r: Vec<u8> = Vec::new();
    let mut c: usize = 0;
    while c < total
        invariant
            c <= total,
            total == state@.len(),
            state.well_formed(),
            r@.len() == c * 18,
            forall|c0: int, v: int|
                0 <= c0 < c && 0 <= v < 18 ==> #[trigger] r@[c0 * 18 + v] == (
                if state@[c0] == v {
                    1u8
                } else {
                    0u8
                }),
        decreases total - c,
    {
        let actual = state.grid[c];
        let mut v: usize = 0;
        while v < 18
            invariant
                v <= 18,
                c < total,
                total == state@.len(),
                actual == state@[c as int],
                r@.len() == c * 18 + v,
                forall|c0: int, v0: int|
                    0 <= c0 < c && 0 <= v0 < 18 ==> #[trigger] r@[c0 * 18 + v0] == (
                    if state@[c0] == v0 {
                        1u8
                    } else {
                        0u8
                    }),
                forall|v0: int|
                    0 <= v0 < v ==> #[trigger] r@[(c as int) * 18 + v0] == (
                    if state@[c as int] == v0 {
                        1u8
                    } else {
                        0u8
                    }),
            decreases 18 - v,
        {
            if (actual as usize) == v {
                r.push(1);
            } else {
                r.push(0);
            }
            v += 1;
        }
        c += 1;
    }
    r
}

/// Pick the first legal move from a ranking, counting the illegal ones
/// passed over; `None` exactly when no ranked move is legal.
pub fn choose_ranked_move(state: &GameState, ranked: &Vec<Move>) -> (r: Option<MoveResult>)
    requires
        state.well_formed(),
        ranked@.len() <= 4,
    ensures
        match r {
            Option::Some(mr) => {
                &&& (mr.num_illegal_choices as int) < ranked@.len()
                &&& ranked@[mr.num_illegal_choices as int] == mr.next_move
                &&& legal(state@, state.n as nat, mr.next_move)
                &&& forall|j: int|
                    0 <= j < mr.num_illegal_choices as int ==> !legal(
                        state@,
                        state.n as nat,
                        #[trigger] ranked@[j],
                    )
            },
            Option::None => forall|j: int|
                0 <= j < ranked@.len() ==> !legal(state@, state.n as nat, #[trigger] ranked@[j]),
        },
{
    let mut k: usize = 0;
    while k < ranked.len()
        invariant
            k <= ranked@.len(),
            ranked@.len() <= 4,
            state.well_formed(),
            forall|j: int| 0 <= j < k ==> !legal(state@, state.n as nat, #[trigger] ranked@[j]),
        decreases ranked@.len() - k,
    {
        let mv = ranked[k];
        if state.is_legal_move(mv) {
            return Some(MoveResult { next_move: mv, num_illegal_choices: k as u8 });
        }
        k += 1;
    }
    None
}

} // verus!
