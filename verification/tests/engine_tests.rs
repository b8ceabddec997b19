use merge2048::game_structs::{GameState, Move, MoveError, RngPlacement};
use merge2048::game_traits::{AddRandomPiece, FullGame};
use merge2048::model_support::{choose_ranked_move, one_hot_cells};

/// Placement fixture that changes nothing, so a move's raw resolution shows.
struct NoPlacement {}

impl AddRandomPiece for NoPlacement {
    fn next_piece(&mut self, in_state: &GameState) -> GameState {
        in_state.clone()
    }
}

/// Placement fixture that puts a two in the first empty cell, row-major.
struct FirstPlaceTwos {}

impl AddRandomPiece for FirstPlaceTwos {
    fn next_piece(&mut self, in_state: &GameState) -> GameState {
        let mut out = in_state.clone();
        for i in 0..out.grid.len() {
            if out.grid[i] == 0 {
                out.grid[i] = 1;
                return out;
            }
        }
        out
    }
}

fn board(rows: &[&[u8]]) -> GameState {
    let n = rows.len();
    let mut cells: Vec<u8> = Vec::new();
    for row in rows {
        assert_eq!(row.len(), n);
        cells.extend_from_slice(row);
    }
    GameState::from_cells(n, cells).expect("rows should form a well-formed board")
}

const ALL_MOVES: [Move; 4] = [Move::Up, Move::Down, Move::Left, Move::Right];

fn first_legal(state: &GameState) -> Option<Move> {
    for m in ALL_MOVES {
        if state.is_legal_move(m) {
            return Some(m);
        }
    }
    None
}

/// Non-deterministic by design: placement on a big board must never touch an
/// occupied cell, and must fill exactly one empty cell with a 2 or a 4.
#[test]
fn test_prng_pieces_on_new_places_only() {
    let mut rng = RngPlacement::new();

    const N: usize = 20;

    let mut state: GameState = GameState::new_random(N, &mut rng);

    while !state.is_finished() {
        let old_state = state.clone();
        state = rng.next_piece(&state);

        // check that if a square is occupied in old, it's the same value in new
        for y in 0..N {
            for x in 0..N {
                let old_val = old_state.get_val(x, y);
                let new_val = state.get_val(x, y);

                if old_val != 0 {
                    assert_eq!(old_val, new_val, "Existing values should not be changed");
                }
            }
        }

        // check that exactly one new value is occupied in new, and it's a 2 or 4
        let mut new_count = 0;
        for y in 0..N {
            for x in 0..N {
                let old_val = old_state.get_val(x, y);
                let new_val = state.get_val(x, y);

                if old_val == 0 && new_val != 0 {
                    new_count += 1;
                    assert!(new_val == 1 || new_val == 2);
                }
            }
        }
        assert_eq!(new_count, 1);
    }
}

/// Merge-once: four equal tiles merge as two nearest pairs, not in cascade.
#[test]
fn test_merge_once_row_of_four() {
    let mut rng = NoPlacement {};
    let start = board(&[
        &[1, 1, 1, 1],
        &[0, 0, 0, 0],
        &[0, 0, 0, 0],
        &[0, 0, 0, 0],
    ]);
    let actual = start.apply_move(Move::Left, &mut rng).unwrap();
    let expected = board(&[
        &[2, 2, 0, 0],
        &[0, 0, 0, 0],
        &[0, 0, 0, 0],
        &[0, 0, 0, 0],
    ]);
    assert_eq!(actual, expected);
}

/// Merge-once on an odd run: the leftover tile stays unmerged.
#[test]
fn test_merge_once_row_of_three() {
    let mut rng = NoPlacement {};
    let start = board(&[
        &[3, 3, 3, 0],
        &[0, 0, 0, 0],
        &[0, 0, 0, 0],
        &[0, 0, 0, 0],
    ]);
    let actual = start.apply_move(Move::Left, &mut rng).unwrap();
    let expected = board(&[
        &[4, 3, 0, 0],
        &[0, 0, 0, 0],
        &[0, 0, 0, 0],
        &[0, 0, 0, 0],
    ]);
    assert_eq!(actual, expected);
}

/// Resolving Left on the pair left by a merge merges it once more; a third
/// Left then changes nothing and is rejected.
#[test]
fn test_collapsed_line_progression() {
    let mut rng = NoPlacement {};
    let first = board(&[
        &[2, 2, 0, 0],
        &[0, 0, 0, 0],
        &[0, 0, 0, 0],
        &[0, 0, 0, 0],
    ]);
    let second = first.apply_move(Move::Left, &mut rng).unwrap();
    let expected = board(&[
        &[3, 0, 0, 0],
        &[0, 0, 0, 0],
        &[0, 0, 0, 0],
        &[0, 0, 0, 0],
    ]);
    assert_eq!(second, expected);
    assert_eq!(
        second.apply_move(Move::Left, &mut rng),
        Err(MoveError::IllegalMove)
    );
}

/// Legality symmetry: `is_legal_move` agrees with what `apply_move` accepts.
#[test]
fn test_legality_symmetry() {
    let mut rng = NoPlacement {};
    let state = board(&[
        &[1, 0, 0, 0],
        &[0, 0, 0, 0],
        &[0, 0, 0, 0],
        &[0, 0, 0, 0],
    ]);
    for m in ALL_MOVES {
        let legal = state.is_legal_move(m);
        let outcome = state.apply_move(m, &mut rng);
        if legal {
            assert!(outcome.is_ok());
        } else {
            assert_eq!(outcome, Err(MoveError::IllegalMove));
        }
    }
    // The tile sits in the top-left corner: only Down and Right can move it.
    assert!(!state.is_legal_move(Move::Up));
    assert!(!state.is_legal_move(Move::Left));
    assert!(state.is_legal_move(Move::Down));
    assert!(state.is_legal_move(Move::Right));
}

/// Placement non-destructiveness, deterministically seeded: every occupied
/// cell keeps its magnitude and exactly one empty cell gains a 1 or a 2.
#[test]
fn test_seeded_placement_non_destructive() {
    let mut rng = RngPlacement::new_from_seed(7);
    let start = board(&[
        &[1, 0, 2, 0],
        &[0, 3, 0, 1],
        &[2, 0, 1, 0],
        &[0, 1, 0, 2],
    ]);
    let placed = rng.next_piece(&start);
    let mut changed = 0;
    for i in 0..start.grid.len() {
        if start.grid[i] != 0 {
            assert_eq!(placed.grid[i], start.grid[i]);
        } else if placed.grid[i] != 0 {
            changed += 1;
            assert!(placed.grid[i] == 1 || placed.grid[i] == 2);
        }
    }
    assert_eq!(changed, 1);
}

/// Score monotonicity: across a seeded game, every legal move strictly
/// raises the score — resolving never lowers it and the placement adds a
/// tile.
#[test]
fn test_score_never_drops() {
    let mut rng = RngPlacement::new_from_seed(1234);
    let mut state = GameState::new_random(4, &mut rng);
    let mut steps = 0;
    while let Some(m) = first_legal(&state) {
        let before = state.current_score();
        state = state.apply_move(m, &mut rng).unwrap();
        let after = state.current_score();
        // resolving never lowers the score and the placement strictly raises it
        assert!(after > before);
        steps += 1;
        if steps > 100_000 {
            panic!("game did not finish in a plausible number of moves");
        }
    }
}

/// The starting board holds exactly one tile, of magnitude 1 or 2.
#[test]
fn test_new_random_places_one_tile() {
    let mut rng = RngPlacement::new_from_seed(11);
    let state = GameState::new_random(4, &mut rng);
    let mut tiles = 0;
    for i in 0..state.grid.len() {
        if state.grid[i] != 0 {
            tiles += 1;
            assert!(state.grid[i] == 1 || state.grid[i] == 2);
        }
    }
    assert_eq!(tiles, 1);
}

/// An illegal move leaves the placement policy untouched: the draws, and so
/// the rest of the game, replay as if the illegal attempt never happened.
#[test]
fn test_illegal_move_consumes_no_draw() {
    let corner = board(&[
        &[1, 0, 0, 0],
        &[0, 0, 0, 0],
        &[0, 0, 0, 0],
        &[0, 0, 0, 0],
    ]);
    let mut rng_a = RngPlacement::new_from_seed(5);
    let mut rng_b = RngPlacement::new_from_seed(5);
    // session a wastes an attempt on an illegal direction first
    assert_eq!(
        corner.apply_move(Move::Up, &mut rng_a),
        Err(MoveError::IllegalMove)
    );
    let a = corner.apply_move(Move::Right, &mut rng_a).unwrap();
    // session b goes straight to the legal direction
    let b = corner.apply_move(Move::Right, &mut rng_b).unwrap();
    assert_eq!(a, b);
}

/// Determinism: two sessions from the same seed, fed the same directions,
/// produce bit-identical board sequences.
#[test]
fn test_determinism_same_seed() {
    let mut rng_a = RngPlacement::new_from_seed(99);
    let mut rng_b = RngPlacement::new_from_seed(99);
    let mut a = GameState::new_random(4, &mut rng_a);
    let mut b = GameState::new_random(4, &mut rng_b);
    assert_eq!(a, b);
    let mut steps = 0;
    while let Some(m) = first_legal(&a) {
        a = a.apply_move(m, &mut rng_a).unwrap();
        b = b.apply_move(m, &mut rng_b).unwrap();
        assert_eq!(a, b);
        steps += 1;
        if steps > 100_000 {
            panic!("game did not finish in a plausible number of moves");
        }
    }
    assert!(a.is_finished() && b.is_finished());
}

/// Termination boundedness: a deterministic session reaches a full board in
/// finitely many legal moves.
#[test]
fn test_termination_reaches_full_board() {
    let mut placer = FirstPlaceTwos {};
    let mut state = GameState::new_random(2, &mut placer);
    let mut steps = 0;
    while let Some(m) = first_legal(&state) {
        state = state.apply_move(m, &mut placer).unwrap();
        steps += 1;
        assert!(steps <= 10_000, "2x2 game must terminate quickly");
    }
    assert!(state.is_finished());
}

/// The score counts `2^magnitude` per cell, an empty cell counting 1.
#[test]
fn test_score_exact_value() {
    let state = board(&[&[1, 2], &[0, 3]]);
    // 2 + 4 + 1 + 8
    assert_eq!(state.current_score(), 15);
    let empty = GameState::new_empty(3);
    assert_eq!(empty.current_score(), 9);
}

/// Cell access is (x, y): column then row.
#[test]
fn test_get_val_orientation() {
    let state = board(&[&[1, 2], &[3, 4]]);
    assert_eq!(state.get_val(0, 0), 1);
    assert_eq!(state.get_val(1, 0), 2);
    assert_eq!(state.get_val(0, 1), 3);
    assert_eq!(state.get_val(1, 1), 4);
}

/// A board is finished exactly when every cell holds a tile.
#[test]
fn test_is_finished() {
    assert!(board(&[&[1, 2], &[3, 4]]).is_finished());
    assert!(!board(&[&[1, 2], &[3, 0]]).is_finished());
    assert!(!GameState::new_empty(4).is_finished());
}

/// Malformed input is rejected by the board constructor.
#[test]
fn test_from_cells_rejects_bad_input() {
    // wrong cell count for the side
    assert!(GameState::from_cells(2, vec![1, 2, 3]).is_none());
    // a magnitude past the supported range
    assert!(GameState::from_cells(2, vec![1, 2, 3, 200]).is_none());
    // a well-formed board passes
    assert!(GameState::from_cells(2, vec![1, 2, 3, 4]).is_some());
}

/// The one-hot encoding marks exactly the slot of each cell's magnitude.
#[test]
fn test_one_hot_cells() {
    let state = board(&[&[1, 0], &[2, 17]]);
    let encoded = one_hot_cells(&state);
    assert_eq!(encoded.len(), 4 * 18);
    for (cell, magnitude) in [(0usize, 1usize), (1, 0), (2, 2), (3, 17)] {
        for v in 0..18 {
            let expected = if v == magnitude { 1 } else { 0 };
            assert_eq!(encoded[cell * 18 + v], expected);
        }
    }
}

/// The ranked chooser returns the first legal move and counts the skipped
/// illegal ones; with no legal candidate it returns nothing.
#[test]
fn test_choose_ranked_move() {
    let state = board(&[
        &[1, 0, 0, 0],
        &[0, 0, 0, 0],
        &[0, 0, 0, 0],
        &[0, 0, 0, 0],
    ]);
    // Up and Left cannot move the corner tile; Down is the first that can.
    let ranked = vec![Move::Up, Move::Left, Move::Down, Move::Right];
    let picked = choose_ranked_move(&state, &ranked).expect("a legal move exists");
    assert_eq!(picked.next_move, Move::Down);
    assert_eq!(picked.num_illegal_choices, 2);

    // On a full board of distinct tiles no direction is legal.
    let stuck = board(&[&[1, 2], &[3, 4]]);
    assert!(choose_ranked_move(&stuck, &ranked).is_none());
}
