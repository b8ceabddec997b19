use merge2048::game_structs::{GameState, Move};
use merge2048::game_traits::{AddRandomPiece, FullGame};

/// Test fixture helper which allows movement with no additional placement afterward
struct NoPlacement {}

impl AddRandomPiece for NoPlacement {
    fn next_piece(&mut self, in_state: &GameState) -> GameState {
        in_state.clone()
    }
}

/// Test fixture helper which sweeps row-major (top to bottom, left to right)
/// and places a two in the first empty spot (if any)
struct FirstPlaceTwos {}

impl AddRandomPiece for FirstPlaceTwos {
    fn next_piece(&mut self, in_state: &GameState) -> GameState {
        let mut out = in_state.clone();
        for i in 0..out.grid.len() {
            if out.grid[i] == 0 {
                out.grid[i] = 1;
                return out;
            }
        }
        out
    }
}

/// Test fixture helper which sweeps row-major (top to bottom, left to right)
/// and places a four in the first empty spot (if any)
struct FirstPlaceFours {}

impl AddRandomPiece for FirstPlaceFours {
    fn next_piece(&mut self, in_state: &GameState) -> GameState {
        let mut out = in_state.clone();
        for i in 0..out.grid.len() {
            if out.grid[i] == 0 {
                out.grid[i] = 2;
                return out;
            }
        }
        out
    }
}

fn board(rows: &[&[u8]]) -> GameState {
    let n = rows.len();
    let mut cells: Vec<u8> = Vec::new();
    for row in rows {
        assert_eq!(row.len(), n);
        cells.extend_from_slice(row);
    }
    GameState::from_cells(n, cells).expect("rows should form a well-formed board")
}

fn boring_grid() -> GameState {
    board(&[
        &[0, 0, 0, 0, 0],
        &[0, 0, 0, 0, 0],
        &[0, 0, 2, 0, 0],
        &[0, 0, 0, 0, 0],
        &[0, 0, 0, 0, 0],
    ])
}

fn crowded_grid_a() -> GameState {
    board(&[
        &[1, 1, 0, 2],
        &[1, 1, 1, 0],
        &[3, 2, 2, 2],
        &[4, 2, 3, 2],
    ])
}

fn crowded_grid_b() -> GameState {
    board(&[
        &[1, 0, 1, 1],
        &[0, 2, 2, 0],
        &[3, 0, 0, 3],
        &[4, 3, 3, 3],
    ])
}

fn crowded_grid_c() -> GameState {
    board(&[
        &[1, 2, 3, 1],
        &[1, 2, 3, 1],
        &[2, 3, 4, 2],
        &[2, 0, 0, 2],
    ])
}

fn crowded_grid_d() -> GameState {
    board(&[
        &[1, 1, 2, 3, 0, 0],
        &[0, 2, 2, 0, 1, 1],
        &[3, 4, 0, 0, 0, 3],
        &[3, 4, 4, 3, 2, 2],
        &[0, 0, 3, 3, 3, 0],
        &[1, 2, 3, 4, 5, 6],
    ])
}

#[test]
fn test_move_left_boring() {
    let mut rng = NoPlacement {};
    let start = boring_grid();
    let actual = start.apply_move(Move::Left, &mut rng).unwrap();
    let expected = board(&[
        &[0, 0, 0, 0, 0],
        &[0, 0, 0, 0, 0],
        &[2, 0, 0, 0, 0],
        &[0, 0, 0, 0, 0],
        &[0, 0, 0, 0, 0],
    ]);
    assert_eq!(actual, expected);
}

#[test]
fn test_move_left_crowded_a() {
    let mut rng = NoPlacement {};
    let start = crowded_grid_a();
    let actual = start.apply_move(Move::Left, &mut rng).unwrap();
    let expected = board(&[
        &[2, 2, 0, 0],
        &[2, 1, 0, 0],
        &[3, 3, 2, 0],
        &[4, 2, 3, 2],
    ]);
    assert_eq!(actual, expected);
}

#[test]
fn test_move_left_crowded_b() {
    let mut rng = NoPlacement {};
    let start = crowded_grid_b();
    let actual = start.apply_move(Move::Left, &mut rng).unwrap();
    let expected = board(&[
        &[2, 1, 0, 0],
        &[3, 0, 0, 0],
        &[4, 0, 0, 0],
        &[4, 4, 3, 0],
    ]);
    assert_eq!(actual, expected);
}

#[test]
fn test_move_left_crowded_c() {
    let mut rng = NoPlacement {};
    let start = crowded_grid_c();
    let actual = start.apply_move(Move::Left, &mut rng).unwrap();
    let expected = board(&[
        &[1, 2, 3, 1],
        &[1, 2, 3, 1],
        &[2, 3, 4, 2],
        &[3, 0, 0, 0],
    ]);
    assert_eq!(actual, expected);
}

#[test]
fn test_move_left_crowded_d() {
    let mut rng = NoPlacement {};
    let start = crowded_grid_d();
    let actual = start.apply_move(Move::Left, &mut rng).unwrap();
    let expected = board(&[
        &[2, 2, 3, 0, 0, 0],
        &[3, 2, 0, 0, 0, 0],
        &[3, 4, 3, 0, 0, 0],
        &[3, 5, 3, 3, 0, 0],
        &[4, 3, 0, 0, 0, 0],
        &[1, 2, 3, 4, 5, 6],
    ]);
    assert_eq!(actual, expected);
}

#[test]
fn test_move_right_boring() {
    let mut rng = NoPlacement {};
    let start = boring_grid();
    let actual = start.apply_move(Move::Right, &mut rng).unwrap();
    let expected = board(&[
        &[0, 0, 0, 0, 0],
        &[0, 0, 0, 0, 0],
        &[0, 0, 0, 0, 2],
        &[0, 0, 0, 0, 0],
        &[0, 0, 0, 0, 0],
    ]);
    assert_eq!(actual, expected);
}

#[test]
fn test_move_right_crowded_a() {
    let mut rng = NoPlacement {};
    let start = crowded_grid_a();
    let actual = start.apply_move(Move::Right, &mut rng).unwrap();
    let expected = board(&[
        &[0, 0, 2, 2],
        &[0, 0, 1, 2],
        &[0, 3, 2, 3],
        &[4, 2, 3, 2],
    ]);
    assert_eq!(actual, expected);
}

#[test]
fn test_move_right_crowded_b() {
    let mut rng = NoPlacement {};
    let start = crowded_grid_b();
    let actual = start.apply_move(Move::Right, &mut rng).unwrap();
    let expected = board(&[
        &[0, 0, 1, 2],
        &[0, 0, 0, 3],
        &[0, 0, 0, 4],
        &[0, 4, 3, 4],
    ]);
    assert_eq!(actual, expected);
}

#[test]
fn test_move_right_crowded_c() {
    let mut rng = NoPlacement {};
    let start = crowded_grid_c();
    let actual = start.apply_move(Move::Right, &mut rng).unwrap();
    let expected = board(&[
        &[1, 2, 3, 1],
        &[1, 2, 3, 1],
        &[2, 3, 4, 2],
        &[0, 0, 0, 3],
    ]);
    assert_eq!(actual, expected);
}

#[test]
fn test_move_right_crowded_d() {
    let mut rng = NoPlacement {};
    let start = crowded_grid_d();
    let actual = start.apply_move(Move::Right, &mut rng).unwrap();
    let expected = board(&[
        &[0, 0, 0, 2, 2, 3],
        &[0, 0, 0, 0, 3, 2],
        &[0, 0, 0, 3, 4, 3],
        &[0, 0, 3, 5, 3, 3],
        &[0, 0, 0, 0, 3, 4],
        &[1, 2, 3, 4, 5, 6],
    ]);
    assert_eq!(actual, expected);
}

#[test]
fn test_move_up_boring() {
    let mut rng = FirstPlaceTwos {};
    let start = boring_grid();
    let actual = start.apply_move(Move::Up, &mut rng).unwrap();
    let expected = board(&[
        &[1, 0, 2, 0, 0],
        &[0, 0, 0, 0, 0],
        &[0, 0, 0, 0, 0],
        &[0, 0, 0, 0, 0],
        &[0, 0, 0, 0, 0],
    ]);
    assert_eq!(actual, expected);
}

#[test]
fn test_move_up_crowded_a() {
    let mut rng = FirstPlaceFours {};
    let start = crowded_grid_a();
    let actual = start.apply_move(Move::Up, &mut rng).unwrap();
    let expected = board(&[
        &[2, 2, 1, 3],
        &[3, 3, 2, 2],
        &[4, 2, 3, 0],
        &[0, 0, 0, 0],
    ]);
    assert_eq!(actual, expected);
}

#[test]
fn test_move_up_crowded_b() {
    let mut rng = NoPlacement {};
    let start = crowded_grid_b();
    let actual = start.apply_move(Move::Up, &mut rng).unwrap();
    let expected = board(&[
        &[1, 2, 1, 1],
        &[3, 3, 2, 4],
        &[4, 0, 3, 0],
        &[0, 0, 0, 0],
    ]);
    assert_eq!(actual, expected);
}

#[test]
fn test_move_up_crowded_c() {
    let mut rng = NoPlacement {};
    let start = crowded_grid_c();
    let actual = start.apply_move(Move::Up, &mut rng).unwrap();
    let expected = board(&[
        &[2, 3, 4, 2],
        &[3, 3, 4, 3],
        &[0, 0, 0, 0],
        &[0, 0, 0, 0],
    ]);
    assert_eq!(actual, expected);
}

#[test]
fn test_move_up_crowded_d() {
    let mut rng = NoPlacement {};
    let start = crowded_grid_d();
    let actual = start.apply_move(Move::Up, &mut rng).unwrap();
    let expected = board(&[
        &[1, 1, 3, 4, 1, 1],
        &[4, 2, 4, 3, 2, 3],
        &[1, 5, 4, 4, 3, 2],
        &[0, 2, 0, 0, 5, 6],
        &[0, 0, 0, 0, 0, 0],
        &[0, 0, 0, 0, 0, 0],
    ]);
    assert_eq!(actual, expected);
}

#[test]
fn test_move_down_boring() {
    let mut rng = FirstPlaceTwos {};
    let start = boring_grid();
    let actual = start.apply_move(Move::Down, &mut rng).unwrap();
    let expected = board(&[
        &[1, 0, 0, 0, 0],
        &[0, 0, 0, 0, 0],
        &[0, 0, 0, 0, 0],
        &[0, 0, 0, 0, 0],
        &[0, 0, 2, 0, 0],
    ]);
    assert_eq!(actual, expected);
}

#[test]
fn test_move_down_crowded_a() {
    let mut rng = FirstPlaceFours {};
    let start = crowded_grid_a();
    let actual = start.apply_move(Move::Down, &mut rng).unwrap();
    let expected = board(&[
        &[2, 0, 0, 0],
        &[2, 0, 1, 0],
        &[3, 2, 2, 2],
        &[4, 3, 3, 3],
    ]);
    assert_eq!(actual, expected);
}

#[test]
fn test_move_down_crowded_b() {
    let mut rng = NoPlacement {};
    let start = crowded_grid_b();
    let actual = start.apply_move(Move::Down, &mut rng).unwrap();
    let expected = board(&[
        &[0, 0, 0, 0],
        &[1, 0, 1, 0],
        &[3, 2, 2, 1],
        &[4, 3, 3, 4],
    ]);
    assert_eq!(actual, expected);
}

#[test]
fn test_move_down_crowded_c() {
    let mut rng = NoPlacement {};
    let start = crowded_grid_c();
    let actual = start.apply_move(Move::Down, &mut rng).unwrap();
    let expected = board(&[
        &[0, 0, 0, 0],
        &[0, 0, 0, 0],
        &[2, 3, 4, 2],
        &[3, 3, 4, 3],
    ]);
    assert_eq!(actual, expected);
}

#[test]
fn test_move_down_crowded_d() {
    let mut rng = NoPlacement {};
    let start = crowded_grid_d();
    let actual = start.apply_move(Move::Down, &mut rng).unwrap();
    let expected = board(&[
        &[0, 0, 0, 0, 0, 0],
        &[0, 0, 0, 0, 0, 0],
        &[0, 1, 0, 0, 1, 1],
        &[1, 2, 3, 3, 2, 3],
        &[4, 5, 4, 4, 3, 2],
        &[1, 2, 4, 4, 5, 6],
    ]);
    assert_eq!(actual, expected);
}
