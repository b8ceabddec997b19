//! The board, the four directional moves, and the random piece placement.

use vstd::prelude::*;

use crate::game_traits::{AddRandomPiece, FullGame};
use crate::grid::{
    col_of, down_spec, left_spec, lemma_cell_index, lemma_col_cells, lemma_resolve_keeps_zero,
    lemma_resolve_weight, lemma_row_cells, resolve_spec, right_spec, row_of, up_spec,
};
use crate::line::{
    cell_score, cell_weight, collapse, collapse_line, empties, lemma_pow2_monotone,
    lemma_pow2_values, lemma_score_decompose, lemma_seq_sum_cell, lemma_seq_sum_concat,
    lemma_seq_sum_empties, lemma_seq_sum_singleton, lemma_seq_sum_update,
    lemma_weight_bounds_cells, pow2, rev, reverse_line, score_of, weight, MAX_MAGNITUDE,
};
use crate::rng::{entropy_seed, rand_below, seed_rng};

verus! {

/// Largest side length a board may have; keeps every cell index and the
/// score arithmetic within machine range.
pub const MAX_SIDE: usize = 32767;

/// Largest total displayed value a well-formed board may carry: `2^31`.
/// It bounds every magnitude by [`MAX_MAGNITUDE`] and keeps the score inside
/// `u32`, since a merge conserves the total and a placement adds at most 4.
pub const MAX_WEIGHT: u64 = 2147483648;

/// One of the four directions a move can slide the tiles in.
#[derive(Copy, Clone, PartialEq, Eq, Structural, Debug)]
pub enum Move {
    Up,
    Down,
    Left,
    Right,
}

/// The one recoverable error of the engine: the requested direction would
/// change nothing, so the move is rejected.
#[derive(Copy, Clone, PartialEq, Eq, Structural, Debug)]
pub enum MoveError {
    IllegalMove,
}

/// An `n` by `n` board of cell magnitudes, row-major: cell `(x, y)` is
/// `grid[y * n + x]`. `0` is an empty cell; `k > 0` shows as `2^k`.
#[derive(Clone, Debug)]
pub struct GameState {
    /// The side length of the square board.
    pub n: usize,
    /// The `n * n` cell magnitudes, row-major.
    pub grid: Vec<u8>,
}

impl View for GameState {
    type V = Seq<u8>;

    open spec fn view(&self) -> Seq<u8> {
        self.grid@
    }
}

/// Some cell of the grid is empty.
pub open spec fn has_empty(g: Seq<u8>) -> bool {
    exists|i: int| 0 <= i < g.len() && g[i] == 0
}

/// Every cell of the grid holds a tile: the terminal condition.
pub open spec fn is_full(g: Seq<u8>) -> bool {
    forall|i: int| 0 <= i < g.len() ==> g[i] != 0
}

/// One placement step from `a` to `b`: every tile keeps its exact magnitude,
/// and at most one previously empty cell gains a tile of magnitude 1 or 2
/// (a displayed 2 or 4).
pub open spec fn placement_step(a: Seq<u8>, b: Seq<u8>) -> bool {
    &&& b.len() == a.len()
    &&& forall|i: int| 0 <= i < a.len() && a[i] != 0 ==> #[trigger] b[i] == a[i]
    &&& forall|i: int|
        0 <= i < a.len() && #[trigger] b[i] != a[i] ==> a[i] == 0 && (b[i] == 1 || b[i] == 2)
    &&& forall|i: int, j: int|
        0 <= i < a.len() && 0 <= j < a.len() && #[trigger] b[i] != a[i] && #[trigger] b[j] != a[j]
            ==> i == j
}

/// A placement step that did place: exactly one cell changed.
pub open spec fn placed_one(a: Seq<u8>, b: Seq<u8>) -> bool {
    &&& placement_step(a, b)
    &&& exists|i: int| 0 <= i < a.len() && a[i] != b[i]
}

impl GameState {
    /// A board is well formed when its grid is square and its total displayed
    /// value is within [`MAX_WEIGHT`]; the latter bounds every magnitude by
    /// [`MAX_MAGNITUDE`], since one tile never outweighs the whole board.
    pub open spec fn well_formed(self) -> bool {
        &&& self.n <= MAX_SIDE
        &&& self.grid@.len() == self.n * self.n
        &&& weight(self.grid@) <= MAX_WEIGHT
    }

    /// The board with every cell empty.
    pub fn new_empty(n: usize) -> (s: Self)
        requires
            n <= MAX_SIDE,
        ensures
            s.well_formed(),
            s.n == n,
            s@ == empties((n * n) as nat),
    {
        proof {
            assert(n * n <= MAX_SIDE * MAX_SIDE) by (nonlinear_arith)
                requires
                    n <= MAX_SIDE,
            ;
        }
        let size: usize = n * n;
        let mut grid: Vec<u8> = Vec::new();
        let mut i: usize = 0;
        while i < size
            invariant
                i <= size,
                grid@ =~= empties(i as nat),
            decreases size - i,
        {
            proof {
                assert(grid@ + seq![0u8] =~= empties((i + 1) as nat));
            }
            grid.push(0);
            i += 1;
        }
        proof {
            lemma_weight_empties(size as nat);
        }
        GameState { n, grid }
    }

    /// The magnitude at column `x`, row `y`.
    #[inline(always)]
    pub fn get_val(&self, x: usize, y: usize) -> (r: u8)
        requires
            self.well_formed(),
            x < self.n,
            y < self.n,
        ensures
            r == self@[y * self.n + x],
    {
        proof {
            lemma_cell_index(y as int, x as int, self.n as nat);
            assert(self.n * self.n <= MAX_SIDE * MAX_SIDE) by (nonlinear_arith)
                requires
                    self.n <= MAX_SIDE,
            ;
        }
        self.grid[y * self.n + x]
    }

    /// Row `y` of the board as its own vector.
    fn row_vec(&self, y: usize) -> (r: Vec<u8>)
        requires
            self.well_formed(),
            y < self.n,
        ensures
            r@ == row_of(self@, self.n as nat, y as int),
    {
        let n = self.n;
        let mut r: Vec<u8> = Vec::new();
        let mut x: usize = 0;
        while x < n
            invariant
                x <= n,
                n == self.n,
                y < n,
                self.well_formed(),
                r@.len() == x,
                forall|k: int| 0 <= k < x ==> #[trigger] r@[k] == self@[(y as int) * n + k],
            decreases n - x,
        {
            let v = self.get_val(x, y);
            r.push(v);
            x += 1;
        }
        proof {
            assert(r@ =~= row_of(self@, n as nat, y as int));
        }
        r
    }

    /// Column `x` of the board as its own vector.
    fn col_vec(&self, x: usize) -> (r: Vec<u8>)
        requires
            self.well_formed(),
            x < self.n,
        ensures
            r@ == col_of(self@, self.n as nat, self.n as nat, x as int),
    {
        let n = self.n;
        let mut r: Vec<u8> = Vec::new();
        let mut y: usize = 0;
        while y < n
            invariant
                y <= n,
                n == self.n,
                x < n,
                self.well_formed(),
                r@.len() == y,
                forall|k: int| 0 <= k < y ==> #[trigger] r@[k] == self@[k * n + (x as int)],
            decreases n - y,
        {
            let v = self.get_val(x, y);
            r.push(v);
            y += 1;
        }
        proof {
            assert(r@ =~= col_of(self@, n as nat, n as nat, x as int));
        }
        r
    }

    /// Resolve a Left move: every row collapses toward column 0.
    fn left(&self) -> (out: Self)
        requires
            self.well_formed(),
        ensures
            out.n == self.n,
            out@ == left_spec(self@, self.n as nat),
            out.well_formed(),
    {
        proof {
            lemma_weight_bounds_cells(self@);
        }
        let n = self.n;
        let mut grid: Vec<u8> = Vec::new();
        let mut y: usize = 0;
        while y < n
            invariant
                y <= n,
                n == self.n,
                self.well_formed(),
                forall|i: int| 0 <= i < self@.len() ==> #[trigger] self@[i] <= MAX_MAGNITUDE,
                grid@.len() == y * n,
                forall|i: int| 0 <= i < grid@.len()
                    ==> #[trigger] grid@[i] == left_spec(self@, n as nat)[i],
            decreases n - y,
        {
            let row = self.row_vec(y);
            proof {
                lemma_row_cells(self@, n as nat, y as int);
            }
            let c = collapse_line(&row);
            let ghost gprev = grid@;
            let mut x: usize = 0;
            while x < n
                invariant
                    x <= n,
                    y < n,
                    n == self.n,
                    c@ == collapse(row_of(self@, n as nat, y as int)),
                    c@.len() == n,
                    gprev.len() == y * n,
                    grid@ == gprev + c@.take(x as int),
                decreases n - x,
            {
                proof {
                    assert(gprev + c@.take(x as int) + seq![c@[x as int]]
                        =~= gprev + c@.take(x + 1));
                }
                let v = c[x];
                grid.push(v);
                x += 1;
            }
            proof {
                assert(c@.take(n as int) =~= c@);
                assert((y + 1) * n == y * n + n) by (nonlinear_arith);
                assert forall|i: int| 0 <= i < (y + 1) * n implies
                    #[trigger] grid@[i] == left_spec(self@, n as nat)[i] by {
                    if i >= y * n {
                        let x0 = i - y * n;
                        lemma_cell_index(y as int, x0, n as nat);
                        assert(grid@[i] == c@[x0]);
                    }
                }
            }
            y += 1;
        }
        proof {
            assert(grid@ =~= left_spec(self@, n as nat));
            lemma_resolve_weight(self@, n as nat, Move::Left);
        }
        GameState { n, grid }
    }

    /// Resolve a Right move: every row, read from the right edge, collapses
    /// toward it.
    fn right(&self) -> (out: Self)
        requires
            self.well_formed(),
        ensures
            out.n == self.n,
            out@ == right_spec(self@, self.n as nat),
            out.well_formed(),
    {
        proof {
            lemma_weight_bounds_cells(self@);
        }
        let n = self.n;
        let mut grid: Vec<u8> = Vec::new();
        let mut y: usize = 0;
        while y < n
            invariant
                y <= n,
                n == self.n,
                self.well_formed(),
                forall|i: int| 0 <= i < self@.len() ==> #[trigger] self@[i] <= MAX_MAGNITUDE,
                grid@.len() == y * n,
                forall|i: int| 0 <= i < grid@.len()
                    ==> #[trigger] grid@[i] == right_spec(self@, n as nat)[i],
            decreases n - y,
        {
            let row = self.row_vec(y);
            let back = reverse_line(&row);
            proof {
                lemma_row_cells(self@, n as nat, y as int);
            }
            let cb = collapse_line(&back);
            let c = reverse_line(&cb);
            let ghost line = rev(collapse(rev(row_of(self@, n as nat, y as int))));
            let ghost gprev = grid@;
            let mut x: usize = 0;
            while x < n
                invariant
                    x <= n,
                    y < n,
                    n == self.n,
                    c@ == line,
                    line.len() == n,
                    gprev.len() == y * n,
                    grid@ == gprev + c@.take(x as int),
                decreases n - x,
            {
                proof {
                    assert(gprev + c@.take(x as int) + seq![c@[x as int]]
                        =~= gprev + c@.take(x + 1));
                }
                let v = c[x];
                grid.push(v);
                x += 1;
            }
            proof {
                assert(c@.take(n as int) =~= c@);
                assert((y + 1) * n == y * n + n) by (nonlinear_arith);
                assert forall|i: int| 0 <= i < (y + 1) * n implies
                    #[trigger] grid@[i] == right_spec(self@, n as nat)[i] by {
                    if i >= y * n {
                        let x0 = i - y * n;
                        lemma_cell_index(y as int, x0, n as nat);
                        assert(grid@[i] == c@[x0]);
                    }
                }
            }
            y += 1;
        }
        proof {
            assert(grid@ =~= right_spec(self@, n as nat));
            lemma_resolve_weight(self@, n as nat, Move::Right);
        }
        GameState { n, grid }
    }

    /// Resolve an Up move: every column collapses toward row 0.
    fn up(&self) -> (out: Self)
        requires
            self.well_formed(),
        ensures
            out.n == self.n,
            out@ == up_spec(self@, self.n as nat),
            out.well_formed(),
    {
        proof {
            lemma_weight_bounds_cells(self@);
        }
        let n = self.n;
        let cc = self.collapsed_cols(false);
        let mut grid: Vec<u8> = Vec::new();
        let mut y: usize = 0;
        while y < n
            invariant
                y <= n,
                n == self.n,
                self.well_formed(),
                cc@.len() == n,
                forall|k: int| 0 <= k < n
                    ==> (#[trigger] cc@[k])@ == collapse(col_of(self@, n as nat, n as nat, k)),
                forall|k: int| 0 <= k < n ==> (#[trigger] cc@[k])@.len() == n,
                grid@.len() == y * n,
                forall|i: int| 0 <= i < grid@.len()
                    ==> #[trigger] grid@[i] == up_spec(self@, n as nat)[i],
            decreases n - y,
        {
            let mut x: usize = 0;
            while x < n
                invariant
                    x <= n,
                    y < n,
                    n == self.n,
                    cc@.len() == n,
                    forall|k: int| 0 <= k < n
                        ==> (#[trigger] cc@[k])@ == collapse(col_of(self@, n as nat, n as nat, k)),
                    forall|k: int| 0 <= k < n ==> (#[trigger] cc@[k])@.len() == n,
                    grid@.len() == y * n + x,
                    forall|i: int| 0 <= i < grid@.len()
                        ==> #[trigger] grid@[i] == up_spec(self@, n as nat)[i],
                decreases n - x,
            {
                let v = cc[x][y];
                proof {
                    lemma_cell_index(y as int, x as int, n as nat);
                }
                grid.push(v);
                x += 1;
            }
            proof {
                assert((y + 1) * n == y * n + n) by (nonlinear_arith);
            }
            y += 1;
        }
        proof {
            assert(grid@ =~= up_spec(self@, n as nat));
            lemma_resolve_weight(self@, n as nat, Move::Up);
        }
        GameState { n, grid }
    }

    /// Resolve a Down move: every column, read from the bottom edge,
    /// collapses toward it.
    fn down(&self) -> (out: Self)
        requires
            self.well_formed(),
        ensures
            out.n == self.n,
            out@ == down_spec(self@, self.n as nat),
            out.well_formed(),
    {
        proof {
            lemma_weight_bounds_cells(self@);
        }
        let n = self.n;
        let cc = self.collapsed_cols(true);
        let mut grid: Vec<u8> = Vec::new();
        let mut y: usize = 0;
        while y < n
            invariant
                y <= n,
                n == self.n,
                self.well_formed(),
                cc@.len() == n,
                forall|k: int| 0 <= k < n
                    ==> (#[trigger] cc@[k])@
                        == rev(collapse(rev(col_of(self@, n as nat, n as nat, k)))),
                forall|k: int| 0 <= k < n ==> (#[trigger] cc@[k])@.len() == n,
                grid@.len() == y * n,
                forall|i: int| 0 <= i < grid@.len()
                    ==> #[trigger] grid@[i] == down_spec(self@, n as nat)[i],
            decreases n - y,
        {
            let mut x: usize = 0;
            while x < n
                invariant
                    x <= n,
                    y < n,
                    n == self.n,
                    cc@.len() == n,
                    forall|k: int| 0 <= k < n
                        ==> (#[trigger] cc@[k])@
                            == rev(collapse(rev(col_of(self@, n as nat, n as nat, k)))),
                    forall|k: int| 0 <= k < n ==> (#[trigger] cc@[k])@.len() == n,
                    grid@.len() == y * n + x,
                    forall|i: int| 0 <= i < grid@.len()
                        ==> #[trigger] grid@[i] == down_spec(self@, n as nat)[i],
                decreases n - x,
            {
                let v = cc[x][y];
                proof {
                    lemma_cell_index(y as int, x as int, n as nat);
                }
                grid.push(v);
                x += 1;
            }
            proof {
                assert((y + 1) * n == y * n + n) by (nonlinear_arith);
            }
            y += 1;
        }
        proof {
            assert(grid@ =~= down_spec(self@, n as nat));
            lemma_resolve_weight(self@, n as nat, Move::Down);
        }
        GameState { n, grid }
    }

    /// Collapse every column of the board, toward row 0, or toward the
    /// bottom edge when `from_bottom` is set.
    fn collapsed_cols(&self, from_bottom: bool) -> (cc: Vec<Vec<u8>>)
        requires
            self.well_formed(),
        ensures
            cc@.len() == self.n,
            !from_bottom ==> forall|k: int| 0 <= k < self.n
                ==> (#[trigger] cc@[k])@ == collapse(col_of(self@, self.n as nat, self.n as nat, k)),
            from_bottom ==> forall|k: int| 0 <= k < self.n
                ==> (#[trigger] cc@[k])@
                    == rev(collapse(rev(col_of(self@, self.n as nat, self.n as nat, k)))),
            forall|k: int| 0 <= k < self.n ==> (#[trigger] cc@[k])@.len() == self.n,
    {
        proof {
            lemma_weight_bounds_cells(self@);
        }
        let n = self.n;
        let mut cc: Vec<Vec<u8>> = Vec::new();
        let mut x: usize = 0;
        while x < n
            invariant
                x <= n,
                n == self.n,
                self.well_formed(),
                forall|i: int| 0 <= i < self@.len() ==> #[trigger] self@[i] <= MAX_MAGNITUDE,
                cc@.len() == x,
                !from_bottom ==> forall|k: int| 0 <= k < x
                    ==> (#[trigger] cc@[k])@ == collapse(col_of(self@, n as nat, n as nat, k)),
                from_bottom ==> forall|k: int| 0 <= k < x
                    ==> (#[trigger] cc@[k])@
                        == rev(collapse(rev(col_of(self@, n as nat, n as nat, k)))),
                forall|k: int| 0 <= k < x ==> (#[trigger] cc@[k])@.len() == n,
            decreases n - x,
        {
            let col = self.col_vec(x);
            proof {
                lemma_col_cells(self@, n as nat, x as int);
            }
            if from_bottom {
                let back = reverse_line(&col);
                let cb = collapse_line(&back);
                let c = reverse_line(&cb);
                cc.push(c);
            } else {
                let c = collapse_line(&col);
                cc.push(c);
            }
            x += 1;
        }
        cc
    }
}

/// A run of empty cells weighs nothing.
pub proof fn lemma_weight_empties(k: nat)
    ensures
        weight(empties(k)) == 0,
{
    assert(cell_weight()(0u8) == 0);
    lemma_seq_sum_empties(k, cell_weight());
}

/// `2^e` as a machine integer, for magnitudes in range.
fn pow2_u32(e: u8) -> (r: u32)
    requires
        e <= MAX_MAGNITUDE,
    ensures
        r as nat == pow2(e as nat),
{
    let mut r: u32 = 1;
    let mut k: u8 = 0;
    while k < e
        invariant
            k <= e,
            e <= MAX_MAGNITUDE,
            r as nat == pow2(k as nat),
        decreases e - k,
    {
        proof {
            lemma_pow2_monotone((k + 1) as nat, e as nat);
            lemma_pow2_monotone(e as nat, 31);
            lemma_pow2_values();
        }
        r = r * 2;
        k = k + 1;
    }
    r
}

impl GameState {
    /// Build a board of side `n` from row-major cell magnitudes.
    ///
    /// Returns the board exactly when the input is well formed: the right
    /// cell count for the side, the side within [`MAX_SIDE`], and a total
    /// displayed value within [`MAX_WEIGHT`] (which also caps every magnitude
    /// at [`MAX_MAGNITUDE`]).
    pub fn from_cells(n: usize, cells: Vec<u8>) -> (r: Option<GameState>)
        ensures
            match r {
                Option::Some(s) => {
                    &&& s.well_formed()
                    &&& s.n == n
                    &&& s@ == cells@
                },
                Option::None => !(n <= MAX_SIDE && cells@.len() == n * n && weight(cells@)
                    <= MAX_WEIGHT),
            },
    {
        if n > MAX_SIDE {
            return None;
        }
        proof {
            assert(n * n <= MAX_SIDE * MAX_SIDE) by (nonlinear_arith)
                requires
                    n <= MAX_SIDE,
            ;
        }
        let total: usize = n * n;
        if cells.len() != total {
            return None;
        }
        let mut acc: u64 = 0;
        let mut i: usize = 0;
        while i < total
            invariant
                i <= total,
                total == n * n,
                total <= 1073676289,
                cells@.len() == total,
                acc as nat == weight(cells@.take(i as int)),
                acc <= (i as nat) * 2147483648,
            decreases total - i,
        {
            let c = cells[i];
            if c > MAX_MAGNITUDE {
                proof {
                    lemma_seq_sum_cell(cells@, i as int, cell_weight());
                    lemma_pow2_monotone(32, c as nat);
                    lemma_pow2_values();
                }
                return None;
            }
            let term: u32 = if c == 0 {
                0
            } else {
                pow2_u32(c)
            };
            proof {
                assert(cells@.take(i + 1) =~= cells@.take(i as int) + seq![cells@[i as int]]);
                lemma_seq_sum_concat(cells@.take(i as int), seq![cells@[i as int]], cell_weight());
                lemma_seq_sum_singleton(cells@[i as int], cell_weight());
                lemma_pow2_monotone(c as nat, 31);
                lemma_pow2_values();
            }
            acc = acc + (term as u64);
            i += 1;
        }
        proof {
            assert(cells@.take(total as int) =~= cells@);
        }
        if acc <= MAX_WEIGHT {
            Some(GameState { n, grid: cells })
        } else {
            None
        }
    }

    /// The board the given direction resolves to, before any placement.
    fn resolve(&self, m: Move) -> (out: Self)
        requires
            self.well_formed(),
        ensures
            out.n == self.n,
            out@ == resolve_spec(self@, self.n as nat, m),
            out.well_formed(),
    {
        match m {
            Move::Up => self.up(),
            Move::Down => self.down(),
            Move::Left => self.left(),
            Move::Right => self.right(),
        }
    }

    /// Whether the direction is a legal move: resolving it would change at
    /// least one cell. Derived by resolving without committing the result.
    pub fn is_legal_move(&self, m: Move) -> (r: bool)
        requires
            self.well_formed(),
        ensures
            r == (resolve_spec(self@, self.n as nat, m) != self@),
    {
        let resolved = self.resolve(m);
        let same = resolved.eq(self);
        !same
    }

    /// A fresh board holding the policy's single starting tile.
    pub fn new_random<R: AddRandomPiece>(n: usize, r: &mut R) -> (s: GameState)
        requires
            1 <= n <= MAX_SIDE,
        ensures
            s.well_formed(),
            s.n == n,
            placed_one(empties((n * n) as nat), s@),
    {
        let out = Self::new_empty(n);
        proof {
            assert(1 <= n * n) by (nonlinear_arith)
                requires
                    1 <= n,
            ;
            assert(out@[0] == 0);
            lemma_weight_empties((n * n) as nat);
        }
        r.next_piece(&out)
    }
}

impl PartialEq for GameState {
    /// Two boards are equal when their sides and all their cells agree.
    fn eq(&self, other: &Self) -> (r: bool) {
        if self.n != other.n {
            return false;
        }
        if self.grid.len() != other.grid.len() {
            return false;
        }
        let len = self.grid.len();
        let mut i: usize = 0;
        while i < len
            invariant
                i <= len,
                len == self@.len(),
                len == other@.len(),
                forall|j: int| 0 <= j < i ==> self@[j] == other@[j],
            decreases len - i,
        {
            if self.grid[i] != other.grid[i] {
                return false;
            }
            i += 1;
        }
        proof {
            assert(self@ =~= other@);
        }
        true
    }
}

impl vstd::std_specs::cmp::PartialEqSpecImpl for GameState {
    open spec fn obeys_eq_spec() -> bool {
        true
    }

    open spec fn eq_spec(&self, other: &Self) -> bool {
        self.n == other.n && self@ == other@
    }
}

impl FullGame for GameState {
    open spec fn wf(&self) -> bool {
        self.well_formed()
    }

    open spec fn side(&self) -> nat {
        self.n as nat
    }

    fn apply_move<R: AddRandomPiece>(&self, m: Move, r: &mut R) -> (result: Result<
        GameState,
        MoveError,
    >) {
        let next_state = self.resolve(m);
        if next_state.eq(self) {
            return Err(MoveError::IllegalMove);
        }
        proof {
            lemma_weight_bounds_cells(self@);
            lemma_resolve_keeps_zero(self@, self.n as nat, m);
            lemma_resolve_weight(self@, self.n as nat, m);
        }
        let out = r.next_piece(&next_state);
        Ok(out)
    }

    fn is_finished(&self) -> (r: bool) {
        let len = self.grid.len();
        let mut i: usize = 0;
        while i < len
            invariant
                i <= len,
                len == self@.len(),
                forall|j: int| 0 <= j < i ==> self@[j] != 0,
            decreases len - i,
        {
            if self.grid[i] == 0 {
                return false;
            }
            i += 1;
        }
        true
    }

    fn current_score(&self) -> (r: u32) {
        proof {
            lemma_weight_bounds_cells(self@);
            lemma_score_decompose(self@);
            assert(self.n * self.n <= MAX_SIDE * MAX_SIDE) by (nonlinear_arith)
                requires
                    self.n <= MAX_SIDE,
            ;
        }
        let len = self.grid.len();
        let mut acc: u32 = 0;
        let mut i: usize = 0;
        while i < len
            invariant
                i <= len,
                len == self@.len(),
                self.well_formed(),
                forall|k: int| 0 <= k < self@.len() ==> #[trigger] self@[k] <= MAX_MAGNITUDE,
                score_of(self@) <= 3221159937,
                acc as nat == score_of(self@.take(i as int)),
            decreases len - i,
        {
            let c = self.grid[i];
            let term = pow2_u32(c);
            proof {
                assert(self@.take(i + 1) =~= self@.take(i as int) + seq![self@[i as int]]);
                lemma_seq_sum_concat(self@.take(i as int), seq![self@[i as int]], cell_score());
                lemma_seq_sum_singleton(self@[i as int], cell_score());
                assert(self@ =~= self@.take(i + 1) + self@.skip(i + 1));
                lemma_seq_sum_concat(self@.take(i + 1), self@.skip(i + 1), cell_score());
            }
            acc = acc + term;
            i += 1;
        }
        proof {
            assert(self@.take(len as int) =~= self@);
        }
        acc
    }
}

/// A placement policy backed by a seedable pseudo-random generator: it draws
/// a uniformly random empty cell, then a fair coin for the new tile's
/// magnitude.
pub struct RngPlacement {
    rng: rand::rngs::StdRng,
}

impl RngPlacement {
    /// A policy seeded from system entropy.
    pub fn new() -> RngPlacement {
        let seed: u64 = entropy_seed();
        Self::new_from_seed(seed)
    }

    /// A policy with a fixed seed: its draws, and with them its placements,
    /// replay identically for the same seed.
    pub fn new_from_seed(seed: u64) -> RngPlacement {
        RngPlacement { rng: seed_rng(seed) }
    }
}

impl AddRandomPiece for RngPlacement {
    fn next_piece(&mut self, in_state: &GameState) -> (out: GameState) {
        let len = in_state.grid.len();
        let mut free: Vec<usize> = Vec::new();
        let mut i: usize = 0;
        while i < len
            invariant
                i <= len,
                len == in_state@.len(),
                forall|k: int| 0 <= k < free@.len()
                    ==> #[trigger] free@[k] < i && in_state@[free@[k] as int] == 0,
                (exists|j: int| 0 <= j < i && in_state@[j] == 0) ==> free@.len() >= 1,
            decreases len - i,
        {
            if in_state.grid[i] == 0 {
                free.push(i);
            }
            i += 1;
        }
        let idx = rand_below(&mut self.rng, free.len());
        let cell = free[idx];
        let coin = rand_below(&mut self.rng, 2);
        let val: u8 = if coin == 0 {
            1
        } else {
            2
        };
        let mut grid: Vec<u8> = Vec::new();
        let mut j: usize = 0;
        while j < len
            invariant
                j <= len,
                len == in_state@.len(),
                grid@.len() == j,
                forall|k: int| 0 <= k < j ==> #[trigger] grid@[k] == in_state@[k],
            decreases len - j,
        {
            let v = in_state.grid[j];
            grid.push(v);
            j += 1;
        }
        grid[cell] = val;
        let out = GameState { n: in_state.n, grid };
        proof {
            let a = in_state@;
            let b = out@;
            assert(b[cell as int] == val);
            assert(forall|k: int| 0 <= k < a.len() && k != cell ==> #[trigger] b[k] == a[k]);
            lemma_seq_sum_update(a, b, cell as int, cell_weight());
            lemma_pow2_values();
            assert(cell_weight()(0u8) == 0);
            assert(cell_weight()(val) <= 4);
            assert(placed_one(a, b));
        }
        out
    }
}

} // verus!
