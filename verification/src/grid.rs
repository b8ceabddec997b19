//! The square grid as rows and columns, and the move resolution specs.
//!
//! A grid of side `n` is a row-major sequence of `n * n` cell magnitudes.
//! Resolving a move collapses every line along the axis of motion: rows for
//! Left and Right, columns for Up and Down, read toward the target edge.

use vstd::prelude::*;

use crate::game_structs::Move;
use crate::line::{
    cell_occupancy, cell_weight, collapse, lemma_collapse_keeps_zero, lemma_collapse_len,
    lemma_collapse_occ_score, lemma_rev_involutive, lemma_score_decompose, lemma_seq_sum_concat,
    lemma_seq_sum_rev, lemma_seq_sum_singleton, lemma_weight_collapse, occ_count, rev, score_of,
    seq_sum, weight,
};

verus! {

/// Row `y` of a row-major grid with rows of `cols` cells.
pub open spec fn row_of(g: Seq<u8>, cols: nat, y: int) -> Seq<u8> {
    Seq::new(cols, |x: int| g[y * cols + x])
}

/// Column `x` of a row-major grid with `rows` rows of `cols` cells.
pub open spec fn col_of(g: Seq<u8>, rows: nat, cols: nat, x: int) -> Seq<u8> {
    Seq::new(rows, |y: int| g[y * cols + x])
}

/// A measure summed over the first `y` rows.
pub open spec fn row_sum(g: Seq<u8>, cols: nat, y: nat, f: spec_fn(u8) -> nat) -> nat
    decreases y,
{
    if y == 0 {
        0
    } else {
        row_sum(g, cols, (y - 1) as nat, f) + seq_sum(row_of(g, cols, y - 1), f)
    }
}

/// A measure summed over the first `x` columns.
pub open spec fn col_sum(g: Seq<u8>, rows: nat, cols: nat, x: nat, f: spec_fn(u8) -> nat) -> nat
    decreases x,
{
    if x == 0 {
        0
    } else {
        col_sum(g, rows, cols, (x - 1) as nat, f) + seq_sum(col_of(g, rows, cols, x - 1), f)
    }
}

/// For `y < n` and `x < n`, the row-major index `y * n + x` lands inside the
/// grid and decomposes back into `y` and `x` by division and remainder.
pub proof fn lemma_cell_index(y: int, x: int, n: nat)
    requires
        0 <= y < n,
        0 <= x < n,
    ensures
        0 <= y * n + x < n * n,
        (y * n + x) / (n as int) == y,
        (y * n + x) % (n as int) == x,
{
    assert(0 <= y * n + x < n * n) by (nonlinear_arith)
        requires
            0 <= y < n,
            0 <= x < n,
    ;
    vstd::arithmetic::div_mod::lemma_fundamental_div_mod_converse(y * n + x, n as int, y, x);
}

/// Two grids with matching row sums up to row `y` have matching `row_sum`s.
pub proof fn lemma_row_sum_eq(a: Seq<u8>, b: Seq<u8>, cols: nat, y: nat, f: spec_fn(u8) -> nat)
    requires
        forall|t: int| 0 <= t < y
            ==> seq_sum(#[trigger] row_of(a, cols, t), f) == seq_sum(row_of(b, cols, t), f),
    ensures
        row_sum(a, cols, y, f) == row_sum(b, cols, y, f),
    decreases y,
{
    if y > 0 {
        lemma_row_sum_eq(a, b, cols, (y - 1) as nat, f);
    }
}

/// Row sums dominated row by row are dominated in total.
pub proof fn lemma_row_sum_le(a: Seq<u8>, b: Seq<u8>, cols: nat, y: nat, f: spec_fn(u8) -> nat)
    requires
        forall|t: int| 0 <= t < y
            ==> seq_sum(#[trigger] row_of(a, cols, t), f) <= seq_sum(row_of(b, cols, t), f),
    ensures
        row_sum(a, cols, y, f) <= row_sum(b, cols, y, f),
    decreases y,
{
    if y > 0 {
        lemma_row_sum_le(a, b, cols, (y - 1) as nat, f);
    }
}

/// Two grids with matching column sums up to column `x` have matching
/// `col_sum`s.
pub proof fn lemma_col_sum_eq(
    a: Seq<u8>,
    b: Seq<u8>,
    rows: nat,
    cols: nat,
    x: nat,
    f: spec_fn(u8) -> nat,
)
    requires
        forall|t: int| 0 <= t < x
            ==> seq_sum(#[trigger] col_of(a, rows, cols, t), f)
                == seq_sum(col_of(b, rows, cols, t), f),
    ensures
        col_sum(a, rows, cols, x, f) == col_sum(b, rows, cols, x, f),
    decreases x,
{
    if x > 0 {
        lemma_col_sum_eq(a, b, rows, cols, (x - 1) as nat, f);
    }
}

/// Column sums dominated column by column are dominated in total.
pub proof fn lemma_col_sum_le(
    a: Seq<u8>,
    b: Seq<u8>,
    rows: nat,
    cols: nat,
    x: nat,
    f: spec_fn(u8) -> nat,
)
    requires
        forall|t: int| 0 <= t < x
            ==> seq_sum(#[trigger] col_of(a, rows, cols, t), f)
                <= seq_sum(col_of(b, rows, cols, t), f),
    ensures
        col_sum(a, rows, cols, x, f) <= col_sum(b, rows, cols, x, f),
    decreases x,
{
    if x > 0 {
        lemma_col_sum_le(a, b, rows, cols, (x - 1) as nat, f);
    }
}

/// A sum over the whole grid is the sum of its row sums.
pub proof fn lemma_seq_sum_rows(g: Seq<u8>, rows: nat, cols: nat, f: spec_fn(u8) -> nat)
    requires
        g.len() == rows * cols,
    ensures
        seq_sum(g, f) == row_sum(g, cols, rows, f),
    decreases rows,
{
    if rows == 0 {
        assert(g.len() == 0) by (nonlinear_arith)
            requires
                g.len() == rows * cols,
                rows == 0,
        ;
    } else {
        assert((rows - 1) * cols + cols == rows * cols) by (nonlinear_arith);
        let head = g.take(((rows - 1) as nat * cols) as int);
        let last = g.skip(((rows - 1) as nat * cols) as int);
        lemma_seq_sum_rows(head, (rows - 1) as nat, cols, f);
        lemma_seq_sum_concat(head, last, f);
        assert(head + last =~= g);
        assert(last =~= row_of(g, cols, rows - 1));
        assert forall|t: int| 0 <= t < rows - 1 implies
            seq_sum(#[trigger] row_of(head, cols, t), f) == seq_sum(row_of(g, cols, t), f) by {
            assert forall|x: int| 0 <= x < cols implies
                row_of(head, cols, t)[x] == row_of(g, cols, t)[x] by {
                assert(0 <= t * cols + x < (rows - 1) * cols) by (nonlinear_arith)
                    requires
                        0 <= t < rows - 1,
                        0 <= x < cols,
                ;
            }
            assert(row_of(head, cols, t) =~= row_of(g, cols, t));
        }
        lemma_row_sum_eq(head, g, cols, (rows - 1) as nat, f);
        assert(row_sum(g, cols, rows, f)
            == row_sum(g, cols, (rows - 1) as nat, f) + seq_sum(row_of(g, cols, rows - 1), f));
    }
}

/// With no rows every column is empty, so the column sums vanish.
proof fn lemma_col_sum_zero(g: Seq<u8>, cols: nat, x: nat, f: spec_fn(u8) -> nat)
    ensures
        col_sum(g, 0, cols, x, f) == 0,
    decreases x,
{
    if x > 0 {
        lemma_col_sum_zero(g, cols, (x - 1) as nat, f);
        assert(col_of(g, 0, cols, x - 1) =~= Seq::<u8>::empty());
    }
}

/// Peeling the first row off a grid peels one cell off each column.
proof fn lemma_col_sum_cons(
    g: Seq<u8>,
    rest: Seq<u8>,
    rows: nat,
    cols: nat,
    x: nat,
    f: spec_fn(u8) -> nat,
)
    requires
        rows >= 1,
        g.len() == rows * cols,
        rest == g.skip(cols as int),
        x <= cols,
    ensures
        col_sum(g, rows, cols, x, f) == seq_sum(g.take(cols as int).take(x as int), f) + col_sum(
            rest,
            (rows - 1) as nat,
            cols,
            x,
            f,
        ),
    decreases x,
{
    assert(cols <= rows * cols) by (nonlinear_arith)
        requires
            rows >= 1,
    ;
    if x == 0 {
        assert(g.take(cols as int).take(0) =~= Seq::<u8>::empty());
    } else {
        lemma_col_sum_cons(g, rest, rows, cols, (x - 1) as nat, f);
        let c = x - 1;
        let tail = col_of(rest, (rows - 1) as nat, cols, c);
        assert forall|y: int| 0 <= y < rows - 1 implies
            #[trigger] tail[y] == col_of(g, rows, cols, c)[y + 1] by {
            assert(0 <= y * cols + c < (rows - 1) * cols) by (nonlinear_arith)
                requires
                    0 <= y < rows - 1,
                    0 <= c < cols,
            ;
            assert(cols + y * cols + c == (y + 1) * cols + c) by (nonlinear_arith);
            assert(0 <= (y + 1) * cols + c < rows * cols) by (nonlinear_arith)
                requires
                    0 <= y + 1 < rows,
                    0 <= c < cols,
            ;
        }
        assert(col_of(g, rows, cols, c)[0] == g[c]);
        assert forall|y: int| 1 <= y < rows implies
            #[trigger] col_of(g, rows, cols, c)[y] == (seq![g[c]] + tail)[y] by {
            assert((seq![g[c]] + tail)[y] == tail[y - 1]);
            assert(tail[y - 1] == col_of(g, rows, cols, c)[(y - 1) + 1]);
        }
        assert(col_of(g, rows, cols, c) =~= seq![g[c]] + tail);
        lemma_seq_sum_concat(seq![g[c]], tail, f);
        lemma_seq_sum_singleton(g[c], f);
        assert(g.take(cols as int).take(x as int)
            =~= g.take(cols as int).take(c) + seq![g[c]]);
        lemma_seq_sum_concat(g.take(cols as int).take(c), seq![g[c]], f);
    }
}

/// A sum over the whole grid is also the sum of its column sums.
pub proof fn lemma_seq_sum_cols(g: Seq<u8>, rows: nat, cols: nat, f: spec_fn(u8) -> nat)
    requires
        g.len() == rows * cols,
    ensures
        seq_sum(g, f) == col_sum(g, rows, cols, cols, f),
    decreases rows,
{
    if rows == 0 {
        lemma_col_sum_zero(g, cols, cols, f);
        assert(g.len() == 0) by (nonlinear_arith)
            requires
                g.len() == rows * cols,
                rows == 0,
        ;
    } else {
        let first = g.take(cols as int);
        let rest = g.skip(cols as int);
        assert(cols + (rows - 1) * cols == rows * cols) by (nonlinear_arith);
        lemma_seq_sum_cols(rest, (rows - 1) as nat, cols, f);
        lemma_seq_sum_concat(first, rest, f);
        assert(first + rest =~= g);
        lemma_col_sum_cons(g, rest, rows, cols, cols, f);
        assert(first.take(cols as int) =~= first);
    }
}

/// The board after a Left move: every row collapses toward column 0.
pub open spec fn left_spec(g: Seq<u8>, n: nat) -> Seq<u8> {
    Seq::new(n * n, |i: int| collapse(row_of(g, n, i / (n as int)))[i % (n as int)])
}

/// The board after a Right move: every row, read from the right edge,
/// collapses toward it.
pub open spec fn right_spec(g: Seq<u8>, n: nat) -> Seq<u8> {
    Seq::new(n * n, |i: int| rev(collapse(rev(row_of(g, n, i / (n as int)))))[i % (n as int)])
}

/// The board after an Up move: every column collapses toward row 0.
pub open spec fn up_spec(g: Seq<u8>, n: nat) -> Seq<u8> {
    Seq::new(n * n, |i: int| collapse(col_of(g, n, n, i % (n as int)))[i / (n as int)])
}

/// The board after a Down move: every column, read from the bottom edge,
/// collapses toward it.
pub open spec fn down_spec(g: Seq<u8>, n: nat) -> Seq<u8> {
    Seq::new(n * n, |i: int| rev(collapse(rev(col_of(g, n, n, i % (n as int)))))[i / (n as int)])
}

/// The board a move resolves to: every line along the axis of motion
/// collapses toward the target edge.
pub open spec fn resolve_spec(g: Seq<u8>, n: nat, m: Move) -> Seq<u8> {
    match m {
        Move::Left => left_spec(g, n),
        Move::Right => right_spec(g, n),
        Move::Up => up_spec(g, n),
        Move::Down => down_spec(g, n),
    }
}

/// Row `y` of a resolved Left move is the collapse of row `y`.
pub proof fn lemma_left_spec_row(g: Seq<u8>, n: nat, y: int)
    requires
        0 <= y < n,
    ensures
        row_of(left_spec(g, n), n, y) == collapse(row_of(g, n, y)),
{
    lemma_collapse_len(row_of(g, n, y));
    assert forall|x: int| 0 <= x < n implies
        #[trigger] row_of(left_spec(g, n), n, y)[x] == collapse(row_of(g, n, y))[x] by {
        lemma_cell_index(y, x, n);
    }
    assert(row_of(left_spec(g, n), n, y) =~= collapse(row_of(g, n, y)));
}

/// Row `y` of a resolved Right move is the collapse of row `y` read from the
/// right edge.
pub proof fn lemma_right_spec_row(g: Seq<u8>, n: nat, y: int)
    requires
        0 <= y < n,
    ensures
        row_of(right_spec(g, n), n, y) == rev(collapse(rev(row_of(g, n, y)))),
{
    lemma_collapse_len(rev(row_of(g, n, y)));
    assert forall|x: int| 0 <= x < n implies
        #[trigger] row_of(right_spec(g, n), n, y)[x]
            == rev(collapse(rev(row_of(g, n, y))))[x] by {
        lemma_cell_index(y, x, n);
    }
    assert(row_of(right_spec(g, n), n, y) =~= rev(collapse(rev(row_of(g, n, y)))));
}

/// Column `x` of a resolved Up move is the collapse of column `x`.
pub proof fn lemma_up_spec_col(g: Seq<u8>, n: nat, x: int)
    requires
        0 <= x < n,
    ensures
        col_of(up_spec(g, n), n, n, x) == collapse(col_of(g, n, n, x)),
{
    lemma_collapse_len(col_of(g, n, n, x));
    assert forall|y: int| 0 <= y < n implies
        #[trigger] col_of(up_spec(g, n), n, n, x)[y] == collapse(col_of(g, n, n, x))[y] by {
        lemma_cell_index(y, x, n);
    }
    assert(col_of(up_spec(g, n), n, n, x) =~= collapse(col_of(g, n, n, x)));
}

/// Column `x` of a resolved Down move is the collapse of column `x` read
/// from the bottom edge.
pub proof fn lemma_down_spec_col(g: Seq<u8>, n: nat, x: int)
    requires
        0 <= x < n,
    ensures
        col_of(down_spec(g, n), n, n, x) == rev(collapse(rev(col_of(g, n, n, x)))),
{
    lemma_collapse_len(rev(col_of(g, n, n, x)));
    assert forall|y: int| 0 <= y < n implies
        #[trigger] col_of(down_spec(g, n), n, n, x)[y]
            == rev(collapse(rev(col_of(g, n, n, x))))[y] by {
        lemma_cell_index(y, x, n);
    }
    assert(col_of(down_spec(g, n), n, n, x) =~= rev(collapse(rev(col_of(g, n, n, x)))));
}

/// Every cell of a row of `g` is a cell of `g`, so bounds carry over.
pub proof fn lemma_row_cells(g: Seq<u8>, n: nat, y: int)
    requires
        0 <= y < n,
        g.len() == n * n,
        forall|i: int| 0 <= i < g.len() ==> g[i] < 255,
    ensures
        forall|x: int| 0 <= x < n ==> #[trigger] row_of(g, n, y)[x] < 255,
{
    assert forall|x: int| 0 <= x < n implies #[trigger] row_of(g, n, y)[x] < 255 by {
        lemma_cell_index(y, x, n);
    }
}

/// Every cell of a column of `g` is a cell of `g`, so bounds carry over.
pub proof fn lemma_col_cells(g: Seq<u8>, n: nat, x: int)
    requires
        0 <= x < n,
        g.len() == n * n,
        forall|i: int| 0 <= i < g.len() ==> g[i] < 255,
    ensures
        forall|y: int| 0 <= y < n ==> #[trigger] col_of(g, n, n, x)[y] < 255,
{
    assert forall|y: int| 0 <= y < n implies #[trigger] col_of(g, n, n, x)[y] < 255 by {
        lemma_cell_index(y, x, n);
    }
}

/// Resolving a move conserves the board's weight: tiles only slide, or merge
/// two values `2^v` into one `2^(v+1)`.
pub proof fn lemma_resolve_weight(g: Seq<u8>, n: nat, m: Move)
    requires
        g.len() == n * n,
        forall|i: int| 0 <= i < g.len() ==> g[i] < 255,
    ensures
        weight(resolve_spec(g, n, m)) == weight(g),
{
    let r = resolve_spec(g, n, m);
    match m {
        Move::Left => {
            lemma_seq_sum_rows(g, n, n, cell_weight());
            lemma_seq_sum_rows(r, n, n, cell_weight());
            assert forall|t: int| 0 <= t < n implies
                seq_sum(#[trigger] row_of(r, n, t), cell_weight())
                    == seq_sum(row_of(g, n, t), cell_weight()) by {
                lemma_left_spec_row(g, n, t);
                lemma_row_cells(g, n, t);
                lemma_weight_collapse(row_of(g, n, t));
            }
            lemma_row_sum_eq(r, g, n, n, cell_weight());
        },
        Move::Right => {
            lemma_seq_sum_rows(g, n, n, cell_weight());
            lemma_seq_sum_rows(r, n, n, cell_weight());
            assert forall|t: int| 0 <= t < n implies
                seq_sum(#[trigger] row_of(r, n, t), cell_weight())
                    == seq_sum(row_of(g, n, t), cell_weight()) by {
                lemma_right_spec_row(g, n, t);
                lemma_row_cells(g, n, t);
                let row = row_of(g, n, t);
                lemma_weight_collapse(rev(row));
                lemma_seq_sum_rev(collapse(rev(row)), cell_weight());
                lemma_seq_sum_rev(row, cell_weight());
            }
            lemma_row_sum_eq(r, g, n, n, cell_weight());
        },
        Move::Up => {
            lemma_seq_sum_cols(g, n, n, cell_weight());
            lemma_seq_sum_cols(r, n, n, cell_weight());
            assert forall|t: int| 0 <= t < n implies
                seq_sum(#[trigger] col_of(r, n, n, t), cell_weight())
                    == seq_sum(col_of(g, n, n, t), cell_weight()) by {
                lemma_up_spec_col(g, n, t);
                lemma_col_cells(g, n, t);
                lemma_weight_collapse(col_of(g, n, n, t));
            }
            lemma_col_sum_eq(r, g, n, n, n, cell_weight());
        },
        Move::Down => {
            lemma_seq_sum_cols(g, n, n, cell_weight());
            lemma_seq_sum_cols(r, n, n, cell_weight());
            assert forall|t: int| 0 <= t < n implies
                seq_sum(#[trigger] col_of(r, n, n, t), cell_weight())
                    == seq_sum(col_of(g, n, n, t), cell_weight()) by {
                lemma_down_spec_col(g, n, t);
                lemma_col_cells(g, n, t);
                let col = col_of(g, n, n, t);
                lemma_weight_collapse(rev(col));
                lemma_seq_sum_rev(collapse(rev(col)), cell_weight());
                lemma_seq_sum_rev(col, cell_weight());
            }
            lemma_col_sum_eq(r, g, n, n, n, cell_weight());
        },
    }
}

/// Resolving a move never adds a tile: sliding keeps the tile count and
/// every merge lowers it by one.
pub proof fn lemma_resolve_occ(g: Seq<u8>, n: nat, m: Move)
    requires
        g.len() == n * n,
        forall|i: int| 0 <= i < g.len() ==> g[i] < 255,
    ensures
        occ_count(resolve_spec(g, n, m)) <= occ_count(g),
{
    let r = resolve_spec(g, n, m);
    match m {
        Move::Left => {
            lemma_seq_sum_rows(g, n, n, cell_occupancy());
            lemma_seq_sum_rows(r, n, n, cell_occupancy());
            assert forall|t: int| 0 <= t < n implies
                seq_sum(#[trigger] row_of(r, n, t), cell_occupancy())
                    <= seq_sum(row_of(g, n, t), cell_occupancy()) by {
                lemma_left_spec_row(g, n, t);
                lemma_row_cells(g, n, t);
                lemma_collapse_occ_score(row_of(g, n, t));
            }
            lemma_row_sum_le(r, g, n, n, cell_occupancy());
        },
        Move::Right => {
            lemma_seq_sum_rows(g, n, n, cell_occupancy());
            lemma_seq_sum_rows(r, n, n, cell_occupancy());
            assert forall|t: int| 0 <= t < n implies
                seq_sum(#[trigger] row_of(r, n, t), cell_occupancy())
                    <= seq_sum(row_of(g, n, t), cell_occupancy()) by {
                lemma_right_spec_row(g, n, t);
                lemma_row_cells(g, n, t);
                let row = row_of(g, n, t);
                lemma_collapse_occ_score(rev(row));
                lemma_seq_sum_rev(collapse(rev(row)), cell_occupancy());
                lemma_seq_sum_rev(row, cell_occupancy());
            }
            lemma_row_sum_le(r, g, n, n, cell_occupancy());
        },
        Move::Up => {
            lemma_seq_sum_cols(g, n, n, cell_occupancy());
            lemma_seq_sum_cols(r, n, n, cell_occupancy());
            assert forall|t: int| 0 <= t < n implies
                seq_sum(#[trigger] col_of(r, n, n, t), cell_occupancy())
                    <= seq_sum(col_of(g, n, n, t), cell_occupancy()) by {
                lemma_up_spec_col(g, n, t);
                lemma_col_cells(g, n, t);
                lemma_collapse_occ_score(col_of(g, n, n, t));
            }
            lemma_col_sum_le(r, g, n, n, n, cell_occupancy());
        },
        Move::Down => {
            lemma_seq_sum_cols(g, n, n, cell_occupancy());
            lemma_seq_sum_cols(r, n, n, cell_occupancy());
            assert forall|t: int| 0 <= t < n implies
                seq_sum(#[trigger] col_of(r, n, n, t), cell_occupancy())
                    <= seq_sum(col_of(g, n, n, t), cell_occupancy()) by {
                lemma_down_spec_col(g, n, t);
                lemma_col_cells(g, n, t);
                let col = col_of(g, n, n, t);
                lemma_collapse_occ_score(rev(col));
                lemma_seq_sum_rev(collapse(rev(col)), cell_occupancy());
                lemma_seq_sum_rev(col, cell_occupancy());
            }
            lemma_col_sum_le(r, g, n, n, n, cell_occupancy());
        },
    }
}

/// Resolving a move never lowers the score: sliding keeps it and every
/// merge trades a tile for one extra point of empty-cell score.
pub proof fn lemma_resolve_score(g: Seq<u8>, n: nat, m: Move)
    requires
        g.len() == n * n,
        forall|i: int| 0 <= i < g.len() ==> g[i] < 255,
    ensures
        score_of(resolve_spec(g, n, m)) + occ_count(resolve_spec(g, n, m))
            == score_of(g) + occ_count(g),
        occ_count(resolve_spec(g, n, m)) <= occ_count(g),
        score_of(resolve_spec(g, n, m)) >= score_of(g),
{
    lemma_resolve_weight(g, n, m);
    lemma_resolve_occ(g, n, m);
    lemma_score_decompose(g);
    lemma_score_decompose(resolve_spec(g, n, m));
}

/// A move that changes the board leaves at least one empty cell behind:
/// either the board already had one, or the change came from a merge, which
/// frees a cell.
pub proof fn lemma_resolve_keeps_zero(g: Seq<u8>, n: nat, m: Move)
    requires
        g.len() == n * n,
        resolve_spec(g, n, m) != g,
    ensures
        exists|i: int| 0 <= i < n * n && resolve_spec(g, n, m)[i] == 0,
{
    let r = resolve_spec(g, n, m);
    assert(r.len() == n * n);
    if forall|i: int| 0 <= i < n * n ==> #[trigger] r[i] == g[i] {
        assert(r =~= g);
    }
    let i0 = choose|i: int| 0 <= i < n * n && #[trigger] r[i] != g[i];
    assert(n >= 1) by (nonlinear_arith)
        requires
            0 <= i0 < n * n,
    ;
    vstd::arithmetic::div_mod::lemma_fundamental_div_mod(i0, n as int);
    vstd::arithmetic::div_mod::lemma_mod_bound(i0, n as int);
    let y = i0 / (n as int);
    let x = i0 % (n as int);
    assert(0 <= y < n) by (nonlinear_arith)
        requires
            i0 == (n as int) * y + x,
            0 <= x < n,
            0 <= i0 < n * n,
    ;
    assert(i0 == y * n + x);
    match m {
        Move::Left => {
            let row = row_of(g, n, y);
            lemma_left_spec_row(g, n, y);
            assert(row_of(r, n, y)[x] != row[x]);
            lemma_collapse_keeps_zero(row);
            lemma_collapse_len(row);
            let k = choose|k: int| 0 <= k < collapse(row).len() && collapse(row)[k] == 0;
            lemma_cell_index(y, k, n);
            assert(r[y * n + k] == 0);
        },
        Move::Right => {
            let row = row_of(g, n, y);
            lemma_right_spec_row(g, n, y);
            assert(row_of(r, n, y)[x] != row[x]);
            if collapse(rev(row)) == rev(row) {
                lemma_rev_involutive(row);
                assert(row_of(r, n, y)[x] == row[x]);
            }
            lemma_collapse_keeps_zero(rev(row));
            lemma_collapse_len(rev(row));
            let k = choose|k: int| 0 <= k < collapse(rev(row)).len() && collapse(rev(row))[k] == 0;
            assert(rev(collapse(rev(row)))[n - 1 - k] == 0);
            lemma_cell_index(y, n - 1 - k, n);
            assert(r[y * n + (n - 1 - k)] == 0);
        },
        Move::Up => {
            let col = col_of(g, n, n, x);
            lemma_up_spec_col(g, n, x);
            assert(col_of(r, n, n, x)[y] != col[y]);
            lemma_collapse_keeps_zero(col);
            lemma_collapse_len(col);
            let k = choose|k: int| 0 <= k < collapse(col).len() && collapse(col)[k] == 0;
            lemma_cell_index(k, x, n);
            assert(r[k * n + x] == 0);
        },
        Move::Down => {
            let col = col_of(g, n, n, x);
            lemma_down_spec_col(g, n, x);
            assert(col_of(r, n, n, x)[y] != col[y]);
            if collapse(rev(col)) == rev(col) {
                lemma_rev_involutive(col);
                assert(col_of(r, n, n, x)[y] == col[y]);
            }
            lemma_collapse_keeps_zero(rev(col));
            lemma_collapse_len(rev(col));
            let k = choose|k: int| 0 <= k < collapse(rev(col)).len() && collapse(rev(col))[k] == 0;
            assert(rev(collapse(rev(col)))[n - 1 - k] == 0);
            lemma_cell_index(n - 1 - k, x, n);
            assert(r[(n - 1 - k) * n + x] == 0);
        },
    }
}

} // verus!
