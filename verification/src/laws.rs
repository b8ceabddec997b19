//! The engine's governing properties, stated and proved once for all inputs.

use vstd::prelude::*;

use crate::game_structs::{placed_one, placement_step, Move, MAX_WEIGHT};
use crate::grid::{
    col_of, lemma_down_spec_col, lemma_left_spec_row, lemma_resolve_score, lemma_right_spec_row,
    lemma_up_spec_col, resolve_spec, row_of,
};
use crate::line::{
    cell_occupancy, cell_score, collapse, empties, lemma_merge_pairs_bound, lemma_merge_pairs_len,
    lemma_occ_count_full, lemma_occ_count_is_occupied_len, lemma_occ_count_partial,
    lemma_occupied_bound, lemma_occupied_concat, lemma_occupied_full, lemma_pow2_values,
    lemma_rev_involutive, lemma_seq_sum_concat, lemma_seq_sum_empties, lemma_seq_sum_update,
    lemma_weight_bounds_cells, merge_pairs, merged, occ_count, occupied, rev, score_of, weight,
};

verus! {

/// A run of `k` cells of magnitude `v`.
pub open spec fn run_of(v: u8, k: nat) -> Seq<u8> {
    Seq::new(k, |i: int| v)
}

/// One merge pass over a run of `k` equal tiles merges disjoint nearest
/// pairs, and nothing else: `k / 2` merged tiles, then `k % 2` leftover.
proof fn lemma_merge_pairs_run(v: u8, k: nat)
    requires
        0 < v < 255,
    ensures
        merge_pairs(run_of(v, k)) == run_of((v + 1) as u8, k / 2) + run_of(v, k % 2),
    decreases k,
{
    vstd::arithmetic::div_mod::lemma_fundamental_div_mod(k as int, 2);
    vstd::arithmetic::div_mod::lemma_mod_bound(k as int, 2);
    if k == 0 {
        assert(run_of(v, k) =~= Seq::<u8>::empty());
        assert(run_of((v + 1) as u8, 0) + run_of(v, 0) =~= Seq::<u8>::empty());
    } else if k == 1 {
        assert(run_of((v + 1) as u8, 0) + run_of(v, 1) =~= run_of(v, 1));
    } else {
        let s = run_of(v, k);
        assert(s[0] == v && s[1] == v);
        assert(s.skip(2) =~= run_of(v, (k - 2) as nat));
        lemma_merge_pairs_run(v, (k - 2) as nat);
        vstd::arithmetic::div_mod::lemma_fundamental_div_mod_converse(
            k - 2,
            2,
            k / 2 - 1,
            (k % 2) as int,
        );
        assert(((k - 2) as nat) / 2 == k / 2 - 1);
        assert(((k - 2) as nat) % 2 == k % 2);
        assert(merged(v) == (v + 1) as u8);
        assert(seq![merged(v)] + (run_of((v + 1) as u8, (k / 2 - 1) as nat) + run_of(
            v,
            k % 2,
        )) =~= run_of((v + 1) as u8, k / 2) + run_of(v, k % 2));
    }
}

/// Merge-once, on a line holding one run of equal tiles: a line whose
/// occupied cells are `k >= 2` tiles of magnitude `v` collapses to `k / 2`
/// tiles of magnitude `v + 1` and, for odd `k`, one leftover tile of
/// magnitude `v` — the nearest pairs merge once each, never in cascade.
pub proof fn law_merge_once_run(l: Seq<u8>, v: u8, k: nat)
    requires
        occupied(l) == run_of(v, k),
        0 < v < 255,
    ensures
        k <= l.len(),
        collapse(l) == run_of((v + 1) as u8, k / 2) + run_of(v, k % 2) + empties(
            (l.len() - (k / 2 + k % 2)) as nat,
        ),
{
    lemma_merge_pairs_run(v, k);
    lemma_occupied_bound(l, 255);
    vstd::arithmetic::div_mod::lemma_fundamental_div_mod(k as int, 2);
    vstd::arithmetic::div_mod::lemma_mod_bound(k as int, 2);
    let m = merge_pairs(occupied(l));
    assert(m.len() == k / 2 + k % 2);
    assert(collapse(l) == m + empties((l.len() - m.len()) as nat));
    assert(m + empties((l.len() - m.len()) as nat) =~= run_of((v + 1) as u8, k / 2) + run_of(
        v,
        k % 2,
    ) + empties((l.len() - (k / 2 + k % 2)) as nat));
}

/// A line is fully collapsed when its tiles sit flush against index 0 and
/// no two adjacent tiles share a magnitude.
pub open spec fn settled(l: Seq<u8>) -> bool {
    &&& forall|i: int, j: int| 0 <= i < j < l.len() && #[trigger] l[i] == 0 ==> #[trigger] l[j] == 0
    &&& forall|i: int|
        0 <= i < l.len() - 1 && #[trigger] l[i] != 0 && l[i + 1] != 0 ==> l[i] != l[i + 1]
}

/// Idempotence of fully collapsed lines: a settled line is a fixed point of
/// the collapse, so resolving the same direction again changes nothing.
pub proof fn law_collapsed_fixed_point(l: Seq<u8>)
    requires
        settled(l),
    ensures
        collapse(l) == l,
    decreases l.len(),
{
    if l.len() == 0 {
        assert(occupied(l) == Seq::<u8>::empty());
        assert(collapse(l) =~= l);
    } else if l[0] == 0 {
        assert(forall|j: int| 0 <= j < l.len() ==> l[j] == 0);
        assert(l =~= empties(l.len()));
        assert(cell_occupancy()(0u8) == 0);
        lemma_seq_sum_empties(l.len(), cell_occupancy());
        lemma_occ_count_is_occupied_len(l);
        assert(occupied(l).len() == 0);
        assert(occupied(l) =~= Seq::<u8>::empty());
        assert(merge_pairs(occupied(l)) == Seq::<u8>::empty());
        assert(collapse(l) =~= l);
    } else {
        let t = l.skip(1);
        assert(forall|i: int, j: int|
            0 <= i < j < t.len() && #[trigger] t[i] == 0 ==> #[trigger] t[j] == 0) by {
            assert(forall|i: int| 0 <= i < t.len() ==> t[i] == l[i + 1]);
        }
        assert(forall|i: int|
            0 <= i < t.len() - 1 && #[trigger] t[i] != 0 && t[i + 1] != 0 ==> t[i] != t[i + 1]) by {
            assert(forall|i: int| 0 <= i < t.len() ==> t[i] == l[i + 1]);
        }
        law_collapsed_fixed_point(t);
        assert(occupied(l) == seq![l[0]] + occupied(t));
        let mt = merge_pairs(occupied(t));
        lemma_occupied_bound(t, 255);
        lemma_merge_pairs_len(occupied(t));
        if occupied(t).len() == 0 {
            assert(occupied(t) =~= Seq::<u8>::empty());
            assert(occupied(l) =~= seq![l[0]]);
            assert(merge_pairs(occupied(l)) == occupied(l));
            assert(mt =~= Seq::<u8>::empty());
            assert(collapse(t) == mt + empties((t.len() - mt.len()) as nat));
            assert(collapse(t) =~= empties(t.len()));
            assert(collapse(l) == occupied(l) + empties((l.len() - 1) as nat));
            assert(collapse(l) =~= seq![l[0]] + t);
            assert(seq![l[0]] + t =~= l);
        } else {
            // The tail's first cell holds a tile: a gap before it would,
            // by flushness, empty the whole tail.
            if t[0] == 0 {
                assert(forall|j: int| 0 <= j < t.len() ==> #[trigger] t[j] == 0);
                assert(cell_occupancy()(0u8) == 0);
                assert(t =~= empties(t.len()));
                lemma_seq_sum_empties(t.len(), cell_occupancy());
                lemma_occ_count_is_occupied_len(t);
            }
            assert(t[0] != 0);
            assert(occupied(t)[0] == t[0]) by {
                assert(occupied(t) == seq![t[0]] + occupied(t.skip(1)));
            }
            assert(l[1] != 0 && l[0] != l[1]);
            assert(occupied(l)[0] == l[0] && occupied(l)[1] == t[0]);
            assert(occupied(l).skip(1) =~= occupied(t));
            assert(merge_pairs(occupied(l)) == seq![l[0]] + mt);
            assert(collapse(t) == mt + empties((t.len() - mt.len()) as nat));
            assert(collapse(l) == (seq![l[0]] + mt) + empties((l.len() - 1 - mt.len()) as nat));
            assert((seq![l[0]] + mt) + empties((l.len() - 1 - mt.len()) as nat) =~= seq![l[0]]
                + collapse(t));
            assert(seq![l[0]] + t =~= l);
        }
    }
}

/// One merge pass that returns its input unchanged found no adjacent equal
/// pair to merge.
proof fn lemma_merge_pairs_identity_distinct(s: Seq<u8>)
    requires
        merge_pairs(s) == s,
    ensures
        forall|i: int| 0 <= i < s.len() - 1 ==> #[trigger] s[i] != s[i + 1],
    decreases s.len(),
{
    if s.len() <= 1 {
    } else if s[0] == s[1] {
        lemma_merge_pairs_len(s.skip(2));
        assert(merge_pairs(s).len() <= 1 + s.skip(2).len());
    } else {
        assert(merge_pairs(s) == seq![s[0]] + merge_pairs(s.skip(1)));
        lemma_merge_pairs_len(s.skip(1));
        assert(merge_pairs(s.skip(1)) =~= s.skip(1));
        lemma_merge_pairs_identity_distinct(s.skip(1));
        assert forall|i: int| 0 <= i < s.len() - 1 implies #[trigger] s[i] != s[i + 1] by {
            if i >= 1 {
                assert(s.skip(1)[i - 1] == s[i] && s.skip(1)[i] == s[i + 1]);
            }
        }
    }
}

/// Merging keeps tiles tiles: no cell of a merge pass over tiles is empty.
proof fn lemma_merge_pairs_nonzero(s: Seq<u8>)
    requires
        forall|i: int| 0 <= i < s.len() ==> s[i] != 0,
    ensures
        forall|i: int| 0 <= i < merge_pairs(s).len() ==> #[trigger] merge_pairs(s)[i] != 0,
    decreases s.len(),
{
    if s.len() <= 1 {
    } else if s[0] == s[1] {
        assert(forall|i: int| 0 <= i < s.skip(2).len() ==> s.skip(2)[i] != 0);
        lemma_merge_pairs_nonzero(s.skip(2));
        assert(merge_pairs(s)[0] == merged(s[0]));
        assert(forall|i: int| 1 <= i < merge_pairs(s).len()
            ==> merge_pairs(s)[i] == merge_pairs(s.skip(2))[i - 1]);
    } else {
        assert(forall|i: int| 0 <= i < s.skip(1).len() ==> s.skip(1)[i] != 0);
        lemma_merge_pairs_nonzero(s.skip(1));
        assert(forall|i: int| 1 <= i < merge_pairs(s).len()
            ==> merge_pairs(s)[i] == merge_pairs(s.skip(1))[i - 1]);
    }
}

/// The converse of the fixed-point law: a line the collapse leaves alone was
/// settled already. Together the two laws say a line is a fixed point of the
/// collapse exactly when it is fully collapsed.
pub proof fn law_fixed_point_settled(l: Seq<u8>)
    requires
        collapse(l) == l,
    ensures
        settled(l),
{
    let o = occupied(l);
    lemma_occupied_bound(l, 255);
    lemma_merge_pairs_len(o);
    lemma_merge_pairs_nonzero(o);
    let m = merge_pairs(o);
    let pad = empties((l.len() - m.len()) as nat);
    assert(l == m + pad);
    assert(forall|i: int| 0 <= i < m.len() ==> l[i] == m[i]);
    assert(forall|i: int| m.len() <= i < l.len() ==> l[i] == 0);
    assert forall|i: int, j: int| 0 <= i < j < l.len() && #[trigger] l[i] == 0 implies
        #[trigger] l[j] == 0 by {
        assert(i >= m.len());
    }
    assert(l.take(m.len() as int) =~= m);
    assert(l.skip(m.len() as int) =~= pad);
    assert(l.take(m.len() as int) + l.skip(m.len() as int) =~= l);
    lemma_occupied_concat(l.take(m.len() as int), l.skip(m.len() as int));
    lemma_occupied_full(m);
    assert(cell_occupancy()(0u8) == 0);
    lemma_seq_sum_empties((l.len() - m.len()) as nat, cell_occupancy());
    lemma_occ_count_is_occupied_len(pad);
    assert(occupied(pad) =~= Seq::<u8>::empty());
    assert(m + Seq::<u8>::empty() =~= m);
    assert(o == m);
    lemma_merge_pairs_identity_distinct(o);
    assert forall|i: int|
        0 <= i < l.len() - 1 && #[trigger] l[i] != 0 && l[i + 1] != 0 implies l[i] != l[i + 1] by {
        assert(i < m.len() && i + 1 < m.len());
        assert(o[i] == l[i] && o[i + 1] == l[i + 1]);
    }
}

/// The `t`-th line the given move collapses, read toward its target edge:
/// rows for Left and Right, columns for Up and Down, reversed for the moves
/// toward the far edge.
pub open spec fn line_of(g: Seq<u8>, n: nat, m: Move, t: int) -> Seq<u8> {
    match m {
        Move::Left => row_of(g, n, t),
        Move::Right => rev(row_of(g, n, t)),
        Move::Up => col_of(g, n, n, t),
        Move::Down => rev(col_of(g, n, n, t)),
    }
}

/// A board all of whose lines along a direction are settled is a fixed point
/// of that move, so applying the move again is rejected as illegal rather
/// than repeated.
pub proof fn law_settled_lines_fixed(g: Seq<u8>, n: nat, m: Move)
    requires
        g.len() == n * n,
        forall|t: int| 0 <= t < n ==> settled(#[trigger] line_of(g, n, m, t)),
    ensures
        resolve_spec(g, n, m) == g,
{
    let r = resolve_spec(g, n, m);
    assert forall|i: int| 0 <= i < n * n implies #[trigger] r[i] == g[i] by {
        assert(n >= 1) by (nonlinear_arith)
            requires
                0 <= i < n * n,
        ;
        vstd::arithmetic::div_mod::lemma_fundamental_div_mod(i, n as int);
        vstd::arithmetic::div_mod::lemma_mod_bound(i, n as int);
        let y = i / (n as int);
        let x = i % (n as int);
        assert(0 <= y < n) by (nonlinear_arith)
            requires
                i == (n as int) * y + x,
                0 <= x < n,
                0 <= i < n * n,
        ;
        assert(i == y * n + x) by (nonlinear_arith)
            requires
                i == (n as int) * y + x,
        ;
        match m {
            Move::Left => {
                assert(settled(line_of(g, n, m, y)));
                lemma_left_spec_row(g, n, y);
                law_collapsed_fixed_point(row_of(g, n, y));
                assert(row_of(r, n, y)[x] == row_of(g, n, y)[x]);
            },
            Move::Right => {
                assert(settled(line_of(g, n, m, y)));
                lemma_right_spec_row(g, n, y);
                law_collapsed_fixed_point(rev(row_of(g, n, y)));
                lemma_rev_involutive(row_of(g, n, y));
                assert(row_of(r, n, y)[x] == row_of(g, n, y)[x]);
            },
            Move::Up => {
                assert(settled(line_of(g, n, m, x)));
                lemma_up_spec_col(g, n, x);
                law_collapsed_fixed_point(col_of(g, n, n, x));
                assert(col_of(r, n, n, x)[y] == col_of(g, n, n, x)[y]);
            },
            Move::Down => {
                assert(settled(line_of(g, n, m, x)));
                lemma_down_spec_col(g, n, x);
                law_collapsed_fixed_point(rev(col_of(g, n, n, x)));
                lemma_rev_involutive(col_of(g, n, n, x));
                assert(col_of(r, n, n, x)[y] == col_of(g, n, n, x)[y]);
            },
        }
    }
    assert(r =~= g);
}

/// One merge pass keeps at least half of its tiles: each surviving tile
/// absorbed at most one other.
proof fn lemma_merge_pairs_min_len(s: Seq<u8>)
    ensures
        2 * merge_pairs(s).len() >= s.len(),
    decreases s.len(),
{
    if s.len() <= 1 {
    } else if s[0] == s[1] {
        lemma_merge_pairs_min_len(s.skip(2));
    } else {
        lemma_merge_pairs_min_len(s.skip(1));
    }
}

/// Merge-once, counted: collapsing a line never removes more than half of
/// its tiles, so a cascade collapsing a whole chain of equal tiles into one
/// is impossible — on top of never adding tiles.
pub proof fn law_merge_keeps_half(l: Seq<u8>)
    requires
        forall|i: int| 0 <= i < l.len() ==> l[i] < 255,
    ensures
        occ_count(collapse(l)) <= occ_count(l),
        2 * occ_count(collapse(l)) >= occ_count(l),
{
    lemma_occupied_bound(l, 254);
    lemma_merge_pairs_len(occupied(l));
    lemma_merge_pairs_bound(occupied(l), 254);
    let m = merge_pairs(occupied(l));
    lemma_seq_sum_concat(m, empties((l.len() - m.len()) as nat), cell_occupancy());
    assert(cell_occupancy()(0u8) == 0);
    lemma_seq_sum_empties((l.len() - m.len()) as nat, cell_occupancy());
    lemma_occ_count_full(m);
    lemma_occ_count_is_occupied_len(l);
    lemma_merge_pairs_min_len(occupied(l));
}

/// Placement never lowers the score: the new tile scores `2^1` or `2^2`
/// where the empty cell it fills scored 1; and an actual placement raises
/// the score strictly.
pub proof fn law_placement_score(a: Seq<u8>, b: Seq<u8>)
    requires
        placement_step(a, b),
    ensures
        score_of(b) >= score_of(a),
        placed_one(a, b) ==> score_of(b) > score_of(a),
{
    if exists|i: int| 0 <= i < a.len() && a[i] != b[i] {
        let i = choose|i: int| 0 <= i < a.len() && a[i] != b[i];
        assert(forall|j: int| 0 <= j < a.len() && j != i ==> a[j] == #[trigger] b[j]);
        lemma_seq_sum_update(a, b, i, cell_score());
        lemma_pow2_values();
        assert(cell_score()(a[i]) == 1);
        assert(cell_score()(b[i]) == 2 || cell_score()(b[i]) == 4);
    } else {
        assert(a =~= b);
    }
}

/// Score monotonicity over one legal move: resolving only conserves or
/// raises the score, and the placement that follows raises it further, so
/// the score after a legal move is at least — with a real placement, more
/// than — the score before it.
pub proof fn law_move_score(pre: Seq<u8>, post: Seq<u8>, n: nat, m: Move)
    requires
        pre.len() == n * n,
        weight(pre) <= MAX_WEIGHT,
        placement_step(resolve_spec(pre, n, m), post),
    ensures
        score_of(post) >= score_of(pre),
        placed_one(resolve_spec(pre, n, m), post) ==> score_of(post) > score_of(pre),
{
    lemma_weight_bounds_cells(pre);
    lemma_resolve_score(pre, n, m);
    law_placement_score(resolve_spec(pre, n, m), post);
}

/// Termination boundedness, one step at a time: a legal move whose
/// resolution merges nothing leaves the tile count unchanged, so its
/// placement raises the count by exactly one — and the count can never pass
/// the number of cells. A run of merge-free legal moves is therefore no
/// longer than the number of empty cells on the board it starts from.
pub proof fn law_merge_free_move_fills(pre: Seq<u8>, post: Seq<u8>, n: nat, m: Move)
    requires
        pre.len() == n * n,
        weight(pre) <= MAX_WEIGHT,
        occ_count(resolve_spec(pre, n, m)) == occ_count(pre),
        placed_one(resolve_spec(pre, n, m), post),
    ensures
        occ_count(post) == occ_count(pre) + 1,
        occ_count(post) <= n * n,
{
    let r = resolve_spec(pre, n, m);
    let i = choose|i: int| 0 <= i < r.len() && r[i] != post[i];
    assert(forall|j: int| 0 <= j < r.len() && j != i ==> r[j] == #[trigger] post[j]);
    lemma_seq_sum_update(r, post, i, cell_occupancy());
    assert(cell_occupancy()(r[i]) == 0);
    assert(cell_occupancy()(post[i]) == 1);
    lemma_occ_count_partial(post);
}

} // verus!
