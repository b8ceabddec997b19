//! One line of the board, and its collapse toward index 0.
//!
//! A line is a row or a column along the axis of motion. Cell values are
//! magnitudes: `0` is an empty cell, `k > 0` stands for a displayed tile of
//! value `2^k`. Collapsing a line slides every tile toward index 0 and merges
//! adjacent equal tiles, nearest pair first, at most once per tile: the result
//! of a merge never merges again in the same move.

use vstd::prelude::*;

verus! {

/// Largest magnitude a well-formed board can hold; the displayed value of a
/// tile of magnitude `k` is `2^k`.
pub const MAX_MAGNITUDE: u8 = 31;

/// The magnitudes of the occupied cells of a line, in order.
pub open spec fn occupied(l: Seq<u8>) -> Seq<u8>
    decreases l.len(),
{
    if l.len() == 0 {
        Seq::empty()
    } else if l[0] == 0 {
        occupied(l.skip(1))
    } else {
        seq![l[0]] + occupied(l.skip(1))
    }
}

/// The magnitude of the tile made by merging two tiles of magnitude `v`
/// (their displayed values add up to `2^(v+1)`). Saturates at the top of `u8`
/// to stay total; boards in range never reach that point.
pub open spec fn merged(v: u8) -> u8 {
    if v < 255 {
        (v + 1) as u8
    } else {
        v
    }
}

/// One greedy pass over the occupied cells: the nearest adjacent equal pair
/// merges, and the merge result takes no further part in the pass.
pub open spec fn merge_pairs(s: Seq<u8>) -> Seq<u8>
    decreases s.len(),
{
    if s.len() <= 1 {
        s
    } else if s[0] == s[1] {
        seq![merged(s[0])] + merge_pairs(s.skip(2))
    } else {
        seq![s[0]] + merge_pairs(s.skip(1))
    }
}

/// A run of `k` empty cells.
pub open spec fn empties(k: nat) -> Seq<u8> {
    Seq::new(k, |i: int| 0u8)
}

/// The collapse of a line toward index 0: the occupied cells slide over the
/// empties, adjacent equal pairs merge once, and empty cells pad the tail
/// back to the line's length.
pub open spec fn collapse(l: Seq<u8>) -> Seq<u8> {
    let m = merge_pairs(occupied(l));
    if m.len() <= l.len() {
        m + empties((l.len() - m.len()) as nat)
    } else {
        m
    }
}

/// The line read in the opposite direction; collapsing away from index 0 is
/// collapsing the reversed line toward it.
pub open spec fn rev(s: Seq<u8>) -> Seq<u8> {
    Seq::new(s.len(), |i: int| s[s.len() - 1 - i])
}

/// `2^e`.
pub open spec fn pow2(e: nat) -> nat
    decreases e,
{
    if e == 0 {
        1
    } else {
        2 * pow2((e - 1) as nat)
    }
}

/// The displayed value of one cell: `2^k` for a tile of magnitude `k`,
/// nothing for an empty cell.
pub open spec fn tile_value(v: u8) -> nat {
    if v == 0 {
        0
    } else {
        pow2(v as nat)
    }
}

/// Reversing twice gives the line back.
pub proof fn lemma_rev_involutive(s: Seq<u8>)
    ensures
        rev(rev(s)) == s,
{
    assert(rev(rev(s)) =~= s);
}

/// Doubling at every step, `pow2` never decreases.
pub proof fn lemma_pow2_monotone(a: nat, b: nat)
    requires
        a <= b,
    ensures
        pow2(a) <= pow2(b),
    decreases b,
{
    if a < b {
        lemma_pow2_monotone(a, (b - 1) as nat);
    }
}

/// The handful of concrete powers of two the contracts lean on.
pub proof fn lemma_pow2_values()
    ensures
        pow2(0) == 1,
        pow2(1) == 2,
        pow2(2) == 4,
        pow2(31) == 2147483648,
        pow2(32) == 4294967296,
{
    reveal_with_fuel(pow2, 33);
}

/// A line whose weight stays within `2^31` holds no magnitude above
/// [`MAX_MAGNITUDE`]: one tile never outweighs the whole line.
pub proof fn lemma_weight_bounds_cells(l: Seq<u8>)
    requires
        weight(l) <= 2147483648,
    ensures
        forall|i: int| 0 <= i < l.len() ==> #[trigger] l[i] <= MAX_MAGNITUDE,
{
    assert forall|i: int| 0 <= i < l.len() implies #[trigger] l[i] <= MAX_MAGNITUDE by {
        if l[i] > MAX_MAGNITUDE {
            lemma_seq_sum_cell(l, i, cell_weight());
            assert(cell_weight()(l[i]) == pow2(l[i] as nat));
            lemma_pow2_monotone(32, l[i] as nat);
            lemma_pow2_values();
        }
    }
}

/// The sum of a per-cell measure over a line.
pub open spec fn seq_sum(l: Seq<u8>, f: spec_fn(u8) -> nat) -> nat
    decreases l.len(),
{
    if l.len() == 0 {
        0
    } else {
        f(l[0]) + seq_sum(l.skip(1), f)
    }
}

/// The measure behind [`weight`]: the displayed value of one cell.
pub open spec fn cell_weight() -> spec_fn(u8) -> nat {
    |v: u8| tile_value(v)
}

/// The measure behind [`score_of`]: `2^magnitude`, so an empty cell counts 1.
pub open spec fn cell_score() -> spec_fn(u8) -> nat {
    |v: u8| pow2(v as nat)
}

/// The measure behind [`occ_count`]: 1 for a tile, 0 for an empty cell.
pub open spec fn cell_occupancy() -> spec_fn(u8) -> nat {
    |v: u8| if v == 0 { 0nat } else { 1nat }
}

/// The total displayed value of the occupied cells of a line. A merge
/// conserves it: two tiles of value `2^v` become one of value `2^(v+1)`.
pub open spec fn weight(l: Seq<u8>) -> nat {
    seq_sum(l, cell_weight())
}

/// The score contribution of a line: the sum of `2^magnitude` over all its
/// cells, an empty cell contributing `2^0 = 1`.
pub open spec fn score_of(l: Seq<u8>) -> nat {
    seq_sum(l, cell_score())
}

/// How many cells of the line hold a tile.
pub open spec fn occ_count(l: Seq<u8>) -> nat {
    seq_sum(l, cell_occupancy())
}

/// `occupied` keeps at most as many cells as the line has, keeps every cell
/// nonzero, and keeps every bound the line's cells obey.
pub proof fn lemma_occupied_bound(l: Seq<u8>, b: u8)
    requires
        forall|i: int| 0 <= i < l.len() ==> l[i] <= b,
    ensures
        occupied(l).len() <= l.len(),
        forall|i: int| 0 <= i < occupied(l).len() ==> 0 < #[trigger] occupied(l)[i] <= b,
    decreases l.len(),
{
    if l.len() == 0 {
    } else {
        assert(forall|i: int| 0 <= i < l.skip(1).len() ==> l.skip(1)[i] <= b);
        lemma_occupied_bound(l.skip(1), b);
    }
}

/// `occupied` distributes over concatenation.
pub proof fn lemma_occupied_concat(a: Seq<u8>, b: Seq<u8>)
    ensures
        occupied(a + b) == occupied(a) + occupied(b),
    decreases a.len(),
{
    if a.len() == 0 {
        assert(a + b =~= b);
        assert(occupied(a) + occupied(b) =~= occupied(b));
    } else {
        lemma_occupied_concat(a.skip(1), b);
        assert((a + b).skip(1) =~= a.skip(1) + b);
        assert((a + b)[0] == a[0]);
        if a[0] == 0 {
            assert(occupied(a + b) == occupied(a.skip(1) + b));
        } else {
            assert(occupied(a + b) == seq![a[0]] + (occupied(a.skip(1)) + occupied(b)));
            assert(seq![a[0]] + (occupied(a.skip(1)) + occupied(b))
                =~= (seq![a[0]] + occupied(a.skip(1))) + occupied(b));
        }
    }
}

/// A line with no empty cell is its own `occupied` sequence.
pub proof fn lemma_occupied_full(l: Seq<u8>)
    requires
        forall|i: int| 0 <= i < l.len() ==> l[i] != 0,
    ensures
        occupied(l) == l,
    decreases l.len(),
{
    if l.len() == 0 {
        assert(occupied(l) =~= l);
    } else {
        assert(forall|i: int| 0 <= i < l.skip(1).len() ==> l.skip(1)[i] != 0);
        lemma_occupied_full(l.skip(1));
        assert(seq![l[0]] + l.skip(1) =~= l);
    }
}

/// One merge pass never lengthens the sequence, and only shortens it when at
/// least one pair actually merges.
pub proof fn lemma_merge_pairs_len(s: Seq<u8>)
    ensures
        merge_pairs(s).len() <= s.len(),
        merge_pairs(s).len() == s.len() ==> merge_pairs(s) == s,
    decreases s.len(),
{
    if s.len() <= 1 {
    } else if s[0] == s[1] {
        lemma_merge_pairs_len(s.skip(2));
    } else {
        lemma_merge_pairs_len(s.skip(1));
        if merge_pairs(s).len() == s.len() {
            assert(merge_pairs(s.skip(1)) == s.skip(1));
            assert(seq![s[0]] + s.skip(1) =~= s);
        }
    }
}

/// Merging keeps every cell occupied and raises no magnitude by more than one.
pub proof fn lemma_merge_pairs_bound(s: Seq<u8>, b: u8)
    requires
        b <= 254,
        forall|i: int| 0 <= i < s.len() ==> 0 < #[trigger] s[i] <= b,
    ensures
        forall|i: int| 0 <= i < merge_pairs(s).len() ==> 0 < #[trigger] merge_pairs(s)[i] <= b + 1,
    decreases s.len(),
{
    if s.len() <= 1 {
    } else if s[0] == s[1] {
        assert(forall|i: int| 0 <= i < s.skip(2).len() ==> 0 < #[trigger] s.skip(2)[i] <= b);
        lemma_merge_pairs_bound(s.skip(2), b);
        assert(merge_pairs(s)[0] == merged(s[0]));
        assert(forall|i: int| 1 <= i < merge_pairs(s).len()
            ==> merge_pairs(s)[i] == merge_pairs(s.skip(2))[i - 1]);
    } else {
        assert(forall|i: int| 0 <= i < s.skip(1).len() ==> 0 < #[trigger] s.skip(1)[i] <= b);
        lemma_merge_pairs_bound(s.skip(1), b);
        assert(forall|i: int| 1 <= i < merge_pairs(s).len()
            ==> merge_pairs(s)[i] == merge_pairs(s.skip(1))[i - 1]);
    }
}

/// A collapsed line has exactly the length of the line it came from.
pub proof fn lemma_collapse_len(l: Seq<u8>)
    ensures
        collapse(l).len() == l.len(),
{
    lemma_occupied_bound(l, 255);
    lemma_merge_pairs_len(occupied(l));
}

/// The sum over a one-cell line is that cell's measure.
pub proof fn lemma_seq_sum_singleton(x: u8, f: spec_fn(u8) -> nat)
    ensures
        seq_sum(seq![x], f) == f(x),
{
    assert(seq![x].skip(1) =~= Seq::<u8>::empty());
    assert(seq_sum(Seq::<u8>::empty(), f) == 0);
}

/// Sums add up over concatenation.
pub proof fn lemma_seq_sum_concat(a: Seq<u8>, b: Seq<u8>, f: spec_fn(u8) -> nat)
    ensures
        seq_sum(a + b, f) == seq_sum(a, f) + seq_sum(b, f),
    decreases a.len(),
{
    if a.len() == 0 {
        assert(a + b =~= b);
    } else {
        lemma_seq_sum_concat(a.skip(1), b, f);
        assert((a + b).skip(1) =~= a.skip(1) + b);
        assert((a + b)[0] == a[0]);
    }
}

/// Reading a line backwards does not change a sum over it.
pub proof fn lemma_seq_sum_rev(s: Seq<u8>, f: spec_fn(u8) -> nat)
    ensures
        seq_sum(rev(s), f) == seq_sum(s, f),
    decreases s.len(),
{
    if s.len() == 0 {
        assert(rev(s) =~= s);
    } else {
        let head = s.take(s.len() - 1);
        let last = s[s.len() - 1];
        lemma_seq_sum_rev(head, f);
        assert(rev(s) =~= seq![last] + rev(head));
        lemma_seq_sum_concat(seq![last], rev(head), f);
        lemma_seq_sum_singleton(last, f);
        assert(s =~= head + seq![last]);
        lemma_seq_sum_concat(head, seq![last], f);
    }
}

/// No cell's measure exceeds the sum over the whole line.
pub proof fn lemma_seq_sum_cell(l: Seq<u8>, i: int, f: spec_fn(u8) -> nat)
    requires
        0 <= i < l.len(),
    ensures
        f(l[i]) <= seq_sum(l, f),
    decreases l.len(),
{
    if i > 0 {
        lemma_seq_sum_cell(l.skip(1), i - 1, f);
    }
}

/// A measure that ignores empty cells sums to zero over a run of them.
pub proof fn lemma_seq_sum_empties(k: nat, f: spec_fn(u8) -> nat)
    requires
        f(0u8) == 0,
    ensures
        seq_sum(empties(k), f) == 0,
    decreases k,
{
    if k > 0 {
        assert(empties(k).skip(1) =~= empties((k - 1) as nat));
        lemma_seq_sum_empties((k - 1) as nat, f);
    }
}

/// Changing a single cell moves a sum by exactly that cell's measure.
pub proof fn lemma_seq_sum_update(a: Seq<u8>, b: Seq<u8>, i: int, f: spec_fn(u8) -> nat)
    requires
        a.len() == b.len(),
        0 <= i < a.len(),
        forall|j: int| 0 <= j < a.len() && j != i ==> a[j] == b[j],
    ensures
        seq_sum(b, f) + f(a[i]) == seq_sum(a, f) + f(b[i]),
    decreases a.len(),
{
    if i == 0 {
        assert(a.skip(1) =~= b.skip(1));
    } else {
        assert(a.skip(1)[i - 1] == a[i] && b.skip(1)[i - 1] == b[i]);
        lemma_seq_sum_update(a.skip(1), b.skip(1), i - 1, f);
        assert(a[0] == b[0]);
    }
}

/// A measure that ignores empty cells sees only the occupied cells.
pub proof fn lemma_seq_sum_occupied(l: Seq<u8>, f: spec_fn(u8) -> nat)
    requires
        f(0u8) == 0,
    ensures
        seq_sum(occupied(l), f) == seq_sum(l, f),
    decreases l.len(),
{
    if l.len() == 0 {
    } else {
        lemma_seq_sum_occupied(l.skip(1), f);
        if l[0] != 0 {
            lemma_seq_sum_concat(seq![l[0]], occupied(l.skip(1)), f);
            lemma_seq_sum_singleton(l[0], f);
        }
    }
}

/// Merging conserves weight: two tiles of value `2^v` become one of `2^(v+1)`.
pub proof fn lemma_weight_merge_pairs(s: Seq<u8>)
    requires
        forall|i: int| 0 <= i < s.len() ==> 0 < #[trigger] s[i] < 255,
    ensures
        weight(merge_pairs(s)) == weight(s),
    decreases s.len(),
{
    if s.len() <= 1 {
    } else if s[0] == s[1] {
        let v = s[0];
        assert(forall|i: int| 0 <= i < s.skip(2).len() ==> 0 < #[trigger] s.skip(2)[i] < 255);
        lemma_weight_merge_pairs(s.skip(2));
        lemma_seq_sum_concat(seq![merged(v)], merge_pairs(s.skip(2)), cell_weight());
        lemma_seq_sum_singleton(merged(v), cell_weight());
        assert(s.skip(1).skip(1) =~= s.skip(2));
        assert(s.skip(1)[0] == s[1]);
        assert(seq_sum(s.skip(1), cell_weight())
            == cell_weight()(s.skip(1)[0]) + seq_sum(s.skip(1).skip(1), cell_weight()));
        assert(seq_sum(s, cell_weight())
            == cell_weight()(v) + cell_weight()(v) + seq_sum(s.skip(2), cell_weight()));
        assert(tile_value(merged(v)) == pow2((v + 1) as nat));
        assert(pow2((v + 1) as nat) == 2 * pow2(v as nat));
        assert(cell_weight()(merged(v)) == cell_weight()(v) + cell_weight()(v));
    } else {
        assert(forall|i: int| 0 <= i < s.skip(1).len() ==> 0 < #[trigger] s.skip(1)[i] < 255);
        lemma_weight_merge_pairs(s.skip(1));
        lemma_seq_sum_concat(seq![s[0]], merge_pairs(s.skip(1)), cell_weight());
        lemma_seq_sum_singleton(s[0], cell_weight());
    }
}

/// A line with no empty cell has as many tiles as cells.
pub proof fn lemma_occ_count_full(s: Seq<u8>)
    requires
        forall|i: int| 0 <= i < s.len() ==> s[i] != 0,
    ensures
        occ_count(s) == s.len(),
    decreases s.len(),
{
    if s.len() > 0 {
        assert(forall|i: int| 0 <= i < s.skip(1).len() ==> s.skip(1)[i] != 0);
        lemma_occ_count_full(s.skip(1));
    }
}

/// A line with an empty cell has fewer tiles than cells; in particular the
/// tile count never exceeds the cell count.
pub proof fn lemma_occ_count_partial(l: Seq<u8>)
    ensures
        occ_count(l) <= l.len(),
        (exists|i: int| 0 <= i < l.len() && l[i] == 0) ==> occ_count(l) < l.len(),
    decreases l.len(),
{
    if l.len() > 0 {
        lemma_occ_count_partial(l.skip(1));
        if exists|i: int| 0 <= i < l.len() && l[i] == 0 {
            let i = choose|i: int| 0 <= i < l.len() && l[i] == 0;
            if i > 0 {
                assert(l.skip(1)[i - 1] == 0);
            }
        }
    }
}

/// The tile count of a line is the length of its `occupied` sequence.
pub proof fn lemma_occ_count_is_occupied_len(l: Seq<u8>)
    ensures
        occ_count(l) == occupied(l).len(),
{
    assert(cell_occupancy()(0u8) == 0);
    lemma_seq_sum_occupied(l, cell_occupancy());
    lemma_occupied_bound(l, 255);
    lemma_occ_count_full(occupied(l));
}

/// Score, weight and tile count are tied together: every cell scores its
/// displayed value, and every empty cell scores 1 on top of its zero weight.
pub proof fn lemma_score_decompose(l: Seq<u8>)
    ensures
        score_of(l) + occ_count(l) == weight(l) + l.len(),
    decreases l.len(),
{
    if l.len() > 0 {
        lemma_score_decompose(l.skip(1));
        if l[0] == 0 {
            assert(cell_score()(l[0]) == pow2(0) && pow2(0) == 1);
        }
    }
}

/// Collapsing a line conserves its weight.
pub proof fn lemma_weight_collapse(l: Seq<u8>)
    requires
        forall|i: int| 0 <= i < l.len() ==> l[i] < 255,
    ensures
        weight(collapse(l)) == weight(l),
{
    lemma_occupied_bound(l, 254);
    assert(cell_weight()(0u8) == 0);
    lemma_seq_sum_occupied(l, cell_weight());
    lemma_weight_merge_pairs(occupied(l));
    lemma_merge_pairs_len(occupied(l));
    let m = merge_pairs(occupied(l));
    lemma_seq_sum_concat(m, empties((l.len() - m.len()) as nat), cell_weight());
    lemma_seq_sum_empties((l.len() - m.len()) as nat, cell_weight());
}

/// Collapsing never adds a tile, and each merge trades one tile for one
/// point of score: score and tile count move together, in step.
pub proof fn lemma_collapse_occ_score(l: Seq<u8>)
    requires
        forall|i: int| 0 <= i < l.len() ==> l[i] < 255,
    ensures
        occ_count(collapse(l)) <= occ_count(l),
        score_of(collapse(l)) + occ_count(collapse(l)) == score_of(l) + occ_count(l),
{
    lemma_occupied_bound(l, 254);
    lemma_merge_pairs_len(occupied(l));
    lemma_merge_pairs_bound(occupied(l), 254);
    let m = merge_pairs(occupied(l));
    lemma_seq_sum_concat(m, empties((l.len() - m.len()) as nat), cell_occupancy());
    assert(cell_occupancy()(0u8) == 0);
    lemma_seq_sum_empties((l.len() - m.len()) as nat, cell_occupancy());
    lemma_occ_count_full(m);
    lemma_occ_count_is_occupied_len(l);
    lemma_weight_collapse(l);
    lemma_collapse_len(l);
    lemma_score_decompose(l);
    lemma_score_decompose(collapse(l));
}

/// Collapsing raises no magnitude by more than one: a tile merges at most
/// once per move, so no chain of equal tiles collapses in cascade.
pub proof fn lemma_collapse_bound(l: Seq<u8>, b: u8)
    requires
        b <= 254,
        forall|i: int| 0 <= i < l.len() ==> l[i] <= b,
    ensures
        forall|i: int| 0 <= i < collapse(l).len() ==> #[trigger] collapse(l)[i] <= b + 1,
{
    lemma_occupied_bound(l, b);
    lemma_merge_pairs_bound(occupied(l), b);
    lemma_merge_pairs_len(occupied(l));
    let m = merge_pairs(occupied(l));
    assert(forall|i: int| 0 <= i < collapse(l).len() && i >= m.len()
        ==> #[trigger] collapse(l)[i] == 0);
}

/// Collapsing keeps an empty cell around: if the line had one, or if the
/// collapse changed anything at all on a full line, the result has one.
pub proof fn lemma_collapse_keeps_zero(l: Seq<u8>)
    ensures
        collapse(l) == l || (exists|i: int| 0 <= i < collapse(l).len() && collapse(l)[i] == 0),
        (exists|i: int| 0 <= i < l.len() && l[i] == 0)
            ==> (exists|i: int| 0 <= i < collapse(l).len() && collapse(l)[i] == 0),
{
    lemma_occupied_bound(l, 255);
    lemma_merge_pairs_len(occupied(l));
    lemma_occ_count_is_occupied_len(l);
    lemma_occ_count_partial(l);
    lemma_collapse_len(l);
    let m = merge_pairs(occupied(l));
    if m.len() < l.len() {
        assert(collapse(l)[l.len() - 1] == 0);
    } else {
        assert(occupied(l).len() == l.len());
        assert(forall|i: int| 0 <= i < l.len() ==> l[i] != 0) by {
            if exists|i: int| 0 <= i < l.len() && l[i] == 0 {
                assert(occ_count(l) < l.len());
            }
        }
        lemma_occupied_full(l);
        assert(m == l);
        assert(collapse(l) =~= l);
    }
}

/// Collapse one line toward index 0: compact the occupied cells, merge
/// adjacent equal pairs nearest-first, pad with empty cells.
pub fn collapse_line(line: &Vec<u8>) -> (out: Vec<u8>)
    requires
        forall|i: int| 0 <= i < line@.len() ==> line@[i] < 255,
    ensures
        out@ == collapse(line@),
        out@.len() == line@.len(),
{
    // Compact: the occupied cells, in order.
    let mut tiles: Vec<u8> = Vec::new();
    let mut i: usize = 0;
    proof {
        assert(line@.take(0) =~= Seq::<u8>::empty());
        assert(tiles@ =~= occupied(line@.take(0)));
    }
    while i < line.len()
        invariant
            i <= line@.len(),
            tiles@ == occupied(line@.take(i as int)),
            forall|k: int| 0 <= k < line@.len() ==> line@[k] < 255,
        decreases line@.len() - i,
    {
        proof {
            assert(line@.take(i + 1) =~= line@.take(i as int) + seq![line@[i as int]]);
            lemma_occupied_concat(line@.take(i as int), seq![line@[i as int]]);
            assert(seq![line@[i as int]].skip(1) =~= Seq::<u8>::empty());
            assert(occupied(Seq::<u8>::empty()) =~= Seq::<u8>::empty());
            if line@[i as int] == 0 {
                assert(occupied(seq![line@[i as int]]) =~= Seq::<u8>::empty());
                assert(tiles@ + occupied(seq![line@[i as int]]) =~= tiles@);
            } else {
                assert(occupied(seq![line@[i as int]]) =~= seq![line@[i as int]]);
            }
        }
        if line[i] != 0 {
            tiles.push(line[i]);
        }
        i += 1;
    }
    proof {
        assert(line@.take(line@.len() as int) =~= line@);
        lemma_occupied_bound(line@, 254);
    }

    // Merge: one greedy pass, nearest pairs first.
    let ghost all = tiles@;
    let mut out: Vec<u8> = Vec::new();
    let mut j: usize = 0;
    proof {
        assert(all.skip(0) =~= all);
        assert(out@ + merge_pairs(all) =~= merge_pairs(all));
    }
    while j < tiles.len()
        invariant
            j <= tiles@.len(),
            tiles@ == all,
            forall|k: int| 0 <= k < all.len() ==> #[trigger] all[k] < 255,
            out@ + merge_pairs(all.skip(j as int)) == merge_pairs(all),
        decreases tiles@.len() - j,
    {
        let ghost rest = all.skip(j as int);
        if j + 1 < tiles.len() && tiles[j] == tiles[j + 1] {
            proof {
                assert(rest.len() >= 2);
                assert(rest[0] == all[j as int] && rest[1] == all[j + 1]);
                assert(rest.skip(2) =~= all.skip(j + 2));
                assert(merge_pairs(rest) == seq![merged(rest[0])] + merge_pairs(all.skip(j + 2)));
                assert((out@ + seq![merged(rest[0])]) + merge_pairs(all.skip(j + 2))
                    =~= out@ + (seq![merged(rest[0])] + merge_pairs(all.skip(j + 2))));
            }
            out.push(tiles[j] + 1);
            j += 2;
        } else {
            proof {
                assert(rest.len() >= 1);
                assert(rest[0] == all[j as int]);
                if rest.len() == 1 {
                    assert(merge_pairs(rest) == rest);
                    assert(all.skip(j + 1) =~= Seq::<u8>::empty());
                    assert(rest =~= seq![rest[0]] + merge_pairs(all.skip(j + 1)));
                } else {
                    assert(rest[1] == all[j + 1]);
                    assert(rest.skip(1) =~= all.skip(j + 1));
                    assert(merge_pairs(rest) == seq![rest[0]] + merge_pairs(all.skip(j + 1)));
                }
                assert((out@ + seq![rest[0]]) + merge_pairs(all.skip(j + 1))
                    =~= out@ + (seq![rest[0]] + merge_pairs(all.skip(j + 1))));
            }
            out.push(tiles[j]);
            j += 1;
        }
    }
    proof {
        assert(all.skip(all.len() as int) =~= Seq::<u8>::empty());
        assert(out@ + Seq::<u8>::empty() =~= out@);
        lemma_merge_pairs_len(all);
    }

    // Pad with empty cells back to the line's length.
    let ghost m = merge_pairs(all);
    proof {
        assert(out@ == m);
        assert(out@ =~= m + empties(0));
    }
    while out.len() < line.len()
        invariant
            m.len() <= out@.len() <= line@.len(),
            out@ == m + empties((out@.len() - m.len()) as nat),
        decreases line@.len() - out@.len(),
    {
        proof {
            assert(m + empties((out@.len() + 1 - m.len()) as nat)
                =~= (m + empties((out@.len() - m.len()) as nat)) + seq![0u8]);
        }
        out.push(0);
    }
    proof {
        assert(out@ =~= collapse(line@));
    }
    out
}

/// The same line read end to first.
pub fn reverse_line(line: &Vec<u8>) -> (out: Vec<u8>)
    ensures
        out@ == rev(line@),
{
    let mut out: Vec<u8> = Vec::new();
    let mut i: usize = line.len();
    while i > 0
        invariant
            i <= line@.len(),
            out@.len() == line@.len() - i,
            forall|k: int| 0 <= k < out@.len()
                ==> #[trigger] out@[k] == line@[line@.len() - 1 - k],
        decreases i,
    {
        i -= 1;
        out.push(line[i]);
    }
    proof {
        assert(out@ =~= rev(line@));
    }
    out
}

} // verus!
