//! Facts about single lines: what removing the gaps, merging and packing do.

use vstd::arithmetic::power2::{lemma_pow2_unfold, pow2};
use vstd::prelude::*;
use crate::model::{
    all_tiles, fits, group_at, is_packed, is_pairing, is_tile, line_sum, merge_cuts, merge_pairs,
    no_equal_pair, non_zeros, oriented, slide, slide_to_start, tiles, valid_line, zeros,
};

verus! {

/// Two stored lines hold the same numbers only if they are the same line.
pub proof fn lemma_tiles_injective(a: Seq<u32>, b: Seq<u32>)
    ensures
        tiles(a) == tiles(b) <==> a == b,
{
    if tiles(a) == tiles(b) {
        assert(a.len() == tiles(a).len());
        assert(b.len() == tiles(b).len());
        assert forall|i: int| 0 <= i < a.len() implies a[i] == b[i] by {
            assert(tiles(a)[i] == tiles(b)[i]);
        }
        assert(a =~= b);
    }
}

/// Taking one more cell of a line into account adds that cell's tile, if it
/// holds one, to the tiles seen so far.
pub proof fn lemma_non_zeros_step(line: Seq<nat>, i: int)
    requires
        0 <= i < line.len(),
    ensures
        line[i] == 0 ==> non_zeros(line.take(i + 1)) == non_zeros(line.take(i)),
        line[i] != 0 ==> non_zeros(line.take(i + 1)) == non_zeros(line.take(i)).push(line[i]),
{
    assert(line.take(i + 1).drop_last() =~= line.take(i));
}

/// The tiles of a line are not zero, and there are at most as many as cells.
pub proof fn lemma_non_zeros_bounds(line: Seq<nat>)
    ensures
        non_zeros(line).len() <= line.len(),
        forall|k: int| 0 <= k < non_zeros(line).len() ==> #[trigger] non_zeros(line)[k] != 0,
    decreases line.len(),
{
    if line.len() > 0 {
        lemma_non_zeros_bounds(line.drop_last());
    }
}

/// The tiles of two lines laid end to end are the tiles of the first
/// followed by those of the second.
pub proof fn lemma_non_zeros_concat(a: Seq<nat>, b: Seq<nat>)
    ensures
        non_zeros(a + b) == non_zeros(a) + non_zeros(b),
    decreases b.len(),
{
    if b.len() == 0 {
        assert(a + b =~= a);
        assert(non_zeros(a) + non_zeros(b) =~= non_zeros(a));
    } else {
        lemma_non_zeros_concat(a, b.drop_last());
        assert((a + b).drop_last() =~= a + b.drop_last());
        assert(non_zeros(a + b) =~= non_zeros(a) + non_zeros(b));
    }
}

/// Reading a line backwards gives its tiles backwards.
pub proof fn lemma_non_zeros_reverse(line: Seq<nat>)
    ensures
        non_zeros(line.reverse()) == non_zeros(line).reverse(),
    decreases line.len(),
{
    if line.len() > 0 {
        let head = line.take(1);
        let tail = line.skip(1);
        lemma_non_zeros_reverse(tail);
        assert(line =~= head + tail);
        lemma_non_zeros_concat(head, tail);
        assert(head.drop_last() =~= Seq::<nat>::empty());
        assert(non_zeros(head.drop_last()) =~= Seq::<nat>::empty());
        assert(line.reverse().drop_last() =~= tail.reverse());
        assert(line.reverse().last() == line[0]);
        assert(non_zeros(line.reverse()) =~= non_zeros(line).reverse());
    }
}

/// A line without tiles holds only empty cells.
pub proof fn lemma_no_tiles(line: Seq<nat>)
    requires
        non_zeros(line).len() == 0,
    ensures
        line == zeros(line.len()),
    decreases line.len(),
{
    if line.len() > 0 {
        lemma_no_tiles(line.drop_last());
        assert forall|i: int| 0 <= i < line.len() implies line[i] == 0 by {
            if i < line.len() - 1 {
                assert(line.drop_last()[i] == line[i]);
            }
        }
    }
    assert(line =~= zeros(line.len()));
}

/// A merge pass never makes a sequence longer.
pub proof fn lemma_merge_pairs_len(t: Seq<nat>)
    ensures
        merge_pairs(t).len() <= t.len(),
    decreases t.len(),
{
    if t.len() == 0 {
    } else if t.len() >= 2 && t[0] == t[1] {
        lemma_merge_pairs_len(t.skip(2));
    } else {
        lemma_merge_pairs_len(t.skip(1));
    }
}

/// A move keeps the length of a line.
pub proof fn lemma_slide_len(line: Seq<nat>, toward_end: bool)
    ensures
        slide(line, toward_end).len() == line.len(),
{
    lemma_non_zeros_bounds(line);
    lemma_merge_pairs_len(non_zeros(line));
    lemma_non_zeros_bounds(line.reverse());
    lemma_merge_pairs_len(non_zeros(line.reverse()));
}

/// The line after a move fits into cells exactly when the merged sequence
/// that the move packs against the edge does.
pub proof fn lemma_slide_fits(line: Seq<nat>, toward_end: bool)
    ensures
        fits(slide(line, toward_end)) <==> fits(merge_pairs(non_zeros(oriented(line, toward_end)))),
{
    let oriented = if toward_end { line.reverse() } else { line };
    let merged = merge_pairs(non_zeros(oriented));
    let packed = slide_to_start(oriented);
    let moved = slide(line, toward_end);
    lemma_slide_len(oriented, false);
    lemma_non_zeros_bounds(oriented);
    lemma_merge_pairs_len(non_zeros(oriented));
    if fits(moved) {
        assert forall|k: int| 0 <= k < merged.len() implies #[trigger] merged[k] <= u32::MAX by {
            assert(packed[k] == merged[k]);
            if toward_end {
                assert(packed.reverse()[packed.len() - 1 - k] == packed[k]);
            }
        }
    }
    if fits(merged) {
        assert forall|k: int| 0 <= k < moved.len() implies #[trigger] moved[k] <= u32::MAX by {
            let at = if toward_end { packed.len() - 1 - k } else { k };
            assert(moved[k] == packed[at]);
            if at < merged.len() {
                assert(packed[at] == merged[at]);
            }
        }
    }
}

/// A merged sequence fits into cells exactly when its first tile does and
/// the rest of it does.
pub proof fn lemma_merge_pairs_fits(t: Seq<nat>)
    requires
        t.len() > 0,
    ensures
        t.len() >= 2 && t[0] == t[1] ==> (fits(merge_pairs(t)) <==> t[0] + t[1] <= u32::MAX && fits(
            merge_pairs(t.skip(2)),
        )),
        !(t.len() >= 2 && t[0] == t[1]) ==> (fits(merge_pairs(t)) <==> t[0] <= u32::MAX && fits(
            merge_pairs(t.skip(1)),
        )),
{
    let step: int = if t.len() >= 2 && t[0] == t[1] { 2 } else { 1 };
    let merged = merge_pairs(t);
    let rest = merge_pairs(t.skip(step));
    if fits(merged) {
        assert(merged[0] <= u32::MAX);
        assert forall|k: int| 0 <= k < rest.len() implies #[trigger] rest[k] <= u32::MAX by {
            assert(merged[k + 1] == rest[k]);
        }
    }
    if fits(rest) && merged[0] <= u32::MAX {
        assert forall|k: int| 0 <= k < merged.len() implies #[trigger] merged[k] <= u32::MAX by {
            if k > 0 {
                assert(merged[k] == rest[k - 1]);
            }
        }
    }
}

/// The sum of two lines laid end to end is the sum of their sums.
pub proof fn lemma_sum_concat(a: Seq<nat>, b: Seq<nat>)
    ensures
        line_sum(a + b) == line_sum(a) + line_sum(b),
    decreases b.len(),
{
    if b.len() == 0 {
        assert(a + b =~= a);
    } else {
        lemma_sum_concat(a, b.drop_last());
        assert((a + b).drop_last() =~= a + b.drop_last());
    }
}

/// The sum of a line is its first value plus the sum of the rest.
pub proof fn lemma_sum_front(line: Seq<nat>)
    requires
        line.len() > 0,
    ensures
        line_sum(line) == line[0] + line_sum(line.skip(1)),
{
    let head = line.take(1);
    assert(line =~= head + line.skip(1));
    lemma_sum_concat(head, line.skip(1));
    assert(head.drop_last() =~= Seq::<nat>::empty());
    assert(line_sum(head.drop_last()) == 0);
}

/// Empty cells add nothing to a sum.
pub proof fn lemma_sum_zeros(n: nat)
    ensures
        line_sum(zeros(n)) == 0,
    decreases n,
{
    if n > 0 {
        lemma_sum_zeros((n - 1) as nat);
        assert(zeros(n).drop_last() =~= zeros((n - 1) as nat));
    }
}

/// Reading a line backwards does not change its sum.
pub proof fn lemma_sum_reverse(line: Seq<nat>)
    ensures
        line_sum(line.reverse()) == line_sum(line),
    decreases line.len(),
{
    if line.len() > 0 {
        lemma_sum_front(line);
        lemma_sum_reverse(line.skip(1));
        assert(line.reverse().drop_last() =~= line.skip(1).reverse());
    }
}

/// Leaving out the empty cells does not change the sum of a line.
pub proof fn lemma_sum_non_zeros(line: Seq<nat>)
    ensures
        line_sum(non_zeros(line)) == line_sum(line),
    decreases line.len(),
{
    if line.len() > 0 {
        lemma_sum_non_zeros(line.drop_last());
        if line.last() != 0 {
            let kept = non_zeros(line.drop_last());
            assert(kept.push(line.last()).drop_last() =~= kept);
        }
    }
}

/// A merge pass does not change the sum of the tiles.
pub proof fn lemma_sum_merge_pairs(t: Seq<nat>)
    ensures
        line_sum(merge_pairs(t)) == line_sum(t),
    decreases t.len(),
{
    if t.len() == 0 {
    } else if t.len() >= 2 && t[0] == t[1] {
        let rest = t.skip(2);
        lemma_sum_merge_pairs(rest);
        lemma_sum_front(merge_pairs(t));
        assert(merge_pairs(t).skip(1) =~= merge_pairs(rest));
        lemma_sum_front(t);
        lemma_sum_front(t.skip(1));
        assert(t.skip(1).skip(1) =~= rest);
    } else {
        let rest = t.skip(1);
        lemma_sum_merge_pairs(rest);
        lemma_sum_front(merge_pairs(t));
        assert(merge_pairs(t).skip(1) =~= merge_pairs(rest));
        lemma_sum_front(t);
    }
}

/// A line without empty cells is its own sequence of tiles.
pub proof fn lemma_non_zeros_of_tiles(line: Seq<nat>)
    requires
        all_tiles(line),
    ensures
        non_zeros(line) == line,
    decreases line.len(),
{
    if line.len() > 0 {
        lemma_non_zeros_of_tiles(line.drop_last());
        assert(line.drop_last().push(line.last()) =~= line);
    } else {
        assert(non_zeros(line) =~= line);
    }
}

/// Empty cells hold no tiles.
pub proof fn lemma_non_zeros_of_zeros(n: nat)
    ensures
        non_zeros(zeros(n)) == Seq::<nat>::empty(),
    decreases n,
{
    if n > 0 {
        lemma_non_zeros_of_zeros((n - 1) as nat);
        assert(zeros(n).drop_last() =~= zeros((n - 1) as nat));
    }
}

/// The tiles of a packed line are the tiles that it was packed from.
pub proof fn lemma_non_zeros_of_packed(t: Seq<nat>, n: nat)
    requires
        all_tiles(t),
    ensures
        non_zeros(t + zeros(n)) == t,
{
    lemma_non_zeros_concat(t, zeros(n));
    lemma_non_zeros_of_tiles(t);
    lemma_non_zeros_of_zeros(n);
    assert(t + Seq::<nat>::empty() =~= t);
}

/// A packed line is its tiles followed by empty cells.
pub proof fn lemma_packed_form(line: Seq<nat>)
    requires
        is_packed(line),
    ensures
        non_zeros(line).len() <= line.len(),
        line == non_zeros(line) + zeros((line.len() - non_zeros(line).len()) as nat),
    decreases line.len(),
{
    lemma_non_zeros_bounds(line);
    if line.len() > 0 {
        let front = line.drop_last();
        assert(is_packed(front)) by {
            assert forall|i: int, j: int| 0 <= i < j < front.len() && front[i] == 0 implies front[j]
                == 0 by {
                assert(line[i] == 0);
                assert(line[j] == 0);
            }
        }
        lemma_packed_form(front);
        lemma_non_zeros_bounds(front);
        let rest = zeros((front.len() - non_zeros(front).len()) as nat);
        if line.last() != 0 {
            assert(rest.len() == 0) by {
                if rest.len() > 0 {
                    let i = non_zeros(front).len() as int;
                    assert(front[i] == rest[0]);
                    assert(line[i] == 0);
                    assert(line[line.len() - 1] == 0);
                }
            }
            assert(front =~= non_zeros(front));
        }
        assert(line =~= front.push(line.last()));
        assert(line =~= non_zeros(line) + zeros((line.len() - non_zeros(line).len()) as nat));
    } else {
        assert(line =~= non_zeros(line) + zeros((line.len() - non_zeros(line).len()) as nat));
    }
}

/// Tiles followed by empty cells form a packed line.
pub proof fn lemma_packed(t: Seq<nat>, n: nat)
    requires
        all_tiles(t),
    ensures
        is_packed(t + zeros(n)),
{
    let line = t + zeros(n);
    assert forall|i: int, j: int| 0 <= i < j < line.len() && line[i] == 0 implies line[j] == 0 by {
        if i < t.len() {
            assert(line[i] == t[i]);
        }
    }
}

/// A merge pass over tiles yields tiles.
pub proof fn lemma_merge_pairs_tiles(t: Seq<nat>)
    requires
        all_tiles(t),
    ensures
        all_tiles(merge_pairs(t)),
    decreases t.len(),
{
    if t.len() == 0 {
    } else {
        let step: int = if t.len() >= 2 && t[0] == t[1] { 2 } else { 1 };
        let rest = t.skip(step);
        assert(all_tiles(rest)) by {
            assert forall|i: int| 0 <= i < rest.len() implies #[trigger] rest[i] != 0 by {
                assert(t[i + step] != 0);
            }
        }
        lemma_merge_pairs_tiles(rest);
        assert forall|i: int| 0 <= i < merge_pairs(t).len() implies #[trigger] merge_pairs(t)[i]
            != 0 by {
            if i > 0 {
                assert(merge_pairs(t)[i] == merge_pairs(rest)[i - 1]);
            } else {
                assert(t[0] != 0);
            }
        }
    }
}

/// A merge pass leaves a sequence as it is exactly when no tile of it
/// equals its successor; otherwise the pass makes the sequence shorter.
pub proof fn lemma_merge_pairs_fixed(t: Seq<nat>)
    ensures
        no_equal_pair(t) ==> merge_pairs(t) == t,
        !no_equal_pair(t) ==> merge_pairs(t).len() < t.len(),
    decreases t.len(),
{
    if t.len() == 0 {
    } else if t.len() >= 2 && t[0] == t[1] {
        lemma_merge_pairs_len(t.skip(2));
        assert(!no_equal_pair(t));
    } else {
        let rest = t.skip(1);
        lemma_merge_pairs_fixed(rest);
        lemma_merge_pairs_len(rest);
        if no_equal_pair(t) {
            assert(no_equal_pair(rest)) by {
                assert forall|i: int| 0 <= i && i + 1 < rest.len() implies #[trigger] rest[i]
                    != rest[i + 1] by {
                    assert(t[i + 1] != t[i + 1 + 1]);
                }
            }
            assert(merge_pairs(t) =~= t);
        } else {
            let i = choose|i: int| 0 <= i && i + 1 < t.len() && !(#[trigger] t[i] != t[i + 1]);
            assert(i > 0);
            assert(rest[i - 1] == rest[i - 1 + 1]);
            assert(!no_equal_pair(rest));
        }
    }
}

/// A move toward the first cell leaves a line as it is exactly when the
/// line is packed and no tile of it equals the next tile.
pub proof fn lemma_start_fixed_point(line: Seq<nat>)
    ensures
        slide_to_start(line) == line <==> is_packed(line) && no_equal_pair(non_zeros(line)),
{
    let found = non_zeros(line);
    let merged = merge_pairs(found);
    lemma_non_zeros_bounds(line);
    lemma_merge_pairs_len(found);
    lemma_merge_pairs_fixed(found);
    assert(all_tiles(found));
    lemma_merge_pairs_tiles(found);
    let padding = (line.len() - merged.len()) as nat;
    if slide_to_start(line) == line {
        lemma_packed(merged, padding);
        lemma_non_zeros_of_packed(merged, padding);
    }
    if is_packed(line) && no_equal_pair(found) {
        lemma_packed_form(line);
    }
}

/// A line that a move has just been made on is packed toward the edge of
/// the move, and its tiles are the merged tiles.
pub proof fn lemma_slide_is_packed(line: Seq<nat>)
    ensures
        is_packed(slide_to_start(line)),
        non_zeros(slide_to_start(line)) == merge_pairs(non_zeros(line)),
{
    let found = non_zeros(line);
    let merged = merge_pairs(found);
    lemma_non_zeros_bounds(line);
    lemma_merge_pairs_len(found);
    assert(all_tiles(found));
    lemma_merge_pairs_tiles(found);
    lemma_packed(merged, (line.len() - merged.len()) as nat);
    lemma_non_zeros_of_packed(merged, (line.len() - merged.len()) as nat);
}

/// Reading a sequence backwards keeps the property that no tile equals its
/// successor.
pub proof fn lemma_no_equal_pair_reverse(t: Seq<nat>)
    ensures
        no_equal_pair(t.reverse()) == no_equal_pair(t),
{
    let r = t.reverse();
    if no_equal_pair(t) {
        assert forall|i: int| 0 <= i && i + 1 < r.len() implies #[trigger] r[i] != r[i + 1] by {
            let k = t.len() - 2 - i;
            assert(t[k] != t[k + 1]);
        }
    }
    if no_equal_pair(r) {
        assert forall|i: int| 0 <= i && i + 1 < t.len() implies #[trigger] t[i] != t[i + 1] by {
            let k = t.len() - 2 - i;
            assert(r[k] != r[k + 1]);
        }
    }
}

/// A move that leaves no cell of the line empty has not changed the line.
pub proof fn lemma_full_after_move(line: Seq<nat>, toward_end: bool)
    requires
        all_tiles(slide(line, toward_end)),
    ensures
        slide(line, toward_end) == line,
{
    let oriented = if toward_end { line.reverse() } else { line };
    let found = non_zeros(oriented);
    let merged = merge_pairs(found);
    let once = slide_to_start(oriented);
    lemma_non_zeros_bounds(oriented);
    lemma_merge_pairs_len(found);
    lemma_merge_pairs_fixed(found);
    if toward_end {
        assert forall|i: int| 0 <= i < once.len() implies #[trigger] once[i] != 0 by {
            assert(once.reverse()[once.len() - 1 - i] == once[i]);
        }
    }
    assert(merged.len() == oriented.len()) by {
        if merged.len() < oriented.len() {
            assert(once[merged.len() as int] == 0);
        }
    }
    assert(all_tiles(oriented)) by {
        lemma_non_zeros_len(oriented);
    }
    lemma_non_zeros_of_tiles(oriented);
    assert(once =~= oriented);
    if toward_end {
        assert(line.reverse().reverse() =~= line);
    }
}

/// A line has as many tiles as cells only if none of its cells is empty.
pub proof fn lemma_non_zeros_len(line: Seq<nat>)
    ensures
        non_zeros(line).len() <= line.len(),
        non_zeros(line).len() == line.len() ==> all_tiles(line),
    decreases line.len(),
{
    if line.len() > 0 {
        lemma_non_zeros_len(line.drop_last());
        if non_zeros(line).len() == line.len() {
            assert forall|i: int| 0 <= i < line.len() implies #[trigger] line[i] != 0 by {
                if i < line.len() - 1 {
                    assert(line.drop_last()[i] != 0);
                }
            }
        }
    }
}

/// In one merge pass no tile is merged more than once: the tiles of the
/// result are made of groups of the given tiles that follow one another
/// without a gap or an overlap, each group being one tile or two equal
/// tiles, and a tile stays alone only where it does not equal the tile
/// after it.
pub proof fn lemma_merge_pairs_pairing(t: Seq<nat>)
    ensures
        is_pairing(t, merge_pairs(t), merge_cuts(t)),
    decreases t.len(),
{
    if t.len() > 0 {
        let step: int = if t.len() >= 2 && t[0] == t[1] { 2 } else { 1 };
        let rest = t.skip(step);
        let merged = merge_pairs(t);
        let cuts = merge_cuts(t);
        lemma_merge_pairs_pairing(rest);
        assert(cuts[merged.len() as int] == t.len());
        assert forall|k: int| 0 <= k < merged.len() implies #[trigger] group_at(
            t,
            merged,
            cuts,
            k,
        ) by {
            if k == 0 {
                assert(cuts[1] == merge_cuts(rest)[0] + step);
            } else {
                assert(group_at(rest, merge_pairs(rest), merge_cuts(rest), k - 1));
                let first = merge_cuts(rest)[k - 1];
                assert(cuts[k] == first + step);
                assert(cuts[k + 1] == merge_cuts(rest)[k] + step);
                assert(merged[k] == merge_pairs(rest)[k - 1]);
                assert(rest[first] == t[first + step]);
                if first + 1 < rest.len() {
                    assert(rest[first + 1] == t[first + 1 + step]);
                }
            }
        }
    }
}

/// A move leaves a line without empty cells, in which no tile equals the
/// next, as it is.
pub proof fn lemma_full_line_stays(line: Seq<nat>, toward_end: bool)
    requires
        all_tiles(line),
        no_equal_pair(line),
    ensures
        slide(line, toward_end) == line,
{
    let oriented = if toward_end { line.reverse() } else { line };
    lemma_no_equal_pair_reverse(line);
    assert(all_tiles(oriented)) by {
        assert forall|i: int| 0 <= i < oriented.len() implies #[trigger] oriented[i] != 0 by {
            if toward_end {
                assert(line[line.len() - 1 - i] != 0);
            }
        }
    }
    lemma_non_zeros_of_tiles(oriented);
    lemma_start_fixed_point(oriented);
    assert(line.reverse().reverse() =~= line);
}

/// A line that holds a tile and that no move changes, neither toward its
/// first cell nor toward its last, has no empty cell and no tile that
/// equals the next.
pub proof fn lemma_stuck_line(line: Seq<nat>, p: int)
    requires
        0 <= p < line.len(),
        line[p] != 0,
        slide(line, false) == line,
        slide(line, true) == line,
    ensures
        all_tiles(line),
        no_equal_pair(line),
{
    let mirror = line.reverse();
    lemma_start_fixed_point(line);
    assert(slide_to_start(mirror) == mirror) by {
        assert(slide_to_start(mirror).reverse().reverse() =~= slide_to_start(mirror));
    }
    lemma_start_fixed_point(mirror);
    assert forall|q: int| 0 <= q < line.len() implies #[trigger] line[q] != 0 by {
        if line[q] == 0 {
            if q < p {
                assert(line[p] == 0);
            } else {
                assert(mirror[line.len() - 1 - q] == 0);
                assert(mirror[line.len() - 1 - p] == 0);
            }
        }
    }
    lemma_non_zeros_of_tiles(line);
}

/// Twice the value of a tile is the value of a tile.
pub proof fn lemma_double_tile(v: nat)
    requires
        is_tile(v),
    ensures
        is_tile(v + v),
{
    let k = choose|k: nat| k >= 1 && v == #[trigger] pow2(k);
    lemma_pow2_unfold(k + 1);
    assert(v + v == pow2(k + 1));
}

/// The tiles of a line whose cells are empty or hold tile values all hold
/// tile values.
pub proof fn lemma_non_zeros_valid(line: Seq<nat>)
    requires
        valid_line(line),
    ensures
        valid_line(non_zeros(line)),
    decreases line.len(),
{
    if line.len() > 0 {
        let front = line.drop_last();
        assert(valid_line(front)) by {
            assert forall|i: int| 0 <= i < front.len() implies #[trigger] front[i] == 0 || is_tile(
                front[i],
            ) by {
                assert(line[i] == 0 || is_tile(line[i]));
            }
        }
        lemma_non_zeros_valid(front);
        let found = non_zeros(line);
        assert forall|i: int| 0 <= i < found.len() implies #[trigger] found[i] == 0 || is_tile(
            found[i],
        ) by {
            if i < non_zeros(front).len() {
                assert(non_zeros(front)[i] == 0 || is_tile(non_zeros(front)[i]));
            } else {
                assert(line[line.len() - 1] == 0 || is_tile(line[line.len() - 1]));
            }
        }
    }
}

} // verus!
