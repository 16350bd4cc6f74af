//! What holds of every move and of every spawn: the laws of the game, each
//! stated over the model and proved from it.

use vstd::arithmetic::power2::{lemma2_to64, pow2};
use vstd::prelude::*;
use crate::grid::{
    lemma_equal_by_lanes, lemma_grid_sum_update, lemma_shift_column, lemma_shift_lane,
    lemma_shift_row, lemma_sum_by_columns, lemma_sum_by_rows, lemma_sum_update,
};
use crate::line::{
    lemma_double_tile, lemma_full_after_move, lemma_full_line_stays, lemma_merge_pairs_len,
    lemma_merge_pairs_pairing, lemma_non_zeros_bounds, lemma_non_zeros_reverse,
    lemma_non_zeros_valid, lemma_no_equal_pair_reverse, lemma_slide_is_packed, lemma_slide_len,
    lemma_start_fixed_point, lemma_stuck_line, lemma_sum_concat, lemma_sum_merge_pairs,
    lemma_sum_non_zeros, lemma_sum_reverse, lemma_sum_zeros,
};
use crate::model::{
    all_tiles, column, columns, differs_from_next, grid_sum, group_at, is_full, is_pairing,
    is_square, is_terminal, is_tile, lane, line_sum, merge_cuts, merge_pairs, no_equal_pair,
    non_zeros, oriented, placed, settled, shift_grid, slide, slide_to_start, spawned, valid_grid,
    valid_line, zeros, Direction,
};

verus! {

/// A second move in the same direction, made at once after the first,
/// changes nothing, unless the first move left two equal tiles next to each
/// other.
pub proof fn lemma_second_move(line: Seq<nat>, toward_end: bool)
    requires
        no_equal_pair(non_zeros(slide(line, toward_end))),
    ensures
        slide(slide(line, toward_end), toward_end) == slide(line, toward_end),
{
    lemma_second_move_settled(line, toward_end);
}

/// Where the first move left two equal tiles next to each other, a second
/// move in the same direction merges them: it changes the line.
pub proof fn lemma_second_move_merges(line: Seq<nat>, toward_end: bool)
    requires
        !no_equal_pair(non_zeros(slide(line, toward_end))),
    ensures
        slide(slide(line, toward_end), toward_end) != slide(line, toward_end),
{
    lemma_second_move_settled(line, toward_end);
}

/// A second move in the same direction leaves the line as the first move
/// made it exactly when the first move left no two equal tiles next to each
/// other.
proof fn lemma_second_move_settled(line: Seq<nat>, toward_end: bool)
    ensures
        slide(slide(line, toward_end), toward_end) == slide(line, toward_end) <==> no_equal_pair(
            non_zeros(slide(line, toward_end)),
        ),
{
    let oriented = if toward_end { line.reverse() } else { line };
    let once = slide_to_start(oriented);
    lemma_slide_is_packed(oriented);
    lemma_start_fixed_point(once);
    if toward_end {
        assert(once.reverse().reverse() =~= once);
        lemma_non_zeros_reverse(once);
        lemma_no_equal_pair_reverse(non_zeros(once));
        let twice = slide_to_start(once);
        if twice.reverse() == once.reverse() {
            assert(twice.reverse().reverse() =~= twice);
        }
    }
}

/// A second move in the same direction, made at once after the first,
/// changes nothing in the grid, unless the first move left two equal tiles
/// next to each other along its direction.
pub proof fn lemma_shift_twice(g: Seq<Seq<nat>>, dir: Direction)
    requires
        is_square(g),
        settled(shift_grid(g, dir), dir),
    ensures
        shift_grid(shift_grid(g, dir), dir) == shift_grid(g, dir),
{
    lemma_shift_twice_settled(g, dir);
}

/// Where the first move left two equal tiles next to each other along its
/// direction, a second move in the same direction merges them: it changes
/// the grid.
pub proof fn lemma_shift_twice_merges(g: Seq<Seq<nat>>, dir: Direction)
    requires
        is_square(g),
        !settled(shift_grid(g, dir), dir),
    ensures
        shift_grid(shift_grid(g, dir), dir) != shift_grid(g, dir),
{
    lemma_shift_twice_settled(g, dir);
}

/// A second move in the same direction leaves the grid as the first move
/// made it exactly when the first move left no two equal tiles next to each
/// other along its direction.
proof fn lemma_shift_twice_settled(g: Seq<Seq<nat>>, dir: Direction)
    requires
        is_square(g),
    ensures
        shift_grid(shift_grid(g, dir), dir) == shift_grid(g, dir) <==> settled(
            shift_grid(g, dir),
            dir,
        ),
{
    let once = shift_grid(g, dir);
    let twice = shift_grid(once, dir);
    let toward_end = dir.toward_end();
    assert forall|k: int| 0 <= k < g.len() implies (#[trigger] lane(twice, dir, k) == lane(
        once,
        dir,
        k,
    ) <==> no_equal_pair(non_zeros(lane(once, dir, k)))) by {
        lemma_shift_lane(g, dir, k);
        lemma_shift_lane(once, dir, k);
        lemma_second_move_settled(lane(g, dir, k), toward_end);
    }
    if g.len() > 0 {
        lemma_shift_lane(g, dir, 0);
        lemma_shift_lane(once, dir, 0);
    }
    if settled(once, dir) {
        assert forall|k: int| 0 <= k < twice.len() implies #[trigger] lane(twice, dir, k) == lane(
            once,
            dir,
            k,
        ) by {
            assert(no_equal_pair(non_zeros(lane(once, dir, k))));
        }
        lemma_equal_by_lanes(twice, once, dir);
    }
    if twice == once {
        assert forall|k: int| 0 <= k < once.len() implies no_equal_pair(
            non_zeros(#[trigger] lane(once, dir, k)),
        ) by {
            assert(lane(twice, dir, k) == lane(once, dir, k));
        }
    }
}

/// A move keeps the sum of the values of a line: merging replaces two equal
/// tiles by one of twice the value, and packing neither drops nor repeats a
/// tile.
pub proof fn lemma_slide_keeps_sum(line: Seq<nat>, toward_end: bool)
    ensures
        line_sum(slide(line, toward_end)) == line_sum(line),
{
    let oriented = if toward_end { line.reverse() } else { line };
    let merged = merge_pairs(non_zeros(oriented));
    let padding = zeros((oriented.len() - merged.len()) as nat);
    lemma_sum_concat(merged, padding);
    lemma_sum_zeros((oriented.len() - merged.len()) as nat);
    lemma_sum_merge_pairs(non_zeros(oriented));
    lemma_sum_non_zeros(oriented);
    lemma_sum_reverse(line);
    lemma_sum_reverse(slide_to_start(oriented));
}

/// A move keeps the sum of all values of the grid.
pub proof fn lemma_shift_keeps_sum(g: Seq<Seq<nat>>, dir: Direction)
    requires
        is_square(g),
    ensures
        grid_sum(shift_grid(g, dir)) == grid_sum(g),
{
    let after = shift_grid(g, dir);
    let side = g.len();
    if dir.along_rows() {
        assert forall|i: int| 0 <= i < side implies line_sum(#[trigger] after[i]) == line_sum(
            g[i],
        ) by {
            lemma_shift_row(g, dir, i);
            lemma_slide_keeps_sum(g[i], dir.toward_end());
        }
        lemma_sum_by_rows(after, g);
    } else {
        assert forall|j: int| 0 <= j < side implies line_sum(#[trigger] columns(after, side)[j])
            == line_sum(columns(g, side)[j]) by {
            lemma_shift_column(g, dir, j);
            lemma_slide_keeps_sum(column(g, j), dir.toward_end());
        }
        lemma_sum_by_rows(columns(after, side), columns(g, side));
        lemma_sum_by_columns(after, side);
        lemma_sum_by_columns(g, side);
    }
}

/// A new tile raises the sum of the grid by exactly its value.
pub proof fn lemma_placed_adds(before: Seq<Seq<nat>>, after: Seq<Seq<nat>>, i: int, j: int, v: nat)
    requires
        placed(before, after, i, j, v),
    ensures
        grid_sum(after) == grid_sum(before) + v,
{
    lemma_sum_update(before[i], j, v);
    lemma_grid_sum_update(before, i, before[i].update(j, v));
}

/// 2 and 4 are values of tiles.
pub proof fn lemma_new_tiles()
    ensures
        is_tile(2),
        is_tile(4),
{
    lemma2_to64();
    assert(2 == pow2(1));
    assert(4 == pow2(2));
}

/// A spawn keeps every cell empty or a tile, and raises the sum of the grid
/// by the value of the new tile, which is 2 or 4.
pub proof fn lemma_spawned(before: Seq<Seq<nat>>, after: Seq<Seq<nat>>)
    requires
        spawned(before, after),
    ensures
        grid_sum(after) == grid_sum(before) + 2 || grid_sum(after) == grid_sum(before) + 4,
        valid_grid(before) ==> valid_grid(after),
        is_square(before) ==> is_square(after),
        after.len() == before.len(),
{
    let (i, j, v) = choose|i: int, j: int, v: nat|
        (v == 2 || v == 4) && #[trigger] placed(before, after, i, j, v);
    lemma_placed_adds(before, after, i, j, v);
    lemma_new_tiles();
    if valid_grid(before) {
        assert forall|r: int| 0 <= r < after.len() implies valid_line(#[trigger] after[r]) by {
            assert(valid_line(before[r]));
            assert forall|c: int| 0 <= c < after[r].len() implies #[trigger] after[r][c] == 0
                || is_tile(after[r][c]) by {
                if r != i || c != j {
                    assert(before[r][c] == 0 || is_tile(before[r][c]));
                }
            }
        }
    }
    if is_square(before) {
        assert forall|r: int| 0 <= r < after.len() implies (#[trigger] after[r]).len()
            == after.len() by {
            assert(before[r].len() == before.len());
        }
    }
}

/// In one move no tile is merged more than once. Read from the cell that
/// the move goes toward, the tiles after the move are made of groups of the
/// tiles before it; the groups follow one another without a gap or an
/// overlap, and each is one tile, or two equal tiles that became one of
/// twice the value.
pub proof fn lemma_slide_pairing(line: Seq<nat>, toward_end: bool)
    ensures
        is_pairing(
            non_zeros(oriented(line, toward_end)),
            non_zeros(oriented(slide(line, toward_end), toward_end)),
            merge_cuts(non_zeros(oriented(line, toward_end))),
        ),
{
    let before = oriented(line, toward_end);
    lemma_slide_is_packed(before);
    lemma_merge_pairs_pairing(non_zeros(before));
    if toward_end {
        assert(slide_to_start(before).reverse().reverse() =~= slide_to_start(before));
    }
}

/// A move makes tiles of tiles: where every cell of the line is empty or
/// holds a power of two that is at least 2, the same holds after the move.
pub proof fn lemma_slide_valid(line: Seq<nat>, toward_end: bool)
    requires
        valid_line(line),
    ensures
        valid_line(slide(line, toward_end)),
{
    let oriented = if toward_end { line.reverse() } else { line };
    let found = non_zeros(oriented);
    let merged = merge_pairs(found);
    let once = slide_to_start(oriented);
    lemma_non_zeros_bounds(oriented);
    lemma_merge_pairs_len(found);
    assert(valid_line(oriented)) by {
        assert forall|i: int|
            0 <= i < oriented.len() implies #[trigger] oriented[i] == 0 || is_tile(oriented[i]) by {
            if toward_end {
                assert(line[line.len() - 1 - i] == 0 || is_tile(line[line.len() - 1 - i]));
            }
        }
    }
    lemma_non_zeros_valid(oriented);
    lemma_merge_pairs_pairing(found);
    assert forall|i: int| 0 <= i < once.len() implies #[trigger] once[i] == 0 || is_tile(
        once[i],
    ) by {
        if i < merged.len() {
            assert(group_at(found, merged, merge_cuts(found), i));
            let first = merge_cuts(found)[i];
            assert(found[first] == 0 || is_tile(found[first]));
            assert(found[first] != 0);
            lemma_double_tile(found[first]);
        }
    }
    if toward_end {
        assert forall|i: int| 0 <= i < once.len() implies #[trigger] once.reverse()[i] == 0
            || is_tile(once.reverse()[i]) by {
            assert(once[once.len() - 1 - i] == 0 || is_tile(once[once.len() - 1 - i]));
        }
    }
}

/// A move makes tiles of tiles: where every cell of the grid is empty or
/// holds a power of two that is at least 2, the same holds after the move.
pub proof fn lemma_shift_valid(g: Seq<Seq<nat>>, dir: Direction)
    requires
        is_square(g),
        valid_grid(g),
    ensures
        valid_grid(shift_grid(g, dir)),
{
    let after = shift_grid(g, dir);
    assert forall|i: int| 0 <= i < after.len() implies valid_line(#[trigger] after[i]) by {
        assert forall|j: int|
            0 <= j < after[i].len() implies #[trigger] after[i][j] == 0 || is_tile(after[i][j]) by {
            let k = if dir.along_rows() { i } else { j };
            let at = if dir.along_rows() { j } else { i };
            let line = lane(g, dir, k);
            assert(valid_line(line)) by {
                assert forall|p: int|
                    0 <= p < line.len() implies #[trigger] line[p] == 0 || is_tile(line[p]) by {
                    if dir.along_rows() {
                        assert(valid_line(g[k]));
                    } else {
                        assert(valid_line(g[p]));
                        assert(g[p][k] == 0 || is_tile(g[p][k]));
                    }
                }
            }
            lemma_slide_valid(line, dir.toward_end());
            lemma_slide_len(line, dir.toward_end());
            let moved = slide(line, dir.toward_end());
            assert(moved[at] == 0 || is_tile(moved[at]));
        }
    }
}

/// A move that leaves no cell of the grid empty has not changed the grid:
/// after a move that changed the grid there is room for a new tile.
pub proof fn lemma_full_after_shift(g: Seq<Seq<nat>>, dir: Direction)
    requires
        is_square(g),
        is_full(shift_grid(g, dir)),
    ensures
        shift_grid(g, dir) == g,
{
    let after = shift_grid(g, dir);
    if g.len() > 0 {
        lemma_shift_lane(g, dir, 0);
    }
    assert forall|k: int| 0 <= k < after.len() implies #[trigger] lane(after, dir, k) == lane(
        g,
        dir,
        k,
    ) by {
        lemma_shift_lane(g, dir, k);
        let line = lane(after, dir, k);
        assert forall|i: int| 0 <= i < line.len() implies #[trigger] line[i] != 0 by {
            if dir.along_rows() {
                assert(after[k][i] != 0);
            } else {
                assert(after[i][k] != 0);
            }
        }
        lemma_full_after_move(lane(g, dir, k), dir.toward_end());
    }
    lemma_equal_by_lanes(after, g, dir);
}

/// On a full grid in which no two neighbours hold the same value, no move
/// changes anything.
pub proof fn lemma_terminal_stays(g: Seq<Seq<nat>>, dir: Direction)
    requires
        is_square(g),
        is_terminal(g),
    ensures
        shift_grid(g, dir) == g,
{
    let after = shift_grid(g, dir);
    if g.len() > 0 {
        lemma_shift_lane(g, dir, 0);
    }
    assert forall|k: int| 0 <= k < after.len() implies #[trigger] lane(after, dir, k) == lane(
        g,
        dir,
        k,
    ) by {
        lemma_shift_lane(g, dir, k);
        let line = lane(g, dir, k);
        assert forall|i: int| 0 <= i < line.len() implies #[trigger] line[i] != 0 by {
            if dir.along_rows() {
                assert(g[k][i] != 0);
            } else {
                assert(g[i][k] != 0);
            }
        }
        assert forall|i: int| 0 <= i && i + 1 < line.len() implies #[trigger] line[i] != line[i
            + 1] by {
            if dir.along_rows() {
                assert(differs_from_next(g, k, i));
            } else {
                assert(differs_from_next(g, i, k));
            }
        }
        lemma_full_line_stays(line, dir.toward_end());
    }
    lemma_equal_by_lanes(after, g, dir);
}

/// In a grid that no move changes, no move changes a row or a column.
proof fn lemma_unmoved_lanes(g: Seq<Seq<nat>>, k: int)
    requires
        is_square(g),
        0 <= k < g.len(),
        forall|dir: Direction| #[trigger] shift_grid(g, dir) == g,
    ensures
        slide(g[k], false) == g[k],
        slide(g[k], true) == g[k],
        slide(column(g, k), false) == column(g, k),
        slide(column(g, k), true) == column(g, k),
{
    lemma_shift_lane(g, Direction::Left, k);
    lemma_shift_lane(g, Direction::Right, k);
    lemma_shift_lane(g, Direction::Up, k);
    lemma_shift_lane(g, Direction::Down, k);
    assert(shift_grid(g, Direction::Left) == g);
    assert(shift_grid(g, Direction::Right) == g);
    assert(shift_grid(g, Direction::Up) == g);
    assert(shift_grid(g, Direction::Down) == g);
}

/// A grid that holds a tile and that no move changes is full, and no two
/// neighbours in it hold the same value.
pub proof fn lemma_stuck_is_terminal(g: Seq<Seq<nat>>, i: int, j: int)
    requires
        is_square(g),
        0 <= i < g.len(),
        0 <= j < g.len(),
        g[i][j] != 0,
        forall|dir: Direction| #[trigger] shift_grid(g, dir) == g,
    ensures
        is_terminal(g),
{
    lemma_unmoved_lanes(g, i);
    lemma_stuck_line(g[i], j);
    assert forall|c: int|
        0 <= c < g.len() implies all_tiles(#[trigger] column(g, c)) && no_equal_pair(
        column(g, c),
    ) by {
        assert(g[i][c] != 0);
        assert(column(g, c)[i] != 0);
        lemma_unmoved_lanes(g, c);
        lemma_stuck_line(column(g, c), i);
    }
    assert forall|r: int| 0 <= r < g.len() implies all_tiles(#[trigger] g[r]) && no_equal_pair(
        g[r],
    ) by {
        assert(column(g, 0)[r] != 0);
        lemma_unmoved_lanes(g, r);
        lemma_stuck_line(g[r], 0);
    }
    assert forall|r: int, c: int| 0 <= r < g.len() && 0 <= c < g[r].len() implies #[trigger] g[r][c]
        != 0 by {
        assert(all_tiles(g[r]));
    }
    assert forall|r: int, c: int|
        0 <= r < g.len() && 0 <= c < g.len() implies #[trigger] differs_from_next(g, r, c) by {
        assert(no_equal_pair(g[r]));
        assert(no_equal_pair(column(g, c)));
        if r + 1 < g.len() {
            assert(column(g, c)[r] != column(g, c)[r + 1]);
        }
        if c + 1 < g.len() {
            assert(g[r][c] != g[r][c + 1]);
        }
    }
}

} // verus!
