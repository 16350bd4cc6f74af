//! Facts about whole grids: where the empty cells are.

use vstd::prelude::*;
use crate::line::lemma_slide_len;
use crate::model::{
    column, columns, empty_cells, fits, gaps, grid_fits, grid_sum, in_row, is_full, is_square,
    lane, line_sum, rows, shift_grid, slide, Direction,
};

verus! {

/// Whether row `i`, column `j` is a cell of the grid and is empty.
pub open spec fn is_empty_cell(g: Seq<Seq<nat>>, i: int, j: int) -> bool {
    0 <= i < g.len() && 0 <= j < g[i].len() && g[i][j] == 0
}

/// Taking one more cell of a line into account adds that cell's index, if
/// the cell is empty, to the gaps seen so far.
pub proof fn lemma_gaps_step(line: Seq<nat>, j: int)
    requires
        0 <= j < line.len(),
    ensures
        line[j] == 0 ==> gaps(line.take(j + 1)) == gaps(line.take(j)).push(j),
        line[j] != 0 ==> gaps(line.take(j + 1)) == gaps(line.take(j)),
{
    assert(line.take(j + 1).drop_last() =~= line.take(j));
}

/// `gaps` lists empty cells of the line only, and every one of them.
pub proof fn lemma_gaps(line: Seq<nat>)
    ensures
        forall|k: int|
            0 <= k < gaps(line).len() ==> 0 <= #[trigger] gaps(line)[k] < line.len()
                && line[gaps(line)[k]] == 0,
        forall|j: int| 0 <= j < line.len() && line[j] == 0 ==> gaps(line).contains(j),
    decreases line.len(),
{
    if line.len() > 0 {
        let front = line.drop_last();
        lemma_gaps(front);
        assert forall|j: int| 0 <= j < line.len() && line[j] == 0 implies gaps(line).contains(
            j,
        ) by {
            if j < line.len() - 1 {
                assert(front[j] == 0);
                let k = choose|k: int| 0 <= k < gaps(front).len() && gaps(front)[k] == j;
                assert(gaps(line)[k] == j);
            } else {
                assert(gaps(line)[gaps(line).len() - 1] == j);
            }
        }
    }
}

/// `empty_cells` lists empty cells of the grid only, and every one of them.
pub proof fn lemma_empty_cells(g: Seq<Seq<nat>>)
    ensures
        forall|k: int|
            0 <= k < empty_cells(g).len() ==> is_empty_cell(
                g,
                (#[trigger] empty_cells(g)[k]).0,
                empty_cells(g)[k].1,
            ),
        forall|i: int, j: int| is_empty_cell(g, i, j) ==> empty_cells(g).contains((i, j)),
    decreases g.len(),
{
    if g.len() > 0 {
        let above = g.drop_last();
        let last = g.len() - 1;
        let here = in_row(last, gaps(g.last()));
        lemma_empty_cells(above);
        lemma_gaps(g.last());
        assert forall|k: int| 0 <= k < empty_cells(g).len() implies is_empty_cell(
            g,
            (#[trigger] empty_cells(g)[k]).0,
            empty_cells(g)[k].1,
        ) by {
            if k < empty_cells(above).len() {
                let c = empty_cells(above)[k];
                assert(is_empty_cell(above, c.0, c.1));
                assert(above[c.0] == g[c.0]);
            } else {
                assert(empty_cells(g)[k] == here[k - empty_cells(above).len()]);
            }
        }
        assert forall|i: int, j: int| is_empty_cell(g, i, j) implies empty_cells(g).contains(
            (i, j),
        ) by {
            if i < last {
                assert(above[i] == g[i]);
                assert(is_empty_cell(above, i, j));
                let k = choose|k: int|
                    0 <= k < empty_cells(above).len() && empty_cells(above)[k] == (i, j);
                assert(empty_cells(g)[k] == (i, j));
            } else {
                let k = choose|k: int| 0 <= k < gaps(g.last()).len() && gaps(g.last())[k] == j;
                assert(here[k] == (i, j));
                assert(empty_cells(g)[empty_cells(above).len() + k] == (i, j));
            }
        }
    }
}

/// A grid is full exactly when the list of its empty cells is empty.
pub proof fn lemma_full_iff_no_empty_cells(g: Seq<Seq<nat>>)
    ensures
        is_full(g) <==> empty_cells(g).len() == 0,
{
    lemma_empty_cells(g);
    if empty_cells(g).len() > 0 {
        let c = empty_cells(g)[0];
        assert(is_empty_cell(g, c.0, c.1));
        assert(g[c.0][c.1] == 0);
    } else {
        assert forall|i: int, j: int|
            0 <= i < g.len() && 0 <= j < g[i].len() implies #[trigger] g[i][j] != 0 by {
            if g[i][j] == 0 {
                assert(is_empty_cell(g, i, j));
                assert(empty_cells(g).contains((i, j)));
            }
        }
    }
}

/// A move along the rows replaces each row by what `slide` makes of it.
pub proof fn lemma_shift_row(g: Seq<Seq<nat>>, dir: Direction, i: int)
    requires
        is_square(g),
        dir.along_rows(),
        0 <= i < g.len(),
    ensures
        shift_grid(g, dir)[i] == slide(g[i], dir.toward_end()),
{
    lemma_slide_len(g[i], dir.toward_end());
    assert(shift_grid(g, dir)[i] =~= slide(g[i], dir.toward_end()));
}

/// A move along the columns replaces each column by what `slide` makes of
/// it.
pub proof fn lemma_shift_column(g: Seq<Seq<nat>>, dir: Direction, j: int)
    requires
        is_square(g),
        !dir.along_rows(),
        0 <= j < g.len(),
    ensures
        column(shift_grid(g, dir), j) == slide(column(g, j), dir.toward_end()),
{
    lemma_slide_len(column(g, j), dir.toward_end());
    assert(column(shift_grid(g, dir), j) =~= slide(column(g, j), dir.toward_end()));
}

/// The grid after a move fits into cells exactly when each of its lines
/// after the move does.
pub proof fn lemma_shift_fits(g: Seq<Seq<nat>>, dir: Direction)
    requires
        is_square(g),
    ensures
        grid_fits(shift_grid(g, dir)) <==> forall|k: int|
            0 <= k < g.len() ==> fits(slide(#[trigger] lane(g, dir, k), dir.toward_end())),
{
    let after = shift_grid(g, dir);
    if grid_fits(after) {
        assert forall|k: int| 0 <= k < g.len() implies fits(
            slide(#[trigger] lane(g, dir, k), dir.toward_end()),
        ) by {
            lemma_shift_lane(g, dir, k);
            let line = lane(after, dir, k);
            assert forall|i: int| 0 <= i < line.len() implies #[trigger] line[i] <= u32::MAX by {
                if dir.along_rows() {
                    assert(fits(after[k]));
                } else {
                    assert(fits(after[i]));
                    assert(after[i][k] <= u32::MAX);
                }
            }
        }
    }
    if forall|k: int|
        0 <= k < g.len() ==> fits(slide(#[trigger] lane(g, dir, k), dir.toward_end())) {
        assert forall|i: int| 0 <= i < after.len() implies fits(#[trigger] after[i]) by {
            assert forall|j: int| 0 <= j < after[i].len() implies #[trigger] after[i][j]
                <= u32::MAX by {
                let k = if dir.along_rows() { i } else { j };
                let at = if dir.along_rows() { j } else { i };
                lemma_shift_lane(g, dir, k);
                lemma_slide_len(lane(g, dir, k), dir.toward_end());
                let moved = slide(lane(g, dir, k), dir.toward_end());
                assert(fits(moved));
                assert(moved[at] <= u32::MAX);
            }
        }
    }
}

/// Where the grid after a move fits into cells, so does each of its lines
/// after the move.
pub proof fn lemma_shift_line_fits(g: Seq<Seq<nat>>, dir: Direction, k: int)
    requires
        is_square(g),
        grid_fits(shift_grid(g, dir)),
        0 <= k < g.len(),
    ensures
        fits(slide(lane(g, dir, k), dir.toward_end())),
{
    lemma_shift_fits(g, dir);
}

/// Two grids of as many rows whose rows have the same sums, row by row,
/// have the same sum.
pub proof fn lemma_sum_by_rows(a: Seq<Seq<nat>>, b: Seq<Seq<nat>>)
    requires
        a.len() == b.len(),
        forall|i: int| 0 <= i < a.len() ==> line_sum(#[trigger] a[i]) == line_sum(b[i]),
    ensures
        grid_sum(a) == grid_sum(b),
    decreases a.len(),
{
    if a.len() > 0 {
        assert forall|i: int| 0 <= i < a.drop_last().len() implies line_sum(
            #[trigger] a.drop_last()[i],
        ) == line_sum(b.drop_last()[i]) by {
            assert(a.drop_last()[i] == a[i]);
        }
        lemma_sum_by_rows(a.drop_last(), b.drop_last());
        assert(line_sum(a[a.len() - 1]) == line_sum(b[a.len() - 1]));
    }
}

/// A grid without cells has the sum 0.
pub proof fn lemma_sum_of_empty_rows(a: Seq<Seq<nat>>)
    requires
        forall|i: int| 0 <= i < a.len() ==> (#[trigger] a[i]).len() == 0,
    ensures
        grid_sum(a) == 0,
    decreases a.len(),
{
    if a.len() > 0 {
        assert forall|i: int|
            0 <= i < a.drop_last().len() implies (#[trigger] a.drop_last()[i]).len() == 0 by {
            assert(a.drop_last()[i] == a[i]);
        }
        lemma_sum_of_empty_rows(a.drop_last());
        assert(a[a.len() - 1].len() == 0);
    }
}

/// Putting one more cell at the end of every row adds the sum of the new
/// cells to the sum of the grid.
pub proof fn lemma_sum_with_column(a: Seq<Seq<nat>>, b: Seq<Seq<nat>>, x: Seq<nat>)
    requires
        x.len() == a.len(),
        b.len() == a.len(),
        forall|j: int| 0 <= j < a.len() ==> #[trigger] b[j] == a[j].push(x[j]),
    ensures
        grid_sum(b) == grid_sum(a) + line_sum(x),
    decreases a.len(),
{
    if a.len() > 0 {
        let last = a.len() - 1;
        assert forall|j: int| 0 <= j < a.drop_last().len() implies #[trigger] b.drop_last()[j]
            == a.drop_last()[j].push(x.drop_last()[j]) by {
            assert(b[j] == a[j].push(x[j]));
        }
        lemma_sum_with_column(a.drop_last(), b.drop_last(), x.drop_last());
        assert(b[last] == a[last].push(x[last]));
        assert(b[last].drop_last() =~= a[last]);
    }
}

/// The sum of a grid can be taken column by column.
pub proof fn lemma_sum_by_columns(g: Seq<Seq<nat>>, width: nat)
    requires
        forall|i: int| 0 <= i < g.len() ==> (#[trigger] g[i]).len() == width,
    ensures
        grid_sum(columns(g, width)) == grid_sum(g),
    decreases g.len(),
{
    if g.len() == 0 {
        lemma_sum_of_empty_rows(columns(g, width));
    } else {
        let above = g.drop_last();
        assert forall|i: int| 0 <= i < above.len() implies (#[trigger] above[i]).len() == width by {
            assert(above[i] == g[i]);
        }
        lemma_sum_by_columns(above, width);
        assert(g[g.len() - 1].len() == width);
        assert forall|j: int| 0 <= j < width implies #[trigger] columns(g, width)[j] == columns(
            above,
            width,
        )[j].push(g.last()[j]) by {
            assert(column(g, j) =~= column(above, j).push(g.last()[j]));
        }
        lemma_sum_with_column(columns(above, width), columns(g, width), g.last());
    }
}

/// Replacing one value of a line changes the sum by the difference of the
/// two values.
pub proof fn lemma_sum_update(line: Seq<nat>, j: int, v: nat)
    requires
        0 <= j < line.len(),
    ensures
        line_sum(line.update(j, v)) + line[j] == line_sum(line) + v,
    decreases line.len(),
{
    let changed = line.update(j, v);
    if j == line.len() - 1 {
        assert(changed.drop_last() =~= line.drop_last());
    } else {
        lemma_sum_update(line.drop_last(), j, v);
        assert(changed.drop_last() =~= line.drop_last().update(j, v));
    }
}

/// Replacing one row of a grid changes the sum by the difference of the sums
/// of the two rows.
pub proof fn lemma_grid_sum_update(g: Seq<Seq<nat>>, i: int, row: Seq<nat>)
    requires
        0 <= i < g.len(),
    ensures
        grid_sum(g.update(i, row)) + line_sum(g[i]) == grid_sum(g) + line_sum(row),
    decreases g.len(),
{
    let changed = g.update(i, row);
    if i == g.len() - 1 {
        assert(changed.drop_last() =~= g.drop_last());
    } else {
        lemma_grid_sum_update(g.drop_last(), i, row);
        assert(changed.drop_last() =~= g.drop_last().update(i, row));
    }
}

/// A move replaces every line that it works on by what `slide` makes of
/// it, and keeps the grid square.
pub proof fn lemma_shift_lane(g: Seq<Seq<nat>>, dir: Direction, k: int)
    requires
        is_square(g),
        0 <= k < g.len(),
    ensures
        is_square(shift_grid(g, dir)),
        shift_grid(g, dir).len() == g.len(),
        lane(shift_grid(g, dir), dir, k) == slide(lane(g, dir, k), dir.toward_end()),
{
    if dir.along_rows() {
        lemma_shift_row(g, dir, k);
    } else {
        lemma_shift_column(g, dir, k);
    }
}

/// Two square grids of the same size are equal if their lines along a
/// direction are.
pub proof fn lemma_equal_by_lanes(a: Seq<Seq<nat>>, b: Seq<Seq<nat>>, dir: Direction)
    requires
        is_square(a),
        is_square(b),
        a.len() == b.len(),
        forall|k: int| 0 <= k < a.len() ==> #[trigger] lane(a, dir, k) == lane(b, dir, k),
    ensures
        a == b,
{
    assert forall|i: int, j: int|
        0 <= i < a.len() && 0 <= j < a.len() implies a[i][j] == b[i][j] by {
        if dir.along_rows() {
            assert(lane(a, dir, i) == lane(b, dir, i));
        } else {
            assert(lane(a, dir, j) == lane(b, dir, j));
            assert(column(a, j)[i] == column(b, j)[i]);
        }
    }
    assert forall|i: int| 0 <= i < a.len() implies a[i] =~= b[i] by {
        assert(a[i].len() == a.len());
        assert(b[i].len() == a.len());
    }
    assert(a =~= b);
}

/// A stored grid fits into cells.
pub proof fn lemma_stored_fits(data: Seq<Vec<u32>>)
    ensures
        grid_fits(rows(data)),
{
    assert forall|i: int| 0 <= i < rows(data).len() implies fits(#[trigger] rows(data)[i]) by {
        assert forall|j: int| 0 <= j < rows(data)[i].len() implies #[trigger] rows(data)[i][j]
            <= u32::MAX by {
            assert(rows(data)[i][j] == data[i]@[j] as nat);
        }
    }
}

} // verus!
