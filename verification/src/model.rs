//! The mathematical model of the board.
//!
//! A line of the board is a `Seq<nat>`: one number per cell, `0` for an empty
//! cell. A grid is a `Seq<Seq<nat>>` of rows. Everything the executable code
//! promises is stated over these two types.

use vstd::arithmetic::power2::pow2;
use vstd::prelude::*;

verus! {

/// The direction of a move.
#[derive(Clone, Copy, Debug, PartialEq, Eq, Structural)]
pub enum Direction {
    Up,
    Down,
    Left,
    Right,
}

impl Direction {
    /// Whether the move pushes tiles toward the last index of a line
    /// (the right edge of a row, the bottom edge of a column).
    pub open spec fn toward_end(self) -> bool {
        self == Direction::Right || self == Direction::Down
    }

    /// Whether the lines that the move works on are the rows of the grid.
    pub open spec fn along_rows(self) -> bool {
        self == Direction::Left || self == Direction::Right
    }
}

/// The cells of a stored line as natural numbers.
pub open spec fn tiles(line: Seq<u32>) -> Seq<nat> {
    Seq::new(line.len(), |i: int| line[i] as nat)
}

/// The rows of a stored grid as lines of natural numbers.
pub open spec fn rows(data: Seq<Vec<u32>>) -> Seq<Seq<nat>> {
    Seq::new(data.len(), |i: int| tiles(data[i]@))
}

/// Whether `v` is the value of a tile: a power of two, and at least 2.
pub open spec fn is_tile(v: nat) -> bool {
    exists|k: nat| k >= 1 && v == #[trigger] pow2(k)
}

/// Whether every cell of the line is empty or holds the value of a tile.
pub open spec fn valid_line(line: Seq<nat>) -> bool {
    forall|i: int| 0 <= i < line.len() ==> #[trigger] line[i] == 0 || is_tile(line[i])
}

/// Whether every cell of the grid is empty or holds the value of a tile.
pub open spec fn valid_grid(g: Seq<Seq<nat>>) -> bool {
    forall|i: int| 0 <= i < g.len() ==> valid_line(#[trigger] g[i])
}

/// Whether every value of the line can be stored in a cell.
pub open spec fn fits(line: Seq<nat>) -> bool {
    forall|i: int| 0 <= i < line.len() ==> #[trigger] line[i] <= u32::MAX
}

/// A line of `n` empty cells.
pub open spec fn zeros(n: nat) -> Seq<nat> {
    Seq::new(n, |i: int| 0nat)
}

/// The tiles of a line in their order, the empty cells left out.
pub open spec fn non_zeros(line: Seq<nat>) -> Seq<nat>
    decreases line.len(),
{
    if line.len() == 0 {
        Seq::empty()
    } else if line.last() == 0 {
        non_zeros(line.drop_last())
    } else {
        non_zeros(line.drop_last()).push(line.last())
    }
}

/// One merge pass over a sequence of tiles, from its first tile on: a tile
/// that equals its successor is replaced, together with it, by their sum;
/// any other tile is kept. A tile that came out of a merge is not looked at
/// again.
pub open spec fn merge_pairs(t: Seq<nat>) -> Seq<nat>
    decreases t.len(),
{
    if t.len() == 0 {
        Seq::empty()
    } else if t.len() >= 2 && t[0] == t[1] {
        seq![t[0] + t[1]] + merge_pairs(t.skip(2))
    } else {
        seq![t[0]] + merge_pairs(t.skip(1))
    }
}

/// A line after a move toward its first cell: the tiles merged, packed
/// against the first cell, the rest of the line empty.
pub open spec fn slide_to_start(line: Seq<nat>) -> Seq<nat> {
    let merged = merge_pairs(non_zeros(line));
    merged + zeros((line.len() - merged.len()) as nat)
}

/// A line after a move toward its last cell: the mirror image of a move
/// toward the first cell.
pub open spec fn slide_to_end(line: Seq<nat>) -> Seq<nat> {
    slide_to_start(line.reverse()).reverse()
}

/// The line as a move reads it: from the cell that the move goes toward.
pub open spec fn oriented(line: Seq<nat>, toward_end: bool) -> Seq<nat> {
    if toward_end {
        line.reverse()
    } else {
        line
    }
}

/// A line after a move.
pub open spec fn slide(line: Seq<nat>, toward_end: bool) -> Seq<nat> {
    if toward_end {
        slide_to_end(line)
    } else {
        slide_to_start(line)
    }
}

/// Where the tiles of `merge_pairs(t)` come from: entry `k` is the index in
/// `t` of the first tile that went into tile `k` of the result, and the
/// last entry is the length of `t`.
pub open spec fn merge_cuts(t: Seq<nat>) -> Seq<int>
    decreases t.len(),
{
    if t.len() == 0 {
        seq![0int]
    } else {
        let step: int = if t.len() >= 2 && t[0] == t[1] { 2 } else { 1 };
        let rest = merge_cuts(t.skip(step));
        seq![0int] + Seq::new(rest.len(), |k: int| rest[k] + step)
    }
}

/// Whether tile `k` of `merged` is made of the tiles of `t` from index
/// `cuts[k]` up to, but not including, index `cuts[k + 1]`: either of one
/// tile, kept as it is, which does not equal the tile after it; or of two
/// equal tiles, replaced by their sum.
pub open spec fn group_at(t: Seq<nat>, merged: Seq<nat>, cuts: Seq<int>, k: int) -> bool {
    let first = cuts[k];
    let end = cuts[k + 1];
    &&& 0 <= first < end <= t.len()
    &&& {
        ||| end == first + 1 && merged[k] == t[first] && (end < t.len() ==> t[first] != t[end])
        ||| end == first + 2 && t[first] == t[first + 1] && merged[k] == t[first] + t[first + 1]
    }
}

/// Whether `cuts` splits `t` into groups that follow one another without a
/// gap from the first tile to the last, each of one or two tiles, such that
/// tile `k` of `merged` is made of group `k`. Every tile of `t` then lies in
/// exactly one group, so that no tile is merged twice.
pub open spec fn is_pairing(t: Seq<nat>, merged: Seq<nat>, cuts: Seq<int>) -> bool {
    &&& cuts.len() == merged.len() + 1
    &&& cuts[0] == 0
    &&& cuts[merged.len() as int] == t.len()
    &&& forall|k: int| 0 <= k < merged.len() ==> #[trigger] group_at(t, merged, cuts, k)
}

/// Whether no tile of the sequence equals its successor.
pub open spec fn no_equal_pair(t: Seq<nat>) -> bool {
    forall|i: int| 0 <= i && i + 1 < t.len() ==> #[trigger] t[i] != t[i + 1]
}

/// Whether all tiles of the line lie before all of its empty cells.
pub open spec fn is_packed(line: Seq<nat>) -> bool {
    forall|i: int, j: int| 0 <= i < j < line.len() && line[i] == 0 ==> line[j] == 0
}

/// Whether no cell of the line is empty.
pub open spec fn all_tiles(line: Seq<nat>) -> bool {
    forall|i: int| 0 <= i < line.len() ==> #[trigger] line[i] != 0
}

/// The sum of the values of a line.
pub open spec fn line_sum(line: Seq<nat>) -> nat
    decreases line.len(),
{
    if line.len() == 0 {
        0
    } else {
        line_sum(line.drop_last()) + line.last()
    }
}

/// Whether the grid has as many cells in each row as it has rows.
pub open spec fn is_square(g: Seq<Seq<nat>>) -> bool {
    forall|i: int| 0 <= i < g.len() ==> (#[trigger] g[i]).len() == g.len()
}

/// Column `j` of a grid, from the top row down.
pub open spec fn column(g: Seq<Seq<nat>>, j: int) -> Seq<nat> {
    Seq::new(g.len(), |i: int| g[i][j])
}

/// The first `width` columns of a grid, as a grid whose rows they are.
pub open spec fn columns(g: Seq<Seq<nat>>, width: nat) -> Seq<Seq<nat>> {
    Seq::new(width, |j: int| column(g, j))
}

/// The grid after a move: every row (for `Left` and `Right`) or every column
/// (for `Up` and `Down`) is replaced by what `slide` makes of it.
pub open spec fn shift_grid(g: Seq<Seq<nat>>, dir: Direction) -> Seq<Seq<nat>> {
    Seq::new(
        g.len(),
        |i: int|
            Seq::new(
                g.len(),
                |j: int|
                    if dir.along_rows() {
                        slide(g[i], dir.toward_end())[j]
                    } else {
                        slide(column(g, j), dir.toward_end())[i]
                    },
            ),
    )
}

/// Line `k` of those that a move in direction `dir` works on: row `k` for
/// `Left` and `Right`, column `k` for `Up` and `Down`.
pub open spec fn lane(g: Seq<Seq<nat>>, dir: Direction, k: int) -> Seq<nat> {
    if dir.along_rows() {
        g[k]
    } else {
        column(g, k)
    }
}

/// Whether a move in direction `dir` would find no two equal tiles to
/// merge: in no line that it works on does a tile equal the next tile.
pub open spec fn settled(g: Seq<Seq<nat>>, dir: Direction) -> bool {
    forall|k: int| 0 <= k < g.len() ==> no_equal_pair(non_zeros(#[trigger] lane(g, dir, k)))
}

/// Whether every value of the grid can be stored in a cell.
pub open spec fn grid_fits(g: Seq<Seq<nat>>) -> bool {
    forall|i: int| 0 <= i < g.len() ==> fits(#[trigger] g[i])
}

/// The sum of all values of a grid.
pub open spec fn grid_sum(g: Seq<Seq<nat>>) -> nat
    decreases g.len(),
{
    if g.len() == 0 {
        0
    } else {
        grid_sum(g.drop_last()) + line_sum(g.last())
    }
}

/// Whether no cell of the grid is empty.
pub open spec fn is_full(g: Seq<Seq<nat>>) -> bool {
    forall|i: int, j: int| 0 <= i < g.len() && 0 <= j < g[i].len() ==> #[trigger] g[i][j] != 0
}

/// Whether the cell in row `i` and column `j` holds another value than the
/// cell below it and than the cell to its right, as far as the grid has
/// them.
pub open spec fn differs_from_next(g: Seq<Seq<nat>>, i: int, j: int) -> bool {
    &&& i + 1 < g.len() ==> g[i][j] != g[i + 1][j]
    &&& j + 1 < g.len() ==> g[i][j] != g[i][j + 1]
}

/// Whether no two cells of the grid that share an edge hold the same value.
pub open spec fn no_equal_neighbours(g: Seq<Seq<nat>>) -> bool {
    forall|i: int, j: int|
        0 <= i < g.len() && 0 <= j < g.len() ==> #[trigger] differs_from_next(g, i, j)
}

/// Whether the grid is full and no two neighbouring cells hold the same
/// value: no move is left.
pub open spec fn is_terminal(g: Seq<Seq<nat>>) -> bool {
    is_full(g) && no_equal_neighbours(g)
}

/// The indices of the empty cells of a line, in increasing order.
pub open spec fn gaps(line: Seq<nat>) -> Seq<int>
    decreases line.len(),
{
    if line.len() == 0 {
        Seq::empty()
    } else if line.last() == 0 {
        gaps(line.drop_last()).push(line.len() - 1)
    } else {
        gaps(line.drop_last())
    }
}

/// The empty cells of a grid as pairs of row and column: row by row from the
/// top, and within a row from the left.
pub open spec fn empty_cells(g: Seq<Seq<nat>>) -> Seq<(int, int)>
    decreases g.len(),
{
    if g.len() == 0 {
        Seq::empty()
    } else {
        empty_cells(g.drop_last()) + in_row(g.len() - 1, gaps(g.last()))
    }
}

/// The cells of row `i` in the given columns.
pub open spec fn in_row(i: int, columns: Seq<int>) -> Seq<(int, int)> {
    Seq::new(columns.len(), |k: int| (i, columns[k]))
}

/// Positions held in machine integers, as pairs of mathematical integers.
pub open spec fn positions(cells: Seq<(usize, usize)>) -> Seq<(int, int)> {
    Seq::new(cells.len(), |k: int| (cells[k].0 as int, cells[k].1 as int))
}

/// The value of a new tile: 2 for a small one, else 4.
pub open spec fn new_tile(small: bool) -> nat {
    if small {
        2
    } else {
        4
    }
}

/// Whether `after` is `before` with a tile of value `v` put into the empty
/// cell in row `i` and column `j`, and nothing else changed.
pub open spec fn placed(
    before: Seq<Seq<nat>>,
    after: Seq<Seq<nat>>,
    i: int,
    j: int,
    v: nat,
) -> bool {
    &&& 0 <= i < before.len()
    &&& 0 <= j < before[i].len()
    &&& before[i][j] == 0
    &&& after == before.update(i, before[i].update(j, v))
}

/// Whether `after` is what a spawn can make of `before`: one empty cell has
/// received a tile of value 2 or 4, and nothing else changed.
pub open spec fn spawned(before: Seq<Seq<nat>>, after: Seq<Seq<nat>>) -> bool {
    exists|i: int, j: int, v: nat| (v == 2 || v == 4) && #[trigger] placed(before, after, i, j, v)
}

} // verus!
