//! The grid of tiles and the moves on it.

use vstd::prelude::*;
use crate::grid::{
    is_empty_cell, lemma_full_iff_no_empty_cells, lemma_shift_fits, lemma_shift_line_fits,
    lemma_shift_row,
};
use crate::laws::{
    lemma_full_after_shift, lemma_placed_adds, lemma_shift_keeps_sum, lemma_shift_valid,
    lemma_slide_keeps_sum, lemma_spawned,
};
use crate::line::{
    lemma_merge_pairs_fits, lemma_merge_pairs_len, lemma_no_tiles, lemma_non_zeros_bounds,
    lemma_non_zeros_reverse, lemma_slide_fits, lemma_slide_len, lemma_tiles_injective,
};
use crate::model::{
    column, differs_from_next, fits, grid_fits, grid_sum, is_full, is_square, is_terminal, lane,
    line_sum, merge_pairs, new_tile, placed, rows, shift_grid, slide, slide_to_start, spawned,
    tiles, valid_grid, zeros, Direction,
};
use crate::utils::{
    get_empty_cells, get_non_zeros, get_random_bool, get_random_empty_cell, rev, same_line,
};

verus! {

/// Of every `SPAWN_OUT_OF` new tiles, `SPAWN_TWOS` are a 2 on average and
/// the others a 4.
pub const SPAWN_TWOS: u32 = 3;

/// See `SPAWN_TWOS`.
pub const SPAWN_OUT_OF: u32 = 4;

/// A square grid of cells. A cell holds `0` when it is empty, else the value
/// of its tile.
#[derive(Debug)]
pub struct Matrix {
    /// The rows of the grid, from the top down.
    pub data: Vec<Vec<u32>>,
    /// Whether the last move changed the grid.
    pub changed: bool,
    /// The number of rows, and of cells in each row.
    pub width: usize,
}

impl View for Matrix {
    type V = Seq<Seq<nat>>;

    /// The rows of the grid as lines of numbers.
    open spec fn view(&self) -> Seq<Seq<nat>> {
        rows(self.data@)
    }
}

impl Default for Matrix {
    /// The empty grid of four rows and four columns.
    fn default() -> (matrix: Self)
        ensures
            matrix.wf(),
            matrix.width == 4,
            !matrix.changed,
            matrix@ == Seq::new(4, |i: int| zeros(4)),
            valid_grid(matrix@),
    {
        Matrix::new(4)
    }
}

impl Matrix {
    /// The empty grid of `width` rows and `width` columns.
    pub fn new(width: usize) -> (matrix: Self)
        ensures
            matrix.wf(),
            matrix.width == width,
            !matrix.changed,
            matrix@ == Seq::new(width as nat, |i: int| zeros(width as nat)),
            valid_grid(matrix@),
    {
        let matrix = Matrix { data: vec![vec![0; width]; width], changed: false, width };
        assert(matrix@ =~~= Seq::new(width as nat, |i: int| zeros(width as nat)));
        matrix
    }

    /// The number of columns and of rows of text that a drawing of the grid
    /// takes: six columns for each cell and a closing one, two rows for each
    /// row of cells and a closing one.
    pub fn get_width_on_draw(&self) -> (size: (usize, usize))
        requires
            6 * self.width + 1 <= usize::MAX,
        ensures
            size.0 == 6 * self.width + 1,
            size.1 == 2 * self.width + 1,
    {
        let width = self.width;
        (6 * width + 1, 2 * width + 1)
    }

    /// Whether the line after a move in direction `dir` fits into cells: no
    /// two tiles that the move merges add up to more than a cell can hold.
    pub fn can_merge(numbers: &[u32], dir: Direction) -> (ok: bool)
        ensures
            ok == fits(slide(tiles(numbers@), dir.toward_end())),
    {
        let mut non_zeros = get_non_zeros(numbers);
        let ghost line = tiles(numbers@);
        match dir {
            Direction::Left | Direction::Up => {},
            Direction::Right | Direction::Down => {
                proof {
                    lemma_non_zeros_reverse(line);
                }
                non_zeros = rev(non_zeros.as_slice());
                assert(tiles(non_zeros@) =~= crate::model::non_zeros(line).reverse());
            },
        }
        let count = non_zeros.len();
        let ghost pending = tiles(non_zeros@);
        proof {
            lemma_slide_fits(line, dir.toward_end());
            assert(pending.skip(0) =~= pending);
        }
        let mut non_zero: usize = 0;
        while non_zero < count
            invariant
                count == non_zeros@.len(),
                pending == tiles(non_zeros@),
                non_zero <= count,
                fits(slide(tiles(numbers@), dir.toward_end())) == fits(merge_pairs(pending)),
                fits(merge_pairs(pending)) == fits(merge_pairs(pending.skip(non_zero as int))),
            decreases count - non_zero,
        {
            let ghost rest = pending.skip(non_zero as int);
            proof {
                lemma_merge_pairs_fits(rest);
            }
            if non_zero == count - 1 || non_zeros[non_zero] != non_zeros[non_zero + 1] {
                non_zero += 1;
                assert(rest.skip(1) =~= pending.skip(non_zero as int));
            } else {
                if non_zeros[non_zero] > u32::MAX / 2 {
                    return false;
                }
                non_zero += 2;
                assert(rest.skip(2) =~= pending.skip(non_zero as int));
            }
        }
        assert(merge_pairs(pending.skip(non_zero as int)) =~= Seq::<nat>::empty());
        true
    }

    /// A copy of line `k` of those that a move in direction `dir` works on.
    fn lane_of(&self, dir: Direction, k: usize) -> (line: Vec<u32>)
        requires
            self.wf(),
            k < self.width,
        ensures
            tiles(line@) == lane(self@, dir, k as int),
    {
        match dir {
            Direction::Left | Direction::Right => {
                let line = vstd::slice::slice_to_vec(self.data[k].as_slice());
                assert(tiles(line@) =~= self@[k as int]);
                line
            },
            Direction::Up | Direction::Down => {
                let width = self.width;
                let mut line: Vec<u32> = Vec::new();
                let mut i: usize = 0;
                while i < width
                    invariant
                        i <= width,
                        k < width,
                        self.width == width,
                        self.wf(),
                        line@.len() == i,
                        forall|r: int|
                            0 <= r < i ==> #[trigger] line@[r] == self.data@[r]@[k as int],
                    decreases width - i,
                {
                    line.push(self.data[i][k]);
                    i += 1;
                }
                assert(tiles(line@) =~= column(self@, k as int));
                line
            },
        }
    }

    /// Whether the grid after a move in direction `dir` fits into cells: no
    /// two tiles that the move merges add up to more than a cell can hold.
    /// `shift` may be called exactly when this is `true`.
    pub fn can_shift(&self, dir: Direction) -> (ok: bool)
        requires
            self.wf(),
        ensures
            ok == grid_fits(shift_grid(self@, dir)),
    {
        let width = self.width;
        let mut k: usize = 0;
        while k < width
            invariant
                k <= width,
                self.width == width,
                self.wf(),
                forall|p: int|
                    0 <= p < k ==> fits(slide(#[trigger] lane(self@, dir, p), dir.toward_end())),
            decreases width - k,
        {
            let line = self.lane_of(dir, k);
            if !Matrix::can_merge(line.as_slice(), dir) {
                proof {
                    lemma_shift_fits(self@, dir);
                }
                return false;
            }
            k += 1;
        }
        proof {
            lemma_shift_fits(self@, dir);
        }
        true
    }

    /// Puts a new tile into the empty cell `cell`, given as row and column:
    /// a 2 if `small`, else a 4.
    pub fn spawn_at(&mut self, cell: (usize, usize), small: bool)
        requires
            old(self).wf(),
            is_empty_cell(old(self)@, cell.0 as int, cell.1 as int),
        ensures
            final(self).wf(),
            final(self).width == old(self).width,
            final(self).changed == old(self).changed,
            placed(old(self)@, final(self)@, cell.0 as int, cell.1 as int, new_tile(small)),
            spawned(old(self)@, final(self)@),
            grid_sum(final(self)@) == grid_sum(old(self)@) + new_tile(small),
            valid_grid(old(self)@) ==> valid_grid(final(self)@),
    {
        let ghost before = self@;
        let value: u32 = if small { 2 } else { 4 };
        self.data[cell.0][cell.1] = value;
        proof {
            assert(self@ =~~= before.update(
                cell.0 as int,
                before[cell.0 as int].update(cell.1 as int, value as nat),
            ));
            assert(placed(before, self@, cell.0 as int, cell.1 as int, value as nat));
            lemma_placed_adds(before, self@, cell.0 as int, cell.1 as int, value as nat);
            lemma_spawned(before, self@);
        }
    }
}

/// The moves of the game on a grid, stated over the grid as rows of
/// numbers.
pub trait MatrixTrait: View<V = Seq<Seq<nat>>> {
    /// The number of cells in a line of the grid.
    spec fn side(&self) -> nat;

    /// Whether the stored rows form a square of that side.
    spec fn wf(&self) -> bool;

    /// The flag that tells whether the last move changed the grid.
    spec fn flag(&self) -> bool;

    /// Puts a new tile into an empty cell drawn at random: a 2, or less
    /// often a 4.
    fn spawn_number(&mut self)
        requires
            old(self).wf(),
            !is_full(old(self)@),
        ensures
            final(self).wf(),
            final(self).side() == old(self).side(),
            final(self).flag() == old(self).flag(),
            spawned(old(self)@, final(self)@),
            grid_sum(final(self)@) == grid_sum(old(self)@) + 2 || grid_sum(final(self)@)
                == grid_sum(old(self)@) + 4,
            valid_grid(old(self)@) ==> valid_grid(final(self)@),
    ;

    /// The line after a move in direction `dir`, and whether it differs from
    /// the line before.
    fn update_vector(&self, vector: &[u32], dir: Direction) -> (moved: (Vec<u32>, bool))
        requires
            vector@.len() == self.side(),
            fits(slide(tiles(vector@), dir.toward_end())),
        ensures
            tiles(moved.0@) == slide(tiles(vector@), dir.toward_end()),
            moved.1 == (slide(tiles(vector@), dir.toward_end()) != tiles(vector@)),
    ;

    /// Moves the tiles of every line in direction `dir`, and tells whether
    /// that changed the grid.
    fn shift(&mut self, dir: Direction) -> (changed: bool)
        requires
            old(self).wf(),
            grid_fits(shift_grid(old(self)@, dir)),
        ensures
            final(self).wf(),
            final(self).side() == old(self).side(),
            final(self)@ == shift_grid(old(self)@, dir),
            changed == (final(self)@ != old(self)@),
            final(self).flag() == changed,
            changed ==> !is_full(final(self)@),
            grid_sum(final(self)@) == grid_sum(old(self)@),
            valid_grid(old(self)@) ==> valid_grid(final(self)@),
    ;

    /// The line after a move in direction `dir`.
    fn merge(&self, numbers: &[u32], dir: Direction) -> (moved: Vec<u32>)
        requires
            numbers@.len() == self.side(),
            fits(slide(tiles(numbers@), dir.toward_end())),
        ensures
            tiles(moved@) == slide(tiles(numbers@), dir.toward_end()),
            line_sum(tiles(moved@)) == line_sum(tiles(numbers@)),
    ;

    /// Whether the game is over: the grid is full and no two neighbours hold
    /// the same value.
    fn has_no_moves(&self) -> (over: bool)
        requires
            self.wf(),
        ensures
            over == is_terminal(self@),
    ;
}

impl MatrixTrait for Matrix {
    open spec fn side(&self) -> nat {
        self.width as nat
    }

    open spec fn wf(&self) -> bool {
        &&& self.data@.len() == self.width
        &&& forall|i: int|
            0 <= i < self.data@.len() ==> (#[trigger] self.data@[i])@.len() == self.width
    }

    open spec fn flag(&self) -> bool {
        self.changed
    }

    fn spawn_number(&mut self) {
        proof {
            lemma_full_iff_no_empty_cells(self@);
        }
        let cell = get_random_empty_cell(self.data.as_slice());
        let random_value = get_random_bool(SPAWN_TWOS, SPAWN_OUT_OF);
        self.spawn_at(cell, random_value);
        proof {
            lemma_spawned(old(self)@, self@);
        }
    }

    fn update_vector(&self, vector: &[u32], dir: Direction) -> (moved: (Vec<u32>, bool)) {
        let merged = self.merge(vector, dir);
        let changed = !same_line(merged.as_slice(), vector);
        proof {
            lemma_tiles_injective(merged@, vector@);
        }
        (merged, changed)
    }

    fn shift(&mut self, dir: Direction) -> (changed: bool) {
        let width = self.width;
        let ghost before = self@;
        let ghost toward_end = dir.toward_end();
        assert(is_square(before));
        proof {
            lemma_shift_keeps_sum(before, dir);
            if valid_grid(before) {
                lemma_shift_valid(before, dir);
            }
            if is_full(shift_grid(before, dir)) {
                lemma_full_after_shift(before, dir);
            }
        }
        self.changed = false;

        match dir {
            Direction::Right | Direction::Left => {
                let mut i: usize = 0;
                while i < width
                    invariant
                        i <= width,
                        self.width == width,
                        self.wf(),
                        before.len() == width,
                        is_square(before),
                        dir.along_rows(),
                        toward_end == dir.toward_end(),
                        grid_fits(shift_grid(before, dir)),
                        forall|r: int|
                            0 <= r < i ==> #[trigger] self@[r] == slide(before[r], toward_end),
                        forall|r: int| i <= r < width ==> #[trigger] self@[r] == before[r],
                        self.changed == (self@ != before),
                    decreases width - i,
                {
                    let ghost entry = self@;
                    proof {
                        lemma_shift_line_fits(before, dir, i as int);
                        lemma_slide_len(before[i as int], toward_end);
                        assert(self@[i as int] == before[i as int]);
                    }
                    let (moved, changed) = self.update_vector(self.data[i].as_slice(), dir);
                    assert(moved@.len() == tiles(moved@).len());

                    if changed {
                        self.data[i] = moved;
                        self.changed = true;
                        proof {
                            assert(self@ =~= entry.update(i as int, tiles(moved@)));
                            assert(self@[i as int] != before[i as int]);
                        }
                    }
                    i += 1;
                }
                proof {
                    assert forall|r: int| 0 <= r < width implies #[trigger] self@[r] == shift_grid(
                        before,
                        dir,
                    )[r] by {
                        lemma_shift_row(before, dir, r);
                    }
                    assert(self@ =~= shift_grid(before, dir));
                }
            },
            Direction::Up | Direction::Down => {
                let mut j: usize = 0;
                while j < width
                    invariant
                        j <= width,
                        self.width == width,
                        self.wf(),
                        before.len() == width,
                        is_square(before),
                        !dir.along_rows(),
                        toward_end == dir.toward_end(),
                        grid_fits(shift_grid(before, dir)),
                        forall|r: int, c: int|
                            0 <= r < width && 0 <= c < j ==> #[trigger] self@[r][c] == slide(
                                column(before, c),
                                toward_end,
                            )[r],
                        forall|r: int, c: int|
                            0 <= r < width && j <= c < width ==> #[trigger] self@[r][c]
                                == before[r][c],
                        self.changed == (self@ != before),
                    decreases width - j,
                {
                    let ghost entry = self@;
                    let mut numbers: Vec<u32> = vec![0; width];
                    let mut i: usize = 0;
                    while i < width
                        invariant
                            i <= width,
                            j < width,
                            self.width == width,
                            self.wf(),
                            numbers@.len() == width,
                            forall|r: int|
                                0 <= r < i ==> #[trigger] numbers@[r] == self.data@[r]@[j as int],
                        decreases width - i,
                    {
                        numbers[i] = self.data[i][j];
                        i += 1;
                    }
                    proof {
                        assert(tiles(numbers@) =~= column(before, j as int)) by {
                            assert forall|r: int| 0 <= r < width implies tiles(numbers@)[r]
                                == column(before, j as int)[r] by {
                                assert(self@[r][j as int] == before[r][j as int]);
                            }
                        }
                        lemma_shift_line_fits(before, dir, j as int);
                        lemma_slide_len(column(before, j as int), toward_end);
                    }

                    let (moved, changed) = self.update_vector(numbers.as_slice(), dir);

                    if changed {
                        self.changed = true;
                        let mut i: usize = 0;
                        while i < moved.len()
                            invariant
                                i <= width,
                                j < width,
                                self.changed,
                                moved@.len() == width,
                                self.width == width,
                                self.wf(),
                                entry.len() == width,
                                is_square(entry),
                                forall|r: int, c: int|
                                    0 <= r < width && 0 <= c < width && c != j
                                        ==> #[trigger] self@[r][c] == entry[r][c],
                                forall|r: int|
                                    0 <= r < i ==> #[trigger] self@[r][j as int] == moved@[r],
                                forall|r: int|
                                    i <= r < width ==> #[trigger] self@[r][j as int]
                                        == entry[r][j as int],
                            decreases width - i,
                        {
                            let ghost step = self@;
                            self.data[i][j] = moved[i];
                            assert(self@ =~~= step.update(
                                i as int,
                                step[i as int].update(j as int, moved@[i as int] as nat),
                            ));
                            i += 1;
                        }
                        proof {
                            let line = column(before, j as int);
                            if forall|r: int| 0 <= r < width ==> tiles(moved@)[r] == line[r] {
                                assert(tiles(moved@) =~= line);
                            }
                            let r = choose|r: int| 0 <= r < width && tiles(moved@)[r] != line[r];
                            assert(self@[r][j as int] != before[r][j as int]);
                        }
                    }
                    proof {
                        assert forall|r: int, c: int|
                            0 <= r < width && 0 <= c < j + 1 implies #[trigger] self@[r][c]
                            == slide(column(before, c), toward_end)[r] by {
                            if c == j {
                                assert(tiles(moved@)[r] == moved@[r]);
                                assert(column(before, c)[r] == before[r][c]);
                                assert(entry[r][c] == before[r][c]);
                            } else {
                                assert(entry[r][c] == slide(column(before, c), toward_end)[r]);
                            }
                        }
                        assert forall|r: int, c: int|
                            0 <= r < width && j + 1 <= c < width implies #[trigger] self@[r][c]
                            == before[r][c] by {
                            assert(entry[r][c] == before[r][c]);
                        }
                    }
                    j += 1;
                }
                proof {
                    assert forall|r: int, c: int|
                        0 <= r < width && 0 <= c < width implies self@[r][c]
                        == #[trigger] shift_grid(before, dir)[r][c] by {
                        assert(self@[r][c] == slide(column(before, c), toward_end)[r]);
                    }
                    assert(self@ =~~= shift_grid(before, dir));
                }
            },
        }

        self.changed
    }

    fn merge(&self, numbers: &[u32], dir: Direction) -> (moved: Vec<u32>) {
        let mut non_zeros = get_non_zeros(numbers);
        let count = non_zeros.len();
        let ghost line = tiles(numbers@);
        proof {
            lemma_non_zeros_bounds(line);
            lemma_non_zeros_reverse(line);
            lemma_slide_keeps_sum(line, dir.toward_end());
        }

        if count == 0 {
            proof {
                lemma_no_tiles(line);
                assert(line.reverse() =~= line);
                assert(slide_to_start(line) =~= line);
            }
            return vstd::slice::slice_to_vec(numbers);
        }
        let width = self.width;
        let mut moved: Vec<u32> = vec![0; width];

        // revert the non-zero numbers
        let mut revert = false;
        match dir {
            Direction::Left | Direction::Up => {},
            Direction::Right | Direction::Down => {
                non_zeros = rev(non_zeros.as_slice());
                revert = true;
                assert(tiles(non_zeros@) =~= crate::model::non_zeros(line).reverse());
            },
        }
        let ghost oriented = if revert { line.reverse() } else { line };
        let ghost pending = tiles(non_zeros@);
        proof {
            lemma_slide_fits(line, revert);
            lemma_merge_pairs_len(pending);
            assert(pending.skip(0) =~= pending);
            assert(tiles(moved@).take(0) + merge_pairs(pending) =~= merge_pairs(pending));
        }

        let mut index: usize = 0;
        let mut non_zero: usize = 0;
        while non_zero < count
            invariant
                count == non_zeros@.len(),
                pending == tiles(non_zeros@),
                moved@.len() == width,
                count <= width,
                index <= non_zero <= count,
                fits(merge_pairs(pending)),
                tiles(moved@).take(index as int) + merge_pairs(pending.skip(non_zero as int))
                    == merge_pairs(pending),
                forall|k: int| index <= k < width ==> moved@[k] == 0,
            decreases count - non_zero,
        {
            let ghost rest = pending.skip(non_zero as int);
            let ghost done = tiles(moved@).take(index as int);
            assert(merge_pairs(pending)[index as int] == merge_pairs(rest)[0]);
            if non_zero == count - 1 || non_zeros[non_zero] != non_zeros[non_zero + 1] {
                moved[index] = non_zeros[non_zero];
                non_zero += 1;
                proof {
                    assert(rest.skip(1) =~= pending.skip(non_zero as int));
                    assert(tiles(moved@).take(index + 1) =~= done.push(rest[0]));
                    assert(done.push(rest[0]) + merge_pairs(rest.skip(1)) =~= done + merge_pairs(
                        rest,
                    ));
                }
            } else {
                moved[index] = non_zeros[non_zero] * 2;
                non_zero += 2;
                proof {
                    assert(rest.skip(2) =~= pending.skip(non_zero as int));
                    assert(tiles(moved@).take(index + 1) =~= done.push(rest[0] + rest[1]));
                    assert(done.push(rest[0] + rest[1]) + merge_pairs(rest.skip(2)) =~= done
                        + merge_pairs(rest));
                }
            }
            index += 1;
        }
        proof {
            assert(pending.skip(non_zero as int) =~= Seq::<nat>::empty());
            assert(tiles(moved@).take(index as int) =~= merge_pairs(pending));
            assert(tiles(moved@) =~= slide_to_start(oriented));
        }

        if revert {
            moved = rev(moved.as_slice());
            assert(tiles(moved@) =~= slide_to_start(oriented).reverse());
        }
        moved
    }

    fn has_no_moves(&self) -> (over: bool) {
        proof {
            lemma_full_iff_no_empty_cells(self@);
        }
        if !get_empty_cells(self.data.as_slice()).is_empty() {
            return false;
        }
        let width = self.width;
        let mut i: usize = 0;
        while i < width
            invariant
                i <= width,
                self.width == width,
                self.wf(),
                is_full(self@),
                forall|r: int, c: int|
                    0 <= r < i && 0 <= c < width ==> #[trigger] differs_from_next(self@, r, c),
            decreases width - i,
        {
            let mut j: usize = 0;
            while j < width
                invariant
                    i < width,
                    j <= width,
                    self.width == width,
                    self.wf(),
                    is_full(self@),
                    forall|r: int, c: int|
                        0 <= r < i && 0 <= c < width ==> #[trigger] differs_from_next(self@, r, c),
                    forall|c: int| 0 <= c < j ==> #[trigger] differs_from_next(self@, i as int, c),
                decreases width - j,
            {
                if i < width - 1 && self.data[i][j] == self.data[i + 1][j] {
                    assert(!differs_from_next(self@, i as int, j as int));
                    return false;
                }
                if j < width - 1 && self.data[i][j] == self.data[i][j + 1] {
                    assert(!differs_from_next(self@, i as int, j as int));
                    return false;
                }
                j += 1;
            }
            i += 1;
        }
        true
    }
}

} // verus!
