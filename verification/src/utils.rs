//! Helpers on lines and grids of cells.

use rand::distributions::{Bernoulli, Distribution};
use rand::Rng;
use vstd::prelude::*;
use crate::grid::{is_empty_cell, lemma_empty_cells, lemma_gaps_step};
use crate::line::lemma_non_zeros_step;
use crate::model::{empty_cells, gaps, in_row, positions, rows, tiles};

verus! {

/// One of the empty cells of the grid, drawn at random.
pub fn get_random_empty_cell(data: &[Vec<u32>]) -> (cell: (usize, usize))
    requires
        empty_cells(rows(data@)).len() > 0,
    ensures
        is_empty_cell(rows(data@), cell.0 as int, cell.1 as int),
        empty_cells(rows(data@)).contains((cell.0 as int, cell.1 as int)),
{
    let empty_cells = get_empty_cells(data);
    let pick = rand_in_range(0, empty_cells.len());
    proof {
        lemma_empty_cells(rows(data@));
        assert(positions(empty_cells@)[pick as int] == crate::model::empty_cells(
            rows(data@),
        )[pick as int]);
    }
    empty_cells[pick]
}

/// A random bit that is `true` with a chance of `numerator` in
/// `denominator`.
///
/// Calls `rand::distributions::Bernoulli::from_ratio` and samples the
/// distribution once from `rand::thread_rng()`. Trusted: that the draw is
/// always `true` where the two numbers are equal, and always `false` where
/// the numerator is 0; nothing is claimed of any other draw. `from_ratio`
/// refuses a denominator of 0 and a numerator above the denominator, which
/// `requires` leaves out. The generator is seeded by the system and panics
/// if the system cannot seed it.
#[verifier::external_body]
pub fn get_random_bool(numerator: u32, denominator: u32) -> (outcome: bool)
    requires
        numerator <= denominator,
        denominator != 0,
    ensures
        numerator == denominator ==> outcome,
        numerator == 0 ==> !outcome,
{
    Bernoulli::from_ratio(numerator, denominator).unwrap().sample(&mut rand::thread_rng())
}

/// The empty cells of the grid as pairs of row and column: row by row from
/// the top, and within a row from the left.
pub fn get_empty_cells(data: &[Vec<u32>]) -> (empty: Vec<(usize, usize)>)
    ensures
        positions(empty@) == empty_cells(rows(data@)),
{
    let mut empty: Vec<(usize, usize)> = Vec::new();
    let ghost grid = rows(data@);
    let mut i: usize = 0;
    while i < data.len()
        invariant
            i <= data@.len(),
            grid == rows(data@),
            positions(empty@) == empty_cells(grid.take(i as int)),
        decreases data@.len() - i,
    {
        let row = &data[i];
        let ghost above = empty_cells(grid.take(i as int));
        let mut j: usize = 0;
        assert(positions(empty@) =~= above + in_row(i as int, gaps(tiles(row@).take(0))));
        while j < row.len()
            invariant
                j <= row@.len(),
                positions(empty@) == above + in_row(i as int, gaps(tiles(row@).take(j as int))),
            decreases row@.len() - j,
        {
            proof {
                lemma_gaps_step(tiles(row@), j as int);
            }
            if row[j] == 0 {
                let ghost before = positions(empty@);
                empty.push((i, j));
                assert(positions(empty@) =~= before.push((i as int, j as int)));
                assert(in_row(i as int, gaps(tiles(row@).take(j + 1))) =~= in_row(
                    i as int,
                    gaps(tiles(row@).take(j as int)),
                ).push((i as int, j as int)));
            }
            j += 1;
        }
        proof {
            assert(tiles(row@).take(j as int) =~= tiles(row@));
            assert(grid.take(i + 1).drop_last() =~= grid.take(i as int));
            assert(grid.take(i + 1).last() == tiles(row@));
        }
        i += 1;
    }
    assert(grid.take(i as int) =~= grid);
    empty
}

/// The tiles of a line in their order, the empty cells left out.
pub fn get_non_zeros(vector: &[u32]) -> (non_zeros: Vec<u32>)
    ensures
        tiles(non_zeros@) == crate::model::non_zeros(tiles(vector@)),
{
    let mut non_zeros: Vec<u32> = Vec::new();
    let mut i: usize = 0;
    while i < vector.len()
        invariant
            i <= vector@.len(),
            tiles(non_zeros@) == crate::model::non_zeros(tiles(vector@).take(i as int)),
        decreases vector@.len() - i,
    {
        let x = vector[i];
        proof {
            lemma_non_zeros_step(tiles(vector@), i as int);
        }
        if x != 0 {
            let ghost before = non_zeros@;
            non_zeros.push(x);
            assert(tiles(non_zeros@) =~= tiles(before).push(x as nat));
        }
        i += 1;
    }
    assert(tiles(vector@).take(i as int) =~= tiles(vector@));
    non_zeros
}

/// Whether the two lines hold the same cells.
pub fn same_line(a: &[u32], b: &[u32]) -> (same: bool)
    ensures
        same == (a@ == b@),
{
    if a.len() != b.len() {
        return false;
    }
    let mut i: usize = 0;
    while i < a.len()
        invariant
            a@.len() == b@.len(),
            i <= a@.len(),
            forall|k: int| 0 <= k < i ==> a@[k] == b@[k],
        decreases a@.len() - i,
    {
        if a[i] != b[i] {
            return false;
        }
        i += 1;
    }
    assert(a@ =~= b@);
    true
}

/// A copy of the line with its cells in the opposite order.
pub fn rev(vector: &[u32]) -> (reversed: Vec<u32>)
    ensures
        reversed@ == vector@.reverse(),
{
    let mut reversed: Vec<u32> = Vec::new();
    let mut i: usize = vector.len();
    while i > 0
        invariant
            i <= vector@.len(),
            reversed@.len() == vector@.len() - i,
            forall|k: int|
                0 <= k < reversed@.len() ==> reversed@[k] == vector@[vector@.len() - 1 - k],
        decreases i,
    {
        i -= 1;
        reversed.push(vector[i]);
    }
    assert(reversed@ =~= vector@.reverse());
    reversed
}

/// A random index from `min` up to, but not including, `max`.
///
/// Calls `rand::Rng::gen_range` on `rand::thread_rng()` with the half-open
/// range from `min` to `max`. Trusted: that the draw lies in that range.
/// The call panics on an empty range, which `requires` leaves out. The
/// generator is seeded by the system and panics if the system cannot seed
/// it.
#[verifier::external_body]
fn rand_in_range(min: usize, max: usize) -> (draw: usize)
    requires
        min < max,
    ensures
        min <= draw < max,
{
    rand::thread_rng().gen_range(min..max)
}

} // verus!
