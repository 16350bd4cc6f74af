use game2048::game::matrix::{Matrix, MatrixTrait};
use game2048::model::Direction;

fn with_first_row(row: [u32; 4]) -> Matrix {
    let mut matrix = Matrix::default();
    matrix.data[0] = row.to_vec();
    matrix
}

fn with_rows(rows: [[u32; 4]; 4]) -> Matrix {
    let mut matrix = Matrix::default();
    for (i, row) in rows.iter().enumerate() {
        matrix.data[i] = row.to_vec();
    }
    matrix
}

fn total(matrix: &Matrix) -> u64 {
    matrix.data.iter().flatten().map(|&v| u64::from(v)).sum()
}

#[test]
fn pair_merges_to_the_left() {
    let mut matrix = with_first_row([2, 2, 0, 0]);
    let changed = matrix.shift(Direction::Left);
    assert_eq!(matrix.data[0], vec![4, 0, 0, 0]);
    assert!(changed);
    assert!(matrix.changed);
}

#[test]
fn pair_merges_to_the_right() {
    let mut matrix = with_first_row([2, 2, 0, 0]);
    let changed = matrix.shift(Direction::Right);
    assert_eq!(matrix.data[0], vec![0, 0, 0, 4]);
    assert!(changed);
    assert!(matrix.changed);
}

#[test]
fn four_equal_tiles_merge_into_two_pairs() {
    let mut matrix = with_first_row([2, 2, 2, 2]);
    let changed = matrix.shift(Direction::Left);
    assert_eq!(matrix.data[0], vec![4, 4, 0, 0]);
    assert!(changed);
}

#[test]
fn merged_tile_does_not_merge_again() {
    let mut matrix = with_first_row([4, 2, 2, 0]);
    let changed = matrix.shift(Direction::Left);
    assert_eq!(matrix.data[0], vec![4, 4, 0, 0]);
    assert!(changed);
}

#[test]
fn line_without_equal_neighbours_stays() {
    let mut matrix = with_first_row([2, 4, 2, 0]);
    let changed = matrix.shift(Direction::Left);
    assert_eq!(matrix.data[0], vec![2, 4, 2, 0]);
    assert!(!changed);
    assert!(!matrix.changed);
}

#[test]
fn three_equal_tiles_pair_from_the_edge_of_the_move() {
    let mut matrix = with_first_row([2, 2, 2, 0]);
    matrix.shift(Direction::Left);
    assert_eq!(matrix.data[0], vec![4, 2, 0, 0]);

    let mut matrix = with_first_row([2, 2, 2, 0]);
    matrix.shift(Direction::Right);
    assert_eq!(matrix.data[0], vec![0, 0, 2, 4]);
}

#[test]
fn tiles_slide_over_gaps() {
    let mut matrix = with_first_row([0, 2, 0, 2]);
    assert!(matrix.shift(Direction::Left));
    assert_eq!(matrix.data[0], vec![4, 0, 0, 0]);

    let mut matrix = with_first_row([2, 0, 0, 4]);
    assert!(matrix.shift(Direction::Right));
    assert_eq!(matrix.data[0], vec![0, 0, 2, 4]);
}

#[test]
fn empty_grid_does_not_change() {
    for dir in [Direction::Left, Direction::Right, Direction::Up, Direction::Down] {
        let mut matrix = Matrix::default();
        assert!(!matrix.shift(dir));
        assert!(!matrix.changed);
        assert_eq!(matrix.data, vec![vec![0; 4]; 4]);
    }
}

#[test]
fn shift_clears_a_stale_flag_when_nothing_moves() {
    let mut matrix = with_first_row([2, 4, 2, 0]);
    matrix.changed = true;
    assert!(!matrix.shift(Direction::Left));
    assert!(!matrix.changed);
}

#[test]
fn columns_move_up_and_down() {
    let rows = [[2, 0, 4, 2], [2, 0, 4, 2], [0, 8, 4, 2], [4, 8, 0, 2]];
    let mut matrix = with_rows(rows);
    assert!(matrix.shift(Direction::Up));
    assert_eq!(
        matrix.data,
        vec![vec![4, 16, 8, 4], vec![4, 0, 4, 4], vec![0, 0, 0, 0], vec![0, 0, 0, 0]]
    );

    let mut matrix = with_rows(rows);
    assert!(matrix.shift(Direction::Down));
    assert_eq!(
        matrix.data,
        vec![vec![0, 0, 0, 0], vec![0, 0, 0, 0], vec![4, 0, 4, 4], vec![4, 16, 8, 4]]
    );
}

#[test]
fn only_changed_lines_set_the_flag() {
    let mut matrix = with_rows([[2, 4, 8, 16], [0, 0, 0, 0], [4, 0, 0, 0], [0, 0, 0, 2]]);
    assert!(matrix.shift(Direction::Left));
    assert_eq!(
        matrix.data,
        vec![vec![2, 4, 8, 16], vec![0, 0, 0, 0], vec![4, 0, 0, 0], vec![2, 0, 0, 0]]
    );
}

#[test]
fn second_shift_changes_nothing_when_no_equal_tiles_are_left() {
    let mut matrix = with_rows([[2, 2, 8, 0], [0, 4, 0, 2], [2, 0, 0, 2], [16, 8, 4, 2]]);
    assert!(matrix.shift(Direction::Left));
    let once = matrix.data.clone();
    assert_eq!(
        once,
        vec![vec![4, 8, 0, 0], vec![4, 2, 0, 0], vec![4, 0, 0, 0], vec![16, 8, 4, 2]]
    );
    assert!(!matrix.shift(Direction::Left));
    assert_eq!(matrix.data, once);
}

#[test]
fn second_shift_merges_tiles_that_the_first_made_equal() {
    let mut matrix = with_first_row([2, 2, 4, 0]);
    assert!(matrix.shift(Direction::Left));
    assert_eq!(matrix.data[0], vec![4, 4, 0, 0]);
    assert!(matrix.shift(Direction::Left));
    assert_eq!(matrix.data[0], vec![8, 0, 0, 0]);
}

#[test]
fn shift_keeps_the_sum_of_the_grid() {
    let rows = [[2, 2, 4, 4], [8, 0, 8, 16], [0, 0, 2, 2], [32, 32, 32, 32]];
    for dir in [Direction::Left, Direction::Right, Direction::Up, Direction::Down] {
        let mut matrix = with_rows(rows);
        let before = total(&matrix);
        matrix.shift(dir);
        assert_eq!(total(&matrix), before);
        assert_eq!(before, 176);
    }
}

#[test]
fn merge_gives_the_line_after_the_move() {
    let matrix = Matrix::default();
    assert_eq!(matrix.merge(&[2, 2, 4, 4], Direction::Left), vec![4, 8, 0, 0]);
    assert_eq!(matrix.merge(&[2, 2, 4, 4], Direction::Right), vec![0, 0, 4, 8]);
    assert_eq!(matrix.merge(&[0, 4, 0, 4], Direction::Up), vec![8, 0, 0, 0]);
    assert_eq!(matrix.merge(&[0, 4, 0, 4], Direction::Down), vec![0, 0, 0, 8]);
    assert_eq!(matrix.merge(&[0, 0, 0, 0], Direction::Right), vec![0, 0, 0, 0]);
    assert_eq!(matrix.merge(&[8, 8, 8, 0], Direction::Right), vec![0, 0, 8, 16]);
}

#[test]
fn update_vector_tells_whether_the_line_changed() {
    let matrix = Matrix::default();
    assert_eq!(matrix.update_vector(&[2, 0, 2, 0], Direction::Left), (vec![4, 0, 0, 0], true));
    assert_eq!(matrix.update_vector(&[4, 2, 0, 0], Direction::Left), (vec![4, 2, 0, 0], false));
    assert_eq!(matrix.update_vector(&[4, 2, 0, 0], Direction::Right), (vec![0, 0, 4, 2], true));
    assert_eq!(matrix.update_vector(&[0, 0, 0, 0], Direction::Down), (vec![0, 0, 0, 0], false));
}

#[test]
fn largest_tiles_cannot_merge() {
    let top = 1u32 << 31;
    assert!(!Matrix::can_merge(&[top, top, 0, 0], Direction::Left));
    assert!(Matrix::can_merge(&[top, 2, top, 0], Direction::Left));
    assert!(Matrix::can_merge(&[top / 2, top / 2, 0, 0], Direction::Left));
    // The pair is taken from the edge of the move: toward the right the two
    // large tiles meet, toward the left they do not.
    let half = top / 2;
    assert!(Matrix::can_merge(&[half, half, top, 0], Direction::Left));
    assert!(!Matrix::can_merge(&[top, top, top, 0], Direction::Right));

    let mut matrix = with_rows([[top, 0, 0, 0], [top, 0, 0, 0], [0; 4], [0; 4]]);
    assert!(matrix.can_shift(Direction::Left));
    assert!(matrix.can_shift(Direction::Right));
    assert!(!matrix.can_shift(Direction::Up));
    assert!(!matrix.can_shift(Direction::Down));
    assert!(matrix.shift(Direction::Right));
    assert_eq!(matrix.data[0], vec![0, 0, 0, top]);
}

#[test]
fn half_of_the_largest_tile_merges() {
    let half = 1u32 << 30;
    let mut matrix = with_first_row([half, half, 0, 0]);
    assert!(matrix.can_shift(Direction::Left));
    assert!(matrix.shift(Direction::Left));
    assert_eq!(matrix.data[0], vec![1u32 << 31, 0, 0, 0]);
}

#[test]
fn grids_of_other_sizes_shift() {
    let mut matrix = Matrix::new(3);
    matrix.data[1] = vec![2, 2, 2];
    assert!(matrix.shift(Direction::Right));
    assert_eq!(matrix.data, vec![vec![0, 0, 0], vec![0, 2, 4], vec![0, 0, 0]]);
    assert!(matrix.shift(Direction::Down));
    assert_eq!(matrix.data, vec![vec![0, 0, 0], vec![0, 0, 0], vec![0, 2, 4]]);
}
