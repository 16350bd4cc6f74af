use game2048::game::matrix::{Matrix, MatrixTrait};
use game2048::utils::{
    get_empty_cells, get_non_zeros, get_random_bool, get_random_empty_cell, rev, same_line,
};

fn grid(rows: [[u32; 4]; 4]) -> Matrix {
    let mut matrix = Matrix::default();
    for (i, row) in rows.iter().enumerate() {
        matrix.data[i] = row.to_vec();
    }
    matrix
}

fn total(matrix: &Matrix) -> u64 {
    matrix.data.iter().flatten().map(|&v| u64::from(v)).sum()
}

#[test]
fn default_grid_is_empty() {
    let matrix = Matrix::default();
    assert_eq!(matrix.width, 4);
    assert!(!matrix.changed);
    assert_eq!(matrix.data, vec![vec![0; 4]; 4]);
}

#[test]
fn new_grid_has_the_given_size() {
    let matrix = Matrix::new(5);
    assert_eq!(matrix.width, 5);
    assert!(!matrix.changed);
    assert_eq!(matrix.data, vec![vec![0; 5]; 5]);
    assert_eq!(Matrix::new(0).data, Vec::<Vec<u32>>::new());
}

#[test]
fn drawing_takes_six_columns_and_two_rows_a_cell() {
    assert_eq!(Matrix::default().get_width_on_draw(), (25, 9));
    assert_eq!(Matrix::new(3).get_width_on_draw(), (19, 7));
    assert_eq!(Matrix::new(0).get_width_on_draw(), (1, 1));
}

#[test]
fn full_grid_without_equal_neighbours_has_no_moves() {
    let matrix = grid([[2, 4, 2, 4], [4, 2, 4, 2], [2, 4, 2, 4], [4, 2, 4, 2]]);
    assert!(matrix.has_no_moves());
}

#[test]
fn grid_with_an_empty_cell_has_moves() {
    let matrix = grid([[2, 4, 2, 4], [4, 2, 4, 2], [2, 4, 2, 4], [4, 2, 4, 0]]);
    assert!(!matrix.has_no_moves());
    assert!(!Matrix::default().has_no_moves());
}

#[test]
fn full_grid_with_equal_neighbours_has_moves() {
    // equal neighbours in a row
    let matrix = grid([[2, 4, 2, 4], [4, 2, 4, 2], [2, 4, 2, 4], [4, 2, 8, 8]]);
    assert!(!matrix.has_no_moves());
    // equal neighbours in a column
    let matrix = grid([[2, 4, 2, 4], [4, 2, 4, 2], [2, 4, 2, 16], [4, 2, 4, 16]]);
    assert!(!matrix.has_no_moves());
    // equal values that do not share an edge
    let matrix = grid([[2, 4, 2, 4], [4, 2, 4, 2], [2, 4, 2, 4], [4, 2, 4, 8]]);
    assert!(matrix.has_no_moves());
}

#[test]
fn spawn_at_puts_a_two_or_a_four() {
    let mut matrix = Matrix::default();
    matrix.spawn_at((1, 2), true);
    assert_eq!(matrix.data[1], vec![0, 0, 2, 0]);
    matrix.spawn_at((3, 0), false);
    assert_eq!(matrix.data[3], vec![4, 0, 0, 0]);
    assert_eq!(total(&matrix), 6);
    assert!(!matrix.changed);
}

#[test]
fn spawn_fills_one_empty_cell_with_a_two_or_a_four() {
    for _ in 0..200 {
        let before = grid([[2, 0, 4, 8], [0, 0, 2, 2], [16, 4, 0, 2], [2, 4, 8, 0]]);
        let mut matrix = grid([[2, 0, 4, 8], [0, 0, 2, 2], [16, 4, 0, 2], [2, 4, 8, 0]]);
        matrix.spawn_number();
        let mut different = Vec::new();
        for i in 0..4 {
            for j in 0..4 {
                if matrix.data[i][j] != before.data[i][j] {
                    different.push((i, j));
                }
            }
        }
        assert_eq!(different.len(), 1);
        let (i, j) = different[0];
        assert_eq!(before.data[i][j], 0);
        assert!(matrix.data[i][j] == 2 || matrix.data[i][j] == 4);
        assert_eq!(total(&matrix), total(&before) + u64::from(matrix.data[i][j]));
        assert!(!matrix.changed);
    }
}

#[test]
fn spawn_fills_the_last_empty_cell() {
    let mut matrix = grid([[2, 4, 2, 4], [4, 2, 4, 2], [2, 4, 0, 4], [4, 2, 4, 2]]);
    matrix.spawn_number();
    assert!(matrix.data[2][2] == 2 || matrix.data[2][2] == 4);
    assert!(get_empty_cells(&matrix.data).is_empty());
}

#[test]
fn spawn_gives_both_values() {
    let mut twos = 0;
    let mut fours = 0;
    for _ in 0..400 {
        let mut matrix = Matrix::default();
        matrix.spawn_number();
        match total(&matrix) {
            2 => twos += 1,
            4 => fours += 1,
            other => panic!("a spawn added {other}"),
        }
    }
    assert!(twos > fours);
    assert!(fours > 0);
}

#[test]
fn empty_cells_come_row_by_row() {
    let data = vec![vec![2, 0, 4, 0], vec![0, 8, 8, 8], vec![2, 2, 2, 2], vec![0, 0, 0, 2]];
    assert_eq!(
        get_empty_cells(&data),
        vec![(0, 1), (0, 3), (1, 0), (3, 0), (3, 1), (3, 2)]
    );
    assert_eq!(get_empty_cells(&[]), Vec::<(usize, usize)>::new());
    assert_eq!(get_empty_cells(&[vec![0u32], vec![], vec![1, 0]]), vec![(0, 0), (2, 1)]);
}

#[test]
fn random_empty_cell_is_empty() {
    let data = vec![vec![2, 0, 4, 0], vec![0, 8, 8, 8], vec![2, 2, 2, 2], vec![2, 2, 0, 2]];
    let mut seen = Vec::new();
    for _ in 0..400 {
        let (i, j) = get_random_empty_cell(&data);
        assert_eq!(data[i][j], 0);
        if !seen.contains(&(i, j)) {
            seen.push((i, j));
        }
    }
    seen.sort();
    assert_eq!(seen, vec![(0, 1), (0, 3), (1, 0), (3, 2)]);
}

#[test]
fn random_empty_cell_of_one() {
    let data = vec![vec![2, 4], vec![0, 8]];
    assert_eq!(get_random_empty_cell(&data), (1, 0));
}

#[test]
fn random_bool_with_a_sure_outcome() {
    for _ in 0..100 {
        assert!(get_random_bool(4, 4));
        assert!(get_random_bool(1, 1));
        assert!(!get_random_bool(0, 4));
    }
}

#[test]
fn random_bool_gives_both_outcomes() {
    let mut yes = 0;
    for _ in 0..1000 {
        if get_random_bool(3, 4) {
            yes += 1;
        }
    }
    assert!(yes > 500);
    assert!(yes < 1000);
}

#[test]
fn non_zeros_keep_their_order() {
    assert_eq!(get_non_zeros(&[0, 2, 0, 4]), vec![2, 4]);
    assert_eq!(get_non_zeros(&[8, 2, 2, 4]), vec![8, 2, 2, 4]);
    assert_eq!(get_non_zeros(&[0, 0, 0, 0]), Vec::<u32>::new());
    assert_eq!(get_non_zeros(&[]), Vec::<u32>::new());
}

#[test]
fn rev_turns_a_line_round() {
    assert_eq!(rev(&[1, 2, 3, 0]), vec![0, 3, 2, 1]);
    assert_eq!(rev(&[7]), vec![7]);
    assert_eq!(rev(&[]), Vec::<u32>::new());
}

#[test]
fn same_line_compares_cell_by_cell() {
    assert!(same_line(&[2, 4, 0], &[2, 4, 0]));
    assert!(!same_line(&[2, 4, 0], &[2, 4, 2]));
    assert!(!same_line(&[2, 4], &[2, 4, 0]));
    assert!(same_line(&[], &[]));
}
