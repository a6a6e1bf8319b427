use pixelsort::transpose;

fn naive<T: Copy>(matrix: &Vec<Vec<T>>) -> Vec<Vec<T>> {
    let height = matrix.len();
    let width = matrix[0].len();
    let mut out = Vec::new();
    for j in 0..width {
        let mut column = Vec::new();
        for i in 0..height {
            column.push(matrix[i][j]);
        }
        out.push(column);
    }
    out
}

#[test]
fn transposing_three_by_two_twice_gives_it_back() {
    let matrix = vec![vec!['a', 'b', 'c'], vec!['d', 'e', 'f']];
    let once = transpose(matrix.clone());
    assert_eq!(once, vec![vec!['a', 'd'], vec!['b', 'e'], vec!['c', 'f']]);
    let twice = transpose(once);
    assert_eq!(twice, matrix);
}

#[test]
fn transposing_an_empty_matrix_gives_an_empty_matrix() {
    let matrix: Vec<Vec<u32>> = Vec::new();
    assert_eq!(transpose(matrix), Vec::<Vec<u32>>::new());
}

#[test]
fn a_matrix_of_empty_rows_has_the_empty_transpose() {
    let matrix: Vec<Vec<u32>> = vec![Vec::new(), Vec::new(), Vec::new()];
    assert_eq!(transpose(matrix), Vec::<Vec<u32>>::new());
}

#[test]
fn a_single_row_becomes_a_column() {
    assert_eq!(transpose(vec![vec![1, 2, 3]]), vec![vec![1], vec![2], vec![3]]);
}

#[test]
fn a_single_column_becomes_a_row() {
    assert_eq!(transpose(vec![vec![1], vec![2], vec![3]]), vec![vec![1, 2, 3]]);
}

#[test]
fn a_matrix_of_several_tiles_is_transposed_cell_by_cell() {
    let height = 37;
    let width = 50;
    let mut matrix = Vec::new();
    for i in 0..height {
        let mut row = Vec::new();
        for j in 0..width {
            row.push(i * 1000 + j);
        }
        matrix.push(row);
    }
    let out = transpose(matrix.clone());
    assert_eq!(out.len(), width);
    for j in 0..width {
        assert_eq!(out[j].len(), height);
        for i in 0..height {
            assert_eq!(out[j][i], matrix[i][j]);
        }
    }
    assert_eq!(out, naive(&matrix));
    assert_eq!(transpose(out), matrix);
}

#[test]
fn a_matrix_whose_sides_are_whole_tiles_is_transposed() {
    let mut matrix = Vec::new();
    for i in 0..32u32 {
        let mut row = Vec::new();
        for j in 0..16u32 {
            row.push((i, j));
        }
        matrix.push(row);
    }
    let out = transpose(matrix.clone());
    assert_eq!(out, naive(&matrix));
}

#[test]
fn a_short_row_is_filled_from_the_corner() {
    let matrix = vec![vec![1, 2, 3], vec![4], vec![7, 8, 9]];
    assert_eq!(transpose(matrix), vec![vec![1, 4, 7], vec![2, 1, 8], vec![3, 1, 9]]);
}

#[test]
fn what_a_row_holds_beyond_the_width_is_left_out() {
    let matrix = vec![vec![1, 2], vec![3, 4, 5, 6]];
    assert_eq!(transpose(matrix), vec![vec![1, 3], vec![2, 4]]);
}

#[test]
fn an_empty_later_row_does_not_stop_the_transpose() {
    let matrix = vec![vec![5, 6], vec![]];
    assert_eq!(transpose(matrix), vec![vec![5, 5], vec![6, 5]]);
}
