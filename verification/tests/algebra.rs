use minecraft_player::algebra::{
    apply_epsilon, columns_from_vecs, dynamic_range, feature_matrix, interpolated_range, matrix_from_vecs, max_cell,
    min_cell, normalize_to_global, normalize_to_minus_plus, round_to, Matrix, ShapeError,
};

fn matrix(rows: Vec<Vec<f32>>) -> Matrix<f32> {
    matrix_from_vecs(rows).unwrap()
}

#[test]
fn test_layout() {
    let matrix = vec![vec![1.0f32, 2.0, 3.0], vec![4.0, 5.0, 6.0]];
    let matrix_ndarray = matrix_from_vecs(matrix.clone()).unwrap();
    let flattened: Vec<f32> = matrix.into_iter().flatten().collect();
    let ndarray_vec: Vec<f32> = matrix_ndarray.data.iter().cloned().collect();
    assert!(flattened.iter().partial_cmp(&ndarray_vec).expect("failed to compare").is_eq());
}

#[test]
fn matrix_from_vecs_takes_its_shape_from_the_rows() {
    let m = matrix(vec![vec![1.0, 2.0, 3.0], vec![4.0, 5.0, 6.0]]);
    assert_eq!(m.dim(), (2, 3));
    assert_eq!(m.get(1, 0), Some(4.0));
    assert_eq!(m.get(0, 2), Some(3.0));
    assert_eq!(m.get(2, 0), None);
    assert_eq!(m.get(0, 3), None);
}

#[test]
fn matrix_from_no_rows_is_empty() {
    let m = matrix_from_vecs(Vec::<Vec<f32>>::new()).unwrap();
    assert_eq!(m.dim(), (0, 0));
    assert!(m.data.is_empty());
}

#[test]
fn matrix_from_ragged_rows_is_refused() {
    let made = matrix_from_vecs(vec![vec![1.0f32, 2.0], vec![3.0, 4.0], vec![5.0], vec![6.0]]);
    assert_eq!(made.err(), Some(ShapeError::RaggedRows { row: 2, expected: 2, found: 1 }));
    // Rows that only add up to a rectangle are ragged all the same.
    let made = matrix_from_vecs(vec![vec![1.0f32, 2.0], vec![3.0], vec![4.0, 5.0, 6.0]]);
    assert_eq!(made.err(), Some(ShapeError::RaggedRows { row: 1, expected: 2, found: 1 }));
}

#[test]
fn from_shape_vec_checks_the_length() {
    let made = Matrix::from_shape_vec(2, 2, vec![1.0f32, 2.0, 3.0, 4.0]).unwrap();
    assert_eq!(made.get(1, 1), Some(4.0));
    let refused = Matrix::from_shape_vec(2, 2, vec![1.0f32, 2.0, 3.0]);
    assert_eq!(refused.err(), Some(ShapeError::WrongLength { capacity: Some(4), given: 3 }));
    let refused = Matrix::from_shape_vec(usize::MAX, 2, vec![1.0f32]);
    assert_eq!(refused.err(), Some(ShapeError::WrongLength { capacity: None, given: 1 }));
}

#[test]
fn transpose_exchanges_rows_and_columns() {
    let m = matrix(vec![vec![1.0, 2.0, 3.0], vec![4.0, 5.0, 6.0]]);
    let t = m.transpose();
    assert_eq!(t.dim(), (3, 2));
    assert_eq!(t.data, vec![1.0, 4.0, 2.0, 5.0, 3.0, 6.0]);
}

#[test]
fn filled_matrix_holds_one_value() {
    let m = Matrix::filled(2, 3, 7.0f32);
    assert_eq!(m.dim(), (2, 3));
    assert_eq!(m.data, vec![7.0; 6]);
}

#[test]
fn max_and_min_cell() {
    let m = matrix(vec![vec![0.5, -2.0], vec![3.0, 1.0]]);
    assert_eq!(max_cell(&m), 3.0);
    assert_eq!(min_cell(&m), -2.0);
}

#[test]
fn normalize_to_global_divides_by_the_maximum() {
    let mut m = matrix(vec![vec![1.0, -2.0], vec![4.0, 2.0]]);
    normalize_to_global(&mut m, 0.0);
    assert_eq!(m.data, vec![0.25, -0.5, 1.0, 0.5]);
    assert_eq!(m.dim(), (2, 2));
}

#[test]
fn normalize_to_global_without_a_positive_maximum_changes_nothing() {
    let mut m = matrix(vec![vec![-1.0, -2.0], vec![0.0, -0.5]]);
    normalize_to_global(&mut m, 0.0);
    assert_eq!(m.data, vec![-1.0, -2.0, 0.0, -0.5]);

    let mut negative = matrix(vec![vec![-3.0, -2.0]]);
    normalize_to_global(&mut negative, 0.0);
    assert_eq!(negative.data, vec![-3.0, -2.0]);

    let mut empty = matrix_from_vecs(Vec::<Vec<f32>>::new()).unwrap();
    normalize_to_global(&mut empty, 0.0);
    assert!(empty.data.is_empty());
}

#[test]
fn normalize_to_minus_plus_spans_minus_one_to_one() {
    let mut m = matrix(vec![vec![1.0, 2.0], vec![3.0, 5.0]]);
    normalize_to_minus_plus(&mut m, 0.0, 1.0);
    assert_eq!(m.data, vec![-1.0, -0.5, 0.0, 1.0]);
}

#[test]
fn normalize_to_minus_plus_of_equal_cells_is_zero() {
    let mut m = matrix(vec![vec![4.0, 4.0], vec![4.0, 4.0]]);
    normalize_to_minus_plus(&mut m, 0.0, 1.0);
    assert_eq!(m.data, vec![0.0; 4]);
}

#[test]
fn apply_epsilon_zeroes_only_what_is_below() {
    let mut m = matrix(vec![vec![0.5, 0.00001, 0.000001], vec![0.0, -1.0, 0.1]]);
    apply_epsilon(&mut m, 0.00001, 0.0);
    assert_eq!(m.data, vec![0.5, 0.00001, 0.0, 0.0, 0.0, 0.1]);
}

#[test]
fn columns_from_vecs_puts_each_vector_in_a_column() {
    let m = columns_from_vecs(vec![vec![1.0f32, 2.0, 3.0], vec![4.0, 5.0, 6.0]]).unwrap();
    assert_eq!(m.dim(), (3, 2));
    assert_eq!(m.data, vec![1.0, 4.0, 2.0, 5.0, 3.0, 6.0]);
    let refused = columns_from_vecs(vec![vec![1.0f32], vec![2.0, 3.0]]);
    assert_eq!(refused.err(), Some(ShapeError::RaggedRows { row: 1, expected: 1, found: 2 }));
}

#[test]
fn interpolated_range_includes_both_ends() {
    let points = interpolated_range(0.5f32, 2.0, 4, &|n: usize| n as f32);
    assert_eq!(points, vec![0.5, 1.0, 1.5, 2.0]);
    let two = interpolated_range(-1.0f32, 1.0, 2, &|n: usize| n as f32);
    assert_eq!(two, vec![-1.0, 1.0]);
}

#[test]
fn round_to_keeps_the_given_decimals() {
    let mut m = matrix(vec![vec![0.123456, 0.5], vec![-1.000004, 2.71828]]);
    round_to(&mut m, 2, 1.0, 10.0, &|x: f32| x.round());
    assert_eq!(m.data, vec![0.12, 0.5, -1.0, 2.72]);
    let mut whole = matrix(vec![vec![1.4, 1.6]]);
    round_to(&mut whole, 0, 1.0, 10.0, &|x: f32| x.round());
    assert_eq!(whole.data, vec![1.0, 2.0]);
}

#[test]
fn dynamic_range_raises_every_cell() {
    let mut m = matrix(vec![vec![4.0, 9.0], vec![0.25, 1.0]]);
    dynamic_range(&mut m, 0.5, &|x: f32, g: f32| x.powf(g));
    assert_eq!(m.data, vec![2.0, 3.0, 0.5, 1.0]);
}

#[test]
fn feature_matrix_keeps_the_feature_length_without_any_vector() {
    let none = feature_matrix(Vec::<Vec<f32>>::new(), 2400).unwrap();
    assert_eq!(none.dim(), (2400, 0));
    assert!(none.data.is_empty());

    let two = feature_matrix(vec![vec![1.0f32, 2.0, 3.0], vec![4.0, 5.0, 6.0]], 3).unwrap();
    assert_eq!(two.dim(), (3, 2));
    assert_eq!(two.data, vec![1.0, 4.0, 2.0, 5.0, 3.0, 6.0]);
}

#[test]
fn feature_matrix_refuses_a_vector_of_another_length() {
    let refused = feature_matrix(vec![vec![1.0f32, 2.0], vec![3.0, 4.0]], 3);
    assert_eq!(refused.err(), Some(ShapeError::RaggedRows { row: 0, expected: 3, found: 2 }));
    let refused = feature_matrix(vec![vec![1.0f32, 2.0, 3.0], vec![3.0, 4.0]], 3);
    assert_eq!(refused.err(), Some(ShapeError::RaggedRows { row: 1, expected: 3, found: 2 }));
}
