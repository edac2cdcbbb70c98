use knn_rs::arrays::PointMatrix;
use knn_rs::distance::squared_euclidean;
use knn_rs::error::KnnError;

fn matrix(rows: Vec<Vec<i32>>) -> PointMatrix {
    PointMatrix::from_rows(&rows).unwrap()
}

#[test]
fn three_four_five() {
    let a = matrix(vec![vec![0, 0], vec![3, 4]]);
    assert_eq!(squared_euclidean(&a, 0, &a, 1), Ok(25));
    assert_eq!(squared_euclidean(&a, 1, &a, 0), Ok(25));
}

#[test]
fn distance_to_self_is_zero() {
    let a = matrix(vec![vec![-7, 12, 5]]);
    assert_eq!(squared_euclidean(&a, 0, &a, 0), Ok(0));
}

#[test]
fn distance_between_two_matrices() {
    let a = matrix(vec![vec![1, 1, 1], vec![2, -2, 2]]);
    let b = matrix(vec![vec![0, 0, 0], vec![5, 2, 2]]);
    assert_eq!(squared_euclidean(&a, 0, &b, 0), Ok(3));
    assert_eq!(squared_euclidean(&a, 1, &b, 1), Ok(9 + 16));
    assert_eq!(squared_euclidean(&a, 1, &b, 0), Ok(12));
}

#[test]
fn widest_gap_is_exact() {
    let a = matrix(vec![vec![i32::MAX, i32::MIN], vec![i32::MIN, i32::MAX]]);
    let gap: u128 = 0xffff_ffff;
    assert_eq!(squared_euclidean(&a, 0, &a, 1), Ok(2 * gap * gap));
    assert_eq!(squared_euclidean(&a, 0, &a, 1), Ok(36893488130239234050));
}

#[test]
fn zero_width_points_are_at_distance_zero() {
    let a = matrix(vec![vec![], vec![]]);
    assert_eq!(squared_euclidean(&a, 0, &a, 1), Ok(0));
}

#[test]
fn points_of_different_width_cannot_be_compared() {
    let a = matrix(vec![vec![1, 2, 3]]);
    let b = matrix(vec![vec![1, 2]]);
    assert_eq!(squared_euclidean(&a, 0, &b, 0), Err(KnnError::DimensionMismatch));
    assert_eq!(squared_euclidean(&b, 0, &a, 0), Err(KnnError::DimensionMismatch));
}
