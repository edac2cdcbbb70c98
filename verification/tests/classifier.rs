use knn_rs::arrays::{LabelArray, PointMatrix};
use knn_rs::classifier::{classify, nearest_neighbors, predict};
use knn_rs::error::KnnError;
use knn_rs::neighbors::Neighbor;

const A: i64 = 0;
const B: i64 = 1;

fn matrix(rows: Vec<Vec<i32>>) -> PointMatrix {
    PointMatrix::from_rows(&rows).unwrap()
}

fn labels(items: Vec<i64>) -> LabelArray {
    LabelArray::from_vec(items)
}

fn run(
    train: Vec<Vec<i32>>,
    train_labels: Vec<i64>,
    queries: Vec<Vec<i32>>,
    k: usize,
) -> Result<Vec<i64>, KnnError> {
    match predict(&matrix(train), &labels(train_labels), &matrix(queries), k) {
        Ok(predicted) => Ok(predicted.to_vec()),
        Err(e) => Err(e),
    }
}

fn euclidean(a: &[f64], b: &[f64]) -> f64 {
    let mut sum = 0.0;
    for i in 0..a.len() {
        sum += (a[i] - b[i]) * (a[i] - b[i]);
    }
    sum.sqrt()
}

fn keys(train: &[Vec<f64>], query: &[f64]) -> Vec<u128> {
    let mut out = Vec::new();
    for point in train {
        out.push(euclidean(point, query).to_bits() as u128);
    }
    out
}

fn clusters() -> (Vec<Vec<i32>>, Vec<i64>) {
    (
        vec![vec![0, 0], vec![1, 1], vec![0, 1], vec![100, 100], vec![101, 99], vec![-50, 80]],
        vec![10, 10, 10, 20, 20, 30],
    )
}

#[test]
fn predict_is_deterministic() {
    let (train, train_labels) = clusters();
    let queries = vec![vec![3, 3], vec![90, 90], vec![-40, 70], vec![50, 50]];
    let first = run(train.clone(), train_labels.clone(), queries.clone(), 3);
    let second = run(train, train_labels, queries, 3);
    assert_eq!(first, second);
    assert_eq!(first, Ok(vec![10, 20, 10, 10]));
}

#[test]
fn k_one_takes_the_label_of_the_nearest_point() {
    let (train, train_labels) = clusters();
    let queries = vec![vec![2, 2], vec![99, 101], vec![-49, 79], vec![-45, 70], vec![-20, 40]];
    assert_eq!(run(train, train_labels, queries, 1), Ok(vec![10, 20, 30, 30, 10]));
}

#[test]
fn k_one_takes_the_first_of_equally_near_points() {
    let train = vec![vec![1, 0], vec![-1, 0], vec![0, 1]];
    assert_eq!(run(train.clone(), vec![5, 6, 7], vec![vec![0, 0]], 1), Ok(vec![5]));
    assert_eq!(run(train, vec![7, 6, 5], vec![vec![0, 0]], 1), Ok(vec![7]));
}

#[test]
fn k_equal_to_n_takes_the_most_common_label() {
    let (train, train_labels) = clusters();
    let queries = vec![vec![100, 100], vec![-50, 80], vec![0, 0], vec![1000, -1000]];
    assert_eq!(run(train, train_labels, queries, 6), Ok(vec![10, 10, 10, 10]));
}

#[test]
fn training_point_is_given_its_own_label() {
    let (train, train_labels) = clusters();
    let queries = train.clone();
    assert_eq!(run(train, train_labels.clone(), queries, 1), Ok(train_labels));
}

#[test]
fn width_three_against_width_two_is_a_mismatch() {
    let train = vec![vec![1, 2, 3], vec![4, 5, 6]];
    let queries = vec![vec![1, 2]];
    assert_eq!(run(train, vec![A, B], queries, 1), Err(KnnError::DimensionMismatch));
}

#[test]
fn labels_must_match_the_training_points() {
    let train = vec![vec![1, 2], vec![4, 5]];
    let queries = vec![vec![1, 2]];
    assert_eq!(
        run(train.clone(), vec![A], queries.clone(), 1),
        Err(KnnError::DimensionMismatch)
    );
    assert_eq!(run(train, vec![A, B, A], queries, 1), Err(KnnError::DimensionMismatch));
}

#[test]
fn k_zero_is_invalid() {
    let (train, train_labels) = clusters();
    assert_eq!(
        run(train, train_labels, vec![vec![0, 0]], 0),
        Err(KnnError::InvalidParameter)
    );
    assert_eq!(run(vec![], vec![], vec![], 0), Err(KnnError::InvalidParameter));
    assert_eq!(
        run(vec![vec![1, 2, 3]], vec![A], vec![vec![1, 2]], 0),
        Err(KnnError::InvalidParameter)
    );
}

#[test]
fn k_beyond_the_training_set_uses_every_point() {
    let (train, train_labels) = clusters();
    let queries = vec![vec![100, 100], vec![-50, 80]];
    assert_eq!(
        run(train.clone(), train_labels.clone(), queries.clone(), 7),
        Ok(vec![10, 10])
    );
    assert_eq!(run(train, train_labels, queries, usize::MAX), Ok(vec![10, 10]));
}

#[test]
fn two_of_the_three_nearest_carry_the_majority_label() {
    // The points (0,0), (10,10), (0,1), (10,11) and the query (0,0.5),
    // on a grid of half units.
    let train = vec![vec![0, 0], vec![20, 20], vec![0, 2], vec![20, 22]];
    let queries = vec![vec![0, 1]];
    assert_eq!(run(train, vec![A, B, A, B], queries, 3), Ok(vec![A]));
}

#[test]
fn three_nearest_by_real_distance() {
    let train = vec![vec![0.0, 0.0], vec![10.0, 10.0], vec![0.0, 1.0], vec![10.0, 11.0]];
    let distances = keys(&train, &[0.0, 0.5]);
    let train_labels = labels(vec![A, B, A, B]);
    let closest = nearest_neighbors(&distances, &train_labels, 3);
    assert_eq!(
        closest,
        vec![
            Neighbor { distance: distances[0], label: A },
            Neighbor { distance: distances[1], label: B },
            Neighbor { distance: distances[2], label: A },
        ]
    );
    assert_eq!(classify(&distances, &train_labels, 3), Ok(A));
}

#[test]
fn no_queries_give_no_predictions() {
    let (train, train_labels) = clusters();
    assert_eq!(run(train.clone(), train_labels.clone(), vec![], 1), Ok(vec![]));
    assert_eq!(run(train, train_labels, vec![], 100), Ok(vec![]));
}

#[test]
fn empty_training_set_is_an_error() {
    assert_eq!(run(vec![], vec![], vec![vec![1, 2]], 1), Err(KnnError::EmptyTrainingSet));
    assert_eq!(run(vec![], vec![], vec![vec![1, 2]], 5), Err(KnnError::EmptyTrainingSet));
    assert_eq!(run(vec![], vec![], vec![], 1), Err(KnnError::EmptyTrainingSet));
    assert_eq!(run(vec![], vec![A], vec![vec![1]], 1), Err(KnnError::EmptyTrainingSet));
}

#[test]
fn predictions_follow_the_order_of_the_queries() {
    let train = vec![vec![0], vec![10], vec![20]];
    let train_labels = vec![100, 200, 300];
    let queries = vec![vec![19], vec![1], vec![11], vec![-5], vec![40]];
    assert_eq!(run(train, train_labels, queries, 1), Ok(vec![300, 100, 200, 100, 300]));
}

#[test]
fn tied_vote_goes_to_the_lowest_label() {
    let train = vec![vec![0], vec![1], vec![2], vec![3]];
    assert_eq!(run(train.clone(), vec![9, 4, 9, 4], vec![vec![0]], 4), Ok(vec![4]));
    assert_eq!(run(train, vec![9, 4, 7, 1], vec![vec![0]], 2), Ok(vec![4]));
}

#[test]
fn tie_at_the_boundary_keeps_the_first_seen() {
    // The list is full with the points at distances 1 and 5; the third
    // point, also at distance 5, does not get in.
    let train = vec![vec![1], vec![5], vec![-5]];
    assert_eq!(run(train.clone(), vec![8, 3, 8], vec![vec![0]], 2), Ok(vec![3]));
    assert_eq!(run(train, vec![8, 9, 9], vec![vec![0]], 2), Ok(vec![8]));
}

#[test]
fn nearer_point_takes_the_place_of_the_first_farthest() {
    // The list is full with two points at distance 5; the point at
    // distance 1 takes the place of the first of them.
    let train = vec![vec![5], vec![-5], vec![1]];
    assert_eq!(run(train.clone(), vec![8, 3, 8], vec![vec![0]], 2), Ok(vec![3]));
    assert_eq!(run(train, vec![3, 8, 8], vec![vec![0]], 2), Ok(vec![8]));
}

#[test]
fn far_apart_points_are_ordered_exactly() {
    let train = vec![vec![i32::MIN, i32::MIN], vec![i32::MAX, i32::MAX - 1]];
    let queries = vec![vec![i32::MAX, i32::MAX], vec![i32::MIN, i32::MIN + 1], vec![0, 0]];
    assert_eq!(run(train, vec![A, B], queries, 1), Ok(vec![B, A, B]));
}

#[test]
fn nearest_neighbors_replace_the_farthest() {
    let train_labels = labels(vec![1, 2, 3, 4, 5]);
    let closest = nearest_neighbors(&vec![50, 70, 60, 10, 65], &train_labels, 3);
    assert_eq!(
        closest,
        vec![
            Neighbor { distance: 50, label: 1 },
            Neighbor { distance: 10, label: 4 },
            Neighbor { distance: 60, label: 3 },
        ]
    );
}

#[test]
fn nearest_neighbors_with_k_zero_is_empty() {
    let train_labels = labels(vec![1, 2]);
    assert_eq!(nearest_neighbors(&vec![5, 6], &train_labels, 0), Vec::<Neighbor>::new());
}

#[test]
fn classify_votes_among_the_nearest() {
    let train_labels = labels(vec![1, 2, 2, 1, 1]);
    assert_eq!(classify(&vec![50, 10, 20, 70, 60], &train_labels, 3), Ok(2));
    assert_eq!(classify(&vec![50, 10, 20, 70, 60], &train_labels, 5), Ok(1));
    assert_eq!(classify(&vec![50, 10, 20, 70, 60], &train_labels, 1), Ok(2));
}

#[test]
fn classify_reports_each_failure() {
    let train_labels = labels(vec![1, 2]);
    assert_eq!(classify(&vec![5, 6], &train_labels, 0), Err(KnnError::InvalidParameter));
    assert_eq!(classify(&vec![5], &train_labels, 1), Err(KnnError::DimensionMismatch));
    assert_eq!(classify(&vec![5, 6, 7], &train_labels, 1), Err(KnnError::DimensionMismatch));
    assert_eq!(classify(&vec![], &labels(vec![]), 1), Err(KnnError::EmptyTrainingSet));
    assert_eq!(classify(&vec![5], &labels(vec![]), 1), Err(KnnError::EmptyTrainingSet));
    assert_eq!(classify(&vec![], &labels(vec![]), 0), Err(KnnError::InvalidParameter));
}

#[test]
fn check_shapes_accepts_agreeing_shapes() {
    assert_eq!(knn_rs::classifier::check_shapes(4, 2, 4, 1, 2, 3), Ok(()));
    assert_eq!(knn_rs::classifier::check_shapes(4, 2, 4, 1, 2, 9), Ok(()));
    assert_eq!(knn_rs::classifier::check_shapes(1, 0, 1, 5, 0, 1), Ok(()));
}

#[test]
fn check_shapes_ignores_the_width_of_no_queries() {
    assert_eq!(knn_rs::classifier::check_shapes(4, 2, 4, 0, 7, 1), Ok(()));
}

#[test]
fn check_shapes_reports_each_failure_in_turn() {
    let check = knn_rs::classifier::check_shapes;
    assert_eq!(check(0, 3, 5, 1, 2, 0), Err(KnnError::InvalidParameter));
    assert_eq!(check(0, 3, 5, 1, 2, 1), Err(KnnError::EmptyTrainingSet));
    assert_eq!(check(2, 3, 2, 1, 2, 1), Err(KnnError::DimensionMismatch));
    assert_eq!(check(2, 3, 1, 1, 3, 1), Err(KnnError::DimensionMismatch));
    assert_eq!(check(2, 3, 3, 0, 3, 1), Err(KnnError::DimensionMismatch));
}

#[test]
fn kept_neighbors_are_no_farther_than_those_left_out() {
    let distances: Vec<u128> = vec![40, 10, 30, 10, 50, 20, 30, 5];
    let train_labels = labels(vec![0, 1, 2, 3, 4, 5, 6, 7]);
    for k in 1..=8 {
        let closest = nearest_neighbors(&distances, &train_labels, k);
        assert_eq!(closest.len(), k);
        let mut sorted = distances.clone();
        sorted.sort();
        let mut kept: Vec<u128> = closest.iter().map(|c| c.distance).collect();
        kept.sort();
        assert_eq!(kept, sorted[..k].to_vec());
        for c in &closest {
            assert_eq!(distances[c.label as usize], c.distance);
        }
    }
}
