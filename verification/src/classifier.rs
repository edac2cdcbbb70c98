//! The classifier: one label per query point, chosen by the majority of its
//! `k` nearest training points.

use vstd::prelude::*;
use crate::arrays::{LabelArray, PointMatrix, array_at, matrix_ncols, matrix_nrows};
use crate::distance::{
    distance_zero_iff_same_point, lemma_squared_distance_fits, squared_distance, sum_of_squares,
};
use crate::error::KnnError;
use crate::neighbors::{
    Neighbor, is_first_nearest, labels_of, nearest, nearest_keeps_all, nearest_keeps_k,
    nearest_of_one, offer,
};
use crate::vote::{majority, majority_of_one, max_count};

verus! {

/// Training point `i` as a candidate: its distance beside its label.
pub open spec fn paired(distances: Seq<u128>, labels: Seq<i64>) -> Seq<Neighbor> {
    Seq::new(distances.len(), |i: int| Neighbor { distance: distances[i], label: labels[i] })
}

/// The label voted by the `k` nearest of the training points, which lie at
/// `distances` from the query point and carry `labels`.
pub open spec fn classified(distances: Seq<u128>, labels: Seq<i64>, k: nat) -> i64 {
    majority(labels_of(nearest(paired(distances, labels), k)))
}

/// What [`classify`] returns.
pub open spec fn classify_outcome(distances: Seq<u128>, labels: Seq<i64>, k: nat) -> Result<
    i64,
    KnnError,
> {
    if k == 0 {
        Err(KnnError::InvalidParameter)
    } else if labels.len() == 0 {
        Err(KnnError::EmptyTrainingSet)
    } else if distances.len() != labels.len() {
        Err(KnnError::DimensionMismatch)
    } else {
        Ok(classified(distances, labels, k))
    }
}

/// The squared distance from every training point to the point `q`.
pub open spec fn distances_from(train: Seq<Seq<i32>>, q: Seq<i32>) -> Seq<u128> {
    Seq::new(train.len(), |i: int| squared_distance(train[i], q) as u128)
}

/// There is a label for every training point, and every training and query
/// point has the dimensionality of the first training point.
pub open spec fn shapes_agree(train: Seq<Seq<i32>>, labels: Seq<i64>, queries: Seq<Seq<i32>>) -> bool {
    &&& labels.len() == train.len()
    &&& forall|i: int| 0 <= i < train.len() ==> (#[trigger] train[i]).len() == train[0].len()
    &&& forall|i: int| 0 <= i < queries.len() ==> (#[trigger] queries[i]).len() == train[0].len()
}

/// What [`check_shapes`] returns for a training set of `train_rows` points
/// of width `train_width` with `label_count` labels, and `query_rows` query
/// points of width `query_width`.
pub open spec fn shape_outcome(
    train_rows: nat,
    train_width: nat,
    label_count: nat,
    query_rows: nat,
    query_width: nat,
    k: nat,
) -> Result<(), KnnError> {
    if k == 0 {
        Err(KnnError::InvalidParameter)
    } else if train_rows == 0 {
        Err(KnnError::EmptyTrainingSet)
    } else if label_count != train_rows || (query_rows > 0 && query_width != train_width) {
        Err(KnnError::DimensionMismatch)
    } else {
        Ok(())
    }
}

/// Decides from the shapes alone whether a prediction can go ahead.
///
/// Fails with `InvalidParameter` when `k` is zero, else with
/// `EmptyTrainingSet` when there are no training points, else with
/// `DimensionMismatch` when the labels are not as many as the training
/// points, or there are query points and their width is not that of the
/// training points.
pub fn check_shapes(
    train_rows: usize,
    train_width: usize,
    label_count: usize,
    query_rows: usize,
    query_width: usize,
    k: usize,
) -> (r: Result<(), KnnError>)
    ensures
        r == shape_outcome(
            train_rows as nat,
            train_width as nat,
            label_count as nat,
            query_rows as nat,
            query_width as nat,
            k as nat,
        ),
{
    if k == 0 {
        Err(KnnError::InvalidParameter)
    } else if train_rows == 0 {
        Err(KnnError::EmptyTrainingSet)
    } else if label_count != train_rows || (query_rows > 0 && query_width != train_width) {
        Err(KnnError::DimensionMismatch)
    } else {
        Ok(())
    }
}

/// What [`predict`] returns: the failure, or the label of every query point.
pub open spec fn predict_outcome(
    train: Seq<Seq<i32>>,
    labels: Seq<i64>,
    queries: Seq<Seq<i32>>,
    k: nat,
) -> Result<Seq<i64>, KnnError> {
    if k == 0 {
        Err(KnnError::InvalidParameter)
    } else if train.len() == 0 {
        Err(KnnError::EmptyTrainingSet)
    } else if !shapes_agree(train, labels, queries) {
        Err(KnnError::DimensionMismatch)
    } else {
        Ok(
            Seq::new(
                queries.len(),
                |i: int| classified(distances_from(train, queries[i]), labels, k),
            ),
        )
    }
}

/// Scans the training points in order and returns the candidates that are
/// left: up to `k` of the nearest.
pub fn nearest_neighbors(distances: &Vec<u128>, labels: &LabelArray, k: usize) -> (closest: Vec<
    Neighbor,
>)
    requires
        distances@.len() == labels@.len(),
    ensures
        closest@ == nearest(paired(distances@, labels@), k as nat),
{
    let ghost all = paired(distances@, labels@);
    let mut closest: Vec<Neighbor> = Vec::new();
    let mut i: usize = 0;
    while i < distances.len()
        invariant
            i <= distances@.len(),
            distances@.len() == labels@.len(),
            all == paired(distances@, labels@),
            closest@ == nearest(all.take(i as int), k as nat),
        decreases distances@.len() - i,
    {
        let x = Neighbor { distance: distances[i], label: array_at(labels, i) };
        proof {
            assert(all.take(i + 1).drop_last() =~= all.take(i as int));
            assert(all.take(i + 1).last() == x);
        }
        offer(&mut closest, k, x);
        i = i + 1;
    }
    assert(all.take(i as int) =~= all);
    closest
}

/// Predicts the label of one query point from its distance to every
/// training point.
///
/// Fails with `InvalidParameter` when `k` is zero, else with
/// `EmptyTrainingSet` when there are no labels, else with
/// `DimensionMismatch` when there is not one distance per label.
pub fn classify(distances: &Vec<u128>, labels: &LabelArray, k: usize) -> (r: Result<i64, KnnError>)
    ensures
        r == classify_outcome(distances@, labels@, k as nat),
{
    if k == 0 {
        return Err(KnnError::InvalidParameter);
    }
    let n = labels.len();
    if n == 0 {
        return Err(KnnError::EmptyTrainingSet);
    }
    if distances.len() != n {
        return Err(KnnError::DimensionMismatch);
    }
    let closest = nearest_neighbors(distances, labels, k);
    proof {
        nearest_keeps_k(paired(distances@, labels@), k as nat);
    }
    Ok(max_count(&closest))
}

/// Predicts a label for every row of `queries` by the majority vote of its
/// `k` nearest rows of `train`, which carry `labels`.
///
/// Fails with `InvalidParameter` when `k` is zero, else with
/// `EmptyTrainingSet` when `train` has no rows, else with
/// `DimensionMismatch` when the labels are not as many as the training
/// points or the query points differ from them in dimensionality. A `k`
/// beyond the number of training points lets all of them vote.
pub fn predict(train: &PointMatrix, labels: &LabelArray, queries: &PointMatrix, k: usize) -> (r:
    Result<LabelArray, KnnError>)
    ensures
        predicts(train@, labels@, queries@, k as nat, r),
{
    let n = matrix_nrows(train);
    let m = matrix_nrows(queries);
    let width = matrix_ncols(train);
    let query_width = matrix_ncols(queries);
    match check_shapes(n, width, labels.len(), m, query_width, k) {
        Err(e) => {
            proof {
                if k > 0 && n > 0 && m > 0 && query_width != width {
                    assert(queries@[0].len() != train@[0].len());
                }
            }
            return Err(e);
        },
        Ok(_) => {},
    }
    assert(shapes_agree(train@, labels@, queries@));
    let mut predicted: Vec<i64> = Vec::new();
    let mut q: usize = 0;
    while q < m
        invariant
            q <= m,
            k > 0,
            n > 0,
            m == queries@.len(),
            n == train@.len(),
            n == labels@.len(),
            forall|i: int| 0 <= i < train@.len() ==> (#[trigger] train@[i]).len() == width,
            forall|i: int| 0 <= i < queries@.len() ==> (#[trigger] queries@[i]).len() == width,
            predicted@ == Seq::new(
                q as nat,
                |i: int| classified(distances_from(train@, queries@[i]), labels@, k as nat),
            ),
        decreases m - q,
    {
        let ghost point = queries@[q as int];
        let ghost all = paired(distances_from(train@, point), labels@);
        let mut closest: Vec<Neighbor> = Vec::new();
        let mut t: usize = 0;
        while t < n
            invariant
                t <= n,
                q < m,
                m == queries@.len(),
                n == train@.len(),
                n == labels@.len(),
                point == queries@[q as int],
                forall|i: int| 0 <= i < train@.len() ==> (#[trigger] train@[i]).len() == width,
                point.len() == width,
                all == paired(distances_from(train@, point), labels@),
                closest@ == nearest(all.take(t as int), k as nat),
            decreases n - t,
        {
            let distance = sum_of_squares(train, t, queries, q);
            let x = Neighbor { distance, label: array_at(labels, t) };
            proof {
                lemma_squared_distance_fits(train@[t as int], point, width as nat);
                assert(all.take(t + 1).drop_last() =~= all.take(t as int));
                assert(all.take(t + 1).last() == x);
            }
            offer(&mut closest, k, x);
            t = t + 1;
        }
        proof {
            assert(all.take(n as int) =~= all);
            nearest_keeps_k(all, k as nat);
        }
        let label = max_count(&closest);
        predicted.push(label);
        q = q + 1;
        assert(predicted@ =~= Seq::new(
            q as nat,
            |i: int| classified(distances_from(train@, queries@[i]), labels@, k as nat),
        ));
    }
    Ok(LabelArray::from_vec(predicted))
}

/// `r` is what [`predict`] may return on these inputs.
pub open spec fn predicts(
    train: Seq<Seq<i32>>,
    labels: Seq<i64>,
    queries: Seq<Seq<i32>>,
    k: nat,
    r: Result<LabelArray, KnnError>,
) -> bool {
    match r {
        Ok(predicted) => predict_outcome(train, labels, queries, k) == Ok::<Seq<i64>, KnnError>(
            predicted@,
        ),
        Err(e) => predict_outcome(train, labels, queries, k) == Err::<Seq<i64>, KnnError>(e),
    }
}

/// Prediction is deterministic: two calls on the same inputs fail alike or
/// return the same labels.
pub proof fn prediction_is_determined(
    train: Seq<Seq<i32>>,
    labels: Seq<i64>,
    queries: Seq<Seq<i32>>,
    k: nat,
    first: Result<LabelArray, KnnError>,
    second: Result<LabelArray, KnnError>,
)
    requires
        predicts(train, labels, queries, k, first),
        predicts(train, labels, queries, k, second),
    ensures
        match (first, second) {
            (Ok(a), Ok(b)) => a@ == b@,
            (Err(e), Err(f)) => e == f,
            _ => false,
        },
{
}

/// With `k` equal to one, the label is that of the nearest training point;
/// of the first of them, where several are equally near.
pub proof fn single_neighbor_decides(distances: Seq<u128>, labels: Seq<i64>, p: int)
    requires
        distances.len() == labels.len(),
        0 <= p < distances.len(),
        forall|j: int| 0 <= j < distances.len() ==> distances[p] <= distances[j],
        forall|j: int| 0 <= j < p ==> distances[p] < distances[j],
    ensures
        classified(distances, labels, 1) == labels[p],
{
    let all = paired(distances, labels);
    assert(is_first_nearest(all, p));
    nearest_of_one(all, p);
    assert(labels_of(seq![all[p]]) =~= seq![labels[p]]);
    majority_of_one(labels[p]);
}

/// With `k` no less than the number of training points, every training
/// point votes: the label is the most common label of the training set,
/// whatever the distances.
pub proof fn all_neighbors_decide(distances: Seq<u128>, labels: Seq<i64>, k: nat)
    requires
        distances.len() == labels.len(),
        labels.len() <= k,
    ensures
        nearest(paired(distances, labels), k) == paired(distances, labels),
        classified(distances, labels, k) == majority(labels),
{
    nearest_keeps_all(paired(distances, labels), k);
    assert(labels_of(paired(distances, labels)) =~= labels);
}

/// A `k` that covers the training set succeeds on well-shaped inputs and
/// gives every query point the most common training label.
pub proof fn covering_k_predicts_most_common(
    train: Seq<Seq<i32>>,
    labels: Seq<i64>,
    queries: Seq<Seq<i32>>,
    k: nat,
)
    requires
        0 < train.len() <= k,
        shapes_agree(train, labels, queries),
    ensures
        predict_outcome(train, labels, queries, k) == Ok::<Seq<i64>, KnnError>(
            Seq::new(queries.len(), |i: int| majority(labels)),
        ),
{
    assert forall|i: int| 0 <= i < queries.len() implies classified(
        distances_from(train, queries[i]),
        labels,
        k,
    ) == majority(labels) by {
        all_neighbors_decide(distances_from(train, queries[i]), labels, k);
    }
    assert(Seq::new(
        queries.len(),
        |i: int| classified(distances_from(train, queries[i]), labels, k),
    ) =~= Seq::new(queries.len(), |i: int| majority(labels)));
}

/// With `k` equal to one, every query point is given the label of the
/// training point nearest to it; of the first of them, where several are
/// equally near.
pub proof fn nearest_training_point_decides(
    train: Seq<Seq<i32>>,
    labels: Seq<i64>,
    queries: Seq<Seq<i32>>,
    q: int,
    t: int,
)
    requires
        shapes_agree(train, labels, queries),
        train.len() > 0,
        train[0].len() <= usize::MAX,
        0 <= q < queries.len(),
        0 <= t < train.len(),
        forall|j: int|
            0 <= j < train.len() ==> squared_distance(train[t], queries[q]) <= squared_distance(
                #[trigger] train[j],
                queries[q],
            ),
        forall|j: int|
            0 <= j < t ==> squared_distance(train[t], queries[q]) < squared_distance(
                #[trigger] train[j],
                queries[q],
            ),
    ensures
        predict_outcome(train, labels, queries, 1) matches Ok(predicted) && predicted[q]
            == labels[t],
{
    let point = queries[q];
    let distances = distances_from(train, point);
    assert forall|j: int| 0 <= j < train.len() implies squared_distance(train[j], point)
        == #[trigger] distances[j] by {
        lemma_squared_distance_fits(train[j], point, train[j].len());
    }
    single_neighbor_decides(distances, labels, t);
}

/// With `k` equal to one, a query point that is a training point, and like
/// no other training point, is given that training point's label.
pub proof fn training_point_keeps_its_label(
    train: Seq<Seq<i32>>,
    labels: Seq<i64>,
    queries: Seq<Seq<i32>>,
    q: int,
    t: int,
)
    requires
        shapes_agree(train, labels, queries),
        train.len() > 0,
        train[0].len() <= usize::MAX,
        0 <= q < queries.len(),
        0 <= t < train.len(),
        queries[q] == train[t],
        forall|j: int| 0 <= j < train.len() && j != t ==> train[j] != train[t],
    ensures
        predict_outcome(train, labels, queries, 1) matches Ok(predicted) && predicted[q]
            == labels[t],
{
    let point = queries[q];
    distance_zero_iff_same_point(train[t], point);
    assert forall|j: int| 0 <= j < t implies squared_distance(train[t], point) < squared_distance(
        #[trigger] train[j],
        point,
    ) by {
        distance_zero_iff_same_point(train[j], point);
    }
    nearest_training_point_decides(train, labels, queries, q, t);
}

/// Without query points there is nothing to predict: on a well-shaped
/// training set and a positive `k` the result is the empty sequence.
pub proof fn no_queries_no_predictions(train: Seq<Seq<i32>>, labels: Seq<i64>, k: nat)
    requires
        k > 0,
        train.len() > 0,
        shapes_agree(train, labels, Seq::empty()),
    ensures
        predict_outcome(train, labels, Seq::empty(), k) == Ok::<Seq<i64>, KnnError>(Seq::empty()),
{
    assert(Seq::new(
        0,
        |i: int| classified(distances_from(train, Seq::<Seq<i32>>::empty()[i]), labels, k),
    ) =~= Seq::<i64>::empty());
}

/// Each query point is classified on its own: its label is the one it
/// would be given if it were the only query point.
pub proof fn predictions_are_independent(
    train: Seq<Seq<i32>>,
    labels: Seq<i64>,
    queries: Seq<Seq<i32>>,
    k: nat,
    q: int,
)
    requires
        predict_outcome(train, labels, queries, k) is Ok,
        0 <= q < queries.len(),
    ensures
        predict_outcome(train, labels, seq![queries[q]], k) == Ok::<Seq<i64>, KnnError>(
            seq![predict_outcome(train, labels, queries, k)->Ok_0[q]],
        ),
{
    let alone = seq![queries[q]];
    assert(shapes_agree(train, labels, alone));
    assert(Seq::new(
        alone.len(),
        |i: int| classified(distances_from(train, alone[i]), labels, k),
    ) =~= seq![classified(distances_from(train, queries[q]), labels, k)]);
}

} // verus!
