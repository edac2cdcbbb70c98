//! Squared Euclidean distance between grid points.
//!
//! The square root is monotonic, so ordering points by the squared distance
//! orders them by the distance itself; the squared form is exact in integers.

use vstd::prelude::*;
use crate::arrays::{PointMatrix, matrix_at, matrix_ncols, matrix_rows};
use crate::error::KnnError;

verus! {

/// The largest value a single squared coordinate difference can take.
pub open spec fn max_gap_squared() -> nat {
    0xffff_ffff * 0xffff_ffff
}

/// The squared difference of one coordinate pair.
pub open spec fn gap_squared(x: i32, y: i32) -> nat {
    ((x - y) * (x - y)) as nat
}

/// The sum of the squared differences of the first `n` coordinates.
pub open spec fn squared_distance_upto(a: Seq<i32>, b: Seq<i32>, n: nat) -> nat
    decreases n,
{
    if n == 0 {
        0
    } else {
        squared_distance_upto(a, b, (n - 1) as nat) + gap_squared(a[n - 1], b[n - 1])
    }
}

/// The squared Euclidean distance between two points of one dimensionality.
pub open spec fn squared_distance(a: Seq<i32>, b: Seq<i32>) -> nat
    recommends
        a.len() == b.len(),
{
    squared_distance_upto(a, b, a.len())
}

/// One squared difference never exceeds the square of the full `i32` span.
pub proof fn lemma_gap_bounded(x: i32, y: i32)
    ensures
        gap_squared(x, y) == (x - y) * (x - y),
        gap_squared(x, y) <= max_gap_squared(),
{
    let g = x - y;
    assert(-0xffff_ffff <= g <= 0xffff_ffff);
    assert(0 <= g * g <= 0xffff_ffff * 0xffff_ffff) by (nonlinear_arith)
        requires
            -0xffff_ffff <= g <= 0xffff_ffff,
    ;
}

/// A partial sum over `n` coordinates is at most `n` full spans squared.
pub proof fn lemma_squared_distance_bounded(a: Seq<i32>, b: Seq<i32>, n: nat)
    ensures
        squared_distance_upto(a, b, n) <= n * max_gap_squared(),
    decreases n,
{
    if n > 0 {
        lemma_squared_distance_bounded(a, b, (n - 1) as nat);
        lemma_gap_bounded(a[n - 1], b[n - 1]);
        assert(n * max_gap_squared() == (n - 1) * max_gap_squared() + max_gap_squared())
            by (nonlinear_arith);
    }
}

/// A squared distance over at most `usize::MAX` coordinates fits in `u128`.
pub proof fn lemma_squared_distance_fits(a: Seq<i32>, b: Seq<i32>, n: nat)
    requires
        n <= usize::MAX,
    ensures
        squared_distance_upto(a, b, n) <= u128::MAX,
{
    lemma_squared_distance_bounded(a, b, n);
    assert(n * max_gap_squared() <= 0xffff_ffff_ffff_ffff * max_gap_squared())
        by (nonlinear_arith)
        requires
            n <= 0xffff_ffff_ffff_ffff,
    ;
}

/// A point is at distance zero from itself.
pub proof fn lemma_distance_to_self(a: Seq<i32>, n: nat)
    ensures
        squared_distance_upto(a, a, n) == 0,
    decreases n,
{
    if n > 0 {
        lemma_distance_to_self(a, (n - 1) as nat);
    }
}

/// Points at distance zero from one another agree on every coordinate.
pub proof fn lemma_zero_distance_agrees(a: Seq<i32>, b: Seq<i32>, n: nat)
    requires
        squared_distance_upto(a, b, n) == 0,
    ensures
        forall|i: int| 0 <= i < n ==> a[i] == b[i],
    decreases n,
{
    if n > 0 {
        let g = a[n - 1] - b[n - 1];
        lemma_gap_bounded(a[n - 1], b[n - 1]);
        assert(g * g == 0 ==> g == 0) by (nonlinear_arith);
        lemma_zero_distance_agrees(a, b, (n - 1) as nat);
    }
}

/// The distance is zero exactly between a point and itself.
pub proof fn distance_zero_iff_same_point(a: Seq<i32>, b: Seq<i32>)
    requires
        a.len() == b.len(),
    ensures
        squared_distance(a, b) == 0 <==> a == b,
{
    if squared_distance(a, b) == 0 {
        lemma_zero_distance_agrees(a, b, a.len());
        assert(a =~= b);
    }
    if a == b {
        lemma_distance_to_self(a, a.len());
    }
}

/// The squared Euclidean distance between row `i` of `a` and row `j` of `b`.
///
/// Fails with `DimensionMismatch` exactly when the two points differ in
/// dimensionality.
pub fn squared_euclidean(a: &PointMatrix, i: usize, b: &PointMatrix, j: usize) -> (r: Result<
    u128,
    KnnError,
>)
    requires
        i < a@.len(),
        j < b@.len(),
    ensures
        r == if a@[i as int].len() == b@[j as int].len() {
            Ok::<u128, KnnError>(squared_distance(a@[i as int], b@[j as int]) as u128)
        } else {
            Err::<u128, KnnError>(KnnError::DimensionMismatch)
        },
{
    if matrix_ncols(a) != matrix_ncols(b) {
        Err(KnnError::DimensionMismatch)
    } else {
        Ok(sum_of_squares(a, i, b, j))
    }
}

/// The squared Euclidean distance between two rows of one dimensionality.
pub(crate) fn sum_of_squares(a: &PointMatrix, i: usize, b: &PointMatrix, j: usize) -> (d: u128)
    requires
        i < a@.len(),
        j < b@.len(),
        a@[i as int].len() == b@[j as int].len(),
    ensures
        d == squared_distance(a@[i as int], b@[j as int]),
{
    let width = matrix_ncols(a);
    let ghost p = a@[i as int];
    let ghost q = b@[j as int];
    let mut total: u128 = 0;
    let mut c: usize = 0;
    while c < width
        invariant
            c <= width,
            i < matrix_rows(*a).len(),
            j < matrix_rows(*b).len(),
            p == matrix_rows(*a)[i as int],
            q == matrix_rows(*b)[j as int],
            p.len() == width,
            q.len() == width,
            total == squared_distance_upto(p, q, c as nat),
        decreases width - c,
    {
        let x: i64 = matrix_at(a, i, c) as i64;
        let y: i64 = matrix_at(b, j, c) as i64;
        let gap: i64 = x - y;
        let span: u64 = if gap < 0 { (0 - gap) as u64 } else { gap as u64 };
        proof {
            lemma_gap_bounded(p[c as int], q[c as int]);
            lemma_squared_distance_fits(p, q, (c + 1) as nat);
            assert(span * span == gap * gap) by (nonlinear_arith)
                requires
                    span == gap || span == -gap,
            ;
        }
        let square: u128 = (span as u128) * (span as u128);
        total = total + square;
        c = c + 1;
    }
    total
}

} // verus!
