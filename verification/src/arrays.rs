//! The two `ndarray` containers the classifier reads and fills.
//!
//! Verus cannot look inside an `ndarray` array, so each container is an
//! opaque struct whose contents are named by a specification function, and
//! every access goes through a small function whose contract is taken on
//! trust from `ndarray`'s documented behaviour.

use vstd::prelude::*;
use crate::error::KnnError;

verus! {

/// A one-dimensional `ndarray` array of labels.
#[verifier::external_body]
#[derive(Debug)]
pub struct LabelArray {
    items: ndarray::Array1<i64>,
}

/// A two-dimensional `ndarray` array of grid coordinates, one point per row.
#[verifier::external_body]
#[derive(Debug)]
pub struct PointMatrix {
    cells: ndarray::Array2<i32>,
}

/// The labels a [`LabelArray`] holds, in index order.
pub uninterp spec fn label_items(a: LabelArray) -> Seq<i64>;

/// The rows of a [`PointMatrix`], top to bottom, each left to right.
pub uninterp spec fn matrix_rows(m: PointMatrix) -> Seq<Seq<i32>>;

impl View for LabelArray {
    type V = Seq<i64>;

    open spec fn view(&self) -> Seq<i64> {
        label_items(*self)
    }
}

impl View for PointMatrix {
    type V = Seq<Seq<i32>>;

    open spec fn view(&self) -> Seq<Seq<i32>> {
        matrix_rows(*self)
    }
}

/// Whether `ndarray` accepts the shape `rows` by `cols`: the product of its
/// non-zero axis lengths must not exceed `isize::MAX`.
pub open spec fn shape_fits(rows: nat, cols: nat) -> bool {
    (if rows == 0 { 1 } else { rows }) * (if cols == 0 { 1 } else { cols }) <= isize::MAX
}

/// Whether every row is as long as the first.
pub open spec fn uniform(rows: Seq<Seq<i32>>) -> bool {
    forall|i: int| 0 <= i < rows.len() ==> (#[trigger] rows[i]).len() == rows[0].len()
}

/// The width shared by the rows of a uniform table; zero when it has none.
pub open spec fn width_of(rows: Seq<Seq<i32>>) -> nat {
    if rows.len() == 0 { 0 } else { rows[0].len() }
}

/// The contents of a vector of rows, row by row.
pub open spec fn table(rows: Seq<Vec<i32>>) -> Seq<Seq<i32>> {
    Seq::new(rows.len(), |i: int| rows[i]@)
}

/// `cells` read as `rows` consecutive rows of `cols` items each.
pub open spec fn chunks(cells: Seq<i32>, rows: nat, cols: nat) -> Seq<Seq<i32>> {
    Seq::new(rows, |i: int| cells.subrange(i * cols, i * cols + cols))
}

/// Trusted: `ndarray::Array1::from_vec` keeps the vector's items in order.
/// It panics only for zero-sized items, which `i64` is not.
#[verifier::external_body]
fn array_from_vec(v: Vec<i64>) -> (a: LabelArray)
    ensures
        label_items(a) == v@,
{
    LabelArray { items: ndarray::Array1::from_vec(v) }
}

/// Trusted: `ArrayBase::len` is the number of items.
#[verifier::external_body]
fn array_len(a: &LabelArray) -> (n: usize)
    ensures
        n == label_items(*a).len(),
{
    a.items.len()
}

/// Trusted: indexing a one-dimensional array by `i` yields item `i`; it
/// panics out of bounds, which the precondition excludes.
#[verifier::external_body]
pub(crate) fn array_at(a: &LabelArray, i: usize) -> (x: i64)
    requires
        i < label_items(*a).len(),
    ensures
        x == label_items(*a)[i as int],
{
    a.items[i]
}

/// Trusted: `ArrayBase::to_vec` copies the items out in index order.
#[verifier::external_body]
fn array_to_vec(a: &LabelArray) -> (v: Vec<i64>)
    ensures
        v@ == label_items(*a),
{
    a.items.to_vec()
}

/// Trusted: `ndarray::Array2::from_shape_vec` with a plain `(rows, cols)`
/// shape succeeds exactly when the shape fits and names as many items as the
/// vector holds, and then lays the vector out row by row.
#[verifier::external_body]
fn matrix_from_shape_vec(rows: usize, cols: usize, cells: Vec<i32>) -> (r: Option<PointMatrix>)
    ensures
        match r {
            Some(m) => {
                &&& shape_fits(rows as nat, cols as nat)
                &&& rows * cols == cells@.len()
                &&& matrix_rows(m) == chunks(cells@, rows as nat, cols as nat)
            },
            None => !(shape_fits(rows as nat, cols as nat) && rows * cols == cells@.len()),
        },
{
    match ndarray::Array2::from_shape_vec((rows, cols), cells) {
        Ok(cells) => Some(PointMatrix { cells }),
        Err(_) => None,
    }
}

/// Trusted: `ArrayBase::nrows` is the number of rows.
#[verifier::external_body]
pub(crate) fn matrix_nrows(m: &PointMatrix) -> (n: usize)
    ensures
        n == matrix_rows(*m).len(),
{
    m.cells.nrows()
}

/// Trusted: `ArrayBase::ncols` is the length of every row.
#[verifier::external_body]
pub(crate) fn matrix_ncols(m: &PointMatrix) -> (n: usize)
    ensures
        forall|i: int| 0 <= i < matrix_rows(*m).len() ==> (#[trigger] matrix_rows(*m)[i]).len() == n,
{
    m.cells.ncols()
}

/// Trusted: indexing a two-dimensional array by `[i, j]` yields item `j` of
/// row `i`; it panics out of bounds, which the precondition excludes.
#[verifier::external_body]
pub(crate) fn matrix_at(m: &PointMatrix, i: usize, j: usize) -> (x: i32)
    requires
        i < matrix_rows(*m).len(),
        j < matrix_rows(*m)[i as int].len(),
    ensures
        x == matrix_rows(*m)[i as int][j as int],
{
    m.cells[[i, j]]
}

impl LabelArray {
    /// Wraps the labels of `v`, in order.
    pub fn from_vec(v: Vec<i64>) -> (a: LabelArray)
        ensures
            a@ == v@,
    {
        array_from_vec(v)
    }

    /// The number of labels.
    pub fn len(&self) -> (n: usize)
        ensures
            n == self@.len(),
    {
        array_len(self)
    }

    /// The label at `i`, if there is one.
    pub fn get(&self, i: usize) -> (x: Option<i64>)
        ensures
            x == if i < self@.len() { Some(self@[i as int]) } else { None },
    {
        if i < array_len(self) {
            Some(array_at(self, i))
        } else {
            None
        }
    }

    /// The labels as a vector, in order.
    pub fn to_vec(&self) -> (v: Vec<i64>)
        ensures
            v@ == self@,
    {
        array_to_vec(self)
    }
}

/// Row `r` of a table of `n` rows of width `d` lies inside its `n * d` cells.
proof fn lemma_row_within(r: int, n: int, d: int)
    requires
        0 <= r < n,
        0 <= d,
    ensures
        0 <= r * d,
        r * d + d <= n * d,
        (r + 1) * d == r * d + d,
{
    assert(0 <= r * d && r * d + d <= n * d && (r + 1) * d == r * d + d) by (nonlinear_arith)
        requires
            0 <= r < n,
            0 <= d,
    ;
}

impl PointMatrix {
    /// Builds the matrix whose rows are `rows`.
    ///
    /// Fails with `DimensionMismatch` exactly when some row is not as long
    /// as the first, or when the shape is larger than an array may be.
    pub fn from_rows(rows: &Vec<Vec<i32>>) -> (r: Result<PointMatrix, KnnError>)
        ensures
            match r {
                Ok(m) => {
                    &&& m@ == table(rows@)
                    &&& uniform(m@)
                    &&& shape_fits(m@.len(), width_of(m@))
                },
                Err(e) => {
                    &&& e == KnnError::DimensionMismatch
                    &&& !(uniform(table(rows@)) && shape_fits(
                        rows@.len(),
                        width_of(table(rows@)),
                    ))
                },
            },
    {
        let n = rows.len();
        let d = if n == 0 { 0 } else { rows[0].len() };
        let mut cells: Vec<i32> = Vec::new();
        let mut i: usize = 0;
        while i < n
            invariant
                n == rows@.len(),
                i <= n,
                d == width_of(table(rows@)),
                cells@.len() == i * d,
                forall|r: int| 0 <= r < i ==> (#[trigger] rows@[r])@.len() == d,
                forall|r: int|
                    0 <= r < i ==> cells@.subrange(r * d, r * d + d) == (#[trigger] rows@[r])@,
            decreases n - i,
        {
            let row = &rows[i];
            if row.len() != d {
                assert(table(rows@)[i as int].len() != table(rows@)[0].len());
                return Err(KnnError::DimensionMismatch);
            }
            let ghost before = cells@;
            let mut j: usize = 0;
            while j < d
                invariant
                    j <= d,
                    row@.len() == d,
                    before.len() == i * d,
                    cells@ == before + row@.take(j as int),
                decreases d - j,
            {
                cells.push(row[j]);
                j = j + 1;
                assert(cells@ =~= before + row@.take(j as int));
            }
            proof {
                assert(row@.take(d as int) =~= row@);
                lemma_row_within(i as int, i + 1, d as int);
                assert forall|r: int| 0 <= r < i + 1 implies cells@.subrange(r * d, r * d + d) == (
                #[trigger] rows@[r])@ by {
                    lemma_row_within(r, i + 1, d as int);
                    if r < i {
                        lemma_row_within(r, i as int, d as int);
                        assert(cells@.subrange(r * d, r * d + d) =~= before.subrange(
                            r * d,
                            r * d + d,
                        ));
                    } else {
                        assert(cells@.subrange(r * d, r * d + d) =~= row@);
                    }
                }
            }
            i = i + 1;
        }
        assert(chunks(cells@, n as nat, d as nat) =~= table(rows@));
        assert(uniform(table(rows@)));
        match matrix_from_shape_vec(n, d, cells) {
            Some(m) => Ok(m),
            None => Err(KnnError::DimensionMismatch),
        }
    }

    /// The number of points.
    pub fn nrows(&self) -> (n: usize)
        ensures
            n == self@.len(),
    {
        matrix_nrows(self)
    }

    /// Coordinate `j` of point `i`, if there is one.
    pub fn get(&self, i: usize, j: usize) -> (x: Option<i32>)
        ensures
            x == if i < self@.len() && j < self@[i as int].len() {
                Some(self@[i as int][j as int])
            } else {
                None
            },
    {
        if i < matrix_nrows(self) && j < matrix_ncols(self) {
            Some(matrix_at(self, i, j))
        } else {
            None
        }
    }
}

} // verus!
