//! Maximum-weight assignment of rows to columns, solved by the Kuhn-Munkres
//! (Hungarian) algorithm of the `pathfinding` crate.

use pathfinding::matrix::{Matrix, MatrixFormatError};
use vstd::prelude::*;

verus! {

#[verifier::external_type_specification]
#[verifier::external_body]
#[verifier::reject_recursive_types(C)]
pub struct ExMatrix<C>(Matrix<C>);

#[verifier::external_type_specification]
#[verifier::external_body]
pub struct ExMatrixFormatError(MatrixFormatError);

/// Largest absolute weight handed to the solver.
pub const WEIGHT_LIMIT: i64 = 1_099_511_627_776;

/// Largest number of rows (and columns) handed to the solver.
pub const SIZE_LIMIT: usize = 65_536;

/// The rows of a `pathfinding` matrix, as read back by its `Index` impl.
pub uninterp spec fn matrix_entries(m: Matrix<i64>) -> Seq<Seq<i64>>;

/// The column chosen for each row by `pathfinding::kuhn_munkres::kuhn_munkres`
/// on a matrix with these rows.
pub uninterp spec fn kuhn_munkres_assignment(weights: Seq<Seq<i64>>) -> Seq<usize>;

/// The rows of a vector of vectors.
pub open spec fn rows_of(rows: Seq<Vec<i64>>) -> Seq<Seq<i64>> {
    Seq::new(rows.len(), |i: int| rows[i]@)
}

/// Rows that form a matrix: none at all, or all of one non-zero length.
pub open spec fn rectangular(rows: Seq<Seq<i64>>) -> bool {
    rows.len() == 0 || (rows[0].len() > 0 && forall|i: int|
        0 <= i < rows.len() ==> #[trigger] rows[i].len() == rows[0].len())
}

/// A square matrix of `n` rows.
pub open spec fn square(w: Seq<Seq<i64>>, n: int) -> bool {
    w.len() == n && forall|i: int| 0 <= i < n ==> #[trigger] w[i].len() == n
}

/// Every weight lies within `WEIGHT_LIMIT` of zero.
pub open spec fn bounded_weights(w: Seq<Seq<i64>>) -> bool {
    forall|i: int, j: int|
        0 <= i < w.len() && 0 <= j < w[i].len() ==> -WEIGHT_LIMIT <= #[trigger] w[i][j]
            <= WEIGHT_LIMIT
}

/// `a` gives each of `n` rows a distinct column below `n`.
pub open spec fn is_matching(a: Seq<usize>, n: int) -> bool {
    &&& a.len() == n
    &&& forall|i: int| 0 <= i < n ==> #[trigger] a[i] < n
    &&& forall|i: int, j: int| 0 <= i < n && 0 <= j < n && i != j ==> #[trigger] a[i] != #[trigger] a[j]
}

/// Total weight of the first `k` rows under assignment `a`.
pub open spec fn matching_value(w: Seq<Seq<i64>>, a: Seq<usize>, k: int) -> int
    decreases k,
{
    if k <= 0 {
        0
    } else {
        matching_value(w, a, k - 1) + w[k - 1][a[k - 1] as int]
    }
}

/// Builds a matrix from rows, through `pathfinding::matrix::Matrix::from_rows`.
///
/// Trusted: per its source, the call succeeds exactly when the rows are empty
/// or all share one non-zero length, and the matrix then holds those rows.
#[verifier::external_body]
pub(crate) fn matrix_from_rows(rows: Vec<Vec<i64>>) -> (r: Result<Matrix<i64>, MatrixFormatError>)
    ensures
        r is Ok <==> rectangular(rows_of(rows@)),
        r matches Ok(m) ==> matrix_entries(m) == rows_of(rows@),
{
    Matrix::from_rows(rows)
}

/// Best assignment of rows to columns, through `pathfinding::kuhn_munkres::kuhn_munkres`.
///
/// Trusted: for a square matrix the crate documents a maximum-weight matching,
/// one column per row; the contract names the columns it picks, states that
/// they form a matching, and that no other matching weighs more. Which of
/// several best matchings is returned is left to the name.
///
/// The crate panics on a matrix with more rows than columns and when its
/// arithmetic overflows; the solver's labels stay within a small multiple of
/// `n` times the largest weight, so a square matrix of at most `SIZE_LIMIT`
/// rows with weights within `WEIGHT_LIMIT` is clear of both.
#[verifier::external_body]
pub(crate) fn max_weight_assignment(m: &Matrix<i64>) -> (r: Vec<usize>)
    requires
        square(matrix_entries(*m), matrix_entries(*m).len() as int),
        matrix_entries(*m).len() <= SIZE_LIMIT,
        bounded_weights(matrix_entries(*m)),
    ensures
        r@ == kuhn_munkres_assignment(matrix_entries(*m)),
        is_matching(r@, matrix_entries(*m).len() as int),
        forall|a: Seq<usize>|
            is_matching(a, matrix_entries(*m).len() as int) ==> #[trigger] matching_value(
                matrix_entries(*m),
                a,
                a.len() as int,
            ) <= matching_value(matrix_entries(*m), r@, r@.len() as int),
{
    pathfinding::kuhn_munkres::kuhn_munkres(m).1
}

} // verus!
