//! The distance matrix is kept in nalgebra's dynamically sized matrix type.
//! Its storage type cannot be declared to the verifier (its generics carry
//! nalgebra's `Dim` bounds), so the matrix sits in a private field of an
//! opaque struct, read and written through trusted wrappers whose contracts
//! speak of the contents as a sequence of rows.

use vstd::prelude::*;

verus! {

/// An immutable integer matrix, backed by `nalgebra::DMatrix<i32>`.
#[verifier::external_body]
pub struct DistanceMatrix {
    inner: nalgebra::DMatrix<i32>,
}

/// What a distance matrix holds, row by row.
pub uninterp spec fn matrix_entries(m: DistanceMatrix) -> Seq<Seq<i32>>;

/// Relies on nalgebra's `DMatrix::from_fn`: the `(i, j)` entry of the built
/// matrix is the value the closure returns for `(i, j)`; here that closure
/// just reads `rows[i][j]`.
#[verifier::external_body]
pub fn matrix_from_rows(rows: &Vec<Vec<i32>>) -> (m: DistanceMatrix)
    requires
        forall|i: int| 0 <= i < rows@.len() ==> (#[trigger] rows@[i])@.len() == rows@.len(),
    ensures
        matrix_entries(m) == rows.deep_view(),
{
    let n = rows.len();
    DistanceMatrix { inner: nalgebra::DMatrix::from_fn(n, n, |i, j| rows[i][j]) }
}

/// Relies on nalgebra's matrix indexing: `m[(i, j)]` is the entry in row `i`
/// and column `j`.
#[verifier::external_body]
pub fn matrix_get(m: &DistanceMatrix, i: usize, j: usize) -> (v: i32)
    requires
        i < matrix_entries(*m).len(),
        j < matrix_entries(*m)[i as int].len(),
    ensures
        v == matrix_entries(*m)[i as int][j as int],
{
    m.inner[(i, j)]
}

} // verus!
