//! The coordinate matrix, kept in a two-dimensional `ndarray` array.
//!
//! Nothing in this file is proved: each function states what the `ndarray`
//! method it calls is documented to do, over the rows that the array holds.

use vstd::prelude::*;

verus! {

/// An owned `ndarray::Array2<i32>`: one row per point, one column per axis.
#[verifier::external_body]
pub struct CoordArray {
    inner: ndarray::Array2<i32>,
}

/// The rows of the array in order, each row from its first column on.
pub uninterp spec fn array_rows(a: CoordArray) -> Seq<Seq<i32>>;

/// The `n` rows of length `d` that a flat sequence holds in row-major order.
pub open spec fn row_major(n: nat, d: nat, flat: Seq<i32>) -> Seq<Seq<i32>> {
    Seq::new(n, |i: int| Seq::new(d, |j: int| flat[i * d + j]))
}

/// `ndarray::Array2::from_shape_vec` with the shape `(n, d)`. The call fails
/// unless `flat` holds exactly `n * d` elements, and succeeds on such a vector
/// when neither axis is empty; the array then reads `flat` in row-major order.
#[verifier::external_body]
pub(crate) fn array_from_shape_vec(n: usize, d: usize, flat: Vec<i32>) -> (r: Option<CoordArray>)
    ensures
        r.is_some() ==> n * d == flat@.len(),
        n >= 1 && d >= 1 && n * d == flat@.len() ==> r.is_some(),
        r matches Some(a) ==> array_rows(a) == row_major(n as nat, d as nat, flat@),
{
    match ndarray::Array2::from_shape_vec((n, d), flat) {
        Ok(inner) => Some(CoordArray { inner }),
        Err(_) => None,
    }
}

/// `nrows` of the array: the number of rows it holds.
#[verifier::external_body]
pub(crate) fn array_nrows(a: &CoordArray) -> (n: usize)
    ensures
        n == array_rows(*a).len(),
{
    a.inner.nrows()
}

/// `ncols` of the array: the length that every row has.
#[verifier::external_body]
pub(crate) fn array_ncols(a: &CoordArray) -> (d: usize)
    ensures
        forall|i: int| 0 <= i < array_rows(*a).len() ==> (#[trigger] array_rows(*a)[i]).len() == d,
{
    a.inner.ncols()
}

/// Indexing of the array by `[i, j]`, which panics outside the shape: the
/// element of row `i` in column `j`.
#[verifier::external_body]
pub(crate) fn array_get(a: &CoordArray, i: usize, j: usize) -> (x: i32)
    requires
        i < array_rows(*a).len(),
        j < array_rows(*a)[i as int].len(),
    ensures
        x == array_rows(*a)[i as int][j as int],
{
    a.inner[[i, j]]
}

} // verus!
