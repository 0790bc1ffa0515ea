//! The immutable set of points that a selection runs over.

use vstd::prelude::*;
use crate::array::{array_from_shape_vec, array_get, array_ncols, array_nrows, array_rows, row_major, CoordArray};
use crate::error::FpsError;
use crate::metric::{dist2, is_point_matrix, lemma_gap2_bound, lemma_sq_dist_upto_bound, max_gap2, sq_dist_upto};

verus! {

/// `N` points of a common dimension `d >= 1`, addressed by their row index.
pub struct PointSet {
    coords: CoordArray,
}

impl View for PointSet {
    type V = Seq<Seq<i32>>;

    /// The rows of the matrix: one sequence of coordinates per point.
    closed spec fn view(&self) -> Seq<Seq<i32>> {
        array_rows(self.coords)
    }
}

impl PointSet {
    /// The matrix is not empty and all its rows have one length.
    pub open spec fn wf(&self) -> bool {
        is_point_matrix(self@)
    }

    /// Builds the point set of `n` points of dimension `d` whose coordinates
    /// stand in `flat` point after point.
    pub fn from_shape_vec(n: usize, d: usize, flat: Vec<i32>) -> (r: Result<PointSet, FpsError>)
        ensures
            r.is_ok() <==> n >= 1 && d >= 1 && n * d == flat@.len(),
            r matches Ok(p) ==> p.wf() && p@ == row_major(n as nat, d as nat, flat@),
            r matches Err(e) ==> e == FpsError::DimensionMismatch,
    {
        if n == 0 || d == 0 {
            return Err(FpsError::DimensionMismatch);
        }
        match array_from_shape_vec(n, d, flat) {
            Some(coords) => Ok(PointSet { coords }),
            None => Err(FpsError::DimensionMismatch),
        }
    }

    /// Builds the point set whose points are the given rows.
    pub fn from_rows(rows: &Vec<Vec<i32>>) -> (r: Result<PointSet, FpsError>)
        ensures
            r.is_ok() <==> rows@.len() >= 1 && rows@[0]@.len() >= 1 && forall|i: int|
                0 <= i < rows@.len() ==> (#[trigger] rows@[i])@.len() == rows@[0]@.len(),
            r matches Ok(p) ==> p.wf() && p@.len() == rows@.len() && forall|i: int|
                0 <= i < rows@.len() ==> #[trigger] p@[i] == rows@[i]@,
            r matches Err(e) ==> e == FpsError::DimensionMismatch,
    {
        let n: usize = rows.len();
        if n == 0 {
            return Err(FpsError::DimensionMismatch);
        }
        let d: usize = rows[0].len();
        if d == 0 {
            return Err(FpsError::DimensionMismatch);
        }
        let mut flat: Vec<i32> = Vec::new();
        let mut i: usize = 0;
        while i < n
            invariant
                n == rows@.len(),
                d == rows@[0]@.len(),
                d >= 1,
                i <= n,
                flat@.len() == i * d,
                forall|k: int| 0 <= k < i ==> (#[trigger] rows@[k])@.len() == d,
                forall|k: int, j: int|
                    0 <= k < i && 0 <= j < d ==> flat@[k * d + j] == #[trigger] rows@[k]@[j],
            decreases n - i,
        {
            let row: &Vec<i32> = &rows[i];
            if row.len() != d {
                return Err(FpsError::DimensionMismatch);
            }
            let mut j: usize = 0;
            while j < d
                invariant
                    row@ == rows@[i as int]@,
                    row@.len() == d,
                    i < n,
                    n == rows@.len(),
                    j <= d,
                    flat@.len() == i * d + j,
                    forall|k: int, l: int|
                        0 <= k < i && 0 <= l < d ==> flat@[k * d + l] == #[trigger] rows@[k]@[l],
                    forall|l: int| 0 <= l < j ==> flat@[i * d + l] == #[trigger] row@[l],
                decreases d - j,
            {
                let ghost before = flat@;
                flat.push(row[j]);
                proof {
                    assert forall|k: int, l: int| 0 <= k < i && 0 <= l < d implies flat@[k * d + l]
                        == #[trigger] rows@[k]@[l] by {
                        assert(k * d + l < i * d) by (nonlinear_arith)
                            requires
                                0 <= k < i,
                                0 <= l < d,
                        ;
                        assert(flat@[k * d + l] == before[k * d + l]);
                    }
                }
                j += 1;
            }
            proof {
                assert((i + 1) * d == i * d + d) by (nonlinear_arith);
            }
            i += 1;
        }
        let ghost flat_seq = flat@;
        match array_from_shape_vec(n, d, flat) {
            Some(coords) => {
                let p = PointSet { coords };
                proof {
                    assert(p@ == row_major(n as nat, d as nat, flat_seq));
                    assert forall|k: int| 0 <= k < n implies #[trigger] p@[k] == rows@[k]@ by {
                        assert(p@[k].len() == d);
                        assert forall|l: int| 0 <= l < d implies p@[k][l] == rows@[k]@[l] by {
                            assert(p@[k][l] == flat_seq[k * d + l]);
                        }
                        assert(p@[k] =~= rows@[k]@);
                    }
                }
                Ok(p)
            },
            None => Err(FpsError::DimensionMismatch),
        }
    }

    /// The number of points.
    pub fn len(&self) -> (n: usize)
        ensures
            n == self@.len(),
    {
        array_nrows(&self.coords)
    }

    /// The number of coordinates of each point.
    pub fn dim(&self) -> (d: usize)
        requires
            self.wf(),
        ensures
            d == self@[0].len(),
    {
        array_ncols(&self.coords)
    }

    /// Coordinate `k` of point `i`.
    pub fn coord(&self, i: usize, k: usize) -> (x: i32)
        requires
            self.wf(),
            i < self@.len(),
            k < self@[0].len(),
        ensures
            x == self@[i as int][k as int],
    {
        array_get(&self.coords, i, k)
    }

    /// The squared Euclidean distance between points `i` and `j`.
    pub fn dist2(&self, i: usize, j: usize) -> (r: u128)
        requires
            self.wf(),
            i < self@.len(),
            j < self@.len(),
        ensures
            r == dist2(self@, i as int, j as int),
    {
        let d: usize = self.dim();
        let ghost a = self@[i as int];
        let ghost b = self@[j as int];
        let mut acc: u128 = 0;
        let mut k: usize = 0;
        while k < d
            invariant
                self.wf(),
                i < self@.len(),
                j < self@.len(),
                a == self@[i as int],
                b == self@[j as int],
                d == a.len(),
                d == b.len(),
                d == self@[0].len(),
                k <= d,
                acc == sq_dist_upto(a, b, k as nat),
            decreases d - k,
        {
            let x: i64 = self.coord(i, k) as i64;
            let y: i64 = self.coord(j, k) as i64;
            let gap: u64 = if x >= y {
                (x - y) as u64
            } else {
                (y - x) as u64
            };
            proof {
                lemma_gap2_bound(a[k as int], b[k as int]);
                lemma_sq_dist_upto_bound(a, b, k as nat);
                let g: int = x - y;
                assert(gap * gap == g * g) by (nonlinear_arith)
                    requires
                        gap == g || gap == -g,
                ;
                assert(k * max_gap2() + max_gap2() <= u128::MAX) by (nonlinear_arith)
                    requires
                        0 <= k < 0xFFFF_FFFF_FFFF_FFFF,
                        max_gap2() == 0xFFFF_FFFE_0000_0001,
                ;
            }
            let gap2: u128 = (gap as u128) * (gap as u128);
            acc = acc + gap2;
            k += 1;
        }
        acc
    }
}

} // verus!
