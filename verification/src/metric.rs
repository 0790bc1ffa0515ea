//! Squared Euclidean distance between integer points, and the facts about it
//! that the selection engines rely on.

use vstd::prelude::*;

verus! {

/// The largest square of a difference of two `i32` coordinates.
pub open spec fn max_gap2() -> int {
    0xFFFF_FFFE_0000_0001
}

/// The sum of the squared coordinate differences over the first `k` axes.
pub open spec fn sq_dist_upto(a: Seq<i32>, b: Seq<i32>, k: nat) -> int
    decreases k,
{
    if k == 0 {
        0
    } else {
        sq_dist_upto(a, b, (k - 1) as nat) + (a[k - 1] - b[k - 1]) * (a[k - 1] - b[k - 1])
    }
}

/// The squared Euclidean distance between two points of equal dimension.
pub open spec fn sq_dist(a: Seq<i32>, b: Seq<i32>) -> int {
    sq_dist_upto(a, b, a.len())
}

/// A matrix of points: at least one row, at least one column, every row as
/// long as the first, and both counts within `usize`.
pub open spec fn is_point_matrix(pts: Seq<Seq<i32>>) -> bool {
    &&& 1 <= pts.len() <= usize::MAX
    &&& 1 <= pts[0].len() <= usize::MAX
    &&& forall|i: int| 0 <= i < pts.len() ==> (#[trigger] pts[i]).len() == pts[0].len()
}

/// The squared distance between rows `i` and `j` of a matrix.
pub open spec fn dist2(pts: Seq<Seq<i32>>, i: int, j: int) -> int {
    sq_dist(pts[i], pts[j])
}

/// The square of a coordinate difference lies between zero and
/// `max_gap2()`.
pub proof fn lemma_gap2_bound(x: i32, y: i32)
    ensures
        0 <= (x - y) * (x - y) <= max_gap2(),
{
    let g: int = x - y;
    assert(-0xFFFF_FFFF <= g <= 0xFFFF_FFFF);
    assert(0 <= g * g <= 0xFFFF_FFFF * 0xFFFF_FFFF) by (nonlinear_arith)
        requires
            -0xFFFF_FFFF <= g <= 0xFFFF_FFFF,
    ;
}

/// A partial sum is never negative and grows by at most `max_gap2()` per axis.
pub proof fn lemma_sq_dist_upto_bound(a: Seq<i32>, b: Seq<i32>, k: nat)
    ensures
        0 <= sq_dist_upto(a, b, k) <= k * max_gap2(),
    decreases k,
{
    if k > 0 {
        lemma_sq_dist_upto_bound(a, b, (k - 1) as nat);
        lemma_gap2_bound(a[k - 1], b[k - 1]);
        assert(k * max_gap2() == (k - 1) * max_gap2() + max_gap2()) by (nonlinear_arith);
    }
}

/// The relaxed triangle inequality of squared distances, on partial sums:
/// the squared distance from `x` to `c` is at most twice the sum of those
/// from `m` to `c` and from `m` to `x`.
pub proof fn lemma_sq_dist_upto_triangle(m: Seq<i32>, x: Seq<i32>, c: Seq<i32>, k: nat)
    requires
        k <= m.len(),
        k <= x.len(),
        k <= c.len(),
    ensures
        sq_dist_upto(x, c, k) <= 2 * sq_dist_upto(m, c, k) + 2 * sq_dist_upto(m, x, k),
    decreases k,
{
    if k > 0 {
        lemma_sq_dist_upto_triangle(m, x, c, (k - 1) as nat);
        let mv: int = m[k - 1] as int;
        let xv: int = x[k - 1] as int;
        let cv: int = c[k - 1] as int;
        let t: int = 2 * mv - xv - cv;
        assert(0 <= t * t) by (nonlinear_arith);
        assert(2 * ((mv - cv) * (mv - cv)) + 2 * ((mv - xv) * (mv - xv)) - (xv - cv) * (xv - cv) == t
            * t) by (nonlinear_arith)
            requires
                t == 2 * mv - xv - cv,
        ;
    }
}

/// The pruning rule of the Voronoi engine. Let `x` be a center whose cell has
/// squared radius at most `radius2`, and `c` a new center with
/// `dist2(x, c) >= 4 * radius2`. Then no point `m` within the radius of `x`
/// is strictly closer to `c` than to `x`.
pub proof fn lemma_pruning_sound(pts: Seq<Seq<i32>>, m: int, x: int, c: int, radius2: int)
    requires
        is_point_matrix(pts),
        0 <= m < pts.len(),
        0 <= x < pts.len(),
        0 <= c < pts.len(),
        dist2(pts, m, x) <= radius2,
        dist2(pts, x, c) >= 4 * radius2,
    ensures
        dist2(pts, m, c) >= dist2(pts, m, x),
{
    assert(pts[m].len() == pts[0].len());
    assert(pts[x].len() == pts[0].len());
    assert(pts[c].len() == pts[0].len());
    lemma_sq_dist_upto_triangle(pts[m], pts[x], pts[c], pts[0].len());
}

} // verus!
