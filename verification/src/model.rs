//! What a farthest-point selection is, stated over the matrix of points and
//! the sequence of indices selected so far. Both engines are specified
//! against these definitions.

use vstd::prelude::*;
use vstd::seq_lib::lemma_seq_contains_after_push;
use vstd::set_lib::{lemma_len_subset, lemma_subset_equality};
use crate::metric::{dist2, lemma_sq_dist_upto_bound};

verus! {

/// The indices of a selection are distinct points of the matrix.
pub open spec fn is_selection(pts: Seq<Seq<i32>>, sel: Seq<usize>) -> bool {
    &&& sel.no_duplicates()
    &&& forall|k: int| 0 <= k < sel.len() ==> (#[trigger] sel[k]) < pts.len()
}

/// Point `i` exists and has not been selected.
pub open spec fn is_unselected(pts: Seq<Seq<i32>>, sel: Seq<usize>, i: usize) -> bool {
    i < pts.len() && !sel.contains(i)
}

/// No point is left to select.
pub open spec fn all_selected(pts: Seq<Seq<i32>>, sel: Seq<usize>) -> bool {
    forall|i: usize| i < pts.len() ==> sel.contains(i)
}

/// The squared distance from point `i` to the nearest selected point.
pub open spec fn nearest_dist2(pts: Seq<Seq<i32>>, sel: Seq<usize>, i: usize) -> int
    decreases sel.len(),
{
    if sel.len() == 0 {
        0
    } else if sel.len() == 1 {
        dist2(pts, i as int, sel[0] as int)
    } else {
        let before = nearest_dist2(pts, sel.drop_last(), i);
        let last = dist2(pts, i as int, sel.last() as int);
        if last < before {
            last
        } else {
            before
        }
    }
}

/// The position in the selection of the center that owns point `i`: the
/// earliest selected point among those nearest to `i`.
pub open spec fn owner(pts: Seq<Seq<i32>>, sel: Seq<usize>, i: usize) -> int
    decreases sel.len(),
{
    if sel.len() <= 1 {
        0
    } else {
        let before = owner(pts, sel.drop_last(), i);
        if dist2(pts, i as int, sel.last() as int) < dist2(pts, i as int, sel[before] as int) {
            sel.len() - 1
        } else {
            before
        }
    }
}

/// `idx` is the next point of the selection and `d` its squared distance:
/// an unselected point that maximizes the distance to the nearest selected
/// point, with the lowest index among the points that do.
pub open spec fn is_farthest(pts: Seq<Seq<i32>>, sel: Seq<usize>, idx: usize, d: int) -> bool {
    &&& is_unselected(pts, sel, idx)
    &&& d == nearest_dist2(pts, sel, idx)
    &&& forall|j: usize|
        is_unselected(pts, sel, j) ==> #[trigger] nearest_dist2(pts, sel, j) < d || (nearest_dist2(
            pts,
            sel,
            j,
        ) == d && idx <= j)
}

/// `out` is a farthest-point selection from `seed`: it starts with the seed,
/// and every later entry is the farthest point from the entries before it.
pub open spec fn is_fps_sequence(pts: Seq<Seq<i32>>, seed: usize, out: Seq<usize>) -> bool {
    &&& out.len() >= 1 ==> out[0] == seed
    &&& forall|t: int|
        1 <= t < out.len() ==> is_farthest(
            pts,
            out.take(t),
            #[trigger] out[t],
            nearest_dist2(pts, out.take(t), out[t]),
        )
}

/// The largest squared distance from one of the first `n` points, if it is
/// unselected, to its nearest selected point; zero if there is none.
pub open spec fn cover_radius2_upto(pts: Seq<Seq<i32>>, sel: Seq<usize>, n: nat) -> int
    decreases n,
{
    if n == 0 {
        0
    } else {
        let rest = cover_radius2_upto(pts, sel, (n - 1) as nat);
        let i = (n - 1) as usize;
        if !sel.contains(i) && nearest_dist2(pts, sel, i) > rest {
            nearest_dist2(pts, sel, i)
        } else {
            rest
        }
    }
}

/// The squared covering radius of a selection: how far the worst-covered
/// unselected point is from the selection.
pub open spec fn cover_radius2(pts: Seq<Seq<i32>>, sel: Seq<usize>) -> int {
    cover_radius2_upto(pts, sel, pts.len())
}

/// Point `i` is unselected and owned by the center at position `k`.
pub open spec fn in_cell(pts: Seq<Seq<i32>>, sel: Seq<usize>, k: int, i: usize) -> bool {
    is_unselected(pts, sel, i) && owner(pts, sel, i) == k
}

/// The largest squared distance from the center at position `k` to one of
/// the first `n` points, if its cell holds it; zero if it holds none.
pub open spec fn cell_radius2_upto(pts: Seq<Seq<i32>>, sel: Seq<usize>, k: int, n: nat) -> int
    decreases n,
{
    if n == 0 {
        0
    } else {
        let rest = cell_radius2_upto(pts, sel, k, (n - 1) as nat);
        let i = (n - 1) as usize;
        if in_cell(pts, sel, k, i) && dist2(pts, i as int, sel[k] as int) > rest {
            dist2(pts, i as int, sel[k] as int)
        } else {
            rest
        }
    }
}

/// The squared radius of the cell of the center at position `k`.
pub open spec fn cell_radius2(pts: Seq<Seq<i32>>, sel: Seq<usize>, k: int) -> int {
    cell_radius2_upto(pts, sel, k, pts.len())
}

/// The owner of a point is a position of the selection, its center is at the
/// nearest distance, no selected point is nearer, and every center before it
/// is strictly farther.
pub proof fn lemma_owner(pts: Seq<Seq<i32>>, sel: Seq<usize>, i: usize)
    requires
        sel.len() >= 1,
    ensures
        0 <= owner(pts, sel, i) < sel.len(),
        nearest_dist2(pts, sel, i) == dist2(pts, i as int, sel[owner(pts, sel, i)] as int),
        forall|k: int|
            0 <= k < sel.len() ==> nearest_dist2(pts, sel, i) <= dist2(
                pts,
                i as int,
                #[trigger] sel[k] as int,
            ),
        forall|k: int|
            0 <= k < owner(pts, sel, i) ==> nearest_dist2(pts, sel, i) < dist2(
                pts,
                i as int,
                #[trigger] sel[k] as int,
            ),
    decreases sel.len(),
{
    if sel.len() > 1 {
        let front = sel.drop_last();
        lemma_owner(pts, front, i);
        assert(forall|k: int| 0 <= k < front.len() ==> front[k] == sel[k]);
    }
}

/// How a new center changes the nearest distance and the owner of a point.
pub proof fn lemma_push_center(pts: Seq<Seq<i32>>, sel: Seq<usize>, c: usize, i: usize)
    requires
        sel.len() >= 1,
    ensures
        nearest_dist2(pts, sel.push(c), i) == if dist2(pts, i as int, c as int) < nearest_dist2(
            pts,
            sel,
            i,
        ) {
            dist2(pts, i as int, c as int)
        } else {
            nearest_dist2(pts, sel, i)
        },
        owner(pts, sel.push(c), i) == if dist2(pts, i as int, c as int) < nearest_dist2(
            pts,
            sel,
            i,
        ) {
            sel.len() as int
        } else {
            owner(pts, sel, i)
        },
{
    let next = sel.push(c);
    assert(next.drop_last() =~= sel);
    assert(next.last() == c);
    lemma_owner(pts, sel, i);
    assert(next[owner(pts, sel, i)] == sel[owner(pts, sel, i)]);
}

/// What `is_farthest` says of a selection holds of one index and one
/// distance only.
pub proof fn lemma_farthest_unique(
    pts: Seq<Seq<i32>>,
    sel: Seq<usize>,
    idx1: usize,
    d1: int,
    idx2: usize,
    d2: int,
)
    requires
        is_farthest(pts, sel, idx1, d1),
        is_farthest(pts, sel, idx2, d2),
    ensures
        idx1 == idx2,
        d1 == d2,
{
}

/// Two farthest-point selections of one length from one seed are equal up
/// to every position.
pub proof fn lemma_fps_prefix_unique(
    pts: Seq<Seq<i32>>,
    seed: usize,
    a: Seq<usize>,
    b: Seq<usize>,
    t: int,
)
    requires
        is_fps_sequence(pts, seed, a),
        is_fps_sequence(pts, seed, b),
        0 <= t <= a.len(),
        t <= b.len(),
    ensures
        a.take(t) == b.take(t),
    decreases t,
{
    if t == 0 {
        assert(a.take(0) =~= b.take(0));
    } else {
        lemma_fps_prefix_unique(pts, seed, a, b, t - 1);
        if t > 1 {
            let u = t - 1;
            assert(is_farthest(pts, a.take(u), a[u], nearest_dist2(pts, a.take(u), a[u])));
            assert(is_farthest(pts, b.take(u), b[u], nearest_dist2(pts, b.take(u), b[u])));
            lemma_farthest_unique(
                pts,
                a.take(u),
                a[u],
                nearest_dist2(pts, a.take(u), a[u]),
                b[u],
                nearest_dist2(pts, b.take(u), b[u]),
            );
        }
        assert(a.take(t) =~= a.take(t - 1).push(a[t - 1]));
        assert(b.take(t) =~= b.take(t - 1).push(b[t - 1]));
    }
}

/// The selection is determined by the points, the seed and the count: two
/// farthest-point selections of the same length from the same seed are the
/// same sequence, whichever engine produced them.
pub proof fn lemma_fps_sequence_unique(pts: Seq<Seq<i32>>, seed: usize, a: Seq<usize>, b: Seq<usize>)
    requires
        is_fps_sequence(pts, seed, a),
        is_fps_sequence(pts, seed, b),
        a.len() == b.len(),
    ensures
        a == b,
{
    lemma_fps_prefix_unique(pts, seed, a, b, a.len() as int);
    assert(a.take(a.len() as int) =~= a);
    assert(b.take(b.len() as int) =~= b);
}

/// Appending the farthest point to a farthest-point selection gives one.
pub proof fn lemma_fps_sequence_push(pts: Seq<Seq<i32>>, seed: usize, out: Seq<usize>, idx: usize, d: int)
    requires
        out.len() >= 1,
        is_fps_sequence(pts, seed, out),
        is_farthest(pts, out, idx, d),
    ensures
        is_fps_sequence(pts, seed, out.push(idx)),
{
    let next = out.push(idx);
    assert forall|t: int| 1 <= t < next.len() implies is_farthest(
        pts,
        next.take(t),
        #[trigger] next[t],
        nearest_dist2(pts, next.take(t), next[t]),
    ) by {
        if t < out.len() {
            assert(next.take(t) =~= out.take(t));
            assert(next[t] == out[t]);
        } else {
            assert(next.take(t) =~= out);
        }
    }
}

/// The set of the indices below `n`.
pub open spec fn indices_below(n: nat) -> Set<usize> {
    Set::new(|i: usize| i < n)
}

/// There are exactly `n` indices below `n`.
pub proof fn lemma_indices_below_len(n: nat)
    requires
        n <= usize::MAX,
    ensures
        indices_below(n).finite(),
        indices_below(n).len() == n,
    decreases n,
{
    if n == 0 {
        assert(indices_below(n) =~= Set::<usize>::empty());
    } else {
        lemma_indices_below_len((n - 1) as nat);
        assert(indices_below(n) =~= indices_below((n - 1) as nat).insert((n - 1) as usize));
    }
}

/// A selection holds every point exactly when it is as long as the matrix,
/// and is never longer.
pub proof fn lemma_all_selected_len(pts: Seq<Seq<i32>>, sel: Seq<usize>)
    requires
        is_selection(pts, sel),
        pts.len() <= usize::MAX,
    ensures
        sel.len() <= pts.len(),
        all_selected(pts, sel) <==> sel.len() == pts.len(),
{
    let chosen = sel.to_set();
    let every = indices_below(pts.len());
    sel.unique_seq_to_set();
    lemma_indices_below_len(pts.len());
    assert(chosen.subset_of(every)) by {
        assert forall|i: usize| chosen.contains(i) implies every.contains(i) by {
            let k = choose|k: int| 0 <= k < sel.len() && sel[k] == i;
            assert(sel[k] < pts.len());
        }
    }
    lemma_len_subset(chosen, every);
    if sel.len() == pts.len() {
        lemma_subset_equality(chosen, every);
        assert forall|i: usize| i < pts.len() implies sel.contains(i) by {
            assert(every.contains(i));
            assert(chosen.contains(i));
        }
    }
    if all_selected(pts, sel) {
        assert forall|i: usize| every.contains(i) implies chosen.contains(i) by {
            assert(sel.contains(i));
        }
        assert(chosen =~= every);
    }
}

/// A sequence without duplicates stays one when a value outside it is
/// appended, and then holds that value besides the values it held.
pub proof fn lemma_push_member(s: Seq<usize>, v: usize)
    requires
        s.no_duplicates(),
        !s.contains(v),
    ensures
        s.push(v).no_duplicates(),
        forall|i: usize| #[trigger] s.push(v).contains(i) <==> s.contains(i) || i == v,
{
    let next = s.push(v);
    assert forall|i: usize| #[trigger] next.contains(i) <==> s.contains(i) || i == v by {
        lemma_seq_contains_after_push(s, v, i);
    }
    assert forall|a: int, b: int| 0 <= a < next.len() && 0 <= b < next.len() && a != b implies next[a]
        != next[b] by {
        if a < s.len() {
            assert(s.contains(s[a]));
        }
        if b < s.len() {
            assert(s.contains(s[b]));
        }
    }
}

/// What the first `q + 1` entries of a sequence without duplicates hold
/// beyond the first `q`: the entry at `q`, which is new.
pub proof fn lemma_take_step(s: Seq<usize>, q: int)
    requires
        s.no_duplicates(),
        0 <= q < s.len(),
    ensures
        s.contains(s[q]),
        !s.take(q).contains(s[q]),
        forall|m: usize| #[trigger] s.take(q + 1).contains(m) <==> s.take(q).contains(m) || m == s[q],
{
    assert(s.take(q + 1) =~= s.take(q).push(s[q]));
    assert forall|m: usize| #[trigger] s.take(q + 1).contains(m) <==> s.take(q).contains(m) || m
        == s[q] by {
        lemma_seq_contains_after_push(s.take(q), s[q], m);
    }
    if s.take(q).contains(s[q]) {
        let k = choose|k: int| 0 <= k < s.take(q).len() && s.take(q)[k] == s[q];
        assert(s[k] == s[q]);
    }
}

/// A selection stays one when a point outside it is appended, and then holds
/// that point besides the points it held.
pub proof fn lemma_selection_push(pts: Seq<Seq<i32>>, sel: Seq<usize>, c: usize)
    requires
        is_selection(pts, sel),
        is_unselected(pts, sel, c),
    ensures
        is_selection(pts, sel.push(c)),
        forall|i: usize| #[trigger] sel.push(c).contains(i) <==> sel.contains(i) || i == c,
{
    lemma_push_member(sel, c);
}

/// An upper bound of the distances in a cell bounds its radius.
pub proof fn lemma_cell_radius2_upper(pts: Seq<Seq<i32>>, sel: Seq<usize>, k: int, n: nat, r: int)
    requires
        n <= usize::MAX,
        r >= 0,
        forall|i: usize|
            i < n && #[trigger] in_cell(pts, sel, k, i) ==> dist2(pts, i as int, sel[k] as int) <= r,
    ensures
        0 <= cell_radius2_upto(pts, sel, k, n) <= r,
    decreases n,
{
    if n > 0 {
        lemma_cell_radius2_upper(pts, sel, k, (n - 1) as nat, r);
    }
}

/// The radius of a cell is at least the distance of each point it holds.
pub proof fn lemma_cell_radius2_lower(pts: Seq<Seq<i32>>, sel: Seq<usize>, k: int, n: nat, i: usize)
    requires
        n <= usize::MAX,
        i < n,
        in_cell(pts, sel, k, i),
    ensures
        cell_radius2_upto(pts, sel, k, n) >= dist2(pts, i as int, sel[k] as int),
    decreases n,
{
    if i < n - 1 {
        lemma_cell_radius2_lower(pts, sel, k, (n - 1) as nat, i);
    }
}

/// No nearest distance is negative.
pub proof fn lemma_nearest_dist2_nonneg(pts: Seq<Seq<i32>>, sel: Seq<usize>, i: usize)
    ensures
        nearest_dist2(pts, sel, i) >= 0,
{
    if sel.len() >= 1 {
        lemma_owner(pts, sel, i);
        lemma_sq_dist_upto_bound(pts[i as int], pts[sel[owner(pts, sel, i)] as int], pts[i as int].len());
    }
}

/// The covering radius over the first `n` points is not negative.
pub proof fn lemma_cover_radius2_nonneg(pts: Seq<Seq<i32>>, sel: Seq<usize>, n: nat)
    ensures
        cover_radius2_upto(pts, sel, n) >= 0,
    decreases n,
{
    if n > 0 {
        lemma_cover_radius2_nonneg(pts, sel, (n - 1) as nat);
    }
}

/// An upper bound of the nearest distances of the unselected points bounds
/// the covering radius.
pub proof fn lemma_cover_radius2_upper(pts: Seq<Seq<i32>>, sel: Seq<usize>, n: nat, r: int)
    requires
        n <= usize::MAX,
        r >= 0,
        forall|i: usize| i < n && !sel.contains(i) ==> #[trigger] nearest_dist2(pts, sel, i) <= r,
    ensures
        cover_radius2_upto(pts, sel, n) <= r,
    decreases n,
{
    if n > 0 {
        lemma_cover_radius2_upper(pts, sel, (n - 1) as nat, r);
    }
}

/// The covering radius is at least the nearest distance of each unselected
/// point.
pub proof fn lemma_cover_radius2_lower(pts: Seq<Seq<i32>>, sel: Seq<usize>, n: nat, i: usize)
    requires
        n <= usize::MAX,
        i < n,
        !sel.contains(i),
    ensures
        cover_radius2_upto(pts, sel, n) >= nearest_dist2(pts, sel, i),
    decreases n,
{
    if i < n - 1 {
        lemma_cover_radius2_lower(pts, sel, (n - 1) as nat, i);
    }
}

/// The distance of the next point of a selection is the covering radius of
/// the selection.
pub proof fn lemma_farthest_is_cover_radius2(pts: Seq<Seq<i32>>, sel: Seq<usize>, idx: usize, d: int)
    requires
        pts.len() <= usize::MAX,
        is_farthest(pts, sel, idx, d),
    ensures
        d == cover_radius2(pts, sel),
{
    lemma_nearest_dist2_nonneg(pts, sel, idx);
    assert forall|i: usize| i < pts.len() && !sel.contains(i) implies #[trigger] nearest_dist2(
        pts,
        sel,
        i,
    ) <= d by {
        assert(is_unselected(pts, sel, i));
    }
    lemma_cover_radius2_upper(pts, sel, pts.len(), d);
    lemma_cover_radius2_lower(pts, sel, pts.len(), idx);
}

/// Adding a point to a selection, whichever point it is, never widens the
/// covering radius.
pub proof fn lemma_cover_radius2_non_increasing(pts: Seq<Seq<i32>>, sel: Seq<usize>, c: usize)
    requires
        pts.len() <= usize::MAX,
        sel.len() >= 1,
    ensures
        cover_radius2(pts, sel.push(c)) <= cover_radius2(pts, sel),
{
    let next = sel.push(c);
    lemma_cover_radius2_nonneg(pts, sel, pts.len());
    assert forall|i: usize| i < pts.len() && !next.contains(i) implies #[trigger] nearest_dist2(
        pts,
        next,
        i,
    ) <= cover_radius2(pts, sel) by {
        lemma_seq_contains_after_push(sel, c, i);
        lemma_push_center(pts, sel, c, i);
        lemma_cover_radius2_lower(pts, sel, pts.len(), i);
    }
    lemma_cover_radius2_upper(pts, next, pts.len(), cover_radius2(pts, sel));
}

/// The covering radius of a longer prefix of a selection is at most that
/// of a shorter one.
pub proof fn lemma_cover_radius2_prefixes(pts: Seq<Seq<i32>>, sel: Seq<usize>, s: int, t: int)
    requires
        pts.len() <= usize::MAX,
        1 <= s <= t <= sel.len(),
    ensures
        cover_radius2(pts, sel.take(t)) <= cover_radius2(pts, sel.take(s)),
    decreases t - s,
{
    if s < t {
        lemma_cover_radius2_prefixes(pts, sel, s, t - 1);
        assert(sel.take(t) =~= sel.take(t - 1).push(sel[t - 1]));
        lemma_cover_radius2_non_increasing(pts, sel.take(t - 1), sel[t - 1]);
    }
}

/// Along a farthest-point selection the distance at which a point is
/// selected never grows.
pub proof fn lemma_fps_distances_non_increasing(
    pts: Seq<Seq<i32>>,
    seed: usize,
    out: Seq<usize>,
    s: int,
    t: int,
)
    requires
        pts.len() <= usize::MAX,
        is_fps_sequence(pts, seed, out),
        1 <= s <= t < out.len(),
    ensures
        nearest_dist2(pts, out.take(t), out[t]) <= nearest_dist2(pts, out.take(s), out[s]),
{
    lemma_farthest_is_cover_radius2(pts, out.take(s), out[s], nearest_dist2(pts, out.take(s), out[s]));
    lemma_farthest_is_cover_radius2(pts, out.take(t), out[t], nearest_dist2(pts, out.take(t), out[t]));
    lemma_cover_radius2_prefixes(pts, out, s, t);
}

/// The cell of a point that has just been added is no wider than the
/// covering radius was before.
pub proof fn lemma_new_cell_radius2_bounded(pts: Seq<Seq<i32>>, sel: Seq<usize>, c: usize)
    requires
        pts.len() <= usize::MAX,
        sel.len() >= 1,
    ensures
        cell_radius2(pts, sel.push(c), sel.len() as int) <= cover_radius2(pts, sel),
{
    let next = sel.push(c);
    let k = sel.len() as int;
    lemma_cover_radius2_nonneg(pts, sel, pts.len());
    assert forall|i: usize| i < pts.len() && #[trigger] in_cell(pts, next, k, i) implies dist2(
        pts,
        i as int,
        next[k] as int,
    ) <= cover_radius2(pts, sel) by {
        lemma_seq_contains_after_push(sel, c, i);
        lemma_push_center(pts, sel, c, i);
        lemma_owner(pts, sel, i);
        lemma_cover_radius2_lower(pts, sel, pts.len(), i);
        assert(next[k] == c);
    }
    lemma_cell_radius2_upper(pts, next, k, pts.len(), cover_radius2(pts, sel));
}

/// The cell of the seed is as wide as the covering radius of the seed
/// alone.
pub proof fn lemma_seed_cell_radius2(pts: Seq<Seq<i32>>, seed: usize, n: nat)
    requires
        n <= pts.len() <= usize::MAX,
    ensures
        cell_radius2_upto(pts, seq![seed], 0, n) == cover_radius2_upto(pts, seq![seed], n),
    decreases n,
{
    if n > 0 {
        lemma_seed_cell_radius2(pts, seed, (n - 1) as nat);
        let sel = seq![seed];
        let i = (n - 1) as usize;
        assert(sel.len() == 1);
        assert(sel[0] == seed);
        assert(owner(pts, sel, i) == 0);
        assert(nearest_dist2(pts, sel, i) == dist2(pts, i as int, seed as int));
        assert(in_cell(pts, sel, 0, i) <==> !sel.contains(i));
    }
}

/// Every entry of the radius trace of a selection, the radius that the cell
/// at position `t` had when its center was added, is bounded by the
/// covering radius just before, and so by the first entry of the trace.
pub proof fn lemma_radius_trace_bounded(pts: Seq<Seq<i32>>, sel: Seq<usize>, t: int)
    requires
        pts.len() <= usize::MAX,
        1 <= t < sel.len(),
    ensures
        cell_radius2(pts, sel.take(t + 1), t) <= cover_radius2(pts, sel.take(t)),
        cover_radius2(pts, sel.take(t)) <= cover_radius2(pts, sel.take(1)),
        cell_radius2(pts, sel.take(1), 0) == cover_radius2(pts, sel.take(1)),
{
    assert(sel.take(t + 1) =~= sel.take(t).push(sel[t]));
    lemma_new_cell_radius2_bounded(pts, sel.take(t), sel[t]);
    lemma_cover_radius2_prefixes(pts, sel, 1, t);
    assert(sel.take(1) =~= seq![sel[0]]);
    lemma_seed_cell_radius2(pts, sel[0], pts.len());
}

/// Once every point is selected, every cell has radius zero and the
/// covering radius is zero.
pub proof fn lemma_all_selected_radius2_zero(pts: Seq<Seq<i32>>, sel: Seq<usize>, k: int)
    requires
        pts.len() <= usize::MAX,
        all_selected(pts, sel),
    ensures
        cell_radius2(pts, sel, k) == 0,
        cover_radius2(pts, sel) == 0,
{
    lemma_cell_radius2_upper(pts, sel, k, pts.len(), 0);
    lemma_cover_radius2_upper(pts, sel, pts.len(), 0);
    lemma_cover_radius2_nonneg(pts, sel, pts.len());
}

} // verus!
