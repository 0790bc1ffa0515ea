//! The Voronoi engine: it keeps the unselected points in cells, one cell per
//! selected point, and on every step rescans only the cells that the new
//! center can reach.

use vstd::prelude::*;
use crate::error::FpsError;
use crate::metric::{dist2, is_point_matrix, lemma_pruning_sound};
use crate::model::{
    all_selected, cell_radius2, in_cell, is_farthest, is_fps_sequence, is_selection, is_unselected,
    lemma_all_selected_len, lemma_all_selected_radius2_zero, lemma_cell_radius2_lower,
    lemma_cell_radius2_upper, lemma_fps_sequence_push, lemma_owner, lemma_push_center,
    lemma_push_member, lemma_selection_push, lemma_take_step, nearest_dist2, owner,
};
use crate::points::PointSet;

verus! {

/// The cell of one selected point.
pub struct VoronoiCell {
    /// The selected point that the cell belongs to.
    pub center: usize,
    /// The largest squared distance from the center to a member; zero
    /// without members.
    pub radius2: u128,
    /// The member at that distance, the lowest index among equals.
    pub farthest: Option<usize>,
    /// The unselected points whose nearest selected point is the center.
    pub members: Vec<usize>,
}

/// `farthest` and `radius2` are what a cell with these members records:
/// the member farthest from the center, the lowest index among equals, and
/// its squared distance.
pub open spec fn is_cell_farthest(
    pts: Seq<Seq<i32>>,
    center: usize,
    members: Seq<usize>,
    farthest: Option<usize>,
    radius2: int,
) -> bool {
    match farthest {
        None => members.len() == 0 && radius2 == 0,
        Some(f) => {
            &&& members.contains(f)
            &&& radius2 == dist2(pts, f as int, center as int)
            &&& forall|m: usize| #[trigger]
                members.contains(m) ==> dist2(pts, m as int, center as int) < radius2 || (dist2(
                    pts,
                    m as int,
                    center as int,
                ) == radius2 && f <= m)
        },
    }
}

/// The record of the cell at position `k` of a selection is exact: its
/// members are the unselected points that the center owns, each once.
pub open spec fn cell_ok(pts: Seq<Seq<i32>>, sel: Seq<usize>, k: int, cell: VoronoiCell) -> bool {
    &&& cell.center == sel[k]
    &&& cell.members@.no_duplicates()
    &&& forall|m: usize| #[trigger] cell.members@.contains(m) <==> in_cell(pts, sel, k, m)
    &&& is_cell_farthest(pts, cell.center, cell.members@, cell.farthest, cell.radius2 as int)
}

/// Point `m` of the cell of `center` is strictly closer to the new center
/// `c`, and so changes cells.
pub open spec fn moves(pts: Seq<Seq<i32>>, center: usize, c: usize, m: usize) -> bool {
    m != c && dist2(pts, m as int, c as int) < dist2(pts, m as int, center as int)
}

/// An exact cell records the radius of the cell of its center.
pub proof fn lemma_cell_radius2(pts: Seq<Seq<i32>>, sel: Seq<usize>, k: int, cell: VoronoiCell)
    requires
        pts.len() <= usize::MAX,
        cell_ok(pts, sel, k, cell),
    ensures
        cell.radius2 as int == cell_radius2(pts, sel, k),
{
    assert forall|i: usize| i < pts.len() && #[trigger] in_cell(pts, sel, k, i) implies dist2(
        pts,
        i as int,
        sel[k] as int,
    ) <= cell.radius2 as int by {
        assert(cell.members@.contains(i));
        if cell.farthest.is_none() {
            assert(cell.members@[choose|q: int| 0 <= q < cell.members@.len() && cell.members@[q] == i]
                == i);
        }
    }
    lemma_cell_radius2_upper(pts, sel, k, pts.len(), cell.radius2 as int);
    if let Some(f) = cell.farthest {
        assert(in_cell(pts, sel, k, f));
        lemma_cell_radius2_lower(pts, sel, k, pts.len(), f);
    }
}

/// Adds `m`, at squared distance `d` from the center, to the members of a
/// cell.
fn cell_insert(Ghost(pts): Ghost<Seq<Seq<i32>>>, cell: &mut VoronoiCell, m: usize, d: u128)
    requires
        old(cell).members@.no_duplicates(),
        !old(cell).members@.contains(m),
        d == dist2(pts, m as int, old(cell).center as int),
        is_cell_farthest(
            pts,
            old(cell).center,
            old(cell).members@,
            old(cell).farthest,
            old(cell).radius2 as int,
        ),
    ensures
        final(cell).center == old(cell).center,
        final(cell).members@.no_duplicates(),
        forall|x: usize| #[trigger]
            final(cell).members@.contains(x) <==> old(cell).members@.contains(x) || x == m,
        is_cell_farthest(
            pts,
            final(cell).center,
            final(cell).members@,
            final(cell).farthest,
            final(cell).radius2 as int,
        ),
{
    proof {
        lemma_push_member(cell.members@, m);
    }
    let better: bool = match cell.farthest {
        None => true,
        Some(f) => d > cell.radius2 || (d == cell.radius2 && m < f),
    };
    cell.members.push(m);
    if better {
        cell.radius2 = d;
        cell.farthest = Some(m);
    }
}

/// What `split_cell` does to a cell, to the cell of the new center and to
/// the table of owners.
pub open spec fn is_split(
    pts: Seq<Seq<i32>>,
    cell: VoronoiCell,
    kept: VoronoiCell,
    fresh0: VoronoiCell,
    fresh1: VoronoiCell,
    home0: Seq<usize>,
    home1: Seq<usize>,
    fresh_index: usize,
) -> bool {
    let c = fresh0.center;
    &&& kept.center == cell.center
    &&& fresh1.center == c
    &&& kept.members@.no_duplicates()
    &&& fresh1.members@.no_duplicates()
    &&& forall|m: usize| #[trigger]
        kept.members@.contains(m) <==> cell.members@.contains(m) && m != c && !moves(
            pts,
            cell.center,
            c,
            m,
        )
    &&& forall|m: usize| #[trigger]
        fresh1.members@.contains(m) <==> fresh0.members@.contains(m) || (cell.members@.contains(m)
            && moves(pts, cell.center, c, m))
    &&& is_cell_farthest(pts, kept.center, kept.members@, kept.farthest, kept.radius2 as int)
    &&& is_cell_farthest(pts, fresh1.center, fresh1.members@, fresh1.farthest, fresh1.radius2 as int)
    &&& home1.len() == home0.len()
    &&& forall|i: usize|
        i < home0.len() ==> #[trigger] home1[i as int] == if cell.members@.contains(i) && moves(
            pts,
            cell.center,
            c,
            i,
        ) {
            fresh_index
        } else {
            home0[i as int]
        }
}

/// Examines every member of `cell` against the center of `fresh`: a member
/// strictly closer to that center moves into `fresh`, the center itself
/// leaves, and the others form the cell that is returned.
fn split_cell(
    points: &PointSet,
    cell: &VoronoiCell,
    fresh: &mut VoronoiCell,
    home: &mut Vec<usize>,
    fresh_index: usize,
) -> (kept: VoronoiCell)
    requires
        points.wf(),
        cell.center < points@.len(),
        old(fresh).center < points@.len(),
        old(home)@.len() == points@.len(),
        cell.members@.no_duplicates(),
        forall|m: usize| #[trigger]
            cell.members@.contains(m) ==> m < points@.len() && !old(fresh).members@.contains(m),
        old(fresh).members@.no_duplicates(),
        is_cell_farthest(
            points@,
            old(fresh).center,
            old(fresh).members@,
            old(fresh).farthest,
            old(fresh).radius2 as int,
        ),
    ensures
        is_split(points@, *cell, kept, *old(fresh), *final(fresh), old(home)@, final(home)@, fresh_index),
{
    let ghost pts = points@;
    let ghost lst = cell.members@;
    let ghost fresh0 = *fresh;
    let ghost home0 = home@;
    let c: usize = fresh.center;
    let xc: usize = cell.center;
    let mut kept = VoronoiCell { center: xc, radius2: 0, farthest: None, members: Vec::new() };
    let mut q: usize = 0;
    while q < cell.members.len()
        invariant
            points.wf(),
            pts == points@,
            lst == cell.members@,
            lst.no_duplicates(),
            xc == cell.center,
            xc < pts.len(),
            c < pts.len(),
            c == fresh0.center,
            fresh.center == c,
            kept.center == xc,
            q <= lst.len(),
            forall|m: usize| #[trigger] lst.contains(m) ==> m < pts.len() && !fresh0.members@.contains(m),
            home@.len() == pts.len(),
            home0.len() == pts.len(),
            kept.members@.no_duplicates(),
            fresh.members@.no_duplicates(),
            forall|m: usize| #[trigger]
                kept.members@.contains(m) <==> lst.take(q as int).contains(m) && m != c && !moves(
                    pts,
                    xc,
                    c,
                    m,
                ),
            forall|m: usize| #[trigger]
                fresh.members@.contains(m) <==> fresh0.members@.contains(m) || (lst.take(
                    q as int,
                ).contains(m) && moves(pts, xc, c, m)),
            is_cell_farthest(pts, xc, kept.members@, kept.farthest, kept.radius2 as int),
            is_cell_farthest(pts, c, fresh.members@, fresh.farthest, fresh.radius2 as int),
            forall|i: usize|
                i < pts.len() ==> #[trigger] home@[i as int] == if lst.take(q as int).contains(i)
                    && moves(pts, xc, c, i) {
                    fresh_index
                } else {
                    home0[i as int]
                },
        decreases lst.len() - q,
    {
        let m: usize = cell.members[q];
        proof {
            lemma_take_step(lst, q as int);
        }
        if m != c {
            let d_old: u128 = points.dist2(m, xc);
            let d_new: u128 = points.dist2(m, c);
            if d_new < d_old {
                cell_insert(Ghost(pts), fresh, m, d_new);
                home.set(m, fresh_index);
            } else {
                cell_insert(Ghost(pts), &mut kept, m, d_old);
            }
        }
        q += 1;
    }
    proof {
        assert(lst.take(lst.len() as int) =~= lst);
    }
    kept
}

/// A skipped cell stays exact, and hands nothing to the cell of the new
/// center: the pruning rule at work.
proof fn lemma_cell_pruned(pts: Seq<Seq<i32>>, sel: Seq<usize>, p: usize, x: int, cell: VoronoiCell)
    requires
        is_point_matrix(pts),
        is_selection(pts, sel),
        is_unselected(pts, sel, p),
        0 <= x < sel.len(),
        cell_ok(pts, sel, x, cell),
        owner(pts, sel, p) != x,
        dist2(pts, cell.center as int, p as int) >= 4 * cell.radius2,
    ensures
        cell_ok(pts, sel.push(p), x, cell),
        forall|m: usize| in_cell(pts, sel, x, m) ==> #[trigger] owner(pts, sel.push(p), m) == x,
{
    let next = sel.push(p);
    lemma_selection_push(pts, sel, p);
    assert(next[x] == sel[x]);
    assert forall|m: usize| in_cell(pts, sel, x, m) implies #[trigger] owner(pts, next, m) == x by {
        lemma_push_center(pts, sel, p, m);
        lemma_owner(pts, sel, m);
        assert(cell.members@.contains(m));
        if cell.farthest.is_none() {
            assert(cell.members@[choose|q: int| 0 <= q < cell.members@.len() && cell.members@[q] == m]
                == m);
        }
        lemma_pruning_sound(pts, m as int, cell.center as int, p as int, cell.radius2 as int);
    }
    assert forall|m: usize| #[trigger] cell.members@.contains(m) <==> in_cell(pts, next, x, m) by {
        lemma_push_center(pts, sel, p, m);
        lemma_owner(pts, sel, m);
        if cell.members@.contains(m) {
            assert(in_cell(pts, sel, x, m));
            assert(owner(pts, next, m) == x);
        }
        if in_cell(pts, next, x, m) {
            assert(in_cell(pts, sel, x, m));
        }
    }
}

/// The cell of the new center `p` while the cells before position `x` have
/// been dealt with: it holds the points that `p` takes from those cells.
spec fn fresh_ok(pts: Seq<Seq<i32>>, sel: Seq<usize>, p: usize, x: int, fresh: VoronoiCell) -> bool {
    &&& fresh.center == p
    &&& fresh.members@.no_duplicates()
    &&& forall|m: usize| #[trigger]
        fresh.members@.contains(m) <==> in_cell(pts, sel.push(p), sel.len() as int, m) && owner(
            pts,
            sel,
            m,
        ) < x
    &&& is_cell_farthest(pts, p, fresh.members@, fresh.farthest, fresh.radius2 as int)
}

/// The table of owners while the cells before position `x` have been dealt
/// with: the points of those cells have their new owner, the others their
/// old one.
spec fn home_ok(pts: Seq<Seq<i32>>, sel: Seq<usize>, p: usize, x: int, home: Seq<usize>) -> bool {
    &&& home.len() == pts.len()
    &&& forall|i: usize|
        is_unselected(pts, sel.push(p), i) ==> #[trigger] home[i as int] == if owner(pts, sel, i) < x {
            owner(pts, sel.push(p), i)
        } else {
            owner(pts, sel, i)
        }
}

/// Skipping the cell at `x` under the pruning rule keeps the run of
/// `add_point` on course.
proof fn lemma_after_prune(
    pts: Seq<Seq<i32>>,
    sel: Seq<usize>,
    p: usize,
    x: int,
    cell: VoronoiCell,
    fresh: VoronoiCell,
    home: Seq<usize>,
)
    requires
        is_point_matrix(pts),
        is_selection(pts, sel),
        is_unselected(pts, sel, p),
        0 <= x < sel.len(),
        cell_ok(pts, sel, x, cell),
        owner(pts, sel, p) != x,
        dist2(pts, cell.center as int, p as int) >= 4 * cell.radius2,
        fresh_ok(pts, sel, p, x, fresh),
        home_ok(pts, sel, p, x, home),
    ensures
        cell_ok(pts, sel.push(p), x, cell),
        fresh_ok(pts, sel, p, x + 1, fresh),
        home_ok(pts, sel, p, x + 1, home),
{
    let next = sel.push(p);
    lemma_cell_pruned(pts, sel, p, x, cell);
    lemma_selection_push(pts, sel, p);
    assert forall|m: usize| #[trigger]
        fresh.members@.contains(m) <==> in_cell(pts, next, sel.len() as int, m) && owner(pts, sel, m)
            < x + 1 by {
        if in_cell(pts, next, sel.len() as int, m) && owner(pts, sel, m) == x {
            assert(in_cell(pts, sel, x, m));
            assert(owner(pts, next, m) == x);
        }
    }
    assert forall|i: usize| is_unselected(pts, next, i) implies #[trigger] home[i as int] == if owner(
        pts,
        sel,
        i,
    ) < x + 1 {
        owner(pts, next, i)
    } else {
        owner(pts, sel, i)
    } by {
        if owner(pts, sel, i) == x {
            assert(in_cell(pts, sel, x, i));
            assert(owner(pts, next, i) == x);
        }
    }
}

/// Splitting the cell at `x` keeps the run of `add_point` on course.
proof fn lemma_after_split(
    pts: Seq<Seq<i32>>,
    sel: Seq<usize>,
    p: usize,
    x: int,
    cell: VoronoiCell,
    kept: VoronoiCell,
    fresh0: VoronoiCell,
    fresh1: VoronoiCell,
    home0: Seq<usize>,
    home1: Seq<usize>,
    fresh_index: usize,
)
    requires
        is_point_matrix(pts),
        is_selection(pts, sel),
        is_unselected(pts, sel, p),
        0 <= x < sel.len(),
        cell_ok(pts, sel, x, cell),
        fresh_ok(pts, sel, p, x, fresh0),
        home_ok(pts, sel, p, x, home0),
        fresh_index == sel.len(),
        is_split(pts, cell, kept, fresh0, fresh1, home0, home1, fresh_index),
    ensures
        cell_ok(pts, sel.push(p), x, kept),
        fresh_ok(pts, sel, p, x + 1, fresh1),
        home_ok(pts, sel, p, x + 1, home1),
{
    let next = sel.push(p);
    let xc = cell.center;
    lemma_selection_push(pts, sel, p);
    assert(next[x] == sel[x]);
    assert forall|m: usize| #[trigger] kept.members@.contains(m) <==> in_cell(pts, next, x, m) by {
        lemma_push_center(pts, sel, p, m);
        lemma_owner(pts, sel, m);
        if kept.members@.contains(m) {
            assert(cell.members@.contains(m));
            assert(in_cell(pts, sel, x, m));
        }
        if in_cell(pts, next, x, m) {
            assert(in_cell(pts, sel, x, m));
            assert(cell.members@.contains(m));
        }
    }
    assert forall|m: usize| #[trigger]
        fresh1.members@.contains(m) <==> in_cell(pts, next, sel.len() as int, m) && owner(pts, sel, m)
            < x + 1 by {
        lemma_push_center(pts, sel, p, m);
        lemma_owner(pts, sel, m);
        if fresh1.members@.contains(m) && !fresh0.members@.contains(m) {
            assert(cell.members@.contains(m));
            assert(in_cell(pts, sel, x, m));
        }
        if in_cell(pts, next, sel.len() as int, m) && owner(pts, sel, m) == x {
            assert(in_cell(pts, sel, x, m));
            assert(cell.members@.contains(m));
        }
        if fresh0.members@.contains(m) {
            assert(in_cell(pts, next, sel.len() as int, m) && owner(pts, sel, m) < x);
        }
    }
    assert forall|i: usize| is_unselected(pts, next, i) implies #[trigger] home1[i as int] == if owner(
        pts,
        sel,
        i,
    ) < x + 1 {
        owner(pts, next, i)
    } else {
        owner(pts, sel, i)
    } by {
        lemma_push_center(pts, sel, p, i);
        lemma_owner(pts, sel, i);
        assert(home0[i as int] == if owner(pts, sel, i) < x {
            owner(pts, next, i)
        } else {
            owner(pts, sel, i)
        });
        if cell.members@.contains(i) {
            assert(in_cell(pts, sel, x, i));
        }
        if owner(pts, sel, i) == x {
            assert(in_cell(pts, sel, x, i));
            assert(cell.members@.contains(i));
        }
    }
}

/// The state of a Voronoi selection over a borrowed point set.
pub struct VoronoiDecomposer<'a> {
    points: &'a PointSet,
    cells: Vec<VoronoiCell>,
    home: Vec<usize>,
    chosen: Vec<bool>,
    sequence: Vec<usize>,
    trace: Vec<u128>,
}

impl<'a> View for VoronoiDecomposer<'a> {
    type V = Seq<usize>;

    /// The indices selected so far, in the order of their selection.
    closed spec fn view(&self) -> Seq<usize> {
        self.sequence@
    }
}

impl<'a> VoronoiDecomposer<'a> {
    /// The point set that the selection runs over.
    pub closed spec fn points(&self) -> PointSet {
        *self.points
    }

    /// The cells, one per selected point in the order of selection.
    pub closed spec fn spec_cells(&self) -> Seq<VoronoiCell> {
        self.cells@
    }

    /// The radius that each cell had when its center had just been added.
    pub closed spec fn spec_radius2(&self) -> Seq<u128> {
        self.trace@
    }

    /// The selection is valid, every cell is exact and holds each of its
    /// points once, the table of owners and the marks agree with the cells,
    /// and the trace holds the radius each cell was created with.
    pub closed spec fn wf(&self) -> bool {
        let pts = self.points@;
        let sel = self.sequence@;
        &&& self.points.wf()
        &&& is_selection(pts, sel)
        &&& self.cells@.len() == sel.len()
        &&& self.trace@.len() == sel.len()
        &&& self.home@.len() == pts.len()
        &&& self.chosen@.len() == pts.len()
        &&& forall|i: usize| i < pts.len() ==> (#[trigger] self.chosen@[i as int] <==> sel.contains(i))
        &&& sel.len() >= 1 ==> forall|i: usize|
            is_unselected(pts, sel, i) ==> #[trigger] self.home@[i as int] == owner(pts, sel, i)
        &&& forall|k: int| 0 <= k < sel.len() ==> cell_ok(pts, sel, k, #[trigger] self.cells@[k])
        &&& forall|t: int|
            0 <= t < sel.len() ==> #[trigger] self.trace@[t] == cell_radius2(pts, sel.take(t + 1), t)
    }

    /// What a valid state says of its selection, its cells and its trace.
    pub proof fn lemma_wf(&self)
        requires
            self.wf(),
        ensures
            self.points().wf(),
            is_selection(self.points()@, self@),
            self.spec_cells().len() == self@.len(),
            self.spec_radius2().len() == self@.len(),
            forall|k: int|
                0 <= k < self@.len() ==> cell_ok(self.points()@, self@, k, #[trigger] self.spec_cells()[k]),
            forall|k: int|
                0 <= k < self@.len() ==> (#[trigger] self.spec_cells()[k]).radius2 == cell_radius2(
                    self.points()@,
                    self@,
                    k,
                ),
            forall|t: int|
                0 <= t < self@.len() ==> #[trigger] self.spec_radius2()[t] == cell_radius2(
                    self.points()@,
                    self@.take(t + 1),
                    t,
                ),
    {
        assert forall|k: int| 0 <= k < self@.len() implies (#[trigger] self.spec_cells()[k]).radius2
            == cell_radius2(self.points()@, self@, k) by {
            lemma_cell_radius2(self.points()@, self@, k, self.cells@[k]);
        }
    }

    /// A decomposer over `points` in which no seed has been set.
    pub fn unseeded(points: &'a PointSet) -> (r: Self)
        requires
            points.wf(),
        ensures
            r.wf(),
            r.points() == *points,
            r@ == Seq::<usize>::empty(),
    {
        let n: usize = points.len();
        let mut home: Vec<usize> = Vec::new();
        let mut chosen: Vec<bool> = Vec::new();
        let mut i: usize = 0;
        while i < n
            invariant
                i <= n,
                home@.len() == i,
                chosen@.len() == i,
                forall|k: int| 0 <= k < i ==> !chosen@[k],
            decreases n - i,
        {
            home.push(0usize);
            chosen.push(false);
            i += 1;
        }
        let r = VoronoiDecomposer {
            points,
            cells: Vec::new(),
            home,
            chosen,
            sequence: Vec::new(),
            trace: Vec::new(),
        };
        assert(r@ =~= Seq::<usize>::empty());
        r
    }

    /// Starts the selection anew from `seed`, whatever was selected before:
    /// one cell, which holds every other point.
    pub fn initialize(&mut self, seed: usize) -> (r: Result<(), FpsError>)
        requires
            old(self).wf(),
        ensures
            final(self).wf(),
            final(self).points() == old(self).points(),
            seed < old(self).points()@.len() ==> r.is_ok() && final(self)@ == seq![seed],
            seed >= old(self).points()@.len() ==> r == Err::<(), FpsError>(FpsError::IndexOutOfRange)
                && *final(self) == *old(self),
    {
        let n: usize = self.points.len();
        if seed >= n {
            return Err(FpsError::IndexOutOfRange);
        }
        let ghost pts = self.points@;
        let mut cell = VoronoiCell { center: seed, radius2: 0, farthest: None, members: Vec::new() };
        let mut home: Vec<usize> = Vec::new();
        let mut chosen: Vec<bool> = Vec::new();
        let mut i: usize = 0;
        while i < n
            invariant
                self.points == old(self).points,
                self.points.wf(),
                pts == self.points@,
                n == pts.len(),
                seed < n,
                i <= n,
                cell.center == seed,
                cell.members@.no_duplicates(),
                forall|m: usize| #[trigger] cell.members@.contains(m) <==> m < i && m != seed,
                is_cell_farthest(pts, seed, cell.members@, cell.farthest, cell.radius2 as int),
                home@.len() == i,
                chosen@.len() == i,
                forall|k: int| 0 <= k < i ==> home@[k] == 0,
                forall|k: usize| k < i ==> (#[trigger] chosen@[k as int] <==> k == seed),
            decreases n - i,
        {
            if i != seed {
                let d: u128 = self.points.dist2(i, seed);
                cell_insert(Ghost(pts), &mut cell, i, d);
            }
            home.push(0usize);
            chosen.push(i == seed);
            i += 1;
        }
        let radius2: u128 = cell.radius2;
        let ghost first = cell;
        let mut cells: Vec<VoronoiCell> = Vec::new();
        cells.push(cell);
        let mut sequence: Vec<usize> = Vec::new();
        sequence.push(seed);
        let mut trace: Vec<u128> = Vec::new();
        trace.push(radius2);
        self.cells = cells;
        self.home = home;
        self.chosen = chosen;
        self.sequence = sequence;
        self.trace = trace;
        proof {
            let sel = self.sequence@;
            assert(sel =~= seq![seed]);
            assert(sel[0] == seed);
            assert forall|k: usize| k < pts.len() implies (#[trigger] self.chosen@[k as int]
                <==> sel.contains(k)) by {
                if k == seed {
                    assert(sel[0] == k);
                }
            }
            assert forall|m: usize| #[trigger] first.members@.contains(m) <==> in_cell(pts, sel, 0, m) by {
                if m == seed {
                    assert(sel[0] == m);
                }
            }
            assert(cell_ok(pts, sel, 0, first));
            assert(sel.take(1) =~= sel);
            lemma_cell_radius2(pts, sel, 0, first);
        }
        Ok(())
    }

    /// A decomposer over `points` whose selection holds the seed alone.
    pub fn new(points: &'a PointSet, initial: usize) -> (r: Result<Self, FpsError>)
        requires
            points.wf(),
        ensures
            r.is_ok() <==> initial < points@.len(),
            r matches Ok(s) ==> s.wf() && s.points() == *points && s@ == seq![initial],
            r matches Err(e) ==> e == FpsError::IndexOutOfRange,
    {
        let mut decomposer = VoronoiDecomposer::unseeded(points);
        match decomposer.initialize(initial) {
            Ok(()) => Ok(decomposer),
            Err(e) => Err(e),
        }
    }

    /// The indices selected so far, in the order of their selection.
    pub fn selected(&self) -> (r: &Vec<usize>)
        ensures
            r@ == self@,
    {
        &self.sequence
    }

    /// Ends the selection and hands out its indices.
    pub fn into_selected(self) -> (r: Vec<usize>)
        ensures
            r@ == self@,
    {
        self.sequence
    }

    /// The cells as they are now, one per selected point in the order of
    /// selection.
    pub fn cells(&self) -> (r: &Vec<VoronoiCell>)
        requires
            self.wf(),
        ensures
            r@ == self.spec_cells(),
            r@.len() == self@.len(),
            forall|k: int| 0 <= k < self@.len() ==> cell_ok(self.points()@, self@, k, #[trigger] r@[k]),
    {
        &self.cells
    }

    /// For each selected point, in the order of selection, the squared
    /// radius that its cell had when the point had just been added.
    pub fn radius2(&self) -> (r: &Vec<u128>)
        requires
            self.wf(),
        ensures
            r@ == self.spec_radius2(),
            r@.len() == self@.len(),
            forall|t: int|
                0 <= t < self@.len() ==> #[trigger] r@[t] == cell_radius2(
                    self.points()@,
                    self@.take(t + 1),
                    t,
                ),
    {
        &self.trace
    }

    /// The next point of the selection and its squared distance to the
    /// nearest selected point: the farthest member of the widest cell, the
    /// lowest index among equals.
    pub fn next_point(&self) -> (r: Result<(usize, u128), FpsError>)
        requires
            self.wf(),
        ensures
            self@.len() == 0 ==> r == Err::<(usize, u128), FpsError>(FpsError::NotInitialized),
            self@.len() >= 1 && all_selected(self.points()@, self@) ==> r == Err::<
                (usize, u128),
                FpsError,
            >(FpsError::EmptyCandidateSet),
            self@.len() >= 1 && !all_selected(self.points()@, self@) ==> r.is_ok(),
            r matches Ok((idx, d)) ==> is_farthest(self.points()@, self@, idx, d as int),
    {
        let count: usize = self.cells.len();
        if count == 0 {
            return Err(FpsError::NotInitialized);
        }
        let ghost pts = self.points@;
        let ghost sel = self.sequence@;
        let mut best: Option<(usize, u128)> = None;
        let mut x: usize = 0;
        proof {
            assert forall|j: usize| is_unselected(pts, sel, j) implies #[trigger] owner(pts, sel, j)
                >= 0 by {
                lemma_owner(pts, sel, j);
            }
        }
        while x < count
            invariant
                self.wf(),
                pts == self.points@,
                sel == self.sequence@,
                count == sel.len(),
                count == self.cells@.len(),
                x <= count,
                match best {
                    None => forall|j: usize|
                        is_unselected(pts, sel, j) ==> #[trigger] owner(pts, sel, j) >= x,
                    Some((b, d)) => {
                        &&& is_unselected(pts, sel, b)
                        &&& d == nearest_dist2(pts, sel, b)
                        &&& forall|j: usize|
                            is_unselected(pts, sel, j) && owner(pts, sel, j) < x
                                ==> #[trigger] nearest_dist2(pts, sel, j) < d || (nearest_dist2(
                                pts,
                                sel,
                                j,
                            ) == d && b <= j)
                    },
                },
            decreases count - x,
        {
            let cell: &VoronoiCell = &self.cells[x];
            let ghost before = best;
            proof {
                assert(cell_ok(pts, sel, x as int, *cell));
            }
            match cell.farthest {
                Some(f) => {
                    let r: u128 = cell.radius2;
                    let better: bool = match best {
                        None => true,
                        Some((b, d)) => r > d || (r == d && f < b),
                    };
                    proof {
                        assert(in_cell(pts, sel, x as int, f));
                        lemma_owner(pts, sel, f);
                    }
                    if better {
                        best = Some((f, r));
                    }
                    proof {
                        let (nb, nd) = best.unwrap();
                        assert forall|j: usize|
                            is_unselected(pts, sel, j) && owner(pts, sel, j) < x + 1
                                implies #[trigger] nearest_dist2(pts, sel, j) < nd || (nearest_dist2(
                            pts,
                            sel,
                            j,
                        ) == nd && nb <= j) by {
                            lemma_owner(pts, sel, j);
                            if owner(pts, sel, j) == x {
                                assert(in_cell(pts, sel, x as int, j));
                                assert(cell.members@.contains(j));
                            } else {
                                if before.is_none() {
                                    assert(owner(pts, sel, j) >= x);
                                }
                            }
                        }
                    }
                },
                None => {
                    proof {
                        assert forall|j: usize|
                            is_unselected(pts, sel, j) && #[trigger] owner(pts, sel, j)
                                == x implies false by {
                            assert(in_cell(pts, sel, x as int, j));
                            assert(cell.members@.contains(j));
                            assert(cell.members@[choose|q: int|
                                0 <= q < cell.members@.len() && cell.members@[q] == j] == j);
                        }
                    }
                },
            }
            x += 1;
        }
        match best {
            None => {
                proof {
                    assert forall|i: usize| i < pts.len() implies sel.contains(i) by {
                        lemma_owner(pts, sel, i);
                        if !sel.contains(i) {
                            assert(is_unselected(pts, sel, i));
                            assert(owner(pts, sel, i) >= count);
                        }
                    }
                }
                Err(FpsError::EmptyCandidateSet)
            },
            Some((b, d)) => {
                proof {
                    assert forall|j: usize| is_unselected(pts, sel, j) implies #[trigger] nearest_dist2(
                        pts,
                        sel,
                        j,
                    ) < d || (nearest_dist2(pts, sel, j) == d && b <= j) by {
                        lemma_owner(pts, sel, j);
                    }
                }
                Ok((b, d))
            },
        }
    }

    /// Adds point `p` to the selection: a new cell takes from the cells it
    /// can reach the points that are strictly closer to `p`. With `prune`
    /// unset every cell is examined.
    fn add_point_with(&mut self, p: usize, prune: bool) -> (r: Result<u128, FpsError>)
        requires
            old(self).wf(),
        ensures
            final(self).wf(),
            final(self).points() == old(self).points(),
            match r {
                Ok(radius2) => {
                    &&& old(self)@.len() >= 1
                    &&& is_unselected(old(self).points()@, old(self)@, p)
                    &&& final(self)@ == old(self)@.push(p)
                    &&& radius2 == cell_radius2(
                        old(self).points()@,
                        final(self)@,
                        final(self)@.len() - 1,
                    )
                },
                Err(e) => {
                    &&& *final(self) == *old(self)
                    &&& e == if old(self)@.len() == 0 {
                        FpsError::NotInitialized
                    } else if p >= old(self).points()@.len() {
                        FpsError::IndexOutOfRange
                    } else {
                        FpsError::AlreadySelected
                    }
                    &&& !(old(self)@.len() >= 1 && is_unselected(old(self).points()@, old(self)@, p))
                },
            },
    {
        let count: usize = self.cells.len();
        if count == 0 {
            return Err(FpsError::NotInitialized);
        }
        let n: usize = self.points.len();
        if p >= n {
            return Err(FpsError::IndexOutOfRange);
        }
        if self.chosen[p] {
            return Err(FpsError::AlreadySelected);
        }
        let ghost pts = self.points@;
        let ghost sel = self.sequence@;
        let ghost next = sel.push(p);
        let home_p: usize = self.home[p];
        proof {
            lemma_selection_push(pts, sel, p);
            lemma_all_selected_len(pts, sel);
            assert forall|m: usize|
                in_cell(pts, next, sel.len() as int, m) && owner(pts, sel, m) < 0 implies false by {
                lemma_owner(pts, sel, m);
            }
        }
        let mut fresh = VoronoiCell { center: p, radius2: 0, farthest: None, members: Vec::new() };
        let mut x: usize = 0;
        while x < count
            invariant
                self.points == old(self).points,
                self.points.wf(),
                pts == self.points@,
                n == pts.len(),
                self.sequence@ == sel,
                self.sequence == old(self).sequence,
                self.trace == old(self).trace,
                self.chosen == old(self).chosen,
                old(self).wf(),
                is_selection(pts, sel),
                is_unselected(pts, sel, p),
                next == sel.push(p),
                count == sel.len(),
                count < n,
                self.cells@.len() == count,
                x <= count,
                home_p == owner(pts, sel, p),
                forall|k: int| 0 <= k < x ==> cell_ok(pts, next, k, #[trigger] self.cells@[k]),
                forall|k: int| x <= k < count ==> cell_ok(pts, sel, k, #[trigger] self.cells@[k]),
                fresh_ok(pts, sel, p, x as int, fresh),
                home_ok(pts, sel, p, x as int, self.home@),
            decreases count - x,
        {
            let ghost cell0 = self.cells@[x as int];
            let ghost fresh0 = fresh;
            let ghost home0 = self.home@;
            proof {
                assert(cell_ok(pts, sel, x as int, cell0));
                assert(sel[x as int] < pts.len());
            }
            let center: usize = self.cells[x].center;
            let reach: u128 = self.points.dist2(center, p);
            let skip: bool = prune && x != home_p && reach / 4 >= self.cells[x].radius2;
            if skip {
                proof {
                    lemma_after_prune(pts, sel, p, x as int, cell0, fresh0, home0);
                }
            } else {
                proof {
                    assert forall|m: usize| #[trigger] cell0.members@.contains(m) implies m < pts.len()
                        && !fresh0.members@.contains(m) by {
                        assert(in_cell(pts, sel, x as int, m));
                    }
                }
                let kept = split_cell(self.points, &self.cells[x], &mut fresh, &mut self.home, count);
                proof {
                    lemma_after_split(
                        pts,
                        sel,
                        p,
                        x as int,
                        cell0,
                        kept,
                        fresh0,
                        fresh,
                        home0,
                        self.home@,
                        count,
                    );
                }
                self.cells.set(x, kept);
            }
            x += 1;
        }
        let radius2: u128 = fresh.radius2;
        let ghost last = fresh;
        self.chosen.set(p, true);
        self.sequence.push(p);
        self.cells.push(fresh);
        self.trace.push(radius2);
        proof {
            assert(self.sequence@ == next);
            assert forall|m: usize| #[trigger] last.members@.contains(m) <==> in_cell(
                pts,
                next,
                count as int,
                m,
            ) by {
                lemma_owner(pts, sel, m);
            }
            assert(cell_ok(pts, next, count as int, last));
            assert forall|i: usize| is_unselected(pts, next, i) implies #[trigger] self.home@[i as int]
                == owner(pts, next, i) by {
                lemma_owner(pts, sel, i);
            }
            assert(next.take(count + 1) =~= next);
            lemma_cell_radius2(pts, next, count as int, last);
            assert forall|t: int| 0 <= t < next.len() implies #[trigger] self.trace@[t] == cell_radius2(
                pts,
                next.take(t + 1),
                t,
            ) by {
                if t < count {
                    assert(next.take(t + 1) =~= sel.take(t + 1));
                    assert(self.trace@[t] == old(self).trace@[t]);
                }
            }
            assert forall|k: int| 0 <= k < next.len() implies cell_ok(
                pts,
                next,
                k,
                #[trigger] self.cells@[k],
            ) by {}
        }
        Ok(radius2)
    }

    /// Adds point `p` to the selection and returns the squared radius of its
    /// new cell. Cells that the pruning rule shows out of reach of `p` are
    /// left as they are.
    pub fn add_point(&mut self, p: usize) -> (r: Result<u128, FpsError>)
        requires
            old(self).wf(),
        ensures
            final(self).wf(),
            final(self).points() == old(self).points(),
            match r {
                Ok(radius2) => {
                    &&& old(self)@.len() >= 1
                    &&& is_unselected(old(self).points()@, old(self)@, p)
                    &&& final(self)@ == old(self)@.push(p)
                    &&& radius2 == cell_radius2(
                        old(self).points()@,
                        final(self)@,
                        final(self)@.len() - 1,
                    )
                },
                Err(e) => {
                    &&& *final(self) == *old(self)
                    &&& e == if old(self)@.len() == 0 {
                        FpsError::NotInitialized
                    } else if p >= old(self).points()@.len() {
                        FpsError::IndexOutOfRange
                    } else {
                        FpsError::AlreadySelected
                    }
                    &&& !(old(self)@.len() >= 1 && is_unselected(old(self).points()@, old(self)@, p))
                },
            },
    {
        self.add_point_with(p, true)
    }

    /// Adds point `p` as `add_point` does, but examines every cell, whether
    /// or not the pruning rule would skip it.
    pub fn add_point_exhaustive(&mut self, p: usize) -> (r: Result<u128, FpsError>)
        requires
            old(self).wf(),
        ensures
            final(self).wf(),
            final(self).points() == old(self).points(),
            match r {
                Ok(radius2) => {
                    &&& old(self)@.len() >= 1
                    &&& is_unselected(old(self).points()@, old(self)@, p)
                    &&& final(self)@ == old(self)@.push(p)
                    &&& radius2 == cell_radius2(
                        old(self).points()@,
                        final(self)@,
                        final(self)@.len() - 1,
                    )
                },
                Err(e) => {
                    &&& *final(self) == *old(self)
                    &&& e == if old(self)@.len() == 0 {
                        FpsError::NotInitialized
                    } else if p >= old(self).points()@.len() {
                        FpsError::IndexOutOfRange
                    } else {
                        FpsError::AlreadySelected
                    }
                    &&& !(old(self)@.len() >= 1 && is_unselected(old(self).points()@, old(self)@, p))
                },
            },
    {
        self.add_point_with(p, false)
    }
}

/// The cells are determined by the points and the selection. Two valid
/// decomposers that hold the same selection of the same points have, cell
/// by cell, the same center, the same members, the same radius and the same
/// farthest member, and the same radius trace: whether a cell was examined
/// or skipped under the pruning rule on the way makes no difference.
pub proof fn lemma_cells_determined(a: &VoronoiDecomposer, b: &VoronoiDecomposer, k: int)
    requires
        a.wf(),
        b.wf(),
        a.points()@ == b.points()@,
        a@ == b@,
        0 <= k < a@.len(),
    ensures
        a.spec_cells()[k].center == b.spec_cells()[k].center,
        a.spec_cells()[k].members@.to_set() == b.spec_cells()[k].members@.to_set(),
        a.spec_cells()[k].radius2 == b.spec_cells()[k].radius2,
        a.spec_cells()[k].farthest == b.spec_cells()[k].farthest,
        a.spec_radius2() == b.spec_radius2(),
{
    let pts = a.points()@;
    let sel = a@;
    let ca = a.cells@[k];
    let cb = b.cells@[k];
    assert(cell_ok(pts, sel, k, ca));
    assert(cell_ok(pts, sel, k, cb));
    assert forall|m: usize| ca.members@.contains(m) <==> cb.members@.contains(m) by {
        assert(ca.members@.contains(m) <==> in_cell(pts, sel, k, m));
        assert(cb.members@.contains(m) <==> in_cell(pts, sel, k, m));
    }
    assert(ca.members@.to_set() =~= cb.members@.to_set());
    lemma_cell_radius2(pts, sel, k, ca);
    lemma_cell_radius2(pts, sel, k, cb);
    match (ca.farthest, cb.farthest) {
        (Some(fa), Some(fb)) => {
            assert(cb.members@.contains(fa));
            assert(ca.members@.contains(fb));
        },
        (Some(fa), None) => {
            assert(cb.members@.contains(fa));
            assert(cb.members@[choose|q: int| 0 <= q < cb.members@.len() && cb.members@[q] == fa]
                == fa);
        },
        (None, Some(fb)) => {
            assert(ca.members@.contains(fb));
            assert(ca.members@[choose|q: int| 0 <= q < ca.members@.len() && ca.members@[q] == fb]
                == fb);
        },
        (None, None) => {},
    }
    assert(a.trace@ =~= b.trace@);
}

/// Once every point is selected, every cell is empty with radius zero, and
/// the last entry of the radius trace is zero.
pub proof fn lemma_exhausted(a: &VoronoiDecomposer, k: int)
    requires
        a.wf(),
        a@.len() == a.points()@.len(),
        0 <= k < a@.len(),
    ensures
        a.spec_cells()[k].radius2 == 0,
        a.spec_cells()[k].members@.len() == 0,
        a.spec_cells()[k].farthest.is_none(),
        a.spec_radius2().last() == 0,
{
    let pts = a.points()@;
    let sel = a@;
    let cell = a.cells@[k];
    lemma_all_selected_len(pts, sel);
    assert(cell_ok(pts, sel, k, cell));
    lemma_cell_radius2(pts, sel, k, cell);
    lemma_all_selected_radius2_zero(pts, sel, k);
    if cell.members@.len() > 0 {
        let m = cell.members@[0];
        assert(cell.members@.contains(m));
        assert(in_cell(pts, sel, k, m));
    }
    if let Some(f) = cell.farthest {
        assert(cell.members@.contains(f));
    }
    assert(sel.take(sel.len() as int) =~= sel);
    lemma_all_selected_radius2_zero(pts, sel, sel.len() - 1);
}

/// Selects `n_select` points by farthest-point sampling from `seed` with
/// the Voronoi engine, and returns their indices in the order of selection.
pub fn select_fps(points: &PointSet, n_select: usize, seed: usize) -> (r: Result<Vec<usize>, FpsError>)
    requires
        points.wf(),
    ensures
        seed >= points@.len() ==> (r matches Err(e) && e == FpsError::IndexOutOfRange),
        seed < points@.len() && n_select > points@.len() ==> (r matches Err(e) && e
            == FpsError::EmptyCandidateSet),
        seed < points@.len() && n_select <= points@.len() ==> (r matches Ok(out) && out@.len()
            == n_select && is_fps_sequence(points@, seed, out@)),
{
    let n: usize = points.len();
    if seed >= n {
        return Err(FpsError::IndexOutOfRange);
    }
    if n_select > n {
        return Err(FpsError::EmptyCandidateSet);
    }
    if n_select == 0 {
        return Ok(Vec::new());
    }
    let mut decomposer = VoronoiDecomposer::unseeded(points);
    let _ = decomposer.initialize(seed);
    while decomposer.sequence.len() < n_select
        invariant
            decomposer.wf(),
            decomposer.points() == *points,
            points.wf(),
            n == points@.len(),
            1 <= decomposer@.len() <= n_select <= n,
            is_fps_sequence(points@, seed, decomposer@),
        decreases n_select - decomposer@.len(),
    {
        proof {
            lemma_all_selected_len(points@, decomposer@);
        }
        match decomposer.next_point() {
            Ok((idx, d)) => {
                proof {
                    lemma_fps_sequence_push(points@, seed, decomposer@, idx, d as int);
                }
                let _ = decomposer.add_point(idx);
            },
            Err(e) => {
                return Err(e);
            },
        }
    }
    Ok(decomposer.into_selected())
}

} // verus!
