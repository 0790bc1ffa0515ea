//! The direct engine: it keeps, for every point, the squared distance to the
//! nearest selected point, and rescans all points on every step.

use vstd::prelude::*;
use crate::error::FpsError;
use crate::metric::dist2;
use crate::model::{
    all_selected, is_farthest, is_fps_sequence, is_selection, is_unselected, lemma_all_selected_len,
    lemma_fps_sequence_push, lemma_push_center, lemma_selection_push, nearest_dist2,
};
use crate::points::PointSet;

verus! {

/// The state of a direct selection over a borrowed point set.
pub struct DirectSelector<'a> {
    points: &'a PointSet,
    min_dist2: Vec<u128>,
    chosen: Vec<bool>,
    sequence: Vec<usize>,
}

impl<'a> View for DirectSelector<'a> {
    type V = Seq<usize>;

    /// The indices selected so far, in the order of their selection.
    closed spec fn view(&self) -> Seq<usize> {
        self.sequence@
    }
}

impl<'a> DirectSelector<'a> {
    /// The point set that the selection runs over.
    pub closed spec fn points(&self) -> PointSet {
        *self.points
    }

    /// The selection is valid, the marks say which points it holds, and the
    /// distance kept for every other point is exact.
    pub closed spec fn wf(&self) -> bool {
        let pts = self.points@;
        let sel = self.sequence@;
        &&& self.points.wf()
        &&& is_selection(pts, sel)
        &&& self.min_dist2@.len() == pts.len()
        &&& self.chosen@.len() == pts.len()
        &&& forall|i: usize| i < pts.len() ==> (#[trigger] self.chosen@[i as int] <==> sel.contains(i))
        &&& sel.len() >= 1 ==> forall|i: usize|
            i < pts.len() && !self.chosen@[i as int] ==> #[trigger] self.min_dist2@[i as int]
                == nearest_dist2(pts, sel, i)
    }

    /// A valid state holds a selection of its point set.
    pub proof fn lemma_wf_selection(&self)
        requires
            self.wf(),
        ensures
            self.points().wf(),
            is_selection(self.points()@, self@),
    {
    }

    /// A selector over `points` in which no seed has been set.
    pub fn unseeded(points: &'a PointSet) -> (r: Self)
        requires
            points.wf(),
        ensures
            r.wf(),
            r.points() == *points,
            r@ == Seq::<usize>::empty(),
    {
        let n: usize = points.len();
        let mut min_dist2: Vec<u128> = Vec::new();
        let mut chosen: Vec<bool> = Vec::new();
        let mut i: usize = 0;
        while i < n
            invariant
                i <= n,
                min_dist2@.len() == i,
                chosen@.len() == i,
                forall|k: int| 0 <= k < i ==> !chosen@[k],
            decreases n - i,
        {
            min_dist2.push(0u128);
            chosen.push(false);
            i += 1;
        }
        let r = DirectSelector { points, min_dist2, chosen, sequence: Vec::new() };
        assert(r@ =~= Seq::<usize>::empty());
        r
    }

    /// Starts the selection anew from `seed`, whatever was selected before.
    pub fn initialize(&mut self, seed: usize) -> (r: Result<(), FpsError>)
        requires
            old(self).wf(),
        ensures
            final(self).wf(),
            final(self).points() == old(self).points(),
            seed < old(self).points()@.len() ==> r.is_ok() && final(self)@ == seq![seed],
            seed >= old(self).points()@.len() ==> r == Err::<(), FpsError>(FpsError::IndexOutOfRange)
                && *final(self) == *old(self),
    {
        let n: usize = self.points.len();
        if seed >= n {
            return Err(FpsError::IndexOutOfRange);
        }
        let ghost pts = self.points@;
        let mut i: usize = 0;
        while i < n
            invariant
                self.points == old(self).points,
                self.points.wf(),
                pts == self.points@,
                n == pts.len(),
                seed < n,
                i <= n,
                self.min_dist2@.len() == n,
                self.chosen@.len() == n,
                forall|k: usize| k < i ==> (#[trigger] self.chosen@[k as int] <==> k == seed),
                forall|k: usize|
                    k < i ==> #[trigger] self.min_dist2@[k as int] == dist2(pts, k as int, seed as int),
            decreases n - i,
        {
            let d: u128 = self.points.dist2(i, seed);
            self.min_dist2.set(i, d);
            self.chosen.set(i, i == seed);
            i += 1;
        }
        let mut sequence: Vec<usize> = Vec::new();
        sequence.push(seed);
        self.sequence = sequence;
        proof {
            let sel = self.sequence@;
            assert(sel =~= seq![seed]);
            assert(sel[0] == seed);
            assert forall|k: usize| k < pts.len() implies (#[trigger] self.chosen@[k as int]
                <==> sel.contains(k)) by {
                if k == seed {
                    assert(sel[0] == k);
                }
            }
        }
        Ok(())
    }

    /// A selector over `points` whose selection holds the seed alone.
    pub fn new(points: &'a PointSet, seed: usize) -> (r: Result<Self, FpsError>)
        requires
            points.wf(),
        ensures
            r.is_ok() <==> seed < points@.len(),
            r matches Ok(s) ==> s.wf() && s.points() == *points && s@ == seq![seed],
            r matches Err(e) ==> e == FpsError::IndexOutOfRange,
    {
        let mut selector = DirectSelector::unseeded(points);
        match selector.initialize(seed) {
            Ok(()) => Ok(selector),
            Err(e) => Err(e),
        }
    }

    /// The indices selected so far, in the order of their selection.
    pub fn selected(&self) -> (r: &Vec<usize>)
        ensures
            r@ == self@,
    {
        &self.sequence
    }

    /// Ends the selection and hands out its indices.
    pub fn into_selected(self) -> (r: Vec<usize>)
        ensures
            r@ == self@,
    {
        self.sequence
    }

    /// The next point of the selection and its squared distance to the
    /// nearest selected point: the farthest unselected point, the lowest
    /// index among equals.
    pub fn next_point(&self) -> (r: Result<(usize, u128), FpsError>)
        requires
            self.wf(),
        ensures
            self@.len() == 0 ==> r == Err::<(usize, u128), FpsError>(FpsError::NotInitialized),
            self@.len() >= 1 && all_selected(self.points()@, self@) ==> r == Err::<
                (usize, u128),
                FpsError,
            >(FpsError::EmptyCandidateSet),
            self@.len() >= 1 && !all_selected(self.points()@, self@) ==> r.is_ok(),
            r matches Ok((idx, d)) ==> is_farthest(self.points()@, self@, idx, d as int),
    {
        if self.sequence.len() == 0 {
            return Err(FpsError::NotInitialized);
        }
        let ghost pts = self.points@;
        let ghost sel = self.sequence@;
        let n: usize = self.points.len();
        let mut best: Option<(usize, u128)> = None;
        let mut i: usize = 0;
        while i < n
            invariant
                self.wf(),
                pts == self.points@,
                sel == self.sequence@,
                sel.len() >= 1,
                n == pts.len(),
                i <= n,
                match best {
                    None => forall|j: usize| j < i ==> sel.contains(j),
                    Some((b, d)) => {
                        &&& b < i
                        &&& !sel.contains(b)
                        &&& d == nearest_dist2(pts, sel, b)
                        &&& forall|j: usize|
                            j < i && !sel.contains(j) ==> #[trigger] nearest_dist2(pts, sel, j) < d || (
                            nearest_dist2(pts, sel, j) == d && b <= j)
                    },
                },
            decreases n - i,
        {
            if !self.chosen[i] {
                let d: u128 = self.min_dist2[i];
                match best {
                    None => {
                        best = Some((i, d));
                    },
                    Some((_, bd)) => {
                        if d > bd {
                            best = Some((i, d));
                        }
                    },
                }
            }
            i += 1;
        }
        match best {
            None => Err(FpsError::EmptyCandidateSet),
            Some((b, d)) => Ok((b, d)),
        }
    }

    /// Adds point `p` to the selection and brings every kept distance up to
    /// date.
    pub fn add_point(&mut self, p: usize) -> (r: Result<(), FpsError>)
        requires
            old(self).wf(),
        ensures
            final(self).wf(),
            final(self).points() == old(self).points(),
            match r {
                Ok(()) => {
                    &&& old(self)@.len() >= 1
                    &&& is_unselected(old(self).points()@, old(self)@, p)
                    &&& final(self)@ == old(self)@.push(p)
                },
                Err(e) => {
                    &&& *final(self) == *old(self)
                    &&& e == if old(self)@.len() == 0 {
                        FpsError::NotInitialized
                    } else if p >= old(self).points()@.len() {
                        FpsError::IndexOutOfRange
                    } else {
                        FpsError::AlreadySelected
                    }
                    &&& !(old(self)@.len() >= 1 && is_unselected(old(self).points()@, old(self)@, p))
                },
            },
    {
        if self.sequence.len() == 0 {
            return Err(FpsError::NotInitialized);
        }
        let n: usize = self.points.len();
        if p >= n {
            return Err(FpsError::IndexOutOfRange);
        }
        if self.chosen[p] {
            return Err(FpsError::AlreadySelected);
        }
        let ghost pts = self.points@;
        let ghost sel = self.sequence@;
        let ghost next = sel.push(p);
        proof {
            lemma_selection_push(pts, sel, p);
        }
        self.chosen.set(p, true);
        let mut i: usize = 0;
        while i < n
            invariant
                self.points == old(self).points,
                self.points.wf(),
                pts == self.points@,
                sel == self.sequence@,
                sel == old(self).sequence@,
                next == sel.push(p),
                sel.len() >= 1,
                n == pts.len(),
                p < n,
                i <= n,
                self.min_dist2@.len() == n,
                self.chosen@.len() == n,
                forall|k: usize| k < n ==> (#[trigger] self.chosen@[k as int] <==> next.contains(k)),
                forall|k: usize|
                    k < n && !self.chosen@[k as int] ==> #[trigger] self.min_dist2@[k as int] == if k
                        < i {
                        nearest_dist2(pts, next, k)
                    } else {
                        nearest_dist2(pts, sel, k)
                    },
            decreases n - i,
        {
            if !self.chosen[i] {
                let d: u128 = self.points.dist2(i, p);
                proof {
                    lemma_push_center(pts, sel, p, i);
                }
                if d < self.min_dist2[i] {
                    self.min_dist2.set(i, d);
                }
            }
            i += 1;
        }
        self.sequence.push(p);
        Ok(())
    }
}

/// Selects `n_select` points by farthest-point sampling from `seed` with
/// the direct engine, and returns their indices in the order of selection.
pub fn select_fps(points: &PointSet, n_select: usize, seed: usize) -> (r: Result<Vec<usize>, FpsError>)
    requires
        points.wf(),
    ensures
        seed >= points@.len() ==> (r matches Err(e) && e == FpsError::IndexOutOfRange),
        seed < points@.len() && n_select > points@.len() ==> (r matches Err(e) && e
            == FpsError::EmptyCandidateSet),
        seed < points@.len() && n_select <= points@.len() ==> (r matches Ok(out) && out@.len()
            == n_select && is_fps_sequence(points@, seed, out@)),
{
    let n: usize = points.len();
    if seed >= n {
        return Err(FpsError::IndexOutOfRange);
    }
    if n_select > n {
        return Err(FpsError::EmptyCandidateSet);
    }
    if n_select == 0 {
        return Ok(Vec::new());
    }
    let mut selector = DirectSelector::unseeded(points);
    let _ = selector.initialize(seed);
    while selector.sequence.len() < n_select
        invariant
            selector.wf(),
            selector.points() == *points,
            points.wf(),
            n == points@.len(),
            1 <= selector@.len() <= n_select <= n,
            is_fps_sequence(points@, seed, selector@),
        decreases n_select - selector@.len(),
    {
        proof {
            lemma_all_selected_len(points@, selector@);
        }
        match selector.next_point() {
            Ok((idx, d)) => {
                proof {
                    lemma_fps_sequence_push(points@, seed, selector@, idx, d as int);
                }
                let _ = selector.add_point(idx);
            },
            Err(e) => {
                return Err(e);
            },
        }
    }
    Ok(selector.into_selected())
}

} // verus!
