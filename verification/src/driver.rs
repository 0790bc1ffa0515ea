//! One entry point for a whole selection, with the engine as an argument.

use vstd::prelude::*;
use crate::error::FpsError;
use crate::model::is_fps_sequence;
use crate::points::PointSet;

verus! {

/// The engine that carries out a selection.
#[derive(Clone, Copy, Debug, PartialEq, Eq, Structural)]
pub enum Engine {
    /// Rescan every point on each step.
    Direct,
    /// Keep Voronoi cells and rescan only the cells within reach.
    Voronoi,
}

/// Selects `n_select` points by farthest-point sampling from `seed` and
/// returns their indices in the order of selection. The result does not
/// depend on the engine.
pub fn select_fps(points: &PointSet, n_select: usize, seed: usize, engine: Engine) -> (r: Result<
    Vec<usize>,
    FpsError,
>)
    requires
        points.wf(),
    ensures
        seed >= points@.len() ==> (r matches Err(e) && e == FpsError::IndexOutOfRange),
        seed < points@.len() && n_select > points@.len() ==> (r matches Err(e) && e
            == FpsError::EmptyCandidateSet),
        seed < points@.len() && n_select <= points@.len() ==> (r matches Ok(out) && out@.len()
            == n_select && is_fps_sequence(points@, seed, out@)),
{
    match engine {
        Engine::Direct => crate::simple::select_fps(points, n_select, seed),
        Engine::Voronoi => crate::voronoi::select_fps(points, n_select, seed),
    }
}

} // verus!
