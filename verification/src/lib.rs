//! Farthest-point sampling over a cloud of points with integer coordinates.
//!
//! A selection starts from a seed point and repeatedly adds the point whose
//! squared Euclidean distance to the nearest selected point is largest, the
//! lowest index winning a tie. Two engines compute the same sequence: a direct
//! one that rescans every point on each step, and one that keeps the Voronoi
//! cells of the selected points and prunes the cells a new center cannot reach.

pub mod array;
pub mod driver;
pub mod error;
pub mod metric;
pub mod model;
pub mod points;
pub mod simple;
pub mod voronoi;

pub use crate::driver::Engine;
pub use crate::error::FpsError;
pub use crate::points::PointSet;
pub use crate::simple::DirectSelector;
pub use crate::voronoi::{VoronoiCell, VoronoiDecomposer};
