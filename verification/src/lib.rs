//! Geometry core of a 2D arcade shooter: convex asteroid polygons with
//! procedural generation and destructive splitting, and a light-visibility
//! polygon that is clipped against circular occluders to cast shadows.
//!
//! All coordinates are fixed-point: a world unit is `SCALE` ticks of an
//! `i64`.  The tolerance `EPS` of the numeric contracts is one tick, i.e.
//! 1/SCALE of a world unit, which also absorbs the rounding of the exact
//! rational intersection and tangent points onto the tick grid.

pub mod geometry;
pub mod num;
pub mod polygon;
pub mod systems;
