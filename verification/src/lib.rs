//! Flocking simulation core: a spatial index over 3D points and a steering
//! engine that drives autonomous agents by separation, alignment, cohesion,
//! seeking, wandering and wall avoidance.
//!
//! All coordinates, velocities and lengths are fixed-point integers measured
//! in thousandths of a world unit; behaviour weight factors are measured in
//! hundredths.  This keeps every quantity an `i64` that the verifier can
//! reason about exactly.

pub mod geom;
pub mod octree;
pub mod params;
pub mod rng;
pub mod trig;
pub mod vehicle;
