//! Flocking ("boids") simulation core on a bounded 2D plane.
//!
//! The crate holds the three parts of the simulation that carry its logic:
//! a quadtree spatial index answering circular range queries over agent
//! positions (`qtree`), the per-agent flocking forces and motion integration
//! (`boid`), and the per-tick orchestration that rebuilds the index, computes
//! all forces from a single snapshot and then advances every agent (`sim`).
//!
//! All geometry is fixed-point: coordinates, velocities and radii are `i64`
//! counts of sub-units, with [`vec2::SCALE`] sub-units to one world unit.
//! Rendering and window handling sit outside this crate and consume the agent
//! collection and the built index read-only.

pub mod boid;
pub mod qtree;
pub mod sim;
pub mod vec2;
