//! A verified core for a 2D simulation of moving axis-aligned bodies:
//! geometric primitives, a rebuildable quadtree index for box- and
//! point-shaped entries, mass-weighted collision resolution with contact
//! flags, a boid flocking engine, and a simple explicit-Euler integrator.
//!
//! All coordinates, velocities and masses are integers; the unit is the
//! caller's choice (a thousandth of a world unit works well).
//! Configuration factors are given in thousandths, so a factor of `50`
//! means `0.05`.

pub mod physics;
pub mod quadtree;
pub mod collision;
pub mod boids;
pub mod map;
