//! A verified 2D rigid-circle physics engine.
//!
//! The engine advances a set of circular bodies under gravity, wall
//! confinement and pairwise elastic collisions, once per simulated time step.
//! All state is kept in fixed-point scalars (see [`fixed`]), so every update
//! is exact integer arithmetic, and the whole per-step algorithm is mirrored
//! by spec functions that the executable code is proved to follow.

pub mod circle;
pub mod engine;
pub mod fixed;
pub mod laws;
pub mod settings;
