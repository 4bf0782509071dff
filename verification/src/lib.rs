//! A 2D particle engine on fixed-point numbers: particles and
//! emitters, force fields, outline containment and a spatial hash grid.

pub mod collision;
pub mod fixed;
pub mod particles;
pub mod physics;

pub use collision::{Outline, SpatialGrid};
pub use particles::{Emitter, Particle, ParticleSystem};
pub use physics::{Force, Vec2};
