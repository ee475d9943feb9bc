//! A two-dimensional gravity simulation on fixed-point integer coordinates,
//! with a mean-split spatial partition for approximate field sampling.
//!
//! Every length, velocity, mass, time step and gravitational constant is a
//! fixed-point number: the integer `n` stands for `n / ONE` in real units.
//! Positions, velocities and per-step pulls saturate at `COORD_LIMIT`.
pub mod field;
pub mod force;
pub mod geom;
pub mod kd;
pub mod planet;
pub mod plannet;
pub mod sim;

pub use field::{strength_of, PointMass, FIELD_FACTOR, MAX_FACTOR, MAX_MASS};
pub use force::{isqrt, pull, MAX_STRENGTH};
pub use geom::{add_clamped, clamp, distance_sq, Vec2, COORD_LIMIT, ONE};
pub use kd::{Kd, LEAF_CAPACITY, MAX_BODIES};
pub use planet::{field_of, step_factor_of, Color, Planet, MAX_DT, MAX_GRAVITY, TRAIL_CAPACITY};
pub use plannet::Plannet;
pub use sim::{preview, snapshot_of, tick};
