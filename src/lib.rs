//! A fixed-step particle collision core on integer coordinates.
//!
//! Lengths are integers in one fixed unit, times are microseconds, and
//! velocities are length units per second. Circular particles of one shared
//! radius move under gravity inside a reflecting rectangle; a uniform grid
//! finds candidate pairs, and overlapping pairs are pushed apart with their
//! approach velocity removed.
pub mod ball;
pub mod collision;
pub mod config;
pub mod database;
pub mod geometry;
pub mod grid;
pub mod scheduler;
pub mod simulation;

pub use ball::{Ball, VerletBall};
pub use config::{Config, Rect};
pub use database::Database;
pub use geometry::Vec2;
pub use simulation::{Input, Simulation};
