//! Combat core of a top-down survival shooter, in fixed-point integers.
//!
//! Units: positions and sizes in milli-units (a thousandth of a world unit),
//! times in microseconds, angles in microradians, health in thousandths of a
//! hit point, fire rate in tenths of a shot per second.
pub mod geometry;
pub mod entities;
pub mod collision;
pub mod waves;
pub mod projectiles;
pub mod motion;
pub mod progression;
pub mod game;
