use vstd::prelude::*;
use crate::geometry::{Rect, Vec2};

verus! {

/// Side of the square occupied by the player and by each enemy.
pub const BODY_SIZE: i32 = 64_000;

/// Width and height of a projectile's rectangle.
pub const BULLET_W: i32 = 5_000;
pub const BULLET_H: i32 = 10_000;

/// A projectile: its rectangle, its heading in microradians and its speed in
/// milli-units per second. Hit detection uses the rectangle's corner as a point.
#[derive(Clone, Copy, Debug, PartialEq, Eq, Structural)]
pub struct Bullet {
    pub rect: Rect,
    pub heading: i64,
    pub speed: i64,
}

/// A pursuing enemy: rectangle, speed in milli-units per second, health in
/// thousandths of a hit point, and the remaining hit-flash time in microseconds.
#[derive(Clone, Copy, Debug, PartialEq, Eq, Structural)]
pub struct Enemy {
    pub rect: Rect,
    pub speed: i64,
    pub hp: i64,
    pub flash: i64,
}

/// The player: rectangle, health and hit-flash time.
#[derive(Clone, Copy, Debug, PartialEq, Eq, Structural)]
pub struct Soldier {
    pub rect: Rect,
    pub hp: i64,
    pub flash: i64,
}

impl Soldier {
    /// The player as a new game places it: full health, standing at `pos`.
    pub open spec fn spawned(pos: Vec2) -> Soldier {
        Soldier { rect: Rect { pos, w: BODY_SIZE, h: BODY_SIZE }, hp: 100_000, flash: 0 }
    }

    /// A player of full health standing at `pos`.
    pub fn new(pos: Vec2) -> (r: Soldier)
        ensures
            r == Soldier::spawned(pos),
    {
        Soldier { rect: Rect { pos, w: BODY_SIZE, h: BODY_SIZE }, hp: 100_000, flash: 0 }
    }
}

} // verus!
