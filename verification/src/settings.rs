//! The default simulation constants, in fixed-point world units.

use vstd::prelude::*;

verus! {

use crate::engine::Config;
use crate::fixed::SCALE;

/// Screen width.
pub const SCREEN_WIDTH: i64 = 1280 * SCALE;

/// Screen height.
pub const SCREEN_HEIGHT: i64 = 720 * SCALE;

/// Inset from the screen edge used for wall confinement.
pub const PHYSICS_MARGIN: i64 = 50 * SCALE;

/// Global time-scale multiplier: the simulation runs at a tenth of
/// wall-clock speed.
pub const TIME_SPEED: i64 = 100;

/// Downward acceleration, in world units per second squared.
pub const GRAVITATIONAL_ACCELERATION: i64 = 9807;

/// The default configuration, built from the constants above.
pub fn default_config() -> (c: Config)
    ensures
        c@.wf(),
        c.screen_width == SCREEN_WIDTH,
        c.screen_height == SCREEN_HEIGHT,
        c.margin == PHYSICS_MARGIN,
        c.gravity == GRAVITATIONAL_ACCELERATION,
        c.time_speed == TIME_SPEED,
{
    Config {
        screen_width: SCREEN_WIDTH,
        screen_height: SCREEN_HEIGHT,
        margin: PHYSICS_MARGIN,
        gravity: GRAVITATIONAL_ACCELERATION,
        time_speed: TIME_SPEED,
    }
}

} // verus!
