//! Dimensions of the simulated world, in fixed-point units.
use vstd::prelude::*;

verus! {

/// Width of the world: 8000 units.
pub const SCREEN_WIDTH: i32 = 524288000;

/// Height of the world: 8000 units.
pub const SCREEN_HEIGHT: i32 = 524288000;

} // verus!
