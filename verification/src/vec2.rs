//! Two-component fixed-point vectors.
use vstd::prelude::*;

verus! {

/// A position, velocity or acceleration in the plane.  Both components are
/// fixed-point scalars (see [`crate::fixed`]).
#[derive(Clone, Copy, Debug, PartialEq, Eq, Structural)]
pub struct Vec2 {
    pub x: i32,
    pub y: i32,
}

/// Squared length of the vector `(dx, dy)`.
pub open spec fn length_sq(dx: int, dy: int) -> int {
    dx * dx + dy * dy
}

/// The absolute value of `d`.
fn magnitude(d: i64) -> (r: u128)
    ensures
        r == (if d >= 0 {
            d as int
        } else {
            -(d as int)
        }),
        r * r == d * d,
        r * r <= 0x4000_0000_0000_0000_0000_0000_0000_0000,
{
    let r: u128 = if d >= 0 {
        d as u128
    } else {
        (-(d as i128)) as u128
    };
    assert(r * r == d * d && r * r <= 0x4000_0000_0000_0000_0000_0000_0000_0000)
        by (nonlinear_arith)
        requires
            r == d || r == -d,
            0 <= r <= 0x8000_0000_0000_0000,
    ;
    r
}

/// Squared length of the vector `(dx, dy)`.  For the difference of two
/// vectors, whose components are below `2^32` in size, the result is at most
/// `2^65`.
pub fn squared_length(dx: i64, dy: i64) -> (r: u128)
    ensures
        r == length_sq(dx as int, dy as int),
        -0x1_0000_0000 <= dx <= 0x1_0000_0000 && -0x1_0000_0000 <= dy <= 0x1_0000_0000 ==> r
            <= 0x2_0000_0000_0000_0000,
{
    let ax: u128 = magnitude(dx);
    let ay: u128 = magnitude(dy);
    assert(-0x1_0000_0000 <= dx <= 0x1_0000_0000 ==> ax * ax <= 0x1_0000_0000_0000_0000)
        by (nonlinear_arith)
        requires
            ax == dx || ax == -dx,
            ax >= 0,
    ;
    assert(-0x1_0000_0000 <= dy <= 0x1_0000_0000 ==> ay * ay <= 0x1_0000_0000_0000_0000)
        by (nonlinear_arith)
        requires
            ay == dy || ay == -dy,
            ay >= 0,
    ;
    ax * ax + ay * ay
}

impl Vec2 {
    pub fn new(x: i32, y: i32) -> (v: Vec2)
        ensures
            v == (Vec2 { x, y }),
    {
        Vec2 { x, y }
    }

    /// The vector with both components equal to `v`.
    pub fn splat(v: i32) -> (r: Vec2)
        ensures
            r == (Vec2 { x: v, y: v }),
    {
        Vec2 { x: v, y: v }
    }

    /// The origin.
    pub fn zero() -> (r: Vec2)
        ensures
            r == (Vec2 { x: 0, y: 0 }),
    {
        Vec2 { x: 0, y: 0 }
    }
}

} // verus!
