//! Points and offsets with fixed-point coordinates.

use vstd::prelude::*;

verus! {

/// A point of the ground plane, or an offset in it.
///
/// When it stands for a ground position, `y` holds the world's `z`.
#[derive(Clone, Copy, Debug, PartialEq, Eq, Structural)]
pub struct Vec2 {
    pub x: i32,
    pub y: i32,
}

/// A point of the world, or an offset in it. `y` is the height.
#[derive(Clone, Copy, Debug, PartialEq, Eq, Structural)]
pub struct Vec3 {
    pub x: i32,
    pub y: i32,
    pub z: i32,
}

/// The square of the distance between two points whose coordinates are
/// `(ax, ay)` and `(bx, by)`.
pub open spec fn dist_sq(ax: int, ay: int, bx: int, by: int) -> int {
    (ax - bx) * (ax - bx) + (ay - by) * (ay - by)
}

impl Vec2 {
    pub fn new(x: i32, y: i32) -> (v: Self)
        ensures
            v == (Vec2 { x, y }),
    {
        Vec2 { x, y }
    }

    /// The square of the distance from `self` to `other`.
    pub open spec fn spec_dist_sq(self, other: Vec2) -> int {
        dist_sq(self.x as int, self.y as int, other.x as int, other.y as int)
    }

    /// The square of the distance from `self` to `other`.
    pub fn dist_sq(&self, other: &Vec2) -> (d: u128)
        ensures
            d == self.spec_dist_sq(*other),
            d <= 0x2_0000_0000_0000_0000,
    {
        let dx: i128 = self.x as i128 - other.x as i128;
        let dy: i128 = self.y as i128 - other.y as i128;
        assert(0 <= dx * dx <= 0x1_0000_0000_0000_0000) by (nonlinear_arith)
            requires
                -0x1_0000_0000 <= dx <= 0x1_0000_0000,
        ;
        assert(0 <= dy * dy <= 0x1_0000_0000_0000_0000) by (nonlinear_arith)
            requires
                -0x1_0000_0000 <= dy <= 0x1_0000_0000,
        ;
        (dx * dx + dy * dy) as u128
    }
}

impl Vec3 {
    pub fn new(x: i32, y: i32, z: i32) -> (v: Self)
        ensures
            v == (Vec3 { x, y, z }),
    {
        Vec3 { x, y, z }
    }

    /// The point of the ground plane below or above `self`.
    pub open spec fn spec_xz(self) -> Vec2 {
        Vec2 { x: self.x, y: self.z }
    }

    /// The point of the ground plane below or above `self`.
    pub fn xz(&self) -> (v: Vec2)
        ensures
            v == self.spec_xz(),
    {
        Vec2 { x: self.x, y: self.z }
    }
}

} // verus!
