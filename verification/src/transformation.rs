//! Where an entity stands, which way it faces and how large it is.

use vstd::prelude::*;
use crate::scalar::{clamp, clamped, UNIT};
use crate::vector::Vec3;

verus! {

/// The placement of an entity in the world.
#[derive(Clone, Copy, Debug, PartialEq, Eq, Structural)]
pub struct Transformation {
    /// The position.
    pub pos: Vec3,
    /// The yaw: the angle about the vertical axis, in millionths of a radian.
    pub rotation: i32,
    /// The factor by which the mesh is scaled, in millionths.
    pub scale: i32,
}

/// How far a spinning entity turns in one frame, in millionths of a radian.
pub const SPIN: i32 = 100;

/// A quarter of a full turn, in millionths of a radian.
pub const QUARTER_TURN: i32 = 1_570_796;

/// The angle by which a mesh is turned about the vertical axis when it is
/// drawn with the yaw `yaw`: a quarter turn less, because a mesh at rest
/// faces a quarter turn away from the direction of yaw zero.
pub open spec fn mesh_angle(yaw: i32) -> int {
    clamped(yaw - QUARTER_TURN)
}

impl Transformation {
    pub fn new(pos: Vec3, rot: i32, scale: i32) -> (t: Self)
        ensures
            t == (Transformation { pos, rotation: rot, scale }),
    {
        Transformation { pos, rotation: rot, scale }
    }

    /// The placement at `pos` that neither turns nor scales.
    pub fn translation(pos: Vec3) -> (t: Self)
        ensures
            t == (Transformation { pos, rotation: 0, scale: UNIT }),
    {
        Transformation { pos, rotation: 0, scale: UNIT }
    }

    /// Turns a spinning entity by what it turns in one frame: [`SPIN`] more
    /// yaw, kept within `i32`.
    pub fn spin(&mut self)
        ensures
            *final(self) == (Transformation {
                rotation: clamped(old(self).rotation + SPIN) as i32,
                ..*old(self)
            }),
    {
        self.rotation = clamp(self.rotation as i128 + 100);
    }

    /// The angle by which the mesh is turned about the vertical axis when it
    /// is drawn. The model is this turn, then the scale, then the move to
    /// the position.
    pub fn mesh_angle(&self) -> (angle: i32)
        ensures
            angle == mesh_angle(self.rotation),
    {
        clamp(self.rotation as i128 - 1_570_796)
    }
}

} // verus!
