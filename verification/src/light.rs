//! The light that shines on the scene.

use vstd::prelude::*;
use crate::vector::Vec3;

verus! {

/// A point light: where it is and what colour it has, red, green and blue
/// in millionths.
#[derive(Clone, Copy, Debug, PartialEq, Eq, Structural)]
pub struct Light {
    pub position: Vec3,
    pub color: Vec3,
}

impl Light {
    pub fn new(pos: Vec3, color: Vec3) -> (light: Self)
        ensures
            light == (Light { position: pos, color }),
    {
        Light { position: pos, color }
    }
}

} // verus!
