//! The geometry of a drawable thing, as the scene logic sees it.

use vstd::prelude::*;
use crate::vector::Vec3;
use crate::vertex::Vertex;

verus! {

/// A triangle list and the colour it is drawn in.
#[derive(Clone, Debug)]
pub struct Mesh {
    pub color: Vec3,
    pub vertices: Vec<Vertex>,
}

/// Half the side of the floor, in millionths of a world unit.
pub const FLOOR_HALF_SIDE: i32 = 10_000_000;

/// The corners of the two triangles that make up the floor, as `(x, z)` in
/// units of [`FLOOR_HALF_SIDE`].
pub open spec fn floor_corners() -> Seq<(int, int)> {
    seq![(1int, -1int), (1int, 1int), (-1int, -1int), (-1int, -1int), (1int, 1int), (-1int, 1int)]
}

impl Mesh {
    /// Whether `self` is the floor in the colour `color`: a square of side
    /// twice [`FLOOR_HALF_SIDE`] about the origin, at height zero, facing up.
    pub open spec fn is_floor(self, color: Vec3) -> bool {
        &&& self.color == color
        &&& self.vertices@.len() == 6
        &&& forall|i: int|
            0 <= i < 6 ==> {
                &&& (#[trigger] self.vertices@[i]).position[0] == floor_corners()[i].0
                    * FLOOR_HALF_SIDE
                &&& self.vertices@[i].position[1] == 0
                &&& self.vertices@[i].position[2] == floor_corners()[i].1 * FLOOR_HALF_SIDE
                &&& self.vertices@[i].normal[0] == 0
                &&& self.vertices@[i].normal[1] == 1_000_000
                &&& self.vertices@[i].normal[2] == 0
            }
    }

    /// The floor: two triangles that span a square about the origin.
    pub fn new_floor(color: Vec3) -> (mesh: Self)
        ensures
            mesh.is_floor(color),
    {
        let h: i32 = FLOOR_HALF_SIDE;
        let up: [i32; 3] = [0, 1_000_000, 0];
        let mut vertices: Vec<Vertex> = Vec::new();
        vertices.push(Vertex { position: [h, 0, -h], normal: up });
        vertices.push(Vertex { position: [h, 0, h], normal: up });
        vertices.push(Vertex { position: [-h, 0, -h], normal: up });
        vertices.push(Vertex { position: [-h, 0, -h], normal: up });
        vertices.push(Vertex { position: [h, 0, h], normal: up });
        vertices.push(Vertex { position: [-h, 0, h], normal: up });
        Mesh { color, vertices }
    }
}

} // verus!
