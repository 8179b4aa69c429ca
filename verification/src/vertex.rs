//! The vertex of a mesh.

use vstd::prelude::*;

verus! {

/// One corner of a triangle: where it is, and which way its surface faces.
#[derive(Clone, Copy, Debug, PartialEq, Eq)]
pub struct Vertex {
    pub position: [i32; 3],
    pub normal: [i32; 3],
}

} // verus!
