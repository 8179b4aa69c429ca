//! A top-down strategy scene: entities on the ground plane that can be
//! hovered, selected and ordered to walk, a camera above them, and the cursor
//! that the pointer casts onto the ground.
//!
//! Every scalar is a signed fixed-point number: an `i32` that counts
//! millionths of a world unit (or of a radian, for angles). All arithmetic is
//! exact integer arithmetic with stated rounding, so each contract pins its
//! result down to the last digit.

pub mod bounding_circle;
pub mod camera;
pub mod error;
pub mod light;
pub mod mesh;
pub mod mesh_repo;
pub mod mouse;
pub mod movement;
pub mod scalar;
pub mod selectable;
pub mod texture;
pub mod transformation;
pub mod vector;
pub mod vertex;
pub mod wavefront;
pub mod world;
