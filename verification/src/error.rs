//! What can keep a system from doing its work.

use vstd::prelude::*;

verus! {

/// Why a system left the world as it was.
#[derive(Clone, Copy, Debug, PartialEq, Eq, Structural)]
pub enum SystemError {
    /// The entity given as the camera is not alive or has no camera.
    MissingCamera,
    /// The entity given as the cursor is not alive or has no cursor.
    MissingCursor,
    /// The ray under the pointer runs level and never meets the ground.
    LevelRay,
}

impl SystemError {
    /// What went wrong, in words.
    pub open spec fn spec_message(&self) -> Seq<char> {
        match self {
            SystemError::MissingCamera => "No camera on the camera entity"@,
            SystemError::MissingCursor => "No cursor on the cursor entity"@,
            SystemError::LevelRay => "The ray under the pointer does not meet the ground"@,
        }
    }

    /// What went wrong, in words.
    pub fn message(&self) -> (text: &'static str)
        ensures
            text@ == self.spec_message(),
    {
        match self {
            SystemError::MissingCamera => "No camera on the camera entity",
            SystemError::MissingCursor => "No cursor on the cursor entity",
            SystemError::LevelRay => "The ray under the pointer does not meet the ground",
        }
    }
}

} // verus!
