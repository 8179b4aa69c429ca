//! The camera above the scene, and the keys that move it.

use vstd::prelude::*;
use hecs::{Entity, World};
use crate::error::SystemError;
use crate::scalar::{clamp, clamped};
use crate::vector::Vec3;
use crate::world::{component_at, contents, entity_key, fetch, store, Parts};

verus! {

/// The eye from which the scene is seen. It looks down at a fixed slant, so
/// its position alone fixes the view; `near` and `far` bound the depth that
/// is drawn.
#[derive(Clone, Copy, Debug, PartialEq, Eq, Structural)]
pub struct Camera {
    pub position: Vec3,
    pub near: i32,
    pub far: i32,
}

/// A key that moves the camera.
#[derive(Clone, Copy, Debug, PartialEq, Eq, Structural)]
pub enum Key {
    W,
    S,
    A,
    D,
}

/// Which of the keys that move the camera are held down.
#[derive(Clone, Copy, Debug, PartialEq, Eq, Structural)]
pub struct PressedKeys {
    pub w: bool,
    pub s: bool,
    pub a: bool,
    pub d: bool,
}

/// How far the camera moves along each axis of the ground in one frame, for
/// each key that is held.
pub const PAN: i32 = 1_000;

/// How far ahead of the eye, along each axis of the ground, the point lies
/// that the camera looks at.
pub const LOOK_AHEAD: i32 = 10_000_000;

/// The point of the ground that an eye at `pos` looks at.
pub open spec fn looked_at(pos: Vec3) -> Vec3 {
    Vec3 { x: clamped(pos.x - LOOK_AHEAD) as i32, y: 0, z: clamped(pos.z - LOOK_AHEAD) as i32 }
}

/// `pos` moved over the ground by `dx` and `dz`, kept within `i32`.
pub open spec fn shifted(pos: Vec3, dx: int, dz: int) -> Vec3 {
    Vec3 { x: clamped(pos.x + dx) as i32, y: pos.y, z: clamped(pos.z + dz) as i32 }
}

/// Where an eye at `pos` is after one frame under `keys`: `W` moves it
/// towards what it looks at and `S` away from it, `A` to the left and `D`
/// to the right, one after the other, so that two keys add up.
pub open spec fn panned(pos: Vec3, keys: PressedKeys) -> Vec3 {
    let after_w = if keys.w {
        shifted(pos, -PAN, -PAN)
    } else {
        pos
    };
    let after_s = if keys.s {
        shifted(after_w, PAN as int, PAN as int)
    } else {
        after_w
    };
    let after_a = if keys.a {
        shifted(after_s, -PAN, PAN as int)
    } else {
        after_s
    };
    if keys.d {
        shifted(after_a, PAN as int, -PAN)
    } else {
        after_a
    }
}

/// The world after one frame under `keys`: the camera of the entity with
/// the key `camera_key` has moved.
pub open spec fn camera_panned(before: Map<u64, Parts>, camera_key: u64, keys: PressedKeys) -> Map<
    u64,
    Parts,
> {
    let camera = before[camera_key].camera.unwrap();
    before.insert(
        camera_key,
        Parts {
            camera: Some(Camera { position: panned(camera.position, keys), ..camera }),
            ..before[camera_key]
        },
    )
}

impl PressedKeys {
    /// No key held.
    pub fn new() -> (keys: Self)
        ensures
            keys == (PressedKeys { w: false, s: false, a: false, d: false }),
    {
        PressedKeys { w: false, s: false, a: false, d: false }
    }

    /// Takes note that `key` went down (`held`) or came up.
    pub fn set(&mut self, key: Key, held: bool)
        ensures
            *final(self) == match key {
                Key::W => PressedKeys { w: held, ..*old(self) },
                Key::S => PressedKeys { s: held, ..*old(self) },
                Key::A => PressedKeys { a: held, ..*old(self) },
                Key::D => PressedKeys { d: held, ..*old(self) },
            },
    {
        match key {
            Key::W => {
                self.w = held;
            },
            Key::S => {
                self.s = held;
            },
            Key::A => {
                self.a = held;
            },
            Key::D => {
                self.d = held;
            },
        }
    }
}

impl Camera {
    pub fn new(pos: Vec3, near: i32, far: i32) -> (camera: Self)
        ensures
            camera == (Camera { position: pos, near, far }),
    {
        Camera { position: pos, near, far }
    }

    /// The point of the ground that the camera looks at.
    pub fn target(&self) -> (point: Vec3)
        ensures
            point == looked_at(self.position),
    {
        Vec3 {
            x: clamp(self.position.x as i128 - 10_000_000),
            y: 0,
            z: clamp(self.position.z as i128 - 10_000_000),
        }
    }

    /// Moves the eye over the ground by `dx` and `dz`.
    pub fn shift(&mut self, dx: i32, dz: i32)
        ensures
            *final(self) == (Camera { position: shifted(old(self).position, dx as int, dz as int), ..*old(self) }),
    {
        self.position = Vec3 {
            x: clamp(self.position.x as i128 + dx as i128),
            y: self.position.y,
            z: clamp(self.position.z as i128 + dz as i128),
        };
    }

    /// Moves the eye as the held keys say.
    pub fn pan(&mut self, keys: &PressedKeys)
        ensures
            *final(self) == (Camera { position: panned(old(self).position, *keys), ..*old(self) }),
    {
        if keys.w {
            self.shift(-1_000, -1_000);
        }
        if keys.s {
            self.shift(1_000, 1_000);
        }
        if keys.a {
            self.shift(-1_000, 1_000);
        }
        if keys.d {
            self.shift(1_000, -1_000);
        }
    }
}

/// Moves the camera over the ground as the held keys say.
///
/// Fails, and leaves the world as it is, if `camera_entity` has no camera.
pub fn camera_system(world: &mut World, pressed_keys: &PressedKeys, camera_entity: Entity) -> (done:
    Result<(), SystemError>)
    ensures
        match component_at::<Camera>(*old(world), entity_key(camera_entity)) {
            Some(_) => done == Ok::<(), SystemError>(()) && contents(*final(world))
                == camera_panned(contents(*old(world)), entity_key(camera_entity), *pressed_keys),
            None => done == Err::<(), SystemError>(SystemError::MissingCamera) && contents(
                *final(world),
            ) == contents(*old(world)),
        },
{
    match fetch::<Camera>(world, camera_entity) {
        Some(camera) => {
            let mut moved = camera;
            moved.pan(pressed_keys);
            store(world, camera_entity, moved);
            Ok(())
        },
        None => Err(SystemError::MissingCamera),
    }
}

} // verus!
