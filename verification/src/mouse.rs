//! The pointer, the cursor it casts onto the ground, and what clicks do.

use vstd::prelude::*;
use std::collections::HashSet;
use hecs::{Entity, World};
use crate::camera::Camera;
use crate::error::SystemError;
use crate::movement::Movement;
use crate::scalar::{clamp, clamped, div_floor, floor_div, UNIT};
use crate::selectable::Selectable;
use crate::vector::{Vec2, Vec3};
use crate::vertex::Vertex;
use crate::world::{
    changed_so_far, component_at, contents, entity_key, fetch, holders, key_of, keys_of,
    lemma_changed_all, lemma_changed_next, lemma_changed_none, lemma_take_next, store, Parts,
};

verus! {

/// Which buttons of the mouse are held down.
#[derive(Clone, Copy, Debug, PartialEq, Eq, Structural)]
pub struct MouseButtonState {
    pub left_pressed: bool,
    pub right_pressed: bool,
}

/// The pointer on the screen: where it is, in whole pixels from the top left
/// corner, and how large the window is.
#[derive(Clone, Copy, Debug)]
pub struct Mouse {
    screen_pos: Vec2,
    max_width: u32,
    max_height: u32,
    pub button_state: MouseButtonState,
}

/// Marks the one entity that is the cursor: the point of the ground under
/// the pointer.
#[derive(Clone, Copy, Debug, PartialEq, Eq, Structural)]
pub struct Cursor {
    pub position: Vec3,
}

/// A pixel coordinate as a device coordinate: `-1` at pixel zero and `1` at
/// pixel `extent`, in millionths, rounded down and kept within `i32`.
pub open spec fn normalized(pixel: int, extent: int) -> int
    recommends
        extent > 0,
{
    clamped(floor_div(2 * UNIT * pixel, extent) - UNIT)
}

/// The point at height zero on the line through `eye` along `ray`, if the
/// ray is not level: `eye - ray * (eye.y / ray.y)`, each coordinate rounded
/// down and kept within `i32`.
pub open spec fn spec_ground_point(eye: Vec3, ray: Vec3) -> Option<Vec3> {
    if ray.y == 0 {
        None
    } else {
        Some(
            Vec3 {
                x: clamped(eye.x + floor_div(-eye.y * ray.x, ray.y as int)) as i32,
                y: 0,
                z: clamped(eye.z + floor_div(-eye.y * ray.z, ray.y as int)) as i32,
            },
        )
    }
}

/// Where the line through `eye` along `ray` meets the ground.
pub fn ground_point(eye: Vec3, ray: Vec3) -> (point: Option<Vec3>)
    ensures
        point == spec_ground_point(eye, ray),
{
    if ray.y == 0 {
        return None;
    }
    let height: i128 = -(eye.y as i128);
    assert(-0x4000_0000_0000_0000 <= height * ray.x <= 0x4000_0000_0000_0000)
        by (nonlinear_arith)
        requires
            -0x8000_0000 <= height <= 0x8000_0000,
            -0x8000_0000 <= ray.x <= 0x8000_0000,
    ;
    assert(-0x4000_0000_0000_0000 <= height * ray.z <= 0x4000_0000_0000_0000)
        by (nonlinear_arith)
        requires
            -0x8000_0000 <= height <= 0x8000_0000,
            -0x8000_0000 <= ray.z <= 0x8000_0000,
    ;
    let along_x: i128 = div_floor(height * ray.x as i128, ray.y as i128);
    let along_z: i128 = div_floor(height * ray.z as i128, ray.y as i128);
    Some(Vec3 { x: clamp(eye.x as i128 + along_x), y: 0, z: clamp(eye.z as i128 + along_z) })
}

impl Mouse {
    /// The pointer in the middle of a window of the given size.
    pub fn new(screen_w: u32, screen_h: u32) -> (mouse: Self)
        ensures
            mouse.screen_pos() == (Vec2 { x: (screen_w / 2) as i32, y: (screen_h / 2) as i32 }),
            mouse.max_width() == screen_w,
            mouse.max_height() == screen_h,
            mouse.buttons() == (MouseButtonState { left_pressed: false, right_pressed: false }),
    {
        Mouse {
            screen_pos: Vec2 { x: (screen_w / 2) as i32, y: (screen_h / 2) as i32 },
            max_width: screen_w,
            max_height: screen_h,
            button_state: MouseButtonState { left_pressed: false, right_pressed: false },
        }
    }

    /// Where the pointer is, in pixels.
    pub closed spec fn screen_pos(&self) -> Vec2 {
        self.screen_pos
    }

    /// The width of the window, in pixels.
    pub closed spec fn max_width(&self) -> u32 {
        self.max_width
    }

    /// The height of the window, in pixels.
    pub closed spec fn max_height(&self) -> u32 {
        self.max_height
    }

    /// Which buttons are held down.
    pub closed spec fn buttons(&self) -> MouseButtonState {
        self.button_state
    }

    /// Takes note of where the pointer has moved to.
    pub fn update(&mut self, pos: Vec2)
        ensures
            final(self).screen_pos() == pos,
            final(self).max_width() == old(self).max_width(),
            final(self).max_height() == old(self).max_height(),
            final(self).buttons() == old(self).buttons(),
    {
        self.screen_pos = pos;
    }

    /// The pointer in device coordinates: `-1` to `1` from left to right and
    /// from bottom to top. `None` for a window without width or height.
    pub open spec fn spec_device_pos(&self) -> Option<Vec2> {
        if self.max_width() == 0 || self.max_height() == 0 {
            None
        } else {
            Some(
                Vec2 {
                    x: normalized(self.screen_pos().x as int, self.max_width() as int) as i32,
                    y: clamped(
                        -normalized(self.screen_pos().y as int, self.max_height() as int),
                    ) as i32,
                },
            )
        }
    }

    /// The pointer in device coordinates.
    pub fn device_pos(&self) -> (pos: Option<Vec2>)
        ensures
            pos == self.spec_device_pos(),
    {
        if self.max_width == 0 || self.max_height == 0 {
            return None;
        }
        let x = clamp(
            div_floor(2_000_000 * self.screen_pos.x as i128, self.max_width as i128) - 1_000_000,
        );
        let y = clamp(
            div_floor(2_000_000 * self.screen_pos.y as i128, self.max_height as i128) - 1_000_000,
        );
        Some(Vec2 { x, y: clamp(-(y as i128)) })
    }
}

/// A pointer in the exact middle of the window has the device coordinates
/// zero and zero.
pub proof fn lemma_center_device_pos(mouse: Mouse)
    requires
        mouse.max_width() > 0,
        mouse.max_height() > 0,
        2 * mouse.screen_pos().x == mouse.max_width(),
        2 * mouse.screen_pos().y == mouse.max_height(),
    ensures
        mouse.spec_device_pos() == Some(Vec2 { x: 0, y: 0 }),
{
    let w = mouse.max_width() as int;
    let h = mouse.max_height() as int;
    assert(2 * UNIT * mouse.screen_pos().x == UNIT * w) by (nonlinear_arith)
        requires
            2 * mouse.screen_pos().x == w,
    ;
    assert(2 * UNIT * mouse.screen_pos().y == UNIT * h) by (nonlinear_arith)
        requires
            2 * mouse.screen_pos().y == h,
    ;
    vstd::arithmetic::div_mod::lemma_fundamental_div_mod_converse(UNIT * w, w, UNIT as int, 0);
    vstd::arithmetic::div_mod::lemma_fundamental_div_mod_converse(UNIT * h, h, UNIT as int, 0);
}

/// A ray that points straight down or straight up meets the ground right
/// below or above the eye, whatever the height of the eye: seen from
/// `(0, h, 0)` it meets the ground at the origin.
pub proof fn lemma_plumb_ray(eye: Vec3, ray: Vec3)
    requires
        ray.x == 0,
        ray.z == 0,
        ray.y != 0,
    ensures
        spec_ground_point(eye, ray) == Some(Vec3 { x: eye.x, y: 0, z: eye.z }),
{
    assert(-eye.y * ray.x == 0) by (nonlinear_arith)
        requires
            ray.x == 0,
    ;
    assert(-eye.y * ray.z == 0) by (nonlinear_arith)
        requires
            ray.z == 0,
    ;
    if ray.y > 0 {
        vstd::arithmetic::div_mod::lemma_fundamental_div_mod_converse(0, ray.y as int, 0, 0);
    } else {
        vstd::arithmetic::div_mod::lemma_fundamental_div_mod_converse(0, -ray.y, 0, 0);
    }
}

/// How far each arm of the cross that marks the cursor reaches.
pub const CROSS_ARM: i32 = 200_000;

/// The ends of the two lines of the cross that marks the cursor, as `(x, z)`
/// in units of [`CROSS_ARM`].
pub open spec fn cross_ends() -> Seq<(int, int)> {
    seq![(-1int, 0int), (1int, 0int), (0int, -1int), (0int, 1int)]
}

/// Whether `lines` is the cross that marks the cursor: two lines on the
/// ground that meet at the origin, each given by its two ends, facing up.
pub open spec fn is_cursor_cross(lines: Seq<Vertex>) -> bool {
    &&& lines.len() == 4
    &&& forall|i: int|
        0 <= i < 4 ==> {
            &&& (#[trigger] lines[i]).position[0] == cross_ends()[i].0 * CROSS_ARM
            &&& lines[i].position[1] == 0
            &&& lines[i].position[2] == cross_ends()[i].1 * CROSS_ARM
            &&& lines[i].normal[0] == 0
            &&& lines[i].normal[1] == 1_000_000
            &&& lines[i].normal[2] == 0
        }
}

/// The cross that marks the cursor, as a list of lines.
pub fn cursor_cross() -> (lines: Vec<Vertex>)
    ensures
        is_cursor_cross(lines@),
{
    let up: [i32; 3] = [0, 1_000_000, 0];
    let mut lines: Vec<Vertex> = Vec::new();
    lines.push(Vertex { position: [-200_000, 0, 0], normal: up });
    lines.push(Vertex { position: [200_000, 0, 0], normal: up });
    lines.push(Vertex { position: [0, 0, -200_000], normal: up });
    lines.push(Vertex { position: [0, 0, 200_000], normal: up });
    lines
}

/// A button of the mouse.
#[derive(Clone, Copy, Debug, PartialEq, Eq, Structural)]
pub enum MouseButton {
    Left,
    Right,
    Middle,
    Other(u16),
}

/// Whether a button went down or came up.
#[derive(Clone, Copy, Debug, PartialEq, Eq, Structural)]
pub enum ElementState {
    Pressed,
    Released,
}

/// The modifier keys that are held down.
#[derive(Clone, Copy, Debug, PartialEq, Eq, Structural)]
pub struct ModifiersState {
    pub shift: bool,
    pub ctrl: bool,
    pub alt: bool,
    pub logo: bool,
}

impl ModifiersState {
    /// Whether a shift key is held down.
    pub fn shift(&self) -> (held: bool)
        ensures
            held == self.shift,
    {
        self.shift
    }
}

/// How far the wheel was turned.
#[derive(Clone, Copy, Debug, PartialEq, Eq, Structural)]
pub enum MouseScrollDelta {
    /// In lines, sideways and up, in millionths of a line.
    LineDelta(i32, i32),
    /// In pixels, sideways and up.
    PixelDelta(Vec2),
}

impl MouseScrollDelta {
    /// Whether the turn is given in lines, the one form that
    /// [`mouse_scroll_system`] takes.
    pub fn is_lines(&self) -> (lines: bool)
        ensures
            lines == (*self is LineDelta),
    {
        match self {
            MouseScrollDelta::LineDelta(_, _) => true,
            MouseScrollDelta::PixelDelta(_) => false,
        }
    }
}

/// The world after the cursor was cast along `ray` from the camera: the
/// cursor of the entity with the key `cursor_key` lies at `point`.
pub open spec fn cursor_moved(before: Map<u64, Parts>, cursor_key: u64, point: Vec3) -> Map<
    u64,
    Parts,
> {
    before.insert(cursor_key, Parts { cursor: Some(Cursor { position: point }), ..before[cursor_key] })
}

/// Puts the cursor where the line from the camera's eye along `ray` meets
/// the ground. `ray` is the direction under the pointer, in the world.
///
/// Fails, and leaves the world as it is, if `camera_entity` has no camera,
/// else if `cursor_entity` has no cursor, else if the ray is level.
pub fn cursor_system(
    world: &mut World,
    cursor_entity: Entity,
    camera_entity: Entity,
    ray: Vec3,
) -> (done: Result<(), SystemError>)
    ensures
        match (
            component_at::<Camera>(*old(world), entity_key(camera_entity)),
            component_at::<Cursor>(*old(world), entity_key(cursor_entity)),
        ) {
            (None, _) => done == Err::<(), SystemError>(SystemError::MissingCamera)
                && contents(*final(world)) == contents(*old(world)),
            (Some(_), None) => done == Err::<(), SystemError>(SystemError::MissingCursor)
                && contents(*final(world)) == contents(*old(world)),
            (Some(camera), Some(_)) => match spec_ground_point(camera.position, ray) {
                None => done == Err::<(), SystemError>(SystemError::LevelRay) && contents(
                    *final(world),
                ) == contents(*old(world)),
                Some(point) => done == Ok::<(), SystemError>(()) && contents(*final(world))
                    == cursor_moved(contents(*old(world)), entity_key(cursor_entity), point),
            },
        },
{
    let camera = match fetch::<Camera>(world, camera_entity) {
        Some(camera) => camera,
        None => {
            return Err(SystemError::MissingCamera);
        },
    };
    if fetch::<Cursor>(world, cursor_entity).is_none() {
        return Err(SystemError::MissingCursor);
    }
    match ground_point(camera.position, ray) {
        Some(point) => {
            store(world, cursor_entity, Cursor { position: point });
            Ok(())
        },
        None => Err(SystemError::LevelRay),
    }
}

/// The world after the wheel was turned `lines` up: the camera of the
/// entity with the key `camera_key` has come down by as much.
pub open spec fn camera_lowered(before: Map<u64, Parts>, camera_key: u64, lines: i32) -> Map<
    u64,
    Parts,
> {
    let camera = before[camera_key].camera.unwrap();
    before.insert(
        camera_key,
        Parts {
            camera: Some(
                Camera {
                    position: Vec3 {
                        y: clamped(camera.position.y - lines) as i32,
                        ..camera.position
                    },
                    ..camera
                },
            ),
            ..before[camera_key]
        },
    )
}

/// Moves the camera down by the lines the wheel was turned up, and up by
/// those it was turned down.
///
/// Only a turn in lines is understood: a turn in pixels must not be handed
/// in, and a caller that gets one has to stop there. Fails, and leaves the
/// world as it is, if `camera_entity` has no camera.
pub fn mouse_scroll_system(world: &mut World, delta: MouseScrollDelta, camera_entity: Entity) -> (done:
    Result<(), SystemError>)
    requires
        delta is LineDelta,
    ensures
        if component_at::<Camera>(*old(world), entity_key(camera_entity)).is_none() {
            done == Err::<(), SystemError>(SystemError::MissingCamera) && contents(*final(world))
                == contents(*old(world))
        } else {
            done == Ok::<(), SystemError>(()) && contents(*final(world)) == camera_lowered(
                contents(*old(world)),
                entity_key(camera_entity),
                delta->LineDelta_1,
            )
        },
{
    let lines = match delta {
        MouseScrollDelta::LineDelta(_, lines) => lines,
        MouseScrollDelta::PixelDelta(_) => vstd::pervasive::unreached(),
    };
    match fetch::<Camera>(world, camera_entity) {
        Some(camera) => {
            let lowered = Camera {
                position: Vec3 {
                    x: camera.position.x,
                    y: clamp(camera.position.y as i128 - lines as i128),
                    z: camera.position.z,
                },
                near: camera.near,
                far: camera.far,
            };
            store(world, camera_entity, lowered);
            Ok(())
        },
        None => Err(SystemError::MissingCamera),
    }
}

/// The components of an entity after a click of the left button: a
/// selectable entity is selected if the cursor hovers over it; if not, it
/// keeps its selection under an additive click and loses it otherwise.
pub open spec fn clicked(parts: Parts, additive: bool) -> Parts {
    match parts.selectable {
        Some(selectable) => Parts {
            selectable: Some(
                Selectable {
                    selected: selectable.hover || (additive && selectable.selected),
                    ..selectable
                },
            ),
            ..parts
        },
        None => parts,
    }
}

/// The set of selected entities after a click of the left button in the
/// world `before`: of the selectable entities those under the cursor and,
/// under an additive click, those that were in the set; of all others those
/// that were in the set.
pub open spec fn selection_clicked(chosen: Set<u64>, before: Map<u64, Parts>, additive: bool) -> Set<
    u64,
> {
    Set::new(
        |key: u64|
            if before.contains_key(key) && before[key].selectable.is_some() {
                before[key].selectable.unwrap().hover || (additive && chosen.contains(key))
            } else {
                chosen.contains(key)
            },
    )
}

/// The components of an entity after a click of the right button with the
/// cursor at `target`: an entity that is selected and can move is ordered
/// there.
pub open spec fn ordered(parts: Parts, target: Vec2) -> Parts {
    match (parts.movement, parts.selectable) {
        (Some(_), Some(selectable)) => if selectable.selected {
            Parts { movement: Some(Movement { target_pos: Some(target) }), ..parts }
        } else {
            parts
        },
        _ => parts,
    }
}

/// The keys of the entities that are selected in `world`.
pub open spec fn selected_keys(world: Map<u64, Parts>) -> Set<u64> {
    Set::new(
        |key: u64|
            world.contains_key(key) && world[key].selectable.is_some()
                && world[key].selectable.unwrap().selected,
    )
}

/// The keys of the entities that the cursor hovers over in `world`.
pub open spec fn hovered_keys(world: Map<u64, Parts>) -> Set<u64> {
    Set::new(
        |key: u64|
            world.contains_key(key) && world[key].selectable.is_some()
                && world[key].selectable.unwrap().hover,
    )
}

/// A plain click selects exactly what the cursor hovers over; an additive
/// click selects that besides what was selected.
pub proof fn lemma_click_selection(world: Map<u64, Parts>)
    ensures
        selected_keys(world.map_values(|parts: Parts| clicked(parts, false))) == hovered_keys(
            world,
        ),
        selected_keys(world.map_values(|parts: Parts| clicked(parts, true))) == selected_keys(
            world,
        ).union(hovered_keys(world)),
{
    assert(selected_keys(world.map_values(|parts: Parts| clicked(parts, false))) =~= hovered_keys(
        world,
    ));
    assert(selected_keys(world.map_values(|parts: Parts| clicked(parts, true))) =~= selected_keys(
        world,
    ).union(hovered_keys(world)));
}

/// Acts on a button of the mouse.
///
/// When the left button comes up, every selectable entity under the cursor
/// is selected and put into `selected`; every other selectable entity is
/// deselected and taken out of `selected`, unless a shift key is held.
/// When the right button comes up, every selected entity that can move is
/// ordered to where the cursor is. Nothing else has an effect.
///
/// Fails, and changes nothing, only when the right button comes up and
/// `cursor_entity` has no cursor.
pub fn mouse_click_system(
    world: &mut World,
    selected: &mut HashSet<u64>,
    button: MouseButton,
    state: ElementState,
    modifiers: ModifiersState,
    cursor_entity: Entity,
) -> (done: Result<(), SystemError>)
    ensures
        match (button, state) {
            (MouseButton::Left, ElementState::Released) => {
                &&& done == Ok::<(), SystemError>(())
                &&& contents(*final(world)) == contents(*old(world)).map_values(
                    |parts: Parts| clicked(parts, modifiers.shift),
                )
                &&& final(selected)@ == selection_clicked(
                    old(selected)@,
                    contents(*old(world)),
                    modifiers.shift,
                )
            },
            (MouseButton::Right, ElementState::Released) => match component_at::<Cursor>(
                *old(world),
                entity_key(cursor_entity),
            ) {
                Some(cursor) => {
                    &&& done == Ok::<(), SystemError>(())
                    &&& contents(*final(world)) == contents(*old(world)).map_values(
                        |parts: Parts| ordered(parts, cursor.position.spec_xz()),
                    )
                    &&& final(selected)@ == old(selected)@
                },
                None => {
                    &&& done == Err::<(), SystemError>(SystemError::MissingCursor)
                    &&& contents(*final(world)) == contents(*old(world))
                    &&& final(selected)@ == old(selected)@
                },
            },
            _ => {
                &&& done == Ok::<(), SystemError>(())
                &&& contents(*final(world)) == contents(*old(world))
                &&& final(selected)@ == old(selected)@
            },
        },
{
    match (button, state) {
        (MouseButton::Left, ElementState::Released) => {
            select_hovered(world, selected, modifiers.shift());
            Ok(())
        },
        (MouseButton::Right, ElementState::Released) => {
            match fetch::<Cursor>(world, cursor_entity) {
                Some(cursor) => {
                    order_selected(world, cursor.position.xz());
                    Ok(())
                },
                None => Err(SystemError::MissingCursor),
            }
        },
        _ => Ok(()),
    }
}

/// What a click of the left button does: see [`mouse_click_system`].
pub fn select_hovered(world: &mut World, selected: &mut HashSet<u64>, additive: bool)
    ensures
        contents(*final(world)) == contents(*old(world)).map_values(
            |parts: Parts| clicked(parts, additive),
        ),
        final(selected)@ == selection_clicked(old(selected)@, contents(*old(world)), additive),
{
    broadcast use vstd::std_specs::hash::group_hash_axioms;

    let entities = holders::<Selectable>(world);
    let ghost before = contents(*world);
    let ghost chosen = selected@;
    let ghost keys = keys_of(entities@);
    let ghost change = |parts: Parts| clicked(parts, additive);
    proof {
        lemma_changed_none(before, keys, change);
        assert(keys.take(0) =~= Seq::<u64>::empty());
        assert(selected@ =~= Set::new(
            |key: u64|
                if keys.take(0).contains(key) {
                    selection_clicked(chosen, before, additive).contains(key)
                } else {
                    chosen.contains(key)
                },
        ));
    }
    let mut i: usize = 0;
    while i < entities.len()
        invariant
            0 <= i <= entities.len(),
            keys == keys_of(entities@),
            keys.no_duplicates(),
            change == |parts: Parts| clicked(parts, additive),
            forall|key: u64|
                keys.contains(key) <==> (#[trigger] component_at::<Selectable>(
                    *old(world),
                    key,
                )).is_some(),
            before == contents(*old(world)),
            chosen == old(selected)@,
            contents(*world) == changed_so_far(before, keys, i as int, change),
            selected@ == Set::new(
                |key: u64|
                    if keys.take(i as int).contains(key) {
                        selection_clicked(chosen, before, additive).contains(key)
                    } else {
                        chosen.contains(key)
                    },
            ),
        decreases entities.len() - i,
    {
        let entity = entities[i];
        let key = key_of(entity);
        proof {
            assert(keys[i as int] == key);
            assert(keys.contains(key));
            assert(component_at::<Selectable>(*old(world), key).is_some());
            lemma_changed_next(before, keys, i as int, change);
            lemma_take_next(keys, i as int);
        }
        let ghost marked = selected@;
        match fetch::<Selectable>(world, entity) {
            Some(selectable) => {
                let kept = selectable.hover || (additive && selectable.selected);
                store(
                    world,
                    entity,
                    Selectable {
                        selected: kept,
                        hover: selectable.hover,
                        bounding_circle: selectable.bounding_circle,
                    },
                );
                if selectable.hover {
                    selected.insert(key);
                } else if !additive {
                    selected.remove(&key);
                }
            },
            None => {},
        }
        proof {
            assert(selected@ =~= Set::new(
                |other: u64|
                    if keys.take(i + 1).contains(other) {
                        selection_clicked(chosen, before, additive).contains(other)
                    } else {
                        chosen.contains(other)
                    },
            ));
        }
        i += 1;
    }
    proof {
        assert forall|key: u64|
            before.contains_key(key) && !keys.contains(key) implies change(
            #[trigger] before[key],
        ) == before[key] by {
            assert(!component_at::<Selectable>(*old(world), key).is_some());
        }
        lemma_changed_all(before, keys, change);
        assert(keys.take(entities.len() as int) =~= keys);
        assert forall|key: u64| !keys.contains(key) implies (selection_clicked(
            chosen,
            before,
            additive,
        ).contains(key) <==> chosen.contains(key)) by {
            assert(!component_at::<Selectable>(*old(world), key).is_some());
        }
        assert(selected@ =~= selection_clicked(chosen, before, additive));
    }
}

/// What a click of the right button does with the cursor at `target`: see
/// [`mouse_click_system`].
pub fn order_selected(world: &mut World, target: Vec2)
    ensures
        contents(*final(world)) == contents(*old(world)).map_values(
            |parts: Parts| ordered(parts, target),
        ),
{
    let entities = holders::<Movement>(world);
    let ghost before = contents(*world);
    let ghost keys = keys_of(entities@);
    let ghost change = |parts: Parts| ordered(parts, target);
    proof {
        lemma_changed_none(before, keys, change);
    }
    let mut i: usize = 0;
    while i < entities.len()
        invariant
            0 <= i <= entities.len(),
            keys == keys_of(entities@),
            keys.no_duplicates(),
            change == |parts: Parts| ordered(parts, target),
            forall|key: u64|
                keys.contains(key) <==> (#[trigger] component_at::<Movement>(
                    *old(world),
                    key,
                )).is_some(),
            before == contents(*old(world)),
            contents(*world) == changed_so_far(before, keys, i as int, change),
        decreases entities.len() - i,
    {
        let entity = entities[i];
        proof {
            assert(keys[i as int] == entity_key(entity));
            assert(keys.contains(entity_key(entity)));
            assert(component_at::<Movement>(*old(world), entity_key(entity)).is_some());
            lemma_changed_next(before, keys, i as int, change);
        }
        let is_selected = match fetch::<Selectable>(world, entity) {
            Some(selectable) => selectable.selected,
            None => false,
        };
        if is_selected {
            store(world, entity, Movement { target_pos: Some(target) });
        } else {
            assert(contents(*world) =~= contents(*world).insert(
                entity_key(entity),
                before[entity_key(entity)],
            ));
        }
        i += 1;
    }
    proof {
        assert forall|key: u64|
            before.contains_key(key) && !keys.contains(key) implies change(
            #[trigger] before[key],
        ) == before[key] by {
            assert(!component_at::<Movement>(*old(world), key).is_some());
        }
        lemma_changed_all(before, keys, change);
    }
}

} // verus!
