use std::collections::HashSet;

use hecs::{Entity, World};
use topdown::bounding_circle::BoundingCircle;
use topdown::camera::Camera;
use topdown::error::SystemError;
use topdown::mouse::{
    cursor_cross, cursor_system, ground_point, mouse_click_system, mouse_scroll_system, order_selected,
    select_hovered, Cursor, ElementState, ModifiersState, Mouse, MouseButton, MouseButtonState,
    MouseScrollDelta,
};
use topdown::movement::Movement;
use topdown::selectable::{select_system, Selectable};
use topdown::transformation::Transformation;
use topdown::vector::{Vec2, Vec3};
use topdown::vertex::Vertex;

const PLAIN: ModifiersState = ModifiersState { shift: false, ctrl: false, alt: false, logo: false };
const SHIFT: ModifiersState = ModifiersState { shift: true, ctrl: false, alt: false, logo: false };

fn key(entity: Entity) -> u64 {
    entity.to_bits().get()
}

fn selectable(selected: bool, hover: bool) -> Selectable {
    Selectable {
        selected,
        hover,
        bounding_circle: BoundingCircle { r: 1_000_000, ground_pos: Vec2::new(0, 0) },
    }
}

fn is_selected(world: &World, entity: Entity) -> bool {
    world.get::<&Selectable>(entity).unwrap().selected
}

fn target_of(world: &World, entity: Entity) -> Option<Vec2> {
    world.get::<&Movement>(entity).unwrap().target_pos
}

#[test]
fn new_mouse_rests_in_the_middle_with_no_button_held() {
    let mouse = Mouse::new(1024, 768);
    assert_eq!(
        mouse.button_state,
        MouseButtonState { left_pressed: false, right_pressed: false }
    );
    assert_eq!(mouse.device_pos(), Some(Vec2::new(0, 0)));
}

#[test]
fn device_pos_runs_from_minus_one_to_one_and_up_the_screen() {
    let mut mouse = Mouse::new(1024, 768);
    mouse.update(Vec2::new(0, 0));
    assert_eq!(mouse.device_pos(), Some(Vec2::new(-1_000_000, 1_000_000)));
    mouse.update(Vec2::new(1024, 768));
    assert_eq!(mouse.device_pos(), Some(Vec2::new(1_000_000, -1_000_000)));
    mouse.update(Vec2::new(256, 576));
    assert_eq!(mouse.device_pos(), Some(Vec2::new(-500_000, -500_000)));
}

#[test]
fn device_pos_rounds_down_before_it_flips() {
    let mut mouse = Mouse::new(3, 3);
    mouse.update(Vec2::new(1, 1));
    assert_eq!(mouse.device_pos(), Some(Vec2::new(-333_334, 333_334)));
    mouse.update(Vec2::new(2, 2));
    assert_eq!(mouse.device_pos(), Some(Vec2::new(333_333, -333_333)));
}

#[test]
fn device_pos_outside_the_window_goes_beyond_one() {
    let mut mouse = Mouse::new(100, 100);
    mouse.update(Vec2::new(-50, 200));
    assert_eq!(mouse.device_pos(), Some(Vec2::new(-2_000_000, -3_000_000)));
    mouse.update(Vec2::new(i32::MAX, i32::MIN));
    assert_eq!(mouse.device_pos(), Some(Vec2::new(i32::MAX, i32::MAX)));
    mouse.update(Vec2::new(i32::MIN, i32::MAX));
    assert_eq!(mouse.device_pos(), Some(Vec2::new(i32::MIN, i32::MIN + 1)));
}

#[test]
fn window_without_size_has_no_device_pos() {
    assert_eq!(Mouse::new(0, 768).device_pos(), None);
    assert_eq!(Mouse::new(1024, 0).device_pos(), None);
    assert_eq!(Mouse::new(0, 0).device_pos(), None);
}

#[test]
fn update_keeps_the_buttons() {
    let mut mouse = Mouse::new(10, 10);
    mouse.button_state.left_pressed = true;
    mouse.update(Vec2::new(3, 4));
    assert_eq!(mouse.button_state, MouseButtonState { left_pressed: true, right_pressed: false });
}

#[test]
fn ray_straight_down_lands_below_the_eye() {
    for h in [1, 1_000, 30_000_000, i32::MAX] {
        let eye = Vec3::new(0, h, 0);
        assert_eq!(ground_point(eye, Vec3::new(0, -1_000_000, 0)), Some(Vec3::new(0, 0, 0)));
        assert_eq!(ground_point(eye, Vec3::new(0, -1, 0)), Some(Vec3::new(0, 0, 0)));
    }
    assert_eq!(
        ground_point(Vec3::new(-4, 9, 17), Vec3::new(0, -5, 0)),
        Some(Vec3::new(-4, 0, 17))
    );
}

#[test]
fn slanted_ray_lands_ahead_of_the_eye() {
    let eye = Vec3::new(10_000_000, 30_000_000, 10_000_000);
    let ray = Vec3::new(-301_511, -904_534, -301_511);
    assert_eq!(ground_point(eye, ray), Some(Vec3::new(11, 0, 11)));
    let steep = Vec3::new(100_000, -1_000_000, -250_000);
    assert_eq!(ground_point(eye, steep), Some(Vec3::new(13_000_000, 0, 2_500_000)));
}

#[test]
fn ground_point_rounds_down() {
    let eye = Vec3::new(0, 1, 0);
    assert_eq!(ground_point(eye, Vec3::new(1, -2, -1)), Some(Vec3::new(0, 0, -1)));
    assert_eq!(ground_point(eye, Vec3::new(1, -3, 2)), Some(Vec3::new(0, 0, 0)));
}

#[test]
fn ray_that_points_up_lands_behind_the_eye() {
    let eye = Vec3::new(0, 10, 0);
    assert_eq!(ground_point(eye, Vec3::new(3, 1, -2)), Some(Vec3::new(-30, 0, 20)));
}

#[test]
fn ground_point_saturates() {
    let eye = Vec3::new(0, i32::MAX, 0);
    assert_eq!(
        ground_point(eye, Vec3::new(i32::MAX, -1, i32::MIN)),
        Some(Vec3::new(i32::MAX, 0, i32::MIN))
    );
}

#[test]
fn level_ray_has_no_ground_point() {
    assert_eq!(ground_point(Vec3::new(0, 5, 0), Vec3::new(1, 0, 1)), None);
    assert_eq!(ground_point(Vec3::new(0, 0, 0), Vec3::new(0, 0, 0)), None);
}

#[test]
fn cursor_system_puts_the_cursor_on_the_ground() {
    let mut world = World::new();
    let camera = world.spawn((Camera::new(Vec3::new(10_000_000, 30_000_000, 10_000_000), 1, 2),));
    let cursor = world.spawn((Cursor { position: Vec3::new(1, 2, 3) },));
    let ray = Vec3::new(100_000, -1_000_000, -250_000);
    assert_eq!(cursor_system(&mut world, cursor, camera, ray), Ok(()));
    assert_eq!(
        *world.get::<&Cursor>(cursor).unwrap(),
        Cursor { position: Vec3::new(13_000_000, 0, 2_500_000) }
    );
    assert_eq!(
        *world.get::<&Camera>(camera).unwrap(),
        Camera::new(Vec3::new(10_000_000, 30_000_000, 10_000_000), 1, 2)
    );
}

#[test]
fn cursor_system_under_a_camera_that_looks_straight_down() {
    for h in [1, 5_000_000, 2_000_000_000] {
        let mut world = World::new();
        let camera = world.spawn((Camera::new(Vec3::new(0, h, 0), 100_000, 50_000_000),));
        let cursor = world.spawn((Cursor { position: Vec3::new(500_000, 0, 500_000) },));
        assert_eq!(cursor_system(&mut world, cursor, camera, Vec3::new(0, -1_000_000, 0)), Ok(()));
        assert_eq!(world.get::<&Cursor>(cursor).unwrap().position, Vec3::new(0, 0, 0));
    }
}

#[test]
fn cursor_system_needs_a_camera() {
    let mut world = World::new();
    let cursor = world.spawn((Cursor { position: Vec3::new(1, 2, 3) },));
    let ray = Vec3::new(0, -1, 0);
    assert_eq!(cursor_system(&mut world, cursor, cursor, ray), Err(SystemError::MissingCamera));
    assert_eq!(world.get::<&Cursor>(cursor).unwrap().position, Vec3::new(1, 2, 3));
}

#[test]
fn cursor_system_needs_a_cursor() {
    let mut world = World::new();
    let camera = world.spawn((Camera::new(Vec3::new(0, 1, 0), 1, 2),));
    let ray = Vec3::new(0, -1, 0);
    assert_eq!(cursor_system(&mut world, camera, camera, ray), Err(SystemError::MissingCursor));
}

#[test]
fn cursor_system_reports_the_camera_first() {
    let mut world = World::new();
    let nothing = world.spawn(());
    let level = Vec3::new(1, 0, 0);
    assert_eq!(
        cursor_system(&mut world, nothing, nothing, level),
        Err(SystemError::MissingCamera)
    );
}

#[test]
fn cursor_system_leaves_the_cursor_under_a_level_ray() {
    let mut world = World::new();
    let camera = world.spawn((Camera::new(Vec3::new(0, 1, 0), 1, 2),));
    let cursor = world.spawn((Cursor { position: Vec3::new(1, 2, 3) },));
    let level = Vec3::new(1, 0, 0);
    assert_eq!(cursor_system(&mut world, cursor, camera, level), Err(SystemError::LevelRay));
    assert_eq!(world.get::<&Cursor>(cursor).unwrap().position, Vec3::new(1, 2, 3));
}

#[test]
fn plain_click_selects_what_is_hovered_and_nothing_else() {
    let mut world = World::new();
    let a = world.spawn((selectable(true, false),));
    let b = world.spawn((selectable(false, true),));
    let cursor = world.spawn((Cursor { position: Vec3::new(0, 0, 0) },));
    let mut selected = HashSet::from([key(a)]);
    let done = mouse_click_system(
        &mut world,
        &mut selected,
        MouseButton::Left,
        ElementState::Released,
        PLAIN,
        cursor,
    );
    assert_eq!(done, Ok(()));
    assert!(!is_selected(&world, a));
    assert!(is_selected(&world, b));
    assert_eq!(selected, HashSet::from([key(b)]));
    assert_eq!(*world.get::<&Selectable>(b).unwrap(), selectable(true, true));
}

#[test]
fn additive_click_adds_what_is_hovered() {
    let mut world = World::new();
    let a = world.spawn((selectable(true, false),));
    let b = world.spawn((selectable(false, true),));
    let c = world.spawn((selectable(false, false),));
    let cursor = world.spawn((Cursor { position: Vec3::new(0, 0, 0) },));
    let mut selected = HashSet::from([key(a)]);
    let done = mouse_click_system(
        &mut world,
        &mut selected,
        MouseButton::Left,
        ElementState::Released,
        SHIFT,
        cursor,
    );
    assert_eq!(done, Ok(()));
    assert!(is_selected(&world, a));
    assert!(is_selected(&world, b));
    assert!(!is_selected(&world, c));
    assert_eq!(selected, HashSet::from([key(a), key(b)]));
}

#[test]
fn plain_click_on_nothing_clears_the_selection() {
    let mut world = World::new();
    let a = world.spawn((selectable(true, false),));
    let b = world.spawn((selectable(true, false),));
    let mut selected = HashSet::from([key(a), key(b)]);
    select_hovered(&mut world, &mut selected, false);
    assert!(!is_selected(&world, a));
    assert!(!is_selected(&world, b));
    assert!(selected.is_empty());
}

#[test]
fn click_selects_every_circle_under_the_cursor() {
    let mut world = World::new();
    let a = world.spawn((selectable(false, true),));
    let b = world.spawn((selectable(false, true),));
    let mut selected = HashSet::new();
    select_hovered(&mut world, &mut selected, false);
    assert!(is_selected(&world, a));
    assert!(is_selected(&world, b));
    assert_eq!(selected, HashSet::from([key(a), key(b)]));
}

#[test]
fn click_leaves_strangers_in_the_set() {
    let mut world = World::new();
    let a = world.spawn((selectable(false, true),));
    let plain = world.spawn((Movement { target_pos: None },));
    let mut selected = HashSet::from([key(plain), 12345]);
    select_hovered(&mut world, &mut selected, false);
    assert_eq!(selected, HashSet::from([key(a), key(plain), 12345]));
}

#[test]
fn set_and_flag_go_their_own_ways_under_an_additive_click() {
    let mut world = World::new();
    let flagged = world.spawn((selectable(true, false),));
    let listed = world.spawn((selectable(false, false),));
    let mut selected = HashSet::from([key(listed)]);
    select_hovered(&mut world, &mut selected, true);
    assert!(is_selected(&world, flagged));
    assert!(!is_selected(&world, listed));
    assert_eq!(selected, HashSet::from([key(listed)]));
}

#[test]
fn click_follows_the_hover_of_the_same_frame() {
    let mut world = World::new();
    let circle = BoundingCircle { r: 1_000_000, ground_pos: Vec2::new(0, 0) };
    let a = world.spawn((
        Selectable { selected: true, hover: false, bounding_circle: circle },
        Transformation::translation(Vec3::new(-5_000_000, 0, 0)),
    ));
    let b = world.spawn((
        Selectable::new(circle),
        Transformation::translation(Vec3::new(5_000_000, 0, 0)),
    ));
    let cursor = world.spawn((Cursor { position: Vec3::new(5_200_000, 0, 100_000) },));
    let mut selected = HashSet::from([key(a)]);
    select_system(&mut world, cursor);
    let done = mouse_click_system(
        &mut world,
        &mut selected,
        MouseButton::Left,
        ElementState::Released,
        PLAIN,
        cursor,
    );
    assert_eq!(done, Ok(()));
    assert!(!is_selected(&world, a));
    assert!(is_selected(&world, b));
    assert_eq!(selected, HashSet::from([key(b)]));
}

#[test]
fn left_click_does_not_need_a_cursor() {
    let mut world = World::new();
    let a = world.spawn((selectable(false, true),));
    let mut selected = HashSet::new();
    let done = mouse_click_system(
        &mut world,
        &mut selected,
        MouseButton::Left,
        ElementState::Released,
        PLAIN,
        a,
    );
    assert_eq!(done, Ok(()));
    assert!(is_selected(&world, a));
}

#[test]
fn right_click_orders_the_selected_to_the_cursor() {
    let mut world = World::new();
    let chosen = world.spawn((selectable(true, false), Movement { target_pos: None }));
    let other = world.spawn((selectable(false, true), Movement { target_pos: None }));
    let rooted = world.spawn((selectable(true, false),));
    let drifter = world.spawn((Movement { target_pos: Some(Vec2::new(1, 1)) },));
    let cursor = world.spawn((Cursor { position: Vec3::new(3_000_000, 77, -4_000_000) },));
    let mut selected = HashSet::from([key(chosen), key(rooted)]);
    let done = mouse_click_system(
        &mut world,
        &mut selected,
        MouseButton::Right,
        ElementState::Released,
        PLAIN,
        cursor,
    );
    assert_eq!(done, Ok(()));
    assert_eq!(target_of(&world, chosen), Some(Vec2::new(3_000_000, -4_000_000)));
    assert_eq!(target_of(&world, other), None);
    assert_eq!(target_of(&world, drifter), Some(Vec2::new(1, 1)));
    assert!(world.get::<&Movement>(rooted).is_err());
    assert_eq!(*world.get::<&Selectable>(chosen).unwrap(), selectable(true, false));
    assert_eq!(selected, HashSet::from([key(chosen), key(rooted)]));
}

#[test]
fn right_click_goes_by_the_flag_and_not_by_the_set() {
    let mut world = World::new();
    let listed = world.spawn((selectable(false, false), Movement { target_pos: None }));
    let cursor = world.spawn((Cursor { position: Vec3::new(1, 0, 1) },));
    let mut selected = HashSet::from([key(listed)]);
    let done = mouse_click_system(
        &mut world,
        &mut selected,
        MouseButton::Right,
        ElementState::Released,
        SHIFT,
        cursor,
    );
    assert_eq!(done, Ok(()));
    assert_eq!(target_of(&world, listed), None);
}

#[test]
fn new_order_replaces_the_old_one() {
    let mut world = World::new();
    let e = world.spawn((selectable(true, false), Movement { target_pos: Some(Vec2::new(9, 9)) }));
    order_selected(&mut world, Vec2::new(-1, -2));
    assert_eq!(target_of(&world, e), Some(Vec2::new(-1, -2)));
}

#[test]
fn right_click_without_a_cursor_fails_and_orders_nothing() {
    let mut world = World::new();
    let chosen = world.spawn((selectable(true, false), Movement { target_pos: None }));
    let mut selected = HashSet::from([key(chosen)]);
    let done = mouse_click_system(
        &mut world,
        &mut selected,
        MouseButton::Right,
        ElementState::Released,
        PLAIN,
        chosen,
    );
    assert_eq!(done, Err(SystemError::MissingCursor));
    assert_eq!(target_of(&world, chosen), None);
    assert_eq!(selected, HashSet::from([key(chosen)]));
}

#[test]
fn presses_and_other_buttons_do_nothing() {
    let mut world = World::new();
    let a = world.spawn((selectable(true, false), Movement { target_pos: None }));
    let b = world.spawn((selectable(false, true), Movement { target_pos: None }));
    let mut selected = HashSet::from([key(a)]);
    let events = [
        (MouseButton::Left, ElementState::Pressed),
        (MouseButton::Right, ElementState::Pressed),
        (MouseButton::Middle, ElementState::Released),
        (MouseButton::Middle, ElementState::Pressed),
        (MouseButton::Other(4), ElementState::Released),
    ];
    for (button, state) in events {
        let done = mouse_click_system(&mut world, &mut selected, button, state, PLAIN, a);
        assert_eq!(done, Ok(()));
    }
    assert_eq!(*world.get::<&Selectable>(a).unwrap(), selectable(true, false));
    assert_eq!(*world.get::<&Selectable>(b).unwrap(), selectable(false, true));
    assert_eq!(target_of(&world, a), None);
    assert_eq!(selected, HashSet::from([key(a)]));
}

#[test]
fn shift_is_read_from_the_modifiers() {
    assert!(SHIFT.shift());
    assert!(!PLAIN.shift());
    assert!(!ModifiersState { shift: false, ctrl: true, alt: true, logo: true }.shift());
}

#[test]
fn wheel_up_brings_the_camera_down() {
    let mut world = World::new();
    let camera = world.spawn((Camera::new(Vec3::new(1, 30_000_000, 2), 3, 4),));
    let up = MouseScrollDelta::LineDelta(5_000_000, 1_000_000);
    assert_eq!(mouse_scroll_system(&mut world, up, camera), Ok(()));
    assert_eq!(
        *world.get::<&Camera>(camera).unwrap(),
        Camera::new(Vec3::new(1, 29_000_000, 2), 3, 4)
    );
    let down = MouseScrollDelta::LineDelta(0, -2_500_000);
    assert_eq!(mouse_scroll_system(&mut world, down, camera), Ok(()));
    assert_eq!(world.get::<&Camera>(camera).unwrap().position, Vec3::new(1, 31_500_000, 2));
}

#[test]
fn camera_height_saturates() {
    let mut world = World::new();
    let camera = world.spawn((Camera::new(Vec3::new(0, i32::MIN + 5, 0), 0, 0),));
    let up = MouseScrollDelta::LineDelta(0, 6);
    assert_eq!(mouse_scroll_system(&mut world, up, camera), Ok(()));
    assert_eq!(world.get::<&Camera>(camera).unwrap().position.y, i32::MIN);
    let down = MouseScrollDelta::LineDelta(0, i32::MIN);
    assert_eq!(mouse_scroll_system(&mut world, down, camera), Ok(()));
    assert_eq!(world.get::<&Camera>(camera).unwrap().position.y, 0);
    assert_eq!(mouse_scroll_system(&mut world, down, camera), Ok(()));
    assert_eq!(world.get::<&Camera>(camera).unwrap().position.y, i32::MAX);
}

#[test]
fn only_a_turn_in_lines_is_one_to_hand_in() {
    assert!(MouseScrollDelta::LineDelta(0, 0).is_lines());
    assert!(MouseScrollDelta::LineDelta(-5, 7_000_000).is_lines());
    assert!(!MouseScrollDelta::PixelDelta(Vec2::new(0, 12)).is_lines());
    assert!(!MouseScrollDelta::PixelDelta(Vec2::new(0, 0)).is_lines());
}

#[test]
fn wheel_needs_a_camera() {
    let mut world = World::new();
    let nothing = world.spawn(());
    let lines = MouseScrollDelta::LineDelta(0, 1);
    assert_eq!(mouse_scroll_system(&mut world, lines, nothing), Err(SystemError::MissingCamera));
}

#[test]
fn errors_say_what_went_wrong() {
    assert_eq!(SystemError::MissingCamera.message(), "No camera on the camera entity");
    assert_eq!(SystemError::MissingCursor.message(), "No cursor on the cursor entity");
    assert_eq!(
        SystemError::LevelRay.message(),
        "The ray under the pointer does not meet the ground"
    );
}

#[test]
fn cursor_is_marked_by_a_cross_on_the_ground() {
    let up = [0, 1_000_000, 0];
    assert_eq!(
        cursor_cross(),
        vec![
            Vertex { position: [-200_000, 0, 0], normal: up },
            Vertex { position: [200_000, 0, 0], normal: up },
            Vertex { position: [0, 0, -200_000], normal: up },
            Vertex { position: [0, 0, 200_000], normal: up },
        ]
    );
}
