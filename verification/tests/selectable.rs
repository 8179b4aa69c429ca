use hecs::World;
use topdown::bounding_circle::BoundingCircle;
use topdown::mouse::Cursor;
use topdown::movement::Movement;
use topdown::selectable::{select_system, Ring, Selectable};
use topdown::transformation::Transformation;
use topdown::vector::{Vec2, Vec3};

fn circle(r: i64, x: i32, z: i32) -> BoundingCircle {
    BoundingCircle { r, ground_pos: Vec2::new(x, z) }
}

fn at(x: i32, z: i32, scale: i32) -> Transformation {
    Transformation::new(Vec3::new(x, 0, z), 0, scale)
}

#[test]
fn new_selectable_is_neither_selected_nor_hovered() {
    let c = circle(5, 1, 2);
    assert_eq!(Selectable::new(c), Selectable { selected: false, hover: false, bounding_circle: c });
}

#[test]
fn covers_points_closer_than_the_radius() {
    let s = Selectable::new(circle(1_000_000, 0, 0));
    let t = at(0, 0, 1_000_000);
    assert!(s.covers(&t, Vec2::new(0, 0)));
    assert!(s.covers(&t, Vec2::new(999_999, 0)));
    assert!(s.covers(&t, Vec2::new(-600_000, 799_999)));
}

#[test]
fn does_not_cover_points_on_the_rim_or_beyond() {
    let s = Selectable::new(circle(1_000_000, 0, 0));
    let t = at(0, 0, 1_000_000);
    assert!(!s.covers(&t, Vec2::new(1_000_000, 0)));
    assert!(!s.covers(&t, Vec2::new(600_000, -800_000)));
    assert!(!s.covers(&t, Vec2::new(0, 1_000_001)));
}

#[test]
fn circle_moves_with_the_entity_and_grows_with_its_scale() {
    let s = Selectable::new(circle(1_000_000, 500_000, -500_000));
    let t = at(10_000_000, 20_000_000, 200_000);
    assert!(s.covers(&t, Vec2::new(10_500_000, 19_500_000)));
    assert!(s.covers(&t, Vec2::new(10_699_999, 19_500_000)));
    assert!(!s.covers(&t, Vec2::new(10_700_000, 19_500_000)));
    assert!(!s.covers(&t, Vec2::new(0, 0)));
}

#[test]
fn height_of_the_entity_plays_no_part_in_hovering() {
    let s = Selectable::new(circle(1_000_000, 0, 0));
    let t = Transformation::new(Vec3::new(0, 77_000_000, 0), 3, 1_000_000);
    assert!(s.covers(&t, Vec2::new(1, 1)));
}

#[test]
fn empty_circles_cover_nothing() {
    let here = Vec2::new(0, 0);
    assert!(!Selectable::new(circle(0, 0, 0)).covers(&at(0, 0, 1_000_000), here));
    assert!(!Selectable::new(circle(1_000_000, 0, 0)).covers(&at(0, 0, 0), here));
    assert!(!Selectable::new(circle(-1, 0, 0)).covers(&at(0, 0, 1_000_000), here));
    assert!(!Selectable::new(circle(1_000_000, 0, 0)).covers(&at(0, 0, -1_000_000), here));
}

#[test]
fn two_negative_factors_make_a_circle() {
    let s = Selectable::new(circle(-1_000_000, 0, 0));
    assert!(s.covers(&at(0, 0, -1_000_000), Vec2::new(999_999, 0)));
}

#[test]
fn covers_at_the_ends_of_the_range() {
    let s = Selectable::new(circle(i64::MAX, i32::MAX, i32::MAX));
    let t = at(i32::MAX, i32::MAX, i32::MAX);
    assert!(s.covers(&t, Vec2::new(i32::MIN, i32::MIN)));
    let small = Selectable::new(circle(1, i32::MAX, i32::MAX));
    assert!(!small.covers(&t, Vec2::new(i32::MIN, i32::MIN)));
}

#[test]
fn circles_apart_are_never_hovered_together() {
    let first = Selectable::new(circle(1_000_000, 0, 0));
    let second = Selectable::new(circle(1_000_000, 0, 0));
    let first_at = at(-1_000_000, 0, 1_000_000);
    let second_at = at(1_000_000, 0, 1_000_000);
    let mut over_first = 0;
    let mut over_second = 0;
    for x in -25..=25 {
        for z in -12..=12 {
            let point = Vec2::new(x * 100_000, z * 100_000);
            let a = first.covers(&first_at, point);
            let b = second.covers(&second_at, point);
            assert!(!(a && b));
            over_first += a as u32;
            over_second += b as u32;
        }
    }
    assert!(over_first > 0);
    assert_eq!(over_first, over_second);
}

#[test]
fn no_ring_unless_hovered_or_selected() {
    let s = Selectable::new(circle(1_000_000, 0, 0));
    assert_eq!(s.ring(&at(0, 0, 1_000_000)), None);
}

#[test]
fn ring_of_a_hovered_entity_is_blue() {
    let s = Selectable { selected: false, hover: true, bounding_circle: circle(1, 0, 0) };
    let blue = Vec3::new(100_000, 100_000, 700_000);
    assert_eq!(
        s.ring(&at(0, 0, 1_000_000)),
        Some(Ring { n_segments: 24, width: 100_000, color: blue, origin: Vec3::new(0, 100_000, 0) })
    );
    let both = Selectable { selected: true, hover: true, bounding_circle: circle(1, 0, 0) };
    assert_eq!(both.ring(&at(0, 0, 1_000_000)).unwrap().color, blue);
}

#[test]
fn ring_of_a_selected_entity_is_dark() {
    let s = Selectable { selected: true, hover: false, bounding_circle: circle(1, 0, 0) };
    assert_eq!(
        s.ring(&at(0, 0, 1_000_000)),
        Some(Ring {
            n_segments: 24,
            width: 100_000,
            color: Vec3::new(100_000, 100_000, 100_000),
            origin: Vec3::new(0, 100_000, 0),
        })
    );
}

#[test]
fn ring_is_wider_in_the_frame_of_a_smaller_entity() {
    let s = Selectable { selected: true, hover: false, bounding_circle: circle(1, 0, 0) };
    assert_eq!(s.ring(&at(0, 0, 200_000)).unwrap().width, 500_000);
    assert_eq!(s.ring(&at(0, 0, 3_000_000)).unwrap().width, 33_333);
    assert_eq!(s.ring(&at(0, 0, -3_000_000)).unwrap().width, -33_334);
    assert_eq!(s.ring(&at(0, 0, 1)).unwrap().width, i32::MAX);
}

#[test]
fn entity_without_size_has_no_ring() {
    let s = Selectable { selected: true, hover: true, bounding_circle: circle(1, 0, 0) };
    assert_eq!(s.ring(&at(0, 0, 0)), None);
}

#[test]
fn select_system_marks_what_the_cursor_is_over() {
    let mut world = World::new();
    let c = circle(1_000_000, 0, 0);
    let near = world.spawn((Selectable::new(c), at(500_000, 0, 1_000_000)));
    let far = world.spawn((
        Selectable { selected: true, hover: true, bounding_circle: c },
        at(5_000_000, 0, 1_000_000),
    ));
    let cursor = world.spawn((Cursor { position: Vec3::new(0, 0, 0) },));
    select_system(&mut world, cursor);
    assert_eq!(
        *world.get::<&Selectable>(near).unwrap(),
        Selectable { selected: false, hover: true, bounding_circle: c }
    );
    assert_eq!(
        *world.get::<&Selectable>(far).unwrap(),
        Selectable { selected: true, hover: false, bounding_circle: c }
    );
    assert_eq!(*world.get::<&Transformation>(near).unwrap(), at(500_000, 0, 1_000_000));
    assert_eq!(*world.get::<&Cursor>(cursor).unwrap(), Cursor { position: Vec3::new(0, 0, 0) });
}

#[test]
fn select_system_follows_the_cursor() {
    let mut world = World::new();
    let c = circle(1_000_000, 0, 0);
    let left = world.spawn((Selectable::new(c), at(-5_000_000, 0, 200_000)));
    let right = world.spawn((Selectable::new(c), at(5_000_000, 0, 200_000)));
    let cursor = world.spawn((Cursor { position: Vec3::new(-5_100_000, 9, 0) },));
    select_system(&mut world, cursor);
    assert!(world.get::<&Selectable>(left).unwrap().hover);
    assert!(!world.get::<&Selectable>(right).unwrap().hover);
    world.get::<&mut Cursor>(cursor).unwrap().position = Vec3::new(5_000_000, 0, 199_999);
    select_system(&mut world, cursor);
    assert!(!world.get::<&Selectable>(left).unwrap().hover);
    assert!(world.get::<&Selectable>(right).unwrap().hover);
}

#[test]
fn select_system_uses_the_ground_under_a_raised_cursor() {
    let mut world = World::new();
    let e = world.spawn((Selectable::new(circle(1_000_000, 0, 0)), at(0, 0, 1_000_000)));
    let cursor = world.spawn((Cursor { position: Vec3::new(0, 50_000_000, 0) },));
    select_system(&mut world, cursor);
    assert!(world.get::<&Selectable>(e).unwrap().hover);
}

#[test]
fn select_system_skips_entities_without_a_placement() {
    let mut world = World::new();
    let c = circle(1_000_000, 0, 0);
    let stale = Selectable { selected: false, hover: true, bounding_circle: c };
    let unplaced = world.spawn((stale,));
    let cursor = world.spawn((Cursor { position: Vec3::new(90_000_000, 0, 0) },));
    select_system(&mut world, cursor);
    assert_eq!(*world.get::<&Selectable>(unplaced).unwrap(), stale);
}

#[test]
fn select_system_without_a_cursor_changes_nothing() {
    let mut world = World::new();
    let c = circle(1_000_000, 0, 0);
    let stale = Selectable { selected: true, hover: true, bounding_circle: c };
    let e = world.spawn((stale, at(50_000_000, 0, 1_000_000)));
    let no_cursor = world.spawn((Movement { target_pos: None },));
    select_system(&mut world, no_cursor);
    assert_eq!(*world.get::<&Selectable>(e).unwrap(), stale);
    world.despawn(no_cursor).unwrap();
    select_system(&mut world, no_cursor);
    assert_eq!(*world.get::<&Selectable>(e).unwrap(), stale);
}

#[test]
fn overlapping_circles_are_hovered_together() {
    let mut world = World::new();
    let c = circle(1_000_000, 0, 0);
    let a = world.spawn((Selectable::new(c), at(-100_000, 0, 1_000_000)));
    let b = world.spawn((Selectable::new(c), at(100_000, 0, 1_000_000)));
    let cursor = world.spawn((Cursor { position: Vec3::new(0, 0, 0) },));
    select_system(&mut world, cursor);
    assert!(world.get::<&Selectable>(a).unwrap().hover);
    assert!(world.get::<&Selectable>(b).unwrap().hover);
}

#[test]
fn ring_is_drawn_where_the_entity_stands() {
    let s = Selectable { selected: true, hover: false, bounding_circle: circle(1, 9, 9) };
    let t = Transformation::new(Vec3::new(-3_000_000, 8_000_000, 4_000_000), 5, 1_000_000);
    assert_eq!(s.ring(&t).unwrap().origin, Vec3::new(-3_000_000, 100_000, 4_000_000));
}
