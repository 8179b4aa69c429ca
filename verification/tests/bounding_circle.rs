use topdown::bounding_circle::{BoundingCircle, FULL_TURN};
use topdown::mesh::Mesh;
use topdown::vector::{Vec2, Vec3};
use topdown::vertex::Vertex;

const UP: [i32; 3] = [0, 1_000_000, 0];

fn vertex(x: i32, y: i32, z: i32) -> Vertex {
    Vertex { position: [x, y, z], normal: UP }
}

fn mesh(vertices: Vec<Vertex>) -> Mesh {
    Mesh { color: Vec3::new(0, 0, 0), vertices }
}

fn direction(angle: i32) -> Vec2 {
    let radians = angle as f64 / 1_000_000.0;
    Vec2::new(
        (radians.cos() * 1_000_000.0).round() as i32,
        (radians.sin() * 1_000_000.0).round() as i32,
    )
}

fn dist_sq(a: Vec2, b: Vec2) -> i128 {
    let dx = a.x as i128 - b.x as i128;
    let dy = a.y as i128 - b.y as i128;
    dx * dx + dy * dy
}

#[test]
fn square_mesh_has_its_middle_as_center() {
    let square = mesh(vec![
        vertex(0, 0, 0),
        vertex(2_000_000, 0, 0),
        vertex(0, 0, 2_000_000),
        vertex(2_000_000, 0, 2_000_000),
    ]);
    let circle = BoundingCircle::from_mesh(&square).unwrap();
    assert_eq!(circle.ground_pos, Vec2::new(1_000_000, 1_000_000));
    assert_eq!(circle.r, 1_697_057);
    let as_float = circle.r as f64 / 1_000_000.0;
    assert!((as_float - 2.0_f64.sqrt() * 1.2).abs() < 1e-6);
}

#[test]
fn mesh_without_vertices_has_no_circle() {
    assert_eq!(BoundingCircle::from_mesh(&mesh(vec![])), None);
}

#[test]
fn single_vertex_gives_a_circle_without_size() {
    let circle = BoundingCircle::from_mesh(&mesh(vec![vertex(3, 99, -4)])).unwrap();
    assert_eq!(circle, BoundingCircle { r: 0, ground_pos: Vec2::new(3, -4) });
}

#[test]
fn height_plays_no_part() {
    let flat = mesh(vec![vertex(0, 0, 0), vertex(10, 0, 0)]);
    let tall = mesh(vec![vertex(0, -500, 0), vertex(10, 7_000_000, 0)]);
    assert_eq!(BoundingCircle::from_mesh(&flat), BoundingCircle::from_mesh(&tall));
}

#[test]
fn symmetric_points_have_their_center_of_symmetry_as_centroid() {
    let center = Vec2::new(-7, 13);
    let offsets = [(5, 1), (-5, -1), (0, 40), (0, -40), (123_456, -654_321), (-123_456, 654_321)];
    let vertices = offsets.iter().map(|(dx, dz)| vertex(center.x + dx, 1, center.y + dz)).collect();
    let circle = BoundingCircle::from_mesh(&mesh(vertices)).unwrap();
    assert_eq!(circle.ground_pos, center);
}

#[test]
fn centroid_rounds_down() {
    let circle = BoundingCircle::from_mesh(&mesh(vec![vertex(0, 0, 0), vertex(1, 0, -1)])).unwrap();
    assert_eq!(circle.ground_pos, Vec2::new(0, -1));
}

#[test]
fn radius_is_the_farthest_distance_with_a_fifth_added() {
    let line = mesh(vec![vertex(-500_000, 0, 0), vertex(500_000, 0, 0)]);
    let circle = BoundingCircle::from_mesh(&line).unwrap();
    assert_eq!(circle.ground_pos, Vec2::new(0, 0));
    assert_eq!(circle.r, 600_000);
}

#[test]
fn radius_rounds_up() {
    let line = mesh(vec![vertex(0, 0, 0), vertex(2, 0, 0)]);
    let circle = BoundingCircle::from_mesh(&line).unwrap();
    assert_eq!(circle.ground_pos, Vec2::new(1, 0));
    assert_eq!(circle.r, 2);
}

#[test]
fn every_vertex_lies_within_the_radius_without_its_margin() {
    let vertices = vec![
        vertex(1_234_567, 0, -7_654_321),
        vertex(-9_000_000, 5, 3),
        vertex(44, -3, 8_100_000),
        vertex(2_000_000_000, 0, -2_000_000_000),
        vertex(-2_147_483_648, 0, 2_147_483_647),
    ];
    let circle = BoundingCircle::from_mesh(&mesh(vertices.clone())).unwrap();
    for v in vertices {
        let d = dist_sq(Vec2::new(v.position[0], v.position[2]), circle.ground_pos);
        assert!(36 * d <= 25 * (circle.r as i128) * (circle.r as i128));
    }
}

#[test]
fn extreme_vertices_do_not_overflow() {
    let vertices = vec![vertex(i32::MIN, 0, i32::MIN), vertex(i32::MAX, 0, i32::MAX)];
    let circle = BoundingCircle::from_mesh(&mesh(vertices)).unwrap();
    assert_eq!(circle.ground_pos, Vec2::new(-1, -1));
    assert_eq!(circle.r, 3_644_400_600);
}

#[test]
fn ring_vertex_lies_on_the_ground_and_faces_up() {
    let circle = BoundingCircle { r: 2_000_000, ground_pos: Vec2::new(1_000_000, -1_000_000) };
    let v = circle.ring_vertex(500_000, Vec2::new(600_000, -800_000));
    assert_eq!(v, Vertex { position: [2_500_000, 0, -3_000_000], normal: UP });
}

#[test]
fn ring_vertex_rounds_down() {
    let circle = BoundingCircle { r: 1, ground_pos: Vec2::new(0, 0) };
    let v = circle.ring_vertex(0, Vec2::new(500_000, -500_000));
    assert_eq!(v.position, [0, 0, -1]);
}

#[test]
fn ring_vertex_saturates() {
    let circle = BoundingCircle { r: i64::MAX, ground_pos: Vec2::new(0, 0) };
    let v = circle.ring_vertex(i32::MAX, Vec2::new(1_000_000, -1_000_000));
    assert_eq!(v.position, [i32::MAX, 0, i32::MIN]);
}

#[test]
fn strip_alternates_inner_and_outer_points() {
    let circle = BoundingCircle { r: 1_000_000, ground_pos: Vec2::new(0, 0) };
    let strip = circle.triangle_strip(4, 250_000, direction);
    assert_eq!(strip.len(), 10);
    assert_eq!(strip[0].position, [1_000_000, 0, 0]);
    assert_eq!(strip[1].position, [1_250_000, 0, 0]);
    for i in 0..5 {
        let angle = (i as i64 * FULL_TURN as i64 / 4) as i32;
        let d = direction(angle);
        assert_eq!(strip[2 * i], circle.ring_vertex(0, d));
        assert_eq!(strip[2 * i + 1], circle.ring_vertex(250_000, d));
        assert_eq!(strip[2 * i].normal, UP);
    }
}

#[test]
fn strip_puts_point_i_at_i_full_turns_over_n() {
    let circle = BoundingCircle { r: 1_000_000, ground_pos: Vec2::new(0, 0) };
    let strip = circle.triangle_strip(4, 0, |angle| Vec2::new(angle, -angle));
    let angles: Vec<i32> = (0..5).map(|i| strip[2 * i].position[0]).collect();
    assert_eq!(angles, vec![0, 1_570_796, 3_141_592, 4_712_388, 6_283_185]);
    assert_eq!(strip[3].position, [1_570_796, 0, -1_570_796]);
}

#[test]
fn strip_closes() {
    let circle = BoundingCircle { r: 3_000_000, ground_pos: Vec2::new(5_000_000, -2_000_000) };
    let strip = circle.triangle_strip(24, 100_000, direction);
    assert_eq!(strip.len(), 50);
    for k in 0..2 {
        let first = strip[k].position;
        let last = strip[48 + k].position;
        assert!((first[0] - last[0]).abs() <= 2);
        assert!((first[2] - last[2]).abs() <= 2);
    }
}

#[test]
fn strip_of_one_segment_has_two_pairs() {
    let circle = BoundingCircle { r: 1_000_000, ground_pos: Vec2::new(0, 0) };
    let strip = circle.triangle_strip(1, 1, |angle| Vec2::new(angle, 0));
    assert_eq!(strip.len(), 4);
    assert_eq!(strip[0].position[0], 0);
    assert_eq!(strip[2].position[0], FULL_TURN);
}

#[test]
fn strip_takes_the_largest_segment_count_in_its_stride() {
    let circle = BoundingCircle { r: 0, ground_pos: Vec2::new(0, 0) };
    let strip = circle.triangle_strip(1000, 0, direction);
    assert_eq!(strip.len(), 2002);
}
