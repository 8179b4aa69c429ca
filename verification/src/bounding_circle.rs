//! The circle on the ground that stands for a mesh when it is hit-tested.

use vstd::prelude::*;
use crate::mesh::Mesh;
use crate::scalar::{ceil_sqrt, clamp, clamped, div_floor, floor_div, UNIT};
use crate::vector::Vec2;
use crate::vertex::Vertex;

verus! {

/// A circle on the ground plane, in the frame of the mesh it was made from.
#[derive(Clone, Copy, Debug, PartialEq, Eq, Structural)]
pub struct BoundingCircle {
    /// The radius, in millionths of a world unit.
    pub r: i64,
    /// The centre.
    pub ground_pos: Vec2,
}

/// The vertices seen from above: each one's `x` and `z`.
pub open spec fn projected(vertices: Seq<Vertex>) -> Seq<Vec2> {
    Seq::new(
        vertices.len(),
        |i: int| Vec2 { x: vertices[i].position[0], y: vertices[i].position[2] },
    )
}

/// The sum of the points' `x` coordinates.
pub open spec fn sum_x(points: Seq<Vec2>) -> int
    decreases points.len(),
{
    if points.len() == 0 {
        0
    } else {
        sum_x(points.drop_last()) + points.last().x
    }
}

/// The sum of the points' `y` coordinates.
pub open spec fn sum_y(points: Seq<Vec2>) -> int
    decreases points.len(),
{
    if points.len() == 0 {
        0
    } else {
        sum_y(points.drop_last()) + points.last().y
    }
}

/// The arithmetic mean of the points, each coordinate rounded down.
pub open spec fn centroid(points: Seq<Vec2>) -> Vec2
    recommends
        points.len() > 0,
{
    Vec2 {
        x: floor_div(sum_x(points), points.len() as int) as i32,
        y: floor_div(sum_y(points), points.len() as int) as i32,
    }
}

/// The square of the greatest distance from `center` to one of the points.
pub open spec fn max_dist_sq(points: Seq<Vec2>, center: Vec2) -> int
    decreases points.len(),
{
    if points.len() == 0 {
        0
    } else {
        let rest = max_dist_sq(points.drop_last(), center);
        let d = points.last().spec_dist_sq(center);
        if d > rest {
            d
        } else {
            rest
        }
    }
}

/// Whether `r` is the distance whose square is `d_sq`, widened by a margin of
/// one fifth and rounded up: the least natural number that is at least
/// `1.2 * sqrt(d_sq)`.
pub open spec fn is_margin_radius(r: int, d_sq: int) -> bool {
    &&& r >= 0
    &&& 25 * (r * r) >= 36 * d_sq
    &&& r > 0 ==> 25 * ((r - 1) * (r - 1)) < 36 * d_sq
}

/// Whether `circle` is the bounding circle of `points`: centred on their
/// centroid, and as wide as the farthest of them with the margin added.
pub open spec fn is_bounding_circle(circle: BoundingCircle, points: Seq<Vec2>) -> bool {
    &&& points.len() > 0
    &&& circle.ground_pos == centroid(points)
    &&& is_margin_radius(circle.r as int, max_dist_sq(points, centroid(points)))
}

/// The sum of `n` coordinates lies between `n` times the least and `n` times
/// the greatest value of a coordinate.
pub proof fn lemma_sum_bounds(points: Seq<Vec2>)
    ensures
        points.len() * i32::MIN <= sum_x(points) <= points.len() * i32::MAX,
        points.len() * i32::MIN <= sum_y(points) <= points.len() * i32::MAX,
    decreases points.len(),
{
    if points.len() > 0 {
        lemma_sum_bounds(points.drop_last());
        let n = points.len() as int;
        assert((n - 1) * i32::MIN + i32::MIN == n * i32::MIN) by (nonlinear_arith);
        assert((n - 1) * i32::MAX + i32::MAX == n * i32::MAX) by (nonlinear_arith);
    }
}

/// The mean of `n > 0` values of `i32` is a value of `i32`.
pub proof fn lemma_mean_in_range(sum: int, n: int)
    requires
        n > 0,
        n * i32::MIN <= sum <= n * i32::MAX,
    ensures
        i32::MIN <= floor_div(sum, n) <= i32::MAX,
{
    let q = sum / n;
    vstd::arithmetic::div_mod::lemma_fundamental_div_mod(sum, n);
    vstd::arithmetic::div_mod::lemma_mod_bound(sum, n);
    assert(i32::MIN <= q <= i32::MAX) by (nonlinear_arith)
        requires
            n > 0,
            n * i32::MIN <= sum <= n * i32::MAX,
            sum == n * q + sum % n,
            0 <= sum % n < n,
    ;
}

/// No point is farther from `center` than the greatest distance says.
pub proof fn lemma_max_dist_sq_bounds(points: Seq<Vec2>, center: Vec2, i: int)
    requires
        0 <= i < points.len(),
    ensures
        0 <= points[i].spec_dist_sq(center) <= max_dist_sq(points, center),
    decreases points.len(),
{
    let p = points[i];
    assert(0 <= p.spec_dist_sq(center)) by (nonlinear_arith)
        requires
            p.spec_dist_sq(center) == (p.x - center.x) * (p.x - center.x) + (p.y - center.y) * (
            p.y - center.y),
    ;
    if i < points.len() - 1 {
        lemma_max_dist_sq_bounds(points.drop_last(), center, i);
    }
}

/// The margin radius of a distance is unique.
pub proof fn lemma_margin_radius_unique(r1: int, r2: int, d_sq: int)
    requires
        is_margin_radius(r1, d_sq),
        is_margin_radius(r2, d_sq),
    ensures
        r1 == r2,
{
    if r1 < r2 {
        assert(r1 * r1 <= (r2 - 1) * (r2 - 1)) by (nonlinear_arith)
            requires
                0 <= r1 <= r2 - 1,
        ;
    } else if r2 < r1 {
        assert(r2 * r2 <= (r1 - 1) * (r1 - 1)) by (nonlinear_arith)
            requires
                0 <= r2 <= r1 - 1,
        ;
    }
}

/// Every point lies within the circle, even with the margin taken off again:
/// its distance from the centre is at most `r / 1.2`.
pub proof fn lemma_containment(circle: BoundingCircle, points: Seq<Vec2>, i: int)
    requires
        is_bounding_circle(circle, points),
        0 <= i < points.len(),
    ensures
        36 * points[i].spec_dist_sq(circle.ground_pos) <= 25 * (circle.r * circle.r),
{
    lemma_max_dist_sq_bounds(points, circle.ground_pos, i);
}

/// The points' coordinates as pairs of integers.
pub open spec fn coordinates(points: Seq<Vec2>) -> Seq<(int, int)> {
    Seq::new(points.len(), |i: int| (points[i].x as int, points[i].y as int))
}

/// The image of each point under the point reflection in `center`.
pub open spec fn mirrored(points: Seq<Vec2>, center: Vec2) -> Seq<(int, int)> {
    Seq::new(
        points.len(),
        |i: int| (2 * center.x - points[i].x, 2 * center.y - points[i].y),
    )
}

/// Whether the points are symmetric about `center`: reflecting every point in
/// `center` gives the same points again, each as often as before.
pub open spec fn symmetric_about(points: Seq<Vec2>, center: Vec2) -> bool {
    coordinates(points).to_multiset() == mirrored(points, center).to_multiset()
}

/// Adds the first coordinate of a pair to a running total.
pub open spec fn add_first() -> spec_fn((int, int), int) -> int {
    |p: (int, int), total: int| total + p.0
}

/// Adds the second coordinate of a pair to a running total.
pub open spec fn add_second() -> spec_fn((int, int), int) -> int {
    |p: (int, int), total: int| total + p.1
}

proof fn lemma_fold_coordinates(points: Seq<Vec2>, bx: int, by: int)
    ensures
        coordinates(points).fold_right(add_first(), bx) == sum_x(points) + bx,
        coordinates(points).fold_right(add_second(), by) == sum_y(points) + by,
    decreases points.len(),
{
    if points.len() > 0 {
        assert(coordinates(points).drop_last() =~= coordinates(points.drop_last()));
        lemma_fold_coordinates(points.drop_last(), bx + points.last().x, by + points.last().y);
    }
}

proof fn lemma_fold_mirrored(points: Seq<Vec2>, center: Vec2, bx: int, by: int)
    ensures
        mirrored(points, center).fold_right(add_first(), bx) == points.len() * (2 * center.x)
            - sum_x(points) + bx,
        mirrored(points, center).fold_right(add_second(), by) == points.len() * (2 * center.y)
            - sum_y(points) + by,
    decreases points.len(),
{
    if points.len() > 0 {
        let n = points.len() as int;
        assert(mirrored(points, center).drop_last() =~= mirrored(points.drop_last(), center));
        lemma_fold_mirrored(
            points.drop_last(),
            center,
            bx + 2 * center.x - points.last().x,
            by + 2 * center.y - points.last().y,
        );
        assert((n - 1) * (2 * center.x) + 2 * center.x == n * (2 * center.x))
            by (nonlinear_arith);
        assert((n - 1) * (2 * center.y) + 2 * center.y == n * (2 * center.y))
            by (nonlinear_arith);
    }
}

/// The centroid of points that are symmetric about `center` is `center`,
/// exactly.
pub proof fn lemma_symmetric_centroid(points: Seq<Vec2>, center: Vec2)
    requires
        points.len() > 0,
        symmetric_about(points, center),
    ensures
        centroid(points) == center,
{
    let n = points.len() as int;
    lemma_fold_coordinates(points, 0, 0);
    lemma_fold_mirrored(points, center, 0, 0);
    assert(vstd::seq_lib::commutative_foldr(add_first()));
    assert(vstd::seq_lib::commutative_foldr(add_second()));
    vstd::seq_lib::lemma_fold_right_permutation(
        coordinates(points),
        mirrored(points, center),
        add_first(),
        0,
    );
    vstd::seq_lib::lemma_fold_right_permutation(
        coordinates(points),
        mirrored(points, center),
        add_second(),
        0,
    );
    let sx = sum_x(points);
    let sy = sum_y(points);
    assert(sx == n * center.x) by (nonlinear_arith)
        requires
            sx == n * (2 * center.x) - sx,
    ;
    assert(sy == n * center.y) by (nonlinear_arith)
        requires
            sy == n * (2 * center.y) - sy,
    ;
    vstd::arithmetic::div_mod::lemma_fundamental_div_mod_converse(sx, n, center.x as int, 0);
    vstd::arithmetic::div_mod::lemma_fundamental_div_mod_converse(sy, n, center.y as int, 0);
}

/// A full turn, in millionths of a radian.
pub const FULL_TURN: i32 = 6_283_185;

/// The angle at which point `i` of a ring of `n_segments` segments sits:
/// `i` times a full turn over `n_segments`, rounded down.
pub open spec fn ring_angle(i: int, n_segments: int) -> int
    recommends
        n_segments > 0,
{
    (i * FULL_TURN) / n_segments
}

impl BoundingCircle {
    /// The bounding circle of a mesh, or `None` for a mesh without vertices.
    pub fn from_mesh(mesh: &Mesh) -> (circle: Option<Self>)
        ensures
            circle.is_none() <==> mesh.vertices@.len() == 0,
            circle matches Some(c) ==> is_bounding_circle(c, projected(mesh.vertices@)),
            circle matches Some(c) ==> forall|i: int|
                0 <= i < mesh.vertices@.len() ==> 36 * (#[trigger] projected(
                    mesh.vertices@,
                )[i]).spec_dist_sq(c.ground_pos) <= 25 * (c.r * c.r),
    {
        let n: usize = mesh.vertices.len();
        if n == 0 {
            return None;
        }
        let ghost points = projected(mesh.vertices@);
        let mut flat: Vec<Vec2> = Vec::new();
        let mut total_x: i128 = 0;
        let mut total_y: i128 = 0;
        let mut i: usize = 0;
        while i < n
            invariant
                n == mesh.vertices@.len(),
                points == projected(mesh.vertices@),
                0 <= i <= n,
                flat@ == points.take(i as int),
                total_x == sum_x(flat@),
                total_y == sum_y(flat@),
            decreases n - i,
        {
            let v = &mesh.vertices[i];
            let p = Vec2 { x: v.position[0], y: v.position[2] };
            proof {
                lemma_sum_bounds(flat@);
                assert(i * i32::MIN >= usize::MAX * i32::MIN) by (nonlinear_arith)
                    requires
                        0 <= i <= usize::MAX,
                ;
                assert(i * i32::MAX <= usize::MAX * i32::MAX) by (nonlinear_arith)
                    requires
                        0 <= i <= usize::MAX,
                ;
                assert(points.take(i + 1).drop_last() =~= points.take(i as int));
                assert(points.take(i + 1).last() == p);
            }
            total_x = total_x + p.x as i128;
            total_y = total_y + p.y as i128;
            flat.push(p);
            i += 1;
            assert(flat@ =~= points.take(i as int));
        }
        assert(flat@ =~= points);
        proof {
            lemma_sum_bounds(points);
            lemma_mean_in_range(sum_x(points), n as int);
            lemma_mean_in_range(sum_y(points), n as int);
            assert(n * i32::MIN >= usize::MAX * i32::MIN) by (nonlinear_arith)
                requires
                    0 <= n <= usize::MAX,
            ;
            assert(n * i32::MAX <= usize::MAX * i32::MAX) by (nonlinear_arith)
                requires
                    0 <= n <= usize::MAX,
            ;
        }
        let center = Vec2 {
            x: div_floor(total_x, n as i128) as i32,
            y: div_floor(total_y, n as i128) as i32,
        };
        assert(center == centroid(points));
        let mut farthest: u128 = 0;
        let mut j: usize = 0;
        while j < n
            invariant
                n == flat@.len(),
                0 <= j <= n,
                farthest == max_dist_sq(flat@.take(j as int), center),
                farthest <= 0x2_0000_0000_0000_0000,
            decreases n - j,
        {
            let d = flat[j].dist_sq(&center);
            proof {
                assert(flat@.take(j + 1).drop_last() =~= flat@.take(j as int));
                assert(flat@.take(j + 1).last() == flat@[j as int]);
            }
            if d > farthest {
                farthest = d;
            }
            j += 1;
        }
        assert(flat@.take(n as int) =~= flat@);
        let widened: u128 = (36 * farthest + 24) / 25;
        let r = ceil_sqrt(widened);
        proof {
            let ri = r as int;
            assert(25 * (ri * ri) >= 36 * farthest);
            if ri > 0 {
                assert(25 * ((ri - 1) * (ri - 1)) < 36 * farthest);
            }
        }
        let circle = BoundingCircle { r: r as i64, ground_pos: center };
        proof {
            assert forall|k: int| 0 <= k < mesh.vertices@.len() implies 36 * (#[trigger] projected(
                mesh.vertices@,
            )[k]).spec_dist_sq(circle.ground_pos) <= 25 * (circle.r * circle.r) by {
                lemma_containment(circle, points, k);
            }
        }
        Some(circle)
    }

    /// The point of the ring that lies `extra` beyond the circle, in the
    /// direction `direction`: a vector whose `x` is the cosine and whose `y`
    /// is the sine of the point's angle. It lies on the ground and faces up.
    pub open spec fn spec_ring_vertex(self, extra: i32, direction: Vec2) -> Vertex {
        Vertex {
            position: [
                clamped(
                    self.ground_pos.x + floor_div((self.r + extra) * direction.x, UNIT as int),
                ) as i32,
                0i32,
                clamped(
                    self.ground_pos.y + floor_div((self.r + extra) * direction.y, UNIT as int),
                ) as i32,
            ],
            normal: [0i32, 1_000_000i32, 0i32],
        }
    }

    /// The point of the ring that lies `extra` beyond the circle, in the
    /// direction `direction`.
    pub fn ring_vertex(&self, extra: i32, direction: Vec2) -> (v: Vertex)
        ensures
            v == self.spec_ring_vertex(extra, direction),
    {
        let reach: i128 = self.r as i128 + extra as i128;
        assert(-0x1_0000_0000_0000_0000_0000_0000 < reach * direction.x
            < 0x1_0000_0000_0000_0000_0000_0000) by (nonlinear_arith)
            requires
                -0x1_0000_0000_0000_0000 < reach < 0x1_0000_0000_0000_0000,
                -0x1_0000_0000 < direction.x < 0x1_0000_0000,
        ;
        assert(-0x1_0000_0000_0000_0000_0000_0000 < reach * direction.y
            < 0x1_0000_0000_0000_0000_0000_0000) by (nonlinear_arith)
            requires
                -0x1_0000_0000_0000_0000 < reach < 0x1_0000_0000_0000_0000,
                -0x1_0000_0000 < direction.y < 0x1_0000_0000,
        ;
        let x = clamp(
            self.ground_pos.x as i128 + div_floor(reach * direction.x as i128, UNIT as i128),
        );
        let z = clamp(
            self.ground_pos.y as i128 + div_floor(reach * direction.y as i128, UNIT as i128),
        );
        let v = Vertex { position: [x, 0, z], normal: [0, 1_000_000, 0] };
        assert(v.position =~= self.spec_ring_vertex(extra, direction).position);
        assert(v.normal =~= self.spec_ring_vertex(extra, direction).normal);
        v
    }

    /// Whether `inner` and `outer` are the two points of the ring at `angle`:
    /// for a vector `d` that `direction` may return for `angle`, `inner` lies
    /// on the circle and `outer` lies `width` outside it, both towards `d`.
    pub open spec fn is_ring_pair<F: Fn(i32) -> Vec2>(
        self,
        direction: F,
        angle: i32,
        width: i32,
        inner: Vertex,
        outer: Vertex,
    ) -> bool {
        exists|d: Vec2|
            {
                &&& direction.ensures((angle,), d)
                &&& inner == self.spec_ring_vertex(0, d)
                &&& outer == self.spec_ring_vertex(width, d)
            }
    }

    /// The outline of the circle as a ring of width `width`, for drawing as a
    /// triangle strip: for each of the `n_segments + 1` angles a point on the
    /// circle and then one `width` outside it. The last pair sits at a full
    /// turn, so the strip closes.
    ///
    /// `direction` gives, for an angle in millionths of a radian, the vector of
    /// its cosine and sine; the strip is stated over whatever it returns.
    pub fn triangle_strip<F: Fn(i32) -> Vec2>(
        &self,
        n_segments: u32,
        width: i32,
        direction: F,
    ) -> (strip: Vec<Vertex>)
        requires
            n_segments > 0,
            forall|angle: i32| direction.requires((angle,)),
        ensures
            strip@.len() == 2 * (n_segments + 1),
            forall|i: int|
                0 <= i <= n_segments ==> #[trigger] self.is_ring_pair(
                    direction,
                    ring_angle(i, n_segments as int) as i32,
                    width,
                    strip@[2 * i],
                    strip@[2 * i + 1],
                ),
    {
        let mut strip: Vec<Vertex> = Vec::new();
        let mut i: u64 = 0;
        while i <= n_segments as u64
            invariant
                n_segments > 0,
                0 <= i <= n_segments + 1,
                forall|angle: i32| direction.requires((angle,)),
                strip@.len() == 2 * i,
                forall|k: int|
                    0 <= k < i ==> #[trigger] self.is_ring_pair(
                        direction,
                        ring_angle(k, n_segments as int) as i32,
                        width,
                        strip@[2 * k],
                        strip@[2 * k + 1],
                    ),
            decreases n_segments + 1 - i,
        {
            assert(0 <= i * 6_283_185 <= 0x1_0000_0000 * 6_283_185) by (nonlinear_arith)
                requires
                    0 <= i <= 0x1_0000_0000,
            ;
            let turned: u64 = i * 6_283_185 / (n_segments as u64);
            proof {
                assert(i * 6_283_185 <= 6_283_185 * n_segments) by (nonlinear_arith)
                    requires
                        i <= n_segments,
                ;
                vstd::arithmetic::div_mod::lemma_div_is_ordered(
                    i * 6_283_185,
                    6_283_185 * n_segments,
                    n_segments as int,
                );
                vstd::arithmetic::div_mod::lemma_div_multiples_vanish(
                    6_283_185,
                    n_segments as int,
                );
                assert(turned == ring_angle(i as int, n_segments as int));
            }
            let angle: i32 = turned as i32;
            let d = direction(angle);
            let inner = self.ring_vertex(0, d);
            let outer = self.ring_vertex(width, d);
            let ghost before = strip@;
            strip.push(inner);
            strip.push(outer);
            proof {
                assert forall|k: int| 0 <= k < i + 1 implies #[trigger] self.is_ring_pair(
                    direction,
                    ring_angle(k, n_segments as int) as i32,
                    width,
                    strip@[2 * k],
                    strip@[2 * k + 1],
                ) by {
                    if k < i {
                        assert(self.is_ring_pair(
                            direction,
                            ring_angle(k, n_segments as int) as i32,
                            width,
                            before[2 * k],
                            before[2 * k + 1],
                        ));
                        assert(strip@[2 * k] == before[2 * k]);
                        assert(strip@[2 * k + 1] == before[2 * k + 1]);
                    } else {
                        assert(strip@[2 * k] == inner);
                        assert(strip@[2 * k + 1] == outer);
                    }
                }
            }
            i += 1;
        }
        strip
    }
}

} // verus!
