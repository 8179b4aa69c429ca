//! Entities that the cursor can hover over and a click can select.

use vstd::prelude::*;
use hecs::{Entity, World};
use crate::bounding_circle::BoundingCircle;
use crate::mouse::Cursor;
use crate::scalar::{clamp, clamped, div_floor, floor_div, UNIT};
use crate::transformation::Transformation;
use crate::vector::{dist_sq, Vec2, Vec3};
use crate::world::{
    changed_so_far, component_at, contents, entity_key, fetch, holders, keys_of, lemma_changed_all,
    lemma_changed_next, lemma_changed_none, store, Parts,
};

verus! {

/// What makes an entity selectable, and whether it is.
#[derive(Clone, Copy, Debug, PartialEq, Eq, Structural)]
pub struct Selectable {
    /// Set by a click, and kept until a click clears it.
    pub selected: bool,
    /// Whether the cursor lay within the entity's circle when last looked at.
    pub hover: bool,
    /// The circle that stands for the entity, in the frame of its mesh.
    pub bounding_circle: BoundingCircle,
}

/// The ring that is drawn around an entity to show that it is hovered over
/// or selected.
#[derive(Clone, Copy, Debug, PartialEq, Eq, Structural)]
pub struct Ring {
    /// How many segments the ring is made of.
    pub n_segments: u32,
    /// How wide the ring is, in the frame of the mesh.
    pub width: i32,
    /// The colour of the ring: red, green and blue, in millionths.
    pub color: Vec3,
    /// Where the ring is drawn: at the entity, a little above the ground.
    pub origin: Vec3,
}

/// The number of segments of every ring.
pub const RING_SEGMENTS: u32 = 24;

/// The width of a ring in the world, before the scale is taken out.
pub const RING_WIDTH: i32 = 100_000;

/// The height above the ground at which rings are drawn.
pub const RING_LIFT: i32 = 100_000;

/// The colour of the ring around an entity that the cursor hovers over.
pub open spec fn hover_color() -> Vec3 {
    Vec3 { x: 100_000, y: 100_000, z: 700_000 }
}

/// The colour of the ring around an entity that is only selected.
pub open spec fn selected_color() -> Vec3 {
    Vec3 { x: 100_000, y: 100_000, z: 100_000 }
}

/// The ring to draw around an entity: none unless it is hovered over or
/// selected, and none for an entity without size. Its width is
/// [`RING_WIDTH`] over the scale, rounded down, so that it looks equally
/// wide around entities of any size; hovering decides the colour. It is
/// drawn where the entity stands, [`RING_LIFT`] above the ground.
pub open spec fn ring_of(selectable: Selectable, placement: Transformation) -> Option<Ring> {
    if (selectable.hover || selectable.selected) && placement.scale != 0 {
        Some(
            Ring {
                n_segments: RING_SEGMENTS,
                width: clamped(floor_div(RING_WIDTH * UNIT, placement.scale as int)) as i32,
                color: if selectable.hover {
                    hover_color()
                } else {
                    selected_color()
                },
                origin: Vec3 { x: placement.pos.x, y: RING_LIFT, z: placement.pos.z },
            },
        )
    } else {
        None
    }
}

/// The radius that `circle` has in the world when placed by `placement`: its
/// own radius times the scale. Both factors count millionths, so this counts
/// millionths of a millionth.
pub open spec fn world_reach(circle: BoundingCircle, placement: Transformation) -> int {
    circle.r * placement.scale
}

/// The `x` of the centre that `circle` has in the world when placed by
/// `placement`.
pub open spec fn world_center_x(circle: BoundingCircle, placement: Transformation) -> int {
    circle.ground_pos.x + placement.pos.x
}

/// The `z` of the centre that `circle` has in the world when placed by
/// `placement`.
pub open spec fn world_center_z(circle: BoundingCircle, placement: Transformation) -> int {
    circle.ground_pos.y + placement.pos.z
}

/// Whether `point` lies strictly inside `circle` as placed by `placement`:
/// its distance from the centre in the world is less than the radius in the
/// world. Stated on squares, with both sides brought to the same unit.
pub open spec fn covers(circle: BoundingCircle, placement: Transformation, point: Vec2) -> bool {
    let reach = world_reach(circle, placement);
    &&& reach > 0
    &&& (UNIT * UNIT) * dist_sq(
        world_center_x(circle, placement),
        world_center_z(circle, placement),
        point.x as int,
        point.y as int,
    ) < reach * reach
}

/// Whether two placed circles have no point in common: one of them is empty,
/// or their centres are at least the sum of their radii apart.
pub open spec fn apart(
    first: BoundingCircle,
    first_placement: Transformation,
    second: BoundingCircle,
    second_placement: Transformation,
) -> bool {
    let p = world_reach(first, first_placement);
    let q = world_reach(second, second_placement);
    ||| p <= 0
    ||| q <= 0
    ||| (UNIT * UNIT) * dist_sq(
        world_center_x(first, first_placement),
        world_center_z(first, first_placement),
        world_center_x(second, second_placement),
        world_center_z(second, second_placement),
    ) >= (p + q) * (p + q)
}

/// If two vectors `(ax, ay)` and `(bx, by)`, scaled by `u`, are shorter than
/// `p` and `q`, then their sum, scaled by `u`, is shorter than `p + q`.
proof fn lemma_triangle(ax: int, ay: int, bx: int, by: int, u: int, p: int, q: int)
    requires
        p > 0,
        q > 0,
        u * u * (ax * ax + ay * ay) < p * p,
        u * u * (bx * bx + by * by) < q * q,
    ensures
        u * u * ((ax + bx) * (ax + bx) + (ay + by) * (ay + by)) < (p + q) * (p + q),
{
    let a2 = ax * ax + ay * ay;
    let b2 = bx * bx + by * by;
    let dot = ax * bx + ay * by;
    let w = u * u;
    let big_a = w * a2;
    let big_b = w * b2;
    let big_d = w * dot;
    assert(a2 >= 0 && b2 >= 0 && w >= 0) by (nonlinear_arith)
        requires
            a2 == ax * ax + ay * ay,
            b2 == bx * bx + by * by,
            w == u * u,
    ;
    let xx = ax * bx;
    let yy = ay * by;
    let xy = ax * by;
    let yx = ay * bx;
    let cross = xy - yx;
    assert((ax * ax) * (bx * bx) == xx * xx) by (nonlinear_arith)
        requires
            xx == ax * bx,
    ;
    assert((ay * ay) * (by * by) == yy * yy) by (nonlinear_arith)
        requires
            yy == ay * by,
    ;
    assert((ax * ax) * (by * by) == xy * xy) by (nonlinear_arith)
        requires
            xy == ax * by,
    ;
    assert((ay * ay) * (bx * bx) == yx * yx) by (nonlinear_arith)
        requires
            yx == ay * bx,
    ;
    assert(xx * yy == xy * yx) by (nonlinear_arith)
        requires
            xx == ax * bx,
            yy == ay * by,
            xy == ax * by,
            yx == ay * bx,
    ;
    assert(a2 * b2 == (ax * ax) * (bx * bx) + (ax * ax) * (by * by) + (ay * ay) * (bx * bx) + (ay
        * ay) * (by * by)) by (nonlinear_arith)
        requires
            a2 == ax * ax + ay * ay,
            b2 == bx * bx + by * by,
    ;
    assert(dot * dot == xx * xx + 2 * (xx * yy) + yy * yy) by (nonlinear_arith)
        requires
            dot == xx + yy,
    ;
    assert(cross * cross == xy * xy - 2 * (xy * yx) + yx * yx) by (nonlinear_arith)
        requires
            cross == xy - yx,
    ;
    assert(cross * cross >= 0) by (nonlinear_arith);
    assert(dot * dot <= a2 * b2);
    let ww = w * w;
    assert(big_d * big_d == ww * (dot * dot)) by (nonlinear_arith)
        requires
            big_d == w * dot,
            ww == w * w,
    ;
    assert(big_a * big_b == ww * (a2 * b2)) by (nonlinear_arith)
        requires
            big_a == w * a2,
            big_b == w * b2,
            ww == w * w,
    ;
    assert(ww >= 0) by (nonlinear_arith)
        requires
            ww == w * w,
    ;
    vstd::arithmetic::mul::lemma_mul_inequality(dot * dot, a2 * b2, ww);
    vstd::arithmetic::mul::lemma_mul_is_commutative(dot * dot, ww);
    vstd::arithmetic::mul::lemma_mul_is_commutative(a2 * b2, ww);
    assert(big_d * big_d <= big_a * big_b);
    assert(big_a >= 0 && big_b >= 0) by (nonlinear_arith)
        requires
            big_a == w * a2,
            big_b == w * b2,
            a2 >= 0,
            b2 >= 0,
            w >= 0,
    ;
    let pp = p * p;
    let qq = q * q;
    let pq = p * q;
    assert(big_a * big_b < pp * qq) by (nonlinear_arith)
        requires
            0 <= big_a < pp,
            0 <= big_b < qq,
    ;
    assert(pp * qq == pq * pq) by (nonlinear_arith)
        requires
            pp == p * p,
            qq == q * q,
            pq == p * q,
    ;
    assert(pq > 0) by (nonlinear_arith)
        requires
            pq == p * q,
            p > 0,
            q > 0,
    ;
    assert(big_d < pq) by (nonlinear_arith)
        requires
            big_d * big_d < pq * pq,
            pq > 0,
    ;
    assert((ax + bx) * (ax + bx) == ax * ax + 2 * xx + bx * bx) by (nonlinear_arith)
        requires
            xx == ax * bx,
    ;
    assert((ay + by) * (ay + by) == ay * ay + 2 * yy + by * by) by (nonlinear_arith)
        requires
            yy == ay * by,
    ;
    let sum2 = (ax + bx) * (ax + bx) + (ay + by) * (ay + by);
    assert(sum2 == a2 + b2 + 2 * dot);
    assert(w * sum2 == w * a2 + w * b2 + 2 * (w * dot)) by (nonlinear_arith)
        requires
            sum2 == a2 + b2 + 2 * dot,
    ;
    assert(w * sum2 == big_a + big_b + 2 * big_d);
    assert((p + q) * (p + q) == pp + qq + 2 * pq) by (nonlinear_arith)
        requires
            pp == p * p,
            qq == q * q,
            pq == p * q,
    ;
}

/// A point cannot lie inside both of two circles that have no point in
/// common: of two entities that stand apart, the cursor hovers over at most
/// one.
pub proof fn lemma_hover_exclusive(
    first: BoundingCircle,
    first_placement: Transformation,
    second: BoundingCircle,
    second_placement: Transformation,
    point: Vec2,
)
    requires
        apart(first, first_placement, second, second_placement),
    ensures
        !(covers(first, first_placement, point) && covers(second, second_placement, point)),
{
    if covers(first, first_placement, point) && covers(second, second_placement, point) {
        let p = world_reach(first, first_placement);
        let q = world_reach(second, second_placement);
        let ax = world_center_x(first, first_placement) - point.x;
        let ay = world_center_z(first, first_placement) - point.y;
        let bx = point.x - world_center_x(second, second_placement);
        let by = point.y - world_center_z(second, second_placement);
        assert((point.x - world_center_x(second, second_placement)) * (point.x - world_center_x(
            second,
            second_placement,
        )) == (world_center_x(second, second_placement) - point.x) * (world_center_x(
            second,
            second_placement,
        ) - point.x)) by (nonlinear_arith);
        assert((point.y - world_center_z(second, second_placement)) * (point.y - world_center_z(
            second,
            second_placement,
        )) == (world_center_z(second, second_placement) - point.y) * (world_center_z(
            second,
            second_placement,
        ) - point.y)) by (nonlinear_arith);
        lemma_triangle(ax, ay, bx, by, UNIT as int, p, q);
    }
}

impl Selectable {
    pub fn new(bounding_circle: BoundingCircle) -> (s: Self)
        ensures
            s == (Selectable { selected: false, hover: false, bounding_circle }),
    {
        Selectable { selected: false, hover: false, bounding_circle }
    }

    /// The ring to draw around an entity that stands as `placement` says.
    pub fn ring(&self, placement: &Transformation) -> (ring: Option<Ring>)
        ensures
            ring == ring_of(*self, *placement),
    {
        if (self.hover || self.selected) && placement.scale != 0 {
            let color = if self.hover {
                Vec3 { x: 100_000, y: 100_000, z: 700_000 }
            } else {
                Vec3 { x: 100_000, y: 100_000, z: 100_000 }
            };
            Some(
                Ring {
                    n_segments: 24,
                    width: clamp(div_floor(100_000_000_000, placement.scale as i128)),
                    color,
                    origin: Vec3 { x: placement.pos.x, y: 100_000, z: placement.pos.z },
                },
            )
        } else {
            None
        }
    }

    /// Whether `point` lies inside the circle of an entity that stands as
    /// `placement` says.
    pub fn covers(&self, placement: &Transformation, point: Vec2) -> (inside: bool)
        ensures
            inside == covers(self.bounding_circle, *placement, point),
    {
        let radius: i128 = self.bounding_circle.r as i128;
        let scale: i128 = placement.scale as i128;
        assert(-0x1_0000_0000_0000_0000_0000_0000 <= radius * scale
            <= 0x1_0000_0000_0000_0000_0000_0000) by (nonlinear_arith)
            requires
                -0x1_0000_0000_0000_0000 <= radius <= 0x1_0000_0000_0000_0000,
                -0x1_0000_0000 <= scale <= 0x1_0000_0000,
        ;
        let reach: i128 = radius * scale;
        if reach <= 0 {
            return false;
        }
        let dx: i128 = self.bounding_circle.ground_pos.x as i128 + placement.pos.x as i128
            - point.x as i128;
        let dz: i128 = self.bounding_circle.ground_pos.y as i128 + placement.pos.z as i128
            - point.y as i128;
        assert(0 <= dx * dx <= 0x2_0000_0000 * 0x2_0000_0000) by (nonlinear_arith)
            requires
                -0x2_0000_0000 <= dx <= 0x2_0000_0000,
        ;
        assert(0 <= dz * dz <= 0x2_0000_0000 * 0x2_0000_0000) by (nonlinear_arith)
            requires
                -0x2_0000_0000 <= dz <= 0x2_0000_0000,
        ;
        let far: i128 = dx * dx + dz * dz;
        assert(0 <= 1_000_000_000_000 * far <= 1_000_000_000_000 * 0x8_0000_0000_0000_0000)
            by (nonlinear_arith)
            requires
                0 <= far <= 0x8_0000_0000_0000_0000,
        ;
        let scaled: i128 = 1_000_000_000_000 * far;
        assert(UNIT * UNIT == 1_000_000_000_000) by (nonlinear_arith);
        assert(reach == world_reach(self.bounding_circle, *placement));
        if reach >= 0x40_0000_0000_0000 {
            assert(reach * reach >= 0x40_0000_0000_0000 * 0x40_0000_0000_0000)
                by (nonlinear_arith)
                requires
                    reach >= 0x40_0000_0000_0000,
            ;
            return true;
        }
        assert(0 <= reach * reach <= 0x40_0000_0000_0000 * 0x40_0000_0000_0000)
            by (nonlinear_arith)
            requires
                0 <= reach <= 0x40_0000_0000_0000,
        ;
        scaled < reach * reach
    }
}

/// The components of an entity after the cursor, at `point`, was held
/// against it: an entity that is selectable and has a placement hovers
/// exactly if its circle covers `point`; nothing else changes.
pub open spec fn hover_marked(parts: Parts, point: Vec2) -> Parts {
    match (parts.selectable, parts.transformation) {
        (Some(selectable), Some(placement)) => Parts {
            selectable: Some(
                Selectable {
                    hover: covers(selectable.bounding_circle, placement, point),
                    ..selectable
                },
            ),
            ..parts
        },
        _ => parts,
    }
}

/// Recomputes `hover` for every selectable entity that has a placement, from
/// where the cursor is on the ground. If `cursor_entity` is no cursor, the
/// world stays as it is.
pub fn select_system(world: &mut World, cursor_entity: Entity)
    ensures
        match component_at::<Cursor>(*old(world), entity_key(cursor_entity)) {
            Some(cursor) => contents(*final(world)) == contents(*old(world)).map_values(
                |parts: Parts| hover_marked(parts, cursor.position.spec_xz()),
            ),
            None => contents(*final(world)) == contents(*old(world)),
        },
{
    let cursor = match fetch::<Cursor>(world, cursor_entity) {
        Some(cursor) => cursor,
        None => {
            return ;
        },
    };
    let point = cursor.position.xz();
    let ghost asked = *world;
    let entities = holders::<Selectable>(world);
    let ghost before = contents(*world);
    let ghost keys = keys_of(entities@);
    let ghost change = |parts: Parts| hover_marked(parts, point);
    proof {
        lemma_changed_none(before, keys, change);
        assert forall|key: u64|
            keys.contains(key) <==> (#[trigger] component_at::<Selectable>(
                *old(world),
                key,
            )).is_some() by {
            assert(component_at::<Selectable>(asked, key) == component_at::<Selectable>(
                *old(world),
                key,
            ));
        }
    }
    let mut i: usize = 0;
    while i < entities.len()
        invariant
            0 <= i <= entities.len(),
            keys == keys_of(entities@),
            keys.no_duplicates(),
            change == |parts: Parts| hover_marked(parts, point),
            forall|key: u64|
                keys.contains(key) <==> (#[trigger] component_at::<Selectable>(
                    *old(world),
                    key,
                )).is_some(),
            before == contents(*old(world)),
            contents(*world) == changed_so_far(before, keys, i as int, change),
        decreases entities.len() - i,
    {
        let entity = entities[i];
        proof {
            assert(keys[i as int] == entity_key(entity));
            assert(keys.contains(entity_key(entity)));
            assert(component_at::<Selectable>(*old(world), entity_key(entity)).is_some());
            lemma_changed_next(before, keys, i as int, change);
        }
        let selectable = fetch::<Selectable>(world, entity);
        let placement = fetch::<Transformation>(world, entity);
        match (selectable, placement) {
            (Some(selectable), Some(placement)) => {
                let marked = Selectable {
                    selected: selectable.selected,
                    hover: selectable.covers(&placement, point),
                    bounding_circle: selectable.bounding_circle,
                };
                store(world, entity, marked);
            },
            _ => {
                assert(contents(*world) =~= contents(*world).insert(
                    entity_key(entity),
                    before[entity_key(entity)],
                ));
            },
        }
        i += 1;
    }
    proof {
        assert forall|key: u64|
            before.contains_key(key) && !keys.contains(key) implies change(
            #[trigger] before[key],
        ) == before[key] by {
            assert(!component_at::<Selectable>(*old(world), key).is_some());
        }
        lemma_changed_all(before, keys, change);
    }
}

} // verus!
