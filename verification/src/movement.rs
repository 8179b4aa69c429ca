//! Orders to walk, and the steering that carries them out.
//!
//! An entity under an order first turns on the spot until it faces its
//! target, then walks straight ahead; it never does both in one frame.

use vstd::prelude::*;
use hecs::World;
use crate::scalar::{clamp, clamped, div_floor, floor_div, UNIT};
use crate::transformation::Transformation;
use crate::vector::{dist_sq, Vec2, Vec3};
use crate::world::{component_at, contents, entity_key, fetch, holders, keys_of, lemma_take_next, store, Parts};

verus! {

/// The order an entity is under: the point of the ground it shall walk to,
/// or `None` while it has none.
#[derive(Clone, Copy, Debug, PartialEq, Eq)]
pub struct Movement {
    pub target_pos: Option<Vec2>,
}

/// The distance from its target below which an entity has arrived.
pub const ARRIVAL: i32 = 500_000;

/// The difference between bearing and yaw below which an entity walks.
pub const ALIGNMENT: i32 = 100_000;

/// How far an entity walks in one frame.
pub const STRIDE: i32 = 1_000;

/// How far an entity turns in one frame.
pub const TURN: i32 = 1_000;

/// Whether an entity at `pos` is closer to `target` than [`ARRIVAL`].
pub open spec fn has_arrived(target: Vec2, pos: Vec3) -> bool {
    dist_sq(target.x as int, target.y as int, pos.x as int, pos.z as int) < ARRIVAL * ARRIVAL
}

/// Whether an entity with the yaw `yaw` faces `bearing` closely enough to
/// walk.
pub open spec fn is_aligned(bearing: i32, yaw: i32) -> bool {
    -ALIGNMENT < bearing - yaw < ALIGNMENT
}

/// `placement` one stride further along `facing`, the vector of the cosine
/// and the sine of its yaw: `x` grows with the cosine, `z` falls with the
/// sine.
pub open spec fn walked(placement: Transformation, facing: Vec2) -> Transformation {
    Transformation {
        pos: Vec3 {
            x: clamped(placement.pos.x + floor_div(facing.x * STRIDE, UNIT as int)) as i32,
            y: placement.pos.y,
            z: clamped(placement.pos.z + floor_div(-facing.y * STRIDE, UNIT as int)) as i32,
        },
        ..placement
    }
}

/// `placement` turned by [`TURN`] towards `bearing`.
pub open spec fn turned(placement: Transformation, bearing: i32) -> Transformation {
    Transformation {
        rotation: clamped(
            placement.rotation + if bearing > placement.rotation {
                TURN as int
            } else {
                -TURN
            },
        ) as i32,
        ..placement
    }
}

/// The two numbers whose `atan2` is the bearing from `pos` to `target`:
/// first the `z` that lies behind, then the `x` that lies ahead.
pub open spec fn bearing_of(target: Vec2, pos: Vec3) -> (i64, i64) {
    ((pos.z - target.y) as i64, (target.x - pos.x) as i64)
}

/// What one frame of steering makes of `before` under `order`, for an
/// entity that was told that its target lies towards `towards` and that the
/// cosine and sine of its own yaw are `ahead`: it stays as it is without an
/// order or once it has arrived; else it walks if it faces the target
/// closely enough, and turns if it does not.
pub open spec fn steered(
    before: Transformation,
    order: Movement,
    towards: i32,
    ahead: Vec2,
) -> Transformation {
    match order.target_pos {
        Some(target) => if has_arrived(target, before.pos) {
            before
        } else if is_aligned(towards, before.rotation) {
            walked(before, ahead)
        } else {
            turned(before, towards)
        },
        None => before,
    }
}

/// Whether `after` is what one frame of steering makes of `before`, given
/// what `bearing` and `facing` may return.
///
/// Nothing changes for an entity without an order or without a placement,
/// nor for one that has arrived. Any other entity asks `bearing` for the
/// direction of its target. If it faces that closely enough, it asks
/// `facing` for the cosine and sine of its yaw and walks one stride;
/// otherwise it turns towards the target.
pub open spec fn is_steered<B: Fn(i64, i64) -> i32, F: Fn(i32) -> Vec2>(
    before: Transformation,
    order: Movement,
    after: Transformation,
    bearing: B,
    facing: F,
) -> bool {
    match order.target_pos {
        Some(target) => if has_arrived(target, before.pos) {
            after == before
        } else {
            exists|towards: i32|
                {
                    &&& #[trigger] bearing.ensures(bearing_of(target, before.pos), towards)
                    &&& is_aligned(towards, before.rotation) ==> exists|ahead: Vec2| #[trigger]
                        facing.ensures((before.rotation,), ahead) && after == walked(before, ahead)
                    &&& !is_aligned(towards, before.rotation) ==> after == turned(before, towards)
                }
        },
        None => after == before,
    }
}

/// What `frames` frames of steering make of `before` under `order`, for an
/// entity that is told the same `towards` and `ahead` in every frame.
pub open spec fn steered_for(
    before: Transformation,
    order: Movement,
    towards: i32,
    ahead: Vec2,
    frames: nat,
) -> Transformation
    decreases frames,
{
    if frames == 0 {
        before
    } else {
        steered(
            steered_for(before, order, towards, ahead, (frames - 1) as nat),
            order,
            towards,
            ahead,
        )
    }
}

/// The number of strides that take an entity over `gap`, the distance to a
/// target straight ahead, to where it has arrived.
pub open spec fn strides_needed(gap: int) -> nat {
    if gap < ARRIVAL {
        0
    } else {
        ((gap - ARRIVAL) / (STRIDE as int) + 1) as nat
    }
}

/// An entity that faces along `x` and has its target straight ahead, and is
/// told so in every frame (the target lies towards the angle zero; cosine
/// and sine of the yaw are one and zero), walks towards it by one stride a
/// frame, never turns or leaves its line, never passes the target, and has
/// arrived after [`strides_needed`] frames, where it stays. That number is
/// at most one more than the strides that fit into the distance.
pub proof fn lemma_walks_to_target_ahead(start: Transformation, target: Vec2, frames: nat)
    requires
        start.rotation == 0,
        target.y == start.pos.z,
        target.x >= start.pos.x,
    ensures
        ({
            let order = Movement { target_pos: Some(target) };
            let ahead = Vec2 { x: UNIT, y: 0 };
            let needed = strides_needed(target.x - start.pos.x);
            let walked = if frames < needed {
                frames
            } else {
                needed
            };
            let end = steered_for(start, order, 0, ahead, frames);
            &&& end == Transformation {
                pos: Vec3 { x: (start.pos.x + walked * STRIDE) as i32, ..start.pos },
                ..start
            }
            &&& end.pos.x <= target.x
            &&& frames >= needed ==> has_arrived(target, end.pos)
            &&& needed * STRIDE <= target.x - start.pos.x + STRIDE
        }),
    decreases frames,
{
    let order = Movement { target_pos: Some(target) };
    let ahead = Vec2 { x: UNIT, y: 0 };
    let gap = target.x - start.pos.x;
    let needed = strides_needed(gap);
    if gap >= ARRIVAL {
        vstd::arithmetic::div_mod::lemma_fundamental_div_mod(gap - ARRIVAL, STRIDE as int);
        vstd::arithmetic::div_mod::lemma_mod_bound(gap - ARRIVAL, STRIDE as int);
    }
    if frames == 0 {
        if needed == 0 {
            assert(gap * gap < ARRIVAL * ARRIVAL) by (nonlinear_arith)
                requires
                    0 <= gap < ARRIVAL,
            ;
        }
    } else {
        let earlier = (frames - 1) as nat;
        lemma_walks_to_target_ahead(start, target, earlier);
        let prev = steered_for(start, order, 0, ahead, earlier);
        let left = target.x - prev.pos.x;
        if earlier >= needed {
            assert(steered(prev, order, 0, ahead) == prev);
        } else {
            assert(left >= ARRIVAL);
            assert(left * left >= ARRIVAL * ARRIVAL) by (nonlinear_arith)
                requires
                    left >= ARRIVAL,
            ;
            assert(!has_arrived(target, prev.pos));
            assert(is_aligned(0, prev.rotation));
            assert(floor_div(ahead.x * STRIDE, UNIT as int) == 1_000);
            assert(floor_div(-ahead.y * STRIDE, UNIT as int) == 0);
            let next = steered(prev, order, 0, ahead);
            assert(next.pos.x == prev.pos.x + STRIDE);
            if frames >= needed {
                let rest = target.x - next.pos.x;
                assert(rest * rest < ARRIVAL * ARRIVAL) by (nonlinear_arith)
                    requires
                        0 <= rest < ARRIVAL,
                ;
            }
        }
    }
}

impl Movement {
    /// Whether the entity at `pos` still has a way to go: it is under an
    /// order and has not arrived.
    pub fn is_under_way(&self, pos: &Vec3) -> (under_way: bool)
        ensures
            under_way == match self.target_pos {
                Some(target) => !has_arrived(target, *pos),
                None => false,
            },
    {
        match self.target_pos {
            Some(target) => {
                let far = target.dist_sq(&pos.xz());
                assert(dist_sq(target.x as int, target.y as int, pos.x as int, pos.z as int)
                    == target.spec_dist_sq(pos.spec_xz()));
                far >= 250_000_000_000
            },
            None => false,
        }
    }
}

impl Transformation {
    /// Walks one stride along `facing`.
    pub fn walk(&mut self, facing: Vec2)
        ensures
            *final(self) == walked(*old(self), facing),
    {
        let ahead: i128 = div_floor(facing.x as i128 * 1_000, 1_000_000);
        let aside: i128 = div_floor(-(facing.y as i128) * 1_000, 1_000_000);
        self.pos = Vec3 {
            x: clamp(self.pos.x as i128 + ahead),
            y: self.pos.y,
            z: clamp(self.pos.z as i128 + aside),
        };
    }

    /// Turns by [`TURN`] towards `bearing`.
    pub fn turn(&mut self, bearing: i32)
        ensures
            *final(self) == turned(*old(self), bearing),
    {
        let step: i128 = if bearing > self.rotation { 1_000 } else { -1_000 };
        self.rotation = clamp(self.rotation as i128 + step);
    }

    /// Whether `self` faces `bearing` closely enough to walk.
    pub fn is_aligned(&self, bearing: i32) -> (aligned: bool)
        ensures
            aligned == is_aligned(bearing, self.rotation),
    {
        let off: i64 = bearing as i64 - self.rotation as i64;
        -100_000 < off && off < 100_000
    }

    /// One frame of steering under `order`, for an entity that was told
    /// that its target lies towards `towards` and that the cosine and sine
    /// of its own yaw are `ahead`.
    pub fn steer(&mut self, order: &Movement, towards: i32, ahead: Vec2)
        ensures
            *final(self) == steered(*old(self), *order, towards, ahead),
    {
        if order.is_under_way(&self.pos) {
            if self.is_aligned(towards) {
                self.walk(ahead);
            } else {
                self.turn(towards);
            }
        }
    }
}

/// The components of an entity after one frame of steering, given what
/// `bearing` and `facing` may return: an entity that has an order and a
/// placement is steered, and nothing else changes.
pub open spec fn is_moved<B: Fn(i64, i64) -> i32, F: Fn(i32) -> Vec2>(
    before: Parts,
    after: Parts,
    bearing: B,
    facing: F,
) -> bool {
    match (before.movement, before.transformation, after.transformation) {
        (Some(order), Some(placement), Some(next)) => {
            &&& is_steered(placement, order, next, bearing, facing)
            &&& after == Parts { transformation: Some(next), ..before }
        },
        (Some(_), Some(_), None) => false,
        _ => after == before,
    }
}

/// Steers every entity that has an order and a placement by one frame.
///
/// `bearing` gives the `atan2` of two numbers and `facing` the vector of the
/// cosine and sine of an angle, all in millionths. `bearing` is asked only
/// for entities that are under way, `facing` only for those that walk; the
/// world is stated over whatever they return.
pub fn movement_system<B: Fn(i64, i64) -> i32, F: Fn(i32) -> Vec2>(
    world: &mut World,
    bearing: B,
    facing: F,
)
    requires
        forall|y: i64, x: i64| bearing.requires((y, x)),
        forall|angle: i32| facing.requires((angle,)),
    ensures
        contents(*final(world)).dom() == contents(*old(world)).dom(),
        forall|key: u64|
            contents(*old(world)).contains_key(key) ==> is_moved(
                contents(*old(world))[key],
                #[trigger] contents(*final(world))[key],
                bearing,
                facing,
            ),
{
    let entities = holders::<Movement>(world);
    let ghost before = contents(*world);
    let ghost keys = keys_of(entities@);
    assert(keys.take(0) =~= Seq::<u64>::empty());
    let mut i: usize = 0;
    while i < entities.len()
        invariant
            0 <= i <= entities.len(),
            keys == keys_of(entities@),
            keys.no_duplicates(),
            forall|y: i64, x: i64| bearing.requires((y, x)),
            forall|angle: i32| facing.requires((angle,)),
            forall|key: u64|
                keys.contains(key) <==> (#[trigger] component_at::<Movement>(
                    *old(world),
                    key,
                )).is_some(),
            before == contents(*old(world)),
            contents(*world).dom() == before.dom(),
            forall|key: u64|
                before.contains_key(key) ==> if keys.take(i as int).contains(key) {
                    is_moved(before[key], #[trigger] contents(*world)[key], bearing, facing)
                } else {
                    contents(*world)[key] == before[key]
                },
        decreases entities.len() - i,
    {
        let entity = entities[i];
        let ghost key = entity_key(entity);
        let ghost during = contents(*world);
        proof {
            assert(keys[i as int] == key);
            assert(keys.contains(key));
            assert(component_at::<Movement>(*old(world), key).is_some());
            lemma_take_next(keys, i as int);
            assert(during[key] == before[key]);
        }
        match (fetch::<Movement>(world, entity), fetch::<Transformation>(world, entity)) {
            (Some(order), Some(placement)) => {
                let mut next = placement;
                if order.is_under_way(&placement.pos) {
                    let target = order.target_pos.unwrap();
                    let behind: i64 = placement.pos.z as i64 - target.y as i64;
                    let ahead: i64 = target.x as i64 - placement.pos.x as i64;
                    let towards = bearing(behind, ahead);
                    assert(bearing.ensures(bearing_of(target, placement.pos), towards));
                    if next.is_aligned(towards) {
                        let along = facing(placement.rotation);
                        next.walk(along);
                        assert(facing.ensures((placement.rotation,), along) && next == walked(
                            placement,
                            along,
                        ));
                    } else {
                        next.turn(towards);
                    }
                    assert(is_steered(placement, order, next, bearing, facing));
                }
                store(world, entity, next);
                assert(is_moved(before[key], contents(*world)[key], bearing, facing));
            },
            _ => {},
        }
        proof {
            assert(contents(*world).dom() =~= before.dom());
            assert forall|other: u64| before.contains_key(other) implies if keys.take(
                i + 1,
            ).contains(other) {
                is_moved(before[other], #[trigger] contents(*world)[other], bearing, facing)
            } else {
                contents(*world)[other] == before[other]
            } by {
                if other != key {
                    assert(contents(*world)[other] == during[other]);
                }
            }
        }
        i += 1;
    }
    proof {
        assert(keys.take(entities.len() as int) =~= keys);
        assert forall|key: u64| before.contains_key(key) implies is_moved(
            before[key],
            #[trigger] contents(*world)[key],
            bearing,
            facing,
        ) by {
            if !keys.contains(key) {
                assert(!component_at::<Movement>(*old(world), key).is_some());
            }
        }
    }
}

} // verus!
