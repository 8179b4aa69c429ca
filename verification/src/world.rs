//! The entity store, and what the scene logic reads and writes in it.
//!
//! Entities live in a `hecs::World`. The logic of this crate only ever looks
//! at five kinds of component; [`contents`] is the world seen through them.
//! Every access goes through the world's exclusive borrow, so none of them
//! depends on a borrow that was taken at run time and never given back.

use vstd::prelude::*;
use hecs::{Entity, World};
use crate::camera::Camera;
use crate::mouse::Cursor;
use crate::movement::Movement;
use crate::selectable::Selectable;
use crate::transformation::Transformation;

verus! {

#[verifier::external_type_specification]
#[verifier::external_body]
pub struct ExWorld(World);

#[verifier::external_type_specification]
#[verifier::external_body]
pub struct ExEntity(Entity);

/// The components of one entity that the scene logic knows, each `None`
/// where the entity has no component of that type.
pub struct Parts {
    pub transformation: Option<Transformation>,
    pub selectable: Option<Selectable>,
    pub movement: Option<Movement>,
    pub cursor: Option<Cursor>,
    pub camera: Option<Camera>,
}

/// What the world holds: for the key of each live entity, its components.
pub uninterp spec fn contents(world: World) -> Map<u64, Parts>;

/// The number that identifies an entity: the bits that `Entity::to_bits`
/// gives for it.
pub uninterp spec fn entity_key(entity: Entity) -> u64;

/// A type of component that [`Parts`] has a place for.
///
/// What this crate says of the world rests on these two functions: for each
/// type they name the place of that type in [`Parts`], and no other.
pub trait Part: Sized {
    /// The component of this type among `parts`.
    spec fn of(parts: Parts) -> Option<Self>;

    /// `parts` with `value` in the place of this type.
    spec fn put(parts: Parts, value: Self) -> Parts;
}

impl Part for Transformation {
    open spec fn of(parts: Parts) -> Option<Self> {
        parts.transformation
    }

    open spec fn put(parts: Parts, value: Self) -> Parts {
        Parts { transformation: Some(value), ..parts }
    }
}

impl Part for Selectable {
    open spec fn of(parts: Parts) -> Option<Self> {
        parts.selectable
    }

    open spec fn put(parts: Parts, value: Self) -> Parts {
        Parts { selectable: Some(value), ..parts }
    }
}

impl Part for Movement {
    open spec fn of(parts: Parts) -> Option<Self> {
        parts.movement
    }

    open spec fn put(parts: Parts, value: Self) -> Parts {
        Parts { movement: Some(value), ..parts }
    }
}

impl Part for Cursor {
    open spec fn of(parts: Parts) -> Option<Self> {
        parts.cursor
    }

    open spec fn put(parts: Parts, value: Self) -> Parts {
        Parts { cursor: Some(value), ..parts }
    }
}

impl Part for Camera {
    open spec fn of(parts: Parts) -> Option<Self> {
        parts.camera
    }

    open spec fn put(parts: Parts, value: Self) -> Parts {
        Parts { camera: Some(value), ..parts }
    }
}

/// The component of type `T` that the entity with the key `key` has in
/// `world`, or `None` if there is no such entity or it has none.
pub open spec fn component_at<T: Part>(world: World, key: u64) -> Option<T> {
    if contents(world).contains_key(key) {
        T::of(contents(world)[key])
    } else {
        None
    }
}

/// The keys of the entities in `entities`, in the same order.
pub open spec fn keys_of(entities: Seq<Entity>) -> Seq<u64> {
    entities.map_values(|entity: Entity| entity_key(entity))
}

/// `Entity::to_bits`: the number that identifies `entity`.
#[verifier::external_body]
pub(crate) fn key_of(entity: Entity) -> (key: u64)
    ensures
        key == entity_key(entity),
{
    entity.to_bits().get()
}

/// `World::query_mut` for `&T`, iterated: the entities that have a component
/// of type `T`, each of them once, in whatever order the world yields them.
/// The world stays as it is.
#[verifier::external_body]
pub(crate) fn holders<T: Part + Send + Sync + 'static>(world: &mut World) -> (entities: Vec<Entity>)
    ensures
        contents(*final(world)) == contents(*old(world)),
        keys_of(entities@).no_duplicates(),
        forall|key: u64|
            keys_of(entities@).contains(key) <==> (#[trigger] component_at::<T>(
                *old(world),
                key,
            )).is_some(),
{
    world.query_mut::<&T>().into_iter().map(|(entity, _)| entity).collect()
}

/// `World::query_one_mut` for `&T`: a copy of the component of type `T` that
/// `entity` has, or `None` if the entity is not alive or has no such
/// component. The world stays as it is.
#[verifier::external_body]
pub(crate) fn fetch<T: Part + Copy + Send + Sync + 'static>(
    world: &mut World,
    entity: Entity,
) -> (value: Option<T>)
    ensures
        contents(*final(world)) == contents(*old(world)),
        value == component_at::<T>(*old(world), entity_key(entity)),
{
    world.query_one_mut::<&T>(entity).ok().map(|component| *component)
}

/// `World::query_one_mut` for `&mut T`, written through: replaces the
/// component of type `T` that `entity` has by `value`, and changes nothing
/// else.
#[verifier::external_body]
pub(crate) fn store<T: Part + Send + Sync + 'static>(world: &mut World, entity: Entity, value: T)
    requires
        component_at::<T>(*old(world), entity_key(entity)).is_some(),
    ensures
        contents(*final(world)) == contents(*old(world)).insert(
            entity_key(entity),
            T::put(contents(*old(world))[entity_key(entity)], value),
        ),
{
    *world.query_one_mut::<&mut T>(entity).unwrap() = value;
}

/// The world `before` after the entities with the first `done` of `keys`
/// were changed by `change`, each on its own.
pub open spec fn changed_so_far(
    before: Map<u64, Parts>,
    keys: Seq<u64>,
    done: int,
    change: spec_fn(Parts) -> Parts,
) -> Map<u64, Parts> {
    Map::new(
        |key: u64| before.contains_key(key),
        |key: u64|
            if keys.take(done).contains(key) {
                change(before[key])
            } else {
                before[key]
            },
    )
}

/// Before any entity was changed, the world is as it was.
pub proof fn lemma_changed_none(
    before: Map<u64, Parts>,
    keys: Seq<u64>,
    change: spec_fn(Parts) -> Parts,
)
    ensures
        changed_so_far(before, keys, 0, change) == before,
{
    assert(keys.take(0) =~= Seq::<u64>::empty());
    assert(changed_so_far(before, keys, 0, change) =~= before);
}

/// Taking one more of `keys` adds that key to those taken, and it was not
/// among them before.
pub proof fn lemma_take_next(keys: Seq<u64>, done: int)
    requires
        keys.no_duplicates(),
        0 <= done < keys.len(),
    ensures
        !keys.take(done).contains(keys[done]),
        forall|key: u64|
            #[trigger] keys.take(done + 1).contains(key) <==> keys.take(done).contains(key) || key
                == keys[done],
{
    let last = keys[done];
    let now = keys.take(done);
    let next = keys.take(done + 1);
    assert(next =~= now.push(last));
    assert(!now.contains(last)) by {
        if now.contains(last) {
            let j = choose|j: int| 0 <= j < now.len() && #[trigger] now[j] == last;
            assert(keys[j] == keys[done]);
        }
    }
    assert forall|key: u64| #[trigger] next.contains(key) <==> now.contains(key) || key
        == last by {
        if next.contains(key) {
            let j = choose|j: int| 0 <= j < next.len() && #[trigger] next[j] == key;
            if j < done {
                assert(now[j] == key);
            }
        }
        if now.contains(key) {
            let j = choose|j: int| 0 <= j < now.len() && #[trigger] now[j] == key;
            assert(next[j] == key);
        }
        if key == last {
            assert(next[done] == key);
        }
    }
}

/// Changing the next entity is one insertion, and that entity was untouched
/// until then.
pub proof fn lemma_changed_next(
    before: Map<u64, Parts>,
    keys: Seq<u64>,
    done: int,
    change: spec_fn(Parts) -> Parts,
)
    requires
        keys.no_duplicates(),
        0 <= done < keys.len(),
        before.contains_key(keys[done]),
    ensures
        changed_so_far(before, keys, done, change)[keys[done]] == before[keys[done]],
        changed_so_far(before, keys, done + 1, change) == changed_so_far(
            before,
            keys,
            done,
            change,
        ).insert(keys[done], change(before[keys[done]])),
{
    lemma_take_next(keys, done);
    assert(changed_so_far(before, keys, done + 1, change) =~= changed_so_far(
        before,
        keys,
        done,
        change,
    ).insert(keys[done], change(before[keys[done]])));
}

/// Once every key was taken, and `change` leaves alone the entities that
/// are not among the keys, the whole world is changed by `change`.
pub proof fn lemma_changed_all(
    before: Map<u64, Parts>,
    keys: Seq<u64>,
    change: spec_fn(Parts) -> Parts,
)
    requires
        forall|key: u64|
            before.contains_key(key) && !keys.contains(key) ==> change(#[trigger] before[key])
                == before[key],
    ensures
        changed_so_far(before, keys, keys.len() as int, change) == before.map_values(change),
{
    assert(keys.take(keys.len() as int) =~= keys);
    assert(changed_so_far(before, keys, keys.len() as int, change) =~= before.map_values(
        change,
    ));
}

} // verus!
