//! Trusted interface to the entity-component store.
//!
//! The store is `bevy_ecs::world::World`. Verified code never looks inside a
//! `World`; instead the uninterpreted functions below give each world a
//! mathematical model, and a small set of wrappers state, over that model,
//! what the store operations the reconciler relies on do.
//!
//! The model, entity by entity:
//! - `world_live(w)` is the set of ids (`Entity::to_bits` values) of the
//!   entities currently alive in `w`.
//! - `world_seen(w)` is the set of ids that `w` has handed out at any time;
//!   it only ever grows, and a fresh spawn is outside it.
//! - `comp_map(w, e)` maps the id of each component present on `e` to that
//!   component's current value, abstracted as bytes. The two bookkeeping
//!   components that the hierarchy layer maintains (`Parent`, `Children`)
//!   are excluded: their ids form `world_hier(w)`, and no payload may use
//!   them.
//! - `kid_list(w, e)` is the ordered child list that the hierarchy layer
//!   reports for `e` (the contents of its `Children` component).
//!
//! The contracts assume that the components the reconciler manages carry no
//! user-registered hooks or observers; `bevy_hierarchy`'s own components
//! have none.

use vstd::prelude::*;

verus! {

#[verifier::external_type_specification]
#[verifier::external_body]
pub struct ExWorld(bevy_ecs::world::World);

/// Ids of the entities currently alive in `w`.
pub uninterp spec fn world_live(w: bevy_ecs::world::World) -> Set<u64>;

/// Ids that `w` has ever handed out. A despawned index is reallocated only
/// with its generation incremented, so an id never recurs.
pub uninterp spec fn world_seen(w: bevy_ecs::world::World) -> Set<u64>;

/// The components present on entity `e`: component id to value bytes,
/// hierarchy bookkeeping components excluded. Empty when `e` is not alive.
pub uninterp spec fn comp_map(w: bevy_ecs::world::World, e: u64) -> Map<usize, Seq<u8>>;

/// The ordered child list of entity `e`; empty when it has none.
pub uninterp spec fn kid_list(w: bevy_ecs::world::World, e: u64) -> Seq<u64>;

/// The empty component map, for entities that carry nothing.
pub open spec fn no_comps() -> Map<usize, Seq<u8>> {
    Map::empty()
}

/// The component ids of the hierarchy layer's own bookkeeping components.
pub uninterp spec fn world_hier(w: bevy_ecs::world::World) -> Set<usize>;

/// Whether world `w` knows the id `x`: it was handed out at some time, or
/// names an entity alive now.
pub open spec fn known(w: bevy_ecs::world::World, x: u64) -> bool {
    world_seen(w).contains(x) || world_live(w).contains(x)
}

/// Everything the model says of `w0` still holds in `w1` for the entities
/// outside `except`, as far as they were known to `w0`; ids are never
/// reissued and the hierarchy bookkeeping ids are fixed. The child list of a
/// bystander is pinned only when it points at no entity in `except` and at
/// nothing unknown to `w0`; a list that does name such an entity may be
/// rewritten under it by the hierarchy layer.
pub open spec fn preserved_outside(
    w0: bevy_ecs::world::World,
    w1: bevy_ecs::world::World,
    except: Set<u64>,
) -> bool {
    &&& world_seen(w0).subset_of(world_seen(w1))
    &&& world_hier(w1) == world_hier(w0)
    &&& forall|x: u64|
        known(w0, x) && !except.contains(x) ==> #[trigger] world_live(w1).contains(x)
            == world_live(w0).contains(x)
    &&& forall|x: u64|
        known(w0, x) && !except.contains(x) ==> #[trigger] comp_map(w1, x) == comp_map(w0, x)
    &&& forall|x: u64|
        known(w0, x) && !except.contains(x) && (forall|y: u64|
            #[trigger] kid_list(w0, x).to_set().contains(y) ==> known(w0, y)
                && !except.contains(y)) ==> #[trigger] kid_list(w1, x) == kid_list(w0, x)
}

/// Relies on `World::spawn_empty`: allocates a new empty entity. The
/// `Entities` allocator reuses a freed index only after incrementing its
/// generation, so the returned id differs from every id this world has
/// handed out before, and the entity starts with no components and no
/// children. The generation counter's wrap-around — which the store itself
/// logs as possible aliasing, after four billion reuses of one index — is
/// disregarded here.
#[verifier::external_body]
pub(crate) fn spawn_empty(w: &mut bevy_ecs::world::World) -> (r: u64)
    ensures
        !world_seen(*old(w)).contains(r),
        !world_live(*old(w)).contains(r),
        world_seen(*final(w)) == world_seen(*old(w)).insert(r),
        world_live(*final(w)) == world_live(*old(w)).insert(r),
        comp_map(*final(w), r) == no_comps(),
        kid_list(*final(w), r) == Seq::<u64>::empty(),
        forall|x: u64| x != r ==> #[trigger] comp_map(*final(w), x) == comp_map(*old(w), x),
        forall|x: u64| x != r ==> #[trigger] kid_list(*final(w), x) == kid_list(*old(w), x),
        world_hier(*final(w)) == world_hier(*old(w)),
{
    w.spawn_empty().id().to_bits()
}

/// Relies on `World::get_entity`: `Ok` exactly when the entity is alive.
#[verifier::external_body]
pub(crate) fn is_live(w: &bevy_ecs::world::World, e: u64) -> (r: bool)
    ensures
        r == world_live(*w).contains(e),
{
    match bevy_ecs::entity::Entity::try_from_bits(e) {
        Ok(entity) => w.get_entity(entity).is_ok(),
        Err(_) => false,
    }
}

/// Relies on `World::despawn`: removes the entity and everything on it. No
/// other entity is touched; in particular a child list elsewhere that still
/// names `e` keeps the dangling entry.
#[verifier::external_body]
pub(crate) fn despawn(w: &mut bevy_ecs::world::World, e: u64)
    requires
        world_live(*old(w)).contains(e),
    ensures
        world_live(*final(w)) == world_live(*old(w)).remove(e),
        world_seen(*final(w)) == world_seen(*old(w)),
        comp_map(*final(w), e) == no_comps(),
        kid_list(*final(w), e) == Seq::<u64>::empty(),
        forall|x: u64| x != e ==> #[trigger] comp_map(*final(w), x) == comp_map(*old(w), x),
        forall|x: u64| x != e ==> #[trigger] kid_list(*final(w), x) == kid_list(*old(w), x),
        world_hier(*final(w)) == world_hier(*old(w)),
{
    w.despawn(bevy_ecs::entity::Entity::from_bits(e));
}

/// Relies on `EntityRef::contains_id`: whether a component with this id is
/// present on the entity.
#[verifier::external_body]
pub(crate) fn has_component(w: &bevy_ecs::world::World, e: u64, id: usize) -> (r: bool)
    requires
        world_live(*w).contains(e),
        !world_hier(*w).contains(id),
    ensures
        r == comp_map(*w, e).dom().contains(id),
{
    match w.get_entity(bevy_ecs::entity::Entity::from_bits(e)) {
        Ok(entity) => entity.contains_id(bevy_ecs::component::ComponentId::new(id)),
        Err(_) => false,
    }
}

/// Relies on `EntityWorldMut::remove_by_id`: removes that one component from
/// the entity and nothing else.
#[verifier::external_body]
pub(crate) fn remove_component(w: &mut bevy_ecs::world::World, e: u64, id: usize)
    requires
        world_live(*old(w)).contains(e),
        comp_map(*old(w), e).dom().contains(id),
    ensures
        world_live(*final(w)) == world_live(*old(w)),
        world_seen(*final(w)) == world_seen(*old(w)),
        comp_map(*final(w), e) == comp_map(*old(w), e).remove(id),
        forall|x: u64| x != e ==> #[trigger] comp_map(*final(w), x) == comp_map(*old(w), x),
        forall|x: u64| #[trigger] kid_list(*final(w), x) == kid_list(*old(w), x),
        world_hier(*final(w)) == world_hier(*old(w)),
{
    w.entity_mut(bevy_ecs::entity::Entity::from_bits(e))
        .remove_by_id(bevy_ecs::component::ComponentId::new(id));
}

/// Relies on `EntityWorldMut::take::<Children>`: detaches the entity's child
/// list. The former children are not touched (their `Parent` entries stay
/// behind, which the hierarchy layer tolerates and `add_children` repairs).
#[verifier::external_body]
pub(crate) fn take_children(w: &mut bevy_ecs::world::World, e: u64)
    requires
        world_live(*old(w)).contains(e),
    ensures
        world_live(*final(w)) == world_live(*old(w)),
        world_seen(*final(w)) == world_seen(*old(w)),
        kid_list(*final(w), e) == Seq::<u64>::empty(),
        forall|x: u64| x != e ==> #[trigger] kid_list(*final(w), x) == kid_list(*old(w), x),
        forall|x: u64| #[trigger] comp_map(*final(w), x) == comp_map(*old(w), x),
        world_hier(*final(w)) == world_hier(*old(w)),
{
    let _detached = w.entity_mut(bevy_ecs::entity::Entity::from_bits(e))
        .take::<bevy_hierarchy::prelude::Children>();
}

/// Relies on `BuildChildren::add_children` on an entity with no child list:
/// the entity's child list becomes exactly `kids`, in order, and each listed
/// child now has this entity as parent. A listed child is removed from the
/// child list of its former parent, so a bystander's list is pinned only
/// when it shares no entry with `kids`; nothing else is touched, and only
/// hierarchy bookkeeping components change.
#[verifier::external_body]
pub(crate) fn add_children(w: &mut bevy_ecs::world::World, e: u64, kids: &Vec<u64>)
    requires
        world_live(*old(w)).contains(e),
        kid_list(*old(w), e) == Seq::<u64>::empty(),
        kids@.no_duplicates(),
        forall|i: int| 0 <= i < kids@.len() ==> world_live(*old(w)).contains(#[trigger] kids@[i]),
        forall|i: int| 0 <= i < kids@.len() ==> kids@[i] != e,
    ensures
        world_live(*final(w)) == world_live(*old(w)),
        world_seen(*final(w)) == world_seen(*old(w)),
        kid_list(*final(w), e) == kids@,
        forall|x: u64|
            x != e && (#[trigger] kid_list(*old(w), x)).to_set().disjoint(kids@.to_set())
                ==> kid_list(*final(w), x) == kid_list(*old(w), x),
        forall|x: u64| #[trigger] comp_map(*final(w), x) == comp_map(*old(w), x),
        world_hier(*final(w)) == world_hier(*old(w)),
{
    let entities: Vec<bevy_ecs::entity::Entity> =
        kids.iter().map(|b| bevy_ecs::entity::Entity::from_bits(*b)).collect();
    bevy_hierarchy::prelude::BuildChildren::add_children(
        &mut w.entity_mut(bevy_ecs::entity::Entity::from_bits(e)),
        &entities,
    );
}

} // verus!
