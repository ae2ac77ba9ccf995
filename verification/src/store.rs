//! The trusted boundary to the entity store.
//!
//! The store is a `bevy_ecs::world::World`: an outside collection that the
//! formatter only reads, never mutates. Verus cannot look inside it, so its
//! observable contents are given names (`has_entity`, `name_of`,
//! `children_of`, `components_of`), and each read the formatter makes goes
//! through a small wrapper whose contract speaks over those names. The
//! rendering logic itself is verified against these contracts.

use vstd::prelude::*;

use bevy_core::Name;
use bevy_ecs::entity::Entity;
use bevy_ecs::world::World;
use bevy_hierarchy::Children;
use disqualified::ShortName;

verus! {

/// The outside entity store type, `bevy_ecs::world::World`, opaque to Verus.
#[verifier::external_type_specification]
#[verifier::external_body]
pub struct ExWorld(World);

/// The outside entity id type, `bevy_ecs::entity::Entity`, opaque to Verus.
#[verifier::external_type_specification]
#[verifier::external_body]
pub struct ExEntity(Entity);

/// Whether the store holds a (live) entity under this id.
pub uninterp spec fn has_entity(w: &World, e: Entity) -> bool;

/// The display string of the `Name` attached to an entity, if any.
pub uninterp spec fn name_of(w: &World, e: Entity) -> Option<Seq<char>>;

/// The ordered child list attached to an entity, if any.
pub uninterp spec fn children_of(w: &World, e: Entity) -> Option<Seq<Entity>>;

/// The fully qualified type names of the components attached to an entity,
/// in the store's enumeration order.
pub uninterp spec fn components_of(w: &World, e: Entity) -> Seq<Seq<char>>;

/// The index half of an entity id.
pub uninterp spec fn entity_index_of(e: Entity) -> u32;

/// The generation half of an entity id.
pub uninterp spec fn entity_generation_of(e: Entity) -> u32;

/// The short display form of a fully qualified type name: every path
/// segment cut down to its last component.
pub uninterp spec fn short_name_of(s: Seq<char>) -> Seq<char>;

/// Relies on `World::get_entity`, which resolves an `Entity` id to the
/// live entity it denotes and errs when index or generation does not match
/// a live entity.
#[verifier::external_body]
pub(crate) fn contains_entity(w: &World, e: Entity) -> (r: bool)
    ensures
        r == has_entity(w, e),
{
    w.get_entity(e).is_ok()
}

/// Relies on `Entity::index`, which returns the index half of the id.
#[verifier::external_body]
pub(crate) fn entity_index(e: Entity) -> (r: u32)
    ensures
        r == entity_index_of(e),
{
    e.index()
}

/// Relies on `Entity::generation`, which returns the generation half of
/// the id.
#[verifier::external_body]
pub(crate) fn entity_generation(e: Entity) -> (r: u32)
    ensures
        r == entity_generation_of(e),
{
    e.generation()
}

/// Relies on `World::get::<Name>`, which returns the `Name` component of
/// the entity if it is live and carries one, and on `Name::as_str`, which
/// returns the name's display string.
#[verifier::external_body]
pub(crate) fn lookup_name(w: &World, e: Entity) -> (r: Option<String>)
    ensures
        r is Some <==> name_of(w, e) is Some,
        r matches Some(s) ==> s@ == name_of(w, e).unwrap(),
{
    w.get::<Name>(e).map(|n| n.as_str().to_owned())
}

/// Relies on `World::get::<Children>`, which returns the `Children`
/// component of the entity if it is live and carries one; the component
/// dereferences to the ordered slice of child entities.
#[verifier::external_body]
pub(crate) fn lookup_children(w: &World, e: Entity) -> (r: Option<Vec<Entity>>)
    ensures
        r is Some <==> children_of(w, e) is Some,
        r matches Some(v) ==> v@ == children_of(w, e).unwrap(),
{
    w.get::<Children>(e).map(|c| c.iter().copied().collect())
}

/// Relies on `World::inspect_entity`, which enumerates the `ComponentInfo`
/// of every component attached to a live entity (and panics on a dead id,
/// hence the precondition), and on `ComponentInfo::name`, which returns
/// the component's fully qualified type name.
#[verifier::external_body]
pub(crate) fn component_names(w: &World, e: Entity) -> (r: Vec<String>)
    requires
        has_entity(w, e),
    ensures
        r@.len() == components_of(w, e).len(),
        forall|i: int| 0 <= i < r@.len() ==> r@[i]@ == components_of(w, e)[i],
{
    w.inspect_entity(e).map(|info| info.name().to_owned()).collect()
}

/// Relies on `disqualified::ShortName`, whose display form cuts every path
/// segment of a fully qualified type name down to its last component; the
/// result depends on the characters of the input alone.
#[verifier::external_body]
pub(crate) fn shorten(full: &str) -> (r: String)
    ensures
        r@ == short_name_of(full@),
{
    ShortName(full).to_string()
}

} // verus!
