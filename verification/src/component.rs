//! Component identifiers and component payloads.

use vstd::prelude::*;

verus! {

/// A unique identifier for each different component type.
///
/// Component ids are handed out sequentially by `Ecs::new_component`
/// (monotonically increasing, never reused while the store lives), so the
/// inner value doubles as an index into every per-component table.
#[derive(PartialEq, Eq, Structural, PartialOrd, Ord, Hash, Clone, Copy, Debug)]
pub struct ComponentId(pub usize);

/// One component instance.
///
/// The store treats component contents as opaque data: it only decides where
/// instances live and how they move between archetypes. A closed payload of
/// two machine words stands in for the application's component kinds.
#[derive(PartialEq, Eq, Structural, Clone, Copy, Debug)]
pub struct ComponentValue {
    pub x: u64,
    pub y: u64,
}

/// The failure conditions of the store's entity and component operations.
#[derive(PartialEq, Eq, Structural, Clone, Copy, Debug)]
pub enum EcsError {
    /// The entity id is not live: its slot is out of range, freed, or its
    /// generation does not match the slot's current generation.
    UnknownEntity,
    /// The component id was never registered.
    UnknownComponent,
    /// `add_component` was called for a component the entity already carries.
    ComponentAlreadyPresent,
    /// `remove_component` was called for a component the entity does not carry.
    ComponentNotPresent,
}

} // verus!
