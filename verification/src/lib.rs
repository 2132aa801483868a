//! An in-memory entity-component-system (ECS) core.
//!
//! Entities are opaque integer identifiers issued by an allocator with
//! identifier reuse. Component values live in per-component-type storages,
//! keyed by entity, and are read through shared or exclusive views whose
//! aliasing discipline (any number of readers, or one writer) is checked
//! dynamically at each acquisition. A tag index groups entities by integer
//! tags for selection, and systems declare which component types they read
//! and write under which tags; the world fetches exactly those views,
//! invokes the system, and writes the results back.

use vstd::prelude::*;

pub mod allocator;
pub mod storage;
pub mod system;
pub mod tags;
pub mod world;

verus! {

/// Handle of an entity: no intrinsic data, unique among live entities.
pub type EntityID = u32;

/// Identifier grouping entities by a boolean property.
pub type TagID = u32;

/// Process-stable identity token of a component type; one storage exists
/// per registered key.
pub type CompID = u32;

/// Marker for values that can be stored as components: plain copyable data.
pub trait Component: Copy {}

/// How an operation on the world or on a storage can fail.
#[derive(Clone, Copy, Debug, PartialEq, Eq, Structural)]
pub enum EcsError {
    /// Configuration error: the component type was never registered.
    Unregistered,
    /// Configuration error: the component type was registered twice.
    AlreadyRegistered,
    /// Lookup miss: the entity has no value of the requested component type.
    Missing,
    /// Access conflict: the requested view would break the
    /// single-writer-or-multiple-readers discipline on a component slot.
    Conflict,
}

} // verus!
