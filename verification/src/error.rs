//! The errors that user-reachable world operations report.

use vstd::prelude::*;

use crate::entity::Entity;

verus! {

/// Why a world operation could not do its work. Failed runtime validation is
/// reported through these; internal invariant violations are proved absent.
#[derive(Clone, PartialEq, Eq, Debug)]
pub enum EcsError {
    /// The entity handle is stale or was never allocated.
    EntityNotFound(Entity),
    /// The entity does not carry the named component type.
    ComponentNotFound(u64),
    /// No archetype exists at the given index.
    ArchetypeNotFound(usize),
    /// A request that the world cannot honor, with a short description.
    InvalidOperation(String),
}

} // verus!
