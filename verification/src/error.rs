//! The recoverable errors of the world's operations.

use crate::entity::Entity;
use vstd::prelude::*;

verus! {

/// A component was written through an entity handle older than the
/// generation already recorded in its slot.
#[derive(Debug, PartialEq, Eq, Copy, Clone, Structural)]
pub struct EntityGenerationError {
    pub entity: Entity,
}

/// An operation named an entity that is not live: never allocated, already
/// removed, or out of range.
#[derive(Debug, PartialEq, Eq, Copy, Clone, Structural)]
pub struct EntityNotFoundError {
    pub entity: Entity,
}

/// What can go wrong when a component is attached to or detached from an
/// entity.
#[derive(Debug, PartialEq, Eq, Copy, Clone, Structural)]
pub enum EcsError {
    EntityNotFound(EntityNotFoundError),
    GenerationConflict(EntityGenerationError),
}

} // verus!
