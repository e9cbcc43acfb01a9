//! The recoverable error conditions that the world reports to its caller.

use vstd::prelude::*;

use crate::component::ComponentId;
use crate::entity::EntityId;

verus! {

/// A condition the caller can recover from: either the entity already owns a
/// component of the given type, or the entity id was never registered.
#[derive(Clone, Copy, Debug, PartialEq, Eq, Structural)]
pub enum EcsError {
    ComponentAlreadyExists(EntityId, ComponentId),
    EntityNotFound(EntityId),
}

} // verus!
