//! The error reported by an entity's own component storage.

use vstd::prelude::*;

use crate::component::ComponentId;
use crate::entity::EntityId;

verus! {

/// Adding a component to an entity that already holds one of the same type.
#[derive(Clone, Copy, Debug, PartialEq, Eq, Structural)]
pub enum EcrusError {
    ComponentAlreadyRegistered { comp_id: ComponentId, entity_id: EntityId },
}

} // verus!
