//! Systems: batched logic over a required set of component types.

use vstd::prelude::*;

use crate::component::ComponentId;
use crate::component::ComponentSet;
use crate::store::ComponentStore;

verus! {

/// Identifies one system for the lifetime of a world.
pub type SystemId = u64;

/// A fault in how a system is written, not in the data: a required set
/// naming one type twice, or a body claiming one type twice in a run.
/// Neither is recoverable by retrying; both are reported loudly instead of
/// handing out aliased data.
#[derive(Clone, Copy, Debug, PartialEq, Eq, Structural)]
pub enum SystemFault {
    DuplicateRequirement(ComponentId),
    DoubleClaim(ComponentId),
}

/// A system: a fixed required set of component types and a body run over
/// the entities owning all of them.
///
/// The body receives the store and the claim guard for its resolved query.
/// It may read and replace component values in place through the store's
/// slot accessors; the contract on `run` records that the body leaves the
/// shape of every column — and with it every cached query — as it was.
pub trait System<C> {
    /// A stable identifier for this system; queries are memoized under it.
    fn id(&self) -> SystemId;

    /// The component types the system needs, in claim order, free of
    /// duplicates.
    fn needed_components(&self) -> Vec<ComponentId>;

    /// The system body, invoked once per run when at least one entity owns
    /// every required type.
    fn run(&mut self, store: &mut ComponentStore<C>, comps: ComponentSet)
        requires
            old(store).wf(),
        ensures
            final(store).wf(),
            final(store).skel() == old(store).skel(),
    ;
}

} // verus!
