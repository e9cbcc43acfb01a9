//! An entity with its own two component stores.
//!
//! Besides the world's column store, an entity can carry components of its
//! own: a `cold` collection for rarely touched data and a `hot` one for data
//! read every frame.  Both hold at most one component per component type.

use vstd::prelude::*;

use crate::component::ComponentId;
use crate::errors::EcrusError;
use crate::keyed::has_key;
use crate::keyed::index_of_key;
use crate::keyed::lemma_index_of_key_found;
use crate::keyed::unique_keys;
use crate::keyed::value_of_key;

verus! {

/// Identifies one registered entity.
pub type EntityId = u32;

pub struct Entity<C> {
    id: EntityId,
    cold_component: Vec<(ComponentId, C)>,
    hot_component: Vec<(ComponentId, C)>,
}

impl<C> Entity<C> {
    pub closed spec fn spec_id(self) -> EntityId {
        self.id
    }

    /// The cold components, in insertion order.
    pub closed spec fn cold(self) -> Seq<(ComponentId, C)> {
        self.cold_component@
    }

    /// The hot components, in insertion order.
    pub closed spec fn hot(self) -> Seq<(ComponentId, C)> {
        self.hot_component@
    }

    /// Each store holds at most one component per component type.
    pub open spec fn wf(self) -> bool {
        unique_keys(self.cold()) && unique_keys(self.hot())
    }

    pub fn new(id: EntityId) -> (r: Self)
        ensures
            r.spec_id() == id,
            r.cold() == Seq::<(ComponentId, C)>::empty(),
            r.hot() == Seq::<(ComponentId, C)>::empty(),
            r.wf(),
    {
        Self { id, cold_component: Vec::new(), hot_component: Vec::new() }
    }

    pub fn entity_id(&self) -> (r: EntityId)
        ensures
            r == self.spec_id(),
    {
        self.id
    }

    /// Attaches a cold component; a second component of the same type is an
    /// error and leaves the entity unchanged.
    pub fn add_component(&mut self, comp_id: ComponentId, data: C) -> (r: Result<(), EcrusError>)
        requires
            old(self).wf(),
        ensures
            final(self).wf(),
            final(self).spec_id() == old(self).spec_id(),
            final(self).hot() == old(self).hot(),
            has_key(old(self).cold(), comp_id) ==> r == Err::<(), EcrusError>(
                EcrusError::ComponentAlreadyRegistered {
                    comp_id,
                    entity_id: old(self).spec_id(),
                },
            ) && final(self).cold() == old(self).cold(),
            !has_key(old(self).cold(), comp_id) ==> r == Ok::<(), EcrusError>(())
                && final(self).cold() == old(self).cold().push((comp_id, data)),
    {
        let mut i: usize = 0;
        while i < self.cold_component.len()
            invariant
                old(self).wf(),
                *self == *old(self),
                i <= self.cold_component.len(),
                forall|k: int| 0 <= k < i ==> self.cold_component@[k].0 != comp_id,
            decreases self.cold_component.len() - i,
        {
            if self.cold_component[i].0 == comp_id {
                return Err(EcrusError::ComponentAlreadyRegistered {
                    comp_id,
                    entity_id: self.id,
                });
            }
            i = i + 1;
        }
        self.cold_component.push((comp_id, data));
        Ok(())
    }

    /// Attaches a hot component; a second component of the same type is an
    /// error and leaves the entity unchanged.
    pub fn add_hot_component(&mut self, comp_id: ComponentId, data: C) -> (r: Result<
        (),
        EcrusError,
    >)
        requires
            old(self).wf(),
        ensures
            final(self).wf(),
            final(self).spec_id() == old(self).spec_id(),
            final(self).cold() == old(self).cold(),
            has_key(old(self).hot(), comp_id) ==> r == Err::<(), EcrusError>(
                EcrusError::ComponentAlreadyRegistered {
                    comp_id,
                    entity_id: old(self).spec_id(),
                },
            ) && final(self).hot() == old(self).hot(),
            !has_key(old(self).hot(), comp_id) ==> r == Ok::<(), EcrusError>(())
                && final(self).hot() == old(self).hot().push((comp_id, data)),
    {
        let mut i: usize = 0;
        while i < self.hot_component.len()
            invariant
                old(self).wf(),
                *self == *old(self),
                i <= self.hot_component.len(),
                forall|k: int| 0 <= k < i ==> self.hot_component@[k].0 != comp_id,
            decreases self.hot_component.len() - i,
        {
            if self.hot_component[i].0 == comp_id {
                return Err(EcrusError::ComponentAlreadyRegistered {
                    comp_id,
                    entity_id: self.id,
                });
            }
            i = i + 1;
        }
        self.hot_component.push((comp_id, data));
        Ok(())
    }

    /// The cold component of the given type, if the entity has one.
    pub fn get_component(&self, comp_id: ComponentId) -> (r: Option<&C>)
        requires
            self.wf(),
        ensures
            r is Some <==> has_key(self.cold(), comp_id),
            r matches Some(v) ==> *v == value_of_key(self.cold(), comp_id),
    {
        let mut i: usize = 0;
        while i < self.cold_component.len()
            invariant
                self.wf(),
                i <= self.cold_component.len(),
                forall|k: int| 0 <= k < i ==> self.cold_component@[k].0 != comp_id,
            decreases self.cold_component.len() - i,
        {
            if self.cold_component[i].0 == comp_id {
                proof {
                    lemma_index_of_key_found(self.cold(), comp_id, i as int);
                }
                return Some(&self.cold_component[i].1);
            }
            i = i + 1;
        }
        None
    }

    /// A mutable borrow of the cold component of the given type.
    pub fn get_component_mut(&mut self, comp_id: ComponentId) -> (r: Option<&mut C>)
        requires
            old(self).wf(),
        ensures
            r is Some <==> has_key(old(self).cold(), comp_id),
            r is None ==> *final(self) == *old(self),
            r matches Some(m) ==> {
                &&& *m == value_of_key(old(self).cold(), comp_id)
                &&& final(self).cold() == old(self).cold().update(
                    index_of_key(old(self).cold(), comp_id),
                    (comp_id, *final(m)),
                )
                &&& final(self).hot() == old(self).hot()
                &&& final(self).spec_id() == old(self).spec_id()
                &&& final(self).wf()
            },
    {
        let mut i: usize = 0;
        while i < self.cold_component.len()
            invariant
                old(self).wf(),
                *self == *old(self),
                i <= self.cold_component.len(),
                forall|k: int| 0 <= k < i ==> self.cold_component@[k].0 != comp_id,
            decreases self.cold_component.len() - i,
        {
            if self.cold_component[i].0 == comp_id {
                proof {
                    lemma_index_of_key_found(old(self).cold(), comp_id, i as int);
                }
                return Some(&mut self.cold_component[i].1);
            }
            i = i + 1;
        }
        None
    }

    /// The hot component of the given type, if the entity has one.
    pub fn get_hot_component(&self, comp_id: ComponentId) -> (r: Option<&C>)
        requires
            self.wf(),
        ensures
            r is Some <==> has_key(self.hot(), comp_id),
            r matches Some(v) ==> *v == value_of_key(self.hot(), comp_id),
    {
        let mut i: usize = 0;
        while i < self.hot_component.len()
            invariant
                self.wf(),
                i <= self.hot_component.len(),
                forall|k: int| 0 <= k < i ==> self.hot_component@[k].0 != comp_id,
            decreases self.hot_component.len() - i,
        {
            if self.hot_component[i].0 == comp_id {
                proof {
                    lemma_index_of_key_found(self.hot(), comp_id, i as int);
                }
                return Some(&self.hot_component[i].1);
            }
            i = i + 1;
        }
        None
    }

    /// A mutable borrow of the hot component of the given type.
    pub fn get_hot_component_mut(&mut self, comp_id: ComponentId) -> (r: Option<&mut C>)
        requires
            old(self).wf(),
        ensures
            r is Some <==> has_key(old(self).hot(), comp_id),
            r is None ==> *final(self) == *old(self),
            r matches Some(m) ==> {
                &&& *m == value_of_key(old(self).hot(), comp_id)
                &&& final(self).hot() == old(self).hot().update(
                    index_of_key(old(self).hot(), comp_id),
                    (comp_id, *final(m)),
                )
                &&& final(self).cold() == old(self).cold()
                &&& final(self).spec_id() == old(self).spec_id()
                &&& final(self).wf()
            },
    {
        let mut i: usize = 0;
        while i < self.hot_component.len()
            invariant
                old(self).wf(),
                *self == *old(self),
                i <= self.hot_component.len(),
                forall|k: int| 0 <= k < i ==> self.hot_component@[k].0 != comp_id,
            decreases self.hot_component.len() - i,
        {
            if self.hot_component[i].0 == comp_id {
                proof {
                    lemma_index_of_key_found(old(self).hot(), comp_id, i as int);
                }
                return Some(&mut self.hot_component[i].1);
            }
            i = i + 1;
        }
        None
    }
}

} // verus!
