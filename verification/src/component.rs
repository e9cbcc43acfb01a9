//! Component type identity.
//!
//! A component type is identified by a plain integer key chosen by the
//! caller at setup time; the store uses that key, and nothing else, to
//! partition component data into columns.

use vstd::prelude::*;

use crate::bitset::BitSet;
use crate::intersect::RowModel;
use crate::intersect::row_model;
use crate::keyed::has_key;
use crate::keyed::index_of_key;
use crate::keyed::lemma_index_of_key_found;
use crate::keyed::lemma_index_of_key_in_range;
use crate::keyed::unique_keys;
use crate::keyed::value_of_key;
use crate::system::SystemFault;

verus! {

/// Identifies one component type for the lifetime of a world.
pub type ComponentId = u64;

/// A type usable as a component: it names the identifier under which values
/// of its kind are stored.
pub trait Component {
    fn component_id(&self) -> ComponentId;
}

/// The identifier of a component value's type.
pub fn component_id<C: Component>(c: &C) -> ComponentId {
    c.component_id()
}

/// The access guard over one resolved query.
///
/// It hands a system body, per required type, the slot list of the matched
/// components — at most once per type per run, so that no two mutable views
/// of the same column can coexist.
pub struct ComponentSet {
    comps: Vec<(ComponentId, Vec<usize>)>,
    obtained: BitSet,
}

impl ComponentSet {
    /// The resolved query this guard mediates.
    pub closed spec fn row(self) -> RowModel {
        row_model(self.comps@)
    }

    /// Whether the sub-list at position `i` has been claimed this run.
    pub closed spec fn claimed(self, i: int) -> bool {
        self.obtained.bit(i)
    }

    /// One sub-list per required type, and room for one claim mark each.
    pub closed spec fn wf(self) -> bool {
        &&& unique_keys(self.row())
        &&& self.comps@.len() <= self.obtained.nbits()
    }

    pub(crate) fn new(comps: Vec<(ComponentId, Vec<usize>)>) -> (r: Self)
        requires
            unique_keys(row_model(comps@)),
        ensures
            r.row() == row_model(comps@),
            forall|i: int| !r.claimed(i),
            r.wf(),
    {
        let n = comps.len();
        Self { comps, obtained: BitSet::with_capacity_zeroed(n) }
    }

    /// Claims the sub-list of the given component type: the slots, in the
    /// matched entities' order, of that type's components.  A second claim
    /// of the same type is the double-claim fault, reported loudly and
    /// without handing out anything.
    pub fn get_components(&mut self, comp_id: ComponentId) -> (r: Result<Vec<usize>, SystemFault>)
        requires
            old(self).wf(),
            has_key(old(self).row(), comp_id),
        ensures
            final(self).wf(),
            final(self).row() == old(self).row(),
            ({
                let i = index_of_key(old(self).row(), comp_id);
                if old(self).claimed(i) {
                    &&& r == Err::<Vec<usize>, SystemFault>(SystemFault::DoubleClaim(comp_id))
                    &&& forall|j: int| final(self).claimed(j) == old(self).claimed(j)
                } else {
                    &&& r matches Ok(v) && v@ == value_of_key(old(self).row(), comp_id)
                    &&& forall|j: int|
                        final(self).claimed(j) == (old(self).claimed(j) || j == i)
                }
            }),
    {
        let n = self.comps.len();
        let mut i: usize = 0;
        while i < n
            invariant
                old(self).wf(),
                *self == *old(self),
                n == self.comps@.len(),
                i <= n,
                forall|k: int| 0 <= k < i ==> (#[trigger] self.comps@[k]).0 != comp_id,
            decreases n - i,
        {
            if self.comps[i].0 == comp_id {
                proof {
                    assert(old(self).row()[i as int].0 == comp_id);
                    lemma_index_of_key_found(old(self).row(), comp_id, i as int);
                }
                if self.obtained.get(i) {
                    return Err(SystemFault::DoubleClaim(comp_id));
                }
                self.obtained.set(i, true);
                let src = &self.comps[i].1;
                let mut out: Vec<usize> = Vec::new();
                let m = src.len();
                let mut k: usize = 0;
                while k < m
                    invariant
                        k <= m,
                        m == src@.len(),
                        out@ == src@.take(k as int),
                    decreases m - k,
                {
                    out.push(src[k]);
                    proof {
                        assert(out@ =~= src@.take(k as int + 1));
                    }
                    k = k + 1;
                }
                proof {
                    assert(out@ =~= src@);
                    assert(value_of_key(old(self).row(), comp_id) == old(self).row()[i as int].1);
                }
                return Ok(out);
            }
            i = i + 1;
        }
        proof {
            lemma_index_of_key_in_range(old(self).row(), comp_id);
            let j = index_of_key(old(self).row(), comp_id);
            assert(self.comps@[j].0 == comp_id);
        }
        unreached()
    }
}

} // verus!
