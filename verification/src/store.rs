//! The component store: the sole owner of component data.
//!
//! Data is keyed first by component type, then by owning entity: one column
//! per type, holding `(entity, value)` pairs in insertion order, at most one
//! pair per entity.  System bodies reach the store only through the
//! slot-level accessors, which can change a value in place but never the
//! shape of a column.

use vstd::prelude::*;

use crate::component::ComponentId;
use crate::entity::EntityId;
use crate::error::EcsError;
use crate::intersect::Skeleton;
use crate::intersect::col_entities;
use crate::intersect::col_len;
use crate::intersect::driver_idx;
use crate::intersect::entities_of;
use crate::intersect::has_entity;
use crate::intersect::lemma_skeleton_keys;
use crate::intersect::matched_entities;
use crate::intersect::matched_of;
use crate::intersect::owns_all;
use crate::intersect::row_model;
use crate::intersect::skeleton_of;
use crate::intersect::slot_of;
use crate::intersect::spec_row;
use crate::keyed::has_key;
use crate::keyed::index_of_key;
use crate::keyed::lemma_index_of_key_found;
use crate::keyed::lemma_index_of_key_in_range;
use crate::keyed::lemma_push_new_key;
use crate::keyed::lemma_update_value;
use crate::keyed::unique_keys;
use crate::keyed::value_of_key;

verus! {

/// A sequence read out of a vector fits the machine's index range.
proof fn lemma_vec_len_bound<T>(v: Vec<T>)
    ensures
        v@.len() <= usize::MAX,
{
    assert(vstd::std_specs::vec::spec_vec_len(&v) == v@.len());
}

struct Column<C> {
    comp_id: ComponentId,
    entries: Vec<(EntityId, C)>,
}

pub struct ComponentStore<C> {
    columns: Vec<Column<C>>,
}

/// The entity owns a component of type `cid`.
pub open spec fn spec_has_component<C>(
    cols: Seq<(ComponentId, Seq<(EntityId, C)>)>,
    ent: EntityId,
    cid: ComponentId,
) -> bool {
    has_key(cols, cid) && has_key(value_of_key(cols, cid), ent)
}

/// The component of type `cid` owned by the entity.
pub open spec fn spec_component_value<C>(
    cols: Seq<(ComponentId, Seq<(EntityId, C)>)>,
    ent: EntityId,
    cid: ComponentId,
) -> C {
    value_of_key(value_of_key(cols, cid), ent)
}

/// The column store after a successful add: the pair is appended to the
/// type's column, or a fresh one-pair column is appended to the store.
pub open spec fn spec_add_col<C>(
    cols: Seq<(ComponentId, Seq<(EntityId, C)>)>,
    ent: EntityId,
    cid: ComponentId,
    data: C,
) -> Seq<(ComponentId, Seq<(EntityId, C)>)> {
    if has_key(cols, cid) {
        cols.update(index_of_key(cols, cid), (cid, value_of_key(cols, cid).push((ent, data))))
    } else {
        cols.push((cid, seq![(ent, data)]))
    }
}

/// The column store after a value of type `cid` is replaced in place at
/// `slot`; the owning entity of the slot is kept.
pub open spec fn spec_set_at<C>(
    cols: Seq<(ComponentId, Seq<(EntityId, C)>)>,
    cid: ComponentId,
    slot: int,
    data: C,
) -> Seq<(ComponentId, Seq<(EntityId, C)>)> {
    let ci = index_of_key(cols, cid);
    let entries = value_of_key(cols, cid);
    cols.update(ci, (cid, entries.update(slot, (entries[slot].0, data))))
}

/// Replacing one component value in place, entity and type kept, leaves the
/// skeleton, the keys and every other component exactly as they were.
pub proof fn lemma_one_value_changed<C>(
    pre: Seq<(ComponentId, Seq<(EntityId, C)>)>,
    post: Seq<(ComponentId, Seq<(EntityId, C)>)>,
    ent: EntityId,
    cid: ComponentId,
    v: C,
)
    requires
        unique_keys(pre),
        forall|i: int| 0 <= i < pre.len() ==> unique_keys((#[trigger] pre[i]).1),
        spec_has_component(pre, ent, cid),
        post.len() == pre.len(),
        forall|i: int|
            0 <= i < pre.len() && i != index_of_key(pre, cid) ==> post[i] == pre[i],
        post[index_of_key(pre, cid)].0 == cid,
        post[index_of_key(pre, cid)].1 == value_of_key(pre, cid).update(
            index_of_key(value_of_key(pre, cid), ent),
            (ent, v),
        ),
    ensures
        skeleton_of(post) == skeleton_of(pre),
        unique_keys(post),
        forall|i: int| 0 <= i < post.len() ==> unique_keys((#[trigger] post[i]).1),
        forall|i: int|
            0 <= i < post.len() ==> (#[trigger] post[i]).1.len() == pre[i].1.len(),
        forall|e2: EntityId, c2: ComponentId|
            spec_has_component(post, e2, c2) == spec_has_component(pre, e2, c2),
        spec_component_value(post, ent, cid) == v,
        forall|e2: EntityId, c2: ComponentId|
            (e2 != ent || c2 != cid) && spec_has_component(pre, e2, c2)
                ==> spec_component_value(post, e2, c2) == spec_component_value(pre, e2, c2),
{
    let ci = index_of_key(pre, cid);
    let entries = value_of_key(pre, cid);
    let ei = index_of_key(entries, ent);
    lemma_index_of_key_in_range(pre, cid);
    lemma_index_of_key_in_range(entries, ent);
    assert(post =~= pre.update(ci, (cid, entries.update(ei, (ent, v)))));
    assert(pre[ci].0 == cid && pre[ci].1 == entries);
    lemma_update_value(pre, ci, entries.update(ei, (ent, v)));
    lemma_update_value(entries, ei, v);
    assert(entries[ei].0 == ent);
    assert(skeleton_of(post) =~= skeleton_of(pre)) by {
        assert(entities_of(post[ci].1) =~= entities_of(pre[ci].1));
        assert(forall|i: int| 0 <= i < pre.len() && i != ci ==> post[i] == pre[i]);
    }
    assert forall|e2: EntityId, c2: ComponentId|
        spec_has_component(post, e2, c2) == spec_has_component(pre, e2, c2) by {
        if c2 == cid {
            assert(value_of_key(post, cid) == entries.update(ei, (ent, v)));
        }
    }
    assert forall|e2: EntityId, c2: ComponentId|
        (e2 != ent || c2 != cid) && spec_has_component(pre, e2, c2)
            implies spec_component_value(post, e2, c2) == spec_component_value(pre, e2, c2) by {
        if c2 == cid {
            assert(value_of_key(post, cid) == entries.update(ei, (ent, v)));
        }
    }
}

/// What a successful add does to the keys, the columns and the skeleton:
/// the new pair is readable, and every other type and entity reads as
/// before.
pub proof fn lemma_add_col_facts<C>(
    cols: Seq<(ComponentId, Seq<(EntityId, C)>)>,
    ent: EntityId,
    cid: ComponentId,
    data: C,
)
    requires
        unique_keys(cols),
        forall|i: int| 0 <= i < cols.len() ==> unique_keys((#[trigger] cols[i]).1),
        !spec_has_component(cols, ent, cid),
    ensures
        unique_keys(spec_add_col(cols, ent, cid, data)),
        spec_has_component(spec_add_col(cols, ent, cid, data), ent, cid),
        spec_component_value(spec_add_col(cols, ent, cid, data), ent, cid) == data,
        has_key(spec_add_col(cols, ent, cid, data), cid),
        forall|c2: ComponentId|
            c2 != cid ==> has_key(spec_add_col(cols, ent, cid, data), c2) == has_key(cols, c2)
                && (has_key(cols, c2) ==> value_of_key(spec_add_col(cols, ent, cid, data), c2)
                == value_of_key(cols, c2)),
        forall|e2: EntityId, c2: ComponentId|
            (e2 != ent || c2 != cid) ==> spec_has_component(spec_add_col(cols, ent, cid, data), e2, c2)
                == spec_has_component(cols, e2, c2),
        forall|e2: EntityId, c2: ComponentId|
            (e2 != ent || c2 != cid) && spec_has_component(cols, e2, c2)
                ==> spec_component_value(spec_add_col(cols, ent, cid, data), e2, c2)
                == spec_component_value(cols, e2, c2),
        forall|c2: ComponentId|
            c2 != cid ==> has_key(skeleton_of(spec_add_col(cols, ent, cid, data)), c2) == has_key(
                skeleton_of(cols),
                c2,
            ) && col_entities(skeleton_of(spec_add_col(cols, ent, cid, data)), c2) == col_entities(
                skeleton_of(cols),
                c2,
            ),
{
    let post = spec_add_col(cols, ent, cid, data);
    if has_key(cols, cid) {
        let ci = index_of_key(cols, cid);
        let entries = value_of_key(cols, cid);
        lemma_index_of_key_in_range(cols, cid);
        assert(cols[ci].0 == cid && cols[ci].1 == entries);
        lemma_update_value(cols, ci, entries.push((ent, data)));
        lemma_push_new_key(entries, ent, data);
    } else {
        lemma_push_new_key(cols, cid, seq![(ent, data)]);
        assert(value_of_key(post, cid) == seq![(ent, data)]);
        assert(value_of_key(post, cid)[0].0 == ent);
        lemma_index_of_key_found(value_of_key(post, cid), ent, 0);
        assert forall|e2: EntityId, c2: ComponentId|
            (e2 != ent || c2 != cid) implies spec_has_component(post, e2, c2)
            == spec_has_component(cols, e2, c2) by {
            if c2 == cid {
                assert(!has_key(cols, cid));
                if has_key(value_of_key(post, cid), e2) {
                    let k = index_of_key(value_of_key(post, cid), e2);
                    lemma_index_of_key_in_range(value_of_key(post, cid), e2);
                    assert(k == 0);
                }
            }
        }
    }
    assert forall|c2: ComponentId|
        c2 != cid implies has_key(skeleton_of(post), c2) == has_key(skeleton_of(cols), c2)
        && col_entities(skeleton_of(post), c2) == col_entities(skeleton_of(cols), c2) by {
        lemma_skeleton_keys(post, c2);
        lemma_skeleton_keys(cols, c2);
    }
}

impl<C> ComponentStore<C> {
    /// The full contents: per column, its component type and its
    /// `(entity, value)` pairs in insertion order.
    pub closed spec fn cols(self) -> Seq<(ComponentId, Seq<(EntityId, C)>)> {
        Seq::new(
            self.columns@.len(),
            |i: int| (self.columns@[i].comp_id, self.columns@[i].entries@),
        )
    }

    /// What a query reads: the contents with the component values dropped.
    pub open spec fn skel(self) -> Skeleton {
        skeleton_of(self.cols())
    }

    /// One column per component type, at most one pair per entity within a
    /// column, and every column small enough to index.
    pub open spec fn wf(self) -> bool {
        &&& unique_keys(self.cols())
        &&& forall|i: int| 0 <= i < self.cols().len() ==> unique_keys((#[trigger] self.cols()[i]).1)
        &&& forall|i: int| 0 <= i < self.cols().len() ==> (#[trigger] self.cols()[i]).1.len()
            <= usize::MAX
    }

    pub fn new() -> (r: Self)
        ensures
            r.cols() == Seq::<(ComponentId, Seq<(EntityId, C)>)>::empty(),
            r.wf(),
    {
        let r = Self { columns: Vec::new() };
        proof {
            assert(r.cols() =~= Seq::<(ComponentId, Seq<(EntityId, C)>)>::empty());
        }
        r
    }

    /// The position of the column of type `comp_id`, if the store has one.
    fn find_col(&self, comp_id: ComponentId) -> (r: Option<usize>)
        requires
            self.wf(),
        ensures
            r is Some <==> has_key(self.cols(), comp_id),
            r matches Some(ci) ==> ci < self.columns@.len() && ci == index_of_key(
                self.cols(),
                comp_id,
            ),
    {
        let mut i: usize = 0;
        while i < self.columns.len()
            invariant
                self.wf(),
                i <= self.columns.len(),
                forall|k: int| 0 <= k < i ==> (#[trigger] self.cols()[k]).0 != comp_id,
            decreases self.columns.len() - i,
        {
            if self.columns[i].comp_id == comp_id {
                proof {
                    lemma_index_of_key_found(self.cols(), comp_id, i as int);
                }
                return Some(i);
            }
            i = i + 1;
        }
        None
    }

    /// Adds a component; a second component of the same type for the same
    /// entity is refused and leaves the store unchanged.
    pub(crate) fn add(&mut self, ent: EntityId, comp_id: ComponentId, data: C) -> (r: Result<
        (),
        EcsError,
    >)
        requires
            old(self).wf(),
        ensures
            final(self).wf(),
            spec_has_component(old(self).cols(), ent, comp_id) ==> r == Err::<(), EcsError>(
                EcsError::ComponentAlreadyExists(ent, comp_id),
            ) && final(self).cols() == old(self).cols(),
            !spec_has_component(old(self).cols(), ent, comp_id) ==> r == Ok::<(), EcsError>(())
                && final(self).cols() == spec_add_col(old(self).cols(), ent, comp_id, data),
    {
        let ci_opt = self.find_col(comp_id);
        match ci_opt {
            Some(ci) => {
                proof {
                    lemma_index_of_key_in_range(old(self).cols(), comp_id);
                }
                let mut j: usize = 0;
                let n = self.columns[ci].entries.len();
                while j < n
                    invariant
                        old(self).wf(),
                        *self == *old(self),
                        ci < self.columns@.len(),
                        ci == index_of_key(old(self).cols(), comp_id),
                        old(self).cols()[ci as int].0 == comp_id,
                        has_key(old(self).cols(), comp_id),
                        n == self.columns@[ci as int].entries@.len(),
                        j <= n,
                        forall|k: int|
                            0 <= k < j ==> (#[trigger] self.columns@[ci as int].entries@[k]).0
                                != ent,
                    decreases n - j,
                {
                    if self.columns[ci].entries[j].0 == ent {
                        proof {
                            let entries = value_of_key(old(self).cols(), comp_id);
                            assert(entries == old(self).cols()[ci as int].1);
                            lemma_index_of_key_found(entries, ent, j as int);
                        }
                        return Err(EcsError::ComponentAlreadyExists(ent, comp_id));
                    }
                    j = j + 1;
                }
                proof {
                    let entries = value_of_key(old(self).cols(), comp_id);
                    assert(entries == old(self).cols()[ci as int].1);
                    assert(!has_key(entries, ent)) by {
                        if has_key(entries, ent) {
                            let k = index_of_key(entries, ent);
                            lemma_index_of_key_in_range(entries, ent);
                            assert(self.columns@[ci as int].entries@[k].0 == ent);
                        }
                    }
                }
                let col = &mut self.columns[ci];
                col.entries.push((ent, data));
                proof {
                    let pre = old(self).cols();
                    let post = self.cols();
                    let entries = value_of_key(pre, comp_id);
                    assert(pre[ci as int].0 == comp_id && pre[ci as int].1 == entries);
                    assert(post =~= pre.update(
                        ci as int,
                        (comp_id, entries.push((ent, data))),
                    ));
                    lemma_update_value(pre, ci as int, entries.push((ent, data)));
                    lemma_push_new_key(entries, ent, data);
                    lemma_vec_len_bound(self.columns@[ci as int].entries);
                    assert(final(self).wf()) by {
                        assert(forall|i: int|
                            0 <= i < post.len() && i != ci as int ==> post[i] == pre[i]);
                        assert(post[ci as int].1 == self.columns@[ci as int].entries@);
                    }
                }
                Ok(())
            },
            None => {
                self.columns.push(Column { comp_id, entries: Vec::new() });
                let last = self.columns.len() - 1;
                let col = &mut self.columns[last];
                col.entries.push((ent, data));
                proof {
                    let pre = old(self).cols();
                    let post = self.cols();
                    assert(post =~= pre.push((comp_id, seq![(ent, data)])));
                    lemma_push_new_key(pre, comp_id, seq![(ent, data)]);
                    assert(final(self).wf()) by {
                        assert(forall|i: int| 0 <= i < pre.len() ==> post[i] == pre[i]);
                        assert(post[pre.len() as int].1 =~= seq![(ent, data)]);
                    }
                }
                Ok(())
            },
        }
    }

    /// The component of type `comp_id` owned by `ent`, if the store has one.
    pub fn get(&self, ent: EntityId, comp_id: ComponentId) -> (r: Option<&C>)
        requires
            self.wf(),
        ensures
            r is Some <==> spec_has_component(self.cols(), ent, comp_id),
            r matches Some(v) ==> *v == spec_component_value(self.cols(), ent, comp_id),
    {
        let ci_opt = self.find_col(comp_id);
        match ci_opt {
            Some(ci) => {
                proof {
                    lemma_index_of_key_in_range(self.cols(), comp_id);
                    lemma_index_of_key_found(self.cols(), comp_id, ci as int);
                }
                let n = self.columns[ci].entries.len();
                let mut j: usize = 0;
                while j < n
                    invariant
                        self.wf(),
                        ci < self.columns@.len(),
                        self.cols()[ci as int].0 == comp_id,
                        ci == index_of_key(self.cols(), comp_id),
                        has_key(self.cols(), comp_id),
                        n == self.columns@[ci as int].entries@.len(),
                        j <= n,
                        forall|k: int|
                            0 <= k < j ==> (#[trigger] self.columns@[ci as int].entries@[k]).0
                                != ent,
                    decreases n - j,
                {
                    if self.columns[ci].entries[j].0 == ent {
                        proof {
                            let entries = value_of_key(self.cols(), comp_id);
                            assert(entries == self.cols()[ci as int].1);
                            lemma_index_of_key_found(entries, ent, j as int);
                        }
                        return Some(&self.columns[ci].entries[j].1);
                    }
                    j = j + 1;
                }
                proof {
                    let entries = value_of_key(self.cols(), comp_id);
                    if has_key(entries, ent) {
                        let k = index_of_key(entries, ent);
                        lemma_index_of_key_in_range(entries, ent);
                        assert(self.columns@[ci as int].entries@[k].0 == ent);
                    }
                }
                None
            },
            None => None,
        }
    }

    /// A mutable borrow of the component of type `comp_id` owned by `ent`.
    /// Writing through the borrow changes that one value in place; the shape
    /// of every column is kept (see [`lemma_one_value_changed`]).
    pub fn get_mut(&mut self, ent: EntityId, comp_id: ComponentId) -> (r: Option<&mut C>)
        requires
            old(self).wf(),
        ensures
            r is Some <==> spec_has_component(old(self).cols(), ent, comp_id),
            r is None ==> *final(self) == *old(self),
            r matches Some(m) ==> {
                let ci = index_of_key(old(self).cols(), comp_id);
                let entries = value_of_key(old(self).cols(), comp_id);
                let ei = index_of_key(entries, ent);
                &&& *m == spec_component_value(old(self).cols(), ent, comp_id)
                &&& final(self).cols().len() == old(self).cols().len()
                &&& forall|i: int|
                    0 <= i < old(self).cols().len() && i != ci ==> final(self).cols()[i] == old(
                        self,
                    ).cols()[i]
                &&& final(self).cols()[ci].0 == comp_id
                &&& final(self).cols()[ci].1 == entries.update(ei, (ent, *final(m)))
            },
    {
        let ci_opt = self.find_col(comp_id);
        match ci_opt {
            Some(ci) => {
                proof {
                    lemma_index_of_key_in_range(old(self).cols(), comp_id);
                }
                let n = self.columns[ci].entries.len();
                let mut j: usize = 0;
                while j < n
                    invariant
                        old(self).wf(),
                        *self == *old(self),
                        ci < self.columns@.len(),
                        ci == index_of_key(old(self).cols(), comp_id),
                        old(self).cols()[ci as int].0 == comp_id,
                        has_key(old(self).cols(), comp_id),
                        n == self.columns@[ci as int].entries@.len(),
                        j <= n,
                        forall|k: int|
                            0 <= k < j ==> (#[trigger] self.columns@[ci as int].entries@[k]).0
                                != ent,
                    decreases n - j,
                {
                    if self.columns[ci].entries[j].0 == ent {
                        proof {
                            let entries = value_of_key(old(self).cols(), comp_id);
                            assert(entries == old(self).cols()[ci as int].1);
                            lemma_index_of_key_found(entries, ent, j as int);
                        }
                        let m = &mut self.columns[ci].entries[j].1;
                        return Some(m);
                    }
                    j = j + 1;
                }
                proof {
                    let entries = value_of_key(old(self).cols(), comp_id);
                    assert(entries == old(self).cols()[ci as int].1);
                    if has_key(entries, ent) {
                        let k = index_of_key(entries, ent);
                        lemma_index_of_key_in_range(entries, ent);
                        assert(self.columns@[ci as int].entries@[k].0 == ent);
                    }
                }
                None
            },
            None => None,
        }
    }

    /// The size of the column of type `comp_id`; a type without a column
    /// counts as empty.
    pub fn column_len(&self, comp_id: ComponentId) -> (r: usize)
        requires
            self.wf(),
        ensures
            r as nat == col_len(self.skel(), comp_id),
    {
        proof {
            lemma_skeleton_keys(self.cols(), comp_id);
        }
        let ci_opt = self.find_col(comp_id);
        match ci_opt {
            Some(ci) => {
                proof {
                    lemma_index_of_key_in_range(self.cols(), comp_id);
                }
                self.columns[ci].entries.len()
            },
            None => 0,
        }
    }

    /// The entity owning the pair at `slot` of the column of type `comp_id`.
    pub fn entity_at(&self, comp_id: ComponentId, slot: usize) -> (r: EntityId)
        requires
            self.wf(),
            slot < col_len(self.skel(), comp_id),
        ensures
            r == col_entities(self.skel(), comp_id)[slot as int],
    {
        proof {
            lemma_skeleton_keys(self.cols(), comp_id);
            lemma_index_of_key_in_range(self.cols(), comp_id);
        }
        let ci = self.find_col(comp_id).unwrap();
        self.columns[ci].entries[slot].0
    }

    /// The component value at `slot` of the column of type `comp_id`.
    pub fn value_at(&self, comp_id: ComponentId, slot: usize) -> (r: &C)
        requires
            self.wf(),
            slot < col_len(self.skel(), comp_id),
        ensures
            *r == value_of_key(self.cols(), comp_id)[slot as int].1,
    {
        proof {
            lemma_skeleton_keys(self.cols(), comp_id);
            lemma_index_of_key_in_range(self.cols(), comp_id);
        }
        let ci = self.find_col(comp_id).unwrap();
        &self.columns[ci].entries[slot].1
    }

    /// Replaces the component value at `slot` of the column of type
    /// `comp_id`; the owning entity of the slot, and with it the shape of
    /// every column, is kept.
    pub fn set_value_at(&mut self, comp_id: ComponentId, slot: usize, data: C)
        requires
            old(self).wf(),
            slot < col_len(old(self).skel(), comp_id),
        ensures
            final(self).wf(),
            final(self).skel() == old(self).skel(),
            final(self).cols() == spec_set_at(old(self).cols(), comp_id, slot as int, data),
    {
        proof {
            lemma_skeleton_keys(old(self).cols(), comp_id);
            lemma_index_of_key_in_range(old(self).cols(), comp_id);
        }
        let ci = self.find_col(comp_id).unwrap();
        let col = &mut self.columns[ci];
        let e = col.entries[slot].0;
        col.entries[slot] = (e, data);
        proof {
            let pre = old(self).cols();
            let entries = value_of_key(pre, comp_id);
            let post = spec_set_at(pre, comp_id, slot as int, data);
            assert(self.cols() =~= post);
            lemma_update_value(pre, ci as int, entries.update(slot as int, (e, data)));
            lemma_update_value(entries, slot as int, data);
            assert(final(self).skel() =~= old(self).skel()) by {
                assert(forall|i: int|
                    0 <= i < pre.len() && i != ci as int ==> post[i] == pre[i]);
                assert(entities_of(post[ci as int].1) =~= entities_of(pre[ci as int].1));
            }
            assert(final(self).wf()) by {
                assert(forall|i: int|
                    0 <= i < pre.len() && i != ci as int ==> post[i] == pre[i]);
            }
        }
    }

    /// The slot of entity `e` in the column of type `comp_id`, if both the
    /// column and the entry exist.
    fn find_slot(&self, comp_id: ComponentId, e: EntityId) -> (r: Option<usize>)
        requires
            self.wf(),
        ensures
            r is Some <==> has_key(self.skel(), comp_id) && has_entity(
                col_entities(self.skel(), comp_id),
                e,
            ),
            r matches Some(s) ==> s as int == slot_of(col_entities(self.skel(), comp_id), e) && s
                < col_len(self.skel(), comp_id),
    {
        proof {
            lemma_skeleton_keys(self.cols(), comp_id);
        }
        let ci_opt = self.find_col(comp_id);
        match ci_opt {
            Some(ci) => {
                proof {
                    lemma_index_of_key_in_range(self.cols(), comp_id);
                }
                let ghost ents = col_entities(self.skel(), comp_id);
                proof {
                    assert(ents == entities_of(self.columns@[ci as int].entries@));
                    assert forall|a: int, b: int| 0 <= a < b < ents.len() implies ents[a]
                        != ents[b] by {
                        assert(ents[a] == self.columns@[ci as int].entries@[a].0);
                        assert(ents[b] == self.columns@[ci as int].entries@[b].0);
                    }
                }
                let n = self.columns[ci].entries.len();
                let mut j: usize = 0;
                while j < n
                    invariant
                        self.wf(),
                        ci < self.columns@.len(),
                        ci == index_of_key(self.cols(), comp_id),
                        self.cols()[ci as int].0 == comp_id,
                        has_key(self.cols(), comp_id),
                        has_key(self.skel(), comp_id),
                        ents == col_entities(self.skel(), comp_id),
                        ents == entities_of(self.columns@[ci as int].entries@),
                        forall|a: int, b: int| 0 <= a < b < ents.len() ==> ents[a] != ents[b],
                        n == self.columns@[ci as int].entries@.len(),
                        j <= n,
                        forall|k: int|
                            0 <= k < j ==> (#[trigger] self.columns@[ci as int].entries@[k]).0
                                != e,
                    decreases n - j,
                {
                    if self.columns[ci].entries[j].0 == e {
                        proof {
                            assert(ents[j as int] == e);
                            crate::intersect::lemma_slot_of_found(ents, e, j as int);
                        }
                        return Some(j);
                    }
                    j = j + 1;
                }
                proof {
                    if has_entity(ents, e) {
                        let k = slot_of(ents, e);
                        assert(self.columns@[ci as int].entries@[k].0 == e);
                    }
                }
                None
            },
            None => None,
        }
    }

    /// Whether entity `e` owns a component of every type in `req`.
    fn owns_all_entity(&self, req: &Vec<ComponentId>, e: EntityId) -> (r: bool)
        requires
            self.wf(),
        ensures
            r == owns_all(self.skel(), req@, e),
    {
        let mut i: usize = 0;
        while i < req.len()
            invariant
                self.wf(),
                i <= req@.len(),
                forall|i2: int|
                    0 <= i2 < i ==> has_key(self.skel(), #[trigger] req@[i2]) && has_entity(
                        col_entities(self.skel(), req@[i2]),
                        e,
                    ),
            decreases req@.len() - i,
        {
            let s = self.find_slot(req[i], e);
            if s.is_none() {
                return false;
            }
            i = i + 1;
        }
        true
    }

    /// Resolves a required set against the store: per required type, in
    /// required order, the slots of the entities owning every required type,
    /// in entity-aligned order.
    pub(crate) fn find_intersection(&self, req: &Vec<ComponentId>) -> (r: Vec<
        (ComponentId, Vec<usize>),
    >)
        requires
            self.wf(),
        ensures
            row_model(r@) == spec_row(self.skel(), req@),
            r@.len() == req@.len(),
    {
        let ghost skel = self.skel();
        let k = req.len();
        if k == 0 {
            let r: Vec<(ComponentId, Vec<usize>)> = Vec::new();
            proof {
                assert(row_model(r@) =~= spec_row(skel, req@));
            }
            return r;
        }
        // The smallest required column drives the scan.
        let mut driver: usize = 0;
        let mut j: usize = 1;
        proof {
            assert(req@.take(1).len() == 1);
        }
        while j < k
            invariant
                self.wf(),
                skel == self.skel(),
                k == req@.len(),
                1 <= j <= k,
                driver < j,
                driver as int == driver_idx(skel, req@.take(j as int)),
            decreases k - j,
        {
            let lj = self.column_len(req[j]);
            let ld = self.column_len(req[driver]);
            proof {
                let p = req@.take(j as int);
                let p1 = req@.take(j as int + 1);
                assert(p1.drop_last() =~= p);
                assert(p1.last() == req@[j as int]);
                assert(p1[driver as int] == req@[driver as int]);
            }
            if lj < ld {
                driver = j;
            }
            j = j + 1;
        }
        proof {
            assert(req@.take(k as int) =~= req@);
        }
        let dcid = req[driver];
        let dlen = self.column_len(dcid);
        let ghost dents = col_entities(skel, dcid);

        // Collect the matched entities, in the driver column's order.
        let mut matched: Vec<EntityId> = Vec::new();
        let mut t: usize = 0;
        proof {
            assert(dents.take(0) =~= Seq::<EntityId>::empty());
        }
        while t < dlen
            invariant
                self.wf(),
                skel == self.skel(),
                k == req@.len(),
                k >= 1,
                driver < k,
                driver as int == driver_idx(skel, req@),
                dcid == req@[driver as int],
                dents == col_entities(skel, dcid),
                dlen as nat == col_len(skel, dcid),
                t <= dlen,
                matched@ == matched_of(skel, req@, dents.take(t as int)),
            decreases dlen - t,
        {
            let e = self.entity_at(dcid, t);
            let all = self.owns_all_entity(req, e);
            proof {
                let p1 = dents.take(t as int + 1);
                assert(p1.drop_last() =~= dents.take(t as int));
                assert(p1.last() == dents[t as int]);
            }
            if all {
                matched.push(e);
            }
            t = t + 1;
        }
        proof {
            assert(dents.take(dlen as int) =~= dents);
            assert(matched@ == matched_entities(skel, req@));
        }

        // Build the row: per required type, the matched entities' slots.
        let mut row: Vec<(ComponentId, Vec<usize>)> = Vec::new();
        let mut i: usize = 0;
        while i < k
            invariant
                self.wf(),
                skel == self.skel(),
                k == req@.len(),
                matched@ == matched_entities(skel, req@),
                i <= k,
                row@.len() == i,
                forall|i2: int|
                    0 <= i2 < i ==> (#[trigger] row@[i2]).0 == req@[i2] && row@[i2].1@ == spec_row(
                        skel,
                        req@,
                    )[i2].1,
            decreases k - i,
        {
            let cid = req[i];
            let mut slots: Vec<usize> = Vec::new();
            let mut t2: usize = 0;
            while t2 < matched.len()
                invariant
                    self.wf(),
                    skel == self.skel(),
                    k == req@.len(),
                    i < k,
                    cid == req@[i as int],
                    matched@ == matched_entities(skel, req@),
                    t2 <= matched@.len(),
                    slots@.len() == t2,
                    forall|u: int|
                        0 <= u < t2 ==> (#[trigger] slots@[u]) as int == slot_of(
                            col_entities(skel, cid),
                            matched@[u],
                        ),
                decreases matched@.len() - t2,
            {
                let e = matched[t2];
                proof {
                    crate::intersect::lemma_intersection_sound(skel, req@, t2 as int);
                }
                let s = self.find_slot(cid, e);
                let sv = s.unwrap();
                slots.push(sv);
                t2 = t2 + 1;
            }
            proof {
                assert(slots@ =~= spec_row(skel, req@)[i as int].1) by {
                    assert(spec_row(skel, req@)[i as int].1.len() == matched@.len());
                    assert forall|u: int| 0 <= u < matched@.len() implies slots@[u] == spec_row(
                        skel,
                        req@,
                    )[i as int].1[u] by {
                        assert(slots@[u] as int == slot_of(col_entities(skel, cid), matched@[u]));
                    }
                }
            }
            row.push((cid, slots));
            i = i + 1;
        }
        proof {
            assert(row_model(row@) =~= spec_row(skel, req@));
        }
        row
    }
}

} // verus!
