//! The intersection engine's specification.
//!
//! A query works on the *skeleton* of the store: per column, its component
//! type and the sequence of owning entities, in insertion order.  The result
//! of a query for a required set of types is, per type, the list of slots of
//! the entities that own every required type, aligned so that position `k`
//! of every sub-list belongs to the same entity.

use vstd::prelude::*;

use crate::component::ComponentId;
use crate::entity::EntityId;
use crate::keyed::has_key;
use crate::keyed::index_of_key;
use crate::keyed::unique_keys;
use crate::keyed::value_of_key;

verus! {

/// The store reduced to what a query reads: per column, its component type
/// and its owners in insertion order.
pub type Skeleton = Seq<(ComponentId, Seq<EntityId>)>;

/// A resolved query: per required type, the owning slots in entity-aligned
/// order.
pub type RowModel = Seq<(ComponentId, Seq<usize>)>;

/// The owners of a column, in entry order.
pub open spec fn entities_of<C>(entries: Seq<(EntityId, C)>) -> Seq<EntityId> {
    Seq::new(entries.len(), |k: int| entries[k].0)
}

/// The skeleton of a full column store: the component values are dropped,
/// the owners and their order are kept.
pub open spec fn skeleton_of<C>(cols: Seq<(ComponentId, Seq<(EntityId, C)>)>) -> Skeleton {
    Seq::new(cols.len(), |i: int| (cols[i].0, entities_of(cols[i].1)))
}

/// The resolved form of an executable row: each slot vector read as a
/// sequence.
pub open spec fn row_model(r: Seq<(ComponentId, Vec<usize>)>) -> RowModel {
    Seq::new(r.len(), |i: int| (r[i].0, r[i].1@))
}

/// Some component type occurs twice in the required set.
pub open spec fn has_duplicate(req: Seq<ComponentId>) -> bool {
    exists|i: int, j: int| 0 <= i < j < req.len() && req[i] == req[j]
}

/// `e` occurs among `ents`.
pub open spec fn has_entity(ents: Seq<EntityId>, e: EntityId) -> bool {
    exists|k: int| 0 <= k < ents.len() && ents[k] == e
}

/// The position of `e` among `ents` (meaningful when the entities are
/// distinct and `has_entity` holds).
pub open spec fn slot_of(ents: Seq<EntityId>, e: EntityId) -> int {
    choose|k: int| 0 <= k < ents.len() && ents[k] == e
}

/// The owners of the column of type `cid`, or empty when no such column
/// exists.
pub open spec fn col_entities(skel: Skeleton, cid: ComponentId) -> Seq<EntityId> {
    if has_key(skel, cid) {
        value_of_key(skel, cid)
    } else {
        Seq::empty()
    }
}

/// The size of the column of type `cid`; a missing column counts as empty.
pub open spec fn col_len(skel: Skeleton, cid: ComponentId) -> nat {
    col_entities(skel, cid).len()
}

/// Entity `e` owns a component of every type in `req`.
pub open spec fn owns_all(skel: Skeleton, req: Seq<ComponentId>, e: EntityId) -> bool {
    forall|i: int|
        0 <= i < req.len() ==> has_key(skel, req[i]) && has_entity(col_entities(skel, req[i]), e)
}

/// The index into `req` of the first required type whose column is smallest:
/// its column drives the intersection.
pub open spec fn driver_idx(skel: Skeleton, req: Seq<ComponentId>) -> int
    decreases req.len(),
{
    if req.len() <= 1 {
        0
    } else {
        let j = driver_idx(skel, req.drop_last());
        if col_len(skel, req.last()) < col_len(skel, req[j]) {
            req.len() - 1
        } else {
            j
        }
    }
}

/// The members of `ents`, in order, that own every type in `req`.
pub open spec fn matched_of(skel: Skeleton, req: Seq<ComponentId>, ents: Seq<EntityId>) -> Seq<
    EntityId,
>
    decreases ents.len(),
{
    if ents.len() == 0 {
        Seq::empty()
    } else {
        let rest = matched_of(skel, req, ents.drop_last());
        if owns_all(skel, req, ents.last()) {
            rest.push(ents.last())
        } else {
            rest
        }
    }
}

/// The entities owning every required type, in the driver column's order.
/// An empty required set matches nothing.
pub open spec fn matched_entities(skel: Skeleton, req: Seq<ComponentId>) -> Seq<EntityId> {
    if req.len() == 0 {
        Seq::empty()
    } else {
        matched_of(skel, req, col_entities(skel, req[driver_idx(skel, req)]))
    }
}

/// The resolved query: one sub-list per required type, in required order,
/// holding the matched entities' slots in that type's column.
pub open spec fn spec_row(skel: Skeleton, req: Seq<ComponentId>) -> RowModel {
    Seq::new(
        req.len(),
        |i: int|
            (
                req[i],
                Seq::new(
                    matched_entities(skel, req).len(),
                    |k: int|
                        slot_of(
                            col_entities(skel, req[i]),
                            matched_entities(skel, req)[k],
                        ) as usize,
                ),
            ),
    )
}

/// A skeleton answers key lookups exactly as the column store it was taken
/// from.
pub proof fn lemma_skeleton_keys<C>(
    cols: Seq<(ComponentId, Seq<(EntityId, C)>)>,
    cid: ComponentId,
)
    requires
        unique_keys(cols),
    ensures
        unique_keys(skeleton_of(cols)),
        has_key(skeleton_of(cols), cid) == has_key(cols, cid),
        has_key(cols, cid) ==> index_of_key(skeleton_of(cols), cid) == index_of_key(cols, cid)
            && col_entities(skeleton_of(cols), cid) == entities_of(value_of_key(cols, cid)),
{
    let skel = skeleton_of(cols);
    assert(forall|i: int| 0 <= i < cols.len() ==> (#[trigger] skel[i]).0 == cols[i].0);
    if has_key(cols, cid) {
        let i = crate::keyed::index_of_key(cols, cid);
        crate::keyed::lemma_index_of_key_in_range(cols, cid);
        crate::keyed::lemma_index_of_key_found(cols, cid, i);
        assert(skel[i].0 == cid);
        crate::keyed::lemma_index_of_key_found(skel, cid, i);
    }
    if has_key(skel, cid) {
        let j = crate::keyed::index_of_key(skel, cid);
        crate::keyed::lemma_index_of_key_in_range(skel, cid);
        assert(cols[j].0 == cid);
    }
}

/// With distinct entities, a slot found by scanning is the slot the spec
/// lookup denotes.
pub proof fn lemma_slot_of_found(ents: Seq<EntityId>, e: EntityId, k: int)
    requires
        forall|a: int, b: int| 0 <= a < b < ents.len() ==> ents[a] != ents[b],
        0 <= k < ents.len(),
        ents[k] == e,
    ensures
        has_entity(ents, e),
        slot_of(ents, e) == k,
{
    assert(has_entity(ents, e));
    let s = slot_of(ents, e);
    if s < k {
        assert(ents[s] != ents[k]);
    } else if k < s {
        assert(ents[k] != ents[s]);
    }
}

/// The driver is one of the required types and its column is no larger than
/// any other required type's column.
pub proof fn lemma_driver_in_range(skel: Skeleton, req: Seq<ComponentId>)
    requires
        req.len() > 0,
    ensures
        0 <= driver_idx(skel, req) < req.len(),
        forall|i: int|
            0 <= i < req.len() ==> col_len(skel, req[driver_idx(skel, req)]) <= col_len(
                skel,
                #[trigger] req[i],
            ),
    decreases req.len(),
{
    if req.len() > 1 {
        lemma_driver_in_range(skel, req.drop_last());
        let j = driver_idx(skel, req.drop_last());
        assert(forall|i: int| 0 <= i < req.len() - 1 ==> req.drop_last()[i] == req[i]);
        assert(req.last() == req[req.len() - 1]);
    }
}

/// Soundness: every matched entity comes from `ents` and owns every required
/// type.
pub proof fn lemma_matched_of_sound(
    skel: Skeleton,
    req: Seq<ComponentId>,
    ents: Seq<EntityId>,
    k: int,
)
    requires
        0 <= k < matched_of(skel, req, ents).len(),
    ensures
        owns_all(skel, req, matched_of(skel, req, ents)[k]),
        has_entity(ents, matched_of(skel, req, ents)[k]),
    decreases ents.len(),
{
    if ents.len() > 0 {
        let rest = matched_of(skel, req, ents.drop_last());
        if owns_all(skel, req, ents.last()) && k == rest.len() {
            assert(ents[ents.len() - 1] == ents.last());
        } else {
            lemma_matched_of_sound(skel, req, ents.drop_last(), k);
            let e = matched_of(skel, req, ents)[k];
            assert(has_entity(ents.drop_last(), e));
            let j = choose|j: int| 0 <= j < ents.drop_last().len() && ents.drop_last()[j] == e;
            assert(ents[j] == e);
        }
    }
}

/// Completeness: a member of `ents` that owns every required type is
/// matched.
pub proof fn lemma_matched_of_complete(
    skel: Skeleton,
    req: Seq<ComponentId>,
    ents: Seq<EntityId>,
    e: EntityId,
)
    requires
        has_entity(ents, e),
        owns_all(skel, req, e),
    ensures
        has_entity(matched_of(skel, req, ents), e),
    decreases ents.len(),
{
    let m = matched_of(skel, req, ents);
    if ents.len() > 0 {
        let rest = matched_of(skel, req, ents.drop_last());
        if ents.last() == e {
            assert(m[m.len() - 1] == e);
        } else {
            let j = choose|j: int| 0 <= j < ents.len() && ents[j] == e;
            assert(j < ents.len() - 1);
            assert(ents.drop_last()[j] == e);
            lemma_matched_of_complete(skel, req, ents.drop_last(), e);
            let i = choose|i: int| 0 <= i < rest.len() && rest[i] == e;
            if owns_all(skel, req, ents.last()) {
                assert(m[i] == e);
            } else {
                assert(m[i] == e);
            }
        }
    }
}

/// A query is sound: every matched entity owns every required type.
pub proof fn lemma_intersection_sound(skel: Skeleton, req: Seq<ComponentId>, k: int)
    requires
        0 <= k < matched_entities(skel, req).len(),
    ensures
        owns_all(skel, req, matched_entities(skel, req)[k]),
{
    if req.len() > 0 {
        lemma_matched_of_sound(skel, req, col_entities(skel, req[driver_idx(skel, req)]), k);
    }
}

/// Row alignment: every sub-list of a resolved query is as long as the list
/// of matched entities, and position `k` of every sub-list is a slot of the
/// `k`-th matched entity in that sub-list's column.
pub proof fn lemma_row_aligned(skel: Skeleton, req: Seq<ComponentId>)
    requires
        forall|i: int| 0 <= i < req.len() ==> col_len(skel, #[trigger] req[i]) <= usize::MAX,
    ensures
        spec_row(skel, req).len() == req.len(),
        forall|i: int|
            0 <= i < req.len() ==> (#[trigger] spec_row(skel, req)[i]).0 == req[i] && spec_row(
                skel,
                req,
            )[i].1.len() == matched_entities(skel, req).len(),
        forall|i: int, k: int|
            0 <= i < req.len() && 0 <= k < matched_entities(skel, req).len() ==> (#[trigger] spec_row(
                skel,
                req,
            )[i].1[k]) < col_len(skel, req[i]) && col_entities(skel, req[i])[spec_row(
                skel,
                req,
            )[i].1[k] as int] == matched_entities(skel, req)[k],
{
    let m = matched_entities(skel, req);
    assert forall|i: int, k: int|
        0 <= i < req.len() && 0 <= k < m.len() implies (#[trigger] spec_row(skel, req)[i].1[k])
        < col_len(skel, req[i]) && col_entities(skel, req[i])[spec_row(skel, req)[i].1[k] as int]
        == m[k] by {
        lemma_intersection_sound(skel, req, k);
        let e = m[k];
        assert(has_entity(col_entities(skel, req[i]), e));
        let s = slot_of(col_entities(skel, req[i]), e);
        assert(0 <= s < col_entities(skel, req[i]).len() && col_entities(skel, req[i])[s] == e);
        assert(spec_row(skel, req)[i].1[k] == s as usize);
    }
}

/// The driver choice reads only the required types' columns.
proof fn lemma_driver_same_cols(s1: Skeleton, s2: Skeleton, req: Seq<ComponentId>)
    requires
        forall|i: int|
            0 <= i < req.len() ==> col_entities(s1, #[trigger] req[i]) == col_entities(s2, req[i]),
    ensures
        driver_idx(s1, req) == driver_idx(s2, req),
    decreases req.len(),
{
    if req.len() > 1 {
        assert(forall|i: int| 0 <= i < req.len() - 1 ==> req.drop_last()[i] == req[i]);
        lemma_driver_same_cols(s1, s2, req.drop_last());
        lemma_driver_in_range(s1, req.drop_last());
        assert(req.last() == req[req.len() - 1]);
        let j = driver_idx(s1, req.drop_last());
        assert(col_entities(s1, req[j]) == col_entities(s2, req[j]));
    }
}

/// The match filter reads only the required types' columns.
proof fn lemma_matched_of_same_cols(
    s1: Skeleton,
    s2: Skeleton,
    req: Seq<ComponentId>,
    ents: Seq<EntityId>,
)
    requires
        forall|i: int|
            0 <= i < req.len() ==> has_key(s1, #[trigger] req[i]) == has_key(s2, req[i])
                && col_entities(s1, req[i]) == col_entities(s2, req[i]),
    ensures
        matched_of(s1, req, ents) == matched_of(s2, req, ents),
    decreases ents.len(),
{
    if ents.len() > 0 {
        lemma_matched_of_same_cols(s1, s2, req, ents.drop_last());
        assert(owns_all(s1, req, ents.last()) == owns_all(s2, req, ents.last()));
    }
}

/// A resolved query reads only the required types' columns: two skeletons
/// that agree on those columns resolve to the same row.
pub proof fn lemma_row_same_cols(s1: Skeleton, s2: Skeleton, req: Seq<ComponentId>)
    requires
        forall|i: int|
            0 <= i < req.len() ==> has_key(s1, #[trigger] req[i]) == has_key(s2, req[i])
                && col_entities(s1, req[i]) == col_entities(s2, req[i]),
    ensures
        matched_entities(s1, req) == matched_entities(s2, req),
        spec_row(s1, req) == spec_row(s2, req),
{
    assert forall|e: EntityId| owns_all(s1, req, e) == owns_all(s2, req, e) by {}
    if req.len() > 0 {
        lemma_driver_same_cols(s1, s2, req);
        lemma_driver_in_range(s1, req);
        lemma_matched_of_same_cols(
            s1,
            s2,
            req,
            col_entities(s1, req[driver_idx(s1, req)]),
        );
    }
    let m1 = matched_entities(s1, req);
    let m2 = matched_entities(s2, req);
    assert(m1 == m2);
    assert forall|i: int| 0 <= i < req.len() implies spec_row(s1, req)[i] == spec_row(
        s2,
        req,
    )[i] by {
        assert(spec_row(s1, req)[i].1 =~= spec_row(s2, req)[i].1);
    }
    assert(spec_row(s1, req) =~= spec_row(s2, req));
}

/// When no entity owns every required type, the query matches nothing, so a
/// run over it invokes the system body zero times.
pub proof fn lemma_no_owner_no_match(skel: Skeleton, req: Seq<ComponentId>)
    requires
        forall|e: EntityId| !owns_all(skel, req, e),
    ensures
        matched_entities(skel, req).len() == 0,
{
    if matched_entities(skel, req).len() > 0 {
        lemma_intersection_sound(skel, req, 0);
    }
}

/// An entity owning a component of a type, in the full store, owns it in
/// the skeleton that queries read.
pub proof fn lemma_owner_in_skeleton<C>(
    cols: Seq<(ComponentId, Seq<(EntityId, C)>)>,
    ent: EntityId,
    cid: ComponentId,
)
    requires
        unique_keys(cols),
        has_key(cols, cid),
        has_key(value_of_key(cols, cid), ent),
    ensures
        has_key(skeleton_of(cols), cid),
        has_entity(col_entities(skeleton_of(cols), cid), ent),
{
    lemma_skeleton_keys(cols, cid);
    let entries = value_of_key(cols, cid);
    let k = index_of_key(entries, ent);
    crate::keyed::lemma_index_of_key_in_range(entries, ent);
    assert(col_entities(skeleton_of(cols), cid)[k] == entries[k].0);
}

/// A query is complete: an entity owning every required type is matched when
/// at least one type is required.
pub proof fn lemma_intersection_complete(skel: Skeleton, req: Seq<ComponentId>, e: EntityId)
    requires
        req.len() > 0,
        owns_all(skel, req, e),
    ensures
        has_entity(matched_entities(skel, req), e),
{
    lemma_driver_in_range(skel, req);
    let d = driver_idx(skel, req);
    assert(has_entity(col_entities(skel, req[d]), e));
    lemma_matched_of_complete(skel, req, col_entities(skel, req[d]), e);
}

} // verus!
