//! The world: the only entry point callers use.
//!
//! It owns the entity counter, the component store, the registry of system
//! required sets and the query cache, and drives one system execution:
//! resolve the required set through the cache, wrap the result in a claim
//! guard, and invoke the system body.
//!
//! The world's well-formedness carries the central invariant: every cached
//! row equals the intersection that a fresh computation over the current
//! store would produce for its system's registered required set.  An add
//! evicts exactly the entries whose required set names the added type; a
//! run body can only replace component values in place, which no query
//! reads.

use vstd::prelude::*;

use crate::component::ComponentId;
use crate::component::ComponentSet;
use crate::entity::EntityId;
use crate::error::EcsError;
use crate::intersect::RowModel;
use crate::intersect::Skeleton;
use crate::intersect::col_entities;
use crate::intersect::has_duplicate;
use crate::intersect::has_entity;
use crate::intersect::matched_entities;
use crate::intersect::owns_all;
use crate::intersect::row_model;
use crate::intersect::skeleton_of;
use crate::intersect::spec_row;
use crate::keyed::has_key;
use crate::keyed::index_of_key;
use crate::keyed::lemma_index_of_key_found;
use crate::keyed::lemma_index_of_key_in_range;
use crate::keyed::lemma_push_new_key;
use crate::keyed::lemma_remove_key;
use crate::keyed::lemma_update_value;
use crate::keyed::remove_key;
use crate::keyed::unique_keys;
use crate::keyed::upsert;
use crate::keyed::value_of_key;
use crate::store::ComponentStore;
use crate::store::spec_add_col;
use crate::store::spec_has_component;
use crate::store::spec_component_value;
use crate::system::System;
use crate::system::SystemFault;
use crate::system::SystemId;

verus! {

/// The registry read as a sequence of (system, required set) pairs.
pub open spec fn registry_of(s: Seq<(SystemId, Vec<ComponentId>)>) -> Seq<
    (SystemId, Seq<ComponentId>),
> {
    Seq::new(s.len(), |i: int| (s[i].0, s[i].1@))
}

/// The cache read as a sequence of (system, resolved row) pairs.
pub open spec fn cache_of(s: Seq<(SystemId, Vec<(ComponentId, Vec<usize>)>)>) -> Seq<
    (SystemId, RowModel),
> {
    Seq::new(s.len(), |i: int| (s[i].0, row_model(s[i].1@)))
}

/// Whether the registry names `cid` in the required set of `sid`.
pub open spec fn req_names(
    registry: Seq<(SystemId, Seq<ComponentId>)>,
    sid: SystemId,
    cid: ComponentId,
) -> bool {
    has_key(registry, sid) && value_of_key(registry, sid).contains(cid)
}

/// The cache after an add of type `cid`: exactly the entries whose system's
/// registered required set names `cid` are evicted, in order.
pub open spec fn spec_evict<R>(
    cache: Seq<(SystemId, R)>,
    registry: Seq<(SystemId, Seq<ComponentId>)>,
    cid: ComponentId,
) -> Seq<(SystemId, R)>
    decreases cache.len(),
{
    if cache.len() == 0 {
        Seq::empty()
    } else {
        let rest = spec_evict(cache.drop_last(), registry, cid);
        if req_names(registry, cache.last().0, cid) {
            rest
        } else {
            rest.push(cache.last())
        }
    }
}

/// Eviction is exact: an evicted sequence keeps, unchanged and in order,
/// exactly the entries whose system does not require the added type.
pub proof fn lemma_evict_facts<R>(
    cache: Seq<(SystemId, R)>,
    registry: Seq<(SystemId, Seq<ComponentId>)>,
    cid: ComponentId,
)
    requires
        unique_keys(cache),
    ensures
        unique_keys(spec_evict(cache, registry, cid)),
        forall|sid: SystemId|
            has_key(spec_evict(cache, registry, cid), sid) ==> has_key(cache, sid)
                && value_of_key(spec_evict(cache, registry, cid), sid) == value_of_key(cache, sid),
        forall|sid: SystemId|
            req_names(registry, sid, cid) ==> !has_key(spec_evict(cache, registry, cid), sid),
        forall|sid: SystemId|
            has_key(cache, sid) && !req_names(registry, sid, cid) ==> has_key(
                spec_evict(cache, registry, cid),
                sid,
            ),
    decreases cache.len(),
{
    let ev = spec_evict(cache, registry, cid);
    if cache.len() > 0 {
        let pre = cache.drop_last();
        let last = cache.last();
        assert(forall|i: int| 0 <= i < pre.len() ==> pre[i] == cache[i]);
        lemma_evict_facts(pre, registry, cid);
        let evp = spec_evict(pre, registry, cid);
        assert forall|sid: SystemId| has_key(pre, sid) implies has_key(cache, sid)
            && value_of_key(cache, sid) == value_of_key(pre, sid) by {
            let i = index_of_key(pre, sid);
            lemma_index_of_key_in_range(pre, sid);
            lemma_index_of_key_found(cache, sid, i);
        }
        assert(cache[cache.len() - 1] == last);
        if req_names(registry, last.0, cid) {
            assert(ev == evp);
            assert forall|sid: SystemId| has_key(ev, sid) implies has_key(cache, sid)
                && value_of_key(ev, sid) == value_of_key(cache, sid) by {}
            assert forall|sid: SystemId|
                has_key(cache, sid) && !req_names(registry, sid, cid) implies has_key(
                ev,
                sid,
            ) by {
                let i = index_of_key(cache, sid);
                lemma_index_of_key_in_range(cache, sid);
                assert(sid != last.0);
                assert(i < cache.len() - 1);
                assert(pre[i].0 == sid);
            }
        } else {
            assert(!has_key(pre, last.0)) by {
                if has_key(pre, last.0) {
                    let i = index_of_key(pre, last.0);
                    lemma_index_of_key_in_range(pre, last.0);
                    assert(cache[i].0 == cache[cache.len() - 1].0);
                }
            }
            assert(!has_key(evp, last.0));
            lemma_push_new_key(evp, last.0, last.1);
            assert(ev == evp.push(last));
            assert forall|sid: SystemId| has_key(ev, sid) implies has_key(cache, sid)
                && value_of_key(ev, sid) == value_of_key(cache, sid) by {
                if sid == last.0 {
                    lemma_index_of_key_found(cache, sid, cache.len() - 1);
                } else {
                    assert(has_key(evp, sid)) by {
                        let i = index_of_key(ev, sid);
                        lemma_index_of_key_in_range(ev, sid);
                        assert(i < evp.len());
                        assert(evp[i].0 == sid);
                    }
                }
            }
            assert forall|sid: SystemId|
                req_names(registry, sid, cid) implies !has_key(ev, sid) by {
                assert(sid != last.0);
                assert(!has_key(evp, sid));
                if has_key(ev, sid) {
                    let i = index_of_key(ev, sid);
                    lemma_index_of_key_in_range(ev, sid);
                    assert(i < evp.len());
                    assert(evp[i].0 == sid);
                }
            }
            assert forall|sid: SystemId|
                has_key(cache, sid) && !req_names(registry, sid, cid) implies has_key(
                ev,
                sid,
            ) by {
                if sid == last.0 {
                    assert(ev[ev.len() - 1].0 == sid);
                } else {
                    let i = index_of_key(cache, sid);
                    lemma_index_of_key_in_range(cache, sid);
                    assert(i < cache.len() - 1);
                    assert(pre[i].0 == sid);
                    assert(has_key(evp, sid));
                    let j = index_of_key(evp, sid);
                    lemma_index_of_key_in_range(evp, sid);
                    assert(ev[j].0 == sid);
                }
            }
        }
    }
}

/// Reading a raw cache as a model commutes with eviction.
proof fn lemma_evict_model(
    raw: Seq<(SystemId, Vec<(ComponentId, Vec<usize>)>)>,
    registry: Seq<(SystemId, Seq<ComponentId>)>,
    cid: ComponentId,
)
    ensures
        cache_of(spec_evict(raw, registry, cid)) == spec_evict(cache_of(raw), registry, cid),
    decreases raw.len(),
{
    if raw.len() == 0 {
        assert(cache_of(spec_evict(raw, registry, cid)) =~= spec_evict(
            cache_of(raw),
            registry,
            cid,
        ));
    } else {
        lemma_evict_model(raw.drop_last(), registry, cid);
        assert(cache_of(raw).drop_last() =~= cache_of(raw.drop_last()));
        assert(cache_of(raw).last() == (raw.last().0, row_model(raw.last().1@)));
        if req_names(registry, raw.last().0, cid) {
        } else {
            assert(cache_of(spec_evict(raw, registry, cid)) =~= cache_of(
                spec_evict(raw.drop_last(), registry, cid),
            ).push((raw.last().0, row_model(raw.last().1@))));
        }
    }
}

/// Whether the registered required set of `sid` names `cid`.
fn req_contains_exec(
    systems: &Vec<(SystemId, Vec<ComponentId>)>,
    sid: SystemId,
    cid: ComponentId,
) -> (r: bool)
    requires
        unique_keys(registry_of(systems@)),
    ensures
        r == req_names(registry_of(systems@), sid, cid),
{
    let ghost reg = registry_of(systems@);
    let mut i: usize = 0;
    while i < systems.len()
        invariant
            unique_keys(reg),
            reg == registry_of(systems@),
            i <= systems@.len(),
            forall|k: int| 0 <= k < i ==> (#[trigger] systems@[k]).0 != sid,
        decreases systems@.len() - i,
    {
        if systems[i].0 == sid {
            proof {
                assert(reg[i as int].0 == sid);
                lemma_index_of_key_found(reg, sid, i as int);
            }
            let req = &systems[i].1;
            let mut j: usize = 0;
            while j < req.len()
                invariant
                    i < systems@.len(),
                    req@ == systems@[i as int].1@,
                    reg == registry_of(systems@),
                    has_key(reg, sid),
                    value_of_key(reg, sid) == req@,
                    j <= req@.len(),
                    forall|k: int| 0 <= k < j ==> req@[k] != cid,
                decreases req@.len() - j,
            {
                if req[j] == cid {
                    return true;
                }
                j = j + 1;
            }
            proof {
                if value_of_key(reg, sid).contains(cid) {
                    let k = choose|k: int| 0 <= k < req@.len() && req@[k] == cid;
                    assert(req@[k] == cid);
                }
            }
            return false;
        }
        i = i + 1;
    }
    proof {
        if has_key(reg, sid) {
            let k = index_of_key(reg, sid);
            lemma_index_of_key_in_range(reg, sid);
            assert(systems@[k].0 == sid);
        }
    }
    false
}

/// What one call of `add_component` does, as a relation between the world
/// before and the world after.
pub open spec fn add_effect<C>(
    pre: World<C>,
    post: World<C>,
    r: Result<(), EcsError>,
    ent: EntityId,
    cid: ComponentId,
    data: C,
) -> bool {
    &&& post.wf()
    &&& ((ent as int) >= pre.entity_count() ==> r == Err::<(), EcsError>(
        EcsError::EntityNotFound(ent),
    ) && post.state_eq(pre))
    &&& ((ent as int) < pre.entity_count() && pre.has_component(ent, cid) ==> r == Err::<
        (),
        EcsError,
    >(EcsError::ComponentAlreadyExists(ent, cid)) && post.state_eq(pre))
    &&& ((ent as int) < pre.entity_count() && !pre.has_component(ent, cid) ==> {
        &&& r == Ok::<(), EcsError>(())
        &&& post.cols() == spec_add_col(pre.cols(), ent, cid, data)
        &&& post.registry() == pre.registry()
        &&& post.cached() == spec_evict(pre.cached(), pre.registry(), cid)
        &&& post.entity_count() == pre.entity_count()
        &&& post.spec_recomputes() == pre.spec_recomputes()
    })
}

/// What one call of `resolve` does for a duplicate-free required set:
/// `out` is the resolved row, or nothing when no entity matches.
pub open spec fn resolve_effect<C>(
    pre: World<C>,
    post: World<C>,
    out: Option<RowModel>,
    sid: SystemId,
    req: Seq<ComponentId>,
) -> bool {
    let row = spec_row(pre.skel(), req);
    let n = matched_entities(pre.skel(), req).len();
    let hit = has_key(pre.cached(), sid) && has_key(pre.registry(), sid) && value_of_key(
        pre.registry(),
        sid,
    ) == req;
    &&& post.wf()
    &&& post.cols() == pre.cols()
    &&& post.entity_count() == pre.entity_count()
    &&& post.registry() == upsert(pre.registry(), sid, req)
    &&& (hit ==> post.state_eq(pre))
    &&& (!hit ==> post.spec_recomputes() == bump(pre.spec_recomputes()))
    &&& (n == 0 ==> out is None && post.cached() == remove_key(pre.cached(), sid))
    &&& (n > 0 ==> out == Some(row))
    &&& (n > 0 && !hit ==> post.cached() == remove_key(pre.cached(), sid).push((sid, row)))
}

/// The row a resolution handed out, read off its result.
pub open spec fn outcome_of(r: Result<Option<ComponentSet>, SystemFault>) -> Option<RowModel> {
    match r {
        Ok(Some(cs)) => Some(cs.row()),
        _ => None,
    }
}

/// A saturating step of the recomputation counter.
pub open spec fn bump(n: u64) -> u64 {
    if n == u64::MAX {
        n
    } else {
        (n + 1) as u64
    }
}

/// A copy of a required set.
fn copy_ids(src: &Vec<ComponentId>) -> (r: Vec<ComponentId>)
    ensures
        r@ == src@,
{
    let mut r: Vec<ComponentId> = Vec::new();
    let n = src.len();
    let mut i: usize = 0;
    while i < n
        invariant
            i <= n,
            n == src@.len(),
            r@ == src@.take(i as int),
        decreases n - i,
    {
        r.push(src[i]);
        proof {
            assert(r@ =~= src@.take(i as int + 1));
        }
        i = i + 1;
    }
    proof {
        assert(r@ =~= src@);
    }
    r
}

/// A copy of a resolved row.
fn clone_row(src: &Vec<(ComponentId, Vec<usize>)>) -> (r: Vec<(ComponentId, Vec<usize>)>)
    ensures
        row_model(r@) == row_model(src@),
{
    let mut r: Vec<(ComponentId, Vec<usize>)> = Vec::new();
    let n = src.len();
    let mut i: usize = 0;
    while i < n
        invariant
            i <= n,
            n == src@.len(),
            r@.len() == i,
            forall|k: int|
                0 <= k < i ==> (#[trigger] r@[k]).0 == src@[k].0 && r@[k].1@ == src@[k].1@,
        decreases n - i,
    {
        let cid = src[i].0;
        let inner = &src[i].1;
        let mut slots: Vec<usize> = Vec::new();
        let m = inner.len();
        let mut k: usize = 0;
        while k < m
            invariant
                k <= m,
                m == inner@.len(),
                slots@ == inner@.take(k as int),
            decreases m - k,
        {
            slots.push(inner[k]);
            proof {
                assert(slots@ =~= inner@.take(k as int + 1));
            }
            k = k + 1;
        }
        proof {
            assert(slots@ =~= inner@);
        }
        r.push((cid, slots));
        i = i + 1;
    }
    proof {
        assert(row_model(r@) =~= row_model(src@));
    }
    r
}

/// Whether two required sets hold the same identifiers in the same order.
fn ids_eq(a: &Vec<ComponentId>, b: &Vec<ComponentId>) -> (r: bool)
    ensures
        r == (a@ == b@),
{
    if a.len() != b.len() {
        return false;
    }
    let n = a.len();
    let mut i: usize = 0;
    while i < n
        invariant
            i <= n,
            n == a@.len(),
            n == b@.len(),
            forall|k: int| 0 <= k < i ==> a@[k] == b@[k],
        decreases n - i,
    {
        if a[i] != b[i] {
            return false;
        }
        i = i + 1;
    }
    proof {
        assert(a@ =~= b@);
    }
    true
}

/// The position of `sid` in the registry, if registered.
fn find_sys(systems: &Vec<(SystemId, Vec<ComponentId>)>, sid: SystemId) -> (r: Option<usize>)
    requires
        unique_keys(registry_of(systems@)),
    ensures
        r is Some <==> has_key(registry_of(systems@), sid),
        r matches Some(i) ==> i < systems@.len() && i == index_of_key(registry_of(systems@), sid)
            && systems@[i as int].0 == sid,
{
    let ghost reg = registry_of(systems@);
    let mut i: usize = 0;
    while i < systems.len()
        invariant
            unique_keys(reg),
            reg == registry_of(systems@),
            i <= systems@.len(),
            forall|k: int| 0 <= k < i ==> (#[trigger] systems@[k]).0 != sid,
        decreases systems@.len() - i,
    {
        if systems[i].0 == sid {
            proof {
                assert(reg[i as int].0 == sid);
                lemma_index_of_key_found(reg, sid, i as int);
            }
            return Some(i);
        }
        i = i + 1;
    }
    proof {
        if has_key(reg, sid) {
            let k = index_of_key(reg, sid);
            lemma_index_of_key_in_range(reg, sid);
            assert(systems@[k].0 == sid);
        }
    }
    None
}

/// The position of `sid` in the cache, if memoized.
fn find_cache(cache: &Vec<(SystemId, Vec<(ComponentId, Vec<usize>)>)>, sid: SystemId) -> (r:
    Option<usize>)
    requires
        unique_keys(cache_of(cache@)),
    ensures
        r is Some <==> has_key(cache_of(cache@), sid),
        r matches Some(i) ==> i < cache@.len() && i == index_of_key(cache_of(cache@), sid)
            && cache@[i as int].0 == sid,
{
    let ghost model = cache_of(cache@);
    let mut i: usize = 0;
    while i < cache.len()
        invariant
            unique_keys(model),
            model == cache_of(cache@),
            i <= cache@.len(),
            forall|k: int| 0 <= k < i ==> (#[trigger] cache@[k]).0 != sid,
        decreases cache@.len() - i,
    {
        if cache[i].0 == sid {
            proof {
                assert(model[i as int].0 == sid);
                lemma_index_of_key_found(model, sid, i as int);
            }
            return Some(i);
        }
        i = i + 1;
    }
    proof {
        if has_key(model, sid) {
            let k = index_of_key(model, sid);
            lemma_index_of_key_in_range(model, sid);
            assert(cache@[k].0 == sid);
        }
    }
    None
}

pub struct World<C> {
    next_entity: EntityId,
    store: ComponentStore<C>,
    systems: Vec<(SystemId, Vec<ComponentId>)>,
    cache: Vec<(SystemId, Vec<(ComponentId, Vec<usize>)>)>,
    recomputes: u64,
}

impl<C> World<C> {
    /// How many entities have been registered; ids `0 .. entity_count` are
    /// the live ones.
    pub closed spec fn entity_count(self) -> int {
        self.next_entity as int
    }

    /// The component store's contents.
    pub closed spec fn cols(self) -> Seq<(ComponentId, Seq<(EntityId, C)>)> {
        self.store.cols()
    }

    /// The store's skeleton, which queries read.
    pub open spec fn skel(self) -> Skeleton {
        skeleton_of(self.cols())
    }

    /// The registered systems' required sets.
    pub closed spec fn registry(self) -> Seq<(SystemId, Seq<ComponentId>)> {
        registry_of(self.systems@)
    }

    /// The memoized queries.
    pub closed spec fn cached(self) -> Seq<(SystemId, RowModel)> {
        cache_of(self.cache@)
    }

    /// How many times a query has been computed rather than served from the
    /// cache.
    pub closed spec fn spec_recomputes(self) -> u64 {
        self.recomputes
    }

    /// The entity owns a component of type `cid`.
    pub open spec fn has_component(self, ent: EntityId, cid: ComponentId) -> bool {
        spec_has_component(self.cols(), ent, cid)
    }

    /// The component of type `cid` owned by the entity.
    pub open spec fn component_value(self, ent: EntityId, cid: ComponentId) -> C {
        spec_component_value(self.cols(), ent, cid)
    }

    /// The world's invariant: the store is well formed, its entities are
    /// registered, systems and cache are keyed uniquely, and every cached
    /// row is exactly what recomputing its system's query would produce
    /// now.
    pub closed spec fn wf(self) -> bool {
        &&& self.store.wf()
        &&& forall|i: int, k: int|
            0 <= i < self.cols().len() && 0 <= k < (#[trigger] self.cols()[i]).1.len()
                ==> (#[trigger] self.cols()[i].1[k]).0 < self.next_entity
        &&& unique_keys(self.registry())
        &&& unique_keys(self.cached())
        &&& forall|j: int|
            0 <= j < self.cached().len() ==> {
                let entry = #[trigger] self.cached()[j];
                &&& has_key(self.registry(), entry.0)
                &&& entry.1 == spec_row(self.skel(), value_of_key(self.registry(), entry.0))
                &&& matched_entities(
                    self.skel(),
                    value_of_key(self.registry(), entry.0),
                ).len() > 0
            }
    }

    pub fn new() -> (r: Self)
        ensures
            r.wf(),
            r.entity_count() == 0,
            r.cols() == Seq::<(ComponentId, Seq<(EntityId, C)>)>::empty(),
            r.registry() == Seq::<(SystemId, Seq<ComponentId>)>::empty(),
            r.cached() == Seq::<(SystemId, RowModel)>::empty(),
            r.spec_recomputes() == 0,
    {
        let r = Self {
            next_entity: 0,
            store: ComponentStore::new(),
            systems: Vec::new(),
            cache: Vec::new(),
            recomputes: 0,
        };
        proof {
            assert(r.registry() =~= Seq::<(SystemId, Seq<ComponentId>)>::empty());
            assert(r.cached() =~= Seq::<(SystemId, RowModel)>::empty());
        }
        r
    }

    /// Registers a fresh entity: an id never handed out before.
    pub fn register_entity(&mut self) -> (r: EntityId)
        requires
            old(self).wf(),
            old(self).entity_count() < EntityId::MAX,
        ensures
            final(self).wf(),
            r as int == old(self).entity_count(),
            final(self).entity_count() == old(self).entity_count() + 1,
            final(self).cols() == old(self).cols(),
            final(self).registry() == old(self).registry(),
            final(self).cached() == old(self).cached(),
            final(self).spec_recomputes() == old(self).spec_recomputes(),
    {
        let id = self.next_entity;
        self.next_entity = self.next_entity + 1;
        proof {
            assert(self.cols() == old(self).cols());
            assert(self.registry() == old(self).registry());
            assert(self.cached() == old(self).cached());
            assert forall|i: int, k: int|
                0 <= i < self.cols().len() && 0 <= k < (#[trigger] self.cols()[i]).1.len()
                    implies (#[trigger] self.cols()[i].1[k]).0 < self.next_entity by {
                assert(old(self).cols()[i].1[k].0 < old(self).next_entity);
            }
            assert(self.wf());
        }
        id
    }

    /// Two worlds hold the same state: same entities, components, registry,
    /// cache and counter.
    pub open spec fn state_eq(self, other: World<C>) -> bool {
        &&& self.entity_count() == other.entity_count()
        &&& self.cols() == other.cols()
        &&& self.registry() == other.registry()
        &&& self.cached() == other.cached()
        &&& self.spec_recomputes() == other.spec_recomputes()
    }

    /// Attaches a component to a registered entity.  An unknown entity and
    /// a second component of one type are the two recoverable errors, and
    /// leave the world unchanged.  A successful add appends to the type's
    /// column and evicts exactly the cached queries whose required set
    /// names that type.
    pub fn add_component(&mut self, ent: EntityId, comp_id: ComponentId, data: C) -> (r: Result<
        (),
        EcsError,
    >)
        requires
            old(self).wf(),
        ensures
            add_effect(*old(self), *final(self), r, ent, comp_id, data),
    {
        if ent >= self.next_entity {
            return Err(EcsError::EntityNotFound(ent));
        }
        let res = self.store.add(ent, comp_id, data);
        match res {
            Err(e) => {
                proof {
                    assert(self.cols() == old(self).cols());
                    assert(self.cached() == old(self).cached());
                    assert(self.registry() == old(self).registry());
                    assert(self.wf());
                }
                Err(e)
            },
            Ok(_) => {
                let ghost orig = self.cache@;
                let ghost reg = registry_of(self.systems@);
                let ghost snap_store = self.store;
                proof {
                    assert(reg == old(self).registry());
                    assert(cache_of(orig) == old(self).cached());
                    assert(orig.take(0) =~= Seq::<
                        (SystemId, Vec<(ComponentId, Vec<usize>)>),
                    >::empty());
                    assert(self.cache@ =~= spec_evict(orig.take(0), reg, comp_id) + orig.skip(0));
                }
                let mut j: usize = 0;
                let ghost mut g: int = 0;
                while j < self.cache.len()
                    invariant
                        unique_keys(registry_of(self.systems@)),
                        reg == registry_of(self.systems@),
                        0 <= g <= orig.len(),
                        j as int == spec_evict(orig.take(g), reg, comp_id).len(),
                        self.cache@ == spec_evict(orig.take(g), reg, comp_id) + orig.skip(g),
                        self.store == snap_store,
                        self.systems@ == old(self).systems@,
                        self.next_entity == old(self).next_entity,
                        self.recomputes == old(self).recomputes,
                    decreases orig.len() - g,
                {
                    proof {
                        assert(orig.skip(g).len() > 0);
                        assert(self.cache@[j as int] == orig.skip(g)[0]);
                        assert(orig.skip(g)[0] == orig[g]);
                    }
                    let sid = self.cache[j].0;
                    let evict = req_contains_exec(&self.systems, sid, comp_id);
                    proof {
                        let p1 = orig.take(g + 1);
                        assert(p1.drop_last() =~= orig.take(g));
                        assert(p1.last() == orig[g]);
                    }
                    if evict {
                        self.cache.remove(j);
                        proof {
                            g = g + 1;
                            assert(self.cache@ =~= spec_evict(orig.take(g), reg, comp_id)
                                + orig.skip(g));
                        }
                    } else {
                        j = j + 1;
                        proof {
                            g = g + 1;
                            assert(self.cache@ =~= spec_evict(orig.take(g), reg, comp_id)
                                + orig.skip(g));
                        }
                    }
                }
                proof {
                    assert(g == orig.len()) by {
                        assert(orig.skip(g).len() == 0);
                    }
                    assert(orig.take(g) =~= orig);
                    assert(self.cache@ =~= spec_evict(orig, reg, comp_id));
                    lemma_evict_model(orig, reg, comp_id);
                    assert(self.cached() == spec_evict(old(self).cached(), reg, comp_id));
                    self.lemma_wf_after_add(*old(self), ent, comp_id, data);
                }
                Ok(())
            },
        }
    }

    /// Re-establishes the invariant after a successful add followed by the
    /// exact eviction.
    proof fn lemma_wf_after_add(self, pre: World<C>, ent: EntityId, comp_id: ComponentId, data: C)
        requires
            pre.wf(),
            (ent as int) < pre.entity_count(),
            !pre.has_component(ent, comp_id),
            self.store.wf(),
            self.cols() == spec_add_col(pre.cols(), ent, comp_id, data),
            self.registry() == pre.registry(),
            self.cached() == spec_evict(pre.cached(), pre.registry(), comp_id),
            self.entity_count() == pre.entity_count(),
        ensures
            self.wf(),
    {
        let pcols = pre.cols();
        let cols = self.cols();
        let reg = pre.registry();
        crate::store::lemma_add_col_facts(pcols, ent, comp_id, data);
        lemma_evict_facts(pre.cached(), reg, comp_id);
        // Entities in columns stay below the counter.
        assert forall|i: int, k: int|
            0 <= i < cols.len() && 0 <= k < (#[trigger] cols[i]).1.len()
                implies (#[trigger] cols[i].1[k]).0 < self.spec_next_entity() by {
            if has_key(pcols, comp_id) {
                let ci = index_of_key(pcols, comp_id);
                lemma_index_of_key_in_range(pcols, comp_id);
                if i == ci {
                    assert(cols[i].1 == value_of_key(pcols, comp_id).push((ent, data)));
                    assert(pcols[ci].1 == value_of_key(pcols, comp_id));
                    if k < cols[i].1.len() - 1 {
                        assert(cols[i].1[k] == pcols[ci].1[k]);
                    } else {
                        assert(cols[i].1[k] == (ent, data));
                    }
                } else {
                    assert(cols[i] == pcols[i]);
                }
            } else {
                if i < pcols.len() {
                    assert(cols[i] == pcols[i]);
                } else {
                    assert(cols[i] == (comp_id, seq![(ent, data)]));
                    assert(cols[i].1[k] == (ent, data));
                }
            }
        }
        // Every surviving cache entry still matches a fresh computation.
        assert forall|j: int| 0 <= j < self.cached().len() implies {
            let entry = #[trigger] self.cached()[j];
            &&& has_key(self.registry(), entry.0)
            &&& entry.1 == spec_row(self.skel(), value_of_key(self.registry(), entry.0))
            &&& matched_entities(self.skel(), value_of_key(self.registry(), entry.0)).len() > 0
        } by {
            let ev = self.cached();
            let entry = ev[j];
            let sid = entry.0;
            lemma_index_of_key_found(ev, sid, j);
            assert(has_key(ev, sid) && value_of_key(ev, sid) == entry.1);
            assert(has_key(pre.cached(), sid) && value_of_key(pre.cached(), sid) == entry.1);
            let j0 = index_of_key(pre.cached(), sid);
            lemma_index_of_key_in_range(pre.cached(), sid);
            assert(pre.cached()[j0] == (sid, entry.1));
            let req = value_of_key(reg, sid);
            assert(entry.1 == spec_row(pre.skel(), req));
            assert(!req_names(reg, sid, comp_id));
            assert(forall|i: int| 0 <= i < req.len() ==> req[i] != comp_id);
            assert forall|i: int|
                0 <= i < req.len() implies has_key(self.skel(), #[trigger] req[i]) == has_key(
                pre.skel(),
                req[i],
            ) && col_entities(self.skel(), req[i]) == col_entities(pre.skel(), req[i]) by {
                assert(req[i] != comp_id);
            }
            crate::intersect::lemma_row_same_cols(pre.skel(), self.skel(), req);
        }
        assert(self.wf());
    }

    /// Resolves a system's required set: from the cache when the same set
    /// is memoized and still valid, recomputed otherwise.  Returns the
    /// claim guard over the resolved row, `None` when no entity owns every
    /// required type, and the duplicate-requirement fault when the set
    /// names one type twice.
    pub fn resolve(&mut self, sid: SystemId, req: &Vec<ComponentId>) -> (r: Result<
        Option<ComponentSet>,
        SystemFault,
    >)
        requires
            old(self).wf(),
        ensures
            final(self).wf(),
            r is Err <==> has_duplicate(req@),
            r matches Err(f) ==> final(self).state_eq(*old(self)) && (f matches
                SystemFault::DuplicateRequirement(c) && req@.contains(c)),
            r matches Ok(Some(cs)) ==> cs.wf() && cs.row() == spec_row(old(self).skel(), req@)
                && (forall|i: int| !cs.claimed(i)),
            !has_duplicate(req@) ==> resolve_effect(
                *old(self),
                *final(self),
                outcome_of(r),
                sid,
                req@,
            ),
    {
        let n = req.len();
        let mut i: usize = 0;
        while i < n
            invariant
                old(self).wf(),
                *self == *old(self),
                i <= n,
                n == req@.len(),
                forall|a: int, b: int| 0 <= a < i && a < b < n ==> req@[a] != req@[b],
            decreases n - i,
        {
            let mut j: usize = i + 1;
            while j < n
                invariant
                    old(self).wf(),
                    *self == *old(self),
                    i < n,
                    i < j,
                    j <= n,
                    n == req@.len(),
                    forall|b: int| i < b < j ==> req@[i as int] != req@[b],
                decreases n - j,
            {
                if req[i] == req[j] {
                    proof {
                        assert(has_duplicate(req@));
                        assert(req@.contains(req@[i as int]));
                    }
                    return Err(SystemFault::DuplicateRequirement(req[i]));
                }
                j = j + 1;
            }
            i = i + 1;
        }
        proof {
            assert(!has_duplicate(req@));
        }

        let reg_i = find_sys(&self.systems, sid);
        let same = match reg_i {
            Some(ri) => ids_eq(&self.systems[ri].1, req),
            None => false,
        };
        if same {
            let ri = reg_i.unwrap();
            proof {
                lemma_index_of_key_found(self.registry(), sid, ri as int);
                assert(value_of_key(self.registry(), sid) == req@);
            }
            let ci = find_cache(&self.cache, sid);
            match ci {
                Some(cj) => {
                    proof {
                        lemma_index_of_key_in_range(self.cached(), sid);
                        assert(self.cached()[cj as int] == (sid, row_model(
                            self.cache@[cj as int].1@,
                        )));
                        assert(self.cached()[cj as int].1 == spec_row(self.skel(), req@));
                        assert(unique_keys(row_model(self.cache@[cj as int].1@))) by {
                            let row = spec_row(self.skel(), req@);
                            assert(forall|a: int|
                                0 <= a < row.len() ==> (#[trigger] row[a]).0 == req@[a]);
                        }
                    }
                    let row_copy = clone_row(&self.cache[cj].1);
                    let cs = ComponentSet::new(row_copy);
                    proof {
                        assert(self.registry() =~= upsert(self.registry(), sid, req@)) by {
                            lemma_index_of_key_in_range(self.registry(), sid);
                            assert(self.registry()[index_of_key(self.registry(), sid)] == (
                                sid,
                                req@,
                            ));
                        }
                        assert(matched_entities(self.skel(), req@).len() > 0);
                    }
                    return Ok(Some(cs));
                },
                None => {
                    proof {
                        assert(self.registry() =~= upsert(old(self).registry(), sid, req@)) by {
                            lemma_index_of_key_in_range(self.registry(), sid);
                            assert(self.registry()[index_of_key(self.registry(), sid)] == (
                                sid,
                                req@,
                            ));
                        }
                        assert(self.cached() == remove_key(old(self).cached(), sid));
                    }
                },
            }
        } else {
            match reg_i {
                Some(ri) => {
                    let ids = copy_ids(req);
                    self.systems[ri] = (sid, ids);
                    proof {
                        assert(self.registry() =~= upsert(old(self).registry(), sid, req@));
                    }
                },
                None => {
                    let ids = copy_ids(req);
                    self.systems.push((sid, ids));
                    proof {
                        assert(self.registry() =~= upsert(old(self).registry(), sid, req@));
                    }
                },
            }
            let ci = find_cache(&self.cache, sid);
            match ci {
                Some(cj) => {
                    self.cache.remove(cj);
                    proof {
                        assert(self.cached() =~= remove_key(old(self).cached(), sid));
                    }
                },
                None => {
                    proof {
                        assert(self.cached() == remove_key(old(self).cached(), sid));
                    }
                },
            }
        }
        // Recompute: the cache holds nothing valid for this system.
        let ghost mid = *self;
        let row = self.store.find_intersection(req);
        if self.recomputes < u64::MAX {
            self.recomputes = self.recomputes + 1;
        }
        let nonempty = if row.len() > 0 {
            row[0].1.len() > 0
        } else {
            false
        };
        proof {
            assert(row_model(row@) == spec_row(old(self).skel(), req@));
            if req@.len() > 0 {
                assert(row_model(row@)[0].1.len() == matched_entities(
                    old(self).skel(),
                    req@,
                ).len());
                assert(row@[0].1@ == row_model(row@)[0].1);
            }
            assert(nonempty <==> matched_entities(old(self).skel(), req@).len() > 0);
        }
        if nonempty {
            proof {
                assert(unique_keys(row_model(row@))) by {
                    let rm = row_model(row@);
                    assert(forall|a: int| 0 <= a < rm.len() ==> (#[trigger] rm[a]).0 == req@[a]);
                }
            }
            let cs_row = clone_row(&row);
            let cs = ComponentSet::new(cs_row);
            self.cache.push((sid, row));
            proof {
                assert(self.cached() =~= mid.cached().push((
                    sid,
                    spec_row(old(self).skel(), req@),
                )));
                self.lemma_wf_after_miss(*old(self), sid, req@);
            }
            Ok(Some(cs))
        } else {
            proof {
                self.lemma_wf_after_empty(*old(self), sid, req@);
            }
            Ok(None)
        }
    }

    /// After a recomputation that found matches: the invariant holds with
    /// the new registry binding and the new cache entry.
    proof fn lemma_wf_after_miss(self, pre: World<C>, sid: SystemId, req: Seq<ComponentId>)
        requires
            pre.wf(),
            !has_duplicate(req),
            self.cols() == pre.cols(),
            self.entity_count() == pre.entity_count(),
            self.registry() == upsert(pre.registry(), sid, req),
            matched_entities(pre.skel(), req).len() > 0,
            self.cached() == remove_key(pre.cached(), sid).push(
                (sid, spec_row(pre.skel(), req)),
            ),
        ensures
            self.wf(),
    {
        let reg = pre.registry();
        let reg2 = self.registry();
        let removed = remove_key(pre.cached(), sid);
        if has_key(reg, sid) {
            lemma_index_of_key_in_range(reg, sid);
            lemma_update_value(reg, index_of_key(reg, sid), req);
            assert(reg[index_of_key(reg, sid)].0 == sid);
        } else {
            lemma_push_new_key(reg, sid, req);
        }
        assert(unique_keys(reg2));
        assert(value_of_key(reg2, sid) == req);
        if has_key(pre.cached(), sid) {
            lemma_index_of_key_in_range(pre.cached(), sid);
            lemma_remove_key(pre.cached(), index_of_key(pre.cached(), sid));
            assert(pre.cached()[index_of_key(pre.cached(), sid)].0 == sid);
        }
        assert(unique_keys(removed));
        assert(!has_key(removed, sid));
        lemma_push_new_key(removed, sid, spec_row(pre.skel(), req));
        assert(unique_keys(self.cached()));
        assert forall|sid2: SystemId| has_key(removed, sid2) implies sid2 != sid && has_key(
            pre.cached(),
            sid2,
        ) && value_of_key(removed, sid2) == value_of_key(pre.cached(), sid2) by {
            if has_key(pre.cached(), sid) {
                let i0 = index_of_key(pre.cached(), sid);
                if sid2 == sid {
                    assert(!has_key(removed, sid));
                }
            }
        }
        assert forall|j: int| 0 <= j < self.cached().len() implies {
            let entry = #[trigger] self.cached()[j];
            &&& has_key(self.registry(), entry.0)
            &&& entry.1 == spec_row(self.skel(), value_of_key(self.registry(), entry.0))
            &&& matched_entities(self.skel(), value_of_key(self.registry(), entry.0)).len() > 0
        } by {
            let entry = self.cached()[j];
            let sid2 = entry.0;
            lemma_index_of_key_found(self.cached(), sid2, j);
            if sid2 == sid {
                assert(entry == (sid, spec_row(pre.skel(), req)));
                assert(self.skel() == pre.skel());
            } else {
                assert(j < removed.len());
                assert(removed[j] == entry);
                assert(has_key(removed, sid2));
                assert(value_of_key(removed, sid2) == entry.1) by {
                    lemma_index_of_key_found(removed, sid2, j);
                }
                let j0 = index_of_key(pre.cached(), sid2);
                lemma_index_of_key_in_range(pre.cached(), sid2);
                assert(pre.cached()[j0] == (sid2, entry.1));
                assert(has_key(reg, sid2));
                assert(value_of_key(reg2, sid2) == value_of_key(reg, sid2));
            }
        }
        assert(self.wf());
    }

    /// After a recomputation that found no matches: nothing is cached for
    /// the system, and the invariant holds with the new registry binding.
    proof fn lemma_wf_after_empty(self, pre: World<C>, sid: SystemId, req: Seq<ComponentId>)
        requires
            pre.wf(),
            self.cols() == pre.cols(),
            self.entity_count() == pre.entity_count(),
            self.registry() == upsert(pre.registry(), sid, req),
            self.cached() == remove_key(pre.cached(), sid),
        ensures
            self.wf(),
    {
        let reg = pre.registry();
        let reg2 = self.registry();
        let removed = remove_key(pre.cached(), sid);
        if has_key(reg, sid) {
            lemma_index_of_key_in_range(reg, sid);
            lemma_update_value(reg, index_of_key(reg, sid), req);
            assert(reg[index_of_key(reg, sid)].0 == sid);
        } else {
            lemma_push_new_key(reg, sid, req);
        }
        if has_key(pre.cached(), sid) {
            lemma_index_of_key_in_range(pre.cached(), sid);
            lemma_remove_key(pre.cached(), index_of_key(pre.cached(), sid));
            assert(pre.cached()[index_of_key(pre.cached(), sid)].0 == sid);
        }
        assert(unique_keys(self.cached()));
        assert forall|j: int| 0 <= j < self.cached().len() implies {
            let entry = #[trigger] self.cached()[j];
            &&& has_key(self.registry(), entry.0)
            &&& entry.1 == spec_row(self.skel(), value_of_key(self.registry(), entry.0))
            &&& matched_entities(self.skel(), value_of_key(self.registry(), entry.0)).len() > 0
        } by {
            let entry = self.cached()[j];
            let sid2 = entry.0;
            lemma_index_of_key_found(self.cached(), sid2, j);
            assert(sid2 != sid) by {
                if has_key(pre.cached(), sid) {
                    assert(!has_key(removed, sid));
                    if sid2 == sid {
                        assert(has_key(removed, sid));
                    }
                } else {
                    if sid2 == sid {
                        lemma_index_of_key_found(pre.cached(), sid, j);
                    }
                }
            }
            assert(has_key(removed, sid2) && value_of_key(removed, sid2) == entry.1) by {
                lemma_index_of_key_found(removed, sid2, j);
            }
            let j0 = index_of_key(pre.cached(), sid2);
            lemma_index_of_key_in_range(pre.cached(), sid2);
            assert(pre.cached()[j0] == (sid2, entry.1));
            assert(value_of_key(reg2, sid2) == value_of_key(reg, sid2));
            assert(self.skel() == pre.skel());
        }
        assert(self.wf());
    }

    /// Runs one system: resolves its required set through the cache, wraps
    /// the result in a claim guard and invokes the body — exactly once when
    /// at least one entity owns every required type, not at all otherwise.
    /// Returns whether the body was invoked; a required set naming one type
    /// twice is the duplicate-requirement fault and nothing is run.
    ///
    /// The body can only replace component values in place, so the shape of
    /// the store — which entities own which types — is the same afterwards.
    pub fn run_with<S: System<C>>(&mut self, sys: &mut S) -> (r: Result<bool, SystemFault>)
        requires
            old(self).wf(),
        ensures
            final(self).wf(),
            final(self).entity_count() == old(self).entity_count(),
            final(self).skel() == old(self).skel(),
            final(self).spec_recomputes() == old(self).spec_recomputes()
                || final(self).spec_recomputes() == bump(old(self).spec_recomputes()),
            r matches Err(f) ==> final(self).state_eq(*old(self)) && (f matches
                SystemFault::DuplicateRequirement(_)),
            r == Ok::<bool, SystemFault>(false) ==> final(self).cols() == old(self).cols(),
    {
        let req = sys.needed_components();
        let sid = sys.id();
        let res = self.resolve(sid, &req);
        match res {
            Err(f) => Err(f),
            Ok(None) => Ok(false),
            Ok(Some(cs)) => {
                let ghost mid = *self;
                proof {
                    assert(mid.skel() == old(self).skel()) by {
                        assert(mid.cols() == old(self).cols());
                    }
                }
                sys.run(&mut self.store, cs);
                proof {
                    assert(self.registry() == mid.registry());
                    assert(self.cached() == mid.cached());
                    assert(self.skel() == mid.skel()) by {
                        assert(self.store.skel() == mid.store.skel());
                    }
                    assert forall|i: int, k: int|
                        0 <= i < self.cols().len() && 0 <= k < (#[trigger] self.cols()[i]).1.len()
                            implies (#[trigger] self.cols()[i].1[k]).0 < self.next_entity by {
                        assert(self.skel()[i].1[k] == self.cols()[i].1[k].0);
                        assert(mid.skel()[i].1.len() == mid.cols()[i].1.len());
                        assert(mid.skel()[i].1[k] == mid.cols()[i].1[k].0);
                        assert(mid.cols()[i].1[k].0 < mid.next_entity);
                    }
                    assert(self.wf());
                }
                Ok(true)
            },
        }
    }

    /// The counter the tests watch: how many times `run` had to compute an
    /// intersection instead of reusing a cached one.
    pub fn recompute_count(&self) -> (r: u64)
        ensures
            r == self.spec_recomputes(),
    {
        self.recomputes
    }

    /// The component of type `comp_id` owned by `ent`, if any; a point
    /// lookup that bypasses the query cache.
    pub fn get_component(&self, ent: EntityId, comp_id: ComponentId) -> (r: Option<&C>)
        requires
            self.wf(),
        ensures
            r is Some <==> self.has_component(ent, comp_id),
            r matches Some(v) ==> *v == self.component_value(ent, comp_id),
    {
        self.store.get(ent, comp_id)
    }

    /// A mutable borrow of the component of type `comp_id` owned by `ent`.
    /// Writing through it replaces that one value; the shape of the store,
    /// the registry and the cache are untouched, so the world stays well
    /// formed (see [`lemma_value_update_keeps_wf`]).
    pub fn get_component_mut(&mut self, ent: EntityId, comp_id: ComponentId) -> (r: Option<
        &mut C,
    >)
        requires
            old(self).wf(),
        ensures
            r is Some <==> old(self).has_component(ent, comp_id),
            r is None ==> *final(self) == *old(self),
            r matches Some(m) ==> {
                let ci = index_of_key(old(self).cols(), comp_id);
                let entries = value_of_key(old(self).cols(), comp_id);
                let ei = index_of_key(entries, ent);
                &&& *m == old(self).component_value(ent, comp_id)
                &&& final(self).cols().len() == old(self).cols().len()
                &&& forall|i: int|
                    0 <= i < old(self).cols().len() && i != ci ==> final(self).cols()[i] == old(
                        self,
                    ).cols()[i]
                &&& final(self).cols()[ci].0 == comp_id
                &&& final(self).cols()[ci].1 == entries.update(ei, (ent, *final(m)))
                &&& final(self).entity_count() == old(self).entity_count()
                &&& final(self).registry() == old(self).registry()
                &&& final(self).cached() == old(self).cached()
                &&& final(self).spec_recomputes() == old(self).spec_recomputes()
            },
    {
        self.store.get_mut(ent, comp_id)
    }
}

/// Adding one component twice in a row: the first add succeeds, the second
/// reports `ComponentAlreadyExists` and leaves the world — the first value
/// included — unchanged.
pub proof fn lemma_add_component_twice<C>(
    w0: World<C>,
    w1: World<C>,
    w2: World<C>,
    r1: Result<(), EcsError>,
    r2: Result<(), EcsError>,
    ent: EntityId,
    cid: ComponentId,
    c1: C,
    c2: C,
)
    requires
        w0.wf(),
        (ent as int) < w0.entity_count(),
        !w0.has_component(ent, cid),
        add_effect(w0, w1, r1, ent, cid, c1),
        add_effect(w1, w2, r2, ent, cid, c2),
    ensures
        r1 == Ok::<(), EcsError>(()),
        w1.has_component(ent, cid),
        w1.component_value(ent, cid) == c1,
        r2 == Err::<(), EcsError>(EcsError::ComponentAlreadyExists(ent, cid)),
        w2.state_eq(w1),
        w2.has_component(ent, cid),
        w2.component_value(ent, cid) == c1,
{
    crate::store::lemma_add_col_facts(w0.cols(), ent, cid, c1);
    assert(w1.has_component(ent, cid));
    assert(w1.component_value(ent, cid) == c1);
    assert((ent as int) < w1.entity_count());
}

/// Invalidation is exact and effective: a successful add of a type that a
/// registered system requires evicts that system's cached query, and the
/// next resolution recomputes against the new store, matching the entity
/// that now owns the full required set.
pub proof fn lemma_invalidation<C>(
    w0: World<C>,
    w1: World<C>,
    w2: World<C>,
    r1: Result<(), EcsError>,
    out: Option<RowModel>,
    sid: SystemId,
    req: Seq<ComponentId>,
    ent: EntityId,
    cid: ComponentId,
    data: C,
)
    requires
        w0.wf(),
        !has_duplicate(req),
        req.contains(cid),
        has_key(w0.registry(), sid),
        value_of_key(w0.registry(), sid) == req,
        (ent as int) < w0.entity_count(),
        !w0.has_component(ent, cid),
        add_effect(w0, w1, r1, ent, cid, data),
        forall|i: int| 0 <= i < req.len() ==> w1.has_component(ent, #[trigger] req[i]),
        resolve_effect(w1, w2, out, sid, req),
    ensures
        r1 == Ok::<(), EcsError>(()),
        !has_key(w1.cached(), sid),
        out == Some(spec_row(w1.skel(), req)),
        has_entity(matched_entities(w1.skel(), req), ent),
{
    assert(r1 == Ok::<(), EcsError>(()));
    lemma_evict_facts(w0.cached(), w0.registry(), cid);
    assert(req_names(w0.registry(), sid, cid));
    assert(!has_key(w1.cached(), sid));
    assert(owns_all(w1.skel(), req, ent)) by {
        assert forall|i: int|
            0 <= i < req.len() implies has_key(w1.skel(), #[trigger] req[i]) && has_entity(
            col_entities(w1.skel(), req[i]),
            ent,
        ) by {
            assert(w1.has_component(ent, req[i]));
            crate::intersect::lemma_owner_in_skeleton(w1.cols(), ent, req[i]);
        }
    }
    assert(req.len() > 0) by {
        assert(req.contains(cid));
    }
    crate::intersect::lemma_intersection_complete(w1.skel(), req, ent);
    assert(matched_entities(w1.skel(), req).len() > 0) by {
        let k = choose|k: int|
            0 <= k < matched_entities(w1.skel(), req).len() && matched_entities(w1.skel(), req)[k]
                == ent;
    }
}

/// A run reaches everything it should: when some entity owns every type of
/// a duplicate-free, non-empty required set, resolution yields the resolved
/// row — the system body is invoked, over a row that matches that entity.
pub proof fn lemma_run_finds_match<C>(
    w0: World<C>,
    w1: World<C>,
    out: Option<RowModel>,
    sid: SystemId,
    req: Seq<ComponentId>,
    ent: EntityId,
)
    requires
        w0.wf(),
        !has_duplicate(req),
        req.len() > 0,
        forall|i: int| 0 <= i < req.len() ==> w0.has_component(ent, #[trigger] req[i]),
        resolve_effect(w0, w1, out, sid, req),
    ensures
        out == Some(spec_row(w0.skel(), req)),
        has_entity(matched_entities(w0.skel(), req), ent),
{
    assert(owns_all(w0.skel(), req, ent)) by {
        assert forall|i: int|
            0 <= i < req.len() implies has_key(w0.skel(), #[trigger] req[i]) && has_entity(
            col_entities(w0.skel(), req[i]),
            ent,
        ) by {
            assert(w0.has_component(ent, req[i]));
            crate::intersect::lemma_owner_in_skeleton(w0.cols(), ent, req[i]);
        }
    }
    crate::intersect::lemma_intersection_complete(w0.skel(), req, ent);
    assert(matched_entities(w0.skel(), req).len() > 0) by {
        let k = choose|k: int|
            0 <= k < matched_entities(w0.skel(), req).len() && matched_entities(w0.skel(), req)[k]
                == ent;
    }
}

/// Idempotence: with no intervening add, resolving the same system twice
/// yields the same row, and the second resolution is served from the cache
/// — the recomputation counter does not move and the world is unchanged.
pub proof fn lemma_run_idempotent<C>(
    w0: World<C>,
    w1: World<C>,
    w2: World<C>,
    out1: Option<RowModel>,
    out2: Option<RowModel>,
    sid: SystemId,
    req: Seq<ComponentId>,
)
    requires
        w0.wf(),
        !has_duplicate(req),
        matched_entities(w0.skel(), req).len() > 0,
        resolve_effect(w0, w1, out1, sid, req),
        resolve_effect(w1, w2, out2, sid, req),
    ensures
        out1 == Some(spec_row(w0.skel(), req)),
        out2 == out1,
        w2.state_eq(w1),
        w2.spec_recomputes() == w1.spec_recomputes(),
{
    assert(w1.skel() == w0.skel());
    let reg0 = w0.registry();
    let reg1 = w1.registry();
    assert(reg1 == upsert(reg0, sid, req));
    if has_key(reg0, sid) {
        lemma_index_of_key_in_range(reg0, sid);
        lemma_update_value(reg0, index_of_key(reg0, sid), req);
        assert(reg0[index_of_key(reg0, sid)].0 == sid);
    } else {
        lemma_push_new_key(reg0, sid, req);
    }
    assert(has_key(reg1, sid) && value_of_key(reg1, sid) == req);
    assert(has_key(w1.cached(), sid)) by {
        let hit0 = has_key(w0.cached(), sid) && has_key(reg0, sid) && value_of_key(reg0, sid)
            == req;
        if hit0 {
            assert(w1.cached() == w0.cached());
        } else {
            let pushed = remove_key(w0.cached(), sid).push((sid, spec_row(w0.skel(), req)));
            assert(w1.cached() == pushed);
            assert(pushed[pushed.len() - 1].0 == sid);
        }
    }
    assert(matched_entities(w1.skel(), req).len() > 0);
}

/// A world that differs from a well-formed one only in one component's
/// value — as after a write through `get_component_mut` — is well formed
/// again, with the same skeleton.
pub proof fn lemma_value_update_keeps_wf<C>(
    pre: World<C>,
    post: World<C>,
    ent: EntityId,
    comp_id: ComponentId,
    v: C,
)
    requires
        pre.wf(),
        pre.has_component(ent, comp_id),
        post.cols().len() == pre.cols().len(),
        forall|i: int|
            0 <= i < pre.cols().len() && i != index_of_key(pre.cols(), comp_id)
                ==> post.cols()[i] == pre.cols()[i],
        post.cols()[index_of_key(pre.cols(), comp_id)].0 == comp_id,
        post.cols()[index_of_key(pre.cols(), comp_id)].1 == value_of_key(
            pre.cols(),
            comp_id,
        ).update(index_of_key(value_of_key(pre.cols(), comp_id), ent), (ent, v)),
        post.entity_count() == pre.entity_count(),
        post.registry() == pre.registry(),
        post.cached() == pre.cached(),
    ensures
        post.wf(),
        post.skel() == pre.skel(),
        post.component_value(ent, comp_id) == v,
        forall|e2: EntityId, c2: ComponentId|
            post.has_component(e2, c2) == pre.has_component(e2, c2),
        forall|e2: EntityId, c2: ComponentId|
            (e2 != ent || c2 != comp_id) && pre.has_component(e2, c2) ==> post.component_value(
                e2,
                c2,
            ) == pre.component_value(e2, c2),
{
    crate::store::lemma_one_value_changed(pre.cols(), post.cols(), ent, comp_id, v);
    let ci = index_of_key(pre.cols(), comp_id);
    let entries = value_of_key(pre.cols(), comp_id);
    let ei = index_of_key(entries, ent);
    lemma_index_of_key_in_range(pre.cols(), comp_id);
    lemma_index_of_key_in_range(entries, ent);
    assert(post.skel() == pre.skel());
    assert(forall|i: int|
        0 <= i < post.cols().len() ==> (#[trigger] post.cols()[i]).1.len() == pre.cols()[
            i
        ].1.len());
    assert forall|i: int, k: int|
        0 <= i < post.cols().len() && 0 <= k < (#[trigger] post.cols()[i]).1.len()
            implies (#[trigger] post.cols()[i].1[k]).0 < pre.spec_next_entity() by {
        if i == ci {
            assert(pre.cols()[ci].1 == entries);
            if k == ei {
                assert(entries[ei].0 == ent);
                assert(post.cols()[i].1[k].0 == ent);
            } else {
                assert(post.cols()[i].1[k] == entries[k]);
            }
        } else {
            assert(post.cols()[i] == pre.cols()[i]);
        }
    }
    assert(post.wf());
}

impl<C> World<C> {
    /// The entity counter, for spec-level reasoning about registration.
    pub closed spec fn spec_next_entity(self) -> EntityId {
        self.next_entity
    }
}

} // verus!
