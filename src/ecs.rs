use std::collections::HashSet;
use vstd::prelude::*;
use crate::any_component::{AnyComponent, HIERARCHY_KIND, NAME_KIND};
use crate::component::{lemma_row_of, lemma_swap_removed_unique, row_of, swap_removed};
use crate::component_manager::{
    attach_result, attached_everywhere, detach_result, has_kind, has_room, purge_check,
    purge_result, purged, registry_wf, slot_of, ComponentManager,
};
use crate::entity::Entity;
use crate::entity_manager::EntityManager;
use crate::error::EcsError;
use crate::hierarchy_component::HierarchyComponent;
use crate::name_component::NameComponent;

verus! {

/// Why attaching a new entity `e` to the naming kind, then to the hierarchy
/// kind, fails, where it does: the first of the two kinds that is missing or
/// already holds `e`.
pub open spec fn creation_error(ks: Seq<AnyComponent>, e: Entity) -> EcsError {
    if !has_kind(ks, NAME_KIND) {
        EcsError::NotFound
    } else if ks[slot_of(ks, NAME_KIND)].rows().contains(e) {
        EcsError::AlreadyExists
    } else if !has_kind(ks, HIERARCHY_KIND) {
        EcsError::NotFound
    } else {
        EcsError::AlreadyExists
    }
}

/// Membership and rows agree: each live entity's recorded kinds are exactly
/// the registered kinds that hold a row for it, and every row belongs to a
/// live entity.
pub open spec fn synchronized(mem: Map<u64, Set<u64>>, ks: Seq<AnyComponent>) -> bool {
    &&& forall|id: u64, i: int|
        #![trigger mem[id].contains(ks[i].kind())]
        #![trigger mem.contains_key(id), ks[i].rows().contains(Entity { id })]
        mem.contains_key(id) && 0 <= i < ks.len() ==> (mem[id].contains(ks[i].kind())
            <==> ks[i].rows().contains(Entity { id }))
    &&& forall|id: u64, k: u64|
        mem.contains_key(id) && #[trigger] mem[id].contains(k) ==> has_kind(ks, k)
    &&& forall|i: int, e: Entity|
        0 <= i < ks.len() && #[trigger] ks[i].rows().contains(e) ==> mem.contains_key(e.id)
}

/// Attaching a live entity to a kind that had no row for it keeps
/// membership and rows in agreement once the kind is recorded.
proof fn lemma_sync_attach(
    mem: Map<u64, Set<u64>>,
    ks: Seq<AnyComponent>,
    ks2: Seq<AnyComponent>,
    e: Entity,
    kind: u64,
)
    requires
        synchronized(mem, ks),
        registry_wf(ks),
        mem.contains_key(e.id),
        has_kind(ks, kind),
        ks2 == ks.update(slot_of(ks, kind), ks2[slot_of(ks, kind)]),
        ks2[slot_of(ks, kind)].kind() == kind,
        ks2[slot_of(ks, kind)].rows() == ks[slot_of(ks, kind)].rows().push(e),
    ensures
        synchronized(mem.insert(e.id, mem[e.id].insert(kind)), ks2),
{
    let s = slot_of(ks, kind);
    let mem2 = mem.insert(e.id, mem[e.id].insert(kind));
    assert forall|id: u64, i: int| mem2.contains_key(id) && 0 <= i < ks2.len() implies (
    mem2[id].contains(ks2[i].kind()) <==> ks2[i].rows().contains(Entity { id })) by {
        assert(mem[id].contains(ks[i].kind()) == ks[i].rows().contains(Entity { id }));
        if i == s {
            if id != e.id {
                assert(ks2[i].rows().contains(Entity { id }) == ks[i].rows().contains(Entity { id })) by {
                    if ks2[i].rows().contains(Entity { id }) {
                        let j = choose|j: int| 0 <= j < ks2[i].rows().len() && ks2[i].rows()[j] == Entity { id };
                        assert(j < ks[i].rows().len());
                        assert(ks[i].rows()[j] == Entity { id });
                    }
                    if ks[i].rows().contains(Entity { id }) {
                        let j = choose|j: int| 0 <= j < ks[i].rows().len() && ks[i].rows()[j] == Entity { id };
                        assert(ks2[i].rows()[j] == Entity { id });
                    }
                }
            } else {
                assert(ks2[i].rows()[ks[i].rows().len() as int] == e);
            }
        } else {
            assert(ks[i].kind() != kind);
        }
    }
    assert forall|id: u64, k: u64| mem2.contains_key(id) && #[trigger] mem2[id].contains(k) implies has_kind(ks2, k) by {
        if id == e.id && k == kind {
            assert(ks2[s].kind() == k);
        } else {
            assert(mem[id].contains(k));
            let j = choose|j: int| 0 <= j < ks.len() && ks[j].kind() == k;
            assert(ks2[j].kind() == k);
        }
    }
    assert forall|i: int, x: Entity| 0 <= i < ks2.len() && #[trigger] ks2[i].rows().contains(x) implies mem2.contains_key(x.id) by {
        if i == s {
            if x != e {
                let j = choose|j: int| 0 <= j < ks2[i].rows().len() && ks2[i].rows()[j] == x;
                assert(j < ks[i].rows().len());
                assert(ks[i].rows()[j] == x);
                assert(ks[i].rows().contains(x));
            }
        } else {
            assert(ks2[i] == ks[i]);
            assert(ks[i].rows().contains(x));
        }
    }
}

/// Detaching an entity from a kind that held a row for it keeps membership
/// and rows in agreement once the kind is no longer recorded.
proof fn lemma_sync_detach(
    mem: Map<u64, Set<u64>>,
    ks: Seq<AnyComponent>,
    ks2: Seq<AnyComponent>,
    e: Entity,
    kind: u64,
)
    requires
        synchronized(mem, ks),
        registry_wf(ks),
        has_kind(ks, kind),
        ks[slot_of(ks, kind)].rows().contains(e),
        ks2 == ks.update(slot_of(ks, kind), ks2[slot_of(ks, kind)]),
        ks2[slot_of(ks, kind)].kind() == kind,
        ks2[slot_of(ks, kind)].rows() == swap_removed(
            ks[slot_of(ks, kind)].rows(),
            row_of(ks[slot_of(ks, kind)].rows(), e),
        ),
    ensures
        mem.contains_key(e.id),
        synchronized(mem.insert(e.id, mem[e.id].remove(kind)), ks2),
{
    let s = slot_of(ks, kind);
    let rows = ks[s].rows();
    ks[s].lemma_unique();
    let k0 = choose|k: int| 0 <= k < rows.len() && rows[k] == e;
    lemma_row_of(rows, k0);
    lemma_swap_removed_unique(rows, k0);
    let mem2 = mem.insert(e.id, mem[e.id].remove(kind));
    assert forall|id: u64, i: int| mem2.contains_key(id) && 0 <= i < ks2.len() implies (
    mem2[id].contains(ks2[i].kind()) <==> ks2[i].rows().contains(Entity { id })) by {
        assert(mem[id].contains(ks[i].kind()) == ks[i].rows().contains(Entity { id }));
        if i != s {
            assert(ks[i].kind() != kind);
        }
    }
    assert forall|id: u64, k: u64| mem2.contains_key(id) && #[trigger] mem2[id].contains(k) implies has_kind(ks2, k) by {
        assert(mem[id].contains(k));
        let j = choose|j: int| 0 <= j < ks.len() && ks[j].kind() == k;
        assert(ks2[j].kind() == k);
    }
    assert forall|i: int, x: Entity| 0 <= i < ks2.len() && #[trigger] ks2[i].rows().contains(x) implies mem2.contains_key(x.id) by {
        if i == s {
            assert(rows.contains(x));
        }
    }
}

/// With membership and rows in agreement, a live entity has a row in every
/// kind recorded for it.
proof fn lemma_sync_attached_everywhere(mem: Map<u64, Set<u64>>, ks: Seq<AnyComponent>, e: Entity)
    requires
        synchronized(mem, ks),
        mem.contains_key(e.id),
    ensures
        attached_everywhere(ks, e, mem[e.id]),
{
    assert forall|i: int| 0 <= i < ks.len() && mem[e.id].contains(#[trigger] ks[i].kind()) implies ks[i].rows().contains(e) by {
        assert(Entity { id: e.id } == e);
    }
}

/// Purging a live entity from every kind recorded for it, and forgetting it,
/// keeps membership and rows in agreement.
proof fn lemma_sync_purge(
    mem: Map<u64, Set<u64>>,
    ks: Seq<AnyComponent>,
    ks2: Seq<AnyComponent>,
    e: Entity,
)
    requires
        synchronized(mem, ks),
        registry_wf(ks),
        mem.contains_key(e.id),
        ks2.len() == ks.len(),
        forall|i: int| 0 <= i < ks.len() ==> purged(#[trigger] ks[i], ks2[i], e, mem[e.id]),
    ensures
        synchronized(mem.remove(e.id), ks2),
{
    let mem2 = mem.remove(e.id);
    assert(Entity { id: e.id } == e);
    assert forall|i: int, x: Entity| 0 <= i < ks.len() implies (#[trigger] ks2[i].rows().contains(x) <==> (
    ks[i].rows().contains(x) && x != e)) by {
        assert(purged(ks[i], ks2[i], e, mem[e.id]));
        let rows = ks[i].rows();
        if mem[e.id].contains(ks[i].kind()) {
            assert(ks[i].wf());
            ks[i].lemma_unique();
            assert(rows.contains(e));
            let k0 = choose|k: int| 0 <= k < rows.len() && rows[k] == e;
            lemma_row_of(rows, k0);
            lemma_swap_removed_unique(rows, k0);
        } else {
            assert(!rows.contains(Entity { id: e.id }));
        }
    }
    assert forall|id: u64, i: int| mem2.contains_key(id) && 0 <= i < ks2.len() implies (
    mem2[id].contains(ks2[i].kind()) <==> ks2[i].rows().contains(Entity { id })) by {
        assert(mem[id].contains(ks[i].kind()) == ks[i].rows().contains(Entity { id }));
        assert(ks2[i].rows().contains(Entity { id }) == (ks[i].rows().contains(Entity { id }) && Entity { id } != e));
        assert(purged(ks[i], ks2[i], e, mem[e.id]));
    }
    assert forall|id: u64, k: u64| mem2.contains_key(id) && #[trigger] mem2[id].contains(k) implies has_kind(ks2, k) by {
        assert(mem[id].contains(k));
        let j = choose|j: int| 0 <= j < ks.len() && ks[j].kind() == k;
        assert(purged(ks[j], ks2[j], e, mem[e.id]));
        assert(ks2[j].kind() == k);
    }
    assert forall|i: int, x: Entity| 0 <= i < ks2.len() && #[trigger] ks2[i].rows().contains(x) implies mem2.contains_key(x.id) by {
        assert(ks[i].rows().contains(x) && x != e);
        assert(x.id != e.id);
    }
}

/// A new live entity with no kinds recorded, and no rows, keeps membership
/// and rows in agreement.
proof fn lemma_sync_create(mem: Map<u64, Set<u64>>, ks: Seq<AnyComponent>, id: u64)
    requires
        synchronized(mem, ks),
        !mem.contains_key(id),
    ensures
        synchronized(mem.insert(id, Set::<u64>::empty()), ks),
        forall|i: int| 0 <= i < ks.len() ==> !(#[trigger] ks[i].rows()).contains((Entity { id })),
{
    let mem2 = mem.insert(id, Set::<u64>::empty());
    assert forall|i: int| 0 <= i < ks.len() implies !(#[trigger] ks[i].rows()).contains(Entity { id }) by {
        if ks[i].rows().contains(Entity { id }) {
            assert(mem.contains_key(Entity { id }.id));
        }
    }
    assert forall|k: u64, i: int| mem2.contains_key(k) && 0 <= i < ks.len() implies (
    mem2[k].contains(ks[i].kind()) <==> ks[i].rows().contains(Entity { id: k })) by {
        if k != id {
            assert(mem[k].contains(ks[i].kind()) == ks[i].rows().contains(Entity { id: k }));
        }
    }
    assert forall|k: u64, kind: u64| mem2.contains_key(k) && #[trigger] mem2[k].contains(kind) implies has_kind(ks, kind) by {
        assert(mem[k].contains(kind));
    }
}

/// Registering an empty kind whose id is new, at any slot, keeps membership
/// and rows in agreement.
proof fn lemma_sync_register(
    mem: Map<u64, Set<u64>>,
    ks: Seq<AnyComponent>,
    c: AnyComponent,
    at: int,
)
    requires
        synchronized(mem, ks),
        !has_kind(ks, c.kind()),
        c.rows().len() == 0,
        0 <= at <= ks.len(),
    ensures
        synchronized(mem, ks.insert(at, c)),
{
    let ks2 = ks.insert(at, c);
    assert forall|i: int| 0 <= i < ks2.len() implies #[trigger] ks2[i] == if i < at {
        ks[i]
    } else if i == at {
        c
    } else {
        ks[i - 1]
    } by {}
    assert forall|id: u64, i: int| mem.contains_key(id) && 0 <= i < ks2.len() implies (
    mem[id].contains(ks2[i].kind()) <==> ks2[i].rows().contains(Entity { id })) by {
        if i < at {
            assert(mem[id].contains(ks[i].kind()) == ks[i].rows().contains(Entity { id }));
        } else if i > at {
            assert(mem[id].contains(ks[i - 1].kind()) == ks[i - 1].rows().contains(Entity { id }));
        } else if mem[id].contains(c.kind()) {
            assert(has_kind(ks, c.kind()));
        }
    }
    assert forall|id: u64, k: u64| mem.contains_key(id) && #[trigger] mem[id].contains(k) implies has_kind(ks2, k) by {
        let j = choose|j: int| 0 <= j < ks.len() && ks[j].kind() == k;
        let nj = if j < at { j } else { j + 1 };
        assert(ks2[nj].kind() == k);
    }
    assert forall|i: int, x: Entity| 0 <= i < ks2.len() && #[trigger] ks2[i].rows().contains(x) implies mem.contains_key(x.id) by {
        if i < at {
            assert(ks[i].rows().contains(x));
        } else if i > at {
            assert(ks[i - 1].rows().contains(x));
        }
    }
}

/// Unregistering an empty kind keeps membership and rows in agreement.
proof fn lemma_sync_unregister(mem: Map<u64, Set<u64>>, ks: Seq<AnyComponent>, at: int)
    requires
        synchronized(mem, ks),
        registry_wf(ks),
        0 <= at < ks.len(),
        ks[at].rows().len() == 0,
    ensures
        synchronized(mem, ks.remove(at)),
{
    let ks2 = ks.remove(at);
    assert forall|i: int| 0 <= i < ks2.len() implies #[trigger] ks2[i] == if i < at {
        ks[i]
    } else {
        ks[i + 1]
    } by {}
    assert forall|id: u64, i: int| mem.contains_key(id) && 0 <= i < ks2.len() implies (
    mem[id].contains(ks2[i].kind()) <==> ks2[i].rows().contains(Entity { id })) by {
        let oi = if i < at { i } else { i + 1 };
        assert(mem[id].contains(ks[oi].kind()) == ks[oi].rows().contains(Entity { id }));
    }
    assert forall|id: u64, k: u64| mem.contains_key(id) && #[trigger] mem[id].contains(k) implies has_kind(ks2, k) by {
        let j = choose|j: int| 0 <= j < ks.len() && ks[j].kind() == k;
        if j == at {
            assert(mem[id].contains(ks[at].kind()) == ks[at].rows().contains(Entity { id }));
        }
        let nj = if j < at { j } else { j - 1 };
        assert(ks2[nj].kind() == k);
    }
    assert forall|i: int, x: Entity| 0 <= i < ks2.len() && #[trigger] ks2[i].rows().contains(x) implies mem.contains_key(x.id) by {
        let oi = if i < at { i } else { i + 1 };
        assert(ks[oi].rows().contains(x));
    }
}

/// The store as a whole: entity identity and membership beside the registry
/// of component kinds, kept in step by entity-level operations.
pub struct ECS {
    entity_manager: EntityManager,
    component_manager: ComponentManager,
}

impl ECS {
    /// The live entities' ids, each with the kind ids recorded as attached.
    pub closed spec fn memberships(&self) -> Map<u64, Set<u64>> {
        self.entity_manager.memberships()
    }

    /// The largest entity id handed out so far.
    pub closed spec fn last_id(&self) -> u64 {
        self.entity_manager.last_id()
    }

    /// The registered kinds, in slot order.
    pub closed spec fn kinds(&self) -> Seq<AnyComponent> {
        self.component_manager.kinds()
    }

    pub closed spec fn wf(&self) -> bool {
        self.entity_manager.wf() && self.component_manager.wf()
    }

    /// A store with no entities and the naming and hierarchy kinds
    /// registered, in that order.
    pub fn new() -> (r: Result<ECS, EcsError>)
        ensures
            r is Ok,
            r.unwrap().wf(),
            r.unwrap().memberships() == Map::<u64, Set<u64>>::empty(),
            r.unwrap().last_id() == 0,
            r.unwrap().kinds().len() == 2,
            r.unwrap().kinds()[0].kind() == NAME_KIND,
            r.unwrap().kinds()[1].kind() == HIERARCHY_KIND,
            r.unwrap().kinds()[0].rows().len() == 0,
            r.unwrap().kinds()[1].rows().len() == 0,
            synchronized(r.unwrap().memberships(), r.unwrap().kinds()),
    {
        let mut component_manager = ComponentManager::new();
        component_manager.add(AnyComponent::Name(NameComponent::new()))?;
        component_manager.add(AnyComponent::Hierarchy(HierarchyComponent::new()))?;
        Ok(ECS { entity_manager: EntityManager::new(), component_manager })
    }

    /// Registers the kind `c` in a new last slot.
    pub fn add_component(&mut self, c: AnyComponent) -> (r: Result<(), EcsError>)
        requires
            old(self).wf(),
            c.wf(),
        ensures
            final(self).wf(),
            final(self).memberships() == old(self).memberships(),
            final(self).last_id() == old(self).last_id(),
            has_kind(old(self).kinds(), c.kind()) ==> r == Err::<(), EcsError>(
                EcsError::AlreadyExists,
            ) && final(self).kinds() == old(self).kinds(),
            !has_kind(old(self).kinds(), c.kind()) ==> r == Ok::<(), EcsError>(())
                && final(self).kinds() == old(self).kinds().push(c),
            synchronized(old(self).memberships(), old(self).kinds()) && c.rows().len() == 0
                ==> synchronized(final(self).memberships(), final(self).kinds()),
    {
        let ghost c0 = c;
        let r = self.component_manager.add(c);
        proof {
            if synchronized(old(self).memberships(), old(self).kinds()) && c0.rows().len() == 0 && r is Ok {
                lemma_sync_register(old(self).memberships(), old(self).kinds(), c0, old(self).kinds().len() as int);
                assert(old(self).kinds().insert(old(self).kinds().len() as int, c0) =~= old(self).kinds().push(c0));
            }
        }
        r
    }

    /// Registers the kind `c` at slot `index`.
    pub fn insert_component(&mut self, index: usize, c: AnyComponent) -> (r: Result<(), EcsError>)
        requires
            old(self).wf(),
            c.wf(),
        ensures
            final(self).wf(),
            final(self).memberships() == old(self).memberships(),
            final(self).last_id() == old(self).last_id(),
            has_kind(old(self).kinds(), c.kind()) ==> r == Err::<(), EcsError>(
                EcsError::AlreadyExists,
            ) && final(self).kinds() == old(self).kinds(),
            !has_kind(old(self).kinds(), c.kind()) && index >= old(self).kinds().len() ==> r == Err::<
                (),
                EcsError,
            >(EcsError::OutOfBounds) && final(self).kinds() == old(self).kinds(),
            !has_kind(old(self).kinds(), c.kind()) && index < old(self).kinds().len() ==> r == Ok::<
                (),
                EcsError,
            >(()) && final(self).kinds() == old(self).kinds().insert(index as int, c),
            synchronized(old(self).memberships(), old(self).kinds()) && c.rows().len() == 0
                ==> synchronized(final(self).memberships(), final(self).kinds()),
    {
        let ghost c0 = c;
        let r = self.component_manager.insert(index, c);
        proof {
            if synchronized(old(self).memberships(), old(self).kinds()) && c0.rows().len() == 0 && r is Ok {
                lemma_sync_register(old(self).memberships(), old(self).kinds(), c0, index as int);
            }
        }
        r
    }

    /// Unregisters the kind with id `kind`, which must hold no rows.
    pub fn remove_component(&mut self, kind: u64) -> (r: Result<(), EcsError>)
        requires
            old(self).wf(),
        ensures
            final(self).wf(),
            final(self).memberships() == old(self).memberships(),
            final(self).last_id() == old(self).last_id(),
            !has_kind(old(self).kinds(), kind) ==> r == Err::<(), EcsError>(EcsError::NotFound)
                && final(self).kinds() == old(self).kinds(),
            has_kind(old(self).kinds(), kind) && old(self).kinds()[slot_of(old(self).kinds(), kind)].rows().len() > 0
                ==> r == Err::<(), EcsError>(EcsError::NotEmpty)
                && final(self).kinds() == old(self).kinds(),
            has_kind(old(self).kinds(), kind) && old(self).kinds()[slot_of(old(self).kinds(), kind)].rows().len() == 0
                ==> r == Ok::<(), EcsError>(())
                && final(self).kinds() == old(self).kinds().remove(slot_of(old(self).kinds(), kind)),
            synchronized(old(self).memberships(), old(self).kinds()) ==> synchronized(
                final(self).memberships(),
                final(self).kinds(),
            ),
    {
        proof {
            self.component_manager.lemma_registry();
        }
        let r = self.component_manager.remove(kind);
        proof {
            if synchronized(old(self).memberships(), old(self).kinds()) && r is Ok {
                lemma_sync_unregister(
                    old(self).memberships(),
                    old(self).kinds(),
                    slot_of(old(self).kinds(), kind),
                );
            }
        }
        r
    }

    /// The kind with id `kind`, if it is registered.
    pub fn get_component(&self, kind: u64) -> (r: Option<&AnyComponent>)
        requires
            self.wf(),
        ensures
            r.is_some() == has_kind(self.kinds(), kind),
            r.is_some() ==> *r.unwrap() == self.kinds()[slot_of(self.kinds(), kind)],
    {
        self.component_manager.get(kind)
    }

    /// The kind with id `kind`, if it is registered, to be changed in place.
    pub fn get_component_mut(&mut self, kind: u64) -> (r: Option<&mut AnyComponent>)
        requires
            old(self).wf(),
        ensures
            r.is_some() == has_kind(old(self).kinds(), kind),
            final(self).memberships() == old(self).memberships(),
            final(self).last_id() == old(self).last_id(),
            match r {
                Some(c) => {
                    &&& *c == old(self).kinds()[slot_of(old(self).kinds(), kind)]
                    &&& final(self).kinds() == old(self).kinds().update(
                        slot_of(old(self).kinds(), kind),
                        *final(c),
                    )
                },
                None => final(self).kinds() == old(self).kinds(),
            },
    {
        self.component_manager.get_mut(kind)
    }

    /// Creates an entity with the next id and attaches it to the naming kind,
    /// then to the hierarchy kind. Where an attach fails, the entity stays
    /// live with what was attached so far.
    pub fn create_entity(&mut self) -> (r: Result<Entity, EcsError>)
        requires
            old(self).wf(),
            old(self).last_id() < u64::MAX,
            has_room(old(self).kinds(), NAME_KIND),
            has_room(old(self).kinds(), HIERARCHY_KIND),
        ensures
            final(self).wf(),
            final(self).last_id() == old(self).last_id() + 1,
            final(self).memberships().contains_key((old(self).last_id() + 1) as u64),
            !old(self).memberships().contains_key((old(self).last_id() + 1) as u64),
            ({
                let e = Entity { id: (old(self).last_id() + 1) as u64 };
                let ks = old(self).kinds();
                let ok = has_kind(ks, NAME_KIND) && has_kind(ks, HIERARCHY_KIND)
                    && !ks[slot_of(ks, NAME_KIND)].rows().contains(e)
                    && !ks[slot_of(ks, HIERARCHY_KIND)].rows().contains(e);
                &&& ok ==> {
                    &&& r == Ok::<Entity, EcsError>(e)
                    &&& final(self).memberships() == old(self).memberships().insert(
                        e.id,
                        set![NAME_KIND, HIERARCHY_KIND],
                    )
                    &&& final(self).kinds().len() == ks.len()
                    &&& forall|i: int|
                        0 <= i < ks.len() ==> (#[trigger] final(self).kinds()[i]).kind() == ks[i].kind()
                    &&& final(self).kinds()[slot_of(ks, NAME_KIND)].rows() == ks[slot_of(
                        ks,
                        NAME_KIND,
                    )].rows().push(e)
                    &&& final(self).kinds()[slot_of(ks, HIERARCHY_KIND)].rows() == ks[slot_of(
                        ks,
                        HIERARCHY_KIND,
                    )].rows().push(e)
                    &&& forall|i: int|
                        0 <= i < ks.len() && i != slot_of(ks, NAME_KIND) && i != slot_of(
                            ks,
                            HIERARCHY_KIND,
                        ) ==> #[trigger] final(self).kinds()[i] == ks[i]
                }
                &&& !ok ==> r == Err::<Entity, EcsError>(creation_error(ks, e))
            }),
            synchronized(old(self).memberships(), old(self).kinds()) ==> synchronized(
                final(self).memberships(),
                final(self).kinds(),
            ),
            synchronized(old(self).memberships(), old(self).kinds()) && has_kind(
                old(self).kinds(),
                NAME_KIND,
            ) && has_kind(old(self).kinds(), HIERARCHY_KIND) ==> r is Ok,
    {
        let e = self.entity_manager.create();
        proof {
            if synchronized(old(self).memberships(), old(self).kinds()) {
                lemma_sync_create(old(self).memberships(), old(self).kinds(), e.id);
                assert(Entity { id: e.id } == e);
                if has_kind(old(self).kinds(), NAME_KIND) {
                    assert(!old(self).kinds()[slot_of(old(self).kinds(), NAME_KIND)].rows().contains(e));
                }
                if has_kind(old(self).kinds(), HIERARCHY_KIND) {
                    assert(!old(self).kinds()[slot_of(old(self).kinds(), HIERARCHY_KIND)].rows().contains(e));
                }
            }
        }
        let ghost ks = self.component_manager.kinds();
        let ghost mem1 = self.entity_manager.memberships();
        proof {
            self.component_manager.lemma_registry();
        }
        let first = self.attach_component(e, NAME_KIND);
        let ghost ks1 = self.component_manager.kinds();
        proof {
            self.component_manager.lemma_registry();
            if has_kind(ks, HIERARCHY_KIND) {
                if has_kind(ks, NAME_KIND) {
                    ComponentManager::lemma_slot_kept(ks, ks1, HIERARCHY_KIND);
                }
            }
        }
        match first {
            Ok(_) => {},
            Err(err) => {
                proof {
                    if has_kind(ks, NAME_KIND) {
                        assert(ks1 == ks);
                    }
                }
                return Err(err);
            },
        }
        let second = self.attach_component(e, HIERARCHY_KIND);
        match second {
            Ok(_) => {},
            Err(err) => { return Err(err); },
        }
        proof {
            ComponentManager::lemma_slot_kept(ks, ks1, NAME_KIND);
            ComponentManager::lemma_slot_kept(ks, ks1, HIERARCHY_KIND);
            assert(slot_of(ks, NAME_KIND) != slot_of(ks, HIERARCHY_KIND));
            assert(self.memberships() =~= old(self).memberships().insert(
                e.id,
                set![NAME_KIND, HIERARCHY_KIND],
            )) by {
                assert(mem1[e.id] == Set::<u64>::empty());
                assert(Set::<u64>::empty().insert(NAME_KIND).insert(HIERARCHY_KIND) =~= set![NAME_KIND, HIERARCHY_KIND]);
            }
        }
        Ok(e)
    }

    /// Attaches `entity` to the kind with id `kind`, and where that succeeds,
    /// records the kind as attached if the entity is live.
    pub fn attach_component(&mut self, entity: Entity, kind: u64) -> (r: Result<usize, EcsError>)
        requires
            old(self).wf(),
            has_room(old(self).kinds(), kind),
        ensures
            final(self).wf(),
            final(self).last_id() == old(self).last_id(),
            attach_result(old(self).kinds(), final(self).kinds(), entity, kind, r),
            r is Ok && old(self).memberships().contains_key(entity.id) ==> final(self).memberships()
                == old(self).memberships().insert(
                entity.id,
                old(self).memberships()[entity.id].insert(kind),
            ),
            !(r is Ok && old(self).memberships().contains_key(entity.id)) ==> final(self).memberships()
                == old(self).memberships(),
            synchronized(old(self).memberships(), old(self).kinds())
                && old(self).memberships().contains_key(entity.id) ==> synchronized(
                final(self).memberships(),
                final(self).kinds(),
            ),
    {
        proof {
            self.component_manager.lemma_registry();
        }
        let r = self.component_manager.attach(entity, kind);
        if r.is_ok() {
            self.entity_manager.attach_component(entity, kind);
            proof {
                if synchronized(old(self).memberships(), old(self).kinds())
                    && old(self).memberships().contains_key(entity.id) {
                    lemma_sync_attach(
                        old(self).memberships(),
                        old(self).kinds(),
                        self.kinds(),
                        entity,
                        kind,
                    );
                }
            }
        } else {
            proof {
                assert(self.kinds() =~= old(self).kinds());
            }
        }
        r
    }

    /// Detaches `entity` from the kind with id `kind`, and where that
    /// succeeds, records the kind as no longer attached.
    pub fn detach_component(&mut self, entity: Entity, kind: u64) -> (r: Result<(), EcsError>)
        requires
            old(self).wf(),
        ensures
            final(self).wf(),
            final(self).last_id() == old(self).last_id(),
            detach_result(old(self).kinds(), final(self).kinds(), entity, kind, r),
            r is Ok && old(self).memberships().contains_key(entity.id) ==> final(self).memberships()
                == old(self).memberships().insert(
                entity.id,
                old(self).memberships()[entity.id].remove(kind),
            ),
            !(r is Ok && old(self).memberships().contains_key(entity.id)) ==> final(self).memberships()
                == old(self).memberships(),
            synchronized(old(self).memberships(), old(self).kinds()) ==> synchronized(
                final(self).memberships(),
                final(self).kinds(),
            ),
    {
        proof {
            self.component_manager.lemma_registry();
        }
        let r = self.component_manager.detach(entity, kind);
        if r.is_ok() {
            self.entity_manager.detach_component(entity, kind);
            proof {
                if synchronized(old(self).memberships(), old(self).kinds()) {
                    lemma_sync_detach(
                        old(self).memberships(),
                        old(self).kinds(),
                        self.kinds(),
                        entity,
                        kind,
                    );
                }
            }
        } else {
            proof {
                assert(self.kinds() =~= old(self).kinds());
            }
        }
        r
    }

    /// Removes `entity`: purges it from every kind recorded as attached
    /// (refused while it has children), then forgets it. A failed purge
    /// leaves the entity live and the kinds already purged as they are.
    pub fn remove_entity(&mut self, entity: Entity) -> (r: Result<(), EcsError>)
        requires
            old(self).wf(),
        ensures
            final(self).wf(),
            final(self).last_id() == old(self).last_id(),
            !old(self).memberships().contains_key(entity.id) ==> r == Ok::<(), EcsError>(())
                && final(self).kinds() == old(self).kinds()
                && final(self).memberships() == old(self).memberships(),
            old(self).memberships().contains_key(entity.id) ==> {
                &&& purge_result(
                    old(self).kinds(),
                    final(self).kinds(),
                    entity,
                    old(self).memberships()[entity.id],
                    r,
                )
                &&& r is Ok ==> final(self).memberships() == old(self).memberships().remove(entity.id)
                &&& r is Err ==> final(self).memberships() == old(self).memberships()
            },
            synchronized(old(self).memberships(), old(self).kinds()) ==> synchronized(
                final(self).memberships(),
                final(self).kinds(),
            ),
            synchronized(old(self).memberships(), old(self).kinds())
                && old(self).memberships().contains_key(entity.id) ==> r == purge_check(old(self).kinds(), entity),
    {
        proof {
            self.component_manager.lemma_registry();
            if synchronized(old(self).memberships(), old(self).kinds())
                && old(self).memberships().contains_key(entity.id) {
                lemma_sync_attached_everywhere(old(self).memberships(), old(self).kinds(), entity);
            }
        }
        match self.entity_manager.get_attached(entity) {
            Some(kinds) => {
                self.component_manager.purge_entity(entity, kinds)?;
            },
            None => {},
        }
        self.entity_manager.remove(entity);
        proof {
            if synchronized(old(self).memberships(), old(self).kinds()) {
                if old(self).memberships().contains_key(entity.id) {
                    lemma_sync_purge(old(self).memberships(), old(self).kinds(), self.kinds(), entity);
                } else {
                    assert(self.memberships() =~= old(self).memberships());
                }
            }
        }
        Ok(())
    }

    /// The kinds recorded as attached to `entity`, if it is live.
    pub fn get_attached(&self, entity: Entity) -> (r: Option<&HashSet<u64>>)
        requires
            self.wf(),
        ensures
            r.is_some() == self.memberships().contains_key(entity.id),
            r.is_some() ==> r.unwrap()@ == self.memberships()[entity.id],
    {
        self.entity_manager.get_attached(entity)
    }

    /// Whether `entity` is live.
    pub fn does_entity_exist(&self, entity: Entity) -> (r: bool)
        requires
            self.wf(),
        ensures
            r == self.memberships().contains_key(entity.id),
    {
        self.entity_manager.does_exist(entity)
    }

    /// Whether `entity` is live and has kind `component` recorded.
    pub fn has_component(&self, entity: Entity, component: u64) -> (r: bool)
        requires
            self.wf(),
        ensures
            r == (self.memberships().contains_key(entity.id) && self.memberships()[entity.id].contains(
                component,
            )),
    {
        self.entity_manager.has_component(entity, component)
    }

    /// The number of live entities.
    pub fn count(&self) -> (r: usize)
        requires
            self.wf(),
        ensures
            r == self.memberships().len(),
    {
        self.entity_manager.count()
    }
}

} // verus!
