use std::collections::{HashMap, HashSet};
use vstd::prelude::*;
use crate::any_component::{AnyComponent, HIERARCHY_KIND};
use crate::component::{row_of, swap_removed};
use crate::entity::Entity;
use crate::error::EcsError;

verus! {

broadcast use vstd::std_specs::hash::group_hash_axioms;

/// Some registered kind has id `kind`.
pub open spec fn has_kind(kinds: Seq<AnyComponent>, kind: u64) -> bool {
    exists|i: int| 0 <= i < kinds.len() && kinds[i].kind() == kind
}

/// The slot of the kind with id `kind`.
pub open spec fn slot_of(kinds: Seq<AnyComponent>, kind: u64) -> int {
    choose|i: int| 0 <= i < kinds.len() && kinds[i].kind() == kind
}

/// No two registered kinds share an id, and each is well formed.
pub open spec fn registry_wf(kinds: Seq<AnyComponent>) -> bool {
    &&& forall|i: int| 0 <= i < kinds.len() ==> (#[trigger] kinds[i]).wf()
    &&& forall|i: int, j: int|
        0 <= i < kinds.len() && 0 <= j < kinds.len() && i != j ==> kinds[i].kind() != kinds[j].kind()
}

/// Whether `entity` may be purged: the hierarchy kind is registered, holds a
/// row for `entity`, and that row has no children.
pub open spec fn purge_check(kinds: Seq<AnyComponent>, entity: Entity) -> Result<(), EcsError> {
    if !has_kind(kinds, HIERARCHY_KIND) {
        Err(EcsError::NotFound)
    } else {
        match kinds[slot_of(kinds, HIERARCHY_KIND)] {
            AnyComponent::Hierarchy(h) => if !h.entities().contains(entity) {
                Err(EcsError::NotFound)
            } else if h.children()[row_of(h.entities(), entity)].len() > 0 {
                Err(EcsError::InvariantViolation)
            } else {
                Ok(())
            },
            AnyComponent::Name(_) => Err(EcsError::NotFound),
        }
    }
}

/// `after` is `before` with `entity` detached where its kind id is in
/// `kinds`, and `before` itself elsewhere.
pub open spec fn purged(before: AnyComponent, after: AnyComponent, entity: Entity, kinds: Set<u64>) -> bool {
    &&& after.kind() == before.kind()
    &&& after.wf()
    &&& kinds.contains(before.kind()) ==> after.rows() == swap_removed(
        before.rows(),
        row_of(before.rows(), entity),
    )
    &&& !kinds.contains(before.kind()) ==> after == before
}

/// Every kind whose id is in `kinds` holds a row for `entity`.
pub open spec fn attached_everywhere(ks: Seq<AnyComponent>, entity: Entity, kinds: Set<u64>) -> bool {
    forall|i: int| 0 <= i < ks.len() && kinds.contains(#[trigger] ks[i].kind()) ==> ks[i].rows().contains(entity)
}

/// The kind with id `kind`, if registered, has room for one more row.
pub open spec fn has_room(ks: Seq<AnyComponent>, kind: u64) -> bool {
    has_kind(ks, kind) ==> ks[slot_of(ks, kind)].rows().len() < usize::MAX
}

/// How the registry `ks` becomes `ks2`, returning `r`, when `entity` is
/// attached to the kind with id `kind`: `NotFound` where no such kind is
/// registered; else the kind's own attach, in its slot.
pub open spec fn attach_result(
    ks: Seq<AnyComponent>,
    ks2: Seq<AnyComponent>,
    entity: Entity,
    kind: u64,
    r: Result<usize, EcsError>,
) -> bool {
    &&& !has_kind(ks, kind) ==> r == Err::<usize, EcsError>(EcsError::NotFound) && ks2 == ks
    &&& has_kind(ks, kind) ==> ({
        let i = slot_of(ks, kind);
        &&& ks2 == ks.update(i, ks2[i])
        &&& ks2[i].kind() == kind
        &&& ks[i].rows().contains(entity) ==> r == Err::<usize, EcsError>(EcsError::AlreadyExists)
            && ks2[i] == ks[i]
        &&& !ks[i].rows().contains(entity) ==> r == Ok::<usize, EcsError>(ks[i].rows().len() as usize)
            && ks2[i].rows() == ks[i].rows().push(entity)
    })
}

/// How the registry `ks` becomes `ks2`, returning `r`, when `entity` is
/// detached from the kind with id `kind`: `NotFound` where no such kind is
/// registered; else the kind's own detach, in its slot.
pub open spec fn detach_result(
    ks: Seq<AnyComponent>,
    ks2: Seq<AnyComponent>,
    entity: Entity,
    kind: u64,
    r: Result<(), EcsError>,
) -> bool {
    &&& !has_kind(ks, kind) ==> r == Err::<(), EcsError>(EcsError::NotFound) && ks2 == ks
    &&& has_kind(ks, kind) ==> ({
        let i = slot_of(ks, kind);
        &&& ks2 == ks.update(i, ks2[i])
        &&& ks2[i].kind() == kind
        &&& !ks[i].rows().contains(entity) ==> r == Err::<(), EcsError>(EcsError::NotFound)
            && ks2[i] == ks[i]
        &&& ks[i].rows().contains(entity) ==> r == Ok::<(), EcsError>(()) && ks2[i].rows()
            == swap_removed(ks[i].rows(), row_of(ks[i].rows(), entity))
    })
}

/// How the registry `ks` becomes `ks2`, returning `r`, when `entity` is
/// purged from the kinds whose ids are in `kinds`: the hierarchy check
/// first, then a detach from each such kind in slot order, stopping at the
/// first kind that has no row for `entity`.
pub open spec fn purge_result(
    ks: Seq<AnyComponent>,
    ks2: Seq<AnyComponent>,
    entity: Entity,
    kinds: Set<u64>,
    r: Result<(), EcsError>,
) -> bool {
    &&& ks2.len() == ks.len()
    &&& purge_check(ks, entity) is Err ==> r == purge_check(ks, entity) && ks2 == ks
    &&& purge_check(ks, entity) is Ok && attached_everywhere(ks, entity, kinds) ==> {
        &&& r == Ok::<(), EcsError>(())
        &&& forall|i: int| 0 <= i < ks.len() ==> purged(#[trigger] ks[i], ks2[i], entity, kinds)
    }
    &&& purge_check(ks, entity) is Ok && !attached_everywhere(ks, entity, kinds) ==> {
        &&& r == Err::<(), EcsError>(EcsError::NotFound)
        &&& exists|j: int|
            {
                &&& 0 <= j < ks.len()
                &&& kinds.contains(ks[j].kind())
                &&& !ks[j].rows().contains(entity)
                &&& forall|i: int| 0 <= i < j ==> purged(#[trigger] ks[i], ks2[i], entity, kinds)
                &&& forall|i: int| j <= i < ks.len() ==> #[trigger] ks2[i] == ks[i]
            }
    }
}

/// The registry of component kinds: the kinds in registration order, and an
/// index from each kind id to its slot.
pub struct ComponentManager {
    indices: HashMap<u64, usize>,
    components: Vec<AnyComponent>,
}

impl ComponentManager {
    /// The registered kinds, in slot order.
    pub closed spec fn kinds(&self) -> Seq<AnyComponent> {
        self.components@
    }

    /// The index maps each kind id to its slot and nothing else.
    closed spec fn indices_wf(&self) -> bool {
        &&& forall|i: int|
            0 <= i < self.components@.len() ==> {
                &&& #[trigger] self.indices@.contains_key(self.components@[i].kind())
                &&& self.indices@[self.components@[i].kind()] == i
            }
        &&& forall|k: u64| #[trigger]
            self.indices@.contains_key(k) ==> {
                &&& self.indices@[k] < self.components@.len()
                &&& self.components@[self.indices@[k] as int].kind() == k
            }
    }

    pub closed spec fn wf(&self) -> bool {
        &&& self.indices_wf()
        &&& forall|i: int| 0 <= i < self.components@.len() ==> (#[trigger] self.components@[i]).wf()
    }

    /// A well-formed registry holds well-formed kinds with distinct ids.
    pub proof fn lemma_registry(&self)
        requires
            self.wf(),
        ensures
            registry_wf(self.kinds()),
    {
        assert forall|i: int, j: int|
            0 <= i < self.kinds().len() && 0 <= j < self.kinds().len() && i != j implies self.kinds()[i].kind()
            != self.kinds()[j].kind() by {
            assert(self.indices@.contains_key(self.components@[i].kind()));
            assert(self.indices@.contains_key(self.components@[j].kind()));
        }
    }

    /// A kind keeps its slot while the kinds change in content but not in id.
    pub proof fn lemma_slot_kept(ks: Seq<AnyComponent>, ks2: Seq<AnyComponent>, kind: u64)
        requires
            registry_wf(ks),
            ks2.len() == ks.len(),
            forall|i: int| 0 <= i < ks.len() ==> (#[trigger] ks2[i]).kind() == ks[i].kind(),
            has_kind(ks, kind),
        ensures
            has_kind(ks2, kind),
            slot_of(ks2, kind) == slot_of(ks, kind),
    {
        let i = slot_of(ks, kind);
        assert(ks2[i].kind() == kind);
        let j = slot_of(ks2, kind);
        assert(ks[j].kind() == kind);
    }

    proof fn lemma_slot(&self, i: int)
        requires
            self.wf(),
            0 <= i < self.kinds().len(),
        ensures
            slot_of(self.kinds(), self.kinds()[i].kind()) == i,
    {
        self.lemma_registry();
        let j = slot_of(self.kinds(), self.kinds()[i].kind());
        assert(0 <= j < self.kinds().len() && self.kinds()[j].kind() == self.kinds()[i].kind());
    }

    pub fn new() -> (r: ComponentManager)
        ensures
            r.wf(),
            r.kinds() == Seq::<AnyComponent>::empty(),
    {
        ComponentManager { indices: HashMap::new(), components: Vec::new() }
    }

    /// The number of registered kinds.
    pub fn len(&self) -> (r: usize)
        requires
            self.wf(),
        ensures
            r == self.kinds().len(),
    {
        self.components.len()
    }

    /// The slot of the kind with id `kind`, if it is registered.
    pub fn find_index(&self, kind: u64) -> (r: Option<usize>)
        requires
            self.wf(),
        ensures
            r.is_some() == has_kind(self.kinds(), kind),
            r.is_some() ==> r.unwrap() == slot_of(self.kinds(), kind) && r.unwrap() < self.kinds().len(),
    {
        match self.indices.get(&kind) {
            Some(i) => {
                proof {
                    self.lemma_slot(*i as int);
                }
                Some(*i)
            },
            None => {
                proof {
                    if has_kind(self.kinds(), kind) {
                        let i = choose|i: int| 0 <= i < self.kinds().len() && self.kinds()[i].kind() == kind;
                        assert(self.indices@.contains_key(self.components@[i].kind()));
                    }
                }
                None
            },
        }
    }

    /// Whether a kind with id `kind` is registered.
    pub fn has(&self, kind: u64) -> (r: bool)
        requires
            self.wf(),
        ensures
            r == has_kind(self.kinds(), kind),
    {
        self.find_index(kind).is_some()
    }

    /// The kind with id `kind`, if it is registered.
    pub fn get(&self, kind: u64) -> (r: Option<&AnyComponent>)
        requires
            self.wf(),
        ensures
            r.is_some() == has_kind(self.kinds(), kind),
            r.is_some() ==> *r.unwrap() == self.kinds()[slot_of(self.kinds(), kind)],
    {
        match self.find_index(kind) {
            Some(i) => Some(&self.components[i]),
            None => None,
        }
    }

    /// Registers `c` in a new last slot; fails if its kind is registered.
    pub fn add(&mut self, c: AnyComponent) -> (r: Result<(), EcsError>)
        requires
            old(self).wf(),
            c.wf(),
        ensures
            final(self).wf(),
            has_kind(old(self).kinds(), c.kind()) ==> r == Err::<(), EcsError>(
                EcsError::AlreadyExists,
            ) && final(self).kinds() == old(self).kinds(),
            !has_kind(old(self).kinds(), c.kind()) ==> r == Ok::<(), EcsError>(())
                && final(self).kinds() == old(self).kinds().push(c),
    {
        let kind = c.kind_id();
        if self.has(kind) {
            return Err(EcsError::AlreadyExists);
        }
        let index = self.components.len();
        self.indices.insert(kind, index);
        self.components.push(c);
        proof {
            assert forall|k: u64| #[trigger]
                self.indices@.contains_key(k) implies self.indices@[k] < self.components@.len()
                && self.components@[self.indices@[k] as int].kind() == k by {
                if k != kind {
                    assert(old(self).indices@.contains_key(k));
                }
            }
            assert forall|i: int| 0 <= i < self.components@.len() implies {
                &&& #[trigger] self.indices@.contains_key(self.components@[i].kind())
                &&& self.indices@[self.components@[i].kind()] == i
            } by {
                if i < index {
                    assert(old(self).indices@.contains_key(old(self).components@[i].kind()));
                    assert(old(self).components@[i].kind() != kind);
                }
            }
        }
        Ok(())
    }

    /// Points the index of every kind from slot `start` on at its slot.
    fn update_indices(&mut self, start: usize)
        requires
            start <= old(self).components@.len(),
            registry_wf(old(self).components@),
            forall|i: int|
                0 <= i < start ==> {
                    &&& #[trigger] old(self).indices@.contains_key(old(self).components@[i].kind())
                    &&& old(self).indices@[old(self).components@[i].kind()] == i
                },
            forall|k: u64| #[trigger]
                old(self).indices@.contains_key(k) ==> has_kind(old(self).components@, k),
        ensures
            final(self).wf(),
            final(self).components@ == old(self).components@,
    {
        let mut i = start;
        proof {
            assert forall|j: int| 0 <= j < i implies {
                &&& #[trigger] self.indices@.contains_key(self.components@[j].kind())
                &&& self.indices@[self.components@[j].kind()] == j
            } by {
                assert(old(self).indices@.contains_key(old(self).components@[j].kind()));
            }
        }
        while i < self.components.len()
            invariant
                start <= i <= self.components@.len(),
                self.components@ == old(self).components@,
                registry_wf(self.components@),
                forall|j: int|
                    0 <= j < i ==> {
                        &&& #[trigger] self.indices@.contains_key(self.components@[j].kind())
                        &&& self.indices@[self.components@[j].kind()] == j
                    },
                forall|k: u64| #[trigger] self.indices@.contains_key(k) ==> has_kind(self.components@, k),
            decreases self.components@.len() - i,
        {
            let kind = self.components[i].kind_id();
            let ghost before = self.indices@;
            self.indices.insert(kind, i);
            proof {
                assert forall|j: int| 0 <= j < i + 1 implies {
                    &&& #[trigger] self.indices@.contains_key(self.components@[j].kind())
                    &&& self.indices@[self.components@[j].kind()] == j
                } by {
                    if j < i {
                        assert(before.contains_key(self.components@[j].kind()));
                        assert(self.components@[j].kind() != kind);
                    }
                }
                assert forall|k: u64| #[trigger] self.indices@.contains_key(k) implies has_kind(self.components@, k) by {
                    if k == kind {
                        assert(self.components@[i as int].kind() == k);
                    } else {
                        assert(before.contains_key(k));
                    }
                }
            }
            i = i + 1;
        }
        proof {
            assert forall|k: u64| #[trigger]
                self.indices@.contains_key(k) implies self.indices@[k] < self.components@.len()
                && self.components@[self.indices@[k] as int].kind() == k by {
                let m = choose|m: int| 0 <= m < self.components@.len() && self.components@[m].kind() == k;
                assert(self.indices@.contains_key(self.components@[m].kind()));
            }
        }
    }

    /// Registers `c` at slot `index`, moving the kinds from there on one slot
    /// up; fails if its kind is registered, or if `index` is not a slot.
    pub fn insert(&mut self, index: usize, c: AnyComponent) -> (r: Result<(), EcsError>)
        requires
            old(self).wf(),
            c.wf(),
        ensures
            final(self).wf(),
            has_kind(old(self).kinds(), c.kind()) ==> r == Err::<(), EcsError>(
                EcsError::AlreadyExists,
            ) && final(self).kinds() == old(self).kinds(),
            !has_kind(old(self).kinds(), c.kind()) && index >= old(self).kinds().len() ==> r == Err::<
                (),
                EcsError,
            >(EcsError::OutOfBounds) && final(self).kinds() == old(self).kinds(),
            !has_kind(old(self).kinds(), c.kind()) && index < old(self).kinds().len() ==> r == Ok::<
                (),
                EcsError,
            >(()) && final(self).kinds() == old(self).kinds().insert(index as int, c),
    {
        let kind = c.kind_id();
        if self.has(kind) {
            return Err(EcsError::AlreadyExists);
        }
        if index >= self.components.len() {
            return Err(EcsError::OutOfBounds);
        }
        proof {
            self.lemma_registry();
        }
        self.indices.insert(kind, index);
        self.components.insert(index, c);
        proof {
            let kinds = self.components@;
            assert(kinds =~= old(self).kinds().insert(index as int, c));
            assert forall|i: int, j: int|
                0 <= i < kinds.len() && 0 <= j < kinds.len() && i != j implies kinds[i].kind()
                != kinds[j].kind() by {
                if i != index as int && j != index as int {
                    let oi = if i < index { i } else { i - 1 };
                    let oj = if j < index { j } else { j - 1 };
                    assert(kinds[i] == old(self).kinds()[oi]);
                    assert(kinds[j] == old(self).kinds()[oj]);
                } else if i == index as int {
                    let oj = if j < index { j } else { j - 1 };
                    assert(kinds[j] == old(self).kinds()[oj]);
                } else {
                    let oi = if i < index { i } else { i - 1 };
                    assert(kinds[i] == old(self).kinds()[oi]);
                }
            }
            assert forall|i: int| 0 <= i < kinds.len() implies (#[trigger] kinds[i]).wf() by {
                if i < index {
                    assert(kinds[i] == old(self).kinds()[i]);
                } else if i > index {
                    assert(kinds[i] == old(self).kinds()[i - 1]);
                }
            }
            assert forall|i: int| 0 <= i < index implies {
                &&& #[trigger] self.indices@.contains_key(kinds[i].kind())
                &&& self.indices@[kinds[i].kind()] == i
            } by {
                assert(kinds[i] == old(self).kinds()[i]);
                assert(old(self).indices@.contains_key(old(self).components@[i].kind()));
            }
            assert forall|k: u64| #[trigger] self.indices@.contains_key(k) implies has_kind(kinds, k) by {
                if k == kind {
                    assert(kinds[index as int].kind() == k);
                } else {
                    assert(old(self).indices@.contains_key(k));
                    let o = old(self).indices@[k] as int;
                    let n = if o < index { o } else { o + 1 };
                    assert(kinds[n] == old(self).kinds()[o]);
                }
            }
        }
        self.update_indices(index);
        Ok(())
    }

    /// Unregisters the kind with id `kind`, moving the kinds after it one
    /// slot down; fails if it is not registered, or still holds rows.
    pub fn remove(&mut self, kind: u64) -> (r: Result<(), EcsError>)
        requires
            old(self).wf(),
        ensures
            final(self).wf(),
            !has_kind(old(self).kinds(), kind) ==> r == Err::<(), EcsError>(EcsError::NotFound)
                && final(self).kinds() == old(self).kinds(),
            has_kind(old(self).kinds(), kind) && old(self).kinds()[slot_of(
                old(self).kinds(),
                kind,
            )].rows().len() > 0 ==> r == Err::<(), EcsError>(EcsError::NotEmpty)
                && final(self).kinds() == old(self).kinds(),
            has_kind(old(self).kinds(), kind) && old(self).kinds()[slot_of(
                old(self).kinds(),
                kind,
            )].rows().len() == 0 ==> r == Ok::<(), EcsError>(())
                && final(self).kinds() == old(self).kinds().remove(slot_of(old(self).kinds(), kind)),
    {
        let index = match self.find_index(kind) {
            Some(i) => i,
            None => { return Err(EcsError::NotFound); },
        };
        if !self.components[index].is_empty() {
            return Err(EcsError::NotEmpty);
        }
        proof {
            self.lemma_registry();
        }
        self.indices.remove(&kind);
        self.components.remove(index);
        proof {
            let kinds = self.components@;
            let old_kinds = old(self).kinds();
            assert(kinds =~= old_kinds.remove(index as int));
            assert forall|i: int, j: int|
                0 <= i < kinds.len() && 0 <= j < kinds.len() && i != j implies kinds[i].kind()
                != kinds[j].kind() by {
                let oi = if i < index { i } else { i + 1 };
                let oj = if j < index { j } else { j + 1 };
                assert(kinds[i] == old_kinds[oi]);
                assert(kinds[j] == old_kinds[oj]);
            }
            assert forall|i: int| 0 <= i < kinds.len() implies (#[trigger] kinds[i]).wf() by {
                let oi = if i < index { i } else { i + 1 };
                assert(kinds[i] == old_kinds[oi]);
            }
            assert forall|i: int| 0 <= i < index implies {
                &&& #[trigger] self.indices@.contains_key(kinds[i].kind())
                &&& self.indices@[kinds[i].kind()] == i
            } by {
                assert(kinds[i] == old_kinds[i]);
                assert(old(self).indices@.contains_key(old(self).components@[i].kind()));
                assert(old_kinds[i].kind() != kind);
            }
            assert forall|k: u64| #[trigger] self.indices@.contains_key(k) implies has_kind(kinds, k) by {
                assert(old(self).indices@.contains_key(k));
                let o = old(self).indices@[k] as int;
                assert(o != index);
                let n = if o < index { o } else { o - 1 };
                assert(kinds[n] == old_kinds[o]);
            }
        }
        self.update_indices(index);
        Ok(())
    }

    /// Adds a row for `entity` to the kind with id `kind`.
    pub fn attach(&mut self, entity: Entity, kind: u64) -> (r: Result<usize, EcsError>)
        requires
            old(self).wf(),
            has_room(old(self).kinds(), kind),
        ensures
            final(self).wf(),
            attach_result(old(self).kinds(), final(self).kinds(), entity, kind, r),
    {
        let index = match self.find_index(kind) {
            Some(i) => i,
            None => { return Err(EcsError::NotFound); },
        };
        let r = self.components[index].attach(entity);
        proof {
            assert(self.components@ =~= old(self).kinds().update(index as int, self.components@[index as int]));
            self.lemma_same_kinds(*old(self));
        }
        r
    }

    /// Removes the row of `entity` from the kind with id `kind`.
    pub fn detach(&mut self, entity: Entity, kind: u64) -> (r: Result<(), EcsError>)
        requires
            old(self).wf(),
        ensures
            final(self).wf(),
            detach_result(old(self).kinds(), final(self).kinds(), entity, kind, r),
    {
        let index = match self.find_index(kind) {
            Some(i) => i,
            None => { return Err(EcsError::NotFound); },
        };
        let r = self.components[index].detach(entity);
        proof {
            assert(self.components@ =~= old(self).kinds().update(index as int, self.components@[index as int]));
            self.lemma_same_kinds(*old(self));
        }
        r
    }

    /// A registry whose kinds changed in content but not in id, over the same
    /// index, stays well formed.
    proof fn lemma_same_kinds(&self, before: ComponentManager)
        requires
            before.wf(),
            self.indices@ == before.indices@,
            self.components@.len() == before.components@.len(),
            forall|i: int|
                0 <= i < self.components@.len() ==> (#[trigger] self.components@[i]).kind()
                    == before.components@[i].kind() && self.components@[i].wf(),
        ensures
            self.wf(),
    {
        assert forall|i: int| 0 <= i < self.components@.len() implies {
            &&& #[trigger] self.indices@.contains_key(self.components@[i].kind())
            &&& self.indices@[self.components@[i].kind()] == i
        } by {
            assert(before.indices@.contains_key(before.components@[i].kind()));
        }
        assert forall|k: u64| #[trigger]
            self.indices@.contains_key(k) implies self.indices@[k] < self.components@.len()
            && self.components@[self.indices@[k] as int].kind() == k by {
            assert(before.indices@.contains_key(k));
        }
    }

    /// Whether the hierarchy kind allows `entity` to be purged.
    fn has_children(&self, entity: Entity) -> (r: Result<(), EcsError>)
        requires
            self.wf(),
        ensures
            r == purge_check(self.kinds(), entity),
    {
        let index = match self.find_index(HIERARCHY_KIND) {
            Some(i) => i,
            None => { return Err(EcsError::NotFound); },
        };
        match &self.components[index] {
            AnyComponent::Hierarchy(h) => {
                proof {
                    h.lemma_shape();
                }
                match h.find_index(&entity) {
                    Some(row) => {
                        proof {
                            crate::component::lemma_row_of(h.entities(), row as int);
                        }
                        match h.get_children(row) {
                            Ok(children) => {
                                if children.len() > 0 {
                                    return Err(EcsError::InvariantViolation);
                                }
                                Ok(())
                            },
                            Err(e) => Err(e),
                        }
                    },
                    None => Err(EcsError::NotFound),
                }
            },
            AnyComponent::Name(_) => Err(EcsError::NotFound),
        }
    }

    /// Detaches `entity` from every registered kind whose id is in `kinds`,
    /// in slot order, once the hierarchy kind has shown that it has no
    /// children. A detach that fails stops the purge and leaves the earlier
    /// detaches in place.
    pub fn purge_entity(&mut self, entity: Entity, kinds: &HashSet<u64>) -> (r: Result<(), EcsError>)
        requires
            old(self).wf(),
        ensures
            final(self).wf(),
            purge_result(old(self).kinds(), final(self).kinds(), entity, kinds@, r),
    {
        let check = self.has_children(entity);
        if check.is_err() {
            return check;
        }
        let mut i: usize = 0;
        while i < self.components.len()
            invariant
                old(self).wf(),
                purge_check(old(self).kinds(), entity) is Ok,
                self.wf(),
                i <= self.components@.len(),
                self.components@.len() == old(self).components@.len(),
                self.indices@ == old(self).indices@,
                forall|m: int| 0 <= m < i ==> purged(#[trigger] old(self).components@[m], self.components@[m], entity, kinds@),
                forall|m: int| 0 <= m < i && kinds@.contains(#[trigger] old(self).components@[m].kind()) ==> old(self).components@[m].rows().contains(entity),
                forall|m: int| i <= m < self.components@.len() ==> #[trigger] self.components@[m] == old(self).components@[m],
            decreases self.components@.len() - i,
        {
            let kind = self.components[i].kind_id();
            if kinds.contains(&kind) {
                let ghost before = self.components@;
                proof {
                    assert(before[i as int] == old(self).components@[i as int]);
                }
                let result = self.components[i].detach(entity);
                proof {
                    assert forall|m: int|
                        0 <= m < self.components@.len() implies (#[trigger] self.components@[m]).kind()
                            == old(self).components@[m].kind() && self.components@[m].wf() by {
                        if m != i {
                            assert(self.components@[m] == before[m]);
                            if m < i {
                                assert(purged(old(self).components@[m], before[m], entity, kinds@));
                            }
                        }
                    }
                    self.lemma_same_kinds(*old(self));
                }
                match result {
                    Ok(()) => {},
                    Err(e) => {
                        proof {
                            assert(self.components@ =~= before);
                            assert(!attached_everywhere(old(self).components@, entity, kinds@));
                        }
                        return Err(e);
                    },
                }
            }
            i = i + 1;
        }
        Ok(())
    }

    /// The index of `self` is that of `before`.
    pub closed spec fn indexed_like(&self, before: ComponentManager) -> bool {
        self.indices@ == before.indices@
    }

    /// After a kind of a well-formed registry has been changed in place into
    /// a well-formed kind of the same id, the registry is well formed.
    pub proof fn lemma_kind_replaced(&self, before: ComponentManager, i: int)
        requires
            before.wf(),
            self.indexed_like(before),
            0 <= i < before.kinds().len(),
            self.kinds() == before.kinds().update(i, self.kinds()[i]),
            self.kinds()[i].kind() == before.kinds()[i].kind(),
            self.kinds()[i].wf(),
        ensures
            self.wf(),
    {
        assert forall|m: int|
            0 <= m < self.components@.len() implies (#[trigger] self.components@[m]).kind()
                == before.components@[m].kind() && self.components@[m].wf() by {
            if m != i {
                assert(self.components@[m] == before.components@[m]);
            }
        }
        self.lemma_same_kinds(before);
    }

    /// The kind at slot `index`, to be changed in place.
    pub fn slot_mut(&mut self, index: usize) -> (r: &mut AnyComponent)
        requires
            old(self).wf(),
            index < old(self).kinds().len(),
        ensures
            *r == old(self).kinds()[index as int],
            final(self).kinds() == old(self).kinds().update(index as int, *final(r)),
            final(self).indexed_like(*old(self)),
    {
        &mut self.components[index]
    }

    /// The kind with id `kind`, if it is registered, to be changed in place.
    pub fn get_mut(&mut self, kind: u64) -> (r: Option<&mut AnyComponent>)
        requires
            old(self).wf(),
        ensures
            r.is_some() == has_kind(old(self).kinds(), kind),
            match r {
                Some(c) => {
                    &&& *c == old(self).kinds()[slot_of(old(self).kinds(), kind)]
                    &&& final(self).kinds() == old(self).kinds().update(
                        slot_of(old(self).kinds(), kind),
                        *final(c),
                    )
                    &&& final(self).indexed_like(*old(self))
                },
                None => *final(self) == *old(self),
            },
    {
        match self.find_index(kind) {
            Some(i) => Some(self.slot_mut(i)),
            None => None,
        }
    }
}

} // verus!
