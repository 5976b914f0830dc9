use std::collections::{HashMap, HashSet};
use vstd::prelude::*;
use crate::entity::Entity;

verus! {

broadcast use vstd::std_specs::hash::group_hash_axioms;

proof fn lemma_increasing_between(ids: Seq<u64>, i: int, j: int)
    requires
        forall|k: int| 0 <= k < ids.len() - 1 ==> #[trigger] ids[k] < ids[k + 1],
        0 <= i < j < ids.len(),
    ensures
        ids[i] < ids[j],
    decreases j - i,
{
    if j > i + 1 {
        lemma_increasing_between(ids, i, j - 1);
        assert(ids[j - 1] < ids[j]);
    } else {
        assert(ids[i] < ids[i + 1]);
    }
}

/// Successive `create` calls hand out strictly increasing, hence pairwise
/// distinct, ids. `before[i]` is the last id handed out when the `i`-th call
/// starts; `create` returns the next one and records it, and no other call
/// lowers it, so each call starts at or above the id returned by the one
/// before.
pub proof fn lemma_created_ids_increase(before: Seq<u64>, ids: Seq<u64>)
    requires
        before.len() == ids.len(),
        forall|i: int| 0 <= i < ids.len() ==> #[trigger] ids[i] == before[i] + 1,
        forall|i: int| 0 <= i < ids.len() - 1 ==> #[trigger] before[i + 1] >= ids[i],
    ensures
        forall|i: int, j: int| 0 <= i < j < ids.len() ==> ids[i] < ids[j],
        forall|i: int, j: int| 0 <= i < ids.len() && 0 <= j < ids.len() && i != j ==> ids[i] != ids[j],
{
    assert forall|k: int| 0 <= k < ids.len() - 1 implies #[trigger] ids[k] < ids[k + 1] by {
        assert(before[k + 1] >= ids[k]);
        assert(ids[k + 1] == before[k + 1] + 1);
    }
    assert forall|i: int, j: int| 0 <= i < j < ids.len() implies ids[i] < ids[j] by {
        lemma_increasing_between(ids, i, j);
    }
    assert forall|i: int, j: int| 0 <= i < ids.len() && 0 <= j < ids.len() && i != j implies ids[i] != ids[j] by {
        if i < j {
            lemma_increasing_between(ids, i, j);
        } else {
            lemma_increasing_between(ids, j, i);
        }
    }
}

/// Entity identity and membership: which entities are live, and for each the
/// ids of the component kinds attached to it. Ids are handed out in
/// increasing order and never reused.
pub struct EntityManager {
    entities: HashMap<u64, HashSet<u64>>,
    next_id: u64,
}

impl EntityManager {
    /// The live entities' ids, each with the kind ids attached to it.
    pub closed spec fn memberships(&self) -> Map<u64, Set<u64>> {
        Map::new(|k: u64| self.entities@.contains_key(k), |k: u64| self.entities@[k]@)
    }

    /// The largest id handed out so far (`0` before the first).
    pub closed spec fn last_id(&self) -> u64 {
        self.next_id
    }

    /// No live id is larger than the last one handed out.
    pub closed spec fn wf(&self) -> bool {
        forall|k: u64| #[trigger] self.entities@.contains_key(k) ==> k <= self.next_id
    }

    pub fn new() -> (r: EntityManager)
        ensures
            r.wf(),
            r.memberships() == Map::<u64, Set<u64>>::empty(),
            r.last_id() == 0,
    {
        let r = EntityManager { entities: HashMap::new(), next_id: 0 };
        proof {
            assert(r.memberships() =~= Map::<u64, Set<u64>>::empty());
        }
        r
    }

    /// A new live entity, with an id larger than every id handed out before
    /// and no kinds attached.
    pub fn create(&mut self) -> (r: Entity)
        requires
            old(self).wf(),
            old(self).last_id() < u64::MAX,
        ensures
            final(self).wf(),
            r.id == old(self).last_id() + 1,
            final(self).last_id() == r.id,
            !old(self).memberships().contains_key(r.id),
            final(self).memberships() == old(self).memberships().insert(r.id, Set::<u64>::empty()),
    {
        self.next_id = self.next_id + 1;
        let entity = Entity::new(self.next_id);
        self.entities.insert(entity.id, HashSet::new());
        proof {
            assert(self.memberships() =~= old(self).memberships().insert(
                entity.id,
                Set::<u64>::empty(),
            ));
        }
        entity
    }

    /// Forgets `entity`; true iff it was live. Its components are not touched.
    pub fn remove(&mut self, entity: Entity) -> (r: bool)
        requires
            old(self).wf(),
        ensures
            final(self).wf(),
            r == old(self).memberships().contains_key(entity.id),
            final(self).memberships() == old(self).memberships().remove(entity.id),
            final(self).last_id() == old(self).last_id(),
    {
        let removed = self.entities.remove(&entity.id);
        proof {
            assert(self.memberships() =~= old(self).memberships().remove(entity.id));
        }
        removed.is_some()
    }

    /// Records that kind `component` is attached to `entity`; true iff the
    /// entity is live and did not have it yet.
    pub fn attach_component(&mut self, entity: Entity, component: u64) -> (r: bool)
        requires
            old(self).wf(),
        ensures
            final(self).wf(),
            final(self).last_id() == old(self).last_id(),
            r == (old(self).memberships().contains_key(entity.id)
                && !old(self).memberships()[entity.id].contains(component)),
            old(self).memberships().contains_key(entity.id) ==> final(self).memberships()
                == old(self).memberships().insert(
                entity.id,
                old(self).memberships()[entity.id].insert(component),
            ),
            !old(self).memberships().contains_key(entity.id) ==> final(self).memberships()
                == old(self).memberships(),
    {
        match self.entities.remove(&entity.id) {
            Some(mut set) => {
                let added = set.insert(component);
                self.entities.insert(entity.id, set);
                proof {
                    assert(self.memberships() =~= old(self).memberships().insert(
                        entity.id,
                        old(self).memberships()[entity.id].insert(component),
                    ));
                }
                added
            },
            None => {
                proof {
                    assert(self.memberships() =~= old(self).memberships());
                }
                false
            },
        }
    }

    /// Records that kind `component` is no longer attached to `entity`; true
    /// iff the entity is live and had it.
    pub fn detach_component(&mut self, entity: Entity, component: u64) -> (r: bool)
        requires
            old(self).wf(),
        ensures
            final(self).wf(),
            final(self).last_id() == old(self).last_id(),
            r == (old(self).memberships().contains_key(entity.id)
                && old(self).memberships()[entity.id].contains(component)),
            old(self).memberships().contains_key(entity.id) ==> final(self).memberships()
                == old(self).memberships().insert(
                entity.id,
                old(self).memberships()[entity.id].remove(component),
            ),
            !old(self).memberships().contains_key(entity.id) ==> final(self).memberships()
                == old(self).memberships(),
    {
        match self.entities.remove(&entity.id) {
            Some(mut set) => {
                let removed = set.remove(&component);
                self.entities.insert(entity.id, set);
                proof {
                    assert(self.memberships() =~= old(self).memberships().insert(
                        entity.id,
                        old(self).memberships()[entity.id].remove(component),
                    ));
                }
                removed
            },
            None => {
                proof {
                    assert(self.memberships() =~= old(self).memberships());
                }
                false
            },
        }
    }

    /// Whether `entity` is live and has kind `component` attached.
    pub fn has_component(&self, entity: Entity, component: u64) -> (r: bool)
        requires
            self.wf(),
        ensures
            r == (self.memberships().contains_key(entity.id) && self.memberships()[entity.id].contains(
                component,
            )),
    {
        match self.entities.get(&entity.id) {
            Some(set) => set.contains(&component),
            None => false,
        }
    }

    /// The kinds attached to `entity`, if it is live.
    pub fn get_attached(&self, entity: Entity) -> (r: Option<&HashSet<u64>>)
        requires
            self.wf(),
        ensures
            r.is_some() == self.memberships().contains_key(entity.id),
            r.is_some() ==> r.unwrap()@ == self.memberships()[entity.id],
    {
        self.entities.get(&entity.id)
    }

    /// Whether `entity` is live.
    pub fn does_exist(&self, entity: Entity) -> (r: bool)
        requires
            self.wf(),
        ensures
            r == self.memberships().contains_key(entity.id),
    {
        self.entities.contains_key(&entity.id)
    }

    /// The number of live entities.
    pub fn count(&self) -> (r: usize)
        requires
            self.wf(),
        ensures
            r == self.memberships().len(),
    {
        proof {
            assert(self.memberships().dom() =~= self.entities@.dom());
        }
        self.entities.len()
    }
}

} // verus!
