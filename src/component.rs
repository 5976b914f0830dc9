use std::collections::HashMap;
use vstd::prelude::*;
use crate::entity::Entity;

verus! {

broadcast use vstd::std_specs::hash::group_hash_axioms;

/// A sequence with the element at `i` replaced by the last one and the last
/// slot dropped: what a swap-remove leaves behind.
pub open spec fn swap_removed<A>(s: Seq<A>, i: int) -> Seq<A> {
    s.update(i, s.last()).drop_last()
}

/// No two rows hold the same entity.
pub open spec fn unique_ids(s: Seq<Entity>) -> bool {
    forall|i: int, j: int| 0 <= i < s.len() && 0 <= j < s.len() && i != j ==> s[i].id != s[j].id
}

/// The row that holds `e` in a sequence of distinct entities.
pub open spec fn row_of(ents: Seq<Entity>, e: Entity) -> int {
    choose|i: int| 0 <= i < ents.len() && ents[i] == e
}

/// In a sequence of distinct entities, `row_of` finds the one row that holds
/// an entity.
pub proof fn lemma_row_of(ents: Seq<Entity>, i: int)
    requires
        unique_ids(ents),
        0 <= i < ents.len(),
    ensures
        row_of(ents, ents[i]) == i,
{
    let j = row_of(ents, ents[i]);
    assert(0 <= j < ents.len() && ents[j] == ents[i]);
}

/// A swap-remove keeps the entities distinct and drops exactly the entity of
/// the removed row.
pub proof fn lemma_swap_removed_unique(ents: Seq<Entity>, i: int)
    requires
        unique_ids(ents),
        0 <= i < ents.len(),
    ensures
        unique_ids(swap_removed(ents, i)),
        !swap_removed(ents, i).contains(ents[i]),
        forall|x: Entity| swap_removed(ents, i).contains(x) ==> ents.contains(x),
        forall|x: Entity| ents.contains(x) && x != ents[i] ==> swap_removed(ents, i).contains(x),
{
    let r = swap_removed(ents, i);
    let last = ents.len() - 1;
    assert forall|a: int, b: int| 0 <= a < r.len() && 0 <= b < r.len() && a != b implies r[a].id
        != r[b].id by {
        let oa = if a == i { last } else { a };
        let ob = if b == i { last } else { b };
        assert(r[a] == ents[oa] && r[b] == ents[ob]);
    }
    if r.contains(ents[i]) {
        let j = choose|j: int| 0 <= j < r.len() && r[j] == ents[i];
        let oj = if j == i { last } else { j };
        assert(r[j] == ents[oj]);
    }
    assert forall|x: Entity| r.contains(x) implies ents.contains(x) by {
        let j = choose|j: int| 0 <= j < r.len() && r[j] == x;
        let oj = if j == i { last } else { j };
        assert(r[j] == ents[oj]);
    }
    assert forall|x: Entity| ents.contains(x) && x != ents[i] implies r.contains(x) by {
        let j = choose|j: int| 0 <= j < ents.len() && ents[j] == x;
        let nj = if j == last { i } else { j };
        assert(r[nj] == x);
    }
}

/// Attaching an entity and then detaching it leaves it without a row, keeps
/// the remaining rows distinct and drawn from the rows held before, and, for
/// an entity that had no row, leaves the rows exactly as they were.
pub proof fn lemma_attach_then_detach(ents: Seq<Entity>, e: Entity)
    requires
        unique_ids(ents),
    ensures
        ({
            let attached = if ents.contains(e) {
                ents
            } else {
                ents.push(e)
            };
            let detached = swap_removed(attached, row_of(attached, e));
            &&& !detached.contains(e)
            &&& unique_ids(detached)
            &&& detached.len() == attached.len() - 1
            &&& forall|x: Entity| detached.contains(x) ==> ents.contains(x)
            &&& !ents.contains(e) ==> detached == ents
        }),
{
    let attached = if ents.contains(e) {
        ents
    } else {
        ents.push(e)
    };
    if ents.contains(e) {
        let i = choose|i: int| 0 <= i < ents.len() && ents[i] == e;
        lemma_row_of(ents, i);
        lemma_swap_removed_unique(ents, i);
    } else {
        assert forall|a: int, b: int|
            0 <= a < attached.len() && 0 <= b < attached.len() && a != b implies attached[a].id
            != attached[b].id by {
            if a == ents.len() {
                assert(ents[b] != e);
            } else if b == ents.len() {
                assert(ents[a] != e);
            }
        }
        let n = ents.len() as int;
        assert(attached[n] == e);
        lemma_row_of(attached, n);
        lemma_swap_removed_unique(attached, n);
        assert(swap_removed(attached, n) =~= ents);
    }
}

/// Removing a row other than the last moves the entity of the last row into
/// the freed slot, where a lookup then finds it.
pub proof fn lemma_swap_remove_relocates_last(ents: Seq<Entity>, i: int)
    requires
        unique_ids(ents),
        0 <= i < ents.len() - 1,
    ensures
        swap_removed(ents, i)[i] == ents.last(),
        row_of(swap_removed(ents, i), ents.last()) == i,
{
    lemma_swap_removed_unique(ents, i);
    lemma_row_of(swap_removed(ents, i), i);
}

/// Dense row storage shared by every component kind: row `i` holds one
/// entity, and an index maps each stored entity back to its row.
pub struct Component {
    entities: HashMap<u64, usize>,
    rows: Vec<Entity>,
}

impl View for Component {
    type V = Seq<Entity>;

    /// The entity held by each row, in row order.
    closed spec fn view(&self) -> Seq<Entity> {
        self.rows@
    }
}

impl Component {
    /// The index is exactly the inverse of "row `i` holds entity `e`".
    pub closed spec fn wf(&self) -> bool {
        &&& self.entities@.len() == self.rows@.len()
        &&& forall|i: int|
            0 <= i < self.rows@.len() ==> {
                &&& #[trigger] self.entities@.contains_key(self.rows@[i].id)
                &&& self.entities@[self.rows@[i].id] == i
            }
        &&& forall|k: u64| #[trigger]
            self.entities@.contains_key(k) ==> {
                &&& self.entities@[k] < self.rows@.len()
                &&& self.rows@[self.entities@[k] as int].id == k
            }
    }

    /// A well-formed store never holds an entity twice.
    pub proof fn lemma_unique(&self)
        requires
            self.wf(),
        ensures
            unique_ids(self@),
    {
        assert forall|i: int, j: int|
            0 <= i < self@.len() && 0 <= j < self@.len() && i != j implies self@[i].id
            != self@[j].id by {
            assert(self.entities@.contains_key(self.rows@[i].id));
            assert(self.entities@.contains_key(self.rows@[j].id));
        }
    }

    pub fn new() -> (r: Component)
        ensures
            r.wf(),
            r@ == Seq::<Entity>::empty(),
    {
        Component { entities: HashMap::new(), rows: Vec::new() }
    }

    /// The number of rows.
    pub fn len(&self) -> (r: usize)
        requires
            self.wf(),
        ensures
            r == self@.len(),
    {
        self.rows.len()
    }

    /// The row that holds `entity`, if any.
    pub fn find_index(&self, entity: &Entity) -> (r: Option<usize>)
        requires
            self.wf(),
        ensures
            match r {
                Some(i) => i < self@.len() && self@[i as int] == *entity,
                None => !self@.contains(*entity),
            },
    {
        match self.entities.get(&entity.id) {
            Some(index) => Some(*index),
            None => {
                proof {
                    if self@.contains(*entity) {
                        let i = choose|i: int| 0 <= i < self@.len() && self@[i] == *entity;
                        assert(self.entities@.contains_key(self.rows@[i].id));
                    }
                }
                None
            },
        }
    }

    pub fn does_exist(&self, entity: &Entity) -> (r: bool)
        requires
            self.wf(),
        ensures
            r == self@.contains(*entity),
    {
        let found = self.find_index(entity);
        found.is_some()
    }

    /// Whether `index` names a row.
    pub fn bounds_check(&self, index: usize) -> (r: bool)
        requires
            self.wf(),
        ensures
            r == (index < self@.len()),
    {
        index < self.entities.len()
    }

    /// The entity held by row `index`.
    pub fn entity(&self, index: usize) -> (r: Entity)
        requires
            self.wf(),
            index < self@.len(),
        ensures
            r == self@[index as int],
    {
        self.rows[index]
    }

    /// Appends a row for an entity that has none; returns its row.
    pub fn push(&mut self, entity: Entity) -> (r: usize)
        requires
            old(self).wf(),
            !old(self)@.contains(entity),
            old(self)@.len() < usize::MAX,
        ensures
            final(self).wf(),
            r == old(self)@.len(),
            final(self)@ == old(self)@.push(entity),
    {
        let index = self.rows.len();
        proof {
            if self.entities@.contains_key(entity.id) {
                assert(self@[self.entities@[entity.id] as int] == entity);
            }
        }
        self.entities.insert(entity.id, index);
        self.rows.push(entity);
        proof {
            assert forall|k: u64| #[trigger]
                self.entities@.contains_key(k) implies self.entities@[k] < self.rows@.len()
                && self.rows@[self.entities@[k] as int].id == k by {
                if k != entity.id {
                    assert(old(self).entities@.contains_key(k));
                }
            }
            assert forall|i: int| 0 <= i < self.rows@.len() implies {
                &&& #[trigger] self.entities@.contains_key(self.rows@[i].id)
                &&& self.entities@[self.rows@[i].id] == i
            } by {
                if i < index {
                    assert(old(self).entities@.contains_key(old(self).rows@[i].id));
                }
            }
        }
        index
    }

    /// Removes the row of `entity` by moving the last row into its slot;
    /// returns the row it had.
    pub fn swap_remove(&mut self, entity: &Entity) -> (r: usize)
        requires
            old(self).wf(),
            old(self)@.contains(*entity),
        ensures
            final(self).wf(),
            r < old(self)@.len(),
            old(self)@[r as int] == *entity,
            r == row_of(old(self)@, *entity),
            final(self)@ == swap_removed(old(self)@, r as int),
            !final(self)@.contains(*entity),
    {
        let ghost old_rows = self.rows@;
        let ghost old_map = self.entities@;
        let found = self.find_index(entity);
        let index = match found {
            Some(i) => i,
            None => { return 0; },
        };
        let last = self.rows.len() - 1;
        let swapped = self.rows[last];
        proof {
            self.lemma_unique();
            lemma_row_of(self@, index as int);
        }
        self.rows.swap_remove(index);
        self.entities.insert(swapped.id, index);
        self.entities.remove(&entity.id);
        proof {
            assert(old_map.contains_key(swapped.id));
            assert(old_map.contains_key(entity.id));
            assert forall|i: int| 0 <= i < self.rows@.len() implies {
                &&& #[trigger] self.entities@.contains_key(self.rows@[i].id)
                &&& self.entities@[self.rows@[i].id] == i
            } by {
                if i != index {
                    assert(old_map.contains_key(old_rows[i].id));
                    assert(old_rows[i].id != entity.id);
                    assert(old_rows[i].id != swapped.id);
                }
            }
            assert forall|k: u64| #[trigger]
                self.entities@.contains_key(k) implies self.entities@[k] < self.rows@.len()
                && self.rows@[self.entities@[k] as int].id == k by {
                assert(old_map.contains_key(k));
                if k != swapped.id {
                    assert(old_map[k] != index);
                    assert(old_map[k] != last);
                }
            }
            if self@.contains(*entity) {
                let j = choose|j: int| 0 <= j < self@.len() && self@[j] == *entity;
                if j != index {
                    assert(old_rows[j] == *entity);
                } else {
                    assert(old_rows[last as int] == *entity);
                }
            }
        }
        index
    }
}

} // verus!
