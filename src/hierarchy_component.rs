use std::collections::HashSet;
use vstd::prelude::*;
use crate::component::{lemma_row_of, row_of, swap_removed, unique_ids, Component};
use crate::entity::Entity;
use crate::error::EcsError;

verus! {

broadcast use vstd::std_specs::hash::group_hash_axioms;

/// The parent column after row `c` is given the entity of row `p` as parent.
pub open spec fn linked_parents(
    pars: Seq<Option<Entity>>,
    ents: Seq<Entity>,
    p: int,
    c: int,
) -> Seq<Option<Entity>> {
    pars.update(c, Some(ents[p]))
}

/// The children column after row `p` gains the entity of row `c`.
pub open spec fn linked_children(
    chs: Seq<Set<u64>>,
    ents: Seq<Entity>,
    p: int,
    c: int,
) -> Seq<Set<u64>> {
    chs.update(p, chs[p].insert(ents[c].id))
}

/// The parent column after row `c` loses its parent.
pub open spec fn unlinked_parents(pars: Seq<Option<Entity>>, c: int) -> Seq<Option<Entity>> {
    pars.update(c, None)
}

/// The children column after row `p` loses the entity of row `c`.
pub open spec fn unlinked_children(
    chs: Seq<Set<u64>>,
    ents: Seq<Entity>,
    p: int,
    c: int,
) -> Seq<Set<u64>> {
    chs.update(p, chs[p].remove(ents[c].id))
}

/// The children column once the entity of row `i` has been taken out of its
/// parent's children, where that parent still has a row.
pub open spec fn children_without(
    chs: Seq<Set<u64>>,
    ents: Seq<Entity>,
    pars: Seq<Option<Entity>>,
    i: int,
) -> Seq<Set<u64>> {
    match pars[i] {
        Some(p) => if ents.contains(p) {
            chs.update(row_of(ents, p), chs[row_of(ents, p)].remove(ents[i].id))
        } else {
            chs
        },
        None => chs,
    }
}

/// Linking a child to a parent makes the child name the parent and the
/// parent list the child; unlinking the same pair clears both again, and
/// where the pair was not linked before, it restores both columns exactly.
pub proof fn lemma_link_then_unlink(
    ents: Seq<Entity>,
    pars: Seq<Option<Entity>>,
    chs: Seq<Set<u64>>,
    p: int,
    c: int,
)
    requires
        0 <= p < ents.len(),
        0 <= c < ents.len(),
        pars.len() == ents.len(),
        chs.len() == ents.len(),
    ensures
        linked_parents(pars, ents, p, c)[c] == Some(ents[p]),
        linked_children(chs, ents, p, c)[p].contains(ents[c].id),
        unlinked_parents(linked_parents(pars, ents, p, c), c)[c] == None::<Entity>,
        !unlinked_children(linked_children(chs, ents, p, c), ents, p, c)[p].contains(ents[c].id),
        pars[c] == None::<Entity> && !chs[p].contains(ents[c].id) ==> {
            &&& unlinked_parents(linked_parents(pars, ents, p, c), c) == pars
            &&& unlinked_children(linked_children(chs, ents, p, c), ents, p, c) == chs
        },
{
    if pars[c] == None::<Entity> && !chs[p].contains(ents[c].id) {
        assert(unlinked_parents(linked_parents(pars, ents, p, c), c) =~= pars);
        assert(chs[p].insert(ents[c].id).remove(ents[c].id) =~= chs[p]);
        assert(unlinked_children(linked_children(chs, ents, p, c), ents, p, c) =~= chs);
    }
}

/// Parent and child links agree: a row names another as its parent exactly
/// when that row lists it among its children; every parent named and every
/// child listed has a row.
pub open spec fn links_consistent(
    ents: Seq<Entity>,
    pars: Seq<Option<Entity>>,
    chs: Seq<Set<u64>>,
) -> bool {
    &&& pars.len() == ents.len()
    &&& chs.len() == ents.len()
    &&& forall|i: int, j: int|
        0 <= i < ents.len() && 0 <= j < ents.len() ==> (pars[j] == Some(ents[i])
            <==> #[trigger] chs[i].contains(ents[j].id))
    &&& forall|i: int, x: u64|
        0 <= i < ents.len() && #[trigger] chs[i].contains(x) ==> exists|j: int|
            0 <= j < ents.len() && ents[j].id == x
    &&& forall|j: int| 0 <= j < ents.len() && (#[trigger] pars[j]) is Some ==> ents.contains(pars[j]->0)
}

/// A new row, with no parent and no children, keeps the links consistent.
pub proof fn lemma_attach_keeps_links(
    ents: Seq<Entity>,
    pars: Seq<Option<Entity>>,
    chs: Seq<Set<u64>>,
    e: Entity,
)
    requires
        links_consistent(ents, pars, chs),
        !ents.contains(e),
    ensures
        links_consistent(ents.push(e), pars.push(None), chs.push(Set::<u64>::empty())),
{
    let ents2 = ents.push(e);
    let pars2 = pars.push(None);
    let chs2 = chs.push(Set::<u64>::empty());
    let n = ents.len() as int;
    assert forall|i: int, j: int| 0 <= i < ents2.len() && 0 <= j < ents2.len() implies (pars2[j]
        == Some(ents2[i]) <==> #[trigger] chs2[i].contains(ents2[j].id)) by {
        if i < n && j < n {
            assert(chs[i].contains(ents[j].id) == (pars[j] == Some(ents[i])));
        } else if i < n && j == n {
            if chs[i].contains(e.id) {
                let k = choose|k: int| 0 <= k < ents.len() && ents[k].id == e.id;
                assert(ents[k] == e);
            }
        } else if i == n && j < n {
            if pars[j] == Some(e) {
                assert(ents.contains(pars[j]->0));
            }
        }
    }
    assert forall|j: int| 0 <= j < ents2.len() && (#[trigger] pars2[j]) is Some implies ents2.contains(pars2[j]->0) by {
        let k = choose|k: int| 0 <= k < ents.len() && ents[k] == pars[j]->0;
        assert(ents2[k] == ents[k]);
    }
    assert forall|i: int, x: u64| 0 <= i < ents2.len() && #[trigger] chs2[i].contains(x) implies exists|j: int|
        0 <= j < ents2.len() && ents2[j].id == x by {
        let k = choose|k: int| 0 <= k < ents.len() && ents[k].id == x;
        assert(ents2[k].id == x);
    }
}

/// Giving a row without a parent a parent keeps the links consistent.
pub proof fn lemma_add_child_keeps_links(
    ents: Seq<Entity>,
    pars: Seq<Option<Entity>>,
    chs: Seq<Set<u64>>,
    p: int,
    c: int,
)
    requires
        links_consistent(ents, pars, chs),
        unique_ids(ents),
        0 <= p < ents.len(),
        0 <= c < ents.len(),
        pars[c] == None::<Entity>,
    ensures
        links_consistent(
            ents,
            linked_parents(pars, ents, p, c),
            linked_children(chs, ents, p, c),
        ),
{
    let pars2 = linked_parents(pars, ents, p, c);
    let chs2 = linked_children(chs, ents, p, c);
    assert forall|i: int, j: int| 0 <= i < ents.len() && 0 <= j < ents.len() implies (pars2[j]
        == Some(ents[i]) <==> #[trigger] chs2[i].contains(ents[j].id)) by {
        assert(chs[i].contains(ents[j].id) == (pars[j] == Some(ents[i])));
        assert(chs[i].contains(ents[c].id) == (pars[c] == Some(ents[i])));
        if ents[i] == ents[p] {
            assert(i == p);
        }
        if ents[j].id == ents[c].id {
            assert(j == c);
        }
    }
    assert forall|i: int, x: u64| 0 <= i < ents.len() && #[trigger] chs2[i].contains(x) implies exists|j: int|
        0 <= j < ents.len() && ents[j].id == x by {
        if !(i == p && x == ents[c].id) {
            assert(chs[i].contains(x));
        }
    }
}

/// Taking a row from its parent, or from a row when it has no parent, keeps
/// the links consistent.
pub proof fn lemma_remove_child_keeps_links(
    ents: Seq<Entity>,
    pars: Seq<Option<Entity>>,
    chs: Seq<Set<u64>>,
    p: int,
    c: int,
)
    requires
        links_consistent(ents, pars, chs),
        unique_ids(ents),
        0 <= p < ents.len(),
        0 <= c < ents.len(),
        pars[c] == None::<Entity> || pars[c] == Some(ents[p]),
    ensures
        links_consistent(ents, unlinked_parents(pars, c), unlinked_children(chs, ents, p, c)),
{
    let pars2 = unlinked_parents(pars, c);
    let chs2 = unlinked_children(chs, ents, p, c);
    assert forall|i: int, j: int| 0 <= i < ents.len() && 0 <= j < ents.len() implies (pars2[j]
        == Some(ents[i]) <==> #[trigger] chs2[i].contains(ents[j].id)) by {
        assert(chs[i].contains(ents[j].id) == (pars[j] == Some(ents[i])));
        assert(chs[i].contains(ents[c].id) == (pars[c] == Some(ents[i])));
        if ents[i] == ents[p] {
            assert(i == p);
        }
        if ents[j].id == ents[c].id {
            assert(j == c);
        }
    }
    assert forall|i: int, x: u64| 0 <= i < ents.len() && #[trigger] chs2[i].contains(x) implies exists|j: int|
        0 <= j < ents.len() && ents[j].id == x by {
        assert(chs[i].contains(x));
    }
}

/// Moving a row from its parent to another parent keeps the links
/// consistent.
pub proof fn lemma_move_child_keeps_links(
    ents: Seq<Entity>,
    pars: Seq<Option<Entity>>,
    chs: Seq<Set<u64>>,
    old_p: int,
    p: int,
    c: int,
)
    requires
        links_consistent(ents, pars, chs),
        unique_ids(ents),
        0 <= old_p < ents.len(),
        0 <= p < ents.len(),
        0 <= c < ents.len(),
        pars[c] == None::<Entity> || pars[c] == Some(ents[old_p]),
    ensures
        links_consistent(
            ents,
            linked_parents(unlinked_parents(pars, c), ents, p, c),
            linked_children(unlinked_children(chs, ents, old_p, c), ents, p, c),
        ),
{
    lemma_remove_child_keeps_links(ents, pars, chs, old_p, c);
    lemma_add_child_keeps_links(
        ents,
        unlinked_parents(pars, c),
        unlinked_children(chs, ents, old_p, c),
        p,
        c,
    );
}

/// Detaching a row that no row names as its parent keeps the links
/// consistent.
pub proof fn lemma_detach_keeps_links(
    ents: Seq<Entity>,
    pars: Seq<Option<Entity>>,
    chs: Seq<Set<u64>>,
    e: Entity,
)
    requires
        links_consistent(ents, pars, chs),
        unique_ids(ents),
        ents.contains(e),
        forall|j: int| 0 <= j < ents.len() ==> pars[j] != Some(e),
    ensures
        ({
            let i = row_of(ents, e);
            links_consistent(
                swap_removed(ents, i),
                swap_removed(pars, i),
                swap_removed(children_without(chs, ents, pars, i), i),
            )
        }),
{
    let k0 = choose|k: int| 0 <= k < ents.len() && ents[k] == e;
    lemma_row_of(ents, k0);
    let i = row_of(ents, e);
    let n = ents.len() as int;
    let last = n - 1;
    let chs1 = children_without(chs, ents, pars, i);
    assert forall|k: int, x: u64| 0 <= k < n implies (#[trigger] chs1[k].contains(x) <==> (
    chs[k].contains(x) && x != e.id)) by {
        assert(chs[k].contains(ents[i].id) == (pars[i] == Some(ents[k])));
        match pars[i] {
            Some(p) => {
                assert(ents.contains(pars[i]->0));
                let q = row_of(ents, p);
                let kq = choose|m: int| 0 <= m < ents.len() && ents[m] == p;
                lemma_row_of(ents, kq);
                if ents[k] == p {
                    assert(k == q);
                }
            },
            None => {},
        }
    }
    let e2 = swap_removed(ents, i);
    let p2 = swap_removed(pars, i);
    let c2 = swap_removed(chs1, i);
    assert forall|a: int| 0 <= a < n - 1 implies e2[a] == ents[if a == i { last } else { a }] && p2[a]
        == pars[if a == i { last } else { a }] && c2[a] == chs1[if a == i { last } else { a }] by {}
    assert forall|a: int, b: int| 0 <= a < e2.len() && 0 <= b < e2.len() implies (p2[b] == Some(e2[a])
        <==> #[trigger] c2[a].contains(e2[b].id)) by {
        let oa = if a == i { last } else { a };
        let ob = if b == i { last } else { b };
        assert(chs[oa].contains(ents[ob].id) == (pars[ob] == Some(ents[oa])));
        assert(chs1[oa].contains(ents[ob].id) == (chs[oa].contains(ents[ob].id) && ents[ob].id != e.id));
        assert(ents[ob].id != ents[i].id);
    }
    assert forall|a: int, x: u64| 0 <= a < e2.len() && #[trigger] c2[a].contains(x) implies exists|j: int|
        0 <= j < e2.len() && e2[j].id == x by {
        let oa = if a == i { last } else { a };
        assert(chs1[oa].contains(x));
        assert(chs[oa].contains(x) && x != e.id);
        let j = choose|j: int| 0 <= j < ents.len() && ents[j].id == x;
        assert(j != i);
        let nj = if j == last { i } else { j };
        assert(e2[nj].id == x);
    }
    assert forall|b: int| 0 <= b < e2.len() && (#[trigger] p2[b]) is Some implies e2.contains(p2[b]->0) by {
        let ob = if b == i { last } else { b };
        assert(pars[ob] is Some);
        assert(ents.contains(pars[ob]->0));
        let j = choose|j: int| 0 <= j < ents.len() && ents[j] == pars[ob]->0;
        assert(j != i);
        let nj = if j == last { i } else { j };
        assert(e2[nj] == pars[ob]->0);
    }
}

/// The parent/child relation: per row, the entity, its parent, and the ids
/// of its children.
pub struct HierarchyComponent {
    component: Component,
    parent: Vec<Option<Entity>>,
    children: Vec<HashSet<u64>>,
}

impl HierarchyComponent {
    /// The entity of each row.
    pub closed spec fn entities(&self) -> Seq<Entity> {
        self.component@
    }

    /// The parent of each row.
    pub closed spec fn parents(&self) -> Seq<Option<Entity>> {
        self.parent@
    }

    /// The ids of the children of each row.
    pub closed spec fn children(&self) -> Seq<Set<u64>> {
        Seq::new(self.children@.len(), |i: int| self.children@[i]@)
    }

    /// The three columns are as long as the row store, which is well formed.
    pub closed spec fn wf(&self) -> bool {
        &&& self.component.wf()
        &&& self.parent@.len() == self.component@.len()
        &&& self.children@.len() == self.component@.len()
    }

    /// The columns of a well-formed hierarchy have one entry per row, and no
    /// entity has two rows.
    pub proof fn lemma_shape(&self)
        requires
            self.wf(),
        ensures
            self.parents().len() == self.entities().len(),
            self.children().len() == self.entities().len(),
            unique_ids(self.entities()),
    {
        self.component.lemma_unique();
    }

    pub fn new() -> (r: HierarchyComponent)
        ensures
            r.wf(),
            r.entities() == Seq::<Entity>::empty(),
    {
        HierarchyComponent { component: Component::new(), parent: Vec::new(), children: Vec::new() }
    }

    /// The number of rows.
    pub fn len(&self) -> (r: usize)
        requires
            self.wf(),
        ensures
            r == self.entities().len(),
    {
        self.component.len()
    }

    /// The row that holds `entity`, if any.
    pub fn find_index(&self, entity: &Entity) -> (r: Option<usize>)
        requires
            self.wf(),
        ensures
            match r {
                Some(i) => i < self.entities().len() && self.entities()[i as int] == *entity,
                None => !self.entities().contains(*entity),
            },
    {
        self.component.find_index(entity)
    }

    /// Whether `entity` has a row.
    pub fn does_exist(&self, entity: &Entity) -> (r: bool)
        requires
            self.wf(),
        ensures
            r == self.entities().contains(*entity),
    {
        self.component.does_exist(entity)
    }

    /// Whether no entity is attached.
    pub fn is_empty(&self) -> (r: bool)
        requires
            self.wf(),
        ensures
            r == (self.entities().len() == 0),
    {
        self.component.len() == 0
    }

    /// Adds a row for `entity`, with no parent and no children.
    pub fn attach(&mut self, entity: Entity) -> (r: Result<usize, EcsError>)
        requires
            old(self).wf(),
            old(self).entities().len() < usize::MAX,
        ensures
            final(self).wf(),
            old(self).entities().contains(entity) ==> r == Err::<usize, EcsError>(
                EcsError::AlreadyExists,
            ) && *final(self) == *old(self),
            !old(self).entities().contains(entity) ==> {
                &&& r == Ok::<usize, EcsError>(old(self).entities().len() as usize)
                &&& final(self).entities() == old(self).entities().push(entity)
                &&& final(self).parents() == old(self).parents().push(None)
                &&& final(self).children() == old(self).children().push(Set::<u64>::empty())
            },
    {
        if self.component.does_exist(&entity) {
            return Err(EcsError::AlreadyExists);
        }
        let index = self.component.push(entity);
        self.parent.push(None);
        self.children.push(HashSet::new());
        proof {
            assert(self.children() =~= old(self).children().push(Set::<u64>::empty()));
        }
        Ok(index)
    }

    /// Removes the row of `entity`: first takes it out of its parent's
    /// children, then moves the last row into its slot.
    pub fn detach(&mut self, entity: Entity) -> (r: Result<(), EcsError>)
        requires
            old(self).wf(),
        ensures
            final(self).wf(),
            !old(self).entities().contains(entity) ==> r == Err::<(), EcsError>(
                EcsError::NotFound,
            ) && *final(self) == *old(self),
            old(self).entities().contains(entity) ==> {
                let i = row_of(old(self).entities(), entity);
                &&& r == Ok::<(), EcsError>(())
                &&& final(self).entities() == swap_removed(old(self).entities(), i)
                &&& final(self).parents() == swap_removed(old(self).parents(), i)
                &&& final(self).children() == swap_removed(
                    children_without(
                        old(self).children(),
                        old(self).entities(),
                        old(self).parents(),
                        i,
                    ),
                    i,
                )
            },
    {
        let found = self.component.find_index(&entity);
        let index = match found {
            Some(i) => i,
            None => { return Err(EcsError::NotFound); },
        };
        proof {
            self.component.lemma_unique();
            assert(old(self).entities().contains(entity));
            let j = row_of(old(self).entities(), entity);
            assert(j == index as int);
        }
        let ghost mid_children = children_without(
            old(self).children(),
            old(self).entities(),
            old(self).parents(),
            index as int,
        );
        match self.parent[index] {
            Some(p) => {
                match self.component.find_index(&p) {
                    Some(p_index) => {
                        proof {
                            assert(row_of(old(self).entities(), p) == p_index as int);
                        }
                        let c = self.component.entity(index);
                        self.children[p_index].remove(&c.id);
                    },
                    None => {},
                }
            },
            None => {},
        }
        proof {
            assert(self.children() =~= mid_children);
        }
        self.component.swap_remove(&entity);
        self.parent.swap_remove(index);
        self.children.swap_remove(index);
        proof {
            assert(self.children() =~= swap_removed(mid_children, index as int));
        }
        Ok(())
    }

    /// Makes the entity of row `p_index` the parent of the entity of row
    /// `c_index`. No check against cycles is made.
    pub fn add_child(&mut self, p_index: usize, c_index: usize) -> (r: Result<(), EcsError>)
        requires
            old(self).wf(),
        ensures
            final(self).wf(),
            final(self).entities() == old(self).entities(),
            p_index >= old(self).entities().len() || c_index >= old(self).entities().len() ==> r
                == Err::<(), EcsError>(EcsError::OutOfBounds) && *final(self) == *old(self),
            p_index < old(self).entities().len() && c_index < old(self).entities().len() ==> {
                &&& r == Ok::<(), EcsError>(())
                &&& final(self).parents() == linked_parents(
                    old(self).parents(),
                    old(self).entities(),
                    p_index as int,
                    c_index as int,
                )
                &&& final(self).children() == linked_children(
                    old(self).children(),
                    old(self).entities(),
                    p_index as int,
                    c_index as int,
                )
            },
    {
        if !self.component.bounds_check(p_index) || !self.component.bounds_check(c_index) {
            return Err(EcsError::OutOfBounds);
        }
        let p = self.component.entity(p_index);
        let c = self.component.entity(c_index);
        self.parent.set(c_index, Some(p));
        self.children[p_index].insert(c.id);
        proof {
            assert(self.children() =~= linked_children(
                old(self).children(),
                old(self).entities(),
                p_index as int,
                c_index as int,
            ));
        }
        Ok(())
    }

    /// Clears the parent of row `c_index` and takes its entity out of the
    /// children of row `p_index`.
    pub fn remove_child(&mut self, p_index: usize, c_index: usize) -> (r: Result<(), EcsError>)
        requires
            old(self).wf(),
        ensures
            final(self).wf(),
            final(self).entities() == old(self).entities(),
            p_index >= old(self).entities().len() || c_index >= old(self).entities().len() ==> r
                == Err::<(), EcsError>(EcsError::OutOfBounds) && *final(self) == *old(self),
            p_index < old(self).entities().len() && c_index < old(self).entities().len() ==> {
                &&& r == Ok::<(), EcsError>(())
                &&& final(self).parents() == unlinked_parents(old(self).parents(), c_index as int)
                &&& final(self).children() == unlinked_children(
                    old(self).children(),
                    old(self).entities(),
                    p_index as int,
                    c_index as int,
                )
            },
    {
        if !self.component.bounds_check(p_index) || !self.component.bounds_check(c_index) {
            return Err(EcsError::OutOfBounds);
        }
        let c = self.component.entity(c_index);
        self.children[p_index].remove(&c.id);
        self.parent.set(c_index, None);
        proof {
            assert(self.children() =~= unlinked_children(
                old(self).children(),
                old(self).entities(),
                p_index as int,
                c_index as int,
            ));
        }
        Ok(())
    }

    /// Moves the entity of row `c_index` from the parent at `old_p_index` to
    /// the parent at `p_index`, as a removal followed by an addition.
    pub fn move_child(&mut self, old_p_index: usize, p_index: usize, c_index: usize) -> (r: Result<
        (),
        EcsError,
    >)
        requires
            old(self).wf(),
        ensures
            final(self).wf(),
            final(self).entities() == old(self).entities(),
            old_p_index >= old(self).entities().len() || p_index >= old(self).entities().len()
                || c_index >= old(self).entities().len() ==> r == Err::<(), EcsError>(
                EcsError::OutOfBounds,
            ) && *final(self) == *old(self),
            old_p_index < old(self).entities().len() && p_index < old(self).entities().len()
                && c_index < old(self).entities().len() ==> {
                &&& r == Ok::<(), EcsError>(())
                &&& final(self).parents() == linked_parents(
                    unlinked_parents(old(self).parents(), c_index as int),
                    old(self).entities(),
                    p_index as int,
                    c_index as int,
                )
                &&& final(self).children() == linked_children(
                    unlinked_children(
                        old(self).children(),
                        old(self).entities(),
                        old_p_index as int,
                        c_index as int,
                    ),
                    old(self).entities(),
                    p_index as int,
                    c_index as int,
                )
            },
    {
        if !self.component.bounds_check(old_p_index) || !self.component.bounds_check(p_index)
            || !self.component.bounds_check(c_index) {
            return Err(EcsError::OutOfBounds);
        }
        self.remove_child(old_p_index, c_index)?;
        self.add_child(p_index, c_index)?;
        Ok(())
    }

    /// The entity of row `index`.
    pub fn get_entity(&self, index: usize) -> (r: Result<Entity, EcsError>)
        requires
            self.wf(),
        ensures
            index < self.entities().len() ==> r == Ok::<Entity, EcsError>(
                self.entities()[index as int],
            ),
            index >= self.entities().len() ==> r == Err::<Entity, EcsError>(EcsError::OutOfBounds),
    {
        if !self.component.bounds_check(index) {
            return Err(EcsError::OutOfBounds);
        }
        Ok(self.component.entity(index))
    }

    /// The parent of row `index`.
    pub fn get_parent(&self, index: usize) -> (r: Result<Option<Entity>, EcsError>)
        requires
            self.wf(),
        ensures
            index < self.entities().len() ==> r == Ok::<Option<Entity>, EcsError>(
                self.parents()[index as int],
            ),
            index >= self.entities().len() ==> r == Err::<Option<Entity>, EcsError>(
                EcsError::OutOfBounds,
            ),
    {
        if !self.component.bounds_check(index) {
            return Err(EcsError::OutOfBounds);
        }
        Ok(self.parent[index])
    }

    /// The ids of the children of row `index`.
    pub fn get_children(&self, index: usize) -> (r: Result<&HashSet<u64>, EcsError>)
        requires
            self.wf(),
        ensures
            index < self.entities().len() ==> r.is_ok() && r.unwrap()@ == self.children()[index as int],
            index >= self.entities().len() ==> r == Err::<&HashSet<u64>, EcsError>(
                EcsError::OutOfBounds,
            ),
    {
        if !self.component.bounds_check(index) {
            return Err(EcsError::OutOfBounds);
        }
        Ok(&self.children[index])
    }
}

} // verus!
