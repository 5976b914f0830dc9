use vstd::prelude::*;
use crate::component::{row_of, swap_removed, unique_ids};
use crate::entity::Entity;
use crate::error::EcsError;
use crate::hierarchy_component::HierarchyComponent;
use crate::name_component::NameComponent;

verus! {

/// The kind id of the naming kind.
pub const NAME_KIND: u64 = 1;

/// The kind id of the hierarchy kind.
pub const HIERARCHY_KIND: u64 = 2;

/// One registered component kind, of any of the concrete kinds.
pub enum AnyComponent {
    Name(NameComponent),
    Hierarchy(HierarchyComponent),
}

impl AnyComponent {
    /// The stable id of the kind.
    pub open spec fn kind(&self) -> u64 {
        match self {
            AnyComponent::Name(_) => NAME_KIND,
            AnyComponent::Hierarchy(_) => HIERARCHY_KIND,
        }
    }

    /// The entity of each row of the kind.
    pub open spec fn rows(&self) -> Seq<Entity> {
        match self {
            AnyComponent::Name(c) => c.entities(),
            AnyComponent::Hierarchy(c) => c.entities(),
        }
    }

    pub open spec fn wf(&self) -> bool {
        match self {
            AnyComponent::Name(c) => c.wf(),
            AnyComponent::Hierarchy(c) => c.wf(),
        }
    }

    /// A well-formed kind never holds an entity twice.
    pub proof fn lemma_unique(&self)
        requires
            self.wf(),
        ensures
            unique_ids(self.rows()),
    {
        match self {
            AnyComponent::Name(c) => c.lemma_unique(),
            AnyComponent::Hierarchy(c) => c.lemma_shape(),
        }
    }

    pub fn kind_id(&self) -> (r: u64)
        ensures
            r == self.kind(),
    {
        match self {
            AnyComponent::Name(_) => NAME_KIND,
            AnyComponent::Hierarchy(_) => HIERARCHY_KIND,
        }
    }

    /// Whether the kind holds no rows.
    pub fn is_empty(&self) -> (r: bool)
        requires
            self.wf(),
        ensures
            r == (self.rows().len() == 0),
    {
        match self {
            AnyComponent::Name(c) => c.is_empty(),
            AnyComponent::Hierarchy(c) => c.is_empty(),
        }
    }

    /// The number of rows.
    pub fn len(&self) -> (r: usize)
        requires
            self.wf(),
        ensures
            r == self.rows().len(),
    {
        match self {
            AnyComponent::Name(c) => c.len(),
            AnyComponent::Hierarchy(c) => c.len(),
        }
    }

    /// Whether `entity` has a row in the kind.
    pub fn does_exist(&self, entity: &Entity) -> (r: bool)
        requires
            self.wf(),
        ensures
            r == self.rows().contains(*entity),
    {
        match self {
            AnyComponent::Name(c) => c.does_exist(entity),
            AnyComponent::Hierarchy(c) => c.does_exist(entity),
        }
    }

    /// Adds a row for `entity` to the kind.
    pub fn attach(&mut self, entity: Entity) -> (r: Result<usize, EcsError>)
        requires
            old(self).wf(),
            old(self).rows().len() < usize::MAX,
        ensures
            final(self).wf(),
            final(self).kind() == old(self).kind(),
            old(self).rows().contains(entity) ==> r == Err::<usize, EcsError>(
                EcsError::AlreadyExists,
            ) && *final(self) == *old(self),
            !old(self).rows().contains(entity) ==> r == Ok::<usize, EcsError>(
                old(self).rows().len() as usize,
            ) && final(self).rows() == old(self).rows().push(entity),
    {
        match self {
            AnyComponent::Name(c) => c.attach(entity),
            AnyComponent::Hierarchy(c) => c.attach(entity),
        }
    }

    /// Removes the row of `entity` from the kind by a swap-remove.
    pub fn detach(&mut self, entity: Entity) -> (r: Result<(), EcsError>)
        requires
            old(self).wf(),
        ensures
            final(self).wf(),
            final(self).kind() == old(self).kind(),
            !old(self).rows().contains(entity) ==> r == Err::<(), EcsError>(EcsError::NotFound)
                && *final(self) == *old(self),
            old(self).rows().contains(entity) ==> r == Ok::<(), EcsError>(()) && final(self).rows()
                == swap_removed(old(self).rows(), row_of(old(self).rows(), entity)),
    {
        match self {
            AnyComponent::Name(c) => c.detach(entity),
            AnyComponent::Hierarchy(c) => c.detach(entity),
        }
    }
}

} // verus!
