use vstd::prelude::*;

verus! {

/// An opaque handle for a logical object; two handles are the same entity
/// exactly when their ids are equal.
#[derive(Clone, Copy, Debug, PartialEq, Eq, Structural, Hash)]
pub struct Entity {
    pub id: u64,
}

impl Entity {
    pub fn new(id: u64) -> (r: Entity)
        ensures
            r.id == id,
    {
        Entity { id }
    }
}

} // verus!
