use vstd::prelude::*;

verus! {

/// Why an operation on the store was not applied.
#[derive(Clone, Copy, Debug, PartialEq, Eq, Structural)]
pub enum EcsError {
    /// An entity, a component kind or an index is absent.
    NotFound,
    /// A duplicate attach or a duplicate kind registration.
    AlreadyExists,
    /// An index at or past the number of rows.
    OutOfBounds,
    /// A kind that still owns rows cannot be unregistered.
    NotEmpty,
    /// The operation would break a cross-kind rule, such as removing an
    /// entity that still has children.
    InvariantViolation,
}

} // verus!
