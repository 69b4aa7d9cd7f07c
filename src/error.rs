use vstd::prelude::*;

verus! {

/// Failures of the registry operations.
#[derive(Clone, Copy, Debug, PartialEq, Eq, Structural)]
pub enum Error {
    /// Reserved for an absent optional value.
    NoneValue,
    /// The action is disallowed whatever the caller's role.
    InvalidAction,
    /// Malformed input.
    InvalidData,
    /// The caller lacks the role that the operation needs.
    NotAuthorized,
    /// The referenced account or zone has no record.
    NotExists,
}

} // verus!
