use vstd::prelude::*;

verus! {

/// Identifier of an allocatable role.
#[derive(Clone, Copy, Debug, PartialEq, Eq, Structural, Hash, PartialOrd, Ord)]
pub struct RoleId(pub u64);

/// Identifier of a participant.
#[derive(Clone, Copy, Debug, PartialEq, Eq, Structural, Hash, PartialOrd, Ord)]
pub struct UserId(pub u64);

} // verus!
