//! Entity identifiers.

use vstd::prelude::*;

verus! {

/// Unique identifier of an entity in a `World`.
#[derive(Clone, Copy, PartialEq, Eq, Structural, Hash, Debug)]
pub struct EntityId {
    pub id: u32,
}

impl EntityId {
    pub fn new(id: u32) -> (r: Self)
        ensures
            r.id == id,
    {
        EntityId { id }
    }

    /// An identifier from its raw value, as kept outside the world.
    pub fn from_raw(id: u32) -> (r: Self)
        ensures
            r.id == id,
    {
        EntityId { id }
    }

    /// The raw value of the identifier.
    pub fn id(&self) -> (r: u32)
        ensures
            r == self.id,
    {
        self.id
    }
}

} // verus!
