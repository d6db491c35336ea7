//! Entity handles.

use vstd::prelude::*;

verus! {

/// A handle for a simulated object: a number and nothing else. A world
/// never hands out the same handle twice.
#[derive(Clone, Copy, Debug, PartialEq, Eq, Structural)]
pub struct Entity {
    pub id: u64,
}

impl Entity {
    /// The handle with the given number.
    pub fn from_id(id: u64) -> (e: Entity)
        ensures
            e == (Entity { id }),
    {
        Entity { id }
    }

    /// The number behind the handle.
    pub fn id(&self) -> (id: u64)
        ensures
            id == self.id,
    {
        self.id
    }
}

} // verus!
